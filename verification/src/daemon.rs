//! Serving an index while the store changes.
//!
//! A pass re-reads the store between requests, one step at a time. One that is
//! overtaken by a newer store is given up, since finishing it would put a
//! snapshot in place that is already wrong; what it has embedded and when it
//! began go to the pass that replaces it. Nothing is swapped in but on success:
//! a stale index still answers.
use vstd::prelude::*;

use crate::index::{
    after, applied, apply_fails, begun, can_apply, disk_view, failed_after, given_along,
    given_for_batch, lemma_one_more, pruned, recorded, ApplyError, BeginError, Cache, EmbedError,
    Index, IndexView, Reindex, ReindexView, WarmCache, WarmView,
};
use crate::links::{graph_of, spoils, GraphView, LinkGraph};
use crate::store::{
    all_readable, chunks_along, first_unreadable, listing, StoreEntry, Unreadable,
};

verus! {

/// What is served: the index, the links, and the stamp of the store that they
/// were made from.
pub struct Served {
    pub index: Index,
    pub graph: LinkGraph,
    pub stamp: i128,
}

/// What is served.
#[verifier::ext_equal]
pub struct ServedView {
    pub index: IndexView,
    pub graph: GraphView,
    pub stamp: i128,
}

impl View for Served {
    type V = ServedView;

    open spec fn view(&self) -> ServedView {
        ServedView { index: self.index@, graph: self.graph@, stamp: self.stamp }
    }
}

/// Why a pass was not put in place. Either part is missing where it did not
/// fail of itself: the work was not there, or the store could not be listed.
#[derive(Debug, PartialEq, Eq)]
pub struct LandError {
    pub index: Option<ApplyError>,
    pub links: Option<Unreadable>,
}

/// There is finished work to be put in place.
pub open spec fn has_index(work: Option<ReindexView>) -> bool {
    work matches Some(w) && can_apply(w)
}

/// The links of these entries can be had.
pub open spec fn has_links(entries: Option<Seq<StoreEntry>>) -> bool {
    entries matches Some(es) && forall|i: int| 0 <= i < es.len() ==> !#[trigger] spoils(es, i)
}

/// Why a pass was not put in place, part by part.
pub open spec fn land_fails(
    work: Option<ReindexView>,
    entries: Option<Seq<StoreEntry>>,
    e: LandError,
) -> bool {
    &&& !(has_index(work) && has_links(entries))
    &&& match e.index {
        Some(why) => work matches Some(w) && apply_fails(w, why),
        None => work is None || has_index(work),
    }
    &&& match e.links {
        Some(u) => {
            &&& entries matches Some(es)
            &&& u.entry < es.len()
            &&& spoils(es, u.entry as int)
            &&& forall|i: int| 0 <= i < u.entry ==> !#[trigger] spoils(es, i)
        },
        None => entries is None || has_links(entries),
    }
}

/// What is served after some work was to be put in place: the new index, links
/// and stamp where both parts are there, and else all that was served before.
/// The old stamp then has the next look try again.
pub open spec fn landed(
    s: ServedView,
    work: Option<ReindexView>,
    entries: Option<Seq<StoreEntry>>,
    stamp: i128,
) -> ServedView {
    if has_index(work) && has_links(entries) {
        ServedView {
            index: applied(work.unwrap()),
            graph: graph_of(entries.unwrap(), entries.unwrap().len() as int),
            stamp,
        }
    } else {
        s
    }
}

/// What some work holds, if it is there.
pub open spec fn work_view(work: Option<Reindex>) -> Option<ReindexView> {
    match work {
        Some(w) => Some(w@),
        None => None,
    }
}

/// The entries of a listing, if there is one.
pub open spec fn entries_view(entries: Option<&Vec<StoreEntry>>) -> Option<Seq<StoreEntry>> {
    match entries {
        Some(es) => Some(es@),
        None => None,
    }
}

impl Served {
    /// Whether the store has changed since this was made.
    pub fn is_stale(&self, now: i128) -> (r: bool)
        ensures
            r == (now > self@.stamp),
    {
        now > self.stamp
    }

    /// Puts finished work in place, with the links of the store as it is listed
    /// now. `work` is missing where it could not be finished or written,
    /// `entries` where the store could not be listed. Where either part cannot
    /// be had, all that is served stays as it was.
    pub fn land(
        &mut self,
        work: Option<Reindex>,
        entries: Option<&Vec<StoreEntry>>,
        stamp: i128,
    ) -> (r: Result<(), LandError>)
        ensures
            final(self)@ == landed(old(self)@, work_view(work), entries_view(entries), stamp),
            match r {
                Ok(_) => has_index(work_view(work)) && has_links(entries_view(entries)),
                Err(e) => land_fails(work_view(work), entries_view(entries), e),
            },
    {
        let mut why: Option<ApplyError> = None;
        let mut next = Index::new();
        let mut ready = false;
        match work {
            Some(w) => match next.apply(w) {
                Ok(_) => {
                    ready = true;
                },
                Err(e) => {
                    why = Some(e);
                },
            },
            None => {},
        }
        let built: Option<Result<LinkGraph, Unreadable>> = match entries {
            Some(es) => Some(LinkGraph::build(es)),
            None => None,
        };
        match built {
            Some(Ok(g)) => if ready {
                self.index = next;
                self.graph = g;
                self.stamp = stamp;
                Ok(())
            } else {
                Err(LandError { index: why, links: None })
            },
            Some(Err(u)) => Err(LandError { index: why, links: Some(u) }),
            None => Err(LandError { index: why, links: None }),
        }
    }
}

/// A pass over the store that is under way.
pub struct Pending {
    /// The stamp of the store when it was read. It counts only on success.
    pub stamp: i128,
    /// When the first pass of the chain began, by the clock of whoever runs it.
    pub started: u128,
    /// How often the chain has begun again.
    pub restarts: usize,
    pub work: Reindex,
}

/// What a pass holds.
#[verifier::ext_equal]
pub struct PendingView {
    pub stamp: i128,
    pub started: u128,
    pub restarts: usize,
    pub work: ReindexView,
}

impl View for Pending {
    type V = PendingView;

    open spec fn view(&self) -> PendingView {
        PendingView {
            stamp: self.stamp,
            started: self.started,
            restarts: self.restarts,
            work: self.work@,
        }
    }
}

/// What a pass that was given up leaves to the one that replaces it.
pub struct Carried {
    pub cache: WarmCache,
    pub started: u128,
    pub restarts: usize,
}

/// What is left to the next pass.
#[verifier::ext_equal]
pub struct CarriedView {
    pub cache: WarmView,
    pub started: u128,
    pub restarts: usize,
}

impl View for Carried {
    type V = CarriedView;

    open spec fn view(&self) -> CarriedView {
        CarriedView { cache: self.cache@, started: self.started, restarts: self.restarts }
    }
}

/// A daemon: what it serves, the pass under way, and what a pass left that
/// could not be replaced yet.
pub struct Daemon {
    pub served: Served,
    pub pending: Option<Pending>,
    pub carried: Option<Carried>,
}

/// What a daemon holds.
#[verifier::ext_equal]
pub struct DaemonView {
    pub served: ServedView,
    pub pending: Option<PendingView>,
    pub carried: Option<CarriedView>,
}

impl View for Daemon {
    type V = DaemonView;

    open spec fn view(&self) -> DaemonView {
        DaemonView {
            served: self.served@,
            pending: match self.pending {
                Some(p) => Some(p@),
                None => None,
            },
            carried: match self.carried {
                Some(c) => Some(c@),
                None => None,
            },
        }
    }
}

/// What is to be done about the store.
#[derive(Clone, Copy, Debug, PartialEq, Eq)]
pub enum Begin {
    /// Nothing: a pass is under way and current, or nothing is new.
    Rest,
    /// A pass, from what was carried along.
    Warm,
    /// A pass, from the cache on disk.
    Cold,
}

/// The pass under way has been overtaken by a newer store.
pub open spec fn overtaken(d: DaemonView, now: i128) -> bool {
    d.pending matches Some(p) && now > p.stamp
}

/// The daemon after a look at the store's stamp.
pub open spec fn looked(d: DaemonView, now: i128) -> DaemonView {
    if overtaken(d, now) {
        let p = d.pending.unwrap();
        DaemonView {
            served: d.served,
            pending: None,
            carried: Some(
                CarriedView {
                    cache: WarmView { cache: p.work.cache, dirty: p.work.dirty },
                    started: p.started,
                    restarts: (p.restarts + 1) as usize,
                },
            ),
        }
    } else {
        d
    }
}

/// What a look at the store's stamp calls for.
pub open spec fn called_for(d: DaemonView, now: i128) -> Begin {
    if d.pending is Some {
        if overtaken(d, now) {
            Begin::Warm
        } else {
            Begin::Rest
        }
    } else if d.carried is Some {
        Begin::Warm
    } else if now <= d.served.stamp {
        Begin::Rest
    } else {
        Begin::Cold
    }
}

/// The daemon with a pass that has just begun on these entries.
pub open spec fn started(
    d: DaemonView,
    now: i128,
    clock: u128,
    entries: Seq<StoreEntry>,
    disk: WarmView,
) -> DaemonView {
    let chunks = chunks_along(entries, listing(entries));
    DaemonView {
        served: d.served,
        pending: Some(
            match d.carried {
                Some(c) => PendingView {
                    stamp: now,
                    started: c.started,
                    restarts: c.restarts,
                    work: begun(chunks, c.cache),
                },
                None => PendingView {
                    stamp: now,
                    started: clock,
                    restarts: 0,
                    work: begun(chunks, disk),
                },
            },
        ),
        carried: None,
    }
}

/// The daemon with its pass at this point.
pub open spec fn at(d: DaemonView, w: ReindexView) -> DaemonView {
    DaemonView {
        served: d.served,
        pending: Some(PendingView { work: w, ..d.pending.unwrap() }),
        carried: d.carried,
    }
}

/// The clock let a pass go on after each of its first `n` steps. It is asked
/// with how many chunks are left at that point.
pub open spec fn let_on<F: Fn(usize) -> bool>(
    in_time: F,
    w: ReindexView,
    batches: Seq<Seq<Seq<u32>>>,
    n: int,
) -> bool {
    forall|k: int|
        1 <= k <= n ==> call_ensures(
            in_time,
            (after(w, #[trigger] batches.take(k)).left() as usize,),
            true,
        )
}

/// One step more, which the clock let happen.
proof fn lemma_let_on<F: Fn(usize) -> bool>(
    in_time: F,
    w: ReindexView,
    batches: Seq<Seq<Seq<u32>>>,
    embs: Seq<Seq<u32>>,
)
    requires
        let_on(in_time, w, batches, batches.len() - 1),
        batches.len() > 0 ==> call_ensures(
            in_time,
            (after(w, batches).left() as usize,),
            true,
        ),
    ensures
        let_on(in_time, w, batches, batches.len() as int),
        let_on(in_time, w, batches.push(embs), batches.push(embs).len() - 1),
{
    let more = batches.push(embs);
    assert forall|k: int| 1 <= k <= batches.len() implies call_ensures(
        in_time,
        (after(w, #[trigger] batches.take(k)).left() as usize,),
        true,
    ) by {
        if k == batches.len() {
            assert(batches.take(k) =~= batches);
        }
    }
    assert forall|k: int| 1 <= k <= more.len() - 1 implies call_ensures(
        in_time,
        (after(w, #[trigger] more.take(k)).left() as usize,),
        true,
    ) by {
        assert(more.take(k) =~= batches.take(k));
    }
}

/// How far a pass was driven.
pub enum Drive {
    /// There was none.
    Idle,
    /// There is more to do.
    Paused,
    /// Everything is embedded: what is left is to write it and put it in place.
    Finished,
    /// The model failed, and the pass is dropped.
    Failed(EmbedError),
}

/// A pass that was put in place: when its chain began, and how often it began
/// again.
#[derive(Clone, Copy, Debug, PartialEq, Eq)]
pub struct Landed {
    pub started: u128,
    pub restarts: usize,
}

impl Daemon {
    /// A daemon with nothing under way.
    pub fn new(served: Served) -> (d: Daemon)
        ensures
            d@ == (DaemonView { served: served@, pending: None, carried: None }),
    {
        Daemon { served, pending: None, carried: None }
    }

    /// Whether a pass is under way.
    pub fn is_busy(&self) -> (r: bool)
        ensures
            r == (self@.pending is Some),
    {
        self.pending.is_some()
    }

    /// Looks at the store's stamp, and says whether a pass has to begin: the
    /// store is newer than what is served, a pass has been overtaken, or one
    /// was given up and not replaced yet. A pass that has been overtaken is
    /// given up.
    pub fn look(&mut self, now: i128) -> (b: Begin)
        requires
            overtaken(old(self)@, now) ==> old(self)@.pending->Some_0.restarts < usize::MAX,
        ensures
            final(self)@ == looked(old(self)@, now),
            b == called_for(old(self)@, now),
    {
        match self.pending.take() {
            Some(p) => if now <= p.stamp {
                self.pending = Some(p);
                Begin::Rest
            } else {
                let Pending { stamp: _, started, restarts, work } = p;
                self.carried = Some(
                    Carried { cache: work.into_warm(), started, restarts: restarts + 1 },
                );
                Begin::Warm
            },
            None => if self.carried.is_some() {
                Begin::Warm
            } else if now <= self.served.stamp {
                Begin::Rest
            } else {
                Begin::Cold
            },
        }
    }

    /// Begins a pass on the entries of the store, from what was carried along
    /// or else from the cache on disk, and says how many chunks it has to
    /// embed. Where an entry cannot be read nothing changes: what was carried
    /// along waits for the next attempt.
    pub fn start(
        &mut self,
        now: i128,
        clock: u128,
        entries: &Vec<StoreEntry>,
        cached: Option<Cache>,
    ) -> (r: Result<usize, Unreadable>)
        requires
            old(self)@.pending is None,
        ensures
            match r {
                Ok(n) => {
                    &&& all_readable(entries@, listing(entries@))
                    &&& final(self)@ == started(
                        old(self)@,
                        now,
                        clock,
                        entries@,
                        disk_view(cached),
                    )
                    &&& n == final(self)@.pending->Some_0.work.missing.len()
                },
                Err(u) => {
                    &&& first_unreadable(entries@, listing(entries@), u.entry as int)
                    &&& final(self)@ == old(self)@
                },
            },
    {
        match self.carried.take() {
            Some(c) => {
                let Carried { cache, started, restarts } = c;
                let mut warm = Some(cache);
                match Index::begin_reindex_with(entries, &mut warm) {
                    Ok(work) => {
                        let n: usize = work.work();
                        self.pending = Some(Pending { stamp: now, started, restarts, work });
                        Ok(n)
                    },
                    Err(BeginError::Store(u)) => {
                        match warm {
                            Some(cache) => {
                                self.carried = Some(Carried { cache, started, restarts });
                            },
                            None => {},
                        }
                        Err(u)
                    },
                    Err(BeginError::NoCache) => Err(Unreadable { entry: 0 }),
                }
            },
            None => match Index::begin_reindex(entries, cached) {
                Ok(work) => {
                    let n: usize = work.work();
                    self.pending = Some(
                        Pending { stamp: now, started: clock, restarts: 0, work },
                    );
                    Ok(n)
                },
                Err(u) => Err(u),
            },
        }
    }

    /// Drives the pass forward: one step, and after each step that leaves
    /// something to do one more if `in_time` says so. `in_time` is the clock,
    /// and is told how many chunks are left. Where the model fails the pass is
    /// dropped.
    pub fn drive<F: Fn(usize) -> bool>(
        &mut self,
        model: &mut fastembed::TextEmbedding,
        in_time: F,
    ) -> (r: Drive)
        requires
            forall|n: usize| call_requires(in_time, (n,)),
        ensures
            r is Idle <==> old(self)@.pending is None,
            r is Idle ==> final(self)@ == old(self)@,
            r is Paused || r is Finished ==> exists|batches: Seq<Seq<Seq<u32>>>|
                #![trigger given_along(old(self)@.pending->Some_0.work, batches)]
                {
                    let w = old(self)@.pending->Some_0.work;
                    &&& batches.len() > 0
                    &&& given_along(w, batches)
                    &&& final(self)@ == at(old(self)@, after(w, batches))
                    &&& let_on(in_time, w, batches, batches.len() - 1)
                    &&& r is Finished <==> after(w, batches).left() == 0
                    &&& r is Paused ==> call_ensures(
                        in_time,
                        (after(w, batches).left() as usize,),
                        false,
                    )
                },
            r is Failed ==> {
                let w = old(self)@.pending->Some_0.work;
                &&& w.left() > 0
                &&& final(self)@ == (DaemonView { pending: None, ..old(self)@ })
                &&& exists|batches: Seq<Seq<Seq<u32>>>| #[trigger]
                    failed_after(w, batches) && let_on(in_time, w, batches, batches.len() as int)
            },
    {
        let ghost d = self@;
        match self.pending.take() {
            None => Drive::Idle,
            Some(p) => {
                let Pending { stamp, started, restarts, mut work } = p;
                let ghost w = work@;
                let ghost mut batches: Seq<Seq<Seq<u32>>> = Seq::empty();
                let mut going = true;
                let mut done = false;
                while going
                    invariant
                        forall|n: usize| call_requires(in_time, (n,)),
                        given_along(w, batches),
                        work@ == after(w, batches),
                        work@.missing == w.missing,
                        work@.next >= w.next,
                        done == (batches.len() > 0 && work@.left() == 0),
                        !going ==> batches.len() > 0 && (done || call_ensures(
                            in_time,
                            (work@.left() as usize,),
                            false,
                        )),
                        going ==> !done,
                        let_on(in_time, w, batches, batches.len() - 1),
                        going && batches.len() > 0 ==> call_ensures(
                            in_time,
                            (work@.left() as usize,),
                            true,
                        ),
                        d == old(self)@,
                        self.pending is None,
                        d.pending == Some(PendingView { stamp, started, restarts, work: w }),
                        d.served == self@.served,
                        d.carried == self@.carried,
                    decreases work@.left(), (if going { 1int } else { 0int }),
                {
                    let ghost before = work@;
                    match Index::step_reindex(model, &mut work) {
                        Ok(finished) => {
                            proof {
                                let embs = choose|embs: Seq<Seq<u32>>|
                                    #![trigger recorded(before, embs)]
                                    given_for_batch(before, embs) && work@ == recorded(
                                        before,
                                        embs,
                                    );
                                lemma_one_more(w, batches, embs);
                                lemma_let_on(in_time, w, batches, embs);
                                batches = batches.push(embs);
                            }
                            done = finished;
                            if finished {
                                going = false;
                            } else {
                                going = in_time(work.remaining());
                            }
                        },
                        Err(e) => {
                            proof {
                                lemma_let_on(in_time, w, batches, Seq::empty());
                                assert(failed_after(d.pending->Some_0.work, batches));
                                assert(self@ =~= (DaemonView { pending: None, ..d }));
                            }
                            return Drive::Failed(e);
                        },
                    }
                }
                self.pending = Some(Pending { stamp, started, restarts, work });
                proof {
                    assert(given_along(d.pending->Some_0.work, batches));
                    assert(self@ =~= at(d, after(w, batches)));
                }
                if done {
                    Drive::Finished
                } else {
                    Drive::Paused
                }
            },
        }
    }

    /// The cache that a finished pass has to write before it is put in place:
    /// what it or one before it has embedded, without what no chunk needs any
    /// more. None where nothing is owed to the disk.
    pub fn to_write(&mut self) -> (r: Option<&Cache>)
        requires
            old(self)@.pending is Some,
        ensures
            final(self)@ == at(old(self)@, pruned(old(self)@.pending->Some_0.work)),
            r is Some <==> old(self)@.pending->Some_0.work.left() == 0
                && old(self)@.pending->Some_0.work.dirty,
            r matches Some(c) ==> c@ == final(self)@.pending->Some_0.work.cache,
    {
        match &mut self.pending {
            Some(p) => p.work.prune(),
            None => None,
        }
    }

    /// Puts the finished pass in place, with the links of the store as it is
    /// listed now. `written` says whether what was owed to the disk is there;
    /// `entries` is missing where the store could not be listed. Whatever comes
    /// of it, the pass is over.
    pub fn land(&mut self, written: bool, entries: Option<&Vec<StoreEntry>>) -> (r: Result<
        Landed,
        LandError,
    >)
        requires
            old(self)@.pending is Some,
        ensures
            ({
                let p = old(self)@.pending->Some_0;
                let work = if written {
                    Some(p.work)
                } else {
                    None
                };
                &&& final(self)@ == (DaemonView {
                    served: landed(old(self)@.served, work, entries_view(entries), p.stamp),
                    pending: None,
                    carried: old(self)@.carried,
                })
                &&& match r {
                    Ok(l) => {
                        &&& has_index(work)
                        &&& has_links(entries_view(entries))
                        &&& l.started == p.started
                        &&& l.restarts == p.restarts
                    },
                    Err(e) => land_fails(work, entries_view(entries), e),
                }
            }),
    {
        match self.pending.take() {
            Some(p) => {
                let Pending { stamp, started, restarts, work } = p;
                let done = if written {
                    Some(work)
                } else {
                    None
                };
                match self.served.land(done, entries, stamp) {
                    Ok(_) => Ok(Landed { started, restarts }),
                    Err(e) => Err(e),
                }
            },
            None => Err(LandError { index: None, links: None }),
        }
    }
}

/// What a look for clients gave.
#[derive(Clone, Copy, Debug, PartialEq, Eq)]
pub enum Poll {
    /// One is waiting.
    Client,
    /// Nobody is.
    Nobody,
    /// None can come any more.
    Gone,
}

/// What a daemon does next.
#[derive(Clone, Copy, Debug, PartialEq, Eq)]
pub enum Turn {
    /// It answers the client.
    Serve,
    /// It drives the pass by one step.
    Work,
    /// It waits for a client, for a while.
    Wait,
    /// It ends.
    Stop,
}

/// What a daemon does next: a client that is waiting always comes first, and a
/// pass goes on in the gaps between clients.
pub fn turn(poll: Poll, busy: bool) -> (t: Turn)
    ensures
        t == match poll {
            Poll::Client => Turn::Serve,
            Poll::Gone => Turn::Stop,
            Poll::Nobody => if busy {
                Turn::Work
            } else {
                Turn::Wait
            },
        },
{
    match poll {
        Poll::Client => Turn::Serve,
        Poll::Gone => Turn::Stop,
        Poll::Nobody => if busy {
            Turn::Work
        } else {
            Turn::Wait
        },
    }
}

} // verus!
