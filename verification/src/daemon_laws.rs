//! What holds of every daemon, whatever comes.
use vstd::prelude::*;

use crate::daemon::{
    at, called_for, has_index, has_links, land_fails, landed, let_on, looked, overtaken, started,
    Begin, DaemonView, LandError, ServedView,
};
use crate::index::{
    after, applied, begun, can_apply, pruned, ApplyError, ReindexView, WarmView,
};
use crate::index_laws::law_pruning_takes_nothing_needed;
use crate::links::{graph_of, is_note, spoils};
use crate::store::{chunks_along, listing, raw_at, StoreEntry};

verus! {

/// Nothing waits to be replaced while a pass is under way.
pub open spec fn in_order(d: DaemonView) -> bool {
    !(d.pending is Some && d.carried is Some)
}

/// The embeddings that are in hand and not served yet.
pub open spec fn in_hand(d: DaemonView) -> Option<WarmView> {
    match d.pending {
        Some(p) => Some(WarmView { cache: p.work.cache, dirty: p.work.dirty }),
        None => match d.carried {
            Some(c) => Some(c.cache),
            None => None,
        },
    }
}

/// When the chain of passes began that is not done yet.
pub open spec fn chain_start(d: DaemonView) -> Option<u128> {
    match d.pending {
        Some(p) => Some(p.started),
        None => match d.carried {
            Some(c) => Some(c.started),
            None => None,
        },
    }
}

/// How often that chain has begun again.
pub open spec fn chain_restarts(d: DaemonView) -> int {
    match d.pending {
        Some(p) => p.restarts as int,
        None => match d.carried {
            Some(c) => c.restarts as int,
            None => 0,
        },
    }
}

/// A daemon stays in order: looking at the store and beginning a pass keep a
/// pass and what waits to be replaced apart.
pub proof fn law_daemon_stays_in_order(
    d: DaemonView,
    now: i128,
    clock: u128,
    entries: Seq<StoreEntry>,
    disk: WarmView,
)
    requires
        in_order(d),
    ensures
        in_order(looked(d, now)),
        in_order(started(d, now, clock, entries, disk)),
        called_for(d, now) != Begin::Rest ==> looked(d, now).pending is None,
{
}

/// A look at the store loses no embedding, whether the pass goes on or is given
/// up. The chain keeps its clock, and counts the restart.
pub proof fn law_giving_up_loses_nothing(d: DaemonView, now: i128)
    requires
        in_order(d),
        overtaken(d, now) ==> d.pending->Some_0.restarts < usize::MAX,
    ensures
        in_hand(looked(d, now)) == in_hand(d),
        chain_start(looked(d, now)) == chain_start(d),
        chain_restarts(looked(d, now)) == chain_restarts(d) + if overtaken(d, now) {
            1int
        } else {
            0int
        },
        looked(d, now).served == d.served,
{
}

/// A pass that replaces one begins with all of its embeddings, what is owed to
/// the disk, and its clock.
pub proof fn law_a_replacement_inherits(
    d: DaemonView,
    now: i128,
    clock: u128,
    entries: Seq<StoreEntry>,
    disk: WarmView,
)
    requires
        d.pending is None,
    ensures
        ({
            let next = started(d, now, clock, entries, disk);
            &&& d.carried is Some ==> in_hand(next) == in_hand(d) && chain_start(next)
                == chain_start(d) && chain_restarts(next) == chain_restarts(d)
            &&& d.carried is None ==> in_hand(next) == Some(disk) && chain_start(next)
                == Some(clock) && chain_restarts(next) == 0
            &&& next.served == d.served
        }),
{
}

/// A pass that has been overtaken is never put in place: the look that notices
/// it leaves no pass, and calls for one from the newer store.
pub proof fn law_overtaken_passes_do_not_land(d: DaemonView, now: i128)
    requires
        overtaken(d, now),
    ensures
        looked(d, now).pending is None,
        called_for(d, now) == Begin::Warm,
{
}

/// A pass that is current is left to go on.
pub proof fn law_current_passes_go_on(d: DaemonView, now: i128)
    requires
        d.pending is Some,
        now <= d.pending->Some_0.stamp,
    ensures
        looked(d, now) == d,
        called_for(d, now) == Begin::Rest,
{
}

/// What was given up and could not be replaced is tried again at every look,
/// even where the store is as old as what is served.
pub proof fn law_a_failed_start_is_tried_again(d: DaemonView, now: i128)
    requires
        d.pending is None,
        d.carried is Some,
    ensures
        called_for(d, now) == Begin::Warm,
        looked(d, now) == d,
{
}

/// Nothing is swapped in but on success: where a part cannot be had, all that
/// was served goes on being served. It is tried again: as long as the store is
/// newer than the stamp, which stays where it was, the next look calls for a
/// pass.
pub proof fn law_a_failed_landing_is_tried_again(
    s: ServedView,
    work: Option<ReindexView>,
    entries: Option<Seq<StoreEntry>>,
    stamp: i128,
    now: i128,
)
    requires
        !(has_index(work) && has_links(entries)),
        now > s.stamp,
    ensures
        ({
            let next = landed(s, work, entries, stamp);
            &&& next == s
            &&& called_for(DaemonView { served: next, pending: None, carried: None }, now)
                == Begin::Cold
        }),
{
}

/// What was put in place counts: until the store is newer than the pass, no
/// other is called for.
pub proof fn law_a_landing_settles(
    s: ServedView,
    work: Option<ReindexView>,
    entries: Option<Seq<StoreEntry>>,
    stamp: i128,
    now: i128,
)
    requires
        has_index(work),
        has_links(entries),
    ensures
        ({
            let next = landed(s, work, entries, stamp);
            let d = DaemonView { served: next, pending: None, carried: None };
            &&& called_for(d, now) == if now <= stamp {
                Begin::Rest
            } else {
                Begin::Cold
            }
        }),
{
}

/// The chunks of a pass are those that it began with.
proof fn lemma_chunks_stay(w: ReindexView, batches: Seq<Seq<Seq<u32>>>)
    ensures
        after(w, batches).chunks == w.chunks,
    decreases batches.len(),
{
    if batches.len() > 0 {
        lemma_chunks_stay(w, batches.drop_last());
    }
}

/// What was written is found: once a pass is in place, the chunks that can be
/// found are those of the store as the pass has read it, no more and no fewer.
/// Writing the cache in between changes nothing of it.
pub proof fn law_the_store_is_served(
    s: ServedView,
    entries: Seq<StoreEntry>,
    warm: WarmView,
    batches: Seq<Seq<Seq<u32>>>,
    listed: Option<Seq<StoreEntry>>,
    stamp: i128,
)
    requires
        can_apply(after(begun(chunks_along(entries, listing(entries)), warm), batches)),
        has_links(listed),
    ensures
        ({
            let w = after(begun(chunks_along(entries, listing(entries)), warm), batches);
            &&& has_index(Some(pruned(w)))
            &&& landed(s, Some(pruned(w)), listed, stamp).index.chunks == chunks_along(
                entries,
                listing(entries),
            )
            &&& landed(s, Some(pruned(w)), listed, stamp) == landed(s, Some(w), listed, stamp)
        }),
{
    let start = begun(chunks_along(entries, listing(entries)), warm);
    let w = after(start, batches);
    lemma_chunks_stay(start, batches);
    law_pruning_takes_nothing_needed(w);
    assert(applied(pruned(w)) =~= applied(w));
}

/// A landing puts everything in place at once: all chunks of the pass, each
/// with the embedding under its own hash, the links of every entry that is
/// listed, and the stamp of the pass.
pub proof fn law_a_landing_swaps_everything(
    s: ServedView,
    w: ReindexView,
    entries: Seq<StoreEntry>,
    stamp: i128,
    i: int,
)
    requires
        w.next == w.missing.len(),
        forall|k: int|
            0 <= k < w.chunks.len() ==> w.cache.contains_key((#[trigger] w.chunks[k]).hash),
        forall|k: int|
            0 <= k < entries.len() ==> (#[trigger] entries[k] is Found) && (is_note(entries, k)
                ==> raw_at(entries, k) is Some),
    ensures
        has_index(Some(w)),
        has_links(Some(entries)),
        ({
            let next = landed(s, Some(w), Some(entries), stamp);
            &&& next.index.chunks == w.chunks
            &&& next.index.embeddings.len() == w.chunks.len()
            &&& 0 <= i < w.chunks.len() ==> next.index.embeddings[i] == w.cache[w.chunks[i].hash]
            &&& next.graph == graph_of(entries, entries.len() as int)
            &&& next.stamp == stamp
        }),
{
    assert forall|k: int| 0 <= k < entries.len() implies !#[trigger] spoils(entries, k) by {
        assert(entries[k] is Found);
    }
}

/// Nothing lands without its parts: not without work, nor with work that has
/// something left or a chunk without an embedding, nor without a listing, nor
/// with one that lost an entry or has a file of the graph without a text.
pub proof fn law_nothing_lands_without_its_parts(
    s: ServedView,
    work: Option<ReindexView>,
    entries: Option<Seq<StoreEntry>>,
    stamp: i128,
    i: int,
)
    requires
        ({
            ||| work is None
            ||| entries is None
            ||| work matches Some(w) && (w.next < w.missing.len() || (0 <= i < w.chunks.len()
                && !w.cache.contains_key(w.chunks[i].hash)))
            ||| entries matches Some(es) && 0 <= i < es.len() && (es[i] is Lost || (is_note(es, i)
                && raw_at(es, i) is None))
        }),
    ensures
        landed(s, work, entries, stamp) == s,
{
    if let Some(es) = entries {
        if 0 <= i < es.len() && (es[i] is Lost || (is_note(es, i) && raw_at(es, i) is None)) {
            assert(spoils(es, i));
        }
    }
}

/// A landing that failed says why of each part: how many chunks are left where
/// some are, the first entry that spoils the links where one does, and nothing
/// of a part that was not there.
pub proof fn law_a_failed_landing_says_why(
    work: Option<ReindexView>,
    entries: Option<Seq<StoreEntry>>,
    e: LandError,
    i: int,
)
    requires
        land_fails(work, entries, e),
    ensures
        work is None ==> e.index is None,
        entries is None ==> e.links is None,
        work matches Some(w) ==> w.next < w.missing.len() ==> (e.index matches Some(
            ApplyError::NotDone(n),
        ) && n == w.missing.len() - w.next),
        work matches Some(w) ==> can_apply(w) ==> e.index is None,
        work is Some && entries is Some ==> e.index is Some || e.links is Some,
        entries matches Some(es) ==> 0 <= i < es.len() && spoils(es, i) ==> (e.links matches Some(u)
            && u.entry <= i && spoils(es, u.entry as int)),
        entries matches Some(es) ==> (e.links matches Some(u) ==> 0 <= i < u.entry ==> !spoils(
            es,
            i,
        )),
{
}

/// A pass that begins carries the stamp of the look, stands for all chunks of
/// the store, and has dealt with none.
pub proof fn law_a_pass_begins_with_the_store(
    d: DaemonView,
    now: i128,
    clock: u128,
    entries: Seq<StoreEntry>,
    disk: WarmView,
)
    ensures
        started(d, now, clock, entries, disk).pending matches Some(p) && {
            &&& p.stamp == now
            &&& p.work.chunks == chunks_along(entries, listing(entries))
            &&& p.work.next == 0
            &&& p.work.cache == match d.carried {
                Some(c) => c.cache.cache,
                None => disk.cache,
            }
        },
        started(d, now, clock, entries, disk).carried is None,
{
}

/// An idle daemon begins a pass exactly when the store is newer than what is
/// served, and a busy one gives its pass up exactly when the store is newer
/// than the pass.
pub proof fn law_newer_stores_call_for_a_pass(d: DaemonView, now: i128)
    ensures
        d.pending is None && d.carried is None ==> called_for(d, now) == if now > d.served.stamp {
            Begin::Cold
        } else {
            Begin::Rest
        },
        d.pending matches Some(p) ==> (called_for(d, now) == Begin::Warm <==> now > p.stamp) && (
        looked(d, now).pending is None <==> now > p.stamp),
        overtaken(d, now) <==> (d.pending matches Some(p) && now > p.stamp),
        d.pending is None ==> looked(d, now) == d,
{
}

/// Going on with a pass changes nothing but how far it is.
pub proof fn law_going_on_changes_the_work_alone(d: DaemonView, w: ReindexView)
    requires
        d.pending is Some,
    ensures
        at(d, w).served == d.served,
        at(d, w).carried == d.carried,
        at(d, w).pending matches Some(p) && {
            &&& p.work == w
            &&& p.stamp == d.pending->Some_0.stamp
            &&& p.started == d.pending->Some_0.started
            &&& p.restarts == d.pending->Some_0.restarts
        },
{
}

/// A pass goes on after a step only where the clock, told what is left then,
/// said so.
pub proof fn law_the_clock_is_asked_after_every_step<F: Fn(usize) -> bool>(
    in_time: F,
    w: ReindexView,
    batches: Seq<Seq<Seq<u32>>>,
    n: int,
    k: int,
)
    requires
        let_on(in_time, w, batches, n),
        1 <= k <= n,
    ensures
        call_ensures(
            in_time,
            ((after(w, batches.take(k)).missing.len() - after(w, batches.take(k)).next) as usize,),
            true,
        ),
{
}

} // verus!
