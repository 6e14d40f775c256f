//! The index, and bringing it up to date in steps.
//!
//! Re-reading the store is split up, so that a search never waits for more
//! than one step of it: `begin` finds out which chunks have no embedding yet,
//! each step embeds some of them, and `apply` swaps the finished result in.
//! Embeddings are kept by the content hash of their chunk, so an unchanged
//! chunk is never embedded again.
use vstd::prelude::*;
use vstd::string::StringExecFns;

use crate::chunk::{chunk_views, Chunk, ChunkView};
use crate::store::{
    all_readable, chunk_store, chunks_along, first_unreadable, listing, StoreEntry, Unreadable,
};
use crate::strmap::StrMap;
use crate::text::texts;

verus! {

/// How many chunks one step embeds. It bounds how long a waiting search is
/// held up, and is no matter of throughput.
pub const REINDEX_BATCH: usize = 1;

/// The embeddings that are known, by the content hash of their chunk. An
/// embedding is a list of single-precision numbers, kept as their bits.
pub struct Cache {
    pub embeddings: StrMap<Vec<u32>>,
}

impl View for Cache {
    type V = Map<Seq<char>, Seq<u32>>;

    open spec fn view(&self) -> Map<Seq<char>, Seq<u32>> {
        self.embeddings@.map_values(|v: Vec<u32>| v@)
    }
}

impl Default for Cache {
    fn default() -> (c: Cache)
        ensures
            c@ == Map::<Seq<char>, Seq<u32>>::empty(),
    {
        let c = Cache { embeddings: StrMap::new() };
        proof {
            assert(c@ =~= Map::<Seq<char>, Seq<u32>>::empty());
        }
        c
    }
}

/// A re-reading of the store that is under way: the chunks are known and the
/// cache is loaded, and what remains is to embed the chunks that the cache
/// does not have.
pub struct Reindex {
    chunks: Vec<Chunk>,
    cache: Cache,
    /// The places of the chunks that the cache had no embedding for.
    missing: Vec<usize>,
    /// How many of those have been dealt with.
    next: usize,
    /// Whether the cache holds embeddings that are not on disk yet.
    dirty: bool,
}

/// What a re-reading holds.
#[verifier::ext_equal]
pub struct ReindexView {
    pub chunks: Seq<ChunkView>,
    pub cache: Map<Seq<char>, Seq<u32>>,
    pub missing: Seq<int>,
    pub next: int,
    pub dirty: bool,
}

/// The cache of a re-reading that was given up, for the one that replaces it.
/// With the embeddings goes what the cache cannot say of itself: whether any
/// of them is still owed to the disk.
pub struct WarmCache {
    cache: Cache,
    dirty: bool,
}

/// What a warm cache holds.
#[verifier::ext_equal]
pub struct WarmView {
    pub cache: Map<Seq<char>, Seq<u32>>,
    pub dirty: bool,
}

impl View for WarmCache {
    type V = WarmView;

    closed spec fn view(&self) -> WarmView {
        WarmView { cache: self.cache@, dirty: self.dirty }
    }
}

impl View for Reindex {
    type V = ReindexView;

    closed spec fn view(&self) -> ReindexView {
        ReindexView {
            chunks: chunk_views(self.chunks@),
            cache: self.cache@,
            missing: crate::sort::ints(self.missing@),
            next: self.next as int,
            dirty: self.dirty,
        }
    }
}

impl ReindexView {
    /// How many of the missing chunks are left.
    pub open spec fn left(self) -> int {
        self.missing.len() - self.next
    }

    /// Where the next step ends.
    pub open spec fn batch_end(self) -> int {
        if self.next + REINDEX_BATCH <= self.missing.len() {
            self.next + REINDEX_BATCH
        } else {
            self.missing.len() as int
        }
    }

    /// The chunk that is dealt with at `k`.
    pub open spec fn due(self, k: int) -> ChunkView {
        self.chunks[self.missing[k]]
    }

    /// Only places of chunks are missing, and no more have been dealt with
    /// than there are.
    pub open spec fn well_formed(self) -> bool {
        &&& 0 <= self.next <= self.missing.len()
        &&& forall|k: int|
            0 <= k < self.missing.len() ==> 0 <= #[trigger] self.missing[k] < self.chunks.len()
    }
}

/// The places of the chunks without an embedding, from the first to the last.
pub open spec fn missing_from(chunks: Seq<ChunkView>, cache: Map<Seq<char>, Seq<u32>>) -> Seq<int>
    decreases chunks.len(),
{
    if chunks.len() == 0 {
        Seq::empty()
    } else {
        let before = missing_from(chunks.drop_last(), cache);
        if cache.contains_key(chunks.last().hash) {
            before
        } else {
            before.push(chunks.len() - 1)
        }
    }
}

/// A re-reading at its start.
pub open spec fn begun(chunks: Seq<ChunkView>, warm: WarmView) -> ReindexView {
    ReindexView {
        chunks,
        cache: warm.cache,
        missing: missing_from(chunks, warm.cache),
        next: 0,
        dirty: warm.dirty,
    }
}

/// The cache with the first `n` embeddings of a batch put under the hashes of
/// their chunks.
pub open spec fn cached_batch(w: ReindexView, embs: Seq<Seq<u32>>, n: int) -> Map<
    Seq<char>,
    Seq<u32>,
>
    decreases n,
{
    if n <= 0 {
        w.cache
    } else {
        cached_batch(w, embs, n - 1).insert(w.due(w.next + n - 1).hash, embs[n - 1])
    }
}

/// How many embeddings of a batch have a chunk to go with.
pub open spec fn batch_used(w: ReindexView, embs: Seq<Seq<u32>>) -> int {
    if w.batch_end() - w.next <= embs.len() {
        w.batch_end() - w.next
    } else {
        embs.len() as int
    }
}

/// A re-reading after a step that gave these embeddings for the batch.
pub open spec fn recorded(w: ReindexView, embs: Seq<Seq<u32>>) -> ReindexView {
    ReindexView {
        chunks: w.chunks,
        cache: cached_batch(w, embs, batch_used(w, embs)),
        missing: w.missing,
        next: w.batch_end(),
        dirty: w.dirty || w.next < w.batch_end(),
    }
}

/// The hashes of some chunks.
pub open spec fn live(chunks: Seq<ChunkView>) -> Set<Seq<char>> {
    Set::new(|h: Seq<char>| exists|i: int| 0 <= i < chunks.len() && (#[trigger] chunks[i]).hash == h)
}

/// What lists of bits hold.
pub open spec fn bit_views(v: Seq<Vec<u32>>) -> Seq<Seq<u32>> {
    v.map_values(|x: Vec<u32>| x@)
}

/// The texts of some string slices.
pub open spec fn str_views(v: Seq<&str>) -> Seq<Seq<char>> {
    v.map_values(|s: &str| s@)
}

/// The index: the chunks that can be found, each with its embedding.
pub struct Index {
    pub chunks: Vec<Chunk>,
    pub embeddings: Vec<Vec<u32>>,
}

/// What an index holds.
#[verifier::ext_equal]
pub struct IndexView {
    pub chunks: Seq<ChunkView>,
    pub embeddings: Seq<Seq<u32>>,
}

impl View for Index {
    type V = IndexView;

    open spec fn view(&self) -> IndexView {
        IndexView { chunks: chunk_views(self.chunks@), embeddings: bit_views(self.embeddings@) }
    }
}

/// The chunks that the cache has an embedding for.
pub open spec fn known_chunks(chunks: Seq<ChunkView>, cache: Map<Seq<char>, Seq<u32>>) -> Seq<
    ChunkView,
>
    decreases chunks.len(),
{
    if chunks.len() == 0 {
        Seq::empty()
    } else {
        let before = known_chunks(chunks.drop_last(), cache);
        if cache.contains_key(chunks.last().hash) {
            before.push(chunks.last())
        } else {
            before
        }
    }
}

/// The embedding of each chunk.
pub open spec fn embeddings_of(chunks: Seq<ChunkView>, cache: Map<Seq<char>, Seq<u32>>) -> Seq<
    Seq<u32>,
> {
    chunks.map_values(|c: ChunkView| cache[c.hash])
}

/// Every chunk has an embedding in the cache.
pub open spec fn all_known(chunks: Seq<ChunkView>, cache: Map<Seq<char>, Seq<u32>>) -> bool {
    forall|i: int| 0 <= i < chunks.len() ==> cache.contains_key((#[trigger] chunks[i]).hash)
}

/// Why a re-reading could not begin.
#[derive(Clone, Copy, Debug, PartialEq, Eq)]
pub enum BeginError {
    /// A memory could not be read.
    Store(Unreadable),
    /// There was no cache in hand to begin with.
    NoCache,
}

/// Why a re-reading could not be applied.
#[derive(Debug, PartialEq, Eq)]
pub enum ApplyError {
    /// So many chunks are left to embed.
    NotDone(usize),
    /// A chunk has no embedding.
    NoEmbedding { file: String, heading: String },
}

/// A re-reading that can be applied: nothing is left to embed, and every chunk
/// has its embedding.
pub open spec fn can_apply(w: ReindexView) -> bool {
    w.left() == 0 && all_known(w.chunks, w.cache)
}

/// The index that a re-reading gives.
pub open spec fn applied(w: ReindexView) -> IndexView {
    IndexView { chunks: w.chunks, embeddings: embeddings_of(w.chunks, w.cache) }
}

/// Why a re-reading cannot be applied: chunks are left to embed, or this is the
/// first chunk without an embedding.
pub open spec fn apply_fails(w: ReindexView, e: ApplyError) -> bool {
    match e {
        ApplyError::NotDone(n) => n == w.left() && n > 0,
        ApplyError::NoEmbedding { file, heading } => {
            &&& w.left() == 0
            &&& exists|i: int|
                #![trigger w.chunks[i]]
                0 <= i < w.chunks.len() && !w.cache.contains_key(w.chunks[i].hash) && all_known(
                    w.chunks.take(i),
                    w.cache,
                ) && file@ == w.chunks[i].file && heading@ == w.chunks[i].heading
        },
    }
}

/// The cache as it was on disk: nothing in it is owed to the disk. One that
/// could not be read counts as empty.
fn from_disk(cached: Option<Cache>) -> (w: WarmCache)
    ensures
        w@ == disk_view(cached),
{
    let cache = match cached {
        Some(c) => c,
        None => Cache::default(),
    };
    WarmCache { cache, dirty: false }
}

/// What the cache on disk gives to begin with.
pub open spec fn disk_view(cached: Option<Cache>) -> WarmView {
    WarmView {
        cache: match cached {
            Some(c) => c@,
            None => Map::empty(),
        },
        dirty: false,
    }
}

impl Reindex {
    #[verifier::type_invariant]
    spec fn inv(self) -> bool {
        &&& self.next <= self.missing@.len()
        &&& forall|k: int|
            0 <= k < self.missing@.len() ==> #[trigger] self.missing@[k] < self.chunks@.len()
    }

    /// Gives up the cache, so that the re-reading that replaces this one keeps
    /// what has been embedded.
    pub fn into_warm(self) -> (w: WarmCache)
        ensures
            w@ == (WarmView { cache: self@.cache, dirty: self@.dirty }),
    {
        WarmCache { cache: self.cache, dirty: self.dirty }
    }

    /// How many chunks are left to embed.
    pub fn remaining(&self) -> (n: usize)
        ensures
            n == self@.left(),
            self@.well_formed(),
    {
        proof {
            use_type_invariant(self);
            self.lemma_well_formed();
        }
        self.missing.len() - self.next
    }

    /// Whether nothing is left to embed.
    pub fn is_done(&self) -> (r: bool)
        ensures
            r == (self@.left() == 0),
            self@.well_formed(),
    {
        self.remaining() == 0
    }

    /// How many chunks the index has once this is applied.
    pub fn chunk_count(&self) -> (n: usize)
        ensures
            n == self@.chunks.len(),
    {
        self.chunks.len()
    }

    /// How many chunks had to be embedded: none when files have only been
    /// removed, which still has to be applied.
    pub fn work(&self) -> (n: usize)
        ensures
            n == self@.missing.len(),
    {
        self.missing.len()
    }

    proof fn lemma_well_formed(self)
        requires
            self.inv(),
        ensures
            self@.well_formed(),
    {
        let v = self@;
        assert forall|k: int| 0 <= k < v.missing.len() implies 0 <= #[trigger] v.missing[k]
            < v.chunks.len() by {
            assert(self.missing@[k] < self.chunks@.len());
        }
    }
}

/// A copy of some bits.
fn copied_bits(v: &Vec<u32>) -> (out: Vec<u32>)
    ensures
        out@ == v@,
{
    let n: usize = v.len();
    let mut out: Vec<u32> = Vec::with_capacity(n);
    let mut i: usize = 0;
    while i < n
        invariant
            n == v@.len(),
            i <= n,
            out@ == v@.take(i as int),
        decreases n - i,
    {
        out.push(v[i]);
        proof {
            assert(v@.take(i + 1) =~= v@.take(i as int).push(v@[i as int]));
        }
        i = i + 1;
    }
    proof {
        assert(v@.take(n as int) =~= v@);
    }
    out
}

impl Reindex {
    /// Where the next step ends.
    fn end_of_batch(&self) -> (end: usize)
        ensures
            end == self@.batch_end(),
            self.next <= end <= self.missing@.len(),
    {
        proof {
            use_type_invariant(self);
        }
        if self.missing.len() - self.next >= REINDEX_BATCH {
            self.next + REINDEX_BATCH
        } else {
            self.missing.len()
        }
    }

    /// The texts that the next step embeds.
    pub fn next_batch(&self) -> (texts: Vec<&str>)
        ensures
            str_views(texts@) == batch_texts(self@),
            self@.well_formed(),
    {
        proof {
            use_type_invariant(self);
            self.lemma_well_formed();
        }
        let end = self.end_of_batch();
        let ghost want = batch_texts(self@);
        let mut texts: Vec<&str> = Vec::new();
        let mut k: usize = self.next;
        while k < end
            invariant
                self.inv(),
                self.next <= k <= end <= self.missing@.len(),
                end == self@.batch_end(),
                want == batch_texts(self@),
                str_views(texts@) == want.take(k - self.next),
            decreases end - k,
        {
            let ghost before = texts@;
            let at: usize = self.missing[k];
            let t = self.chunks[at].text.as_str();
            texts.push(t);
            proof {
                assert(self@.missing[k as int] == at as int);
                assert(self@.chunks[at as int] == self.chunks@[at as int]@);
                assert(want[k - self.next] == t@);
                assert(str_views(texts@) =~= str_views(before).push(t@));
                assert(want.take(k + 1 - self.next) =~= want.take(k - self.next).push(t@));
            }
            k = k + 1;
        }
        proof {
            assert(want.take(end - self.next) =~= want);
        }
        texts
    }

    /// Takes in what the model gave for a batch: the embeddings in the order of
    /// its texts. One that is left over has no chunk and is dropped, and a
    /// chunk that got none is passed over.
    pub fn record(&mut self, embs: &Vec<Vec<u32>>)
        ensures
            final(self)@ == recorded(old(self)@, bit_views(embs@)),
    {
        proof {
            use_type_invariant(&*self);
        }
        let end = self.end_of_batch();
        let start: usize = self.next;
        let n: usize = if end - start <= embs.len() {
            end - start
        } else {
            embs.len()
        };
        let ghost w = self@;
        let ghost ev = bit_views(embs@);
        let mut map: StrMap<Vec<u32>> = StrMap::new();
        std::mem::swap(&mut map, &mut self.cache.embeddings);
        let mut k: usize = 0;
        proof {
            assert(map@.map_values(|v: Vec<u32>| v@) =~= cached_batch(w, ev, 0));
        }
        while k < n
            invariant
                self.inv(),
                k <= n,
                n <= embs@.len(),
                start == self.next,
                start + n <= end <= self.missing@.len(),
                self.chunks == old(self).chunks,
                self.missing == old(self).missing,
                self.next == old(self).next,
                self.dirty == old(self).dirty,
                w == old(self)@,
                ev == bit_views(embs@),
                map@.map_values(|v: Vec<u32>| v@) == cached_batch(w, ev, k as int),
            decreases n - k,
        {
            let ghost before = map@;
            let at: usize = self.missing[start + k];
            let hash = self.chunks[at].hash.as_str().to_owned();
            let emb = copied_bits(&embs[k]);
            proof {
                assert(w.missing[start + k] == at as int);
                assert(w.chunks[at as int] == self.chunks@[at as int]@);
                assert(hash@ == w.due(w.next + k).hash);
                assert(ev[k as int] == emb@);
            }
            let ghost hv = hash@;
            let ghost e = emb@;
            map.insert(hash, emb);
            proof {
                assert(map@.map_values(|v: Vec<u32>| v@) =~= before.map_values(
                    |v: Vec<u32>| v@,
                ).insert(hv, e));
            }
            k = k + 1;
        }
        self.cache.embeddings = map;
        if start < end {
            self.next = end;
            self.dirty = true;
        }
        proof {
            assert(self@.cache =~= cached_batch(w, ev, n as int));
            assert(self@ =~= recorded(w, ev));
        }
    }

    /// Drops the embeddings that no chunk of a finished re-reading needs any
    /// more, if the cache has to be written to disk, and hands out what is to
    /// be written. A cache that the disk already holds is left as it is.
    pub fn prune(&mut self) -> (r: Option<&Cache>)
        ensures
            final(self)@ == pruned(old(self)@),
            r is Some <==> old(self)@.left() == 0 && old(self)@.dirty,
            r matches Some(c) ==> c@ == final(self)@.cache,
    {
        let done = self.is_done();
        proof {
            use_type_invariant(&*self);
        }
        let ghost w = self@;
        if !done || !self.dirty {
            return None;
        }
        let mut map: StrMap<Vec<u32>> = StrMap::new();
        std::mem::swap(&mut map, &mut self.cache.embeddings);
        let mut kept: StrMap<Vec<u32>> = StrMap::new();
        let n: usize = self.chunks.len();
        let mut i: usize = 0;
        let ghost cv = chunk_views(self.chunks@);
        while i < n
            invariant
                self.inv(),
                n == self.chunks@.len(),
                i <= n,
                self.chunks == old(self).chunks,
                self.missing == old(self).missing,
                self.next == old(self).next,
                self.dirty == old(self).dirty,
                w == old(self)@,
                cv == chunk_views(self.chunks@),
                cv == w.chunks,
                forall|h: Seq<char>|
                    #![trigger kept@.contains_key(h)]
                    kept@.contains_key(h) <==> w.cache.contains_key(h) && live(
                        cv.take(i as int),
                    ).contains(h),
                forall|h: Seq<char>|
                    #![trigger kept@[h]]
                    kept@.contains_key(h) ==> kept@[h]@ == w.cache[h],
                forall|h: Seq<char>|
                    #![trigger map@.contains_key(h)]
                    map@.contains_key(h) <==> w.cache.contains_key(h) && !live(
                        cv.take(i as int),
                    ).contains(h),
                forall|h: Seq<char>|
                    #![trigger map@[h]]
                    map@.contains_key(h) ==> map@[h]@ == w.cache[h],
            decreases n - i,
        {
            let hash = self.chunks[i].hash.as_str();
            let ghost h0 = hash@;
            proof {
                let t0 = cv.take(i as int);
                let t1 = cv.take(i + 1);
                assert(cv[i as int].hash == h0);
                assert forall|h: Seq<char>| #[trigger] live(t1).contains(h) <==> live(t0).contains(h)
                    || h == h0 by {
                    if live(t0).contains(h) {
                        let k = choose|k: int| 0 <= k < t0.len() && (#[trigger] t0[k]).hash == h;
                        assert(t1[k].hash == h);
                    }
                    if h == h0 {
                        assert(t1[i as int].hash == h);
                    }
                    if live(t1).contains(h) && h != h0 {
                        let k = choose|k: int| 0 <= k < t1.len() && (#[trigger] t1[k]).hash == h;
                        assert(t0[k].hash == h);
                    }
                }
            }
            match map.remove(hash) {
                Some(v) => {
                    kept.insert(hash.to_owned(), v);
                },
                None => {},
            }
            i = i + 1;
        }
        proof {
            assert(cv.take(n as int) =~= cv);
        }
        self.cache.embeddings = kept;
        proof {
            assert(self@.cache =~= w.cache.restrict(live(w.chunks)));
            assert(self@ =~= pruned(w));
        }
        Some(&self.cache)
    }
}

/// A re-reading whose cache is ready to be written.
pub open spec fn pruned(w: ReindexView) -> ReindexView {
    if w.left() == 0 && w.dirty {
        ReindexView { cache: w.cache.restrict(live(w.chunks)), ..w }
    } else {
        w
    }
}

/// The embedding model.
#[verifier::external_type_specification]
#[verifier::external_body]
pub struct ExTextEmbedding(fastembed::TextEmbedding);

/// The error that the model reports.
#[verifier::external_type_specification]
#[verifier::external_body]
pub struct ExModelError(anyhow::Error);

/// The model answered these texts with these rows of bits, or failed on them
/// where there are none. What it answers rests on the model and the machine, so
/// the same texts may have several answers.
pub uninterp spec fn answered(texts: Seq<Seq<char>>, rows: Option<Seq<Seq<u32>>>) -> bool;

/// The model gave these bits at the place of this text.
pub open spec fn given_for(text: Seq<char>, bits: Seq<u32>) -> bool {
    exists|texts: Seq<Seq<char>>, rows: Seq<Seq<u32>>, k: int|
        #![trigger answered(texts, Some(rows)), rows[k]]
        answered(texts, Some(rows)) && 0 <= k < texts.len() && k < rows.len() && texts[k] == text
            && rows[k] == bits
}

/// `TextEmbedding::embed` without a batch size of its own: the answer of the
/// model to the texts, each row the bits of its numbers, or its failure on
/// them. How many rows there are rests on the model's output and is not stated,
/// nor is on which texts it fails.
#[verifier::external_body]
fn embed(model: &mut fastembed::TextEmbedding, texts: Vec<&str>) -> (r: Result<
    Vec<Vec<u32>>,
    anyhow::Error,
>)
    ensures
        match r {
            Ok(v) => answered(str_views(texts@), Some(bit_views(v@))),
            Err(_) => answered(str_views(texts@), None),
        },
{
    let rows = model.embed(texts, None)?;
    Ok(rows.into_iter().map(|row| row.into_iter().map(|x| x.to_bits()).collect()).collect())
}

/// The model failed.
pub struct EmbedError {
    pub cause: anyhow::Error,
}

/// Why the store could not be re-read to the end.
pub enum RefreshError {
    /// A memory could not be read.
    Store(Unreadable),
    /// The model failed.
    Model(EmbedError),
}

/// The texts that the next step embeds.
pub open spec fn batch_texts(w: ReindexView) -> Seq<Seq<char>> {
    Seq::new((w.batch_end() - w.next) as nat, |k: int| w.due(w.next + k).text)
}

/// These are rows that a step may have for the next batch: an answer of the
/// model, which is not asked where nothing is left.
pub open spec fn given_for_batch(w: ReindexView, embs: Seq<Seq<u32>>) -> bool {
    if w.left() == 0 {
        embs.len() == 0
    } else {
        answered(batch_texts(w), Some(embs))
    }
}

/// A re-reading after steps that gave these batches of embeddings.
pub open spec fn after(w: ReindexView, batches: Seq<Seq<Seq<u32>>>) -> ReindexView
    decreases batches.len(),
{
    if batches.len() == 0 {
        w
    } else {
        recorded(after(w, batches.drop_last()), batches.last())
    }
}

/// These are batches that the model may have given, one step after the other.
pub open spec fn given_along(w: ReindexView, batches: Seq<Seq<Seq<u32>>>) -> bool {
    forall|k: int|
        0 <= k < batches.len() ==> given_for_batch(after(w, batches.take(k)), #[trigger] batches[k])
}

/// A re-reading of these entries from this cache, gone to its end.
pub open spec fn refreshed(entries: Seq<StoreEntry>, warm: WarmView, w: ReindexView) -> bool {
    let start = begun(chunks_along(entries, listing(entries)), warm);
    &&& all_readable(entries, listing(entries))
    &&& w.left() == 0
    &&& exists|batches: Seq<Seq<Seq<u32>>>|
        #![trigger given_along(start, batches)]
        given_along(start, batches) && w == after(start, batches)
}

/// The model failed on the batch that was next after these.
pub open spec fn failed_after(w: ReindexView, batches: Seq<Seq<Seq<u32>>>) -> bool {
    &&& given_along(w, batches)
    &&& after(w, batches).left() > 0
    &&& answered(batch_texts(after(w, batches)), None)
}

/// A re-reading can fail so: on the first memory without a text, or in the
/// model, on a batch of this re-reading.
pub open spec fn refresh_fails(
    entries: Seq<StoreEntry>,
    warm: WarmView,
    e: RefreshError,
) -> bool {
    match e {
        RefreshError::Store(u) => first_unreadable(entries, listing(entries), u.entry as int),
        RefreshError::Model(_) => {
            let start = begun(chunks_along(entries, listing(entries)), warm);
            &&& all_readable(entries, listing(entries))
            &&& start.missing.len() > 0
            &&& exists|batches: Seq<Seq<Seq<u32>>>| #[trigger] failed_after(start, batches)
        },
    }
}

/// One step more.
pub proof fn lemma_one_more(w: ReindexView, batches: Seq<Seq<Seq<u32>>>, embs: Seq<Seq<u32>>)
    requires
        given_along(w, batches),
        given_for_batch(after(w, batches), embs),
    ensures
        given_along(w, batches.push(embs)),
        after(w, batches.push(embs)) == recorded(after(w, batches), embs),
{
    let more = batches.push(embs);
    assert(more.drop_last() =~= batches);
    assert forall|k: int| 0 <= k < more.len() implies given_for_batch(
        after(w, more.take(k)),
        #[trigger] more[k],
    ) by {
        if k < batches.len() {
            assert(more.take(k) =~= batches.take(k));
            assert(more[k] == batches[k]);
        } else {
            assert(more.take(k) =~= batches);
        }
    }
}

/// The first row of an answer, if it has one.
pub open spec fn first_row(rows: Seq<Seq<u32>>) -> Option<Seq<u32>> {
    if rows.len() == 0 {
        None
    } else {
        Some(rows[0])
    }
}

/// What an embedding holds, if there is one.
pub open spec fn bits_view(bits: Option<Vec<u32>>) -> Option<Seq<u32>> {
    match bits {
        Some(b) => Some(b@),
        None => None,
    }
}

/// The embedding of a query out of the model's answer to it: the first row, if
/// there is one. A failure of the model is handed on.
pub fn query_embedding(answer: Result<Vec<Vec<u32>>, anyhow::Error>) -> (r: Result<
    Option<Vec<u32>>,
    EmbedError,
>)
    ensures
        match answer {
            Ok(rows) => r matches Ok(bits) && bits_view(bits) == first_row(bit_views(rows@)),
            Err(cause) => r == Err::<Option<Vec<u32>>, EmbedError>(EmbedError { cause }),
        },
{
    match answer {
        Ok(rows) => {
            if rows.len() == 0 {
                Ok(None)
            } else {
                let bits = copied_bits(&rows[0]);
                proof {
                    assert(bit_views(rows@)[0] == bits@);
                }
                Ok(Some(bits))
            }
        },
        Err(cause) => Err(EmbedError { cause }),
    }
}

/// Some texts, each with a prefix in front.
pub open spec fn prefixed(prefix: Seq<char>, passages: Seq<Seq<char>>) -> Seq<Seq<char>> {
    passages.map_values(|t: Seq<char>| prefix + t)
}

/// The rows that the model answers some passages with, each with the prefix in
/// front of it. It fails exactly where the model fails on these texts.
pub fn embed_passages(
    model: &mut fastembed::TextEmbedding,
    prefix: &str,
    passages: &Vec<String>,
) -> (r: Result<Vec<Vec<u32>>, EmbedError>)
    ensures
        match r {
            Ok(rows) => answered(prefixed(prefix@, texts(passages@)), Some(bit_views(rows@))),
            Err(_) => answered(prefixed(prefix@, texts(passages@)), None),
        },
{
    let ghost want = prefixed(prefix@, texts(passages@));
    let n: usize = passages.len();
    let mut owned: Vec<String> = Vec::with_capacity(n);
    let mut i: usize = 0;
    while i < n
        invariant
            n == passages@.len(),
            i <= n,
            want == prefixed(prefix@, texts(passages@)),
            texts(owned@) == want.take(i as int),
        decreases n - i,
    {
        let ghost had = owned@;
        let mut t = prefix.to_owned();
        t.append(passages[i].as_str());
        let ghost tv = t@;
        owned.push(t);
        proof {
            assert(want[i as int] == tv);
            assert(texts(owned@) =~= texts(had).push(tv));
            assert(want.take(i + 1) =~= want.take(i as int).push(tv));
        }
        i = i + 1;
    }
    let mut refs: Vec<&str> = Vec::with_capacity(n);
    let mut k: usize = 0;
    while k < n
        invariant
            n == owned@.len(),
            n == want.len(),
            k <= n,
            texts(owned@) == want.take(n as int),
            str_views(refs@) == want.take(k as int),
        decreases n - k,
    {
        let ghost had = refs@;
        refs.push(owned[k].as_str());
        proof {
            assert(texts(owned@)[k as int] == owned@[k as int]@);
            assert(str_views(refs@) =~= str_views(had).push(want[k as int]));
            assert(want.take(k + 1) =~= want.take(k as int).push(want[k as int]));
        }
        k = k + 1;
    }
    proof {
        assert(want.take(n as int) =~= want);
    }
    match embed(model, refs) {
        Ok(rows) => Ok(rows),
        Err(cause) => Err(EmbedError { cause }),
    }
}

/// The embedding of a query, as the model gives it: the first row of its answer
/// to the query alone, and none when it gives no row at all. It fails exactly
/// where the model fails on the query.
pub fn embed_query(model: &mut fastembed::TextEmbedding, query: &str) -> (r: Result<
    Option<Vec<u32>>,
    EmbedError,
>)
    ensures
        match r {
            Ok(bits) => exists|rows: Seq<Seq<u32>>| #[trigger]
                answered(seq![query@], Some(rows)) && bits_view(bits) == first_row(rows),
            Err(_) => answered(seq![query@], None),
        },
{
    let texts: Vec<&str> = vec![query];
    proof {
        assert(str_views(texts@) =~= seq![query@]);
    }
    let answer = embed(model, texts);
    query_embedding(answer)
}

impl Index {
    /// An index of nothing.
    pub fn new() -> (i: Index)
        ensures
            i@.chunks.len() == 0,
            i@.embeddings.len() == 0,
    {
        Index { chunks: Vec::new(), embeddings: Vec::new() }
    }

    /// An index from scratch: an empty one, and the finished re-reading that is
    /// to be written and applied to it. For later changes there is `refresh`.
    pub fn build(
        model: &mut fastembed::TextEmbedding,
        entries: &Vec<StoreEntry>,
        cached: Option<Cache>,
    ) -> (r: Result<(Index, Reindex), RefreshError>)
        ensures
            match r {
                Ok(p) => {
                    &&& p.0@.chunks.len() == 0
                    &&& p.0@.embeddings.len() == 0
                    &&& refreshed(entries@, disk_view(cached), p.1@)
                },
                Err(e) => refresh_fails(entries@, disk_view(cached), e),
            },
    {
        match Index::refresh(model, entries, cached) {
            Ok(work) => Ok((Index::new(), work)),
            Err(e) => Err(e),
        }
    }

    /// The index of what the cache already has, without any model work: the
    /// chunks whose embedding is known. Also says how many chunks were left
    /// out. A cache that could not be read counts as empty.
    pub fn build_cached(entries: &Vec<StoreEntry>, cached: Option<Cache>) -> (r: Result<
        (Index, usize),
        Unreadable,
    >)
        ensures
            match r {
                Ok(p) => {
                    let all = chunks_along(entries@, listing(entries@));
                    let cache = disk_view(cached).cache;
                    let known = known_chunks(all, cache);
                    &&& all_readable(entries@, listing(entries@))
                    &&& p.0@ == (IndexView { chunks: known, embeddings: embeddings_of(known, cache) })
                    &&& p.1 == all.len() - known.len()
                },
                Err(u) => first_unreadable(entries@, listing(entries@), u.entry as int),
            },
    {
        let mut all = match chunk_store(entries) {
            Ok(c) => c,
            Err(u) => {
                return Err(u);
            },
        };
        let warm = from_disk(cached);
        let ghost cv = chunk_views(all@);
        let ghost cache = warm@.cache;
        let total: usize = all.len();
        let mut chunks: Vec<Chunk> = Vec::with_capacity(total);
        let mut embeddings: Vec<Vec<u32>> = Vec::with_capacity(total);
        let mut i: usize = 0;
        proof {
            assert(chunk_views(chunks@) =~= known_chunks(cv.take(0), cache));
            assert(bit_views(embeddings@) =~= embeddings_of(known_chunks(cv.take(0), cache), cache));
        }
        while i < total
            invariant
                total == all@.len(),
                i <= total,
                cv == chunk_views(all@),
                cache == warm.cache@,
                chunks@.len() <= i,
                chunk_views(chunks@) == known_chunks(cv.take(i as int), cache),
                bit_views(embeddings@) == embeddings_of(
                    known_chunks(cv.take(i as int), cache),
                    cache,
                ),
            decreases total - i,
        {
            let ghost had = chunks@;
            let ghost hade = embeddings@;
            let c = &all[i];
            proof {
                assert(cv.take(i + 1).drop_last() =~= cv.take(i as int));
                assert(cv.take(i + 1).last() == c@);
            }
            match warm.cache.embeddings.get(c.hash.as_str()) {
                Some(e) => {
                    let bits = copied_bits(e);
                    let ghost bv = bits@;
                    embeddings.push(bits);
                    let copy = copied_chunk(c);
                    let ghost v = copy@;
                    chunks.push(copy);
                    proof {
                        assert(cache.contains_key(v.hash));
                        assert(cache[v.hash] == bv);
                        assert(chunk_views(chunks@) =~= chunk_views(had).push(v));
                        assert(bit_views(embeddings@) =~= bit_views(hade).push(bv));
                        assert(embeddings_of(chunk_views(chunks@), cache) =~= embeddings_of(
                            chunk_views(had),
                            cache,
                        ).push(bv));
                    }
                },
                None => {},
            }
            i = i + 1;
        }
        proof {
            assert(cv.take(total as int) =~= cv);
            assert(chunk_views(chunks@).len() == chunks@.len());
        }
        let left: usize = total - chunks.len();
        Ok((Index { chunks, embeddings }, left))
    }

    /// Reads the store and finds out what the cache on disk is missing. Does
    /// no model work.
    pub fn begin_reindex(entries: &Vec<StoreEntry>, cached: Option<Cache>) -> (r: Result<
        Reindex,
        Unreadable,
    >)
        ensures
            match r {
                Ok(w) => all_readable(entries@, listing(entries@)) && w@ == begun(
                    chunks_along(entries@, listing(entries@)),
                    disk_view(cached),
                ),
                Err(u) => first_unreadable(entries@, listing(entries@), u.entry as int),
            },
    {
        let mut warm = Some(from_disk(cached));
        match Index::begin_reindex_with(entries, &mut warm) {
            Ok(w) => Ok(w),
            Err(BeginError::Store(u)) => Err(u),
            Err(BeginError::NoCache) => Err(Unreadable { entry: 0 }),
        }
    }

    /// The same from a cache that is already in hand: the one of a re-reading
    /// that was given up. The cache is taken only once the store has been read,
    /// so that a failure costs nothing of it.
    pub fn begin_reindex_with(entries: &Vec<StoreEntry>, warm: &mut Option<WarmCache>) -> (r: Result<
        Reindex,
        BeginError,
    >)
        ensures
            match r {
                Ok(w) => {
                    &&& all_readable(entries@, listing(entries@))
                    &&& *old(warm) is Some
                    &&& *final(warm) is None
                    &&& w@ == begun(
                        chunks_along(entries@, listing(entries@)),
                        old(warm)->Some_0@,
                    )
                },
                Err(BeginError::Store(u)) => {
                    &&& first_unreadable(entries@, listing(entries@), u.entry as int)
                    &&& *final(warm) == *old(warm)
                },
                Err(BeginError::NoCache) => {
                    &&& all_readable(entries@, listing(entries@))
                    &&& *old(warm) is None
                    &&& *final(warm) is None
                },
            },
    {
        let chunks = match chunk_store(entries) {
            Ok(c) => c,
            Err(u) => {
                return Err(BeginError::Store(u));
            },
        };
        let taken = match warm.take() {
            Some(w) => w,
            None => {
                return Err(BeginError::NoCache);
            },
        };
        let WarmCache { cache, dirty } = taken;
        let missing = places_missing(&chunks, &cache);
        let w = Reindex { chunks, cache, missing, next: 0, dirty };
        proof {
            assert(w@ =~= begun(
                chunks_along(entries@, listing(entries@)),
                WarmView { cache: cache@, dirty },
            ));
        }
        Ok(w)
    }

    /// Embeds the next few chunks. Says whether nothing is left after that.
    /// Where the model fails on them, nothing has changed; where nothing is left to
    /// embed, the model is not asked.
    pub fn step_reindex(model: &mut fastembed::TextEmbedding, work: &mut Reindex) -> (r: Result<
        bool,
        EmbedError,
    >)
        ensures
            old(work)@.well_formed(),
            match r {
                Ok(done) => {
                    &&& done == (final(work)@.left() == 0)
                    &&& exists|embs: Seq<Seq<u32>>|
                        #![trigger recorded(old(work)@, embs)]
                        given_for_batch(old(work)@, embs) && final(work)@ == recorded(
                            old(work)@,
                            embs,
                        )
                },
                Err(_) => {
                    &&& old(work)@.left() > 0
                    &&& answered(batch_texts(old(work)@), None)
                    &&& final(work)@ == old(work)@
                },
            },
    {
        let ghost w = work@;
        if !work.is_done() {
            let texts = work.next_batch();
            match embed(model, texts) {
                Ok(embs) => {
                    proof {
                        assert(given_for_batch(w, bit_views(embs@)));
                    }
                    work.record(&embs);
                },
                Err(cause) => {
                    return Err(EmbedError { cause });
                },
            }
        } else {
            proof {
                let none = Seq::<Seq<u32>>::empty();
                assert(recorded(w, none) =~= w);
                assert(given_for_batch(w, none));
            }
        }
        Ok(work.is_done())
    }

    /// Reads the store into the model that is already loaded, to the end: what
    /// is left is to write the cache and to apply. Callers that have to stay
    /// responsive go step by step instead.
    pub fn refresh(
        model: &mut fastembed::TextEmbedding,
        entries: &Vec<StoreEntry>,
        cached: Option<Cache>,
    ) -> (r: Result<Reindex, RefreshError>)
        ensures
            match r {
                Ok(w) => refreshed(entries@, disk_view(cached), w@),
                Err(e) => refresh_fails(entries@, disk_view(cached), e),
            },
    {
        let mut work = match Index::begin_reindex(entries, cached) {
            Ok(w) => w,
            Err(u) => {
                return Err(RefreshError::Store(u));
            },
        };
        let ghost start = work@;
        let ghost mut batches: Seq<Seq<Seq<u32>>> = Seq::empty();
        while !work.is_done()
            invariant
                given_along(start, batches),
                work@ == after(start, batches),
                work@.missing == start.missing,
                start.next == 0,
                work@.next >= 0,
                start == begun(chunks_along(entries@, listing(entries@)), disk_view(cached)),
                all_readable(entries@, listing(entries@)),
            decreases work@.left(),
        {
            let ghost before = work@;
            match Index::step_reindex(model, &mut work) {
                Ok(_) => {
                    proof {
                        let embs = choose|embs: Seq<Seq<u32>>|
                            #![trigger recorded(before, embs)]
                            given_for_batch(before, embs) && work@ == recorded(before, embs);
                        lemma_one_more(start, batches, embs);
                        batches = batches.push(embs);
                    }
                },
                Err(e) => {
                    proof {
                        assert(failed_after(start, batches));
                    }
                    return Err(RefreshError::Model(e));
                },
            }
        }
        Ok(work)
    }

    /// Swaps a finished re-reading in. On failure the index is left untouched:
    /// a stale one still answers.
    pub fn apply(&mut self, work: Reindex) -> (r: Result<(), ApplyError>)
        ensures
            match r {
                Ok(_) => can_apply(work@) && final(self)@ == applied(work@),
                Err(e) => apply_fails(work@, e) && *final(self) == *old(self),
            },
    {
        let remaining = work.remaining();
        if remaining > 0 {
            return Err(ApplyError::NotDone(remaining));
        }
        let ghost w = work@;
        let n: usize = work.chunks.len();
        let mut embeddings: Vec<Vec<u32>> = Vec::with_capacity(n);
        let mut i: usize = 0;
        let ghost want = embeddings_of(w.chunks, w.cache);
        while i < n
            invariant
                n == work.chunks@.len(),
                i <= n,
                w == work@,
                w.left() == 0,
                want == embeddings_of(w.chunks, w.cache),
                all_known(w.chunks.take(i as int), w.cache),
                bit_views(embeddings@) == want.take(i as int),
                *self == *old(self),
            decreases n - i,
        {
            let c = &work.chunks[i];
            proof {
                assert(w.chunks[i as int] == c@);
            }
            match work.cache.embeddings.get(c.hash.as_str()) {
                Some(e) => {
                    let bits = copied_bits(e);
                    let ghost bv = bits@;
                    let ghost had = embeddings@;
                    embeddings.push(bits);
                    proof {
                        assert(w.cache.contains_key(c.hash@));
                        assert(w.cache[c.hash@] == bv);
                        assert(bit_views(embeddings@) =~= bit_views(had).push(bv));
                        assert(want.take(i + 1) =~= want.take(i as int).push(bv));
                        assert forall|k: int| 0 <= k < i + 1 implies w.cache.contains_key(
                            (#[trigger] w.chunks.take(i + 1)[k]).hash,
                        ) by {
                            if k < i {
                                assert(w.chunks.take(i as int)[k] == w.chunks.take(i + 1)[k]);
                            }
                        }
                    }
                },
                None => {
                    let file = c.file.as_str().to_owned();
                    let heading = c.heading.as_str().to_owned();
                    proof {
                        assert(!w.cache.contains_key(w.chunks[i as int].hash));
                        assert(file@ == work@.chunks[i as int].file);
                        assert(heading@ == work@.chunks[i as int].heading);
                    }
                    return Err(ApplyError::NoEmbedding { file, heading });
                },
            }
            i = i + 1;
        }
        proof {
            assert(w.chunks.take(n as int) =~= w.chunks);
            assert(want.take(n as int) =~= want);
        }
        self.embeddings = embeddings;
        self.chunks = work.chunks;
        Ok(())
    }
}

/// A copy of a chunk.
fn copied_chunk(c: &Chunk) -> (r: Chunk)
    ensures
        r@ == c@,
{
    Chunk {
        file: c.file.as_str().to_owned(),
        heading: c.heading.as_str().to_owned(),
        text: c.text.as_str().to_owned(),
        hash: c.hash.as_str().to_owned(),
    }
}

/// The places of the chunks that the cache has no embedding for.
fn places_missing(chunks: &Vec<Chunk>, cache: &Cache) -> (out: Vec<usize>)
    ensures
        crate::sort::ints(out@) == missing_from(chunk_views(chunks@), cache@),
        forall|k: int| 0 <= k < out@.len() ==> #[trigger] out@[k] < chunks@.len(),
{
    let ghost cv = chunk_views(chunks@);
    let n: usize = chunks.len();
    let mut out: Vec<usize> = Vec::new();
    let mut i: usize = 0;
    proof {
        assert(crate::sort::ints(out@) =~= missing_from(cv.take(0), cache@));
    }
    while i < n
        invariant
            n == chunks@.len(),
            i <= n,
            cv == chunk_views(chunks@),
            crate::sort::ints(out@) == missing_from(cv.take(i as int), cache@),
            forall|k: int| 0 <= k < out@.len() ==> #[trigger] out@[k] < chunks@.len(),
        decreases n - i,
    {
        proof {
            assert(cv.take(i + 1).drop_last() =~= cv.take(i as int));
            assert(cv.take(i + 1).last() == chunks@[i as int]@);
        }
        let ghost before = out@;
        if !cache.embeddings.contains_key(chunks[i].hash.as_str()) {
            out.push(i);
            proof {
                assert(crate::sort::ints(out@) =~= crate::sort::ints(before).push(i as int));
            }
        }
        i = i + 1;
    }
    proof {
        assert(cv.take(n as int) =~= cv);
    }
    out
}

} // verus!
