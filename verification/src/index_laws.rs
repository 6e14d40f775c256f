//! What holds of every re-reading of the store.
use vstd::prelude::*;

use crate::chunk::{content_hash, file_chunks, ChunkView};
use crate::chunk_laws::law_chunks_are_labelled;
use crate::index::{
    after, all_known, answered, applied, apply_fails, batch_texts, batch_used, begun, cached_batch,
    can_apply, disk_view, embeddings_of, failed_after, first_row, given_along, given_for,
    given_for_batch, known_chunks, lemma_one_more, live, missing_from, prefixed, pruned, recorded,
    refresh_fails, refreshed, ApplyError, Cache, RefreshError, ReindexView, WarmView, REINDEX_BATCH,
};
use crate::store::{
    all_readable, chunks_along, file_name, first_unreadable, listing, name_at, raw_at, StoreEntry,
};

verus! {

/// Every chunk has its embedding or is still to be dealt with.
pub open spec fn covered(w: ReindexView) -> bool {
    forall|i: int|
        #![trigger w.chunks[i]]
        0 <= i < w.chunks.len() ==> w.cache.contains_key(w.chunks[i].hash) || exists|k: int|
            w.next <= k < w.missing.len() && #[trigger] w.missing[k] == i
}

proof fn lemma_missing(chunks: Seq<ChunkView>, cache: Map<Seq<char>, Seq<u32>>)
    ensures
        forall|k: int|
            #![trigger missing_from(chunks, cache)[k]]
            0 <= k < missing_from(chunks, cache).len() ==> 0 <= missing_from(chunks, cache)[k]
                < chunks.len() && !cache.contains_key(
                chunks[missing_from(chunks, cache)[k]].hash,
            ),
        forall|i: int|
            #![trigger chunks[i]]
            0 <= i < chunks.len() && !cache.contains_key(chunks[i].hash) ==> exists|k: int|
                0 <= k < missing_from(chunks, cache).len() && #[trigger] missing_from(
                    chunks,
                    cache,
                )[k] == i,
        known_chunks(chunks, cache).len() + missing_from(chunks, cache).len() == chunks.len(),
    decreases chunks.len(),
{
    if chunks.len() > 0 {
        let less = chunks.drop_last();
        let before = missing_from(less, cache);
        let all = missing_from(chunks, cache);
        lemma_missing(less, cache);
        assert forall|k: int| #![trigger all[k]] 0 <= k < all.len() implies 0 <= all[k]
            < chunks.len() && !cache.contains_key(chunks[all[k]].hash) by {
            if k < before.len() {
                assert(all[k] == before[k]);
                assert(less[before[k]] == chunks[all[k]]);
            }
        }
        assert forall|i: int|
            #![trigger chunks[i]]
            0 <= i < chunks.len() && !cache.contains_key(chunks[i].hash) implies exists|k: int|
            0 <= k < all.len() && #[trigger] all[k] == i by {
            if i < less.len() {
                assert(less[i] == chunks[i]);
                let k = choose|k: int| 0 <= k < before.len() && #[trigger] before[k] == i;
                assert(all[k] == i);
            } else {
                assert(all[before.len() as int] == i);
            }
        }
    }
}

/// A re-reading begins in order: what is missing are exactly the chunks that
/// the cache does not have, nothing has been dealt with, and every chunk is
/// accounted for.
pub proof fn law_begin_accounts_for_every_chunk(chunks: Seq<ChunkView>, warm: WarmView)
    ensures
        begun(chunks, warm).well_formed(),
        covered(begun(chunks, warm)),
        forall|k: int|
            #![trigger begun(chunks, warm).missing[k]]
            0 <= k < begun(chunks, warm).missing.len() ==> !warm.cache.contains_key(
                chunks[begun(chunks, warm).missing[k]].hash,
            ),
{
    lemma_missing(chunks, warm.cache);
}

proof fn lemma_batch(w: ReindexView, embs: Seq<Seq<u32>>, n: int)
    requires
        0 <= n,
    ensures
        forall|h: Seq<char>|
            #[trigger] w.cache.contains_key(h) ==> cached_batch(w, embs, n).contains_key(h),
        forall|k: int|
            0 <= k < n ==> cached_batch(w, embs, n).contains_key(
                (#[trigger] w.due(w.next + k)).hash,
            ),
    decreases n,
{
    if n > 0 {
        lemma_batch(w, embs, n - 1);
        let before = cached_batch(w, embs, n - 1);
        let all = cached_batch(w, embs, n);
        assert(all == before.insert(w.due(w.next + (n - 1)).hash, embs[n - 1]));
    } else {
        assert(cached_batch(w, embs, n) == w.cache);
    }
}

/// A step keeps the account, as long as the model gives an embedding for every
/// text that it was asked for. Nothing that was embedded before is lost, and
/// the step leaves less to do.
pub proof fn law_step_keeps_the_account(w: ReindexView, embs: Seq<Seq<u32>>)
    requires
        w.well_formed(),
        covered(w),
        embs.len() >= w.batch_end() - w.next,
    ensures
        recorded(w, embs).well_formed(),
        covered(recorded(w, embs)),
        forall|h: Seq<char>|
            w.cache.contains_key(h) ==> #[trigger] recorded(w, embs).cache.contains_key(h),
        w.left() > 0 ==> recorded(w, embs).left() < w.left(),
        w.left() <= REINDEX_BATCH ==> recorded(w, embs).left() == 0,
{
    let n = batch_used(w, embs);
    let r = recorded(w, embs);
    lemma_batch(w, embs, n);
    assert forall|i: int|
        #![trigger r.chunks[i]]
        0 <= i < r.chunks.len() implies r.cache.contains_key(r.chunks[i].hash) || exists|k: int|
        r.next <= k < r.missing.len() && #[trigger] r.missing[k] == i by {
        assert(w.chunks[i] == r.chunks[i]);
        if !w.cache.contains_key(w.chunks[i].hash) {
            let k = choose|k: int| w.next <= k < w.missing.len() && #[trigger] w.missing[k] == i;
            if k < r.next {
                assert(w.due(w.next + (k - w.next)) == w.chunks[i]);
            } else {
                assert(r.missing[k] == i);
            }
        }
    }
}

/// A finished re-reading can be applied: every chunk has its embedding.
pub proof fn law_finished_work_applies(w: ReindexView)
    requires
        w.well_formed(),
        covered(w),
        w.left() == 0,
    ensures
        all_known(w.chunks, w.cache),
{
}

/// A pass that the model sees through can be applied: where every step got an
/// embedding for each of its texts and nothing is left, every chunk has its
/// embedding.
pub proof fn law_a_full_pass_applies(
    chunks: Seq<ChunkView>,
    warm: WarmView,
    batches: Seq<Seq<Seq<u32>>>,
)
    requires
        forall|k: int|
            0 <= k < batches.len() ==> (#[trigger] batches[k]).len() >= batch_texts(
                after(begun(chunks, warm), batches.take(k)),
            ).len(),
        after(begun(chunks, warm), batches).left() == 0,
    ensures
        can_apply(after(begun(chunks, warm), batches)),
{
    let start = begun(chunks, warm);
    law_begin_accounts_for_every_chunk(chunks, warm);
    lemma_account_along(start, batches);
    law_finished_work_applies(after(start, batches));
}

proof fn lemma_account_along(w: ReindexView, batches: Seq<Seq<Seq<u32>>>)
    requires
        w.well_formed(),
        covered(w),
        forall|k: int|
            0 <= k < batches.len() ==> (#[trigger] batches[k]).len() >= batch_texts(
                after(w, batches.take(k)),
            ).len(),
    ensures
        after(w, batches).well_formed(),
        covered(after(w, batches)),
    decreases batches.len(),
{
    if batches.len() > 0 {
        let less = batches.drop_last();
        assert forall|k: int| 0 <= k < less.len() implies (#[trigger] less[k]).len()
            >= batch_texts(after(w, less.take(k))).len() by {
            assert(less.take(k) =~= batches.take(k));
            assert(less[k] == batches[k]);
        }
        lemma_account_along(w, less);
        let last = batches.len() - 1;
        assert(batches.take(last) =~= less);
        assert(batches[last] == batches.last());
        law_step_keeps_the_account(after(w, less), batches.last());
    }
}

/// Pruning takes nothing that is needed: what is applied is the same with and
/// without it, and what is left in the cache belongs to some chunk.
pub proof fn law_pruning_takes_nothing_needed(w: ReindexView)
    requires
        all_known(w.chunks, w.cache),
    ensures
        all_known(pruned(w).chunks, pruned(w).cache),
        embeddings_of(pruned(w).chunks, pruned(w).cache) == embeddings_of(w.chunks, w.cache),
        w.left() == 0 && w.dirty ==> forall|h: Seq<char>| #[trigger]
            pruned(w).cache.contains_key(h) ==> live(w.chunks).contains(h),
{
    let p = pruned(w);
    assert forall|i: int| 0 <= i < p.chunks.len() implies p.cache.contains_key(
        (#[trigger] p.chunks[i]).hash,
    ) by {
        assert(live(w.chunks).contains(w.chunks[i].hash));
    }
    assert forall|i: int| 0 <= i < p.chunks.len() implies #[trigger] embeddings_of(
        p.chunks,
        p.cache,
    )[i] == embeddings_of(w.chunks, w.cache)[i] by {
        assert(p.cache.contains_key(p.chunks[i].hash));
    }
    assert(embeddings_of(p.chunks, p.cache) =~= embeddings_of(w.chunks, w.cache));
}

/// What a re-reading has embedded is never embedded again by the one that
/// replaces it, and whether anything is owed to the disk goes along with it.
pub proof fn law_given_up_work_is_kept(w: ReindexView, chunks: Seq<ChunkView>)
    ensures
        ({
            let next = begun(chunks, WarmView { cache: w.cache, dirty: w.dirty });
            &&& next.dirty == w.dirty
            &&& next.cache == w.cache
            &&& forall|k: int|
                #![trigger next.missing[k]]
                0 <= k < next.missing.len() ==> !w.cache.contains_key(
                    chunks[next.missing[k]].hash,
                )
        }),
{
    lemma_missing(chunks, w.cache);
}

proof fn lemma_batch_spares(
    w: ReindexView,
    embs: Seq<Seq<u32>>,
    n: int,
    had: Map<Seq<char>, Seq<u32>>,
)
    requires
        w.well_formed(),
        0 <= n <= batch_used(w, embs),
        forall|k: int|
            0 <= k < w.missing.len() ==> !had.contains_key((#[trigger] w.due(k)).hash),
        had.submap_of(w.cache),
    ensures
        had.submap_of(cached_batch(w, embs, n)),
    decreases n,
{
    if n > 0 {
        lemma_batch_spares(w, embs, n - 1, had);
        let c = w.due(w.next + n - 1);
        assert(!had.contains_key(c.hash));
    }
}

proof fn lemma_pass_spares(
    w: ReindexView,
    batches: Seq<Seq<Seq<u32>>>,
    had: Map<Seq<char>, Seq<u32>>,
)
    requires
        w.well_formed(),
        forall|k: int|
            0 <= k < w.missing.len() ==> !had.contains_key((#[trigger] w.due(k)).hash),
        had.submap_of(w.cache),
    ensures
        had.submap_of(after(w, batches).cache),
        after(w, batches).well_formed(),
        after(w, batches).chunks == w.chunks,
        after(w, batches).missing == w.missing,
    decreases batches.len(),
{
    if batches.len() > 0 {
        lemma_pass_spares(w, batches.drop_last(), had);
        let mid = after(w, batches.drop_last());
        assert forall|k: int| 0 <= k < mid.missing.len() implies !had.contains_key(
            (#[trigger] mid.due(k)).hash,
        ) by {
            assert(mid.due(k) == w.due(k));
        }
        lemma_batch_spares(mid, batches.last(), batch_used(mid, batches.last()), had);
    }
}

/// What was cached keeps its value through a pass: every embedding that a pass
/// begins with is in its cache at any later point, and is the same. Pruning
/// changes the value of none that it keeps.
pub proof fn law_cached_embeddings_keep_their_values(
    chunks: Seq<ChunkView>,
    warm: WarmView,
    batches: Seq<Seq<Seq<u32>>>,
)
    ensures
        warm.cache.submap_of(after(begun(chunks, warm), batches).cache),
        pruned(after(begun(chunks, warm), batches)).cache.submap_of(
            after(begun(chunks, warm), batches).cache,
        ),
{
    let w = begun(chunks, warm);
    lemma_missing(chunks, warm.cache);
    assert forall|k: int| 0 <= k < w.missing.len() implies !warm.cache.contains_key(
        (#[trigger] w.due(k)).hash,
    ) by {
        assert(w.missing[k] == missing_from(chunks, warm.cache)[k]);
    }
    lemma_pass_spares(w, batches, warm.cache);
}

/// Where every chunk is known, nothing has to be embedded: a start with an
/// unchanged store, or with one that files were only removed from, does no
/// model work.
pub proof fn law_known_chunks_need_no_work(chunks: Seq<ChunkView>, warm: WarmView)
    requires
        all_known(chunks, warm.cache),
    ensures
        begun(chunks, warm).missing.len() == 0,
        begun(chunks, warm).left() == 0,
{
    lemma_missing(chunks, warm.cache);
    let m = missing_from(chunks, warm.cache);
    if m.len() > 0 {
        assert(warm.cache.contains_key(chunks[m[0]].hash));
    }
}

/// What a finished re-reading writes to disk is enough to begin again from the
/// same chunks, or from some of them, without any model work.
pub proof fn law_written_cache_suffices(w: ReindexView, chunks: Seq<ChunkView>)
    requires
        all_known(w.chunks, w.cache),
        forall|i: int|
            0 <= i < chunks.len() ==> live(w.chunks).contains((#[trigger] chunks[i]).hash),
    ensures
        begun(chunks, WarmView { cache: pruned(w).cache, dirty: false }).missing.len() == 0,
{
    law_pruning_takes_nothing_needed(w);
    let p = pruned(w);
    assert forall|i: int| 0 <= i < chunks.len() implies p.cache.contains_key(
        (#[trigger] chunks[i]).hash,
    ) by {
        let h = chunks[i].hash;
        let k = choose|k: int| 0 <= k < w.chunks.len() && (#[trigger] w.chunks[k]).hash == h;
        assert(p.cache.contains_key(p.chunks[k].hash));
    }
    law_known_chunks_need_no_work(chunks, WarmView { cache: p.cache, dirty: false });
}

/// An index from the cache alone leaves out as many chunks as a re-reading
/// from the same cache has to embed.
pub proof fn law_left_out_chunks_are_the_work(chunks: Seq<ChunkView>, warm: WarmView)
    ensures
        chunks.len() - known_chunks(chunks, warm.cache).len() == begun(chunks, warm).missing.len(),
{
    lemma_missing(chunks, warm.cache);
}

/// A re-reading that has embedded anything owes it to the disk, and so does
/// one that took over such a debt.
pub proof fn law_debts_are_remembered(w: ReindexView, embs: Seq<Seq<u32>>)
    requires
        w.well_formed(),
    ensures
        w.dirty ==> recorded(w, embs).dirty,
        w.left() > 0 ==> recorded(w, embs).dirty,
        recorded(w, embs).dirty && !w.dirty ==> w.left() > 0,
{
}

/// What was owed stays owed until it is written: a pass that took over
/// embeddings which are not on disk owes them at its end, even where it had
/// nothing to embed itself.
pub proof fn law_inherited_debts_are_paid(
    chunks: Seq<ChunkView>,
    warm: WarmView,
    batches: Seq<Seq<Seq<u32>>>,
)
    requires
        warm.dirty,
    ensures
        after(begun(chunks, warm), batches).dirty,
    decreases batches.len(),
{
    if batches.len() > 0 {
        law_inherited_debts_are_paid(chunks, warm, batches.drop_last());
    }
}

/// Every hash is that of the chunk's own text.
pub open spec fn sealed_chunks(chunks: Seq<ChunkView>) -> bool {
    forall|i: int|
        0 <= i < chunks.len() ==> (#[trigger] chunks[i]).hash == content_hash(chunks[i].text)
}

/// What is cached under a hash was given for a text with that hash.
pub open spec fn sound(cache: Map<Seq<char>, Seq<u32>>) -> bool {
    forall|h: Seq<char>| #[trigger] cache.contains_key(h) ==> given_under(h, cache[h])
}

/// The model gave the bits for some text with this hash.
pub open spec fn given_under(hash: Seq<char>, bits: Seq<u32>) -> bool {
    exists|t: Seq<char>| content_hash(t) == hash && #[trigger] given_for(t, bits)
}

/// The chunks of a store are keyed by their own texts.
pub proof fn law_store_chunks_are_sealed(entries: Seq<StoreEntry>, order: Seq<int>)
    ensures
        sealed_chunks(chunks_along(entries, order)),
    decreases order.len(),
{
    if order.len() > 0 {
        let i = order.last();
        let before = chunks_along(entries, order.drop_last());
        let name = file_name(name_at(entries, i));
        let raw = raw_at(entries, i).unwrap();
        let own = file_chunks(name, raw);
        law_store_chunks_are_sealed(entries, order.drop_last());
        law_chunks_are_labelled(name, raw);
        let all = chunks_along(entries, order);
        assert forall|k: int| 0 <= k < all.len() implies (#[trigger] all[k]).hash == content_hash(
            all[k].text,
        ) by {
            if k < before.len() {
                assert(all[k] == before[k]);
            } else {
                assert(all[k] == own[k - before.len()]);
            }
        }
    }
}

proof fn lemma_batch_sound(w: ReindexView, embs: Seq<Seq<u32>>, n: int)
    requires
        w.well_formed(),
        sealed_chunks(w.chunks),
        sound(w.cache),
        given_for_batch(w, embs),
        0 <= n <= batch_used(w, embs),
    ensures
        sound(cached_batch(w, embs, n)),
    decreases n,
{
    if n > 0 {
        lemma_batch_sound(w, embs, n - 1);
        let before = cached_batch(w, embs, n - 1);
        let c = w.due(w.next + n - 1);
        let e = embs[n - 1];
        assert(batch_texts(w)[n - 1] == c.text);
        assert(given_for(c.text, e));
        assert(0 <= w.missing[w.next + n - 1] < w.chunks.len());
        assert(c.hash == content_hash(c.text));
        assert(given_under(c.hash, e));
        assert forall|h: Seq<char>| #[trigger] before.insert(c.hash, e).contains_key(
            h,
        ) implies given_under(h, before.insert(c.hash, e)[h]) by {
            if h != c.hash {
                assert(before.contains_key(h));
            }
        }
    }
}

proof fn lemma_after_sound(w: ReindexView, batches: Seq<Seq<Seq<u32>>>)
    requires
        w.well_formed(),
        sealed_chunks(w.chunks),
        sound(w.cache),
        given_along(w, batches),
    ensures
        after(w, batches).well_formed(),
        after(w, batches).chunks == w.chunks,
        sound(after(w, batches).cache),
    decreases batches.len(),
{
    if batches.len() > 0 {
        let less = batches.drop_last();
        assert forall|k: int| 0 <= k < less.len() implies given_for_batch(
            after(w, less.take(k)),
            #[trigger] less[k],
        ) by {
            assert(less.take(k) =~= batches.take(k));
            assert(less[k] == batches[k]);
        }
        lemma_after_sound(w, less);
        let mid = after(w, less);
        let last = batches.len() - 1;
        assert(batches.take(last) =~= less);
        assert(batches[last] == batches.last());
        lemma_batch_sound(mid, batches.last(), batch_used(mid, batches.last()));
    }
}

/// Every chunk goes with an embedding of its own content: from a sound cache,
/// whatever steps the model's answers make, each embedding that is applied was
/// given for a text with the chunk's content hash.
pub proof fn law_embeddings_go_with_their_chunks(
    chunks: Seq<ChunkView>,
    warm: WarmView,
    batches: Seq<Seq<Seq<u32>>>,
)
    requires
        sealed_chunks(chunks),
        sound(warm.cache),
        given_along(begun(chunks, warm), batches),
        all_known(chunks, after(begun(chunks, warm), batches).cache),
    ensures
        ({
            let w = after(begun(chunks, warm), batches);
            &&& w.chunks == chunks
            &&& forall|i: int|
                #![trigger embeddings_of(w.chunks, w.cache)[i]]
                0 <= i < chunks.len() ==> given_under(
                    content_hash(chunks[i].text),
                    embeddings_of(w.chunks, w.cache)[i],
                )
        }),
{
    lemma_missing(chunks, warm.cache);
    lemma_after_sound(begun(chunks, warm), batches);
    let w = after(begun(chunks, warm), batches);
    assert forall|i: int|
        #![trigger embeddings_of(w.chunks, w.cache)[i]]
        0 <= i < chunks.len() implies given_under(
        content_hash(chunks[i].text),
        embeddings_of(w.chunks, w.cache)[i],
    ) by {
        assert(w.cache.contains_key(chunks[i].hash));
    }
}

proof fn lemma_missing_rises(chunks: Seq<ChunkView>, cache: Map<Seq<char>, Seq<u32>>)
    ensures
        forall|j: int, k: int|
            0 <= j < k < missing_from(chunks, cache).len() ==> #[trigger] missing_from(
                chunks,
                cache,
            )[j] < #[trigger] missing_from(chunks, cache)[k],
    decreases chunks.len(),
{
    if chunks.len() > 0 {
        let less = chunks.drop_last();
        lemma_missing_rises(less, cache);
        lemma_missing(less, cache);
    }
}

/// A pass takes all chunks and the cache as they are, owes what was owed, and
/// goes through the missing chunks from the first to the last.
pub proof fn law_a_pass_goes_from_first_to_last(chunks: Seq<ChunkView>, warm: WarmView)
    ensures
        ({
            let w = begun(chunks, warm);
            &&& w.chunks == chunks
            &&& w.cache == warm.cache
            &&& w.dirty == warm.dirty
            &&& w.next == 0
            &&& w.left() == w.missing.len()
            &&& forall|j: int, k: int|
                0 <= j < k < w.missing.len() ==> #[trigger] w.missing[j] < #[trigger] w.missing[k]
            &&& forall|i: int| #[trigger]
                w.missing.contains(i) <==> 0 <= i < chunks.len() && !warm.cache.contains_key(
                    chunks[i].hash,
                )
        }),
{
    let w = begun(chunks, warm);
    lemma_missing(chunks, warm.cache);
    lemma_missing_rises(chunks, warm.cache);
    assert forall|i: int| #[trigger] w.missing.contains(i) <==> 0 <= i < chunks.len()
        && !warm.cache.contains_key(chunks[i].hash) by {
        if w.missing.contains(i) {
            let k = choose|k: int| 0 <= k < w.missing.len() && w.missing[k] == i;
            assert(missing_from(chunks, warm.cache)[k] == i);
        }
        if 0 <= i < chunks.len() && !warm.cache.contains_key(chunks[i].hash) {
            assert(chunks[i] == chunks[i]);
            let k = choose|k: int|
                0 <= k < missing_from(chunks, warm.cache).len() && #[trigger] missing_from(
                    chunks,
                    warm.cache,
                )[k] == i;
            assert(w.missing[k] == i);
        }
    }
}

/// A step embeds the text of the one chunk that is next, and puts what comes
/// back under that chunk's hash. Nothing else of the cache changes, and the
/// step is done with whatever came back. With nothing left a step does nothing.
pub proof fn law_a_step_embeds_the_next_chunk(w: ReindexView, embs: Seq<Seq<u32>>)
    requires
        w.well_formed(),
    ensures
        w.left() == w.missing.len() - w.next,
        w.left() > 0 ==> {
            let c = w.chunks[w.missing[w.next]];
            let r = recorded(w, embs);
            &&& batch_texts(w) == seq![c.text]
            &&& r.cache == if embs.len() > 0 {
                w.cache.insert(c.hash, embs[0])
            } else {
                w.cache
            }
            &&& r.chunks == w.chunks
            &&& r.missing == w.missing
            &&& r.next == w.next + 1
            &&& r.dirty
        },
        w.left() == 0 ==> batch_texts(w).len() == 0 && recorded(w, embs) == w,
{
    if w.left() > 0 {
        let c = w.chunks[w.missing[w.next]];
        assert(batch_texts(w) =~= seq![c.text]);
        if embs.len() > 0 {
            assert(cached_batch(w, embs, 0) == w.cache);
            assert(cached_batch(w, embs, 1) == w.cache.insert(w.due(w.next + 1 - 1).hash, embs[0]));
        }
    }
}

proof fn lemma_known_filter(chunks: Seq<ChunkView>, cache: Map<Seq<char>, Seq<u32>>)
    ensures
        known_chunks(chunks, cache) == chunks.filter(
            |c: ChunkView| cache.contains_key(c.hash),
        ),
    decreases chunks.len(),
{
    reveal(Seq::filter);
    if chunks.len() > 0 {
        lemma_known_filter(chunks.drop_last(), cache);
    }
}

/// What is known of a store are all of its chunks that the cache has, in their
/// order, and each goes with what the cache has under its hash.
pub proof fn law_known_chunks_keep_their_order(
    chunks: Seq<ChunkView>,
    cache: Map<Seq<char>, Seq<u32>>,
    i: int,
)
    ensures
        known_chunks(chunks, cache) == chunks.filter(|c: ChunkView| cache.contains_key(c.hash)),
        embeddings_of(chunks, cache).len() == chunks.len(),
        0 <= i < chunks.len() ==> embeddings_of(chunks, cache)[i] == cache[chunks[i].hash],
        all_known(chunks, cache) ==> known_chunks(chunks, cache) == chunks,
{
    lemma_known_filter(chunks, cache);
    if all_known(chunks, cache) {
        lemma_all_known(chunks, cache);
    }
}

proof fn lemma_all_known(chunks: Seq<ChunkView>, cache: Map<Seq<char>, Seq<u32>>)
    requires
        all_known(chunks, cache),
    ensures
        known_chunks(chunks, cache) == chunks,
    decreases chunks.len(),
{
    if chunks.len() > 0 {
        let less = chunks.drop_last();
        assert forall|i: int| 0 <= i < less.len() implies cache.contains_key(
            (#[trigger] less[i]).hash,
        ) by {
            assert(less[i] == chunks[i]);
        }
        lemma_all_known(less, cache);
        assert(chunks[chunks.len() - 1] == chunks.last());
        assert(less.push(chunks.last()) =~= chunks);
    }
}

/// What is applied are all chunks of a pass, each with the embedding under its
/// own hash. It can be had exactly where the pass is through and none is
/// missing.
pub proof fn law_what_is_applied(w: ReindexView, i: int)
    ensures
        can_apply(w) <==> w.next == w.missing.len() && forall|k: int|
            0 <= k < w.chunks.len() ==> w.cache.contains_key((#[trigger] w.chunks[k]).hash),
        applied(w).chunks == w.chunks,
        applied(w).embeddings.len() == w.chunks.len(),
        0 <= i < w.chunks.len() ==> applied(w).embeddings[i] == w.cache[w.chunks[i].hash],
{
}

/// A pass that cannot be applied says how many chunks are left, or names a
/// chunk without an embedding that has none such before it. One that can be
/// applied has no such reason.
pub proof fn law_why_a_pass_does_not_apply(w: ReindexView, e: ApplyError)
    requires
        apply_fails(w, e),
    ensures
        !can_apply(w),
        w.next < w.missing.len() ==> (e matches ApplyError::NotDone(n) && n == w.missing.len()
            - w.next),
        w.next == w.missing.len() ==> (e matches ApplyError::NoEmbedding { file, heading }
            && exists|i: int|
            #![trigger w.chunks[i]]
            {
                &&& 0 <= i < w.chunks.len()
                &&& w.chunks[i].file == file@
                &&& w.chunks[i].heading == heading@
                &&& !w.cache.contains_key(w.chunks[i].hash)
                &&& forall|k: int|
                    0 <= k < i ==> w.cache.contains_key((#[trigger] w.chunks[k]).hash)
            }),
{
    match e {
        ApplyError::NotDone(n) => {},
        ApplyError::NoEmbedding { file, heading } => {
            let i = choose|i: int|
                #![trigger w.chunks[i]]
                0 <= i < w.chunks.len() && !w.cache.contains_key(w.chunks[i].hash) && all_known(
                    w.chunks.take(i),
                    w.cache,
                ) && file@ == w.chunks[i].file && heading@ == w.chunks[i].heading;
            assert forall|k: int| 0 <= k < i implies w.cache.contains_key(
                (#[trigger] w.chunks[k]).hash,
            ) by {
                assert(w.chunks.take(i)[k] == w.chunks[k]);
            }
        },
    }
}

/// What is written is all of the cache that belongs to some chunk, with its
/// values. Nothing else of the pass changes, and where nothing is owed or
/// something is left, nothing at all.
pub proof fn law_what_is_written(w: ReindexView, h: Seq<char>)
    ensures
        w.next == w.missing.len() && w.dirty ==> {
            &&& pruned(w).cache.contains_key(h) <==> w.cache.contains_key(h) && exists|i: int|
                0 <= i < w.chunks.len() && (#[trigger] w.chunks[i]).hash == h
            &&& pruned(w).cache.contains_key(h) ==> pruned(w).cache[h] == w.cache[h]
        },
        pruned(w).chunks == w.chunks,
        pruned(w).missing == w.missing,
        pruned(w).next == w.next,
        pruned(w).dirty == w.dirty,
        w.next < w.missing.len() || !w.dirty ==> pruned(w) == w,
{
}

/// What is on disk is taken as it is and owes nothing to the disk; a cache that
/// could not be read is an empty one.
pub proof fn law_what_is_read_is_not_owed(cached: Option<Cache>)
    ensures
        !disk_view(cached).dirty,
        cached matches Some(c) ==> disk_view(cached).cache == c@,
        cached is None ==> forall|h: Seq<char>| !#[trigger]
            disk_view(cached).cache.contains_key(h),
{
}

/// Steps add up: each goes on from where the one before it ended, and is one
/// that the model answered for the texts that were next, or one that had
/// nothing to ask.
pub proof fn law_steps_add_up(
    w: ReindexView,
    batches: Seq<Seq<Seq<u32>>>,
    embs: Seq<Seq<u32>>,
)
    ensures
        after(w, Seq::empty()) == w,
        after(w, batches.push(embs)) == recorded(after(w, batches), embs),
        given_along(w, Seq::empty()),
        given_along(w, batches.push(embs)) <==> given_along(w, batches) && if after(
            w,
            batches,
        ).left() == 0 {
            embs.len() == 0
        } else {
            answered(batch_texts(after(w, batches)), Some(embs))
        },
        failed_after(w, batches) <==> given_along(w, batches) && after(w, batches).left() > 0
            && answered(batch_texts(after(w, batches)), None),
{
    let more = batches.push(embs);
    assert(more.drop_last() =~= batches);
    assert(more.last() == embs);
    if given_along(w, batches) && given_for_batch(after(w, batches), embs) {
        lemma_one_more(w, batches, embs);
    }
    if given_along(w, more) {
        assert forall|k: int| 0 <= k < batches.len() implies given_for_batch(
            after(w, batches.take(k)),
            #[trigger] batches[k],
        ) by {
            assert(more[k] == batches[k]);
            assert(more.take(k) =~= batches.take(k));
        }
        let n = batches.len() as int;
        assert(more[n] == embs);
        assert(more.take(n) =~= batches);
    }
}

/// A refresh reads the store to its end: it stands for all chunks of the store,
/// with nothing left, and whatever answers take a pass there make one.
pub proof fn law_a_refresh_reads_all(
    entries: Seq<StoreEntry>,
    warm: WarmView,
    batches: Seq<Seq<Seq<u32>>>,
    w: ReindexView,
)
    ensures
        refreshed(entries, warm, w) ==> {
            &&& w.chunks == chunks_along(entries, listing(entries))
            &&& w.next == w.missing.len()
            &&& warm.cache.submap_of(w.cache)
            &&& all_readable(entries, listing(entries))
        },
        ({
            let start = begun(chunks_along(entries, listing(entries)), warm);
            all_readable(entries, listing(entries)) && given_along(start, batches) && after(
                start,
                batches,
            ).left() == 0 ==> refreshed(entries, warm, after(start, batches))
        }),
{
    let chunks = chunks_along(entries, listing(entries));
    let start = begun(chunks, warm);
    if refreshed(entries, warm, w) {
        let had = choose|had: Seq<Seq<Seq<u32>>>|
            #![trigger given_along(start, had)]
            given_along(start, had) && w == after(start, had);
        law_begin_accounts_for_every_chunk(chunks, warm);
        assert forall|k: int| 0 <= k < start.missing.len() implies !warm.cache.contains_key(
            (#[trigger] start.due(k)).hash,
        ) by {
            assert(start.missing[k] == begun(chunks, warm).missing[k]);
        }
        lemma_pass_spares(start, had, warm.cache);
    }
}

/// A refresh fails in the model only where there was something to ask and the
/// model failed on the text of some chunk of the store; else it fails on the
/// first memory without a text.
pub proof fn law_why_a_refresh_fails(entries: Seq<StoreEntry>, warm: WarmView, e: RefreshError)
    requires
        refresh_fails(entries, warm, e),
    ensures
        e matches RefreshError::Store(u) ==> first_unreadable(
            entries,
            listing(entries),
            u.entry as int,
        ),
        e is Model ==> {
            let chunks = chunks_along(entries, listing(entries));
            &&& all_readable(entries, listing(entries))
            &&& exists|i: int|
                #![trigger chunks[i]]
                0 <= i < chunks.len() && !warm.cache.contains_key(chunks[i].hash) && answered(
                    seq![chunks[i].text],
                    None,
                )
        },
{
    if e is Model {
        let chunks = chunks_along(entries, listing(entries));
        let start = begun(chunks, warm);
        let had = choose|had: Seq<Seq<Seq<u32>>>| #[trigger] failed_after(start, had);
        law_begin_accounts_for_every_chunk(chunks, warm);
        assert forall|k: int| 0 <= k < start.missing.len() implies !warm.cache.contains_key(
            (#[trigger] start.due(k)).hash,
        ) by {
            assert(start.missing[k] == begun(chunks, warm).missing[k]);
        }
        lemma_pass_spares(start, had, warm.cache);
        let w = after(start, had);
        law_a_step_embeds_the_next_chunk(w, Seq::empty());
        let i = w.missing[w.next];
        assert(start.due(w.next) == chunks[i]);
        assert(answered(seq![chunks[i].text], None));
    }
}

/// A passage goes to the model with the prefix right in front, and of a query's
/// answer the first row counts.
pub proof fn law_what_the_model_is_asked(
    prefix: Seq<char>,
    passages: Seq<Seq<char>>,
    rows: Seq<Seq<u32>>,
    i: int,
)
    ensures
        prefixed(prefix, passages).len() == passages.len(),
        0 <= i < passages.len() ==> prefixed(prefix, passages)[i] == prefix + passages[i],
        rows.len() > 0 ==> first_row(rows) == Some(rows[0]),
        rows.len() == 0 ==> first_row(rows) is None,
{
}

} // verus!
