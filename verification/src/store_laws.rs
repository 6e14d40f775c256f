//! What holds of the chunks of every store.
use vstd::prelude::*;
use vstd::utf8::{encode_utf8, encode_utf8_decode_utf8, encode_utf8_valid_utf8, valid_utf8};

use crate::chunk::{file_chunks, ChunkView};
use crate::index::{all_known, begun, WarmView};
use crate::index_laws::law_known_chunks_need_no_work;
use crate::order::bytes_lt;
use crate::store::{
    all_readable, by_name, chunks_along, file_name, first_unreadable, is_memory,
    law_listed_by_name, lemma_by_name_orders, listing, memories, name_at, raw_at, utf8_lossy,
    StoreEntry,
};

verus! {

/// The chunks of one entry.
pub open spec fn chunks_at(entries: Seq<StoreEntry>, i: int) -> Seq<ChunkView> {
    file_chunks(file_name(name_at(entries, i)), raw_at(entries, i).unwrap())
}

proof fn lemma_chunks_along(entries: Seq<StoreEntry>, order: Seq<int>, c: ChunkView)
    ensures
        chunks_along(entries, order).contains(c) <==> exists|k: int|
            0 <= k < order.len() && #[trigger] chunks_at(entries, order[k]).contains(c),
    decreases order.len(),
{
    if order.len() > 0 {
        let less = order.drop_last();
        let before = chunks_along(entries, less);
        let own = chunks_at(entries, order.last());
        let all = chunks_along(entries, order);
        lemma_chunks_along(entries, less, c);
        assert(all == before + own);
        if all.contains(c) {
            let i = choose|i: int| 0 <= i < all.len() && all[i] == c;
            if i < before.len() {
                assert(before[i] == c);
                assert(before.contains(c));
                let k = choose|k: int|
                    0 <= k < less.len() && #[trigger] chunks_at(entries, less[k]).contains(c);
                assert(less[k] == order[k]);
                assert(chunks_at(entries, order[k]).contains(c));
            } else {
                assert(own[i - before.len()] == c);
                assert(chunks_at(entries, order[order.len() - 1]).contains(c));
            }
        }
        if exists|k: int| 0 <= k < order.len() && #[trigger] chunks_at(entries, order[k]).contains(
            c,
        ) {
            let k = choose|k: int|
                0 <= k < order.len() && #[trigger] chunks_at(entries, order[k]).contains(c);
            if k < less.len() {
                assert(less[k] == order[k]);
                assert(chunks_at(entries, less[k]).contains(c));
                let i = choose|i: int| 0 <= i < before.len() && before[i] == c;
                assert(all[i] == c);
            } else {
                let i = choose|i: int| 0 <= i < own.len() && own[i] == c;
                assert(all[before.len() + i] == c);
            }
        }
    }
}

/// The chunks of a store are those of its memories, no more and no fewer: what
/// a memory says is among them, and nothing of a file that is gone.
pub proof fn law_chunks_are_those_of_the_memories(entries: Seq<StoreEntry>, c: ChunkView)
    ensures
        chunks_along(entries, listing(entries)).contains(c) <==> exists|i: int| #[trigger]
            memories(entries).contains(i) && chunks_at(entries, i).contains(c),
{
    let order = listing(entries);
    law_listed_by_name(entries);
    lemma_chunks_along(entries, order, c);
    if chunks_along(entries, order).contains(c) {
        let k = choose|k: int|
            0 <= k < order.len() && #[trigger] chunks_at(entries, order[k]).contains(c);
        assert(order.contains(order[k]));
        assert(memories(entries).contains(order[k]));
    }
    if exists|i: int| #[trigger] memories(entries).contains(i) && chunks_at(entries, i).contains(c) {
        let i = choose|i: int| #[trigger]
            memories(entries).contains(i) && chunks_at(entries, i).contains(c);
        assert(order.contains(i));
        let k = choose|k: int| 0 <= k < order.len() && order[k] == i;
        assert(chunks_at(entries, order[k]).contains(c));
    }
}

/// Every memory of the one store is in the other, with the same name and text.
pub open spec fn within(less: Seq<StoreEntry>, more: Seq<StoreEntry>) -> bool {
    forall|i: int| #[trigger]
        memories(less).contains(i) ==> exists|j: int| #[trigger]
            memories(more).contains(j) && name_at(more, j) == name_at(less, i) && raw_at(more, j)
                == raw_at(less, i)
}

/// Removing memories makes no model work, and neither does leaving the store as
/// it is: where every chunk of a store is known, a pass over a store within it
/// has nothing to embed.
pub proof fn law_removing_memories_needs_no_work(
    more: Seq<StoreEntry>,
    less: Seq<StoreEntry>,
    warm: WarmView,
)
    requires
        within(less, more),
        all_known(chunks_along(more, listing(more)), warm.cache),
    ensures
        begun(chunks_along(less, listing(less)), warm).missing.len() == 0,
{
    let all = chunks_along(more, listing(more));
    let few = chunks_along(less, listing(less));
    assert forall|k: int| 0 <= k < few.len() implies warm.cache.contains_key(
        (#[trigger] few[k]).hash,
    ) by {
        let c = few[k];
        assert(few.contains(c));
        law_chunks_are_those_of_the_memories(less, c);
        let i = choose|i: int| #[trigger]
            memories(less).contains(i) && chunks_at(less, i).contains(c);
        let j = choose|j: int| #[trigger]
            memories(more).contains(j) && name_at(more, j) == name_at(less, i) && raw_at(more, j)
                == raw_at(less, i);
        assert(chunks_at(more, j).contains(c));
        law_chunks_are_those_of_the_memories(more, c);
        let n = choose|n: int| 0 <= n < all.len() && all[n] == c;
        assert(warm.cache.contains_key(all[n].hash));
    }
    law_known_chunks_need_no_work(few, warm);
}

proof fn lemma_along_parts(entries: Seq<StoreEntry>, a: Seq<int>, b: Seq<int>)
    ensures
        chunks_along(entries, a + b) == chunks_along(entries, a) + chunks_along(entries, b),
    decreases b.len(),
{
    if b.len() == 0 {
        assert(a + b =~= a);
        assert(chunks_along(entries, a) + chunks_along(entries, b) =~= chunks_along(entries, a));
    } else {
        lemma_along_parts(entries, a, b.drop_last());
        assert((a + b).drop_last() =~= a + b.drop_last());
        assert((a + b).last() == b.last());
        assert(chunks_along(entries, a + b) =~= chunks_along(entries, a) + chunks_along(
            entries,
            b,
        ));
    }
}

/// The chunks of a store are those of one file after the other, the files in
/// the order of their names.
pub proof fn law_files_follow_each_other(entries: Seq<StoreEntry>, a: Seq<int>, i: int, b: Seq<int>)
    ensures
        chunks_along(entries, a + seq![i] + b) == chunks_along(entries, a) + file_chunks(
            file_name(name_at(entries, i)),
            raw_at(entries, i).unwrap(),
        ) + chunks_along(entries, b),
        chunks_along(entries, Seq::empty()).len() == 0,
        forall|p: int, q: int|
            0 <= p < q < listing(entries).len() ==> goes_before(
                entries,
                #[trigger] listing(entries)[p],
                #[trigger] listing(entries)[q],
            ),
{
    lemma_along_parts(entries, a + seq![i], b);
    lemma_along_parts(entries, a, seq![i]);
    let one = seq![i];
    assert(one.drop_last().len() == 0);
    assert(one.last() == i);
    assert(chunks_along(entries, one.drop_last()).len() == 0);
    assert(chunks_along(entries, one) =~= chunks_at(entries, i));
    law_listed_by_name(entries);
    assert forall|p: int, q: int| 0 <= p < q < listing(entries).len() implies goes_before(
        entries,
        #[trigger] listing(entries)[p],
        #[trigger] listing(entries)[q],
    ) by {
        assert(by_name(entries)(listing(entries)[p], listing(entries)[q]));
    }
}

/// The one entry's name comes before the other's, byte by byte, or is the same
/// and stands first.
pub open spec fn goes_before(entries: Seq<StoreEntry>, i: int, j: int) -> bool {
    bytes_lt(name_at(entries, i), name_at(entries, j)) || (name_at(entries, i) == name_at(
        entries,
        j,
    ) && i < j)
}

/// A store can be read exactly where every memory has a text, and the memory
/// that is reported has none while all with a smaller name have one.
pub proof fn law_the_smallest_unreadable_is_reported(entries: Seq<StoreEntry>, i: int)
    ensures
        all_readable(entries, listing(entries)) <==> forall|j: int| #[trigger]
            memories(entries).contains(j) ==> raw_at(entries, j) is Some,
        first_unreadable(entries, listing(entries), i) ==> {
            &&& memories(entries).contains(i)
            &&& raw_at(entries, i) is None
            &&& forall|j: int| #[trigger]
                memories(entries).contains(j) && bytes_lt(name_at(entries, j), name_at(entries, i))
                    ==> raw_at(entries, j) is Some
        },
{
    let order = listing(entries);
    law_listed_by_name(entries);
    lemma_by_name_orders(entries);
    if all_readable(entries, order) {
        assert forall|j: int| #[trigger] memories(entries).contains(j) implies raw_at(
            entries,
            j,
        ) is Some by {
            assert(order.contains(j));
            let k = choose|k: int| 0 <= k < order.len() && order[k] == j;
            assert(raw_at(entries, order[k]) is Some);
        }
    }
    if forall|j: int| #[trigger] memories(entries).contains(j) ==> raw_at(entries, j) is Some {
        assert forall|k: int| 0 <= k < order.len() implies raw_at(
            entries,
            #[trigger] order[k],
        ) is Some by {
            assert(order.contains(order[k]));
        }
    }
    if first_unreadable(entries, order, i) {
        let k = choose|k: int|
            0 <= k < order.len() && #[trigger] order[k] == i && raw_at(entries, i) is None
                && all_readable(entries, order.take(k));
        assert(order.contains(i));
        assert forall|j: int| #[trigger]
            memories(entries).contains(j) && bytes_lt(
                name_at(entries, j),
                name_at(entries, i),
            ) implies raw_at(entries, j) is Some by {
            assert(order.contains(j));
            let m = choose|m: int| 0 <= m < order.len() && order[m] == j;
            let lt = by_name(entries);
            assert(lt(j, i));
            if m > k {
                assert(lt(order[k], order[m]));
                assert(lt(i, i));
            }
            assert(m != k);
            assert(order.take(k)[m] == j);
        }
    }
}

/// A name that is UTF-8 is shown as it is, and another one with replacements.
pub proof fn law_names_are_shown_as_they_are(t: Seq<char>, bytes: Seq<u8>)
    ensures
        file_name(encode_utf8(t)) == t,
        !valid_utf8(bytes) ==> file_name(bytes) == utf8_lossy(bytes),
{
    encode_utf8_valid_utf8(t);
    encode_utf8_decode_utf8(t);
}

/// A memory is an entry that was found under a memory's name, and its text is
/// the one that was read.
pub proof fn law_memories_are_found(entries: Seq<StoreEntry>, i: int)
    ensures
        memories(entries).contains(i) <==> 0 <= i < entries.len() && (entries[i] matches
            StoreEntry::Found { name, raw } && is_memory(name@)),
        entries[i] matches StoreEntry::Found { name, raw } ==> name_at(entries, i) == name@ && (
        raw_at(entries, i) is Some <==> raw is Some) && (raw matches Some(t) ==> raw_at(entries, i)
            == Some(t@)),
        entries[i] is Lost ==> raw_at(entries, i) is None,
{
}

} // verus!
