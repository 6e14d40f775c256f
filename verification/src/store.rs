//! The store: a directory of memory files.
//!
//! The directory is read elsewhere; here stands what is made of the listing.
//! File names are bytes, as a directory gives them.
use vstd::prelude::*;
use vstd::utf8::{decode_utf8, encode_utf8, is_ascii_chars_encode_utf8, valid_utf8};

use crate::chunk::{chunk_file, chunk_views, file_chunks, Chunk, ChunkView};
use crate::order::{
    bytes_before, bytes_lt, lemma_bytes_irreflexive, lemma_bytes_total, lemma_bytes_transitive,
};
use crate::sort::{
    ints, is_sorting, lemma_sorting_exists, lemma_sorting_unique, sort_positions, strict_order,
};

verus! {

/// One entry of the store's directory.
pub enum StoreEntry {
    /// The listing gave an error in place of an entry.
    Lost,
    /// A file and its text; no text when it could not be read as such.
    Found { name: Vec<u8>, raw: Option<String> },
}

/// The entry at this place of the listing could not be read.
#[derive(Clone, Copy, Debug, PartialEq, Eq)]
pub struct Unreadable {
    pub entry: usize,
}

/// The name ends in `.md`, with something before the dot.
pub open spec fn is_markdown(name: Seq<u8>) -> bool {
    let suffix = encode_utf8(".md"@);
    name.len() > suffix.len() && name.skip(name.len() - suffix.len()) == suffix
}

/// The name is that of a memory: a markdown file other than `MEMORY.md`,
/// which is the index that every session loads anyway.
pub open spec fn is_memory(name: Seq<u8>) -> bool {
    is_markdown(name) && name != encode_utf8("MEMORY.md"@)
}

/// The text that bytes are shown as, whether or not they are UTF-8.
pub uninterp spec fn utf8_lossy(bytes: Seq<u8>) -> Seq<char>;

/// `String::from_utf8_lossy`: bytes that are UTF-8 are taken as they are. What
/// stands in place of other bytes is named, not stated.
#[verifier::external_body]
fn shown(bytes: &[u8]) -> (s: String)
    ensures
        s@ == utf8_lossy(bytes@),
        valid_utf8(bytes@) ==> s@ == decode_utf8(bytes@),
{
    String::from_utf8_lossy(bytes).into_owned()
}

/// `std::str::from_utf8`: the text of the bytes, if and only if they are
/// UTF-8.
#[verifier::external_body]
pub(crate) fn decoded(bytes: &[u8]) -> (s: Option<String>)
    ensures
        match s {
            Some(t) => valid_utf8(bytes@) && t@ == decode_utf8(bytes@),
            None => !valid_utf8(bytes@),
        },
{
    std::str::from_utf8(bytes).ok().map(|t| t.to_owned())
}

/// The name of the entry at `i`.
pub open spec fn name_at(entries: Seq<StoreEntry>, i: int) -> Seq<u8> {
    match entries[i] {
        StoreEntry::Lost => Seq::empty(),
        StoreEntry::Found { name, raw } => name@,
    }
}

/// The text of the entry at `i`.
pub open spec fn raw_at(entries: Seq<StoreEntry>, i: int) -> Option<Seq<char>> {
    match entries[i] {
        StoreEntry::Lost => None,
        StoreEntry::Found { name, raw } => match raw {
            Some(t) => Some(t@),
            None => None,
        },
    }
}

/// The places of the memories in a listing.
pub open spec fn memories(entries: Seq<StoreEntry>) -> Set<int> {
    Set::new(
        |i: int| 0 <= i < entries.len() && entries[i] is Found && is_memory(name_at(entries, i)),
    )
}

/// One entry comes before another by its name.
pub open spec fn by_name(entries: Seq<StoreEntry>) -> spec_fn(int, int) -> bool {
    |i: int, j: int|
        bytes_lt(name_at(entries, i), name_at(entries, j)) || (name_at(entries, i) == name_at(
            entries,
            j,
        ) && i < j)
}

/// The places of the memories, in the order of their names.
pub open spec fn listing(entries: Seq<StoreEntry>) -> Seq<int> {
    choose|o: Seq<int>| is_sorting(o, memories(entries), by_name(entries))
}

/// A file's name as text: the name itself where it is UTF-8.
pub open spec fn file_name(bytes: Seq<u8>) -> Seq<char> {
    if valid_utf8(bytes) {
        decode_utf8(bytes)
    } else {
        utf8_lossy(bytes)
    }
}

/// The chunks of the entries at some places, one after the other.
pub open spec fn chunks_along(entries: Seq<StoreEntry>, order: Seq<int>) -> Seq<ChunkView>
    decreases order.len(),
{
    if order.len() == 0 {
        Seq::empty()
    } else {
        let i = order.last();
        chunks_along(entries, order.drop_last()) + file_chunks(
            file_name(name_at(entries, i)),
            raw_at(entries, i).unwrap(),
        )
    }
}

/// Every entry at these places has a text.
pub open spec fn all_readable(entries: Seq<StoreEntry>, order: Seq<int>) -> bool {
    forall|k: int| 0 <= k < order.len() ==> raw_at(entries, #[trigger] order[k]) is Some
}

/// `i` is the first of these places whose entry has no text.
pub open spec fn first_unreadable(entries: Seq<StoreEntry>, order: Seq<int>, i: int) -> bool {
    exists|k: int|
        0 <= k < order.len() && #[trigger] order[k] == i && raw_at(entries, i) is None
            && all_readable(entries, order.take(k))
}

/// Names order the entries.
pub proof fn lemma_by_name_orders(entries: Seq<StoreEntry>)
    ensures
        strict_order(by_name(entries)),
{
    let lt = by_name(entries);
    assert forall|a: int| !#[trigger] lt(a, a) by {
        lemma_bytes_irreflexive(name_at(entries, a));
    }
    assert forall|a: int, b: int, c: int| #[trigger] lt(a, b) && #[trigger] lt(b, c) implies lt(
        a,
        c,
    ) by {
        let (x, y, z) = (name_at(entries, a), name_at(entries, b), name_at(entries, c));
        if bytes_lt(x, y) && bytes_lt(y, z) {
            lemma_bytes_transitive(x, y, z);
        }
    }
    assert forall|a: int, b: int| a == b || #[trigger] lt(a, b) || lt(b, a) by {
        lemma_bytes_total(name_at(entries, a), name_at(entries, b));
    }
}

/// The listing puts the memories in the order of their names, and no other
/// order does.
pub proof fn law_listed_by_name(entries: Seq<StoreEntry>)
    ensures
        is_sorting(listing(entries), memories(entries), by_name(entries)),
        forall|order: Seq<int>| #[trigger]
            is_sorting(order, memories(entries), by_name(entries)) ==> order == listing(entries),
{
    let all = memories(entries);
    let lt = by_name(entries);
    let ids = Seq::new(entries.len(), |i: int| i);
    lemma_by_name_orders(entries);
    assert forall|x: int| #[trigger] all.contains(x) implies ids.contains(x) by {
        assert(ids[x] == x);
    }
    let o = lemma_sorting_exists(ids, all, lt);
    assert(is_sorting(o, all, lt));
    assert forall|order: Seq<int>| #[trigger] is_sorting(order, all, lt) implies order == listing(
        entries,
    ) by {
        lemma_sorting_unique(listing(entries), order, all, lt);
    }
}

/// Whether the name is that of a markdown file.
pub fn has_markdown_name(name: &[u8]) -> (r: bool)
    ensures
        r == is_markdown(name@),
{
    let suffix = ".md".as_bytes();
    let n: usize = name.len();
    let m: usize = suffix.len();
    if n <= m {
        return false;
    }
    let tail = vstd::slice::slice_subrange(name, n - m, n);
    proof {
        assert(tail@ =~= name@.skip(n - m));
    }
    same_bytes(tail, suffix)
}

/// Whether the name is that of a memory.
pub fn has_memory_name(name: &[u8]) -> (r: bool)
    ensures
        r == is_memory(name@),
{
    has_markdown_name(name) && !same_bytes(name, "MEMORY.md".as_bytes())
}

/// Whether two byte strings are the same.
fn same_bytes(a: &[u8], b: &[u8]) -> (r: bool)
    ensures
        r == (a@ == b@),
{
    let r = !bytes_before(a, b) && !bytes_before(b, a);
    proof {
        lemma_bytes_total(a@, b@);
        lemma_bytes_irreflexive(a@);
    }
    r
}

/// The name of an entry.
pub(crate) fn entry_name(entries: &Vec<StoreEntry>, i: usize) -> (r: &[u8])
    requires
        i < entries@.len(),
    ensures
        entries@[i as int] is Found ==> r@ == name_at(entries@, i as int),
        entries@[i as int] is Lost ==> r@.len() == 0,
{
    match &entries[i] {
        StoreEntry::Lost => {
            let none = "".as_bytes();
            proof {
                reveal_strlit("");
                is_ascii_chars_encode_utf8(""@);
            }
            none
        },
        StoreEntry::Found { name, raw: _ } => name.as_slice(),
    }
}

/// The places of the memories, in the order of their names.
fn memory_order(entries: &Vec<StoreEntry>) -> (order: Vec<usize>)
    ensures
        ints(order@) == listing(entries@),
        is_sorting(ints(order@), memories(entries@), by_name(entries@)),
        forall|k: int| 0 <= k < order@.len() ==> #[trigger] order@[k] < entries@.len(),
{
    let n: usize = entries.len();
    let mut ids: Vec<usize> = Vec::new();
    let mut i: usize = 0;
    while i < n
        invariant
            n == entries@.len(),
            i <= n,
            forall|k: int| 0 <= k < ids@.len() ==> #[trigger] ids@[k] < i,
            forall|j: int, k: int| 0 <= j < k < ids@.len() ==> ids@[j] != ids@[k],
            forall|x: usize|
                ids@.contains(x) <==> x < i && memories(entries@).contains(x as int),
        decreases n - i,
    {
        let is_file = match &entries[i] {
            StoreEntry::Lost => false,
            StoreEntry::Found { name, raw: _ } => has_memory_name(name),
        };
        let ghost before = ids@;
        if is_file {
            ids.push(i);
        }
        proof {
            assert forall|x: usize| ids@.contains(x) <==> x < i + 1 && memories(entries@).contains(
                x as int,
            ) by {
                if ids@.contains(x) {
                    let k = choose|k: int| 0 <= k < ids@.len() && ids@[k] == x;
                    if k < before.len() {
                        assert(before.contains(before[k]));
                    }
                }
                if x < i + 1 && memories(entries@).contains(x as int) {
                    if x < i {
                        assert(before.contains(x));
                        let k = choose|k: int| 0 <= k < before.len() && before[k] == x;
                        assert(ids@[k] == x);
                    } else {
                        assert(ids@[before.len() as int] == x);
                    }
                }
            }
        }
        i = i + 1;
    }
    let ghost lt = by_name(entries@);
    proof {
        lemma_by_name_orders(entries@);
        assert forall|x: usize| ids@.contains(x) implies x < entries@.len() && entries@[x as int]
            is Found by {
            assert(memories(entries@).contains(x as int));
        }
    }
    let before = |a: usize, b: usize| -> (r: bool)
        requires
            a < entries@.len(),
            b < entries@.len(),
            entries@[a as int] is Found,
            entries@[b as int] is Found,
        ensures
            r == by_name(entries@)(a as int, b as int),
        {
            let x = entry_name(entries, a);
            let y = entry_name(entries, b);
            bytes_before(x, y) || (same_bytes(x, y) && a < b)
        };
    let order = sort_positions(&ids, before, Ghost(lt));
    proof {
        let of = ints(ids@).to_set();
        assert forall|x: int| #[trigger] of.contains(x) <==> memories(entries@).contains(x) by {
            if of.contains(x) {
                let k = choose|k: int| 0 <= k < ints(ids@).len() && ints(ids@)[k] == x;
                assert(ids@.contains(ids@[k]));
            }
            if memories(entries@).contains(x) {
                assert(ids@.contains(x as usize));
                let k = choose|k: int| 0 <= k < ids@.len() && ids@[k] == x as usize;
                assert(ints(ids@)[k] == x);
            }
        }
        assert(of =~= memories(entries@));
        assert(is_sorting(ints(order@), memories(entries@), by_name(entries@)));
        law_listed_by_name(entries@);
        assert forall|k: int| 0 <= k < order@.len() implies #[trigger] order@[k]
            < entries@.len() by {
            assert(order@.contains(order@[k]));
        }
    }
    order
}

/// The chunks of every memory in the store, the files in the order of their
/// names. A memory that could not be read fails the whole, and the first one
/// in that order is the one reported. What the listing lost is passed over.
pub fn chunk_store(entries: &Vec<StoreEntry>) -> (r: Result<Vec<Chunk>, Unreadable>)
    ensures
        match r {
            Ok(chunks) => all_readable(entries@, listing(entries@)) && chunk_views(chunks@)
                == chunks_along(entries@, listing(entries@)),
            Err(u) => first_unreadable(entries@, listing(entries@), u.entry as int),
        },
{
    let order = memory_order(entries);
    let n: usize = order.len();
    let ghost all = listing(entries@);
    let mut out: Vec<Chunk> = Vec::new();
    let mut i: usize = 0;
    while i < n
        invariant
            n == order@.len(),
            i <= n,
            ints(order@) == all,
            all == listing(entries@),
            is_sorting(all, memories(entries@), by_name(entries@)),
            forall|k: int| 0 <= k < order@.len() ==> #[trigger] order@[k] < entries@.len(),
            all_readable(entries@, all.take(i as int)),
            chunk_views(out@) == chunks_along(entries@, all.take(i as int)),
        decreases n - i,
    {
        let at: usize = order[i];
        proof {
            assert(all[i as int] == at as int);
            assert(all.contains(at as int));
            assert(memories(entries@).contains(at as int));
            assert(all.take(i + 1).drop_last() =~= all.take(i as int));
            assert(all.take(i + 1).last() == at as int);
        }
        match &entries[at] {
            StoreEntry::Lost => {
                return Err(Unreadable { entry: at });
            },
            StoreEntry::Found { name, raw } => match raw {
                None => {
                    return Err(Unreadable { entry: at });
                },
                Some(text) => {
                    let label = shown(name);
                    let mut more = chunk_file(label.as_str(), text.as_str());
                    let ghost before = out@;
                    let ghost added = more@;
                    out.append(&mut more);
                    proof {
                        assert(chunk_views(out@) =~= chunk_views(before) + chunk_views(added));
                        assert forall|k: int| 0 <= k < all.take(i + 1).len() implies raw_at(
                            entries@,
                            #[trigger] all.take(i + 1)[k],
                        ) is Some by {
                            if k < i {
                                assert(all.take(i as int)[k] == all.take(i + 1)[k]);
                            }
                        }
                    }
                },
            },
        }
        i = i + 1;
    }
    proof {
        assert(all.take(n as int) =~= all);
    }
    Ok(out)
}

} // verus!
