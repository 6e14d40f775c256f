//! A map from strings to values, kept in the order of its keys.
use vstd::prelude::*;

use crate::order::{
    lemma_text_irreflexive, lemma_text_total, lemma_text_transitive, text_before, text_lt,
};

verus! {

/// A map with strings as its keys. Its entries stand in the order of their
/// keys, so that one is found by halving and all are walked in the same order
/// every time.
pub struct StrMap<V> {
    entries: Vec<(String, V)>,
}

/// The keys rise strictly: no key stands twice.
pub open spec fn rising<V>(entries: Seq<(String, V)>) -> bool {
    forall|i: int, j: int|
        0 <= i < j < entries.len() ==> text_lt(
            (#[trigger] entries[i]).0@,
            (#[trigger] entries[j]).0@,
        )
}

/// `key` is the key of some entry.
pub open spec fn has_key<V>(entries: Seq<(String, V)>, key: Seq<char>) -> bool {
    exists|i: int| 0 <= i < entries.len() && (#[trigger] entries[i]).0@ == key
}

/// The map that a list of entries stands for.
pub open spec fn as_map<V>(entries: Seq<(String, V)>) -> Map<Seq<char>, V> {
    Map::new(
        |k: Seq<char>| has_key(entries, k),
        |k: Seq<char>|
            entries[choose|i: int|
                0 <= i < entries.len() && (#[trigger] entries[i]).0@ == k].1,
    )
}

impl<V> View for StrMap<V> {
    type V = Map<Seq<char>, V>;

    closed spec fn view(&self) -> Map<Seq<char>, V> {
        as_map(self.entries@)
    }
}

/// With rising keys an entry is what the map gives for its key.
pub proof fn lemma_entry<V>(entries: Seq<(String, V)>, i: int)
    requires
        rising(entries),
        0 <= i < entries.len(),
    ensures
        as_map(entries).contains_key(entries[i].0@),
        as_map(entries)[entries[i].0@] == entries[i].1,
{
    let key = entries[i].0@;
    assert(has_key(entries, key));
    let j = choose|j: int| 0 <= j < entries.len() && (#[trigger] entries[j]).0@ == key;
    lemma_text_irreflexive(key);
    if i < j {
        assert(text_lt(entries[i].0@, entries[j].0@));
    } else if j < i {
        assert(text_lt(entries[j].0@, entries[i].0@));
    }
}

impl<V> StrMap<V> {
    #[verifier::type_invariant]
    spec fn inv(self) -> bool {
        rising(self.entries@)
    }

    /// A map without entries.
    pub fn new() -> (m: StrMap<V>)
        ensures
            m@ == Map::<Seq<char>, V>::empty(),
    {
        let m = StrMap { entries: Vec::new() };
        proof {
            assert(m@ =~= Map::<Seq<char>, V>::empty());
        }
        m
    }

    /// How many entries there are.
    pub fn len(&self) -> (n: usize)
        ensures
            n == self@.dom().len(),
            self@.dom().finite(),
    {
        proof {
            use_type_invariant(self);
            lemma_size(self.entries@);
        }
        self.entries.len()
    }

    /// The entries, in the order of their keys.
    pub fn entries(&self) -> (r: &Vec<(String, V)>)
        ensures
            rising(r@),
            as_map(r@) == self@,
    {
        proof {
            use_type_invariant(self);
        }
        &self.entries
    }

    /// The value of a key.
    pub fn get(&self, key: &str) -> (r: Option<&V>)
        ensures
            match r {
                Some(v) => self@.contains_key(key@) && *v == self@[key@],
                None => !self@.contains_key(key@),
            },
    {
        proof {
            use_type_invariant(self);
        }
        let i = place(&self.entries, key);
        if i < self.entries.len() && crate::strmap::is_key(&self.entries[i].0, key) {
            proof {
                lemma_entry(self.entries@, i as int);
            }
            Some(&self.entries[i].1)
        } else {
            proof {
                lemma_absent(self.entries@, i as int, key@);
            }
            None
        }
    }

    /// Whether a key has a value.
    pub fn contains_key(&self, key: &str) -> (r: bool)
        ensures
            r == self@.contains_key(key@),
    {
        self.get(key).is_some()
    }

    /// Gives a key a value, in place of the one it may have had.
    pub fn insert(&mut self, key: String, value: V)
        ensures
            final(self)@ == old(self)@.insert(key@, value),
    {
        proof {
            use_type_invariant(&*self);
        }
        let mut entries: Vec<(String, V)> = Vec::new();
        std::mem::swap(&mut entries, &mut self.entries);
        let ghost before = entries@;
        let i = place(&entries, key.as_str());
        let ghost k = key@;
        if i < entries.len() && crate::strmap::is_key(&entries[i].0, key.as_str()) {
            let ghost last = entries@[i as int];
            entries.remove(i);
        } else {
            proof {
                lemma_absent(before, i as int, k);
            }
        }
        let ghost without = entries@;
        entries.insert(i, (key, value));
        proof {
            lemma_put(before, without, entries@, i as int, k, value);
        }
        self.entries = entries;
    }

    /// Takes a key and its value out.
    pub fn remove(&mut self, key: &str) -> (r: Option<V>)
        ensures
            final(self)@ == old(self)@.remove(key@),
            match r {
                Some(v) => old(self)@.contains_key(key@) && v == old(self)@[key@],
                None => !old(self)@.contains_key(key@),
            },
    {
        proof {
            use_type_invariant(&*self);
        }
        let mut entries: Vec<(String, V)> = Vec::new();
        std::mem::swap(&mut entries, &mut self.entries);
        let ghost before = entries@;
        let i = place(&entries, key);
        if i < entries.len() && crate::strmap::is_key(&entries[i].0, key) {
            proof {
                lemma_entry(before, i as int);
            }
            let (_, v) = entries.remove(i);
            proof {
                lemma_drop(before, i as int);
                assert(as_map(entries@) =~= as_map(before).remove(key@));
            }
            self.entries = entries;
            Some(v)
        } else {
            proof {
                lemma_absent(before, i as int, key@);
                assert(as_map(before) =~= as_map(before).remove(key@));
            }
            self.entries = entries;
            None
        }
    }
}

/// The place of `key` among rising keys: the ones before it are smaller, and
/// none from it on is.
fn place<V>(entries: &Vec<(String, V)>, key: &str) -> (i: usize)
    requires
        rising(entries@),
    ensures
        i <= entries@.len(),
        forall|j: int| 0 <= j < i ==> text_lt((#[trigger] entries@[j]).0@, key@),
        forall|j: int| i <= j < entries@.len() ==> !text_lt((#[trigger] entries@[j]).0@, key@),
{
    let mut lo: usize = 0;
    let mut hi: usize = entries.len();
    while lo < hi
        invariant
            rising(entries@),
            lo <= hi <= entries@.len(),
            forall|j: int| 0 <= j < lo ==> text_lt((#[trigger] entries@[j]).0@, key@),
            forall|j: int| hi <= j < entries@.len() ==> !text_lt((#[trigger] entries@[j]).0@, key@),
        decreases hi - lo,
    {
        let mid: usize = lo + (hi - lo) / 2;
        if text_before(entries[mid].0.as_str(), key) {
            proof {
                assert forall|j: int| 0 <= j < mid + 1 implies text_lt(
                    (#[trigger] entries@[j]).0@,
                    key@,
                ) by {
                    if j < mid {
                        lemma_text_transitive(entries@[j].0@, entries@[mid as int].0@, key@);
                    }
                }
            }
            lo = mid + 1;
        } else {
            proof {
                assert forall|j: int| mid <= j < entries@.len() implies !text_lt(
                    (#[trigger] entries@[j]).0@,
                    key@,
                ) by {
                    if j > mid && text_lt(entries@[j].0@, key@) {
                        lemma_text_transitive(entries@[mid as int].0@, entries@[j].0@, key@);
                    }
                }
            }
            hi = mid;
        }
    }
    lo
}

/// Whether two strings are the same.
pub fn is_key(a: &String, b: &str) -> (r: bool)
    ensures
        r == (a@ == b@),
{
    let r = !text_before(a.as_str(), b) && !text_before(b, a.as_str());
    proof {
        lemma_text_total(a@, b@);
        lemma_text_irreflexive(a@);
    }
    r
}

/// A key that does not stand at its place stands nowhere.
proof fn lemma_absent<V>(entries: Seq<(String, V)>, i: int, key: Seq<char>)
    requires
        rising(entries),
        0 <= i <= entries.len(),
        forall|j: int| 0 <= j < i ==> text_lt((#[trigger] entries[j]).0@, key),
        forall|j: int| i <= j < entries.len() ==> !text_lt((#[trigger] entries[j]).0@, key),
        i < entries.len() ==> entries[i].0@ != key,
    ensures
        !has_key(entries, key),
        forall|j: int| i <= j < entries.len() ==> text_lt(key, (#[trigger] entries[j]).0@),
{
    lemma_text_irreflexive(key);
    assert forall|j: int| i <= j < entries.len() implies text_lt(
        key,
        (#[trigger] entries[j]).0@,
    ) by {
        lemma_text_total(entries[i].0@, key);
        if i < j {
            lemma_text_transitive(key, entries[i].0@, entries[j].0@);
        }
    }
    if has_key(entries, key) {
        let j = choose|j: int| 0 <= j < entries.len() && (#[trigger] entries[j]).0@ == key;
        if j < i {
            assert(text_lt(entries[j].0@, key));
        } else {
            assert(text_lt(key, entries[j].0@));
        }
    }
}

/// An entry less.
proof fn lemma_drop<V>(entries: Seq<(String, V)>, i: int)
    requires
        rising(entries),
        0 <= i < entries.len(),
    ensures
        rising(entries.remove(i)),
        as_map(entries.remove(i)) == as_map(entries).remove(entries[i].0@),
{
    let less = entries.remove(i);
    let key = entries[i].0@;
    assert forall|a: int, b: int| 0 <= a < b < less.len() implies text_lt(
        (#[trigger] less[a]).0@,
        (#[trigger] less[b]).0@,
    ) by {
        let a0 = if a < i { a } else { a + 1 };
        let b0 = if b < i { b } else { b + 1 };
        assert(text_lt(entries[a0].0@, entries[b0].0@));
    }
    let m = as_map(less);
    let n = as_map(entries).remove(key);
    lemma_text_irreflexive(key);
    assert forall|k: Seq<char>| m.contains_key(k) <==> n.contains_key(k) by {
        if m.contains_key(k) {
            let a = choose|a: int| 0 <= a < less.len() && (#[trigger] less[a]).0@ == k;
            let a0 = if a < i { a } else { a + 1 };
            assert(entries[a0].0@ == k);
            if a0 < i {
                assert(text_lt(entries[a0].0@, entries[i].0@));
            } else {
                assert(text_lt(entries[i].0@, entries[a0].0@));
            }
        }
        if n.contains_key(k) {
            let a0 = choose|a: int| 0 <= a < entries.len() && (#[trigger] entries[a]).0@ == k;
            let a = if a0 < i { a0 } else { a0 - 1 };
            assert(less[a].0@ == k);
        }
    }
    assert forall|k: Seq<char>| m.contains_key(k) implies m[k] == n[k] by {
        let a = choose|a: int| 0 <= a < less.len() && (#[trigger] less[a]).0@ == k;
        let a0 = if a < i { a } else { a + 1 };
        assert(entries[a0].0@ == k);
        lemma_entry(entries, a0);
        lemma_entry(less, a);
    }
    assert(m =~= n);
}

/// An entry more, at its place.
proof fn lemma_put<V>(
    before: Seq<(String, V)>,
    without: Seq<(String, V)>,
    after: Seq<(String, V)>,
    i: int,
    key: Seq<char>,
    value: V,
)
    requires
        rising(before),
        0 <= i <= before.len(),
        forall|j: int| 0 <= j < i ==> text_lt((#[trigger] before[j]).0@, key),
        forall|j: int| i <= j < before.len() ==> !text_lt((#[trigger] before[j]).0@, key),
        without == if i < before.len() && before[i].0@ == key {
            before.remove(i)
        } else {
            before
        },
        after.len() == without.len() + 1,
        after == without.insert(i, after[i]),
        after[i].0@ == key,
        after[i].1 == value,
    ensures
        rising(after),
        as_map(after) == as_map(before).insert(key, value),
{
    if i < before.len() && before[i].0@ == key {
        lemma_drop(before, i);
    } else {
        lemma_absent(before, i, key);
    }
    assert forall|j: int| 0 <= j < i implies text_lt((#[trigger] without[j]).0@, key) by {
        assert(without[j] == before[j]);
    }
    assert forall|j: int| i <= j < without.len() implies text_lt(
        key,
        (#[trigger] without[j]).0@,
    ) by {
        if i < before.len() && before[i].0@ == key {
            assert(without[j] == before[j + 1]);
            assert(text_lt(before[i].0@, before[j + 1].0@));
        } else {
            assert(without[j] == before[j]);
        }
    }
    assert forall|a: int, b: int| 0 <= a < b < after.len() implies text_lt(
        (#[trigger] after[a]).0@,
        (#[trigger] after[b]).0@,
    ) by {
        if a < i && b < i {
            assert(after[a] == without[a] && after[b] == without[b]);
        } else if a < i && b > i {
            assert(after[a] == without[a] && after[b] == without[b - 1]);
        } else if a > i {
            assert(after[a] == without[a - 1] && after[b] == without[b - 1]);
        } else if a == i {
            assert(after[b] == without[b - 1]);
        } else {
            assert(after[a] == without[a]);
        }
    }
    let m = as_map(after);
    let n = as_map(before).insert(key, value);
    assert forall|k: Seq<char>| m.contains_key(k) <==> n.contains_key(k) by {
        if m.contains_key(k) && k != key {
            let a = choose|a: int| 0 <= a < after.len() && (#[trigger] after[a]).0@ == k;
            let c = if a < i { a } else { a - 1 };
            assert(without[c].0@ == k);
            assert(has_key(without, k));
            assert(as_map(without).contains_key(k));
        }
        if n.contains_key(k) {
            if k == key {
                assert(after[i].0@ == k);
            } else {
                assert(as_map(without).contains_key(k));
                let c = choose|c: int| 0 <= c < without.len() && (#[trigger] without[c]).0@ == k;
                let a = if c < i { c } else { c + 1 };
                assert(after[a].0@ == k);
            }
        }
    }
    assert forall|k: Seq<char>| m.contains_key(k) implies m[k] == n[k] by {
        let a = choose|a: int| 0 <= a < after.len() && (#[trigger] after[a]).0@ == k;
        lemma_entry(after, a);
        if k == key {
            lemma_entry(after, i);
        } else {
            let c = if a < i { a } else { a - 1 };
            assert(without[c] == after[a]);
            lemma_entry(without, c);
        }
    }
    assert(m =~= n);
}

/// There are as many keys as entries.
proof fn lemma_size<V>(entries: Seq<(String, V)>)
    requires
        rising(entries),
    ensures
        as_map(entries).dom().finite(),
        as_map(entries).dom().len() == entries.len(),
    decreases entries.len(),
{
    if entries.len() == 0 {
        assert(as_map(entries).dom() =~= Set::empty());
    } else {
        let i = entries.len() - 1;
        let less = entries.remove(i);
        lemma_drop(entries, i);
        lemma_size(less);
        lemma_entry(entries, i);
        let key = entries[i].0@;
        assert(as_map(entries).dom() =~= as_map(less).dom().insert(key));
    }
}

} // verus!
