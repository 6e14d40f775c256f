//! Sorting positions by what stands at them.
use vstd::prelude::*;

verus! {

/// `lt` is an order: nothing before itself, and of two that differ one before
/// the other.
pub open spec fn strict_order<A>(lt: spec_fn(A, A) -> bool) -> bool {
    &&& forall|a: A| !#[trigger] lt(a, a)
    &&& forall|a: A, b: A, c: A| #[trigger] lt(a, b) && #[trigger] lt(b, c) ==> lt(a, c)
    &&& forall|a: A, b: A| a == b || #[trigger] lt(a, b) || lt(b, a)
}

/// `s` rises in the order `lt`.
pub open spec fn rises<A>(s: Seq<A>, lt: spec_fn(A, A) -> bool) -> bool {
    forall|i: int, j: int| 0 <= i < j < s.len() ==> lt(#[trigger] s[i], #[trigger] s[j])
}

/// Positions as numbers.
pub open spec fn ints(s: Seq<usize>) -> Seq<int> {
    s.map_values(|x: usize| x as int)
}

/// `s` holds the members of the set in the order `lt`, each once.
pub open spec fn is_sorting<A>(s: Seq<A>, of: Set<A>, lt: spec_fn(A, A) -> bool) -> bool {
    &&& rises(s, lt)
    &&& forall|x: A| s.contains(x) <==> of.contains(x)
}

/// There is only one way to put a set in order.
pub proof fn lemma_sorting_unique<A>(
    a: Seq<A>,
    b: Seq<A>,
    of: Set<A>,
    lt: spec_fn(A, A) -> bool,
)
    requires
        strict_order(lt),
        is_sorting(a, of, lt),
        is_sorting(b, of, lt),
    ensures
        a == b,
    decreases a.len(),
{
    if a.len() == 0 {
        if b.len() > 0 {
            assert(b.contains(b[0]));
        }
        assert(a =~= b);
    } else {
        assert(a.contains(a[0]));
        let j = choose|j: int| 0 <= j < b.len() && b[j] == a[0];
        assert(b.contains(b[0]));
        let i = choose|i: int| 0 <= i < a.len() && a[i] == b[0];
        if j > 0 {
            assert(lt(b[0], b[j]));
            if i > 0 {
                assert(lt(a[0], a[i]));
                assert(lt(b[0], b[0]));
            }
        }
        assert(a[0] == b[0]);
        let first = a[0];
        let a1 = a.skip(1);
        let b1 = b.skip(1);
        lemma_tail_sorting(a, of, lt);
        lemma_tail_sorting(b, of, lt);
        lemma_sorting_unique(a1, b1, of.remove(first), lt);
        assert(a =~= seq![first] + a1);
        assert(b =~= seq![first] + b1);
    }
}

proof fn lemma_tail_sorting<A>(a: Seq<A>, of: Set<A>, lt: spec_fn(A, A) -> bool)
    requires
        strict_order(lt),
        is_sorting(a, of, lt),
        a.len() > 0,
    ensures
        is_sorting(a.skip(1), of.remove(a[0]), lt),
{
    let t = a.skip(1);
    assert forall|i: int, j: int| 0 <= i < j < t.len() implies lt(
        #[trigger] t[i],
        #[trigger] t[j],
    ) by {
        assert(t[i] == a[i + 1] && t[j] == a[j + 1]);
    }
    assert forall|x: A| t.contains(x) <==> of.remove(a[0]).contains(x) by {
        if t.contains(x) {
            let i = choose|i: int| 0 <= i < t.len() && t[i] == x;
            assert(a[i + 1] == x);
            assert(a.contains(x));
            assert(lt(a[0], a[i + 1]));
        }
        if of.remove(a[0]).contains(x) {
            assert(a.contains(x));
            let i = choose|i: int| 0 <= i < a.len() && a[i] == x;
            assert(t[i - 1] == x);
        }
    }
}

/// Where `x` belongs in what rises.
proof fn lemma_belongs<A>(s: Seq<A>, x: A, lt: spec_fn(A, A) -> bool) -> (p: int)
    requires
        strict_order(lt),
        rises(s, lt),
        !s.contains(x),
    ensures
        0 <= p <= s.len(),
        forall|i: int| 0 <= i < p ==> lt(#[trigger] s[i], x),
        forall|i: int| p <= i < s.len() ==> lt(x, #[trigger] s[i]),
    decreases s.len(),
{
    if s.len() == 0 {
        0
    } else {
        let less = s.drop_last();
        assert forall|i: int, j: int| 0 <= i < j < less.len() implies lt(
            #[trigger] less[i],
            #[trigger] less[j],
        ) by {
            assert(lt(s[i], s[j]));
        }
        assert(!less.contains(x)) by {
            if less.contains(x) {
                let i = choose|i: int| 0 <= i < less.len() && less[i] == x;
                assert(s[i] == x);
            }
        }
        assert(s.last() != x) by {
            assert(s.contains(s[s.len() - 1]));
        }
        assert(lt(s.last(), x) || lt(x, s.last()));
        if lt(s.last(), x) {
            assert forall|i: int| 0 <= i < s.len() implies lt(#[trigger] s[i], x) by {
                if i < s.len() - 1 {
                    assert(lt(s[i], s[s.len() - 1]));
                }
            }
            s.len() as int
        } else {
            let p = lemma_belongs(less, x, lt);
            assert forall|i: int| 0 <= i < p implies lt(#[trigger] s[i], x) by {
                assert(less[i] == s[i]);
            }
            assert forall|i: int| p <= i < s.len() implies lt(x, #[trigger] s[i]) by {
                if i < s.len() - 1 {
                    assert(less[i] == s[i]);
                }
            }
            p
        }
    }
}

/// What stands in a sequence can be put in order.
pub proof fn lemma_sorting_exists<A>(s: Seq<A>, of: Set<A>, lt: spec_fn(A, A) -> bool) -> (o: Seq<
    A,
>)
    requires
        strict_order(lt),
        forall|x: A| #[trigger] of.contains(x) ==> s.contains(x),
    ensures
        is_sorting(o, of, lt),
    decreases s.len(),
{
    if s.len() == 0 {
        let o: Seq<A> = Seq::empty();
        assert forall|x: A| o.contains(x) <==> of.contains(x) by {
            if of.contains(x) {
                assert(s.contains(x));
            }
        }
        o
    } else {
        let x = s.last();
        let less = s.drop_last();
        let rest = of.remove(x);
        assert forall|y: A| #[trigger] rest.contains(y) implies less.contains(y) by {
            assert(of.contains(y));
            let i = choose|i: int| 0 <= i < s.len() && s[i] == y;
            assert(less[i] == y);
        }
        let o = lemma_sorting_exists(less, rest, lt);
        if of.contains(x) {
            assert(!o.contains(x));
            let p = lemma_belongs(o, x, lt);
            let all = o.take(p).push(x) + o.skip(p);
            assert forall|i: int, j: int| 0 <= i < j < all.len() implies lt(
                #[trigger] all[i],
                #[trigger] all[j],
            ) by {
                let a = if i < p {
                    o[i]
                } else {
                    o[i - 1]
                };
                let b = if j < p {
                    o[j]
                } else {
                    o[j - 1]
                };
                if i < p && j > p {
                    assert(lt(o[i], o[j - 1]));
                }
            }
            assert forall|y: A| all.contains(y) <==> of.contains(y) by {
                if all.contains(y) {
                    let i = choose|i: int| 0 <= i < all.len() && all[i] == y;
                    if i < p {
                        assert(o.contains(o[i]));
                    } else if i > p {
                        assert(o.contains(o[i - 1]));
                    }
                }
                if of.contains(y) {
                    if y == x {
                        assert(all[p] == y);
                    } else {
                        assert(rest.contains(y));
                        let i = choose|i: int| 0 <= i < o.len() && o[i] == y;
                        if i < p {
                            assert(all[i] == y);
                        } else {
                            assert(all[i + 1] == y);
                        }
                    }
                }
            }
            all
        } else {
            assert(rest =~= of);
            o
        }
    }
}

/// The positions of `ids` in the order that `before` decides.
pub(crate) fn sort_positions<F: Fn(usize, usize) -> bool>(
    ids: &Vec<usize>,
    before: F,
    Ghost(lt): Ghost<spec_fn(int, int) -> bool>,
) -> (out: Vec<usize>)
    requires
        strict_order(lt),
        forall|i: int, j: int| 0 <= i < j < ids@.len() ==> ids@[i] != ids@[j],
        forall|a: usize, b: usize|
            ids@.contains(a) && ids@.contains(b) ==> #[trigger] call_requires(before, (a, b)),
        forall|a: usize, b: usize, r: bool|
            ids@.contains(a) && ids@.contains(b) && #[trigger] call_ensures(before, (a, b), r)
                ==> r == lt(a as int, b as int),
    ensures
        is_sorting(ints(out@), ints(ids@).to_set(), lt),
        forall|x: usize| out@.contains(x) <==> ids@.contains(x),
        out@.len() == ids@.len(),
{
    let mut out: Vec<usize> = Vec::new();
    let n: usize = ids.len();
    let mut k: usize = 0;
    while k < n
        invariant
            n == ids@.len(),
            k <= n,
            strict_order(lt),
            forall|i: int, j: int| 0 <= i < j < ids@.len() ==> ids@[i] != ids@[j],
            forall|a: usize, b: usize|
                ids@.contains(a) && ids@.contains(b) ==> #[trigger] call_requires(before, (a, b)),
            forall|a: usize, b: usize, r: bool|
                ids@.contains(a) && ids@.contains(b) && #[trigger] call_ensures(before, (a, b), r)
                    ==> r == lt(a as int, b as int),
            out@.len() == k,
            forall|x: usize| out@.contains(x) <==> ids@.take(k as int).contains(x),
            rises(ints(out@), lt),
        decreases n - k,
    {
        let x = ids[k];
        proof {
            assert(ids@.contains(x));
            assert forall|i: int| 0 <= i < out@.len() implies ids@.contains(#[trigger] out@[i])
                && out@[i] != x by {
                assert(out@.contains(out@[i]));
                let t = ids@.take(k as int);
                let j = choose|j: int| 0 <= j < t.len() && t[j] == out@[i];
                assert(ids@[j] == out@[i]);
            }
        }
        let mut lo: usize = 0;
        let mut hi: usize = out.len();
        while lo < hi
            invariant
                lo <= hi <= out@.len(),
                strict_order(lt),
                rises(ints(out@), lt),
                ids@.contains(x),
                forall|i: int| 0 <= i < out@.len() ==> ids@.contains(#[trigger] out@[i]),
                forall|a: usize, b: usize|
                    ids@.contains(a) && ids@.contains(b) ==> #[trigger] call_requires(
                        before,
                        (a, b),
                    ),
                forall|a: usize, b: usize, r: bool|
                    ids@.contains(a) && ids@.contains(b) && #[trigger] call_ensures(
                        before,
                        (a, b),
                        r,
                    ) ==> r == lt(a as int, b as int),
                forall|i: int| 0 <= i < lo ==> lt(#[trigger] ints(out@)[i], x as int),
                forall|i: int|
                    hi <= i < out@.len() ==> !lt(#[trigger] ints(out@)[i], x as int),
            decreases hi - lo,
        {
            let mid: usize = lo + (hi - lo) / 2;
            let y = out[mid];
            proof {
                assert(ids@.contains(out@[mid as int]));
                assert(ints(out@)[mid as int] == y as int);
            }
            if before(y, x) {
                proof {
                    assert forall|i: int| 0 <= i < mid + 1 implies lt(
                        #[trigger] ints(out@)[i],
                        x as int,
                    ) by {
                        if i < mid {
                            assert(lt(ints(out@)[i], ints(out@)[mid as int]));
                        }
                    }
                }
                lo = mid + 1;
            } else {
                proof {
                    assert forall|i: int| mid <= i < out@.len() implies !lt(
                        #[trigger] ints(out@)[i],
                        x as int,
                    ) by {
                        if i > mid {
                            assert(lt(ints(out@)[mid as int], ints(out@)[i]));
                        }
                    }
                }
                hi = mid;
            }
        }
        let ghost old_out = out@;
        out.insert(lo, x);
        proof {
            let s = ints(out@);
            let o = ints(old_out);
            assert forall|i: int, j: int| 0 <= i < j < s.len() implies lt(
                #[trigger] s[i],
                #[trigger] s[j],
            ) by {
                let i0 = if i < lo { i } else { i - 1 };
                let j0 = if j < lo { j } else { j - 1 };
                if i == lo {
                    assert(s[j] == o[j0]);
                    assert(old_out[j0] != x);
                    assert(lt(x as int, o[j0]));
                } else if j == lo {
                    assert(s[i] == o[i0]);
                } else {
                    assert(s[i] == o[i0] && s[j] == o[j0]);
                }
            }
            let t0 = ids@.take(k as int);
            let t1 = ids@.take(k + 1);
            assert(t1 =~= t0.push(x));
            assert forall|y: usize| out@.contains(y) <==> t1.contains(y) by {
                if out@.contains(y) {
                    let i = choose|i: int| 0 <= i < out@.len() && out@[i] == y;
                    if i == lo {
                        assert(t1[k as int] == y);
                    } else {
                        let i0 = if i < lo { i } else { i - 1 };
                        assert(old_out[i0] == y);
                        assert(old_out.contains(y));
                        assert(t0.contains(y));
                        let j = choose|j: int| 0 <= j < t0.len() && t0[j] == y;
                        assert(t1[j] == y);
                    }
                }
                if t1.contains(y) {
                    let j = choose|j: int| 0 <= j < t1.len() && t1[j] == y;
                    if j == k {
                        assert(out@[lo as int] == y);
                    } else {
                        assert(t0[j] == y);
                        assert(old_out.contains(y));
                        let i0 = choose|i: int| 0 <= i < old_out.len() && old_out[i] == y;
                        let i = if i0 < lo { i0 } else { i0 + 1 };
                        assert(out@[i] == y);
                    }
                }
            }
        }
        k = k + 1;
    }
    proof {
        assert(ids@.take(n as int) =~= ids@);
        assert forall|x: int| ints(out@).contains(x) <==> ints(ids@).to_set().contains(x) by {
            if ints(out@).contains(x) {
                let i = choose|i: int| 0 <= i < ints(out@).len() && ints(out@)[i] == x;
                assert(out@.contains(out@[i]));
                let j = choose|j: int| 0 <= j < ids@.len() && ids@[j] == out@[i];
                assert(ints(ids@)[j] == x);
            }
            if ints(ids@).contains(x) {
                let j = choose|j: int| 0 <= j < ints(ids@).len() && ints(ids@)[j] == x;
                assert(ids@.contains(ids@[j]));
                assert(out@.contains(ids@[j]));
                let i = choose|i: int| 0 <= i < out@.len() && out@[i] == ids@[j];
                assert(ints(out@)[i] == x);
            }
        }
    }
    out
}

} // verus!
