use core::cmp::Ordering;
use vstd::laws_cmp::{obeys_cmp, obeys_cmp_ord, obeys_partial_cmp_spec_properties};
use vstd::laws_eq::obeys_eq_spec_properties;
use vstd::prelude::*;
use vstd::seq_lib::to_multiset_update;
use vstd::std_specs::cmp::{PartialEqSpec, PartialOrdSpec};

verus! {

/// Swaps two elements of a slice.
///
/// Relies on `<[T]>::swap`: it exchanges the elements at `a` and `b` and
/// panics when either is out of bounds.
pub assume_specification<Elem>[ <[Elem]>::swap ](slice: &mut [Elem], first: usize, second: usize)
    requires
        first < old(slice)@.len(),
        second < old(slice)@.len(),
    ensures
        final(slice)@ == old(slice)@.update(first as int, old(slice)@[second as int]).update(
            second as int,
            old(slice)@[first as int],
        ),
;

/// `T`'s comparison is a total order: every pair compares, `Equal` agrees
/// with `==`, and `Less` and `Greater` are transitive and mirror each other.
pub open spec fn total_order<T: PartialOrd>() -> bool {
    &&& T::obeys_eq_spec()
    &&& T::obeys_partial_cmp_spec()
    &&& obeys_partial_cmp_spec_properties::<T>()
    &&& forall|x: T, y: T| #[trigger] x.partial_cmp_spec(&y) is Some
}

/// `a` comes no later than `b`.
pub open spec fn le<T: PartialOrd>(a: T, b: T) -> bool {
    a.partial_cmp_spec(&b) matches Some(Ordering::Less | Ordering::Equal)
}

/// `s[lo..=hi]` is in order.
pub open spec fn sorted_between<T: PartialOrd>(s: Seq<T>, lo: int, hi: int) -> bool {
    forall|a: int, b: int| lo <= a <= b <= hi ==> le(#[trigger] s[a], #[trigger] s[b])
}

/// `s` is in order.
pub open spec fn sorted<T: PartialOrd>(s: Seq<T>) -> bool {
    sorted_between(s, 0, s.len() - 1)
}

pub(crate) proof fn lemma_order_facts<T: PartialOrd>()
    requires
        total_order::<T>(),
    ensures
        forall|a: T| #[trigger] le(a, a),
        forall|a: T| #[trigger] a.partial_cmp_spec(&a) == Some(Ordering::Equal),
        forall|a: T, b: T| le(a, b) || #[trigger] le(b, a),
        forall|a: T, b: T, c: T| #[trigger] le(a, b) && #[trigger] le(b, c) ==> le(a, c),
        forall|a: T, b: T|
            #[trigger] a.partial_cmp_spec(&b) != Some(Ordering::Less) ==> le(b, a),
        forall|a: T, b: T| #[trigger] a.eq_spec(&b) ==> le(a, b) && le(b, a),
        forall|a: T, b: T| #[trigger] le(a, b) ==> b.partial_cmp_spec(&a) != Some(Ordering::Less),
{
    reveal(obeys_partial_cmp_spec_properties);
    reveal(obeys_eq_spec_properties);
    assert forall|a: T| #[trigger] a.partial_cmp_spec(&a) == Some(Ordering::Equal) by {
        assert(a.partial_cmp_spec(&a) is Some);
    }
    assert forall|a: T, b: T| le(a, b) || #[trigger] le(b, a) by {
        assert(a.partial_cmp_spec(&b) is Some);
        assert(b.partial_cmp_spec(&a) is Some);
    }
    assert forall|a: T, b: T, c: T| #[trigger] le(a, b) && #[trigger] le(b, c) implies le(
        a,
        c,
    ) by {
        assert(a.partial_cmp_spec(&c) is Some);
        assert(b.partial_cmp_spec(&a) is Some);
        assert(c.partial_cmp_spec(&b) is Some);
        assert(c.partial_cmp_spec(&a) is Some);
    }
    assert forall|a: T, b: T| #[trigger]
        a.partial_cmp_spec(&b) != Some(Ordering::Less) implies le(b, a) by {
        assert(b.partial_cmp_spec(&a) is Some);
    }
    assert forall|a: T, b: T| #[trigger] a.eq_spec(&b) implies le(a, b) && le(b, a) by {
        assert(b.eq_spec(&a));
    }
    assert forall|a: T, b: T| #[trigger] le(a, b) implies b.partial_cmp_spec(&a) != Some(
        Ordering::Less,
    ) by {
        if a.partial_cmp_spec(&b) == Some(Ordering::Equal) {
            assert(a.eq_spec(&b));
            assert(b.eq_spec(&a));
        }
    }
}

proof fn lemma_swap_multiset<T>(s: Seq<T>, i: int, j: int, lo: int, hi: int)
    requires
        0 <= lo <= i <= hi < s.len(),
        lo <= j <= hi,
    ensures
        s.update(i, s[j]).update(j, s[i]).subrange(lo, hi + 1).to_multiset() == s.subrange(
            lo,
            hi + 1,
        ).to_multiset(),
{
    let t = s.subrange(lo, hi + 1);
    let u = s.update(i, s[j]).update(j, s[i]);
    assert(u.subrange(lo, hi + 1) =~= t.update(i - lo, t[j - lo]).update(j - lo, t[i - lo]));
    to_multiset_update(t, i - lo, t[j - lo]);
    let t1 = t.update(i - lo, t[j - lo]);
    to_multiset_update(t1, j - lo, t[i - lo]);
    broadcast use vstd::multiset::group_multiset_axioms, vstd::seq_lib::to_multiset_contains;

    assert(t1[j - lo] == t[j - lo]);
    assert(t.contains(t[i - lo]));
    assert(t.to_multiset().insert(t[j - lo]).remove(t[i - lo]).insert(t[i - lo]).remove(
        t[j - lo],
    ) =~= t.to_multiset());
}

/// Moves the pivot `arr[hi]` to its place in `arr[lo..=hi]` and returns that
/// place: no element before it within the range comes after the pivot, and
/// no element after it comes before. Elements outside the range stay put.
pub fn partition<T: PartialOrd>(arr: &mut [T], lo: usize, hi: usize) -> (r: usize)
    requires
        lo <= hi < old(arr)@.len(),
        total_order::<T>(),
    ensures
        final(arr)@.len() == old(arr)@.len(),
        lo <= r <= hi,
        final(arr)@[r as int] == old(arr)@[hi as int],
        forall|k: int| lo <= k < r ==> le(#[trigger] final(arr)@[k], final(arr)@[r as int]),
        forall|k: int| r < k <= hi ==> le(final(arr)@[r as int], #[trigger] final(arr)@[k]),
        forall|k: int|
            0 <= k < old(arr)@.len() && !(lo <= k <= hi) ==> #[trigger] final(arr)@[k]
                == old(arr)@[k],
        final(arr)@.subrange(lo as int, hi + 1).to_multiset() == old(arr)@.subrange(
            lo as int,
            hi + 1,
        ).to_multiset(),
{
    proof {
        lemma_order_facts::<T>();
    }
    let pivot = hi;
    let ghost p = arr@[hi as int];
    let mut i = lo;
    let mut j = hi;
    loop
        invariant
            lo <= i <= j <= hi < arr@.len(),
            arr@.len() == old(arr)@.len(),
            arr@[hi as int] == p,
            pivot == hi,
            total_order::<T>(),
            forall|k: int| lo <= k < i ==> le(#[trigger] arr@[k], p),
            forall|k: int| j <= k < hi ==> le(p, #[trigger] arr@[k]),
            forall|k: int|
                0 <= k < arr@.len() && !(lo <= k <= hi) ==> #[trigger] arr@[k] == old(arr)@[k],
            arr@.subrange(lo as int, hi + 1).to_multiset() == old(arr)@.subrange(
                lo as int,
                hi + 1,
            ).to_multiset(),
        ensures
            j == lo || i + 1 >= j,
            le(p, arr@[i as int]),
        decreases j - i,
    {
        proof {
            lemma_order_facts::<T>();
        }
        let ghost i0 = i;
        let ghost j0 = j;
        while arr[i] < arr[pivot]
            invariant
                i0 <= i,
                lo <= i <= hi < arr@.len(),
                arr@[hi as int] == p,
                pivot == hi,
                arr@.len() == old(arr)@.len(),
                total_order::<T>(),
                forall|k: int| lo <= k < i ==> le(#[trigger] arr@[k], p),
                forall|k: int| j <= k < hi ==> le(p, #[trigger] arr@[k]),
                i <= j,
            decreases hi - i,
        {
            proof {
                lemma_order_facts::<T>();
            }
            assert(i != hi);
            if i == j {
                assert(le(p, arr@[i as int]));
            }
            i += 1;
        }
        assert(le(p, arr@[i as int]));
        while j > lo && arr[j - 1] > arr[pivot]
            invariant
                i0 <= i,
                j <= j0,
                le(p, arr@[i as int]),
                lo <= i <= hi < arr@.len(),
                lo <= j <= hi,
                arr@[hi as int] == p,
                pivot == hi,
                arr@.len() == old(arr)@.len(),
                total_order::<T>(),
                forall|k: int| lo <= k < i ==> le(#[trigger] arr@[k], p),
                forall|k: int| j <= k < hi ==> le(p, #[trigger] arr@[k]),
                i <= j,
            decreases j,
        {
            proof {
                lemma_order_facts::<T>();
            }
            if j - 1 < i {
                assert(le(arr@[j - 1], p));
            }
            assert(le(p, arr@[j - 1]));
            j -= 1;
        }
        if j == lo || i >= j - 1 {
            break ;
        }
        assert(le(arr@[j - 1], p));
        if arr[i] == arr[j - 1] {
            i += 1;
            j -= 1;
        } else {
            let ghost before = arr@;
            arr.swap(i, j - 1);
            proof {
                lemma_swap_multiset(before, i as int, j - 1, lo as int, hi as int);
            }
            i += 1;
            j -= 1;
        }
    }
    proof {
        lemma_order_facts::<T>();
    }
    let ghost before = arr@;
    arr.swap(i, pivot);
    proof {
        lemma_swap_multiset(before, i as int, hi as int, lo as int, hi as int);
    }
    i
}

proof fn lemma_segment_split<T>(s: Seq<T>, lo: int, mid: int, hi: int)
    requires
        0 <= lo <= mid <= hi <= s.len(),
    ensures
        s.subrange(lo, hi).to_multiset() == s.subrange(lo, mid).to_multiset().add(
            s.subrange(mid, hi).to_multiset(),
        ),
{
    assert(s.subrange(lo, hi) =~= s.subrange(lo, mid) + s.subrange(mid, hi));
    vstd::seq_lib::lemma_multiset_commutative(s.subrange(lo, mid), s.subrange(mid, hi));
}

proof fn lemma_segment_keeps<T>(s1: Seq<T>, s2: Seq<T>, lo: int, hi: int, pred: spec_fn(T) -> bool)
    requires
        0 <= lo <= hi <= s1.len(),
        hi <= s2.len(),
        s1.subrange(lo, hi).to_multiset() == s2.subrange(lo, hi).to_multiset(),
        forall|k: int| lo <= k < hi ==> pred(#[trigger] s1[k]),
    ensures
        forall|k: int| lo <= k < hi ==> pred(#[trigger] s2[k]),
{
    broadcast use vstd::seq_lib::to_multiset_contains;

    assert forall|k: int| lo <= k < hi implies pred(#[trigger] s2[k]) by {
        let x = s2[k];
        assert(s2.subrange(lo, hi)[k - lo] == x);
        assert(s2.subrange(lo, hi).contains(x));
        assert(s2.subrange(lo, hi).to_multiset().count(x) > 0);
        assert(s1.subrange(lo, hi).to_multiset().count(x) > 0);
        assert(s1.subrange(lo, hi).contains(x));
        let q = choose|q: int| 0 <= q < hi - lo && s1.subrange(lo, hi)[q] == x;
        assert(s1[lo + q] == x);
    }
}

/// Sorts `arr[lo..=hi]` in place; an empty range is left alone.
fn _quick_sort<T: Ord>(arr: &mut [T], lo: usize, hi: usize)
    requires
        hi < old(arr)@.len(),
        lo <= hi + 1,
        total_order::<T>(),
    ensures
        final(arr)@.len() == old(arr)@.len(),
        sorted_between(final(arr)@, lo as int, hi as int),
        forall|k: int|
            0 <= k < old(arr)@.len() && !(lo <= k <= hi) ==> #[trigger] final(arr)@[k]
                == old(arr)@[k],
        final(arr)@.subrange(lo as int, hi + 1).to_multiset() == old(arr)@.subrange(
            lo as int,
            hi + 1,
        ).to_multiset(),
    decreases hi + 1 - lo,
{
    proof {
        lemma_order_facts::<T>();
    }
    if lo < hi {
        let p = partition(arr, lo, hi);
        let ghost a0 = arr@;
        let ghost pv = a0[p as int];
        if p > 0 {
            _quick_sort(arr, lo, p - 1);
        }
        let ghost a1 = arr@;
        if p < hi {
            _quick_sort(arr, p + 1, hi);
        }
        let ghost a2 = arr@;
        proof {
            lemma_order_facts::<T>();
            let below = |x: T| le(x, pv);
            let above = |x: T| le(pv, x);
            if p > 0 {
                lemma_segment_keeps(a0, a1, lo as int, p as int, below);
            }
            assert forall|k: int| lo <= k < p implies le(#[trigger] a1[k], pv) by {
                assert(below(a1[k]));
            }
            assert(a1.subrange(p + 1, hi + 1) =~= a0.subrange(p + 1, hi + 1));
            lemma_segment_keeps(a0, a2, p + 1, hi + 1, above);
            assert forall|k: int| p < k <= hi implies le(pv, #[trigger] a2[k]) by {
                assert(above(a2[k]));
            }
            assert forall|x: int, y: int| lo <= x <= y <= hi implies le(
                #[trigger] a2[x],
                #[trigger] a2[y],
            ) by {
                if y < p {
                    assert(a2[x] == a1[x] && a2[y] == a1[y]);
                } else if x > p {
                } else {
                    assert(a2[p as int] == pv);
                    if x < p {
                        assert(a2[x] == a1[x]);
                        assert(le(a2[x], pv));
                    }
                }
            }
            lemma_segment_split(a0, lo as int, p as int, hi + 1);
            lemma_segment_split(a1, lo as int, p as int, hi + 1);
            lemma_segment_split(a2, lo as int, p as int, hi + 1);
            lemma_segment_split(a0, p as int, p + 1, hi + 1);
            lemma_segment_split(a1, p as int, p + 1, hi + 1);
            lemma_segment_split(a2, p as int, p + 1, hi + 1);
            assert(a1.subrange(p as int, p + 1) =~= a0.subrange(p as int, p + 1));
            assert(a2.subrange(p as int, p + 1) =~= a1.subrange(p as int, p + 1));
            assert(a2.subrange(lo as int, p as int) =~= a1.subrange(lo as int, p as int));
            if p == 0 {
                assert(a1.subrange(lo as int, p as int) =~= a0.subrange(lo as int, p as int));
            }
        }
    }
}

/// Sorts `arr` in place by quicksort.
pub fn quick_sort<T: Ord>(arr: &mut [T])
    requires
        obeys_cmp::<T>(),
    ensures
        sorted(final(arr)@),
        final(arr)@.to_multiset() == old(arr)@.to_multiset(),
{
    proof {
        reveal(obeys_cmp_ord);
        reveal(vstd::laws_cmp::obeys_cmp_partial_ord);
        assert(total_order::<T>());
        lemma_order_facts::<T>();
    }
    let len = arr.len();
    if len > 1 {
        _quick_sort(arr, 0, len - 1);
        assert(arr@.subrange(0, len as int) == arr@);
        assert(old(arr)@.subrange(0, len as int) == old(arr)@);
    }
}

} // verus!
