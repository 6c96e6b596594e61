use crate::sorting::{le, lemma_order_facts, sorted, total_order};
use core::cmp::Ordering;
use std::collections::VecDeque;
use vstd::laws_cmp::{obeys_cmp, obeys_cmp_ord, obeys_cmp_partial_ord};
use vstd::multiset::Multiset;
use vstd::prelude::*;
use vstd::std_specs::cmp::PartialOrdSpec;

verus! {

broadcast use vstd::multiset::group_multiset_axioms, vstd::seq_lib::group_to_multiset_ensures;

/// `lt` is a strict weak order: irreflexive, transitive, and two elements
/// that are each not before the next are not before one another.
pub open spec fn strict_weak_order<T>(lt: spec_fn(T, T) -> bool) -> bool {
    &&& forall|a: T| !#[trigger] lt(a, a)
    &&& forall|a: T, b: T, c: T| #[trigger] lt(a, b) && #[trigger] lt(b, c) ==> lt(a, c)
    &&& forall|a: T, b: T, c: T|
        !#[trigger] lt(a, b) && !#[trigger] lt(b, c) ==> !lt(a, c)
}

/// `less` may be called on any pair and answers whether `lt` puts its first
/// argument strictly before its second.
pub open spec fn decides<T, F: Fn(&T, &T) -> bool>(less: F, lt: spec_fn(T, T) -> bool) -> bool {
    &&& forall|a: &T, b: &T| #[trigger] less.requires((a, b))
    &&& forall|a: &T, b: &T, r: bool| #[trigger] less.ensures((a, b), r) ==> r == lt(*a, *b)
}

/// No element of `s` comes strictly before an earlier one under `lt`.
pub open spec fn sorted_by<T>(s: Seq<T>, lt: spec_fn(T, T) -> bool) -> bool {
    forall|i: int, j: int| 0 <= i < j < s.len() ==> !lt(#[trigger] s[j], #[trigger] s[i])
}

proof fn lemma_pop_front_multiset<T>(s: Seq<T>)
    requires
        s.len() > 0,
    ensures
        s.to_multiset() == s.subrange(1, s.len() as int).to_multiset().insert(s[0]),
{
    assert(s =~= seq![s[0]] + s.subrange(1, s.len() as int));
    vstd::seq_lib::lemma_multiset_commutative(seq![s[0]], s.subrange(1, s.len() as int));
    assert(seq![s[0]].to_multiset() =~= Multiset::empty().insert(s[0])) by {
        assert(seq![s[0]] =~= Seq::<T>::empty().push(s[0]));
    }
    assert(s.to_multiset() =~= s.subrange(1, s.len() as int).to_multiset().insert(s[0]));
}

/// Merges two sorted runs into one, taking from `right` unless the front of
/// `left` comes strictly first.
fn merge<T, F: Fn(&T, &T) -> bool>(
    left: VecDeque<T>,
    right: VecDeque<T>,
    less: &F,
    Ghost(lt): Ghost<spec_fn(T, T) -> bool>,
) -> (r: Vec<T>)
    requires
        decides(*less, lt),
        strict_weak_order(lt),
        sorted_by(left@, lt),
        sorted_by(right@, lt),
    ensures
        sorted_by(r@, lt),
        r@.to_multiset() == left@.to_multiset().add(right@.to_multiset()),
{
    let ghost total = left@.to_multiset().add(right@.to_multiset());
    let mut a = left;
    let mut b = right;
    let mut out: Vec<T> = Vec::new();
    while a.len() > 0 || b.len() > 0
        invariant
            decides(*less, lt),
            strict_weak_order(lt),
            sorted_by(a@, lt),
            sorted_by(b@, lt),
            sorted_by(out@, lt),
            forall|i: int, j: int|
                0 <= i < out@.len() && 0 <= j < a@.len() ==> !lt(#[trigger] a@[j], #[trigger] out@[i]),
            forall|i: int, j: int|
                0 <= i < out@.len() && 0 <= j < b@.len() ==> !lt(#[trigger] b@[j], #[trigger] out@[i]),
            out@.to_multiset().add(a@.to_multiset()).add(b@.to_multiset()) == total,
        decreases a@.len() + b@.len(),
    {
        let take_left = if a.len() == 0 {
            false
        } else if b.len() == 0 {
            true
        } else {
            less(&a[0], &b[0])
        };
        let ghost a_before = a@;
        let ghost b_before = b@;
        let ghost out_before = out@;
        if take_left {
            match a.pop_front() {
                Some(x) => {
                    proof {
                        lemma_pop_front_multiset(a_before);
                        assert forall|j: int| 0 <= j < b@.len() implies !lt(#[trigger] b@[j], x) by {
                            if lt(b@[j], x) {
                                assert(lt(x, b@[0]));
                                if j > 0 {
                                    assert(!lt(b@[j], b@[0]));
                                }
                            }
                        }
                        assert forall|j: int| 0 <= j < a@.len() implies !lt(#[trigger] a@[j], x) by {
                            assert(a@[j] == a_before[j + 1]);
                        }
                    }
                    out.push(x);
                    proof {
                        assert(out@.to_multiset() =~= out_before.to_multiset().insert(x));
                        assert(out@.to_multiset().add(a@.to_multiset()).add(b@.to_multiset())
                            =~= total);
                        assert forall|i: int, j: int|
                            0 <= i < out@.len() && 0 <= j < a@.len() implies !lt(
                            #[trigger] a@[j],
                            #[trigger] out@[i],
                        ) by {
                            if i < out_before.len() {
                                assert(a@[j] == a_before[j + 1]);
                            }
                        }
                    }
                },
                None => {},
            }
        } else {
            match b.pop_front() {
                Some(x) => {
                    proof {
                        lemma_pop_front_multiset(b_before);
                        assert forall|j: int| 0 <= j < a@.len() implies !lt(#[trigger] a@[j], x) by {
                            if j > 0 {
                                assert(!lt(a@[j], a@[0]));
                            }
                        }
                        assert forall|j: int| 0 <= j < b@.len() implies !lt(#[trigger] b@[j], x) by {
                            assert(b@[j] == b_before[j + 1]);
                        }
                    }
                    out.push(x);
                    proof {
                        assert(out@.to_multiset() =~= out_before.to_multiset().insert(x));
                        assert(out@.to_multiset().add(a@.to_multiset()).add(b@.to_multiset())
                            =~= total);
                        assert forall|i: int, j: int|
                            0 <= i < out@.len() && 0 <= j < b@.len() implies !lt(
                            #[trigger] b@[j],
                            #[trigger] out@[i],
                        ) by {
                            if i < out_before.len() {
                                assert(b@[j] == b_before[j + 1]);
                            }
                        }
                    }
                },
                None => {},
            }
        }
    }
    assert(a@.to_multiset() =~= Multiset::empty());
    assert(b@.to_multiset() =~= Multiset::empty());
    assert(out@.to_multiset() =~= total);
    out
}

/// Moves the elements of a vector, in order, into a double-ended queue.
fn into_deque<T>(v: Vec<T>) -> (r: VecDeque<T>)
    ensures
        r@ == v@,
{
    let ghost whole = v@;
    let mut v = v;
    let mut d: VecDeque<T> = VecDeque::new();
    while v.len() > 0
        invariant
            v@ + d@ == whole,
        decreases v@.len(),
    {
        let ghost v_before = v@;
        let ghost d_before = d@;
        match v.pop() {
            Some(x) => {
                d.push_front(x);
                assert(v@ + d@ =~= v_before + d_before);
            },
            None => {},
        }
    }
    assert(d@ =~= whole);
    d
}

/// Sorts a run by splitting it in two halves, sorting each, and merging.
fn sort_range<T, F: Fn(&T, &T) -> bool>(
    v: VecDeque<T>,
    less: &F,
    Ghost(lt): Ghost<spec_fn(T, T) -> bool>,
) -> (r: VecDeque<T>)
    requires
        decides(*less, lt),
        strict_weak_order(lt),
    ensures
        sorted_by(r@, lt),
        r@.to_multiset() == v@.to_multiset(),
    decreases v@.len(),
{
    if v.len() <= 1 {
        return v;
    }
    let mut left = v;
    let middle = left.len() / 2;
    let ghost whole = left@;
    let right = left.split_off(middle);
    proof {
        assert(whole =~= left@ + right@);
        vstd::seq_lib::lemma_multiset_commutative(left@, right@);
    }
    let sorted_left = sort_range(left, less, Ghost(lt));
    let sorted_right = sort_range(right, less, Ghost(lt));
    let merged = merge(sorted_left, sorted_right, less, Ghost(lt));
    into_deque(merged)
}

/// Sorts `v` by merge sort, ordering by `less`.
///
/// `less(a, b)` answers whether `a` goes strictly before `b` in the order
/// `lt`, which must be a strict weak order. Elements that `lt` leaves
/// unordered may come out in any relative order.
pub fn merge_sort_cmp<T, F: Fn(&T, &T) -> bool>(
    v: &mut Vec<T>,
    less: F,
    Ghost(lt): Ghost<spec_fn(T, T) -> bool>,
)
    requires
        decides(less, lt),
        strict_weak_order(lt),
    ensures
        sorted_by(final(v)@, lt),
        final(v)@.to_multiset() == old(v)@.to_multiset(),
{
    let mut taken: Vec<T> = Vec::new();
    core::mem::swap(v, &mut taken);
    let mut sorted = sort_range(into_deque(taken), &less, Ghost(lt));
    let ghost result = sorted@;
    while sorted.len() > 0
        invariant
            v@ + sorted@ == result,
        decreases sorted@.len(),
    {
        let ghost v_before = v@;
        let ghost s_before = sorted@;
        match sorted.pop_front() {
            Some(x) => {
                v.push(x);
                assert(v@ + sorted@ =~= v_before + s_before);
            },
            None => {},
        }
    }
    assert(v@ =~= result);
}

/// Sorts `v` in ascending order by merge sort.
pub fn merge_sort<T: Ord>(v: &mut Vec<T>)
    requires
        obeys_cmp::<T>(),
    ensures
        sorted(final(v)@),
        final(v)@.to_multiset() == old(v)@.to_multiset(),
{
    proof {
        reveal(obeys_cmp_ord);
        reveal(obeys_cmp_partial_ord);
        assert(total_order::<T>());
        lemma_order_facts::<T>();
    }
    let ghost lt = |a: T, b: T| a.partial_cmp_spec(&b) == Some(Ordering::Less);
    let less = |a: &T, b: &T| -> (r: bool)
        ensures
            r == (a.partial_cmp_spec(b) == Some(Ordering::Less)),
        { a < b };
    proof {
        lemma_order_facts::<T>();
        assert forall|a: T, b: T, c: T| #[trigger] lt(a, b) && #[trigger] lt(b, c) implies lt(
            a,
            c,
        ) by {
            reveal(vstd::laws_cmp::obeys_partial_cmp_spec_properties);
        }
    }
    merge_sort_cmp(v, less, Ghost(lt));
    proof {
        lemma_order_facts::<T>();
        assert forall|i: int, j: int| 0 <= i <= j <= v@.len() - 1 implies le(
            #[trigger] v@[i],
            #[trigger] v@[j],
        ) by {
            if i < j {
                assert(!lt(v@[j], v@[i]));
            }
        }
    }
}

} // verus!
