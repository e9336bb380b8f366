//! Laws of repeated extraction, stated over the heap's mathematical model.

use vstd::multiset::Multiset;
use vstd::prelude::*;

use crate::order::Priority;

verus! {

/// `v` is an extreme element of `m` under the policy `P`: it is in `m`,
/// and nothing in `m` outranks it.
pub open spec fn tops<T, P: Priority<T>>(m: Multiset<T>, v: T) -> bool {
    m.count(v) > 0 && (forall|x: T| m.count(x) > 0 ==> !P::outranks(x, v))
}

/// The sequence `s` drains the multiset `m` down to `rest`: each element
/// in turn is an extreme element of what is left at its step. This is
/// exactly the shape that repeated extraction produces.
pub open spec fn drains_to<T, P: Priority<T>>(m: Multiset<T>, s: Seq<T>, rest: Multiset<T>) -> bool
    decreases s.len(),
{
    if s.len() == 0 {
        rest == m
    } else {
        tops::<T, P>(m, s[0]) && drains_to::<T, P>(m.remove(s[0]), s.drop_first(), rest)
    }
}

/// The sequence `s` drains the multiset `m` completely.
pub open spec fn drains<T, P: Priority<T>>(m: Multiset<T>, s: Seq<T>) -> bool {
    drains_to::<T, P>(m, s, Multiset::<T>::empty())
}

/// A partial drain extends by one extreme element of what is left.
pub proof fn lemma_drains_to_snoc<T, P: Priority<T>>(
    m: Multiset<T>,
    s: Seq<T>,
    rest: Multiset<T>,
    v: T,
)
    requires
        drains_to::<T, P>(m, s, rest),
        tops::<T, P>(rest, v),
    ensures
        drains_to::<T, P>(m, s.push(v), rest.remove(v)),
    decreases s.len(),
{
    if s.len() == 0 {
        assert(rest == m);
        assert(s.push(v)[0] == v);
        assert(s.push(v).drop_first() =~= Seq::<T>::empty());
        assert(drains_to::<T, P>(m.remove(v), s.push(v).drop_first(), rest.remove(v)));
    } else {
        lemma_drains_to_snoc::<T, P>(m.remove(s[0]), s.drop_first(), rest, v);
        assert(s.push(v).drop_first() =~= s.drop_first().push(v));
        assert(s.push(v)[0] == s[0]);
        assert(drains_to::<T, P>(m.remove(s[0]), s.push(v).drop_first(), rest.remove(v)));
    }
}

/// The sequence never goes back up under the policy: no later element
/// outranks an earlier one.
pub open spec fn sorted_by_rank<T, P: Priority<T>>(s: Seq<T>) -> bool {
    forall|i: int, j: int| 0 <= i <= j < s.len() ==> !(#[trigger] P::outranks(s[j], s[i]))
}

/// Law of sorted drains: a sequence that drains a multiset is a
/// permutation of it and is sorted under the policy, ascending for a
/// min-heap and descending for a max-heap. Extraction promises of each
/// returned value exactly what `drains` asks of the next element, so the
/// law covers every sequence that repeated extraction can yield.
pub proof fn lemma_drain_sorted<T, P: Priority<T>>(m: Multiset<T>, s: Seq<T>)
    requires
        drains::<T, P>(m, s),
    ensures
        sorted_by_rank::<T, P>(s),
        s.to_multiset() == m,
    decreases s.len(),
{
    broadcast use vstd::seq_lib::group_to_multiset_ensures;
    broadcast use vstd::multiset::group_multiset_axioms;

    if s.len() == 0 {
        assert(s.to_multiset() =~= m);
    } else {
        let v = s[0];
        let rest = s.drop_first();
        lemma_drain_sorted::<T, P>(m.remove(v), rest);
        assert(s =~= rest.insert(0, v));
        assert(s.to_multiset() =~= m);
        assert forall|i: int, j: int| 0 <= i <= j < s.len() implies !(#[trigger] P::outranks(
            s[j],
            s[i],
        )) by {
            if i == 0 && j > 0 {
                assert(rest[j - 1] == s[j]);
                assert(rest.contains(rest[j - 1]));
                assert(rest.to_multiset().count(s[j]) > 0);
                assert(m.count(s[j]) > 0);
            } else if i > 0 {
                assert(!(P::outranks(rest[j - 1], rest[i - 1])));
            }
        }
    }
}

/// Law of the single-element round trip: when the heap's contents are one
/// value `v`, the element that extraction hands out can only be `v`, and
/// the heap is then empty, so a further extraction finds no value.
pub proof fn lemma_singleton_round_trip<T, P: Priority<T>>(m: Multiset<T>, v: T, r: T)
    requires
        m == Multiset::<T>::empty().insert(v),
        m.count(r) > 0,
    ensures
        r == v,
        m.remove(r) == Multiset::<T>::empty(),
{
    broadcast use vstd::multiset::group_multiset_axioms;

    if r != v {
        assert(m.count(r) == 0);
    }
    assert(m.remove(r) =~= Multiset::<T>::empty());
}

} // verus!
