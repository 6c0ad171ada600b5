//! A spec-level reading of a comparison closure `F: Fn(&T, &T) -> bool`.
//!
//! The closure is meant to answer "must the first element be ordered
//! strictly before the second?". These definitions say, over the closure's
//! own contract, what the sorting routines assume of it and what they
//! guarantee in return.

use vstd::prelude::*;

verus! {

/// The predicate can be called on any pair of elements, any number of times.
pub open spec fn can_compare<T, F: Fn(&T, &T) -> bool>(compare: F) -> bool {
    forall|x: T, y: T| #[trigger] call_requires(compare, (&x, &y))
}

/// The predicate may report `x` as ordered strictly before `y`.
pub open spec fn precedes<T, F: Fn(&T, &T) -> bool>(compare: F, x: T, y: T) -> bool {
    call_ensures(compare, (&x, &y), true)
}

/// The predicate may decline to order `x` strictly before `y`.
pub open spec fn refuses<T, F: Fn(&T, &T) -> bool>(compare: F, x: T, y: T) -> bool {
    call_ensures(compare, (&x, &y), false)
}

/// The predicate behaves as a strict order: it gives one verdict per pair
/// of values, never reports both directions, and two strict steps are never
/// refused when chained. Every deterministic strict weak ordering satisfies
/// this, and a caller can prove it of a closure from that closure's own
/// `ensures` clause alone.
pub open spec fn obeys_strict_order<T, F: Fn(&T, &T) -> bool>(compare: F) -> bool {
    &&& forall|x: T, y: T| #[trigger] precedes(compare, x, y) ==> !refuses(compare, x, y)
    &&& forall|x: T, y: T| #[trigger] precedes(compare, x, y) ==> !precedes(compare, y, x)
    &&& forall|x: T, y: T, z: T|
        #[trigger] precedes(compare, x, y) && #[trigger] precedes(compare, y, z)
            ==> !refuses(compare, x, z)
}

/// The predicate's strict verdicts chain positively: whenever it may order
/// `x` before `y` and `y` before `z`, it may order `x` before `z`. Together
/// with `obeys_strict_order` this is the full transitivity of a strict weak
/// ordering.
pub open spec fn transitive_verdicts<T, F: Fn(&T, &T) -> bool>(compare: F) -> bool {
    forall|x: T, y: T, z: T|
        #[trigger] precedes(compare, x, y) && #[trigger] precedes(compare, y, z)
            ==> precedes(compare, x, z)
}

/// Positions `lo` (inclusive) to `hi` (exclusive) of `s` are sorted: the
/// predicate never reports a later element as strictly before an earlier one.
pub open spec fn sorted_between<T, F: Fn(&T, &T) -> bool>(
    compare: F,
    s: Seq<T>,
    lo: int,
    hi: int,
) -> bool {
    forall|p: int, q: int|
        lo <= p < q < hi ==> !(#[trigger] precedes(compare, s[q], s[p]))
}

/// The whole of `s` is sorted under the predicate.
pub open spec fn sorted<T, F: Fn(&T, &T) -> bool>(compare: F, s: Seq<T>) -> bool {
    sorted_between(compare, s, 0, s.len() as int)
}

/// Two values that the predicate orders in neither direction are equal.
/// Sorting by a field of a larger record does not have this; sorting plain
/// integers by `<` does.
pub open spec fn ties_are_equal<T, F: Fn(&T, &T) -> bool>(compare: F) -> bool {
    forall|x: T, y: T|
        !(#[trigger] precedes(compare, x, y)) && !(#[trigger] precedes(compare, y, x)) ==> x == y
}

/// Sorting changes an already-sorted sequence no further: any sorted
/// rearrangement of a sorted sequence is that sequence itself, provided the
/// predicate is a strict order whose ties hold only between equal values.
/// `before` is the sorted input; `after` is any sorted sequence holding the
/// same elements, such as the output of sorting `before` again.
pub proof fn lemma_resort_changes_nothing<T, F: Fn(&T, &T) -> bool>(
    compare: F,
    before: Seq<T>,
    after: Seq<T>,
)
    requires
        obeys_strict_order(compare),
        transitive_verdicts(compare),
        ties_are_equal(compare),
        sorted(compare, before),
        sorted(compare, after),
        before.to_multiset() == after.to_multiset(),
    ensures
        after == before,
{
    broadcast use vstd::seq_lib::group_to_multiset_ensures;

    let leq = |x: T, y: T| !precedes(compare, y, x);
    assert(vstd::relations::total_ordering(leq)) by {
        assert forall|x: T| #[trigger] leq(x, x) by {
            assert(precedes(compare, x, x) ==> !precedes(compare, x, x));
        }
        assert forall|x: T, y: T| #[trigger] leq(x, y) && #[trigger] leq(y, x) implies x == y by {
            assert(!precedes(compare, y, x) && !precedes(compare, x, y) ==> x == y);
        }
        assert forall|x: T, y: T, z: T| #[trigger] leq(x, y) && #[trigger] leq(y, z)
            implies leq(x, z) by {
            if precedes(compare, z, x) {
                if precedes(compare, x, y) {
                    assert(precedes(compare, z, y));
                    assert(false);
                } else {
                    assert(x == y);
                    assert(false);
                }
            }
        }
        assert forall|x: T, y: T| #[trigger] leq(x, y) || #[trigger] leq(y, x) by {
            if precedes(compare, y, x) {
                assert(!precedes(compare, x, y));
            }
        }
    }
    assert(vstd::relations::sorted_by(before, leq)) by {
        assert forall|p: int, q: int| 0 <= p < q < before.len()
            implies #[trigger] leq(before[p], before[q]) by {
            assert(!precedes(compare, before[q], before[p]));
        }
    }
    assert(vstd::relations::sorted_by(after, leq)) by {
        assert forall|p: int, q: int| 0 <= p < q < after.len()
            implies #[trigger] leq(after[p], after[q]) by {
            assert(!precedes(compare, after[q], after[p]));
        }
    }
    vstd::seq_lib::lemma_sorted_unique(before, after, leq);
    assert(after =~= before);
}

/// A property that holds of every element of a sequence holds of every
/// element of any rearrangement of it.
pub(crate) proof fn lemma_multiset_carries_pointwise<T>(s1: Seq<T>, s2: Seq<T>, p: spec_fn(T) -> bool)
    requires
        s1.to_multiset() == s2.to_multiset(),
        forall|t: int| 0 <= t < s1.len() ==> #[trigger] p(s1[t]),
    ensures
        forall|t: int| 0 <= t < s2.len() ==> #[trigger] p(s2[t]),
{
    broadcast use vstd::seq_lib::group_to_multiset_ensures;

    assert forall|t: int| 0 <= t < s2.len() implies #[trigger] p(s2[t]) by {
        assert(s2.contains(s2[t]));
        assert(s2.to_multiset().count(s2[t]) > 0);
        assert(s1.to_multiset().count(s2[t]) > 0);
        assert(s1.contains(s2[t]));
        let j = choose|j: int| 0 <= j < s1.len() && s1[j] == s2[t];
        assert(p(s1[j]));
    }
}

} // verus!
