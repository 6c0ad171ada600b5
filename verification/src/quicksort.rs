//! In-place quicksort over a vector, driven by a caller-supplied strict
//! ordering predicate.

use vstd::prelude::*;
use crate::order::{
    can_compare, lemma_multiset_carries_pointwise, obeys_strict_order, precedes, refuses, sorted,
    sorted_between,
};

verus! {

/// Swapping two positions inside `[lo, hi)` leaves the multiset of that
/// range untouched.
proof fn lemma_swap_keeps_range_multiset<T>(s: Seq<T>, lo: int, hi: int, a: int, b: int)
    requires
        0 <= lo <= a < hi <= s.len(),
        lo <= b < hi,
    ensures
        s.update(a, s[b]).update(b, s[a]).subrange(lo, hi).to_multiset() == s.subrange(
            lo,
            hi,
        ).to_multiset(),
{
    broadcast use vstd::seq_lib::group_to_multiset_ensures;
    broadcast use vstd::multiset::group_multiset_axioms;

    let sub = s.subrange(lo, hi);
    let swapped = s.update(a, s[b]).update(b, s[a]);
    assert(swapped.subrange(lo, hi) =~= sub.update(a - lo, s[b]).update(b - lo, s[a]));
    let u1 = sub.update(a - lo, s[b]);
    assert(u1.to_multiset() == sub.to_multiset().insert(s[b]).remove(s[a]));
    assert(u1[b - lo] == s[b]);
    assert(u1.update(b - lo, s[a]).to_multiset() == u1.to_multiset().insert(s[a]).remove(s[b]));
    assert(sub.contains(s[a]));
    assert(sub.contains(s[b]));
    assert(sub.to_multiset().insert(s[b]).remove(s[a]).insert(s[a]).remove(s[b])
        =~= sub.to_multiset());
}

/// Swaps the element at `a` with the last element of the vector.
fn swap_with_last<T>(arr: &mut Vec<T>, a: usize)
    requires
        a < old(arr).len(),
    ensures
        final(arr)@ == old(arr)@.update(a as int, old(arr)@.last()).update(
            old(arr)@.len() - 1,
            old(arr)@[a as int],
        ),
{
    let x = arr.swap_remove(a);
    arr.push(x);
    proof {
        assert(arr@ =~= old(arr)@.update(a as int, old(arr)@.last()).update(
            old(arr)@.len() - 1,
            old(arr)@[a as int],
        ));
    }
}

/// Swaps the elements at positions `a` and `b`, leaving the rest in place.
fn swap_elements<T>(arr: &mut Vec<T>, a: usize, b: usize)
    requires
        a < old(arr).len(),
        b < old(arr).len(),
    ensures
        final(arr)@ == old(arr)@.update(a as int, old(arr)@[b as int]).update(
            b as int,
            old(arr)@[a as int],
        ),
        final(arr).len() == old(arr).len(),
{
    let last: usize = arr.len() - 1;
    if a == b {
        proof {
            assert(arr@ =~= arr@.update(a as int, arr@[b as int]).update(b as int, arr@[a as int]));
        }
    } else if b == last {
        swap_with_last(arr, a);
    } else if a == last {
        swap_with_last(arr, b);
        proof {
            assert(arr@ =~= old(arr)@.update(a as int, old(arr)@[b as int]).update(
                b as int,
                old(arr)@[a as int],
            ));
        }
    } else {
        swap_with_last(arr, a);
        swap_with_last(arr, b);
        swap_with_last(arr, a);
        proof {
            assert(arr@ =~= old(arr)@.update(a as int, old(arr)@[b as int]).update(
                b as int,
                old(arr)@[a as int],
            ));
        }
    }
}

/// Rearranges the sub-range `[lo, hi)` of `arr` around a pivot taken from
/// the middle of the sub-range, and returns the pivot's final index `k`:
/// every element before `k` was reported strictly before the pivot by the
/// predicate, every element after `k` was not. Elements never enter or
/// leave the sub-range, and nothing outside it moves.
pub fn partition<T, F>(arr: &mut Vec<T>, lo: usize, hi: usize, compare: &F) -> (k: usize) where
    F: Fn(&T, &T) -> bool,

    requires
        can_compare(compare),
        lo < hi,
        hi <= old(arr).len(),
    ensures
        lo <= k < hi,
        final(arr).len() == old(arr).len(),
        forall|t: int|
            0 <= t < old(arr)@.len() && !(lo <= t < hi) ==> final(arr)@[t] == old(arr)@[t],
        final(arr)@.subrange(lo as int, hi as int).to_multiset() == old(arr)@.subrange(
            lo as int,
            hi as int,
        ).to_multiset(),
        forall|t: int|
            lo <= t < k ==> precedes(compare, #[trigger] final(arr)@[t], final(arr)@[k as int]),
        forall|t: int|
            k < t < hi ==> refuses(compare, #[trigger] final(arr)@[t], final(arr)@[k as int]),
{
    let mid: usize = lo + (hi - lo) / 2;
    swap_elements(arr, mid, hi - 1);
    proof {
        lemma_swap_keeps_range_multiset(
            old(arr)@,
            lo as int,
            hi as int,
            mid as int,
            (hi - 1) as int,
        );
    }
    let ghost base = arr@;
    let mut i: usize = lo;
    let mut j: usize = lo;
    while j < hi - 1
        invariant
            lo <= i <= j <= hi - 1,
            lo < hi <= arr.len(),
            arr.len() == base.len(),
            can_compare(compare),
            arr@[hi - 1] == base[hi - 1],
            forall|t: int| 0 <= t < base.len() && !(lo <= t < hi) ==> arr@[t] == base[t],
            arr@.subrange(lo as int, hi as int).to_multiset() == base.subrange(
                lo as int,
                hi as int,
            ).to_multiset(),
            forall|t: int| lo <= t < i ==> precedes(compare, #[trigger] arr@[t], arr@[hi - 1]),
            forall|t: int| i <= t < j ==> refuses(compare, #[trigger] arr@[t], arr@[hi - 1]),
        decreases hi - 1 - j,
    {
        let c = compare(&arr[j], &arr[hi - 1]);
        if c {
            proof {
                lemma_swap_keeps_range_multiset(arr@, lo as int, hi as int, i as int, j as int);
            }
            swap_elements(arr, i, j);
            i += 1;
        }
        j += 1;
    }
    let ghost pre = arr@;
    proof {
        lemma_swap_keeps_range_multiset(arr@, lo as int, hi as int, i as int, (hi - 1) as int);
    }
    swap_elements(arr, i, hi - 1);
    proof {
        assert forall|t: int|
            0 <= t < old(arr)@.len() && !(lo <= t < hi) implies arr@[t] == old(arr)@[t] by {
            assert(arr@[t] == pre[t]);
            assert(pre[t] == base[t]);
            assert(base[t] == old(arr)@[t]);
        }
    }
    i
}

/// Sorts the sub-range `[lo, hi)` of `arr` in place: partitions it around a
/// pivot, then recurses on the two disjoint sides. The multiset of the
/// sub-range is preserved whatever the predicate does; the sub-range comes
/// out sorted whenever the predicate behaves as a strict order.
fn quicksort_range<T, F>(arr: &mut Vec<T>, lo: usize, hi: usize, compare: &F) where
    F: Fn(&T, &T) -> bool,

    requires
        can_compare(compare),
        lo <= hi <= old(arr).len(),
    ensures
        final(arr).len() == old(arr).len(),
        forall|t: int|
            0 <= t < old(arr)@.len() && !(lo <= t < hi) ==> final(arr)@[t] == old(arr)@[t],
        final(arr)@.subrange(lo as int, hi as int).to_multiset() == old(arr)@.subrange(
            lo as int,
            hi as int,
        ).to_multiset(),
        obeys_strict_order(compare) ==> sorted_between(compare, final(arr)@, lo as int, hi as int),
        hi - lo <= 1 ==> final(arr)@ == old(arr)@,
    decreases hi - lo,
{
    if hi - lo > 1 {
        let k: usize = partition(arr, lo, hi, compare);
        let ghost s1 = arr@;
        quicksort_range(arr, lo, k, compare);
        let ghost s2 = arr@;
        quicksort_range(arr, k + 1, hi, compare);
        proof {
            let s0 = old(arr)@;
            let s3 = arr@;
            let loi = lo as int;
            let hii = hi as int;
            let ki = k as int;
            broadcast use vstd::seq_lib::lemma_multiset_commutative;

            // The pivot never moves again: it sits outside both recursive
            // sub-ranges.
            assert(s3[ki] == s1[ki]);
            let pivot = s1[ki];

            // The multiset of [lo, hi) survives each recursive call, seen by
            // splitting the range at the side the call left untouched.
            assert(s2.subrange(ki, hii) =~= s1.subrange(ki, hii));
            assert(s1.subrange(loi, hii) =~= s1.subrange(loi, ki) + s1.subrange(ki, hii));
            assert(s2.subrange(loi, hii) =~= s2.subrange(loi, ki) + s2.subrange(ki, hii));
            assert(s2.subrange(loi, hii).to_multiset() == s1.subrange(loi, hii).to_multiset());

            assert(s3.subrange(loi, ki + 1) =~= s2.subrange(loi, ki + 1));
            assert(s2.subrange(loi, hii) =~= s2.subrange(loi, ki + 1) + s2.subrange(ki + 1, hii));
            assert(s3.subrange(loi, hii) =~= s3.subrange(loi, ki + 1) + s3.subrange(ki + 1, hii));
            assert(s3.subrange(loi, hii).to_multiset() == s2.subrange(loi, hii).to_multiset());

            if obeys_strict_order(compare) {
                // Everything left of the pivot still precedes it: the left
                // recursion only permuted those elements.
                let before_pivot = |x: T| precedes(compare, x, pivot);
                assert forall|t: int| 0 <= t < s1.subrange(loi, ki).len()
                    implies #[trigger] before_pivot(s1.subrange(loi, ki)[t]) by {
                    assert(precedes(compare, s1[loi + t], s1[ki]));
                }
                lemma_multiset_carries_pointwise(
                    s1.subrange(loi, ki),
                    s2.subrange(loi, ki),
                    before_pivot,
                );
                assert forall|t: int| loi <= t < ki implies #[trigger] before_pivot(s3[t]) by {
                    assert(s3[t] == s2[t]);
                    assert(s2.subrange(loi, ki)[t - loi] == s2[t]);
                    assert(before_pivot(s2.subrange(loi, ki)[t - loi]));
                }

                // Everything right of the pivot was refused against it, and
                // the right recursion only permuted those elements.
                let not_before_pivot = |x: T| refuses(compare, x, pivot);
                assert forall|t: int| 0 <= t < s2.subrange(ki + 1, hii).len()
                    implies #[trigger] not_before_pivot(s2.subrange(ki + 1, hii)[t]) by {
                    assert(s2[ki + 1 + t] == s1[ki + 1 + t]);
                    assert(refuses(compare, s1[ki + 1 + t], s1[ki]));
                }
                lemma_multiset_carries_pointwise(
                    s2.subrange(ki + 1, hii),
                    s3.subrange(ki + 1, hii),
                    not_before_pivot,
                );
                assert forall|t: int| ki < t < hii implies #[trigger] not_before_pivot(s3[t]) by {
                    assert(s3.subrange(ki + 1, hii)[t - (ki + 1)] == s3[t]);
                }

                // The sorted left side carries over unchanged into the final
                // sequence.
                assert(sorted_between(compare, s3, loi, ki)) by {
                    assert forall|p: int, q: int| loi <= p < q < ki
                        implies !(precedes(compare, s3[q], s3[p])) by {
                        assert(s3[p] == s2[p]);
                        assert(s3[q] == s2[q]);
                    }
                }

                assert forall|p: int, q: int| loi <= p < q < hii
                    implies !(precedes(compare, s3[q], s3[p])) by {
                    if q < ki {
                        assert(!(precedes(compare, s3[q], s3[p])));
                    } else if p > ki {
                        assert(!(precedes(compare, s3[q], s3[p])));
                    } else if q == ki {
                        assert(before_pivot(s3[p]));
                        assert(!(precedes(compare, s3[ki], s3[p])));
                    } else if p == ki {
                        assert(not_before_pivot(s3[q]));
                        assert(!(precedes(compare, s3[q], s3[ki])));
                    } else {
                        assert(before_pivot(s3[p]));
                        assert(not_before_pivot(s3[q]));
                        if precedes(compare, s3[q], s3[p]) {
                            assert(!refuses(compare, s3[q], pivot));
                            assert(false);
                        }
                    }
                }
            }
        }
    }
}

/// Sorts `arr` in place under `compare`, read as "must be ordered strictly
/// before". The result holds exactly the elements it started with, and is
/// sorted whenever the predicate behaves as a strict order; an empty or
/// one-element vector is left untouched whatever the predicate.
///
/// The pivot is always the middle element of the current sub-range, so an
/// adversarial input can still drive the recursion to a depth and comparison
/// count proportional to the square of the length; no randomized or sampled
/// pivot is attempted.
pub fn quicksort<T, F>(arr: &mut Vec<T>, compare: &F) where
    F: Fn(&T, &T) -> bool,

    requires
        can_compare(compare),
    ensures
        final(arr).len() == old(arr).len(),
        final(arr)@.to_multiset() == old(arr)@.to_multiset(),
        obeys_strict_order(compare) ==> sorted(compare, final(arr)@),
        old(arr).len() <= 1 ==> final(arr)@ == old(arr)@,
{
    let n: usize = arr.len();
    quicksort_range(arr, 0, n, compare);
    proof {
        assert(arr@.subrange(0, n as int) =~= arr@);
        assert(old(arr)@.subrange(0, n as int) =~= old(arr)@);
    }
}

} // verus!
