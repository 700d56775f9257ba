//! Pair-sum search over a sequence of 32-bit signed integers.
//!
//! The crate exposes two entry points:
//!
//! - [`add`], a checked helper that returns the exact mathematical sum of two
//!   `i32` values; its precondition rules out overflow, so the verified code
//!   never panics.
//! - [`two_sum`], which returns every pair of original indices that the
//!   classic two-pointer sweep emits when looking for two elements whose
//!   values sum to a target. The result is pinned, element for element, to a
//!   mathematical model of the algorithm: a stable sort of (value, index)
//!   records followed by a two-cursor scan.

use vstd::prelude::*;

pub mod sorting;

verus! {

/// Returns the exact sum of `x` and `y`.
///
/// The precondition requires the mathematical sum to be representable as an
/// `i32`; within that range the result is exactly `x + y`.
pub fn add(x: i32, y: i32) -> (r: i32)
    requires
        i32::MIN <= x + y <= i32::MAX,
    ensures
        r == x + y,
{
    x + y
}

/// The (value, original-index) records of `values`, one per element, in
/// original order.
pub open spec fn index_value_records(values: Seq<i32>) -> Seq<(i32, i32)> {
    Seq::new(values.len(), |k: int| (values[k], k as i32))
}

/// The two-pointer sweep over the record sequence `s`, between cursors `low`
/// and `high`. When the two cursor values sum to `target`, the pair of their
/// original indices is emitted and both cursors move inward; otherwise the
/// cursor on the side that cannot match any remaining partner moves.
pub open spec fn sweep(s: Seq<(i32, i32)>, target: i32, low: int, high: int) -> Seq<(i32, i32)>
    decreases high + 1 - low,
{
    if 0 <= low && low < high && high < s.len() {
        let total = s[low].0 + s[high].0;
        if total == target {
            seq![(s[low].1, s[high].1)] + sweep(s, target, low + 1, high - 1)
        } else if total > target {
            sweep(s, target, low, high - 1)
        } else {
            sweep(s, target, low + 1, high)
        }
    } else {
        Seq::<(i32, i32)>::empty()
    }
}

/// The full result of the pair-sum search on `values`: the sweep over the
/// stably sorted (value, original-index) records, from both ends inward.
pub open spec fn two_sum_pairs(values: Seq<i32>, target: i32) -> Seq<(i32, i32)> {
    let s = sorting::sorted_records(index_value_records(values));
    sweep(s, target, 0, values.len() - 1)
}

/// An emitted pair is two distinct in-bounds original indices whose values
/// sum exactly to `target`.
pub open spec fn pair_matches(values: Seq<i32>, target: i32, p: (i32, i32)) -> bool {
    &&& 0 <= p.0 < values.len()
    &&& 0 <= p.1 < values.len()
    &&& p.0 != p.1
    &&& values[p.0 as int] + values[p.1 as int] == target
}

/// `s` is a rearrangement of the (value, original-index) records of `values`:
/// every record carries an in-bounds index, its value is the input element at
/// that index, and no index appears twice.
pub open spec fn records_of(s: Seq<(i32, i32)>, values: Seq<i32>) -> bool {
    &&& s.len() == values.len()
    &&& forall|k: int| 0 <= k < s.len() ==> 0 <= (#[trigger] s[k]).1 < values.len()
    &&& forall|k: int| 0 <= k < s.len() ==> (#[trigger] s[k]).0 == values[s[k].1 as int]
    &&& forall|k1: int, k2: int|
        #![trigger s[k1], s[k2]]
        0 <= k1 < k2 < s.len() ==> s[k1].1 != s[k2].1
}

/// Sorting the (value, original-index) records of `values` yields a
/// rearrangement of those records.
pub proof fn lemma_sorted_records_of(values: Seq<i32>)
    requires
        values.len() <= i32::MAX,
    ensures
        records_of(sorting::sorted_records(index_value_records(values)), values),
    decreases values.len(),
{
    let pairs = index_value_records(values);
    if values.len() == 0 {
        assert(pairs =~= Seq::<(i32, i32)>::empty());
    } else {
        let prefix = values.drop_last();
        lemma_sorted_records_of(prefix);
        assert(index_value_records(prefix) =~= pairs.drop_last());
        let s0 = sorting::sorted_records(index_value_records(prefix));
        let x = pairs.last();
        let n = values.len() as int;
        assert(x == (values[n - 1], (n - 1) as i32));
        assert(sorting::sorted_records(pairs) == sorting::inserted(s0, x));
        let s = sorting::inserted(s0, x);
        let p = sorting::lemma_inserted_shape(s0, x);
        assert forall|k: int| 0 <= k < s.len() implies 0 <= (#[trigger] s[k]).1 < n by {
            if k < p {
                assert(s[k] == s0[k]);
            } else if k > p {
                assert(s[k] == s0[k - 1]);
            }
        }
        assert forall|k: int| 0 <= k < s.len() implies (#[trigger] s[k]).0 == values[s[k].1 as int] by {
            if k < p {
                assert(s[k] == s0[k]);
                assert(prefix[s0[k].1 as int] == values[s0[k].1 as int]);
            } else if k > p {
                assert(s[k] == s0[k - 1]);
                assert(prefix[s0[k - 1].1 as int] == values[s0[k - 1].1 as int]);
            }
        }
        assert forall|k1: int, k2: int|
            #![trigger s[k1], s[k2]]
            0 <= k1 < k2 < s.len() implies s[k1].1 != s[k2].1 by {
            let j1: int = if k1 < p { k1 } else { k1 - 1 };
            let j2: int = if k2 < p { k2 } else { k2 - 1 };
            if k1 == p {
                assert(s[k1] == x);
                assert(s[k2] == s0[j2]);
                assert(0 <= s0[j2].1 < n - 1);
            } else if k2 == p {
                assert(s[k2] == x);
                assert(s[k1] == s0[j1]);
                assert(0 <= s0[j1].1 < n - 1);
            } else {
                assert(s[k1] == s0[j1]);
                assert(s[k2] == s0[j2]);
                assert(j1 < j2);
            }
        }
    }
}

/// Returns every pair of original indices that the two-pointer sweep emits:
/// the (value, index) records of `num` are sorted ascending by value (ties
/// broken by original index), then scanned from both ends, emitting the two
/// indices whenever the cursor values sum to `target`.
///
/// The result equals the mathematical model [`two_sum_pairs`] exactly; in
/// addition, every emitted pair is two distinct in-bounds indices whose
/// values sum to `target`, and inputs with fewer than two elements produce
/// the empty result. The sum of two candidate values is formed in 64-bit
/// arithmetic, so no intermediate sum can overflow; the bound on the input
/// length keeps every original index representable as an `i32`.
pub fn two_sum(num: Vec<i32>, target: i32) -> (result: Vec<(i32, i32)>)
    requires
        num@.len() <= i32::MAX,
    ensures
        result@ == two_sum_pairs(num@, target),
        forall|k: int|
            0 <= k < result@.len() ==> pair_matches(num@, target, #[trigger] result@[k]),
        num@.len() < 2 ==> result@.len() == 0,
{
    let n = num.len();
    if n == 0 {
        let result: Vec<(i32, i32)> = Vec::new();
        proof {
            assert(result@ =~= two_sum_pairs(num@, target));
        }
        return result;
    }
    let mut pairs: Vec<(i32, i32)> = Vec::new();
    let mut i: usize = 0;
    while i < n
        invariant
            n == num@.len() <= i32::MAX,
            i <= n,
            pairs@ =~= index_value_records(num@).take(i as int),
        decreases n - i,
    {
        pairs.push((num[i], i as i32));
        i = i + 1;
    }
    proof {
        assert(index_value_records(num@).take(n as int) =~= index_value_records(num@));
    }
    let sorted = sorting::sort_records(&pairs);
    proof {
        lemma_sorted_records_of(num@);
    }
    let mut result: Vec<(i32, i32)> = Vec::new();
    let mut low: usize = 0;
    let mut high: usize = n - 1;
    while low < high
        invariant
            n == num@.len() <= i32::MAX,
            sorted@ == sorting::sorted_records(index_value_records(num@)),
            records_of(sorted@, num@),
            low <= high + 1,
            high < n,
            result@ + sweep(sorted@, target, low as int, high as int) == two_sum_pairs(
                num@,
                target,
            ),
            forall|k: int|
                0 <= k < result@.len() ==> pair_matches(num@, target, #[trigger] result@[k]),
        decreases high + 1 - low,
    {
        let v1: (i32, i32) = sorted[low];
        let v2: (i32, i32) = sorted[high];
        let try_sum: i64 = v1.0 as i64 + v2.0 as i64;
        if try_sum == target as i64 {
            proof {
                let emitted = (v1.1, v2.1);
                assert(pair_matches(num@, target, emitted));
                assert(sweep(sorted@, target, low as int, high as int) == seq![emitted] + sweep(
                    sorted@,
                    target,
                    low as int + 1,
                    high as int - 1,
                ));
                assert(result@.push(emitted) + sweep(
                    sorted@,
                    target,
                    low as int + 1,
                    high as int - 1,
                ) =~= result@ + sweep(sorted@, target, low as int, high as int));
            }
            result.push((v1.1, v2.1));
            low = low + 1;
            high = high - 1;
        } else if try_sum > target as i64 {
            high = high - 1;
        } else {
            low = low + 1;
        }
    }
    proof {
        assert(result@ + sweep(sorted@, target, low as int, high as int) =~= result@);
    }
    result
}

/// The search is a function of its inputs alone: any two results that meet
/// `two_sum`'s contract on the same `values` and `target` are equal, so
/// calling the search twice on the same inputs yields the same sequence of
/// index pairs.
pub proof fn lemma_two_sum_deterministic(
    values: Seq<i32>,
    target: i32,
    r1: Seq<(i32, i32)>,
    r2: Seq<(i32, i32)>,
)
    requires
        r1 == two_sum_pairs(values, target),
        r2 == two_sum_pairs(values, target),
    ensures
        r1 == r2,
{
}

} // verus!
