//! Sums, extremes and jitter of lists of measurements.

use vstd::prelude::*;

use crate::ratio::Ratio;

verus! {

/// The sum of the values.
pub open spec fn sum(values: Seq<u64>) -> nat
    decreases values.len(),
{
    if values.len() == 0 {
        0
    } else {
        sum(values.drop_last()) + values.last() as nat
    }
}

/// `m` is the least of the values.
pub open spec fn is_min(values: Seq<u64>, m: u64) -> bool {
    values.contains(m) && forall|i: int| 0 <= i < values.len() ==> m <= values[i]
}

/// `m` is the greatest of the values.
pub open spec fn is_max(values: Seq<u64>, m: u64) -> bool {
    values.contains(m) && forall|i: int| 0 <= i < values.len() ==> values[i] <= m
}

/// The least of the values, if there are any.
pub open spec fn min_of(values: Seq<u64>) -> Option<u64> {
    if values.len() == 0 {
        None
    } else {
        Some(choose|m: u64| is_min(values, m))
    }
}

/// The greatest of the values, if there are any.
pub open spec fn max_of(values: Seq<u64>) -> Option<u64> {
    if values.len() == 0 {
        None
    } else {
        Some(choose|m: u64| is_max(values, m))
    }
}

/// The distance between two values.
pub open spec fn distance(a: u64, b: u64) -> nat {
    if a <= b {
        (b - a) as nat
    } else {
        (a - b) as nat
    }
}

/// The sum of the distances between consecutive values.
pub open spec fn jumps(values: Seq<u64>) -> nat
    decreases values.len(),
{
    if values.len() < 2 {
        0
    } else {
        jumps(values.drop_last()) + distance(values[values.len() - 2], values.last())
    }
}

/// The jitter of the values: the mean distance between consecutive ones, zero where there are
/// fewer than two.
pub open spec fn jitter_of(values: Seq<u64>) -> Ratio {
    if values.len() < 2 {
        Ratio { num: 0, den: 1 }
    } else {
        Ratio { num: jumps(values) as u128, den: (values.len() - 1) as u64 }
    }
}

/// Adds up the values.
pub fn total(values: &Vec<u64>) -> (r: u128)
    ensures
        r == sum(values@),
{
    let mut acc: u128 = 0;
    let mut i: usize = 0;
    assert(values@.take(0).len() == 0);
    while i < values.len()
        invariant
            i <= values@.len(),
            acc == sum(values@.take(i as int)),
            acc <= i * u64::MAX,
        decreases values@.len() - i,
    {
        proof {
            assert(values@.take(i + 1).drop_last() =~= values@.take(i as int));
            assert(i * u64::MAX + u64::MAX <= u64::MAX * u64::MAX) by (nonlinear_arith)
                requires
                    i + 1 <= u64::MAX,
            ;
        }
        acc = acc + values[i] as u128;
        i = i + 1;
    }
    assert(values@.take(i as int) =~= values@);
    acc
}

/// Finds the least value.
pub fn least(values: &Vec<u64>) -> (r: Option<u64>)
    ensures
        r == min_of(values@),
        r matches Some(m) ==> is_min(values@, m),
{
    if values.len() == 0 {
        return None;
    }
    let mut m: u64 = values[0];
    let mut i: usize = 1;
    while i < values.len()
        invariant
            1 <= i <= values@.len(),
            values@.contains(m),
            forall|j: int| 0 <= j < i ==> m <= values@[j],
        decreases values@.len() - i,
    {
        if values[i] < m {
            m = values[i];
        }
        i = i + 1;
    }
    proof {
        assert(is_min(values@, m));
        law_extremes_are_unique(values@, m, choose|m: u64| is_min(values@, m));
    }
    Some(m)
}

/// Finds the greatest value.
pub fn greatest(values: &Vec<u64>) -> (r: Option<u64>)
    ensures
        r == max_of(values@),
        r matches Some(m) ==> is_max(values@, m),
{
    if values.len() == 0 {
        return None;
    }
    let mut m: u64 = values[0];
    let mut i: usize = 1;
    while i < values.len()
        invariant
            1 <= i <= values@.len(),
            values@.contains(m),
            forall|j: int| 0 <= j < i ==> values@[j] <= m,
        decreases values@.len() - i,
    {
        if values[i] > m {
            m = values[i];
        }
        i = i + 1;
    }
    proof {
        assert(is_max(values@, m));
        law_extremes_are_unique(values@, m, choose|m: u64| is_max(values@, m));
    }
    Some(m)
}

/// Adds up the distances between consecutive values.
pub fn total_jumps(values: &Vec<u64>) -> (r: u128)
    ensures
        r == jumps(values@),
{
    let mut acc: u128 = 0;
    if values.len() == 0 {
        return 0;
    }
    let mut i: usize = 1;
    assert(values@.take(1).len() == 1);
    while i < values.len()
        invariant
            1 <= i <= values@.len(),
            acc == jumps(values@.take(i as int)),
            acc <= i * u64::MAX,
        decreases values@.len() - i,
    {
        proof {
            assert(values@.take(i + 1).drop_last() =~= values@.take(i as int));
            assert(i * u64::MAX + u64::MAX <= u64::MAX * u64::MAX) by (nonlinear_arith)
                requires
                    i + 1 <= u64::MAX,
            ;
        }
        let previous: u64 = values[i - 1];
        let current: u64 = values[i];
        let jump: u64 = if previous <= current {
            current - previous
        } else {
            previous - current
        };
        acc = acc + jump as u128;
        i = i + 1;
    }
    assert(values@.take(i as int) =~= values@);
    acc
}

/// Computes the jitter of the values.
pub fn mean_jump(values: &Vec<u64>) -> (r: Ratio)
    ensures
        r == jitter_of(values@),
        values@.len() >= 2 ==> r.num == jumps(values@) && r.den == values@.len() - 1,
        r.valid(),
{
    if values.len() < 2 {
        return Ratio { num: 0, den: 1 };
    }
    Ratio { num: total_jumps(values), den: (values.len() - 1) as u64 }
}

/// A list has at most one least and one greatest value.
pub proof fn law_extremes_are_unique(values: Seq<u64>, a: u64, b: u64)
    ensures
        is_min(values, a) && is_min(values, b) ==> a == b,
        is_max(values, a) && is_max(values, b) ==> a == b,
{
}

/// The average lies between the least and the greatest value.
pub proof fn law_average_lies_between_the_extremes(values: Seq<u64>, lo: u64, hi: u64)
    requires
        is_min(values, lo),
        is_max(values, hi),
    ensures
        lo * values.len() <= sum(values) <= hi * values.len(),
{
    lemma_sum_bounds(values, lo, hi);
}

/// A sum lies between the multiples of a lower and an upper bound of the values.
proof fn lemma_sum_bounds(values: Seq<u64>, lo: u64, hi: u64)
    requires
        forall|i: int| 0 <= i < values.len() ==> lo <= #[trigger] values[i] <= hi,
    ensures
        lo * values.len() <= sum(values) <= hi * values.len(),
    decreases values.len(),
{
    if values.len() > 0 {
        lemma_sum_bounds(values.drop_last(), lo, hi);
        let n = values.drop_last().len() as int;
        assert(lo * (n + 1) == lo * n + lo) by (nonlinear_arith);
        assert(hi * (n + 1) == hi * n + hi) by (nonlinear_arith);
    }
}

/// Equal measurements have no jumps, and the jumps between measurements within a range of width
/// `hi - lo` are no larger than it.
pub proof fn law_jumps_are_bounded(values: Seq<u64>, lo: u64, hi: u64)
    requires
        values.len() > 0,
        forall|i: int| 0 <= i < values.len() ==> lo <= #[trigger] values[i] <= hi,
    ensures
        jumps(values) <= (hi - lo) * (values.len() - 1),
    decreases values.len(),
{
    if values.len() >= 2 {
        law_jumps_are_bounded(values.drop_last(), lo, hi);
        let n = values.drop_last().len() as int;
        assert((hi - lo) * (n - 1) + (hi - lo) == (hi - lo) * n) by (nonlinear_arith);
        assert(lo <= values[values.len() - 2] <= hi);
    } else {
        assert((hi - lo) * 0 == 0);
        assert(lo <= values[0] <= hi);
    }
}

/// Sums add up: the sum of two lists together is the sum of their sums, and the sum of a single
/// value is the value.
pub proof fn law_sums_add_up(a: Seq<u64>, b: Seq<u64>, x: u64)
    ensures
        sum(Seq::<u64>::empty()) == 0,
        sum(seq![x]) == x,
        sum(a + b) == sum(a) + sum(b),
    decreases b.len(),
{
    assert(seq![x].drop_last() =~= Seq::<u64>::empty());
    if b.len() > 0 {
        law_sums_add_up(a, b.drop_last(), x);
        assert((a + b).drop_last() =~= a + b.drop_last());
    } else {
        assert(a + b =~= a);
    }
}

/// Jumps add up: those of two lists together are those of either, and the jump from the last
/// value of the first to the first value of the second. A single value has none.
pub proof fn law_jumps_add_up(a: Seq<u64>, b: Seq<u64>, x: u64)
    requires
        a.len() > 0,
        b.len() > 0,
    ensures
        jumps(Seq::<u64>::empty()) == 0,
        jumps(seq![x]) == 0,
        jumps(a + b) == jumps(a) + jumps(b) + if a[a.len() - 1] <= b[0] {
            b[0] - a[a.len() - 1]
        } else {
            a[a.len() - 1] - b[0]
        },
    decreases b.len(),
{
    let joined = a + b;
    assert(joined.drop_last() =~= a + b.drop_last());
    if b.len() == 1 {
        assert(a + b.drop_last() =~= a);
        assert(joined[joined.len() - 2] == a[a.len() - 1]);
    } else {
        law_jumps_add_up(a, b.drop_last(), x);
        assert(joined[joined.len() - 2] == b[b.len() - 2]);
        assert(joined.last() == b.last());
    }
}

/// A list of values has a least and a greatest one exactly where it is not empty. Each of them is
/// one of the values, and no value lies beyond it.
pub proof fn law_extremes_are_attained_bounds(values: Seq<u64>)
    ensures
        min_of(values) is Some <==> values.len() > 0,
        max_of(values) is Some <==> values.len() > 0,
        min_of(values) matches Some(lo) ==> {
            &&& exists|i: int| 0 <= i < values.len() && #[trigger] values[i] == lo
            &&& forall|i: int| 0 <= i < values.len() ==> lo <= #[trigger] values[i]
        },
        max_of(values) matches Some(hi) ==> {
            &&& exists|i: int| 0 <= i < values.len() && #[trigger] values[i] == hi
            &&& forall|i: int| 0 <= i < values.len() ==> #[trigger] values[i] <= hi
        },
{
    if values.len() > 0 {
        let (lo, hi) = lemma_extremes_exist(values);
        assert(is_min(values, lo));
        assert(is_max(values, hi));
        assert(is_min(values, min_of(values)->0));
        assert(is_max(values, max_of(values)->0));
    }
}

/// A list that is not empty has a least and a greatest value.
proof fn lemma_extremes_exist(values: Seq<u64>) -> (r: (u64, u64))
    requires
        values.len() > 0,
    ensures
        is_min(values, r.0),
        is_max(values, r.1),
    decreases values.len(),
{
    let last = values.last();
    assert(values[values.len() - 1] == last);
    if values.len() == 1 {
        (last, last)
    } else {
        let shorter = values.drop_last();
        let (lo, hi) = lemma_extremes_exist(shorter);
        let i = choose|i: int| 0 <= i < shorter.len() && shorter[i] == lo;
        let j = choose|j: int| 0 <= j < shorter.len() && shorter[j] == hi;
        assert(values[i] == lo && values[j] == hi);
        assert forall|k: int| 0 <= k < shorter.len() implies lo <= #[trigger] values[k] <= hi by {
            assert(shorter[k] == values[k]);
        }
        (
            if last < lo {
                last
            } else {
                lo
            },
            if last > hi {
                last
            } else {
                hi
            },
        )
    }
}

/// The jitter of at least two values, times one less than their number, is the sum of the
/// distances between neighbours; fewer values have none.
pub proof fn law_jitter_is_the_mean_jump(values: Seq<u64>)
    requires
        values.len() <= u64::MAX,
    ensures
        values.len() < 2 ==> jitter_of(values).num == 0,
        jitter_of(values).den > 0,
        values.len() >= 2 ==> jitter_of(values).num * (values.len() - 1) == jumps(values)
            * jitter_of(values).den,
{
    if values.len() >= 2 {
        law_jumps_are_bounded(values, 0, u64::MAX);
        let n = values.len() - 1;
        assert((u64::MAX - 0) * n <= u64::MAX * u64::MAX) by (nonlinear_arith)
            requires
                0 <= n <= u64::MAX,
        ;
        assert(jitter_of(values).num == jumps(values));
    }
}

/// A sum is at most as large as so many times the largest number.
pub proof fn law_sum_is_bounded(values: Seq<u64>)
    ensures
        sum(values) <= u64::MAX * values.len(),
{
    lemma_sum_bounds(values, 0, u64::MAX);
}

} // verus!
