//! How measured values spread: percentiles by nearest rank, the largest value and whose it was.

use vstd::prelude::*;
use crate::sort;
use crate::sort::{Ranked, Sample};

verus! {

/// The nearest rank of a percentage among `n` values, counted from one.
pub open spec fn rank(n: nat, percent: nat) -> int {
    (n * percent + 99) as int / 100
}

/// The value at a percentage.
pub open spec fn percentile(samples: Seq<Sample>, percent: nat) -> u64 {
    sort::sorted(samples)[rank(samples.len(), percent) - 1].value
}

/// The sum of all values.
pub open spec fn total(samples: Seq<Sample>) -> nat
    decreases samples.len(),
{
    if samples.len() == 0 {
        0
    } else {
        total(samples.drop_last()) + samples.last().value as nat
    }
}

/// How values spread. Without values there is nothing but the count and the sum.
#[derive(Clone, Copy, Debug, PartialEq, Eq, Structural)]
pub struct Distribution {
    pub count: usize,
    pub p50: Option<u64>,
    pub p95: Option<u64>,
    pub max: Option<u64>,
    pub max_guid: Option<u64>,
    pub total: u64,
}

/// How values spread.
pub open spec fn spread(samples: Seq<Sample>) -> Distribution {
    if samples.len() == 0 {
        Distribution { count: 0, p50: None, p95: None, max: None, max_guid: None, total: 0 }
    } else {
        Distribution {
            count: samples.len() as usize,
            p50: Some(percentile(samples, 50)),
            p95: Some(percentile(samples, 95)),
            max: Some(sort::sorted(samples).last().value),
            max_guid: Some(sort::sorted(samples).last().guid),
            total: total(samples) as u64,
        }
    }
}

pub(crate) fn rank_of(n: usize, percent: usize) -> (r: usize)
    requires
        n > 0,
        0 < percent <= 100,
    ensures
        r == rank(n as nat, percent as nat),
        1 <= r <= n,
{
    proof {
        assert(n * percent <= n * 100) by (nonlinear_arith)
            requires
                0 < percent <= 100,
        ;
        assert(n * percent >= n) by (nonlinear_arith)
            requires
                0 < percent <= 100,
        ;
        assert(n * 100 <= 0xffff_ffff_ffff_ffff * 100);
    }
    ((n as u128 * percent as u128 + 99) / 100) as usize
}

/// How values spread.
pub fn distribution(samples: &Vec<Sample>) -> (d: Distribution)
    requires
        total(samples@) <= u64::MAX,
    ensures
        d == spread(samples@),
{
    if samples.len() == 0 {
        return Distribution {
            count: 0,
            p50: None,
            p95: None,
            max: None,
            max_guid: None,
            total: 0,
        };
    }
    let sorted: Vec<Sample> = sort::sort(samples);
    proof {
        sort::lemma_sorted_ensures(samples@);
    }
    let mut sum: u64 = 0;
    assert(samples@.take(0) =~= Seq::<Sample>::empty());
    for i in 0..samples.len()
        invariant
            total(samples@) <= u64::MAX,
            sum == total(samples@.take(i as int)),
    {
        proof {
            assert(samples@.take(i + 1).drop_last() =~= samples@.take(i as int));
            lemma_total_grows(samples@, i + 1);
        }
        sum = sum + samples[i].value;
    }
    assert(samples@.take(samples@.len() as int) =~= samples@);
    let n: usize = sorted.len();
    Distribution {
        count: n,
        p50: Some(sorted[rank_of(n, 50) - 1].value),
        p95: Some(sorted[rank_of(n, 95) - 1].value),
        max: Some(sorted[n - 1].value),
        max_guid: Some(sorted[n - 1].guid),
        total: sum,
    }
}

proof fn lemma_total_grows(samples: Seq<Sample>, n: int)
    requires
        0 <= n <= samples.len(),
    ensures
        total(samples.take(n)) <= total(samples),
    decreases samples.len() - n,
{
    if n == samples.len() {
        assert(samples.take(n) =~= samples);
    } else {
        lemma_total_grows(samples, n + 1);
        assert(samples.take(n + 1).drop_last() =~= samples.take(n));
    }
}

/// A rank lies among the values.
proof fn lemma_rank(n: nat, percent: nat)
    requires
        n > 0,
        0 < percent <= 100,
    ensures
        1 <= rank(n, percent) <= n,
{
    assert(n * percent <= n * 100) by (nonlinear_arith)
        requires
            0 < percent <= 100,
    ;
    assert(n * percent >= n) by (nonlinear_arith)
        requires
            0 < percent <= 100,
    ;
}

/// In ascending order, what stands earlier is no larger.
proof fn lemma_ascends(q: Seq<Sample>, i: int, j: int)
    requires
        sort::in_order(q),
        0 <= i < j < q.len(),
    ensures
        q[i].leq(q[j]),
{
    let leq = |a: Sample, b: Sample| a.leq(b);
    assert(vstd::relations::sorted_by(q, leq));
    assert(leq(q[i], q[j]));
}

/// A percentile is one of the measured values, and no larger than the largest.
pub proof fn a_percentile_was_measured(samples: Seq<Sample>, percent: nat)
    requires
        samples.len() > 0,
        0 < percent <= 100,
    ensures
        exists|i: int|
            0 <= i < samples.len() && (#[trigger] samples[i]).value == percentile(samples, percent),
        percentile(samples, percent) <= sort::sorted(samples).last().value,
{
    sort::lemma_sorted_ensures(samples);
    lemma_rank(samples.len(), percent);
    let q = sort::sorted(samples);
    let x = q[rank(samples.len(), percent) - 1];
    assert(q.contains(x));
    assert(samples.contains(x));
    let i = choose|i: int| 0 <= i < samples.len() && samples[i] == x;
    assert(samples[i].value == percentile(samples, percent));
    if rank(samples.len(), percent) - 1 < q.len() - 1 {
        lemma_ascends(q, rank(samples.len(), percent) - 1, q.len() - 1);
    }
}

/// A larger percentage never has a smaller percentile.
pub proof fn percentiles_ascend(samples: Seq<Sample>, a: nat, b: nat)
    requires
        samples.len() > 0,
        0 < a <= b <= 100,
    ensures
        percentile(samples, a) <= percentile(samples, b),
{
    sort::lemma_sorted_ensures(samples);
    lemma_rank(samples.len(), a);
    lemma_rank(samples.len(), b);
    let n = samples.len();
    assert(n * a <= n * b) by (nonlinear_arith)
        requires
            a <= b,
    ;
    let q = sort::sorted(samples);
    let i = rank(n, a) - 1;
    let j = rank(n, b) - 1;
    assert(i <= j);
    if i < j {
        lemma_ascends(q, i, j);
    }
}

/// The largest value is at least every other, and among equals the largest guid is named.
pub proof fn the_maximum_is_largest(samples: Seq<Sample>, i: int)
    requires
        0 <= i < samples.len(),
    ensures
        samples[i].leq(sort::sorted(samples).last()),
        samples.contains(sort::sorted(samples).last()),
{
    sort::lemma_sorted_ensures(samples);
    let q = sort::sorted(samples);
    assert(samples.contains(samples[i]));
    assert(q.contains(samples[i]));
    let j = choose|j: int| 0 <= j < q.len() && q[j] == samples[i];
    if j < q.len() - 1 {
        lemma_ascends(q, j, q.len() - 1);
    }
    assert(q.contains(q.last()));
}

// ------------------------------------------------------------------------------------------
//  What a percentile says of the values
// ------------------------------------------------------------------------------------------

/// A value is the one at a percentage of samples: at least so many of them are no larger, and
/// fewer are smaller.
pub open spec fn is_nearest(samples: Seq<Sample>, percent: nat, x: u64) -> bool {
    &&& exists|i: int| 0 <= i < samples.len() && (#[trigger] samples[i]).value == x
    &&& 100 * sort::number_of(samples, |s: Sample| s.value <= x) >= samples.len() * percent
    &&& 100 * sort::number_of(samples, |s: Sample| s.value < x) < samples.len() * percent
}

proof fn lemma_nearest(samples: Seq<Sample>, percent: nat)
    requires
        samples.len() > 0,
        0 < percent <= 100,
    ensures
        is_nearest(samples, percent, percentile(samples, percent)),
{
    let q = sort::sorted(samples);
    sort::lemma_sorted_ensures(samples);
    lemma_rank(samples.len(), percent);
    a_percentile_was_measured(samples, percent);
    let r = rank(samples.len(), percent);
    let x = q[r - 1].value;
    let upto = |s: Sample| s.value <= x;
    let under = |s: Sample| s.value < x;
    sort::lemma_number_of_any_order(q, samples, upto);
    sort::lemma_number_of_any_order(q, samples, under);
    assert forall|k: int| 0 <= k < r implies upto(#[trigger] q[k]) by {
        if k < r - 1 {
            sort::values_ascend(Seq::empty(), samples, k, r - 1);
        }
    }
    assert forall|k: int| r - 1 <= k < q.len() implies !under(#[trigger] q[k]) by {
        if k > r - 1 {
            sort::values_ascend(Seq::empty(), samples, r - 1, k);
        }
    }
    sort::lemma_number_of_first(q, r, upto);
    sort::lemma_number_of_first(q, r - 1, under);
}

/// How values spread: how many there are, the values at a half and at ninety-five in a hundred of
/// them, the largest, and the largest of the characters that it was measured on.
pub proof fn a_spread_says_what_its_values_are(samples: Seq<Sample>)
    requires
        0 < samples.len() <= usize::MAX,
    ensures
        spread(samples).count == samples.len(),
        spread(samples).p50 matches Some(x) && is_nearest(samples, 50, x),
        spread(samples).p95 matches Some(x) && is_nearest(samples, 95, x),
        spread(samples).max matches Some(x) && (spread(samples).max_guid matches Some(g)
            && samples.contains(Sample { value: x, guid: g }) && forall|i: int|
            0 <= i < samples.len() ==> (#[trigger] samples[i]).value < x || (samples[i].value == x
                && samples[i].guid <= g)),
{
    lemma_nearest(samples, 50);
    lemma_nearest(samples, 95);
    sort::lemma_sorted_ensures(samples);
    let q = sort::sorted(samples);
    assert(q.contains(q.last()));
    assert(q.last() == (Sample { value: q.last().value, guid: q.last().guid }));
    assert forall|i: int| 0 <= i < samples.len() implies (#[trigger] samples[i]).value
        < q.last().value || (samples[i].value == q.last().value && samples[i].guid
        <= q.last().guid) by {
        assert(samples.contains(samples[i]));
        assert(q.contains(samples[i]));
        let k = choose|k: int| 0 <= k < q.len() && q[k] == samples[i];
        if k < q.len() - 1 {
            sort::values_ascend(Seq::empty(), samples, k, q.len() - 1);
        }
    }
}

/// One more value makes one more, and adds just itself to the sum.
pub proof fn a_value_adds_itself(samples: Seq<Sample>, s: Sample)
    requires
        samples.len() < usize::MAX,
        total(samples) + s.value <= u64::MAX,
    ensures
        spread(samples.push(s)).count == spread(samples).count + 1,
        spread(samples.push(s)).total == spread(samples).total + s.value,
        spread(Seq::<Sample>::empty()) == (Distribution {
            count: 0,
            p50: None,
            p95: None,
            max: None,
            max_guid: None,
            total: 0,
        }),
{
    assert(samples.push(s).drop_last() =~= samples);
}

} // verus!
