//! What a window of samples says about latency.

use vstd::prelude::*;
use crate::number;
use crate::sort;
use crate::sort::Ranked;

verus! {

/// The nearest rank of a percentage among `n` values, counted from one and kept among them.
pub open spec fn rank(n: nat, percent: nat) -> int {
    let r = (n * percent + 99) as int / 100;
    if r < 1 {
        1
    } else if r > n {
        n as int
    } else {
        r
    }
}

/// The value at a percentage of values in order; zero where there is none.
pub open spec fn at_percent(ordered: Seq<u32>, percent: nat) -> u32 {
    if ordered.len() == 0 {
        0
    } else {
        ordered[rank(ordered.len(), percent) - 1]
    }
}

/// The value at a percentage of values in order; zero where there is none.
pub fn percentile(ordered: &[u32], percent: u8) -> (v: u32)
    ensures
        v == at_percent(ordered@, percent as nat),
{
    let n: usize = ordered.len();
    if n == 0 {
        return 0;
    }
    proof {
        assert(n * percent <= 0xffff_ffff_ffff_ffff * 255) by (nonlinear_arith)
            requires
                0 <= n <= 0xffff_ffff_ffff_ffff,
                0 <= percent <= 255,
        ;
    }
    let r: u128 = (n as u128 * percent as u128 + 99) / 100;
    let at: usize = if r < 1 {
        1
    } else if r > n as u128 {
        n
    } else {
        r as usize
    };
    ordered[at - 1]
}

/// The sum of some values.
pub open spec fn sum(values: Seq<u32>) -> nat
    decreases values.len(),
{
    if values.len() == 0 {
        0
    } else {
        sum(values.drop_last()) + values.last() as nat
    }
}

/// The latency of one window. The mean is the total divided by the number of samples.
#[derive(Clone, Copy, Debug, PartialEq, Eq, Structural)]
pub struct Latency {
    pub samples: usize,
    pub p50_ms: u32,
    pub p95_ms: u32,
    pub p99_ms: u32,
    pub max_ms: u32,
    pub total_ms: u64,
}

/// The latency of some samples.
pub open spec fn latency_of(v: Seq<u32>) -> Latency {
    let s = sort::sorted(v);
    Latency {
        samples: v.len() as usize,
        p50_ms: at_percent(s, 50),
        p95_ms: at_percent(s, 95),
        p99_ms: at_percent(s, 99),
        max_ms: if v.len() == 0 {
            0
        } else {
            s.last()
        },
        total_ms: sum(v) as u64,
    }
}

proof fn lemma_sum_grows(v: Seq<u32>, n: int)
    requires
        0 <= n <= v.len(),
    ensures
        sum(v.take(n)) <= sum(v),
    decreases v.len() - n,
{
    if n == v.len() {
        assert(v.take(n) =~= v);
    } else {
        lemma_sum_grows(v, n + 1);
        assert(v.take(n + 1).drop_last() =~= v.take(n));
    }
}

impl Latency {
    /// The latency of some samples, in any order.
    pub fn from_samples(v: &Vec<u32>) -> (l: Latency)
        requires
            sum(v@) <= u64::MAX,
        ensures
            l == latency_of(v@),
    {
        let s: Vec<u32> = sort::sort(v);
        proof {
            sort::lemma_sorted_ensures(v@);
        }
        let mut total: u64 = 0;
        assert(v@.take(0) =~= Seq::<u32>::empty());
        for i in 0..v.len()
            invariant
                sum(v@) <= u64::MAX,
                total == sum(v@.take(i as int)),
        {
            proof {
                assert(v@.take(i + 1).drop_last() =~= v@.take(i as int));
                lemma_sum_grows(v@, i + 1);
            }
            total = total + v[i] as u64;
        }
        assert(v@.take(v@.len() as int) =~= v@);
        let n: usize = s.len();
        let max_ms: u32 = if n == 0 {
            0
        } else {
            s[n - 1]
        };
        Latency {
            samples: n,
            p50_ms: percentile(s.as_slice(), 50),
            p95_ms: percentile(s.as_slice(), 95),
            p99_ms: percentile(s.as_slice(), 99),
            max_ms,
            total_ms: total,
        }
    }

    /// A percentile as a report shows it: a dash where nothing was observed.
    pub open spec fn shown(self, value: u32) -> Seq<char> {
        if self.samples == 0 {
            "\u{2014}"@
        } else {
            number::decimal(value as nat)
        }
    }

    /// A percentile as a report shows it: a dash where nothing was observed.
    pub fn cell(&self, value: u32) -> (s: String)
        ensures
            s@ == self.shown(value),
    {
        if self.samples == 0 {
            "\u{2014}".to_owned()
        } else {
            number::decimal_text(value as u64)
        }
    }
}

/// A percentile of a window is one of its samples, and a larger percentage has no smaller one.
pub proof fn percentiles_are_samples(v: Seq<u32>, a: nat, b: nat)
    requires
        v.len() > 0,
        a <= b,
    ensures
        v.contains(at_percent(sort::sorted(v), a)),
        at_percent(sort::sorted(v), a) <= at_percent(sort::sorted(v), b),
{
    sort::lemma_sorted_ensures(v);
    let s = sort::sorted(v);
    let n = v.len();
    let i = rank(n, a) - 1;
    let j = rank(n, b) - 1;
    assert(s.contains(s[i]));
    assert(n * a <= n * b) by (nonlinear_arith)
        requires
            a <= b,
    ;
    assert(i <= j);
    if i < j {
        let leq = |x: u32, y: u32| x.leq(y);
        assert(vstd::relations::sorted_by(s, leq));
        assert(leq(s[i], s[j]));
    }
}

proof fn lemma_sum_without(v: Seq<u32>, i: int)
    requires
        0 <= i < v.len(),
    ensures
        sum(v) == sum(v.remove(i)) + v[i],
    decreases v.len(),
{
    if i == v.len() - 1 {
        assert(v.remove(i) =~= v.drop_last());
    } else {
        lemma_sum_without(v.drop_last(), i);
        assert(v.remove(i).drop_last() =~= v.drop_last().remove(i));
        assert(v.remove(i).last() == v.last());
    }
}

proof fn lemma_sum_of_any_order(a: Seq<u32>, b: Seq<u32>)
    requires
        a.to_multiset() == b.to_multiset(),
    ensures
        sum(a) == sum(b),
        a.len() == b.len(),
    decreases a.len(),
{
    broadcast use vstd::seq_lib::group_to_multiset_ensures;

    assert(a.to_multiset().len() == a.len());
    assert(b.to_multiset().len() == b.len());
    if a.len() > 0 {
        let x = a.last();
        assert(a.contains(x));
        assert(b.to_multiset().count(x) > 0);
        assert(b.contains(x));
        let j = choose|j: int| 0 <= j < b.len() && b[j] == x;
        assert(a.drop_last() =~= a.remove(a.len() - 1));
        assert(a.drop_last().to_multiset() =~= b.remove(j).to_multiset());
        lemma_sum_of_any_order(a.drop_last(), b.remove(j));
        lemma_sum_without(b, j);
    }
}

/// In which order the samples came makes no difference.
pub proof fn the_order_of_samples_does_not_matter(a: Seq<u32>, b: Seq<u32>)
    requires
        a.to_multiset() == b.to_multiset(),
    ensures
        latency_of(a) == latency_of(b),
{
    sort::lemma_sorted_ensures(a);
    sort::lemma_sorted(b, sort::sorted(a));
    lemma_sum_of_any_order(a, b);
}

/// A window without samples never shows as an excellent one.
pub proof fn an_empty_window_shows_no_number(l: Latency, value: u32)
    requires
        l.samples == 0,
    ensures
        l.shown(value) == "\u{2014}"@,
        l.shown(value) != number::decimal(0),
{
    reveal_strlit("\u{2014}");
    reveal_with_fuel(number::decimal, 2);
    assert(number::decimal(0)[0] == '0');
    assert("\u{2014}"@[0] == '\u{2014}');
}

// ------------------------------------------------------------------------------------------
//  What a percentile says of the samples
// ------------------------------------------------------------------------------------------

/// A value is the one at a percentage of samples: at least so many of them are no larger, and
/// fewer are smaller.
pub open spec fn is_nearest(v: Seq<u32>, percent: nat, x: u32) -> bool {
    &&& v.contains(x)
    &&& 100 * sort::number_of(v, |y: u32| y <= x) >= v.len() * percent
    &&& 100 * sort::number_of(v, |y: u32| y < x) < v.len() * percent
}

/// The nearest rank: so many values up to it make the percentage, and one fewer does not.
pub proof fn a_rank_is_the_nearest(n: nat, percent: nat)
    requires
        n > 0,
        0 < percent <= 100,
    ensures
        1 <= rank(n, percent) <= n,
        100 * rank(n, percent) >= n * percent,
        100 * (rank(n, percent) - 1) < n * percent,
{
    assert(n * percent <= n * 100) by (nonlinear_arith)
        requires
            percent <= 100,
    ;
    assert(n * percent >= n) by (nonlinear_arith)
        requires
            percent >= 1,
    ;
}

/// The value at a percentage of samples, in whatever order they came: at least so many of them are
/// no larger than it, and fewer are smaller.
pub proof fn a_percentile_divides_the_samples(v: Seq<u32>, percent: nat)
    requires
        v.len() > 0,
        0 < percent <= 100,
    ensures
        is_nearest(v, percent, at_percent(sort::sorted(v), percent)),
{
    let s = sort::sorted(v);
    sort::lemma_sorted_ensures(v);
    a_rank_is_the_nearest(v.len(), percent);
    let r = rank(v.len(), percent);
    let x = s[r - 1];
    assert(s.contains(x));
    let upto = |y: u32| y <= x;
    let under = |y: u32| y < x;
    sort::lemma_number_of_any_order(s, v, upto);
    sort::lemma_number_of_any_order(s, v, under);
    assert forall|k: int| 0 <= k < r implies upto(#[trigger] s[k]) by {
        if k < r - 1 {
            sort::values_ascend(v, Seq::empty(), k, r - 1);
        }
    }
    assert forall|k: int| r - 1 <= k < s.len() implies !under(#[trigger] s[k]) by {
        if k > r - 1 {
            sort::values_ascend(v, Seq::empty(), r - 1, k);
        }
    }
    sort::lemma_number_of_first(s, r, upto);
    sort::lemma_number_of_first(s, r - 1, under);
}

/// What a window says: how many samples it has, the values at a half, at ninety-five and at
/// ninety-nine in a hundred of them, the largest, and their sum.
pub proof fn a_window_says_what_its_samples_are(v: Seq<u32>)
    requires
        0 < v.len() <= usize::MAX,
    ensures
        latency_of(v).samples == v.len(),
        is_nearest(v, 50, latency_of(v).p50_ms),
        is_nearest(v, 95, latency_of(v).p95_ms),
        is_nearest(v, 99, latency_of(v).p99_ms),
        v.contains(latency_of(v).max_ms),
        forall|i: int| 0 <= i < v.len() ==> #[trigger] v[i] <= latency_of(v).max_ms,
{
    a_percentile_divides_the_samples(v, 50);
    a_percentile_divides_the_samples(v, 95);
    a_percentile_divides_the_samples(v, 99);
    sort::lemma_sorted_ensures(v);
    let s = sort::sorted(v);
    assert(s.contains(s.last()));
    assert forall|i: int| 0 <= i < v.len() implies #[trigger] v[i] <= s.last() by {
        assert(v.contains(v[i]));
        assert(s.contains(v[i]));
        let k = choose|k: int| 0 <= k < s.len() && s[k] == v[i];
        if k < s.len() - 1 {
            sort::values_ascend(v, Seq::empty(), k, s.len() - 1);
        }
    }
}

/// One more sample makes one more, and adds just its value to the sum.
pub proof fn a_sample_adds_its_value(v: Seq<u32>, x: u32)
    requires
        v.len() < usize::MAX,
        sum(v) + x <= u64::MAX,
    ensures
        latency_of(v.push(x)).samples == latency_of(v).samples + 1,
        latency_of(v.push(x)).total_ms == latency_of(v).total_ms + x,
        latency_of(Seq::<u32>::empty()).samples == 0,
        latency_of(Seq::<u32>::empty()).total_ms == 0,
{
    assert(v.push(x).drop_last() =~= v);
}

} // verus!
