//! Sorting by a total order.

use vstd::prelude::*;

verus! {

/// A type with a total order that says when one value may stand before another.
pub trait Ranked: Sized + Copy {
    /// `self` may stand before `other`.
    spec fn leq(self, other: Self) -> bool;

    /// The order is reflexive, antisymmetric, transitive and total.
    proof fn leq_is_total()
        ensures
            vstd::relations::total_ordering(|a: Self, b: Self| a.leq(b)),
    ;

    /// Whether `self` may stand before `other`.
    fn at_most(&self, other: &Self) -> (yes: bool)
        ensures
            yes == self.leq(*other),
    ;
}

/// `s` in ascending order.
pub open spec fn sorted<T: Ranked>(s: Seq<T>) -> Seq<T> {
    s.sort_by(|a: T, b: T| a.leq(b))
}

/// `q` is in ascending order.
pub open spec fn in_order<T: Ranked>(q: Seq<T>) -> bool {
    vstd::relations::sorted_by(q, |a: T, b: T| a.leq(b))
}

/// A rearrangement of `s` that is in ascending order is `sorted(s)`.
pub proof fn lemma_sorted<T: Ranked>(s: Seq<T>, q: Seq<T>)
    requires
        in_order(q),
        q.to_multiset() == s.to_multiset(),
    ensures
        q == sorted(s),
{
    let leq = |a: T, b: T| a.leq(b);
    T::leq_is_total();
    s.lemma_sort_by_ensures(leq);
    vstd::seq_lib::lemma_sorted_unique(q, s.sort_by(leq), leq);
}

/// `sorted(s)` is a rearrangement of `s` in ascending order.
pub proof fn lemma_sorted_ensures<T: Ranked>(s: Seq<T>)
    ensures
        in_order(sorted(s)),
        sorted(s).to_multiset() == s.to_multiset(),
        sorted(s).len() == s.len(),
        forall|x: T| sorted(s).contains(x) <==> s.contains(x),
{
    broadcast use vstd::seq_lib::group_to_multiset_ensures;

    T::leq_is_total();
    s.lemma_sort_by_ensures(|a: T, b: T| a.leq(b));
    let q = sorted(s);
    assert(q.to_multiset().len() == q.len());
    assert forall|x: T| q.contains(x) <==> s.contains(x) by {
        assert(q.contains(x) <==> q.to_multiset().count(x) > 0);
        assert(s.contains(x) <==> s.to_multiset().count(x) > 0);
    }
}

fn merge<T: Ranked>(a: &Vec<T>, b: &Vec<T>) -> (r: Vec<T>)
    requires
        in_order(a@),
        in_order(b@),
    ensures
        in_order(r@),
        r@.to_multiset() == a@.to_multiset().add(b@.to_multiset()),
{
    broadcast use vstd::seq_lib::group_to_multiset_ensures;
    broadcast use vstd::multiset::group_multiset_axioms;

    proof {
        T::leq_is_total();
    }
    let ghost leq = |x: T, y: T| x.leq(y);
    let mut r: Vec<T> = Vec::new();
    let mut i: usize = 0;
    let mut j: usize = 0;
    assert(a@.take(0) =~= Seq::<T>::empty());
    assert(b@.take(0) =~= Seq::<T>::empty());
    assert(r@.to_multiset() =~= a@.take(0).to_multiset().add(b@.take(0).to_multiset()));
    while i < a.len() || j < b.len()
        invariant
            i <= a@.len(),
            j <= b@.len(),
            in_order(a@),
            in_order(b@),
            in_order(r@),
            leq == (|x: T, y: T| x.leq(y)),
            vstd::relations::total_ordering(leq),
            forall|k: int, l: int|
                0 <= k < r@.len() && i <= l < a@.len() ==> (#[trigger] r@[k]).leq(
                    #[trigger] a@[l],
                ),
            forall|k: int, l: int|
                0 <= k < r@.len() && j <= l < b@.len() ==> (#[trigger] r@[k]).leq(
                    #[trigger] b@[l],
                ),
            r@.to_multiset() == a@.take(i as int).to_multiset().add(
                b@.take(j as int).to_multiset(),
            ),
        decreases a.len() - i + b.len() - j,
    {
        let ghost before = r@;
        let from_a = j == b.len() || (i < a.len() && a[i].at_most(&b[j]));
        if from_a {
            r.push(a[i]);
            proof {
                broadcast use vstd::seq_lib::group_to_multiset_ensures;
                broadcast use vstd::multiset::group_multiset_axioms;

                let x = a@[i as int];
                assert(a@.take(i as int).push(x) =~= a@.take(i as int + 1));
                assert forall|l: int| j <= l < b@.len() implies x.leq(#[trigger] b@[l]) by {
                    assert(leq(x, b@[j as int]));
                    assert(leq(b@[j as int], b@[l]));
                }
                assert forall|l: int| i < l < a@.len() implies x.leq(#[trigger] a@[l]) by {
                    assert(leq(x, a@[l]));
                }
                assert forall|k: int, l: int| 0 <= k < l < r@.len() implies leq(r@[k], r@[l]) by {
                    if l < before.len() {
                        assert(leq(before[k], before[l]));
                    } else {
                        assert(before[k].leq(a@[i as int]));
                    }
                }
                assert(r@.to_multiset() =~= a@.take(i as int + 1).to_multiset().add(
                    b@.take(j as int).to_multiset(),
                ));
            }
            i = i + 1;
        } else {
            r.push(b[j]);
            proof {
                broadcast use vstd::seq_lib::group_to_multiset_ensures;
                broadcast use vstd::multiset::group_multiset_axioms;

                let x = b@[j as int];
                assert(b@.take(j as int).push(x) =~= b@.take(j as int + 1));
                assert forall|l: int| i <= l < a@.len() implies x.leq(#[trigger] a@[l]) by {
                    assert(leq(x, a@[i as int]) || leq(a@[i as int], x));
                    assert(leq(x, a@[i as int]));
                    assert(leq(a@[i as int], a@[l]));
                }
                assert forall|l: int| j < l < b@.len() implies x.leq(#[trigger] b@[l]) by {
                    assert(leq(x, b@[l]));
                }
                assert forall|k: int, l: int| 0 <= k < l < r@.len() implies leq(r@[k], r@[l]) by {
                    if l < before.len() {
                        assert(leq(before[k], before[l]));
                    } else {
                        assert(before[k].leq(b@[j as int]));
                    }
                }
                assert(r@.to_multiset() =~= a@.take(i as int).to_multiset().add(
                    b@.take(j as int + 1).to_multiset(),
                ));
            }
            j = j + 1;
        }
    }
    assert(a@.take(a@.len() as int) =~= a@);
    assert(b@.take(b@.len() as int) =~= b@);
    r
}

fn sort_range<T: Ranked>(v: &Vec<T>, from: usize, to: usize) -> (r: Vec<T>)
    requires
        from <= to <= v@.len(),
    ensures
        in_order(r@),
        r@.to_multiset() == v@.subrange(from as int, to as int).to_multiset(),
    decreases to - from,
{
    proof {
        T::leq_is_total();
    }
    if to - from <= 1 {
        let mut r: Vec<T> = Vec::new();
        if from < to {
            r.push(v[from]);
        }
        assert(r@ =~= v@.subrange(from as int, to as int));
        let ghost leq = |x: T, y: T| x.leq(y);
        assert forall|k: int, l: int| 0 <= k < l < r@.len() implies leq(r@[k], r@[l]) by {}
        r
    } else {
        let mid: usize = from + (to - from) / 2;
        let a = sort_range(v, from, mid);
        let b = sort_range(v, mid, to);
        proof {
            let l = v@.subrange(from as int, mid as int);
            let h = v@.subrange(mid as int, to as int);
            assert(l + h =~= v@.subrange(from as int, to as int));
            vstd::seq_lib::lemma_multiset_commutative(l, h);
        }
        merge(&a, &b)
    }
}

/// `v` in ascending order.
pub fn sort<T: Ranked>(v: &Vec<T>) -> (r: Vec<T>)
    ensures
        r@ == sorted(v@),
{
    let r = sort_range(v, 0, v.len());
    proof {
        assert(v@.subrange(0, v@.len() as int) =~= v@);
        lemma_sorted(v@, r@);
    }
    r
}

impl Ranked for u32 {
    open spec fn leq(self, other: u32) -> bool {
        self <= other
    }

    proof fn leq_is_total() {
    }

    fn at_most(&self, other: &u32) -> (yes: bool) {
        *self <= *other
    }
}

impl Ranked for u64 {
    open spec fn leq(self, other: u64) -> bool {
        self <= other
    }

    proof fn leq_is_total() {
    }

    fn at_most(&self, other: &u64) -> (yes: bool) {
        *self <= *other
    }
}

/// A measured value and the character it was measured on.
#[derive(Debug, Clone, Copy, PartialEq, Eq, Structural)]
pub struct Sample {
    pub value: u64,
    pub guid: u64,
}

impl Ranked for Sample {
    open spec fn leq(self, other: Sample) -> bool {
        self.value < other.value || (self.value == other.value && self.guid <= other.guid)
    }

    proof fn leq_is_total() {
    }

    fn at_most(&self, other: &Sample) -> (yes: bool) {
        self.value < other.value || (self.value == other.value && self.guid <= other.guid)
    }
}

// ------------------------------------------------------------------------------------------
//  How many are like that
// ------------------------------------------------------------------------------------------

/// How many of some values are like that.
pub open spec fn number_of<T>(s: Seq<T>, like: spec_fn(T) -> bool) -> nat
    decreases s.len(),
{
    if s.len() == 0 {
        0
    } else {
        number_of(s.drop_last(), like) + if like(s.last()) {
            1nat
        } else {
            0nat
        }
    }
}

proof fn lemma_number_without<T>(s: Seq<T>, i: int, like: spec_fn(T) -> bool)
    requires
        0 <= i < s.len(),
    ensures
        number_of(s, like) == number_of(s.remove(i), like) + if like(s[i]) {
            1nat
        } else {
            0nat
        },
    decreases s.len(),
{
    if i == s.len() - 1 {
        assert(s.remove(i) =~= s.drop_last());
    } else {
        lemma_number_without(s.drop_last(), i, like);
        assert(s.remove(i).drop_last() =~= s.drop_last().remove(i));
        assert(s.remove(i).last() == s.last());
    }
}

/// How many are like that does not depend on the order.
pub proof fn lemma_number_of_any_order<T>(a: Seq<T>, b: Seq<T>, like: spec_fn(T) -> bool)
    requires
        a.to_multiset() == b.to_multiset(),
    ensures
        number_of(a, like) == number_of(b, like),
    decreases a.len(),
{
    broadcast use vstd::seq_lib::group_to_multiset_ensures;

    assert(a.to_multiset().len() == a.len());
    assert(b.to_multiset().len() == b.len());
    if a.len() > 0 {
        let x = a.last();
        assert(a.contains(x));
        assert(b.to_multiset().count(x) > 0);
        assert(b.contains(x));
        let j = choose|j: int| 0 <= j < b.len() && b[j] == x;
        assert(a.drop_last() =~= a.remove(a.len() - 1));
        assert(a.drop_last().to_multiset() =~= b.remove(j).to_multiset());
        lemma_number_of_any_order(a.drop_last(), b.remove(j), like);
        lemma_number_without(b, j, like);
    }
}

/// Where the first values are like that and the others are not, so many are.
pub proof fn lemma_number_of_first<T>(s: Seq<T>, n: int, like: spec_fn(T) -> bool)
    requires
        0 <= n <= s.len(),
    ensures
        (forall|k: int| 0 <= k < n ==> like(#[trigger] s[k])) ==> number_of(s, like) >= n,
        (forall|k: int| n <= k < s.len() ==> !like(#[trigger] s[k])) ==> number_of(s, like) <= n,
    decreases s.len(),
{
    if s.len() > 0 {
        let rest = s.drop_last();
        let m = if n == s.len() {
            n - 1
        } else {
            n
        };
        lemma_number_of_first(rest, m, like);
        if forall|k: int| 0 <= k < n ==> like(#[trigger] s[k]) {
            assert forall|k: int| 0 <= k < m implies like(#[trigger] rest[k]) by {
                assert(rest[k] == s[k]);
            }
            if n == s.len() {
                assert(like(s[n - 1]));
            }
        }
        if forall|k: int| n <= k < s.len() ==> !like(#[trigger] s[k]) {
            assert forall|k: int| m <= k < rest.len() implies !like(#[trigger] rest[k]) by {
                assert(rest[k] == s[k]);
            }
            if n < s.len() {
                assert(!like(s[s.len() - 1]));
            }
        }
    }
}

/// The smallest value stands first: numbers ascend, and so do samples by their value and, where
/// that is the same, by the character.
pub proof fn values_ascend(numbers: Seq<u32>, samples: Seq<Sample>, i: int, j: int)
    requires
        0 <= i < j,
    ensures
        j < numbers.len() ==> sorted(numbers)[i] <= sorted(numbers)[j],
        j < samples.len() ==> {
            let (a, b) = (sorted(samples)[i], sorted(samples)[j]);
            a.value < b.value || (a.value == b.value && a.guid <= b.guid)
        },
{
    lemma_sorted_ensures(numbers);
    lemma_sorted_ensures(samples);
    if j < numbers.len() {
        let leq = |a: u32, b: u32| a.leq(b);
        assert(leq(sorted(numbers)[i], sorted(numbers)[j]));
    }
    if j < samples.len() {
        let leq = |a: Sample, b: Sample| a.leq(b);
        assert(leq(sorted(samples)[i], sorted(samples)[j]));
    }
}

} // verus!
