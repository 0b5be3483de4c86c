//! Ordered collections keyed by 64-bit numbers: what it means to walk one in ascending order.

use crate::sort;
use crate::sort::Ranked;
use std::collections::BTreeMap;
use vstd::prelude::*;

verus! {

broadcast use {vstd::std_specs::btree::group_btree_axioms, vstd::laws_cmp::group_laws_cmp};

/// Each number is greater than the one before it.
pub open spec fn increasing(q: Seq<u64>) -> bool {
    forall|i: int, j: int| 0 <= i < j < q.len() ==> q[i] < q[j]
}

/// `q` lists the numbers of `s`, each once, in ascending order.
pub open spec fn lists(q: Seq<u64>, s: Set<u64>) -> bool {
    &&& increasing(q)
    &&& forall|k: u64| q.contains(k) <==> s.contains(k)
}

/// The numbers of `s` in ascending order.
pub open spec fn ascending(s: Set<u64>) -> Seq<u64> {
    choose|q: Seq<u64>| lists(q, s)
}

proof fn lemma_lists_prefix(a: Seq<u64>, b: Seq<u64>, s: Set<u64>, i: int)
    requires
        lists(a, s),
        lists(b, s),
        0 <= i < a.len(),
        i < b.len(),
    ensures
        a[i] == b[i],
    decreases i,
{
    assert forall|k: int| 0 <= k < i implies a[k] == b[k] by {
        lemma_lists_prefix(a, b, s, k);
    }
    assert(b.contains(a[i])) by {
        assert(a.contains(a[i]));
        assert(s.contains(a[i]));
    }
    assert(a.contains(b[i])) by {
        assert(b.contains(b[i]));
        assert(s.contains(b[i]));
    }
    let j = choose|j: int| 0 <= j < b.len() && b[j] == a[i];
    let l = choose|l: int| 0 <= l < a.len() && a[l] == b[i];
    if j < i {
        assert(a[j] == b[j]);
    }
    if l < i {
        assert(a[l] == b[l]);
    }
}

proof fn lemma_lists_length(a: Seq<u64>, b: Seq<u64>, s: Set<u64>)
    requires
        lists(a, s),
        lists(b, s),
    ensures
        a.len() <= b.len(),
{
    if a.len() > b.len() {
        let x = a[b.len() as int];
        assert(a.contains(x));
        assert(s.contains(x));
        assert(b.contains(x));
        let j = choose|j: int| 0 <= j < b.len() && b[j] == x;
        lemma_lists_prefix(a, b, s, j);
    }
}

/// There is only one way to list a set in ascending order.
pub proof fn lemma_lists_unique(a: Seq<u64>, b: Seq<u64>, s: Set<u64>)
    requires
        lists(a, s),
        lists(b, s),
    ensures
        a == b,
{
    lemma_lists_length(a, b, s);
    lemma_lists_length(b, a, s);
    assert forall|i: int| 0 <= i < a.len() implies a[i] == b[i] by {
        lemma_lists_prefix(a, b, s, i);
    }
    assert(a =~= b);
}

/// A list of a set in ascending order is `ascending` of it.
pub proof fn lemma_ascending(q: Seq<u64>, s: Set<u64>)
    requires
        lists(q, s),
    ensures
        q == ascending(s),
        lists(ascending(s), s),
{
    lemma_lists_unique(q, ascending(s), s);
}

/// Every finite set can be listed in ascending order.
pub proof fn lemma_ascending_exists(s: Set<u64>)
    requires
        s.finite(),
    ensures
        lists(ascending(s), s),
        ascending(s).len() == s.len(),
    decreases s.len(),
{
    broadcast use vstd::seq_lib::group_to_multiset_ensures;
    broadcast use vstd::set_lib::group_set_lib_default;

    let q = s.to_seq();
    lemma_to_seq(s);
    sort::lemma_sorted_ensures(q);
    let r = sort::sorted(q);
    let leq = |a: u64, b: u64| a.leq(b);
    assert forall|i: int, j: int| 0 <= i < j < r.len() implies r[i] < r[j] by {
        assert(leq(r[i], r[j]));
        if r[i] == r[j] {
            q.lemma_multiset_has_no_duplicates();
            r.lemma_multiset_has_no_duplicates_conv();
        }
    }
    assert(lists(r, s));
    lemma_ascending(r, s);
}

proof fn lemma_to_seq(s: Set<u64>)
    requires
        s.finite(),
    ensures
        s.to_seq().no_duplicates(),
        s.to_seq().len() == s.len(),
        forall|k: u64| s.to_seq().contains(k) <==> s.contains(k),
    decreases s.len(),
{
    if s.len() == 0 {
        assert forall|k: u64| s.to_seq().contains(k) <==> s.contains(k) by {
            if s.contains(k) {
                vstd::set_lib::lemma_set_empty_equivalency_len(s);
            }
        }
    } else {
        vstd::set_lib::lemma_set_empty_equivalency_len(s);
        let x = s.choose();
        let rest = s.remove(x);
        lemma_to_seq(rest);
        let q = s.to_seq();
        assert(q == seq![x] + rest.to_seq());
        assert forall|k: u64| q.contains(k) <==> s.contains(k) by {
            if q.contains(k) {
                let i = choose|i: int| 0 <= i < q.len() && q[i] == k;
                if i > 0 {
                    assert(rest.to_seq()[i - 1] == k);
                    assert(rest.to_seq().contains(k));
                }
            }
            if s.contains(k) {
                if k == x {
                    assert(q[0] == k);
                } else {
                    assert(rest.to_seq().contains(k));
                    let i = choose|i: int| 0 <= i < rest.to_seq().len() && rest.to_seq()[i] == k;
                    assert(q[i + 1] == k);
                }
            }
        }
        assert forall|i: int, j: int| 0 <= i < j < q.len() implies q[i] != q[j] by {
            assert(rest.to_seq().contains(rest.to_seq()[j - 1]));
            if i > 0 {
                assert(q[i] == rest.to_seq()[i - 1]);
            }
        }
        assert(q.no_duplicates());
    }
}

/// The keys of a map in ascending order.
pub fn keys_of<V>(m: &BTreeMap<u64, V>) -> (keys: Vec<u64>)
    ensures
        keys@ == ascending(m@.dom()),
        lists(keys@, m@.dom()),
{
    let mut keys: Vec<u64> = Vec::new();
    let walk = m.iter();
    let ghost entries = vstd::std_specs::iter::IteratorSpec::remaining(&walk);
    assert(vstd::std_specs::btree::increasing_seq(
        entries.map_values(|kv: (&u64, &V)| *kv.0),
    ));
    for entry in it: walk
        invariant
            it.seq() == entries,
            keys@.len() == it.index(),
            forall|k: int| 0 <= k < keys@.len() ==> keys@[k] == *it.seq()[k].0,
    {
        keys.push(*entry.0);
    }
    proof {
        assert(keys@ =~= entries.map_values(|kv: (&u64, &V)| *kv.0));
        assert(vstd::laws_cmp::obeys_cmp::<u64>());
        assert(vstd::std_specs::btree::increasing_seq(keys@));
        assert forall|i: int, j: int| 0 <= i < j < keys@.len() implies keys@[i] < keys@[j] by {
            assert(vstd::std_specs::cmp::OrdSpec::cmp_spec(&keys@[i], &keys@[j]) is Less);
        }
        assert forall|k: u64| keys@.contains(k) <==> m@.dom().contains(k) by {
            if m@.contains_key(k) {
                assert(entries.contains((&k, &m@[k])));
                let i = choose|i: int| 0 <= i < entries.len() && entries[i] == (&k, &m@[k]);
                assert(keys@[i] == k);
            }
            if keys@.contains(k) {
                let i = choose|i: int| 0 <= i < keys@.len() && keys@[i] == k;
                assert(m@.contains_key(*entries[i].0));
            }
        }
        lemma_ascending(keys@, m@.dom());
    }
    keys
}

} // verus!
