//! The order of texts, and tables kept in that order.

use vstd::prelude::*;
use crate::text;

verus! {

/// `a` stands before `b` in the order of their characters.
pub open spec fn precedes(a: Seq<char>, b: Seq<char>) -> bool
    decreases a.len(),
{
    if b.len() == 0 {
        false
    } else if a.len() == 0 {
        true
    } else if a[0] != b[0] {
        a[0] < b[0]
    } else {
        precedes(a.skip(1), b.skip(1))
    }
}

/// No text precedes itself.
pub proof fn lemma_irreflexive(a: Seq<char>)
    ensures
        !precedes(a, a),
    decreases a.len(),
{
    if a.len() > 0 {
        lemma_irreflexive(a.skip(1));
    }
}

/// What precedes a text that precedes a third precedes the third.
pub proof fn lemma_transitive(a: Seq<char>, b: Seq<char>, c: Seq<char>)
    requires
        precedes(a, b),
        precedes(b, c),
    ensures
        precedes(a, c),
    decreases a.len(),
{
    if a.len() > 0 && a[0] == b[0] && b[0] == c[0] {
        lemma_transitive(a.skip(1), b.skip(1), c.skip(1));
    }
}

/// Two texts are the same, or one precedes the other.
pub proof fn lemma_total(a: Seq<char>, b: Seq<char>)
    ensures
        a == b || precedes(a, b) || precedes(b, a),
        !(precedes(a, b) && precedes(b, a)),
    decreases a.len(),
{
    if a.len() == 0 {
        if b.len() == 0 {
            assert(a =~= b);
        }
    } else if b.len() > 0 && a[0] == b[0] {
        lemma_total(a.skip(1), b.skip(1));
        if a.skip(1) == b.skip(1) {
            assert(a =~= b) by {
                assert forall|i: int| 0 <= i < a.len() implies a[i] == b[i] by {
                    if i > 0 {
                        assert(a.skip(1)[i - 1] == b.skip(1)[i - 1]);
                    }
                }
                assert(a.skip(1).len() == b.skip(1).len());
            }
        }
    }
}

/// Whether `a` stands before `b`.
pub fn text_before(a: &str, b: &str) -> (yes: bool)
    ensures
        yes == precedes(a@, b@),
{
    let x: Vec<char> = text::chars_of(a);
    let y: Vec<char> = text::chars_of(b);
    let mut i: usize = 0;
    assert(x@.skip(0) =~= x@);
    assert(y@.skip(0) =~= y@);
    loop
        invariant
            i <= x@.len(),
            i <= y@.len(),
            precedes(x@, y@) == precedes(x@.skip(i as int), y@.skip(i as int)),
            x@ == a@,
            y@ == b@,
        decreases x@.len() - i,
    {
        if i == y.len() {
            return false;
        }
        if i == x.len() {
            return true;
        }
        assert(x@.skip(i as int)[0] == x@[i as int]);
        assert(y@.skip(i as int)[0] == y@[i as int]);
        if x[i] != y[i] {
            return x[i] < y[i];
        }
        assert(x@.skip(i as int).skip(1) =~= x@.skip(i + 1));
        assert(y@.skip(i as int).skip(1) =~= y@.skip(i + 1));
        i = i + 1;
    }
}

/// Each text precedes those after it.
pub open spec fn in_text_order(s: Seq<Seq<char>>) -> bool {
    forall|i: int, j: int| 0 <= i < j < s.len() ==> precedes(#[trigger] s[i], #[trigger] s[j])
}

/// A list in text order holds nothing twice.
pub proof fn lemma_distinct(s: Seq<Seq<char>>)
    requires
        in_text_order(s),
    ensures
        s.no_duplicates(),
{
    assert forall|i: int, j: int| 0 <= i < s.len() && 0 <= j < s.len() && i != j implies s[i]
        != s[j] by {
        lemma_irreflexive(s[i]);
        if i < j {
            assert(precedes(s[i], s[j]));
        } else {
            assert(precedes(s[j], s[i]));
        }
    }
}

/// Two lists in text order that hold the same texts are the same list.
pub proof fn lemma_order_unique(a: Seq<Seq<char>>, b: Seq<Seq<char>>)
    requires
        in_text_order(a),
        in_text_order(b),
        forall|t: Seq<char>| a.contains(t) <==> b.contains(t),
    ensures
        a == b,
    decreases a.len() + b.len(),
{
    if a.len() == 0 {
        if b.len() > 0 {
            assert(b.contains(b[0]));
        }
        assert(a =~= b);
    } else if b.len() == 0 {
        assert(a.contains(a[0]));
    } else {
        let x = a.last();
        let y = b.last();
        assert(a.contains(x));
        assert(b.contains(y));
        let i = choose|i: int| 0 <= i < b.len() && b[i] == x;
        let j = choose|j: int| 0 <= j < a.len() && a[j] == y;
        if i < b.len() - 1 {
            assert(precedes(b[i], b[b.len() - 1]));
            if j < a.len() - 1 {
                assert(precedes(a[j], a[a.len() - 1]));
                lemma_total(x, y);
            } else {
                lemma_irreflexive(x);
            }
            assert(false);
        }
        assert(x == y);
        let a1 = a.drop_last();
        let b1 = b.drop_last();
        lemma_distinct(a);
        lemma_distinct(b);
        assert forall|t: Seq<char>| a1.contains(t) <==> b1.contains(t) by {
            if a1.contains(t) {
                let k = choose|k: int| 0 <= k < a1.len() && a1[k] == t;
                assert(a[k] == t);
                assert(a.contains(t));
                let l = choose|l: int| 0 <= l < b.len() && b[l] == t;
                assert(t != x);
                assert(b1[l] == t);
            }
            if b1.contains(t) {
                let k = choose|k: int| 0 <= k < b1.len() && b1[k] == t;
                assert(b[k] == t);
                assert(b.contains(t));
                let l = choose|l: int| 0 <= l < a.len() && a[l] == t;
                assert(t != y);
                assert(a1[l] == t);
            }
        }
        lemma_order_unique(a1, b1);
        assert(a =~= a1.push(x));
        assert(b =~= b1.push(y));
    }
}

/// A table of values by name, kept in the order of the names.
pub struct Named<V> {
    names: Vec<String>,
    values: Vec<V>,
}

impl<V> Named<V> {
    /// The names, in order.
    pub closed spec fn keys(&self) -> Seq<Seq<char>> {
        text::texts(self.names@)
    }

    /// The values, in the order of their names.
    pub closed spec fn vals(&self) -> Seq<V> {
        self.values@
    }

    /// One value for each name, and the names in order.
    pub open spec fn valid(&self) -> bool {
        &&& self.keys().len() == self.vals().len()
        &&& in_text_order(self.keys())
    }
}

/// The value of each name.
pub open spec fn table<V>(keys: Seq<Seq<char>>, vals: Seq<V>) -> Map<Seq<char>, V> {
    Map::new(|k: Seq<char>| keys.contains(k), |k: Seq<char>| vals[keys.index_of(k)])
}

impl<V> View for Named<V> {
    type V = Map<Seq<char>, V>;

    open spec fn view(&self) -> Map<Seq<char>, V> {
        table(self.keys(), self.vals())
    }
}

/// The entry at a position is the one of its name.
pub proof fn lemma_entry<V>(keys: Seq<Seq<char>>, vals: Seq<V>, i: int)
    requires
        in_text_order(keys),
        0 <= i < keys.len(),
    ensures
        table(keys, vals).contains_key(keys[i]),
        table(keys, vals)[keys[i]] == vals[i],
{
    lemma_distinct(keys);
    assert(keys.contains(keys[i]));
    let j = keys.index_of(keys[i]);
    assert(keys[j] == keys[i]);
}

proof fn lemma_set<V>(keys: Seq<Seq<char>>, vals: Seq<V>, i: int, v: V)
    requires
        in_text_order(keys),
        keys.len() == vals.len(),
        0 <= i < keys.len(),
    ensures
        table(keys, vals.update(i, v)) == table(keys, vals).insert(keys[i], v),
{
    let new = vals.update(i, v);
    lemma_distinct(keys);
    assert forall|k: Seq<char>| table(keys, new).contains_key(k) implies table(keys, new)[k]
        == table(keys, vals).insert(keys[i], v)[k] by {
        let j = keys.index_of(k);
        assert(keys[j] == k);
    }
    assert(keys.contains(keys[i]));
    assert(table(keys, new) =~= table(keys, vals).insert(keys[i], v));
}

proof fn lemma_added<V>(keys: Seq<Seq<char>>, vals: Seq<V>, at: int, k: Seq<char>, v: V)
    requires
        in_text_order(keys),
        keys.len() == vals.len(),
        0 <= at <= keys.len(),
        forall|j: int| 0 <= j < at ==> precedes(#[trigger] keys[j], k),
        forall|j: int| at <= j < keys.len() ==> precedes(k, #[trigger] keys[j]),
    ensures
        in_text_order(keys.insert(at, k)),
        table(keys.insert(at, k), vals.insert(at, v)) == table(keys, vals).insert(k, v),
{
    let ks = keys.insert(at, k);
    let vs = vals.insert(at, v);
    assert forall|i: int, j: int| 0 <= i < j < ks.len() implies precedes(
        #[trigger] ks[i],
        #[trigger] ks[j],
    ) by {
        let i0 = if i < at { i } else { i - 1 };
        let j0 = if j < at { j } else { j - 1 };
        if i == at {
            assert(ks[j] == keys[j0]);
        } else if j == at {
            assert(ks[i] == keys[i0]);
        } else {
            assert(ks[i] == keys[i0]);
            assert(ks[j] == keys[j0]);
        }
    }
    lemma_distinct(ks);
    assert forall|n: Seq<char>| ks.contains(n) <==> keys.contains(n) || n == k by {
        if ks.contains(n) && n != k {
            let i = choose|i: int| 0 <= i < ks.len() && ks[i] == n;
            let i0 = if i < at { i } else { i - 1 };
            assert(keys[i0] == n);
        }
        if keys.contains(n) {
            let i = choose|i: int| 0 <= i < keys.len() && keys[i] == n;
            let i1 = if i < at { i } else { i + 1 };
            assert(ks[i1] == n);
        }
        assert(ks[at] == k);
    }
    assert forall|n: Seq<char>| table(ks, vs).contains_key(n) implies table(ks, vs)[n] == table(
        keys,
        vals,
    ).insert(k, v)[n] by {
        if n == k {
            assert(ks[at] == k);
            lemma_entry(ks, vs, at);
        } else {
            let i = choose|i: int| 0 <= i < keys.len() && keys[i] == n;
            let i1 = if i < at { i } else { i + 1 };
            assert(ks[i1] == n);
            assert(vs[i1] == vals[i]);
            lemma_entry(ks, vs, i1);
            lemma_entry(keys, vals, i);
        }
    }
    assert(table(ks, vs) =~= table(keys, vals).insert(k, v));
}

impl<V> Named<V> {
    /// A table without entries.
    pub fn new() -> (t: Named<V>)
        ensures
            t.valid(),
            t@ == Map::<Seq<char>, V>::empty(),
            t.keys() == Seq::<Seq<char>>::empty(),
    {
        let t = Named { names: Vec::new(), values: Vec::new() };
        assert(t.keys() =~= Seq::empty());
        assert(t@ =~= Map::empty());
        t
    }

    /// How many entries there are.
    pub fn len(&self) -> (n: usize)
        ensures
            n == self.keys().len(),
    {
        self.names.len()
    }

    /// The name at a position.
    pub fn name_at(&self, i: usize) -> (name: &str)
        requires
            i < self.keys().len(),
        ensures
            name@ == self.keys()[i as int],
    {
        self.names[i].as_str()
    }

    /// The value at a position.
    pub fn value_at(&self, i: usize) -> (v: &V)
        requires
            self.valid(),
            i < self.keys().len(),
        ensures
            *v == self.vals()[i as int],
            self@.contains_key(self.keys()[i as int]),
            *v == self@[self.keys()[i as int]],
    {
        proof {
            lemma_entry(self.keys(), self.vals(), i as int);
        }
        &self.values[i]
    }

    /// Where a name stands, or would stand.
    fn find(&self, name: &str) -> (r: (usize, bool))
        requires
            self.valid(),
        ensures
            r.0 <= self.keys().len(),
            forall|j: int| 0 <= j < r.0 ==> precedes(#[trigger] self.keys()[j], name@),
            r.1 ==> r.0 < self.keys().len() && self.keys()[r.0 as int] == name@,
            !r.1 ==> forall|j: int|
                r.0 <= j < self.keys().len() ==> precedes(name@, #[trigger] self.keys()[j]),
    {
        let mut low: usize = 0;
        let mut high: usize = self.names.len();
        while low < high
            invariant
                self.valid(),
                low <= high <= self.keys().len(),
                forall|j: int| 0 <= j < low ==> precedes(#[trigger] self.keys()[j], name@),
                forall|j: int|
                    high <= j < self.keys().len() ==> precedes(name@, #[trigger] self.keys()[j]),
            decreases high - low,
        {
            let mid: usize = low + (high - low) / 2;
            let here = self.names[mid].as_str();
            assert(self.keys()[mid as int] == here@);
            if text_before(here, name) {
                assert forall|j: int| 0 <= j <= mid implies precedes(
                    #[trigger] self.keys()[j],
                    name@,
                ) by {
                    if j < mid {
                        lemma_transitive(self.keys()[j], here@, name@);
                    }
                }
                low = mid + 1;
            } else if text_before(name, here) {
                assert forall|j: int| mid <= j < self.keys().len() implies precedes(
                    name@,
                    #[trigger] self.keys()[j],
                ) by {
                    if j > mid {
                        lemma_transitive(name@, here@, self.keys()[j]);
                    }
                }
                high = mid;
            } else {
                proof {
                    lemma_total(here@, name@);
                }
                return (mid, true);
            }
        }
        (low, false)
    }

    /// The value of a name.
    pub fn get(&self, name: &str) -> (v: Option<&V>)
        requires
            self.valid(),
        ensures
            match v {
                Some(x) => self@.contains_key(name@) && *x == self@[name@],
                None => !self@.contains_key(name@),
            },
    {
        let (i, found) = self.find(name);
        if found {
            Some(self.value_at(i))
        } else {
            proof {
                if self.keys().contains(name@) {
                    let j = choose|j: int|
                        0 <= j < self.keys().len() && self.keys()[j] == name@;
                    lemma_irreflexive(name@);
                }
            }
            None
        }
    }

    /// Gives a name a value; says whether it had one before.
    pub fn insert(&mut self, name: String, value: V) -> (there: bool)
        requires
            old(self).valid(),
        ensures
            final(self).valid(),
            final(self)@ == old(self)@.insert(name@, value),
            there == old(self)@.contains_key(name@),
    {
        let (i, found) = self.find(name.as_str());
        let ghost ks = self.keys();
        let ghost vs = self.vals();
        if found {
            proof {
                lemma_entry(ks, vs, i as int);
                lemma_set(ks, vs, i as int, value);
            }
            self.values.set(i, value);
            assert(self.vals() =~= vs.update(i as int, value));
            true
        } else {
            proof {
                if ks.contains(name@) {
                    let j = choose|j: int| 0 <= j < ks.len() && ks[j] == name@;
                    lemma_irreflexive(name@);
                }
                lemma_added(ks, vs, i as int, name@, value);
            }
            let ghost n = name@;
            self.names.insert(i, name);
            self.values.insert(i, value);
            assert(self.keys() =~= ks.insert(i as int, n));
            assert(self.vals() =~= vs.insert(i as int, value));
            false
        }
    }
}

/// A table is what its entries are: two tables with the same entries list them in the same order.
pub proof fn same_entries_same_order<V>(a: Named<V>, b: Named<V>)
    requires
        a.valid(),
        b.valid(),
        a@ == b@,
    ensures
        a.keys() == b.keys(),
        a.vals() == b.vals(),
{
    assert forall|t: Seq<char>| a.keys().contains(t) <==> b.keys().contains(t) by {
        assert(table(a.keys(), a.vals()).contains_key(t) <==> a.keys().contains(t));
        assert(table(b.keys(), b.vals()).contains_key(t) <==> b.keys().contains(t));
        assert(a@ == table(a.keys(), a.vals()));
        assert(b@ == table(b.keys(), b.vals()));
    }
    lemma_order_unique(a.keys(), b.keys());
    assert forall|i: int| 0 <= i < a.vals().len() implies a.vals()[i] == b.vals()[i] by {
        lemma_entry(a.keys(), a.vals(), i);
        lemma_entry(b.keys(), b.vals(), i);
    }
    assert(a.vals() =~= b.vals());
}

/// Texts are ordered as in a dictionary: one stands before another just if, behind what both begin
/// with, it ends or goes on with a smaller character.
pub proof fn texts_are_ordered_as_in_a_dictionary(
    both: Seq<char>,
    a: Seq<char>,
    b: Seq<char>,
)
    requires
        a.len() > 0 && b.len() > 0 ==> a[0] != b[0],
    ensures
        precedes(both + a, both + b) <==> b.len() > 0 && (a.len() == 0 || a[0] < b[0]),
    decreases both.len(),
{
    if both.len() == 0 {
        assert(both + a =~= a);
        assert(both + b =~= b);
    } else {
        assert((both + a).skip(1) =~= both.skip(1) + a);
        assert((both + b).skip(1) =~= both.skip(1) + b);
        texts_are_ordered_as_in_a_dictionary(both.skip(1), a, b);
    }
}

} // verus!
