//! One scrape of a node's metrics, and what may be concluded from two of them.
//!
//! Values are kept as the bits of floating-point numbers. Whether a value is finite, negative or
//! smaller than another is decided on the bits; sums and differences are the caller's.

use vstd::prelude::*;
use crate::exposition;
use crate::named;
use crate::named::Named;
use crate::sort;
use crate::sort::Ranked;
use crate::text;

verus! {

// ------------------------------------------------------------------------------------------
//  Values
// ------------------------------------------------------------------------------------------

/// A value that is finite: its exponent bits are not all set.
pub open spec fn finite(bits: u64) -> bool {
    (bits / 0x10_0000_0000_0000) % 0x800 != 0x7ff
}

/// The size of a finite value among all finite values. Both zeros have the same.
pub open spec fn size(bits: u64) -> int {
    if bits >= 0x8000_0000_0000_0000 {
        0x8000_0000_0000_0000 - bits
    } else {
        bits as int
    }
}

/// A value that is smaller than zero; no value that is not a number is.
pub open spec fn negative(bits: u64) -> bool {
    0x8000_0000_0000_0000 < bits <= 0xfff0_0000_0000_0000
}

/// A value that is zero.
pub open spec fn zero(bits: u64) -> bool {
    bits == 0 || bits == 0x8000_0000_0000_0000
}

fn is_finite(bits: u64) -> (yes: bool)
    ensures
        yes == finite(bits),
{
    (bits / 0x10_0000_0000_0000) % 0x800 != 0x7ff
}

fn less(a: u64, b: u64) -> (yes: bool)
    ensures
        yes == (size(a) < size(b)),
{
    if a >= 0x8000_0000_0000_0000 {
        if b >= 0x8000_0000_0000_0000 {
            a > b
        } else {
            a > 0x8000_0000_0000_0000 || b > 0
        }
    } else {
        b < 0x8000_0000_0000_0000 && a < b
    }
}

// ------------------------------------------------------------------------------------------
//  Series
// ------------------------------------------------------------------------------------------

/// The counters that the reports are built from. Gauges, which fall in ordinary work, are none.
pub open spec fn is_counter(name: Seq<char>) -> bool {
    ||| name == "spacetime_txn_cpu_time_sec_sum"@
    ||| name == "spacetime_txn_cpu_time_sec_count"@
    ||| name == "spacetime_txn_cpu_time_sec_bucket"@
    ||| name == "spacetime_num_txns_total"@
    ||| name == "spacetime_num_rows_inserted_total"@
    ||| name == "spacetime_num_rows_deleted_total"@
    ||| name == "spacetime_num_rows_scanned_total"@
    ||| name == "spacetime_num_bytes_sent_to_clients_total"@
    ||| name == "spacetime_reducer_wait_time_sec_sum"@
    ||| name == "spacetime_reducer_wait_time_sec_count"@
    ||| name == "spacetime_reducer_wait_time_sec_bucket"@
}

fn is_monotonic(name: &str) -> (yes: bool)
    ensures
        yes == is_counter(name@),
{
    text::same_text(name, "spacetime_txn_cpu_time_sec_sum") || text::same_text(
        name,
        "spacetime_txn_cpu_time_sec_count",
    ) || text::same_text(name, "spacetime_txn_cpu_time_sec_bucket") || text::same_text(
        name,
        "spacetime_num_txns_total",
    ) || text::same_text(name, "spacetime_num_rows_inserted_total") || text::same_text(
        name,
        "spacetime_num_rows_deleted_total",
    ) || text::same_text(name, "spacetime_num_rows_scanned_total") || text::same_text(
        name,
        "spacetime_num_bytes_sent_to_clients_total",
    ) || text::same_text(name, "spacetime_reducer_wait_time_sec_sum") || text::same_text(
        name,
        "spacetime_reducer_wait_time_sec_count",
    ) || text::same_text(name, "spacetime_reducer_wait_time_sec_bucket")
}

/// The family whose presence makes a database measurable: the writer's busy time.
pub const OCCUPANCY_FAMILY: &'static str = "spacetime_txn_cpu_time_sec_sum";

/// Every filter stands somewhere in the labels.
pub open spec fn passes(labels: Seq<char>, filters: Seq<Seq<char>>) -> bool {
    forall|i: int| 0 <= i < filters.len() ==> text::has_text(labels, #[trigger] filters[i])
}

fn all_pass(labels: &str, filters: &Vec<String>) -> (yes: bool)
    ensures
        yes == passes(labels@, text::texts(filters@)),
{
    for i in 0..filters.len()
        invariant
            forall|j: int|
                0 <= j < i ==> text::has_text(labels@, #[trigger] text::texts(filters@)[j]),
    {
        assert(text::texts(filters@)[i as int] == filters@[i as int]@);
        if !text::contains(labels, filters[i].as_str()) {
            return false;
        }
    }
    true
}

/// The value of a label among the labels of a series.
pub open spec fn label_of(labels: Seq<char>, key: Seq<char>) -> Option<Seq<char>> {
    match exposition::labels_of(labels) {
        Err(_) => None,
        Ok(m) => if m.contains_key(key) {
            Some(m[key])
        } else {
            None
        },
    }
}

/// The value of a label among the labels of a series, such as `{a="1",b="2"}`.
pub fn label_value(labels: &str, key: &str) -> (v: Option<String>)
    ensures
        text::text_of(v) == label_of(labels@, key@),
{
    match exposition::parse_labels(labels) {
        Err(_) => None,
        Ok(m) => match m.get(key) {
            None => None,
            Some(v) => Some(v.clone()),
        },
    }
}

/// A label and the value that it must have.
pub struct Wanted {
    pub label: String,
    pub value: String,
}

/// What is wanted of labels.
pub open spec fn wanted(w: Seq<Wanted>) -> Seq<(Seq<char>, Seq<char>)> {
    w.map_values(|x: Wanted| (x.label@, x.value@))
}

/// Every wanted label has its value in full.
pub open spec fn fits(labels: Seq<char>, w: Seq<(Seq<char>, Seq<char>)>) -> bool {
    forall|i: int| 0 <= i < w.len() ==> label_of(labels, (#[trigger] w[i]).0) == Some(w[i].1)
}

fn fits_all(labels: &str, w: &Vec<Wanted>) -> (yes: bool)
    ensures
        yes == fits(labels@, wanted(w@)),
{
    for i in 0..w.len()
        invariant
            forall|j: int|
                0 <= j < i ==> label_of(labels@, (#[trigger] wanted(w@)[j]).0) == Some(
                    wanted(w@)[j].1,
                ),
    {
        assert(wanted(w@)[i as int] == (w@[i as int].label@, w@[i as int].value@));
        match label_value(labels, w[i].label.as_str()) {
            None => return false,
            Some(v) => {
                if !text::same_text(v.as_str(), w[i].value.as_str()) {
                    return false;
                }
            },
        }
    }
    true
}

/// A filter that selects one database by the beginning of its identity; an empty one selects all.
pub open spec fn database_filter(db: Seq<char>) -> Seq<char> {
    if db.len() == 0 {
        Seq::empty()
    } else {
        "db=\""@ + db
    }
}

/// A filter that selects one database by the beginning of its identity; an empty one selects all.
pub fn db_filter(db: &str) -> (f: String)
    ensures
        f@ == database_filter(db@),
{
    let mut f: String = String::new();
    if !db.is_empty() {
        f.append("db=\"");
        f.append(db);
    }
    assert(f@ =~= database_filter(db@));
    f
}

/// An empty filter lets every series pass.
pub proof fn an_empty_filter_passes_everything(labels: Seq<char>)
    ensures
        passes(labels, seq![database_filter(Seq::empty())]),
{
    let f = database_filter(Seq::empty());
    assert(labels.subrange(0, 0) =~= f);
    assert(text::occurs_at(labels, f, 0));
}

/// A series of a scrape: its key and the bits of its value.
pub struct Series {
    pub key: String,
    pub bits: u64,
}

/// What a series holds.
pub open spec fn entry(s: Series) -> (Seq<char>, u64) {
    (s.key@, s.bits)
}

/// What some series hold.
pub open spec fn entries_of(v: Seq<Series>) -> Seq<(Seq<char>, u64)> {
    v.map_values(|s: Series| entry(s))
}

/// One scrape, by canonical key.
pub struct Snapshot {
    series: Named<u64>,
}

impl View for Snapshot {
    type V = Map<Seq<char>, u64>;

    closed spec fn view(&self) -> Map<Seq<char>, u64> {
        self.series@
    }
}

/// A key of a family that passes the filters.
pub open spec fn selected(key: Seq<char>, name: Seq<char>, filters: Seq<Seq<char>>) -> bool {
    let (n, labels) = exposition::split_key(key);
    n == name && passes(labels, filters)
}

/// A key of any counter that passes the filters.
pub open spec fn counted(key: Seq<char>, filters: Seq<Seq<char>>) -> bool {
    let (n, labels) = exposition::split_key(key);
    is_counter(n) && passes(labels, filters)
}

/// A key of a family whose labels have the wanted values in full.
pub open spec fn exactly(key: Seq<char>, name: Seq<char>, w: Seq<(Seq<char>, Seq<char>)>) -> bool {
    let (n, labels) = exposition::split_key(key);
    n == name && fits(labels, w)
}

fn is_selected(key: &str, name: &str, filters: &Vec<String>) -> (yes: bool)
    ensures
        yes == selected(key@, name@, text::texts(filters@)),
{
    let (n, labels) = exposition::split_key_of(key);
    text::same_text(n.as_str(), name) && all_pass(labels.as_str(), filters)
}

fn is_counted(key: &str, filters: &Vec<String>) -> (yes: bool)
    ensures
        yes == counted(key@, text::texts(filters@)),
{
    let (n, labels) = exposition::split_key_of(key);
    is_monotonic(n.as_str()) && all_pass(labels.as_str(), filters)
}

fn is_exactly(key: &str, name: &str, w: &Vec<Wanted>) -> (yes: bool)
    ensures
        yes == exactly(key@, name@, wanted(w@)),
{
    let (n, labels) = exposition::split_key_of(key);
    text::same_text(n.as_str(), name) && fits_all(labels.as_str(), w)
}

/// The first series in key order that makes a window of counters unusable, as seen from the
/// earlier scrape: one that is gone later, or whose value is not finite in either.
pub open spec fn lost(
    keys: Seq<Seq<char>>,
    before: Map<Seq<char>, u64>,
    later: Map<Seq<char>, u64>,
    filters: Seq<Seq<char>>,
) -> Option<Seq<char>>
    decreases keys.len(),
{
    if keys.len() == 0 {
        None
    } else {
        match lost(keys.drop_last(), before, later, filters) {
            Some(e) => Some(e),
            None => {
                let k = keys.last();
                if !counted(k, filters) {
                    None
                } else if !later.contains_key(k) {
                    Some("counter disappeared: "@ + k)
                } else if !finite(before[k]) || !finite(later[k]) {
                    Some("counter is not finite: "@ + k)
                } else {
                    None
                }
            },
        }
    }
}

/// The first series in key order of the later scrape whose value is not finite.
pub open spec fn unsound(
    keys: Seq<Seq<char>>,
    later: Map<Seq<char>, u64>,
    filters: Seq<Seq<char>>,
) -> Option<Seq<char>>
    decreases keys.len(),
{
    if keys.len() == 0 {
        None
    } else {
        match unsound(keys.drop_last(), later, filters) {
            Some(e) => Some(e),
            None => if counted(keys.last(), filters) && !finite(later[keys.last()]) {
                Some("counter is not finite: "@ + keys.last())
            } else {
                None
            },
        }
    }
}

proof fn lemma_lost(
    keys: Seq<Seq<char>>,
    before: Map<Seq<char>, u64>,
    later: Map<Seq<char>, u64>,
    filters: Seq<Seq<char>>,
)
    ensures
        lost(keys, before, later, filters) is None <==> forall|i: int|
            0 <= i < keys.len() && counted(#[trigger] keys[i], filters) ==> stays(
                before,
                later,
                keys[i],
            ),
    decreases keys.len(),
{
    if keys.len() > 0 {
        let rest = keys.drop_last();
        lemma_lost(rest, before, later, filters);
        let n = keys.len() - 1;
        if lost(keys, before, later, filters) is None {
            assert forall|i: int|
                0 <= i < keys.len() && counted(#[trigger] keys[i], filters) implies stays(
                before,
                later,
                keys[i],
            ) by {
                if i < n {
                    assert(rest[i] == keys[i]);
                }
            }
        } else if lost(rest, before, later, filters) is Some {
            let i = choose|i: int|
                0 <= i < rest.len() && counted(#[trigger] rest[i], filters) && !stays(
                    before,
                    later,
                    rest[i],
                );
            assert(keys[i] == rest[i]);
        } else {
            assert(keys[n] == keys.last());
        }
    }
}

proof fn lemma_unsound(
    keys: Seq<Seq<char>>,
    later: Map<Seq<char>, u64>,
    filters: Seq<Seq<char>>,
)
    ensures
        unsound(keys, later, filters) is None <==> forall|i: int|
            0 <= i < keys.len() && counted(#[trigger] keys[i], filters) ==> finite(later[keys[i]]),
    decreases keys.len(),
{
    if keys.len() > 0 {
        let rest = keys.drop_last();
        lemma_unsound(rest, later, filters);
        let n = keys.len() - 1;
        if unsound(keys, later, filters) is None {
            assert forall|i: int|
                0 <= i < keys.len() && counted(#[trigger] keys[i], filters) implies finite(
                later[keys[i]],
            ) by {
                if i < n {
                    assert(rest[i] == keys[i]);
                }
            }
        } else if unsound(rest, later, filters) is Some {
            let i = choose|i: int|
                0 <= i < rest.len() && counted(#[trigger] rest[i], filters) && !finite(
                    later[rest[i]],
                );
            assert(keys[i] == rest[i]);
        } else {
            assert(keys[n] == keys.last());
        }
    }
}

fn say(what: &str, key: &str) -> (s: String)
    ensures
        s@ == what@ + key@,
{
    let mut s: String = what.to_owned();
    s.append(key);
    s
}

proof fn lemma_lost_stops(
    keys: Seq<Seq<char>>,
    before: Map<Seq<char>, u64>,
    later: Map<Seq<char>, u64>,
    filters: Seq<Seq<char>>,
    n: int,
)
    requires
        0 <= n <= keys.len(),
    ensures
        lost(keys.take(n), before, later, filters) is Some ==> lost(keys, before, later, filters)
            == lost(keys.take(n), before, later, filters),
    decreases keys.len() - n,
{
    if n == keys.len() {
        assert(keys.take(n) =~= keys);
    } else {
        lemma_lost_stops(keys, before, later, filters, n + 1);
        assert(keys.take(n + 1).drop_last() =~= keys.take(n));
    }
}

proof fn lemma_unsound_stops(
    keys: Seq<Seq<char>>,
    later: Map<Seq<char>, u64>,
    filters: Seq<Seq<char>>,
    n: int,
)
    requires
        0 <= n <= keys.len(),
    ensures
        unsound(keys.take(n), later, filters) is Some ==> unsound(keys, later, filters) == unsound(
            keys.take(n),
            later,
            filters,
        ),
    decreases keys.len() - n,
{
    if n == keys.len() {
        assert(keys.take(n) =~= keys);
    } else {
        lemma_unsound_stops(keys, later, filters, n + 1);
        assert(keys.take(n + 1).drop_last() =~= keys.take(n));
    }
}

/// The change of one series over a window.
pub struct Change {
    pub key: String,
    pub before: u64,
    pub after: u64,
}

/// What a change holds.
pub struct ChangeView {
    pub key: Seq<char>,
    pub before: u64,
    pub after: u64,
}

impl View for Change {
    type V = ChangeView;

    open spec fn view(&self) -> ChangeView {
        ChangeView { key: self.key@, before: self.before, after: self.after }
    }
}

/// What some changes hold.
pub open spec fn changes_of(v: Seq<Change>) -> Seq<ChangeView> {
    v.map_values(|c: Change| c@)
}

/// The change of a series that is there later; one that was not there before began at zero.
pub open spec fn change(
    before: Map<Seq<char>, u64>,
    later: Map<Seq<char>, u64>,
    key: Seq<char>,
) -> ChangeView {
    ChangeView {
        key,
        before: if before.contains_key(key) {
            before[key]
        } else {
            0
        },
        after: later[key],
    }
}

/// Some series of a family passes the filters.
pub open spec fn any_selected(
    samples: Map<Seq<char>, u64>,
    name: Seq<char>,
    filters: Seq<Seq<char>>,
) -> bool {
    exists|k: Seq<char>| #[trigger] samples.contains_key(k) && selected(k, name, filters)
}

/// A counter that passes the filters has a negative value.
pub open spec fn went_back(
    samples: Map<Seq<char>, u64>,
    filters: Seq<Seq<char>>,
    key: Seq<char>,
) -> bool {
    samples.contains_key(key) && counted(key, filters) && negative(samples[key])
}

/// No counter that passes the filters has a negative value.
pub open spec fn none_back(samples: Map<Seq<char>, u64>, filters: Seq<Seq<char>>) -> bool {
    forall|k: Seq<char>| !#[trigger] went_back(samples, filters, k)
}

/// The counter, first in key order, that passes the filters and has a negative value.
pub open spec fn first_back(
    samples: Map<Seq<char>, u64>,
    filters: Seq<Seq<char>>,
    key: Seq<char>,
) -> bool {
    &&& went_back(samples, filters, key)
    &&& forall|k: Seq<char>| #[trigger]
        went_back(samples, filters, k) ==> k == key || named::precedes(key, k)
}

/// A counter that was there before is there later, and is finite in both.
pub open spec fn stays(
    before: Map<Seq<char>, u64>,
    later: Map<Seq<char>, u64>,
    key: Seq<char>,
) -> bool {
    later.contains_key(key) && finite(before[key]) && finite(later[key])
}

/// Over a window no counter that passes the filters is gone, and each is finite at both ends. New
/// series may come, and whether a counter fell is not asked.
pub open spec fn usable_window(
    before: Map<Seq<char>, u64>,
    later: Map<Seq<char>, u64>,
    filters: Seq<Seq<char>>,
) -> bool {
    &&& forall|k: Seq<char>| #[trigger]
        before.contains_key(k) && counted(k, filters) ==> stays(before, later, k)
    &&& forall|k: Seq<char>| #[trigger]
        later.contains_key(k) && counted(k, filters) ==> finite(later[k])
}

impl Snapshot {
    /// The keys of the series, in order.
    pub closed spec fn keys(&self) -> Seq<Seq<char>> {
        self.series.keys()
    }

    /// The table of the series is in order.
    pub closed spec fn kept(&self) -> bool {
        self.series.valid()
    }

    /// The keys are in order, and are those that have a value.
    pub open spec fn valid(&self) -> bool {
        &&& self.kept()
        &&& named::in_text_order(self.keys())
        &&& forall|k: Seq<char>|
            #![trigger self.keys().contains(k)]
            #![trigger self@.contains_key(k)]
            self.keys().contains(k) <==> self@.contains_key(k)
    }

    proof fn lemma_valid(&self)
        requires
            self.series.valid(),
        ensures
            self.valid(),
    {
        let t = named::table(self.series.keys(), self.series.vals());
        assert(self@ == t);
        assert forall|k: Seq<char>|
            #![trigger self.keys().contains(k)]
            #![trigger self@.contains_key(k)]
            self.keys().contains(k) <==> self@.contains_key(k) by {
            assert(t.contains_key(k) <==> self.series.keys().contains(k));
        }
    }

    /// What holds of the key at every position holds of every key.
    proof fn lemma_every(&self, p: spec_fn(Seq<char>) -> bool)
        requires
            self.valid(),
        ensures
            (forall|i: int| 0 <= i < self.keys().len() ==> p(#[trigger] self.keys()[i])) <==> (
            forall|k: Seq<char>| #[trigger] self@.contains_key(k) ==> p(k)),
    {
        let ks = self.keys();
        if forall|i: int| 0 <= i < ks.len() ==> p(#[trigger] ks[i]) {
            assert forall|k: Seq<char>| #[trigger] self@.contains_key(k) implies p(k) by {
                assert(ks.contains(k));
                let i = choose|i: int| 0 <= i < ks.len() && ks[i] == k;
                assert(p(ks[i]));
            }
        }
        if forall|k: Seq<char>| #[trigger] self@.contains_key(k) ==> p(k) {
            assert forall|i: int| 0 <= i < ks.len() implies p(#[trigger] ks[i]) by {
                assert(ks.contains(ks[i]));
                assert(self@.contains_key(ks[i]));
            }
        }
    }

    /// The series with their values, in the order of the keys.
    pub open spec fn entries(&self) -> Seq<(Seq<char>, u64)> {
        self.keys().map_values(|k: Seq<char>| (k, self@[k]))
    }

    /// A scrape without series.
    pub fn empty() -> (s: Snapshot)
        ensures
            s.valid(),
            s@ == Map::<Seq<char>, u64>::empty(),
    {
        let s = Snapshot { series: Named::new() };
        proof {
            s.lemma_valid();
        }
        s
    }

    /// Adds a series; says whether there was one of that key, whose value is then replaced.
    pub fn insert(&mut self, key: String, bits: u64) -> (there: bool)
        requires
            old(self).valid(),
        ensures
            final(self).valid(),
            final(self)@ == old(self)@.insert(key@, bits),
            there == old(self)@.contains_key(key@),
    {
        let there: bool = self.series.insert(key, bits);
        proof {
            self.lemma_valid();
        }
        there
    }

    /// How many series there are.
    pub fn len(&self) -> (n: usize)
        ensures
            n == self.keys().len(),
    {
        self.series.len()
    }

    /// The value of a series.
    pub fn get(&self, key: &str) -> (bits: Option<u64>)
        requires
            self.valid(),
        ensures
            match bits {
                Some(b) => self@.contains_key(key@) && self@[key@] == b,
                None => !self@.contains_key(key@),
            },
    {
        match self.series.get(key) {
            Some(b) => Some(*b),
            None => None,
        }
    }

    fn key_at(&self, i: usize) -> (key: &str)
        requires
            i < self.keys().len(),
        ensures
            key@ == self.keys()[i as int],
    {
        self.series.name_at(i)
    }

    fn bits_at(&self, i: usize) -> (bits: u64)
        requires
            self.valid(),
            i < self.keys().len(),
        ensures
            self@.contains_key(self.keys()[i as int]),
            bits == self@[self.keys()[i as int]],
    {
        *self.series.value_at(i)
    }

    /// The series of a family that pass the filters, in the order of their keys.
    pub fn matching(&self, name: &str, filters: &Vec<String>) -> (v: Vec<Series>)
        requires
            self.valid(),
        ensures
            entries_of(v@) == self.entries().filter(
                |e: (Seq<char>, u64)| selected(e.0, name@, text::texts(filters@)),
            ),
    {
        let ghost fs = text::texts(filters@);
        let ghost keep = |e: (Seq<char>, u64)| selected(e.0, name@, fs);
        let ghost all = self.entries();
        let mut v: Vec<Series> = Vec::new();
        let n: usize = self.len();
        proof {
            reveal(Seq::filter);
            assert(all.take(0) =~= Seq::<(Seq<char>, u64)>::empty());
            assert(entries_of(v@) =~= Seq::empty());
        }
        for i in 0..n
            invariant
                self.valid(),
                n == self.keys().len(),
                all == self.entries(),
                fs == text::texts(filters@),
                keep == (|e: (Seq<char>, u64)| selected(e.0, name@, fs)),
                entries_of(v@) == all.take(i as int).filter(keep),
        {
            let key = self.key_at(i);
            let bits: u64 = self.bits_at(i);
            let ghost before = entries_of(v@);
            proof {
                reveal(Seq::filter);
                assert(all.take(i + 1).drop_last() =~= all.take(i as int));
                assert(all.take(i + 1).last() == (key@, bits));
            }
            if is_selected(key, name, filters) {
                v.push(Series { key: key.to_owned(), bits });
                assert(entries_of(v@) =~= before.push((key@, bits)));
            }
        }
        assert(all.take(all.len() as int) =~= all);
        v
    }

    /// Whether there is any series of a family that passes the filters. A sum of zero does not
    /// say so.
    pub fn has_any(&self, name: &str, filters: &Vec<String>) -> (yes: bool)
        requires
            self.valid(),
        ensures
            yes == any_selected(self@, name@, text::texts(filters@)),
    {
        let ghost fs = text::texts(filters@);
        let n: usize = self.len();
        for i in 0..n
            invariant
                self.valid(),
                n == self.keys().len(),
                fs == text::texts(filters@),
                forall|j: int| 0 <= j < i ==> !selected(#[trigger] self.keys()[j], name@, fs),
        {
            let key = self.key_at(i);
            if is_selected(key, name, filters) {
                proof {
                    assert(self.keys().contains(self.keys()[i as int]));
                    assert(self@.contains_key(key@));
                }
                return true;
            }
        }
        proof {
            self.lemma_every(|k: Seq<char>| !selected(k, name@, fs));
        }
        false
    }

    /// The first series in key order, among the counters that pass the filters, whose value is
    /// negative. On the difference of two scrapes: a counter that was reset underneath it.
    pub fn first_negative(&self, filters: &Vec<String>) -> (found: Option<Series>)
        requires
            self.valid(),
        ensures
            match found {
                Some(s) => first_back(self@, text::texts(filters@), s.key@) && s.bits
                    == self@[s.key@],
                None => none_back(self@, text::texts(filters@)),
            },
    {
        let ghost fs = text::texts(filters@);
        let ghost ks = self.keys();
        let n: usize = self.len();
        for i in 0..n
            invariant
                self.valid(),
                ks == self.keys(),
                n == ks.len(),
                fs == text::texts(filters@),
                forall|j: int| 0 <= j < i ==> !went_back(self@, fs, #[trigger] ks[j]),
        {
            let key = self.key_at(i);
            let bits: u64 = self.bits_at(i);
            assert(ks[i as int] == key@);
            if bits > 0x8000_0000_0000_0000 && bits <= 0xfff0_0000_0000_0000 && is_counted(
                key,
                filters,
            ) {
                proof {
                    assert forall|k: Seq<char>| #[trigger] went_back(self@, fs, k) implies k == key@
                        || named::precedes(key@, k) by {
                        assert(ks.contains(k));
                        let j = choose|j: int| 0 <= j < ks.len() && ks[j] == k;
                        if j > i {
                            assert(named::precedes(ks[i as int], ks[j]));
                        }
                    }
                    assert(went_back(self@, fs, key@));
                }
                return Some(Series { key: key.to_owned(), bits });
            }
        }
        proof {
            self.lemma_every(|k: Seq<char>| !went_back(self@, fs, k));
        }
        None
    }

    /// Refuses a window over which a counter is gone or not finite. A new series is no fault.
    pub fn require_counter_series(&self, later: &Snapshot, filters: &Vec<String>) -> (r: Result<
        (),
        String,
    >)
        requires
            self.valid(),
            later.valid(),
        ensures
            match r {
                Ok(_) => lost(self.keys(), self@, later@, text::texts(filters@)) is None && unsound(
                    later.keys(),
                    later@,
                    text::texts(filters@),
                ) is None,
                Err(said) => Some(said@) == match lost(
                    self.keys(),
                    self@,
                    later@,
                    text::texts(filters@),
                ) {
                    Some(e) => Some(e),
                    None => unsound(later.keys(), later@, text::texts(filters@)),
                },
            },
            r is Ok <==> usable_window(self@, later@, text::texts(filters@)),
    {
        proof {
            self.lemma_usable(later, text::texts(filters@));
        }
        let ghost fs = text::texts(filters@);
        let ghost ks = self.keys();
        let n: usize = self.len();
        assert(ks.take(0) =~= Seq::<Seq<char>>::empty());
        for i in 0..n
            invariant
                self.valid(),
                later.valid(),
                ks == self.keys(),
                n == ks.len(),
                fs == text::texts(filters@),
                lost(ks.take(i as int), self@, later@, fs) is None,
        {
            let key = self.key_at(i);
            let bits: u64 = self.bits_at(i);
            proof {
                assert(ks.take(i + 1).drop_last() =~= ks.take(i as int));
                assert(ks.take(i + 1).last() == key@);
                lemma_lost_stops(ks, self@, later@, fs, i + 1);
            }
            if is_counted(key, filters) {
                match later.get(key) {
                    None => return Err(say("counter disappeared: ", key)),
                    Some(after) => {
                        if !is_finite(bits) || !is_finite(after) {
                            return Err(say("counter is not finite: ", key));
                        }
                    },
                }
            }
        }
        assert(ks.take(ks.len() as int) =~= ks);
        let ghost ls = later.keys();
        let m: usize = later.len();
        assert(ls.take(0) =~= Seq::<Seq<char>>::empty());
        for i in 0..m
            invariant
                later.valid(),
                ls == later.keys(),
                m == ls.len(),
                fs == text::texts(filters@),
                lost(self.keys(), self@, later@, fs) is None,
                unsound(ls.take(i as int), later@, fs) is None,
        {
            let key = later.key_at(i);
            let bits: u64 = later.bits_at(i);
            proof {
                assert(ls.take(i + 1).drop_last() =~= ls.take(i as int));
                assert(ls.take(i + 1).last() == key@);
                lemma_unsound_stops(ls, later@, fs, i + 1);
            }
            if !is_finite(bits) && is_counted(key, filters) {
                return Err(say("counter is not finite: ", key));
            }
        }
        assert(ls.take(ls.len() as int) =~= ls);
        Ok(())
    }

    proof fn lemma_usable(&self, later: &Snapshot, filters: Seq<Seq<char>>)
        requires
            self.valid(),
            later.valid(),
        ensures
            (lost(self.keys(), self@, later@, filters) is None && unsound(
                later.keys(),
                later@,
                filters,
            ) is None) <==> usable_window(self@, later@, filters),
    {
        lemma_lost(self.keys(), self@, later@, filters);
        lemma_unsound(later.keys(), later@, filters);
        self.lemma_every(|k: Seq<char>| counted(k, filters) ==> stays(self@, later@, k));
        later.lemma_every(|k: Seq<char>| counted(k, filters) ==> finite(later@[k]));
        let p = |k: Seq<char>| counted(k, filters) ==> stays(self@, later@, k);
        let q = |k: Seq<char>| counted(k, filters) ==> finite(later@[k]);
        assert((forall|i: int| 0 <= i < self.keys().len() ==> p(#[trigger] self.keys()[i])) <==> (
        lost(self.keys(), self@, later@, filters) is None));
        assert((forall|i: int| 0 <= i < later.keys().len() ==> q(#[trigger] later.keys()[i])) <==> (
        unsound(later.keys(), later@, filters) is None));
        assert(usable_window(self@, later@, filters) <==> ((forall|k: Seq<char>| #[trigger]
            self@.contains_key(k) ==> p(k)) && (forall|k: Seq<char>| #[trigger]
            later@.contains_key(k) ==> q(k))));
    }

    /// The change of every series of a later scrape.
    pub fn changes(&self, later: &Snapshot) -> (v: Vec<Change>)
        requires
            self.valid(),
            later.valid(),
        ensures
            changes_of(v@) == later.keys().map_values(|k: Seq<char>| change(self@, later@, k)),
    {
        let ghost ks = later.keys();
        let mut v: Vec<Change> = Vec::new();
        let n: usize = later.len();
        for i in 0..n
            invariant
                self.valid(),
                later.valid(),
                ks == later.keys(),
                n == ks.len(),
                v@.len() == i,
                forall|j: int| 0 <= j < i ==> (#[trigger] v@[j])@ == change(self@, later@, ks[j]),
        {
            let key = later.key_at(i);
            let after: u64 = later.bits_at(i);
            let before: u64 = match self.get(key) {
                Some(b) => b,
                None => 0,
            };
            v.push(Change { key: key.to_owned(), before, after });
        }
        assert(changes_of(v@) =~= later.keys().map_values(
            |k: Seq<char>| change(self@, later@, k),
        ));
        v
    }
}

// ------------------------------------------------------------------------------------------
//  The change of one counter
// ------------------------------------------------------------------------------------------

/// The keys of a counter among some.
pub open spec fn chosen(
    keys: Seq<Seq<char>>,
    name: Seq<char>,
    w: Seq<(Seq<char>, Seq<char>)>,
) -> Seq<Seq<char>> {
    keys.filter(|k: Seq<char>| exactly(k, name, w))
}

/// The first of some keys that is gone later.
pub open spec fn first_gone(keys: Seq<Seq<char>>, later: Map<Seq<char>, u64>) -> Option<Seq<char>>
    decreases keys.len(),
{
    if keys.len() == 0 {
        None
    } else {
        match first_gone(keys.drop_last(), later) {
            Some(k) => Some(k),
            None => if later.contains_key(keys.last()) {
                None
            } else {
                Some(keys.last())
            },
        }
    }
}

/// A change that a counter can make: both ends finite, not negative, and not backwards.
pub open spec fn sound_change(c: ChangeView) -> bool {
    finite(c.before) && finite(c.after) && size(c.before) >= 0 && size(c.after) >= size(c.before)
}

/// The first of some changes that a counter cannot make.
pub open spec fn first_reset(changes: Seq<ChangeView>) -> Option<Seq<char>>
    decreases changes.len(),
{
    if changes.len() == 0 {
        None
    } else {
        match first_reset(changes.drop_last()) {
            Some(k) => Some(k),
            None => if sound_change(changes.last()) {
                None
            } else {
                Some(changes.last().key)
            },
        }
    }
}

/// The changes of one counter over a window: both ends must have it, no series of it may be gone,
/// and none may have gone backwards.
pub open spec fn counter_changes(
    keys: Seq<Seq<char>>,
    before: Map<Seq<char>, u64>,
    later_keys: Seq<Seq<char>>,
    later: Map<Seq<char>, u64>,
    name: Seq<char>,
    w: Seq<(Seq<char>, Seq<char>)>,
) -> Result<Seq<ChangeView>, Seq<char>> {
    let old_keys = chosen(keys, name, w);
    let new_keys = chosen(later_keys, name, w);
    if old_keys.len() == 0 || new_keys.len() == 0 {
        Err("counter "@ + name + " is missing for selected labels"@)
    } else {
        match first_gone(old_keys, later) {
            Some(k) => Err("counter disappeared: "@ + k),
            None => {
                let changes = new_keys.map_values(|k: Seq<char>| change(before, later, k));
                match first_reset(changes) {
                    Some(k) => Err("counter reset or invalid value: "@ + k),
                    None => Ok(changes),
                }
            },
        }
    }
}

proof fn lemma_gone_stops(keys: Seq<Seq<char>>, later: Map<Seq<char>, u64>, n: int)
    requires
        0 <= n <= keys.len(),
    ensures
        first_gone(keys.take(n), later) is Some ==> first_gone(keys, later) == first_gone(
            keys.take(n),
            later,
        ),
    decreases keys.len() - n,
{
    if n == keys.len() {
        assert(keys.take(n) =~= keys);
    } else {
        lemma_gone_stops(keys, later, n + 1);
        assert(keys.take(n + 1).drop_last() =~= keys.take(n));
    }
}

proof fn lemma_reset_stops(changes: Seq<ChangeView>, n: int)
    requires
        0 <= n <= changes.len(),
    ensures
        first_reset(changes.take(n)) is Some ==> first_reset(changes) == first_reset(
            changes.take(n),
        ),
    decreases changes.len() - n,
{
    if n == changes.len() {
        assert(changes.take(n) =~= changes);
    } else {
        lemma_reset_stops(changes, n + 1);
        assert(changes.take(n + 1).drop_last() =~= changes.take(n));
    }
}

impl Snapshot {
    fn chosen_keys(&self, name: &str, w: &Vec<Wanted>) -> (v: Vec<String>)
        requires
            self.valid(),
        ensures
            text::texts(v@) == chosen(self.keys(), name@, wanted(w@)),
            forall|i: int|
                0 <= i < v@.len() ==> self@.contains_key((#[trigger] text::texts(v@)[i])),
    {
        let ghost ks = self.keys();
        let ghost keep = |k: Seq<char>| exactly(k, name@, wanted(w@));
        let mut v: Vec<String> = Vec::new();
        let n: usize = self.len();
        proof {
            reveal(Seq::filter);
            assert(ks.take(0) =~= Seq::<Seq<char>>::empty());
            assert(text::texts(v@) =~= Seq::empty());
        }
        for i in 0..n
            invariant
                self.valid(),
                ks == self.keys(),
                n == ks.len(),
                keep == (|k: Seq<char>| exactly(k, name@, wanted(w@))),
                text::texts(v@) == ks.take(i as int).filter(keep),
                forall|j: int|
                    0 <= j < v@.len() ==> self@.contains_key((#[trigger] text::texts(v@)[j])),
        {
            let key = self.key_at(i);
            let bits: u64 = self.bits_at(i);
            let ghost before = text::texts(v@);
            proof {
                reveal(Seq::filter);
                assert(ks.take(i + 1).drop_last() =~= ks.take(i as int));
                assert(ks.take(i + 1).last() == key@);
            }
            if is_exactly(key, name, w) {
                v.push(key.to_owned());
                assert(text::texts(v@) =~= before.push(key@));
            }
        }
        assert(ks.take(ks.len() as int) =~= ks);
        v
    }

    /// The changes of one counter over a window, by complete label values.
    pub fn counter_delta(&self, later: &Snapshot, name: &str, labels: &Vec<Wanted>) -> (r: Result<
        Vec<Change>,
        String,
    >)
        requires
            self.valid(),
            later.valid(),
        ensures
            match (
                r,
                counter_changes(
                    self.keys(),
                    self@,
                    later.keys(),
                    later@,
                    name@,
                    wanted(labels@),
                ),
            ) {
                (Ok(v), Ok(w)) => changes_of(v@) == w,
                (Err(said), Err(words)) => said@ == words,
                _ => false,
            },
            r is Ok <==> readable_window(self@, later@, name@, wanted(labels@)),
            r matches Ok(v) ==> are_the_changes(
                changes_of(v@),
                self@,
                later@,
                name@,
                wanted(labels@),
            ),
    {
        proof {
            a_counter_is_read_in_full(*self, *later, name@, wanted(labels@));
        }
        let old_keys: Vec<String> = self.chosen_keys(name, labels);
        let new_keys: Vec<String> = later.chosen_keys(name, labels);
        let ghost os = text::texts(old_keys@);
        let ghost ns = text::texts(new_keys@);
        if old_keys.len() == 0 || new_keys.len() == 0 {
            let mut said: String = say("counter ", name);
            said.append(" is missing for selected labels");
            return Err(said);
        }
        assert(os.take(0) =~= Seq::<Seq<char>>::empty());
        for i in 0..old_keys.len()
            invariant
                self.valid(),
                later.valid(),
                os == text::texts(old_keys@),
                first_gone(os.take(i as int), later@) is None,
                os == chosen(self.keys(), name@, wanted(labels@)),
                ns == chosen(later.keys(), name@, wanted(labels@)),
                os.len() > 0,
                ns.len() > 0,
        {
            proof {
                assert(os.take(i + 1).drop_last() =~= os.take(i as int));
                assert(os.take(i + 1).last() == old_keys@[i as int]@);
                lemma_gone_stops(os, later@, i + 1);
            }
            if later.get(old_keys[i].as_str()).is_none() {
                proof {
                    a_counter_is_read_in_full(*self, *later, name@, wanted(labels@));
                }
                return Err(say("counter disappeared: ", old_keys[i].as_str()));
            }
        }
        assert(os.take(os.len() as int) =~= os);
        let ghost all = ns.map_values(|k: Seq<char>| change(self@, later@, k));
        let mut v: Vec<Change> = Vec::new();
        assert(all.take(0) =~= Seq::<ChangeView>::empty());
        assert(changes_of(v@) =~= Seq::empty());
        for i in 0..new_keys.len()
            invariant
                self.valid(),
                later.valid(),
                ns == text::texts(new_keys@),
                forall|j: int| 0 <= j < new_keys@.len() ==> later@.contains_key(#[trigger] ns[j]),
                all == ns.map_values(|k: Seq<char>| change(self@, later@, k)),
                changes_of(v@) == all.take(i as int),
                first_reset(all.take(i as int)) is None,
                os == chosen(self.keys(), name@, wanted(labels@)),
                ns == chosen(later.keys(), name@, wanted(labels@)),
                os.len() > 0,
                ns.len() > 0,
                first_gone(os, later@) is None,
        {
            let key = new_keys[i].as_str();
            assert(ns[i as int] == key@);
            let after: u64 = match later.get(key) {
                Some(b) => b,
                None => 0,
            };
            let before: u64 = match self.get(key) {
                Some(b) => b,
                None => 0,
            };
            let ghost held = changes_of(v@);
            let ghost c = change(self@, later@, key@);
            proof {
                assert(all.take(i + 1).drop_last() =~= all.take(i as int));
                assert(all.take(i + 1).last() == c);
                lemma_reset_stops(all, i + 1);
            }
            if !is_finite(before) || !is_finite(after) || less(before, 0) || less(after, before) {
                proof {
                    a_counter_is_read_in_full(*self, *later, name@, wanted(labels@));
                }
                return Err(say("counter reset or invalid value: ", key));
            }
            v.push(Change { key: key.to_owned(), before, after });
            assert(changes_of(v@) =~= held.push(c));
            assert(all.take(i + 1) =~= all.take(i as int).push(c));
        }
        assert(all.take(all.len() as int) =~= all);
        Ok(v)
    }
}

/// A window over which a counter can be read: both ends have it, no series of it is gone, and none
/// made a change that a counter cannot make.
pub open spec fn readable_window(
    before: Map<Seq<char>, u64>,
    later: Map<Seq<char>, u64>,
    name: Seq<char>,
    w: Seq<(Seq<char>, Seq<char>)>,
) -> bool {
    &&& exists|k: Seq<char>| #[trigger] before.contains_key(k) && exactly(k, name, w)
    &&& exists|k: Seq<char>| #[trigger] later.contains_key(k) && exactly(k, name, w)
    &&& forall|k: Seq<char>| #[trigger]
        before.contains_key(k) && exactly(k, name, w) ==> later.contains_key(k)
    &&& forall|k: Seq<char>| #[trigger]
        later.contains_key(k) && exactly(k, name, w) ==> sound_change(change(before, later, k))
}

/// The changes of the series of a counter, each once, in key order.
pub open spec fn are_the_changes(
    changes: Seq<ChangeView>,
    before: Map<Seq<char>, u64>,
    later: Map<Seq<char>, u64>,
    name: Seq<char>,
    w: Seq<(Seq<char>, Seq<char>)>,
) -> bool {
    &&& forall|i: int, j: int|
        0 <= i < j < changes.len() ==> named::precedes(
            (#[trigger] changes[i]).key,
            (#[trigger] changes[j]).key,
        )
    &&& forall|i: int|
        0 <= i < changes.len() ==> {
            let k = (#[trigger] changes[i]).key;
            later.contains_key(k) && exactly(k, name, w) && changes[i] == change(before, later, k)
        }
    &&& forall|k: Seq<char>| #[trigger]
        later.contains_key(k) && exactly(k, name, w) ==> changes.contains(change(before, later, k))
}

proof fn lemma_chosen(keys: Seq<Seq<char>>, name: Seq<char>, w: Seq<(Seq<char>, Seq<char>)>)
    requires
        named::in_text_order(keys),
    ensures
        named::in_text_order(chosen(keys, name, w)),
        forall|k: Seq<char>| #[trigger]
            chosen(keys, name, w).contains(k) <==> keys.contains(k) && exactly(k, name, w),
    decreases keys.len(),
{
    reveal(Seq::filter);
    let all = chosen(keys, name, w);
    if keys.len() > 0 {
        let rest = keys.drop_last();
        let last = keys.last();
        let kept = chosen(rest, name, w);
        lemma_chosen(rest, name, w);
        assert forall|k: Seq<char>| keys.contains(k) <==> rest.contains(k) || k == last by {
            if keys.contains(k) && k != last {
                let i = choose|i: int| 0 <= i < keys.len() && keys[i] == k;
                assert(rest[i] == k);
            }
            if rest.contains(k) {
                let i = choose|i: int| 0 <= i < rest.len() && rest[i] == k;
                assert(keys[i] == k);
            }
            assert(keys[keys.len() - 1] == last);
        }
        if exactly(last, name, w) {
            assert(all == kept.push(last));
            assert forall|k: Seq<char>| #[trigger] all.contains(k) <==> kept.contains(k) || k
                == last by {
                if all.contains(k) && k != last {
                    let i = choose|i: int| 0 <= i < all.len() && all[i] == k;
                    assert(kept[i] == k);
                }
                if kept.contains(k) {
                    let i = choose|i: int| 0 <= i < kept.len() && kept[i] == k;
                    assert(all[i] == k);
                }
                assert(all[all.len() - 1] == last);
            }
            assert forall|i: int, j: int| 0 <= i < j < all.len() implies named::precedes(
                #[trigger] all[i],
                #[trigger] all[j],
            ) by {
                assert(all[i] == kept[i]);
                if j < kept.len() {
                    assert(all[j] == kept[j]);
                } else {
                    assert(kept.contains(kept[i]));
                    assert(rest.contains(all[i]));
                    let m = choose|m: int| 0 <= m < rest.len() && rest[m] == all[i];
                    assert(keys[m] == all[i]);
                    assert(keys[keys.len() - 1] == last);
                }
            }
        } else {
            assert(all == kept);
        }
    }
}

proof fn lemma_gone(keys: Seq<Seq<char>>, later: Map<Seq<char>, u64>)
    ensures
        first_gone(keys, later) is None <==> forall|k: Seq<char>| #[trigger]
            keys.contains(k) ==> later.contains_key(k),
    decreases keys.len(),
{
    if keys.len() > 0 {
        let rest = keys.drop_last();
        lemma_gone(rest, later);
        assert(keys[keys.len() - 1] == keys.last());
        assert forall|k: Seq<char>| #[trigger] keys.contains(k) <==> rest.contains(k) || k
            == keys.last() by {
            if keys.contains(k) && k != keys.last() {
                let i = choose|i: int| 0 <= i < keys.len() && keys[i] == k;
                assert(rest[i] == k);
            }
            if rest.contains(k) {
                let i = choose|i: int| 0 <= i < rest.len() && rest[i] == k;
                assert(keys[i] == k);
            }
        }
        if first_gone(keys, later) is Some {
            if first_gone(rest, later) is Some {
                let k = choose|k: Seq<char>| #[trigger] rest.contains(k) && !later.contains_key(k);
                assert(keys.contains(k));
            } else {
                assert(keys.contains(keys.last()));
            }
        } else {
            assert forall|k: Seq<char>| #[trigger] keys.contains(k) implies later.contains_key(
                k,
            ) by {
                if k != keys.last() {
                    assert(rest.contains(k));
                }
            }
        }
    }
}

proof fn lemma_resets(changes: Seq<ChangeView>)
    ensures
        first_reset(changes) is None <==> forall|i: int|
            0 <= i < changes.len() ==> sound_change(#[trigger] changes[i]),
    decreases changes.len(),
{
    if changes.len() > 0 {
        let rest = changes.drop_last();
        lemma_resets(rest);
        assert(changes[changes.len() - 1] == changes.last());
        if first_reset(changes) is None {
            assert forall|i: int| 0 <= i < changes.len() implies sound_change(
                #[trigger] changes[i],
            ) by {
                if i < rest.len() {
                    assert(rest[i] == changes[i]);
                }
            }
        } else if first_reset(rest) is Some {
            let i = choose|i: int| 0 <= i < rest.len() && !sound_change(#[trigger] rest[i]);
            assert(changes[i] == rest[i]);
        }
    }
}

/// What a counter's window gives rests on the samples of the two scrapes alone: it is readable or
/// not, and the changes are those of the series that the later one has.
pub proof fn a_counter_is_read_in_full(
    before: Snapshot,
    later: Snapshot,
    name: Seq<char>,
    w: Seq<(Seq<char>, Seq<char>)>,
)
    requires
        before.valid(),
        later.valid(),
    ensures
        counter_changes(before.keys(), before@, later.keys(), later@, name, w) is Ok
            <==> readable_window(before@, later@, name, w),
        counter_changes(before.keys(), before@, later.keys(), later@, name, w) matches Ok(changes)
            ==> are_the_changes(changes, before@, later@, name, w),
{
    let olds = chosen(before.keys(), name, w);
    let news = chosen(later.keys(), name, w);
    lemma_chosen(before.keys(), name, w);
    lemma_chosen(later.keys(), name, w);
    assert forall|k: Seq<char>| #[trigger] olds.contains(k) <==> before@.contains_key(k)
        && exactly(k, name, w) by {
        assert(before.keys().contains(k) <==> before@.contains_key(k));
    }
    assert forall|k: Seq<char>| #[trigger] news.contains(k) <==> later@.contains_key(k)
        && exactly(k, name, w) by {
        assert(later.keys().contains(k) <==> later@.contains_key(k));
    }
    if olds.len() > 0 {
        assert(olds.contains(olds[0]));
        assert(before@.contains_key(olds[0]));
    } else {
        assert forall|k: Seq<char>| #[trigger] before@.contains_key(k) implies !exactly(
            k,
            name,
            w,
        ) by {
            assert(!olds.contains(k));
        }
    }
    if news.len() > 0 {
        assert(news.contains(news[0]));
        assert(later@.contains_key(news[0]));
    } else {
        assert forall|k: Seq<char>| #[trigger] later@.contains_key(k) implies !exactly(
            k,
            name,
            w,
        ) by {
            assert(!news.contains(k));
        }
    }
    lemma_gone(olds, later@);
    let gone = first_gone(olds, later@);
    assert(gone is None <==> forall|k: Seq<char>| #[trigger]
        before@.contains_key(k) && exactly(k, name, w) ==> later@.contains_key(k)) by {
        if gone is None {
            assert forall|k: Seq<char>| #[trigger] before@.contains_key(k) && exactly(
                k,
                name,
                w,
            ) implies later@.contains_key(k) by {
                assert(olds.contains(k));
            }
        } else {
            let k = choose|k: Seq<char>| #[trigger] olds.contains(k) && !later@.contains_key(k);
            assert(before@.contains_key(k));
        }
    }
    let changes = news.map_values(|k: Seq<char>| change(before@, later@, k));
    lemma_resets(changes);
    assert forall|i: int| 0 <= i < news.len() implies news.contains(#[trigger] news[i])
        && changes[i] == change(before@, later@, news[i]) by {}
    assert forall|k: Seq<char>| #[trigger] later@.contains_key(k) && exactly(
        k,
        name,
        w,
    ) implies changes.contains(change(before@, later@, k)) by {
        assert(news.contains(k));
        let i = choose|i: int| 0 <= i < news.len() && news[i] == k;
        assert(changes[i] == change(before@, later@, k));
    }
    let reset = first_reset(changes);
    assert(reset is None <==> forall|k: Seq<char>| #[trigger]
        later@.contains_key(k) && exactly(k, name, w) ==> sound_change(
            change(before@, later@, k),
        )) by {
        if reset is None {
            assert forall|k: Seq<char>| #[trigger] later@.contains_key(k) && exactly(
                k,
                name,
                w,
            ) implies sound_change(change(before@, later@, k)) by {
                assert(changes.contains(change(before@, later@, k)));
                let i = choose|i: int|
                    0 <= i < changes.len() && changes[i] == change(before@, later@, k);
                assert(sound_change(changes[i]));
            }
        } else {
            let i = choose|i: int| 0 <= i < changes.len() && !sound_change(#[trigger] changes[i]);
            assert(news.contains(news[i]));
            assert(later@.contains_key(news[i]));
        }
    }
    assert forall|i: int| 0 <= i < changes.len() implies {
        let k = (#[trigger] changes[i]).key;
        later@.contains_key(k) && exactly(k, name, w) && changes[i] == change(before@, later@, k)
    } by {
        assert(news.contains(news[i]));
    }
    assert forall|i: int, j: int| 0 <= i < j < changes.len() implies named::precedes(
        (#[trigger] changes[i]).key,
        (#[trigger] changes[j]).key,
    ) by {
        assert(named::precedes(news[i], news[j]));
    }
}

/// A window that was accepted holds only changes that a counter can make, and no series of the
/// counter is gone from it.
pub proof fn an_accepted_window_is_sound(
    keys: Seq<Seq<char>>,
    before: Map<Seq<char>, u64>,
    later_keys: Seq<Seq<char>>,
    later: Map<Seq<char>, u64>,
    name: Seq<char>,
    w: Seq<(Seq<char>, Seq<char>)>,
    i: int,
)
    requires
        counter_changes(keys, before, later_keys, later, name, w) is Ok,
    ensures
        0 <= i < chosen(later_keys, name, w).len() ==> sound_change(
            counter_changes(keys, before, later_keys, later, name, w)->Ok_0[i],
        ),
        0 <= i < chosen(keys, name, w).len() ==> later.contains_key(chosen(keys, name, w)[i]),
{
    let changes = counter_changes(keys, before, later_keys, later, name, w)->Ok_0;
    if 0 <= i < changes.len() {
        lemma_no_reset(changes, i);
    }
    if 0 <= i < chosen(keys, name, w).len() {
        lemma_none_gone(chosen(keys, name, w), later, i);
    }
}

proof fn lemma_no_reset(changes: Seq<ChangeView>, i: int)
    requires
        first_reset(changes) is None,
        0 <= i < changes.len(),
    ensures
        sound_change(changes[i]),
    decreases changes.len(),
{
    if i < changes.len() - 1 {
        lemma_no_reset(changes.drop_last(), i);
    }
}

proof fn lemma_none_gone(keys: Seq<Seq<char>>, later: Map<Seq<char>, u64>, i: int)
    requires
        first_gone(keys, later) is None,
        0 <= i < keys.len(),
    ensures
        later.contains_key(keys[i]),
    decreases keys.len(),
{
    if i < keys.len() - 1 {
        lemma_none_gone(keys.drop_last(), later, i);
    }
}

// ------------------------------------------------------------------------------------------
//  Groups
// ------------------------------------------------------------------------------------------

/// The values of some series by the value of one label. A series without the label, or with an
/// empty one, belongs to no group.
pub open spec fn groups_of(entries: Seq<(Seq<char>, u64)>, label: Seq<char>) -> Map<
    Seq<char>,
    Seq<u64>,
>
    decreases entries.len(),
{
    if entries.len() == 0 {
        Map::empty()
    } else {
        let before = groups_of(entries.drop_last(), label);
        let (key, bits) = entries.last();
        match label_of(exposition::split_key(key).1, label) {
            None => before,
            Some(v) => if v.len() == 0 {
                before
            } else if before.contains_key(v) {
                before.insert(v, before[v].push(bits))
            } else {
                before.insert(v, seq![bits])
            },
        }
    }
}

/// Some series is of a database.
pub open spec fn some_series_of(samples: Map<Seq<char>, u64>, db: Seq<char>) -> bool {
    exists|k: Seq<char>| #[trigger]
        samples.contains_key(k) && label_of(exposition::split_key(k).1, "db"@) == Some(db)
}

/// Some series of a family is of a database.
pub open spec fn exposes(samples: Map<Seq<char>, u64>, family: Seq<char>, db: Seq<char>) -> bool {
    exists|k: Seq<char>| #[trigger]
        samples.contains_key(k) && exposition::split_key(k).0 == family && label_of(
            exposition::split_key(k).1,
            "db"@,
        ) == Some(db)
}

/// A sample has a value of one label.
pub open spec fn labelled(e: (Seq<char>, u64), label: Seq<char>, v: Seq<char>) -> bool {
    label_of(exposition::split_key(e.0).1, label) == Some(v)
}

/// What a filter keeps was there, and passes it.
pub proof fn lemma_kept(entries: Seq<(Seq<char>, u64)>, keep: spec_fn((Seq<char>, u64)) -> bool)
    ensures
        forall|i: int|
            0 <= i < entries.filter(keep).len() ==> keep(#[trigger] entries.filter(keep)[i])
                && entries.contains(entries.filter(keep)[i]),
    decreases entries.len(),
{
    reveal(Seq::filter);
    if entries.len() > 0 {
        let rest = entries.drop_last();
        lemma_kept(rest, keep);
        assert forall|i: int| 0 <= i < entries.filter(keep).len() implies keep(
            #[trigger] entries.filter(keep)[i],
        ) && entries.contains(entries.filter(keep)[i]) by {
            let e = entries.filter(keep)[i];
            if i < rest.filter(keep).len() {
                assert(e == rest.filter(keep)[i]);
                let j = choose|j: int| 0 <= j < rest.len() && rest[j] == e;
                assert(entries[j] == e);
            } else {
                assert(entries[entries.len() - 1] == e);
            }
        }
    }
}

/// The entries of a scrape are its samples, each once.
pub proof fn the_entries_are_the_samples(s: Snapshot)
    requires
        s.valid(),
    ensures
        s.entries().no_duplicates(),
        forall|e: (Seq<char>, u64)| #[trigger]
            s.entries().contains(e) <==> s@.contains_key(e.0) && s@[e.0] == e.1,
{
    let ks = s.keys();
    let es = s.entries();
    named::lemma_distinct(ks);
    assert forall|i: int, j: int| 0 <= i < es.len() && 0 <= j < es.len() && i != j implies es[i]
        != es[j] by {
        assert(es[i].0 == ks[i] && es[j].0 == ks[j]);
    }
    assert forall|e: (Seq<char>, u64)| #[trigger] es.contains(e) <==> s@.contains_key(e.0)
        && s@[e.0] == e.1 by {
        if es.contains(e) {
            let i = choose|i: int| 0 <= i < es.len() && es[i] == e;
            assert(ks.contains(ks[i]));
            assert(s@.contains_key(ks[i]));
        }
        if s@.contains_key(e.0) && s@[e.0] == e.1 {
            assert(ks.contains(e.0));
            let i = choose|i: int| 0 <= i < ks.len() && ks[i] == e.0;
            assert(es[i] == e);
        }
    }
}

/// A group is what its label says: there is one for each value that some sample has and that is
/// not empty, and it holds the values of the samples that have it, in their order.
pub proof fn a_group_is_what_its_label_says(
    entries: Seq<(Seq<char>, u64)>,
    label: Seq<char>,
    v: Seq<char>,
)
    ensures
        groups_of(entries, label).contains_key(v) <==> v.len() > 0 && exists|i: int|
            0 <= i < entries.len() && labelled(#[trigger] entries[i], label, v),
        groups_of(entries, label).contains_key(v) ==> groups_of(entries, label)[v]
            == entries.filter(|e: (Seq<char>, u64)| labelled(e, label, v)).map_values(
            |e: (Seq<char>, u64)| e.1,
        ),
    decreases entries.len(),
{
    reveal(Seq::filter);
    let keep = |e: (Seq<char>, u64)| labelled(e, label, v);
    let bits = |e: (Seq<char>, u64)| e.1;
    if entries.len() > 0 {
        let rest = entries.drop_last();
        let last = entries.last();
        a_group_is_what_its_label_says(rest, label, v);
        assert(entries[entries.len() - 1] == last);
        if exists|i: int| 0 <= i < rest.len() && labelled(#[trigger] rest[i], label, v) {
            let i = choose|i: int| 0 <= i < rest.len() && labelled(#[trigger] rest[i], label, v);
            assert(entries[i] == rest[i]);
        }
        if exists|i: int| 0 <= i < entries.len() && labelled(#[trigger] entries[i], label, v) {
            let i = choose|i: int|
                0 <= i < entries.len() && labelled(#[trigger] entries[i], label, v);
            if i < rest.len() {
                assert(rest[i] == entries[i]);
            }
        }
        let before = rest.filter(keep);
        if labelled(last, label, v) {
            assert(entries.filter(keep) == before.push(last));
            assert(entries.filter(keep).map_values(bits) =~= before.map_values(bits).push(last.1));
            if !groups_of(rest, label).contains_key(v) && v.len() > 0 {
                assert(before.len() == 0) by {
                    if before.len() > 0 {
                        lemma_kept(rest, keep);
                        assert(rest.contains(before[0]));
                        let i = choose|i: int| 0 <= i < rest.len() && rest[i] == before[0];
                        assert(labelled(rest[i], label, v));
                    }
                }
                assert(before.map_values(bits).push(last.1) =~= seq![last.1]);
            }
        } else {
            assert(entries.filter(keep) == before);
        }
    }
}

/// The values of each vector of a table.
pub open spec fn group_views(m: Map<Seq<char>, Vec<u64>>) -> Map<Seq<char>, Seq<u64>> {
    m.map_values(|v: Vec<u64>| v@)
}

pub(crate) fn grown(list: Option<&Vec<u64>>, bits: u64) -> (v: Vec<u64>)
    ensures
        v@ == match list {
            Some(l) => l@.push(bits),
            None => seq![bits],
        },
{
    let mut v: Vec<u64> = Vec::new();
    if let Some(l) = list {
        for i in 0..l.len()
            invariant
                v@ == l@.take(i as int),
        {
            v.push(l[i]);
            assert(l@.take(i + 1) =~= l@.take(i as int).push(l@[i as int]));
        }
        assert(l@.take(l@.len() as int) =~= l@);
    }
    v.push(bits);
    v
}

impl Snapshot {
    /// The values of a family that pass the filters, by the value of one label.
    pub fn group_by(&self, name: &str, label: &str, filters: &Vec<String>) -> (t: Named<Vec<u64>>)
        requires
            self.valid(),
        ensures
            t.valid(),
            group_views(t@) == groups_of(
                self.entries().filter(
                    |e: (Seq<char>, u64)| selected(e.0, name@, text::texts(filters@)),
                ),
                label@,
            ),
    {
        let series: Vec<Series> = self.matching(name, filters);
        let ghost es = entries_of(series@);
        let mut t: Named<Vec<u64>> = Named::new();
        assert(group_views(t@) =~= Map::empty());
        assert(es.take(0) =~= Seq::<(Seq<char>, u64)>::empty());
        for i in 0..series.len()
            invariant
                t.valid(),
                es == entries_of(series@),
                group_views(t@) == groups_of(es.take(i as int), label@),
        {
            let ghost before = group_views(t@);
            let s = &series[i];
            assert(es.take(i + 1).drop_last() =~= es.take(i as int));
            assert(es.take(i + 1).last() == (s.key@, s.bits));
            let (_, labels) = exposition::split_key_of(s.key.as_str());
            if let Some(v) = label_value(labels.as_str(), label) {
                if !v.as_str().is_empty() {
                    let ghost k = v@;
                    let list: Vec<u64> = grown(t.get(v.as_str()), s.bits);
                    let ghost now = list@;
                    let _ = t.insert(v, list);
                    assert(group_views(t@) =~= before.insert(k, now));
                }
            }
        }
        assert(es.take(es.len() as int) =~= es);
        t
    }

    /// The databases of a scrape, each once, in order.
    pub fn databases(&self) -> (v: Named<bool>)
        requires
            self.valid(),
        ensures
            v.valid(),
            forall|d: Seq<char>| #[trigger] v@.contains_key(d) <==> some_series_of(self@, d),
    {
        let mut v: Named<bool> = Named::new();
        let n: usize = self.len();
        for i in 0..n
            invariant
                self.valid(),
                v.valid(),
                n == self.keys().len(),
                forall|d: Seq<char>| #[trigger] v@.contains_key(d) ==> some_series_of(self@, d),
                forall|j: int|
                    0 <= j < i ==> (label_of(
                        exposition::split_key(#[trigger] self.keys()[j]).1,
                        "db"@,
                    ) matches Some(d) ==> v@.contains_key(d)),
        {
            let key = self.key_at(i);
            let (_, labels) = exposition::split_key_of(key);
            proof {
                assert(self.keys()[i as int] == key@);
                assert(self.keys().contains(self.keys()[i as int]));
                assert(self@.contains_key(key@));
            }
            if let Some(db) = label_value(labels.as_str(), "db") {
                let ghost before = v@;
                let ghost d = db@;
                let _ = v.insert(db, true);
                assert(some_series_of(self@, d));
                assert(v@ == before.insert(d, true));
            }
        }
        proof {
            let p = |k: Seq<char>|
                (label_of(exposition::split_key(k).1, "db"@) matches Some(d) ==> v@.contains_key(
                    d,
                ));
            assert forall|j: int| 0 <= j < self.keys().len() implies p(
                #[trigger] self.keys()[j],
            ) by {}
            self.lemma_every(p);
            assert forall|d: Seq<char>| some_series_of(self@, d) implies #[trigger] v@.contains_key(
                d,
            ) by {
                let k = choose|k: Seq<char>| #[trigger]
                    self@.contains_key(k) && label_of(exposition::split_key(k).1, "db"@) == Some(d);
                assert(p(k));
            }
        }
        v
    }

    /// The databases that expose a family: those that a report can measure.
    pub fn databases_with(&self, name: &str) -> (v: Named<bool>)
        requires
            self.valid(),
        ensures
            v.valid(),
            forall|d: Seq<char>| #[trigger] v@.contains_key(d) <==> exposes(self@, name@, d),
    {
        let mut v: Named<bool> = Named::new();
        let n: usize = self.len();
        for i in 0..n
            invariant
                self.valid(),
                v.valid(),
                n == self.keys().len(),
                forall|d: Seq<char>| #[trigger] v@.contains_key(d) ==> exposes(self@, name@, d),
                forall|j: int|
                    0 <= j < i && exposition::split_key(#[trigger] self.keys()[j]).0 == name@ ==> (
                    label_of(exposition::split_key(self.keys()[j]).1, "db"@) matches Some(d)
                        ==> v@.contains_key(d)),
        {
            let key = self.key_at(i);
            let (family, labels) = exposition::split_key_of(key);
            proof {
                assert(self.keys()[i as int] == key@);
                assert(self.keys().contains(self.keys()[i as int]));
                assert(self@.contains_key(key@));
            }
            if text::same_text(family.as_str(), name) {
                if let Some(db) = label_value(labels.as_str(), "db") {
                    let ghost before = v@;
                    let ghost d = db@;
                    let _ = v.insert(db, true);
                    assert(exposes(self@, name@, d));
                    assert(v@ == before.insert(d, true));
                }
            }
        }
        proof {
            let p = |k: Seq<char>|
                exposition::split_key(k).0 == name@ ==> (label_of(
                    exposition::split_key(k).1,
                    "db"@,
                ) matches Some(d) ==> v@.contains_key(d));
            assert forall|j: int| 0 <= j < self.keys().len() implies p(
                #[trigger] self.keys()[j],
            ) by {}
            self.lemma_every(p);
            assert forall|d: Seq<char>| exposes(self@, name@, d) implies #[trigger] v@.contains_key(
                d,
            ) by {
                let k = choose|k: Seq<char>| #[trigger]
                    self@.contains_key(k) && exposition::split_key(k).0 == name@ && label_of(
                        exposition::split_key(k).1,
                        "db"@,
                    ) == Some(d);
                assert(p(k));
            }
        }
        v
    }
}

/// The place of a value in the total order of floating-point numbers.
pub open spec fn total_rank(bits: u64) -> int {
    if bits >= 0x8000_0000_0000_0000 {
        0x8000_0000_0000_0000 - bits - 1
    } else {
        bits as int
    }
}

/// A group by its sum: larger sums first, and among equal sums the group that was there first.
#[derive(Clone, Copy, Debug, PartialEq, Eq, Structural)]
pub struct GroupSum {
    pub bits: u64,
    pub index: usize,
}

impl Ranked for GroupSum {
    open spec fn leq(self, other: GroupSum) -> bool {
        total_rank(self.bits) > total_rank(other.bits) || (self.bits == other.bits && self.index
            <= other.index)
    }

    proof fn leq_is_total() {
    }

    fn at_most(&self, other: &GroupSum) -> (yes: bool) {
        if self.bits == other.bits {
            self.index <= other.index
        } else if self.bits >= 0x8000_0000_0000_0000 {
            other.bits >= 0x8000_0000_0000_0000 && self.bits < other.bits
        } else {
            other.bits >= 0x8000_0000_0000_0000 || self.bits > other.bits
        }
    }
}

/// The sums that are not zero, each with its group.
pub open spec fn nonzero(sums: Seq<u64>) -> Seq<GroupSum>
    decreases sums.len(),
{
    if sums.len() == 0 {
        Seq::empty()
    } else {
        let before = nonzero(sums.drop_last());
        if zero(sums.last()) {
            before
        } else {
            before.push(GroupSum { bits: sums.last(), index: (sums.len() - 1) as usize })
        }
    }
}

/// Orders groups by their sums, largest first. A group that did not move is left out.
pub fn ranked(sums: &Vec<u64>) -> (v: Vec<GroupSum>)
    ensures
        v@ == sort::sorted(nonzero(sums@)),
{
    let mut kept: Vec<GroupSum> = Vec::new();
    assert(sums@.take(0) =~= Seq::<u64>::empty());
    for i in 0..sums.len()
        invariant
            kept@ == nonzero(sums@.take(i as int)),
    {
        assert(sums@.take(i + 1).drop_last() =~= sums@.take(i as int));
        let bits: u64 = sums[i];
        if bits != 0 && bits != 0x8000_0000_0000_0000 {
            kept.push(GroupSum { bits, index: i });
        }
    }
    assert(sums@.take(sums@.len() as int) =~= sums@);
    sort::sort(&kept)
}

// ------------------------------------------------------------------------------------------
//  Values, selections and changes
// ------------------------------------------------------------------------------------------

/// The bits of a number are its sign and its magnitude. It is finite unless all bits of its exponent
/// are set, negative where it has the sign and is neither zero nor no number, and its size is its
/// magnitude with the sign.
pub proof fn the_bits_are_sign_and_magnitude(sign: u64, exponent: u64, fraction: u64)
    requires
        sign <= 1,
        exponent <= 2047,
        fraction < 0x10_0000_0000_0000,
    ensures
        ({
            let magnitude = exponent * 0x10_0000_0000_0000 + fraction;
            let bits = (sign * 0x8000_0000_0000_0000 + magnitude) as u64;
            &&& bits == sign * 0x8000_0000_0000_0000 + magnitude
            &&& finite(bits) <==> exponent != 2047
            &&& size(bits) == if sign == 1 {
                -magnitude
            } else {
                magnitude
            }
            &&& zero(bits) <==> magnitude == 0
            &&& negative(bits) <==> sign == 1 && magnitude > 0 && !(exponent == 2047 && fraction
                > 0)
        }),
{
    let magnitude = exponent * 0x10_0000_0000_0000 + fraction;
    let bits = sign * 0x8000_0000_0000_0000 + magnitude;
    assert(bits <= u64::MAX);
    assert(bits / 0x10_0000_0000_0000 == sign * 0x800 + exponent);
    assert((sign * 0x800 + exponent) % 0x800 == exponent);
}

/// The counters are the three parts of the two histograms of times, and the five totals.
pub proof fn the_counters_are_times_and_totals(name: Seq<char>)
    ensures
        is_counter(name) <==> {
            ||| exists|of: Seq<char>, part: Seq<char>|
                #![trigger of + part]
                {
                    &&& of == "spacetime_txn_cpu_time_sec"@ || of
                        == "spacetime_reducer_wait_time_sec"@
                    &&& part == "_sum"@ || part == "_count"@ || part == "_bucket"@
                    &&& name == of + part
                }
            ||| name == "spacetime_num_txns_total"@
            ||| exists|what: Seq<char>|
                #![trigger "spacetime_num_rows_"@ + what]
                {
                    &&& what == "inserted"@ || what == "deleted"@ || what == "scanned"@
                    &&& name == "spacetime_num_rows_"@ + what + "_total"@
                }
            ||| name == "spacetime_num_bytes_sent_to_clients_total"@
        },
{
    reveal_strlit("spacetime_txn_cpu_time_sec");
    reveal_strlit("spacetime_reducer_wait_time_sec");
    reveal_strlit("_sum");
    reveal_strlit("_count");
    reveal_strlit("_bucket");
    reveal_strlit("spacetime_num_rows_");
    reveal_strlit("inserted");
    reveal_strlit("deleted");
    reveal_strlit("scanned");
    reveal_strlit("_total");
    reveal_strlit("spacetime_txn_cpu_time_sec_sum");
    reveal_strlit("spacetime_txn_cpu_time_sec_count");
    reveal_strlit("spacetime_txn_cpu_time_sec_bucket");
    reveal_strlit("spacetime_reducer_wait_time_sec_sum");
    reveal_strlit("spacetime_reducer_wait_time_sec_count");
    reveal_strlit("spacetime_reducer_wait_time_sec_bucket");
    reveal_strlit("spacetime_num_rows_inserted_total");
    reveal_strlit("spacetime_num_rows_deleted_total");
    reveal_strlit("spacetime_num_rows_scanned_total");
    assert("spacetime_txn_cpu_time_sec"@ + "_sum"@ =~= "spacetime_txn_cpu_time_sec_sum"@);
    assert("spacetime_txn_cpu_time_sec"@ + "_count"@ =~= "spacetime_txn_cpu_time_sec_count"@);
    assert("spacetime_txn_cpu_time_sec"@ + "_bucket"@ =~= "spacetime_txn_cpu_time_sec_bucket"@);
    assert("spacetime_reducer_wait_time_sec"@ + "_sum"@ =~= "spacetime_reducer_wait_time_sec_sum"@);
    assert("spacetime_reducer_wait_time_sec"@ + "_count"@
        =~= "spacetime_reducer_wait_time_sec_count"@);
    assert("spacetime_reducer_wait_time_sec"@ + "_bucket"@
        =~= "spacetime_reducer_wait_time_sec_bucket"@);
    assert("spacetime_num_rows_"@ + "inserted"@ + "_total"@
        =~= "spacetime_num_rows_inserted_total"@);
    assert("spacetime_num_rows_"@ + "deleted"@ + "_total"@
        =~= "spacetime_num_rows_deleted_total"@);
    assert("spacetime_num_rows_"@ + "scanned"@ + "_total"@
        =~= "spacetime_num_rows_scanned_total"@);
}

/// A series passes filters just if each of them is a piece of its labels.
pub proof fn a_filter_is_a_piece_of_the_labels(
    before: Seq<char>,
    filter: Seq<char>,
    behind: Seq<char>,
    filters: Seq<Seq<char>>,
)
    ensures
        passes(before + filter + behind, seq![filter]),
        passes(before + filter + behind, filters.push(filter)) <==> passes(
            before + filter + behind,
            filters,
        ),
        passes(before, filters) && filters.len() > 0 ==> exists|a: Seq<char>, b: Seq<char>|
            before == #[trigger] (a + filters[0] + b),
{
    let all = before + filter + behind;
    assert(all.subrange(before.len() as int, (before.len() + filter.len()) as int) =~= filter);
    assert(text::occurs_at(all, filter, before.len() as int));
    assert(text::has_text(all, filter));
    let more = filters.push(filter);
    if passes(all, more) {
        assert forall|i: int| 0 <= i < filters.len() implies text::has_text(
            all,
            #[trigger] filters[i],
        ) by {
            assert(more[i] == filters[i]);
        }
    }
    if passes(before, filters) && filters.len() > 0 {
        assert(text::has_text(before, filters[0]));
        let i = choose|i: int| #[trigger] text::occurs_at(before, filters[0], i);
        let a = before.take(i);
        let b = before.skip(i + filters[0].len());
        assert(before =~= a + filters[0] + b);
    }
}

/// A database is selected by the beginning of its identity.
pub proof fn a_database_is_selected_by_its_beginning(
    before: Seq<char>,
    db: Seq<char>,
    more: Seq<char>,
    behind: Seq<char>,
)
    ensures
        passes(before + "db=\""@ + db + more + behind, seq![database_filter(db)]),
        db.len() > 0 ==> database_filter(db).len() == db.len() + 4,
{
    reveal_strlit("db=\"");
    if db.len() == 0 {
        let all = before + "db=\""@ + db + more + behind;
        assert(all.subrange(0, 0) =~= database_filter(db));
        assert(text::occurs_at(all, database_filter(db), 0));
    } else {
        a_filter_is_a_piece_of_the_labels(before, "db=\""@ + db, more + behind, Seq::empty());
        assert(before + ("db=\""@ + db) + (more + behind) =~= before + "db=\""@ + db + more
            + behind);
    }
}

/// The labels of a series are read from its key: each has its value, and there is no other.
pub proof fn a_label_has_its_value(
    name: Seq<char>,
    keys: Seq<Seq<char>>,
    labels: Map<Seq<char>, Seq<char>>,
    label: Seq<char>,
)
    requires
        exposition::is_name(name, true),
        exposition::lists_names(keys, labels),
        forall|i: int| 0 <= i < keys.len() ==> exposition::is_name(#[trigger] keys[i], false),
    ensures
        label_of(exposition::split_key(exposition::canonical(name, labels)).1, label)
            == if labels.contains_key(label) {
            Some(labels[label])
        } else {
            None
        },
{
    exposition::a_key_tells_its_series(name, keys, labels);
}

/// A series is chosen just if it has the name and every wanted label has its whole value.
pub proof fn a_series_is_chosen_by_whole_values(
    name: Seq<char>,
    keys: Seq<Seq<char>>,
    labels: Map<Seq<char>, Seq<char>>,
    wanted_name: Seq<char>,
    w: Seq<(Seq<char>, Seq<char>)>,
)
    requires
        exposition::is_name(name, true),
        exposition::lists_names(keys, labels),
        forall|i: int| 0 <= i < keys.len() ==> exposition::is_name(#[trigger] keys[i], false),
    ensures
        exactly(exposition::canonical(name, labels), wanted_name, w) <==> name == wanted_name
            && forall|i: int|
            0 <= i < w.len() ==> labels.contains_key((#[trigger] w[i]).0) && labels[w[i].0]
                == w[i].1,
{
    exposition::a_key_tells_its_series(name, keys, labels);
    let labels_text = exposition::split_key(exposition::canonical(name, labels)).1;
    if fits(labels_text, w) {
        assert forall|i: int| 0 <= i < w.len() implies labels.contains_key((#[trigger] w[i]).0)
            && labels[w[i].0] == w[i].1 by {
            assert(label_of(labels_text, w[i].0) == Some(w[i].1));
        }
    }
}

/// Windows that follow each other join: where one ends the next begins, and both together go from
/// where the first began to where the second ended. A series that is new begins at zero.
pub proof fn windows_join(
    a: Map<Seq<char>, u64>,
    b: Map<Seq<char>, u64>,
    c: Map<Seq<char>, u64>,
    key: Seq<char>,
)
    requires
        b.contains_key(key),
        c.contains_key(key),
    ensures
        change(a, b, key).after == change(b, c, key).before,
        change(a, c, key).before == change(a, b, key).before,
        change(a, c, key).after == change(b, c, key).after,
        change(a, b, key).key == key,
        !a.contains_key(key) ==> change(a, b, key).before == 0,
        change(b, b, key).before == change(b, b, key).after,
        change(b, b, key).after == b[key],
{
}

proof fn lemma_nonzero(sums: Seq<u64>, g: GroupSum)
    requires
        sums.len() <= usize::MAX,
    ensures
        nonzero(sums).contains(g) <==> g.index < sums.len() && sums[g.index as int] == g.bits
            && !zero(g.bits),
        nonzero(sums).no_duplicates(),
        forall|i: int| 0 <= i < nonzero(sums).len() ==> (#[trigger] nonzero(sums)[i]).index
            < sums.len(),
    decreases sums.len(),
{
    if sums.len() > 0 {
        let rest = sums.drop_last();
        lemma_nonzero(rest, g);
        let before = nonzero(rest);
        let all = nonzero(sums);
        let last = GroupSum { bits: sums.last(), index: (sums.len() - 1) as usize };
        if !zero(sums.last()) {
            assert(all == before.push(last));
            assert(all[all.len() - 1] == last);
            assert(forall|i: int| 0 <= i < before.len() ==> all[i] == before[i]);
            if all.contains(g) {
                let i = choose|i: int| 0 <= i < all.len() && all[i] == g;
                if i < before.len() {
                    assert(before.contains(g));
                }
            }
            if before.contains(g) {
                let i = choose|i: int| 0 <= i < before.len() && before[i] == g;
                assert(all[i] == g);
            }
        }
    }
}

/// The groups are ranked by their sums: every group whose sum is not zero is there, once and with
/// its sum, no other is, and none has a larger sum than one that stands before it. Of two that have
/// the same, the one that was there first stands first.
pub proof fn the_largest_group_stands_first(sums: Seq<u64>, g: GroupSum, i: int, j: int)
    requires
        sums.len() <= usize::MAX,
    ensures
        ({
            let v = sort::sorted(nonzero(sums));
            &&& v.contains(g) <==> g.index < sums.len() && sums[g.index as int] == g.bits
                && g.bits != 0 && g.bits != 0x8000_0000_0000_0000
            &&& v.no_duplicates()
            &&& 0 <= i < j < v.len() ==> size(v[i].bits) >= size(v[j].bits) && (v[i].bits
                == v[j].bits ==> v[i].index < v[j].index)
        }),
{
    lemma_nonzero(sums, g);
    let v = sort::sorted(nonzero(sums));
    sort::lemma_sorted_ensures(nonzero(sums));
    assert(v.no_duplicates()) by {
        broadcast use vstd::seq_lib::group_to_multiset_ensures;

        nonzero(sums).lemma_multiset_has_no_duplicates();
        v.lemma_multiset_has_no_duplicates_conv();
    }
    if 0 <= i < j < v.len() {
        let leq = |a: GroupSum, b: GroupSum| a.leq(b);
        assert(leq(v[i], v[j]));
        assert(v[i] != v[j]);
    }
}

/// With one more series a scrape exposes what it did before, and what that series is of.
pub proof fn a_series_exposes_its_family(
    samples: Map<Seq<char>, u64>,
    key: Seq<char>,
    v: u64,
    family: Seq<char>,
    db: Seq<char>,
)
    ensures
        exposes(samples.insert(key, v), family, db) <==> exposes(samples, family, db) || (
        exposition::split_key(key).0 == family && label_of(exposition::split_key(key).1, "db"@)
            == Some(db)),
        some_series_of(samples.insert(key, v), db) <==> some_series_of(samples, db) || label_of(
            exposition::split_key(key).1,
            "db"@,
        ) == Some(db),
        exposes(samples, family, db) ==> some_series_of(samples, db),
        !exposes(Map::empty(), family, db),
{
    let more = samples.insert(key, v);
    assert(more.contains_key(key));
    assert(forall|k: Seq<char>| #[trigger] samples.contains_key(k) ==> more.contains_key(k));
    assert(forall|k: Seq<char>|
        #[trigger] more.contains_key(k) ==> k == key || samples.contains_key(k));
}

} // verus!
