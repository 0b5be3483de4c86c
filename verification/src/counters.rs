//! Counter windows by group, and whether the buckets of a histogram can be believed.

use vstd::prelude::*;
use crate::exposition;
use crate::metrics;
use crate::metrics::{Change, Snapshot, Wanted};
use crate::named::Named;
use crate::sort;
use crate::sort::Ranked;
use crate::text;

verus! {

/// The ends of one series over a window.
#[derive(Clone, Copy, Debug, PartialEq, Eq, Structural)]
pub struct Ends {
    pub before: u64,
    pub after: u64,
}

/// Changes by the value of one label, up to the first that lacks it.
pub open spec fn grouped(changes: Seq<metrics::ChangeView>, group: Seq<char>) -> Result<
    Map<Seq<char>, Seq<Ends>>,
    Seq<char>,
>
    decreases changes.len(),
{
    if changes.len() == 0 {
        Ok(Map::empty())
    } else {
        match grouped(changes.drop_last(), group) {
            Err(e) => Err(e),
            Ok(m) => {
                let c = changes.last();
                let ends = Ends { before: c.before, after: c.after };
                match metrics::label_of(exposition::split_key(c.key).1, group) {
                    None => Err(c.key),
                    Some(v) => Ok(
                        m.insert(
                            v,
                            if m.contains_key(v) {
                                m[v].push(ends)
                            } else {
                                seq![ends]
                            },
                        ),
                    ),
                }
            },
        }
    }
}

/// The ends of each group.
pub open spec fn ends_views(m: Map<Seq<char>, Vec<Ends>>) -> Map<Seq<char>, Seq<Ends>> {
    m.map_values(|v: Vec<Ends>| v@)
}

/// Said of a series that lacks the label it is grouped by.
pub open spec fn ungrouped(name: Seq<char>, group: Seq<char>) -> Seq<char> {
    "counter "@ + name + " has no "@ + group + " label"@
}

/// The changes of one counter by the value of one label.
pub open spec fn grouped_changes(
    keys: Seq<Seq<char>>,
    before: Map<Seq<char>, u64>,
    later_keys: Seq<Seq<char>>,
    later: Map<Seq<char>, u64>,
    name: Seq<char>,
    w: Seq<(Seq<char>, Seq<char>)>,
    group: Seq<char>,
) -> Result<Map<Seq<char>, Seq<Ends>>, Seq<char>> {
    match metrics::counter_changes(keys, before, later_keys, later, name, w) {
        Err(e) => Err(e),
        Ok(changes) => match grouped(changes, group) {
            Err(_) => Err(ungrouped(name, group)),
            Ok(m) => Ok(m),
        },
    }
}

fn grown(list: Option<&Vec<Ends>>, ends: Ends) -> (v: Vec<Ends>)
    ensures
        v@ == match list {
            Some(l) => l@.push(ends),
            None => seq![ends],
        },
{
    let mut v: Vec<Ends> = Vec::new();
    if let Some(l) = list {
        for i in 0..l.len()
            invariant
                v@ == l@.take(i as int),
        {
            v.push(l[i]);
            assert(l@.take(i + 1) =~= l@.take(i as int).push(l@[i as int]));
        }
        assert(l@.take(l@.len() as int) =~= l@);
    }
    v.push(ends);
    v
}

proof fn lemma_grouped_stops(changes: Seq<metrics::ChangeView>, group: Seq<char>, n: int)
    requires
        0 <= n <= changes.len(),
    ensures
        grouped(changes.take(n), group) is Err ==> grouped(changes, group) == grouped(
            changes.take(n),
            group,
        ),
    decreases changes.len() - n,
{
    if n == changes.len() {
        assert(changes.take(n) =~= changes);
    } else {
        lemma_grouped_stops(changes, group, n + 1);
        assert(changes.take(n + 1).drop_last() =~= changes.take(n));
    }
}

/// The changes of one counter over a window by the value of one label, by complete label values.
pub fn grouped_delta(
    before: &Snapshot,
    after: &Snapshot,
    name: &str,
    labels: &Vec<Wanted>,
    group: &str,
) -> (r: Result<Named<Vec<Ends>>, String>)
    requires
        before.valid(),
        after.valid(),
    ensures
        match (
            r,
            grouped_changes(
                before.keys(),
                before@,
                after.keys(),
                after@,
                name@,
                metrics::wanted(labels@),
                group@,
            ),
        ) {
            (Ok(t), Ok(w)) => t.valid() && ends_views(t@) == w,
            (Err(said), Err(words)) => said@ == words,
            _ => false,
        },
{
    let changes: Vec<Change> = match before.counter_delta(after, name, labels) {
        Err(e) => return Err(e),
        Ok(changes) => changes,
    };
    let ghost cs = metrics::changes_of(changes@);
    let mut t: Named<Vec<Ends>> = Named::new();
    assert(ends_views(t@) =~= Map::empty());
    assert(cs.take(0) =~= Seq::<metrics::ChangeView>::empty());
    for i in 0..changes.len()
        invariant
            t.valid(),
            cs == metrics::changes_of(changes@),
            metrics::counter_changes(
                before.keys(),
                before@,
                after.keys(),
                after@,
                name@,
                metrics::wanted(labels@),
            ) == Ok::<Seq<metrics::ChangeView>, Seq<char>>(cs),
            grouped(cs.take(i as int), group@) == Ok::<Map<Seq<char>, Seq<Ends>>, Seq<char>>(
                ends_views(t@),
            ),
    {
        let ghost now = ends_views(t@);
        let c = &changes[i];
        proof {
            assert(cs.take(i + 1).drop_last() =~= cs.take(i as int));
            assert(cs.take(i + 1).last() == c@);
            lemma_grouped_stops(cs, group@, i + 1);
        }
        let (_, encoded) = exposition::split_key_of(c.key.as_str());
        match metrics::label_value(encoded.as_str(), group) {
            None => {
                let mut said: String = "counter ".to_owned();
                said.append(name);
                said.append(" has no ");
                said.append(group);
                said.append(" label");
                return Err(said);
            },
            Some(v) => {
                let ghost k = v@;
                let list: Vec<Ends> = grown(
                    t.get(v.as_str()),
                    Ends { before: c.before, after: c.after },
                );
                let ghost l = list@;
                let _ = t.insert(v, list);
                assert(ends_views(t@) =~= now.insert(k, l));
            },
        }
    }
    assert(cs.take(cs.len() as int) =~= cs);
    Ok(t)
}

/// Every outcome is one that is known.
pub open spec fn all_known(outcomes: Seq<Seq<char>>) -> bool {
    forall|i: int|
        0 <= i < outcomes.len() ==> #[trigger] outcomes[i] == "true"@ || outcomes[i] == "false"@
}

/// Whether every outcome of a transaction is one that is known: committed or not.
pub fn known_outcomes(outcomes: &Named<Vec<Ends>>) -> (yes: bool)
    ensures
        yes == all_known(outcomes.keys()),
{
    let n: usize = outcomes.len();
    for i in 0..n
        invariant
            n == outcomes.keys().len(),
            forall|j: int|
                0 <= j < i ==> #[trigger] outcomes.keys()[j] == "true"@ || outcomes.keys()[j]
                    == "false"@,
    {
        let key = outcomes.name_at(i);
        if !text::same_text(key, "true") && !text::same_text(key, "false") {
            assert(outcomes.keys()[i as int] == key@);
            return false;
        }
    }
    true
}

// ------------------------------------------------------------------------------------------
//  Histograms
// ------------------------------------------------------------------------------------------

/// A bucket of a histogram: its upper bound, and how many values lie at or below it.
#[derive(Clone, Copy, Debug, PartialEq, Eq, Structural)]
pub struct Bucket {
    pub bound: u64,
    pub count: u64,
}

/// The bits of infinity.
pub const INFINITE: u64 = 0x7ff0_0000_0000_0000;

/// A bound that a bucket can have: a number, and not below zero.
pub open spec fn sound_bound(bits: u64) -> bool {
    bits <= INFINITE || bits == 0x8000_0000_0000_0000
}

impl Ranked for Bucket {
    open spec fn leq(self, other: Bucket) -> bool {
        metrics::total_rank(self.bound) < metrics::total_rank(other.bound) || (self.bound
            == other.bound && self.count <= other.count)
    }

    proof fn leq_is_total() {
    }

    fn at_most(&self, other: &Bucket) -> (yes: bool) {
        if self.bound == other.bound {
            self.count <= other.count
        } else if self.bound >= 0x8000_0000_0000_0000 {
            other.bound < 0x8000_0000_0000_0000 || self.bound > other.bound
        } else {
            other.bound < 0x8000_0000_0000_0000 && self.bound < other.bound
        }
    }
}

/// The same number: the same bits, or both zero.
pub open spec fn same_value(a: u64, b: u64) -> bool {
    metrics::size(a) == metrics::size(b)
}

/// Buckets that agree with the count of all values: bounds ascend, no count falls, and the last
/// bucket takes everything in.
pub open spec fn sound_buckets(b: Seq<Bucket>, count: u64) -> bool {
    &&& b.len() > 0
    &&& b.last().bound == INFINITE
    &&& same_value(b.last().count, count)
    &&& forall|i: int|
        0 <= i < b.len() - 1 ==> metrics::size((#[trigger] b[i]).count) <= metrics::size(
            b[i + 1].count,
        ) && !same_value(b[i].bound, b[i + 1].bound)
}

fn size_of(bits: u64) -> (n: i128)
    ensures
        n == metrics::size(bits),
{
    if bits >= 0x8000_0000_0000_0000 {
        0x8000_0000_0000_0000i128 - bits as i128
    } else {
        bits as i128
    }
}

/// Every bound is one that a bucket can have.
pub open spec fn sound_bounds(b: Seq<Bucket>) -> bool {
    forall|i: int| 0 <= i < b.len() ==> sound_bound((#[trigger] b[i]).bound)
}

/// The buckets of a histogram in order, where they agree with its count.
pub open spec fn in_order(buckets: Seq<Bucket>, count: u64) -> Option<Seq<Bucket>> {
    if sound_bounds(buckets) && sound_buckets(sort::sorted(buckets), count) {
        Some(sort::sorted(buckets))
    } else {
        None
    }
}

/// Puts the buckets of a histogram in order, where they agree with its count. All counts are
/// finite.
pub fn ordered_buckets(buckets: &Vec<Bucket>, count: u64) -> (r: Option<Vec<Bucket>>)
    ensures
        match r {
            Some(b) => in_order(buckets@, count) == Some(b@),
            None => in_order(buckets@, count) is None,
        },
{
    for i in 0..buckets.len()
        invariant
            forall|j: int| 0 <= j < i ==> sound_bound((#[trigger] buckets@[j]).bound),
    {
        let bound: u64 = buckets[i].bound;
        if bound > INFINITE && bound != 0x8000_0000_0000_0000 {
            assert(!sound_bound(buckets@[i as int].bound));
            return None;
        }
    }
    let b: Vec<Bucket> = sort::sort(buckets);
    let n: usize = b.len();
    if n == 0 {
        return None;
    }
    if b[n - 1].bound != INFINITE || size_of(b[n - 1].count) != size_of(count) {
        return None;
    }
    let last: usize = n - 1;
    for i in 0..last
        invariant
            n == b@.len(),
            last == n - 1,
            b@ == sort::sorted(buckets@),
            forall|j: int|
                0 <= j < i ==> metrics::size((#[trigger] b@[j]).count) <= metrics::size(
                    b@[j + 1].count,
                ) && !same_value(b@[j].bound, b@[j + 1].bound),
    {
        if size_of(b[i].count) > size_of(b[i + 1].count) || size_of(b[i].bound) == size_of(
            b[i + 1].bound,
        ) {
            assert(!(metrics::size(b@[i as int].count) <= metrics::size(b@[i + 1].count)
                && !same_value(b@[i as int].bound, b@[i + 1].bound)));
            return None;
        }
    }
    Some(b)
}

/// What the bounds of a histogram are.
pub const BUCKET_SCOPE: &'static str =
    "bucket upper bounds, not exact percentiles or an exact maximum";

/// What the writer's share of the time is.
pub const OCCUPANCY_SCOPE: &'static str =
    "reported reducer execution durations divided by the widest scrape interval; excludes later commit callbacks and lock-release work; asynchronous metrics and boundary transactions prevent an exact occupancy claim";

/// What an execution time is.
pub const EXECUTION_SCOPE: &'static str =
    "spacetime_txn_cpu_time_sec is elapsed minus lock wait, not operating-system CPU time";

/// What the queue's waits are.
pub const QUEUE_SCOPE: &'static str =
    "all selected Module operations; the metric labels do not include transaction type";

/// A bucket is the first that holds at least that many values.
pub open spec fn first_holding(buckets: Seq<Bucket>, wanted: u64, i: int) -> bool {
    &&& 0 <= i < buckets.len()
    &&& metrics::size(buckets[i].count) >= metrics::size(wanted)
    &&& forall|j: int|
        0 <= j < i ==> metrics::size((#[trigger] buckets[j]).count) < metrics::size(wanted)
}

/// A bound is that of the first bucket that holds at least that many values, where it is finite.
pub open spec fn bounds_wanted(buckets: Seq<Bucket>, wanted: u64, bound: Option<u64>) -> bool {
    match bound {
        Some(b) => b != INFINITE && exists|i: int| #[trigger]
            first_holding(buckets, wanted, i) && buckets[i].bound == b,
        None => forall|i: int| #[trigger]
            first_holding(buckets, wanted, i) ==> buckets[i].bound == INFINITE,
    }
}

/// The bound of the first bucket that holds at least that many values, where it is finite.
pub fn upper_bound(buckets: &Vec<Bucket>, wanted: u64) -> (bound: Option<u64>)
    ensures
        bounds_wanted(buckets@, wanted, bound),
{
    for i in 0..buckets.len()
        invariant
            forall|j: int|
                0 <= j < i ==> metrics::size((#[trigger] buckets@[j]).count) < metrics::size(
                    wanted,
                ),
    {
        if size_of(buckets[i].count) >= size_of(wanted) {
            let bound: u64 = buckets[i].bound;
            if bound == INFINITE {
                assert forall|k: int| #[trigger] first_holding(
                    buckets@,
                    wanted,
                    k,
                ) implies buckets@[k].bound == INFINITE by {
                    if k > i {
                        assert(metrics::size(buckets@[i as int].count) < metrics::size(wanted));
                    }
                }
                return None;
            }
            assert(first_holding(buckets@, wanted, i as int));
            return Some(bound);
        }
    }
    None
}

// ------------------------------------------------------------------------------------------
//  No series is lost
// ------------------------------------------------------------------------------------------

/// The ends of a change.
pub open spec fn ends_of(c: metrics::ChangeView) -> Ends {
    Ends { before: c.before, after: c.after }
}

/// A change is of a series whose label has a value.
pub open spec fn says(c: metrics::ChangeView, group: Seq<char>, v: Seq<char>) -> bool {
    metrics::label_of(exposition::split_key(c.key).1, group) == Some(v)
}

/// A change is of a series that has the label.
pub open spec fn has_label(c: metrics::ChangeView, group: Seq<char>) -> bool {
    exists|w: Seq<char>| says(c, group, w)
}

/// No series is lost in grouping: under each value of the label stand the ends of all changes
/// whose label has it, in their order, and of no other; a value without a change has no group; and
/// grouping succeeds just if every change has the label.
pub proof fn a_group_holds_every_change_of_its_label(
    changes: Seq<metrics::ChangeView>,
    group: Seq<char>,
    v: Seq<char>,
)
    ensures
        grouped(changes, group) is Ok <==> forall|i: int|
            0 <= i < changes.len() ==> has_label(#[trigger] changes[i], group),
        grouped(changes, group) matches Ok(m) ==> {
            &&& m.contains_key(v) <==> exists|i: int|
                0 <= i < changes.len() && says(#[trigger] changes[i], group, v)
            &&& m.contains_key(v) ==> m[v] == changes.filter(
                |c: metrics::ChangeView| says(c, group, v),
            ).map_values(|c: metrics::ChangeView| ends_of(c))
        },
    decreases changes.len(),
{
    reveal(Seq::filter);
    let keep = |c: metrics::ChangeView| says(c, group, v);
    let ends = |c: metrics::ChangeView| ends_of(c);
    if changes.len() > 0 {
        let rest = changes.drop_last();
        let last = changes.last();
        a_group_holds_every_change_of_its_label(rest, group, v);
        assert(changes[changes.len() - 1] == last);
        assert(forall|i: int| 0 <= i < rest.len() ==> rest[i] == changes[i]);
        if let Some(w) = metrics::label_of(exposition::split_key(last.key).1, group) {
            assert(says(last, group, w));
        }
        if grouped(changes, group) is Ok {
            assert forall|i: int| 0 <= i < changes.len() implies has_label(
                #[trigger] changes[i],
                group,
            ) by {
                if i < rest.len() {
                    assert(has_label(rest[i], group));
                }
            }
        } else if grouped(rest, group) is Err {
            let i = choose|i: int| 0 <= i < rest.len() && !has_label(#[trigger] rest[i], group);
            assert(!has_label(changes[i], group));
        }
        if grouped(changes, group) is Ok {
            let m = grouped(rest, group)->Ok_0;
            let before = rest.filter(keep);
            if exists|i: int| 0 <= i < rest.len() && says(#[trigger] rest[i], group, v) {
                let i = choose|i: int| 0 <= i < rest.len() && says(#[trigger] rest[i], group, v);
                assert(says(changes[i], group, v));
            }
            if exists|i: int| 0 <= i < changes.len() && says(#[trigger] changes[i], group, v) {
                let i = choose|i: int|
                    0 <= i < changes.len() && says(#[trigger] changes[i], group, v);
                if i < rest.len() {
                    assert(says(rest[i], group, v));
                }
            }
            if says(last, group, v) {
                assert(changes.filter(keep) == before.push(last));
                assert(changes.filter(keep).map_values(ends) =~= before.map_values(ends).push(
                    ends_of(last),
                ));
                if !m.contains_key(v) {
                    lemma_none_kept(rest, keep);
                    assert(before.map_values(ends).push(ends_of(last)) =~= seq![ends_of(last)]);
                }
            } else {
                assert(changes.filter(keep) == before);
            }
        }
    }
}

proof fn lemma_none_kept(s: Seq<metrics::ChangeView>, keep: spec_fn(metrics::ChangeView) -> bool)
    requires
        forall|i: int| 0 <= i < s.len() ==> !keep(#[trigger] s[i]),
    ensures
        s.filter(keep).len() == 0,
    decreases s.len(),
{
    reveal(Seq::filter);
    if s.len() > 0 {
        assert(!keep(s[s.len() - 1]));
        assert forall|i: int| 0 <= i < s.drop_last().len() implies !keep(
            #[trigger] s.drop_last()[i],
        ) by {
            assert(s.drop_last()[i] == s[i]);
        }
        lemma_none_kept(s.drop_last(), keep);
    }
}

/// A window is grouped in full: where the counter's changes can be read and all have the label,
/// they are all in the group of their value, and where one lacks the label the refusal names both.
pub proof fn a_window_is_grouped_in_full(
    keys: Seq<Seq<char>>,
    before: Map<Seq<char>, u64>,
    later_keys: Seq<Seq<char>>,
    later: Map<Seq<char>, u64>,
    name: Seq<char>,
    w: Seq<(Seq<char>, Seq<char>)>,
    group: Seq<char>,
    v: Seq<char>,
)
    ensures
        match metrics::counter_changes(keys, before, later_keys, later, name, w) {
            Err(e) => grouped_changes(keys, before, later_keys, later, name, w, group) == Err::<
                Map<Seq<char>, Seq<Ends>>,
                Seq<char>,
            >(e),
            Ok(changes) => if forall|i: int|
                0 <= i < changes.len() ==> has_label(#[trigger] changes[i], group) {
                &&& grouped_changes(keys, before, later_keys, later, name, w, group) matches Ok(m)
                &&& m.contains_key(v) <==> exists|i: int|
                    0 <= i < changes.len() && says(#[trigger] changes[i], group, v)
                &&& m.contains_key(v) ==> m[v] == changes.filter(
                    |c: metrics::ChangeView| says(c, group, v),
                ).map_values(|c: metrics::ChangeView| ends_of(c))
            } else {
                grouped_changes(keys, before, later_keys, later, name, w, group) == Err::<
                    Map<Seq<char>, Seq<Ends>>,
                    Seq<char>,
                >("counter "@ + name + " has no "@ + group + " label"@)
            },
        },
{
    if let Ok(changes) = metrics::counter_changes(keys, before, later_keys, later, name, w) {
        a_group_holds_every_change_of_its_label(changes, group, v);
    }
}

// ------------------------------------------------------------------------------------------
//  What a histogram says
// ------------------------------------------------------------------------------------------

/// An outcome is known exactly where it is one of two words.
pub proof fn two_outcomes_are_known(outcomes: Seq<Seq<char>>, other: Seq<char>)
    ensures
        all_known(Seq::empty()),
        all_known(outcomes) ==> all_known(outcomes.push("true"@)) && all_known(
            outcomes.push("false"@),
        ),
        other != "true"@ && other != "false"@ ==> !all_known(outcomes.push(other)),
        !all_known(outcomes) ==> !all_known(outcomes.push(other)),
{
    let more = outcomes.push(other);
    assert(more[outcomes.len() as int] == other);
    assert forall|i: int| 0 <= i < outcomes.len() implies outcomes[i] == more[i] by {}
}

/// The buckets of a histogram are put in order where they can be: nothing is lost or added, the bounds
/// rise strictly as numbers, the counts never fall, and the last takes in everything that was counted.
pub proof fn a_histogram_is_in_order(buckets: Seq<Bucket>, count: u64, i: int, j: int)
    requires
        in_order(buckets, count) is Some,
        0 <= i < j < buckets.len(),
    ensures
        ({
            let b = in_order(buckets, count)->0;
            &&& b.to_multiset() == buckets.to_multiset()
            &&& b.len() == buckets.len()
            &&& metrics::size(b[i].bound) < metrics::size(b[j].bound)
            &&& metrics::size(b[i].count) <= metrics::size(b[j].count)
            &&& b.last().bound == 0x7ff0_0000_0000_0000
            &&& metrics::size(b.last().count) == metrics::size(count)
        }),
{
    let b = in_order(buckets, count)->0;
    sort::lemma_sorted_ensures(buckets);
    lemma_bounds_sorted(buckets);
    assert(b.len() == buckets.len()) by {
        broadcast use vstd::seq_lib::group_to_multiset_ensures;

    }
    lemma_rising(b, count, i, j);
}

proof fn lemma_bounds_sorted(buckets: Seq<Bucket>)
    requires
        sound_bounds(buckets),
    ensures
        sound_bounds(sort::sorted(buckets)),
{
    broadcast use vstd::seq_lib::group_to_multiset_ensures;

    sort::lemma_sorted_ensures(buckets);
    let b = sort::sorted(buckets);
    assert forall|i: int| 0 <= i < b.len() implies sound_bound((#[trigger] b[i]).bound) by {
        assert(b.contains(b[i]));
        assert(b.to_multiset().count(b[i]) > 0);
        assert(buckets.contains(b[i]));
        let k = choose|k: int| 0 <= k < buckets.len() && buckets[k] == b[i];
        assert(sound_bound(buckets[k].bound));
    }
}

proof fn lemma_rising(b: Seq<Bucket>, count: u64, i: int, j: int)
    requires
        sound_bounds(b),
        sound_buckets(b, count),
        0 <= i < j < b.len(),
        sort::in_order(b),
    ensures
        metrics::size(b[i].bound) < metrics::size(b[j].bound),
        metrics::size(b[i].count) <= metrics::size(b[j].count),
    decreases j - i,
{
    let k = j - 1;
    let leq = |x: Bucket, y: Bucket| x.leq(y);
    assert(leq(b[k], b[j]));
    assert(sound_bound(b[k].bound) && sound_bound(b[j].bound));
    assert(metrics::size(b[k].count) <= metrics::size(b[k + 1].count) && !same_value(
        b[k].bound,
        b[k + 1].bound,
    ));
    assert(metrics::size(b[k].bound) < metrics::size(b[j].bound));
    if i < k {
        lemma_rising(b, count, i, k);
    }
}

/// A histogram cannot be put in order where it has no bucket, or where a bound is below zero or no
/// number.
pub proof fn a_histogram_is_refused_for_cause(buckets: Seq<Bucket>, count: u64, i: int)
    requires
        0 <= i < buckets.len(),
    ensures
        in_order(Seq::<Bucket>::empty(), count) is None,
        buckets[i].bound > 0x7ff0_0000_0000_0000 && buckets[i].bound != 0x8000_0000_0000_0000
            ==> in_order(buckets, count) is None,
{
    broadcast use vstd::seq_lib::group_to_multiset_ensures;

    let none = Seq::<Bucket>::empty();
    sort::lemma_sorted_ensures(none);
    assert(sort::sorted(none).len() == 0);
    if in_order(buckets, count) is Some {
        assert(sound_bound(buckets[i].bound));
    }
}

/// The bound that is told for so many values is one below which at least so many lie, and it is the
/// least such bound of an ordered histogram. None is told exactly where only the last bucket, whose
/// bound is infinite, holds so many.
pub proof fn a_bound_holds_what_is_wanted(
    buckets: Seq<Bucket>,
    count: u64,
    wanted: u64,
    bound: Option<u64>,
    k: int,
)
    requires
        in_order(buckets, count) is Some,
        bounds_wanted(in_order(buckets, count)->0, wanted, bound),
        metrics::size(wanted) <= metrics::size(count),
        0 <= k < buckets.len(),
    ensures
        ({
            let b = in_order(buckets, count)->0;
            let enough = metrics::size(b[k].count) >= metrics::size(wanted);
            &&& bound matches Some(v) ==> v < 0x7ff0_0000_0000_0000 || v == 0x8000_0000_0000_0000
            &&& bound matches Some(v) ==> (enough <==> metrics::size(b[k].bound) >= metrics::size(v))
            &&& bound is None ==> (enough <==> b[k].bound == 0x7ff0_0000_0000_0000)
        }),
{
    let b = in_order(buckets, count)->0;
    lemma_bounds_sorted(buckets);
    sort::lemma_sorted_ensures(buckets);
    assert(b.len() == buckets.len()) by {
        broadcast use vstd::seq_lib::group_to_multiset_ensures;

    }
    let f = lemma_first_holding(b, wanted, 0);
    assert(first_holding(b, wanted, f));
    if bound is Some {
        let g = choose|g: int| #[trigger] first_holding(b, wanted, g) && b[g].bound == bound->0;
        if f < g {
            assert(metrics::size(b[f].count) < metrics::size(wanted));
        }
        if g < f {
            assert(metrics::size(b[g].count) < metrics::size(wanted));
        }
        assert(sound_bound(b[g].bound));
    }
    if f < k {
        lemma_rising(b, count, f, k);
    }
    if k < f {
        lemma_rising(b, count, k, f);
        assert(metrics::size(b[k].count) < metrics::size(wanted));
    }
    let last = b.len() - 1;
    if bound is None {
        assert(b[f].bound == INFINITE);
        if f < last {
            lemma_rising(b, count, f, last);
        }
        if k < last {
            lemma_rising(b, count, k, last);
        }
    }
}

proof fn lemma_first_holding(b: Seq<Bucket>, wanted: u64, from: int) -> (f: int)
    requires
        0 <= from < b.len(),
        metrics::size(b.last().count) >= metrics::size(wanted),
        forall|j: int| 0 <= j < from ==> metrics::size((#[trigger] b[j]).count) < metrics::size(
            wanted,
        ),
    ensures
        first_holding(b, wanted, f),
    decreases b.len() - from,
{
    if metrics::size(b[from].count) >= metrics::size(wanted) {
        from
    } else {
        assert(from < b.len() - 1);
        lemma_first_holding(b, wanted, from + 1)
    }
}

} // verus!
