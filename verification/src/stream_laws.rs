//! What holds of every accepted pass and of every row replacement.

use crate::json::JsonView;
use crate::order;
use crate::sort::Ranked;
use crate::stream;
use crate::stream::{Due, Slot, StreamError, StreamView};
use vstd::prelude::*;

verus! {

/// Each accepted pass is later than the one before it, and the stream remembers its time.
pub proof fn pass_times_advance(s: StreamView, update: JsonView, expected: Set<u64>)
    ensures
        stream::applied(s, update, expected).1 matches Ok(Some(p)) ==> {
            &&& s.last is Some
            &&& p.observed_micros > s.last->0
            &&& stream::applied(s, update, expected).0.last == Some(p.observed_micros)
        },
{
}

/// An accepted update leaves exactly the staged roster under observation.
pub proof fn accepted_updates_keep_the_roster(s: StreamView, update: JsonView, expected: Set<u64>)
    ensures
        stream::applied(s, update, expected).1 is Ok ==> {
            &&& stream::applied(s, update, expected).0.rows.bots.dom() == expected
            &&& stream::applied(s, update, expected).0.rows.runners.dom().subset_of(expected)
        },
{
}

/// When the bot `g` was due as the pass of this update took it up.
pub open spec fn due_in(
    s: StreamView,
    update: JsonView,
    expected: Set<u64>,
    served: Seq<u64>,
    now: i64,
    g: u64,
) -> Result<i64, StreamError> {
    stream::taken_up(
        stream::applied(s, update, expected).0.rows.bots[g],
        served.contains(g),
        now,
    )
}

proof fn lemma_taken_up(
    before: Seq<Slot>,
    bots: Map<u64, JsonView>,
    served: Seq<u64>,
    now: i64,
    k: int,
)
    requires
        stream::all_taken_up(before, bots, served, now) is Ok,
        0 <= k < before.len(),
    ensures
        ({
            let t = stream::all_taken_up(before, bots, served, now)->Ok_0;
            &&& t.slots.len() == before.len()
            &&& t.slots[k].guid == before[k].guid
            &&& t.slots[k].id == before[k].id
            &&& t.slots[k].at is Some
            &&& stream::taken_up(bots[before[k].guid], served.contains(before[k].guid), now) == Ok::<
                i64,
                StreamError,
            >(t.slots[k].at->0)
        }),
    decreases before.len(),
{
    let rest = before.drop_last();
    if k < before.len() - 1 {
        lemma_taken_up(rest, bots, served, now, k);
    }
    lemma_taken_up_len(rest, bots, served, now);
}

proof fn lemma_taken_up_len(
    before: Seq<Slot>,
    bots: Map<u64, JsonView>,
    served: Seq<u64>,
    now: i64,
)
    ensures
        stream::all_taken_up(before, bots, served, now) matches Ok(t) ==> t.slots.len()
            == before.len(),
    decreases before.len(),
{
    if before.len() > 0 {
        lemma_taken_up_len(before.drop_last(), bots, served, now);
    }
}

proof fn lemma_slot_position(bots: Map<u64, JsonView>, g: u64) -> (k: int)
    requires
        bots.dom().finite(),
        bots.contains_key(g),
    ensures
        0 <= k < stream::slots(bots).len(),
        stream::slots(bots)[k] == stream::slot_of(g, bots[g]),
{
    order::lemma_ascending_exists(bots.dom());
    let keys = order::ascending(bots.dom());
    assert(keys.contains(g));
    let k = choose|k: int| 0 <= k < keys.len() && keys[k] == g;
    k
}

/// No due bot is lost: whatever was due when an accepted pass took it up is among the bots that
/// the pass served or among those that it left for later.
pub proof fn every_due_bot_is_served_or_deferred(
    s: StreamView,
    update: JsonView,
    expected: Set<u64>,
    g: u64,
    at: i64,
)
    requires
        s.rows.bots.dom().finite(),
        expected.finite(),
        s.rows.bots.contains_key(g),
        expected.contains(g),
        stream::applied(s, update, expected).1 matches Ok(Some(p)) && due_in(
            s,
            update,
            expected,
            p.processed_guids,
            p.observed_micros,
            g,
        ) == Ok::<i64, StreamError>(at) && at <= p.observed_micros,
    ensures
        stream::applied(s, update, expected).1 matches Ok(Some(p))
            && (p.processed_guids.contains(g) || p.deferred_guids.contains(g)),
{
    let p = stream::applied(s, update, expected).1->Ok_0->0;
    let now = p.observed_micros;
    let o = stream::applied(s, update, expected).0.rows;
    if !p.processed_guids.contains(g) {
        let now_slots = stream::slots(o.bots);
        let k = lemma_slot_position(o.bots, g);
        let left = stream::due_list(now_slots, now)->Ok_0;
        stream::lemma_due_guids(now_slots, now);
        let d = Due { at, id: now_slots[k].id->0, guid: g };
        assert(left.contains(d));
        let m = choose|m: int| 0 <= m < left.len() && left[m] == d;
        assert(stream::guids(left)[m] == g);
    }
}

/// A pass serves the earliest first: no bot that it left for later was due before one it served.
pub proof fn served_bots_were_due_first(
    s: StreamView,
    update: JsonView,
    expected: Set<u64>,
    a: u64,
    b: u64,
    at_a: i64,
    at_b: i64,
)
    requires
        s.rows.bots.dom().finite(),
        expected.finite(),
        s.rows.bots.contains_key(a),
        s.rows.bots.contains_key(b),
        stream::applied(s, update, expected).1 matches Ok(Some(p)) && {
            &&& p.processed_guids.contains(a)
            &&& p.deferred_guids.contains(b)
            &&& !p.processed_guids.contains(b)
            &&& due_in(s, update, expected, p.processed_guids, p.observed_micros, a) == Ok::<
                i64,
                StreamError,
            >(at_a)
            &&& due_in(s, update, expected, p.processed_guids, p.observed_micros, b) == Ok::<
                i64,
                StreamError,
            >(at_b)
        },
    ensures
        at_a <= at_b,
{
    let p = stream::applied(s, update, expected).1->Ok_0->0;
    let now = p.observed_micros;
    let o = stream::applied(s, update, expected).0.rows;
    let before = stream::slots(s.rows.bots);
    let t = stream::all_taken_up(before, o.bots, p.processed_guids, now)->Ok_0;
    let due = stream::due_list(t.slots, now)->Ok_0;
    stream::lemma_due_guids(t.slots, now);
    // The deferred bot is due by its own row, which is how the pass took it up.
    let left = stream::due_list(stream::slots(o.bots), now)->Ok_0;
    stream::lemma_due_guids(stream::slots(o.bots), now);
    let m = choose|m: int| 0 <= m < stream::guids(left).len() && stream::guids(left)[m] == b;
    assert(stream::listed_in(left[m], stream::slots(o.bots), now));
    let q = choose|q: int|
        0 <= q < stream::slots(o.bots).len() && stream::entry_of(
            left[m],
            #[trigger] stream::slots(o.bots)[q],
            now,
        );
    assert(at_b <= now);
    let kb = lemma_slot_position(s.rows.bots, b);
    lemma_taken_up(before, o.bots, p.processed_guids, now, kb);
    let db = Due { at: at_b, id: t.slots[kb].id->0, guid: b };
    assert(due.contains(db));
    let jb = choose|j: int| 0 <= j < due.len() && due[j] == db;
    let batch = stream::batch(due);
    let ja = choose|j: int| 0 <= j < p.processed_guids.len() && p.processed_guids[j] == a;
    assert(stream::guids(batch)[ja] == a);
    assert(due[ja].guid == a);
    if jb < batch.len() {
        assert(stream::guids(batch)[jb] == b);
        assert(p.processed_guids.contains(b));
    }
    assert(stream::listed_in(due[ja], t.slots, now));
    let la = choose|l: int|
        0 <= l < t.slots.len() && stream::entry_of(due[ja], #[trigger] t.slots[l], now);
    lemma_taken_up_len(before, o.bots, p.processed_guids, now);
    lemma_taken_up(before, o.bots, p.processed_guids, now, la);
    assert(due[ja].at == at_a);
    let leq = |a: Due, b: Due| a.leq(b);
    assert(vstd::relations::sorted_by(due, leq));
    assert(leq(due[ja], due[jb]));
}

/// The schedule before a pass, with the bots that the pass advanced due at the pass itself.
pub open spec fn advanced(before: Seq<Slot>, accelerated: Seq<u64>, now: i64) -> Seq<Slot> {
    before.map_values(
        |slot: Slot|
            if accelerated.contains(slot.guid) {
                Slot { at: Some(now), ..slot }
            } else {
                slot
            },
    )
}

/// No two slots are of the same bot.
pub open spec fn distinct_bots(slots: Seq<Slot>) -> bool {
    forall|i: int, j: int|
        0 <= i < j < slots.len() ==> (#[trigger] slots[i]).guid != (#[trigger] slots[j]).guid
}

proof fn lemma_advanced(
    before: Seq<Slot>,
    bots: Map<u64, JsonView>,
    served: Seq<u64>,
    now: i64,
)
    requires
        distinct_bots(before),
    ensures
        stream::all_taken_up(before, bots, served, now) matches Ok(t) ==> {
            &&& t.slots == advanced(before, t.accelerated, now)
            &&& forall|g: u64| #[trigger]
                t.accelerated.contains(g) ==> exists|k: int|
                    0 <= k < before.len() && (#[trigger] before[k]).guid == g
        },
    decreases before.len(),
{
    if before.len() > 0 {
        let rest = before.drop_last();
        let n = rest.len() as int;
        assert(distinct_bots(rest)) by {
            assert forall|i: int, j: int| 0 <= i < j < rest.len() implies (#[trigger] rest[i]).guid
                != (#[trigger] rest[j]).guid by {
                assert(before[i].guid != before[j].guid);
            }
        }
        lemma_advanced(rest, bots, served, now);
        if let Ok(t) = stream::all_taken_up(before, bots, served, now) {
            let u = stream::all_taken_up(rest, bots, served, now)->Ok_0;
            let last = before.last();
            assert(before[n] == last);
            assert(!u.accelerated.contains(last.guid)) by {
                if u.accelerated.contains(last.guid) {
                    let k = choose|k: int|
                        0 <= k < rest.len() && (#[trigger] rest[k]).guid == last.guid;
                    assert(before[k].guid != before[n].guid);
                }
            }
            let grew = t.accelerated != u.accelerated;
            if grew {
                assert(t.accelerated == u.accelerated.push(last.guid));
            }
            assert forall|g: u64| #[trigger] t.accelerated.contains(g) <==> u.accelerated.contains(g)
                || (grew && g == last.guid) by {
                if t.accelerated.contains(g) && grew {
                    let k = choose|k: int| 0 <= k < t.accelerated.len() && t.accelerated[k] == g;
                    if k < u.accelerated.len() {
                        assert(u.accelerated[k] == g);
                    }
                }
                if u.accelerated.contains(g) && grew {
                    let k = choose|k: int| 0 <= k < u.accelerated.len() && u.accelerated[k] == g;
                    assert(t.accelerated[k] == g);
                }
                if grew {
                    assert(t.accelerated[u.accelerated.len() as int] == last.guid);
                }
            }
            lemma_taken_up_len(rest, bots, served, now);
            assert forall|i: int| 0 <= i < before.len() implies t.slots[i] == advanced(
                before,
                t.accelerated,
                now,
            )[i] by {
                if i < n {
                    assert(before[i].guid != before[n].guid);
                    assert(rest[i] == before[i]);
                    assert(t.slots[i] == u.slots[i]);
                    assert(u.slots[i] == advanced(rest, u.accelerated, now)[i]);
                }
            }
            assert(t.slots =~= advanced(before, t.accelerated, now));
            assert forall|g: u64| #[trigger] t.accelerated.contains(g) implies exists|k: int|
                0 <= k < before.len() && (#[trigger] before[k]).guid == g by {
                if u.accelerated.contains(g) {
                    let k = choose|k: int| 0 <= k < rest.len() && (#[trigger] rest[k]).guid == g;
                    assert(before[k].guid == g);
                }
            }
        }
    }
}

/// A pass serves the first batch of the bots that were due, by due time and row id, where those
/// that it advanced count as due at the pass. Each is due again one interval later, has its lag
/// recorded in full, and its runner stands at the pass.
pub proof fn the_first_due_bots_are_served(s: StreamView, update: JsonView, expected: Set<u64>)
    requires
        s.rows.bots.dom().finite(),
        expected.finite(),
    ensures
        stream::applied(s, update, expected).1 matches Ok(Some(p)) ==> {
            let now = p.observed_micros;
            let due = stream::due_list(
                advanced(stream::slots(s.rows.bots), p.accelerated_guids, now),
                now,
            );
            &&& due is Ok
            &&& p.processed_guids == stream::guids(stream::batch(due->Ok_0))
            &&& p.bots.len() == p.processed_guids.len()
            &&& p.runners.len() == p.processed_guids.len()
            &&& forall|i: int|
                0 <= i < p.processed_guids.len() ==> {
                    let bot = #[trigger] p.bots[i];
                    &&& bot.field("next_think_micros"@).signed() matches Some(next) && next == now
                        + stream::THINK_MICROS
                    &&& bot.field("scheduler_lag_micros"@).signed() matches Some(lag) && lag == now
                        - stream::batch(due->Ok_0)[i].at
                    &&& p.runners[i].field("observed_micros"@).signed() == Some(now)
                }
        },
{
    if let Ok(Some(p)) = stream::applied(s, update, expected).1 {
        let now = p.observed_micros;
        let o = stream::applied(s, update, expected).0.rows;
        let before = stream::slots(s.rows.bots);
        let served = p.processed_guids;
        let t = stream::all_taken_up(before, o.bots, served, now)->Ok_0;
        assert(distinct_bots(before)) by {
            order::lemma_ascending_exists(s.rows.bots.dom());
            let keys = order::ascending(s.rows.bots.dom());
            assert forall|i: int, j: int| 0 <= i < j < before.len() implies (
            #[trigger] before[i]).guid != (#[trigger] before[j]).guid by {
                assert(keys[i] < keys[j]);
            }
        }
        lemma_advanced(before, o.bots, served, now);
        let due = stream::due_list(t.slots, now)->Ok_0;
        let batch = stream::batch(due);
        stream::lemma_due_guids(t.slots, now);
        lemma_taken_up_len(before, o.bots, served, now);
        stream::lemma_due_guids(stream::slots(o.bots), now);
        assert forall|i: int| 0 <= i < served.len() implies {
            let bot = #[trigger] p.bots[i];
            &&& bot.field("next_think_micros"@).signed() matches Some(next) && next == now
                + stream::THINK_MICROS
            &&& bot.field("scheduler_lag_micros"@).signed() matches Some(lag) && lag == now
                - batch[i].at
            &&& p.runners[i].field("observed_micros"@).signed() == Some(now)
        } by {
            let g = served[i];
            assert(stream::guids(batch)[i] == g);
            assert(batch[i] == due[i]);
            lemma_good_row(batch, o, now, i);
            assert(stream::listed_in(due[i], t.slots, now));
            let l = choose|l: int|
                0 <= l < t.slots.len() && stream::entry_of(due[i], #[trigger] t.slots[l], now);
            lemma_taken_up(before, o.bots, served, now, l);
            assert(served.contains(g));
            let k = lemma_slot_position(o.bots, g);
            assert(stream::slots(o.bots)[k].at is Some);
        }
    }
}

/// A served bot is not left for later.
pub proof fn served_and_deferred_are_disjoint(
    s: StreamView,
    update: JsonView,
    expected: Set<u64>,
    g: u64,
)
    requires
        s.rows.bots.dom().finite(),
        stream::applied(s, update, expected).1 matches Ok(Some(p)) && p.processed_guids.contains(g)
            && p.observed_micros + stream::THINK_MICROS <= i64::MAX,
    ensures
        stream::applied(s, update, expected).1 matches Ok(Some(p)) && !p.deferred_guids.contains(g),
{
    let p = stream::applied(s, update, expected).1->Ok_0->0;
    let now = p.observed_micros;
    let o = stream::applied(s, update, expected).0.rows;
    let before = stream::slots(s.rows.bots);
    let t = stream::all_taken_up(before, o.bots, p.processed_guids, now)->Ok_0;
    let due = stream::due_list(t.slots, now)->Ok_0;
    let batch = stream::batch(due);
    let j = choose|j: int| 0 <= j < p.processed_guids.len() && p.processed_guids[j] == g;
    assert(stream::guids(batch)[j] == g);
    lemma_good_row(batch, o, now, j);
    if p.deferred_guids.contains(g) {
        let left = stream::due_list(stream::slots(o.bots), now)->Ok_0;
        stream::lemma_due_guids(stream::slots(o.bots), now);
        let m = choose|m: int| 0 <= m < stream::guids(left).len() && stream::guids(left)[m] == g;
        assert(stream::listed_in(left[m], stream::slots(o.bots), now));
    }
}

proof fn lemma_good_row(due: Seq<Due>, o: stream::Observed, now: i64, j: int)
    requires
        stream::first_bad_row(due, o, now) is None,
        0 <= j < due.len(),
    ensures
        stream::served_row_ok(
            o.bots[due[j].guid],
            if o.runners.contains_key(due[j].guid) {
                Some(o.runners[due[j].guid])
            } else {
                None
            },
            due[j].at,
            now,
        ),
    decreases due.len(),
{
    if j < due.len() - 1 {
        lemma_good_row(due.drop_last(), o, now, j);
    }
}

/// An update of one row is one deletion and one insertion: it changes that row and no other.
pub proof fn an_update_is_one_deletion_and_one_insertion(
    table: Map<u64, JsonView>,
    k: u64,
    row: JsonView,
    changes: JsonView,
)
    requires
        table.contains_key(k),
        stream::character(table[k]) == Some(k),
        stream::character(row) == Some(k),
        changes.field("deletes"@).items() == Some(seq![table[k]]),
        changes.field("inserts"@).items() == Some(seq![row]),
    ensures
        stream::replaced(table, changes) == (table.insert(k, row), None::<StreamError>),
{
    let ds = seq![table[k]];
    assert(ds.drop_last() =~= Seq::<JsonView>::empty());
    assert(stream::deleted(table, ds.drop_last()) == (table, None::<StreamError>));
    let is = seq![row];
    assert(is.drop_last() =~= Seq::<JsonView>::empty());
    let t = table.remove(k);
    assert(stream::inserted(t, is.drop_last()) == (t, None::<StreamError>));
    assert(t.insert(k, row) =~= table.insert(k, row));
}

/// An accepted replacement leaves alone every row that none of its changes names.
pub proof fn unnamed_rows_stay(table: Map<u64, JsonView>, changes: JsonView, k: u64)
    requires
        stream::replaced(table, changes).1 is None,
        forall|i: int|
            0 <= i < changes.field("deletes"@).items()->0.len() ==> stream::character(
                #[trigger] changes.field("deletes"@).items()->0[i],
            ) != Some(k),
        forall|i: int|
            0 <= i < changes.field("inserts"@).items()->0.len() ==> stream::character(
                #[trigger] changes.field("inserts"@).items()->0[i],
            ) != Some(k),
    ensures
        stream::replaced(table, changes).0.contains_key(k) == table.contains_key(k),
        table.contains_key(k) ==> stream::replaced(table, changes).0[k] == table[k],
{
    let ds = changes.field("deletes"@).items()->0;
    let is = changes.field("inserts"@).items()->0;
    lemma_delete_leaves(table, ds, k);
    lemma_insert_leaves(stream::deleted(table, ds).0, is, k);
}

proof fn lemma_delete_leaves(table: Map<u64, JsonView>, ds: Seq<JsonView>, k: u64)
    requires
        forall|i: int| 0 <= i < ds.len() ==> stream::character(#[trigger] ds[i]) != Some(k),
    ensures
        stream::deleted(table, ds).0.contains_key(k) == table.contains_key(k),
        table.contains_key(k) ==> stream::deleted(table, ds).0[k] == table[k],
    decreases ds.len(),
{
    if ds.len() > 0 {
        let rest = ds.drop_last();
        assert forall|i: int| 0 <= i < rest.len() implies stream::character(#[trigger] rest[i])
            != Some(k) by {
            assert(rest[i] == ds[i]);
        }
        lemma_delete_leaves(table, rest, k);
        assert(stream::character(ds[ds.len() - 1]) != Some(k));
    }
}

proof fn lemma_insert_leaves(table: Map<u64, JsonView>, is: Seq<JsonView>, k: u64)
    requires
        forall|i: int| 0 <= i < is.len() ==> stream::character(#[trigger] is[i]) != Some(k),
    ensures
        stream::inserted(table, is).0.contains_key(k) == table.contains_key(k),
        table.contains_key(k) ==> stream::inserted(table, is).0[k] == table[k],
    decreases is.len(),
{
    if is.len() > 0 {
        let rest = is.drop_last();
        assert forall|i: int| 0 <= i < rest.len() implies stream::character(#[trigger] rest[i])
            != Some(k) by {
            assert(rest[i] == is[i]);
        }
        lemma_insert_leaves(table, rest, k);
        assert(stream::character(is[is.len() - 1]) != Some(k));
    }
}

/// A deleted row that is not the one last observed refuses the replacement.
pub proof fn a_lost_update_is_refused(table: Map<u64, JsonView>, changes: JsonView, i: int)
    requires
        changes.field("deletes"@).items() is Some,
        0 <= i < changes.field("deletes"@).items()->0.len(),
        ({
            let row = changes.field("deletes"@).items()->0[i];
            &&& stream::character(row) is Some
            &&& table.contains_key(stream::character(row)->0) ==> table[stream::character(row)->0]
                != row
        }),
    ensures
        stream::replaced(table, changes).1 is Some,
{
    let ds = changes.field("deletes"@).items()->0;
    lemma_lost_delete(table, ds, i);
}

proof fn lemma_lost_delete(table: Map<u64, JsonView>, ds: Seq<JsonView>, i: int)
    requires
        0 <= i < ds.len(),
        stream::character(ds[i]) is Some,
        table.contains_key(stream::character(ds[i])->0) ==> table[stream::character(ds[i])->0]
            != ds[i],
    ensures
        stream::deleted(table, ds).1 is Some,
    decreases ds.len(),
{
    let rest = ds.drop_last();
    if i < rest.len() {
        lemma_lost_delete(table, rest, i);
    } else if stream::deleted(table, rest).1 is None {
        lemma_deletes_only_remove(table, rest, stream::character(ds[i])->0);
    }
}

proof fn lemma_deletes_only_remove(table: Map<u64, JsonView>, ds: Seq<JsonView>, k: u64)
    ensures
        stream::deleted(table, ds).0.contains_key(k) ==> table.contains_key(k) && stream::deleted(
            table,
            ds,
        ).0[k] == table[k],
    decreases ds.len(),
{
    if ds.len() > 0 {
        lemma_deletes_only_remove(table, ds.drop_last(), k);
    }
}

/// When a bot is due next, as its row says.
pub open spec fn next_think(bots: Map<u64, JsonView>, g: u64) -> Option<i64> {
    bots[g].field("next_think_micros"@).signed()
}

proof fn lemma_left(s: StreamView, update: JsonView, expected: Set<u64>, g: u64)
    requires
        expected.finite(),
        stream::applied(s, update, expected).1 matches Ok(Some(_)),
    ensures
        ({
            let p = stream::applied(s, update, expected).1->Ok_0->0;
            let o = stream::applied(s, update, expected).0.rows;
            &&& p.deferred_guids.contains(g) <==> expected.contains(g) && (next_think(o.bots, g)
                matches Some(at) && at <= p.observed_micros)
        }),
{
    let p = stream::applied(s, update, expected).1->Ok_0->0;
    let o = stream::applied(s, update, expected).0.rows;
    let now = p.observed_micros;
    let slots = stream::slots(o.bots);
    let left = stream::due_list(slots, now)->Ok_0;
    stream::lemma_due_guids(slots, now);
    order::lemma_ascending_exists(o.bots.dom());
    let keys = order::ascending(o.bots.dom());
    if p.deferred_guids.contains(g) {
        let m = choose|m: int| 0 <= m < stream::guids(left).len() && stream::guids(left)[m] == g;
        assert(stream::listed_in(left[m], slots, now));
        let l = choose|l: int|
            0 <= l < slots.len() && stream::entry_of(left[m], #[trigger] slots[l], now);
        assert(slots[l] == stream::slot_of(keys[l], o.bots[keys[l]]));
        assert(keys.contains(keys[l]));
    }
    if expected.contains(g) {
        let k = lemma_slot_position(o.bots, g);
        if let Some(at) = next_think(o.bots, g) {
            if at <= now {
                let d = Due { at, id: slots[k].id->0, guid: g };
                assert(left.contains(d));
                let m = choose|m: int| 0 <= m < left.len() && left[m] == d;
                assert(stream::guids(left)[m] == g);
            }
        }
    }
}

/// A pass gives the rows as they stand after it: of every bot that it served, in their order, its own
/// and its runner's. It leaves for later exactly the bots that are still due then.
pub proof fn a_pass_gives_the_rows_after_it(
    s: StreamView,
    update: JsonView,
    expected: Set<u64>,
    i: int,
    g: u64,
)
    requires
        expected.finite(),
        stream::applied(s, update, expected).1 matches Ok(Some(p)) && 0 <= i < p.processed_guids.len(),
    ensures
        ({
            let p = stream::applied(s, update, expected).1->Ok_0->0;
            let o = stream::applied(s, update, expected).0.rows;
            &&& p.bots.len() == p.processed_guids.len() && p.runners.len() == p.processed_guids.len()
            &&& p.bots[i] == o.bots[p.processed_guids[i]]
            &&& p.runners[i] == o.runners[p.processed_guids[i]]
            &&& o.bots.contains_key(p.processed_guids[i]) && o.runners.contains_key(
                p.processed_guids[i],
            )
            &&& p.deferred_guids.contains(g) <==> expected.contains(g) && (next_think(o.bots, g)
                matches Some(at) && at <= p.observed_micros)
        }),
{
    lemma_left(s, update, expected, g);
    let p = stream::applied(s, update, expected).1->Ok_0->0;
    let o = stream::applied(s, update, expected).0.rows;
    let now = p.observed_micros;
    let t = stream::all_taken_up(stream::slots(s.rows.bots), o.bots, p.processed_guids, now)->Ok_0;
    let due = stream::due_list(t.slots, now)->Ok_0;
    let batch = stream::batch(due);
    assert(stream::guids(batch)[i] == p.processed_guids[i]);
    lemma_good_row(batch, o, now, i);
    assert(expected.contains(p.processed_guids[i]));
}

/// A pass serves at most sixteen bots, each once and each a staged one, and as many as its row says;
/// it leaves any for later only where it served sixteen.
pub proof fn a_pass_serves_sixteen_before_it_defers(
    s: StreamView,
    update: JsonView,
    expected: Set<u64>,
    g: u64,
)
    requires
        expected.finite(),
        s.rows.bots.dom() == expected,
        stream::applied(s, update, expected).1 matches Ok(Some(_)),
    ensures
        ({
            let p = stream::applied(s, update, expected).1->Ok_0->0;
            let o = stream::applied(s, update, expected).0.rows;
            &&& p.processed_guids.len() <= 16
            &&& p.processed_guids.no_duplicates()
            &&& p.processed_guids.contains(g) ==> expected.contains(g)
            &&& o.scheduler is Some && o.scheduler->0.field("processed"@) == JsonView::Unsigned(
                p.processed_guids.len() as u64,
            )
            &&& p.deferred_guids.contains(g) ==> p.processed_guids.len() == 16
        }),
{
    let p = stream::applied(s, update, expected).1->Ok_0->0;
    let o = stream::applied(s, update, expected).0.rows;
    let now = p.observed_micros;
    let before = stream::slots(s.rows.bots);
    let served = p.processed_guids;
    let t = stream::all_taken_up(before, o.bots, served, now)->Ok_0;
    let due = stream::due_list(t.slots, now)->Ok_0;
    let batch = stream::batch(due);
    assert(stream::guids(batch).len() == batch.len());
    if served.contains(g) {
        let i = choose|i: int| 0 <= i < served.len() && served[i] == g;
        assert(expected.contains(served[i]));
    }
    lemma_left(s, update, expected, g);
    if p.deferred_guids.contains(g) && served.len() < 16 {
        assert(batch == due);
        let at = next_think(o.bots, g)->0;
        if served.contains(g) {
            let j = choose|j: int| 0 <= j < served.len() && served[j] == g;
            assert(stream::guids(batch)[j] == g);
            lemma_good_row(batch, o, now, j);
        } else {
            let k = lemma_slot_position(s.rows.bots, g);
            lemma_taken_up(before, o.bots, served, now, k);
            stream::lemma_due_guids(t.slots, now);
            assert(t.slots[k].at == Some(at));
            let d = Due { at, id: t.slots[k].id->0, guid: g };
            assert(due.contains(d));
            let m = choose|m: int| 0 <= m < due.len() && due[m] == d;
            assert(stream::guids(batch)[m] == g);
            assert(served.contains(g));
        }
    }
}

/// What a pass says of the bots that it left for later agrees with them: whether there are any, and how
/// long the one that was due first has been waiting.
pub proof fn a_pass_sums_up_what_it_deferred(
    s: StreamView,
    update: JsonView,
    expected: Set<u64>,
    g: u64,
)
    requires
        expected.finite(),
        stream::applied(s, update, expected).1 matches Ok(Some(_)),
    ensures
        ({
            let p = stream::applied(s, update, expected).1->Ok_0->0;
            let o = stream::applied(s, update, expected).0.rows;
            let now = p.observed_micros;
            &&& p.excess_due <==> p.deferred_guids.len() > 0
            &&& p.deferred_guids.len() == 0 ==> p.oldest_deferred_lag_micros == 0
            &&& p.deferred_guids.len() > 0 ==> (next_think(o.bots, p.deferred_guids[0]) matches Some(
                first,
            ) && (now - first <= i64::MAX ==> p.oldest_deferred_lag_micros == now - first) && (
            p.deferred_guids.contains(g) ==> (next_think(o.bots, g) matches Some(at) && first <= at)))
        }),
{
    let p = stream::applied(s, update, expected).1->Ok_0->0;
    let o = stream::applied(s, update, expected).0.rows;
    let now = p.observed_micros;
    let slots = stream::slots(o.bots);
    let left = stream::due_list(slots, now)->Ok_0;
    stream::lemma_due_guids(slots, now);
    order::lemma_ascending_exists(o.bots.dom());
    let keys = order::ascending(o.bots.dom());
    if left.len() > 0 {
        assert(stream::listed_in(left[0], slots, now));
        let l = choose|l: int|
            0 <= l < slots.len() && stream::entry_of(left[0], #[trigger] slots[l], now);
        assert(slots[l] == stream::slot_of(keys[l], o.bots[keys[l]]));
        assert(p.deferred_guids[0] == left[0].guid);
        if p.deferred_guids.contains(g) {
            let m = choose|m: int| 0 <= m < stream::guids(left).len() && stream::guids(left)[m] == g;
            assert(stream::listed_in(left[m], slots, now));
            let k = choose|k: int|
                0 <= k < slots.len() && stream::entry_of(left[m], #[trigger] slots[k], now);
            assert(slots[k] == stream::slot_of(keys[k], o.bots[keys[k]]));
            let leq = |a: Due, b: Due| a.leq(b);
            if m > 0 {
                assert(leq(left[0], left[m]));
            }
        }
    }
}

/// A served bot is due again one second after the pass, has waited since it was due, and its runner
/// stands at the pass; a row that says otherwise does not agree with it.
pub proof fn a_served_bot_thinks_again_in_a_second(
    bot: JsonView,
    runner: JsonView,
    due: i64,
    now: i64,
)
    requires
        now <= i64::MAX - 1_000_000,
        i64::MIN <= now - due && now - due <= i64::MAX,
    ensures
        stream::served_row_ok(bot, Some(runner), due, now) <==> bot.field(
            "next_think_micros"@,
        ).signed() == Some((now + 1_000_000) as i64) && bot.field("scheduler_lag_micros"@).signed()
            == Some((now - due) as i64) && runner.field("observed_micros"@).signed() == Some(now),
        !stream::served_row_ok(bot, None, due, now),
{
}

/// The scheduler has one row: it is replaced by deleting the one that was observed and inserting one
/// under the id zero.
pub proof fn the_scheduler_has_one_row(
    row: Option<JsonView>,
    before: JsonView,
    after: JsonView,
    changes: JsonView,
)
    requires
        changes.field("deletes"@) == JsonView::Array(seq![before]),
        changes.field("inserts"@) == JsonView::Array(seq![after]),
    ensures
        stream::scheduler_replaced(row, changes).1 is None <==> row == Some(before) && after.field(
            "id"@,
        ) == JsonView::Unsigned(0),
        stream::scheduler_replaced(row, changes).1 is None ==> stream::scheduler_replaced(
            row,
            changes,
        ).0 == Some(after),
{
    reveal_with_fuel(stream::scheduler_deleted, 3);
    reveal_with_fuel(stream::scheduler_inserted, 3);
    assert(seq![before].drop_last() =~= Seq::empty());
    assert(seq![after].drop_last() =~= Seq::empty());
}

/// A second row of the scheduler is refused.
pub proof fn the_scheduler_has_no_second_row(
    row: Option<JsonView>,
    inserts: Seq<JsonView>,
)
    ensures
        stream::scheduler_inserted(row, inserts).1 is None ==> inserts.len() <= 1 && (inserts.len() == 1
            ==> row is None && stream::scheduler_inserted(row, inserts).0 == Some(inserts[0])) && (
        inserts.len() == 0 ==> stream::scheduler_inserted(row, inserts).0 == row),
    decreases inserts.len(),
{
    if inserts.len() > 0 {
        the_scheduler_has_no_second_row(row, inserts.drop_last());
        reveal_with_fuel(stream::scheduler_inserted, 2);
    }
}

/// Each table changes what is its own: bots and runners their rows, the scheduler its row, and no other
/// table anything. The tables of legs and entities are taken as they are, those of ownership have to
/// be two lists of rows, and a table of any other name is refused.
pub proof fn a_table_changes_its_own_rows(
    o: stream::Observed,
    name: Seq<char>,
    changes: JsonView,
    index: usize,
)
    ensures
        ({
            let (after, refused) = stream::table_applied(o, name, changes, index);
            let evidence = name == "game_creature_quest_tap"@ || name
                == "game_creature_quest_tap_member"@ || name == "game_creature_loot_tag_group"@ || name
                == "game_group_member"@ || name == "game_corpse_loot_eligible"@ || name
                == "game_creature_spawn"@;
            let known = evidence || name == "pkg_playerbots_bot"@ || name == "pkg_playerbots_runner"@
                || name == "pkg_playerbots_scheduler"@ || name == "game_creature_spline"@ || name
                == "game_world_entity"@;
            &&& name == "pkg_playerbots_bot"@ ==> after.bots == stream::replaced(o.bots, changes).0
                && after.runners == o.runners && after.scheduler == o.scheduler && refused
                == stream::replaced(o.bots, changes).1
            &&& name == "pkg_playerbots_runner"@ ==> after.runners == stream::replaced(
                o.runners,
                changes,
            ).0 && after.bots == o.bots && after.scheduler == o.scheduler && refused == stream::replaced(
                o.runners,
                changes,
            ).1
            &&& name == "pkg_playerbots_scheduler"@ ==> after.bots == o.bots && after.runners == o.runners
                && after.scheduler == stream::scheduler_replaced(o.scheduler, changes).0 && refused
                == stream::scheduler_replaced(o.scheduler, changes).1
            &&& name == "game_creature_spline"@ || name == "game_world_entity"@ ==> after == o && refused
                is None
            &&& evidence ==> after == o && (refused is None <==> changes is Object && changes.field(
                "deletes"@,
            ) is Array && changes.field("inserts"@) is Array)
            &&& !known ==> after == o && refused is Some
        }),
{
    lemma_names();
    let names = stream::ownership_names();
    assert(names[0] == "game_creature_quest_tap"@);
    assert(names[1] == "game_creature_quest_tap_member"@);
    assert(names[2] == "game_creature_loot_tag_group"@);
    assert(names[3] == "game_group_member"@);
    assert(names[4] == "game_corpse_loot_eligible"@);
    if names.contains(name) {
        let i = choose|i: int| 0 <= i < names.len() && names[i] == name;
        assert(i == 0 || i == 1 || i == 2 || i == 3 || i == 4);
    }
}

proof fn lemma_names()
    ensures
        "pkg_playerbots_bot"@.len() == 18,
        "pkg_playerbots_runner"@.len() == 21,
        "pkg_playerbots_scheduler"@.len() == 24,
        "game_creature_spline"@.len() == 20,
        "game_world_entity"@.len() == 17,
        "game_creature_spawn"@.len() == 19,
        "game_creature_quest_tap"@.len() == 23,
        "game_creature_quest_tap_member"@.len() == 30,
        "game_creature_loot_tag_group"@.len() == 28,
        "game_group_member"@.len() == 17,
        "game_corpse_loot_eligible"@.len() == 25,
        "game_group_member"@ != "game_world_entity"@,
{
    reveal_strlit("pkg_playerbots_bot");
    reveal_strlit("pkg_playerbots_runner");
    reveal_strlit("pkg_playerbots_scheduler");
    reveal_strlit("game_creature_spline");
    reveal_strlit("game_world_entity");
    reveal_strlit("game_creature_spawn");
    reveal_strlit("game_creature_quest_tap");
    reveal_strlit("game_creature_quest_tap_member");
    reveal_strlit("game_creature_loot_tag_group");
    reveal_strlit("game_group_member");
    reveal_strlit("game_corpse_loot_eligible");
    assert("game_group_member"@[5] == 'g' && "game_world_entity"@[5] == 'w');
}

/// The first pass that is seen only sets the clock, and later ones have to advance it. What is observed
/// has to be the staged bots, and no runner of another.
pub proof fn the_first_pass_sets_the_clock(
    before: Seq<Slot>,
    last: Option<i64>,
    o: stream::Observed,
    expected: Set<u64>,
    now: i64,
    served: Seq<u64>,
)
    requires
        o.scheduler is Some,
        o.scheduler->0.field("observed_micros"@).signed() == Some(now),
        stream::number_list(o.scheduler->0.field("processed_guids"@)) == Some(served),
        stream::served_list_ok(o.scheduler->0, served, expected),
    ensures
        ({
            let (then, r) = stream::correlated(before, last, o, true, expected);
            let sound = o.bots.dom() == expected && o.runners.dom().subset_of(expected);
            &&& !sound ==> r is Err && then == last
            &&& sound && last is None ==> then == Some(now) && r == Ok::<
                Option<stream::PassView>,
                StreamError,
            >(None)
            &&& sound && last is Some && now <= last->0 ==> then == last && r is Err
            &&& sound && last is Some && now > last->0 ==> then == Some(now) && !(r matches Ok(None))
            &&& sound ==> stream::correlated(before, last, o, false, expected) == (last, Ok::<
                Option<stream::PassView>,
                StreamError,
            >(None))
        }),
{
}

/// A bot counts as advanced exactly where it was due later than the pass and was taken up at the pass; a
/// bot whose due time changed in any other way spoils the pass.
pub proof fn a_bot_is_advanced_to_its_pass(
    slot: Slot,
    bots: Map<u64, JsonView>,
    served: Seq<u64>,
    now: i64,
    prior: i64,
    due: i64,
)
    requires
        slot.at == Some(prior),
        stream::taken_up(bots[slot.guid], served.contains(slot.guid), now) == Ok::<i64, StreamError>(
            due,
        ),
    ensures
        ({
            let r = stream::all_taken_up(seq![slot], bots, served, now);
            &&& due == prior ==> (r matches Ok(t) && t.accelerated.len() == 0 && t.slots == seq![slot])
            &&& due != prior && due == now && prior > now ==> (r matches Ok(t) && t.accelerated == seq![
                slot.guid,
            ] && t.slots.len() == 1 && t.slots[0].at == Some(now))
            &&& due != prior && !(due == now && prior > now) ==> r is Err
        }),
{
    reveal_with_fuel(stream::all_taken_up, 3);
    assert(seq![slot].drop_last() =~= Seq::empty());
    if let Ok(t) = stream::all_taken_up(seq![slot], bots, served, now) {
        assert(t.slots =~= seq![t.slots[0]]);
        if t.accelerated.len() > 0 {
            assert(t.accelerated =~= seq![slot.guid]);
        }
    }
}

/// A bot is taken up at the time that it had been due: for a served one its lag before the pass, for any
/// other the time that its row still gives.
pub proof fn a_bot_is_taken_up_when_it_was_due(row: JsonView, lag: u64, at: i64, now: i64)
    requires
        lag <= i64::MAX,
        now >= 0,
    ensures
        row.field("scheduler_lag_micros"@) == JsonView::Unsigned(lag) ==> stream::taken_up(
            row,
            true,
            now,
        ) == Ok::<i64, StreamError>((now - lag) as i64),
        row.field("next_think_micros"@).signed() == Some(at) ==> stream::taken_up(row, false, now)
            == Ok::<i64, StreamError>(at),
        row.field("scheduler_lag_micros"@) is Negative && row.field("scheduler_lag_micros"@)->Negative_0
            < 0 ==> stream::taken_up(row, true, now) is Err,
{
}

} // verus!
