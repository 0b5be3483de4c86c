//! The scheduler's transaction stream: rows replaced exactly, passes checked against due order.
//!
//! Each update is one complete transaction. It is applied to the observed rows first, and only
//! then correlated: the scheduler's own account of its pass must agree with the due times of the
//! complete roster before and after it.

use crate::json;
use crate::json::{Json, JsonView};
use crate::number;
use crate::number::number_between;
use crate::order;
use crate::order::keys_of;
use crate::sort;
use crate::sort::Ranked;
use crate::text;
use crate::text::same_text;
use std::collections::{BTreeMap, BTreeSet};
use vstd::prelude::*;

verus! {

broadcast use {vstd::std_specs::btree::group_btree_axioms, vstd::laws_cmp::group_laws_cmp};

pub const BOT: &'static str = "pkg_playerbots_bot";

pub const RUNNER: &'static str = "pkg_playerbots_runner";

pub const SCHEDULER: &'static str = "pkg_playerbots_scheduler";

pub const SPLINE: &'static str = "game_creature_spline";

pub const ENTITY: &'static str = "game_world_entity";

pub const SPAWN: &'static str = "game_creature_spawn";

/// A pass serves at most this many bots.
pub const BATCH: usize = 16;

/// A served bot is due again this long after the pass.
pub const THINK_MICROS: i64 = 1_000_000;

/// The tables that record who owns what a creature leaves behind.
pub fn ownership_tables() -> (v: Vec<&'static str>)
    ensures
        v@.map_values(|s: &'static str| s@) == ownership_names(),
{
    let v: Vec<&'static str> = vec![
        "game_creature_quest_tap",
        "game_creature_quest_tap_member",
        "game_creature_loot_tag_group",
        "game_group_member",
        "game_corpse_loot_eligible",
    ];
    assert(v@.map_values(|s: &'static str| s@) =~= ownership_names());
    v
}

/// The names of the ownership tables, in query order.
pub open spec fn ownership_names() -> Seq<Seq<char>> {
    seq![
        "game_creature_quest_tap"@,
        "game_creature_quest_tap_member"@,
        "game_creature_loot_tag_group"@,
        "game_group_member"@,
        "game_corpse_loot_eligible"@,
    ]
}

/// Why a transaction was refused. A table is named by its position in the update.
#[derive(Debug, Clone, Copy, PartialEq, Eq, Structural)]
pub enum StreamError {
    NotAnObject,
    MissingDeletes,
    MissingInserts,
    NoCharacterGuid,
    NotObserved,
    DeletedRowDiffers(u64),
    InsertReplaced(u64),
    EvidenceNotAnObject(usize),
    EvidenceWithoutDeletes(usize),
    EvidenceWithoutInserts(usize),
    MissingSchedulerDeletes,
    MissingSchedulerInserts,
    SchedulerRowDiffers,
    SchedulerNotSingle,
    UnexpectedTable(usize),
    RosterDiffers,
    UnstagedRunner,
    InvalidTimestamp,
    TimestampNotAdvanced,
    InvalidProcessedList,
    ProcessedListInconsistent,
    InvalidPriorDue,
    InvalidProcessedLag,
    ProcessedDueOverflow,
    InvalidCurrentDue,
    DueTimeChanged(u64),
    NoRowId,
    SharedRowId(u64),
    InvalidDue,
    NotEarliestDue,
    ProcessedRowInconsistent(u64),
    InvalidExcessDue,
    InvalidDeferredLag,
    DeferredSummaryDisagrees,
}

/// The name of the table at position `i` of an update.
pub open spec fn table_name(update: JsonView, i: usize) -> Seq<char> {
    match update.members() {
        Some(m) => if i < m.len() {
            m[i as int].0
        } else {
            Seq::empty()
        },
        None => Seq::empty(),
    }
}

/// What a value is called where another was wanted. A fractional number is not spelled out.
pub open spec fn unexpected(v: JsonView) -> Seq<char> {
    match v {
        JsonView::Null => "null"@,
        JsonView::Bool(b) => if b {
            "boolean `true`"@
        } else {
            "boolean `false`"@
        },
        JsonView::Unsigned(n) => "integer `"@ + number::decimal(n as nat) + "`"@,
        JsonView::Negative(n) => "integer `"@ + number::signed_decimal(n as int) + "`"@,
        JsonView::Float(_) => "floating point"@,
        JsonView::Text(s) => "string "@ + text::debug_form(s),
        JsonView::Array(_) => "sequence"@,
        JsonView::Object(_) => "map"@,
    }
}

fn push_unexpected(out: &mut String, v: &Json)
    ensures
        final(out)@ == old(out)@ + unexpected(v@),
{
    match v {
        Json::Null => out.append("null"),
        Json::Bool(b) => out.append(
            if *b {
                "boolean `true`"
            } else {
                "boolean `false`"
            },
        ),
        Json::Unsigned(n) => {
            let words: String = number_between("integer `", *n, "`");
            out.append(words.as_str());
        },
        Json::Negative(n) => {
            let mut words: String = "integer `".to_owned();
            words.append(number::signed_text(*n).as_str());
            words.append("`");
            out.append(words.as_str());
        },
        Json::Float(_) => out.append("floating point"),
        Json::Text(s) => {
            let mut words: String = "string ".to_owned();
            words.append(text::debug_text(s.as_str()).as_str());
            out.append(words.as_str());
        },
        Json::Array(_) => out.append("sequence"),
        Json::Object(_) => out.append("map"),
    }
}

/// The first value of a list that is no unsigned number.
pub open spec fn first_unlisted(items: Seq<JsonView>) -> Option<JsonView>
    decreases items.len(),
{
    if items.len() == 0 {
        None
    } else if items[0].unsigned() is None {
        Some(items[0])
    } else {
        first_unlisted(items.skip(1))
    }
}

/// Said of a value that is no list of unsigned numbers.
pub open spec fn list_fault(v: JsonView) -> Seq<char> {
    match v.items() {
        None => "invalid type: "@ + unexpected(v) + ", expected a sequence"@,
        Some(items) => match first_unlisted(items) {
            Some(x) => (if x is Negative {
                "invalid value: "@
            } else {
                "invalid type: "@
            }) + unexpected(x) + ", expected u64"@,
            None => Seq::empty(),
        },
    }
}

fn explain_list(v: &Json) -> (s: String)
    ensures
        s@ == list_fault(v@),
{
    let items = match v.as_array() {
        None => {
            let mut s: String = "invalid type: ".to_owned();
            push_unexpected(&mut s, v);
            s.append(", expected a sequence");
            return s;
        },
        Some(items) => items,
    };
    let ghost all = json::json_views(items@);
    assert(all.skip(0) =~= all);
    for i in 0..items.len()
        invariant
            all == json::json_views(items@),
            v@.items() == Some(all),
            first_unlisted(all) == first_unlisted(all.skip(i as int)),
    {
        assert(all[i as int] == items@[i as int]@);
        assert(all.skip(i as int).skip(1) =~= all.skip(i + 1));
        if items[i].as_u64().is_none() {
            let mut s: String = match &items[i] {
                Json::Negative(_) => "invalid value: ".to_owned(),
                _ => "invalid type: ".to_owned(),
            };
            push_unexpected(&mut s, &items[i]);
            s.append(", expected u64");
            return s;
        }
    }
    let none = String::new();
    assert(none@ =~= Seq::<char>::empty());
    none
}

impl StreamError {
    /// The refusal in words. `list` is the list of the processed characters, where it is refused.
    pub open spec fn words(self, update: JsonView, list: JsonView) -> Seq<char> {
        match self {
            StreamError::NotAnObject => "subscription update is not an object"@,
            StreamError::MissingDeletes => "missing deletes"@,
            StreamError::MissingInserts => "missing inserts"@,
            StreamError::NoCharacterGuid => "row has no numeric Character GUID"@,
            StreamError::NotObserved => "deleted row was not observed"@,
            StreamError::DeletedRowDiffers(g) =>
                "deleted row differs from the last observed Character "@ + number::decimal(
                    g as nat,
                ),
            StreamError::InsertReplaced(g) => "insert replaced Character "@ + number::decimal(
                g as nat,
            ) + " without a matching deletion"@,
            StreamError::EvidenceNotAnObject(i) => table_name(update, i)
                + " update is not an object"@,
            StreamError::EvidenceWithoutDeletes(i) => table_name(update, i)
                + " has no deletes row list"@,
            StreamError::EvidenceWithoutInserts(i) => table_name(update, i)
                + " has no inserts row list"@,
            StreamError::MissingSchedulerDeletes => "missing scheduler deletes"@,
            StreamError::MissingSchedulerInserts => "missing scheduler inserts"@,
            StreamError::SchedulerRowDiffers =>
                "deleted scheduler row differs from the last observation"@,
            StreamError::SchedulerNotSingle =>
                "scheduler must contain exactly one row with id zero"@,
            StreamError::UnexpectedTable(i) => "unexpected subscribed table "@ + table_name(
                update,
                i,
            ),
            StreamError::RosterDiffers => "observed bot roster differs from the staged roster"@,
            StreamError::UnstagedRunner => "runner belongs to an unstaged Character"@,
            StreamError::InvalidTimestamp => "invalid scheduler timestamp"@,
            StreamError::TimestampNotAdvanced => "scheduler timestamp did not advance"@,
            StreamError::InvalidProcessedList => list_fault(list),
            StreamError::ProcessedListInconsistent =>
                "scheduler processed list is inconsistent with the staged roster or batch limit"@,
            StreamError::InvalidPriorDue => "invalid prior due time"@,
            StreamError::InvalidProcessedLag => "invalid processed lag"@,
            StreamError::ProcessedDueOverflow => "processed due time overflow"@,
            StreamError::InvalidCurrentDue => "invalid current due time"@,
            StreamError::DueTimeChanged(g) => "Character "@ + number::decimal(g as nat)
                + " changed due time outside the scheduled pass contract"@,
            StreamError::NoRowId => "bot has no numeric row id"@,
            StreamError::SharedRowId(id) => "bots share row id "@ + number::decimal(id as nat),
            StreamError::InvalidDue => "invalid bot due time"@,
            StreamError::NotEarliestDue =>
                "scheduler did not process the earliest due bots in indexed order"@,
            StreamError::ProcessedRowInconsistent(g) => "processed Character "@ + number::decimal(
                g as nat,
            ) + " has inconsistent due, lag or runner time"@,
            StreamError::InvalidExcessDue => "invalid excess_due"@,
            StreamError::InvalidDeferredLag => "invalid deferred lag"@,
            StreamError::DeferredSummaryDisagrees =>
                "scheduler deferred summary disagrees with the complete bot roster"@,
        }
    }

    fn message(&self, update: &Json, list: &Json) -> (s: String)
        ensures
            s@ == self.words(update@, list@),
    {
        match *self {
            StreamError::NotAnObject => "subscription update is not an object".to_owned(),
            StreamError::MissingDeletes => "missing deletes".to_owned(),
            StreamError::MissingInserts => "missing inserts".to_owned(),
            StreamError::NoCharacterGuid => "row has no numeric Character GUID".to_owned(),
            StreamError::NotObserved => "deleted row was not observed".to_owned(),
            StreamError::DeletedRowDiffers(g) => number::number_behind(
                "deleted row differs from the last observed Character ",
                g,
            ),
            StreamError::InsertReplaced(g) => number_between(
                "insert replaced Character ",
                g,
                " without a matching deletion",
            ),
            StreamError::EvidenceNotAnObject(i) => named(update, i).concat(
                " update is not an object",
            ),
            StreamError::EvidenceWithoutDeletes(i) => named(update, i).concat(
                " has no deletes row list",
            ),
            StreamError::EvidenceWithoutInserts(i) => named(update, i).concat(
                " has no inserts row list",
            ),
            StreamError::MissingSchedulerDeletes => "missing scheduler deletes".to_owned(),
            StreamError::MissingSchedulerInserts => "missing scheduler inserts".to_owned(),
            StreamError::SchedulerRowDiffers =>
                "deleted scheduler row differs from the last observation".to_owned(),
            StreamError::SchedulerNotSingle =>
                "scheduler must contain exactly one row with id zero".to_owned(),
            StreamError::UnexpectedTable(i) => "unexpected subscribed table ".to_owned().concat(
                named(update, i).as_str(),
            ),
            StreamError::RosterDiffers =>
                "observed bot roster differs from the staged roster".to_owned(),
            StreamError::UnstagedRunner => "runner belongs to an unstaged Character".to_owned(),
            StreamError::InvalidTimestamp => "invalid scheduler timestamp".to_owned(),
            StreamError::TimestampNotAdvanced => "scheduler timestamp did not advance".to_owned(),
            StreamError::InvalidProcessedList => explain_list(list),
            StreamError::ProcessedListInconsistent =>
                "scheduler processed list is inconsistent with the staged roster or batch limit".to_owned(),
            StreamError::InvalidPriorDue => "invalid prior due time".to_owned(),
            StreamError::InvalidProcessedLag => "invalid processed lag".to_owned(),
            StreamError::ProcessedDueOverflow => "processed due time overflow".to_owned(),
            StreamError::InvalidCurrentDue => "invalid current due time".to_owned(),
            StreamError::DueTimeChanged(g) => number_between(
                "Character ",
                g,
                " changed due time outside the scheduled pass contract",
            ),
            StreamError::NoRowId => "bot has no numeric row id".to_owned(),
            StreamError::SharedRowId(id) => number::number_behind("bots share row id ", id),
            StreamError::InvalidDue => "invalid bot due time".to_owned(),
            StreamError::NotEarliestDue =>
                "scheduler did not process the earliest due bots in indexed order".to_owned(),
            StreamError::ProcessedRowInconsistent(g) => number_between(
                "processed Character ",
                g,
                " has inconsistent due, lag or runner time",
            ),
            StreamError::InvalidExcessDue => "invalid excess_due".to_owned(),
            StreamError::InvalidDeferredLag => "invalid deferred lag".to_owned(),
            StreamError::DeferredSummaryDisagrees =>
                "scheduler deferred summary disagrees with the complete bot roster".to_owned(),
        }
    }
}

fn named(update: &Json, i: usize) -> (s: String)
    ensures
        s@ == table_name(update@, i),
{
    match update {
        Json::Object(m) => if i < m.len() {
            m[i].0.clone()
        } else {
            String::new()
        },
        _ => String::new(),
    }
}

// ------------------------------------------------------------------------------------------
//  Rows
// ------------------------------------------------------------------------------------------

/// What the rows of a table hold, by character.
pub open spec fn rows(m: Map<u64, Json>) -> Map<u64, JsonView> {
    m.map_values(|j: Json| j@)
}

/// The character that a row belongs to.
pub open spec fn character(row: JsonView) -> Option<u64> {
    row.field("character_guid"@).unsigned()
}

/// Rows after some deletions, and the first refusal among them.
pub open spec fn deleted(
    table: Map<u64, JsonView>,
    deletes: Seq<JsonView>,
) -> (Map<u64, JsonView>, Option<StreamError>)
    decreases deletes.len(),
{
    if deletes.len() == 0 {
        (table, None)
    } else {
        let (t, refused) = deleted(table, deletes.drop_last());
        let row = deletes.last();
        if refused is Some {
            (t, refused)
        } else {
            match character(row) {
                None => (t, Some(StreamError::NoCharacterGuid)),
                Some(k) => if !t.contains_key(k) {
                    (t, Some(StreamError::NotObserved))
                } else if t[k] != row {
                    (t.remove(k), Some(StreamError::DeletedRowDiffers(k)))
                } else {
                    (t.remove(k), None)
                },
            }
        }
    }
}

/// Rows after some insertions, and the first refusal among them.
pub open spec fn inserted(
    table: Map<u64, JsonView>,
    inserts: Seq<JsonView>,
) -> (Map<u64, JsonView>, Option<StreamError>)
    decreases inserts.len(),
{
    if inserts.len() == 0 {
        (table, None)
    } else {
        let (t, refused) = inserted(table, inserts.drop_last());
        let row = inserts.last();
        if refused is Some {
            (t, refused)
        } else {
            match character(row) {
                None => (t, Some(StreamError::NoCharacterGuid)),
                Some(k) => (
                    t.insert(k, row),
                    if t.contains_key(k) {
                        Some(StreamError::InsertReplaced(k))
                    } else {
                        None
                    },
                ),
            }
        }
    }
}

/// Rows after one table's changes: every deletion, then every insertion.
pub open spec fn replaced(
    table: Map<u64, JsonView>,
    changes: JsonView,
) -> (Map<u64, JsonView>, Option<StreamError>) {
    match changes.field("deletes"@).items() {
        None => (table, Some(StreamError::MissingDeletes)),
        Some(ds) => {
            let (t, refused) = deleted(table, ds);
            if refused is Some {
                (t, refused)
            } else {
                match changes.field("inserts"@).items() {
                    None => (t, Some(StreamError::MissingInserts)),
                    Some(is) => inserted(t, is),
                }
            }
        },
    }
}

fn delete_rows(table: &mut BTreeMap<u64, Json>, deletes: &Vec<Json>) -> (refused: Option<
    StreamError,
>)
    ensures
        (rows(final(table)@), refused) == deleted(rows(old(table)@), json::json_views(deletes@)),
{
    let ghost start = rows(table@);
    let ghost ds = json::json_views(deletes@);
    let mut i: usize = 0;
    assert(ds.take(0) =~= Seq::<JsonView>::empty());
    while i < deletes.len()
        invariant
            i <= deletes@.len(),
            ds == json::json_views(deletes@),
            start == rows(old(table)@),
            (rows(table@), None::<StreamError>) == deleted(start, ds.take(i as int)),
        decreases deletes.len() - i,
    {
        let ghost now = rows(table@);
        let row = &deletes[i];
        proof {
            assert(ds.take(i as int + 1).drop_last() =~= ds.take(i as int));
            assert(ds.take(i as int + 1).last() == row@);
            lemma_deleted_stops(start, ds, i as int + 1);
        }
        match row.u64_at("character_guid") {
            None => {
                return Some(StreamError::NoCharacterGuid);
            },
            Some(key) => {
                match table.remove(&key) {
                    None => {
                        assert(rows(table@) =~= now);
                        return Some(StreamError::NotObserved);
                    },
                    Some(observed) => {
                        assert(rows(table@) =~= now.remove(key));
                        if !observed.same(row) {
                            return Some(StreamError::DeletedRowDiffers(key));
                        }
                    },
                }
            },
        }
        i = i + 1;
    }
    assert(ds.take(ds.len() as int) =~= ds);
    None
}

proof fn lemma_deleted_stops(table: Map<u64, JsonView>, ds: Seq<JsonView>, n: int)
    requires
        0 <= n <= ds.len(),
    ensures
        deleted(table, ds.take(n)).1 is Some ==> deleted(table, ds) == deleted(table, ds.take(n)),
    decreases ds.len() - n,
{
    if n == ds.len() {
        assert(ds.take(n) =~= ds);
    } else {
        lemma_deleted_stops(table, ds, n + 1);
        assert(ds.take(n + 1).drop_last() =~= ds.take(n));
    }
}

fn insert_rows(table: &mut BTreeMap<u64, Json>, inserts: &Vec<Json>) -> (refused: Option<
    StreamError,
>)
    ensures
        (rows(final(table)@), refused) == inserted(rows(old(table)@), json::json_views(inserts@)),
{
    let ghost start = rows(table@);
    let ghost is = json::json_views(inserts@);
    let mut i: usize = 0;
    assert(is.take(0) =~= Seq::<JsonView>::empty());
    while i < inserts.len()
        invariant
            i <= inserts@.len(),
            is == json::json_views(inserts@),
            start == rows(old(table)@),
            (rows(table@), None::<StreamError>) == inserted(start, is.take(i as int)),
        decreases inserts.len() - i,
    {
        let ghost now = rows(table@);
        let row = &inserts[i];
        proof {
            assert(is.take(i as int + 1).drop_last() =~= is.take(i as int));
            assert(is.take(i as int + 1).last() == row@);
            lemma_inserted_stops(start, is, i as int + 1);
        }
        match row.u64_at("character_guid") {
            None => {
                return Some(StreamError::NoCharacterGuid);
            },
            Some(key) => {
                let there = table.insert(key, row.clone());
                assert(rows(table@) =~= now.insert(key, row@));
                if there.is_some() {
                    return Some(StreamError::InsertReplaced(key));
                }
            },
        }
        i = i + 1;
    }
    assert(is.take(is.len() as int) =~= is);
    None
}

proof fn lemma_inserted_stops(table: Map<u64, JsonView>, is: Seq<JsonView>, n: int)
    requires
        0 <= n <= is.len(),
    ensures
        inserted(table, is.take(n)).1 is Some ==> inserted(table, is) == inserted(
            table,
            is.take(n),
        ),
    decreases is.len() - n,
{
    if n == is.len() {
        assert(is.take(n) =~= is);
    } else {
        lemma_inserted_stops(table, is, n + 1);
        assert(is.take(n + 1).drop_last() =~= is.take(n));
    }
}

/// Applies one table's changes to its observed rows.
pub fn replace_rows(table: &mut BTreeMap<u64, Json>, changes: &Json) -> (refused: Option<
    StreamError,
>)
    ensures
        (rows(final(table)@), refused) == replaced(rows(old(table)@), changes@),
{
    match changes.array_at("deletes") {
        None => Some(StreamError::MissingDeletes),
        Some(deletes) => {
            let refused = delete_rows(table, deletes);
            if refused.is_some() {
                return refused;
            }
            match changes.array_at("inserts") {
                None => Some(StreamError::MissingInserts),
                Some(inserts) => insert_rows(table, inserts),
            }
        },
    }
}

// ------------------------------------------------------------------------------------------
//  One transaction's tables
// ------------------------------------------------------------------------------------------

/// The rows that a stream has observed.
pub struct Observed {
    pub bots: Map<u64, JsonView>,
    pub runners: Map<u64, JsonView>,
    pub scheduler: Option<JsonView>,
}

/// The scheduler row after some deletions, and the first refusal among them.
pub open spec fn scheduler_deleted(
    row: Option<JsonView>,
    deletes: Seq<JsonView>,
) -> (Option<JsonView>, Option<StreamError>)
    decreases deletes.len(),
{
    if deletes.len() == 0 {
        (row, None)
    } else {
        let (r, refused) = scheduler_deleted(row, deletes.drop_last());
        if refused is Some {
            (r, refused)
        } else if r != Some(deletes.last()) {
            (None, Some(StreamError::SchedulerRowDiffers))
        } else {
            (None, None)
        }
    }
}

/// The scheduler row after some insertions, and the first refusal among them.
pub open spec fn scheduler_inserted(
    row: Option<JsonView>,
    inserts: Seq<JsonView>,
) -> (Option<JsonView>, Option<StreamError>)
    decreases inserts.len(),
{
    if inserts.len() == 0 {
        (row, None)
    } else {
        let (r, refused) = scheduler_inserted(row, inserts.drop_last());
        if refused is Some {
            (r, refused)
        } else if inserts.last().field("id"@).unsigned() != Some(0u64) {
            (r, Some(StreamError::SchedulerNotSingle))
        } else if r is Some {
            (Some(inserts.last()), Some(StreamError::SchedulerNotSingle))
        } else {
            (Some(inserts.last()), None)
        }
    }
}

/// The scheduler row after its table's changes.
pub open spec fn scheduler_replaced(
    row: Option<JsonView>,
    changes: JsonView,
) -> (Option<JsonView>, Option<StreamError>) {
    match changes.field("deletes"@).items() {
        None => (row, Some(StreamError::MissingSchedulerDeletes)),
        Some(ds) => {
            let (r, refused) = scheduler_deleted(row, ds);
            if refused is Some {
                (r, refused)
            } else {
                match changes.field("inserts"@).items() {
                    None => (r, Some(StreamError::MissingSchedulerInserts)),
                    Some(is) => scheduler_inserted(r, is),
                }
            }
        },
    }
}

/// What is wrong with an evidence table's changes: they are two row lists in an object.
pub open spec fn evidence_refusal(changes: JsonView, index: usize) -> Option<StreamError> {
    if changes.members() is None {
        Some(StreamError::EvidenceNotAnObject(index))
    } else if changes.field("deletes"@).items() is None {
        Some(StreamError::EvidenceWithoutDeletes(index))
    } else if changes.field("inserts"@).items() is None {
        Some(StreamError::EvidenceWithoutInserts(index))
    } else {
        None
    }
}

/// The observed rows after one table's changes.
pub open spec fn table_applied(
    o: Observed,
    name: Seq<char>,
    changes: JsonView,
    index: usize,
) -> (Observed, Option<StreamError>) {
    if name == BOT@ {
        let (t, refused) = replaced(o.bots, changes);
        (Observed { bots: t, ..o }, refused)
    } else if name == RUNNER@ {
        let (t, refused) = replaced(o.runners, changes);
        (Observed { runners: t, ..o }, refused)
    } else if name == SPLINE@ || name == ENTITY@ {
        (o, None)
    } else if ownership_names().contains(name) || name == SPAWN@ {
        (o, evidence_refusal(changes, index))
    } else if name == SCHEDULER@ {
        let (r, refused) = scheduler_replaced(o.scheduler, changes);
        (Observed { scheduler: r, ..o }, refused)
    } else {
        (o, Some(StreamError::UnexpectedTable(index)))
    }
}

/// The observed rows after the first tables of an update, and the first refusal among them.
pub open spec fn tables_applied(
    o: Observed,
    tables: Seq<(Seq<char>, JsonView)>,
) -> (Observed, Option<StreamError>)
    decreases tables.len(),
{
    if tables.len() == 0 {
        (o, None)
    } else {
        let (p, refused) = tables_applied(o, tables.drop_last());
        if refused is Some {
            (p, refused)
        } else {
            table_applied(p, tables.last().0, tables.last().1, (tables.len() - 1) as usize)
        }
    }
}

proof fn lemma_tables_stop(o: Observed, ts: Seq<(Seq<char>, JsonView)>, n: int)
    requires
        0 <= n <= ts.len(),
    ensures
        tables_applied(o, ts.take(n)).1 is Some ==> tables_applied(o, ts) == tables_applied(
            o,
            ts.take(n),
        ),
    decreases ts.len() - n,
{
    if n == ts.len() {
        assert(ts.take(n) =~= ts);
    } else {
        lemma_tables_stop(o, ts, n + 1);
        assert(ts.take(n + 1).drop_last() =~= ts.take(n));
    }
}

proof fn lemma_scheduler_deleted_stops(row: Option<JsonView>, ds: Seq<JsonView>, n: int)
    requires
        0 <= n <= ds.len(),
    ensures
        scheduler_deleted(row, ds.take(n)).1 is Some ==> scheduler_deleted(row, ds)
            == scheduler_deleted(row, ds.take(n)),
    decreases ds.len() - n,
{
    if n == ds.len() {
        assert(ds.take(n) =~= ds);
    } else {
        lemma_scheduler_deleted_stops(row, ds, n + 1);
        assert(ds.take(n + 1).drop_last() =~= ds.take(n));
    }
}

proof fn lemma_scheduler_inserted_stops(row: Option<JsonView>, is: Seq<JsonView>, n: int)
    requires
        0 <= n <= is.len(),
    ensures
        scheduler_inserted(row, is.take(n)).1 is Some ==> scheduler_inserted(row, is)
            == scheduler_inserted(row, is.take(n)),
    decreases is.len() - n,
{
    if n == is.len() {
        assert(is.take(n) =~= is);
    } else {
        lemma_scheduler_inserted_stops(row, is, n + 1);
        assert(is.take(n + 1).drop_last() =~= is.take(n));
    }
}

/// What an optional row holds.
pub open spec fn held(row: Option<Json>) -> Option<JsonView> {
    match row {
        Some(j) => Some(j@),
        None => None,
    }
}

fn replace_scheduler(scheduler: &mut Option<Json>, changes: &Json) -> (refused: Option<StreamError>)
    ensures
        (held(*final(scheduler)), refused) == scheduler_replaced(held(*old(scheduler)), changes@),
{
    let deletes = match changes.array_at("deletes") {
        None => {
            return Some(StreamError::MissingSchedulerDeletes);
        },
        Some(v) => v,
    };
    let ghost start = held(*scheduler);
    let ghost ds = json::json_views(deletes@);
    let mut i: usize = 0;
    assert(ds.take(0) =~= Seq::<JsonView>::empty());
    while i < deletes.len()
        invariant
            i <= deletes@.len(),
            ds == json::json_views(deletes@),
            start == held(*old(scheduler)),
            changes@.field("deletes"@).items() == Some(ds),
            (held(*scheduler), None::<StreamError>) == scheduler_deleted(start, ds.take(i as int)),
        decreases deletes.len() - i,
    {
        proof {
            assert(ds.take(i as int + 1).drop_last() =~= ds.take(i as int));
            assert(ds.take(i as int + 1).last() == deletes@[i as int]@);
            lemma_scheduler_deleted_stops(start, ds, i as int + 1);
        }
        let was = scheduler.take();
        match was {
            None => {
                return Some(StreamError::SchedulerRowDiffers);
            },
            Some(row) => {
                if !row.same(&deletes[i]) {
                    return Some(StreamError::SchedulerRowDiffers);
                }
            },
        }
        i = i + 1;
    }
    assert(ds.take(ds.len() as int) =~= ds);
    let ghost middle = held(*scheduler);
    let inserts = match changes.array_at("inserts") {
        None => {
            return Some(StreamError::MissingSchedulerInserts);
        },
        Some(v) => v,
    };
    let ghost is = json::json_views(inserts@);
    let mut i: usize = 0;
    assert(is.take(0) =~= Seq::<JsonView>::empty());
    while i < inserts.len()
        invariant
            i <= inserts@.len(),
            is == json::json_views(inserts@),
            changes@.field("deletes"@).items() == Some(ds),
            changes@.field("inserts"@).items() == Some(is),
            (middle, None::<StreamError>) == scheduler_deleted(held(*old(scheduler)), ds),
            (held(*scheduler), None::<StreamError>) == scheduler_inserted(
                middle,
                is.take(i as int),
            ),
        decreases inserts.len() - i,
    {
        proof {
            assert(is.take(i as int + 1).drop_last() =~= is.take(i as int));
            assert(is.take(i as int + 1).last() == inserts@[i as int]@);
            lemma_scheduler_inserted_stops(middle, is, i as int + 1);
        }
        match inserts[i].u64_at("id") {
            Some(0) => {},
            _ => {
                return Some(StreamError::SchedulerNotSingle);
            },
        }
        let there = scheduler.is_some();
        *scheduler = Some(inserts[i].clone());
        if there {
            return Some(StreamError::SchedulerNotSingle);
        }
        i = i + 1;
    }
    assert(is.take(is.len() as int) =~= is);
    None
}

fn check_evidence(changes: &Json, index: usize) -> (refused: Option<StreamError>)
    ensures
        refused == evidence_refusal(changes@, index),
{
    match changes {
        Json::Object(_) => {},
        _ => {
            return Some(StreamError::EvidenceNotAnObject(index));
        },
    }
    if changes.array_at("deletes").is_none() {
        return Some(StreamError::EvidenceWithoutDeletes(index));
    }
    if changes.array_at("inserts").is_none() {
        return Some(StreamError::EvidenceWithoutInserts(index));
    }
    None
}

fn is_ownership_table(name: &str) -> (yes: bool)
    ensures
        yes == ownership_names().contains(name@),
{
    let all = ownership_tables();
    let mut i: usize = 0;
    while i < all.len()
        invariant
            all@.map_values(|s: &'static str| s@) == ownership_names(),
            i <= all@.len(),
            forall|k: int| 0 <= k < i ==> ownership_names()[k] != name@,
        decreases all.len() - i,
    {
        assert(ownership_names()[i as int] == all@[i as int]@);
        if same_text(name, all[i]) {
            return true;
        }
        i = i + 1;
    }
    assert(ownership_names().len() == all@.len());
    false
}

// ------------------------------------------------------------------------------------------
//  Due order
// ------------------------------------------------------------------------------------------

/// A bot's place in the schedule: its row id and when it is due.
#[derive(Debug, Clone, Copy, PartialEq, Eq, Structural)]
pub struct Slot {
    pub guid: u64,
    pub id: Option<u64>,
    pub at: Option<i64>,
}

/// A due bot, ordered by due time, then row id, then character.
#[derive(Debug, Clone, Copy, PartialEq, Eq, Structural)]
pub struct Due {
    pub at: i64,
    pub id: u64,
    pub guid: u64,
}

impl Ranked for Due {
    open spec fn leq(self, other: Due) -> bool {
        self.at < other.at || (self.at == other.at && (self.id < other.id || (self.id == other.id
            && self.guid <= other.guid)))
    }

    proof fn leq_is_total() {
    }

    fn at_most(&self, other: &Due) -> (yes: bool) {
        self.at < other.at || (self.at == other.at && (self.id < other.id || (self.id == other.id
            && self.guid <= other.guid)))
    }
}

/// The slot that a bot row describes.
pub open spec fn slot_of(guid: u64, row: JsonView) -> Slot {
    Slot {
        guid,
        id: row.field("id"@).unsigned(),
        at: row.field("next_think_micros"@).signed(),
    }
}

/// The slots of a roster, by ascending character.
pub open spec fn slots(bots: Map<u64, JsonView>) -> Seq<Slot> {
    order::ascending(bots.dom()).map_values(|g: u64| slot_of(g, bots[g]))
}

/// Some slot has this row id.
pub open spec fn id_taken(s: Seq<Slot>, id: u64) -> bool {
    exists|j: int| 0 <= j < s.len() && (#[trigger] s[j]).id == Some(id)
}

/// The slots due at `now`, unsorted, or the first defect in the roster.
pub open spec fn due_unsorted(s: Seq<Slot>, now: i64) -> Result<Seq<Due>, StreamError>
    decreases s.len(),
{
    if s.len() == 0 {
        Ok(Seq::empty())
    } else {
        match due_unsorted(s.drop_last(), now) {
            Err(e) => Err(e),
            Ok(due) => match s.last().id {
                None => Err(StreamError::NoRowId),
                Some(id) => if id_taken(s.drop_last(), id) {
                    Err(StreamError::SharedRowId(id))
                } else {
                    match s.last().at {
                        None => Err(StreamError::InvalidDue),
                        Some(at) => if at <= now {
                            Ok(due.push(Due { at, id, guid: s.last().guid }))
                        } else {
                            Ok(due)
                        },
                    }
                },
            },
        }
    }
}

/// The slots due at `now`, earliest first, or the first defect in the roster.
pub open spec fn due_list(s: Seq<Slot>, now: i64) -> Result<Seq<Due>, StreamError> {
    match due_unsorted(s, now) {
        Err(e) => Err(e),
        Ok(due) => Ok(sort::sorted(due)),
    }
}

proof fn lemma_due_stops(s: Seq<Slot>, now: i64, n: int)
    requires
        0 <= n <= s.len(),
    ensures
        due_unsorted(s.take(n), now) is Err ==> due_unsorted(s, now) == due_unsorted(
            s.take(n),
            now,
        ),
    decreases s.len() - n,
{
    if n == s.len() {
        assert(s.take(n) =~= s);
    } else {
        lemma_due_stops(s, now, n + 1);
        assert(s.take(n + 1).drop_last() =~= s.take(n));
    }
}

fn has_id(s: &Vec<Slot>, n: usize, id: u64) -> (yes: bool)
    requires
        n <= s@.len(),
    ensures
        yes == id_taken(s@.take(n as int), id),
{
    let ghost seen = s@.take(n as int);
    let mut j: usize = 0;
    while j < n
        invariant
            n <= s@.len(),
            seen == s@.take(n as int),
            j <= n,
            forall|k: int| 0 <= k < j ==> (#[trigger] seen[k]).id != Some(id),
        decreases n - j,
    {
        assert(seen[j as int] == s@[j as int]);
        if let Some(other) = s[j].id {
            if other == id {
                return true;
            }
        }
        j = j + 1;
    }
    false
}

/// The slots due at `now`, earliest first.
pub fn due_order(s: &Vec<Slot>, now: i64) -> (due: Result<Vec<Due>, StreamError>)
    ensures
        match due {
            Ok(v) => due_list(s@, now) == Ok::<Seq<Due>, StreamError>(v@),
            Err(e) => due_list(s@, now) == Err::<Seq<Due>, StreamError>(e),
        },
{
    let mut due: Vec<Due> = Vec::new();
    let mut i: usize = 0;
    assert(s@.take(0) =~= Seq::<Slot>::empty());
    while i < s.len()
        invariant
            i <= s@.len(),
            due_unsorted(s@.take(i as int), now) == Ok::<Seq<Due>, StreamError>(due@),
        decreases s.len() - i,
    {
        let slot = s[i];
        proof {
            assert(s@.take(i as int + 1).drop_last() =~= s@.take(i as int));
            lemma_due_stops(s@, now, i as int + 1);
        }
        match slot.id {
            None => {
                return Err(StreamError::NoRowId);
            },
            Some(id) => {
                if has_id(s, i, id) {
                    return Err(StreamError::SharedRowId(id));
                }
                match slot.at {
                    None => {
                        return Err(StreamError::InvalidDue);
                    },
                    Some(at) => {
                        if at <= now {
                            due.push(Due { at, id, guid: slot.guid });
                        }
                    },
                }
            },
        }
        i = i + 1;
    }
    assert(s@.take(s@.len() as int) =~= s@);
    Ok(sort::sort(&due))
}

/// The slots of a roster, by ascending character.
pub fn slots_of(bots: &BTreeMap<u64, Json>) -> (v: Vec<Slot>)
    ensures
        v@ == slots(rows(bots@)),
        order::lists(order::ascending(rows(bots@).dom()), rows(bots@).dom()),
{
    let keys = keys_of(bots);
    let mut v: Vec<Slot> = Vec::new();
    let mut i: usize = 0;
    assert(rows(bots@).dom() =~= bots@.dom());
    while i < keys.len()
        invariant
            i <= keys@.len(),
            keys@ == order::ascending(rows(bots@).dom()),
            order::lists(keys@, bots@.dom()),
            v@.len() == i,
            forall|k: int|
                0 <= k < i ==> #[trigger] v@[k] == slot_of(keys@[k], rows(bots@)[keys@[k]]),
        decreases keys.len() - i,
    {
        let guid = keys[i];
        assert(keys@.contains(guid));
        assert(bots@.contains_key(guid));
        match bots.get(&guid) {
            Some(row) => {
                v.push(Slot { guid, id: row.u64_at("id"), at: row.i64_at("next_think_micros") });
            },
            None => {},
        }
        i = i + 1;
    }
    assert(v@ =~= slots(rows(bots@)));
    v
}

// ------------------------------------------------------------------------------------------
//  The due times a pass started from
// ------------------------------------------------------------------------------------------

/// When a bot was due as the pass took it up: from its recorded lag where the pass served it,
/// else as its row stands.
pub open spec fn taken_up(row: JsonView, served: bool, now: i64) -> Result<i64, StreamError> {
    if served {
        match row.field("scheduler_lag_micros"@).signed() {
            Some(lag) => if lag < 0 {
                Err(StreamError::InvalidProcessedLag)
            } else if now - lag < i64::MIN {
                Err(StreamError::ProcessedDueOverflow)
            } else {
                Ok((now - lag) as i64)
            },
            None => Err(StreamError::InvalidProcessedLag),
        }
    } else {
        match row.field("next_think_micros"@).signed() {
            Some(at) => Ok(at),
            None => Err(StreamError::InvalidCurrentDue),
        }
    }
}

/// The slots as the pass took them up, and the bots whose due time was advanced to the pass.
pub struct TakenUp {
    pub slots: Seq<Slot>,
    pub accelerated: Seq<u64>,
}

/// The slots as the pass took them up. A due time may differ from the one observed before only
/// where it lay in the future and was advanced to the pass itself.
pub open spec fn all_taken_up(
    before: Seq<Slot>,
    bots: Map<u64, JsonView>,
    served: Seq<u64>,
    now: i64,
) -> Result<TakenUp, StreamError>
    decreases before.len(),
{
    if before.len() == 0 {
        Ok(TakenUp { slots: Seq::empty(), accelerated: Seq::empty() })
    } else {
        match all_taken_up(before.drop_last(), bots, served, now) {
            Err(e) => Err(e),
            Ok(t) => {
                let slot = before.last();
                match slot.at {
                    None => Err(StreamError::InvalidPriorDue),
                    Some(prior) => match taken_up(
                        bots[slot.guid],
                        served.contains(slot.guid),
                        now,
                    ) {
                        Err(e) => Err(e),
                        Ok(due) => if due == prior {
                            Ok(TakenUp { slots: t.slots.push(slot), ..t })
                        } else if prior <= now || due != now {
                            Err(StreamError::DueTimeChanged(slot.guid))
                        } else {
                            Ok(
                                TakenUp {
                                    slots: t.slots.push(Slot { at: Some(due), ..slot }),
                                    accelerated: t.accelerated.push(slot.guid),
                                },
                            )
                        },
                    },
                }
            },
        }
    }
}

proof fn lemma_taken_up_stops(
    before: Seq<Slot>,
    bots: Map<u64, JsonView>,
    served: Seq<u64>,
    now: i64,
    n: int,
)
    requires
        0 <= n <= before.len(),
    ensures
        all_taken_up(before.take(n), bots, served, now) is Err ==> all_taken_up(
            before,
            bots,
            served,
            now,
        ) == all_taken_up(before.take(n), bots, served, now),
    decreases before.len() - n,
{
    if n == before.len() {
        assert(before.take(n) =~= before);
    } else {
        lemma_taken_up_stops(before, bots, served, now, n + 1);
        assert(before.take(n + 1).drop_last() =~= before.take(n));
    }
}

fn holds(v: &Vec<u64>, x: u64) -> (yes: bool)
    ensures
        yes == v@.contains(x),
{
    let mut i: usize = 0;
    while i < v.len()
        invariant
            i <= v@.len(),
            forall|k: int| 0 <= k < i ==> v@[k] != x,
        decreases v.len() - i,
    {
        if v[i] == x {
            return true;
        }
        i = i + 1;
    }
    false
}

fn due_taken_up(row: &Json, served: bool, now: i64) -> (due: Result<i64, StreamError>)
    ensures
        due == taken_up(row@, served, now),
{
    if served {
        match row.i64_at("scheduler_lag_micros") {
            Some(lag) => {
                if lag < 0 {
                    return Err(StreamError::InvalidProcessedLag);
                }
                match now.checked_sub(lag) {
                    Some(due) => Ok(due),
                    None => Err(StreamError::ProcessedDueOverflow),
                }
            },
            None => Err(StreamError::InvalidProcessedLag),
        }
    } else {
        match row.i64_at("next_think_micros") {
            Some(at) => Ok(at),
            None => Err(StreamError::InvalidCurrentDue),
        }
    }
}

fn take_up(
    before: &Vec<Slot>,
    bots: &BTreeMap<u64, Json>,
    served: &Vec<u64>,
    now: i64,
) -> (out: Result<(Vec<Slot>, Vec<u64>), StreamError>)
    requires
        forall|k: int| 0 <= k < before@.len() ==> bots@.contains_key((#[trigger] before@[k]).guid),
    ensures
        match out {
            Ok((s, a)) => all_taken_up(before@, rows(bots@), served@, now) == Ok::<
                TakenUp,
                StreamError,
            >(TakenUp { slots: s@, accelerated: a@ }),
            Err(e) => all_taken_up(before@, rows(bots@), served@, now) == Err::<
                TakenUp,
                StreamError,
            >(e),
        },
{
    let mut slots: Vec<Slot> = Vec::new();
    let mut accelerated: Vec<u64> = Vec::new();
    let mut i: usize = 0;
    assert(before@.take(0) =~= Seq::<Slot>::empty());
    while i < before.len()
        invariant
            i <= before@.len(),
            forall|k: int|
                0 <= k < before@.len() ==> bots@.contains_key((#[trigger] before@[k]).guid),
            all_taken_up(before@.take(i as int), rows(bots@), served@, now) == Ok::<
                TakenUp,
                StreamError,
            >(TakenUp { slots: slots@, accelerated: accelerated@ }),
        decreases before.len() - i,
    {
        let slot = before[i];
        proof {
            assert(before@.take(i as int + 1).drop_last() =~= before@.take(i as int));
            lemma_taken_up_stops(before@, rows(bots@), served@, now, i as int + 1);
        }
        let prior = match slot.at {
            None => {
                return Err(StreamError::InvalidPriorDue);
            },
            Some(at) => at,
        };
        assert(bots@.contains_key(before@[i as int].guid));
        let due = match bots.get(&slot.guid) {
            Some(row) => {
                match due_taken_up(row, holds(served, slot.guid), now) {
                    Err(e) => {
                        return Err(e);
                    },
                    Ok(due) => due,
                }
            },
            None => prior,
        };
        if due == prior {
            slots.push(slot);
        } else if prior <= now || due != now {
            return Err(StreamError::DueTimeChanged(slot.guid));
        } else {
            slots.push(Slot { guid: slot.guid, id: slot.id, at: Some(due) });
            accelerated.push(slot.guid);
        }
        i = i + 1;
    }
    assert(before@.take(before@.len() as int) =~= before@);
    Ok((slots, accelerated))
}

// ------------------------------------------------------------------------------------------
//  Passes
// ------------------------------------------------------------------------------------------

/// One scheduled pass, joined with the rows of the bots it served.
pub struct Pass {
    pub observed_micros: i64,
    pub processed_guids: Vec<u64>,
    pub bots: Vec<Json>,
    pub runners: Vec<Json>,
    pub excess_due: bool,
    pub oldest_deferred_lag_micros: i64,
    pub deferred_guids: Vec<u64>,
    pub accelerated_guids: Vec<u64>,
}

/// What a [`Pass`] holds.
pub struct PassView {
    pub observed_micros: i64,
    pub processed_guids: Seq<u64>,
    pub bots: Seq<JsonView>,
    pub runners: Seq<JsonView>,
    pub excess_due: bool,
    pub oldest_deferred_lag_micros: i64,
    pub deferred_guids: Seq<u64>,
    pub accelerated_guids: Seq<u64>,
}

impl View for Pass {
    type V = PassView;

    open spec fn view(&self) -> PassView {
        PassView {
            observed_micros: self.observed_micros,
            processed_guids: self.processed_guids@,
            bots: json::json_views(self.bots@),
            runners: json::json_views(self.runners@),
            excess_due: self.excess_due,
            oldest_deferred_lag_micros: self.oldest_deferred_lag_micros,
            deferred_guids: self.deferred_guids@,
            accelerated_guids: self.accelerated_guids@,
        }
    }
}

/// The numbers of a list that holds unsigned numbers only.
pub open spec fn number_list(v: JsonView) -> Option<Seq<u64>> {
    match v.items() {
        Some(items) => if forall|i: int|
            0 <= i < items.len() ==> (#[trigger] items[i]).unsigned() is Some {
            Some(items.map_values(|x: JsonView| x->Unsigned_0))
        } else {
            None
        },
        None => None,
    }
}

/// `a - b`, held inside 64 signed bits.
pub open spec fn difference(a: i64, b: i64) -> i64 {
    if a - b > i64::MAX {
        i64::MAX
    } else if a - b < i64::MIN {
        i64::MIN
    } else {
        (a - b) as i64
    }
}

/// The scheduler's list of served bots is a set of staged bots within one batch, and its count
/// is right.
pub open spec fn served_list_ok(row: JsonView, served: Seq<u64>, expected: Set<u64>) -> bool {
    &&& served.no_duplicates()
    &&& forall|i: int| 0 <= i < served.len() ==> expected.contains(#[trigger] served[i])
    &&& served.len() <= BATCH
    &&& row.field("processed"@).unsigned() == Some(served.len() as u64)
}

/// A served bot's rows agree with the pass: due again one interval later, its lag recorded, its
/// runner at the pass.
pub open spec fn served_row_ok(
    bot: JsonView,
    runner: Option<JsonView>,
    due: i64,
    now: i64,
) -> bool {
    &&& bot.field("next_think_micros"@).signed() == (if now + THINK_MICROS <= i64::MAX {
        Some((now + THINK_MICROS) as i64)
    } else {
        None
    })
    &&& bot.field("scheduler_lag_micros"@).signed() == Some(difference(now, due))
    &&& runner is Some
    &&& runner->0.field("observed_micros"@).signed() == Some(now)
}

/// The first due bot whose rows do not agree with the pass.
pub open spec fn first_bad_row(due: Seq<Due>, o: Observed, now: i64) -> Option<u64>
    decreases due.len(),
{
    if due.len() == 0 {
        None
    } else {
        match first_bad_row(due.drop_last(), o, now) {
            Some(g) => Some(g),
            None => {
                let d = due.last();
                if served_row_ok(
                    o.bots[d.guid],
                    if o.runners.contains_key(d.guid) {
                        Some(o.runners[d.guid])
                    } else {
                        None
                    },
                    d.at,
                    now,
                ) {
                    None
                } else {
                    Some(d.guid)
                }
            },
        }
    }
}

/// The characters of a due list.
pub open spec fn guids(due: Seq<Due>) -> Seq<u64> {
    due.map_values(|d: Due| d.guid)
}

/// The first batch of a due list.
pub open spec fn batch(due: Seq<Due>) -> Seq<Due> {
    if due.len() <= BATCH {
        due
    } else {
        due.take(BATCH as int)
    }
}

/// How long the oldest due bot has been waiting.
pub open spec fn oldest_lag(due: Seq<Due>, now: i64) -> i64 {
    if due.len() == 0 {
        0
    } else {
        difference(now, due[0].at)
    }
}

/// The pass that a scheduler row describes, or why it does not describe one. `before` is the
/// schedule before the transaction, `o` the rows after it.
pub open spec fn pass_described(
    before: Seq<Slot>,
    o: Observed,
    row: JsonView,
    served: Seq<u64>,
    now: i64,
) -> Result<PassView, StreamError> {
    match all_taken_up(before, o.bots, served, now) {
        Err(e) => Err(e),
        Ok(t) => match due_list(t.slots, now) {
            Err(e) => Err(e),
            Ok(due) => if served != guids(batch(due)) {
                Err(StreamError::NotEarliestDue)
            } else if first_bad_row(batch(due), o, now) is Some {
                Err(StreamError::ProcessedRowInconsistent(first_bad_row(batch(due), o, now)->0))
            } else {
                match due_list(slots(o.bots), now) {
                    Err(e) => Err(e),
                    Ok(left) => match row.field("excess_due"@).truth() {
                        None => Err(StreamError::InvalidExcessDue),
                        Some(excess) => match row.field("oldest_deferred_lag_micros"@).signed() {
                            None => Err(StreamError::InvalidDeferredLag),
                            Some(oldest) => if excess == (left.len() == 0) || oldest != oldest_lag(
                                left,
                                now,
                            ) {
                                Err(StreamError::DeferredSummaryDisagrees)
                            } else {
                                Ok(
                                    PassView {
                                        observed_micros: now,
                                        processed_guids: served,
                                        bots: served.map_values(|g: u64| o.bots[g]),
                                        runners: served.map_values(|g: u64| o.runners[g]),
                                        excess_due: excess,
                                        oldest_deferred_lag_micros: oldest,
                                        deferred_guids: guids(left),
                                        accelerated_guids: t.accelerated,
                                    },
                                )
                            },
                        },
                    },
                }
            },
        },
    }
}

/// What a stream holds.
pub struct StreamView {
    pub rows: Observed,
    pub last: Option<i64>,
}

/// What correlating the rows gives, once the tables have been applied.
pub open spec fn correlated(
    before: Seq<Slot>,
    last: Option<i64>,
    o: Observed,
    scheduled: bool,
    expected: Set<u64>,
) -> (Option<i64>, Result<Option<PassView>, StreamError>) {
    if o.bots.dom() != expected {
        (last, Err(StreamError::RosterDiffers))
    } else if !o.runners.dom().subset_of(expected) {
        (last, Err(StreamError::UnstagedRunner))
    } else if !scheduled || o.scheduler is None {
        (last, Ok(None))
    } else {
        let row = o.scheduler->0;
        match row.field("observed_micros"@).signed() {
            None => (last, Err(StreamError::InvalidTimestamp)),
            Some(now) => if last is Some && now <= last->0 {
                (last, Err(StreamError::TimestampNotAdvanced))
            } else {
                (
                    Some(now),
                    match number_list(row.field("processed_guids"@)) {
                        None => Err(StreamError::InvalidProcessedList),
                        Some(served) => if !served_list_ok(row, served, expected) {
                            Err(StreamError::ProcessedListInconsistent)
                        } else if last is None {
                            Ok(None)
                        } else {
                            match pass_described(before, o, row, served, now) {
                                Err(e) => Err(e),
                                Ok(p) => Ok(Some(p)),
                            }
                        },
                    },
                )
            },
        }
    }
}

/// The stream after an update, and what the update gave: nothing, a pass, or a refusal.
pub open spec fn applied(
    s: StreamView,
    update: JsonView,
    expected: Set<u64>,
) -> (StreamView, Result<Option<PassView>, StreamError>) {
    match update.members() {
        None => (s, Err(StreamError::NotAnObject)),
        Some(tables) => {
            let (o, refused) = tables_applied(s.rows, tables);
            match refused {
                Some(e) => (StreamView { rows: o, ..s }, Err(e)),
                None => {
                    let (last, result) = correlated(
                        slots(s.rows.bots),
                        s.last,
                        o,
                        json::member(tables, SCHEDULER@) is Some,
                        expected,
                    );
                    (StreamView { rows: o, last }, result)
                },
            }
        },
    }
}

fn numbers(v: &Json) -> (list: Option<Vec<u64>>)
    ensures
        match list {
            Some(l) => number_list(v@) == Some(l@),
            None => number_list(v@) is None,
        },
{
    match v.as_array() {
        None => None,
        Some(items) => {
            let ghost all = json::json_views(items@);
            let mut out: Vec<u64> = Vec::new();
            let mut i: usize = 0;
            while i < items.len()
                invariant
                    i <= items@.len(),
                    all == json::json_views(items@),
                    v@.items() == Some(all),
                    out@.len() == i,
                    forall|k: int|
                        0 <= k < i ==> (#[trigger] all[k]).unsigned() is Some && all[k]->Unsigned_0
                            == out@[k],
                decreases items.len() - i,
            {
                assert(all[i as int] == items@[i as int]@);
                match items[i].as_u64() {
                    Some(n) => out.push(n),
                    None => {
                        return None;
                    },
                }
                i = i + 1;
            }
            assert(all.map_values(|x: JsonView| x->Unsigned_0) =~= out@);
            Some(out)
        },
    }
}

fn clamp_difference(a: i64, b: i64) -> (d: i64)
    ensures
        d == difference(a, b),
{
    match a.checked_sub(b) {
        Some(d) => d,
        None => if b < 0 {
            i64::MAX
        } else {
            i64::MIN
        },
    }
}

fn check_served_list(row: &Json, served: &Vec<u64>, expected: &BTreeSet<u64>) -> (ok: bool)
    ensures
        ok == served_list_ok(row@, served@, expected@),
{
    if served.len() > BATCH {
        return false;
    }
    match row.u64_at("processed") {
        Some(n) => {
            if n != served.len() as u64 {
                return false;
            }
        },
        None => {
            return false;
        },
    }
    let mut i: usize = 0;
    while i < served.len()
        invariant
            i <= served@.len(),
            forall|k: int| 0 <= k < i ==> expected@.contains(#[trigger] served@[k]),
            forall|k: int, l: int| 0 <= k < l < i ==> served@[k] != served@[l],
        decreases served.len() - i,
    {
        if !expected.contains(&served[i]) {
            assert(!expected@.contains(served@[i as int]));
            return false;
        }
        let mut j: usize = 0;
        while j < i
            invariant
                j <= i < served@.len(),
                forall|k: int| 0 <= k < j ==> served@[k] != served@[i as int],
            decreases i - j,
        {
            if served[j] == served[i] {
                assert(served@[j as int] == served@[i as int]);
                return false;
            }
            j = j + 1;
        }
        i = i + 1;
    }
    assert(served@.no_duplicates());
    true
}

fn check_served_rows(
    due: &Vec<Due>,
    n: usize,
    bots: &BTreeMap<u64, Json>,
    runners: &BTreeMap<u64, Json>,
    now: i64,
    Ghost(o): Ghost<Observed>,
) -> (bad: Option<u64>)
    requires
        n <= due@.len(),
        o.bots == rows(bots@),
        o.runners == rows(runners@),
        forall|k: int| 0 <= k < n ==> bots@.contains_key((#[trigger] due@[k]).guid),
    ensures
        bad == first_bad_row(due@.take(n as int), o, now),
        bad is None ==> forall|k: int|
            0 <= k < n ==> runners@.contains_key((#[trigger] due@[k]).guid),
{
    let ghost first = due@.take(n as int);
    let mut i: usize = 0;
    assert(first.take(0) =~= Seq::<Due>::empty());
    while i < n
        invariant
            i <= n <= due@.len(),
            first == due@.take(n as int),
            o.bots == rows(bots@),
            o.runners == rows(runners@),
            forall|k: int| 0 <= k < n ==> bots@.contains_key((#[trigger] due@[k]).guid),
            first_bad_row(first.take(i as int), o, now) is None,
            forall|k: int| 0 <= k < i ==> runners@.contains_key((#[trigger] due@[k]).guid),
        decreases n - i,
    {
        let d = due[i];
        proof {
            assert(first.take(i as int + 1).drop_last() =~= first.take(i as int));
            assert(first.take(i as int + 1).last() == d);
            lemma_bad_row_stops(first, o, now, i as int + 1);
            assert(bots@.contains_key(due@[i as int].guid));
        }
        let bot_ok = match bots.get(&d.guid) {
            Some(bot) => {
                let due_again = bot.i64_at("next_think_micros");
                let lag = bot.i64_at("scheduler_lag_micros");
                due_again == now.checked_add(THINK_MICROS) && lag == Some(
                    clamp_difference(now, d.at),
                )
            },
            None => false,
        };
        let runner_ok = match runners.get(&d.guid) {
            Some(runner) => runner.i64_at("observed_micros") == Some(now),
            None => false,
        };
        if !bot_ok || !runner_ok {
            return Some(d.guid);
        }
        i = i + 1;
    }
    assert(first.take(n as int) =~= first);
    None
}

proof fn lemma_bad_row_stops(due: Seq<Due>, o: Observed, now: i64, n: int)
    requires
        0 <= n <= due.len(),
    ensures
        first_bad_row(due.take(n), o, now) is Some ==> first_bad_row(due, o, now) == first_bad_row(
            due.take(n),
            o,
            now,
        ),
    decreases due.len() - n,
{
    if n == due.len() {
        assert(due.take(n) =~= due);
    } else {
        lemma_bad_row_stops(due, o, now, n + 1);
        assert(due.take(n + 1).drop_last() =~= due.take(n));
    }
}

fn guids_of(due: &Vec<Due>) -> (v: Vec<u64>)
    ensures
        v@ == guids(due@),
{
    let mut v: Vec<u64> = Vec::new();
    let mut i: usize = 0;
    while i < due.len()
        invariant
            i <= due@.len(),
            v@ == guids(due@).take(i as int),
        decreases due.len() - i,
    {
        v.push(due[i].guid);
        assert(v@ =~= guids(due@).take(i as int + 1));
        i = i + 1;
    }
    assert(guids(due@).take(due@.len() as int) =~= guids(due@));
    v
}

fn select_rows(table: &BTreeMap<u64, Json>, keys: &Vec<u64>) -> (v: Vec<Json>)
    requires
        forall|k: int| 0 <= k < keys@.len() ==> table@.contains_key(#[trigger] keys@[k]),
    ensures
        json::json_views(v@) == keys@.map_values(|g: u64| rows(table@)[g]),
{
    let mut v: Vec<Json> = Vec::new();
    let mut i: usize = 0;
    while i < keys.len()
        invariant
            i <= keys@.len(),
            forall|k: int| 0 <= k < keys@.len() ==> table@.contains_key(#[trigger] keys@[k]),
            v@.len() == i,
            forall|k: int| 0 <= k < i ==> (#[trigger] v@[k])@ == rows(table@)[keys@[k]],
        decreases keys.len() - i,
    {
        assert(table@.contains_key(keys@[i as int]));
        match table.get(&keys[i]) {
            Some(row) => v.push(row.clone()),
            None => {},
        }
        i = i + 1;
    }
    assert(json::json_views(v@) =~= keys@.map_values(|g: u64| rows(table@)[g]));
    v
}

pub(crate) fn same_keys(table: &BTreeMap<u64, Json>, expected: &BTreeSet<u64>) -> (same: bool)
    ensures
        same == (rows(table@).dom() == expected@),
{
    let keys = keys_of(table);
    assert(rows(table@).dom() =~= table@.dom());
    let mut i: usize = 0;
    while i < keys.len()
        invariant
            i <= keys@.len(),
            order::lists(keys@, table@.dom()),
            rows(table@).dom() == table@.dom(),
            forall|k: int| 0 <= k < i ==> expected@.contains(#[trigger] keys@[k]),
        decreases keys.len() - i,
    {
        if !expected.contains(&keys[i]) {
            assert(keys@.contains(keys@[i as int]));
            assert(table@.dom().contains(keys@[i as int]));
            return false;
        }
        i = i + 1;
    }
    assert forall|k: u64| table@.dom().contains(k) implies expected@.contains(k) by {
        assert(keys@.contains(k));
    }
    assert(table@.dom().subset_of(expected@));
    let same = table.len() == expected.len();
    proof {
        if same {
            let walk = vstd::std_specs::iter::IteratorSpec::remaining(
                &vstd::std_specs::btree::spec_btree_keys_iter(expected),
            );
            vstd::seq_lib::seq_to_set_is_finite(walk.unref());
            vstd::set_lib::lemma_subset_equality(table@.dom(), expected@);
        }
    }
    same
}

fn keys_within(table: &BTreeMap<u64, Json>, expected: &BTreeSet<u64>) -> (within: bool)
    ensures
        within == rows(table@).dom().subset_of(expected@),
{
    let keys = keys_of(table);
    assert(rows(table@).dom() =~= table@.dom());
    let mut i: usize = 0;
    while i < keys.len()
        invariant
            i <= keys@.len(),
            order::lists(keys@, table@.dom()),
            rows(table@).dom() == table@.dom(),
            forall|k: int| 0 <= k < i ==> expected@.contains(#[trigger] keys@[k]),
        decreases keys.len() - i,
    {
        if !expected.contains(&keys[i]) {
            assert(keys@.contains(keys@[i as int]));
            assert(table@.dom().contains(keys@[i as int]));
            return false;
        }
        i = i + 1;
    }
    assert forall|k: u64| table@.dom().contains(k) implies expected@.contains(k) by {
        assert(keys@.contains(k));
    }
    true
}

/// The rows observed so far, and when the scheduler last reported.
pub struct Stream {
    bots: BTreeMap<u64, Json>,
    runners: BTreeMap<u64, Json>,
    scheduler: Option<Json>,
    last_observed_micros: Option<i64>,
}

impl View for Stream {
    type V = StreamView;

    closed spec fn view(&self) -> StreamView {
        StreamView {
            rows: Observed {
                bots: rows(self.bots@),
                runners: rows(self.runners@),
                scheduler: held(self.scheduler),
            },
            last: self.last_observed_micros,
        }
    }
}

/// The list of the processed characters that a stream last observed.
pub open spec fn processed_list(s: StreamView) -> JsonView {
    match s.rows.scheduler {
        Some(row) => row.field("processed_guids"@),
        None => JsonView::Null,
    }
}

/// What an outcome of [`Stream::apply`] holds.
pub open spec fn outcome(r: Result<Option<Pass>, StreamError>) -> Result<
    Option<PassView>,
    StreamError,
> {
    match r {
        Ok(Some(p)) => Ok(Some(p@)),
        Ok(None) => Ok(None),
        Err(e) => Err(e),
    }
}

impl Stream {
    /// A stream that has observed nothing.
    pub fn new() -> (s: Stream)
        ensures
            s@ == (StreamView {
                rows: Observed {
                    bots: Map::empty(),
                    runners: Map::empty(),
                    scheduler: None,
                },
                last: None,
            }),
    {
        let s = Stream {
            bots: BTreeMap::new(),
            runners: BTreeMap::new(),
            scheduler: None,
            last_observed_micros: None,
        };
        assert(rows(s.bots@) =~= Map::empty());
        assert(rows(s.runners@) =~= Map::empty());
        s
    }

    /// A refusal in words. `update` is the transaction that this stream has just refused.
    pub fn message(&self, refusal: StreamError, update: &Json) -> (s: String)
        ensures
            s@ == refusal.words(update@, processed_list(self@)),
    {
        let none = Json::Null;
        let list: &Json = match &self.scheduler {
            Some(row) => match row.get("processed_guids") {
                Some(list) => list,
                None => &none,
            },
            None => &none,
        };
        refusal.message(update, list)
    }

    fn apply_tables(&mut self, tables: &Vec<(String, Json)>, Ghost(update): Ghost<JsonView>) -> (r:
        Option<StreamError>)
        requires
            update.members() is Some,
            update.members()->0.len() == tables@.len(),
            forall|k: int|
                0 <= k < tables@.len() ==> #[trigger] update.members()->0[k] == (
                    tables@[k].0@,
                    tables@[k].1@,
                ),
        ensures
            (final(self)@.rows, r) == tables_applied(old(self)@.rows, update.members()->0),
            final(self)@.last == old(self)@.last,
    {
        let ghost start = self@.rows;
        let ghost ts = update.members()->0;
        let mut i: usize = 0;
        assert(ts.take(0) =~= Seq::<(Seq<char>, JsonView)>::empty());
        while i < tables.len()
            invariant
                i <= tables@.len(),
                ts.len() == tables@.len(),
                forall|k: int|
                    0 <= k < tables@.len() ==> #[trigger] ts[k] == (
                        tables@[k].0@,
                        tables@[k].1@,
                    ),
                ts == update.members()->0,
                start == old(self)@.rows,
                self@.last == old(self)@.last,
                (self@.rows, None::<StreamError>) == tables_applied(start, ts.take(i as int)),
            decreases tables.len() - i,
        {
            proof {
                assert(ts.take(i as int + 1).drop_last() =~= ts.take(i as int));
                assert(ts.take(i as int + 1).last() == ts[i as int]);
                lemma_tables_stop(start, ts, i as int + 1);
            }
            let name = tables[i].0.as_str();
            let changes = &tables[i].1;
            let refused = if same_text(name, BOT) {
                replace_rows(&mut self.bots, changes)
            } else if same_text(name, RUNNER) {
                replace_rows(&mut self.runners, changes)
            } else if same_text(name, SPLINE) || same_text(name, ENTITY) {
                None
            } else if is_ownership_table(name) || same_text(name, SPAWN) {
                check_evidence(changes, i)
            } else if same_text(name, SCHEDULER) {
                replace_scheduler(&mut self.scheduler, changes)
            } else {
                Some(StreamError::UnexpectedTable(i))
            };
            assert((self@.rows, refused) == tables_applied(start, ts.take(i as int + 1)));
            if refused.is_some() {
                return refused;
            }
            i = i + 1;
        }
        assert(ts.take(ts.len() as int) =~= ts);
        None
    }

    fn describe(&self, before: &Vec<Slot>, row: &Json, served: Vec<u64>, now: i64) -> (pass: Result<
        Pass,
        StreamError,
    >)
        requires
            forall|k: int|
                0 <= k < before@.len() ==> self@.rows.bots.contains_key(
                    (#[trigger] before@[k]).guid,
                ),
        ensures
            match pass {
                Ok(p) => pass_described(before@, self@.rows, row@, served@, now) == Ok::<
                    PassView,
                    StreamError,
                >(p@),
                Err(e) => pass_described(before@, self@.rows, row@, served@, now) == Err::<
                    PassView,
                    StreamError,
                >(e),
            },
    {
        let (taken, accelerated) = match take_up(before, &self.bots, &served, now) {
            Err(e) => {
                return Err(e);
            },
            Ok(t) => t,
        };
        let due = match due_order(&taken, now) {
            Err(e) => {
                return Err(e);
            },
            Ok(due) => due,
        };
        let n: usize = if due.len() <= BATCH {
            due.len()
        } else {
            BATCH
        };
        proof {
            assert(batch(due@) =~= due@.take(n as int));
            lemma_taken_up_guids(before@, rows(self.bots@), served@, now);
            lemma_due_guids(taken@, now);
            assert forall|k: int| 0 <= k < due@.len() implies self.bots@.contains_key(
                (#[trigger] due@[k]).guid,
            ) by {
                assert(listed_in(due@[k], taken@, now));
                let l = choose|l: int|
                    0 <= l < taken@.len() && entry_of(due@[k], #[trigger] taken@[l], now);
                assert(before@[l].guid == taken@[l].guid);
            }
        }
        if served.len() != n {
            assert(guids(batch(due@)).len() == n);
            return Err(StreamError::NotEarliestDue);
        }
        let mut i: usize = 0;
        while i < n
            invariant
                i <= n <= due@.len(),
                served@.len() == n,
                batch(due@) == due@.take(n as int),
                due_list(taken@, now) == Ok::<Seq<Due>, StreamError>(due@),
                all_taken_up(before@, self@.rows.bots, served@, now) == Ok::<TakenUp, StreamError>(
                    TakenUp { slots: taken@, accelerated: accelerated@ },
                ),
                forall|k: int| 0 <= k < i ==> served@[k] == (#[trigger] due@[k]).guid,
            decreases n - i,
        {
            if served[i] != due[i].guid {
                assert(guids(batch(due@))[i as int] == due@[i as int].guid);
                return Err(StreamError::NotEarliestDue);
            }
            i = i + 1;
        }
        assert(served@ =~= guids(batch(due@)));
        if let Some(guid) = check_served_rows(
            &due,
            n,
            &self.bots,
            &self.runners,
            now,
            Ghost(self@.rows),
        ) {
            return Err(StreamError::ProcessedRowInconsistent(guid));
        }
        let left = match due_order(&slots_of(&self.bots), now) {
            Err(e) => {
                return Err(e);
            },
            Ok(left) => left,
        };
        let excess_due = match row.bool_at("excess_due") {
            None => {
                return Err(StreamError::InvalidExcessDue);
            },
            Some(b) => b,
        };
        let oldest = match row.i64_at("oldest_deferred_lag_micros") {
            None => {
                return Err(StreamError::InvalidDeferredLag);
            },
            Some(n) => n,
        };
        let waited: i64 = if left.len() == 0 {
            0
        } else {
            clamp_difference(now, left[0].at)
        };
        if excess_due == (left.len() == 0) || oldest != waited {
            return Err(StreamError::DeferredSummaryDisagrees);
        }
        proof {
            assert forall|k: int| 0 <= k < served@.len() implies self.bots@.contains_key(
                #[trigger] served@[k],
            ) && self.runners@.contains_key(served@[k]) by {
                assert(served@[k] == due@[k].guid);
            }
        }
        let bots = select_rows(&self.bots, &served);
        let runners = select_rows(&self.runners, &served);
        Ok(
            Pass {
                observed_micros: now,
                processed_guids: served,
                bots,
                runners,
                excess_due,
                oldest_deferred_lag_micros: oldest,
                deferred_guids: guids_of(&left),
                accelerated_guids: accelerated,
            },
        )
    }

    /// Applies a complete transaction, then correlates its scheduler and character rows.
    ///
    /// The roster observed before the transaction must lie within the staged one, as it does
    /// after every accepted transaction.
    pub fn apply(&mut self, update: &Json, expected: &BTreeSet<u64>) -> (r: Result<
        Option<Pass>,
        StreamError,
    >)
        requires
            old(self)@.last is Some ==> old(self)@.rows.bots.dom().subset_of(expected@),
        ensures
            (final(self)@, outcome(r)) == applied(old(self)@, update@, expected@),
            r is Ok ==> final(self)@.rows.bots.dom() == expected@,
    {
        let before = slots_of(&self.bots);
        let last = self.last_observed_micros;
        let tables = match update {
            Json::Object(tables) => tables,
            _ => {
                return Err(StreamError::NotAnObject);
            },
        };
        if let Some(e) = self.apply_tables(tables, Ghost(update@)) {
            return Err(e);
        }
        if !same_keys(&self.bots, expected) {
            return Err(StreamError::RosterDiffers);
        }
        if !keys_within(&self.runners, expected) {
            return Err(StreamError::UnstagedRunner);
        }
        if update.get(SCHEDULER).is_none() {
            return Ok(None);
        }
        let row = match &self.scheduler {
            None => {
                return Ok(None);
            },
            Some(row) => row.clone(),
        };
        let now = match row.i64_at("observed_micros") {
            None => {
                return Err(StreamError::InvalidTimestamp);
            },
            Some(now) => now,
        };
        if let Some(last) = last {
            if now <= last {
                return Err(StreamError::TimestampNotAdvanced);
            }
        }
        self.last_observed_micros = Some(now);
        let listed = match row.get("processed_guids") {
            Some(v) => numbers(v),
            None => None,
        };
        let served = match listed {
            None => {
                return Err(StreamError::InvalidProcessedList);
            },
            Some(served) => served,
        };
        if !check_served_list(&row, &served, expected) {
            return Err(StreamError::ProcessedListInconsistent);
        }
        if last.is_none() {
            return Ok(None);
        }
        proof {
            let dom = old(self)@.rows.bots.dom();
            assert(before@ == slots(old(self)@.rows.bots));
            lemma_slot_guids(old(self)@.rows.bots);
            assert forall|k: int| 0 <= k < before@.len() implies self@.rows.bots.contains_key(
                (#[trigger] before@[k]).guid,
            ) by {
                assert(dom.contains(before@[k].guid));
            }
        }
        match self.describe(&before, &row, served, now) {
            Ok(pass) => Ok(Some(pass)),
            Err(e) => Err(e),
        }
    }
}

proof fn lemma_slot_guids(bots: Map<u64, JsonView>)
    requires
        order::lists(order::ascending(bots.dom()), bots.dom()),
    ensures
        forall|k: int|
            0 <= k < slots(bots).len() ==> bots.dom().contains((#[trigger] slots(bots)[k]).guid),
{
    let keys = order::ascending(bots.dom());
    assert forall|k: int| 0 <= k < slots(bots).len() implies bots.dom().contains(
        (#[trigger] slots(bots)[k]).guid,
    ) by {
        assert(keys.contains(keys[k]));
    }
}

proof fn lemma_taken_up_guids(
    before: Seq<Slot>,
    bots: Map<u64, JsonView>,
    served: Seq<u64>,
    now: i64,
)
    ensures
        all_taken_up(before, bots, served, now) matches Ok(t) ==> {
            &&& t.slots.len() == before.len()
            &&& forall|k: int|
                0 <= k < before.len() ==> (#[trigger] t.slots[k]).guid == before[k].guid
        },
    decreases before.len(),
{
    if before.len() > 0 {
        lemma_taken_up_guids(before.drop_last(), bots, served, now);
    }
}

/// A due entry is the entry of some slot that is due.
pub open spec fn entry_of(d: Due, slot: Slot, now: i64) -> bool {
    slot.guid == d.guid && slot.id == Some(d.id) && slot.at == Some(d.at) && d.at <= now
}

/// A due entry is the entry of some slot of `s`.
pub open spec fn listed_in(d: Due, s: Seq<Slot>, now: i64) -> bool {
    exists|l: int| 0 <= l < s.len() && entry_of(d, #[trigger] s[l], now)
}

proof fn lemma_due_unsorted(s: Seq<Slot>, now: i64)
    ensures
        due_unsorted(s, now) matches Ok(due) ==> {
            &&& forall|k: int| 0 <= k < due.len() ==> listed_in(#[trigger] due[k], s, now)
            &&& forall|l: int|
                0 <= l < s.len() ==> (#[trigger] s[l]).id is Some && s[l].at is Some
            &&& forall|l: int|
                0 <= l < s.len() && (#[trigger] s[l]).at->0 <= now ==> due.contains(
                    Due { at: s[l].at->0, id: s[l].id->0, guid: s[l].guid },
                )
        },
    decreases s.len(),
{
    if s.len() > 0 {
        let t = s.drop_last();
        lemma_due_unsorted(t, now);
        if due_unsorted(s, now) is Ok {
            let due = due_unsorted(s, now)->Ok_0;
            let prior = due_unsorted(t, now)->Ok_0;
            assert forall|k: int| 0 <= k < due.len() implies listed_in(
                #[trigger] due[k],
                s,
                now,
            ) by {
                if k < prior.len() {
                    assert(listed_in(prior[k], t, now));
                    let l = choose|l: int|
                        0 <= l < t.len() && entry_of(prior[k], #[trigger] t[l], now);
                    assert(entry_of(due[k], s[l], now));
                } else {
                    assert(entry_of(due[k], s[s.len() - 1], now));
                }
            }
            assert forall|l: int| 0 <= l < s.len() implies (#[trigger] s[l]).id is Some
                && s[l].at is Some by {
                if l < t.len() {
                    assert(t[l] == s[l]);
                }
            }
            assert forall|l: int| 0 <= l < s.len() && (#[trigger] s[l]).at->0
                <= now implies due.contains(
                Due { at: s[l].at->0, id: s[l].id->0, guid: s[l].guid },
            ) by {
                let d = Due { at: s[l].at->0, id: s[l].id->0, guid: s[l].guid };
                if l < t.len() {
                    assert(t[l] == s[l]);
                    assert(prior.contains(d));
                    let k = choose|k: int| 0 <= k < prior.len() && prior[k] == d;
                    assert(due[k] == d);
                } else {
                    assert(due.last() == d);
                }
            }
        }
    }
}

/// A due list holds exactly the due slots, in order, and exists only for a sound roster.
pub proof fn lemma_due_guids(s: Seq<Slot>, now: i64)
    ensures
        due_list(s, now) matches Ok(due) ==> {
            &&& sort::in_order(due)
            &&& forall|k: int| 0 <= k < due.len() ==> listed_in(#[trigger] due[k], s, now)
            &&& forall|l: int|
                0 <= l < s.len() ==> (#[trigger] s[l]).id is Some && s[l].at is Some
            &&& forall|l: int|
                0 <= l < s.len() && (#[trigger] s[l]).at->0 <= now ==> due.contains(
                    Due { at: s[l].at->0, id: s[l].id->0, guid: s[l].guid },
                )
        },
{
    lemma_due_unsorted(s, now);
    if due_list(s, now) is Ok {
        let due = due_list(s, now)->Ok_0;
        let raw = due_unsorted(s, now)->Ok_0;
        sort::lemma_sorted_ensures(raw);
        assert forall|k: int| 0 <= k < due.len() implies listed_in(#[trigger] due[k], s, now) by {
            assert(due.contains(due[k]));
            assert(raw.contains(due[k]));
        }
    }
}

} // verus!
