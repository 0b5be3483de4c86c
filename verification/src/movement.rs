//! The legs that bots walk: which were begun, which were finished at their endpoint, and which
//! were broken off.

use vstd::prelude::*;
use std::collections::{BTreeMap, BTreeSet};
use crate::json;
use crate::json::{Json, JsonView};
use crate::number;
use crate::order;
use crate::sats;
use crate::sort;
use crate::sort::{Ranked, Sample};
use crate::spread;
use crate::spread::Distribution;
use crate::stream;

verus! {

broadcast use {vstd::std_specs::btree::group_btree_axioms, vstd::laws_cmp::group_laws_cmp};

/// The table of the bots' runners.
pub const RUNNER: &'static str = "pkg_playerbots_runner";

/// The table of the entities in the world.
pub const ENTITY: &'static str = "game_world_entity";

/// The table of the legs that entities walk.
pub const SPLINE: &'static str = "game_creature_spline";

/// The table of the scheduler's passes.
pub const SCHEDULER: &'static str = "pkg_playerbots_scheduler";

// ------------------------------------------------------------------------------------------
//  Rows
// ------------------------------------------------------------------------------------------

/// Said of a deleted row that is not the one that was observed.
pub open spec fn differs(table: Seq<char>, guid: u64) -> Seq<char> {
    "deleted "@ + table + " row differs from the last observation for "@ + number::decimal(
        guid as nat,
    )
}

/// Rows after some deletions, and the first refusal among them.
pub open spec fn deleted(
    rows: Map<u64, JsonView>,
    deletes: Seq<JsonView>,
    table: Seq<char>,
    key: Seq<char>,
) -> (Map<u64, JsonView>, Option<Seq<char>>)
    decreases deletes.len(),
{
    if deletes.len() == 0 {
        (rows, None)
    } else {
        let (t, refused) = deleted(rows, deletes.drop_last(), table, key);
        let row = deletes.last();
        if refused is Some {
            (t, refused)
        } else {
            match sats::unsigned_field(row, key) {
                Err(e) => (t, Some(e)),
                Ok(guid) => (
                    t.remove(guid),
                    if t.contains_key(guid) && t[guid] == row {
                        None
                    } else {
                        Some(differs(table, guid))
                    },
                ),
            }
        }
    }
}

/// Said of an inserted row that has no place.
pub open spec fn misplaced(guid: u64) -> Seq<char> {
    "unstaged or duplicate movement row for "@ + number::decimal(guid as nat)
}

/// Rows after some insertions, and the first refusal among them.
pub open spec fn inserted(
    rows: Map<u64, JsonView>,
    inserts: Seq<JsonView>,
    key: Seq<char>,
    expected: Set<u64>,
) -> (Map<u64, JsonView>, Option<Seq<char>>)
    decreases inserts.len(),
{
    if inserts.len() == 0 {
        (rows, None)
    } else {
        let (t, refused) = inserted(rows, inserts.drop_last(), key, expected);
        let row = inserts.last();
        if refused is Some {
            (t, refused)
        } else {
            match sats::unsigned_field(row, key) {
                Err(e) => (t, Some(e)),
                Ok(guid) => if !expected.contains(guid) {
                    (t, Some(misplaced(guid)))
                } else {
                    (
                        t.insert(guid, row),
                        if t.contains_key(guid) {
                            Some(misplaced(guid))
                        } else {
                            None
                        },
                    )
                },
            }
        }
    }
}

/// The rows of one table after an update: every deletion, then every insertion. An update that
/// does not name the table leaves it alone.
pub open spec fn replaced(
    rows: Map<u64, JsonView>,
    update: JsonView,
    table: Seq<char>,
    key: Seq<char>,
    expected: Set<u64>,
) -> (Map<u64, JsonView>, Option<Seq<char>>) {
    match update.get(table) {
        None => (rows, None),
        Some(changes) => match changes.field("deletes"@).items() {
            None => (rows, Some("missing movement deletes"@)),
            Some(deletes) => {
                let (t, refused) = deleted(rows, deletes, table, key);
                if refused is Some {
                    (t, refused)
                } else {
                    match changes.field("inserts"@).items() {
                        None => (t, Some("missing movement inserts"@)),
                        Some(inserts) => inserted(t, inserts, key, expected),
                    }
                }
            },
        },
    }
}

fn name_number(before: &str, middle: &str, after: &str, n: u64) -> (s: String)
    ensures
        s@ == before@ + middle@ + after@ + number::decimal(n as nat),
{
    let mut s: String = before.to_owned();
    s.append(middle);
    s.append(after);
    number::push_decimal(&mut s, n);
    s
}

fn say_number(before: &str, n: u64) -> (s: String)
    ensures
        s@ == before@ + number::decimal(n as nat),
{
    let mut s: String = before.to_owned();
    number::push_decimal(&mut s, n);
    s
}

/// A refusal agrees with the one that is owed.
pub open spec fn told(said: Option<String>) -> Option<Seq<char>> {
    match said {
        Some(s) => Some(s@),
        None => None,
    }
}

fn delete_rows(
    rows: &mut BTreeMap<u64, Json>,
    deletes: &Vec<Json>,
    table: &str,
    key: &str,
) -> (refused: Option<String>)
    ensures
        (stream::rows(final(rows)@), told(refused)) == deleted(
            stream::rows(old(rows)@),
            json::json_views(deletes@),
            table@,
            key@,
        ),
{
    let ghost start = stream::rows(rows@);
    let ghost ds = json::json_views(deletes@);
    let mut i: usize = 0;
    assert(ds.take(0) =~= Seq::<JsonView>::empty());
    while i < deletes.len()
        invariant
            i <= deletes@.len(),
            ds == json::json_views(deletes@),
            start == stream::rows(old(rows)@),
            (stream::rows(rows@), None::<Seq<char>>) == deleted(
                start,
                ds.take(i as int),
                table@,
                key@,
            ),
        decreases deletes.len() - i,
    {
        let ghost now = stream::rows(rows@);
        let row = &deletes[i];
        proof {
            assert(ds.take(i as int + 1).drop_last() =~= ds.take(i as int));
            assert(ds.take(i as int + 1).last() == row@);
            lemma_deleted_stops(start, ds, table@, key@, i as int + 1);
        }
        match sats::unsigned(row, key) {
            Err(e) => {
                return Some(e);
            },
            Ok(guid) => {
                let found = rows.remove(&guid);
                assert(stream::rows(rows@) =~= now.remove(guid));
                let same = match &found {
                    None => false,
                    Some(observed) => observed.same(row),
                };
                if !same {
                    return Some(
                        name_number(
                            "deleted ",
                            table,
                            " row differs from the last observation for ",
                            guid,
                        ),
                    );
                }
            },
        }
        i = i + 1;
    }
    assert(ds.take(ds.len() as int) =~= ds);
    None
}

proof fn lemma_deleted_stops(
    rows: Map<u64, JsonView>,
    ds: Seq<JsonView>,
    table: Seq<char>,
    key: Seq<char>,
    n: int,
)
    requires
        0 <= n <= ds.len(),
    ensures
        deleted(rows, ds.take(n), table, key).1 is Some ==> deleted(rows, ds, table, key)
            == deleted(rows, ds.take(n), table, key),
    decreases ds.len() - n,
{
    if n == ds.len() {
        assert(ds.take(n) =~= ds);
    } else {
        lemma_deleted_stops(rows, ds, table, key, n + 1);
        assert(ds.take(n + 1).drop_last() =~= ds.take(n));
    }
}

fn insert_rows(
    rows: &mut BTreeMap<u64, Json>,
    inserts: &Vec<Json>,
    key: &str,
    expected: &BTreeSet<u64>,
) -> (refused: Option<String>)
    ensures
        (stream::rows(final(rows)@), told(refused)) == inserted(
            stream::rows(old(rows)@),
            json::json_views(inserts@),
            key@,
            expected@,
        ),
{
    let ghost start = stream::rows(rows@);
    let ghost is = json::json_views(inserts@);
    let mut i: usize = 0;
    assert(is.take(0) =~= Seq::<JsonView>::empty());
    while i < inserts.len()
        invariant
            i <= inserts@.len(),
            is == json::json_views(inserts@),
            start == stream::rows(old(rows)@),
            (stream::rows(rows@), None::<Seq<char>>) == inserted(
                start,
                is.take(i as int),
                key@,
                expected@,
            ),
        decreases inserts.len() - i,
    {
        let ghost now = stream::rows(rows@);
        let row = &inserts[i];
        proof {
            assert(is.take(i as int + 1).drop_last() =~= is.take(i as int));
            assert(is.take(i as int + 1).last() == row@);
            lemma_inserted_stops(start, is, key@, expected@, i as int + 1);
        }
        match sats::unsigned(row, key) {
            Err(e) => {
                return Some(e);
            },
            Ok(guid) => {
                if !expected.contains(&guid) {
                    return Some(say_number("unstaged or duplicate movement row for ", guid));
                }
                let there = rows.insert(guid, row.clone());
                assert(stream::rows(rows@) =~= now.insert(guid, row@));
                if there.is_some() {
                    return Some(say_number("unstaged or duplicate movement row for ", guid));
                }
            },
        }
        i = i + 1;
    }
    assert(is.take(is.len() as int) =~= is);
    None
}

proof fn lemma_inserted_stops(
    rows: Map<u64, JsonView>,
    is: Seq<JsonView>,
    key: Seq<char>,
    expected: Set<u64>,
    n: int,
)
    requires
        0 <= n <= is.len(),
    ensures
        inserted(rows, is.take(n), key, expected).1 is Some ==> inserted(rows, is, key, expected)
            == inserted(rows, is.take(n), key, expected),
    decreases is.len() - n,
{
    if n == is.len() {
        assert(is.take(n) =~= is);
    } else {
        lemma_inserted_stops(rows, is, key, expected, n + 1);
        assert(is.take(n + 1).drop_last() =~= is.take(n));
    }
}

/// Applies an update to the rows of one table.
fn replace(
    rows: &mut BTreeMap<u64, Json>,
    update: &Json,
    table: &str,
    key: &str,
    expected: &BTreeSet<u64>,
) -> (refused: Option<String>)
    ensures
        (stream::rows(final(rows)@), told(refused)) == replaced(
            stream::rows(old(rows)@),
            update@,
            table@,
            key@,
            expected@,
        ),
{
    match update.get(table) {
        None => None,
        Some(changes) => match changes.array_at("deletes") {
            None => Some("missing movement deletes".to_owned()),
            Some(deletes) => {
                let refused = delete_rows(rows, deletes, table, key);
                if refused.is_some() {
                    return refused;
                }
                match changes.array_at("inserts") {
                    None => Some("missing movement inserts".to_owned()),
                    Some(inserts) => insert_rows(rows, inserts, key, expected),
                }
            },
        },
    }
}

// ------------------------------------------------------------------------------------------
//  Entities: the bots, and the creatures that were declared
// ------------------------------------------------------------------------------------------

/// The entities that an update speaks of: staged bots apart from declared creatures.
pub struct Entities {
    pub bots: Map<u64, JsonView>,
    pub creatures: Map<u64, JsonView>,
}

/// Said of an entity that nobody declared.
pub open spec fn undeclared(guid: u64, entry: u64) -> Seq<char> {
    "unexpected evidence entity "@ + number::decimal(guid as nat) + " with entry "@
        + number::decimal(entry as nat)
}

/// Whether an entity's row belongs with the bots; refused where it is neither a staged bot nor a
/// creature of a declared entry.
pub open spec fn belongs_with_bots(
    row: JsonView,
    guid: u64,
    expected: Set<u64>,
    entries: Set<u32>,
) -> Result<bool, Seq<char>> {
    if expected.contains(guid) {
        Ok(true)
    } else {
        match sats::unsigned_field(row, "entry"@) {
            Err(e) => Err(e),
            Ok(entry) => if entry > u32::MAX {
                Err("entity entry exceeds u32"@)
            } else if !entries.contains(entry as u32) {
                Err(undeclared(guid, entry))
            } else {
                Ok(false)
            },
        }
    }
}

fn is_bot(row: &Json, guid: u64, expected: &BTreeSet<u64>, entries: &BTreeSet<u32>) -> (r: Result<
    bool,
    String,
>)
    ensures
        sats::agrees(r, belongs_with_bots(row@, guid, expected@, entries@)),
{
    if expected.contains(&guid) {
        return Ok(true);
    }
    match sats::unsigned(row, "entry") {
        Err(e) => Err(e),
        Ok(entry) => {
            if entry > u32::MAX as u64 {
                return Err("entity entry exceeds u32".to_owned());
            }
            let small: u32 = entry as u32;
            if entries.contains(&small) {
                Ok(false)
            } else {
                let mut s: String = "unexpected evidence entity ".to_owned();
                number::push_decimal(&mut s, guid);
                s.append(" with entry ");
                number::push_decimal(&mut s, entry);
                Err(s)
            }
        },
    }
}

/// Said of a deleted entity that is not the one that was observed.
pub open spec fn entity_differs(guid: u64) -> Seq<char> {
    "deleted entity row differs from the last observation for "@ + number::decimal(guid as nat)
}

/// Said of an entity that is inserted over another.
pub open spec fn entity_doubled(guid: u64) -> Seq<char> {
    "insert replaced entity "@ + number::decimal(guid as nat) + " without a matching deletion"@
}

impl Entities {
    /// One side's rows.
    pub open spec fn side(self, bots: bool) -> Map<u64, JsonView> {
        if bots {
            self.bots
        } else {
            self.creatures
        }
    }

    /// With other rows on one side.
    pub open spec fn with_side(self, bots: bool, rows: Map<u64, JsonView>) -> Entities {
        if bots {
            Entities { bots: rows, ..self }
        } else {
            Entities { creatures: rows, ..self }
        }
    }

    /// After one deletion.
    pub open spec fn without(self, row: JsonView, expected: Set<u64>, entries: Set<u32>) -> (
        Entities,
        Option<Seq<char>>,
    ) {
        match sats::unsigned_field(row, "guid"@) {
            Err(e) => (self, Some(e)),
            Ok(guid) => match belongs_with_bots(row, guid, expected, entries) {
                Err(e) => (self, Some(e)),
                Ok(bots) => {
                    let rows = self.side(bots);
                    (
                        self.with_side(bots, rows.remove(guid)),
                        if rows.contains_key(guid) && rows[guid] == row {
                            None
                        } else {
                            Some(entity_differs(guid))
                        },
                    )
                },
            },
        }
    }

    /// After one insertion.
    pub open spec fn with(self, row: JsonView, expected: Set<u64>, entries: Set<u32>) -> (
        Entities,
        Option<Seq<char>>,
    ) {
        match sats::unsigned_field(row, "guid"@) {
            Err(e) => (self, Some(e)),
            Ok(guid) => match belongs_with_bots(row, guid, expected, entries) {
                Err(e) => (self, Some(e)),
                Ok(bots) => {
                    let rows = self.side(bots);
                    (
                        self.with_side(bots, rows.insert(guid, row)),
                        if rows.contains_key(guid) {
                            Some(entity_doubled(guid))
                        } else {
                            None
                        },
                    )
                },
            },
        }
    }

    /// After several deletions or insertions, up to the first refusal.
    pub open spec fn changed(
        self,
        changes: Seq<JsonView>,
        insert: bool,
        expected: Set<u64>,
        entries: Set<u32>,
    ) -> (Entities, Option<Seq<char>>)
        decreases changes.len(),
    {
        if changes.len() == 0 {
            (self, None)
        } else {
            let (t, refused) = self.changed(changes.drop_last(), insert, expected, entries);
            if refused is Some {
                (t, refused)
            } else if insert {
                t.with(changes.last(), expected, entries)
            } else {
                t.without(changes.last(), expected, entries)
            }
        }
    }

    /// After an update: every deletion, then every insertion.
    pub open spec fn replaced(self, update: JsonView, expected: Set<u64>, entries: Set<u32>) -> (
        Entities,
        Option<Seq<char>>,
    ) {
        match update.get(ENTITY@) {
            None => (self, None),
            Some(changes) => match changes.field("deletes"@).items() {
                None => (self, Some("missing entity deletes"@)),
                Some(deletes) => {
                    let (t, refused) = self.changed(deletes, false, expected, entries);
                    if refused is Some {
                        (t, refused)
                    } else {
                        match changes.field("inserts"@).items() {
                            None => (t, Some("missing entity inserts"@)),
                            Some(inserts) => t.changed(inserts, true, expected, entries),
                        }
                    }
                },
            },
        }
    }
}

/// What two tables of entities hold.
pub open spec fn entities_of(bots: Map<u64, Json>, creatures: Map<u64, Json>) -> Entities {
    Entities { bots: stream::rows(bots), creatures: stream::rows(creatures) }
}

fn delete_entity(rows: &mut BTreeMap<u64, Json>, guid: u64, row: &Json) -> (refused: Option<String>)
    ensures
        stream::rows(final(rows)@) == stream::rows(old(rows)@).remove(guid),
        told(refused) == if stream::rows(old(rows)@).contains_key(guid) && stream::rows(
            old(rows)@,
        )[guid] == row@ {
            None
        } else {
            Some(entity_differs(guid))
        },
{
    let ghost now = stream::rows(rows@);
    let found = rows.remove(&guid);
    assert(stream::rows(rows@) =~= now.remove(guid));
    let same = match &found {
        None => false,
        Some(observed) => observed.same(row),
    };
    if same {
        None
    } else {
        Some(say_number("deleted entity row differs from the last observation for ", guid))
    }
}

fn insert_entity(rows: &mut BTreeMap<u64, Json>, guid: u64, row: &Json) -> (refused: Option<String>)
    ensures
        stream::rows(final(rows)@) == stream::rows(old(rows)@).insert(guid, row@),
        told(refused) == if stream::rows(old(rows)@).contains_key(guid) {
            Some(entity_doubled(guid))
        } else {
            None
        },
{
    let ghost now = stream::rows(rows@);
    let there = rows.insert(guid, row.clone());
    assert(stream::rows(rows@) =~= now.insert(guid, row@));
    if there.is_some() {
        let mut s: String = say_number("insert replaced entity ", guid);
        s.append(" without a matching deletion");
        Some(s)
    } else {
        None
    }
}

fn change_entity(
    bots: &mut BTreeMap<u64, Json>,
    creatures: &mut BTreeMap<u64, Json>,
    row: &Json,
    insert: bool,
    expected: &BTreeSet<u64>,
    entries: &BTreeSet<u32>,
) -> (refused: Option<String>)
    ensures
        (entities_of(final(bots)@, final(creatures)@), told(refused)) == if insert {
            entities_of(old(bots)@, old(creatures)@).with(row@, expected@, entries@)
        } else {
            entities_of(old(bots)@, old(creatures)@).without(row@, expected@, entries@)
        },
{
    let guid: u64 = match sats::unsigned(row, "guid") {
        Err(e) => return Some(e),
        Ok(guid) => guid,
    };
    match is_bot(row, guid, expected, entries) {
        Err(e) => Some(e),
        Ok(true) => if insert {
            insert_entity(bots, guid, row)
        } else {
            delete_entity(bots, guid, row)
        },
        Ok(false) => if insert {
            insert_entity(creatures, guid, row)
        } else {
            delete_entity(creatures, guid, row)
        },
    }
}

proof fn lemma_changed_stops(
    e: Entities,
    cs: Seq<JsonView>,
    insert: bool,
    expected: Set<u64>,
    entries: Set<u32>,
    n: int,
)
    requires
        0 <= n <= cs.len(),
    ensures
        e.changed(cs.take(n), insert, expected, entries).1 is Some ==> e.changed(
            cs,
            insert,
            expected,
            entries,
        ) == e.changed(cs.take(n), insert, expected, entries),
    decreases cs.len() - n,
{
    if n == cs.len() {
        assert(cs.take(n) =~= cs);
    } else {
        lemma_changed_stops(e, cs, insert, expected, entries, n + 1);
        assert(cs.take(n + 1).drop_last() =~= cs.take(n));
    }
}

fn change_entities(
    bots: &mut BTreeMap<u64, Json>,
    creatures: &mut BTreeMap<u64, Json>,
    changes: &Vec<Json>,
    insert: bool,
    expected: &BTreeSet<u64>,
    entries: &BTreeSet<u32>,
) -> (refused: Option<String>)
    ensures
        (entities_of(final(bots)@, final(creatures)@), told(refused)) == entities_of(
            old(bots)@,
            old(creatures)@,
        ).changed(json::json_views(changes@), insert, expected@, entries@),
{
    let ghost start = entities_of(bots@, creatures@);
    let ghost cs = json::json_views(changes@);
    let mut i: usize = 0;
    assert(cs.take(0) =~= Seq::<JsonView>::empty());
    while i < changes.len()
        invariant
            i <= changes@.len(),
            cs == json::json_views(changes@),
            start == entities_of(old(bots)@, old(creatures)@),
            (entities_of(bots@, creatures@), None::<Seq<char>>) == start.changed(
                cs.take(i as int),
                insert,
                expected@,
                entries@,
            ),
        decreases changes.len() - i,
    {
        let row = &changes[i];
        proof {
            assert(cs.take(i as int + 1).drop_last() =~= cs.take(i as int));
            assert(cs.take(i as int + 1).last() == row@);
            lemma_changed_stops(start, cs, insert, expected@, entries@, i as int + 1);
        }
        let refused = change_entity(bots, creatures, row, insert, expected, entries);
        if refused.is_some() {
            return refused;
        }
        i = i + 1;
    }
    assert(cs.take(cs.len() as int) =~= cs);
    None
}

/// Applies an update to the entities.
fn replace_entities(
    bots: &mut BTreeMap<u64, Json>,
    creatures: &mut BTreeMap<u64, Json>,
    update: &Json,
    expected: &BTreeSet<u64>,
    entries: &BTreeSet<u32>,
) -> (refused: Option<String>)
    ensures
        (entities_of(final(bots)@, final(creatures)@), told(refused)) == entities_of(
            old(bots)@,
            old(creatures)@,
        ).replaced(update@, expected@, entries@),
{
    match update.get(ENTITY) {
        None => None,
        Some(changes) => match changes.array_at("deletes") {
            None => Some("missing entity deletes".to_owned()),
            Some(deletes) => {
                let refused = change_entities(bots, creatures, deletes, false, expected, entries);
                if refused.is_some() {
                    return refused;
                }
                match changes.array_at("inserts") {
                    None => Some("missing entity inserts".to_owned()),
                    Some(inserts) => change_entities(
                        bots,
                        creatures,
                        inserts,
                        true,
                        expected,
                        entries,
                    ),
                }
            },
        },
    }
}

// ------------------------------------------------------------------------------------------
//  Who owns a leg
// ------------------------------------------------------------------------------------------

/// What makes a leg the same leg: the runner's generation, the place, the start, the candidate
/// and the destination.
pub struct Identity {
    pub generation: Json,
    pub map_id: Json,
    pub instance_id: Json,
    pub started_micros: Json,
    pub candidate: Json,
    pub destination: Json,
}

/// What an identity holds.
pub struct IdentityView {
    pub generation: JsonView,
    pub map_id: JsonView,
    pub instance_id: JsonView,
    pub started_micros: JsonView,
    pub candidate: JsonView,
    pub destination: JsonView,
}

impl View for Identity {
    type V = IdentityView;

    open spec fn view(&self) -> IdentityView {
        IdentityView {
            generation: self.generation@,
            map_id: self.map_id@,
            instance_id: self.instance_id@,
            started_micros: self.started_micros@,
            candidate: self.candidate@,
            destination: self.destination@,
        }
    }
}

impl Identity {
    /// Whether two identities are the same.
    pub fn same(&self, other: &Identity) -> (yes: bool)
        ensures
            yes == (self@ == other@),
    {
        self.generation.same(&other.generation) && self.map_id.same(&other.map_id)
            && self.instance_id.same(&other.instance_id) && self.started_micros.same(
            &other.started_micros,
        ) && self.candidate.same(&other.candidate) && self.destination.same(&other.destination)
    }
}

/// The identity of the leg that a runner's foreground is walking, if it is walking one.
pub open spec fn identity_of(row: JsonView) -> Result<Option<IdentityView>, Seq<char>> {
    match sats::option_field(row, "foreground"@) {
        Err(e) => Err(e),
        Ok(None) => Ok(None),
        Ok(Some(fg)) => match fg.field("running"@).get("movement"@) {
            None => Ok(None),
            Some(m) => Ok(
                Some(
                    IdentityView {
                        generation: fg.field("generation"@),
                        map_id: fg.field("map_id"@),
                        instance_id: fg.field("instance_id"@),
                        started_micros: fg.field("started_micros"@),
                        candidate: fg.field("candidate"@),
                        destination: m.field("destination"@),
                    },
                ),
            ),
        },
    }
}

/// An identity, if there is one.
pub open spec fn identified(v: Option<Identity>) -> Option<IdentityView> {
    match v {
        Some(i) => Some(i@),
        None => None,
    }
}

/// The identity of the leg that a runner's foreground is walking, if it is walking one.
pub fn movement_identity(row: &Json) -> (r: Result<Option<Identity>, String>)
    ensures
        match (r, identity_of(row@)) {
            (Ok(v), Ok(w)) => identified(v) == w,
            (Err(said), Err(words)) => said@ == words,
            _ => false,
        },
{
    let fg: Json = match sats::optional(row, "foreground") {
        Err(e) => return Err(e),
        Ok(None) => return Ok(None),
        Ok(Some(fg)) => fg,
    };
    let running: Json = sats::field(&fg, "running");
    match running.get("movement") {
        None => Ok(None),
        Some(m) => Ok(
            Some(
                Identity {
                    generation: sats::field(&fg, "generation"),
                    map_id: sats::field(&fg, "map_id"),
                    instance_id: sats::field(&fg, "instance_id"),
                    started_micros: sats::field(&fg, "started_micros"),
                    candidate: sats::field(&fg, "candidate"),
                    destination: sats::field(m, "destination"),
                },
            ),
        ),
    }
}

/// The identity of the leg that a bot walks.
pub open spec fn owner_of(runners: Map<u64, JsonView>, guid: u64) -> Result<
    Option<IdentityView>,
    Seq<char>,
> {
    if runners.contains_key(guid) {
        identity_of(runners[guid])
    } else {
        Ok(None)
    }
}

fn owner(runners: &BTreeMap<u64, Json>, guid: u64) -> (r: Result<Option<Identity>, String>)
    ensures
        match (r, owner_of(stream::rows(runners@), guid)) {
            (Ok(v), Ok(w)) => identified(v) == w,
            (Err(said), Err(words)) => said@ == words,
            _ => false,
        },
{
    match runners.get(&guid) {
        None => Ok(None),
        Some(row) => movement_identity(row),
    }
}

// ------------------------------------------------------------------------------------------
//  Legs
// ------------------------------------------------------------------------------------------

/// A leg that is being walked.
pub struct Leg {
    pub spline: Json,
    pub owner: Identity,
}

/// What a leg holds.
pub struct LegView {
    pub spline: JsonView,
    pub owner: IdentityView,
}

impl View for Leg {
    type V = LegView;

    open spec fn view(&self) -> LegView {
        LegView { spline: self.spline@, owner: self.owner@ }
    }
}

/// What the observation of movement holds.
pub struct MovementView {
    pub expected: Set<u64>,
    pub entries: Set<u32>,
    pub runners: Map<u64, JsonView>,
    pub entities: Entities,
    pub splines: Map<u64, JsonView>,
    pub active: Map<u64, LegView>,
    pub owners: Map<u64, Option<IdentityView>>,
    pub completed: Seq<Sample>,
    pub interrupted: int,
}

/// The owners of some bots' legs, up to the first that cannot be read.
pub open spec fn owners_of(runners: Map<u64, JsonView>, guids: Seq<u64>) -> Result<
    Map<u64, Option<IdentityView>>,
    Seq<char>,
>
    decreases guids.len(),
{
    if guids.len() == 0 {
        Ok(Map::empty())
    } else {
        match owners_of(runners, guids.drop_last()) {
            Err(e) => Err(e),
            Ok(m) => match owner_of(runners, guids.last()) {
                Err(e) => Err(e),
                Ok(o) => Ok(m.insert(guids.last(), o)),
            },
        }
    }
}

/// The rows that an update deletes from the legs.
pub open spec fn ended_legs(update: JsonView) -> Seq<JsonView> {
    match update.field(SPLINE@).field("deletes"@).items() {
        Some(rows) => rows,
        None => Seq::empty(),
    }
}

/// The rows that an update inserts among the legs.
pub open spec fn begun_legs(update: JsonView) -> Seq<JsonView> {
    match update.field(SPLINE@).field("inserts"@).items() {
        Some(rows) => rows,
        None => Seq::empty(),
    }
}

/// The rows that an update inserts among the runners.
pub open spec fn new_runners(update: JsonView) -> Seq<JsonView> {
    match update.field(RUNNER@).field("inserts"@).items() {
        Some(rows) => rows,
        None => Seq::empty(),
    }
}

/// When the scheduler's pass in an update was observed.
pub open spec fn pass_time(update: JsonView) -> Option<u64> {
    match update.field(SCHEDULER@).field("inserts"@).items() {
        Some(rows) => if rows.len() == 0 {
            None
        } else {
            rows[0].field("observed_micros"@).unsigned()
        },
        None => None,
    }
}

/// When a leg is due at its endpoint.
pub open spec fn arrival_due(spline: JsonView) -> Result<(u64, u64), Seq<char>> {
    match sats::unsigned_field(spline, "start_micros"@) {
        Err(e) => Err(e),
        Ok(start) => match sats::unsigned_field(spline, "dur_ms"@) {
            Err(e) => Err(e),
            Ok(dur) => {
                let micros = if dur * 1000 > u64::MAX {
                    u64::MAX as int
                } else {
                    dur * 1000
                };
                if start + micros > u64::MAX {
                    Err("movement arrival time overflow"@)
                } else {
                    Ok((start, (start + micros) as u64))
                }
            },
        },
    }
}

/// Whether an entity stands in the same map and instance as a leg. The instances are looked at
/// only where the maps agree.
pub open spec fn same_partition(entity: JsonView, spline: JsonView) -> Result<bool, Seq<char>> {
    match sats::unsigned_field(entity, "map_id"@) {
        Err(e) => Err(e),
        Ok(a) => match sats::unsigned_field(spline, "map_id"@) {
            Err(e) => Err(e),
            Ok(b) => if a != b {
                Ok(false)
            } else {
                match sats::unsigned_field(entity, "instance_id"@) {
                    Err(e) => Err(e),
                    Ok(c) => match sats::unsigned_field(spline, "instance_id"@) {
                        Err(e) => Err(e),
                        Ok(d) => Ok(c == d),
                    },
                }
            },
        },
    }
}

/// What is wrong with the coordinates of one axis, if anything is.
pub open spec fn axis_fault(
    entity: JsonView,
    spline: JsonView,
    at: Seq<char>,
    start: Seq<char>,
    end: Seq<char>,
) -> Option<Seq<char>> {
    match sats::coordinate_field(spline, end) {
        Err(e) => Some(e),
        Ok(_) => match sats::coordinate_field(entity, at) {
            Err(e) => Some(e),
            Ok(_) => match sats::coordinate_field(spline, start) {
                Err(e) => Some(e),
                Ok(_) => None,
            },
        },
    }
}

/// Whether an entity has reached the endpoint of a leg, where `near` says that it stands there and
/// that the leg led anywhere.
pub open spec fn at_endpoint(entity: JsonView, spline: JsonView, near: bool) -> Result<
    bool,
    Seq<char>,
> {
    match same_partition(entity, spline) {
        Err(e) => Err(e),
        Ok(same) => match axis_fault(entity, spline, "x"@, "sx"@, "dx"@) {
            Some(e) => Err(e),
            None => match axis_fault(entity, spline, "y"@, "sy"@, "dy"@) {
                Some(e) => Err(e),
                None => match axis_fault(entity, spline, "z"@, "sz"@, "dz"@) {
                    Some(e) => Err(e),
                    None => Ok(same && near),
                },
            },
        },
    }
}

impl MovementView {
    /// Whether the bot's runner kept the leg all the way through the update that ended it.
    pub open spec fn kept_owner(self, guid: u64, leg: LegView) -> bool {
        &&& self.owners.contains_key(guid)
        &&& self.owners[guid] == Some(leg.owner)
        &&& self.runners.contains_key(guid)
        &&& self.runners[guid].field("generation"@) == leg.owner.generation
    }

    /// Whether the bot stands at the endpoint of a leg.
    pub open spec fn arrived(self, guid: u64, spline: JsonView, near: bool) -> Result<
        bool,
        Seq<char>,
    > {
        if self.entities.bots.contains_key(guid) {
            at_endpoint(self.entities.bots[guid], spline, near)
        } else {
            Ok(false)
        }
    }

    /// After one leg was deleted: it counts as completed where its own owner walked it to its end
    /// in time, and as interrupted otherwise. A leg that was not being followed counts as nothing.
    pub open spec fn one_ended(self, now: Option<u64>, spline: JsonView, near: bool) -> (
        MovementView,
        Option<Seq<char>>,
    ) {
        match sats::unsigned_field(spline, "guid"@) {
            Err(e) => (self, Some(e)),
            Ok(guid) => if !self.active.contains_key(guid) {
                (self, None)
            } else {
                let leg = self.active[guid];
                let without = MovementView { active: self.active.remove(guid), ..self };
                match arrival_due(spline) {
                    Err(e) => (without, Some(e)),
                    Ok((start, due)) => match self.arrived(guid, spline, near) {
                        Err(e) => (without, Some(e)),
                        Ok(arrived) => if leg.spline == spline && self.kept_owner(guid, leg)
                            && arrived && now is Some && now->0 >= due {
                            (
                                MovementView {
                                    completed: self.completed.push(
                                        Sample { value: (now->0 - start) as u64, guid },
                                    ),
                                    ..without
                                },
                                None,
                            )
                        } else {
                            (
                                MovementView { interrupted: self.interrupted + 1, ..without },
                                None,
                            )
                        },
                    },
                }
            },
        }
    }

    /// After several legs were deleted, up to the first refusal.
    pub open spec fn all_ended(self, now: Option<u64>, splines: Seq<JsonView>, near: Seq<bool>) -> (
        MovementView,
        Option<Seq<char>>,
    )
        decreases splines.len(),
    {
        if splines.len() == 0 {
            (self, None)
        } else {
            let (m, refused) = self.all_ended(now, splines.drop_last(), near);
            if refused is Some {
                (m, refused)
            } else {
                m.one_ended(now, splines.last(), near[splines.len() - 1])
            }
        }
    }

    /// Whether a bot's runner still walks the leg that is being followed.
    pub open spec fn still_owned(self, guid: u64) -> Result<bool, Seq<char>> {
        match owner_of(self.runners, guid) {
            Err(e) => Err(e),
            Ok(o) => Ok(o == Some(self.active[guid].owner)),
        }
    }

    /// The bots among `guids` whose runner has turned to something else.
    pub open spec fn abandoned(self, guids: Seq<u64>) -> Result<Seq<u64>, Seq<char>>
        decreases guids.len(),
    {
        if guids.len() == 0 {
            Ok(Seq::empty())
        } else {
            match self.abandoned(guids.drop_last()) {
                Err(e) => Err(e),
                Ok(list) => match self.still_owned(guids.last()) {
                    Err(e) => Err(e),
                    Ok(true) => Ok(list),
                    Ok(false) => Ok(list.push(guids.last())),
                },
            }
        }
    }

    /// After the legs of some bots were given up.
    pub open spec fn given_up(self, guids: Seq<u64>) -> MovementView
        decreases guids.len(),
    {
        if guids.len() == 0 {
            self
        } else {
            let m = self.given_up(guids.drop_last());
            MovementView {
                active: m.active.remove(guids.last()),
                interrupted: m.interrupted + 1,
                ..m
            }
        }
    }

    /// After one leg was inserted: it is followed where the bot's runner began it in the same
    /// update, at the same time and place.
    pub open spec fn one_begun(self, update: JsonView, spline: JsonView) -> (
        MovementView,
        Option<Seq<char>>,
    ) {
        match sats::unsigned_field(spline, "guid"@) {
            Err(e) => (self, Some(e)),
            Ok(guid) => match owner_of(self.runners, guid) {
                Err(e) => (self, Some(e)),
                Ok(None) => (self, None),
                Ok(Some(id)) => match begins(update, spline, guid, id) {
                    Err(e) => (self, Some(e)),
                    Ok(false) => (self, None),
                    Ok(true) => (
                        MovementView {
                            active: self.active.insert(guid, LegView { spline, owner: id }),
                            ..self
                        },
                        None,
                    ),
                },
            },
        }
    }

    /// After several legs were inserted, up to the first refusal.
    pub open spec fn all_begun(self, update: JsonView, splines: Seq<JsonView>) -> (
        MovementView,
        Option<Seq<char>>,
    )
        decreases splines.len(),
    {
        if splines.len() == 0 {
            (self, None)
        } else {
            let (m, refused) = self.all_begun(update, splines.drop_last());
            if refused is Some {
                (m, refused)
            } else {
                m.one_begun(update, splines.last())
            }
        }
    }

    /// After the rows of an update were taken in. Outside the measured window no leg is followed.
    pub open spec fn observed(self, update: JsonView, measured: bool) -> (
        MovementView,
        Option<Seq<char>>,
    ) {
        match owners_of(self.runners, order::ascending(self.active.dom())) {
            Err(e) => (self, Some(e)),
            Ok(owners) => {
                let (runners, refused) = replaced(
                    self.runners,
                    update,
                    RUNNER@,
                    "character_guid"@,
                    self.expected,
                );
                let m = MovementView { owners, runners, ..self };
                if refused is Some {
                    (m, refused)
                } else {
                    let (entities, refused) = self.entities.replaced(
                        update,
                        self.expected,
                        self.entries,
                    );
                    let m = MovementView { entities, ..m };
                    if refused is Some {
                        (m, refused)
                    } else {
                        let (splines, refused) = replaced(
                            self.splines,
                            update,
                            SPLINE@,
                            "guid"@,
                            self.expected,
                        );
                        let m = MovementView { splines, ..m };
                        if refused is Some {
                            (m, refused)
                        } else if measured {
                            (m, None)
                        } else {
                            (MovementView { active: Map::empty(), ..m }, None)
                        }
                    }
                }
            },
        }
    }

    /// After the legs of an update, whose rows were taken in, are settled: those that it ended,
    /// those that were abandoned, those that it began.
    pub open spec fn settled(self, update: JsonView, near: Seq<bool>) -> (
        MovementView,
        Option<Seq<char>>,
    ) {
        let (m, refused) = self.all_ended(pass_time(update), ended_legs(update), near);
        if refused is Some {
            (m, refused)
        } else {
            match m.abandoned(order::ascending(m.active.dom())) {
                Err(e) => (m, Some(e)),
                Ok(guids) => m.given_up(guids).all_begun(update, begun_legs(update)),
            }
        }
    }
}

/// Whether a runner row of an update begins a leg.
pub open spec fn starts_leg(
    runner: JsonView,
    spline: JsonView,
    guid: u64,
    id: IdentityView,
) -> bool {
    &&& runner.field("character_guid"@).unsigned() == Some(guid)
    &&& runner.field("observed_micros"@) == spline.field("start_micros"@)
    &&& runner.field("generation"@) == id.generation
}

/// Whether an update begins a leg together with its runner.
pub open spec fn same_transaction(
    update: JsonView,
    spline: JsonView,
    guid: u64,
    id: IdentityView,
) -> bool {
    exists|i: int|
        0 <= i < new_runners(update).len() && starts_leg(
            #[trigger] new_runners(update)[i],
            spline,
            guid,
            id,
        )
}

/// Whether a leg is begun by the runner that has it: it takes time, it starts in the runner's own
/// transaction, and it agrees with the runner on its start and place. What decides it first ends
/// the reading.
pub open spec fn begins(update: JsonView, spline: JsonView, guid: u64, id: IdentityView) -> Result<
    bool,
    Seq<char>,
> {
    match sats::unsigned_field(spline, "dur_ms"@) {
        Err(e) => Err(e),
        Ok(dur) => if dur == 0 || !same_transaction(update, spline, guid, id) {
            Ok(false)
        } else {
            match sats::unsigned_field(spline, "start_micros"@) {
                Err(e) => Err(e),
                Ok(start) => if id.started_micros.unsigned() != Some(start) {
                    Ok(false)
                } else {
                    match sats::unsigned_field(spline, "map_id"@) {
                        Err(e) => Err(e),
                        Ok(map) => if id.map_id.unsigned() != Some(map) {
                            Ok(false)
                        } else {
                            match sats::unsigned_field(spline, "instance_id"@) {
                                Err(e) => Err(e),
                                Ok(instance) => Ok(id.instance_id.unsigned() == Some(instance)),
                            }
                        },
                    }
                },
            }
        },
    }
}

/// The legs of a table.
pub open spec fn legs(m: Map<u64, Leg>) -> Map<u64, LegView> {
    m.map_values(|l: Leg| l@)
}

/// The owners of a table.
pub open spec fn owner_views(m: Map<u64, Option<Identity>>) -> Map<u64, Option<IdentityView>> {
    m.map_values(|o: Option<Identity>| identified(o))
}

/// The observation of movement.
pub struct Movement {
    expected: BTreeSet<u64>,
    creature_entries: BTreeSet<u32>,
    runners: BTreeMap<u64, Json>,
    entities: BTreeMap<u64, Json>,
    creatures: BTreeMap<u64, Json>,
    splines: BTreeMap<u64, Json>,
    active: BTreeMap<u64, Leg>,
    owners: BTreeMap<u64, Option<Identity>>,
    completed: Vec<Sample>,
    interrupted: u64,
}

impl View for Movement {
    type V = MovementView;

    closed spec fn view(&self) -> MovementView {
        MovementView {
            expected: self.expected@,
            entries: self.creature_entries@,
            runners: stream::rows(self.runners@),
            entities: entities_of(self.entities@, self.creatures@),
            splines: stream::rows(self.splines@),
            active: legs(self.active@),
            owners: owner_views(self.owners@),
            completed: self.completed@,
            interrupted: self.interrupted as int,
        }
    }
}

/// A leg that an update ended, with the bot that walked it.
pub struct Arrival {
    pub entity: Json,
    pub spline: Json,
}

/// The question that an ended leg raises: whether the bot that walked it stands at its end.
pub open spec fn question(m: MovementView, spline: JsonView) -> Option<(JsonView, JsonView)> {
    match sats::unsigned_field(spline, "guid"@) {
        Err(_) => None,
        Ok(guid) => if m.active.contains_key(guid) && m.entities.bots.contains_key(guid) {
            Some((m.entities.bots[guid], spline))
        } else {
            None
        },
    }
}

/// What a question asks about.
pub open spec fn asked(a: Option<Arrival>) -> Option<(JsonView, JsonView)> {
    match a {
        Some(q) => Some((q.entity@, q.spline@)),
        None => None,
    }
}

pub(crate) fn list_at(update: &Json, table: &str, key: &str) -> (v: Vec<Json>)
    ensures
        json::json_views(v@) == match update@.field(table@).field(key@).items() {
            Some(rows) => rows,
            None => Seq::empty(),
        },
{
    let changes: Json = sats::field(update, table);
    match changes.array_at(key) {
        Some(rows) => {
            let mut v: Vec<Json> = Vec::new();
            for i in 0..rows.len()
                invariant
                    v@.len() == i,
                    forall|j: int| 0 <= j < i ==> (#[trigger] v@[j])@ == rows@[j]@,
            {
                v.push(rows[i].clone());
            }
            assert(json::json_views(v@) =~= json::json_views(rows@));
            v
        },
        None => {
            let v: Vec<Json> = Vec::new();
            assert(json::json_views(v@) =~= Seq::<JsonView>::empty());
            v
        },
    }
}

fn pass_time_of(update: &Json) -> (now: Option<u64>)
    ensures
        now == pass_time(update@),
{
    let scheduler: Json = sats::field(update, SCHEDULER);
    match scheduler.array_at("inserts") {
        None => None,
        Some(rows) => if rows.len() == 0 {
            None
        } else {
            rows[0].u64_at("observed_micros")
        },
    }
}

fn due_of(spline: &Json) -> (r: Result<(u64, u64), String>)
    ensures
        sats::agrees(r, arrival_due(spline@)),
{
    let start: u64 = match sats::unsigned(spline, "start_micros") {
        Err(e) => return Err(e),
        Ok(n) => n,
    };
    let dur: u64 = match sats::unsigned(spline, "dur_ms") {
        Err(e) => return Err(e),
        Ok(n) => n,
    };
    let micros: u64 = if dur > u64::MAX / 1000 {
        u64::MAX
    } else {
        dur * 1000
    };
    match start.checked_add(micros) {
        None => Err("movement arrival time overflow".to_owned()),
        Some(due) => Ok((start, due)),
    }
}

fn in_partition(entity: &Json, spline: &Json) -> (r: Result<bool, String>)
    ensures
        sats::agrees(r, same_partition(entity@, spline@)),
{
    let a: u64 = match sats::unsigned(entity, "map_id") {
        Err(e) => return Err(e),
        Ok(n) => n,
    };
    let b: u64 = match sats::unsigned(spline, "map_id") {
        Err(e) => return Err(e),
        Ok(n) => n,
    };
    if a != b {
        return Ok(false);
    }
    let c: u64 = match sats::unsigned(entity, "instance_id") {
        Err(e) => return Err(e),
        Ok(n) => n,
    };
    let d: u64 = match sats::unsigned(spline, "instance_id") {
        Err(e) => return Err(e),
        Ok(n) => n,
    };
    Ok(c == d)
}

fn check_axis(entity: &Json, spline: &Json, at: &str, start: &str, end: &str) -> (fault: Option<
    String,
>)
    ensures
        told(fault) == axis_fault(entity@, spline@, at@, start@, end@),
{
    if let Err(e) = sats::coordinate(spline, end) {
        return Some(e);
    }
    if let Err(e) = sats::coordinate(entity, at) {
        return Some(e);
    }
    if let Err(e) = sats::coordinate(spline, start) {
        return Some(e);
    }
    None
}

fn reached_endpoint(entity: &Json, spline: &Json, near: bool) -> (r: Result<bool, String>)
    ensures
        sats::agrees(r, at_endpoint(entity@, spline@, near)),
{
    let same: bool = match in_partition(entity, spline) {
        Err(e) => return Err(e),
        Ok(same) => same,
    };
    if let Some(e) = check_axis(entity, spline, "x", "sx", "dx") {
        return Err(e);
    }
    if let Some(e) = check_axis(entity, spline, "y", "sy", "dy") {
        return Err(e);
    }
    if let Some(e) = check_axis(entity, spline, "z", "sz", "dz") {
        return Err(e);
    }
    Ok(same && near)
}

fn begins_leg(new: &Vec<Json>, spline: &Json, guid: u64, id: &Identity, update: Ghost<JsonView>) -> (r:
    Result<bool, String>)
    requires
        json::json_views(new@) == new_runners(update@),
    ensures
        sats::agrees(r, begins(update@, spline@, guid, id@)),
{
    let dur: u64 = match sats::unsigned(spline, "dur_ms") {
        Err(e) => return Err(e),
        Ok(n) => n,
    };
    let at: Json = sats::field(spline, "start_micros");
    let mut together = false;
    let mut i: usize = 0;
    while i < new.len() && !together
        invariant
            i <= new@.len(),
            json::json_views(new@) == new_runners(update@),
            at@ == spline@.field("start_micros"@),
            together ==> same_transaction(update@, spline@, guid, id@),
            !together ==> forall|j: int|
                0 <= j < i ==> !starts_leg(
                    #[trigger] new_runners(update@)[j],
                    spline@,
                    guid,
                    id@,
                ),
        decreases new.len() - i,
    {
        let row = &new[i];
        assert(new_runners(update@)[i as int] == row@);
        let whose = row.u64_at("character_guid");
        let mine = match whose {
            Some(g) => g == guid,
            None => false,
        };
        let observed: Json = sats::field(row, "observed_micros");
        let generation: Json = sats::field(row, "generation");
        if mine && observed.same(&at) && generation.same(&id.generation) {
            together = true;
        }
        i = i + 1;
    }
    if dur == 0 || !together {
        return Ok(false);
    }
    let start: u64 = match sats::unsigned(spline, "start_micros") {
        Err(e) => return Err(e),
        Ok(n) => n,
    };
    let agrees = match id.started_micros.as_u64() {
        Some(n) => n == start,
        None => false,
    };
    if !agrees {
        return Ok(false);
    }
    let map: u64 = match sats::unsigned(spline, "map_id") {
        Err(e) => return Err(e),
        Ok(n) => n,
    };
    let agrees = match id.map_id.as_u64() {
        Some(n) => n == map,
        None => false,
    };
    if !agrees {
        return Ok(false);
    }
    let instance: u64 = match sats::unsigned(spline, "instance_id") {
        Err(e) => return Err(e),
        Ok(n) => n,
    };
    let agrees = match id.instance_id.as_u64() {
        Some(n) => n == instance,
        None => false,
    };
    Ok(agrees)
}

proof fn lemma_owners_stop(runners: Map<u64, JsonView>, guids: Seq<u64>, n: int)
    requires
        0 <= n <= guids.len(),
    ensures
        owners_of(runners, guids.take(n)) is Err ==> owners_of(runners, guids) == owners_of(
            runners,
            guids.take(n),
        ),
    decreases guids.len() - n,
{
    if n == guids.len() {
        assert(guids.take(n) =~= guids);
    } else {
        lemma_owners_stop(runners, guids, n + 1);
        assert(guids.take(n + 1).drop_last() =~= guids.take(n));
    }
}

proof fn lemma_ended_stop(
    m: MovementView,
    now: Option<u64>,
    splines: Seq<JsonView>,
    near: Seq<bool>,
    n: int,
)
    requires
        0 <= n <= splines.len(),
    ensures
        m.all_ended(now, splines.take(n), near).1 is Some ==> m.all_ended(now, splines, near)
            == m.all_ended(now, splines.take(n), near),
    decreases splines.len() - n,
{
    if n == splines.len() {
        assert(splines.take(n) =~= splines);
    } else {
        lemma_ended_stop(m, now, splines, near, n + 1);
        assert(splines.take(n + 1).drop_last() =~= splines.take(n));
    }
}

proof fn lemma_abandoned_stop(m: MovementView, guids: Seq<u64>, n: int)
    requires
        0 <= n <= guids.len(),
    ensures
        m.abandoned(guids.take(n)) is Err ==> m.abandoned(guids) == m.abandoned(guids.take(n)),
    decreases guids.len() - n,
{
    if n == guids.len() {
        assert(guids.take(n) =~= guids);
    } else {
        lemma_abandoned_stop(m, guids, n + 1);
        assert(guids.take(n + 1).drop_last() =~= guids.take(n));
    }
}

proof fn lemma_begun_stop(m: MovementView, update: JsonView, splines: Seq<JsonView>, n: int)
    requires
        0 <= n <= splines.len(),
    ensures
        m.all_begun(update, splines.take(n)).1 is Some ==> m.all_begun(update, splines)
            == m.all_begun(update, splines.take(n)),
    decreases splines.len() - n,
{
    if n == splines.len() {
        assert(splines.take(n) =~= splines);
    } else {
        lemma_begun_stop(m, update, splines, n + 1);
        assert(splines.take(n + 1).drop_last() =~= splines.take(n));
    }
}

fn owners_now(runners: &BTreeMap<u64, Json>, guids: &Vec<u64>) -> (r: Result<
    BTreeMap<u64, Option<Identity>>,
    String,
>)
    ensures
        match (r, owners_of(stream::rows(runners@), guids@)) {
            (Ok(m), Ok(w)) => owner_views(m@) == w,
            (Err(said), Err(words)) => said@ == words,
            _ => false,
        },
{
    let mut m: BTreeMap<u64, Option<Identity>> = BTreeMap::new();
    let ghost rs = stream::rows(runners@);
    assert(owner_views(m@) =~= Map::empty());
    assert(guids@.take(0) =~= Seq::<u64>::empty());
    for i in 0..guids.len()
        invariant
            rs == stream::rows(runners@),
            owners_of(rs, guids@.take(i as int)) == Ok::<
                Map<u64, Option<IdentityView>>,
                Seq<char>,
            >(owner_views(m@)),
    {
        let guid: u64 = guids[i];
        proof {
            assert(guids@.take(i + 1).drop_last() =~= guids@.take(i as int));
            lemma_owners_stop(rs, guids@, i + 1);
        }
        let ghost before = owner_views(m@);
        match owner(runners, guid) {
            Err(e) => {
                return Err(e);
            },
            Ok(o) => {
                let ghost view = identified(o);
                let _ = m.insert(guid, o);
                assert(owner_views(m@) =~= before.insert(guid, view));
            },
        }
    }
    assert(guids@.take(guids@.len() as int) =~= guids@);
    Ok(m)
}

impl Movement {
    /// An observation of those bots and of the creatures of those entries, before any update.
    pub fn new(expected: BTreeSet<u64>, creature_entries: BTreeSet<u32>) -> (m: Movement)
        ensures
            m@ == (MovementView {
                expected: expected@,
                entries: creature_entries@,
                runners: Map::empty(),
                entities: Entities { bots: Map::empty(), creatures: Map::empty() },
                splines: Map::empty(),
                active: Map::empty(),
                owners: Map::empty(),
                completed: Seq::empty(),
                interrupted: 0,
            }),
    {
        let m = Movement {
            expected,
            creature_entries,
            runners: BTreeMap::new(),
            entities: BTreeMap::new(),
            creatures: BTreeMap::new(),
            splines: BTreeMap::new(),
            active: BTreeMap::new(),
            owners: BTreeMap::new(),
            completed: Vec::new(),
            interrupted: 0,
        };
        assert(m@.runners =~= Map::empty());
        assert(m@.entities.bots =~= Map::empty());
        assert(m@.entities.creatures =~= Map::empty());
        assert(m@.splines =~= Map::empty());
        assert(m@.active =~= Map::empty());
        assert(m@.owners =~= Map::empty());
        m
    }

    /// Takes in the rows of an update. Legs are followed only inside the measured window; what an
    /// update of that window does to them is settled afterwards.
    pub fn observe(&mut self, update: &Json, measured: bool) -> (r: Result<(), String>)
        ensures
            (final(self)@, told_err(r)) == old(self)@.observed(update@, measured),
    {
        let guids: Vec<u64> = order::keys_of(&self.active);
        assert(legs(self.active@).dom() =~= self.active@.dom());
        match owners_now(&self.runners, &guids) {
            Err(e) => {
                return Err(e);
            },
            Ok(owners) => {
                self.owners = owners;
            },
        }
        if let Some(e) = replace(
            &mut self.runners,
            update,
            RUNNER,
            "character_guid",
            &self.expected,
        ) {
            return Err(e);
        }
        if let Some(e) = replace_entities(
            &mut self.entities,
            &mut self.creatures,
            update,
            &self.expected,
            &self.creature_entries,
        ) {
            return Err(e);
        }
        if let Some(e) = replace(&mut self.splines, update, SPLINE, "guid", &self.expected) {
            return Err(e);
        }
        if !measured {
            self.active = BTreeMap::new();
            assert(self@.active =~= Map::empty());
        }
        Ok(())
    }

    /// The legs that an update, whose rows were taken in, ended while they were followed, each
    /// with the bot that walked it: where the bot stands, the caller has to say.
    pub fn arrivals(&self, update: &Json) -> (v: Vec<Option<Arrival>>)
        ensures
            v@.len() == ended_legs(update@).len(),
            forall|i: int|
                0 <= i < v@.len() ==> asked(#[trigger] v@[i]) == question(
                    self@,
                    ended_legs(update@)[i],
                ),
    {
        let splines: Vec<Json> = list_at(update, SPLINE, "deletes");
        let mut v: Vec<Option<Arrival>> = Vec::new();
        for i in 0..splines.len()
            invariant
                json::json_views(splines@) == ended_legs(update@),
                v@.len() == i,
                forall|j: int|
                    0 <= j < i ==> asked(#[trigger] v@[j]) == question(
                        self@,
                        ended_legs(update@)[j],
                    ),
        {
            let spline = &splines[i];
            assert(ended_legs(update@)[i as int] == spline@);
            let mut a: Option<Arrival> = None;
            if let Ok(guid) = sats::unsigned(spline, "guid") {
                if self.active.contains_key(&guid) {
                    if let Some(entity) = self.entities.get(&guid) {
                        a = Some(Arrival { entity: entity.clone(), spline: spline.clone() });
                    }
                }
            }
            v.push(a);
        }
        v
    }

    fn end_leg(&mut self, now: Option<u64>, spline: &Json, near: bool) -> (r: Result<(), String>)
        requires
            old(self)@.interrupted + old(self)@.active.len() <= u64::MAX,
        ensures
            (final(self)@, told_err(r)) == old(self)@.one_ended(now, spline@, near),
            final(self)@.interrupted + final(self)@.active.len() <= old(self)@.interrupted + old(
                self,
            )@.active.len(),
    {
        let ghost start = self@;
        assert(legs(self.active@).dom() =~= self.active@.dom());
        let guid: u64 = match sats::unsigned(spline, "guid") {
            Err(e) => return Err(e),
            Ok(guid) => guid,
        };
        let leg = match self.active.remove(&guid) {
            None => {
                assert(self@.active =~= start.active);
                return Ok(());
            },
            Some(leg) => leg,
        };
        assert(start.active[guid] == leg@);
        assert(self@.active =~= start.active.remove(guid));
        let (begun, due) = match due_of(spline) {
            Err(e) => return Err(e),
            Ok(times) => times,
        };
        let before = match self.owners.get(&guid) {
            Some(Some(id)) => id.same(&leg.owner),
            _ => false,
        };
        let after = match self.runners.get(&guid) {
            Some(row) => {
                let generation: Json = sats::field(row, "generation");
                generation.same(&leg.owner.generation)
            },
            None => false,
        };
        let arrived = match self.entities.get(&guid) {
            None => false,
            Some(entity) => match reached_endpoint(entity, spline, near) {
                Err(e) => return Err(e),
                Ok(arrived) => arrived,
            },
        };
        let in_time = match now {
            Some(n) => n >= due,
            None => false,
        };
        if leg.spline.same(spline) && before && after && arrived && in_time {
            let value: u64 = match now {
                Some(n) => n - begun,
                None => 0,
            };
            self.completed.push(Sample { value, guid });
        } else {
            self.interrupted = self.interrupted + 1;
        }
        Ok(())
    }

    fn end_legs(&mut self, update: &Json, near: &Vec<bool>) -> (r: Result<(), String>)
        requires
            near@.len() == ended_legs(update@).len(),
            old(self)@.interrupted + old(self)@.active.len() <= u64::MAX,
        ensures
            (final(self)@, told_err(r)) == old(self)@.all_ended(
                pass_time(update@),
                ended_legs(update@),
                near@,
            ),
            final(self)@.interrupted + final(self)@.active.len() <= old(self)@.interrupted + old(
                self,
            )@.active.len(),
    {
        let ghost start = self@;
        let now = pass_time_of(update);
        let splines: Vec<Json> = list_at(update, SPLINE, "deletes");
        let ghost ss = ended_legs(update@);
        assert(ss.take(0) =~= Seq::<JsonView>::empty());
        for i in 0..splines.len()
            invariant
                json::json_views(splines@) == ss,
                near@.len() == ss.len(),
                start == old(self)@,
                start.interrupted + start.active.len() <= u64::MAX,
                self@.interrupted + self@.active.len() <= start.interrupted + start.active.len(),
                start.all_ended(now, ss.take(i as int), near@) == (self@, None::<Seq<char>>),
                now == pass_time(update@),
                ss == ended_legs(update@),
        {
            proof {
                assert(ss.take(i + 1).drop_last() =~= ss.take(i as int));
                assert(ss.take(i + 1).last() == splines@[i as int]@);
                lemma_ended_stop(start, now, ss, near@, i + 1);
            }
            if let Err(e) = self.end_leg(now, &splines[i], near[i]) {
                return Err(e);
            }
        }
        assert(ss.take(ss.len() as int) =~= ss);
        Ok(())
    }

    fn find_abandoned(&self) -> (r: Result<Vec<u64>, String>)
        ensures
            match (r, self@.abandoned(order::ascending(self@.active.dom()))) {
                (Ok(v), Ok(w)) => v@ == w,
                (Err(said), Err(words)) => said@ == words,
                _ => false,
            },
            match r {
                Ok(v) => v@.no_duplicates() && forall|i: int|
                    0 <= i < v@.len() ==> self@.active.contains_key(#[trigger] v@[i]),
                Err(_) => true,
            },
    {
        let guids: Vec<u64> = order::keys_of(&self.active);
        assert(self@.active.dom() =~= self.active@.dom());
        let mut list: Vec<u64> = Vec::new();
        assert(guids@.take(0) =~= Seq::<u64>::empty());
        for i in 0..guids.len()
            invariant
                order::lists(guids@, self.active@.dom()),
                self@.active.dom() == self.active@.dom(),
                guids@ == order::ascending(self@.active.dom()),
                self@.abandoned(guids@.take(i as int)) == Ok::<Seq<u64>, Seq<char>>(list@),
                list@.no_duplicates(),
                forall|k: int|
                    0 <= k < list@.len() ==> self@.active.contains_key(#[trigger] list@[k]),
                forall|k: int, l: int|
                    0 <= k < list@.len() && i <= l < guids@.len() ==> (#[trigger] list@[k])
                        < #[trigger] guids@[l],
        {
            let guid: u64 = guids[i];
            proof {
                assert(guids@.contains(guid));
                assert(guids@.take(i + 1).drop_last() =~= guids@.take(i as int));
                lemma_abandoned_stop(self@, guids@, i + 1);
            }
            match owner(&self.runners, guid) {
                Err(e) => {
                    return Err(e);
                },
                Ok(o) => {
                    let kept = match (&o, self.active.get(&guid)) {
                        (Some(id), Some(leg)) => id.same(&leg.owner),
                        _ => false,
                    };
                    if !kept {
                        list.push(guid);
                    }
                },
            }
        }
        assert(guids@.take(guids@.len() as int) =~= guids@);
        Ok(list)
    }

    fn give_up(&mut self, guids: &Vec<u64>)
        requires
            guids@.no_duplicates(),
            forall|i: int|
                0 <= i < guids@.len() ==> old(self)@.active.contains_key(#[trigger] guids@[i]),
            old(self)@.interrupted + old(self)@.active.len() <= u64::MAX,
        ensures
            final(self)@ == old(self)@.given_up(guids@),
    {
        let ghost start = self@;
        assert(guids@.take(0) =~= Seq::<u64>::empty());
        for i in 0..guids.len()
            invariant
                guids@.no_duplicates(),
                forall|k: int|
                    i <= k < guids@.len() ==> self@.active.contains_key(#[trigger] guids@[k]),
                self@.interrupted + self@.active.len() <= u64::MAX,
                self@ == start.given_up(guids@.take(i as int)),
        {
            let ghost before = self@;
            let guid: u64 = guids[i];
            assert(legs(self.active@).dom() =~= self.active@.dom());
            let _ = self.active.remove(&guid);
            assert(self@.active =~= before.active.remove(guid));
            assert(before.active.dom().contains(guid));
            assert(self@.active.dom() =~= before.active.dom().remove(guid));
            self.interrupted = self.interrupted + 1;
            assert(guids@.take(i + 1).drop_last() =~= guids@.take(i as int));
        }
        assert(guids@.take(guids@.len() as int) =~= guids@);
    }

    fn begin_leg(&mut self, update: &Json, new: &Vec<Json>, spline: &Json) -> (r: Result<
        (),
        String,
    >)
        requires
            json::json_views(new@) == new_runners(update@),
        ensures
            (final(self)@, told_err(r)) == old(self)@.one_begun(update@, spline@),
    {
        let ghost start = self@;
        let guid: u64 = match sats::unsigned(spline, "guid") {
            Err(e) => return Err(e),
            Ok(guid) => guid,
        };
        let id: Identity = match owner(&self.runners, guid) {
            Err(e) => return Err(e),
            Ok(None) => return Ok(()),
            Ok(Some(id)) => id,
        };
        match begins_leg(new, spline, guid, &id, Ghost(update@)) {
            Err(e) => Err(e),
            Ok(false) => Ok(()),
            Ok(true) => {
                let leg = Leg { spline: spline.clone(), owner: id };
                let ghost view = leg@;
                let _ = self.active.insert(guid, leg);
                assert(self@.active =~= start.active.insert(guid, view));
                Ok(())
            },
        }
    }

    fn begin_legs(&mut self, update: &Json) -> (r: Result<(), String>)
        ensures
            (final(self)@, told_err(r)) == old(self)@.all_begun(update@, begun_legs(update@)),
    {
        let ghost start = self@;
        let splines: Vec<Json> = list_at(update, SPLINE, "inserts");
        let new: Vec<Json> = list_at(update, RUNNER, "inserts");
        let ghost ss = begun_legs(update@);
        assert(ss.take(0) =~= Seq::<JsonView>::empty());
        for i in 0..splines.len()
            invariant
                json::json_views(splines@) == ss,
                json::json_views(new@) == new_runners(update@),
                start == old(self)@,
                ss == begun_legs(update@),
                start.all_begun(update@, ss.take(i as int)) == (self@, None::<Seq<char>>),
        {
            proof {
                assert(ss.take(i + 1).drop_last() =~= ss.take(i as int));
                assert(ss.take(i + 1).last() == splines@[i as int]@);
                lemma_begun_stop(start, update@, ss, i + 1);
            }
            if let Err(e) = self.begin_leg(update, &new, &splines[i]) {
                return Err(e);
            }
        }
        assert(ss.take(ss.len() as int) =~= ss);
        Ok(())
    }

    /// Settles what an update did to the legs that are followed. `near` says of each leg that the
    /// update ended whether the bot that walked it stands at its end.
    pub fn settle(&mut self, update: &Json, near: &Vec<bool>) -> (r: Result<(), String>)
        requires
            near@.len() == ended_legs(update@).len(),
            old(self)@.interrupted + old(self)@.active.len() <= u64::MAX,
        ensures
            (final(self)@, told_err(r)) == old(self)@.settled(update@, near@),
    {
        if let Err(e) = self.end_legs(update, near) {
            return Err(e);
        }
        match self.find_abandoned() {
            Err(e) => Err(e),
            Ok(guids) => {
                self.give_up(&guids);
                self.begin_legs(update)
            },
        }
    }

    /// Whether every staged bot's entity has been observed.
    pub fn ready(&self) -> (yes: bool)
        ensures
            yes == (self@.entities.bots.dom() == self@.expected),
    {
        assert(self@.entities.bots.dom() =~= self.entities@.dom());
        stream::same_keys(&self.entities, &self.expected)
    }
}

/// The refusal of a result, if it is one.
pub open spec fn told_err(r: Result<(), String>) -> Option<Seq<char>> {
    match r {
        Ok(_) => None,
        Err(e) => Some(e@),
    }
}

// ------------------------------------------------------------------------------------------
//  What the accounting keeps
// ------------------------------------------------------------------------------------------

impl MovementView {
    /// Every leg that was ever followed: completed, interrupted or still being walked.
    pub open spec fn accounted(self) -> int {
        self.completed.len() + self.interrupted + self.active.len()
    }
}

/// A leg that ends is counted once, as completed or as interrupted: nothing is lost and nothing
/// is counted twice.
pub proof fn an_ended_leg_counts_once(
    m: MovementView,
    now: Option<u64>,
    spline: JsonView,
    near: bool,
)
    requires
        m.active.dom().finite(),
        m.one_ended(now, spline, near).1 is None,
    ensures
        m.one_ended(now, spline, near).0.accounted() == m.accounted(),
        m.one_ended(now, spline, near).0.active.dom().finite(),
{
}

/// Giving legs up counts each of them as interrupted, once.
pub proof fn abandoned_legs_count_once(m: MovementView, guids: Seq<u64>)
    requires
        m.active.dom().finite(),
        guids.no_duplicates(),
        forall|i: int| 0 <= i < guids.len() ==> m.active.contains_key(#[trigger] guids[i]),
    ensures
        m.given_up(guids).accounted() == m.accounted(),
        m.given_up(guids).completed == m.completed,
        m.given_up(guids).active.dom().finite(),
        forall|g: u64|
            #[trigger] m.given_up(guids).active.contains_key(g) <==> m.active.contains_key(g)
                && !guids.contains(g),
    decreases guids.len(),
{
    if guids.len() > 0 {
        let rest = guids.drop_last();
        let last = guids.last();
        assert forall|i: int| 0 <= i < rest.len() implies m.active.contains_key(
            #[trigger] rest[i],
        ) by {
            assert(rest[i] == guids[i]);
        }
        abandoned_legs_count_once(m, rest);
        assert(!rest.contains(last));
        assert(m.active.contains_key(guids[guids.len() - 1]));
        assert forall|g: u64|
            #[trigger] m.given_up(guids).active.contains_key(g) <==> m.active.contains_key(g)
                && !guids.contains(g) by {
            assert(m.given_up(rest).active.contains_key(g) <==> m.active.contains_key(g)
                && !rest.contains(g));
            if guids.contains(g) && g != last {
                let i = choose|i: int| 0 <= i < guids.len() && guids[i] == g;
                assert(rest[i] == g);
            }
            if rest.contains(g) {
                let i = choose|i: int| 0 <= i < rest.len() && rest[i] == g;
                assert(guids[i] == g);
            }
        }
    }
}

/// A completed leg took at least the time that it was to take, and was ended by the bot's own
/// runner at the leg's own end.
pub proof fn a_completed_leg_was_walked(
    m: MovementView,
    now: Option<u64>,
    spline: JsonView,
    near: bool,
)
    requires
        m.one_ended(now, spline, near).0.completed.len() > m.completed.len(),
    ensures
        ({
            let (after, refused) = m.one_ended(now, spline, near);
            let sample = after.completed.last();
            let leg = m.active[sample.guid];
            &&& refused is None
            &&& near
            &&& after.completed == m.completed.push(sample)
            &&& m.active.contains_key(sample.guid)
            &&& leg.spline == spline
            &&& m.kept_owner(sample.guid, leg)
            &&& arrival_due(spline) is Ok
            &&& sample.value >= arrival_due(spline)->Ok_0.1 - arrival_due(spline)->Ok_0.0
        }),
{
    let (after, refused) = m.one_ended(now, spline, near);
    let guid = sats::unsigned_field(spline, "guid"@)->Ok_0;
    let times = arrival_due(spline)->Ok_0;
    assert(after.completed.last() == Sample { value: (now->0 - times.0) as u64, guid });
}

/// Outside the measured window no leg is followed, so that none that began there is ever counted.
pub proof fn warmup_follows_nothing(m: MovementView, update: JsonView)
    requires
        m.observed(update, false).1 is None,
    ensures
        m.observed(update, false).0.active == Map::<u64, LegView>::empty(),
        m.observed(update, false).0.completed == m.completed,
        m.observed(update, false).0.interrupted == m.interrupted,
{
}

/// Declared creatures stand outside the accounting of bots: what is settled does not depend on
/// them.
pub proof fn creatures_do_not_count(
    m: MovementView,
    creatures: Map<u64, JsonView>,
    now: Option<u64>,
    spline: JsonView,
    near: bool,
)
    ensures
        ({
            let other = MovementView {
                entities: Entities { creatures, ..m.entities },
                ..m
            };
            let (a, refused_a) = m.one_ended(now, spline, near);
            let (b, refused_b) = other.one_ended(now, spline, near);
            &&& a.completed == b.completed
            &&& a.interrupted == b.interrupted
            &&& a.active == b.active
            &&& refused_a == refused_b
        }),
{
}

/// What counts as a completed leg.
pub const LEG_SCOPE: &'static str =
    "Core spline start to tick-observed deletion at its reached endpoint; exact runner generation, partition, candidate and start identity; both boundaries inside the measured window";

/// What was measured of movement.
pub struct MovementReport {
    pub completed_leg_micros: Distribution,
    pub interrupted_observed_legs: u64,
    pub unfinished_observed_legs: usize,
    pub retained_declared_creatures: usize,
    pub declared_creature_entries: Vec<u32>,
}

/// Some entries, each once, in ascending order.
pub open spec fn lists_entries(v: Seq<u32>, entries: Set<u32>) -> bool {
    &&& forall|i: int, j: int| 0 <= i < j < v.len() ==> v[i] < v[j]
    &&& forall|e: u32| #[trigger] v.contains(e) <==> entries.contains(e)
}

fn listed_entries(entries: &BTreeSet<u32>) -> (v: Vec<u32>)
    ensures
        lists_entries(v@, entries@),
{
    let mut v: Vec<u32> = Vec::new();
    let walk = entries.iter();
    let ghost all = vstd::std_specs::iter::IteratorSpec::remaining(&walk);
    for entry in it: walk
        invariant
            it.seq() == all,
            v@.len() == it.index(),
            forall|k: int| 0 <= k < v@.len() ==> v@[k] == *it.seq()[k],
    {
        v.push(*entry);
    }
    let r: Vec<u32> = sort::sort(&v);
    proof {
        assert(v@ =~= all.unref());
        assert(v@.no_duplicates()) by {
            assert forall|i: int, j: int|
                0 <= i < v@.len() && 0 <= j < v@.len() && i != j implies v@[i] != v@[j] by {
                assert(all[i] != all[j]);
            }
        }
        sort::lemma_sorted_ensures(v@);
        let leq = |a: u32, b: u32| a.leq(b);
        v@.lemma_multiset_has_no_duplicates();
        r@.lemma_multiset_has_no_duplicates_conv();
        assert forall|i: int, j: int| 0 <= i < j < r@.len() implies r@[i] < r@[j] by {
            assert(leq(r@[i], r@[j]));
        }
        assert forall|e: u32| #[trigger] r@.contains(e) <==> entries@.contains(e) by {
            assert(all.unref().to_set().contains(e) <==> v@.contains(e));
        }
    }
    r
}

impl Movement {
    /// What was measured of movement.
    pub fn report(&self) -> (r: MovementReport)
        requires
            spread::total(self@.completed) <= u64::MAX,
        ensures
            r.completed_leg_micros == spread::spread(self@.completed),
            r.interrupted_observed_legs == self@.interrupted,
            r.unfinished_observed_legs == self@.active.len(),
            r.retained_declared_creatures == self@.entities.creatures.len(),
            lists_entries(r.declared_creature_entries@, self@.entries),
    {
        assert(self@.active.dom() =~= self.active@.dom());
        assert(self@.entities.creatures.dom() =~= self.creatures@.dom());
        MovementReport {
            completed_leg_micros: spread::distribution(&self.completed),
            interrupted_observed_legs: self.interrupted,
            unfinished_observed_legs: self.active.len(),
            retained_declared_creatures: self.creatures.len(),
            declared_creature_entries: listed_entries(&self.creature_entries),
        }
    }
}

// ------------------------------------------------------------------------------------------
//  What the rows of an update do
// ------------------------------------------------------------------------------------------

/// A row has a key.
pub open spec fn keyed(row: JsonView, key: Seq<char>, guid: u64) -> bool {
    row.field(key) == JsonView::Unsigned(guid)
}

/// Some row has a key.
pub open spec fn some_keyed(rows: Seq<JsonView>, key: Seq<char>, guid: u64) -> bool {
    exists|i: int| 0 <= i < rows.len() && keyed(#[trigger] rows[i], key, guid)
}

/// The rows stand in a table, each under a key of its own.
pub open spec fn stand_in(table: Map<u64, JsonView>, rows: Seq<JsonView>, key: Seq<char>) -> bool {
    &&& forall|i: int|
        0 <= i < rows.len() ==> (#[trigger] rows[i]).field(key) is Unsigned && table.contains_key(
            rows[i].field(key)->Unsigned_0,
        ) && table[rows[i].field(key)->Unsigned_0] == rows[i]
    &&& distinct_keys(rows, key)
}

/// No two rows have the same key.
pub open spec fn distinct_keys(rows: Seq<JsonView>, key: Seq<char>) -> bool {
    forall|i: int, j: int|
        0 <= i < j < rows.len() ==> (#[trigger] rows[i]).field(key) != (#[trigger] rows[j]).field(
            key,
        )
}

/// The rows have a place in a table: each under a staged key that is free, and of its own.
pub open spec fn have_place(
    table: Map<u64, JsonView>,
    rows: Seq<JsonView>,
    key: Seq<char>,
    expected: Set<u64>,
) -> bool {
    &&& forall|i: int|
        0 <= i < rows.len() ==> (#[trigger] rows[i]).field(key) is Unsigned && !table.contains_key(
            rows[i].field(key)->Unsigned_0,
        ) && expected.contains(rows[i].field(key)->Unsigned_0)
    &&& distinct_keys(rows, key)
}

/// Deletions are taken in exactly where every deleted row is the one that was observed, each once;
/// then the others stay as they were.
pub proof fn deletions_take_what_was_observed(
    rows: Map<u64, JsonView>,
    deletes: Seq<JsonView>,
    table: Seq<char>,
    key: Seq<char>,
)
    ensures
        deleted(rows, deletes, table, key).1 is None <==> stand_in(rows, deletes, key),
        deleted(rows, deletes, table, key).1 is None ==> forall|g: u64|
            (#[trigger] deleted(rows, deletes, table, key).0.contains_key(g) <==> rows.contains_key(g)
                && !some_keyed(deletes, key, g)) && (deleted(rows, deletes, table, key).0.contains_key(
                g,
            ) ==> deleted(rows, deletes, table, key).0[g] == rows[g]),
    decreases deletes.len(),
{
    if deletes.len() > 0 {
        let rest = deletes.drop_last();
        let last = deletes.last();
        deletions_take_what_was_observed(rows, rest, table, key);
        let (t, refused) = deleted(rows, rest, table, key);
        assert(deletes[deletes.len() - 1] == last);
        assert forall|i: int| 0 <= i < rest.len() implies rest[i] == deletes[i] by {}
        if stand_in(rows, deletes, key) {
            assert(stand_in(rows, rest, key)) by {
                assert forall|i: int, j: int| 0 <= i < j < rest.len() implies (#[trigger] rest[i]).field(
                    key,
                ) != (#[trigger] rest[j]).field(key) by {
                    assert(deletes[i].field(key) != deletes[j].field(key));
                }
            }
            let g = last.field(key)->Unsigned_0;
            if some_keyed(rest, key, g) {
                let i = choose|i: int| 0 <= i < rest.len() && keyed(#[trigger] rest[i], key, g);
                assert(deletes[i].field(key) != deletes[deletes.len() - 1].field(key));
            }
            assert(t.contains_key(g));
        }
        if deleted(rows, deletes, table, key).1 is None {
            let g = last.field(key)->Unsigned_0;
            assert(t.contains_key(g));
            assert forall|i: int, j: int| 0 <= i < j < deletes.len() implies (
            #[trigger] deletes[i]).field(key) != (#[trigger] deletes[j]).field(key) by {
                if j < rest.len() {
                    assert(rest[i].field(key) != rest[j].field(key));
                } else {
                    assert(keyed(rest[i], key, rest[i].field(key)->Unsigned_0));
                }
            }
            assert forall|h: u64|
                (#[trigger] t.remove(g).contains_key(h) <==> rows.contains_key(h) && !some_keyed(
                    deletes,
                    key,
                    h,
                )) && (t.remove(g).contains_key(h) ==> t.remove(g)[h] == rows[h]) by {
                assert(t.contains_key(h) <==> rows.contains_key(h) && !some_keyed(rest, key, h));
                if some_keyed(rest, key, h) {
                    let i = choose|i: int| 0 <= i < rest.len() && keyed(#[trigger] rest[i], key, h);
                    assert(keyed(deletes[i], key, h));
                }
                if some_keyed(deletes, key, h) {
                    let i = choose|i: int|
                        0 <= i < deletes.len() && keyed(#[trigger] deletes[i], key, h);
                    if i < rest.len() {
                        assert(keyed(rest[i], key, h));
                    }
                }
                if h == g {
                    assert(keyed(deletes[deletes.len() - 1], key, h));
                }
            }
        }
    }
}

/// Insertions are taken in exactly where every row has a staged key of its own that is free; then
/// each row stands under its key, and the others stay as they were.
pub proof fn insertions_take_free_places(
    rows: Map<u64, JsonView>,
    inserts: Seq<JsonView>,
    key: Seq<char>,
    expected: Set<u64>,
)
    ensures
        inserted(rows, inserts, key, expected).1 is None <==> have_place(rows, inserts, key, expected),
        inserted(rows, inserts, key, expected).1 is None ==> forall|g: u64|
            (#[trigger] inserted(rows, inserts, key, expected).0.contains_key(g) <==> rows.contains_key(
                g,
            ) || some_keyed(inserts, key, g)) && (rows.contains_key(g) ==> inserted(
                rows,
                inserts,
                key,
                expected,
            ).0[g] == rows[g]),
        inserted(rows, inserts, key, expected).1 is None ==> forall|i: int|
            0 <= i < inserts.len() ==> inserted(rows, inserts, key, expected).0[(
            #[trigger] inserts[i]).field(key)->Unsigned_0] == inserts[i],
    decreases inserts.len(),
{
    if inserts.len() > 0 {
        let rest = inserts.drop_last();
        let last = inserts.last();
        insertions_take_free_places(rows, rest, key, expected);
        let (t, refused) = inserted(rows, rest, key, expected);
        assert(inserts[inserts.len() - 1] == last);
        assert forall|i: int| 0 <= i < rest.len() implies rest[i] == inserts[i] by {}
        if have_place(rows, inserts, key, expected) {
            assert(have_place(rows, rest, key, expected)) by {
                assert forall|i: int, j: int| 0 <= i < j < rest.len() implies (#[trigger] rest[i]).field(
                    key,
                ) != (#[trigger] rest[j]).field(key) by {
                    assert(inserts[i].field(key) != inserts[j].field(key));
                }
            }
            let g = last.field(key)->Unsigned_0;
            if some_keyed(rest, key, g) {
                let i = choose|i: int| 0 <= i < rest.len() && keyed(#[trigger] rest[i], key, g);
                assert(inserts[i].field(key) != inserts[inserts.len() - 1].field(key));
            }
            assert(!t.contains_key(g));
        }
        if inserted(rows, inserts, key, expected).1 is None {
            let g = last.field(key)->Unsigned_0;
            assert(!t.contains_key(g));
            assert forall|i: int, j: int| 0 <= i < j < inserts.len() implies (
            #[trigger] inserts[i]).field(key) != (#[trigger] inserts[j]).field(key) by {
                if j < rest.len() {
                    assert(rest[i].field(key) != rest[j].field(key));
                } else {
                    assert(keyed(rest[i], key, rest[i].field(key)->Unsigned_0));
                    assert(t.contains_key(rest[i].field(key)->Unsigned_0));
                }
            }
            assert forall|h: u64|
                (#[trigger] t.insert(g, last).contains_key(h) <==> rows.contains_key(h) || some_keyed(
                    inserts,
                    key,
                    h,
                )) && (rows.contains_key(h) ==> t.insert(g, last)[h] == rows[h]) by {
                assert(t.contains_key(h) <==> rows.contains_key(h) || some_keyed(rest, key, h));
                if some_keyed(rest, key, h) {
                    let i = choose|i: int| 0 <= i < rest.len() && keyed(#[trigger] rest[i], key, h);
                    assert(keyed(inserts[i], key, h));
                }
                if some_keyed(inserts, key, h) {
                    let i = choose|i: int|
                        0 <= i < inserts.len() && keyed(#[trigger] inserts[i], key, h);
                    if i < rest.len() {
                        assert(keyed(rest[i], key, h));
                    }
                }
                if h == g {
                    assert(keyed(inserts[inserts.len() - 1], key, h));
                }
            }
            assert forall|i: int| 0 <= i < inserts.len() implies t.insert(g, last)[(
            #[trigger] inserts[i]).field(key)->Unsigned_0] == inserts[i] by {
                if i < rest.len() {
                    assert(rest[i] == inserts[i]);
                    assert(inserts[i].field(key) != inserts[inserts.len() - 1].field(key));
                }
            }
        }
    }
}

/// An update that replaces one row of a table by another under the same key leaves the new one
/// there; one that does not name the table changes nothing.
pub proof fn an_update_replaces_a_row(
    rows: Map<u64, JsonView>,
    update: JsonView,
    table: Seq<char>,
    key: Seq<char>,
    expected: Set<u64>,
    before: JsonView,
    after: JsonView,
    guid: u64,
)
    requires
        rows.contains_key(guid) && rows[guid] == before,
        keyed(before, key, guid),
        keyed(after, key, guid),
        expected.contains(guid),
        update.field(table).field("deletes"@) == JsonView::Array(seq![before]),
        update.field(table).field("inserts"@) == JsonView::Array(seq![after]),
    ensures
        replaced(rows, update, table, key, expected).1 is None,
        replaced(rows, update, table, key, expected).0 == rows.insert(guid, after),
{
    reveal_with_fuel(deleted, 3);
    reveal_with_fuel(inserted, 3);
    assert(seq![before].drop_last() =~= Seq::empty());
    assert(seq![after].drop_last() =~= Seq::empty());
    assert(rows.remove(guid).insert(guid, after) =~= rows.insert(guid, after));
}

/// An update that names no such table leaves it alone.
pub proof fn an_absent_table_is_left_alone(
    rows: Map<u64, JsonView>,
    update: JsonView,
    table: Seq<char>,
    key: Seq<char>,
    expected: Set<u64>,
)
    requires
        update.get(table) is None,
    ensures
        replaced(rows, update, table, key, expected) == (rows, None::<Seq<char>>),
{
}

/// An entity is taken in where it is a staged bot, or a creature of a declared entry, and is not
/// there yet: it then stands with the bots in the one case and with the creatures in the other, and
/// nothing else changes. Taking the same row out again restores what was there.
pub proof fn an_entity_comes_and_goes(
    e: Entities,
    row: JsonView,
    guid: u64,
    entry: u32,
    expected: Set<u64>,
    entries: Set<u32>,
)
    requires
        row.field("guid"@) == JsonView::Unsigned(guid),
        row.field("entry"@) == JsonView::Unsigned(entry as u64),
    ensures
        e.with(row, expected, entries).1 is None <==> (expected.contains(guid)
            && !e.bots.contains_key(guid)) || (!expected.contains(guid) && entries.contains(entry)
            && !e.creatures.contains_key(guid)),
        e.with(row, expected, entries).1 is None ==> ({
            let t = e.with(row, expected, entries).0;
            &&& expected.contains(guid) ==> t.bots == e.bots.insert(guid, row) && t.creatures
                == e.creatures
            &&& !expected.contains(guid) ==> t.creatures == e.creatures.insert(guid, row) && t.bots
                == e.bots
            &&& t.without(row, expected, entries).1 is None
            &&& t.without(row, expected, entries).0 == e
        }),
{
    let t = e.with(row, expected, entries).0;
    if e.with(row, expected, entries).1 is None {
        assert(e.bots.insert(guid, row).remove(guid) =~= e.bots || e.bots.contains_key(guid));
        assert(e.creatures.insert(guid, row).remove(guid) =~= e.creatures
            || e.creatures.contains_key(guid));
    }
}

/// A deleted entity has to be the one that was observed.
pub proof fn an_entity_leaves_as_it_came(
    e: Entities,
    row: JsonView,
    guid: u64,
    expected: Set<u64>,
    entries: Set<u32>,
)
    requires
        row.field("guid"@) == JsonView::Unsigned(guid),
        e.without(row, expected, entries).1 is None,
    ensures
        expected.contains(guid) ==> e.bots.contains_key(guid) && e.bots[guid] == row && e.without(
            row,
            expected,
            entries,
        ).0 == (Entities { bots: e.bots.remove(guid), creatures: e.creatures }),
        !expected.contains(guid) ==> e.creatures.contains_key(guid) && e.creatures[guid] == row
            && e.without(row, expected, entries).0 == (Entities {
            bots: e.bots,
            creatures: e.creatures.remove(guid),
        }),
{
}

// ------------------------------------------------------------------------------------------
//  Which legs count
// ------------------------------------------------------------------------------------------

/// A runner's row shows that it walks.
pub open spec fn walks(row: JsonView) -> bool {
    &&& row.field("foreground"@) matches JsonView::Object(m) && m.len() == 1 && m[0].0 == "some"@
        && m[0].1.field("running"@).get("movement"@) is Some
}

/// What a runner's foreground holds.
pub open spec fn at_work(row: JsonView) -> JsonView {
    row.field("foreground"@)->Object_0[0].1
}

/// Two runners walk the same leg where they agree on its generation, map, instance, start, candidate
/// and destination, and on nothing less.
pub proof fn a_leg_is_known_by_six_things(a: JsonView, b: JsonView)
    requires
        walks(a),
        walks(b),
    ensures
        identity_of(a) matches Ok(Some(_)),
        identity_of(a) == identity_of(b) <==> {
            let (f, g) = (at_work(a), at_work(b));
            &&& f.field("generation"@) == g.field("generation"@)
            &&& f.field("map_id"@) == g.field("map_id"@)
            &&& f.field("instance_id"@) == g.field("instance_id"@)
            &&& f.field("started_micros"@) == g.field("started_micros"@)
            &&& f.field("candidate"@) == g.field("candidate"@)
            &&& f.field("running"@).field("movement"@).field("destination"@) == g.field(
                "running"@,
            ).field("movement"@).field("destination"@)
        },
        identity_of(a)->Ok_0->0.generation == at_work(a).field("generation"@),
        identity_of(a)->Ok_0->0.started_micros == at_work(a).field("started_micros"@),
        identity_of(a)->Ok_0->0.map_id == at_work(a).field("map_id"@),
        identity_of(a)->Ok_0->0.instance_id == at_work(a).field("instance_id"@),
{
    sats::an_option_is_some_or_none(a, "foreground"@);
    sats::an_option_is_some_or_none(b, "foreground"@);
}

/// Two rows give the same place: the same map and the same instance.
pub open spec fn in_one_place(a: JsonView, b: JsonView) -> bool {
    a.field("map_id"@) == b.field("map_id"@) && a.field("instance_id"@) == b.field("instance_id"@)
}

/// A row gives where it is.
pub open spec fn gives_place(a: JsonView) -> bool {
    a.field("map_id"@) is Unsigned && a.field("instance_id"@) is Unsigned
}

/// A row gives coordinates.
pub open spec fn gives_point(a: JsonView, x: Seq<char>, y: Seq<char>, z: Seq<char>) -> bool {
    a.field(x).finite_number() && a.field(y).finite_number() && a.field(z).finite_number()
}

/// A leg's row gives everything: its bot, its start, how many milliseconds it takes, and where.
pub open spec fn is_leg(spline: JsonView, guid: u64, start: u64, millis: u64) -> bool {
    &&& spline.field("guid"@) == JsonView::Unsigned(guid)
    &&& spline.field("start_micros"@) == JsonView::Unsigned(start)
    &&& spline.field("dur_ms"@) == JsonView::Unsigned(millis)
    &&& gives_place(spline)
    &&& gives_point(spline, "sx"@, "sy"@, "sz"@)
    &&& gives_point(spline, "dx"@, "dy"@, "dz"@)
}

/// A followed leg that ends is completed exactly where it is still the one that was followed, its
/// runner owned it before the update with the same identity and still has that generation, the bot
/// stands at its end in its map and instance, and the time that it was to take has passed. Then its
/// time is the time from its start; in any other case it counts as interrupted. Either way it is no
/// longer followed.
pub proof fn a_leg_is_completed_or_interrupted(
    m: MovementView,
    now: u64,
    spline: JsonView,
    near: bool,
    guid: u64,
    start: u64,
    millis: u64,
)
    requires
        is_leg(spline, guid, start, millis),
        start + 1000 * millis <= u64::MAX,
        m.active.contains_key(guid),
        m.entities.bots.contains_key(guid),
        gives_place(m.entities.bots[guid]),
        gives_point(m.entities.bots[guid], "x"@, "y"@, "z"@),
    ensures
        ({
            let (after, refused) = m.one_ended(Some(now), spline, near);
            let whole = m.active[guid].spline == spline && m.owners.contains_key(guid)
                && m.owners[guid] == Some(m.active[guid].owner) && m.runners.contains_key(guid)
                && m.runners[guid].field("generation"@) == m.active[guid].owner.generation
                && in_one_place(m.entities.bots[guid], spline) && near && now >= start + 1000
                * millis;
            &&& refused is None
            &&& after.active == m.active.remove(guid)
            &&& whole ==> after.interrupted == m.interrupted && after.completed == m.completed.push(
                Sample { value: (now - start) as u64, guid },
            )
            &&& !whole ==> after.interrupted == m.interrupted + 1 && after.completed == m.completed
        }),
{
}

/// A leg that ends in an update without a pass is interrupted, and so is one whose bot is not there.
pub proof fn a_leg_needs_a_pass_and_a_bot(
    m: MovementView,
    now: Option<u64>,
    spline: JsonView,
    near: bool,
    guid: u64,
    start: u64,
    millis: u64,
)
    requires
        is_leg(spline, guid, start, millis),
        start + 1000 * millis <= u64::MAX,
        m.active.contains_key(guid),
        !m.entities.bots.contains_key(guid) || (now is None && gives_place(m.entities.bots[guid])
            && gives_point(m.entities.bots[guid], "x"@, "y"@, "z"@)),
    ensures
        m.one_ended(now, spline, near).0.interrupted == m.interrupted + 1,
        m.one_ended(now, spline, near).0.completed == m.completed,
        m.one_ended(now, spline, near).0.active == m.active.remove(guid),
        m.one_ended(now, spline, near).1 is None,
{
}

/// A leg that begins is followed exactly where its runner walks, the leg takes time, the update holds
/// a row of the same runner with the leg's start and generation, and the two agree on the start, the
/// map and the instance. What is followed is the leg itself, with the runner's identity.
pub proof fn a_leg_is_followed_from_its_start(
    m: MovementView,
    update: JsonView,
    spline: JsonView,
    guid: u64,
    start: u64,
    millis: u64,
)
    requires
        is_leg(spline, guid, start, millis),
        m.runners.contains_key(guid),
        walks(m.runners[guid]),
    ensures
        ({
            let (after, refused) = m.one_begun(update, spline);
            let work = at_work(m.runners[guid]);
            let follows = millis > 0 && same_transaction(
                update,
                spline,
                guid,
                identity_of(m.runners[guid])->Ok_0->0,
            ) && work.field("started_micros"@) == JsonView::Unsigned(start) && work.field("map_id"@)
                == spline.field("map_id"@) && work.field("instance_id"@) == spline.field(
                "instance_id"@,
            );
            &&& refused is None
            &&& follows ==> after == (MovementView {
                active: m.active.insert(
                    guid,
                    LegView { spline, owner: identity_of(m.runners[guid])->Ok_0->0 },
                ),
                ..m
            })
            &&& !follows ==> after == m
        }),
{
    sats::an_option_is_some_or_none(m.runners[guid], "foreground"@);
}

/// An update begins a leg together with its runner exactly where one of the runner's inserted rows
/// was observed at the leg's start, in the generation of the leg.
pub proof fn a_leg_begins_with_its_runner(
    update: JsonView,
    rows: Seq<JsonView>,
    i: int,
    spline: JsonView,
    guid: u64,
    id: IdentityView,
)
    requires
        update.field("pkg_playerbots_runner"@).field("inserts"@) == JsonView::Array(rows),
        0 <= i < rows.len(),
    ensures
        rows[i].field("character_guid"@) == JsonView::Unsigned(guid) && rows[i].field(
            "observed_micros"@,
        ) == spline.field("start_micros"@) && rows[i].field("generation"@) == id.generation
            ==> same_transaction(update, spline, guid, id),
        (forall|k: int|
            0 <= k < rows.len() ==> !keyed(#[trigger] rows[k], "character_guid"@, guid)
                || rows[k].field("observed_micros"@) != spline.field("start_micros"@)
                || rows[k].field("generation"@) != id.generation) ==> !same_transaction(
            update,
            spline,
            guid,
            id,
        ),
{
    assert(new_runners(update) == rows);
    if rows[i].field("character_guid"@) == JsonView::Unsigned(guid) && rows[i].field(
        "observed_micros"@,
    ) == spline.field("start_micros"@) && rows[i].field("generation"@) == id.generation {
        assert(starts_leg(new_runners(update)[i], spline, guid, id));
    }
    if same_transaction(update, spline, guid, id) {
        let k = choose|k: int|
            0 <= k < new_runners(update).len() && starts_leg(
                #[trigger] new_runners(update)[k],
                spline,
                guid,
                id,
            );
        assert(keyed(rows[k], "character_guid"@, guid));
    }
}

/// The legs that are given up after an update are those whose runner has turned to something else.
pub proof fn a_leg_is_given_up_with_its_owner(m: MovementView, guids: Seq<u64>, g: u64)
    requires
        m.abandoned(guids) is Ok,
    ensures
        m.abandoned(guids)->Ok_0.contains(g) <==> guids.contains(g) && owner_of(m.runners, g) != Ok::<
            Option<IdentityView>,
            Seq<char>,
        >(Some(m.active[g].owner)),
    decreases guids.len(),
{
    if guids.len() > 0 {
        let rest = guids.drop_last();
        a_leg_is_given_up_with_its_owner(m, rest, g);
        let list = m.abandoned(rest)->Ok_0;
        let last = guids.last();
        assert(guids[guids.len() - 1] == last);
        if guids.contains(g) && g != last {
            let i = choose|i: int| 0 <= i < guids.len() && guids[i] == g;
            assert(rest[i] == g);
        }
        if rest.contains(g) {
            let i = choose|i: int| 0 <= i < rest.len() && rest[i] == g;
            assert(guids[i] == g);
        }
        let all = list.push(last);
        assert(all[all.len() - 1] == last);
        if list.contains(g) {
            let i = choose|i: int| 0 <= i < list.len() && list[i] == g;
            assert(all[i] == g);
        }
        if all.contains(g) && g != last {
            let i = choose|i: int| 0 <= i < all.len() && all[i] == g;
            assert(list[i] == g);
        }
    }
}

/// The owners that a leg's end is held against are those from before the update.
pub proof fn owners_are_from_before_the_update(m: MovementView, update: JsonView, measured: bool, g: u64)
    requires
        m.observed(update, measured).1 is None,
        m.active.dom().finite(),
        m.active.contains_key(g),
    ensures
        m.observed(update, measured).0.owners.contains_key(g),
        owner_of(m.runners, g) == Ok::<Option<IdentityView>, Seq<char>>(
            m.observed(update, measured).0.owners[g],
        ),
        measured ==> m.observed(update, measured).0.active == m.active,
        m.observed(update, measured).0.completed == m.completed,
{
    let guids = order::ascending(m.active.dom());
    order::lemma_ascending_exists(m.active.dom());
    assert(guids.contains(g));
    lemma_owners(m.runners, guids, g);
}

proof fn lemma_owners(runners: Map<u64, JsonView>, guids: Seq<u64>, g: u64)
    requires
        owners_of(runners, guids) is Ok,
        guids.contains(g),
    ensures
        owners_of(runners, guids)->Ok_0.contains_key(g),
        owner_of(runners, g) == Ok::<Option<IdentityView>, Seq<char>>(
            owners_of(runners, guids)->Ok_0[g],
        ),
    decreases guids.len(),
{
    let rest = guids.drop_last();
    if guids.last() != g {
        let i = choose|i: int| 0 <= i < guids.len() && guids[i] == g;
        assert(rest[i] == g);
        lemma_owners(runners, rest, g);
    }
}

/// An update's pass is its scheduler's first inserted row.
pub proof fn a_pass_is_timed_by_its_first_row(update: JsonView, rows: Seq<JsonView>, t: u64)
    requires
        update.field("pkg_playerbots_scheduler"@).field("inserts"@) == JsonView::Array(rows),
    ensures
        pass_time(update) == Some(t) <==> rows.len() > 0 && rows[0].field("observed_micros"@)
            == JsonView::Unsigned(t),
{
}

/// A followed leg has to end where it was led: from its beginning in one update to its completion in
/// another, its measured time is the time that passed.
pub proof fn a_leg_is_timed_from_its_start(
    m: MovementView,
    update: JsonView,
    spline: JsonView,
    guid: u64,
    start: u64,
    millis: u64,
    later: MovementView,
    now: u64,
)
    requires
        is_leg(spline, guid, start, millis),
        start + 1000 * millis <= now,
        m.runners.contains_key(guid),
        walks(m.runners[guid]),
        m.one_begun(update, spline).0.active.contains_key(guid),
        !m.active.contains_key(guid),
        later.active == m.one_begun(update, spline).0.active,
        later.runners == m.runners,
        m.runners[guid].field("generation"@) == at_work(m.runners[guid]).field("generation"@),
        later.owners.contains_key(guid),
        owner_of(m.runners, guid) == Ok::<Option<IdentityView>, Seq<char>>(later.owners[guid]),
        later.entities.bots.contains_key(guid),
        gives_place(later.entities.bots[guid]),
        gives_point(later.entities.bots[guid], "x"@, "y"@, "z"@),
        in_one_place(later.entities.bots[guid], spline),
    ensures
        later.one_ended(Some(now), spline, true).0.completed == later.completed.push(
            Sample { value: (now - start) as u64, guid },
        ),
{
    a_leg_is_followed_from_its_start(m, update, spline, guid, start, millis);
    a_leg_is_completed_or_interrupted(later, now, spline, true, guid, start, millis);
    sats::an_option_is_some_or_none(m.runners[guid], "foreground"@);
}

} // verus!
