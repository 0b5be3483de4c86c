//! What the passes of a measured window say about each bot: how often it was served, how late,
//! whether it got anywhere.

use vstd::prelude::*;
use std::collections::{BTreeMap, BTreeSet};
use crate::json;
use crate::json::{Json, JsonView};
use crate::movement;
use crate::movement::{Identity, IdentityView};
use crate::order;
use crate::sats;
use crate::sort::Sample;
use crate::spread;
use crate::spread::Distribution;
use crate::stream;
use crate::stream::Pass;

verus! {

broadcast use {vstd::std_specs::btree::group_btree_axioms, vstd::laws_cmp::group_laws_cmp};

// ------------------------------------------------------------------------------------------
//  Progress
// ------------------------------------------------------------------------------------------

/// Two places on the ground, whose distance decides.
pub struct Places {
    pub x: JsonView,
    pub y: JsonView,
    pub from_x: JsonView,
    pub from_y: JsonView,
}

/// Two coordinates of a row.
pub open spec fn place(row: JsonView, x: Seq<char>, y: Seq<char>) -> Result<
    (JsonView, JsonView),
    Seq<char>,
> {
    match sats::coordinate_field(row, x) {
        Err(e) => Err(e),
        Ok(a) => match sats::coordinate_field(row, y) {
            Err(e) => Err(e),
            Ok(b) => Ok((a, b)),
        },
    }
}

/// Where a bot was before: at its last observed progress, or where its movement began.
pub open spec fn prior_place(previous: JsonView) -> Result<
    Option<(JsonView, JsonView)>,
    Seq<char>,
> {
    match sats::option_field(previous, "movement_progress"@) {
        Err(e) => Err(e),
        Ok(Some(progress)) => match place(progress, "x"@, "y"@) {
            Err(e) => Err(e),
            Ok(p) => Ok(Some(p)),
        },
        Ok(None) => match sats::option_field(previous, "foreground"@) {
            Err(e) => Err(e),
            Ok(None) => Ok(None),
            Ok(Some(fg)) => match fg.field("running"@).get("Movement"@) {
                None => Ok(None),
                Some(m) => match place(m, "from_x"@, "from_y"@) {
                    Err(e) => Err(e),
                    Ok(p) => Ok(Some(p)),
                },
            },
        },
    }
}

/// The places to compare for a new observation of movement, where there is one and the bot was
/// seen before.
pub open spec fn movement_compared(current: JsonView, previous: JsonView) -> Result<
    Option<Places>,
    Seq<char>,
> {
    match sats::newer_field(current, previous, "movement_progress"@) {
        Err(e) => Err(e),
        Ok(false) => Ok(None),
        Ok(true) => match sats::option_field(current, "movement_progress"@) {
            Err(e) => Err(e),
            Ok(None) => Ok(None),
            Ok(Some(progress)) => match prior_place(previous) {
                Err(e) => Err(e),
                Ok(None) => Ok(None),
                Ok(Some((from_x, from_y))) => match place(progress, "x"@, "y"@) {
                    Err(e) => Err(e),
                    Ok((x, y)) => Ok(Some(Places { x, y, from_x, from_y })),
                },
            },
        },
    }
}

/// The last observation of a quest among earlier ones; zero where there is none.
pub open spec fn prior_quest_time(before: Seq<JsonView>, entry: u64) -> Result<i64, Seq<char>>
    decreases before.len(),
{
    if before.len() == 0 {
        Ok(0)
    } else if before[0].field("quest"@).unsigned() == Some(entry) {
        sats::signed_field(before[0], "observed_micros"@)
    } else {
        prior_quest_time(before.skip(1), entry)
    }
}

/// Whether a quest was credited since.
pub open spec fn quest_newer(quest: JsonView, before: Seq<JsonView>) -> Result<bool, Seq<char>> {
    match sats::unsigned_field(quest, "quest"@) {
        Err(e) => Err(e),
        Ok(entry) => match sats::signed_field(quest, "observed_micros"@) {
            Err(e) => Err(e),
            Ok(time) => match prior_quest_time(before, entry) {
                Err(e) => Err(e),
                Ok(prior) => Ok(time > prior),
            },
        },
    }
}

/// Whether any quest was credited since; the first that was, or that cannot be read, decides.
pub open spec fn quests_newer(quests: Seq<JsonView>, before: Seq<JsonView>) -> Result<
    bool,
    Seq<char>,
>
    decreases quests.len(),
{
    if quests.len() == 0 {
        Ok(false)
    } else {
        match quests_newer(quests.drop_last(), before) {
            Ok(false) => quest_newer(quests.last(), before),
            decided => decided,
        }
    }
}

/// Whether a runner got anywhere since an earlier observation: it moved, lost its target health,
/// resolved a cast or was credited for a quest. `moved` says whether the places to compare lie
/// apart.
pub open spec fn progressed(current: JsonView, previous: JsonView, moved: bool) -> Result<
    bool,
    Seq<char>,
> {
    match movement_compared(current, previous) {
        Err(e) => Err(e),
        Ok(places) => if places is Some && moved {
            Ok(true)
        } else {
            match sats::newer_field(current, previous, "combat_progress"@) {
                Err(e) => Err(e),
                Ok(true) => Ok(true),
                Ok(false) => match sats::newer_field(current, previous, "cast_progress"@) {
                    Err(e) => Err(e),
                    Ok(true) => Ok(true),
                    Ok(false) => match previous.field("quest_progress"@).items() {
                        None => Err("invalid prior Quest progress"@),
                        Some(before) => match current.field("quest_progress"@).items() {
                            None => Err("invalid Quest progress"@),
                            Some(quests) => quests_newer(quests, before),
                        },
                    },
                },
            }
        },
    }
}

/// Two places on the ground, as the rows give them.
pub struct PlacePair {
    pub x: Json,
    pub y: Json,
    pub from_x: Json,
    pub from_y: Json,
}

impl View for PlacePair {
    type V = Places;

    open spec fn view(&self) -> Places {
        Places { x: self.x@, y: self.y@, from_x: self.from_x@, from_y: self.from_y@ }
    }
}

/// Two places, if there are any.
pub open spec fn paired(v: Option<PlacePair>) -> Option<Places> {
    match v {
        Some(p) => Some(p@),
        None => None,
    }
}

fn place_of(row: &Json, x: &str, y: &str) -> (r: Result<(Json, Json), String>)
    ensures
        match (r, place(row@, x@, y@)) {
            (Ok(p), Ok(w)) => (p.0@, p.1@) == w,
            (Err(said), Err(words)) => said@ == words,
            _ => false,
        },
{
    let a: Json = match sats::coordinate(row, x) {
        Err(e) => return Err(e),
        Ok(a) => a,
    };
    match sats::coordinate(row, y) {
        Err(e) => Err(e),
        Ok(b) => Ok((a, b)),
    }
}

fn prior_place_of(previous: &Json) -> (r: Result<Option<(Json, Json)>, String>)
    ensures
        match (r, prior_place(previous@)) {
            (Ok(Some(p)), Ok(Some(w))) => (p.0@, p.1@) == w,
            (Ok(None), Ok(None)) => true,
            (Err(said), Err(words)) => said@ == words,
            _ => false,
        },
{
    match sats::optional(previous, "movement_progress") {
        Err(e) => Err(e),
        Ok(Some(progress)) => match place_of(&progress, "x", "y") {
            Err(e) => Err(e),
            Ok(p) => Ok(Some(p)),
        },
        Ok(None) => match sats::optional(previous, "foreground") {
            Err(e) => Err(e),
            Ok(None) => Ok(None),
            Ok(Some(fg)) => {
                let running: Json = sats::field(&fg, "running");
                match running.get("Movement") {
                    None => Ok(None),
                    Some(m) => match place_of(m, "from_x", "from_y") {
                        Err(e) => Err(e),
                        Ok(p) => Ok(Some(p)),
                    },
                }
            },
        },
    }
}

/// The places to compare for a new observation of movement, where there is one and the bot was
/// seen before.
pub fn movement_places(current: &Json, previous: &Json) -> (r: Result<Option<PlacePair>, String>)
    ensures
        match (r, movement_compared(current@, previous@)) {
            (Ok(p), Ok(w)) => paired(p) == w,
            (Err(said), Err(words)) => said@ == words,
            _ => false,
        },
{
    match sats::newer(current, previous, "movement_progress") {
        Err(e) => return Err(e),
        Ok(false) => return Ok(None),
        Ok(true) => {},
    }
    let progress: Json = match sats::optional(current, "movement_progress") {
        Err(e) => return Err(e),
        Ok(None) => return Ok(None),
        Ok(Some(progress)) => progress,
    };
    match prior_place_of(previous) {
        Err(e) => Err(e),
        Ok(None) => Ok(None),
        Ok(Some((from_x, from_y))) => match place_of(&progress, "x", "y") {
            Err(e) => Err(e),
            Ok((x, y)) => Ok(Some(PlacePair { x, y, from_x, from_y })),
        },
    }
}

fn prior_time(before: &Vec<Json>, entry: u64) -> (r: Result<i64, String>)
    ensures
        sats::agrees(r, prior_quest_time(json::json_views(before@), entry)),
{
    let ghost bs = json::json_views(before@);
    let mut i: usize = 0;
    assert(bs.skip(0) =~= bs);
    while i < before.len()
        invariant
            i <= before@.len(),
            bs == json::json_views(before@),
            prior_quest_time(bs, entry) == prior_quest_time(bs.skip(i as int), entry),
        decreases before.len() - i,
    {
        let row = &before[i];
        assert(bs.skip(i as int)[0] == row@);
        assert(bs.skip(i as int).skip(1) =~= bs.skip(i + 1));
        if let Some(q) = row.u64_at("quest") {
            if q == entry {
                return sats::signed(row, "observed_micros");
            }
        }
        i = i + 1;
    }
    Ok(0)
}

proof fn lemma_quests_stop(quests: Seq<JsonView>, before: Seq<JsonView>, n: int)
    requires
        0 <= n <= quests.len(),
    ensures
        quests_newer(quests.take(n), before) != Ok::<bool, Seq<char>>(false) ==> quests_newer(
            quests,
            before,
        ) == quests_newer(quests.take(n), before),
    decreases quests.len() - n,
{
    if n == quests.len() {
        assert(quests.take(n) =~= quests);
    } else {
        lemma_quests_stop(quests, before, n + 1);
        assert(quests.take(n + 1).drop_last() =~= quests.take(n));
    }
}

fn any_quest_newer(quests: &Vec<Json>, before: &Vec<Json>) -> (r: Result<bool, String>)
    ensures
        sats::agrees(r, quests_newer(json::json_views(quests@), json::json_views(before@))),
{
    let ghost qs = json::json_views(quests@);
    let ghost bs = json::json_views(before@);
    assert(qs.take(0) =~= Seq::<JsonView>::empty());
    for i in 0..quests.len()
        invariant
            qs == json::json_views(quests@),
            bs == json::json_views(before@),
            quests_newer(qs.take(i as int), bs) == Ok::<bool, Seq<char>>(false),
    {
        let quest = &quests[i];
        proof {
            assert(qs.take(i + 1).drop_last() =~= qs.take(i as int));
            assert(qs.take(i + 1).last() == quest@);
            lemma_quests_stop(qs, bs, i + 1);
        }
        let entry: u64 = match sats::unsigned(quest, "quest") {
            Err(e) => return Err(e),
            Ok(n) => n,
        };
        let time: i64 = match sats::signed(quest, "observed_micros") {
            Err(e) => return Err(e),
            Ok(n) => n,
        };
        match prior_time(before, entry) {
            Err(e) => {
                return Err(e);
            },
            Ok(prior) => {
                if time > prior {
                    return Ok(true);
                }
            },
        }
    }
    assert(qs.take(qs.len() as int) =~= qs);
    Ok(false)
}

/// Whether a runner got anywhere since an earlier observation.
pub fn has_progress(current: &Json, previous: &Json, moved: bool) -> (r: Result<bool, String>)
    ensures
        sats::agrees(r, progressed(current@, previous@, moved)),
{
    match movement_places(current, previous) {
        Err(e) => return Err(e),
        Ok(Some(_)) => {
            if moved {
                return Ok(true);
            }
        },
        Ok(None) => {},
    }
    match sats::newer(current, previous, "combat_progress") {
        Err(e) => return Err(e),
        Ok(true) => return Ok(true),
        Ok(false) => {},
    }
    match sats::newer(current, previous, "cast_progress") {
        Err(e) => return Err(e),
        Ok(true) => return Ok(true),
        Ok(false) => {},
    }
    match previous.array_at("quest_progress") {
        None => Err("invalid prior Quest progress".to_owned()),
        Some(before) => match current.array_at("quest_progress") {
            None => Err("invalid Quest progress".to_owned()),
            Some(quests) => any_quest_newer(quests, before),
        },
    }
}

/// No quest is listed twice.
pub open spec fn quests_distinct(quests: Seq<JsonView>) -> bool {
    forall|i: int, j: int|
        0 <= i < j < quests.len() ==> (#[trigger] quests[i]).field("quest"@).unsigned() != (
        #[trigger] quests[j]).field("quest"@).unsigned()
}

/// What was observed before is not progress when it is observed again.
pub proof fn standing_still_is_no_progress(row: JsonView, moved: bool)
    requires
        progressed(row, row, moved) is Ok,
        row.field("quest_progress"@).items() matches Some(quests) ==> quests_distinct(quests),
    ensures
        progressed(row, row, moved) == Ok::<bool, Seq<char>>(false),
{
    if let Some(quests) = row.field("quest_progress"@).items() {
        lemma_same_quests(quests, quests.len() as int);
        assert(quests.take(quests.len() as int) =~= quests);
    }
}

proof fn lemma_same_quests(quests: Seq<JsonView>, n: int)
    requires
        0 <= n <= quests.len(),
        quests_distinct(quests),
    ensures
        quests_newer(quests.take(n), quests) != Ok::<bool, Seq<char>>(true),
    decreases n,
{
    if n > 0 {
        lemma_same_quests(quests, n - 1);
        assert(quests.take(n).drop_last() =~= quests.take(n - 1));
        let quest = quests[n - 1];
        assert(quests.take(n).last() == quest);
        if let Some(entry) = quest.field("quest"@).unsigned() {
            lemma_own_time(quests, entry, n - 1, 0);
            assert(quests.skip(0) =~= quests);
        }
    }
}

proof fn lemma_own_time(quests: Seq<JsonView>, entry: u64, i: int, from: int)
    requires
        0 <= from <= i < quests.len(),
        quests_distinct(quests),
        quests[i].field("quest"@).unsigned() == Some(entry),
    ensures
        prior_quest_time(quests.skip(from), entry) == sats::signed_field(
            quests[i],
            "observed_micros"@,
        ),
    decreases i - from,
{
    assert(quests.skip(from)[0] == quests[from]);
    if from < i {
        assert(quests[from].field("quest"@).unsigned() != quests[i].field("quest"@).unsigned());
        lemma_own_time(quests, entry, i, from + 1);
        assert(quests.skip(from).skip(1) =~= quests.skip(from + 1));
    }
}

// ------------------------------------------------------------------------------------------
//  A measured window
// ------------------------------------------------------------------------------------------

/// A movement that began in a pass: the runner's generation, when it began, which leg it is, and
/// where it began.
pub struct Start {
    pub generation: u64,
    pub started: i64,
    pub leg: Identity,
    pub x: Json,
    pub y: Json,
}

/// What a start holds.
pub struct StartView {
    pub generation: u64,
    pub started: i64,
    pub leg: IdentityView,
    pub x: JsonView,
    pub y: JsonView,
}

impl View for Start {
    type V = StartView;

    open spec fn view(&self) -> StartView {
        StartView {
            generation: self.generation,
            started: self.started,
            leg: self.leg@,
            x: self.x@,
            y: self.y@,
        }
    }
}

/// Which leg a foreground walks: generation, map, instance, start time, candidate and destination.
pub open spec fn leg_of(fg: JsonView, movement: JsonView) -> IdentityView {
    IdentityView {
        generation: fg.field("generation"@),
        map_id: fg.field("map_id"@),
        instance_id: fg.field("instance_id"@),
        started_micros: fg.field("started_micros"@),
        candidate: fg.field("candidate"@),
        destination: movement.field("destination"@),
    }
}

/// The movement that a foreground runs, if it runs one.
pub open spec fn running(fg: Option<JsonView>) -> Option<JsonView> {
    match fg {
        Some(f) => f.field("running"@).get("Movement"@),
        None => None,
    }
}

/// A runner's foreground runs another leg than that one.
pub open spec fn replaced(runner: JsonView, leg: IdentityView) -> bool {
    match sats::option_field(runner, "foreground"@) {
        Err(_) => false,
        Ok(fg) => match running(fg) {
            None => false,
            Some(m) => leg_of(fg->0, m) != leg,
        },
    }
}

fn leg_walked(fg: &Json, movement: &Json) -> (leg: Identity)
    ensures
        leg@ == leg_of(fg@, movement@),
{
    Identity {
        generation: sats::field(fg, "generation"),
        map_id: sats::field(fg, "map_id"),
        instance_id: sats::field(fg, "instance_id"),
        started_micros: sats::field(fg, "started_micros"),
        candidate: sats::field(fg, "candidate"),
        destination: sats::field(movement, "destination"),
    }
}

fn is_replaced(runner: &Json, leg: &Identity) -> (yes: bool)
    ensures
        yes == replaced(runner@, leg@),
{
    match sats::optional(runner, "foreground") {
        Ok(Some(fg)) => {
            let running: Json = sats::field(&fg, "running");
            match running.get("Movement") {
                None => false,
                Some(m) => !leg_walked(&fg, m).same(leg),
            }
        },
        _ => false,
    }
}

/// The bot that waited longest in any pass.
#[derive(Clone, Copy, Debug, PartialEq, Eq, Structural)]
pub struct SlowestDue {
    pub guid: u64,
    pub lag_micros: i64,
    pub observed_micros: i64,
    pub deferred_count: usize,
}

/// What a measurement holds.
pub struct MeasureView {
    pub counts: Map<u64, u64>,
    pub previous: Map<u64, JsonView>,
    pub progress: Set<u64>,
    pub starts: Map<u64, StartView>,
    pub lag: Seq<Sample>,
    pub routes: Seq<Sample>,
    pub movements: Seq<Sample>,
    pub deferred: int,
    pub accelerated: int,
    pub slowest: Option<SlowestDue>,
}

/// What floating-point arithmetic says about a bot in a pass: whether its new place lies apart
/// from the one before, and whether it arrived apart from where it began.
#[derive(Clone, Copy, Debug, PartialEq, Eq, Structural)]
pub struct Apart {
    pub moved: bool,
    pub travelled: bool,
}

impl MeasureView {
    /// After a runner was seen: a movement that another one replaced will not arrive.
    pub open spec fn displaced(self, runner: JsonView, guid: u64) -> MeasureView {
        if self.starts.contains_key(guid) && replaced(runner, self.starts[guid].leg) {
            MeasureView { starts: self.starts.remove(guid), ..self }
        } else {
            self
        }
    }

    /// After an arrival was looked for in a runner's progress.
    pub open spec fn arrived(
        self,
        runner: JsonView,
        guid: u64,
        generation: u64,
        now: i64,
        travelled: bool,
    ) -> (MeasureView, Option<Seq<char>>) {
        match sats::option_field(runner, "movement_progress"@) {
            Err(e) => (self, Some(e)),
            Ok(None) => (self, None),
            Ok(Some(progress)) => match sats::signed_field(progress, "observed_micros"@) {
                Err(e) => (self, Some(e)),
                Ok(at) => if at != now || progress.field("arrived"@) != JsonView::Bool(true)
                    || !self.starts.contains_key(guid) {
                    (self, None)
                } else {
                    let start = self.starts[guid];
                    let m = MeasureView { starts: self.starts.remove(guid), ..self };
                    match place(progress, "x"@, "y"@) {
                        Err(e) => (m, Some(e)),
                        Ok(_) => if generation == start.generation && now > start.started
                            && travelled && !replaced(runner, start.leg) {
                            (
                                MeasureView {
                                    movements: self.movements.push(
                                        Sample { value: (now - start.started) as u64, guid },
                                    ),
                                    ..m
                                },
                                None,
                            )
                        } else {
                            (m, None)
                        },
                    }
                },
            },
        }
    }

    /// After a runner's foreground was looked at: a movement that begins now is remembered, and
    /// its route work counted; one that runs on counts as no new work, and where it is another than
    /// the one that began, that one no longer arrives; without one there is nothing to arrive.
    pub open spec fn routed(self, runner: JsonView, guid: u64, generation: u64, now: i64) -> (
        MeasureView,
        Option<Seq<char>>,
    ) {
        match sats::option_field(runner, "foreground"@) {
            Err(e) => (self, Some(e)),
            Ok(fg) => {
                match running(fg) {
                    None => (
                        MeasureView {
                            starts: self.starts.remove(guid),
                            routes: self.routes.push(Sample { value: 0, guid }),
                            ..self
                        },
                        None,
                    ),
                    Some(m) => match sats::signed_field(fg->0, "started_micros"@) {
                        Err(e) => (self, Some(e)),
                        Ok(started) => if started != now {
                            (
                                MeasureView {
                                    routes: self.routes.push(Sample { value: 0, guid }),
                                    ..self.displaced(runner, guid)
                                },
                                None,
                            )
                        } else {
                            match place(m, "from_x"@, "from_y"@) {
                                Err(e) => (self, Some(e)),
                                Ok((x, y)) => {
                                    let begun = MeasureView {
                                        starts: self.starts.insert(
                                            guid,
                                            StartView { generation, started, leg: leg_of(fg->0, m), x, y },
                                        ),
                                        ..self
                                    };
                                    match sats::unsigned_field(runner, "route_expansions"@) {
                                        Err(e) => (begun, Some(e)),
                                        Ok(work) => (
                                            MeasureView {
                                                routes: self.routes.push(
                                                    Sample { value: work, guid },
                                                ),
                                                ..begun
                                            },
                                            None,
                                        ),
                                    }
                                },
                            }
                        },
                    },
                }
            },
        }
    }

    /// After a runner's movement was looked at.
    pub open spec fn moved(self, runner: JsonView, guid: u64, now: i64, travelled: bool) -> (
        MeasureView,
        Option<Seq<char>>,
    ) {
        match sats::unsigned_field(runner, "generation"@) {
            Err(e) => (self, Some(e)),
            Ok(generation) => {
                let (m, refused) = self.arrived(runner, guid, generation, now, travelled);
                if refused is Some {
                    (m, refused)
                } else {
                    m.routed(runner, guid, generation, now)
                }
            },
        }
    }

    /// After one served bot of a measured pass, up to its movement.
    pub open spec fn counted(self, guid: u64, bot: JsonView, runner: JsonView, moved: bool) -> (
        MeasureView,
        Option<Seq<char>>,
    ) {
        if !self.counts.contains_key(guid) {
            (self, Some("unstaged measured bot"@))
        } else {
            let m = MeasureView {
                counts: self.counts.insert(guid, (self.counts[guid] + 1) as u64),
                ..self
            };
            match sats::unsigned_field(bot, "scheduler_lag_micros"@) {
                Err(e) => (m, Some(e)),
                Ok(lag) => {
                    let m = MeasureView {
                        lag: self.lag.push(Sample { value: lag, guid }),
                        ..m
                    };
                    if !self.previous.contains_key(guid) {
                        (m, None)
                    } else {
                        match progressed(runner, self.previous[guid], moved) {
                            Err(e) => (m, Some(e)),
                            Ok(false) => (m, None),
                            Ok(true) => (
                                MeasureView { progress: self.progress.insert(guid), ..m },
                                None,
                            ),
                        }
                    }
                },
            }
        }
    }

    /// After one served bot of a pass.
    pub open spec fn served(
        self,
        guid: u64,
        bot: JsonView,
        runner: JsonView,
        now: i64,
        measured: bool,
        apart: Apart,
    ) -> (MeasureView, Option<Seq<char>>) {
        let (m, refused) = if measured {
            let (m, refused) = self.counted(guid, bot, runner, apart.moved);
            if refused is Some {
                (m, refused)
            } else {
                m.moved(runner, guid, now, apart.travelled)
            }
        } else {
            (self, None)
        };
        if refused is Some {
            (m, refused)
        } else {
            (MeasureView { previous: m.previous.insert(guid, runner), ..m }, None)
        }
    }

    /// After the first `n` served bots of a pass, up to the first refusal.
    pub open spec fn all_served(
        self,
        pass: stream::PassView,
        measured: bool,
        apart: Seq<Apart>,
        n: nat,
    ) -> (MeasureView, Option<Seq<char>>)
        decreases n,
    {
        if n == 0 {
            (self, None)
        } else {
            let (m, refused) = self.all_served(pass, measured, apart, (n - 1) as nat);
            let i = n - 1;
            if refused is Some {
                (m, refused)
            } else {
                m.served(
                    pass.processed_guids[i],
                    pass.bots[i],
                    pass.runners[i],
                    pass.observed_micros,
                    measured,
                    apart[i],
                )
            }
        }
    }

    /// After a pass.
    pub open spec fn observed(
        self,
        pass: stream::PassView,
        measured: bool,
        apart: Seq<Apart>,
    ) -> (MeasureView, Option<Seq<char>>) {
        let (m, refused) = self.all_served(pass, measured, apart, pass.processed_guids.len());
        if refused is Some || !measured {
            (m, refused)
        } else {
            (
                MeasureView {
                    deferred: m.deferred + pass.deferred_guids.len(),
                    accelerated: m.accelerated + pass.accelerated_guids.len(),
                    slowest: slower(m.slowest, pass),
                    ..m
                },
                None,
            )
        }
    }

    /// After a transaction between passes: every runner row that it inserts is what the next
    /// observation is compared with, and a movement that it replaces will not arrive.
    pub open spec fn baseline(self, rows: Seq<JsonView>) -> (MeasureView, Option<Seq<char>>)
        decreases rows.len(),
    {
        if rows.len() == 0 {
            (self, None)
        } else {
            let (m, refused) = self.baseline(rows.drop_last());
            if refused is Some {
                (m, refused)
            } else {
                match sats::unsigned_field(rows.last(), "character_guid"@) {
                    Err(e) => (m, Some(e)),
                    Ok(guid) => (
                        MeasureView {
                            previous: m.previous.insert(guid, rows.last()),
                            ..m.displaced(rows.last(), guid)
                        },
                        None,
                    ),
                }
            }
        }
    }
}

/// The slowest due bot after a pass: the first deferred one, where it waited longer than any
/// before.
pub open spec fn slower(old: Option<SlowestDue>, pass: stream::PassView) -> Option<SlowestDue> {
    if pass.deferred_guids.len() == 0 {
        old
    } else {
        let new = SlowestDue {
            guid: pass.deferred_guids[0],
            lag_micros: pass.oldest_deferred_lag_micros,
            observed_micros: pass.observed_micros,
            deferred_count: pass.deferred_guids.len() as usize,
        };
        match old {
            None => Some(new),
            Some(o) => if o.lag_micros < new.lag_micros {
                Some(new)
            } else {
                old
            },
        }
    }
}

/// The starts of a table.
pub open spec fn start_views(m: Map<u64, Start>) -> Map<u64, StartView> {
    m.map_values(|s: Start| s@)
}

/// The refusal of a result, if it is one.
pub open spec fn told(r: Result<(), String>) -> Option<Seq<char>> {
    match r {
        Ok(_) => None,
        Err(e) => Some(e@),
    }
}

/// The measurement of a window.
pub struct Measurement {
    counts: BTreeMap<u64, u64>,
    previous: BTreeMap<u64, Json>,
    progress: BTreeSet<u64>,
    movement_starts: BTreeMap<u64, Start>,
    lag: Vec<Sample>,
    routes: Vec<Sample>,
    movements: Vec<Sample>,
    deferred_observations: u64,
    accelerated_observations: u64,
    slowest_due: Option<SlowestDue>,
}

impl View for Measurement {
    type V = MeasureView;

    closed spec fn view(&self) -> MeasureView {
        MeasureView {
            counts: self.counts@,
            previous: stream::rows(self.previous@),
            progress: self.progress@,
            starts: start_views(self.movement_starts@),
            lag: self.lag@,
            routes: self.routes@,
            movements: self.movements@,
            deferred: self.deferred_observations as int,
            accelerated: self.accelerated_observations as int,
            slowest: self.slowest_due,
        }
    }
}

/// The places to compare for a served bot: what it is compared with now, and where it began.
pub struct Comparison {
    pub moved: Option<PlacePair>,
    pub travelled: Option<PlacePair>,
}

/// The places to compare for a bot's progress; none where nothing can be compared.
pub open spec fn progress_places(m: MeasureView, runner: JsonView, guid: u64) -> Option<Places> {
    if m.previous.contains_key(guid) {
        match movement_compared(runner, m.previous[guid]) {
            Ok(places) => places,
            Err(_) => None,
        }
    } else {
        None
    }
}

/// The places to compare for a bot's arrival; none where none was observed.
pub open spec fn arrival_places(m: MeasureView, runner: JsonView, guid: u64) -> Option<Places> {
    if m.starts.contains_key(guid) {
        match sats::option_field(runner, "movement_progress"@) {
            Ok(Some(progress)) => match place(progress, "x"@, "y"@) {
                Ok((x, y)) => Some(
                    Places { x, y, from_x: m.starts[guid].x, from_y: m.starts[guid].y },
                ),
                Err(_) => None,
            },
            _ => None,
        }
    } else {
        None
    }
}

impl Measurement {
    /// A measurement of those bots, before any pass.
    pub fn new(expected: &BTreeSet<u64>) -> (m: Measurement)
        ensures
            m@ == (MeasureView {
                counts: Map::new(|g: u64| expected@.contains(g), |g: u64| 0u64),
                previous: Map::empty(),
                progress: Set::empty(),
                starts: Map::empty(),
                lag: Seq::empty(),
                routes: Seq::empty(),
                movements: Seq::empty(),
                deferred: 0,
                accelerated: 0,
                slowest: None,
            }),
    {
        let mut counts: BTreeMap<u64, u64> = BTreeMap::new();
        let walk = expected.iter();
        let ghost all = vstd::std_specs::iter::IteratorSpec::remaining(&walk);
        for guid in it: walk
            invariant
                it.seq() == all,
                forall|g: u64|
                    counts@.contains_key(g) <==> exists|k: int|
                        0 <= k < it.index() && *(#[trigger] all[k]) == g,
                forall|g: u64| counts@.contains_key(g) ==> counts@[g] == 0,
        {
            let _ = counts.insert(*guid, 0);
        }
        let m = Measurement {
            counts,
            previous: BTreeMap::new(),
            progress: BTreeSet::new(),
            movement_starts: BTreeMap::new(),
            lag: Vec::new(),
            routes: Vec::new(),
            movements: Vec::new(),
            deferred_observations: 0,
            accelerated_observations: 0,
            slowest_due: None,
        };
        assert forall|g: u64| counts@.contains_key(g) <==> expected@.contains(g) by {
            if expected@.contains(g) {
                assert(all.unref().to_set().contains(g));
                let k = choose|k: int| 0 <= k < all.unref().len() && all.unref()[k] == g;
                assert(*all[k] == g);
            }
            if counts@.contains_key(g) {
                let k = choose|k: int| 0 <= k < all.len() && *(#[trigger] all[k]) == g;
                assert(all.unref()[k] == g);
                assert(all.unref().to_set().contains(g));
            }
        }
        assert(m@.counts =~= Map::new(|g: u64| expected@.contains(g), |g: u64| 0u64));
        assert(m@.previous =~= Map::empty());
        assert(m@.starts =~= Map::empty());
        assert(m@.progress =~= Set::empty());
        m
    }

    fn displace(&mut self, runner: &Json, guid: u64)
        ensures
            final(self)@ == old(self)@.displaced(runner@, guid),
    {
        let ghost start = self@;
        let gone = match self.movement_starts.get(&guid) {
            None => false,
            Some(begun) => {
                assert(start.starts[guid] == begun@);
                is_replaced(runner, &begun.leg)
            },
        };
        if gone {
            let _ = self.movement_starts.remove(&guid);
            assert(self@.starts =~= start.starts.remove(guid));
        }
    }

    fn arrive(&mut self, runner: &Json, guid: u64, generation: u64, now: i64, travelled: bool) -> (r:
        Result<(), String>)
        ensures
            (final(self)@, told(r)) == old(self)@.arrived(
                runner@,
                guid,
                generation,
                now,
                travelled,
            ),
    {
        let ghost start = self@;
        let progress: Json = match sats::optional(runner, "movement_progress") {
            Err(e) => return Err(e),
            Ok(None) => return Ok(()),
            Ok(Some(progress)) => progress,
        };
        let at: i64 = match sats::signed(&progress, "observed_micros") {
            Err(e) => return Err(e),
            Ok(at) => at,
        };
        let there = match progress.get("arrived") {
            Some(Json::Bool(b)) => *b,
            _ => false,
        };
        if at != now || !there {
            return Ok(());
        }
        match self.movement_starts.remove(&guid) {
            None => {
                assert(self@.starts =~= start.starts);
                Ok(())
            },
            Some(begun) => {
                assert(start.starts[guid] == begun@);
                assert(self@.starts =~= start.starts.remove(guid));
                match place_of(&progress, "x", "y") {
                    Err(e) => Err(e),
                    Ok(_) => {
                        if generation == begun.generation && now > begun.started && travelled
                            && !is_replaced(runner, &begun.leg) {
                            let value: u64 = (now as i128 - begun.started as i128) as u64;
                            self.movements.push(Sample { value, guid });
                        }
                        Ok(())
                    },
                }
            },
        }
    }

    fn route(&mut self, runner: &Json, guid: u64, generation: u64, now: i64) -> (r: Result<
        (),
        String,
    >)
        ensures
            (final(self)@, told(r)) == old(self)@.routed(runner@, guid, generation, now),
    {
        let ghost start = self@;
        let fg = match sats::optional(runner, "foreground") {
            Err(e) => return Err(e),
            Ok(fg) => fg,
        };
        if let Some(f) = &fg {
            let running: Json = sats::field(f, "running");
            if let Some(m) = running.get("Movement") {
                let started: i64 = match sats::signed(f, "started_micros") {
                    Err(e) => return Err(e),
                    Ok(started) => started,
                };
                if started != now {
                    self.displace(runner, guid);
                    self.routes.push(Sample { value: 0, guid });
                    return Ok(());
                }
                let (x, y) = match place_of(m, "from_x", "from_y") {
                    Err(e) => return Err(e),
                    Ok(p) => p,
                };
                let begun = Start { generation, started, leg: leg_walked(f, m), x, y };
                let ghost view = begun@;
                let _ = self.movement_starts.insert(guid, begun);
                assert(self@.starts =~= start.starts.insert(guid, view));
                return match sats::unsigned(runner, "route_expansions") {
                    Err(e) => Err(e),
                    Ok(value) => {
                        self.routes.push(Sample { value, guid });
                        Ok(())
                    },
                };
            }
        }
        let _ = self.movement_starts.remove(&guid);
        assert(self@.starts =~= start.starts.remove(guid));
        self.routes.push(Sample { value: 0, guid });
        Ok(())
    }

    /// Looks at the movement of a runner that was observed at `now`. `travelled` says whether its
    /// place lies apart from where its movement began.
    pub fn movement(&mut self, runner: &Json, guid: u64, now: i64, travelled: bool) -> (r: Result<
        (),
        String,
    >)
        ensures
            (final(self)@, told(r)) == old(self)@.moved(runner@, guid, now, travelled),
    {
        let generation: u64 = match sats::unsigned(runner, "generation") {
            Err(e) => return Err(e),
            Ok(generation) => generation,
        };
        if let Err(e) = self.arrive(runner, guid, generation, now, travelled) {
            return Err(e);
        }
        self.route(runner, guid, generation, now)
    }

    fn count(&mut self, guid: u64, bot: &Json, runner: &Json, moved: bool) -> (r: Result<
        (),
        String,
    >)
        requires
            old(self)@.counts.contains_key(guid) ==> old(self)@.counts[guid] < u64::MAX,
        ensures
            (final(self)@, told(r)) == old(self)@.counted(guid, bot@, runner@, moved),
    {
        let ghost start = self@;
        let so_far: u64 = match self.counts.get(&guid) {
            None => return Err("unstaged measured bot".to_owned()),
            Some(n) => *n,
        };
        let _ = self.counts.insert(guid, so_far + 1);
        assert(self@.counts =~= start.counts.insert(guid, (start.counts[guid] + 1) as u64));
        match sats::unsigned(bot, "scheduler_lag_micros") {
            Err(e) => return Err(e),
            Ok(value) => {
                self.lag.push(Sample { value, guid });
            },
        }
        if let Some(previous) = self.previous.get(&guid) {
            match has_progress(runner, previous, moved) {
                Err(e) => return Err(e),
                Ok(false) => {},
                Ok(true) => {
                    let _ = self.progress.insert(guid);
                },
            }
        }
        Ok(())
    }

    fn serve(
        &mut self,
        guid: u64,
        bot: &Json,
        runner: &Json,
        now: i64,
        measured: bool,
        apart: Apart,
    ) -> (r: Result<(), String>)
        requires
            old(self)@.counts.contains_key(guid) ==> old(self)@.counts[guid] < u64::MAX,
        ensures
            (final(self)@, told(r)) == old(self)@.served(
                guid,
                bot@,
                runner@,
                now,
                measured,
                apart,
            ),
    {
        if measured {
            if let Err(e) = self.count(guid, bot, runner, apart.moved) {
                return Err(e);
            }
            if let Err(e) = self.movement(runner, guid, now, apart.travelled) {
                return Err(e);
            }
        }
        let ghost before = self@;
        let _ = self.previous.insert(guid, runner.clone());
        assert(self@.previous =~= before.previous.insert(guid, runner@));
        Ok(())
    }

    /// The places to compare for each served bot of a pass that is about to be observed.
    pub fn comparisons(&self, pass: &Pass) -> (v: Vec<Comparison>)
        requires
            pass.runners@.len() == pass.processed_guids@.len(),
        ensures
            v@.len() == pass.processed_guids@.len(),
            forall|i: int|
                0 <= i < v@.len() ==> paired((#[trigger] v@[i]).moved) == progress_places(
                    self@,
                    pass.runners@[i]@,
                    pass.processed_guids@[i],
                ) && paired(v@[i].travelled) == arrival_places(
                    self@,
                    pass.runners@[i]@,
                    pass.processed_guids@[i],
                ),
    {
        let mut v: Vec<Comparison> = Vec::new();
        for i in 0..pass.processed_guids.len()
            invariant
                pass.runners@.len() == pass.processed_guids@.len(),
                v@.len() == i,
                forall|j: int|
                    0 <= j < i ==> paired((#[trigger] v@[j]).moved) == progress_places(
                        self@,
                        pass.runners@[j]@,
                        pass.processed_guids@[j],
                    ) && paired(v@[j].travelled) == arrival_places(
                        self@,
                        pass.runners@[j]@,
                        pass.processed_guids@[j],
                    ),
        {
            let guid: u64 = pass.processed_guids[i];
            let runner = &pass.runners[i];
            let mut moved: Option<PlacePair> = None;
            if let Some(previous) = self.previous.get(&guid) {
                if let Ok(places) = movement_places(runner, previous) {
                    moved = places;
                }
            }
            let mut travelled: Option<PlacePair> = None;
            if let Some(begun) = self.movement_starts.get(&guid) {
                if let Ok(Some(progress)) = sats::optional(runner, "movement_progress") {
                    if let Ok((x, y)) = place_of(&progress, "x", "y") {
                        travelled = Some(
                            PlacePair {
                                x,
                                y,
                                from_x: begun.x.clone(),
                                from_y: begun.y.clone(),
                            },
                        );
                    }
                }
            }
            v.push(Comparison { moved, travelled });
        }
        v
    }

    /// Takes a pass in. `apart` says of each served bot how its places compare.
    pub fn observe(&mut self, pass: &Pass, measured: bool, apart: &Vec<Apart>) -> (r: Result<
        (),
        String,
    >)
        requires
            pass.bots@.len() == pass.processed_guids@.len(),
            pass.runners@.len() == pass.processed_guids@.len(),
            apart@.len() == pass.processed_guids@.len(),
            forall|g: u64| #[trigger]
                old(self)@.counts.contains_key(g) ==> old(self)@.counts[g]
                    + pass.processed_guids@.len() <= u64::MAX,
            old(self)@.deferred + pass.deferred_guids@.len() <= u64::MAX,
            old(self)@.accelerated + pass.accelerated_guids@.len() <= u64::MAX,
        ensures
            (final(self)@, told(r)) == old(self)@.observed(pass@, measured, apart@),
    {
        let ghost start = self@;
        for i in 0..pass.processed_guids.len()
            invariant
                start == old(self)@,
                pass.bots@.len() == pass.processed_guids@.len(),
                pass.runners@.len() == pass.processed_guids@.len(),
                apart@.len() == pass.processed_guids@.len(),
                forall|g: u64| #[trigger]
                    self@.counts.contains_key(g) ==> self@.counts[g]
                        + pass.processed_guids@.len() - i <= u64::MAX,
                self@.deferred == start.deferred,
                self@.accelerated == start.accelerated,
                start.all_served(pass@, measured, apart@, i as nat) == (self@, None::<Seq<char>>),
        {
            proof {
                lemma_served_stop(
                    start,
                    pass@,
                    measured,
                    apart@,
                    (i + 1) as nat,
                    pass.processed_guids@.len(),
                );
            }
            if let Err(e) = self.serve(
                pass.processed_guids[i],
                &pass.bots[i],
                &pass.runners[i],
                pass.observed_micros,
                measured,
                apart[i],
            ) {
                return Err(e);
            }
        }
        if measured {
            self.deferred_observations =
            self.deferred_observations + pass.deferred_guids.len() as u64;
            self.accelerated_observations =
            self.accelerated_observations + pass.accelerated_guids.len() as u64;
            if pass.deferred_guids.len() > 0 {
                let replace = match self.slowest_due {
                    None => true,
                    Some(o) => o.lag_micros < pass.oldest_deferred_lag_micros,
                };
                if replace {
                    self.slowest_due = Some(
                        SlowestDue {
                            guid: pass.deferred_guids[0],
                            lag_micros: pass.oldest_deferred_lag_micros,
                            observed_micros: pass.observed_micros,
                            deferred_count: pass.deferred_guids.len(),
                        },
                    );
                }
            }
        }
        Ok(())
    }

    /// Takes in the runner rows of a transaction, so that later ones are compared with them.
    pub fn observe_transaction(&mut self, update: &Json) -> (r: Result<(), String>)
        ensures
            (final(self)@, told(r)) == old(self)@.baseline(movement::new_runners(update@)),
    {
        let ghost start = self@;
        let rows: Vec<Json> = movement::list_at(update, movement::RUNNER, "inserts");
        let ghost rs = movement::new_runners(update@);
        assert(rs.take(0) =~= Seq::<JsonView>::empty());
        for i in 0..rows.len()
            invariant
                start == old(self)@,
                json::json_views(rows@) == rs,
                rs == movement::new_runners(update@),
                start.baseline(rs.take(i as int)) == (self@, None::<Seq<char>>),
        {
            let row = &rows[i];
            let ghost before = self@;
            proof {
                assert(rs.take(i + 1).drop_last() =~= rs.take(i as int));
                assert(rs.take(i + 1).last() == row@);
                lemma_baseline_stop(start, rs, i + 1);
            }
            match sats::unsigned(row, "character_guid") {
                Err(e) => return Err(e),
                Ok(guid) => {
                    self.displace(row, guid);
                    let ghost displaced = self@;
                    let _ = self.previous.insert(guid, row.clone());
                    assert(self@.previous =~= displaced.previous.insert(guid, row@));
                },
            }
        }
        assert(rs.take(rs.len() as int) =~= rs);
        Ok(())
    }
}

proof fn lemma_served_stop(
    m: MeasureView,
    pass: stream::PassView,
    measured: bool,
    apart: Seq<Apart>,
    n: nat,
    all: nat,
)
    requires
        n <= all,
    ensures
        m.all_served(pass, measured, apart, n).1 is Some ==> m.all_served(
            pass,
            measured,
            apart,
            all,
        ) == m.all_served(pass, measured, apart, n),
    decreases all - n,
{
    if n < all {
        lemma_served_stop(m, pass, measured, apart, n + 1, all);
    }
}

proof fn lemma_baseline_stop(m: MeasureView, rows: Seq<JsonView>, n: int)
    requires
        0 <= n <= rows.len(),
    ensures
        m.baseline(rows.take(n)).1 is Some ==> m.baseline(rows) == m.baseline(rows.take(n)),
    decreases rows.len() - n,
{
    if n == rows.len() {
        assert(rows.take(n) =~= rows);
    } else {
        lemma_baseline_stop(m, rows, n + 1);
        assert(rows.take(n + 1).drop_last() =~= rows.take(n));
    }
}

// ------------------------------------------------------------------------------------------
//  What was measured
// ------------------------------------------------------------------------------------------

/// The smallest of some numbers; zero where there is none.
pub open spec fn least(s: Seq<u64>) -> u64
    decreases s.len(),
{
    if s.len() == 0 {
        0
    } else if s.len() == 1 {
        s[0]
    } else if s.last() < least(s.drop_last()) {
        s.last()
    } else {
        least(s.drop_last())
    }
}

/// The largest of some numbers; zero where there is none.
pub open spec fn greatest(s: Seq<u64>) -> u64
    decreases s.len(),
{
    if s.len() == 0 {
        0
    } else if s.last() > greatest(s.drop_last()) {
        s.last()
    } else {
        greatest(s.drop_last())
    }
}

/// The smallest number is at most the largest.
proof fn lemma_least(s: Seq<u64>)
    ensures
        least(s) <= greatest(s),
    decreases s.len(),
{
    if s.len() > 1 {
        lemma_least(s.drop_last());
    }
}

impl MeasureView {
    /// The bots, in ascending order.
    pub open spec fn bots(self) -> Seq<u64> {
        order::ascending(self.counts.dom())
    }

    /// How often each bot was served, in the order of the bots.
    pub open spec fn passes(self) -> Seq<u64> {
        self.bots().map_values(|g: u64| self.counts[g])
    }

    /// The bots that were never served.
    pub open spec fn never_served(self) -> Seq<u64> {
        self.bots().filter(|g: u64| self.counts[g] == 0)
    }

    /// The bots that got nowhere.
    pub open spec fn stuck(self) -> Seq<u64> {
        self.bots().filter(|g: u64| !self.progress.contains(g))
    }

    /// How late a bot may be served: one second for each batch, and one more.
    pub open spec fn lag_bound(self) -> int {
        ((self.counts.len() + 15) as int / 16 + 1) * 1_000_000
    }

    /// Whether no bot was served later than that.
    pub open spec fn lag_kept(self) -> bool {
        forall|i: int| 0 <= i < self.lag.len() ==> (#[trigger] self.lag[i]).value <= self.lag_bound()
    }
}

/// What counts as progress.
pub const PROGRESS_SCOPE: &'static str =
    "new authoritative movement, lost target health, resolved cast or Quest progress fields";

/// What counts as a movement.
pub const MOVEMENT_SCOPE: &'static str =
    "foregrounds started and observed arrived with a changed position inside the measured window";

/// What is verified of the order in which bots are served.
pub const FAIRNESS_SCOPE: &'static str =
    "each pass verifies earliest due order; count spread also reflects damage-triggered scheduling";

/// What was measured.
pub struct MeasureReport {
    pub bot_guids: Vec<u64>,
    pub per_bot_passes: Vec<u64>,
    pub pass_count_spread: u64,
    pub never_processed_guids: Vec<u64>,
    pub no_observed_progress_guids: Vec<u64>,
    pub scheduler_lag_micros: Distribution,
    pub scheduler_lag_bound_micros: u64,
    pub lag_within_bound: bool,
    pub route_expansions: Distribution,
    pub completed_movement_micros: Distribution,
    pub deferred_bot_observations: u64,
    pub accelerated_due_observations: u64,
    pub slowest_due_bot: Option<SlowestDue>,
}

impl Measurement {
    /// What was measured.
    pub fn report(&self) -> (r: MeasureReport)
        requires
            spread::total(self@.lag) <= u64::MAX,
            spread::total(self@.routes) <= u64::MAX,
            spread::total(self@.movements) <= u64::MAX,
            self@.lag_bound() <= u64::MAX,
        ensures
            r.bot_guids@ == self@.bots(),
            r.per_bot_passes@ == self@.passes(),
            r.pass_count_spread == greatest(self@.passes()) - least(self@.passes()),
            r.never_processed_guids@ == self@.never_served(),
            r.no_observed_progress_guids@ == self@.stuck(),
            r.scheduler_lag_micros == spread::spread(self@.lag),
            r.scheduler_lag_bound_micros == self@.lag_bound(),
            r.lag_within_bound == self@.lag_kept(),
            r.route_expansions == spread::spread(self@.routes),
            r.completed_movement_micros == spread::spread(self@.movements),
            r.deferred_bot_observations == self@.deferred,
            r.accelerated_due_observations == self@.accelerated,
            r.slowest_due_bot == self@.slowest,
    {
        let bot_guids: Vec<u64> = order::keys_of(&self.counts);
        let mut per_bot_passes: Vec<u64> = Vec::new();
        let mut never: Vec<u64> = Vec::new();
        let mut stuck: Vec<u64> = Vec::new();
        let mut low: u64 = 0;
        let mut high: u64 = 0;
        let ghost unserved = |g: u64| self@.counts[g] == 0;
        let ghost nowhere = |g: u64| !self@.progress.contains(g);
        assert(bot_guids@.take(0) =~= Seq::<u64>::empty());
        assert(self@.passes().take(0) =~= Seq::<u64>::empty());
        proof {
            reveal(Seq::filter);
        }
        for i in 0..bot_guids.len()
            invariant
                bot_guids@ == self@.bots(),
                order::lists(bot_guids@, self@.counts.dom()),
                unserved == (|g: u64| self@.counts[g] == 0),
                nowhere == (|g: u64| !self@.progress.contains(g)),
                per_bot_passes@ == self@.passes().take(i as int),
                never@ == bot_guids@.take(i as int).filter(unserved),
                stuck@ == bot_guids@.take(i as int).filter(nowhere),
                low == least(self@.passes().take(i as int)),
                high == greatest(self@.passes().take(i as int)),
        {
            let guid: u64 = bot_guids[i];
            assert(bot_guids@.contains(guid));
            let n: u64 = match self.counts.get(&guid) {
                Some(n) => *n,
                None => 0,
            };
            proof {
                reveal(Seq::filter);
                assert(bot_guids@.take(i + 1).drop_last() =~= bot_guids@.take(i as int));
                assert(self@.passes().take(i + 1).drop_last() =~= self@.passes().take(i as int));
                assert(self@.passes()[i as int] == n);
            }
            per_bot_passes.push(n);
            assert(per_bot_passes@ =~= self@.passes().take(i + 1));
            if n == 0 {
                never.push(guid);
            }
            if !self.progress.contains(&guid) {
                stuck.push(guid);
            }
            if i == 0 || n < low {
                low = n;
            }
            if n > high {
                high = n;
            }
        }
        assert(bot_guids@.take(bot_guids@.len() as int) =~= bot_guids@);
        assert(self@.passes().take(bot_guids@.len() as int) =~= self@.passes());
        proof {
            lemma_least(self@.passes());
        }
        let n: usize = self.counts.len();
        let batches: u64 = (n / 16) as u64 + if n % 16 == 0 { 0 } else { 1 };
        assert(batches == (n + 15) / 16);
        let bound: u64 = (batches + 1) * 1_000_000;
        let mut within = true;
        let mut i: usize = 0;
        while i < self.lag.len() && within
            invariant
                i <= self.lag@.len(),
                bound == self@.lag_bound(),
                within ==> forall|j: int|
                    0 <= j < i ==> (#[trigger] self.lag@[j]).value <= bound,
                !within ==> !self@.lag_kept(),
            decreases self.lag.len() - i,
        {
            if self.lag[i].value > bound {
                assert(self@.lag[i as int].value > self@.lag_bound());
                within = false;
            }
            i = i + 1;
        }
        MeasureReport {
            bot_guids,
            per_bot_passes,
            pass_count_spread: high - low,
            never_processed_guids: never,
            no_observed_progress_guids: stuck,
            scheduler_lag_micros: spread::distribution(&self.lag),
            scheduler_lag_bound_micros: bound,
            lag_within_bound: within,
            route_expansions: spread::distribution(&self.routes),
            completed_movement_micros: spread::distribution(&self.movements),
            deferred_bot_observations: self.deferred_observations,
            accelerated_due_observations: self.accelerated_observations,
            slowest_due_bot: self.slowest_due,
        }
    }
}

impl MeasureView {
    /// What every measurement keeps: only bots that were served got anywhere.
    pub open spec fn consistent(self) -> bool {
        forall|g: u64| #[trigger]
            self.progress.contains(g) ==> self.counts.contains_key(g) && self.counts[g] > 0
    }
}

/// Progress is only ever reported of bots that were served in the measured window.
pub proof fn only_served_bots_progress(
    m: MeasureView,
    guid: u64,
    bot: JsonView,
    runner: JsonView,
    now: i64,
    measured: bool,
    apart: Apart,
)
    requires
        m.consistent(),
        m.counts.contains_key(guid) ==> m.counts[guid] < u64::MAX,
    ensures
        m.served(guid, bot, runner, now, measured, apart).0.consistent(),
{
    let after = m.served(guid, bot, runner, now, measured, apart).0;
    assert forall|g: u64| #[trigger] after.progress.contains(g) implies after.counts.contains_key(g)
        && after.counts[g] > 0 by {
        if g != guid {
            assert(m.progress.contains(g));
        }
    }
}

/// Outside the measured window nothing is counted: only what later observations are compared with
/// moves on.
pub proof fn warmup_counts_nothing(m: MeasureView, pass: stream::PassView, apart: Seq<Apart>)
    ensures
        ({
            let after = m.observed(pass, false, apart).0;
            after == MeasureView { previous: after.previous, ..m }
        }),
        m.observed(pass, false, apart).1 is None,
{
    lemma_warmup(m, pass, apart, pass.processed_guids.len());
}

proof fn lemma_warmup(m: MeasureView, pass: stream::PassView, apart: Seq<Apart>, n: nat)
    ensures
        ({
            let (after, refused) = m.all_served(pass, false, apart, n);
            refused is None && after == MeasureView { previous: after.previous, ..m }
        }),
    decreases n,
{
    if n > 0 {
        lemma_warmup(m, pass, apart, (n - 1) as nat);
    }
}

/// A duration is measured of one movement from its start to its arrival: the runner's generation
/// is the same, the bot has travelled, and no other leg was running when it arrived.
pub proof fn a_duration_is_of_one_movement(
    m: MeasureView,
    runner: JsonView,
    guid: u64,
    now: i64,
    travelled: bool,
)
    ensures
        ({
            let after = m.moved(runner, guid, now, travelled).0;
            after.movements != m.movements ==> {
                let start = m.starts[guid];
                &&& m.starts.contains_key(guid)
                &&& sats::unsigned_field(runner, "generation"@) == Ok::<u64, Seq<char>>(
                    start.generation,
                )
                &&& now > start.started
                &&& travelled
                &&& !replaced(runner, start.leg)
                &&& after.movements == m.movements.push(
                    Sample { value: (now - start.started) as u64, guid },
                )
            }
        }),
{
}

/// A movement that is replaced by another never arrives: neither in the pass that shows it, nor in
/// a later one.
pub proof fn a_replaced_movement_has_no_duration(
    m: MeasureView,
    runner: JsonView,
    guid: u64,
    now: i64,
    travelled: bool,
)
    requires
        m.starts.contains_key(guid),
        replaced(runner, m.starts[guid].leg),
        m.moved(runner, guid, now, travelled).1 is None,
    ensures
        ({
            let after = m.moved(runner, guid, now, travelled).0;
            &&& after.movements == m.movements
            &&& after.starts.contains_key(guid) ==> after.starts[guid].leg != m.starts[guid].leg
        }),
{
}

/// The slowest due bot only ever gives way to one that waited longer.
pub proof fn the_slowest_bot_is_kept(old_slowest: SlowestDue, pass: stream::PassView)
    ensures
        slower(Some(old_slowest), pass) matches Some(s) && s.lag_micros >= old_slowest.lag_micros,
        pass.deferred_guids.len() > 0 ==> slower(Some(old_slowest), pass)->0.lag_micros
            >= pass.oldest_deferred_lag_micros,
{
}

// ------------------------------------------------------------------------------------------
//  What counts as progress
// ------------------------------------------------------------------------------------------

/// Under a key, a row shows an observation that was made at a time.
pub open spec fn shows(row: JsonView, key: Seq<char>, time: i64) -> bool {
    row.field(key) matches JsonView::Object(m) && m.len() == 1 && m[0].0 == "some"@ && (
    m[0].1.field("observed_micros"@) == JsonView::Negative(time) || (time >= 0
        && m[0].1.field("observed_micros"@) == JsonView::Unsigned(time as u64)))
}

/// Under a key, a row shows that nothing was observed.
pub open spec fn shows_nothing(row: JsonView, key: Seq<char>) -> bool {
    row.field(key) matches JsonView::Object(m) && m.len() == 1 && m[0].0 == "none"@ && (m[0].1
        == JsonView::Array(Seq::empty()) || m[0].1 == JsonView::Object(Seq::empty()))
}

/// Under a key, a row can be read.
pub open spec fn legible(row: JsonView, key: Seq<char>) -> bool {
    shows_nothing(row, key) || exists|t: i64| shows(row, key, t)
}

/// Under a key, a row shows something that an earlier row does not: an observation where there was
/// none, or a later one.
pub open spec fn shows_more(current: JsonView, previous: JsonView, key: Seq<char>) -> bool {
    exists|t: i64| #[trigger]
        shows(current, key, t) && ((shows_nothing(previous, key) && t > 0) || exists|u: i64|
            #[trigger] shows(previous, key, u) && t > u)
}

/// Two members of a row are finite numbers.
pub open spec fn on_the_ground(row: JsonView, x: Seq<char>, y: Seq<char>) -> bool {
    row.field(x).finite_number() && row.field(y).finite_number()
}

/// An earlier row says where the bot was: at its last observed movement, or else where the movement
/// in progress began.
pub open spec fn knows_place(row: JsonView) -> bool {
    ||| row.field("movement_progress"@) matches JsonView::Object(m) && m.len() == 1 && m[0].0
        == "some"@ && on_the_ground(m[0].1, "x"@, "y"@)
    ||| shows_nothing(row, "movement_progress"@) && (row.field("foreground"@) matches JsonView::Object(m)
        && m.len() == 1 && m[0].0 == "some"@ && (m[0].1.field("running"@).get("Movement"@) matches Some(leg)
        && on_the_ground(leg, "from_x"@, "from_y"@)))
}

/// An earlier row says that nothing is known of where the bot was.
pub open spec fn knows_no_place(row: JsonView) -> bool {
    shows_nothing(row, "movement_progress"@) && (shows_nothing(row, "foreground"@) || (row.field(
        "foreground"@,
    ) matches JsonView::Object(m) && m.len() == 1 && m[0].0 == "some"@ && m[0].1.field(
        "running"@,
    ).get("Movement"@) is None))
}

/// A credit for a quest, and when it was observed.
pub open spec fn credits(row: JsonView, quest: u64, time: i64) -> bool {
    row.field("quest"@) == JsonView::Unsigned(quest) && (row.field("observed_micros"@)
        == JsonView::Negative(time) || (time >= 0 && row.field("observed_micros"@)
        == JsonView::Unsigned(time as u64)))
}

/// A row is a credit for some quest.
pub open spec fn is_credit(row: JsonView) -> bool {
    exists|q: u64, t: i64| credits(row, q, t)
}

/// Every row of a list is a credit for a quest.
pub open spec fn all_credits(quests: Seq<JsonView>) -> bool {
    forall|i: int| 0 <= i < quests.len() ==> is_credit(#[trigger] quests[i])
}

/// A quest was credited later than before: nothing was known of it, or its first credit is earlier.
pub open spec fn credited_since(quests: Seq<JsonView>, before: Seq<JsonView>) -> bool {
    exists|i: int, q: u64, t: i64|
        0 <= i < quests.len() && #[trigger] credits(quests[i], q, t) && credited_after(before, q, t)
}

/// A credit at a time is later than what is known of a quest.
pub open spec fn credited_after(before: Seq<JsonView>, quest: u64, time: i64) -> bool {
    ||| time > 0 && forall|j: int|
        0 <= j < before.len() ==> (#[trigger] before[j]).field("quest"@) != JsonView::Unsigned(quest)
    ||| exists|j: int, u: i64|
        {
            &&& 0 <= j < before.len()
            &&& #[trigger] credits(before[j], quest, u)
            &&& time > u
            &&& forall|k: int|
                0 <= k < j ==> (#[trigger] before[k]).field("quest"@) != JsonView::Unsigned(quest)
        }
}

proof fn lemma_words()
    ensures
        "some"@ != "none"@,
{
    reveal_strlit("some");
    reveal_strlit("none");
    assert("some"@[0] == 's' && "none"@[0] == 'n');
}

proof fn lemma_shown(row: JsonView, key: Seq<char>)
    requires
        row.field(key) matches JsonView::Object(m) && m.len() == 1,
    ensures
        ({
            let m = row.field(key)->Object_0;
            &&& m[0].0 == "some"@ ==> sats::option_field(row, key) == Ok::<
                Option<JsonView>,
                Seq<char>,
            >(Some(m[0].1))
            &&& m[0].0 == "none"@ && sats::unit(m[0].1) ==> sats::option_field(row, key) == Ok::<
                Option<JsonView>,
                Seq<char>,
            >(None)
        }),
{
    lemma_words();
    reveal_with_fuel(json::member, 3);
}

proof fn lemma_newer(current: JsonView, previous: JsonView, key: Seq<char>)
    requires
        legible(current, key),
        legible(previous, key),
    ensures
        sats::newer_field(current, previous, key) == Ok::<bool, Seq<char>>(
            shows_more(current, previous, key),
        ),
{
    lemma_words();
    lemma_shown(current, key);
    lemma_shown(previous, key);
    if shows_nothing(current, key) {
        assert(!shows_more(current, previous, key));
    } else {
        let t = choose|t: i64| shows(current, key, t);
        if !shows_nothing(previous, key) {
            let u = choose|u: i64| shows(previous, key, u);
            assert(shows(previous, key, u));
            assert(shows(current, key, t));
            assert(t > u ==> shows_more(current, previous, key));
        } else {
            assert(t > 0 ==> shows_more(current, previous, key));
        }
    }
}

proof fn lemma_prior_quest(before: Seq<JsonView>, quest: u64, time: i64)
    requires
        all_credits(before),
    ensures
        prior_quest_time(before, quest) matches Ok(u) && (time > u <==> credited_after(
            before,
            quest,
            time,
        )),
    decreases before.len(),
{
    if before.len() > 0 {
        assert(is_credit(before[0]));
        let (q, t) = choose|q: u64, t: i64| credits(before[0], q, t);
        let rest = before.skip(1);
        assert forall|i: int| 0 <= i < rest.len() implies is_credit(#[trigger] rest[i]) by {
            assert(rest[i] == before[i + 1]);
        }
        lemma_prior_quest(rest, quest, time);
        if q == quest {
            assert(credits(before[0], quest, t));
            if credited_after(before, quest, time) && time <= t {
                assert(before[0].field("quest"@) == JsonView::Unsigned(quest));
            }
        } else {
            if credited_after(rest, quest, time) {
                if exists|j: int, u: i64|
                    {
                        &&& 0 <= j < rest.len()
                        &&& #[trigger] credits(rest[j], quest, u)
                        &&& time > u
                        &&& forall|k: int|
                            0 <= k < j ==> (#[trigger] rest[k]).field("quest"@)
                                != JsonView::Unsigned(quest)
                    } {
                    let (j, u) = choose|j: int, u: i64|
                        {
                            &&& 0 <= j < rest.len()
                            &&& #[trigger] credits(rest[j], quest, u)
                            &&& time > u
                            &&& forall|k: int|
                                0 <= k < j ==> (#[trigger] rest[k]).field("quest"@)
                                    != JsonView::Unsigned(quest)
                        };
                    assert(credits(before[j + 1], quest, u));
                    assert forall|k: int| 0 <= k < j + 1 implies (#[trigger] before[k]).field(
                        "quest"@,
                    ) != JsonView::Unsigned(quest) by {
                        if k > 0 {
                            assert(rest[k - 1] == before[k]);
                        }
                    }
                } else {
                    assert forall|j: int| 0 <= j < before.len() implies (
                    #[trigger] before[j]).field("quest"@) != JsonView::Unsigned(quest) by {
                        if j > 0 {
                            assert(rest[j - 1] == before[j]);
                        }
                    }
                }
            }
            if credited_after(before, quest, time) {
                if exists|j: int, u: i64|
                    {
                        &&& 0 <= j < before.len()
                        &&& #[trigger] credits(before[j], quest, u)
                        &&& time > u
                        &&& forall|k: int|
                            0 <= k < j ==> (#[trigger] before[k]).field("quest"@)
                                != JsonView::Unsigned(quest)
                    } {
                    let (j, u) = choose|j: int, u: i64|
                        {
                            &&& 0 <= j < before.len()
                            &&& #[trigger] credits(before[j], quest, u)
                            &&& time > u
                            &&& forall|k: int|
                                0 <= k < j ==> (#[trigger] before[k]).field("quest"@)
                                    != JsonView::Unsigned(quest)
                        };
                    assert(j > 0);
                    assert(rest[j - 1] == before[j]);
                    assert(credits(rest[j - 1], quest, u));
                    assert forall|k: int| 0 <= k < j - 1 implies (#[trigger] rest[k]).field(
                        "quest"@,
                    ) != JsonView::Unsigned(quest) by {
                        assert(rest[k] == before[k + 1]);
                    }
                } else {
                    assert forall|j: int| 0 <= j < rest.len() implies (#[trigger] rest[j]).field(
                        "quest"@,
                    ) != JsonView::Unsigned(quest) by {
                        assert(rest[j] == before[j + 1]);
                    }
                }
            }
        }
    }
}

proof fn lemma_quests(quests: Seq<JsonView>, before: Seq<JsonView>)
    requires
        all_credits(quests),
        all_credits(before),
    ensures
        quests_newer(quests, before) == Ok::<bool, Seq<char>>(credited_since(quests, before)),
    decreases quests.len(),
{
    if quests.len() > 0 {
        let n = quests.len() - 1;
        let rest = quests.drop_last();
        assert forall|i: int| 0 <= i < rest.len() implies is_credit(#[trigger] rest[i]) by {
            assert(rest[i] == quests[i]);
        }
        lemma_quests(rest, before);
        assert(is_credit(quests[n]));
        let (q, t) = choose|q: u64, t: i64| credits(quests[n], q, t);
        lemma_prior_quest(before, q, t);
        if credited_since(rest, before) {
            let (i, p, s) = choose|i: int, p: u64, s: i64|
                0 <= i < rest.len() && #[trigger] credits(rest[i], p, s) && credited_after(
                    before,
                    p,
                    s,
                );
            assert(credits(quests[i], p, s));
        } else if credited_since(quests, before) {
            let (i, p, s) = choose|i: int, p: u64, s: i64|
                0 <= i < quests.len() && #[trigger] credits(quests[i], p, s) && credited_after(
                    before,
                    p,
                    s,
                );
            if i < n {
                assert(credits(rest[i], p, s));
            }
        }
    }
}

/// Each kind of new observation is progress by itself, and nothing else is. Where the rows can be
/// read, a bot got somewhere just if it took health from its target, resolved a cast or was
/// credited for a quest later than was known, or if it was seen moving later than was known, away
/// from where it was known to be.
pub proof fn each_new_observation_is_progress(
    current: JsonView,
    previous: JsonView,
    moved: bool,
    quests: Seq<JsonView>,
    before: Seq<JsonView>,
)
    requires
        legible(current, "movement_progress"@) && legible(previous, "movement_progress"@),
        legible(current, "combat_progress"@) && legible(previous, "combat_progress"@),
        legible(current, "cast_progress"@) && legible(previous, "cast_progress"@),
        current.field("quest_progress"@) == JsonView::Array(quests),
        previous.field("quest_progress"@) == JsonView::Array(before),
        all_credits(quests) && all_credits(before),
        knows_place(previous) || knows_no_place(previous),
        shows_nothing(current, "movement_progress"@) || on_the_ground(
            current.field("movement_progress"@)->Object_0[0].1,
            "x"@,
            "y"@,
        ),
    ensures
        progressed(current, previous, moved) == Ok::<bool, Seq<char>>(
            (moved && knows_place(previous) && shows_more(
                current,
                previous,
                "movement_progress"@,
            )) || shows_more(current, previous, "combat_progress"@) || shows_more(
                current,
                previous,
                "cast_progress"@,
            ) || credited_since(quests, before),
        ),
{
    lemma_words();
    lemma_newer(current, previous, "movement_progress"@);
    lemma_newer(current, previous, "combat_progress"@);
    lemma_newer(current, previous, "cast_progress"@);
    lemma_quests(quests, before);
    lemma_shown(current, "movement_progress"@);
    lemma_shown(previous, "movement_progress"@);
    if previous.field("foreground"@) is Object && previous.field("foreground"@)->Object_0.len() == 1 {
        lemma_shown(previous, "foreground"@);
    }
}

// ------------------------------------------------------------------------------------------
//  What a window adds up to
// ------------------------------------------------------------------------------------------

/// How often a bot is among some.
pub open spec fn times(guids: Seq<u64>, g: u64) -> nat
    decreases guids.len(),
{
    if guids.len() == 0 {
        0
    } else {
        times(guids.drop_last(), g) + if guids.last() == g {
            1nat
        } else {
            0nat
        }
    }
}

proof fn lemma_counted_served(
    m: MeasureView,
    pass: stream::PassView,
    apart: Seq<Apart>,
    n: nat,
    g: u64,
    i: int,
)
    requires
        n <= pass.processed_guids.len(),
        m.all_served(pass, true, apart, n).1 is None,
        forall|h: u64| #[trigger] m.counts.contains_key(h) ==> m.counts[h] + n <= u64::MAX,
    ensures
        ({
            let after = m.all_served(pass, true, apart, n).0;
            &&& after.counts.dom() == m.counts.dom()
            &&& m.counts.contains_key(g) ==> after.counts[g] == m.counts[g] + times(
                pass.processed_guids.take(n as int),
                g,
            )
            &&& times(pass.processed_guids.take(n as int), g) <= n
            &&& after.lag.len() == m.lag.len() + n
            &&& after.routes.len() == m.routes.len() + n
            &&& after.lag.take(m.lag.len() as int) == m.lag
            &&& 0 <= i < n ==> after.lag[m.lag.len() + i].guid == pass.processed_guids[i]
                && pass.bots[i].field("scheduler_lag_micros"@) == JsonView::Unsigned(
                after.lag[m.lag.len() + i].value,
            )
            &&& 0 <= i < n ==> after.routes[m.routes.len() + i].guid == pass.processed_guids[i]
            &&& after.deferred == m.deferred && after.accelerated == m.accelerated
                && after.slowest == m.slowest
        }),
    decreases n,
{
    let ps = pass.processed_guids;
    if n == 0 {
        assert(m.lag.take(m.lag.len() as int) =~= m.lag);
    } else {
        let k = (n - 1) as nat;
        let before = m.all_served(pass, true, apart, k).0;
        lemma_counted_served(m, pass, apart, k, g, i);
        lemma_counted_served(m, pass, apart, k, ps[k as int], i);
        let after = m.all_served(pass, true, apart, n).0;
        assert(ps.take(n as int).drop_last() =~= ps.take(k as int));
        assert(ps.take(n as int).last() == ps[k as int]);
        assert(before.counts.contains_key(ps[k as int]));
        assert(after.counts.dom() =~= m.counts.dom());
        assert(after.lag.take(m.lag.len() as int) =~= m.lag);
        assert(after.lag.take(before.lag.len() as int) =~= before.lag);
        assert(forall|j: int| 0 <= j < before.lag.len() ==> after.lag[j] == before.lag[j]);
        assert(forall|j: int| 0 <= j < before.routes.len() ==> after.routes[j] == before.routes[j]);
    }
}

/// A measured pass counts every bot that it served, once for each time, and no other. It adds one
/// lag for each, which is the one that the bot's row gives, and one measure of its route work; and it
/// adds how many bots were deferred and how many were accelerated.
pub proof fn a_pass_counts_every_served_bot(
    m: MeasureView,
    pass: stream::PassView,
    apart: Seq<Apart>,
    g: u64,
    i: int,
)
    requires
        m.observed(pass, true, apart).1 is None,
        forall|h: u64| #[trigger]
            m.counts.contains_key(h) ==> m.counts[h] + pass.processed_guids.len() <= u64::MAX,
    ensures
        ({
            let after = m.observed(pass, true, apart).0;
            let n = pass.processed_guids.len();
            &&& after.counts.dom() == m.counts.dom()
            &&& m.counts.contains_key(g) ==> after.counts[g] == m.counts[g] + times(
                pass.processed_guids,
                g,
            )
            &&& after.lag.len() == m.lag.len() + n
            &&& after.routes.len() == m.routes.len() + n
            &&& 0 <= i < n ==> after.lag[m.lag.len() + i].guid == pass.processed_guids[i]
                && pass.bots[i].field("scheduler_lag_micros"@) == JsonView::Unsigned(
                after.lag[m.lag.len() + i].value,
            )
            &&& after.deferred == m.deferred + pass.deferred_guids.len()
            &&& after.accelerated == m.accelerated + pass.accelerated_guids.len()
        }),
{
    let n = pass.processed_guids.len();
    lemma_counted_served(m, pass, apart, n, g, i);
    assert(pass.processed_guids.take(n as int) =~= pass.processed_guids);
}

/// A bot that is served and got somewhere since it was last seen is among those that did from then
/// on; one that did not changes nothing about them, and neither does its service change anything
/// about the others. What it is compared with next is what was seen now.
pub proof fn progress_is_noted_when_it_is_made(
    m: MeasureView,
    guid: u64,
    bot: JsonView,
    runner: JsonView,
    now: i64,
    apart: Apart,
    other: u64,
)
    requires
        m.served(guid, bot, runner, now, true, apart).1 is None,
    ensures
        ({
            let after = m.served(guid, bot, runner, now, true, apart).0;
            &&& after.progress.contains(guid) <==> m.progress.contains(guid) || (
            m.previous.contains_key(guid) && progressed(runner, m.previous[guid], apart.moved)
                == Ok::<bool, Seq<char>>(true))
            &&& other != guid ==> (after.progress.contains(other) <==> m.progress.contains(other))
            &&& after.previous.contains_key(guid) && after.previous[guid] == runner
            &&& other != guid ==> (after.previous.contains_key(other) <==> m.previous.contains_key(
                other,
            )) && after.previous[other] == m.previous[other] && (after.starts.contains_key(other)
                <==> m.starts.contains_key(other)) && after.starts[other] == m.starts[other]
        }),
{
}

/// A runner's row shows a movement that began at a time, of a generation, from a place.
pub open spec fn begins_to_move(row: JsonView, generation: u64, time: i64) -> bool {
    &&& row.field("generation"@) == JsonView::Unsigned(generation)
    &&& shows_nothing(row, "movement_progress"@)
    &&& row.field("foreground"@) matches JsonView::Object(m) && m.len() == 1 && m[0].0 == "some"@
        && m[0].1.field("started_micros"@).signed() == Some(time) && (m[0].1.field(
        "running"@,
    ).get("Movement"@) matches Some(leg) && on_the_ground(leg, "from_x"@, "from_y"@))
    &&& row.field("route_expansions"@) is Unsigned
}

/// A runner's row shows that its movement arrived at a time, of a generation.
pub open spec fn arrives(row: JsonView, generation: u64, time: i64) -> bool {
    &&& row.field("generation"@) == JsonView::Unsigned(generation)
    &&& shows(row, "movement_progress"@, time)
    &&& row.field("movement_progress"@)->Object_0[0].1.field("arrived"@) == JsonView::Bool(true)
    &&& on_the_ground(row.field("movement_progress"@)->Object_0[0].1, "x"@, "y"@)
    &&& shows_nothing(row, "foreground"@)
}

/// A movement is timed from its start to its arrival: a bot that begins to move and later arrives
/// somewhere else, in the same generation, adds the time between.
pub proof fn a_movement_is_timed_from_start_to_arrival(
    m: MeasureView,
    guid: u64,
    first: JsonView,
    start: i64,
    second: JsonView,
    end: i64,
    generation: u64,
)
    requires
        begins_to_move(first, generation, start),
        arrives(second, generation, end),
        start < end,
    ensures
        ({
            let (began, refused) = m.moved(first, guid, start, false);
            let (done, refused_then) = began.moved(second, guid, end, true);
            &&& refused is None && refused_then is None
            &&& began.movements == m.movements
            &&& began.starts.contains_key(guid)
            &&& done.movements == m.movements.push(Sample { value: (end - start) as u64, guid })
            &&& !done.starts.contains_key(guid)
            &&& first.field("route_expansions"@) == JsonView::Unsigned(began.routes.last().value)
            &&& began.routes == m.routes.push(began.routes.last())
            &&& done.routes == began.routes.push(Sample { value: 0, guid })
        }),
{
    lemma_words();
    lemma_shown(first, "movement_progress"@);
    lemma_shown(first, "foreground"@);
    lemma_shown(second, "movement_progress"@);
    lemma_shown(second, "foreground"@);
}

/// A bot that arrives where it began, or in another generation, adds no time.
pub proof fn only_a_walk_is_timed(
    m: MeasureView,
    guid: u64,
    row: JsonView,
    generation: u64,
    end: i64,
    travelled: bool,
)
    requires
        arrives(row, generation, end),
        m.starts.contains_key(guid),
        !travelled || m.starts[guid].generation != generation || end <= m.starts[guid].started,
    ensures
        m.moved(row, guid, end, travelled).0.movements == m.movements,
        !m.moved(row, guid, end, travelled).0.starts.contains_key(guid),
        m.moved(row, guid, end, travelled).1 is None,
{
    lemma_words();
    lemma_shown(row, "movement_progress"@);
    lemma_shown(row, "foreground"@);
}

/// After a transaction a bot is compared with the last row that it gave of it.
pub proof fn the_last_row_is_the_baseline(m: MeasureView, rows: Seq<JsonView>, row: JsonView, guid: u64, other: u64)
    requires
        m.baseline(rows).1 is None,
        row.field("character_guid"@) == JsonView::Unsigned(guid),
    ensures
        m.baseline(rows.push(row)).1 is None,
        m.baseline(rows.push(row)).0.previous.contains_key(guid),
        m.baseline(rows.push(row)).0.previous[guid] == row,
        other != guid ==> m.baseline(rows.push(row)).0.previous[other] == m.baseline(
            rows,
        ).0.previous[other],
        m.baseline(rows.push(row)).0.counts == m.baseline(rows).0.counts,
        m.baseline(rows.push(row)).0.progress == m.baseline(rows).0.progress,
        m.baseline(rows.push(row)).0.movements == m.baseline(rows).0.movements,
        m.baseline(rows.push(row)).0.lag == m.baseline(rows).0.lag,
        m.baseline(rows.push(row)).0.routes == m.baseline(rows).0.routes,
{
    assert(rows.push(row).drop_last() =~= rows);
}

/// The smallest and the largest of some numbers are among them, and no number lies outside.
pub proof fn the_spread_takes_every_number_in(s: Seq<u64>)
    requires
        s.len() > 0,
    ensures
        s.contains(least(s)) && s.contains(greatest(s)),
        forall|i: int| 0 <= i < s.len() ==> least(s) <= #[trigger] s[i] <= greatest(s),
    decreases s.len(),
{
    let rest = s.drop_last();
    assert(s[s.len() - 1] == s.last());
    if rest.len() > 0 {
        the_spread_takes_every_number_in(rest);
        let i = choose|i: int| 0 <= i < rest.len() && rest[i] == least(rest);
        assert(s[i] == least(rest));
        let j = choose|j: int| 0 <= j < rest.len() && rest[j] == greatest(rest);
        assert(s[j] == greatest(rest));
        assert forall|k: int| 0 <= k < s.len() implies least(s) <= #[trigger] s[k] <= greatest(s) by {
            if k < rest.len() {
                assert(rest[k] == s[k]);
            }
        }
    } else {
        assert(greatest(rest) == 0);
        assert(s[0] == least(s));
        assert(s[0] == greatest(s));
    }
}

/// The bots that were never served are those that count nothing, and those that got nowhere are
/// those without progress.
pub proof fn every_bot_is_listed_where_it_belongs(m: MeasureView, g: u64)
    requires
        m.counts.dom().finite(),
    ensures
        m.bots().contains(g) <==> m.counts.contains_key(g),
        m.never_served().contains(g) <==> m.counts.contains_key(g) && m.counts[g] == 0,
        m.stuck().contains(g) <==> m.counts.contains_key(g) && !m.progress.contains(g),
{
    order::lemma_ascending_exists(m.counts.dom());
    lemma_filtered(m.bots(), |x: u64| m.counts[x] == 0, g);
    lemma_filtered(m.bots(), |x: u64| !m.progress.contains(x), g);
}

proof fn lemma_filtered(s: Seq<u64>, keep: spec_fn(u64) -> bool, x: u64)
    ensures
        s.filter(keep).contains(x) <==> s.contains(x) && keep(x),
    decreases s.len(),
{
    reveal(Seq::filter);
    if s.len() > 0 {
        let rest = s.drop_last();
        lemma_filtered(rest, keep, x);
        let kept = rest.filter(keep);
        assert(s[s.len() - 1] == s.last());
        if rest.contains(x) {
            let i = choose|i: int| 0 <= i < rest.len() && rest[i] == x;
            assert(s[i] == x);
        }
        if s.contains(x) && x != s.last() {
            let i = choose|i: int| 0 <= i < s.len() && s[i] == x;
            assert(rest[i] == x);
        }
        if keep(s.last()) {
            let all = kept.push(s.last());
            assert(s.filter(keep) == all);
            assert(all[all.len() - 1] == s.last());
            if kept.contains(x) {
                let i = choose|i: int| 0 <= i < kept.len() && kept[i] == x;
                assert(all[i] == x);
            }
            if all.contains(x) && x != s.last() {
                let i = choose|i: int| 0 <= i < all.len() && all[i] == x;
                assert(kept[i] == x);
            }
        }
    }
}

/// Sixteen bots are served in a second: the bound of the lag is one second more than it takes to
/// serve every bot once, and no less.
pub proof fn the_lag_bound_leaves_one_second(m: MeasureView)
    ensures
        m.lag_bound() % 1_000_000 == 0,
        16 * (m.lag_bound() / 1_000_000 - 1) >= m.counts.len(),
        16 * (m.lag_bound() / 1_000_000 - 2) < m.counts.len(),
{
    let k = (m.counts.len() + 15) as int / 16 + 1;
    assert((k * 1_000_000) / 1_000_000 == k);
    assert((k * 1_000_000) % 1_000_000 == 0);
}

/// The slowest due bot after a pass: where no bot was deferred, or the oldest waited no longer than
/// the slowest so far, it stays; else it is the first that was deferred, as the pass gives it.
pub proof fn the_slowest_bot_gives_way_to_a_slower(o: SlowestDue, pass: stream::PassView)
    requires
        pass.deferred_guids.len() <= usize::MAX,
    ensures
        pass.deferred_guids.len() == 0 || pass.oldest_deferred_lag_micros <= o.lag_micros ==> slower(
            Some(o),
            pass,
        ) == Some(o),
        pass.deferred_guids.len() == 0 ==> slower(None, pass) is None,
        pass.deferred_guids.len() > 0 ==> (slower(None, pass) matches Some(s) && s.guid
            == pass.deferred_guids[0] && s.lag_micros == pass.oldest_deferred_lag_micros
            && s.observed_micros == pass.observed_micros && s.deferred_count
            == pass.deferred_guids.len()),
        pass.deferred_guids.len() > 0 && pass.oldest_deferred_lag_micros > o.lag_micros ==> slower(
            Some(o),
            pass,
        ) == slower(None, pass),
{
}

/// The lag is kept where no bot was served later than the bound: one more sample at the bound or below
/// does not matter, and one above it does, for good.
pub proof fn the_lag_is_kept_up_to_the_bound(m: MeasureView, s: Sample)
    ensures
        m.lag.len() == 0 ==> m.lag_kept(),
        (MeasureView { lag: m.lag.push(s), ..m }).lag_kept() <==> m.lag_kept() && s.value
            <= m.lag_bound(),
{
    let n = MeasureView { lag: m.lag.push(s), ..m };
    assert(n.lag_bound() == m.lag_bound());
    if n.lag_kept() {
        assert(n.lag[m.lag.len() as int] == s);
        assert forall|i: int| 0 <= i < m.lag.len() implies (#[trigger] m.lag[i]).value
            <= m.lag_bound() by {
            assert(n.lag[i] == m.lag[i]);
        }
    }
}

/// A bot that was seen to move is compared with where it was before: at its last observed movement, or
/// else where the movement in progress began.
pub proof fn a_bot_is_compared_with_where_it_was(
    m: MeasureView,
    current: JsonView,
    previous: JsonView,
    guid: u64,
)
    requires
        m.previous.contains_key(guid) && m.previous[guid] == previous,
        legible(current, "movement_progress"@) && legible(previous, "movement_progress"@),
        shows_more(current, previous, "movement_progress"@),
        on_the_ground(current.field("movement_progress"@)->Object_0[0].1, "x"@, "y"@),
        knows_place(previous),
    ensures
        ({
            let now = current.field("movement_progress"@)->Object_0[0].1;
            let last = previous.field("movement_progress"@)->Object_0[0].1;
            let fg = previous.field("foreground"@)->Object_0[0].1;
            let leg = fg.field("running"@).get("Movement"@)->0;
            let seen_before = !shows_nothing(previous, "movement_progress"@);
            progress_places(m, current, guid) == Some(
                Places {
                    x: now.field("x"@),
                    y: now.field("y"@),
                    from_x: if seen_before {
                        last.field("x"@)
                    } else {
                        leg.field("from_x"@)
                    },
                    from_y: if seen_before {
                        last.field("y"@)
                    } else {
                        leg.field("from_y"@)
                    },
                },
            )
        }),
{
    lemma_words();
    lemma_newer(current, previous, "movement_progress"@);
    lemma_shown(current, "movement_progress"@);
    lemma_shown(previous, "movement_progress"@);
    if previous.field("foreground"@) is Object && previous.field("foreground"@)->Object_0.len() == 1 {
        lemma_shown(previous, "foreground"@);
    }
}

/// An arrival is compared with where the movement began.
pub proof fn an_arrival_is_compared_with_its_start(
    m: MeasureView,
    guid: u64,
    first: JsonView,
    start: i64,
    second: JsonView,
    end: i64,
    generation: u64,
)
    requires
        begins_to_move(first, generation, start),
        arrives(second, generation, end),
    ensures
        ({
            let began = m.moved(first, guid, start, false).0;
            let fg = first.field("foreground"@)->Object_0[0].1;
            let leg = fg.field("running"@).get("Movement"@)->0;
            let there = second.field("movement_progress"@)->Object_0[0].1;
            arrival_places(began, second, guid) == Some(
                Places {
                    x: there.field("x"@),
                    y: there.field("y"@),
                    from_x: leg.field("from_x"@),
                    from_y: leg.field("from_y"@),
                },
            )
        }),
        !m.starts.contains_key(guid) ==> arrival_places(m, second, guid) is None,
{
    lemma_words();
    lemma_shown(first, "movement_progress"@);
    lemma_shown(first, "foreground"@);
    lemma_shown(second, "movement_progress"@);
    lemma_shown(second, "foreground"@);
}

} // verus!
