use serde_json::Value;
use std::collections::BTreeSet;
use wire_client::analysis::{self, Measurement, PlacePair};
use wire_client::capture;
use wire_client::json::Json;
use wire_client::movement::{Arrival, Movement};
use wire_client::sort::Sample;
use wire_client::spread::distribution;
use wire_client::stream::{self, Pass, Stream, BOT, ENTITY, RUNNER, SCHEDULER, SPLINE};
use wire_client::timing::{self, Correlation, Decision, Decisions, Ranking, Unit};

fn value(text: &str) -> Value {
    serde_json::from_str(text).unwrap()
}

fn json_of(v: &Value) -> Json {
    match v {
        Value::Null => Json::Null,
        Value::Bool(b) => Json::Bool(*b),
        Value::Number(n) => {
            if let Some(u) = n.as_u64() {
                Json::Unsigned(u)
            } else if let Some(i) = n.as_i64() {
                Json::Negative(i)
            } else {
                Json::Float((n.as_f64().unwrap() + 0.0).to_bits())
            }
        }
        Value::String(s) => Json::Text(s.clone()),
        Value::Array(a) => Json::Array(a.iter().map(json_of).collect()),
        Value::Object(m) => {
            Json::Object(m.iter().map(|(k, v)| (k.clone(), json_of(v))).collect())
        }
    }
}

fn json(text: &str) -> Json {
    json_of(&value(text))
}

fn number(j: &Json) -> f64 {
    match j {
        Json::Unsigned(u) => *u as f64,
        Json::Negative(i) => *i as f64,
        Json::Float(bits) => f64::from_bits(*bits),
        _ => panic!("no number"),
    }
}

fn apart(p: &PlacePair) -> bool {
    (number(&p.x) - number(&p.from_x)).powi(2) + (number(&p.y) - number(&p.from_y)).powi(2)
        > 0.05 * 0.05
}

fn has_progress(current: &Value, previous: &Value) -> Result<bool, String> {
    let current = json_of(current);
    let previous = json_of(previous);
    let moved = match analysis::movement_places(&current, &previous)? {
        Some(p) => apart(&p),
        None => false,
    };
    analysis::has_progress(&current, &previous, moved)
}

fn still_runner() -> Value {
    value(
        r#"{"generation":1,"movement_progress":{"none":[]},"combat_progress":{"none":[]},
            "cast_progress":{"none":[]},"quest_progress":[],"foreground":{"none":[]},"route_expansions":0}"#,
    )
}

#[test]
fn accepted_work_is_not_observed_progress() {
    let before = still_runner();
    let mut after = before.clone();
    after["last_outcome"] = value(r#"{"Accepted":[]}"#);
    assert!(!has_progress(&after, &before).unwrap());
    after["cast_progress"] =
        value(r#"{"some":{"observed_micros":900,"scheduled_id":7,"spell":585,"target":44}}"#);
    assert!(has_progress(&after, &before).unwrap());
    assert!(!has_progress(&after, &after).unwrap());
}

fn samples(v: &[(u64, u64)]) -> Vec<Sample> {
    v.iter().map(|s| Sample { value: s.0, guid: s.1 }).collect()
}

#[test]
fn percentiles_use_the_nearest_rank_and_retain_the_slowest_bot() {
    let report = distribution(&samples(&[(40, 3), (10, 1), (30, 4), (20, 2)]));
    assert_eq!(report.p50, Some(20));
    assert_eq!(report.p95, Some(40));
    assert_eq!(report.max_guid, Some(3));
    assert_eq!(report.total, 100);
    assert_eq!(distribution(&Vec::new()).p95, None);
}

#[test]
fn a_stale_route_count_is_not_added_again_while_movement_runs() {
    let mut measurement = Measurement::new(&BTreeSet::from([11]));
    let mut state = still_runner();
    state["foreground"] = value(
        r#"{"some":{"started_micros":100,"running":{"Movement":{"from_x":10.0,"from_y":10.0}}}}"#,
    );
    state["route_expansions"] = value("27");
    measurement.movement(&json_of(&state), 11, 100, false).unwrap();
    measurement.movement(&json_of(&state), 11, 200, false).unwrap();
    state["foreground"] = value(r#"{"none":[]}"#);
    state["movement_progress"] =
        value(r#"{"some":{"observed_micros":900,"arrived":true,"x":20.0,"y":10.0}}"#);
    measurement.movement(&json_of(&state), 11, 900, true).unwrap();
    assert_eq!(measurement.report().route_expansions.total, 27);
    assert_eq!(measurement.report().completed_movement_micros.max, Some(800));
}

#[test]
fn a_replaced_movement_is_not_timed() {
    let walking = |destination: u64, started: u64| {
        value(&format!(
            r#"{{"some":{{"generation":1,"map_id":0,"instance_id":0,"candidate":{{"id":1}},"started_micros":{started},"running":{{"Movement":{{"from_x":1.0,"from_y":1.0,"destination":{{"x":{destination}}}}}}}}}}}"#
        ))
    };
    let arrived = value(r#"{"some":{"observed_micros":900,"arrived":true,"x":20.0,"y":10.0}}"#);
    let timed = |middle: Option<(u64, u64)>, last: Option<(u64, u64)>| {
        let mut measurement = Measurement::new(&BTreeSet::from([11]));
        let mut state = still_runner();
        state["foreground"] = walking(7, 100);
        measurement.movement(&json_of(&state), 11, 100, false).unwrap();
        if let Some((destination, started)) = middle {
            state["foreground"] = walking(destination, started);
            measurement.movement(&json_of(&state), 11, 200, false).unwrap();
        }
        state["foreground"] = match last {
            Some((destination, started)) => walking(destination, started),
            None => value(r#"{"none":[]}"#),
        };
        state["movement_progress"] = arrived.clone();
        measurement.movement(&json_of(&state), 11, 900, true).unwrap();
        measurement.report().completed_movement_micros.max
    };
    assert_eq!(timed(None, None), Some(800));
    assert_eq!(timed(Some((7, 100)), Some((7, 100))), Some(800));
    assert_eq!(timed(Some((8, 100)), None), None);
    assert_eq!(timed(None, Some((8, 100))), None);
    assert_eq!(timed(Some((8, 150)), Some((7, 100))), None);
}

#[test]
fn a_movement_replaced_between_passes_is_not_timed() {
    let mut measurement = Measurement::new(&BTreeSet::from([11]));
    let mut state = still_runner();
    state["character_guid"] = value("11");
    state["foreground"] = value(
        r#"{"some":{"started_micros":100,"running":{"Movement":{"from_x":1.0,"from_y":1.0}}}}"#,
    );
    measurement.movement(&json_of(&state), 11, 100, false).unwrap();
    let mut other = state.clone();
    other["foreground"]["some"]["map_id"] = value("1");
    let update = json(&format!(r#"{{"{RUNNER}":{{"deletes":[],"inserts":[{other}]}}}}"#));
    measurement.observe_transaction(&update).unwrap();
    state["foreground"] = value(r#"{"none":[]}"#);
    state["movement_progress"] =
        value(r#"{"some":{"observed_micros":900,"arrived":true,"x":20.0,"y":10.0}}"#);
    measurement.movement(&json_of(&state), 11, 900, true).unwrap();
    assert_eq!(measurement.report().completed_movement_micros.count, 0);
}

#[test]
fn both_zeros_are_one_number() {
    let zero = Json::Float(0.0f64.to_bits());
    let negative = Json::Float((-0.0f64).to_bits());
    assert!(zero.same(&negative));
    assert!(!zero.same(&Json::Float(1.0f64.to_bits())));
    assert!(!zero.same(&Json::Unsigned(0)));
}

#[test]
fn arrival_at_an_unchanged_position_is_not_movement_progress() {
    let mut before = still_runner();
    before["movement_progress"] =
        value(r#"{"some":{"observed_micros":100,"arrived":false,"x":10.0,"y":20.0}}"#);
    let mut after = before.clone();
    after["movement_progress"]["some"]["observed_micros"] = value("200");
    after["movement_progress"]["some"]["arrived"] = value("true");
    assert!(!has_progress(&after, &before).unwrap());
    after["movement_progress"]["some"]["x"] = value("11.0");
    assert!(has_progress(&after, &before).unwrap());
}

fn walker(start: u64) -> String {
    format!(
        r#"{{"character_guid":11,"generation":2,"observed_micros":{start},"foreground":{{"some":{{
            "generation":2,"map_id":0,"instance_id":0,"started_micros":{start},
            "candidate":{{"id":1}},"running":{{"movement":{{"destination":{{"x":700}}}}}}}}}}}}"#
    )
}

fn entity(x: &str) -> String {
    format!(r#"{{"guid":11,"map_id":0,"instance_id":0,"x":{x},"y":10.0,"z":50.0}}"#)
}

fn spline(start: u64) -> String {
    format!(
        r#"{{"guid":11,"start_micros":{start},"dur_ms":1000,"map_id":0,"instance_id":0,
            "sx":0.0,"sy":10.0,"sz":50.0,"dx":7.0,"dy":10.0,"dz":50.0}}"#
    )
}

fn coordinate(row: &Json, key: &str) -> f64 {
    number(row.get(key).unwrap())
}

fn near(a: &Arrival) -> bool {
    let mut distance_squared = 0.0;
    let mut travelled_squared = 0.0;
    for (at, start, end) in [("x", "sx", "dx"), ("y", "sy", "dy"), ("z", "sz", "dz")] {
        let destination = coordinate(&a.spline, end);
        distance_squared += (coordinate(&a.entity, at) - destination).powi(2);
        travelled_squared += (destination - coordinate(&a.spline, start)).powi(2);
    }
    distance_squared <= 0.05 * 0.05 && travelled_squared > 0.05 * 0.05
}

fn observe(movement: &mut Movement, update: &Json, measured: bool) -> Result<(), String> {
    movement.observe(update, measured)?;
    if !measured {
        return Ok(());
    }
    let found: Vec<bool> = movement
        .arrivals(update)
        .iter()
        .map(|a| match a {
            Some(a) => near(a),
            None => false,
        })
        .collect();
    movement.settle(update, &found)
}

fn started(measured: bool) -> Movement {
    let mut movement = Movement::new(BTreeSet::from([11]), BTreeSet::new());
    let update = json(&format!(
        r#"{{"{RUNNER}":{{"deletes":[],"inserts":[{}]}},
            "{ENTITY}":{{"deletes":[],"inserts":[{}]}},
            "{SPLINE}":{{"deletes":[],"inserts":[{}]}}}}"#,
        walker(100),
        entity("0.0"),
        spline(100)
    ));
    observe(&mut movement, &update, measured).unwrap();
    assert!(movement.ready());
    movement
}

fn finish(at: &str, now: u64) -> Json {
    json(&format!(
        r#"{{"{SPLINE}":{{"deletes":[{}],"inserts":[]}},
            "{ENTITY}":{{"deletes":[{}],"inserts":[{}]}},
            "pkg_playerbots_scheduler":{{"inserts":[{{"observed_micros":{now}}}]}}}}"#,
        spline(100),
        entity("0.0"),
        entity(at)
    ))
}

#[test]
fn a_short_core_leg_completes_before_the_final_destination() {
    let mut movement = started(true);
    observe(&mut movement, &finish("7.0", 1_000_150), true).unwrap();
    assert_eq!(movement.report().completed_leg_micros.max, Some(1_000_050));
}

#[test]
fn a_cancelled_or_early_leg_does_not_supply_an_arrival() {
    for (at, now) in [("3.0", 1_000_150), ("7.0", 500_000)] {
        let mut movement = started(true);
        observe(&mut movement, &finish(at, now), true).unwrap();
        assert_eq!(movement.report().completed_leg_micros.count, 0);
    }
}

#[test]
fn warmup_and_replaced_ownership_cannot_supply_a_measured_leg() {
    let mut movement = started(false);
    observe(&mut movement, &finish("7.0", 1_000_150), true).unwrap();
    assert_eq!(movement.report().completed_leg_micros.count, 0);
    let mut movement = started(true);
    let replaced = json(&format!(
        r#"{{"{RUNNER}":{{"deletes":[{}],"inserts":[{}]}}}}"#,
        walker(100),
        walker(200)
    ));
    observe(&mut movement, &replaced, true).unwrap();
    observe(&mut movement, &finish("7.0", 1_000_150), true).unwrap();
    assert_eq!(movement.report().completed_leg_micros.count, 0);
}

#[test]
fn a_declared_rabbit_stays_outside_bot_movement_accounting() {
    let declared = BTreeSet::from([721]);
    let mut movement = Movement::new(BTreeSet::from([11]), declared);
    let bot = r#"{"guid":11,"entry":0,"map_id":0,"instance_id":0,"x":0.0,"y":10.0,"z":50.0}"#;
    let creature = r#"{"guid":90,"entry":721,"map_id":0,"instance_id":0,"x":1.0,"y":10.0,"z":50.0}"#;
    let update = json(&format!(
        r#"{{"{ENTITY}":{{"deletes":[],"inserts":[{bot},{creature}]}}}}"#
    ));
    observe(&mut movement, &update, false).unwrap();
    assert!(movement.ready());
    let moved = r#"{"guid":90,"entry":721,"map_id":0,"instance_id":0,"x":2.0,"y":10.0,"z":50.0}"#;
    let update = json(&format!(
        r#"{{"{ENTITY}":{{"deletes":[{creature}],"inserts":[{moved}]}}}}"#
    ));
    observe(&mut movement, &update, true).unwrap();
    let report = movement.report();
    assert_eq!(report.completed_leg_micros.count, 0);
    assert_eq!(report.retained_declared_creatures, 1);
    assert_eq!(report.declared_creature_entries, vec![721]);
}

#[test]
fn an_undeclared_creature_cannot_enter_the_entity_stream() {
    let mut movement = Movement::new(BTreeSet::from([11]), BTreeSet::from([721]));
    let update = json(&format!(
        r#"{{"{ENTITY}":{{"deletes":[],"inserts":[{{"guid":90,"entry":7}}]}}}}"#
    ));
    let error = observe(&mut movement, &update, false).unwrap_err();
    assert!(error.contains("unexpected evidence entity"));
}

fn initial() -> Value {
    value(&format!(
        r#"{{
            "{BOT}": {{"deletes":[],"inserts":[{{"id":1,"character_guid":11,"next_think_micros":1001000,"scheduler_lag_micros":0}},{{"id":2,"character_guid":12,"next_think_micros":1000,"scheduler_lag_micros":0}}]}},
            "{RUNNER}": {{"deletes":[],"inserts":[{{"character_guid":11,"observed_micros":1000}}]}},
            "{SCHEDULER}": {{"deletes":[],"inserts":[{{"id":0,"observed_micros":1000,"processed":1,"processed_guids":[11],"excess_due":true,"oldest_deferred_lag_micros":0}}]}}
        }}"#
    ))
}

fn apply(
    stream: &mut Stream,
    update: &Value,
    expected: &BTreeSet<u64>,
) -> Result<Option<Pass>, String> {
    let update = json_of(update);
    match stream.apply(&update, expected) {
        Ok(pass) => Ok(pass),
        Err(error) => Err(stream.message(error, &update)),
    }
}

fn refusal(stream: &mut Stream, update: &Value, expected: &BTreeSet<u64>) -> String {
    match apply(stream, update, expected) {
        Ok(_) => panic!("accepted"),
        Err(text) => text,
    }
}

#[test]
fn a_committed_pass_joins_the_same_transactions_bot_and_runner_rows() {
    let mut stream = Stream::new();
    assert!(apply(&mut stream, &initial(), &BTreeSet::from([11, 12])).unwrap().is_none());
    let was = initial();
    let update = value(&format!(
        r#"{{
            "{BOT}": {{"deletes":[{}],"inserts":[{{"id":2,"character_guid":12,"next_think_micros":1001100,"scheduler_lag_micros":100}}]}},
            "{RUNNER}": {{"deletes":[],"inserts":[{{"character_guid":12,"observed_micros":1100}}]}},
            "{SCHEDULER}": {{"deletes":{},"inserts":[{{"id":0,"observed_micros":1100,"processed":1,"processed_guids":[12],"excess_due":false,"oldest_deferred_lag_micros":0}}]}}
        }}"#,
        was[BOT]["inserts"][1], was[SCHEDULER]["inserts"]
    ));
    let pass = apply(&mut stream, &update, &BTreeSet::from([11, 12])).unwrap().unwrap();
    assert_eq!(pass.processed_guids, [12]);
    assert_eq!(pass.bots[0].u64_at("next_think_micros"), Some(1_001_100));
    assert_eq!(pass.runners[0].u64_at("observed_micros"), Some(1100));
    assert!(!pass.excess_due);
}

#[test]
fn an_unknown_or_missing_bot_refuses_the_observation() {
    assert!(apply(&mut Stream::new(), &initial(), &BTreeSet::from([11])).is_err());
    assert!(apply(&mut Stream::new(), &initial(), &BTreeSet::from([11, 12, 13])).is_err());
}

#[test]
fn ownership_evidence_tables_are_accepted_without_entering_scheduler_state() {
    let mut stream = Stream::new();
    assert!(apply(&mut stream, &initial(), &BTreeSet::from([11, 12])).is_ok());
    for table in stream::ownership_tables() {
        let update = value(&format!(
            r#"{{"{table}":{{"deletes":[],"inserts":[{{"id":1}}]}}}}"#
        ));
        assert!(apply(&mut stream, &update, &BTreeSet::from([11, 12])).unwrap().is_none());
    }
    let spawn =
        value(r#"{"game_creature_spawn":{"deletes":[],"inserts":[{"guid":90,"entry":6}]}}"#);
    assert!(apply(&mut stream, &spawn, &BTreeSet::from([11, 12])).unwrap().is_none());
}

#[test]
fn malformed_or_unknown_evidence_tables_are_refused() {
    let expected = BTreeSet::from([11, 12]);
    for text in [
        r#"{"game_creature_quest_tap":{"deletes":[]}}"#,
        r#"{"unscoped_table":{"deletes":[],"inserts":[]}}"#,
    ] {
        assert!(apply(&mut Stream::new(), &value(text), &expected).is_err());
    }
}

#[test]
fn a_lost_intervening_row_update_refuses_the_stream() {
    let mut stream = Stream::new();
    assert!(apply(&mut stream, &initial(), &BTreeSet::from([11, 12])).is_ok());
    let update = value(&format!(
        r#"{{"{BOT}":{{"deletes":[{{"character_guid":11,"next_think_micros":1999}}],"inserts":[]}}}}"#
    ));
    assert!(refusal(&mut stream, &update, &BTreeSet::from([11, 12])).contains("differs"));
}

#[test]
fn an_invalid_or_replayed_scheduler_pass_cannot_count_as_fair_work() {
    for (count, invalid) in [("2", "[11,11]"), ("1", "[99]")] {
        let mut update = initial();
        update[SCHEDULER]["inserts"][0]["processed"] = value(count);
        update[SCHEDULER]["inserts"][0]["processed_guids"] = value(invalid);
        assert!(apply(&mut Stream::new(), &update, &BTreeSet::from([11, 12])).is_err());
    }
    let mut stream = Stream::new();
    assert!(apply(&mut stream, &initial(), &BTreeSet::from([11, 12])).is_ok());
    let rows = initial()[SCHEDULER]["inserts"].clone();
    let update = value(&format!(
        r#"{{"{SCHEDULER}":{{"deletes":{rows},"inserts":{rows}}}}}"#
    ));
    assert!(refusal(&mut stream, &update, &BTreeSet::from([11, 12])).contains("timestamp"));
}

#[test]
fn a_list_that_is_none_is_refused_by_its_first_fault() {
    let refused = |list: &str| {
        let mut update = initial();
        update[SCHEDULER]["inserts"][0]["processed_guids"] = value(list);
        refusal(&mut Stream::new(), &update, &BTreeSet::from([11, 12]))
    };
    for list in ["null", "true", "5", "-5", "{}", r#""a\"b""#, "[11,null]", "[-1,null]", "[\"x\"]", "[11,[]]"] {
        let said = serde_json::from_value::<Vec<u64>>(value(list)).unwrap_err().to_string();
        assert_eq!(refused(list), said, "{list}");
    }
    assert_eq!(refused("[1.5]"), "invalid type: floating point, expected u64");
    let mut update = initial();
    update[SCHEDULER]["inserts"][0].as_object_mut().unwrap().remove("processed_guids");
    assert_eq!(
        refusal(&mut Stream::new(), &update, &BTreeSet::from([11, 12])),
        "invalid type: null, expected a sequence"
    );
}

fn listed(rows: Vec<String>) -> String {
    format!("[{}]", rows.join(","))
}

fn seventeen_due_bots() -> (Value, Value, BTreeSet<u64>) {
    let bots: Vec<String> = (1..=17)
        .map(|guid| {
            format!(
                r#"{{"id":{guid},"character_guid":{guid},"next_think_micros":1000,"scheduler_lag_micros":0}}"#
            )
        })
        .collect();
    let scheduler = r#"[{"id":0,"observed_micros":500,"processed":0,"processed_guids":[],"excess_due":false,"oldest_deferred_lag_micros":0}]"#;
    let first = value(&format!(
        r#"{{
            "{BOT}":{{"deletes":[],"inserts":{}}},
            "{RUNNER}":{{"deletes":[],"inserts":[]}},
            "{SCHEDULER}":{{"deletes":[],"inserts":{scheduler}}}
        }}"#,
        listed(bots.clone())
    ));
    let updates: Vec<String> = (1..=16)
        .map(|guid| {
            format!(
                r#"{{"id":{guid},"character_guid":{guid},"next_think_micros":1001100,"scheduler_lag_micros":100}}"#
            )
        })
        .collect();
    let runners: Vec<String> = (1..=16)
        .map(|guid| format!(r#"{{"character_guid":{guid},"observed_micros":1100}}"#))
        .collect();
    let guids: Vec<String> = (1..=16).map(|guid| format!("{guid}")).collect();
    let second = value(&format!(
        r#"{{
            "{BOT}":{{"deletes":{},"inserts":{}}},
            "{RUNNER}":{{"deletes":[],"inserts":{}}},
            "{SCHEDULER}":{{"deletes":{scheduler},"inserts":[{{"id":0,"observed_micros":1100,"processed":16,"processed_guids":{},"excess_due":true,"oldest_deferred_lag_micros":100}}]}}
        }}"#,
        listed(bots[..16].to_vec()),
        listed(updates),
        listed(runners),
        listed(guids)
    ));
    (first, second, (1..=17).collect())
}

#[test]
fn a_full_batch_accounts_for_the_bot_left_due() {
    let (first, second, expected) = seventeen_due_bots();
    let mut stream = Stream::new();
    assert!(apply(&mut stream, &first, &expected).is_ok());
    let pass = apply(&mut stream, &second, &expected).unwrap().unwrap();
    assert_eq!(pass.deferred_guids, [17]);
    assert_eq!(pass.oldest_deferred_lag_micros, 100);
}

#[test]
fn a_false_deferred_summary_cannot_hide_the_oldest_due_bot() {
    let (first, mut second, expected) = seventeen_due_bots();
    let mut stream = Stream::new();
    assert!(apply(&mut stream, &first, &expected).is_ok());
    second[SCHEDULER]["inserts"][0]["oldest_deferred_lag_micros"] = value("0");
    assert!(refusal(&mut stream, &second, &expected).contains("deferred summary"));
}

#[test]
fn equal_due_times_still_require_the_row_id_order() {
    let (first, mut second, expected) = seventeen_due_bots();
    let mut stream = Stream::new();
    assert!(apply(&mut stream, &first, &expected).is_ok());
    second[SCHEDULER]["inserts"][0]["processed_guids"].as_array_mut().unwrap().swap(0, 1);
    assert!(refusal(&mut stream, &second, &expected).contains("indexed order"));
}

#[test]
fn a_stale_runner_cannot_be_counted_as_processed() {
    let (first, mut second, expected) = seventeen_due_bots();
    let mut stream = Stream::new();
    assert!(apply(&mut stream, &first, &expected).is_ok());
    second[RUNNER]["inserts"][0]["observed_micros"] = value("1000");
    assert!(refusal(&mut stream, &second, &expected).contains("runner time"));
}

#[test]
fn damage_can_advance_a_future_due_bot_in_the_same_transaction() {
    let (mut first, mut second, expected) = seventeen_due_bots();
    first[BOT]["inserts"][15]["next_think_micros"] = value("9000");
    second[SCHEDULER]["inserts"][0]["processed_guids"][15] = value("17");
    second[BOT]["deletes"][15] = first[BOT]["inserts"][16].clone();
    second[BOT]["inserts"][15] = value(
        r#"{"id":17,"character_guid":17,"next_think_micros":1001100,"scheduler_lag_micros":100}"#,
    );
    second[BOT]["deletes"].as_array_mut().unwrap().push(first[BOT]["inserts"][15].clone());
    second[BOT]["inserts"].as_array_mut().unwrap().push(value(
        r#"{"id":16,"character_guid":16,"next_think_micros":1100,"scheduler_lag_micros":0}"#,
    ));
    second[RUNNER]["inserts"][15]["character_guid"] = value("17");
    second[SCHEDULER]["inserts"][0]["oldest_deferred_lag_micros"] = value("0");
    let mut stream = Stream::new();
    assert!(apply(&mut stream, &first, &expected).is_ok());
    let pass = apply(&mut stream, &second, &expected).unwrap().unwrap();
    assert_eq!(pass.accelerated_guids, [16]);
    assert_eq!(pass.deferred_guids, [16]);
}

fn log(guid: u64, observed: i64, duration: &str) -> String {
    let message = format!(
        "Timing span \"playerbots_decision guid={guid} generation=1 observed_micros={observed}\": {duration}"
    );
    format!(
        r#"{{"function":"tick_creatures","message":{}}}"#,
        Value::String(message)
    )
}

fn scale(unit: &Unit) -> f64 {
    match unit {
        Unit::Nanos => 0.001,
        Unit::Micros => 1.0,
        Unit::Millis => 1000.0,
        Unit::Seconds => 1_000_000.0,
    }
}

fn timing_report(raw: &str, expected: &[(u64, u64, i64)]) -> Result<Ranking, String> {
    let mut decisions = Decisions::new();
    for d in expected {
        decisions.insert(Decision { guid: d.0, generation: d.1, observed_micros: d.2 });
    }
    let mut correlation = Correlation::new(&decisions)?;
    for line in capture::log_lines(raw) {
        let row = json(&line);
        let t = match timing::parse(&row)? {
            Some(t) => t,
            None => continue,
        };
        let micros = match t.amount.parse::<f64>() {
            Ok(n) => n * scale(&t.unit),
            Err(_) => return Err(format!("no number: {}", t.amount)),
        };
        if !micros.is_finite() || micros < 0.0 {
            return Err("decision timing is negative or non-finite".to_owned());
        }
        correlation.record(t.decision, &row, micros.to_bits())?;
    }
    correlation.finish()
}

#[test]
fn emitted_units_and_exact_decision_identity_define_the_distribution() {
    let rows = [
        log(1, 100, "408.756µs"),
        log(2, 100, "1.5ms"),
        log(1, 200, "700ns"),
        log(2, 200, "2s"),
        log(1, 99, "90s"),
    ]
    .join("\n");
    let expected = [(1, 1, 100), (2, 1, 100), (1, 1, 200), (2, 1, 200)];
    let result = timing_report(&rows, &expected).ok().unwrap();
    assert_eq!(result.sorted.len(), 4);
    assert_eq!(f64::from_bits(result.p50), 408.756);
    assert_eq!(f64::from_bits(result.p95), 2_000_000.0);
    assert_eq!(result.sorted[3].decision.guid, 2);
    assert_eq!(result.sorted[3].decision.observed_micros, 200);
    assert_eq!(result.excluded, 1);
}

#[test]
fn missing_duplicate_and_fixture_decisions_cannot_produce_a_report() {
    let expected = [(1, 1, 100)];
    assert!(timing_report(&log(1, 99, "1ms"), &expected).is_err());
    assert!(timing_report(
        &[log(1, 100, "1ms"), log(1, 100, "2ms")].join("\n"),
        &expected
    )
    .is_err());
    assert!(timing_report(
        &log(1, 100, "1ms").replace("tick_creatures", "fixture_once"),
        &expected
    )
    .is_err());
    assert!(timing_report(&log(1, 100, "NaNs"), &expected).is_err());
    assert!(timing_report(&log(1, 100, "-1ms"), &expected).is_err());
}

#[test]
fn ownership_query_identity_is_exact_and_bounded() {
    let queries = capture::ownership_queries(&capture::creature_entries());
    assert_eq!(queries.len(), 21);
    assert_eq!(queries[0], "SELECT * FROM game_creature_quest_tap");
    assert_eq!(queries[4], "SELECT * FROM game_corpse_loot_eligible");
    assert_eq!(
        &queries[5..13],
        [
            "SELECT * FROM game_world_entity WHERE entry = 6",
            "SELECT * FROM game_world_entity WHERE entry = 38",
            "SELECT * FROM game_world_entity WHERE entry = 69",
            "SELECT * FROM game_world_entity WHERE entry = 257",
            "SELECT * FROM game_world_entity WHERE entry = 299",
            "SELECT * FROM game_world_entity WHERE entry = 721",
            "SELECT * FROM game_world_entity WHERE entry = 883",
            "SELECT * FROM game_world_entity WHERE entry = 890",
        ]
    );
    assert_eq!(
        &queries[13..],
        [
            "SELECT * FROM game_creature_spawn WHERE entry = 6",
            "SELECT * FROM game_creature_spawn WHERE entry = 38",
            "SELECT * FROM game_creature_spawn WHERE entry = 69",
            "SELECT * FROM game_creature_spawn WHERE entry = 257",
            "SELECT * FROM game_creature_spawn WHERE entry = 299",
            "SELECT * FROM game_creature_spawn WHERE entry = 721",
            "SELECT * FROM game_creature_spawn WHERE entry = 883",
            "SELECT * FROM game_creature_spawn WHERE entry = 890",
        ]
    );
}
