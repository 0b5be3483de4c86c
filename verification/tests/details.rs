use std::collections::BTreeSet;
use wire_client::addon;
use wire_client::bench;
use wire_client::capture::{self, measurement_window, Placed, Run};
use wire_client::cli::{make_char_class, Class};
use wire_client::dive::{self, TimerKind};
use wire_client::exposition;
use wire_client::frame::{hex_bytes, UnsafeServerFrame};
use wire_client::json::Json;
use wire_client::modes::{family_of, number_arg, require_path_arg, Family};
use wire_client::named::text_before;
use wire_client::number;
use wire_client::observer::{self, Notice, Sight, Watch};
use wire_client::player::Player;
use wire_client::probes::{self, Audit, NameFault};
use wire_client::receive::{decide, Recovery, WireError};
use wire_client::sats;
use wire_client::session::{self, CreateReply, Created, Sightings};
use wire_client::shots::{bump, Ground, MovingFault, MovingShots, ShotMode, WalkMelee};
use wire_client::social::{befriended, heard, ignored, FriendResult};
use wire_client::text;
use wire_client::wire;

fn words(s: &str) -> Vec<String> {
    s.split_whitespace().map(str::to_string).collect()
}

#[test]
fn texts_are_cut_as_asked() {
    assert_eq!(text::chars_of("aé"), vec!['a', 'é']);
    assert_eq!(text::string_of(&text::chars_of("hello"), 1, 3), "el");
    assert!(text::starts_with("hello", "he"));
    assert!(!text::starts_with("he", "hello"));
    assert_eq!(text::strip_prefix("--host", "--").as_deref(), Some("host"));
    assert_eq!(text::strip_prefix("-host", "--"), None);
    assert_eq!(text::strip_suffix("12ms", "ms").as_deref(), Some("12"));
    assert_eq!(text::strip_suffix("ms", "12ms"), None);
    assert_eq!(
        text::split_once("a=b=c", "="),
        Some(("a".to_string(), "b=c".to_string()))
    );
    assert_eq!(text::split_once("abc", "="), None);
    assert_eq!(text::find_from(&text::chars_of("abab"), &text::chars_of("ab"), 1), Some(2));
    assert_eq!(text::index_of(&text::chars_of("a,b"), ',', 0), 1);
    assert_eq!(text::index_of(&text::chars_of("ab"), ',', 0), 2);
    assert_eq!(text::drop_return("a\r"), "a");
    assert_eq!(text::drop_return("a\r\r"), "a\r");
}

#[test]
fn lines_and_words_are_found() {
    for sample in ["", "\n", "a", "a\n", "a\n\nb", "a\r\nb\r", "\n\n"] {
        let expected: Vec<String> = sample.lines().map(str::to_string).collect();
        assert_eq!(text::lines_of(sample), expected, "{sample:?}");
    }
    for sample in ["", "  ", "a b", "  a\tb \u{2003}c\u{85}", "\u{1680}x\u{3000}"] {
        let expected: Vec<String> = sample.split_whitespace().map(str::to_string).collect();
        assert_eq!(text::words_from(&text::chars_of(sample), 0), expected, "{sample:?}");
        assert_eq!(text::trim(sample), sample.trim(), "{sample:?}");
    }
    for code in 0..0x3100u32 {
        if let Some(c) = char::from_u32(code) {
            assert_eq!(text::is_white(c), c.is_whitespace(), "{code:#x}");
        }
    }
}

#[test]
fn case_counts_for_nothing_in_ascii_alone() {
    assert!(text::eq_ignore_ascii_case("GinGER", "gINger"));
    assert!(!text::eq_ignore_ascii_case("É", "é"));
    assert!(!text::eq_ignore_ascii_case("a", "ab"));
    assert_eq!(text::to_ascii_lowercase("MaGe É"), "mage É");
}

#[test]
fn numbers_are_written_and_read() {
    assert_eq!(number::decimal_text(0), "0");
    assert_eq!(number::decimal_text(u64::MAX), u64::MAX.to_string());
    assert_eq!(number::signed_text(i64::MIN), i64::MIN.to_string());
    assert_eq!(number::number_between("a", 7, "b"), "a7b");
    assert_eq!(number::number_behind("a", 70), "a70");
    let mut s = String::new();
    number::push_hex_fixed(&mut s, 0x1f, 4, true);
    number::push_hex(&mut s, 0x1f, false);
    assert_eq!(s, "001F1f");
    for sample in ["0", "+7", "007", "-1", "", "+", "18446744073709551615", "18446744073709551616", "1 "] {
        assert_eq!(number::parse_unsigned(sample, u64::MAX), sample.parse::<u64>().ok(), "{sample}");
    }
    assert_eq!(number::parse_unsigned("256", 255), None);
    for sample in ["-9223372036854775808", "-9223372036854775809", "-0", "+5", "--1", "-"] {
        assert_eq!(number::parse_signed(sample), sample.parse::<i64>().ok(), "{sample}");
    }
    let mut t = String::new();
    number::push_optional(&mut t, None);
    number::push_optional(&mut t, Some(3));
    assert_eq!(t, "NoneSome(3)");
    assert!(text_before("a", "b") && !text_before("b", "a"));
    assert!(text_before("a", "ab"));
}

#[test]
fn a_value_is_read_by_its_kind() {
    let row = Json::Object(vec![
        ("n".to_string(), Json::Unsigned(7)),
        ("m".to_string(), Json::Negative(-7)),
        ("b".to_string(), Json::Bool(true)),
        ("a".to_string(), Json::Array(vec![Json::Null])),
        ("s".to_string(), Json::Text("x".to_string())),
        ("f".to_string(), Json::Float(1.5f64.to_bits())),
        ("i".to_string(), Json::Float(f64::INFINITY.to_bits())),
        ("none".to_string(), Json::Object(vec![("none".to_string(), Json::Array(vec![]))])),
        ("some".to_string(), Json::Object(vec![("some".to_string(), Json::Unsigned(1))])),
    ]);
    assert_eq!(sats::unsigned(&row, "n").ok(), Some(7));
    assert_eq!(sats::unsigned(&row, "m").err().as_deref(), Some("invalid m"));
    assert_eq!(sats::signed(&row, "m").ok(), Some(-7));
    assert_eq!(sats::signed(&row, "s").err().as_deref(), Some("invalid s"));
    assert_eq!(row.i64_at("n"), Some(7));
    assert_eq!(row.bool_at("b"), Some(true));
    assert_eq!(row.bool_at("n"), None);
    assert_eq!(row.array_at("a").map(Vec::len), Some(1));
    assert_eq!(row.get("s").and_then(Json::as_str), Some("x"));
    assert_eq!(row.get("b").and_then(Json::as_bool), Some(true));
    assert!(row.get("a").and_then(Json::as_array).is_some());
    assert!(sats::field(&row, "missing").same(&Json::Null));
    assert!(sats::coordinate(&row, "f").is_ok());
    assert_eq!(sats::coordinate(&row, "i").err().as_deref(), Some("invalid i"));
    assert!(!row.get("i").unwrap().is_finite_number());
    assert!(matches!(sats::optional(&row, "none"), Ok(None)));
    assert!(matches!(sats::optional(&row, "some"), Ok(Some(Json::Unsigned(1)))));
    assert_eq!(sats::optional(&row, "n").err().as_deref(), Some("invalid SATS option n"));
}

#[test]
fn a_later_observation_is_newer() {
    let at = |micros: i64| {
        Json::Object(vec![(
            "cast_progress".to_string(),
            Json::Object(vec![(
                "some".to_string(),
                Json::Object(vec![("observed_micros".to_string(), Json::Unsigned(micros as u64))]),
            )]),
        )])
    };
    assert_eq!(sats::newer(&at(2), &at(1), "cast_progress").ok(), Some(true));
    assert_eq!(sats::newer(&at(2), &at(2), "cast_progress").ok(), Some(false));
}

#[test]
fn a_run_begins_once_every_bot_was_served() {
    let mut run = Run::new(BTreeSet::from([1, 2]));
    assert!(!run.may_begin());
    assert!(run.check_time(30_000_000).is_ok());
    assert_eq!(
        run.check_time(30_000_001).err().as_deref(),
        Some("not every staged bot completed a scheduled warm-up pass")
    );
    let before = run.receive(10, 100).ok().unwrap();
    assert_eq!(before, Placed { measured: false, after_window: false });
    assert_eq!(run.stream_bytes(), 100);
    let window = measurement_window(42, 60).ok().unwrap();
    assert_eq!(
        (window.start_micros, window.end_micros, window.duration_micros),
        (42, 60_000_042, 60_000_000)
    );
    run.begin(window);
    let first = run.receive(42, 1).ok().unwrap();
    assert_eq!(first, Placed { measured: true, after_window: false });
    let last = run.receive(60_000_042, 1).ok().unwrap();
    assert_eq!(last, Placed { measured: false, after_window: true });
    assert!(run.check_time(65_000_041).is_ok());
    assert!(run.check_time(65_000_042).is_err());
    assert_eq!(run.measured_passes(), 0);
    assert!(run.measured_decisions().listed().is_empty());
    assert!(run.receive(50, capture::MAX_STREAM_BYTES).is_err());
    assert!(measurement_window(u64::MAX, 60).is_err());
    assert!(measurement_window(0, u64::MAX).is_err());
}

#[test]
fn evidence_keeps_every_failure() {
    assert_eq!(capture::retention(&vec![]), None);
    let errors = vec!["capture: x".to_string(), "archive finalization: y".to_string()];
    assert_eq!(
        capture::retention(&errors).as_deref(),
        Some("capture: x; archive finalization: y")
    );
    assert!(capture::line_accepted(&b"{}\n".to_vec()));
    assert!(!capture::line_accepted(&b"{}".to_vec()));
    assert!(!capture::line_accepted(&vec![]));
}

#[test]
fn notes_of_a_benchmark_are_spelled_out() {
    assert_eq!(
        bench::reset_note(50, "spacetime_num_txns_total{db=\"a\"}"),
        "Rung 50: the node's counters RESET inside the measured window (`spacetime_num_txns_total{db=\"a\"}` went backwards) \u{2014} every server-side number for that stage is void. Re-run it."
    );
    let refusal = bench::label_refusal(200, "127.0.0.1:3724");
    assert!(refusal.contains("CONNECTS 200 SYNTHETIC PLAYERS to 127.0.0.1:3724 and"), "{refusal}");
    assert!(
        refusal.ends_with(
            "\n\nSee docs/capacity-benchmark.md \u{a7}3 \u{2014} the run needs exclusive access to the stack."
        ),
        "{refusal}"
    );
    assert!(bench::USAGE.contains("open world stays flat\" (#21) from the same window.  [none]"));
    assert_eq!(bench::required_families().len(), 6);
}

#[test]
fn addon_files_and_texts_are_bounded() {
    assert!(addon::can_carry("X"));
    assert!(!addon::can_carry(""));
    assert!(!addon::can_carry("a\0b"));
    assert!(addon::can_carry(&"a".repeat(511)));
    assert!(!addon::can_carry(&"a".repeat(512)));
    assert!(addon::temporary_name("result-1.json").contains("result-1.json"));
    assert!(addon::walk_fits(0, 999, 1000));
    assert!(!addon::walk_fits(0, 1000, 1000));
}

#[test]
fn an_envelope_of_the_addon_channel_opens() {
    let mut body = vec![7u8];
    body.extend_from_slice(&u32::MAX.to_le_bytes());
    body.extend_from_slice(&[0; 12]);
    body.extend_from_slice(b"STC\tv1|pong|0|1/1|hello\0");
    let said = wire::addon_text(wire::SMSG_MESSAGECHAT, &body).unwrap();
    assert_eq!(said, "STC\tv1|pong|0|1/1|hello\0");
    assert!(wire::is_pong(&said, "hello"));
    assert!(!wire::is_pong(&said, "bye"));
    assert_eq!(
        wire::open_envelope(&said),
        Some(("pong".to_string(), "hello".to_string()))
    );
    assert_eq!(wire::open_envelope("nothing"), None);
    body[1] = 0;
    assert_eq!(wire::addon_text(wire::SMSG_MESSAGECHAT, &body), None);
    assert_eq!(wire::addon_text(0x0097, &body), None);
    assert_eq!(wire::splitn(&text::chars_of("a|b|c"), '|', 2), vec!["a", "b|c"]);
    assert_eq!(wire::splitn(&text::chars_of("a"), '|', 2), vec!["a"]);
}

#[test]
fn bodies_are_read_at_their_places() {
    let body: Vec<u8> = (0..41).collect();
    assert_eq!(wire::head_words(&body), Some((0x03020100, 0x07060504)));
    assert_eq!(wire::item_push(&body), Some((0x1c1b1a19, 0x28272625)));
    assert_eq!(wire::item_push(&body[..40].to_vec()), None);
    assert_eq!(wire::heal_amount(&body), Some(0x27262524));
    assert_eq!(wire::heal_amount(&vec![0; 4]), None);
    let packed = vec![0b0000_0101, 0x11, 0x22];
    assert_eq!(wire::mover(0x00EE, &packed), Some(0x220011));
    assert_eq!(wire::mover(0x00EF, &packed), None);
    assert_eq!(wire::destroyed(wire::SMSG_DESTROY_OBJECT, &vec![1, 0, 0, 0, 0, 0, 0, 0]), Some(1));
    assert!(matches!(probes::audit_moving(0x00B5, &packed), Audit::Moved(Some(0x220011))));
    assert!(matches!(probes::audit_moving(0x0001, &packed), Audit::Nothing));
    assert!(matches!(
        probes::audit_standing(wire::SMSG_MONSTER_MOVE, &packed),
        Audit::MonsterMove(Some(0x220011))
    ));
    assert!(matches!(
        probes::audit_standing(wire::SMSG_SPELLHEALLOG, &body),
        Audit::Heal(Some(0x27262524))
    ));
    let mut s = String::new();
    wire::push_guid(&mut s, 255);
    assert_eq!(s, "0xff");
}

#[test]
fn a_ding_shows_the_level_and_the_point() {
    let mut body = 10u32.to_le_bytes().to_vec();
    body.push(9);
    assert_eq!(probes::ding(wire::SMSG_UPDATE_OBJECT, &body), Some(false));
    body.extend_from_slice(&1u32.to_le_bytes());
    assert_eq!(probes::ding(wire::SMSG_UPDATE_OBJECT, &body), Some(true));
    assert_eq!(probes::ding(wire::SMSG_UPDATE_OBJECT, &vec![1, 0, 0, 0]), None);
    assert_eq!(probes::ding(0x00AA, &body), None);
}

#[test]
fn words_of_a_mode_are_read() {
    assert_eq!(probes::channel_args(&words("say hi 30")), (Some("hi".to_string()), 30));
    assert_eq!(probes::channel_args(&words("x")), (None, 10));
    assert_eq!(probes::channel_args(&words("5 say")), (None, 5));
    assert_eq!(probes::check_name(&Some("Ginger".to_string()), "Ginger"), None);
    assert_eq!(probes::check_name(&Some("x".to_string()), "Ginger"), Some(NameFault::Other));
    assert_eq!(probes::check_name(&None, "Ginger"), Some(NameFault::Silent));
    assert_eq!(number_arg(&words("7 x"), 0, 10, 3), 7);
    assert_eq!(number_arg(&words("7 x"), 1, 10, 3), 3);
    assert_eq!(number_arg(&words("11"), 0, 10, 3), 3);
    assert_eq!(require_path_arg(&words("/a"), 0, "u", "n").ok().as_deref(), Some("/a"));
    let said = require_path_arg(&words(""), 0, "stay <file>", "file").err().unwrap();
    assert!(said.contains("stay <file>") && said.contains("missing <file>"), "{said}");
    assert_eq!(family_of("stay"), Some(Family::Probe));
    assert_eq!(family_of("no-such-mode"), None);
    assert_eq!(make_char_class(&Some("priest".to_string())), Class::Priest);
    assert_eq!(make_char_class(&None), Class::Warrior);
    assert_eq!(observer::acknowledgement(true, "walk"), "OK walk");
    assert_eq!(observer::acknowledgement(false, "see 1"), "FAIL see 1");
}

#[test]
fn a_session_is_prepared() {
    let plan = session::logon_at("host:1", "test", "pass");
    assert_eq!((plan.address.as_str(), plan.account.as_str()), ("host:1", "test"));
    assert_eq!(session::realm_address(&vec![]), session::DEFAULT_WORLD_ADDR);
    assert_eq!(session::realm_address(&words("a:1 b:2")), "a:1");
    assert!(session::prime_of(&vec![1; 31]).is_none());
    assert_eq!(session::prime_of(&vec![1; 32]), Some([1; 32]));
    assert!(session::create_settled(CreateReply::NameInUse));
    assert!(!session::create_settled(CreateReply::Other));
}

#[test]
fn a_player_reads_until_it_moves() {
    let player = Player::new(0, 0, 500, 1000);
    assert_eq!(player.read_until(1000), 1000);
    let mut moved = player;
    moved.moved(1000);
    assert_eq!(moved.read_until(1000), 1100);
    assert_eq!(moved.read_until(1450), 1500);
    assert!(moved.flush_due(1000, 64, 0));
    assert!(!moved.flush_due(1999, 1, 0));
    assert!(moved.flush_due(2000, 0, 1));
    assert!(!moved.flush_due(9000, 0, 0));
    moved.flushed(2000);
    assert!(!moved.flush_due(2999, 1, 1));
}

#[test]
fn shots_are_counted_by_phase() {
    assert_eq!(bump(u32::MAX), u32::MAX);
    assert_eq!(bump(1), 2);
    assert_eq!(ShotMode::Reject.stand_off(), 45);
    assert_eq!(ShotMode::Loop.stand_off(), 25);
    assert_eq!(ShotMode::Melee.stand_off(), 15);
    assert_eq!(ShotMode::Reject.window_ms(), 5000);
    assert_eq!(ShotMode::Melee.window_ms(), 22000);
    assert_eq!(Ground::new(true).window_ms(), 18000);
    assert_eq!(Ground::new(false).window_ms(), 12000);
    let mut shots = MovingShots::new();
    assert_eq!(shots.verdict(), Some(MovingFault::NeverFired));
    shots.go(10);
    shots.stand(3000);
    assert_eq!(shots.verdict(), Some(MovingFault::NeverResumed));
    let mut late = shots;
    late.go(6201);
    assert_eq!(late.verdict(), Some(MovingFault::ResumedLate(3201)));
    shots.go(6200);
    assert_eq!(shots.verdict(), None);
    let mut early = MovingShots::new();
    early.go(10);
    early.go(20);
    early.stand(30);
    assert_eq!(early.verdict(), Some(MovingFault::FiredWhileRunning(1)));
    let mut walk = WalkMelee::new(1, 0);
    assert!(!walk.ask_again(1999));
    assert!(walk.ask_again(2000));
    assert!(!walk.ask_again(2001));
}

#[test]
fn friends_and_voices_are_told_apart() {
    assert!(befriended(FriendResult::AddedOnline) && befriended(FriendResult::Already));
    assert!(!befriended(FriendResult::Other));
    assert!(ignored(FriendResult::IgnoreAdded));
    assert!(!ignored(FriendResult::AddedOnline));
    assert!(heard(&Some("hello there".to_string()), "hello there"));
    assert!(!heard(&None, "hello"));
}

#[test]
fn a_failed_read_is_judged_by_its_words() {
    let said = |s: &str| WireError::Other(s.to_string());
    assert!(matches!(decide(0, said("odd opcode"), "odd opcode"), Recovery::Skip));
    match decide(0, said("Timed Out"), "timed out") {
        Recovery::Stop { error, dump, shutdown } => {
            assert_eq!(error.message(), "recv: socket read timeout: Timed Out");
            assert!(!dump && !shutdown);
        }
        Recovery::Skip => panic!("a timeout stops the read"),
    }
    let fault = UnsafeServerFrame::panicked(0x02FB, &vec![7; 80], "boom");
    assert_eq!(fault.payload_prefix, vec![7; 64]);
    assert_eq!(fault.reason, "decoder panicked: boom");
    assert!(matches!(
        decide(0, WireError::Unsafe(fault), ""),
        Recovery::Stop { dump: true, shutdown: true, .. }
    ));
    assert_eq!(hex_bytes(&vec![0, 255]), "00 FF");
    assert_eq!(hex_bytes(&vec![]), "<empty>");
}

#[test]
fn stamps_and_timers_have_names() {
    assert_eq!(dive::timer_word(TimerKind::FeignDeath), "FeignDeath");
    assert_eq!(dive::movement_timestamp(0), 1);
    assert_eq!(dive::movement_timestamp(u64::from(u32::MAX - 130_000)), 1);
}

#[test]
fn a_sample_line_is_read_with_its_labels_in_order() {
    let sample = exposition::parse_sample("m{b=\"2\",a=\"1\"} 4 17").ok().unwrap();
    assert_eq!((sample.key.as_str(), sample.value.as_str()), ("m{a=\"1\",b=\"2\"}", "4"));
    assert!(exposition::parse_sample("m{a=\"1\"").is_err());
    assert!(exposition::parse_sample("m").is_err());
    assert!(exposition::parse_sample("m 1 x").is_err());
    assert!(exposition::parse_sample("m 1 2 3").is_err());
}

#[test]
fn a_watch_is_settled_by_the_first_thing_that_counts() {
    let seen = vec![7];
    assert_eq!(Watch::new(Sight::Seen, 7, &seen, 0).settled, Some(true));
    let mut created = Watch::new(Sight::Created, 7, &seen, 100);
    assert!(created.settled.is_none() && created.reads_messages());
    created.observe(&Notice::Tick(30_099));
    created.observe(&Notice::Created(vec![Created { guid: 8, item: false }]));
    assert_eq!(created.settled, None);
    let mut late = created;
    late.observe(&Notice::Tick(30_100));
    assert_eq!(late.settled, Some(false));
    late.observe(&Notice::Created(vec![Created { guid: 7, item: false }]));
    assert_eq!(late.settled, Some(false));
    let mut refused = created;
    refused.observe(&Notice::Unsafe);
    assert_eq!(refused.settled, Some(false));
    created.observe(&Notice::Created(vec![Created { guid: 7, item: false }]));
    assert_eq!(created.settled, Some(true));
    let mut moved = Watch::new(Sight::Moved, 0x11, &seen, 0);
    assert!(!moved.reads_messages());
    moved.observe(&Notice::Frame(0x00AA, vec![0x11, 0, 0, 0, 0, 0, 0, 0]));
    assert_eq!(moved.settled, None);
    moved.observe(&Notice::Frame(0x00EE, vec![1, 0x11]));
    assert_eq!(moved.settled, Some(true));
}

#[test]
fn what_is_forgotten_can_be_seen_anew() {
    let mut sightings = Sightings::new();
    let object = |guid: u64| Created { guid, item: guid == 3 };
    sightings.note(&vec![object(1), object(2), object(3)]);
    sightings.forget(2);
    assert_eq!(sightings.seen, vec![1, 3]);
    assert_eq!(sightings.items, vec![3]);
    sightings.note(&vec![object(2)]);
    assert_eq!(sightings.seen, vec![1, 3, 2]);
}
