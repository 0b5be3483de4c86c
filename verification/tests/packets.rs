use std::collections::BTreeSet;
use sha2::{Digest, Sha256};
use wire_client::capture::{
    self, Inputs, Listener, OwnershipEvidence, Quota, Run, OWNERSHIP_EVIDENCE_SCHEMA,
};
use wire_client::cipher::NameFault;
use wire_client::http::{self, AnswerFault};
use wire_client::json::Json;
use wire_client::logon::{challenge_of, KeyFault, LogonFault};
use wire_client::player::{self, Fight, Player};
use wire_client::tally::{Seat, Tally};
use wire_client::probes::{self, DeleteFault, FactionFault, ItemFacts, ItemFault, LevelUp, Talent};
use wire_client::shots::{
    self, CastEvent, CastFault, CastStep, CastTrace, ShotEvent, ShotFault, ShotMode, ShotStep,
    Shots, SwingEvent, SwingFlow, SwingStep,
};
use wire_client::soak::Soak;
use wire_client::social::{
    self, EmoteFault, Friend, FriendEvent, FriendState, Gossip, GossipAction, GossipEvent,
    InspectFault, RangeFault, WhoFault,
};
use wire_client::session::{self, Created, Listed, Sightings};
use wire_client::subscription::{self, LogWait};
use wire_client::values_mask::parse_values_updates;
use wire_client::wire::{self, Roll, ValuesUpdate};
use wow_srp::{PublicKey, LARGE_SAFE_PRIME_LITTLE_ENDIAN};

fn packed(guid: u64) -> Vec<u8> {
    let mut mask = 0u8;
    let mut bytes = Vec::new();
    for i in 0..8 {
        let b = (guid >> (8 * i)) as u8;
        if b != 0 {
            mask |= 1 << i;
            bytes.push(b);
        }
    }
    let mut out = vec![mask];
    out.extend(bytes);
    out
}

#[test]
fn a_page_is_read_from_the_bytes_of_the_answer() {
    let page = |bytes: &[u8]| http::page("http://n/m", &bytes.to_vec());
    assert_eq!(page(b"HTTP/1.1 200 OK\r\nA: b\r\n\r\nup 1\xff").unwrap(), "up 1\u{fffd}");
    assert_eq!(page(b"up 1").unwrap_err(), "malformed HTTP response from http://n/m");
    assert_eq!(
        page(b"HTTP/1.1 404 \"no\"\r\n\r\n").unwrap_err(),
        "metrics endpoint http://n/m returned \"HTTP/1.1 404 \\\"no\\\"\""
    );
}

#[test]
fn packed_guids_are_read_back() {
    for guid in [0, 1, 0xF130_0000_0100_0007, u64::MAX, 0xFF00] {
        assert_eq!(wire::read_packed_guid(&packed(guid)), Some(guid));
    }
    assert_eq!(wire::read_packed_guid(&vec![]), None);
    assert_eq!(wire::read_packed_guid(&vec![0xFF, 1, 2]), None);
}

#[test]
fn words_are_read_little_endian() {
    let b = vec![0x78, 0x56, 0x34, 0x12, 1, 0, 0, 0];
    assert_eq!(wire::u16_at(&b, 0), Some(0x5678));
    assert_eq!(wire::u32_at(&b, 0), Some(0x1234_5678));
    assert_eq!(wire::u64_at(&b, 0), Some(0x0000_0001_1234_5678));
    assert_eq!(wire::u32_at(&b, 5), None);
    assert!(wire::contains_word(&b, 0x1234_5678));
    assert!(wire::contains_word(&b, 0x0001_1234));
    assert!(!wire::contains_word(&b, 7));
}

#[test]
fn text_that_is_no_utf8_is_shown_with_replacements() {
    let mut body = 5u64.to_le_bytes().to_vec();
    body.extend_from_slice(&[1, 0, 0, 0, 2, 0, 0, 0]);
    let mut name = b"Pe\xFFr".to_vec();
    name.push(0);
    body.extend_from_slice(&(name.len() as u32).to_le_bytes());
    body.extend_from_slice(&name);
    let shown = wire::emote_name(wire::SMSG_TEXT_EMOTE, &body).unwrap().unwrap();
    assert_eq!(shown, "Pe\u{FFFD}r");
    assert_eq!(wire::emote_name(0x0001, &body), None);
}

#[test]
fn rolls_are_checked_against_what_was_asked() {
    let r = Roll { minimum: 1, maximum: 100, result: 50, roller: 9 };
    assert!(r.check(1, 100, 9).is_none());
    assert!(r.check(1, 6, 9).is_some());
    assert!(r.check(1, 100, 8).is_some());
    let off = Roll { result: 101, ..r };
    assert!(off.check(1, 100, 9).is_some());
    let mut payload = Vec::new();
    for n in [1u32, 100, 50] {
        payload.extend_from_slice(&n.to_le_bytes());
    }
    payload.extend_from_slice(&9u64.to_le_bytes());
    assert_eq!(wire::roll_of(wire::MSG_RANDOM_ROLL, &payload), Some(r));
}

#[test]
fn nuls_are_trimmed_at_one_end_or_both() {
    assert_eq!(wire::drop_nuls("\0a\0b\0"), "\0a\0b");
    assert_eq!(wire::trim_nuls("\0a\0b\0"), "a\0b");
}

#[test]
fn a_ping_is_answered_by_its_pong() {
    let body = wire::ping_body("hello");
    assert_eq!(&body[4..8], &wire::LANG_ADDON.to_le_bytes());
    assert!(body.ends_with(b"hello\0"));
}

#[test]
fn states_are_kept_once_each() {
    let mut seen = Vec::new();
    for said in ["SQD\tS|7|a", "SQD\tS|7|a", "SQD\tS|7|b", "SQD\tS|8|c"] {
        wire::note_state(&mut seen, said, 7);
    }
    let mut distinct = seen.clone();
    distinct.sort();
    distinct.dedup();
    assert_eq!(seen.len(), distinct.len());
}

#[test]
fn values_arrive_for_the_wanted_object_and_field() {
    let updates = vec![ValuesUpdate { guid: 5, fields: vec![(718, 356), (9, 3)] }];
    assert!(wire::values_arrived(&updates, 5, 9, Some(3)));
    assert!(!wire::values_arrived(&updates, 5, 9, Some(4)));
    assert!(wire::values_arrived(&updates, 5, 9, None));
    assert!(!wire::values_arrived(&updates, 6, 9, None));
    assert!(wire::skill_arrived(&updates, 356));
    assert!(!wire::skill_arrived(&updates, 357));
}

#[test]
fn value_updates_are_read_block_by_block() {
    let mut body = 2u32.to_le_bytes().to_vec();
    body.push(0);
    body.push(0);
    body.extend(packed(0x0102));
    body.push(2);
    body.extend_from_slice(&[0x02, 0, 0, 0, 0, 0, 0, 0x80]);
    body.extend_from_slice(&7u32.to_le_bytes());
    body.extend_from_slice(&8u32.to_le_bytes());
    let whole = body.len();
    body.push(0);
    body.extend(packed(5));
    body.push(1);
    body.extend_from_slice(&[0x01, 0, 0, 0]);
    body.extend_from_slice(&9u32.to_le_bytes());
    let updates = parse_values_updates(&body);
    assert_eq!(updates.len(), 2);
    assert_eq!(updates[0].guid, 0x0102);
    assert_eq!(updates[0].fields, vec![(1, 7), (63, 8)]);
    assert_eq!(updates[1].guid, 5);
    assert_eq!(updates[1].fields, vec![(0, 9)]);
    body.pop();
    assert_eq!(parse_values_updates(&body).len(), 1);
    body.truncate(whole);
    body.push(3);
    assert_eq!(parse_values_updates(&body).len(), 1);
    assert!(parse_values_updates(&vec![1, 0, 0]).is_empty());
}

#[test]
fn a_challenge_is_taken_apart_or_refused() {
    let prime = LARGE_SAFE_PRIME_LITTLE_ENDIAN.to_vec();
    let c = challenge_of("tester", "secret", &vec![7], &prime, [9; 32]).ok().unwrap();
    assert_eq!(c.generator, 7);
    assert_eq!(c.prime, LARGE_SAFE_PRIME_LITTLE_ENDIAN);
    assert_eq!(c.account.into_inner().as_ref(), "TESTER");
    assert_eq!(c.password.into_inner().as_ref(), "SECRET");
    assert_eq!(
        c.server_key.into_inner(),
        PublicKey::from_le_bytes([9; 32]).ok().unwrap()
    );
    let refused = |account: &str, password: &str, g: Vec<u8>, n: Vec<u8>, key: [u8; 32]| {
        challenge_of(account, password, &g, &n, key).err().unwrap()
    };
    assert_eq!(
        refused("a", "b", vec![7], vec![0; 31], [9; 32]),
        LogonFault::Prime
    );
    assert_eq!(
        refused("", "b", vec![7], prime.clone(), [9; 32]),
        LogonFault::Account(NameFault::Length)
    );
    assert_eq!(
        refused("a", "\u{e9}", vec![7], prime.clone(), [9; 32]),
        LogonFault::Password(NameFault::Character('\u{e9}'))
    );
    assert_eq!(refused("a", "b", vec![], prime.clone(), [9; 32]), LogonFault::Generator);
    assert_eq!(
        refused("a", "b", vec![7], prime.clone(), [0; 32]),
        LogonFault::Key(KeyFault::Zero)
    );
    assert_eq!(
        refused("a", "b", vec![7], prime.clone(), LARGE_SAFE_PRIME_LITTLE_ENDIAN),
        LogonFault::Key(KeyFault::Prime)
    );
}

#[test]
fn a_request_names_its_host_and_path() {
    let r = http::request("http://127.0.0.1:3000/v1/metrics").unwrap();
    assert_eq!(r.address, "127.0.0.1:3000");
    assert_eq!(
        r.message,
        "GET /v1/metrics HTTP/1.1\r\nHost: 127.0.0.1:3000\r\nAccept: text/plain\r\nConnection: close\r\n\r\n"
    );
    assert_eq!(http::request("http://host").unwrap().address, "host:80");
    assert!(http::request("https://host").is_none());
    assert_eq!(http::body_of("HTTP/1.1 200 OK\r\nA: b\r\n\r\nbody").ok().unwrap(), "body");
    assert!(matches!(http::body_of("HTTP/1.1 200 OK"), Err(AnswerFault::Malformed)));
    match http::body_of("HTTP/1.1 404 Not Found\r\n\r\nx") {
        Err(AnswerFault::Status(s)) => assert!(s.contains("404")),
        _ => panic!("accepted"),
    }
}

fn hex(bytes: &[u8]) -> String {
    bytes.iter().map(|b| format!("{b:02x}")).collect()
}

fn inputs(executable: &[u8]) -> Inputs {
    Inputs {
        server: "http://127.0.0.1:3000".into(),
        database_identity: "1".repeat(64),
        bot_guids: (1..=10).collect(),
        seconds: 60,
        core_revision: "2".repeat(40),
        package_revision: "3".repeat(40),
        content_identity: "4".repeat(64),
        geometry_revision: "fixture".into(),
        wasm_sha256: "5".repeat(64),
        cli_sha256: hex(&Sha256::digest(executable)),
        fixture_resources: Json::Object(vec![]),
        ownership_evidence: OwnershipEvidence {
            schema: OWNERSHIP_EVIDENCE_SCHEMA,
            creature_entries: capture::creature_entries(),
            queries: capture::ownership_queries(&capture::creature_entries()),
        },
    }
}

#[test]
fn staged_inputs_name_the_executable_by_its_digest() {
    let i = inputs(b"spacetime");
    let listener = Some(Listener { loopback: true, port: 3000 });
    assert_eq!(i.endpoint().as_deref(), Some("127.0.0.1:3000"));
    assert!(i.check_declared(listener, true).is_ok());
    assert!(i.check_declared(None, true).is_err());
    assert!(i.check_declared(listener, false).is_err());
    assert!(i.check_declared(Some(Listener { loopback: false, port: 3000 }), true).is_err());
    let roster: BTreeSet<u64> = (1..=10).collect();
    assert_eq!(i.check(&b"spacetime".to_vec()).ok().unwrap(), roster);
    assert!(i.check(&b"another".to_vec()).is_err());
    let mut short = inputs(b"spacetime");
    short.database_identity = "1".repeat(63);
    assert!(short.check_declared(listener, true).is_err());
    let mut doubled = inputs(b"spacetime");
    doubled.bot_guids[1] = 1;
    assert!(doubled.check(&b"spacetime".to_vec()).is_err());
    let mut other = inputs(b"spacetime");
    other.ownership_evidence.queries.pop();
    assert!(other.check(&b"spacetime".to_vec()).is_err());
}

#[test]
fn a_measured_window_is_half_open() {
    let w = capture::measurement_window(1_000_000, 2).ok().unwrap();
    assert_eq!((w.start_micros, w.end_micros, w.duration_micros), (1_000_000, 3_000_000, 2_000_000));
    let mut run = Run::new(BTreeSet::from([1]));
    run.begin(w);
    assert!(!run.receive(999_999, 1).ok().unwrap().measured);
    let at_start = run.receive(1_000_000, 1).ok().unwrap();
    assert!(at_start.measured && !at_start.after_window);
    let at_end = run.receive(3_000_000, 1).ok().unwrap();
    assert!(!at_end.measured && at_end.after_window);
    assert!(capture::measurement_window(u64::MAX, 2).is_err());
}

#[test]
fn a_quota_is_never_passed() {
    let mut q = Quota::new(10);
    assert!(q.take(7));
    assert!(!q.take(4));
    assert_eq!(q.used, 7);
    assert!(q.admits(3));
    assert!(!q.admits(4));
}

#[test]
fn log_lines_are_whole() {
    assert_eq!(capture::complete_lines(&b"ab\ncd".to_vec()), Some(3));
    assert_eq!(capture::complete_lines(&b"abcd".to_vec()), None);
    assert_eq!(capture::log_lines("a\n\n b \n"), vec!["a".to_string(), " b ".to_string()]);
    assert!(subscription::ends_whole(&b"a\n".to_vec()));
    assert!(!subscription::ends_whole(&b"a".to_vec()));
    assert_eq!(subscription::log_wait(true, 0), LogWait::Ready);
    assert_eq!(subscription::log_wait(false, 0), LogWait::Wait);
    assert_eq!(subscription::log_wait(false, subscription::LOG_WAIT_MS), LogWait::Wait);
    assert_eq!(subscription::log_wait(false, subscription::LOG_WAIT_MS + 1), LogWait::TooLong);
}

#[test]
fn every_bot_is_subscribed_to() {
    let args = subscription::subscribe_args(&inputs(b"x"), "/c");
    for guid in 1..=10u64 {
        assert!(args.iter().any(|a| a.contains(&format!("= {guid}"))), "{args:?}");
    }
    assert!(args.iter().any(|a| a == "120"), "{args:?}");
    assert!(!subscription::log_args(&inputs(b"x"), "/c").is_empty());
}

#[test]
fn a_player_keeps_its_beat() {
    let mut p = Player::new(0, 100, 500, 1000);
    assert_eq!(p.due(p.next_hb - 1), None);
    let at = p.next_hb + 40;
    assert_eq!(p.due(at), Some(40));
    p.moved(at);
    assert!(p.next_hb > at);
    let late = p.next_hb + 10_000;
    p.moved(late);
    assert!(p.next_hb > late);
    assert_eq!(player::relay_latency(10, 4), Some(6));
    assert_eq!(player::relay_latency(4, 10), None);
    assert_eq!(player::creature_in(&vec![5, 0xF130_0000_0000_0001]), Some(0xF130_0000_0000_0001));
    assert_eq!(player::creature_in(&vec![5]), None);
    let mut errors = Vec::new();
    for i in 0..300 {
        player::keep_error(&mut errors, format!("{i}"));
    }
    assert_eq!(errors.len(), player::ERROR_LIMIT);
}

#[test]
fn a_fighting_player_swings_and_stops_in_turn() {
    let mut p = Player::new(0, 100, 500, 0);
    let creature = 0xF130_0000_0000_0001;
    assert!(p.combat);
    match p.flip(p.next_flip, &vec![creature]) {
        Fight::Swing(t) => {
            assert_eq!(t, creature);
            p.swung(t);
        }
        other => panic!("{other:?}"),
    }
    assert_eq!(p.flip(p.next_flip, &vec![creature]), Fight::Stop);
    assert_eq!(p.flip(0, &vec![creature]), Fight::Hold);
    assert!(!Player::new(0, 0, 500, 0).combat);
}

#[test]
fn a_soak_stays_near_and_casts_now_and_again() {
    let mut s = Soak::new(0);
    for _ in 0..1000 {
        let stride = s.stride();
        assert!((-150..150).contains(&stride.dx_tenths), "{stride:?}");
        assert!((-150..150).contains(&stride.dy_tenths), "{stride:?}");
    }
    assert_eq!(s.heartbeats, 1000);
    assert!(!s.cast(1));
    assert!(s.cast(wire_client::soak::CAST_MS));
    s.read(true);
    s.read(false);
    assert_eq!((s.packets, s.recv_timeouts), (1, 1));
}

#[test]
fn shots_repeat_until_seen_enough() {
    let mut s = Shots::new(ShotMode::Loop);
    assert_eq!(shots::shot_mode_of("reject"), ShotMode::Reject);
    assert_eq!(s.verdict(), Some(ShotFault::BadStart));
    let mut last = s.observe(ShotEvent::Start { timer: 500, ammo: true }, 0);
    s.observe(ShotEvent::CastResult, 1);
    for at in [2000u64, 4300, 6600, 8900] {
        last = s.observe(ShotEvent::Go { misses: 0 }, at);
        if last == ShotStep::Enough {
            break;
        }
        last = s.observe(ShotEvent::Damage, at + 300);
        if last == ShotStep::Enough {
            break;
        }
    }
    assert_ne!(last, ShotStep::SendPair);
    assert_eq!(Shots::new(ShotMode::Other).verdict(), Some(ShotFault::UnknownMode));
}

#[test]
fn a_strike_waits_for_its_swing() {
    let mut f = SwingFlow::new(false);
    assert!(!f.verdict());
    let mut casts = 0;
    for (i, e) in [SwingEvent::White, SwingEvent::White, SwingEvent::Go, SwingEvent::Damage]
        .into_iter()
        .enumerate()
    {
        if f.observe(e, 1000 * (i as u64 + 1)) == SwingStep::Cast {
            casts += 1;
        }
    }
    assert_eq!(casts, 1);
}

#[test]
fn a_cast_shows_its_start_its_go_and_its_impact() {
    let mut c = CastTrace::new(133, 9, false);
    c.observe(CastEvent::Start { timer: shots::CAST_TIME_MS }, 0);
    assert_eq!(c.observe(CastEvent::Refused, 1), CastStep::Refused);
    let mut c = CastTrace::new(133, 9, false);
    c.observe(CastEvent::Start { timer: shots::CAST_TIME_MS }, 0);
    c.observe(CastEvent::Cooldown, 1700);
    c.observe(CastEvent::Go { spell: 133, unit: Some(9), only_target: true }, 1700);
    c.observe(CastEvent::Damage { amount: 20 }, 2400);
    assert_eq!(c.verdict(), vec![]);
    let mut fast = CastTrace::new(133, 9, false);
    fast.observe(CastEvent::Start { timer: shots::CAST_TIME_MS }, 0);
    fast.observe(CastEvent::Cooldown, 1700);
    fast.observe(CastEvent::Go { spell: 133, unit: Some(8), only_target: false }, 1700);
    fast.observe(CastEvent::Damage { amount: 20 }, 1710);
    assert_eq!(
        fast.verdict(),
        vec![CastFault::GoUnit, CastFault::GoHits, CastFault::FastImpact(10)]
    );
    let mut cut = CastTrace::new(133, 9, true);
    cut.observe(CastEvent::Start { timer: shots::CAST_TIME_MS }, 0);
    assert_eq!(cut.verdict(), vec![CastFault::NotInterrupted]);
    cut.observe(CastEvent::Failure { spell: 133 }, 500);
    assert_eq!(cut.verdict(), vec![]);
}

#[test]
fn who_and_friends_are_checked() {
    assert_eq!(social::check_who(0, &vec![], "A"), Some(WhoFault::NobodyOnline));
    assert_eq!(social::check_who(1, &vec!["B".into()], "A"), Some(WhoFault::NotListed));
    assert_eq!(social::check_who(1, &vec!["A".into()], "A"), None);
    let mut s = FriendState::new();
    s.observe(&FriendEvent::Ignored, 5);
    assert!(!s.passed());
    s.observe(&FriendEvent::Friends(vec![Friend { guid: 5, online: true }]), 5);
    assert!(s.passed());
    assert_eq!(s, FriendState::Both);
    let mut s = FriendState::new();
    s.observe(&FriendEvent::Friends(vec![Friend { guid: 6, online: true }]), 5);
    assert_eq!(s, FriendState::Absent);
    let mut s = FriendState::new();
    s.observe(&FriendEvent::Friends(vec![Friend { guid: 5, online: false }]), 5);
    assert_eq!(s, FriendState::Offline);
    assert_eq!(social::check_range(false, false), Some(RangeFault::NoEcho));
    assert_eq!(social::check_range(true, true), Some(RangeFault::HeardAfar));
    assert_eq!(social::check_range(true, false), None);
    assert_eq!(social::check_inspect(None, 5, None), Some(InspectFault::NearSilent));
    assert_eq!(social::check_inspect(Some(5), 5, Some(5)), Some(InspectFault::FarAnswered));
    assert_eq!(social::check_inspect(Some(5), 5, None), None);
    assert_eq!(social::check_emote(&None, "A"), Some(EmoteFault::NoName));
    assert_eq!(social::check_emote(&Some("B".into()), "A"), Some(EmoteFault::OtherName));
    assert_eq!(social::check_emote(&Some("A".into()), "A"), None);
}

#[test]
fn nothing_is_bought_that_was_not_asked_for() {
    let mut g = Gossip::new(None, None);
    let first = g.observe(GossipEvent::Menu { text_id: 7 });
    assert_eq!(first, GossipAction::AskText(7));
    for e in [GossipEvent::Trainer, GossipEvent::Silence, GossipEvent::Complete] {
        assert!(!matches!(g.observe(e), GossipAction::Buy(_)));
    }
    let mut g = Gossip::new(Some(0), Some(133));
    let mut bought = false;
    for e in [GossipEvent::Menu { text_id: 7 }, GossipEvent::Silence, GossipEvent::Trainer] {
        bought = bought || g.observe(e) == GossipAction::Buy(133);
    }
    assert!(bought);
}

#[test]
fn probes_check_what_a_character_shows() {
    assert_eq!(probes::display_at(&vec![4, 5], 1), 5);
    assert_eq!(probes::display_at(&vec![4, 5], 2), 0);
    assert!(probes::gear_shows(5, Some(5)));
    assert!(!probes::gear_shows(4, Some(5)));
    assert!(probes::gear_shows(4, None));
    assert!(!probes::gear_shows(0, None));
    assert_eq!(probes::check_delete(false, &vec![], 1), Some(DeleteFault::Refused));
    assert_eq!(probes::check_delete(true, &vec![1], 1), Some(DeleteFault::StillListed));
    assert_eq!(probes::check_delete(true, &vec![2], 1), None);
    assert_eq!(probes::missing_spells(&vec![1, 2, 3], &vec![2]), vec![1, 3]);
    let standings = vec![10, 20];
    let flags = vec![0u8, probes::AT_WAR];
    assert_eq!(probes::check_faction(&standings, &flags, 1, 20, Some(1)), None);
    assert_eq!(
        probes::check_faction(&standings, &flags, 1, 21, None),
        Some(FactionFault::Standing(20))
    );
    let item = ItemFacts { armor: 3, spell: 4, bonding: 1 };
    assert_eq!(probes::check_item(item, 3, 4, 1), None);
    assert_eq!(probes::check_item(item, 2, 4, 1), Some(ItemFault::Armor));
    assert_eq!(probes::check_item(item, 3, 5, 1), Some(ItemFault::Spell));
    assert_eq!(probes::check_item(item, 3, 4, 0), Some(ItemFault::Bonding));
    let up = LevelUp { mana: 9, strength: 1, agility: 1, stamina: 1, intellect: 1, spirit: 1 };
    assert!(up.check(1));
    assert!(!up.check(0));
    assert!(LevelUp { mana: 0, ..up }.check(0));
    let flat = LevelUp { mana: 9, strength: 0, agility: 0, stamina: 0, intellect: 0, spirit: 0 };
    assert!(!flat.check(1));
    assert_eq!(probes::played_on(5, 8), Some(3));
    assert_eq!(probes::played_on(8, 5), None);
    assert!(probes::revealed(false, true));
    assert!(!probes::revealed(true, true));
    assert_eq!(probes::stay_secs(&None).ok(), Some(probes::STAY_SECS));
    assert!(probes::stay_secs(&Some("x".into())).is_err());
    let mut t = Talent::new();
    assert!(t.verdict().is_some());
    t.observe(probes::SMSG_LEARNED_SPELL, &vec![1, 0, 0, 0]);
    assert!(t.verdict().is_some());
    t.observe(wire::SMSG_UPDATE_OBJECT, &vec![1, 0, 0, 0, 0, 0]);
    assert!(t.verdict().is_none());
}

#[test]
fn created_objects_are_seen_once() {
    let mut s = Sightings::new();
    s.note(&vec![Created { guid: 1, item: false }, Created { guid: 2, item: true }]);
    s.note(&vec![Created { guid: 1, item: false }]);
    assert_eq!(s.seen.iter().filter(|g| **g == 1).count(), 1);
    assert!(s.items.contains(&2));
    let list = vec![
        Listed { guid: 4, name: "Ann".into() },
        Listed { guid: 5, name: "Ben".into() },
    ];
    assert_eq!(session::find_char(&list, "Ben"), Some(5));
    assert_eq!(session::find_char(&list, "Cid"), None);
    assert!(session::created_self(&vec![Created { guid: 5, item: false }], 5));
}

#[test]
fn a_player_counts_once_in_the_tally() {
    let mut t = Tally::new();
    let mut lost = Seat::new();
    lost.late(1);
    lost.moved(&mut t);
    lost.failed(&mut t, "BENCH0000/Benchaaa: refused".to_string());
    lost.joined(&mut t);
    assert_eq!((t.connected, t.live, t.failed, t.dropped, t.heartbeats), (0, 0, 1, 0, 0));
    assert_eq!(t.errors, ["BENCH0000/Benchaaa: refused"]);
    let (mut a, mut b) = (Seat::new(), Seat::new());
    a.joined(&mut t);
    b.joined(&mut t);
    assert_eq!((t.connected, t.live, t.failed), (2, 2, 1));
    a.late(3);
    a.relayed(40);
    a.moved(&mut t);
    assert_eq!(a.held(), (1, 1));
    b.relayed(50);
    a.flushed(&mut t);
    assert_eq!((a.held(), t.latencies.clone(), t.lags.clone()), ((0, 0), vec![40], vec![3]));
    a.late(7);
    a.left(&mut t, false);
    a.left(&mut t, false);
    assert_eq!((t.live, t.dropped, t.lags.clone()), (1, 1, vec![3, 7]));
    b.left(&mut t, true);
    assert_eq!((t.connected, t.live, t.failed, t.dropped, t.heartbeats), (2, 0, 1, 1, 1));
    assert_eq!(t.latencies, [40, 50]);
    for _ in 0..300 {
        Seat::new().failed(&mut t, "again".to_string());
    }
    assert_eq!((t.failed, t.errors.len()), (301, 200));
}

#[test]
fn a_window_sees_only_what_happens_in_it() {
    let mut t = Tally::new();
    let (mut a, mut b) = (Seat::new(), Seat::new());
    a.joined(&mut t);
    b.joined(&mut t);
    a.relayed(1);
    a.moved(&mut t);
    a.flushed(&mut t);
    let (dropped, beats) = t.open_window();
    assert_eq!((dropped, beats), (0, 1));
    a.relayed(2);
    a.late(5);
    a.moved(&mut t);
    a.flushed(&mut t);
    b.left(&mut t, false);
    let w = t.close_window(dropped, beats);
    assert_eq!((w.live, w.failed, w.dropped, w.heartbeats), (1, 0, 1, 1));
    assert_eq!((w.latencies, w.lags), (vec![2], vec![5]));
    assert!(t.latencies.is_empty() && t.lags.is_empty());
}
