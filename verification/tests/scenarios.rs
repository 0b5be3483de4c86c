use std::io::Cursor;
use wire_client::addon::{
    self, addon_message, addon_reply, Chat, ChatKind, ControlPlan, FollowUp, Operation, WalkStep,
};
use wire_client::bank::{self, BankPlan, MoveRead, MoveStep, RelogFault, ShowFault};
use wire_client::banking::{self, Reply, Stage, Visit};
use wire_client::control::{self, Action, Event, Session};
use wire_client::dive::{
    self, check_coordinate, drowning_damage_is_due, validate_breath_timer, DrowningProof,
    EnvironmentalDamage, MirrorTimer, TimerKind, MAX_TIMER_MS,
};
use wire_client::diver::{Dive, Fault, Phase, Seen, Sign, Step};
use wire_client::observer::{
    self, Leg, MoverOrder, Order, SeamFault, SeamMode, SeamRead, SeamWalk, Sight,
};
use wire_client::party::{self, InviteEvent, InviteFault, InviteState, RosterFault};
use wire_client::scenario::{
    self, BuyEvent, DelayFault, Pair, QuestOrder, QuestRun, QuestStep, TrainCastEvent,
};
use wire_client::wire;
use wow_world_messages::vanilla::opcodes::ServerOpcodeMessage as WorldSmsg;
use wow_world_messages::vanilla::{Language, SMSG_MESSAGECHAT_ChatType};

fn reply_body(chat_type: u8, text: &[u8]) -> Vec<u8> {
    let mut body = vec![chat_type];
    body.extend_from_slice(&u32::MAX.to_le_bytes());
    body.extend_from_slice(&123u64.to_le_bytes());
    if chat_type == 1 {
        body.extend_from_slice(&456u64.to_le_bytes());
    }
    body.extend_from_slice(&((text.len() + 1) as u32).to_le_bytes());
    body.extend_from_slice(text);
    body.extend_from_slice(&[0, 0]);
    body
}

fn decode_reply(body: Vec<u8>) -> WorldSmsg {
    let mut bytes = ((body.len() + 2) as u16).to_be_bytes().to_vec();
    bytes.extend_from_slice(&0x0096u16.to_le_bytes());
    bytes.extend_from_slice(&body);
    WorldSmsg::read_unencrypted(&mut Cursor::new(bytes)).unwrap()
}

fn chat_of(message: WorldSmsg) -> Option<Chat> {
    let m = match message {
        WorldSmsg::SMSG_MESSAGECHAT(m) => m,
        _ => return None,
    };
    let (kind, sender) = match m.chat_type {
        SMSG_MESSAGECHAT_ChatType::Party { speech_bubble_credit, .. } => {
            (ChatKind::Party, speech_bubble_credit.guid())
        }
        SMSG_MESSAGECHAT_ChatType::Raid { sender2 } => (ChatKind::Raid, sender2.guid()),
        SMSG_MESSAGECHAT_ChatType::Guild { sender2 } => (ChatKind::Guild, sender2.guid()),
        SMSG_MESSAGECHAT_ChatType::Officer { sender2 } => (ChatKind::Officer, sender2.guid()),
        SMSG_MESSAGECHAT_ChatType::Whisper { sender2 } => (ChatKind::Whisper, sender2.guid()),
        _ => (ChatKind::Other, 0),
    };
    Some(Chat { kind, addon: m.language == Language::Addon, sender, text: m.message })
}

#[test]
fn addon_party_bytes_have_no_whisper_recipient() {
    let body = addon_message("EXAMPLE\trequest").unwrap();
    assert_eq!(wire::CMSG_MESSAGECHAT, 0x0095);
    assert_eq!(body, b"\x01\x00\x00\x00\xff\xff\xff\xffEXAMPLE\trequest\0");
    for invalid in [String::new(), "a\0b".to_owned(), "a".repeat(512)] {
        assert!(addon_message(&invalid).is_err());
    }
}

#[test]
fn addon_replies_preserve_the_complete_text_and_sender() {
    for chat_type in [1, 2, 3, 4, 6] {
        let body = reply_body(chat_type, b"EXAMPLE\treply|one|two");
        let reply = addon_reply(&chat_of(decode_reply(body)).unwrap()).unwrap();
        assert_eq!(reply.chat_type, chat_type);
        assert_eq!(reply.sender_guid, 123);
        assert_eq!(reply.text, "EXAMPLE\treply|one|two");
    }
}

#[test]
fn addon_reply_excludes_ordinary_chat_and_oversized_results() {
    let mut ordinary = reply_body(6, b"reply");
    ordinary[1..5].copy_from_slice(&0u32.to_le_bytes());
    assert!(addon_reply(&chat_of(decode_reply(ordinary)).unwrap()).is_none());
    let large = reply_body(6, &vec![b'x'; 4_097]);
    assert!(addon_reply(&chat_of(decode_reply(large)).unwrap()).is_none());
    assert!(chat_of(WorldSmsg::SMSG_LOGOUT_COMPLETE).is_none());
}

fn asked(message: &str, reply_prefix: &str, pause_after_send: bool) -> Operation {
    Operation::Addon {
        message: message.to_owned(),
        reply_prefix: reply_prefix.to_owned(),
        pause_after_send,
    }
}

#[test]
fn addon_commands_come_in_order_and_carry_what_they_can() {
    assert!(addon::check_command(1, 1, &asked("X", "Y", false)).is_none());
    assert!(addon::check_command(2, 1, &asked("X", "Y", false)).is_some());
    assert!(addon::check_command(1, 1, &asked("", "Y", false)).is_some());
    assert!(addon::check_command(1, 1, &asked("X", "", false)).is_some());
    assert_eq!(addon::follow_up(&asked("X", "Y", true)), FollowUp::Pause);
    assert_eq!(addon::follow_up(&asked("X", "Y", false)), FollowUp::AwaitReply);
    assert_eq!(addon::follow_up(&Operation::Stop), FollowUp::Finish);
    assert_eq!(addon::follow_up(&Operation::Move), FollowUp::Next);
    assert_eq!(addon::next_ordinal(1), Some(2));
    assert_eq!(addon::next_ordinal(addon::COMMAND_LIMIT), None);
    assert_eq!(addon::reply_deadline(10, 20), 20);
    assert_eq!(addon::reply_deadline(10, 1_000_000), 10 + addon::REPLY_MS);
    assert_eq!(addon::file_name("command", 7), "command-7.json");
}

#[test]
fn a_control_directory_and_a_time_are_wanted() {
    let words = |s: &str| -> Vec<String> { s.split_whitespace().map(str::to_string).collect() };
    let plan = ControlPlan::parse(&words("/tmp/x 30")).ok().unwrap();
    assert_eq!(plan.directory, "/tmp/x");
    assert_eq!(plan.seconds, 30);
    assert!(ControlPlan::parse(&words("/tmp/x")).is_err());
    assert!(ControlPlan::parse(&words("/tmp/x 0")).is_err());
    assert!(ControlPlan::parse(&words("/tmp/x 5 more")).is_err());
    assert_eq!(addon::walk_step(0, 0, 1000, 0, 5000), WalkStep::Report);
    assert_eq!(addon::walk_step(100, 0, 1000, 200, 5000), WalkStep::Quiet);
    assert_eq!(addon::walk_step(1000, 0, 1000, 1200, 5000), WalkStep::Arrived);
    assert_eq!(addon::walk_step(5000, 4500, 1000, 4600, 5000), WalkStep::OutOfTime);
}

#[test]
fn breath_timer_bounds_drive_the_wait_budget() {
    let valid = MirrorTimer {
        timer: TimerKind::Breath,
        time_remaining: 60_000,
        duration: 60_000,
        scale: u32::MAX,
        is_frozen: false,
    };
    assert_eq!(validate_breath_timer(valid).unwrap(), 60_000);
    for invalid in [
        MirrorTimer { timer: TimerKind::Fatigue, ..valid },
        MirrorTimer { time_remaining: 0, ..valid },
        MirrorTimer { duration: MAX_TIMER_MS + 1, ..valid },
        MirrorTimer { scale: 1, ..valid },
        MirrorTimer { is_frozen: true, ..valid },
    ] {
        assert!(validate_breath_timer(invalid).is_err());
    }
}

#[test]
fn coordinate_parser_rejects_non_finite_values() {
    for value in ["NaN", "inf", "-inf", "words"] {
        let read = value.parse::<f32>();
        let finite = matches!(&read, Ok(n) if n.is_finite());
        assert!(
            check_coordinate("x", &Some(value.to_string()), read.is_ok(), finite).is_some()
        );
    }
    assert!(check_coordinate("x", &None, false, false).is_some());
    assert!(check_coordinate("x", &Some("1.5".to_string()), true, true).is_none());
}

#[test]
fn drowning_proof_requires_own_log_and_matching_health_loss() {
    let own_guid = 42;
    let mut proof = DrowningProof::new();
    proof.observe(EnvironmentalDamage::Drowning, 99, 20, own_guid);
    proof.observe(EnvironmentalDamage::Fall, own_guid, 20, own_guid);
    assert!(!proof.matches_health(100, Some(80)));
    proof.observe(EnvironmentalDamage::Drowning, own_guid, 20, own_guid);
    assert!(!proof.matches_health(100, None));
    assert!(!proof.matches_health(100, Some(100)));
    assert!(!proof.matches_health(100, Some(79)));
    assert!(proof.matches_health(100, Some(80)));
}

#[test]
fn drowning_damage_must_wait_through_the_advertised_window() {
    assert!(!drowning_damage_is_due(30_000, 60_000));
    assert!(!drowning_damage_is_due(58_499, 60_000));
    assert!(drowning_damage_is_due(58_500, 60_000));
    assert!(drowning_damage_is_due(60_000, 60_000));
}

#[test]
fn coming_up_alive_ends_a_dive() {
    assert_eq!(dive::damage_window_ms(60_000), 68_000);
    assert!(dive::came_too_early(EnvironmentalDamage::Drowning, 1, 5, 1, 58_499, 60_000));
    assert!(!dive::came_too_early(EnvironmentalDamage::Drowning, 1, 5, 1, 58_500, 60_000));
    assert!(!dive::came_too_early(EnvironmentalDamage::Drowning, 2, 5, 1, 0, 60_000));
    assert!(!dive::lives(Some(true), Some(5)));
    assert!(!dive::lives(None, Some(0)));
    assert!(dive::lives(Some(false), Some(5)));
    assert!(dive::lives(None, None));
    assert_eq!(dive::initial_health(Some(0)), None);
    assert_eq!(dive::initial_health(Some(7)), Some(7));
    assert!(dive::surface_timestamp(1000, 50) > 1000);
}

fn breath() -> MirrorTimer {
    MirrorTimer {
        timer: TimerKind::Breath,
        time_remaining: 60_000,
        duration: 60_000,
        scale: u32::MAX,
        is_frozen: false,
    }
}

fn seen(sign: Sign, now: u64, health: u32) -> Seen {
    Seen { sign, now, health: Some(health), dead: None }
}

fn drowning(recipient: u64, amount: u32) -> Sign {
    Sign::Damage { kind: EnvironmentalDamage::Drowning, recipient, amount }
}

#[test]
fn a_dive_ends_with_the_timer_stopped_and_the_diver_alive() {
    let mut dive = Dive::new(1, 100, 1000, 10);
    let other = MirrorTimer { timer: TimerKind::Fatigue, ..breath() };
    assert_eq!(dive.observe(seen(Sign::Tick, 20, 100)), Step::Wait);
    assert_eq!(dive.observe(seen(Sign::Started(other), 30, 100)), Step::Wait);
    assert_eq!(dive.other, Some(TimerKind::Fatigue));
    assert_eq!(dive.observe(seen(Sign::Broken, 35, 100)), Step::Wait);
    assert_eq!(dive.observe(seen(Sign::Started(breath()), 40, 100)), Step::Wait);
    assert_eq!(dive.phase, Phase::Draining { from: 40, advertised: 60_000 });
    assert_eq!(dive.observe(seen(drowning(2, 9), 59_000, 100)), Step::Wait);
    assert_eq!(dive.observe(seen(drowning(1, 20), 59_000, 100)), Step::Wait);
    assert_eq!(dive.observe(seen(Sign::Quiet, 59_400, 80)), Step::Surface(60_401));
    assert_eq!(dive.observe(seen(Sign::Stopped(TimerKind::Fatigue), 59_500, 80)), Step::Wait);
    assert_eq!(dive.observe(seen(Sign::Stopped(TimerKind::Breath), 59_600, 80)), Step::LogOut);
    assert_eq!(dive.phase, Phase::Done);
}

#[test]
fn a_dive_fails_in_words() {
    let start = Dive::new(1, 100, 1000, 10);
    let mut dive = start;
    let late = dive.observe(seen(Sign::Tick, 5010, 100));
    assert_eq!(late, Step::Fail(Fault::NoTimer(None)));
    assert_eq!(
        dive.message(Fault::NoTimer(Some(TimerKind::Fatigue))),
        "STEP 1 FAIL: no Breath SMSG_START_MIRROR_TIMER within 5s; observed Fatigue"
    );
    let mut dive = start;
    let frozen = MirrorTimer { is_frozen: true, ..breath() };
    let refused = dive.observe(seen(Sign::Started(frozen), 20, 100));
    assert_eq!(refused, Step::Fail(Fault::BadTimer(frozen)));
    assert!(dive.message(Fault::BadTimer(frozen)).contains("frozen=true"));
    let mut dive = start;
    dive.observe(seen(Sign::Started(breath()), 0, 100));
    let draining = dive;
    assert_eq!(dive.observe(seen(drowning(1, 5), 58_499, 95)), Step::Fail(Fault::TooEarly));
    let mut dive = draining;
    assert_eq!(dive.observe(seen(drowning(7, 5), 100, 100)), Step::Wait);
    let out = dive.observe(seen(Sign::Tick, 68_000, 100));
    assert_eq!(out, Step::Fail(Fault::NoDamage { health: Some(100) }));
    assert_eq!(
        dive.message(Fault::NoDamage { health: Some(100) }),
        "STEP 2 FAIL: no matched own drowning damage before timer budget ended (logged=0, health 100->Some(100), wrong recipient=Some(7))"
    );
    let mut dive = draining;
    assert_eq!(dive.observe(seen(Sign::Broken, 100, 100)), Step::Lost);
    let mut dive = draining;
    assert_eq!(dive.observe(seen(drowning(1, 100), 59_000, 0)), Step::Surface(60_001));
    let dead = dive.observe(seen(Sign::Stopped(TimerKind::Breath), 59_100, 0));
    assert_eq!(dead, Step::Fail(Fault::Died));
    let mut dive = draining;
    assert_eq!(dive.observe(seen(drowning(1, 10), 59_000, 90)), Step::Surface(60_001));
    assert_eq!(dive.observe(seen(Sign::Tick, 64_000, 90)), Step::Fail(Fault::NoStop(None)));
}

fn slots(read: MoveRead, from: u64, to: u64) -> Reply {
    Reply::Slots { read, from: Some(from), to: Some(to) }
}

#[test]
fn a_visit_to_the_bank_asks_for_one_thing_after_the_other() {
    assert_eq!(
        Visit::new(7, 9, 23, 39, 1, Some(8), 0).err().unwrap(),
        "STEP 0 FAIL: login snapshot slot 23 held Some(8), want item 0x9"
    );
    assert!(Visit::new(7, 9, 23, 39, 1, None, 0).is_err());
    let mut visit = Visit::new(7, 9, 23, 39, 1, Some(9), 0).unwrap();
    let steps = [
        (banking::Order::Open(7), Reply::Shown(Some(7))),
        (banking::Order::Deposit(23), slots(MoveRead::Message, 0, 9)),
        (banking::Order::ConfirmDeposit, Reply::Confirmed(true)),
        (banking::Order::LogOut, Reply::LoggedOut(true)),
        (banking::Order::LogIn(1), Reply::Entered { own: 1, held: Some(9) }),
        (banking::Order::ConfirmRelog, Reply::Confirmed(true)),
        (banking::Order::Open(7), Reply::Shown(Some(7))),
        (banking::Order::Withdraw(39), slots(MoveRead::Timeout, 0, 9)),
        (banking::Order::ConfirmWithdrawal, Reply::Confirmed(true)),
        (banking::Order::Buy(7), Reply::Bought(Some(true))),
    ];
    for (at, (order, reply)) in steps.into_iter().enumerate() {
        assert_eq!(visit.order(), order, "{at}");
        assert_eq!(visit.answer(reply, at as u64), None, "{at}");
    }
    assert_eq!(visit.stage, Stage::Done);
    assert_eq!(visit.order(), banking::Order::Nothing);
}

#[test]
fn a_visit_to_the_bank_fails_in_words() {
    let start = Visit::new(7, 9, 23, 39, 1, Some(9), 0).unwrap();
    let at = |stage: Stage| Visit { stage, ..start };
    let fails = |stage: Stage, reply: Reply, now: u64| {
        let mut visit = at(stage);
        let fault = visit.answer(reply, now).unwrap();
        assert_eq!(visit.stage, Stage::Failed);
        visit.message(stage, fault, "AS TOLD")
    };
    assert_eq!(
        fails(Stage::Open, Reply::Shown(None), 0),
        "STEP 1 FAIL: no SMSG_SHOW_BANK within 5s of CMSG_BANKER_ACTIVATE"
    );
    assert_eq!(
        fails(Stage::Reopen, Reply::Shown(Some(31)), 0),
        "STEP 4 FAIL: SMSG_SHOW_BANK named 0x1f, want 0x7"
    );
    assert_eq!(
        fails(Stage::Deposit, slots(MoveRead::Refused, 0, 9), 0),
        "STEP 2 FAIL: SMSG_INVENTORY_CHANGE_FAILURE AS TOLD"
    );
    assert_eq!(fails(Stage::Deposit, slots(MoveRead::Broken, 9, 0), 0), "AS TOLD");
    assert_eq!(
        fails(Stage::Withdraw, Reply::Tick, 5000),
        "STEP 4 FAIL: no complete item move within 5s (item 0x9, slot 39 -> 23; observed source=None, destination=None)"
    );
    assert!(fails(Stage::Deposit, Reply::Tick, 5000).contains("(item 0x9, slot 23 -> 39; "));
    assert_eq!(
        fails(Stage::Withdrawn, Reply::Confirmed(false), 0),
        "STEP 4 FAIL: adapter did not confirm the durable withdrawal (AS TOLD not consumed within 30s)"
    );
    assert!(fails(Stage::Persisted, Reply::Confirmed(false), 0).contains("relog persistence"));
    assert!(fails(Stage::Deposited, Reply::Confirmed(false), 0).contains("durable deposit"));
    assert_eq!(fails(Stage::LogOut, Reply::LoggedOut(false), 0), "STEP 3 FAIL: logout was refused");
    assert!(fails(Stage::LogIn, Reply::Entered { own: 2, held: None }, 0).contains("want 0x1"));
    assert_eq!(
        fails(Stage::LogIn, Reply::Entered { own: 1, held: Some(8) }, 0),
        "STEP 3 FAIL: relog snapshot bank slot 39 held Some(8), want item 0x9"
    );
    assert_eq!(
        fails(Stage::Buy, Reply::Bought(Some(false)), 0),
        "STEP 5 FAIL: SMSG_BUY_BANK_SLOT_RESULT=AS TOLD"
    );
    assert!(fails(Stage::Buy, Reply::Bought(None), 0).contains("within 5s"));
    let mut visit = at(Stage::Deposit);
    assert_eq!(visit.answer(Reply::Tick, 4999), None);
    assert_eq!(visit.answer(slots(MoveRead::Message, 9, 0), 4999), None);
    assert_eq!(visit.route(), (23, 39));
    assert_eq!(at(Stage::Withdraw).route(), (39, 23));
}

fn words(s: &str) -> Vec<String> {
    s.split_whitespace().map(str::to_string).collect()
}

#[test]
fn a_bank_plan_moves_between_the_pack_and_the_bank() {
    let plan = BankPlan::parse(&words("7 9 23 39 /d /p /w")).ok().unwrap();
    assert_eq!((plan.banker, plan.item, plan.carry_slot, plan.bank_slot), (7, 9, 23, 39));
    assert_eq!(plan.withdrawn, "/w");
    for refused in [
        "x 9 23 39 /d /p /w",
        "7 9 22 39 /d /p /w",
        "7 9 39 39 /d /p /w",
        "7 9 23 38 /d /p /w",
        "7 9 23 63 /d /p /w",
        "7 9 23 39 /d /p",
    ] {
        assert!(BankPlan::parse(&words(refused)).is_err(), "{refused}");
    }
    assert_eq!(bank::move_step(MoveRead::Message, Some(0), Some(9), 9), MoveStep::Moved);
    assert_eq!(bank::move_step(MoveRead::Message, Some(9), None, 9), MoveStep::Wait);
    assert_eq!(bank::move_step(MoveRead::Refused, Some(9), None, 9), MoveStep::Refused);
    assert_eq!(bank::move_step(MoveRead::Broken, Some(9), None, 9), MoveStep::Broken);
    assert_eq!(bank::shown(None, 7), Some(ShowFault::Silent));
    assert_eq!(bank::shown(Some(8), 7), Some(ShowFault::Other(8)));
    assert_eq!(bank::shown(Some(7), 7), None);
    assert_eq!(bank::relogged(2, 1, Some(9), 9), Some(RelogFault::OtherCharacter));
    assert_eq!(bank::relogged(1, 1, None, 9), Some(RelogFault::OtherItem));
    assert_eq!(bank::relogged(1, 1, Some(9), 9), None);
}

#[test]
fn an_invitation_is_settled_by_an_answer_and_a_roster() {
    let roster = InviteEvent::Roster { leader: 1, names: vec!["Peer".into()] };
    let mut s = InviteState::new();
    s.observe(&InviteEvent::Answer { success: true }, "Peer", 1);
    assert_eq!(s.verdict(), Some(InviteFault::Unlisted));
    s.observe(&roster, "Peer", 1);
    assert_eq!(s.verdict(), None);
    let mut s = InviteState::new();
    s.observe(&roster, "Peer", 1);
    assert_eq!(s.verdict(), Some(InviteFault::Unanswered));
    let mut s = InviteState::new();
    s.observe(&InviteEvent::Answer { success: false }, "Peer", 1);
    assert_eq!(s.verdict(), Some(InviteFault::Refused));
    let mut s = InviteState::new();
    s.observe(&InviteEvent::Answer { success: true }, "Peer", 1);
    s.observe(&InviteEvent::Roster { leader: 9, names: vec!["Peer".into()] }, "Peer", 1);
    assert_eq!(s.verdict(), Some(InviteFault::WrongLeader(9)));
    assert_eq!(party::leader_roster(2, &words("Peer"), 1, "Peer"), Some(RosterFault::WrongLeader(2)));
    assert_eq!(party::leader_roster(1, &words("Other"), 1, "Peer"), Some(RosterFault::Lacks));
    assert_eq!(party::leader_roster(1, &words("Other Peer"), 1, "Peer"), None);
    assert_eq!(party::missing_from(&words("A B"), &words("A")).as_deref(), Some("B"));
}

#[test]
fn a_declined_invitation_names_the_invited() {
    let mut s = InviteState::new();
    s.observe_decline(&InviteEvent::Answer { success: true }, "Peer");
    s.observe_decline(&InviteEvent::Decline { name: "Peer".into() }, "Peer");
    assert_eq!(s.verdict(), None);
    let mut s = InviteState::new();
    s.observe_decline(&InviteEvent::Answer { success: true }, "Peer");
    s.observe_decline(&InviteEvent::Decline { name: "Else".into() }, "Peer");
    assert_eq!(s.verdict(), Some(InviteFault::WrongName));
}

#[test]
fn a_quest_runs_through_every_reply() {
    let mut run = QuestRun::new(783, 11, 12);
    assert_eq!(run.orders(), vec![QuestOrder::Hello]);
    assert_eq!(run.answer(Some(783)), None);
    assert_eq!(run.orders(), vec![QuestOrder::Accept, QuestOrder::Attack(11)]);
    assert_eq!(run.answer(Some(1)), None);
    assert_eq!(run.orders(), vec![QuestOrder::Attack(12)]);
    assert_eq!(run.answer(Some(2)), None);
    assert_eq!(run.step, QuestStep::Loot);
    let refused = run.answer(None).unwrap();
    assert_eq!(refused.got, None);
}

#[test]
fn a_purchase_is_bought_and_learned() {
    let mut p = Pair::new();
    p.observe_buy(BuyEvent::Bought(133), 133);
    assert!(!matches!(p, Pair::Seen));
    p.observe_buy(BuyEvent::Learned(133), 133);
    assert!(matches!(p, Pair::Seen));
    let mut p = Pair::new();
    p.observe_buy(BuyEvent::Bought(1), 133);
    p.observe_buy(BuyEvent::Refused, 133);
    assert!(matches!(p, Pair::Refused));
    let mut p = Pair::new();
    p.observe_cast(TrainCastEvent::Start { timer: 1500 }, 133, 1500);
    p.observe_cast(TrainCastEvent::Go { spell: 133 }, 133, 1500);
    assert!(matches!(p, Pair::Seen));
    assert!(scenario::stocks(&vec![1, 2], 2));
    assert!(!scenario::stocks(&vec![1, 2], 3));
    assert_eq!(scenario::check_reclaim_delay(None), Some(DelayFault::Missing));
    assert_eq!(scenario::check_reclaim_delay(Some(1)), Some(DelayFault::Wrong(1)));
    assert_eq!(scenario::check_reclaim_delay(Some(scenario::RECLAIM_DELAY_MS)), None);
}

#[test]
fn observers_take_orders_and_tell_what_they_saw() {
    assert!(matches!(observer::order_of("done", 5), Order::Done));
    match observer::order_of("walk /tmp/f 1 2 3", 5) {
        Order::Walk(v) => assert!(v.len() >= 3),
        other => panic!("{other:?}"),
    }
    assert!(matches!(observer::order_of("gibberish", 5), Order::Unknown(_)));
    let destroy = 5u64.to_le_bytes().to_vec();
    assert!(observer::frame_shows(Sight::Destroyed, wire::SMSG_DESTROY_OBJECT, &destroy, 5));
    assert!(!observer::frame_shows(Sight::Destroyed, wire::SMSG_DESTROY_OBJECT, &destroy, 6));
    assert!(observer::has_guid(&vec![1, 5], 5));
    assert!(matches!(observer::mover_order("exit"), MoverOrder::Exit));
}

#[test]
fn a_seam_is_walked_without_a_transfer() {
    assert_eq!(observer::seam_mode_of(&None), SeamMode::RoundTrip);
    assert_eq!(observer::legs_of(SeamMode::OneWay), vec![Leg::There]);
    let mut w = SeamWalk::new();
    w.read(SeamRead::Other);
    assert_eq!(w.verdict((1, 1), (1, 1)), Some(SeamFault::NoSeam));
    assert_eq!(w.verdict((1, 1), (1, 2)), None);
    w.read(SeamRead::NewWorld);
    assert_eq!(w.verdict((1, 1), (1, 2)), Some(SeamFault::Transferred));
}

fn addon_command(pause_after_send: bool) -> control::Event {
    control::Event::Commanded {
        declared: 1,
        operation: Operation::Addon {
            message: "ASK".to_string(),
            reply_prefix: "YES".to_string(),
            pause_after_send,
        },
    }
}

fn said(text: &str) -> Option<Chat> {
    Some(Chat { kind: ChatKind::Party, addon: true, sender: 7, text: text.to_string() })
}

fn failed(action: Action) -> String {
    match action {
        Action::Fail(said) => said,
        other => panic!("{other:?}"),
    }
}

#[test]
fn a_session_does_one_thing_after_the_other() {
    let mut s = Session::open(100_000);
    assert_eq!(s.ordinal(), 1);
    assert!(matches!(s.tell(Event::Looked { there: false, now: 0 }), Action::Drain));
    assert!(matches!(s.tell(Event::Performed), Action::Nothing));
    assert!(matches!(s.tell(Event::Looked { there: true, now: 10 }), Action::Read));
    assert!(matches!(s.tell(addon_command(false)), Action::Perform));
    assert!(matches!(s.tell(Event::Performed), Action::PublishSent));
    assert!(matches!(s.tell(Event::Published { now: 20 }), Action::Listen));
    assert!(matches!(s.tell(Event::Heard { chat: said("NO"), now: 30 }), Action::Listen));
    assert!(matches!(s.tell(Event::Heard { chat: None, now: 60_019 }), Action::Listen));
    match s.tell(Event::Heard { chat: said("YES 5"), now: 60_020 }) {
        Action::PublishReply(r) => assert_eq!((r.chat_type, r.sender_guid, r.text.as_str()), (1, 7, "YES 5")),
        other => panic!("{other:?}"),
    }
    assert!(matches!(s.tell(Event::Published { now: 60_021 }), Action::Look));
    assert_eq!(s.ordinal(), 2);
    assert!(matches!(s.tell(Event::Looked { there: true, now: 60_022 }), Action::Read));
    let walk = Event::Commanded { declared: 2, operation: Operation::Move };
    assert!(matches!(s.tell(walk), Action::Perform));
    assert!(matches!(s.tell(Event::Performed), Action::PublishSent));
    assert!(matches!(s.tell(Event::Published { now: 60_030 }), Action::PublishDone));
    assert!(matches!(s.tell(Event::Published { now: 60_031 }), Action::Look));
    assert!(matches!(s.tell(Event::Looked { there: true, now: 60_032 }), Action::Read));
    let stop = Event::Commanded { declared: 3, operation: Operation::Stop };
    assert!(matches!(s.tell(stop), Action::Perform));
    assert!(matches!(s.tell(Event::Performed), Action::PublishSent));
    assert!(matches!(s.tell(Event::Published { now: 60_033 }), Action::PublishStopped));
    assert!(matches!(s.tell(Event::Published { now: 60_034 }), Action::Finish));
    assert!(matches!(s.tell(Event::Published { now: 60_035 }), Action::Nothing));
}

#[test]
fn a_session_ends_with_its_time() {
    let mut s = Session::open(1000);
    assert_eq!(
        failed(s.tell(Event::Looked { there: false, now: 1000 })),
        "scenario deadline waiting for command 1"
    );
    let mut s = Session::open(1000);
    assert_eq!(
        failed(s.tell(Event::Looked { there: true, now: 1000 })),
        "scenario deadline before command 1"
    );
    let given = |pause: bool| {
        let mut s = Session::open(1000);
        s.tell(Event::Looked { there: true, now: 0 });
        s.tell(addon_command(pause));
        s.tell(Event::Performed);
        s
    };
    let mut s = given(true);
    assert!(matches!(s.tell(Event::Published { now: 0 }), Action::Rest));
    assert!(matches!(s.tell(Event::Rested { now: 999 }), Action::Rest));
    assert_eq!(
        failed(s.tell(Event::Rested { now: 1000 })),
        "scenario deadline while paused after command 1"
    );
    let mut s = given(false);
    assert!(matches!(s.tell(Event::Published { now: 0 }), Action::Listen));
    assert_eq!(failed(s.tell(Event::Heard { chat: None, now: 1000 })), "addon reply deadline reached");
    let mut s = Session::open(1000);
    s.tell(Event::Looked { there: true, now: 0 });
    let other = Event::Commanded { declared: 2, operation: Operation::Stop };
    assert_eq!(failed(s.tell(other)), "command ordinal does not match filename");
    let mut s = Session::open(1000);
    let mut last = Action::Look;
    for n in 1..=addon::COMMAND_LIMIT {
        assert!(matches!(last, Action::Look), "{n}");
        s.tell(Event::Looked { there: true, now: 0 });
        s.tell(Event::Commanded { declared: n, operation: Operation::Areatrigger { trigger_id: n } });
        s.tell(Event::Performed);
        s.tell(Event::Published { now: 0 });
        last = s.tell(Event::Published { now: 0 });
    }
    assert_eq!(failed(last), "control command limit reached without stop");
}

#[test]
fn the_seconds_of_a_session_are_read_as_a_number() {
    let refused = |s: &str| ControlPlan::parse(&words(s)).err().unwrap();
    assert_eq!(refused("/d x"), "invalid digit found in string");
    assert_eq!(refused("/d 99999999999999999999"), "number too large to fit in target type");
    assert_eq!(refused("/d 0"), "expected a duration of 1 through 3600 seconds");
    assert_eq!(refused("/d 3601"), "expected a duration of 1 through 3600 seconds");
    assert_eq!(refused("/d 5 more"), "expected a duration of 1 through 3600 seconds");
    assert_eq!(ControlPlan::parse(&words("/d 3600")).ok().unwrap().seconds, 3600);
}
