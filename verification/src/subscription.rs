//! How the evidence of a capture is asked for: the words of the command that subscribes to a
//! database, of the one that follows its log, and how long its first lines are waited for.

use vstd::prelude::*;
use crate::capture::Inputs;
use crate::capture;
use crate::number;
use crate::stream;
use crate::text;

verus! {

/// How long a subscription outlasts the measured window: the warm-up and half a minute.
pub const MARGIN_SECONDS: u64 = 60;

/// How long the log is waited for, in milliseconds.
pub const LOG_WAIT_MS: u64 = 20000;

/// The query for the rows of one bot.
pub open spec fn guid_query(table: Seq<char>, guid: u64) -> Seq<char> {
    "SELECT * FROM "@ + table + " WHERE guid = "@ + number::decimal(guid as nat)
}

/// The queries for the rows of some bots.
pub open spec fn guid_queries(table: Seq<char>, guids: Seq<u64>) -> Seq<Seq<char>> {
    guids.map_values(|g: u64| guid_query(table, g))
}

/// Everything that a capture watches: the tables of the scheduler, the movement of each bot, and
/// the ownership evidence.
pub open spec fn watched(guids: Seq<u64>, evidence: Seq<Seq<char>>) -> Seq<Seq<char>> {
    seq![
        capture::table_query(stream::BOT@),
        capture::table_query(stream::RUNNER@),
        capture::table_query(stream::SCHEDULER@),
    ] + guid_queries(stream::SPLINE@, guids) + guid_queries(stream::ENTITY@, guids) + evidence
}

/// The words of the command that subscribes.
pub open spec fn subscribe_words(inputs: Inputs, config: Seq<char>) -> Seq<Seq<char>> {
    seq![
        "--config-path"@,
        config,
        "subscribe"@,
        "--no-config"@,
        "-s"@,
        inputs.server@,
        "--confirmed"@,
        "true"@,
        "--print-initial-update"@,
        "--timeout"@,
        number::decimal((inputs.seconds + MARGIN_SECONDS) as nat),
        inputs.database_identity@,
    ] + watched(inputs.bot_guids@, text::texts(inputs.ownership_evidence.queries@))
}

/// The words of the command that follows the log.
pub open spec fn log_words(inputs: Inputs, config: Seq<char>) -> Seq<Seq<char>> {
    seq![
        "--config-path"@,
        config,
        "logs"@,
        "--no-config"@,
        "--format"@,
        "json"@,
        "--num-lines"@,
        "1"@,
        "--follow"@,
        "-s"@,
        inputs.server@,
        inputs.database_identity@,
    ]
}

fn push_word(v: &mut Vec<String>, w: &str)
    ensures
        text::texts(final(v)@) == text::texts(old(v)@).push(w@),
{
    let ghost before = v@;
    v.push(w.to_owned());
    assert(text::texts(v@) =~= text::texts(before).push(w@));
}

fn push_guid_queries(v: &mut Vec<String>, table: &str, guids: &Vec<u64>)
    ensures
        text::texts(final(v)@) == text::texts(old(v)@) + guid_queries(table@, guids@),
{
    let ghost start = text::texts(v@);
    let ghost all = guid_queries(table@, guids@);
    assert(start + all.take(0) =~= start);
    for i in 0..guids.len()
        invariant
            all == guid_queries(table@, guids@),
            text::texts(v@) == start + all.take(i as int),
    {
        let mut q: String = "SELECT * FROM ".to_owned();
        q.append(table);
        q.append(" WHERE guid = ");
        number::push_decimal(&mut q, guids[i]);
        assert(q@ == all[i as int]);
        push_word(v, q.as_str());
        assert(all.take(i + 1) =~= all.take(i as int).push(all[i as int]));
        assert(text::texts(v@) =~= start + all.take(i + 1));
    }
    assert(all.take(all.len() as int) =~= all);
}

fn push_table_query(v: &mut Vec<String>, table: &str)
    ensures
        text::texts(final(v)@) == text::texts(old(v)@).push(capture::table_query(table@)),
{
    let mut q: String = "SELECT * FROM ".to_owned();
    q.append(table);
    push_word(v, q.as_str());
}

/// The words of the command that subscribes.
pub fn subscribe_args(inputs: &Inputs, config: &str) -> (v: Vec<String>)
    requires
        inputs.seconds + MARGIN_SECONDS <= u64::MAX,
    ensures
        text::texts(v@) == subscribe_words(*inputs, config@),
{
    let mut v: Vec<String> = Vec::new();
    assert(text::texts(v@) =~= Seq::<Seq<char>>::empty());
    push_word(&mut v, "--config-path");
    push_word(&mut v, config);
    push_word(&mut v, "subscribe");
    push_word(&mut v, "--no-config");
    push_word(&mut v, "-s");
    push_word(&mut v, inputs.server.as_str());
    push_word(&mut v, "--confirmed");
    push_word(&mut v, "true");
    push_word(&mut v, "--print-initial-update");
    push_word(&mut v, "--timeout");
    let seconds: String = number::decimal_text(inputs.seconds + MARGIN_SECONDS);
    push_word(&mut v, seconds.as_str());
    push_word(&mut v, inputs.database_identity.as_str());
    push_table_query(&mut v, stream::BOT);
    push_table_query(&mut v, stream::RUNNER);
    push_table_query(&mut v, stream::SCHEDULER);
    push_guid_queries(&mut v, stream::SPLINE, &inputs.bot_guids);
    push_guid_queries(&mut v, stream::ENTITY, &inputs.bot_guids);
    let ghost start = text::texts(v@);
    let ghost all = text::texts(inputs.ownership_evidence.queries@);
    assert(start + all.take(0) =~= start);
    for i in 0..inputs.ownership_evidence.queries.len()
        invariant
            all == text::texts(inputs.ownership_evidence.queries@),
            text::texts(v@) == start + all.take(i as int),
    {
        assert(all[i as int] == inputs.ownership_evidence.queries@[i as int]@);
        push_word(&mut v, inputs.ownership_evidence.queries[i].as_str());
        assert(all.take(i + 1) =~= all.take(i as int).push(all[i as int]));
        assert(text::texts(v@) =~= start + all.take(i + 1));
    }
    assert(all.take(all.len() as int) =~= all);
    assert(text::texts(v@) =~= subscribe_words(*inputs, config@));
    v
}

/// The words of the command that follows the log.
pub fn log_args(inputs: &Inputs, config: &str) -> (v: Vec<String>)
    ensures
        text::texts(v@) == log_words(*inputs, config@),
{
    let mut v: Vec<String> = Vec::new();
    assert(text::texts(v@) =~= Seq::<Seq<char>>::empty());
    push_word(&mut v, "--config-path");
    push_word(&mut v, config);
    push_word(&mut v, "logs");
    push_word(&mut v, "--no-config");
    push_word(&mut v, "--format");
    push_word(&mut v, "json");
    push_word(&mut v, "--num-lines");
    push_word(&mut v, "1");
    push_word(&mut v, "--follow");
    push_word(&mut v, "-s");
    push_word(&mut v, inputs.server.as_str());
    push_word(&mut v, inputs.database_identity.as_str());
    assert(text::texts(v@) =~= log_words(*inputs, config@));
    v
}

/// Every bot is watched in both tables of movement.
pub proof fn every_bot_is_watched(guids: Seq<u64>, evidence: Seq<Seq<char>>, guid: u64)
    requires
        guids.contains(guid),
    ensures
        watched(guids, evidence).contains(guid_query(stream::SPLINE@, guid)),
        watched(guids, evidence).contains(guid_query(stream::ENTITY@, guid)),
{
    let i = choose|i: int| 0 <= i < guids.len() && guids[i] == guid;
    let w = watched(guids, evidence);
    assert(w[3 + i] == guid_query(stream::SPLINE@, guid));
    assert(w[3 + guids.len() + i] == guid_query(stream::ENTITY@, guid));
}

/// How waiting for the log goes on.
#[derive(Clone, Copy, Debug, PartialEq, Eq, Structural)]
pub enum LogWait {
    Ready,
    Wait,
    TooLong,
}

/// Some bytes of a log end with a whole line.
pub open spec fn whole(bytes: Seq<u8>) -> bool {
    bytes.len() > 0 && bytes.last() == 10
}

/// How waiting for the log goes on.
pub open spec fn waiting(ready: bool, waited_ms: u64) -> LogWait {
    if ready {
        LogWait::Ready
    } else if waited_ms > LOG_WAIT_MS {
        LogWait::TooLong
    } else {
        LogWait::Wait
    }
}

/// Whether some bytes of a log end with a whole line.
pub fn ends_whole(bytes: &Vec<u8>) -> (yes: bool)
    ensures
        yes == whole(bytes@),
{
    let n: usize = bytes.len();
    n > 0 && bytes[n - 1] == 10
}

/// How waiting for the log goes on.
pub fn log_wait(ready: bool, waited_ms: u64) -> (w: LogWait)
    ensures
        w == waiting(ready, waited_ms),
{
    if ready {
        LogWait::Ready
    } else if waited_ms > LOG_WAIT_MS {
        LogWait::TooLong
    } else {
        LogWait::Wait
    }
}

/// A log is whole where its last byte is a newline, and is waited for twenty seconds.
pub proof fn a_log_is_waited_for(bytes: Seq<u8>, ready: bool, waited: u64)
    ensures
        whole(bytes.push(0x0a)),
        !whole(Seq::empty()),
        forall|b: u8| b != 0x0a ==> !#[trigger] whole(bytes.push(b)),
        waiting(true, waited) == LogWait::Ready,
        waiting(false, waited) == if waited <= 20_000 {
            LogWait::Wait
        } else {
            LogWait::TooLong
        },
{
}

/// The subscription is told where its configuration lies, which server and which database it is for, and
/// how long it lasts: a minute longer than the measurement. Everything that is watched follows.
pub proof fn a_subscription_outlasts_its_measurement(inputs: Inputs, config: Seq<char>)
    ensures
        ({
            let w = subscribe_words(inputs, config);
            let v = watched(inputs.bot_guids@, text::texts(inputs.ownership_evidence.queries@));
            &&& w.len() == 12 + v.len()
            &&& w[0] == "--config-path"@ && w[1] == config && w[2] == "subscribe"@
            &&& w[4] == "-s"@ && w[5] == inputs.server@
            &&& w[9] == "--timeout"@ && w[10] == number::decimal((inputs.seconds + 60) as nat)
            &&& w[11] == inputs.database_identity@
            &&& w.skip(12) == v
        }),
        ({
            let w = log_words(inputs, config);
            &&& w.len() == 12 && w[1] == config && w[2] == "logs"@ && w[8] == "--follow"@
            &&& w[9] == "-s"@ && w[10] == inputs.server@ && w[11] == inputs.database_identity@
        }),
{
    let v = watched(inputs.bot_guids@, text::texts(inputs.ownership_evidence.queries@));
    assert(subscribe_words(inputs, config).skip(12) =~= v);
}

/// The tables of the scheduler are watched in full, and behind the rows of every bot comes the evidence.
pub proof fn the_scheduler_is_watched(guids: Seq<u64>, evidence: Seq<Seq<char>>)
    ensures
        watched(guids, evidence).len() == 3 + 2 * guids.len() + evidence.len(),
        watched(guids, evidence)[0] == "SELECT * FROM "@ + "pkg_playerbots_bot"@,
        watched(guids, evidence)[1] == "SELECT * FROM "@ + "pkg_playerbots_runner"@,
        watched(guids, evidence)[2] == "SELECT * FROM "@ + "pkg_playerbots_scheduler"@,
        watched(guids, evidence).skip((3 + 2 * guids.len()) as int) == evidence,
        forall|i: int|
            0 <= i < guids.len() ==> #[trigger] watched(guids, evidence)[3 + i] == "SELECT * FROM "@
                + "game_creature_spline"@ + " WHERE guid = "@ + number::decimal(guids[i] as nat),
{
    assert(watched(guids, evidence).skip((3 + 2 * guids.len()) as int) =~= evidence);
}

} // verus!
