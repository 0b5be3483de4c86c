//! Control of a session through command files: which commands are taken, what they send, and what
//! counts as their reply.

use vstd::prelude::*;
use crate::number;
use crate::text;

verus! {

/// How many commands a session takes.
pub const COMMAND_LIMIT: u32 = 256;

/// How large a command file may be, in bytes.
pub const INPUT_LIMIT: u64 = 8192;

/// How large a result file may be, in bytes.
pub const OUTPUT_LIMIT: usize = 1048576;

/// How large an addon message may be, in bytes.
pub const MESSAGE_LIMIT: usize = 511;

/// How large a reply may be, in bytes.
pub const REPLY_LIMIT: usize = 4096;

/// How long a reply is waited for, in milliseconds.
pub const REPLY_MS: u64 = 60000;

/// How often a walking character says where it is, in milliseconds.
pub const WALK_MS: u64 = 200;

/// How the scenario is called.
pub const USAGE: &'static str = "addon-control <control_dir> <seconds>";

/// A text that an addon can carry: not empty, not too long, and without NUL.
pub open spec fn carriable(s: Seq<char>) -> bool {
    s.len() > 0 && vstd::utf8::encode_utf8(s).len() <= MESSAGE_LIMIT && !s.contains('\0')
}

/// Whether an addon can carry a text.
pub fn can_carry(s: &str) -> (yes: bool)
    ensures
        yes == carriable(s@),
{
    let v = text::chars_of(s);
    if v.len() == 0 || s.as_bytes().len() > MESSAGE_LIMIT {
        return false;
    }
    let n: usize = v.len();
    let at: usize = text::index_of(&v, '\0', 0);
    if at < n {
        assert(v@[at as int] == '\0');
    } else {
        assert(!v@.contains('\0'));
    }
    at == n
}

/// The body of a message to the party in the addon language: no recipient is named.
pub open spec fn party_bytes(message: Seq<char>) -> Seq<u8> {
    seq![1u8, 0, 0, 0, 255, 255, 255, 255] + vstd::utf8::encode_utf8(message) + seq![0u8]
}

/// Said of a message that an addon cannot carry.
pub open spec fn not_carriable() -> Seq<char> {
    "addon message must contain 1 through 511 bytes without NUL"@
}

/// The body of a message to the party, where an addon can carry it.
pub open spec fn party_body(message: Seq<char>) -> Result<Seq<u8>, Seq<char>> {
    if carriable(message) {
        Ok(party_bytes(message))
    } else {
        Err(not_carriable())
    }
}

/// The body of a message to the party in the addon language.
pub fn addon_message(message: &str) -> (r: Result<Vec<u8>, String>)
    ensures
        match (r, party_body(message@)) {
            (Ok(body), Ok(bytes)) => body@ == bytes,
            (Err(said), Err(words)) => said@ == words,
            _ => false,
        },
{
    if !can_carry(message) {
        return Err("addon message must contain 1 through 511 bytes without NUL".to_owned());
    }
    let mut body: Vec<u8> = vec![1, 0, 0, 0, 255, 255, 255, 255];
    let bytes = message.as_bytes();
    let ghost start = body@;
    for i in 0..bytes.len()
        invariant
            body@ == start + bytes@.take(i as int),
    {
        body.push(bytes[i]);
        assert(bytes@.take(i + 1) =~= bytes@.take(i as int).push(bytes@[i as int]));
    }
    assert(bytes@.take(bytes@.len() as int) =~= bytes@);
    body.push(0);
    assert(body@ =~= party_bytes(message@));
    Ok(body)
}

/// How something was said.
#[derive(Clone, Copy, Debug, PartialEq, Eq, Structural)]
pub enum ChatKind {
    Party,
    Raid,
    Guild,
    Officer,
    Whisper,
    Other,
}

/// Something that was said.
#[derive(Debug)]
pub struct Chat {
    pub kind: ChatKind,
    /// It was said in the addon language.
    pub addon: bool,
    pub sender: u64,
    pub text: String,
}

/// A reply in the addon language.
#[derive(Debug)]
pub struct AddonReply {
    pub chat_type: u8,
    pub sender_guid: u64,
    pub text: String,
}

/// The number of a way of speaking that carries addon replies.
pub open spec fn chat_number(k: ChatKind) -> Option<u8> {
    match k {
        ChatKind::Party => Some(1u8),
        ChatKind::Raid => Some(2u8),
        ChatKind::Guild => Some(3u8),
        ChatKind::Officer => Some(4u8),
        ChatKind::Whisper => Some(6u8),
        ChatKind::Other => None,
    }
}

/// Something that was said is a reply.
pub open spec fn is_reply(c: Chat) -> bool {
    c.addon && vstd::utf8::encode_utf8(c.text@).len() <= REPLY_LIMIT && chat_number(c.kind) is Some
}

/// The reply that something said is: its way, its sender and its whole text.
pub fn addon_reply(c: &Chat) -> (r: Option<AddonReply>)
    ensures
        match r {
            Some(reply) => {
                &&& is_reply(*c)
                &&& chat_number(c.kind) == Some(reply.chat_type)
                &&& reply.sender_guid == c.sender
                &&& reply.text@ == c.text@
            },
            None => !is_reply(*c),
        },
{
    if !c.addon || c.text.as_str().as_bytes().len() > REPLY_LIMIT {
        return None;
    }
    let chat_type: u8 = match c.kind {
        ChatKind::Party => 1,
        ChatKind::Raid => 2,
        ChatKind::Guild => 3,
        ChatKind::Officer => 4,
        ChatKind::Whisper => 6,
        ChatKind::Other => {
            return None;
        },
    };
    Some(AddonReply { chat_type, sender_guid: c.sender, text: c.text.clone() })
}

/// Whether a reply is the one that was waited for.
pub fn answers(reply: &AddonReply, prefix: &str) -> (yes: bool)
    ensures
        yes == text::begins_with(reply.text@, prefix@),
{
    text::starts_with(reply.text.as_str(), prefix)
}

/// What a command does.
#[derive(Debug)]
pub enum Operation {
    /// Says something to the party's addons and waits for a reply.
    Addon { message: String, reply_prefix: String, pause_after_send: bool },
    /// Walks.
    Move,
    /// Steps on a trigger.
    Areatrigger { trigger_id: u32 },
    /// Ends the session.
    Stop,
}

/// What follows a command.
#[derive(Clone, Copy, Debug, PartialEq, Eq, Structural)]
pub enum FollowUp {
    /// Nothing is sent or read until the session's time is up.
    Pause,
    /// The reply is waited for.
    AwaitReply,
    /// The session ends.
    Finish,
    /// The next command.
    Next,
}

/// Why a command is not taken, if so.
pub open spec fn command_fault(declared: u32, ordinal: u32, op: Operation) -> Option<Seq<char>> {
    if declared != ordinal {
        Some("command ordinal does not match filename"@)
    } else {
        match op {
            Operation::Addon { message, reply_prefix, .. } => if !carriable(reply_prefix@) {
                Some("invalid addon reply prefix"@)
            } else if !carriable(message@) {
                Some(not_carriable())
            } else {
                None
            },
            _ => None,
        }
    }
}

/// Judges a command by the number of its file.
pub fn check_command(declared: u32, ordinal: u32, op: &Operation) -> (f: Option<String>)
    ensures
        text::text_of(f) == command_fault(declared, ordinal, *op),
{
    if declared != ordinal {
        return Some("command ordinal does not match filename".to_owned());
    }
    match op {
        Operation::Addon { message, reply_prefix, pause_after_send: _ } => if !can_carry(
            reply_prefix.as_str(),
        ) {
            Some("invalid addon reply prefix".to_owned())
        } else if !can_carry(message.as_str()) {
            Some("addon message must contain 1 through 511 bytes without NUL".to_owned())
        } else {
            None
        },
        _ => None,
    }
}

/// What a command is followed by.
pub open spec fn followed_by(op: Operation) -> FollowUp {
    match op {
        Operation::Addon { pause_after_send, .. } => if pause_after_send {
            FollowUp::Pause
        } else {
            FollowUp::AwaitReply
        },
        Operation::Stop => FollowUp::Finish,
        _ => FollowUp::Next,
    }
}

/// What follows a command.
pub fn follow_up(op: &Operation) -> (f: FollowUp)
    ensures
        f == followed_by(*op),
{
    match op {
        Operation::Addon { message: _, reply_prefix: _, pause_after_send } => if *pause_after_send {
            FollowUp::Pause
        } else {
            FollowUp::AwaitReply
        },
        Operation::Stop => FollowUp::Finish,
        _ => FollowUp::Next,
    }
}

/// The number of the command after a command.
pub open spec fn ordinal_after(ordinal: u32) -> Option<u32> {
    if ordinal < COMMAND_LIMIT {
        Some((ordinal + 1) as u32)
    } else {
        None
    }
}

/// The number of the command after a command: none once the limit is reached.
pub fn next_ordinal(ordinal: u32) -> (n: Option<u32>)
    ensures
        n == ordinal_after(ordinal),
{
    if ordinal < COMMAND_LIMIT {
        Some(ordinal + 1)
    } else {
        None
    }
}

/// Until when a reply is waited for: a minute, but not past the end of the session.
pub open spec fn reply_end(now: u64, end: u64) -> u64 {
    if now + REPLY_MS <= end {
        (now + REPLY_MS) as u64
    } else {
        end
    }
}

/// Until when a reply is waited for.
pub fn reply_deadline(now: u64, end: u64) -> (t: u64)
    ensures
        t == reply_end(now, end),
{
    if now <= end && end - now >= REPLY_MS {
        now + REPLY_MS
    } else {
        end
    }
}

/// What a session is about: its directory and how long it lasts.
pub struct ControlPlan {
    pub directory: String,
    pub seconds: u64,
}

/// Said of an argument that is missing.
pub open spec fn missing(name: Seq<char>) -> Seq<char> {
    "usage: "@ + USAGE@ + " \u{2014} missing <"@ + name + ">"@
}

fn say_missing(name: &str) -> (s: String)
    ensures
        s@ == missing(name@),
{
    let mut s: String = "usage: ".to_owned();
    s.append(USAGE);
    s.append(" \u{2014} missing <");
    s.append(name);
    s.append(">");
    s
}

/// What the arguments of a session ask for.
pub open spec fn control_plan(a: Seq<Seq<char>>) -> Result<(Seq<char>, nat), Seq<char>> {
    if a.len() == 0 {
        Err(missing("control_dir"@))
    } else if a.len() == 1 {
        Err(missing("seconds"@))
    } else {
        match number::unsigned_value(a[1], u64::MAX as nat) {
            None => Err(number::unsigned_fault(a[1], u64::MAX as nat)),
            Some(seconds) => if 1 <= seconds <= 3600 && a.len() == 2 {
                Ok((a[0], seconds))
            } else {
                Err("expected a duration of 1 through 3600 seconds"@)
            },
        }
    }
}

impl ControlPlan {
    /// Reads the arguments of a session.
    pub fn parse(args: &Vec<String>) -> (r: Result<ControlPlan, String>)
        ensures
            match r {
                Ok(p) => control_plan(text::texts(args@)) == Ok::<(Seq<char>, nat), Seq<char>>(
                    (p.directory@, p.seconds as nat),
                ),
                Err(said) => control_plan(text::texts(args@)) == Err::<
                    (Seq<char>, nat),
                    Seq<char>,
                >(said@),
            },
    {
        assert(text::texts(args@).len() == args@.len());
        if args.len() == 0 {
            return Err(say_missing("control_dir"));
        }
        if args.len() == 1 {
            return Err(say_missing("seconds"));
        }
        assert(text::texts(args@)[0] == args@[0]@);
        assert(text::texts(args@)[1] == args@[1]@);
        match number::parse_unsigned(args[1].as_str(), u64::MAX) {
            Some(seconds) => if 1 <= seconds && seconds <= 3600 && args.len() == 2 {
                Ok(ControlPlan { directory: args[0].clone(), seconds })
            } else {
                Err("expected a duration of 1 through 3600 seconds".to_owned())
            },
            None => Err(number::explain_unsigned(args[1].as_str(), u64::MAX)),
        }
    }
}

/// The name of a file of a session.
pub open spec fn file_of(kind: Seq<char>, ordinal: nat) -> Seq<char> {
    kind + "-"@ + number::decimal(ordinal) + ".json"@
}

/// The name under which a file is written before it is published.
pub open spec fn temporary(name: Seq<char>) -> Seq<char> {
    "."@ + name + ".tmp"@
}

/// The name of a file of a session: what it is, and the number of its command.
pub fn file_name(kind: &str, ordinal: u32) -> (s: String)
    ensures
        s@ == file_of(kind@, ordinal as nat),
{
    let mut s: String = kind.to_owned();
    s.append("-");
    number::push_decimal(&mut s, ordinal as u64);
    s.append(".json");
    s
}

/// The name under which a file is written before it is published.
pub fn temporary_name(name: &str) -> (s: String)
    ensures
        s@ == temporary(name@),
{
    let mut s: String = ".".to_owned();
    s.append(name);
    s.append(".tmp");
    s
}

/// What a walking character does now.
#[derive(Clone, Copy, Debug, PartialEq, Eq, Structural)]
pub enum WalkStep {
    /// Its time is up before it arrives.
    OutOfTime,
    /// It has arrived, and stops.
    Arrived,
    /// It says where it is.
    Report,
    /// It walks on.
    Quiet,
}

/// What a walking character does now.
pub open spec fn walks(now: u64, started: u64, duration: u64, next: u64, end: u64) -> WalkStep {
    if now >= end {
        WalkStep::OutOfTime
    } else if now >= started + duration {
        WalkStep::Arrived
    } else if now >= next {
        WalkStep::Report
    } else {
        WalkStep::Quiet
    }
}

/// A walk that starts now ends within a session.
pub open spec fn fits(now: u64, duration: u64, end: u64) -> bool {
    now + duration < end
}

/// What a walking character does now: `started` and `duration` say when it arrives, `next` when it
/// reports.
pub fn walk_step(now: u64, started: u64, duration: u64, next: u64, end: u64) -> (s: WalkStep)
    ensures
        s == walks(now, started, duration, next, end),
{
    if now >= end {
        WalkStep::OutOfTime
    } else if now >= started && now - started >= duration {
        WalkStep::Arrived
    } else if now >= next {
        WalkStep::Report
    } else {
        WalkStep::Quiet
    }
}

/// Whether a walk that starts now ends within a session.
pub fn walk_fits(now: u64, duration: u64, end: u64) -> (yes: bool)
    ensures
        yes == fits(now, duration, end),
{
    now < end && duration < end - now
}

/// A message goes to the party in the addon language, with a NUL at its end, exactly where it has a byte
/// at least, five hundred and eleven at most, and no NUL of its own.
pub proof fn a_message_is_carried_in_full(message: Seq<char>)
    ensures
        party_body(message) is Ok <==> message.len() > 0 && vstd::utf8::encode_utf8(message).len() <= 511
            && !message.contains('\0'),
        party_body(message) matches Ok(b) ==> {
            &&& b.len() == 9 + vstd::utf8::encode_utf8(message).len()
            &&& b.take(4) == seq![1u8, 0, 0, 0]
            &&& b.subrange(4, 8) == seq![0xFFu8, 0xFF, 0xFF, 0xFF]
            &&& b.subrange(8, b.len() - 1) == vstd::utf8::encode_utf8(message)
            &&& b.last() == 0
        },
{
    let b = party_bytes(message);
    assert(b.take(4) =~= seq![1u8, 0, 0, 0]);
    assert(b.subrange(4, 8) =~= seq![0xFFu8, 0xFF, 0xFF, 0xFF]);
    assert(b.subrange(8, b.len() - 1) =~= vstd::utf8::encode_utf8(message));
}

/// A reply comes in the addon language, to the party, the raid, the guild, its officers or in a whisper,
/// each with its own number, and is no longer than four kibibytes.
pub proof fn a_reply_comes_by_five_ways(c: Chat)
    ensures
        is_reply(c) <==> c.addon && c.kind != ChatKind::Other && vstd::utf8::encode_utf8(c.text@).len()
            <= 4 * 1024,
        chat_number(ChatKind::Party) == Some(1u8),
        chat_number(ChatKind::Raid) == Some(2u8),
        chat_number(ChatKind::Guild) == Some(3u8),
        chat_number(ChatKind::Officer) == Some(4u8),
        chat_number(ChatKind::Whisper) == Some(6u8),
{
}

/// Commands are numbered one after another up to the two hundred and fifty-sixth.
pub proof fn commands_follow_one_another(ordinal: u32)
    ensures
        ordinal <= 255 ==> ordinal_after(ordinal) == Some((ordinal + 1) as u32),
        ordinal >= 256 ==> ordinal_after(ordinal) is None,
{
}

/// A reply is waited for one minute, and never past the end of the session.
pub proof fn a_reply_is_waited_for_a_minute(now: u64, end: u64)
    ensures
        now + 60_000 <= end ==> reply_end(now, end) - now == 60 * 1000,
        now + 60_000 > end ==> reply_end(now, end) == end,
        reply_end(now, end) <= end,
{
}

/// A command is taken exactly where it bears its file's number and, to say something, can carry it and the
/// beginning of its reply.
pub proof fn a_command_is_taken_by_its_number(
    declared: u32,
    ordinal: u32,
    message: String,
    reply_prefix: String,
    pause: bool,
)
    ensures
        command_fault(
            declared,
            ordinal,
            Operation::Addon { message, reply_prefix, pause_after_send: pause },
        ) is None <==> declared == ordinal && carriable(message@) && carriable(reply_prefix@),
        command_fault(declared, ordinal, Operation::Stop) is None <==> declared == ordinal,
        command_fault(declared, ordinal, Operation::Move) is None <==> declared == ordinal,
        followed_by(Operation::Addon { message, reply_prefix, pause_after_send: true })
            == FollowUp::Pause,
        followed_by(Operation::Addon { message, reply_prefix, pause_after_send: false })
            == FollowUp::AwaitReply,
        followed_by(Operation::Stop) == FollowUp::Finish,
        followed_by(Operation::Move) == FollowUp::Next,
{
}

/// The arguments of a session are read back: a directory, and from one second to one hour; and nothing
/// may follow.
pub proof fn a_session_reads_back(dir: Seq<char>, seconds: nat, more: Seq<char>)
    requires
        seconds <= u64::MAX,
    ensures
        control_plan(seq![dir, number::decimal(seconds)]) is Ok <==> 1 <= seconds && seconds <= 60 * 60,
        1 <= seconds && seconds <= 3600 ==> control_plan(seq![dir, number::decimal(seconds)]) == Ok::<
            (Seq<char>, nat),
            Seq<char>,
        >((dir, seconds)),
        control_plan(seq![dir, number::decimal(seconds), more]) is Err,
        control_plan(seq![dir]) is Err,
{
    number::a_written_number_reads_back(seconds, u64::MAX as nat);
}

/// Two commands of a session have different files, and a file has another name before it is published.
pub proof fn files_are_told_apart(kind: Seq<char>, a: nat, b: nat, name: Seq<char>)
    requires
        a != b,
    ensures
        file_of(kind, a) != file_of(kind, b),
        temporary(name) != name,
        temporary(name)[0] == '.',
{
    reveal_strlit("-");
    reveal_strlit(".json");
    reveal_strlit(".");
    reveal_strlit(".tmp");
    assert(temporary(name).len() == name.len() + 5);
    if file_of(kind, a) == file_of(kind, b) {
        let s = file_of(kind, a);
        let from = (kind.len() + 1) as int;
        let to = s.len() - 5;
        assert(s.subrange(from, to) =~= number::decimal(a));
        assert(s.subrange(from, to) =~= number::decimal(b));
        number::decimal_reads_back(a);
        number::decimal_reads_back(b);
    }
}

/// A walk that fits its session arrives before its end: at its arrival it stops, and until then it says
/// where it is when that is due and keeps quiet otherwise.
pub proof fn a_walk_that_fits_arrives(now: u64, started: u64, duration: u64, next: u64, end: u64)
    requires
        fits(started, duration, end),
    ensures
        now == started + duration ==> walks(now, started, duration, next, end) == WalkStep::Arrived,
        now < started + duration ==> walks(now, started, duration, next, end) == if now < next {
            WalkStep::Quiet
        } else {
            WalkStep::Report
        },
        now >= end ==> walks(now, started, duration, next, end) == WalkStep::OutOfTime,
        !fits(end, duration, end),
{
}

} // verus!
