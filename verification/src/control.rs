//! A session that is led by command files: what it does next, from what has just happened.

use vstd::prelude::*;
use crate::addon;
use crate::addon::{AddonReply, Chat, FollowUp, Operation};
use crate::number;
use crate::text;

verus! {

/// Where a session stands.
#[derive(Clone, Copy, Debug, PartialEq, Eq, Structural)]
pub enum Phase {
    /// The file of its command is looked for.
    Looking,
    /// The file is there, and is read.
    Reading,
    /// The command is carried out.
    Performing,
    /// It was carried out, and what was sent is written down.
    Recording,
    /// It rests until its time is up.
    Paused,
    /// The reply is waited for.
    Replying,
    /// The result is written down.
    Reporting,
    /// It is over.
    Over,
}

/// A session: its command's number, when it ends, where it stands, and what the command asks for.
#[derive(Debug)]
pub struct Session {
    ordinal: u32,
    end: u64,
    phase: Phase,
    follow: FollowUp,
    prefix: String,
    until: u64,
}

/// What a session is.
pub struct SessionView {
    /// The number of the command.
    pub ordinal: u32,
    /// When the session ends.
    pub end: u64,
    pub phase: Phase,
    /// What follows the command.
    pub follow: FollowUp,
    /// How its reply begins.
    pub prefix: Seq<char>,
    /// Until when its reply is waited for.
    pub until: u64,
}

impl View for Session {
    type V = SessionView;

    closed spec fn view(&self) -> SessionView {
        SessionView {
            ordinal: self.ordinal,
            end: self.end,
            phase: self.phase,
            follow: self.follow,
            prefix: self.prefix@,
            until: self.until,
        }
    }
}

/// What has just happened.
#[derive(Debug)]
pub enum Event {
    /// The command's file was looked for.
    Looked { there: bool, now: u64 },
    /// The command was read.
    Commanded { declared: u32, operation: Operation },
    /// The command was carried out.
    Performed,
    /// A file was published.
    Published { now: u64 },
    /// It rested for a moment.
    Rested { now: u64 },
    /// The server was listened to: what was said, if anything.
    Heard { chat: Option<Chat>, now: u64 },
}

/// What is done next.
#[derive(Debug)]
pub enum Action {
    /// Looks for the file of the command.
    Look,
    /// Takes one message from the server, and looks for the file again.
    Drain,
    /// Reads the command.
    Read,
    /// Carries the command out.
    Perform,
    /// Publishes what was sent.
    PublishSent,
    /// Rests for a moment.
    Rest,
    /// Listens to the server.
    Listen,
    /// Publishes a reply as the result.
    PublishReply(AddonReply),
    /// Publishes as the result that the session was stopped.
    PublishStopped,
    /// Publishes as the result that the command was sent.
    PublishDone,
    /// The session is done.
    Finish,
    /// The session fails.
    Fail(String),
    /// Nothing: the event was not waited for.
    Nothing,
}

/// What an action is.
pub enum ActionView {
    Look,
    Drain,
    Read,
    Perform,
    PublishSent,
    Rest,
    Listen,
    PublishReply { chat_type: u8, sender: u64, text: Seq<char> },
    PublishStopped,
    PublishDone,
    Finish,
    Fail(Seq<char>),
    Nothing,
}

impl View for Action {
    type V = ActionView;

    open spec fn view(&self) -> ActionView {
        match *self {
            Action::Look => ActionView::Look,
            Action::Drain => ActionView::Drain,
            Action::Read => ActionView::Read,
            Action::Perform => ActionView::Perform,
            Action::PublishSent => ActionView::PublishSent,
            Action::Rest => ActionView::Rest,
            Action::Listen => ActionView::Listen,
            Action::PublishReply(r) => ActionView::PublishReply {
                chat_type: r.chat_type,
                sender: r.sender_guid,
                text: r.text@,
            },
            Action::PublishStopped => ActionView::PublishStopped,
            Action::PublishDone => ActionView::PublishDone,
            Action::Finish => ActionView::Finish,
            Action::Fail(said) => ActionView::Fail(said@),
            Action::Nothing => ActionView::Nothing,
        }
    }
}

/// A session before anything was done.
pub open spec fn opening(end: u64) -> SessionView {
    SessionView {
        ordinal: 1,
        end,
        phase: Phase::Looking,
        follow: FollowUp::Next,
        prefix: Seq::empty(),
        until: 0,
    }
}

/// A session that has moved on.
pub open spec fn moved(s: SessionView, phase: Phase) -> SessionView {
    SessionView { phase, ..s }
}

/// A session that fails, and why.
pub open spec fn failed(s: SessionView, said: Seq<char>) -> (SessionView, ActionView) {
    (moved(s, Phase::Over), ActionView::Fail(said))
}

/// How the reply to a command begins.
pub open spec fn prefix_of(op: Operation) -> Seq<char> {
    match op {
        Operation::Addon { reply_prefix, .. } => reply_prefix@,
        _ => Seq::empty(),
    }
}

/// Something said is the reply that a session waits for.
pub open spec fn awaited(s: SessionView, chat: Option<Chat>) -> bool {
    chat is Some && addon::is_reply(chat->0) && text::begins_with(chat->0.text@, s.prefix)
}

/// What follows the file that says what was sent.
pub open spec fn after_sent(s: SessionView, now: u64) -> (SessionView, ActionView) {
    match s.follow {
        FollowUp::Pause => rested(s, now),
        FollowUp::AwaitReply => listened(
            SessionView { until: addon::reply_end(now, s.end), ..s },
            now,
        ),
        FollowUp::Finish => (moved(s, Phase::Reporting), ActionView::PublishStopped),
        FollowUp::Next => (moved(s, Phase::Reporting), ActionView::PublishDone),
    }
}

/// A session at rest: it rests on until its time is up, and then fails.
pub open spec fn rested(s: SessionView, now: u64) -> (SessionView, ActionView) {
    if now < s.end {
        (moved(s, Phase::Paused), ActionView::Rest)
    } else {
        failed(
            s,
            "scenario deadline while paused after command "@ + number::decimal(s.ordinal as nat),
        )
    }
}

/// A session without its reply: it listens on until it has waited long enough.
pub open spec fn listened(s: SessionView, now: u64) -> (SessionView, ActionView) {
    if now < s.until {
        (moved(s, Phase::Replying), ActionView::Listen)
    } else {
        failed(s, "addon reply deadline reached"@)
    }
}

/// What follows the file that says how a command ended.
pub open spec fn after_result(s: SessionView) -> (SessionView, ActionView) {
    if s.follow == FollowUp::Finish {
        (moved(s, Phase::Over), ActionView::Finish)
    } else if s.ordinal < addon::COMMAND_LIMIT {
        (
            SessionView { ordinal: (s.ordinal + 1) as u32, ..moved(s, Phase::Looking) },
            ActionView::Look,
        )
    } else {
        failed(s, "control command limit reached without stop"@)
    }
}

/// What an event does to a session, and what the session does next.
pub open spec fn told(s: SessionView, e: Event) -> (SessionView, ActionView) {
    match (s.phase, e) {
        (Phase::Looking, Event::Looked { there, now }) => if now >= s.end {
            failed(
                s,
                (if there {
                    "scenario deadline before command "@
                } else {
                    "scenario deadline waiting for command "@
                }) + number::decimal(s.ordinal as nat),
            )
        } else if there {
            (moved(s, Phase::Reading), ActionView::Read)
        } else {
            (s, ActionView::Drain)
        },
        (Phase::Reading, Event::Commanded { declared, operation }) => match addon::command_fault(
            declared,
            s.ordinal,
            operation,
        ) {
            Some(said) => failed(s, said),
            None => (
                SessionView {
                    follow: addon::followed_by(operation),
                    prefix: prefix_of(operation),
                    ..moved(s, Phase::Performing)
                },
                ActionView::Perform,
            ),
        },
        (Phase::Performing, Event::Performed) => (
            moved(s, Phase::Recording),
            ActionView::PublishSent,
        ),
        (Phase::Recording, Event::Published { now }) => after_sent(s, now),
        (Phase::Paused, Event::Rested { now }) => rested(s, now),
        (Phase::Replying, Event::Heard { chat, now }) => if awaited(s, chat) {
            (
                moved(s, Phase::Reporting),
                ActionView::PublishReply {
                    chat_type: addon::chat_number(chat->0.kind)->0,
                    sender: chat->0.sender,
                    text: chat->0.text@,
                },
            )
        } else {
            listened(s, now)
        },
        (Phase::Reporting, Event::Published { .. }) => after_result(s),
        _ => (s, ActionView::Nothing),
    }
}

impl Session {
    /// Opens a session; its first action is to look for its first command.
    pub fn open(end: u64) -> (s: Session)
        ensures
            s@ == opening(end),
    {
        let s = Session {
            ordinal: 1,
            end,
            phase: Phase::Looking,
            follow: FollowUp::Next,
            prefix: String::new(),
            until: 0,
        };
        assert(s.prefix@ =~= Seq::<char>::empty());
        s
    }

    /// The number of the command.
    pub fn ordinal(&self) -> (n: u32)
        ensures
            n == self@.ordinal,
    {
        self.ordinal
    }

    fn fail(&mut self, said: String) -> (a: Action)
        ensures
            (final(self)@, a@) == failed(old(self)@, said@),
    {
        self.phase = Phase::Over;
        Action::Fail(said)
    }

    fn fail_at(&mut self, said: &str) -> (a: Action)
        ensures
            (final(self)@, a@) == failed(
                old(self)@,
                said@ + number::decimal(old(self)@.ordinal as nat),
            ),
    {
        let mut words: String = said.to_owned();
        number::push_decimal(&mut words, self.ordinal as u64);
        self.fail(words)
    }

    fn rest(&mut self, now: u64) -> (a: Action)
        ensures
            (final(self)@, a@) == rested(old(self)@, now),
    {
        if now < self.end {
            self.phase = Phase::Paused;
            Action::Rest
        } else {
            self.fail_at("scenario deadline while paused after command ")
        }
    }

    fn listen(&mut self, now: u64) -> (a: Action)
        ensures
            (final(self)@, a@) == listened(old(self)@, now),
    {
        if now < self.until {
            self.phase = Phase::Replying;
            Action::Listen
        } else {
            self.fail("addon reply deadline reached".to_owned())
        }
    }

    fn hear(&mut self, chat: &Option<Chat>, now: u64) -> (a: Action)
        requires
            old(self)@.phase == Phase::Replying,
        ensures
            (final(self)@, a@) == told(old(self)@, Event::Heard { chat: *chat, now }),
    {
        if let Some(c) = chat {
            if let Some(reply) = addon::addon_reply(c) {
                if addon::answers(&reply, self.prefix.as_str()) {
                    self.phase = Phase::Reporting;
                    return Action::PublishReply(reply);
                }
            }
        }
        self.listen(now)
    }

    fn command(&mut self, declared: u32, operation: Operation) -> (a: Action)
        requires
            old(self)@.phase == Phase::Reading,
        ensures
            (final(self)@, a@) == told(old(self)@, Event::Commanded { declared, operation }),
    {
        if let Some(said) = addon::check_command(declared, self.ordinal, &operation) {
            return self.fail(said);
        }
        self.follow = addon::follow_up(&operation);
        self.prefix = match operation {
            Operation::Addon { message: _, reply_prefix, pause_after_send: _ } => reply_prefix,
            _ => {
                let none = String::new();
                assert(none@ =~= Seq::<char>::empty());
                none
            },
        };
        self.phase = Phase::Performing;
        Action::Perform
    }

    /// Tells a session what has happened, and learns what it does next.
    pub fn tell(&mut self, event: Event) -> (a: Action)
        ensures
            (final(self)@, a@) == told(old(self)@, event),
    {
        match (self.phase, event) {
            (Phase::Looking, Event::Looked { there, now }) => if now >= self.end {
                self.fail_at(
                    if there {
                        "scenario deadline before command "
                    } else {
                        "scenario deadline waiting for command "
                    },
                )
            } else if there {
                self.phase = Phase::Reading;
                Action::Read
            } else {
                Action::Drain
            },
            (Phase::Reading, Event::Commanded { declared, operation }) => self.command(
                declared,
                operation,
            ),
            (Phase::Performing, Event::Performed) => {
                self.phase = Phase::Recording;
                Action::PublishSent
            },
            (Phase::Recording, Event::Published { now }) => match self.follow {
                FollowUp::Pause => self.rest(now),
                FollowUp::AwaitReply => {
                    self.until = addon::reply_deadline(now, self.end);
                    self.listen(now)
                },
                FollowUp::Finish => {
                    self.phase = Phase::Reporting;
                    Action::PublishStopped
                },
                FollowUp::Next => {
                    self.phase = Phase::Reporting;
                    Action::PublishDone
                },
            },
            (Phase::Paused, Event::Rested { now }) => self.rest(now),
            (Phase::Replying, Event::Heard { chat, now }) => self.hear(&chat, now),
            (Phase::Reporting, Event::Published { now: _ }) => if self.follow == FollowUp::Finish {
                self.phase = Phase::Over;
                Action::Finish
            } else {
                match addon::next_ordinal(self.ordinal) {
                    Some(n) => {
                        self.ordinal = n;
                        self.phase = Phase::Looking;
                        Action::Look
                    },
                    None => self.fail("control command limit reached without stop".to_owned()),
                }
            },
            _ => Action::Nothing,
        }
    }
}

// ------------------------------------------------------------------------------------------
//  What holds of every session
// ------------------------------------------------------------------------------------------

/// A session after a row of events.
pub open spec fn after(s: SessionView, events: Seq<Event>) -> SessionView
    decreases events.len(),
{
    if events.len() == 0 {
        s
    } else {
        told(after(s, events.drop_last()), events.last()).0
    }
}

/// A session never takes more than its commands, and keeps its end.
pub proof fn commands_are_numbered_within_the_limit(end: u64, events: Seq<Event>)
    ensures
        1 <= after(opening(end), events).ordinal <= addon::COMMAND_LIMIT,
        after(opening(end), events).end == end,
    decreases events.len(),
{
    if events.len() > 0 {
        commands_are_numbered_within_the_limit(end, events.drop_last());
    }
}

/// The number of the command grows by one, and only once the result of the command before it is
/// published.
pub proof fn a_command_ends_before_the_next(s: SessionView, e: Event)
    ensures
        told(s, e).0.ordinal != s.ordinal ==> {
            &&& s.phase == Phase::Reporting
            &&& e is Published
            &&& told(s, e).0.ordinal == s.ordinal + 1
            &&& told(s, e).1 == ActionView::Look
        },
{
}

/// A command is read only while the session has time left, and carried out only when it bears its
/// file's number and can be carried.
pub proof fn nothing_is_begun_past_the_end(s: SessionView, e: Event)
    ensures
        told(s, e).1 == ActionView::Read ==> (e matches Event::Looked { there, now } && there && now
            < s.end),
        told(s, e).1 == ActionView::Perform ==> (e matches Event::Commanded { declared, operation }
            && addon::command_fault(declared, s.ordinal, operation) is None),
        told(s, e).1 == ActionView::Rest ==> match e {
            Event::Published { now } => now < s.end,
            Event::Rested { now } => now < s.end,
            _ => false,
        },
{
}

/// A result is published only after what was sent is published, and what was sent only after the
/// command was carried out.
pub proof fn files_come_in_order(s: SessionView, e: Event)
    ensures
        told(s, e).1 == ActionView::PublishSent ==> s.phase == Phase::Performing && e is Performed,
        told(s, e).1 == ActionView::PublishStopped || told(s, e).1 == ActionView::PublishDone
            ==> s.phase == Phase::Recording && e is Published,
        told(s, e).1 is PublishReply ==> s.phase == Phase::Replying && (e matches Event::Heard {
            chat,
            ..
        } && awaited(s, chat)),
        told(s, e).0.phase == Phase::Replying ==> s.phase == Phase::Replying || (s.phase
            == Phase::Recording && e is Published && s.follow == FollowUp::AwaitReply),
        told(s, e).0.phase == Phase::Reporting ==> s.phase == Phase::Reporting || s.phase
            == Phase::Recording || s.phase == Phase::Replying,
{
}

/// A session is done only by a command to stop whose result is published; it never listens past
/// its end, and once it is over it does nothing more.
pub proof fn only_a_stop_finishes(s: SessionView, e: Event)
    ensures
        told(s, e).1 == ActionView::Finish ==> s.phase == Phase::Reporting && s.follow
            == FollowUp::Finish && e is Published,
        s.phase == Phase::Over ==> told(s, e) == (s, ActionView::Nothing),
{
}

/// No reply is waited for past the end of the session, nor for longer than a reply is waited for.
pub proof fn a_reply_is_not_waited_for_past_the_end(end: u64, events: Seq<Event>, e: Event)
    ensures
        ({
            let s = after(opening(end), events);
            told(s, e).1 == ActionView::Listen ==> match e {
                Event::Published { now } => now < end && told(s, e).0.until <= now
                    + addon::REPLY_MS,
                Event::Heard { now, .. } => now < end && now < s.until,
                _ => false,
            }
        }),
{
    commands_are_numbered_within_the_limit(end, events);
    lemma_until(end, events);
}

proof fn lemma_until(end: u64, events: Seq<Event>)
    ensures
        after(opening(end), events).until <= end,
    decreases events.len(),
{
    if events.len() > 0 {
        lemma_until(end, events.drop_last());
        commands_are_numbered_within_the_limit(end, events.drop_last());
    }
}

/// A command that comes in time is carried through: it is read, carried out, what was sent is published,
/// its reply is waited for and published, and the next command is looked for.
pub proof fn a_command_is_carried_through(
    s: SessionView,
    message: String,
    reply_prefix: String,
    chat: Chat,
    a: u64,
    b: u64,
    c: u64,
    d: u64,
)
    requires
        s.phase == Phase::Looking,
        s.ordinal < 256,
        a < s.end && b < s.end,
        addon::carriable(message@) && addon::carriable(reply_prefix@),
        addon::is_reply(chat),
        text::begins_with(chat.text@, reply_prefix@),
    ensures
        ({
            let operation = Operation::Addon { message, reply_prefix, pause_after_send: false };
            let (s1, a1) = told(s, Event::Looked { there: true, now: a });
            let (s2, a2) = told(s1, Event::Commanded { declared: s.ordinal, operation });
            let (s3, a3) = told(s2, Event::Performed);
            let (s4, a4) = told(s3, Event::Published { now: b });
            let (s5, a5) = told(s4, Event::Heard { chat: Some(chat), now: c });
            let (s6, a6) = told(s5, Event::Published { now: d });
            &&& a1 == ActionView::Read
            &&& a2 == ActionView::Perform
            &&& a3 == ActionView::PublishSent
            &&& a4 == ActionView::Listen
            &&& a5 matches ActionView::PublishReply { chat_type, sender, text: said } && Some(chat_type)
                == addon::chat_number(chat.kind) && sender == chat.sender && said == chat.text@
            &&& a6 == ActionView::Look && s6.ordinal == s.ordinal + 1 && s6.phase == Phase::Looking
            &&& s6.end == s.end
            &&& told(s4, Event::Heard { chat: None, now: s4.until }).1 is Fail
        }),
{
}

/// A command to stop is carried through to the end of the session, one to pause rests until its time is
/// up, and any other goes straight on to the next; the last command of all has to stop.
pub proof fn a_session_ends_with_a_stop(s: SessionView, trigger_id: u32, a: u64, b: u64)
    requires
        s.phase == Phase::Reading,
        a < s.end,
    ensures
        ({
            let (stop, _) = told(
                s,
                Event::Commanded { declared: s.ordinal, operation: Operation::Stop },
            );
            let (sent, _) = told(stop, Event::Performed);
            let (done, told_stop) = told(sent, Event::Published { now: a });
            let (walk, _) = told(
                s,
                Event::Commanded {
                    declared: s.ordinal,
                    operation: Operation::Areatrigger { trigger_id },
                },
            );
            let (walked, told_walk) = told(told(walk, Event::Performed).0, Event::Published { now: a });
            &&& told_stop == ActionView::PublishStopped
            &&& told(done, Event::Published { now: b }).1 == ActionView::Finish
            &&& told_walk == ActionView::PublishDone
            &&& s.ordinal < 256 ==> told(walked, Event::Published { now: b }).1 == ActionView::Look
            &&& s.ordinal >= 256 ==> told(walked, Event::Published { now: b }).1 is Fail
        }),
{
}

/// A session looks for its command until its end and fails there; one that is numbered otherwise than
/// its file fails too.
pub proof fn a_session_looks_until_its_end(s: SessionView, there: bool, now: u64, declared: u32, op: Operation)
    ensures
        s.phase == Phase::Looking && now < s.end ==> told(s, Event::Looked { there, now }).1 == if there {
            ActionView::Read
        } else {
            ActionView::Drain
        },
        s.phase == Phase::Looking && now >= s.end ==> told(s, Event::Looked { there, now }).1 is Fail,
        s.phase == Phase::Reading && declared != s.ordinal ==> told(
            s,
            Event::Commanded { declared, operation: op },
        ).1 is Fail,
        s.phase == Phase::Paused && now < s.end ==> told(s, Event::Rested { now }) == (s, ActionView::Rest),
        s.phase == Phase::Paused && now >= s.end ==> told(s, Event::Rested { now }).1 is Fail,
        opening(now).ordinal == 1 && opening(now).phase == Phase::Looking && opening(now).end == now,
{
}

} // verus!
