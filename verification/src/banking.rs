//! A visit to the bank from the first greeting to the slot that is bought: what is asked for, what
//! the reply has to be, and what comes next. Times are milliseconds.

use vstd::prelude::*;
use crate::bank;
use crate::bank::{MoveRead, MoveStep, RelogFault, ShowFault};
use crate::number;
use crate::wire;

verus! {

/// How long the move of an item is waited for.
pub const MOVE_WINDOW_MS: u64 = 5000;

/// How long word from outside is waited for, in seconds.
pub const CONFIRM_SECS: u64 = 30;

/// Where a visit stands.
#[derive(Clone, Copy, Debug, PartialEq, Eq, Structural)]
pub enum Stage {
    Open,
    Deposit,
    Deposited,
    LogOut,
    LogIn,
    Persisted,
    Reopen,
    Withdraw,
    Withdrawn,
    Buy,
    Done,
    Failed,
}

/// What is asked for.
#[derive(Clone, Copy, Debug, PartialEq, Eq, Structural)]
pub enum Order {
    /// The bank, of its keeper.
    Open(u64),
    /// That what lies in a slot goes into the bank.
    Deposit(u8),
    /// That what lies in a slot of the bank comes back.
    Withdraw(u8),
    /// Word from outside that the deposit, the relog or the withdrawal lasts.
    ConfirmDeposit,
    ConfirmRelog,
    ConfirmWithdrawal,
    /// The end of the session.
    LogOut,
    /// A session of the character.
    LogIn(u64),
    /// A slot, of the keeper.
    Buy(u64),
    /// Nothing any more.
    Nothing,
}

/// What comes back.
#[derive(Clone, Copy, Debug, PartialEq, Eq, Structural)]
pub enum Reply {
    /// Whose bank shows, if any.
    Shown(Option<u64>),
    /// Nothing is read yet: only the time is looked at.
    Tick,
    /// Something was read, and the slots were looked at.
    Slots { read: MoveRead, from: Option<u64>, to: Option<u64> },
    /// Whether word came.
    Confirmed(bool),
    /// Whether the session may end.
    LoggedOut(bool),
    /// Who is in the world, and what the slot of the bank holds.
    Entered { own: u64, held: Option<u64> },
    /// Whether the slot was sold, if there was an answer.
    Bought(Option<bool>),
}

/// Why a visit fails.
#[derive(Clone, Copy, Debug, PartialEq, Eq, Structural)]
pub enum Fault {
    /// The bank does not show.
    Show(ShowFault),
    /// The move is refused.
    Refused,
    /// Reading failed.
    Lost,
    /// The item did not move in time.
    NoMove { from: Option<u64>, to: Option<u64> },
    /// No word came.
    Unconfirmed,
    /// The session may not end.
    LogOutRefused,
    /// Another character is in the world.
    OtherCharacter(u64),
    /// The slot of the bank holds something else.
    OtherItem(Option<u64>),
    /// The slot was not sold.
    NotSold,
    /// There was no answer.
    NoAnswer,
}

/// A visit.
#[derive(Clone, Copy, Debug)]
pub struct Visit {
    pub banker: u64,
    pub item: u64,
    pub carry_slot: u8,
    pub bank_slot: u8,
    pub character: u64,
    pub stage: Stage,
    /// When the stage began.
    pub from: u64,
    /// What the slots last held while the item moved.
    pub slots: (Option<u64>, Option<u64>),
}

/// The stage after a stage.
pub open spec fn next(s: Stage) -> Stage {
    match s {
        Stage::Open => Stage::Deposit,
        Stage::Deposit => Stage::Deposited,
        Stage::Deposited => Stage::LogOut,
        Stage::LogOut => Stage::LogIn,
        Stage::LogIn => Stage::Persisted,
        Stage::Persisted => Stage::Reopen,
        Stage::Reopen => Stage::Withdraw,
        Stage::Withdraw => Stage::Withdrawn,
        Stage::Withdrawn => Stage::Buy,
        Stage::Buy => Stage::Done,
        Stage::Done => Stage::Done,
        Stage::Failed => Stage::Failed,
    }
}

fn next_of(s: Stage) -> (t: Stage)
    ensures
        t == next(s),
{
    match s {
        Stage::Open => Stage::Deposit,
        Stage::Deposit => Stage::Deposited,
        Stage::Deposited => Stage::LogOut,
        Stage::LogOut => Stage::LogIn,
        Stage::LogIn => Stage::Persisted,
        Stage::Persisted => Stage::Reopen,
        Stage::Reopen => Stage::Withdraw,
        Stage::Withdraw => Stage::Withdrawn,
        Stage::Withdrawn => Stage::Buy,
        Stage::Buy => Stage::Done,
        Stage::Done => Stage::Done,
        Stage::Failed => Stage::Failed,
    }
}

/// The number of a stage in a report.
pub open spec fn step_number(s: Stage) -> nat {
    match s {
        Stage::Open => 1,
        Stage::Deposit | Stage::Deposited => 2,
        Stage::LogOut | Stage::LogIn | Stage::Persisted => 3,
        Stage::Reopen | Stage::Withdraw | Stage::Withdrawn => 4,
        _ => 5,
    }
}

/// What a reply does to a stage.
pub enum Ruling {
    /// It is not what the stage waits for, or it does not settle it.
    Stay,
    /// The stage is over.
    Pass,
    /// The visit is over.
    End(Fault),
}

impl Visit {
    /// A visit that begins.
    pub open spec fn begun(
        banker: u64,
        item: u64,
        carry_slot: u8,
        bank_slot: u8,
        character: u64,
        now: u64,
    ) -> Visit {
        Visit {
            banker,
            item,
            carry_slot,
            bank_slot,
            character,
            stage: Stage::Open,
            from: now,
            slots: (None, None),
        }
    }

    /// Said of a character that does not carry the item.
    pub open spec fn not_carried(item: u64, carry_slot: u8, held: Option<u64>) -> Seq<char> {
        "STEP 0 FAIL: login snapshot slot "@ + number::decimal(carry_slot as nat) + " held "@
            + number::optional(as_nat(held)) + ", want item "@ + wire::guid_text(item)
    }

    /// A visit that begins, by a character that carries the item.
    pub fn new(
        banker: u64,
        item: u64,
        carry_slot: u8,
        bank_slot: u8,
        character: u64,
        held: Option<u64>,
        now: u64,
    ) -> (v: Result<Visit, String>)
        ensures
            match v {
                Ok(visit) => held == Some(item) && visit == Visit::begun(
                    banker,
                    item,
                    carry_slot,
                    bank_slot,
                    character,
                    now,
                ),
                Err(said) => held != Some(item) && said@ == Visit::not_carried(
                    item,
                    carry_slot,
                    held,
                ),
            },
    {
        if let Some(g) = held {
            if g == item {
                return Ok(
                    Visit {
                        banker,
                        item,
                        carry_slot,
                        bank_slot,
                        character,
                        stage: Stage::Open,
                        from: now,
                        slots: (None, None),
                    },
                );
            }
        }
        let mut s: String = number::number_between(
            "STEP 0 FAIL: login snapshot slot ",
            carry_slot as u64,
            " held ",
        );
        number::push_optional(&mut s, held);
        s.append(", want item ");
        wire::push_guid(&mut s, item);
        Err(s)
    }

    /// What is asked for at a stage.
    pub open spec fn asks(self) -> Order {
        match self.stage {
            Stage::Open | Stage::Reopen => Order::Open(self.banker),
            Stage::Deposit => Order::Deposit(self.carry_slot),
            Stage::Deposited => Order::ConfirmDeposit,
            Stage::LogOut => Order::LogOut,
            Stage::LogIn => Order::LogIn(self.character),
            Stage::Persisted => Order::ConfirmRelog,
            Stage::Withdraw => Order::Withdraw(self.bank_slot),
            Stage::Withdrawn => Order::ConfirmWithdrawal,
            Stage::Buy => Order::Buy(self.banker),
            Stage::Done | Stage::Failed => Order::Nothing,
        }
    }

    /// What is asked for at a stage.
    pub fn order(&self) -> (o: Order)
        ensures
            o == self.asks(),
    {
        match self.stage {
            Stage::Open | Stage::Reopen => Order::Open(self.banker),
            Stage::Deposit => Order::Deposit(self.carry_slot),
            Stage::Deposited => Order::ConfirmDeposit,
            Stage::LogOut => Order::LogOut,
            Stage::LogIn => Order::LogIn(self.character),
            Stage::Persisted => Order::ConfirmRelog,
            Stage::Withdraw => Order::Withdraw(self.bank_slot),
            Stage::Withdrawn => Order::ConfirmWithdrawal,
            Stage::Buy => Order::Buy(self.banker),
            Stage::Done | Stage::Failed => Order::Nothing,
        }
    }

    /// The two slots that an item moves between at a stage: where it is, and where it is to go.
    pub open spec fn way(self, at: Stage) -> (u8, u8) {
        if at == Stage::Withdraw {
            (self.bank_slot, self.carry_slot)
        } else {
            (self.carry_slot, self.bank_slot)
        }
    }

    /// The two slots that an item moves between now.
    pub fn route(&self) -> (slots: (u8, u8))
        ensures
            slots == self.way(self.stage),
    {
        self.route_at(self.stage)
    }

    fn route_at(&self, at: Stage) -> (slots: (u8, u8))
        ensures
            slots == self.way(at),
    {
        match at {
            Stage::Withdraw => (self.bank_slot, self.carry_slot),
            _ => (self.carry_slot, self.bank_slot),
        }
    }

    /// What a reply does to the stage.
    pub open spec fn ruling(self, r: Reply, now: u64) -> Ruling {
        match (self.stage, r) {
            (Stage::Open | Stage::Reopen, Reply::Shown(who)) => match who {
                None => Ruling::End(Fault::Show(ShowFault::Silent)),
                Some(g) => if g == self.banker {
                    Ruling::Pass
                } else {
                    Ruling::End(Fault::Show(ShowFault::Other(g)))
                },
            },
            (Stage::Deposit | Stage::Withdraw, Reply::Tick) => if now >= self.from
                + MOVE_WINDOW_MS {
                Ruling::End(Fault::NoMove { from: self.slots.0, to: self.slots.1 })
            } else {
                Ruling::Stay
            },
            (Stage::Deposit | Stage::Withdraw, Reply::Slots { read, from, to }) => if read
                == MoveRead::Refused {
                Ruling::End(Fault::Refused)
            } else if bank::has_moved(from, to, self.item) {
                Ruling::Pass
            } else if read == MoveRead::Broken {
                Ruling::End(Fault::Lost)
            } else {
                Ruling::Stay
            },
            (Stage::Deposited | Stage::Persisted | Stage::Withdrawn, Reply::Confirmed(yes)) =>
                if yes {
                    Ruling::Pass
                } else {
                    Ruling::End(Fault::Unconfirmed)
                },
            (Stage::LogOut, Reply::LoggedOut(yes)) => if yes {
                Ruling::Pass
            } else {
                Ruling::End(Fault::LogOutRefused)
            },
            (Stage::LogIn, Reply::Entered { own, held }) => if own != self.character {
                Ruling::End(Fault::OtherCharacter(own))
            } else if held != Some(self.item) {
                Ruling::End(Fault::OtherItem(held))
            } else {
                Ruling::Pass
            },
            (Stage::Buy, Reply::Bought(sold)) => match sold {
                None => Ruling::End(Fault::NoAnswer),
                Some(yes) => if yes {
                    Ruling::Pass
                } else {
                    Ruling::End(Fault::NotSold)
                },
            },
            _ => Ruling::Stay,
        }
    }

    /// What the slots hold once a reply came.
    pub open spec fn slots_seen(self, r: Reply) -> (Option<u64>, Option<u64>) {
        match r {
            Reply::Slots { read, from, to } => (from, to),
            _ => self.slots,
        }
    }

    /// Once a reply came.
    pub open spec fn after(self, r: Reply, now: u64) -> (Visit, Option<Fault>) {
        let seen = Visit { slots: self.slots_seen(r), ..self };
        match self.ruling(r, now) {
            Ruling::Stay => (seen, None),
            Ruling::Pass => (Visit { stage: next(self.stage), from: now, ..seen }, None),
            Ruling::End(f) => (Visit { stage: Stage::Failed, ..seen }, Some(f)),
        }
    }

    fn rule(&self, r: Reply, now: u64) -> (ruling: Ruling)
        ensures
            ruling == self.ruling(r, now),
    {
        match (self.stage, r) {
            (Stage::Open | Stage::Reopen, Reply::Shown(who)) => match bank::shown(
                who,
                self.banker,
            ) {
                None => Ruling::Pass,
                Some(f) => Ruling::End(Fault::Show(f)),
            },
            (Stage::Deposit | Stage::Withdraw, Reply::Tick) => if now >= self.from && now
                - self.from >= MOVE_WINDOW_MS {
                Ruling::End(Fault::NoMove { from: self.slots.0, to: self.slots.1 })
            } else {
                Ruling::Stay
            },
            (Stage::Deposit | Stage::Withdraw, Reply::Slots { read, from, to }) =>
                match bank::move_step(read, from, to, self.item) {
                    MoveStep::Wait => Ruling::Stay,
                    MoveStep::Moved => Ruling::Pass,
                    MoveStep::Refused => Ruling::End(Fault::Refused),
                    MoveStep::Broken => Ruling::End(Fault::Lost),
                },
            (Stage::Deposited | Stage::Persisted | Stage::Withdrawn, Reply::Confirmed(yes)) =>
                if yes {
                    Ruling::Pass
                } else {
                    Ruling::End(Fault::Unconfirmed)
                },
            (Stage::LogOut, Reply::LoggedOut(yes)) => if yes {
                Ruling::Pass
            } else {
                Ruling::End(Fault::LogOutRefused)
            },
            (Stage::LogIn, Reply::Entered { own, held }) => match bank::relogged(
                own,
                self.character,
                held,
                self.item,
            ) {
                None => Ruling::Pass,
                Some(RelogFault::OtherCharacter) => Ruling::End(Fault::OtherCharacter(own)),
                Some(RelogFault::OtherItem) => Ruling::End(Fault::OtherItem(held)),
            },
            (Stage::Buy, Reply::Bought(sold)) => match sold {
                None => Ruling::End(Fault::NoAnswer),
                Some(yes) => if yes {
                    Ruling::Pass
                } else {
                    Ruling::End(Fault::NotSold)
                },
            },
            _ => Ruling::Stay,
        }
    }

    /// Takes in a reply; says why the visit fails, if it does.
    pub fn answer(&mut self, r: Reply, now: u64) -> (f: Option<Fault>)
        ensures
            (*final(self), f) == old(self).after(r, now),
    {
        let ruling: Ruling = self.rule(r, now);
        match r {
            Reply::Slots { read: _, from, to } => {
                self.slots = (from, to);
            },
            _ => {},
        }
        match ruling {
            Ruling::Stay => None,
            Ruling::Pass => {
                self.stage = next_of(self.stage);
                self.from = now;
                None
            },
            Ruling::End(f) => {
                self.stage = Stage::Failed;
                Some(f)
            },
        }
    }

    /// Why a stage fails, in words. `said` is what came from outside: how the move or the sale was
    /// refused, or the file that was not taken away.
    pub open spec fn reason(self, at: Stage, f: Fault, said: Seq<char>) -> Seq<char> {
        match f {
            Fault::Show(ShowFault::Silent) =>
                "no SMSG_SHOW_BANK within 5s of CMSG_BANKER_ACTIVATE"@,
            Fault::Show(ShowFault::Other(g)) => "SMSG_SHOW_BANK named "@ + wire::guid_text(g)
                + ", want "@ + wire::guid_text(self.banker),
            Fault::Refused => "SMSG_INVENTORY_CHANGE_FAILURE "@ + said,
            Fault::Lost => said,
            Fault::NoMove { from, to } => "no complete item move within 5s (item "@
                + wire::guid_text(self.item) + ", slot "@ + number::decimal(self.way(at).0 as nat)
                + " -> "@ + number::decimal(self.way(at).1 as nat) + "; observed source="@
                + number::optional(as_nat(from)) + ", destination="@ + number::optional(as_nat(to))
                + ")"@,
            Fault::Unconfirmed => (if at == Stage::Deposited {
                "adapter did not confirm the durable deposit"@
            } else if at == Stage::Persisted {
                "adapter did not confirm relog persistence"@
            } else {
                "adapter did not confirm the durable withdrawal"@
            }) + " ("@ + said + " not consumed within "@ + number::decimal(CONFIRM_SECS as nat)
                + "s)"@,
            Fault::LogOutRefused => "logout was refused"@,
            Fault::OtherCharacter(own) => "relog selected Character "@ + wire::guid_text(own)
                + ", want "@ + wire::guid_text(self.character),
            Fault::OtherItem(held) => "relog snapshot bank slot "@ + number::decimal(
                self.bank_slot as nat,
            ) + " held "@ + number::optional(as_nat(held)) + ", want item "@ + wire::guid_text(
                self.item,
            ),
            Fault::NotSold => "SMSG_BUY_BANK_SLOT_RESULT="@ + said,
            Fault::NoAnswer => "no SMSG_BUY_BANK_SLOT_RESULT within 5s"@,
        }
    }

    fn reason_of(&self, at: Stage, f: Fault, said: &str) -> (s: String)
        ensures
            s@ == self.reason(at, f, said@),
    {
        match f {
            Fault::Show(ShowFault::Silent) =>
                "no SMSG_SHOW_BANK within 5s of CMSG_BANKER_ACTIVATE".to_owned(),
            Fault::Show(ShowFault::Other(g)) => {
                let mut s: String = "SMSG_SHOW_BANK named ".to_owned();
                wire::push_guid(&mut s, g);
                s.append(", want ");
                wire::push_guid(&mut s, self.banker);
                s
            },
            Fault::Refused => {
                let mut s: String = "SMSG_INVENTORY_CHANGE_FAILURE ".to_owned();
                s.append(said);
                s
            },
            Fault::Lost => said.to_owned(),
            Fault::NoMove { from, to } => {
                let mut s: String = "no complete item move within 5s (item ".to_owned();
                wire::push_guid(&mut s, self.item);
                s.append(", slot ");
                number::push_decimal(&mut s, self.route_at(at).0 as u64);
                s.append(" -> ");
                number::push_decimal(&mut s, self.route_at(at).1 as u64);
                s.append("; observed source=");
                number::push_optional(&mut s, from);
                s.append(", destination=");
                number::push_optional(&mut s, to);
                s.append(")");
                s
            },
            Fault::Unconfirmed => {
                let mut s: String = match at {
                    Stage::Deposited => "adapter did not confirm the durable deposit".to_owned(),
                    Stage::Persisted => "adapter did not confirm relog persistence".to_owned(),
                    _ => "adapter did not confirm the durable withdrawal".to_owned(),
                };
                s.append(" (");
                s.append(said);
                s.append(" not consumed within ");
                number::push_decimal(&mut s, CONFIRM_SECS);
                s.append("s)");
                s
            },
            Fault::LogOutRefused => "logout was refused".to_owned(),
            Fault::OtherCharacter(own) => {
                let mut s: String = "relog selected Character ".to_owned();
                wire::push_guid(&mut s, own);
                s.append(", want ");
                wire::push_guid(&mut s, self.character);
                s
            },
            Fault::OtherItem(held) => {
                let mut s: String = "relog snapshot bank slot ".to_owned();
                number::push_decimal(&mut s, self.bank_slot as u64);
                s.append(" held ");
                number::push_optional(&mut s, held);
                s.append(", want item ");
                wire::push_guid(&mut s, self.item);
                s
            },
            Fault::NotSold => {
                let mut s: String = "SMSG_BUY_BANK_SLOT_RESULT=".to_owned();
                s.append(said);
                s
            },
            Fault::NoAnswer => "no SMSG_BUY_BANK_SLOT_RESULT within 5s".to_owned(),
        }
    }

    /// A fault at a stage, in words. Where the session broke, they are the words of what broke it.
    pub fn message(&self, at: Stage, f: Fault, said: &str) -> (s: String)
        ensures
            s@ == if f == Fault::Lost {
                said@
            } else {
                "STEP "@ + number::decimal(step_number(at)) + " FAIL: "@ + self.reason(at, f, said@)
            },
    {
        if f == Fault::Lost {
            return said.to_owned();
        }
        let step: u64 = match at {
            Stage::Open => 1,
            Stage::Deposit | Stage::Deposited => 2,
            Stage::LogOut | Stage::LogIn | Stage::Persisted => 3,
            Stage::Reopen | Stage::Withdraw | Stage::Withdrawn => 4,
            _ => 5,
        };
        let mut s: String = number::number_between("STEP ", step, " FAIL: ");
        let reason: String = self.reason_of(at, f, said);
        s.append(reason.as_str());
        s
    }
}

/// A number that may be missing.
pub open spec fn as_nat(n: Option<u64>) -> Option<nat> {
    match n {
        None => None,
        Some(n) => Some(n as nat),
    }
}

// ------------------------------------------------------------------------------------------
//  What a finished visit has shown
// ------------------------------------------------------------------------------------------

/// Where a visit stands after all replies.
pub open spec fn visit_after(start: Visit, replies: Seq<(Reply, u64)>) -> Visit
    decreases replies.len(),
{
    if replies.len() == 0 {
        start
    } else {
        visit_after(start, replies.drop_last()).after(replies.last().0, replies.last().1).0
    }
}

/// The replies that took a visit from one stage to the next.
pub open spec fn passing(start: Visit, replies: Seq<(Reply, u64)>) -> Seq<Reply>
    decreases replies.len(),
{
    if replies.len() == 0 {
        Seq::empty()
    } else {
        let before = visit_after(start, replies.drop_last());
        let (r, now) = replies.last();
        if before.ruling(r, now) is Pass {
            passing(start, replies.drop_last()).push(r)
        } else {
            passing(start, replies.drop_last())
        }
    }
}

/// A reply says that the item moved.
pub open spec fn moved(r: Reply, item: u64) -> bool {
    r matches Reply::Slots { read, from, to } && read != MoveRead::Refused && bank::has_moved(
        from,
        to,
        item,
    )
}

/// The reply that takes a visit past its `n`th stage.
pub open spec fn passes(v: Visit, n: int, r: Reply) -> bool {
    if n == 0 || n == 6 {
        r == Reply::Shown(Some(v.banker))
    } else if n == 1 || n == 7 {
        moved(r, v.item)
    } else if n == 2 || n == 5 || n == 8 {
        r == Reply::Confirmed(true)
    } else if n == 3 {
        r == Reply::LoggedOut(true)
    } else if n == 4 {
        r == (Reply::Entered { own: v.character, held: Some(v.item) })
    } else {
        r == Reply::Bought(Some(true))
    }
}

/// How many stages lie behind a stage.
pub open spec fn behind(s: Stage) -> nat {
    match s {
        Stage::Open => 0,
        Stage::Deposit => 1,
        Stage::Deposited => 2,
        Stage::LogOut => 3,
        Stage::LogIn => 4,
        Stage::Persisted => 5,
        Stage::Reopen => 6,
        Stage::Withdraw => 7,
        Stage::Withdrawn => 8,
        Stage::Buy => 9,
        _ => 10,
    }
}

proof fn lemma_visit(start: Visit, replies: Seq<(Reply, u64)>)
    requires
        start.stage == Stage::Open,
    ensures
        ({
            let v = visit_after(start, replies);
            &&& v.banker == start.banker && v.item == start.item && v.character
                == start.character
            &&& v.stage != Stage::Failed ==> {
                &&& passing(start, replies).len() == behind(v.stage)
                &&& forall|n: int|
                    0 <= n < behind(v.stage) ==> passes(start, n, #[trigger] passing(start, replies)[n])
            }
        }),
    decreases replies.len(),
{
    if replies.len() > 0 {
        let before = replies.drop_last();
        lemma_visit(start, before);
        let was = visit_after(start, before);
        let v = visit_after(start, replies);
        let (r, now) = replies.last();
        if v.stage != Stage::Failed && was.ruling(r, now) is Pass {
            assert(was.stage != Stage::Done);
            assert(passes(start, behind(was.stage) as int, r));
        }
    }
}

/// A visit that is done had a reply for every stage, in this order: the keeper's bank shows, the
/// item moves in, word comes, the session ends, the same character finds the item in its slot, word
/// comes, the bank shows again, the item moves back, word comes, and the slot is sold.
pub proof fn a_finished_visit_had_every_reply(
    banker: u64,
    item: u64,
    carry_slot: u8,
    bank_slot: u8,
    character: u64,
    now: u64,
    replies: Seq<(Reply, u64)>,
)
    requires
        visit_after(
            Visit::begun(banker, item, carry_slot, bank_slot, character, now),
            replies,
        ).stage == Stage::Done,
    ensures
        ({
            let p = passing(
                Visit::begun(banker, item, carry_slot, bank_slot, character, now),
                replies,
            );
            &&& p.len() == 10
            &&& p[0] == Reply::Shown(Some(banker))
            &&& moved(p[1], item)
            &&& p[2] == Reply::Confirmed(true)
            &&& p[3] == Reply::LoggedOut(true)
            &&& p[4] == (Reply::Entered { own: character, held: Some(item) })
            &&& p[5] == Reply::Confirmed(true)
            &&& p[6] == Reply::Shown(Some(banker))
            &&& moved(p[7], item)
            &&& p[8] == Reply::Confirmed(true)
            &&& p[9] == Reply::Bought(Some(true))
        }),
{
    let start = Visit::begun(banker, item, carry_slot, bank_slot, character, now);
    lemma_visit(start, replies);
    let p = passing(start, replies);
    assert(passes(start, 0, p[0]) && passes(start, 1, p[1]) && passes(start, 2, p[2]) && passes(
        start,
        3,
        p[3],
    ) && passes(start, 4, p[4]) && passes(start, 5, p[5]) && passes(start, 6, p[6]) && passes(
        start,
        7,
        p[7],
    ) && passes(start, 8, p[8]) && passes(start, 9, p[9]));
}

/// A visit that is answered as it should be asks in turn for everything that it is about: the bank, the
/// deposit of what is carried, word of it, the end of the session, a new one of the same character,
/// word of that, the bank again, the withdrawal, word of it, and a slot; then it is done.
pub proof fn a_visit_asks_for_everything(v: Visit, now: u64)
    requires
        v.stage == Stage::Open,
    ensures
        ({
            let moved = Reply::Slots { read: MoveRead::Message, from: Some(0), to: Some(v.item) };
            let v1 = v.after(Reply::Shown(Some(v.banker)), now).0;
            let v2 = v1.after(moved, now).0;
            let v3 = v2.after(Reply::Confirmed(true), now).0;
            let v4 = v3.after(Reply::LoggedOut(true), now).0;
            let v5 = v4.after(Reply::Entered { own: v.character, held: Some(v.item) }, now).0;
            let v6 = v5.after(Reply::Confirmed(true), now).0;
            let v7 = v6.after(Reply::Shown(Some(v.banker)), now).0;
            let v8 = v7.after(moved, now).0;
            let v9 = v8.after(Reply::Confirmed(true), now).0;
            let end = v9.after(Reply::Bought(Some(true)), now).0;
            &&& v.asks() == Order::Open(v.banker)
            &&& v1.asks() == Order::Deposit(v.carry_slot) && v1.way(v1.stage) == (
                v.carry_slot,
                v.bank_slot,
            )
            &&& v2.asks() == Order::ConfirmDeposit
            &&& v3.asks() == Order::LogOut
            &&& v4.asks() == Order::LogIn(v.character)
            &&& v5.asks() == Order::ConfirmRelog
            &&& v6.asks() == Order::Open(v.banker)
            &&& v7.asks() == Order::Withdraw(v.bank_slot) && v7.way(v7.stage) == (
                v.bank_slot,
                v.carry_slot,
            )
            &&& v8.asks() == Order::ConfirmWithdrawal
            &&& v9.asks() == Order::Buy(v.banker)
            &&& end.stage == Stage::Done && end.asks() == Order::Nothing
            &&& end.banker == v.banker && end.item == v.item && end.character == v.character
        }),
{
}

/// An answer that is not the one that is hoped for ends the visit, and says why.
pub proof fn a_wrong_answer_ends_a_visit(v: Visit, g: u64, held: Option<u64>, now: u64)
    ensures
        v.stage == Stage::Open || v.stage == Stage::Reopen ==> {
            &&& v.after(Reply::Shown(None), now).1 == Some(Fault::Show(ShowFault::Silent))
            &&& g != v.banker ==> v.after(Reply::Shown(Some(g)), now).1 == Some(
                Fault::Show(ShowFault::Other(g)),
            )
        },
        v.stage == Stage::Deposited || v.stage == Stage::Persisted || v.stage == Stage::Withdrawn
            ==> v.after(Reply::Confirmed(false), now).1 == Some(Fault::Unconfirmed),
        v.stage == Stage::LogOut ==> v.after(Reply::LoggedOut(false), now).1 == Some(
            Fault::LogOutRefused,
        ),
        v.stage == Stage::LogIn && g != v.character ==> v.after(Reply::Entered { own: g, held }, now).1
            == Some(Fault::OtherCharacter(g)),
        v.stage == Stage::LogIn && held != Some(v.item) ==> v.after(
            Reply::Entered { own: v.character, held },
            now,
        ).1 == Some(Fault::OtherItem(held)),
        v.stage == Stage::Buy ==> v.after(Reply::Bought(Some(false)), now).1 == Some(Fault::NotSold)
            && v.after(Reply::Bought(None), now).1 == Some(Fault::NoAnswer),
{
}

/// A move is waited for as long as its window lasts: five seconds after the stage began it fails, with
/// what the slots last held, and before that the time alone does nothing.
pub proof fn a_move_is_waited_for(v: Visit, now: u64)
    requires
        v.stage == Stage::Deposit || v.stage == Stage::Withdraw,
        v.from + 5000 <= u64::MAX,
    ensures
        now < v.from + 5000 ==> v.after(Reply::Tick, now) == (v, None::<Fault>),
        now >= v.from + 5000 ==> v.after(Reply::Tick, now).1 == Some(
            Fault::NoMove { from: v.slots.0, to: v.slots.1 },
        ) && v.after(Reply::Tick, now).0.stage == Stage::Failed,
{
}

} // verus!
