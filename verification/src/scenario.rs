//! Orchestrated scenarios: a quest, a trainer, a vendor, a death. Each is a sequence of steps, and
//! each step says what is sent, what is waited for, and what the reply has to be.

use vstd::prelude::*;

verus! {

// ------------------------------------------------------------------------------------------
//  A quest
// ------------------------------------------------------------------------------------------

/// What a quest run waits for.
#[derive(Clone, Copy, Debug, PartialEq, Eq, Structural)]
pub enum QuestStep {
    /// The details of the quest.
    Details,
    /// The first kill.
    FirstKill,
    /// The second kill.
    SecondKill,
    /// The money on the corpse.
    Loot,
    /// The offer of the reward.
    Offer,
    /// The end of the quest.
    Complete,
    /// Nothing any more.
    Done,
}

/// What a quest run sends.
#[derive(Clone, Copy, Debug, PartialEq, Eq, Structural)]
pub enum QuestOrder {
    Hello,
    Accept,
    Attack(u64),
    Loot(u64),
    TakeMoney,
    Release(u64),
    Complete,
    ChooseReward,
}

/// A reply that a quest run did not want: the number of the step, and the reply, if any.
#[derive(Clone, Copy, Debug, PartialEq, Eq, Structural)]
pub struct QuestFault {
    pub step: u32,
    pub got: Option<u32>,
}

/// The number of a step in a report.
pub open spec fn step_number(s: QuestStep) -> u32 {
    match s {
        QuestStep::Details => 1,
        QuestStep::FirstKill => 3,
        QuestStep::SecondKill => 4,
        QuestStep::Loot => 5,
        QuestStep::Offer => 6,
        QuestStep::Complete => 7,
        QuestStep::Done => 8,
    }
}

/// The step after a step.
pub open spec fn next_step(s: QuestStep) -> QuestStep {
    match s {
        QuestStep::Details => QuestStep::FirstKill,
        QuestStep::FirstKill => QuestStep::SecondKill,
        QuestStep::SecondKill => QuestStep::Loot,
        QuestStep::Loot => QuestStep::Offer,
        QuestStep::Offer => QuestStep::Complete,
        _ => QuestStep::Done,
    }
}

/// A reply is the one that a step wants: the quest itself, the count of kills, or any money.
pub open spec fn wanted(s: QuestStep, quest: u32, got: u32) -> bool {
    match s {
        QuestStep::FirstKill => got == 1,
        QuestStep::SecondKill => got == 2,
        QuestStep::Loot => got != 0,
        QuestStep::Done => false,
        _ => got == quest,
    }
}

/// A run of a quest.
#[derive(Clone, Copy, Debug)]
pub struct QuestRun {
    pub quest: u32,
    pub wolves: (u64, u64),
    pub step: QuestStep,
}

impl QuestRun {
    /// A run that begins.
    pub fn new(quest: u32, first: u64, second: u64) -> (r: QuestRun)
        ensures
            r == QuestRun::fresh(quest, first, second),
    {
        QuestRun { quest, wolves: (first, second), step: QuestStep::Details }
    }

    /// Once a reply came, or none did.
    pub open spec fn after(self, got: Option<u32>) -> (QuestRun, Option<QuestFault>) {
        if got is Some && wanted(self.step, self.quest, got->0) {
            (QuestRun { step: next_step(self.step), ..self }, None)
        } else {
            (self, Some(QuestFault { step: step_number(self.step), got }))
        }
    }

    /// A run that begins.
    pub open spec fn fresh(quest: u32, first: u64, second: u64) -> QuestRun {
        QuestRun { quest, wolves: (first, second), step: QuestStep::Details }
    }

    /// What is sent at a step.
    pub open spec fn sent(self) -> Seq<QuestOrder> {
        match self.step {
            QuestStep::Details => seq![QuestOrder::Hello],
            QuestStep::FirstKill => seq![QuestOrder::Accept, QuestOrder::Attack(self.wolves.0)],
            QuestStep::SecondKill => seq![QuestOrder::Attack(self.wolves.1)],
            QuestStep::Loot => seq![QuestOrder::Loot(self.wolves.1)],
            QuestStep::Offer => seq![
                QuestOrder::TakeMoney,
                QuestOrder::Release(self.wolves.1),
                QuestOrder::Complete,
            ],
            QuestStep::Complete => seq![QuestOrder::ChooseReward],
            QuestStep::Done => seq![],
        }
    }

    /// What is sent now.
    pub fn orders(&self) -> (v: Vec<QuestOrder>)
        ensures
            v@ == self.sent(),
    {
        let mut v: Vec<QuestOrder> = Vec::new();
        match self.step {
            QuestStep::Details => {
                v.push(QuestOrder::Hello);
            },
            QuestStep::FirstKill => {
                v.push(QuestOrder::Accept);
                v.push(QuestOrder::Attack(self.wolves.0));
            },
            QuestStep::SecondKill => {
                v.push(QuestOrder::Attack(self.wolves.1));
            },
            QuestStep::Loot => {
                v.push(QuestOrder::Loot(self.wolves.1));
            },
            QuestStep::Offer => {
                v.push(QuestOrder::TakeMoney);
                v.push(QuestOrder::Release(self.wolves.1));
                v.push(QuestOrder::Complete);
            },
            QuestStep::Complete => {
                v.push(QuestOrder::ChooseReward);
            },
            QuestStep::Done => {},
        }
        assert(v@ =~= self.sent());
        v
    }

    /// How long the reply is waited for, in seconds: a wolf that flees takes its time.
    pub fn window_secs(&self) -> (secs: u64)
        ensures
            secs == match self.step {
                QuestStep::FirstKill | QuestStep::SecondKill => 90u64,
                _ => 5,
            },
    {
        match self.step {
            QuestStep::FirstKill | QuestStep::SecondKill => 90,
            _ => 5,
        }
    }

    /// Takes the reply to what was sent, or its absence.
    pub fn answer(&mut self, got: Option<u32>) -> (f: Option<QuestFault>)
        ensures
            (*final(self), f) == old(self).after(got),
    {
        let (number, next, ok): (u32, QuestStep, bool) = match (self.step, got) {
            (QuestStep::Details, g) => (1, QuestStep::FirstKill, g == Some(self.quest)),
            (QuestStep::FirstKill, g) => (3, QuestStep::SecondKill, g == Some(1u32)),
            (QuestStep::SecondKill, g) => (4, QuestStep::Loot, g == Some(2u32)),
            (QuestStep::Loot, Some(gold)) => (5, QuestStep::Offer, gold != 0),
            (QuestStep::Loot, None) => (5, QuestStep::Offer, false),
            (QuestStep::Offer, g) => (6, QuestStep::Complete, g == Some(self.quest)),
            (QuestStep::Complete, g) => (7, QuestStep::Done, g == Some(self.quest)),
            (QuestStep::Done, _) => (8, QuestStep::Done, false),
        };
        if ok {
            self.step = next;
            None
        } else {
            Some(QuestFault { step: number, got })
        }
    }
}

/// Where a run stands after some replies, or that one of them was not wanted.
pub open spec fn quest_after(quest: u32, replies: Seq<u32>) -> Option<QuestStep>
    decreases replies.len(),
{
    if replies.len() == 0 {
        Some(QuestStep::Details)
    } else {
        match quest_after(quest, replies.drop_last()) {
            Some(s) => if wanted(s, quest, replies.last()) {
                Some(next_step(s))
            } else {
                None
            },
            None => None,
        }
    }
}

/// A quest is done exactly where every reply was the one that its step wanted: the details, two
/// kills counted in order, money, the offer and the end.
pub proof fn a_finished_quest_had_every_reply(quest: u32, replies: Seq<u32>)
    ensures
        quest_after(quest, replies) == Some(QuestStep::Done) <==> {
            &&& replies.len() == 6
            &&& replies[0] == quest
            &&& replies[1] == 1
            &&& replies[2] == 2
            &&& replies[3] != 0
            &&& replies[4] == quest
            &&& replies[5] == quest
        },
{
    lemma_quest_length(quest, replies);
    if replies.len() == 6 {
        let r5 = replies.drop_last();
        let r4 = r5.drop_last();
        let r3 = r4.drop_last();
        let r2 = r3.drop_last();
        let r1 = r2.drop_last();
        assert(r1.drop_last().len() == 0);
        assert(replies.last() == replies[5] && r5.last() == replies[4] && r4.last() == replies[3]
            && r3.last() == replies[2] && r2.last() == replies[1] && r1.last() == replies[0]);
        reveal_with_fuel(quest_after, 7);
    }
}

proof fn lemma_quest_length(quest: u32, replies: Seq<u32>)
    ensures
        quest_after(quest, replies) matches Some(s) ==> match s {
            QuestStep::Details => replies.len() == 0,
            QuestStep::FirstKill => replies.len() == 1,
            QuestStep::SecondKill => replies.len() == 2,
            QuestStep::Loot => replies.len() == 3,
            QuestStep::Offer => replies.len() == 4,
            QuestStep::Complete => replies.len() == 5,
            QuestStep::Done => replies.len() == 6,
        },
    decreases replies.len(),
{
    if replies.len() > 0 {
        lemma_quest_length(quest, replies.drop_last());
    }
}

// ------------------------------------------------------------------------------------------
//  A trainer
// ------------------------------------------------------------------------------------------

/// What is seen of a purchase.
#[derive(Clone, Copy, Debug, PartialEq, Eq, Structural)]
pub enum BuyEvent {
    /// A spell was bought.
    Bought(u32),
    /// The purchase is refused.
    Refused,
    /// A spell was learned.
    Learned(u32),
    Other,
}

/// What is seen of a cast.
#[derive(Clone, Copy, Debug, PartialEq, Eq, Structural)]
pub enum TrainCastEvent {
    /// A cast begins with a timer.
    Start { timer: u32 },
    /// A spell goes out.
    Go { spell: u32 },
    /// A cast is refused.
    Refused,
    Other,
}

/// Two things that both have to be seen.
#[derive(Clone, Copy, Debug, PartialEq, Eq, Structural)]
pub enum Pair {
    /// So far.
    Open { first: bool, second: bool },
    /// Both were seen.
    Seen,
    /// It was refused.
    Refused,
}

/// What two sightings make.
pub open spec fn paired(first: bool, second: bool) -> Pair {
    if first && second {
        Pair::Seen
    } else {
        Pair::Open { first, second }
    }
}

fn pair_of(first: bool, second: bool) -> (p: Pair)
    ensures
        p == paired(first, second),
{
    if first && second {
        Pair::Seen
    } else {
        Pair::Open { first, second }
    }
}

/// How a purchase stands, once something more is seen.
pub open spec fn bought_after(p: Pair, e: BuyEvent, spell: u32) -> Pair {
    match p {
        Pair::Open { first, second } => match e {
            BuyEvent::Bought(id) => paired(first || id == spell, second),
            BuyEvent::Learned(id) => paired(first, second || id == spell),
            BuyEvent::Refused => Pair::Refused,
            BuyEvent::Other => p,
        },
        _ => p,
    }
}

/// How a cast stands, once something more is seen.
pub open spec fn cast_after(p: Pair, e: TrainCastEvent, spell: u32, cast_ms: u32) -> Pair {
    match p {
        Pair::Open { first, second } => match e {
            TrainCastEvent::Start { timer } => paired(first || timer == cast_ms, second),
            TrainCastEvent::Go { spell: id } => paired(first, second || id == spell),
            TrainCastEvent::Refused => Pair::Refused,
            TrainCastEvent::Other => p,
        },
        _ => p,
    }
}

impl Pair {
    /// Nothing was seen yet.
    pub fn new() -> (p: Pair)
        ensures
            p == (Pair::Open { first: false, second: false }),
    {
        Pair::Open { first: false, second: false }
    }

    /// Notes what is seen of a purchase.
    pub fn observe_buy(&mut self, e: BuyEvent, spell: u32)
        ensures
            *final(self) == bought_after(*old(self), e, spell),
    {
        match *self {
            Pair::Open { first, second } => match e {
                BuyEvent::Bought(id) => {
                    *self = pair_of(first || id == spell, second);
                },
                BuyEvent::Learned(id) => {
                    *self = pair_of(first, second || id == spell);
                },
                BuyEvent::Refused => {
                    *self = Pair::Refused;
                },
                BuyEvent::Other => {},
            },
            _ => {},
        }
    }

    /// Notes what is seen of a cast.
    pub fn observe_cast(&mut self, e: TrainCastEvent, spell: u32, cast_ms: u32)
        ensures
            *final(self) == cast_after(*old(self), e, spell, cast_ms),
    {
        match *self {
            Pair::Open { first, second } => match e {
                TrainCastEvent::Start { timer } => {
                    *self = pair_of(first || timer == cast_ms, second);
                },
                TrainCastEvent::Go { spell: id } => {
                    *self = pair_of(first, second || id == spell);
                },
                TrainCastEvent::Refused => {
                    *self = Pair::Refused;
                },
                TrainCastEvent::Other => {},
            },
            _ => {},
        }
    }
}

/// How a purchase stands after some events.
pub open spec fn purchase(seen: Seq<BuyEvent>, spell: u32) -> Pair
    decreases seen.len(),
{
    if seen.len() == 0 {
        Pair::Open { first: false, second: false }
    } else {
        bought_after(purchase(seen.drop_last(), spell), seen.last(), spell)
    }
}

/// A purchase is settled only once that very spell was bought and learned, and never refused
/// before.
pub proof fn a_settled_purchase_was_bought_and_learned(seen: Seq<BuyEvent>, spell: u32)
    ensures
        match purchase(seen, spell) {
            Pair::Open { first, second } => {
                &&& first ==> seen.contains(BuyEvent::Bought(spell))
                &&& second ==> seen.contains(BuyEvent::Learned(spell))
                &&& !seen.contains(BuyEvent::Refused)
            },
            Pair::Seen => seen.contains(BuyEvent::Bought(spell)) && seen.contains(
                BuyEvent::Learned(spell),
            ),
            Pair::Refused => seen.contains(BuyEvent::Refused),
        },
    decreases seen.len(),
{
    if seen.len() > 0 {
        let before = seen.drop_last();
        a_settled_purchase_was_bought_and_learned(before, spell);
        assert(seen =~= before.push(seen.last()));
        assert(seen[seen.len() - 1] == seen.last());
        assert forall|e: BuyEvent| before.contains(e) implies seen.contains(e) by {
            let i = choose|i: int| 0 <= i < before.len() && before[i] == e;
            assert(seen[i] == e);
        }
        assert forall|e: BuyEvent| seen.contains(e) && e != seen.last() implies before.contains(
            e,
        ) by {
            let i = choose|i: int| 0 <= i < seen.len() && seen[i] == e;
            assert(before[i] == e);
        }
    }
}

// ------------------------------------------------------------------------------------------
//  Single replies
// ------------------------------------------------------------------------------------------

/// Whether a list of entries has one.
pub fn stocks(entries: &Vec<u32>, want: u32) -> (yes: bool)
    ensures
        yes == entries@.contains(want),
{
    for i in 0..entries.len()
        invariant
            forall|j: int| 0 <= j < i ==> entries@[j] != want,
    {
        if entries[i] == want {
            assert(entries@[i as int] == want);
            return true;
        }
    }
    false
}

/// How long a corpse has to be waited for.
pub const RECLAIM_DELAY_MS: u64 = 30000;

/// Why the delay of a corpse is not the right one.
#[derive(Clone, Copy, Debug, PartialEq, Eq, Structural)]
pub enum DelayFault {
    Missing,
    Wrong(u64),
}

/// Why the delay of a corpse is not the right one, if so.
pub open spec fn delay_fault(delay_ms: Option<u64>) -> Option<DelayFault> {
    match delay_ms {
        None => Some(DelayFault::Missing),
        Some(d) => if d == RECLAIM_DELAY_MS {
            None
        } else {
            Some(DelayFault::Wrong(d))
        },
    }
}

/// Judges the delay of a corpse.
pub fn check_reclaim_delay(delay_ms: Option<u64>) -> (f: Option<DelayFault>)
    ensures
        f == delay_fault(delay_ms),
{
    match delay_ms {
        None => Some(DelayFault::Missing),
        Some(d) => if d == RECLAIM_DELAY_MS {
            None
        } else {
            Some(DelayFault::Wrong(d))
        },
    }
}

/// A quest that is answered as it should be sends everything that it takes: it greets, accepts and
/// attacks the first wolf, attacks the second, loots that one, takes the money and asks for the
/// reward, and chooses it; then it is done.
pub proof fn a_quest_sends_everything(quest: u32, first: u64, second: u64, money: u32)
    requires
        money > 0,
    ensures
        ({
            let r = QuestRun::fresh(quest, first, second);
            let r1 = r.after(Some(quest)).0;
            let r2 = r1.after(Some(1)).0;
            let r3 = r2.after(Some(2)).0;
            let r4 = r3.after(Some(money)).0;
            let r5 = r4.after(Some(quest)).0;
            let r6 = r5.after(Some(quest)).0;
            &&& r.sent() == seq![QuestOrder::Hello]
            &&& r1.sent() == seq![QuestOrder::Accept, QuestOrder::Attack(first)]
            &&& r2.sent() == seq![QuestOrder::Attack(second)]
            &&& r3.sent() == seq![QuestOrder::Loot(second)]
            &&& r4.sent() == seq![
                QuestOrder::TakeMoney,
                QuestOrder::Release(second),
                QuestOrder::Complete,
            ]
            &&& r5.sent() == seq![QuestOrder::ChooseReward]
            &&& r6.step == QuestStep::Done && r6.sent().len() == 0
            &&& r3.after(Some(0)).1 == Some(QuestFault { step: 5, got: Some(0) })
            &&& r1.after(Some(2)).1 == Some(QuestFault { step: 3, got: Some(2) })
            &&& r2.after(None).1 == Some(QuestFault { step: 4, got: None })
            &&& r4.after(None).1 == Some(QuestFault { step: 6, got: None })
            &&& r5.after(None).1 == Some(QuestFault { step: 7, got: None })
        }),
{
}

/// An answer that is not the one that is wanted stops a quest where it stands and is told, with the
/// number of the step.
pub proof fn a_wrong_answer_is_told(r: QuestRun, got: Option<u32>)
    ensures
        r.after(got).1 is Some ==> r.after(got).0 == r && r.after(got).1->0.got == got,
        r.after(None).1 is Some,
        r.step == QuestStep::Details && got != Some(r.quest) ==> r.after(got).1 == Some(
            QuestFault { step: 1, got },
        ),
        r.after(got).0.quest == r.quest && r.after(got).0.wolves == r.wolves,
{
}

/// A purchase, and a cast, are settled by two sightings in whichever order, each of the spell itself or
/// of its time; a refusal before that ends them.
pub proof fn two_sightings_settle_it(spell: u32, other: u32, ms: u32, late: u32)
    requires
        other != spell,
        late != ms,
    ensures
        ({
            let start = Pair::Open { first: false, second: false };
            let bought = bought_after(start, BuyEvent::Bought(spell), spell);
            let learned = bought_after(start, BuyEvent::Learned(spell), spell);
            let begun = cast_after(start, TrainCastEvent::Start { timer: ms }, spell, ms);
            let gone = cast_after(start, TrainCastEvent::Go { spell }, spell, ms);
            &&& bought_after(bought, BuyEvent::Learned(spell), spell) == Pair::Seen
            &&& bought_after(learned, BuyEvent::Bought(spell), spell) == Pair::Seen
            &&& bought_after(start, BuyEvent::Bought(other), spell) == start
            &&& bought_after(start, BuyEvent::Learned(other), spell) == start
            &&& bought_after(bought, BuyEvent::Refused, spell) == Pair::Refused
            &&& bought_after(bought, BuyEvent::Bought(spell), spell) == bought
            &&& cast_after(begun, TrainCastEvent::Go { spell }, spell, ms) == Pair::Seen
            &&& cast_after(gone, TrainCastEvent::Start { timer: ms }, spell, ms) == Pair::Seen
            &&& cast_after(start, TrainCastEvent::Start { timer: late }, spell, ms) == start
            &&& cast_after(start, TrainCastEvent::Go { spell: other }, spell, ms) == start
            &&& cast_after(begun, TrainCastEvent::Refused, spell, ms) == Pair::Refused
            &&& bought_after(Pair::Seen, BuyEvent::Refused, spell) == Pair::Seen
        }),
{
}

/// A corpse is waited for half a minute, no more and no less.
pub proof fn a_corpse_is_waited_for_half_a_minute(d: u64)
    ensures
        delay_fault(Some(d)) is None <==> d == 30 * 1000,
        delay_fault(None) == Some(DelayFault::Missing),
        d != 30_000 ==> delay_fault(Some(d)) == Some(DelayFault::Wrong(d)),
{
}

} // verus!
