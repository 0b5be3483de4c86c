//! A dive from the first heartbeat under water to the last one above it: what is waited for, for
//! how long, what ends it, and what is sent next. Times are milliseconds since the dive began.

use vstd::prelude::*;
use crate::dive;
use crate::dive::{DrowningProof, EnvironmentalDamage, MirrorTimer, TimerKind};
use crate::number;

verus! {

/// Where a dive stands.
#[derive(Clone, Copy, Debug, PartialEq, Eq, Structural)]
pub enum Phase {
    /// Under water since then, and no timer yet.
    Timing { from: u64 },
    /// The timer came then, with so much breath.
    Draining { from: u64, advertised: u32 },
    /// Above water since then.
    Rising { from: u64 },
    /// The timer stopped, and the diver lives.
    Done,
    /// It failed.
    Failed,
}

/// What is seen of a dive.
#[derive(Clone, Copy, Debug, PartialEq, Eq, Structural)]
pub enum Sign {
    /// Nothing is read yet: only the time is looked at.
    Tick,
    /// A timer starts.
    Started(MirrorTimer),
    /// A timer stops.
    Stopped(TimerKind),
    /// The surroundings do damage.
    Damage { kind: EnvironmentalDamage, recipient: u64, amount: u32 },
    /// Some other message.
    Other,
    /// Nothing came in time.
    Quiet,
    /// Reading failed.
    Broken,
    /// A frame could not be taken.
    Unsafe,
}

/// What is known of the diver when something is seen.
#[derive(Clone, Copy, Debug, PartialEq, Eq, Structural)]
pub struct Seen {
    pub sign: Sign,
    pub now: u64,
    pub health: Option<u32>,
    pub dead: Option<bool>,
}

/// Why a dive fails.
#[derive(Clone, Copy, Debug, PartialEq, Eq, Structural)]
pub enum Fault {
    /// No timer of breath came; perhaps another did.
    NoTimer(Option<TimerKind>),
    /// The timer is not that of a diver.
    BadTimer(MirrorTimer),
    /// The diver drowned before its breath can have run out.
    TooEarly,
    /// No damage that matches the health.
    NoDamage { health: Option<u32> },
    /// The timer of breath did not stop; perhaps another did.
    NoStop(Option<TimerKind>),
    /// The diver died.
    Died,
}

/// What comes next.
#[derive(Clone, Copy, Debug, PartialEq, Eq, Structural)]
pub enum Step {
    /// Read on.
    Wait,
    /// Come up, with that stamp.
    Surface(u32),
    /// Log out: the dive is done.
    LogOut,
    /// End it.
    Fail(Fault),
    /// End it with what went wrong while reading.
    Lost,
}

/// A dive.
#[derive(Clone, Copy, Debug, PartialEq, Eq, Structural)]
pub struct Dive {
    pub own: u64,
    pub health: u32,
    pub stamp: u32,
    pub phase: Phase,
    pub drowned: DrowningProof,
    /// The last timer of another kind.
    pub other: Option<TimerKind>,
}

/// So much time has passed.
pub open spec fn past(from: u64, now: u64, window: int) -> bool {
    now >= from + window
}

fn is_past(from: u64, now: u64, window: u64) -> (yes: bool)
    ensures
        yes == past(from, now, window as int),
{
    now >= from && now - from >= window
}

impl Dive {
    /// A dive that begins, by a diver whose health is known.
    pub fn new(own: u64, health: u32, stamp: u32, now: u64) -> (d: Dive)
        ensures
            d == Dive::begun(own, health, stamp, now),
    {
        Dive {
            own,
            health,
            stamp,
            phase: Phase::Timing { from: now },
            drowned: DrowningProof { damage: 0, wrong_recipient: None },
            other: None,
        }
    }

    /// A dive that begins.
    pub open spec fn begun(own: u64, health: u32, stamp: u32, now: u64) -> Dive {
        Dive {
            own,
            health,
            stamp,
            phase: Phase::Timing { from: now },
            drowned: DrowningProof { damage: 0, wrong_recipient: None },
            other: None,
        }
    }

    /// It ends for that reason.
    pub open spec fn failed(self, f: Fault) -> (Dive, Step) {
        (Dive { phase: Phase::Failed, ..self }, Step::Fail(f))
    }

    /// While no timer came.
    pub open spec fn timing(self, from: u64, s: Seen) -> (Dive, Step) {
        match s.sign {
            Sign::Tick => if past(from, s.now, dive::START_WINDOW_MS as int) {
                self.failed(Fault::NoTimer(self.other))
            } else {
                (self, Step::Wait)
            },
            Sign::Started(t) => if t.timer != TimerKind::Breath {
                (Dive { other: Some(t.timer), ..self }, Step::Wait)
            } else if dive::timer_fault(t) is Some {
                self.failed(Fault::BadTimer(t))
            } else {
                (
                    Dive {
                        phase: Phase::Draining { from: s.now, advertised: t.time_remaining },
                        other: None,
                        ..self
                    },
                    Step::Wait,
                )
            },
            Sign::Unsafe => self.failed(Fault::NoTimer(self.other)),
            _ => (self, Step::Wait),
        }
    }

    /// Comes up where the damage matches the health, and waits otherwise.
    pub open spec fn matched(self, s: Seen) -> (Dive, Step) {
        if self.drowned.proves(self.health, s.health) {
            (
                Dive { phase: Phase::Rising { from: s.now }, ..self },
                Step::Surface(dive::stamp_above(self.stamp, s.now) as u32),
            )
        } else {
            (self, Step::Wait)
        }
    }

    /// While breath runs out.
    pub open spec fn draining(self, from: u64, advertised: u32, s: Seen) -> (Dive, Step) {
        match s.sign {
            Sign::Tick => if past(from, s.now, advertised + dive::DAMAGE_GRACE_MS) {
                if self.drowned.proves(self.health, s.health) {
                    self.matched(s)
                } else {
                    self.failed(Fault::NoDamage { health: s.health })
                }
            } else {
                (self, Step::Wait)
            },
            Sign::Damage { kind, recipient, amount } => if kind == EnvironmentalDamage::Drowning
                && recipient == self.own && amount > 0 && !dive::is_due(
                s.now - from,
                advertised as int,
            ) {
                self.failed(Fault::TooEarly)
            } else {
                Dive {
                    drowned: self.drowned.after(kind, recipient, amount, self.own),
                    ..self
                }.matched(s)
            },
            Sign::Broken | Sign::Unsafe => (Dive { phase: Phase::Failed, ..self }, Step::Lost),
            _ => self.matched(s),
        }
    }

    /// While the timer is to stop.
    pub open spec fn rising(self, from: u64, s: Seen) -> (Dive, Step) {
        match s.sign {
            Sign::Tick => if past(from, s.now, dive::STOP_WINDOW_MS as int) {
                self.failed(Fault::NoStop(self.other))
            } else {
                (self, Step::Wait)
            },
            Sign::Stopped(k) => if k != TimerKind::Breath {
                (Dive { other: Some(k), ..self }, Step::Wait)
            } else if s.dead == Some(true) || s.health == Some(0u32) {
                self.failed(Fault::Died)
            } else {
                (Dive { phase: Phase::Done, ..self }, Step::LogOut)
            },
            Sign::Unsafe => self.failed(Fault::NoStop(self.other)),
            _ => (self, Step::Wait),
        }
    }

    /// Once something more is seen.
    pub open spec fn after(self, s: Seen) -> (Dive, Step) {
        match self.phase {
            Phase::Timing { from } => self.timing(from, s),
            Phase::Draining { from, advertised } => self.draining(from, advertised, s),
            Phase::Rising { from } => self.rising(from, s),
            Phase::Done | Phase::Failed => (self, Step::Wait),
        }
    }

    fn fail(&mut self, f: Fault) -> (step: Step)
        ensures
            (*final(self), step) == old(self).failed(f),
    {
        self.phase = Phase::Failed;
        Step::Fail(f)
    }

    fn time_on(&mut self, from: u64, s: Seen) -> (step: Step)
        ensures
            (*final(self), step) == old(self).timing(from, s),
    {
        match s.sign {
            Sign::Tick => {
                if is_past(from, s.now, dive::START_WINDOW_MS) {
                    return self.fail(Fault::NoTimer(self.other));
                }
            },
            Sign::Started(t) => match t.timer {
                TimerKind::Breath => match dive::validate_breath_timer(t) {
                    Ok(advertised) => {
                        self.phase = Phase::Draining { from: s.now, advertised };
                        self.other = None;
                    },
                    Err(_) => {
                        return self.fail(Fault::BadTimer(t));
                    },
                },
                _ => {
                    self.other = Some(t.timer);
                },
            },
            Sign::Unsafe => {
                return self.fail(Fault::NoTimer(self.other));
            },
            _ => {},
        }
        Step::Wait
    }

    fn rise(&mut self, s: Seen) -> (step: Step)
        ensures
            (*final(self), step) == old(self).matched(s),
    {
        if self.drowned.matches_health(self.health, s.health) {
            self.phase = Phase::Rising { from: s.now };
            Step::Surface(dive::surface_timestamp(self.stamp, s.now))
        } else {
            Step::Wait
        }
    }

    fn drain_on(&mut self, from: u64, advertised: u32, s: Seen) -> (step: Step)
        requires
            from <= s.now,
        ensures
            (*final(self), step) == old(self).draining(from, advertised, s),
    {
        match s.sign {
            Sign::Tick => {
                if !is_past(from, s.now, dive::damage_window_ms(advertised)) {
                    return Step::Wait;
                }
                if !self.drowned.matches_health(self.health, s.health) {
                    return self.fail(Fault::NoDamage { health: s.health });
                }
                self.rise(s)
            },
            Sign::Damage { kind, recipient, amount } => {
                if dive::came_too_early(
                    kind,
                    recipient,
                    amount,
                    self.own,
                    s.now - from,
                    advertised,
                ) {
                    return self.fail(Fault::TooEarly);
                }
                self.drowned.observe(kind, recipient, amount, self.own);
                self.rise(s)
            },
            Sign::Broken | Sign::Unsafe => {
                self.phase = Phase::Failed;
                Step::Lost
            },
            _ => self.rise(s),
        }
    }

    fn rise_on(&mut self, from: u64, s: Seen) -> (step: Step)
        ensures
            (*final(self), step) == old(self).rising(from, s),
    {
        match s.sign {
            Sign::Tick => {
                if is_past(from, s.now, dive::STOP_WINDOW_MS) {
                    return self.fail(Fault::NoStop(self.other));
                }
            },
            Sign::Stopped(k) => match k {
                TimerKind::Breath => {
                    if !dive::lives(s.dead, s.health) {
                        return self.fail(Fault::Died);
                    }
                    self.phase = Phase::Done;
                    return Step::LogOut;
                },
                _ => {
                    self.other = Some(k);
                },
            },
            Sign::Unsafe => {
                return self.fail(Fault::NoStop(self.other));
            },
            _ => {},
        }
        Step::Wait
    }

    /// Takes in what is seen; says what comes next. The clock does not run backwards.
    pub fn observe(&mut self, s: Seen) -> (step: Step)
        requires
            old(self).phase matches Phase::Draining { from, .. } ==> from <= s.now,
        ensures
            (*final(self), step) == old(self).after(s),
    {
        match self.phase {
            Phase::Timing { from } => self.time_on(from, s),
            Phase::Draining { from, advertised } => self.drain_on(from, advertised, s),
            Phase::Rising { from } => self.rise_on(from, s),
            Phase::Done | Phase::Failed => Step::Wait,
        }
    }
}

// ------------------------------------------------------------------------------------------
//  In words
// ------------------------------------------------------------------------------------------

/// What is added where another timer was seen.
pub open spec fn observed(k: Option<TimerKind>) -> Seq<char> {
    match k {
        None => Seq::empty(),
        Some(k) => "; observed "@ + dive::timer_name(k),
    }
}

fn append_observed(out: &mut String, k: Option<TimerKind>)
    ensures
        final(out)@ == old(out)@ + observed(k),
{
    let ghost start = out@;
    match k {
        None => {
            assert(out@ =~= start + observed(k));
        },
        Some(t) => {
            out.append("; observed ");
            out.append(dive::timer_word(t));
            assert(out@ =~= start + observed(k));
        },
    }
}

impl Dive {
    /// A fault in words.
    pub open spec fn words(self, f: Fault) -> Seq<char> {
        match f {
            Fault::NoTimer(k) => "STEP 1 FAIL: no Breath SMSG_START_MIRROR_TIMER within 5s"@
                + observed(k),
            Fault::BadTimer(t) => dive::timer_fault(t).unwrap_or(Seq::empty()),
            Fault::TooEarly =>
                "STEP 2 FAIL: own drowning damage arrived before the advertised Breath window drained"@,
            Fault::NoDamage { health } =>
                "STEP 2 FAIL: no matched own drowning damage before timer budget ended (logged="@
                + number::decimal(self.drowned.damage as nat) + ", health "@ + number::decimal(
                self.health as nat,
            ) + "->"@ + number::optional(
                match health {
                    None => None,
                    Some(n) => Some(n as nat),
                },
            ) + ", wrong recipient="@ + number::optional(
                match self.drowned.wrong_recipient {
                    None => None,
                    Some(n) => Some(n as nat),
                },
            ) + ")"@,
            Fault::NoStop(k) => "STEP 3 FAIL: no Breath SMSG_STOP_MIRROR_TIMER within 5s"@
                + observed(k),
            Fault::Died => "STEP 3 FAIL: Character died before the surface timer stop"@,
        }
    }

    /// A fault in words.
    pub fn message(&self, f: Fault) -> (s: String)
        ensures
            s@ == self.words(f),
    {
        match f {
            Fault::NoTimer(k) => {
                let mut s: String =
                    "STEP 1 FAIL: no Breath SMSG_START_MIRROR_TIMER within 5s".to_owned();
                append_observed(&mut s, k);
                s
            },
            Fault::BadTimer(t) => match dive::validate_breath_timer(t) {
                Ok(_) => String::new(),
                Err(said) => said,
            },
            Fault::TooEarly =>
                "STEP 2 FAIL: own drowning damage arrived before the advertised Breath window drained".to_owned(),
            Fault::NoDamage { health } => {
                let mut s: String =
                    "STEP 2 FAIL: no matched own drowning damage before timer budget ended (logged=".to_owned();
                number::push_decimal(&mut s, self.drowned.damage as u64);
                s.append(", health ");
                number::push_decimal(&mut s, self.health as u64);
                s.append("->");
                number::push_optional(
                    &mut s,
                    match health {
                        None => None,
                        Some(n) => Some(n as u64),
                    },
                );
                s.append(", wrong recipient=");
                number::push_optional(&mut s, self.drowned.wrong_recipient);
                s.append(")");
                s
            },
            Fault::NoStop(k) => {
                let mut s: String =
                    "STEP 3 FAIL: no Breath SMSG_STOP_MIRROR_TIMER within 5s".to_owned();
                append_observed(&mut s, k);
                s
            },
            Fault::Died => "STEP 3 FAIL: Character died before the surface timer stop".to_owned(),
        }
    }
}

// ------------------------------------------------------------------------------------------
//  What a finished dive has shown
// ------------------------------------------------------------------------------------------

/// Where a dive stands after all that was seen.
pub open spec fn dive_after(start: Dive, seen: Seq<Seen>) -> Dive
    decreases seen.len(),
{
    if seen.len() == 0 {
        start
    } else {
        dive_after(start, seen.drop_last()).after(seen.last()).0
    }
}

/// The timer of a diver started.
pub open spec fn started(s: Seen) -> bool {
    s.sign matches Sign::Started(t) && t.timer == TimerKind::Breath && dive::timer_fault(t) is None
}

/// The timer of a diver stopped while it lived.
pub open spec fn stopped_alive(s: Seen) -> bool {
    &&& s.sign == Sign::Stopped(TimerKind::Breath)
    &&& s.dead != Some(true)
    &&& s.health != Some(0u32)
}

/// By then the damage by drowning was the health that was lost.
pub open spec fn drowned_by(start: Dive, seen: Seq<Seen>, j: int) -> bool {
    dive_after(start, seen.take(j + 1)).drowned.proves(start.health, seen[j].health)
}

proof fn lemma_dive(own: u64, health: u32, stamp: u32, now: u64, seen: Seq<Seen>)
    ensures
        ({
            let start = Dive::begun(own, health, stamp, now);
            let d = dive_after(start, seen);
            &&& d.health == health
            &&& d.phase is Draining ==> exists|i: int|
                0 <= i < seen.len() && #[trigger] started(seen[i])
            &&& d.phase is Rising ==> exists|i: int, j: int|
                #![trigger started(seen[i]), drowned_by(start, seen, j)]
                0 <= i < j < seen.len() && started(seen[i]) && drowned_by(start, seen, j)
            &&& d.phase is Done ==> exists|i: int, j: int, k: int|
                #![trigger started(seen[i]), drowned_by(start, seen, j), stopped_alive(seen[k])]
                0 <= i < j < k < seen.len() && started(seen[i]) && drowned_by(start, seen, j)
                    && stopped_alive(seen[k])
        }),
    decreases seen.len(),
{
    let start = Dive::begun(own, health, stamp, now);
    if seen.len() > 0 {
        let before = seen.drop_last();
        let last = seen.last();
        lemma_dive(own, health, stamp, now, before);
        let was = dive_after(start, before);
        let d = dive_after(start, seen);
        let n = (seen.len() - 1) as int;
        assert(seen.take(n + 1) =~= seen);
        assert(forall|i: int| 0 <= i < n ==> before[i] == #[trigger] seen[i]);
        assert forall|j: int| 0 <= j < n && #[trigger] drowned_by(start, before, j) implies drowned_by(
            start,
            seen,
            j,
        ) by {
            assert(before.take(j + 1) =~= seen.take(j + 1));
        }
        if d.phase is Draining {
            if was.phase is Timing {
                assert(started(seen[n]));
            } else {
                let i = choose|i: int| 0 <= i < before.len() && #[trigger] started(before[i]);
                assert(started(seen[i]));
            }
        }
        if d.phase is Rising {
            if was.phase is Draining {
                let i = choose|i: int| 0 <= i < before.len() && #[trigger] started(before[i]);
                assert(started(seen[i]));
                assert(drowned_by(start, seen, n));
            } else {
                let (i, j) = choose|i: int, j: int|
                    #![trigger started(before[i]), drowned_by(start, before, j)]
                    0 <= i < j < before.len() && started(before[i]) && drowned_by(
                        start,
                        before,
                        j,
                    );
                assert(started(seen[i]) && drowned_by(start, seen, j));
            }
        }
        if d.phase is Done {
            if was.phase is Rising {
                let (i, j) = choose|i: int, j: int|
                    #![trigger started(before[i]), drowned_by(start, before, j)]
                    0 <= i < j < before.len() && started(before[i]) && drowned_by(
                        start,
                        before,
                        j,
                    );
                assert(started(seen[i]) && drowned_by(start, seen, j) && stopped_alive(seen[n]));
            } else {
                let (i, j, k) = choose|i: int, j: int, k: int|
                    #![trigger started(before[i]), drowned_by(start, before, j), stopped_alive(before[k])]
                    0 <= i < j < k < before.len() && started(before[i]) && drowned_by(
                        start,
                        before,
                        j,
                    ) && stopped_alive(before[k]);
                assert(started(seen[i]) && drowned_by(start, seen, j) && stopped_alive(seen[k]));
            }
        }
    }
}

/// A dive that is done has shown, one after the other: the timer of a diver, damage by drowning
/// that is just the health that was lost, and the stop of the timer while the diver lives.
pub proof fn a_finished_dive_drowned_and_lived(
    own: u64,
    health: u32,
    stamp: u32,
    now: u64,
    seen: Seq<Seen>,
)
    requires
        dive_after(Dive::begun(own, health, stamp, now), seen).phase is Done,
    ensures
        exists|i: int, j: int, k: int|
            #![trigger started(seen[i]), drowned_by(Dive::begun(own, health, stamp, now), seen, j), stopped_alive(seen[k])]
            0 <= i < j < k < seen.len() && started(seen[i]) && drowned_by(
                Dive::begun(own, health, stamp, now),
                seen,
                j,
            ) && stopped_alive(seen[k]),
{
    lemma_dive(own, health, stamp, now, seen);
}

/// A dive that goes as it should goes on step by step: a timer of breath is taken in, drowning that is
/// just the health that was lost lets the diver come up, and the stop of the timer ends it.
pub proof fn a_dive_goes_step_by_step(
    own: u64,
    health: u32,
    stamp: u32,
    t: MirrorTimer,
    a: u64,
    b: u64,
    c: u64,
    d: u64,
    damage: u32,
    dead: Option<bool>,
)
    requires
        dive::timer_fault(t) is None,
        b <= c,
        c - b + 1500 >= t.time_remaining,
        0 < damage < health,
        dead != Some(true),
    ensures
        ({
            let dive = Dive::begun(own, health, stamp, a);
            let (d1, s1) = dive.after(
                Seen { sign: Sign::Started(t), now: b, health: Some(health), dead },
            );
            let hurt = Seen {
                sign: Sign::Damage {
                    kind: EnvironmentalDamage::Drowning,
                    recipient: own,
                    amount: damage,
                },
                now: c,
                health: Some((health - damage) as u32),
                dead,
            };
            let (d2, s2) = d1.after(hurt);
            let (d3, s3) = d2.after(
                Seen {
                    sign: Sign::Stopped(TimerKind::Breath),
                    now: d,
                    health: Some((health - damage) as u32),
                    dead,
                },
            );
            &&& s1 == Step::Wait && d1.phase == (Phase::Draining {
                from: b,
                advertised: t.time_remaining,
            })
            &&& s2 is Surface && s2->Surface_0 == dive::stamp_above(stamp, c) && d2.phase
                == (Phase::Rising { from: c })
            &&& s3 == Step::LogOut && d3.phase == Phase::Done
            &&& d1.after(Seen { health: Some(health), ..hurt }).1 == Step::Wait
            &&& d2.after(
                Seen { sign: Sign::Stopped(TimerKind::Breath), now: d, health: Some(0), dead },
            ).1 == Step::Fail(Fault::Died)
            &&& d2.after(
                Seen {
                    sign: Sign::Stopped(TimerKind::Fatigue),
                    now: d,
                    health: Some(health),
                    dead,
                },
            ).1 == Step::Wait
        }),
{
}

/// A dive ends for its own reasons: no timer within five seconds, a timer that is no diver's, drowning
/// with more than a second and a half of breath left, no drowning that matches eight seconds behind
/// the breath, and no stop within five seconds of coming up.
pub proof fn a_dive_ends_for_cause(d: Dive, s: Seen)
    ensures
        d.phase matches Phase::Timing { from } ==> {
            &&& s.sign == Sign::Tick ==> (d.after(s).1 is Fail <==> s.now >= from + 5000)
            &&& s.sign == Sign::Tick && s.now >= from + 5000 ==> d.after(s).1 == Step::Fail(
                Fault::NoTimer(d.other),
            )
            &&& s.sign matches Sign::Started(t) ==> {
                &&& t.timer != TimerKind::Breath ==> d.after(s).1 == Step::Wait && d.after(s).0.other
                    == Some(t.timer) && d.after(s).0.phase == d.phase
                &&& t.timer == TimerKind::Breath && dive::timer_fault(t) is Some ==> d.after(s).1
                    == Step::Fail(Fault::BadTimer(t))
            }
        },
        d.phase matches Phase::Draining { from, advertised } ==> {
            &&& s.sign == Sign::Tick && !d.drowned.proves(d.health, s.health) ==> (d.after(s).1 is Fail
                <==> s.now >= from + advertised + 8000)
            &&& s.sign == Sign::Tick && s.now < from + advertised + 8000 ==> d.after(s) == (d, Step::Wait)
            &&& s.sign matches Sign::Damage { kind, recipient, amount } ==> (d.after(s).1 == Step::Fail(
                Fault::TooEarly,
            ) <==> kind == EnvironmentalDamage::Drowning && recipient == d.own && amount > 0
                && advertised - (s.now - from) > 1500)
            &&& s.sign == Sign::Broken || s.sign == Sign::Unsafe ==> d.after(s).1 == Step::Lost
        },
        d.phase matches Phase::Rising { from } ==> {
            &&& s.sign == Sign::Tick ==> (d.after(s).1 is Fail <==> s.now >= from + 5000)
        },
        d.phase == Phase::Done || d.phase == Phase::Failed ==> d.after(s) == (d, Step::Wait),
        d.after(s).1 is Fail || d.after(s).1 == Step::Lost ==> d.after(s).0.phase == Phase::Failed,
{
}

} // verus!
