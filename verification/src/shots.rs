//! The probes of combat: what they count while they watch, and what they conclude. Times are
//! milliseconds of one clock.

use vstd::prelude::*;
use crate::text;

verus! {

/// One more, or the most there is.
pub open spec fn more(n: u32) -> u32 {
    if n < u32::MAX {
        (n + 1) as u32
    } else {
        n
    }
}

/// One more, or the most there is.
pub fn bump(n: u32) -> (m: u32)
    ensures
        m == more(n),
{
    if n < u32::MAX {
        n + 1
    } else {
        n
    }
}

/// Some more, or the most there is.
pub open spec fn raised(n: u32, by: u32) -> u32 {
    if n + by <= u32::MAX {
        (n + by) as u32
    } else {
        u32::MAX
    }
}

fn raise(n: u32, by: u32) -> (m: u32)
    ensures
        m == raised(n, by),
{
    if by <= u32::MAX - n {
        n + by
    } else {
        u32::MAX
    }
}

/// How long ago something was.
pub open spec fn since(now: u64, then: u64) -> u64 {
    if now >= then {
        (now - then) as u64
    } else {
        0
    }
}

fn elapsed(now: u64, then: u64) -> (d: u64)
    ensures
        d == since(now, then),
{
    if now >= then {
        now - then
    } else {
        0
    }
}

// ------------------------------------------------------------------------------------------
//  Auto Shot
// ------------------------------------------------------------------------------------------

/// The spell of Auto Shot.
pub const AUTO_SHOT: u32 = 75;

/// What a run of Auto Shot is to show.
#[derive(Clone, Copy, Debug, PartialEq, Eq, Structural)]
pub enum ShotMode {
    /// The shots repeat.
    Loop,
    /// One press turns the shots into swings.
    Melee,
    /// Too far away, nothing starts.
    Reject,
    /// The shots wait while the shooter runs.
    Moving,
    /// No such run.
    Other,
}

/// The run that a word names.
pub open spec fn shot_mode(word: Seq<char>) -> ShotMode {
    if word == "loop"@ {
        ShotMode::Loop
    } else if word == "melee"@ {
        ShotMode::Melee
    } else if word == "reject"@ {
        ShotMode::Reject
    } else if word == "moving"@ {
        ShotMode::Moving
    } else {
        ShotMode::Other
    }
}

/// The run that a word names.
pub fn shot_mode_of(word: &str) -> (m: ShotMode)
    ensures
        m == shot_mode(word@),
{
    if text::same_text(word, "loop") {
        ShotMode::Loop
    } else if text::same_text(word, "melee") {
        ShotMode::Melee
    } else if text::same_text(word, "reject") {
        ShotMode::Reject
    } else if text::same_text(word, "moving") {
        ShotMode::Moving
    } else {
        ShotMode::Other
    }
}

impl ShotMode {
    /// How far from its target the shooter stands, in yards.
    pub fn stand_off(self) -> (yards: u32)
        ensures
            yards == match self {
                ShotMode::Reject => 45u32,
                ShotMode::Loop | ShotMode::Moving => 25,
                _ => 15,
            },
    {
        match self {
            ShotMode::Reject => 45,
            ShotMode::Loop | ShotMode::Moving => 25,
            _ => 15,
        }
    }

    /// How long the run is watched.
    pub fn window_ms(self) -> (ms: u64)
        ensures
            ms == match self {
                ShotMode::Reject => 5000u64,
                _ => 22000,
            },
    {
        match self {
            ShotMode::Reject => 5000,
            _ => 22000,
        }
    }
}

/// What is seen of Auto Shot.
#[derive(Clone, Copy, Debug, PartialEq, Eq, Structural)]
pub enum ShotEvent {
    /// It starts, with a timer and with or without ammunition.
    Start { timer: u32, ammo: bool },
    /// A cast is refused.
    CastResult,
    /// A shot leaves, and misses so many.
    Go { misses: u32 },
    /// A shot lands.
    Damage,
    /// The shooter swings.
    OwnSwing,
    /// The server stops the shots.
    Cancel,
    /// Anything else.
    Other,
}

/// What the shooter does next.
#[derive(Clone, Copy, Debug, PartialEq, Eq, Structural)]
pub enum ShotStep {
    /// It goes on watching.
    Watch,
    /// It swings and cancels the shots, one right after the other.
    SendPair,
    /// It has seen enough.
    Enough,
}

/// What was seen of a run of Auto Shot.
#[derive(Clone, Copy, Debug)]
pub struct Shots {
    pub mode: ShotMode,
    pub start: Option<(u32, bool)>,
    pub cast_results: u32,
    pub gos: u32,
    pub misses: u32,
    pub damage_logs: u32,
    /// Swings of the shooter before it asked for any.
    pub ranged_swings: u32,
    pub cancels: u32,
    pub last_go: Option<u64>,
    /// How long the first shot that landed was in the air.
    pub first_gap: Option<u64>,
    pub pair_at: Option<u64>,
    pub swings_after_pair: u32,
}

/// Why a run of Auto Shot fails.
#[derive(Clone, Copy, Debug, PartialEq, Eq, Structural)]
pub enum ShotFault {
    BadStart,
    NoRepeat,
    NoDamage,
    BadFlight(u64),
    SwungWhileShooting,
    NoSwing,
    NotRefused,
    UnknownMode,
}

impl Shots {
    /// Before anything is seen.
    pub open spec fn fresh(mode: ShotMode) -> Shots {
        Shots {
            mode,
            start: None,
            cast_results: 0,
            gos: 0,
            misses: 0,
            damage_logs: 0,
            ranged_swings: 0,
            cancels: 0,
            last_go: None,
            first_gap: None,
            pair_at: None,
            swings_after_pair: 0,
        }
    }

    /// Once something more is seen.
    pub open spec fn after(self, e: ShotEvent, at: u64) -> (Shots, ShotStep) {
        match e {
            ShotEvent::Start { timer, ammo } => (
                Shots { start: Some((timer, ammo)), ..self },
                ShotStep::Watch,
            ),
            ShotEvent::CastResult => (
                Shots { cast_results: more(self.cast_results), ..self },
                ShotStep::Watch,
            ),
            ShotEvent::Go { misses } => {
                let seen = Shots {
                    gos: more(self.gos),
                    misses: raised(self.misses, misses),
                    last_go: Some(at),
                    ..self
                };
                if self.mode == ShotMode::Melee && self.pair_at is None {
                    (Shots { pair_at: Some(at), ..seen }, ShotStep::SendPair)
                } else {
                    (seen, ShotStep::Watch)
                }
            },
            ShotEvent::Damage => (
                Shots {
                    damage_logs: more(self.damage_logs),
                    first_gap: match self.first_gap {
                        Some(g) => Some(g),
                        None => Some(
                            match self.last_go {
                                Some(t) => since(at, t),
                                None => 0,
                            },
                        ),
                    },
                    ..self
                },
                ShotStep::Watch,
            ),
            ShotEvent::OwnSwing => match self.pair_at {
                Some(_) => (
                    Shots { swings_after_pair: more(self.swings_after_pair), ..self },
                    if more(self.swings_after_pair) >= 2 {
                        ShotStep::Enough
                    } else {
                        ShotStep::Watch
                    },
                ),
                None => (
                    Shots { ranged_swings: more(self.ranged_swings), ..self },
                    ShotStep::Watch,
                ),
            },
            ShotEvent::Cancel => (
                Shots { cancels: more(self.cancels), ..self },
                if self.mode == ShotMode::Loop && self.gos >= 2 {
                    ShotStep::Enough
                } else {
                    ShotStep::Watch
                },
            ),
            ShotEvent::Other => (self, ShotStep::Watch),
        }
    }

    /// Why the run fails, if it does.
    pub open spec fn fault(self) -> Option<ShotFault> {
        match self.mode {
            ShotMode::Loop => if self.start != Some((0u32, true)) {
                Some(ShotFault::BadStart)
            } else if self.gos < 2 {
                Some(ShotFault::NoRepeat)
            } else if self.damage_logs == 0 && self.misses < 2 {
                Some(ShotFault::NoDamage)
            } else if self.first_gap matches Some(g) && !(400 <= g <= 900) {
                Some(ShotFault::BadFlight(self.first_gap->0))
            } else if self.ranged_swings > 0 {
                Some(ShotFault::SwungWhileShooting)
            } else {
                None
            },
            ShotMode::Melee => if self.swings_after_pair == 0 {
                Some(ShotFault::NoSwing)
            } else {
                None
            },
            ShotMode::Reject => if self.cast_results == 0 || self.start is Some || self.gos > 0 {
                Some(ShotFault::NotRefused)
            } else {
                None
            },
            _ => Some(ShotFault::UnknownMode),
        }
    }

    /// A run that begins.
    pub fn new(mode: ShotMode) -> (s: Shots)
        ensures
            s == Shots::fresh(mode),
    {
        Shots {
            mode,
            start: None,
            cast_results: 0,
            gos: 0,
            misses: 0,
            damage_logs: 0,
            ranged_swings: 0,
            cancels: 0,
            last_go: None,
            first_gap: None,
            pair_at: None,
            swings_after_pair: 0,
        }
    }

    /// Notes what is seen.
    pub fn observe(&mut self, e: ShotEvent, at: u64) -> (step: ShotStep)
        ensures
            (*final(self), step) == old(self).after(e, at),
    {
        match e {
            ShotEvent::Start { timer, ammo } => {
                self.start = Some((timer, ammo));
            },
            ShotEvent::CastResult => {
                self.cast_results = bump(self.cast_results);
            },
            ShotEvent::Go { misses } => {
                self.gos = bump(self.gos);
                self.misses = raise(self.misses, misses);
                self.last_go = Some(at);
                if self.mode == ShotMode::Melee && self.pair_at.is_none() {
                    self.pair_at = Some(at);
                    return ShotStep::SendPair;
                }
            },
            ShotEvent::Damage => {
                self.damage_logs = bump(self.damage_logs);
                if self.first_gap.is_none() {
                    self.first_gap = Some(
                        match self.last_go {
                            Some(t) => elapsed(at, t),
                            None => 0,
                        },
                    );
                }
            },
            ShotEvent::OwnSwing => match self.pair_at {
                Some(_) => {
                    self.swings_after_pair = bump(self.swings_after_pair);
                    if self.swings_after_pair >= 2 {
                        return ShotStep::Enough;
                    }
                },
                None => {
                    self.ranged_swings = bump(self.ranged_swings);
                },
            },
            ShotEvent::Cancel => {
                self.cancels = bump(self.cancels);
                if self.mode == ShotMode::Loop && self.gos >= 2 {
                    return ShotStep::Enough;
                }
            },
            ShotEvent::Other => {},
        }
        ShotStep::Watch
    }

    /// Concludes the run.
    pub fn verdict(&self) -> (f: Option<ShotFault>)
        ensures
            f == self.fault(),
    {
        match self.mode {
            ShotMode::Loop => {
                let started: bool = match self.start {
                    Some((timer, ammo)) => timer == 0 && ammo,
                    None => false,
                };
                if !started {
                    return Some(ShotFault::BadStart);
                }
                if self.gos < 2 {
                    return Some(ShotFault::NoRepeat);
                }
                if self.damage_logs == 0 && self.misses < 2 {
                    return Some(ShotFault::NoDamage);
                }
                if let Some(g) = self.first_gap {
                    if !(400 <= g && g <= 900) {
                        return Some(ShotFault::BadFlight(g));
                    }
                }
                if self.ranged_swings > 0 {
                    return Some(ShotFault::SwungWhileShooting);
                }
                None
            },
            ShotMode::Melee => if self.swings_after_pair == 0 {
                Some(ShotFault::NoSwing)
            } else {
                None
            },
            ShotMode::Reject => if self.cast_results == 0 || self.start.is_some() || self.gos > 0 {
                Some(ShotFault::NotRefused)
            } else {
                None
            },
            _ => Some(ShotFault::UnknownMode),
        }
    }
}

/// What was seen after some events.
pub open spec fn shots_after(mode: ShotMode, seen: Seq<(ShotEvent, u64)>) -> Shots
    decreases seen.len(),
{
    if seen.len() == 0 {
        Shots::fresh(mode)
    } else {
        shots_after(mode, seen.drop_last()).after(seen.last().0, seen.last().1).0
    }
}

/// A shot left at a place of a run.
pub open spec fn left_at(seen: Seq<(ShotEvent, u64)>, i: int) -> bool {
    0 <= i < seen.len() && seen[i].0 is Go
}

proof fn lemma_shots(mode: ShotMode, seen: Seq<(ShotEvent, u64)>)
    ensures
        shots_after(mode, seen).mode == mode,
        mode != ShotMode::Melee ==> shots_after(mode, seen).pair_at is None,
        shots_after(mode, seen).gos >= 1 ==> exists|i: int| left_at(seen, i),
        shots_after(mode, seen).gos >= 2 ==> exists|i: int, j: int|
            i < j && left_at(seen, i) && left_at(seen, j),
        shots_after(mode, seen).gos == 0 ==> forall|i: int| !left_at(seen, i),
        shots_after(mode, seen).start matches Some((timer, ammo)) ==> exists|i: int|
            0 <= i < seen.len() && (#[trigger] seen[i]).0 == (ShotEvent::Start { timer, ammo }),
        shots_after(mode, seen).start is None ==> forall|i: int|
            0 <= i < seen.len() ==> !((#[trigger] seen[i]).0 is Start),
        shots_after(mode, seen).cast_results > 0 ==> exists|i: int|
            0 <= i < seen.len() && (#[trigger] seen[i]).0 is CastResult,
        mode != ShotMode::Melee && shots_after(mode, seen).ranged_swings == 0 ==> forall|i: int|
            0 <= i < seen.len() ==> !((#[trigger] seen[i]).0 is OwnSwing),
        shots_after(mode, seen).pair_at is Some ==> exists|i: int| left_at(seen, i),
        shots_after(mode, seen).swings_after_pair > 0 ==> exists|i: int, j: int|
            i < j < seen.len() && left_at(seen, i) && (#[trigger] seen[j]).0 is OwnSwing
                && #[trigger] left_at(seen, i),
    decreases seen.len(),
{
    if seen.len() > 0 {
        let before = seen.drop_last();
        lemma_shots(mode, before);
        let n = seen.len() - 1;
        let was = shots_after(mode, before);
        let now = shots_after(mode, seen);
        assert(forall|i: int| 0 <= i < n ==> before[i] == #[trigger] seen[i]);
        assert forall|i: int| #[trigger] left_at(before, i) implies left_at(seen, i) by {
            assert(before[i] == seen[i]);
        }
        if seen.last().0 is Go {
            assert(left_at(seen, n));
        }
        if now.gos == 0 {
            assert forall|i: int| !left_at(seen, i) by {
                if left_at(seen, i) && i < n {
                    assert(left_at(before, i));
                }
            }
        }
        if was.gos >= 1 {
            let i = choose|i: int| left_at(before, i);
            assert(left_at(seen, i));
            if seen.last().0 is Go {
                assert(i < n && left_at(seen, i) && left_at(seen, n));
            }
        }
        if was.gos >= 2 {
            let (i, j) = choose|i: int, j: int| i < j && left_at(before, i) && left_at(before, j);
            assert(left_at(seen, i) && left_at(seen, j));
        }
        if was.start is Some && !(seen.last().0 is Start) {
            let (timer, ammo) = was.start->0;
            let i = choose|i: int|
                0 <= i < before.len() && (#[trigger] before[i]).0 == (ShotEvent::Start {
                    timer,
                    ammo,
                });
            assert(seen[i] == before[i]);
        }
        if seen.last().0 is Start {
            assert(seen[n].0 is Start);
        }
        if was.cast_results > 0 {
            let i = choose|i: int| 0 <= i < before.len() && (#[trigger] before[i]).0 is CastResult;
            assert(seen[i] == before[i]);
        }
        if seen.last().0 is CastResult {
            assert(seen[n].0 is CastResult);
        }
        if was.pair_at is Some {
            let i = choose|i: int| left_at(before, i);
            assert(left_at(seen, i));
            if seen.last().0 is OwnSwing {
                assert(i < n && left_at(seen, i) && seen[n].0 is OwnSwing);
            }
        }
        if was.swings_after_pair > 0 {
            let (i, j) = choose|i: int, j: int|
                i < j < before.len() && left_at(before, i) && (#[trigger] before[j]).0 is OwnSwing
                    && #[trigger] left_at(before, i);
            assert(left_at(seen, i) && seen[j] == before[j]);
        }
    }
}

/// A passing run of repeated shots was seen to start with its ammunition and no timer, to shoot
/// twice, and never to swing.
pub proof fn a_passing_loop_was_seen(seen: Seq<(ShotEvent, u64)>)
    requires
        shots_after(ShotMode::Loop, seen).fault() is None,
    ensures
        exists|i: int|
            0 <= i < seen.len() && (#[trigger] seen[i]).0 == (ShotEvent::Start {
                timer: 0,
                ammo: true,
            }),
        exists|i: int, j: int| i < j && left_at(seen, i) && left_at(seen, j),
        forall|i: int| 0 <= i < seen.len() ==> !((#[trigger] seen[i]).0 is OwnSwing),
{
    lemma_shots(ShotMode::Loop, seen);
}

/// A passing refusal was seen to be refused, and neither to start nor to shoot.
pub proof fn a_passing_refusal_armed_nothing(seen: Seq<(ShotEvent, u64)>)
    requires
        shots_after(ShotMode::Reject, seen).fault() is None,
    ensures
        exists|i: int| 0 <= i < seen.len() && (#[trigger] seen[i]).0 is CastResult,
        forall|i: int|
            0 <= i < seen.len() ==> !((#[trigger] seen[i]).0 is Start) && !(seen[i].0 is Go),
{
    lemma_shots(ShotMode::Reject, seen);
    assert forall|i: int| 0 <= i < seen.len() implies !((#[trigger] seen[i]).0 is Start) && !(
    seen[i].0 is Go) by {
        assert(!left_at(seen, i));
    }
}

/// A passing change to melee swung after a shot had left.
pub proof fn a_passing_swap_swung_after_a_shot(seen: Seq<(ShotEvent, u64)>)
    requires
        shots_after(ShotMode::Melee, seen).fault() is None,
    ensures
        exists|i: int, j: int|
            i < j < seen.len() && #[trigger] left_at(seen, i) && (#[trigger] seen[j]).0 is OwnSwing,
{
    lemma_shots(ShotMode::Melee, seen);
    let (i, j) = choose|i: int, j: int|
        i < j < seen.len() && left_at(seen, i) && (#[trigger] seen[j]).0 is OwnSwing
            && #[trigger] left_at(seen, i);
    assert(left_at(seen, i) && seen[j].0 is OwnSwing);
}

/// Why a run of shots that wait while the shooter runs fails.
#[derive(Clone, Copy, Debug, PartialEq, Eq, Structural)]
pub enum MovingFault {
    NeverFired,
    FiredWhileRunning(u32),
    NeverResumed,
    ResumedLate(u64),
}

/// The longest time after which the shots go on.
pub const RESUME_LIMIT_MS: u64 = 3200;

/// Why a run of shots that wait while the shooter runs fails, if it does.
pub open spec fn moving_fault(fired: bool, running: u32, resumed: Option<u64>) -> Option<
    MovingFault,
> {
    if !fired {
        Some(MovingFault::NeverFired)
    } else if running > 0 {
        Some(MovingFault::FiredWhileRunning(running))
    } else {
        match resumed {
            None => Some(MovingFault::NeverResumed),
            Some(ms) => if ms > RESUME_LIMIT_MS {
                Some(MovingFault::ResumedLate(ms))
            } else {
                None
            },
        }
    }
}

/// Where a run of shots that wait stands.
#[derive(Clone, Copy, Debug, PartialEq, Eq, Structural)]
pub enum MovingPhase {
    /// Until the first shot.
    Waiting,
    /// While the shooter runs.
    Running,
    /// From this time on it stands.
    Standing(u64),
}

/// A run of shots that wait while the shooter runs.
#[derive(Clone, Copy, Debug)]
pub struct MovingShots {
    pub phase: MovingPhase,
    pub running: u32,
    pub resumed: Option<u64>,
}

impl MovingShots {
    /// Before the first shot.
    pub open spec fn fresh() -> MovingShots {
        MovingShots { phase: MovingPhase::Waiting, running: 0, resumed: None }
    }

    /// Once a shot left.
    pub open spec fn fired(self, at: u64) -> MovingShots {
        match self.phase {
            MovingPhase::Waiting => MovingShots { phase: MovingPhase::Running, ..self },
            MovingPhase::Running => MovingShots { running: more(self.running), ..self },
            MovingPhase::Standing(from) => match self.resumed {
                Some(_) => self,
                None => MovingShots { resumed: Some(since(at, from)), ..self },
            },
        }
    }

    /// Once the shooter stands still again.
    pub open spec fn stood(self, at: u64) -> MovingShots {
        match self.phase {
            MovingPhase::Running => MovingShots { phase: MovingPhase::Standing(at), ..self },
            _ => self,
        }
    }

    /// Why the run fails, if it does.
    pub open spec fn fault(self) -> Option<MovingFault> {
        moving_fault(self.phase != MovingPhase::Waiting, self.running, self.resumed)
    }

    /// Before the first shot.
    pub fn new() -> (m: MovingShots)
        ensures
            m == MovingShots::fresh(),
    {
        MovingShots { phase: MovingPhase::Waiting, running: 0, resumed: None }
    }

    /// A shot leaves: the first lets the shooter run, one that leaves while it runs counts against
    /// the run, and the first after that ends it.
    pub fn go(&mut self, at: u64)
        ensures
            *final(self) == old(self).fired(at),
    {
        match self.phase {
            MovingPhase::Waiting => {
                self.phase = MovingPhase::Running;
            },
            MovingPhase::Running => {
                self.running = bump(self.running);
            },
            MovingPhase::Standing(from) => {
                if self.resumed.is_none() {
                    self.resumed = Some(elapsed(at, from));
                }
            },
        }
    }

    /// The shooter stands still again.
    pub fn stand(&mut self, at: u64)
        ensures
            *final(self) == old(self).stood(at),
    {
        match self.phase {
            MovingPhase::Running => {
                self.phase = MovingPhase::Standing(at);
            },
            _ => {},
        }
    }

    /// Concludes the run.
    pub fn verdict(&self) -> (f: Option<MovingFault>)
        ensures
            f == self.fault(),
    {
        match self.phase {
            MovingPhase::Waiting => {
                return Some(MovingFault::NeverFired);
            },
            _ => {},
        }
        if self.running > 0 {
            return Some(MovingFault::FiredWhileRunning(self.running));
        }
        match self.resumed {
            None => Some(MovingFault::NeverResumed),
            Some(ms) => if ms > RESUME_LIMIT_MS {
                Some(MovingFault::ResumedLate(ms))
            } else {
                None
            },
        }
    }
}

// ------------------------------------------------------------------------------------------
//  Swings and what rides on them
// ------------------------------------------------------------------------------------------

/// The spell that builds rage for a queued strike.
pub const BLOODRAGE: u32 = 2687;

/// A spell that goes out this soon after its cast was not queued.
pub const QUEUE_MS: u64 = 500;

/// What is seen of a spell that rides on swings.
#[derive(Clone, Copy, Debug, PartialEq, Eq, Structural)]
pub enum SwingEvent {
    /// A white swing.
    White,
    /// A cast is refused.
    CastRefused,
    /// The spell goes out.
    Go,
    /// The spell does damage.
    Damage,
    /// Anything else.
    Other,
}

/// What the fighter does next.
#[derive(Clone, Copy, Debug, PartialEq, Eq, Structural)]
pub enum SwingStep {
    Watch,
    /// It casts the spell at its target.
    Cast,
    Enough,
}

/// What was seen of a spell that rides on swings.
#[derive(Clone, Copy, Debug, PartialEq, Eq, Structural)]
pub struct SwingFlow {
    /// The spell is a seal; else it is queued for the next swing.
    pub seal: bool,
    pub swings: u32,
    pub cast_at: Option<u64>,
    pub premature_go: bool,
    pub go_at_swing: bool,
    pub proc_logs: u32,
    pub stray_seal_go: u32,
}

impl SwingFlow {
    /// Before anything is seen.
    pub open spec fn fresh(seal: bool) -> SwingFlow {
        SwingFlow {
            seal,
            swings: 0,
            cast_at: None,
            premature_go: false,
            go_at_swing: false,
            proc_logs: 0,
            stray_seal_go: 0,
        }
    }

    /// Once something more is seen.
    pub open spec fn after(self, e: SwingEvent, at: u64) -> (SwingFlow, SwingStep) {
        match e {
            SwingEvent::White => {
                let seen = SwingFlow { swings: more(self.swings), ..self };
                if !self.seal && self.cast_at is None && !self.go_at_swing {
                    (SwingFlow { cast_at: Some(at), ..seen }, SwingStep::Cast)
                } else {
                    (seen, SwingStep::Watch)
                }
            },
            SwingEvent::CastRefused => if self.seal {
                (self, SwingStep::Watch)
            } else {
                (SwingFlow { cast_at: None, ..self }, SwingStep::Watch)
            },
            SwingEvent::Go => if self.seal {
                if self.swings == 0 {
                    (self, SwingStep::Watch)
                } else {
                    (
                        SwingFlow { stray_seal_go: more(self.stray_seal_go), ..self },
                        SwingStep::Watch,
                    )
                }
            } else {
                match self.cast_at {
                    Some(t) => if since(at, t) < QUEUE_MS {
                        (SwingFlow { premature_go: true, ..self }, SwingStep::Watch)
                    } else {
                        (SwingFlow { go_at_swing: true, ..self }, SwingStep::Watch)
                    },
                    None => (SwingFlow { premature_go: true, ..self }, SwingStep::Watch),
                }
            },
            SwingEvent::Damage => {
                let seen = SwingFlow { proc_logs: more(self.proc_logs), ..self };
                if (!self.seal && self.go_at_swing) || (self.seal && seen.proc_logs >= 2) {
                    (seen, SwingStep::Enough)
                } else {
                    (seen, SwingStep::Watch)
                }
            },
            SwingEvent::Other => (self, SwingStep::Watch),
        }
    }

    /// The run shows what it is to show.
    pub open spec fn passes(self) -> bool {
        if self.seal {
            self.proc_logs > 0 && self.stray_seal_go == 0
        } else {
            !self.premature_go && self.go_at_swing && self.proc_logs > 0
        }
    }

    /// A run that begins.
    pub fn new(seal: bool) -> (f: SwingFlow)
        ensures
            f == SwingFlow::fresh(seal),
    {
        SwingFlow {
            seal,
            swings: 0,
            cast_at: None,
            premature_go: false,
            go_at_swing: false,
            proc_logs: 0,
            stray_seal_go: 0,
        }
    }

    /// Notes what is seen.
    pub fn observe(&mut self, e: SwingEvent, at: u64) -> (step: SwingStep)
        ensures
            (*final(self), step) == old(self).after(e, at),
    {
        match e {
            SwingEvent::White => {
                self.swings = bump(self.swings);
                if !self.seal && self.cast_at.is_none() && !self.go_at_swing {
                    self.cast_at = Some(at);
                    return SwingStep::Cast;
                }
            },
            SwingEvent::CastRefused => {
                if !self.seal {
                    self.cast_at = None;
                }
            },
            SwingEvent::Go => {
                if self.seal {
                    if self.swings > 0 {
                        self.stray_seal_go = bump(self.stray_seal_go);
                    }
                } else {
                    match self.cast_at {
                        Some(t) => {
                            if elapsed(at, t) < QUEUE_MS {
                                self.premature_go = true;
                            } else {
                                self.go_at_swing = true;
                            }
                        },
                        None => {
                            self.premature_go = true;
                        },
                    }
                }
            },
            SwingEvent::Damage => {
                self.proc_logs = bump(self.proc_logs);
                if (!self.seal && self.go_at_swing) || (self.seal && self.proc_logs >= 2) {
                    return SwingStep::Enough;
                }
            },
            SwingEvent::Other => {},
        }
        SwingStep::Watch
    }

    /// Concludes the run.
    pub fn verdict(&self) -> (pass: bool)
        ensures
            pass == self.passes(),
    {
        if self.seal {
            self.proc_logs > 0 && self.stray_seal_go == 0
        } else {
            !self.premature_go && self.go_at_swing && self.proc_logs > 0
        }
    }
}

/// What was seen after some events.
pub open spec fn flow_after(seal: bool, seen: Seq<(SwingEvent, u64)>) -> SwingFlow
    decreases seen.len(),
{
    if seen.len() == 0 {
        SwingFlow::fresh(seal)
    } else {
        flow_after(seal, seen.drop_last()).after(seen.last().0, seen.last().1).0
    }
}

proof fn lemma_flow(seal: bool, seen: Seq<(SwingEvent, u64)>)
    ensures
        flow_after(seal, seen).seal == seal,
        !seal && flow_after(seal, seen).cast_at is Some ==> exists|i: int|
            0 <= i < seen.len() && (#[trigger] seen[i]).0 is White && Some(seen[i].1) == flow_after(
                seal,
                seen,
            ).cast_at,
        !seal && flow_after(seal, seen).go_at_swing ==> exists|i: int, j: int|
            0 <= i < j < seen.len() && (#[trigger] seen[i]).0 is White && (#[trigger] seen[j]).0
                is Go && since(seen[j].1, seen[i].1) >= QUEUE_MS,
        flow_after(seal, seen).proc_logs > 0 ==> exists|i: int|
            0 <= i < seen.len() && (#[trigger] seen[i]).0 is Damage,
    decreases seen.len(),
{
    if seen.len() > 0 {
        let before = seen.drop_last();
        lemma_flow(seal, before);
        let n = seen.len() - 1;
        let was = flow_after(seal, before);
        assert(forall|i: int| 0 <= i < n ==> before[i] == #[trigger] seen[i]);
        assert(seen[n] == seen.last());
        if !seal && was.cast_at is Some {
            let i = choose|i: int|
                0 <= i < before.len() && (#[trigger] before[i]).0 is White && Some(before[i].1)
                    == was.cast_at;
            assert(seen[i] == before[i]);
            if seen.last().0 is Go {
                assert(seen[i].0 is White && seen[n].0 is Go);
            }
        }
        if !seal && was.go_at_swing {
            let (i, j) = choose|i: int, j: int|
                0 <= i < j < before.len() && (#[trigger] before[i]).0 is White && (
                #[trigger] before[j]).0 is Go && since(before[j].1, before[i].1) >= QUEUE_MS;
            assert(seen[i] == before[i] && seen[j] == before[j]);
        }
        if was.proc_logs > 0 {
            let i = choose|i: int| 0 <= i < before.len() && (#[trigger] before[i]).0 is Damage;
            assert(seen[i] == before[i]);
        }
    }
}

/// A passing queued strike went out no sooner than half a second after the swing at which it was
/// cast, and did damage under its own name.
pub proof fn a_passing_strike_waited_for_its_swing(seen: Seq<(SwingEvent, u64)>)
    requires
        flow_after(false, seen).passes(),
    ensures
        exists|i: int, j: int|
            0 <= i < j < seen.len() && (#[trigger] seen[i]).0 is White && (#[trigger] seen[j]).0
                is Go && since(seen[j].1, seen[i].1) >= QUEUE_MS,
        exists|i: int| 0 <= i < seen.len() && (#[trigger] seen[i]).0 is Damage,
{
    lemma_flow(false, seen);
}

// ------------------------------------------------------------------------------------------
//  A spell on the ground
// ------------------------------------------------------------------------------------------

/// The upper sixteen bits of the guid of an effect on the ground.
pub const HIGHGUID_DYNAMIC: u64 = 0xF100;

/// What is seen of a spell on the ground.
#[derive(Clone, Copy, Debug, PartialEq, Eq, Structural)]
pub enum GroundEvent {
    /// The spell goes out and hits so many.
    Go { hits: u32 },
    /// Its effect appears.
    Effect,
    /// It does damage.
    Tick,
    /// An object is gone.
    Gone { guid: u64 },
    Other,
}

/// What was seen of a spell on the ground.
#[derive(Clone, Copy, Debug, PartialEq, Eq, Structural)]
pub struct Ground {
    /// The spell was cast at a place; else it was cast around the caster.
    pub dest: bool,
    pub go_hits: Option<u32>,
    pub effects: u32,
    pub ticks: u32,
    pub reaps: u32,
}

/// Why a spell on the ground fails.
#[derive(Clone, Copy, Debug, PartialEq, Eq, Structural)]
pub enum GroundFault {
    NoGo,
    HitNobody,
    HitList(u32),
    NoEffect,
    FewTicks(u32),
    NeverReaped,
}

/// Why a spell on the ground fails, if it does.
pub open spec fn ground_fault(g: Ground) -> Option<GroundFault> {
    match g.go_hits {
        None => Some(GroundFault::NoGo),
        Some(hits) => if g.dest && hits == 0 {
            Some(GroundFault::HitNobody)
        } else if !g.dest && hits != 0 {
            Some(GroundFault::HitList(hits))
        } else if g.effects == 0 {
            Some(GroundFault::NoEffect)
        } else if g.ticks < if g.dest {
            1u32
        } else {
            2u32
        } {
            Some(GroundFault::FewTicks(g.ticks))
        } else if g.reaps == 0 {
            Some(GroundFault::NeverReaped)
        } else {
            None
        },
    }
}

impl Ground {
    /// Before anything is seen.
    pub open spec fn fresh(dest: bool) -> Ground {
        Ground { dest, go_hits: None, effects: 0, ticks: 0, reaps: 0 }
    }

    /// Enough was seen.
    pub open spec fn enough(self) -> bool {
        self.reaps > 0 && self.ticks >= 2
    }

    /// A cast that begins.
    pub fn new(dest: bool) -> (g: Ground)
        ensures
            g == Ground::fresh(dest),
    {
        Ground { dest, go_hits: None, effects: 0, ticks: 0, reaps: 0 }
    }

    /// How long the cast is watched.
    pub fn window_ms(&self) -> (ms: u64)
        ensures
            ms == if self.dest {
                18000u64
            } else {
                12000
            },
    {
        if self.dest {
            18000
        } else {
            12000
        }
    }

    /// Once something more is seen.
    pub open spec fn after(self, e: GroundEvent) -> Ground {
        match e {
            GroundEvent::Go { hits } => Ground { go_hits: Some(hits), ..self },
            GroundEvent::Effect => Ground { effects: more(self.effects), ..self },
            GroundEvent::Tick => Ground { ticks: more(self.ticks), ..self },
            GroundEvent::Gone { guid } => if guid / 0x1_0000_0000_0000 == HIGHGUID_DYNAMIC {
                Ground { reaps: more(self.reaps), ..self }
            } else {
                self
            },
            GroundEvent::Other => self,
        }
    }

    /// Notes what is seen, and says whether that is enough.
    pub fn observe(&mut self, e: GroundEvent) -> (enough: bool)
        ensures
            *final(self) == old(self).after(e),
            enough == final(self).enough(),
    {
        match e {
            GroundEvent::Go { hits } => {
                self.go_hits = Some(hits);
            },
            GroundEvent::Effect => {
                self.effects = bump(self.effects);
            },
            GroundEvent::Tick => {
                self.ticks = bump(self.ticks);
            },
            GroundEvent::Gone { guid } => {
                if guid / 0x1_0000_0000_0000 == HIGHGUID_DYNAMIC {
                    self.reaps = bump(self.reaps);
                }
            },
            GroundEvent::Other => {},
        }
        self.reaps > 0 && self.ticks >= 2
    }

    /// Concludes the cast.
    pub fn verdict(&self) -> (f: Option<GroundFault>)
        ensures
            f == ground_fault(*self),
    {
        match self.go_hits {
            None => Some(GroundFault::NoGo),
            Some(hits) => if self.dest && hits == 0 {
                Some(GroundFault::HitNobody)
            } else if !self.dest && hits != 0 {
                Some(GroundFault::HitList(hits))
            } else if self.effects == 0 {
                Some(GroundFault::NoEffect)
            } else if self.ticks < (if self.dest {
                1
            } else {
                2
            }) {
                Some(GroundFault::FewTicks(self.ticks))
            } else if self.reaps == 0 {
                Some(GroundFault::NeverReaped)
            } else {
                None
            },
        }
    }
}

// ------------------------------------------------------------------------------------------
//  Attacking with the back turned
// ------------------------------------------------------------------------------------------

/// Why an attack with the back turned fails.
#[derive(Clone, Copy, Debug, PartialEq, Eq, Structural)]
pub enum BackFault {
    Retaliated,
    NoSwing,
    NeverRetaliated,
}

/// An attack, first with the back turned and then facing the target.
#[derive(Clone, Copy, Debug, PartialEq, Eq, Structural)]
pub struct Backswing {
    pub own: u64,
    pub mob: u64,
    pub faced: bool,
    pub while_turned: u32,
    pub own_swings: u32,
    pub retaliations: u32,
}

/// Why an attack with the back turned fails, if it does.
pub open spec fn back_fault(b: Backswing) -> Option<BackFault> {
    if b.while_turned > 0 {
        Some(BackFault::Retaliated)
    } else if b.own_swings == 0 {
        Some(BackFault::NoSwing)
    } else if b.retaliations == 0 {
        Some(BackFault::NeverRetaliated)
    } else {
        None
    }
}

impl Backswing {
    /// Before anything is seen.
    pub open spec fn fresh(own: u64, mob: u64) -> Backswing {
        Backswing { own, mob, faced: false, while_turned: 0, own_swings: 0, retaliations: 0 }
    }

    /// Once the attacker turned to its target.
    pub open spec fn turned(self) -> Backswing {
        Backswing { faced: true, ..self }
    }

    /// Enough was seen.
    pub open spec fn enough(self) -> bool {
        self.faced && self.own_swings > 0 && self.retaliations > 0
    }

    /// An attack with the back turned.
    pub fn new(own: u64, mob: u64) -> (b: Backswing)
        ensures
            b == Backswing::fresh(own, mob),
    {
        Backswing { own, mob, faced: false, while_turned: 0, own_swings: 0, retaliations: 0 }
    }

    /// The attacker turns to its target.
    pub fn face(&mut self)
        ensures
            *final(self) == old(self).turned(),
    {
        self.faced = true;
    }

    /// Once an attack is seen: a swing that was made, or one that begins.
    pub open spec fn after(self, attacker: u64, swing: bool) -> Backswing {
        if !self.faced {
            if attacker == self.mob {
                Backswing { while_turned: more(self.while_turned), ..self }
            } else {
                self
            }
        } else {
            Backswing {
                own_swings: if swing && attacker == self.own {
                    more(self.own_swings)
                } else {
                    self.own_swings
                },
                retaliations: if attacker == self.mob {
                    more(self.retaliations)
                } else {
                    self.retaliations
                },
                ..self
            }
        }
    }

    /// Notes an attack, and says whether that is enough.
    pub fn observe(&mut self, attacker: u64, swing: bool) -> (enough: bool)
        ensures
            *final(self) == old(self).after(attacker, swing),
            enough == final(self).enough(),
    {
        if !self.faced {
            if attacker == self.mob {
                self.while_turned = bump(self.while_turned);
            }
        } else {
            if swing && attacker == self.own {
                self.own_swings = bump(self.own_swings);
            }
            if attacker == self.mob {
                self.retaliations = bump(self.retaliations);
            }
        }
        self.faced && self.own_swings > 0 && self.retaliations > 0
    }

    /// Concludes the attack.
    pub fn verdict(&self) -> (f: Option<BackFault>)
        ensures
            f == back_fault(*self),
    {
        if self.while_turned > 0 {
            Some(BackFault::Retaliated)
        } else if self.own_swings == 0 {
            Some(BackFault::NoSwing)
        } else if self.retaliations == 0 {
            Some(BackFault::NeverRetaliated)
        } else {
            None
        }
    }
}

// ------------------------------------------------------------------------------------------
//  Walking into reach
// ------------------------------------------------------------------------------------------

/// How long a fighter waits for its own swing.
pub const WALK_WINDOW_MS: u64 = 20000;

/// How often it asks for the swing again.
pub const RESWING_MS: u64 = 2000;

/// A fighter that walked into reach.
#[derive(Clone, Copy, Debug, PartialEq, Eq, Structural)]
pub struct WalkMelee {
    pub own: u64,
    pub swung: bool,
    pub last_send: u64,
}

impl WalkMelee {
    /// The first swing was asked for.
    pub open spec fn fresh(own: u64, now: u64) -> WalkMelee {
        WalkMelee { own, swung: false, last_send: now }
    }

    /// After it was looked at whether the swing is to be asked for again, and whether it is.
    pub open spec fn asked(self, now: u64) -> (WalkMelee, bool) {
        if since(now, self.last_send) >= RESWING_MS {
            (WalkMelee { last_send: now, ..self }, true)
        } else {
            (self, false)
        }
    }

    /// Once a swing is seen.
    pub open spec fn after(self, attacker: u64) -> WalkMelee {
        WalkMelee { swung: self.swung || attacker == self.own, ..self }
    }

    /// The first swing was asked for.
    pub fn new(own: u64, now: u64) -> (w: WalkMelee)
        ensures
            w == WalkMelee::fresh(own, now),
    {
        WalkMelee { own, swung: false, last_send: now }
    }

    /// Whether the fighter asks for its swing again.
    pub fn ask_again(&mut self, now: u64) -> (yes: bool)
        ensures
            (*final(self), yes) == old(self).asked(now),
    {
        if elapsed(now, self.last_send) >= RESWING_MS {
            self.last_send = now;
            true
        } else {
            false
        }
    }

    /// Notes a swing: the fighter's own is what it waits for.
    pub fn observe(&mut self, attacker: u64)
        ensures
            *final(self) == old(self).after(attacker),
    {
        if attacker == self.own {
            self.swung = true;
        }
    }
}

// ------------------------------------------------------------------------------------------
//  A pet
// ------------------------------------------------------------------------------------------

/// What is seen of a pet.
#[derive(Clone, Copy, Debug, PartialEq, Eq, Structural)]
pub enum PetEvent {
    /// A unit appears, summoned by someone or by no one.
    Created { guid: u64, summoner: Option<u64> },
    /// The bar of a pet.
    Spells { pet: u64 },
    Other,
}

/// Why a summons fails.
#[derive(Clone, Copy, Debug, PartialEq, Eq, Structural)]
pub enum PetFault {
    NoPet,
    NoBar(Option<u64>),
}

/// A summons.
#[derive(Clone, Copy, Debug, PartialEq, Eq, Structural)]
pub struct PetSummon {
    pub own: u64,
    pub pet: u64,
    pub bar: Option<u64>,
}

impl PetSummon {
    /// Before anything is seen.
    pub open spec fn fresh(own: u64) -> PetSummon {
        PetSummon { own, pet: 0, bar: None }
    }

    /// Enough was seen.
    pub open spec fn enough(self) -> bool {
        self.pet != 0 && self.bar is Some
    }

    /// Why the summons fails, if it does.
    pub open spec fn fault(self) -> Option<PetFault> {
        if self.pet == 0 {
            Some(PetFault::NoPet)
        } else if self.bar != Some(self.pet) {
            Some(PetFault::NoBar(self.bar))
        } else {
            None
        }
    }

    /// A summons that begins.
    pub fn new(own: u64) -> (p: PetSummon)
        ensures
            p == PetSummon::fresh(own),
    {
        PetSummon { own, pet: 0, bar: None }
    }

    /// Once something more is seen.
    pub open spec fn after(self, e: PetEvent) -> PetSummon {
        match e {
            PetEvent::Created { guid, summoner } => if summoner == Some(self.own) {
                PetSummon { pet: guid, ..self }
            } else {
                self
            },
            PetEvent::Spells { pet } => PetSummon { bar: Some(pet), ..self },
            PetEvent::Other => self,
        }
    }

    /// Notes what is seen, and says whether that is enough.
    pub fn observe(&mut self, e: PetEvent) -> (enough: bool)
        ensures
            *final(self) == old(self).after(e),
            enough == final(self).enough(),
    {
        match e {
            PetEvent::Created { guid, summoner } => {
                if let Some(s) = summoner {
                    if s == self.own {
                        self.pet = guid;
                    }
                }
            },
            PetEvent::Spells { pet } => {
                self.bar = Some(pet);
            },
            PetEvent::Other => {},
        }
        self.pet != 0 && self.bar.is_some()
    }

    /// Concludes the summons.
    pub fn verdict(&self) -> (f: Option<PetFault>)
        ensures
            f == self.fault(),
    {
        if self.pet == 0 {
            return Some(PetFault::NoPet);
        }
        match self.bar {
            Some(g) => if g == self.pet {
                None
            } else {
                Some(PetFault::NoBar(self.bar))
            },
            None => Some(PetFault::NoBar(self.bar)),
        }
    }
}

// ------------------------------------------------------------------------------------------
//  A timed cast
// ------------------------------------------------------------------------------------------

/// The cast time that the begin of a cast is to show.
pub const CAST_TIME_MS: u32 = 1700;

/// The shortest time that a projectile is in the air.
pub const MIN_PROJECTILE_DELAY_MS: u64 = 150;

/// What is seen of a cast.
#[derive(Clone, Copy, Debug, PartialEq, Eq, Structural)]
pub enum CastEvent {
    /// It begins, with a timer.
    Start { timer: u32 },
    /// It goes out: at whom, and whether it hit the target and nobody else.
    Go { spell: u32, unit: Option<u64>, only_target: bool },
    /// It does damage.
    Damage { amount: u32 },
    /// It fails.
    Failure { spell: u32 },
    /// Its cooldown begins.
    Cooldown,
    /// It is refused.
    Refused,
    Other,
}

/// What the caster does next.
#[derive(Clone, Copy, Debug, PartialEq, Eq, Structural)]
pub enum CastStep {
    Watch,
    Enough,
    Refused,
}

/// How a cast went out.
#[derive(Clone, Copy, Debug, PartialEq, Eq, Structural)]
pub struct GoSeen {
    pub spell: u32,
    pub unit: Option<u64>,
    pub only_target: bool,
    pub at: u64,
}

/// What was seen of a cast.
#[derive(Clone, Copy, Debug, PartialEq, Eq, Structural)]
pub struct CastTrace {
    pub spell: u32,
    pub target: u64,
    pub expect_interrupt: bool,
    pub begin_timer: Option<u32>,
    pub completion_start: bool,
    pub go: Option<GoSeen>,
    pub damage: Option<u32>,
    pub damage_delay: Option<u64>,
    pub cooldown: bool,
    pub failure: Option<u32>,
}

/// What a cast did not show.
#[derive(Clone, Copy, Debug, PartialEq, Eq, Structural)]
pub enum CastFault {
    BeginTimer,
    SecondStart,
    GoSpell,
    GoUnit,
    GoHits,
    NoCooldown,
    FastImpact(u64),
    NoImpact,
    NotInterrupted,
    Completed,
}

/// A list with one more fault on it, if it is one.
pub open spec fn noted(v: Seq<CastFault>, fails: bool, f: CastFault) -> Seq<CastFault> {
    if fails {
        v.push(f)
    } else {
        v
    }
}

fn note(v: &mut Vec<CastFault>, fails: bool, f: CastFault)
    ensures
        final(v)@ == noted(old(v)@, fails, f),
{
    if fails {
        v.push(f);
    }
}

impl CastTrace {
    /// Before anything is seen.
    pub open spec fn fresh(spell: u32, target: u64, expect_interrupt: bool) -> CastTrace {
        CastTrace {
            spell,
            target,
            expect_interrupt,
            begin_timer: None,
            completion_start: false,
            go: None,
            damage: None,
            damage_delay: None,
            cooldown: false,
            failure: None,
        }
    }

    /// Once something more is seen.
    pub open spec fn after(self, e: CastEvent, at: u64) -> (CastTrace, CastStep) {
        match e {
            CastEvent::Start { timer } => if timer == 0 {
                (CastTrace { completion_start: true, ..self }, CastStep::Watch)
            } else {
                (CastTrace { begin_timer: Some(timer), ..self }, CastStep::Watch)
            },
            CastEvent::Go { spell, unit, only_target } => (
                CastTrace { go: Some(GoSeen { spell, unit, only_target, at }), ..self },
                CastStep::Watch,
            ),
            CastEvent::Damage { amount } => (
                CastTrace {
                    damage: Some(amount),
                    damage_delay: match self.go {
                        Some(g) => Some(since(at, g.at)),
                        None => self.damage_delay,
                    },
                    ..self
                },
                CastStep::Watch,
            ),
            CastEvent::Failure { spell } => (
                CastTrace { failure: Some(spell), ..self },
                if self.expect_interrupt {
                    CastStep::Enough
                } else {
                    CastStep::Watch
                },
            ),
            CastEvent::Cooldown => (
                CastTrace { cooldown: true, ..self },
                if self.damage is Some || self.damage_delay is Some {
                    CastStep::Enough
                } else {
                    CastStep::Watch
                },
            ),
            CastEvent::Refused => (self, CastStep::Refused),
            CastEvent::Other => (self, CastStep::Watch),
        }
    }

    /// The spell that went out.
    pub open spec fn go_spell(self) -> Option<u32> {
        match self.go {
            Some(g) => Some(g.spell),
            None => None,
        }
    }

    /// What the cast did not show, in the order in which it is said.
    pub open spec fn faults(self) -> Seq<CastFault> {
        let begin = noted(
            Seq::empty(),
            self.begin_timer != Some(CAST_TIME_MS),
            CastFault::BeginTimer,
        );
        if self.expect_interrupt {
            let failed = noted(begin, self.failure != Some(self.spell), CastFault::NotInterrupted);
            noted(failed, self.go_spell() == Some(self.spell), CastFault::Completed)
        } else {
            let second = noted(begin, self.completion_start, CastFault::SecondStart);
            let spell = noted(second, self.go_spell() != Some(self.spell), CastFault::GoSpell);
            let unit = noted(spell, !self.at_target(), CastFault::GoUnit);
            let hits = noted(unit, !self.only_target(), CastFault::GoHits);
            let cooldown = noted(hits, !self.cooldown, CastFault::NoCooldown);
            match self.damage_delay {
                Some(d) => noted(
                    cooldown,
                    d < MIN_PROJECTILE_DELAY_MS,
                    CastFault::FastImpact(d),
                ),
                None => cooldown.push(CastFault::NoImpact),
            }
        }
    }

    /// The cast went out at its target.
    pub open spec fn at_target(self) -> bool {
        match self.go {
            Some(g) => g.unit == Some(self.target),
            None => false,
        }
    }

    /// The cast hit its target and nobody else.
    pub open spec fn only_target(self) -> bool {
        match self.go {
            Some(g) => g.only_target,
            None => false,
        }
    }

    /// A cast that begins.
    pub fn new(spell: u32, target: u64, expect_interrupt: bool) -> (c: CastTrace)
        ensures
            c == CastTrace::fresh(spell, target, expect_interrupt),
    {
        CastTrace {
            spell,
            target,
            expect_interrupt,
            begin_timer: None,
            completion_start: false,
            go: None,
            damage: None,
            damage_delay: None,
            cooldown: false,
            failure: None,
        }
    }

    /// Notes what is seen.
    pub fn observe(&mut self, e: CastEvent, at: u64) -> (step: CastStep)
        ensures
            (*final(self), step) == old(self).after(e, at),
    {
        match e {
            CastEvent::Start { timer } => {
                if timer == 0 {
                    self.completion_start = true;
                } else {
                    self.begin_timer = Some(timer);
                }
                CastStep::Watch
            },
            CastEvent::Go { spell, unit, only_target } => {
                self.go = Some(GoSeen { spell, unit, only_target, at });
                CastStep::Watch
            },
            CastEvent::Damage { amount } => {
                self.damage = Some(amount);
                if let Some(g) = self.go {
                    self.damage_delay = Some(elapsed(at, g.at));
                }
                CastStep::Watch
            },
            CastEvent::Failure { spell } => {
                self.failure = Some(spell);
                if self.expect_interrupt {
                    CastStep::Enough
                } else {
                    CastStep::Watch
                }
            },
            CastEvent::Cooldown => {
                self.cooldown = true;
                if self.damage.is_some() || self.damage_delay.is_some() {
                    CastStep::Enough
                } else {
                    CastStep::Watch
                }
            },
            CastEvent::Refused => CastStep::Refused,
            CastEvent::Other => CastStep::Watch,
        }
    }

    /// Concludes the cast: what it did not show.
    pub fn verdict(&self) -> (v: Vec<CastFault>)
        ensures
            v@ == self.faults(),
    {
        let mut v: Vec<CastFault> = Vec::new();
        let begun: bool = match self.begin_timer {
            Some(t) => t == CAST_TIME_MS,
            None => false,
        };
        let went: bool = match self.go {
            Some(g) => g.spell == self.spell,
            None => false,
        };
        note(&mut v, !begun, CastFault::BeginTimer);
        if self.expect_interrupt {
            let failed: bool = match self.failure {
                Some(s) => s == self.spell,
                None => false,
            };
            note(&mut v, !failed, CastFault::NotInterrupted);
            note(&mut v, went, CastFault::Completed);
            return v;
        }
        let at_target: bool = match self.go {
            Some(g) => match g.unit {
                Some(u) => u == self.target,
                None => false,
            },
            None => false,
        };
        let only: bool = match self.go {
            Some(g) => g.only_target,
            None => false,
        };
        note(&mut v, self.completion_start, CastFault::SecondStart);
        note(&mut v, !went, CastFault::GoSpell);
        note(&mut v, !at_target, CastFault::GoUnit);
        note(&mut v, !only, CastFault::GoHits);
        note(&mut v, !self.cooldown, CastFault::NoCooldown);
        match self.damage_delay {
            Some(d) => {
                note(&mut v, d < MIN_PROJECTILE_DELAY_MS, CastFault::FastImpact(d));
            },
            None => {
                v.push(CastFault::NoImpact);
            },
        }
        v
    }
}

/// A cast passes only where all of this was seen: its begin with the right time and no second, its
/// going out at the target and at nobody else, its cooldown, and an impact no sooner than a
/// projectile needs.
pub proof fn a_passing_cast_showed_everything(c: CastTrace)
    requires
        !c.expect_interrupt,
        c.faults().len() == 0,
    ensures
        c.begin_timer == Some(CAST_TIME_MS),
        !c.completion_start,
        c.go_spell() == Some(c.spell),
        c.at_target(),
        c.only_target(),
        c.cooldown,
        c.damage_delay matches Some(d) && d >= MIN_PROJECTILE_DELAY_MS,
{
}

/// A cast that was to be interrupted passes only where it began, failed, and never went out.
pub proof fn a_passing_interrupt_never_went_out(c: CastTrace)
    requires
        c.expect_interrupt,
        c.faults().len() == 0,
    ensures
        c.begin_timer == Some(CAST_TIME_MS),
        c.failure == Some(c.spell),
        c.go_spell() != Some(c.spell),
{
}

// ------------------------------------------------------------------------------------------
//  What was seen counts
// ------------------------------------------------------------------------------------------

/// How many events are of a kind.
pub open spec fn times(seen: Seq<(ShotEvent, u64)>, kind: spec_fn(ShotEvent) -> bool) -> nat
    decreases seen.len(),
{
    if seen.len() == 0 {
        0
    } else {
        times(seen.drop_last(), kind) + if kind(seen.last().0) {
            1nat
        } else {
            0nat
        }
    }
}

/// How many targets the shots missed.
pub open spec fn missed(seen: Seq<(ShotEvent, u64)>) -> nat
    decreases seen.len(),
{
    if seen.len() == 0 {
        0
    } else {
        missed(seen.drop_last()) + match seen.last().0 {
            ShotEvent::Go { misses } => misses as nat,
            _ => 0nat,
        }
    }
}

proof fn lemma_times(seen: Seq<(ShotEvent, u64)>, kind: spec_fn(ShotEvent) -> bool)
    ensures
        times(seen, kind) <= seen.len(),
    decreases seen.len(),
{
    if seen.len() > 0 {
        lemma_times(seen.drop_last(), kind);
    }
}

/// Every event of a run is counted under its own kind, and under no other: shots that leave, shots that
/// land, refusals, cancels, missed targets, and swings of a run that does not change to melee.
pub proof fn every_shot_counts(mode: ShotMode, seen: Seq<(ShotEvent, u64)>)
    requires
        seen.len() < u32::MAX,
        missed(seen) < u32::MAX,
    ensures
        ({
            let s = shots_after(mode, seen);
            &&& s.gos == times(seen, |e: ShotEvent| e is Go)
            &&& s.damage_logs == times(seen, |e: ShotEvent| e is Damage)
            &&& s.cast_results == times(seen, |e: ShotEvent| e is CastResult)
            &&& s.cancels == times(seen, |e: ShotEvent| e is Cancel)
            &&& s.misses == missed(seen)
            &&& s.ranged_swings + s.swings_after_pair == times(seen, |e: ShotEvent| e is OwnSwing)
            &&& mode != ShotMode::Melee ==> s.swings_after_pair == 0
            &&& s.mode == mode
            &&& s.first_gap is None <==> s.damage_logs == 0
            &&& s.last_go is None <==> s.gos == 0
        }),
    decreases seen.len(),
{
    if seen.len() > 0 {
        every_shot_counts(mode, seen.drop_last());
        lemma_times(seen.drop_last(), |e: ShotEvent| e is Go);
        lemma_times(seen.drop_last(), |e: ShotEvent| e is Damage);
        lemma_times(seen.drop_last(), |e: ShotEvent| e is CastResult);
        lemma_times(seen.drop_last(), |e: ShotEvent| e is Cancel);
        lemma_times(seen.drop_last(), |e: ShotEvent| e is OwnSwing);
        lemma_shots(mode, seen.drop_last());
        lemma_shots(mode, seen);
    }
}

/// The first shot that lands is timed from the last one that left, and its time is kept.
pub proof fn the_first_landing_is_timed(
    mode: ShotMode,
    before: Seq<(ShotEvent, u64)>,
    misses: u32,
    left: u64,
    landed: u64,
    again: u64,
)
    requires
        before.len() + 3 < u32::MAX,
        missed(before) + misses < u32::MAX,
        times(before, |e: ShotEvent| e is Damage) == 0,
        left <= landed,
    ensures
        ({
            let one = before.push((ShotEvent::Go { misses }, left)).push((ShotEvent::Damage, landed));
            &&& shots_after(mode, one).first_gap == Some((landed - left) as u64)
            &&& shots_after(mode, one.push((ShotEvent::Damage, again))).first_gap == Some(
                (landed - left) as u64,
            )
        }),
{
    every_shot_counts(mode, before);
    let shot = before.push((ShotEvent::Go { misses }, left));
    let one = shot.push((ShotEvent::Damage, landed));
    let two = one.push((ShotEvent::Damage, again));
    assert(shot.drop_last() =~= before);
    assert(one.drop_last() =~= shot);
    assert(two.drop_last() =~= one);
    let s = shots_after(mode, before);
    assert(s.first_gap is None);
    assert(shots_after(mode, shot) == s.after(ShotEvent::Go { misses }, left).0);
    assert(shots_after(mode, shot).last_go == Some(left));
    assert(shots_after(mode, one) == shots_after(mode, shot).after(ShotEvent::Damage, landed).0);
    assert(shots_after(mode, two) == shots_after(mode, one).after(ShotEvent::Damage, again).0);
}

/// A run of repeated shots passes exactly where it started with its ammunition and no timer, shot
/// twice, landed a shot or missed two, flew four to nine tenths of a second to its first target, and
/// never swung. A change to melee passes exactly where it swung after its shot; a refusal where it was
/// refused and nothing started or left.
pub proof fn a_run_is_judged_by_what_was_seen(s: Shots)
    ensures
        s.mode == ShotMode::Loop ==> (s.fault() is None <==> s.start == Some((0u32, true)) && s.gos
            >= 2 && (s.damage_logs > 0 || s.misses >= 2) && (s.first_gap matches Some(g) ==> g >= 400
            && g <= 900) && s.ranged_swings == 0),
        s.mode == ShotMode::Melee ==> (s.fault() is None <==> s.swings_after_pair > 0),
        s.mode == ShotMode::Reject ==> (s.fault() is None <==> s.cast_results > 0 && s.start is None
            && s.gos == 0),
        s.mode == ShotMode::Other || s.mode == ShotMode::Moving ==> s.fault() is Some,
{
}

/// A change to melee swings and cancels with its first shot, and only then; it has seen enough with the
/// second swing after that. Repeated shots have seen enough once they are cancelled after two.
pub proof fn a_run_ends_when_it_has_seen_enough(s: Shots, e: ShotEvent, at: u64)
    ensures
        s.after(e, at).1 == ShotStep::SendPair <==> s.mode == ShotMode::Melee && e is Go && s.pair_at
            is None,
        s.after(e, at).1 == ShotStep::SendPair ==> s.after(e, at).0.pair_at == Some(at),
        s.pair_at is Some ==> s.after(e, at).0.pair_at == s.pair_at,
        s.after(e, at).1 == ShotStep::Enough <==> (e is OwnSwing && s.pair_at is Some
            && s.swings_after_pair >= 1) || (e is Cancel && s.mode == ShotMode::Loop && s.gos >= 2),
{
}

/// A shooter that runs after its first shot, stands again and shoots passes exactly where nothing left
/// while it ran and the next shot came within three seconds and a fifth.
pub proof fn shots_wait_for_a_runner(a: u64, b: u64, c: u64, d: u64)
    requires
        b <= c,
    ensures
        ({
            let start = MovingShots::fresh();
            let running = start.fired(a);
            let standing = running.stood(b);
            &&& start.fault() is Some && running.fault() is Some && standing.fault() is Some
            &&& start.stood(a) == start
            &&& standing.fired(c).fault() is None <==> c - b <= 3200
            &&& c - b > 3200 ==> standing.fired(c).fault() == Some(
                MovingFault::ResumedLate((c - b) as u64),
            )
            &&& standing.fired(c).fired(d) == standing.fired(c)
            &&& running.fired(d).stood(b).fired(c).fault() == Some(MovingFault::FiredWhileRunning(1))
            &&& standing.stood(d) == standing
        }),
{
}

/// A strike is cast at the first white swing and passes exactly where it then goes out no sooner than
/// half a second later and does damage; a refused cast is cast again at the next swing.
pub proof fn a_strike_rides_on_a_swing(a: u64, b: u64, c: u64, d: u64)
    requires
        a <= b,
    ensures
        ({
            let (cast, step) = SwingFlow::fresh(false).after(SwingEvent::White, a);
            let (out, still) = cast.after(SwingEvent::Go, b);
            let (done, end) = out.after(SwingEvent::Damage, c);
            &&& step == SwingStep::Cast && still == SwingStep::Watch
            &&& done.passes() <==> b - a >= 500
            &&& b - a >= 500 ==> end == SwingStep::Enough
            &&& !SwingFlow::fresh(false).passes() && !cast.passes() && !out.passes()
            &&& cast.after(SwingEvent::White, d).1 == SwingStep::Watch
            &&& cast.after(SwingEvent::CastRefused, d).0.after(SwingEvent::White, d).1
                == SwingStep::Cast
            &&& !SwingFlow::fresh(false).after(SwingEvent::Go, b).0.after(
                SwingEvent::Damage,
                c,
            ).0.passes()
        }),
{
}

/// A seal passes exactly where it did damage and did not go out again once a swing was made; it has
/// seen enough with its second damage, and it never casts.
pub proof fn a_seal_rides_on_every_swing(f: SwingFlow, e: SwingEvent, at: u64)
    requires
        f.seal,
        f.proc_logs < u32::MAX && f.stray_seal_go < u32::MAX && f.swings < u32::MAX,
    ensures
        f.passes() <==> f.proc_logs > 0 && f.stray_seal_go == 0,
        f.after(e, at).1 != SwingStep::Cast,
        f.after(e, at).1 == SwingStep::Enough <==> e is Damage && f.proc_logs >= 1,
        f.after(e, at).0.proc_logs - f.proc_logs == if e is Damage {
            1int
        } else {
            0int
        },
        f.after(e, at).0.swings - f.swings == if e is White {
            1int
        } else {
            0int
        },
        f.after(e, at).0.stray_seal_go - f.stray_seal_go == if e is Go && f.swings > 0 {
            1int
        } else {
            0int
        },
        f.after(e, at).0.seal,
{
}

/// Each event of a spell on the ground counts under its own kind; an object that is gone counts where
/// the upper sixteen bits of its guid say that it is such an effect.
pub proof fn what_happens_on_the_ground_counts(g: Ground, hits: u32, high: u16, low: u64)
    requires
        low < 0x1_0000_0000_0000,
        g.effects < u32::MAX && g.ticks < u32::MAX && g.reaps < u32::MAX,
    ensures
        g.after(GroundEvent::Go { hits }) == (Ground { go_hits: Some(hits), ..g }),
        g.after(GroundEvent::Effect) == (Ground { effects: (g.effects + 1) as u32, ..g }),
        g.after(GroundEvent::Tick) == (Ground { ticks: (g.ticks + 1) as u32, ..g }),
        high == 0xF100 ==> g.after(
            GroundEvent::Gone { guid: (high * 0x1_0000_0000_0000 + low) as u64 },
        ) == (Ground { reaps: (g.reaps + 1) as u32, ..g }),
        high != 0xF100 ==> g.after(
            GroundEvent::Gone { guid: (high * 0x1_0000_0000_0000 + low) as u64 },
        ) == g,
        g.after(GroundEvent::Other) == g,
{
    let guid = (high * 0x1_0000_0000_0000 + low) as u64;
    assert(guid / 0x1_0000_0000_0000 == high);
}

/// A spell on the ground passes exactly where it went out, hit somebody where it was cast at a place and
/// nobody where it was cast around the caster, its effect appeared, it did damage once or twice, and
/// its effect was gone at the end.
pub proof fn a_spell_on_the_ground_is_judged(g: Ground, dest: bool)
    ensures
        ground_fault(g) is None <==> (g.go_hits matches Some(h) && (g.dest <==> h > 0)) && g.effects
            > 0 && (if g.dest {
            g.ticks >= 1
        } else {
            g.ticks >= 2
        }) && g.reaps > 0,
        g.enough() <==> g.reaps >= 1 && g.ticks >= 2,
        ground_fault(Ground::fresh(dest)) == Some(GroundFault::NoGo),
        Ground::fresh(dest).dest == dest && !Ground::fresh(dest).enough(),
{
}

/// An attack with the back turned passes exactly where the target did nothing before the attacker
/// turned, and after that both struck; what others do does not count.
pub proof fn a_turned_back_is_not_struck(own: u64, mob: u64, other: u64, swing: bool)
    requires
        own != mob,
        other != own,
        other != mob,
    ensures
        ({
            let start = Backswing::fresh(own, mob);
            let faced = start.after(own, swing).after(other, swing).turned();
            let done = faced.after(own, true).after(mob, swing);
            &&& back_fault(start) is Some && back_fault(faced) is Some
            &&& back_fault(done) is None && done.enough()
            &&& back_fault(faced.after(mob, swing).after(own, true)) is None
            &&& back_fault(faced.after(own, true)) == Some(BackFault::NeverRetaliated)
            &&& back_fault(faced.after(own, false).after(mob, swing)) == Some(BackFault::NoSwing)
            &&& back_fault(start.after(mob, swing).turned().after(own, true).after(mob, swing)) == Some(
                BackFault::Retaliated,
            )
            &&& !start.enough() && !faced.enough()
            &&& faced.after(other, swing) == faced && start.after(other, swing) == start
        }),
{
}

/// A fighter asks for its swing again when two seconds have passed since it last did, and no sooner; it
/// has swung once a swing of its own is seen.
pub proof fn a_fighter_asks_every_two_seconds(own: u64, now: u64, then: u64, other: u64)
    requires
        now <= then,
        other != own,
    ensures
        ({
            let w = WalkMelee::fresh(own, now);
            &&& w.asked(then).1 <==> then - now >= 2000
            &&& w.asked(then).1 ==> !w.asked(then).0.asked(then).1
            &&& !w.asked(then).1 ==> w.asked(then).0 == w
            &&& !w.swung && w.after(own).swung && !w.after(other).swung
            &&& w.after(own).after(other).swung && w.asked(then).0.swung == w.swung
        }),
{
}

/// A summons passes exactly where a unit of the summoner's own and the bar of the same unit were seen,
/// in whichever order; a unit of another summoner does not count.
pub proof fn a_pet_comes_with_its_bar(own: u64, pet: u64, other: u64, bar: u64, stranger: u64)
    requires
        pet != 0,
        other != own,
    ensures
        ({
            let start = PetSummon::fresh(own);
            let here = PetEvent::Created { guid: pet, summoner: Some(own) };
            let spells = PetEvent::Spells { pet: bar };
            &&& start.fault() == Some(PetFault::NoPet) && !start.enough()
            &&& start.after(here).fault() == Some(PetFault::NoBar(None))
            &&& start.after(here).after(spells).fault() is None <==> bar == pet
            &&& start.after(spells).after(here) == start.after(here).after(spells)
            &&& start.after(here).after(spells).enough() && !start.after(spells).enough()
            &&& start.after(PetEvent::Created { guid: stranger, summoner: Some(other) }) == start
            &&& start.after(PetEvent::Created { guid: stranger, summoner: None }) == start
        }),
{
}

/// A cast that begins with seventeen tenths of a second, goes out at its target and at nobody else, does
/// damage, and cools down passes exactly where the damage came at least fifteen hundredths of a second
/// after it went out; and it has seen enough with the cooldown.
pub proof fn a_cast_is_seen_through(
    spell: u32,
    target: u64,
    timer: u32,
    amount: u32,
    a: u64,
    b: u64,
    c: u64,
    d: u64,
)
    requires
        b <= c,
        timer > 0,
    ensures
        ({
            let (begun, s1) = CastTrace::fresh(spell, target, false).after(
                CastEvent::Start { timer },
                a,
            );
            let (out, s2) = begun.after(
                CastEvent::Go { spell, unit: Some(target), only_target: true },
                b,
            );
            let (hit, s3) = out.after(CastEvent::Damage { amount }, c);
            let (done, s4) = hit.after(CastEvent::Cooldown, d);
            &&& s1 == CastStep::Watch && s2 == CastStep::Watch && s3 == CastStep::Watch && s4
                == CastStep::Enough
            &&& done.faults().len() == 0 <==> timer == 1700 && c - b >= 150
            &&& hit.faults().len() > 0 && out.faults().len() > 0 && begun.faults().len() > 0
            &&& done.after(CastEvent::Start { timer: 0 }, d).0.faults().len() > 0
            &&& out.after(CastEvent::Cooldown, d).1 == CastStep::Watch
            &&& out.after(CastEvent::Refused, d) == (out, CastStep::Refused)
        }),
{
}

/// A cast that is to be interrupted passes exactly where it began with its time, failed, and did not go
/// out; it has seen enough with the failure.
pub proof fn an_interrupt_is_seen_through(spell: u32, other: u32, target: u64, timer: u32, a: u64, b: u64)
    requires
        timer > 0,
    ensures
        ({
            let (begun, s1) = CastTrace::fresh(spell, target, true).after(
                CastEvent::Start { timer },
                a,
            );
            let (failed, s2) = begun.after(CastEvent::Failure { spell: other }, b);
            &&& s2 == CastStep::Enough
            &&& failed.faults().len() == 0 <==> timer == 1700 && other == spell
            &&& begun.faults().len() > 0
            &&& failed.after(CastEvent::Go { spell, unit: None, only_target: false }, b).0.faults().len()
                > 0
            &&& CastTrace::fresh(spell, target, false).after(CastEvent::Failure { spell }, b).1
                == CastStep::Watch
        }),
{
}

/// What a cast did not show is told, each by its own name, and nothing else is.
pub proof fn a_cast_is_told_what_it_lacks(c: CastTrace)
    requires
        !c.expect_interrupt,
    ensures
        ({
            let v = c.faults();
            &&& v.contains(CastFault::BeginTimer) <==> c.begin_timer != Some(1700u32)
            &&& v.contains(CastFault::SecondStart) <==> c.completion_start
            &&& v.contains(CastFault::GoSpell) <==> !(c.go matches Some(g) && g.spell == c.spell)
            &&& v.contains(CastFault::GoUnit) <==> !(c.go matches Some(g) && g.unit == Some(c.target))
            &&& v.contains(CastFault::GoHits) <==> !(c.go matches Some(g) && g.only_target)
            &&& v.contains(CastFault::NoCooldown) <==> !c.cooldown
            &&& v.contains(CastFault::NoImpact) <==> c.damage_delay is None
        }),
{
    lemma_noted();
}

proof fn lemma_noted()
    ensures
        forall|v: Seq<CastFault>, fails: bool, f: CastFault, g: CastFault|
            (#[trigger] noted(v, fails, f).contains(g) <==> v.contains(g) || (fails && g == f)),
        forall|v: Seq<CastFault>, f: CastFault, g: CastFault|
            (#[trigger] v.push(f).contains(g) <==> v.contains(g) || g == f),
{
    assert forall|v: Seq<CastFault>, f: CastFault, g: CastFault|
        (#[trigger] v.push(f).contains(g) <==> v.contains(g) || g == f) by {
        let w = v.push(f);
        assert(w[v.len() as int] == f);
        if v.contains(g) {
            let i = choose|i: int| 0 <= i < v.len() && v[i] == g;
            assert(w[i] == g);
        }
        if w.contains(g) && g != f {
            let i = choose|i: int| 0 <= i < w.len() && w[i] == g;
            assert(v[i] == g);
        }
    }
}

/// A run has four names, and each is of one kind.
pub proof fn a_run_is_known_by_its_name(word: Seq<char>)
    ensures
        word == "loop"@ <==> shot_mode(word) == ShotMode::Loop,
        word == "melee"@ <==> shot_mode(word) == ShotMode::Melee,
        word == "reject"@ <==> shot_mode(word) == ShotMode::Reject,
        word == "moving"@ <==> shot_mode(word) == ShotMode::Moving,
{
    reveal_strlit("loop");
    reveal_strlit("melee");
    reveal_strlit("reject");
    reveal_strlit("moving");
    assert("loop"@.len() == 4 && "melee"@.len() == 5 && "reject"@.len() == 6 && "moving"@.len() == 6);
    assert("reject"@[0] == 'r' && "moving"@[0] == 'm');
}

} // verus!
