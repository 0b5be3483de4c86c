//! Diving until breath runs out: which timer counts, when damage is due, and what proves that it
//! was drowning. Times are milliseconds.

use vstd::prelude::*;
use crate::number;
use crate::text;

verus! {

/// How long the start of the timer is waited for.
pub const START_WINDOW_MS: u64 = 5000;

/// How long its stop is waited for.
pub const STOP_WINDOW_MS: u64 = 5000;

/// How long damage is waited for once the timer has run out.
pub const DAMAGE_GRACE_MS: u64 = 8000;

/// How much earlier than advertised damage may come: one tick of the server and the way here.
pub const DAMAGE_EARLY_TOLERANCE_MS: u64 = 1500;

/// The longest timer that is waited for.
pub const MAX_TIMER_MS: u32 = 120000;

/// What a timer on the screen counts.
#[derive(Clone, Copy, Debug, PartialEq, Eq, Structural)]
pub enum TimerKind {
    Fatigue,
    Breath,
    FeignDeath,
    Environmental,
}

/// The name of a timer.
pub open spec fn timer_name(k: TimerKind) -> Seq<char> {
    match k {
        TimerKind::Fatigue => "Fatigue"@,
        TimerKind::Breath => "Breath"@,
        TimerKind::FeignDeath => "FeignDeath"@,
        TimerKind::Environmental => "Environmental"@,
    }
}

/// The name of a timer.
pub fn timer_word(k: TimerKind) -> (s: &'static str)
    ensures
        s@ == timer_name(k),
{
    match k {
        TimerKind::Fatigue => "Fatigue",
        TimerKind::Breath => "Breath",
        TimerKind::FeignDeath => "FeignDeath",
        TimerKind::Environmental => "Environmental",
    }
}

/// A timer that starts.
#[derive(Clone, Copy, Debug, PartialEq, Eq, Structural)]
pub struct MirrorTimer {
    pub timer: TimerKind,
    pub time_remaining: u32,
    pub duration: u32,
    pub scale: u32,
    pub is_frozen: bool,
}

/// Why a timer is not the one of a diver, if so.
pub open spec fn timer_fault(t: MirrorTimer) -> Option<Seq<char>> {
    if t.timer != TimerKind::Breath {
        Some("STEP 1 FAIL: mirror timer type was "@ + timer_name(t.timer) + ", want Breath"@)
    } else if t.time_remaining == 0 || t.time_remaining > t.duration || t.duration > MAX_TIMER_MS {
        Some(
            "STEP 1 FAIL: invalid breath timer remaining="@ + number::decimal(
                t.time_remaining as nat,
            ) + "ms duration="@ + number::decimal(t.duration as nat) + "ms"@,
        )
    } else if t.scale != u32::MAX || t.is_frozen {
        Some(
            "STEP 1 FAIL: breath timer scale="@ + number::decimal(t.scale as nat) + " frozen="@
                + if t.is_frozen {
                "true"@
            } else {
                "false"@
            } + ", want scale=-1 and frozen=false"@,
        )
    } else {
        None
    }
}

/// How much breath a timer advertises, where it is the timer of a diver.
pub open spec fn breath(t: MirrorTimer) -> Result<u32, Seq<char>> {
    match timer_fault(t) {
        Some(said) => Err(said),
        None => Ok(t.time_remaining),
    }
}

/// How much breath a timer advertises, where it is the timer of a diver.
pub fn validate_breath_timer(t: MirrorTimer) -> (r: Result<u32, String>)
    ensures
        crate::sats::agrees(r, breath(t)),
{
    let mut s: String = String::new();
    match t.timer {
        TimerKind::Breath => {},
        _ => {
            s.append("STEP 1 FAIL: mirror timer type was ");
            s.append(timer_word(t.timer));
            s.append(", want Breath");
            assert(s@ =~= timer_fault(t)->0);
            return Err(s);
        },
    }
    if t.time_remaining == 0 || t.time_remaining > t.duration || t.duration > MAX_TIMER_MS {
        s.append("STEP 1 FAIL: invalid breath timer remaining=");
        number::push_decimal(&mut s, t.time_remaining as u64);
        s.append("ms duration=");
        number::push_decimal(&mut s, t.duration as u64);
        s.append("ms");
        assert(s@ =~= timer_fault(t)->0);
        return Err(s);
    }
    if t.scale != u32::MAX || t.is_frozen {
        s.append("STEP 1 FAIL: breath timer scale=");
        number::push_decimal(&mut s, t.scale as u64);
        s.append(" frozen=");
        if t.is_frozen {
            s.append("true");
        } else {
            s.append("false");
        }
        s.append(", want scale=-1 and frozen=false");
        assert(s@ =~= timer_fault(t)->0);
        return Err(s);
    }
    Ok(t.time_remaining)
}

/// What does damage without an attacker.
#[derive(Clone, Copy, Debug, PartialEq, Eq, Structural)]
pub enum EnvironmentalDamage {
    Exhausted,
    Drowning,
    Fall,
    Lava,
    Slime,
    Fire,
}

/// What was seen of drowning.
#[derive(Clone, Copy, Debug, PartialEq, Eq, Structural)]
pub struct DrowningProof {
    /// How much damage the diver took by drowning.
    pub damage: u32,
    /// Who else drowned.
    pub wrong_recipient: Option<u64>,
}

impl DrowningProof {
    /// Nothing was seen yet.
    pub fn new() -> (p: DrowningProof)
        ensures
            p == (DrowningProof { damage: 0, wrong_recipient: None }),
    {
        DrowningProof { damage: 0, wrong_recipient: None }
    }

    /// Once some damage is seen: drowning of the diver adds up, and drowning of another is noted.
    pub open spec fn after(
        self,
        kind: EnvironmentalDamage,
        recipient: u64,
        damage: u32,
        own: u64,
    ) -> DrowningProof {
        if kind != EnvironmentalDamage::Drowning || damage == 0 {
            self
        } else if recipient == own {
            DrowningProof {
                damage: if self.damage + damage <= u32::MAX {
                    (self.damage + damage) as u32
                } else {
                    u32::MAX
                },
                ..self
            }
        } else {
            DrowningProof { wrong_recipient: Some(recipient), ..self }
        }
    }

    /// Notes some damage.
    pub fn observe(&mut self, kind: EnvironmentalDamage, recipient: u64, damage: u32, own: u64)
        ensures
            *final(self) == old(self).after(kind, recipient, damage, own),
    {
        match kind {
            EnvironmentalDamage::Drowning => {},
            _ => {
                return;
            },
        }
        if damage == 0 {
            return;
        }
        if recipient == own {
            self.damage = if damage <= u32::MAX - self.damage {
                self.damage + damage
            } else {
                u32::MAX
            };
        } else {
            self.wrong_recipient = Some(recipient);
        }
    }

    /// The health that is lost is the damage that was logged.
    pub open spec fn proves(self, initial: u32, current: Option<u32>) -> bool {
        self.damage > 0 && match current {
            Some(h) => self.damage == if h <= initial {
                initial - h
            } else {
                0
            },
            None => false,
        }
    }

    /// Whether the health that is lost is the damage that was logged.
    pub fn matches_health(&self, initial_health: u32, current_health: Option<u32>) -> (yes: bool)
        ensures
            yes == self.proves(initial_health, current_health),
    {
        match current_health {
            Some(h) => self.damage > 0 && h <= initial_health && initial_health - h == self.damage,
            None => false,
        }
    }
}

/// What is proved after some damage.
pub open spec fn proof_after(
    seen: Seq<(EnvironmentalDamage, u64, u32)>,
    own: u64,
) -> DrowningProof
    decreases seen.len(),
{
    if seen.len() == 0 {
        DrowningProof { damage: 0, wrong_recipient: None }
    } else {
        let (kind, recipient, damage) = seen.last();
        proof_after(seen.drop_last(), own).after(kind, recipient, damage, own)
    }
}

/// Only drowning of the diver itself proves anything: where there was none, no loss of health
/// does.
pub proof fn only_own_drowning_counts(
    seen: Seq<(EnvironmentalDamage, u64, u32)>,
    own: u64,
    initial: u32,
    current: Option<u32>,
)
    requires
        forall|i: int|
            0 <= i < seen.len() ==> (#[trigger] seen[i]).0 != EnvironmentalDamage::Drowning
                || seen[i].1 != own,
    ensures
        proof_after(seen, own).damage == 0,
        !proof_after(seen, own).proves(initial, current),
    decreases seen.len(),
{
    if seen.len() > 0 {
        let before = seen.drop_last();
        assert(forall|i: int| 0 <= i < before.len() ==> before[i] == #[trigger] seen[i]);
        assert(seen.last() == seen[seen.len() - 1]);
        only_own_drowning_counts(before, own, initial, current);
    }
}

/// Damage may come now, so long after a timer was advertised.
pub open spec fn is_due(elapsed_ms: int, advertised_ms: int) -> bool {
    elapsed_ms + DAMAGE_EARLY_TOLERANCE_MS >= advertised_ms
}

/// Whether damage may come now, so long after a timer was advertised.
pub fn drowning_damage_is_due(elapsed_ms: u64, advertised_remaining_ms: u32) -> (yes: bool)
    ensures
        yes == is_due(elapsed_ms as int, advertised_remaining_ms as int),
{
    elapsed_ms >= advertised_remaining_ms as u64 || advertised_remaining_ms as u64 - elapsed_ms
        <= DAMAGE_EARLY_TOLERANCE_MS
}

/// Damage that is due stays due.
pub proof fn due_damage_stays_due(earlier: int, later: int, advertised: int)
    requires
        earlier <= later,
        is_due(earlier, advertised),
    ensures
        is_due(later, advertised),
{
}

/// Drowning of the diver came before its breath can have run out.
pub open spec fn too_early(
    kind: EnvironmentalDamage,
    recipient: u64,
    damage: u32,
    own: u64,
    elapsed_ms: int,
    advertised_ms: int,
) -> bool {
    kind == EnvironmentalDamage::Drowning && recipient == own && damage > 0 && !is_due(
        elapsed_ms,
        advertised_ms,
    )
}

/// How long damage is waited for, from the timer on.
pub open spec fn waited_for(advertised_ms: int) -> int {
    advertised_ms + DAMAGE_GRACE_MS
}

/// A diver lives, as far as is known.
pub open spec fn alive(dead: Option<bool>, health: Option<u32>) -> bool {
    dead != Some(true) && health != Some(0u32)
}

/// The health that a dive begins with.
pub open spec fn begins_with(health: Option<u32>) -> Option<u32> {
    match health {
        Some(n) => if n > 0 {
            Some(n)
        } else {
            None
        },
        None => None,
    }
}

/// Whether drowning of the diver came before its breath can have run out.
pub fn came_too_early(
    kind: EnvironmentalDamage,
    recipient: u64,
    damage: u32,
    own: u64,
    elapsed_ms: u64,
    advertised_ms: u32,
) -> (yes: bool)
    ensures
        yes == too_early(kind, recipient, damage, own, elapsed_ms as int, advertised_ms as int),
{
    match kind {
        EnvironmentalDamage::Drowning => recipient == own && damage > 0 && !drowning_damage_is_due(
            elapsed_ms,
            advertised_ms,
        ),
        _ => false,
    }
}

/// How long damage is waited for, from the timer on.
pub fn damage_window_ms(advertised_ms: u32) -> (ms: u64)
    ensures
        ms == waited_for(advertised_ms as int),
{
    advertised_ms as u64 + DAMAGE_GRACE_MS
}

/// The stamp of a dive: never zero, and low enough that the longest dive does not wrap.
pub fn movement_timestamp(now_ms: u64) -> (stamp: u32)
    ensures
        stamp == stamp_below(now_ms),
        1 <= stamp <= u32::MAX - MAX_TIMER_MS - 10000,
{
    (now_ms % (u32::MAX - MAX_TIMER_MS - 10000) as u64) as u32 + 1
}

/// The stamp of coming up.
pub open spec fn stamp_above(submerged: u32, elapsed_ms: u64) -> int {
    let spent: int = if elapsed_ms <= MAX_TIMER_MS {
        elapsed_ms as int
    } else {
        MAX_TIMER_MS as int
    };
    if submerged + spent + 1 <= u32::MAX {
        submerged + spent + 1
    } else {
        u32::MAX as int
    }
}

/// The stamp of coming up: later than that of the dive.
pub fn surface_timestamp(submerged: u32, elapsed_ms: u64) -> (stamp: u32)
    ensures
        stamp == stamp_above(submerged, elapsed_ms),
{
    let spent: u32 = if elapsed_ms <= MAX_TIMER_MS as u64 {
        elapsed_ms as u32
    } else {
        MAX_TIMER_MS
    };
    if spent < u32::MAX - submerged {
        submerged + spent + 1
    } else {
        u32::MAX
    }
}

/// The stamp of a dive that begins then.
pub open spec fn stamp_below(now_ms: u64) -> int {
    now_ms % ((u32::MAX - MAX_TIMER_MS - 10000) as u64) + 1
}

/// However long a dive takes, coming up is stamped later than diving.
pub proof fn coming_up_is_stamped_later(now_ms: u64, elapsed_ms: u64)
    ensures
        stamp_above(stamp_below(now_ms) as u32, elapsed_ms) > stamp_below(now_ms),
{
}

/// Whether a diver lives, as far as is known.
pub fn lives(dead: Option<bool>, health: Option<u32>) -> (yes: bool)
    ensures
        yes == alive(dead, health),
{
    let gone: bool = match dead {
        Some(d) => d,
        None => false,
    };
    let empty: bool = match health {
        Some(h) => h == 0,
        None => false,
    };
    !gone && !empty
}

/// Who begins a dive: one whose health is known and positive.
pub fn initial_health(health: Option<u32>) -> (h: Option<u32>)
    ensures
        h == begins_with(health),
{
    match health {
        Some(n) => if n > 0 {
            Some(n)
        } else {
            None
        },
        None => None,
    }
}

/// Said of a place that is missing or is none, if so.
pub open spec fn coordinate_fault(name: Seq<char>, word: Option<Seq<char>>, reads: bool, finite: bool) -> Option<
    Seq<char>,
> {
    match word {
        None => Some("usage: "@ + USAGE@ + ": missing <"@ + name + ">"@),
        Some(w) => if !reads {
            Some("usage: "@ + USAGE@ + ": invalid <"@ + name + ">: "@ + text::debug_form(w))
        } else if !finite {
            Some("usage: "@ + USAGE@ + ": <"@ + name + "> must be finite"@)
        } else {
            None
        },
    }
}

/// How a dive is called.
pub const USAGE: &'static str =
    "scenario-dive <submerged_x> <submerged_y> <submerged_z> <surface_x> <surface_y> <surface_z>";

/// Judges a coordinate: whether there is a word, whether it reads as a number, and whether that is
/// finite.
pub fn check_coordinate(name: &str, word: &Option<String>, reads: bool, finite: bool) -> (f: Option<
    String,
>)
    ensures
        text::text_of(f) == coordinate_fault(name@, text::text_of(*word), reads, finite),
{
    let mut s: String = "usage: ".to_owned();
    s.append(USAGE);
    match word {
        None => {
            s.append(": missing <");
            s.append(name);
            s.append(">");
            Some(s)
        },
        Some(w) => if !reads {
            s.append(": invalid <");
            s.append(name);
            s.append(">: ");
            s.append(text::debug_text(w.as_str()).as_str());
            Some(s)
        } else if !finite {
            s.append(": <");
            s.append(name);
            s.append("> must be finite");
            Some(s)
        } else {
            None
        },
    }
}

/// A timer is a diver's exactly where it is one of breath that runs down, is not frozen, has some time
/// left and no more than it began with, and takes two minutes at most; it advertises what is left.
pub proof fn a_breath_timer_runs_down(t: MirrorTimer)
    ensures
        breath(t) is Ok <==> t.timer == TimerKind::Breath && 0 < t.time_remaining && t.time_remaining
            <= t.duration && t.duration <= 2 * 60 * 1000 && t.scale == 0xFFFF_FFFF && !t.is_frozen,
        breath(t) matches Ok(ms) ==> ms == t.time_remaining,
{
}

/// The damage that a diver took by drowning, one blow after another.
pub open spec fn drowned(seen: Seq<(EnvironmentalDamage, u64, u32)>, own: u64) -> nat
    decreases seen.len(),
{
    if seen.len() == 0 {
        0
    } else {
        drowned(seen.drop_last(), own) + if seen.last().0 == EnvironmentalDamage::Drowning
            && seen.last().1 == own {
            seen.last().2 as nat
        } else {
            0nat
        }
    }
}

/// What is proved is all the drowning that the diver took, added up; and it is a proof exactly where the
/// health that is lost is that much and more than nothing.
pub proof fn drowning_adds_up(
    seen: Seq<(EnvironmentalDamage, u64, u32)>,
    own: u64,
    initial: u32,
    current: u32,
)
    requires
        drowned(seen, own) <= u32::MAX,
    ensures
        proof_after(seen, own).damage == drowned(seen, own),
        proof_after(seen, own).proves(initial, Some(current)) <==> drowned(seen, own) > 0 && current
            + drowned(seen, own) == initial,
        !proof_after(seen, own).proves(initial, None),
        proof_after(seen, own).wrong_recipient matches Some(g) ==> g != own,
    decreases seen.len(),
{
    if seen.len() > 0 {
        drowning_adds_up(seen.drop_last(), own, initial, current);
    }
}

/// Another who drowns is noted.
pub proof fn another_drowning_is_noted(p: DrowningProof, other: u64, own: u64, damage: u32)
    requires
        other != own,
        damage > 0,
    ensures
        p.after(EnvironmentalDamage::Drowning, other, damage, own).wrong_recipient == Some(other),
        p.after(EnvironmentalDamage::Drowning, other, damage, own).damage == p.damage,
        p.after(EnvironmentalDamage::Fall, other, damage, own) == p,
        p.after(EnvironmentalDamage::Lava, own, damage, own) == p,
        p.after(EnvironmentalDamage::Drowning, other, 0, own) == p,
{
}

/// Drowning comes too early where more than a second and a half of the advertised breath is left, and
/// is waited for until eight seconds behind it.
pub proof fn breath_runs_out_in_time(
    kind: EnvironmentalDamage,
    recipient: u64,
    damage: u32,
    own: u64,
    elapsed: int,
    advertised: int,
)
    ensures
        too_early(kind, recipient, damage, own, elapsed, advertised) <==> kind
            == EnvironmentalDamage::Drowning && recipient == own && damage >= 1 && advertised - elapsed
            > 1500,
        waited_for(advertised) - advertised == 8000,
{
}

/// Diving is stamped with a positive time below the wrap, and coming up with the time that has passed
/// since, one more at least, and two minutes at most.
pub proof fn a_dive_is_stamped(now_ms: u64, elapsed_ms: u64)
    ensures
        1 <= stamp_below(now_ms) <= 4294967295 - 130000,
        now_ms < 4294967295 - 130000 ==> stamp_below(now_ms) == now_ms + 1,
        elapsed_ms <= 120000 ==> stamp_above(stamp_below(now_ms) as u32, elapsed_ms) - stamp_below(
            now_ms,
        ) == elapsed_ms + 1,
        elapsed_ms > 120000 ==> stamp_above(stamp_below(now_ms) as u32, elapsed_ms) - stamp_below(
            now_ms,
        ) == 120001,
{
    let m = (u32::MAX - MAX_TIMER_MS - 10000) as u64;
    assert(m == 4294837295);
    if now_ms < m {
        vstd::arithmetic::div_mod::lemma_small_mod(now_ms as nat, m as nat);
    }
}

/// A diver lives unless it is known to be dead or to have no health, and begins only with health that
/// is known and positive.
pub proof fn a_diver_lives_until_it_is_known_dead(n: u32)
    ensures
        alive(None, None) && alive(Some(false), None) && !alive(Some(true), Some(n)),
        alive(None, Some(n)) <==> n > 0,
        begins_with(Some(n)) == if n > 0 {
            Some(n)
        } else {
            None
        },
        begins_with(None) is None,
{
}

} // verus!
