//! What one synthetic player does next: when it moves, when it fights, how long it reads, and
//! when it hands its samples over. Times are milliseconds of one clock.

use vstd::prelude::*;

verus! {

/// The upper sixteen bits of a creature's guid.
pub const HIGHGUID_UNIT: u64 = 0xF130;

/// How long a player swings, and how long it does not.
pub const COMBAT_FLIP_MS: u64 = 8000;

/// The longest time that a player reads before it looks at its clock again.
pub const DRAIN_BUDGET_MS: u64 = 100;

/// How long one read waits.
pub const DRAIN_POLL_MS: u64 = 20;

/// How many samples a player gathers before it hands them over.
pub const LATENCY_FLUSH_BATCH: usize = 64;

/// How long samples are held at most.
pub const FLUSH_MS: u64 = 1000;

/// How many errors a run keeps.
pub const ERROR_LIMIT: usize = 200;

/// A time so much later, or the last time there is.
pub open spec fn after(t: int, d: int) -> int {
    if t + d <= u64::MAX {
        t + d
    } else {
        u64::MAX as int
    }
}

/// A time so much later.
pub fn later(t: u64, d: u64) -> (r: u64)
    ensures
        r == after(t as int, d as int),
{
    if d <= u64::MAX - t {
        t + d
    } else {
        u64::MAX
    }
}

/// How much later one time is than another: nothing, where it is not.
pub open spec fn lead(a: int, b: int) -> int {
    if a > b {
        a - b
    } else {
        0
    }
}

fn lead_of(a: u64, b: u64) -> (d: u64)
    ensures
        d == lead(a as int, b as int),
{
    if a > b {
        a - b
    } else {
        0
    }
}

/// A guid is a creature's.
pub open spec fn is_creature(guid: u64) -> bool {
    guid / 0x1_0000_0000_0000 == HIGHGUID_UNIT
}

/// The first creature among some guids.
pub open spec fn first_creature(seen: Seq<u64>) -> Option<u64>
    decreases seen.len(),
{
    if seen.len() == 0 {
        None
    } else if is_creature(seen[0]) {
        Some(seen[0])
    } else {
        first_creature(seen.skip(1))
    }
}

/// The first creature among some guids.
pub fn creature_in(seen: &Vec<u64>) -> (found: Option<u64>)
    ensures
        found == first_creature(seen@),
{
    assert(seen@.skip(0) =~= seen@);
    for i in 0..seen.len()
        invariant
            first_creature(seen@.skip(i as int)) == first_creature(seen@),
    {
        assert(seen@.skip(i as int)[0] == seen@[i as int]);
        assert(seen@.skip(i as int).skip(1) =~= seen@.skip(i + 1));
        if seen[i] / 0x1_0000_0000_0000 == HIGHGUID_UNIT {
            return Some(seen[i]);
        }
    }
    assert(seen@.skip(seen@.len() as int).len() == 0);
    None
}

/// How late a player is that is due at a time, modulo two to the thirty-second; nothing while it is
/// not due.
pub open spec fn lateness(due: u64, now: u64) -> Option<u32> {
    if now < due {
        None
    } else {
        Some(((now - due) % 0x1_0000_0000) as u32)
    }
}

/// Until when a player reads that is due at a time.
pub open spec fn reading_ends(due: u64, now: u64) -> int {
    after(
        now as int,
        if lead(due as int, now as int) < DRAIN_BUDGET_MS {
            lead(due as int, now as int)
        } else {
            DRAIN_BUDGET_MS as int
        },
    )
}

/// So many samples are handed over at a time.
pub open spec fn hands_over(last: u64, now: u64, latencies: nat, lags: nat) -> bool {
    latencies >= LATENCY_FLUSH_BATCH || lags >= LATENCY_FLUSH_BATCH || ((latencies > 0 || lags > 0)
        && lead(now as int, last as int) >= FLUSH_MS)
}

/// The player with a number fights, where so many of every hundred do.
pub open spec fn fights(idx: nat, combat_pct: nat) -> bool {
    idx % 100 < combat_pct
}

/// How long a relayed movement took; nothing where its stamp lies ahead.
pub open spec fn took(now_ms: u32, stamp: u32) -> Option<u32> {
    if stamp <= now_ms {
        Some((now_ms - stamp) as u32)
    } else {
        None
    }
}

/// What a player does about its fight.
#[derive(Clone, Copy, PartialEq, Eq, Structural, Debug)]
pub enum Fight {
    /// Nothing.
    Hold,
    /// It stops swinging.
    Stop,
    /// It selects that creature and swings at it.
    Swing(u64),
}

/// A player between two looks at its clock.
#[derive(Clone, Copy, Debug)]
pub struct Player {
    /// How often it moves.
    pub interval: u64,
    /// Whether it fights.
    pub combat: bool,
    /// When it moves next.
    pub next_hb: u64,
    /// When it changes its mind about fighting.
    pub next_flip: u64,
    /// Whom it fights.
    pub engaged: Option<u64>,
    /// How often it has moved, modulo two to the thirty-second.
    pub hb_count: u32,
    /// When it last handed its samples over.
    pub last_flush: u64,
}

/// When a player that moved late or on time moves next: one interval after it was due, and never
/// before now.
pub open spec fn next_beat(due: int, interval: int, now: int) -> int {
    let regular = after(due, interval);
    if regular < now {
        after(now, interval)
    } else {
        regular
    }
}

impl Player {
    /// A player that enters the world: the lower part of every hundred fights.
    pub fn new(idx: usize, combat_pct: usize, heartbeat_ms: u64, now: u64) -> (p: Player)
        ensures
            p.interval == heartbeat_ms,
            p.combat == fights(idx as nat, combat_pct as nat),
            p.next_hb == now,
            p.next_flip == after(now as int, COMBAT_FLIP_MS as int),
            p.engaged is None,
            p.hb_count == 0,
            p.last_flush == now,
    {
        Player {
            interval: heartbeat_ms,
            combat: idx % 100 < combat_pct,
            next_hb: now,
            next_flip: later(now, COMBAT_FLIP_MS),
            engaged: None,
            hb_count: 0,
            last_flush: now,
        }
    }

    /// Whether the player is to move now, and how late it is, modulo two to the thirty-second.
    pub fn due(&self, now: u64) -> (lag: Option<u32>)
        ensures
            lag == lateness(self.next_hb, now),
    {
        if now < self.next_hb {
            None
        } else {
            Some(((now - self.next_hb) % 0x1_0000_0000) as u32)
        }
    }

    /// The player has moved.
    pub fn moved(&mut self, now: u64)
        ensures
            *final(self) == (Player {
                next_hb: next_beat(old(self).next_hb as int, old(self).interval as int, now as int) as u64,
                hb_count: if old(self).hb_count == u32::MAX {
                    0
                } else {
                    (old(self).hb_count + 1) as u32
                },
                ..*old(self)
            }),
    {
        self.hb_count = if self.hb_count == u32::MAX {
            0
        } else {
            self.hb_count + 1
        };
        self.next_hb = later(self.next_hb, self.interval);
        if self.next_hb < now {
            self.next_hb = later(now, self.interval);
        }
    }

    /// What a player does about its fight, and what becomes of it.
    pub open spec fn flipped(self, now: u64, seen: Seq<u64>) -> (Player, Fight) {
        if !self.combat || now < self.next_flip {
            (self, Fight::Hold)
        } else {
            (
                Player {
                    next_flip: after(now as int, COMBAT_FLIP_MS as int) as u64,
                    engaged: None,
                    ..self
                },
                match self.engaged {
                    Some(_) => Fight::Stop,
                    None => match first_creature(seen) {
                        Some(t) => Fight::Swing(t),
                        None => Fight::Hold,
                    },
                },
            )
        }
    }

    /// What the player does about its fight, given what it has seen. It is engaged only once its
    /// swing was sent.
    pub fn flip(&mut self, now: u64, seen: &Vec<u64>) -> (f: Fight)
        ensures
            (*final(self), f) == old(self).flipped(now, seen@),
    {
        if !self.combat || now < self.next_flip {
            return Fight::Hold;
        }
        self.next_flip = later(now, COMBAT_FLIP_MS);
        match self.engaged.take() {
            Some(_) => Fight::Stop,
            None => match creature_in(seen) {
                Some(t) => Fight::Swing(t),
                None => Fight::Hold,
            },
        }
    }

    /// The swing at a creature was sent.
    pub fn swung(&mut self, target: u64)
        ensures
            *final(self) == (Player { engaged: Some(target), ..*old(self) }),
    {
        self.engaged = Some(target);
    }

    /// Until when the player reads: until it is to move, and not for long.
    pub fn read_until(&self, now: u64) -> (t: u64)
        ensures
            t == reading_ends(self.next_hb, now),
    {
        let d: u64 = lead_of(self.next_hb, now);
        later(
            now,
            if d < DRAIN_BUDGET_MS {
                d
            } else {
                DRAIN_BUDGET_MS
            },
        )
    }

    /// Whether samples are handed over now: enough of them, or some that are old.
    pub fn flush_due(&self, now: u64, latencies: usize, lags: usize) -> (yes: bool)
        ensures
            yes == hands_over(self.last_flush, now, latencies as nat, lags as nat),
    {
        let pending: usize = if latencies > lags {
            latencies
        } else {
            lags
        };
        pending >= LATENCY_FLUSH_BATCH || (pending > 0 && lead_of(now, self.last_flush) >= FLUSH_MS)
    }

    /// The samples were handed over.
    pub fn flushed(&mut self, now: u64)
        ensures
            *final(self) == (Player { last_flush: now, ..*old(self) }),
    {
        self.last_flush = now;
    }
}

/// The latency of a relayed movement: none where its stamp lies ahead.
pub fn relay_latency(now_ms: u32, stamp: u32) -> (d: Option<u32>)
    ensures
        d == took(now_ms, stamp),
{
    if stamp <= now_ms {
        Some(now_ms - stamp)
    } else {
        None
    }
}

/// The errors, with one more as long as there is room.
pub open spec fn with_error(errors: Seq<String>, e: String) -> Seq<String> {
    if errors.len() < ERROR_LIMIT {
        errors.push(e)
    } else {
        errors
    }
}

/// The first two hundred errors are kept, in the order in which they came, and none after them.
pub proof fn two_hundred_errors_are_kept(errors: Seq<String>, e: String)
    ensures
        errors.len() < 200 ==> with_error(errors, e).len() == errors.len() + 1 && with_error(
            errors,
            e,
        ).last() == e,
        errors.len() >= 200 ==> with_error(errors, e).len() == errors.len(),
        forall|k: int| 0 <= k < errors.len() ==> #[trigger] with_error(errors, e)[k] == errors[k],
{
}

/// Keeps an error, as long as there is room.
pub fn keep_error(errors: &mut Vec<String>, e: String)
    ensures
        final(errors)@ == with_error(old(errors)@, e),
{
    if errors.len() < ERROR_LIMIT {
        errors.push(e);
    }
}

/// When a player moves next after some movements at given times.
pub open spec fn beats(first: int, interval: int, at: Seq<int>) -> int
    decreases at.len(),
{
    if at.len() == 0 {
        first
    } else {
        next_beat(beats(first, interval, at.drop_last()), interval, at.last())
    }
}

/// However late a player wakes up, it never catches up with a burst: it is not due again before
/// the time at which it moved, and it never moves more often than its interval allows.
pub proof fn a_late_player_does_not_catch_up(first: int, interval: int, at: Seq<int>)
    requires
        0 <= first,
        0 <= interval,
        forall|i: int| 0 <= i < at.len() ==> 0 <= #[trigger] at[i] < u64::MAX - interval,
        beats(first, interval, at) < u64::MAX,
    ensures
        at.len() > 0 ==> beats(first, interval, at) >= at.last(),
        beats(first, interval, at) >= first + at.len() * interval,
    decreases at.len(),
{
    if at.len() > 0 {
        let before = at.drop_last();
        assert forall|i: int| 0 <= i < before.len() implies 0 <= #[trigger] before[i] < u64::MAX
            - interval by {
            assert(at[i] == before[i]);
        }
        let due = beats(first, interval, before);
        assert(at.last() == at[at.len() - 1]);
        if due >= u64::MAX {
            assert(next_beat(due, interval, at.last()) == u64::MAX);
        }
        a_late_player_does_not_catch_up(first, interval, before);
        assert(at.len() * interval == before.len() * interval + interval) by (nonlinear_arith)
            requires
                at.len() == before.len() + 1,
        ;
    }
}

/// A player keeps its rate: one that wakes up less than an interval late is due one interval after
/// it was due, and after many such movements it is due just that many intervals later.
pub proof fn a_player_keeps_its_rate(first: int, interval: int, at: Seq<int>)
    requires
        0 <= first,
        0 <= interval,
        first + at.len() * interval <= u64::MAX,
        forall|i: int|
            0 <= i < at.len() ==> first + i * interval <= #[trigger] at[i] <= first + (i + 1)
                * interval,
    ensures
        beats(first, interval, at) == first + at.len() * interval,
    decreases at.len(),
{
    if at.len() > 0 {
        let before = at.drop_last();
        let n = before.len() as int;
        assert(at.len() * interval == n * interval + interval) by (nonlinear_arith)
            requires
                at.len() == n + 1,
        ;
        assert((n + 1) * interval == n * interval + interval) by (nonlinear_arith);
        assert forall|i: int| 0 <= i < before.len() implies first + i * interval
            <= #[trigger] before[i] <= first + (i + 1) * interval by {
            assert(at[i] == before[i]);
        }
        a_player_keeps_its_rate(first, interval, before);
        assert(at[n] == at.last());
    }
}

/// A player that moves when it is due or later is due again after the movement, and no later than
/// one interval after it; it is never due before one interval after it was due. Its movements are
/// counted, and nothing else about it changes.
pub proof fn a_player_is_soon_due_again(due: int, interval: int, now: int)
    requires
        0 <= due <= now,
        0 <= interval,
        now + interval <= u64::MAX,
    ensures
        now <= next_beat(due, interval, now) <= now + interval,
        due + interval <= next_beat(due, interval, now),
        now <= due + interval ==> next_beat(due, interval, now) == due + interval,
        now > due + interval ==> next_beat(due, interval, now) == now + interval,
{
}

/// A player is due from its time on, and then says how late it is: the lag and the time that it was
/// due make the time that it is.
pub proof fn a_lag_leads_back_to_the_due_time(due: u64, now: u64)
    ensures
        lateness(due, now) is Some <==> due <= now,
        due <= now < due + 0x1_0000_0000 ==> due + lateness(due, now)->0 == now,
{
}

/// A latency and the stamp of the movement make the time at which it was seen.
pub proof fn a_latency_leads_back_to_the_stamp(now_ms: u32, stamp: u32)
    ensures
        took(now_ms, stamp) matches Some(d) ==> stamp + d == now_ms,
        took(now_ms, stamp) is None <==> stamp > now_ms,
{
}

/// A player reads until it is due, and at most for a tenth of a second: never past the time at which
/// it is due, unless that has gone by, and then not at all.
pub proof fn reading_leaves_time_to_move(due: u64, now: u64)
    requires
        now + 100 <= u64::MAX,
    ensures
        due <= now ==> reading_ends(due, now) == now,
        now < due <= now + 100 ==> reading_ends(due, now) == due,
        now + 100 < due ==> reading_ends(due, now) == now + 100,
{
}

/// Sixty-four samples of either kind are handed over at once, and fewer once a second has gone by
/// since the last time; where there is none, nothing is.
pub proof fn samples_are_handed_over_in_time(last: u64, now: u64, latencies: nat, lags: nat)
    ensures
        latencies >= 64 || lags >= 64 ==> hands_over(last, now, latencies, lags),
        latencies + lags > 0 && now >= last + 1000 ==> hands_over(last, now, latencies, lags),
        latencies == 0 && lags == 0 ==> !hands_over(last, now, latencies, lags),
        latencies < 64 && lags < 64 && now < last + 1000 ==> !hands_over(
            last,
            now,
            latencies,
            lags,
        ),
{
}

/// How many of the first players fight.
pub open spec fn fighters(n: nat, combat_pct: nat) -> nat
    decreases n,
{
    if n == 0 {
        0
    } else {
        fighters((n - 1) as nat, combat_pct) + if fights((n - 1) as nat, combat_pct) {
            1nat
        } else {
            0nat
        }
    }
}

/// Of every hundred players so many fight, and those come first.
pub proof fn a_share_of_every_hundred_fights(hundreds: nat, more: nat, combat_pct: nat)
    requires
        more <= 100,
        combat_pct <= 100,
    ensures
        fighters(100 * hundreds + more, combat_pct) == hundreds * combat_pct + if more < combat_pct {
            more
        } else {
            combat_pct
        },
    decreases hundreds, more,
{
    if more > 0 {
        a_share_of_every_hundred_fights(hundreds, (more - 1) as nat, combat_pct);
        assert((100 * hundreds + more - 1) as nat % 100 == more - 1);
    } else if hundreds > 0 {
        a_share_of_every_hundred_fights((hundreds - 1) as nat, 100, combat_pct);
        assert(100 * hundreds + more == 100 * (hundreds - 1) + 100);
        assert(hundreds * combat_pct == (hundreds - 1) * combat_pct + combat_pct) by (nonlinear_arith);
    } else {
        assert(0 * combat_pct == 0);
    }
}

/// The creature that is found is seen, is a creature, and none was seen before it; where none is
/// found, none was seen. A creature's guid begins with `F130`.
pub proof fn the_first_creature_is_found(seen: Seq<u64>)
    ensures
        match first_creature(seen) {
            Some(g) => exists|i: int|
                {
                    &&& 0 <= i < seen.len()
                    &&& #[trigger] seen[i] == g
                    &&& 0xF130_0000_0000_0000 <= g < 0xF131_0000_0000_0000
                    &&& forall|j: int|
                        0 <= j < i ==> !(0xF130_0000_0000_0000 <= #[trigger] seen[j]
                            < 0xF131_0000_0000_0000)
                },
            None => forall|j: int|
                0 <= j < seen.len() ==> !(0xF130_0000_0000_0000 <= #[trigger] seen[j]
                    < 0xF131_0000_0000_0000),
        },
    decreases seen.len(),
{
    if seen.len() > 0 {
        let rest = seen.skip(1);
        the_first_creature_is_found(rest);
        if is_creature(seen[0]) {
            assert(seen[0] == first_creature(seen)->0);
        } else {
            if let Some(g) = first_creature(rest) {
                let i = choose|i: int|
                    {
                        &&& 0 <= i < rest.len()
                        &&& #[trigger] rest[i] == g
                        &&& 0xF130_0000_0000_0000 <= g < 0xF131_0000_0000_0000
                        &&& forall|j: int|
                            0 <= j < i ==> !(0xF130_0000_0000_0000 <= #[trigger] rest[j]
                                < 0xF131_0000_0000_0000)
                    };
                assert(seen[i + 1] == g);
                assert forall|j: int| 0 <= j < i + 1 implies !(0xF130_0000_0000_0000
                    <= #[trigger] seen[j] < 0xF131_0000_0000_0000) by {
                    if j > 0 {
                        assert(rest[j - 1] == seen[j]);
                    }
                }
            } else {
                assert forall|j: int| 0 <= j < seen.len() implies !(0xF130_0000_0000_0000
                    <= #[trigger] seen[j] < 0xF131_0000_0000_0000) by {
                    if j > 0 {
                        assert(rest[j - 1] == seen[j]);
                    }
                }
            }
        }
    }
}

/// A player that fights changes its mind every eight seconds and not sooner: it swings at the first
/// creature that it sees, and the next time it stops. One that does not fight never does anything
/// about it.
pub proof fn a_fight_goes_on_and_off(p: Player, now: u64, seen: Seq<u64>)
    requires
        now + 8000 <= u64::MAX,
    ensures
        !p.combat || now < p.next_flip ==> p.flipped(now, seen) == (p, Fight::Hold),
        p.combat && now >= p.next_flip ==> {
            let (q, f) = p.flipped(now, seen);
            &&& q.next_flip == now + 8000
            &&& q.engaged is None
            &&& q.interval == p.interval && q.combat && q.next_hb == p.next_hb && q.hb_count
                == p.hb_count && q.last_flush == p.last_flush
            &&& p.engaged is Some ==> f == Fight::Stop
            &&& p.engaged is None && first_creature(seen) is Some ==> f == Fight::Swing(
                first_creature(seen)->0,
            )
            &&& p.engaged is None && first_creature(seen) is None ==> f == Fight::Hold
        },
{
}

} // verus!
