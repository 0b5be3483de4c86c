//! The long-running bot: a reproducible walk, a cast now and then, and fights that start and stop.
//! Times are milliseconds of one clock.

use vstd::prelude::*;
use crate::player::{creature_in, Fight, COMBAT_FLIP_MS};
use crate::player;

verus! {

/// How often the bot casts.
pub const CAST_MS: u64 = 10000;

/// The first number of the walk.
pub const SEED: u64 = 0x5eed_5eed;

/// The factor of the walk's generator.
pub const FACTOR: u64 = 6364136223846793005;

/// The step of the walk's generator.
pub const STEP: u64 = 1442695040888963407;

/// The number after a number of the walk.
pub open spec fn next_number(n: int) -> int {
    ((n * FACTOR) % 0x1_0000_0000_0000_0000 + STEP) % 0x1_0000_0000_0000_0000
}

/// A step of the walk: where to, in tenths of a yard from the centre, and its stamp.
#[derive(Clone, Copy, PartialEq, Eq, Structural, Debug)]
pub struct Stride {
    pub dx_tenths: i32,
    pub dy_tenths: i32,
    pub stamp: u32,
}

/// The bot.
pub struct Soak {
    pub rng: u64,
    pub heartbeats: u64,
    pub casts: u64,
    pub engages: u64,
    pub packets: u64,
    pub recv_timeouts: u64,
    pub engaged: Option<u64>,
    pub last_cast: u64,
    pub last_flip: u64,
}

/// One more, or the most there is.
pub open spec fn more(n: int) -> int {
    if n < u64::MAX {
        n + 1
    } else {
        n
    }
}

fn one_more(n: u64) -> (m: u64)
    ensures
        m == more(n as int),
{
    if n < u64::MAX {
        n + 1
    } else {
        n
    }
}

/// Whom the bot fights next: the targets it was given in turn, or the first creature it has seen.
pub open spec fn next_target(targets: Seq<u64>, engages: int, seen: Seq<u64>) -> Option<u64> {
    if targets.len() == 0 {
        player::first_creature(seen)
    } else {
        Some(targets[engages % targets.len() as int])
    }
}

impl Soak {
    /// A bot that starts now.
    pub open spec fn fresh(now: u64) -> Soak {
        Soak {
            rng: SEED,
            heartbeats: 0,
            casts: 0,
            engages: 0,
            packets: 0,
            recv_timeouts: 0,
            engaged: None,
            last_cast: now,
            last_flip: now,
        }
    }

    /// After the next step of the walk, and the step.
    pub open spec fn strode(self) -> (Soak, Stride) {
        let rng = next_number(self.rng as int);
        (
            Soak { rng: rng as u64, heartbeats: more(self.heartbeats as int) as u64, ..self },
            Stride {
                dx_tenths: ((rng / 0x2_0000_0000) % 300 - 150) as i32,
                dy_tenths: ((rng / 0x800_0000_0000) % 300 - 150) as i32,
                stamp: (((self.heartbeats % 0x1_0000_0000) * 400) % 0x1_0000_0000) as u32,
            },
        )
    }

    /// After it was looked at whether it casts, and whether it does.
    pub open spec fn casting(self, now: u64) -> (Soak, bool) {
        if player::lead(now as int, self.last_cast as int) >= CAST_MS {
            (Soak { casts: more(self.casts as int) as u64, last_cast: now, ..self }, true)
        } else {
            (self, false)
        }
    }

    /// After it looked after its fight, and what it does about it.
    pub open spec fn flipping(self, now: u64, targets: Seq<u64>, seen: Seq<u64>) -> (Soak, Fight) {
        if player::lead(now as int, self.last_flip as int) < COMBAT_FLIP_MS {
            (self, Fight::Hold)
        } else {
            match self.engaged {
                Some(_) => (Soak { engaged: None, last_flip: now, ..self }, Fight::Stop),
                None => match next_target(targets, self.engages as int, seen) {
                    Some(t) => (
                        Soak {
                            engaged: Some(t),
                            engages: more(self.engages as int) as u64,
                            last_flip: now,
                            ..self
                        },
                        Fight::Swing(t),
                    ),
                    None => (Soak { last_flip: now, ..self }, Fight::Hold),
                },
            }
        }
    }

    /// After a frame was read, or none came.
    pub open spec fn reading(self, frame: bool) -> Soak {
        if frame {
            Soak { packets: more(self.packets as int) as u64, ..self }
        } else {
            Soak { recv_timeouts: more(self.recv_timeouts as int) as u64, ..self }
        }
    }

    /// A bot that starts now.
    pub fn new(now: u64) -> (s: Soak)
        ensures
            s == Soak::fresh(now),
    {
        Soak {
            rng: SEED,
            heartbeats: 0,
            casts: 0,
            engages: 0,
            packets: 0,
            recv_timeouts: 0,
            engaged: None,
            last_cast: now,
            last_flip: now,
        }
    }

    /// The next step of the walk.
    pub fn stride(&mut self) -> (s: Stride)
        ensures
            (*final(self), s) == old(self).strode(),
    {
        let a: u64 = self.rng.wrapping_mul(FACTOR);
        self.rng = a.wrapping_add(STEP);
        let dx: u64 = (self.rng / 0x2_0000_0000) % 300;
        let dy: u64 = (self.rng / 0x800_0000_0000) % 300;
        let stamp: u32 = (((self.heartbeats % 0x1_0000_0000) * 400) % 0x1_0000_0000) as u32;
        self.heartbeats = one_more(self.heartbeats);
        let s = Stride { dx_tenths: dx as i32 - 150, dy_tenths: dy as i32 - 150, stamp };
        assert(s == old(self).strode().1);
        s
    }

    /// Whether the bot casts now.
    pub fn cast(&mut self, now: u64) -> (yes: bool)
        ensures
            (*final(self), yes) == old(self).casting(now),
    {
        if now > self.last_cast && now - self.last_cast >= CAST_MS {
            self.casts = one_more(self.casts);
            self.last_cast = now;
            true
        } else {
            false
        }
    }

    /// What the bot does about its fight.
    pub fn flip(&mut self, now: u64, targets: &Vec<u64>, seen: &Vec<u64>) -> (f: Fight)
        ensures
            (*final(self), f) == old(self).flipping(now, targets@, seen@),
    {
        if now <= self.last_flip || now - self.last_flip < COMBAT_FLIP_MS {
            return Fight::Hold;
        }
        self.last_flip = now;
        match self.engaged.take() {
            Some(_) => Fight::Stop,
            None => {
                let pick: Option<u64> = if targets.len() == 0 {
                    creature_in(seen)
                } else {
                    let n: u64 = targets.len() as u64;
                    let at: usize = (self.engages % n) as usize;
                    Some(targets[at])
                };
                match pick {
                    Some(t) => {
                        self.engages = one_more(self.engages);
                        self.engaged = Some(t);
                        Fight::Swing(t)
                    },
                    None => Fight::Hold,
                }
            },
        }
    }

    /// A frame was read, or none came.
    pub fn read(&mut self, frame: bool)
        ensures
            *final(self) == old(self).reading(frame),
    {
        if frame {
            self.packets = one_more(self.packets);
        } else {
            self.recv_timeouts = one_more(self.recv_timeouts);
        }
    }
}

/// The walk stays within fifteen yards of its centre, on both axes.
pub proof fn the_walk_stays_near(rng: u64, s: Stride)
    requires
        s.dx_tenths == (rng / 0x2_0000_0000) % 300 - 150,
        s.dy_tenths == (rng / 0x800_0000_0000) % 300 - 150,
    ensures
        -150 <= s.dx_tenths < 150,
        -150 <= s.dy_tenths < 150,
{
}

/// The walk is a linear congruence over sixty-four bits: each number is the one before it times a factor
/// and a step more, and each stride comes from the high bits of the number that it moves on to.
pub proof fn the_walk_is_a_congruence(s: Soak)
    requires
        s.heartbeats < 10_000_000,
    ensures
        ({
            let (after, stride) = s.strode();
            let n = (s.rng * 6364136223846793005 + 1442695040888963407) % 0x1_0000_0000_0000_0000;
            &&& after.rng == n
            &&& stride.dx_tenths == (n / 8589934592) % 300 - 150
            &&& stride.dy_tenths == (n / 8796093022208) % 300 - 150
            &&& stride.stamp == 400 * s.heartbeats
            &&& after.heartbeats == s.heartbeats + 1
            &&& after.casts == s.casts && after.engages == s.engages && after.engaged == s.engaged
                && after.last_cast == s.last_cast && after.last_flip == s.last_flip
        }),
{
    let m: int = 0x1_0000_0000_0000_0000;
    let p = s.rng * 6364136223846793005;
    vstd::arithmetic::div_mod::lemma_add_mod_noop_right(1442695040888963407, p, m);
    assert((p % m + 1442695040888963407) % m == (p + 1442695040888963407) % m);
    let n = (p + 1442695040888963407) % m;
    assert(0 <= n < m);
}

/// The bot casts whenever ten seconds have passed since it last did, counts it, and begins anew; it never casts
/// twice at one time.
pub proof fn a_bot_casts_in_time(s: Soak, now: u64)
    requires
        s.casts < u64::MAX,
        s.last_cast <= now,
    ensures
        s.casting(now).1 <==> now - s.last_cast >= 10_000,
        s.casting(now).1 ==> s.casting(now).0.casts == s.casts + 1 && s.casting(now).0.last_cast == now
            && !s.casting(now).0.casting(now).1,
        !s.casting(now).1 ==> s.casting(now).0 == s,
        s.casting(now).0.engaged == s.engaged && s.casting(now).0.rng == s.rng,
{
}

/// The bot turns to a fight and away from it in turn, each time its time is up: to the targets that it was
/// given one after another, or to the first creature that it sees.
pub proof fn a_bot_fights_in_turn(s: Soak, now: u64, targets: Seq<u64>, seen: Seq<u64>)
    requires
        s.engages < u64::MAX,
        s.last_flip <= now,
    ensures
        now - s.last_flip < 8000 ==> s.flipping(now, targets, seen) == (s, Fight::Hold),
        now - s.last_flip >= 8000 ==> {
            let (after, f) = s.flipping(now, targets, seen);
            &&& after.last_flip == now
            &&& s.engaged is Some ==> f == Fight::Stop && after.engaged is None && after.engages
                == s.engages
            &&& s.engaged is None && targets.len() > 0 ==> f == Fight::Swing(
                targets[s.engages as int % targets.len() as int],
            ) && after.engages == s.engages + 1 && after.engaged is Some
            &&& s.engaged is None && targets.len() == 0 ==> match player::first_creature(seen) {
                Some(t) => f == Fight::Swing(t) && after.engaged == Some(t),
                None => f == Fight::Hold && after.engaged is None,
            }
        },
{
}

/// Every read is counted, as a frame or as a timeout.
pub proof fn every_read_is_counted(s: Soak, frame: bool)
    requires
        s.packets < u64::MAX && s.recv_timeouts < u64::MAX,
    ensures
        s.reading(frame).packets + s.reading(frame).recv_timeouts == s.packets + s.recv_timeouts + 1,
        frame <==> s.reading(frame).packets == s.packets + 1,
        Soak::fresh(s.last_cast).packets == 0 && Soak::fresh(s.last_cast).rng == 0x5eed_5eed
            && Soak::fresh(s.last_cast).last_cast == s.last_cast && Soak::fresh(
            s.last_cast,
        ).last_flip == s.last_cast,
{
}

} // verus!
