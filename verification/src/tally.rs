//! What the players of a run have done together: how many came in, are in, were lost or never came
//! in, and the samples that they took. A player gathers its samples by itself, and hands them over
//! in batches.

use vstd::prelude::*;
use crate::player;
use crate::text;

verus! {

/// What all players share.
#[derive(Debug)]
pub struct Tally {
    /// Players that ever came in.
    pub connected: usize,
    /// Players that are in now.
    pub live: usize,
    /// Players that were lost while the run went on.
    pub dropped: usize,
    /// Players that never came in.
    pub failed: usize,
    /// Movements that were sent.
    pub heartbeats: u64,
    /// How long relayed movements took.
    pub latencies: Vec<u32>,
    /// How late players woke up.
    pub lags: Vec<u32>,
    /// Why players did not come in.
    pub errors: Vec<String>,
}

/// What all players share.
pub struct TallyView {
    pub connected: usize,
    pub live: usize,
    pub dropped: usize,
    pub failed: usize,
    pub heartbeats: u64,
    pub latencies: Seq<u32>,
    pub lags: Seq<u32>,
    pub errors: Seq<Seq<char>>,
}

impl View for Tally {
    type V = TallyView;

    open spec fn view(&self) -> TallyView {
        TallyView {
            connected: self.connected,
            live: self.live,
            dropped: self.dropped,
            failed: self.failed,
            heartbeats: self.heartbeats,
            latencies: self.latencies@,
            lags: self.lags@,
            errors: text::texts(self.errors@),
        }
    }
}

/// How far a player is.
#[derive(Clone, Copy, Debug, PartialEq, Eq, Structural)]
pub enum Stage {
    Connecting,
    InWorld,
    /// It never came in.
    Failed,
    /// It left: at the end of the run, or before it.
    Left { early: bool },
}

/// What one player holds by itself: its stage, and the samples that it has not handed over.
#[derive(Debug)]
pub struct Seat {
    stage: Stage,
    latencies: Vec<u32>,
    lags: Vec<u32>,
}

/// What one player holds by itself.
pub struct SeatView {
    pub stage: Stage,
    pub latencies: Seq<u32>,
    pub lags: Seq<u32>,
}

impl View for Seat {
    type V = SeatView;

    closed spec fn view(&self) -> SeatView {
        SeatView { stage: self.stage, latencies: self.latencies@, lags: self.lags@ }
    }
}

/// What happens to a player.
pub enum PlayerEvent {
    /// It cannot come in, in these words.
    Failed(Seq<char>),
    /// It comes in.
    Joined,
    /// It wakes up so late.
    Late(u32),
    /// It moves.
    Moved,
    /// A relayed movement took so long.
    Relayed(u32),
    /// It hands its samples over.
    Flushed,
    /// It leaves, when the run has or has not been stopped.
    Left { stopped: bool },
}

/// One more: a count that is full begins anew.
pub open spec fn more(n: usize) -> usize {
    if n == usize::MAX {
        0
    } else {
        (n + 1) as usize
    }
}

/// One less.
pub open spec fn less(n: usize) -> usize {
    if n == 0 {
        usize::MAX
    } else {
        (n - 1) as usize
    }
}

/// So many movements more.
pub open spec fn beaten(n: u64, times: nat) -> u64
    decreases times,
{
    if times == 0 {
        n
    } else {
        one_more(beaten(n, (times - 1) as nat))
    }
}

/// One movement more.
pub open spec fn one_more(n: u64) -> u64 {
    if n == u64::MAX {
        0
    } else {
        (n + 1) as u64
    }
}

fn add_one(n: usize) -> (m: usize)
    ensures
        m == more(n),
{
    if n == usize::MAX {
        0
    } else {
        n + 1
    }
}

fn take_one(n: usize) -> (m: usize)
    ensures
        m == less(n),
{
    if n == 0 {
        usize::MAX
    } else {
        n - 1
    }
}

/// Errors with one more, as long as there is room.
pub open spec fn kept(errors: Seq<Seq<char>>, said: Seq<char>) -> Seq<Seq<char>> {
    if errors.len() < player::ERROR_LIMIT {
        errors.push(said)
    } else {
        errors
    }
}

/// A player that has not come in yet.
pub open spec fn fresh() -> SeatView {
    SeatView { stage: Stage::Connecting, latencies: Seq::empty(), lags: Seq::empty() }
}

/// The samples handed over.
pub open spec fn handed(t: TallyView, s: SeatView) -> TallyView {
    TallyView { latencies: t.latencies + s.latencies, lags: t.lags + s.lags, ..t }
}

/// What an event does to the tally and to the player. One that does not belong to the player's
/// stage does nothing.
pub open spec fn happened(t: TallyView, s: SeatView, e: PlayerEvent) -> (TallyView, SeatView) {
    match (s.stage, e) {
        (Stage::Connecting, PlayerEvent::Failed(said)) => (
            TallyView { failed: more(t.failed), errors: kept(t.errors, said), ..t },
            SeatView { stage: Stage::Failed, ..s },
        ),
        (Stage::Connecting, PlayerEvent::Joined) => (
            TallyView { connected: more(t.connected), live: more(t.live), ..t },
            SeatView { stage: Stage::InWorld, ..s },
        ),
        (Stage::InWorld, PlayerEvent::Late(lag)) => (t, SeatView { lags: s.lags.push(lag), ..s }),
        (Stage::InWorld, PlayerEvent::Moved) => (
            TallyView { heartbeats: one_more(t.heartbeats), ..t },
            s,
        ),
        (Stage::InWorld, PlayerEvent::Relayed(d)) => (
            t,
            SeatView { latencies: s.latencies.push(d), ..s },
        ),
        (Stage::InWorld, PlayerEvent::Flushed) => (
            handed(t, s),
            SeatView { latencies: Seq::empty(), lags: Seq::empty(), ..s },
        ),
        (Stage::InWorld, PlayerEvent::Left { stopped }) => (
            TallyView {
                live: less(t.live),
                dropped: if stopped {
                    t.dropped
                } else {
                    more(t.dropped)
                },
                ..handed(t, s)
            },
            SeatView {
                stage: Stage::Left { early: !stopped },
                latencies: Seq::empty(),
                lags: Seq::empty(),
            },
        ),
        _ => (t, s),
    }
}

/// A tally before any player.
pub open spec fn blank() -> TallyView {
    TallyView {
        connected: 0,
        live: 0,
        dropped: 0,
        failed: 0,
        heartbeats: 0,
        latencies: Seq::empty(),
        lags: Seq::empty(),
        errors: Seq::empty(),
    }
}

impl Tally {
    /// Before any player.
    pub fn new() -> (t: Tally)
        ensures
            t@ == blank(),
    {
        let t = Tally {
            connected: 0,
            live: 0,
            dropped: 0,
            failed: 0,
            heartbeats: 0,
            latencies: Vec::new(),
            lags: Vec::new(),
            errors: Vec::new(),
        };
        assert(t@.latencies =~= Seq::<u32>::empty());
        assert(t@.lags =~= Seq::<u32>::empty());
        assert(t@.errors =~= Seq::<Seq<char>>::empty());
        t
    }
}

/// What happened in a window.
#[derive(Debug)]
pub struct Window {
    /// Players that are in at its end.
    pub live: usize,
    /// Players that never came in, by its end.
    pub failed: usize,
    /// Players that were lost in it.
    pub dropped: usize,
    /// Movements that were sent in it.
    pub heartbeats: u64,
    pub latencies: Vec<u32>,
    pub lags: Vec<u32>,
}

/// What a window holds.
pub struct WindowView {
    pub live: int,
    pub failed: int,
    pub dropped: int,
    pub heartbeats: int,
    pub latencies: Seq<u32>,
    pub lags: Seq<u32>,
}

impl View for Window {
    type V = WindowView;

    open spec fn view(&self) -> WindowView {
        WindowView {
            live: self.live as int,
            failed: self.failed as int,
            dropped: self.dropped as int,
            heartbeats: self.heartbeats as int,
            latencies: self.latencies@,
            lags: self.lags@,
        }
    }
}

/// A tally without its samples.
pub open spec fn emptied(t: TallyView) -> TallyView {
    TallyView { latencies: Seq::empty(), lags: Seq::empty(), ..t }
}

/// What a window is opened with: the players that were lost and the movements that were sent before.
pub open spec fn marks(t: TallyView) -> (usize, u64) {
    (t.dropped, t.heartbeats)
}

/// The window that a tally closes, where it was opened with these numbers.
pub open spec fn closed(t: TallyView, dropped: usize, heartbeats: u64) -> WindowView {
    WindowView {
        live: t.live as int,
        failed: t.failed as int,
        dropped: player::lead(t.dropped as int, dropped as int),
        heartbeats: player::lead(t.heartbeats as int, heartbeats as int),
        latencies: t.latencies,
        lags: t.lags,
    }
}

impl Tally {
    /// Opens a window: samples from before it are forgotten. Gives the number of players that were
    /// lost and of movements that were sent before it.
    pub fn open_window(&mut self) -> (before: (usize, u64))
        ensures
            final(self)@ == emptied(old(self)@),
            before == marks(old(self)@),
    {
        self.latencies = Vec::new();
        self.lags = Vec::new();
        assert(self.latencies@ =~= Seq::<u32>::empty());
        assert(self.lags@ =~= Seq::<u32>::empty());
        (self.dropped, self.heartbeats)
    }

    /// Closes a window that was opened with these numbers, and takes its samples out.
    pub fn close_window(&mut self, dropped: usize, heartbeats: u64) -> (w: Window)
        ensures
            final(self)@ == emptied(old(self)@),
            w@ == closed(old(self)@, dropped, heartbeats),
    {
        let mut latencies: Vec<u32> = Vec::new();
        let mut lags: Vec<u32> = Vec::new();
        latencies.append(&mut self.latencies);
        lags.append(&mut self.lags);
        assert(latencies@ =~= old(self)@.latencies);
        assert(lags@ =~= old(self)@.lags);
        assert(self.latencies@ =~= Seq::<u32>::empty());
        assert(self.lags@ =~= Seq::<u32>::empty());
        Window {
            live: self.live,
            failed: self.failed,
            dropped: if self.dropped > dropped {
                self.dropped - dropped
            } else {
                0
            },
            heartbeats: if self.heartbeats > heartbeats {
                self.heartbeats - heartbeats
            } else {
                0
            },
            latencies,
            lags,
        }
    }
}

impl Seat {
    /// A player that has not come in yet.
    pub fn new() -> (s: Seat)
        ensures
            s@ == fresh(),
    {
        let s = Seat { stage: Stage::Connecting, latencies: Vec::new(), lags: Vec::new() };
        assert(s@.latencies =~= Seq::<u32>::empty());
        assert(s@.lags =~= Seq::<u32>::empty());
        s
    }

    /// How many latencies and lags the player has not handed over.
    pub fn held(&self) -> (n: (usize, usize))
        ensures
            n.0 == self@.latencies.len(),
            n.1 == self@.lags.len(),
    {
        (self.latencies.len(), self.lags.len())
    }

    /// The player cannot come in.
    pub fn failed(&mut self, tally: &mut Tally, said: String)
        ensures
            (final(tally)@, final(self)@) == happened(
                old(tally)@,
                old(self)@,
                PlayerEvent::Failed(said@),
            ),
    {
        if self.stage == Stage::Connecting {
            let ghost before = tally.errors@;
            tally.failed = add_one(tally.failed);
            player::keep_error(&mut tally.errors, said);
            self.stage = Stage::Failed;
            assert(tally@.errors =~= kept(text::texts(before), said@));
        }
    }

    /// The player comes in.
    pub fn joined(&mut self, tally: &mut Tally)
        ensures
            (final(tally)@, final(self)@) == happened(
                old(tally)@,
                old(self)@,
                PlayerEvent::Joined,
            ),
    {
        if self.stage == Stage::Connecting {
            tally.connected = add_one(tally.connected);
            tally.live = add_one(tally.live);
            self.stage = Stage::InWorld;
        }
    }

    /// The player wakes up so late.
    pub fn late(&mut self, lag: u32)
        ensures
            forall|t: TallyView|
                (t, final(self)@) == #[trigger] happened(t, old(self)@, PlayerEvent::Late(lag)),
    {
        if self.stage == Stage::InWorld {
            self.lags.push(lag);
        }
    }

    /// The player has moved.
    pub fn moved(&self, tally: &mut Tally)
        ensures
            (final(tally)@, self@) == happened(old(tally)@, self@, PlayerEvent::Moved),
    {
        if self.stage == Stage::InWorld {
            tally.heartbeats =
            if tally.heartbeats == u64::MAX {
                0
            } else {
                tally.heartbeats + 1
            };
        }
    }

    /// A relayed movement took so long.
    pub fn relayed(&mut self, latency: u32)
        ensures
            forall|t: TallyView|
                (t, final(self)@) == #[trigger] happened(
                    t,
                    old(self)@,
                    PlayerEvent::Relayed(latency),
                ),
    {
        if self.stage == Stage::InWorld {
            self.latencies.push(latency);
        }
    }

    fn hand_over(&mut self, tally: &mut Tally)
        ensures
            final(tally)@ == handed(old(tally)@, old(self)@),
            final(self)@ == (SeatView {
                stage: old(self)@.stage,
                latencies: Seq::empty(),
                lags: Seq::empty(),
            }),
    {
        tally.latencies.append(&mut self.latencies);
        tally.lags.append(&mut self.lags);
        assert(self.latencies@ =~= Seq::<u32>::empty());
        assert(self.lags@ =~= Seq::<u32>::empty());
    }

    /// The player hands its samples over.
    pub fn flushed(&mut self, tally: &mut Tally)
        ensures
            (final(tally)@, final(self)@) == happened(
                old(tally)@,
                old(self)@,
                PlayerEvent::Flushed,
            ),
    {
        if self.stage == Stage::InWorld {
            self.hand_over(tally);
        }
    }

    /// The player leaves, when the run has or has not been stopped. What it holds is handed over.
    pub fn left(&mut self, tally: &mut Tally, stopped: bool)
        ensures
            (final(tally)@, final(self)@) == happened(
                old(tally)@,
                old(self)@,
                PlayerEvent::Left { stopped },
            ),
    {
        if self.stage == Stage::InWorld {
            self.hand_over(tally);
            tally.live = take_one(tally.live);
            if !stopped {
                tally.dropped = add_one(tally.dropped);
            }
            self.stage = Stage::Left { early: !stopped };
        }
    }
}

// ------------------------------------------------------------------------------------------
//  What one player adds
// ------------------------------------------------------------------------------------------

/// The tally and a player after a row of events.
pub open spec fn run(t: TallyView, s: SeatView, events: Seq<PlayerEvent>) -> (TallyView, SeatView)
    decreases events.len(),
{
    if events.len() == 0 {
        (t, s)
    } else {
        let (u, r) = run(t, s, events.drop_last());
        happened(u, r, events.last())
    }
}

/// How far a player is after a row of events.
pub open spec fn stage_after(events: Seq<PlayerEvent>) -> Stage
    decreases events.len(),
{
    if events.len() == 0 {
        Stage::Connecting
    } else {
        match (stage_after(events.drop_last()), events.last()) {
            (Stage::Connecting, PlayerEvent::Failed(_)) => Stage::Failed,
            (Stage::Connecting, PlayerEvent::Joined) => Stage::InWorld,
            (Stage::InWorld, PlayerEvent::Left { stopped }) => Stage::Left { early: !stopped },
            (stage, _) => stage,
        }
    }
}

/// The latencies that a player takes while it is in.
pub open spec fn latencies_taken(events: Seq<PlayerEvent>) -> Seq<u32>
    decreases events.len(),
{
    if events.len() == 0 {
        Seq::empty()
    } else {
        let before = latencies_taken(events.drop_last());
        match (stage_after(events.drop_last()), events.last()) {
            (Stage::InWorld, PlayerEvent::Relayed(d)) => before.push(d),
            _ => before,
        }
    }
}

/// The lags that a player takes while it is in.
pub open spec fn lags_taken(events: Seq<PlayerEvent>) -> Seq<u32>
    decreases events.len(),
{
    if events.len() == 0 {
        Seq::empty()
    } else {
        let before = lags_taken(events.drop_last());
        match (stage_after(events.drop_last()), events.last()) {
            (Stage::InWorld, PlayerEvent::Late(lag)) => before.push(lag),
            _ => before,
        }
    }
}

/// How often a player moves while it is in.
pub open spec fn moves_made(events: Seq<PlayerEvent>) -> nat
    decreases events.len(),
{
    if events.len() == 0 {
        0
    } else {
        let before = moves_made(events.drop_last());
        match (stage_after(events.drop_last()), events.last()) {
            (Stage::InWorld, PlayerEvent::Moved) => before + 1,
            _ => before,
        }
    }
}

proof fn lemma_samples(a: Seq<u32>, b: Seq<u32>)
    ensures
        (a + b) + Seq::<u32>::empty() == a + b,
        forall|d: u32| #[trigger] (a + b.push(d)) == (a + b).push(d),
{
    assert((a + b) + Seq::<u32>::empty() =~= a + b);
    assert forall|d: u32| #[trigger] (a + b.push(d)) == (a + b).push(d) by {
        assert(a + b.push(d) =~= (a + b).push(d));
    }
}

proof fn lemma_run(t: TallyView, events: Seq<PlayerEvent>)
    ensures
        ({
            let (u, s) = run(t, fresh(), events);
            let joined = TallyView {
                connected: more(t.connected),
                live: more(t.live),
                heartbeats: beaten(t.heartbeats, moves_made(events)),
                latencies: u.latencies,
                lags: u.lags,
                ..t
            };
            &&& s.stage == stage_after(events)
            &&& u.latencies + s.latencies == t.latencies + latencies_taken(events)
            &&& u.lags + s.lags == t.lags + lags_taken(events)
            &&& match s.stage {
                Stage::Connecting => u == t && s == fresh() && moves_made(events) == 0
                    && latencies_taken(events).len() == 0 && lags_taken(events).len() == 0,
                Stage::InWorld => u == joined,
                Stage::Failed => {
                    &&& exists|said: Seq<char>|
                        u == (TallyView {
                            failed: more(t.failed),
                            errors: #[trigger] kept(t.errors, said),
                            ..t
                        })
                    &&& moves_made(events) == 0 && latencies_taken(events).len() == 0
                        && lags_taken(events).len() == 0
                    &&& s.latencies.len() == 0 && s.lags.len() == 0
                },
                Stage::Left { early } => {
                    &&& s.latencies.len() == 0 && s.lags.len() == 0
                    &&& u == (TallyView {
                        live: t.live,
                        dropped: if early {
                            more(t.dropped)
                        } else {
                            t.dropped
                        },
                        ..joined
                    })
                },
            }
        }),
    decreases events.len(),
{
    if events.len() == 0 {
        assert(t.latencies + Seq::<u32>::empty() =~= t.latencies);
        assert(t.lags + Seq::<u32>::empty() =~= t.lags);
    } else {
        let before = events.drop_last();
        lemma_run(t, before);
        let (u, r) = run(t, fresh(), before);
        let (v, s) = run(t, fresh(), events);
        assert(less(more(t.live)) == t.live);
        lemma_samples(u.latencies, r.latencies);
        lemma_samples(u.lags, r.lags);
        lemma_samples(t.latencies, latencies_taken(before));
        lemma_samples(t.lags, lags_taken(before));
        if r.stage == Stage::Connecting && events.last() is Failed {
            let said = events.last()->Failed_0;
            assert(v.errors == kept(t.errors, said));
        }
    }
}

/// A player is counted once. By the time it is done, either it came in or it failed, and exactly
/// one of the two counts has grown, by one. The number of players that are in is what it was. One
/// was lost just if the player had come in and left before the run was stopped. A player that
/// failed took no sample, sent no movement and left one error, unless there was no more room. Of a
/// player that came in, every sample that it took was handed over, in order.
pub proof fn a_player_is_counted_once(t: TallyView, events: Seq<PlayerEvent>)
    requires
        stage_after(events) == Stage::Failed || stage_after(events) is Left,
    ensures
        ({
            let u = run(t, fresh(), events).0;
            let failed = stage_after(events) == Stage::Failed;
            &&& u.failed == if failed {
                more(t.failed)
            } else {
                t.failed
            }
            &&& u.connected == if failed {
                t.connected
            } else {
                more(t.connected)
            }
            &&& u.live == t.live
            &&& u.dropped == if stage_after(events) == (Stage::Left { early: true }) {
                more(t.dropped)
            } else {
                t.dropped
            }
            &&& u.latencies == t.latencies + latencies_taken(events)
            &&& u.lags == t.lags + lags_taken(events)
            &&& u.heartbeats == beaten(t.heartbeats, moves_made(events))
            &&& failed ==> {
                &&& u.latencies == t.latencies
                &&& u.lags == t.lags
                &&& u.heartbeats == t.heartbeats
                &&& if t.errors.len() < player::ERROR_LIMIT {
                    u.errors.len() == t.errors.len() + 1 && u.errors.drop_last() == t.errors
                } else {
                    u.errors == t.errors
                }
            }
            &&& !failed ==> u.errors == t.errors
        }),
{
    lemma_run(t, events);
    let (u, s) = run(t, fresh(), events);
    assert(u.latencies + s.latencies =~= u.latencies);
    assert(u.lags + s.lags =~= u.lags);
    if stage_after(events) == Stage::Failed {
        assert(u.latencies =~= t.latencies);
        assert(u.lags =~= t.lags);
        let said = choose|said: Seq<char>|
            u == (TallyView {
                failed: more(t.failed),
                errors: #[trigger] kept(t.errors, said),
                ..t
            });
        assert(kept(t.errors, said).len() > 0 ==> t.errors.len() < player::ERROR_LIMIT ==> kept(
            t.errors,
            said,
        ).drop_last() =~= t.errors);
    }
}

/// What a player adds does not depend on what the others have added: it goes through the same
/// stages and holds the same samples, whatever the tally says, and hands the same samples over.
pub proof fn a_players_part_is_its_own(
    t: TallyView,
    u: TallyView,
    s: SeatView,
    e: PlayerEvent,
)
    ensures
        happened(t, s, e).1 == happened(u, s, e).1,
        exists|latencies: Seq<u32>, lags: Seq<u32>|
            {
                &&& happened(t, s, e).0.latencies == #[trigger] (t.latencies + latencies)
                &&& happened(u, s, e).0.latencies == u.latencies + latencies
                &&& happened(t, s, e).0.lags == #[trigger] (t.lags + lags)
                &&& happened(u, s, e).0.lags == u.lags + lags
            },
{
    let none = Seq::<u32>::empty();
    assert(t.latencies + none =~= t.latencies);
    assert(t.lags + none =~= t.lags);
    assert(u.latencies + none =~= u.latencies);
    assert(u.lags + none =~= u.lags);
    let (a, b) = match (s.stage, e) {
        (Stage::InWorld, PlayerEvent::Flushed) => (s.latencies, s.lags),
        (Stage::InWorld, PlayerEvent::Left { .. }) => (s.latencies, s.lags),
        _ => (none, none),
    };
    assert(happened(t, s, e).0.latencies == t.latencies + a);
    assert(happened(t, s, e).0.lags == t.lags + b);
}

// ------------------------------------------------------------------------------------------
//  What all players add
// ------------------------------------------------------------------------------------------

/// The tally and all players after what happened to each, in whatever order.
pub open spec fn crowd(players: nat, events: Seq<(int, PlayerEvent)>) -> (TallyView, Seq<SeatView>)
    decreases events.len(),
{
    if events.len() == 0 {
        (blank(), Seq::new(players, |i: int| fresh()))
    } else {
        let (t, seats) = crowd(players, events.drop_last());
        let (i, e) = events.last();
        if 0 <= i < seats.len() {
            let (u, s) = happened(t, seats[i], e);
            (u, seats.update(i, s))
        } else {
            (t, seats)
        }
    }
}

/// How many players are at a stage of some kind.
pub open spec fn at_stage(seats: Seq<SeatView>, kind: spec_fn(Stage) -> bool) -> nat
    decreases seats.len(),
{
    if seats.len() == 0 {
        0
    } else {
        at_stage(seats.drop_last(), kind) + if kind(seats.last().stage) {
            1nat
        } else {
            0nat
        }
    }
}

/// A player that has come in, and is in or has left.
pub open spec fn came_in() -> spec_fn(Stage) -> bool {
    |s: Stage| s == Stage::InWorld || s is Left
}

/// A player that is in.
pub open spec fn is_in() -> spec_fn(Stage) -> bool {
    |s: Stage| s == Stage::InWorld
}

/// A player that left before the run was stopped.
pub open spec fn was_lost() -> spec_fn(Stage) -> bool {
    |s: Stage| s == (Stage::Left { early: true })
}

/// A player that never came in.
pub open spec fn never_came_in() -> spec_fn(Stage) -> bool {
    |s: Stage| s == Stage::Failed
}

proof fn lemma_moved(seats: Seq<SeatView>, i: int, s: SeatView, kind: spec_fn(Stage) -> bool)
    requires
        0 <= i < seats.len(),
    ensures
        at_stage(seats.update(i, s), kind) + (if kind(seats[i].stage) {
            1nat
        } else {
            0nat
        }) == at_stage(seats, kind) + (if kind(s.stage) {
            1nat
        } else {
            0nat
        }),
        at_stage(seats, kind) <= seats.len(),
        at_stage(seats.update(i, s), kind) <= seats.len(),
    decreases seats.len(),
{
    let after = seats.update(i, s);
    lemma_within(seats, kind);
    lemma_within(after, kind);
    if i == seats.len() - 1 {
        assert(after.drop_last() =~= seats.drop_last());
    } else {
        assert(after.drop_last() =~= seats.drop_last().update(i, s));
        lemma_moved(seats.drop_last(), i, s, kind);
    }
}

proof fn lemma_within(seats: Seq<SeatView>, kind: spec_fn(Stage) -> bool)
    ensures
        at_stage(seats, kind) <= seats.len(),
    decreases seats.len(),
{
    if seats.len() > 0 {
        lemma_within(seats.drop_last(), kind);
    }
}

proof fn lemma_nobody(players: nat, kind: spec_fn(Stage) -> bool)
    requires
        !kind(Stage::Connecting),
    ensures
        at_stage(Seq::new(players, |i: int| fresh()), kind) == 0,
    decreases players,
{
    if players > 0 {
        lemma_nobody((players - 1) as nat, kind);
        assert(Seq::new(players, |i: int| fresh()).drop_last() =~= Seq::new(
            (players - 1) as nat,
            |i: int| fresh(),
        ));
    }
}

/// In whatever order things happen to the players, the counts are those of the players: the number
/// that came in, that are in now, that were lost and that never came in.
pub proof fn the_counts_are_those_of_the_players(players: nat, events: Seq<(int, PlayerEvent)>)
    requires
        players <= usize::MAX,
    ensures
        ({
            let (t, seats) = crowd(players, events);
            &&& seats.len() == players
            &&& t.connected == at_stage(seats, came_in())
            &&& t.live == at_stage(seats, is_in())
            &&& t.dropped == at_stage(seats, was_lost())
            &&& t.failed == at_stage(seats, never_came_in())
        }),
    decreases events.len(),
{
    if events.len() == 0 {
        lemma_nobody(players, came_in());
        lemma_nobody(players, is_in());
        lemma_nobody(players, was_lost());
        lemma_nobody(players, never_came_in());
    } else {
        the_counts_are_those_of_the_players(players, events.drop_last());
        let (t, seats) = crowd(players, events.drop_last());
        let (i, e) = events.last();
        if 0 <= i < seats.len() {
            let s = happened(t, seats[i], e).1;
            lemma_moved(seats, i, s, came_in());
            lemma_moved(seats, i, s, is_in());
            lemma_moved(seats, i, s, was_lost());
            lemma_moved(seats, i, s, never_came_in());
        }
    }
}

/// A window tells what happened between its opening and its closing: the players that were lost, the
/// movements that were sent and the samples that were handed over in between, and no others; and which
/// players are in and which failed at its end.
pub proof fn a_window_tells_what_happened_in_it(before: TallyView, after: TallyView)
    requires
        before.dropped <= after.dropped,
        before.heartbeats <= after.heartbeats,
    ensures
        emptied(before).latencies.len() == 0 && emptied(before).lags.len() == 0,
        emptied(before).live == before.live && emptied(before).connected == before.connected && emptied(
            before,
        ).dropped == before.dropped && emptied(before).failed == before.failed && emptied(
            before,
        ).heartbeats == before.heartbeats && emptied(before).errors == before.errors,
        ({
            let m = marks(emptied(before));
            let w = closed(after, m.0, m.1);
            &&& w.dropped == after.dropped - before.dropped
            &&& w.heartbeats == after.heartbeats - before.heartbeats
            &&& w.live == after.live && w.failed == after.failed
            &&& w.latencies == after.latencies && w.lags == after.lags
        }),
{
}

/// The movements and samples of one player between the opening and the closing of a window are those
/// of the window: every movement counts once, and every sample that was handed over is there, in order.
pub proof fn a_window_holds_what_a_player_did(t: TallyView, s: SeatView, late: u32, took: u32)
    requires
        s.stage == Stage::InWorld,
        s.latencies.len() == 0 && s.lags.len() == 0,
        t.heartbeats < u64::MAX,
    ensures
        ({
            let open = emptied(t);
            let (a, p) = happened(open, s, PlayerEvent::Late(late));
            let (b, q) = happened(a, p, PlayerEvent::Moved);
            let (c, r) = happened(b, q, PlayerEvent::Relayed(took));
            let (d, u) = happened(c, r, PlayerEvent::Flushed);
            let w = closed(d, marks(open).0, marks(open).1);
            &&& w.heartbeats == 1 && w.dropped == 0
            &&& w.latencies == seq![took] && w.lags == seq![late]
            &&& closed(c, marks(open).0, marks(open).1).latencies.len() == 0
            &&& u.latencies.len() == 0 && u.lags.len() == 0 && u.stage == Stage::InWorld
        }),
{
    let open = emptied(t);
    let (a, p) = happened(open, s, PlayerEvent::Late(late));
    let (b, q) = happened(a, p, PlayerEvent::Moved);
    let (c, r) = happened(b, q, PlayerEvent::Relayed(took));
    let (d, u) = happened(c, r, PlayerEvent::Flushed);
    assert(d.latencies =~= seq![took]);
    assert(d.lags =~= seq![late]);
}

/// A player that fails is told of, as long as fewer than the limit were; one that leaves before the run
/// was stopped is lost, and one that leaves after is not.
pub proof fn a_player_that_goes_is_told_of(t: TallyView, s: SeatView, said: Seq<char>, stopped: bool)
    requires
        t.failed < usize::MAX && t.dropped < usize::MAX && t.live > 0,
    ensures
        s.stage == Stage::Connecting ==> ({
            let (a, p) = happened(t, s, PlayerEvent::Failed(said));
            &&& a.failed == t.failed + 1 && p.stage == Stage::Failed
            &&& t.errors.len() < 200 ==> a.errors == t.errors.push(said)
            &&& t.errors.len() >= 200 ==> a.errors == t.errors
            &&& a.live == t.live && a.connected == t.connected && a.dropped == t.dropped
        }),
        s.stage == Stage::InWorld ==> ({
            let (a, p) = happened(t, s, PlayerEvent::Left { stopped });
            &&& a.live == t.live - 1
            &&& stopped ==> a.dropped == t.dropped
            &&& !stopped ==> a.dropped == t.dropped + 1
            &&& a.latencies == t.latencies + s.latencies && a.lags == t.lags + s.lags
            &&& a.connected == t.connected && a.failed == t.failed
        }),
{
}

} // verus!
