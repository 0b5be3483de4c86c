//! Speakers and listeners: who is online, who is a friend, who hears what, and what a gossip leads
//! to.

use vstd::prelude::*;
use crate::party;
use crate::text;

verus! {

// ------------------------------------------------------------------------------------------
//  Who
// ------------------------------------------------------------------------------------------

/// Why a list of players is not the one that was wanted.
#[derive(Clone, Copy, Debug, PartialEq, Eq, Structural)]
pub enum WhoFault {
    NobodyOnline,
    NotListed,
}

/// Why a list of players is not the one that was wanted, if so.
pub open spec fn who_fault(online: u32, names: Seq<Seq<char>>, want: Seq<char>) -> Option<WhoFault> {
    if online == 0 {
        Some(WhoFault::NobodyOnline)
    } else if !party::on_list(names, want) {
        Some(WhoFault::NotListed)
    } else {
        None
    }
}

/// Judges a list of players: someone is online, and the one that was wanted is on it.
pub fn check_who(online: u32, names: &Vec<String>, want: &str) -> (f: Option<WhoFault>)
    ensures
        f == who_fault(online, text::texts(names@), want@),
{
    if online == 0 {
        Some(WhoFault::NobodyOnline)
    } else if !party::lists(names, want) {
        Some(WhoFault::NotListed)
    } else {
        None
    }
}

// ------------------------------------------------------------------------------------------
//  Friends
// ------------------------------------------------------------------------------------------

/// What the server says of a friend.
#[derive(Clone, Copy, Debug, PartialEq, Eq, Structural)]
pub enum FriendResult {
    AddedOnline,
    AddedOffline,
    Already,
    IgnoreAdded,
    Other,
}

/// Whether a friend was added, now or before.
pub fn befriended(r: FriendResult) -> (yes: bool)
    ensures
        yes == (r == FriendResult::AddedOnline || r == FriendResult::AddedOffline || r
            == FriendResult::Already),
{
    match r {
        FriendResult::AddedOnline | FriendResult::AddedOffline | FriendResult::Already => true,
        _ => false,
    }
}

/// Whether someone is ignored from now on.
pub fn ignored(r: FriendResult) -> (yes: bool)
    ensures
        yes == (r == FriendResult::IgnoreAdded),
{
    match r {
        FriendResult::IgnoreAdded => true,
        _ => false,
    }
}

/// A friend on a list.
#[derive(Clone, Copy, Debug, PartialEq, Eq, Structural)]
pub struct Friend {
    pub guid: u64,
    pub online: bool,
}

/// What is seen of the lists of friends.
pub enum FriendEvent {
    /// The list of friends.
    Friends(Vec<Friend>),
    /// The list of those ignored.
    Ignored,
    Other,
}

/// How the lists stand.
#[derive(Clone, Copy, Debug, PartialEq, Eq, Structural)]
pub enum FriendState {
    /// So far.
    Open { friends: bool, ignored: bool },
    /// Both have come.
    Both,
    /// The friend is not on the list.
    Absent,
    /// The friend is not online.
    Offline,
}

/// The first friend with a guid.
pub open spec fn friend_row(v: Seq<Friend>, guid: u64) -> Option<Friend>
    decreases v.len(),
{
    if v.len() == 0 {
        None
    } else if v[0].guid == guid {
        Some(v[0])
    } else {
        friend_row(v.skip(1), guid)
    }
}

fn find_friend(v: &Vec<Friend>, guid: u64) -> (f: Option<Friend>)
    ensures
        f == friend_row(v@, guid),
{
    assert(v@.skip(0) =~= v@);
    for i in 0..v.len()
        invariant
            friend_row(v@.skip(i as int), guid) == friend_row(v@, guid),
    {
        assert(v@.skip(i as int)[0] == v@[i as int]);
        assert(v@.skip(i as int).skip(1) =~= v@.skip(i + 1));
        if v[i].guid == guid {
            return Some(v[i]);
        }
    }
    assert(v@.skip(v@.len() as int).len() == 0);
    None
}

/// What two lists make.
pub open spec fn both_lists(friends: bool, ignored: bool) -> FriendState {
    if friends && ignored {
        FriendState::Both
    } else {
        FriendState::Open { friends, ignored }
    }
}

/// How the lists stand, once something more is seen.
pub open spec fn friends_after(s: FriendState, e: FriendEvent, guid: u64) -> FriendState {
    match s {
        FriendState::Open { friends, ignored } => match e {
            FriendEvent::Friends(v) => match friend_row(v@, guid) {
                None => FriendState::Absent,
                Some(f) => if f.online {
                    both_lists(true, ignored)
                } else {
                    FriendState::Offline
                },
            },
            FriendEvent::Ignored => both_lists(friends, true),
            FriendEvent::Other => s,
        },
        _ => s,
    }
}

/// The friend was seen online.
pub open spec fn friend_seen(s: FriendState) -> bool {
    match s {
        FriendState::Both => true,
        FriendState::Open { friends, .. } => friends,
        _ => false,
    }
}

fn join_lists(friends: bool, ignored: bool) -> (s: FriendState)
    ensures
        s == both_lists(friends, ignored),
{
    if friends && ignored {
        FriendState::Both
    } else {
        FriendState::Open { friends, ignored }
    }
}

impl FriendState {
    /// No list has come.
    pub fn new() -> (s: FriendState)
        ensures
            s == (FriendState::Open { friends: false, ignored: false }),
    {
        FriendState::Open { friends: false, ignored: false }
    }

    /// Notes what is seen.
    pub fn observe(&mut self, e: &FriendEvent, guid: u64)
        ensures
            *final(self) == friends_after(*old(self), *e, guid),
    {
        match *self {
            FriendState::Open { friends, ignored } => match e {
                FriendEvent::Friends(v) => {
                    *self = match find_friend(v, guid) {
                        None => FriendState::Absent,
                        Some(f) => if f.online {
                            join_lists(true, ignored)
                        } else {
                            FriendState::Offline
                        },
                    };
                },
                FriendEvent::Ignored => {
                    *self = join_lists(friends, true);
                },
                FriendEvent::Other => {},
            },
            _ => {},
        }
    }

    /// Whether the friend was seen online, when the time is up. The list of those ignored is not
    /// insisted on.
    pub fn passed(&self) -> (yes: bool)
        ensures
            yes == friend_seen(*self),
    {
        match *self {
            FriendState::Both => true,
            FriendState::Open { friends, ignored: _ } => friends,
            _ => false,
        }
    }
}

// ------------------------------------------------------------------------------------------
//  Hearing
// ------------------------------------------------------------------------------------------

/// Whether what was heard is what was said.
pub fn heard(words: &Option<String>, said: &str) -> (yes: bool)
    ensures
        yes == (text::text_of(*words) == Some(said@)),
{
    match words {
        Some(w) => text::same_text(w.as_str(), said),
        None => false,
    }
}

/// Why a range of hearing fails.
#[derive(Clone, Copy, Debug, PartialEq, Eq, Structural)]
pub enum RangeFault {
    /// The speaker did not hear itself.
    NoEcho,
    /// A listener heard it that is too far away.
    HeardAfar,
}

/// Why a range of hearing fails, if it does.
pub open spec fn range_fault(speaker_heard: bool, listener_heard: bool) -> Option<RangeFault> {
    if !speaker_heard {
        Some(RangeFault::NoEcho)
    } else if listener_heard {
        Some(RangeFault::HeardAfar)
    } else {
        None
    }
}

/// Judges a range of hearing.
pub fn check_range(speaker_heard: bool, listener_heard: bool) -> (f: Option<RangeFault>)
    ensures
        f == range_fault(speaker_heard, listener_heard),
{
    if !speaker_heard {
        Some(RangeFault::NoEcho)
    } else if listener_heard {
        Some(RangeFault::HeardAfar)
    } else {
        None
    }
}

/// Why an inspection fails.
#[derive(Clone, Copy, Debug, PartialEq, Eq, Structural)]
pub enum InspectFault {
    NearSilent,
    FarAnswered,
}

/// Why two inspections fail, if they do.
pub open spec fn inspect_fault(near: Option<u64>, want: u64, far: Option<u64>) -> Option<
    InspectFault,
> {
    if near != Some(want) {
        Some(InspectFault::NearSilent)
    } else if far is Some {
        Some(InspectFault::FarAnswered)
    } else {
        None
    }
}

/// Judges two inspections: the near one is answered with its guid, the far one is not answered.
pub fn check_inspect(near: Option<u64>, want: u64, far: Option<u64>) -> (f: Option<InspectFault>)
    ensures
        f == inspect_fault(near, want, far),
{
    let answered: bool = match near {
        Some(g) => g == want,
        None => false,
    };
    if !answered {
        Some(InspectFault::NearSilent)
    } else if far.is_some() {
        Some(InspectFault::FarAnswered)
    } else {
        None
    }
}

/// What a gesture's name has to be.
#[derive(Clone, Copy, Debug, PartialEq, Eq, Structural)]
pub enum EmoteFault {
    NoName,
    OtherName,
}

/// Why the name in a gesture is not the one that was wanted, if so.
pub open spec fn emote_fault(name: Option<Seq<char>>, want: Seq<char>) -> Option<EmoteFault> {
    match name {
        None => Some(EmoteFault::NoName),
        Some(n) => if n == want {
            None
        } else {
            Some(EmoteFault::OtherName)
        },
    }
}

/// Judges the name in a gesture.
pub fn check_emote(name: &Option<String>, want: &str) -> (f: Option<EmoteFault>)
    ensures
        f == emote_fault(text::text_of(*name), want@),
{
    match name {
        None => Some(EmoteFault::NoName),
        Some(n) => if text::same_text(n.as_str(), want) {
            None
        } else {
            Some(EmoteFault::OtherName)
        },
    }
}

// ------------------------------------------------------------------------------------------
//  Gossip
// ------------------------------------------------------------------------------------------

/// What is seen of a gossip.
#[derive(Clone, Copy, Debug, PartialEq, Eq, Structural)]
pub enum GossipEvent {
    /// The menu, with the number of its text.
    Menu { text_id: u32 },
    /// The window closes.
    Complete,
    /// The list of a trainer.
    Trainer,
    /// A spell was bought.
    Bought,
    /// A spell took the place of another.
    Superceded,
    /// A purchase is refused.
    Refused,
    /// A spell was learned.
    Learned,
    /// The time is up, or nothing more comes.
    Silence,
    Other,
}

/// Where a gossip stands.
#[derive(Clone, Copy, Debug, PartialEq, Eq, Structural)]
pub enum GossipPhase {
    /// The greeting was sent.
    Greeting,
    /// An option was chosen.
    Selecting,
    /// A spell is being bought.
    Buying,
    /// It is over.
    Over,
}

/// What a gossip does next.
#[derive(Clone, Copy, Debug, PartialEq, Eq, Structural)]
pub enum GossipAction {
    /// It waits.
    Wait,
    /// It asks for a text.
    AskText(u32),
    /// It chooses an option.
    Select(u32),
    /// It buys a spell.
    Buy(u32),
    /// It ends.
    End,
}

/// A gossip with someone, and what it is to lead to.
#[derive(Clone, Copy, Debug, PartialEq, Eq, Structural)]
pub struct Gossip {
    pub select: Option<u32>,
    pub buy: Option<u32>,
    pub phase: GossipPhase,
    pub saw_menu: bool,
}

impl Gossip {
    /// A gossip that begins.
    pub fn new(select: Option<u32>, buy: Option<u32>) -> (g: Gossip)
        ensures
            g == (Gossip { select, buy, phase: GossipPhase::Greeting, saw_menu: false }),
    {
        Gossip { select, buy, phase: GossipPhase::Greeting, saw_menu: false }
    }

    /// Once something more is seen.
    pub open spec fn after(self, e: GossipEvent) -> (Gossip, GossipAction) {
        match self.phase {
            GossipPhase::Greeting => match e {
                GossipEvent::Menu { text_id } => (
                    Gossip { saw_menu: true, ..self },
                    GossipAction::AskText(text_id),
                ),
                GossipEvent::Silence => match self.select {
                    Some(option) => (
                        Gossip { phase: GossipPhase::Selecting, ..self },
                        GossipAction::Select(option),
                    ),
                    None => (Gossip { phase: GossipPhase::Over, ..self }, GossipAction::End),
                },
                _ => (self, GossipAction::Wait),
            },
            GossipPhase::Selecting => match e {
                GossipEvent::Trainer => match self.buy {
                    Some(spell) => (
                        Gossip { phase: GossipPhase::Buying, ..self },
                        GossipAction::Buy(spell),
                    ),
                    None => (Gossip { phase: GossipPhase::Over, ..self }, GossipAction::End),
                },
                GossipEvent::Complete | GossipEvent::Silence => (
                    Gossip { phase: GossipPhase::Over, ..self },
                    GossipAction::End,
                ),
                _ => (self, GossipAction::Wait),
            },
            GossipPhase::Buying => match e {
                GossipEvent::Superceded | GossipEvent::Refused | GossipEvent::Learned
                | GossipEvent::Silence => (
                    Gossip { phase: GossipPhase::Over, ..self },
                    GossipAction::End,
                ),
                _ => (self, GossipAction::Wait),
            },
            GossipPhase::Over => (self, GossipAction::End),
        }
    }

    /// How long the next reply is waited for, in seconds.
    pub fn window_secs(&self) -> (secs: u64)
        ensures
            secs == if self.phase == GossipPhase::Buying {
                4u64
            } else {
                3
            },
    {
        match self.phase {
            GossipPhase::Buying => 4,
            _ => 3,
        }
    }

    /// Notes what is seen, and says what comes next.
    pub fn observe(&mut self, e: GossipEvent) -> (a: GossipAction)
        ensures
            (*final(self), a) == old(self).after(e),
    {
        match self.phase {
            GossipPhase::Greeting => match e {
                GossipEvent::Menu { text_id } => {
                    self.saw_menu = true;
                    GossipAction::AskText(text_id)
                },
                GossipEvent::Silence => match self.select {
                    Some(option) => {
                        self.phase = GossipPhase::Selecting;
                        GossipAction::Select(option)
                    },
                    None => {
                        self.phase = GossipPhase::Over;
                        GossipAction::End
                    },
                },
                _ => GossipAction::Wait,
            },
            GossipPhase::Selecting => match e {
                GossipEvent::Trainer => match self.buy {
                    Some(spell) => {
                        self.phase = GossipPhase::Buying;
                        GossipAction::Buy(spell)
                    },
                    None => {
                        self.phase = GossipPhase::Over;
                        GossipAction::End
                    },
                },
                GossipEvent::Complete | GossipEvent::Silence => {
                    self.phase = GossipPhase::Over;
                    GossipAction::End
                },
                _ => GossipAction::Wait,
            },
            GossipPhase::Buying => match e {
                GossipEvent::Superceded | GossipEvent::Refused | GossipEvent::Learned
                | GossipEvent::Silence => {
                    self.phase = GossipPhase::Over;
                    GossipAction::End
                },
                _ => GossipAction::Wait,
            },
            GossipPhase::Over => GossipAction::End,
        }
    }
}

/// Where a gossip stands after some events.
pub open spec fn gossip_after(select: Option<u32>, buy: Option<u32>, seen: Seq<GossipEvent>) -> Gossip
    decreases seen.len(),
{
    if seen.len() == 0 {
        Gossip { select, buy, phase: GossipPhase::Greeting, saw_menu: false }
    } else {
        gossip_after(select, buy, seen.drop_last()).after(seen.last()).0
    }
}

/// A spell is bought only where an option was chosen, a spell was named, and a trainer's list came.
pub proof fn nothing_is_bought_unasked(
    select: Option<u32>,
    buy: Option<u32>,
    seen: Seq<GossipEvent>,
)
    ensures
        gossip_after(select, buy, seen).select == select,
        gossip_after(select, buy, seen).buy == buy,
        gossip_after(select, buy, seen).phase == GossipPhase::Selecting ==> select is Some,
        gossip_after(select, buy, seen).phase == GossipPhase::Buying ==> select is Some && buy
            is Some && seen.contains(GossipEvent::Trainer),
    decreases seen.len(),
{
    if seen.len() > 0 {
        let before = seen.drop_last();
        nothing_is_bought_unasked(select, buy, before);
        assert(seen[seen.len() - 1] == seen.last());
        if before.contains(GossipEvent::Trainer) {
            let i = choose|i: int| 0 <= i < before.len() && before[i] == GossipEvent::Trainer;
            assert(seen[i] == GossipEvent::Trainer);
        }
    }
}

/// A list of players passes exactly where someone is online and the one that was wanted is on it,
/// whatever the case of the letters.
pub proof fn a_wanted_player_is_listed(online: u32, names: Seq<Seq<char>>, want: Seq<char>)
    ensures
        who_fault(online, names, want) is None <==> online > 0 && exists|i: int|
            0 <= i < names.len() && text::lowered(#[trigger] names[i]) == text::lowered(want),
        online == 0 ==> who_fault(online, names, want) == Some(WhoFault::NobodyOnline),
{
}

/// A friend is looked up by its guid: the first row with that guid, and none where there is none.
pub proof fn a_friend_is_found_by_its_guid(v: Seq<Friend>, guid: u64, i: int)
    requires
        0 <= i < v.len(),
        v[i].guid == guid,
        forall|j: int| 0 <= j < i ==> (#[trigger] v[j]).guid != guid,
    ensures
        friend_row(v, guid) == Some(v[i]),
    decreases v.len(),
{
    if i > 0 {
        let t = v.skip(1);
        assert(forall|j: int| 0 <= j < t.len() ==> t[j] == v[j + 1]);
        assert(v[0].guid != guid);
        a_friend_is_found_by_its_guid(t, guid, i - 1);
    }
}

/// A guid that no row has is not found.
pub proof fn a_stranger_is_not_found(v: Seq<Friend>, guid: u64)
    requires
        forall|j: int| 0 <= j < v.len() ==> (#[trigger] v[j]).guid != guid,
    ensures
        friend_row(v, guid) is None,
    decreases v.len(),
{
    if v.len() > 0 {
        let t = v.skip(1);
        assert(forall|j: int| 0 <= j < t.len() ==> t[j] == v[j + 1]);
        a_stranger_is_not_found(t, guid);
    }
}

/// The lists pass once the friend was seen online on the one; a friend that is missing or offline ends
/// it, whatever comes later. The list of those ignored completes it, before or after.
pub proof fn a_friend_has_to_be_online(list: Vec<Friend>, guid: u64, later: FriendEvent)
    ensures
        ({
            let start = FriendState::Open { friends: false, ignored: false };
            let seen = friends_after(start, FriendEvent::Friends(list), guid);
            &&& friend_row(list@, guid) is None ==> seen == FriendState::Absent && friends_after(
                seen,
                later,
                guid,
            ) == seen
            &&& friend_row(list@, guid) is Some && !friend_row(list@, guid)->0.online ==> seen
                == FriendState::Offline && friends_after(seen, later, guid) == seen
            &&& friend_row(list@, guid) is Some && friend_row(list@, guid)->0.online ==> {
                &&& friend_seen(seen)
                &&& friends_after(seen, FriendEvent::Ignored, guid) == FriendState::Both
                &&& friends_after(
                    friends_after(start, FriendEvent::Ignored, guid),
                    FriendEvent::Friends(list),
                    guid,
                ) == FriendState::Both
            }
            &&& !friend_seen(start) && !friend_seen(friends_after(start, FriendEvent::Ignored, guid))
            &&& !friend_seen(FriendState::Absent) && !friend_seen(FriendState::Offline)
            &&& friend_seen(FriendState::Both)
            &&& friends_after(start, FriendEvent::Other, guid) == start
        }),
{
}

/// What is said is heard near and not far: the speaker hears itself and the listener does not; a near
/// inspection is answered with the right guid and a far one not at all; a gesture carries its name.
pub proof fn near_is_heard_and_far_is_not(
    speaker: bool,
    listener: bool,
    near: Option<u64>,
    want: u64,
    far: Option<u64>,
    name: Seq<char>,
    other: Seq<char>,
)
    ensures
        range_fault(speaker, listener) is None <==> speaker && !listener,
        !speaker ==> range_fault(speaker, listener) == Some(RangeFault::NoEcho),
        inspect_fault(near, want, far) is None <==> near == Some(want) && far is None,
        near != Some(want) ==> inspect_fault(near, want, far) == Some(InspectFault::NearSilent),
        emote_fault(Some(name), name) is None,
        emote_fault(None, name) == Some(EmoteFault::NoName),
        other != name ==> emote_fault(Some(other), name) == Some(EmoteFault::OtherName),
{
}

/// A gossip asks for the text of every menu that it is shown, then chooses its option when nothing more
/// comes, then buys its spell from the list of a trainer, and ends with what becomes of that.
pub proof fn a_gossip_leads_to_its_spell(option: u32, spell: u32, text_id: u32, end: GossipEvent)
    ensures
        ({
            let g = gossip_after(Some(option), Some(spell), Seq::empty());
            let (g1, a1) = g.after(GossipEvent::Menu { text_id });
            let (g2, a2) = g1.after(GossipEvent::Silence);
            let (g3, a3) = g2.after(GossipEvent::Trainer);
            let (g4, a4) = g3.after(end);
            let over = end == GossipEvent::Superceded || end == GossipEvent::Refused || end
                == GossipEvent::Learned || end == GossipEvent::Silence;
            &&& a1 == GossipAction::AskText(text_id) && g1.saw_menu && !g.saw_menu
            &&& a2 == GossipAction::Select(option)
            &&& a3 == GossipAction::Buy(spell)
            &&& a4 == if over {
                GossipAction::End
            } else {
                GossipAction::Wait
            }
            &&& over <==> g4.phase == GossipPhase::Over
            &&& g2.after(GossipEvent::Complete).1 == GossipAction::End
            &&& g2.after(GossipEvent::Silence).1 == GossipAction::End
            &&& gossip_after(None, Some(spell), Seq::empty()).after(GossipEvent::Silence).1
                == GossipAction::End
            &&& gossip_after(Some(option), None, Seq::empty()).after(GossipEvent::Silence).0.after(
                GossipEvent::Trainer,
            ).1 == GossipAction::End
        }),
{
}

} // verus!
