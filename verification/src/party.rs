//! Parties: invitations, rosters and refusals.

use vstd::prelude::*;
use crate::text;

verus! {

/// Someone is on a list of names, in any case.
pub open spec fn on_list(names: Seq<Seq<char>>, who: Seq<char>) -> bool {
    exists|i: int| 0 <= i < names.len() && text::lowered(#[trigger] names[i]) == text::lowered(who)
}

/// Whether someone is on a list of names, in any case.
pub fn lists(names: &Vec<String>, who: &str) -> (yes: bool)
    ensures
        yes == on_list(text::texts(names@), who@),
{
    let ghost ts = text::texts(names@);
    for i in 0..names.len()
        invariant
            ts == text::texts(names@),
            forall|j: int| 0 <= j < i ==> text::lowered(#[trigger] ts[j]) != text::lowered(who@),
    {
        assert(ts[i as int] == names@[i as int]@);
        if text::eq_ignore_ascii_case(names[i].as_str(), who) {
            return true;
        }
    }
    false
}

/// The first of some names that is not on a roster.
pub open spec fn first_missing(wanted: Seq<Seq<char>>, roster: Seq<Seq<char>>) -> Option<Seq<char>>
    decreases wanted.len(),
{
    if wanted.len() == 0 {
        None
    } else if !on_list(roster, wanted[0]) {
        Some(wanted[0])
    } else {
        first_missing(wanted.skip(1), roster)
    }
}

/// The first of some names that is not on a roster.
pub fn missing_from(wanted: &Vec<String>, roster: &Vec<String>) -> (who: Option<String>)
    ensures
        text::text_of(who) == first_missing(text::texts(wanted@), text::texts(roster@)),
{
    let ghost ws = text::texts(wanted@);
    let ghost rs = text::texts(roster@);
    assert(ws.skip(0) =~= ws);
    for i in 0..wanted.len()
        invariant
            ws == text::texts(wanted@),
            rs == text::texts(roster@),
            first_missing(ws.skip(i as int), rs) == first_missing(ws, rs),
    {
        assert(ws.skip(i as int)[0] == wanted@[i as int]@);
        assert(ws.skip(i as int).skip(1) =~= ws.skip(i + 1));
        if !lists(roster, wanted[i].as_str()) {
            return Some(wanted[i].clone());
        }
    }
    assert(ws.skip(ws.len() as int).len() == 0);
    None
}

/// What is seen of an invitation.
pub enum InviteEvent {
    /// The server answers it.
    Answer { success: bool },
    /// A roster arrives.
    Roster { leader: u64, names: Vec<String> },
    /// Someone declines.
    Decline { name: String },
    Other,
}

/// Why an invitation fails.
#[derive(Clone, Copy, Debug, PartialEq, Eq, Structural)]
pub enum InviteFault {
    /// The server refuses it.
    Refused,
    /// Another leads the party.
    WrongLeader(u64),
    /// Another declined.
    WrongName,
    /// The server did not answer.
    Unanswered,
    /// The invited is not on any roster.
    Unlisted,
}

/// How an invitation stands.
#[derive(Clone, Copy, Debug, PartialEq, Eq, Structural)]
pub enum InviteState {
    /// It is not settled.
    Open { acked: bool, listed: bool },
    /// It is.
    Settled,
    /// It failed.
    Failed(InviteFault),
}

/// An invitation stands like this, once it was answered and listed.
pub open spec fn invite_settled(acked: bool, listed: bool) -> InviteState {
    if acked && listed {
        InviteState::Settled
    } else {
        InviteState::Open { acked, listed }
    }
}

/// How an invitation stands, once something more is seen. What is seen after it was settled or
/// failed changes nothing.
pub open spec fn invite_after(
    s: InviteState,
    e: InviteEvent,
    who: Seq<char>,
    own: u64,
) -> InviteState {
    match s {
        InviteState::Open { acked, listed } => match e {
            InviteEvent::Answer { success } => if success {
                invite_settled(true, listed)
            } else {
                InviteState::Failed(InviteFault::Refused)
            },
            InviteEvent::Roster { leader, names } => if leader != own {
                InviteState::Failed(InviteFault::WrongLeader(leader))
            } else {
                invite_settled(acked, listed || on_list(text::texts(names@), who))
            },
            _ => s,
        },
        _ => s,
    }
}

/// How an invitation that is to be declined stands, once something more is seen.
pub open spec fn decline_after(s: InviteState, e: InviteEvent, who: Seq<char>) -> InviteState {
    match s {
        InviteState::Open { acked, listed } => match e {
            InviteEvent::Answer { success } => if success {
                invite_settled(true, listed)
            } else {
                InviteState::Failed(InviteFault::Refused)
            },
            InviteEvent::Decline { name } => if text::lowered(name@) == text::lowered(who) {
                invite_settled(acked, true)
            } else {
                InviteState::Failed(InviteFault::WrongName)
            },
            _ => s,
        },
        _ => s,
    }
}

/// Why an invitation fails when its time is up, if it does.
pub open spec fn invite_fault(s: InviteState) -> Option<InviteFault> {
    match s {
        InviteState::Settled => None,
        InviteState::Failed(fault) => Some(fault),
        InviteState::Open { acked, listed } => if !acked {
            Some(InviteFault::Unanswered)
        } else {
            Some(InviteFault::Unlisted)
        },
    }
}

fn settle(acked: bool, listed: bool) -> (s: InviteState)
    ensures
        s == invite_settled(acked, listed),
{
    if acked && listed {
        InviteState::Settled
    } else {
        InviteState::Open { acked, listed }
    }
}

impl InviteState {
    /// An invitation goes out.
    pub fn new() -> (s: InviteState)
        ensures
            s == (InviteState::Open { acked: false, listed: false }),
    {
        InviteState::Open { acked: false, listed: false }
    }

    /// Notes what is seen of an invitation that is to be accepted.
    pub fn observe(&mut self, e: &InviteEvent, who: &str, own: u64)
        ensures
            *final(self) == invite_after(*old(self), *e, who@, own),
    {
        match *self {
            InviteState::Open { acked, listed } => match e {
                InviteEvent::Answer { success } => {
                    *self = if *success {
                        settle(true, listed)
                    } else {
                        InviteState::Failed(InviteFault::Refused)
                    };
                },
                InviteEvent::Roster { leader, names } => {
                    *self = if *leader != own {
                        InviteState::Failed(InviteFault::WrongLeader(*leader))
                    } else {
                        let there: bool = lists(names, who);
                        settle(acked, listed || there)
                    };
                },
                _ => {},
            },
            _ => {},
        }
    }

    /// Notes what is seen of an invitation that is to be declined.
    pub fn observe_decline(&mut self, e: &InviteEvent, who: &str)
        ensures
            *final(self) == decline_after(*old(self), *e, who@),
    {
        match *self {
            InviteState::Open { acked, listed } => match e {
                InviteEvent::Answer { success } => {
                    *self = if *success {
                        settle(true, listed)
                    } else {
                        InviteState::Failed(InviteFault::Refused)
                    };
                },
                InviteEvent::Decline { name } => {
                    *self = if text::eq_ignore_ascii_case(name.as_str(), who) {
                        settle(acked, true)
                    } else {
                        InviteState::Failed(InviteFault::WrongName)
                    };
                },
                _ => {},
            },
            _ => {},
        }
    }

    /// Concludes an invitation when its time is up.
    pub fn verdict(&self) -> (f: Option<InviteFault>)
        ensures
            f == invite_fault(*self),
    {
        match *self {
            InviteState::Settled => None,
            InviteState::Failed(fault) => Some(fault),
            InviteState::Open { acked, listed: _ } => if !acked {
                Some(InviteFault::Unanswered)
            } else {
                Some(InviteFault::Unlisted)
            },
        }
    }
}

/// The server acknowledges an invitation.
pub open spec fn acknowledges(e: InviteEvent) -> bool {
    match e {
        InviteEvent::Answer { success } => success,
        _ => false,
    }
}

/// A roster of a party carries someone.
pub open spec fn carries(e: InviteEvent, who: Seq<char>, own: u64) -> bool {
    match e {
        InviteEvent::Roster { leader, names } => leader == own && on_list(
            text::texts(names@),
            who,
        ),
        _ => false,
    }
}

/// How an invitation stands after some events.
pub open spec fn invite_story(seen: Seq<InviteEvent>, who: Seq<char>, own: u64) -> InviteState
    decreases seen.len(),
{
    if seen.len() == 0 {
        InviteState::Open { acked: false, listed: false }
    } else {
        invite_after(invite_story(seen.drop_last(), who, own), seen.last(), who, own)
    }
}

proof fn lemma_story(seen: Seq<InviteEvent>, who: Seq<char>, own: u64)
    ensures
        match invite_story(seen, who, own) {
            InviteState::Open { acked, listed } => {
                &&& acked ==> exists|i: int|
                    0 <= i < seen.len() && acknowledges(#[trigger] seen[i])
                &&& listed ==> exists|i: int|
                    0 <= i < seen.len() && carries(#[trigger] seen[i], who, own)
            },
            InviteState::Settled => {
                &&& exists|i: int|
                    0 <= i < seen.len() && acknowledges(#[trigger] seen[i])
                &&& exists|i: int|
                    0 <= i < seen.len() && carries(#[trigger] seen[i], who, own)
            },
            InviteState::Failed(_) => true,
        },
    decreases seen.len(),
{
    if seen.len() > 0 {
        let before = seen.drop_last();
        lemma_story(before, who, own);
        let n = seen.len() - 1;
        assert(seen[n] == seen.last());
        assert(forall|i: int| 0 <= i < n ==> before[i] == #[trigger] seen[i]);
        let was = invite_story(before, who, own);
        let acked = match was {
            InviteState::Open { acked, .. } => acked,
            InviteState::Settled => true,
            InviteState::Failed(_) => false,
        };
        let listed = match was {
            InviteState::Open { listed, .. } => listed,
            InviteState::Settled => true,
            InviteState::Failed(_) => false,
        };
        if acked {
            let i = choose|i: int|
                0 <= i < before.len() && acknowledges(#[trigger] before[i]);
            assert(seen[i] == before[i]);
        }
        if listed {
            let i = choose|i: int|
                0 <= i < before.len() && carries(#[trigger] before[i], who, own);
            assert(seen[i] == before[i]);
        }
    }
}

/// An invitation is settled only once the server acknowledged it and a roster that the inviter
/// leads carried the invited.
pub proof fn a_settled_invitation_was_acknowledged_and_listed(
    seen: Seq<InviteEvent>,
    who: Seq<char>,
    own: u64,
)
    requires
        invite_story(seen, who, own) == InviteState::Settled,
    ensures
        exists|i: int|
            0 <= i < seen.len() && acknowledges(#[trigger] seen[i]),
        exists|i: int|
            0 <= i < seen.len() && carries(#[trigger] seen[i], who, own),
{
    lemma_story(seen, who, own);
}

/// Why a roster is not that of the party that was formed.
#[derive(Clone, Copy, Debug, PartialEq, Eq, Structural)]
pub enum RosterFault {
    WrongLeader(u64),
    Lacks,
}

/// Why a roster is not that of the party that was formed, if so.
pub open spec fn roster_fault(
    leader: u64,
    names: Seq<Seq<char>>,
    own: u64,
    invited: Seq<char>,
) -> Option<RosterFault> {
    if leader != own {
        Some(RosterFault::WrongLeader(leader))
    } else if !on_list(names, invited) {
        Some(RosterFault::Lacks)
    } else {
        None
    }
}

/// Judges the roster that a leader gets: it leads, and the invited is there.
pub fn leader_roster(leader: u64, names: &Vec<String>, own: u64, invited: &str) -> (f: Option<
    RosterFault,
>)
    ensures
        f == roster_fault(leader, text::texts(names@), own, invited@),
{
    if leader != own {
        Some(RosterFault::WrongLeader(leader))
    } else if !lists(names, invited) {
        Some(RosterFault::Lacks)
    } else {
        None
    }
}

/// An invitation is settled by an acknowledgement and a roster of the inviter's own that carries the
/// invited, in whichever order, and by nothing less.
pub proof fn an_invitation_is_settled_in_either_order(names: Vec<String>, who: Seq<char>, own: u64)
    requires
        on_list(text::texts(names@), who),
    ensures
        ({
            let start = InviteState::Open { acked: false, listed: false };
            let yes = InviteEvent::Answer { success: true };
            let roster = InviteEvent::Roster { leader: own, names };
            let answered = invite_after(start, yes, who, own);
            let carried = invite_after(start, roster, who, own);
            &&& invite_after(answered, roster, who, own) == InviteState::Settled
            &&& invite_after(carried, yes, who, own) == InviteState::Settled
            &&& invite_fault(start) == Some(InviteFault::Unanswered)
            &&& invite_fault(carried) == Some(InviteFault::Unanswered)
            &&& invite_fault(answered) == Some(InviteFault::Unlisted)
            &&& invite_fault(InviteState::Settled) is None
        }),
{
}

/// A refusal, and a roster that another leads, end an invitation; a decline of another ends one that is
/// to be declined. What comes after the end changes nothing.
pub proof fn an_invitation_fails_for_cause(
    s: InviteState,
    e: InviteEvent,
    leader: u64,
    names: Vec<String>,
    name: String,
    who: Seq<char>,
    own: u64,
)
    ensures
        s is Open ==> {
            &&& invite_after(s, InviteEvent::Answer { success: false }, who, own)
                == InviteState::Failed(InviteFault::Refused)
            &&& decline_after(s, InviteEvent::Answer { success: false }, who)
                == InviteState::Failed(InviteFault::Refused)
            &&& leader != own ==> invite_after(s, InviteEvent::Roster { leader, names }, who, own)
                == InviteState::Failed(InviteFault::WrongLeader(leader))
            &&& text::lowered(name@) != text::lowered(who) ==> decline_after(
                s,
                InviteEvent::Decline { name },
                who,
            ) == InviteState::Failed(InviteFault::WrongName)
            &&& invite_after(s, InviteEvent::Other, who, own) == s
            &&& decline_after(s, InviteEvent::Other, who) == s
        },
        !(s is Open) ==> invite_after(s, e, who, own) == s && decline_after(s, e, who) == s,
        s matches InviteState::Failed(f) ==> invite_fault(s) == Some(f),
{
}

/// An invitation that is to be declined is settled by an acknowledgement and the decline of the invited,
/// in whichever order.
pub proof fn a_decline_is_settled_in_either_order(name: String, who: Seq<char>)
    requires
        text::lowered(name@) == text::lowered(who),
    ensures
        ({
            let start = InviteState::Open { acked: false, listed: false };
            let yes = InviteEvent::Answer { success: true };
            let no = InviteEvent::Decline { name };
            &&& decline_after(decline_after(start, yes, who), no, who) == InviteState::Settled
            &&& decline_after(decline_after(start, no, who), yes, who) == InviteState::Settled
        }),
{
}

/// Nobody is missing from a roster exactly where each of the wanted is on it; otherwise the first that is
/// not is named.
pub proof fn the_first_missing_is_named(wanted: Seq<Seq<char>>, roster: Seq<Seq<char>>, i: int)
    requires
        0 <= i < wanted.len(),
    ensures
        first_missing(wanted, roster) is None <==> forall|k: int|
            0 <= k < wanted.len() ==> on_list(roster, #[trigger] wanted[k]),
        (!on_list(roster, wanted[i]) && forall|k: int|
            0 <= k < i ==> on_list(roster, #[trigger] wanted[k])) ==> first_missing(wanted, roster)
            == Some(wanted[i]),
    decreases wanted.len(),
{
    let t = wanted.skip(1);
    assert(forall|k: int| 0 <= k < t.len() ==> t[k] == wanted[k + 1]);
    if on_list(roster, wanted[0]) {
        if t.len() > 0 {
            the_first_missing_is_named(t, roster, if i > 0 {
                i - 1
            } else {
                0
            });
        }
        if forall|k: int| 0 <= k < t.len() ==> on_list(roster, #[trigger] t[k]) {
            assert forall|k: int| 0 <= k < wanted.len() implies on_list(
                roster,
                #[trigger] wanted[k],
            ) by {
                if k > 0 {
                    assert(on_list(roster, t[k - 1]));
                }
            }
        }
    }
}

/// A leader's roster passes exactly where it leads and the invited is there.
pub proof fn a_leader_leads_the_invited(
    leader: u64,
    names: Seq<Seq<char>>,
    own: u64,
    invited: Seq<char>,
)
    ensures
        roster_fault(leader, names, own, invited) is None <==> leader == own && on_list(names, invited),
        leader != own ==> roster_fault(leader, names, own, invited) == Some(
            RosterFault::WrongLeader(leader),
        ),
{
}

} // verus!
