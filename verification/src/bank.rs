//! The bank: an item goes in, survives a relog, comes back, and a slot is bought.

use vstd::prelude::*;
use crate::number;
use crate::text;

verus! {

/// The bag that the slots are counted in.
pub const MAIN_BAG: u8 = 255;

/// The first slot of the bank.
pub const BANK_SLOT_START: u8 = 39;

/// The last slot of the bank.
pub const BANK_SLOT_END: u8 = 62;

/// The first slot that is carried.
pub const CARRY_SLOT_START: u8 = 23;

/// The last slot that is carried.
pub const CARRY_SLOT_END: u8 = 38;

/// How the scenario is called.
pub const USAGE: &'static str =
    "scenario-bank <banker_guid> <item_guid> <carry_slot> <bank_slot> <deposited_file> <persisted_file> <withdrawn_file>";

/// What a run is about.
pub struct BankPlan {
    pub banker: u64,
    pub item: u64,
    pub carry_slot: u8,
    pub bank_slot: u8,
    pub deposited: String,
    pub persisted: String,
    pub withdrawn: String,
}

/// What a run is about.
pub struct PlanView {
    pub banker: nat,
    pub item: nat,
    pub carry_slot: nat,
    pub bank_slot: nat,
    pub deposited: Seq<char>,
    pub persisted: Seq<char>,
    pub withdrawn: Seq<char>,
}

impl View for BankPlan {
    type V = PlanView;

    open spec fn view(&self) -> PlanView {
        PlanView {
            banker: self.banker as nat,
            item: self.item as nat,
            carry_slot: self.carry_slot as nat,
            bank_slot: self.bank_slot as nat,
            deposited: self.deposited@,
            persisted: self.persisted@,
            withdrawn: self.withdrawn@,
        }
    }
}

/// Said of a call that is not the one above.
pub open spec fn misuse(words: Seq<char>) -> Seq<char> {
    "usage: "@ + USAGE@ + words
}

fn say_misuse(words: &str) -> (s: String)
    ensures
        s@ == misuse(words@),
{
    let mut s: String = "usage: ".to_owned();
    s.append(USAGE);
    s.append(words);
    s
}

/// The number at a place of the arguments.
pub open spec fn number_arg(a: Seq<Seq<char>>, i: int, name: Seq<char>, max: nat) -> Result<
    nat,
    Seq<char>,
> {
    if i >= a.len() {
        Err(misuse(": missing <"@ + name + ">"@))
    } else {
        match number::unsigned_value(a[i], max) {
            Some(n) => Ok(n),
            None => Err(misuse(": invalid <"@ + name + ">: "@ + text::debug_form(a[i]))),
        }
    }
}

fn read_number(args: &Vec<String>, i: usize, name: &str, max: u64) -> (r: Result<u64, String>)
    ensures
        match r {
            Ok(n) => number_arg(text::texts(args@), i as int, name@, max as nat) == Ok::<
                nat,
                Seq<char>,
            >(n as nat) && n <= max,
            Err(said) => number_arg(text::texts(args@), i as int, name@, max as nat) == Err::<
                nat,
                Seq<char>,
            >(said@),
        },
{
    if i >= args.len() {
        let mut words: String = ": missing <".to_owned();
        words.append(name);
        words.append(">");
        return Err(say_misuse(words.as_str()));
    }
    assert(text::texts(args@)[i as int] == args@[i as int]@);
    match number::parse_unsigned(args[i].as_str(), max) {
        Some(n) => Ok(n),
        None => {
            let mut words: String = ": invalid <".to_owned();
            words.append(name);
            words.append(">: ");
            words.append(text::debug_text(args[i].as_str()).as_str());
            Err(say_misuse(words.as_str()))
        },
    }
}

/// The path at a place of the arguments.
pub open spec fn path_arg(a: Seq<Seq<char>>, i: int, name: Seq<char>) -> Result<
    Seq<char>,
    Seq<char>,
> {
    if i >= a.len() {
        Err(misuse(" \u{2014} missing <"@ + name + ">"@))
    } else {
        Ok(a[i])
    }
}

fn read_path(args: &Vec<String>, i: usize, name: &str) -> (r: Result<String, String>)
    ensures
        match r {
            Ok(p) => path_arg(text::texts(args@), i as int, name@) == Ok::<Seq<char>, Seq<char>>(
                p@,
            ),
            Err(said) => path_arg(text::texts(args@), i as int, name@) == Err::<
                Seq<char>,
                Seq<char>,
            >(said@),
        },
{
    if i >= args.len() {
        let mut words: String = " \u{2014} missing <".to_owned();
        words.append(name);
        words.append(">");
        return Err(say_misuse(words.as_str()));
    }
    assert(text::texts(args@)[i as int] == args@[i as int]@);
    Ok(args[i].clone())
}

/// What the arguments say, before their values are judged.
pub open spec fn plan_read(a: Seq<Seq<char>>) -> Result<PlanView, Seq<char>> {
    match number_arg(a, 0, "banker_guid"@, u64::MAX as nat) {
        Err(e) => Err(e),
        Ok(banker) => match number_arg(a, 1, "item_guid"@, u64::MAX as nat) {
            Err(e) => Err(e),
            Ok(item) => match number_arg(a, 2, "carry_slot"@, 255) {
                Err(e) => Err(e),
                Ok(carry_slot) => match number_arg(a, 3, "bank_slot"@, 255) {
                    Err(e) => Err(e),
                    Ok(bank_slot) => match path_arg(a, 4, "deposited_file"@) {
                        Err(e) => Err(e),
                        Ok(deposited) => match path_arg(a, 5, "persisted_file"@) {
                            Err(e) => Err(e),
                            Ok(persisted) => match path_arg(a, 6, "withdrawn_file"@) {
                                Err(e) => Err(e),
                                Ok(withdrawn) => Ok(
                                    PlanView {
                                        banker,
                                        item,
                                        carry_slot,
                                        bank_slot,
                                        deposited,
                                        persisted,
                                        withdrawn,
                                    },
                                ),
                            },
                        },
                    },
                },
            },
        },
    }
}

/// Why a run cannot be about that, if so.
pub open spec fn plan_fault(p: PlanView, count: int) -> Option<Seq<char>> {
    if count > 7 {
        Some(misuse(": unexpected extra argument"@))
    } else if p.banker == 0 || p.item == 0 {
        Some(misuse(": banker_guid and item_guid must be nonzero"@))
    } else if !(CARRY_SLOT_START <= p.carry_slot <= CARRY_SLOT_END) {
        Some(misuse(": carry_slot must be 23..=38"@))
    } else if !(BANK_SLOT_START <= p.bank_slot <= BANK_SLOT_END) {
        Some(misuse(": bank_slot must be 39..=62"@))
    } else {
        None
    }
}

/// What the arguments ask for.
pub open spec fn plan(a: Seq<Seq<char>>) -> Result<PlanView, Seq<char>> {
    match plan_read(a) {
        Err(e) => Err(e),
        Ok(p) => match plan_fault(p, a.len() as int) {
            Some(e) => Err(e),
            None => Ok(p),
        },
    }
}

impl BankPlan {
    /// Reads the arguments of a run.
    pub fn parse(args: &Vec<String>) -> (r: Result<BankPlan, String>)
        ensures
            match r {
                Ok(p) => plan(text::texts(args@)) == Ok::<PlanView, Seq<char>>(p@),
                Err(said) => plan(text::texts(args@)) == Err::<PlanView, Seq<char>>(said@),
            },
    {
        assert(text::texts(args@).len() == args@.len());
        let banker: u64 = match read_number(args, 0, "banker_guid", u64::MAX) {
            Ok(n) => n,
            Err(e) => {
                return Err(e);
            },
        };
        let item: u64 = match read_number(args, 1, "item_guid", u64::MAX) {
            Ok(n) => n,
            Err(e) => {
                return Err(e);
            },
        };
        let carry_slot: u8 = match read_number(args, 2, "carry_slot", 255) {
            Ok(n) => n as u8,
            Err(e) => {
                return Err(e);
            },
        };
        let bank_slot: u8 = match read_number(args, 3, "bank_slot", 255) {
            Ok(n) => n as u8,
            Err(e) => {
                return Err(e);
            },
        };
        let deposited: String = match read_path(args, 4, "deposited_file") {
            Ok(s) => s,
            Err(e) => {
                return Err(e);
            },
        };
        let persisted: String = match read_path(args, 5, "persisted_file") {
            Ok(s) => s,
            Err(e) => {
                return Err(e);
            },
        };
        let withdrawn: String = match read_path(args, 6, "withdrawn_file") {
            Ok(s) => s,
            Err(e) => {
                return Err(e);
            },
        };
        if args.len() > 7 {
            return Err(say_misuse(": unexpected extra argument"));
        }
        if banker == 0 || item == 0 {
            return Err(say_misuse(": banker_guid and item_guid must be nonzero"));
        }
        if !(CARRY_SLOT_START <= carry_slot && carry_slot <= CARRY_SLOT_END) {
            return Err(say_misuse(": carry_slot must be 23..=38"));
        }
        if !(BANK_SLOT_START <= bank_slot && bank_slot <= BANK_SLOT_END) {
            return Err(say_misuse(": bank_slot must be 39..=62"));
        }
        Ok(BankPlan { banker, item, carry_slot, bank_slot, deposited, persisted, withdrawn })
    }
}

/// Whatever is asked for and not refused moves an item between a slot that is carried and a slot
/// of the bank, which are never the same.
pub proof fn an_accepted_plan_moves_between_carry_and_bank(a: Seq<Seq<char>>)
    ensures
        plan(a) matches Ok(p) ==> {
            &&& p.banker != 0
            &&& p.item != 0
            &&& CARRY_SLOT_START <= p.carry_slot <= CARRY_SLOT_END
            &&& BANK_SLOT_START <= p.bank_slot <= BANK_SLOT_END
            &&& p.carry_slot != p.bank_slot
            &&& a.len() == 7
        },
{
}

/// An item has moved: it is where it was to go, and the slot that it left is empty.
pub open spec fn has_moved(from: Option<u64>, to: Option<u64>, item: u64) -> bool {
    from == Some(0u64) && to == Some(item)
}

/// What a read brought while an item moves.
#[derive(Clone, Copy, Debug, PartialEq, Eq, Structural)]
pub enum MoveRead {
    /// The server refuses the move.
    Refused,
    /// Some message.
    Message,
    /// Nothing yet.
    Timeout,
    /// The connection is gone.
    Broken,
}

/// How a move stands.
#[derive(Clone, Copy, Debug, PartialEq, Eq, Structural)]
pub enum MoveStep {
    Wait,
    Moved,
    Refused,
    Broken,
}

/// How a move stands, once something was read and the slots were looked at.
pub open spec fn move_stands(
    read: MoveRead,
    from: Option<u64>,
    to: Option<u64>,
    item: u64,
) -> MoveStep {
    match read {
        MoveRead::Refused => MoveStep::Refused,
        _ => if has_moved(from, to, item) {
            MoveStep::Moved
        } else if read == MoveRead::Broken {
            MoveStep::Broken
        } else {
            MoveStep::Wait
        },
    }
}

/// How a move stands, once something was read and the slots were looked at: a refusal ends it, and
/// a broken connection ends it unless the item has moved.
pub fn move_step(read: MoveRead, from: Option<u64>, to: Option<u64>, item: u64) -> (s: MoveStep)
    ensures
        s == move_stands(read, from, to, item),
{
    match read {
        MoveRead::Refused => {
            return MoveStep::Refused;
        },
        _ => {},
    }
    let left: bool = match from {
        Some(g) => g == 0,
        None => false,
    };
    let there: bool = match to {
        Some(g) => g == item,
        None => false,
    };
    if left && there {
        return MoveStep::Moved;
    }
    match read {
        MoveRead::Broken => MoveStep::Broken,
        _ => MoveStep::Wait,
    }
}

/// Why the bank does not show.
#[derive(Clone, Copy, Debug, PartialEq, Eq, Structural)]
pub enum ShowFault {
    Silent,
    Other(u64),
}

/// Why the bank does not show, if so.
pub open spec fn show_fault(reply: Option<u64>, banker: u64) -> Option<ShowFault> {
    match reply {
        None => Some(ShowFault::Silent),
        Some(g) => if g == banker {
            None
        } else {
            Some(ShowFault::Other(g))
        },
    }
}

/// Judges the bank that shows.
pub fn shown(reply: Option<u64>, banker: u64) -> (f: Option<ShowFault>)
    ensures
        f == show_fault(reply, banker),
{
    match reply {
        None => Some(ShowFault::Silent),
        Some(g) => if g == banker {
            None
        } else {
            Some(ShowFault::Other(g))
        },
    }
}

/// Why a relog does not show what was banked.
#[derive(Clone, Copy, Debug, PartialEq, Eq, Structural)]
pub enum RelogFault {
    OtherCharacter,
    OtherItem,
}

/// Why a relog does not show what was banked, if so.
pub open spec fn relog_fault(
    own: u64,
    character: u64,
    held: Option<u64>,
    item: u64,
) -> Option<RelogFault> {
    if own != character {
        Some(RelogFault::OtherCharacter)
    } else if held != Some(item) {
        Some(RelogFault::OtherItem)
    } else {
        None
    }
}

/// Judges a relog: the same character, and the item in its slot.
pub fn relogged(own: u64, character: u64, held: Option<u64>, item: u64) -> (f: Option<RelogFault>)
    ensures
        f == relog_fault(own, character, held, item),
{
    if own != character {
        return Some(RelogFault::OtherCharacter);
    }
    match held {
        Some(g) => if g == item {
            None
        } else {
            Some(RelogFault::OtherItem)
        },
        None => Some(RelogFault::OtherItem),
    }
}

/// The arguments of a run are read back: two numbers that are not zero, a slot that is carried, a slot of
/// the bank, and three paths; and nothing may follow.
pub proof fn a_plan_reads_back(
    banker: nat,
    item: nat,
    carry: nat,
    slot: nat,
    a: Seq<char>,
    b: Seq<char>,
    c: Seq<char>,
    more: Seq<char>,
)
    requires
        0 < banker <= u64::MAX,
        0 < item <= u64::MAX,
        23 <= carry <= 38,
        39 <= slot <= 62,
    ensures
        ({
            let args = seq![
                number::decimal(banker),
                number::decimal(item),
                number::decimal(carry),
                number::decimal(slot),
                a,
                b,
                c,
            ];
            &&& plan(args) == Ok::<PlanView, Seq<char>>(
                PlanView {
                    banker,
                    item,
                    carry_slot: carry,
                    bank_slot: slot,
                    deposited: a,
                    persisted: b,
                    withdrawn: c,
                },
            )
            &&& plan(args.push(more)) is Err
            &&& plan(args.drop_last()) is Err
        }),
{
    number::a_written_number_reads_back(banker, u64::MAX as nat);
    number::a_written_number_reads_back(item, u64::MAX as nat);
    number::a_written_number_reads_back(carry, 255);
    number::a_written_number_reads_back(slot, 255);
}

/// A run is refused for a slot that is not carried or not of the bank, and for a number that is zero.
pub proof fn a_plan_is_refused_for_cause(p: PlanView)
    ensures
        plan_fault(p, 7) is None <==> p.banker > 0 && p.item > 0 && 23 <= p.carry_slot && p.carry_slot
            <= 38 && 39 <= p.bank_slot && p.bank_slot <= 62,
        plan_fault(p, 8) is Some,
{
}

/// A move is over exactly where it is refused, or the item lies in its new slot and the old one is empty,
/// or the connection is gone.
pub proof fn a_move_is_over_when_it_is_done(read: MoveRead, from: u64, to: u64, item: u64)
    ensures
        move_stands(read, Some(from), Some(to), item) == MoveStep::Moved <==> read != MoveRead::Refused
            && from == 0 && to == item,
        move_stands(read, Some(from), Some(to), item) == MoveStep::Refused <==> read
            == MoveRead::Refused,
        move_stands(read, Some(from), Some(to), item) == MoveStep::Broken <==> read == MoveRead::Broken
            && !(from == 0 && to == item),
        move_stands(read, None, Some(to), item) != MoveStep::Moved,
        move_stands(read, Some(from), None, item) != MoveStep::Moved,
{
}

/// The bank shows where its own keeper's does, and a relog shows what was banked where the character is
/// the same and its slot holds the item.
pub proof fn a_bank_shows_its_keeper(banker: u64, g: u64, own: u64, held: Option<u64>, item: u64)
    ensures
        show_fault(Some(g), banker) is None <==> g == banker,
        show_fault(None, banker) is Some,
        relog_fault(own, own, Some(item), item) is None,
        relog_fault(own, g, held, item) is None ==> own == g && held == Some(item),
{
}

} // verus!
