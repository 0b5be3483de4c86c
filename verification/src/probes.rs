//! The probes of single exchanges: what a reply has to say.

use vstd::prelude::*;
use crate::number;
use crate::text;
use crate::wire;

verus! {

// ------------------------------------------------------------------------------------------
//  The character list
// ------------------------------------------------------------------------------------------

/// The slot that shows a weapon.
pub const WEAPON_SLOT: usize = 15;

/// What is worn in a slot: nothing where there is no such slot.
pub open spec fn worn(display_ids: Seq<u32>, slot: int) -> u32 {
    if 0 <= slot < display_ids.len() {
        display_ids[slot]
    } else {
        0
    }
}

/// What is worn in a slot.
pub fn display_at(display_ids: &Vec<u32>, slot: usize) -> (id: u32)
    ensures
        id == worn(display_ids@, slot as int),
{
    if slot < display_ids.len() {
        display_ids[slot]
    } else {
        0
    }
}

/// Gear shows: the one that is wanted, or any.
pub open spec fn shows(got: u32, want: Option<u32>) -> bool {
    match want {
        Some(w) => got == w,
        None => got != 0,
    }
}

/// Whether gear shows: the one that is wanted, or any.
pub fn gear_shows(got: u32, want: Option<u32>) -> (yes: bool)
    ensures
        yes == shows(got, want),
{
    match want {
        Some(w) => got == w,
        None => got != 0,
    }
}

/// Why a deletion fails.
#[derive(Clone, Copy, Debug, PartialEq, Eq, Structural)]
pub enum DeleteFault {
    Refused,
    StillListed,
}

/// Why a deletion fails, if it does.
pub open spec fn delete_fault(success: bool, remaining: Seq<u64>, guid: u64) -> Option<DeleteFault> {
    if !success {
        Some(DeleteFault::Refused)
    } else if remaining.contains(guid) {
        Some(DeleteFault::StillListed)
    } else {
        None
    }
}

/// Judges a deletion: it succeeded, and the character is listed no more.
pub fn check_delete(success: bool, remaining: &Vec<u64>, guid: u64) -> (f: Option<DeleteFault>)
    ensures
        f == delete_fault(success, remaining@, guid),
{
    if !success {
        return Some(DeleteFault::Refused);
    }
    for i in 0..remaining.len()
        invariant
            success,
            forall|j: int| 0 <= j < i ==> remaining@[j] != guid,
    {
        if remaining[i] == guid {
            assert(remaining@.contains(guid));
            return Some(DeleteFault::StillListed);
        }
    }
    None
}

// ------------------------------------------------------------------------------------------
//  What a login brings
// ------------------------------------------------------------------------------------------

/// The spells that are wanted and not there, in the order in which they are wanted.
pub open spec fn lacking(want: Seq<u32>, have: Seq<u32>) -> Seq<u32> {
    want.filter(|id: u32| !have.contains(id))
}

fn knows(have: &Vec<u32>, id: u32) -> (yes: bool)
    ensures
        yes == have@.contains(id),
{
    for i in 0..have.len()
        invariant
            forall|j: int| 0 <= j < i ==> have@[j] != id,
    {
        if have[i] == id {
            assert(have@[i as int] == id);
            return true;
        }
    }
    false
}

/// The spells that are wanted and not there.
pub fn missing_spells(want: &Vec<u32>, have: &Vec<u32>) -> (v: Vec<u32>)
    ensures
        v@ == lacking(want@, have@),
{
    let mut v: Vec<u32> = Vec::new();
    let ghost p = |id: u32| !have@.contains(id);
    proof {
        reveal(Seq::filter);
    }
    for i in 0..want.len()
        invariant
            p == (|id: u32| !have@.contains(id)),
            v@ == want@.take(i as int).filter(p),
    {
        proof {
            reveal(Seq::filter);
            assert(want@.take(i + 1).drop_last() =~= want@.take(i as int));
        }
        if !knows(have, want[i]) {
            v.push(want[i]);
        }
    }
    assert(want@.take(want@.len() as int) =~= want@);
    v
}

/// The flag of a faction that one is at war with.
pub const AT_WAR: u8 = 2;

/// Why a standing is not the one that was wanted.
#[derive(Clone, Copy, Debug, PartialEq, Eq, Structural)]
pub enum FactionFault {
    Standing(i32),
    AtWar(u8),
}

/// The standing at a place of the list: none where there is no such place.
pub open spec fn standing(v: Seq<i32>, i: int) -> i32 {
    if 0 <= i < v.len() {
        v[i]
    } else {
        0
    }
}

/// Whether one is at war, by the flags at a place of the list: one or zero.
pub open spec fn war_bit(v: Seq<u8>, i: int) -> u8 {
    if 0 <= i < v.len() {
        (v[i] / AT_WAR) % 2
    } else {
        0
    }
}

/// Why a standing is not the one that was wanted, if so.
pub open spec fn faction_fault(
    standings: Seq<i32>,
    flags: Seq<u8>,
    index: int,
    want: i32,
    want_war: Option<u8>,
) -> Option<FactionFault> {
    if standing(standings, index) != want {
        Some(FactionFault::Standing(standing(standings, index)))
    } else {
        match want_war {
            Some(w) => if war_bit(flags, index) != w {
                Some(FactionFault::AtWar(war_bit(flags, index)))
            } else {
                None
            },
            None => None,
        }
    }
}

/// Judges a standing after a relog, and whether one is at war where that is asked.
pub fn check_faction(
    standings: &Vec<i32>,
    flags: &Vec<u8>,
    index: usize,
    want: i32,
    want_war: Option<u8>,
) -> (f: Option<FactionFault>)
    ensures
        f == faction_fault(standings@, flags@, index as int, want, want_war),
{
    let got: i32 = if index < standings.len() {
        standings[index]
    } else {
        0
    };
    if got != want {
        return Some(FactionFault::Standing(got));
    }
    match want_war {
        Some(w) => {
            let bit: u8 = if index < flags.len() {
                (flags[index] / AT_WAR) % 2
            } else {
                0
            };
            if bit != w {
                Some(FactionFault::AtWar(bit))
            } else {
                None
            }
        },
        None => None,
    }
}

/// What an item says of itself, as far as it is judged.
#[derive(Clone, Copy, Debug, PartialEq, Eq, Structural)]
pub struct ItemFacts {
    pub armor: i32,
    pub spell: u32,
    pub bonding: u8,
}

/// Why an item is not the one that was wanted.
#[derive(Clone, Copy, Debug, PartialEq, Eq, Structural)]
pub enum ItemFault {
    Armor,
    Spell,
    Bonding,
}

/// Why an item is not the one that was wanted, if so.
pub open spec fn item_fault(item: ItemFacts, armor: i32, spell: u32, bonding: i32) -> Option<
    ItemFault,
> {
    if item.armor != armor {
        Some(ItemFault::Armor)
    } else if spell != 0 && item.spell != spell {
        Some(ItemFault::Spell)
    } else if bonding >= 0 && item.bonding != bonding {
        Some(ItemFault::Bonding)
    } else {
        None
    }
}

/// Judges an item: its armor, its spell where one is wanted, and its binding where that is asked.
pub fn check_item(item: ItemFacts, armor: i32, spell: u32, bonding: i32) -> (f: Option<ItemFault>)
    ensures
        f == item_fault(item, armor, spell, bonding),
{
    if item.armor != armor {
        Some(ItemFault::Armor)
    } else if spell != 0 && item.spell != spell {
        Some(ItemFault::Spell)
    } else if bonding >= 0 && item.bonding as i32 != bonding {
        Some(ItemFault::Bonding)
    } else {
        None
    }
}

/// What a level brings.
#[derive(Clone, Copy, Debug, PartialEq, Eq, Structural)]
pub struct LevelUp {
    pub mana: u32,
    pub strength: u32,
    pub agility: u32,
    pub stamina: u32,
    pub intellect: u32,
    pub spirit: u32,
}

impl LevelUp {
    /// The level brings what it has to.
    pub open spec fn brings(self, expect_mana: u32) -> bool {
        (if expect_mana == 1 {
            self.mana > 0
        } else {
            self.mana == 0
        }) && (self.intellect > 0 || self.spirit > 0 || self.strength > 0 || self.stamina > 0
            || self.agility > 0)
    }

    /// Whether the level brings what it has to: mana where it is expected and none where it is
    /// not, and some attribute.
    pub fn check(&self, expect_mana: u32) -> (yes: bool)
        ensures
            yes == self.brings(expect_mana),
    {
        let mana_ok: bool = if expect_mana == 1 {
            self.mana > 0
        } else {
            self.mana == 0
        };
        mana_ok && (self.intellect > 0 || self.spirit > 0 || self.strength > 0 || self.stamina > 0
            || self.agility > 0)
    }
}

/// By how much the time played grew, where it did.
pub open spec fn growth(first: u32, second: u32) -> Option<u32> {
    if second > first {
        Some((second - first) as u32)
    } else {
        None
    }
}

/// Something was hidden and is not any more.
pub open spec fn uncovered(before: bool, after: bool) -> bool {
    !before && after
}

/// Whether the time played grew while it was waited for, and by how much.
pub fn played_on(first: u32, second: u32) -> (grown: Option<u32>)
    ensures
        grown == growth(first, second),
{
    if second > first {
        Some(second - first)
    } else {
        None
    }
}

/// What a ghost sees: what was hidden from the living.
pub fn revealed(before: bool, after: bool) -> (yes: bool)
    ensures
        yes == uncovered(before, after),
{
    !before && after
}

/// How long a session is held where nothing else is said, in seconds.
pub const STAY_SECS: u64 = 60;

/// How long a session is held.
pub open spec fn stay(word: Option<Seq<char>>) -> Result<nat, Seq<char>> {
    match word {
        None => Ok(STAY_SECS as nat),
        Some(w) => match number::unsigned_value(w, u64::MAX as nat) {
            Some(n) => Ok(n),
            None => Err(
                "stay: deadline_secs must be an integer, got "@ + text::debug_form(w),
            ),
        },
    }
}

/// How long a session is held: a word that is no number is refused, not replaced.
pub fn stay_secs(word: &Option<String>) -> (r: Result<u64, String>)
    ensures
        match (r, stay(text::text_of(*word))) {
            (Ok(n), Ok(m)) => n == m,
            (Err(said), Err(words)) => said@ == words,
            _ => false,
        },
{
    match word {
        None => Ok(STAY_SECS),
        Some(w) => match number::parse_unsigned(w.as_str(), u64::MAX) {
            Some(n) => Ok(n),
            None => {
                let mut said: String = "stay: deadline_secs must be an integer, got ".to_owned();
                said.append(text::debug_text(w.as_str()).as_str());
                Err(said)
            },
        },
    }
}

/// Why a name is not the one that was wanted.
#[derive(Clone, Copy, Debug, PartialEq, Eq, Structural)]
pub enum NameFault {
    Silent,
    Other,
}

/// Why a name is not the one that was wanted, if so.
pub open spec fn name_fault(name: Option<Seq<char>>, want: Seq<char>) -> Option<NameFault> {
    match name {
        None => Some(NameFault::Silent),
        Some(n) => if n == want {
            None
        } else {
            Some(NameFault::Other)
        },
    }
}

/// Judges a name.
pub fn check_name(name: &Option<String>, want: &str) -> (f: Option<NameFault>)
    ensures
        f == name_fault(text::text_of(*name), want@),
{
    match name {
        None => Some(NameFault::Silent),
        Some(n) => if text::same_text(n.as_str(), want) {
            None
        } else {
            Some(NameFault::Other)
        },
    }
}

// ------------------------------------------------------------------------------------------
//  Raw frames
// ------------------------------------------------------------------------------------------

/// The tenth level, as a field.
pub const LEVEL_TEN: u32 = 10;

/// What a frame says of the tenth level.
pub open spec fn dinged(opcode: u16, b: Seq<u8>) -> Option<bool> {
    if opcode == wire::SMSG_UPDATE_OBJECT && wire::holds_word(b, LEVEL_TEN) {
        Some(wire::holds_word(b, 1))
    } else {
        None
    }
}

/// What a frame says of the tenth level: nothing where it does not carry it, else whether it
/// carries the talent point too.
pub fn ding(opcode: u16, payload: &Vec<u8>) -> (r: Option<bool>)
    ensures
        r == dinged(opcode, payload@),
{
    if opcode != wire::SMSG_UPDATE_OBJECT || !wire::contains_word(payload, LEVEL_TEN) {
        None
    } else {
        Some(wire::contains_word(payload, 1))
    }
}

/// A spell was learned.
pub const SMSG_LEARNED_SPELL: u16 = 0x012B;

/// A spell took the place of another.
pub const SMSG_SUPERCEDED_SPELL: u16 = 0x012C;

/// A spell begins.
pub const SMSG_SPELL_START: u16 = 0x0131;

/// A spell goes out.
pub const SMSG_SPELL_GO: u16 = 0x0132;

/// What was seen of a talent.
#[derive(Clone, Copy, Debug, PartialEq, Eq, Structural)]
pub struct Talent {
    pub learned: u32,
    pub superceded: u32,
    pub values: u32,
}

/// Why a talent fails.
#[derive(Clone, Copy, Debug, PartialEq, Eq, Structural)]
pub enum TalentFault {
    NoSpell,
    NoPoints,
}

impl Talent {
    /// Before anything is seen.
    pub open spec fn fresh() -> Talent {
        Talent { learned: 0, superceded: 0, values: 0 }
    }

    /// Enough was seen.
    pub open spec fn enough(self) -> bool {
        (self.learned != 0 || self.superceded != 0) && self.values > 0
    }

    /// Why a talent fails, if it does.
    pub open spec fn fault(self) -> Option<TalentFault> {
        if self.learned == 0 && self.superceded == 0 {
            Some(TalentFault::NoSpell)
        } else if self.values == 0 {
            Some(TalentFault::NoPoints)
        } else {
            None
        }
    }

    /// A talent that is being learned.
    pub fn new() -> (t: Talent)
        ensures
            t == Talent::fresh(),
    {
        Talent { learned: 0, superceded: 0, values: 0 }
    }

    /// Once a frame is seen. A body too short for its spell says nothing.
    pub open spec fn after(self, opcode: u16, b: Seq<u8>) -> Talent {
        if opcode == SMSG_LEARNED_SPELL {
            match wire::number_at(b, 0, 4) {
                Some(n) => Talent { learned: n as u32, ..self },
                None => self,
            }
        } else if opcode == SMSG_SUPERCEDED_SPELL {
            match wire::number_at(b, 2, 2) {
                Some(n) => Talent { superceded: n as u32, ..self },
                None => self,
            }
        } else if opcode == wire::SMSG_UPDATE_OBJECT {
            Talent {
                values: if self.values < u32::MAX {
                    (self.values + 1) as u32
                } else {
                    u32::MAX
                },
                ..self
            }
        } else {
            self
        }
    }

    /// Notes a frame, and says whether that is enough.
    pub fn observe(&mut self, opcode: u16, payload: &Vec<u8>) -> (enough: bool)
        ensures
            *final(self) == old(self).after(opcode, payload@),
            enough == final(self).enough(),
    {
        if opcode == SMSG_LEARNED_SPELL {
            if let Some(n) = wire::u32_at(payload, 0) {
                self.learned = n;
            }
        } else if opcode == SMSG_SUPERCEDED_SPELL {
            if let Some(n) = wire::u16_at(payload, 2) {
                self.superceded = n as u32;
            }
        } else if opcode == wire::SMSG_UPDATE_OBJECT {
            if self.values < u32::MAX {
                self.values = self.values + 1;
            }
        }
        (self.learned != 0 || self.superceded != 0) && self.values > 0
    }

    /// Concludes a talent.
    pub fn verdict(&self) -> (f: Option<TalentFault>)
        ensures
            f == self.fault(),
    {
        if self.learned == 0 && self.superceded == 0 {
            Some(TalentFault::NoSpell)
        } else if self.values == 0 {
            Some(TalentFault::NoPoints)
        } else {
            None
        }
    }
}

/// What was seen of a catch.
#[derive(Clone, Copy, Debug, PartialEq, Eq, Structural)]
pub struct Fishing {
    pub spell: u32,
    pub start: bool,
    pub go: bool,
    pub skill: bool,
}

/// Why a catch fails.
#[derive(Clone, Copy, Debug, PartialEq, Eq, Structural)]
pub enum FishFault {
    NoCast,
    NoSkill,
}

impl Fishing {
    /// Before anything is seen.
    pub open spec fn fresh(spell: u32) -> Fishing {
        Fishing { spell, start: false, go: false, skill: false }
    }

    /// Once a frame is seen, with the fields that it updates.
    pub open spec fn after(
        self,
        opcode: u16,
        b: Seq<u8>,
        updates: Seq<wire::ValuesUpdate>,
    ) -> Fishing {
        Fishing {
            spell: self.spell,
            start: self.start || (opcode == SMSG_SPELL_START && wire::holds_word(b, self.spell)),
            go: self.go || (opcode == SMSG_SPELL_GO && wire::holds_word(b, self.spell)),
            skill: self.skill || (opcode == wire::SMSG_UPDATE_OBJECT && wire::any_names(
                updates,
                wire::FISHING,
            )),
        }
    }

    /// Enough was seen.
    pub open spec fn enough(self) -> bool {
        self.start && self.go && self.skill
    }

    /// Why a catch fails, if it does.
    pub open spec fn fault(self) -> Option<FishFault> {
        if !self.start || !self.go {
            Some(FishFault::NoCast)
        } else if !self.skill {
            Some(FishFault::NoSkill)
        } else {
            None
        }
    }

    /// A line is cast.
    pub fn new(spell: u32) -> (f: Fishing)
        ensures
            f == Fishing::fresh(spell),
    {
        Fishing { spell, start: false, go: false, skill: false }
    }

    /// Notes a frame, with the fields that it updates, and says whether that is enough.
    pub fn observe(
        &mut self,
        opcode: u16,
        payload: &Vec<u8>,
        updates: &Vec<wire::ValuesUpdate>,
    ) -> (enough: bool)
        ensures
            *final(self) == old(self).after(opcode, payload@, updates@),
            enough == final(self).enough(),
    {
        if opcode == SMSG_SPELL_START {
            if wire::contains_word(payload, self.spell) {
                self.start = true;
            }
        } else if opcode == SMSG_SPELL_GO {
            if wire::contains_word(payload, self.spell) {
                self.go = true;
            }
        } else if opcode == wire::SMSG_UPDATE_OBJECT {
            if wire::skill_arrived(updates, wire::FISHING) {
                self.skill = true;
            }
        }
        self.start && self.go && self.skill
    }

    /// Concludes a catch.
    pub fn verdict(&self) -> (f: Option<FishFault>)
        ensures
            f == self.fault(),
    {
        if !self.start || !self.go {
            Some(FishFault::NoCast)
        } else if !self.skill {
            Some(FishFault::NoSkill)
        } else {
            None
        }
    }
}

/// A frame is noted by its opcode: a quest counts an item.
pub const SMSG_QUESTUPDATE_ADD_ITEM: u16 = 0x019A;

/// What an audit notes of a frame.
#[derive(Clone, Copy, Debug)]
pub enum Audit {
    /// Objects are updated.
    Update,
    /// An object is gone.
    Destroyed,
    /// Someone moves.
    Moved(Option<u64>),
    /// A creature moves.
    MonsterMove(Option<u64>),
    /// An item was gained: which, and how many.
    Item(Option<(u32, u32)>),
    /// A quest counts an item.
    QuestItem,
    /// A heal.
    Heal(Option<u32>),
    /// Nothing.
    Nothing,
}

/// What an audit notes.
pub enum AuditView {
    Update,
    Destroyed,
    Moved(Option<nat>),
    MonsterMove(Option<nat>),
    Item(Option<(nat, nat)>),
    QuestItem,
    Heal(Option<nat>),
    Nothing,
}

impl View for Audit {
    type V = AuditView;

    open spec fn view(&self) -> AuditView {
        match *self {
            Audit::Update => AuditView::Update,
            Audit::Destroyed => AuditView::Destroyed,
            Audit::Moved(g) => AuditView::Moved(wire::as_number(g)),
            Audit::MonsterMove(g) => AuditView::MonsterMove(wire::as_number(g)),
            Audit::Item(w) => AuditView::Item(wire::two_numbers(w)),
            Audit::QuestItem => AuditView::QuestItem,
            Audit::Heal(Some(n)) => AuditView::Heal(Some(n as nat)),
            Audit::Heal(None) => AuditView::Heal(None),
            Audit::Nothing => AuditView::Nothing,
        }
    }
}

/// What an audit notes of a frame while the auditor moves.
pub open spec fn noted_moving(opcode: u16, b: Seq<u8>) -> AuditView {
    if opcode == wire::SMSG_UPDATE_OBJECT {
        AuditView::Update
    } else if opcode == wire::SMSG_DESTROY_OBJECT {
        AuditView::Destroyed
    } else if wire::is_move(opcode) {
        AuditView::Moved(wire::packed_guid(b))
    } else {
        AuditView::Nothing
    }
}

/// What an audit notes of a frame while the auditor stands.
pub open spec fn noted_standing(opcode: u16, b: Seq<u8>) -> AuditView {
    if opcode == wire::SMSG_UPDATE_OBJECT {
        AuditView::Update
    } else if opcode == wire::SMSG_MONSTER_MOVE {
        AuditView::MonsterMove(wire::packed_guid(b))
    } else if opcode == wire::SMSG_ITEM_PUSH_RESULT {
        AuditView::Item(wire::gained(b))
    } else if opcode == SMSG_QUESTUPDATE_ADD_ITEM {
        AuditView::QuestItem
    } else if opcode == wire::SMSG_SPELLHEALLOG {
        AuditView::Heal(wire::healed(b))
    } else {
        AuditView::Nothing
    }
}

/// What an audit notes of a frame while the auditor moves: updates, destructions, and whoever
/// moves.
pub fn audit_moving(opcode: u16, payload: &Vec<u8>) -> (a: Audit)
    ensures
        a@ == noted_moving(opcode, payload@),
{
    if opcode == wire::SMSG_UPDATE_OBJECT {
        Audit::Update
    } else if opcode == wire::SMSG_DESTROY_OBJECT {
        Audit::Destroyed
    } else if opcode >= 0x00B5 && opcode <= 0x00EE {
        Audit::Moved(wire::read_packed_guid(payload))
    } else {
        Audit::Nothing
    }
}

/// What an audit notes of a frame while the auditor stands.
pub fn audit_standing(opcode: u16, payload: &Vec<u8>) -> (a: Audit)
    ensures
        a@ == noted_standing(opcode, payload@),
{
    if opcode == wire::SMSG_UPDATE_OBJECT {
        Audit::Update
    } else if opcode == wire::SMSG_MONSTER_MOVE {
        Audit::MonsterMove(wire::read_packed_guid(payload))
    } else if opcode == wire::SMSG_ITEM_PUSH_RESULT {
        Audit::Item(wire::item_push(payload))
    } else if opcode == SMSG_QUESTUPDATE_ADD_ITEM {
        Audit::QuestItem
    } else if opcode == wire::SMSG_SPELLHEALLOG {
        Audit::Heal(wire::heal_amount(payload))
    } else {
        Audit::Nothing
    }
}

// ------------------------------------------------------------------------------------------
//  A channel
// ------------------------------------------------------------------------------------------

/// How long a channel is listened to where nothing else is said, in seconds.
pub const CHANNEL_SECS: u64 = 10;

/// What is done in a channel: what is said, and for how long it is listened to. A later word
/// replaces an earlier; a word that is neither is passed over.
pub open spec fn channel_plan(words: Seq<Seq<char>>, say: Option<Seq<char>>, secs: nat) -> (
    Option<Seq<char>>,
    nat,
)
    decreases words.len(),
{
    if words.len() == 0 {
        (say, secs)
    } else if words[0] == "say"@ {
        if words.len() == 1 {
            (None, secs)
        } else {
            channel_plan(words.skip(2), Some(words[1]), secs)
        }
    } else {
        match number::unsigned_value(words[0], u64::MAX as nat) {
            Some(n) => channel_plan(words.skip(1), say, n),
            None => channel_plan(words.skip(1), say, secs),
        }
    }
}

/// What is done in a channel.
pub fn channel_args(args: &Vec<String>) -> (r: (Option<String>, u64))
    ensures
        (text::text_of(r.0), r.1 as nat) == channel_plan(
            text::texts(args@),
            None,
            CHANNEL_SECS as nat,
        ),
{
    let ghost words = text::texts(args@);
    let ghost owed = channel_plan(words, None, CHANNEL_SECS as nat);
    let mut say: Option<String> = None;
    let mut secs: u64 = CHANNEL_SECS;
    let n: usize = args.len();
    let mut i: usize = 0;
    assert(words.skip(0) =~= words);
    while i < n
        invariant
            n == args@.len(),
            i <= n,
            words == text::texts(args@),
            channel_plan(words.skip(i as int), text::text_of(say), secs as nat) == owed,
        decreases n - i,
    {
        let ghost here = words.skip(i as int);
        assert(here[0] == args@[i as int]@);
        assert(here.skip(1) =~= words.skip(i + 1));
        if text::same_text(args[i].as_str(), "say") {
            if n - i == 1 {
                say = None;
                i = n;
                assert(words.skip(n as int).len() == 0);
            } else {
                assert(here[1] == args@[i + 1]@);
                assert(here.skip(2) =~= words.skip(i + 2));
                say = Some(args[i + 1].clone());
                i = i + 2;
            }
        } else {
            if let Some(x) = number::parse_unsigned(args[i].as_str(), u64::MAX) {
                secs = x;
            }
            i = i + 1;
        }
    }
    assert(words.skip(n as int).len() == 0);
    (say, secs)
}

// ------------------------------------------------------------------------------------------
//  What the probes accept
// ------------------------------------------------------------------------------------------

/// Gear shows where it is the one that is wanted, or where any is wanted and there is some; a slot that
/// is not there shows nothing.
pub proof fn gear_shows_in_its_slot(ids: Seq<u32>, slot: int, want: u32)
    requires
        0 <= slot < ids.len(),
    ensures
        worn(ids, slot) == ids[slot],
        worn(ids, ids.len() as int) == 0,
        shows(worn(ids, slot), Some(want)) <==> ids[slot] == want,
        shows(worn(ids, slot), None) <==> ids[slot] > 0,
        !shows(worn(ids, ids.len() as int), None),
{
}

/// A deletion passes exactly where it succeeded and the character is listed no more.
pub proof fn a_deleted_character_is_gone(success: bool, remaining: Seq<u64>, guid: u64)
    ensures
        delete_fault(success, remaining, guid) is None <==> success && forall|i: int|
            0 <= i < remaining.len() ==> remaining[i] != guid,
        !success ==> delete_fault(success, remaining, guid) == Some(DeleteFault::Refused),
{
}

/// A spell is missing exactly where it is wanted and not there, and each is missing as often as it is
/// wanted.
pub proof fn a_spell_is_missing_where_it_is_wanted(want: Seq<u32>, have: Seq<u32>, id: u32)
    ensures
        lacking(want, have).contains(id) <==> want.contains(id) && !have.contains(id),
        lacking(want, Seq::empty()) == want,
        lacking(want.push(id), have) == if have.contains(id) {
            lacking(want, have)
        } else {
            lacking(want, have).push(id)
        },
{
    lemma_lacking(want, have, id);
    lemma_all_lacking(want);
    reveal(Seq::filter);
    assert(want.push(id).drop_last() =~= want);
}

proof fn lemma_all_lacking(want: Seq<u32>)
    ensures
        lacking(want, Seq::empty()) == want,
    decreases want.len(),
{
    reveal(Seq::filter);
    if want.len() > 0 {
        lemma_all_lacking(want.drop_last());
        assert(want.drop_last().push(want.last()) =~= want);
    }
    assert(lacking(want, Seq::empty()) =~= want);
}

proof fn lemma_lacking(want: Seq<u32>, have: Seq<u32>, id: u32)
    ensures
        lacking(want, have).contains(id) <==> want.contains(id) && !have.contains(id),
    decreases want.len(),
{
    reveal(Seq::filter);
    if want.len() > 0 {
        let rest = want.drop_last();
        let last = want.last();
        lemma_lacking(rest, have, id);
        let before = lacking(rest, have);
        let more = before.push(last);
        assert(want[want.len() - 1] == last);
        assert(more[before.len() as int] == last);
        if rest.contains(id) {
            let i = choose|i: int| 0 <= i < rest.len() && rest[i] == id;
            assert(want[i] == id);
        }
        if want.contains(id) && id != last {
            let i = choose|i: int| 0 <= i < want.len() && want[i] == id;
            assert(rest[i] == id);
        }
        if before.contains(id) {
            let i = choose|i: int| 0 <= i < before.len() && before[i] == id;
            assert(more[i] == id);
        }
        if more.contains(id) && id != last {
            let i = choose|i: int| 0 <= i < more.len() && more[i] == id;
            assert(before[i] == id);
        }
    }
}

/// A standing passes exactly where it is the one that is wanted and, where that is asked, the second bit
/// of its flags says whether one is at war.
pub proof fn a_standing_is_judged_with_its_flag(
    standings: Seq<i32>,
    flags: Seq<u8>,
    i: int,
    want: i32,
    high: u8,
    low: u8,
    war: u8,
)
    requires
        0 <= i < standings.len(),
        i < flags.len(),
        high < 64,
        low < 2,
        war < 2,
        flags[i] == 4 * high + 2 * war + low,
    ensures
        faction_fault(standings, flags, i, want, None) is None <==> standings[i] == want,
        faction_fault(standings, flags, i, want, Some(war)) is None <==> standings[i] == want,
        standings[i] == want ==> faction_fault(standings, flags, i, want, Some((1 - war) as u8)) == Some(
            FactionFault::AtWar(war),
        ),
        standing(standings, standings.len() as int) == 0,
{
}

/// An item passes exactly where its armor is the one that is wanted, its spell where one is wanted, and its
/// binding where that is asked.
pub proof fn an_item_is_judged_by_three_things(item: ItemFacts, armor: i32, spell: u32, bonding: i32)
    ensures
        item_fault(item, armor, spell, bonding) is None <==> item.armor == armor && (spell == 0 || spell
            == item.spell) && (bonding < 0 || bonding == item.bonding),
        item.armor != armor ==> item_fault(item, armor, spell, bonding) == Some(ItemFault::Armor),
{
}

/// A level brings mana exactly where it is expected, and some attribute in any case.
pub proof fn a_level_brings_something(l: LevelUp)
    ensures
        l.brings(1) <==> l.mana > 0 && l.strength + l.agility + l.stamina + l.intellect + l.spirit > 0,
        l.brings(0) <==> l.mana == 0 && l.strength + l.agility + l.stamina + l.intellect + l.spirit > 0,
{
}

/// The time played grew by the difference, and something was revealed where it was hidden before.
pub proof fn time_played_grows(first: u32, by: u32)
    requires
        first + by <= u32::MAX,
    ensures
        growth(first, (first + by) as u32) == if by > 0 {
            Some(by)
        } else {
            None
        },
        by > 0 ==> growth((first + by) as u32, first) is None,
        uncovered(false, true) && !uncovered(true, true) && !uncovered(true, false) && !uncovered(
            false,
            false,
        ),
{
}

/// A session is held for as long as its word says, one minute where there is none, and a word that is no
/// number is refused.
pub proof fn a_session_is_held_as_long_as_it_says(n: nat, word: Seq<char>)
    requires
        n <= u64::MAX,
    ensures
        stay(None) == Ok::<nat, Seq<char>>(60),
        stay(Some(number::decimal(n))) == Ok::<nat, Seq<char>>(n),
        stay(Some(Seq::empty())) is Err,
        number::unsigned_value(word, u64::MAX as nat) is None <==> stay(Some(word)) is Err,
{
    number::a_written_number_reads_back(n, u64::MAX as nat);
}

/// A name passes where it is the one that is wanted.
pub proof fn a_name_is_the_one_that_is_wanted(name: Seq<char>, other: Seq<char>)
    ensures
        name_fault(Some(name), name) is None,
        other != name ==> name_fault(Some(other), name) == Some(NameFault::Other),
        name_fault(None, name) == Some(NameFault::Silent),
{
}

/// The tenth level is told of by an update of objects that holds its number as a word, with the talent
/// point where it holds a one as well.
pub proof fn the_tenth_level_is_told(before: Seq<u8>, after: Seq<u8>, opcode: u16)
    ensures
        dinged(0x00A9, before + seq![10u8, 0, 0, 0] + after) is Some,
        dinged(0x00A9, before + seq![10u8, 0, 0, 0] + seq![1u8, 0, 0, 0] + after) == Some(true),
        opcode != 0x00A9 ==> dinged(opcode, after) is None,
        after.len() < 4 ==> dinged(opcode, after) is None,
{
    let ten = seq![10u8, 0, 0, 0];
    let one = seq![1u8, 0, 0, 0];
    let a = before + ten + after;
    let b = before + ten + one + after;
    let at = before.len() as int;
    assert(a.subrange(at, at + 4) =~= ten);
    assert(b.subrange(at, at + 4) =~= ten);
    assert(b.subrange(at + 4, at + 8) =~= one);
    wire::lemma_four(a, at);
    wire::lemma_four(b, at);
    wire::lemma_four(b, at + 4);
    assert(wire::number_at(a, at, 4) == Some(10nat));
    assert(wire::number_at(b, at, 4) == Some(10nat));
    assert(wire::number_at(b, at + 4, 4) == Some(1nat));
}

/// A talent passes exactly where its spell was learned or took the place of another, and an update came
/// with it, in whichever order.
pub proof fn a_talent_is_seen_in_either_order(spell: u32, update: Seq<u8>, t: Talent)
    requires
        spell > 0,
    ensures
        ({
            let body = wire::low_bytes(spell as nat, 4);
            let start = Talent::fresh();
            let learned = start.after(0x012B, body);
            &&& learned.learned == spell && !learned.enough() && learned.fault() == Some(
                TalentFault::NoPoints,
            )
            &&& learned.after(0x00A9, update).fault() is None && learned.after(0x00A9, update).enough()
            &&& start.after(0x00A9, update).after(0x012B, body).fault() is None
            &&& start.fault() == Some(TalentFault::NoSpell)
            &&& start.after(0x00A9, update).fault() == Some(TalentFault::NoSpell)
        }),
        t.fault() is None <==> t.enough(),
{
    let body = wire::low_bytes(spell as nat, 4);
    reveal_with_fuel(wire::room, 5);
    wire::a_number_reads_back(Seq::empty(), spell as nat, 4, Seq::empty());
    assert(Seq::empty() + body + Seq::empty() =~= body);
}

/// A spell that took the place of another is read from behind the other's two bytes.
pub proof fn a_superceding_spell_is_read(old_spell: u16, spell: u16, t: Talent)
    ensures
        t.after(0x012C, wire::low_bytes(old_spell as nat, 2) + wire::low_bytes(spell as nat, 2)).superceded
            == spell,
        t.after(0x012C, wire::low_bytes(old_spell as nat, 2)) == t,
{
    reveal_with_fuel(wire::room, 3);
    reveal_with_fuel(wire::low_bytes, 3);
    let a = wire::low_bytes(old_spell as nat, 2);
    let b = wire::low_bytes(spell as nat, 2);
    assert(a.len() == 2);
    wire::a_number_reads_back(a, spell as nat, 2, Seq::empty());
    assert(a + b + Seq::empty() =~= a + b);
}

/// A catch passes exactly where its spell began and went out and the skill of fishing was named, in
/// whichever order; another spell does not count.
pub proof fn a_catch_is_seen_in_full(f: Fishing, b: Seq<u8>, updates: Seq<wire::ValuesUpdate>)
    ensures
        f.fault() is None <==> f.start && f.go && f.skill,
        f.enough() <==> f.fault() is None,
        f.after(0x0131, b, updates).start <==> f.start || wire::holds_word(b, f.spell),
        f.after(0x0132, b, updates).go <==> f.go || wire::holds_word(b, f.spell),
        f.after(0x00A9, b, updates).skill <==> f.skill || wire::any_names(updates, 356),
        f.after(0x0131, b, updates).go == f.go && f.after(0x0131, b, updates).skill == f.skill,
        f.after(0x0132, b, updates).start == f.start && f.after(0x0132, b, updates).skill == f.skill,
        f.after(0x00A9, b, updates).start == f.start && f.after(0x00A9, b, updates).go == f.go,
        f.after(0x0131, b, updates).spell == f.spell,
        Fishing::fresh(f.spell).fault() == Some(FishFault::NoCast),
{
}

/// What an audit notes of a frame goes by its opcode.
pub proof fn an_audit_notes_by_opcode(opcode: u16, b: Seq<u8>)
    ensures
        noted_moving(0x00A9, b) == AuditView::Update,
        noted_moving(0x00AA, b) == AuditView::Destroyed,
        181 <= opcode && opcode <= 238 ==> noted_moving(opcode, b) == AuditView::Moved(
            wire::packed_guid(b),
        ),
        (opcode < 0x00A9 || opcode > 238 || (opcode > 0x00AA && opcode < 181)) ==> noted_moving(opcode, b)
            == AuditView::Nothing,
        noted_standing(0x00A9, b) == AuditView::Update,
        noted_standing(0x00DD, b) == AuditView::MonsterMove(wire::packed_guid(b)),
        noted_standing(0x0166, b) == AuditView::Item(wire::gained(b)),
        noted_standing(0x019A, b) == AuditView::QuestItem,
        noted_standing(0x0150, b) == AuditView::Heal(wire::healed(b)),
        opcode != 0x00A9 && opcode != 0x00DD && opcode != 0x0166 && opcode != 0x019A && opcode != 0x0150
            ==> noted_standing(opcode, b) == AuditView::Nothing,
{
}

/// What is done in a channel is read word by word: what follows `say` is said, a number says for how long,
/// a later word replaces an earlier, and anything else is passed over.
pub proof fn a_channel_is_read_word_by_word(
    words: Seq<Seq<char>>,
    said: Seq<char>,
    n: nat,
    say: Option<Seq<char>>,
    secs: nat,
)
    requires
        n <= u64::MAX,
        number::decimal(n) != "say"@,
    ensures
        channel_plan(seq!["say"@, said] + words, say, secs) == channel_plan(words, Some(said), secs),
        channel_plan(seq![number::decimal(n)] + words, say, secs) == channel_plan(words, say, n),
        channel_plan(Seq::empty(), say, secs) == (say, secs),
        channel_plan(seq!["say"@], say, secs) == (None::<Seq<char>>, secs),
        said != "say"@ && number::unsigned_value(said, u64::MAX as nat) is None ==> channel_plan(
            seq![said] + words,
            say,
            secs,
        ) == channel_plan(words, say, secs),
{
    number::a_written_number_reads_back(n, u64::MAX as nat);
    assert((seq!["say"@, said] + words).skip(2) =~= words);
    assert((seq![number::decimal(n)] + words).skip(1) =~= words);
    assert((seq![said] + words).skip(1) =~= words);
}

} // verus!
