//! Which family a mode belongs to. A mode that nobody claims is refused: a mistyped one must not
//! read as a run that passed.

use vstd::prelude::*;
use crate::number;
use crate::text;

verus! {

/// A family of modes.
#[derive(Clone, Copy, Debug, PartialEq, Eq, Structural)]
pub enum Family {
    /// Before the world is entered.
    CharacterSelect,
    Probe,
    Social,
    Relay,
    Scenario,
    Group,
}

/// What a mode asks for.
#[derive(Clone, Copy, Debug, PartialEq, Eq, Structural)]
pub enum Plan {
    /// Entering the world is all.
    Smoke,
    /// A mode of a family.
    Named(Family),
    /// A spell is cast at a target.
    Cast(u32),
    /// Nobody claims it.
    Unknown,
}

/// The modes before the world is entered.
pub open spec fn select_names() -> Seq<Seq<char>> {
    seq!["char-enum-gear"@, "make-char"@, "char-create-gear"@, "char-delete"@]
}

/// The probes.
pub open spec fn probe_names() -> Seq<Seq<char>> {
    seq![
        "initial-spells"@,
        "init-factions"@,
        "query-item"@,
        "played-time"@,
        "played-time-live"@,
        "levelup-info"@,
        "questgiver"@,
        "gossip"@,
        "ghost"@,
        "stay"@,
        "logout"@,
        "ding"@,
        "repop"@,
        "cast-dump"@,
        "swing-flow"@,
        "armor-audit"@,
        "fall"@,
        "engage-retreat"@,
        "watch-casts"@,
        "channel"@,
        "raw-audit"@,
        "autoshot"@,
        "talent"@,
        "groundcast"@,
        "backswing"@,
        "setbutton"@,
        "fishcast"@,
        "petsummon"@,
        "atwar"@,
        "values-watch"@,
        "opcode-watch"@,
        "addon-ping"@,
        "event-stream"@,
        "walkmelee"@,
        "seamwalk"@,
        "casttime"@,
        "name-query"@,
        "bindpoint"@,
    ]
}

/// The modes of speakers and listeners.
pub open spec fn social_names() -> Seq<Seq<char>> {
    seq![
        "who"@,
        "friend"@,
        "ignore-whisper"@,
        "roll"@,
        "text-emote"@,
        "say-range"@,
        "inspect"@,
    ]
}

/// The modes of movers and observers.
pub open spec fn relay_names() -> Seq<Seq<char>> {
    seq!["relay-observer"@, "relay-sender"@, "aoi-observer"@, "aoi-mover"@, "soak"@]
}

/// The scenarios.
pub open spec fn scenario_names() -> Seq<Seq<char>> {
    seq![
        "scenario-quest"@,
        "vendor-list"@,
        "vendor-buy"@,
        "equip-from"@,
        "unequip-from"@,
        "vendor-sell"@,
        "vendor-repair"@,
        "vendor-buyback"@,
        "vendor-sell-buyback"@,
        "scenario-train"@,
        "scenario-death"@,
        "scenario-bank"@,
        "scenario-dive"@,
        "addon-control"@,
    ]
}

/// The modes of parties.
pub open spec fn group_names() -> Seq<Seq<char>> {
    seq![
        "group-leader"@,
        "party-bots"@,
        "group-join"@,
        "group-invite-expect-decline"@,
        "group-decline"@,
    ]
}

/// The family that claims a mode.
pub open spec fn family(mode: Seq<char>) -> Option<Family> {
    if select_names().contains(mode) {
        Some(Family::CharacterSelect)
    } else if probe_names().contains(mode) {
        Some(Family::Probe)
    } else if social_names().contains(mode) {
        Some(Family::Social)
    } else if relay_names().contains(mode) {
        Some(Family::Relay)
    } else if scenario_names().contains(mode) {
        Some(Family::Scenario)
    } else if group_names().contains(mode) {
        Some(Family::Group)
    } else {
        None
    }
}

/// What a mode asks for: one that no family claims is a spell, or nothing.
pub open spec fn plan(mode: Option<Seq<char>>) -> Plan {
    match mode {
        None => Plan::Smoke,
        Some(m) => match family(m) {
            Some(f) => Plan::Named(f),
            None => match number::unsigned_value(m, u32::MAX as nat) {
                Some(n) => Plan::Cast(n as u32),
                None => Plan::Unknown,
            },
        },
    }
}

fn named(names: &Vec<&'static str>, mode: &str, Ghost(all): Ghost<Seq<Seq<char>>>) -> (yes: bool)
    requires
        names@.len() == all.len(),
        forall|i: int| 0 <= i < all.len() ==> (#[trigger] names@[i])@ == all[i],
    ensures
        yes == all.contains(mode@),
{
    for i in 0..names.len()
        invariant
            names@.len() == all.len(),
            forall|j: int| 0 <= j < all.len() ==> (#[trigger] names@[j])@ == all[j],
            forall|j: int| 0 <= j < i ==> all[j] != mode@,
    {
        if text::same_text(names[i], mode) {
            assert(all[i as int] == mode@);
            return true;
        }
    }
    false
}

/// The family that claims a mode.
pub fn family_of(mode: &str) -> (f: Option<Family>)
    ensures
        f == family(mode@),
{
    let select: Vec<&'static str> = vec![
        "char-enum-gear",
        "make-char",
        "char-create-gear",
        "char-delete",
    ];
    if named(&select, mode, Ghost(select_names())) {
        return Some(Family::CharacterSelect);
    }
    if is_probe(mode) {
        return Some(Family::Probe);
    }
    let social: Vec<&'static str> = vec![
        "who",
        "friend",
        "ignore-whisper",
        "roll",
        "text-emote",
        "say-range",
        "inspect",
    ];
    if named(&social, mode, Ghost(social_names())) {
        return Some(Family::Social);
    }
    let relay: Vec<&'static str> = vec![
        "relay-observer",
        "relay-sender",
        "aoi-observer",
        "aoi-mover",
        "soak",
    ];
    if named(&relay, mode, Ghost(relay_names())) {
        return Some(Family::Relay);
    }
    let scenario: Vec<&'static str> = vec![
        "scenario-quest",
        "vendor-list",
        "vendor-buy",
        "equip-from",
        "unequip-from",
        "vendor-sell",
        "vendor-repair",
        "vendor-buyback",
        "vendor-sell-buyback",
        "scenario-train",
        "scenario-death",
        "scenario-bank",
        "scenario-dive",
        "addon-control",
    ];
    if named(&scenario, mode, Ghost(scenario_names())) {
        return Some(Family::Scenario);
    }
    let group: Vec<&'static str> = vec![
        "group-leader",
        "party-bots",
        "group-join",
        "group-invite-expect-decline",
        "group-decline",
    ];
    if named(&group, mode, Ghost(group_names())) {
        return Some(Family::Group);
    }
    None
}

fn is_probe(mode: &str) -> (yes: bool)
    ensures
        yes == probe_names().contains(mode@),
{
    let probes: Vec<&'static str> = vec![
        "initial-spells",
        "init-factions",
        "query-item",
        "played-time",
        "played-time-live",
        "levelup-info",
        "questgiver",
        "gossip",
        "ghost",
        "stay",
        "logout",
        "ding",
        "repop",
        "cast-dump",
        "swing-flow",
        "armor-audit",
        "fall",
        "engage-retreat",
        "watch-casts",
        "channel",
        "raw-audit",
        "autoshot",
        "talent",
        "groundcast",
        "backswing",
        "setbutton",
        "fishcast",
        "petsummon",
        "atwar",
        "values-watch",
        "opcode-watch",
        "addon-ping",
        "event-stream",
        "walkmelee",
        "seamwalk",
        "casttime",
        "name-query",
        "bindpoint",
    ];
    named(&probes, mode, Ghost(probe_names()))
}

/// What a mode asks for.
pub fn plan_of(mode: &Option<String>) -> (p: Plan)
    ensures
        p == plan(text::text_of(*mode)),
{
    match mode {
        None => Plan::Smoke,
        Some(m) => match family_of(m.as_str()) {
            Some(f) => Plan::Named(f),
            None => match number::parse_unsigned(m.as_str(), u32::MAX as u64) {
                Some(n) => Plan::Cast(n as u32),
                None => Plan::Unknown,
            },
        },
    }
}

/// Said of an argument that is missing.
pub open spec fn missing(usage: Seq<char>, name: Seq<char>) -> Seq<char> {
    "usage: "@ + usage + " \u{2014} missing <"@ + name + ">"@
}

/// The argument at a place.
pub open spec fn path_at(a: Seq<Seq<char>>, at: int, usage: Seq<char>, name: Seq<char>) -> Result<
    Seq<char>,
    Seq<char>,
> {
    if at < a.len() {
        Ok(a[at])
    } else {
        Err(missing(usage, name))
    }
}

/// The argument at a place. It has no default: two runs never meet in one file.
pub fn require_path_arg(args: &Vec<String>, at: usize, usage: &str, name: &str) -> (r: Result<
    String,
    String,
>)
    ensures
        match (r, path_at(text::texts(args@), at as int, usage@, name@)) {
            (Ok(p), Ok(path)) => p@ == path,
            (Err(said), Err(words)) => said@ == words,
            _ => false,
        },
{
    if at < args.len() {
        return Ok(args[at].clone());
    }
    let mut s: String = "usage: ".to_owned();
    s.append(usage);
    s.append(" \u{2014} missing <");
    s.append(name);
    s.append(">");
    Err(s)
}

/// The number at a place: a default where there is none, and where it is no number.
pub open spec fn number_or(a: Seq<Seq<char>>, at: int, max: nat, default: nat) -> nat {
    if 0 <= at < a.len() {
        match number::unsigned_value(a[at], max) {
            Some(n) => n,
            None => default,
        }
    } else {
        default
    }
}

/// The number at a place, or a default.
pub fn number_arg(args: &Vec<String>, at: usize, max: u64, default: u64) -> (n: u64)
    ensures
        n == number_or(text::texts(args@), at as int, max as nat, default as nat),
{
    if at >= args.len() {
        return default;
    }
    assert(text::texts(args@)[at as int] == args@[at as int]@);
    match number::parse_unsigned(args[at].as_str(), max) {
        Some(n) => n,
        None => default,
    }
}

/// A mode that no family claims and that is a number casts that spell; any other is unknown, and none at
/// all is the smoke test.
pub proof fn an_unclaimed_mode_is_a_spell(spell: u32, mode: Seq<char>)
    ensures
        family(number::decimal(spell as nat)) is None ==> plan(Some(number::decimal(spell as nat)))
            == Plan::Cast(spell),
        family(mode) is Some ==> plan(Some(mode)) == Plan::Named(family(mode)->0),
        family(mode) is None && number::unsigned_value(mode, u32::MAX as nat) is None ==> plan(Some(mode))
            == Plan::Unknown,
        plan(None) == Plan::Smoke,
{
    number::a_written_number_reads_back(spell as nat, u32::MAX as nat);
}

/// An argument is the one at its place, and has no default; a number has one, where there is none or what
/// stands there is no number.
pub proof fn an_argument_stands_at_its_place(
    before: Seq<Seq<char>>,
    word: Seq<char>,
    after: Seq<Seq<char>>,
    usage: Seq<char>,
    name: Seq<char>,
    n: nat,
    max: nat,
    default: nat,
)
    requires
        n <= max,
    ensures
        path_at(before.push(word) + after, before.len() as int, usage, name) == Ok::<
            Seq<char>,
            Seq<char>,
        >(word),
        path_at(before, before.len() as int, usage, name) is Err,
        number_or(before.push(number::decimal(n)) + after, before.len() as int, max, default) == n,
        number_or(before, before.len() as int, max, default) == default,
        number::unsigned_value(word, max) is None ==> number_or(
            before.push(word) + after,
            before.len() as int,
            max,
            default,
        ) == default,
{
    number::a_written_number_reads_back(n, max);
    assert((before.push(word) + after)[before.len() as int] == word);
    assert((before.push(number::decimal(n)) + after)[before.len() as int] == number::decimal(n));
}

} // verus!
