//! The command line: which server a run talks to, and as whom. Nothing here has a default account
//! or a default password, and no argument carries a password.

use vstd::prelude::*;
use crate::number;
use crate::text;

verus! {

/// The port of the logon tier where none is given.
pub const DEFAULT_LOGON_PORT: u16 = 3724;

/// The port of the world tier where the realm list gives no address.
pub const DEFAULT_WORLD_PORT: u16 = 8085;

/// The host of both tiers where none is given.
pub const DEFAULT_HOST: &'static str = "127.0.0.1";

/// What the program says of itself.
pub const USAGE: &'static str =
    "vanilla-wire \u{2014} headless build-5875 (WoW 1.12.1) wire client\n\nSpeaks the real protocol \u{2014} SRP6 logon then the encrypted world session \u{2014} so tests can drive CMSG\nand assert on decoded SMSG. It is server-agnostic: anything that implements build 5875 will do.\n\nUSAGE:\n  vanilla-wire smoke --host HOST --account USER --password-stdin --character NAME\n  vanilla-wire scenario NAME [SCENARIO-ARGS...] --account USER --password-stdin [--character NAME]\n\nTARGET:\n  --host HOST         host of the server under test                    [127.0.0.1]\n  --logon-port PORT   logon (auth) tier port                           [3724]\n  --world-port PORT   world tier port. Set it to IGNORE the realm-list\n                      answer and connect to --host:PORT instead        [realm-list answer]\n\nIDENTITY:\n  --account NAME      login account                                    [required]\n  --character NAME    character to play                                [required by most scenarios]\n  --class CLASS       class used if --character has to be created      [warrior]\n  --race RACE         race used if --character has to be created       [human]\n  --password-stdin    read the password from stdin. REQUIRED: there is no password flag, no\n                      default account and no default password, and the password is never logged.\n                      Line 1 is --account's password; any further lines are consumed, in order,\n                      by scenarios that open a SECOND session (e.g. say-range's listener).\n\n  -h, --help          this text\n\nEXAMPLES:\n  printf '%s' \"$PASS\" | vanilla-wire smoke --host 10.0.0.5 --account TESTER \\\n      --character Tester --password-stdin\n  printf '%s\\n%s' \"$PASS\" \"$PEER\" | vanilla-wire scenario say-range PeerChar PEERACCT \\\n      --account TESTER --character Tester --password-stdin\n\nA scenario name no family claims is a hard error, never a silent success \u{2014} a renamed or\nmistyped scenario must not read as a green run.\n";

// ------------------------------------------------------------------------------------------
//  Endpoints
// ------------------------------------------------------------------------------------------

/// Which server a run talks to.
#[derive(Debug)]
pub struct Endpoints {
    pub logon_addr: String,
    /// Where this is set, the answer of the realm list is not used.
    pub world_addr_override: Option<String>,
}

/// The text of an address.
pub open spec fn address(host: Seq<char>, port: u16) -> Seq<char> {
    host + ":"@ + number::decimal(port as nat)
}

fn address_of(host: &str, port: u16) -> (s: String)
    ensures
        s@ == address(host@, port),
{
    let mut s: String = host.to_owned();
    s.append(":");
    number::push_decimal(&mut s, port as u64);
    s
}

/// The address of the world, given what the realm list answered.
pub open spec fn world_at(chosen: Option<Seq<char>>, realm_answer: Seq<char>) -> Seq<char> {
    match chosen {
        Some(a) => a,
        None => if realm_answer.len() == 0 {
            address(DEFAULT_HOST@, DEFAULT_WORLD_PORT)
        } else {
            realm_answer
        },
    }
}

/// Two endpoints are the same server.
pub open spec fn same_server(a: Endpoints, b: Endpoints) -> bool {
    a.logon_addr@ == b.logon_addr@ && text::text_of(a.world_addr_override) == text::text_of(
        b.world_addr_override,
    )
}

impl Endpoints {
    /// Endpoints from their pieces. A world port means that the realm list is not asked.
    pub fn new(host: &str, logon_port: u16, world_port: Option<u16>) -> (e: Endpoints)
        ensures
            e.logon_addr@ == address(host@, logon_port),
            text::text_of(e.world_addr_override) == match world_port {
                Some(p) => Some(address(host@, p)),
                None => None,
            },
    {
        Endpoints {
            logon_addr: address_of(host, logon_port),
            world_addr_override: match world_port {
                Some(p) => Some(address_of(host, p)),
                None => None,
            },
        }
    }

    /// The address to connect to, given what the realm list answered.
    pub fn world_addr(&self, realm_answer: &str) -> (s: String)
        ensures
            s@ == world_at(text::text_of(self.world_addr_override), realm_answer@),
    {
        match &self.world_addr_override {
            Some(a) => a.clone(),
            None => if text::chars_of(realm_answer).len() == 0 {
                address_of(DEFAULT_HOST, DEFAULT_WORLD_PORT)
            } else {
                realm_answer.to_owned()
            },
        }
    }

    /// The same endpoints again.
    pub fn copy(&self) -> (e: Endpoints)
        ensures
            same_server(e, *self),
    {
        Endpoints {
            logon_addr: self.logon_addr.clone(),
            world_addr_override: match &self.world_addr_override {
                Some(a) => Some(a.clone()),
                None => None,
            },
        }
    }
}

impl Default for Endpoints {
    /// A locally running server, whose realm list is asked.
    fn default() -> (e: Endpoints)
        ensures
            e.logon_addr@ == address(DEFAULT_HOST@, DEFAULT_LOGON_PORT),
            e.world_addr_override is None,
    {
        Endpoints::new(DEFAULT_HOST, DEFAULT_LOGON_PORT, None)
    }
}

/// What is published once something is published on top of it: the first stays.
pub open spec fn published(slot: Option<Endpoints>, e: Endpoints) -> Option<Endpoints> {
    match slot {
        Some(first) => Some(first),
        None => Some(e),
    }
}

/// Publishes the endpoints of a run. The first call wins; a later one changes nothing.
pub fn set_endpoints(slot: &mut Option<Endpoints>, e: Endpoints)
    ensures
        *final(slot) == published(*old(slot), e),
{
    if slot.is_none() {
        *slot = Some(e);
    }
}

/// The endpoints of a run, or the defaults where none were published.
pub fn endpoints(slot: &Option<Endpoints>) -> (e: Endpoints)
    ensures
        match *slot {
            Some(chosen) => same_server(e, chosen),
            None => e.logon_addr@ == address(DEFAULT_HOST@, DEFAULT_LOGON_PORT)
                && e.world_addr_override is None,
        },
{
    match slot {
        Some(chosen) => chosen.copy(),
        None => Endpoints::default(),
    }
}

/// Whatever is published after the first endpoints, the first stay.
pub proof fn the_first_endpoints_win(first: Endpoints, later: Seq<Endpoints>)
    ensures
        later.fold_left(published(None, first), |s: Option<Endpoints>, e: Endpoints| published(s, e))
            == Some(first),
    decreases later.len(),
{
    if later.len() > 0 {
        the_first_endpoints_win(first, later.drop_last());
    }
}

// ------------------------------------------------------------------------------------------
//  Classes and races
// ------------------------------------------------------------------------------------------

/// A class of build 5875.
#[derive(Clone, Copy, Debug, PartialEq, Eq, Structural)]
pub enum Class {
    Warrior,
    Paladin,
    Hunter,
    Rogue,
    Priest,
    Shaman,
    Mage,
    Warlock,
    Druid,
}

/// A race of build 5875.
#[derive(Clone, Copy, Debug, PartialEq, Eq, Structural)]
pub enum Race {
    Human,
    Dwarf,
    NightElf,
    Gnome,
    Orc,
    Undead,
    Tauren,
    Troll,
}

/// The class with a name, spelled in any case.
pub open spec fn class_named(s: Seq<char>) -> Option<Class> {
    let n = text::lowered(s);
    if n == "warrior"@ {
        Some(Class::Warrior)
    } else if n == "paladin"@ {
        Some(Class::Paladin)
    } else if n == "hunter"@ {
        Some(Class::Hunter)
    } else if n == "rogue"@ {
        Some(Class::Rogue)
    } else if n == "priest"@ {
        Some(Class::Priest)
    } else if n == "shaman"@ {
        Some(Class::Shaman)
    } else if n == "mage"@ {
        Some(Class::Mage)
    } else if n == "warlock"@ {
        Some(Class::Warlock)
    } else if n == "druid"@ {
        Some(Class::Druid)
    } else {
        None
    }
}

/// The race with a name, spelled in any case.
pub open spec fn race_named(s: Seq<char>) -> Option<Race> {
    let n = text::lowered(s);
    if n == "human"@ {
        Some(Race::Human)
    } else if n == "dwarf"@ {
        Some(Race::Dwarf)
    } else if n == "nightelf"@ || n == "night-elf"@ {
        Some(Race::NightElf)
    } else if n == "gnome"@ {
        Some(Race::Gnome)
    } else if n == "orc"@ {
        Some(Race::Orc)
    } else if n == "undead"@ || n == "scourge"@ {
        Some(Race::Undead)
    } else if n == "tauren"@ {
        Some(Race::Tauren)
    } else if n == "troll"@ {
        Some(Race::Troll)
    } else {
        None
    }
}

/// Said of a class that there is not.
pub open spec fn no_class(s: Seq<char>) -> Seq<char> {
    "unknown --class "@ + text::debug_form(text::lowered(s))
        + " (warrior|paladin|hunter|rogue|priest|shaman|mage|warlock|druid)"@
}

/// Said of a race that there is not.
pub open spec fn no_race(s: Seq<char>) -> Seq<char> {
    "unknown --race "@ + text::debug_form(text::lowered(s))
        + " (human|dwarf|nightelf|gnome|orc|undead|tauren|troll)"@
}

/// Reads the name of a class.
pub fn parse_class(s: &str) -> (r: Result<Class, String>)
    ensures
        match r {
            Ok(c) => class_named(s@) == Some(c),
            Err(said) => class_named(s@) is None && said@ == no_class(s@),
        },
{
    let n: String = text::to_ascii_lowercase(s);
    let w = n.as_str();
    if text::same_text(w, "warrior") {
        Ok(Class::Warrior)
    } else if text::same_text(w, "paladin") {
        Ok(Class::Paladin)
    } else if text::same_text(w, "hunter") {
        Ok(Class::Hunter)
    } else if text::same_text(w, "rogue") {
        Ok(Class::Rogue)
    } else if text::same_text(w, "priest") {
        Ok(Class::Priest)
    } else if text::same_text(w, "shaman") {
        Ok(Class::Shaman)
    } else if text::same_text(w, "mage") {
        Ok(Class::Mage)
    } else if text::same_text(w, "warlock") {
        Ok(Class::Warlock)
    } else if text::same_text(w, "druid") {
        Ok(Class::Druid)
    } else {
        let mut said: String = "unknown --class ".to_owned();
        said.append(text::debug_text(w).as_str());
        said.append(" (warrior|paladin|hunter|rogue|priest|shaman|mage|warlock|druid)");
        Err(said)
    }
}

/// Reads the name of a race.
pub fn parse_race(s: &str) -> (r: Result<Race, String>)
    ensures
        match r {
            Ok(c) => race_named(s@) == Some(c),
            Err(said) => race_named(s@) is None && said@ == no_race(s@),
        },
{
    let n: String = text::to_ascii_lowercase(s);
    let w = n.as_str();
    if text::same_text(w, "human") {
        Ok(Race::Human)
    } else if text::same_text(w, "dwarf") {
        Ok(Race::Dwarf)
    } else if text::same_text(w, "nightelf") || text::same_text(w, "night-elf") {
        Ok(Race::NightElf)
    } else if text::same_text(w, "gnome") {
        Ok(Race::Gnome)
    } else if text::same_text(w, "orc") {
        Ok(Race::Orc)
    } else if text::same_text(w, "undead") || text::same_text(w, "scourge") {
        Ok(Race::Undead)
    } else if text::same_text(w, "tauren") {
        Ok(Race::Tauren)
    } else if text::same_text(w, "troll") {
        Ok(Race::Troll)
    } else {
        let mut said: String = "unknown --race ".to_owned();
        said.append(text::debug_text(w).as_str());
        said.append(" (human|dwarf|nightelf|gnome|orc|undead|tauren|troll)");
        Err(said)
    }
}

/// The class of a character that is staged for a probe: a warrior unless a known class is named,
/// in lower case.
pub open spec fn staged_class(word: Option<Seq<char>>) -> Class {
    match word {
        Some(w) => if w == "paladin"@ {
            Class::Paladin
        } else if w == "mage"@ {
            Class::Mage
        } else if w == "rogue"@ {
            Class::Rogue
        } else if w == "priest"@ {
            Class::Priest
        } else if w == "warlock"@ {
            Class::Warlock
        } else {
            Class::Warrior
        },
        None => Class::Warrior,
    }
}

/// The class of a character that is staged for a probe.
pub fn make_char_class(word: &Option<String>) -> (c: Class)
    ensures
        c == staged_class(text::text_of(*word)),
{
    match word {
        Some(w) => {
            let w = w.as_str();
            if text::same_text(w, "paladin") {
                Class::Paladin
            } else if text::same_text(w, "mage") {
                Class::Mage
            } else if text::same_text(w, "rogue") {
                Class::Rogue
            } else if text::same_text(w, "priest") {
                Class::Priest
            } else if text::same_text(w, "warlock") {
                Class::Warlock
            } else {
                Class::Warrior
            }
        },
        None => Class::Warrior,
    }
}

// ------------------------------------------------------------------------------------------
//  Arguments
// ------------------------------------------------------------------------------------------

/// What an invocation asks for.
#[derive(Debug)]
pub enum Command {
    /// Log in, enter the world, report, leave.
    Smoke,
    /// Run the scenario of that name.
    Scenario(String),
}

/// What an invocation asks for.
pub enum CommandView {
    Smoke,
    Scenario(Seq<char>),
}

impl View for Command {
    type V = CommandView;

    open spec fn view(&self) -> CommandView {
        match *self {
            Command::Smoke => CommandView::Smoke,
            Command::Scenario(name) => CommandView::Scenario(name@),
        }
    }
}

/// Why there is nothing to run.
#[derive(Debug)]
pub enum ArgsStop {
    /// The usage was asked for.
    Help,
    /// The arguments are refused, in these words.
    Refused(String),
}

/// Why there is nothing to run.
pub enum StopView {
    Help,
    Refused(Seq<char>),
}

impl View for ArgsStop {
    type V = StopView;

    open spec fn view(&self) -> StopView {
        match *self {
            ArgsStop::Help => StopView::Help,
            ArgsStop::Refused(s) => StopView::Refused(s@),
        }
    }
}

/// Arguments as read: everything but the password.
#[derive(Debug)]
pub struct ParsedArgs {
    pub command: Command,
    pub endpoints: Endpoints,
    pub account: String,
    pub character: String,
    pub class: Class,
    pub race: Race,
    pub args: Vec<String>,
    pub password_stdin: bool,
}

/// Arguments as read.
pub struct ParsedView {
    pub command: CommandView,
    pub logon_addr: Seq<char>,
    pub world_addr_override: Option<Seq<char>>,
    pub account: Seq<char>,
    pub character: Seq<char>,
    pub class: Class,
    pub race: Race,
    pub args: Seq<Seq<char>>,
    pub password_stdin: bool,
}

impl View for ParsedArgs {
    type V = ParsedView;

    open spec fn view(&self) -> ParsedView {
        ParsedView {
            command: self.command@,
            logon_addr: self.endpoints.logon_addr@,
            world_addr_override: text::text_of(self.endpoints.world_addr_override),
            account: self.account@,
            character: self.character@,
            class: self.class,
            race: self.race,
            args: text::texts(self.args@),
            password_stdin: self.password_stdin,
        }
    }
}

/// What a token that begins with two dashes is.
#[derive(Clone, Copy, PartialEq, Eq, Structural)]
pub enum Flag {
    Rest,
    Help,
    PasswordStdin,
    Host,
    LogonPort,
    WorldPort,
    Account,
    Character,
    Class,
    Race,
    Unknown,
}

/// The flag that a token is.
pub open spec fn flag(tok: Seq<char>) -> Flag {
    if tok == "--"@ {
        Flag::Rest
    } else if tok == "--help"@ {
        Flag::Help
    } else if tok == "--password-stdin"@ {
        Flag::PasswordStdin
    } else if tok == "--host"@ {
        Flag::Host
    } else if tok == "--logon-port"@ {
        Flag::LogonPort
    } else if tok == "--world-port"@ {
        Flag::WorldPort
    } else if tok == "--account"@ {
        Flag::Account
    } else if tok == "--character"@ {
        Flag::Character
    } else if tok == "--class"@ {
        Flag::Class
    } else if tok == "--race"@ {
        Flag::Race
    } else {
        Flag::Unknown
    }
}

fn flag_of(tok: &str) -> (f: Flag)
    ensures
        f == flag(tok@),
{
    if text::same_text(tok, "--") {
        Flag::Rest
    } else if text::same_text(tok, "--help") {
        Flag::Help
    } else if text::same_text(tok, "--password-stdin") {
        Flag::PasswordStdin
    } else if text::same_text(tok, "--host") {
        Flag::Host
    } else if text::same_text(tok, "--logon-port") {
        Flag::LogonPort
    } else if text::same_text(tok, "--world-port") {
        Flag::WorldPort
    } else if text::same_text(tok, "--account") {
        Flag::Account
    } else if text::same_text(tok, "--character") {
        Flag::Character
    } else if text::same_text(tok, "--class") {
        Flag::Class
    } else if text::same_text(tok, "--race") {
        Flag::Race
    } else {
        Flag::Unknown
    }
}

/// What the tokens read so far say.
pub struct ScanView {
    pub host: Seq<char>,
    pub logon_port: u16,
    pub world_port: Option<u16>,
    pub account: Seq<char>,
    pub character: Seq<char>,
    pub class: Class,
    pub race: Race,
    pub password_stdin: bool,
    pub positional: Seq<Seq<char>>,
    /// Every further token is an argument.
    pub rest: bool,
}

struct Scan {
    host: String,
    logon_port: u16,
    world_port: Option<u16>,
    account: String,
    character: String,
    class: Class,
    race: Race,
    password_stdin: bool,
    positional: Vec<String>,
    rest: bool,
}

impl Scan {
    spec fn view(&self) -> ScanView {
        ScanView {
            host: self.host@,
            logon_port: self.logon_port,
            world_port: self.world_port,
            account: self.account@,
            character: self.character@,
            class: self.class,
            race: self.race,
            password_stdin: self.password_stdin,
            positional: text::texts(self.positional@),
            rest: self.rest,
        }
    }
}

/// Before any token.
pub open spec fn nothing_read() -> ScanView {
    ScanView {
        host: DEFAULT_HOST@,
        logon_port: DEFAULT_LOGON_PORT,
        world_port: None,
        account: ""@,
        character: ""@,
        class: Class::Warrior,
        race: Race::Human,
        password_stdin: false,
        positional: Seq::empty(),
        rest: false,
    }
}

/// Words, and the usage below them.
pub open spec fn with_usage(words: Seq<char>) -> Seq<char> {
    words + "\n\n"@ + USAGE@
}

fn say_with_usage(words: &str) -> (s: String)
    ensures
        s@ == with_usage(words@),
{
    let mut s: String = words.to_owned();
    s.append("\n\n");
    s.append(USAGE);
    s
}

/// A flag with its value, read.
pub open spec fn valued(s: ScanView, tok: Seq<char>, value: Seq<char>) -> Result<
    ScanView,
    Seq<char>,
> {
    match flag(tok) {
        Flag::Host => Ok(ScanView { host: value, ..s }),
        Flag::LogonPort => match number::unsigned_value(value, 65535) {
            Some(n) => Ok(ScanView { logon_port: n as u16, ..s }),
            None => Err(number::unsigned_fault(value, 65535)),
        },
        Flag::WorldPort => match number::unsigned_value(value, 65535) {
            Some(n) => Ok(ScanView { world_port: Some(n as u16), ..s }),
            None => Err(number::unsigned_fault(value, 65535)),
        },
        Flag::Account => Ok(ScanView { account: value, ..s }),
        Flag::Character => Ok(ScanView { character: value, ..s }),
        Flag::Class => match class_named(value) {
            Some(c) => Ok(ScanView { class: c, ..s }),
            None => Err(no_class(value)),
        },
        Flag::Race => match race_named(value) {
            Some(c) => Ok(ScanView { race: c, ..s }),
            None => Err(no_race(value)),
        },
        _ => Ok(s),
    }
}

/// The tokens read one after the other. Flags may stand anywhere; a token that does not begin
/// with two dashes is an argument, a negative number among them, but for `-h`. Behind a bare `--`
/// every token is an argument.
pub open spec fn scan(toks: Seq<Seq<char>>, s: ScanView) -> Result<ScanView, StopView>
    decreases toks.len(),
{
    if toks.len() == 0 {
        Ok(s)
    } else {
        let t = toks[0];
        if !s.rest && t == "-h"@ {
            Err(StopView::Help)
        } else if s.rest || !text::begins_with(t, "--"@) {
            scan(toks.skip(1), ScanView { positional: s.positional.push(t), ..s })
        } else {
            match flag(t) {
                Flag::Rest => scan(toks.skip(1), ScanView { rest: true, ..s }),
                Flag::Help => Err(StopView::Help),
                Flag::PasswordStdin => scan(toks.skip(1), ScanView { password_stdin: true, ..s }),
                Flag::Unknown => Err(StopView::Refused(with_usage("unknown flag "@ + t))),
                _ => if toks.len() < 2 {
                    Err(StopView::Refused(with_usage(t + " needs a value"@)))
                } else {
                    match valued(s, t, toks[1]) {
                        Ok(next) => scan(toks.skip(2), next),
                        Err(words) => Err(StopView::Refused(words)),
                    }
                },
            }
        }
    }
}

/// The command that the positional tokens name.
pub open spec fn command(p: Seq<Seq<char>>) -> Result<(CommandView, int), Seq<char>> {
    if p.len() == 0 {
        Err("no command given"@)
    } else if p[0] == "smoke"@ {
        Ok((CommandView::Smoke, 1))
    } else if p[0] == "scenario"@ {
        if p.len() == 1 {
            Err("`scenario` needs a name \u{2014} e.g. `scenario logout`"@)
        } else {
            Ok((CommandView::Scenario(p[1]), 2))
        }
    } else {
        Err("unknown command "@ + text::debug_form(p[0]) + " \u{2014} expected `smoke` or `scenario`"@)
    }
}

/// What the tokens ask for, once all are read.
pub open spec fn concluded(s: ScanView) -> Result<ParsedView, Seq<char>> {
    match command(s.positional) {
        Err(words) => Err(words),
        Ok((c, used)) => if s.account.len() == 0 {
            Err("--account is required \u{2014} this client has no default account"@)
        } else if !s.password_stdin {
            Err(
                "--password-stdin is required \u{2014} this client has no default password and takes none on the command line"@,
            )
        } else {
            Ok(
                ParsedView {
                    command: c,
                    logon_addr: address(s.host, s.logon_port),
                    world_addr_override: match s.world_port {
                        Some(p) => Some(address(s.host, p)),
                        None => None,
                    },
                    account: s.account,
                    character: s.character,
                    class: s.class,
                    race: s.race,
                    args: s.positional.skip(used),
                    password_stdin: true,
                },
            )
        },
    }
}

/// What an argument vector asks for.
pub open spec fn asked(toks: Seq<Seq<char>>) -> Result<ParsedView, StopView> {
    match scan(toks, nothing_read()) {
        Err(stop) => Err(stop),
        Ok(s) => match concluded(s) {
            Ok(p) => Ok(p),
            Err(words) => Err(StopView::Refused(with_usage(words))),
        },
    }
}

fn port_of(value: &str) -> (r: Result<u16, String>)
    ensures
        match r {
            Ok(p) => number::unsigned_value(value@, 65535) == Some(p as nat),
            Err(said) => number::unsigned_value(value@, 65535) is None && said@
                == number::unsigned_fault(value@, 65535),
        },
{
    match number::parse_unsigned(value, 65535) {
        Some(n) => Ok(n as u16),
        None => Err(number::explain_unsigned(value, 65535)),
    }
}

fn take_value(s: &mut Scan, tok: &str, value: &str) -> (r: Result<(), String>)
    ensures
        match r {
            Ok(_) => valued(old(s)@, tok@, value@) == Ok::<ScanView, Seq<char>>(final(s)@),
            Err(said) => valued(old(s)@, tok@, value@) == Err::<ScanView, Seq<char>>(said@),
        },
{
    match flag_of(tok) {
        Flag::Host => {
            s.host = value.to_owned();
        },
        Flag::LogonPort => match port_of(value) {
            Ok(p) => {
                s.logon_port = p;
            },
            Err(said) => {
                return Err(said);
            },
        },
        Flag::WorldPort => match port_of(value) {
            Ok(p) => {
                s.world_port = Some(p);
            },
            Err(said) => {
                return Err(said);
            },
        },
        Flag::Account => {
            s.account = value.to_owned();
        },
        Flag::Character => {
            s.character = value.to_owned();
        },
        Flag::Class => match parse_class(value) {
            Ok(c) => {
                s.class = c;
            },
            Err(said) => {
                return Err(said);
            },
        },
        Flag::Race => match parse_race(value) {
            Ok(c) => {
                s.race = c;
            },
            Err(said) => {
                return Err(said);
            },
        },
        _ => {},
    }
    Ok(())
}

fn read_tokens(argv: &Vec<String>) -> (r: Result<Scan, ArgsStop>)
    ensures
        match r {
            Ok(s) => scan(text::texts(argv@), nothing_read()) == Ok::<ScanView, StopView>(s@),
            Err(stop) => scan(text::texts(argv@), nothing_read()) == Err::<ScanView, StopView>(
                stop@,
            ),
        },
{
    let mut s: Scan = Scan {
        host: DEFAULT_HOST.to_owned(),
        logon_port: DEFAULT_LOGON_PORT,
        world_port: None,
        account: "".to_owned(),
        character: "".to_owned(),
        class: Class::Warrior,
        race: Race::Human,
        password_stdin: false,
        positional: Vec::new(),
        rest: false,
    };
    let ghost toks = text::texts(argv@);
    let ghost owed = scan(toks, nothing_read());
    let n: usize = argv.len();
    let mut i: usize = 0;
    proof {
        assert(text::texts(s.positional@) =~= Seq::<Seq<char>>::empty());
        assert(toks.skip(0) =~= toks);
    }
    while i < n
        invariant
            n == argv@.len(),
            i <= n,
            toks == text::texts(argv@),
            owed == scan(toks, nothing_read()),
            scan(toks.skip(i as int), s@) == owed,
        decreases n - i,
    {
        let tok = argv[i].as_str();
        let ghost here = toks.skip(i as int);
        assert(here[0] == tok@);
        assert(here.skip(1) =~= toks.skip(i + 1));
        if !s.rest && text::same_text(tok, "-h") {
            return Err(ArgsStop::Help);
        }
        if s.rest || !text::starts_with(tok, "--") {
            let ghost before = s.positional@;
            s.positional.push(tok.to_owned());
            assert(text::texts(s.positional@) =~= text::texts(before).push(tok@));
            i = i + 1;
        } else {
            match flag_of(tok) {
                Flag::Rest => {
                    s.rest = true;
                    i = i + 1;
                },
                Flag::Help => {
                    return Err(ArgsStop::Help);
                },
                Flag::PasswordStdin => {
                    s.password_stdin = true;
                    i = i + 1;
                },
                Flag::Unknown => {
                    let mut words: String = "unknown flag ".to_owned();
                    words.append(tok);
                    return Err(ArgsStop::Refused(say_with_usage(words.as_str())));
                },
                _ => {
                    if n - i < 2 {
                        let mut words: String = tok.to_owned();
                        words.append(" needs a value");
                        return Err(ArgsStop::Refused(say_with_usage(words.as_str())));
                    }
                    assert(here[1] == argv@[i + 1]@);
                    assert(here.skip(2) =~= toks.skip(i + 2));
                    match take_value(&mut s, tok, argv[i + 1].as_str()) {
                        Ok(_) => {},
                        Err(said) => {
                            return Err(ArgsStop::Refused(said));
                        },
                    }
                    i = i + 2;
                },
            }
        }
    }
    assert(toks.skip(n as int) =~= Seq::<Seq<char>>::empty());
    Ok(s)
}

fn command_of(p: &Vec<String>) -> (r: Result<(Command, usize), String>)
    ensures
        match r {
            Ok((c, used)) => command(text::texts(p@)) == Ok::<(CommandView, int), Seq<char>>(
                (c@, used as int),
            ) && used <= p@.len(),
            Err(said) => command(text::texts(p@)) == Err::<(CommandView, int), Seq<char>>(said@),
        },
{
    if p.len() == 0 {
        return Err("no command given".to_owned());
    }
    let first = p[0].as_str();
    assert(text::texts(p@)[0] == first@);
    if text::same_text(first, "smoke") {
        Ok((Command::Smoke, 1))
    } else if text::same_text(first, "scenario") {
        if p.len() == 1 {
            Err("`scenario` needs a name \u{2014} e.g. `scenario logout`".to_owned())
        } else {
            assert(text::texts(p@)[1] == p@[1]@);
            Ok((Command::Scenario(p[1].clone()), 2))
        }
    } else {
        let mut said: String = "unknown command ".to_owned();
        said.append(text::debug_text(first).as_str());
        said.append(" \u{2014} expected `smoke` or `scenario`");
        Err(said)
    }
}

/// The texts of a list from a place on.
pub(crate) fn tail_of(v: &Vec<String>, from: usize) -> (out: Vec<String>)
    requires
        from <= v@.len(),
    ensures
        text::texts(out@) == text::texts(v@).skip(from as int),
{
    let mut out: Vec<String> = Vec::new();
    for i in from..v.len()
        invariant
            from <= v@.len(),
            text::texts(out@) == text::texts(v@).subrange(from as int, i as int),
    {
        let ghost before = out@;
        out.push(v[i].clone());
        assert(text::texts(out@) =~= text::texts(before).push(v@[i as int]@));
        assert(text::texts(v@).subrange(from as int, i + 1) =~= text::texts(v@).subrange(
            from as int,
            i as int,
        ).push(v@[i as int]@));
    }
    assert(text::texts(v@).subrange(from as int, v@.len() as int) =~= text::texts(v@).skip(
        from as int,
    ));
    out
}

/// Reads an argument vector without the program's name.
pub fn parse_args(argv: &Vec<String>) -> (r: Result<ParsedArgs, ArgsStop>)
    ensures
        match r {
            Ok(p) => asked(text::texts(argv@)) == Ok::<ParsedView, StopView>(p@),
            Err(stop) => asked(text::texts(argv@)) == Err::<ParsedView, StopView>(stop@),
        },
{
    let s: Scan = match read_tokens(argv) {
        Ok(s) => s,
        Err(stop) => {
            return Err(stop);
        },
    };
    let (command, used) = match command_of(&s.positional) {
        Ok(found) => found,
        Err(said) => {
            return Err(ArgsStop::Refused(say_with_usage(said.as_str())));
        },
    };
    if text::chars_of(s.account.as_str()).len() == 0 {
        return Err(
            ArgsStop::Refused(
                say_with_usage(
                    "--account is required \u{2014} this client has no default account",
                ),
            ),
        );
    }
    if !s.password_stdin {
        return Err(
            ArgsStop::Refused(
                say_with_usage(
                    "--password-stdin is required \u{2014} this client has no default password and takes none on the command line",
                ),
            ),
        );
    }
    let args: Vec<String> = tail_of(&s.positional, used);
    Ok(
        ParsedArgs {
            command,
            endpoints: Endpoints::new(s.host.as_str(), s.logon_port, s.world_port),
            account: s.account,
            character: s.character,
            class: s.class,
            race: s.race,
            args,
            password_stdin: true,
        },
    )
}

/// Behind a bare `--` every token is an argument, whatever it looks like.
pub proof fn after_a_double_dash_all_are_arguments(toks: Seq<Seq<char>>, s: ScanView)
    requires
        s.rest,
    ensures
        scan(toks, s) == Ok::<ScanView, StopView>(
            ScanView { positional: s.positional + toks, ..s },
        ),
    decreases toks.len(),
{
    if toks.len() == 0 {
        assert(s.positional + toks =~= s.positional);
    } else {
        let next = ScanView { positional: s.positional.push(toks[0]), ..s };
        after_a_double_dash_all_are_arguments(toks.skip(1), next);
        assert(next.positional + toks.skip(1) =~= s.positional + toks);
    }
}

/// A flag that takes a value.
pub open spec fn takes_a_value(tok: Seq<char>) -> bool {
    text::begins_with(tok, "--"@) && match flag(tok) {
        Flag::Rest | Flag::Help | Flag::PasswordStdin | Flag::Unknown => false,
        _ => true,
    }
}

/// Tokens that are read to the end may be read in two parts.
pub proof fn tokens_are_read_in_turn(first: Seq<Seq<char>>, more: Seq<Seq<char>>, s: ScanView)
    requires
        scan(first, s) is Ok,
    ensures
        scan(first + more, s) == scan(more, scan(first, s)->Ok_0),
    decreases first.len(),
{
    let all = first + more;
    if first.len() == 0 {
        assert(all =~= more);
    } else {
        let t = first[0];
        assert(all[0] == t);
        assert(all.skip(1) =~= first.skip(1) + more);
        if !s.rest && t == "-h"@ {
        } else if s.rest || !text::begins_with(t, "--"@) {
            tokens_are_read_in_turn(
                first.skip(1),
                more,
                ScanView { positional: s.positional.push(t), ..s },
            );
        } else {
            match flag(t) {
                Flag::Rest => {
                    tokens_are_read_in_turn(first.skip(1), more, ScanView { rest: true, ..s });
                },
                Flag::Help => {},
                Flag::PasswordStdin => {
                    tokens_are_read_in_turn(
                        first.skip(1),
                        more,
                        ScanView { password_stdin: true, ..s },
                    );
                },
                Flag::Unknown => {},
                _ => {
                    if first.len() >= 2 {
                        assert(all[1] == first[1]);
                        assert(all.skip(2) =~= first.skip(2) + more);
                        if let Ok(next) = valued(s, t, first[1]) {
                            tokens_are_read_in_turn(first.skip(2), more, next);
                        }
                    }
                },
            }
        }
    }
}

/// Two flags set two different things, in any order.
proof fn lemma_flags_commute(
    s: ScanView,
    f: Seq<char>,
    x: Seq<char>,
    g: Seq<char>,
    y: Seq<char>,
)
    requires
        takes_a_value(f),
        takes_a_value(g),
        f != g,
        valued(s, f, x) is Ok,
    ensures
        match valued(s, g, y) {
            Ok(n) => valued(valued(s, f, x)->Ok_0, g, y) is Ok && valued(n, f, x) == valued(
                valued(s, f, x)->Ok_0,
                g,
                y,
            ),
            Err(e) => valued(valued(s, f, x)->Ok_0, g, y) == Err::<ScanView, Seq<char>>(e),
        },
{
    assert(flag(f) != flag(g));
}

/// A token that is read as a flag, where a flag may stand.
pub open spec fn is_flag(tok: Seq<char>) -> bool {
    tok == "-h"@ || (text::begins_with(tok, "--"@) && tok != "--"@)
}

/// A flag as it is written: with a value, where it takes one.
pub open spec fn written_flag(f: Seq<char>, x: Seq<char>) -> Seq<Seq<char>> {
    if takes_a_value(f) {
        seq![f, x]
    } else {
        seq![f]
    }
}

/// What a flag does, by itself.
pub open spec fn flagged(s: ScanView, f: Seq<char>, x: Seq<char>) -> Result<ScanView, StopView> {
    if takes_a_value(f) {
        match valued(s, f, x) {
            Ok(next) => Ok(next),
            Err(words) => Err(StopView::Refused(words)),
        }
    } else if f == "-h"@ || flag(f) == Flag::Help {
        Err(StopView::Help)
    } else if flag(f) == Flag::PasswordStdin {
        Ok(ScanView { password_stdin: true, ..s })
    } else {
        Err(StopView::Refused(with_usage("unknown flag "@ + f)))
    }
}

/// Among tokens without a bare `--`, one is read as this flag, and not as the value of another.
pub open spec fn reads_flag(toks: Seq<Seq<char>>, f: Seq<char>) -> bool
    decreases toks.len(),
{
    toks.len() > 0 && (toks[0] == f || if takes_a_value(toks[0]) && toks.len() >= 2 {
        reads_flag(toks.skip(2), f)
    } else {
        reads_flag(toks.skip(1), f)
    })
}

proof fn lemma_flag_moves(mid: Seq<Seq<char>>, s: ScanView, f: Seq<char>, x: Seq<char>)
    requires
        !s.rest,
        is_flag(f),
        flagged(s, f, x) is Ok,
        takes_a_value(f) ==> !reads_flag(mid, f),
        scan(mid, s) matches Ok(m) && !m.rest,
    ensures
        flagged(scan(mid, s)->Ok_0, f, x) is Ok,
        scan(mid, flagged(s, f, x)->Ok_0) == flagged(scan(mid, s)->Ok_0, f, x),
    decreases mid.len(),
{
    if mid.len() > 0 {
        let t = mid[0];
        let set = flagged(s, f, x)->Ok_0;
        if t == "-h"@ {
        } else if !text::begins_with(t, "--"@) {
            let next = ScanView { positional: s.positional.push(t), ..s };
            assert(flagged(next, f, x) == Ok::<ScanView, StopView>(
                ScanView { positional: set.positional.push(t), ..set },
            ));
            lemma_flag_moves(mid.skip(1), next, f, x);
        } else {
            match flag(t) {
                Flag::Rest => {
                    after_a_double_dash_all_are_arguments(
                        mid.skip(1),
                        ScanView { rest: true, ..s },
                    );
                },
                Flag::Help => {},
                Flag::PasswordStdin => {
                    let next = ScanView { password_stdin: true, ..s };
                    assert(flagged(next, f, x) == Ok::<ScanView, StopView>(
                        ScanView { password_stdin: true, ..set },
                    ));
                    lemma_flag_moves(mid.skip(1), next, f, x);
                },
                Flag::Unknown => {},
                _ => {
                    if mid.len() >= 2 {
                        let y = mid[1];
                        if takes_a_value(f) {
                            lemma_flags_commute(s, f, x, t, y);
                        }
                        if let Ok(next) = valued(s, t, y) {
                            lemma_flag_moves(mid.skip(2), next, f, x);
                        }
                    }
                },
            }
        }
    }
}

/// Flags may stand anywhere: to move one, with its value where it takes one, past other tokens
/// changes nothing. This holds of every flag, a flag that is refused or asks for help among them.
/// The tokens may hold no bare `--`, and a flag that sets a value is not moved past itself.
pub proof fn a_flag_may_stand_anywhere(
    before: Seq<Seq<char>>,
    mid: Seq<Seq<char>>,
    after: Seq<Seq<char>>,
    f: Seq<char>,
    x: Seq<char>,
)
    requires
        is_flag(f),
        scan(before, nothing_read()) matches Ok(s) && !s.rest && (scan(mid, s) matches Ok(m)
            && !m.rest),
        takes_a_value(f) && flagged(nothing_read(), f, x) is Ok ==> !reads_flag(mid, f),
    ensures
        asked(before + (written_flag(f, x) + (mid + after))) == asked(
            before + (mid + (written_flag(f, x) + after)),
        ),
{
    let s = scan(before, nothing_read())->Ok_0;
    let m = scan(mid, s)->Ok_0;
    let w = written_flag(f, x);
    tokens_are_read_in_turn(before, w + (mid + after), nothing_read());
    tokens_are_read_in_turn(before, mid + (w + after), nothing_read());
    tokens_are_read_in_turn(mid, w + after, s);
    lemma_flag_first(mid + after, s, f, x);
    lemma_flag_first(after, m, f, x);
    if flagged(s, f, x) is Ok {
        lemma_flag_moves(mid, s, f, x);
        tokens_are_read_in_turn(mid, after, flagged(s, f, x)->Ok_0);
    }
}

proof fn lemma_flag_first(toks: Seq<Seq<char>>, s: ScanView, f: Seq<char>, x: Seq<char>)
    requires
        !s.rest,
        is_flag(f),
    ensures
        scan(written_flag(f, x) + toks, s) == match flagged(s, f, x) {
            Ok(next) => scan(toks, next),
            Err(stop) => Err(stop),
        },
{
    let all = written_flag(f, x) + toks;
    assert(all[0] == f);
    reveal_strlit("--");
    reveal_strlit("-h");
    if takes_a_value(f) {
        assert(all[1] == x);
        assert(all.skip(2) =~= toks);
    } else {
        assert(all.skip(1) =~= toks);
    }
    if text::begins_with(f, "--"@) {
        assert(f[1] == "--"@[1]) by {
            assert(f.subrange(0, 2) == "--"@);
            assert(f.subrange(0, 2)[1] == f[1]);
        }
        assert(f != "-h"@);
    }
}

/// A token that does not begin with two dashes and is not `-h` is an argument where it stands: a
/// negative number is none of the flags.
pub proof fn other_tokens_are_arguments(tok: Seq<char>, toks: Seq<Seq<char>>, s: ScanView)
    requires
        !text::begins_with(tok, "--"@),
        tok != "-h"@,
    ensures
        scan(seq![tok] + toks, s) == scan(toks, ScanView { positional: s.positional.push(tok), ..s }),
{
    assert((seq![tok] + toks).skip(1) =~= toks);
}

/// An invocation that is not refused names its account, and takes its password from elsewhere.
pub proof fn nothing_runs_on_a_default_account(toks: Seq<Seq<char>>)
    ensures
        asked(toks) matches Ok(p) ==> p.account.len() > 0 && p.password_stdin,
{
}

// ------------------------------------------------------------------------------------------
//  Passwords
// ------------------------------------------------------------------------------------------

/// A list without the empty texts at its end.
pub open spec fn without_empty_tail(v: Seq<Seq<char>>) -> Seq<Seq<char>>
    decreases v.len(),
{
    if v.len() > 0 && v.last().len() == 0 {
        without_empty_tail(v.drop_last())
    } else {
        v
    }
}

/// The lines of an input, each without a carriage return at its end.
pub open spec fn input_lines(raw: Seq<char>) -> Seq<Seq<char>> {
    text::pieces(raw, '\n').map_values(|l: Seq<char>| text::without_return(l))
}

/// The password of the account, then those of its peers.
pub open spec fn passwords(raw: Seq<char>) -> (Seq<char>, Seq<Seq<char>>) {
    (input_lines(raw)[0], without_empty_tail(input_lines(raw).skip(1)))
}

/// Splits what was read from the standard input into the password of the account and those of its
/// peers. Only empty lines at the end are dropped: one in the middle keeps its place.
pub fn split_passwords(raw: &str) -> (r: (String, Vec<String>))
    ensures
        (r.0@, text::texts(r.1@)) == passwords(raw@),
{
    let parts: Vec<String> = text::split(&text::chars_of(raw), '\n');
    let ghost ps = text::pieces(raw@, '\n');
    proof {
        text::lemma_pieces_nonempty(raw@, '\n');
    }
    assert(parts@.len() == ps.len()) by {
        assert(text::texts(parts@).len() == parts@.len());
    }
    assert(text::texts(parts@)[0] == parts@[0]@);
    let first: String = text::drop_return(parts[0].as_str());
    let mut peers: Vec<String> = Vec::new();
    let ghost owed = input_lines(raw@).skip(1);
    for i in 1..parts.len()
        invariant
            parts@.len() >= 1,
            ps == text::texts(parts@),
            ps == text::pieces(raw@, '\n'),
            owed == input_lines(raw@).skip(1),
            text::texts(peers@) == owed.take(i - 1),
    {
        let ghost before = peers@;
        peers.push(text::drop_return(parts[i].as_str()));
        assert(ps[i as int] == parts@[i as int]@);
        assert(owed[i - 1] == text::without_return(ps[i as int]));
        assert(text::texts(peers@) =~= text::texts(before).push(owed[i - 1]));
        assert(owed.take(i as int) =~= owed.take(i - 1).push(owed[i - 1]));
    }
    assert(owed.take(parts@.len() - 1) =~= owed);
    while peers.len() > 0 && text::chars_of(peers[peers.len() - 1].as_str()).len() == 0
        invariant
            without_empty_tail(text::texts(peers@)) == without_empty_tail(owed),
        decreases peers.len(),
    {
        let ghost before = peers@;
        assert(text::texts(before).last() == before.last()@);
        let _ = peers.pop();
        assert(text::texts(peers@) =~= text::texts(before).drop_last());
    }
    if peers.len() > 0 {
        assert(text::texts(peers@).last() == peers@.last()@);
    }
    (first, peers)
}

/// Lines one below the other.
pub open spec fn one_per_line(v: Seq<Seq<char>>) -> Seq<char>
    decreases v.len(),
{
    if v.len() == 0 {
        Seq::empty()
    } else if v.len() == 1 {
        v[0]
    } else {
        v[0] + "\n"@ + one_per_line(v.skip(1))
    }
}

/// A password that fits on a line.
pub open spec fn fits_a_line(s: Seq<char>) -> bool {
    (forall|i: int| 0 <= i < s.len() ==> s[i] != '\n') && (s.len() > 0 ==> s.last() != '\r')
}

proof fn lemma_joined(v: Seq<Seq<char>>)
    requires
        v.len() > 0,
        forall|i: int| 0 <= i < v.len() ==> fits_a_line(#[trigger] v[i]),
    ensures
        text::pieces(one_per_line(v), '\n') == v,
    decreases v.len(),
{
    reveal_strlit("\n");
    let s = one_per_line(v);
    text::lemma_first_index(s, '\n');
    let k = text::first_index(s, '\n');
    assert(fits_a_line(v[0]));
    if v.len() == 1 {
        assert(seq![s] =~= v);
    } else {
        assert(s[v[0].len() as int] == '\n');
        assert(forall|i: int| 0 <= i < v[0].len() ==> s[i] == v[0][i]);
        if k < v[0].len() {
            assert(s[k] == v[0][k]);
        }
        assert(k == v[0].len());
        assert(s.take(k) =~= v[0]);
        assert(s.skip(k + 1) =~= one_per_line(v.skip(1)));
        assert forall|i: int| 0 <= i < v.skip(1).len() implies fits_a_line(
            #[trigger] v.skip(1)[i],
        ) by {
            assert(fits_a_line(v[i + 1]));
        }
        lemma_joined(v.skip(1));
        assert(seq![v[0]] + v.skip(1) =~= v);
    }
}

/// Passwords written one per line are read back, each in its place: the first is the account's,
/// the others its peers'. The last of several is not empty.
pub proof fn passwords_read_back(v: Seq<Seq<char>>)
    requires
        v.len() > 0,
        forall|i: int| 0 <= i < v.len() ==> fits_a_line(#[trigger] v[i]),
        v.len() > 1 ==> v.last().len() > 0,
    ensures
        passwords(one_per_line(v)) == (v[0], v.skip(1)),
{
    lemma_joined(v);
    let lines = input_lines(one_per_line(v));
    assert forall|i: int| 0 <= i < v.len() implies #[trigger] lines[i] == v[i] by {
        assert(fits_a_line(v[i]));
        assert(lines[i] == text::without_return(v[i]));
    }
    assert(lines =~= v);
    if v.len() > 1 {
        assert(v.skip(1).last() == v.last());
    }
}

proof fn lemma_one_more_line(raw: Seq<char>)
    ensures
        text::pieces(raw.push('\n'), '\n') == text::pieces(raw, '\n').push(Seq::empty()),
    decreases raw.len(),
{
    let more = raw.push('\n');
    text::lemma_first_index(raw, '\n');
    text::lemma_first_index(more, '\n');
    let i = text::first_index(raw, '\n');
    let j = text::first_index(more, '\n');
    assert(more[raw.len() as int] == '\n');
    if j < i {
        assert(raw[j] == more[j]);
    }
    if i < j {
        assert(more[i] == '\n');
    }
    if i < raw.len() {
        assert(more.take(i) =~= raw.take(i));
        assert(more.skip(i + 1) =~= raw.skip(i + 1).push('\n'));
        lemma_one_more_line(raw.skip(i + 1));
        assert(text::pieces(more, '\n') =~= text::pieces(raw, '\n').push(Seq::empty()));
    } else {
        assert(more.take(i) =~= raw);
        assert(more.skip(i + 1) =~= Seq::<char>::empty());
        assert(text::pieces(Seq::<char>::empty(), '\n') =~= seq![Seq::<char>::empty()]);
        assert(text::pieces(more, '\n') =~= text::pieces(raw, '\n').push(Seq::empty()));
    }
}

/// A line feed at the end makes no difference: what is printed with one reads as what is printed
/// without.
pub proof fn a_final_line_feed_does_not_matter(raw: Seq<char>)
    ensures
        passwords(raw.push('\n')) == passwords(raw),
{
    lemma_one_more_line(raw);
    text::lemma_pieces_nonempty(raw, '\n');
    let lines = input_lines(raw);
    let more = input_lines(raw.push('\n'));
    assert(more =~= lines.push(Seq::empty()));
    assert(more.skip(1) =~= lines.skip(1).push(Seq::empty()));
    assert(more.skip(1).drop_last() =~= lines.skip(1));
}

/// Lines one below the other, each but the last ended by a carriage return and a line feed.
pub open spec fn returned_lines(v: Seq<Seq<char>>) -> Seq<char>
    decreases v.len(),
{
    if v.len() == 0 {
        Seq::empty()
    } else if v.len() == 1 {
        v[0]
    } else {
        v[0] + "\r\n"@ + returned_lines(v.skip(1))
    }
}

/// Lines with a carriage return at the end of each but the last.
pub open spec fn with_returns(v: Seq<Seq<char>>) -> Seq<Seq<char>> {
    Seq::new(
        v.len(),
        |i: int|
            if i < v.len() - 1 {
                v[i].push('\r')
            } else {
                v[i]
            },
    )
}

proof fn lemma_returned(v: Seq<Seq<char>>)
    requires
        v.len() > 0,
        forall|i: int| 0 <= i < v.len() ==> fits_a_line(#[trigger] v[i]),
    ensures
        text::pieces(returned_lines(v), '\n') == with_returns(v),
    decreases v.len(),
{
    reveal_strlit("\r\n");
    let s = returned_lines(v);
    text::lemma_first_index(s, '\n');
    let k = text::first_index(s, '\n');
    assert(fits_a_line(v[0]));
    if v.len() == 1 {
        assert(seq![s] =~= with_returns(v));
    } else {
        let n = v[0].len() as int;
        assert(s[n] == '\r');
        assert(s[n + 1] == '\n');
        assert(forall|i: int| 0 <= i < n ==> s[i] == v[0][i]);
        if k < n {
            assert(s[k] == v[0][k]);
        }
        assert(k == n + 1);
        assert(s.take(k) =~= v[0].push('\r'));
        assert(s.skip(k + 1) =~= returned_lines(v.skip(1)));
        assert forall|i: int| 0 <= i < v.skip(1).len() implies fits_a_line(
            #[trigger] v.skip(1)[i],
        ) by {
            assert(fits_a_line(v[i + 1]));
        }
        lemma_returned(v.skip(1));
        assert(seq![v[0].push('\r')] + with_returns(v.skip(1)) =~= with_returns(v));
    }
}

/// Whether lines end in a line feed alone or have a carriage return before it makes no difference.
pub proof fn carriage_returns_do_not_matter(v: Seq<Seq<char>>)
    requires
        v.len() > 0,
        forall|i: int| 0 <= i < v.len() ==> fits_a_line(#[trigger] v[i]),
    ensures
        passwords(returned_lines(v)) == passwords(one_per_line(v)),
{
    lemma_joined(v);
    lemma_returned(v);
    let plain = input_lines(one_per_line(v));
    let returned = input_lines(returned_lines(v));
    assert forall|i: int| 0 <= i < v.len() implies #[trigger] plain[i] == returned[i] by {
        assert(fits_a_line(v[i]));
        assert(plain[i] == text::without_return(v[i]));
        assert(returned[i] == text::without_return(with_returns(v)[i]));
        assert(v[i].push('\r').drop_last() =~= v[i]);
    }
    assert(plain =~= returned);
}

/// Said where a peer has no password.
pub open spec fn no_peer_password(i: int) -> Seq<char> {
    "this scenario opens "@ + number::decimal((i + 1) as nat)
        + " additional session(s); pass their password(s) as line "@ + number::decimal(
        (i + 2) as nat,
    )
        + " of stdin (one password per line: line 1 = --account's, line 2 = the first peer's)"@
}

/// Everything that a run was told: its command line, and the passwords from the standard input.
pub struct Invocation {
    pub command: Command,
    pub endpoints: Endpoints,
    pub account: String,
    pub character: String,
    pub class: Class,
    pub race: Race,
    pub password: String,
    pub peer_passwords: Vec<String>,
    pub args: Vec<String>,
}

impl Invocation {
    /// A run that was told so much on its command line, and read so much from the standard input.
    pub fn new(parsed: ParsedArgs, stdin: &str) -> (v: Invocation)
        ensures
            v.command == parsed.command,
            v.endpoints == parsed.endpoints,
            v.account == parsed.account,
            v.character == parsed.character,
            v.class == parsed.class,
            v.race == parsed.race,
            v.args == parsed.args,
            (v.password@, text::texts(v.peer_passwords@)) == passwords(stdin@),
    {
        let (password, peer_passwords) = split_passwords(stdin);
        Invocation {
            command: parsed.command,
            endpoints: parsed.endpoints,
            account: parsed.account,
            character: parsed.character,
            class: parsed.class,
            race: parsed.race,
            password,
            peer_passwords,
            args: parsed.args,
        }
    }

    /// The password of a peer.
    pub fn peer_password(&self, i: usize) -> (r: Result<String, String>)
        requires
            i + 2 <= usize::MAX,
        ensures
            match r {
                Ok(p) => i < self.peer_passwords@.len() && p@ == self.peer_passwords@[i as int]@,
                Err(said) => i >= self.peer_passwords@.len() && said@ == no_peer_password(
                    i as int,
                ),
            },
    {
        if i < self.peer_passwords.len() {
            return Ok(self.peer_passwords[i].clone());
        }
        let mut said: String = "this scenario opens ".to_owned();
        number::push_decimal(&mut said, (i + 1) as u64);
        said.append(" additional session(s); pass their password(s) as line ");
        number::push_decimal(&mut said, (i + 2) as u64);
        said.append(
            " of stdin (one password per line: line 1 = --account's, line 2 = the first peer's)",
        );
        Err(said)
    }
}

// ------------------------------------------------------------------------------------------
//  What flags and names say
// ------------------------------------------------------------------------------------------

/// An address that was chosen is used whatever the realm list answers; else its answer is, and a local
/// world where there is none.
pub proof fn a_chosen_world_is_used(chosen: Seq<char>, answer: Seq<char>)
    ensures
        world_at(Some(chosen), answer) == chosen,
        answer.len() > 0 ==> world_at(None, answer) == answer,
        world_at(None, Seq::empty()) == "127.0.0.1"@ + ":"@ + number::decimal(8085),
{
}

/// Two ports of a host, or two hosts that hold no colon, have different addresses.
pub proof fn an_address_tells_its_port(host: Seq<char>, a: u16, b: u16)
    requires
        a != b,
    ensures
        address(host, a) != address(host, b),
{
    reveal_strlit(":");
    if address(host, a) == address(host, b) {
        let s = address(host, a);
        let from = (host.len() + 1) as int;
        assert(s.skip(from) =~= number::decimal(a as nat));
        assert(s.skip(from) =~= number::decimal(b as nat));
        number::decimal_reads_back(a as nat);
        number::decimal_reads_back(b as nat);
    }
}

proof fn lemma_flags_differ()
    ensures
        flag("--host"@) == Flag::Host,
        flag("--logon-port"@) == Flag::LogonPort,
        flag("--world-port"@) == Flag::WorldPort,
        flag("--account"@) == Flag::Account,
        flag("--character"@) == Flag::Character,
        flag("--class"@) == Flag::Class,
        flag("--race"@) == Flag::Race,
        flag("--password-stdin"@) == Flag::PasswordStdin,
        flag("--help"@) == Flag::Help,
        flag("--"@) == Flag::Rest,
{
    reveal_strlit("--");
    reveal_strlit("--help");
    reveal_strlit("--password-stdin");
    reveal_strlit("--host");
    reveal_strlit("--logon-port");
    reveal_strlit("--world-port");
    reveal_strlit("--account");
    reveal_strlit("--character");
    reveal_strlit("--class");
    reveal_strlit("--race");
    assert("--help"@[3] == 'e' && "--host"@[3] == 'o' && "--race"@[3] == 'a');
    assert("--logon-port"@[2] == 'l' && "--world-port"@[2] == 'w');
    assert("--"@.len() == 2 && "--help"@.len() == 6 && "--host"@.len() == 6 && "--race"@.len() == 6);
    assert("--logon-port"@.len() == 12 && "--world-port"@.len() == 12 && "--account"@.len() == 9);
    assert("--character"@.len() == 11 && "--class"@.len() == 7 && "--password-stdin"@.len() == 16);
}

/// Each flag that takes a value sets what it names, and nothing else; a port is a number of sixteen bits.
pub proof fn a_flag_sets_what_it_names(s: ScanView, v: Seq<char>, port: u16)
    ensures
        valued(s, "--host"@, v) == Ok::<ScanView, Seq<char>>(ScanView { host: v, ..s }),
        valued(s, "--account"@, v) == Ok::<ScanView, Seq<char>>(ScanView { account: v, ..s }),
        valued(s, "--character"@, v) == Ok::<ScanView, Seq<char>>(ScanView { character: v, ..s }),
        valued(s, "--logon-port"@, number::decimal(port as nat)) == Ok::<ScanView, Seq<char>>(
            ScanView { logon_port: port, ..s },
        ),
        valued(s, "--world-port"@, number::decimal(port as nat)) == Ok::<ScanView, Seq<char>>(
            ScanView { world_port: Some(port), ..s },
        ),
        valued(s, "--logon-port"@, number::decimal(65536)) is Err,
        valued(s, "--world-port"@, number::decimal(65536)) is Err,
        valued(s, "--class"@, v) == match class_named(v) {
            Some(c) => Ok::<ScanView, Seq<char>>(ScanView { class: c, ..s }),
            None => Err(no_class(v)),
        },
        valued(s, "--race"@, v) == match race_named(v) {
            Some(c) => Ok::<ScanView, Seq<char>>(ScanView { race: c, ..s }),
            None => Err(no_race(v)),
        },
{
    lemma_flags_differ();
    number::a_written_number_reads_back(port as nat, 65535);
    number::a_written_number_reads_back(65536, 65535);
}

/// A class is known by its name, whatever the case of its letters, and each name is of one class.
pub proof fn a_class_is_known_by_its_name(s: Seq<char>)
    ensures
        text::lowered(s) == "warrior"@ <==> class_named(s) == Some(Class::Warrior),
        text::lowered(s) == "paladin"@ <==> class_named(s) == Some(Class::Paladin),
        text::lowered(s) == "hunter"@ <==> class_named(s) == Some(Class::Hunter),
        text::lowered(s) == "rogue"@ <==> class_named(s) == Some(Class::Rogue),
        text::lowered(s) == "priest"@ <==> class_named(s) == Some(Class::Priest),
        text::lowered(s) == "shaman"@ <==> class_named(s) == Some(Class::Shaman),
        text::lowered(s) == "mage"@ <==> class_named(s) == Some(Class::Mage),
        text::lowered(s) == "warlock"@ <==> class_named(s) == Some(Class::Warlock),
        text::lowered(s) == "druid"@ <==> class_named(s) == Some(Class::Druid),
{
    reveal_strlit("warrior");
    reveal_strlit("paladin");
    reveal_strlit("hunter");
    reveal_strlit("rogue");
    reveal_strlit("priest");
    reveal_strlit("shaman");
    reveal_strlit("mage");
    reveal_strlit("warlock");
    reveal_strlit("druid");
    assert("warrior"@[3] == 'r' && "warlock"@[3] == 'l' && "paladin"@[3] == 'a');
    assert("hunter"@[0] == 'h' && "priest"@[0] == 'p' && "shaman"@[0] == 's');
    assert("rogue"@[0] == 'r' && "druid"@[0] == 'd');
}

/// A race is known by its name or its other name, whatever the case of its letters.
pub proof fn a_race_is_known_by_its_name(s: Seq<char>)
    ensures
        text::lowered(s) == "human"@ <==> race_named(s) == Some(Race::Human),
        text::lowered(s) == "dwarf"@ <==> race_named(s) == Some(Race::Dwarf),
        text::lowered(s) == "nightelf"@ || text::lowered(s) == "night-elf"@ <==> race_named(s) == Some(
            Race::NightElf,
        ),
        text::lowered(s) == "gnome"@ <==> race_named(s) == Some(Race::Gnome),
        text::lowered(s) == "orc"@ <==> race_named(s) == Some(Race::Orc),
        text::lowered(s) == "undead"@ || text::lowered(s) == "scourge"@ <==> race_named(s) == Some(
            Race::Undead,
        ),
        text::lowered(s) == "tauren"@ <==> race_named(s) == Some(Race::Tauren),
        text::lowered(s) == "troll"@ <==> race_named(s) == Some(Race::Troll),
{
    reveal_strlit("human");
    reveal_strlit("dwarf");
    reveal_strlit("nightelf");
    reveal_strlit("night-elf");
    reveal_strlit("gnome");
    reveal_strlit("orc");
    reveal_strlit("undead");
    reveal_strlit("scourge");
    reveal_strlit("tauren");
    reveal_strlit("troll");
    assert("human"@[0] == 'h' && "dwarf"@[0] == 'd' && "gnome"@[0] == 'g' && "troll"@[0] == 't');
    assert("undead"@[0] == 'u' && "tauren"@[0] == 't');
    assert("human"@.len() == 5 && "dwarf"@.len() == 5 && "gnome"@.len() == 5 && "troll"@.len() == 5);
    assert("nightelf"@.len() == 8 && "night-elf"@.len() == 9 && "orc"@.len() == 3);
    assert("undead"@.len() == 6 && "tauren"@.len() == 6 && "scourge"@.len() == 7);
}

/// The first argument is the command, and a scenario's name the second; what follows are its arguments. A
/// run needs an account and takes its password from its input.
pub proof fn a_command_takes_the_rest(s: ScanView, name: Seq<char>, rest: Seq<Seq<char>>)
    ensures
        ({
            let smoke = concluded(ScanView { positional: seq!["smoke"@] + rest, ..s });
            let scenario = concluded(ScanView { positional: seq!["scenario"@, name] + rest, ..s });
            let ready = s.account.len() > 0 && s.password_stdin;
            &&& smoke is Ok <==> ready
            &&& scenario is Ok <==> ready
            &&& smoke matches Ok(p) ==> p.command == CommandView::Smoke && p.args == rest && p.account
                == s.account && p.character == s.character && p.class == s.class && p.race == s.race
                && p.logon_addr == address(s.host, s.logon_port)
            &&& scenario matches Ok(p) ==> p.command == CommandView::Scenario(name) && p.args == rest
                && p.account == s.account && (s.world_port is None ==> p.world_addr_override is None)
                && (s.world_port matches Some(w) ==> p.world_addr_override == Some(address(s.host, w)))
            &&& concluded(ScanView { positional: seq!["scenario"@], ..s }) is Err
            &&& concluded(ScanView { positional: Seq::empty(), ..s }) is Err
        }),
{
    reveal_strlit("smoke");
    reveal_strlit("scenario");
    assert("smoke"@.len() == 5 && "scenario"@.len() == 8);
    let a = seq!["smoke"@] + rest;
    let b = seq!["scenario"@, name] + rest;
    assert(a[0] == "smoke"@ && b[0] == "scenario"@ && b[1] == name);
    assert(seq!["scenario"@][0] == "scenario"@);
    assert(a.skip(1) =~= rest);
    assert(b.skip(2) =~= rest);
}

/// Without any token a run is for a local server, by a human warrior, with nothing else said.
pub proof fn nothing_said_means_the_defaults()
    ensures
        nothing_read().host == "127.0.0.1"@,
        nothing_read().logon_port == 3724,
        nothing_read().world_port is None,
        nothing_read().account.len() == 0,
        nothing_read().character.len() == 0,
        nothing_read().class == Class::Warrior,
        nothing_read().race == Race::Human,
        !nothing_read().password_stdin,
        nothing_read().positional.len() == 0,
        !nothing_read().rest,
{
    reveal_strlit("");
}

/// A staged character is of the class that its word names, of six; any other word means a warrior.
pub proof fn a_staged_class_is_one_of_six(w: Seq<char>)
    ensures
        staged_class(Some("paladin"@)) == Class::Paladin,
        staged_class(Some("mage"@)) == Class::Mage,
        staged_class(Some("rogue"@)) == Class::Rogue,
        staged_class(Some("priest"@)) == Class::Priest,
        staged_class(Some("warlock"@)) == Class::Warlock,
        staged_class(None) == Class::Warrior,
        w != "paladin"@ && w != "mage"@ && w != "rogue"@ && w != "priest"@ && w != "warlock"@
            ==> staged_class(Some(w)) == Class::Warrior,
{
    reveal_strlit("paladin");
    reveal_strlit("mage");
    reveal_strlit("rogue");
    reveal_strlit("priest");
    reveal_strlit("warlock");
    assert("paladin"@[0] == 'p' && "warlock"@[0] == 'w');
    assert("paladin"@.len() == 7 && "mage"@.len() == 4 && "rogue"@.len() == 5 && "priest"@.len() == 6
        && "warlock"@.len() == 7);
}

} // verus!
