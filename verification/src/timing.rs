//! Decision timings: which log lines tell of a measured decision, and how the durations spread.

use vstd::prelude::*;
use std::collections::BTreeMap;
use crate::json::{Json, JsonView};
use crate::number;
use crate::sats;
use crate::sort;
use crate::sort::Ranked;
use crate::text;

verus! {

broadcast use {vstd::std_specs::btree::group_btree_axioms, vstd::laws_cmp::group_laws_cmp};

/// A decision: the bot, the generation of its runner, and when it was observed.
#[derive(Clone, Copy, Debug, PartialEq, Eq, Structural)]
pub struct Decision {
    pub guid: u64,
    pub generation: u64,
    pub observed_micros: i64,
}

impl Ranked for Decision {
    open spec fn leq(self, other: Decision) -> bool {
        self.guid < other.guid || (self.guid == other.guid && (self.generation < other.generation
            || (self.generation == other.generation && self.observed_micros
            <= other.observed_micros)))
    }

    proof fn leq_is_total() {
    }

    fn at_most(&self, other: &Decision) -> (yes: bool) {
        self.guid < other.guid || (self.guid == other.guid && (self.generation < other.generation
            || (self.generation == other.generation && self.observed_micros
            <= other.observed_micros)))
    }
}

/// The decision that a runner's row tells of.
pub open spec fn decision_of(runner: JsonView) -> Result<Decision, Seq<char>> {
    match runner.field("character_guid"@).unsigned() {
        None => Err("missing timing Character"@),
        Some(guid) => match runner.field("generation"@).unsigned() {
            None => Err("missing timing generation"@),
            Some(generation) => match runner.field("observed_micros"@).signed() {
                None => Err("missing timing observation"@),
                Some(observed_micros) => Ok(Decision { guid, generation, observed_micros }),
            },
        },
    }
}

/// The decision that a runner's row tells of.
pub fn decision(runner: &Json) -> (r: Result<Decision, String>)
    ensures
        sats::agrees(r, decision_of(runner@)),
{
    match runner.u64_at("character_guid") {
        None => Err("missing timing Character".to_owned()),
        Some(guid) => match runner.u64_at("generation") {
            None => Err("missing timing generation".to_owned()),
            Some(generation) => match runner.i64_at("observed_micros") {
                None => Err("missing timing observation".to_owned()),
                Some(observed_micros) => Ok(Decision { guid, generation, observed_micros }),
            },
        },
    }
}

// ------------------------------------------------------------------------------------------
//  A log line
// ------------------------------------------------------------------------------------------

/// The unit of a duration.
#[derive(Clone, Copy, Debug, PartialEq, Eq, Structural)]
pub enum Unit {
    Nanos,
    Micros,
    Millis,
    Seconds,
}

/// A timing as a log line gives it: whose, how much, of what unit.
pub struct TimingView {
    pub decision: Decision,
    pub amount: Seq<char>,
    pub unit: Unit,
}

/// A timing as a log line gives it: whose, how much, of what unit.
pub struct Timing {
    pub decision: Decision,
    pub amount: String,
    pub unit: Unit,
}

impl View for Timing {
    type V = TimingView;

    open spec fn view(&self) -> TimingView {
        TimingView { decision: self.decision, amount: self.amount@, unit: self.unit }
    }
}

/// The amount and unit of a duration. A longer unit is looked for before `s`.
pub open spec fn duration_of(s: Seq<char>) -> Option<(Seq<char>, Unit)> {
    match text::before_suffix(s, "ns"@) {
        Some(a) => Some((a, Unit::Nanos)),
        None => match text::before_suffix(s, "\u{b5}s"@) {
            Some(a) => Some((a, Unit::Micros)),
            None => match text::before_suffix(s, "ms"@) {
                Some(a) => Some((a, Unit::Millis)),
                None => match text::before_suffix(s, "s"@) {
                    Some(a) => Some((a, Unit::Seconds)),
                    None => None,
                },
            },
        },
    }
}

/// A number behind a name.
pub open spec fn named_unsigned(s: Seq<char>, name: Seq<char>, missing: Seq<char>) -> Result<
    u64,
    Seq<char>,
> {
    match text::after_prefix(s, name) {
        None => Err(missing),
        Some(digits) => match number::unsigned_value(digits, u64::MAX as nat) {
            None => Err(number::unsigned_fault(digits, u64::MAX as nat)),
            Some(n) => Ok(n as u64),
        },
    }
}

/// A signed number behind a name.
pub open spec fn named_signed(s: Seq<char>, name: Seq<char>, missing: Seq<char>) -> Result<
    i64,
    Seq<char>,
> {
    match text::after_prefix(s, name) {
        None => Err(missing),
        Some(digits) => match number::signed_value(digits) {
            None => Err(number::signed_fault(digits)),
            Some(n) => Ok(n as i64),
        },
    }
}

/// The decision that a timing names.
pub open spec fn identity_of(s: Seq<char>) -> Result<Decision, Seq<char>> {
    let fields = text::pieces(s, ' ');
    if fields.len() != 3 {
        Err("decision timing has unexpected identity fields"@)
    } else {
        match named_unsigned(fields[0], "guid="@, "missing timing GUID"@) {
            Err(e) => Err(e),
            Ok(guid) => match named_unsigned(
                fields[1],
                "generation="@,
                "missing timing generation"@,
            ) {
                Err(e) => Err(e),
                Ok(generation) => match named_signed(
                    fields[2],
                    "observed_micros="@,
                    "missing timing observation"@,
                ) {
                    Err(e) => Err(e),
                    Ok(observed_micros) => if guid == 0 || generation == 0 || observed_micros
                        <= 0 {
                        Err("decision timing has an invalid identity"@)
                    } else {
                        Ok(Decision { guid, generation, observed_micros })
                    },
                },
            },
        }
    }
}

/// What a message says of a timing: nothing where it does not mention one.
pub open spec fn timing_of(message: Seq<char>) -> Result<Option<TimingView>, Seq<char>> {
    if !text::has_text(message, "playerbots_decision "@) {
        Ok(None)
    } else {
        match text::after_prefix(message, "Timing span \"playerbots_decision "@) {
            None => Err("malformed decision timing message"@),
            Some(rest) => match text::cut(rest, "\": "@) {
                None => Err("malformed decision timing message"@),
                Some((identity, duration)) => match identity_of(identity) {
                    Err(e) => Err(e),
                    Ok(decision) => match duration_of(duration) {
                        None => Err("unsupported timing duration unit"@),
                        Some((amount, unit)) => Ok(Some(TimingView { decision, amount, unit })),
                    },
                },
            },
        }
    }
}

/// What a log row says of a timing.
pub open spec fn row_timing(row: JsonView) -> Result<Option<TimingView>, Seq<char>> {
    match row.field("message"@).text() {
        None => Err("log row has no message"@),
        Some(message) => timing_of(message),
    }
}

fn duration_parts(s: &str) -> (r: Option<(String, Unit)>)
    ensures
        match r {
            Some((a, u)) => duration_of(s@) == Some((a@, u)),
            None => duration_of(s@) is None,
        },
{
    if let Some(a) = text::short_of(s, "ns") {
        return Some((a, Unit::Nanos));
    }
    if let Some(a) = text::short_of(s, "\u{b5}s") {
        return Some((a, Unit::Micros));
    }
    if let Some(a) = text::short_of(s, "ms") {
        return Some((a, Unit::Millis));
    }
    if let Some(a) = text::short_of(s, "s") {
        return Some((a, Unit::Seconds));
    }
    None
}

fn read_unsigned(s: &str, name: &str, missing: &str) -> (r: Result<u64, String>)
    ensures
        sats::agrees(r, named_unsigned(s@, name@, missing@)),
{
    match text::past(s, name) {
        None => Err(missing.to_owned()),
        Some(digits) => match number::parse_unsigned(digits.as_str(), u64::MAX) {
            None => Err(number::explain_unsigned(digits.as_str(), u64::MAX)),
            Some(n) => Ok(n),
        },
    }
}

fn read_signed(s: &str, name: &str, missing: &str) -> (r: Result<i64, String>)
    ensures
        sats::agrees(r, named_signed(s@, name@, missing@)),
{
    match text::past(s, name) {
        None => Err(missing.to_owned()),
        Some(digits) => match number::parse_signed(digits.as_str()) {
            None => Err(number::explain_signed(digits.as_str())),
            Some(n) => Ok(n),
        },
    }
}

fn read_identity(s: &str) -> (r: Result<Decision, String>)
    ensures
        sats::agrees(r, identity_of(s@)),
{
    let fields: Vec<String> = text::split(&text::chars_of(s), ' ');
    assert(text::texts(fields@).len() == fields@.len());
    if fields.len() != 3 {
        return Err("decision timing has unexpected identity fields".to_owned());
    }
    assert(text::texts(fields@)[0] == fields@[0]@);
    assert(text::texts(fields@)[1] == fields@[1]@);
    assert(text::texts(fields@)[2] == fields@[2]@);
    let guid: u64 = match read_unsigned(fields[0].as_str(), "guid=", "missing timing GUID") {
        Err(e) => return Err(e),
        Ok(n) => n,
    };
    let generation: u64 = match read_unsigned(
        fields[1].as_str(),
        "generation=",
        "missing timing generation",
    ) {
        Err(e) => return Err(e),
        Ok(n) => n,
    };
    let observed_micros: i64 = match read_signed(
        fields[2].as_str(),
        "observed_micros=",
        "missing timing observation",
    ) {
        Err(e) => return Err(e),
        Ok(n) => n,
    };
    if guid == 0 || generation == 0 || observed_micros <= 0 {
        return Err("decision timing has an invalid identity".to_owned());
    }
    Ok(Decision { guid, generation, observed_micros })
}

/// A timing, if there is one.
pub open spec fn timed(t: Option<Timing>) -> Option<TimingView> {
    match t {
        Some(v) => Some(v@),
        None => None,
    }
}

fn read_message(message: &str) -> (r: Result<Option<Timing>, String>)
    ensures
        match (r, timing_of(message@)) {
            (Ok(t), Ok(w)) => timed(t) == w,
            (Err(said), Err(words)) => said@ == words,
            _ => false,
        },
{
    if !text::contains(message, "playerbots_decision ") {
        return Ok(None);
    }
    let rest: String = match text::past(message, "Timing span \"playerbots_decision ") {
        None => return Err("malformed decision timing message".to_owned()),
        Some(rest) => rest,
    };
    let (identity, duration) = match text::split_once(rest.as_str(), "\": ") {
        None => return Err("malformed decision timing message".to_owned()),
        Some(parts) => parts,
    };
    let decision: Decision = match read_identity(identity.as_str()) {
        Err(e) => return Err(e),
        Ok(decision) => decision,
    };
    match duration_parts(duration.as_str()) {
        None => Err("unsupported timing duration unit".to_owned()),
        Some((amount, unit)) => Ok(Some(Timing { decision, amount, unit })),
    }
}

/// What a log row says of a timing: nothing where it does not mention one. What the amount is in
/// microseconds, the caller has to say.
pub fn parse(row: &Json) -> (r: Result<Option<Timing>, String>)
    ensures
        match (r, row_timing(row@)) {
            (Ok(t), Ok(w)) => timed(t) == w,
            (Err(said), Err(words)) => said@ == words,
            _ => false,
        },
{
    let message: Json = sats::field(row, "message");
    match message.as_str() {
        None => Err("log row has no message".to_owned()),
        Some(m) => read_message(m),
    }
}

// ------------------------------------------------------------------------------------------
//  The decisions of a measured window
// ------------------------------------------------------------------------------------------

/// A set of decisions.
pub struct Decisions {
    by_bot: BTreeMap<u64, Vec<Decision>>,
}

/// The decisions of a table.
pub open spec fn decisions(m: Map<u64, Vec<Decision>>) -> Set<Decision> {
    Set::new(|d: Decision| m.contains_key(d.guid) && m[d.guid]@.contains(d))
}

impl View for Decisions {
    type V = Set<Decision>;

    closed spec fn view(&self) -> Set<Decision> {
        decisions(self.by_bot@)
    }
}

fn among(list: &Vec<Decision>, d: Decision) -> (yes: bool)
    ensures
        yes == list@.contains(d),
{
    for i in 0..list.len()
        invariant
            forall|j: int| 0 <= j < i ==> list@[j] != d,
    {
        if list[i] == d {
            return true;
        }
    }
    false
}

impl Decisions {
    /// No decision yet.
    pub fn new() -> (s: Decisions)
        ensures
            s.valid(),
            s@ == Set::<Decision>::empty(),
    {
        let s = Decisions { by_bot: BTreeMap::new() };
        assert(s@ =~= Set::empty());
        s
    }

    /// Each decision stands once, in the list of its own bot.
    pub closed spec fn valid(&self) -> bool {
        forall|g: u64| #[trigger]
            self.by_bot@.contains_key(g) ==> self.by_bot@[g]@.no_duplicates() && forall|i: int|
                0 <= i < self.by_bot@[g]@.len() ==> (#[trigger] self.by_bot@[g]@[i]).guid == g
    }

    /// Adds a decision; says whether it is new.
    pub fn insert(&mut self, d: Decision) -> (new: bool)
        requires
            old(self).valid(),
        ensures
            final(self).valid(),
            final(self)@ == old(self)@.insert(d),
            new == !old(self)@.contains(d),
    {
        let ghost before = self.by_bot@;
        let mut list: Vec<Decision> = match self.by_bot.remove(&d.guid) {
            Some(list) => list,
            None => Vec::new(),
        };
        let ghost own = list@;
        assert(own.contains(d) <==> old(self)@.contains(d));
        let new = !among(&list, d);
        if new {
            list.push(d);
        }
        let ghost grown = list@;
        let _ = self.by_bot.insert(d.guid, list);
        proof {
            assert(self.by_bot@.remove(d.guid) =~= before.remove(d.guid));
            assert forall|x: Decision| self@.contains(x) <==> old(self)@.insert(d).contains(x) by {
                if x.guid == d.guid {
                    if new {
                        assert(grown.contains(x) <==> own.contains(x) || x == d) by {
                            if own.contains(x) {
                                let i = choose|i: int| 0 <= i < own.len() && own[i] == x;
                                assert(grown[i] == x);
                            }
                            assert(grown[own.len() as int] == d);
                        }
                    }
                } else {
                    assert(self.by_bot@.contains_key(x.guid) <==> before.contains_key(x.guid));
                }
            }
            assert(self@ =~= old(self)@.insert(d));
            assert forall|g: u64| #[trigger] self.by_bot@.contains_key(g) implies
                self.by_bot@[g]@.no_duplicates() && forall|i: int|
                0 <= i < self.by_bot@[g]@.len() ==> (#[trigger] self.by_bot@[g]@[i]).guid == g by {
                if g != d.guid {
                    assert(before.contains_key(g));
                }
            }
        }
        new
    }

    /// The decisions in ascending order.
    pub fn listed(&self) -> (v: Vec<Decision>)
        requires
            self.valid(),
        ensures
            sort::in_order(v@),
            v@.no_duplicates(),
            v@.to_set() == self@,
    {
        let guids: Vec<u64> = crate::order::keys_of(&self.by_bot);
        let mut all: Vec<Decision> = Vec::new();
        for i in 0..guids.len()
            invariant
                self.valid(),
                crate::order::lists(guids@, self.by_bot@.dom()),
                all@.no_duplicates(),
                forall|d: Decision| #[trigger]
                    all@.contains(d) <==> self@.contains(d) && guids@.take(i as int).contains(
                        d.guid,
                    ),
        {
            let guid: u64 = guids[i];
            let ghost before = all@;
            assert(guids@.contains(guid));
            if let Some(list) = self.by_bot.get(&guid) {
                for k in 0..list.len()
                    invariant
                        all@ == before + list@.take(k as int),
                {
                    all.push(list[k]);
                    assert(before + list@.take(k + 1) =~= (before + list@.take(k as int)).push(
                        list@[k as int],
                    ));
                }
                proof {
                    assert(list@.take(list@.len() as int) =~= list@);
                    assert(self.by_bot@.contains_key(guid));
                    lemma_gathered(self, guids@, i as int, before, list@, all@);
                }
            }
        }
        assert(guids@.take(guids@.len() as int) =~= guids@);
        let v: Vec<Decision> = sort::sort(&all);
        proof {
            sort::lemma_sorted_ensures(all@);
            lemma_rearranged(all@, v@);
            assert(v@.to_set() =~= self@) by {
                assert forall|d: Decision| v@.to_set().contains(d) <==> self@.contains(d) by {
                    assert(v@.contains(d) <==> all@.contains(d));
                    if self@.contains(d) {
                        assert(self.by_bot@.dom().contains(d.guid));
                        assert(guids@.contains(d.guid));
                    }
                }
            }
        }
        v
    }
}

/// One more bot's decisions are gathered.
proof fn lemma_gathered(
    s: &Decisions,
    guids: Seq<u64>,
    i: int,
    before: Seq<Decision>,
    list: Seq<Decision>,
    all: Seq<Decision>,
)
    requires
        s.valid(),
        0 <= i < guids.len(),
        crate::order::lists(guids, s.by_bot@.dom()),
        s.by_bot@.contains_key(guids[i]),
        list == s.by_bot@[guids[i]]@,
        before.no_duplicates(),
        forall|d: Decision| #[trigger]
            before.contains(d) <==> s@.contains(d) && guids.take(i).contains(d.guid),
        all == before + list,
    ensures
        all.no_duplicates(),
        forall|d: Decision| #[trigger]
            all.contains(d) <==> s@.contains(d) && guids.take(i + 1).contains(d.guid),
{
    let guid = guids[i];
    assert(!guids.take(i).contains(guid)) by {
        if guids.take(i).contains(guid) {
            let j = choose|j: int| 0 <= j < i && guids.take(i)[j] == guid;
            assert(guids[j] < guids[i]);
        }
    }
    assert forall|d: Decision| #[trigger] all.contains(d) <==> s@.contains(d) && guids.take(
        i + 1,
    ).contains(d.guid) by {
        if all.contains(d) {
            let k = choose|k: int| 0 <= k < all.len() && all[k] == d;
            if k < before.len() {
                assert(before[k] == d);
                assert(before.contains(d));
                let j = choose|j: int| 0 <= j < i && guids.take(i)[j] == d.guid;
                assert(guids.take(i + 1)[j] == d.guid);
            } else {
                assert(list[k - before.len()] == d);
                assert(guids.take(i + 1)[i] == d.guid);
            }
        }
        if s@.contains(d) && guids.take(i + 1).contains(d.guid) {
            let upto = guids.take(i + 1);
            let j = choose|j: int| 0 <= j < upto.len() && upto[j] == d.guid;
            if j < i {
                assert(guids.take(i)[j] == d.guid);
                assert(before.contains(d));
                let k = choose|k: int| 0 <= k < before.len() && before[k] == d;
                assert(all[k] == d);
            } else {
                assert(list.contains(d));
                let k = choose|k: int| 0 <= k < list.len() && list[k] == d;
                assert(all[before.len() + k] == d);
            }
        }
    }
    assert forall|a: int, b: int| 0 <= a < b < all.len() implies all[a] != all[b] by {
        if a < before.len() && b >= before.len() {
            assert(before.contains(before[a]));
            assert(all[b] == list[b - before.len()]);
            assert(all[b].guid == guid);
            assert(guids.take(i).contains(all[a].guid));
        }
    }
}

/// A rearrangement keeps distinct things distinct.
proof fn lemma_rearranged(a: Seq<Decision>, b: Seq<Decision>)
    requires
        a.no_duplicates(),
        a.to_multiset() == b.to_multiset(),
    ensures
        b.no_duplicates(),
{
    a.lemma_multiset_has_no_duplicates();
    assert forall|x: Decision| b.to_multiset().contains(x) implies b.to_multiset().count(x) == 1 by {
        assert(a.to_multiset().contains(x));
    }
    b.lemma_multiset_has_no_duplicates_conv();
}

// ------------------------------------------------------------------------------------------
//  Correlating timings with decisions
// ------------------------------------------------------------------------------------------

/// The bits of a floating-point number that is finite and not negative. Minus zero counts as
/// zero.
pub open spec fn sound_duration(bits: u64) -> bool {
    (bits / 0x10_0000_0000_0000) % 0x800 != 0x7ff && bits <= 0x8000_0000_0000_0000
}

/// The place of a sound duration among all of them: minus zero first, then by size.
pub open spec fn duration_rank(bits: u64) -> int {
    if bits == 0x8000_0000_0000_0000 {
        0
    } else {
        bits + 1
    }
}

/// A measured decision with how long it took, as the bits of its microseconds.
#[derive(Clone, Copy, Debug, PartialEq, Eq, Structural)]
pub struct Timed {
    pub bits: u64,
    pub decision: Decision,
}

impl Ranked for Timed {
    open spec fn leq(self, other: Timed) -> bool {
        duration_rank(self.bits) < duration_rank(other.bits) || (self.bits == other.bits
            && self.decision.leq(other.decision))
    }

    proof fn leq_is_total() {
        Decision::leq_is_total();
        let order = |a: Decision, b: Decision| a.leq(b);
        assert forall|a: Timed, b: Timed| #![auto] a.leq(b) && b.leq(a) implies a == b by {
            assert(order(a.decision, b.decision));
            assert(order(b.decision, a.decision));
        }
        assert forall|a: Timed, b: Timed, c: Timed| #![auto] a.leq(b) && b.leq(c) implies a.leq(
            c,
        ) by {
            if a.bits == b.bits && b.bits == c.bits {
                assert(order(a.decision, b.decision));
                assert(order(b.decision, c.decision));
                assert(order(a.decision, c.decision));
            }
        }
        assert forall|a: Timed, b: Timed| #![auto] a.leq(b) || b.leq(a) by {
            assert(order(a.decision, b.decision) || order(b.decision, a.decision));
        }
    }

    fn at_most(&self, other: &Timed) -> (yes: bool) {
        if self.bits == other.bits {
            self.decision.at_most(&other.decision)
        } else if self.bits == 0x8000_0000_0000_0000 {
            true
        } else if other.bits == 0x8000_0000_0000_0000 {
            false
        } else {
            self.bits < other.bits
        }
    }
}

/// A decision in words.
pub open spec fn decision_words(d: Decision) -> Seq<char> {
    "("@ + number::decimal(d.guid as nat) + ", "@ + number::decimal(d.generation as nat) + ", "@
        + number::signed_decimal(d.observed_micros as int) + ")"@
}

fn push_decision(out: &mut String, d: Decision)
    ensures
        final(out)@ == old(out)@ + decision_words(d),
{
    let ghost start = out@;
    out.append("(");
    number::push_decimal(out, d.guid);
    out.append(", ");
    number::push_decimal(out, d.generation);
    out.append(", ");
    let observed: String = number::signed_text(d.observed_micros);
    out.append(observed.as_str());
    out.append(")");
    assert(out@ =~= start + decision_words(d));
}

/// The timings found for a list of decisions, and how many belonged to none of them.
pub struct CorrelationView {
    pub expected: Seq<Decision>,
    pub found: Seq<Option<u64>>,
    pub excluded: int,
}

impl CorrelationView {
    /// After one more timing. A timing of another decision is counted and set aside; one of a
    /// measured decision has to come from the scheduled tick, and there may be only one.
    pub open spec fn with(self, d: Decision, function: JsonView, bits: u64) -> (
        CorrelationView,
        Option<Seq<char>>,
    ) {
        if !sound_duration(bits) {
            (self, Some("decision timing is negative or non-finite"@))
        } else if !self.expected.contains(d) {
            (CorrelationView { excluded: self.excluded + 1, ..self }, None)
        } else if function != JsonView::Text("tick_creatures"@) {
            (
                self,
                Some("measured decision was produced outside the ordinary scheduled tick"@),
            )
        } else {
            let i = self.expected.index_of(d);
            (
                CorrelationView { found: self.found.update(i, Some(bits)), ..self },
                if self.found[i] is Some {
                    Some("duplicate timing for measured decision "@ + decision_words(d))
                } else {
                    None
                },
            )
        }
    }

    /// The decisions without a timing.
    pub open spec fn missing(self) -> Seq<Decision> {
        missing_of(self.expected, self.found)
    }

    /// The timed decisions, in the order of the decisions.
    pub open spec fn timed(self) -> Seq<Timed> {
        Seq::new(
            self.expected.len(),
            |i: int| Timed { bits: self.found[i]->0, decision: self.expected[i] },
        )
    }

    /// The invariant: a timing or none for each of the decisions, which are all different and in
    /// ascending order.
    pub open spec fn valid(self) -> bool {
        &&& self.expected.len() == self.found.len()
        &&& self.expected.no_duplicates()
        &&& sort::in_order(self.expected)
    }
}

/// The decisions without a timing.
pub open spec fn missing_of(expected: Seq<Decision>, found: Seq<Option<u64>>) -> Seq<Decision>
    decreases expected.len(),
{
    if expected.len() == 0 {
        Seq::empty()
    } else {
        let rest = missing_of(expected.drop_last(), found.drop_last());
        if found.last() is Some {
            rest
        } else {
            rest.push(expected.last())
        }
    }
}

/// Decisions in words, with commas between them.
pub open spec fn decisions_words(list: Seq<Decision>) -> Seq<char>
    decreases list.len(),
{
    if list.len() == 0 {
        Seq::empty()
    } else if list.len() == 1 {
        decision_words(list[0])
    } else {
        decisions_words(list.drop_last()) + ", "@ + decision_words(list.last())
    }
}

/// Said where timings are missing: how many there are, and the first ten that are not.
pub open spec fn missing_words(expected: nat, missing: Seq<Decision>) -> Seq<char> {
    let first = if missing.len() <= 10 {
        missing
    } else {
        missing.take(10)
    };
    "missing timing samples: expected "@ + number::decimal(expected) + ", found "@
        + number::decimal((expected - missing.len()) as nat) + "; first missing ["@
        + decisions_words(first) + "]"@
}

/// The timings of measured decisions, being gathered from a log.
pub struct Correlation {
    expected: Vec<Decision>,
    found: Vec<Option<u64>>,
    excluded: u64,
}

impl View for Correlation {
    type V = CorrelationView;

    closed spec fn view(&self) -> CorrelationView {
        CorrelationView {
            expected: self.expected@,
            found: self.found@,
            excluded: self.excluded as int,
        }
    }
}

/// What a duration is.
pub const TIMING_SCOPE: &'static str =
    "debug host elapsed duration around runner::run, including timer overhead; not operating-system CPU time";

/// How the durations of all measured decisions spread.
pub struct Ranking {
    pub sorted: Vec<Timed>,
    pub p50: u64,
    pub p95: u64,
    pub excluded: u64,
}

/// The nearest rank of a percentage among `n` durations, counted from one.
pub open spec fn rank(n: nat, percent: nat) -> int {
    crate::spread::rank(n, percent)
}

fn find(list: &Vec<Decision>, d: Decision) -> (at: Option<usize>)
    requires
        list@.no_duplicates(),
        sort::in_order(list@),
    ensures
        match at {
            Some(i) => i < list@.len() && list@[i as int] == d && list@.index_of(d) == i,
            None => !list@.contains(d),
        },
{
    let ghost order = |a: Decision, b: Decision| a.leq(b);
    let mut low: usize = 0;
    let mut high: usize = list.len();
    while low < high
        invariant
            low <= high <= list@.len(),
            order == (|a: Decision, b: Decision| a.leq(b)),
            vstd::relations::sorted_by(list@, order),
            forall|k: int| 0 <= k < low ==> list@[k] != d,
            forall|k: int| high <= k < list@.len() ==> list@[k] != d,
            list@.no_duplicates(),
        decreases high - low,
    {
        let mid: usize = low + (high - low) / 2;
        let here: Decision = list[mid];
        if here == d {
            assert(list@.contains(d));
            return Some(mid);
        }
        if here.at_most(&d) {
            assert forall|k: int| 0 <= k <= mid implies list@[k] != d by {
                if k < mid {
                    assert(order(list@[k], list@[mid as int]));
                }
            }
            low = mid + 1;
        } else {
            assert forall|k: int| mid <= k < list@.len() implies list@[k] != d by {
                if k > mid {
                    assert(order(list@[mid as int], list@[k]));
                }
            }
            high = mid;
        }
    }
    None
}

impl Correlation {
    /// Looks for the timings of those decisions; there have to be some.
    pub fn new(decisions: &Decisions) -> (r: Result<Correlation, String>)
        requires
            decisions.valid(),
        ensures
            match r {
                Ok(c) => {
                    &&& c@.valid()
                    &&& c@.expected.len() > 0
                    &&& c@.expected.to_set() == decisions@
                    &&& c@.excluded == 0
                    &&& forall|i: int| 0 <= i < c@.found.len() ==> c@.found[i] is None
                },
                Err(said) => decisions@ == Set::<Decision>::empty() && said@
                    == "no measured decisions to correlate"@,
            },
    {
        let expected: Vec<Decision> = decisions.listed();
        if expected.len() == 0 {
            assert(expected@.to_set() =~= Set::empty());
            return Err("no measured decisions to correlate".to_owned());
        }
        let mut found: Vec<Option<u64>> = Vec::new();
        for i in 0..expected.len()
            invariant
                found@.len() == i,
                forall|j: int| 0 <= j < i ==> found@[j] is None,
        {
            found.push(None);
        }
        Ok(Correlation { expected, found, excluded: 0 })
    }

    /// Takes in the timing of a log row, whose duration has those bits in microseconds.
    pub fn record(&mut self, d: Decision, row: &Json, bits: u64) -> (r: Result<(), String>)
        requires
            old(self)@.valid(),
            old(self)@.excluded < u64::MAX,
        ensures
            (final(self)@, crate::analysis::told(r)) == old(self)@.with(
                d,
                row@.field("function"@),
                bits,
            ),
            final(self)@.valid(),
    {
        if (bits / 0x10_0000_0000_0000) % 0x800 == 0x7ff || bits > 0x8000_0000_0000_0000 {
            return Err("decision timing is negative or non-finite".to_owned());
        }
        match find(&self.expected, d) {
            None => {
                self.excluded = self.excluded + 1;
                Ok(())
            },
            Some(i) => {
                assert(self.expected@.contains(d));
                let function: Json = sats::field(row, "function");
                let scheduled = match function.as_str() {
                    Some(f) => text::same_text(f, "tick_creatures"),
                    None => false,
                };
                if !scheduled {
                    return Err(
                        "measured decision was produced outside the ordinary scheduled tick".to_owned(),
                    );
                }
                let doubled = self.found[i].is_some();
                self.found.set(i, Some(bits));
                if doubled {
                    let mut said: String = "duplicate timing for measured decision ".to_owned();
                    push_decision(&mut said, d);
                    return Err(said);
                }
                Ok(())
            },
        }
    }

    /// The durations of all measured decisions, in order; refused while one is missing.
    pub fn finish(&self) -> (r: Result<Ranking, String>)
        requires
            self@.valid(),
            self@.expected.len() > 0,
        ensures
            match r {
                Ok(k) => {
                    &&& self@.missing().len() == 0
                    &&& k.sorted@ == sort::sorted(self@.timed())
                    &&& k.sorted@.len() == self@.expected.len()
                    &&& k.p50 == k.sorted@[rank(k.sorted@.len(), 50) - 1].bits
                    &&& k.p95 == k.sorted@[rank(k.sorted@.len(), 95) - 1].bits
                    &&& k.excluded == self@.excluded
                },
                Err(said) => self@.missing().len() > 0 && said@ == missing_words(
                    self@.expected.len(),
                    self@.missing(),
                ),
            },
    {
        let mut missing: Vec<Decision> = Vec::new();
        let mut timed: Vec<Timed> = Vec::new();
        let ghost es = self.expected@;
        let ghost fs = self.found@;
        for i in 0..self.expected.len()
            invariant
                self@.valid(),
                es == self.expected@,
                fs == self.found@,
                missing@ == missing_of(es.take(i as int), fs.take(i as int)),
                missing@.len() <= i,
                missing@.len() == 0 ==> timed@ == self@.timed().take(i as int),
                missing@.len() == 0 ==> forall|k: int| 0 <= k < i ==> fs[k] is Some,
        {
            let d: Decision = self.expected[i];
            assert(es.take(i + 1).drop_last() =~= es.take(i as int));
            assert(fs.take(i + 1).drop_last() =~= fs.take(i as int));
            match self.found[i] {
                Some(bits) => {
                    timed.push(Timed { bits, decision: d });
                    if missing.len() == 0 {
                        assert(timed@ =~= self@.timed().take(i + 1));
                    }
                },
                None => {
                    missing.push(d);
                },
            }
        }
        assert(es.take(es.len() as int) =~= es);
        assert(fs.take(fs.len() as int) =~= fs);
        if missing.len() > 0 {
            let mut said: String = "missing timing samples: expected ".to_owned();
            number::push_decimal(&mut said, self.expected.len() as u64);
            said.append(", found ");
            number::push_decimal(&mut said, (self.expected.len() - missing.len()) as u64);
            said.append("; first missing [");
            let ghost head = said@;
            let shown: usize = if missing.len() <= 10 { missing.len() } else { 10 };
            push_decision(&mut said, missing[0]);
            assert(said@ =~= head + decisions_words(missing@.take(1)));
            for i in 1..shown
                invariant
                    1 <= shown <= missing@.len(),
                    said@ == head + decisions_words(missing@.take(i as int)),
            {
                said.append(", ");
                push_decision(&mut said, missing[i]);
                assert(missing@.take(i + 1).drop_last() =~= missing@.take(i as int));
                assert(said@ =~= head + decisions_words(missing@.take(i + 1)));
            }
            said.append("]");
            assert(missing@.len() <= 10 ==> missing@.take(shown as int) =~= missing@);
            assert(said@ =~= missing_words(self@.expected.len(), self@.missing()));
            return Err(said);
        }
        assert(timed@ =~= self@.timed());
        let sorted: Vec<Timed> = sort::sort(&timed);
        proof {
            sort::lemma_sorted_ensures(timed@);
        }
        let n: usize = sorted.len();
        let p50: u64 = sorted[crate::spread::rank_of(n, 50) - 1].bits;
        let p95: u64 = sorted[crate::spread::rank_of(n, 95) - 1].bits;
        Ok(Ranking { sorted, p50, p95, excluded: self.excluded })
    }
}

/// A timing once found is never replaced: a second one for the same decision is refused.
pub proof fn a_second_timing_is_refused(
    c: CorrelationView,
    d: Decision,
    f: JsonView,
    bits: u64,
    g: JsonView,
    again: u64,
)
    requires
        c.valid(),
        c.expected.contains(d),
        c.with(d, f, bits).1 is None,
        sound_duration(bits),
        sound_duration(again),
    ensures
        c.with(d, f, bits).0.with(d, g, again).1 is Some,
{
    let i = c.expected.index_of(d);
    assert(c.expected[i] == d);
}

// ------------------------------------------------------------------------------------------
//  What rows, lines and timings say
// ------------------------------------------------------------------------------------------

/// A number of a row.
pub open spec fn holds_number(v: JsonView, n: int) -> bool {
    match v {
        JsonView::Unsigned(m) => m == n,
        JsonView::Negative(m) => m == n,
        _ => false,
    }
}

/// A runner's row tells of the decision of its character, of its generation, at its time.
pub proof fn a_runner_tells_its_decision(runner: JsonView, d: Decision)
    requires
        runner.field("character_guid"@) == JsonView::Unsigned(d.guid),
        runner.field("generation"@) == JsonView::Unsigned(d.generation),
        holds_number(runner.field("observed_micros"@), d.observed_micros as int),
    ensures
        decision_of(runner) == Ok::<Decision, Seq<char>>(d),
{
}

/// A duration is read by its unit: whatever ends in a digit and is followed by `ns`, `\u{b5}s`, `ms`
/// or `s` is so many nanoseconds, microseconds, milliseconds or seconds.
pub proof fn a_duration_is_read_by_its_unit(amount: Seq<char>)
    requires
        amount.len() > 0,
        number::is_digit(amount.last()),
    ensures
        duration_of(amount + "ns"@) == Some((amount, Unit::Nanos)),
        duration_of(amount + "\u{b5}s"@) == Some((amount, Unit::Micros)),
        duration_of(amount + "ms"@) == Some((amount, Unit::Millis)),
        duration_of(amount + "s"@) == Some((amount, Unit::Seconds)),
        duration_of(amount) is None,
{
    reveal_strlit("ns");
    reveal_strlit("\u{b5}s");
    reveal_strlit("ms");
    reveal_strlit("s");
    let n = amount.len() as int;
    let a = amount + "ns"@;
    let b = amount + "\u{b5}s"@;
    let c = amount + "ms"@;
    let d = amount + "s"@;
    assert(a.subrange(n, n + 2) =~= "ns"@ && a.take(n) =~= amount);
    assert(b.subrange(n, n + 2) =~= "\u{b5}s"@ && b.take(n) =~= amount);
    assert(c.subrange(n, n + 2) =~= "ms"@ && c.take(n) =~= amount);
    assert(d.subrange(n, n + 1) =~= "s"@ && d.take(n) =~= amount);
    assert(b.subrange(n, n + 2)[0] == '\u{b5}');
    assert(c.subrange(n, n + 2)[0] == 'm');
    assert(d.subrange(n - 1, n + 1)[0] == amount.last());
    assert(amount.subrange(n - 1, n)[0] == amount.last());
    if n >= 2 {
        assert(amount.subrange(n - 2, n)[1] == amount.last());
    }
}

/// A timing that is accepted is found for its decision, and for no other; one of a decision that
/// was not measured is only counted. Nothing that was found before is lost.
pub proof fn a_timing_is_found_for_its_decision(
    c: CorrelationView,
    d: Decision,
    function: JsonView,
    bits: u64,
    i: int,
)
    requires
        c.valid(),
        c.with(d, function, bits).1 is None,
        0 <= i < c.expected.len(),
    ensures
        c.with(d, function, bits).0.expected == c.expected,
        c.with(d, function, bits).0.found[i] == if c.expected[i] == d {
            Some(bits)
        } else {
            c.found[i]
        },
        c.with(d, function, bits).0.excluded == c.excluded + if c.expected.contains(d) {
            0int
        } else {
            1int
        },
        c.expected.contains(d) ==> function == JsonView::Text("tick_creatures"@),
{
    if c.expected.contains(d) {
        let k = c.expected.index_of(d);
        assert(c.expected[k] == d);
        if c.expected[i] == d {
            assert(i == k);
        }
    } else if c.expected[i] == d {
        assert(c.expected.contains(d));
    }
}

/// A timing is refused just if its duration is no amount of time, or if it is of a measured decision
/// and came from elsewhere than the scheduled tick or is the second.
pub proof fn a_timing_is_refused_for_cause(
    c: CorrelationView,
    d: Decision,
    function: JsonView,
    bits: u64,
    i: int,
)
    requires
        c.valid(),
        0 <= i < c.expected.len(),
        c.expected[i] == d,
    ensures
        c.with(d, function, bits).1 is None <==> sound_duration(bits) && function
            == JsonView::Text("tick_creatures"@) && c.found[i] is None,
{
    assert(c.expected.contains(d));
    let k = c.expected.index_of(d);
    assert(c.expected[k] == d);
    assert(i == k);
}

/// In which order the timings of two decisions come makes no difference.
pub proof fn timings_may_come_in_any_order(
    c: CorrelationView,
    a: Decision,
    f: JsonView,
    x: u64,
    b: Decision,
    g: JsonView,
    y: u64,
)
    requires
        c.valid(),
        a != b,
        c.with(a, f, x).1 is None,
        c.with(b, g, y).1 is None,
    ensures
        c.with(a, f, x).0.with(b, g, y) == c.with(b, g, y).0.with(a, f, x),
        c.with(a, f, x).0.with(b, g, y).1 is None,
{
    let one = c.with(a, f, x).0.with(b, g, y).0;
    let two = c.with(b, g, y).0.with(a, f, x).0;
    if c.expected.contains(a) && c.expected.contains(b) {
        let i = c.expected.index_of(a);
        let j = c.expected.index_of(b);
        assert(c.expected[i] == a && c.expected[j] == b);
        assert(i != j);
        assert(one.found =~= two.found);
    }
}

/// The decisions that are missing are those without a timing.
pub proof fn the_missing_have_no_timing(
    expected: Seq<Decision>,
    found: Seq<Option<u64>>,
    d: Decision,
)
    requires
        expected.len() == found.len(),
    ensures
        missing_of(expected, found).contains(d) <==> exists|i: int|
            0 <= i < expected.len() && #[trigger] expected[i] == d && found[i] is None,
        missing_of(expected, found).len() == sort::number_of(found, |f: Option<u64>| f is None),
    decreases expected.len(),
{
    if expected.len() > 0 {
        let es = expected.drop_last();
        let fs = found.drop_last();
        the_missing_have_no_timing(es, fs, d);
        let rest = missing_of(es, fs);
        let all = missing_of(expected, found);
        let n = expected.len() - 1;
        if exists|i: int| 0 <= i < es.len() && #[trigger] es[i] == d && fs[i] is None {
            let i = choose|i: int| 0 <= i < es.len() && #[trigger] es[i] == d && fs[i] is None;
            assert(expected[i] == d && found[i] is None);
        }
        if exists|i: int| 0 <= i < expected.len() && #[trigger] expected[i] == d && found[i] is None {
            let i = choose|i: int|
                0 <= i < expected.len() && #[trigger] expected[i] == d && found[i] is None;
            if i < n {
                assert(es[i] == d && fs[i] is None);
            }
        }
        if found.last() is None {
            assert(all == rest.push(expected.last()));
            assert(all[all.len() - 1] == expected[n]);
            if rest.contains(d) {
                let i = choose|i: int| 0 <= i < rest.len() && rest[i] == d;
                assert(all[i] == d);
            }
            if all.contains(d) && d != expected.last() {
                let i = choose|i: int| 0 <= i < all.len() && all[i] == d;
                assert(rest[i] == d);
            }
        }
    }
}

/// How large a sound duration is.
pub open spec fn length(bits: u64) -> int {
    if bits == 0x8000_0000_0000_0000 {
        0
    } else {
        bits as int
    }
}

/// The durations of a window divide at a percentage: at least so many of them are no longer, and
/// fewer are shorter. In order, the shorter stands first.
pub proof fn a_duration_divides_the_window(timed: Seq<Timed>, percent: nat, i: int, j: int)
    requires
        timed.len() > 0,
        0 < percent <= 100,
        forall|k: int| 0 <= k < timed.len() ==> sound_duration((#[trigger] timed[k]).bits),
        0 <= i <= j < timed.len(),
    ensures
        ({
            let sorted = sort::sorted(timed);
            let x = sorted[rank(timed.len(), percent) - 1].bits;
            &&& length(sorted[i].bits) <= length(sorted[j].bits)
            &&& 100 * sort::number_of(timed, |t: Timed| length(t.bits) <= length(x)) >= timed.len()
                * percent
            &&& 100 * sort::number_of(timed, |t: Timed| length(t.bits) < length(x)) < timed.len()
                * percent
        }),
{
    let q = sort::sorted(timed);
    sort::lemma_sorted_ensures(timed);
    let n = timed.len();
    assert(n * percent <= n * 100) by (nonlinear_arith)
        requires
            percent <= 100,
    ;
    assert(n * percent >= n) by (nonlinear_arith)
        requires
            percent >= 1,
    ;
    let r = rank(n, percent);
    let x = q[r - 1].bits;
    let upto = |t: Timed| length(t.bits) <= length(x);
    let under = |t: Timed| length(t.bits) < length(x);
    sort::lemma_number_of_any_order(q, timed, upto);
    sort::lemma_number_of_any_order(q, timed, under);
    let leq = |a: Timed, b: Timed| a.leq(b);
    assert forall|k: int| 0 <= k < q.len() implies sound_duration((#[trigger] q[k]).bits) by {
        assert(q.contains(q[k]));
        assert(timed.contains(q[k]));
        let m = choose|m: int| 0 <= m < timed.len() && timed[m] == q[k];
        assert(sound_duration(timed[m].bits));
    }
    assert forall|k: int| 0 <= k < r implies upto(#[trigger] q[k]) by {
        if k < r - 1 {
            assert(leq(q[k], q[r - 1]));
        }
    }
    assert forall|k: int| r - 1 <= k < q.len() implies !under(#[trigger] q[k]) by {
        if k > r - 1 {
            assert(leq(q[r - 1], q[k]));
        }
    }
    if i < j {
        assert(leq(q[i], q[j]));
    }
    sort::lemma_number_of_first(q, r, upto);
    sort::lemma_number_of_first(q, r - 1, under);
}

// ------------------------------------------------------------------------------------------
//  What a log row says
// ------------------------------------------------------------------------------------------

proof fn lemma_piece(a: Seq<char>, c: char, rest: Seq<char>)
    requires
        !a.contains(c),
    ensures
        text::pieces(a.push(c) + rest, c) == seq![a] + text::pieces(rest, c),
        text::pieces(a, c) == seq![a],
{
    let s = a.push(c) + rest;
    let n = a.len() as int;
    text::lemma_first_index(s, c);
    text::lemma_first_index(a, c);
    assert(s[n] == c);
    let i = text::first_index(s, c);
    if i < n {
        assert(a[i] == c);
    }
    assert(i == n);
    assert(s.take(n) =~= a);
    assert(s.skip(n + 1) =~= rest);
}

/// A decision as a timing names it.
pub open spec fn named_decision(d: Decision) -> Seq<char> {
    ("guid="@ + number::decimal(d.guid as nat)).push(' ') + (("generation="@ + number::decimal(
        d.generation as nat,
    )).push(' ') + ("observed_micros="@ + number::decimal(d.observed_micros as nat)))
}

/// The name of a decision reads back, where none of its numbers is zero and its time is not negative.
pub proof fn a_named_decision_reads_back(d: Decision)
    requires
        d.observed_micros >= 0,
    ensures
        d.guid > 0 && d.generation > 0 && d.observed_micros > 0 ==> identity_of(named_decision(d))
            == Ok::<Decision, Seq<char>>(d),
        d.guid == 0 || d.generation == 0 || d.observed_micros == 0 ==> identity_of(named_decision(d))
            is Err,
        !named_decision(d).contains('"'),
{
    reveal_strlit("guid=");
    reveal_strlit("generation=");
    reveal_strlit("observed_micros=");
    let g = number::decimal(d.guid as nat);
    let n = number::decimal(d.generation as nat);
    let t = number::decimal(d.observed_micros as nat);
    number::decimal_reads_back(d.guid as nat);
    number::decimal_reads_back(d.generation as nat);
    number::decimal_reads_back(d.observed_micros as nat);
    let a = "guid="@ + g;
    let b = "generation="@ + n;
    let c = "observed_micros="@ + t;
    assert forall|i: int| 0 <= i < a.len() implies a[i] != ' ' && a[i] != '"' by {
        if i >= 5 {
            assert(number::is_digit(g[i - 5]));
        }
    }
    assert forall|i: int| 0 <= i < b.len() implies b[i] != ' ' && b[i] != '"' by {
        if i >= 11 {
            assert(number::is_digit(n[i - 11]));
        }
    }
    assert forall|i: int| 0 <= i < c.len() implies c[i] != ' ' && c[i] != '"' by {
        if i >= 16 {
            assert(number::is_digit(t[i - 16]));
        }
    }
    let s = named_decision(d);
    let rest = b.push(' ') + c;
    lemma_piece(a, ' ', rest);
    lemma_piece(b, ' ', c);
    lemma_piece(c, ' ', c);
    let fields = text::pieces(s, ' ');
    assert(fields =~= seq![a, b, c]);
    text::a_prefix_and_the_rest_make_the_text(a, "guid="@, g);
    text::a_prefix_and_the_rest_make_the_text(b, "generation="@, n);
    text::a_prefix_and_the_rest_make_the_text(c, "observed_micros="@, t);
    number::a_written_number_reads_back(d.guid as nat, u64::MAX as nat);
    number::a_written_number_reads_back(d.generation as nat, u64::MAX as nat);
    number::a_written_signed_number_reads_back(d.observed_micros as int);
    assert forall|i: int| 0 <= i < s.len() implies s[i] != '"' by {
        if i < a.len() {
            assert(s[i] == a[i]);
        } else if i > a.len() {
            let k = i - a.len() - 1;
            assert(s[i] == rest[k]);
            if k < b.len() {
                assert(rest[k] == b[k]);
            } else if k > b.len() {
                assert(rest[k] == c[k - b.len() - 1]);
            }
        }
    }
}

/// A log row tells of a timing where its message names a decision in a timing span, and how long it
/// took; a message that does not speak of decisions tells of none, and a row without a message is refused.
pub proof fn a_row_tells_of_its_timing(row: JsonView, d: Decision, amount: Seq<char>, other: Seq<char>)
    requires
        d.guid > 0 && d.generation > 0 && d.observed_micros > 0,
        amount.len() > 0,
        number::is_digit(amount.last()),
    ensures
        row.field("message"@) == JsonView::Text(
            "Timing span \"playerbots_decision "@ + (named_decision(d) + "\": "@ + (amount + "ms"@)),
        ) ==> row_timing(row) == Ok::<Option<TimingView>, Seq<char>>(
            Some(TimingView { decision: d, amount, unit: Unit::Millis }),
        ),
        row.field("message"@) == JsonView::Text(other) && text::has_text(other, "playerbots_decision "@)
            && !text::begins_with(other, "Timing span \"playerbots_decision "@) ==> row_timing(row)
            is Err,
        row.field("message"@) == JsonView::Text(other) && !text::has_text(
            other,
            "playerbots_decision "@,
        ) ==> row_timing(row) == Ok::<Option<TimingView>, Seq<char>>(None),
        !(row.field("message"@) is Text) ==> row_timing(row) is Err,
{
    reveal_strlit("Timing span \"playerbots_decision ");
    reveal_strlit("playerbots_decision ");
    reveal_strlit("\": ");
    let head = "Timing span \"playerbots_decision "@;
    let id = named_decision(d);
    let took = amount + "ms"@;
    let rest = id + "\": "@ + took;
    let message = head + rest;
    let at = (head.len() - "playerbots_decision "@.len()) as int;
    assert(message.subrange(at, at + "playerbots_decision "@.len()) =~= "playerbots_decision "@);
    assert(text::occurs_at(message, "playerbots_decision "@, at));
    text::a_prefix_and_the_rest_make_the_text(message, head, rest);
    a_named_decision_reads_back(d);
    let n = id.len() as int;
    assert(rest.subrange(n, n + 3) =~= "\": "@);
    assert forall|k: int| 0 <= k < n implies !#[trigger] text::occurs_at(rest, "\": "@, k) by {
        if text::occurs_at(rest, "\": "@, k) {
            assert(rest.subrange(k, k + 3)[0] == '"');
            assert(rest[k] == id[k]);
        }
    }
    text::a_cut_is_made_at_the_first_place(rest, "\": "@, n);
    assert(rest.take(n) =~= id);
    assert(rest.skip(n + 3) =~= took);
    a_duration_is_read_by_its_unit(amount);
}

/// Decisions follow one another with commas between them, each with its three numbers.
pub proof fn decisions_follow_one_another(a: Seq<Decision>, b: Seq<Decision>)
    requires
        a.len() > 0,
        b.len() > 0,
    ensures
        decisions_words(a + b) == decisions_words(a) + seq![',', ' '] + decisions_words(b),
        a.len() == 1 ==> decisions_words(a) == "("@ + number::decimal(a[0].guid as nat) + ", "@
            + number::decimal(a[0].generation as nat) + ", "@ + number::signed_decimal(
            a[0].observed_micros as int,
        ) + ")"@,
    decreases b.len(),
{
    reveal_strlit(", ");
    assert(", "@ =~= seq![',', ' ']);
    assert((a + b).drop_last() =~= a + b.drop_last());
    assert((a + b).last() == b.last());
    if b.len() == 1 {
        assert(a + b.drop_last() =~= a);
    } else {
        decisions_follow_one_another(a, b.drop_last());
        assert(decisions_words(a + b) =~= decisions_words(a) + seq![',', ' '] + decisions_words(b));
    }
}

/// Of the timings that are missing, the first ten are told, and how many of all there were.
pub proof fn the_first_ten_missing_are_told(found: nat, missing: Seq<Decision>)
    ensures
        missing_words(found + missing.len(), missing) == "missing timing samples: expected "@
            + number::decimal(found + missing.len()) + ", found "@ + number::decimal(found)
            + "; first missing ["@ + decisions_words(
            if missing.len() > 10 {
                missing.subrange(0, 10)
            } else {
                missing
            },
        ) + "]"@,
{
}

} // verus!
