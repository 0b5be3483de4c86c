//! The benchmark before and between its rungs: its arguments, which databases it may measure, and
//! when a window is void.

use vstd::prelude::*;
use crate::analysis;
use crate::cli::ArgsStop;
use crate::cli;
use crate::metrics::{Series, Snapshot};
use crate::metrics;
use crate::named::Named;
use crate::named;
use crate::number;
use crate::text;

verus! {

/// What the benchmark says of itself.
pub const USAGE: &'static str =
    "bench \u{2014} 50\u{2192}200 synthetic-player capacity benchmark\n\nUSAGE:\n  bench [OPTIONS]\n\nTARGET (re-runnable per shard):\n  --logon HOST[:PORT]     logon tier of the gateway under test     [127.0.0.1:3724]\n  --world HOST:PORT       world tier override                      [realm-list answer]\n  --metrics URL           SpacetimeDB node metrics endpoint        [http://127.0.0.1:3000/v1/metrics]\n  --db PREFIX             db= label prefix selecting ONE database  [required if the node hosts >1]\n  --witness-db PREFIX     a SECOND database sampled over the same measured windows and reported\n                          alongside the first. Nothing in this harness drives it \u{2014} it is how one\n                          run states both halves of \"instance load scales on the pool while the\n                          open world stays flat\" (#21) from the same window.  [none]\n\nRAMP:\n  --stages 50,100,150,200 additive player rungs                    [50,100,150,200]\n  --stages 0              OBSERVE-ONLY: connect nobody, hold one window, report both writers.\n                          For load this harness does not generate (e.g. N scripted dungeon runs).\n  --warmup SECS           settle time after each rung before measuring   [15]\n  --hold SECS             measured window per rung                       [60]\n  --login-stagger-ms MS   delay between consecutive logins              [40]\n\nWORKLOAD:\n  --center X,Y,Z          shared-zone center the crowd walks in    [-8920,-180,82]\n  --spread YARDS          crowd radius around the center           [40]\n  --heartbeat-ms MS       per-player movement cadence              [500]\n  --combat-pct N          % of players that engage a nearby creature [25]\n\nIDENTITY:\n  --account-prefix P      accounts are P0000..                     [BENCH]\n  --password PASS         shared password for those accounts       [benchpass]\n  --char-prefix P         characters are Paaa, Paab, \u{2026}             [Bench]\n\nOUTPUT:\n  --tables-filter SUB     only report tables whose name contains SUB    [all non-system tables]\n  --label NAME            run label recorded in the report         [REQUIRED for a real run]\n  --json PATH             write the machine-readable report\n  --text PATH             write the human-readable report (also printed to stdout)\n\nPREFLIGHT:\n  --dry-run 1             scrape the metrics endpoint once, print what the report would be able\n                          to measure, and EXIT without connecting a single player. Safe to run\n                          against a node that is in use.\n\nA real run CONNECTS UP TO 200 PLAYERS and saturates the target node's writer by design, so it\ndemands an explicit --label. With no arguments this binary refuses to do anything.\n";

// ------------------------------------------------------------------------------------------
//  Arguments
// ------------------------------------------------------------------------------------------

/// The values of the flags, by their names without the dashes. A later value replaces an earlier.
pub open spec fn pairs(toks: Seq<Seq<char>>, m: Map<Seq<char>, Seq<char>>) -> Result<
    Map<Seq<char>, Seq<char>>,
    cli::StopView,
>
    decreases toks.len(),
{
    if toks.len() == 0 {
        Ok(m)
    } else if toks[0] == "--help"@ || toks[0] == "-h"@ {
        Err(cli::StopView::Help)
    } else {
        match text::after_prefix(toks[0], "--"@) {
            None => Err(
                cli::StopView::Refused(
                    "unexpected positional argument "@ + text::debug_form(toks[0]) + "\n\n"@ + USAGE@,
                ),
            ),
            Some(key) => if toks.len() < 2 {
                Err(cli::StopView::Refused("--"@ + key + " needs a value\n\n"@ + USAGE@))
            } else {
                pairs(toks.skip(2), m.insert(key, toks[1]))
            },
        }
    }
}

/// The value of a flag, where it was given.
pub open spec fn value_of(m: Map<Seq<char>, Seq<char>>, k: Seq<char>) -> Option<Seq<char>> {
    if m.contains_key(k) {
        Some(m[k])
    } else {
        None
    }
}

/// The value of a flag, or a default.
pub open spec fn value_or(m: Map<Seq<char>, Seq<char>>, k: Seq<char>, default: Seq<char>) -> Seq<
    char,
> {
    match value_of(m, k) {
        Some(v) => v,
        None => default,
    }
}

/// The number that a flag gives, or a default.
pub open spec fn number_or(
    m: Map<Seq<char>, Seq<char>>,
    k: Seq<char>,
    default: nat,
    max: nat,
) -> Result<nat, Seq<char>> {
    match value_of(m, k) {
        None => Ok(default),
        Some(v) => match number::unsigned_value(v, max) {
            Some(n) => Ok(n),
            None => Err("--"@ + k + ": cannot parse "@ + text::debug_form(v)),
        },
    }
}

/// The numbers that a flag gives with commas between them, or a default.
pub open spec fn numbers_or(m: Map<Seq<char>, Seq<char>>, k: Seq<char>, default: Seq<usize>) -> Result<
    Seq<usize>,
    Seq<char>,
> {
    match value_of(m, k) {
        None => Ok(default),
        Some(v) => match numbers_read(text::pieces(v, ',')) {
            Ok(n) => Ok(n),
            Err(bad) => Err("--"@ + k + ": "@ + text::debug_form(bad)),
        },
    }
}

/// The flags and their values.
pub struct Args {
    table: Named<String>,
}

impl Args {
    /// Every flag that was given, with its value.
    pub closed spec fn view(&self) -> Map<Seq<char>, Seq<char>> {
        Map::new(|k: Seq<char>| self.table@.contains_key(k), |k: Seq<char>| self.table@[k]@)
    }

    /// The table of flags is in order.
    pub closed spec fn valid(&self) -> bool {
        self.table.valid()
    }

    /// Reads an argument vector without the program's name.
    pub fn parse(argv: &Vec<String>) -> (r: Result<Args, ArgsStop>)
        ensures
            match r {
                Ok(a) => a.valid() && pairs(text::texts(argv@), Map::empty()) == Ok::<
                    Map<Seq<char>, Seq<char>>,
                    cli::StopView,
                >(a@),
                Err(stop) => pairs(text::texts(argv@), Map::empty()) == Err::<
                    Map<Seq<char>, Seq<char>>,
                    cli::StopView,
                >(stop@),
            },
    {
        let mut a: Args = Args { table: Named::new() };
        let ghost toks = text::texts(argv@);
        let ghost owed = pairs(toks, Map::empty());
        assert(a@ =~= Map::<Seq<char>, Seq<char>>::empty());
        assert(toks.skip(0) =~= toks);
        let n: usize = argv.len();
        let mut i: usize = 0;
        while i < n
            invariant
                n == argv@.len(),
                i <= n,
                toks == text::texts(argv@),
                owed == pairs(toks, Map::empty()),
                a.valid(),
                pairs(toks.skip(i as int), a@) == owed,
            decreases n - i,
        {
            let tok = argv[i].as_str();
            let ghost here = toks.skip(i as int);
            assert(here[0] == tok@);
            if text::same_text(tok, "--help") || text::same_text(tok, "-h") {
                return Err(ArgsStop::Help);
            }
            match text::past(tok, "--") {
                None => {
                    let mut said: String = "unexpected positional argument ".to_owned();
                    said.append(text::debug_text(tok).as_str());
                    said.append("\n\n");
                    said.append(USAGE);
                    return Err(ArgsStop::Refused(said));
                },
                Some(key) => {
                    if n - i < 2 {
                        let mut said: String = "--".to_owned();
                        said.append(key.as_str());
                        said.append(" needs a value\n\n");
                        said.append(USAGE);
                        return Err(ArgsStop::Refused(said));
                    }
                    assert(here[1] == argv@[i + 1]@);
                    assert(here.skip(2) =~= toks.skip(i + 2));
                    let ghost before = a@;
                    let ghost k = key@;
                    let _ = a.table.insert(key, argv[i + 1].clone());
                    assert(a@ =~= before.insert(k, argv@[i + 1]@));
                    i = i + 2;
                },
            }
        }
        assert(toks.skip(n as int).len() == 0);
        Ok(a)
    }

    /// The value of a flag, or a default.
    pub fn str(&self, k: &str, default: &str) -> (s: String)
        requires
            self.valid(),
        ensures
            s@ == value_or(self@, k@, default@),
    {
        match self.table.get(k) {
            Some(v) => v.clone(),
            None => default.to_owned(),
        }
    }

    /// The value of a flag, where it was given.
    pub fn opt(&self, k: &str) -> (v: Option<String>)
        requires
            self.valid(),
        ensures
            text::text_of(v) == value_of(self@, k@),
    {
        match self.table.get(k) {
            Some(v) => Some(v.clone()),
            None => None,
        }
    }

    /// The number that a flag gives, or a default. A value that is no number is refused.
    pub fn num(&self, k: &str, default: u64, max: u64) -> (r: Result<u64, String>)
        requires
            self.valid(),
        ensures
            match (r, number_or(self@, k@, default as nat, max as nat)) {
                (Ok(n), Ok(m)) => n == m,
                (Err(said), Err(words)) => said@ == words,
                _ => false,
            },
    {
        match self.table.get(k) {
            None => Ok(default),
            Some(v) => match number::parse_unsigned(v.as_str(), max) {
                Some(n) => Ok(n),
                None => {
                    let mut said: String = "--".to_owned();
                    said.append(k);
                    said.append(": cannot parse ");
                    said.append(text::debug_text(v.as_str()).as_str());
                    Err(said)
                },
            },
        }
    }

    /// The numbers that a flag gives with commas between them, or a default.
    pub fn list(&self, k: &str, default: &[usize]) -> (r: Result<Vec<usize>, String>)
        requires
            self.valid(),
        ensures
            match (r, numbers_or(self@, k@, default@)) {
                (Ok(v), Ok(w)) => v@ == w,
                (Err(said), Err(words)) => said@ == words,
                _ => false,
            },
    {
        match self.table.get(k) {
            None => {
                let mut v: Vec<usize> = Vec::new();
                for i in 0..default.len()
                    invariant
                        v@ == default@.take(i as int),
                {
                    v.push(default[i]);
                    assert(default@.take(i + 1) =~= default@.take(i as int).push(
                        default@[i as int],
                    ));
                }
                assert(default@.take(default@.len() as int) =~= default@);
                Ok(v)
            },
            Some(given) => {
                let parts: Vec<String> = text::split(&text::chars_of(given.as_str()), ',');
                match read_numbers(&parts) {
                    Ok(v) => Ok(v),
                    Err(bad) => {
                        let mut said: String = "--".to_owned();
                        said.append(k);
                        said.append(": ");
                        said.append(text::debug_text(bad.as_str()).as_str());
                        Err(said)
                    },
                }
            },
        }
    }
}

/// The numbers of some pieces, blanks around them aside, or the first piece that is none.
pub open spec fn numbers_read(p: Seq<Seq<char>>) -> Result<Seq<usize>, Seq<char>>
    decreases p.len(),
{
    if p.len() == 0 {
        Ok(Seq::empty())
    } else {
        match numbers_read(p.drop_last()) {
            Err(bad) => Err(bad),
            Ok(v) => match number::unsigned_value(text::trimmed(p.last()), usize::MAX as nat) {
                Some(n) => Ok(v.push(n as usize)),
                None => Err(p.last()),
            },
        }
    }
}

proof fn lemma_numbers_stop(p: Seq<Seq<char>>, i: int)
    requires
        0 <= i <= p.len(),
        numbers_read(p.take(i)) is Err,
    ensures
        numbers_read(p) == numbers_read(p.take(i)),
    decreases p.len() - i,
{
    if i < p.len() {
        assert(p.take(i + 1).drop_last() =~= p.take(i));
        lemma_numbers_stop(p, i + 1);
    } else {
        assert(p.take(i) =~= p);
    }
}

fn read_numbers(parts: &Vec<String>) -> (r: Result<Vec<usize>, String>)
    ensures
        match r {
            Ok(v) => numbers_read(text::texts(parts@)) == Ok::<Seq<usize>, Seq<char>>(v@),
            Err(bad) => numbers_read(text::texts(parts@)) == Err::<Seq<usize>, Seq<char>>(bad@),
        },
{
    let ghost p = text::texts(parts@);
    let mut v: Vec<usize> = Vec::new();
    for i in 0..parts.len()
        invariant
            p == text::texts(parts@),
            numbers_read(p.take(i as int)) == Ok::<Seq<usize>, Seq<char>>(v@),
    {
        assert(p.take(i + 1).drop_last() =~= p.take(i as int));
        assert(p.take(i + 1).last() == parts@[i as int]@);
        let bare: String = text::trim(parts[i].as_str());
        match number::parse_unsigned(bare.as_str(), usize::MAX as u64) {
            Some(n) => {
                v.push(n as usize);
            },
            None => {
                proof {
                    lemma_numbers_stop(p, i + 1);
                }
                return Err(parts[i].clone());
            },
        }
    }
    assert(p.take(p.len() as int) =~= p);
    Ok(v)
}

// ------------------------------------------------------------------------------------------
//  Which databases may be measured
// ------------------------------------------------------------------------------------------

/// Some series of a family passes a filter.
pub open spec fn any_of(
    samples: Map<Seq<char>, u64>,
    family: Seq<char>,
    filter: Seq<char>,
) -> bool {
    metrics::any_selected(samples, family, seq![filter])
}

/// The databases that expose a family, each once, in order.
pub open spec fn are_the_databases(
    names: Seq<Seq<char>>,
    samples: Map<Seq<char>, u64>,
    family: Seq<char>,
) -> bool {
    named::in_text_order(names) && forall|db: Seq<char>| #[trigger]
        names.contains(db) <==> metrics::exposes(samples, family, db)
}

/// Names in quotes, with commas between them.
pub open spec fn quoted(names: Seq<Seq<char>>) -> Seq<char>
    decreases names.len(),
{
    if names.len() == 0 {
        Seq::empty()
    } else if names.len() == 1 {
        text::debug_form(names[0])
    } else {
        quoted(names.drop_last()) + ", "@ + text::debug_form(names.last())
    }
}

fn push_quoted(out: &mut String, t: &Named<bool>)
    requires
        t.valid(),
    ensures
        final(out)@ == old(out)@ + quoted(t.keys()),
{
    let ghost start = out@;
    let n: usize = t.len();
    if n == 0 {
        assert(out@ =~= start + quoted(t.keys()));
        return;
    }
    out.append(text::debug_text(t.name_at(0)).as_str());
    assert(out@ =~= start + quoted(t.keys().take(1)));
    for i in 1..n
        invariant
            t.valid(),
            n == t.keys().len(),
            out@ == start + quoted(t.keys().take(i as int)),
    {
        out.append(", ");
        out.append(text::debug_text(t.name_at(i)).as_str());
        assert(t.keys().take(i + 1).drop_last() =~= t.keys().take(i as int));
        assert(out@ =~= start + quoted(t.keys().take(i + 1)));
    }
    assert(t.keys().take(n as int) =~= t.keys());
}

/// Why a selection of databases cannot be measured, if so.
pub open spec fn db_refusal(names: Seq<Seq<char>>, db: Seq<char>, matches: bool) -> Option<
    Seq<char>,
> {
    if db.len() > 0 && !matches {
        Some(
            "--db "@ + text::debug_form(db)
                + " matches no database on this node \u{2014} every server-side number would be a silent 0.\nmeasurable databases: ["@
                + quoted(names)
                + "]\n(--db takes a PREFIX of the database identity; `bench --dry-run 1` lists them)"@,
        )
    } else if db.len() == 0 && names.len() > 1 {
        Some(
            "this node hosts "@ + number::decimal(names.len())
                + " measurable databases, and an empty --db would SUM them into one bogus occupancy figure.\npass --db <prefix> to select the shard under test: ["@
                + quoted(names) + "]"@,
        )
    } else if names.len() == 0 {
        Some(
            "the metrics endpoint exposes no `"@ + metrics::OCCUPANCY_FAMILY@
                + "` series at all \u{2014} the node is up but has no database to measure (nothing published?)"@,
        )
    } else {
        None
    }
}

proof fn lemma_databases(t: Named<bool>, samples: Map<Seq<char>, u64>, family: Seq<char>)
    requires
        t.valid(),
        forall|d: Seq<char>| #[trigger] t@.contains_key(d) <==> metrics::exposes(samples, family, d),
    ensures
        are_the_databases(t.keys(), samples, family),
{
    assert forall|db: Seq<char>| #[trigger] t.keys().contains(db) <==> metrics::exposes(
        samples,
        family,
        db,
    ) by {
        assert(t@.contains_key(db) <==> t.keys().contains(db));
    }
}

/// A selection under which there is one database to measure: a named one that some series of the
/// occupancy family matches, or the only one where none is named.
pub open spec fn selectable(
    samples: Map<Seq<char>, u64>,
    db: Seq<char>,
    dbf: Seq<char>,
) -> bool {
    let family = metrics::OCCUPANCY_FAMILY@;
    &&& exists|d: Seq<char>| metrics::exposes(samples, family, d)
    &&& if db.len() > 0 {
        any_of(samples, family, dbf)
    } else {
        forall|a: Seq<char>, b: Seq<char>|
            metrics::exposes(samples, family, a) && metrics::exposes(samples, family, b) ==> a == b
    }
}

proof fn lemma_selectable(
    names: Seq<Seq<char>>,
    samples: Map<Seq<char>, u64>,
    db: Seq<char>,
    dbf: Seq<char>,
)
    requires
        are_the_databases(names, samples, metrics::OCCUPANCY_FAMILY@),
    ensures
        db_refusal(names, db, any_of(samples, metrics::OCCUPANCY_FAMILY@, dbf)) is None
            <==> selectable(samples, db, dbf),
{
    let family = metrics::OCCUPANCY_FAMILY@;
    if names.len() > 0 {
        assert(names.contains(names[0]));
        assert(metrics::exposes(samples, family, names[0]));
    } else {
        assert forall|d: Seq<char>| !metrics::exposes(samples, family, d) by {
            assert(!names.contains(d));
        }
    }
    if names.len() > 1 {
        assert(names.contains(names[1]));
        named::lemma_distinct(names);
        assert(metrics::exposes(samples, family, names[1]) && names[0] != names[1]);
    } else {
        assert forall|a: Seq<char>, b: Seq<char>|
            metrics::exposes(samples, family, a) && metrics::exposes(
                samples,
                family,
                b,
            ) implies a == b by {
            assert(names.contains(a) && names.contains(b));
        }
    }
}

/// Refuses a selection under which every number of the report would silently be zero, or the sum
/// of several databases.
pub fn validate_db_selection(s: &Snapshot, db: &str, dbf: &str) -> (r: Result<(), String>)
    requires
        s.valid(),
    ensures
        exists|names: Seq<Seq<char>>|
            are_the_databases(names, s@, metrics::OCCUPANCY_FAMILY@) && analysis::told(r)
                == #[trigger] db_refusal(
                names,
                db@,
                any_of(s@, metrics::OCCUPANCY_FAMILY@, dbf@),
            ),
        r is Ok <==> selectable(s@, db@, dbf@),
{
    let measurable: Named<bool> = s.databases_with(metrics::OCCUPANCY_FAMILY);
    let mut filters: Vec<String> = Vec::new();
    filters.push(dbf.to_owned());
    assert(text::texts(filters@) =~= seq![dbf@]);
    let seen: bool = s.has_any(metrics::OCCUPANCY_FAMILY, &filters);
    let ghost names = measurable.keys();
    proof {
        lemma_databases(measurable, s@, metrics::OCCUPANCY_FAMILY@);
    }
    assert(seen == any_of(s@, metrics::OCCUPANCY_FAMILY@, dbf@));
    proof {
        lemma_selectable(names, s@, db@, dbf@);
    }
    let empty: bool = text::chars_of(db).len() == 0;
    let n: usize = measurable.len();
    let ghost owed = db_refusal(names, db@, seen);
    if !empty && !seen {
        let mut said: String = "--db ".to_owned();
        said.append(text::debug_text(db).as_str());
        said.append(
            " matches no database on this node \u{2014} every server-side number would be a silent 0.\nmeasurable databases: [",
        );
        push_quoted(&mut said, &measurable);
        said.append(
            "]\n(--db takes a PREFIX of the database identity; `bench --dry-run 1` lists them)",
        );
        assert(Some(said@) == owed);
        return Err(said);
    }
    if empty && n > 1 {
        let mut said: String = "this node hosts ".to_owned();
        number::push_decimal(&mut said, n as u64);
        said.append(
            " measurable databases, and an empty --db would SUM them into one bogus occupancy figure.\npass --db <prefix> to select the shard under test: [",
        );
        push_quoted(&mut said, &measurable);
        said.append("]");
        assert(Some(said@) == owed);
        return Err(said);
    }
    if n == 0 {
        let mut said: String = "the metrics endpoint exposes no `".to_owned();
        said.append(metrics::OCCUPANCY_FAMILY);
        said.append(
            "` series at all \u{2014} the node is up but has no database to measure (nothing published?)",
        );
        assert(Some(said@) == owed);
        return Err(said);
    }
    assert(owed is None);
    Ok(())
}

/// Why a second database cannot be measured beside the first, if so.
pub open spec fn witness_refusal(
    names: Seq<Seq<char>>,
    db: Seq<char>,
    witness: Seq<char>,
    matches: bool,
) -> Option<Seq<char>> {
    if witness.len() == 0 {
        None
    } else if !matches {
        Some(
            "--witness-db "@ + text::debug_form(witness)
                + " matches no database on this node \u{2014} it would report 0.0% occupancy, which is indistinguishable from the flat second writer this comparison is supposed to demonstrate.\nmeasurable databases: ["@
                + quoted(names) + "]"@,
        )
    } else if db.len() > 0 && (text::begins_with(witness, db) || text::begins_with(db, witness)) {
        Some(
            "--witness-db "@ + text::debug_form(witness) + " and --db "@ + text::debug_form(db)
                + " select the same database \u{2014} the report would show one writer in two columns, which agree by construction and prove nothing"@,
        )
    } else {
        None
    }
}

/// Refuses a second database that is not there, or that is the first: either would confirm what
/// the comparison is to test.
pub fn validate_witness_selection(s: &Snapshot, db: &str, witness: &str, wdbf: &str) -> (r: Result<
    (),
    String,
>)
    requires
        s.valid(),
    ensures
        exists|names: Seq<Seq<char>>|
            are_the_databases(names, s@, metrics::OCCUPANCY_FAMILY@) && analysis::told(r)
                == #[trigger] witness_refusal(
                names,
                db@,
                witness@,
                any_of(s@, metrics::OCCUPANCY_FAMILY@, wdbf@),
            ),
{
    let measurable: Named<bool> = s.databases_with(metrics::OCCUPANCY_FAMILY);
    let mut filters: Vec<String> = Vec::new();
    filters.push(wdbf.to_owned());
    assert(text::texts(filters@) =~= seq![wdbf@]);
    let seen: bool = s.has_any(metrics::OCCUPANCY_FAMILY, &filters);
    let ghost names = measurable.keys();
    proof {
        lemma_databases(measurable, s@, metrics::OCCUPANCY_FAMILY@);
    }
    assert(seen == any_of(s@, metrics::OCCUPANCY_FAMILY@, wdbf@));
    let ghost owed = witness_refusal(names, db@, witness@, seen);
    if text::chars_of(witness).len() == 0 {
        assert(owed is None);
        return Ok(());
    }
    if !seen {
        let mut said: String = "--witness-db ".to_owned();
        said.append(text::debug_text(witness).as_str());
        said.append(
            " matches no database on this node \u{2014} it would report 0.0% occupancy, which is indistinguishable from the flat second writer this comparison is supposed to demonstrate.\nmeasurable databases: [",
        );
        push_quoted(&mut said, &measurable);
        said.append("]");
        assert(Some(said@) == owed);
        return Err(said);
    }
    if text::chars_of(db).len() > 0 && (text::starts_with(witness, db) || text::starts_with(
        db,
        witness,
    )) {
        let mut said: String = "--witness-db ".to_owned();
        said.append(text::debug_text(witness).as_str());
        said.append(" and --db ");
        said.append(text::debug_text(db).as_str());
        said.append(
            " select the same database \u{2014} the report would show one writer in two columns, which agree by construction and prove nothing",
        );
        assert(Some(said@) == owed);
        return Err(said);
    }
    assert(owed is None);
    Ok(())
}

/// The databases of a scrape are determined: whoever lists them in order lists the same.
pub proof fn the_databases_are_determined(
    a: Seq<Seq<char>>,
    b: Seq<Seq<char>>,
    samples: Map<Seq<char>, u64>,
    family: Seq<char>,
)
    requires
        are_the_databases(a, samples, family),
        are_the_databases(b, samples, family),
    ensures
        a == b,
{
    assert forall|x: Seq<char>| a.contains(x) <==> b.contains(x) by {
        assert(a.contains(x) <==> metrics::exposes(samples, family, x));
        assert(b.contains(x) <==> metrics::exposes(samples, family, x));
    }
    named::lemma_order_unique(a, b);
}

/// A selection that passes is of one database: where none is named, the node has only one; where
/// one is named, some series of the occupancy family is its own.
pub proof fn an_accepted_selection_measures_something(
    names: Seq<Seq<char>>,
    db: Seq<char>,
    matches: bool,
)
    requires
        db_refusal(names, db, matches) is None,
    ensures
        db.len() == 0 ==> names.len() == 1,
        db.len() > 0 ==> matches,
        names.len() >= 1,
{
}

// ------------------------------------------------------------------------------------------
//  What is missing, and what is void
// ------------------------------------------------------------------------------------------

/// A family that the report needs, and what for.
pub struct Family {
    pub what: &'static str,
    pub name: &'static str,
}

/// The families that the report needs.
pub open spec fn families() -> Seq<(Seq<char>, Seq<char>)> {
    seq![
        ("writer occupancy %"@, "spacetime_txn_cpu_time_sec_sum"@),
        ("tx/s by reducer"@, "spacetime_num_txns_total"@),
        ("event inserts/s"@, "spacetime_num_rows_inserted_total"@),
        ("event reaps/s"@, "spacetime_num_rows_deleted_total"@),
        ("queue wait (saturation)"@, "spacetime_reducer_wait_time_sec_sum"@),
        ("egress bytes/s"@, "spacetime_num_bytes_sent_to_clients_total"@),
    ]
}

/// What a family holds.
pub open spec fn family(f: Family) -> (Seq<char>, Seq<char>) {
    (f.what@, f.name@)
}

/// The families that the report needs.
pub fn required_families() -> (v: Vec<Family>)
    ensures
        v@.map_values(|f: Family| family(f)) == families(),
{
    let mut v: Vec<Family> = Vec::new();
    v.push(Family { what: "writer occupancy %", name: "spacetime_txn_cpu_time_sec_sum" });
    v.push(Family { what: "tx/s by reducer", name: "spacetime_num_txns_total" });
    v.push(Family { what: "event inserts/s", name: "spacetime_num_rows_inserted_total" });
    v.push(Family { what: "event reaps/s", name: "spacetime_num_rows_deleted_total" });
    v.push(Family {
        what: "queue wait (saturation)",
        name: "spacetime_reducer_wait_time_sec_sum",
    });
    v.push(Family { what: "egress bytes/s", name: "spacetime_num_bytes_sent_to_clients_total" });
    assert(v@.map_values(|f: Family| family(f)) =~= families());
    v
}

/// Said of a family that is not there.
pub open spec fn by_absence(what: Seq<char>, name: Seq<char>) -> Seq<char> {
    what + ": the node exposes no `"@ + name
        + "` series under this --db selection, so that field is 0 BY ABSENCE, not by measurement."@
}

/// What is said of the families that are not there.
pub open spec fn missing(
    fs: Seq<(Seq<char>, Seq<char>)>,
    samples: Map<Seq<char>, u64>,
    dbf: Seq<char>,
) -> Seq<Seq<char>>
    decreases fs.len(),
{
    if fs.len() == 0 {
        Seq::empty()
    } else {
        let before = missing(fs.drop_last(), samples, dbf);
        if any_of(samples, fs.last().1, dbf) {
            before
        } else {
            before.push(by_absence(fs.last().0, fs.last().1))
        }
    }
}

/// What every report leaves out of the node's side.
pub const WASM_NOTE: &'static str =
    "Per-reducer WASM execution time is reported by the node under a placeholder db label (`reducer_wasm_time_usec`), so it is not attributed per database here; the per-reducer breakdown in this report is TRANSACTION COUNT, and occupancy is whole-database CPU.";

/// What every report leaves in on the players' side.
pub const LATENCY_NOTE: &'static str =
    "Movement latency is sampled when the OBSERVING player's thread dequeues the relayed heartbeat, so it includes this harness's own scheduling delay. `harness.wakeup_lag_ms` is the control: compare it against the movement percentiles before attributing a rung's latency to the server.";

/// Says that a window was voided, and by which counter.
pub fn reset_note(target: usize, key: &str) -> (s: String)
    ensures
        s@ == "Rung "@ + number::decimal(target as nat)
            + ": the node's counters RESET inside the measured window (`"@ + key@
            + "` went backwards) \u{2014} every server-side number for that stage is void. Re-run it."@,
{
    let mut s: String = "Rung ".to_owned();
    number::push_decimal(&mut s, target as u64);
    s.append(": the node's counters RESET inside the measured window (`");
    s.append(key);
    s.append(
        "` went backwards) \u{2014} every server-side number for that stage is void. Re-run it.",
    );
    s
}

/// Why a run without a label is refused.
pub fn label_refusal(players: usize, logon: &str) -> (s: String)
    ensures
        s@ == "refusing to run: --label is required, because THIS CONNECTS "@ + number::decimal(
            players as nat,
        ) + " SYNTHETIC PLAYERS to "@ + logon@
            + " and saturates that node's writer by design.\n\n  preflight only (connects nobody, writes nothing):  bench --dry-run 1\n  a real, deliberate run:                       bench --label main-baseline\n\nSee docs/capacity-benchmark.md \u{a7}3 \u{2014} the run needs exclusive access to the stack."@,
{
    let mut s: String =
        "refusing to run: --label is required, because THIS CONNECTS ".to_owned();
    number::push_decimal(&mut s, players as u64);
    s.append(" SYNTHETIC PLAYERS to ");
    s.append(logon);
    s.append(
        " and saturates that node's writer by design.\n\n  preflight only (connects nobody, writes nothing):  bench --dry-run 1\n  a real, deliberate run:                       bench --label main-baseline\n\nSee docs/capacity-benchmark.md \u{a7}3 \u{2014} the run needs exclusive access to the stack.",
    );
    s
}

/// Says which families the selection does not see.
pub fn park_missing_families(s: &Snapshot, dbf: &str) -> (v: Vec<String>)
    requires
        s.valid(),
    ensures
        text::texts(v@) == missing(families(), s@, dbf@),
{
    let fs: Vec<Family> = required_families();
    let mut filters: Vec<String> = Vec::new();
    filters.push(dbf.to_owned());
    assert(text::texts(filters@) =~= seq![dbf@]);
    let mut v: Vec<String> = Vec::new();
    let ghost all = families();
    assert(text::texts(v@) =~= Seq::<Seq<char>>::empty());
    for i in 0..fs.len()
        invariant
            s.valid(),
            all == families(),
            all == fs@.map_values(|f: Family| family(f)),
            text::texts(filters@) == seq![dbf@],
            text::texts(v@) == missing(all.take(i as int), s@, dbf@),
    {
        assert(all.take(i + 1).drop_last() =~= all.take(i as int));
        assert(all.take(i + 1).last() == family(fs@[i as int]));
        let there: bool = s.has_any(fs[i].name, &filters);
        assert(there == any_of(s@, fs@[i as int].name@, dbf@));
        if !there {
            let ghost before = v@;
            let mut said: String = fs[i].what.to_owned();
            said.append(": the node exposes no `");
            said.append(fs[i].name);
            said.append(
                "` series under this --db selection, so that field is 0 BY ABSENCE, not by measurement.",
            );
            let ghost words = said@;
            v.push(said);
            assert(text::texts(v@) =~= text::texts(before).push(words));
        }
    }
    assert(all.take(all.len() as int) =~= all);
    v
}

/// The counter that voids a window: the first, in key order, that went backwards in the database
/// that is measured; where none did, the first in the one beside it.
pub open spec fn voided_by(
    samples: Map<Seq<char>, u64>,
    db: Seq<char>,
    witness: Seq<char>,
    key: Seq<char>,
) -> bool {
    let own = seq![metrics::database_filter(db)];
    ||| metrics::first_back(samples, own, key)
    ||| metrics::none_back(samples, own) && witness.len() > 0 && metrics::first_back(
        samples,
        seq![metrics::database_filter(witness)],
        key,
    )
}

/// What is told of resets inside a window: the counter that voids it with its value, or that none
/// does.
pub open spec fn tells_reset(
    samples: Map<Seq<char>, u64>,
    db: Seq<char>,
    witness: Seq<char>,
    found: Option<(Seq<char>, u64)>,
) -> bool {
    match found {
        Some((key, bits)) => voided_by(samples, db, witness, key) && bits == samples[key],
        None => {
            &&& metrics::none_back(samples, seq![metrics::database_filter(db)])
            &&& witness.len() > 0 ==> metrics::none_back(
                samples,
                seq![metrics::database_filter(witness)],
            )
        },
    }
}

/// A counter that was reset inside a window, in the database that is measured or in the one beside
/// it. Either voids the window.
pub fn counter_reset(d: &Snapshot, db: &str, witness: &str) -> (found: Option<Series>)
    requires
        d.valid(),
    ensures
        tells_reset(
            d@,
            db@,
            witness@,
            match found {
                Some(s) => Some((s.key@, s.bits)),
                None => None,
            },
        ),
{
    let mut own: Vec<String> = Vec::new();
    own.push(metrics::db_filter(db));
    assert(text::texts(own@) =~= seq![metrics::database_filter(db@)]);
    if let Some(s) = d.first_negative(&own) {
        return Some(s);
    }
    if text::chars_of(witness).len() > 0 {
        let mut other: Vec<String> = Vec::new();
        other.push(metrics::db_filter(witness));
        assert(text::texts(other@) =~= seq![metrics::database_filter(witness@)]);
        return d.first_negative(&other);
    }
    None
}

/// A table that the report lists: it has the text that was asked for in its name, and is none of
/// the system's.
pub open spec fn listed_table(name: Seq<char>, filter: Seq<char>) -> bool {
    text::has_text(name, filter) && !text::begins_with(name, "st_"@)
}

/// Whether the report lists a table.
pub fn lists_table(name: &str, filter: &str) -> (yes: bool)
    ensures
        yes == listed_table(name@, filter@),
{
    text::contains(name, filter) && !text::starts_with(name, "st_")
}

// ------------------------------------------------------------------------------------------
//  What arguments and measurements say
// ------------------------------------------------------------------------------------------

/// A flag with a value behind arguments that are understood is understood, and its value replaces any
/// that it had; the others keep theirs. A flag without a value, and anything that is no flag, is not
/// understood there.
pub proof fn a_later_flag_counts(
    toks: Seq<Seq<char>>,
    m: Map<Seq<char>, Seq<char>>,
    key: Seq<char>,
    value: Seq<char>,
    other: Seq<char>,
)
    requires
        pairs(toks, m) is Ok,
        key != "help"@,
    ensures
        pairs(toks.push("--"@ + key).push(value), m) == Ok::<
            Map<Seq<char>, Seq<char>>,
            cli::StopView,
        >(pairs(toks, m)->Ok_0.insert(key, value)),
        pairs(toks.push("--"@ + key), m) is Err,
        toks.len() % 2 == 0,
        !text::begins_with(other, "--"@) ==> pairs(toks.push(other), m) is Err,
        pairs(toks.push("--help"@), m) == Err::<Map<Seq<char>, Seq<char>>, cli::StopView>(
            cli::StopView::Help,
        ),
    decreases toks.len(),
{
    reveal_strlit("--");
    reveal_strlit("--help");
    reveal_strlit("-h");
    reveal_strlit("help");
    let flag = "--"@ + key;
    let more = toks.push(flag).push(value);
    assert(flag.subrange(0, 2) =~= "--"@);
    assert(flag.skip(2) =~= key);
    assert("--help"@.skip(2) =~= "help"@);
    assert(flag != "--help"@);
    assert(flag[1] == '-' && "-h"@[1] == 'h');
    if toks.len() == 0 {
        assert(more.skip(2) =~= Seq::empty());
        assert(more[0] == flag && more[1] == value);
        assert(toks.push(flag)[0] == flag);
        assert(toks.push("--help"@)[0] == "--help"@);
        assert(toks.push(other)[0] == other);
        assert(pairs(more, m) == pairs(more.skip(2), m.insert(key, value)));
    } else {
        let k = text::after_prefix(toks[0], "--"@)->0;
        let n = m.insert(k, toks[1]);
        assert(toks.len() >= 2);
        a_later_flag_counts(toks.skip(2), n, key, value, other);
        assert(more.skip(2) =~= toks.skip(2).push(flag).push(value));
        assert(toks.push(flag).skip(2) =~= toks.skip(2).push(flag));
        assert(toks.push(other).skip(2) =~= toks.skip(2).push(other));
        assert(toks.push("--help"@).skip(2) =~= toks.skip(2).push("--help"@));
        assert(more[0] == toks[0] && more[1] == toks[1]);
        assert(toks.push(flag)[0] == toks[0] && toks.push(flag)[1] == toks[1]);
        assert(toks.push(other)[0] == toks[0] && toks.push(other)[1] == toks[1]);
        assert(toks.push("--help"@)[0] == toks[0] && toks.push("--help"@)[1] == toks[1]);
    }
}

/// A flag that was not given has its default, and one that was given has its value: as it stands, or
/// as the number that it writes. What is said of one flag says nothing of another.
pub proof fn a_flag_has_its_value_or_its_default(
    m: Map<Seq<char>, Seq<char>>,
    k: Seq<char>,
    v: Seq<char>,
    default: Seq<char>,
    n: nat,
    d: nat,
    max: nat,
    other: Seq<char>,
)
    requires
        n <= max,
        other != k,
    ensures
        value_or(m.insert(k, v), k, default) == v,
        value_or(m.remove(k), k, default) == default,
        value_or(m.insert(k, v), other, default) == value_or(m, other, default),
        value_of(m.insert(k, v), k) == Some(v),
        value_of(m.remove(k), k) is None,
        number_or(m.insert(k, number::decimal(n)), k, d, max) == Ok::<nat, Seq<char>>(n),
        number_or(m.insert(k, number::decimal(max + 1)), k, d, max) is Err,
        number_or(m.remove(k), k, d, max) == Ok::<nat, Seq<char>>(d),
{
    number::a_written_number_reads_back(n, max);
    number::a_written_number_reads_back(max + 1, max);
}

/// A list of numbers is read piece by piece: each piece is a number with blanks around it, and as many
/// numbers come out, in their order; one piece that is none spoils the list, and is named where it is
/// the first.
pub proof fn a_list_is_read_piece_by_piece(p: Seq<Seq<char>>, i: int)
    requires
        0 <= i < p.len(),
    ensures
        numbers_read(p) matches Ok(v) ==> v.len() == p.len() && number::unsigned_value(
            text::trimmed(p[i]),
            usize::MAX as nat,
        ) == Some(v[i] as nat),
        numbers_read(p) is Ok <==> forall|k: int|
            0 <= k < p.len() ==> number::unsigned_value(
                text::trimmed(#[trigger] p[k]),
                usize::MAX as nat,
            ) is Some,
        (number::unsigned_value(text::trimmed(p[i]), usize::MAX as nat) is None && forall|k: int|
            0 <= k < i ==> number::unsigned_value(
                text::trimmed(#[trigger] p[k]),
                usize::MAX as nat,
            ) is Some) ==> numbers_read(p) == Err::<Seq<usize>, Seq<char>>(p[i]),
    decreases p.len(),
{
    let rest = p.drop_last();
    lemma_fits(p.last());
    if i < rest.len() {
        a_list_is_read_piece_by_piece(rest, i);
        assert(rest[i] == p[i]);
    } else if rest.len() > 0 {
        a_list_is_read_piece_by_piece(rest, 0);
    }
    assert(forall|k: int| 0 <= k < rest.len() ==> rest[k] == p[k]);
    assert(p[p.len() - 1] == p.last());
    if rest.len() == 0 {
        assert(numbers_read(rest) == Ok::<Seq<usize>, Seq<char>>(Seq::empty()));
    }
}

proof fn lemma_fits(s: Seq<char>)
    ensures
        number::unsigned_value(text::trimmed(s), usize::MAX as nat) matches Some(n) ==> n
            <= usize::MAX,
{
}

/// A selection of databases is accepted exactly where some database is there, and either a named one
/// matches or the only one is meant.
pub proof fn a_selection_is_of_one_database(names: Seq<Seq<char>>, db: Seq<char>, matches: bool)
    ensures
        db_refusal(names, db, matches) is None <==> names.len() > 0 && (if db.len() > 0 {
            matches
        } else {
            names.len() == 1
        }),
{
}

/// A second database is accepted exactly where none is asked for, or the one that is asked for is
/// there and is not the first: neither name begins with the other.
pub proof fn a_witness_is_another_database(
    names: Seq<Seq<char>>,
    db: Seq<char>,
    witness: Seq<char>,
    matches: bool,
)
    ensures
        witness.len() == 0 ==> witness_refusal(names, db, witness, matches) is None,
        witness.len() > 0 ==> (witness_refusal(names, db, witness, matches) is None <==> matches && (
        db.len() == 0 || !(text::begins_with(witness, db) || text::begins_with(db, witness)))),
        witness.len() > 0 && db == witness ==> witness_refusal(names, db, witness, matches) is Some,
{
    if db == witness {
        assert(witness.subrange(0, db.len() as int) =~= db);
    }
}

/// A family that no selected series belongs to is told of, and every one that is told of is such a
/// family, in the order of the families.
pub proof fn absent_families_are_told(
    fs: Seq<(Seq<char>, Seq<char>)>,
    samples: Map<Seq<char>, u64>,
    dbf: Seq<char>,
    i: int,
)
    requires
        0 <= i < fs.len(),
    ensures
        !any_of(samples, fs[i].1, dbf) ==> missing(fs, samples, dbf).contains(
            by_absence(fs[i].0, fs[i].1),
        ),
        missing(fs, samples, dbf).len() == 0 <==> forall|k: int|
            0 <= k < fs.len() ==> any_of(samples, (#[trigger] fs[k]).1, dbf),
        missing(fs, samples, dbf).len() <= fs.len(),
        (forall|k: int| 0 <= k < fs.len() ==> !any_of(samples, (#[trigger] fs[k]).1, dbf))
            ==> missing(fs, samples, dbf).len() == fs.len(),
    decreases fs.len(),
{
    let rest = fs.drop_last();
    let before = missing(rest, samples, dbf);
    let said = by_absence(fs.last().0, fs.last().1);
    assert(forall|k: int| 0 <= k < rest.len() ==> rest[k] == fs[k]);
    assert(fs[fs.len() - 1] == fs.last());
    if i < rest.len() {
        absent_families_are_told(rest, samples, dbf, i);
        if before.contains(by_absence(fs[i].0, fs[i].1)) {
            let k = choose|k: int| 0 <= k < before.len() && before[k] == by_absence(fs[i].0, fs[i].1);
            assert(before.push(said)[k] == before[k]);
        }
    } else if rest.len() > 0 {
        absent_families_are_told(rest, samples, dbf, 0);
    }
    assert(before.push(said)[before.len() as int] == said);
}

/// The report needs the families of CPU time, transactions, inserted and deleted rows, waiting time
/// and egress.
pub proof fn six_families_are_needed()
    ensures
        families().len() == 6,
        families()[0].1 == "spacetime_txn_cpu_time_sec_sum"@,
        families()[1].1 == "spacetime_num_txns_total"@,
        families()[2].1 == "spacetime_num_rows_inserted_total"@,
        families()[3].1 == "spacetime_num_rows_deleted_total"@,
        families()[4].1 == "spacetime_reducer_wait_time_sec_sum"@,
        families()[5].1 == "spacetime_num_bytes_sent_to_clients_total"@,
{
}

/// A window is void exactly where a counter of the measured database, or of the one beside it where
/// there is one, fell below where it began. The counter that is told of is such a one, with its value;
/// one of the measured database comes before any of the other.
pub proof fn a_window_is_void_where_a_counter_fell(
    samples: Map<Seq<char>, u64>,
    db: Seq<char>,
    witness: Seq<char>,
    found: Option<(Seq<char>, u64)>,
    k: Seq<char>,
)
    requires
        tells_reset(samples, db, witness, found),
        samples.contains_key(k),
        samples[k] > 0x8000_0000_0000_0000 && samples[k] <= 0xfff0_0000_0000_0000,
    ensures
        metrics::counted(k, seq![metrics::database_filter(db)]) ==> (found matches Some((key, _))
            && metrics::counted(key, seq![metrics::database_filter(db)]) && (key == k
            || named::precedes(key, k))),
        witness.len() > 0 && metrics::counted(k, seq![metrics::database_filter(witness)])
            ==> found is Some,
        found matches Some((key, bits)) ==> samples.contains_key(key) && bits == samples[key] && bits
            > 0x8000_0000_0000_0000 && bits <= 0xfff0_0000_0000_0000 && (metrics::counted(
            key,
            seq![metrics::database_filter(db)],
        ) || (witness.len() > 0 && metrics::counted(key, seq![metrics::database_filter(witness)]))),
{
    let own = seq![metrics::database_filter(db)];
    let other = seq![metrics::database_filter(witness)];
    if metrics::counted(k, own) {
        assert(metrics::went_back(samples, own, k));
    }
    if metrics::counted(k, other) {
        assert(metrics::went_back(samples, other, k));
    }
}

/// A table is listed where its name holds the wanted text and does not begin with the letters of the
/// system's own.
pub proof fn a_table_is_listed_by_its_name(before: Seq<char>, filter: Seq<char>, after: Seq<char>)
    ensures
        listed_table(before + filter + after, filter) <==> !((before + filter + after).len() >= 3 && (
        before + filter + after).take(3) == seq!['s', 't', '_']),
{
    let name = before + filter + after;
    let at = before.len() as int;
    assert(name.subrange(at, at + filter.len()) =~= filter);
    assert(text::occurs_at(name, filter, at));
    reveal_strlit("st_");
    assert("st_"@ =~= seq!['s', 't', '_']);
    if name.len() >= 3 {
        assert(name.take(3) =~= name.subrange(0, 3));
    }
}

} // verus!
