//! A capture: what it may be run on, how long it runs, how much it keeps, and when it is over.

use vstd::prelude::*;
use sha2::{Digest, Sha256};
use std::collections::BTreeSet;
use crate::json::{Json, JsonView};
use crate::number;
use crate::stream;
use crate::stream::Pass;
use crate::text;
use crate::timing;
use crate::timing::{Decision, Decisions};

verus! {

broadcast use {vstd::std_specs::btree::group_btree_axioms, vstd::laws_cmp::group_laws_cmp};

/// The longest transaction line.
pub const MAX_LINE_BYTES: u64 = 8388608;

/// The most that all transaction lines together may take.
pub const MAX_STREAM_BYTES: u64 = 8589934592;

/// The most that the decision log may take.
pub const MAX_LOG_BYTES: u64 = 268435456;

/// How long every bot has to be served once before the window begins.
pub const WARMUP_SECONDS: u64 = 30;

/// How long after its end a window may stay unobserved, in microseconds.
pub const GRACE_MICROS: u64 = 5_000_000;

/// The form in which ownership evidence is asked for.
pub const OWNERSHIP_EVIDENCE_SCHEMA: u32 = 1;

/// The entries of the creatures that act on their own.
pub open spec fn autonomous_entries() -> Seq<u32> {
    seq![6, 38, 69, 257, 299, 721, 883, 890]
}

/// The entries of the creatures that act on their own.
pub fn creature_entries() -> (v: Vec<u32>)
    ensures
        v@ == autonomous_entries(),
{
    let v: Vec<u32> = vec![6, 38, 69, 257, 299, 721, 883, 890];
    assert(v@ =~= autonomous_entries());
    v
}

// ------------------------------------------------------------------------------------------
//  The queries of ownership evidence
// ------------------------------------------------------------------------------------------

/// A query for a whole table.
pub open spec fn table_query(table: Seq<char>) -> Seq<char> {
    "SELECT * FROM "@ + table
}

/// A query for the rows of one entry.
pub open spec fn entry_query(table: Seq<char>, entry: u32) -> Seq<char> {
    "SELECT * FROM "@ + table + " WHERE entry = "@ + number::decimal(entry as nat)
}

/// The queries that make up ownership evidence: the ownership tables, then the entities and the
/// spawns of each entry.
pub open spec fn queries_for(entries: Seq<u32>) -> Seq<Seq<char>> {
    stream::ownership_names().map_values(|t: Seq<char>| table_query(t)) + entries.map_values(
        |e: u32| entry_query(stream::ENTITY@, e),
    ) + entries.map_values(|e: u32| entry_query(stream::SPAWN@, e))
}

fn entry_query_of(table: &str, entry: u32) -> (q: String)
    ensures
        q@ == entry_query(table@, entry),
{
    let mut q: String = "SELECT * FROM ".to_owned();
    q.append(table);
    q.append(" WHERE entry = ");
    number::push_decimal(&mut q, entry as u64);
    q
}

fn push_entry_queries(out: &mut Vec<String>, table: &str, entries: &Vec<u32>)
    ensures
        text::texts(final(out)@) == text::texts(old(out)@) + entries@.map_values(
            |e: u32| entry_query(table@, e),
        ),
{
    let ghost start = text::texts(out@);
    let ghost all = entries@.map_values(|e: u32| entry_query(table@, e));
    assert(start + all.take(0) =~= start);
    for i in 0..entries.len()
        invariant
            all == entries@.map_values(|e: u32| entry_query(table@, e)),
            text::texts(out@) == start + all.take(i as int),
    {
        let ghost before = text::texts(out@);
        let q: String = entry_query_of(table, entries[i]);
        let ghost w = q@;
        out.push(q);
        assert(text::texts(out@) =~= before.push(w));
        assert(all.take(i + 1) =~= all.take(i as int).push(w));
        assert(text::texts(out@) =~= start + all.take(i + 1));
    }
    assert(all.take(all.len() as int) =~= all);
}

/// The queries that make up ownership evidence.
pub fn ownership_queries(entries: &Vec<u32>) -> (v: Vec<String>)
    ensures
        text::texts(v@) == queries_for(entries@),
{
    let tables: Vec<&'static str> = stream::ownership_tables();
    let mut v: Vec<String> = Vec::new();
    let ghost all = stream::ownership_names().map_values(|t: Seq<char>| table_query(t));
    assert(text::texts(v@) =~= all.take(0));
    for i in 0..tables.len()
        invariant
            tables@.len() == stream::ownership_names().len(),
            forall|j: int|
                0 <= j < tables@.len() ==> (#[trigger] tables@[j])@ == stream::ownership_names()[j],
            all == stream::ownership_names().map_values(|t: Seq<char>| table_query(t)),
            text::texts(v@) == all.take(i as int),
    {
        let ghost before = text::texts(v@);
        let mut q: String = "SELECT * FROM ".to_owned();
        q.append(tables[i]);
        let ghost w = q@;
        v.push(q);
        assert(text::texts(v@) =~= before.push(w));
        assert(all.take(i + 1) =~= all.take(i as int).push(w));
    }
    assert(all.take(all.len() as int) =~= all);
    push_entry_queries(&mut v, stream::ENTITY, entries);
    push_entry_queries(&mut v, stream::SPAWN, entries);
    v
}

/// The evidence is as large as its entries make it: five tables, and two queries for each entry.
pub proof fn ownership_evidence_is_bounded(entries: Seq<u32>)
    ensures
        queries_for(entries).len() == 5 + 2 * entries.len(),
        queries_for(autonomous_entries()).len() == 21,
{
}

// ------------------------------------------------------------------------------------------
//  What a capture is run on
// ------------------------------------------------------------------------------------------

/// The ownership evidence that a capture declares.
pub struct OwnershipEvidence {
    pub schema: u32,
    pub creature_entries: Vec<u32>,
    pub queries: Vec<String>,
}

/// What a capture is run on, as it is declared.
pub struct Inputs {
    pub server: String,
    pub database_identity: String,
    pub bot_guids: Vec<u64>,
    pub seconds: u64,
    pub core_revision: String,
    pub package_revision: String,
    pub content_identity: String,
    pub geometry_revision: String,
    pub wasm_sha256: String,
    pub cli_sha256: String,
    pub fixture_resources: Json,
    pub ownership_evidence: OwnershipEvidence,
}

/// Where an endpoint listens.
#[derive(Clone, Copy, Debug, PartialEq, Eq, Structural)]
pub struct Listener {
    pub loopback: bool,
    pub port: u16,
}

/// A hexadecimal digit.
pub open spec fn is_hex(c: char) -> bool {
    '0' <= c <= '9' || 'a' <= c <= 'f' || 'A' <= c <= 'F'
}

/// A text of so many hexadecimal digits.
pub open spec fn hex_text(s: Seq<char>, length: nat) -> bool {
    s.len() == length && forall|i: int| 0 <= i < s.len() ==> is_hex(#[trigger] s[i])
}

fn check_hex(s: &str, length: usize) -> (yes: bool)
    ensures
        yes == hex_text(s@, length as nat),
{
    let v: Vec<char> = text::chars_of(s);
    if v.len() != length {
        return false;
    }
    for i in 0..v.len()
        invariant
            v@ == s@,
            forall|j: int| 0 <= j < i ==> is_hex(#[trigger] s@[j]),
    {
        let c: char = v[i];
        assert(s@[i as int] == c);
        if !(('0' <= c && c <= '9') || ('a' <= c && c <= 'f') || ('A' <= c && c <= 'F')) {
            return false;
        }
    }
    true
}

/// What is wrong with the declared identities, if anything is: the first of them in order.
pub open spec fn identity_fault(i: Inputs) -> Option<Seq<char>> {
    if !hex_text(i.database_identity@, 64) {
        Some("invalid database identity"@)
    } else if !hex_text(i.core_revision@, 40) {
        Some("invalid Core revision"@)
    } else if !hex_text(i.package_revision@, 40) {
        Some("invalid Package revision"@)
    } else if !hex_text(i.content_identity@, 64) {
        Some("invalid content identity"@)
    } else if !hex_text(i.wasm_sha256@, 64) {
        Some("invalid Wasm SHA-256"@)
    } else if !hex_text(i.cli_sha256@, 64) {
        Some("invalid CLI SHA-256"@)
    } else {
        None
    }
}

/// What is wrong with inputs before the executable is looked at, if anything is. `listener` is
/// what the endpoint behind the scheme stands for, `paths` whether the declared paths are
/// absolute and the configuration exists.
pub open spec fn declared_fault(i: Inputs, listener: Option<Listener>, paths: bool) -> Option<
    Seq<char>,
> {
    if !text::begins_with(i.server@, "http://"@) {
        Some("acceptance requires an explicit HTTP loopback endpoint"@)
    } else if listener is None {
        Some("invalid socket address syntax"@)
    } else if !listener->0.loopback || listener->0.port == 0 {
        Some("acceptance endpoint must be a private loopback listener"@)
    } else if identity_fault(i) is Some {
        identity_fault(i)
    } else if text::trimmed(i.geometry_revision@).len() == 0 || !(
    i.fixture_resources@ is Object) {
        Some("geometry and fixture resources must be recorded"@)
    } else if !paths {
        Some("CLI and existing private configuration need absolute paths"@)
    } else {
        None
    }
}

/// The bots that a capture can be run on: ten, twenty-five or a hundred, all different, none zero.
pub open spec fn sound_bots(guids: Seq<u64>) -> bool {
    (guids.len() == 10 || guids.len() == 25 || guids.len() == 100) && guids.no_duplicates()
        && !guids.contains(0)
}

/// The ownership evidence that this capture observes.
pub open spec fn sound_evidence(e: OwnershipEvidence) -> bool {
    &&& e.schema == OWNERSHIP_EVIDENCE_SCHEMA
    &&& e.creature_entries@ == autonomous_entries()
    &&& text::texts(e.queries@) == queries_for(autonomous_entries())
}

/// Bytes as lower-case hexadecimal digits.
pub open spec fn hex_of(bytes: Seq<u8>) -> Seq<char>
    decreases bytes.len(),
{
    if bytes.len() == 0 {
        Seq::empty()
    } else {
        hex_of(bytes.drop_last()) + number::hex_fixed(bytes.last() as nat, 2, false)
    }
}

/// The SHA-256 digest of some bytes.
pub uninterp spec fn sha256(bytes: Seq<u8>) -> Seq<u8>;

/// Calls `Sha256::digest`, whose result depends on the bytes alone.
#[verifier::external_body]
fn digest_of(bytes: &Vec<u8>) -> (d: [u8; 32])
    ensures
        d@ == sha256(bytes@),
{
    Sha256::digest(bytes).into()
}

fn hex_text_of(bytes: &[u8; 32]) -> (s: String)
    ensures
        s@ == hex_of(bytes@),
{
    let mut s: String = String::new();
    assert(bytes@.take(0) =~= Seq::<u8>::empty());
    assert(s@ =~= hex_of(bytes@.take(0)));
    for i in 0..32usize
        invariant
            s@ == hex_of(bytes@.take(i as int)),
    {
        let ghost before = s@;
        number::push_hex_fixed(&mut s, bytes[i] as u64, 2, false);
        assert(bytes@.take(i + 1).drop_last() =~= bytes@.take(i as int));
        assert(s@ =~= before + number::hex_fixed(bytes@[i as int] as nat, 2, false));
    }
    assert(bytes@.take(32) =~= bytes@);
    s
}

/// What is wrong with inputs once the digest of the executable is known, if anything is.
pub open spec fn staged_fault(i: Inputs, digest: Seq<u8>) -> Option<Seq<char>> {
    if hex_of(digest) != i.cli_sha256@ {
        Some("CLI executable differs from the staged source manifest"@)
    } else if !sound_bots(i.bot_guids@) {
        Some("expected ten, twenty-five or one hundred distinct nonzero bot GUIDs"@)
    } else if !(60 <= i.seconds <= 3600) {
        Some("measurement duration must be sixty through 3600 seconds"@)
    } else if !sound_evidence(i.ownership_evidence) {
        Some("ownership evidence query identity differs from this observer"@)
    } else {
        None
    }
}

fn guid_set(guids: &Vec<u64>) -> (r: (BTreeSet<u64>, bool))
    ensures
        r.0@ == guids@.to_set(),
        r.1 == guids@.no_duplicates(),
{
    let mut set: BTreeSet<u64> = BTreeSet::new();
    let mut distinct = true;
    assert(guids@.take(0).to_set() =~= Set::empty());
    for i in 0..guids.len()
        invariant
            set@ == guids@.take(i as int).to_set(),
            distinct == guids@.take(i as int).no_duplicates(),
    {
        let ghost before = guids@.take(i as int);
        let ghost after = guids@.take(i + 1);
        let guid: u64 = guids[i];
        let new = set.insert(guid);
        proof {
            assert(after.drop_last() =~= before);
            assert forall|g: u64| after.to_set().contains(g) <==> before.to_set().insert(
                guid,
            ).contains(g) by {
                if before.contains(g) {
                    let k = choose|k: int| 0 <= k < before.len() && before[k] == g;
                    assert(after[k] == g);
                }
                assert(after[i as int] == guid);
                if after.contains(g) {
                    let k = choose|k: int| 0 <= k < after.len() && after[k] == g;
                    if k < i {
                        assert(before[k] == g);
                    }
                }
            }
            assert(after.to_set() =~= before.to_set().insert(guid));
            if before.no_duplicates() && !before.contains(guid) {
                assert(after.no_duplicates());
            }
            if after.no_duplicates() {
                assert(before.no_duplicates());
                assert(!before.contains(guid)) by {
                    if before.contains(guid) {
                        let k = choose|k: int| 0 <= k < before.len() && before[k] == guid;
                        assert(after[k] == after[i as int]);
                    }
                }
            }
        }
        if !new {
            distinct = false;
        }
    }
    assert(guids@.take(guids@.len() as int) =~= guids@);
    (set, distinct)
}

fn same_texts(a: &Vec<String>, b: &Vec<String>) -> (yes: bool)
    ensures
        yes == (text::texts(a@) == text::texts(b@)),
{
    if a.len() != b.len() {
        assert(text::texts(a@).len() != text::texts(b@).len());
        return false;
    }
    for i in 0..a.len()
        invariant
            a@.len() == b@.len(),
            forall|j: int| 0 <= j < i ==> text::texts(a@)[j] == #[trigger] text::texts(b@)[j],
    {
        assert(text::texts(a@)[i as int] == a@[i as int]@);
        assert(text::texts(b@)[i as int] == b@[i as int]@);
        if !text::same_text(a[i].as_str(), b[i].as_str()) {
            return false;
        }
    }
    assert(text::texts(a@) =~= text::texts(b@));
    true
}

fn same_entries(a: &Vec<u32>, b: &Vec<u32>) -> (yes: bool)
    ensures
        yes == (a@ == b@),
{
    if a.len() != b.len() {
        return false;
    }
    for i in 0..a.len()
        invariant
            a@.len() == b@.len(),
            forall|j: int| 0 <= j < i ==> a@[j] == b@[j],
    {
        if a[i] != b[i] {
            return false;
        }
    }
    assert(a@ =~= b@);
    true
}

/// The refusal of a check, if it is one.
pub open spec fn refused<T>(r: Result<T, String>) -> Option<Seq<char>> {
    match r {
        Ok(_) => None,
        Err(e) => Some(e@),
    }
}

impl Inputs {
    /// What stands behind the scheme of the endpoint.
    pub fn endpoint(&self) -> (rest: Option<String>)
        ensures
            text::text_of(rest) == text::after_prefix(self.server@, "http://"@),
    {
        text::past(self.server.as_str(), "http://")
    }

    /// Checks what was declared, before the executable is looked at.
    pub fn check_declared(&self, listener: Option<Listener>, paths: bool) -> (r: Result<
        (),
        String,
    >)
        ensures
            refused(r) == declared_fault(*self, listener, paths),
    {
        if !text::starts_with(self.server.as_str(), "http://") {
            return Err("acceptance requires an explicit HTTP loopback endpoint".to_owned());
        }
        match listener {
            None => return Err("invalid socket address syntax".to_owned()),
            Some(l) => {
                if !l.loopback || l.port == 0 {
                    return Err(
                        "acceptance endpoint must be a private loopback listener".to_owned(),
                    );
                }
            },
        }
        if !check_hex(self.database_identity.as_str(), 64) {
            return Err("invalid database identity".to_owned());
        }
        if !check_hex(self.core_revision.as_str(), 40) {
            return Err("invalid Core revision".to_owned());
        }
        if !check_hex(self.package_revision.as_str(), 40) {
            return Err("invalid Package revision".to_owned());
        }
        if !check_hex(self.content_identity.as_str(), 64) {
            return Err("invalid content identity".to_owned());
        }
        if !check_hex(self.wasm_sha256.as_str(), 64) {
            return Err("invalid Wasm SHA-256".to_owned());
        }
        if !check_hex(self.cli_sha256.as_str(), 64) {
            return Err("invalid CLI SHA-256".to_owned());
        }
        let geometry: String = text::trim(self.geometry_revision.as_str());
        let recorded = match &self.fixture_resources {
            Json::Object(_) => true,
            _ => false,
        };
        if geometry.as_str().is_empty() || !recorded {
            return Err("geometry and fixture resources must be recorded".to_owned());
        }
        if !paths {
            return Err("CLI and existing private configuration need absolute paths".to_owned());
        }
        Ok(())
    }

    /// Checks what was staged, against the digest of the executable.
    pub fn check_staged(&self, digest: &[u8; 32]) -> (r: Result<BTreeSet<u64>, String>)
        ensures
            refused(r) == staged_fault(*self, digest@),
            r matches Ok(guids) ==> guids@ == self.bot_guids@.to_set(),
    {
        let actual: String = hex_text_of(digest);
        if !text::same_text(actual.as_str(), self.cli_sha256.as_str()) {
            return Err("CLI executable differs from the staged source manifest".to_owned());
        }
        let (guids, distinct) = guid_set(&self.bot_guids);
        let n: usize = self.bot_guids.len();
        if !(n == 10 || n == 25 || n == 100) || !distinct || guids.contains(&0) {
            return Err(
                "expected ten, twenty-five or one hundred distinct nonzero bot GUIDs".to_owned(),
            );
        }
        if self.seconds < 60 || self.seconds > 3600 {
            return Err("measurement duration must be sixty through 3600 seconds".to_owned());
        }
        let e = &self.ownership_evidence;
        let entries: Vec<u32> = creature_entries();
        if e.schema != OWNERSHIP_EVIDENCE_SCHEMA || !same_entries(&e.creature_entries, &entries) {
            return Err("ownership evidence query identity differs from this observer".to_owned());
        }
        let queries: Vec<String> = ownership_queries(&entries);
        if !same_texts(&e.queries, &queries) {
            return Err("ownership evidence query identity differs from this observer".to_owned());
        }
        Ok(guids)
    }

    /// Checks what was staged: the executable, the bots, the duration and the evidence. The bots
    /// are handed back.
    pub fn check(&self, executable: &Vec<u8>) -> (r: Result<BTreeSet<u64>, String>)
        ensures
            refused(r) == staged_fault(*self, sha256(executable@)),
            r matches Ok(guids) ==> guids@ == self.bot_guids@.to_set(),
    {
        let digest: [u8; 32] = digest_of(executable);
        self.check_staged(&digest)
    }
}

// ------------------------------------------------------------------------------------------
//  Files
// ------------------------------------------------------------------------------------------

/// The end of the last complete line, where there is one.
pub open spec fn complete_end(bytes: Seq<u8>) -> Option<int>
    decreases bytes.len(),
{
    if bytes.len() == 0 {
        None
    } else if bytes.last() == 10 {
        Some(bytes.len() as int)
    } else {
        complete_end(bytes.drop_last())
    }
}

/// The end of the last complete line, where there is one.
pub fn complete_lines(bytes: &Vec<u8>) -> (end: Option<usize>)
    ensures
        match end {
            Some(n) => complete_end(bytes@) == Some(n as int) && n <= bytes@.len(),
            None => complete_end(bytes@) is None,
        },
{
    let mut i: usize = bytes.len();
    assert(bytes@.take(i as int) =~= bytes@);
    while i > 0
        invariant
            i <= bytes@.len(),
            complete_end(bytes@.take(i as int)) == complete_end(bytes@),
        decreases i,
    {
        assert(bytes@.take(i as int).drop_last() =~= bytes@.take(i - 1));
        assert(bytes@.take(i as int).last() == bytes@[i - 1]);
        if bytes[i - 1] == 10 {
            return Some(i);
        }
        i = i - 1;
    }
    None
}

/// The log lines that hold anything.
pub open spec fn filled_lines(lines: Seq<Seq<char>>) -> Seq<Seq<char>> {
    lines.filter(|l: Seq<char>| text::trimmed(l).len() > 0)
}

/// The log lines that hold anything.
pub fn log_lines(raw: &str) -> (v: Vec<String>)
    ensures
        text::texts(v@) == filled_lines(text::lines(raw@)),
{
    let lines: Vec<String> = text::lines_of(raw);
    let ghost ls = text::lines(raw@);
    let ghost keep = |l: Seq<char>| text::trimmed(l).len() > 0;
    let mut v: Vec<String> = Vec::new();
    proof {
        reveal(Seq::filter);
        assert(ls.take(0) =~= Seq::<Seq<char>>::empty());
        assert(text::texts(v@) =~= Seq::empty());
    }
    for i in 0..lines.len()
        invariant
            text::texts(lines@) == ls,
            keep == (|l: Seq<char>| text::trimmed(l).len() > 0),
            text::texts(v@) == ls.take(i as int).filter(keep),
    {
        let ghost before = text::texts(v@);
        proof {
            reveal(Seq::filter);
            assert(ls[i as int] == lines@[i as int]@);
            assert(ls.take(i + 1).drop_last() =~= ls.take(i as int));
            assert(ls.take(i + 1).last() == ls[i as int]);
        }
        let line: String = text::trim(lines[i].as_str());
        if !line.as_str().is_empty() {
            v.push(lines[i].clone());
            assert(text::texts(v@) =~= before.push(ls[i as int]));
        }
    }
    assert(ls.take(ls.len() as int) =~= ls);
    v
}

/// A transaction line that was read in full and within its limit.
pub open spec fn is_line(bytes: Seq<u8>) -> bool {
    0 < bytes.len() <= MAX_LINE_BYTES && bytes.last() == 10
}

/// Whether a transaction line was read in full and within its limit.
pub fn line_accepted(bytes: &Vec<u8>) -> (yes: bool)
    ensures
        yes == is_line(bytes@),
{
    let n: usize = bytes.len();
    n > 0 && n as u64 <= MAX_LINE_BYTES && bytes[n - 1] == 10
}

/// How much of something may be kept, and how much is.
#[derive(Clone, Copy, Debug, PartialEq, Eq, Structural)]
pub struct Quota {
    pub used: u64,
    pub limit: u64,
}

impl Quota {
    /// Nothing is kept yet.
    pub fn new(limit: u64) -> (q: Quota)
        ensures
            q == (Quota { used: 0, limit }),
    {
        Quota { used: 0, limit }
    }

    /// Never more is kept than may be.
    pub open spec fn valid(self) -> bool {
        self.used <= self.limit
    }

    /// Whether so much more fits.
    pub open spec fn has_room(self, n: u64) -> bool {
        self.used + n <= self.limit || (self.used > self.limit && n == 0)
    }

    /// After so much more was asked for: all of it is kept, or nothing.
    pub open spec fn asked(self, n: u64) -> (Quota, bool) {
        if self.used + n <= self.limit {
            (Quota { used: (self.used + n) as u64, ..self }, true)
        } else {
            (self, false)
        }
    }

    /// Whether so much more fits.
    pub fn admits(&self, n: u64) -> (yes: bool)
        ensures
            yes == self.has_room(n),
    {
        n <= self.limit.saturating_sub(self.used)
    }

    /// Keeps so much more, where it fits; otherwise nothing of it.
    pub fn take(&mut self, n: u64) -> (taken: bool)
        requires
            old(self).valid(),
        ensures
            final(self).valid(),
            (*final(self), taken) == old(self).asked(n),
    {
        if n <= self.limit - self.used {
            self.used = self.used + n;
            true
        } else {
            false
        }
    }
}

/// Errors with semicolons between them.
pub open spec fn joined(errors: Seq<Seq<char>>) -> Seq<char>
    decreases errors.len(),
{
    if errors.len() == 0 {
        Seq::empty()
    } else if errors.len() == 1 {
        errors[0]
    } else {
        joined(errors.drop_last()) + "; "@ + errors.last()
    }
}

/// What remains of a capture and its archives: every failure, or none.
pub fn retention(errors: &Vec<String>) -> (r: Option<String>)
    ensures
        match r {
            None => errors@.len() == 0,
            Some(said) => errors@.len() > 0 && said@ == joined(text::texts(errors@)),
        },
{
    if errors.len() == 0 {
        return None;
    }
    let ghost es = text::texts(errors@);
    let mut said: String = errors[0].clone();
    assert(said@ =~= joined(es.take(1)));
    for i in 1..errors.len()
        invariant
            errors@.len() >= 1,
            es == text::texts(errors@),
            said@ == joined(es.take(i as int)),
    {
        said.append("; ");
        said.append(errors[i].as_str());
        assert(es.take(i + 1).drop_last() =~= es.take(i as int));
        assert(es.take(i + 1).last() == errors@[i as int]@);
        assert(said@ =~= joined(es.take(i + 1)));
    }
    assert(es.take(es.len() as int) =~= es);
    Some(said)
}

// ------------------------------------------------------------------------------------------
//  The run of a capture
// ------------------------------------------------------------------------------------------

/// The measured window, its end excluded.
#[derive(Clone, Copy, Debug, PartialEq, Eq, Structural)]
pub struct Window {
    pub start_micros: u64,
    pub end_micros: u64,
    pub duration_micros: u64,
}

/// The window of so many seconds from a start.
pub open spec fn window_of(start_micros: u64, seconds: u64) -> Result<Window, Seq<char>> {
    if seconds * 1_000_000 > u64::MAX {
        Err("measurement duration overflow"@)
    } else if start_micros + seconds * 1_000_000 > u64::MAX {
        Err("measurement window overflow"@)
    } else {
        Ok(
            Window {
                start_micros,
                end_micros: (start_micros + seconds * 1_000_000) as u64,
                duration_micros: (seconds * 1_000_000) as u64,
            },
        )
    }
}

/// The window of so many seconds from a start.
pub fn measurement_window(start_micros: u64, seconds: u64) -> (r: Result<Window, String>)
    ensures
        crate::sats::agrees(r, window_of(start_micros, seconds)),
{
    let duration_micros: u64 = match seconds.checked_mul(1_000_000) {
        None => return Err("measurement duration overflow".to_owned()),
        Some(d) => d,
    };
    match start_micros.checked_add(duration_micros) {
        None => Err("measurement window overflow".to_owned()),
        Some(end_micros) => Ok(Window { start_micros, end_micros, duration_micros }),
    }
}

/// Where a transaction falls.
#[derive(Clone, Copy, Debug, PartialEq, Eq, Structural)]
pub struct Placed {
    pub measured: bool,
    pub after_window: bool,
}

/// The run of a capture: the bots that were served, the window once it has begun, how much was
/// read, how many passes and which decisions were measured.
pub struct RunView {
    pub expected: Set<u64>,
    pub warmed: Set<u64>,
    pub window: Option<Window>,
    pub stream: Quota,
    pub measured_passes: int,
    pub decisions: Set<Decision>,
}

/// Why a run has to end before anything more is read, if it has to.
pub open spec fn overdue(window: Option<Window>, now: u64) -> Option<Seq<char>> {
    match window {
        Some(w) => if now >= w.end_micros + GRACE_MICROS {
            Some("subscription did not observe the end of the measurement window"@)
        } else {
            None
        },
        None => if now > WARMUP_SECONDS * 1_000_000 {
            Some("not every staged bot completed a scheduled warm-up pass"@)
        } else {
            None
        },
    }
}

/// Where a transaction that was received at that time falls.
pub open spec fn placed(window: Option<Window>, received: u64) -> Placed {
    match window {
        Some(w) => Placed {
            measured: w.start_micros <= received < w.end_micros,
            after_window: received >= w.end_micros,
        },
        None => Placed { measured: false, after_window: false },
    }
}

/// The decisions of some runners, added to those before, up to the first that cannot be read or
/// was there already.
pub open spec fn decided(before: Set<Decision>, runners: Seq<JsonView>) -> (
    Set<Decision>,
    Option<Seq<char>>,
)
    decreases runners.len(),
{
    if runners.len() == 0 {
        (before, None)
    } else {
        let (s, refused) = decided(before, runners.drop_last());
        if refused is Some {
            (s, refused)
        } else {
            match timing::decision_of(runners.last()) {
                Err(e) => (s, Some(e)),
                Ok(d) => (
                    s.insert(d),
                    if s.contains(d) {
                        Some("a decision appears in more than one measured pass"@)
                    } else {
                        None
                    },
                ),
            }
        }
    }
}

impl RunView {
    /// A run over those bots, before anything was read.
    pub open spec fn fresh(expected: Set<u64>) -> RunView {
        RunView {
            expected,
            warmed: Set::empty(),
            window: None,
            stream: Quota { used: 0, limit: MAX_STREAM_BYTES },
            measured_passes: 0,
            decisions: Set::empty(),
        }
    }

    /// After a transaction line of that length, and where it falls, or that it is one too many.
    pub open spec fn read(self, received: u64, length: u64) -> (
        RunView,
        Result<Placed, Seq<char>>,
    ) {
        let (stream, taken) = self.stream.asked(length);
        (
            RunView { stream, ..self },
            if taken {
                Ok(placed(self.window, received))
            } else {
                Err("subscription evidence exceeds the stream limit"@)
            },
        )
    }

    /// With the measured window.
    pub open spec fn begun(self, window: Window) -> RunView {
        RunView { window: Some(window), ..self }
    }

    /// After a pass.
    pub open spec fn passed(self, pass: stream::PassView, measured: bool) -> (
        RunView,
        Option<Seq<char>>,
    ) {
        let (decisions, refused) = if measured {
            decided(self.decisions, pass.runners)
        } else {
            (self.decisions, None)
        };
        let run = RunView {
            decisions,
            measured_passes: if measured {
                self.measured_passes + 1
            } else {
                self.measured_passes
            },
            ..self
        };
        if refused is Some {
            (run, refused)
        } else {
            (RunView { warmed: self.warmed.union(pass.processed_guids.to_set()), ..run }, None)
        }
    }

    /// Whether the window is to begin: every bot was served, and it has not begun.
    pub open spec fn may_begin(self) -> bool {
        self.window is None && self.warmed == self.expected
    }
}

/// The run of a capture.
pub struct Run {
    expected: BTreeSet<u64>,
    warmed: BTreeSet<u64>,
    window: Option<Window>,
    stream: Quota,
    measured_passes: u64,
    decisions: Decisions,
}

impl View for Run {
    type V = RunView;

    closed spec fn view(&self) -> RunView {
        RunView {
            expected: self.expected@,
            warmed: self.warmed@,
            window: self.window,
            stream: self.stream,
            measured_passes: self.measured_passes as int,
            decisions: self.decisions@,
        }
    }
}

proof fn lemma_decided_stops(before: Set<Decision>, runners: Seq<JsonView>, n: int)
    requires
        0 <= n <= runners.len(),
    ensures
        decided(before, runners.take(n)).1 is Some ==> decided(before, runners) == decided(
            before,
            runners.take(n),
        ),
    decreases runners.len() - n,
{
    if n == runners.len() {
        assert(runners.take(n) =~= runners);
    } else {
        lemma_decided_stops(before, runners, n + 1);
        assert(runners.take(n + 1).drop_last() =~= runners.take(n));
    }
}

fn within(a: &BTreeSet<u64>, b: &BTreeSet<u64>) -> (yes: bool)
    ensures
        yes == a@.subset_of(b@),
{
    let walk = a.iter();
    let ghost all = vstd::std_specs::iter::IteratorSpec::remaining(&walk);
    let mut yes = true;
    for guid in it: walk
        invariant
            it.seq() == all,
            yes == forall|k: int| 0 <= k < it.index() ==> b@.contains(*(#[trigger] all[k])),
    {
        if !b.contains(guid) {
            yes = false;
        }
    }
    proof {
        assert forall|g: u64| a@.contains(g) <==> exists|k: int|
            0 <= k < all.len() && *(#[trigger] all[k]) == g by {
            if a@.contains(g) {
                assert(all.unref().to_set().contains(g));
                let k = choose|k: int| 0 <= k < all.unref().len() && all.unref()[k] == g;
                assert(*all[k] == g);
            }
            if exists|k: int| 0 <= k < all.len() && *(#[trigger] all[k]) == g {
                let k = choose|k: int| 0 <= k < all.len() && *(#[trigger] all[k]) == g;
                assert(all.unref()[k] == g);
                assert(all.unref().to_set().contains(g));
            }
        }
        if a@.subset_of(b@) {
            assert forall|k: int| 0 <= k < all.len() implies b@.contains(*(#[trigger] all[k])) by {
                assert(a@.contains(*all[k]));
            }
        }
    }
    yes
}

impl Run {
    /// What every run keeps.
    pub closed spec fn valid(&self) -> bool {
        self.stream.valid() && self.decisions.valid()
    }

    /// A run over those bots, before anything was read.
    pub fn new(expected: BTreeSet<u64>) -> (run: Run)
        ensures
            run.valid(),
            run@ == RunView::fresh(expected@),
    {
        Run {
            expected,
            warmed: BTreeSet::new(),
            window: None,
            stream: Quota::new(MAX_STREAM_BYTES),
            measured_passes: 0,
            decisions: Decisions::new(),
        }
    }

    /// Whether the run has to end before anything more is read.
    pub fn check_time(&self, now: u64) -> (r: Result<(), String>)
        ensures
            refused(r) == overdue(self@.window, now),
    {
        match self.window {
            Some(w) => {
                if now >= w.end_micros && now - w.end_micros >= GRACE_MICROS {
                    return Err(
                        "subscription did not observe the end of the measurement window".to_owned(),
                    );
                }
            },
            None => {
                if now > WARMUP_SECONDS * 1_000_000 {
                    return Err(
                        "not every staged bot completed a scheduled warm-up pass".to_owned(),
                    );
                }
            },
        }
        Ok(())
    }

    /// Takes in a transaction line of that length: where it falls, or that it is one too many.
    pub fn receive(&mut self, received: u64, length: u64) -> (r: Result<Placed, String>)
        requires
            old(self).valid(),
        ensures
            final(self).valid(),
            final(self)@ == old(self)@.read(received, length).0,
            crate::sats::agrees(r, old(self)@.read(received, length).1),
    {
        if !self.stream.take(length) {
            return Err("subscription evidence exceeds the stream limit".to_owned());
        }
        Ok(
            match self.window {
                Some(w) => Placed {
                    measured: w.start_micros <= received && received < w.end_micros,
                    after_window: received >= w.end_micros,
                },
                None => Placed { measured: false, after_window: false },
            },
        )
    }

    /// Takes in a pass.
    pub fn pass(&mut self, pass: &Pass, measured: bool) -> (r: Result<(), String>)
        requires
            old(self).valid(),
            old(self)@.measured_passes < u64::MAX,
        ensures
            final(self).valid(),
            (final(self)@, refused(r)) == old(self)@.passed(pass@, measured),
    {
        let ghost start = self@;
        if measured {
            self.measured_passes = self.measured_passes + 1;
            let ghost rs = pass@.runners;
            assert(rs.take(0) =~= Seq::<JsonView>::empty());
            for i in 0..pass.runners.len()
                invariant
                    rs == pass@.runners,
                    rs.len() == pass.runners@.len(),
                    self.valid(),
                    start == old(self)@,
                    measured,
                    self@ == (RunView {
                        decisions: self@.decisions,
                        measured_passes: start.measured_passes + 1,
                        ..start
                    }),
                    decided(start.decisions, rs.take(i as int)) == (
                        self@.decisions,
                        None::<Seq<char>>,
                    ),
            {
                proof {
                    assert(rs.take(i + 1).drop_last() =~= rs.take(i as int));
                    assert(rs.take(i + 1).last() == pass.runners@[i as int]@);
                    lemma_decided_stops(start.decisions, rs, i + 1);
                }
                match timing::decision(&pass.runners[i]) {
                    Err(e) => return Err(e),
                    Ok(d) => {
                        if !self.decisions.insert(d) {
                            return Err(
                                "a decision appears in more than one measured pass".to_owned(),
                            );
                        }
                    },
                }
            }
            assert(rs.take(rs.len() as int) =~= rs);
        }
        let ghost middle = self@;
        let ghost gs = pass.processed_guids@;
        assert(gs.take(0).to_set() =~= Set::empty());
        assert(middle.warmed.union(gs.take(0).to_set()) =~= middle.warmed);
        for i in 0..pass.processed_guids.len()
            invariant
                self.valid(),
                gs == pass.processed_guids@,
                self@ == (RunView { warmed: self@.warmed, ..middle }),
                self@.warmed == middle.warmed.union(gs.take(i as int).to_set()),
        {
            let ghost before = gs.take(i as int);
            let ghost after = gs.take(i + 1);
            let guid: u64 = pass.processed_guids[i];
            let _ = self.warmed.insert(guid);
            proof {
                assert forall|g: u64| after.to_set().contains(g) <==> before.to_set().insert(
                    guid,
                ).contains(g) by {
                    if before.contains(g) {
                        let k = choose|k: int| 0 <= k < before.len() && before[k] == g;
                        assert(after[k] == g);
                    }
                    assert(after[i as int] == guid);
                    if after.contains(g) {
                        let k = choose|k: int| 0 <= k < after.len() && after[k] == g;
                        if k < i {
                            assert(before[k] == g);
                        }
                    }
                }
                assert(self@.warmed =~= middle.warmed.union(after.to_set()));
            }
        }
        assert(gs.take(gs.len() as int) =~= gs);
        Ok(())
    }

    /// Whether the window is to begin: every bot was served, and it has not begun.
    pub fn may_begin(&self) -> (yes: bool)
        ensures
            yes == self@.may_begin(),
    {
        if self.window.is_some() {
            return false;
        }
        let yes = within(&self.warmed, &self.expected) && within(&self.expected, &self.warmed);
        assert(yes ==> self.warmed@ =~= self.expected@);
        yes
    }

    /// Begins the measured window.
    pub fn begin(&mut self, window: Window)
        requires
            old(self).valid(),
        ensures
            final(self).valid(),
            final(self)@ == old(self)@.begun(window),
    {
        self.window = Some(window);
    }

    /// How many passes were measured.
    pub fn measured_passes(&self) -> (n: u64)
        ensures
            n == self@.measured_passes,
    {
        self.measured_passes
    }

    /// How many bytes the stream has taken.
    pub fn stream_bytes(&self) -> (n: u64)
        ensures
            n == self@.stream.used,
    {
        self.stream.used
    }

    /// The decisions that were measured.
    pub fn measured_decisions(&self) -> (d: &Decisions)
        requires
            self.valid(),
        ensures
            d.valid(),
            d@ == self@.decisions,
    {
        &self.decisions
    }
}

/// A transaction is never both measured and behind the window, and none is measured before the
/// window has begun.
pub proof fn the_window_is_half_open(window: Option<Window>, received: u64)
    ensures
        !(placed(window, received).measured && placed(window, received).after_window),
        window is None ==> !placed(window, received).measured,
        window matches Some(w) ==> placed(window, w.end_micros).after_window,
{
}

/// A run of so many seconds that begins at a time measures exactly what is received from then on and
/// before so many seconds are over. It ends five seconds later at the latest, and before it begins it
/// waits no longer than thirty seconds.
pub proof fn a_window_lasts_as_long_as_it_is_asked_to(run: RunView, start: u64, seconds: u64, t: u64)
    requires
        start + 1_000_000 * seconds <= u64::MAX,
    ensures
        window_of(start, seconds) is Ok,
        ({
            let w = window_of(start, seconds)->Ok_0;
            let after = run.begun(w);
            &&& w.start_micros == start && w.duration_micros == 1_000_000 * seconds
            &&& placed(after.window, t).measured <==> start <= t && t < start + 1_000_000 * seconds
            &&& placed(after.window, t).after_window <==> t >= start + 1_000_000 * seconds
            &&& overdue(after.window, t) is Some <==> t >= start + 1_000_000 * seconds + 5_000_000
            &&& !after.may_begin()
            &&& after.warmed == run.warmed && after.stream == run.stream && after.decisions
                == run.decisions && after.measured_passes == run.measured_passes && after.expected
                == run.expected
        }),
        overdue(None, t) is Some <==> t > 30_000_000,
{
}

/// A window that would outlast the clock is refused.
pub proof fn a_window_has_to_end(start: u64, seconds: u64)
    ensures
        window_of(start, seconds) is Err <==> start + 1_000_000 * seconds > u64::MAX,
{
}

/// A run reads as long as all of its lines together stay within eight gibibytes: a line that fits is
/// counted in full, and one that does not changes nothing.
pub proof fn a_run_reads_within_its_limit(
    expected: Set<u64>,
    run: RunView,
    received: u64,
    length: u64,
)
    requires
        run.stream.limit == RunView::fresh(expected).stream.limit,
    ensures
        RunView::fresh(expected).stream.used == 0,
        RunView::fresh(expected).expected == expected,
        run.read(received, length).1 is Ok <==> run.stream.used + length <= 8 * 1024 * 1024 * 1024,
        run.read(received, length).1 is Ok ==> run.read(received, length).0.stream.used
            == run.stream.used + length,
        run.read(received, length).1 is Err ==> run.read(received, length).0 == run,
        run.read(received, length).0.stream.limit == run.stream.limit,
        run.read(received, length).0.window == run.window,
        run.read(received, length).0.warmed == run.warmed,
        run.read(received, length).0.decisions == run.decisions,
        run.read(received, length).1 matches Ok(p) ==> p == placed(run.window, received),
{
}

/// A quota keeps what it takes and never takes more than it may: what is taken in two parts is what
/// would be taken at once.
pub proof fn a_quota_adds_up(q: Quota, a: u64, b: u64)
    requires
        q.used <= q.limit,
    ensures
        q.asked(a).1 == q.has_room(a),
        q.asked(a).1 <==> a <= q.limit - q.used,
        q.asked(a).1 ==> q.asked(a).0.used - q.used == a,
        !q.asked(a).1 ==> q.asked(a).0 == q,
        q.asked(a).0.used <= q.asked(a).0.limit && q.asked(a).0.limit == q.limit,
        q.asked(a).1 ==> (q.asked(a).0.asked(b).1 <==> q.used + a + b <= q.limit),
{
}

/// A line ends with its only accepted end, and holds at most eight mebibytes.
pub proof fn a_line_ends_with_a_newline(bytes: Seq<u8>)
    ensures
        is_line(bytes) <==> bytes.len() >= 1 && bytes[bytes.len() - 1] == 0x0a && bytes.len()
            <= 0x80_0000,
{
}

/// The complete lines end behind the last newline: nothing behind it is one.
pub proof fn complete_lines_end_at_the_last_newline(bytes: Seq<u8>)
    ensures
        match complete_end(bytes) {
            Some(n) => 0 < n <= bytes.len() && bytes[n - 1] == 0x0a && forall|i: int|
                n <= i < bytes.len() ==> bytes[i] != 0x0a,
            None => !bytes.contains(0x0a),
        },
    decreases bytes.len(),
{
    if bytes.len() > 0 {
        let rest = bytes.drop_last();
        complete_lines_end_at_the_last_newline(rest);
        assert forall|i: int| 0 <= i < rest.len() implies bytes[i] == rest[i] by {}
        if complete_end(rest) is None && bytes.contains(0x0a) {
            let i = choose|i: int| 0 <= i < bytes.len() && bytes[i] == 0x0a;
            assert(i < rest.len() ==> rest[i] == 0x0a);
        }
    }
}

/// Errors are said one after another: those of two lists are those of the first, a semicolon with a
/// space, and those of the second.
pub proof fn errors_follow_one_another(a: Seq<Seq<char>>, b: Seq<Seq<char>>)
    requires
        a.len() > 0,
        b.len() > 0,
    ensures
        joined(a + b) == joined(a) + seq![';', ' '] + joined(b),
        a.len() == 1 ==> joined(a) == a[0],
    decreases b.len(),
{
    reveal_strlit("; ");
    assert("; "@ =~= seq![';', ' ']);
    assert((a + b).drop_last() =~= a + b.drop_last());
    assert((a + b).last() == b.last());
    if b.len() == 1 {
        assert(a + b.drop_last() =~= a);
    } else {
        errors_follow_one_another(a, b.drop_last());
        assert(joined(a + b) =~= joined(a) + seq![';', ' '] + joined(b));
    }
}

/// A measured pass is taken in exactly where each of its runners gives a decision that no other gave
/// before; all of them are kept.
pub proof fn decisions_are_kept_once(before: Set<Decision>, runners: Seq<JsonView>)
    ensures
        decided(before, runners).1 is None <==> (forall|i: int|
            0 <= i < runners.len() ==> timing::decision_of(#[trigger] runners[i]) is Ok
                && !before.contains(timing::decision_of(runners[i])->Ok_0)) && (forall|i: int, j: int|
            0 <= i < j < runners.len() ==> timing::decision_of(#[trigger] runners[i])
                != timing::decision_of(#[trigger] runners[j])),
        decided(before, runners).1 is None ==> forall|d: Decision|
            #[trigger] decided(before, runners).0.contains(d) <==> before.contains(d) || exists|i: int|
                0 <= i < runners.len() && timing::decision_of(#[trigger] runners[i]) == Ok::<
                    Decision,
                    Seq<char>,
                >(d),
    decreases runners.len(),
{
    if runners.len() > 0 {
        let rest = runners.drop_last();
        let last = runners.last();
        decisions_are_kept_once(before, rest);
        let s = decided(before, rest).0;
        let n = rest.len() as int;
        assert(runners[n] == last);
        assert forall|i: int| 0 <= i < n implies rest[i] == runners[i] by {}
        let fresh = |rs: Seq<JsonView>|
            (forall|i: int|
                0 <= i < rs.len() ==> timing::decision_of(#[trigger] rs[i]) is Ok && !before.contains(
                    timing::decision_of(rs[i])->Ok_0,
                )) && (forall|i: int, j: int|
                0 <= i < j < rs.len() ==> timing::decision_of(#[trigger] rs[i])
                    != timing::decision_of(#[trigger] rs[j]));
        if fresh(runners) {
            assert(fresh(rest)) by {
                assert forall|i: int, j: int| 0 <= i < j < rest.len() implies timing::decision_of(
                    #[trigger] rest[i],
                ) != timing::decision_of(#[trigger] rest[j]) by {
                    assert(timing::decision_of(runners[i]) != timing::decision_of(runners[j]));
                }
            }
            let d = timing::decision_of(runners[n])->Ok_0;
            if s.contains(d) {
                let i = choose|i: int|
                    0 <= i < rest.len() && timing::decision_of(#[trigger] rest[i]) == Ok::<
                        Decision,
                        Seq<char>,
                    >(d);
                assert(timing::decision_of(runners[i]) != timing::decision_of(runners[n]));
            }
        }
        if decided(before, runners).1 is None {
            let d = timing::decision_of(last)->Ok_0;
            assert(!s.contains(d));
            assert forall|i: int, j: int| 0 <= i < j < runners.len() implies timing::decision_of(
                #[trigger] runners[i],
            ) != timing::decision_of(#[trigger] runners[j]) by {
                if j < n {
                    assert(timing::decision_of(rest[i]) != timing::decision_of(rest[j]));
                } else {
                    assert(timing::decision_of(rest[i]) is Ok);
                    assert(s.contains(timing::decision_of(rest[i])->Ok_0));
                }
            }
            assert forall|e: Decision|
                #[trigger] s.insert(d).contains(e) <==> before.contains(e) || exists|i: int|
                    0 <= i < runners.len() && timing::decision_of(#[trigger] runners[i]) == Ok::<
                        Decision,
                        Seq<char>,
                    >(e) by {
                if s.contains(e) && !before.contains(e) {
                    let i = choose|i: int|
                        0 <= i < rest.len() && timing::decision_of(#[trigger] rest[i]) == Ok::<
                            Decision,
                            Seq<char>,
                        >(e);
                    assert(timing::decision_of(runners[i]) == Ok::<Decision, Seq<char>>(e));
                }
                if e == d {
                    assert(timing::decision_of(runners[n]) == Ok::<Decision, Seq<char>>(e));
                }
                if exists|i: int|
                    0 <= i < runners.len() && timing::decision_of(#[trigger] runners[i]) == Ok::<
                        Decision,
                        Seq<char>,
                    >(e) {
                    let i = choose|i: int|
                        0 <= i < runners.len() && timing::decision_of(#[trigger] runners[i]) == Ok::<
                            Decision,
                            Seq<char>,
                        >(e);
                    if i < n {
                        assert(timing::decision_of(rest[i]) == Ok::<Decision, Seq<char>>(e));
                    }
                }
            }
        }
    }
}

/// A pass counts once where it is measured and keeps its decisions; one that is not measured adds
/// nothing to what is measured. Either way the bots that it served are warmed up, and the window may
/// begin once exactly the staged bots are.
pub proof fn a_pass_warms_what_it_serves(run: RunView, pass: stream::PassView, measured: bool, g: u64)
    requires
        run.passed(pass, measured).1 is None,
    ensures
        ({
            let after = run.passed(pass, measured).0;
            &&& after.warmed.contains(g) <==> run.warmed.contains(g) || pass.processed_guids.contains(g)
            &&& after.measured_passes - run.measured_passes == if measured {
                1int
            } else {
                0int
            }
            &&& after.decisions == if measured {
                decided(run.decisions, pass.runners).0
            } else {
                run.decisions
            }
            &&& after.window == run.window && after.stream == run.stream && after.expected
                == run.expected
            &&& after.may_begin() ==> after.window is None && (after.expected.contains(g)
                <==> after.warmed.contains(g))
        }),
        !measured ==> run.passed(pass, measured).1 is None,
{
}

/// What is declared is accepted exactly where it names a private loopback listener over HTTP, six
/// identities of forty or sixty-four hexadecimal digits, a geometry, fixture resources, and paths that
/// are there.
pub proof fn declared_inputs_are_complete(i: Inputs, listener: Option<Listener>, paths: bool)
    ensures
        declared_fault(i, listener, paths) is None <==> {
            &&& text::begins_with(i.server@, "http://"@)
            &&& listener matches Some(l) && l.loopback && l.port != 0
            &&& hex_text(i.database_identity@, 64)
            &&& hex_text(i.core_revision@, 40)
            &&& hex_text(i.package_revision@, 40)
            &&& hex_text(i.content_identity@, 64)
            &&& hex_text(i.wasm_sha256@, 64)
            &&& hex_text(i.cli_sha256@, 64)
            &&& text::trimmed(i.geometry_revision@).len() > 0
            &&& i.fixture_resources@ is Object
            &&& paths
        },
{
}

/// What is staged is accepted exactly where the executable has the declared digest, there are ten,
/// twenty-five or a hundred different bots, none of them zero, the measurement takes one minute to one
/// hour, and the evidence is the one that is observed here.
pub proof fn staged_inputs_are_sound(i: Inputs, digest: Seq<u8>)
    ensures
        staged_fault(i, digest) is None <==> {
            &&& hex_of(digest) == i.cli_sha256@
            &&& i.bot_guids@.len() == 10 || i.bot_guids@.len() == 25 || i.bot_guids@.len() == 100
            &&& forall|a: int, b: int|
                0 <= a < b < i.bot_guids@.len() ==> i.bot_guids@[a] != i.bot_guids@[b]
            &&& forall|a: int| 0 <= a < i.bot_guids@.len() ==> i.bot_guids@[a] > 0
            &&& 60 <= i.seconds && i.seconds <= 60 * 60
            &&& i.ownership_evidence.schema == 1
            &&& i.ownership_evidence.creature_entries@ == seq![
                6u32,
                38u32,
                69u32,
                257u32,
                299u32,
                721u32,
                883u32,
                890u32,
            ]
            &&& text::texts(i.ownership_evidence.queries@) == queries_for(
                i.ownership_evidence.creature_entries@,
            )
        },
{
    let g = i.bot_guids@;
    if sound_bots(g) {
        assert forall|a: int| 0 <= a < g.len() implies g[a] > 0 by {
            assert(g.contains(g[a]));
        }
    }
    assert(autonomous_entries() =~= seq![
        6u32,
        38u32,
        69u32,
        257u32,
        299u32,
        721u32,
        883u32,
        890u32,
    ]);
}

/// Every entry is asked for among the entities and among the spawns, and every ownership table as a
/// whole.
pub proof fn every_entry_is_asked_for(entries: Seq<u32>, i: int)
    requires
        0 <= i < entries.len(),
    ensures
        queries_for(entries).contains(
            "SELECT * FROM "@ + "game_world_entity"@ + " WHERE entry = "@ + number::decimal(
                entries[i] as nat,
            ),
        ),
        queries_for(entries).contains(
            "SELECT * FROM "@ + "game_creature_spawn"@ + " WHERE entry = "@ + number::decimal(
                entries[i] as nat,
            ),
        ),
        queries_for(entries).contains("SELECT * FROM "@ + "game_creature_quest_tap"@),
        queries_for(entries).contains("SELECT * FROM "@ + "game_creature_quest_tap_member"@),
        queries_for(entries).contains("SELECT * FROM "@ + "game_creature_loot_tag_group"@),
        queries_for(entries).contains("SELECT * FROM "@ + "game_group_member"@),
        queries_for(entries).contains("SELECT * FROM "@ + "game_corpse_loot_eligible"@),
{
    let q = queries_for(entries);
    assert(q[0] == "SELECT * FROM "@ + "game_creature_quest_tap"@);
    assert(q[1] == "SELECT * FROM "@ + "game_creature_quest_tap_member"@);
    assert(q[2] == "SELECT * FROM "@ + "game_creature_loot_tag_group"@);
    assert(q[3] == "SELECT * FROM "@ + "game_group_member"@);
    assert(q[4] == "SELECT * FROM "@ + "game_corpse_loot_eligible"@);
    assert(q[5 + i] == entry_query(stream::ENTITY@, entries[i]));
    assert(q[5 + entries.len() + i] == entry_query(stream::SPAWN@, entries[i]));
}

/// A digest is written with two small hexadecimal digits for each byte, which read back as the byte.
pub proof fn a_digest_reads_back(bytes: Seq<u8>, i: int)
    requires
        0 <= i < bytes.len(),
    ensures
        hex_of(bytes).len() == 2 * bytes.len(),
        hex_of(bytes).subrange(2 * i, 2 * i + 2) == number::hex_fixed(bytes[i] as nat, 2, false),
        number::hex_value(hex_of(bytes).subrange(2 * i, 2 * i + 2)) == bytes[i],
    decreases bytes.len(),
{
    let rest = bytes.drop_last();
    let last = number::hex_fixed(bytes.last() as nat, 2, false);
    number::hexadecimal_digits_read_back(bytes[i] as nat, 2, false);
    number::hexadecimal_digits_read_back(bytes.last() as nat, 2, false);
    assert(vstd::arithmetic::power::pow(16, 2) == 256) by {
        reveal_with_fuel(vstd::arithmetic::power::pow, 3);
    }
    let b = bytes[i];
    assert(b as nat % 256 == b as nat);
    assert(number::hex_value(number::hex_fixed(b as nat, 2, false)) == b);
    if rest.len() > 0 {
        a_digest_reads_back(rest, if i < rest.len() {
            i
        } else {
            0
        });
    } else {
        assert(hex_of(rest).len() == 0);
    }
    assert(hex_of(bytes) == hex_of(rest) + last);
    if i < rest.len() {
        assert(hex_of(bytes).subrange(2 * i, 2 * i + 2) =~= hex_of(rest).subrange(2 * i, 2 * i + 2));
    } else {
        assert(hex_of(bytes).subrange(2 * i, 2 * i + 2) =~= last);
    }
}

} // verus!
