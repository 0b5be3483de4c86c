//! The report of a benchmark in words. Measured rates come in as text, already rounded.

use vstd::prelude::*;
use crate::latency::Latency;
use crate::number;
use crate::text;

verus! {

/// The form of a report.
pub const SCHEMA_VERSION: u32 = 1;

/// What was under test.
pub struct Target {
    /// The logon address of the gateway.
    pub logon: String,
    /// The world address that was connected to.
    pub world: String,
    /// Where the node exposes its metrics.
    pub metrics_url: String,
    /// The beginning of the database's identity; empty for all databases together.
    pub db: String,
}

/// How the benchmark was run.
pub struct RunConfig {
    pub stages: Vec<usize>,
    pub warmup_secs: u64,
    pub hold_secs: u64,
    pub heartbeat_ms: u64,
    pub combat_pct: usize,
    pub spread_yards: String,
}

/// How often a reducer ran.
pub struct NamedRate {
    pub name: String,
    pub per_sec: String,
}

/// How many rows of a table were inserted and deleted.
pub struct TableRate {
    pub table: String,
    pub inserts_per_sec: String,
    pub reaps_per_sec: String,
}

/// What the node's writer did.
pub struct Writer {
    /// To one digit.
    pub occupancy_pct: String,
    /// To two digits, as the next three.
    pub reducer_cpu_sec: String,
    pub subscribe_cpu_sec: String,
    pub other_cpu_sec: String,
    pub total_cpu_sec: String,
    /// To no digit.
    pub txns_per_sec: String,
    /// To one digit, for the headline.
    pub mean_queue_wait_short: String,
    /// To two digits.
    pub mean_queue_wait_ms: String,
    /// In KiB, to no digit.
    pub egress_kib_per_sec: String,
    /// To no digit.
    pub rows_scanned_per_sec: String,
}

/// What the players did.
pub struct ClientCounters {
    pub heartbeats_sent: u64,
    pub heartbeats_per_sec: String,
    pub peer_moves_observed: u64,
    pub peer_moves_per_sec: String,
    pub swings_sent: u64,
    pub frames_received: u64,
    pub harness_backpressure_events: u64,
}

/// What the harness measured of itself.
pub struct HarnessHealth {
    pub wakeup_lag_ms: Latency,
    pub players_dropped: usize,
}

/// One rung.
pub struct Stage {
    pub players_target: usize,
    pub players_connected: usize,
    pub players_failed: usize,
    pub window_secs: String,
    pub movement_latency_ms: Latency,
    pub client: ClientCounters,
    pub harness: HarnessHealth,
    pub writer: Writer,
    pub tx_per_sec_by_reducer: Vec<NamedRate>,
    pub event_tables: Vec<TableRate>,
    pub counter_reset: bool,
}

/// A report.
pub struct Report {
    pub schema_version: u32,
    pub label: String,
    pub generated_at_unix: u64,
    pub git_rev: String,
    pub target: Target,
    pub config: RunConfig,
    pub stages: Vec<Stage>,
    pub parked: Vec<String>,
    pub login_errors: Vec<String>,
}

// ------------------------------------------------------------------------------------------
//  Pieces
// ------------------------------------------------------------------------------------------

/// So many blanks.
pub open spec fn blanks(n: int) -> Seq<char> {
    Seq::new(
        if n < 0 {
            0
        } else {
            n as nat
        },
        |i: int| ' ',
    )
}

/// A text at the left of a column.
pub open spec fn at_left(s: Seq<char>, width: int) -> Seq<char> {
    s + blanks(width - s.len())
}

/// A text at the right of a column.
pub open spec fn at_right(s: Seq<char>, width: int) -> Seq<char> {
    blanks(width - s.len()) + s
}

fn push_blanks(out: &mut String, n: usize)
    ensures
        final(out)@ == old(out)@ + blanks(n as int),
{
    let ghost start = out@;
    assert(start + blanks(0) =~= start);
    for i in 0..n
        invariant
            out@ == start + blanks(i as int),
    {
        out.push(' ');
        assert(out@ =~= start + blanks(i + 1));
    }
}

fn gap(s: &str, width: usize) -> (n: usize)
    ensures
        n == if width >= s@.len() {
            width - s@.len()
        } else {
            0
        },
{
    let len: usize = text::chars_of(s).len();
    if len >= width {
        0
    } else {
        width - len
    }
}

fn push_left(out: &mut String, s: &str, width: usize)
    ensures
        final(out)@ == old(out)@ + at_left(s@, width as int),
{
    let ghost start = out@;
    out.append(s);
    let n: usize = gap(s, width);
    push_blanks(out, n);
    assert(blanks(n as int) =~= blanks(width - s@.len()));
    assert(out@ =~= start + at_left(s@, width as int));
}

fn push_right(out: &mut String, s: &str, width: usize)
    ensures
        final(out)@ == old(out)@ + at_right(s@, width as int),
{
    let ghost start = out@;
    let n: usize = gap(s, width);
    push_blanks(out, n);
    out.append(s);
    assert(blanks(n as int) =~= blanks(width - s@.len()));
    assert(out@ =~= start + at_right(s@, width as int));
}

/// Numbers with commas between them.
pub open spec fn numbers(v: Seq<usize>) -> Seq<char>
    decreases v.len(),
{
    if v.len() == 0 {
        Seq::empty()
    } else if v.len() == 1 {
        number::decimal(v[0] as nat)
    } else {
        numbers(v.drop_last()) + ", "@ + number::decimal(v.last() as nat)
    }
}

fn push_numbers(out: &mut String, v: &Vec<usize>)
    ensures
        final(out)@ == old(out)@ + numbers(v@),
{
    let ghost start = out@;
    if v.len() == 0 {
        assert(out@ =~= start + numbers(v@));
        return;
    }
    number::push_decimal(out, v[0] as u64);
    assert(out@ =~= start + numbers(v@.take(1)));
    for i in 1..v.len()
        invariant
            v@.len() >= 1,
            out@ == start + numbers(v@.take(i as int)),
    {
        out.append(", ");
        number::push_decimal(out, v[i] as u64);
        assert(v@.take(i + 1).drop_last() =~= v@.take(i as int));
        assert(out@ =~= start + numbers(v@.take(i + 1)));
    }
    assert(v@.take(v@.len() as int) =~= v@);
}

// ------------------------------------------------------------------------------------------
//  The head
// ------------------------------------------------------------------------------------------

/// What a run was against and how it was run.
#[verifier::opaque]
pub open spec fn head_words(r: Report) -> Seq<char> {
    origin_words(r) + ramp_words(r.config)
}

/// Where a report comes from.
#[verifier::opaque]
pub open spec fn origin_words(r: Report) -> Seq<char> {
    "# spacetime-core capacity benchmark \u{2014} "@ + r.label@ + "\n\n"@ + "rev            "@
        + r.git_rev@ + "\n"@ + "generated      "@ + number::decimal(r.generated_at_unix as nat)
        + " (unix)\n"@ + "logon / world  "@ + r.target.logon@ + " / "@ + r.target.world@ + "\n"@
        + "metrics / db   "@ + r.target.metrics_url@ + " / "@ + if r.target.db@.len() == 0 {
        "<all databases on the node>"@
    } else {
        r.target.db@
    } + "\n"@
}

/// How a benchmark was run.
#[verifier::opaque]
pub open spec fn ramp_words(c: RunConfig) -> Seq<char> {
    "ramp           ["@ + numbers(c.stages@) + "], "@ + number::decimal(c.warmup_secs as nat)
        + "s warm-up + "@ + number::decimal(c.hold_secs as nat)
        + "s measured window per rung, "@ + number::decimal(c.heartbeat_ms as nat)
        + "ms heartbeat, "@ + number::decimal(c.combat_pct as nat) + "% of players in combat, "@
        + c.spread_yards@ + "yd spread\n\n"@
}

fn push_origin(out: &mut String, r: &Report)
    ensures
        final(out)@ == old(out)@ + origin_words(*r),
{
    proof {
        reveal(origin_words);
    }
    let ghost start = out@;
    out.append("# spacetime-core capacity benchmark \u{2014} ");
    out.append(r.label.as_str());
    out.append("\n\n");
    out.append("rev            ");
    out.append(r.git_rev.as_str());
    out.append("\n");
    out.append("generated      ");
    number::push_decimal(out, r.generated_at_unix);
    out.append(" (unix)\n");
    out.append("logon / world  ");
    out.append(r.target.logon.as_str());
    out.append(" / ");
    out.append(r.target.world.as_str());
    out.append("\n");
    out.append("metrics / db   ");
    out.append(r.target.metrics_url.as_str());
    out.append(" / ");
    if r.target.db.as_str().is_empty() {
        out.append("<all databases on the node>");
    } else {
        out.append(r.target.db.as_str());
    }
    out.append("\n");
    assert(out@ =~= start + origin_words(*r));
}

fn push_ramp(out: &mut String, c: &RunConfig)
    ensures
        final(out)@ == old(out)@ + ramp_words(*c),
{
    proof {
        reveal(ramp_words);
    }
    let ghost start = out@;
    out.append("ramp           [");
    push_numbers(out, &c.stages);
    out.append("], ");
    number::push_decimal(out, c.warmup_secs);
    out.append("s warm-up + ");
    number::push_decimal(out, c.hold_secs);
    out.append("s measured window per rung, ");
    number::push_decimal(out, c.heartbeat_ms);
    out.append("ms heartbeat, ");
    number::push_decimal(out, c.combat_pct as u64);
    out.append("% of players in combat, ");
    out.append(c.spread_yards.as_str());
    out.append("yd spread\n\n");
    assert(out@ =~= start + ramp_words(*c));
}

// ------------------------------------------------------------------------------------------
//  The headline
// ------------------------------------------------------------------------------------------

/// The head of the headline's table.
#[verifier::opaque]
pub open spec fn headline_words() -> Seq<char> {
    "## Headline\n\n"@
        + "| players | connected | writer occupancy % | queue wait ms | tx/s | move p50 | p95 | p99 | max | samples |\n"@
        + "|--------:|----------:|-------------------:|--------------:|-----:|---------:|----:|----:|----:|--------:|\n"@
}

/// Stands where a figure of the node would, had its counters not been reset.
pub const VOID: &'static str = "VOID (counter reset)";

/// A figure of the node in the headline: none where its counters were reset.
pub open spec fn node_cell(s: Stage, figure: Seq<char>) -> Seq<char> {
    if s.counter_reset {
        VOID@
    } else {
        figure
    }
}

/// A rung in the headline.
#[verifier::opaque]
pub open spec fn row_words(s: Stage) -> Seq<char> {
    "| "@ + number::decimal(s.players_target as nat) + " | "@ + number::decimal(
        s.players_connected as nat,
    ) + " | "@ + node_cell(s, s.writer.occupancy_pct@) + " | "@ + node_cell(
        s,
        s.writer.mean_queue_wait_short@,
    ) + " | "@ + node_cell(s, s.writer.txns_per_sec@) + latency_cells(s.movement_latency_ms)
}

/// The latency of a rung in the headline.
#[verifier::opaque]
pub open spec fn latency_cells(l: Latency) -> Seq<char> {
    " | "@ + l.shown(l.p50_ms) + " | "@ + l.shown(l.p95_ms) + " | "@ + l.shown(l.p99_ms) + " | "@
        + l.shown(l.max_ms) + " | "@ + number::decimal(l.samples as nat) + " |\n"@
}

/// The rungs in the headline.
pub open spec fn rows_words(stages: Seq<Stage>) -> Seq<char>
    decreases stages.len(),
{
    if stages.len() == 0 {
        Seq::empty()
    } else {
        rows_words(stages.drop_last()) + row_words(stages.last())
    }
}

fn push_cells(out: &mut String, l: &Latency)
    ensures
        final(out)@ == old(out)@ + latency_cells(*l),
{
    proof {
        reveal(latency_cells);
    }
    let ghost start = out@;
    let p50: String = l.cell(l.p50_ms);
    let p95: String = l.cell(l.p95_ms);
    let p99: String = l.cell(l.p99_ms);
    let max: String = l.cell(l.max_ms);
    out.append(" | ");
    out.append(p50.as_str());
    out.append(" | ");
    out.append(p95.as_str());
    out.append(" | ");
    out.append(p99.as_str());
    out.append(" | ");
    out.append(max.as_str());
    out.append(" | ");
    number::push_decimal(out, l.samples as u64);
    out.append(" |\n");
    assert(out@ =~= start + latency_cells(*l));
}

fn push_node(out: &mut String, s: &Stage, figure: &str)
    ensures
        final(out)@ == old(out)@ + node_cell(*s, figure@),
{
    if s.counter_reset {
        out.append(VOID);
    } else {
        out.append(figure);
    }
}

fn push_row(out: &mut String, s: &Stage)
    ensures
        final(out)@ == old(out)@ + row_words(*s),
{
    proof {
        reveal(row_words);
    }
    let ghost start = out@;
    out.append("| ");
    number::push_decimal(out, s.players_target as u64);
    out.append(" | ");
    number::push_decimal(out, s.players_connected as u64);
    out.append(" | ");
    push_node(out, s, s.writer.occupancy_pct.as_str());
    out.append(" | ");
    push_node(out, s, s.writer.mean_queue_wait_short.as_str());
    out.append(" | ");
    push_node(out, s, s.writer.txns_per_sec.as_str());
    push_cells(out, &s.movement_latency_ms);
    assert(out@ =~= start + row_words(*s));
}

fn push_rows(out: &mut String, stages: &Vec<Stage>)
    ensures
        final(out)@ == old(out)@ + rows_words(stages@),
{
    let ghost start = out@;
    assert(start + rows_words(stages@.take(0)) =~= start);
    for i in 0..stages.len()
        invariant
            out@ == start + rows_words(stages@.take(i as int)),
    {
        push_row(out, &stages[i]);
        assert(stages@.take(i + 1).drop_last() =~= stages@.take(i as int));
        assert(out@ =~= start + rows_words(stages@.take(i + 1)));
    }
    assert(stages@.take(stages@.len() as int) =~= stages@);
}

// ------------------------------------------------------------------------------------------
//  A rung
// ------------------------------------------------------------------------------------------

/// Who was there.
#[verifier::opaque]
pub open spec fn players_words(s: Stage) -> Seq<char> {
    "## Stage: "@ + number::decimal(s.players_target as nat) + " players\n\n"@ + "connected "@
        + number::decimal(s.players_connected as nat) + "/"@ + number::decimal(
        s.players_target as nat,
    ) + " at window close ("@ + number::decimal(s.players_failed as nat) + " failed to log in, "@
        + number::decimal(s.harness.players_dropped as nat)
        + " dropped mid-run), measured window "@ + s.window_secs@ + "s\n"@
}

/// What the players did.
#[verifier::opaque]
pub open spec fn client_words(c: ClientCounters) -> Seq<char> {
    "client:  "@ + number::decimal(c.heartbeats_sent as nat) + " heartbeats sent ("@
        + c.heartbeats_per_sec@ + "/s), "@ + number::decimal(c.peer_moves_observed as nat)
        + " peer moves observed ("@ + c.peer_moves_per_sec@ + "/s), "@ + number::decimal(
        c.swings_sent as nat,
    ) + " swings, "@ + number::decimal(c.frames_received as nat) + " frames in, "@
        + number::decimal(c.harness_backpressure_events as nat)
        + " harness-backpressure events\n"@
}

/// What the harness measured of itself.
#[verifier::opaque]
pub open spec fn harness_words(w: Latency) -> Seq<char> {
    "harness: heartbeat wake-up lag p50/p95/p99 "@ + w.shown(w.p50_ms) + "/"@ + w.shown(w.p95_ms)
        + "/"@ + w.shown(w.p99_ms)
        + "ms \u{2014} the harness's OWN scheduling delay, which is included in the movement numbers above\n"@
}

/// What the writer did: nothing that a reader could quote where the counters were reset.
#[verifier::opaque]
pub open spec fn writer_words(s: Stage) -> Seq<char> {
    if s.counter_reset {
        "writer:  VOID \u{2014} the node's counters reset inside this window (restart / republish), so occupancy, tx/s, queue wait, egress and the per-reducer and per-table rates below are all differences across the reset. Re-run this rung.\n"@
    } else {
        busy_words(s) + egress_words(s.writer)
    }
}

/// How busy the writer was.
#[verifier::opaque]
pub open spec fn busy_words(s: Stage) -> Seq<char> {
    "writer:  occupancy "@ + s.writer.occupancy_pct@ + "% ("@ + s.writer.reducer_cpu_sec@
        + "s reducer + "@ + s.writer.subscribe_cpu_sec@ + "s subscribe + "@
        + s.writer.other_cpu_sec@ + "s other = "@ + s.writer.total_cpu_sec@ + "s CPU over "@
        + s.window_secs@ + "s wall), "@ + s.writer.txns_per_sec@ + " tx/s, mean queue wait "@
        + s.writer.mean_queue_wait_ms@ + "ms\n"@
}

/// What the writer sent and read.
#[verifier::opaque]
pub open spec fn egress_words(w: Writer) -> Seq<char> {
    "egress:  "@ + w.egress_kib_per_sec@ + " KiB/s to clients, "@ + w.rows_scanned_per_sec@
        + " rows scanned/s\n"@
}

/// How often a reducer ran.
pub open spec fn reducer_words(r: NamedRate) -> Seq<char> {
    "  "@ + at_left(r.name@, 34) + " "@ + at_right(r.per_sec@, 10) + "\n"@
}

/// How often each reducer ran.
pub open spec fn reducers_words(v: Seq<NamedRate>) -> Seq<char>
    decreases v.len(),
{
    if v.len() == 0 {
        Seq::empty()
    } else {
        reducers_words(v.drop_last()) + reducer_words(v.last())
    }
}

/// What happened to a table.
pub open spec fn table_words(t: TableRate) -> Seq<char> {
    "  "@ + at_left(t.table@, 34) + " "@ + at_right(t.inserts_per_sec@, 10) + " -> "@ + at_right(
        t.reaps_per_sec@,
        10,
    ) + "\n"@
}

/// What happened to each table.
pub open spec fn tables_words(v: Seq<TableRate>) -> Seq<char>
    decreases v.len(),
{
    if v.len() == 0 {
        Seq::empty()
    } else {
        tables_words(v.drop_last()) + table_words(v.last())
    }
}

/// How often each reducer ran and what happened to each table: no rate where the counters were
/// reset.
#[verifier::opaque]
pub open spec fn rates_words(s: Stage) -> Seq<char> {
    if s.counter_reset {
        "\ntx/s by reducer: "@ + VOID@ + "\n\nevent tables (inserts/s -> reaps/s): "@ + VOID@ + "\n"@
    } else {
        "\ntx/s by reducer (top "@ + number::decimal(s.tx_per_sec_by_reducer@.len()) + "):\n"@
            + reducers_words(s.tx_per_sec_by_reducer@)
            + "\nevent tables (inserts/s -> reaps/s):\n"@ + tables_words(s.event_tables@)
    }
}

/// A rung.
#[verifier::opaque]
pub open spec fn stage_words(s: Stage) -> Seq<char> {
    players_words(s) + client_words(s.client) + harness_words(s.harness.wakeup_lag_ms)
        + writer_words(s) + rates_words(s) + "\n"@
}

/// Every rung.
pub open spec fn stages_words(stages: Seq<Stage>) -> Seq<char>
    decreases stages.len(),
{
    if stages.len() == 0 {
        Seq::empty()
    } else {
        stages_words(stages.drop_last()) + stage_words(stages.last())
    }
}

fn push_players(out: &mut String, s: &Stage)
    ensures
        final(out)@ == old(out)@ + players_words(*s),
{
    proof {
        reveal(players_words);
    }
    let ghost start = out@;
    out.append("## Stage: ");
    number::push_decimal(out, s.players_target as u64);
    out.append(" players\n\n");
    out.append("connected ");
    number::push_decimal(out, s.players_connected as u64);
    out.append("/");
    number::push_decimal(out, s.players_target as u64);
    out.append(" at window close (");
    number::push_decimal(out, s.players_failed as u64);
    out.append(" failed to log in, ");
    number::push_decimal(out, s.harness.players_dropped as u64);
    out.append(" dropped mid-run), measured window ");
    out.append(s.window_secs.as_str());
    out.append("s\n");
    assert(out@ =~= start + players_words(*s));
}

fn push_client(out: &mut String, c: &ClientCounters)
    ensures
        final(out)@ == old(out)@ + client_words(*c),
{
    proof {
        reveal(client_words);
    }
    let ghost start = out@;
    out.append("client:  ");
    number::push_decimal(out, c.heartbeats_sent);
    out.append(" heartbeats sent (");
    out.append(c.heartbeats_per_sec.as_str());
    out.append("/s), ");
    number::push_decimal(out, c.peer_moves_observed);
    out.append(" peer moves observed (");
    out.append(c.peer_moves_per_sec.as_str());
    out.append("/s), ");
    number::push_decimal(out, c.swings_sent);
    out.append(" swings, ");
    number::push_decimal(out, c.frames_received);
    out.append(" frames in, ");
    number::push_decimal(out, c.harness_backpressure_events);
    out.append(" harness-backpressure events\n");
    assert(out@ =~= start + client_words(*c));
}

fn push_harness(out: &mut String, w: &Latency)
    ensures
        final(out)@ == old(out)@ + harness_words(*w),
{
    proof {
        reveal(harness_words);
    }
    let ghost start = out@;
    let p50: String = w.cell(w.p50_ms);
    let p95: String = w.cell(w.p95_ms);
    let p99: String = w.cell(w.p99_ms);
    out.append("harness: heartbeat wake-up lag p50/p95/p99 ");
    out.append(p50.as_str());
    out.append("/");
    out.append(p95.as_str());
    out.append("/");
    out.append(p99.as_str());
    out.append(
        "ms \u{2014} the harness's OWN scheduling delay, which is included in the movement numbers above\n",
    );
    assert(out@ =~= start + harness_words(*w));
}

fn push_writer(out: &mut String, s: &Stage)
    ensures
        final(out)@ == old(out)@ + writer_words(*s),
{
    proof {
        reveal(writer_words);
        reveal(busy_words);
        reveal(egress_words);
    }
    let ghost start = out@;
    if s.counter_reset {
        out.append(
            "writer:  VOID \u{2014} the node's counters reset inside this window (restart / republish), so occupancy, tx/s, queue wait, egress and the per-reducer and per-table rates below are all differences across the reset. Re-run this rung.\n",
        );
    } else {
        out.append("writer:  occupancy ");
        out.append(s.writer.occupancy_pct.as_str());
        out.append("% (");
        out.append(s.writer.reducer_cpu_sec.as_str());
        out.append("s reducer + ");
        out.append(s.writer.subscribe_cpu_sec.as_str());
        out.append("s subscribe + ");
        out.append(s.writer.other_cpu_sec.as_str());
        out.append("s other = ");
        out.append(s.writer.total_cpu_sec.as_str());
        out.append("s CPU over ");
        out.append(s.window_secs.as_str());
        out.append("s wall), ");
        out.append(s.writer.txns_per_sec.as_str());
        out.append(" tx/s, mean queue wait ");
        out.append(s.writer.mean_queue_wait_ms.as_str());
        out.append("ms\n");
        assert(out@ =~= start + busy_words(*s));
        out.append("egress:  ");
        out.append(s.writer.egress_kib_per_sec.as_str());
        out.append(" KiB/s to clients, ");
        out.append(s.writer.rows_scanned_per_sec.as_str());
        out.append(" rows scanned/s\n");
    }
    assert(out@ =~= start + writer_words(*s));
}

fn push_reducers(out: &mut String, v: &Vec<NamedRate>)
    ensures
        final(out)@ == old(out)@ + reducers_words(v@),
{
    let ghost start = out@;
    assert(start + reducers_words(v@.take(0)) =~= start);
    for i in 0..v.len()
        invariant
            out@ == start + reducers_words(v@.take(i as int)),
    {
        out.append("  ");
        push_left(out, v[i].name.as_str(), 34);
        out.append(" ");
        push_right(out, v[i].per_sec.as_str(), 10);
        out.append("\n");
        assert(v@.take(i + 1).drop_last() =~= v@.take(i as int));
        assert(out@ =~= start + reducers_words(v@.take(i + 1)));
    }
    assert(v@.take(v@.len() as int) =~= v@);
}

fn push_tables(out: &mut String, v: &Vec<TableRate>)
    ensures
        final(out)@ == old(out)@ + tables_words(v@),
{
    let ghost start = out@;
    assert(start + tables_words(v@.take(0)) =~= start);
    for i in 0..v.len()
        invariant
            out@ == start + tables_words(v@.take(i as int)),
    {
        out.append("  ");
        push_left(out, v[i].table.as_str(), 34);
        out.append(" ");
        push_right(out, v[i].inserts_per_sec.as_str(), 10);
        out.append(" -> ");
        push_right(out, v[i].reaps_per_sec.as_str(), 10);
        out.append("\n");
        assert(v@.take(i + 1).drop_last() =~= v@.take(i as int));
        assert(out@ =~= start + tables_words(v@.take(i + 1)));
    }
    assert(v@.take(v@.len() as int) =~= v@);
}

fn push_rates(out: &mut String, s: &Stage)
    ensures
        final(out)@ == old(out)@ + rates_words(*s),
{
    proof {
        reveal(rates_words);
    }
    let ghost start = out@;
    if s.counter_reset {
        out.append("\ntx/s by reducer: ");
        out.append(VOID);
        out.append("\n\nevent tables (inserts/s -> reaps/s): ");
        out.append(VOID);
        out.append("\n");
    } else {
        out.append("\ntx/s by reducer (top ");
        number::push_decimal(out, s.tx_per_sec_by_reducer.len() as u64);
        out.append("):\n");
        push_reducers(out, &s.tx_per_sec_by_reducer);
        out.append("\nevent tables (inserts/s -> reaps/s):\n");
        push_tables(out, &s.event_tables);
    }
    assert(out@ =~= start + rates_words(*s));
}

fn push_stage(out: &mut String, s: &Stage)
    ensures
        final(out)@ == old(out)@ + stage_words(*s),
{
    proof {
        reveal(stage_words);
    }
    let ghost start = out@;
    push_players(out, s);
    push_client(out, &s.client);
    push_harness(out, &s.harness.wakeup_lag_ms);
    push_writer(out, s);
    push_rates(out, s);
    out.append("\n");
    assert(out@ =~= start + stage_words(*s));
}

fn push_stages(out: &mut String, stages: &Vec<Stage>)
    ensures
        final(out)@ == old(out)@ + stages_words(stages@),
{
    let ghost start = out@;
    assert(start + stages_words(stages@.take(0)) =~= start);
    for i in 0..stages.len()
        invariant
            out@ == start + stages_words(stages@.take(i as int)),
    {
        push_stage(out, &stages[i]);
        assert(stages@.take(i + 1).drop_last() =~= stages@.take(i as int));
        assert(out@ =~= start + stages_words(stages@.take(i + 1)));
    }
    assert(stages@.take(stages@.len() as int) =~= stages@);
}

// ------------------------------------------------------------------------------------------
//  The end
// ------------------------------------------------------------------------------------------

/// Some lines of a list.
pub open spec fn items_words(v: Seq<Seq<char>>) -> Seq<char>
    decreases v.len(),
{
    if v.len() == 0 {
        Seq::empty()
    } else {
        items_words(v.drop_last()) + "  - "@ + v.last() + "\n"@
    }
}

/// What was not captured.
#[verifier::opaque]
pub open spec fn parked_words(v: Seq<Seq<char>>) -> Seq<char> {
    if v.len() == 0 {
        Seq::empty()
    } else {
        "## Parked / not captured\n\n"@ + items_words(v) + "\n"@
    }
}

/// What went wrong at logins: the first twenty, and how many more.
#[verifier::opaque]
pub open spec fn errors_words(v: Seq<Seq<char>>) -> Seq<char> {
    if v.len() == 0 {
        Seq::empty()
    } else {
        "## Login / session errors ("@ + number::decimal(v.len()) + ")\n\n"@ + if v.len() <= 20 {
            items_words(v)
        } else {
            items_words(v.take(20)) + "  \u{2026} "@ + number::decimal((v.len() - 20) as nat)
                + " more\n"@
        }
    }
}

fn push_items(out: &mut String, v: &Vec<String>, n: usize)
    requires
        n <= v@.len(),
    ensures
        final(out)@ == old(out)@ + items_words(text::texts(v@).take(n as int)),
{
    let ghost start = out@;
    let ghost ts = text::texts(v@);
    assert(start + items_words(ts.take(0)) =~= start);
    for i in 0..n
        invariant
            n <= v@.len(),
            ts == text::texts(v@),
            out@ == start + items_words(ts.take(i as int)),
    {
        out.append("  - ");
        out.append(v[i].as_str());
        out.append("\n");
        assert(ts.take(i + 1).drop_last() =~= ts.take(i as int));
        assert(ts.take(i + 1).last() == v@[i as int]@);
        assert(out@ =~= start + items_words(ts.take(i + 1)));
    }
}

/// A report in words.
pub open spec fn report_words(r: Report) -> Seq<char> {
    head_words(r) + headline_words() + rows_words(r.stages@) + "\n"@ + stages_words(r.stages@)
        + parked_words(text::texts(r.parked@)) + errors_words(text::texts(r.login_errors@))
}

impl Report {
    /// A report without rungs.
    pub fn new(label: &str, generated_at_unix: u64, git_rev: &str, target: Target, config: RunConfig) -> (r:
        Report)
        ensures
            r.schema_version == SCHEMA_VERSION,
            r.label@ == label@,
            r.generated_at_unix == generated_at_unix,
            r.git_rev@ == git_rev@,
            r.target == target,
            r.config == config,
            r.stages@.len() == 0,
            r.parked@.len() == 0,
            r.login_errors@.len() == 0,
    {
        Report {
            schema_version: SCHEMA_VERSION,
            label: label.to_owned(),
            generated_at_unix,
            git_rev: git_rev.to_owned(),
            target,
            config,
            stages: Vec::new(),
            parked: Vec::new(),
            login_errors: Vec::new(),
        }
    }

    /// The report in words.
    pub fn render(&self) -> (out: String)
        ensures
            out@ == report_words(*self),
    {
        proof {
            reveal(head_words);
            reveal(headline_words);
            reveal(parked_words);
            reveal(errors_words);
        }
        let mut out: String = String::new();
        push_origin(&mut out, self);
        push_ramp(&mut out, &self.config);
        assert(out@ =~= head_words(*self));
        out.append("## Headline\n\n");
        out.append(
            "| players | connected | writer occupancy % | queue wait ms | tx/s | move p50 | p95 | p99 | max | samples |\n",
        );
        out.append(
            "|--------:|----------:|-------------------:|--------------:|-----:|---------:|----:|----:|----:|--------:|\n",
        );
        push_rows(&mut out, &self.stages);
        out.append("\n");
        push_stages(&mut out, &self.stages);
        let ghost middle = out@;
        assert(middle =~= head_words(*self) + headline_words() + rows_words(self.stages@) + "\n"@
            + stages_words(self.stages@));
        let ghost ps = text::texts(self.parked@);
        if self.parked.len() > 0 {
            out.append("## Parked / not captured\n\n");
            push_items(&mut out, &self.parked, self.parked.len());
            assert(ps.take(ps.len() as int) =~= ps);
            out.append("\n");
        }
        assert(out@ =~= middle + parked_words(ps));
        let ghost before = out@;
        let ghost es = text::texts(self.login_errors@);
        let n: usize = self.login_errors.len();
        if n > 0 {
            out.append("## Login / session errors (");
            number::push_decimal(&mut out, n as u64);
            out.append(")\n\n");
            if n <= 20 {
                push_items(&mut out, &self.login_errors, n);
                assert(es.take(es.len() as int) =~= es);
            } else {
                push_items(&mut out, &self.login_errors, 20);
                out.append("  \u{2026} ");
                number::push_decimal(&mut out, (n - 20) as u64);
                out.append(" more\n");
            }
        }
        assert(out@ =~= before + errors_words(es));
        out
    }
}

/// A rung whose counters were reset shows no figure of the node, neither in the headline nor in
/// its own section: two such rungs that differ only in what the node reported read alike.
pub proof fn a_counter_reset_hides_the_writer(a: Stage, b: Stage)
    requires
        a.counter_reset,
        b.counter_reset,
        a == (Stage {
            writer: a.writer,
            tx_per_sec_by_reducer: a.tx_per_sec_by_reducer,
            event_tables: a.event_tables,
            ..b
        }),
    ensures
        row_words(a) == row_words(b),
        stage_words(a) == stage_words(b),
        forall|figure: Seq<char>| #[trigger] node_cell(a, figure) == VOID@,
{
    reveal(row_words);
    reveal(players_words);
    reveal(writer_words);
    reveal(rates_words);
    reveal(stage_words);
}

// ------------------------------------------------------------------------------------------
//  What a report lays out
// ------------------------------------------------------------------------------------------

/// A column is as wide as it is asked to be, or as its text: the text stands at its one side and blanks
/// fill the other.
pub proof fn a_column_keeps_its_text(s: Seq<char>, width: int, i: int)
    requires
        0 <= i < s.len(),
    ensures
        at_left(s, width).len() == if s.len() < width {
            width
        } else {
            s.len() as int
        },
        at_right(s, width).len() == at_left(s, width).len(),
        at_left(s, width)[i] == s[i],
        at_right(s, width)[at_right(s, width).len() - s.len() + i] == s[i],
        forall|k: int| s.len() <= k < width ==> #[trigger] at_left(s, width)[k] == ' ',
        forall|k: int| 0 <= k < width - s.len() ==> #[trigger] at_right(s, width)[k] == ' ',
{
}

/// Numbers follow one another with commas between them: those of two lists are those of the first, a
/// comma with a blank, and those of the second.
pub proof fn numbers_follow_one_another(a: Seq<usize>, b: Seq<usize>)
    requires
        a.len() > 0,
        b.len() > 0,
    ensures
        numbers(a + b) == numbers(a) + seq![',', ' '] + numbers(b),
        a.len() == 1 ==> numbers(a) == number::decimal(a[0] as nat),
    decreases b.len(),
{
    reveal_strlit(", ");
    assert(", "@ =~= seq![',', ' ']);
    assert((a + b).drop_last() =~= a + b.drop_last());
    assert((a + b).last() == b.last());
    if b.len() == 1 {
        assert(a + b.drop_last() =~= a);
    } else {
        numbers_follow_one_another(a, b.drop_last());
        assert(numbers(a + b) =~= numbers(a) + seq![',', ' '] + numbers(b));
    }
}

/// Every rung has its row and its section, in their order, and so has every reducer, table and item.
pub proof fn nothing_is_left_out(
    a: Seq<Stage>,
    b: Seq<Stage>,
    c: Seq<NamedRate>,
    d: Seq<NamedRate>,
    e: Seq<TableRate>,
    f: Seq<TableRate>,
)
    ensures
        rows_words(a + b) == rows_words(a) + rows_words(b),
        stages_words(a + b) == stages_words(a) + stages_words(b),
        reducers_words(c + d) == reducers_words(c) + reducers_words(d),
        tables_words(e + f) == tables_words(e) + tables_words(f),
        a.len() == 1 ==> rows_words(a) == row_words(a[0]) && stages_words(a) == stage_words(a[0]),
        c.len() == 1 ==> reducers_words(c) == reducer_words(c[0]),
        e.len() == 1 ==> tables_words(e) == table_words(e[0]),
    decreases b.len() + d.len() + f.len(),
{
    if b.len() > 0 {
        nothing_is_left_out(a, b.drop_last(), c, d, e, f);
        assert((a + b).drop_last() =~= a + b.drop_last());
        assert(rows_words(a + b) =~= rows_words(a) + rows_words(b));
        assert(stages_words(a + b) =~= stages_words(a) + stages_words(b));
    } else {
        assert(a + b =~= a);
        assert(rows_words(a) + rows_words(b) =~= rows_words(a));
        assert(stages_words(a) + stages_words(b) =~= stages_words(a));
    }
    if d.len() > 0 {
        nothing_is_left_out(a, b, c, d.drop_last(), e, f);
        assert((c + d).drop_last() =~= c + d.drop_last());
        assert(reducers_words(c + d) =~= reducers_words(c) + reducers_words(d));
    } else {
        assert(c + d =~= c);
        assert(reducers_words(c) + reducers_words(d) =~= reducers_words(c));
    }
    if f.len() > 0 {
        nothing_is_left_out(a, b, c, d, e, f.drop_last());
        assert((e + f).drop_last() =~= e + f.drop_last());
        assert(tables_words(e + f) =~= tables_words(e) + tables_words(f));
    } else {
        assert(e + f =~= e);
        assert(tables_words(e) + tables_words(f) =~= tables_words(e));
    }
    if a.len() == 1 {
        assert(rows_words(a.drop_last()) + row_words(a[0]) =~= row_words(a[0]));
        assert(stages_words(a.drop_last()) + stage_words(a[0]) =~= stage_words(a[0]));
    }
    if c.len() == 1 {
        assert(reducers_words(c.drop_last()) + reducer_words(c[0]) =~= reducer_words(c[0]));
    }
    if e.len() == 1 {
        assert(tables_words(e.drop_last()) + table_words(e[0]) =~= table_words(e[0]));
    }
}

/// The lines of a list follow one another, each behind its dash.
pub proof fn items_follow_one_another(a: Seq<Seq<char>>, b: Seq<Seq<char>>)
    ensures
        items_words(a + b) == items_words(a) + items_words(b),
        a.len() == 1 ==> items_words(a) == "  - "@ + a[0] + "\n"@,
    decreases b.len(),
{
    if b.len() > 0 {
        items_follow_one_another(a, b.drop_last());
        assert((a + b).drop_last() =~= a + b.drop_last());
        assert(items_words(a + b) =~= items_words(a) + items_words(b));
    } else {
        assert(a + b =~= a);
        assert(items_words(a) + items_words(b) =~= items_words(a));
    }
    if a.len() == 1 {
        assert(items_words(a.drop_last()) =~= Seq::empty());
        assert(items_words(a) =~= "  - "@ + a[0] + "\n"@);
    }
}

/// What went wrong is told in full up to the twentieth, and how much more there is behind it; where nothing
/// did, nothing is said.
pub proof fn twenty_errors_are_told(v: Seq<Seq<char>>)
    ensures
        v.len() == 0 ==> errors_words(v).len() == 0 && parked_words(v).len() == 0,
        0 < v.len() <= 20 ==> errors_words(v) == "## Login / session errors ("@ + number::decimal(
            v.len(),
        ) + ")\n\n"@ + items_words(v),
        v.len() > 20 ==> errors_words(v) == "## Login / session errors ("@ + number::decimal(v.len())
            + ")\n\n"@ + (items_words(v.take(20)) + "  \u{2026} "@ + number::decimal(
            (v.len() - 20) as nat,
        ) + " more\n"@),
        v.len() > 0 ==> parked_words(v) == "## Parked / not captured\n\n"@ + items_words(v) + "\n"@,
{
    reveal(errors_words);
    reveal(parked_words);
}

/// A row of the headline shows what the rung measured, each in its own place: two rungs that differ in the
/// players they were for, or in what was measured, have the same cells elsewhere.
pub proof fn a_row_shows_its_rung(s: Stage)
    requires
        !s.counter_reset,
    ensures
        row_words(s) == "| "@ + number::decimal(s.players_target as nat) + " | "@ + number::decimal(
            s.players_connected as nat,
        ) + " | "@ + s.writer.occupancy_pct@ + " | "@ + s.writer.mean_queue_wait_short@ + " | "@
            + s.writer.txns_per_sec@ + latency_cells(s.movement_latency_ms),
        latency_cells(s.movement_latency_ms) == " | "@ + s.movement_latency_ms.shown(
            s.movement_latency_ms.p50_ms,
        ) + " | "@ + s.movement_latency_ms.shown(s.movement_latency_ms.p95_ms) + " | "@
            + s.movement_latency_ms.shown(s.movement_latency_ms.p99_ms) + " | "@
            + s.movement_latency_ms.shown(s.movement_latency_ms.max_ms) + " | "@ + number::decimal(
            s.movement_latency_ms.samples as nat,
        ) + " |\n"@,
{
    reveal(row_words);
    reveal(latency_cells);
}

} // verus!
