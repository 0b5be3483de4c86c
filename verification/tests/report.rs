use wire_client::latency::{percentile, Latency};
use wire_client::ramp::{self, char_name_for, plan_ramp, RampStep};
use wire_client::report::{
    ClientCounters, HarnessHealth, NamedRate, Report, RunConfig, Stage, TableRate, Target, Writer,
    SCHEMA_VERSION,
};

#[test]
fn percentile_is_nearest_rank_and_handles_the_edges() {
    let v: Vec<u32> = (1..=100).collect();
    assert_eq!(percentile(&v, 50), 50);
    assert_eq!(percentile(&v, 95), 95);
    assert_eq!(percentile(&v, 99), 99);
    assert_eq!(percentile(&v, 100), 100);
    assert_eq!(percentile(&v, 0), 1);
    assert_eq!(percentile(&[], 95), 0);
    assert_eq!(percentile(&[7], 50), 7);
    assert_eq!(percentile(&[10, 20, 30], 95), 30);
    assert_eq!(percentile(&[10, 20, 30], 50), 20);
}

fn empty_latency() -> Latency {
    Latency { samples: 0, p50_ms: 0, p95_ms: 0, p99_ms: 0, max_ms: 0, total_ms: 0 }
}

#[test]
fn latency_summarizes_an_unsorted_sample_set() {
    let l = Latency::from_samples(&vec![30, 10, 20, 40, 1000]);
    assert_eq!(l.samples, 5);
    assert_eq!(l.p50_ms, 30);
    assert_eq!(l.p99_ms, 1000);
    assert_eq!(l.max_ms, 1000);
    assert!((l.total_ms as f64 / l.samples as f64 - 220.0).abs() < 1e-9);
    assert_eq!(Latency::from_samples(&vec![]), empty_latency());
}

fn target() -> Target {
    Target {
        logon: String::new(),
        world: String::new(),
        metrics_url: String::new(),
        db: String::new(),
    }
}

fn config(stages: Vec<usize>, hold_secs: u64) -> RunConfig {
    RunConfig {
        stages,
        warmup_secs: 0,
        hold_secs,
        heartbeat_ms: 0,
        combat_pct: 0,
        spread_yards: "0".into(),
    }
}

fn stage(players: usize) -> Stage {
    Stage {
        players_target: players,
        players_connected: 0,
        players_failed: 0,
        window_secs: "0.0".into(),
        movement_latency_ms: empty_latency(),
        client: ClientCounters {
            heartbeats_sent: 0,
            heartbeats_per_sec: "0.0".into(),
            peer_moves_observed: 0,
            peer_moves_per_sec: "0.0".into(),
            swings_sent: 0,
            frames_received: 0,
            harness_backpressure_events: 0,
        },
        harness: HarnessHealth { wakeup_lag_ms: empty_latency(), players_dropped: 0 },
        writer: Writer {
            occupancy_pct: "0.0".into(),
            reducer_cpu_sec: "0.00".into(),
            subscribe_cpu_sec: "0.00".into(),
            other_cpu_sec: "0.00".into(),
            total_cpu_sec: "0.00".into(),
            txns_per_sec: "0".into(),
            mean_queue_wait_short: "0.0".into(),
            mean_queue_wait_ms: "0.00".into(),
            egress_kib_per_sec: "0".into(),
            rows_scanned_per_sec: "0".into(),
        },
        tx_per_sec_by_reducer: vec![],
        event_tables: vec![],
        counter_reset: false,
    }
}

#[test]
fn an_empty_latency_window_renders_as_a_dash_not_as_zero_ms() {
    let empty = empty_latency();
    assert_eq!(empty.cell(empty.p99_ms), "—");
    let real = Latency::from_samples(&vec![0, 0, 0]);
    assert_eq!(real.cell(real.p99_ms), "0");

    let mut r = Report::new("empty", 0, "unknown", target(), config(vec![], 0));
    r.stages.push(stage(200));
    let text = r.render();
    assert!(text.contains("| 200 | 0 | 0.0 | 0.0 | 0 | — | — | — | — | 0 |"), "{text}");
}

#[test]
fn a_counter_reset_voids_the_headline_occupancy_cell() {
    let mut r = Report::new("reset", 0, "unknown", target(), config(vec![], 0));
    let mut s = stage(100);
    s.counter_reset = true;
    s.writer.occupancy_pct = "-412.7".into();
    r.stages.push(s);
    let text = r.render();
    assert!(text.contains("VOID (counter reset)"), "{text}");
    assert!(!text.contains("-412.7"), "{text}");
}

#[test]
fn a_counter_reset_voids_every_figure_of_the_node() {
    let mut r = Report::new("reset", 0, "unknown", target(), config(vec![], 0));
    let mut s = stage(100);
    s.counter_reset = true;
    s.writer.occupancy_pct = "55555.5".into();
    s.writer.txns_per_sec = "987654".into();
    s.writer.mean_queue_wait_short = "4321.0".into();
    s.writer.mean_queue_wait_ms = "4321.00".into();
    s.tx_per_sec_by_reducer.push(NamedRate { name: "tick".into(), per_sec: "77777.7".into() });
    s.event_tables.push(TableRate {
        table: "events".into(),
        inserts_per_sec: "66666.6".into(),
        reaps_per_sec: "33333.3".into(),
    });
    r.stages.push(s);
    let text = r.render();
    let void = "VOID (counter reset)";
    assert!(text.contains(&format!("| 100 | 0 | {void} | {void} | {void} | ")), "{text}");
    for figure in ["55555.5", "987654", "4321.0", "77777.7", "66666.6", "33333.3"] {
        assert!(!text.contains(figure), "{text}");
    }
}

#[test]
fn the_order_of_samples_makes_no_difference() {
    let a = Latency::from_samples(&vec![5, 9, 40, 9]);
    assert_eq!(a, Latency::from_samples(&vec![40, 9, 9, 5]));
    assert_eq!((a.p50_ms, a.max_ms, a.total_ms), (9, 40, 63));
}

#[test]
fn plan_ramp_is_additive_and_rejects_a_shrinking_ramp() {
    assert_eq!(
        plan_ramp(&[50, 100, 150, 200]).unwrap(),
        vec![
            RampStep { target: 50, spawn: 50 },
            RampStep { target: 100, spawn: 50 },
            RampStep { target: 150, spawn: 50 },
            RampStep { target: 200, spawn: 50 },
        ]
    );
    let plan = plan_ramp(&[10, 25, 200]).unwrap();
    assert_eq!(plan.iter().map(|s| s.spawn).sum::<usize>(), 200);
    assert!(plan_ramp(&[100, 50]).is_err());
    assert!(plan_ramp(&[50, 50]).is_err());
    assert!(plan_ramp(&[]).is_err());
    assert!(plan_ramp(&[0]).is_err());
}

#[test]
fn a_single_zero_rung_observes_without_players() {
    let plan = ramp::rungs_to_run(&[0]).unwrap();
    assert_eq!(plan, vec![RampStep { target: 0, spawn: 0 }]);
    assert!(ramp::rungs_to_run(&[0, 10]).is_err());
    assert_eq!(ramp::rungs_to_run(&[10]).unwrap(), plan_ramp(&[10]).unwrap());
}

#[test]
fn char_names_are_letters_only_and_unique_across_the_whole_ramp() {
    assert_eq!(char_name_for("Bench", 0), "Benchaaa");
    assert_eq!(char_name_for("Bench", 1), "Benchaab");
    assert_eq!(char_name_for("Bench", 26), "Benchaba");
    let names: std::collections::HashSet<String> =
        (0..200).map(|i| char_name_for("Bench", i)).collect();
    assert_eq!(names.len(), 200);
    assert!(names.iter().all(|n| n.chars().all(|c| c.is_ascii_alphabetic())));
}

#[test]
fn accounts_are_numbered_with_four_digits() {
    assert_eq!(ramp::account_for("BENCH", 7), "BENCH0007");
    assert_eq!(ramp::account_for("BENCH", 12345), "BENCH12345");
}

#[test]
fn report_round_trips_through_json_and_renders_a_headline_row() {
    let mut r = Report::new(
        "unit-test",
        1,
        "abc1234",
        Target {
            logon: "127.0.0.1:3724".into(),
            world: "127.0.0.1:8085".into(),
            metrics_url: "http://127.0.0.1:3000/v1/metrics".into(),
            db: String::new(),
        },
        config(vec![50], 60),
    );
    let mut s = stage(50);
    s.players_connected = 50;
    s.window_secs = "60.0".into();
    s.movement_latency_ms = Latency::from_samples(&vec![5, 9, 40]);
    s.writer.occupancy_pct = "31.5".into();
    s.writer.txns_per_sec = "210".into();
    s.tx_per_sec_by_reducer
        .push(NamedRate { name: "movement_update".into(), per_sec: "100.0".into() });
    s.event_tables.push(TableRate {
        table: "game_movement_event".into(),
        inserts_per_sec: "2000.0".into(),
        reaps_per_sec: "1990.0".into(),
    });
    r.stages.push(s);
    r.parked.push("nothing".into());

    assert_eq!(r.schema_version, SCHEMA_VERSION);
    assert_eq!(r.stages.len(), 1);
    assert_eq!(r.stages[0].movement_latency_ms.p50_ms, 9);
    assert_eq!(r.stages[0].event_tables[0].reaps_per_sec, "1990.0");

    let text = r.render();
    assert!(text.contains("| 50 | 50 | 31.5 |"), "{text}");
    assert!(text.contains("movement_update"));
    assert!(text.contains("## Parked / not captured"));
    assert!(text.contains("metrics / db   http://127.0.0.1:3000/v1/metrics / <all databases on the node>"));
    assert!(text.contains("ramp           [50], 0s warm-up + 60s measured window per rung"));
    assert!(text.contains("  movement_update                         100.0\n"));
    assert!(text.contains("  game_movement_event                    2000.0 ->     1990.0\n"));
}
