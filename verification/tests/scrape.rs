use wire_client::bench;
use wire_client::bench::Args;
use wire_client::cli::ArgsStop;
use wire_client::counters::{self, Bucket};
use wire_client::exposition;
use wire_client::loose;
use wire_client::metrics::{self, Change, Snapshot, Wanted, OCCUPANCY_FAMILY};
use wire_client::named::Named;
use wire_client::number;

/// A scrape, read strictly.
fn strict(text: &str) -> Result<Snapshot, String> {
    let mut s = Snapshot::empty();
    for sample in exposition::parse(text)? {
        let value: f64 = sample.value.parse().expect("a sample's value is a number");
        if s.insert(sample.key, value.to_bits()) {
            return Err("duplicate sample".to_owned());
        }
    }
    Ok(s)
}

fn read(text: &str) -> Snapshot {
    match strict(text) {
        Ok(s) => s,
        Err(e) => panic!("{e}"),
    }
}

/// A scrape, read with what is no sample passed over.
fn lenient(text: &str) -> Snapshot {
    let mut s = Snapshot::empty();
    for sample in loose::parse(text) {
        let value: f64 = sample.value.parse().expect("a sample's value is a number");
        s.insert(sample.key, value.to_bits());
    }
    s
}

fn texts(v: &[&str]) -> Vec<String> {
    v.iter().map(|s| s.to_string()).collect()
}

fn wanted(v: &[(&str, &str)]) -> Vec<Wanted> {
    v.iter().map(|w| Wanted { label: w.0.to_owned(), value: w.1.to_owned() }).collect()
}

fn sum(s: &Snapshot, name: &str, filters: &[&str]) -> f64 {
    s.matching(name, &texts(filters)).iter().map(|x| f64::from_bits(x.bits)).sum()
}

fn total(changes: &[Change]) -> f64 {
    changes.iter().map(|c| f64::from_bits(c.after) - f64::from_bits(c.before)).sum()
}

fn delta(before: &Snapshot, after: &Snapshot) -> Snapshot {
    let mut d = Snapshot::empty();
    for c in before.changes(after) {
        let moved = f64::from_bits(c.after) - f64::from_bits(c.before);
        d.insert(c.key, moved.to_bits());
    }
    d
}

/// The sums of the groups, largest first, without those that are zero.
fn summed(groups: &Named<Vec<u64>>) -> Vec<(String, f64)> {
    let mut sums = Vec::new();
    for i in 0..groups.len() {
        let s: f64 = groups.value_at(i).iter().map(|b| f64::from_bits(*b)).sum();
        sums.push(s.to_bits());
    }
    metrics::ranked(&sums)
        .iter()
        .map(|g| (groups.name_at(g.index).to_owned(), f64::from_bits(g.bits)))
        .filter(|g| g.1 != 0.0)
        .collect()
}

fn group_by(s: &Snapshot, name: &str, label: &str, filters: &[&str]) -> Vec<(String, f64)> {
    summed(&s.group_by(name, label, &texts(filters)))
}

fn names(v: &Named<bool>) -> Vec<String> {
    (0..v.len()).map(|i| v.name_at(i).to_owned()).collect()
}

const SAMPLE: &str = r#"
# HELP spacetime_txn_cpu_time_sec The time spent executing a transaction
# TYPE spacetime_txn_cpu_time_sec histogram
spacetime_txn_cpu_time_sec_sum{db="abc",reducer="",txn_type="Reducer"} 10.5
spacetime_txn_cpu_time_sec_sum{db="abc",reducer="",txn_type="Subscribe"} 1.5
spacetime_txn_cpu_time_sec_sum{db="zzz",reducer="",txn_type="Reducer"} 99.0
spacetime_num_txns_total{committed="true",db="abc",reducer="movement_update",txn_type="Reducer"} 400
spacetime_num_txns_total{committed="false",db="abc",reducer="movement_update",txn_type="Reducer"} 4
spacetime_num_txns_total{committed="true",db="abc",reducer="tick_melee",txn_type="Reducer"} 100
spacetime_num_rows_inserted_total{db="abc",table_name="game_movement_event",txn_type="Reducer"} 2000
"#;

const FIRST_KEY: &str =
    r#"spacetime_txn_cpu_time_sec_sum{db="abc",reducer="",txn_type="Reducer"}"#;

fn later_sample() -> String {
    SAMPLE.replace(
        r#"spacetime_num_txns_total{committed="true",db="abc",reducer="tick_melee",txn_type="Reducer"} 100"#,
        "spacetime_num_txns_total{committed=\"true\",db=\"abc\",reducer=\"tick_melee\",txn_type=\"Reducer\"} 160\n\
         spacetime_num_txns_total{committed=\"true\",db=\"abc\",reducer=\"brand_new\",txn_type=\"Reducer\"} 7",
    )
}

#[test]
fn parse_reads_labelled_samples_and_skips_comments() {
    let s = read(SAMPLE);
    assert_eq!(s.len(), 7);
    assert_eq!(s.get(FIRST_KEY), Some(10.5f64.to_bits()));
}

#[test]
fn metrics_parse_reads_labelled_samples_and_skips_comments() {
    let s = lenient(SAMPLE);
    assert_eq!(s.len(), 7);
    assert_eq!(s.get(FIRST_KEY), Some(10.5f64.to_bits()));
}

fn check_sums(s: &Snapshot) {
    assert_eq!(sum(s, "spacetime_txn_cpu_time_sec_sum", &[r#"db="abc"#]), 12.0);
    assert_eq!(
        sum(s, "spacetime_txn_cpu_time_sec_sum", &[r#"db="abc"#, r#"txn_type="Reducer""#]),
        10.5
    );
    assert_eq!(sum(s, "spacetime_txn_cpu_time_sec_sum", &[]), 111.0);
    assert_eq!(sum(s, "no_such_metric", &[]), 0.0);
}

#[test]
fn sum_filters_by_label_substring() {
    check_sums(&read(SAMPLE));
}

#[test]
fn metrics_sum_filters_by_label_substring() {
    check_sums(&lenient(SAMPLE));
}

#[test]
fn group_by_reducer_sums_committed_and_rolled_back_and_sorts_desc() {
    let s = read(SAMPLE);
    let g = group_by(&s, "spacetime_num_txns_total", "reducer", &[r#"txn_type="Reducer""#]);
    assert_eq!(g, vec![("movement_update".into(), 404.0), ("tick_melee".into(), 100.0)]);
}

#[test]
fn metrics_group_by_reducer_sums_committed_and_rolled_back_and_sorts_desc() {
    let s = lenient(SAMPLE);
    let g = summed(&loose::group_by(
        &s,
        "spacetime_num_txns_total",
        "reducer",
        &texts(&[r#"txn_type="Reducer""#]),
    ));
    assert_eq!(g, vec![("movement_update".into(), 404.0), ("tick_melee".into(), 100.0)]);
}

#[test]
fn delta_subtracts_key_wise_and_treats_new_series_as_starting_at_zero() {
    let d = delta(&read(SAMPLE), &read(&later_sample()));
    let g = group_by(&d, "spacetime_num_txns_total", "reducer", &[r#"txn_type="Reducer""#]);
    assert_eq!(g, vec![("tick_melee".into(), 60.0), ("brand_new".into(), 7.0)]);
    assert_eq!(sum(&d, "spacetime_num_txns_total", &[r#"reducer="movement_update""#]), 0.0);
}

#[test]
fn metrics_delta_subtracts_key_wise_and_treats_new_series_as_starting_at_zero() {
    let d = delta(&lenient(SAMPLE), &lenient(&later_sample()));
    let g = summed(&loose::group_by(
        &d,
        "spacetime_num_txns_total",
        "reducer",
        &texts(&[r#"txn_type="Reducer""#]),
    ));
    assert_eq!(g, vec![("tick_melee".into(), 60.0), ("brand_new".into(), 7.0)]);
    assert_eq!(sum(&d, "spacetime_num_txns_total", &[r#"reducer="movement_update""#]), 0.0);
}

#[test]
fn has_any_separates_an_absent_series_from_a_zero_valued_one() {
    let s = read(SAMPLE);
    assert!(s.has_any("spacetime_txn_cpu_time_sec_sum", &texts(&[r#"db="abc"#])));
    assert!(!s.has_any("spacetime_txn_cpu_time_sec_sum", &texts(&[r#"db="deadbeef"#])));
    assert!(!s.has_any("no_such_metric", &Vec::new()));
    let zeroed = read(r#"spacetime_num_txns_total{db="abc",reducer="idle"} 0"#);
    assert_eq!(sum(&zeroed, "spacetime_num_txns_total", &[r#"db="abc"#]), 0.0);
    assert_eq!(sum(&zeroed, "spacetime_num_txns_total", &[r#"db="zzz"#]), 0.0);
    assert!(zeroed.has_any("spacetime_num_txns_total", &texts(&[r#"db="abc"#])));
    assert!(!zeroed.has_any("spacetime_num_txns_total", &texts(&[r#"db="zzz"#])));
}

#[test]
fn first_negative_catches_a_counter_reset_mid_window() {
    let before = read(SAMPLE);
    let after = read(&SAMPLE.replace("} 400", "} 12"));
    let d = delta(&before, &after);
    let found = match d.first_negative(&Vec::new()) {
        Some(found) => found,
        None => panic!("a reset must be detectable"),
    };
    assert!(found.key.contains("movement_update"), "got {}", found.key);
    assert_eq!(f64::from_bits(found.bits), -388.0);
    assert!(delta(&before, &before).first_negative(&Vec::new()).is_none());
}

#[test]
fn a_shrinking_gauge_is_not_a_counter_reset() {
    let before = read(
        r#"spacetime_num_table_rows{db="abc",table_name="game_creature_move_event"} 240
spacetime_data_size_bytes_used_by_rows{db="abc",table_name="game_creature_spline"} 4096
spacetime_num_txns_total{db="abc",reducer="movement_update"} 400"#,
    );
    let after = read(
        r#"spacetime_num_table_rows{db="abc",table_name="game_creature_move_event"} 216
spacetime_data_size_bytes_used_by_rows{db="abc",table_name="game_creature_spline"} 3856
spacetime_num_txns_total{db="abc",reducer="movement_update"} 700"#,
    );
    assert!(delta(&before, &after).first_negative(&Vec::new()).is_none());
    let restarted = read(r#"spacetime_num_txns_total{db="abc",reducer="movement_update"} 12"#);
    assert!(delta(&before, &restarted).first_negative(&Vec::new()).is_some());
}

#[test]
fn databases_lists_identities_and_which_ones_are_measurable() {
    let s = read(SAMPLE);
    assert_eq!(names(&s.databases()), ["abc", "zzz"]);
    assert_eq!(names(&s.databases_with(OCCUPANCY_FAMILY)), ["abc", "zzz"]);
    let one = read(
        r#"
spacetime_txn_cpu_time_sec_sum{db="abc",reducer="",txn_type="Reducer"} 10.5
spacetime_num_table_rows{db="000abcd",table_name="x"} 135
"#,
    );
    assert_eq!(one.databases().len(), 2);
    assert_eq!(names(&one.databases_with(OCCUPANCY_FAMILY)), ["abc"]);
}

#[test]
fn db_filter_is_empty_for_an_unset_db() {
    assert_eq!(metrics::db_filter(""), "");
    assert_eq!(metrics::db_filter("c200"), r#"db="c200"#);
    let f = metrics::db_filter("");
    assert_eq!(sum(&read(SAMPLE), "spacetime_txn_cpu_time_sec_sum", &[&f]), 111.0);
}

#[test]
fn metrics_db_filter_is_empty_for_an_unset_db() {
    assert_eq!(metrics::db_filter(""), "");
    assert_eq!(metrics::db_filter("c200"), r#"db="c200"#);
    let f = metrics::db_filter("");
    assert_eq!(sum(&lenient(SAMPLE), "spacetime_txn_cpu_time_sec_sum", &[&f]), 111.0);
}

#[test]
fn escaped_labels_and_timestamps_keep_the_sample_value() {
    let samples =
        exposition::parse(r#"work_total{path="a b\n\"c\\d",db="abc"} 12.5 1234"#).ok().unwrap();
    assert_eq!(samples.len(), 1);
    assert_eq!(samples[0].value, "12.5");
    let (_, labels) = exposition::split_key_of(&samples[0].key);
    assert_eq!(metrics::label_value(&labels, "path").as_deref(), Some("a b\n\"c\\d"));
    assert_eq!(
        metrics::label_value(r#"{otherdb="wrong",db="right"}"#, "db").as_deref(),
        Some("right")
    );
}

#[test]
fn malformed_and_duplicate_samples_fail_the_scrape() {
    for text in [
        "work_total",
        "work_total nope",
        "work_total 1 invalid",
        "work_total 1 2 extra",
        "1work 2",
        r#"work_total{db=abc} 1"#,
        r#"work_total{db="a",db="b"} 1"#,
        r#"work_total{db="a\q"} 1"#,
        r#"work_total{db="a" 1"#,
        "work_total 1\nwork_total 2",
    ] {
        assert!(exposition::parse(text).is_err(), "accepted {text:?}");
    }
}

#[test]
fn label_order_does_not_change_counter_identity() {
    let before = read(r#"work_total{db="abc",kind="move"} 7"#);
    let after = read(r#"work_total{kind="move",db="abc"} 12"#);
    let changes =
        before.counter_delta(&after, "work_total", &wanted(&[("db", "abc")])).ok().unwrap();
    assert_eq!(total(&changes), 5.0);
}

#[test]
fn exact_counter_selection_excludes_similar_identities_and_label_names() {
    let before = read("work_total{db=\"abc\"} 5\nwork_total{db=\"abcdef\"} 50\nwork_total{otherdb=\"abc\"} 500");
    let after = read("work_total{db=\"abc\"} 8\nwork_total{db=\"abcdef\"} 100\nwork_total{otherdb=\"abc\"} 1000");
    let changes =
        before.counter_delta(&after, "work_total", &wanted(&[("db", "abc")])).ok().unwrap();
    assert_eq!(total(&changes), 3.0);
    assert!(before.counter_delta(&after, "work_total", &wanted(&[("db", "absent")])).is_err());
}

#[test]
fn counter_windows_refuse_loss_reset_and_non_finite_values() {
    let before =
        read("work_total{db=\"abc\",table=\"a\"} 10\nwork_total{db=\"abc\",table=\"b\"} 20");
    for after in [
        "work_total{db=\"abc\",table=\"a\"} 11",
        "work_total{db=\"abc\",table=\"a\"} 11\nwork_total{db=\"abc\",table=\"b\"} 1",
        "work_total{db=\"abc\",table=\"a\"} 11\nwork_total{db=\"abc\",table=\"b\"} NaN",
    ] {
        assert!(before
            .counter_delta(&read(after), "work_total", &wanted(&[("db", "abc")]))
            .is_err());
    }
    let after = read("work_total{db=\"abc\",table=\"a\"} 11\nwork_total{db=\"abc\",table=\"b\"} 22\nwork_total{db=\"abc\",table=\"new\"} 3");
    let changes =
        before.counter_delta(&after, "work_total", &wanted(&[("db", "abc")])).ok().unwrap();
    assert_eq!(total(&changes), 6.0);
}

#[test]
fn a_missing_benchmark_counter_cannot_be_reported_as_zero() {
    let before = read(r#"spacetime_num_txns_total{db="abc"} 10"#);
    assert!(before
        .require_counter_series(&Snapshot::empty(), &texts(&[r#"db="abc""#]))
        .is_err());
    let invalid = read(r#"spacetime_num_txns_total{db="abc"} NaN"#);
    assert!(before.require_counter_series(&invalid, &Vec::new()).is_err());
    assert!(Snapshot::empty().require_counter_series(&invalid, &Vec::new()).is_err());
}

#[test]
fn zero_rollbacks_require_an_observed_transaction_family() {
    let before =
        read("spacetime_num_txns_total{db=\"a\",txn_type=\"Reducer\",committed=\"true\"} 2\n");
    let after =
        read("spacetime_num_txns_total{db=\"a\",txn_type=\"Reducer\",committed=\"true\"} 7\n");
    let groups = counters::grouped_delta(
        &before,
        &after,
        "spacetime_num_txns_total",
        &wanted(&[("db", "a")]),
        "committed",
    )
    .ok()
    .unwrap();
    let moved: f64 = groups
        .get("true")
        .unwrap()
        .iter()
        .map(|e| f64::from_bits(e.after) - f64::from_bits(e.before))
        .sum();
    assert_eq!(moved, 5.0);
    assert!(groups.get("false").is_none());
    assert!(counters::known_outcomes(&groups));
    assert!(counters::grouped_delta(
        &Snapshot::empty(),
        &Snapshot::empty(),
        "spacetime_num_txns_total",
        &wanted(&[("db", "a")]),
        "committed"
    )
    .is_err());
}

struct Histogram {
    p50: Option<f64>,
    p95: Option<f64>,
    exceeds: bool,
    mean: f64,
}

fn histogram(before: &Snapshot, after: &Snapshot, name: &str) -> Result<Histogram, String> {
    let labels = wanted(&[("db", "a")]);
    let count = total(&before.counter_delta(after, &format!("{name}_count"), &labels)?);
    let sum = total(&before.counter_delta(after, &format!("{name}_sum"), &labels)?);
    let groups =
        counters::grouped_delta(before, after, &format!("{name}_bucket"), &labels, "le")?;
    let mut buckets = Vec::new();
    for i in 0..groups.len() {
        let bound = match groups.name_at(i) {
            "+Inf" => f64::INFINITY,
            word => match word.parse::<f64>() {
                Ok(b) => b,
                Err(_) => return Err("no bound".to_owned()),
            },
        };
        let moved: f64 = groups
            .value_at(i)
            .iter()
            .map(|e| f64::from_bits(e.after) - f64::from_bits(e.before))
            .sum();
        buckets.push(Bucket { bound: bound.to_bits(), count: moved.to_bits() });
    }
    let buckets = match counters::ordered_buckets(&buckets, count.to_bits()) {
        Some(b) => b,
        None => return Err("not cumulative".to_owned()),
    };
    let bound = |share: f64| -> Option<f64> {
        counters::upper_bound(&buckets, (count * share).ceil().to_bits())
            .map(f64::from_bits)
            .filter(|b| b.is_finite())
    };
    let p50 = bound(0.5);
    let p95 = bound(0.95);
    let finite: f64 = buckets
        .iter()
        .filter(|b| f64::from_bits(b.bound).is_finite())
        .map(|b| f64::from_bits(b.count))
        .fold(0.0, f64::max);
    Ok(Histogram { p50, p95, exceeds: finite < count, mean: sum / count })
}

#[test]
fn a_queue_histogram_reports_bounds_instead_of_inventing_an_exact_maximum() {
    let before = read("q_count{db=\"a\"} 0\nq_sum{db=\"a\"} 0\nq_bucket{db=\"a\",le=\"0.001\"} 0\nq_bucket{db=\"a\",le=\"0.01\"} 0\nq_bucket{db=\"a\",le=\"+Inf\"} 0\n");
    let after = read("q_count{db=\"a\"} 4\nq_sum{db=\"a\"} 0.024\nq_bucket{db=\"a\",le=\"0.001\"} 2\nq_bucket{db=\"a\",le=\"0.01\"} 3\nq_bucket{db=\"a\",le=\"+Inf\"} 4\n");
    let report = histogram(&before, &after, "q").ok().unwrap();
    assert_eq!(report.p50, Some(0.001));
    assert_eq!(report.p95, None);
    assert!(report.exceeds);
    assert_eq!(report.mean, 0.006);
}

#[test]
fn a_nonmonotonic_window_cannot_produce_a_latency_report() {
    let before = read("q_count{db=\"a\"} 0\nq_sum{db=\"a\"} 0\nq_bucket{db=\"a\",le=\"0.001\"} 0\nq_bucket{db=\"a\",le=\"+Inf\"} 0\n");
    let after = read("q_count{db=\"a\"} 1\nq_sum{db=\"a\"} 0.001\nq_bucket{db=\"a\",le=\"0.001\"} 2\nq_bucket{db=\"a\",le=\"+Inf\"} 1\n");
    assert!(histogram(&before, &after, "q").is_err());
}

fn rate(moved: f64, secs: f64) -> f64 {
    if secs > 0.0 {
        moved / secs
    } else {
        0.0
    }
}

fn occupancy(d: &Snapshot, secs: f64, dbf: &str) -> f64 {
    sum(d, "spacetime_txn_cpu_time_sec_sum", &[dbf]) / secs * 100.0
}

fn tx_by_reducer(d: &Snapshot, secs: f64, dbf: &str) -> Vec<(String, f64)> {
    summed(&loose::group_by(
        d,
        "spacetime_num_txns_total",
        "reducer",
        &texts(&[dbf, r#"txn_type="Reducer""#]),
    ))
    .into_iter()
    .map(|g| (g.0, rate(g.1, secs)))
    .collect()
}

#[test]
fn stage_metrics_are_derived_from_a_scrape_delta() {
    let before = lenient(
        r#"
spacetime_txn_cpu_time_sec_sum{db="abc",reducer="",txn_type="Reducer"} 100.0
spacetime_txn_cpu_time_sec_sum{db="abc",reducer="",txn_type="Subscribe"} 10.0
spacetime_num_txns_total{committed="true",db="abc",reducer="movement_update",txn_type="Reducer"} 1000
spacetime_num_txns_total{committed="true",db="abc",reducer="tick_melee",txn_type="Reducer"} 500
spacetime_reducer_wait_time_sec_sum{db="abc",reducer="movement_update"} 1.0
spacetime_reducer_wait_time_sec_count{db="abc",reducer="movement_update"} 1000
spacetime_num_rows_inserted_total{db="abc",table_name="game_movement_event",txn_type="Reducer"} 5000
spacetime_num_rows_deleted_total{db="abc",table_name="game_movement_event",txn_type="Reducer"} 4000
spacetime_num_rows_inserted_total{db="abc",table_name="st_table",txn_type="Internal"} 1
spacetime_num_bytes_sent_to_clients_total{db="abc"} 0
spacetime_num_rows_scanned_total{db="abc"} 0
"#,
    );
    let after = lenient(
        r#"
spacetime_txn_cpu_time_sec_sum{db="abc",reducer="",txn_type="Reducer"} 103.0
spacetime_txn_cpu_time_sec_sum{db="abc",reducer="",txn_type="Subscribe"} 11.0
spacetime_num_txns_total{committed="true",db="abc",reducer="movement_update",txn_type="Reducer"} 3000
spacetime_num_txns_total{committed="true",db="abc",reducer="tick_melee",txn_type="Reducer"} 600
spacetime_reducer_wait_time_sec_sum{db="abc",reducer="movement_update"} 3.0
spacetime_reducer_wait_time_sec_count{db="abc",reducer="movement_update"} 3000
spacetime_num_rows_inserted_total{db="abc",table_name="game_movement_event",txn_type="Reducer"} 25000
spacetime_num_rows_deleted_total{db="abc",table_name="game_movement_event",txn_type="Reducer"} 23000
spacetime_num_rows_inserted_total{db="abc",table_name="st_table",txn_type="Internal"} 9
spacetime_num_bytes_sent_to_clients_total{db="abc"} 10240
spacetime_num_rows_scanned_total{db="abc"} 1000
"#,
    );
    let d = delta(&before, &after);
    let dbf = metrics::db_filter("abc");
    assert!((occupancy(&d, 10.0, &dbf) - 40.0).abs() < 1e-9);
    let reducer =
        sum(&d, "spacetime_txn_cpu_time_sec_sum", &[&dbf, r#"txn_type="Reducer""#]);
    assert!((reducer - 3.0).abs() < 1e-9);
    let txns = rate(sum(&d, "spacetime_num_txns_total", &[&dbf]), 10.0);
    assert!((txns - 210.0).abs() < 1e-9);
    let wait = sum(&d, "spacetime_reducer_wait_time_sec_sum", &[&dbf])
        / sum(&d, "spacetime_reducer_wait_time_sec_count", &[&dbf])
        * 1000.0;
    assert!((wait - 1.0).abs() < 1e-9);
    let egress = rate(sum(&d, "spacetime_num_bytes_sent_to_clients_total", &[&dbf]), 10.0);
    assert!((egress - 1024.0).abs() < 1e-9);

    let tx = tx_by_reducer(&d, 10.0, &dbf);
    assert_eq!(tx[0], ("movement_update".to_owned(), 200.0));
    assert_eq!(tx[1], ("tick_melee".to_owned(), 10.0));

    let inserted = summed(&loose::group_by(
        &d,
        "spacetime_num_rows_inserted_total",
        "table_name",
        &texts(&[&dbf]),
    ));
    let deleted = summed(&loose::group_by(
        &d,
        "spacetime_num_rows_deleted_total",
        "table_name",
        &texts(&[&dbf]),
    ));
    let listed: Vec<&(String, f64)> =
        inserted.iter().filter(|t| bench::lists_table(&t.0, "")).collect();
    assert_eq!(listed.len(), 1);
    assert_eq!(listed[0].0, "game_movement_event");
    assert_eq!(rate(listed[0].1, 10.0), 2000.0);
    assert_eq!(deleted.len(), 1);
    assert_eq!(deleted[0].0, "game_movement_event");
    assert_eq!(rate(deleted[0].1, 10.0), 1900.0);
}

const TWO_DBS: &str = r#"
spacetime_txn_cpu_time_sec_sum{db="aaa",reducer="",txn_type="Reducer"} 30.0
spacetime_txn_cpu_time_sec_sum{db="bbb",reducer="",txn_type="Reducer"} 30.0
spacetime_num_txns_total{committed="true",db="aaa",reducer="movement_update",txn_type="Reducer"} 10
spacetime_num_txns_total{committed="true",db="bbb",reducer="movement_update",txn_type="Reducer"} 10
"#;

const ONE_DB: &str = r#"
spacetime_txn_cpu_time_sec_sum{db="aaa",reducer="",txn_type="Reducer"} 30.0
spacetime_num_txns_total{committed="true",db="aaa",reducer="movement_update",txn_type="Reducer"} 10
spacetime_num_rows_inserted_total{db="aaa",table_name="game_movement_event",txn_type="Reducer"} 1
spacetime_num_rows_deleted_total{db="aaa",table_name="game_movement_event",txn_type="Reducer"} 1
spacetime_reducer_wait_time_sec_sum{db="aaa",reducer="movement_update"} 1.0
spacetime_num_bytes_sent_to_clients_total{db="aaa",txn_type="Reducer"} 5
"#;

#[test]
fn a_db_selection_that_matches_nothing_is_refused_not_reported_as_zero() {
    let s = lenient(ONE_DB);
    let dbf = metrics::db_filter("deadbeef");
    assert_eq!(occupancy(&s, 60.0, &dbf), 0.0);
    assert_eq!(tx_by_reducer(&s, 60.0, &dbf), vec![]);
    let err = bench::validate_db_selection(&s, "deadbeef", &dbf).unwrap_err();
    assert!(err.contains("matches no database"), "{err}");
    assert!(err.contains("aaa"), "{err}");
    assert!(bench::validate_db_selection(&s, "aaa", &metrics::db_filter("aaa")).is_ok());
}

#[test]
fn an_empty_db_is_refused_on_a_multi_database_node() {
    let two = lenient(TWO_DBS);
    let dbf = metrics::db_filter("");
    assert!((occupancy(&two, 60.0, &dbf) - 100.0).abs() < 1e-9);
    let err = bench::validate_db_selection(&two, "", &dbf).unwrap_err();
    assert!(err.contains("2 measurable databases"), "{err}");
    assert!(bench::validate_db_selection(&lenient(ONE_DB), "", &dbf).is_ok());
    assert!(bench::validate_db_selection(&lenient(""), "", &dbf).is_err());
}

#[test]
fn a_witness_that_matches_nothing_or_duplicates_the_primary_db_is_refused() {
    let two = lenient(TWO_DBS);
    let absent = metrics::db_filter("deadbeef");
    assert_eq!(occupancy(&two, 60.0, &absent), 0.0);
    let err =
        bench::validate_witness_selection(&two, "aaa", "deadbeef", &absent).unwrap_err();
    assert!(err.contains("matches no database"), "{err}");
    assert!(err.contains("bbb"), "{err}");
    for (db, witness) in [("aaa", "aaa"), ("aa", "aaa"), ("aaa", "aa")] {
        let err =
            bench::validate_witness_selection(&two, db, witness, &metrics::db_filter(witness))
                .unwrap_err();
        assert!(err.contains("same database"), "{err}");
    }
    assert!(bench::validate_witness_selection(&two, "aaa", "bbb", &metrics::db_filter("bbb"))
        .is_ok());
    assert!(
        bench::validate_witness_selection(&two, "aaa", "", &metrics::db_filter("")).is_ok()
    );
}

#[test]
fn the_witness_column_is_sampled_over_the_same_window_and_voids_on_its_own_counter_reset() {
    let before = lenient(TWO_DBS);
    let after = lenient(&TWO_DBS.replace(r#"db="bbb",reducer="",txn_type="Reducer"} 30.0"#,
        r#"db="bbb",reducer="",txn_type="Reducer"} 36.0"#));
    let d = delta(&before, &after);
    assert_eq!(occupancy(&d, 60.0, &metrics::db_filter("aaa")), 0.0);
    assert!((occupancy(&d, 60.0, &metrics::db_filter("bbb")) - 10.0).abs() < 1e-9);
    assert!(bench::counter_reset(&d, "aaa", "bbb").is_none());

    let restarted = lenient(&TWO_DBS.replace(r#"db="bbb",reducer="",txn_type="Reducer"} 30.0"#,
        r#"db="bbb",reducer="",txn_type="Reducer"} 1.0"#));
    let d = delta(&before, &restarted);
    let found = match bench::counter_reset(&d, "aaa", "bbb") {
        Some(found) => found,
        None => panic!("a reset of the witness alone voids the window"),
    };
    assert!(found.key.contains(r#"db="bbb""#), "{}", found.key);
    assert_eq!(f64::from_bits(found.bits), -29.0);
    assert!(bench::counter_reset(&d, "aaa", "").is_none());
    assert!(bench::counter_reset(&d, "bbb", "aaa").is_some());
}

#[test]
fn the_measured_database_names_the_reset_before_the_witness_does() {
    let d = lenient(
        "spacetime_num_txns_total{db=\"aaa\",z=\"2\"} -1\nspacetime_num_txns_total{db=\"aaa\",z=\"1\"} -2\nspacetime_num_rows_deleted_total{db=\"bbb\"} -3\nspacetime_num_table_rows{db=\"aaa\"} -4",
    );
    let key = |db: &str, witness: &str| bench::counter_reset(&d, db, witness).map(|s| s.key);
    assert_eq!(key("aaa", "bbb").as_deref(), Some(r#"spacetime_num_txns_total{db="aaa",z="1"}"#));
    assert_eq!(key("bbb", "aaa").as_deref(), Some(r#"spacetime_num_rows_deleted_total{db="bbb"}"#));
    assert_eq!(key("ccc", "bbb").as_deref(), Some(r#"spacetime_num_rows_deleted_total{db="bbb"}"#));
    assert_eq!(key("ccc", ""), None);
}

#[test]
fn a_loose_label_is_found_by_its_whole_name() {
    let found = |labels: &str, key: &str| loose::label_value(labels, key);
    assert_eq!(found(r#"{otherdb="wrong",db="right"}"#, "db").as_deref(), Some("right"));
    assert_eq!(found(r#"{a="1",b="2"}"#, "b").as_deref(), Some("2"));
    assert_eq!(found(r#"{a="1", b="2"}"#, "b").as_deref(), Some("2"));
    assert_eq!(found(r#"{a="x,db=",db="right"}"#, "db").as_deref(), Some("right"));
    assert_eq!(found(r#"{a="x\",db=\"y",db="right"}"#, "db").as_deref(), Some("right"));
    assert_eq!(found(r#"{a="1"}"#, "b"), None);
    assert_eq!(found("", "b"), None);
    assert_eq!(found(r#"{a="1"#, "a"), None);
    assert_eq!(found(r#"{a="x\"y"}"#, "a").as_deref(), Some("x\\"));
    assert_eq!(found(r#"db="x""#, "db").as_deref(), Some("x"));
    assert_eq!(found(r#"db="x",b="2""#, "b").as_deref(), Some("2"));
}

#[test]
fn only_numbers_are_values() {
    for text in ["1", "+.5", "5.", "1e-3", "-2.5E+7", "NaN", "-inf", "Infinity", "0012"] {
        assert!(number::reads_as_real(text), "{text}");
        assert!(text.parse::<f64>().is_ok(), "{text}");
    }
    for text in ["", ".", "+", "1e", "e5", "nope", "0x1", "1_000", " 1", "--1", "infinit", "1.2.3"] {
        assert!(!number::reads_as_real(text), "{text}");
        assert!(text.parse::<f64>().is_err(), "{text}");
    }
    assert_eq!(
        exposition::parse("work_total nope").err().unwrap(),
        "metrics line 1: invalid float literal"
    );
    let passed_over = loose::parse("a nope\nb 2\nc 0x3\nd -inf");
    let keys: Vec<&str> = passed_over.iter().map(|s| s.key.as_str()).collect();
    assert_eq!(keys, ["b", "d"]);
}

#[test]
fn a_selection_is_refused_in_quotes() {
    let said = bench::validate_db_selection(&lenient(ONE_DB), "x\"y", &metrics::db_filter("x\"y"))
        .unwrap_err();
    assert!(said.starts_with("--db \"x\\\"y\" matches no database"), "{said}");
    let witness = bench::validate_witness_selection(
        &lenient(TWO_DBS),
        "aaa",
        "deadbeef",
        &metrics::db_filter("deadbeef"),
    )
    .unwrap_err();
    assert!(witness.contains(r#"measurable databases: ["aaa", "bbb"]"#), "{witness}");
}

#[test]
fn the_order_of_lines_and_labels_makes_no_difference_to_a_scrape() {
    let listed = |text: &str| {
        let mut v: Vec<(String, String)> = match exposition::parse(text) {
            Ok(samples) => samples.into_iter().map(|s| (s.key, s.value)).collect(),
            Err(said) => panic!("{said}"),
        };
        v.sort();
        v
    };
    let a = listed("m{a=\"1\",b=\"2\"} 5\n# note\nn 6");
    assert_eq!(a, listed("n 6\nm{b=\"2\",a=\"1\"} 5"));
    assert_eq!(a, listed("m{b=\"2\",a=\"1\"} 5 1700\n\nn 6 -3"));
    assert_eq!(a.len(), 2);
    for (key, value) in &a {
        assert_eq!(listed(&format!("{key} {value}")), vec![(key.clone(), value.clone())]);
    }
    assert!(exposition::parse("m{a=\"1\"} 5\nm{a=\"1\"} 6").is_err());
}

#[test]
fn parked_is_derived_from_the_live_scrape_not_hard_coded() {
    let dbf = metrics::db_filter("aaa");
    assert_eq!(
        bench::park_missing_families(&lenient(ONE_DB), &dbf),
        Vec::<String>::new()
    );
    let missing: Vec<&str> =
        ONE_DB.lines().filter(|l| !l.contains("reducer_wait_time")).collect();
    let parked = bench::park_missing_families(&lenient(&missing.join("\n")), &dbf);
    assert_eq!(parked.len(), 1, "{parked:?}");
    assert!(parked[0].contains("queue wait"), "{}", parked[0]);
    assert!(parked[0].contains("BY ABSENCE"), "{}", parked[0]);
}

fn args(words: &[&str]) -> Args {
    match Args::parse(&texts(words)) {
        Ok(a) => a,
        Err(_) => panic!("refused"),
    }
}

#[test]
fn args_parse_key_value_pairs_and_lists() {
    let a = args(&["--stages", "10,20", "--center", "-1.5,2,3", "--hold", "42"]);
    assert_eq!(a.list("stages", &[1]).unwrap(), vec![10, 20]);
    assert_eq!(a.list("missing", &[1]).unwrap(), vec![1]);
    assert_eq!(a.opt("center").as_deref(), Some("-1.5,2,3"));
    assert_eq!(a.num("hold", 60, u64::MAX).unwrap(), 42);
    assert_eq!(a.num("missing", 60, u64::MAX).unwrap(), 60);
    assert!(a.num("center", 0, u64::MAX).is_err());
    assert_eq!(a.str("missing", "dflt"), "dflt");
    assert_eq!(a.opt("missing"), None);
}

#[test]
fn arguments_that_are_no_pairs_are_refused() {
    assert!(matches!(Args::parse(&texts(&["--help"])), Err(ArgsStop::Help)));
    assert!(matches!(Args::parse(&texts(&["stray"])), Err(ArgsStop::Refused(_))));
    assert!(matches!(Args::parse(&texts(&["--hold"])), Err(ArgsStop::Refused(_))));
    let a = args(&["--hold", "256"]);
    assert!(a.num("hold", 0, 255).is_err());
    assert_eq!(a.num("hold", 0, 256).unwrap(), 256);
    assert!(args(&["--stages", "1,x"]).list("stages", &[1]).is_err());
}

#[test]
fn an_empty_filter_passes_every_series() {
    let s = read(SAMPLE);
    assert_eq!(
        s.matching("spacetime_num_txns_total", &texts(&[""])).len(),
        s.matching("spacetime_num_txns_total", &Vec::new()).len()
    );
    assert_eq!(s.matching("spacetime_num_txns_total", &texts(&[""])).len(), 3);
}

#[test]
fn labels_are_read_back_in_any_order() {
    let a = exposition::parse_labels(r#"{b="2",a="x\"y\\z\nw"}"#).ok().unwrap();
    let b = exposition::parse_labels(r#"{a="x\"y\\z\nw",b="2"}"#).ok().unwrap();
    assert_eq!(a.len(), 2);
    assert_eq!(a.get("a").unwrap(), "x\"y\\z\nw");
    assert_eq!(a.get("b").unwrap(), "2");
    assert_eq!(a.name_at(0), b.name_at(0));
    assert_eq!(a.value_at(1), b.value_at(1));
}
