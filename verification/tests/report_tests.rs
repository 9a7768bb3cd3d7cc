//! Aggregation-engine tests: the report catalogue over hand-built record
//! sets, covering the documented edge-case policies.

use exec_log_analyzer::groups::{execution_comparison, mnemonic_summary, Verdict};
use exec_log_analyzer::model::{
    Digest, DurationVal, ExecutionRecord, FileEntry, Metrics,
};
use exec_log_analyzer::reports::{
    aggregate_phases, cache_hit_count, cache_performance, input_analysis, memory_analysis,
    output_analysis, phase_timings, queue_analysis, retries_failures, top_slowest,
};

fn empty_metrics() -> Metrics {
    Metrics {
        total_time: None,
        queue_time: None,
        setup_time: None,
        upload_time: None,
        execution_wall_time: None,
        fetch_time: None,
        retry_time: None,
        input_bytes: 0,
        input_files: 0,
        memory_estimate_bytes: 0,
        memory_bytes_limit: 0,
    }
}

fn secs(s: u64) -> Option<DurationVal> {
    Some(DurationVal { seconds: s, nanos: 0 })
}

fn rec(mnemonic: &[u8], total_seconds: u64, cache_hit: bool) -> ExecutionRecord {
    let mut r = ExecutionRecord::new_empty();
    r.mnemonic = mnemonic.to_vec();
    r.cache_hit = cache_hit;
    let mut m = empty_metrics();
    m.total_time = secs(total_seconds);
    r.metrics = Some(m);
    r
}

fn output_entry(size: u64) -> FileEntry {
    FileEntry {
        path: b"/out".to_vec(),
        digest: Some(Digest {
            hash: b"h".to_vec(),
            size_bytes: size,
            hash_function_name: b"SHA-256".to_vec(),
        }),
        symlink_target_path: Vec::new(),
        is_tool: false,
    }
}

#[test]
fn end_to_end_three_records() {
    // A: mnemonic "Cc", total 2.0 s, executed; B: "Cc", total 1.0 s,
    // cache hit; C: "Link", total 3.0 s, executed.
    let records = vec![
        rec(b"Cc", 2, false),
        rec(b"Cc", 1, true),
        rec(b"Link", 3, false),
    ];
    let top = top_slowest(&records, 1);
    assert_eq!(top.len(), 1);
    assert_eq!(top[0].index, 2);
    assert_eq!(top[0].total_nanos, 3_000_000_000);

    let summary = mnemonic_summary(&records);
    assert_eq!(summary.len(), 2);
    let cc = summary.iter().find(|row| row.mnemonic == b"Cc".to_vec()).unwrap();
    assert_eq!(cc.count, 2);
    assert_eq!(cc.cache_hits, 1);
    assert_eq!(cc.total_nanos, 3_000_000_000);
    // Average = total / count = 1.5 s.
    assert_eq!(cc.total_nanos / cc.count as u64, 1_500_000_000);
    // "Cc" (3.0 s summed) sorts before "Link" (3.0 s summed) by first
    // occurrence on the tie.
    assert_eq!(summary[0].mnemonic, b"Cc".to_vec());
    assert_eq!(summary[1].mnemonic, b"Link".to_vec());
}

#[test]
fn top_slowest_missing_metric_counts_as_zero() {
    let mut no_metrics = ExecutionRecord::new_empty();
    no_metrics.mnemonic = b"Bare".to_vec();
    let records = vec![no_metrics, rec(b"Cc", 1, false)];
    let top = top_slowest(&records, 2);
    assert_eq!(top[0].index, 1);
    assert_eq!(top[1].index, 0);
    assert_eq!(top[1].total_nanos, 0);
}

#[test]
fn cache_report_runs_twice_identically() {
    let mut hit = rec(b"Cc", 1, true);
    hit.runner = b"remote cache hit".to_vec();
    hit.actual_outputs = vec![output_entry(1_000_000)];
    hit.metrics.as_mut().unwrap().fetch_time = secs(2);
    let records = vec![hit, rec(b"Link", 3, false)];
    let first = cache_performance(&records);
    let second = cache_performance(&records);
    assert_eq!(first, second);
    assert_eq!(first.remote_cache_hits, 1);
    assert_eq!(first.total_bytes_downloaded, 1_000_000);
    assert_eq!(first.total_fetch_nanos, 2_000_000_000);
    assert!(first.rate_available);
}

#[test]
fn cache_rate_unavailable_below_epsilon() {
    let mut hit = rec(b"Cc", 1, true);
    hit.runner = b"remote cache hit".to_vec();
    hit.actual_outputs = vec![output_entry(500)];
    hit.metrics.as_mut().unwrap().fetch_time = Some(DurationVal { seconds: 0, nanos: 1_000_000 });
    let records = vec![hit];
    let report = cache_performance(&records);
    // Exactly the epsilon is still "negligible".
    assert!(!report.rate_available);
    assert_eq!(report.total_fetch_nanos, 1_000_000);
}

#[test]
fn memory_zero_limit_is_excluded() {
    let mut unlimited = rec(b"Cc", 1, false);
    {
        let m = unlimited.metrics.as_mut().unwrap();
        m.memory_estimate_bytes = u64::MAX;
        m.memory_bytes_limit = 0;
    }
    let mut limited = rec(b"Link", 1, false);
    {
        let m = limited.metrics.as_mut().unwrap();
        m.memory_estimate_bytes = 10;
        m.memory_bytes_limit = 100;
    }
    let records = vec![unlimited, limited];
    let rows = memory_analysis(&records, 10);
    assert_eq!(rows.len(), 1);
    assert_eq!(rows[0].index, 1);
    assert_eq!(rows[0].memory_estimate_bytes, 10);
    assert_eq!(rows[0].memory_bytes_limit, 100);
}

#[test]
fn memory_ranking_compares_ratios_exactly() {
    let mut a = rec(b"A", 1, false);
    {
        let m = a.metrics.as_mut().unwrap();
        m.memory_estimate_bytes = 1;
        m.memory_bytes_limit = 3;
    }
    let mut b = rec(b"B", 1, false);
    {
        let m = b.metrics.as_mut().unwrap();
        m.memory_estimate_bytes = 1;
        m.memory_bytes_limit = 2;
    }
    let records = vec![a, b];
    let rows = memory_analysis(&records, 2);
    // 1/2 > 1/3.
    assert_eq!(rows[0].index, 1);
    assert_eq!(rows[1].index, 0);
}

#[test]
fn comparison_excludes_remote_only_groups() {
    let mut remote_only = rec(b"Solo", 1, false);
    remote_only.runner = b"remote executor".to_vec();
    remote_only.metrics.as_mut().unwrap().execution_wall_time = secs(1);
    let mut both_remote = rec(b"Both", 1, false);
    both_remote.runner = b"remote executor".to_vec();
    both_remote.metrics.as_mut().unwrap().execution_wall_time = secs(4);
    let mut both_local = rec(b"Both", 1, false);
    both_local.runner = b"linux-sandbox".to_vec();
    both_local.metrics.as_mut().unwrap().execution_wall_time = secs(2);
    let records = vec![remote_only, both_remote, both_local];
    let rows = execution_comparison(&records);
    assert_eq!(rows.len(), 1);
    assert_eq!(rows[0].mnemonic, b"Both".to_vec());
    assert_eq!(rows[0].remote_count, 1);
    assert_eq!(rows[0].local_count, 1);
    assert_eq!(rows[0].remote_total_nanos, 4_000_000_000);
    assert_eq!(rows[0].local_total_nanos, 2_000_000_000);
    // Remote average 4 s versus local average 2 s: slower.
    assert_eq!(rows[0].verdict, Verdict::Slower);
}

#[test]
fn comparison_ignores_cache_hits_and_unmeasured_records() {
    let mut hit = rec(b"G", 1, true);
    hit.runner = b"remote executor".to_vec();
    hit.metrics.as_mut().unwrap().execution_wall_time = secs(9);
    let mut unmeasured = rec(b"G", 1, false);
    unmeasured.runner = b"linux-sandbox".to_vec();
    let records = vec![hit, unmeasured];
    let rows = execution_comparison(&records);
    assert!(rows.is_empty());
}

#[test]
fn comparison_faster_and_equal_verdicts() {
    let mut r1 = rec(b"F", 1, false);
    r1.runner = b"remote".to_vec();
    r1.metrics.as_mut().unwrap().execution_wall_time = secs(1);
    let mut l1 = rec(b"F", 1, false);
    l1.runner = b"local".to_vec();
    l1.metrics.as_mut().unwrap().execution_wall_time = secs(5);
    let mut r2 = rec(b"E", 1, false);
    r2.runner = b"remote".to_vec();
    r2.metrics.as_mut().unwrap().execution_wall_time = secs(3);
    let mut l2 = rec(b"E", 1, false);
    l2.runner = b"local".to_vec();
    l2.metrics.as_mut().unwrap().execution_wall_time = secs(3);
    let records = vec![r1, l1, r2, l2];
    let rows = execution_comparison(&records);
    assert_eq!(rows.len(), 2);
    // Rows come sorted by mnemonic ascending even though "F" was seen
    // first.
    assert_eq!(rows[0].mnemonic, b"E".to_vec());
    // Exactly equal averages carry no verdict.
    assert_eq!(rows[0].verdict, Verdict::Unavailable);
    assert_eq!(rows[1].mnemonic, b"F".to_vec());
    assert_eq!(rows[1].verdict, Verdict::Faster);
}

#[test]
fn comparison_rows_sort_by_mnemonic_ascending() {
    let mut groups = Vec::new();
    for name in [&b"Zeta"[..], &b"Alpha"[..], &b"Midway"[..]] {
        let mut r = rec(name, 1, false);
        r.runner = b"remote".to_vec();
        r.metrics.as_mut().unwrap().execution_wall_time = secs(2);
        let mut l = rec(name, 1, false);
        l.runner = b"local".to_vec();
        l.metrics.as_mut().unwrap().execution_wall_time = secs(1);
        groups.push(r);
        groups.push(l);
    }
    let rows = execution_comparison(&groups);
    assert_eq!(rows.len(), 3);
    assert_eq!(rows[0].mnemonic, b"Alpha".to_vec());
    assert_eq!(rows[1].mnemonic, b"Midway".to_vec());
    assert_eq!(rows[2].mnemonic, b"Zeta".to_vec());
    assert!(rows.iter().all(|row| row.verdict == Verdict::Slower));
}

#[test]
fn retries_filter_keeps_natural_order() {
    let mut failed = rec(b"A", 1, false);
    failed.status = b"FAILED".to_vec();
    failed.exit_code = 1;
    let clean = rec(b"B", 1, false);
    let mut retried = rec(b"C", 1, false);
    retried.metrics.as_mut().unwrap().retry_time = Some(DurationVal { seconds: 0, nanos: 7 });
    let records = vec![failed, clean, retried];
    let rows = retries_failures(&records);
    assert_eq!(rows.len(), 2);
    assert_eq!(rows[0].index, 0);
    assert_eq!(rows[1].index, 2);
    assert_eq!(rows[1].retry_nanos, 7);
}

#[test]
fn zero_retry_duration_is_not_problematic() {
    let mut r = rec(b"A", 1, false);
    r.metrics.as_mut().unwrap().retry_time = secs(0);
    let rows = retries_failures(&vec![r]);
    assert!(rows.is_empty());
}

#[test]
fn aggregate_phases_skips_cache_hits() {
    let mut executed = rec(b"A", 10, false);
    {
        let m = executed.metrics.as_mut().unwrap();
        m.queue_time = secs(1);
        m.execution_wall_time = secs(8);
        m.fetch_time = secs(1);
    }
    let mut hit = rec(b"B", 99, true);
    hit.metrics.as_mut().unwrap().queue_time = secs(50);
    let records = vec![executed, hit];
    let totals = aggregate_phases(&records);
    assert_eq!(totals.executed_count, 1);
    assert_eq!(totals.total_nanos, 10_000_000_000);
    assert_eq!(totals.queue_nanos, 1_000_000_000);
    assert_eq!(totals.execution_nanos, 8_000_000_000);
    assert_eq!(totals.fetch_nanos, 1_000_000_000);
    assert_eq!(totals.retry_nanos, 0);
}

#[test]
fn phase_timings_excludes_cache_hits_and_reports_overhead() {
    let mut executed = rec(b"A", 4, false);
    executed.metrics.as_mut().unwrap().execution_wall_time = secs(3);
    let hit = rec(b"B", 9, true);
    let records = vec![executed, hit];
    let rows = phase_timings(&records, 10);
    assert_eq!(rows.len(), 1);
    assert_eq!(rows[0].index, 0);
    // Overhead = (4 - 3) / 4 of the total.
    assert_eq!(rows[0].overhead_num, 1_000_000_000);
    assert_eq!(rows[0].overhead_den, 4_000_000_000);
}

#[test]
fn input_analysis_excludes_zero_sizes() {
    let mut big = rec(b"A", 1, false);
    {
        let m = big.metrics.as_mut().unwrap();
        m.input_bytes = 500;
        m.input_files = 3;
    }
    let zero = rec(b"B", 1, false);
    let mut small = rec(b"C", 1, false);
    small.metrics.as_mut().unwrap().input_bytes = 100;
    let records = vec![zero, small, big];
    let rows = input_analysis(&records, 10);
    assert_eq!(rows.len(), 2);
    assert_eq!(rows[0].index, 2);
    assert_eq!(rows[0].input_bytes, 500);
    assert_eq!(rows[0].input_files, 3);
    assert_eq!(rows[1].index, 1);
}

#[test]
fn output_analysis_sums_digest_sizes() {
    let mut two_outputs = rec(b"A", 1, false);
    two_outputs.actual_outputs = vec![output_entry(300), output_entry(400)];
    let mut digestless = rec(b"B", 1, false);
    digestless.actual_outputs = vec![FileEntry {
        path: b"/d".to_vec(),
        digest: None,
        symlink_target_path: Vec::new(),
        is_tool: false,
    }];
    let records = vec![two_outputs, digestless];
    let rows = output_analysis(&records, 10);
    assert_eq!(rows.len(), 1);
    assert_eq!(rows[0].index, 0);
    assert_eq!(rows[0].output_bytes, 700);
    assert_eq!(rows[0].output_files, 2);
}

#[test]
fn queue_analysis_ranks_by_queue_time() {
    let mut slow_queue = rec(b"A", 1, false);
    slow_queue.metrics.as_mut().unwrap().queue_time = secs(5);
    let mut fast_queue = rec(b"B", 9, false);
    fast_queue.metrics.as_mut().unwrap().queue_time = secs(1);
    let hit = rec(b"C", 9, true);
    let records = vec![fast_queue, slow_queue, hit];
    let rows = queue_analysis(&records, 10);
    assert_eq!(rows.len(), 2);
    assert_eq!(rows[0].index, 1);
    assert_eq!(rows[0].queue_nanos, 5_000_000_000);
    assert_eq!(rows[1].index, 0);
}

#[test]
fn ranking_ties_keep_earlier_records_first() {
    let records = vec![rec(b"A", 2, false), rec(b"B", 2, false), rec(b"C", 2, false)];
    let top = top_slowest(&records, 3);
    assert_eq!(top[0].index, 0);
    assert_eq!(top[1].index, 1);
    assert_eq!(top[2].index, 2);
}

#[test]
fn cache_hit_count_counts_the_flag() {
    let records = vec![
        rec(b"A", 1, true),
        rec(b"B", 1, false),
        rec(b"C", 1, true),
    ];
    assert_eq!(cache_hit_count(&records), 2);
    assert_eq!(cache_hit_count(&Vec::new()), 0);
}
