//! Producer, worker result shaping and collector behaviour on concrete
//! inputs.

use kyanite::collector::{Collector, result_collector};
use kyanite::jobs::{
    Producer, JobResult, completed_result, dry_run_result, format_result, launch_failure_result,
    produce_jobs, Emission,
};
use kyanite::text::{strip_line_ending, usize_to_string};

fn result(id: usize) -> JobResult {
    JobResult { id, output: format!("out-{}", id), error: None }
}

#[test]
fn producer_assigns_consecutive_ids_and_skips_blanks() {
    let lines = vec![
        "alpha".to_string(),
        "".to_string(),
        "   ".to_string(),
        "beta".to_string(),
        "\t".to_string(),
        "gamma".to_string(),
    ];
    let jobs = produce_jobs(lines, 0);
    assert_eq!(jobs.len(), 3);
    assert_eq!(jobs[0].id, 0);
    assert_eq!(jobs[0].line, "alpha");
    assert_eq!(jobs[1].id, 1);
    assert_eq!(jobs[1].line, "beta");
    assert_eq!(jobs[2].id, 2);
    assert_eq!(jobs[2].line, "gamma");
}

#[test]
fn max_job_count_caps_dispatch_and_collection() {
    let lines = vec![
        "a".to_string(),
        "b".to_string(),
        "c".to_string(),
        "d".to_string(),
        "e".to_string(),
    ];
    let jobs = produce_jobs(lines, 2);
    assert_eq!(jobs.len(), 2);
    // simulate workers finishing in reverse order, then collect in order
    let mut results: Vec<JobResult> = jobs
        .iter()
        .map(|j| dry_run_result(j.id, &format!("echo {}", j.line)))
        .collect();
    results.reverse();
    let emitted = result_collector(results, true);
    assert_eq!(emitted.len(), 2);
    assert_eq!(emitted[0].id, 0);
    assert_eq!(emitted[1].id, 1);
}

#[test]
fn producer_streaming_respects_cap() {
    let mut p = Producer::new(1);
    assert!(p.wants_more());
    let first = p.offer_line("one".to_string());
    assert!(first.is_some());
    assert!(!p.wants_more());
    let second = p.offer_line("two".to_string());
    assert!(second.is_none());
}

#[test]
fn keep_order_reassembles_any_interleaving() {
    let arrivals: Vec<JobResult> = [3usize, 0, 2, 4, 1].iter().map(|&i| result(i)).collect();
    let emitted = result_collector(arrivals, true);
    let ids: Vec<usize> = emitted.iter().map(|r| r.id).collect();
    assert_eq!(ids, vec![0, 1, 2, 3, 4]);
    assert_eq!(emitted[2].output, "out-2");
}

#[test]
fn arrival_order_mode_passes_straight_through() {
    let arrivals: Vec<JobResult> = [2usize, 0, 1].iter().map(|&i| result(i)).collect();
    let emitted = result_collector(arrivals, false);
    let ids: Vec<usize> = emitted.iter().map(|r| r.id).collect();
    assert_eq!(ids, vec![2, 0, 1]);
}

#[test]
fn collector_releases_runs_as_they_complete() {
    let mut c = Collector::new();
    let mut out = Vec::new();
    c.accept(result(2), &mut out);
    assert!(out.is_empty());
    c.accept(result(0), &mut out);
    assert_eq!(out.len(), 1);
    assert_eq!(out[0].id, 0);
    c.accept(result(1), &mut out);
    assert_eq!(out.len(), 3);
    let ids: Vec<usize> = out.iter().map(|r| r.id).collect();
    assert_eq!(ids, vec![0, 1, 2]);
}

#[test]
fn collector_flush_releases_leftovers_in_ascending_order() {
    let mut c = Collector::new();
    let mut out = Vec::new();
    c.accept(result(5), &mut out);
    c.accept(result(3), &mut out);
    assert!(out.is_empty());
    c.flush(&mut out);
    let ids: Vec<usize> = out.iter().map(|r| r.id).collect();
    assert_eq!(ids, vec![3, 5]);
}

#[test]
fn dry_run_previews_command() {
    let r = dry_run_result(7, "echo first");
    assert_eq!(r.id, 7);
    assert_eq!(r.output, "[+] echo first");
    assert!(r.error.is_none());
}

#[test]
fn completed_result_combines_and_trims_output() {
    let r = completed_result(1, "out\n", "", true, "exit status: 0");
    assert_eq!(r.output, "out");
    assert!(r.error.is_none());

    let r = completed_result(2, "", "err\n", true, "exit status: 0");
    assert_eq!(r.output, "err");

    let r = completed_result(3, "out\n", "err\n", true, "exit status: 0");
    assert_eq!(r.output, "outerr");
}

#[test]
fn completed_result_records_nonzero_exit() {
    let r = completed_result(4, "partial\n", "", false, "exit status: 2");
    assert_eq!(r.output, "partial");
    assert_eq!(r.error.as_deref(), Some("Command failed with exit code: exit status: 2"));
}

#[test]
fn launch_failure_keeps_no_output() {
    let r = launch_failure_result(9, "no such shell");
    assert_eq!(r.output, "");
    assert_eq!(r.error.as_deref(), Some("Failed to execute command: no such shell"));
}

#[test]
fn format_result_routes_errors_with_output() {
    let r = JobResult {
        id: 12,
        output: "partial".to_string(),
        error: Some("boom".to_string()),
    };
    match format_result(&r, false) {
        Emission::Errors { lines } => {
            assert_eq!(lines, vec!["Error in job 12: boom".to_string(), "Output: partial".to_string()]);
        }
        _ => panic!("expected error emission"),
    }
}

#[test]
fn format_result_routes_errors_without_output() {
    let r = JobResult { id: 3, output: String::new(), error: Some("boom".to_string()) };
    match format_result(&r, true) {
        Emission::Errors { lines } => {
            assert_eq!(lines, vec!["Error in job 3: boom".to_string()]);
        }
        _ => panic!("expected error emission"),
    }
}

#[test]
fn format_result_plain_and_verbose_output() {
    let r = JobResult { id: 7, output: "hi".to_string(), error: None };
    match format_result(&r, false) {
        Emission::Output { line } => assert_eq!(line, "hi"),
        _ => panic!("expected output emission"),
    }
    match format_result(&r, true) {
        Emission::Output { line } => assert_eq!(line, "[Job 7] hi"),
        _ => panic!("expected output emission"),
    }
}

#[test]
fn format_result_silent_on_empty_success() {
    let r = JobResult { id: 0, output: String::new(), error: None };
    assert!(matches!(format_result(&r, true), Emission::Silent));
}

#[test]
fn strip_line_ending_variants() {
    assert_eq!(strip_line_ending("abc\n"), "abc");
    assert_eq!(strip_line_ending("abc\r\n"), "abc");
    assert_eq!(strip_line_ending("abc\r"), "abc\r");
    assert_eq!(strip_line_ending("abc"), "abc");
    assert_eq!(strip_line_ending("\n"), "");
}

#[test]
fn decimal_rendering() {
    assert_eq!(usize_to_string(0), "0");
    assert_eq!(usize_to_string(10), "10");
    assert_eq!(usize_to_string(90210), "90210");
}
