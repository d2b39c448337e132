use benostreamdb::memory::{rss_bytes, trim_heap, HeapTrimPolicy};

const STATUS: &str = "Name:\tbsdb\nVmPeak:\t 20000 kB\nVmRSS:\t   1234 kB\nThreads:\t8\n";

#[test]
fn trim_heap_is_callable_and_idempotent() {
    let _ = trim_heap();
    let _ = trim_heap();
}

#[test]
fn rss_bytes_reports_a_plausible_value() {
    let rss = rss_bytes(Some(STATUS)).expect("VmRSS should be readable");
    assert!(rss > 0, "rss should be positive, got {rss}");
    assert_eq!(rss, 1234 * 1024);
}

#[test]
fn rss_bytes_is_unknown_without_a_reading() {
    assert_eq!(rss_bytes(None), None);
    assert_eq!(rss_bytes(Some("Name:\tbsdb\n")), None);
}

#[test]
fn policy_only_trims_over_budget() {
    let mut q = HeapTrimPolicy::new(u64::MAX);
    let rss = rss_bytes(Some(STATUS));
    assert!(!q.maybe_trim(rss, rss));
    assert_eq!(q.trims(), 0);
    assert_eq!(q.released_bytes(), 0);
}

#[test]
fn policy_trims_when_over_budget() {
    let mut p = HeapTrimPolicy::new(0);
    let rss = rss_bytes(Some(STATUS));
    p.maybe_trim(rss, rss);
    assert_eq!(p.trims(), 1);
}

#[test]
fn policy_counts_what_a_trim_releases() {
    let mut p = HeapTrimPolicy::new(100);
    assert!(p.maybe_trim(Some(1000), Some(400)));
    assert!(p.maybe_trim(Some(500), Some(600)));
    assert!(!p.maybe_trim(Some(100), Some(0)));
    assert!(!p.maybe_trim(None, None));
    assert_eq!(p.trims(), 2);
    assert_eq!(p.released_bytes(), 600);
}

#[test]
fn policy_from_explicit_budget() {
    let p = HeapTrimPolicy::from_budget_or_env(Some(1024), None).expect("explicit budget");
    assert_eq!(p.budget_bytes(), 1024);
    let q = HeapTrimPolicy::from_budget_or_env(None, Some(7)).expect("budget of the environment");
    assert_eq!(q.budget_bytes(), 7);
    assert!(HeapTrimPolicy::from_budget_or_env(None, None).is_none());
}
