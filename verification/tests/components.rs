use jaso::executor::{exit_code, Counters, RenameOutcome};
use jaso::normalizer::decide;
use jaso::pool::PermitPool;
use jaso::resolver::resolve;

const CAFE_NFC: &str = "caf\u{e9}";
const CAFE_NFD: &str = "cafe\u{301}";

#[test]
fn decide_composes_decomposed_name() {
    let d = decide(CAFE_NFD);
    assert!(d.needs_rename);
    assert_eq!(d.name, CAFE_NFD);
    assert_eq!(d.candidate, CAFE_NFC);
}

#[test]
fn decide_leaves_normalized_name_alone() {
    let d = decide(CAFE_NFC);
    assert!(!d.needs_rename);
    assert_eq!(d.candidate, CAFE_NFC);
    let ascii = decide("report.txt");
    assert!(!ascii.needs_rename);
    assert_eq!(ascii.candidate, "report.txt");
}

#[test]
fn decide_twice_is_idempotent() {
    let first = decide(CAFE_NFD);
    let again = decide(&first.candidate);
    assert!(!again.needs_rename);
    assert_eq!(again.candidate, first.candidate);
}

#[test]
fn resolve_renormalizes_directory_segment() {
    let path = format!("{CAFE_NFD}/{CAFE_NFD}");
    let rp = resolve(&path).unwrap();
    assert!(rp.needs_rename);
    assert_eq!(rp.old_path, format!("{CAFE_NFC}/{CAFE_NFD}"));
    assert_eq!(rp.new_path, format!("{CAFE_NFC}/{CAFE_NFC}"));
}

#[test]
fn resolve_without_directory() {
    let rp = resolve(CAFE_NFD).unwrap();
    assert!(rp.needs_rename);
    assert_eq!(rp.old_path, CAFE_NFD);
    assert_eq!(rp.new_path, CAFE_NFC);
}

#[test]
fn resolve_normalized_leaf_needs_nothing() {
    let rp = resolve("a/b/report.txt").unwrap();
    assert!(!rp.needs_rename);
    assert_eq!(rp.old_path, "a/b/report.txt");
    assert_eq!(rp.new_path, "a/b/report.txt");
}

#[test]
fn resolve_discards_abnormal_leaves() {
    assert!(resolve("").is_none());
    assert!(resolve("/").is_none());
    assert!(resolve("a/").is_none());
    assert!(resolve(".").is_none());
    assert!(resolve("a/..").is_none());
    assert!(resolve("..").is_none());
}

#[test]
fn counters_classify_outcomes() {
    let mut c = Counters::new();
    c.record(&RenameOutcome::Succeeded);
    c.record(&RenameOutcome::DryRunReported);
    c.record(&RenameOutcome::Skipped);
    c.record(&RenameOutcome::Failed("destination already exists".to_string()));
    assert_eq!(c.success, 2);
    assert_eq!(c.error, 1);
    assert_eq!(exit_code(&c), 1);
    let clean = Counters::new();
    assert_eq!(exit_code(&clean), 0);
}

#[test]
fn permit_pool_applies_back_pressure() {
    let mut p = PermitPool::new(2);
    assert_eq!(p.capacity(), 2);
    assert!(p.try_acquire());
    assert!(p.try_acquire());
    assert!(!p.try_acquire());
    assert_eq!(p.available(), 0);
    p.release();
    assert!(p.try_acquire());
    assert_eq!(p.available(), 0);
}
