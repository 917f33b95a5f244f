use swapview::collect_outcomes;
use swapview::filesize;
use swapview::parse_pid;
use swapview::record_for;
use swapview::total_usage;
use swapview::ProcessRecord;
use swapview::ScanResult;

fn rec(pid: u64, usage: i64, name: &str) -> ProcessRecord {
    ProcessRecord { pid, usage, name: name.to_string() }
}

fn rows(result: &ScanResult) -> Vec<(u64, i64)> {
    result.records.iter().map(|r| (r.pid, r.usage)).collect()
}

#[test]
fn numeric_entry_names_are_candidate_pids() {
    assert_eq!(parse_pid(&b"123".to_vec()), Some(123));
    assert_eq!(parse_pid(&b"+7".to_vec()), Some(7));
    assert_eq!(parse_pid(&b"007".to_vec()), Some(7));
    assert_eq!(parse_pid(&b"1".to_vec()), Some(1));
}

#[test]
fn other_entry_names_are_skipped() {
    assert_eq!(parse_pid(&b"self".to_vec()), None);
    assert_eq!(parse_pid(&b"".to_vec()), None);
    assert_eq!(parse_pid(&b"12a".to_vec()), None);
    assert_eq!(parse_pid(&b"-3".to_vec()), None);
    assert_eq!(parse_pid(&b"0".to_vec()), None);
    assert_eq!(parse_pid(&b"+".to_vec()), None);
    assert_eq!(parse_pid(&b"99999999999999999999".to_vec()), None);
}

#[test]
fn zero_usage_yields_no_record() {
    assert!(record_for(5, 0, "idle".to_string()).is_none());
    let r = record_for(5, 4096, "busy".to_string()).unwrap();
    assert_eq!((r.pid, r.usage, r.name.as_str()), (5, 4096, "busy"));
}

#[test]
fn zero_usage_never_reaches_the_report() {
    let outcomes = vec![
        record_for(1, 0, "a".to_string()),
        record_for(2, 2048, "b".to_string()),
        record_for(3, 0, "c".to_string()),
        record_for(4, 1024, "d".to_string()),
    ];
    let result = ScanResult::new(collect_outcomes(outcomes)).unwrap();
    assert_eq!(rows(&result), vec![(4, 1024), (2, 2048)]);
    assert!(result.records.iter().all(|r| r.usage != 0));
}

#[test]
fn collection_keeps_every_record_and_drops_absent_outcomes() {
    let outcomes = vec![None, Some(rec(1, 10, "a")), None, Some(rec(2, 20, "b")), None];
    let collected = collect_outcomes(outcomes);
    assert_eq!(collected.len(), 2);
    assert_eq!(collected[0].pid, 1);
    assert_eq!(collected[1].pid, 2);
}

#[test]
fn completion_order_does_not_change_the_report() {
    let first = vec![
        Some(rec(10, 300, "c")),
        None,
        Some(rec(11, 100, "a")),
        Some(rec(12, 200, "b")),
        None,
    ];
    let second = vec![
        None,
        Some(rec(12, 200, "b")),
        Some(rec(11, 100, "a")),
        None,
        Some(rec(10, 300, "c")),
    ];
    let one = ScanResult::new(collect_outcomes(first)).unwrap();
    let two = ScanResult::new(collect_outcomes(second)).unwrap();
    assert_eq!(rows(&one), rows(&two));
    assert_eq!(one.total, two.total);
    assert_eq!(rows(&one), vec![(11, 100), (12, 200), (10, 300)]);
}

#[test]
fn report_is_sorted_ascending_with_exact_total() {
    let records = vec![rec(1, 5000, "e"), rec(2, -3000, "n"), rec(3, 7000, "s"), rec(4, 7000, "t")];
    let result = ScanResult::new(records).unwrap();
    let usages: Vec<i64> = result.records.iter().map(|r| r.usage).collect();
    for w in usages.windows(2) {
        assert!(w[0] <= w[1]);
    }
    assert_eq!(result.total, 5000 - 3000 + 7000 + 7000);
    let sum: i64 = result.records.iter().map(|r| r.usage).sum();
    assert_eq!(result.total, sum);
}

#[test]
fn empty_scan_gives_empty_report_and_zero_total() {
    let result = ScanResult::new(Vec::new()).unwrap();
    assert!(result.records.is_empty());
    assert_eq!(result.total, 0);
    assert_eq!(filesize(result.total), "0B");
}

#[test]
fn denied_process_drops_only_itself() {
    let with_denied = vec![
        Some(rec(1, 100, "a")),
        None, // one process's rollup read was denied mid-scan
        Some(rec(3, 300, "c")),
    ];
    let without = vec![Some(rec(1, 100, "a")), Some(rec(3, 300, "c"))];
    let one = ScanResult::new(collect_outcomes(with_denied)).unwrap();
    let two = ScanResult::new(collect_outcomes(without)).unwrap();
    assert_eq!(rows(&one), rows(&two));
    assert_eq!(one.total, two.total);
}

#[test]
fn total_that_does_not_fit_is_reported() {
    assert_eq!(total_usage(&vec![rec(1, i64::MAX, "a"), rec(2, 1, "b")]), None);
    assert_eq!(total_usage(&vec![rec(1, i64::MAX, "a"), rec(2, -1, "b")]), Some(i64::MAX - 1));
    assert!(ScanResult::new(vec![rec(1, i64::MIN, "a"), rec(2, -1, "b")]).is_none());
}
