use update_files::report::{build_report, FileStamp, StampMap};

fn stamp(secs: i64, path: &str) -> FileStamp {
    FileStamp { secs, path: path.to_string() }
}

#[test]
fn empty_tree_reports_nothing() {
    let records: Vec<FileStamp> = Vec::new();
    let out = build_report(&records, 100);
    assert!(out.is_empty());
}

#[test]
fn recent_file_reported_once() {
    let records = vec![stamp(10, "a.txt"), stamp(5, "b.txt")];
    let out = build_report(&records, 6);
    assert_eq!(out.len(), 1);
    assert_eq!(out[0], (10, "a.txt".to_string()));
}

#[test]
fn stale_file_never_reported() {
    let records = vec![stamp(10, "a.txt"), stamp(5, "b.txt"), stamp(6, "c.txt")];
    let out = build_report(&records, 6);
    assert!(out.iter().all(|e| e.1 != "b.txt"));
    assert_eq!(out.len(), 2);
}

#[test]
fn report_sorted_ascending() {
    let records = vec![
        stamp(30, "d"),
        stamp(10, "a"),
        stamp(20, "c"),
        stamp(10, "b"),
    ];
    let out = build_report(&records, 0);
    let expected = vec![
        (10, "a".to_string()),
        (10, "b".to_string()),
        (20, "c".to_string()),
        (30, "d".to_string()),
    ];
    assert_eq!(out, expected);
    for w in out.windows(2) {
        assert!(w[0].0 <= w[1].0);
    }
}

#[test]
fn equal_stamps_stand_together() {
    let records = vec![stamp(7, "x"), stamp(3, "y"), stamp(7, "z")];
    let out = build_report(&records, 0);
    let expected = vec![
        (3, "y".to_string()),
        (7, "x".to_string()),
        (7, "z".to_string()),
    ];
    assert_eq!(out, expected);
}

#[test]
fn threshold_boundary_is_inclusive() {
    let records = vec![stamp(6, "on.txt"), stamp(5, "under.txt")];
    let out = build_report(&records, 6);
    assert_eq!(out, vec![(6, "on.txt".to_string())]);
}

#[test]
fn map_skips_old_records() {
    let mut map = StampMap::new();
    map.record_if_recent(5, "old.txt".to_string(), 10);
    let out = map.into_pairs();
    assert!(out.is_empty());
}

#[test]
fn map_keeps_discovery_order_under_one_stamp() {
    let mut map = StampMap::new();
    map.record_if_recent(4, "first".to_string(), 0);
    map.record_if_recent(4, "second".to_string(), 0);
    map.record_if_recent(2, "earlier".to_string(), 0);
    let out = map.into_pairs();
    let expected = vec![
        (2, "earlier".to_string()),
        (4, "first".to_string()),
        (4, "second".to_string()),
    ];
    assert_eq!(out, expected);
}

#[test]
fn negative_stamps_order_before_positive() {
    let records = vec![stamp(5, "late"), stamp(-5, "early")];
    let out = build_report(&records, -10);
    let expected = vec![(-5, "early".to_string()), (5, "late".to_string())];
    assert_eq!(out, expected);
}
