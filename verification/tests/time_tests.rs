use update_files::localtime::{
    current_threshold, render_line, render_report, stamp_from_epoch, threshold_secs,
    PLACEABLE_MAX_SECS,
};
use update_files::report::{build_report, FileStamp};
use chrono::TimeZone;

#[test]
fn threshold_is_now_minus_duration() {
    assert_eq!(threshold_secs(1000, 400), 600);
    assert_eq!(threshold_secs(0, 31_536_000), -31_536_000);
}

#[test]
fn zero_duration_threshold_is_now() {
    assert_eq!(threshold_secs(123_456, 0), 123_456);
    let (now, threshold) = current_threshold(0).expect("zero duration never overflows");
    assert_eq!(now, threshold);
}

#[test]
fn current_threshold_subtracts_duration() {
    let (now, threshold) = current_threshold(3600).expect("an hour never overflows");
    assert_eq!(threshold, now - 3600);
    assert!(now >= 0);
}

#[test]
fn default_duration_always_gets_a_threshold() {
    assert!(current_threshold(31_536_000).is_some());
}

#[test]
fn zero_duration_keeps_only_files_at_or_after_now() {
    let now = 1_000_000;
    let records = vec![
        FileStamp { secs: now - 1, path: "past".to_string() },
        FileStamp { secs: now, path: "at".to_string() },
        FileStamp { secs: now + 5, path: "ahead".to_string() },
    ];
    let out = build_report(&records, threshold_secs(now, 0));
    let expected = vec![(now, "at".to_string()), (now + 5, "ahead".to_string())];
    assert_eq!(out, expected);
}

#[test]
fn stamp_from_epoch_keeps_small_values() {
    assert_eq!(stamp_from_epoch(5), 5);
    assert_eq!(stamp_from_epoch(0), 0);
    assert_eq!(stamp_from_epoch(i64::MAX as u64), i64::MAX);
}

#[test]
fn stamp_from_epoch_truncates() {
    assert_eq!(stamp_from_epoch(u64::MAX), -1);
}

#[test]
fn rendered_line_ends_with_the_path() {
    let line = render_line(0, "foo.txt").expect("the epoch is a placeable stamp");
    assert!(line.ends_with(" foo.txt"));
    assert!(line.len() > " foo.txt".len());
}

#[test]
fn every_placeable_stamp_gets_a_line() {
    assert!(render_line(0, "a").is_some());
    assert!(render_line(PLACEABLE_MAX_SECS, "a").is_some());
    assert!(render_line(i64::MAX, "a").is_none());
}

#[test]
fn rendered_stamp_agrees_with_chrono() {
    let line = render_line(1_431_648_000, "p").expect("a placeable stamp");
    let dt = chrono::Local.timestamp_opt(1_431_648_000, 0).unwrap();
    assert_eq!(line, format!("{} p", dt));
}

#[test]
fn render_report_writes_one_line_per_pair() {
    let pairs = vec![(0, "a".to_string()), (60, "b".to_string())];
    let lines = render_report(&pairs);
    assert_eq!(lines.len(), 2);
    for (line, pair) in lines.iter().zip(pairs.iter()) {
        let line = line.as_ref().expect("small stamps are placeable");
        assert!(line.ends_with(&format!(" {}", pair.1)));
    }
}
