use perf_summary::date::Date;
use perf_summary::load::{Commit, CommitData, Pass, Patch, Run};
use perf_summary::store::{data_range, InputData, LoadError};
use perf_summary::summary::{Summary, SummaryError};

fn record(sha: &str, day: i32, time: u64) -> CommitData {
    let run = Run {
        name: "bar".to_string(),
        passes: vec![Pass { name: "link".to_string(), time, mem: 1 }],
    };
    let patch = Patch { patch: "".to_string(), name: "bar".to_string(), runs: vec![run] };
    CommitData {
        commit: Commit { sha: sha.to_string(), date: Date { day } },
        benchmarks: vec![("foo".to_string(), vec![patch])],
    }
}

fn link_delta(by_crate: &perf_summary::compare::Comparison) -> i128 {
    *by_crate.by_crate.get("bar").unwrap().get("link").unwrap()
}

// Monday 2019-12-30.
const MONDAY: i32 = 737423;

#[test]
fn start_of_week_is_the_monday() {
    assert_eq!(Date { day: 737425 }.start_of_week(), 737423);
    assert_eq!(Date { day: 737423 }.start_of_week(), 737423);
    assert_eq!(Date { day: 737429 }.start_of_week(), 737423);
    assert_eq!(Date { day: 737430 }.start_of_week(), 737430);
    assert_eq!(Date { day: 1 }.start_of_week(), 1);
    assert_eq!(Date { day: 0 }.start_of_week(), -6);
    assert_eq!(Date { day: i32::MIN }.start_of_week() <= i32::MIN as i64, true);
}

#[test]
fn empty_batch_fails() {
    assert_eq!(InputData::new(vec![]).err(), Some(LoadError::NoDates));
}

#[test]
fn last_date_is_the_latest() {
    let d = InputData::new(vec![record("b", MONDAY + 20, 2), record("a", MONDAY, 1), record("c", MONDAY + 9, 3)])
        .ok()
        .unwrap();
    assert_eq!(d.last_date, Date { day: MONDAY + 20 });
    let days: Vec<i32> = d.data.iter().map(|c| c.commit.date.day).collect();
    assert_eq!(days, vec![MONDAY, MONDAY + 9, MONDAY + 20]);
    assert!(d.crate_list.contains("bar"));
    assert_eq!(d.crate_list.len(), 1);
    assert!(d.phase_list.contains("link"));
    assert_eq!(d.phase_list.len(), 1);
}

#[test]
fn same_date_keeps_the_later_record() {
    let d = InputData::new(vec![record("first", MONDAY, 1), record("second", MONDAY, 2)]).ok().unwrap();
    assert_eq!(d.data.len(), 1);
    assert_eq!(d.data[0].commit.sha, "second");
}

#[test]
fn patch_without_single_run_is_rejected() {
    let mut bad = record("a", MONDAY, 1);
    bad.benchmarks[0].1[0].runs.clear();
    assert_eq!(InputData::new(vec![record("b", MONDAY + 1, 1), bad]).err(), Some(LoadError::MalformedPatch));
}

#[test]
fn inconsistent_records_fail_the_summary() {
    let mut other = record("b", MONDAY + 1, 1);
    other.benchmarks[0].1[0].runs[0].name = "renamed".to_string();
    let r = InputData::new(vec![record("a", MONDAY, 1), other]);
    assert_eq!(
        r.err(),
        Some(LoadError::Summary(SummaryError::Compare(perf_summary::compare::CompareError::RunNameMismatch)))
    );
}

#[test]
fn range_is_half_open() {
    let data = vec![record("a", 10, 1), record("b", 12, 1), record("c", 14, 1), record("d", 17, 1)];
    assert_eq!(data_range(&data, 12, 17), (1, 3));
    assert_eq!(data_range(&data, 11, 18), (1, 4));
    assert_eq!(data_range(&data, 0, 10), (0, 0));
    assert_eq!(data_range(&data, 18, 30), (4, 4));
    assert_eq!(data_range(&data, 14, 12), (2, 2));
    let (lo, hi) = data_range(&data, 12, 17);
    let again: Vec<CommitData> = data.into_iter().skip(lo).take(hi - lo).collect();
    assert_eq!(data_range(&again, 12, 17), (0, 2));
}

#[test]
fn weekly_commits_give_total_and_no_weeks() {
    let start = MONDAY + 2;
    let records: Vec<CommitData> =
        (0..13).map(|w| record(&format!("c{}", w), start + 7 * w as i32, 100 + w as u64)).collect();
    let d = InputData::new(records).ok().unwrap();
    assert_eq!(d.summary.total.a.sha, "c0");
    assert_eq!(d.summary.total.b.sha, "c12");
    assert_eq!(link_delta(&d.summary.total), 12);
    for c in d.summary.comparisons.iter() {
        assert_eq!(link_delta(c).abs(), 1);
    }
    assert_eq!(d.summary.comparisons.len(), 0);
}

#[test]
fn week_with_two_records_is_compared() {
    // Two records in the latest week, one in the week before, two three
    // weeks back.
    let data = vec![
        record("w3a", MONDAY - 21, 1),
        record("w3b", MONDAY - 16, 4),
        record("w1", MONDAY - 5, 9),
        record("w0a", MONDAY, 10),
        record("w0b", MONDAY + 6, 13),
    ];
    let s = Summary::new(&data, Date { day: MONDAY + 6 }).ok().unwrap();
    assert_eq!(s.comparisons.len(), 2);
    assert_eq!(s.comparisons[0].a.sha, "w0a");
    assert_eq!(s.comparisons[0].b.sha, "w0b");
    assert_eq!(link_delta(&s.comparisons[0]), 3);
    assert_eq!(s.comparisons[1].a.sha, "w3a");
    assert_eq!(s.comparisons[1].b.sha, "w3b");
    assert_eq!(link_delta(&s.comparisons[1]), 3);
    assert_eq!(s.total.a.sha, "w3a");
    assert_eq!(s.total.b.sha, "w0b");
    assert_eq!(link_delta(&s.total), 12);
}

#[test]
fn weeks_are_bounded_by_configuration() {
    let data: Vec<CommitData> =
        (0..60).map(|i| record(&format!("c{}", i), MONDAY - 200 + 4 * i as i32, i as u64)).collect();
    let last = Date { day: MONDAY - 200 + 4 * 59 };
    let s = Summary::new(&data, last).ok().unwrap();
    assert!(s.comparisons.len() <= 12);
    let s3 = Summary::for_weeks(&data, last, 3).ok().unwrap();
    assert!(s3.comparisons.len() <= 3);
}

#[test]
fn total_window_needs_a_record() {
    let data = vec![record("a", MONDAY, 1)];
    assert_eq!(Summary::new(&data, Date { day: MONDAY + 400 }).err(), Some(SummaryError::NoRecordsInRange));
    let s = Summary::new(&data, Date { day: MONDAY }).ok().unwrap();
    assert_eq!(s.comparisons.len(), 0);
    assert_eq!(link_delta(&s.total), 0);
}
