use perf_summary::compare::CompareError;
use perf_summary::summary::Summary;
use perf_summary::date::Date;
use perf_summary::load::{Commit, CommitData, Pass, Patch, Run};

fn pass(name: &str, time: u64) -> Pass {
    Pass { name: name.to_string(), time, mem: 0 }
}

fn patch(patch_id: &str, name: &str, run_name: &str, passes: Vec<Pass>) -> Patch {
    Patch {
        patch: patch_id.to_string(),
        name: name.to_string(),
        runs: vec![Run { name: run_name.to_string(), passes }],
    }
}

fn commit(sha: &str, day: i32, groups: Vec<(&str, Vec<Patch>)>) -> CommitData {
    CommitData {
        commit: Commit { sha: sha.to_string(), date: Date { day } },
        benchmarks: groups.into_iter().map(|(n, p)| (n.to_string(), p)).collect(),
    }
}

const JAN_1_2020: i32 = 737425;
const JAN_8_2020: i32 = 737432;

#[test]
fn changed_phase_gives_difference() {
    let a = commit("a", JAN_1_2020, vec![("foo", vec![patch("", "bar", "bar", vec![pass("link", 10)])])]);
    let b = commit("b", JAN_8_2020, vec![("foo", vec![patch("", "bar", "bar", vec![pass("link", 12)])])]);
    let c = Summary::compare_points(&a, &b).ok().unwrap();
    assert_eq!(c.a.sha, "a");
    assert_eq!(c.b.sha, "b");
    assert_eq!(*c.by_crate.get("bar").unwrap().get("link").unwrap(), 2);
    assert_eq!(c.by_crate.len(), 1);
}

#[test]
fn vanished_phase_gives_negated_time() {
    let a = commit("a", JAN_1_2020, vec![("foo", vec![patch("", "bar", "bar", vec![pass("link", 10)])])]);
    let b = commit("b", JAN_8_2020, vec![("foo", vec![patch("", "bar", "bar", vec![])])]);
    let c = Summary::compare_points(&a, &b).ok().unwrap();
    assert_eq!(*c.by_crate.get("bar").unwrap().get("link").unwrap(), -10);
}

#[test]
fn self_comparison_is_all_zero() {
    let a = commit(
        "a",
        JAN_1_2020,
        vec![
            ("foo", vec![patch("-fast", "x", "x", vec![pass("parse", 3), pass("link", 7)])]),
            ("baz", vec![patch("", "y", "y", vec![pass("codegen", 40)])]),
        ],
    );
    let c = Summary::compare_points(&a, &a).ok().unwrap();
    assert_eq!(*c.by_crate.get("x").unwrap().get("parse").unwrap(), 0);
    assert_eq!(*c.by_crate.get("x").unwrap().get("link").unwrap(), 0);
    assert_eq!(*c.by_crate.get("y").unwrap().get("codegen").unwrap(), 0);
}

#[test]
fn patch_count_mismatch_fails() {
    let a = commit("a", JAN_1_2020, vec![("foo", vec![patch("", "bar", "bar", vec![pass("link", 10)])])]);
    let b = commit(
        "b",
        JAN_8_2020,
        vec![("foo", vec![
            patch("", "bar", "bar", vec![pass("link", 10)]),
            patch("-opt", "bar", "bar", vec![pass("link", 10)]),
        ])],
    );
    assert_eq!(Summary::compare_points(&a, &b).err(), Some(CompareError::PatchCountMismatch));
}

#[test]
fn run_name_mismatch_fails() {
    let a = commit("a", JAN_1_2020, vec![("foo", vec![patch("", "bar", "bar", vec![pass("link", 10)])])]);
    let b = commit("b", JAN_8_2020, vec![("foo", vec![patch("", "bar", "qux", vec![pass("link", 10)])])]);
    assert_eq!(Summary::compare_points(&a, &b).err(), Some(CompareError::RunNameMismatch));
}

#[test]
fn first_mismatch_in_group_order_is_reported() {
    let a = commit(
        "a",
        JAN_1_2020,
        vec![
            ("one", vec![patch("", "bar", "bar", vec![])]),
            ("two", vec![patch("", "baz", "baz", vec![])]),
        ],
    );
    let b = commit(
        "b",
        JAN_8_2020,
        vec![
            ("two", vec![]),
            ("one", vec![patch("", "bar", "other", vec![])]),
        ],
    );
    assert_eq!(Summary::compare_points(&a, &b).err(), Some(CompareError::RunNameMismatch));
}

#[test]
fn group_missing_from_later_commit_is_skipped() {
    let a = commit(
        "a",
        JAN_1_2020,
        vec![
            ("foo", vec![patch("", "bar", "bar", vec![pass("link", 10)])]),
            ("gone", vec![patch("", "old", "old", vec![pass("link", 5)])]),
        ],
    );
    let b = commit("b", JAN_8_2020, vec![("foo", vec![patch("", "bar", "bar", vec![pass("link", 15)])])]);
    let c = Summary::compare_points(&a, &b).ok().unwrap();
    assert_eq!(*c.by_crate.get("bar").unwrap().get("link").unwrap(), 5);
    assert!(c.by_crate.get("old").is_none());
    assert_eq!(c.by_crate.len(), 1);
}

#[test]
fn later_delta_for_same_names_wins() {
    let a = commit(
        "a",
        JAN_1_2020,
        vec![("foo", vec![
            patch("", "bar", "shared", vec![pass("link", 10)]),
            patch("-2", "bar", "shared", vec![pass("link", 20)]),
        ])],
    );
    let b = commit(
        "b",
        JAN_8_2020,
        vec![("foo", vec![
            patch("", "bar", "shared", vec![pass("link", 11)]),
            patch("-2", "bar", "shared", vec![pass("link", 25)]),
        ])],
    );
    let c = Summary::compare_points(&a, &b).ok().unwrap();
    assert_eq!(*c.by_crate.get("shared").unwrap().get("link").unwrap(), 5);
}

#[test]
fn phase_lookup_takes_first_match() {
    let run = Run { name: "r".to_string(), passes: vec![pass("link", 1), pass("link", 2)] };
    assert_eq!(run.get_pass(&"link".to_string()).unwrap().time, 1);
    assert!(run.get_pass(&"parse".to_string()).is_none());
    let a = commit("a", JAN_1_2020, vec![("g", vec![patch("", "r", "r", vec![pass("link", 5)])])]);
    let b = commit("b", JAN_8_2020, vec![("g", vec![patch("", "r", "r", vec![pass("link", 1), pass("link", 2)])])]);
    let c = Summary::compare_points(&a, &b).ok().unwrap();
    assert_eq!(*c.by_crate.get("r").unwrap().get("link").unwrap(), -4);
}

#[test]
fn full_name_joins_name_and_patch() {
    let p = patch("-opt", "syntex", "syntex", vec![]);
    assert_eq!(p.full_name(), "syntex-opt");
    assert_eq!(p.run().name, "syntex");
}

#[test]
fn patches_come_group_by_group() {
    let a = commit(
        "a",
        JAN_1_2020,
        vec![
            ("g1", vec![patch("1", "a", "a", vec![]), patch("2", "a", "a", vec![])]),
            ("g2", vec![patch("3", "b", "b", vec![])]),
        ],
    );
    let names: Vec<String> = a.patches().iter().map(|p| p.full_name()).collect();
    assert_eq!(names, vec!["a1".to_string(), "a2".to_string(), "b3".to_string()]);
}

#[test]
fn commits_order_by_date_alone() {
    let early = Commit { sha: "zzz".to_string(), date: Date { day: JAN_1_2020 } };
    let late = Commit { sha: "aaa".to_string(), date: Date { day: JAN_8_2020 } };
    let same_day = Commit { sha: "other".to_string(), date: Date { day: JAN_1_2020 } };
    assert_eq!(early.cmp(&late), std::cmp::Ordering::Less);
    assert_eq!(late.cmp(&early), std::cmp::Ordering::Greater);
    assert_eq!(early.cmp(&same_day), std::cmp::Ordering::Equal);
    assert_eq!(early.partial_cmp(&late), Some(std::cmp::Ordering::Less));
}
