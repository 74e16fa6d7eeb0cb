use test_runner::diff::{discover_diffs, DiffKind, PhaseDiff, TestDiff};
use test_runner::names::{extract_phase, is_non_comparable, test_name_from_source};
use test_runner::store::{DirSnapshot, FileStore};

fn store(files: &[(&str, &str)]) -> FileStore {
    let mut s = FileStore::new();
    for (name, content) in files {
        s.put(name.to_string(), content.to_string());
    }
    s
}

fn snapshot(sources: &[&str], out: Option<&[(&str, &str)]>, golden: &[(&str, &str)]) -> DirSnapshot {
    DirSnapshot {
        dir: "test/run".to_string(),
        sources: sources.iter().map(|s| s.to_string()).collect(),
        out: out.map(store),
        golden: store(golden),
    }
}

#[test]
fn changed_phase_is_reported_with_both_texts() {
    let s = snapshot(&["foo.mo"], Some(&[("foo.tc.ret", "1")]), &[("foo.tc.ret.ok", "0")]);
    let diffs = discover_diffs(&s, None);
    assert_eq!(
        diffs,
        vec![TestDiff {
            test_name: "foo".to_string(),
            source_file: "foo.mo".to_string(),
            dir: "test/run".to_string(),
            phase_diffs: vec![PhaseDiff {
                phase: "tc.ret".to_string(),
                kind: DiffKind::Changed { expected: "0".to_string(), actual: "1".to_string() },
            }],
        }]
    );
}

#[test]
fn artifact_without_golden_file_is_new() {
    let s = snapshot(&["bar.drun"], Some(&[("bar.drun-run", "ok\n")]), &[]);
    let diffs = discover_diffs(&s, None);
    assert_eq!(diffs.len(), 1);
    assert_eq!(diffs[0].test_name, "bar");
    assert_eq!(diffs[0].source_file, "bar.drun");
    assert_eq!(
        diffs[0].phase_diffs,
        vec![PhaseDiff {
            phase: "drun-run".to_string(),
            kind: DiffKind::New { content: "ok\n".to_string() },
        }]
    );
}

#[test]
fn non_comparable_artifact_gives_no_diff() {
    let s = snapshot(&["baz.mo"], Some(&[("baz.wasm", "\u{0}asm binary")]), &[]);
    assert_eq!(discover_diffs(&s, None), vec![]);
}

#[test]
fn names_follow_the_conventions() {
    assert!(is_non_comparable("a.wasm"));
    assert!(is_non_comparable("a.wat"));
    assert!(is_non_comparable("a.linked.wat"));
    assert!(is_non_comparable("a.mo.mangled"));
    assert!(is_non_comparable("a_done"));
    assert!(is_non_comparable("a.wasm.map"));
    assert!(!is_non_comparable("a.tc"));
    assert!(!is_non_comparable("wasm"));
    assert_eq!(test_name_from_source("foo.mo"), Some("foo"));
    assert_eq!(test_name_from_source("foo.drun"), Some("foo"));
    assert_eq!(test_name_from_source("foo.mo.drun"), Some("foo.mo"));
    assert_eq!(test_name_from_source("foo.txt"), None);
    assert_eq!(test_name_from_source(".mo"), Some(""));
    assert_eq!(extract_phase("foo", "foo.tc.ret"), Some("tc.ret".to_string()));
    assert_eq!(extract_phase("foo", "foo."), Some("".to_string()));
    assert_eq!(extract_phase("foo", "foobar.tc"), None);
    assert_eq!(extract_phase("foo", "fo"), None);
    assert_eq!(extract_phase("héllo", "héllo.run"), Some("run".to_string()));
}

#[test]
fn no_artifact_store_gives_no_diff() {
    let s = snapshot(&["foo.mo"], None, &[("foo.tc.ok", "0")]);
    assert_eq!(discover_diffs(&s, None), vec![]);
}

#[test]
fn equal_golden_file_and_empty_new_artifact_give_no_diff() {
    let s = snapshot(
        &["foo.mo"],
        Some(&[("foo.tc", "same"), ("foo.run", "")]),
        &[("foo.tc.ok", "same")],
    );
    assert_eq!(discover_diffs(&s, None), vec![]);
}

#[test]
fn empty_artifact_with_golden_file_is_changed() {
    let s = snapshot(&["foo.mo"], Some(&[("foo.tc", "")]), &[("foo.tc.ok", "old")]);
    let diffs = discover_diffs(&s, None);
    assert_eq!(
        diffs[0].phase_diffs,
        vec![PhaseDiff {
            phase: "tc".to_string(),
            kind: DiffKind::Changed { expected: "old".to_string(), actual: "".to_string() },
        }]
    );
}

#[test]
fn diffs_ascend_by_test_and_phases_ascend_within() {
    let s = snapshot(
        &["zeta.mo", "alpha.drun", "notes.txt", "mid.mo"],
        Some(&[
            ("zeta.tc", "z"),
            ("mid.run", "m2"),
            ("alpha.wasm", "bin"),
            ("mid.comp", "m1"),
            ("alpha.drun-run", "a"),
            ("mid.tc", "m3"),
            ("notes.tc", "n"),
        ]),
        &[],
    );
    let diffs = discover_diffs(&s, None);
    let names: Vec<&str> = diffs.iter().map(|d| d.test_name.as_str()).collect();
    assert_eq!(names, vec!["alpha", "mid", "zeta"]);
    let phases: Vec<&str> = diffs[1].phase_diffs.iter().map(|p| p.phase.as_str()).collect();
    assert_eq!(phases, vec!["comp", "run", "tc"]);
    for d in &diffs {
        assert!(!d.phase_diffs.is_empty());
    }
}

#[test]
fn every_new_artifact_shows_exactly_once_without_golden_store() {
    let s = snapshot(
        &["a.mo", "b.mo"],
        Some(&[("a.tc", "1"), ("a.run", "2"), ("b.tc", "3"), ("b.run", ""), ("b.wat", "x")]),
        &[],
    );
    let diffs = discover_diffs(&s, None);
    assert_eq!(diffs.len(), 2);
    let count = |test: usize, phase: &str, content: &str| {
        diffs[test]
            .phase_diffs
            .iter()
            .filter(|p| {
                p.phase == phase && p.kind == DiffKind::New { content: content.to_string() }
            })
            .count()
    };
    assert_eq!(count(0, "tc", "1"), 1);
    assert_eq!(count(0, "run", "2"), 1);
    assert_eq!(count(1, "tc", "3"), 1);
    assert_eq!(diffs[0].phase_diffs.len(), 2);
    assert_eq!(diffs[1].phase_diffs.len(), 1);
}

#[test]
fn filter_restricts_discovery_to_named_tests() {
    let s = snapshot(&["a.mo", "b.mo"], Some(&[("a.tc", "1"), ("b.tc", "2")]), &[]);
    let only_b = vec!["b".to_string()];
    let diffs = discover_diffs(&s, Some(&only_b));
    assert_eq!(diffs.len(), 1);
    assert_eq!(diffs[0].test_name, "b");
    let none: Vec<String> = vec![];
    assert_eq!(discover_diffs(&s, Some(&none)), vec![]);
}

#[test]
fn later_source_of_one_test_stands() {
    let s = snapshot(&["foo.mo", "foo.drun"], Some(&[("foo.tc", "1")]), &[]);
    let diffs = discover_diffs(&s, None);
    assert_eq!(diffs.len(), 1);
    assert_eq!(diffs[0].source_file, "foo.drun");
}

#[test]
fn artifact_of_a_longer_test_name_counts_for_the_shorter_too() {
    let s = snapshot(&["foo.mo", "foo.bar.mo"], Some(&[("foo.bar.tc", "1")]), &[]);
    let diffs = discover_diffs(&s, None);
    assert_eq!(diffs.len(), 2);
    assert_eq!(diffs[0].test_name, "foo");
    assert_eq!(diffs[0].phase_diffs[0].phase, "bar.tc");
    assert_eq!(diffs[1].test_name, "foo.bar");
    assert_eq!(diffs[1].phase_diffs[0].phase, "tc");
}

#[test]
fn store_keeps_one_file_per_name() {
    let mut s = FileStore::new();
    s.put("a".to_string(), "1".to_string());
    s.put("b".to_string(), "2".to_string());
    s.put("a".to_string(), "3".to_string());
    assert_eq!(s.len(), 2);
    assert_eq!(s.get("a"), Some(&"3".to_string()));
    assert_eq!(s.file(0).name, "a");
    assert_eq!(s.find("b"), Some(1));
    s.remove("a");
    assert_eq!(s.len(), 1);
    assert_eq!(s.get("a"), None);
    assert_eq!(s.get("b"), Some(&"2".to_string()));
    s.remove("missing");
    assert_eq!(s.len(), 1);
    let copy = s.clone();
    assert_eq!(copy.get("b"), Some(&"2".to_string()));
}
