use test_runner::accept::{accept_test, GoldenOp};
use test_runner::diff::{discover_diffs, DiffKind, PhaseDiff, TestDiff};
use test_runner::store::{DirSnapshot, FileStore};

fn store(files: &[(&str, &str)]) -> FileStore {
    let mut s = FileStore::new();
    for (name, content) in files {
        s.put(name.to_string(), content.to_string());
    }
    s
}

fn snapshot(sources: &[&str], out: &[(&str, &str)], golden: &[(&str, &str)]) -> DirSnapshot {
    DirSnapshot {
        dir: "test/fail".to_string(),
        sources: sources.iter().map(|s| s.to_string()).collect(),
        out: Some(store(out)),
        golden: store(golden),
    }
}

#[test]
fn accept_writes_artifacts_and_removes_stale_golden_files() {
    let mut s = snapshot(
        &["foo.mo"],
        &[("foo.tc", "new text"), ("foo.run", ""), ("foo.comp", "fresh")],
        &[("foo.tc.ok", "old text"), ("foo.run.ok", "stale")],
    );
    let diffs = discover_diffs(&s, None);
    assert_eq!(diffs.len(), 1);
    let ops = accept_test(&diffs[0], &mut s);
    assert_eq!(
        ops,
        vec![
            GoldenOp::Write { name: "foo.comp.ok".to_string(), content: "fresh".to_string() },
            GoldenOp::Remove { name: "foo.run.ok".to_string() },
            GoldenOp::Write { name: "foo.tc.ok".to_string(), content: "new text".to_string() },
        ]
    );
    assert_eq!(s.golden.get("foo.tc.ok"), Some(&"new text".to_string()));
    assert_eq!(s.golden.get("foo.comp.ok"), Some(&"fresh".to_string()));
    assert_eq!(s.golden.get("foo.run.ok"), None);
    assert_eq!(s.golden.len(), 2);
}

#[test]
fn accept_is_idempotent() {
    let mut s = snapshot(
        &["foo.mo", "bar.mo"],
        &[("foo.tc", "1"), ("foo.run", ""), ("bar.tc", "2")],
        &[("foo.tc.ok", "0"), ("foo.run.ok", "stale")],
    );
    let diffs = discover_diffs(&s, None);
    let foo = diffs.iter().find(|d| d.test_name == "foo").unwrap().clone();
    accept_test(&foo, &mut s);
    let only_foo = vec!["foo".to_string()];
    assert_eq!(discover_diffs(&s, Some(&only_foo)), vec![]);
    let golden_after_first = (s.golden.get("foo.tc.ok").cloned(), s.golden.len());
    accept_test(&foo, &mut s);
    assert_eq!((s.golden.get("foo.tc.ok").cloned(), s.golden.len()), golden_after_first);
    assert_eq!(discover_diffs(&s, None).len(), 1);
    assert_eq!(discover_diffs(&s, None)[0].test_name, "bar");
}

#[test]
fn accepting_an_empty_artifact_writes_no_empty_golden_file() {
    let mut s = snapshot(&["foo.mo"], &[("foo.tc", "")], &[("foo.tc.ok", "old")]);
    let diffs = discover_diffs(&s, None);
    let ops = accept_test(&diffs[0], &mut s);
    assert_eq!(ops, vec![GoldenOp::Remove { name: "foo.tc.ok".to_string() }]);
    assert_eq!(s.golden.get("foo.tc.ok"), None);
    assert_eq!(s.golden.len(), 0);
}

#[test]
fn accepting_a_phase_without_artifact_removes_its_golden_file() {
    let mut s = snapshot(&["foo.mo"], &[], &[("foo.tc.ok", "old"), ("foo.run.ok", "kept")]);
    let diff = TestDiff {
        test_name: "foo".to_string(),
        source_file: "foo.mo".to_string(),
        dir: "test/fail".to_string(),
        phase_diffs: vec![PhaseDiff {
            phase: "tc".to_string(),
            kind: DiffKind::New { content: "gone".to_string() },
        }],
    };
    let ops = accept_test(&diff, &mut s);
    assert_eq!(ops, vec![GoldenOp::Remove { name: "foo.tc.ok".to_string() }]);
    assert_eq!(s.golden.get("foo.tc.ok"), None);
    assert_eq!(s.golden.get("foo.run.ok"), Some(&"kept".to_string()));
    s.out = None;
    let ops = accept_test(
        &TestDiff { phase_diffs: vec![PhaseDiff { phase: "run".to_string(), kind: DiffKind::New { content: "x".to_string() } }], ..diff },
        &mut s,
    );
    assert_eq!(ops, vec![GoldenOp::Remove { name: "foo.run.ok".to_string() }]);
    assert_eq!(s.golden.len(), 0);
}
