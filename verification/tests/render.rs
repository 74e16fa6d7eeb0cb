use test_runner::diff::{DiffKind, PhaseDiff, TestDiff};
use test_runner::render::{
    render_changes, render_diff, render_new, render_phase, render_phase_with, split_lines,
    LineChange, LineTag,
};

fn change(tag: LineTag, text: &str) -> LineChange {
    LineChange { tag, text: text.to_string() }
}

#[test]
fn lines_end_at_newlines() {
    assert_eq!(split_lines(""), Vec::<String>::new());
    assert_eq!(split_lines("a"), vec!["a"]);
    assert_eq!(split_lines("a\n"), vec!["a"]);
    assert_eq!(split_lines("a\nb"), vec!["a", "b"]);
    assert_eq!(split_lines("a\r\nb\r\n"), vec!["a", "b"]);
    assert_eq!(split_lines("\n\n"), vec!["", ""]);
    assert_eq!(split_lines("a\r"), vec!["a\r"]);
    assert_eq!(split_lines("a\r\r\nb"), vec!["a\r", "b"]);
    assert_eq!(split_lines("\r\n"), vec![""]);
    for text in ["", "x", "x\n", "\n", "a\r\n\r\nb\r", "é\nü\r\n", "\r", "a\n\rb"] {
        let std_lines: Vec<String> = text.lines().map(|l| l.to_string()).collect();
        assert_eq!(split_lines(text), std_lines);
    }
}

#[test]
fn changes_are_coloured_by_tag() {
    let changes = vec![
        change(LineTag::Equal, "same\n"),
        change(LineTag::Delete, "old\n"),
        change(LineTag::Insert, "new\n"),
    ];
    assert_eq!(
        render_changes(&changes),
        "  same\n  \x1b[31m-old\n\x1b[0m  \x1b[32m+new\n\x1b[0m"
    );
    assert_eq!(render_changes(&vec![]), "");
}

#[test]
fn new_content_is_listed_as_inserted_lines() {
    assert_eq!(render_new("ok\nfine"), "  \x1b[32m+ok\x1b[0m\n  \x1b[32m+fine\x1b[0m\n");
    assert_eq!(render_new(""), "");
}

#[test]
fn changed_phase_shows_a_line_comparison() {
    let p = PhaseDiff {
        phase: "tc".to_string(),
        kind: DiffKind::Changed { expected: "a\nb\n".to_string(), actual: "a\nc\n".to_string() },
    };
    assert_eq!(
        render_phase(&p),
        "\n  \x1b[1m[tc]\x1b[0m\n  a\n  \x1b[31m-b\n\x1b[0m  \x1b[32m+c\n\x1b[0m"
    );
    let without_newline = PhaseDiff {
        phase: "tc.ret".to_string(),
        kind: DiffKind::Changed { expected: "0".to_string(), actual: "1".to_string() },
    };
    assert_eq!(
        render_phase(&without_newline),
        "\n  \x1b[1m[tc.ret]\x1b[0m\n  \x1b[31m-0\n\x1b[0m  \x1b[32m+1\n\x1b[0m"
    );
}

#[test]
fn phase_text_is_built_from_the_given_comparison() {
    let p = PhaseDiff {
        phase: "run".to_string(),
        kind: DiffKind::Changed { expected: "x".to_string(), actual: "y".to_string() },
    };
    assert_eq!(
        render_phase_with(&p, &vec![change(LineTag::Equal, "z\n")]),
        "\n  \x1b[1m[run]\x1b[0m\n  z\n"
    );
    let n = PhaseDiff { phase: "run".to_string(), kind: DiffKind::New { content: "y\n".to_string() } };
    assert_eq!(
        render_phase_with(&n, &vec![change(LineTag::Equal, "z\n")]),
        "\n  \x1b[1m[run]\x1b[0m \x1b[33m(new)\x1b[0m\n  \x1b[32m+y\x1b[0m\n"
    );
}

#[test]
fn diff_text_has_heading_and_phases() {
    let d = TestDiff {
        test_name: "bar".to_string(),
        source_file: "bar.drun".to_string(),
        dir: "test/run-drun".to_string(),
        phase_diffs: vec![
            PhaseDiff {
                phase: "drun-run".to_string(),
                kind: DiffKind::New { content: "ok\n".to_string() },
            },
            PhaseDiff {
                phase: "tc".to_string(),
                kind: DiffKind::Changed { expected: "0\n".to_string(), actual: "1\n".to_string() },
            },
        ],
    };
    assert_eq!(
        render_diff(&d),
        "\n\x1b[1;36m--- bar (bar.drun) in test/run-drun ---\x1b[0m\n\
         \n  \x1b[1m[drun-run]\x1b[0m \x1b[33m(new)\x1b[0m\n  \x1b[32m+ok\x1b[0m\n\
         \n  \x1b[1m[tc]\x1b[0m\n  \x1b[31m-0\n\x1b[0m  \x1b[32m+1\n\x1b[0m"
    );
}
