use test_runner::accept::GoldenOp;
use test_runner::review::{
    accept_range, Accepted, action_labels, action_of_answer, group_tests_by_dir, review_dirs, review_step, run_review,
    run_review_for_tests, start_review, DirTests, ReviewAction, ReviewState, ReviewStep,
};
use test_runner::store::{DirSnapshot, FileStore};

fn store(files: &[(&str, &str)]) -> FileStore {
    let mut s = FileStore::new();
    for (name, content) in files {
        s.put(name.to_string(), content.to_string());
    }
    s
}

fn snapshot(dir: &str, sources: &[&str], out: &[(&str, &str)]) -> DirSnapshot {
    DirSnapshot {
        dir: dir.to_string(),
        sources: sources.iter().map(|s| s.to_string()).collect(),
        out: Some(store(out)),
        golden: FileStore::new(),
    }
}

#[test]
fn session_starts_at_first_diff_or_is_over() {
    assert_eq!(start_review(0), ReviewState::Done);
    assert_eq!(start_review(3), ReviewState::Presenting(0));
}

#[test]
fn accept_applies_one_diff_and_advances() {
    assert_eq!(
        review_step(ReviewState::Presenting(0), 3, ReviewAction::Accept),
        ReviewStep { next: ReviewState::Presenting(1), accept_from: 0, accept_to: 1 }
    );
    assert_eq!(
        review_step(ReviewState::Presenting(2), 3, ReviewAction::Accept),
        ReviewStep { next: ReviewState::Done, accept_from: 2, accept_to: 3 }
    );
}

#[test]
fn accept_all_applies_current_and_remaining_and_ends() {
    assert_eq!(
        review_step(ReviewState::Presenting(1), 4, ReviewAction::AcceptAll),
        ReviewStep { next: ReviewState::Done, accept_from: 1, accept_to: 4 }
    );
}

#[test]
fn skip_applies_nothing_and_advances() {
    assert_eq!(
        review_step(ReviewState::Presenting(1), 3, ReviewAction::Skip),
        ReviewStep { next: ReviewState::Presenting(2), accept_from: 1, accept_to: 1 }
    );
    assert_eq!(
        review_step(ReviewState::Presenting(2), 3, ReviewAction::Skip),
        ReviewStep { next: ReviewState::Done, accept_from: 2, accept_to: 2 }
    );
}

#[test]
fn quit_applies_nothing_and_ends() {
    assert_eq!(
        review_step(ReviewState::Presenting(0), 3, ReviewAction::Quit),
        ReviewStep { next: ReviewState::Done, accept_from: 0, accept_to: 0 }
    );
}

#[test]
fn finished_session_stays_finished() {
    for action in [ReviewAction::Accept, ReviewAction::AcceptAll, ReviewAction::Skip, ReviewAction::Quit] {
        assert_eq!(
            review_step(ReviewState::Done, 3, action),
            ReviewStep { next: ReviewState::Done, accept_from: 3, accept_to: 3 }
        );
        assert_eq!(
            review_step(ReviewState::Presenting(7), 3, action),
            ReviewStep { next: ReviewState::Done, accept_from: 3, accept_to: 3 }
        );
    }
}

#[test]
fn answers_map_to_actions() {
    assert_eq!(action_labels(), vec!["Accept", "Accept All", "Skip", "Quit"]);
    assert_eq!(action_of_answer(Some("Accept")), ReviewAction::Accept);
    assert_eq!(action_of_answer(Some("Accept All")), ReviewAction::AcceptAll);
    assert_eq!(action_of_answer(Some("Skip")), ReviewAction::Skip);
    assert_eq!(action_of_answer(Some("Quit")), ReviewAction::Quit);
    assert_eq!(action_of_answer(None), ReviewAction::Quit);
    assert_eq!(action_of_answer(Some("accept")), ReviewAction::Skip);
}

#[test]
fn paths_are_grouped_by_directory() {
    let paths: Vec<String> = [
        "test/fail/M0026.mo",
        "test/run/a.mo",
        "test/fail/b.drun",
        "test/run/readme.txt",
        "c.mo",
    ]
    .iter()
    .map(|s| s.to_string())
    .collect();
    assert_eq!(
        group_tests_by_dir(&paths),
        vec![
            DirTests { dir: "test/fail".to_string(), tests: vec!["M0026".to_string(), "b".to_string()] },
            DirTests { dir: "test/run".to_string(), tests: vec!["a".to_string()] },
            DirTests { dir: "".to_string(), tests: vec!["c".to_string()] },
        ]
    );
    assert_eq!(review_dirs(&paths), vec!["test/fail", "test/run", ""]);
}

#[test]
fn review_of_directories_lists_each_directory_in_turn() {
    let dirs = vec![
        snapshot("test/run", &["z.mo", "b.mo"], &[("z.tc", "1"), ("b.tc", "2")]),
        snapshot("test/fail", &["a.mo"], &[("a.tc", "3")]),
    ];
    let diffs = run_review(&dirs);
    let got: Vec<(&str, &str)> =
        diffs.iter().map(|d| (d.dir.as_str(), d.test_name.as_str())).collect();
    assert_eq!(got, vec![("test/run", "b"), ("test/run", "z"), ("test/fail", "a")]);
}

#[test]
fn review_for_tests_shows_only_named_tests_sorted_by_name() {
    let dirs = vec![
        snapshot("test/run", &["z.mo", "b.mo", "m.mo"], &[("z.tc", "1"), ("b.tc", "2"), ("m.tc", "5")]),
        snapshot("test/fail", &["a.mo", "m.mo"], &[("a.tc", "3"), ("m.tc", "4")]),
    ];
    let paths: Vec<String> = [
        "test/run/z.mo",
        "test/fail/m.mo",
        "test/fail/a.mo",
        "test/run/m.mo",
        "test/gone/q.mo",
    ]
    .iter()
    .map(|s| s.to_string())
    .collect();
    let diffs = run_review_for_tests(&paths, &dirs);
    let got: Vec<(&str, &str)> =
        diffs.iter().map(|d| (d.test_name.as_str(), d.dir.as_str())).collect();
    assert_eq!(
        got,
        vec![("a", "test/fail"), ("m", "test/run"), ("m", "test/fail"), ("z", "test/run")]
    );
}

#[test]
fn accepting_a_range_changes_each_diff_in_its_directory() {
    let mut dirs = vec![
        snapshot("test/run", &["a.mo", "b.mo"], &[("a.tc", "1"), ("b.tc", "2")]),
        snapshot("test/fail", &["c.mo"], &[("c.tc", "3")]),
    ];
    let mut diffs = run_review(&dirs);
    assert_eq!(diffs.len(), 3);
    let mut stray = diffs[0].clone();
    stray.dir = "test/gone".to_string();
    diffs.push(stray);

    let log = accept_range(&diffs, &mut dirs, 1, 4);
    assert_eq!(
        log,
        vec![
            Accepted {
                dir: "test/run".to_string(),
                test_name: "b".to_string(),
                ops: vec![GoldenOp::Write { name: "b.tc.ok".to_string(), content: "2".to_string() }],
            },
            Accepted {
                dir: "test/fail".to_string(),
                test_name: "c".to_string(),
                ops: vec![GoldenOp::Write { name: "c.tc.ok".to_string(), content: "3".to_string() }],
            },
        ]
    );
    assert_eq!(dirs[0].golden.get("a.tc.ok"), None);
    assert_eq!(dirs[0].golden.get("b.tc.ok"), Some(&"2".to_string()));
    assert_eq!(dirs[1].golden.get("c.tc.ok"), Some(&"3".to_string()));
    let left: Vec<String> = run_review(&dirs).into_iter().map(|d| d.test_name).collect();
    assert_eq!(left, vec!["a"]);

    assert_eq!(accept_range(&diffs, &mut dirs, 2, 2), vec![]);
    assert_eq!(accept_range(&diffs, &mut dirs, 3, 1), vec![]);
    assert_eq!(accept_range(&diffs, &mut dirs, 9, 12), vec![]);
    assert_eq!(accept_range(&diffs, &mut dirs, 0, 99).len(), 3);
    assert_eq!(run_review(&dirs), vec![]);
}

#[test]
fn a_whole_session_follows_the_answers() {
    let mut dirs = vec![snapshot(
        "d",
        &["a.mo", "b.mo", "c.mo", "e.mo"],
        &[("a.tc", "1"), ("b.tc", "2"), ("c.tc", "3"), ("e.tc", "4")],
    )];
    let diffs = run_review(&dirs);
    let answers = [Some("Skip"), Some("Accept"), Some("Accept All")];
    let mut state = start_review(diffs.len());
    let mut asked = 0;
    while let ReviewState::Presenting(_) = state {
        let step = review_step(state, diffs.len(), action_of_answer(answers[asked]));
        accept_range(&diffs, &mut dirs, step.accept_from, step.accept_to);
        state = step.next;
        asked += 1;
    }
    assert_eq!(asked, 3);
    let left: Vec<String> = run_review(&dirs).into_iter().map(|d| d.test_name).collect();
    assert_eq!(left, vec!["a"]);
}
