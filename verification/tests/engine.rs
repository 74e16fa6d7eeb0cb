use test_runner::engine::{
    backend_args, backend_program, failed_results, failed_test_names, flag_text, mode_flag,
    summarize, test_result, worker_count, ModeFlag, SingleTestResult, Summary,
};

fn result(name: &str, success: bool) -> SingleTestResult {
    SingleTestResult {
        success,
        stdout: format!("out of {name}"),
        stderr: format!("err of {name}"),
        test_name: name.to_string(),
    }
}

#[test]
fn test_under_fail_is_type_checked() {
    assert_eq!(mode_flag("test/fail/M0026.mo", false), ModeFlag::TypeCheck);
    assert_eq!(backend_args("test/fail/M0026.mo", false), vec!["-t", "test/fail/M0026.mo"]);
}

#[test]
fn directory_decides_the_mode() {
    assert_eq!(mode_flag("test/run/a.mo", false), ModeFlag::Plain);
    assert_eq!(mode_flag("test/run-drun/a.mo", false), ModeFlag::Drun);
    assert_eq!(mode_flag("test/other/a.mo", false), ModeFlag::Plain);
    assert_eq!(mode_flag("run/a.mo", false), ModeFlag::Plain);
    assert_eq!(mode_flag("x/fail/y/run/a.mo", false), ModeFlag::Plain);
    assert_eq!(mode_flag("x/fail/y/run-drun/a.mo", false), ModeFlag::Drun);
    assert_eq!(backend_args("test/run/a.mo", false), vec!["test/run/a.mo"]);
    assert_eq!(backend_args("test/run-drun/a.drun", false), vec!["-d", "test/run-drun/a.drun"]);
}

#[test]
fn type_check_only_overrides_the_directory() {
    for path in ["test/run/a.mo", "test/run-drun/a.mo", "test/fail/a.mo", "a.mo"] {
        assert_eq!(mode_flag(path, true), ModeFlag::TypeCheck);
        assert_eq!(backend_args(path, true), vec!["-t", path]);
    }
}

#[test]
fn flags_and_program() {
    assert_eq!(flag_text(ModeFlag::TypeCheck), Some("-t"));
    assert_eq!(flag_text(ModeFlag::Drun), Some("-d"));
    assert_eq!(flag_text(ModeFlag::Plain), None);
    assert_eq!(backend_program(), "test/run.sh");
    assert_eq!(worker_count(), 8);
}

#[test]
fn captured_output_is_decoded_permissively() {
    let r = test_result("t".to_string(), true, b"fine", b"bad \xff byte");
    assert_eq!(
        r,
        SingleTestResult {
            success: true,
            stdout: "fine".to_string(),
            stderr: "bad \u{fffd} byte".to_string(),
            test_name: "t".to_string(),
        }
    );
    assert!(!test_result("t".to_string(), false, b"", b"").success);
}

#[test]
fn summary_counts_failures() {
    let results = vec![result("a", true), result("b", false), result("c", true), result("d", false)];
    assert_eq!(summarize(&results), Summary { total: 4, failed: 2, succeeded: 2 });
    assert_eq!(summarize(&vec![]), Summary { total: 0, failed: 0, succeeded: 0 });
    assert_eq!(failed_test_names(&results), vec!["b", "d"]);
    let failed = failed_results(&results);
    assert_eq!(failed.len(), 2);
    assert_eq!(failed[0].stderr, "err of b");
    assert_eq!(failed[1].stdout, "out of d");
    assert_eq!(failed_test_names(&vec![result("a", true)]), Vec::<String>::new());
}
