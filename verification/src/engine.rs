//! Dispatching tests to the backend and summing up what came back.

use crate::order::views;
use crate::text::{contains, occurs_in};
use vstd::prelude::*;
use vstd::string::*;

verus! {

/// The mode in which the backend runs a test.
#[derive(Clone, Copy, Debug, PartialEq, Eq, Structural)]
pub enum ModeFlag {
    /// Type-check only: the flag `-t`.
    TypeCheck,
    /// Run under drun: the flag `-d`.
    Drun,
    /// Run: no flag.
    Plain,
}

/// The mode for the test at `path`. With `just_tc` every test is only
/// type-checked. Otherwise the directory decides: a test under `/run/` runs
/// plainly, one under `/run-drun/` runs under drun, one under `/fail/` is
/// type-checked, any other runs plainly.
pub open spec fn mode_for(path: Seq<char>, just_tc: bool) -> ModeFlag {
    if just_tc {
        ModeFlag::TypeCheck
    } else if occurs_in("/run/"@, path) {
        ModeFlag::Plain
    } else if occurs_in("/run-drun/"@, path) {
        ModeFlag::Drun
    } else if occurs_in("/fail/"@, path) {
        ModeFlag::TypeCheck
    } else {
        ModeFlag::Plain
    }
}

/// The flag that a mode puts on the backend's command line, if any.
pub open spec fn flag_of(mode: ModeFlag) -> Option<Seq<char>> {
    match mode {
        ModeFlag::TypeCheck => Some("-t"@),
        ModeFlag::Drun => Some("-d"@),
        ModeFlag::Plain => None,
    }
}

/// The arguments with which the backend is called for the test at `path`:
/// the mode's flag, if it has one, then the path.
pub open spec fn args_for(path: Seq<char>, just_tc: bool) -> Seq<Seq<char>> {
    match flag_of(mode_for(path, just_tc)) {
        Some(flag) => seq![flag, path],
        None => seq![path],
    }
}

/// The mode for the test at `test_path`.
pub fn mode_flag(test_path: &str, just_tc: bool) -> (mode: ModeFlag)
    ensures
        mode == mode_for(test_path@, just_tc),
{
    if just_tc {
        ModeFlag::TypeCheck
    } else if contains(test_path, "/run/") {
        ModeFlag::Plain
    } else if contains(test_path, "/run-drun/") {
        ModeFlag::Drun
    } else if contains(test_path, "/fail/") {
        ModeFlag::TypeCheck
    } else {
        ModeFlag::Plain
    }
}

/// The flag that `mode` puts on the backend's command line, if any.
pub fn flag_text(mode: ModeFlag) -> (flag: Option<&'static str>)
    ensures
        match flag {
            Some(text) => Some(text@),
            None => None,
        } == flag_of(mode),
{
    match mode {
        ModeFlag::TypeCheck => Some("-t"),
        ModeFlag::Drun => Some("-d"),
        ModeFlag::Plain => None,
    }
}

/// How many tests run at a time. Each waits for an outside process, so the
/// number is fixed and does not follow the number of processors.
pub fn worker_count() -> (n: usize)
    ensures
        n == 8,
{
    8
}

/// The program that runs one test.
pub fn backend_program() -> (program: &'static str)
    ensures
        program@ == "test/run.sh"@,
{
    "test/run.sh"
}

/// The arguments with which the backend is called for the test at
/// `test_path`.
pub fn backend_args(test_path: &str, just_tc: bool) -> (args: Vec<String>)
    ensures
        views(args@) == args_for(test_path@, just_tc),
{
    let mut args: Vec<String> = Vec::new();
    match flag_text(mode_flag(test_path, just_tc)) {
        Some(flag) => {
            args.push(String::from_str(flag));
            args.push(String::from_str(test_path));
            assert(views(args@) =~= seq![flag@, test_path@]);
        },
        None => {
            args.push(String::from_str(test_path));
            assert(views(args@) =~= seq![test_path@]);
        },
    }
    args
}

/// What running one test gave.
#[derive(Clone, Debug, PartialEq, Eq)]
pub struct SingleTestResult {
    pub success: bool,
    pub stdout: String,
    pub stderr: String,
    pub test_name: String,
}

/// The mathematical value of a [`SingleTestResult`].
pub ghost struct TestResultView {
    pub success: bool,
    pub stdout: Seq<char>,
    pub stderr: Seq<char>,
    pub test_name: Seq<char>,
}

impl View for SingleTestResult {
    type V = TestResultView;

    open spec fn view(&self) -> TestResultView {
        TestResultView {
            success: self.success,
            stdout: self.stdout@,
            stderr: self.stderr@,
            test_name: self.test_name@,
        }
    }
}

/// The text of captured output: `bytes` read as UTF-8, each invalid
/// sequence replaced: the result of `String::from_utf8_lossy`.
pub uninterp spec fn lossy_text(bytes: Seq<u8>) -> Seq<char>;

/// Calls `String::from_utf8_lossy`. Trusted: the result depends only on
/// `bytes`.
#[verifier::external_body]
fn decode_lossy(bytes: &[u8]) -> (text: String)
    ensures
        text@ == lossy_text(bytes@),
{
    String::from_utf8_lossy(bytes).to_string()
}

/// The result of the test `test_name`, for which the backend gave a zero
/// exit status exactly if `exit_ok`, and the two captured outputs.
pub fn test_result(test_name: String, exit_ok: bool, stdout: &[u8], stderr: &[u8]) -> (result:
    SingleTestResult)
    ensures
        result@ == (TestResultView {
            success: exit_ok,
            stdout: lossy_text(stdout@),
            stderr: lossy_text(stderr@),
            test_name: test_name@,
        }),
{
    SingleTestResult {
        success: exit_ok,
        stdout: decode_lossy(stdout),
        stderr: decode_lossy(stderr),
        test_name,
    }
}

/// The results that are failures, in order.
pub open spec fn failures(results: Seq<TestResultView>) -> Seq<TestResultView>
    decreases results.len(),
{
    if results.len() == 0 {
        Seq::empty()
    } else if results.last().success {
        failures(results.drop_last())
    } else {
        failures(results.drop_last()).push(results.last())
    }
}

/// The test names of `results`, in order.
pub open spec fn test_names(results: Seq<TestResultView>) -> Seq<Seq<char>> {
    results.map_values(|r: TestResultView| r.test_name)
}

/// The counts of a run.
#[derive(Clone, Copy, Debug, PartialEq, Eq, Structural)]
pub struct Summary {
    pub total: usize,
    pub failed: usize,
    pub succeeded: usize,
}

/// There are no more failures than results.
pub proof fn lemma_failures_bound(results: Seq<TestResultView>)
    ensures
        failures(results).len() <= results.len(),
    decreases results.len(),
{
    if results.len() > 0 {
        lemma_failures_bound(results.drop_last());
    }
}

/// The counts of a run: how many tests ran, how many failed, how many
/// succeeded.
pub fn summarize(results: &Vec<SingleTestResult>) -> (summary: Summary)
    ensures
        summary.total == results@.len(),
        summary.failed == failures(views(results@)).len(),
        summary.succeeded == summary.total - summary.failed,
{
    let mut failed: usize = 0;
    let mut i: usize = 0;
    assert(views(results@).take(0) =~= Seq::<TestResultView>::empty());
    while i < results.len()
        invariant
            i <= results.len(),
            failed == failures(views(results@).take(i as int)).len(),
            failed <= i,
        decreases results.len() - i,
    {
        proof {
            assert(views(results@).take(i + 1).drop_last() =~= views(results@).take(i as int));
            assert(views(results@).take(i + 1).last() == results@[i as int]@);
        }
        if !results[i].success {
            failed = failed + 1;
        }
        i = i + 1;
    }
    assert(views(results@).take(i as int) =~= views(results@));
    Summary { total: results.len(), failed, succeeded: results.len() - failed }
}

/// The results that are failures, in order: what the report lists one by
/// one, each with its captured output.
pub fn failed_results(results: &Vec<SingleTestResult>) -> (failed: Vec<&SingleTestResult>)
    ensures
        failed@.map_values(|r: &SingleTestResult| r@) == failures(views(results@)),
{
    let mut failed: Vec<&SingleTestResult> = Vec::new();
    let mut i: usize = 0;
    assert(views(results@).take(0) =~= Seq::<TestResultView>::empty());
    assert(failed@.map_values(|r: &SingleTestResult| r@) =~= Seq::<TestResultView>::empty());
    while i < results.len()
        invariant
            i <= results.len(),
            failed@.map_values(|r: &SingleTestResult| r@) == failures(
                views(results@).take(i as int),
            ),
        decreases results.len() - i,
    {
        proof {
            assert(views(results@).take(i + 1).drop_last() =~= views(results@).take(i as int));
            assert(views(results@).take(i + 1).last() == results@[i as int]@);
        }
        if !results[i].success {
            let ghost before = failed@;
            failed.push(&results[i]);
            assert(failed@.map_values(|r: &SingleTestResult| r@) =~= before.map_values(
                |r: &SingleTestResult| r@,
            ).push(results@[i as int]@));
        }
        i = i + 1;
    }
    assert(views(results@).take(i as int) =~= views(results@));
    failed
}

/// The names of the tests that failed, in order: the tests whose diffs are
/// shown after a run.
pub fn failed_test_names(results: &Vec<SingleTestResult>) -> (names: Vec<String>)
    ensures
        views(names@) == test_names(failures(views(results@))),
{
    let mut names: Vec<String> = Vec::new();
    let mut i: usize = 0;
    assert(views(results@).take(0) =~= Seq::<TestResultView>::empty());
    assert(views(names@) =~= test_names(Seq::<TestResultView>::empty()));
    while i < results.len()
        invariant
            i <= results.len(),
            views(names@) == test_names(failures(views(results@).take(i as int))),
        decreases results.len() - i,
    {
        proof {
            assert(views(results@).take(i + 1).drop_last() =~= views(results@).take(i as int));
            assert(views(results@).take(i + 1).last() == results@[i as int]@);
        }
        if !results[i].success {
            let ghost before = names@;
            let ghost seen = failures(views(results@).take(i as int));
            names.push(results[i].test_name.clone());
            assert(views(names@) =~= views(before).push(results@[i as int]@.test_name));
            assert(test_names(seen.push(results@[i as int]@)) =~= test_names(seen).push(
                results@[i as int]@.test_name,
            ));
        }
        i = i + 1;
    }
    assert(views(results@).take(i as int) =~= views(results@));
    names
}

} // verus!
