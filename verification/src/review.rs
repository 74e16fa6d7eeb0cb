//! The review session: which diffs to show, and what each answer does.

use crate::accept::{accept_ops, accept_test, accepted, artifacts, GoldenOp, GoldenOpView};
use crate::diff::{
    discover, discover_diffs, phases_ordered, well_ordered, TestDiff, TestDiffView,
};
use crate::names::{source_stem, test_name_from_source};
use crate::order::{
    ascending, find_named, first_named, insert_sorted, lemma_stable_sort,
    lemma_stable_sort_contains, lemma_stable_sort_push, names_of, stable_sort, views, Keyed, Named,
};
use crate::paths::{path_dir, path_file, split_path};
use crate::store::{DirSnapshot, DirView};
use crate::text::equal;
use vstd::prelude::*;
use vstd::string::*;

verus! {

/// What the user decides about the diff on show.
#[derive(Clone, Copy, Debug, PartialEq, Eq, Structural)]
pub enum ReviewAction {
    /// Accept the diff on show and go on to the next.
    Accept,
    /// Accept the diff on show and all that follow it, without asking again.
    AcceptAll,
    /// Leave the diff on show as it is and go on to the next.
    Skip,
    /// End the session; the diff on show and all that follow stay as they are.
    Quit,
}

/// Where a review session stands.
#[derive(Clone, Copy, Debug, PartialEq, Eq, Structural)]
pub enum ReviewState {
    /// The diff at this index is on show.
    Presenting(usize),
    /// The session is over.
    Done,
}

/// What one answer leads to: the next state, and the diffs to accept now,
/// those at the indices from `accept_from` up to `accept_to`.
#[derive(Clone, Copy, Debug, PartialEq, Eq, Structural)]
pub struct ReviewStep {
    pub next: ReviewState,
    pub accept_from: usize,
    pub accept_to: usize,
}

/// The state in which a session over `total` diffs begins.
pub open spec fn initial_state(total: usize) -> ReviewState {
    if total == 0 {
        ReviewState::Done
    } else {
        ReviewState::Presenting(0)
    }
}

/// The state after the diff at `i`, of `total`, has been dealt with.
pub open spec fn state_after(i: usize, total: usize) -> ReviewState {
    if i + 1 < total {
        ReviewState::Presenting((i + 1) as usize)
    } else {
        ReviewState::Done
    }
}

/// What `action` leads to in `state`, in a session over `total` diffs.
/// A session that is over stays over and accepts nothing.
pub open spec fn step_of(state: ReviewState, total: usize, action: ReviewAction) -> ReviewStep {
    match state {
        ReviewState::Presenting(i) if i < total => match action {
            ReviewAction::Accept => ReviewStep {
                next: state_after(i, total),
                accept_from: i,
                accept_to: (i + 1) as usize,
            },
            ReviewAction::AcceptAll => ReviewStep {
                next: ReviewState::Done,
                accept_from: i,
                accept_to: total,
            },
            ReviewAction::Skip => ReviewStep {
                next: state_after(i, total),
                accept_from: i,
                accept_to: i,
            },
            ReviewAction::Quit => ReviewStep {
                next: ReviewState::Done,
                accept_from: i,
                accept_to: i,
            },
        },
        _ => ReviewStep { next: ReviewState::Done, accept_from: total, accept_to: total },
    }
}

/// The action that an answer to the prompt stands for. `None` is a prompt
/// that was cancelled or failed, which ends the session; a label that is
/// none of the four offered changes nothing and moves on.
pub open spec fn action_for(answer: Option<Seq<char>>) -> ReviewAction {
    match answer {
        None => ReviewAction::Quit,
        Some(label) => if label == "Accept"@ {
            ReviewAction::Accept
        } else if label == "Accept All"@ {
            ReviewAction::AcceptAll
        } else if label == "Quit"@ {
            ReviewAction::Quit
        } else {
            ReviewAction::Skip
        },
    }
}

/// The state in which a session over `total` diffs begins: the first diff
/// on show, or over at once where there is none.
pub fn start_review(total: usize) -> (state: ReviewState)
    ensures
        state == initial_state(total),
{
    if total == 0 {
        ReviewState::Done
    } else {
        ReviewState::Presenting(0)
    }
}

/// The labels offered at each prompt, in order.
pub fn action_labels() -> (labels: Vec<&'static str>)
    ensures
        labels@.len() == 4,
        labels@[0]@ == "Accept"@,
        labels@[1]@ == "Accept All"@,
        labels@[2]@ == "Skip"@,
        labels@[3]@ == "Quit"@,
{
    let mut labels: Vec<&'static str> = Vec::new();
    labels.push("Accept");
    labels.push("Accept All");
    labels.push("Skip");
    labels.push("Quit");
    labels
}

/// The action that an answer to the prompt stands for.
pub fn action_of_answer(answer: Option<&str>) -> (action: ReviewAction)
    ensures
        action == action_for(
            match answer {
                Some(label) => Some(label@),
                None => None,
            },
        ),
{
    match answer {
        None => ReviewAction::Quit,
        Some(label) => {
            if equal(label, "Accept") {
                ReviewAction::Accept
            } else if equal(label, "Accept All") {
                ReviewAction::AcceptAll
            } else if equal(label, "Quit") {
                ReviewAction::Quit
            } else {
                ReviewAction::Skip
            }
        },
    }
}

/// One step of a review session over `total` diffs: the state that follows
/// `state` on `action`, and the range of diffs to accept. The next state is
/// never a diff outside the list, and the range never reaches outside it.
pub fn review_step(state: ReviewState, total: usize, action: ReviewAction) -> (step: ReviewStep)
    ensures
        step == step_of(state, total, action),
        step.accept_from <= step.accept_to <= total,
        step.next matches ReviewState::Presenting(k) ==> k < total,
{
    match state {
        ReviewState::Presenting(i) => {
            if i < total {
                let after = if i + 1 < total {
                    ReviewState::Presenting(i + 1)
                } else {
                    ReviewState::Done
                };
                match action {
                    ReviewAction::Accept => ReviewStep {
                        next: after,
                        accept_from: i,
                        accept_to: i + 1,
                    },
                    ReviewAction::AcceptAll => ReviewStep {
                        next: ReviewState::Done,
                        accept_from: i,
                        accept_to: total,
                    },
                    ReviewAction::Skip => ReviewStep { next: after, accept_from: i, accept_to: i },
                    ReviewAction::Quit => ReviewStep {
                        next: ReviewState::Done,
                        accept_from: i,
                        accept_to: i,
                    },
                }
            } else {
                ReviewStep { next: ReviewState::Done, accept_from: total, accept_to: total }
            }
        },
        ReviewState::Done => ReviewStep {
            next: ReviewState::Done,
            accept_from: total,
            accept_to: total,
        },
    }
}

impl Named for DirView {
    open spec fn name(self) -> Seq<char> {
        self.dir
    }
}

impl Keyed for DirSnapshot {
    fn key(&self) -> (k: &str) {
        self.dir.as_str()
    }
}

/// The tests asked for in one directory.
#[derive(Clone, Debug, PartialEq, Eq)]
pub struct DirTests {
    pub dir: String,
    pub tests: Vec<String>,
}

/// The mathematical value of a [`DirTests`].
pub ghost struct DirTestsView {
    pub dir: Seq<char>,
    pub tests: Seq<Seq<char>>,
}

impl View for DirTests {
    type V = DirTestsView;

    open spec fn view(&self) -> DirTestsView {
        DirTestsView { dir: self.dir@, tests: views(self.tests@) }
    }
}

impl Named for DirTestsView {
    open spec fn name(self) -> Seq<char> {
        self.dir
    }
}

impl Keyed for DirTests {
    fn key(&self) -> (k: &str) {
        self.dir.as_str()
    }
}

/// `groups` after noting that `test` of directory `dir` is asked for: the
/// directory's group gains the test, and a directory not seen before gets a
/// group of its own at the end.
pub open spec fn group_put(groups: Seq<DirTestsView>, dir: Seq<char>, test: Seq<char>) -> Seq<
    DirTestsView,
> {
    match first_named(groups, dir) {
        Some(i) => groups.update(i, DirTestsView { dir, tests: groups[i].tests.push(test) }),
        None => groups.push(DirTestsView { dir, tests: seq![test] }),
    }
}

/// The tests that `paths` name, by directory, directories in the order in
/// which they first occur. A path whose file name is not a test source
/// names no test.
pub open spec fn group_by_dir(paths: Seq<Seq<char>>) -> Seq<DirTestsView>
    decreases paths.len(),
{
    if paths.len() == 0 {
        Seq::empty()
    } else {
        let rest = group_by_dir(paths.drop_last());
        match source_stem(path_file(paths.last())) {
            Some(stem) => group_put(rest, path_dir(paths.last()), stem),
            None => rest,
        }
    }
}

/// The tests that `test_paths` name, by directory.
pub fn group_tests_by_dir(test_paths: &Vec<String>) -> (groups: Vec<DirTests>)
    ensures
        views(groups@) == group_by_dir(views(test_paths@)),
{
    let mut groups: Vec<DirTests> = Vec::new();
    let mut i: usize = 0;
    assert(views(groups@) =~= Seq::<DirTestsView>::empty());
    assert(views(test_paths@).take(0) =~= Seq::<Seq<char>>::empty());
    while i < test_paths.len()
        invariant
            i <= test_paths.len(),
            views(groups@) == group_by_dir(views(test_paths@).take(i as int)),
        decreases test_paths.len() - i,
    {
        proof {
            assert(views(test_paths@).take(i + 1).drop_last() =~= views(test_paths@).take(
                i as int,
            ));
            assert(views(test_paths@).take(i + 1).last() == test_paths@[i as int]@);
        }
        let (dir, file) = split_path(test_paths[i].as_str());
        match test_name_from_source(file) {
            Some(stem) => {
                let ghost before = groups@;
                match find_named(&groups, dir) {
                    Some(k) => {
                        let mut group = groups.remove(k);
                        let ghost old_tests = group.tests@;
                        group.tests.push(String::from_str(stem));
                        assert(views(group.tests@) =~= views(old_tests).push(stem@));
                        groups.insert(k, group);
                        assert(views(groups@) =~= views(before).update(k as int, group@));
                    },
                    None => {
                        let mut tests: Vec<String> = Vec::new();
                        tests.push(String::from_str(stem));
                        assert(views(tests@) =~= seq![stem@]);
                        let group = DirTests { dir: String::from_str(dir), tests };
                        groups.push(group);
                        assert(views(groups@) =~= views(before).push(group@));
                    },
                }
            },
            None => {},
        }
        i = i + 1;
    }
    assert(views(test_paths@).take(i as int) =~= views(test_paths@));
    groups
}

/// The diffs of all tests of `dirs`, directory by directory.
pub open spec fn review_list(dirs: Seq<DirView>) -> Seq<TestDiffView>
    decreases dirs.len(),
{
    if dirs.len() == 0 {
        Seq::empty()
    } else {
        review_list(dirs.drop_last()) + discover(dirs.last(), None)
    }
}

/// The diffs of the tests in `groups`, group by group; a group whose
/// directory is not among `dirs` has none.
pub open spec fn group_diffs(groups: Seq<DirTestsView>, dirs: Seq<DirView>) -> Seq<TestDiffView>
    decreases groups.len(),
{
    if groups.len() == 0 {
        Seq::empty()
    } else {
        let rest = group_diffs(groups.drop_last(), dirs);
        match first_named(dirs, groups.last().dir) {
            Some(i) => rest + discover(dirs[i], Some(groups.last().tests)),
            None => rest,
        }
    }
}

/// The diffs of the tests that `paths` name, ascending by test name; diffs
/// of tests of one name stand in the order of their directories.
pub open spec fn review_list_for_tests(paths: Seq<Seq<char>>, dirs: Seq<DirView>) -> Seq<
    TestDiffView,
> {
    stable_sort(group_diffs(group_by_dir(paths), dirs))
}

/// Every diff holds at least one phase, and its phases ascend.
pub open spec fn all_phases_ordered(diffs: Seq<TestDiffView>) -> bool {
    forall|i: int| 0 <= i < diffs.len() ==> phases_ordered(#[trigger] diffs[i])
}

/// The diffs to review in the directories `dirs`: those of each directory
/// in turn, each directory's ascending by test name.
pub fn run_review(dirs: &Vec<DirSnapshot>) -> (diffs: Vec<TestDiff>)
    ensures
        views(diffs@) == review_list(views(dirs@)),
        all_phases_ordered(views(diffs@)),
{
    let mut all: Vec<TestDiff> = Vec::new();
    let mut i: usize = 0;
    assert(views(all@) =~= Seq::<TestDiffView>::empty());
    assert(views(dirs@).take(0) =~= Seq::<DirView>::empty());
    while i < dirs.len()
        invariant
            i <= dirs.len(),
            views(all@) == review_list(views(dirs@).take(i as int)),
            all_phases_ordered(views(all@)),
        decreases dirs.len() - i,
    {
        proof {
            assert(views(dirs@).take(i + 1).drop_last() =~= views(dirs@).take(i as int));
            assert(views(dirs@).take(i + 1).last() == dirs@[i as int]@);
        }
        let mut found = discover_diffs(&dirs[i], None);
        let ghost before = views(all@);
        let ghost added = views(found@);
        all.append(&mut found);
        proof {
            assert(views(all@) =~= before + added);
            assert forall|t: int| 0 <= t < views(all@).len() implies phases_ordered(
                #[trigger] views(all@)[t],
            ) by {
                if t < before.len() {
                    assert(views(all@)[t] == before[t]);
                } else {
                    assert(views(all@)[t] == added[t - before.len()]);
                }
            }
        }
        i = i + 1;
    }
    assert(views(dirs@).take(i as int) =~= views(dirs@));
    all
}

/// Sorting diffs by test name leaves each diff as it was.
pub proof fn lemma_sorted_phases_ordered(diffs: Seq<TestDiffView>)
    requires
        all_phases_ordered(diffs),
    ensures
        all_phases_ordered(stable_sort(diffs)),
        well_ordered(stable_sort(diffs)),
{
    let sorted = stable_sort(diffs);
    lemma_stable_sort(diffs);
    assert forall|i: int| 0 <= i < sorted.len() implies phases_ordered(#[trigger] sorted[i]) by {
        lemma_stable_sort_contains(diffs, sorted[i]);
        assert(sorted.contains(sorted[i]));
        let k = choose|k: int| 0 <= k < diffs.len() && diffs[k] == sorted[i];
        assert(phases_ordered(diffs[k]));
    }
}

/// The diffs to review for the tests whose source files are `test_paths`,
/// given the snapshots `dirs` of their directories. The paths are split into
/// directory and test name; a directory that has no snapshot gives no diff.
/// The diffs ascend by test name, each holds at least one phase, and its
/// phases ascend.
pub fn run_review_for_tests(test_paths: &Vec<String>, dirs: &Vec<DirSnapshot>) -> (diffs: Vec<
    TestDiff,
>)
    ensures
        views(diffs@) == review_list_for_tests(views(test_paths@), views(dirs@)),
        well_ordered(views(diffs@)),
{
    let groups = group_tests_by_dir(test_paths);
    let mut all: Vec<TestDiff> = Vec::new();
    let ghost mut unsorted: Seq<TestDiffView> = Seq::empty();
    let mut i: usize = 0;
    assert(views(all@) =~= Seq::<TestDiffView>::empty());
    assert(views(groups@).take(0) =~= Seq::<DirTestsView>::empty());
    while i < groups.len()
        invariant
            i <= groups.len(),
            unsorted == group_diffs(views(groups@).take(i as int), views(dirs@)),
            views(all@) == stable_sort(unsorted),
            all_phases_ordered(unsorted),
        decreases groups.len() - i,
    {
        proof {
            assert(views(groups@).take(i + 1).drop_last() =~= views(groups@).take(i as int));
            assert(views(groups@).take(i + 1).last() == groups@[i as int]@);
        }
        match find_named(dirs, groups[i].dir.as_str()) {
            Some(k) => {
                let mut found = discover_diffs(&dirs[k], Some(&groups[i].tests));
                let ghost added = views(found@);
                let ghost start = unsorted;
                let ghost mut n: int = 0;
                assert(start + added.take(0) =~= start);
                while found.len() > 0
                    invariant
                        0 <= n,
                        n + found@.len() == added.len(),
                        views(found@) == added.skip(n),
                        unsorted == start + added.take(n),
                        views(all@) == stable_sort(unsorted),
                        all_phases_ordered(start),
                        all_phases_ordered(added),
                        all_phases_ordered(unsorted),
                    decreases found@.len(),
                {
                    let ghost rest = found@;
                    let d = found.remove(0);
                    proof {
                        assert(d@ == views(rest)[0]);
                        assert(d@ == added[n]);
                        assert(found@ =~= rest.skip(1));
                        assert(views(found@) =~= views(rest).skip(1));
                        assert(views(found@) =~= added.skip(n + 1));
                        lemma_stable_sort_push(unsorted, d@);
                        assert(unsorted.push(d@) =~= start + added.take(n + 1));
                        unsorted = unsorted.push(d@);
                        assert forall|t: int| 0 <= t < unsorted.len() implies phases_ordered(
                            #[trigger] unsorted[t],
                        ) by {
                            if t < unsorted.len() - 1 {
                                assert(unsorted[t] == (start + added.take(n))[t]);
                            }
                        }
                        n = n + 1;
                    }
                    insert_sorted(&mut all, d);
                }
                assert(added.take(n) =~= added);
            },
            None => {},
        }
        i = i + 1;
    }
    proof {
        assert(views(groups@).take(i as int) =~= views(groups@));
        lemma_sorted_phases_ordered(unsorted);
    }
    all
}

/// The directories that `test_paths` name, each once, in the order in which
/// they first occur: those whose snapshots `run_review_for_tests` reads.
pub fn review_dirs(test_paths: &Vec<String>) -> (dirs: Vec<String>)
    ensures
        views(dirs@) == names_of(group_by_dir(views(test_paths@))),
{
    let groups = group_tests_by_dir(test_paths);
    let mut dirs: Vec<String> = Vec::new();
    let mut i: usize = 0;
    while i < groups.len()
        invariant
            i <= groups.len(),
            views(dirs@) == names_of(views(groups@)).take(i as int),
        decreases groups.len() - i,
    {
        let ghost before = dirs@;
        dirs.push(groups[i].dir.clone());
        assert(views(dirs@) =~= views(before).push(groups@[i as int]@.dir));
        assert(names_of(views(groups@)).take(i + 1) =~= names_of(views(groups@)).take(
            i as int,
        ).push(groups@[i as int]@.dir));
        i = i + 1;
    }
    assert(names_of(views(groups@)).take(i as int) =~= names_of(views(groups@)));
    dirs
}

/// What accepting one diff changed: the golden files of which test in which
/// directory, and how.
#[derive(Clone, Debug, PartialEq, Eq)]
pub struct Accepted {
    pub dir: String,
    pub test_name: String,
    pub ops: Vec<GoldenOp>,
}

/// The mathematical value of an [`Accepted`].
pub ghost struct AcceptedView {
    pub dir: Seq<char>,
    pub test_name: Seq<char>,
    pub ops: Seq<GoldenOpView>,
}

impl View for Accepted {
    type V = AcceptedView;

    open spec fn view(&self) -> AcceptedView {
        AcceptedView { dir: self.dir@, test_name: self.test_name@, ops: views(self.ops@) }
    }
}

/// The directories after accepting `diff`: the first snapshot of the diff's
/// directory changes as acceptance says; without such a snapshot nothing
/// changes.
pub open spec fn accepted_in(dirs: Seq<DirView>, diff: TestDiffView) -> Seq<DirView> {
    match first_named(dirs, diff.dir) {
        Some(k) => dirs.update(k, accepted(dirs[k], diff)),
        None => dirs,
    }
}

/// The directories after accepting `diffs`, in order.
pub open spec fn accepted_all(dirs: Seq<DirView>, diffs: Seq<TestDiffView>) -> Seq<DirView>
    decreases diffs.len(),
{
    if diffs.len() == 0 {
        dirs
    } else {
        accepted_in(accepted_all(dirs, diffs.drop_last()), diffs.last())
    }
}

/// The record of accepting `diffs`, in order: one entry for each diff whose
/// directory has a snapshot.
pub open spec fn accept_log(dirs: Seq<DirView>, diffs: Seq<TestDiffView>) -> Seq<AcceptedView>
    decreases diffs.len(),
{
    if diffs.len() == 0 {
        Seq::empty()
    } else {
        let before = accepted_all(dirs, diffs.drop_last());
        let log = accept_log(dirs, diffs.drop_last());
        let diff = diffs.last();
        match first_named(before, diff.dir) {
            Some(k) => log.push(
                AcceptedView {
                    dir: diff.dir,
                    test_name: diff.test_name,
                    ops: accept_ops(diff.test_name, diff.phase_diffs, artifacts(before[k])),
                },
            ),
            None => log,
        }
    }
}

/// The diffs at the indices from `from` up to `to`; indices beyond the list
/// are left out.
pub open spec fn in_range(diffs: Seq<TestDiffView>, from: usize, to: usize) -> Seq<TestDiffView> {
    let end = if to <= diffs.len() {
        to as int
    } else {
        diffs.len() as int
    };
    if from < end {
        diffs.subrange(from as int, end)
    } else {
        Seq::empty()
    }
}

/// Accepts the diffs at the indices from `from` up to `to`, in list order,
/// each in the snapshot of its directory, and returns what was changed, for
/// the caller to repeat on disk.
pub fn accept_range(diffs: &Vec<TestDiff>, dirs: &mut Vec<DirSnapshot>, from: usize, to: usize) -> (log:
    Vec<Accepted>)
    ensures
        views(final(dirs)@) == accepted_all(views(old(dirs)@), in_range(views(diffs@), from, to)),
        views(log@) == accept_log(views(old(dirs)@), in_range(views(diffs@), from, to)),
{
    let mut log: Vec<Accepted> = Vec::new();
    let end = if to <= diffs.len() {
        to
    } else {
        diffs.len()
    };
    assert(views(log@) =~= Seq::<AcceptedView>::empty());
    if from >= end {
        return log;
    }
    let ghost start = views(dirs@);
    let ghost range = in_range(views(diffs@), from, to);
    let mut i: usize = from;
    assert(range.take(0) =~= Seq::<TestDiffView>::empty());
    while i < end
        invariant
            from <= i <= end <= diffs.len(),
            range == views(diffs@).subrange(from as int, end as int),
            views(dirs@) == accepted_all(start, range.take(i - from)),
            views(log@) == accept_log(start, range.take(i - from)),
        decreases end - i,
    {
        proof {
            assert(range.take(i - from + 1).drop_last() =~= range.take(i - from));
            assert(range.take(i - from + 1).last() == diffs@[i as int]@);
        }
        match find_named(dirs, diffs[i].dir.as_str()) {
            Some(k) => {
                let ghost before = dirs@;
                let ghost logged = log@;
                let mut snapshot = dirs.remove(k);
                let ops = accept_test(&diffs[i], &mut snapshot);
                dirs.insert(k, snapshot);
                let entry = Accepted {
                    dir: diffs[i].dir.clone(),
                    test_name: diffs[i].test_name.clone(),
                    ops,
                };
                log.push(entry);
                proof {
                    assert(views(dirs@) =~= views(before).update(
                        k as int,
                        accepted(before[k as int]@, diffs@[i as int]@),
                    ));
                    assert(views(log@) =~= views(logged).push(entry@));
                }
            },
            None => {},
        }
        i = i + 1;
    }
    assert(range.take(i - from) =~= range);
    log
}

} // verus!
