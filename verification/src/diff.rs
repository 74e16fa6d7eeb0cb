//! Differences between a directory's artifacts and its golden files.

use crate::names::{
    extract_phase, golden_name, is_non_comparable, lemma_phase_round_trip, non_comparable,
    phase_of, source_stem, test_name_from_source,
};
use crate::order::{
    ascending, insert_point, insert_position, insert_sorted, lemma_insert_point, lemma_stable_sort,
    lemma_stable_sort_contains, lemma_stable_sort_push, lemma_stable_sort_strict, names_differ,
    names_of, stable_sort, strictly_ascending, views, Keyed, Named,
};
use crate::store::{
    lemma_position_none, lookup, names_distinct, DirSnapshot, DirView, FileStore, FileView,
};
use crate::text::{
    equal, lemma_lex_irreflexive, lemma_lex_total, lemma_lex_transitive, lex_le, lex_lt,
};
use vstd::prelude::*;
use vstd::string::*;

verus! {

/// How an artifact differs from what was accepted.
#[derive(Clone, Debug, PartialEq, Eq)]
pub enum DiffKind {
    /// A golden file exists and its text is not the artifact's.
    Changed { expected: String, actual: String },
    /// No golden file exists and the artifact is not empty.
    New { content: String },
}

/// The mathematical value of a [`DiffKind`].
pub ghost enum DiffKindView {
    Changed { expected: Seq<char>, actual: Seq<char> },
    New { content: Seq<char> },
}

impl View for DiffKind {
    type V = DiffKindView;

    open spec fn view(&self) -> DiffKindView {
        match self {
            DiffKind::Changed { expected, actual } => DiffKindView::Changed {
                expected: expected@,
                actual: actual@,
            },
            DiffKind::New { content } => DiffKindView::New { content: content@ },
        }
    }
}

/// The difference found for one phase of a test.
#[derive(Clone, Debug, PartialEq, Eq)]
pub struct PhaseDiff {
    pub phase: String,
    pub kind: DiffKind,
}

/// The mathematical value of a [`PhaseDiff`].
pub ghost struct PhaseDiffView {
    pub phase: Seq<char>,
    pub kind: DiffKindView,
}

impl View for PhaseDiff {
    type V = PhaseDiffView;

    open spec fn view(&self) -> PhaseDiffView {
        PhaseDiffView { phase: self.phase@, kind: self.kind@ }
    }
}

impl Named for PhaseDiffView {
    open spec fn name(self) -> Seq<char> {
        self.phase
    }
}

impl Keyed for PhaseDiff {
    fn key(&self) -> (k: &str) {
        self.phase.as_str()
    }
}

/// All differences found for one test.
#[derive(Clone, Debug, PartialEq, Eq)]
pub struct TestDiff {
    pub test_name: String,
    pub source_file: String,
    pub dir: String,
    pub phase_diffs: Vec<PhaseDiff>,
}

/// The mathematical value of a [`TestDiff`].
pub ghost struct TestDiffView {
    pub test_name: Seq<char>,
    pub source_file: Seq<char>,
    pub dir: Seq<char>,
    pub phase_diffs: Seq<PhaseDiffView>,
}

impl View for TestDiff {
    type V = TestDiffView;

    open spec fn view(&self) -> TestDiffView {
        TestDiffView {
            test_name: self.test_name@,
            source_file: self.source_file@,
            dir: self.dir@,
            phase_diffs: views(self.phase_diffs@),
        }
    }
}

impl Named for TestDiffView {
    open spec fn name(self) -> Seq<char> {
        self.test_name
    }
}

impl Keyed for TestDiff {
    fn key(&self) -> (k: &str) {
        self.test_name.as_str()
    }
}

/// A test as found among a directory's files: its name and its source file.
#[derive(Clone, Debug, PartialEq, Eq)]
pub struct SourceEntry {
    pub stem: String,
    pub file: String,
}

/// The mathematical value of a [`SourceEntry`].
pub ghost struct SourceView {
    pub stem: Seq<char>,
    pub file: Seq<char>,
}

impl View for SourceEntry {
    type V = SourceView;

    open spec fn view(&self) -> SourceView {
        SourceView { stem: self.stem@, file: self.file@ }
    }
}

impl Named for SourceView {
    open spec fn name(self) -> Seq<char> {
        self.stem
    }
}

impl Keyed for SourceEntry {
    fn key(&self) -> (k: &str) {
        self.stem.as_str()
    }
}

/// The verdict on one artifact: `Changed` if its golden file exists with
/// other text, `New` if none exists and the artifact is not empty, else
/// nothing.
pub open spec fn classify(golden: Seq<FileView>, name: Seq<char>, actual: Seq<char>) -> Option<
    DiffKindView,
> {
    match lookup(golden, golden_name(name)) {
        Some(expected) => if expected != actual {
            Some(DiffKindView::Changed { expected, actual })
        } else {
            None
        },
        None => if actual.len() > 0 {
            Some(DiffKindView::New { content: actual })
        } else {
            None
        },
    }
}

/// What the artifact `file` contributes to test `stem`: a phase difference
/// if the artifact belongs to the test, is comparable and differs.
pub open spec fn entry_diff(stem: Seq<char>, file: FileView, golden: Seq<FileView>) -> Option<
    PhaseDiffView,
> {
    match phase_of(stem, file.name) {
        Some(phase) => if non_comparable(file.name) {
            None
        } else {
            match classify(golden, file.name, file.content) {
                Some(kind) => Some(PhaseDiffView { phase, kind }),
                None => None,
            }
        },
        None => None,
    }
}

/// The phase differences of test `stem`, in the order of the artifacts.
pub open spec fn unsorted_phase_diffs(
    stem: Seq<char>,
    out: Seq<FileView>,
    golden: Seq<FileView>,
) -> Seq<PhaseDiffView>
    decreases out.len(),
{
    if out.len() == 0 {
        Seq::empty()
    } else {
        let rest = unsorted_phase_diffs(stem, out.drop_last(), golden);
        match entry_diff(stem, out.last(), golden) {
            Some(d) => rest.push(d),
            None => rest,
        }
    }
}

/// The phase differences of test `stem`, ascending by phase.
pub open spec fn phase_diffs_of(stem: Seq<char>, out: Seq<FileView>, golden: Seq<FileView>) -> Seq<
    PhaseDiffView,
> {
    stable_sort(unsorted_phase_diffs(stem, out, golden))
}

/// `index` after recording `entry`: an entry of the same test name is
/// replaced, a new one goes to its place in ascending order.
pub open spec fn index_put(index: Seq<SourceView>, entry: SourceView) -> Seq<SourceView> {
    let p = insert_point(names_of(index), entry.stem);
    if p > 0 && index[p - 1].stem == entry.stem {
        index.update(p - 1, entry)
    } else {
        index.insert(p, entry)
    }
}

/// The tests of a directory, ascending by name and each once: every file
/// name that is a test source, under its test name; of two sources of one
/// test the later listed stands.
pub open spec fn source_index(sources: Seq<Seq<char>>) -> Seq<SourceView>
    decreases sources.len(),
{
    if sources.len() == 0 {
        Seq::empty()
    } else {
        let rest = source_index(sources.drop_last());
        match source_stem(sources.last()) {
            Some(stem) => index_put(rest, SourceView { stem, file: sources.last() }),
            None => rest,
        }
    }
}

/// Whether the test `stem` is asked for: always without a filter, else when
/// the filter names it.
pub open spec fn in_scope(filter: Option<Seq<Seq<char>>>, stem: Seq<char>) -> bool {
    match filter {
        Some(wanted) => wanted.contains(stem),
        None => true,
    }
}

/// The diff of one test, if any of its phases differs.
pub open spec fn test_diff_of(
    dir: Seq<char>,
    entry: SourceView,
    out: Seq<FileView>,
    golden: Seq<FileView>,
) -> Option<TestDiffView> {
    let phase_diffs = phase_diffs_of(entry.stem, out, golden);
    if phase_diffs.len() > 0 {
        Some(
            TestDiffView { test_name: entry.stem, source_file: entry.file, dir, phase_diffs },
        )
    } else {
        None
    }
}

/// The diffs of the tests in `index` that are in scope, in index order.
pub open spec fn diffs_of_index(
    dir: Seq<char>,
    index: Seq<SourceView>,
    out: Seq<FileView>,
    golden: Seq<FileView>,
    filter: Option<Seq<Seq<char>>>,
) -> Seq<TestDiffView>
    decreases index.len(),
{
    if index.len() == 0 {
        Seq::empty()
    } else {
        let rest = diffs_of_index(dir, index.drop_last(), out, golden, filter);
        if in_scope(filter, index.last().stem) {
            match test_diff_of(dir, index.last(), out, golden) {
                Some(d) => rest.push(d),
                None => rest,
            }
        } else {
            rest
        }
    }
}

/// Every diff between the directory's artifacts and its golden files, for
/// the tests in scope: nothing where there is no artifact store.
pub open spec fn discover(d: DirView, filter: Option<Seq<Seq<char>>>) -> Seq<TestDiffView> {
    match d.out {
        Some(out) => diffs_of_index(d.dir, source_index(d.sources), out, d.golden, filter),
        None => Seq::empty(),
    }
}

/// The view of an optional filter.
pub open spec fn filter_view(filter: Option<&Vec<String>>) -> Option<Seq<Seq<char>>> {
    match filter {
        Some(wanted) => Some(views(wanted@)),
        None => None,
    }
}

/// Whether `list` holds `name`.
pub fn holds(list: &Vec<String>, name: &str) -> (r: bool)
    ensures
        r == views(list@).contains(name@),
{
    let mut i: usize = 0;
    while i < list.len()
        invariant
            i <= list.len(),
            forall|j: int| 0 <= j < i ==> views(list@)[j] != name@,
        decreases list.len() - i,
    {
        if equal(list[i].as_str(), name) {
            assert(views(list@)[i as int] == name@);
            return true;
        }
        i = i + 1;
    }
    false
}

/// The verdict on the artifact `name` with text `actual`.
pub fn classify_artifact(golden: &FileStore, name: &str, actual: &str) -> (r: Option<DiffKind>)
    ensures
        r is Some <==> classify(golden@, name@, actual@) is Some,
        r matches Some(kind) ==> classify(golden@, name@, actual@) == Some(kind@),
{
    let key = String::from_str(name).concat(".ok");
    match golden.get(key.as_str()) {
        Some(expected) => {
            if equal(expected.as_str(), actual) {
                None
            } else {
                Some(
                    DiffKind::Changed {
                        expected: expected.clone(),
                        actual: String::from_str(actual),
                    },
                )
            }
        },
        None => {
            if actual.is_empty() {
                None
            } else {
                Some(DiffKind::New { content: String::from_str(actual) })
            }
        },
    }
}

/// The phase differences of test `stem`, ascending by phase.
pub fn phase_diffs_for(stem: &str, out: &FileStore, golden: &FileStore) -> (r: Vec<PhaseDiff>)
    ensures
        views(r@) == phase_diffs_of(stem@, out@, golden@),
{
    let mut diffs: Vec<PhaseDiff> = Vec::new();
    let mut i: usize = 0;
    assert(views(diffs@) =~= Seq::<PhaseDiffView>::empty());
    assert(out@.take(0) =~= Seq::<FileView>::empty());
    while i < out.len()
        invariant
            i <= out@.len(),
            views(diffs@) == phase_diffs_of(stem@, out@.take(i as int), golden@),
        decreases out@.len() - i,
    {
        let file = out.file(i);
        let ghost seen = out@.take(i as int);
        proof {
            assert(out@.take(i + 1).drop_last() =~= seen);
            assert(out@.take(i + 1).last() == out@[i as int]);
        }
        match extract_phase(stem, file.name.as_str()) {
            Some(phase) => {
                if !is_non_comparable(file.name.as_str()) {
                    match classify_artifact(golden, file.name.as_str(), file.content.as_str()) {
                        Some(kind) => {
                            let d = PhaseDiff { phase, kind };
                            proof {
                                lemma_stable_sort_push(
                                    unsorted_phase_diffs(stem@, seen, golden@),
                                    d@,
                                );
                            }
                            insert_sorted(&mut diffs, d);
                        },
                        None => {},
                    }
                }
            },
            None => {},
        }
        i = i + 1;
    }
    assert(out@.take(i as int) =~= out@);
    diffs
}

/// Records `entry` in `index`.
pub fn put_source(index: &mut Vec<SourceEntry>, entry: SourceEntry)
    ensures
        views(final(index)@) == index_put(views(old(index)@), entry@),
{
    let p = insert_position(index, entry.key());
    proof {
        lemma_insert_point(names_of(views(index@)), entry@.stem);
    }
    let ghost before = index@;
    if p > 0 && equal(index[p - 1].stem.as_str(), entry.stem.as_str()) {
        index.set(p - 1, entry);
        assert(views(index@) =~= views(before).update(p - 1, entry@));
    } else {
        index.insert(p, entry);
        assert(views(index@) =~= views(before).insert(p as int, entry@));
    }
}

/// The tests of a directory whose files are `sources`, ascending by name.
pub fn index_sources(sources: &Vec<String>) -> (r: Vec<SourceEntry>)
    ensures
        views(r@) == source_index(views(sources@)),
{
    let mut index: Vec<SourceEntry> = Vec::new();
    let mut i: usize = 0;
    assert(views(index@) =~= Seq::<SourceView>::empty());
    assert(views(sources@).take(0) =~= Seq::<Seq<char>>::empty());
    while i < sources.len()
        invariant
            i <= sources.len(),
            views(index@) == source_index(views(sources@).take(i as int)),
        decreases sources.len() - i,
    {
        proof {
            assert(views(sources@).take(i + 1).drop_last() =~= views(sources@).take(i as int));
            assert(views(sources@).take(i + 1).last() == sources@[i as int]@);
        }
        match test_name_from_source(sources[i].as_str()) {
            Some(stem) => {
                let entry = SourceEntry { stem: String::from_str(stem), file: sources[i].clone() };
                put_source(&mut index, entry);
            },
            None => {},
        }
        i = i + 1;
    }
    assert(views(sources@).take(i as int) =~= views(sources@));
    index
}

/// The diff holds at least one phase, and its phases ascend.
pub open spec fn phases_ordered(diff: TestDiffView) -> bool {
    diff.phase_diffs.len() > 0 && ascending(names_of(diff.phase_diffs))
}

/// Each diff has at least one phase, its phases ascend, and the diffs
/// ascend by test name.
pub open spec fn well_ordered(diffs: Seq<TestDiffView>) -> bool {
    &&& ascending(names_of(diffs))
    &&& forall|i: int| 0 <= i < diffs.len() ==> phases_ordered(#[trigger] diffs[i])
}

/// Every diff between the artifacts and the golden files of the directory,
/// for all its tests or for those that `filter` names. The diffs ascend by
/// test name, no test twice; each holds at least one phase, and its phases
/// ascend.
pub fn discover_diffs(snapshot: &DirSnapshot, filter: Option<&Vec<String>>) -> (r: Vec<TestDiff>)
    ensures
        views(r@) == discover(snapshot@, filter_view(filter)),
        well_ordered(views(r@)),
        strictly_ascending(names_of(views(r@))),
{
    proof {
        lemma_discover_ordered(snapshot@, filter_view(filter));
    }
    let mut results: Vec<TestDiff> = Vec::new();
    assert(views(results@) =~= Seq::<TestDiffView>::empty());
    match &snapshot.out {
        None => results,
        Some(out) => {
            let index = index_sources(&snapshot.sources);
            let mut i: usize = 0;
            assert(views(index@).take(0) =~= Seq::<SourceView>::empty());
            while i < index.len()
                invariant
                    i <= index.len(),
                    views(results@) == diffs_of_index(
                        snapshot.dir@,
                        views(index@).take(i as int),
                        out@,
                        snapshot.golden@,
                        filter_view(filter),
                    ),
                decreases index.len() - i,
            {
                proof {
                    assert(views(index@).take(i + 1).drop_last() =~= views(index@).take(i as int));
                    assert(views(index@).take(i + 1).last() == index@[i as int]@);
                }
                let wanted = match filter {
                    Some(names) => holds(names, index[i].stem.as_str()),
                    None => true,
                };
                if wanted {
                    let phase_diffs = phase_diffs_for(
                        index[i].stem.as_str(),
                        out,
                        &snapshot.golden,
                    );
                    if phase_diffs.len() > 0 {
                        let ghost before = results@;
                        let d = TestDiff {
                            test_name: index[i].stem.clone(),
                            source_file: index[i].file.clone(),
                            dir: snapshot.dir.clone(),
                            phase_diffs,
                        };
                        results.push(d);
                        assert(views(results@) =~= views(before).push(d@));
                    }
                }
                i = i + 1;
            }
            assert(views(index@).take(i as int) =~= views(index@));
            results
        },
    }
}

/// Recording an entry keeps an index strictly ascending.
pub proof fn lemma_index_put_strict(index: Seq<SourceView>, entry: SourceView)
    requires
        strictly_ascending(names_of(index)),
    ensures
        strictly_ascending(names_of(index_put(index, entry))),
{
    let names = names_of(index);
    let p = insert_point(names, entry.stem);
    lemma_insert_point(names, entry.stem);
    let after = names_of(index_put(index, entry));
    if p > 0 && index[p - 1].stem == entry.stem {
        assert(after =~= names);
    } else {
        assert forall|i: int, j: int| 0 <= i < j < after.len() implies lex_lt(
            after[i],
            after[j],
        ) by {
            if j == p {
                assert(after[i] == names[i]);
                lemma_lex_total(names[p - 1], entry.stem);
                if i < p - 1 {
                    assert(lex_lt(names[i], names[p - 1]));
                    lemma_lex_transitive(names[i], names[p - 1], entry.stem);
                }
            } else if i == p {
                assert(after[j] == names[j - 1]);
            } else {
                let oi = if i < p {
                    i
                } else {
                    i - 1
                };
                let oj = if j < p {
                    j
                } else {
                    j - 1
                };
                assert(after[i] == names[oi]);
                assert(after[j] == names[oj]);
            }
        }
    }
}

/// The tests of a directory ascend strictly by name: none occurs twice.
pub proof fn lemma_source_index_strict(sources: Seq<Seq<char>>)
    ensures
        strictly_ascending(names_of(source_index(sources))),
    decreases sources.len(),
{
    if sources.len() > 0 {
        lemma_source_index_strict(sources.drop_last());
        if let Some(stem) = source_stem(sources.last()) {
            lemma_index_put_strict(
                source_index(sources.drop_last()),
                SourceView { stem, file: sources.last() },
            );
        }
    }
}

/// `entry` stands for the source file at `i`, and no later source file is of
/// the same test.
pub open spec fn is_source_at(sources: Seq<Seq<char>>, entry: SourceView, i: int) -> bool {
    &&& 0 <= i < sources.len()
    &&& source_stem(sources[i]) == Some(entry.stem)
    &&& sources[i] == entry.file
    &&& forall|j: int| i < j < sources.len() ==> source_stem(sources[j]) != Some(entry.stem)
}

/// `entry` stands for the last source file of its test.
pub open spec fn is_last_source(sources: Seq<Seq<char>>, entry: SourceView) -> bool {
    exists|i: int| is_source_at(sources, entry, i)
}

/// After recording an entry, an index holds that entry and those of the
/// entries it held before that are of another test.
pub proof fn lemma_index_put_members(index: Seq<SourceView>, entry: SourceView, e: SourceView)
    requires
        strictly_ascending(names_of(index)),
    ensures
        index_put(index, entry).contains(e) <==> e == entry || (index.contains(e) && e.stem
            != entry.stem),
{
    let names = names_of(index);
    let p = insert_point(names, entry.stem);
    lemma_insert_point(names, entry.stem);
    let after = index_put(index, entry);
    assert forall|j: int| 0 <= j < index.len() && !(p > 0 && j == p - 1) implies index[j].stem
        != entry.stem by {
        assert(names[j] == index[j].stem);
        if j >= p {
            lemma_lex_irreflexive(entry.stem);
        } else if p > 0 && j < p - 1 {
            assert(lex_lt(names[j], names[p - 1]));
        }
    }
    let replaces = p > 0 && index[p - 1].stem == entry.stem;
    if after.contains(e) {
        let k = choose|k: int| 0 <= k < after.len() && after[k] == e;
        if replaces {
            if k != p - 1 {
                assert(index[k] == e);
            }
        } else {
            if k < p {
                assert(index[k] == e);
            } else if k > p {
                assert(index[k - 1] == e);
            }
        }
    }
    if e == entry {
        if replaces {
            assert(after[p - 1] == e);
        } else {
            assert(after[p] == e);
        }
    }
    if index.contains(e) && e.stem != entry.stem {
        let k = choose|k: int| 0 <= k < index.len() && index[k] == e;
        if replaces {
            assert(after[k] == e);
        } else if k < p {
            assert(after[k] == e);
        } else {
            assert(after[k + 1] == e);
        }
    }
}

/// The tests of a directory are those that have a source file, each with
/// the last of its source files.
pub proof fn lemma_source_index_members(sources: Seq<Seq<char>>, e: SourceView)
    ensures
        source_index(sources).contains(e) <==> is_last_source(sources, e),
    decreases sources.len(),
{
    if sources.len() > 0 {
        let front = sources.drop_last();
        let rest = source_index(front);
        lemma_source_index_members(front, e);
        lemma_source_index_strict(front);
        let last = sources.len() - 1;
        match source_stem(sources.last()) {
            Some(stem) => {
                let entry = SourceView { stem, file: sources.last() };
                lemma_index_put_members(rest, entry, e);
                if source_index(sources).contains(e) {
                    if e == entry {
                        assert(is_source_at(sources, e, last));
                    } else {
                        let i = choose|i: int| is_source_at(front, e, i);
                        assert(front[i] == sources[i]);
                        assert forall|j: int| i < j < sources.len() implies source_stem(
                            sources[j],
                        ) != Some(e.stem) by {
                            if j < last {
                                assert(front[j] == sources[j]);
                            }
                        }
                        assert(is_source_at(sources, e, i));
                    }
                }
                if is_last_source(sources, e) {
                    let i = choose|i: int| is_source_at(sources, e, i);
                    if i < last {
                        assert(front[i] == sources[i]);
                        assert forall|j: int| i < j < front.len() implies source_stem(front[j])
                            != Some(e.stem) by {
                            assert(front[j] == sources[j]);
                        }
                        assert(is_source_at(front, e, i));
                    }
                }
            },
            None => {
                if source_index(sources).contains(e) {
                    let i = choose|i: int| is_source_at(front, e, i);
                    assert(front[i] == sources[i]);
                    assert forall|j: int| i < j < sources.len() implies source_stem(sources[j])
                        != Some(e.stem) by {
                        if j < last {
                            assert(front[j] == sources[j]);
                        }
                    }
                    assert(is_source_at(sources, e, i));
                }
                if is_last_source(sources, e) {
                    let i = choose|i: int| is_source_at(sources, e, i);
                    assert(front[i] == sources[i]);
                    assert forall|j: int| i < j < front.len() implies source_stem(front[j])
                        != Some(e.stem) by {
                        assert(front[j] == sources[j]);
                    }
                    assert(is_source_at(front, e, i));
                }
            },
        }
    } else {
        if is_last_source(sources, e) {
            let i = choose|i: int| is_source_at(sources, e, i);
        }
    }
}

/// The diffs of an index are diffs of its entries, in the order of the
/// entries: each names an entry in scope, and of two diffs the later names
/// the later entry.
pub proof fn lemma_diffs_of_index(
    dir: Seq<char>,
    index: Seq<SourceView>,
    out: Seq<FileView>,
    golden: Seq<FileView>,
    filter: Option<Seq<Seq<char>>>,
)
    ensures
        forall|t: int|
            0 <= t < diffs_of_index(dir, index, out, golden, filter).len() ==> from_entry(
                dir,
                index,
                out,
                golden,
                filter,
                #[trigger] diffs_of_index(dir, index, out, golden, filter)[t],
            ),
        strictly_ascending(names_of(index)) ==> strictly_ascending(
            names_of(diffs_of_index(dir, index, out, golden, filter)),
        ),
    decreases index.len(),
{
    let diffs = diffs_of_index(dir, index, out, golden, filter);
    if index.len() > 0 {
        let front = index.drop_last();
        let rest = diffs_of_index(dir, front, out, golden, filter);
        lemma_diffs_of_index(dir, front, out, golden, filter);
        assert forall|t: int| 0 <= t < diffs.len() implies from_entry(
            dir,
            index,
            out,
            golden,
            filter,
            #[trigger] diffs[t],
        ) by {
            if t < rest.len() {
                assert(diffs[t] == rest[t]);
                let j = choose|j: int| is_diff_of_entry(dir, front, out, golden, filter, rest[t], j);
                assert(front[j] == index[j]);
                assert(is_diff_of_entry(dir, index, out, golden, filter, diffs[t], j));
            } else {
                assert(is_diff_of_entry(dir, index, out, golden, filter, diffs[t], index.len() - 1));
            }
        }
        if strictly_ascending(names_of(index)) {
            lemma_names_prefix(index);
            assert forall|a: int, b: int| 0 <= a < b < diffs.len() implies lex_lt(
                names_of(diffs)[a],
                names_of(diffs)[b],
            ) by {
                if b < rest.len() {
                    assert(names_of(diffs)[a] == names_of(rest)[a]);
                    assert(names_of(diffs)[b] == names_of(rest)[b]);
                } else {
                    assert(diffs[a] == rest[a]);
                    let j = choose|j: int| is_diff_of_entry(dir, front, out, golden, filter, rest[a], j);
                    assert(names_of(index)[j] == front[j].stem);
                    assert(names_of(index)[index.len() - 1] == index.last().stem);
                }
            }
        }
    }
}

/// `d` is the diff of the entry at `j` of `index`, which is in scope.
pub open spec fn is_diff_of_entry(
    dir: Seq<char>,
    index: Seq<SourceView>,
    out: Seq<FileView>,
    golden: Seq<FileView>,
    filter: Option<Seq<Seq<char>>>,
    d: TestDiffView,
    j: int,
) -> bool {
    &&& 0 <= j < index.len()
    &&& in_scope(filter, index[j].stem)
    &&& test_diff_of(dir, index[j], out, golden) == Some(d)
}

/// `d` is the diff of some entry of `index` that is in scope.
pub open spec fn from_entry(
    dir: Seq<char>,
    index: Seq<SourceView>,
    out: Seq<FileView>,
    golden: Seq<FileView>,
    filter: Option<Seq<Seq<char>>>,
    d: TestDiffView,
) -> bool {
    exists|j: int| is_diff_of_entry(dir, index, out, golden, filter, d, j)
}

/// The names of an index without its last entry are the names of the index
/// without the last name.
proof fn lemma_names_prefix(index: Seq<SourceView>)
    requires
        index.len() > 0,
        strictly_ascending(names_of(index)),
    ensures
        strictly_ascending(names_of(index.drop_last())),
{
    let front = names_of(index.drop_last());
    assert forall|i: int, j: int| 0 <= i < j < front.len() implies lex_lt(front[i], front[j]) by {
        assert(front[i] == names_of(index)[i]);
        assert(front[j] == names_of(index)[j]);
    }
}

/// What discovery returns is well ordered, and no test occurs in it twice.
pub proof fn lemma_discover_ordered(d: DirView, filter: Option<Seq<Seq<char>>>)
    ensures
        well_ordered(discover(d, filter)),
        strictly_ascending(names_of(discover(d, filter))),
{
    let diffs = discover(d, filter);
    if let Some(out) = d.out {
        let index = source_index(d.sources);
        lemma_source_index_strict(d.sources);
        lemma_diffs_of_index(d.dir, index, out, d.golden, filter);
        assert forall|i: int| 0 <= i < diffs.len() implies phases_ordered(#[trigger] diffs[i]) by {
            assert(from_entry(d.dir, index, out, d.golden, filter, diffs[i]));
            let j = choose|j: int| is_diff_of_entry(d.dir, index, out, d.golden, filter, diffs[i], j);
            lemma_stable_sort(unsorted_phase_diffs(index[j].stem, out, d.golden));
        }
    }
    assert forall|i: int, j: int| 0 <= i < j < diffs.len() implies lex_le(
        names_of(diffs)[i],
        names_of(diffs)[j],
    ) by {}
}

/// `p` is what the artifact at `k` contributes to test `stem`.
pub open spec fn is_diff_of_artifact(
    stem: Seq<char>,
    out: Seq<FileView>,
    golden: Seq<FileView>,
    p: PhaseDiffView,
    k: int,
) -> bool {
    0 <= k < out.len() && entry_diff(stem, out[k], golden) == Some(p)
}

/// `p` is what some artifact contributes to test `stem`.
pub open spec fn from_artifact(
    stem: Seq<char>,
    out: Seq<FileView>,
    golden: Seq<FileView>,
    p: PhaseDiffView,
) -> bool {
    exists|k: int| is_diff_of_artifact(stem, out, golden, p, k)
}

/// `x` is in `diffs`, and no other item of `diffs` is of its phase.
pub open spec fn holds_once(diffs: Seq<PhaseDiffView>, x: PhaseDiffView) -> bool {
    exists|u: int|
        0 <= u < diffs.len() && diffs[u] == x && forall|v: int|
            0 <= v < diffs.len() && v != u ==> diffs[v].phase != x.phase
}

/// Before sorting: every phase difference comes from an artifact, every
/// artifact that differs is there, and artifacts of different names give
/// different phases.
proof fn lemma_unsorted_phase_diffs(stem: Seq<char>, out: Seq<FileView>, golden: Seq<FileView>)
    ensures
        forall|u: int|
            0 <= u < unsorted_phase_diffs(stem, out, golden).len() ==> from_artifact(
                stem,
                out,
                golden,
                #[trigger] unsorted_phase_diffs(stem, out, golden)[u],
            ),
        forall|k: int, p: PhaseDiffView|
            is_diff_of_artifact(stem, out, golden, p, k) ==> unsorted_phase_diffs(
                stem,
                out,
                golden,
            ).contains(p),
        names_distinct(out) ==> names_differ(unsorted_phase_diffs(stem, out, golden)),
    decreases out.len(),
{
    let all = unsorted_phase_diffs(stem, out, golden);
    if out.len() > 0 {
        let front = out.drop_last();
        let rest = unsorted_phase_diffs(stem, front, golden);
        lemma_unsorted_phase_diffs(stem, front, golden);
        assert forall|u: int| 0 <= u < all.len() implies from_artifact(
            stem,
            out,
            golden,
            #[trigger] all[u],
        ) by {
            if u < rest.len() {
                assert(all[u] == rest[u]);
                let k = choose|k: int| is_diff_of_artifact(stem, front, golden, rest[u], k);
                assert(front[k] == out[k]);
                assert(is_diff_of_artifact(stem, out, golden, all[u], k));
            } else {
                assert(is_diff_of_artifact(stem, out, golden, all[u], out.len() - 1));
            }
        }
        assert forall|k: int, p: PhaseDiffView|
            is_diff_of_artifact(stem, out, golden, p, k) implies all.contains(p) by {
            if k < front.len() {
                assert(front[k] == out[k]);
                assert(is_diff_of_artifact(stem, front, golden, p, k));
                assert(rest.contains(p));
                let u = choose|u: int| 0 <= u < rest.len() && rest[u] == p;
                assert(all[u] == p);
            } else {
                assert(all[all.len() - 1] == p);
            }
        }
        if names_distinct(out) {
            assert(names_distinct(front)) by {
                assert forall|i: int, j: int| 0 <= i < j < front.len() implies front[i].name
                    != front[j].name by {
                    assert(front[i] == out[i] && front[j] == out[j]);
                }
            }
            assert forall|a: int, b: int| 0 <= a < b < all.len() implies all[a].name()
                != all[b].name() by {
                if b < rest.len() {
                    assert(all[a] == rest[a] && all[b] == rest[b]);
                } else {
                    assert(all[a] == rest[a]);
                    let k = choose|k: int| is_diff_of_artifact(stem, front, golden, rest[a], k);
                    assert(front[k] == out[k]);
                    lemma_phase_round_trip(stem, out[k].name);
                    lemma_phase_round_trip(stem, out.last().name);
                }
            }
        }
    }
}

/// Every phase difference of a test comes from one of its artifacts.
pub proof fn lemma_phase_diff_origin(
    stem: Seq<char>,
    out: Seq<FileView>,
    golden: Seq<FileView>,
    u: int,
)
    requires
        0 <= u < phase_diffs_of(stem, out, golden).len(),
    ensures
        from_artifact(stem, out, golden, phase_diffs_of(stem, out, golden)[u]),
{
    let unsorted = unsorted_phase_diffs(stem, out, golden);
    let p = phase_diffs_of(stem, out, golden)[u];
    lemma_unsorted_phase_diffs(stem, out, golden);
    lemma_stable_sort_contains(unsorted, p);
    assert(stable_sort(unsorted).contains(p));
    let i = choose|i: int| 0 <= i < unsorted.len() && unsorted[i] == p;
    assert(from_artifact(stem, out, golden, unsorted[i]));
}

/// Every artifact of a test that differs is among its phase differences;
/// where artifact names are distinct, it is the only one of its phase.
pub proof fn lemma_artifact_diff_found(
    stem: Seq<char>,
    out: Seq<FileView>,
    golden: Seq<FileView>,
    k: int,
)
    requires
        0 <= k < out.len(),
        entry_diff(stem, out[k], golden) is Some,
    ensures
        phase_diffs_of(stem, out, golden).contains(entry_diff(stem, out[k], golden)->0),
        names_distinct(out) ==> holds_once(
            phase_diffs_of(stem, out, golden),
            entry_diff(stem, out[k], golden)->0,
        ),
{
    let unsorted = unsorted_phase_diffs(stem, out, golden);
    let sorted = phase_diffs_of(stem, out, golden);
    let p = entry_diff(stem, out[k], golden)->0;
    lemma_unsorted_phase_diffs(stem, out, golden);
    assert(is_diff_of_artifact(stem, out, golden, p, k));
    lemma_stable_sort_contains(unsorted, p);
    if names_distinct(out) {
        lemma_stable_sort_strict(unsorted);
        let u = choose|u: int| 0 <= u < sorted.len() && sorted[u] == p;
        assert forall|v: int| 0 <= v < sorted.len() && v != u implies sorted[v].phase
            != p.phase by {
            assert(names_of(sorted)[v] == sorted[v].phase);
            assert(names_of(sorted)[u] == sorted[u].phase);
            if v < u {
                assert(lex_lt(names_of(sorted)[v], names_of(sorted)[u]));
            } else {
                assert(lex_lt(names_of(sorted)[u], names_of(sorted)[v]));
            }
            lemma_lex_irreflexive(p.phase);
        }
    }
}

/// The diff of every entry in scope that has one is among the diffs of the
/// index.
pub proof fn lemma_entry_diff_found(
    dir: Seq<char>,
    index: Seq<SourceView>,
    out: Seq<FileView>,
    golden: Seq<FileView>,
    filter: Option<Seq<Seq<char>>>,
    d: TestDiffView,
    j: int,
)
    requires
        is_diff_of_entry(dir, index, out, golden, filter, d, j),
    ensures
        diffs_of_index(dir, index, out, golden, filter).contains(d),
    decreases index.len(),
{
    let all = diffs_of_index(dir, index, out, golden, filter);
    let front = index.drop_last();
    let rest = diffs_of_index(dir, front, out, golden, filter);
    if j < index.len() - 1 {
        assert(front[j] == index[j]);
        lemma_entry_diff_found(dir, front, out, golden, filter, d, j);
        let t = choose|t: int| 0 <= t < rest.len() && rest[t] == d;
        assert(all[t] == d);
    } else {
        assert(all[all.len() - 1] == d);
    }
}

/// In a directory with an artifact store and no golden file, every
/// artifact of a test in scope that is comparable and not empty shows as
/// exactly one `New` phase difference of that test.
pub proof fn lemma_new_without_golden(
    d: DirView,
    filter: Option<Seq<Seq<char>>>,
    j: int,
    k: int,
)
    requires
        d.out is Some,
        names_distinct(d.out->0),
        d.golden.len() == 0,
        0 <= j < source_index(d.sources).len(),
        in_scope(filter, source_index(d.sources)[j].stem),
        0 <= k < d.out->0.len(),
        phase_of(source_index(d.sources)[j].stem, d.out->0[k].name) is Some,
        !non_comparable(d.out->0[k].name),
        d.out->0[k].content.len() > 0,
    ensures
        exists|t: int|
            0 <= t < discover(d, filter).len() && (#[trigger] discover(d, filter)[t]).test_name
                == source_index(d.sources)[j].stem && holds_once(
                discover(d, filter)[t].phase_diffs,
                PhaseDiffView {
                    phase: phase_of(source_index(d.sources)[j].stem, d.out->0[k].name)->0,
                    kind: DiffKindView::New { content: d.out->0[k].content },
                },
            ),
{
    let out = d.out->0;
    let index = source_index(d.sources);
    let stem = index[j].stem;
    lemma_position_none(d.golden, golden_name(out[k].name));
    lemma_artifact_diff_found(stem, out, d.golden, k);
    let td = test_diff_of(d.dir, index[j], out, d.golden)->0;
    assert(is_diff_of_entry(d.dir, index, out, d.golden, filter, td, j));
    lemma_entry_diff_found(d.dir, index, out, d.golden, filter, td, j);
    let t = choose|t: int| 0 <= t < discover(d, filter).len() && discover(d, filter)[t] == td;
    assert(discover(d, filter)[t].test_name == stem);
}

/// `diff` is the diff of a test of the directory that is in scope: of the
/// last source file of the test, with the phase differences of the test,
/// of which there is at least one.
pub open spec fn is_diff_of_test(
    d: DirView,
    filter: Option<Seq<Seq<char>>>,
    diff: TestDiffView,
) -> bool {
    &&& d.out is Some
    &&& is_last_source(
        d.sources,
        SourceView { stem: diff.test_name, file: diff.source_file },
    )
    &&& in_scope(filter, diff.test_name)
    &&& diff.dir == d.dir
    &&& diff.phase_diffs == phase_diffs_of(diff.test_name, d.out->0, d.golden)
    &&& diff.phase_diffs.len() > 0
}

/// Discovery finds exactly the diffs of the directory's tests in scope.
pub proof fn lemma_discover_members(d: DirView, filter: Option<Seq<Seq<char>>>, diff: TestDiffView)
    ensures
        discover(d, filter).contains(diff) <==> is_diff_of_test(d, filter, diff),
{
    if let Some(out) = d.out {
        let index = source_index(d.sources);
        let entry = SourceView { stem: diff.test_name, file: diff.source_file };
        lemma_source_index_members(d.sources, entry);
        lemma_diffs_of_index(d.dir, index, out, d.golden, filter);
        if discover(d, filter).contains(diff) {
            let t = choose|t: int| 0 <= t < discover(d, filter).len() && discover(d, filter)[t]
                == diff;
            assert(from_entry(d.dir, index, out, d.golden, filter, discover(d, filter)[t]));
            let j = choose|j: int| is_diff_of_entry(d.dir, index, out, d.golden, filter, diff, j);
            assert(index[j] == entry);
        }
        if is_diff_of_test(d, filter, diff) {
            let j = choose|j: int| 0 <= j < index.len() && index[j] == entry;
            assert(is_diff_of_entry(d.dir, index, out, d.golden, filter, diff, j));
            lemma_entry_diff_found(d.dir, index, out, d.golden, filter, diff, j);
        }
    }
}

} // verus!
