//! Accepting a diff: promoting artifacts to golden files.

use crate::diff::{
    classify, discover, from_artifact, from_entry, is_diff_of_artifact, is_diff_of_entry,
    lemma_diffs_of_index, lemma_phase_diff_origin, source_index, PhaseDiffView, TestDiff,
    TestDiffView,
};
use crate::names::{artifact_name, golden_name, lemma_phase_round_trip};
use crate::order::views;
use crate::store::{
    lemma_position_none, lemma_position_some, lemma_with_file, lemma_without_file, lookup,
    names_distinct, stores_distinct, with_file, without_file, DirSnapshot, DirView, FileView,
};
use vstd::prelude::*;
use vstd::string::*;

verus! {

/// One change to a golden store.
#[derive(Clone, Debug, PartialEq, Eq)]
pub enum GoldenOp {
    /// Write `content` to the golden file `name`, creating it if need be.
    Write { name: String, content: String },
    /// Delete the golden file `name` if it exists.
    Remove { name: String },
}

/// The mathematical value of a [`GoldenOp`].
pub ghost enum GoldenOpView {
    Write { name: Seq<char>, content: Seq<char> },
    Remove { name: Seq<char> },
}

impl View for GoldenOp {
    type V = GoldenOpView;

    open spec fn view(&self) -> GoldenOpView {
        match self {
            GoldenOp::Write { name, content } => GoldenOpView::Write {
                name: name@,
                content: content@,
            },
            GoldenOp::Remove { name } => GoldenOpView::Remove { name: name@ },
        }
    }
}

/// The artifacts that acceptance reads: those of the store, or none where
/// the directory has no store.
pub open spec fn artifacts(d: DirView) -> Seq<FileView> {
    match d.out {
        Some(out) => out,
        None => Seq::empty(),
    }
}

/// The text that acceptance finds for an artifact: empty where the
/// artifact is missing.
pub open spec fn actual_text(out: Seq<FileView>, name: Seq<char>) -> Seq<char> {
    match lookup(out, name) {
        Some(content) => content,
        None => Seq::empty(),
    }
}

/// The change that accepting `phase` of test `stem` makes: the artifact's
/// text becomes the golden file, and an empty or missing artifact leaves no
/// golden file.
pub open spec fn accept_op(stem: Seq<char>, phase: Seq<char>, out: Seq<FileView>) -> GoldenOpView {
    let name = artifact_name(stem, phase);
    let content = actual_text(out, name);
    if content.len() > 0 {
        GoldenOpView::Write { name: golden_name(name), content }
    } else {
        GoldenOpView::Remove { name: golden_name(name) }
    }
}

/// The changes that accepting `phases` of test `stem` makes, in order.
pub open spec fn accept_ops(stem: Seq<char>, phases: Seq<PhaseDiffView>, out: Seq<FileView>) -> Seq<
    GoldenOpView,
>
    decreases phases.len(),
{
    if phases.len() == 0 {
        Seq::empty()
    } else {
        accept_ops(stem, phases.drop_last(), out).push(accept_op(stem, phases.last().phase, out))
    }
}

/// `golden` after one change.
pub open spec fn apply_op(golden: Seq<FileView>, op: GoldenOpView) -> Seq<FileView> {
    match op {
        GoldenOpView::Write { name, content } => with_file(golden, name, content),
        GoldenOpView::Remove { name } => without_file(golden, name),
    }
}

/// `golden` after the changes `ops`, in order.
pub open spec fn apply_ops(golden: Seq<FileView>, ops: Seq<GoldenOpView>) -> Seq<FileView>
    decreases ops.len(),
{
    if ops.len() == 0 {
        golden
    } else {
        apply_op(apply_ops(golden, ops.drop_last()), ops.last())
    }
}

/// The directory after accepting `diff`: only the golden store changes.
pub open spec fn accepted(d: DirView, diff: TestDiffView) -> DirView {
    DirView {
        golden: apply_ops(
            d.golden,
            accept_ops(diff.test_name, diff.phase_diffs, artifacts(d)),
        ),
        ..d
    }
}

/// Accepts `diff` in `snapshot`: for each of its phases the artifact's text
/// becomes the golden file, and where the artifact is empty or missing the
/// golden file is deleted. Returns the changes made, for the caller to
/// repeat on disk.
pub fn accept_test(diff: &TestDiff, snapshot: &mut DirSnapshot) -> (ops: Vec<GoldenOp>)
    ensures
        final(snapshot)@ == accepted(old(snapshot)@, diff@),
        views(ops@) == accept_ops(diff@.test_name, diff@.phase_diffs, artifacts(old(snapshot)@)),
{
    let mut ops: Vec<GoldenOp> = Vec::new();
    let mut i: usize = 0;
    let ghost start = snapshot@;
    let ghost out = artifacts(start);
    assert(views(ops@) =~= Seq::<GoldenOpView>::empty());
    assert(diff@.phase_diffs.take(0) =~= Seq::<PhaseDiffView>::empty());
    while i < diff.phase_diffs.len()
        invariant
            i <= diff.phase_diffs.len(),
            out == artifacts(start),
            views(ops@) == accept_ops(diff@.test_name, diff@.phase_diffs.take(i as int), out),
            snapshot@ == (DirView { golden: apply_ops(start.golden, views(ops@)), ..start }),
        decreases diff.phase_diffs.len() - i,
    {
        proof {
            assert(diff@.phase_diffs.take(i + 1).drop_last() =~= diff@.phase_diffs.take(i as int));
            assert(diff@.phase_diffs.take(i + 1).last() == diff.phase_diffs@[i as int]@);
        }
        let name = diff.test_name.clone().concat(".").concat(diff.phase_diffs[i].phase.as_str());
        let golden = name.clone().concat(".ok");
        let found = match &snapshot.out {
            Some(store) => store.get(name.as_str()),
            None => None,
        };
        proof {
            if snapshot.out is None {
                lemma_position_none(out, name@);
            }
        }
        let ghost before = views(ops@);
        let op = match found {
            Some(content) => {
                if content.as_str().is_empty() {
                    GoldenOp::Remove { name: golden }
                } else {
                    GoldenOp::Write { name: golden, content: content.clone() }
                }
            },
            None => GoldenOp::Remove { name: golden },
        };
        assert(op@ == accept_op(diff@.test_name, diff.phase_diffs@[i as int]@.phase, out));
        match &op {
            GoldenOp::Write { name, content } => {
                snapshot.golden.put(name.clone(), content.clone());
            },
            GoldenOp::Remove { name } => {
                snapshot.golden.remove(name.as_str());
            },
        }
        ops.push(op);
        proof {
            assert(views(ops@) =~= before.push(op@));
            assert(views(ops@).drop_last() =~= before);
        }
        i = i + 1;
    }
    assert(diff@.phase_diffs.take(i as int) =~= diff@.phase_diffs);
    ops
}

/// The golden file that accepting `phase` of test `stem` leaves: the
/// artifact's text, or none where the artifact is empty or missing.
pub open spec fn settled(stem: Seq<char>, phase: Seq<char>, out: Seq<FileView>) -> Option<
    Seq<char>,
> {
    let content = actual_text(out, artifact_name(stem, phase));
    if content.len() > 0 {
        Some(content)
    } else {
        None
    }
}

/// Golden files of different artifacts have different names.
pub proof fn lemma_golden_name_injective(a: Seq<char>, b: Seq<char>)
    requires
        golden_name(a) == golden_name(b),
    ensures
        a == b,
{
    assert(golden_name(a).len() == a.len() + ".ok"@.len());
    assert(golden_name(b).len() == b.len() + ".ok"@.len());
    assert(a =~= golden_name(a).take(a.len() as int));
    assert(b =~= golden_name(b).take(b.len() as int));
}

/// One change leaves the golden file it names as the change says, every
/// other golden file as it was, and names distinct.
proof fn lemma_apply_op(golden: Seq<FileView>, stem: Seq<char>, phase: Seq<char>, out: Seq<FileView>, other: Seq<char>)
    requires
        names_distinct(golden),
    ensures
        names_distinct(apply_op(golden, accept_op(stem, phase, out))),
        lookup(
            apply_op(golden, accept_op(stem, phase, out)),
            golden_name(artifact_name(stem, phase)),
        ) == settled(stem, phase, out),
        other != golden_name(artifact_name(stem, phase)) ==> lookup(
            apply_op(golden, accept_op(stem, phase, out)),
            other,
        ) == lookup(golden, other),
{
    let key = golden_name(artifact_name(stem, phase));
    let content = actual_text(out, artifact_name(stem, phase));
    if content.len() > 0 {
        lemma_with_file(golden, key, content, other);
    } else {
        lemma_without_file(golden, key, other);
    }
}

/// After accepting, the golden file of each accepted phase holds the text of
/// its artifact; where that artifact is empty or missing, no golden file is
/// left for the phase, whatever was there before.
pub proof fn lemma_accept_settles(
    golden: Seq<FileView>,
    stem: Seq<char>,
    phases: Seq<PhaseDiffView>,
    out: Seq<FileView>,
    u: int,
)
    requires
        names_distinct(golden),
        0 <= u < phases.len(),
    ensures
        names_distinct(apply_ops(golden, accept_ops(stem, phases, out))),
        lookup(
            apply_ops(golden, accept_ops(stem, phases, out)),
            golden_name(artifact_name(stem, phases[u].phase)),
        ) == settled(stem, phases[u].phase, out),
    decreases phases.len(),
{
    let front = phases.drop_last();
    let ops = accept_ops(stem, phases, out);
    assert(ops.drop_last() =~= accept_ops(stem, front, out));
    let mid = apply_ops(golden, accept_ops(stem, front, out));
    lemma_accept_keeps_distinct(golden, stem, front, out);
    let key = golden_name(artifact_name(stem, phases[u].phase));
    lemma_apply_op(mid, stem, phases.last().phase, out, key);
    if u < phases.len() - 1 {
        assert(front[u] == phases[u]);
        lemma_accept_settles(golden, stem, front, out, u);
        if key == golden_name(artifact_name(stem, phases.last().phase)) {
            lemma_golden_name_injective(
                artifact_name(stem, phases[u].phase),
                artifact_name(stem, phases.last().phase),
            );
        }
    }
}

/// Accepting keeps the names of a golden store distinct.
pub proof fn lemma_accept_keeps_distinct(
    golden: Seq<FileView>,
    stem: Seq<char>,
    phases: Seq<PhaseDiffView>,
    out: Seq<FileView>,
)
    requires
        names_distinct(golden),
    ensures
        names_distinct(apply_ops(golden, accept_ops(stem, phases, out))),
    decreases phases.len(),
{
    if phases.len() > 0 {
        let front = phases.drop_last();
        assert(accept_ops(stem, phases, out).drop_last() =~= accept_ops(stem, front, out));
        lemma_accept_keeps_distinct(golden, stem, front, out);
        lemma_apply_op(
            apply_ops(golden, accept_ops(stem, front, out)),
            stem,
            phases.last().phase,
            out,
            Seq::empty(),
        );
    }
}

/// Accepting is idempotent: after a diff was accepted, discovery restricted
/// to its test finds no difference in any of the accepted phases.
pub proof fn lemma_accept_idempotent(d: DirView, diff: TestDiffView, t: int, u: int, v: int)
    requires
        stores_distinct(d),
        0 <= t < discover(accepted(d, diff), Some(seq![diff.test_name])).len(),
        0 <= u < discover(accepted(d, diff), Some(seq![diff.test_name]))[t].phase_diffs.len(),
        0 <= v < diff.phase_diffs.len(),
    ensures
        discover(accepted(d, diff), Some(seq![diff.test_name]))[t].phase_diffs[u].phase
            != diff.phase_diffs[v].phase,
{
    let after = accepted(d, diff);
    let filter = Some(seq![diff.test_name]);
    let found = discover(after, filter)[t];
    let stem = diff.test_name;
    let out = d.out->0;
    let index = source_index(d.sources);
    lemma_diffs_of_index(d.dir, index, out, after.golden, filter);
    assert(from_entry(d.dir, index, out, after.golden, filter, found));
    let j = choose|j: int| is_diff_of_entry(d.dir, index, out, after.golden, filter, found, j);
    assert(seq![diff.test_name].contains(index[j].stem));
    assert(index[j].stem == stem);
    lemma_phase_diff_origin(stem, out, after.golden, u);
    let p = found.phase_diffs[u];
    assert(from_artifact(stem, out, after.golden, p));
    let k = choose|k: int| is_diff_of_artifact(stem, out, after.golden, p, k);
    if p.phase == diff.phase_diffs[v].phase {
        lemma_phase_round_trip(stem, out[k].name);
        lemma_position_some(out, out[k].name, k);
        lemma_accept_settles(d.golden, stem, diff.phase_diffs, out, v);
        assert(classify(after.golden, out[k].name, out[k].content) is None);
    }
}

/// Accepting a phase whose artifact is empty or missing leaves no golden
/// file for that phase.
pub proof fn lemma_accept_empty_removes(d: DirView, diff: TestDiffView, v: int)
    requires
        names_distinct(d.golden),
        0 <= v < diff.phase_diffs.len(),
        actual_text(artifacts(d), artifact_name(diff.test_name, diff.phase_diffs[v].phase)).len()
            == 0,
    ensures
        lookup(
            accepted(d, diff).golden,
            golden_name(artifact_name(diff.test_name, diff.phase_diffs[v].phase)),
        ) is None,
{
    lemma_accept_settles(d.golden, diff.test_name, diff.phase_diffs, artifacts(d), v);
}

} // verus!
