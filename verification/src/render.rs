//! The text in which a diff is shown: a heading, then for each phase either
//! a line-by-line comparison or the new content, coloured for a terminal.

use crate::diff::{DiffKind, DiffKindView, PhaseDiff, PhaseDiffView, TestDiff, TestDiffView};
use crate::order::views;
use crate::text::{chars_of, slice};
use similar::{ChangeTag, TextDiff};
use vstd::prelude::*;
use vstd::string::*;

verus! {

/// What a line of a comparison is: only in the old text, only in the new
/// text, or in both.
#[derive(Clone, Copy, Debug, PartialEq, Eq, Structural)]
pub enum LineTag {
    Delete,
    Insert,
    Equal,
}

/// One line of a comparison. The text ends in a newline.
#[derive(Clone, Debug, PartialEq, Eq)]
pub struct LineChange {
    pub tag: LineTag,
    pub text: String,
}

/// The mathematical value of a [`LineChange`].
pub ghost struct LineChangeView {
    pub tag: LineTag,
    pub text: Seq<char>,
}

impl View for LineChange {
    type V = LineChangeView;

    open spec fn view(&self) -> LineChangeView {
        LineChangeView { tag: self.tag, text: self.text@ }
    }
}

/// The line-by-line comparison of two texts: all changes of
/// `similar::TextDiff::from_lines`, in order, each as it is displayed.
pub uninterp spec fn line_changes(expected: Seq<char>, actual: Seq<char>) -> Seq<LineChangeView>;

/// Compares two texts line by line with `similar::TextDiff::from_lines` and
/// hands out every change of `iter_all_changes`: its tag, and its text as
/// the change displays it. Trusted: the result depends only on the two
/// texts.
#[verifier::external_body]
fn diff_lines(expected: &str, actual: &str) -> (changes: Vec<LineChange>)
    ensures
        views(changes@) == line_changes(expected@, actual@),
{
    let diff = TextDiff::from_lines(expected, actual);
    let mut changes = Vec::new();
    for change in diff.iter_all_changes() {
        let tag = match change.tag() {
            ChangeTag::Delete => LineTag::Delete,
            ChangeTag::Insert => LineTag::Insert,
            ChangeTag::Equal => LineTag::Equal,
        };
        changes.push(LineChange { tag, text: change.to_string() });
    }
    changes
}

/// How one line of a comparison is shown: a deleted line in red behind a
/// minus, an inserted line in green behind a plus, a common line plain.
pub open spec fn shown_change(change: LineChangeView) -> Seq<char> {
    match change.tag {
        LineTag::Delete => "  \x1b[31m-"@ + change.text + "\x1b[0m"@,
        LineTag::Insert => "  \x1b[32m+"@ + change.text + "\x1b[0m"@,
        LineTag::Equal => "  "@ + change.text,
    }
}

/// How a comparison is shown: its lines, one behind the other.
pub open spec fn shown_changes(changes: Seq<LineChangeView>) -> Seq<char>
    decreases changes.len(),
{
    if changes.len() == 0 {
        Seq::empty()
    } else {
        shown_changes(changes.drop_last()) + shown_change(changes.last())
    }
}

/// The pieces of `text` between its newlines: one more than it has
/// newlines.
pub open spec fn pieces(text: Seq<char>) -> Seq<Seq<char>>
    decreases text.len(),
{
    if text.len() == 0 {
        seq![Seq::empty()]
    } else if text.last() == '\n' {
        pieces(text.drop_last()).push(Seq::empty())
    } else {
        let front = pieces(text.drop_last());
        front.update(front.len() - 1, front.last().push(text.last()))
    }
}

/// A line without the carriage return at its end, if it has one.
pub open spec fn without_cr(line: Seq<char>) -> Seq<char> {
    if line.len() > 0 && line.last() == '\r' {
        line.drop_last()
    } else {
        line
    }
}

/// The lines of `text`. A line ends at a newline; the newline, and a
/// carriage return just before it, are not part of the line. Text behind
/// the last newline is a line as it stands, unless it is empty.
pub open spec fn lines_of(text: Seq<char>) -> Seq<Seq<char>> {
    let parts = pieces(text);
    let ended = parts.drop_last().map_values(|p: Seq<char>| without_cr(p));
    if parts.last().len() > 0 {
        ended.push(parts.last())
    } else {
        ended
    }
}

/// How new content is shown: each line in green behind a plus.
pub open spec fn shown_lines(lines: Seq<Seq<char>>) -> Seq<char>
    decreases lines.len(),
{
    if lines.len() == 0 {
        Seq::empty()
    } else {
        shown_lines(lines.drop_last()) + "  \x1b[32m+"@ + lines.last() + "\x1b[0m\n"@
    }
}

/// How a phase difference is shown, given the comparison of its two texts.
pub open spec fn shown_phase_with(p: PhaseDiffView, changes: Seq<LineChangeView>) -> Seq<char> {
    match p.kind {
        DiffKindView::Changed { expected, actual } => "\n  \x1b[1m["@ + p.phase + "]\x1b[0m\n"@
            + shown_changes(changes),
        DiffKindView::New { content } => "\n  \x1b[1m["@ + p.phase
            + "]\x1b[0m \x1b[33m(new)\x1b[0m\n"@ + shown_lines(lines_of(content)),
    }
}

/// The comparison that belongs to a phase difference: that of its two texts
/// where it is a change, none where it is new.
pub open spec fn changes_of(p: PhaseDiffView) -> Seq<LineChangeView> {
    match p.kind {
        DiffKindView::Changed { expected, actual } => line_changes(expected, actual),
        DiffKindView::New { content } => Seq::empty(),
    }
}

/// How a phase difference is shown.
pub open spec fn shown_phase(p: PhaseDiffView) -> Seq<char> {
    shown_phase_with(p, changes_of(p))
}

/// How phase differences are shown, one behind the other.
pub open spec fn shown_phases(phases: Seq<PhaseDiffView>) -> Seq<char>
    decreases phases.len(),
{
    if phases.len() == 0 {
        Seq::empty()
    } else {
        shown_phases(phases.drop_last()) + shown_phase(phases.last())
    }
}

/// The heading of a diff: test name, source file and directory.
pub open spec fn shown_heading(d: TestDiffView) -> Seq<char> {
    "\n\x1b[1;36m--- "@ + d.test_name + " ("@ + d.source_file + ") in "@ + d.dir
        + " ---\x1b[0m\n"@
}

/// How a diff is shown: its heading, then its phases.
pub open spec fn shown_diff(d: TestDiffView) -> Seq<char> {
    shown_heading(d) + shown_phases(d.phase_diffs)
}

/// The text that shows a comparison.
pub fn render_changes(changes: &Vec<LineChange>) -> (text: String)
    ensures
        text@ == shown_changes(views(changes@)),
{
    let mut text = String::new();
    let mut i: usize = 0;
    assert(views(changes@).take(0) =~= Seq::<LineChangeView>::empty());
    while i < changes.len()
        invariant
            i <= changes.len(),
            text@ == shown_changes(views(changes@).take(i as int)),
        decreases changes.len() - i,
    {
        proof {
            assert(views(changes@).take(i + 1).drop_last() =~= views(changes@).take(i as int));
            assert(views(changes@).take(i + 1).last() == changes@[i as int]@);
        }
        match changes[i].tag {
            LineTag::Delete => {
                text.append("  \x1b[31m-");
                text.append(changes[i].text.as_str());
                text.append("\x1b[0m");
            },
            LineTag::Insert => {
                text.append("  \x1b[32m+");
                text.append(changes[i].text.as_str());
                text.append("\x1b[0m");
            },
            LineTag::Equal => {
                text.append("  ");
                text.append(changes[i].text.as_str());
            },
        }
        i = i + 1;
    }
    assert(views(changes@).take(i as int) =~= views(changes@));
    text
}

/// The lines of `text`.
pub fn split_lines(text: &str) -> (lines: Vec<String>)
    ensures
        views(lines@) == lines_of(text@),
{
    let chars = chars_of(text);
    let mut lines: Vec<String> = Vec::new();
    let mut start: usize = 0;
    let mut i: usize = 0;
    proof {
        assert(text@.take(0) =~= Seq::<char>::empty());
        assert(views(lines@) =~= pieces(text@.take(0)).drop_last().map_values(
            |p: Seq<char>| without_cr(p),
        ));
        assert(text@.subrange(0, 0) =~= Seq::<char>::empty());
    }
    while i < chars.len()
        invariant
            chars@ == text@,
            start <= i <= chars.len(),
            views(lines@) == pieces(text@.take(i as int)).drop_last().map_values(
                |p: Seq<char>| without_cr(p),
            ),
            pieces(text@.take(i as int)).len() > 0,
            pieces(text@.take(i as int)).last() == text@.subrange(start as int, i as int),
        decreases chars.len() - i,
    {
        let ghost parts = pieces(text@.take(i as int));
        proof {
            assert(text@.take(i + 1).drop_last() =~= text@.take(i as int));
            assert(text@.take(i + 1).last() == text@[i as int]);
        }
        if chars[i] == '\n' {
            let end = if i > start && chars[i - 1] == '\r' {
                i - 1
            } else {
                i
            };
            let ghost before = lines@;
            let line = String::from_str(slice(text, start, end));
            proof {
                let piece = text@.subrange(start as int, i as int);
                if i > start {
                    assert(piece.last() == text@[i - 1]);
                }
                if end < i {
                    assert(piece.drop_last() =~= text@.subrange(start as int, end as int));
                }
                assert(line@ == without_cr(piece));
            }
            lines.push(line);
            start = i + 1;
            proof {
                let after = pieces(text@.take(i + 1));
                assert(after == parts.push(Seq::empty()));
                assert(after.drop_last() =~= parts);
                assert(views(lines@) =~= views(before).push(line@));
                assert(parts =~= parts.drop_last().push(parts.last()));
                assert(parts.map_values(|p: Seq<char>| without_cr(p)) =~= parts.drop_last().map_values(
                    |p: Seq<char>| without_cr(p),
                ).push(without_cr(parts.last())));
                assert(text@.subrange(i + 1, i + 1) =~= Seq::<char>::empty());
            }
        } else {
            proof {
                let after = pieces(text@.take(i + 1));
                assert(after.drop_last() =~= parts.drop_last());
                assert(text@.subrange(start as int, i + 1) =~= text@.subrange(
                    start as int,
                    i as int,
                ).push(text@[i as int]));
            }
        }
        i = i + 1;
    }
    proof {
        assert(text@.take(i as int) =~= text@);
    }
    if start < i {
        let ghost before = lines@;
        let line = String::from_str(slice(text, start, i));
        lines.push(line);
        assert(views(lines@) =~= views(before).push(line@));
    }
    lines
}

/// The text that shows new content.
pub fn render_new(content: &str) -> (text: String)
    ensures
        text@ == shown_lines(lines_of(content@)),
{
    let lines = split_lines(content);
    let mut text = String::new();
    let mut i: usize = 0;
    assert(views(lines@).take(0) =~= Seq::<Seq<char>>::empty());
    while i < lines.len()
        invariant
            i <= lines.len(),
            text@ == shown_lines(views(lines@).take(i as int)),
        decreases lines.len() - i,
    {
        proof {
            assert(views(lines@).take(i + 1).drop_last() =~= views(lines@).take(i as int));
            assert(views(lines@).take(i + 1).last() == lines@[i as int]@);
        }
        text.append("  \x1b[32m+");
        text.append(lines[i].as_str());
        text.append("\x1b[0m\n");
        i = i + 1;
    }
    assert(views(lines@).take(i as int) =~= views(lines@));
    text
}

/// The text that shows a phase difference whose two texts compare as
/// `changes`; new content is shown line by line and `changes` is not read.
pub fn render_phase_with(phase_diff: &PhaseDiff, changes: &Vec<LineChange>) -> (text: String)
    ensures
        text@ == shown_phase_with(phase_diff@, views(changes@)),
{
    let mut text = String::from_str("\n  \x1b[1m[");
    text.append(phase_diff.phase.as_str());
    match &phase_diff.kind {
        DiffKind::Changed { expected, actual } => {
            text.append("]\x1b[0m\n");
            let body = render_changes(changes);
            text.append(body.as_str());
        },
        DiffKind::New { content } => {
            text.append("]\x1b[0m \x1b[33m(new)\x1b[0m\n");
            let body = render_new(content.as_str());
            text.append(body.as_str());
        },
    }
    text
}

/// The text that shows a phase difference.
pub fn render_phase(phase_diff: &PhaseDiff) -> (text: String)
    ensures
        text@ == shown_phase(phase_diff@),
{
    let changes = match &phase_diff.kind {
        DiffKind::Changed { expected, actual } => diff_lines(expected.as_str(), actual.as_str()),
        DiffKind::New { content } => Vec::new(),
    };
    assert(views(changes@) =~= changes_of(phase_diff@));
    render_phase_with(phase_diff, &changes)
}

/// The text that shows a diff: a heading with test name, source file and
/// directory, then each phase in order.
pub fn render_diff(diff: &TestDiff) -> (text: String)
    ensures
        text@ == shown_diff(diff@),
{
    let mut text = String::from_str("\n\x1b[1;36m--- ");
    text.append(diff.test_name.as_str());
    text.append(" (");
    text.append(diff.source_file.as_str());
    text.append(") in ");
    text.append(diff.dir.as_str());
    text.append(" ---\x1b[0m\n");
    let ghost heading = text@;
    let mut i: usize = 0;
    assert(diff@.phase_diffs.take(0) =~= Seq::<PhaseDiffView>::empty());
    assert(heading + Seq::<char>::empty() =~= heading);
    while i < diff.phase_diffs.len()
        invariant
            i <= diff.phase_diffs.len(),
            heading == shown_heading(diff@),
            text@ == heading + shown_phases(diff@.phase_diffs.take(i as int)),
        decreases diff.phase_diffs.len() - i,
    {
        proof {
            assert(diff@.phase_diffs.take(i + 1).drop_last() =~= diff@.phase_diffs.take(i as int));
            assert(diff@.phase_diffs.take(i + 1).last() == diff.phase_diffs@[i as int]@);
        }
        let part = render_phase(&diff.phase_diffs[i]);
        text.append(part.as_str());
        assert(text@ =~= heading + shown_phases(diff@.phase_diffs.take(i + 1)));
        i = i + 1;
    }
    assert(diff@.phase_diffs.take(i as int) =~= diff@.phase_diffs);
    text
}

} // verus!
