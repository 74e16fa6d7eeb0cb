//! The catalog of tests that can be selected: which files are tests, and
//! what golden text is searched when the user filters by content.

use crate::order::views;
use crate::paths::{path_dir, path_file, split_path};
use crate::text::{ends_with, find_last, is_suffix, last_index_of, lemma_last_index_of, slice};
use vstd::prelude::*;
use vstd::string::*;

verus! {

/// A selectable test: the path of its source file and, in content-search
/// mode, the text of its golden files.
#[derive(Clone, Debug, PartialEq, Eq)]
pub struct CatalogEntry {
    pub path: String,
    pub preloaded_content: String,
}

/// The mathematical value of a [`CatalogEntry`].
pub ghost struct CatalogEntryView {
    pub path: Seq<char>,
    pub preloaded_content: Seq<char>,
}

impl View for CatalogEntry {
    type V = CatalogEntryView;

    open spec fn view(&self) -> CatalogEntryView {
        CatalogEntryView { path: self.path@, preloaded_content: self.preloaded_content@ }
    }
}

/// A path that names a test source: it ends in `.mo` or in `.drun`.
pub open spec fn is_test_source(path: Seq<char>) -> bool {
    is_suffix(".mo"@, path) || is_suffix(".drun"@, path)
}

/// The paths of `paths` that name a test source, in order.
pub open spec fn test_sources(paths: Seq<Seq<char>>) -> Seq<Seq<char>>
    decreases paths.len(),
{
    if paths.len() == 0 {
        Seq::empty()
    } else if is_test_source(paths.last()) {
        test_sources(paths.drop_last()).push(paths.last())
    } else {
        test_sources(paths.drop_last())
    }
}

/// A file name without its extension: what stands before its last dot. A
/// name without a dot, or whose only dot is its first character, has no
/// extension.
pub open spec fn file_stem(name: Seq<char>) -> Seq<char> {
    match last_index_of(name, '.') {
        Some(i) => if i > 0 {
            name.take(i)
        } else {
            name
        },
        None => name,
    }
}

/// Where the golden file of variant `suffix` of the test at `path` lies: in
/// the directory `ok` beside the test, under the test's file stem, a dot and
/// the suffix.
pub open spec fn golden_variant_path(path: Seq<char>, suffix: Seq<char>) -> Seq<char> {
    let file = file_stem(path_file(path)) + "."@ + suffix;
    if last_index_of(path, '/') is Some {
        path_dir(path) + "/ok/"@ + file
    } else {
        "ok/"@ + file
    }
}

/// The golden files that are searched for a test, in the order in which
/// their text is joined.
pub open spec fn golden_variant_paths_of(path: Seq<char>) -> Seq<Seq<char>> {
    seq![
        golden_variant_path(path, "tc.ok"@),
        golden_variant_path(path, "drun-run.ok"@),
        golden_variant_path(path, "run.ok"@),
    ]
}

/// The searched text of a test: the text of each golden variant, each
/// followed by two newlines.
pub open spec fn joined_content(contents: Seq<Seq<char>>) -> Seq<char>
    decreases contents.len(),
{
    if contents.len() == 0 {
        Seq::empty()
    } else {
        joined_content(contents.drop_last()) + contents.last() + "\n\n"@
    }
}

/// The directories whose files are offered as tests.
pub fn test_dirs() -> (dirs: Vec<&'static str>)
    ensures
        dirs@.len() == 3,
        dirs@[0]@ == "test/run-drun"@,
        dirs@[1]@ == "test/run"@,
        dirs@[2]@ == "test/fail"@,
{
    let mut dirs: Vec<&'static str> = Vec::new();
    dirs.push("test/run-drun");
    dirs.push("test/run");
    dirs.push("test/fail");
    dirs
}

/// Whether `path` names a test source.
pub fn is_test_source_path(path: &str) -> (r: bool)
    ensures
        r == is_test_source(path@),
{
    ends_with(path, ".mo") || ends_with(path, ".drun")
}

/// The paths of `paths` that name a test source, in order.
pub fn select_test_sources(paths: &Vec<String>) -> (selected: Vec<String>)
    ensures
        views(selected@) == test_sources(views(paths@)),
{
    let mut selected: Vec<String> = Vec::new();
    let mut i: usize = 0;
    assert(views(selected@) =~= Seq::<Seq<char>>::empty());
    assert(views(paths@).take(0) =~= Seq::<Seq<char>>::empty());
    while i < paths.len()
        invariant
            i <= paths.len(),
            views(selected@) == test_sources(views(paths@).take(i as int)),
        decreases paths.len() - i,
    {
        proof {
            assert(views(paths@).take(i + 1).drop_last() =~= views(paths@).take(i as int));
            assert(views(paths@).take(i + 1).last() == paths@[i as int]@);
        }
        if is_test_source_path(paths[i].as_str()) {
            let ghost before = selected@;
            selected.push(paths[i].clone());
            assert(views(selected@) =~= views(before).push(paths@[i as int]@));
        }
        i = i + 1;
    }
    assert(views(paths@).take(i as int) =~= views(paths@));
    selected
}

/// The file name `name` without its extension.
pub fn stem_of_file(name: &str) -> (stem: &str)
    ensures
        stem@ == file_stem(name@),
{
    proof {
        lemma_last_index_of(name@, '.');
    }
    match find_last(name, '.') {
        Some(i) => {
            if i > 0 {
                slice(name, 0, i)
            } else {
                name
            }
        },
        None => name,
    }
}

/// Where the golden file of variant `suffix` of the test at `path` lies.
pub fn golden_variant(path: &str, suffix: &str) -> (r: String)
    ensures
        r@ == golden_variant_path(path@, suffix@),
{
    let (dir, file) = split_path(path);
    let stem = stem_of_file(file);
    let base = match find_last(path, '/') {
        Some(_) => String::from_str(dir).concat("/ok/"),
        None => String::from_str("ok/"),
    };
    let r = base.concat(stem).concat(".").concat(suffix);
    proof {
        let file_text = file_stem(path_file(path@)) + "."@ + suffix@;
        if last_index_of(path@, '/') is Some {
            assert(r@ =~= path_dir(path@) + "/ok/"@ + file_text);
        } else {
            assert(r@ =~= "ok/"@ + file_text);
        }
    }
    r
}

/// The golden files that are searched for the test at `path`.
pub fn golden_variant_paths(path: &str) -> (paths: Vec<String>)
    ensures
        views(paths@) == golden_variant_paths_of(path@),
{
    let mut paths: Vec<String> = Vec::new();
    paths.push(golden_variant(path, "tc.ok"));
    paths.push(golden_variant(path, "drun-run.ok"));
    paths.push(golden_variant(path, "run.ok"));
    assert(views(paths@) =~= golden_variant_paths_of(path@));
    paths
}

/// The searched text of a test whose golden variants hold `contents`; a
/// variant that is missing or unreadable is passed as empty text.
pub fn preload_content(contents: &Vec<String>) -> (text: String)
    ensures
        text@ == joined_content(views(contents@)),
{
    let mut text = String::new();
    let mut i: usize = 0;
    assert(views(contents@).take(0) =~= Seq::<Seq<char>>::empty());
    while i < contents.len()
        invariant
            i <= contents.len(),
            text@ == joined_content(views(contents@).take(i as int)),
        decreases contents.len() - i,
    {
        proof {
            assert(views(contents@).take(i + 1).drop_last() =~= views(contents@).take(i as int));
            assert(views(contents@).take(i + 1).last() == contents@[i as int]@);
        }
        text.append(contents[i].as_str());
        text.append("\n\n");
        i = i + 1;
    }
    assert(views(contents@).take(i as int) =~= views(contents@));
    text
}

/// The catalog entry of the test at `path`: with the joined text of its
/// golden variants in content-search mode, with no text otherwise.
pub fn catalog_entry(path: String, contents: Option<&Vec<String>>) -> (entry: CatalogEntry)
    ensures
        entry@.path == path@,
        entry@.preloaded_content == match contents {
            Some(texts) => joined_content(views(texts@)),
            None => Seq::<char>::empty(),
        },
{
    let preloaded_content = match contents {
        Some(texts) => preload_content(texts),
        None => String::new(),
    };
    CatalogEntry { path, preloaded_content }
}

/// The text of one decimal digit.
pub open spec fn digit_text(d: nat) -> Seq<char> {
    if d == 0 {
        "0"@
    } else if d == 1 {
        "1"@
    } else if d == 2 {
        "2"@
    } else if d == 3 {
        "3"@
    } else if d == 4 {
        "4"@
    } else if d == 5 {
        "5"@
    } else if d == 6 {
        "6"@
    } else if d == 7 {
        "7"@
    } else if d == 8 {
        "8"@
    } else {
        "9"@
    }
}

/// A number in decimal digits, without leading zeros.
pub open spec fn decimal(n: nat) -> Seq<char>
    decreases n,
{
    if n < 10 {
        digit_text(n)
    } else {
        decimal(n / 10) + digit_text(n % 10)
    }
}

/// Texts joined by a comma and a space.
pub open spec fn comma_joined(texts: Seq<Seq<char>>) -> Seq<char>
    decreases texts.len(),
{
    if texts.len() == 0 {
        Seq::empty()
    } else if texts.len() == 1 {
        texts[0]
    } else {
        comma_joined(texts.drop_last()) + ", "@ + texts.last()
    }
}

/// How a selection is summed up: its paths joined and a full stop, or, of
/// more than ten paths, the first ten, the number of the others and a full
/// stop.
pub open spec fn selection_text(paths: Seq<Seq<char>>) -> Seq<char> {
    if paths.len() > 10 {
        comma_joined(paths.take(10)) + ", ... (+"@ + decimal((paths.len() - 10) as nat)
            + " more)."@
    } else {
        comma_joined(paths) + "."@
    }
}

/// The text of the decimal digit `d`.
fn digit(d: usize) -> (text: &'static str)
    requires
        d < 10,
    ensures
        text@ == digit_text(d as nat),
{
    if d == 0 {
        "0"
    } else if d == 1 {
        "1"
    } else if d == 2 {
        "2"
    } else if d == 3 {
        "3"
    } else if d == 4 {
        "4"
    } else if d == 5 {
        "5"
    } else if d == 6 {
        "6"
    } else if d == 7 {
        "7"
    } else if d == 8 {
        "8"
    } else {
        "9"
    }
}

/// The number `n` in decimal digits.
pub fn decimal_text(n: usize) -> (text: String)
    ensures
        text@ == decimal(n as nat),
    decreases n,
{
    if n < 10 {
        String::from_str(digit(n))
    } else {
        decimal_text(n / 10).concat(digit(n % 10))
    }
}

/// The text that sums up a selection of entries.
pub fn format_selection(paths: &Vec<String>) -> (text: String)
    ensures
        text@ == selection_text(views(paths@)),
{
    let shown: usize = if paths.len() > 10 {
        10
    } else {
        paths.len()
    };
    let mut text = String::new();
    let mut i: usize = 0;
    assert(views(paths@).take(0) =~= Seq::<Seq<char>>::empty());
    while i < shown
        invariant
            i <= shown <= paths.len(),
            text@ == comma_joined(views(paths@).take(i as int)),
        decreases shown - i,
    {
        proof {
            assert(views(paths@).take(i + 1).drop_last() =~= views(paths@).take(i as int));
            assert(views(paths@).take(i + 1).last() == paths@[i as int]@);
            if i == 0 {
                assert(views(paths@).take(1)[0] == paths@[0]@);
            }
        }
        if i > 0 {
            text.append(", ");
        }
        text.append(paths[i].as_str());
        i = i + 1;
    }
    if paths.len() > 10 {
        text.append(", ... (+");
        text.append(decimal_text(paths.len() - 10).as_str());
        text.append(" more).");
    } else {
        assert(views(paths@).take(i as int) =~= views(paths@));
        text.append(".");
    }
    text
}

} // verus!
