//! Naming conventions that tie a test's source file, its output artifacts
//! and its golden files together.
//!
//! A test `foo` has a source file `foo.mo` or `foo.drun`, artifacts named
//! `foo.<phase>` and golden files named `foo.<phase>.ok`.

use crate::text::{ends_with, is_prefix, is_suffix, strip_prefix, strip_suffix};
use vstd::prelude::*;
use vstd::string::*;

verus! {

/// An artifact name that is never compared against a golden file: binary or
/// generated output.
pub open spec fn non_comparable(name: Seq<char>) -> bool {
    ||| is_suffix(".wasm"@, name)
    ||| is_suffix(".wat"@, name)
    ||| is_suffix(".linked.wat"@, name)
    ||| is_suffix(".mo.mangled"@, name)
    ||| is_suffix("_done"@, name)
    ||| is_suffix(".wasm.map"@, name)
}

/// The test name of a source file name: the name without `.mo`, else without
/// `.drun`; nothing for any other name.
pub open spec fn source_stem(name: Seq<char>) -> Option<Seq<char>> {
    if is_suffix(".mo"@, name) {
        Some(name.take(name.len() - ".mo"@.len()))
    } else if is_suffix(".drun"@, name) {
        Some(name.take(name.len() - ".drun"@.len()))
    } else {
        None
    }
}

/// The name of the artifact that test `stem` leaves for `phase`.
pub open spec fn artifact_name(stem: Seq<char>, phase: Seq<char>) -> Seq<char> {
    stem + "."@ + phase
}

/// The name of the golden file that belongs to the artifact `name`.
pub open spec fn golden_name(name: Seq<char>) -> Seq<char> {
    name + ".ok"@
}

/// The phase of artifact `name` as seen from test `stem`: what follows
/// `stem` and a dot; nothing if `name` does not begin with these.
pub open spec fn phase_of(stem: Seq<char>, name: Seq<char>) -> Option<Seq<char>> {
    if is_prefix(stem + "."@, name) {
        Some(name.skip(stem.len() + 1 as int))
    } else {
        None
    }
}

/// An artifact name and the phase read from it determine each other.
pub proof fn lemma_phase_round_trip(stem: Seq<char>, name: Seq<char>)
    requires
        phase_of(stem, name) is Some,
    ensures
        artifact_name(stem, phase_of(stem, name)->0) == name,
{
    reveal_strlit(".");
    let prefix = stem + "."@;
    assert(prefix.len() == stem.len() + 1);
    assert(name.subrange(0, prefix.len() as int) == prefix);
    assert(name =~= name.subrange(0, prefix.len() as int) + name.skip(prefix.len() as int));
}

/// Whether the artifact `filename` is excluded from comparison.
pub fn is_non_comparable(filename: &str) -> (r: bool)
    ensures
        r == non_comparable(filename@),
{
    ends_with(filename, ".wasm") || ends_with(filename, ".wat") || ends_with(
        filename,
        ".linked.wat",
    ) || ends_with(filename, ".mo.mangled") || ends_with(filename, "_done") || ends_with(
        filename,
        ".wasm.map",
    )
}

/// The test name of the source file `filename`.
pub fn test_name_from_source(filename: &str) -> (r: Option<&str>)
    ensures
        r is Some <==> source_stem(filename@) is Some,
        r matches Some(stem) ==> Some(stem@) == source_stem(filename@),
{
    match strip_suffix(filename, ".mo") {
        Some(stem) => Some(stem),
        None => strip_suffix(filename, ".drun"),
    }
}

/// The phase of the artifact `out_filename` of test `test_name`.
pub fn extract_phase(test_name: &str, out_filename: &str) -> (r: Option<String>)
    ensures
        r is Some <==> phase_of(test_name@, out_filename@) is Some,
        r matches Some(phase) ==> Some(phase@) == phase_of(test_name@, out_filename@),
{
    proof {
        reveal_strlit(".");
        lemma_prefix_then_dot(test_name@, out_filename@);
    }
    match strip_prefix(out_filename, test_name) {
        Some(rest) => match strip_prefix(rest, ".") {
            Some(phase) => {
                assert(phase@ =~= out_filename@.skip(test_name@.len() + 1 as int));
                Some(phase.to_owned())
            },
            None => None,
        },
        None => None,
    }
}

/// Beginning with `stem` and then with a dot is beginning with `stem + "."`.
proof fn lemma_prefix_then_dot(stem: Seq<char>, name: Seq<char>)
    ensures
        is_prefix(stem + "."@, name) <==> is_prefix(stem, name) && is_prefix(
            "."@,
            name.skip(stem.len() as int),
        ),
{
    reveal_strlit(".");
    let dot = "."@;
    let joined = stem + dot;
    if is_prefix(joined, name) {
        assert(name.subrange(0, stem.len() as int) =~= joined.subrange(0, stem.len() as int));
        assert(joined.subrange(0, stem.len() as int) =~= stem);
        assert(name.skip(stem.len() as int).subrange(0, 1) =~= joined.subrange(
            stem.len() as int,
            stem.len() + 1 as int,
        ));
        assert(joined.subrange(stem.len() as int, stem.len() + 1 as int) =~= dot);
    }
    if is_prefix(stem, name) && is_prefix(dot, name.skip(stem.len() as int)) {
        assert(name.subrange(0, joined.len() as int) =~= name.subrange(0, stem.len() as int)
            + name.skip(stem.len() as int).subrange(0, 1));
    }
}

} // verus!
