//! Paths as text: a directory, a slash, a file name.

use crate::text::{find_last, last_index_of, lemma_last_index_of, slice};
use vstd::prelude::*;
use vstd::string::*;

verus! {

/// The directory of `path`: what stands before its last slash, and nothing
/// where it has no slash.
pub open spec fn path_dir(path: Seq<char>) -> Seq<char> {
    match last_index_of(path, '/') {
        Some(i) => path.take(i),
        None => Seq::empty(),
    }
}

/// The file name of `path`: what stands behind its last slash, and all of it
/// where it has no slash.
pub open spec fn path_file(path: Seq<char>) -> Seq<char> {
    match last_index_of(path, '/') {
        Some(i) => path.skip(i + 1),
        None => path,
    }
}

/// Splits `path` into its directory and its file name.
pub fn split_path(path: &str) -> (r: (&str, &str))
    ensures
        r.0@ == path_dir(path@),
        r.1@ == path_file(path@),
{
    proof {
        lemma_last_index_of(path@, '/');
    }
    let n = path.unicode_len();
    match find_last(path, '/') {
        Some(i) => (slice(path, 0, i), slice(path, i + 1, n)),
        None => {
            assert(path@.subrange(0, n as int) =~= path@);
            (slice(path, 0, 0), slice(path, 0, n))
        },
    }
}

} // verus!
