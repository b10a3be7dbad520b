//! Paths inside the app's data directory.

use vstd::prelude::*;

verus! {

/// The standard library's owned path, carried through opaquely.
#[verifier::external_type_specification]
#[verifier::external_body]
pub struct ExPathBuf(std::path::PathBuf);

/// What `Path::join` gives for `dir` and `file`: the path of `file` inside
/// `dir`, by the path rules (separator, drive prefixes) of the platform the
/// crate is built for.
pub uninterp spec fn joined(dir: std::path::PathBuf, file: Seq<char>) -> std::path::PathBuf;

/// `Path::join`. The contract claims only that the result is the one
/// [`joined`] names for the arguments; the platform's path rules are left to std.
#[verifier::external_body]
pub(crate) fn join_file(dir: &std::path::PathBuf, file: &str) -> (r: std::path::PathBuf)
    ensures
        r == joined(*dir, file@),
{
    dir.join(file)
}

} // verus!
