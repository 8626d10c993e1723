//! Trusted boundary to the glob crate: compiling and matching glob patterns.

use vstd::prelude::*;

verus! {

/// Whether `pattern` is a well-formed glob: names the success of glob's
/// `Pattern::new`, which depends on the pattern string alone.
pub uninterp spec fn glob_valid(pattern: Seq<char>) -> bool;

/// Whether `path` matches the glob `pattern`: names the result of glob's
/// `Pattern::matches`, which depends on the two strings alone.
pub uninterp spec fn glob_matches(pattern: Seq<char>, path: Seq<char>) -> bool;

/// Relies on glob's `Pattern::new`: succeeds exactly on well-formed glob
/// patterns; the error carries the crate's own message.
#[verifier::external_body]
pub(crate) fn glob_check(pattern: &str) -> (r: Result<(), String>)
    ensures
        r is Ok <==> glob_valid(pattern@),
{
    match glob::Pattern::new(pattern) {
        Ok(_) => Ok(()),
        Err(e) => Err(e.to_string()),
    }
}

/// Relies on glob's `Pattern::matches` (and `Pattern::new` to compile the
/// pattern, which succeeds on every valid one).
#[verifier::external_body]
pub(crate) fn glob_match(pattern: &str, path: &str) -> (r: bool)
    requires
        glob_valid(pattern@),
    ensures
        r == glob_matches(pattern@, path@),
{
    match glob::Pattern::new(pattern) {
        Ok(p) => p.matches(path),
        Err(_) => false,
    }
}

} // verus!
