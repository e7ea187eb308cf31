//! Resolution of the user-supplied root path.
//!
//! The only rewriting done here is home-directory shorthand at the front
//! of the path; whether the result exists is the traversal's concern.

use vstd::prelude::*;

verus! {

/// Relies on shellexpand::tilde: path text that does not begin with a
/// tilde comes back unchanged; text that does comes back either
/// unchanged (no home directory, or a `~user` form it does not handle)
/// or with the tilde replaced by the process's home directory.
#[verifier::external_body]
fn tilde_expand(input: &str) -> (expanded: String)
    ensures
        input@.len() == 0 || input@[0] != '~' ==> expanded@ == input@,
        expanded@ == input@ || (input@.len() >= 1 && input@[0] == '~' && exists|home: Seq<char>|
            expanded@ == home + input@.skip(1)),
{
    shellexpand::tilde(input).to_string()
}

/// Expands home-directory shorthand at the front of a user-supplied
/// path; a path without the shorthand is returned unchanged.
pub fn expand_path(input: &str) -> (resolved: String)
    ensures
        input@.len() == 0 || input@[0] != '~' ==> resolved@ == input@,
        resolved@ == input@ || (input@.len() >= 1 && input@[0] == '~' && exists|home: Seq<char>|
            resolved@ == home + input@.skip(1)),
{
    tilde_expand(input)
}

} // verus!
