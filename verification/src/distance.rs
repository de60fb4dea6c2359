//! Edit distance between words.

use vstd::prelude::*;

verus! {

pub open spec fn min3(a: nat, b: nat, c: nat) -> nat {
    if a <= b && a <= c {
        a
    } else if b <= c {
        b
    } else {
        c
    }
}

/// The Levenshtein distance: the least number of insertions, deletions and
/// substitutions of single characters that turn `a` into `b`.
pub open spec fn edit_distance(a: Seq<char>, b: Seq<char>) -> nat
    decreases a.len() + b.len(),
{
    if a.len() == 0 {
        b.len()
    } else if b.len() == 0 {
        a.len()
    } else if a.last() == b.last() {
        edit_distance(a.drop_last(), b.drop_last())
    } else {
        1 + min3(
            edit_distance(a.drop_last(), b),
            edit_distance(a, b.drop_last()),
            edit_distance(a.drop_last(), b.drop_last()),
        )
    }
}

/// Words at most this far from the shown word are proposed after it.
pub const NEAR: usize = 2;

/// Calls `strsim::levenshtein`, which computes, over the characters of the
/// two strings, the minimum number of insertions, deletions and
/// substitutions required to change one into the other.
#[verifier::external_body]
pub(crate) fn levenshtein(a: &str, b: &str) -> (r: usize)
    ensures
        r == edit_distance(a@, b@),
{
    strsim::levenshtein(a, b)
}

/// Tells whether `a` and `b` are at most [`NEAR`] edits apart.
pub fn is_near(a: &str, b: &str) -> (r: bool)
    ensures
        r == (edit_distance(a@, b@) <= NEAR),
{
    levenshtein(a, b) <= NEAR
}

} // verus!
