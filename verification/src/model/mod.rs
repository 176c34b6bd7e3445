//! The parts of the user model that are not figured in floating point: the
//! algorithm's version, the back-off from a pattern to its parent, the
//! context features' fixed order and names, and reading a stored config.

pub mod config;
pub mod context;

use vstd::prelude::*;

use crate::text::{chars_of, string_of, sub_chars};

verus! {

/// Identifies the analysis and scheduling algorithm. Bump whenever anything
/// that feeds a cache changes; every cache is stamped with it and rebuilt
/// from the stored sessions when it differs.
pub const MODEL_VERSION: u32 = 5;

/// The pattern text of the root of the chain: the user as a whole.
pub const ROOT: &'static str = "";

/// The next level up a pattern's chain: the pattern without its first
/// character; the root for a single character and for the root itself.
pub open spec fn parent_pattern(pattern: Seq<char>) -> Seq<char> {
    if pattern.len() == 0 {
        seq![]
    } else {
        pattern.drop_first()
    }
}

/// The next level up the chain: the pattern without its first character.
pub fn parent_of(pattern: &str) -> (r: String)
    ensures
        r@ == parent_pattern(pattern@),
{
    let chars = chars_of(pattern);
    if chars.len() == 0 {
        return string_of(chars.as_slice());
    }
    let rest = sub_chars(chars.as_slice(), 1, chars.len());
    assert(rest@ =~= pattern@.drop_first());
    string_of(rest.as_slice())
}

} // verus!
