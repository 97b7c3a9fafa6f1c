//! Revision specifications and their scanner.

use vstd::prelude::*;

pub mod basic;
pub mod parse;

verus! {

/// How to interpret a revision specification, or `revspec`.
#[derive(Debug, Clone, Copy, PartialEq, Eq, Structural)]
pub enum Kind {
    /// A single revision specification, pointing at one reference.
    Single,
    /// Two revision specifications `a` and `b` where we want all commits from
    /// `b` that are not also in `a`.
    Range,
    /// Everything in `a` and `b` but no commit from any of their merge bases.
    MergeBase,
}

impl Default for Kind {
    /// A specification is a single revision unless the scan says otherwise.
    fn default() -> (r: Self)
        ensures
            r == Kind::Single,
    {
        Kind::Single
    }
}

} // verus!
