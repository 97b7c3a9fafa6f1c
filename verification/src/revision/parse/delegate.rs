//! The delegate capability traits the scanner drives, split into anchor
//! resolution, navigation, and combinator selection.
//!
//! A delegate carries a ghost log of the calls it has received and a veto
//! policy; each capability method appends its call to the log and succeeds
//! exactly when the policy acknowledges the call.

use vstd::prelude::*;

use crate::prefix::Prefix;
use crate::revision::parse::{Event, Policy};

verus! {

/// The ghost bookkeeping every delegate carries: a log of received calls and
/// the policy by which it acknowledges or vetoes them.
pub trait Record {
    /// The calls received so far, in order, vetoed ones included.
    spec fn log(&self) -> Seq<Event>;

    /// The veto behaviour: a function of the calls received so far and the
    /// call at hand. It never changes over a delegate's lifetime.
    spec fn policy(&self) -> Policy;
}

/// Usually the first methods to call when scanning a rev-spec, to set an
/// anchor. They may be called several times, to try input or because another
/// rev-spec is part of a range. For a bare `@{...}` form they are not called
/// at all.
pub trait Anchor: Record {
    /// Resolve `name` as a reference, which might not be a valid reference
    /// name. The name may be partial like `main` or full like
    /// `refs/heads/main`, solely depending on the user's input.
    fn find_ref(&mut self, name: &[u8]) -> (r: Option<()>)
        ensures
            final(self).log() == old(self).log().push(Event::FindRef { name: name@ }),
            final(self).policy() == old(self).policy(),
            r is Some <==> old(self).policy()(
                old(self).log(),
                Event::FindRef { name: name@ },
            ),
    ;

    /// An object prefix to disambiguate; `None` when it is ambiguous or was
    /// not found at all.
    fn disambiguate_prefix(&mut self, prefix: Prefix) -> (r: Option<()>)
        ensures
            final(self).log() == old(self).log().push(
                Event::DisambiguatePrefix {
                    bytes: prefix.spec_bytes(),
                    hex_len: prefix.spec_hex_len(),
                },
            ),
            final(self).policy() == old(self).policy(),
            r is Some <==> old(self).policy()(
                old(self).log(),
                Event::DisambiguatePrefix {
                    bytes: prefix.spec_bytes(),
                    hex_len: prefix.spec_hex_len(),
                },
            ),
    ;
}

/// Once an anchor is set, one can adjust it using navigation methods.
pub trait Navigation: Record {
    /// Look up the reflog of the previously set reference, or dereference
    /// `HEAD` to its symbolic reference. `None` when there is no such entry.
    fn reflog(&mut self, entry: usize) -> (r: Option<()>)
        ensures
            final(self).log() == old(self).log().push(Event::Reflog { entry: entry as int }),
            final(self).policy() == old(self).policy(),
            r is Some <==> old(self).policy()(
                old(self).log(),
                Event::Reflog { entry: entry as int },
            ),
    ;

    /// When looking at `HEAD`, `branch_no` is the previous branch in the
    /// checkout history: `1` is the last branch checked out, `2` the one
    /// before that. `None` when the history is not long enough.
    fn nth_checked_out_branch(&mut self, branch_no: usize) -> (r: Option<()>)
        ensures
            final(self).log() == old(self).log().push(
                Event::CheckedOutBranch { branch_no: branch_no as int },
            ),
            final(self).policy() == old(self).policy(),
            r is Some <==> old(self).policy()(
                old(self).log(),
                Event::CheckedOutBranch { branch_no: branch_no as int },
            ),
    ;
}

/// Combine two revision specifications into a range of some kind.
pub trait Kind: Record {
    /// Set the kind of the spec, which happens at most once per scan. When
    /// this method is never called, assume `Single`. A kind may be rejected
    /// by returning `None`, which stops the scan.
    ///
    /// Note that ranges do not assure that a second specification follows:
    /// for `^rev` this method is called with `Range` and no second
    /// specification is provided.
    fn kind(&mut self, kind: crate::revision::Kind) -> (r: Option<()>)
        ensures
            final(self).log() == old(self).log().push(Event::KindSet { kind }),
            final(self).policy() == old(self).policy(),
            r is Some <==> old(self).policy()(old(self).log(), Event::KindSet { kind }),
    ;
}

} // verus!
