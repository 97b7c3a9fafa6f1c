//! The first-generation revspec scanner: the same name scan and range
//! operators as [`crate::revision::parse`], driving a reduced delegate that
//! resolves every name — an empty one included — through a single
//! `resolve_ref` call and knows no prefix disambiguation or reflog
//! navigation.

use vstd::prelude::*;

use crate::revision::Kind;
use crate::revision::parse::{find_sep, sep_pos_from, subvec};

verus! {

/// One call a scan makes into its delegate, as recorded in the delegate's
/// ghost call log.
pub enum Event {
    /// `resolve_ref` was asked to resolve a reference name.
    ResolveRef { name: Seq<u8> },
    /// `find_by_prefix` was asked about an abbreviated hash.
    FindByPrefix { input: Seq<u8> },
    /// `nth_ancestor` was asked to step back.
    NthAncestor { n: int },
    /// `nth_parent` was asked to step sideways.
    NthParent { n: int },
    /// `kind` was told how the revisions combine.
    KindSet { kind: Kind },
}

/// A delegate's veto behaviour: which call it acknowledges, given the calls
/// it has received so far.
pub type Policy = spec_fn(Seq<Event>, Event) -> bool;

/// The failures a scan can end in. Mirrors [`Error`] with mathematical
/// payloads; [`Error`]'s view lands here.
pub enum ErrV {
    /// `@` stood neither alone nor before `{...}`.
    AtNeedsCurlyBrackets { input: Seq<u8> },
    /// Bytes were left after the grammar was done.
    UnconsumedInput { input: Seq<u8> },
    /// The delegate vetoed a call.
    Delegate,
    /// A navigation this scanner does not support: `@{...}`, `~`, `^` or `:`
    /// suffixes.
    UnsupportedNavigation { input: Seq<u8> },
}

/// The failures a scan can end in, with the offending bytes copied out of
/// the input. Its view is the matching [`ErrV`].
#[derive(Debug)]
pub enum Error {
    /// `@` stood neither alone nor before `{...}`.
    AtNeedsCurlyBrackets { input: Vec<u8> },
    /// Bytes were left after the grammar was done.
    UnconsumedInput { input: Vec<u8> },
    /// The delegate did not indicate success; check the delegate for more
    /// information.
    Delegate,
    /// A navigation this scanner does not support: `@{...}`, `~`, `^` or `:`
    /// suffixes.
    UnsupportedNavigation { input: Vec<u8> },
}

impl View for Error {
    type V = ErrV;

    open spec fn view(&self) -> ErrV {
        match self {
            Error::AtNeedsCurlyBrackets { input } => ErrV::AtNeedsCurlyBrackets { input: input@ },
            Error::UnconsumedInput { input } => ErrV::UnconsumedInput { input: input@ },
            Error::Delegate => ErrV::Delegate,
            Error::UnsupportedNavigation { input } => ErrV::UnsupportedNavigation {
                input: input@,
            },
        }
    }
}

/// A delegate to be informed about parse events: which revision to start
/// from, where to go from there, and how several revisions combine.
///
/// A delegate carries a ghost log of the calls it has received and a veto
/// policy; each method appends its call to the log and succeeds exactly when
/// the policy acknowledges the call.
pub trait Delegate {
    /// The calls received so far, in order, vetoed ones included.
    spec fn log(&self) -> Seq<Event>;

    /// The veto behaviour: a function of the calls received so far and the
    /// call at hand. It never changes over a delegate's lifetime.
    spec fn policy(&self) -> Policy;

    /// Resolve `name` as a reference, which might not be a valid reference
    /// name. The name may be partial like `main` or full like
    /// `refs/heads/main`, solely depending on the user's input.
    fn resolve_ref(&mut self, name: &[u8]) -> (r: Option<()>)
        ensures
            final(self).log() == old(self).log().push(Event::ResolveRef { name: name@ }),
            final(self).policy() == old(self).policy(),
            r is Some <==> old(self).policy()(
                old(self).log(),
                Event::ResolveRef { name: name@ },
            ),
    ;

    /// Look up an object by an abbreviated hash.
    fn find_by_prefix(&mut self, input: &[u8]) -> (r: Option<()>)
        ensures
            final(self).log() == old(self).log().push(Event::FindByPrefix { input: input@ }),
            final(self).policy() == old(self).policy(),
            r is Some <==> old(self).policy()(
                old(self).log(),
                Event::FindByPrefix { input: input@ },
            ),
    ;

    /// Step back `n` generations.
    fn nth_ancestor(&mut self, n: usize) -> (r: Option<()>)
        ensures
            final(self).log() == old(self).log().push(Event::NthAncestor { n: n as int }),
            final(self).policy() == old(self).policy(),
            r is Some <==> old(self).policy()(old(self).log(), Event::NthAncestor { n: n as int }),
    ;

    /// Step to the `n`-th parent.
    fn nth_parent(&mut self, n: usize) -> (r: Option<()>)
        ensures
            final(self).log() == old(self).log().push(Event::NthParent { n: n as int }),
            final(self).policy() == old(self).policy(),
            r is Some <==> old(self).policy()(old(self).log(), Event::NthParent { n: n as int }),
    ;

    /// Set the kind of the specification, in case it happens at all. When
    /// this method is never called, assume `Single`. A kind may be rejected
    /// by returning `None`, which stops the parsing.
    fn kind(&mut self, kind: Kind) -> (r: Option<()>)
        ensures
            final(self).log() == old(self).log().push(Event::KindSet { kind }),
            final(self).policy() == old(self).policy(),
            r is Some <==> old(self).policy()(old(self).log(), Event::KindSet { kind }),
    ;
}

/// What scanning one revision emits: the calls made, the failure if any, and
/// where the cursor stands afterwards.
pub struct RevOut {
    /// The calls made, vetoed ones included.
    pub events: Seq<Event>,
    /// The failure the scan ends in, if any.
    pub err: Option<ErrV>,
    /// The cursor position after the revision; meaningless on failure.
    pub rest: int,
}

/// Scanning one revision from position `i`: the name runs to the first
/// separator — a single `.` not followed by another `.` stays in the name —
/// and is resolved through `resolve_ref`, a bare `@` standing in for `HEAD`.
/// Of the separators only `.` (starting a range operator) and a bare `@`
/// after an empty name are consumed; everything else is unsupported here.
pub open spec fn scan_revision(s: Seq<u8>, i: int, log: Seq<Event>, p: Policy) -> RevOut {
    let sp = sep_pos_from(s, i);
    let j = match sp {
        Some(x) => x,
        None => s.len() as int,
    };
    let e = if i == j && sp is Some && s[j] == 64 {
        Event::ResolveRef { name: crate::revision::parse::head_name() }
    } else {
        Event::ResolveRef { name: s.subrange(i, j) }
    };
    if !p(log, e) {
        RevOut { events: seq![e], err: Some(ErrV::Delegate), rest: s.len() as int }
    } else {
        match sp {
            None => RevOut { events: seq![e], err: None, rest: s.len() as int },
            Some(pos) => {
                if s[pos] == 46 {
                    RevOut { events: seq![e], err: None, rest: pos }
                } else if s[pos] == 64 {
                    if i == j {
                        RevOut { events: seq![e], err: None, rest: pos + 1 }
                    } else {
                        RevOut {
                            events: seq![e],
                            err: Some(
                                ErrV::AtNeedsCurlyBrackets {
                                    input: s.subrange(pos + 1, s.len() as int),
                                },
                            ),
                            rest: s.len() as int,
                        }
                    }
                } else {
                    RevOut {
                        events: seq![e],
                        err: Some(
                            ErrV::UnsupportedNavigation {
                                input: s.subrange(pos, s.len() as int),
                            },
                        ),
                        rest: s.len() as int,
                    }
                }
            },
        }
    }
}

/// What a whole scan emits: the calls made and how it ended.
pub struct ScanOut {
    /// The calls made, vetoed ones included.
    pub events: Seq<Event>,
    /// `None` when the scan succeeded, else its failure.
    pub res: Option<ErrV>,
}

/// The range operator and second revision, after the first revision ended at
/// `t`. Unlike [`crate::revision::parse::scan`], this scanner does not
/// protect against a second kind call.
pub open spec fn scan_range(s: Seq<u8>, t: int, log: Seq<Event>, p: Policy, acc: Seq<Event>) -> ScanOut {
    if t + 3 <= s.len() && s[t] == 46 && s[t + 1] == 46 && s[t + 2] == 46 {
        scan_second(s, t + 3, Kind::MergeBase, log, p, acc)
    } else if t + 2 <= s.len() && s[t] == 46 && s[t + 1] == 46 {
        scan_second(s, t + 2, Kind::Range, log, p, acc)
    } else if t == s.len() {
        ScanOut { events: acc, res: None }
    } else {
        ScanOut {
            events: acc,
            res: Some(ErrV::UnconsumedInput { input: s.subrange(t, s.len() as int) }),
        }
    }
}

/// Setting the range kind `k` and scanning the second revision from `i`.
pub open spec fn scan_second(
    s: Seq<u8>,
    i: int,
    k: Kind,
    log: Seq<Event>,
    p: Policy,
    acc: Seq<Event>,
) -> ScanOut {
    let e = Event::KindSet { kind: k };
    if !p(log, e) {
        ScanOut { events: acc.push(e), res: Some(ErrV::Delegate) }
    } else {
        let r2 = scan_revision(s, i, log.push(e), p);
        let acc2 = acc.push(e) + r2.events;
        match r2.err {
            Some(err) => ScanOut { events: acc2, res: Some(err) },
            None => if r2.rest == s.len() {
                ScanOut { events: acc2, res: None }
            } else {
                ScanOut {
                    events: acc2,
                    res: Some(
                        ErrV::UnconsumedInput { input: s.subrange(r2.rest, s.len() as int) },
                    ),
                }
            },
        }
    }
}

/// The whole scan of `s` against a delegate whose log starts at `log` and
/// whose veto behaviour is `p`.
pub open spec fn scan(s: Seq<u8>, log: Seq<Event>, p: Policy) -> ScanOut {
    if s.len() > 0 && s[0] == 94 {
        let e = Event::KindSet { kind: Kind::Range };
        if !p(log, e) {
            ScanOut { events: seq![e], res: Some(ErrV::Delegate) }
        } else {
            let r1 = scan_revision(s, 1, log.push(e), p);
            let acc1 = seq![e] + r1.events;
            match r1.err {
                Some(err) => ScanOut { events: acc1, res: Some(err) },
                None => scan_range(s, r1.rest, log.push(e) + r1.events, p, acc1),
            }
        }
    } else {
        let r1 = scan_revision(s, 0, log, p);
        match r1.err {
            Some(err) => ScanOut { events: r1.events, res: Some(err) },
            None => scan_range(s, r1.rest, log + r1.events, p, r1.events),
        }
    }
}

/// Scan one revision of `s` from `start`, resolving its name through the
/// delegate.
fn revision<D: Delegate>(s: &[u8], start: usize, d: &mut D) -> (r: Result<usize, Error>)
    requires
        start <= s@.len(),
    ensures
        final(d).policy() == old(d).policy(),
        ({
            let out = scan_revision(s@, start as int, old(d).log(), old(d).policy());
            &&& final(d).log() == old(d).log() + out.events
            &&& match r {
                Ok(rest) => out.err is None && rest == out.rest && start <= rest <= s@.len(),
                Err(e) => out.err == Some(e@),
            }
        }),
{
    let ghost log0 = d.log();
    let sp = find_sep(s, start);
    let j = match sp {
        Some(x) => x,
        None => s.len(),
    };
    let shortcut = match sp {
        Some(pos) => start == pos && s[pos] == 64,
        None => false,
    };
    let ok = if shortcut {
        let head: Vec<u8> = vec![72u8, 69u8, 65u8, 68u8];
        proof {
            assert(head@ =~= crate::revision::parse::head_name());
        }
        d.resolve_ref(head.as_slice())
    } else {
        d.resolve_ref(&s[start..j])
    };
    let ghost out = scan_revision(s@, start as int, log0, old(d).policy());
    proof {
        assert(d.log() =~= log0 + out.events);
    }
    if ok.is_none() {
        return Err(Error::Delegate);
    }
    match sp {
        None => Ok(s.len()),
        Some(pos) => {
            let c = s[pos];
            if c == 46 {
                Ok(pos)
            } else if c == 64 {
                if start == j {
                    Ok(pos + 1)
                } else {
                    Err(Error::AtNeedsCurlyBrackets { input: subvec(s, pos + 1, s.len()) })
                }
            } else {
                Err(Error::UnsupportedNavigation { input: subvec(s, pos, s.len()) })
            }
        },
    }
}

/// Parse a revision specification, driving the `delegate` as the grammar
/// unfolds: an optional leading `^` sets the `Range` kind, one revision
/// follows, then an optional `...` or `..` operator with a second revision,
/// and nothing may remain.
///
/// The delegate receives every call the scan makes, as [`scan`] lays down;
/// on success its log has grown by exactly those events, and the result is
/// the outcome [`scan`] names for this input, this delegate's prior log and
/// its policy.
pub fn parse<D: Delegate>(input: &[u8], delegate: &mut D) -> (r: Result<(), Error>)
    ensures
        final(delegate).policy() == old(delegate).policy(),
        ({
            let out = scan(input@, old(delegate).log(), old(delegate).policy());
            &&& final(delegate).log() == old(delegate).log() + out.events
            &&& match r {
                Ok(_) => out.res is None,
                Err(e) => out.res == Some(e@),
            }
        }),
{
    let ghost log0 = delegate.log();
    let ghost pol = delegate.policy();

    let caret = input.len() > 0 && input[0] == 94;
    let mut start: usize = 0;
    if caret {
        let ghost e = Event::KindSet { kind: Kind::Range };
        let ok = delegate.kind(Kind::Range);
        proof {
            assert(delegate.log() =~= log0 + seq![e]);
        }
        if ok.is_none() {
            return Err(Error::Delegate);
        }
        start = 1;
    }
    let ghost acck: Seq<Event> = if caret {
        seq![Event::KindSet { kind: Kind::Range }]
    } else {
        seq![]
    };
    let ghost logk = delegate.log();
    proof {
        assert(logk =~= log0 + acck);
    }

    let ghost r1 = scan_revision(input@, start as int, logk, pol);
    let rest = match revision(input, start, delegate) {
        Ok(t) => t,
        Err(e) => {
            proof {
                assert(delegate.log() =~= log0 + (acck + r1.events));
            }
            return Err(e);
        },
    };
    let ghost acc1 = acck + r1.events;
    let ghost log1 = logk + r1.events;
    proof {
        assert(delegate.log() =~= log0 + acc1);
        assert(scan(input@, log0, pol) == scan_range(input@, r1.rest, log1, pol, acc1));
    }

    let remaining = input.len() - rest;
    let (op, next): (Kind, usize) = if remaining >= 3 && input[rest] == 46 && input[rest + 1] == 46
        && input[rest + 2] == 46 {
        (Kind::MergeBase, rest + 3)
    } else if remaining >= 2 && input[rest] == 46 && input[rest + 1] == 46 {
        (Kind::Range, rest + 2)
    } else {
        if rest == input.len() {
            return Ok(());
        } else {
            return Err(Error::UnconsumedInput { input: subvec(input, rest, input.len()) });
        }
    };

    let ghost e2 = Event::KindSet { kind: op };
    let ok = delegate.kind(op);
    proof {
        assert(delegate.log() =~= log0 + acc1.push(e2));
    }
    if ok.is_none() {
        return Err(Error::Delegate);
    }
    let ghost log2 = log1.push(e2);
    let ghost r2 = scan_revision(input@, next as int, log2, pol);
    let rest2 = match revision(input, next, delegate) {
        Ok(t) => t,
        Err(e) => {
            proof {
                assert(delegate.log() =~= log0 + (acc1.push(e2) + r2.events));
            }
            return Err(e);
        },
    };
    proof {
        assert(delegate.log() =~= log0 + (acc1.push(e2) + r2.events));
    }
    if rest2 == input.len() {
        Ok(())
    } else {
        Err(Error::UnconsumedInput { input: subvec(input, rest2, input.len()) })
    }
}

/// The policy of a delegate that acknowledges every call.
pub open spec fn accept_all_policy() -> Policy {
    |log: Seq<Event>, e: Event| true
}

/// The policy of a delegate that vetoes every attempt to set a kind and
/// acknowledges everything else.
pub open spec fn reject_kind_policy() -> Policy {
    |log: Seq<Event>, e: Event| !(e is KindSet)
}

/// A ready-made delegate that records every call it receives. It
/// acknowledges every call, unless it was built to veto kinds.
pub struct Recorder {
    /// The ghost call log.
    pub log: Ghost<Seq<Event>>,
    /// The names handed to `resolve_ref`, in order.
    pub resolved: Vec<Vec<u8>>,
    /// The kind most recently acknowledged, if any.
    pub kind: Option<Kind>,
    /// How many calls were received, saturating at the machine limit.
    pub calls: usize,
    /// Whether every attempt to set a kind is vetoed.
    pub reject_kind: bool,
}

impl Recorder {
    /// A recorder that acknowledges every call.
    pub fn new() -> (r: Recorder)
        ensures
            r.log@ == Seq::<Event>::empty(),
            r.policy() == accept_all_policy(),
            r.resolved@.len() == 0,
            r.kind is None,
            r.calls == 0,
            !r.reject_kind,
    {
        Recorder { log: Ghost(Seq::empty()), resolved: Vec::new(), kind: None, calls: 0, reject_kind: false }
    }

    /// A recorder that vetoes every attempt to set a kind.
    pub fn new_rejecting_kind() -> (r: Recorder)
        ensures
            r.log@ == Seq::<Event>::empty(),
            r.policy() == reject_kind_policy(),
            r.kind is None,
            r.calls == 0,
            r.reject_kind,
    {
        Recorder { log: Ghost(Seq::empty()), resolved: Vec::new(), kind: None, calls: 0, reject_kind: true }
    }

    fn count_call(&mut self)
        ensures
            final(self).log == old(self).log,
            final(self).resolved == old(self).resolved,
            final(self).kind == old(self).kind,
            final(self).reject_kind == old(self).reject_kind,
    {
        if self.calls < usize::MAX {
            self.calls = self.calls + 1;
        }
    }
}

impl Delegate for Recorder {
    open spec fn log(&self) -> Seq<Event> {
        self.log@
    }

    open spec fn policy(&self) -> Policy {
        if self.reject_kind {
            reject_kind_policy()
        } else {
            accept_all_policy()
        }
    }

    fn resolve_ref(&mut self, name: &[u8]) -> (r: Option<()>) {
        proof {
            self.log@ = self.log@.push(Event::ResolveRef { name: name@ });
        }
        self.resolved.push(vstd::slice::slice_to_vec(name));
        self.count_call();
        Some(())
    }

    fn find_by_prefix(&mut self, input: &[u8]) -> (r: Option<()>) {
        proof {
            self.log@ = self.log@.push(Event::FindByPrefix { input: input@ });
        }
        self.count_call();
        Some(())
    }

    fn nth_ancestor(&mut self, n: usize) -> (r: Option<()>) {
        proof {
            self.log@ = self.log@.push(Event::NthAncestor { n: n as int });
        }
        self.count_call();
        Some(())
    }

    fn nth_parent(&mut self, n: usize) -> (r: Option<()>) {
        proof {
            self.log@ = self.log@.push(Event::NthParent { n: n as int });
        }
        self.count_call();
        Some(())
    }

    fn kind(&mut self, kind: Kind) -> (r: Option<()>) {
        proof {
            self.log@ = self.log@.push(Event::KindSet { kind });
        }
        self.count_call();
        if self.reject_kind {
            None
        } else {
            self.kind = Some(kind);
            Some(())
        }
    }
}

} // verus!
