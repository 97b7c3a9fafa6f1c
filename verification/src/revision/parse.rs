//! The revspec scanner: a cursor over a byte string that recognizes one or
//! two revisions and an optional combinator, reporting each resolution intent
//! to a caller-supplied delegate.

use vstd::prelude::*;

pub mod delegate;
pub mod round_trip;

use crate::revision::Kind;
use crate::revision::parse::delegate::Record;

verus! {

/// One call a scan makes into its delegate, as recorded in the delegate's
/// ghost call log.
pub enum Event {
    /// `find_ref` was asked to resolve a reference name.
    FindRef { name: Seq<u8> },
    /// `disambiguate_prefix` was handed an abbreviated hash with this buffer
    /// and digit count.
    DisambiguatePrefix { bytes: Seq<u8>, hex_len: int },
    /// `reflog` was asked for this entry.
    Reflog { entry: int },
    /// `nth_checked_out_branch` was asked for this checkout.
    CheckedOutBranch { branch_no: int },
    /// `kind` was told how the revisions combine.
    KindSet { kind: Kind },
}

/// A delegate's veto behaviour: which call it acknowledges, given the calls
/// it has received so far.
pub type Policy = spec_fn(Seq<Event>, Event) -> bool;

/// The failures a scan can end in. Mirrors [`Error`] with mathematical
/// payloads; [`Error`]'s view lands here.
pub enum ErrV {
    /// A reflog entry was asked of an anchor that is no reference name.
    ReflogEntryNeedsRefName { name: Seq<u8> },
    /// A negative reflog count followed a reference name.
    RefnameNeedsPositiveReflogEntries { nav: Seq<u8> },
    /// A literal negative zero stood between braces.
    NegativeZero { input: Seq<u8> },
    /// An opening brace was never matched.
    UnclosedBracePair { input: Seq<u8> },
    /// A kind was set twice.
    KindSetTwice { prev_kind: Kind, kind: Kind },
    /// `@` stood neither alone nor before `{...}`.
    AtNeedsCurlyBrackets { input: Seq<u8> },
    /// Bytes were left after the grammar was done.
    UnconsumedInput { input: Seq<u8> },
    /// The delegate vetoed a call.
    Delegate,
    /// A navigation this scanner does not support: `~`, `^` or `:` suffixes,
    /// or brace content that is no number.
    UnsupportedNavigation { input: Seq<u8> },
}

/// The separator bytes `@ ~ ^ : .` that end a name scan.
pub open spec fn is_separator(b: u8) -> bool {
    b == 64 || b == 126 || b == 94 || b == 58 || b == 46
}

/// Position of the first separator at or after `i`, where a single `.` not
/// followed by another `.` counts as a plain name byte, not a separator.
pub open spec fn sep_pos_from(s: Seq<u8>, i: int) -> Option<int>
    decreases s.len() - i,
{
    if i < 0 || i >= s.len() {
        None
    } else if is_separator(s[i]) && (s[i] != 46 || (i + 1 < s.len() && s[i + 1] == 46)) {
        Some(i)
    } else {
        sep_pos_from(s, i + 1)
    }
}

/// True when every byte of `s[i..j)` other than `.` is a hexadecimal digit:
/// the scanner's running hex count survives the name exactly then.
pub open spec fn all_name_hex(s: Seq<u8>, i: int, j: int) -> bool {
    forall|k: int| i <= k < j && s[k] != 46 ==> crate::is_hex_digit(s[k])
}

/// The number of bytes of `s[i..j)` other than `.`: what the scanner's hex
/// count reaches when it survives the name.
pub open spec fn count_non_dot(s: Seq<u8>, i: int, j: int) -> int
    decreases j - i,
{
    if j <= i {
        0
    } else {
        count_non_dot(s, i, j - 1) + if s[j - 1] != 46 {
            1int
        } else {
            0int
        }
    }
}

/// True when every byte of `s[i..j)` is a hexadecimal digit.
pub open spec fn all_hex_range(s: Seq<u8>, i: int, j: int) -> bool {
    forall|k: int| i <= k < j ==> crate::is_hex_digit(s[k])
}

/// Position of the last `-` in `s[i..j)`.
pub open spec fn last_dash_before(s: Seq<u8>, i: int, j: int) -> Option<int>
    decreases j - i,
{
    if j <= i {
        None
    } else if s[j - 1] == 45 {
        Some(j - 1)
    } else {
        last_dash_before(s, i, j - 1)
    }
}

/// Position of the first `-` in `s[i..j)`.
pub open spec fn first_dash_from(s: Seq<u8>, i: int, j: int) -> Option<int>
    decreases j - i,
{
    if i < 0 || i >= j {
        None
    } else if s[i] == 45 {
        Some(i)
    } else {
        first_dash_from(s, i + 1, j)
    }
}

/// The last dash of `s[i..j)` lies within `[i, j)`, nothing follows it, and
/// where there is none, `s[i..j)` holds no dash at all.
pub proof fn lemma_last_dash_bounds(s: Seq<u8>, i: int, j: int)
    ensures
        match last_dash_before(s, i, j) {
            Some(d) => i <= d < j && s[d] == 45 && forall|k: int| d < k < j ==> s[k] != 45,
            None => forall|k: int| i <= k < j ==> s[k] != 45,
        },
    decreases j - i,
{
    if j > i && s[j - 1] != 45 {
        lemma_last_dash_bounds(s, i, j - 1);
    }
}

/// Scanning the `-`-separated tokens of `s[i..hi)` from the right: the first
/// token of the form `g<hex run>`, as its bounds. The run may be empty.
pub open spec fn long_prefix_at(s: Seq<u8>, i: int, hi: int) -> Option<(int, int)>
    decreases hi - i,
    via long_prefix_at_decreases
{
    let lo = match last_dash_before(s, i, hi) {
        Some(d) => d + 1,
        None => i,
    };
    if lo < hi && s[lo] == 103 && all_hex_range(s, lo + 1, hi) {
        Some((lo, hi))
    } else if lo == i {
        None
    } else {
        long_prefix_at(s, i, lo - 1)
    }
}

#[via_fn]
proof fn long_prefix_at_decreases(s: Seq<u8>, i: int, hi: int) {
    lemma_last_dash_bounds(s, i, hi);
}

/// The hex run embedded in `s[i..j)` read as long version-describe output
/// `<tag>-<n>-g<hex>`: the run right after the last `-g` token, provided at
/// least one more non-empty `-`-delimited token stands before it.
pub open spec fn long_prefix(s: Seq<u8>, i: int, j: int) -> Option<(int, int)> {
    match long_prefix_at(s, i, j) {
        Some((lo, hi)) => if exists|k: int| i <= k < lo - 1 && s[k] != 45 {
            Some((lo + 1, hi))
        } else {
            None
        },
        None => None,
    }
}

/// The hex run embedded in `s[i..j)` read as short version-describe output
/// `<hex>-<suffix>`: the leading run, provided exactly one `-` occurs.
pub open spec fn short_prefix(s: Seq<u8>, i: int, j: int) -> Option<(int, int)> {
    match first_dash_from(s, i, j) {
        Some(d) => if first_dash_from(s, d + 1, j) is None && all_hex_range(s, i, d) {
            Some((i, d))
        } else {
            None
        },
        None => None,
    }
}

/// The hex run embedded in `s[i..j)` read as version-describe output, long
/// form first.
pub open spec fn describe_prefix(s: Seq<u8>, i: int, j: int) -> Option<(int, int)> {
    match long_prefix(s, i, j) {
        Some(r) => Some(r),
        None => short_prefix(s, i, j),
    }
}

/// What [`crate::prefix::Prefix::from_hex`] makes of the digit run `s`: the
/// buffer and digit count on success, nothing on failure.
pub open spec fn from_hex_model(s: Seq<u8>) -> Option<(Seq<u8>, int)> {
    if 4 <= s.len() <= 40 && crate::prefix::all_hex_digits(s) {
        Some((crate::prefix::from_hex_bytes(s), s.len() as int))
    } else {
        None
    }
}

/// Position of the first `}` at or after `i`.
pub open spec fn rbrace_pos_from(s: Seq<u8>, i: int) -> Option<int>
    decreases s.len() - i,
{
    if i < 0 || i >= s.len() {
        None
    } else if s[i] == 125 {
        Some(i)
    } else {
        rbrace_pos_from(s, i + 1)
    }
}

/// True when every byte of `s[i..j)` is a decimal digit.
pub open spec fn all_digits(s: Seq<u8>, i: int, j: int) -> bool {
    forall|k: int| i <= k < j ==> 48 <= #[trigger] s[k] <= 57
}

/// The decimal value of the digit run `s[i..j)`.
pub open spec fn digits_value(s: Seq<u8>, i: int, j: int) -> int
    decreases j - i,
{
    if j <= i {
        0
    } else {
        digits_value(s, i, j - 1) * 10 + (s[j - 1] - 48)
    }
}

/// What reading brace content as a signed number yields: a sign and a
/// magnitude, or nothing. The accepted shape is an optional `+` or `-`
/// followed by at least one decimal digit, with the value within the signed
/// 64-bit range.
pub enum NumParse {
    /// No number of the accepted shape.
    NotNum,
    /// A number with this sign and magnitude.
    Parsed { neg: bool, mag: int },
}

/// Read `s` as a signed number. The magnitude bound is the machine's signed
/// range: its maximum for a plain or `+`-signed number, one more for a
/// `-`-signed one.
pub open spec fn parse_num(s: Seq<u8>) -> NumParse {
    let neg = s.len() > 0 && s[0] == 45;
    let start: int = if s.len() > 0 && (s[0] == 45 || s[0] == 43) {
        1
    } else {
        0
    };
    if start < s.len() && all_digits(s, start, s.len() as int) && digits_value(
        s,
        start,
        s.len() as int,
    ) <= usize::MAX as int / 2 + if neg {
        1int
    } else {
        0int
    } {
        NumParse::Parsed { neg, mag: digits_value(s, start, s.len() as int) }
    } else {
        NumParse::NotNum
    }
}

/// A digit run's value is not negative.
pub proof fn lemma_digits_nonneg(s: Seq<u8>, i: int, j: int)
    requires
        all_digits(s, i, j),
    ensures
        digits_value(s, i, j) >= 0,
    decreases j - i,
{
    if j > i {
        lemma_digits_nonneg(s, i, j - 1);
    }
}

/// Extending a digit run to the right never shrinks its value.
pub proof fn lemma_digits_monotone(s: Seq<u8>, i: int, k: int, j: int)
    requires
        i <= k <= j,
        all_digits(s, i, j),
    ensures
        digits_value(s, i, j) >= digits_value(s, i, k),
    decreases j - k,
{
    if j > k {
        lemma_digits_monotone(s, i, k, j - 1);
        lemma_digits_nonneg(s, i, j - 1);
    }
}

/// Read `s` as a signed number, as [`parse_num`] describes.
fn parse_num_exec(s: &[u8]) -> (r: NumExec)
    ensures
        ({
            let m = parse_num(s@);
            match r {
                NumExec::NotNum => m is NotNum,
                NumExec::Parsed { neg, mag } => m == (NumParse::Parsed { neg, mag: mag as int }),
            }
        }),
{
    let n = s.len();
    let neg = n > 0 && s[0] == 45;
    let start: usize = if n > 0 && (s[0] == 45 || s[0] == 43) {
        1
    } else {
        0
    };
    if start >= n {
        return NumExec::NotNum;
    }
    let lim: usize = if neg {
        usize::MAX / 2 + 1
    } else {
        usize::MAX / 2
    };
    let mut acc: usize = 0;
    let mut k = start;
    while k < n
        invariant
            start <= k <= n == s@.len(),
            start < n,
            neg == (s@.len() > 0 && s@[0] == 45),
            start == if s@.len() > 0 && (s@[0] == 45 || s@[0] == 43) {
                1int
            } else {
                0int
            },
            lim == usize::MAX as int / 2 + if neg {
                1int
            } else {
                0int
            },
            all_digits(s@, start as int, k as int),
            acc == digits_value(s@, start as int, k as int),
            acc <= lim,
        decreases n - k,
    {
        let b = s[k];
        if !(48 <= b && b <= 57) {
            proof {
                assert(!all_digits(s@, start as int, n as int)) by {
                    assert(!(48 <= s@[k as int] <= 57));
                }
            }
            return NumExec::NotNum;
        }
        let d = (b - 48) as usize;
        if acc > (lim - d) / 10 {
            proof {
                assert(10 * ((lim - d) as int / 10) > (lim - d) - 10) by (nonlinear_arith);
                assert(10 * acc + d > lim);
                assert(digits_value(s@, start as int, k as int + 1) == digits_value(
                    s@,
                    start as int,
                    k as int,
                ) * 10 + (s@[k as int] - 48));
                assert(digits_value(s@, start as int, k as int + 1) == 10 * acc + d);
                if all_digits(s@, start as int, n as int) {
                    lemma_digits_monotone(s@, start as int, k as int + 1, n as int);
                    assert(digits_value(s@, start as int, n as int) > lim);
                }
            }
            return NumExec::NotNum;
        }
        proof {
            assert(10 * ((lim - d) as int / 10) <= (lim - d));
            assert(10 * acc + d <= lim);
        }
        acc = acc * 10 + d;
        k = k + 1;
    }
    NumExec::Parsed { neg, mag: acc }
}

/// The reference name the bare-`@` shortcut resolves.
pub open spec fn head_name() -> Seq<u8> {
    seq![72u8, 69u8, 65u8, 68u8]
}

/// What resolving one anchor emits: the calls made, whether the anchor stands,
/// and whether it came from a named reference.
pub struct AnchorOut {
    /// The calls made, vetoed ones included.
    pub events: Seq<Event>,
    /// Whether the anchor stands; when false the scan fails with a delegate
    /// error.
    pub ok: bool,
    /// Whether the anchor came from `find_ref` on the name itself.
    pub has_ref: bool,
}

/// The third anchor step: an empty name is a no-op anchor, any other is
/// resolved by `find_ref`.
pub open spec fn anchor_name(name: Seq<u8>, log: Seq<Event>, p: Policy, acc: Seq<Event>) -> AnchorOut {
    if name.len() == 0 {
        AnchorOut { events: acc, ok: true, has_ref: false }
    } else {
        let e = Event::FindRef { name };
        AnchorOut { events: acc.push(e), ok: p(log, e), has_ref: p(log, e) }
    }
}

/// The second anchor step: a hex run extracted from the name as
/// version-describe output is offered for disambiguation; on veto or absence
/// the name itself decides.
pub open spec fn anchor_describe(name: Seq<u8>, log: Seq<Event>, p: Policy, acc: Seq<Event>) -> AnchorOut {
    let attempt = match describe_prefix(name, 0, name.len() as int) {
        Some((lo, hi)) => match from_hex_model(name.subrange(lo, hi)) {
            Some((bytes, hex_len)) => Some(Event::DisambiguatePrefix { bytes, hex_len }),
            None => None,
        },
        None => None,
    };
    match attempt {
        Some(e) => if p(log, e) {
            AnchorOut { events: acc.push(e), ok: true, has_ref: false }
        } else {
            anchor_name(name, log.push(e), p, acc.push(e))
        },
        None => anchor_name(name, log, p, acc),
    }
}

/// Resolving the anchor for `name`: a name whose hex count
/// reaches the minimum is offered for disambiguation whole, then as
/// version-describe output, then resolved as a reference name; an empty name
/// is a no-op.
pub open spec fn anchor_cascade(name: Seq<u8>, log: Seq<Event>, p: Policy) -> AnchorOut {
    let attempt = if all_name_hex(name, 0, name.len() as int) && count_non_dot(
        name,
        0,
        name.len() as int,
    ) >= 4 {
        match from_hex_model(name) {
            Some((bytes, hex_len)) => Some(Event::DisambiguatePrefix { bytes, hex_len }),
            None => None,
        }
    } else {
        None
    };
    match attempt {
        Some(e) => if p(log, e) {
            AnchorOut { events: seq![e], ok: true, has_ref: false }
        } else {
            anchor_describe(name, log.push(e), p, seq![e])
        },
        None => anchor_describe(name, log, p, seq![]),
    }
}

/// What scanning one revision emits: the calls made, the failure if any, and
/// where the cursor stands afterwards.
pub struct RevOut {
    /// The calls made, vetoed ones included.
    pub events: Seq<Event>,
    /// The failure the scan ends in, if any.
    pub err: Option<ErrV>,
    /// The cursor position after the revision; meaningless on failure.
    pub rest: int,
}

/// The navigation following the name `s[i..j)` with separator `sp`, after an
/// anchor that `has_ref` says came from a named reference. `log` already
/// holds the anchor's calls; `acc` accumulates the revision's events.
pub open spec fn scan_nav(
    s: Seq<u8>,
    i: int,
    j: int,
    sp: Option<int>,
    has_ref: bool,
    log: Seq<Event>,
    p: Policy,
    acc: Seq<Event>,
) -> RevOut {
    match sp {
        None => RevOut { events: acc, err: None, rest: s.len() as int },
        Some(pos) => {
            let c = s[pos];
            if c == 46 {
                RevOut { events: acc, err: None, rest: pos }
            } else if c == 64 {
                scan_at_nav(s, i, j, pos, has_ref, log, p, acc)
            } else {
                RevOut {
                    events: acc,
                    err: Some(
                        ErrV::UnsupportedNavigation { input: s.subrange(pos, s.len() as int) },
                    ),
                    rest: s.len() as int,
                }
            }
        },
    }
}

/// The `@` navigation: absent braces are an error unless the name was empty;
/// otherwise the brace content must be a number, a negative one walking the
/// checkout history of an empty-name anchor, any other walking the reflog of
/// a named reference or of `HEAD`.
pub open spec fn scan_at_nav(
    s: Seq<u8>,
    i: int,
    j: int,
    pos: int,
    has_ref: bool,
    log: Seq<Event>,
    p: Policy,
    acc: Seq<Event>,
) -> RevOut {
    let ps = pos + 1;
    if !(ps < s.len() && s[ps] == 123) {
        if i == j {
            RevOut { events: acc, err: None, rest: ps }
        } else {
            RevOut {
                events: acc,
                err: Some(ErrV::AtNeedsCurlyBrackets { input: s.subrange(ps, s.len() as int) }),
                rest: s.len() as int,
            }
        }
    } else {
        match rbrace_pos_from(s, ps) {
            None => RevOut {
                events: acc,
                err: Some(ErrV::UnclosedBracePair { input: s.subrange(ps, s.len() as int) }),
                rest: s.len() as int,
            },
            Some(cb) => {
                let nav = s.subrange(ps + 1, cb);
                let rest = cb + 1;
                match parse_num(nav) {
                    NumParse::NotNum => RevOut {
                        events: acc,
                        err: Some(ErrV::UnsupportedNavigation { input: nav }),
                        rest: s.len() as int,
                    },
                    NumParse::Parsed { neg, mag } => {
                        if neg && mag == 0 {
                            RevOut {
                                events: acc,
                                err: Some(ErrV::NegativeZero { input: nav }),
                                rest: s.len() as int,
                            }
                        } else if neg {
                            if i == j {
                                let e = Event::CheckedOutBranch { branch_no: mag };
                                RevOut {
                                    events: acc.push(e),
                                    err: if p(log, e) {
                                        None
                                    } else {
                                        Some(ErrV::Delegate)
                                    },
                                    rest,
                                }
                            } else {
                                RevOut {
                                    events: acc,
                                    err: Some(ErrV::RefnameNeedsPositiveReflogEntries { nav }),
                                    rest: s.len() as int,
                                }
                            }
                        } else {
                            if has_ref || i == j {
                                let e = Event::Reflog { entry: mag };
                                RevOut {
                                    events: acc.push(e),
                                    err: if p(log, e) {
                                        None
                                    } else {
                                        Some(ErrV::Delegate)
                                    },
                                    rest,
                                }
                            } else {
                                RevOut {
                                    events: acc,
                                    err: Some(
                                        ErrV::ReflogEntryNeedsRefName { name: s.subrange(i, j) },
                                    ),
                                    rest: s.len() as int,
                                }
                            }
                        }
                    },
                }
            },
        }
    }
}

/// Scanning one revision from position `i`: the name runs to the first
/// separator, the anchor is resolved — a bare `@` not followed by `{` is a
/// shortcut for `HEAD` — and the separator's navigation follows.
pub open spec fn scan_revision(s: Seq<u8>, i: int, log: Seq<Event>, p: Policy) -> RevOut {
    let sp = sep_pos_from(s, i);
    let j = match sp {
        Some(x) => x,
        None => s.len() as int,
    };
    let shortcut = i == j && sp is Some && s[j] == 64 && !(j + 1 < s.len() && s[j + 1] == 123);
    let a = if shortcut {
        let e = Event::FindRef { name: head_name() };
        AnchorOut { events: seq![e], ok: p(log, e), has_ref: false }
    } else {
        anchor_cascade(s.subrange(i, j), log, p)
    };
    if !a.ok {
        RevOut { events: a.events, err: Some(ErrV::Delegate), rest: s.len() as int }
    } else {
        scan_nav(s, i, j, sp, a.has_ref, log + a.events, p, a.events)
    }
}

/// What a whole scan emits: the calls made and how it ended.
pub struct ScanOut {
    /// The calls made, vetoed ones included.
    pub events: Seq<Event>,
    /// `None` when the scan succeeded, else its failure.
    pub res: Option<ErrV>,
}

/// The range operator and second revision, after the first revision ended at
/// `t` with `kind_set` saying whether a leading `^` already set a kind.
pub open spec fn scan_range(
    s: Seq<u8>,
    t: int,
    kind_set: bool,
    log: Seq<Event>,
    p: Policy,
    acc: Seq<Event>,
) -> ScanOut {
    if t + 3 <= s.len() && s[t] == 46 && s[t + 1] == 46 && s[t + 2] == 46 {
        scan_second(s, t + 3, Kind::MergeBase, kind_set, log, p, acc)
    } else if t + 2 <= s.len() && s[t] == 46 && s[t + 1] == 46 {
        scan_second(s, t + 2, Kind::Range, kind_set, log, p, acc)
    } else if t == s.len() {
        ScanOut { events: acc, res: None }
    } else {
        ScanOut {
            events: acc,
            res: Some(ErrV::UnconsumedInput { input: s.subrange(t, s.len() as int) }),
        }
    }
}

/// Setting the range kind `k` and scanning the second revision from `i`.
pub open spec fn scan_second(
    s: Seq<u8>,
    i: int,
    k: Kind,
    kind_set: bool,
    log: Seq<Event>,
    p: Policy,
    acc: Seq<Event>,
) -> ScanOut {
    if kind_set {
        ScanOut { events: acc, res: Some(ErrV::KindSetTwice { prev_kind: Kind::Range, kind: k }) }
    } else {
        let e = Event::KindSet { kind: k };
        if !p(log, e) {
            ScanOut { events: acc.push(e), res: Some(ErrV::Delegate) }
        } else {
            let r2 = scan_revision(s, i, log.push(e), p);
            let acc2 = acc.push(e) + r2.events;
            match r2.err {
                Some(err) => ScanOut { events: acc2, res: Some(err) },
                None => if r2.rest == s.len() {
                    ScanOut { events: acc2, res: None }
                } else {
                    ScanOut {
                        events: acc2,
                        res: Some(
                            ErrV::UnconsumedInput { input: s.subrange(r2.rest, s.len() as int) },
                        ),
                    }
                },
            }
        }
    }
}

/// The whole scan of `s` against a delegate whose log starts at `log` and
/// whose veto behaviour is `p`: an optional leading `^` sets the `Range`
/// kind, a first revision follows, then an optional `...` or `..` operator
/// with a second revision, and nothing may remain.
pub open spec fn scan(s: Seq<u8>, log: Seq<Event>, p: Policy) -> ScanOut {
    if s.len() > 0 && s[0] == 94 {
        let e = Event::KindSet { kind: Kind::Range };
        if !p(log, e) {
            ScanOut { events: seq![e], res: Some(ErrV::Delegate) }
        } else {
            let r1 = scan_revision(s, 1, log.push(e), p);
            let acc1 = seq![e] + r1.events;
            match r1.err {
                Some(err) => ScanOut { events: acc1, res: Some(err) },
                None => scan_range(s, r1.rest, true, log.push(e) + r1.events, p, acc1),
            }
        }
    } else {
        let r1 = scan_revision(s, 0, log, p);
        match r1.err {
            Some(err) => ScanOut { events: r1.events, res: Some(err) },
            None => scan_range(s, r1.rest, false, log + r1.events, p, r1.events),
        }
    }
}

/// The failures a scan can end in, with the offending bytes copied out of the
/// input. Its view is the matching [`ErrV`].
#[derive(Debug)]
pub enum Error {
    /// A reflog entry was asked of an anchor that is no reference name.
    ReflogEntryNeedsRefName { name: Vec<u8> },
    /// A negative reflog count followed a reference name.
    RefnameNeedsPositiveReflogEntries { nav: Vec<u8> },
    /// A literal negative zero stood between braces.
    NegativeZero { input: Vec<u8> },
    /// An opening brace was never matched.
    UnclosedBracePair { input: Vec<u8> },
    /// A kind was set twice.
    KindSetTwice { prev_kind: Kind, kind: Kind },
    /// `@` stood neither alone nor before `{...}`.
    AtNeedsCurlyBrackets { input: Vec<u8> },
    /// Bytes were left after the grammar was done.
    UnconsumedInput { input: Vec<u8> },
    /// The delegate did not indicate success; check the delegate for more
    /// information.
    Delegate,
    /// A navigation this scanner does not support: `~`, `^` or `:` suffixes,
    /// or brace content that is no number.
    UnsupportedNavigation { input: Vec<u8> },
}

impl View for Error {
    type V = ErrV;

    open spec fn view(&self) -> ErrV {
        match self {
            Error::ReflogEntryNeedsRefName { name } => ErrV::ReflogEntryNeedsRefName {
                name: name@,
            },
            Error::RefnameNeedsPositiveReflogEntries { nav } => {
                ErrV::RefnameNeedsPositiveReflogEntries { nav: nav@ }
            },
            Error::NegativeZero { input } => ErrV::NegativeZero { input: input@ },
            Error::UnclosedBracePair { input } => ErrV::UnclosedBracePair { input: input@ },
            Error::KindSetTwice { prev_kind, kind } => ErrV::KindSetTwice {
                prev_kind: *prev_kind,
                kind: *kind,
            },
            Error::AtNeedsCurlyBrackets { input } => ErrV::AtNeedsCurlyBrackets { input: input@ },
            Error::UnconsumedInput { input } => ErrV::UnconsumedInput { input: input@ },
            Error::Delegate => ErrV::Delegate,
            Error::UnsupportedNavigation { input } => ErrV::UnsupportedNavigation {
                input: input@,
            },
        }
    }
}

/// The executable twin of [`NumParse`].
enum NumExec {
    /// No number of the accepted shape.
    NotNum,
    /// A number with this sign and magnitude.
    Parsed { neg: bool, mag: usize },
}

/// Copy `s[lo..hi)` into an owned buffer.
pub(crate) fn subvec(s: &[u8], lo: usize, hi: usize) -> (r: Vec<u8>)
    requires
        lo <= hi <= s@.len(),
    ensures
        r@ == s@.subrange(lo as int, hi as int),
{
    vstd::slice::slice_to_vec(&s[lo..hi])
}

/// Decide whether a byte is one of the separators `@ ~ ^ : .`.
fn is_sep_byte(b: u8) -> (r: bool)
    ensures
        r == is_separator(b),
{
    b == 64 || b == 126 || b == 94 || b == 58 || b == 46
}

/// Find the first separator at or after `start`, skipping any `.` not
/// followed by another `.`.
pub(crate) fn find_sep(s: &[u8], start: usize) -> (r: Option<usize>)
    requires
        start <= s@.len(),
    ensures
        ({
            let sp = sep_pos_from(s@, start as int);
            match r {
                Some(x) => sp == Some(x as int) && start <= x < s@.len(),
                None => sp is None,
            }
        }),
{
    let mut k = start;
    while k < s.len()
        invariant
            start <= k <= s@.len(),
            sep_pos_from(s@, start as int) == sep_pos_from(s@, k as int),
        decreases s@.len() - k,
    {
        let b = s[k];
        if is_sep_byte(b) {
            if b != 46 {
                return Some(k);
            }
            if k + 1 < s.len() && s[k + 1] == 46 {
                return Some(k);
            }
        }
        k = k + 1;
    }
    None
}

/// Count the non-dot bytes of `s[i..j)` when all of them are hexadecimal
/// digits; say so when one is not.
fn hex_stats(s: &[u8], i: usize, j: usize) -> (r: Option<usize>)
    requires
        i <= j <= s@.len(),
    ensures
        match r {
            Some(n) => all_name_hex(s@, i as int, j as int) && n == count_non_dot(
                s@,
                i as int,
                j as int,
            ),
            None => !all_name_hex(s@, i as int, j as int),
        },
{
    let mut n: usize = 0;
    let mut k = i;
    while k < j
        invariant
            i <= k <= j <= s@.len(),
            all_name_hex(s@, i as int, k as int),
            n == count_non_dot(s@, i as int, k as int),
            n <= k - i,
        decreases j - k,
    {
        let b = s[k];
        if b != 46 {
            if crate::byte_is_hex_digit(b) {
                n = n + 1;
            } else {
                return None;
            }
        }
        k = k + 1;
    }
    Some(n)
}

/// Find the first `}` at or after `start`.
fn find_rbrace(s: &[u8], start: usize) -> (r: Option<usize>)
    requires
        start <= s@.len(),
    ensures
        ({
            let sp = rbrace_pos_from(s@, start as int);
            match r {
                Some(x) => sp == Some(x as int) && start <= x < s@.len() && s@[x as int] == 125,
                None => sp is None,
            }
        }),
{
    let mut k = start;
    while k < s.len()
        invariant
            start <= k <= s@.len(),
            rbrace_pos_from(s@, start as int) == rbrace_pos_from(s@, k as int),
        decreases s@.len() - k,
    {
        if s[k] == 125 {
            return Some(k);
        }
        k = k + 1;
    }
    None
}

/// Decide whether every byte of `s[i..j)` is a hexadecimal digit.
fn all_hex_exec(s: &[u8], i: usize, j: usize) -> (r: bool)
    requires
        i <= j <= s@.len(),
    ensures
        r == all_hex_range(s@, i as int, j as int),
{
    let mut k = i;
    while k < j
        invariant
            i <= k <= j <= s@.len(),
            all_hex_range(s@, i as int, k as int),
        decreases j - k,
    {
        if !crate::byte_is_hex_digit(s[k]) {
            return false;
        }
        k = k + 1;
    }
    true
}

/// Decide whether some byte of `s[i..j)` is not a dash.
fn has_non_dash(s: &[u8], i: usize, j: usize) -> (r: bool)
    requires
        i <= j <= s@.len(),
    ensures
        r == exists|k: int| i <= k < j && s@[k] != 45,
{
    let mut k = i;
    while k < j
        invariant
            i <= k <= j <= s@.len(),
            forall|m: int| i <= m < k ==> s@[m] == 45,
        decreases j - k,
    {
        if s[k] != 45 {
            return true;
        }
        k = k + 1;
    }
    false
}

/// Find the last `-` in `s[i..j)`.
fn find_last_dash(s: &[u8], i: usize, j: usize) -> (r: Option<usize>)
    requires
        i <= j <= s@.len(),
    ensures
        ({
            let sp = last_dash_before(s@, i as int, j as int);
            match r {
                Some(x) => sp == Some(x as int) && i <= x < j,
                None => sp is None,
            }
        }),
{
    let mut k = j;
    while k > i
        invariant
            i <= k <= j <= s@.len(),
            last_dash_before(s@, i as int, j as int) == last_dash_before(s@, i as int, k as int),
        decreases k,
    {
        if s[k - 1] == 45 {
            return Some(k - 1);
        }
        k = k - 1;
    }
    None
}

/// Find the rightmost `-`-delimited token of `s[i..hi)` of the form
/// `g<hex run>`.
fn long_prefix_at_exec(s: &[u8], i: usize, hi: usize) -> (r: Option<(usize, usize)>)
    requires
        i <= hi <= s@.len(),
    ensures
        ({
            let m = long_prefix_at(s@, i as int, hi as int);
            match r {
                Some((lo, h)) => m == Some((lo as int, h as int)) && i <= lo < h <= hi,
                None => m is None,
            }
        }),
    decreases hi - i,
{
    let ld = find_last_dash(s, i, hi);
    let lo = match ld {
        Some(d) => d + 1,
        None => i,
    };
    if lo < hi && s[lo] == 103 && all_hex_exec(s, lo + 1, hi) {
        Some((lo, hi))
    } else if lo == i {
        None
    } else {
        long_prefix_at_exec(s, i, lo - 1)
    }
}

/// The hex run embedded in the name `s[i..j)` read as version-describe
/// output, long form first.
fn describe_prefix_exec(s: &[u8], i: usize, j: usize) -> (r: Option<(usize, usize)>)
    requires
        i <= j <= s@.len(),
    ensures
        ({
            let m = describe_prefix(s@, i as int, j as int);
            match r {
                Some((lo, h)) => m == Some((lo as int, h as int)) && i <= lo <= h <= j,
                None => m is None,
            }
        }),
{
    match long_prefix_at_exec(s, i, j) {
        Some((lo, hi)) => {
            if lo > i && has_non_dash(s, i, lo - 1) {
                return Some((lo + 1, hi));
            }
            proof {
                assert(long_prefix(s@, i as int, j as int) is None);
            }
        },
        None => (),
    }
    let fd = match find_first_dash(s, i, j) {
        Some(d) => d,
        None => {
            return None;
        },
    };
    if find_first_dash(s, fd + 1, j).is_none() && all_hex_exec(s, i, fd) {
        Some((i, fd))
    } else {
        None
    }
}

/// Find the first `-` in `s[i..j)`.
fn find_first_dash(s: &[u8], i: usize, j: usize) -> (r: Option<usize>)
    requires
        i <= j <= s@.len(),
    ensures
        ({
            let sp = first_dash_from(s@, i as int, j as int);
            match r {
                Some(x) => sp == Some(x as int) && i <= x < j,
                None => sp is None,
            }
        }),
{
    let mut k = i;
    while k < j
        invariant
            i <= k <= j <= s@.len(),
            first_dash_from(s@, i as int, j as int) == first_dash_from(s@, k as int, j as int),
        decreases j - k,
    {
        if s[k] == 45 {
            return Some(k);
        }
        k = k + 1;
    }
    None
}

/// Offer `s[lo..hi)` to the delegate as an abbreviated hash: decode it as a
/// prefix and, when that works, ask the delegate to disambiguate it. A run
/// that is no valid prefix is not offered at all.
fn try_set_prefix<D: Delegate>(d: &mut D, s: &[u8], lo: usize, hi: usize) -> (r: Option<()>)
    requires
        lo <= hi <= s@.len(),
    ensures
        final(d).policy() == old(d).policy(),
        ({
            let sub = s@.subrange(lo as int, hi as int);
            match from_hex_model(sub) {
                Some((bytes, hex_len)) => {
                    let e = Event::DisambiguatePrefix { bytes, hex_len };
                    &&& final(d).log() == old(d).log().push(e)
                    &&& (r is Some <==> old(d).policy()(old(d).log(), e))
                },
                None => final(d).log() == old(d).log() && r is None,
            }
        }),
{
    match crate::prefix::Prefix::from_hex(&s[lo..hi]) {
        Ok(p) => d.disambiguate_prefix(p),
        Err(_) => {
            proof {
                crate::prefix::lemma_first_non_hex_from(s@.subrange(lo as int, hi as int), 0);
            }
            None
        },
    }
}

/// Scan one revision of `s` from `start`: collect the name up to the first
/// separator, resolve the anchor through the delegate, and apply the
/// separator's navigation. On success the returned cursor points at the
/// first unconsumed byte.
fn revision<D: Delegate>(s: &[u8], start: usize, d: &mut D) -> (r: Result<usize, Error>)
    requires
        start <= s@.len(),
    ensures
        final(d).policy() == old(d).policy(),
        ({
            let out = scan_revision(s@, start as int, old(d).log(), old(d).policy());
            &&& final(d).log() == old(d).log() + out.events
            &&& match r {
                Ok(rest) => out.err is None && rest == out.rest && start <= rest <= s@.len(),
                Err(e) => out.err == Some(e@),
            }
        }),
{
    let ghost log0 = d.log();
    let ghost pol = d.policy();

    let sp = find_sep(s, start);
    let j = match sp {
        Some(x) => x,
        None => s.len(),
    };
    let ghost spv = sep_pos_from(s@, start as int);
    let ghost jv: int = match spv {
        Some(x) => x,
        None => s@.len() as int,
    };
    proof {
        assert(j == jv);
    }

    let shortcut = match sp {
        Some(pos) => start == pos && s[pos] == 64 && !(pos + 1 < s.len() && s[pos + 1] == 123),
        None => false,
    };
    let ghost shortcut_spec = start == jv && spv is Some && s@[jv] == 64 && !(jv + 1 < s@.len()
        && s@[jv + 1] == 123);
    proof {
        assert(shortcut == shortcut_spec);
    }

    let ghost name = s@.subrange(start as int, jv);
    let ghost a = if shortcut_spec {
        let e = Event::FindRef { name: head_name() };
        AnchorOut { events: seq![e], ok: pol(log0, e), has_ref: false }
    } else {
        anchor_cascade(name, log0, pol)
    };
    proof {
        assert(scan_revision(s@, start as int, log0, pol) == if !a.ok {
            RevOut { events: a.events, err: Some(ErrV::Delegate), rest: s@.len() as int }
        } else {
            scan_nav(s@, start as int, jv, spv, a.has_ref, log0 + a.events, pol, a.events)
        });
    }

    let mut has_ref = false;
    if shortcut {
        let head: Vec<u8> = vec![72u8, 69u8, 65u8, 68u8];
        proof {
            assert(head@ =~= head_name());
        }
        let ok = d.find_ref(head.as_slice());
        proof {
            assert(d.log() =~= log0 + a.events);
        }
        if ok.is_none() {
            return Err(Error::Delegate);
        }
    } else {
        let name_sl = &s[start..j];
        proof {
            assert(name_sl@ == name);
            assert(name.subrange(0, name.len() as int) =~= name);
        }
        let mut anchored = false;
        let ghost step1_attempt = if all_name_hex(name, 0, name.len() as int) && count_non_dot(
            name,
            0,
            name.len() as int,
        ) >= 4 {
            match from_hex_model(name) {
                Some((bytes, hex_len)) => Some(Event::DisambiguatePrefix { bytes, hex_len }),
                None => None,
            }
        } else {
            None
        };
        let stats = hex_stats(name_sl, 0, name_sl.len());
        match stats {
            Some(n) if n >= 4 => {
                match try_set_prefix(d, name_sl, 0, name_sl.len()) {
                    Some(_) => {
                        anchored = true;
                    },
                    None => (),
                }
            },
            _ => (),
        }
        proof {
            if anchored {
                assert(a == AnchorOut {
                    events: seq![step1_attempt->Some_0],
                    ok: true,
                    has_ref: false,
                });
                assert(d.log() =~= log0 + a.events);
            }
        }
        let ghost acc: Seq<Event> = if step1_attempt is Some {
            seq![step1_attempt->Some_0]
        } else {
            seq![]
        };
        let ghost log1 = if step1_attempt is Some {
            log0.push(step1_attempt->Some_0)
        } else {
            log0
        };
        if !anchored {
            proof {
                assert(d.log() =~= log1);
                assert(log1 =~= log0 + acc);
                assert(a == anchor_describe(name, log1, pol, acc));
            }
            // version-describe extraction
            let ghost step2_attempt = match describe_prefix(name, 0, name.len() as int) {
                Some((lo, hi)) => match from_hex_model(name.subrange(lo, hi)) {
                    Some((bytes, hex_len)) => Some(Event::DisambiguatePrefix { bytes, hex_len }),
                    None => None,
                },
                None => None,
            };
            match describe_prefix_exec(name_sl, 0, name_sl.len()) {
                Some((lo, hi)) => {
                    match try_set_prefix(d, name_sl, lo, hi) {
                        Some(_) => {
                            anchored = true;
                        },
                        None => (),
                    }
                },
                None => (),
            }
            let ghost acc2 = if step2_attempt is Some {
                acc.push(step2_attempt->Some_0)
            } else {
                acc
            };
            let ghost log2 = if step2_attempt is Some {
                log1.push(step2_attempt->Some_0)
            } else {
                log1
            };
            proof {
                assert(d.log() =~= log2);
                assert(log2 =~= log0 + acc2);
            }
            if anchored {
                proof {
                    assert(a == AnchorOut { events: acc2, ok: true, has_ref: false });
                }
            } else {
                proof {
                    assert(a == anchor_name(name, log2, pol, acc2));
                }
                if start == j {
                    proof {
                        assert(a == AnchorOut { events: acc2, ok: true, has_ref: false });
                    }
                } else {
                    let ghost e3 = Event::FindRef { name };
                    let ok = d.find_ref(name_sl);
                    proof {
                        assert(a.events =~= acc2.push(e3));
                        assert(d.log() =~= log0 + a.events);
                    }
                    if ok.is_some() {
                        has_ref = true;
                    } else {
                        return Err(Error::Delegate);
                    }
                }
            }
        }
        proof {
            assert(a.ok);
            assert(d.log() =~= log0 + a.events);
            assert(has_ref == a.has_ref);
        }
    }

    // navigation
    proof {
        assert(d.log() == log0 + a.events);
        assert(a.ok);
        assert(scan_revision(s@, start as int, log0, pol) == scan_nav(
            s@,
            start as int,
            jv,
            spv,
            a.has_ref,
            log0 + a.events,
            pol,
            a.events,
        ));
    }
    let ghost logn = log0 + a.events;
    match sp {
        None => Ok(s.len()),
        Some(pos) => {
            let c = s[pos];
            if c == 46 {
                Ok(pos)
            } else if c == 64 {
                let ps = pos + 1;
                if !(ps < s.len() && s[ps] == 123) {
                    if start == j {
                        Ok(ps)
                    } else {
                        Err(Error::AtNeedsCurlyBrackets { input: subvec(s, ps, s.len()) })
                    }
                } else {
                    match find_rbrace(s, ps) {
                        None => Err(Error::UnclosedBracePair { input: subvec(s, ps, s.len()) }),
                        Some(cb) => {
                            let nav = subvec(s, ps + 1, cb);
                            match parse_num_exec(nav.as_slice()) {
                                NumExec::NotNum => Err(
                                    Error::UnsupportedNavigation { input: nav },
                                ),
                                NumExec::Parsed { neg, mag } => {
                                    if neg && mag == 0 {
                                        Err(Error::NegativeZero { input: nav })
                                    } else if neg {
                                        if start == j {
                                            let ok = d.nth_checked_out_branch(mag);
                                            proof {
                                                assert(d.log() =~= log0 + a.events.push(
                                                    Event::CheckedOutBranch {
                                                        branch_no: mag as int,
                                                    },
                                                ));
                                            }
                                            if ok.is_some() {
                                                Ok(cb + 1)
                                            } else {
                                                Err(Error::Delegate)
                                            }
                                        } else {
                                            Err(
                                                Error::RefnameNeedsPositiveReflogEntries {
                                                    nav,
                                                },
                                            )
                                        }
                                    } else {
                                        if has_ref || start == j {
                                            let ok = d.reflog(mag);
                                            proof {
                                                assert(d.log() =~= log0 + a.events.push(
                                                    Event::Reflog { entry: mag as int },
                                                ));
                                            }
                                            if ok.is_some() {
                                                Ok(cb + 1)
                                            } else {
                                                Err(Error::Delegate)
                                            }
                                        } else {
                                            Err(
                                                Error::ReflogEntryNeedsRefName {
                                                    name: subvec(s, start, j),
                                                },
                                            )
                                        }
                                    }
                                },
                            }
                        },
                    }
                }
            } else {
                Err(Error::UnsupportedNavigation { input: subvec(s, pos, s.len()) })
            }
        },
    }
}

/// Parse a revision specification, driving the `delegate` as the grammar
/// unfolds: an optional leading `^` sets the `Range` kind, one revision
/// follows, then an optional `...` or `..` operator with a second revision,
/// and nothing may remain.
///
/// The delegate receives every call the scan makes, as [`scan`] lays down;
/// on success its log has grown by exactly those events, and the result is
/// the outcome [`scan`] names for this input, this delegate's prior log and
/// its policy.
#[verifier::rlimit(100)]
pub fn parse<D: Delegate>(input: &[u8], delegate: &mut D) -> (r: Result<(), Error>)
    ensures
        final(delegate).policy() == old(delegate).policy(),
        ({
            let out = scan(input@, old(delegate).log(), old(delegate).policy());
            &&& final(delegate).log() == old(delegate).log() + out.events
            &&& match r {
                Ok(_) => out.res is None,
                Err(e) => out.res == Some(e@),
            }
        }),
{
    let ghost log0 = delegate.log();
    let ghost pol = delegate.policy();

    let caret = input.len() > 0 && input[0] == 94;
    let mut start: usize = 0;
    if caret {
        let ghost e = Event::KindSet { kind: Kind::Range };
        let ok = delegate.kind(Kind::Range);
        proof {
            assert(delegate.log() =~= log0 + seq![e]);
        }
        if ok.is_none() {
            return Err(Error::Delegate);
        }
        start = 1;
    }
    let ghost acck: Seq<Event> = if caret {
        seq![Event::KindSet { kind: Kind::Range }]
    } else {
        seq![]
    };
    let ghost logk = delegate.log();
    proof {
        assert(logk =~= log0 + acck);
    }

    let ghost r1 = scan_revision(input@, start as int, logk, pol);
    let rest = match revision(input, start, delegate) {
        Ok(t) => t,
        Err(e) => {
            proof {
                assert(delegate.log() =~= log0 + (acck + r1.events));
                assert(scan(input@, log0, pol) == ScanOut {
                    events: acck + r1.events,
                    res: Some(e@),
                });
            }
            return Err(e);
        },
    };
    let ghost acc1 = acck + r1.events;
    let ghost log1 = logk + r1.events;
    proof {
        assert(delegate.log() =~= log0 + acc1);
        assert(log1 =~= log0 + acc1);
        assert(scan(input@, log0, pol) == scan_range(
            input@,
            r1.rest,
            caret,
            log1,
            pol,
            acc1,
        ));
    }

    let remaining = input.len() - rest;
    let (op, next): (Kind, usize) = if remaining >= 3 && input[rest] == 46 && input[rest + 1] == 46
        && input[rest + 2] == 46 {
        (Kind::MergeBase, rest + 3)
    } else if remaining >= 2 && input[rest] == 46 && input[rest + 1] == 46 {
        (Kind::Range, rest + 2)
    } else {
        if rest == input.len() {
            return Ok(());
        } else {
            return Err(Error::UnconsumedInput { input: subvec(input, rest, input.len()) });
        }
    };

    proof {
        assert(scan(input@, log0, pol) == scan_second(
            input@,
            next as int,
            op,
            caret,
            log1,
            pol,
            acc1,
        ));
    }
    if caret {
        return Err(Error::KindSetTwice { prev_kind: Kind::Range, kind: op });
    }
    let ghost e2 = Event::KindSet { kind: op };
    let ok = delegate.kind(op);
    proof {
        assert(delegate.log() =~= log0 + acc1.push(e2));
    }
    if ok.is_none() {
        return Err(Error::Delegate);
    }
    let ghost log2 = log1.push(e2);
    let ghost r2 = scan_revision(input@, next as int, log2, pol);
    let rest2 = match revision(input, next, delegate) {
        Ok(t) => t,
        Err(e) => {
            proof {
                assert(delegate.log() =~= log0 + (acc1.push(e2) + r2.events));
            }
            return Err(e);
        },
    };
    proof {
        assert(delegate.log() =~= log0 + (acc1.push(e2) + r2.events));
    }
    if rest2 == input.len() {
        Ok(())
    } else {
        Err(Error::UnconsumedInput { input: subvec(input, rest2, input.len()) })
    }
}

/// A delegate to be informed about scan events, with methods split into three
/// categories: anchors (which revision to start from), navigation (where to
/// go from there), and kind (how several revisions combine).
pub trait Delegate: delegate::Anchor + delegate::Navigation + delegate::Kind {
}

impl<T> Delegate for T where T: delegate::Anchor + delegate::Navigation + delegate::Kind {

}

/// The policy of a delegate that acknowledges every call.
pub open spec fn accept_all_policy() -> Policy {
    |log: Seq<Event>, e: Event| true
}

/// The policy of a delegate that vetoes every attempt to set a kind and
/// acknowledges everything else.
pub open spec fn reject_kind_policy() -> Policy {
    |log: Seq<Event>, e: Event| !(e is KindSet)
}

/// The policy of a delegate that vetoes every prefix disambiguation and
/// acknowledges everything else: the scanner then falls through to the next
/// anchor step.
pub open spec fn reject_prefix_policy() -> Policy {
    |log: Seq<Event>, e: Event| !(e is DisambiguatePrefix)
}

/// A ready-made delegate that records every call it receives: reference
/// names, prefixes, navigation entries and the kind, plus a total call count.
/// It acknowledges every call, unless it was built to veto kinds.
pub struct Recorder {
    /// The ghost call log.
    pub log: Ghost<Seq<Event>>,
    /// The names handed to `find_ref`, in order.
    pub finds: Vec<Vec<u8>>,
    /// The prefixes handed to `disambiguate_prefix`, in order.
    pub prefixes: Vec<crate::prefix::Prefix>,
    /// The entries handed to `reflog`, in order.
    pub reflogs: Vec<usize>,
    /// The checkouts handed to `nth_checked_out_branch`, in order.
    pub branches: Vec<usize>,
    /// The kind most recently acknowledged, if any.
    pub kind: Option<Kind>,
    /// How many calls were received, saturating at the machine limit.
    pub calls: usize,
    /// Whether every attempt to set a kind is vetoed.
    pub reject_kind: bool,
    /// Whether every prefix disambiguation is vetoed.
    pub reject_prefixes: bool,
}

impl Recorder {
    /// A recorder that acknowledges every call.
    pub fn new() -> (r: Recorder)
        ensures
            r.log@ == Seq::<Event>::empty(),
            r.policy() == accept_all_policy(),
            r.finds@.len() == 0,
            r.prefixes@.len() == 0,
            r.reflogs@.len() == 0,
            r.branches@.len() == 0,
            r.kind is None,
            r.calls == 0,
            !r.reject_kind,
    {
        Recorder {
            log: Ghost(Seq::empty()),
            finds: Vec::new(),
            prefixes: Vec::new(),
            reflogs: Vec::new(),
            branches: Vec::new(),
            kind: None,
            calls: 0,
            reject_kind: false,
            reject_prefixes: false,
        }
    }

    /// A recorder that vetoes every attempt to set a kind.
    pub fn new_rejecting_kind() -> (r: Recorder)
        ensures
            r.log@ == Seq::<Event>::empty(),
            r.policy() == reject_kind_policy(),
            r.kind is None,
            r.calls == 0,
            r.reject_kind,
    {
        Recorder {
            log: Ghost(Seq::empty()),
            finds: Vec::new(),
            prefixes: Vec::new(),
            reflogs: Vec::new(),
            branches: Vec::new(),
            kind: None,
            calls: 0,
            reject_kind: true,
            reject_prefixes: false,
        }
    }

    /// A recorder that vetoes every prefix disambiguation, so the scanner
    /// falls through to resolving names.
    pub fn new_rejecting_prefixes() -> (r: Recorder)
        ensures
            r.log@ == Seq::<Event>::empty(),
            r.policy() == reject_prefix_policy(),
            r.kind is None,
            r.calls == 0,
            r.reject_prefixes,
    {
        Recorder {
            log: Ghost(Seq::empty()),
            finds: Vec::new(),
            prefixes: Vec::new(),
            reflogs: Vec::new(),
            branches: Vec::new(),
            kind: None,
            calls: 0,
            reject_kind: false,
            reject_prefixes: true,
        }
    }

    fn count_call(&mut self)
        ensures
            final(self).log == old(self).log,
            final(self).finds == old(self).finds,
            final(self).prefixes == old(self).prefixes,
            final(self).reflogs == old(self).reflogs,
            final(self).branches == old(self).branches,
            final(self).kind == old(self).kind,
            final(self).reject_kind == old(self).reject_kind,
            final(self).reject_prefixes == old(self).reject_prefixes,
    {
        if self.calls < usize::MAX {
            self.calls = self.calls + 1;
        }
    }
}

impl delegate::Record for Recorder {
    open spec fn log(&self) -> Seq<Event> {
        self.log@
    }

    open spec fn policy(&self) -> Policy {
        if self.reject_kind {
            reject_kind_policy()
        } else if self.reject_prefixes {
            reject_prefix_policy()
        } else {
            accept_all_policy()
        }
    }
}

impl delegate::Anchor for Recorder {
    fn find_ref(&mut self, name: &[u8]) -> (r: Option<()>) {
        proof {
            self.log@ = self.log@.push(Event::FindRef { name: name@ });
        }
        self.finds.push(vstd::slice::slice_to_vec(name));
        self.count_call();
        Some(())
    }

    fn disambiguate_prefix(&mut self, prefix: crate::prefix::Prefix) -> (r: Option<()>) {
        proof {
            self.log@ = self.log@.push(
                Event::DisambiguatePrefix {
                    bytes: prefix.spec_bytes(),
                    hex_len: prefix.spec_hex_len(),
                },
            );
        }
        self.prefixes.push(prefix);
        self.count_call();
        if !self.reject_kind && self.reject_prefixes {
            None
        } else {
            Some(())
        }
    }
}

impl delegate::Navigation for Recorder {
    fn reflog(&mut self, entry: usize) -> (r: Option<()>) {
        proof {
            self.log@ = self.log@.push(Event::Reflog { entry: entry as int });
        }
        self.reflogs.push(entry);
        self.count_call();
        Some(())
    }

    fn nth_checked_out_branch(&mut self, branch_no: usize) -> (r: Option<()>) {
        proof {
            self.log@ = self.log@.push(Event::CheckedOutBranch { branch_no: branch_no as int });
        }
        self.branches.push(branch_no);
        self.count_call();
        Some(())
    }
}

impl delegate::Kind for Recorder {
    fn kind(&mut self, kind: Kind) -> (r: Option<()>) {
        proof {
            self.log@ = self.log@.push(Event::KindSet { kind });
        }
        self.count_call();
        if self.reject_kind {
            None
        } else {
            self.kind = Some(kind);
            Some(())
        }
    }
}

} // verus!
