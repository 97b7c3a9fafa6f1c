//! The round-trip law: a specification the scanner accepts can be written
//! back, from the delegate's recorded calls alone, into an equivalent
//! specification that the scanner accepts again with the same calls.

use vstd::prelude::*;

use crate::revision::Kind;
use crate::revision::parse::{
    accept_all_policy, all_digits, all_name_hex, anchor_cascade, count_non_dot, describe_prefix,
    digits_value, Event, first_dash_from, from_hex_model, head_name, is_separator,
    last_dash_before, lemma_last_dash_bounds, long_prefix_at, parse_num, rbrace_pos_from, scan,
    scan_at_nav, scan_nav, scan_range, scan_revision, scan_second, sep_pos_from, AnchorOut,
    NumParse, Policy, RevOut,
};
use crate::prefix::{all_hex_digits, from_hex_bytes, hex_decoded, padded_hex};
use crate::values::{dec_rep, lower_hex_digit};
use crate::{hex_value, is_hex_digit};

verus! {

/// The `k`-th nibble of a byte buffer, high nibble first.
pub open spec fn nibble(bytes: Seq<u8>, k: int) -> int {
    if k % 2 == 0 {
        bytes[k / 2] as int / 16
    } else {
        bytes[k / 2] as int % 16
    }
}

/// The `hex_len` leading nibbles of a prefix buffer, written as lower-case
/// hexadecimal digits.
pub open spec fn to_hex_run(bytes: Seq<u8>, hex_len: int) -> Seq<u8> {
    Seq::new(hex_len as nat, |k: int| lower_hex_digit(nibble(bytes, k)))
}

/// The text a navigation call reads back as: `@{n}` for a reflog entry,
/// `@{-n}` for a checkout step.
pub open spec fn unparse_nav(e: Event) -> Seq<u8> {
    match e {
        Event::Reflog { entry } => seq![64u8, 123u8] + dec_rep(entry) + seq![125u8],
        Event::CheckedOutBranch { branch_no } => seq![64u8, 123u8, 45u8] + dec_rep(branch_no)
            + seq![125u8],
        _ => Seq::empty(),
    }
}

/// The text an anchor call reads back as: the name itself, or the prefix's
/// digits; a navigation call standing first belongs to an unnamed anchor.
pub open spec fn unparse_anchor(e: Event) -> Seq<u8> {
    match e {
        Event::FindRef { name } => name,
        Event::DisambiguatePrefix { bytes, hex_len } => to_hex_run(bytes, hex_len),
        _ => unparse_nav(e),
    }
}

/// The text one revision's calls read back as.
pub open spec fn unparse_rev(r: Seq<Event>) -> Seq<u8> {
    if r.len() == 0 {
        Seq::empty()
    } else if r.len() == 1 {
        unparse_anchor(r[0])
    } else {
        unparse_anchor(r[0]) + unparse_nav(r[1])
    }
}

/// The position of the first kind call at or after `i`, or the end.
pub open spec fn first_kind_from(e: Seq<Event>, i: int) -> int
    decreases e.len() - i,
{
    if i < 0 || i >= e.len() {
        e.len() as int
    } else if e[i] is KindSet {
        i
    } else {
        first_kind_from(e, i + 1)
    }
}

/// The text a whole scan's calls read back as: a leading kind call becomes a
/// `^` or a bare operator, any later one the operator between its two
/// revisions.
pub open spec fn unparse(e: Seq<Event>) -> Seq<u8> {
    if e.len() > 0 && e[0] is KindSet {
        let tail = unparse_rev(e.skip(1));
        if e[0]->KindSet_kind == Kind::MergeBase {
            seq![46u8, 46u8, 46u8] + tail
        } else {
            seq![94u8] + tail
        }
    } else {
        let i = first_kind_from(e, 0);
        if i == e.len() {
            unparse_rev(e)
        } else {
            unparse_rev(e.take(i)) + (if e[i]->KindSet_kind == Kind::MergeBase {
                seq![46u8, 46u8, 46u8]
            } else {
                seq![46u8, 46u8]
            }) + unparse_rev(e.skip(i + 1))
        }
    }
}

/// `first_kind_from` lands on the first kind call.
proof fn lemma_first_kind_at(e: Seq<Event>, i: int, k: int)
    requires
        0 <= i <= k <= e.len(),
        forall|m: int| i <= m < k ==> !(e[m] is KindSet),
        k < e.len() ==> e[k] is KindSet,
    ensures
        first_kind_from(e, i) == k,
    decreases k - i,
{
    if i < k {
        lemma_first_kind_at(e, i + 1, k);
    }
}

/// A digit run's value is unchanged under an index shift.
proof fn lemma_digits_shift(s: Seq<u8>, t: Seq<u8>, off: int, i: int, j: int)
    requires
        forall|k: int| i <= k < j ==> s[k] == t[k - off],
    ensures
        digits_value(s, i, j) == digits_value(t, i - off, j - off),
    decreases j - i,
{
    if i < j {
        lemma_digits_shift(s, t, off, i, j - 1);
        assert(s[j - 1] == t[j - 1 - off]);
        assert(digits_value(s, i, j) == digits_value(s, i, j - 1) * 10 + (s[j - 1] - 48));
        assert(digits_value(t, i - off, j - off) == digits_value(t, i - off, j - off - 1) * 10 + (
        t[j - 1 - off] - 48));
    } else {
        assert(digits_value(s, i, j) == 0);
        assert(digits_value(t, i - off, j - off) == 0);
    }
}

/// The decimal digits of a value are digits, start with no sign, and read
/// back as the value itself.
proof fn lemma_dec_rep(m: int)
    requires
        m >= 0,
    ensures
        dec_rep(m).len() >= 1,
        forall|k: int| 0 <= k < dec_rep(m).len() ==> 48 <= #[trigger] dec_rep(m)[k] <= 57,
        digits_value(dec_rep(m), 0, dec_rep(m).len() as int) == m,
    decreases m,
{
    if m < 10 {
        assert(dec_rep(m) =~= seq![(48 + m) as u8]);
        assert(digits_value(dec_rep(m), 0, 0) == 0);
        assert(digits_value(dec_rep(m), 0, 1) == dec_rep(m)[0] - 48);
    } else {
        lemma_dec_rep(m / 10);
        let r = dec_rep(m / 10);
        let d = (48 + m % 10) as u8;
        assert(dec_rep(m) =~= r.push(d));
        let n = r.len() as int;
        assert(forall|k: int| 0 <= k < n ==> r.push(d)[k] == r[k]);
        lemma_digits_shift(r.push(d), r, 0, 0, n);
        assert(digits_value(r.push(d), 0, n + 1) == digits_value(r.push(d), 0, n) * 10 + (r.push(
            d,
        )[n] - 48));
        assert(digits_value(r.push(d), 0, n) == m / 10);
        assert(r.push(d)[n] == d);
    }
}

/// Reading the decimal digits of `m` back as a number yields `m` unsigned,
/// and `-m` with a `-` sign before them.
proof fn lemma_parse_num_dec(m: int, neg: bool)
    requires
        0 <= m,
        m <= usize::MAX as int / 2 + if neg {
            1int
        } else {
            0int
        },
    ensures
        !neg ==> parse_num(dec_rep(m)) == (NumParse::Parsed { neg: false, mag: m }),
        neg ==> parse_num(seq![45u8] + dec_rep(m)) == (NumParse::Parsed { neg: true, mag: m }),
{
    lemma_dec_rep(m);
    let r = dec_rep(m);
    if !neg {
        assert(48 <= r[0] <= 57);
        assert(r[0] != 45 && r[0] != 43);
        assert(all_digits(r, 0, r.len() as int));
        assert(parse_num(r) == (NumParse::Parsed { neg: false, mag: m }));
    } else {
        let s = seq![45u8] + r;
        assert(s[0] == 45);
        assert(s.len() == r.len() + 1);
        assert(forall|k: int| 1 <= k < s.len() ==> s[k] == r[k - 1]);
        assert(all_digits(s, 1, s.len() as int));
        lemma_digits_shift(s, r, 1, 1, s.len() as int);
        assert(digits_value(s, 1, s.len() as int) == m);
    }
}

/// A lower-case hexadecimal digit names its value.
proof fn lemma_lower_hex_digit(d: int)
    requires
        0 <= d < 16,
    ensures
        is_hex_digit(lower_hex_digit(d)),
        hex_value(lower_hex_digit(d)) == d,
        !is_separator(lower_hex_digit(d)),
        lower_hex_digit(d) != 45 && lower_hex_digit(d) != 123 && lower_hex_digit(d) != 125
            && lower_hex_digit(d) != 103,
{
}

/// The digits written for a prefix buffer decode to that buffer again: the
/// run is pure lower-case hexadecimal of the same length, and what it decodes
/// to is the buffer itself.
proof fn lemma_hex_roundtrip(r: Seq<u8>)
    requires
        4 <= r.len() <= 40,
        all_hex_digits(r),
    ensures
        ({
            let bytes = from_hex_bytes(r);
            let t = to_hex_run(bytes, r.len() as int);
            &&& t.len() == r.len()
            &&& all_hex_digits(t)
            &&& forall|k: int|
                0 <= k < t.len() ==> !is_separator(#[trigger] t[k]) && t[k] != 45 && t[k] != 103
                    && t[k] != 123 && t[k] != 125
            &&& from_hex_model(t) == Some((bytes, r.len() as int))
        }),
{
    let bytes = from_hex_bytes(r);
    let hl = r.len() as int;
    let t = to_hex_run(bytes, hl);
    let p = padded_hex(r);
    let d = hex_decoded(p);

    assert forall|k: int| 0 <= k < hl implies nibble(bytes, k) == hex_value(p[k]) && 0 <= nibble(
        bytes,
        k,
    ) < 16 by {
        let bi = k / 2;
        assert(0 <= bi < d.len());
        assert(bytes[bi] == d[bi]);
        let a = hex_value(p[2 * bi]) as int;
        let b = hex_value(p[2 * bi + 1]) as int;
        assert(is_hex_digit(p[2 * bi]) && is_hex_digit(p[2 * bi + 1])) by {
            if r.len() % 2 == 1 {
                assert(p[r.len() as int] == 48);
            }
        }
        assert(0 <= a < 16 && 0 <= b < 16);
        assert(d[bi] == (16 * a + b) as u8);
        assert((16 * a + b) / 16 == a && (16 * a + b) % 16 == b) by (nonlinear_arith)
            requires
                0 <= a < 16 && 0 <= b < 16,
        ;
        if k % 2 == 0 {
            assert(nibble(bytes, k) == a);
        } else {
            assert(nibble(bytes, k) == b);
        }
    }
    assert forall|k: int| 0 <= k < hl implies is_hex_digit(#[trigger] t[k]) && hex_value(t[k])
        == hex_value(p[k]) && !is_separator(t[k]) && t[k] != 45 && t[k] != 103 && t[k] != 123
        && t[k] != 125 by {
        lemma_lower_hex_digit(nibble(bytes, k));
    }
    assert(all_hex_digits(t));

    // decoding the run again gives the same buffer
    let pt = padded_hex(t);
    assert(pt.len() == p.len());
    assert forall|k: int| 0 <= k < pt.len() implies hex_value(pt[k]) == hex_value(p[k]) by {
        if k < hl {
            assert(pt[k] == t[k]);
        } else {
            assert(pt[k] == 48 && p[k] == 48);
        }
    }
    assert(hex_decoded(pt) =~= hex_decoded(p));
    assert(from_hex_bytes(t) =~= bytes);
}

/// Where no stopper stands in `[i, j)` and `j` is a stopper or the end, the
/// separator scan from `i` lands exactly on `j`.
proof fn lemma_sep_pos_at(s: Seq<u8>, i: int, j: int)
    requires
        0 <= i <= j <= s.len(),
        forall|k: int|
            i <= k < j ==> !(is_separator(#[trigger] s[k]) && (s[k] != 46 || (k + 1 < s.len()
                && s[k + 1] == 46))),
        j < s.len() ==> is_separator(s[j]) && (s[j] != 46 || (j + 1 < s.len() && s[j + 1] == 46)),
    ensures
        sep_pos_from(s, i) == if j < s.len() {
            Some(j)
        } else {
            Option::<int>::None
        },
    decreases j - i,
{
    if i < j {
        lemma_sep_pos_at(s, i + 1, j);
    }
}

/// The separator scan's landing point has no stopper before it and is a
/// stopper itself unless it is the end.
proof fn lemma_sep_pos_inv(s: Seq<u8>, i: int)
    requires
        0 <= i <= s.len(),
    ensures
        ({
            let j = match sep_pos_from(s, i) {
                Some(x) => x,
                None => s.len() as int,
            };
            &&& i <= j <= s.len()
            &&& forall|k: int|
                i <= k < j ==> !(is_separator(#[trigger] s[k]) && (s[k] != 46 || (k + 1 < s.len()
                    && s[k + 1] == 46)))
            &&& j < s.len() ==> is_separator(s[j]) && (s[j] != 46 || (j + 1 < s.len() && s[j + 1]
                == 46))
            &&& sep_pos_from(s, i) is Some <==> j < s.len()
        }),
    decreases s.len() - i,
{
    if i < s.len() && !(is_separator(s[i]) && (s[i] != 46 || (i + 1 < s.len() && s[i + 1] == 46))) {
        lemma_sep_pos_inv(s, i + 1);
    }
}

/// Where no closing brace stands in `[i, j)` and one stands at `j`, the brace
/// scan from `i` lands exactly on `j`.
proof fn lemma_rbrace_at(s: Seq<u8>, i: int, j: int)
    requires
        0 <= i <= j < s.len(),
        forall|k: int| i <= k < j ==> s[k] != 125,
        s[j] == 125,
    ensures
        rbrace_pos_from(s, i) == Some(j),
    decreases j - i,
{
    if i < j {
        lemma_rbrace_at(s, i + 1, j);
    }
}

/// A run without dots counts wholly.
proof fn lemma_count_non_dot_all(t: Seq<u8>, i: int, j: int)
    requires
        i <= j,
        forall|k: int| i <= k < j ==> #[trigger] t[k] != 46,
    ensures
        count_non_dot(t, i, j) == j - i,
    decreases j - i,
{
    if i < j {
        lemma_count_non_dot_all(t, i, j - 1);
    }
}

/// Scanning a written-back `@{...}` navigation after a name ending at `pos`
/// yields exactly the navigation call it was written from.
proof fn lemma_at_nav_rescan(
    u: Seq<u8>,
    i2: int,
    pos: int,
    has_ref: bool,
    lg: Seq<Event>,
    acc: Seq<Event>,
    neg: bool,
    m: int,
)
    requires
        0 <= i2 <= pos < u.len(),
        u[pos] == 64,
        ({
            let inner = if neg {
                seq![45u8] + dec_rep(m)
            } else {
                dec_rep(m)
            };
            let ps = pos + 1;
            &&& ps < u.len() && u[ps] == 123
            &&& ps + 1 + inner.len() < u.len()
            &&& u.subrange(ps + 1, ps + 1 + inner.len() as int) == inner
            &&& u[ps + 1 + inner.len()] == 125
        }),
        0 <= m,
        m <= usize::MAX as int / 2 + if neg {
            1int
        } else {
            0int
        },
        neg ==> m >= 1 && i2 == pos,
        !neg ==> has_ref || i2 == pos,
    ensures
        ({
            let inner = if neg {
                seq![45u8] + dec_rep(m)
            } else {
                dec_rep(m)
            };
            let e = if neg {
                Event::CheckedOutBranch { branch_no: m }
            } else {
                Event::Reflog { entry: m }
            };
            scan_at_nav(u, i2, pos, pos, has_ref, lg, accept_all_policy(), acc) == RevOut {
                events: acc.push(e),
                err: None,
                rest: pos + 3 + inner.len(),
            }
        }),
{
    assert forall|l: Seq<Event>, e: Event| #[trigger] accept_all_policy()(l, e) by {}
    lemma_dec_rep(m);
    let inner = if neg {
        seq![45u8] + dec_rep(m)
    } else {
        dec_rep(m)
    };
    let ps = pos + 1;
    let cb = ps + 1 + inner.len() as int;
    assert forall|k: int| ps <= k < cb implies u[k] != 125 by {
        if k == ps {
            assert(u[k] == 123);
        } else {
            assert(u[k] == inner[k - (ps + 1)]);
            if neg && k == ps + 1 {
                assert(inner[0] == 45);
            } else {
                let d = if neg {
                    k - (ps + 1) - 1
                } else {
                    k - (ps + 1)
                };
                assert(inner[k - (ps + 1)] == dec_rep(m)[d]);
                assert(48 <= dec_rep(m)[d] <= 57);
            }
        }
    }
    lemma_rbrace_at(u, ps, cb);
    let nav = u.subrange(ps + 1, cb);
    assert(nav == inner);
    lemma_parse_num_dec(m, neg);
    if neg {
        assert(parse_num(nav) == (NumParse::Parsed { neg: true, mag: m }));
    } else {
        assert(parse_num(nav) == (NumParse::Parsed { neg: false, mag: m }));
    }
}

/// A run without dashes has no first dash.
proof fn lemma_first_dash_none(t: Seq<u8>, i: int, j: int)
    requires
        forall|k: int| i <= k < j ==> #[trigger] t[k] != 45,
    ensures
        first_dash_from(t, i, j) is None,
    decreases j - i,
{
    if 0 <= i < j {
        lemma_first_dash_none(t, i + 1, j);
    }
}

/// The position the name scan from `i` ends at.
pub open spec fn rev_j(s: Seq<u8>, i: int) -> int {
    match sep_pos_from(s, i) {
        Some(x) => x,
        None => s.len() as int,
    }
}

/// Whether the revision at `i` takes the bare-`@` shortcut.
pub open spec fn rev_shortcut(s: Seq<u8>, i: int) -> bool {
    let j = rev_j(s, i);
    &&& i == j
    &&& sep_pos_from(s, i) is Some
    &&& s[j] == 64
    &&& !(j + 1 < s.len() && s[j + 1] == 123)
}

/// The whole-name hex attempt of the anchor cascade, as an event.
pub open spec fn attempt1_of(name: Seq<u8>) -> Option<Event> {
    if all_name_hex(name, 0, name.len() as int) && count_non_dot(name, 0, name.len() as int)
        >= 4 {
        match from_hex_model(name) {
            Some((bytes, hex_len)) => Some(Event::DisambiguatePrefix { bytes, hex_len }),
            None => None,
        }
    } else {
        None
    }
}

/// The version-describe attempt of the anchor cascade, as an event.
pub open spec fn anchor_describe_attempt(name: Seq<u8>) -> Option<Event> {
    match describe_prefix(name, 0, name.len() as int) {
        Some((lo, hi)) => match from_hex_model(name.subrange(lo, hi)) {
            Some((bytes, hex_len)) => Some(Event::DisambiguatePrefix { bytes, hex_len }),
            None => None,
        },
        None => None,
    }
}

#[verifier::rlimit(100)]
proof fn lemma_rr_shortcut(
    s: Seq<u8>,
    i: int,
    loga: Seq<Event>,
    u: Seq<u8>,
    i2: int,
    logb: Seq<Event>,
    op_follows: bool,
)
    requires
        0 <= i <= s.len(),
        0 <= i2 <= u.len(),
        scan_revision(s, i, loga, accept_all_policy()).err is None,
        ({
            let o1 = scan_revision(s, i, loga, accept_all_policy());
            let t = unparse_rev(o1.events);
            let end = i2 + t.len() as int;
            &&& end <= u.len()
            &&& u.subrange(i2, end) == t
            &&& (op_follows ==> end + 2 <= u.len() && u[end] == 46 && u[end + 1] == 46 && o1.rest
                < s.len() && s[o1.rest] == 46)
            &&& (!op_follows ==> end == u.len())
        }),
        rev_shortcut(s, i),
    ensures
        ({
            let o1 = scan_revision(s, i, loga, accept_all_policy());
            let o2 = scan_revision(u, i2, logb, accept_all_policy());
            let end = i2 + unparse_rev(o1.events).len() as int;
            &&& o2.err is None
            &&& o2.events == o1.events
            &&& o2.rest == end
        }),
{
    let p = accept_all_policy();
    assert forall|l: Seq<Event>, e: Event| #[trigger] p(l, e) by {}

    let o1 = scan_revision(s, i, loga, p);
    lemma_sep_pos_inv(s, i);
    let sp1 = sep_pos_from(s, i);
    let j1: int = rev_j(s, i);
    let name = s.subrange(i, j1);
    let a1 = if rev_shortcut(s, i) {
        let e = Event::FindRef { name: head_name() };
        AnchorOut { events: seq![e], ok: p(loga, e), has_ref: false }
    } else {
        anchor_cascade(name, loga, p)
    };
    assert(a1.ok);
    assert(o1 == scan_nav(s, i, j1, sp1, a1.has_ref, loga + a1.events, p, a1.events));
    let t = unparse_rev(o1.events);
    let end = i2 + t.len() as int;
    assert(forall|k: int| i2 <= k < end ==> u[k] == t[k - i2]);

    assert forall|k: int|
        i <= k < j1 implies !(is_separator(#[trigger] s[k]) && s[k] != 46) && (s[k] == 46 && k + 1
        < j1 ==> s[k + 1] != 46) by {
        assert(!(is_separator(s[k]) && (s[k] != 46 || (k + 1 < s.len() && s[k + 1] == 46))));
    }
    // the bare-`@` shortcut: the call reads back as the name `HEAD`
    assert(s[j1] == 64 && !(j1 + 1 < s.len() && s[j1 + 1] == 123));
    let ps = j1 + 1;
    assert(o1 == RevOut { events: a1.events, err: None, rest: ps });
    assert(o1.events =~= seq![Event::FindRef { name: head_name() }]);
    assert(t == head_name());
    assert(t.len() == 4);
    // scanning `HEAD` back: no separators, so the name runs to the end
    // or to the operator
    let h = head_name();
    assert(h[0] == 72 && h[1] == 69 && h[2] == 65 && h[3] == 68);
    assert forall|k: int|
        i2 <= k < end implies !(is_separator(#[trigger] u[k]) && (u[k] != 46 || (k + 1
        < u.len() && u[k + 1] == 46))) by {
        assert(u[k] == h[k - i2]);
    }
    if op_follows {
        lemma_sep_pos_at(u, i2, end);
    } else {
        lemma_sep_pos_at(u, i2, end);
    }
    let j2: int = match sep_pos_from(u, i2) {
        Some(x) => x,
        None => u.len() as int,
    };
    assert(j2 == end);
    let name2 = u.subrange(i2, end);
    assert(name2 =~= h);
    // `HEAD` is neither hex nor describe output, so it resolves as a name
    assert(!crate::is_hex_digit(72));
    assert(!all_name_hex(name2, 0, 4)) by {
        assert(name2[0] == 72);
    }
    assert forall|k: int| 0 <= k < 4 implies #[trigger] name2[k] != 45 by {}
    lemma_last_dash_bounds(name2, 0, 4);
    assert(last_dash_before(name2, 0, 4) is None) by {
        if last_dash_before(name2, 0, 4) is Some {
            let d = last_dash_before(name2, 0, 4)->Some_0;
            assert(name2[d] == 45);
        }
    }
    assert(long_prefix_at(name2, 0, 4) is None) by {
        assert(name2[0] != 103);
    }
    lemma_first_dash_none(name2, 0, 4);
    let a2 = anchor_cascade(name2, logb, p);
    assert(a2 == AnchorOut {
        events: seq![Event::FindRef { name: h }],
        ok: true,
        has_ref: true,
    });
    let shortcut2 = i2 == j2 && sep_pos_from(u, i2) is Some && u[j2] == 64 && !(j2 + 1
        < u.len() && u[j2 + 1] == 123);
    assert(!shortcut2);
    let o2 = scan_revision(u, i2, logb, p);
    assert(o2 == scan_nav(u, i2, j2, sep_pos_from(u, i2), true, logb + a2.events, p, a2.events));
    if op_follows {
        assert(u[end] == 46);
        assert(o2 == RevOut { events: a2.events, err: None, rest: end });
    } else {
        assert(o2 == RevOut { events: a2.events, err: None, rest: u.len() as int });
    }
    assert(o2.events =~= o1.events);
}

#[verifier::rlimit(100)]
proof fn lemma_rr_prefix(
    s: Seq<u8>,
    i: int,
    loga: Seq<Event>,
    u: Seq<u8>,
    i2: int,
    logb: Seq<Event>,
    op_follows: bool,
)
    requires
        0 <= i <= s.len(),
        0 <= i2 <= u.len(),
        scan_revision(s, i, loga, accept_all_policy()).err is None,
        ({
            let o1 = scan_revision(s, i, loga, accept_all_policy());
            let t = unparse_rev(o1.events);
            let end = i2 + t.len() as int;
            &&& end <= u.len()
            &&& u.subrange(i2, end) == t
            &&& (op_follows ==> end + 2 <= u.len() && u[end] == 46 && u[end + 1] == 46 && o1.rest
                < s.len() && s[o1.rest] == 46)
            &&& (!op_follows ==> end == u.len())
        }),
        !rev_shortcut(s, i),
        attempt1_of(s.subrange(i, rev_j(s, i))) is Some || anchor_describe_attempt(
            s.subrange(i, rev_j(s, i)),
        ) is Some,
    ensures
        ({
            let o1 = scan_revision(s, i, loga, accept_all_policy());
            let o2 = scan_revision(u, i2, logb, accept_all_policy());
            let end = i2 + unparse_rev(o1.events).len() as int;
            &&& o2.err is None
            &&& o2.events == o1.events
            &&& o2.rest == end
        }),
{
    let p = accept_all_policy();
    assert forall|l: Seq<Event>, e: Event| #[trigger] p(l, e) by {}

    let o1 = scan_revision(s, i, loga, p);
    lemma_sep_pos_inv(s, i);
    let sp1 = sep_pos_from(s, i);
    let j1: int = rev_j(s, i);
    let name = s.subrange(i, j1);
    let a1 = if rev_shortcut(s, i) {
        let e = Event::FindRef { name: head_name() };
        AnchorOut { events: seq![e], ok: p(loga, e), has_ref: false }
    } else {
        anchor_cascade(name, loga, p)
    };
    assert(a1.ok);
    assert(o1 == scan_nav(s, i, j1, sp1, a1.has_ref, loga + a1.events, p, a1.events));
    let t = unparse_rev(o1.events);
    let end = i2 + t.len() as int;
    assert(forall|k: int| i2 <= k < end ==> u[k] == t[k - i2]);

    assert forall|k: int|
        i <= k < j1 implies !(is_separator(#[trigger] s[k]) && s[k] != 46) && (s[k] == 46 && k + 1
        < j1 ==> s[k + 1] != 46) by {
        assert(!(is_separator(s[k]) && (s[k] != 46 || (k + 1 < s.len() && s[k + 1] == 46))));
    }
    // a prefix anchor: the call reads back as its digit run
    let (bytes, hex_len, run): (Seq<u8>, int, Seq<u8>) = if attempt1_of(name) is Some {
        let (b, h) = from_hex_model(name)->Some_0;
        (b, h, name)
    } else {
        let (lo, hi) = describe_prefix(name, 0, name.len() as int)->Some_0;
        let (b, h) = from_hex_model(name.subrange(lo, hi))->Some_0;
        (b, h, name.subrange(lo, hi))
    };
    let e1 = Event::DisambiguatePrefix { bytes, hex_len };
    assert(a1 == AnchorOut { events: seq![e1], ok: true, has_ref: false });
    assert(from_hex_model(run) == Some((bytes, hex_len)));
    assert(4 <= run.len() <= 40 && all_hex_digits(run) && hex_len == run.len());
    lemma_hex_roundtrip(run);
    // a prefix anchor allows no navigation, so the separator is a
    // dot or the end
    assert(o1.events == a1.events && (o1.rest == s.len() || (sp1 is Some && s[j1] == 46
        && o1.rest == j1))) by {
        if sp1 is Some {
            let pos = j1;
            if s[pos] == 64 {
                let ps = pos + 1;
                if !(ps < s.len() && s[ps] == 123) {
                    assert(name.len() > 0);
                    assert(o1.err is Some);
                } else {
                    assert(o1.err is None);
                    assert(name.len() > 0);
                    assert(false);
                }
            }
        }
    }
    assert(t == to_hex_run(bytes, hex_len));
    assert(t.len() == hex_len);
    assert forall|k: int|
        i2 <= k < end implies !(is_separator(#[trigger] u[k]) && (u[k] != 46 || (k + 1
        < u.len() && u[k + 1] == 46))) by {
        assert(u[k] == t[k - i2]);
        assert(!is_separator(t[k - i2]));
    }
    lemma_sep_pos_at(u, i2, end);
    let j2: int = match sep_pos_from(u, i2) {
        Some(x) => x,
        None => u.len() as int,
    };
    assert(j2 == end);
    let name2 = u.subrange(i2, end);
    assert(name2 =~= t);
    assert(!(i2 == j2)) by {
        assert(hex_len >= 4);
    }
    // the run is pure hex of prefix length, so the whole-name hex
    // path fires with the very same buffer
    assert(all_name_hex(name2, 0, name2.len() as int)) by {
        assert(forall|k: int|
            0 <= k < name2.len() ==> crate::is_hex_digit(#[trigger] name2[k]));
    }
    lemma_count_non_dot_all(name2, 0, name2.len() as int);
    assert(from_hex_model(name2) == Some((bytes, hex_len)));
    let a2 = anchor_cascade(name2, logb, p);
    assert(a2 == AnchorOut { events: seq![e1], ok: true, has_ref: false });
    let o2 = scan_revision(u, i2, logb, p);
    assert(o2 == scan_nav(
        u,
        i2,
        j2,
        sep_pos_from(u, i2),
        false,
        logb + a2.events,
        p,
        a2.events,
    ));
    if op_follows {
        assert(o2 == RevOut { events: a2.events, err: None, rest: end });
    } else {
        assert(o2 == RevOut { events: a2.events, err: None, rest: u.len() as int });
    }
    assert(o2.events =~= o1.events);
}

#[verifier::rlimit(100)]
proof fn lemma_rr_noanchor(
    s: Seq<u8>,
    i: int,
    loga: Seq<Event>,
    u: Seq<u8>,
    i2: int,
    logb: Seq<Event>,
    op_follows: bool,
)
    requires
        0 <= i <= s.len(),
        0 <= i2 <= u.len(),
        scan_revision(s, i, loga, accept_all_policy()).err is None,
        ({
            let o1 = scan_revision(s, i, loga, accept_all_policy());
            let t = unparse_rev(o1.events);
            let end = i2 + t.len() as int;
            &&& end <= u.len()
            &&& u.subrange(i2, end) == t
            &&& (op_follows ==> end + 2 <= u.len() && u[end] == 46 && u[end + 1] == 46 && o1.rest
                < s.len() && s[o1.rest] == 46)
            &&& (!op_follows ==> end == u.len())
        }),
        !rev_shortcut(s, i),
        attempt1_of(s.subrange(i, rev_j(s, i))) is None,
        anchor_describe_attempt(s.subrange(i, rev_j(s, i))) is None,
        s.subrange(i, rev_j(s, i)).len() == 0,
    ensures
        ({
            let o1 = scan_revision(s, i, loga, accept_all_policy());
            let o2 = scan_revision(u, i2, logb, accept_all_policy());
            let end = i2 + unparse_rev(o1.events).len() as int;
            &&& o2.err is None
            &&& o2.events == o1.events
            &&& o2.rest == end
        }),
{
    let p = accept_all_policy();
    assert forall|l: Seq<Event>, e: Event| #[trigger] p(l, e) by {}

    let o1 = scan_revision(s, i, loga, p);
    lemma_sep_pos_inv(s, i);
    let sp1 = sep_pos_from(s, i);
    let j1: int = rev_j(s, i);
    let name = s.subrange(i, j1);
    let a1 = if rev_shortcut(s, i) {
        let e = Event::FindRef { name: head_name() };
        AnchorOut { events: seq![e], ok: p(loga, e), has_ref: false }
    } else {
        anchor_cascade(name, loga, p)
    };
    assert(a1.ok);
    assert(o1 == scan_nav(s, i, j1, sp1, a1.has_ref, loga + a1.events, p, a1.events));
    let t = unparse_rev(o1.events);
    let end = i2 + t.len() as int;
    assert(forall|k: int| i2 <= k < end ==> u[k] == t[k - i2]);

    assert forall|k: int|
        i <= k < j1 implies !(is_separator(#[trigger] s[k]) && s[k] != 46) && (s[k] == 46 && k + 1
        < j1 ==> s[k + 1] != 46) by {
        assert(!(is_separator(s[k]) && (s[k] != 46 || (k + 1 < s.len() && s[k + 1] == 46))));
    }
    // no anchor at all: an empty name makes no call, and only a
    // navigation can follow
    assert(a1 == AnchorOut { events: seq![], ok: true, has_ref: false });
    if sp1 is Some && s[j1] == 64 {
        // `@{...}`: the navigation call reads back as itself
        assert(j1 + 1 < s.len() && s[j1 + 1] == 123);
        let nav_out = scan_at_nav(s, i, j1, j1, false, loga + a1.events, p, a1.events);
        assert(o1 == nav_out);
        let cb1 = rbrace_pos_from(s, j1 + 1)->Some_0;
        let nav1 = s.subrange(j1 + 2, cb1);
        let (neg, m): (bool, int) = match parse_num(nav1) {
            NumParse::Parsed { neg, mag } => (neg, mag),
            NumParse::NotNum => (false, 0),
        };
        assert(parse_num(nav1) is Parsed);
        crate::revision::parse::lemma_digits_nonneg(
            nav1,
            if nav1.len() > 0 && (nav1[0] == 45 || nav1[0] == 43) {
                1int
            } else {
                0int
            },
            nav1.len() as int,
        );
        assert(m >= 0);
        let ev = if neg {
            Event::CheckedOutBranch { branch_no: m }
        } else {
            Event::Reflog { entry: m }
        };
        assert(o1.events =~= seq![ev]);
        assert(t == unparse_nav(ev));
        let inner = if neg {
            seq![45u8] + dec_rep(m)
        } else {
            dec_rep(m)
        };
        assert(t =~= seq![64u8, 123u8] + inner + seq![125u8]);
        // scanning it back: the `@` stops the name scan at once
        lemma_sep_pos_at(u, i2, i2);
        assert(u[i2] == t[0] && t[0] == 64);
        assert(sep_pos_from(u, i2) == Some(i2));
        assert(u[i2 + 1] == t[1] && t[1] == 123);
        let shortcut2 = !(i2 + 1 < u.len() && u[i2 + 1] == 123);
        assert(!shortcut2);
        let name2 = u.subrange(i2, i2);
        assert(name2.len() == 0);
        lemma_first_dash_none(name2, 0, 0);
        let a2 = anchor_cascade(name2, logb, p);
        assert(a2 == AnchorOut { events: seq![], ok: true, has_ref: false });
        assert forall|k: int|
            0 <= k < inner.len() implies u[i2 + 2 + k] == inner[k] by {
            assert(u[i2 + 2 + k] == t[2 + k]);
        }
        assert(u.subrange(i2 + 2, i2 + 2 + inner.len() as int) =~= inner);
        assert(u[i2 + 2 + inner.len()] == t[t.len() - 1] && t[t.len() - 1] == 125);
        lemma_at_nav_rescan(u, i2, i2, false, logb, seq![], neg, m);
        let o2 = scan_revision(u, i2, logb, p);
        assert(o2 == scan_at_nav(u, i2, i2, i2, false, logb + a2.events, p, a2.events));
        assert(o2 == RevOut { events: seq![ev], err: None, rest: i2 + 3 + inner.len() });
        assert(o2.events =~= o1.events);
        assert(o2.rest == end);
    } else {
        // nothing or a dot follows: no calls at all
        assert(o1.events =~= seq![]);
        assert(t.len() == 0);
        assert(end == i2);
        if op_follows {
            lemma_sep_pos_at(u, i2, i2);
            assert(sep_pos_from(u, i2) == Some(i2) && u[i2] == 46);
        } else {
            assert(i2 == u.len());
            assert(sep_pos_from(u, i2) is None);
        }
        let name2 = u.subrange(i2, i2);
        lemma_first_dash_none(name2, 0, 0);
        let a2 = anchor_cascade(name2, logb, p);
        assert(a2 == AnchorOut { events: seq![], ok: true, has_ref: false });
        let o2 = scan_revision(u, i2, logb, p);
        assert(o2.events =~= o1.events);
        assert(o2.err is None && o2.rest == end);
    }
}

#[verifier::rlimit(100)]
proof fn lemma_rr_name(
    s: Seq<u8>,
    i: int,
    loga: Seq<Event>,
    u: Seq<u8>,
    i2: int,
    logb: Seq<Event>,
    op_follows: bool,
)
    requires
        0 <= i <= s.len(),
        0 <= i2 <= u.len(),
        scan_revision(s, i, loga, accept_all_policy()).err is None,
        ({
            let o1 = scan_revision(s, i, loga, accept_all_policy());
            let t = unparse_rev(o1.events);
            let end = i2 + t.len() as int;
            &&& end <= u.len()
            &&& u.subrange(i2, end) == t
            &&& (op_follows ==> end + 2 <= u.len() && u[end] == 46 && u[end + 1] == 46 && o1.rest
                < s.len() && s[o1.rest] == 46)
            &&& (!op_follows ==> end == u.len())
        }),
        !rev_shortcut(s, i),
        attempt1_of(s.subrange(i, rev_j(s, i))) is None,
        anchor_describe_attempt(s.subrange(i, rev_j(s, i))) is None,
        s.subrange(i, rev_j(s, i)).len() > 0,
    ensures
        ({
            let o1 = scan_revision(s, i, loga, accept_all_policy());
            let o2 = scan_revision(u, i2, logb, accept_all_policy());
            let end = i2 + unparse_rev(o1.events).len() as int;
            &&& o2.err is None
            &&& o2.events == o1.events
            &&& o2.rest == end
        }),
{
    let p = accept_all_policy();
    assert forall|l: Seq<Event>, e: Event| #[trigger] p(l, e) by {}

    let o1 = scan_revision(s, i, loga, p);
    lemma_sep_pos_inv(s, i);
    let sp1 = sep_pos_from(s, i);
    let j1: int = rev_j(s, i);
    let name = s.subrange(i, j1);
    let a1 = if rev_shortcut(s, i) {
        let e = Event::FindRef { name: head_name() };
        AnchorOut { events: seq![e], ok: p(loga, e), has_ref: false }
    } else {
        anchor_cascade(name, loga, p)
    };
    assert(a1.ok);
    assert(o1 == scan_nav(s, i, j1, sp1, a1.has_ref, loga + a1.events, p, a1.events));
    let t = unparse_rev(o1.events);
    let end = i2 + t.len() as int;
    assert(forall|k: int| i2 <= k < end ==> u[k] == t[k - i2]);

    assert forall|k: int|
        i <= k < j1 implies !(is_separator(#[trigger] s[k]) && s[k] != 46) && (s[k] == 46 && k + 1
        < j1 ==> s[k + 1] != 46) by {
        assert(!(is_separator(s[k]) && (s[k] != 46 || (k + 1 < s.len() && s[k + 1] == 46))));
    }
    // a named reference: the call reads back as the name itself
    let e3 = Event::FindRef { name };
    assert(a1 == AnchorOut { events: seq![e3], ok: true, has_ref: true });
    // navigation: nothing, a dot, or a reflog entry
    let endn = i2 + name.len() as int;
    assert(t.subrange(0, name.len() as int) =~= name ==> u.subrange(i2, endn) =~= name);
    if sp1 is Some && s[j1] == 64 {
        // `name@{n}`
        assert(o1.err is None);
        assert(j1 + 1 < s.len() && s[j1 + 1] == 123) by {
            if !(j1 + 1 < s.len() && s[j1 + 1] == 123) {
                assert(o1.err is Some);
            }
        }
        let cb1 = rbrace_pos_from(s, j1 + 1)->Some_0;
        let nav1 = s.subrange(j1 + 2, cb1);
        assert(parse_num(nav1) is Parsed);
        let m: int = parse_num(nav1)->Parsed_mag;
        let negflag: bool = parse_num(nav1)->Parsed_neg;
        assert(!negflag) by {
            if negflag {
                assert(o1.err is Some);
            }
        }
        crate::revision::parse::lemma_digits_nonneg(
            nav1,
            if nav1.len() > 0 && (nav1[0] == 45 || nav1[0] == 43) {
                1int
            } else {
                0int
            },
            nav1.len() as int,
        );
        assert(m >= 0);
        let ev = Event::Reflog { entry: m };
        assert(o1.events =~= seq![e3, ev]);
        assert(t =~= name + unparse_nav(ev));
        let inner = dec_rep(m);
        assert(unparse_nav(ev) =~= seq![64u8, 123u8] + inner + seq![125u8]);
        assert forall|k: int| i2 <= k < endn implies u[k] == name[k - i2] by {
            assert(u[k] == t[k - i2]);
            assert(t[k - i2] == name[k - i2]);
        }
        assert(u.subrange(i2, endn) =~= name);
        assert(u[endn] == t[name.len() as int] && t[name.len() as int] == 64);
        // the name scan stops at the `@`
        assert forall|k: int|
            i2 <= k < endn implies !(is_separator(#[trigger] u[k]) && (u[k] != 46 || (k + 1
            < u.len() && u[k + 1] == 46))) by {
            let k1 = k - i2 + i;
            assert(u[k] == name[k - i2] && name[k - i2] == s[k1]);
            if u[k] == 46 && k + 1 < u.len() && u[k + 1] == 46 {
                if k + 1 < endn {
                    assert(u[k + 1] == s[k1 + 1]);
                    assert(false);
                } else {
                    assert(u[k + 1] == 64);
                    assert(false);
                }
            }
        }
        lemma_sep_pos_at(u, i2, endn);
        assert(sep_pos_from(u, i2) == Some(endn));
        let name2 = u.subrange(i2, endn);
        assert(name2 =~= name);
        let a2 = anchor_cascade(name2, logb, p);
        assert(a2 == AnchorOut { events: seq![e3], ok: true, has_ref: true });
        assert forall|k: int|
            0 <= k < inner.len() implies u[endn + 2 + k] == inner[k] by {
            assert(u[endn + 2 + k] == t[name.len() + 2 + k]);
        }
        assert(u.subrange(endn + 2, endn + 2 + inner.len() as int) =~= inner);
        assert(u[endn + 2 + inner.len()] == t[t.len() - 1] && t[t.len() - 1] == 125);
        lemma_at_nav_rescan(u, i2, endn, true, logb, seq![e3], false, m);
        let o2 = scan_revision(u, i2, logb, p);
        assert(o2 == scan_at_nav(u, i2, endn, endn, true, logb + a2.events, p, a2.events));
        assert(o2.events =~= o1.events);
        assert(o2.rest == end);
        assert(o2.err is None);
    } else {
        // `name` alone, up to the end or an operator
        assert(o1.events =~= seq![e3]);
        assert(t == name);
        assert(end == endn);
        assert(o1.rest == s.len() || (sp1 is Some && s[j1] == 46 && o1.rest == j1)) by {
            if sp1 is Some {
                assert(s[j1] != 64);
                if s[j1] != 46 {
                    assert(o1.err is Some);
                }
            }
        }
        if op_follows {
            assert(sp1 is Some && s[j1] == 46) by {
                if o1.rest == s.len() {
                    assert(s[o1.rest] == 46);
                    assert(false);
                }
            }
        }
        assert forall|k: int|
            i2 <= k < endn implies !(is_separator(#[trigger] u[k]) && (u[k] != 46 || (k + 1
            < u.len() && u[k + 1] == 46))) by {
            let k1 = k - i2 + i;
            assert(u[k] == t[k - i2] && t[k - i2] == s[k1]);
            if u[k] == 46 && k + 1 < u.len() && u[k + 1] == 46 {
                if k + 1 < endn {
                    assert(u[k + 1] == s[k1 + 1]);
                    assert(false);
                } else {
                    // the name's last byte is a dot and an operator
                    // follows; then the dot would have stopped the
                    // original scan already
                    assert(op_follows);
                    assert(s[j1] == 46);
                    assert(k1 + 1 == j1);
                    assert(false);
                }
            }
        }
        lemma_sep_pos_at(u, i2, endn);
        let name2 = u.subrange(i2, endn);
        assert(name2 =~= name);
        let a2 = anchor_cascade(name2, logb, p);
        assert(a2 == AnchorOut { events: seq![e3], ok: true, has_ref: true });
        let o2 = scan_revision(u, i2, logb, p);
        if op_follows {
            assert(sep_pos_from(u, i2) == Some(endn) && u[endn] == 46);
            assert(o2 == RevOut { events: a2.events, err: None, rest: endn });
        } else {
            assert(sep_pos_from(u, i2) is None);
            assert(o2 == RevOut { events: a2.events, err: None, rest: u.len() as int });
        }
        assert(o2.events =~= o1.events);
    }
}

/// Scanning one written-back revision out of `u` yields exactly the calls it
/// was written from. The revision's text stands at `i2`; what follows it is
/// either nothing or a range operator, the latter only where an operator
/// followed the original revision too.
proof fn lemma_rev_rescan(
    s: Seq<u8>,
    i: int,
    loga: Seq<Event>,
    u: Seq<u8>,
    i2: int,
    logb: Seq<Event>,
    op_follows: bool,
)
    requires
        0 <= i <= s.len(),
        0 <= i2 <= u.len(),
        scan_revision(s, i, loga, accept_all_policy()).err is None,
        ({
            let o1 = scan_revision(s, i, loga, accept_all_policy());
            let t = unparse_rev(o1.events);
            let end = i2 + t.len() as int;
            &&& end <= u.len()
            &&& u.subrange(i2, end) == t
            &&& (op_follows ==> end + 2 <= u.len() && u[end] == 46 && u[end + 1] == 46 && o1.rest
                < s.len() && s[o1.rest] == 46)
            &&& (!op_follows ==> end == u.len())
        }),
    ensures
        ({
            let o1 = scan_revision(s, i, loga, accept_all_policy());
            let o2 = scan_revision(u, i2, logb, accept_all_policy());
            let end = i2 + unparse_rev(o1.events).len() as int;
            &&& o2.err is None
            &&& o2.events == o1.events
            &&& o2.rest == end
        }),
{
    let name = s.subrange(i, rev_j(s, i));
    if rev_shortcut(s, i) {
        lemma_rr_shortcut(s, i, loga, u, i2, logb, op_follows);
    } else if attempt1_of(name) is Some || anchor_describe_attempt(name) is Some {
        lemma_rr_prefix(s, i, loga, u, i2, logb, op_follows);
    } else if name.len() == 0 {
        lemma_rr_noanchor(s, i, loga, u, i2, logb, op_follows);
    } else {
        lemma_rr_name(s, i, loga, u, i2, logb, op_follows);
    }
}

/// An empty name anchors nothing and makes no call.
proof fn lemma_cascade_empty(name: Seq<u8>, lg: Seq<Event>)
    requires
        name.len() == 0,
    ensures
        anchor_cascade(name, lg, accept_all_policy()) == (AnchorOut {
            events: seq![],
            ok: true,
            has_ref: false,
        }),
{
    lemma_first_dash_none(name, 0, 0);
}

/// The first byte of a successfully scanned revision's written-back text: a
/// `@`, the `H` of the `HEAD` shortcut, a hexadecimal digit, or the first
/// byte of the scanned name itself.
proof fn lemma_rev_first_text(s: Seq<u8>, i: int, lg: Seq<Event>)
    requires
        0 <= i <= s.len(),
        scan_revision(s, i, lg, accept_all_policy()).err is None,
    ensures
        ({
            let ev = scan_revision(s, i, lg, accept_all_policy()).events;
            let t = unparse_rev(ev);
            ev.len() > 0 ==> t.len() > 0 && (t[0] == 64 || t[0] == 72 || is_hex_digit(t[0]) || (
            rev_j(s, i) > i && t[0] == s[i]))
        }),
{
    let p = accept_all_policy();
    assert forall|l: Seq<Event>, e: Event| #[trigger] p(l, e) by {}
    let o1 = scan_revision(s, i, lg, p);
    lemma_sep_pos_inv(s, i);
    let sp1 = sep_pos_from(s, i);
    let j1: int = rev_j(s, i);
    let name = s.subrange(i, j1);
    if rev_shortcut(s, i) {
        assert(o1.events[0] == Event::FindRef { name: head_name() });
        assert(unparse_rev(o1.events)[0] == 72);
    } else {
        let a1 = anchor_cascade(name, lg, p);
        assert(a1.ok);
        assert(o1 == scan_nav(s, i, j1, sp1, a1.has_ref, lg + a1.events, p, a1.events));
        if attempt1_of(name) is Some || anchor_describe_attempt(name) is Some {
            let e1 = a1.events[0];
            assert(e1 is DisambiguatePrefix);
            let bytes = e1->DisambiguatePrefix_bytes;
            let hex_len = e1->DisambiguatePrefix_hex_len;
            assert(hex_len >= 4) by {
                if attempt1_of(name) is Some {
                    assert(from_hex_model(name) is Some);
                } else {
                    let (lo, hi) = describe_prefix(name, 0, name.len() as int)->Some_0;
                    assert(from_hex_model(name.subrange(lo, hi)) is Some);
                }
            }
            let t = unparse_rev(o1.events);
            assert(o1.events[0] == e1);
            assert(t[0] == to_hex_run(bytes, hex_len)[0]);
            assert(t[0] == lower_hex_digit(nibble(bytes, 0)));
            assert(0 <= nibble(bytes, 0) < 16) by {
                assert(bytes[0] / 16 < 16 && bytes[0] / 16 >= 0);
            }
            lemma_lower_hex_digit(nibble(bytes, 0));
        } else if name.len() == 0 {
            if o1.events.len() > 0 {
                assert(o1.events[0] is Reflog || o1.events[0] is CheckedOutBranch);
                assert(unparse_rev(o1.events)[0] == 64);
            }
        } else {
            assert(a1.events[0] == Event::FindRef { name });
            assert(unparse_rev(o1.events)[0] == name[0]);
            assert(name[0] == s[i]);
        }
    }
}

/// The round-trip law: a specification the scanner accepts under an
/// all-acknowledging delegate can be written back from the delegate's
/// recorded calls into an equivalent specification — not necessarily the
/// same bytes — that the scanner accepts again with exactly the same calls,
/// whatever either delegate's log held before.
#[verifier::rlimit(100)]
pub proof fn lemma_round_trip(s: Seq<u8>, loga: Seq<Event>, logb: Seq<Event>)
    requires
        scan(s, loga, accept_all_policy()).res is None,
    ensures
        ({
            let out = scan(s, loga, accept_all_policy());
            let o2 = scan(unparse(out.events), logb, accept_all_policy());
            &&& o2.res is None
            &&& o2.events == out.events
        }),
{
    let p = accept_all_policy();
    assert forall|l: Seq<Event>, e: Event| #[trigger] p(l, e) by {}
    let out = scan(s, loga, p);
    let u = unparse(out.events);

    if s.len() > 0 && s[0] == 94 {
        // a leading caret: one revision, no operator may follow
        let e0 = Event::KindSet { kind: Kind::Range };
        let r1 = scan_revision(s, 1, loga.push(e0), p);
        assert(r1.err is None);
        assert(out == scan_range(s, r1.rest, true, loga.push(e0) + r1.events, p, seq![e0]
            + r1.events));
        assert(r1.rest == s.len());
        assert(out.events == seq![e0] + r1.events && out.res is None);
        assert(out.events[0] == e0);
        let t1 = unparse_rev(r1.events);
        assert(out.events.skip(1) =~= r1.events);
        assert(u == seq![94u8] + t1);
        assert(u[0] == 94);
        assert(u.subrange(1, 1 + t1.len() as int) =~= t1);
        lemma_rev_rescan(s, 1, loga.push(e0), u, 1, logb.push(e0), false);
        let r1b = scan_revision(u, 1, logb.push(e0), p);
        assert(r1b.rest == u.len());
        let o2 = scan(u, logb, p);
        assert(o2 == scan_range(u, r1b.rest, true, logb.push(e0) + r1b.events, p, seq![e0]
            + r1b.events));
        assert(o2.events =~= out.events);
    } else {
        let r1 = scan_revision(s, 0, loga, p);
        assert(r1.err is None);
        assert(out == scan_range(s, r1.rest, false, loga + r1.events, p, r1.events));
        lemma_rev_events_no_kind(s, 0, loga, p);
        lemma_rev_first_text(s, 0, loga);
        let t1r = r1.rest;
        let t1 = unparse_rev(r1.events);

        if t1r + 3 <= s.len() && s[t1r] == 46 && s[t1r + 1] == 46 && s[t1r + 2] == 46 {
            lemma_round_trip_op(s, loga, logb, Kind::MergeBase);
        } else if t1r + 2 <= s.len() && s[t1r] == 46 && s[t1r + 1] == 46 {
            lemma_round_trip_op(s, loga, logb, Kind::Range);
        } else {
            // a single revision and nothing after it
            assert(t1r == s.len());
            assert(out.events == r1.events && out.res is None);
            if r1.events.len() == 0 {
                assert(unparse_rev(r1.events).len() == 0);
                assert(first_kind_from(out.events, 0) == 0);
                assert(u =~= Seq::<u8>::empty());
                let o2 = scan(u, logb, p);
                lemma_cascade_empty(u.subrange(0, 0), logb);
                let r1b = scan_revision(u, 0, logb, p);
                assert(r1b == RevOut { events: seq![], err: None, rest: 0 });
                assert(o2.events =~= out.events);
                assert(o2.res is None);
            } else {
                lemma_first_kind_at(out.events, 0, out.events.len() as int);
                assert(!(out.events[0] is KindSet));
                assert(u == t1);
                assert(t1.len() > 0 && u[0] != 94);
                assert(u.subrange(0, t1.len() as int) =~= t1);
                lemma_rev_rescan(s, 0, loga, u, 0, logb, false);
                let r1b = scan_revision(u, 0, logb, p);
                assert(r1b.rest == u.len());
                let o2 = scan(u, logb, p);
                assert(o2 == scan_range(u, r1b.rest, false, logb + r1b.events, p, r1b.events));
                assert(o2.events =~= out.events);
                assert(o2.res is None);
            }
        }
    }
}

#[verifier::rlimit(100)]
proof fn lemma_round_trip_op_bare_mb(s: Seq<u8>, loga: Seq<Event>, logb: Seq<Event>, op: Kind)
    requires
        !(s.len() > 0 && s[0] == 94),
        scan_revision(s, 0, loga, accept_all_policy()).err is None,
        ({
            let r1 = scan_revision(s, 0, loga, accept_all_policy());
            let t1r = r1.rest;
            let opn: int = if op == Kind::MergeBase { 3 } else { 2 };
            let e2 = Event::KindSet { kind: op };
            let r2 = scan_revision(s, t1r + opn, (loga + r1.events).push(e2), accept_all_policy());
            &&& 0 <= t1r <= s.len()
            &&& (if op == Kind::MergeBase {
                t1r + 3 <= s.len() && s[t1r] == 46 && s[t1r + 1] == 46 && s[t1r + 2] == 46
            } else {
                op == Kind::Range && t1r + 2 <= s.len() && s[t1r] == 46 && s[t1r + 1] == 46 && !(
                t1r + 3 <= s.len() && s[t1r + 2] == 46)
            })
            &&& r2.err is None
            &&& r2.rest == s.len()
        }),
        op == Kind::MergeBase,
        scan_revision(s, 0, loga, accept_all_policy()).events.len() == 0,
    ensures
        ({
            let r1 = scan_revision(s, 0, loga, accept_all_policy());
            let opn: int = if op == Kind::MergeBase { 3 } else { 2 };
            let e2 = Event::KindSet { kind: op };
            let r2 = scan_revision(s, r1.rest + opn, (loga + r1.events).push(e2), accept_all_policy());
            let ev = r1.events.push(e2) + r2.events;
            let o2 = scan(unparse(ev), logb, accept_all_policy());
            &&& o2.res is None
            &&& o2.events == ev
        }),
{
    let p = accept_all_policy();
    assert forall|l: Seq<Event>, e: Event| #[trigger] p(l, e) by {}
    let r1 = scan_revision(s, 0, loga, p);
    lemma_rev_events_no_kind(s, 0, loga, p);
    lemma_rev_first_text(s, 0, loga);
    let t1r = r1.rest;
    let t1 = unparse_rev(r1.events);
    let opn: int = if op == Kind::MergeBase {
        3
    } else {
        2
    };
    let dots = if op == Kind::MergeBase {
        seq![46u8, 46u8, 46u8]
    } else {
        seq![46u8, 46u8]
    };
    let next = t1r + opn;
    let e2 = Event::KindSet { kind: op };
    let r2 = scan_revision(s, next, (loga + r1.events).push(e2), p);
    let ev = r1.events.push(e2) + r2.events;
    let u = unparse(ev);
    let t2 = unparse_rev(r2.events);
    lemma_rev_events_no_kind(s, next, (loga + r1.events).push(e2), p);
    lemma_rev_first_text(s, next, (loga + r1.events).push(e2));
    lemma_sep_pos_inv(s, next);

    assert(r2.events.len() > 0 ==> t2.len() > 0 && (t2[0] == 64 || t2[0] == 72 || is_hex_digit(
        t2[0],
    ) || (rev_j(s, next) > next && t2[0] == s[next])));
    // an empty first revision: the kind call leads
    assert(unparse_rev(r1.events).len() == 0);
    assert(ev =~= seq![e2] + r2.events);
    assert(ev[0] == e2);
    assert(ev.skip(1) =~= r2.events);
    assert(u == seq![46u8, 46u8, 46u8] + t2);
    assert(u[0] == 46 && u[1] == 46 && u[2] == 46);
    assert(u[0] != 94);
    let o2 = scan(u, logb, p);
    lemma_sep_pos_at(u, 0, 0);
    lemma_cascade_empty(u.subrange(0, 0), logb);
    let r1b = scan_revision(u, 0, logb, p);
    assert(r1b == RevOut { events: seq![], err: None, rest: 0 });
    assert(o2 == scan_range(u, 0, false, logb, p, seq![]));
    assert(o2 == scan_second(u, 3, Kind::MergeBase, false, logb, p, seq![]));
    let r2b = scan_revision(u, 3, logb.push(e2), p);
    assert(u.subrange(3, 3 + t2.len() as int) =~= t2);
    lemma_rev_rescan(s, next, (loga + r1.events).push(e2), u, 3, logb.push(e2), false);
    assert(r2b.err is None && r2b.events == r2.events && r2b.rest == u.len());
    assert(o2.events =~= ev);
    assert(o2.res is None);
}

#[verifier::rlimit(100)]
proof fn lemma_round_trip_op_bare_rg(s: Seq<u8>, loga: Seq<Event>, logb: Seq<Event>, op: Kind)
    requires
        !(s.len() > 0 && s[0] == 94),
        scan_revision(s, 0, loga, accept_all_policy()).err is None,
        ({
            let r1 = scan_revision(s, 0, loga, accept_all_policy());
            let t1r = r1.rest;
            let opn: int = if op == Kind::MergeBase { 3 } else { 2 };
            let e2 = Event::KindSet { kind: op };
            let r2 = scan_revision(s, t1r + opn, (loga + r1.events).push(e2), accept_all_policy());
            &&& 0 <= t1r <= s.len()
            &&& (if op == Kind::MergeBase {
                t1r + 3 <= s.len() && s[t1r] == 46 && s[t1r + 1] == 46 && s[t1r + 2] == 46
            } else {
                op == Kind::Range && t1r + 2 <= s.len() && s[t1r] == 46 && s[t1r + 1] == 46 && !(
                t1r + 3 <= s.len() && s[t1r + 2] == 46)
            })
            &&& r2.err is None
            &&& r2.rest == s.len()
        }),
        op == Kind::Range,
        scan_revision(s, 0, loga, accept_all_policy()).events.len() == 0,
    ensures
        ({
            let r1 = scan_revision(s, 0, loga, accept_all_policy());
            let opn: int = if op == Kind::MergeBase { 3 } else { 2 };
            let e2 = Event::KindSet { kind: op };
            let r2 = scan_revision(s, r1.rest + opn, (loga + r1.events).push(e2), accept_all_policy());
            let ev = r1.events.push(e2) + r2.events;
            let o2 = scan(unparse(ev), logb, accept_all_policy());
            &&& o2.res is None
            &&& o2.events == ev
        }),
{
    let p = accept_all_policy();
    assert forall|l: Seq<Event>, e: Event| #[trigger] p(l, e) by {}
    let r1 = scan_revision(s, 0, loga, p);
    lemma_rev_events_no_kind(s, 0, loga, p);
    lemma_rev_first_text(s, 0, loga);
    let t1r = r1.rest;
    let t1 = unparse_rev(r1.events);
    let opn: int = if op == Kind::MergeBase {
        3
    } else {
        2
    };
    let dots = if op == Kind::MergeBase {
        seq![46u8, 46u8, 46u8]
    } else {
        seq![46u8, 46u8]
    };
    let next = t1r + opn;
    let e2 = Event::KindSet { kind: op };
    let r2 = scan_revision(s, next, (loga + r1.events).push(e2), p);
    let ev = r1.events.push(e2) + r2.events;
    let u = unparse(ev);
    let t2 = unparse_rev(r2.events);
    lemma_rev_events_no_kind(s, next, (loga + r1.events).push(e2), p);
    lemma_rev_first_text(s, next, (loga + r1.events).push(e2));
    lemma_sep_pos_inv(s, next);

    assert(r2.events.len() > 0 ==> t2.len() > 0 && (t2[0] == 64 || t2[0] == 72 || is_hex_digit(
        t2[0],
    ) || (rev_j(s, next) > next && t2[0] == s[next])));
    // an empty first revision: the kind call leads
    assert(unparse_rev(r1.events).len() == 0);
    assert(ev =~= seq![e2] + r2.events);
    assert(ev[0] == e2);
    assert(ev.skip(1) =~= r2.events);
    // a plain range with no first revision reads back as `^`
    assert(u == seq![94u8] + t2);
    assert(u[0] == 94);
    let o2 = scan(u, logb, p);
    let r2b = scan_revision(u, 1, logb.push(e2), p);
    assert(u.subrange(1, 1 + t2.len() as int) =~= t2);
    lemma_rev_rescan(s, next, (loga + r1.events).push(e2), u, 1, logb.push(e2), false);
    assert(r2b.err is None && r2b.events == r2.events && r2b.rest == u.len());
    assert(o2 == scan_range(u, r2b.rest, true, logb.push(e2) + r2b.events, p, seq![e2]
        + r2b.events));
    assert(o2.events =~= ev);
    assert(o2.res is None);
}

#[verifier::rlimit(100)]
proof fn lemma_round_trip_op_full_mb(s: Seq<u8>, loga: Seq<Event>, logb: Seq<Event>, op: Kind)
    requires
        !(s.len() > 0 && s[0] == 94),
        scan_revision(s, 0, loga, accept_all_policy()).err is None,
        ({
            let r1 = scan_revision(s, 0, loga, accept_all_policy());
            let t1r = r1.rest;
            let opn: int = if op == Kind::MergeBase { 3 } else { 2 };
            let e2 = Event::KindSet { kind: op };
            let r2 = scan_revision(s, t1r + opn, (loga + r1.events).push(e2), accept_all_policy());
            &&& 0 <= t1r <= s.len()
            &&& (if op == Kind::MergeBase {
                t1r + 3 <= s.len() && s[t1r] == 46 && s[t1r + 1] == 46 && s[t1r + 2] == 46
            } else {
                op == Kind::Range && t1r + 2 <= s.len() && s[t1r] == 46 && s[t1r + 1] == 46 && !(
                t1r + 3 <= s.len() && s[t1r + 2] == 46)
            })
            &&& r2.err is None
            &&& r2.rest == s.len()
        }),
        op == Kind::MergeBase,
        scan_revision(s, 0, loga, accept_all_policy()).events.len() > 0,
    ensures
        ({
            let r1 = scan_revision(s, 0, loga, accept_all_policy());
            let opn: int = if op == Kind::MergeBase { 3 } else { 2 };
            let e2 = Event::KindSet { kind: op };
            let r2 = scan_revision(s, r1.rest + opn, (loga + r1.events).push(e2), accept_all_policy());
            let ev = r1.events.push(e2) + r2.events;
            let o2 = scan(unparse(ev), logb, accept_all_policy());
            &&& o2.res is None
            &&& o2.events == ev
        }),
{
    let p = accept_all_policy();
    assert forall|l: Seq<Event>, e: Event| #[trigger] p(l, e) by {}
    let r1 = scan_revision(s, 0, loga, p);
    lemma_rev_events_no_kind(s, 0, loga, p);
    lemma_rev_first_text(s, 0, loga);
    let t1r = r1.rest;
    let t1 = unparse_rev(r1.events);
    let opn: int = if op == Kind::MergeBase {
        3
    } else {
        2
    };
    let dots = if op == Kind::MergeBase {
        seq![46u8, 46u8, 46u8]
    } else {
        seq![46u8, 46u8]
    };
    let next = t1r + opn;
    let e2 = Event::KindSet { kind: op };
    let r2 = scan_revision(s, next, (loga + r1.events).push(e2), p);
    let ev = r1.events.push(e2) + r2.events;
    let u = unparse(ev);
    let t2 = unparse_rev(r2.events);
    lemma_rev_events_no_kind(s, next, (loga + r1.events).push(e2), p);
    lemma_rev_first_text(s, next, (loga + r1.events).push(e2));
    lemma_sep_pos_inv(s, next);

    assert(r2.events.len() > 0 ==> t2.len() > 0 && (t2[0] == 64 || t2[0] == 72 || is_hex_digit(
        t2[0],
    ) || (rev_j(s, next) > next && t2[0] == s[next])));
    let ik = r1.events.len() as int;
    lemma_first_kind_at(ev, 0, ik);
    assert(!(ev[0] is KindSet));
    assert(ev.take(ik) =~= r1.events);
    assert(ev.skip(ik + 1) =~= r2.events);
    assert(u == t1 + dots + t2);
    assert(t1.len() > 0);
    assert(u[0] == t1[0] && u[0] != 94);
    let end1 = t1.len() as int;
    assert(u.subrange(0, end1) =~= t1);
    assert(u[end1] == 46 && u[end1 + 1] == 46);
    lemma_rev_rescan(s, 0, loga, u, 0, logb, true);
    let r1b = scan_revision(u, 0, logb, p);
    assert(r1b.err is None && r1b.events == r1.events && r1b.rest == end1);
    let o2 = scan(u, logb, p);
    assert(o2 == scan_range(u, end1, false, logb + r1b.events, p, r1b.events));
    assert(u[end1 + 2] == dots[2] && dots[2] == 46);
    assert(end1 + 3 <= u.len());
    assert(o2 == scan_second(u, end1 + 3, Kind::MergeBase, false, logb + r1b.events, p,
        r1b.events));
    let r2b = scan_revision(u, end1 + 3, (logb + r1b.events).push(e2), p);
    assert(u.subrange(end1 + 3, end1 + 3 + t2.len() as int) =~= t2);
    lemma_rev_rescan(
        s,
        next,
        (loga + r1.events).push(e2),
        u,
        end1 + 3,
        (logb + r1b.events).push(e2),
        false,
    );
    assert(r2b.err is None && r2b.events == r2.events && r2b.rest == u.len());
    assert(o2.events =~= ev);
    assert(o2.res is None);
}

#[verifier::rlimit(100)]
proof fn lemma_round_trip_op_full_rg(s: Seq<u8>, loga: Seq<Event>, logb: Seq<Event>, op: Kind)
    requires
        !(s.len() > 0 && s[0] == 94),
        scan_revision(s, 0, loga, accept_all_policy()).err is None,
        ({
            let r1 = scan_revision(s, 0, loga, accept_all_policy());
            let t1r = r1.rest;
            let opn: int = if op == Kind::MergeBase { 3 } else { 2 };
            let e2 = Event::KindSet { kind: op };
            let r2 = scan_revision(s, t1r + opn, (loga + r1.events).push(e2), accept_all_policy());
            &&& 0 <= t1r <= s.len()
            &&& (if op == Kind::MergeBase {
                t1r + 3 <= s.len() && s[t1r] == 46 && s[t1r + 1] == 46 && s[t1r + 2] == 46
            } else {
                op == Kind::Range && t1r + 2 <= s.len() && s[t1r] == 46 && s[t1r + 1] == 46 && !(
                t1r + 3 <= s.len() && s[t1r + 2] == 46)
            })
            &&& r2.err is None
            &&& r2.rest == s.len()
        }),
        op == Kind::Range,
        scan_revision(s, 0, loga, accept_all_policy()).events.len() > 0,
    ensures
        ({
            let r1 = scan_revision(s, 0, loga, accept_all_policy());
            let opn: int = if op == Kind::MergeBase { 3 } else { 2 };
            let e2 = Event::KindSet { kind: op };
            let r2 = scan_revision(s, r1.rest + opn, (loga + r1.events).push(e2), accept_all_policy());
            let ev = r1.events.push(e2) + r2.events;
            let o2 = scan(unparse(ev), logb, accept_all_policy());
            &&& o2.res is None
            &&& o2.events == ev
        }),
{
    let p = accept_all_policy();
    assert forall|l: Seq<Event>, e: Event| #[trigger] p(l, e) by {}
    let r1 = scan_revision(s, 0, loga, p);
    lemma_rev_events_no_kind(s, 0, loga, p);
    lemma_rev_first_text(s, 0, loga);
    let t1r = r1.rest;
    let t1 = unparse_rev(r1.events);
    let opn: int = if op == Kind::MergeBase {
        3
    } else {
        2
    };
    let dots = if op == Kind::MergeBase {
        seq![46u8, 46u8, 46u8]
    } else {
        seq![46u8, 46u8]
    };
    let next = t1r + opn;
    let e2 = Event::KindSet { kind: op };
    let r2 = scan_revision(s, next, (loga + r1.events).push(e2), p);
    let ev = r1.events.push(e2) + r2.events;
    let u = unparse(ev);
    let t2 = unparse_rev(r2.events);
    lemma_rev_events_no_kind(s, next, (loga + r1.events).push(e2), p);
    lemma_rev_first_text(s, next, (loga + r1.events).push(e2));
    lemma_sep_pos_inv(s, next);

    assert(r2.events.len() > 0 ==> t2.len() > 0 && (t2[0] == 64 || t2[0] == 72 || is_hex_digit(
        t2[0],
    ) || (rev_j(s, next) > next && t2[0] == s[next])));
    let ik = r1.events.len() as int;
    lemma_first_kind_at(ev, 0, ik);
    assert(!(ev[0] is KindSet));
    assert(ev.take(ik) =~= r1.events);
    assert(ev.skip(ik + 1) =~= r2.events);
    assert(u == t1 + dots + t2);
    assert(t1.len() > 0);
    assert(u[0] == t1[0] && u[0] != 94);
    let end1 = t1.len() as int;
    assert(u.subrange(0, end1) =~= t1);
    assert(u[end1] == 46 && u[end1 + 1] == 46);
    lemma_rev_rescan(s, 0, loga, u, 0, logb, true);
    let r1b = scan_revision(u, 0, logb, p);
    assert(r1b.err is None && r1b.events == r1.events && r1b.rest == end1);
    let o2 = scan(u, logb, p);
    assert(o2 == scan_range(u, end1, false, logb + r1b.events, p, r1b.events));
    // the written-back text must not read as a merge base: the byte after
    // the two dots is the second revision's first byte, which is no dot
    assert(!(end1 + 3 <= u.len() && u[end1 + 2] == 46)) by {
        if end1 + 3 <= u.len() {
            assert(u[end1 + 2] == t2[0]);
            assert(t2.len() > 0);
            assert(r2.events.len() > 0);
            if rev_j(s, next) > next && t2[0] == s[next] {
                assert(next + 1 <= s.len());
                assert(s[next] != 46) by {
                    assert(!(t1r + 3 <= s.len() && s[t1r + 2] == 46));
                }
            }
        }
    }
    assert(o2 == scan_second(u, end1 + 2, Kind::Range, false, logb + r1b.events, p,
        r1b.events));
    let r2b = scan_revision(u, end1 + 2, (logb + r1b.events).push(e2), p);
    assert(u.subrange(end1 + 2, end1 + 2 + t2.len() as int) =~= t2);
    lemma_rev_rescan(
        s,
        next,
        (loga + r1.events).push(e2),
        u,
        end1 + 2,
        (logb + r1b.events).push(e2),
        false,
    );
    assert(r2b.err is None && r2b.events == r2.events && r2b.rest == u.len());
    assert(o2.events =~= ev);
    assert(o2.res is None);
}

/// The brace scan lands within bounds.
proof fn lemma_rbrace_bounds(s: Seq<u8>, i: int)
    requires
        0 <= i <= s.len(),
    ensures
        match rbrace_pos_from(s, i) {
            Some(x) => i <= x < s.len(),
            None => true,
        },
    decreases s.len() - i,
{
    if i < s.len() && s[i] != 125 {
        lemma_rbrace_bounds(s, i + 1);
    }
}

/// A successful revision leaves the cursor within the input.
proof fn lemma_rev_rest_bounds(s: Seq<u8>, i: int, log: Seq<Event>, p: Policy)
    requires
        0 <= i <= s.len(),
        scan_revision(s, i, log, p).err is None,
    ensures
        i <= scan_revision(s, i, log, p).rest <= s.len(),
{
    lemma_sep_pos_inv(s, i);
    let sp = sep_pos_from(s, i);
    match sp {
        None => {},
        Some(pos) => {
            if s[pos] == 64 {
                lemma_rbrace_bounds(s, pos + 1);
            }
        },
    }
}

/// The two-revision case of the round-trip law, with the scan already taken
/// apart into its two revisions.
proof fn lemma_round_trip_op_parts(s: Seq<u8>, loga: Seq<Event>, logb: Seq<Event>, op: Kind)
    requires
        !(s.len() > 0 && s[0] == 94),
        scan_revision(s, 0, loga, accept_all_policy()).err is None,
        ({
            let r1 = scan_revision(s, 0, loga, accept_all_policy());
            let t1r = r1.rest;
            let opn: int = if op == Kind::MergeBase { 3 } else { 2 };
            let e2 = Event::KindSet { kind: op };
            let r2 = scan_revision(s, t1r + opn, (loga + r1.events).push(e2), accept_all_policy());
            &&& 0 <= t1r <= s.len()
            &&& (if op == Kind::MergeBase {
                t1r + 3 <= s.len() && s[t1r] == 46 && s[t1r + 1] == 46 && s[t1r + 2] == 46
            } else {
                op == Kind::Range && t1r + 2 <= s.len() && s[t1r] == 46 && s[t1r + 1] == 46 && !(
                t1r + 3 <= s.len() && s[t1r + 2] == 46)
            })
            &&& r2.err is None
            &&& r2.rest == s.len()
        }),
    ensures
        ({
            let r1 = scan_revision(s, 0, loga, accept_all_policy());
            let opn: int = if op == Kind::MergeBase { 3 } else { 2 };
            let e2 = Event::KindSet { kind: op };
            let r2 = scan_revision(s, r1.rest + opn, (loga + r1.events).push(e2), accept_all_policy());
            let ev = r1.events.push(e2) + r2.events;
            let o2 = scan(unparse(ev), logb, accept_all_policy());
            &&& o2.res is None
            &&& o2.events == ev
        }),
{
    if scan_revision(s, 0, loga, accept_all_policy()).events.len() == 0 {
        if op == Kind::MergeBase {
            lemma_round_trip_op_bare_mb(s, loga, logb, op);
        } else {
            lemma_round_trip_op_bare_rg(s, loga, logb, op);
        }
    } else {
        if op == Kind::MergeBase {
            lemma_round_trip_op_full_mb(s, loga, logb, op);
        } else {
            lemma_round_trip_op_full_rg(s, loga, logb, op);
        }
    }
}

/// The two-revision case of the round-trip law: the first revision, a range
/// operator, the kind call, the second revision.
#[verifier::rlimit(100)]
proof fn lemma_round_trip_op(s: Seq<u8>, loga: Seq<Event>, logb: Seq<Event>, op: Kind)
    requires
        scan(s, loga, accept_all_policy()).res is None,
        !(s.len() > 0 && s[0] == 94),
        ({
            let r1 = scan_revision(s, 0, loga, accept_all_policy());
            let t1r = r1.rest;
            if op == Kind::MergeBase {
                t1r + 3 <= s.len() && s[t1r] == 46 && s[t1r + 1] == 46 && s[t1r + 2] == 46
            } else {
                op == Kind::Range && t1r + 2 <= s.len() && s[t1r] == 46 && s[t1r + 1] == 46 && !(
                t1r + 3 <= s.len() && s[t1r + 2] == 46)
            }
        }),
    ensures
        ({
            let out = scan(s, loga, accept_all_policy());
            let o2 = scan(unparse(out.events), logb, accept_all_policy());
            &&& o2.res is None
            &&& o2.events == out.events
        }),
{
    let p = accept_all_policy();
    assert forall|l: Seq<Event>, e: Event| #[trigger] p(l, e) by {}
    let out = scan(s, loga, p);
    let r1 = scan_revision(s, 0, loga, p);
    assert(r1.err is None);
    assert(out == scan_range(s, r1.rest, false, loga + r1.events, p, r1.events));
    lemma_rev_rest_bounds(s, 0, loga, p);
    let opn: int = if op == Kind::MergeBase {
        3
    } else {
        2
    };
    let next = r1.rest + opn;
    let e2 = Event::KindSet { kind: op };
    assert(out == scan_second(s, next, op, false, loga + r1.events, p, r1.events));
    let r2 = scan_revision(s, next, (loga + r1.events).push(e2), p);
    assert(r2.err is None && r2.rest == s.len());
    assert(out.events == r1.events.push(e2) + r2.events && out.res is None);
    lemma_round_trip_op_parts(s, loga, logb, op);
}

/// A revision's calls never set a kind.
proof fn lemma_rev_events_no_kind(s: Seq<u8>, i: int, log: Seq<Event>, p: Policy)
    requires
        0 <= i <= s.len(),
    ensures
        forall|k: int|
            0 <= k < scan_revision(s, i, log, p).events.len() ==> !(#[trigger] scan_revision(
                s,
                i,
                log,
                p,
            ).events[k] is KindSet),
{
}

} // verus!
