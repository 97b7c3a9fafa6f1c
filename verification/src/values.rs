//! Containers for valid configuration value types: booleans, integers with
//! binary-unit suffixes, colors, and quote normalization for raw values.

use vstd::prelude::*;
use vstd::string::StringSliceAdditionalSpecFns;

verus! {

/// The error returned when a byte string cannot be read as a value of the
/// requested type. It keeps the offending input.
#[derive(Debug)]
pub struct ParseError {
    /// The bytes that could not be interpreted.
    pub input: Vec<u8>,
}

/// An ASCII upper-case letter folded to lower case; any other byte unchanged.
pub open spec fn ascii_lower(b: u8) -> u8 {
    if 65 <= b && b <= 90 {
        (b + 32) as u8
    } else {
        b
    }
}

/// Byte-string equality up to ASCII case.
pub open spec fn eq_ignore_case(a: Seq<u8>, b: Seq<u8>) -> bool {
    a.len() == b.len() && forall|i: int|
        0 <= i < a.len() ==> ascii_lower(#[trigger] a[i]) == ascii_lower(b[i])
}

/// Fold an ASCII upper-case letter to lower case.
fn ascii_lower_exec(b: u8) -> (r: u8)
    ensures
        r == ascii_lower(b),
{
    if 65 <= b && b <= 90 {
        b + 32
    } else {
        b
    }
}

/// Decide byte-string equality.
fn bytes_eq(a: &[u8], b: &[u8]) -> (r: bool)
    ensures
        r == (a@ == b@),
{
    if a.len() != b.len() {
        proof {
            assert(a@.len() != b@.len());
        }
        return false;
    }
    let mut i: usize = 0;
    while i < a.len()
        invariant
            i <= a@.len() == b@.len(),
            forall|k: int| 0 <= k < i ==> a@[k] == b@[k],
        decreases a@.len() - i,
    {
        if a[i] != b[i] {
            return false;
        }
        i = i + 1;
    }
    proof {
        assert(a@ =~= b@);
    }
    true
}

/// Decide byte-string equality up to ASCII case.
fn bytes_eq_ic(a: &[u8], b: &[u8]) -> (r: bool)
    ensures
        r == eq_ignore_case(a@, b@),
{
    if a.len() != b.len() {
        return false;
    }
    let mut i: usize = 0;
    while i < a.len()
        invariant
            i <= a@.len() == b@.len(),
            forall|k: int| 0 <= k < i ==> ascii_lower(a@[k]) == ascii_lower(b@[k]),
        decreases a@.len() - i,
    {
        if ascii_lower_exec(a[i]) != ascii_lower_exec(b[i]) {
            return false;
        }
        i = i + 1;
    }
    true
}

/// The bytes of `yes`.
pub open spec fn s_yes() -> Seq<u8> {
    seq![121u8, 101u8, 115u8]
}

/// The bytes of `on`.
pub open spec fn s_on() -> Seq<u8> {
    seq![111u8, 110u8]
}

/// The bytes of `true`.
pub open spec fn s_true() -> Seq<u8> {
    seq![116u8, 114u8, 117u8, 101u8]
}

/// The bytes of `one`.
pub open spec fn s_one() -> Seq<u8> {
    seq![111u8, 110u8, 101u8]
}

/// The bytes of `no`.
pub open spec fn s_no() -> Seq<u8> {
    seq![110u8, 111u8]
}

/// The bytes of `off`.
pub open spec fn s_off() -> Seq<u8> {
    seq![111u8, 102u8, 102u8]
}

/// The bytes of `false`.
pub open spec fn s_false() -> Seq<u8> {
    seq![102u8, 97u8, 108u8, 115u8, 101u8]
}

/// The bytes of `zero`.
pub open spec fn s_zero() -> Seq<u8> {
    seq![122u8, 101u8, 114u8, 111u8]
}

/// The two-byte string of a pair of double quotes.
pub open spec fn s_quote_pair() -> Seq<u8> {
    seq![34u8, 34u8]
}

/// True of the byte strings read as a truthy value: `yes`, `on`, `true` or
/// `one`, in any ASCII case.
pub open spec fn is_true_rep(s: Seq<u8>) -> bool {
    ||| eq_ignore_case(s, s_yes())
    ||| eq_ignore_case(s, s_on())
    ||| eq_ignore_case(s, s_true())
    ||| eq_ignore_case(s, s_one())
}

/// True of the byte strings read as a falsy value: `no`, `off`, `false` or
/// `zero` in any ASCII case, or a pair of double quotes.
pub open spec fn is_false_rep(s: Seq<u8>) -> bool {
    ||| eq_ignore_case(s, s_no())
    ||| eq_ignore_case(s, s_off())
    ||| eq_ignore_case(s, s_false())
    ||| eq_ignore_case(s, s_zero())
    ||| s == s_quote_pair()
}

/// Decide whether `s` is a truthy representation.
fn is_true_rep_exec(s: &[u8]) -> (r: bool)
    ensures
        r == is_true_rep(s@),
{
    let yes: Vec<u8> = vec![121, 101, 115];
    let on: Vec<u8> = vec![111, 110];
    let tru: Vec<u8> = vec![116, 114, 117, 101];
    let one: Vec<u8> = vec![111, 110, 101];
    proof {
        assert(yes@ =~= s_yes());
        assert(on@ =~= s_on());
        assert(tru@ =~= s_true());
        assert(one@ =~= s_one());
    }
    bytes_eq_ic(s, yes.as_slice()) || bytes_eq_ic(s, on.as_slice()) || bytes_eq_ic(
        s,
        tru.as_slice(),
    ) || bytes_eq_ic(s, one.as_slice())
}

/// Decide whether `s` is a falsy representation.
fn is_false_rep_exec(s: &[u8]) -> (r: bool)
    ensures
        r == is_false_rep(s@),
{
    let no: Vec<u8> = vec![110, 111];
    let off: Vec<u8> = vec![111, 102, 102];
    let fal: Vec<u8> = vec![102, 97, 108, 115, 101];
    let zero: Vec<u8> = vec![122, 101, 114, 111];
    let qq: Vec<u8> = vec![34, 34];
    proof {
        assert(no@ =~= s_no());
        assert(off@ =~= s_off());
        assert(fal@ =~= s_false());
        assert(zero@ =~= s_zero());
        assert(qq@ =~= s_quote_pair());
    }
    bytes_eq_ic(s, no.as_slice()) || bytes_eq_ic(s, off.as_slice()) || bytes_eq_ic(
        s,
        fal.as_slice(),
    ) || bytes_eq_ic(s, zero.as_slice()) || bytes_eq(s, qq.as_slice())
}

/// The quote-removal scan's state: `first` marks the byte after an opening
/// quote (0 when outside quotes), `last` the byte after the last closing
/// quote, `escaped` whether the previous byte was an unconsumed backslash,
/// and `out` what has been copied so far.
pub struct NormState {
    /// One past the opening quote while inside quotes; 0 outside.
    pub first: int,
    /// One past the last closing quote; 0 while none was seen.
    pub last: int,
    /// Whether the previous byte was a backslash still in effect.
    pub escaped: bool,
    /// The bytes copied out so far.
    pub out: Seq<u8>,
}

/// One step of the quote-removal scan over byte `i` of `s`: an escaped
/// quote drops its backslash and keeps the quote, an unescaped quote is
/// dropped and toggles the quote state, a backslash arms the escape,
/// anything else is kept.
pub open spec fn norm_step(s: Seq<u8>, i: int, st: NormState) -> NormState {
    let c = s[i];
    if st.escaped {
        if c == 34 {
            if st.first == 0 {
                NormState {
                    first: st.first,
                    last: i,
                    escaped: false,
                    out: st.out + s.subrange(st.last, i - 1),
                }
            } else {
                NormState {
                    first: i,
                    last: st.last,
                    escaped: false,
                    out: st.out + s.subrange(st.first, i - 1),
                }
            }
        } else {
            NormState { first: st.first, last: st.last, escaped: false, out: st.out }
        }
    } else if c == 92 {
        NormState { first: st.first, last: st.last, escaped: true, out: st.out }
    } else if c == 34 {
        if st.first == 0 {
            NormState {
                first: i + 1,
                last: st.last,
                escaped: false,
                out: st.out + s.subrange(st.last, i),
            }
        } else {
            NormState { first: 0, last: i + 1, escaped: false, out: st.out + s.subrange(st.first, i) }
        }
    } else {
        NormState { first: st.first, last: st.last, escaped: st.escaped, out: st.out }
    }
}

/// The quote-removal scan from byte `i` on.
pub open spec fn norm_loop(s: Seq<u8>, i: int, st: NormState) -> NormState
    decreases s.len() - i,
{
    if i < 0 || i >= s.len() {
        st
    } else {
        norm_loop(s, i + 1, norm_step(s, i, st))
    }
}

/// The quote-removal scan's starting state.
pub open spec fn norm_init() -> NormState {
    NormState { first: 0, last: 0, escaped: false, out: Seq::empty() }
}

/// What the quote-removal scan makes of `s`: the input itself when no
/// closing quote was ever recorded, else what was copied out plus the tail
/// after the last closing quote.
pub open spec fn norm_core(s: Seq<u8>) -> Seq<u8> {
    let f = norm_loop(s, 0, norm_init());
    if f.last == 0 {
        s
    } else {
        f.out + s.subrange(f.last, s.len() as int)
    }
}

/// True of a value wrapped in `=` signs whose closing sign is not escaped.
pub open spec fn is_eq_wrapped(s: Seq<u8>) -> bool {
    s.len() >= 3 && s[0] == 61 && s[s.len() - 1] == 61 && s[s.len() - 2] != 92
}

/// What normalizing a borrowed value yields: a bare quote pair becomes
/// empty, an `=`-wrapped value loses its leading sign and is normalized
/// again, anything else goes through the quote-removal scan.
pub open spec fn norm_borrowed(s: Seq<u8>) -> Seq<u8>
    decreases s.len(),
{
    if s == s_quote_pair() {
        Seq::empty()
    } else if is_eq_wrapped(s) {
        norm_borrowed(s.subrange(1, s.len() as int))
    } else {
        norm_core(s)
    }
}

/// What normalizing an owned value yields: as [`norm_borrowed`], except
/// that an `=`-wrapped value loses both its leading and its trailing sign
/// before it is normalized again.
pub open spec fn norm_owned(s: Seq<u8>) -> Seq<u8>
    decreases s.len(),
{
    if s == s_quote_pair() {
        Seq::empty()
    } else if is_eq_wrapped(s) {
        norm_owned(s.subrange(1, s.len() - 1))
    } else {
        norm_core(s)
    }
}

/// Append `s[lo..hi)` to `dst`.
fn push_range(dst: &mut Vec<u8>, s: &[u8], lo: usize, hi: usize)
    requires
        lo <= hi <= s@.len(),
    ensures
        final(dst)@ == old(dst)@ + s@.subrange(lo as int, hi as int),
{
    let mut k = lo;
    while k < hi
        invariant
            lo <= k <= hi <= s@.len(),
            dst@ =~= old(dst)@ + s@.subrange(lo as int, k as int),
        decreases hi - k,
    {
        dst.push(s[k]);
        proof {
            assert(dst@ =~= old(dst)@ + s@.subrange(lo as int, k as int + 1));
        }
        k = k + 1;
    }
    proof {
        assert(dst@ =~= old(dst)@ + s@.subrange(lo as int, hi as int));
    }
}

/// Run the quote-removal scan over `s`, as [`norm_core`] describes.
fn norm_core_exec(s: &[u8]) -> (r: Vec<u8>)
    ensures
        r@ == norm_core(s@),
{
    let mut owned: Vec<u8> = Vec::new();
    let mut first: usize = 0;
    let mut last: usize = 0;
    let mut escaped = false;
    let mut i: usize = 0;
    while i < s.len()
        invariant
            i <= s@.len(),
            first <= i,
            last <= i,
            escaped ==> i >= 1 && first <= i - 1 && last <= i - 1,
            norm_loop(s@, 0, norm_init()) == norm_loop(
                s@,
                i as int,
                NormState { first: first as int, last: last as int, escaped, out: owned@ },
            ),
        decreases s@.len() - i,
    {
        let ghost st = NormState { first: first as int, last: last as int, escaped, out: owned@ };
        let c = s[i];
        if escaped {
            escaped = false;
            if c == 34 {
                if first == 0 {
                    push_range(&mut owned, s, last, i - 1);
                    last = i;
                } else {
                    push_range(&mut owned, s, first, i - 1);
                    first = i;
                }
            }
        } else if c == 92 {
            escaped = true;
        } else if c == 34 {
            if first == 0 {
                push_range(&mut owned, s, last, i);
                first = i + 1;
            } else {
                push_range(&mut owned, s, first, i);
                first = 0;
                last = i + 1;
            }
        }
        proof {
            assert(NormState {
                first: first as int,
                last: last as int,
                escaped,
                out: owned@,
            } == norm_step(s@, i as int, st));
        }
        i = i + 1;
    }
    if last == 0 {
        vstd::slice::slice_to_vec(s)
    } else {
        push_range(&mut owned, s, last, s.len());
        owned
    }
}

/// Removes quotes, if any, from the provided input, unescaping escaped
/// quotes. The input is assumed to contain an even number of unescaped
/// quotes; what it holds after the last closing quote is kept as it stands.
///
/// This is the function used to normalize raw values from higher level
/// abstractions; most of them handle normalization for you. It yields what
/// [`norm_owned`] describes.
#[must_use]
pub fn normalize_cow(input: Vec<u8>) -> (r: Vec<u8>)
    ensures
        r@ == norm_owned(input@),
    decreases input@.len(),
{
    let qq: Vec<u8> = vec![34, 34];
    proof {
        assert(qq@ =~= s_quote_pair());
    }
    if bytes_eq(input.as_slice(), qq.as_slice()) {
        return Vec::new();
    }
    let n = input.len();
    if n >= 3 && input[0] == 61 && input[n - 1] == 61 && input[n - 2] != 92 {
        let inner = subvec_owned(input.as_slice(), 1, n - 1);
        return normalize_cow(inner);
    }
    norm_core_exec(input.as_slice())
}

/// `Vec<u8>` variant of [`normalize_cow`].
#[must_use]
pub fn normalize_vec(input: Vec<u8>) -> (r: Vec<u8>)
    ensures
        r@ == norm_owned(input@),
{
    normalize_cow(input)
}

/// `&[u8]` variant of [`normalize_cow`]: an `=`-wrapped value keeps its
/// trailing sign here, as [`norm_borrowed`] describes.
#[must_use]
pub fn normalize_bytes(input: &[u8]) -> (r: Vec<u8>)
    ensures
        r@ == norm_borrowed(input@),
    decreases input@.len(),
{
    let qq: Vec<u8> = vec![34, 34];
    proof {
        assert(qq@ =~= s_quote_pair());
    }
    if bytes_eq(input, qq.as_slice()) {
        return Vec::new();
    }
    let n = input.len();
    if n >= 3 && input[0] == 61 && input[n - 1] == 61 && input[n - 2] != 92 {
        return normalize_bytes(&input[1..n]);
    }
    norm_core_exec(input)
}

/// `&str` variant of [`normalize_cow`], over the string's bytes.
#[must_use]
pub fn normalize_str(input: &str) -> (r: Vec<u8>)
    ensures
        r@ == norm_borrowed(input.spec_bytes()),
{
    normalize_bytes(input.as_bytes())
}

/// Copy `s[lo..hi)` into an owned buffer.
fn subvec_owned(s: &[u8], lo: usize, hi: usize) -> (r: Vec<u8>)
    requires
        lo <= hi <= s@.len(),
    ensures
        r@ == s@.subrange(lo as int, hi as int),
{
    vstd::slice::slice_to_vec(&s[lo..hi])
}

/// Any string value.
#[derive(Debug)]
pub struct Bytes {
    /// The bytes themselves.
    pub value: Vec<u8>,
}

impl Bytes {
    /// Wrap a byte string.
    pub fn new(value: Vec<u8>) -> (r: Bytes)
        ensures
            r.value == value,
    {
        Bytes { value }
    }
}

/// Discriminating enum between implicit and explicit truthy values.
#[derive(Debug)]
pub enum TrueVariant {
    /// A spelled-out truthy value.
    Explicit(Vec<u8>),
    /// For values defined without an `= <value>`.
    Implicit,
}

impl TrueVariant {
    /// Read a byte string as a truthy value: a spelled-out one becomes
    /// `Explicit`, an empty one `Implicit`, anything else is refused.
    pub fn try_from(value: &[u8]) -> (r: Result<TrueVariant, ParseError>)
        ensures
            match r {
                Ok(TrueVariant::Explicit(v)) => is_true_rep(value@) && v@ == value@,
                Ok(TrueVariant::Implicit) => !is_true_rep(value@) && value@.len() == 0,
                Err(e) => !is_true_rep(value@) && value@.len() > 0 && e.input@ == value@,
            },
    {
        if is_true_rep_exec(value) {
            Ok(TrueVariant::Explicit(vstd::slice::slice_to_vec(value)))
        } else if value.len() == 0 {
            Ok(TrueVariant::Implicit)
        } else {
            Err(ParseError { input: vstd::slice::slice_to_vec(value) })
        }
    }

    /// The bytes this variant shows: the spelled-out value, or nothing.
    pub open spec fn bytes_model(&self) -> Seq<u8> {
        match self {
            TrueVariant::Explicit(v) => v@,
            TrueVariant::Implicit => Seq::empty(),
        }
    }

    /// The value's byte representation.
    pub fn to_vec(&self) -> (r: Vec<u8>)
        ensures
            r@ == self.bytes_model(),
    {
        match self {
            TrueVariant::Explicit(v) => vstd::slice::slice_to_vec(v.as_slice()),
            TrueVariant::Implicit => Vec::new(),
        }
    }
}

/// Any value that can be interpreted as a boolean.
///
/// While values can effectively be any byte string, only a strict subset is
/// read as a boolean, all of it ASCII.
#[derive(Debug)]
pub enum Boolean {
    /// A truthy value, spelled out or implicit.
    True(TrueVariant),
    /// A falsy value, as it was spelled.
    False(Vec<u8>),
}

impl Boolean {
    /// Read a byte string as a boolean: truthy spellings and the empty
    /// string are `True`, falsy spellings are `False`, anything else is
    /// refused.
    pub fn try_from(value: &[u8]) -> (r: Result<Boolean, ParseError>)
        ensures
            match r {
                Ok(Boolean::True(TrueVariant::Explicit(v))) => is_true_rep(value@) && v@ == value@,
                Ok(Boolean::True(TrueVariant::Implicit)) => !is_true_rep(value@) && value@.len()
                    == 0,
                Ok(Boolean::False(v)) => {
                    &&& !is_true_rep(value@)
                    &&& value@.len() > 0
                    &&& is_false_rep(value@)
                    &&& v@ == value@
                },
                Err(e) => {
                    &&& !is_true_rep(value@)
                    &&& !is_false_rep(value@)
                    &&& value@.len() > 0
                    &&& e.input@ == value@
                },
            },
    {
        match TrueVariant::try_from(value) {
            Ok(v) => Ok(Boolean::True(v)),
            Err(_) => {
                if is_false_rep_exec(value) {
                    Ok(Boolean::False(vstd::slice::slice_to_vec(value)))
                } else {
                    Err(ParseError { input: vstd::slice::slice_to_vec(value) })
                }
            },
        }
    }

    /// Return ourselves as plain bool.
    pub fn to_bool(&self) -> (r: bool)
        ensures
            r == (self is True),
    {
        match self {
            Boolean::True(_) => true,
            Boolean::False(_) => false,
        }
    }

    /// The bytes this boolean shows: the spelled-out value, or nothing for
    /// an implicit one.
    pub open spec fn bytes_model(&self) -> Seq<u8> {
        match self {
            Boolean::True(v) => v.bytes_model(),
            Boolean::False(v) => v@,
        }
    }

    /// Generate a byte representation of the value.
    pub fn to_vec(&self) -> (r: Vec<u8>)
        ensures
            r@ == self.bytes_model(),
    {
        match self {
            Boolean::True(v) => v.to_vec(),
            Boolean::False(v) => vstd::slice::slice_to_vec(v.as_slice()),
        }
    }

    /// Borrow the byte representation of the value.
    pub fn as_bytes(&self) -> (r: &[u8])
        ensures
            r@ == self.bytes_model(),
    {
        match self {
            Boolean::True(TrueVariant::Explicit(v)) => v.as_slice(),
            Boolean::True(TrueVariant::Implicit) => &[],
            Boolean::False(v) => v.as_slice(),
        }
    }
}

/// True when every byte of `s[i..j)` is a decimal digit.
pub open spec fn all_dec_digits(s: Seq<u8>, i: int, j: int) -> bool {
    forall|k: int| i <= k < j ==> 48 <= #[trigger] s[k] <= 57
}

/// The decimal value of the digit run `s[i..j)`.
pub open spec fn dec_value(s: Seq<u8>, i: int, j: int) -> int
    decreases j - i,
{
    if j <= i {
        0
    } else {
        dec_value(s, i, j - 1) * 10 + (s[j - 1] - 48)
    }
}

/// A digit run's value is not negative.
proof fn lemma_dec_nonneg(s: Seq<u8>, i: int, j: int)
    requires
        all_dec_digits(s, i, j),
    ensures
        dec_value(s, i, j) >= 0,
    decreases j - i,
{
    if j > i {
        lemma_dec_nonneg(s, i, j - 1);
    }
}

/// Extending a digit run to the right never shrinks its value.
proof fn lemma_dec_monotone(s: Seq<u8>, i: int, k: int, j: int)
    requires
        i <= k <= j,
        all_dec_digits(s, i, j),
    ensures
        dec_value(s, i, j) >= dec_value(s, i, k),
    decreases j - k,
{
    if j > k {
        lemma_dec_monotone(s, i, k, j - 1);
        lemma_dec_nonneg(s, i, j - 1);
    }
}

/// What reading `s` as a signed 64-bit decimal number yields: an optional
/// `+` or `-` followed by at least one digit, within the 64-bit signed
/// range.
pub open spec fn parse_i64_model(s: Seq<u8>) -> Option<int> {
    let neg = s.len() > 0 && s[0] == 45;
    let start: int = if s.len() > 0 && (s[0] == 45 || s[0] == 43) {
        1
    } else {
        0
    };
    let mag = dec_value(s, start, s.len() as int);
    if start < s.len() && all_dec_digits(s, start, s.len() as int) && mag <= 0x7fff_ffff_ffff_ffff
        + if neg {
        1int
    } else {
        0int
    } {
        Some(
            if neg {
                -mag
            } else {
                mag
            },
        )
    } else {
        None
    }
}

/// Read `s` as a signed 64-bit decimal number, as [`parse_i64_model`]
/// describes.
pub fn parse_i64(s: &[u8]) -> (r: Option<i64>)
    ensures
        match r {
            Some(v) => parse_i64_model(s@) == Some(v as int),
            None => parse_i64_model(s@) is None,
        },
{
    let n = s.len();
    let neg = n > 0 && s[0] == 45;
    let start: usize = if n > 0 && (s[0] == 45 || s[0] == 43) {
        1
    } else {
        0
    };
    if start >= n {
        return None;
    }
    let lim: u64 = if neg {
        0x8000_0000_0000_0000
    } else {
        0x7fff_ffff_ffff_ffff
    };
    let mut acc: u64 = 0;
    let mut k = start;
    while k < n
        invariant
            start <= k <= n == s@.len(),
            start < n,
            neg == (s@.len() > 0 && s@[0] == 45),
            start == if s@.len() > 0 && (s@[0] == 45 || s@[0] == 43) {
                1int
            } else {
                0int
            },
            lim == 0x7fff_ffff_ffff_ffff + if neg {
                1int
            } else {
                0int
            },
            all_dec_digits(s@, start as int, k as int),
            acc == dec_value(s@, start as int, k as int),
            acc <= lim,
        decreases n - k,
    {
        let b = s[k];
        if !(48 <= b && b <= 57) {
            proof {
                assert(!all_dec_digits(s@, start as int, n as int)) by {
                    assert(!(48 <= s@[k as int] <= 57));
                }
            }
            return None;
        }
        let d = (b - 48) as u64;
        if acc > (lim - d) / 10 {
            proof {
                assert(10 * ((lim - d) as int / 10) > (lim - d) - 10) by (nonlinear_arith);
                assert(dec_value(s@, start as int, k as int + 1) == 10 * acc + d);
                if all_dec_digits(s@, start as int, n as int) {
                    lemma_dec_monotone(s@, start as int, k as int + 1, n as int);
                    assert(dec_value(s@, start as int, n as int) > lim);
                }
            }
            return None;
        }
        proof {
            assert(10 * ((lim - d) as int / 10) <= (lim - d)) by (nonlinear_arith);
        }
        acc = acc * 10 + d;
        k = k + 1;
    }
    if neg {
        if acc == 0x8000_0000_0000_0000 {
            Some(i64::MIN)
        } else {
            Some(-(acc as i64))
        }
    } else {
        Some(acc as i64)
    }
}

/// The decimal digits of the value `m`, most significant first.
pub open spec fn dec_rep(m: int) -> Seq<u8>
    decreases m,
{
    if m < 10 {
        seq![(48 + if m >= 0 {
            m
        } else {
            0
        }) as u8]
    } else {
        dec_rep(m / 10).push((48 + m % 10) as u8)
    }
}

/// The decimal representation of the signed value `v`: a `-` for a negative
/// one, then its magnitude's digits.
pub open spec fn int_rep(v: int) -> Seq<u8> {
    if v < 0 {
        seq![45u8] + dec_rep(-v)
    } else {
        dec_rep(v)
    }
}

/// Write the value `m` in decimal, as [`dec_rep`] describes.
fn dec_rep_exec(m: u64) -> (r: Vec<u8>)
    ensures
        r@ == dec_rep(m as int),
{
    let mut digits: Vec<u8> = Vec::new();
    let mut x = m;
    while x >= 10
        invariant
            dec_rep(m as int) =~= dec_rep(x as int) + digits@.reverse(),
        decreases x,
    {
        let d = (x % 10) as u8;
        proof {
            assert(dec_rep(x as int) == dec_rep(x as int / 10).push((48 + x as int % 10) as u8));
            assert((dec_rep(x as int / 10) + (digits@.push((48 + d) as u8)).reverse()) =~= dec_rep(
                x as int,
            ) + digits@.reverse());
        }
        digits.push(48 + d);
        x = x / 10;
    }
    let mut out: Vec<u8> = Vec::new();
    out.push(48 + (x as u8));
    let mut i = digits.len();
    while i > 0
        invariant
            i <= digits@.len(),
            out@ =~= seq![(48 + x as int) as u8] + digits@.reverse().take(
                digits@.len() - i as int,
            ),
        decreases i,
    {
        proof {
            assert(digits@.reverse()[digits@.len() - i as int] == digits@[i - 1]);
        }
        out.push(digits[i - 1]);
        i = i - 1;
        proof {
            assert(out@ =~= seq![(48 + x as int) as u8] + digits@.reverse().take(
                digits@.len() - i as int,
            ));
        }
    }
    proof {
        assert(digits@.reverse().take(digits@.len() as int) =~= digits@.reverse());
        assert(out@ =~= dec_rep(m as int));
    }
    out
}

/// Integer prefixes that are supported: base-2 units of measurement.
#[derive(Debug, Clone, Copy, PartialEq, Eq, Structural)]
pub enum IntegerSuffix {
    /// Multiply by 1024.
    Kibi,
    /// Multiply by 1024 squared.
    Mebi,
    /// Multiply by 1024 cubed.
    Gibi,
}

/// The suffix a single byte names: `k`, `m` or `g` in either case.
pub open spec fn suffix_model(b: u8) -> Option<IntegerSuffix> {
    if b == 107 || b == 75 {
        Some(IntegerSuffix::Kibi)
    } else if b == 109 || b == 77 {
        Some(IntegerSuffix::Mebi)
    } else if b == 103 || b == 71 {
        Some(IntegerSuffix::Gibi)
    } else {
        None
    }
}

impl IntegerSuffix {
    /// Returns the number of bits that the suffix shifts left by.
    pub fn bitwise_offset(self) -> (r: usize)
        ensures
            r == match self {
                IntegerSuffix::Kibi => 10int,
                IntegerSuffix::Mebi => 20int,
                IntegerSuffix::Gibi => 30int,
            },
    {
        match self {
            IntegerSuffix::Kibi => 10,
            IntegerSuffix::Mebi => 20,
            IntegerSuffix::Gibi => 30,
        }
    }

    /// The factor this suffix multiplies a value by.
    pub open spec fn factor(self) -> int {
        match self {
            IntegerSuffix::Kibi => 1024int,
            IntegerSuffix::Mebi => 1024int * 1024,
            IntegerSuffix::Gibi => 1024int * 1024 * 1024,
        }
    }

    /// Read a byte string as a suffix: a single `k`, `m` or `g`, in either
    /// case.
    pub fn try_from(s: &[u8]) -> (r: Option<IntegerSuffix>)
        ensures
            r == if s@.len() == 1 {
                suffix_model(s@[0])
            } else {
                Option::<IntegerSuffix>::None
            },
    {
        if s.len() != 1 {
            return None;
        }
        let b = s[0];
        if b == 107 || b == 75 {
            Some(IntegerSuffix::Kibi)
        } else if b == 109 || b == 77 {
            Some(IntegerSuffix::Mebi)
        } else if b == 103 || b == 71 {
            Some(IntegerSuffix::Gibi)
        } else {
            None
        }
    }

    /// The letter this suffix shows.
    pub open spec fn letter(self) -> u8 {
        match self {
            IntegerSuffix::Kibi => 107u8,
            IntegerSuffix::Mebi => 109u8,
            IntegerSuffix::Gibi => 103u8,
        }
    }
}

/// What reading a byte string as a suffixed integer yields: the plain number
/// when the whole string parses, else the number in all but the last byte
/// with that byte read as a suffix.
pub open spec fn integer_model(s: Seq<u8>) -> Option<(int, Option<IntegerSuffix>)> {
    match parse_i64_model(s) {
        Some(v) => Some((v, None)),
        None => {
            if s.len() <= 1 {
                None
            } else {
                match (parse_i64_model(s.take(s.len() - 1)), suffix_model(s[s.len() - 1])) {
                    (Some(v), Some(x)) => Some((v, Some(x))),
                    _ => None,
                }
            }
        },
    }
}

/// Any value that can be interpreted as an integer.
///
/// This supports any numeric value that can fit in an `i64`, excluding the
/// suffix, which is parsed separately: to obtain the true value, account for
/// the suffix after fetching the value, as [`Integer::to_decimal`] does.
#[derive(Debug, Clone, Copy, PartialEq, Eq, Structural)]
pub struct Integer {
    /// The value, without any suffix modification.
    pub value: i64,
    /// A provided suffix, if any.
    pub suffix: Option<IntegerSuffix>,
}

impl Integer {
    /// Read a byte string as an integer with an optional binary-unit suffix,
    /// as [`integer_model`] describes.
    pub fn try_from(s: &[u8]) -> (r: Result<Integer, ParseError>)
        ensures
            match r {
                Ok(v) => integer_model(s@) == Some((v.value as int, v.suffix)),
                Err(e) => integer_model(s@) is None && e.input@ == s@,
            },
    {
        match parse_i64(s) {
            Some(value) => Ok(Integer { value, suffix: None }),
            None => {
                if s.len() <= 1 {
                    return Err(ParseError { input: vstd::slice::slice_to_vec(s) });
                }
                let number = &s[0..s.len() - 1];
                proof {
                    assert(number@ =~= s@.take(s@.len() - 1));
                }
                let suffix = &s[s.len() - 1..s.len()];
                match (parse_i64(number), IntegerSuffix::try_from(suffix)) {
                    (Some(value), Some(sfx)) => Ok(Integer { value, suffix: Some(sfx) }),
                    _ => Err(ParseError { input: vstd::slice::slice_to_vec(s) }),
                }
            },
        }
    }

    /// Canonicalize values as simple decimal numbers: a suffix of k, m or g
    /// multiplies the value by 1024, 1048576 or 1073741824. Returns the
    /// result unless the multiplication overflows.
    pub fn to_decimal(&self) -> (r: Option<i64>)
        ensures
            match self.suffix {
                None => r == Some(self.value),
                Some(sfx) => {
                    let m = self.value * sfx.factor();
                    if i64::MIN <= m <= i64::MAX {
                        r == Some(m as i64) && m == r->Some_0 as int
                    } else {
                        r is None
                    }
                },
            },
    {
        match self.suffix {
            None => Some(self.value),
            Some(suffix) => match suffix {
                IntegerSuffix::Kibi => self.value.checked_mul(1024),
                IntegerSuffix::Mebi => self.value.checked_mul(1024 * 1024),
                IntegerSuffix::Gibi => self.value.checked_mul(1024 * 1024 * 1024),
            },
        }
    }

    /// The bytes this integer shows: the value in decimal, then the
    /// suffix's letter if one is set.
    pub open spec fn bytes_model(&self) -> Seq<u8> {
        let num = int_rep(self.value as int);
        match self.suffix {
            None => num,
            Some(sfx) => num.push(sfx.letter()),
        }
    }

    /// Generate a byte representation of the value.
    pub fn to_vec(self) -> (r: Vec<u8>)
        ensures
            r@ == self.bytes_model(),
    {
        let mut out: Vec<u8> = Vec::new();
        let mag: u64 = if self.value < 0 {
            out.push(45);
            if self.value == i64::MIN {
                0x8000_0000_0000_0000
            } else {
                (-self.value) as u64
            }
        } else {
            self.value as u64
        };
        let mut digits = dec_rep_exec(mag);
        out.append(&mut digits);
        proof {
            assert(out@ =~= int_rep(self.value as int));
        }
        match self.suffix {
            None => (),
            Some(sfx) => {
                match sfx {
                    IntegerSuffix::Kibi => out.push(107),
                    IntegerSuffix::Mebi => out.push(109),
                    IntegerSuffix::Gibi => out.push(103),
                }
            },
        }
        out
    }
}

/// The bytes of `bright`.
pub open spec fn s_bright() -> Seq<u8> {
    seq![98u8, 114u8, 105u8, 103u8, 104u8, 116u8]
}

/// The bytes of `normal`.
pub open spec fn s_normal() -> Seq<u8> {
    seq![110u8, 111u8, 114u8, 109u8, 97u8, 108u8]
}

/// The bytes of `black`.
pub open spec fn s_black() -> Seq<u8> {
    seq![98u8, 108u8, 97u8, 99u8, 107u8]
}

/// The bytes of `red`.
pub open spec fn s_red() -> Seq<u8> {
    seq![114u8, 101u8, 100u8]
}

/// The bytes of `green`.
pub open spec fn s_green() -> Seq<u8> {
    seq![103u8, 114u8, 101u8, 101u8, 110u8]
}

/// The bytes of `yellow`.
pub open spec fn s_yellow() -> Seq<u8> {
    seq![121u8, 101u8, 108u8, 108u8, 111u8, 119u8]
}

/// The bytes of `blue`.
pub open spec fn s_blue() -> Seq<u8> {
    seq![98u8, 108u8, 117u8, 101u8]
}

/// The bytes of `magenta`.
pub open spec fn s_magenta() -> Seq<u8> {
    seq![109u8, 97u8, 103u8, 101u8, 110u8, 116u8, 97u8]
}

/// The bytes of `cyan`.
pub open spec fn s_cyan() -> Seq<u8> {
    seq![99u8, 121u8, 97u8, 110u8]
}

/// The bytes of `white`.
pub open spec fn s_white() -> Seq<u8> {
    seq![119u8, 104u8, 105u8, 116u8, 101u8]
}

/// The bytes of `bold`.
pub open spec fn s_bold() -> Seq<u8> {
    seq![98u8, 111u8, 108u8, 100u8]
}

/// The bytes of `dim`.
pub open spec fn s_dim() -> Seq<u8> {
    seq![100u8, 105u8, 109u8]
}

/// The bytes of `ul`.
pub open spec fn s_ul() -> Seq<u8> {
    seq![117u8, 108u8]
}

/// The bytes of `blink`.
pub open spec fn s_blink() -> Seq<u8> {
    seq![98u8, 108u8, 105u8, 110u8, 107u8]
}

/// The bytes of `reverse`.
pub open spec fn s_reverse() -> Seq<u8> {
    seq![114u8, 101u8, 118u8, 101u8, 114u8, 115u8, 101u8]
}

/// The bytes of `italic`.
pub open spec fn s_italic() -> Seq<u8> {
    seq![105u8, 116u8, 97u8, 108u8, 105u8, 99u8]
}

/// The bytes of `strike`.
pub open spec fn s_strike() -> Seq<u8> {
    seq![115u8, 116u8, 114u8, 105u8, 107u8, 101u8]
}

/// Discriminating enum for [`Color`] values: the eight standard colors,
/// their bright variants, an ANSI color code, or a 24-bit hex value
/// prefixed with an octothorpe.
#[derive(Debug, Clone, Copy, PartialEq, Eq, Structural)]
pub enum ColorValue {
    /// The terminal's normal color.
    Normal,
    /// Black.
    Black,
    /// Bright black.
    BrightBlack,
    /// Red.
    Red,
    /// Bright red.
    BrightRed,
    /// Green.
    Green,
    /// Bright green.
    BrightGreen,
    /// Yellow.
    Yellow,
    /// Bright yellow.
    BrightYellow,
    /// Blue.
    Blue,
    /// Bright blue.
    BrightBlue,
    /// Magenta.
    Magenta,
    /// Bright magenta.
    BrightMagenta,
    /// Cyan.
    Cyan,
    /// Bright cyan.
    BrightCyan,
    /// White.
    White,
    /// Bright white.
    BrightWhite,
    /// An ANSI color code.
    Ansi(u8),
    /// A 24-bit color.
    Rgb(u8, u8, u8),
}

/// What reading a byte string as an ANSI color code yields: an optional `+`
/// followed by at least one decimal digit, within a byte's range.
pub open spec fn ansi_model(s: Seq<u8>) -> Option<int> {
    let start: int = if s.len() > 0 && s[0] == 43 {
        1
    } else {
        0
    };
    if start < s.len() && all_dec_digits(s, start, s.len() as int) && dec_value(
        s,
        start,
        s.len() as int,
    ) <= 255 {
        Some(dec_value(s, start, s.len() as int))
    } else {
        None
    }
}

/// What reading the two bytes `a`, `b` as a hexadecimal pair yields: two hex
/// digits, or a `+` followed by one.
pub open spec fn hex_pair_model(a: u8, b: u8) -> Option<int> {
    if a == 43 {
        if crate::is_hex_digit(b) {
            Some(crate::hex_value(b) as int)
        } else {
            None
        }
    } else if crate::is_hex_digit(a) && crate::is_hex_digit(b) {
        Some(16 * crate::hex_value(a) + crate::hex_value(b))
    } else {
        None
    }
}

/// What reading a byte string as a color value yields. A `bright` prefix is
/// stripped first; the remainder is matched against the color names — with
/// `normal` refusing the prefix — then read as an ANSI code, then as
/// `#rrggbb`.
pub open spec fn color_value_model(s: Seq<u8>) -> Option<ColorValue> {
    let bright = s.len() >= 6 && s.subrange(0, 6) == s_bright();
    let t = if bright {
        s.skip(6)
    } else {
        s
    };
    if t == s_normal() {
        if bright {
            None
        } else {
            Some(ColorValue::Normal)
        }
    } else if t == s_black() {
        Some(
            if bright {
                ColorValue::BrightBlack
            } else {
                ColorValue::Black
            },
        )
    } else if t == s_red() {
        Some(
            if bright {
                ColorValue::BrightRed
            } else {
                ColorValue::Red
            },
        )
    } else if t == s_green() {
        Some(
            if bright {
                ColorValue::BrightGreen
            } else {
                ColorValue::Green
            },
        )
    } else if t == s_yellow() {
        Some(
            if bright {
                ColorValue::BrightYellow
            } else {
                ColorValue::Yellow
            },
        )
    } else if t == s_blue() {
        Some(
            if bright {
                ColorValue::BrightBlue
            } else {
                ColorValue::Blue
            },
        )
    } else if t == s_magenta() {
        Some(
            if bright {
                ColorValue::BrightMagenta
            } else {
                ColorValue::Magenta
            },
        )
    } else if t == s_cyan() {
        Some(
            if bright {
                ColorValue::BrightCyan
            } else {
                ColorValue::Cyan
            },
        )
    } else if t == s_white() {
        Some(
            if bright {
                ColorValue::BrightWhite
            } else {
                ColorValue::White
            },
        )
    } else if ansi_model(t) is Some {
        Some(ColorValue::Ansi(ansi_model(t)->Some_0 as u8))
    } else if t.len() == 7 && t[0] == 35 && hex_pair_model(t[1], t[2]) is Some && hex_pair_model(
        t[3],
        t[4],
    ) is Some && hex_pair_model(t[5], t[6]) is Some {
        Some(
            ColorValue::Rgb(
                hex_pair_model(t[1], t[2])->Some_0 as u8,
                hex_pair_model(t[3], t[4])->Some_0 as u8,
                hex_pair_model(t[5], t[6])->Some_0 as u8,
            ),
        )
    } else {
        None
    }
}

/// Discriminating enum for [`Color`] attributes: modifiers and their
/// negators, the latter spelled with a `no` or `no-` prefix.
#[derive(Debug, Clone, Copy, PartialEq, Eq, Structural)]
pub enum ColorAttribute {
    /// Bold text.
    Bold,
    /// Not bold.
    NoBold,
    /// Dim text.
    Dim,
    /// Not dim.
    NoDim,
    /// Underlined text.
    Ul,
    /// Not underlined.
    NoUl,
    /// Blinking text.
    Blink,
    /// Not blinking.
    NoBlink,
    /// Reversed colors.
    Reverse,
    /// Not reversed.
    NoReverse,
    /// Italic text.
    Italic,
    /// Not italic.
    NoItalic,
    /// Struck-through text.
    Strike,
    /// Not struck through.
    NoStrike,
}

/// What reading a byte string as a color attribute yields. A `no` prefix,
/// with an optional dash after it, negates the attribute it precedes.
pub open spec fn color_attr_model(s: Seq<u8>) -> Option<ColorAttribute> {
    let inverted = s.len() >= 2 && s.subrange(0, 2) == s_no();
    let t1 = if inverted {
        s.skip(2)
    } else {
        s
    };
    let t = if inverted && t1.len() >= 1 && t1[0] == 45 {
        t1.skip(1)
    } else {
        t1
    };
    if t == s_bold() {
        Some(
            if inverted {
                ColorAttribute::NoBold
            } else {
                ColorAttribute::Bold
            },
        )
    } else if t == s_dim() {
        Some(
            if inverted {
                ColorAttribute::NoDim
            } else {
                ColorAttribute::Dim
            },
        )
    } else if t == s_ul() {
        Some(
            if inverted {
                ColorAttribute::NoUl
            } else {
                ColorAttribute::Ul
            },
        )
    } else if t == s_blink() {
        Some(
            if inverted {
                ColorAttribute::NoBlink
            } else {
                ColorAttribute::Blink
            },
        )
    } else if t == s_reverse() {
        Some(
            if inverted {
                ColorAttribute::NoReverse
            } else {
                ColorAttribute::Reverse
            },
        )
    } else if t == s_italic() {
        Some(
            if inverted {
                ColorAttribute::NoItalic
            } else {
                ColorAttribute::Italic
            },
        )
    } else if t == s_strike() {
        Some(
            if inverted {
                ColorAttribute::NoStrike
            } else {
                ColorAttribute::Strike
            },
        )
    } else {
        None
    }
}

impl ColorValue {
    /// Read a byte string as a color value, as [`color_value_model`]
    /// describes.
    pub fn from_bytes(s: &[u8]) -> (r: Option<ColorValue>)
        ensures
            r == color_value_model(s@),
    {
        let bright_lit: Vec<u8> = vec![98, 114, 105, 103, 104, 116];
        proof {
            assert(bright_lit@ =~= s_bright());
        }
        let bright = s.len() >= 6 && bytes_eq(&s[0..6], bright_lit.as_slice());
        let t: &[u8] = if bright {
            &s[6..s.len()]
        } else {
            s
        };
        proof {
            if bright {
                assert(t@ =~= s@.skip(6));
            }
        }
        let normal: Vec<u8> = vec![110, 111, 114, 109, 97, 108];
        let black: Vec<u8> = vec![98, 108, 97, 99, 107];
        let red: Vec<u8> = vec![114, 101, 100];
        let green: Vec<u8> = vec![103, 114, 101, 101, 110];
        let yellow: Vec<u8> = vec![121, 101, 108, 108, 111, 119];
        let blue: Vec<u8> = vec![98, 108, 117, 101];
        let magenta: Vec<u8> = vec![109, 97, 103, 101, 110, 116, 97];
        let cyan: Vec<u8> = vec![99, 121, 97, 110];
        let white: Vec<u8> = vec![119, 104, 105, 116, 101];
        proof {
            assert(normal@ =~= s_normal());
            assert(black@ =~= s_black());
            assert(red@ =~= s_red());
            assert(green@ =~= s_green());
            assert(yellow@ =~= s_yellow());
            assert(blue@ =~= s_blue());
            assert(magenta@ =~= s_magenta());
            assert(cyan@ =~= s_cyan());
            assert(white@ =~= s_white());
        }
        if bytes_eq(t, normal.as_slice()) {
            if bright {
                return None;
            }
            return Some(ColorValue::Normal);
        }
        if bytes_eq(t, black.as_slice()) {
            return Some(
                if bright {
                    ColorValue::BrightBlack
                } else {
                    ColorValue::Black
                },
            );
        }
        if bytes_eq(t, red.as_slice()) {
            return Some(
                if bright {
                    ColorValue::BrightRed
                } else {
                    ColorValue::Red
                },
            );
        }
        if bytes_eq(t, green.as_slice()) {
            return Some(
                if bright {
                    ColorValue::BrightGreen
                } else {
                    ColorValue::Green
                },
            );
        }
        if bytes_eq(t, yellow.as_slice()) {
            return Some(
                if bright {
                    ColorValue::BrightYellow
                } else {
                    ColorValue::Yellow
                },
            );
        }
        if bytes_eq(t, blue.as_slice()) {
            return Some(
                if bright {
                    ColorValue::BrightBlue
                } else {
                    ColorValue::Blue
                },
            );
        }
        if bytes_eq(t, magenta.as_slice()) {
            return Some(
                if bright {
                    ColorValue::BrightMagenta
                } else {
                    ColorValue::Magenta
                },
            );
        }
        if bytes_eq(t, cyan.as_slice()) {
            return Some(
                if bright {
                    ColorValue::BrightCyan
                } else {
                    ColorValue::Cyan
                },
            );
        }
        if bytes_eq(t, white.as_slice()) {
            return Some(
                if bright {
                    ColorValue::BrightWhite
                } else {
                    ColorValue::White
                },
            );
        }
        match parse_ansi(t) {
            Some(v) => {
                return Some(ColorValue::Ansi(v));
            },
            None => (),
        }
        if t.len() == 7 && t[0] == 35 {
            match (hex_pair(t[1], t[2]), hex_pair(t[3], t[4]), hex_pair(t[5], t[6])) {
                (Some(r), Some(g), Some(b)) => {
                    return Some(ColorValue::Rgb(r, g, b));
                },
                _ => (),
            }
        }
        None
    }
}

/// Read a byte string as an ANSI color code, as [`ansi_model`] describes.
fn parse_ansi(s: &[u8]) -> (r: Option<u8>)
    ensures
        match r {
            Some(v) => ansi_model(s@) == Some(v as int),
            None => ansi_model(s@) is None,
        },
{
    let n = s.len();
    let start: usize = if n > 0 && s[0] == 43 {
        1
    } else {
        0
    };
    if start >= n {
        return None;
    }
    let mut acc: u32 = 0;
    let mut k = start;
    while k < n
        invariant
            start <= k <= n == s@.len(),
            start < n,
            start == if s@.len() > 0 && s@[0] == 43 {
                1int
            } else {
                0int
            },
            all_dec_digits(s@, start as int, k as int),
            acc == dec_value(s@, start as int, k as int),
            acc <= 255,
        decreases n - k,
    {
        let b = s[k];
        if !(48 <= b && b <= 57) {
            proof {
                assert(!all_dec_digits(s@, start as int, n as int)) by {
                    assert(!(48 <= s@[k as int] <= 57));
                }
            }
            return None;
        }
        let d = (b - 48) as u32;
        if acc * 10 + d > 255 {
            proof {
                assert(dec_value(s@, start as int, k as int + 1) == 10 * acc + d);
                if all_dec_digits(s@, start as int, n as int) {
                    lemma_dec_monotone(s@, start as int, k as int + 1, n as int);
                }
            }
            return None;
        }
        acc = acc * 10 + d;
        k = k + 1;
    }
    Some(acc as u8)
}

/// Read two bytes as a hexadecimal pair, as [`hex_pair_model`] describes.
fn hex_pair(a: u8, b: u8) -> (r: Option<u8>)
    ensures
        match r {
            Some(v) => hex_pair_model(a, b) == Some(v as int),
            None => hex_pair_model(a, b) is None,
        },
{
    if a == 43 {
        if crate::byte_is_hex_digit(b) {
            Some(hex_value_exec(b))
        } else {
            None
        }
    } else if crate::byte_is_hex_digit(a) && crate::byte_is_hex_digit(b) {
        Some(16 * hex_value_exec(a) + hex_value_exec(b))
    } else {
        None
    }
}

/// Numeric value of a hexadecimal digit byte.
fn hex_value_exec(b: u8) -> (r: u8)
    requires
        crate::is_hex_digit(b),
    ensures
        r == crate::hex_value(b),
        r <= 15,
{
    if 48 <= b && b <= 57 {
        b - 48
    } else if 97 <= b && b <= 102 {
        b - 97 + 10
    } else {
        b - 65 + 10
    }
}

impl ColorAttribute {
    /// Read a byte string as a color attribute, as [`color_attr_model`]
    /// describes.
    pub fn from_bytes(s: &[u8]) -> (r: Option<ColorAttribute>)
        ensures
            r == color_attr_model(s@),
    {
        let no: Vec<u8> = vec![110, 111];
        proof {
            assert(no@ =~= s_no());
        }
        let inverted = s.len() >= 2 && bytes_eq(&s[0..2], no.as_slice());
        let t1: &[u8] = if inverted {
            &s[2..s.len()]
        } else {
            s
        };
        proof {
            if inverted {
                assert(t1@ =~= s@.skip(2));
            }
        }
        let t: &[u8] = if inverted && t1.len() >= 1 && t1[0] == 45 {
            &t1[1..t1.len()]
        } else {
            t1
        };
        proof {
            if inverted && t1@.len() >= 1 && t1@[0] == 45 {
                assert(t@ =~= t1@.skip(1));
            }
        }
        let bold: Vec<u8> = vec![98, 111, 108, 100];
        let dim: Vec<u8> = vec![100, 105, 109];
        let ul: Vec<u8> = vec![117, 108];
        let blink: Vec<u8> = vec![98, 108, 105, 110, 107];
        let reverse: Vec<u8> = vec![114, 101, 118, 101, 114, 115, 101];
        let italic: Vec<u8> = vec![105, 116, 97, 108, 105, 99];
        let strike: Vec<u8> = vec![115, 116, 114, 105, 107, 101];
        proof {
            assert(bold@ =~= s_bold());
            assert(dim@ =~= s_dim());
            assert(ul@ =~= s_ul());
            assert(blink@ =~= s_blink());
            assert(reverse@ =~= s_reverse());
            assert(italic@ =~= s_italic());
            assert(strike@ =~= s_strike());
        }
        if bytes_eq(t, bold.as_slice()) {
            Some(
                if inverted {
                    ColorAttribute::NoBold
                } else {
                    ColorAttribute::Bold
                },
            )
        } else if bytes_eq(t, dim.as_slice()) {
            Some(
                if inverted {
                    ColorAttribute::NoDim
                } else {
                    ColorAttribute::Dim
                },
            )
        } else if bytes_eq(t, ul.as_slice()) {
            Some(
                if inverted {
                    ColorAttribute::NoUl
                } else {
                    ColorAttribute::Ul
                },
            )
        } else if bytes_eq(t, blink.as_slice()) {
            Some(
                if inverted {
                    ColorAttribute::NoBlink
                } else {
                    ColorAttribute::Blink
                },
            )
        } else if bytes_eq(t, reverse.as_slice()) {
            Some(
                if inverted {
                    ColorAttribute::NoReverse
                } else {
                    ColorAttribute::Reverse
                },
            )
        } else if bytes_eq(t, italic.as_slice()) {
            Some(
                if inverted {
                    ColorAttribute::NoItalic
                } else {
                    ColorAttribute::Italic
                },
            )
        } else if bytes_eq(t, strike.as_slice()) {
            Some(
                if inverted {
                    ColorAttribute::NoStrike
                } else {
                    ColorAttribute::Strike
                },
            )
        } else {
            None
        }
    }
}

/// True when `s` starts with `t`.
pub open spec fn starts_with_bytes(s: Seq<u8>, t: Seq<u8>) -> bool {
    s.len() >= t.len() && s.subrange(0, t.len() as int) == t
}

/// The bytes of the installation-prefix marker `%(prefix)/`.
pub open spec fn s_prefix_marker() -> Seq<u8> {
    seq![37u8, 40u8, 112u8, 114u8, 101u8, 102u8, 105u8, 120u8, 41u8, 47u8]
}

/// Position of the first `/` at or after `i`.
pub open spec fn first_slash_from(s: Seq<u8>, i: int) -> Option<int>
    decreases s.len() - i,
{
    if i < 0 || i >= s.len() {
        None
    } else if s[i] == 47 {
        Some(i)
    } else {
        first_slash_from(s, i + 1)
    }
}

/// How a path value wants to be interpolated into a file system path. The
/// lookups themselves — the installation prefix, the home directory, a
/// user's passwd entry — are the caller's to perform.
#[derive(Debug)]
pub enum InterpolatePlan {
    /// The path value is empty; there is nothing to interpolate.
    Missing,
    /// `%(prefix)/<path>`: resolve `path` against the installation prefix.
    Prefix {
        /// What followed the marker.
        path: Vec<u8>,
    },
    /// `~/<path>`: resolve `path` against the current user's home directory.
    Home {
        /// What followed the `~/`.
        path: Vec<u8>,
    },
    /// `~<user>/<path>`: resolve `path` against that user's home directory.
    User {
        /// The user whose home directory to look up.
        user: Vec<u8>,
        /// What followed the slash after the user name.
        path: Vec<u8>,
    },
    /// Any other path value is taken as it stands.
    Plain,
}

/// Any value that can be interpreted as a file path, modeled as a byte
/// string, un-interpolated.
#[derive(Debug)]
pub struct Path {
    /// The path's bytes.
    pub value: Vec<u8>,
}

impl Path {
    /// Decide how this path wants to be interpolated: an empty value is
    /// missing, `%(prefix)/` asks for the installation prefix, `~/` for the
    /// current user's home, `~user/` for another user's home, and everything
    /// else stands as it is.
    pub fn interpolate_plan(&self) -> (r: InterpolatePlan)
        ensures
            ({
                let s = self.value@;
                match r {
                    InterpolatePlan::Missing => s.len() == 0,
                    InterpolatePlan::Prefix { path } => {
                        &&& s.len() > 0
                        &&& starts_with_bytes(s, s_prefix_marker())
                        &&& path@ == s.subrange(10, s.len() as int)
                    },
                    InterpolatePlan::Home { path } => {
                        &&& s.len() > 0
                        &&& !starts_with_bytes(s, s_prefix_marker())
                        &&& starts_with_bytes(s, seq![126u8, 47u8])
                        &&& path@ == s.subrange(2, s.len() as int)
                    },
                    InterpolatePlan::User { user, path } => {
                        &&& s.len() > 0
                        &&& !starts_with_bytes(s, s_prefix_marker())
                        &&& !starts_with_bytes(s, seq![126u8, 47u8])
                        &&& s[0] == 126
                        &&& first_slash_from(s, 1) is Some
                        &&& user@ == s.subrange(1, first_slash_from(s, 1)->Some_0)
                        &&& path@ == s.subrange(first_slash_from(s, 1)->Some_0 + 1, s.len() as int)
                    },
                    InterpolatePlan::Plain => {
                        &&& s.len() > 0
                        &&& !starts_with_bytes(s, s_prefix_marker())
                        &&& !starts_with_bytes(s, seq![126u8, 47u8])
                        &&& !(s[0] == 126 && first_slash_from(s, 1) is Some)
                    },
                }
            }),
    {
        let s = self.value.as_slice();
        let n = s.len();
        if n == 0 {
            return InterpolatePlan::Missing;
        }
        let marker: Vec<u8> = vec![37, 40, 112, 114, 101, 102, 105, 120, 41, 47];
        proof {
            assert(marker@ =~= s_prefix_marker());
        }
        if n >= 10 && bytes_eq(&s[0..10], marker.as_slice()) {
            return InterpolatePlan::Prefix { path: subvec_owned(s, 10, n) };
        }
        proof {
            if starts_with_bytes(s@, s_prefix_marker()) {
                assert(s@.subrange(0, 10) == s_prefix_marker());
            }
        }
        if n >= 2 && s[0] == 126 && s[1] == 47 {
            proof {
                assert(s@.subrange(0, 2) =~= seq![126u8, 47u8]);
            }
            return InterpolatePlan::Home { path: subvec_owned(s, 2, n) };
        }
        proof {
            if starts_with_bytes(s@, seq![126u8, 47u8]) {
                assert(s@.subrange(0, 2)[0] == s@[0] && s@.subrange(0, 2)[1] == s@[1]);
                assert(false);
            }
        }
        if s[0] == 126 {
            let mut k: usize = 1;
            while k < n
                invariant
                    1 <= k <= n == s@.len(),
                    s@ == self.value@,
                    first_slash_from(s@, 1) == first_slash_from(s@, k as int),
                    s@[0] == 126,
                    !starts_with_bytes(s@, s_prefix_marker()),
                    !starts_with_bytes(s@, seq![126u8, 47u8]),
                decreases n - k,
            {
                if s[k] == 47 {
                    return InterpolatePlan::User {
                        user: subvec_owned(s, 1, k),
                        path: subvec_owned(s, k + 1, n),
                    };
                }
                k = k + 1;
            }
            return InterpolatePlan::Plain;
        }
        InterpolatePlan::Plain
    }
}

/// The ASCII whitespace bytes that separate color tokens.
pub open spec fn is_space(b: u8) -> bool {
    b == 32 || (9 <= b && b <= 13)
}

/// Position of the first non-whitespace byte at or after `i`, or the end.
pub open spec fn skip_ws(s: Seq<u8>, i: int) -> int
    decreases s.len() - i,
{
    if i < 0 || i >= s.len() {
        s.len() as int
    } else if !is_space(s[i]) {
        i
    } else {
        skip_ws(s, i + 1)
    }
}

/// Position of the first whitespace byte at or after `i`, or the end.
pub open spec fn token_end(s: Seq<u8>, i: int) -> int
    decreases s.len() - i,
{
    if i < 0 || i >= s.len() || is_space(s[i]) {
        i
    } else {
        token_end(s, i + 1)
    }
}

/// `skip_ws` lands within bounds, on a non-whitespace byte unless at the
/// end, with only whitespace before it.
pub proof fn lemma_skip_ws(s: Seq<u8>, i: int)
    requires
        0 <= i <= s.len(),
    ensures
        i <= skip_ws(s, i) <= s.len(),
        skip_ws(s, i) < s.len() ==> !is_space(s[skip_ws(s, i)]),
        forall|k: int| i <= k < skip_ws(s, i) ==> is_space(s[k]),
    decreases s.len() - i,
{
    if i < s.len() && is_space(s[i]) {
        lemma_skip_ws(s, i + 1);
    }
}

/// `token_end` lands within bounds, on a whitespace byte unless at the end,
/// with no whitespace before it.
pub proof fn lemma_token_end(s: Seq<u8>, i: int)
    requires
        0 <= i <= s.len(),
    ensures
        i <= token_end(s, i) <= s.len(),
        token_end(s, i) < s.len() ==> is_space(s[token_end(s, i)]),
        forall|k: int| i <= k < token_end(s, i) ==> !is_space(s[k]),
    decreases s.len() - i,
{
    if i < s.len() && !is_space(s[i]) {
        lemma_token_end(s, i + 1);
    }
}

/// Reading the whitespace-separated tokens of `s` from position `i` on, each
/// as a color value or else a color attribute: values fill the foreground
/// and then the background, attributes accumulate; a third value or an
/// unreadable token fails the whole read.
pub open spec fn color_fold(
    s: Seq<u8>,
    i: int,
    fg: Option<ColorValue>,
    bg: Option<ColorValue>,
    attrs: Seq<ColorAttribute>,
) -> Option<(Option<ColorValue>, Option<ColorValue>, Seq<ColorAttribute>)>
    decreases s.len() - i,
    via color_fold_decreases
{
    let a = skip_ws(s, i);
    if i < 0 || a >= s.len() {
        Some((fg, bg, attrs))
    } else {
        let b = token_end(s, a);
        let t = s.subrange(a, b);
        match color_value_model(t) {
            Some(v) => if fg is None {
                color_fold(s, b, Some(v), bg, attrs)
            } else if bg is None {
                color_fold(s, b, fg, Some(v), attrs)
            } else {
                None
            },
            None => match color_attr_model(t) {
                Some(at) => color_fold(s, b, fg, bg, attrs.push(at)),
                None => None,
            },
        }
    }
}

#[via_fn]
proof fn color_fold_decreases(
    s: Seq<u8>,
    i: int,
    fg: Option<ColorValue>,
    bg: Option<ColorValue>,
    attrs: Seq<ColorAttribute>,
) {
    if 0 <= i <= s.len() {
        lemma_skip_ws(s, i);
        let a = skip_ws(s, i);
        if a < s.len() {
            lemma_token_end(s, a);
        }
    }
}

/// What reading a whole byte string as a color yields.
pub open spec fn color_model(s: Seq<u8>) -> Option<
    (Option<ColorValue>, Option<ColorValue>, Seq<ColorAttribute>),
> {
    color_fold(s, 0, None, None, Seq::empty())
}

/// Find the first non-whitespace byte at or after `i`.
fn skip_ws_exec(s: &[u8], i: usize) -> (r: usize)
    requires
        i <= s@.len(),
    ensures
        r == skip_ws(s@, i as int),
        i <= r <= s@.len(),
{
    let mut k = i;
    while k < s.len()
        invariant
            i <= k <= s@.len(),
            skip_ws(s@, i as int) == skip_ws(s@, k as int),
        decreases s@.len() - k,
    {
        let b = s[k];
        if !(b == 32 || (9 <= b && b <= 13)) {
            return k;
        }
        k = k + 1;
    }
    k
}

/// Find the first whitespace byte at or after `i`.
fn token_end_exec(s: &[u8], i: usize) -> (r: usize)
    requires
        i <= s@.len(),
    ensures
        r == token_end(s@, i as int),
        i <= r <= s@.len(),
{
    let mut k = i;
    while k < s.len()
        invariant
            i <= k <= s@.len(),
            token_end(s@, i as int) == token_end(s@, k as int),
        decreases s@.len() - k,
    {
        let b = s[k];
        if b == 32 || (9 <= b && b <= 13) {
            return k;
        }
        k = k + 1;
    }
    k
}

/// A lower-case hexadecimal digit for the value `d`.
pub open spec fn lower_hex_digit(d: int) -> u8 {
    if d < 10 {
        (48 + d) as u8
    } else {
        (87 + d) as u8
    }
}

/// The two lower-case hexadecimal digits of a byte.
pub open spec fn hex2(b: u8) -> Seq<u8> {
    seq![lower_hex_digit(b as int / 16), lower_hex_digit(b as int % 16)]
}

/// The bytes a color value shows: its name, an ANSI code in decimal, or a
/// 24-bit value as `#` and six lower-case hexadecimal digits.
pub open spec fn color_value_rep(v: ColorValue) -> Seq<u8> {
    match v {
        ColorValue::Normal => s_normal(),
        ColorValue::Black => s_black(),
        ColorValue::BrightBlack => s_bright() + s_black(),
        ColorValue::Red => s_red(),
        ColorValue::BrightRed => s_bright() + s_red(),
        ColorValue::Green => s_green(),
        ColorValue::BrightGreen => s_bright() + s_green(),
        ColorValue::Yellow => s_yellow(),
        ColorValue::BrightYellow => s_bright() + s_yellow(),
        ColorValue::Blue => s_blue(),
        ColorValue::BrightBlue => s_bright() + s_blue(),
        ColorValue::Magenta => s_magenta(),
        ColorValue::BrightMagenta => s_bright() + s_magenta(),
        ColorValue::Cyan => s_cyan(),
        ColorValue::BrightCyan => s_bright() + s_cyan(),
        ColorValue::White => s_white(),
        ColorValue::BrightWhite => s_bright() + s_white(),
        ColorValue::Ansi(n) => dec_rep(n as int),
        ColorValue::Rgb(r, g, b) => seq![35u8] + hex2(r) + hex2(g) + hex2(b),
    }
}

/// The bytes a color attribute shows: its name, with `no` before it for a
/// negated one.
pub open spec fn color_attr_rep(at: ColorAttribute) -> Seq<u8> {
    match at {
        ColorAttribute::Bold => s_bold(),
        ColorAttribute::NoBold => s_no() + s_bold(),
        ColorAttribute::Dim => s_dim(),
        ColorAttribute::NoDim => s_no() + s_dim(),
        ColorAttribute::Ul => s_ul(),
        ColorAttribute::NoUl => s_no() + s_ul(),
        ColorAttribute::Blink => s_blink(),
        ColorAttribute::NoBlink => s_no() + s_blink(),
        ColorAttribute::Reverse => s_reverse(),
        ColorAttribute::NoReverse => s_no() + s_reverse(),
        ColorAttribute::Italic => s_italic(),
        ColorAttribute::NoItalic => s_no() + s_italic(),
        ColorAttribute::Strike => s_strike(),
        ColorAttribute::NoStrike => s_no() + s_strike(),
    }
}

/// The bytes a run of attributes shows: each preceded by a space.
pub open spec fn attrs_rep(a: Seq<ColorAttribute>) -> Seq<u8>
    decreases a.len(),
{
    if a.len() == 0 {
        Seq::empty()
    } else {
        attrs_rep(a.drop_last()) + seq![32u8] + color_attr_rep(a.last())
    }
}

/// The bytes a color shows: the foreground if any, a space, the background
/// if any, then each attribute after a space.
pub open spec fn color_rep(
    fg: Option<ColorValue>,
    bg: Option<ColorValue>,
    attrs: Seq<ColorAttribute>,
) -> Seq<u8> {
    (match fg {
        Some(v) => color_value_rep(v),
        None => Seq::empty(),
    }) + seq![32u8] + (match bg {
        Some(v) => color_value_rep(v),
        None => Seq::empty(),
    }) + attrs_rep(attrs)
}

/// Append a color value's bytes to `out`.
fn push_color_value(out: &mut Vec<u8>, v: ColorValue)
    ensures
        final(out)@ == old(out)@ + color_value_rep(v),
{
    let (bright, base): (bool, ColorValue) = match v {
        ColorValue::BrightBlack => (true, ColorValue::Black),
        ColorValue::BrightRed => (true, ColorValue::Red),
        ColorValue::BrightGreen => (true, ColorValue::Green),
        ColorValue::BrightYellow => (true, ColorValue::Yellow),
        ColorValue::BrightBlue => (true, ColorValue::Blue),
        ColorValue::BrightMagenta => (true, ColorValue::Magenta),
        ColorValue::BrightCyan => (true, ColorValue::Cyan),
        ColorValue::BrightWhite => (true, ColorValue::White),
        other => (false, other),
    };
    if bright {
        let mut b: Vec<u8> = vec![98, 114, 105, 103, 104, 116];
        proof {
            assert(b@ =~= s_bright());
        }
        out.append(&mut b);
    }
    match base {
        ColorValue::Normal => {
            let mut b: Vec<u8> = vec![110, 111, 114, 109, 97, 108];
            proof {
                assert(b@ =~= s_normal());
            }
            out.append(&mut b);
        },
        ColorValue::Black => {
            let mut b: Vec<u8> = vec![98, 108, 97, 99, 107];
            proof {
                assert(b@ =~= s_black());
            }
            out.append(&mut b);
        },
        ColorValue::Red => {
            let mut b: Vec<u8> = vec![114, 101, 100];
            proof {
                assert(b@ =~= s_red());
            }
            out.append(&mut b);
        },
        ColorValue::Green => {
            let mut b: Vec<u8> = vec![103, 114, 101, 101, 110];
            proof {
                assert(b@ =~= s_green());
            }
            out.append(&mut b);
        },
        ColorValue::Yellow => {
            let mut b: Vec<u8> = vec![121, 101, 108, 108, 111, 119];
            proof {
                assert(b@ =~= s_yellow());
            }
            out.append(&mut b);
        },
        ColorValue::Blue => {
            let mut b: Vec<u8> = vec![98, 108, 117, 101];
            proof {
                assert(b@ =~= s_blue());
            }
            out.append(&mut b);
        },
        ColorValue::Magenta => {
            let mut b: Vec<u8> = vec![109, 97, 103, 101, 110, 116, 97];
            proof {
                assert(b@ =~= s_magenta());
            }
            out.append(&mut b);
        },
        ColorValue::Cyan => {
            let mut b: Vec<u8> = vec![99, 121, 97, 110];
            proof {
                assert(b@ =~= s_cyan());
            }
            out.append(&mut b);
        },
        ColorValue::White => {
            let mut b: Vec<u8> = vec![119, 104, 105, 116, 101];
            proof {
                assert(b@ =~= s_white());
            }
            out.append(&mut b);
        },
        ColorValue::Ansi(n) => {
            let mut b = dec_rep_exec(n as u64);
            out.append(&mut b);
        },
        ColorValue::Rgb(r, g, bl) => {
            out.push(35);
            push_hex2(out, r);
            push_hex2(out, g);
            push_hex2(out, bl);
            proof {
                assert(out@ =~= old(out)@ + color_value_rep(v));
            }
        },
        _ => {
            proof {
                assert(false);
            }
        },
    }
}

/// Append a byte's two lower-case hexadecimal digits to `out`.
fn push_hex2(out: &mut Vec<u8>, b: u8)
    ensures
        final(out)@ == old(out)@ + hex2(b),
{
    let hi = b / 16;
    let lo = b % 16;
    out.push(
        if hi < 10 {
            48 + hi
        } else {
            87 + hi
        },
    );
    out.push(
        if lo < 10 {
            48 + lo
        } else {
            87 + lo
        },
    );
    proof {
        assert(out@ =~= old(out)@ + hex2(b));
    }
}

/// Append a color attribute's bytes to `out`.
fn push_color_attr(out: &mut Vec<u8>, at: ColorAttribute)
    ensures
        final(out)@ == old(out)@ + color_attr_rep(at),
{
    let (no, base): (bool, ColorAttribute) = match at {
        ColorAttribute::NoBold => (true, ColorAttribute::Bold),
        ColorAttribute::NoDim => (true, ColorAttribute::Dim),
        ColorAttribute::NoUl => (true, ColorAttribute::Ul),
        ColorAttribute::NoBlink => (true, ColorAttribute::Blink),
        ColorAttribute::NoReverse => (true, ColorAttribute::Reverse),
        ColorAttribute::NoItalic => (true, ColorAttribute::Italic),
        ColorAttribute::NoStrike => (true, ColorAttribute::Strike),
        other => (false, other),
    };
    if no {
        out.push(110);
        out.push(111);
    }
    match base {
        ColorAttribute::Bold => {
            let mut b: Vec<u8> = vec![98, 111, 108, 100];
            proof {
                assert(b@ =~= s_bold());
            }
            out.append(&mut b);
        },
        ColorAttribute::Dim => {
            let mut b: Vec<u8> = vec![100, 105, 109];
            proof {
                assert(b@ =~= s_dim());
            }
            out.append(&mut b);
        },
        ColorAttribute::Ul => {
            let mut b: Vec<u8> = vec![117, 108];
            proof {
                assert(b@ =~= s_ul());
            }
            out.append(&mut b);
        },
        ColorAttribute::Blink => {
            let mut b: Vec<u8> = vec![98, 108, 105, 110, 107];
            proof {
                assert(b@ =~= s_blink());
            }
            out.append(&mut b);
        },
        ColorAttribute::Reverse => {
            let mut b: Vec<u8> = vec![114, 101, 118, 101, 114, 115, 101];
            proof {
                assert(b@ =~= s_reverse());
            }
            out.append(&mut b);
        },
        ColorAttribute::Italic => {
            let mut b: Vec<u8> = vec![105, 116, 97, 108, 105, 99];
            proof {
                assert(b@ =~= s_italic());
            }
            out.append(&mut b);
        },
        ColorAttribute::Strike => {
            let mut b: Vec<u8> = vec![115, 116, 114, 105, 107, 101];
            proof {
                assert(b@ =~= s_strike());
            }
            out.append(&mut b);
        },
        _ => {
            proof {
                assert(false);
            }
        },
    }
    proof {
        assert(out@ =~= old(out)@ + color_attr_rep(at));
    }
}

/// Any value that may contain a foreground color, a background color, a
/// collection of text modifiers, or a combination of them.
///
/// A color value may also be a bare collection of attributes, with neither
/// foreground nor background set.
#[derive(Debug)]
pub struct Color {
    /// A provided foreground color.
    pub foreground: Option<ColorValue>,
    /// A provided background color.
    pub background: Option<ColorValue>,
    /// A potentially empty list of text attributes.
    pub attributes: Vec<ColorAttribute>,
}

impl Default for Color {
    /// A color with nothing set.
    fn default() -> (r: Self)
        ensures
            r.foreground is None,
            r.background is None,
            r.attributes@.len() == 0,
    {
        Color { foreground: None, background: None, attributes: Vec::new() }
    }
}

impl Color {
    /// Read a byte string as a color: its whitespace-separated tokens each
    /// as a value or an attribute, as [`color_model`] describes.
    pub fn try_from(s: &[u8]) -> (r: Result<Color, ParseError>)
        ensures
            match r {
                Ok(c) => color_model(s@) == Some((c.foreground, c.background, c.attributes@)),
                Err(e) => color_model(s@) is None && e.input@ == s@,
            },
    {
        let mut fg: Option<ColorValue> = None;
        let mut bg: Option<ColorValue> = None;
        let mut attrs: Vec<ColorAttribute> = Vec::new();
        let mut i: usize = 0;
        while i < s.len()
            invariant
                i <= s@.len(),
                color_model(s@) == color_fold(s@, i as int, fg, bg, attrs@),
            decreases s@.len() - i,
        {
            let a = skip_ws_exec(s, i);
            if a >= s.len() {
                return Ok(Color { foreground: fg, background: bg, attributes: attrs });
            }
            let b = token_end_exec(s, a);
            proof {
                lemma_skip_ws(s@, i as int);
                assert(!is_space(s@[a as int]));
                lemma_token_end(s@, a as int);
            }
            let t = &s[a..b];
            match ColorValue::from_bytes(t) {
                Some(v) => {
                    if fg.is_none() {
                        fg = Some(v);
                    } else if bg.is_none() {
                        bg = Some(v);
                    } else {
                        return Err(ParseError { input: vstd::slice::slice_to_vec(s) });
                    }
                },
                None => {
                    match ColorAttribute::from_bytes(t) {
                        Some(at) => {
                            attrs.push(at);
                        },
                        None => {
                            return Err(ParseError { input: vstd::slice::slice_to_vec(s) });
                        },
                    }
                },
            }
            i = b;
        }
        Ok(Color { foreground: fg, background: bg, attributes: attrs })
    }

    /// The bytes this color shows.
    pub open spec fn bytes_model(&self) -> Seq<u8> {
        color_rep(self.foreground, self.background, self.attributes@)
    }

    /// Generate a byte representation of the value.
    pub fn to_vec(&self) -> (r: Vec<u8>)
        ensures
            r@ == self.bytes_model(),
    {
        let mut out: Vec<u8> = Vec::new();
        match self.foreground {
            Some(v) => push_color_value(&mut out, v),
            None => (),
        }
        out.push(32);
        match self.background {
            Some(v) => push_color_value(&mut out, v),
            None => (),
        }
        let ghost head = out@;
        let mut k: usize = 0;
        while k < self.attributes.len()
            invariant
                k <= self.attributes@.len(),
                out@ =~= head + attrs_rep(self.attributes@.take(k as int)),
            decreases self.attributes@.len() - k,
        {
            out.push(32);
            push_color_attr(&mut out, self.attributes[k]);
            proof {
                let tk = self.attributes@.take(k as int + 1);
                assert(tk.drop_last() =~= self.attributes@.take(k as int));
                assert(tk.last() == self.attributes@[k as int]);
                assert(out@ =~= head + attrs_rep(tk));
            }
            k = k + 1;
        }
        proof {
            assert(self.attributes@.take(self.attributes@.len() as int) =~= self.attributes@);
            assert(out@ =~= self.bytes_model());
        }
        out
    }
}

} // verus!
