//! An abbreviated object-id prefix: a truncated hash with nibble (4-bit)
//! granularity, used to validate abbreviated-hash candidates and to compare
//! them against full hashes.

use vstd::prelude::*;
use core::cmp::Ordering;
use crate::{byte_is_hex_digit, hex_value, is_hex_digit};

verus! {

/// The smallest number of hexadecimal digits an abbreviated object id may have.
pub const MIN_HEX_LEN: usize = 4;

/// The kind of a full object hash.
#[derive(Clone, Copy, Debug, PartialEq, Eq, Structural)]
pub enum Kind {
    /// A SHA-1 hash: 20 bytes, 40 hexadecimal digits.
    Sha1,
}

impl Kind {
    /// The number of hexadecimal digits a full hash of this kind has.
    pub fn len_in_hex(self) -> (r: usize)
        ensures
            r == self.spec_len_in_hex(),
    {
        match self {
            Kind::Sha1 => 40,
        }
    }

    /// Hex-digit width of a full hash of this kind.
    pub open spec fn spec_len_in_hex(self) -> int {
        match self {
            Kind::Sha1 => 40,
        }
    }

    /// The kind with the widest hashes among all supported kinds.
    pub fn longest() -> (r: Kind)
        ensures
            r == Kind::Sha1,
    {
        Kind::Sha1
    }
}

/// True when every byte of `s` is a hexadecimal digit.
pub open spec fn all_hex_digits(s: Seq<u8>) -> bool {
    forall|i: int| 0 <= i < s.len() ==> is_hex_digit(s[i])
}

/// Position of the first byte of `s` at or after `i` that is not a
/// hexadecimal digit, or `s.len()` when there is none.
pub open spec fn first_non_hex_from(s: Seq<u8>, i: int) -> int
    decreases s.len() - i,
{
    if i < 0 || i >= s.len() {
        s.len() as int
    } else if !is_hex_digit(s[i]) {
        i
    } else {
        first_non_hex_from(s, i + 1)
    }
}

/// `first_non_hex_from` lands on the first non-digit: everything before it
/// (from `i` on) is a digit, and the position itself is not, unless the whole
/// tail is made of digits.
pub proof fn lemma_first_non_hex_from(s: Seq<u8>, i: int)
    requires
        0 <= i <= s.len(),
    ensures
        i <= first_non_hex_from(s, i) <= s.len(),
        first_non_hex_from(s, i) < s.len() ==> !is_hex_digit(s[first_non_hex_from(s, i)]),
        forall|j: int| i <= j < first_non_hex_from(s, i) ==> is_hex_digit(s[j]),
    decreases s.len() - i,
{
    if i < s.len() && is_hex_digit(s[i]) {
        lemma_first_non_hex_from(s, i + 1);
    }
}

/// Bytes obtained by decoding an even-length run of hexadecimal digits,
/// two digits to a byte, high nibble first.
pub open spec fn hex_decoded(s: Seq<u8>) -> Seq<u8> {
    Seq::new(s.len() / 2, |i: int| (16 * hex_value(s[2 * i]) + hex_value(s[2 * i + 1])) as u8)
}

/// The input to byte-decoding: the run itself when its length is even, else
/// the run with a single `'0'` digit appended.
pub open spec fn padded_hex(s: Seq<u8>) -> Seq<u8> {
    if s.len() % 2 == 0 {
        s
    } else {
        s.push(48u8)
    }
}

/// The 20-byte buffer a prefix decoded from the digit run `s` holds: the
/// decoded bytes followed by zeroes.
pub open spec fn from_hex_bytes(s: Seq<u8>) -> Seq<u8> {
    let d = hex_decoded(padded_hex(s));
    Seq::new(20, |i: int| if i < d.len() { d[i] } else { 0u8 })
}

/// The 20-byte buffer a prefix truncated from the full hash `id` to
/// `hex_len` digits holds: whole bytes for `hex_len / 2` of them, one more
/// byte with its low nibble masked away when `hex_len` is odd, zeroes after.
pub open spec fn truncated_bytes(id: Seq<u8>, hex_len: int) -> Seq<u8> {
    Seq::new(
        20,
        |i: int| if i < hex_len / 2 {
            id[i]
        } else if 2 * i < hex_len {
            (id[i] & 0xf0) as u8
        } else {
            0u8
        },
    )
}

/// Lexicographic comparison of `a[i..n]` against `b[i..n]`.
pub open spec fn lex_cmp(a: Seq<u8>, b: Seq<u8>, i: int, n: int) -> Ordering
    decreases n - i,
{
    if i < 0 || i >= n {
        Ordering::Equal
    } else if a[i] < b[i] {
        Ordering::Less
    } else if a[i] > b[i] {
        Ordering::Greater
    } else {
        lex_cmp(a, b, i + 1, n)
    }
}

/// Comparing from `i` equals comparing from `0` when the bytes before `i`
/// agree.
pub proof fn lemma_lex_cmp_skip(a: Seq<u8>, b: Seq<u8>, i: int, n: int)
    requires
        0 <= i <= n,
        forall|j: int| 0 <= j < i ==> a[j] == b[j],
    ensures
        lex_cmp(a, b, 0, n) == lex_cmp(a, b, i, n),
    decreases i,
{
    if i > 0 {
        lemma_lex_cmp_drop_head(a, b, 0, i, n);
    }
}

proof fn lemma_lex_cmp_drop_head(a: Seq<u8>, b: Seq<u8>, lo: int, i: int, n: int)
    requires
        0 <= lo < i <= n,
        forall|j: int| lo <= j < i ==> a[j] == b[j],
    ensures
        lex_cmp(a, b, lo, n) == lex_cmp(a, b, i, n),
    decreases i - lo,
{
    if lo + 1 < i {
        lemma_lex_cmp_drop_head(a, b, lo + 1, i, n);
    }
}

/// Where the bytes below `n` all agree, the comparison is `Equal`.
pub proof fn lemma_lex_cmp_equal(a: Seq<u8>, b: Seq<u8>, i: int, n: int)
    requires
        forall|j: int| i <= j < n ==> a[j] == b[j],
    ensures
        lex_cmp(a, b, i, n) == Ordering::Equal,
    decreases n - i,
{
    if 0 <= i < n {
        lemma_lex_cmp_equal(a, b, i + 1, n);
    }
}

/// How a prefix holding buffer `bytes` with `hex_len` significant digits
/// orders against the full hash `cand`: whole bytes first, then the shared
/// half byte when `hex_len` is odd.
pub open spec fn cmp_model(bytes: Seq<u8>, hex_len: int, cand: Seq<u8>) -> Ordering {
    let whole = lex_cmp(bytes, cand, 0, hex_len / 2);
    if whole != Ordering::Equal {
        whole
    } else if hex_len % 2 == 1 {
        let i = hex_len / 2;
        if bytes[i] < cand[i] & 0xf0 {
            Ordering::Less
        } else if bytes[i] > cand[i] & 0xf0 {
            Ordering::Greater
        } else {
            Ordering::Equal
        }
    } else {
        Ordering::Equal
    }
}

/// The error returned by [`Prefix::new`].
#[derive(Clone, Copy, Debug, PartialEq, Eq, Structural)]
pub enum Error {
    /// Fewer than [`MIN_HEX_LEN`] digits were requested.
    TooShort { hex_len: usize },
    /// More digits were requested than a hash of this kind has.
    TooLong { object_kind: Kind, hex_len: usize },
}

/// The error returned by [`Prefix::from_hex`].
#[derive(Clone, Copy, Debug, PartialEq, Eq, Structural)]
pub enum FromHexError {
    /// Fewer than [`MIN_HEX_LEN`] digits were given.
    TooShort { hex_len: usize },
    /// More digits were given than the longest supported hash kind has.
    TooLong { hex_len: usize },
    /// A byte that is not a hexadecimal digit, with its position.
    Invalid { c: char, index: usize },
}

/// Relies on hex::decode: decodes an even-length run of hexadecimal digits
/// into bytes, two digits to a byte, high nibble first, and reports the first
/// byte that is no digit together with its position.
#[verifier::external_body]
fn decode_hex(value: &[u8]) -> (r: Result<Vec<u8>, (char, usize)>)
    requires
        value@.len() % 2 == 0,
    ensures
        match r {
            Ok(bytes) => all_hex_digits(value@) && bytes@ == hex_decoded(value@),
            Err((c, index)) => {
                &&& index == first_non_hex_from(value@, 0)
                &&& index < value@.len()
                &&& c == value@[index as int] as char
            },
        },
{
    match hex::decode(value) {
        Ok(bytes) => Ok(bytes),
        Err(hex::FromHexError::InvalidHexCharacter { c, index }) => Err((c, index)),
        Err(_) => Err(('\0', 0)),
    }
}

/// An immutable, fixed-size value representing a truncated object hash at
/// nibble granularity. All nibbles at or beyond `hex_len` are zero.
#[derive(Debug)]
pub struct Prefix {
    bytes: Vec<u8>,
    hex_len: usize,
}

impl Prefix {
    /// Well-formedness: a full-width buffer, a digit count within bounds, and
    /// every nibble at or beyond `hex_len` zero.
    #[verifier::type_invariant]
    pub closed spec fn wf(self) -> bool {
        &&& self.bytes@.len() == 20
        &&& MIN_HEX_LEN <= self.hex_len <= 40
        &&& forall|i: int| (self.hex_len + 1) / 2 <= i < 20 ==> self.bytes@[i] == 0
        &&& self.hex_len % 2 == 1 ==> self.bytes@[self.hex_len as int / 2] & 0x0f == 0
    }

    /// The buffer this prefix holds.
    pub closed spec fn spec_bytes(self) -> Seq<u8> {
        self.bytes@
    }

    /// The number of significant hexadecimal digits.
    pub closed spec fn spec_hex_len(self) -> int {
        self.hex_len as int
    }

    /// Create a new instance by taking a full `id` as input and truncating it
    /// to `hex_len` digits.
    pub fn new(id: &[u8], hex_len: usize) -> (r: Result<Prefix, Error>)
        requires
            id@.len() == 20,
        ensures
            match r {
                Ok(p) => {
                    &&& MIN_HEX_LEN <= hex_len <= 40
                    &&& p.spec_bytes() == truncated_bytes(id@, hex_len as int)
                    &&& p.spec_hex_len() == hex_len
                },
                Err(Error::TooLong { object_kind, hex_len: h }) => {
                    &&& hex_len > 40
                    &&& object_kind == Kind::Sha1
                    &&& h == hex_len
                },
                Err(Error::TooShort { hex_len: h }) => {
                    &&& hex_len < MIN_HEX_LEN
                    &&& h == hex_len
                },
            },
    {
        if hex_len > Kind::Sha1.len_in_hex() {
            Err(Error::TooLong { object_kind: Kind::Sha1, hex_len })
        } else if hex_len < MIN_HEX_LEN {
            Err(Error::TooShort { hex_len })
        } else {
            let mut bytes: Vec<u8> = Vec::new();
            let mut i: usize = 0;
            while i < 20
                invariant
                    i <= 20,
                    4 <= hex_len <= 40,
                    id@.len() == 20,
                    bytes@.len() == i,
                    forall|j: int| 0 <= j < i ==> bytes@[j] == truncated_bytes(id@, hex_len as int)[j],
                decreases 20 - i,
            {
                let b: u8 = if i < hex_len / 2 {
                    id[i]
                } else if 2 * i < hex_len {
                    id[i] & 0xf0
                } else {
                    0
                };
                bytes.push(b);
                i += 1;
            }
            proof {
                assert(bytes@ =~= truncated_bytes(id@, hex_len as int));
                assert forall|j: int| (hex_len + 1) / 2 <= j < 20 implies bytes@[j] == 0 by {
                    assert(2 * j >= hex_len);
                }
                if hex_len % 2 == 1 {
                    let k = hex_len as int / 2;
                    assert(!(k < hex_len as int / 2) && 2 * k < hex_len);
                    assert(bytes@[k] == id@[k] & 0xf0);
                    let b = id@[k];
                    assert(b & 0xf0 & 0x0f == 0) by (bit_vector);
                }
            }
            Ok(Prefix { bytes, hex_len })
        }
    }

    /// Create an instance from a run of hexadecimal digits, e.g. `35e77c16`
    /// yields a prefix with eight significant digits. An odd-length run is
    /// accepted; the buffer's final nibble is then zero while the stored
    /// digit count stays odd.
    pub fn from_hex(value: &[u8]) -> (r: Result<Prefix, FromHexError>)
        ensures
            match r {
                Ok(p) => {
                    &&& MIN_HEX_LEN <= value@.len() <= 40
                    &&& all_hex_digits(value@)
                    &&& p.spec_bytes() == from_hex_bytes(value@)
                    &&& p.spec_hex_len() == value@.len()
                },
                Err(FromHexError::TooLong { hex_len }) => value@.len() > 40 && hex_len == value@.len(),
                Err(FromHexError::TooShort { hex_len }) => value@.len() < MIN_HEX_LEN && hex_len == value@.len(),
                Err(FromHexError::Invalid { c, index }) => {
                    &&& MIN_HEX_LEN <= value@.len() <= 40
                    &&& index == first_non_hex_from(value@, 0)
                    &&& index < value@.len()
                    &&& c == value@[index as int] as char
                },
            },
    {
        let hex_len = value.len();
        if hex_len > Kind::longest().len_in_hex() {
            return Err(FromHexError::TooLong { hex_len });
        } else if hex_len < MIN_HEX_LEN {
            return Err(FromHexError::TooShort { hex_len });
        }

        let mut buf: Vec<u8> = Vec::new();
        let mut i: usize = 0;
        while i < hex_len
            invariant
                i <= hex_len,
                hex_len == value@.len() <= 40,
                buf@ == value@.take(i as int),
            decreases hex_len - i,
        {
            buf.push(value[i]);
            i += 1;
        }
        proof {
            assert(buf@ =~= value@);
        }
        if hex_len % 2 == 1 {
            buf.push(48);
        }
        proof {
            assert(buf@ =~= padded_hex(value@));
        }

        match decode_hex(buf.as_slice()) {
            Ok(mut bytes) => {
                proof {
                    if !all_hex_digits(value@) {
                        lemma_first_non_hex_from(value@, 0);
                        let k = first_non_hex_from(value@, 0);
                        assert(0 <= k < value@.len() && !is_hex_digit(value@[k]));
                        assert(padded_hex(value@)[k] == value@[k]);
                        assert(!all_hex_digits(padded_hex(value@)));
                    }
                }
                let decoded_len = bytes.len();
                let mut j: usize = decoded_len;
                while j < 20
                    invariant
                        decoded_len <= j <= 20,
                        bytes@.len() == j,
                        bytes@.take(decoded_len as int) == hex_decoded(padded_hex(value@)),
                        decoded_len == hex_decoded(padded_hex(value@)).len(),
                        decoded_len <= 20,
                        forall|k: int| decoded_len <= k < j ==> bytes@[k] == 0,
                    decreases 20 - j,
                {
                    bytes.push(0);
                    j += 1;
                }
                proof {
                    assert(bytes@ =~= from_hex_bytes(value@));
                    assert(forall|k: int|
                        0 <= k < value@.len() ==> padded_hex(value@)[k] == value@[k]);
                    assert(all_hex_digits(value@));
                    lemma_from_hex_bytes_wf(value@);
                }
                Ok(Prefix { bytes, hex_len })
            },
            Err((c, index)) => {
                proof {
                    lemma_first_non_hex_from(padded_hex(value@), 0);
                    lemma_first_non_hex_from(value@, 0);
                    let k = first_non_hex_from(padded_hex(value@), 0);
                    assert(k < value@.len()) by {
                        if value@.len() % 2 == 1 && k == value@.len() {
                            assert(padded_hex(value@)[k] == 48u8);
                            assert(is_hex_digit(48u8));
                        }
                    }
                    assert(padded_hex(value@)[k] == value@[k]);
                    assert forall|j: int| 0 <= j < k implies is_hex_digit(value@[j]) by {
                        assert(padded_hex(value@)[j] == value@[j]);
                        assert(is_hex_digit(padded_hex(value@)[j]));
                    }
                    lemma_first_non_hex_at(value@, k);
                }
                Err(FromHexError::Invalid { c, index })
            },
        }
    }

    /// Returns the prefix's buffer as a full-width object id.
    ///
    /// Note that it may be deceptive to use, given that it looks like a full
    /// object id even though its post-prefix nibbles are set to zero.
    pub fn as_oid(&self) -> (r: &[u8])
        ensures
            r@ == self.spec_bytes(),
            r@.len() == 20,
    {
        proof {
            use_type_invariant(self);
        }
        self.bytes.as_slice()
    }

    /// Return the number of hexadecimal characters that are set in the
    /// prefix: its granularity is 4 bits.
    pub fn hex_len(&self) -> (r: usize)
        ensures
            r == self.spec_hex_len(),
            MIN_HEX_LEN <= r <= 40,
    {
        proof {
            use_type_invariant(self);
        }
        self.hex_len
    }

    /// Provided with a candidate full hash, determine how this prefix
    /// compares to it, looking only at the prefix's own nibbles and ignoring
    /// everything behind them.
    pub fn cmp_oid(&self, candidate: &[u8]) -> (r: Ordering)
        requires
            candidate@.len() == 20,
        ensures
            r == cmp_model(self.spec_bytes(), self.spec_hex_len(), candidate@),
    {
        proof {
            use_type_invariant(self);
        }
        let common_len = self.hex_len / 2;
        let mut i: usize = 0;
        while i < common_len
            invariant
                i <= common_len,
                common_len == self.spec_hex_len() / 2,
                self.wf(),
                candidate@.len() == 20,
                forall|j: int| 0 <= j < i ==> self.bytes@[j] == candidate@[j],
            decreases common_len - i,
        {
            if self.bytes[i] < candidate[i] {
                proof {
                    lemma_lex_cmp_skip(self.spec_bytes(), candidate@, i as int, common_len as int);
                }
                return Ordering::Less;
            }
            if self.bytes[i] > candidate[i] {
                proof {
                    lemma_lex_cmp_skip(self.spec_bytes(), candidate@, i as int, common_len as int);
                }
                return Ordering::Greater;
            }
            i += 1;
        }
        proof {
            lemma_lex_cmp_equal(self.spec_bytes(), candidate@, 0, common_len as int);
        }
        if self.hex_len % 2 == 1 {
            let half = self.bytes[common_len];
            let cand_half = candidate[common_len] & 0xf0;
            if half < cand_half {
                Ordering::Less
            } else if half > cand_half {
                Ordering::Greater
            } else {
                Ordering::Equal
            }
        } else {
            Ordering::Equal
        }
    }
}

/// Everything `first_non_hex_from` needs to land exactly on `k`.
proof fn lemma_first_non_hex_at(s: Seq<u8>, k: int)
    requires
        0 <= k,
        k <= s.len(),
        forall|j: int| 0 <= j < k ==> is_hex_digit(s[j]),
        k < s.len() ==> !is_hex_digit(s[k]),
    ensures
        first_non_hex_from(s, 0) == k,
{
    lemma_first_non_hex_step(s, 0, k);
}

proof fn lemma_first_non_hex_step(s: Seq<u8>, i: int, k: int)
    requires
        0 <= i <= k,
        k <= s.len(),
        forall|j: int| i <= j < k ==> is_hex_digit(s[j]),
        k < s.len() ==> !is_hex_digit(s[k]),
    ensures
        first_non_hex_from(s, i) == k,
    decreases k - i,
{
    if i < k {
        lemma_first_non_hex_step(s, i + 1, k);
    }
}

/// A prefix truncated from a full hash compares `Equal` against that hash
/// itself, and against every full hash that agrees with it on the prefix's
/// own nibbles: whatever lies at or beyond nibble `hex_len` is ignored.
///
/// `truncated_bytes(id, hex_len)` is the buffer [`Prefix::new`] promises, and
/// `cmp_model` is the ordering [`Prefix::cmp_oid`] promises.
pub proof fn lemma_prefix_matches(id: Seq<u8>, hex_len: int, cand: Seq<u8>)
    requires
        id.len() == 20,
        cand.len() == 20,
        MIN_HEX_LEN <= hex_len <= 40,
        forall|i: int| 0 <= i < hex_len / 2 ==> cand[i] == id[i],
        hex_len % 2 == 1 ==> cand[hex_len / 2] & 0xf0 == id[hex_len / 2] & 0xf0,
    ensures
        cmp_model(truncated_bytes(id, hex_len), hex_len, cand) == Ordering::Equal,
{
    let b = truncated_bytes(id, hex_len);
    assert forall|j: int| 0 <= j < hex_len / 2 implies b[j] == cand[j] by {
        assert(b[j] == id[j]);
    }
    lemma_lex_cmp_equal(b, cand, 0, hex_len / 2);
    if hex_len % 2 == 1 {
        let i = hex_len / 2;
        assert(2 * i < hex_len);
        assert(b[i] == id[i] & 0xf0);
    }
}

/// A buffer decoded from at most 40 digits has its trailing nibbles zero.
proof fn lemma_from_hex_bytes_wf(s: Seq<u8>)
    requires
        4 <= s.len() <= 40,
        all_hex_digits(s),
    ensures
        forall|i: int| (s.len() + 1) / 2 <= i < 20 ==> from_hex_bytes(s)[i] == 0,
        s.len() % 2 == 1 ==> from_hex_bytes(s)[s.len() as int / 2] & 0x0f == 0,
{
    let d = hex_decoded(padded_hex(s));
    assert(padded_hex(s).len() == if s.len() % 2 == 0 { s.len() as int } else { s.len() as int + 1 });
    assert(d.len() == (s.len() + 1) / 2);
    if s.len() % 2 == 1 {
        let k = s.len() as int / 2;
        assert(2 * k + 1 == padded_hex(s).len() - 1);
        assert(padded_hex(s)[2 * k + 1] == 48u8);
        assert(hex_value(48u8) == 0);
        assert(d[k] == (16 * hex_value(padded_hex(s)[2 * k]) + 0) as u8);
        assert(from_hex_bytes(s)[k] == d[k]);
        let hv = hex_value(padded_hex(s)[2 * k]);
        assert(hv <= 15) by {
            assert(is_hex_digit(padded_hex(s)[2 * k]));
        }
        assert((16 * hv) as u8 & 0x0f == 0) by (bit_vector)
            requires
                hv <= 15,
        ;
    }
}

} // verus!
