//! The abbreviated object-id prefix: construction, truncation, hex decoding
//! and prefix-aware comparison.

use core::cmp::Ordering;
use revspec::prefix::{Error, FromHexError, Kind, Prefix, MIN_HEX_LEN};

fn sample_hash() -> Vec<u8> {
    vec![
        0x35, 0xe7, 0x7c, 0x16, 0x00, 0xf1, 0x23, 0x45, 0x67, 0x89, 0xab, 0xcd, 0xef, 0x01, 0x23,
        0x45, 0x67, 0x89, 0xab, 0xcd,
    ]
}

#[test]
fn kind_geometry() {
    assert_eq!(Kind::Sha1.len_in_hex(), 40);
    assert_eq!(Kind::longest(), Kind::Sha1);
    assert_eq!(MIN_HEX_LEN, 4);
}

#[test]
fn new_truncates_to_whole_and_half_bytes() {
    let id = sample_hash();
    let p = Prefix::new(&id, 7).unwrap();
    assert_eq!(p.hex_len(), 7);
    // three whole bytes, then the high nibble of the fourth
    assert_eq!(&p.as_oid()[..4], &[0x35, 0xe7, 0x7c, 0x10]);
    assert!(p.as_oid()[4..].iter().all(|b| *b == 0));
}

#[test]
fn new_rejects_out_of_range_lengths() {
    let id = sample_hash();
    assert_eq!(
        Prefix::new(&id, 3).unwrap_err(),
        Error::TooShort { hex_len: 3 }
    );
    assert_eq!(
        Prefix::new(&id, 41).unwrap_err(),
        Error::TooLong { object_kind: Kind::Sha1, hex_len: 41 }
    );
}

#[test]
fn from_hex_reads_even_and_odd_runs() {
    let p = Prefix::from_hex(b"35e77c16").unwrap();
    assert_eq!(p.hex_len(), 8);
    assert_eq!(&p.as_oid()[..4], &[0x35, 0xe7, 0x7c, 0x16]);

    let q = Prefix::from_hex(b"abcde").unwrap();
    assert_eq!(q.hex_len(), 5);
    assert_eq!(&q.as_oid()[..3], &[0xab, 0xcd, 0xe0]);
}

#[test]
fn from_hex_rejects_short_and_long_runs() {
    assert_eq!(
        Prefix::from_hex(b"abc").unwrap_err(),
        FromHexError::TooShort { hex_len: 3 }
    );
    let too_long = vec![b'a'; 41];
    assert_eq!(
        Prefix::from_hex(&too_long).unwrap_err(),
        FromHexError::TooLong { hex_len: 41 }
    );
}

#[test]
fn from_hex_names_the_first_bad_byte() {
    assert_eq!(
        Prefix::from_hex(b"ab!d").unwrap_err(),
        FromHexError::Invalid { c: '!', index: 2 }
    );
    assert_eq!(
        Prefix::from_hex(b"zbcd").unwrap_err(),
        FromHexError::Invalid { c: 'z', index: 0 }
    );
}

#[test]
fn prefix_compares_equal_to_its_own_hash() {
    let id = sample_hash();
    for hex_len in [4usize, 5, 7, 8, 20, 39, 40] {
        let p = Prefix::new(&id, hex_len).unwrap();
        assert_eq!(p.cmp_oid(&id), Ordering::Equal);
    }
}

#[test]
fn prefix_ignores_trailing_nibbles() {
    let id = sample_hash();
    let p = Prefix::new(&id, 7).unwrap();
    // differ only beyond nibble 7: the low nibble of byte 3 and all bytes after
    let mut other = id.clone();
    other[3] = (other[3] & 0xf0) | 0x0e;
    for b in other.iter_mut().skip(4) {
        *b = 0xff;
    }
    assert_eq!(p.cmp_oid(&other), Ordering::Equal);
}

#[test]
fn prefix_orders_against_differing_hashes() {
    let id = sample_hash();
    let p = Prefix::new(&id, 8).unwrap();
    let mut smaller = id.clone();
    smaller[0] = 0x34;
    let mut larger = id.clone();
    larger[0] = 0x36;
    assert_eq!(p.cmp_oid(&smaller), Ordering::Greater);
    assert_eq!(p.cmp_oid(&larger), Ordering::Less);
}

#[test]
fn odd_prefix_compares_on_the_shared_half_byte() {
    let p = Prefix::from_hex(b"abcde").unwrap();
    let mut candidate = vec![0u8; 20];
    candidate[0] = 0xab;
    candidate[1] = 0xcd;
    candidate[2] = 0xef;
    assert_eq!(p.cmp_oid(&candidate), Ordering::Equal);
    candidate[2] = 0xdf;
    assert_eq!(p.cmp_oid(&candidate), Ordering::Greater);
}
