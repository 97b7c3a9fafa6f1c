//! The full scanner driven through a recording delegate: anchors, prefix
//! disambiguation, navigation, range kinds and the error taxonomy.

use revspec::revision::parse::{parse, Error, Recorder};
use revspec::revision::Kind;

fn scan_ok(spec: &str) -> Recorder {
    match scan(spec, false) {
        Ok(rec) => rec,
        Err(_) => panic!("expected a successful parse"),
    }
}

fn scan(spec: &str, reject_kind: bool) -> Result<Recorder, Error> {
    let mut rec = if reject_kind {
        Recorder::new_rejecting_kind()
    } else {
        Recorder::new()
    };
    parse(spec.as_bytes(), &mut rec)?;
    Ok(rec)
}

fn scan_err(spec: &str) -> Error {
    match scan(spec, false) {
        Err(e) => e,
        Ok(_) => panic!("expected an error"),
    }
}

#[test]
fn empty_input_is_valid_and_makes_no_calls() {
    for spec in ["", " ", "\n\t"] {
        let rec = scan_ok(spec);
        assert!(rec.kind.is_none());
        // the empty-anchor no-op: whitespace is taken verbatim, so only the
        // truly empty input goes without any call at all
        if spec.is_empty() {
            assert_eq!(rec.calls, 0);
        } else {
            assert_eq!(rec.calls, 1);
            assert_eq!(&rec.finds[0][..], spec.as_bytes());
        }
    }
}

#[test]
fn find_ref_head_once() {
    let rec = scan_ok("HEAD");
    assert!(rec.kind.is_none());
    assert_eq!(rec.calls, 1);
    assert_eq!(&rec.finds[0][..], b"HEAD");
}

#[test]
fn bare_at_is_shortcut_for_head() {
    let rec = scan_ok("@");
    assert!(rec.kind.is_none());
    assert_eq!(rec.calls, 1);
    assert_eq!(&rec.finds[0][..], b"HEAD");
}

#[test]
fn second_at_is_unconsumed() {
    let err = scan_err("@@");
    assert!(matches!(err, Error::UnconsumedInput { input } if &input[..] == b"@"));
}

#[test]
fn at_after_ref_needs_braces() {
    let err = scan_err("HEAD@");
    assert!(matches!(err, Error::AtNeedsCurlyBrackets { input } if input.is_empty()));
}

#[test]
fn caret_sets_range_kind() {
    let rec = scan_ok("^HEAD");
    assert_eq!(rec.kind.unwrap(), Kind::Range);
    assert_eq!(&rec.finds[0][..], b"HEAD");
    assert_eq!(rec.finds.len(), 1);
}

#[test]
fn trailing_double_dot_is_range_with_one_call() {
    let rec = scan_ok("HEAD..");
    assert_eq!(rec.kind.unwrap(), Kind::Range);
    assert_eq!(rec.finds.len(), 1);
    assert_eq!(&rec.finds[0][..], b"HEAD");
}

#[test]
fn trailing_triple_dot_is_merge_base_with_one_call() {
    let rec = scan_ok("HEAD...");
    assert_eq!(rec.kind.unwrap(), Kind::MergeBase);
    assert_eq!(rec.finds.len(), 1);
    assert_eq!(&rec.finds[0][..], b"HEAD");
}

#[test]
fn middle_triple_dot_is_merge_base_with_two_calls() {
    let rec = scan_ok("HEAD...@");
    assert_eq!(rec.kind.unwrap(), Kind::MergeBase);
    assert_eq!(rec.finds.len(), 2);
    assert_eq!(&rec.finds[0][..], b"HEAD");
    assert_eq!(&rec.finds[1][..], b"HEAD");
}

#[test]
fn middle_double_dot_is_range_with_two_calls() {
    let rec = scan_ok("@..HEAD");
    assert_eq!(rec.kind.unwrap(), Kind::Range);
    assert_eq!(rec.finds.len(), 2);
    assert_eq!(&rec.finds[0][..], b"HEAD");
    assert_eq!(&rec.finds[1][..], b"HEAD");
}

#[test]
fn scanner_rejects_second_kind() {
    let err = scan_err("^HEAD..main");
    assert!(matches!(
        err,
        Error::KindSetTwice { prev_kind: Kind::Range, kind: Kind::Range }
    ));
}

#[test]
fn delegate_refusal_of_kind_aborts() {
    let err = match scan("^HEAD", true) {
        Err(e) => e,
        Ok(_) => panic!("expected an error"),
    };
    assert!(matches!(err, Error::Delegate));
}

#[test]
fn hex_name_goes_to_prefix_disambiguation() {
    let rec = scan_ok("abcd1234");
    assert!(rec.finds.is_empty());
    assert_eq!(rec.prefixes.len(), 1);
    assert_eq!(rec.prefixes[0].hex_len(), 8);
    assert_eq!(&rec.prefixes[0].as_oid()[..4], &[0xab, 0xcd, 0x12, 0x34]);
}

#[test]
fn long_describe_output_yields_embedded_prefix() {
    let rec = scan_ok("v1.2.3-7-gabcd1234");
    assert!(rec.finds.is_empty());
    assert_eq!(rec.prefixes.len(), 1);
    assert_eq!(rec.prefixes[0].hex_len(), 8);
    assert_eq!(&rec.prefixes[0].as_oid()[..4], &[0xab, 0xcd, 0x12, 0x34]);
}

#[test]
fn short_describe_output_yields_leading_prefix() {
    let rec = scan_ok("abcd1234-dirty");
    assert!(rec.finds.is_empty());
    assert_eq!(rec.prefixes.len(), 1);
    assert_eq!(rec.prefixes[0].hex_len(), 8);
}

#[test]
fn short_name_stays_a_ref() {
    // three hex digits are below the prefix minimum
    let rec = scan_ok("abc");
    assert!(rec.prefixes.is_empty());
    assert_eq!(&rec.finds[0][..], b"abc");
}

#[test]
fn reflog_entry_of_named_ref() {
    let rec = scan_ok("HEAD@{1}");
    assert_eq!(&rec.finds[0][..], b"HEAD");
    assert_eq!(rec.reflogs, vec![1]);
}

#[test]
fn reflog_entry_of_unnamed_anchor() {
    let rec = scan_ok("@{0}");
    assert!(rec.finds.is_empty());
    assert_eq!(rec.reflogs, vec![0]);
}

#[test]
fn negative_entry_walks_checkout_history() {
    let rec = scan_ok("@{-2}");
    assert!(rec.finds.is_empty());
    assert!(rec.reflogs.is_empty());
    assert_eq!(rec.branches, vec![2]);
}

#[test]
fn negative_zero_is_rejected() {
    let err = scan_err("@{-0}");
    assert!(matches!(err, Error::NegativeZero { input } if &input[..] == b"-0"));
}

#[test]
fn unclosed_brace_is_rejected() {
    let err = scan_err("@{1");
    assert!(matches!(err, Error::UnclosedBracePair { input } if &input[..] == b"{1"));
}

#[test]
fn named_ref_refuses_negative_entries() {
    let err = scan_err("HEAD@{-1}");
    assert!(matches!(
        err,
        Error::RefnameNeedsPositiveReflogEntries { nav } if &nav[..] == b"-1"
    ));
}

#[test]
fn prefix_anchor_has_no_reflog() {
    let err = scan_err("abcd1234@{1}");
    assert!(matches!(
        err,
        Error::ReflogEntryNeedsRefName { name } if &name[..] == b"abcd1234"
    ));
}

#[test]
fn tilde_navigation_is_unsupported() {
    let err = scan_err("HEAD~1");
    assert!(matches!(err, Error::UnsupportedNavigation { input } if &input[..] == b"~1"));
}

#[test]
fn non_numeric_brace_content_is_unsupported() {
    let err = scan_err("@{upstream}");
    assert!(matches!(
        err,
        Error::UnsupportedNavigation { input } if &input[..] == b"upstream"
    ));
}

#[test]
fn rejected_prefix_falls_through_to_the_name() {
    let mut rec = Recorder::new_rejecting_prefixes();
    parse(b"abcd1234", &mut rec).unwrap();
    // the prefix was offered and vetoed, then the name itself resolved
    assert_eq!(rec.prefixes.len(), 1);
    assert_eq!(rec.finds.len(), 1);
    assert_eq!(&rec.finds[0][..], b"abcd1234");
}

#[test]
fn rejected_describe_prefix_falls_through_to_the_name() {
    let mut rec = Recorder::new_rejecting_prefixes();
    parse(b"v1.2.3-7-gabcd1234", &mut rec).unwrap();
    assert_eq!(rec.prefixes.len(), 1);
    assert_eq!(&rec.finds[0][..], b"v1.2.3-7-gabcd1234");
}

#[test]
fn dotted_names_stay_whole() {
    let rec = scan_ok("release1.2");
    assert_eq!(&rec.finds[0][..], b"release1.2");
}

#[test]
fn whitespace_is_taken_verbatim() {
    let rec = scan_ok("  HEAD \n");
    assert!(rec.kind.is_none());
    assert_eq!(&rec.finds[0][..], b"  HEAD \n");
}
