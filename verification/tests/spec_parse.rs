//! The first-generation scanner driven through a recording delegate.

use revspec::revision::basic::{parse, Error, Recorder};
use revspec::revision::Kind;

fn parse_rec(spec: &str) -> Recorder {
    match try_parse_opts(spec, false) {
        Ok(rec) => rec,
        Err(_) => panic!("expected a successful parse"),
    }
}

fn try_parse(spec: &str) -> Result<Recorder, Error> {
    try_parse_opts(spec, false)
}

fn try_parse_opts(spec: &str, reject_kind: bool) -> Result<Recorder, Error> {
    let mut rec = if reject_kind {
        Recorder::new_rejecting_kind()
    } else {
        Recorder::new()
    };
    parse(spec.as_bytes(), &mut rec)?;
    Ok(rec)
}

fn expect_err(r: Result<Recorder, Error>) -> Error {
    match r {
        Err(e) => e,
        Ok(_) => panic!("expected an error"),
    }
}

#[test]
fn empty_specs_are_valid() {
    // they should of course be invalid for the delegate. CLIs may pre-process
    // the input as well if they wish, but git itself doesn't do that.
    for spec in ["", " ", "\n\t"] {
        let rec = parse_rec(spec);
        assert_eq!(rec.calls, 1);
    }
}

#[test]
fn all_characters_are_taken_verbatim_which_includes_whitespace() {
    let spec = "  HEAD \n";
    let rec = parse_rec(spec);
    assert!(rec.kind.is_none());
    assert_eq!(&rec.resolved[0][..], spec.as_bytes());
}

#[test]
fn at_by_iteself_is_shortcut_for_head() {
    let rec = parse_rec("@");
    assert!(rec.kind.is_none());
    assert_eq!(&rec.resolved[0][..], b"HEAD");
}

#[test]
fn multiple_ats_are_invalid_but_may_cause_callbacks() {
    let err = expect_err(try_parse("@@"));
    assert!(matches!(err, Error::UnconsumedInput { input } if &input[..] == b"@"));
}

#[test]
fn lonely_at_after_ref_is_invalid() {
    let err = expect_err(try_parse("HEAD@"));
    assert!(matches!(err, Error::AtNeedsCurlyBrackets { input } if input.is_empty()));
}

#[test]
fn refname_head() {
    let rec = parse_rec("HEAD");
    assert!(rec.kind.is_none());
    assert_eq!(&rec.resolved[0][..], b"HEAD");
}

#[test]
fn refname_with_head_prefix() {
    let rec = parse_rec("HEADfake");
    assert!(rec.kind.is_none());
    assert_eq!(&rec.resolved[0][..], b"HEADfake");
}

#[test]
fn full_head_ref_name() {
    let rec = parse_rec("refs/heads/main");
    assert!(rec.kind.is_none());
    assert_eq!(&rec.resolved[0][..], b"refs/heads/main");
}

#[test]
fn delegate_can_refuse_spec_kinds() {
    let err = expect_err(try_parse_opts("^HEAD", true));
    assert!(
        matches!(err, Error::Delegate),
        "Delegates can refuse spec kind changes to abort parsing early"
    );
}

#[test]
fn leading_caret_is_range_kind() {
    let rec = parse_rec("^HEAD");
    assert_eq!(rec.kind.unwrap(), Kind::Range);
    assert_eq!(&rec.resolved[0][..], b"HEAD");
}

#[test]
fn trailing_dot_dot_is_range() {
    let rec = parse_rec("HEAD..");
    assert_eq!(rec.kind.unwrap(), Kind::Range);
    assert_eq!(&rec.resolved[0][..], b"HEAD");
}

#[test]
fn trailing_dot_dot_dot_is_merge_base() {
    let rec = parse_rec("HEAD...");
    assert_eq!(rec.kind.unwrap(), Kind::MergeBase);
    assert_eq!(&rec.resolved[0][..], b"HEAD");
}

#[test]
fn middle_dot_dot_dot_is_merge_base() {
    let rec = parse_rec("HEAD...@");
    assert_eq!(rec.kind.unwrap(), Kind::MergeBase);
    assert_eq!(&rec.resolved[0][..], b"HEAD");
    assert_eq!(&rec.resolved[1][..], b"HEAD");
}

#[test]
fn middle_dot_dot_is_range() {
    let rec = parse_rec("@..HEAD");
    assert_eq!(rec.kind.unwrap(), Kind::Range);
    assert_eq!(&rec.resolved[0][..], b"HEAD");
    assert_eq!(&rec.resolved[1][..], b"HEAD");
}
