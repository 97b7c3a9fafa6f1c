//! Configuration value types: quote normalization, booleans, integers with
//! binary-unit suffixes, and colors.

use revspec::values::{
    normalize_bytes, normalize_cow, normalize_str, normalize_vec, Boolean, Color, ColorAttribute,
    ColorValue, Integer, IntegerSuffix, InterpolatePlan, Path, TrueVariant,
};

#[test]
fn paths_plan_their_interpolation() {
    let plan = |s: &str| Path { value: s.as_bytes().to_vec() }.interpolate_plan();
    assert!(matches!(plan(""), InterpolatePlan::Missing));
    assert!(matches!(
        plan("%(prefix)/bin"), InterpolatePlan::Prefix { path } if &path[..] == b"bin"
    ));
    assert!(matches!(
        plan("~/projects"), InterpolatePlan::Home { path } if &path[..] == b"projects"
    ));
    assert!(matches!(
        plan("~alice/projects"),
        InterpolatePlan::User { user, path } if &user[..] == b"alice" && &path[..] == b"projects"
    ));
    assert!(matches!(plan("~alice"), InterpolatePlan::Plain));
    assert!(matches!(plan("/usr/local"), InterpolatePlan::Plain));
}

#[test]
fn normalize_keeps_plain_values() {
    assert_eq!(normalize_str("hello world"), b"hello world".to_vec());
    assert_eq!(normalize_bytes(b"hello world"), b"hello world".to_vec());
}

#[test]
fn normalize_unquotes_fully_quoted_values() {
    assert_eq!(normalize_str("\"hello world\""), b"hello world".to_vec());
}

#[test]
fn normalize_unquotes_partially_quoted_values() {
    assert_eq!(normalize_str("hello \"world\""), b"hello world".to_vec());
}

#[test]
fn normalize_unescapes_escaped_quotes() {
    assert_eq!(
        normalize_str(r#"hello "world\"""#),
        br#"hello world""#.to_vec()
    );
}

#[test]
fn normalize_empties_a_bare_quote_pair() {
    assert_eq!(normalize_str("\"\""), Vec::<u8>::new());
    assert_eq!(normalize_vec(b"\"\"".to_vec()), Vec::<u8>::new());
}

#[test]
fn normalize_keeps_an_unpaired_quote() {
    assert_eq!(normalize_str("ab\"cd"), b"ab\"cd".to_vec());
}

#[test]
fn normalize_cow_strips_wrapping_equals_signs() {
    // the owned variant drops both signs, the borrowed one only the first
    assert_eq!(normalize_cow(b"=abc=".to_vec()), b"abc".to_vec());
    assert_eq!(normalize_bytes(b"=abc="), b"abc=".to_vec());
}

#[test]
fn booleans_read_their_spellings() {
    for t in ["yes", "on", "true", "one", "TRUE", "Yes"] {
        let b = Boolean::try_from(t.as_bytes()).unwrap();
        assert!(b.to_bool());
        assert_eq!(b.to_vec(), t.as_bytes().to_vec());
        assert_eq!(b.as_bytes(), t.as_bytes());
    }
    for f in ["no", "off", "false", "zero", "\"\"", "False"] {
        let b = Boolean::try_from(f.as_bytes()).unwrap();
        assert!(!b.to_bool());
        assert_eq!(b.as_bytes(), f.as_bytes());
    }
}

#[test]
fn empty_boolean_is_implicitly_true() {
    let b = Boolean::try_from(b"").unwrap();
    assert!(b.to_bool());
    assert!(matches!(b, Boolean::True(TrueVariant::Implicit)));
    assert_eq!(b.as_bytes(), b"");
}

#[test]
fn unknown_boolean_spellings_are_refused() {
    let err = Boolean::try_from(b"maybe").unwrap_err();
    assert_eq!(&err.input[..], b"maybe");
    assert!(TrueVariant::try_from(b"nope").is_err());
}

#[test]
fn integers_read_plain_and_suffixed_numbers() {
    let i = Integer::try_from(b"42").unwrap();
    assert_eq!(i.value, 42);
    assert_eq!(i.suffix, None);

    let k = Integer::try_from(b"1k").unwrap();
    assert_eq!(k.value, 1);
    assert_eq!(k.suffix, Some(IntegerSuffix::Kibi));
    assert_eq!(k.to_decimal(), Some(1024));

    let g = Integer::try_from(b"50G").unwrap();
    assert_eq!(g.value, 50);
    assert_eq!(g.suffix, Some(IntegerSuffix::Gibi));
    assert_eq!(g.to_decimal(), Some(50 * 1024 * 1024 * 1024));

    let n = Integer::try_from(b"-17m").unwrap();
    assert_eq!(n.value, -17);
    assert_eq!(n.to_decimal(), Some(-17 * 1024 * 1024));
}

#[test]
fn integers_cover_the_signed_64_bit_range() {
    assert_eq!(
        Integer::try_from(b"9223372036854775807").unwrap().value,
        i64::MAX
    );
    assert_eq!(
        Integer::try_from(b"-9223372036854775808").unwrap().value,
        i64::MIN
    );
    assert!(Integer::try_from(b"9223372036854775808").is_err());
}

#[test]
fn integers_refuse_other_shapes() {
    assert!(Integer::try_from(b"").is_err());
    assert!(Integer::try_from(b"k").is_err());
    assert!(Integer::try_from(b"12kb").is_err());
    assert!(Integer::try_from(b"1.5").is_err());
}

#[test]
fn suffixed_decimal_overflow_is_reported() {
    let i = Integer { value: i64::MAX, suffix: Some(IntegerSuffix::Kibi) };
    assert_eq!(i.to_decimal(), None);
}

#[test]
fn suffix_offsets_shift_by_their_unit() {
    assert_eq!(IntegerSuffix::Kibi.bitwise_offset(), 10);
    assert_eq!(IntegerSuffix::Mebi.bitwise_offset(), 20);
    assert_eq!(IntegerSuffix::Gibi.bitwise_offset(), 30);
}

#[test]
fn integer_bytes_render_value_and_suffix() {
    let k = Integer { value: 1, suffix: Some(IntegerSuffix::Kibi) };
    assert_eq!(k.to_vec(), b"1k".to_vec());
    let n = Integer { value: -17, suffix: None };
    assert_eq!(n.to_vec(), b"-17".to_vec());
    let min = Integer { value: i64::MIN, suffix: Some(IntegerSuffix::Gibi) };
    assert_eq!(min.to_vec(), b"-9223372036854775808g".to_vec());
}

#[test]
fn color_values_read_names_codes_and_triples() {
    assert_eq!(ColorValue::from_bytes(b"normal"), Some(ColorValue::Normal));
    assert_eq!(ColorValue::from_bytes(b"red"), Some(ColorValue::Red));
    assert_eq!(
        ColorValue::from_bytes(b"brightred"),
        Some(ColorValue::BrightRed)
    );
    assert_eq!(ColorValue::from_bytes(b"brightnormal"), None);
    assert_eq!(ColorValue::from_bytes(b"12"), Some(ColorValue::Ansi(12)));
    assert_eq!(ColorValue::from_bytes(b"256"), None);
    assert_eq!(
        ColorValue::from_bytes(b"#aabbcc"),
        Some(ColorValue::Rgb(0xaa, 0xbb, 0xcc))
    );
    assert_eq!(ColorValue::from_bytes(b"#aabbc"), None);
}

#[test]
fn color_attributes_read_names_and_negations() {
    assert_eq!(
        ColorAttribute::from_bytes(b"bold"),
        Some(ColorAttribute::Bold)
    );
    assert_eq!(
        ColorAttribute::from_bytes(b"nobold"),
        Some(ColorAttribute::NoBold)
    );
    assert_eq!(
        ColorAttribute::from_bytes(b"no-ul"),
        Some(ColorAttribute::NoUl)
    );
    assert_eq!(ColorAttribute::from_bytes(b"no"), None);
    assert_eq!(ColorAttribute::from_bytes(b"shiny"), None);
}

#[test]
fn colors_fill_foreground_then_background() {
    let c = Color::try_from(b"red blue bold nodim").unwrap();
    assert_eq!(c.foreground, Some(ColorValue::Red));
    assert_eq!(c.background, Some(ColorValue::Blue));
    assert_eq!(
        c.attributes,
        vec![ColorAttribute::Bold, ColorAttribute::NoDim]
    );
}

#[test]
fn empty_color_is_all_unset() {
    let c = Color::try_from(b"").unwrap();
    assert_eq!(c.foreground, None);
    assert_eq!(c.background, None);
    assert!(c.attributes.is_empty());
}

#[test]
fn a_third_color_value_is_refused() {
    let err = Color::try_from(b"red blue green").unwrap_err();
    assert_eq!(&err.input[..], b"red blue green");
    assert!(Color::try_from(b"shiny").is_err());
}

#[test]
fn color_bytes_render_like_the_original_display() {
    let c = Color::try_from(b"red blue bold").unwrap();
    assert_eq!(c.to_vec(), b"red blue bold".to_vec());
    let fg_only = Color::try_from(b"red bold").unwrap();
    assert_eq!(fg_only.to_vec(), b"red  bold".to_vec());
    let none = Color::try_from(b"").unwrap();
    assert_eq!(none.to_vec(), b" ".to_vec());
    let rgb = Color::try_from(b"#0a1b2c").unwrap();
    assert_eq!(rgb.to_vec(), b"#0a1b2c ".to_vec());
}
