//! Attribute decisions of the workbook reader.

use ehkatra::types::ErrorKind;
use ehkatra::xlsx::{builtin_format, error_kind, is_true, parse_argb, resolve_target};

#[test]
fn relationship_targets_resolve_under_xl() {
    assert_eq!(resolve_target("worksheets/sheet1.xml"), "xl/worksheets/sheet1.xml");
    assert_eq!(resolve_target("/xl/worksheets/sheet2.xml"), "xl/worksheets/sheet2.xml");
    assert_eq!(resolve_target("xl/styles.xml"), "xl/styles.xml");
    assert_eq!(resolve_target("//theme/theme1.xml"), "xl/theme/theme1.xml");
    assert_eq!(resolve_target(""), "xl/");
}

#[test]
fn booleans_are_one_or_true_in_any_case() {
    assert!(is_true("1"));
    assert!(is_true("true"));
    assert!(is_true("TRUE"));
    assert!(is_true("True"));
    assert!(!is_true("0"));
    assert!(!is_true("false"));
    assert!(!is_true("yes"));
    assert!(!is_true(""));
    assert!(!is_true("truee"));
}

#[test]
fn colours_take_eight_digits_or_six_made_opaque() {
    assert_eq!(parse_argb("FF112233"), Some(0xFF11_2233));
    assert_eq!(parse_argb("  80aabbcc "), Some(0x80AA_BBCC));
    assert_eq!(parse_argb("112233"), Some(0xFF11_2233));
    assert_eq!(parse_argb("12345"), None);
    assert_eq!(parse_argb("GG112233"), None);
    assert_eq!(parse_argb("+1234567"), Some(0x0123_4567), "from_str_radix takes a sign");
    assert_eq!(parse_argb(""), None);
}

#[test]
fn built_in_formats_skip_general_and_unknown_ids() {
    assert_eq!(builtin_format(0), None);
    assert_eq!(builtin_format(1), Some("0"));
    assert_eq!(builtin_format(14), Some("mm-dd-yy"));
    assert_eq!(builtin_format(49), Some("@"));
    assert_eq!(builtin_format(23), None);
    assert_eq!(builtin_format(164), None);
}

#[test]
fn error_spellings_map_to_kinds() {
    assert_eq!(error_kind("#DIV/0!"), ErrorKind::Div0);
    assert_eq!(error_kind("#VALUE!"), ErrorKind::Value);
    assert_eq!(error_kind("#REF!"), ErrorKind::Ref);
    assert_eq!(error_kind("#NAME?"), ErrorKind::Name);
    assert_eq!(error_kind("#NUM!"), ErrorKind::Num);
    assert_eq!(error_kind("#NULL!"), ErrorKind::Value);
    assert_eq!(error_kind("#SPILL!"), ErrorKind::Spill);
    assert_eq!(error_kind("#N/A"), ErrorKind::Na);
    assert_eq!(error_kind("#WHAT?"), ErrorKind::Na);
}
