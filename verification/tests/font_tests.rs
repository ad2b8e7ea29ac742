use std::collections::HashMap;

use masking_tool::font::{
    cid_widths_fit_check, glyph_codes, is_composite_subtype, is_identity_encoding,
    parse_cid_widths, FontMetrics, WidthItem,
};

#[test]
fn simple_font_widths_by_first_char() {
    let m = FontMetrics::simple(Some(32), vec![0.25, 0.5], 0.6);
    assert_eq!(m.width(31), 0.6);
    assert_eq!(m.width(32), 0.25);
    assert_eq!(m.width(33), 0.5);
    assert_eq!(m.width(34), 0.6);
    assert_eq!(m.width(0), 0.6);
    assert!(!m.is_identity());
}

#[test]
fn simple_font_first_char_defaults_to_zero_and_is_cut_to_16_bits() {
    let m = FontMetrics::simple(None, vec![0.1], 0.6);
    assert!(matches!(m, FontMetrics::Simple { first: 0, .. }));
    assert_eq!(m.width(0), 0.1);
    let cut = FontMetrics::simple(Some(65536 + 5), vec![0.2], 0.6);
    assert!(matches!(cut, FontMetrics::Simple { first: 5, .. }));
    assert_eq!(cut.width(5), 0.2);
    let negative = FontMetrics::simple(Some(-1), vec![0.3], 0.6);
    assert!(matches!(negative, FontMetrics::Simple { first: 65535, .. }));
}

#[test]
fn composite_font_widths_and_default() {
    let mut w = HashMap::new();
    w.insert(3u16, 0.75);
    let m = FontMetrics::composite(w, 1.0, Some("Identity-H"));
    assert_eq!(m.width(3), 0.75);
    assert_eq!(m.width(4), 1.0);
    assert!(m.is_identity());
    let v = FontMetrics::composite(HashMap::new(), 1.0, Some("Identity-V"));
    assert!(v.is_identity());
    let other = FontMetrics::composite(HashMap::new(), 1.0, Some("UniJIS-UCS2-H"));
    assert!(!other.is_identity());
    let none = FontMetrics::composite(HashMap::<u16, f64>::new(), 1.0, None);
    assert!(!none.is_identity());
}

#[test]
fn identity_encodings() {
    assert!(is_identity_encoding(Some("Identity-H")));
    assert!(is_identity_encoding(Some("Identity-V")));
    assert!(!is_identity_encoding(Some("identity-h")));
    assert!(!is_identity_encoding(Some("WinAnsiEncoding")));
    assert!(!is_identity_encoding(None));
}

#[test]
fn composite_subtype_is_type0() {
    assert!(is_composite_subtype("Type0"));
    assert!(!is_composite_subtype("Type1"));
    assert!(!is_composite_subtype("TrueType"));
    assert!(!is_composite_subtype(""));
}

#[test]
fn one_byte_codes() {
    assert_eq!(glyph_codes(false, &[0x41, 0x20, 0xFF]), vec![0x41, 0x20, 0xFF]);
    assert_eq!(glyph_codes(false, &[]), Vec::<u16>::new());
}

#[test]
fn two_byte_codes_with_trailing_byte() {
    assert_eq!(glyph_codes(true, &[0x01, 0x02, 0x03]), vec![0x0102, 0x03]);
    assert_eq!(glyph_codes(true, &[0xFF, 0xFE]), vec![0xFFFE]);
    assert_eq!(glyph_codes(true, &[0x07]), vec![0x07]);
    assert_eq!(glyph_codes(true, &[]), Vec::<u16>::new());
}

#[test]
fn two_byte_codes_keep_both_bytes() {
    let bytes = [0x12u8, 0x34, 0x00, 0xFF, 0xAB, 0x00];
    let codes = glyph_codes(true, &bytes);
    assert_eq!(codes.len(), 3);
    for (i, c) in codes.iter().enumerate() {
        assert_eq!((c / 256) as u8, bytes[2 * i]);
        assert_eq!((c % 256) as u8, bytes[2 * i + 1]);
    }
}

#[test]
fn codes_follow_the_font_encoding() {
    let identity = FontMetrics::composite(HashMap::<u16, f64>::new(), 1.0, Some("Identity-H"));
    assert_eq!(identity.codes(&[0x00, 0x41]), vec![0x0041]);
    let simple = FontMetrics::simple(None, Vec::<f64>::new(), 0.5);
    assert_eq!(simple.codes(&[0x00, 0x41]), vec![0x00, 0x41]);
}

#[test]
fn cid_widths_lists_and_ranges() {
    let items = vec![
        WidthItem::Number(1, 1.0),
        WidthItem::List(vec![Some(0.5), None, Some(0.7)]),
        WidthItem::Number(10, 10.0),
        WidthItem::Number(12, 12.0),
        WidthItem::Number(250, 0.25),
    ];
    assert!(cid_widths_fit_check(&items));
    let w = parse_cid_widths(&items);
    assert_eq!(w.len(), 5);
    assert_eq!(w.get(&1), Some(&0.5));
    assert_eq!(w.get(&2), None);
    assert_eq!(w.get(&3), Some(&0.7));
    assert_eq!(w.get(&10), Some(&0.25));
    assert_eq!(w.get(&11), Some(&0.25));
    assert_eq!(w.get(&12), Some(&0.25));
    assert_eq!(w.get(&13), None);
}

#[test]
fn cid_widths_later_entries_override() {
    let items = vec![
        WidthItem::Number(5, 5.0),
        WidthItem::Number(6, 6.0),
        WidthItem::Number(1, 0.1),
        WidthItem::Number(6, 6.0),
        WidthItem::List(vec![Some(0.9)]),
    ];
    let w = parse_cid_widths(&items);
    assert_eq!(w.get(&5), Some(&0.1));
    assert_eq!(w.get(&6), Some(&0.9));
}

#[test]
fn cid_widths_reading_stops_at_a_bad_start() {
    let items = vec![
        WidthItem::Number(1, 1.0),
        WidthItem::List(vec![Some(0.5)]),
        WidthItem::Other,
        WidthItem::Number(2, 2.0),
        WidthItem::List(vec![Some(0.6)]),
    ];
    let w = parse_cid_widths(&items);
    assert_eq!(w.len(), 1);
    assert_eq!(w.get(&2), None);
    let after_other = vec![
        WidthItem::Number(1, 1.0),
        WidthItem::Other,
        WidthItem::Number(2, 2.0),
        WidthItem::List(vec![Some(0.6)]),
    ];
    assert!(parse_cid_widths(&after_other).is_empty());
}

#[test]
fn cid_widths_range_without_numeric_width_is_skipped() {
    let items = vec![
        WidthItem::Number(1, 1.0),
        WidthItem::Number(3, 3.0),
        WidthItem::Other,
        WidthItem::Number(7, 7.0),
        WidthItem::List(vec![Some(0.4)]),
    ];
    let w = parse_cid_widths(&items);
    assert_eq!(w.len(), 1);
    assert_eq!(w.get(&7), Some(&0.4));
}

#[test]
fn cid_widths_incomplete_tail_is_ignored() {
    let items = vec![WidthItem::Number(1, 1.0), WidthItem::Number(3, 3.0)];
    assert!(parse_cid_widths(&items).is_empty());
    let single: Vec<WidthItem<f64>> = vec![WidthItem::Number(1, 1.0)];
    assert!(parse_cid_widths(&single).is_empty());
}

#[test]
fn cid_widths_reversed_range_is_empty() {
    let items = vec![
        WidthItem::Number(9, 9.0),
        WidthItem::Number(3, 3.0),
        WidthItem::Number(1, 0.5),
    ];
    assert!(parse_cid_widths(&items).is_empty());
}

#[test]
fn cid_widths_codes_are_cut_to_16_bits() {
    let items = vec![
        WidthItem::Number(65536 + 4, 0.0),
        WidthItem::List(vec![Some(0.3)]),
    ];
    let w = parse_cid_widths(&items);
    assert_eq!(w.get(&4), Some(&0.3));
}

#[test]
fn cid_widths_overflowing_list_does_not_fit() {
    let items = vec![
        WidthItem::Number(65535, 0.0),
        WidthItem::List(vec![Some(0.3), Some(0.4)]),
    ];
    assert!(!cid_widths_fit_check(&items));
    let ends_on_last_code = vec![
        WidthItem::Number(65535, 0.0),
        WidthItem::List(vec![Some(0.3), None]),
    ];
    assert!(cid_widths_fit_check(&ends_on_last_code));
    let w = parse_cid_widths(&ends_on_last_code);
    assert_eq!(w.get(&65535), Some(&0.3));
}
