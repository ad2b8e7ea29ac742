use masking_tool::color::{overlay_is_white, strongest_color, MaskColor};

#[test]
fn white_spellings_select_white() {
    assert_eq!(MaskColor::from_str("white"), MaskColor::White);
    assert_eq!(MaskColor::from_str("White"), MaskColor::White);
    assert_eq!(MaskColor::from_str("WHITE"), MaskColor::White);
}

#[test]
fn other_names_select_black() {
    assert_eq!(MaskColor::from_str("black"), MaskColor::Black);
    assert_eq!(MaskColor::from_str("wHite"), MaskColor::Black);
    assert_eq!(MaskColor::from_str(" white"), MaskColor::Black);
    assert_eq!(MaskColor::from_str(""), MaskColor::Black);
    assert_eq!(MaskColor::from_str("#ffffff"), MaskColor::Black);
}

#[test]
fn overlay_white_only_for_exact_lowercase_name() {
    assert!(overlay_is_white("white"));
    assert!(!overlay_is_white("White"));
    assert!(!overlay_is_white("WHITE"));
    assert!(!overlay_is_white("black"));
    assert!(!overlay_is_white(""));
}

#[test]
fn strongest_color_of_no_masks_is_none() {
    assert_eq!(strongest_color(&[]), None);
}

#[test]
fn strongest_color_of_white_masks_is_white() {
    assert_eq!(strongest_color(&[MaskColor::White]), Some(MaskColor::White));
    assert_eq!(
        strongest_color(&[MaskColor::White, MaskColor::White]),
        Some(MaskColor::White)
    );
}

#[test]
fn black_wins_over_white_where_masks_overlap() {
    assert_eq!(
        strongest_color(&[MaskColor::White, MaskColor::Black, MaskColor::White]),
        Some(MaskColor::Black)
    );
    assert_eq!(
        strongest_color(&[MaskColor::Black, MaskColor::White]),
        Some(MaskColor::Black)
    );
    assert_eq!(strongest_color(&[MaskColor::Black]), Some(MaskColor::Black));
}
