use editor_core::encoding::{is_well_formed, lead_width_of};
use editor_core::error::EditError;
use editor_core::translate::{char_idx_to_byte, count_chars, replace_range};

#[test]
fn char_idx_to_byte_on_mixed_width_row() {
    // "aéb": one 1-byte, one 2-byte, one 1-byte character
    let row = "aéb".as_bytes().to_vec();
    assert_eq!(row.len(), 4);
    assert_eq!(char_idx_to_byte(&row, 0), Ok(0));
    assert_eq!(char_idx_to_byte(&row, 1), Ok(1));
    assert_eq!(char_idx_to_byte(&row, 2), Ok(3));
    // the character count addresses the append position
    assert_eq!(char_idx_to_byte(&row, 3), Ok(4));
    // anything past it has no offset
    assert_eq!(char_idx_to_byte(&row, 4), Err(EditError::IndexOutOfRange));
}

#[test]
fn count_chars_counts_characters_not_bytes() {
    let row = "héé".as_bytes().to_vec();
    assert_eq!(row.len(), 5);
    assert_eq!(count_chars(&row), 3);
    assert_eq!(count_chars(&Vec::new()), 0);
}

#[test]
fn replace_range_splices_bytes() {
    let row = b"abcd".to_vec();
    let ins = b"XY".to_vec();
    assert_eq!(replace_range(&row, 1, 3, &ins), b"aXYd".to_vec());
    assert_eq!(replace_range(&row, 2, 2, &ins), b"abXYcd".to_vec());
    assert_eq!(replace_range(&row, 0, 4, &Vec::new()), Vec::<u8>::new());
}

#[test]
fn well_formed_checks_continuation_bytes() {
    assert!(is_well_formed(&"aé€😀".as_bytes().to_vec()));
    assert!(is_well_formed(&Vec::new()));
    assert!(!is_well_formed(&vec![0xC3])); // lead byte cut short
    assert!(!is_well_formed(&vec![0x80])); // continuation byte with no lead
    assert!(!is_well_formed(&vec![0xC3, 0x28])); // continuation missing
    assert!(!is_well_formed(&vec![0xFF, 0x61])); // no such lead byte
    assert!(!is_well_formed(&vec![0xC0, 0x80])); // overlong two-byte lead
    assert!(!is_well_formed(&vec![0xF5, 0x80, 0x80, 0x80])); // lead past the last code point
}

#[test]
fn lead_widths_follow_the_lead_byte() {
    assert_eq!(lead_width_of(0x61), 1);
    assert_eq!(lead_width_of(0xC3), 2);
    assert_eq!(lead_width_of(0xE2), 3);
    assert_eq!(lead_width_of(0xF0), 4);
    assert_eq!(lead_width_of(0x80), 0);
    assert_eq!(lead_width_of(0xC0), 0);
    assert_eq!(lead_width_of(0xF5), 0);
    assert_eq!(lead_width_of(0xFF), 0);
}
