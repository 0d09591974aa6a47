use editor_core::error::EditError;
use editor_core::file::{LocalFile, ReadFile};

fn lines_of(file: &LocalFile) -> Vec<String> {
    file.all_lines()
        .into_iter()
        .map(|row| String::from_utf8(row).expect("rows are complete characters"))
        .collect()
}

#[test]
fn load_expands_tab_to_spaces() {
    let file = LocalFile::from_bytes(&b"a\tb".to_vec(), 4).expect("valid content");
    assert_eq!(lines_of(&file), vec!["a    b".to_string()]);
}

#[test]
fn load_empty_gives_one_empty_row() {
    let file = LocalFile::from_bytes(&Vec::new(), 4).expect("valid content");
    assert_eq!(lines_of(&file), vec![String::new()]);
}

#[test]
fn load_strips_carriage_returns_and_splits_on_line_feeds() {
    let file = LocalFile::from_bytes(&b"ab\r\ncd".to_vec(), 8).expect("valid content");
    assert_eq!(lines_of(&file), vec!["ab".to_string(), "cd".to_string()]);
}

#[test]
fn load_keeps_trailing_empty_row() {
    let file = LocalFile::from_bytes(&b"ab\n".to_vec(), 8).expect("valid content");
    assert_eq!(lines_of(&file), vec!["ab".to_string(), String::new()]);
}

#[test]
fn load_refuses_incomplete_characters() {
    let r = LocalFile::from_bytes(&vec![0x61, 0x80], 4);
    assert!(matches!(r, Err(EditError::LoadFailure)));
    let overlong = LocalFile::from_bytes(&vec![0xC0, 0x80], 4);
    assert!(matches!(overlong, Err(EditError::LoadFailure)));
}

#[test]
fn load_tab_size_two() {
    let file = LocalFile::from_bytes(&b"\t".to_vec(), 2).expect("valid content");
    assert_eq!(lines_of(&file), vec!["  ".to_string()]);
}

#[test]
fn load_keeps_multi_byte_characters_whole() {
    let content = "é\nö".as_bytes().to_vec();
    let file = LocalFile::from_bytes(&content, 4).expect("valid content");
    assert_eq!(lines_of(&file), vec!["é".to_string(), "ö".to_string()]);
}
