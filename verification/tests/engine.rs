use editor_core::config::{Config, Configurable};
use editor_core::cursor::Cursor;
use editor_core::error::EditError;
use editor_core::file::LocalFile;
use editor_core::lifecycle::Lifecycle;
use editor_core::tab::{type_text, InputEvent, Tab};

fn tab_from(content: &[u8]) -> Tab {
    let file = LocalFile::from_bytes(&content.to_vec(), 4).expect("valid content");
    Tab::new(file, Cursor::default()).expect("loaded rows are valid")
}

fn rows_of(tab: &Tab) -> Vec<String> {
    tab.lines
        .iter()
        .map(|row| String::from_utf8(row.clone()).expect("rows are complete characters"))
        .collect()
}

#[test]
fn scenario_move_and_delete() {
    let mut tab = tab_from(b"ab\ncd");
    assert_eq!((tab.cursor.y, tab.cursor.x), (0, 0));
    assert_eq!(tab.apply_event(InputEvent::MoveDown), Ok(()));
    assert_eq!((tab.cursor.y, tab.cursor.x), (1, 0));
    assert_eq!(tab.apply_event(InputEvent::MoveEnd), Ok(()));
    assert_eq!((tab.cursor.y, tab.cursor.x), (1, 2));
    assert_eq!(tab.apply_event(InputEvent::DeleteBackward), Ok(()));
    assert_eq!(rows_of(&tab), vec!["ab".to_string(), "c".to_string()]);
    assert_eq!((tab.cursor.y, tab.cursor.x), (1, 1));
}

#[test]
fn scenario_insert_into_empty_document() {
    let mut tab = tab_from(b"");
    assert_eq!(rows_of(&tab), vec![String::new()]);
    assert_eq!((tab.cursor.y, tab.cursor.x), (0, 0));
    assert_eq!(tab.apply_event(InputEvent::InsertText(b"x".to_vec())), Ok(()));
    assert_eq!(rows_of(&tab), vec!["x".to_string()]);
    assert_eq!((tab.cursor.y, tab.cursor.x), (0, 1));
}

#[test]
fn boundary_moves_are_no_ops() {
    let mut tab = tab_from(b"ab");
    assert_eq!(tab.apply_event(InputEvent::MoveLeft), Ok(()));
    assert_eq!((tab.cursor.y, tab.cursor.x), (0, 0));
    assert_eq!(tab.apply_event(InputEvent::MoveUp), Ok(()));
    assert_eq!(tab.apply_event(InputEvent::MoveDown), Ok(()));
    assert_eq!((tab.cursor.y, tab.cursor.x), (0, 0));
    assert_eq!(tab.apply_event(InputEvent::MoveEnd), Ok(()));
    assert_eq!((tab.cursor.y, tab.cursor.x), (0, 2));
    assert_eq!(tab.apply_event(InputEvent::MoveRight), Ok(()));
    assert_eq!((tab.cursor.y, tab.cursor.x), (0, 2));
    assert_eq!(rows_of(&tab), vec!["ab".to_string()]);
}

#[test]
fn delete_at_row_edges_is_a_no_op() {
    let mut tab = tab_from(b"ab\ncd");
    // backward at column zero: no merge with the previous row
    assert_eq!(tab.apply_event(InputEvent::MoveDown), Ok(()));
    assert_eq!(tab.apply_event(InputEvent::DeleteBackward), Ok(()));
    assert_eq!(rows_of(&tab), vec!["ab".to_string(), "cd".to_string()]);
    // forward at the row's end: no merge with the next row
    assert_eq!(tab.apply_event(InputEvent::MoveUp), Ok(()));
    assert_eq!(tab.apply_event(InputEvent::MoveEnd), Ok(()));
    assert_eq!(tab.apply_event(InputEvent::DeleteForward), Ok(()));
    assert_eq!(rows_of(&tab), vec!["ab".to_string(), "cd".to_string()]);
}

#[test]
fn move_home_twice_equals_once() {
    let mut once = tab_from(b"hello");
    once.apply_event(InputEvent::MoveEnd).unwrap();
    let mut twice = tab_from(b"hello");
    twice.apply_event(InputEvent::MoveEnd).unwrap();
    once.apply_event(InputEvent::MoveHome).unwrap();
    twice.apply_event(InputEvent::MoveHome).unwrap();
    twice.apply_event(InputEvent::MoveHome).unwrap();
    assert_eq!(rows_of(&once), rows_of(&twice));
    assert_eq!((once.cursor.y, once.cursor.x), (twice.cursor.y, twice.cursor.x));
    assert_eq!((once.cursor.y, once.cursor.x), (0, 0));
}

#[test]
fn insert_then_delete_backward_restores_the_row() {
    let mut tab = tab_from("héllo".as_bytes());
    tab.apply_event(InputEvent::MoveRight).unwrap();
    tab.apply_event(InputEvent::MoveRight).unwrap();
    assert_eq!((tab.cursor.y, tab.cursor.x), (0, 2));
    let inserted = "wörld".as_bytes().to_vec();
    assert_eq!(tab.apply_event(InputEvent::InsertText(inserted)), Ok(()));
    assert_eq!(rows_of(&tab), vec!["héwörldllo".to_string()]);
    assert_eq!((tab.cursor.y, tab.cursor.x), (0, 7));
    for _ in 0.."wörld".chars().count() {
        assert_eq!(tab.apply_event(InputEvent::DeleteBackward), Ok(()));
    }
    assert_eq!(rows_of(&tab), vec!["héllo".to_string()]);
    assert_eq!((tab.cursor.y, tab.cursor.x), (0, 2));
}

#[test]
fn multi_byte_characters_move_and_delete_whole() {
    let mut tab = tab_from("é".as_bytes());
    assert_eq!(tab.apply_event(InputEvent::MoveEnd), Ok(()));
    assert_eq!((tab.cursor.y, tab.cursor.x), (0, 1));
    assert_eq!(tab.apply_event(InputEvent::DeleteBackward), Ok(()));
    assert_eq!(rows_of(&tab), vec![String::new()]);
    assert_eq!((tab.cursor.y, tab.cursor.x), (0, 0));
}

#[test]
fn delete_forward_removes_the_character_at_the_cursor() {
    let mut tab = tab_from(b"abc");
    tab.apply_event(InputEvent::MoveRight).unwrap();
    assert_eq!(tab.apply_event(InputEvent::DeleteForward), Ok(()));
    assert_eq!(rows_of(&tab), vec!["ac".to_string()]);
    assert_eq!((tab.cursor.y, tab.cursor.x), (0, 1));
}

#[test]
fn vertical_moves_clamp_to_character_counts() {
    // the second row has two characters in four bytes: the clamp counts
    // characters, not bytes
    let mut tab = tab_from("xy\néé\nabcd".as_bytes());
    tab.apply_event(InputEvent::MoveDown).unwrap();
    tab.apply_event(InputEvent::MoveDown).unwrap();
    tab.apply_event(InputEvent::MoveEnd).unwrap();
    assert_eq!((tab.cursor.y, tab.cursor.x), (2, 4));
    tab.apply_event(InputEvent::MoveUp).unwrap();
    assert_eq!((tab.cursor.y, tab.cursor.x), (1, 2));
    tab.apply_event(InputEvent::MoveUp).unwrap();
    assert_eq!((tab.cursor.y, tab.cursor.x), (0, 2));
}

#[test]
fn incomplete_insertion_is_dropped_whole() {
    let mut tab = tab_from(b"ab");
    let r = tab.apply_event(InputEvent::InsertText(vec![0xC3]));
    assert_eq!(r, Err(EditError::EngineFault));
    assert_eq!(rows_of(&tab), vec!["ab".to_string()]);
    assert_eq!((tab.cursor.y, tab.cursor.x), (0, 0));
}

#[test]
fn unknown_events_are_ignored() {
    let mut tab = tab_from(b"ab");
    assert_eq!(tab.apply_event(InputEvent::Unknown), Ok(()));
    assert_eq!(rows_of(&tab), vec!["ab".to_string()]);
    assert_eq!((tab.cursor.y, tab.cursor.x), (0, 0));
}

#[test]
fn tick_drains_pending_events_in_arrival_order() {
    let mut tab = tab_from(b"ab\ncd");
    tab.push_event(InputEvent::MoveDown);
    tab.push_event(InputEvent::MoveEnd);
    tab.push_event(InputEvent::InsertText(b"!".to_vec()));
    assert_eq!(tab.tick(), Ok(()));
    assert_eq!(rows_of(&tab), vec!["ab".to_string(), "cd!".to_string()]);
    assert_eq!((tab.cursor.y, tab.cursor.x), (1, 3));
    // a drained queue stays drained
    assert_eq!(tab.tick(), Ok(()));
    assert_eq!(rows_of(&tab), vec!["ab".to_string(), "cd!".to_string()]);
}

#[test]
fn tick_reports_dropped_events_but_applies_the_rest() {
    let mut tab = tab_from(b"ab");
    tab.push_event(InputEvent::InsertText(vec![0x80]));
    tab.push_event(InputEvent::MoveRight);
    assert_eq!(tab.tick(), Err(EditError::EngineFault));
    assert_eq!(rows_of(&tab), vec!["ab".to_string()]);
    assert_eq!((tab.cursor.y, tab.cursor.x), (0, 1));
}

#[test]
fn type_text_inserts_at_the_translated_offset() {
    let mut lines = vec!["ab".as_bytes().to_vec()];
    let mut x: usize = 1;
    let y: usize = 0;
    assert_eq!(type_text(&mut lines, &mut x, &y, "é".as_bytes().to_vec()), Ok(()));
    assert_eq!(lines, vec!["aéb".as_bytes().to_vec()]);
    assert_eq!(x, 2);
}

#[test]
fn type_text_clamps_a_column_past_the_row_end() {
    let mut lines = vec![b"ab".to_vec()];
    let mut x: usize = 9;
    let y: usize = 0;
    assert_eq!(type_text(&mut lines, &mut x, &y, b"c".to_vec()), Ok(()));
    assert_eq!(lines, vec![b"abc".to_vec()]);
    assert_eq!(x, 3);
}

#[test]
fn from_lines_clamps_the_cursor_onto_the_text() {
    let mut cursor = Cursor::default();
    cursor.x = 5;
    cursor.y = 5;
    let tab = Tab::from_lines(vec![b"ab".to_vec()], cursor).expect("valid rows");
    assert_eq!((tab.cursor.y, tab.cursor.x), (0, 2));
}

#[test]
fn from_lines_refuses_incomplete_rows() {
    let r = Tab::from_lines(vec![vec![0xC3]], Cursor::default());
    assert!(matches!(r, Err(EditError::LoadFailure)));
}

#[test]
fn from_lines_of_nothing_gives_one_empty_row() {
    let tab = Tab::from_lines(Vec::new(), Cursor::default()).expect("valid rows");
    assert_eq!(rows_of(&tab), vec![String::new()]);
}

#[test]
fn config_default_values() {
    let c = Config::default();
    assert_eq!(c.font_size, 16);
    assert_eq!(c.line_height, 24);
    assert_eq!(c.tab_size, 8);
    assert_eq!(c.font_path, "./fonts/ttf/JetBrainsMono-Regular.ttf".to_string());
}

#[test]
fn cursor_default_and_configuration() {
    let mut cursor = Cursor::default();
    assert_eq!((cursor.y, cursor.x), (0, 0));
    let mut config = Config::default();
    config.line_height = 30;
    cursor.config(&config);
    assert_eq!(cursor.config.line_height, 30);
}
