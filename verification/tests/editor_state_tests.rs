use zelkova::config::AppConfig;
use zelkova::gui::editor::{EditZone, EditorState, NoteHeader};
use zelkova::gui::lines::{byte_to_line_col, line_col_to_byte};
use zelkova::gui::util::split_lines;

fn note(body: &str, title: &str, tags: &[&str]) -> EditorState {
    EditorState::from_note(
        body,
        Some(NoteHeader {
            title: title.to_string(),
            tags: tags.iter().map(|t| t.to_string()).collect(),
        }),
    )
}

fn tags_of(e: &EditorState) -> Vec<String> {
    e.tags().to_vec()
}

#[test]
fn config_path_is_under_xdg() {
    let path = AppConfig::config_path().expect("config path is valid in test env");
    assert!(path.contains("zelkova"));
    assert!(path.ends_with("config.toml"));
}

#[test]
fn new_editor_is_empty_and_clean() {
    let e = EditorState::new();
    assert_eq!(e.text(), "");
    assert_eq!(e.lines().to_vec(), vec![String::new()]);
    assert!(!e.is_dirty());
    assert_eq!(e.title(), "Untitled");
    assert!(e.tags().is_empty());
    assert_eq!(e.zone(), EditZone::Content);
}

#[test]
fn paste_writes_at_cursor_and_undo_redo() {
    let mut e = EditorState::new();
    e.paste("hello");
    assert_eq!(e.text(), "hello");
    assert_eq!(e.cursor(), 5);
    assert!(e.is_dirty());
    e.paste(" world");
    assert_eq!(e.text(), "hello world");
    assert!(e.undo());
    assert_eq!(e.text(), "hello");
    assert_eq!(e.cursor(), 5);
    assert!(e.undo());
    assert_eq!(e.text(), "");
    assert_eq!(e.cursor(), 0);
    assert!(!e.undo());
    assert!(e.redo());
    assert_eq!(e.text(), "hello");
    assert!(e.redo());
    assert_eq!(e.text(), "hello world");
    assert!(!e.redo());
}

#[test]
fn enter_splits_lines() {
    let mut e = EditorState::new();
    e.paste("ab");
    e.move_left();
    e.enter();
    assert_eq!(e.text(), "a\nb");
    assert_eq!(e.cursor(), 2);
    assert_eq!(e.lines().to_vec(), vec!["a".to_string(), "b".to_string()]);
    e.move_right();
    e.enter();
    assert_eq!(e.text(), "a\nb\n");
    assert_eq!(e.lines().len(), 3);
}

#[test]
fn backspace_removes_whole_character() {
    let mut e = EditorState::new();
    e.paste("aé日");
    assert_eq!(e.cursor(), 6);
    e.backspace();
    assert_eq!(e.text(), "aé");
    assert_eq!(e.cursor(), 3);
    e.backspace();
    assert_eq!(e.text(), "a");
    e.backspace();
    assert_eq!(e.text(), "");
    e.backspace();
    assert_eq!(e.text(), "");
    assert_eq!(e.cursor(), 0);
    assert!(e.undo());
    assert_eq!(e.text(), "a");
}

#[test]
fn arrows_move_by_character() {
    let mut e = EditorState::new();
    e.paste("é1");
    e.move_left();
    assert_eq!(e.cursor(), 2);
    e.move_left();
    assert_eq!(e.cursor(), 0);
    e.move_left();
    assert_eq!(e.cursor(), 0);
    e.move_right();
    assert_eq!(e.cursor(), 2);
    e.move_right();
    e.move_right();
    assert_eq!(e.cursor(), 3);
}

#[test]
fn selection_copy_cut() {
    let mut e = EditorState::new();
    e.paste("hello world");
    e.select_left();
    e.select_left();
    e.select_left();
    e.select_left();
    e.select_left();
    assert_eq!(e.selection(), Some(6..11));
    assert_eq!(e.cursor(), 6);
    assert_eq!(e.copy_text(), Some("world".to_string()));
    let cut = e.cut();
    assert_eq!(cut, Some("world".to_string()));
    assert_eq!(e.text(), "hello ");
    assert_eq!(e.selection(), None);
    assert_eq!(e.cursor(), 6);
    assert!(e.undo());
    assert_eq!(e.text(), "hello world");
}

#[test]
fn select_all_then_paste_replaces() {
    let mut e = EditorState::new();
    e.paste("abc");
    e.select_all();
    assert_eq!(e.selection(), Some(0..3));
    e.paste("xy");
    assert_eq!(e.text(), "xy");
    assert_eq!(e.cursor(), 2);
    assert_eq!(e.selection(), None);
    assert!(e.undo());
    assert_eq!(e.text(), "");
    assert!(e.undo());
    assert_eq!(e.text(), "abc");
}

#[test]
fn selection_anchor_stays() {
    let mut e = EditorState::new();
    e.paste("abcd");
    e.move_left();
    e.move_left();
    e.select_right();
    assert_eq!(e.selection(), Some(2..3));
    e.select_left();
    e.select_left();
    assert_eq!(e.selection(), Some(1..2));
    assert_eq!(e.cursor(), 1);
    e.move_right();
    assert_eq!(e.cursor(), 2);
    assert_eq!(e.selection(), None);
}

#[test]
fn copy_without_selection_is_nothing() {
    let mut e = EditorState::new();
    e.paste("abc");
    assert_eq!(e.copy_text(), None);
}

#[test]
fn vertical_moves_keep_column() {
    let mut e = EditorState::from_note("abcd\nxy\nlonger line", None);
    e.move_right();
    e.move_right();
    e.move_right();
    assert_eq!(e.cursor(), 3);
    e.move_down();
    assert_eq!(e.cursor(), 7);
    e.move_down();
    assert_eq!(e.cursor(), 10);
    e.move_down();
    assert_eq!(e.cursor(), 10);
    e.move_up();
    assert_eq!(e.cursor(), 7);
    e.select_up();
    assert_eq!(e.selection(), Some(2..7));
    e.select_down();
    assert_eq!(e.selection(), Some(7..7));
}

#[test]
fn opened_note_with_empty_title_edits_title() {
    let mut e = note("body", "", &[]);
    assert_eq!(e.zone(), EditZone::Title);
    e.paste("My title");
    assert_eq!(e.title(), "My title");
    assert!(e.is_dirty());
    e.backspace();
    assert_eq!(e.title(), "My titl");
    e.enter();
    assert_eq!(e.zone(), EditZone::Content);
    assert_eq!(e.cursor(), 0);
    assert_eq!(e.text(), "body");
}

#[test]
fn tag_input_round_trip() {
    let mut e = note("first\nsecond", "T", &["rust", "notes"]);
    assert_eq!(e.zone(), EditZone::Content);
    e.move_up();
    assert_eq!(e.zone(), EditZone::TagInput);
    assert_eq!(e.text_for_range(0..100), Some("#rust #notes ".to_string()));
    e.move_down();
    assert_eq!(e.zone(), EditZone::Content);
    assert_eq!(tags_of(&e), vec!["rust".to_string(), "notes".to_string()]);
    assert!(e.is_dirty());
}

#[test]
fn tag_input_commits_parsed_tags() {
    let mut e = note("text", "T", &[]);
    e.move_up();
    assert_eq!(e.zone(), EditZone::TagInput);
    e.paste("#a\u{3000}#b plain #a #");
    e.enter();
    assert_eq!(e.zone(), EditZone::Content);
    assert_eq!(tags_of(&e), vec!["a".to_string(), "b".to_string()]);
    e.move_up();
    e.move_up();
    assert_eq!(e.zone(), EditZone::Title);
    e.move_down();
    assert_eq!(e.zone(), EditZone::TagInput);
}

#[test]
fn add_and_remove_tags() {
    let mut e = note("", "T", &["x"]);
    e.add_tag("y".to_string());
    e.add_tag("x".to_string());
    assert_eq!(tags_of(&e), vec!["x".to_string(), "y".to_string()]);
    e.remove_tag("x");
    assert_eq!(tags_of(&e), vec!["y".to_string()]);
    assert!(e.is_dirty());
    e.mark_saved();
    assert!(!e.is_dirty());
    let mut plain = EditorState::new();
    plain.add_tag("z".to_string());
    assert!(plain.tags().is_empty());
    assert!(!plain.is_dirty());
}

#[test]
fn ime_composition_and_commit() {
    let mut e = EditorState::new();
    e.paste("ab");
    e.replace_and_mark_text_in_range(None, "に", None);
    assert_eq!(e.text(), "abに");
    assert_eq!(e.marked_text_range(), Some(2..3));
    e.replace_and_mark_text_in_range(Some(2..3), "にほ", None);
    assert_eq!(e.text(), "abにほ");
    assert_eq!(e.marked_text_range(), Some(2..4));
    e.replace_text_in_range(Some(2..4), "日本");
    assert_eq!(e.text(), "ab日本");
    assert_eq!(e.marked_text_range(), None);
    assert_eq!(e.cursor(), 8);
    assert_eq!(e.selected_text_range(), 4..4);
    assert_eq!(e.text_for_range(2..4), Some("日本".to_string()));
    assert_eq!(e.text_for_range(3..1), None);
}

#[test]
fn mouse_press_and_drag_select() {
    let mut e = EditorState::from_note("one\ntwo", None);
    e.press_text(1, 1);
    assert_eq!(e.cursor(), 5);
    e.drag_to(0, 1);
    assert_eq!(e.selection(), Some(1..5));
    e.release();
    e.drag_to(0, 0);
    assert_eq!(e.selection(), Some(1..5));
    e.click_title();
    assert_eq!(e.zone(), EditZone::Title);
    assert_eq!(e.selection(), None);
}

#[test]
fn line_col_round_trip_on_every_boundary() {
    for text in ["", "a", "ab\ncd\n", "é\n\n日本\nx", "\n"] {
        let count = split_lines(text).len();
        for p in 0..=text.len() {
            if !text.is_char_boundary(p) {
                continue;
            }
            let (l, c) = byte_to_line_col(text, count, p);
            assert_eq!(line_col_to_byte(text, l, c), p, "text {text:?} byte {p}");
        }
    }
}
