use zelkova::rope::{Buffer, Rope};

#[test]
fn empty_rope() {
    let rope = Rope::new();
    assert_eq!(rope.text(), "");
    assert_eq!(rope.char_count(), 0);
}

#[test]
fn from_text() {
    let rope = Rope::from("hello world");
    assert_eq!(rope.text(), "hello world");
    assert_eq!(rope.char_count(), 11);
}

#[test]
fn insert_at_start() {
    let mut rope = Rope::from("world");
    rope.insert(0, "hello ");
    assert_eq!(rope.text(), "hello world");
}

#[test]
fn insert_at_end() {
    let mut rope = Rope::from("hello");
    rope.insert(5, " world");
    assert_eq!(rope.text(), "hello world");
}

#[test]
fn insert_in_middle() {
    let mut rope = Rope::from("hello world");
    rope.insert(5, " beautiful");
    assert_eq!(rope.text(), "hello beautiful world");
}

#[test]
fn delete_from_start() {
    let mut rope = Rope::from("hello world");
    rope.delete(0, 6);
    assert_eq!(rope.text(), "world");
}

#[test]
fn delete_from_middle() {
    let mut rope = Rope::from("hello beautiful world");
    rope.delete(5, 15);
    assert_eq!(rope.text(), "hello world");
}

#[test]
fn line_access() {
    let rope = Rope::from("line one\nline two\nline three");
    assert_eq!(rope.line(0), "line one");
    assert_eq!(rope.line(1), "line two");
    assert_eq!(rope.line(2), "line three");
}

#[test]
fn large_text_insert() {
    let mut rope = Rope::new();
    for i in 0..100 {
        rope.insert(rope.char_count(), &format!("line {i}\n"));
    }
    assert!(rope.text().contains("line 99"));
    assert!(rope.line_count() >= 100);
}

#[test]
fn char_at() {
    let rope = Rope::from("hello");
    assert_eq!(rope.char_at(0), Some('h'));
    assert_eq!(rope.char_at(4), Some('o'));
    assert_eq!(rope.char_at(5), None);
}

#[test]
fn insert_causes_split() {
    let long_text = "a".repeat(600);
    let mut rope = Rope::from(&long_text);
    rope.insert(300, "INSERTED");
    let text = rope.text();
    assert!(text.contains("INSERTED"));
    assert_eq!(text.len(), 608);
}

#[test]
fn buffer_insert_and_text() {
    let mut buf = Buffer::new();
    buf.insert(0, "hello");
    assert_eq!(buf.text(), "hello");
}

#[test]
fn buffer_delete() {
    let mut buf = Buffer::from("hello world");
    buf.delete(5, 11);
    assert_eq!(buf.text(), "hello");
}

#[test]
fn buffer_undo_insert() {
    let mut buf = Buffer::from("world");
    buf.insert(0, "hello ");
    assert_eq!(buf.text(), "hello world");
    assert!(buf.undo());
    assert_eq!(buf.text(), "world");
}

#[test]
fn buffer_undo_delete() {
    let mut buf = Buffer::from("hello world");
    buf.delete(5, 11);
    assert_eq!(buf.text(), "hello");
    assert!(buf.undo());
    assert_eq!(buf.text(), "hello world");
}

#[test]
fn buffer_redo() {
    let mut buf = Buffer::from("hello");
    buf.insert(5, " world");
    buf.undo();
    assert_eq!(buf.text(), "hello");
    assert!(buf.redo());
    assert_eq!(buf.text(), "hello world");
}

#[test]
fn buffer_multiple_undo_redo() {
    let mut buf = Buffer::new();
    buf.insert(0, "a");
    buf.insert(1, "b");
    buf.insert(2, "c");
    assert_eq!(buf.text(), "abc");

    buf.undo();
    assert_eq!(buf.text(), "ab");
    buf.undo();
    assert_eq!(buf.text(), "a");
    buf.undo();
    assert_eq!(buf.text(), "");

    buf.redo();
    assert_eq!(buf.text(), "a");
    buf.redo();
    assert_eq!(buf.text(), "ab");
}

#[test]
fn buffer_redo_cleared_on_new_edit() {
    let mut buf = Buffer::from("hello");
    buf.insert(5, " world");
    buf.undo();
    assert!(buf.can_redo());
    buf.insert(5, "!");
    assert!(!buf.can_redo());
}

#[test]
fn undo_then_redo_restores_edit() {
    let mut buf = Buffer::from("héllo wörld");
    let before = buf.text();
    buf.edit(1, 3, "E");
    let after = buf.text();
    assert_eq!(after, "hEllo wörld");
    assert!(buf.undo());
    assert_eq!(buf.text(), before);
    assert!(buf.redo());
    assert_eq!(buf.text(), after);
    assert!(!buf.can_redo());
    assert!(buf.can_undo());
}

#[test]
fn undo_on_fresh_buffer_does_nothing() {
    let mut buf = Buffer::from("abc");
    assert!(!buf.undo());
    assert!(!buf.redo());
    assert_eq!(buf.text(), "abc");
}

#[test]
fn rope_counts_bytes_and_lines() {
    let mut rope = Rope::from("ab\ncd");
    assert_eq!(rope.char_count(), 5);
    assert_eq!(rope.line_count(), 2);
    rope.insert(5, "é");
    assert_eq!(rope.char_count(), 7);
    assert_eq!(rope.line(1), "cdé");
    assert_eq!(rope.line(5), "");
}

#[test]
fn rope_delete_past_end_is_clamped() {
    let mut rope = Rope::from("hello");
    rope.delete(3, 100);
    assert_eq!(rope.text(), "hel");
    rope.delete(2, 2);
    assert_eq!(rope.text(), "hel");
}

#[test]
fn rope_insert_past_end_appends() {
    let mut rope = Rope::from("ab");
    rope.insert(10, "cd");
    assert_eq!(rope.text(), "abcd");
}

#[test]
fn rope_large_text_keeps_content() {
    let text: String = (0..200).map(|i| format!("row {i}\n")).collect();
    let rope = Rope::from(&text);
    assert_eq!(rope.text(), text);
    assert_eq!(rope.char_count(), text.len());
    assert_eq!(rope.line(150), "row 150");
}

#[test]
fn line_spanning_two_leaves() {
    let long = "a".repeat(600);
    let text = format!("{}\nb", long);
    let rope = Rope::from(text.as_str());
    assert_eq!(rope.line(0), long);
    assert_eq!(rope.line(1), "b");
    assert_eq!(rope.line(2), "");
}

#[test]
fn buffer_line_spanning_two_leaves() {
    let long = "x".repeat(700);
    let b = Buffer::from(long.as_str());
    assert_eq!(b.line(0).len(), 700);
}

#[test]
fn buffer_edit_after_undo_and_redo() {
    let mut b = Buffer::new();
    b.insert(0, "hello");
    b.insert(5, " world");
    assert!(b.undo());
    assert_eq!(b.text(), "hello");
    b.insert(5, "!");
    assert_eq!(b.text(), "hello!");
    assert!(!b.can_redo());
    assert!(b.undo());
    assert!(b.undo());
    assert_eq!(b.text(), "");
    assert!(b.redo());
    assert!(b.redo());
    assert_eq!(b.text(), "hello!");
}
