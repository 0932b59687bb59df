use zelkova::gui::command_palette::{CommandPalette, Tone};

fn palette() -> CommandPalette {
    CommandPalette::new(&["Work".to_string()], &[])
}

#[test]
fn palette_lists_all_commands() {
    let p = palette();
    assert_eq!(p.filtered(), &(0..12).collect::<Vec<usize>>()[..]);
    assert_eq!(p.selected(), 0);
    assert_eq!(p.arg_index(), None);
    assert_eq!(p.query(), "");
}

#[test]
fn palette_filters_and_runs_command_without_args() {
    let mut p = palette();
    p.replace_text_in_range(None, "quit");
    assert_eq!(p.query(), "quit");
    assert_eq!(p.filtered(), &[11]);
    assert_eq!(p.handle_confirm(), Some(("Quit".to_string(), vec![])));
}

#[test]
fn palette_selection_clamped_by_filter() {
    let mut p = palette();
    p.move_selection_down();
    p.move_selection_down();
    p.move_selection_down();
    assert_eq!(p.selected(), 3);
    p.move_selection_up();
    assert_eq!(p.selected(), 2);
    p.replace_text_in_range(None, "quit");
    assert_eq!(p.selected(), 0);
}

#[test]
fn palette_create_folder_flow() {
    let mut p = palette();
    p.replace_text_in_range(None, "create folder");
    assert_eq!(p.filtered(), &[3]);
    assert_eq!(p.handle_confirm(), None);
    assert_eq!(p.arg_index(), Some(0));
    // The folder name is required.
    assert_eq!(p.handle_confirm(), None);
    assert_eq!(p.arg_index(), Some(0));
    p.replace_text_in_range(None, "Ideas");
    assert_eq!(p.handle_confirm(), None);
    assert_eq!(p.arg_index(), Some(1));
    assert_eq!(p.arg_input(), "");
    p.move_selection_down();
    assert_eq!(
        p.handle_confirm(),
        Some((
            "Create Folder".to_string(),
            vec![Some("Ideas".to_string()), Some("Work".to_string())]
        ))
    );
}

#[test]
fn palette_optional_args_left_empty() {
    let mut p = palette();
    p.replace_text_in_range(None, "create note");
    assert_eq!(p.filtered(), &[2]);
    assert_eq!(p.handle_confirm(), None);
    assert_eq!(p.handle_confirm(), None);
    assert_eq!(p.arg_index(), Some(1));
    // No option matches "zzz": the optional folder is left out.
    p.replace_text_in_range(None, "zzz");
    assert_eq!(
        p.handle_confirm(),
        Some(("Create Note".to_string(), vec![None, None]))
    );
}

#[test]
fn palette_back_through_arguments() {
    let mut p = palette();
    p.replace_text_in_range(None, "create folder");
    p.handle_confirm();
    p.replace_text_in_range(None, "Ideas");
    p.handle_confirm();
    assert_eq!(p.arg_index(), Some(1));
    assert!(!p.handle_back());
    assert_eq!(p.arg_index(), Some(0));
    // The input is restored from the value before the dropped one.
    assert_eq!(p.arg_input(), "");
    assert!(!p.handle_back());
    assert_eq!(p.arg_index(), None);
    assert!(p.handle_back());
}

#[test]
fn palette_backspace_and_cursor() {
    let mut p = palette();
    p.replace_text_in_range(None, "qx");
    assert!(p.filtered().is_empty());
    p.handle_backspace();
    assert_eq!(p.query(), "q");
    assert_eq!(p.filtered(), &[11]);
    assert_eq!(p.selected_text_range(), Some(1..1));
    p.move_cursor_left();
    assert_eq!(p.selected_text_range(), Some(0..0));
    p.handle_backspace();
    assert_eq!(p.query(), "q");
    p.move_cursor_right();
    p.move_cursor_right();
    assert_eq!(p.selected_text_range(), Some(1..1));
}

#[test]
fn palette_text_for_range_clamps() {
    let mut p = palette();
    p.replace_text_in_range(None, "save");
    assert_eq!(p.text_for_range(1..3), Some("av".to_string()));
    assert_eq!(p.text_for_range(2..10), Some("ve".to_string()));
    p.replace_text_in_range(Some(0..4), "list");
    assert_eq!(p.query(), "list");
    assert_eq!(p.filtered(), &[7]);
}

#[test]
fn palette_display_select_command() {
    let mut p = palette();
    let d = p.display();
    assert_eq!(d.step, None);
    assert_eq!(d.prompt, "> \u{2588}");
    assert_eq!(d.spans, vec![(0..2, Tone::Dim), (2..3, Tone::Bright)]);
    assert_eq!(d.items.len(), 10);
    assert_eq!(d.items[0], ("Open Command Palette".to_string(), true));
    assert_eq!(d.items[1], ("Search Notes".to_string(), false));
    p.replace_text_in_range(None, "quit");
    p.move_cursor_left();
    let d = p.display();
    assert_eq!(d.prompt, "> qui\u{2588}t");
    assert_eq!(d.spans, vec![(0..2, Tone::Dim), (5..8, Tone::Bright)]);
    assert_eq!(d.items, vec![("Quit".to_string(), true)]);
}

#[test]
fn palette_display_arguments() {
    let mut p = palette();
    p.replace_text_in_range(None, "create folder");
    assert_eq!(p.handle_confirm(), None);
    let d = p.display();
    assert_eq!(d.step, Some("Create Folder [1/2]".to_string()));
    assert_eq!(d.prompt, "Folder name: \u{2588}");
    assert_eq!(
        d.spans,
        vec![(0..13, Tone::Bright), (13..16, Tone::Bright), (16..16, Tone::Dim)]
    );
    assert!(d.items.is_empty());
    p.replace_text_in_range(None, "Ide");
    let d = p.display();
    assert_eq!(d.prompt, "Folder name: Ide\u{2588}");
    assert_eq!(d.spans, vec![(0..13, Tone::Dim), (16..19, Tone::Bright)]);
    assert_eq!(p.handle_confirm(), None);
    let d = p.display();
    assert_eq!(d.step, Some("Create Folder [2/2]".to_string()));
    assert_eq!(d.prompt, "Parent folder: \u{2588}(optional)");
    assert_eq!(d.spans[2], (18..28, Tone::Dim));
    assert_eq!(d.items[0].1, true);
    assert_eq!(d.items.len(), 2);
}
