use zelkova::directory::{DirectoryStructure, Folder, NoteMapping};
use zelkova::gui::workspace::{
    AppState,
    build_sidebar_items, find_note_by_title, plan_command, resolve_folder_id, CommandAction,
    NoteEntry, SidebarItem,
};

fn folder(id: u128, name: &str, parent: Option<u128>) -> Folder {
    Folder { id, name: name.to_string(), parent }
}

fn note(id: u128, title: &str) -> NoteEntry {
    NoteEntry { id, title: title.to_string(), path: format!("/v/{id}.md") }
}

fn args(v: &[&str]) -> Vec<Option<String>> {
    v.iter().map(|s| Some(s.to_string())).collect()
}

fn folders() -> Vec<Folder> {
    vec![folder(1, "Work", None), folder(2, "Ideas", Some(1)), folder(3, "Work", None)]
}

fn notes() -> Vec<NoteEntry> {
    vec![note(10, "Plan"), note(11, ""), note(12, "Plan")]
}

#[test]
fn resolve_folder_by_name() {
    let fs = folders();
    assert_eq!(resolve_folder_id(&fs, None), None);
    assert_eq!(resolve_folder_id(&fs, Some("(root)")), None);
    assert_eq!(resolve_folder_id(&fs, Some("Work")), Some(1));
    assert_eq!(resolve_folder_id(&fs, Some("Ideas")), Some(2));
    assert_eq!(resolve_folder_id(&fs, Some("Nope")), None);
}

#[test]
fn find_note_by_title_and_untitled() {
    let ns = notes();
    assert_eq!(find_note_by_title(&ns, Some("Plan")), Some(0));
    assert_eq!(find_note_by_title(&ns, Some("Untitled")), Some(1));
    assert_eq!(find_note_by_title(&ns, Some("Other")), None);
    assert_eq!(find_note_by_title(&ns, None), None);
}

#[test]
fn plan_create_commands() {
    let fs = folders();
    let ns = notes();
    match plan_command("Create Note", &args(&["Hello"]), &fs, &ns) {
        CommandAction::CreateNote { title } => assert_eq!(title, Some("Hello".to_string())),
        other => panic!("unexpected {other:?}"),
    }
    match plan_command("Create Note", &[], &fs, &ns) {
        CommandAction::CreateNote { title } => assert_eq!(title, None),
        other => panic!("unexpected {other:?}"),
    }
    match plan_command("Create Folder", &[None, Some("Ideas".to_string())], &fs, &ns) {
        CommandAction::CreateFolder { name, parent } => {
            assert_eq!(name, "New Folder");
            assert_eq!(parent, Some(2));
        }
        other => panic!("unexpected {other:?}"),
    }
}

#[test]
fn plan_moves_and_renames() {
    let fs = folders();
    let ns = notes();
    match plan_command("Move Note to Folder", &args(&["Untitled", "Work"]), &fs, &ns) {
        CommandAction::MoveNote { note_id, folder } => {
            assert_eq!(note_id, 11);
            assert_eq!(folder, Some(1));
        }
        other => panic!("unexpected {other:?}"),
    }
    match plan_command("Move Folder to Folder", &args(&["Ideas", "(root)"]), &fs, &ns) {
        CommandAction::MoveFolder { folder_id, folder } => {
            assert_eq!(folder_id, 2);
            assert_eq!(folder, None);
        }
        other => panic!("unexpected {other:?}"),
    }
    match plan_command("Rename Note", &args(&["Plan"]), &fs, &ns) {
        CommandAction::RenameNote { note_id, title } => {
            assert_eq!(note_id, 10);
            assert_eq!(title, "");
        }
        other => panic!("unexpected {other:?}"),
    }
    assert!(matches!(
        plan_command("Rename Folder", &args(&["Missing", "X"]), &fs, &ns),
        CommandAction::Nothing
    ));
}

#[test]
fn plan_deletions_need_confirmation() {
    let fs = folders();
    let ns = notes();
    assert!(matches!(
        plan_command("Delete Folder", &args(&["Work", "Delete notes too"]), &fs, &ns),
        CommandAction::Nothing
    ));
    match plan_command(
        "Delete Folder",
        &args(&["Work", "Delete notes too", "Yes, delete"]),
        &fs,
        &ns,
    ) {
        CommandAction::DeleteFolder { folder_id, cascade } => {
            assert_eq!(folder_id, 1);
            assert!(cascade);
        }
        other => panic!("unexpected {other:?}"),
    }
    match plan_command("Delete Folder", &[Some("Ideas".to_string()), None, Some("Yes, delete".to_string())], &fs, &ns) {
        CommandAction::DeleteFolder { folder_id, cascade } => {
            assert_eq!(folder_id, 2);
            assert!(!cascade);
        }
        other => panic!("unexpected {other:?}"),
    }
    assert!(matches!(
        plan_command("Delete Note", &args(&["Plan", "Cancel"]), &fs, &ns),
        CommandAction::Nothing
    ));
    assert!(matches!(
        plan_command("Delete Note", &args(&["Plan", "Yes, delete"]), &fs, &ns),
        CommandAction::DeleteNote { note_id: 10 }
    ));
}

#[test]
fn plan_pane_commands() {
    let fs = folders();
    let ns = notes();
    assert!(matches!(plan_command("Toggle Sidebar", &[], &fs, &ns), CommandAction::ToggleSidebar));
    assert!(matches!(plan_command("Split Pane Down", &[], &fs, &ns), CommandAction::SplitPaneDown));
    assert!(matches!(plan_command("Prev Tab", &[], &fs, &ns), CommandAction::PrevTab));
    assert!(matches!(plan_command("Quit", &[], &fs, &ns), CommandAction::Quit));
    assert!(matches!(plan_command("quit", &[], &fs, &ns), CommandAction::Nothing));
}

#[test]
fn sidebar_nests_folders_and_notes() {
    let dir = DirectoryStructure {
        folders: vec![folder(1, "Work", None), folder(2, "Ideas", Some(1)), folder(3, "Empty", None)],
        mappings: vec![
            NoteMapping { note: 12, folder: 1 },
            NoteMapping { note: 99, folder: 1 },
            NoteMapping { note: 10, folder: 2 },
        ],
    };
    assert!(dir.nests_finitely());
    let ns = notes();
    let items = build_sidebar_items(&dir, &ns, &[1, 3]);
    assert_eq!(items.len(), 3);
    match &items[0] {
        SidebarItem::Folder { name, open, children } => {
            assert_eq!(name, "Work");
            assert!(*open);
            assert_eq!(children.len(), 2);
            assert!(matches!(&children[0], SidebarItem::Note { title, .. } if title == "Plan"));
            match &children[1] {
                SidebarItem::Folder { name, open, children } => {
                    assert_eq!(name, "Ideas");
                    assert!(!*open);
                    assert_eq!(children.len(), 1);
                }
                other => panic!("unexpected {other:?}"),
            }
        }
        other => panic!("unexpected {other:?}"),
    }
    match &items[1] {
        SidebarItem::Folder { name, open, children } => {
            assert_eq!(name, "Empty");
            assert!(!*open);
            assert!(children.is_empty());
        }
        other => panic!("unexpected {other:?}"),
    }
    match &items[2] {
        SidebarItem::Note { title, path } => {
            assert_eq!(title, "Untitled");
            assert_eq!(path, "/v/11.md");
        }
        other => panic!("unexpected {other:?}"),
    }
}

#[test]
fn app_palette_runs_a_command() {
    let dir = DirectoryStructure { folders: folders(), mappings: vec![] };
    let mut app = AppState::new(notes(), dir);
    assert!(app.palette.is_none());
    app.open_command_palette();
    assert!(app.palette.is_some());
    app.palette.as_mut().unwrap().replace_text_in_range(None, "Toggle Sidebar");
    match app.confirm() {
        CommandAction::ToggleSidebar => {}
        other => panic!("unexpected {other:?}"),
    }
    assert!(app.palette.is_none());
    app.toggle_sidebar();
    assert!(!app.sidebar_visible);
    app.open_command_palette();
    app.cancel();
    assert!(app.palette.is_none());
    assert!(matches!(app.confirm(), CommandAction::Nothing));
}

#[test]
fn app_tracks_saved_titles_and_open_folders() {
    let dir = DirectoryStructure { folders: folders(), mappings: vec![] };
    let mut app = AppState::new(notes(), dir);
    app.note_saved("/v/12.md", "Renamed");
    assert_eq!(app.notes[2].title, "Renamed");
    assert_eq!(app.notes[0].title, "Plan");
    app.expand_folder(1);
    app.expand_folder(2);
    app.expand_folder(1);
    assert_eq!(app.expanded, vec![1, 2]);
    app.collapse_folder(1);
    assert_eq!(app.expanded, vec![2]);
}
