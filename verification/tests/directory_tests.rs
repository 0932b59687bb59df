use uuid::Uuid;
use zelkova::directory::{DirectoryError, DirectoryStructure};

fn new_id() -> u128 {
    Uuid::new_v4().as_u128()
}

#[test]
fn create_folder_root() {
    let mut ds = DirectoryStructure::default();
    let folder = ds.create_folder("Work", None);
    assert_eq!(folder.name, "Work");
    assert!(folder.parent.is_none());
    assert_eq!(ds.folders.len(), 1);
}

#[test]
fn create_folder_nested() {
    let mut ds = DirectoryStructure::default();
    let parent = ds.create_folder("Work", None);
    let child = ds.create_folder("Projects", Some(parent.id));
    assert_eq!(child.parent, Some(parent.id));
}

#[test]
fn move_note_to_folder() {
    let mut ds = DirectoryStructure::default();
    let folder = ds.create_folder("Work", None);
    let note_id = new_id();

    ds.move_note_to_folder(note_id, Some(folder.id));
    assert_eq!(ds.get_folder_for_note(note_id), Some(folder.id));
}

#[test]
fn move_note_to_root() {
    let mut ds = DirectoryStructure::default();
    let folder = ds.create_folder("Work", None);
    let note_id = new_id();

    ds.move_note_to_folder(note_id, Some(folder.id));
    ds.move_note_to_folder(note_id, None);
    assert_eq!(ds.get_folder_for_note(note_id), None);
    assert!(ds.mappings.is_empty());
}

#[test]
fn build_tree_nested() {
    let mut ds = DirectoryStructure::default();
    let work = ds.create_folder("Work", None);
    let _personal = ds.create_folder("Personal", None);
    let projects = ds.create_folder("Projects", Some(work.id));

    let note1 = new_id();
    let note2 = new_id();
    ds.move_note_to_folder(note1, Some(work.id));
    ds.move_note_to_folder(note2, Some(projects.id));

    assert!(ds.nests_finitely());
    let tree = ds.build_tree();
    assert_eq!(tree.len(), 2); // Work, Personal

    let work_tree = tree
        .iter()
        .find(|t| t.folder.id == work.id)
        .expect("Work folder in tree");
    assert_eq!(work_tree.notes, vec![note1]);
    assert_eq!(work_tree.children.len(), 1);
    assert_eq!(work_tree.children[0].notes, vec![note2]);
}

#[test]
fn rename_folder() {
    let mut ds = DirectoryStructure::default();
    let folder = ds.create_folder("Work", None);
    assert!(ds.rename_folder(folder.id, "Work renamed"));
    assert_eq!(ds.folders[0].name, "Work renamed");
    assert!(!ds.rename_folder(new_id(), "x"));
}

#[test]
fn delete_folder_moves_notes_to_root() {
    let mut ds = DirectoryStructure::default();
    let work = ds.create_folder("Work", None);
    let note_id = new_id();
    ds.move_note_to_folder(note_id, Some(work.id));
    assert_eq!(ds.mappings.len(), 1);

    ds.delete_folder(work.id).unwrap();
    assert!(ds.folders.is_empty());
    assert!(ds.mappings.is_empty());
}

#[test]
fn delete_folder_moves_subfolders_to_parent() {
    let mut ds = DirectoryStructure::default();
    let work = ds.create_folder("Work", None);
    let _projects = ds.create_folder("Projects", Some(work.id));

    ds.delete_folder(work.id).unwrap();
    assert_eq!(ds.folders.len(), 1);
    assert!(ds.folders[0].parent.is_none());
    assert_eq!(ds.folders[0].name, "Projects");
}

#[test]
fn delete_nonexistent_folder_fails() {
    let mut ds = DirectoryStructure::default();
    assert!(ds.delete_folder(new_id()).is_err());
}

#[test]
fn directory_fixed_ids_and_errors() {
    let mut ds = DirectoryStructure::new();
    let a = ds.create_folder_with_id(1, "A", None);
    let b = ds.create_folder_with_id(2, "B", Some(1));
    let _c = ds.create_folder_with_id(3, "C", Some(2));
    assert_eq!((a.id, b.parent), (1, Some(1)));
    assert_eq!(ds.get_folder(2).map(|f| f.name.clone()), Some("B".to_string()));
    assert!(ds.get_folder(9).is_none());
    ds.move_note_to_folder(10, Some(2));
    ds.move_note_to_folder(11, Some(2));
    ds.move_note_to_folder(10, Some(3));
    assert_eq!(ds.get_folder_for_note(10), Some(3));
    // Deleting B moves C under A and sends B's notes to the root.
    assert_eq!(ds.delete_folder(2), Ok(()));
    assert_eq!(ds.get_folder(3).unwrap().parent, Some(1));
    assert_eq!(ds.get_folder_for_note(11), None);
    assert_eq!(ds.delete_folder(2), Err(DirectoryError::FolderNotFound));
    assert_eq!(DirectoryError::FolderNotFound.message(), "folder not found");
    let tree = ds.build_tree();
    assert_eq!(tree.len(), 1);
    assert_eq!(tree[0].children[0].folder.id, 3);
    assert_eq!(tree[0].children[0].notes, vec![10]);
}

#[test]
fn directory_cycle_does_not_nest() {
    let mut ds = DirectoryStructure::new();
    ds.create_folder_with_id(1, "Root", None);
    ds.create_folder_with_id(2, "Loop", Some(1));
    ds.create_folder_with_id(1, "Twin", Some(2));
    assert!(!ds.nests_finitely());
}

#[test]
fn created_folders_keep_nesting() {
    let mut ds = DirectoryStructure::new();
    let mut parent = None;
    for k in 0..6u128 {
        let f = ds.create_folder_with_id(100 + k, "level", parent);
        parent = Some(f.id);
        assert!(ds.nests_finitely());
    }
    ds.create_folder_with_id(200, "side", Some(102));
    assert!(ds.nests_finitely());
    assert_eq!(ds.build_tree().len(), 1);
}
