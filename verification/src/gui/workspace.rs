//! The application's lists of notes and folders as its sidebar shows them,
//! and what a command of the command palette asks of the daemon and of the
//! panes.
use vstd::prelude::*;
use crate::directory::{
    nests_within, notes_in, root_folders, trees_of, tree_views, DirectoryStructure, Folder,
    FolderTree, NoteMapping, TreeView,
};
use crate::gui::command_palette::{
    back, backspace, backspace_ok, confirm, cursor_left, cursor_right, opt_views, selection_down,
    selection_up, CommandPalette, PaletteView, PhaseModel,
};
use crate::gui::keymap::command_specs;
use crate::text::{same_text, string_views};

verus! {

/// A note as the sidebar and the commands know it.
#[derive(Debug)]
pub struct NoteEntry {
    pub id: u128,
    pub title: String,
    pub path: String,
}

/// What a command asks for.
#[derive(Debug)]
pub enum CommandAction {
    CreateNote { title: Option<String> },
    CreateFolder { name: String, parent: Option<u128> },
    MoveNote { note_id: u128, folder: Option<u128> },
    MoveFolder { folder_id: u128, folder: Option<u128> },
    DeleteFolder { folder_id: u128, cascade: bool },
    RenameFolder { folder_id: u128, name: String },
    RenameNote { note_id: u128, title: String },
    DeleteNote { note_id: u128 },
    ToggleSidebar,
    ToggleViewMode,
    SplitPaneRight,
    SplitPaneDown,
    ClosePane,
    NewTab,
    NextTab,
    PrevTab,
    SaveNote,
    Quit,
    Nothing,
}

/// Model of [`CommandAction`].
pub enum CommandModel {
    CreateNote(Option<Seq<char>>),
    CreateFolder(Seq<char>, Option<u128>),
    MoveNote(u128, Option<u128>),
    MoveFolder(u128, Option<u128>),
    DeleteFolder(u128, bool),
    RenameFolder(u128, Seq<char>),
    RenameNote(u128, Seq<char>),
    DeleteNote(u128),
    ToggleSidebar,
    ToggleViewMode,
    SplitPaneRight,
    SplitPaneDown,
    ClosePane,
    NewTab,
    NextTab,
    PrevTab,
    SaveNote,
    Quit,
    Nothing,
}

/// The text of an optional string.
pub open spec fn opt_text(s: Option<String>) -> Option<Seq<char>> {
    match s {
        Some(t) => Some(t@),
        None => None,
    }
}

impl View for CommandAction {
    type V = CommandModel;

    open spec fn view(&self) -> CommandModel {
        match self {
            CommandAction::CreateNote { title } => CommandModel::CreateNote(opt_text(*title)),
            CommandAction::CreateFolder { name, parent } => CommandModel::CreateFolder(
                name@,
                *parent,
            ),
            CommandAction::MoveNote { note_id, folder } => CommandModel::MoveNote(*note_id, *folder),
            CommandAction::MoveFolder { folder_id, folder } => CommandModel::MoveFolder(
                *folder_id,
                *folder,
            ),
            CommandAction::DeleteFolder { folder_id, cascade } => CommandModel::DeleteFolder(
                *folder_id,
                *cascade,
            ),
            CommandAction::RenameFolder { folder_id, name } => CommandModel::RenameFolder(
                *folder_id,
                name@,
            ),
            CommandAction::RenameNote { note_id, title } => CommandModel::RenameNote(
                *note_id,
                title@,
            ),
            CommandAction::DeleteNote { note_id } => CommandModel::DeleteNote(*note_id),
            CommandAction::ToggleSidebar => CommandModel::ToggleSidebar,
            CommandAction::ToggleViewMode => CommandModel::ToggleViewMode,
            CommandAction::SplitPaneRight => CommandModel::SplitPaneRight,
            CommandAction::SplitPaneDown => CommandModel::SplitPaneDown,
            CommandAction::ClosePane => CommandModel::ClosePane,
            CommandAction::NewTab => CommandModel::NewTab,
            CommandAction::NextTab => CommandModel::NextTab,
            CommandAction::PrevTab => CommandModel::PrevTab,
            CommandAction::SaveNote => CommandModel::SaveNote,
            CommandAction::Quit => CommandModel::Quit,
            CommandAction::Nothing => CommandModel::Nothing,
        }
    }
}

/// Argument `i` of a command, if it was given.
pub open spec fn arg_at(args: Seq<Option<String>>, i: int) -> Option<Seq<char>> {
    if 0 <= i < args.len() {
        opt_text(args[i])
    } else {
        None
    }
}

/// The text, or `d` when there is none.
pub open spec fn or_text(a: Option<Seq<char>>, d: Seq<char>) -> Seq<char> {
    match a {
        Some(t) => t,
        None => d,
    }
}

/// A note is the one asked for by title: its title, or "Untitled" for a
/// note without one.
pub open spec fn note_titled(title: Seq<char>, wanted: Option<Seq<char>>) -> bool {
    wanted == Some(title) || (title.len() == 0 && wanted == Some("Untitled"@))
}

/// Index of the first note from `i` on that is the one asked for.
pub open spec fn note_index_from(ns: Seq<NoteEntry>, wanted: Option<Seq<char>>, i: int) -> Option<int>
    decreases ns.len() - i,
{
    if i < 0 || i >= ns.len() {
        None
    } else if note_titled(ns[i].title@, wanted) {
        Some(i)
    } else {
        note_index_from(ns, wanted, i + 1)
    }
}

/// Id of the first folder from `i` on with the name asked for.
pub open spec fn folder_named_from(fs: Seq<Folder>, name: Option<Seq<char>>, i: int) -> Option<
    u128,
>
    decreases fs.len() - i,
{
    if i < 0 || i >= fs.len() {
        None
    } else if name == Some(fs[i].name@) {
        Some(fs[i].id)
    } else {
        folder_named_from(fs, name, i + 1)
    }
}

/// The folder a destination names: none for "(root)" or no name, else the
/// first folder with that name.
pub open spec fn destination(fs: Seq<Folder>, name: Option<Seq<char>>) -> Option<u128> {
    if name == Some("(root)"@) || name is None {
        None
    } else {
        folder_named_from(fs, name, 0)
    }
}

/// The id of the note asked for by title, if there is one.
pub open spec fn note_id_for(ns: Seq<NoteEntry>, wanted: Option<Seq<char>>) -> Option<u128> {
    match note_index_from(ns, wanted, 0) {
        Some(k) => Some(ns[k].id),
        None => None,
    }
}

/// What a command asks for, from its label, its arguments, and the known
/// folders and notes. Commands about a note or a folder that cannot be
/// found, and deletions that are not confirmed with "Yes, delete", ask for
/// nothing; so do unknown labels.
pub open spec fn planned(
    label: Seq<char>,
    args: Seq<Option<String>>,
    fs: Seq<Folder>,
    ns: Seq<NoteEntry>,
) -> CommandModel {
    let a0 = arg_at(args, 0);
    let a1 = arg_at(args, 1);
    let a2 = arg_at(args, 2);
    if label == "Create Note"@ {
        CommandModel::CreateNote(a0)
    } else if label == "Create Folder"@ {
        CommandModel::CreateFolder(or_text(a0, "New Folder"@), destination(fs, a1))
    } else if label == "Move Note to Folder"@ {
        match note_id_for(ns, a0) {
            Some(id) => CommandModel::MoveNote(id, destination(fs, a1)),
            None => CommandModel::Nothing,
        }
    } else if label == "Move Folder to Folder"@ {
        match folder_named_from(fs, a0, 0) {
            Some(id) => CommandModel::MoveFolder(id, destination(fs, a1)),
            None => CommandModel::Nothing,
        }
    } else if label == "Delete Folder"@ {
        if or_text(a2, "Cancel"@) != "Yes, delete"@ {
            CommandModel::Nothing
        } else {
            match folder_named_from(fs, a0, 0) {
                Some(id) => CommandModel::DeleteFolder(
                    id,
                    or_text(a1, "Move notes to root"@) == "Delete notes too"@,
                ),
                None => CommandModel::Nothing,
            }
        }
    } else if label == "Rename Folder"@ {
        match folder_named_from(fs, a0, 0) {
            Some(id) => CommandModel::RenameFolder(id, or_text(a1, ""@)),
            None => CommandModel::Nothing,
        }
    } else if label == "Rename Note"@ {
        match note_id_for(ns, a0) {
            Some(id) => CommandModel::RenameNote(id, or_text(a1, ""@)),
            None => CommandModel::Nothing,
        }
    } else if label == "Delete Note"@ {
        if or_text(a1, "Cancel"@) != "Yes, delete"@ {
            CommandModel::Nothing
        } else {
            match note_id_for(ns, a0) {
                Some(id) => CommandModel::DeleteNote(id),
                None => CommandModel::Nothing,
            }
        }
    } else if label == "Toggle Sidebar"@ {
        CommandModel::ToggleSidebar
    } else if label == "Toggle View Mode"@ {
        CommandModel::ToggleViewMode
    } else if label == "Split Pane Right"@ {
        CommandModel::SplitPaneRight
    } else if label == "Split Pane Down"@ {
        CommandModel::SplitPaneDown
    } else if label == "Close Pane"@ {
        CommandModel::ClosePane
    } else if label == "New Tab"@ {
        CommandModel::NewTab
    } else if label == "Next Tab"@ {
        CommandModel::NextTab
    } else if label == "Prev Tab"@ {
        CommandModel::PrevTab
    } else if label == "Save Note"@ {
        CommandModel::SaveNote
    } else if label == "Quit"@ {
        CommandModel::Quit
    } else {
        CommandModel::Nothing
    }
}

/// Argument `i` of a command, if it was given.
fn arg(args: &[Option<String>], i: usize) -> (r: Option<&str>)
    ensures
        match r {
            Some(s) => arg_at(args@, i as int) == Some(s@),
            None => arg_at(args@, i as int) is None,
        },
{
    if i < args.len() {
        match &args[i] {
            Some(s) => Some(s.as_str()),
            None => None,
        }
    } else {
        None
    }
}

/// The text, or `d` when there is none.
fn text_or(a: Option<&str>, d: &str) -> (r: String)
    ensures
        r@ == or_text(
            match a {
                Some(s) => Some(s@),
                None => None,
            },
            d@,
        ),
{
    match a {
        Some(s) => s.to_string(),
        None => d.to_string(),
    }
}

/// The optional text, copied.
fn opt_string(a: Option<&str>) -> (r: Option<String>)
    ensures
        opt_text(r) == match a {
            Some(s) => Some(s@),
            None => None,
        },
{
    match a {
        Some(s) => Some(s.to_string()),
        None => None,
    }
}

/// Whether an optional text is `Some(t)`.
fn is_text(a: Option<&str>, t: &str) -> (r: bool)
    ensures
        r == (match a {
            Some(s) => Some(s@),
            None => None,
        } == Some(t@)),
{
    match a {
        Some(s) => same_text(s, t),
        None => false,
    }
}

/// Index of the first note that is the one asked for by title.
pub fn find_note_by_title(notes: &[NoteEntry], title: Option<&str>) -> (r: Option<usize>)
    ensures
        r matches Some(k) ==> k < notes@.len() && note_index_from(
            notes@,
            match title {
                Some(s) => Some(s@),
                None => None,
            },
            0,
        ) == Some(k as int),
        r is None ==> note_index_from(
            notes@,
            match title {
                Some(s) => Some(s@),
                None => None,
            },
            0,
        ) is None,
{
    let ghost wanted = match title {
        Some(s) => Some(s@),
        None => None,
    };
    let mut i: usize = 0;
    while i < notes.len()
        invariant
            i <= notes@.len(),
            note_index_from(notes@, wanted, 0) == note_index_from(notes@, wanted, i as int),
            wanted == match title {
                Some(s) => Some(s@),
                None => None,
            },
        decreases notes@.len() - i,
    {
        let t = notes[i].title.as_str();
        let empty = same_text(t, "");
        let hit = is_text(title, t) || (empty && is_text(title, "Untitled"));
        proof {
            reveal_strlit("");
            assert(""@ =~= Seq::<char>::empty());
            if t@.len() == 0 {
                assert(t@ =~= Seq::<char>::empty());
            }
            assert(empty == (t@.len() == 0));
            assert(t@ == notes@[i as int].title@);
            assert(hit == note_titled(notes@[i as int].title@, wanted));
        }
        if hit {
            return Some(i);
        }
        i += 1;
    }
    None
}

/// Id of the first folder with the name asked for.
pub fn find_folder_by_name(folders: &[Folder], name: Option<&str>) -> (r: Option<u128>)
    ensures
        r == folder_named_from(
            folders@,
            match name {
                Some(s) => Some(s@),
                None => None,
            },
            0,
        ),
{
    let ghost wanted = match name {
        Some(s) => Some(s@),
        None => None,
    };
    let mut i: usize = 0;
    while i < folders.len()
        invariant
            i <= folders@.len(),
            folder_named_from(folders@, wanted, 0) == folder_named_from(folders@, wanted, i as int),
            wanted == match name {
                Some(s) => Some(s@),
                None => None,
            },
        decreases folders@.len() - i,
    {
        let n = folders[i].name.as_str();
        proof {
            assert(n@ == folders@[i as int].name@);
        }
        if is_text(name, n) {
            return Some(folders[i].id);
        }
        i += 1;
    }
    None
}

/// The folder a destination names (see [`destination`]).
pub fn resolve_folder_id(folders: &[Folder], name: Option<&str>) -> (r: Option<u128>)
    ensures
        r == destination(
            folders@,
            match name {
                Some(s) => Some(s@),
                None => None,
            },
        ),
{
    if name.is_none() || is_text(name, "(root)") {
        None
    } else {
        find_folder_by_name(folders, name)
    }
}

/// The id of the note asked for by title.
fn note_id_by_title(notes: &[NoteEntry], title: Option<&str>) -> (r: Option<u128>)
    ensures
        r == note_id_for(
            notes@,
            match title {
                Some(s) => Some(s@),
                None => None,
            },
        ),
{
    match find_note_by_title(notes, title) {
        Some(k) => Some(notes[k].id),
        None => None,
    }
}

/// What the command `label` with arguments `args` asks for (see
/// [`planned`]).
pub fn plan_command(
    label: &str,
    args: &[Option<String>],
    folders: &[Folder],
    notes: &[NoteEntry],
) -> (r: CommandAction)
    ensures
        r@ == planned(label@, args@, folders@, notes@),
{
    let a0 = arg(args, 0);
    let a1 = arg(args, 1);
    let a2 = arg(args, 2);
    if same_text(label, "Create Note") {
        CommandAction::CreateNote { title: opt_string(a0) }
    } else if same_text(label, "Create Folder") {
        CommandAction::CreateFolder {
            name: text_or(a0, "New Folder"),
            parent: resolve_folder_id(folders, a1),
        }
    } else if same_text(label, "Move Note to Folder") {
        match note_id_by_title(notes, a0) {
            Some(id) => CommandAction::MoveNote { note_id: id, folder: resolve_folder_id(folders, a1) },
            None => CommandAction::Nothing,
        }
    } else if same_text(label, "Move Folder to Folder") {
        match find_folder_by_name(folders, a0) {
            Some(id) => CommandAction::MoveFolder {
                folder_id: id,
                folder: resolve_folder_id(folders, a1),
            },
            None => CommandAction::Nothing,
        }
    } else if same_text(label, "Delete Folder") {
        let confirmation = text_or(a2, "Cancel");
        if !same_text(confirmation.as_str(), "Yes, delete") {
            CommandAction::Nothing
        } else {
            match find_folder_by_name(folders, a0) {
                Some(id) => {
                    let choice = text_or(a1, "Move notes to root");
                    CommandAction::DeleteFolder {
                        folder_id: id,
                        cascade: same_text(choice.as_str(), "Delete notes too"),
                    }
                },
                None => CommandAction::Nothing,
            }
        }
    } else if same_text(label, "Rename Folder") {
        match find_folder_by_name(folders, a0) {
            Some(id) => CommandAction::RenameFolder { folder_id: id, name: text_or(a1, "") },
            None => CommandAction::Nothing,
        }
    } else if same_text(label, "Rename Note") {
        match note_id_by_title(notes, a0) {
            Some(id) => CommandAction::RenameNote { note_id: id, title: text_or(a1, "") },
            None => CommandAction::Nothing,
        }
    } else if same_text(label, "Delete Note") {
        let confirmation = text_or(a1, "Cancel");
        if !same_text(confirmation.as_str(), "Yes, delete") {
            CommandAction::Nothing
        } else {
            match note_id_by_title(notes, a0) {
                Some(id) => CommandAction::DeleteNote { note_id: id },
                None => CommandAction::Nothing,
            }
        }
    } else if same_text(label, "Toggle Sidebar") {
        CommandAction::ToggleSidebar
    } else if same_text(label, "Toggle View Mode") {
        CommandAction::ToggleViewMode
    } else if same_text(label, "Split Pane Right") {
        CommandAction::SplitPaneRight
    } else if same_text(label, "Split Pane Down") {
        CommandAction::SplitPaneDown
    } else if same_text(label, "Close Pane") {
        CommandAction::ClosePane
    } else if same_text(label, "New Tab") {
        CommandAction::NewTab
    } else if same_text(label, "Next Tab") {
        CommandAction::NextTab
    } else if same_text(label, "Prev Tab") {
        CommandAction::PrevTab
    } else if same_text(label, "Save Note") {
        CommandAction::SaveNote
    } else if same_text(label, "Quit") {
        CommandAction::Quit
    } else {
        CommandAction::Nothing
    }
}


/// An entry of the sidebar: a folder (open or closed) with its notes and
/// subfolders, or a note.
#[derive(Debug)]
pub enum SidebarItem {
    Folder { name: String, open: bool, children: Vec<SidebarItem> },
    Note { title: String, path: String },
}

/// Model of [`SidebarItem`].
pub enum SidebarModel {
    Folder(Seq<char>, bool, Seq<SidebarModel>),
    Note(Seq<char>, Seq<char>),
}

impl SidebarItem {
    pub open spec fn view(&self) -> SidebarModel
        decreases self,
    {
        match self {
            SidebarItem::Folder { name, open, children } => SidebarModel::Folder(
                name@,
                *open,
                item_views(children@),
            ),
            SidebarItem::Note { title, path } => SidebarModel::Note(title@, path@),
        }
    }
}

/// The models of a list of sidebar entries.
pub open spec fn item_views(s: Seq<SidebarItem>) -> Seq<SidebarModel>
    decreases s,
{
    if s.len() == 0 {
        seq![]
    } else {
        item_views(s.drop_last()) + seq![s[s.len() - 1].view()]
    }
}

/// The sidebar entry of a note: its title, "Untitled" when it has none.
pub open spec fn note_row(n: NoteEntry) -> SidebarModel {
    SidebarModel::Note(
        if n.title@.len() == 0 {
            "Untitled"@
        } else {
            n.title@
        },
        n.path@,
    )
}

/// Index of the first note from `i` on with the id.
pub open spec fn note_with_id_from(ns: Seq<NoteEntry>, id: u128, i: int) -> Option<int>
    decreases ns.len() - i,
{
    if i < 0 || i >= ns.len() {
        None
    } else if ns[i].id == id {
        Some(i)
    } else {
        note_with_id_from(ns, id, i + 1)
    }
}

/// The entries of the notes with the ids, in order, each that is known.
pub open spec fn mapped_rows(ns: Seq<NoteEntry>, ids: Seq<u128>) -> Seq<SidebarModel>
    decreases ids.len(),
{
    if ids.len() == 0 {
        seq![]
    } else {
        mapped_rows(ns, ids.drop_last()) + match note_with_id_from(ns, ids.last(), 0) {
            Some(k) => seq![note_row(ns[k])],
            None => seq![],
        }
    }
}

/// The entry of a folder's tree: its notes, then its subfolders; open when
/// it has entries and is among the expanded folders.
pub open spec fn folder_row(t: TreeView, ns: Seq<NoteEntry>, expanded: Seq<u128>) -> SidebarModel
    decreases t, 0nat,
{
    let children = mapped_rows(ns, t.notes) + folder_rows(t.children, ns, expanded);
    SidebarModel::Folder(t.folder.name@, children.len() > 0 && expanded.contains(t.folder.id), children)
}

/// The entries of a list of folder trees.
pub open spec fn folder_rows(ts: Seq<TreeView>, ns: Seq<NoteEntry>, expanded: Seq<u128>) -> Seq<
    SidebarModel,
>
    decreases ts, 1nat,
{
    if ts.len() == 0 {
        seq![]
    } else {
        folder_rows(ts.drop_last(), ns, expanded) + seq![folder_row(ts.last(), ns, expanded)]
    }
}

/// The notes that no mapping places in a folder, in order.
pub open spec fn unmapped_notes(ns: Seq<NoteEntry>, ms: Seq<NoteMapping>) -> Seq<NoteEntry> {
    ns.filter(|n: NoteEntry| !(exists|j: int| 0 <= j < ms.len() && ms[j].note == n.id))
}

/// The sidebar: the trees of the root folders, then the notes in no
/// folder.
pub open spec fn sidebar_rows(
    fs: Seq<Folder>,
    ms: Seq<NoteMapping>,
    ns: Seq<NoteEntry>,
    expanded: Seq<u128>,
) -> Seq<SidebarModel> {
    folder_rows(trees_of(fs, ms, root_folders(fs), fs.len()), ns, expanded) + unmapped_notes(
        ns,
        ms,
    ).map_values(|n: NoteEntry| note_row(n))
}

proof fn lemma_tree_views(s: Seq<FolderTree>)
    ensures
        tree_views(s).len() == s.len(),
        forall|i: int| 0 <= i < s.len() ==> #[trigger] tree_views(s)[i] == s[i].view(),
    decreases s.len(),
{
    if s.len() > 0 {
        lemma_tree_views(s.drop_last());
        assert forall|i: int| 0 <= i < s.len() implies #[trigger] tree_views(s)[i] == s[i].view() by {
            if i < s.len() - 1 {
                assert(tree_views(s.drop_last())[i] == s.drop_last()[i].view());
            }
        }
    }
}

proof fn lemma_item_views_len(s: Seq<SidebarItem>)
    ensures
        item_views(s).len() == s.len(),
    decreases s.len(),
{
    if s.len() > 0 {
        lemma_item_views_len(s.drop_last());
    }
}

/// The sidebar entry of a note.
fn note_item(n: &NoteEntry) -> (r: SidebarItem)
    ensures
        r.view() == note_row(*n),
{
    let title = if same_text(n.title.as_str(), "") {
        "Untitled".to_string()
    } else {
        n.title.clone()
    };
    proof {
        reveal_strlit("");
        assert(""@ =~= Seq::<char>::empty());
        if n.title@.len() == 0 {
            assert(n.title@ =~= Seq::<char>::empty());
        }
    }
    SidebarItem::Note { title, path: n.path.clone() }
}

/// Index of the first note with the id.
fn find_note_by_id(notes: &[NoteEntry], id: u128) -> (r: Option<usize>)
    ensures
        r matches Some(k) ==> k < notes@.len() && note_with_id_from(notes@, id, 0) == Some(k as int),
        r is None ==> note_with_id_from(notes@, id, 0) is None,
{
    let mut i: usize = 0;
    while i < notes.len()
        invariant
            i <= notes@.len(),
            note_with_id_from(notes@, id, 0) == note_with_id_from(notes@, id, i as int),
        decreases notes@.len() - i,
    {
        if notes[i].id == id {
            return Some(i);
        }
        i += 1;
    }
    None
}

/// Whether the id is among the expanded folders.
fn is_expanded(expanded: &[u128], id: u128) -> (r: bool)
    ensures
        r == expanded@.contains(id),
{
    let mut i: usize = 0;
    while i < expanded.len()
        invariant
            i <= expanded@.len(),
            forall|j: int| 0 <= j < i ==> expanded@[j] != id,
        decreases expanded@.len() - i,
    {
        if expanded[i] == id {
            proof {
                assert(expanded@[i as int] == id);
            }
            return true;
        }
        i += 1;
    }
    false
}

/// The sidebar entry of a folder's tree (see [`folder_row`]).
fn folder_item(t: &FolderTree, notes: &[NoteEntry], expanded: &[u128]) -> (r: SidebarItem)
    ensures
        r.view() == folder_row(t.view(), notes@, expanded@),
    decreases t,
{
    let mut children: Vec<SidebarItem> = Vec::new();
    let mut k: usize = 0;
    while k < t.notes.len()
        invariant
            k <= t.notes@.len(),
            item_views(children@) == mapped_rows(notes@, t.notes@.take(k as int)),
        decreases t.notes@.len() - k,
    {
        let ghost before = children@;
        let found = find_note_by_id(notes, t.notes[k]);
        match found {
            Some(j) => {
                children.push(note_item(&notes[j]));
                proof {
                    assert(children@.drop_last() =~= before);
                }
            },
            None => {},
        }
        proof {
            assert(t.notes@.take(k + 1).drop_last() =~= t.notes@.take(k as int));
            assert(item_views(children@) =~= mapped_rows(notes@, t.notes@.take(k + 1)));
        }
        k += 1;
    }
    proof {
        assert(t.notes@.take(k as int) =~= t.notes@);
    }
    let ghost notes_part = item_views(children@);
    proof {
        lemma_tree_views(t.children@);
    }
    let mut c: usize = 0;
    while c < t.children.len()
        invariant
            c <= t.children@.len(),
            item_views(children@) == notes_part + folder_rows(
                tree_views(t.children@).take(c as int),
                notes@,
                expanded@,
            ),
            tree_views(t.children@).len() == t.children@.len(),
        decreases t.children@.len() - c,
    {
        let ghost before = children@;
        proof {
            assert(decreases_to!(t => t.children@[c as int]));
        }
        let sub = folder_item(&t.children[c], notes, expanded);
        children.push(sub);
        proof {
            assert(children@.drop_last() =~= before);
            let tv = tree_views(t.children@);
            lemma_tree_views(t.children@);
            assert(tv.take(c + 1).drop_last() =~= tv.take(c as int));
            assert(tv[c as int] == t.children@[c as int].view());
            assert(item_views(children@) =~= notes_part + folder_rows(tv.take(c + 1), notes@, expanded@));
        }
        c += 1;
    }
    proof {
        assert(tree_views(t.children@).take(c as int) =~= tree_views(t.children@));
    }
    let open = children.len() > 0 && is_expanded(expanded, t.folder.id);
    proof {
        lemma_item_views_len(children@);
    }
    SidebarItem::Folder { name: t.folder.name.clone(), open, children }
}

/// The sidebar (see [`sidebar_rows`]). Defined when following subfolders
/// from the root ends (see [`DirectoryStructure::nests_finitely`]).
pub fn build_sidebar_items(
    dir: &DirectoryStructure,
    notes: &[NoteEntry],
    expanded: &[u128],
) -> (r: Vec<SidebarItem>)
    requires
        nests_within(dir.folders@, root_folders(dir.folders@), dir.folders@.len()),
    ensures
        item_views(r@) == sidebar_rows(dir.folders@, dir.mappings@, notes@, expanded@),
{
    let trees = dir.build_tree();
    proof {
        lemma_tree_views(trees@);
    }
    let mut items: Vec<SidebarItem> = Vec::new();
    let mut k: usize = 0;
    while k < trees.len()
        invariant
            k <= trees@.len(),
            item_views(items@) == folder_rows(tree_views(trees@).take(k as int), notes@, expanded@),
            tree_views(trees@).len() == trees@.len(),
        decreases trees@.len() - k,
    {
        let ghost before = items@;
        let it = folder_item(&trees[k], notes, expanded);
        items.push(it);
        proof {
            assert(items@.drop_last() =~= before);
            let tv = tree_views(trees@);
            lemma_tree_views(trees@);
            assert(tv.take(k + 1).drop_last() =~= tv.take(k as int));
            assert(tv[k as int] == trees@[k as int].view());
            assert(item_views(items@) =~= folder_rows(tv.take(k + 1), notes@, expanded@));
        }
        k += 1;
    }
    proof {
        assert(tree_views(trees@).take(k as int) =~= tree_views(trees@));
    }
    let ghost roots_part = item_views(items@);
    let ghost ms = dir.mappings@;
    let ghost pred = |n: NoteEntry| !(exists|j: int| 0 <= j < ms.len() && ms[j].note == n.id);
    let mut i: usize = 0;
    while i < notes.len()
        invariant
            i <= notes@.len(),
            ms == dir.mappings@,
            pred == (|n: NoteEntry| !(exists|j: int| 0 <= j < ms.len() && ms[j].note == n.id)),
            item_views(items@) == roots_part + notes@.take(i as int).filter(pred).map_values(
                |n: NoteEntry| note_row(n),
            ),
        decreases notes@.len() - i,
    {
        let ghost before = items@;
        let id = notes[i].id;
        let mut mapped = false;
        let mut j: usize = 0;
        while j < dir.mappings.len()
            invariant
                j <= ms.len(),
                ms == dir.mappings@,
                mapped == (exists|q: int| 0 <= q < j && ms[q].note == id),
            decreases ms.len() - j,
        {
            if dir.mappings[j].note == id {
                mapped = true;
            }
            j += 1;
        }
        proof {
            let q = notes@.take(i + 1);
            assert(q.drop_last() =~= notes@.take(i as int));
            assert(q.last() == notes@[i as int]);
            assert(q.filter(pred) == if pred(q.last()) {
                q.drop_last().filter(pred).push(q.last())
            } else {
                q.drop_last().filter(pred)
            }) by {
                reveal(Seq::filter);
            }
            assert(pred(notes@[i as int]) == !mapped);
        }
        if !mapped {
            items.push(note_item(&notes[i]));
            proof {
                assert(items@.drop_last() =~= before);
            }
        }
        proof {
            let q = notes@.take(i + 1);
            assert(item_views(items@) =~= roots_part + q.filter(pred).map_values(
                |n: NoteEntry| note_row(n),
            ));
        }
        i += 1;
    }
    proof {
        assert(notes@.take(i as int) =~= notes@);
    }
    items
}


/// The application's state: the notes and folders the sidebar shows, the
/// folders shown open, whether the sidebar is visible, and the command
/// palette when it is open.
pub struct AppState {
    pub notes: Vec<NoteEntry>,
    pub directory: DirectoryStructure,
    pub expanded: Vec<u128>,
    pub sidebar_visible: bool,
    pub palette: Option<CommandPalette>,
}

/// The model of an optional palette.
pub open spec fn palette_view(p: Option<CommandPalette>) -> Option<PaletteView> {
    match p {
        Some(x) => Some(x@),
        None => None,
    }
}

/// The titles the palette offers for notes: "Untitled" for a note without
/// one.
pub open spec fn shown_titles(ns: Seq<NoteEntry>) -> Seq<Seq<char>> {
    ns.map_values(
        |n: NoteEntry|
            if n.title@.len() == 0 {
                "Untitled"@
            } else {
                n.title@
            },
    )
}

/// The names of the folders, in order.
pub open spec fn folder_names(fs: Seq<Folder>) -> Seq<Seq<char>> {
    fs.map_values(|f: Folder| f.name@)
}

impl AppState {
    /// The open palette is well formed.
    pub open spec fn wf(&self) -> bool {
        self.palette matches Some(p) ==> p.wf()
    }

    /// A state with the given notes and folders, nothing open, the sidebar
    /// visible.
    pub fn new(notes: Vec<NoteEntry>, directory: DirectoryStructure) -> (r: Self)
        ensures
            r.wf(),
            r.notes@ == notes@,
            r.directory == directory,
            r.expanded@.len() == 0,
            r.sidebar_visible,
            r.palette is None,
    {
        AppState { notes, directory, expanded: Vec::new(), sidebar_visible: true, palette: None }
    }

    /// Opens the command palette over the folders' names and the notes'
    /// titles, unless it is open already.
    pub fn open_command_palette(&mut self)
        requires
            old(self).wf(),
        ensures
            final(self).wf(),
            old(self).palette is Some ==> palette_view(final(self).palette) == palette_view(
                old(self).palette,
            ),
            old(self).palette is None ==> (final(self).palette matches Some(p) && fresh_palette(
                p@,
                folder_names(old(self).directory.folders@),
            )),
            final(self).notes@ == old(self).notes@,
            final(self).directory == old(self).directory,
            final(self).expanded@ == old(self).expanded@,
            final(self).sidebar_visible == old(self).sidebar_visible,
    {
        if self.palette.is_some() {
            return;
        }
        let mut names: Vec<String> = Vec::new();
        let mut k: usize = 0;
        while k < self.directory.folders.len()
            invariant
                k <= self.directory.folders@.len(),
                string_views(names@) == folder_names(self.directory.folders@).take(k as int),
            decreases self.directory.folders@.len() - k,
        {
            let ghost before = string_views(names@);
            let nm = self.directory.folders[k].name.clone();
            names.push(nm);
            proof {
                assert(string_views(names@) =~= before.push(nm@));
                assert(folder_names(self.directory.folders@).take(k + 1) =~= folder_names(self.directory.folders@).take(k as int).push(folder_names(self.directory.folders@)[k as int]));
                assert(folder_names(self.directory.folders@)[k as int] == self.directory.folders@[k as int].name@);
                assert(string_views(names@) =~= folder_names(self.directory.folders@).take(k + 1));
            }
            k += 1;
        }
        proof {
            assert(folder_names(self.directory.folders@).take(k as int) =~= folder_names(
                self.directory.folders@,
            ));
        }
        let mut titles: Vec<String> = Vec::new();
        let mut j: usize = 0;
        while j < self.notes.len()
            invariant
                j <= self.notes@.len(),
                string_views(titles@) == shown_titles(self.notes@).take(j as int),
            decreases self.notes@.len() - j,
        {
            let t = if same_text(self.notes[j].title.as_str(), "") {
                "Untitled".to_string()
            } else {
                self.notes[j].title.clone()
            };
            proof {
                reveal_strlit("");
                assert(""@ =~= Seq::<char>::empty());
                if self.notes@[j as int].title@.len() == 0 {
                    assert(self.notes@[j as int].title@ =~= Seq::<char>::empty());
                }
            }
            let ghost before = string_views(titles@);
            let ghost tv = t@;
            titles.push(t);
            proof {
                assert(string_views(titles@) =~= before.push(tv));
                assert(shown_titles(self.notes@).take(j + 1) =~= shown_titles(self.notes@).take(j as int).push(shown_titles(self.notes@)[j as int]));
                assert(shown_titles(self.notes@)[j as int] == tv);
                assert(string_views(titles@) =~= shown_titles(self.notes@).take(j + 1));
            }
            j += 1;
        }
        let p = CommandPalette::new(names.as_slice(), titles.as_slice());
        self.palette = Some(p);
    }

    /// Escape: the palette goes back a step, and closes when it was
    /// choosing a command (see [`back`]).
    pub fn cancel(&mut self)
        requires
            old(self).wf(),
        ensures
            final(self).wf(),
            match old(self).palette {
                Some(p) => if back(p@).1 {
                    final(self).palette is None
                } else {
                    palette_view(final(self).palette) == Some(back(p@).0)
                },
                None => final(self).palette is None,
            },
            final(self).notes@ == old(self).notes@,
            final(self).directory == old(self).directory,
            final(self).expanded@ == old(self).expanded@,
            final(self).sidebar_visible == old(self).sidebar_visible,
    {
        match self.palette.take() {
            Some(mut p) => {
                let close = p.handle_back();
                if !close {
                    self.palette = Some(p);
                }
            },
            None => {},
        }
    }

    /// Enter or confirm in the palette: when it finishes a command, the
    /// palette closes and the command's action is returned (see
    /// [`planned`]); otherwise the palette takes the step (see
    /// [`confirm`]) and nothing is asked for.
    pub fn confirm(&mut self) -> (r: CommandAction)
        requires
            old(self).wf(),
        ensures
            final(self).wf(),
            match old(self).palette {
                Some(p) => match confirm(p@).1 {
                    Some((label, _)) => final(self).palette is None && exists|args: Seq<Option<String>>|
                        opt_views(args) == confirm(p@).1.unwrap().1 && r@ == planned(
                        label,
                        args,
                        old(self).directory.folders@,
                        old(self).notes@,
                    ),
                    None => palette_view(final(self).palette) == Some(confirm(p@).0)
                        && r@ == CommandModel::Nothing,
                },
                None => final(self).palette is None && r@ == CommandModel::Nothing,
            },
            final(self).notes@ == old(self).notes@,
            final(self).directory == old(self).directory,
            final(self).expanded@ == old(self).expanded@,
            final(self).sidebar_visible == old(self).sidebar_visible,
    {
        match self.palette.take() {
            Some(mut p) => {
                let result = p.handle_confirm();
                match result {
                    Some((label, args)) => {
                        plan_command(label.as_str(), args.as_slice(), self.directory.folders.as_slice(), self.notes.as_slice())
                    },
                    None => {
                        self.palette = Some(p);
                        CommandAction::Nothing
                    },
                }
            },
            None => CommandAction::Nothing,
        }
    }

    /// Left arrow: moves the palette's cursor when it is open.
    pub fn move_left(&mut self)
        requires
            old(self).wf(),
        ensures
            final(self).wf(),
            palette_view(final(self).palette) == match old(self).palette {
                Some(p) => Some(cursor_left(p@)),
                None => None,
            },
            final(self).notes@ == old(self).notes@,
            final(self).directory == old(self).directory,
            final(self).expanded@ == old(self).expanded@,
            final(self).sidebar_visible == old(self).sidebar_visible,
    {
        match self.palette.take() {
            Some(mut p) => {
                p.move_cursor_left();
                self.palette = Some(p);
            },
            None => {},
        }
    }

    /// Right arrow: moves the palette's cursor when it is open.
    pub fn move_right(&mut self)
        requires
            old(self).wf(),
        ensures
            final(self).wf(),
            palette_view(final(self).palette) == match old(self).palette {
                Some(p) => Some(cursor_right(p@)),
                None => None,
            },
            final(self).notes@ == old(self).notes@,
            final(self).directory == old(self).directory,
            final(self).expanded@ == old(self).expanded@,
            final(self).sidebar_visible == old(self).sidebar_visible,
    {
        match self.palette.take() {
            Some(mut p) => {
                p.move_cursor_right();
                self.palette = Some(p);
            },
            None => {},
        }
    }

    /// Backspace: erases in the palette when it is open.
    pub fn backspace(&mut self)
        requires
            old(self).wf(),
            old(self).palette matches Some(p) ==> backspace_ok(p@),
        ensures
            final(self).wf(),
            palette_view(final(self).palette) == match old(self).palette {
                Some(p) => Some(backspace(p@)),
                None => None,
            },
            final(self).notes@ == old(self).notes@,
            final(self).directory == old(self).directory,
            final(self).expanded@ == old(self).expanded@,
            final(self).sidebar_visible == old(self).sidebar_visible,
    {
        match self.palette.take() {
            Some(mut p) => {
                p.handle_backspace();
                self.palette = Some(p);
            },
            None => {},
        }
    }

    /// Up arrow: moves the palette's selection when it is open.
    pub fn move_up(&mut self)
        requires
            old(self).wf(),
        ensures
            final(self).wf(),
            palette_view(final(self).palette) == match old(self).palette {
                Some(p) => Some(selection_up(p@)),
                None => None,
            },
            final(self).notes@ == old(self).notes@,
            final(self).directory == old(self).directory,
            final(self).expanded@ == old(self).expanded@,
            final(self).sidebar_visible == old(self).sidebar_visible,
    {
        match self.palette.take() {
            Some(mut p) => {
                p.move_selection_up();
                self.palette = Some(p);
            },
            None => {},
        }
    }

    /// Down arrow: moves the palette's selection when it is open.
    pub fn move_down(&mut self)
        requires
            old(self).wf(),
        ensures
            final(self).wf(),
            palette_view(final(self).palette) == match old(self).palette {
                Some(p) => Some(selection_down(p@)),
                None => None,
            },
            final(self).notes@ == old(self).notes@,
            final(self).directory == old(self).directory,
            final(self).expanded@ == old(self).expanded@,
            final(self).sidebar_visible == old(self).sidebar_visible,
    {
        match self.palette.take() {
            Some(mut p) => {
                p.move_selection_down();
                self.palette = Some(p);
            },
            None => {},
        }
    }

    /// Shows or hides the sidebar.
    pub fn toggle_sidebar(&mut self)
        ensures
            final(self).sidebar_visible == !old(self).sidebar_visible,
            palette_view(final(self).palette) == palette_view(old(self).palette),
            final(self).wf() == old(self).wf(),
            final(self).notes@ == old(self).notes@,
            final(self).directory == old(self).directory,
            final(self).expanded@ == old(self).expanded@,
    {
        self.sidebar_visible = !self.sidebar_visible;
    }

    /// A note was saved with a title: the first note with its path takes
    /// that title.
    pub fn note_saved(&mut self, path: &str, title: &str)
        ensures
            final(self).notes@.len() == old(self).notes@.len(),
            forall|q: int|
                0 <= q < old(self).notes@.len() ==> {
                    let n = old(self).notes@[q];
                    let m = #[trigger] final(self).notes@[q];
                    &&& m.id == n.id
                    &&& m.path@ == n.path@
                    &&& m.title@ == if note_with_path_from(old(self).notes@, path@, 0) == Some(q) {
                        title@
                    } else {
                        n.title@
                    }
                },
            palette_view(final(self).palette) == palette_view(old(self).palette),
            final(self).wf() == old(self).wf(),
            final(self).directory == old(self).directory,
            final(self).expanded@ == old(self).expanded@,
            final(self).sidebar_visible == old(self).sidebar_visible,
    {
        let ghost ns = self.notes@;
        match find_note_by_path(self.notes.as_slice(), path) {
            Some(k) => {
                let old_note = self.notes.remove(k);
                self.notes.insert(
                    k,
                    NoteEntry { id: old_note.id, title: title.to_string(), path: old_note.path },
                );
                proof {
                    assert forall|q: int| 0 <= q < ns.len() && q != k implies self.notes@[q] == ns[q] by {}
                }
            },
            None => {},
        }
    }

    /// A folder was created: it is shown open.
    pub fn expand_folder(&mut self, id: u128)
        ensures
            final(self).expanded@ == if old(self).expanded@.contains(id) {
                old(self).expanded@
            } else {
                old(self).expanded@.push(id)
            },
            palette_view(final(self).palette) == palette_view(old(self).palette),
            final(self).wf() == old(self).wf(),
            final(self).notes@ == old(self).notes@,
            final(self).directory == old(self).directory,
            final(self).sidebar_visible == old(self).sidebar_visible,
    {
        if !is_expanded(self.expanded.as_slice(), id) {
            self.expanded.push(id);
        }
    }

    /// A folder was deleted: it is no longer shown open.
    pub fn collapse_folder(&mut self, id: u128)
        ensures
            final(self).expanded@ == old(self).expanded@.filter(|x: u128| x != id),
            palette_view(final(self).palette) == palette_view(old(self).palette),
            final(self).wf() == old(self).wf(),
            final(self).notes@ == old(self).notes@,
            final(self).directory == old(self).directory,
            final(self).sidebar_visible == old(self).sidebar_visible,
    {
        let ghost old_e = self.expanded@;
        let ghost f = |x: u128| x != id;
        let mut kept: Vec<u128> = Vec::new();
        let mut i: usize = 0;
        while i < self.expanded.len()
            invariant
                i <= self.expanded@.len(),
                self.expanded@ == old_e,
                f == (|x: u128| x != id),
                kept@ == old_e.take(i as int).filter(f),
            decreases self.expanded@.len() - i,
        {
            let x = self.expanded[i];
            proof {
                let q = old_e.take(i + 1);
                assert(q.drop_last() =~= old_e.take(i as int));
                assert(q.last() == x);
                assert(q.filter(f) == if f(q.last()) {
                    q.drop_last().filter(f).push(q.last())
                } else {
                    q.drop_last().filter(f)
                }) by {
                    reveal(Seq::filter);
                }
            }
            if x != id {
                kept.push(x);
            }
            i += 1;
        }
        proof {
            assert(old_e.take(i as int) =~= old_e);
        }
        self.expanded = kept;
    }
}

/// Index of the first note with the path.
fn find_note_by_path(notes: &[NoteEntry], path: &str) -> (r: Option<usize>)
    ensures
        r matches Some(k) ==> k < notes@.len(),
        note_with_path_from(notes@, path@, 0) == match r {
            Some(k) => Some(k as int),
            None => None,
        },
{
    let mut k: usize = 0;
    while k < notes.len()
        invariant
            k <= notes@.len(),
            note_with_path_from(notes@, path@, 0) == note_with_path_from(notes@, path@, k as int),
        decreases notes@.len() - k,
    {
        if same_text(notes[k].path.as_str(), path) {
            return Some(k);
        }
        k += 1;
    }
    None
}

/// Index of the first note from `i` on with the path.
pub open spec fn note_with_path_from(ns: Seq<NoteEntry>, path: Seq<char>, i: int) -> Option<int>
    decreases ns.len() - i,
{
    if i < 0 || i >= ns.len() {
        None
    } else if ns[i].path@ == path {
        Some(i)
    } else {
        note_with_path_from(ns, path, i + 1)
    }
}

/// A palette just opened over the folders' names: choosing a command
/// among all those of [`command_specs`], nothing typed.
pub open spec fn fresh_palette(v: PaletteView, names: Seq<Seq<char>>) -> bool {
    &&& v.phase == PhaseModel::SelectCommand
    &&& v.commands == command_specs(names)
    &&& v.query.len() == 0
    &&& v.query_cursor == 0
    &&& v.filtered == Seq::new(v.commands.len(), |t: int| t as usize)
    &&& v.selected == 0
    &&& v.arg_input.len() == 0
    &&& v.arg_cursor == 0
    &&& v.arg_selected == 0
}


/// A deletion asks for nothing unless its confirmation argument is
/// exactly "Yes, delete"; and only the two deletion commands ask for a
/// deletion.
pub proof fn law_deletions_need_confirmation(
    label: Seq<char>,
    args: Seq<Option<String>>,
    fs: Seq<Folder>,
    ns: Seq<NoteEntry>,
)
    ensures
        label == "Delete Folder"@ && arg_at(args, 2) != Some("Yes, delete"@) ==> planned(
            label,
            args,
            fs,
            ns,
        ) == CommandModel::Nothing,
        label == "Delete Note"@ && arg_at(args, 1) != Some("Yes, delete"@) ==> planned(
            label,
            args,
            fs,
            ns,
        ) == CommandModel::Nothing,
        planned(label, args, fs, ns) is DeleteFolder ==> label == "Delete Folder"@ && arg_at(args, 2)
            == Some("Yes, delete"@),
        planned(label, args, fs, ns) is DeleteNote ==> label == "Delete Note"@ && arg_at(args, 1)
            == Some("Yes, delete"@),
{
    reveal_strlit("Cancel");
    reveal_strlit("Yes, delete");
    reveal_strlit("Create Note");
    reveal_strlit("Create Folder");
    reveal_strlit("Move Note to Folder");
    reveal_strlit("Move Folder to Folder");
    reveal_strlit("Delete Folder");
    reveal_strlit("Rename Folder");
    reveal_strlit("Rename Note");
    reveal_strlit("Delete Note");
    assert("Cancel"@ != "Yes, delete"@) by {
        assert("Cancel"@.len() != "Yes, delete"@.len());
    }
    if label == "Delete Folder"@ {
        assert(label != "Create Note"@) by {
            assert(label.len() != "Create Note"@.len());
        }
        assert(label != "Create Folder"@) by {
            assert(label[0] != "Create Folder"@[0]);
        }
        assert(label != "Move Note to Folder"@) by {
            assert(label.len() != "Move Note to Folder"@.len());
        }
        assert(label != "Move Folder to Folder"@) by {
            assert(label.len() != "Move Folder to Folder"@.len());
        }
    }
    if label == "Delete Note"@ {
        assert(label != "Create Note"@) by {
            assert(label[0] != "Create Note"@[0]);
        }
        assert(label != "Create Folder"@) by {
            assert(label.len() != "Create Folder"@.len());
        }
        assert(label != "Move Note to Folder"@) by {
            assert(label.len() != "Move Note to Folder"@.len());
        }
        assert(label != "Move Folder to Folder"@) by {
            assert(label.len() != "Move Folder to Folder"@.len());
        }
        assert(label != "Delete Folder"@) by {
            assert(label.len() != "Delete Folder"@.len());
        }
        assert(label != "Rename Folder"@) by {
            assert(label.len() != "Rename Folder"@.len());
        }
        assert(label != "Rename Note"@) by {
            assert(label[0] != "Rename Note"@[0]);
        }
    }
}

} // verus!

verus! {

/// Each command that takes no arguments asks for the action of its own
/// name and for nothing else: whatever the arguments, folders and notes,
/// the action is planned exactly when the label is that command's label,
/// so distinct commands of the fixed list plan distinct actions.
pub proof fn law_fixed_commands(
    label: Seq<char>,
    args: Seq<Option<String>>,
    fs: Seq<Folder>,
    ns: Seq<NoteEntry>,
)
    ensures
        (planned(label, args, fs, ns) is ToggleSidebar) <==> label == "Toggle Sidebar"@,
        (planned(label, args, fs, ns) is ToggleViewMode) <==> label == "Toggle View Mode"@,
        (planned(label, args, fs, ns) is SplitPaneRight) <==> label == "Split Pane Right"@,
        (planned(label, args, fs, ns) is SplitPaneDown) <==> label == "Split Pane Down"@,
        (planned(label, args, fs, ns) is ClosePane) <==> label == "Close Pane"@,
        (planned(label, args, fs, ns) is NewTab) <==> label == "New Tab"@,
        (planned(label, args, fs, ns) is NextTab) <==> label == "Next Tab"@,
        (planned(label, args, fs, ns) is PrevTab) <==> label == "Prev Tab"@,
        (planned(label, args, fs, ns) is SaveNote) <==> label == "Save Note"@,
        (planned(label, args, fs, ns) is Quit) <==> label == "Quit"@,
{
    reveal_strlit("Create Note");
    reveal_strlit("Create Folder");
    reveal_strlit("Move Note to Folder");
    reveal_strlit("Move Folder to Folder");
    reveal_strlit("Delete Folder");
    reveal_strlit("Rename Folder");
    reveal_strlit("Rename Note");
    reveal_strlit("Delete Note");
    reveal_strlit("Toggle Sidebar");
    reveal_strlit("Toggle View Mode");
    reveal_strlit("Split Pane Right");
    reveal_strlit("Split Pane Down");
    reveal_strlit("Close Pane");
    reveal_strlit("New Tab");
    reveal_strlit("Next Tab");
    reveal_strlit("Prev Tab");
    reveal_strlit("Save Note");
    reveal_strlit("Quit");
    if label == "Toggle Sidebar"@ {
        assert(label != "Create Note"@) by { assert(label.len() != "Create Note"@.len()); }
        assert(label != "Create Folder"@) by { assert(label.len() != "Create Folder"@.len()); }
        assert(label != "Move Note to Folder"@) by { assert(label.len() != "Move Note to Folder"@.len()); }
        assert(label != "Move Folder to Folder"@) by { assert(label.len() != "Move Folder to Folder"@.len()); }
        assert(label != "Delete Folder"@) by { assert(label.len() != "Delete Folder"@.len()); }
        assert(label != "Rename Folder"@) by { assert(label.len() != "Rename Folder"@.len()); }
        assert(label != "Rename Note"@) by { assert(label.len() != "Rename Note"@.len()); }
        assert(label != "Delete Note"@) by { assert(label.len() != "Delete Note"@.len()); }
    }
    if label == "Toggle View Mode"@ {
        assert(label != "Create Note"@) by { assert(label.len() != "Create Note"@.len()); }
        assert(label != "Create Folder"@) by { assert(label.len() != "Create Folder"@.len()); }
        assert(label != "Move Note to Folder"@) by { assert(label.len() != "Move Note to Folder"@.len()); }
        assert(label != "Move Folder to Folder"@) by { assert(label.len() != "Move Folder to Folder"@.len()); }
        assert(label != "Delete Folder"@) by { assert(label.len() != "Delete Folder"@.len()); }
        assert(label != "Rename Folder"@) by { assert(label.len() != "Rename Folder"@.len()); }
        assert(label != "Rename Note"@) by { assert(label.len() != "Rename Note"@.len()); }
        assert(label != "Delete Note"@) by { assert(label.len() != "Delete Note"@.len()); }
        assert(label != "Toggle Sidebar"@) by { assert(label.len() != "Toggle Sidebar"@.len()); }
    }
    if label == "Split Pane Right"@ {
        assert(label != "Create Note"@) by { assert(label.len() != "Create Note"@.len()); }
        assert(label != "Create Folder"@) by { assert(label.len() != "Create Folder"@.len()); }
        assert(label != "Move Note to Folder"@) by { assert(label.len() != "Move Note to Folder"@.len()); }
        assert(label != "Move Folder to Folder"@) by { assert(label.len() != "Move Folder to Folder"@.len()); }
        assert(label != "Delete Folder"@) by { assert(label.len() != "Delete Folder"@.len()); }
        assert(label != "Rename Folder"@) by { assert(label.len() != "Rename Folder"@.len()); }
        assert(label != "Rename Note"@) by { assert(label.len() != "Rename Note"@.len()); }
        assert(label != "Delete Note"@) by { assert(label.len() != "Delete Note"@.len()); }
        assert(label != "Toggle Sidebar"@) by { assert(label.len() != "Toggle Sidebar"@.len()); }
        assert(label != "Toggle View Mode"@) by { assert(label[0] != "Toggle View Mode"@[0]); }
    }
    if label == "Split Pane Down"@ {
        assert(label != "Create Note"@) by { assert(label.len() != "Create Note"@.len()); }
        assert(label != "Create Folder"@) by { assert(label.len() != "Create Folder"@.len()); }
        assert(label != "Move Note to Folder"@) by { assert(label.len() != "Move Note to Folder"@.len()); }
        assert(label != "Move Folder to Folder"@) by { assert(label.len() != "Move Folder to Folder"@.len()); }
        assert(label != "Delete Folder"@) by { assert(label.len() != "Delete Folder"@.len()); }
        assert(label != "Rename Folder"@) by { assert(label.len() != "Rename Folder"@.len()); }
        assert(label != "Rename Note"@) by { assert(label.len() != "Rename Note"@.len()); }
        assert(label != "Delete Note"@) by { assert(label.len() != "Delete Note"@.len()); }
        assert(label != "Toggle Sidebar"@) by { assert(label.len() != "Toggle Sidebar"@.len()); }
        assert(label != "Toggle View Mode"@) by { assert(label.len() != "Toggle View Mode"@.len()); }
        assert(label != "Split Pane Right"@) by { assert(label.len() != "Split Pane Right"@.len()); }
    }
    if label == "Close Pane"@ {
        assert(label != "Create Note"@) by { assert(label.len() != "Create Note"@.len()); }
        assert(label != "Create Folder"@) by { assert(label.len() != "Create Folder"@.len()); }
        assert(label != "Move Note to Folder"@) by { assert(label.len() != "Move Note to Folder"@.len()); }
        assert(label != "Move Folder to Folder"@) by { assert(label.len() != "Move Folder to Folder"@.len()); }
        assert(label != "Delete Folder"@) by { assert(label.len() != "Delete Folder"@.len()); }
        assert(label != "Rename Folder"@) by { assert(label.len() != "Rename Folder"@.len()); }
        assert(label != "Rename Note"@) by { assert(label.len() != "Rename Note"@.len()); }
        assert(label != "Delete Note"@) by { assert(label.len() != "Delete Note"@.len()); }
        assert(label != "Toggle Sidebar"@) by { assert(label.len() != "Toggle Sidebar"@.len()); }
        assert(label != "Toggle View Mode"@) by { assert(label.len() != "Toggle View Mode"@.len()); }
        assert(label != "Split Pane Right"@) by { assert(label.len() != "Split Pane Right"@.len()); }
        assert(label != "Split Pane Down"@) by { assert(label.len() != "Split Pane Down"@.len()); }
    }
    if label == "New Tab"@ {
        assert(label != "Create Note"@) by { assert(label.len() != "Create Note"@.len()); }
        assert(label != "Create Folder"@) by { assert(label.len() != "Create Folder"@.len()); }
        assert(label != "Move Note to Folder"@) by { assert(label.len() != "Move Note to Folder"@.len()); }
        assert(label != "Move Folder to Folder"@) by { assert(label.len() != "Move Folder to Folder"@.len()); }
        assert(label != "Delete Folder"@) by { assert(label.len() != "Delete Folder"@.len()); }
        assert(label != "Rename Folder"@) by { assert(label.len() != "Rename Folder"@.len()); }
        assert(label != "Rename Note"@) by { assert(label.len() != "Rename Note"@.len()); }
        assert(label != "Delete Note"@) by { assert(label.len() != "Delete Note"@.len()); }
        assert(label != "Toggle Sidebar"@) by { assert(label.len() != "Toggle Sidebar"@.len()); }
        assert(label != "Toggle View Mode"@) by { assert(label.len() != "Toggle View Mode"@.len()); }
        assert(label != "Split Pane Right"@) by { assert(label.len() != "Split Pane Right"@.len()); }
        assert(label != "Split Pane Down"@) by { assert(label.len() != "Split Pane Down"@.len()); }
        assert(label != "Close Pane"@) by { assert(label.len() != "Close Pane"@.len()); }
    }
    if label == "Next Tab"@ {
        assert(label != "Create Note"@) by { assert(label.len() != "Create Note"@.len()); }
        assert(label != "Create Folder"@) by { assert(label.len() != "Create Folder"@.len()); }
        assert(label != "Move Note to Folder"@) by { assert(label.len() != "Move Note to Folder"@.len()); }
        assert(label != "Move Folder to Folder"@) by { assert(label.len() != "Move Folder to Folder"@.len()); }
        assert(label != "Delete Folder"@) by { assert(label.len() != "Delete Folder"@.len()); }
        assert(label != "Rename Folder"@) by { assert(label.len() != "Rename Folder"@.len()); }
        assert(label != "Rename Note"@) by { assert(label.len() != "Rename Note"@.len()); }
        assert(label != "Delete Note"@) by { assert(label.len() != "Delete Note"@.len()); }
        assert(label != "Toggle Sidebar"@) by { assert(label.len() != "Toggle Sidebar"@.len()); }
        assert(label != "Toggle View Mode"@) by { assert(label.len() != "Toggle View Mode"@.len()); }
        assert(label != "Split Pane Right"@) by { assert(label.len() != "Split Pane Right"@.len()); }
        assert(label != "Split Pane Down"@) by { assert(label.len() != "Split Pane Down"@.len()); }
        assert(label != "Close Pane"@) by { assert(label.len() != "Close Pane"@.len()); }
        assert(label != "New Tab"@) by { assert(label.len() != "New Tab"@.len()); }
    }
    if label == "Prev Tab"@ {
        assert(label != "Create Note"@) by { assert(label.len() != "Create Note"@.len()); }
        assert(label != "Create Folder"@) by { assert(label.len() != "Create Folder"@.len()); }
        assert(label != "Move Note to Folder"@) by { assert(label.len() != "Move Note to Folder"@.len()); }
        assert(label != "Move Folder to Folder"@) by { assert(label.len() != "Move Folder to Folder"@.len()); }
        assert(label != "Delete Folder"@) by { assert(label.len() != "Delete Folder"@.len()); }
        assert(label != "Rename Folder"@) by { assert(label.len() != "Rename Folder"@.len()); }
        assert(label != "Rename Note"@) by { assert(label.len() != "Rename Note"@.len()); }
        assert(label != "Delete Note"@) by { assert(label.len() != "Delete Note"@.len()); }
        assert(label != "Toggle Sidebar"@) by { assert(label.len() != "Toggle Sidebar"@.len()); }
        assert(label != "Toggle View Mode"@) by { assert(label.len() != "Toggle View Mode"@.len()); }
        assert(label != "Split Pane Right"@) by { assert(label.len() != "Split Pane Right"@.len()); }
        assert(label != "Split Pane Down"@) by { assert(label.len() != "Split Pane Down"@.len()); }
        assert(label != "Close Pane"@) by { assert(label.len() != "Close Pane"@.len()); }
        assert(label != "New Tab"@) by { assert(label.len() != "New Tab"@.len()); }
        assert(label != "Next Tab"@) by { assert(label[0] != "Next Tab"@[0]); }
    }
    if label == "Save Note"@ {
        assert(label != "Create Note"@) by { assert(label.len() != "Create Note"@.len()); }
        assert(label != "Create Folder"@) by { assert(label.len() != "Create Folder"@.len()); }
        assert(label != "Move Note to Folder"@) by { assert(label.len() != "Move Note to Folder"@.len()); }
        assert(label != "Move Folder to Folder"@) by { assert(label.len() != "Move Folder to Folder"@.len()); }
        assert(label != "Delete Folder"@) by { assert(label.len() != "Delete Folder"@.len()); }
        assert(label != "Rename Folder"@) by { assert(label.len() != "Rename Folder"@.len()); }
        assert(label != "Rename Note"@) by { assert(label.len() != "Rename Note"@.len()); }
        assert(label != "Delete Note"@) by { assert(label.len() != "Delete Note"@.len()); }
        assert(label != "Toggle Sidebar"@) by { assert(label.len() != "Toggle Sidebar"@.len()); }
        assert(label != "Toggle View Mode"@) by { assert(label.len() != "Toggle View Mode"@.len()); }
        assert(label != "Split Pane Right"@) by { assert(label.len() != "Split Pane Right"@.len()); }
        assert(label != "Split Pane Down"@) by { assert(label.len() != "Split Pane Down"@.len()); }
        assert(label != "Close Pane"@) by { assert(label.len() != "Close Pane"@.len()); }
        assert(label != "New Tab"@) by { assert(label.len() != "New Tab"@.len()); }
        assert(label != "Next Tab"@) by { assert(label.len() != "Next Tab"@.len()); }
        assert(label != "Prev Tab"@) by { assert(label.len() != "Prev Tab"@.len()); }
    }
    if label == "Quit"@ {
        assert(label != "Create Note"@) by { assert(label.len() != "Create Note"@.len()); }
        assert(label != "Create Folder"@) by { assert(label.len() != "Create Folder"@.len()); }
        assert(label != "Move Note to Folder"@) by { assert(label.len() != "Move Note to Folder"@.len()); }
        assert(label != "Move Folder to Folder"@) by { assert(label.len() != "Move Folder to Folder"@.len()); }
        assert(label != "Delete Folder"@) by { assert(label.len() != "Delete Folder"@.len()); }
        assert(label != "Rename Folder"@) by { assert(label.len() != "Rename Folder"@.len()); }
        assert(label != "Rename Note"@) by { assert(label.len() != "Rename Note"@.len()); }
        assert(label != "Delete Note"@) by { assert(label.len() != "Delete Note"@.len()); }
        assert(label != "Toggle Sidebar"@) by { assert(label.len() != "Toggle Sidebar"@.len()); }
        assert(label != "Toggle View Mode"@) by { assert(label.len() != "Toggle View Mode"@.len()); }
        assert(label != "Split Pane Right"@) by { assert(label.len() != "Split Pane Right"@.len()); }
        assert(label != "Split Pane Down"@) by { assert(label.len() != "Split Pane Down"@.len()); }
        assert(label != "Close Pane"@) by { assert(label.len() != "Close Pane"@.len()); }
        assert(label != "New Tab"@) by { assert(label.len() != "New Tab"@.len()); }
        assert(label != "Next Tab"@) by { assert(label.len() != "Next Tab"@.len()); }
        assert(label != "Prev Tab"@) by { assert(label.len() != "Prev Tab"@.len()); }
        assert(label != "Save Note"@) by { assert(label.len() != "Save Note"@.len()); }
    }
}

} // verus!

verus! {

proof fn lemma_note_index(ns: Seq<NoteEntry>, wanted: Option<Seq<char>>, i: int)
    ensures
        note_index_from(ns, wanted, i) matches Some(k) ==> 0 <= k < ns.len() && note_titled(
            ns[k].title@,
            wanted,
        ),
    decreases ns.len() - i,
{
    if 0 <= i < ns.len() && !note_titled(ns[i].title@, wanted) {
        lemma_note_index(ns, wanted, i + 1);
    }
}

proof fn lemma_folder_named(fs: Seq<Folder>, name: Option<Seq<char>>, i: int)
    ensures
        folder_named_from(fs, name, i) matches Some(id) ==> exists|k: int|
            0 <= k < fs.len() && (#[trigger] fs[k]).id == id && name == Some(fs[k].name@),
    decreases fs.len() - i,
{
    if 0 <= i < fs.len() && name != Some(fs[i].name@) {
        lemma_folder_named(fs, name, i + 1);
    }
}

/// A note with the given id whose title is the one asked for.
pub open spec fn note_asked(ns: Seq<NoteEntry>, id: u128, wanted: Option<Seq<char>>) -> bool {
    exists|k: int| 0 <= k < ns.len() && (#[trigger] ns[k]).id == id && note_titled(ns[k].title@, wanted)
}

/// A folder with the given id and the name asked for.
pub open spec fn folder_asked(fs: Seq<Folder>, id: u128, name: Option<Seq<char>>) -> bool {
    exists|k: int| 0 <= k < fs.len() && (#[trigger] fs[k]).id == id && name == Some(fs[k].name@)
}

/// A destination folder is one named by the argument; no destination is
/// the root.
pub open spec fn dest_asked(fs: Seq<Folder>, d: Option<u128>, name: Option<Seq<char>>) -> bool {
    match d {
        Some(id) => folder_asked(fs, id, name) && name != Some("(root)"@),
        None => true,
    }
}

/// Commands that take arguments act on what their arguments name: a new
/// note gets the first argument as its title; a note command acts on a
/// note titled as the first argument; a folder command acts on a folder
/// named by the first argument; a move goes to a folder named by the
/// second argument (or to the root); renames take the second argument as
/// the new name; and each such action comes only from its own command.
pub proof fn law_argument_commands(
    label: Seq<char>,
    args: Seq<Option<String>>,
    fs: Seq<Folder>,
    ns: Seq<NoteEntry>,
)
    ensures
        ({
            let a0 = arg_at(args, 0);
            let a1 = arg_at(args, 1);
            match planned(label, args, fs, ns) {
                CommandModel::CreateNote(t) => label == "Create Note"@ && t == a0,
                CommandModel::CreateFolder(name, d) => label == "Create Folder"@ && name == or_text(
                    a0,
                    "New Folder"@,
                ) && dest_asked(fs, d, a1),
                CommandModel::MoveNote(id, d) => label == "Move Note to Folder"@ && note_asked(
                    ns,
                    id,
                    a0,
                ) && dest_asked(fs, d, a1),
                CommandModel::MoveFolder(id, d) => label == "Move Folder to Folder"@ && folder_asked(
                    fs,
                    id,
                    a0,
                ) && dest_asked(fs, d, a1),
                CommandModel::DeleteFolder(id, _) => label == "Delete Folder"@ && folder_asked(
                    fs,
                    id,
                    a0,
                ),
                CommandModel::RenameFolder(id, name) => label == "Rename Folder"@ && folder_asked(
                    fs,
                    id,
                    a0,
                ) && name == or_text(a1, ""@),
                CommandModel::RenameNote(id, name) => label == "Rename Note"@ && note_asked(ns, id, a0)
                    && name == or_text(a1, ""@),
                CommandModel::DeleteNote(id) => label == "Delete Note"@ && note_asked(ns, id, a0),
                _ => true,
            }
        }),
{
    let a0 = arg_at(args, 0);
    let a1 = arg_at(args, 1);
    lemma_note_index(ns, a0, 0);
    lemma_folder_named(fs, a0, 0);
    lemma_folder_named(fs, a1, 0);
    if let Some(k) = note_index_from(ns, a0, 0) {
        assert(ns[k].id == ns[k].id);
    }
}

} // verus!
