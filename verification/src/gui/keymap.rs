//! The commands the command palette offers, with the arguments each asks
//! for, and the actions that keys are bound to.
use vstd::prelude::*;
use crate::config::keymap::{replace_all, BindingConfig, KeymapConfig};
use crate::markdown::ast::opt_view;
use crate::text::{same_text, string_views};

verus! {

/// How an argument of a command is entered.
#[derive(Debug, Clone)]
pub enum ArgType {
    FreeText { default: Option<String> },
    Select { options: Vec<String> },
}

/// One argument of a command: its prompt, how it is entered, and whether
/// it may be left out.
#[derive(Debug, Clone)]
pub struct ArgSpec {
    pub prompt: String,
    pub arg_type: ArgType,
    pub optional: bool,
}

/// A command of the palette and its arguments.
#[derive(Debug, Clone)]
pub struct CommandSpec {
    pub label: String,
    pub args: Vec<ArgSpec>,
}

/// Model of [`ArgType`].
#[verifier::ext_equal]
pub enum ArgTypeModel {
    FreeText(Option<Seq<char>>),
    Select(Seq<Seq<char>>),
}

/// Model of [`ArgSpec`].
#[verifier::ext_equal]
pub struct ArgModel {
    pub prompt: Seq<char>,
    pub arg_type: ArgTypeModel,
    pub optional: bool,
}

/// Model of [`CommandSpec`].
#[verifier::ext_equal]
pub struct CommandModel {
    pub label: Seq<char>,
    pub args: Seq<ArgModel>,
}

impl ArgSpec {
    pub open spec fn view(self) -> ArgModel {
        ArgModel {
            prompt: self.prompt@,
            arg_type: match self.arg_type {
                ArgType::FreeText { default } => ArgTypeModel::FreeText(
                    crate::markdown::ast::opt_view(default),
                ),
                ArgType::Select { options } => ArgTypeModel::Select(string_views(options@)),
            },
            optional: self.optional,
        }
    }
}

impl CommandSpec {
    pub open spec fn view(self) -> CommandModel {
        CommandModel {
            label: self.label@,
            args: Seq::new(self.args@.len(), |k: int| self.args@[k].view()),
        }
    }

    /// A command without arguments.
    pub fn no_arg(label: &str) -> (r: Self)
        ensures
            r.label@ == label@,
            r.args@.len() == 0,
    {
        CommandSpec { label: label.to_owned(), args: Vec::new() }
    }

    /// A command with the given arguments.
    pub fn with_args(label: &str, args: Vec<ArgSpec>) -> (r: Self)
        ensures
            r.label@ == label@,
            r.args@ == args@,
    {
        CommandSpec { label: label.to_owned(), args }
    }
}

/// The models of a sequence of commands.
pub open spec fn command_models(v: Seq<CommandSpec>) -> Seq<CommandModel> {
    Seq::new(v.len(), |k: int| v[k].view())
}

/// The action names of the palette and their display labels.
pub open spec fn action_entries() -> Seq<(Seq<char>, Seq<char>)> {
    seq![
        ("OpenCommandPalette"@, "Open Command Palette"@),
        ("SearchNotes"@, "Search Notes"@),
        ("CreateNote"@, "Create Note"@),
        ("CreateFolder"@, "Create Folder"@),
        ("MoveToFolder"@, "Move to Folder"@),
        ("DeleteFolder"@, "Delete Folder"@),
        ("RenameFolder"@, "Rename Folder"@),
        ("ListNotes"@, "List Notes"@),
        ("ShowTags"@, "Show Tags"@),
        ("ToggleSidebar"@, "Toggle Sidebar"@),
        ("SaveNote"@, "Save Note"@),
        ("Quit"@, "Quit"@),
    ]
}

/// Every action the palette can run, as (action name, label).
pub fn all_action_entries() -> (r: Vec<(String, String)>)
    ensures
        Seq::new(r@.len(), |k: int| (r@[k].0@, r@[k].1@)) == action_entries(),
{
    let r = vec![
        ("OpenCommandPalette".to_owned(), "Open Command Palette".to_owned()),
        ("SearchNotes".to_owned(), "Search Notes".to_owned()),
        ("CreateNote".to_owned(), "Create Note".to_owned()),
        ("CreateFolder".to_owned(), "Create Folder".to_owned()),
        ("MoveToFolder".to_owned(), "Move to Folder".to_owned()),
        ("DeleteFolder".to_owned(), "Delete Folder".to_owned()),
        ("RenameFolder".to_owned(), "Rename Folder".to_owned()),
        ("ListNotes".to_owned(), "List Notes".to_owned()),
        ("ShowTags".to_owned(), "Show Tags".to_owned()),
        ("ToggleSidebar".to_owned(), "Toggle Sidebar".to_owned()),
        ("SaveNote".to_owned(), "Save Note".to_owned()),
        ("Quit".to_owned(), "Quit".to_owned()),
    ];
    proof {
        assert(Seq::new(r@.len(), |k: int| (r@[k].0@, r@[k].1@)) =~= action_entries());
    }
    r
}

/// A free-text argument without default.
pub open spec fn free_arg(prompt: Seq<char>, optional: bool) -> ArgModel {
    ArgModel { prompt, arg_type: ArgTypeModel::FreeText(None), optional }
}

/// A select argument over `options`.
pub open spec fn select_arg(prompt: Seq<char>, options: Seq<Seq<char>>, optional: bool) -> ArgModel {
    ArgModel { prompt, arg_type: ArgTypeModel::Select(options), optional }
}

/// A command without arguments.
pub open spec fn plain_command(label: Seq<char>) -> CommandModel {
    CommandModel { label, args: seq![] }
}

/// The palette's commands, given the current folder names: folder choices
/// list the root first where a note may go to the root.
pub open spec fn command_specs(folders: Seq<Seq<char>>) -> Seq<CommandModel> {
    let with_root = seq!["(root)"@] + folders;
    seq![
        plain_command("Open Command Palette"@),
        plain_command("Search Notes"@),
        CommandModel {
            label: "Create Note"@,
            args: seq![free_arg("Note title"@, true), select_arg("Folder"@, with_root, true)],
        },
        CommandModel {
            label: "Create Folder"@,
            args: seq![
                free_arg("Folder name"@, false),
                select_arg("Parent folder"@, with_root, true),
            ],
        },
        CommandModel {
            label: "Move to Folder"@,
            args: seq![select_arg("Target folder"@, with_root, true)],
        },
        CommandModel {
            label: "Delete Folder"@,
            args: seq![
                select_arg("Folder"@, folders, false),
                select_arg("Contents"@, seq!["Move notes to root"@, "Delete notes too"@], false),
                select_arg("Confirm"@, seq!["Cancel"@, "Yes, delete"@], false),
            ],
        },
        CommandModel {
            label: "Rename Folder"@,
            args: seq![select_arg("Folder"@, folders, false), free_arg("New name"@, false)],
        },
        plain_command("List Notes"@),
        plain_command("Show Tags"@),
        plain_command("Toggle Sidebar"@),
        plain_command("Save Note"@),
        plain_command("Quit"@),
    ]
}

/// A copy of a list of strings.
fn copy_strings(v: &[String]) -> (r: Vec<String>)
    ensures
        string_views(r@) == string_views(v@),
{
    let mut r: Vec<String> = Vec::new();
    let mut k: usize = 0;
    while k < v.len()
        invariant
            k <= v@.len(),
            string_views(r@) == string_views(v@).take(k as int),
        decreases v@.len() - k,
    {
        let ghost before = string_views(r@);
        let x = v[k].clone();
        r.push(x);
        proof {
            assert(string_views(r@) =~= before.push(v@[k as int]@));
            assert(string_views(v@).take(k + 1) =~= string_views(v@).take(k as int).push(
                v@[k as int]@,
            ));
        }
        k += 1;
    }
    proof {
        assert(string_views(v@).take(v@.len() as int) =~= string_views(v@));
    }
    r
}

fn free_text(prompt: &str, optional: bool) -> (r: ArgSpec)
    ensures
        r.view() == free_arg(prompt@, optional),
{
    ArgSpec { prompt: prompt.to_owned(), arg_type: ArgType::FreeText { default: None }, optional }
}

fn select(prompt: &str, options: Vec<String>, optional: bool) -> (r: ArgSpec)
    ensures
        r.view() == select_arg(prompt@, string_views(options@), optional),
{
    ArgSpec { prompt: prompt.to_owned(), arg_type: ArgType::Select { options }, optional }
}

/// The commands of the palette with their arguments; `folder_names` fill
/// the folder choices.
pub fn all_command_specs(folder_names: &[String]) -> (r: Vec<CommandSpec>)
    ensures
        command_models(r@) == command_specs(string_views(folder_names@)),
{
    let ghost folders = string_views(folder_names@);
    let mut folder_options: Vec<String> = vec!["(root)".to_owned()];
    let tail = copy_strings(folder_names);
    let mut k: usize = 0;
    while k < tail.len()
        invariant
            k <= tail@.len(),
            string_views(tail@) == folders,
            string_views(folder_options@) == seq!["(root)"@] + folders.take(k as int),
        decreases tail@.len() - k,
    {
        let ghost before = string_views(folder_options@);
        let x = tail[k].clone();
        folder_options.push(x);
        proof {
            assert(string_views(folder_options@) =~= before.push(tail@[k as int]@));
            assert(string_views(tail@)[k as int] == tail@[k as int]@);
            assert(folders.take(k + 1) =~= folders.take(k as int).push(folders[k as int]));
            assert(seq!["(root)"@] + folders.take(k + 1) =~= (seq!["(root)"@] + folders.take(
                k as int,
            )).push(folders[k as int]));
        }
        k += 1;
    }
    proof {
        assert(folders.take(folders.len() as int) =~= folders);
    }
    let ghost with_root = seq!["(root)"@] + folders;
    let contents_options = vec!["Move notes to root".to_owned(), "Delete notes too".to_owned()];
    let confirm_options = vec!["Cancel".to_owned(), "Yes, delete".to_owned()];
    proof {
        assert(string_views(contents_options@) =~= seq!["Move notes to root"@, "Delete notes too"@]);
        assert(string_views(confirm_options@) =~= seq!["Cancel"@, "Yes, delete"@]);
    }
    let r = vec![
        CommandSpec::no_arg("Open Command Palette"),
        CommandSpec::no_arg("Search Notes"),
        CommandSpec::with_args(
            "Create Note",
            vec![
                free_text("Note title", true),
                select("Folder", copy_strings(folder_options.as_slice()), true),
            ],
        ),
        CommandSpec::with_args(
            "Create Folder",
            vec![
                free_text("Folder name", false),
                select("Parent folder", copy_strings(folder_options.as_slice()), true),
            ],
        ),
        CommandSpec::with_args(
            "Move to Folder",
            vec![select("Target folder", copy_strings(folder_options.as_slice()), true)],
        ),
        CommandSpec::with_args(
            "Delete Folder",
            vec![
                select("Folder", copy_strings(folder_names), false),
                select("Contents", contents_options, false),
                select("Confirm", confirm_options, false),
            ],
        ),
        CommandSpec::with_args(
            "Rename Folder",
            vec![select("Folder", copy_strings(folder_names), false), free_text("New name", false)],
        ),
        CommandSpec::no_arg("List Notes"),
        CommandSpec::no_arg("Show Tags"),
        CommandSpec::no_arg("Toggle Sidebar"),
        CommandSpec::no_arg("Save Note"),
        CommandSpec::no_arg("Quit"),
    ];
    proof {
        let m = command_models(r@);
        let e = command_specs(folders);
        assert forall|i: int| 0 <= i < 12 implies #[trigger] m[i] =~= e[i] by {
            assert(m[i].args =~= e[i].args);
        }
        assert(m =~= e);
    }
    r
}


/// An action of the application that a key can trigger.
#[derive(Debug, Clone, Copy, PartialEq, Eq, Structural)]
pub enum Action {
    OpenCommandPalette,
    SearchNotes,
    CreateNote,
    ListNotes,
    ShowTags,
    ToggleSidebar,
    ResizeSidebarLeft,
    ResizeSidebarRight,
    SaveNote,
    Quit,
    MoveUp,
    MoveDown,
    MoveLeft,
    MoveRight,
    Backspace,
    InsertNewline,
    NextPane,
    PrevPane,
    ToggleViewMode,
    SplitPaneRight,
    SplitPaneDown,
    ClosePane,
    NewTab,
    NextTab,
    PrevTab,
    Undo,
    Redo,
    Confirm,
    Cancel,
    SelectLeft,
    SelectRight,
    SelectUp,
    SelectDown,
    SelectAll,
    Copy,
    Paste,
    Cut,
}

/// The action a key map names (`new_note` is another name for
/// `create_note`); `None` for a name it does not know.
pub open spec fn action_named(name: Seq<char>) -> Option<Action> {
    if name == "open_command_palette"@ {
        Some(Action::OpenCommandPalette)
    } else if name == "search_notes"@ {
        Some(Action::SearchNotes)
    } else if name == "create_note"@ || name == "new_note"@ {
        Some(Action::CreateNote)
    } else if name == "list_notes"@ {
        Some(Action::ListNotes)
    } else if name == "show_tags"@ {
        Some(Action::ShowTags)
    } else if name == "toggle_sidebar"@ {
        Some(Action::ToggleSidebar)
    } else if name == "save_note"@ {
        Some(Action::SaveNote)
    } else if name == "quit"@ {
        Some(Action::Quit)
    } else if name == "move_up"@ {
        Some(Action::MoveUp)
    } else if name == "move_down"@ {
        Some(Action::MoveDown)
    } else if name == "move_left"@ {
        Some(Action::MoveLeft)
    } else if name == "move_right"@ {
        Some(Action::MoveRight)
    } else if name == "backspace"@ {
        Some(Action::Backspace)
    } else if name == "insert_newline"@ {
        Some(Action::InsertNewline)
    } else if name == "next_pane"@ {
        Some(Action::NextPane)
    } else if name == "prev_pane"@ {
        Some(Action::PrevPane)
    } else if name == "toggle_view_mode"@ {
        Some(Action::ToggleViewMode)
    } else if name == "undo"@ {
        Some(Action::Undo)
    } else if name == "redo"@ {
        Some(Action::Redo)
    } else if name == "confirm"@ {
        Some(Action::Confirm)
    } else if name == "cancel"@ {
        Some(Action::Cancel)
    } else if name == "select_all"@ {
        Some(Action::SelectAll)
    } else {
        None
    }
}

/// The action a key map names (see [`action_named`]).
pub fn action_for_name(name: &str) -> (r: Option<Action>)
    ensures
        r == action_named(name@),
{
    if same_text(name, "open_command_palette") {
        Some(Action::OpenCommandPalette)
    } else if same_text(name, "search_notes") {
        Some(Action::SearchNotes)
    } else if same_text(name, "create_note") || same_text(name, "new_note") {
        Some(Action::CreateNote)
    } else if same_text(name, "list_notes") {
        Some(Action::ListNotes)
    } else if same_text(name, "show_tags") {
        Some(Action::ShowTags)
    } else if same_text(name, "toggle_sidebar") {
        Some(Action::ToggleSidebar)
    } else if same_text(name, "save_note") {
        Some(Action::SaveNote)
    } else if same_text(name, "quit") {
        Some(Action::Quit)
    } else if same_text(name, "move_up") {
        Some(Action::MoveUp)
    } else if same_text(name, "move_down") {
        Some(Action::MoveDown)
    } else if same_text(name, "move_left") {
        Some(Action::MoveLeft)
    } else if same_text(name, "move_right") {
        Some(Action::MoveRight)
    } else if same_text(name, "backspace") {
        Some(Action::Backspace)
    } else if same_text(name, "insert_newline") {
        Some(Action::InsertNewline)
    } else if same_text(name, "next_pane") {
        Some(Action::NextPane)
    } else if same_text(name, "prev_pane") {
        Some(Action::PrevPane)
    } else if same_text(name, "toggle_view_mode") {
        Some(Action::ToggleViewMode)
    } else if same_text(name, "undo") {
        Some(Action::Undo)
    } else if same_text(name, "redo") {
        Some(Action::Redo)
    } else if same_text(name, "confirm") {
        Some(Action::Confirm)
    } else if same_text(name, "cancel") {
        Some(Action::Cancel)
    } else if same_text(name, "select_all") {
        Some(Action::SelectAll)
    } else {
        None
    }
}

/// A key bound to an action, in a context or everywhere.
#[derive(Debug, Clone)]
pub struct KeyBindingSpec {
    pub key: String,
    pub action: Action,
    pub context: Option<String>,
}

impl KeyBindingSpec {
    pub open spec fn view(self) -> (Seq<char>, Action, Option<Seq<char>>) {
        (self.key@, self.action, opt_view(self.context))
    }
}

/// The models of a list of key bindings.
pub open spec fn binding_views(v: Seq<KeyBindingSpec>) -> Seq<(Seq<char>, Action, Option<Seq<char>>)> {
    v.map_values(|b: KeyBindingSpec| b.view())
}

/// The editor's own bindings, active everywhere.
pub open spec fn builtin_bindings() -> Seq<(Seq<char>, Action, Option<Seq<char>>)> {
    seq![
        ("left"@, Action::MoveLeft, None),
        ("right"@, Action::MoveRight, None),
        ("up"@, Action::MoveUp, None),
        ("down"@, Action::MoveDown, None),
        ("shift-left"@, Action::SelectLeft, None),
        ("shift-right"@, Action::SelectRight, None),
        ("shift-up"@, Action::SelectUp, None),
        ("shift-down"@, Action::SelectDown, None),
        ("backspace"@, Action::Backspace, None),
        ("enter"@, Action::InsertNewline, None),
        ("ctrl-z"@, Action::Undo, None),
        ("ctrl-shift-z"@, Action::Redo, None),
        ("ctrl-alt-right"@, Action::NextPane, None),
        ("ctrl-alt-left"@, Action::PrevPane, None),
        ("ctrl-alt-v"@, Action::ToggleViewMode, None),
        ("escape"@, Action::Cancel, None),
        ("ctrl-a"@, Action::SelectAll, None),
    ]
}

/// The bindings of a key map whose action is known, in order, each with
/// that action.
pub open spec fn known_bindings(bs: Seq<(Seq<char>, Seq<char>, Option<Seq<char>>)>) -> Seq<
    (Seq<char>, Action, Option<Seq<char>>),
>
    decreases bs.len(),
{
    if bs.len() == 0 {
        seq![]
    } else {
        let b = bs.last();
        known_bindings(bs.drop_last()) + match action_named(b.1) {
            Some(a) => seq![(b.0, a, b.2)],
            None => seq![],
        }
    }
}

/// A key map's bindings with `leader` in each key replaced by its leader key.
pub open spec fn resolved(km: KeymapConfig) -> Seq<(Seq<char>, Seq<char>, Option<Seq<char>>)> {
    km.bindings@.map_values(
        |b: BindingConfig| (replace_all(b.key@, "leader"@, km.leader@), b.action@, opt_view(b.context)),
    )
}

fn bind(key: &str, action: Action) -> (r: KeyBindingSpec)
    ensures
        r.view() == (key@, action, None::<Seq<char>>),
{
    KeyBindingSpec { key: key.to_string(), action, context: None }
}

/// All key bindings: the editor's own, then those of the key map whose
/// action is known.
pub fn build_bindings(keymap: &KeymapConfig) -> (r: Vec<KeyBindingSpec>)
    ensures
        binding_views(r@) == builtin_bindings() + known_bindings(resolved(*keymap)),
{
    let mut r: Vec<KeyBindingSpec> = Vec::new();
    r.push(bind("left", Action::MoveLeft));
    r.push(bind("right", Action::MoveRight));
    r.push(bind("up", Action::MoveUp));
    r.push(bind("down", Action::MoveDown));
    r.push(bind("shift-left", Action::SelectLeft));
    r.push(bind("shift-right", Action::SelectRight));
    r.push(bind("shift-up", Action::SelectUp));
    r.push(bind("shift-down", Action::SelectDown));
    r.push(bind("backspace", Action::Backspace));
    r.push(bind("enter", Action::InsertNewline));
    r.push(bind("ctrl-z", Action::Undo));
    r.push(bind("ctrl-shift-z", Action::Redo));
    r.push(bind("ctrl-alt-right", Action::NextPane));
    r.push(bind("ctrl-alt-left", Action::PrevPane));
    r.push(bind("ctrl-alt-v", Action::ToggleViewMode));
    r.push(bind("escape", Action::Cancel));
    r.push(bind("ctrl-a", Action::SelectAll));
    proof {
        assert(binding_views(r@) =~= builtin_bindings());
    }
    let res = keymap.resolved_bindings();
    let ghost rs = resolved(*keymap);
    proof {
        assert(rs.len() == res@.len());
        assert forall|k: int| 0 <= k < rs.len() implies #[trigger] rs[k] == res@[k].view() by {}
    }
    let mut k: usize = 0;
    while k < res.len()
        invariant
            k <= res@.len(),
            rs.len() == res@.len(),
            forall|q: int| 0 <= q < rs.len() ==> #[trigger] rs[q] == res@[q].view(),
            binding_views(r@) == builtin_bindings() + known_bindings(rs.take(k as int)),
        decreases res@.len() - k,
    {
        let ghost before = binding_views(r@);
        let b = &res[k];
        match action_for_name(b.action.as_str()) {
            Some(a) => {
                r.push(KeyBindingSpec { key: b.key.clone(), action: a, context: b.context.clone() });
                proof {
                    assert(binding_views(r@) =~= before.push((b.key@, a, opt_view(b.context))));
                }
            },
            None => {},
        }
        proof {
            assert(rs.take(k + 1).drop_last() =~= rs.take(k as int));
            assert(rs.take(k + 1).last() == res@[k as int].view());
            assert(binding_views(r@) =~= builtin_bindings() + known_bindings(rs.take(k + 1)));
        }
        k += 1;
    }
    proof {
        assert(rs.take(k as int) =~= rs);
    }
    r
}

} // verus!
