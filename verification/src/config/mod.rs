//! Application settings: their defaults and the expansion of `~` in the
//! paths a user writes. Reading and writing the TOML files is done by the
//! application around the library.
use vstd::prelude::*;
use crate::text::{chars_of, push_all, string_from_chars};

pub mod keymap;
pub mod theme;

verus! {

/// All settings.
#[derive(Debug, Clone)]
pub struct AppConfig {
    pub note: NoteConfig,
    pub daemon: DaemonConfig,
    pub mcp: McpConfig,
    pub editor: EditorBehavior,
    pub preview: PreviewBehavior,
    pub ui: UiConfig,
}

/// Look of the user interface.
#[derive(Debug, Clone)]
pub struct UiConfig {
    pub theme: String,
    pub mode: String,
    pub override_path: Option<String>,
}

/// Editor behaviour.
#[derive(Debug, Clone)]
pub struct EditorBehavior {
    pub wrap: bool,
}

/// Preview behaviour.
#[derive(Debug, Clone)]
pub struct PreviewBehavior {
    pub wrap: bool,
}

/// Where notes live and how new ones are named.
#[derive(Debug, Clone)]
pub struct NoteConfig {
    pub vault_path: String,
    pub default_extension: String,
}

/// The background daemon.
#[derive(Debug, Clone)]
pub struct DaemonConfig {
    pub socket_path: String,
    pub index_on_start: bool,
}

/// The MCP server.
#[derive(Debug, Clone)]
pub struct McpConfig {
    pub enabled: bool,
}

/// `PathBuf::join` on Unix: an absolute `rel` replaces `base`; otherwise a
/// `/` is put between them unless `base` is empty or already ends with one.
pub open spec fn path_join(base: Seq<char>, rel: Seq<char>) -> Seq<char> {
    if rel.len() > 0 && rel[0] == '/' {
        rel
    } else if base.len() == 0 || base.last() == '/' {
        base + rel
    } else {
        base + seq!['/'] + rel
    }
}

/// `path` with a leading `~` or `~/` replaced by `home`; every other path,
/// and every path when no home is known, unchanged.
pub open spec fn expand_tilde(path: Seq<char>, home: Option<Seq<char>>) -> Seq<char> {
    match home {
        None => path,
        Some(h) => if path == seq!['~'] {
            h
        } else if path.len() >= 2 && path[0] == '~' && path[1] == '/' {
            path_join(h, path.skip(2))
        } else {
            path
        },
    }
}

/// The home directory, `dirs::home_dir`, as text (lossily where it is not
/// UTF-8); what it returns depends on the environment.
#[verifier::external_body]
fn home_dir() -> (r: Option<String>) {
    match dirs::home_dir() {
        Some(p) => Some(p.to_string_lossy().into_owned()),
        None => None,
    }
}

/// The user's configuration directory, `dirs::config_dir`, as text
/// (lossily where it is not UTF-8); what it returns depends on the
/// environment.
#[verifier::external_body]
pub(crate) fn config_dir() -> (r: Option<String>) {
    match dirs::config_dir() {
        Some(p) => Some(p.to_string_lossy().into_owned()),
        None => None,
    }
}

/// The file `name` of this application's directory under `dir`.
pub open spec fn config_file_in(dir: Seq<char>, name: Seq<char>) -> Seq<char> {
    path_join(path_join(dir, "zelkova"@), name)
}

/// The file `name` of this application's directory under the
/// configuration directory `dir`.
pub fn config_file_path(dir: &str, name: &str) -> (r: String)
    ensures
        r@ == config_file_in(dir@, name@),
{
    let app_dir = join_path(dir, "zelkova");
    join_path(app_dir.as_str(), name)
}

/// The file `name` of this application's directory in the user's
/// configuration directory; `None` when that directory is unknown.
pub fn config_file(name: &str) -> (r: Option<String>)
    ensures
        r matches Some(p) ==> exists|d: Seq<char>| p@ == config_file_in(d, name@),
{
    match config_dir() {
        Some(d) => Some(config_file_path(d.as_str(), name)),
        None => None,
    }
}

/// `base` joined with `rel` (see [`path_join`]).
pub fn join_path(base: &str, rel: &str) -> (r: String)
    ensures
        r@ == path_join(base@, rel@),
{
    let b = chars_of(base);
    let rl = chars_of(rel);
    if rl.len() > 0 && rl[0] == '/' {
        return rel.to_owned();
    }
    let mut out: Vec<char> = Vec::new();
    push_all(&mut out, b.as_slice());
    if !(b.len() == 0 || b[b.len() - 1] == '/') {
        out.push('/');
    }
    push_all(&mut out, rl.as_slice());
    proof {
        assert(out@ =~= path_join(base@, rel@));
    }
    string_from_chars(out.as_slice())
}

/// Expands a leading `~` or `~/...` to `home`; absolute, relative and empty
/// paths, `~user`, and every path when `home` is `None`, stay as they are.
pub fn expand_tilde_with(path: &str, home: Option<&str>) -> (r: String)
    ensures
        r@ == expand_tilde(path@, match home {
            Some(h) => Some(h@),
            None => None,
        }),
{
    let h = match home {
        Some(h) => h,
        None => return path.to_owned(),
    };
    let p = chars_of(path);
    if p.len() == 1 && p[0] == '~' {
        proof {
            assert(path@ =~= seq!['~']);
        }
        return h.to_owned();
    }
    proof {
        if path@ == seq!['~'] {
            assert(p@.len() == 1);
        }
    }
    if p.len() >= 2 && p[0] == '~' && p[1] == '/' {
        let rest = string_from_chars(vstd::slice::slice_subrange(p.as_slice(), 2, p.len()));
        proof {
            assert(rest@ =~= path@.skip(2));
        }
        return join_path(h, rest.as_str());
    }
    path.to_owned()
}

/// [`expand_tilde_with`] for a path stored as text; always `Some` here, as
/// the result is text again.
pub fn expand_tilde_str(s: &str, home: Option<&str>) -> (r: Option<String>)
    ensures
        r matches Some(t) && t@ == expand_tilde(s@, match home {
            Some(h) => Some(h@),
            None => None,
        }),
{
    Some(expand_tilde_with(s, home))
}

/// The default notes directory: `Notes` in the home directory (a relative
/// `Notes` when no home directory is known).
pub fn default_vault_path() -> (r: String)
    ensures
        exists|h: Seq<char>| r@ == path_join(h, "Notes"@),
{
    let home = home_dir();
    match home {
        Some(h) => join_path(h.as_str(), "Notes"),
        None => {
            let r = join_path("", "Notes");
            proof {
                assert(r@ == path_join(""@, "Notes"@));
            }
            r
        },
    }
}

pub fn default_extension() -> (r: String)
    ensures
        r@ == "md"@,
{
    "md".to_owned()
}

pub fn default_socket_path() -> (r: String)
    ensures
        r@ == "/tmp/zelkova.sock"@,
{
    "/tmp/zelkova.sock".to_owned()
}

pub fn default_true() -> (r: bool)
    ensures
        r,
{
    true
}

pub fn default_mode() -> (r: String)
    ensures
        r@ == "dark"@,
{
    "dark".to_owned()
}

impl Default for NoteConfig {
    fn default() -> (r: Self)
        ensures
            exists|h: Seq<char>| r.vault_path@ == path_join(h, "Notes"@),
            r.default_extension@ == "md"@,
    {
        NoteConfig { vault_path: default_vault_path(), default_extension: default_extension() }
    }
}

impl Default for DaemonConfig {
    fn default() -> (r: Self)
        ensures
            r.socket_path@ == "/tmp/zelkova.sock"@,
            r.index_on_start,
    {
        DaemonConfig { socket_path: default_socket_path(), index_on_start: true }
    }
}

impl Default for McpConfig {
    fn default() -> (r: Self)
        ensures
            r.enabled,
    {
        McpConfig { enabled: true }
    }
}

impl Default for EditorBehavior {
    fn default() -> (r: Self)
        ensures
            r.wrap,
    {
        EditorBehavior { wrap: true }
    }
}

impl Default for PreviewBehavior {
    fn default() -> (r: Self)
        ensures
            r.wrap,
    {
        PreviewBehavior { wrap: true }
    }
}

impl Default for UiConfig {
    fn default() -> (r: Self)
        ensures
            r.theme@ == "catppuccin"@,
            r.mode@ == "dark"@,
            r.override_path is None,
    {
        UiConfig { theme: "catppuccin".to_owned(), mode: default_mode(), override_path: None }
    }
}

impl Default for AppConfig {
    fn default() -> (r: Self)
        ensures
            exists|h: Seq<char>| r.note.vault_path@ == path_join(h, "Notes"@),
            r.note.default_extension@ == "md"@,
            r.daemon.socket_path@ == "/tmp/zelkova.sock"@,
            r.daemon.index_on_start,
            r.mcp.enabled,
            r.editor.wrap,
            r.preview.wrap,
            r.ui.theme@ == "catppuccin"@,
            r.ui.mode@ == "dark"@,
            r.ui.override_path is None,
    {
        AppConfig {
            note: NoteConfig::default(),
            daemon: DaemonConfig::default(),
            mcp: McpConfig::default(),
            editor: EditorBehavior::default(),
            preview: PreviewBehavior::default(),
            ui: UiConfig::default(),
        }
    }
}

/// The settings with `~` expanded to `home` in the notes directory, the
/// daemon socket and the theme override path; nothing else changes.
pub open spec fn expanded(c: AppConfig, final_c: AppConfig, home: Option<Seq<char>>) -> bool {
    &&& final_c.note.vault_path@ == expand_tilde(c.note.vault_path@, home)
    &&& final_c.note.default_extension == c.note.default_extension
    &&& final_c.daemon.socket_path@ == expand_tilde(c.daemon.socket_path@, home)
    &&& final_c.daemon.index_on_start == c.daemon.index_on_start
    &&& final_c.mcp == c.mcp
    &&& final_c.editor == c.editor
    &&& final_c.preview == c.preview
    &&& final_c.ui.theme == c.ui.theme
    &&& final_c.ui.mode == c.ui.mode
    &&& match c.ui.override_path {
        Some(p) => final_c.ui.override_path matches Some(q) && q@ == expand_tilde(p@, home),
        None => final_c.ui.override_path is None,
    }
}

impl AppConfig {
    /// `config.toml` in this application's configuration directory.
    pub fn config_path() -> (r: Option<String>)
        ensures
            r matches Some(p) ==> exists|d: Seq<char>| p@ == config_file_in(d, "config.toml"@),
    {
        config_file("config.toml")
    }

    /// Expands `~` to `home` in every path setting.
    pub fn expand_paths_with(&mut self, home: Option<&str>)
        ensures
            expanded(*old(self), *final(self), match home {
                Some(h) => Some(h@),
                None => None,
            }),
    {
        self.note.vault_path = expand_tilde_with(self.note.vault_path.as_str(), home);
        self.daemon.socket_path = expand_tilde_with(self.daemon.socket_path.as_str(), home);
        if let Some(p) = self.ui.override_path.take() {
            self.ui.override_path = expand_tilde_str(p.as_str(), home);
        }
    }

    /// Expands `~` to the user's home directory in every path setting; with
    /// no known home directory nothing changes.
    pub fn expand_paths(&mut self)
        ensures
            exists|h: Option<Seq<char>>| expanded(*old(self), *final(self), h),
    {
        let home = home_dir();
        match home {
            Some(h) => {
                self.expand_paths_with(Some(h.as_str()));
            },
            None => {
                self.expand_paths_with(None);
            },
        }
    }
}

} // verus!
