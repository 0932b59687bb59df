use zelkova::config::keymap::{BindingConfig, KeymapConfig};
use zelkova::config::theme::{EditorColors, ThemeConfig, UiColors};
use zelkova::config::{expand_tilde_str, expand_tilde_with, join_path, AppConfig};

#[test]
fn default_config_is_valid() {
    let config = AppConfig::default();
    assert!(config.note.vault_path.ends_with("Notes"));
    assert_eq!(config.note.default_extension, "md");
    assert_eq!(config.daemon.socket_path, "/tmp/zelkova.sock");
    assert!(config.daemon.index_on_start);
    assert!(config.mcp.enabled);
    assert!(config.editor.wrap);
    assert!(config.preview.wrap);
    assert_eq!(config.ui.theme, "catppuccin");
    assert_eq!(config.ui.mode, "dark");
}

#[test]
fn expand_tilde_bare() {
    let home = "/home/test";
    assert_eq!(expand_tilde_with("~", Some(home)), home);
}

#[test]
fn expand_tilde_single_segment() {
    let home = "/home/test";
    assert_eq!(expand_tilde_with("~/Notes", Some(home)), "/home/test/Notes");
}

#[test]
fn expand_tilde_nested() {
    let home = "/Users/alice";
    assert_eq!(
        expand_tilde_with("~/Documents/Notes/2024", Some(home)),
        "/Users/alice/Documents/Notes/2024"
    );
}

#[test]
fn expand_tilde_absolute_unchanged() {
    let home = "/home/test";
    assert_eq!(expand_tilde_with("/tmp/zelkova.sock", Some(home)), "/tmp/zelkova.sock");
    assert_eq!(expand_tilde_with("/home/oyatomo/Notes", Some(home)), "/home/oyatomo/Notes");
}

#[test]
fn expand_tilde_relative_unchanged() {
    let home = "/home/test";
    assert_eq!(expand_tilde_with("Notes", Some(home)), "Notes");
    assert_eq!(expand_tilde_with("./Notes", Some(home)), "./Notes");
    assert_eq!(expand_tilde_with("../Notes", Some(home)), "../Notes");
}

#[test]
fn expand_tilde_empty_unchanged() {
    let home = "/home/test";
    assert_eq!(expand_tilde_with("", Some(home)), "");
}

#[test]
fn expand_tilde_no_home_unchanged() {
    assert_eq!(expand_tilde_with("~/Notes", None), "~/Notes");
    assert_eq!(expand_tilde_with("~", None), "~");
}

#[test]
fn expand_tilde_other_user_unchanged() {
    let home = "/home/test";
    assert_eq!(expand_tilde_with("~alice/Notes", Some(home)), "~alice/Notes");
}

#[test]
fn expand_tilde_str_wraps() {
    assert_eq!(expand_tilde_str("~/t.json", Some("/h/")), Some("/h/t.json".to_string()));
}

#[test]
fn join_paths() {
    assert_eq!(join_path("/home/test", "Notes"), "/home/test/Notes");
    assert_eq!(join_path("/home/test/", "Notes"), "/home/test/Notes");
    assert_eq!(join_path("/home/test", "/etc"), "/etc");
    assert_eq!(join_path("", "Notes"), "Notes");
}

#[test]
fn expand_paths_expands_vault_and_socket_and_override() {
    let mut config = AppConfig::default();
    config.note.vault_path = "~/Notes".to_string();
    config.daemon.socket_path = "~/run/zelkova.sock".to_string();
    config.ui.override_path = Some("~/theme.json".to_string());
    if let Some(home) = dirs::home_dir() {
        config.expand_paths();
        assert_eq!(config.note.vault_path, home.join("Notes").to_string_lossy());
        assert_eq!(config.daemon.socket_path, home.join("run/zelkova.sock").to_string_lossy());
        assert_eq!(
            config.ui.override_path,
            Some(home.join("theme.json").to_string_lossy().to_string())
        );
    }
}

#[test]
fn expand_paths_leaves_absolute_unchanged() {
    let mut config = AppConfig::default();
    config.note.vault_path = "/var/lib/zelkova".to_string();
    config.daemon.socket_path = "/tmp/zelkova.sock".to_string();
    config.ui.override_path = Some("/etc/zelkova/theme.json".to_string());

    config.expand_paths();

    assert_eq!(config.note.vault_path, "/var/lib/zelkova");
    assert_eq!(config.daemon.socket_path, "/tmp/zelkova.sock");
    assert_eq!(config.ui.override_path, Some("/etc/zelkova/theme.json".to_string()));
}

#[test]
fn default_keymap_is_valid() {
    let km = KeymapConfig::default();
    assert_eq!(km.leader, "space");
    assert!(!km.bindings.is_empty());
    assert!(!km.bindings.iter().any(|b| b.key.contains("leader")));
}

#[test]
fn resolve_leader_key() {
    let mut km = KeymapConfig::default();
    km.leader = "ctrl-x".to_string();
    km.bindings = vec![BindingConfig {
        key: "leader f".into(),
        action: "search".into(),
        context: None,
    }];
    let resolved = km.resolved_bindings();
    assert_eq!(resolved[0].key, "ctrl-x f");
}

#[test]
fn resolve_leader_every_occurrence() {
    let mut km = KeymapConfig::default();
    km.leader = "a".to_string();
    km.bindings = vec![BindingConfig {
        key: "leaderleader-leadeX".into(),
        action: "x".into(),
        context: Some("Editor".into()),
    }];
    let resolved = km.resolved_bindings();
    assert_eq!(resolved[0].key, "aa-leadeX");
    assert_eq!(resolved[0].context.as_deref(), Some("Editor"));
    assert_eq!(resolved[0].action, "x");
}

#[test]
fn default_theme_is_valid() {
    let theme = ThemeConfig::default();
    assert!(theme.ui.bg.starts_with('#'));
    assert!(theme.editor.heading_fg.starts_with('#'));
    assert_eq!(theme.editor.bold_weight, 700);
}

#[test]
fn parse_hex_channels() {
    assert_eq!(EditorColors::parse_hex("#89b4fa"), (0x89, 0xb4, 0xfa));
    assert_eq!(UiColors::parse_hex("##1e1e2e"), (0x1e, 0x1e, 0x2e));
    assert_eq!(EditorColors::parse_hex("zz00+f"), (0, 0, 15));
}

#[test]
fn parse_hex_color() {
    // A theme color reads as its channels; this one is a visible, non-black color.
    let c = zelkova::config::theme::parse_hex_color("#89b4fa");
    assert_eq!(c, (0x89, 0xb4, 0xfa));
    assert!(c != (0, 0, 0));
}

#[test]
fn parse_hex_digit_pairs() {
    assert_eq!(EditorColors::parse_hex("#0aF0ff"), (0x0a, 0xf0, 0xff));
    assert_eq!(zelkova::config::theme::parse_hex_checked("#89b4fa"), Some((0x89, 0xb4, 0xfa)));
    assert_eq!(zelkova::config::theme::parse_hex_checked("#12"), None);
    assert_eq!(zelkova::config::theme::parse_hex_checked("#1é3456"), None);
}
