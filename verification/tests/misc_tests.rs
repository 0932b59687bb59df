use zelkova::config::theme::EditorColors;
use zelkova::highlight::resolve_language;
use zelkova::highlight::theme::CodeTheme;
use zelkova::notes::extract_title_from_body;
use zelkova::rpc::RpcClient;
use zelkova::vault::Vault;

#[test]
fn resolve_known_languages() {
    assert_eq!(resolve_language("rust"), Some("rust"));
    assert_eq!(resolve_language("rs"), Some("rust"));
    assert_eq!(resolve_language("js"), Some("javascript"));
    assert_eq!(resolve_language("typescript"), Some("javascript"));
    assert_eq!(resolve_language("ts"), Some("javascript"));
    assert_eq!(resolve_language("python"), Some("python"));
    assert_eq!(resolve_language("py"), Some("python"));
    assert_eq!(resolve_language("go"), Some("go"));
    assert_eq!(resolve_language("golang"), Some("go"));
    assert_eq!(resolve_language("c"), Some("c"));
}

#[test]
fn resolve_unknown_language() {
    assert_eq!(resolve_language("brainfuck"), None);
    assert_eq!(resolve_language(""), None);
}

#[test]
fn resolve_language_ignores_case_and_spaces() {
    assert_eq!(resolve_language("  TypeScript "), Some("javascript"));
    assert_eq!(resolve_language("H"), Some("c"));
}

#[test]
fn code_theme_color_by_index() {
    let theme = CodeTheme::default();
    assert!(theme.color_by_index(0).is_some());
    assert!(theme.color_by_index(11).is_some());
    assert!(theme.color_by_index(12).is_none());
}

#[test]
fn code_theme_from_editor_colors() {
    let colors = EditorColors::default();
    let theme = CodeTheme::from_editor_colors(&colors);
    assert_eq!(theme.color_by_index(4), Some("#cba6f7"));
    assert_eq!(theme.color_by_index(11), Some("#f9e2af"));
}

#[test]
fn extract_title_from_heading() {
    assert_eq!(extract_title_from_body("# My Title\nSome text"), Some("My Title".to_string()));
    assert_eq!(extract_title_from_body("## Sub Title\n"), Some("Sub Title".to_string()));
    assert_eq!(extract_title_from_body("No heading here"), None);
}

#[test]
fn extract_title_skips_deeper_headings() {
    assert_eq!(extract_title_from_body("### no\n  #  Yes  \n"), Some("Yes".to_string()));
}

#[test]
fn vault_tags_are_collected_once() {
    let vault = Vault { vault_path: "/tmp/v".to_string() };
    let tags = vault.all_tags(&[
        vec!["rust".to_string(), "notes".to_string()],
        vec!["notes".to_string(), "x".to_string()],
    ]);
    assert_eq!(tags, vec!["rust".to_string(), "notes".to_string(), "x".to_string()]);
}

#[test]
fn rpc_client_keeps_socket_path() {
    let client = RpcClient::new("/tmp/zelkova.sock");
    assert_eq!(client.socket_path, "/tmp/zelkova.sock");
}
