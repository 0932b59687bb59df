use zelkova::config::keymap::{BindingConfig, KeymapConfig};
use zelkova::gui::keymap::{action_for_name, build_bindings, Action};

#[test]
fn action_names() {
    assert_eq!(action_for_name("create_note"), Some(Action::CreateNote));
    assert_eq!(action_for_name("new_note"), Some(Action::CreateNote));
    assert_eq!(action_for_name("select_all"), Some(Action::SelectAll));
    assert_eq!(action_for_name("split_pane_right"), None);
    assert_eq!(action_for_name(""), None);
}

#[test]
fn bindings_builtin_then_known_custom() {
    let km = KeymapConfig {
        leader: "space".to_string(),
        bindings: vec![
            BindingConfig {
                key: "leader f".to_string(),
                action: "search_notes".to_string(),
                context: Some("Editor".to_string()),
            },
            BindingConfig { key: "ctrl-q".to_string(), action: "explode".to_string(), context: None },
            BindingConfig { key: "ctrl-s".to_string(), action: "save_note".to_string(), context: None },
        ],
    };
    let bs = build_bindings(&km);
    assert_eq!(bs.len(), 19);
    assert_eq!(bs[0].key, "left");
    assert_eq!(bs[0].action, Action::MoveLeft);
    assert_eq!(bs[16].key, "ctrl-a");
    assert_eq!(bs[17].key, "space f");
    assert_eq!(bs[17].action, Action::SearchNotes);
    assert_eq!(bs[17].context, Some("Editor".to_string()));
    assert_eq!(bs[18].key, "ctrl-s");
    assert_eq!(bs[18].action, Action::SaveNote);
}
