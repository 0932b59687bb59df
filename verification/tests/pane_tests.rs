use zelkova::gui::pane::{
    close_leaf_in_node, empty_leaf, split_in_tree, toggle_view_mode, PaneId, PaneNode,
    SplitDirection, ViewMode,
};
use zelkova::gui::tab::{CloseOutcome, OpenOutcome, TabManager};

fn ids(n: &PaneNode) -> Vec<usize> {
    n.collect_leaves().iter().map(|p| p.0).collect()
}

#[test]
fn tabs_start_with_one_empty_pane() {
    let tm = TabManager::new();
    assert_eq!(tm.tab_count(), 1);
    assert_eq!(tm.active_tab(), 0);
    assert_eq!(tm.focused(), PaneId(0));
    assert_eq!(tm.tab().pane_count(), 1);
    assert_eq!(tm.tab().title(), "Empty");
}

#[test]
fn split_puts_new_pane_after_focused() {
    let mut tm = TabManager::new();
    tm.split_focused(SplitDirection::Horizontal);
    assert_eq!(ids(tm.tab().root()), vec![0, 1]);
    assert_eq!(tm.focused(), PaneId(1));
    tm.split_focused(SplitDirection::Vertical);
    assert_eq!(ids(tm.tab().root()), vec![0, 1, 3]);
    assert_eq!(tm.focused(), PaneId(3));
    assert_eq!(tm.tab().pane_count(), 3);
}

#[test]
fn pane_focus_cycles() {
    let mut tm = TabManager::new();
    assert!(!tm.next_pane());
    tm.split_focused(SplitDirection::Horizontal);
    tm.split_focused(SplitDirection::Vertical);
    assert!(tm.next_pane());
    assert_eq!(tm.focused(), PaneId(0));
    assert!(tm.prev_pane());
    assert_eq!(tm.focused(), PaneId(3));
    assert!(tm.prev_pane());
    assert_eq!(tm.focused(), PaneId(1));
}

#[test]
fn close_pane_then_tab_then_clear() {
    let mut tm = TabManager::new();
    tm.split_focused(SplitDirection::Horizontal);
    assert_eq!(tm.close_pane(), CloseOutcome::ClosedPane);
    assert_eq!(ids(tm.tab().root()), vec![0]);
    assert_eq!(tm.focused(), PaneId(0));
    tm.new_tab();
    assert_eq!(tm.tab_count(), 2);
    assert_eq!(tm.active_tab(), 1);
    assert_eq!(tm.focused(), PaneId(3));
    assert_eq!(tm.close_pane(), CloseOutcome::ClosedTab);
    assert_eq!(tm.tab_count(), 1);
    assert_eq!(tm.active_tab(), 0);
    tm.open_in_focused("/n/a.md".to_string(), "a".to_string());
    assert_eq!(tm.close_pane(), CloseOutcome::ClearedLastPane);
    assert!(tm.focused_leaf().unwrap().file_path.is_none());
    assert_eq!(tm.focused(), PaneId(0));
}

#[test]
fn open_switches_to_tab_showing_file() {
    let mut tm = TabManager::new();
    assert_eq!(
        tm.open_in_focused("/n/a.md".to_string(), "a".to_string()),
        OpenOutcome::Opened
    );
    assert_eq!(tm.tab().title(), "a");
    tm.new_tab();
    assert_eq!(tm.active_tab(), 1);
    assert_eq!(tm.find_file_in_all_tabs("/n/a.md"), Some((0, PaneId(0))));
    assert_eq!(
        tm.open_in_focused("/n/a.md".to_string(), "a".to_string()),
        OpenOutcome::Switched
    );
    assert_eq!(tm.active_tab(), 0);
    assert_eq!(tm.find_file_in_all_tabs("/n/b.md"), None);
}

#[test]
fn tab_cycling() {
    let mut tm = TabManager::new();
    assert!(!tm.next_tab());
    tm.new_tab();
    tm.new_tab();
    assert_eq!(tm.active_tab(), 2);
    assert!(tm.next_tab());
    assert_eq!(tm.active_tab(), 0);
    assert!(tm.prev_tab());
    assert_eq!(tm.active_tab(), 2);
    assert!(tm.prev_tab());
    assert_eq!(tm.active_tab(), 1);
}

#[test]
fn toggle_view_cycles_modes() {
    let mut tm = TabManager::new();
    tm.toggle_view();
    assert_eq!(tm.focused_leaf().unwrap().view_mode, ViewMode::SplitHorizontal);
    tm.toggle_view();
    tm.toggle_view();
    assert_eq!(tm.focused_leaf().unwrap().view_mode, ViewMode::Preview);
    tm.toggle_view();
    assert_eq!(tm.focused_leaf().unwrap().view_mode, ViewMode::Editor);
    assert_eq!(ViewMode::Preview.next(), ViewMode::Editor);
}

#[test]
fn tree_split_close_find() {
    let mut n = PaneNode::Leaf(empty_leaf(PaneId(0)));
    split_in_tree(&mut n, PaneId(0), SplitDirection::Horizontal, empty_leaf(PaneId(1)), PaneId(2));
    split_in_tree(&mut n, PaneId(1), SplitDirection::Vertical, empty_leaf(PaneId(3)), PaneId(4));
    assert_eq!(ids(&n), vec![0, 1, 3]);
    assert_eq!(n.first_leaf_id(), PaneId(0));
    assert!(n.find_leaf(PaneId(3)).is_some());
    assert!(n.find_leaf(PaneId(2)).is_none());
    assert!(!n.is_single_leaf());
    toggle_view_mode(&mut n, PaneId(3));
    assert_eq!(n.find_leaf(PaneId(3)).unwrap().view_mode, ViewMode::SplitHorizontal);
    assert_eq!(n.find_file("x"), None);
    // Closing a pane not in the tree changes nothing.
    assert!(!close_leaf_in_node(&mut n, PaneId(9)));
    assert_eq!(ids(&n), vec![0, 1, 3]);
    assert!(close_leaf_in_node(&mut n, PaneId(1)));
    assert_eq!(ids(&n), vec![0, 3]);
    assert!(close_leaf_in_node(&mut n, PaneId(0)));
    assert_eq!(ids(&n), vec![3]);
    assert!(n.is_single_leaf());
    assert!(!close_leaf_in_node(&mut n, PaneId(3)));
}

#[test]
fn retitle_pane_updates_tab_title() {
    let mut tm = TabManager::new();
    tm.open_in_focused("/v/a.md".to_string(), "a".to_string());
    let id = tm.focused();
    assert!(tm.retitle_pane(id, "Renamed".to_string()));
    assert_eq!(tm.tab().title(), "Renamed");
    assert_eq!(tm.tab().find_file("/v/a.md"), Some(id));
    assert!(!tm.retitle_pane(PaneId(999), "x".to_string()));
    assert_eq!(tm.tab().title(), "Renamed");
}

#[test]
fn tab_bar_labels_and_clicks() {
    let mut tm = TabManager::new();
    tm.open_in_focused("/v/a.md".to_string(), "Alpha".to_string());
    tm.split_focused(SplitDirection::Horizontal);
    tm.new_tab();
    let labels = tm.tab_labels(true);
    // After the split the new, empty pane has the focus.
    assert_eq!(labels, vec![("Empty (2)".to_string(), false), ("Empty".to_string(), true)]);
    let labels = tm.tab_labels(false);
    assert_eq!(labels[0].0, "Empty");
    tm.select_tab(0);
    assert_eq!(tm.active_tab(), 0);
    let first = tm.tab().root().first_leaf_id();
    tm.focus_pane(first);
    assert_eq!(tm.focused(), first);
    assert_eq!(tm.tab().title(), "Alpha");
    assert_eq!(tm.tab_labels(true)[0], ("Alpha (2)".to_string(), true));
}
