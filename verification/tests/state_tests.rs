use std::collections::VecDeque;

use tree_view::{TreeEvent, TreeItem, TreeState};

fn ids(v: &[&str]) -> Vec<String> {
    v.iter().map(|x| x.to_string()).collect()
}

fn labels(state: &TreeState) -> Vec<String> {
    state
        .entries()
        .iter()
        .map(|e| format!("{}{}", "  ".repeat(e.depth()), e.item().label))
        .collect()
}

/// src (collapsed) > ui (collapsed) > button.rs ; src > lib.rs ; README.md
fn collapsed_tree() -> Vec<TreeItem> {
    vec![
        TreeItem::new(ids(&["src"]), "src".to_string())
            .child(
                TreeItem::new(ids(&["src", "ui"]), "ui".to_string())
                    .child(TreeItem::new(ids(&["src", "ui", "button.rs"]), "button.rs".to_string())),
            )
            .child(TreeItem::new(ids(&["src", "lib.rs"]), "lib.rs".to_string())),
        TreeItem::new(ids(&["README.md"]), "README.md".to_string()),
    ]
}

fn expanded_tree() -> Vec<TreeItem> {
    vec![
        TreeItem::new(ids(&["src"]), "src".to_string())
            .expanded(true)
            .child(
                TreeItem::new(ids(&["src", "ui"]), "ui".to_string())
                    .expanded(true)
                    .child(TreeItem::new(ids(&["src", "ui", "button.rs"]), "button.rs".to_string())),
            )
            .child(TreeItem::new(ids(&["src", "lib.rs"]), "lib.rs".to_string())),
        TreeItem::new(ids(&["README.md"]), "README.md".to_string()),
    ]
}

#[test]
fn collapsed_items_hide_their_children() {
    let state = TreeState::new().items(collapsed_tree());
    assert_eq!(labels(&state), vec!["src", "README.md"]);
    let state = TreeState::new().items(expanded_tree());
    assert_eq!(labels(&state), vec!["src", "  ui", "    button.rs", "  lib.rs", "README.md"]);
}

#[test]
fn root_rows_are_the_roots() {
    let state = TreeState::new().items(expanded_tree());
    let roots: Vec<String> = state
        .entries()
        .iter()
        .filter(|e| e.is_root())
        .map(|e| e.item().label.clone())
        .collect();
    assert_eq!(roots, vec!["src", "README.md"]);
    assert!(state.entries().iter().all(|e| e.is_root() == (e.depth() == 0)));
}

#[test]
fn toggle_twice_restores_rows() {
    let mut state = TreeState::new().items(expanded_tree());
    let before = labels(&state);
    assert_eq!(state.toggle_expand(1), Some(TreeEvent::Collapsed(ids(&["src", "ui"]))));
    assert_eq!(labels(&state), vec!["src", "  ui", "  lib.rs", "README.md"]);
    assert_eq!(state.toggle_expand(1), Some(TreeEvent::Expanded(ids(&["src", "ui"]))));
    assert_eq!(labels(&state), before);
    assert!(state.entries()[1].is_expanded());
}

#[test]
fn collapse_then_expand_keeps_inner_state() {
    let mut state = TreeState::new().items(expanded_tree());
    // collapsing src hides ui and its child; expanding src again shows ui still expanded
    assert_eq!(state.toggle_expand(0), Some(TreeEvent::Collapsed(ids(&["src"]))));
    assert_eq!(labels(&state), vec!["src", "README.md"]);
    assert_eq!(state.toggle_expand(0), Some(TreeEvent::Expanded(ids(&["src"]))));
    assert_eq!(labels(&state), vec!["src", "  ui", "    button.rs", "  lib.rs", "README.md"]);
}

#[test]
fn toggle_leaf_or_out_of_range_does_nothing() {
    let mut state = TreeState::new().items(expanded_tree());
    state.on_entry_right_click(0);
    assert_eq!(state.toggle_expand(2), None);
    assert_eq!(state.toggle_expand(99), None);
    assert_eq!(labels(&state).len(), 5);
    assert_eq!(state.right_clicked_entry().map(|e| e.item().label.clone()), Some("src".to_string()));
    assert_eq!(state.right_clicked_index(), Some(0));
    // a real toggle clears the right-clicked row
    assert!(state.toggle_expand(0).is_some());
    assert!(state.right_clicked_entry().is_none());
}

#[test]
fn navigation_up_and_down_wrap() {
    let mut state = TreeState::new().items(collapsed_tree());
    // two rows: src, README.md
    assert_eq!(state.on_action_down(), 1); // no selection counts as row 0
    assert_eq!(state.selected_index(), Some(1));
    assert_eq!(state.on_action_down(), 0); // wraps from the last row
    assert_eq!(state.on_action_up(), 1); // wraps from the first row
    assert_eq!(state.on_action_up(), 0);
    state.set_selected_index(None);
    assert_eq!(state.on_action_up(), 1);
}

#[test]
fn navigation_on_empty_rows() {
    let mut state = TreeState::new();
    assert_eq!(state.on_action_up(), 0);
    assert_eq!(state.on_action_down(), 0);
    assert_eq!(state.selected_index(), Some(0));
    assert!(state.selected_entry().is_none());
}

#[test]
fn down_then_up_is_identity() {
    let mut state = TreeState::new().items(expanded_tree());
    for s in 0..5 {
        state.set_selected_index(Some(s));
        state.on_action_down();
        assert_eq!(state.on_action_up(), s);
        state.on_action_up();
        assert_eq!(state.on_action_down(), s);
    }
}

#[test]
fn left_right_confirm_on_selection() {
    let mut state = TreeState::new().items(collapsed_tree());
    assert_eq!(state.on_action_confirm(), None); // nothing selected
    state.set_selected_index(Some(0));
    assert_eq!(state.on_action_left(), None); // already collapsed
    assert_eq!(state.on_action_right(), Some(TreeEvent::Expanded(ids(&["src"]))));
    assert_eq!(state.on_action_right(), None); // already expanded
    assert_eq!(state.on_action_left(), Some(TreeEvent::Collapsed(ids(&["src"]))));
    assert_eq!(state.on_action_confirm(), Some(TreeEvent::Expanded(ids(&["src"]))));
    assert_eq!(state.on_action_confirm(), Some(TreeEvent::Collapsed(ids(&["src"]))));
    state.set_selected_index(Some(1)); // README.md, a leaf
    assert_eq!(state.on_action_confirm(), None);
    state.set_selected_index(Some(7)); // no such row
    assert_eq!(state.on_action_confirm(), None);
    assert_eq!(state.selected_index(), Some(7));
}

#[test]
fn click_selects_and_toggles() {
    let mut state = TreeState::new().items(collapsed_tree());
    assert_eq!(state.on_entry_click(0), Some(TreeEvent::Expanded(ids(&["src"]))));
    assert_eq!(state.selected_index(), Some(0));
    assert_eq!(labels(&state), vec!["src", "  ui", "  lib.rs", "README.md"]);
    assert_eq!(state.on_entry_click(2), None); // lib.rs is a leaf
    assert_eq!(state.selected_item().map(|i| i.label.clone()), Some("lib.rs".to_string()));
}

#[test]
fn selected_entry_and_item() {
    let mut state = TreeState::new().items(expanded_tree());
    assert!(state.selected_entry().is_none());
    state.set_selected_index(Some(2));
    assert_eq!(state.selected_entry().unwrap().depth(), 2);
    assert_eq!(state.selected_item().unwrap().label, "button.rs");
    state.set_selected_index(Some(5));
    assert!(state.selected_entry().is_none());
    assert!(state.selected_item().is_none());
}

#[test]
fn index_of_matches_last_segment() {
    let state = TreeState::new().items(expanded_tree());
    assert_eq!(state.index_of(&"ui".to_string()), Some(1));
    assert_eq!(state.index_of(&"lib.rs".to_string()), Some(3));
    assert_eq!(state.index_of(&"src".to_string()), Some(0));
    assert_eq!(state.index_of(&"nope".to_string()), None);
}

#[test]
fn set_selected_item_visible_selects_without_events() {
    let mut state = TreeState::new().items(expanded_tree());
    let target = TreeItem::new(ids(&["src", "lib.rs"]), "lib.rs".to_string());
    assert_eq!(state.set_selected_item(Some(&target)), vec![]);
    assert_eq!(state.selected_index(), Some(3));
    assert_eq!(state.set_selected_item(None), vec![]);
    assert_eq!(state.selected_index(), None);
}

#[test]
fn set_selected_item_only_expands_collapsed_ancestors() {
    let items = vec![TreeItem::new(ids(&["src"]), "src".to_string()).expanded(true).child(
        TreeItem::new(ids(&["src", "ui"]), "ui".to_string())
            .child(TreeItem::new(ids(&["src", "ui", "button.rs"]), "button.rs".to_string())),
    )];
    let mut state = TreeState::new().items(items);
    let target = TreeItem::new(ids(&["src", "ui", "button.rs"]), "button.rs".to_string());
    assert_eq!(
        state.set_selected_item(Some(&target)),
        vec![TreeEvent::Expanded(ids(&["src", "ui"]))]
    );
    assert_eq!(state.selected_index(), Some(2));
}

#[test]
fn set_selected_item_unknown_clears_selection() {
    let mut state = TreeState::new().items(expanded_tree());
    state.set_selected_index(Some(1));
    let target = TreeItem::new(ids(&["nowhere", "x"]), "x".to_string());
    assert_eq!(state.set_selected_item(Some(&target)), vec![]);
    assert_eq!(state.selected_index(), None);
    assert_eq!(labels(&state).len(), 5);
}

#[test]
fn reveal_item_expands_and_scrolls_to_the_node() {
    let mut state = TreeState::new().items(collapsed_tree());
    state.set_selected_index(Some(1));
    let id: VecDeque<String> = ids(&["src", "ui", "button.rs"]).into_iter().collect();
    let (events, scroll) = state.reveal_item(&id);
    assert_eq!(
        events,
        vec![TreeEvent::Expanded(ids(&["src"])), TreeEvent::Expanded(ids(&["src", "ui"]))]
    );
    // the row of button.rs itself
    assert_eq!(scroll, Some(2));
    assert_eq!(state.entries()[2].item().label, "button.rs");
    assert_eq!(state.selected_index(), Some(1));
    assert_eq!(labels(&state), vec!["src", "  ui", "    button.rs", "  lib.rs", "README.md"]);
    // revealing again changes nothing and gives the same row
    let (events, scroll) = state.reveal_item(&id);
    assert!(events.is_empty());
    assert_eq!(scroll, Some(2));
}

#[test]
fn reveal_item_not_found_is_noop() {
    let mut state = TreeState::new().items(collapsed_tree());
    // README.md is a root but has no child "x": the id names no node
    let id: VecDeque<String> = ids(&["README.md", "x"]).into_iter().collect();
    let (events, scroll) = state.reveal_item(&id);
    assert!(events.is_empty());
    assert_eq!(scroll, None);
    assert_eq!(labels(&state), vec!["src", "README.md"]);
}

#[test]
fn expand_ancestors_walk_starts_at_a_root() {
    // a (expanded) > a/b > a/b/x ; b > b/c
    let items = vec![
        TreeItem::new(ids(&["a"]), "a".to_string()).expanded(true).child(
            TreeItem::new(ids(&["a", "b"]), "ab".to_string())
                .child(TreeItem::new(ids(&["a", "b", "x"]), "x".to_string())),
        ),
        TreeItem::new(ids(&["b"]), "b".to_string())
            .child(TreeItem::new(ids(&["b", "c"]), "c".to_string())),
    ];
    let mut state = TreeState::new().items(items);
    let events = state.expand_ancestors(&ids(&["b", "c"]));
    assert_eq!(events, vec![TreeEvent::Expanded(ids(&["b"]))]);
    let rows: Vec<(String, usize)> =
        state.entries().iter().map(|e| (e.item().label.clone(), e.depth())).collect();
    assert_eq!(
        rows,
        vec![
            ("a".to_string(), 0),
            ("ab".to_string(), 1),
            ("b".to_string(), 0),
            ("c".to_string(), 1)
        ]
    );
}

#[test]
fn expand_ancestors_twice_is_once() {
    let mut state = TreeState::new().items(collapsed_tree());
    let first = state.expand_ancestors(&ids(&["src", "ui", "button.rs"]));
    assert_eq!(first.len(), 2);
    let rows = labels(&state);
    let second = state.expand_ancestors(&ids(&["src", "ui", "button.rs"]));
    assert!(second.is_empty());
    assert_eq!(labels(&state), rows);
}

#[test]
fn rebuild_entries_keeps_rows() {
    let mut state = TreeState::new().items(expanded_tree());
    let rows = labels(&state);
    state.rebuild_entries();
    assert_eq!(labels(&state), rows);
    state.rebuild_entries();
    assert_eq!(labels(&state), rows);
}

#[test]
fn reveal_item_empty_or_unknown() {
    let mut state = TreeState::new().items(collapsed_tree());
    let (events, scroll) = state.reveal_item(&VecDeque::new());
    assert!(events.is_empty());
    assert_eq!(scroll, None);
    let id: VecDeque<String> = ids(&["docs", "a.md"]).into_iter().collect();
    let (events, scroll) = state.reveal_item(&id);
    assert!(events.is_empty());
    assert_eq!(scroll, None);
    assert_eq!(labels(&state), vec!["src", "README.md"]);
}

#[test]
fn expand_ancestors_of_root_target_does_nothing() {
    let mut state = TreeState::new().items(collapsed_tree());
    // "README.md" has a row but no child path below it: nothing to expand
    assert!(state.expand_ancestors(&ids(&["README.md"])).is_empty());
    assert_eq!(labels(&state), vec!["src", "README.md"]);
}

#[test]
fn set_items_clears_selection_items_keeps_it() {
    let mut state = TreeState::new().items(collapsed_tree());
    state.set_selected_index(Some(1));
    state.on_entry_right_click(0);
    let state2 = state.items(expanded_tree());
    assert_eq!(state2.selected_index(), Some(1));
    assert!(state2.right_clicked_entry().is_some());
    let mut state3 = state2;
    assert!(state3.set_items(collapsed_tree()).is_empty());
    assert_eq!(state3.selected_index(), None);
    assert!(state3.right_clicked_entry().is_none());
    assert_eq!(labels(&state3), vec!["src", "README.md"]);
}

#[test]
fn item_builders() {
    let item = TreeItem::new(ids(&["a"]), "a".to_string());
    assert!(!item.is_folder());
    assert!(!item.is_expanded());
    assert!(!item.is_disabled());
    let item = item
        .children(vec![
            TreeItem::new(ids(&["a", "b"]), "b".to_string()),
            TreeItem::new(ids(&["a", "c"]), "c".to_string()),
        ])
        .child(TreeItem::new(ids(&["a", "d"]), "d".to_string()))
        .expanded(true)
        .disabled(true);
    assert!(item.is_folder());
    assert!(item.is_expanded());
    assert!(item.is_disabled());
    let names: Vec<&str> = item.children.iter().map(|c| c.label.as_str()).collect();
    assert_eq!(names, vec!["b", "c", "d"]);
    let copy = item.clone();
    assert_eq!(copy.id, item.id);
    assert_eq!(copy.children.len(), 3);
    assert!(copy.is_expanded() && copy.is_disabled());
    let state = TreeState::new().items(vec![item]);
    assert!(state.entries()[0].is_disabled());
    assert_eq!(state.entries().len(), 4);
}

#[test]
fn empty_ids_match_empty_ids() {
    // an empty id has no last segment; a target with no segment names nothing below
    let items = vec![TreeItem::new(vec![], "anon".to_string())
        .child(TreeItem::new(vec![], "inner".to_string()))];
    let mut state = TreeState::new().items(items);
    assert!(state.expand_ancestors(&vec![]).is_empty());
    assert_eq!(labels(&state), vec!["anon"]);
}

#[test]
fn entry_clone_keeps_item_and_depth() {
    let state = TreeState::new().items(expanded_tree());
    let entry = state.entries()[2].clone();
    assert_eq!(entry.depth(), 2);
    assert_eq!(entry.item().label, "button.rs");
    assert_eq!(entry.item().id, ids(&["src", "ui", "button.rs"]));
    let ev = TreeEvent::Expanded(ids(&["src"]));
    assert_eq!(ev.clone(), ev);
}

#[test]
fn reveal_item_of_a_root_scrolls_to_it() {
    let mut state = TreeState::new().items(collapsed_tree());
    let id: VecDeque<String> = ids(&["README.md"]).into_iter().collect();
    let (events, scroll) = state.reveal_item(&id);
    assert!(events.is_empty());
    assert_eq!(scroll, Some(1));
    assert_eq!(labels(&state), vec!["src", "README.md"]);
    let id: VecDeque<String> = ids(&["src"]).into_iter().collect();
    let (events, scroll) = state.reveal_item(&id);
    assert!(events.is_empty());
    assert_eq!(scroll, Some(0));
}

#[test]
fn disabled_rows_ignore_clicks() {
    let items = vec![
        TreeItem::new(ids(&["a"]), "a".to_string())
            .disabled(true)
            .child(TreeItem::new(ids(&["a", "b"]), "b".to_string())),
        TreeItem::new(ids(&["c"]), "c".to_string()),
    ];
    let mut state = TreeState::new().items(items);
    state.set_selected_index(Some(1));
    assert_eq!(state.on_entry_click(0), None);
    assert_eq!(state.selected_index(), Some(1));
    assert_eq!(labels(&state), vec!["a", "c"]);
    state.on_entry_right_click(0);
    assert_eq!(state.right_clicked_index(), None);
    state.on_entry_right_click(1);
    assert_eq!(state.right_clicked_index(), Some(1));
    // the keyboard still toggles a disabled folder, as the original does
    state.set_selected_index(Some(0));
    assert_eq!(state.on_action_confirm(), Some(TreeEvent::Expanded(ids(&["a"]))));
}
