use std::collections::VecDeque;

use tree_view::{TreeEntry, TreeEvent, TreeItem, TreeState};

fn s(v: &str) -> String {
    v.to_string()
}

fn ids(v: &[&str]) -> Vec<String> {
    v.iter().map(|x| x.to_string()).collect()
}

fn assert_entries(entries: &Vec<TreeEntry>, expected: &str) {
    let actual: Vec<String> = entries
        .iter()
        .map(|e| {
            let mut line = String::new();
            line.push_str(&"    ".repeat(e.depth()));
            line.push_str(e.item().label.as_str());
            line
        })
        .collect();
    let actual = actual.join("\n");
    let expected: Vec<&str> = expected.trim().lines().collect();
    let expected = expected.join("\n");
    assert_eq!(actual.trim(), expected.trim());
}

fn sample_items() -> Vec<TreeItem> {
    vec![
        TreeItem::new(ids(&["src"]), s("src"))
            .expanded(true)
            .child(
                TreeItem::new(ids(&["src", "ui"]), s("ui"))
                    .expanded(true)
                    .child(TreeItem::new(ids(&["src", "ui", "button.rs"]), s("button.rs")))
                    .child(TreeItem::new(ids(&["src", "ui", "icon.rs"]), s("icon.rs")))
                    .child(TreeItem::new(ids(&["src", "ui", "mod.rs"]), s("mod.rs"))),
            )
            .child(TreeItem::new(ids(&["src/lib.rs"]), s("lib.rs"))),
        TreeItem::new(ids(&["Cargo.toml"]), s("Cargo.toml")),
        TreeItem::new(ids(&["Cargo.lock"]), s("Cargo.lock")).disabled(true),
        TreeItem::new(ids(&["README.md"]), s("README.md")),
    ]
}

#[test]
fn test_tree_entry() {
    let mut state = TreeState::new().items(sample_items());
    assert_entries(
        state.entries(),
        "src\n    ui\n        button.rs\n        icon.rs\n        mod.rs\n    lib.rs\nCargo.toml\nCargo.lock\nREADME.md",
    );

    let entry = state.entries().get(0).unwrap();
    assert_eq!(entry.depth(), 0);
    assert_eq!(entry.is_root(), true);
    assert_eq!(entry.is_folder(), true);
    assert_eq!(entry.is_expanded(), true);

    let entry = state.entries().get(1).unwrap();
    assert_eq!(entry.depth(), 1);
    assert_eq!(entry.is_root(), false);
    assert_eq!(entry.is_folder(), true);
    assert_eq!(entry.is_expanded(), true);
    assert_eq!(entry.item().label.as_str(), "ui");

    state.toggle_expand(1);
    let entry = state.entries().get(1).unwrap();
    assert_eq!(entry.is_expanded(), false);
    assert_entries(
        state.entries(),
        "src\n    ui\n    lib.rs\nCargo.toml\nCargo.lock\nREADME.md",
    );
}

#[test]
fn test_emits_expanded_event() {
    let expanded_id = ids(&["src"]);
    let items = vec![TreeItem::new(expanded_id.clone(), s("src"))
        .child(TreeItem::new(ids(&["src", "lib.rs"]), s("lib.rs")))];
    let mut state = TreeState::new().items(items);
    let mut events = Vec::new();
    events.extend(state.toggle_expand(0));
    assert_eq!(events, vec![TreeEvent::Expanded(expanded_id)]);
}

#[test]
fn test_emits_collapsed_event() {
    let collapsed_id = ids(&["src"]);
    let items = vec![TreeItem::new(collapsed_id.clone(), s("src"))
        .expanded(true)
        .child(TreeItem::new(ids(&["src", "lib.rs"]), s("lib.rs")))];
    let mut state = TreeState::new().items(items);
    let mut events = Vec::new();
    events.extend(state.toggle_expand(0));
    assert_eq!(events, vec![TreeEvent::Collapsed(collapsed_id)]);
}

#[test]
fn test_set_items_does_not_emit_expansion_events() {
    let items = vec![TreeItem::new(ids(&["src"]), s("src"))
        .expanded(true)
        .child(TreeItem::new(ids(&["src", "lib.rs"]), s("lib.rs")))];
    let mut state = TreeState::new().items(items);

    let new_items = vec![TreeItem::new(ids(&["docs"]), s("docs"))
        .expanded(true)
        .child(TreeItem::new(ids(&["docs", "readme.md"]), s("readme.md")))];
    let events = state.set_items(new_items);
    assert!(
        events.is_empty(),
        "set_items should not emit Expanded/Collapsed events"
    );
    assert_entries(state.entries(), "docs\n    readme.md");
}

#[test]
fn test_event_carries_item_id() {
    let expanded_id = ids(&["src", "ui"]);
    let items = vec![TreeItem::new(ids(&["src"]), s("src")).expanded(true).child(
        TreeItem::new(expanded_id.clone(), s("ui"))
            .child(TreeItem::new(ids(&["src", "ui", "button.rs"]), s("button.rs"))),
    )];
    let mut state = TreeState::new().items(items);

    // Toggle the child at index 1 ("src/ui"), event payload should be the id not the index.
    let mut events = Vec::new();
    events.extend(state.toggle_expand(1));
    assert_eq!(events, vec![TreeEvent::Expanded(expanded_id)]);
}

#[test]
fn test_set_selected_item_emits_expanded_events_for_hidden_ancestors() {
    let target = TreeItem::new(ids(&["1", "10", "100"]), s("button.rs"));
    let src_id = ids(&["1"]);
    let mut ui_id = src_id.clone();
    ui_id.push(s("10"));
    let items = vec![TreeItem::new(src_id.clone(), s("src"))
        .child(TreeItem::new(ui_id.clone(), s("ui")).child(target.clone()))];
    let mut state = TreeState::new().items(items);

    let events = state.set_selected_item(Some(&target));
    assert_eq!(
        events,
        vec![TreeEvent::Expanded(src_id), TreeEvent::Expanded(ui_id)]
    );
}
