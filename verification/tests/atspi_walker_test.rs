use noctalia_global_menu_bridge::atspi::{
    build_menu_tree, RawNode, ROLE_CHECK_MENU_ITEM, ROLE_MENU, ROLE_MENU_BAR, ROLE_MENU_ITEM, ROLE_SEPARATOR,
    STATE_CHECKED, STATE_ENABLED, STATE_SENSITIVE,
};
use noctalia_global_menu_bridge::protocol::{MenuItem, MenuItemType};

// The visibility bit is the literal 1 << 30 (the VISIBLE state), independent of constants.

fn node(role: u32, name: &str, state: (u32, u32), children: Vec<RawNode>) -> RawNode {
    RawNode { role, name: name.into(), state, children, acc: None }
}

#[test]
fn builds_tree_with_types_and_checked_state() {
    let root = node(ROLE_MENU_BAR, "", (0, 0), vec![
        node(ROLE_MENU, "File", (0, 0), vec![
            node(ROLE_MENU_ITEM, "New", (1 << STATE_ENABLED | 1 << STATE_SENSITIVE | 1 << 30, 0), vec![]),
            node(ROLE_MENU_ITEM, "Open…", (1 << STATE_ENABLED | 1 << STATE_SENSITIVE | 1 << 30, 0), vec![]),
        ]),
        node(ROLE_MENU, "View", (0, 0), vec![
            node(ROLE_CHECK_MENU_ITEM, "Show All", (1 << STATE_ENABLED | 1 << STATE_SENSITIVE | 1 << 30 | 1 << STATE_CHECKED, 0), vec![]),
            node(ROLE_SEPARATOR, "", (1 << 30, 0), vec![]),
        ]),
    ]);
    let mut ids = 0u32;
    let tree = build_menu_tree(&root, &mut ids);
    assert_eq!(tree.item_type, MenuItemType::Submenu);
    assert_eq!(tree.children.len(), 2);
    assert_eq!(tree.children[0].label, "File");
    assert_eq!(tree.children[0].item_type, MenuItemType::Submenu);
    assert_eq!(tree.children[0].children[1].label, "Open…");
    assert_eq!(tree.children[0].children[1].path, vec![0, 1]);
    assert_eq!(tree.children[1].children[0].label, "Show All");
    assert_eq!(tree.children[1].children[0].item_type, MenuItemType::Checkbox);
    assert!(tree.children[1].children[0].checked);
    assert_eq!(tree.children[1].children[1].item_type, MenuItemType::Separator);
}

fn walk(t: &MenuItem, seen: &mut Vec<u32>) {
    assert!(!seen.contains(&t.id), "duplicate id {}", t.id);
    seen.push(t.id);
    for c in &t.children {
        walk(c, seen);
    }
}

#[test]
fn ids_are_dfs_ordered_and_unique() {
    let root = node(ROLE_MENU_BAR, "", (0, 0), vec![
        node(ROLE_MENU, "A", (0, 0), vec![
            node(ROLE_MENU_ITEM, "A1", (1 << 30, 0), vec![]),
            node(ROLE_MENU_ITEM, "A2", (1 << 30, 0), vec![]),
        ]),
        node(ROLE_MENU, "B", (0, 0), vec![
            node(ROLE_MENU_ITEM, "B1", (1 << 30, 0), vec![]),
        ]),
    ]);
    let mut ids = 0u32;
    let tree = build_menu_tree(&root, &mut ids);
    let mut seen = Vec::new();
    walk(&tree, &mut seen);
    assert_eq!(ids, 6);
}

#[test]
fn invisible_items_are_filtered() {
    let root = node(ROLE_MENU_BAR, "", (0, 0), vec![
        node(ROLE_MENU, "A", (0, 0), vec![
            node(ROLE_MENU_ITEM, "Hidden", (1 << STATE_ENABLED, 0), vec![]),
            node(ROLE_MENU_ITEM, "Shown", (1 << 30, 0), vec![]),
        ]),
    ]);
    let mut ids = 0u32;
    let tree = build_menu_tree(&root, &mut ids);
    assert_eq!(tree.children[0].children.len(), 1);
    assert_eq!(tree.children[0].children[0].label, "Shown");
}

#[test]
fn qt_wrapper_menu_is_flattened() {
    let root = node(ROLE_MENU_BAR, "", (0, 0), vec![
        node(ROLE_MENU, "File", (0, 0), vec![
            node(ROLE_MENU_ITEM, "Open", (1 << 30, 0), vec![
                node(ROLE_MENU, "", (0, 0), vec![
                    node(ROLE_MENU_ITEM, "Open Recent", (1 << 30, 0), vec![]),
                ]),
            ]),
        ]),
    ]);
    let mut ids = 0u32;
    let tree = build_menu_tree(&root, &mut ids);
    let open = &tree.children[0].children[0];
    assert_eq!(open.item_type, MenuItemType::Submenu);
    assert_eq!(open.children.len(), 1);
    assert_eq!(open.children[0].label, "Open Recent");
    assert_eq!(open.children[0].path, vec![0, 0, 0]);
}

/// Every item of the tree, with its id and path, in depth-first order.
fn flatten(t: &MenuItem, out: &mut Vec<(u32, Vec<u32>, String)>) {
    out.push((t.id, t.path.clone(), t.label.clone()));
    for c in &t.children {
        flatten(c, out);
    }
}

#[test]
fn named_menu_bar_root_gets_an_empty_label() {
    let root = node(ROLE_MENU_BAR, "Application", (0, 0), vec![node(ROLE_MENU, "File", (0, 0), vec![])]);
    let mut ids = 0u32;
    let tree = build_menu_tree(&root, &mut ids);
    assert_eq!(tree.label, "");
    assert_eq!(tree.children[0].label, "File");
}

#[test]
fn open_entries_under_a_parent_path_match_the_main_tree() {
    let vis = (1u32 << 30, 0u32);
    let raws = || {
        vec![
            node(ROLE_MENU_ITEM, "Cut", vis, vec![]),
            node(ROLE_MENU_ITEM, "Hidden", (0, 0), vec![]),
            node(ROLE_MENU, "More", (0, 0), vec![node(ROLE_MENU_ITEM, "Paste", vis, vec![])]),
        ]
    };
    let bar = node(ROLE_MENU_BAR, "", (0, 0), raws());
    let mut ids = 0u32;
    let main = build_menu_tree(&bar, &mut ids);
    let opened = noctalia_global_menu_bridge::proxy::build_children(&raws(), &[3, 1]);
    let mut a = Vec::new();
    for c in &main.children {
        flatten(c, &mut a);
    }
    let mut b = Vec::new();
    for c in &opened {
        flatten(c, &mut b);
    }
    let shifted: Vec<(u32, Vec<u32>, String)> = a
        .into_iter()
        .map(|(id, path, label)| (id - 1, [vec![3, 1], path].concat(), label))
        .collect();
    assert_eq!(b, shifted);
    assert_eq!(b[2], (3, vec![3, 1, 2, 0], "Paste".to_string()));
}
