use noctalia_global_menu_bridge::atspi::{RawNode, ROLE_MENU, ROLE_MENU_BAR, ROLE_MENU_ITEM};
use noctalia_global_menu_bridge::protocol::{BridgeEvent, MenuItem, MenuItemType};
use noctalia_global_menu_bridge::proxy::{build_children, build_children_response, make_menu_event, prune_to_top_level, top_level_menu, FocusInfo, Shared};

fn item(id: u32, label: &str, item_type: MenuItemType, children: Vec<MenuItem>) -> MenuItem {
    MenuItem { id, label: label.into(), mnemonic: None, item_type, enabled: true, visible: true, checked: false, icon: None, children, path: vec![] }
}

fn raw_node(role: u32, name: &str, state: (u32, u32), children: Vec<RawNode>) -> RawNode {
    RawNode { role, name: name.into(), state, children, acc: None }
}

#[test]
fn menu_event_carries_app_and_tree() {
    let focus = FocusInfo { win_id: 5, app_id: "gimp".into(), title: "GIMP".into(), pid: 42 };
    let menu = Some(item(1, "", MenuItemType::Submenu, vec![item(2, "File", MenuItemType::Submenu, vec![item(3, "New", MenuItemType::Item, vec![])])]));
    let ev = make_menu_event(&focus, menu, "atspi");
    match ev {
        BridgeEvent::Menu { app, menu, source } => {
            assert_eq!(app.pid, 42);
            assert_eq!(app.app_id, "gimp");
            assert_eq!(source, "atspi");
            assert_eq!(menu.unwrap().children[0].label, "File");
        }
        other => panic!("unexpected: {other:?}"),
    }
}

#[test]
fn no_menu_yields_null_menu_with_none_source() {
    let focus = FocusInfo { win_id: 5, app_id: "chrome".into(), title: "Chrome".into(), pid: 7 };
    let ev = make_menu_event(&focus, None, "none");
    match ev {
        BridgeEvent::Menu { menu, source, .. } => {
            assert!(menu.is_none());
            assert_eq!(source, "none");
        }
        other => panic!("unexpected: {other:?}"),
    }
}

#[test]
fn children_response_uses_same_id_space() {
    let children = vec![item(3, "Zoom", MenuItemType::Item, vec![])];
    let resp = build_children_response(true, children);
    assert_eq!(resp.ok, true);
    assert_eq!(resp.children[0].id, 3);
}

#[test]
fn open_children_paths_are_parent_plus_raw_index() {
    let raws = vec![
        raw_node(ROLE_MENU_ITEM, "New", (1 << 30, 0), vec![]),
        raw_node(ROLE_MENU_ITEM, "Open…", (1 << 30, 0), vec![]),
        raw_node(ROLE_MENU, "Recent", (0, 0), vec![
            raw_node(ROLE_MENU_ITEM, "Recent A", (1 << 30, 0), vec![]),
        ]),
    ];
    let items = build_children(&raws, &[0]);
    assert_eq!(items.len(), 3);
    assert_eq!(items[0].path, vec![0, 0]);
    assert_eq!(items[1].path, vec![0, 1]);
    assert_eq!(items[2].path, vec![0, 2]);
    assert_eq!(items[2].children[0].path, vec![0, 2, 0]);
}

#[test]
fn open_children_filter_invisible_like_main_tree() {
    let raws = vec![
        raw_node(ROLE_MENU_ITEM, "Hidden", (0, 0), vec![]),
        raw_node(ROLE_MENU_ITEM, "Shown", (1 << 30, 0), vec![]),
    ];
    let items = build_children(&raws, &[0]);
    assert_eq!(items.len(), 1);
    assert_eq!(items[0].label, "Shown");
    assert_eq!(items[0].path, vec![0, 1]);
}

#[test]
fn prune_to_top_level_keeps_types_but_drops_nested_children() {
    let tree = item(1, "", MenuItemType::Submenu, vec![
        item(2, "File", MenuItemType::Submenu, vec![
            item(3, "New", MenuItemType::Item, vec![]),
        ]),
        item(4, "View", MenuItemType::Submenu, vec![
            item(5, "Zoom", MenuItemType::Item, vec![]),
        ]),
    ]);
    let pruned = prune_to_top_level(tree);
    assert_eq!(pruned.children.len(), 2);
    assert_eq!(pruned.children[0].item_type, MenuItemType::Submenu);
    assert_eq!(pruned.children[0].label, "File");
    assert!(pruned.children[0].children.is_empty());
    assert!(pruned.children[1].children.is_empty());
}

#[test]
fn focused_menu_is_converted_then_cut_to_top_level() {
    let vis = (1u32 << 30, 0u32);
    let bar = raw_node(
        ROLE_MENU_BAR,
        "bar",
        (0, 0),
        vec![
            raw_node(ROLE_MENU, "File", (0, 0), vec![raw_node(ROLE_MENU_ITEM, "New", vis, vec![]), raw_node(ROLE_MENU_ITEM, "Open", vis, vec![])]),
            raw_node(ROLE_MENU_ITEM, "Hidden", (0, 0), vec![]),
            raw_node(ROLE_MENU, "Edit", (0, 0), vec![raw_node(ROLE_MENU_ITEM, "Undo", vis, vec![])]),
        ],
    );
    let m = top_level_menu(&bar);
    assert_eq!(m.id, 1);
    assert_eq!(m.label, "");
    assert_eq!(m.item_type, MenuItemType::Submenu);
    assert_eq!(m.children.len(), 2);
    // ids are those of the full tree: File=2, New=3, Open=4, Edit=5.
    assert_eq!(m.children[0].id, 2);
    assert_eq!(m.children[0].path, vec![0]);
    assert_eq!(m.children[1].id, 5);
    assert_eq!(m.children[1].path, vec![2]);
    assert_eq!(m.children[1].item_type, MenuItemType::Submenu);
    assert!(m.children.iter().all(|c| c.children.is_empty()));
}

#[test]
fn focus_equality_compares_every_field() {
    let a = FocusInfo { win_id: 1, app_id: "a".into(), title: "t".into(), pid: 2 };
    assert!(a == a.duplicate());
    assert!(a != FocusInfo { win_id: 1, app_id: "a".into(), title: "u".into(), pid: 2 });
    assert!(a != FocusInfo { win_id: 9, app_id: "a".into(), title: "t".into(), pid: 2 });
    let s = Shared::default();
    assert!(s.focus.is_none() && s.session.is_none());
}
