//! dbusmenu pipeline: raw layout tree → property lookup → unified menu tree
//! (checkbox / separator / paths / hidden items) → click-side path lookup.

use noctalia_global_menu_bridge::dbusmenu::{
    children_from_raw, locate_raw_by_path, raw_to_menu_item, strip_mnemonic, PropValue, RawMenuItem,
};
use noctalia_global_menu_bridge::protocol::MenuItemType;

fn s(v: &str) -> PropValue {
    PropValue::Str(v.to_string())
}

fn layout(id: i32, pairs: Vec<(&str, PropValue)>, children: Vec<RawMenuItem>) -> RawMenuItem {
    RawMenuItem { id, props: pairs.into_iter().map(|(k, v)| (k.to_string(), v)).collect(), children }
}

fn menu_layout(id: i32, label: &str) -> RawMenuItem {
    layout(id, vec![("label", s(label))], vec![])
}

/// The decoded fixture tree.
fn wire_fixture() -> RawMenuItem {
    layout(
        0,
        vec![],
        vec![
            layout(
                1,
                vec![("label", s("_File")), ("type", s("submenu"))],
                vec![
                    layout(2, vec![("label", s("_New"))], vec![]),
                    layout(
                        3,
                        vec![("label", s("Word Wrap")), ("toggle-type", s("checkmark")), ("toggle-state", PropValue::I32(1))],
                        vec![],
                    ),
                    layout(4, vec![("type", s("separator"))], vec![]),
                    layout(5, vec![("label", s("Hidden")), ("visible", PropValue::Bool(false))], vec![]),
                    layout(
                        6,
                        vec![("label", s("Zoom")), ("toggle-type", s("radio")), ("toggle-state", PropValue::I32(0))],
                        vec![],
                    ),
                ],
            ),
            layout(7, vec![("label", s("_Edit"))], vec![]),
        ],
    )
}

#[test]
fn wire_fixture_decodes_full_tree() {
    let raw = wire_fixture();
    assert_eq!(raw.id, 0);
    assert_eq!(raw.children.len(), 2);
    let file = &raw.children[0];
    assert_eq!(file.prop_str("label", ""), "_File");
    assert_eq!(file.prop_str("type", ""), "submenu");
    assert_eq!(file.children.len(), 5);
    assert_eq!(file.children[1].prop_str("toggle-type", ""), "checkmark");
    assert_eq!(file.children[1].prop_i32("toggle-state", -99), 1);
    assert_eq!(file.children[1].prop_bool("visible", true), true);
    assert_eq!(file.children[3].prop_bool("visible", true), false);
    assert_eq!(file.children[4].prop_str("toggle-type", ""), "radio");
}

#[test]
fn converts_to_menu_item_tree_with_types_and_paths() {
    let raw = wire_fixture();
    let mut ids = 0u32;
    let tree = raw_to_menu_item(&raw, &[], &mut ids);

    assert_eq!(tree.id, 1);
    assert_eq!(tree.item_type, MenuItemType::Submenu);
    assert_eq!(tree.label, "");
    assert_eq!(tree.path, Vec::<u32>::new());

    assert_eq!(tree.children.len(), 2);
    let file = &tree.children[0];
    assert_eq!(file.label, "File");
    assert_eq!(file.mnemonic.as_deref(), Some("F"));
    assert_eq!(file.item_type, MenuItemType::Submenu);
    assert_eq!(file.path, vec![0]);

    assert_eq!(file.children.len(), 4);
    assert_eq!(file.children[0].label, "New");
    assert_eq!(file.children[0].item_type, MenuItemType::Item);
    assert_eq!(file.children[0].path, vec![0, 0]);

    let check = &file.children[1];
    assert_eq!(check.item_type, MenuItemType::Checkbox);
    assert_eq!(check.checked, true);
    assert_eq!(check.path, vec![0, 1]);

    let sep = &file.children[2];
    assert_eq!(sep.item_type, MenuItemType::Separator);
    assert_eq!(sep.path, vec![0, 2]);

    let radio = &file.children[3];
    assert_eq!(radio.item_type, MenuItemType::Radio);
    assert_eq!(radio.checked, false);
    assert_eq!(radio.path, vec![0, 4]);

    let edit = &tree.children[1];
    assert_eq!(edit.label, "Edit");
    assert_eq!(edit.item_type, MenuItemType::Item);
    assert_eq!(edit.path, vec![1]);

    assert_eq!(file.id, 2);
    assert_eq!(file.children[0].id, 3);
    assert_eq!(check.id, 4);
    assert_eq!(sep.id, 5);
    assert_eq!(radio.id, 6);
    assert_eq!(edit.id, 7);
}

#[test]
fn click_side_locates_node_and_recovers_dbusmenu_id() {
    let raw = wire_fixture();
    let target = locate_raw_by_path(&raw, &[0, 1]).expect("checkbox node");
    assert_eq!(target.id, 3);
    let hidden = locate_raw_by_path(&raw, &[0, 3]).expect("hidden node also locatable");
    assert_eq!(hidden.id, 5);
    let edit = locate_raw_by_path(&raw, &[1]).expect("edit node");
    assert_eq!(edit.id, 7);
    assert!(locate_raw_by_path(&raw, &[0, 9]).is_none());
    assert!(locate_raw_by_path(&raw, &[2]).is_none());
}

#[test]
fn open_children_matches_main_tree_ids_and_paths() {
    let raw = wire_fixture();
    let file = locate_raw_by_path(&raw, &[0]).unwrap();
    let items = children_from_raw(&file.children, &[0]);
    assert_eq!(items.len(), 4);
    assert_eq!(items[0].label, "New");
    assert_eq!(items[0].id, 1);
    assert_eq!(items[0].path, vec![0, 0]);
    assert_eq!(items[3].label, "Zoom");
    assert_eq!(items[3].id, 4);
    assert_eq!(items[3].path, vec![0, 4]);
}

#[test]
fn separator_and_defaults_are_sane() {
    let raw = layout(0, vec![], vec![layout(1, vec![], vec![])]);
    let mut ids = 0u32;
    let item = raw_to_menu_item(&raw, &[], &mut ids).children.remove(0);
    assert_eq!(item.item_type, MenuItemType::Item);
    assert_eq!(item.label, "");
    assert!(item.enabled);
    assert!(item.visible);
    assert!(!item.checked);
    assert_eq!(item.icon, None);
}

#[test]
fn strip_mnemonic_is_exported_and_correct() {
    assert_eq!(strip_mnemonic("_Format"), ("Format".to_string(), Some("F".to_string())));
    assert_eq!(strip_mnemonic("NoAccel"), ("NoAccel".to_string(), None));
}

#[test]
fn raw_to_menu_item_maps_types_and_paths() {
    let raw = layout(
        0,
        vec![],
        vec![
            layout(
                1,
                vec![("label", s("_File")), ("type", s("submenu"))],
                vec![
                    layout(2, vec![("label", s("_New"))], vec![]),
                    layout(
                        3,
                        vec![("label", s("Check Me")), ("toggle-type", s("checkmark")), ("toggle-state", PropValue::I32(1))],
                        vec![],
                    ),
                    layout(4, vec![("type", s("separator"))], vec![]),
                ],
            ),
            layout(
                5,
                vec![("label", s("View")), ("toggle-type", s("radio")), ("toggle-state", PropValue::I32(0))],
                vec![],
            ),
        ],
    );
    let mut ids = 0u32;
    let tree = raw_to_menu_item(&raw, &[], &mut ids);

    assert_eq!(tree.id, 1);
    assert_eq!(tree.item_type, MenuItemType::Submenu);
    assert_eq!(tree.label, "");
    assert_eq!(tree.children.len(), 2);
    assert_eq!(tree.children[0].label, "File");
    assert_eq!(tree.children[0].mnemonic, Some("F".to_string()));
    assert_eq!(tree.children[0].item_type, MenuItemType::Submenu);
    assert_eq!(tree.children[0].path, vec![0]);
    assert_eq!(tree.children[0].children.len(), 3);

    let check = &tree.children[0].children[1];
    assert_eq!(check.item_type, MenuItemType::Checkbox);
    assert_eq!(check.checked, true);
    assert_eq!(check.path, vec![0, 1]);

    let sep = &tree.children[0].children[2];
    assert_eq!(sep.item_type, MenuItemType::Separator);
    assert_eq!(sep.path, vec![0, 2]);

    let radio = &tree.children[1];
    assert_eq!(radio.item_type, MenuItemType::Radio);
    assert_eq!(radio.checked, false);
    assert_eq!(radio.path, vec![1]);

    assert_eq!(check.id, 4);
    assert_eq!(sep.id, 5);
    assert_eq!(radio.id, 6);
}

#[test]
fn hidden_items_dropped_but_path_slots_kept() {
    let raw = layout(
        0,
        vec![],
        vec![
            layout(1, vec![("label", s("Visible"))], vec![]),
            layout(2, vec![("label", s("Hidden")), ("visible", PropValue::Bool(false))], vec![]),
            layout(3, vec![("label", s("Also")), ("visible", PropValue::Bool(false))], vec![]),
            layout(4, vec![("label", s("Shown"))], vec![]),
        ],
    );
    let mut ids = 0u32;
    let tree = raw_to_menu_item(&raw, &[], &mut ids);
    assert_eq!(tree.children.len(), 2);
    assert_eq!(tree.children[0].label, "Visible");
    assert_eq!(tree.children[0].path, vec![0]);
    assert_eq!(tree.children[1].label, "Shown");
    assert_eq!(tree.children[1].path, vec![3]);
    assert_eq!(tree.children[1].id, 3);
}

#[test]
fn defaults_applied_when_props_missing() {
    let raw = layout(0, vec![], vec![layout(1, vec![], vec![])]);
    let mut ids = 0u32;
    let item = raw_to_menu_item(&raw, &[], &mut ids).children.remove(0);
    assert_eq!(item.label, "");
    assert_eq!(item.item_type, MenuItemType::Item);
    assert_eq!(item.enabled, true);
    assert_eq!(item.visible, true);
    assert_eq!(item.checked, false);
    assert_eq!(item.icon, None);
}

#[test]
fn icon_name_maps_to_icon_field() {
    let raw = layout(0, vec![], vec![layout(1, vec![("icon-name", s("document-save"))], vec![])]);
    let mut ids = 0u32;
    let item = raw_to_menu_item(&raw, &[], &mut ids).children.remove(0);
    assert_eq!(item.icon.as_deref(), Some("document-save"));
}

#[test]
fn strip_mnemonic_handles_markers_and_literals() {
    assert_eq!(strip_mnemonic("_File"), ("File".to_string(), Some("F".to_string())));
    assert_eq!(strip_mnemonic("Save _As"), ("Save As".to_string(), Some("A".to_string())));
    assert_eq!(strip_mnemonic("plain"), ("plain".to_string(), None));
    assert_eq!(strip_mnemonic("File_"), ("File_".to_string(), None));
    assert_eq!(strip_mnemonic("_ File"), ("_ File".to_string(), None));
}

#[test]
fn locate_raw_by_path_uses_raw_indices() {
    let raw = layout(
        0,
        vec![],
        vec![
            layout(1, vec![("label", s("File"))], vec![menu_layout(2, "Inner"), menu_layout(3, "Deep")]),
            menu_layout(4, "View"),
        ],
    );
    assert_eq!(locate_raw_by_path(&raw, &[]).unwrap().id, 0);
    assert_eq!(locate_raw_by_path(&raw, &[0]).unwrap().id, 1);
    assert_eq!(locate_raw_by_path(&raw, &[0, 1]).unwrap().id, 3);
    assert_eq!(locate_raw_by_path(&raw, &[1]).unwrap().id, 4);
    assert!(locate_raw_by_path(&raw, &[2]).is_none());
    assert!(locate_raw_by_path(&raw, &[0, 5]).is_none());
}

#[test]
fn children_from_raw_matches_main_tree_id_space() {
    let raw = layout(
        0,
        vec![],
        vec![layout(
            1,
            vec![("label", s("File"))],
            vec![menu_layout(2, "New"), layout(3, vec![("visible", PropValue::Bool(false))], vec![]), menu_layout(4, "Open")],
        )],
    );
    let items = children_from_raw(&raw.children[0].children, &[0]);
    assert_eq!(items.len(), 2);
    assert_eq!(items[0].label, "New");
    assert_eq!(items[0].path, vec![0, 0]);
    assert_eq!(items[0].id, 1);
    assert_eq!(items[1].label, "Open");
    assert_eq!(items[1].path, vec![0, 2]);
    assert_eq!(items[1].id, 2);
}

#[test]
fn strip_mnemonic_first_marker_wins_and_unicode_counts() {
    assert_eq!(strip_mnemonic("_Open _Recent"), ("Open Recent".to_string(), Some("O".to_string())));
    assert_eq!(strip_mnemonic("__x"), ("_x".to_string(), Some("x".to_string())));
    assert_eq!(strip_mnemonic("_Äpfel"), ("Äpfel".to_string(), Some("Ä".to_string())));
    assert_eq!(strip_mnemonic("_7 Days"), ("7 Days".to_string(), Some("7".to_string())));
    assert_eq!(strip_mnemonic("a_-b"), ("a_-b".to_string(), None));
    assert_eq!(strip_mnemonic(""), (String::new(), None));
}

/// Every item of the tree, with its id and path, in depth-first order.
fn flatten(t: &noctalia_global_menu_bridge::protocol::MenuItem, out: &mut Vec<(u32, Vec<u32>, String)>) {
    out.push((t.id, t.path.clone(), t.label.clone()));
    for c in &t.children {
        flatten(c, out);
    }
}

#[test]
fn one_item_per_shown_node_and_open_reply_under_any_path() {
    let root = wire_fixture();
    let mut ids = 0u32;
    let tree = raw_to_menu_item(&root, &[], &mut ids);
    let mut all = Vec::new();
    flatten(&tree, &mut all);
    // root, File, New, Word Wrap, separator, Zoom, Edit: the hidden item has none
    let paths: Vec<Vec<u32>> = all.iter().map(|x| x.1.clone()).collect();
    assert_eq!(paths, vec![vec![], vec![0], vec![0, 0], vec![0, 1], vec![0, 2], vec![0, 4], vec![1]]);
    for p in &paths {
        assert!(locate_raw_by_path(&root, p).is_some());
    }
    // the "open" reply for File's children under path [5, 0] is the main tree's entries
    // below File, ids lowered by File's id and [5] put before the paths
    let opened = children_from_raw(&root.children[0].children, &[5, 0]);
    let mut b = Vec::new();
    for c in &opened {
        flatten(c, &mut b);
    }
    let mut a = Vec::new();
    for c in &tree.children[0].children {
        flatten(c, &mut a);
    }
    let file_id = tree.children[0].id;
    let expected: Vec<(u32, Vec<u32>, String)> =
        a.into_iter().map(|(id, path, label)| (id - file_id, [vec![5], path].concat(), label)).collect();
    assert_eq!(b, expected);
}
