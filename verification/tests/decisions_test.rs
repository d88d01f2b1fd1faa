//! Small decisions and parsers: X11 helpers, frame choice, menu-bar search, click
//! actions, request routing and id-budget checks.

use noctalia_global_menu_bridge::atspi::{
    action_count, action_is_click, choose_frame, click_step, click_target, entries_ids_fit, ClickStep,
    is_menu_bar, item_ids_fit, menu_tree_ids_fit, AccessibleRef, FrameInfo, MenubarSearch,
    RawNode, ROLE_FRAME, ROLE_MENU, ROLE_MENU_BAR, ROLE_MENU_ITEM, ROLE_WINDOW,
    MENUBAR_SEARCH_STEPS,
};
use noctalia_global_menu_bridge::dbusmenu::{children_ids_fit, item_ids_fit as raw_item_ids_fit, PropValue, RawMenuItem};
use noctalia_global_menu_bridge::http::{click_succeeded, path_of_url, route_request, HttpRoute, MAX_BODY_BYTES};
use noctalia_global_menu_bridge::proxy::{FocusInfo, Session, Shared};
use noctalia_global_menu_bridge::registrar::{display_from_cmdline, is_pid_dir_name, xids_from_output};
use noctalia_global_menu_bridge::text::{parse_u32, trim_chars};

fn acc(bus: &str, path: &str) -> AccessibleRef {
    AccessibleRef { bus: bus.into(), path: path.into() }
}

fn node(role: u32, name: &str, children: Vec<RawNode>, a: Option<AccessibleRef>) -> RawNode {
    RawNode { role, name: name.into(), state: (1 << 30, 0), children, acc: a }
}

fn focus(app: &str, pid: u32) -> FocusInfo {
    FocusInfo { win_id: 7, app_id: app.into(), title: "T".into(), pid }
}

// ── X11 helpers ──

#[test]
fn xdotool_output_keeps_numeric_lines_only() {
    assert_eq!(xids_from_output("123\n 456 \nabc\n\n4294967295\n4294967296\n"), vec![123, 456, 4294967295]);
    assert_eq!(xids_from_output(""), Vec::<u32>::new());
    assert_eq!(xids_from_output("77"), vec![77]);
}

#[test]
fn satellite_cmdline_gives_display() {
    assert_eq!(display_from_cmdline("/usr/bin/xwayland-satellite\0:1\0-listenfd\0"), Some(":1".to_string()));
    assert_eq!(display_from_cmdline("xwayland-satellite\0:12"), Some(":12".to_string()));
    assert_eq!(display_from_cmdline("/usr/bin/other\0:1\0"), None);
    assert_eq!(display_from_cmdline("xwayland-satellite\0-verbose\0"), None);
    assert_eq!(display_from_cmdline("xwayland-satellite"), None);
}

#[test]
fn pid_dir_names_are_digits() {
    assert!(is_pid_dir_name("1234"));
    assert!(is_pid_dir_name(""));
    assert!(!is_pid_dir_name("self"));
    assert!(!is_pid_dir_name("12a"));
}

#[test]
fn trim_and_parse_numbers() {
    let t = trim_chars(&"  42\t".chars().collect::<Vec<char>>());
    assert_eq!(t, vec!['4', '2']);
    assert_eq!(parse_u32(&t), Some(42));
    assert_eq!(parse_u32(&Vec::new()), None);
    assert_eq!(parse_u32(&"4294967296".chars().collect::<Vec<char>>()), None);
    assert_eq!(parse_u32(&"+1".chars().collect::<Vec<char>>()), Some(1));
    assert_eq!(parse_u32(&"+".chars().collect::<Vec<char>>()), None);
    assert_eq!(parse_u32(&"-1".chars().collect::<Vec<char>>()), None);
}

// ── frame choice and menu-bar search ──

#[test]
fn frame_choice_needs_several_windows_and_an_exact_title() {
    let one = vec![FrameInfo { role: ROLE_FRAME, name: Some("Doc".into()) }];
    assert_eq!(choose_frame(&one, "Doc"), None);
    let many = vec![
        FrameInfo { role: ROLE_FRAME, name: Some("Other".into()) },
        FrameInfo { role: ROLE_MENU, name: Some("Doc".into()) },
        FrameInfo { role: ROLE_WINDOW, name: None },
        FrameInfo { role: ROLE_WINDOW, name: Some("Doc".into()) },
        FrameInfo { role: ROLE_FRAME, name: Some("Doc".into()) },
    ];
    assert_eq!(choose_frame(&many, "Doc"), Some(3));
    assert_eq!(choose_frame(&many, "Missing"), None);
}

#[test]
fn menubar_search_is_depth_first_and_bounded() {
    assert!(is_menu_bar(ROLE_MENU_BAR));
    assert!(!is_menu_bar(ROLE_MENU));
    let mut s = MenubarSearch::new(acc(":1.5", "/root"));
    let first = s.next().unwrap();
    assert_eq!(first.path, "/root");
    s.expand(vec![acc(":1.5", "/a"), acc(":1.5", "/b")]);
    assert_eq!(s.next().unwrap().path, "/a");
    assert_eq!(s.next().unwrap().path, "/b");
    assert!(s.next().is_none());

    let mut s = MenubarSearch::new(acc(":1.5", "/0"));
    let mut seen: u32 = 0;
    while let Some(_) = s.next() {
        seen += 1;
        s.expand(vec![acc(":1.5", "/x")]);
    }
    assert_eq!(seen, MENUBAR_SEARCH_STEPS);
}

// ── clicks ──

#[test]
fn click_action_prefers_a_click_name() {
    assert!(action_is_click("Click"));
    assert!(action_is_click("doubleCLICK"));
    assert!(!action_is_click("press"));
    // names are asked for one at a time; the first click-named one is performed
    assert_eq!(click_step(4, &[]), ClickStep::ReadName(0));
    let read: Vec<String> = vec!["press".into(), "toggle".into()];
    assert_eq!(click_step(4, &read), ClickStep::ReadName(2));
    let read: Vec<String> = vec!["press".into(), "toggle".into(), "Click".into()];
    assert_eq!(click_step(4, &read), ClickStep::Act(2));
    // no name mentions a click: action 0
    let read: Vec<String> = vec!["press".into(), "toggle".into()];
    assert_eq!(click_step(2, &read), ClickStep::Act(0));
    // no action at all
    assert_eq!(click_step(0, &[]), ClickStep::NoAction);
    assert_eq!(click_step(-1, &read), ClickStep::NoAction);
}

#[test]
fn action_count_prefers_a_positive_method_reply() {
    assert_eq!(action_count(Some(3), Some(9)), 3);
    assert_eq!(action_count(Some(0), Some(2)), 2);
    assert_eq!(action_count(None, Some(2)), 2);
    assert_eq!(action_count(Some(-1), None), 0);
    assert_eq!(action_count(None, None), 0);
}

#[test]
fn click_target_follows_the_path() {
    let root = node(
        ROLE_MENU_BAR,
        "",
        vec![node(
            ROLE_MENU,
            "File",
            vec![node(ROLE_MENU_ITEM, "Open", vec![], Some(acc(":1.5", "/open"))), node(ROLE_MENU_ITEM, "Bare", vec![], None)],
            Some(acc(":1.5", "/file")),
        )],
        None,
    );
    assert_eq!(click_target(&root, &[0, 0]).map(|a| a.path.clone()), Some("/open".to_string()));
    assert_eq!(click_target(&root, &[0]).map(|a| a.path.clone()), Some("/file".to_string()));
    assert!(click_target(&root, &[0, 1]).is_none());
    assert!(click_target(&root, &[0, 2]).is_none());
    assert!(click_target(&root, &[]).is_none());
}

// ── request routing ──

#[test]
fn request_paths_ignore_the_query() {
    assert_eq!(path_of_url("/click?path=0,1"), "/click");
    assert_eq!(path_of_url("/ping"), "/ping");
    assert_eq!(path_of_url("?x"), "");
}

#[test]
fn requests_are_routed_by_path_and_body_size() {
    assert_eq!(route_request("/ping", 0), HttpRoute::Ping);
    assert_eq!(route_request("/shutdown", 0), HttpRoute::Shutdown);
    assert_eq!(route_request("/refresh?now", 0), HttpRoute::Refresh);
    assert_eq!(route_request("/nope", 0), HttpRoute::NotFound);
    assert_eq!(route_request("/click?x=1", 10), HttpRoute::Click);
    assert_eq!(route_request("/open", 10), HttpRoute::Open);
    assert_eq!(route_request("/Ping", 0), HttpRoute::NotFound);
    assert_eq!(route_request("/ping", MAX_BODY_BYTES + 1), HttpRoute::TooLarge);
    assert_eq!(route_request("/nope", MAX_BODY_BYTES + 1), HttpRoute::TooLarge);
    assert_eq!(route_request("/ping", MAX_BODY_BYTES), HttpRoute::Ping);
}

#[test]
fn requests_act_on_current_focus_then_last_session() {
    let empty = Shared::new();
    assert!(empty.request_focus().is_none());
    let with_session = Shared { focus: None, session: Some(Session { focus: focus("old", 1), menu: None }) };
    assert_eq!(with_session.request_focus().map(|f| f.app_id), Some("old".to_string()));
    let with_focus = Shared { focus: Some(focus("new", 2)), session: Some(Session { focus: focus("old", 1), menu: None }) };
    let f = with_focus.request_focus().unwrap();
    assert_eq!(f.app_id, "new");
    assert_eq!(f.pid, 2);
}

#[test]
fn click_reply_is_ok_only_when_found_and_clicked() {
    assert!(click_succeeded(true, true));
    assert!(!click_succeeded(true, false));
    assert!(!click_succeeded(false, true));
}

// ── id budgets ──

#[test]
fn id_budget_checks_count_every_node() {
    let root = node(
        ROLE_MENU_BAR,
        "",
        vec![node(ROLE_MENU, "File", vec![node(ROLE_MENU_ITEM, "Open", vec![], None)], None)],
        None,
    );
    // root, File, Open: three ids.
    assert!(menu_tree_ids_fit(&root, u32::MAX - 3));
    assert!(!menu_tree_ids_fit(&root, u32::MAX - 2));
    assert!(!menu_tree_ids_fit(&root, u32::MAX));
    assert!(item_ids_fit(&root.children[0], &[0], u32::MAX - 2));
    assert!(!item_ids_fit(&root.children[0], &[0], u32::MAX - 1));
    assert!(entries_ids_fit(&root.children, &[]));

    let raw = RawMenuItem {
        id: 0,
        props: vec![("label".to_string(), PropValue::Str("Root".into()))],
        children: vec![RawMenuItem { id: 1, props: vec![], children: vec![] }],
    };
    assert!(raw_item_ids_fit(&raw, &[], u32::MAX - 2));
    assert!(!raw_item_ids_fit(&raw, &[], u32::MAX - 1));
    assert!(children_ids_fit(&raw.children, &[]));
}
