//! Session glue: focus information, menu events, the top-level pruning of a menu tree,
//! and the replies of the "open" and "click" requests.
use vstd::prelude::*;
use vstd::std_specs::cmp::PartialEqSpecImpl;
use crate::atspi::{at_kids, at_tree, build_entries, build_menu_tree, RawNode};
use crate::protocol::{
    item_view, items_view, lemma_items_view_index, lemma_items_view_push, AppInfo, BridgeEvent,
    MenuItem, MenuNode,
};

verus! {

/// The focused window: niri window id, application id, title and process id.
#[derive(Debug, Clone)]
pub struct FocusInfo {
    pub win_id: u64,
    pub app_id: String,
    pub title: String,
    pub pid: u32,
}

impl PartialEq for FocusInfo {
    fn eq(&self, other: &Self) -> (r: bool) {
        self.win_id == other.win_id && self.app_id == other.app_id && self.title == other.title
            && self.pid == other.pid
    }
}

impl PartialEqSpecImpl for FocusInfo {
    open spec fn obeys_eq_spec() -> bool {
        true
    }

    open spec fn eq_spec(&self, other: &FocusInfo) -> bool {
        self.win_id == other.win_id && self.app_id@ == other.app_id@ && self.title@ == other.title@
            && self.pid == other.pid
    }
}

impl FocusInfo {
    /// A field-by-field copy.
    pub fn duplicate(&self) -> (r: FocusInfo)
        ensures
            r == *self,
    {
        FocusInfo {
            win_id: self.win_id,
            app_id: self.app_id.clone(),
            title: self.title.clone(),
            pid: self.pid,
        }
    }
}

/// A menu event for the focused application: `menu` is `None` when it has no menu.
pub fn make_menu_event(focus: &FocusInfo, menu: Option<MenuItem>, source: &'static str) -> (ev: BridgeEvent)
    ensures
        ev matches BridgeEvent::Menu { app, menu: m, source: s } && app.app_id@ == focus.app_id@
            && app.title@ == focus.title@ && app.pid == focus.pid && m == menu && s == source,
{
    BridgeEvent::Menu {
        app: AppInfo { app_id: focus.app_id.clone(), title: focus.title.clone(), pid: focus.pid },
        menu,
        source,
    }
}

/// The model of an entry with its children dropped.
pub open spec fn without_children(m: MenuNode) -> MenuNode {
    MenuNode { children: Seq::empty(), ..m }
}

/// The model of a tree cut to its top level: the root keeps its entries, each of which
/// keeps kind, label and state but loses its own children.
pub open spec fn pruned(m: MenuNode) -> MenuNode {
    MenuNode { children: Seq::new(m.children.len(), |i: int| without_children(m.children[i])), ..m }
}

/// Cuts a menu tree to its top level (submenu contents are fetched on demand).
pub fn prune_to_top_level(root: MenuItem) -> (r: MenuItem)
    ensures
        item_view(r) == pruned(item_view(root)),
{
    let ghost orig = root;
    let mut root = root;
    let mut rest: Vec<MenuItem> = Vec::new();
    std::mem::swap(&mut rest, &mut root.children);
    proof {
        lemma_items_view_index(orig.children@);
    }
    let mut kept: Vec<MenuItem> = Vec::new();
    let ghost n = rest@.len();
    while rest.len() > 0
        invariant
            n == orig.children@.len(),
            kept@.len() + rest@.len() == n,
            forall|j: int| 0 <= j < rest@.len() ==> rest@[j] == orig.children@[kept@.len() + j],
            items_view(kept@).len() == kept@.len(),
            forall|j: int| 0 <= j < kept@.len() ==> #[trigger] items_view(kept@)[j]
                == without_children(item_view(orig.children@[j])),
            root.id == orig.id,
            root.label == orig.label,
            root.mnemonic == orig.mnemonic,
            root.item_type == orig.item_type,
            root.enabled == orig.enabled,
            root.visible == orig.visible,
            root.checked == orig.checked,
            root.icon == orig.icon,
            root.path == orig.path,
        decreases rest@.len(),
    {
        let mut child = rest.remove(0);
        child.children = Vec::new();
        proof {
            lemma_items_view_push(kept@, child);
            lemma_items_view_index(kept@);
            assert(items_view(child.children@) =~= Seq::<MenuNode>::empty());
        }
        kept.push(child);
    }
    root.children = kept;
    proof {
        lemma_items_view_index(root.children@);
        assert(items_view(root.children@) =~= pruned(item_view(orig)).children);
    }
    root
}

/// The menu sent for a focused window whose menu bar reads as `raw`: the whole tree is
/// converted with ids from 1, then cut to its top level (the event line stays small;
/// submenus are opened on demand).
pub fn top_level_menu(raw: &RawNode) -> (r: MenuItem)
    requires
        at_tree(*raw, 0).1 <= u32::MAX,
    ensures
        item_view(r) == pruned(at_tree(*raw, 0).0),
{
    let mut ids: u32 = 0;
    let tree = build_menu_tree(raw, &mut ids);
    prune_to_top_level(tree)
}

/// Builds the entries under `parent_path` from the raw children of an opened node: the same
/// shape as the main tree, ids counted afresh from 1, paths = parent path + original index.
/// Invisible children take no id but keep their index slot.
pub fn build_children(raws: &[RawNode], parent_path: &[u32]) -> (items: Vec<MenuItem>)
    requires
        at_kids(raws@, parent_path@, raws@.len(), 0).1 <= u32::MAX,
    ensures
        items_view(items@) == at_kids(raws@, parent_path@, raws@.len(), 0).0,
{
    let mut ids: u32 = 0;
    build_entries(raws, parent_path, &mut ids)
}

/// Reply body of an "open" request.
#[derive(Debug)]
pub struct ChildrenResponse {
    pub ok: bool,
    pub children: Vec<MenuItem>,
    pub error: Option<String>,
}

/// An "open" reply carrying `children`, without error text.
pub fn build_children_response(ok: bool, children: Vec<MenuItem>) -> (r: ChildrenResponse)
    ensures
        r.ok == ok,
        r.children == children,
        r.error is None,
{
    ChildrenResponse { ok, children, error: None }
}

/// Reply body of a "click" request.
#[derive(Debug)]
pub struct ClickResponse {
    pub ok: bool,
    pub error: Option<String>,
}

/// The last resolved menu session: the focus it was resolved for and its menu.
#[derive(Debug)]
pub struct Session {
    pub focus: FocusInfo,
    pub menu: Option<MenuItem>,
}

/// State shared between the focus loop and the request handlers.
#[derive(Debug)]
pub struct Shared {
    /// The focused window, kept current by the focus loop.
    pub focus: Option<FocusInfo>,
    pub session: Option<Session>,
}

impl Shared {
    /// Empty shared state: no focus, no session.
    pub fn new() -> (r: Shared)
        ensures
            r.focus is None,
            r.session is None,
    {
        Shared { focus: None, session: None }
    }

    /// The focus a request acts on: the current focus, else the focus of the last session.
    pub fn request_focus(&self) -> (r: Option<FocusInfo>)
        ensures
            match self.focus {
                Some(f) => r == Some(f),
                None => match self.session {
                    Some(s) => r == Some(s.focus),
                    None => r is None,
                },
            },
    {
        match &self.focus {
            Some(f) => Some(f.duplicate()),
            None => match &self.session {
                Some(s) => Some(s.focus.duplicate()),
                None => None,
            },
        }
    }
}

impl Default for Shared {
    /// No focus and no session.
    fn default() -> (r: Shared)
        ensures
            r.focus is None,
            r.session is None,
    {
        Shared::new()
    }
}

/// Pruning changes nothing but children: the root keeps every field and the number of its
/// entries; each top-level entry keeps id, label, mnemonic, kind, enabled, visible, checked,
/// icon and path, and has no children.
pub proof fn lemma_pruned_keeps_top_level(m: MenuNode)
    ensures
        pruned(m).id == m.id,
        pruned(m).label == m.label,
        pruned(m).mnemonic == m.mnemonic,
        pruned(m).item_type == m.item_type,
        pruned(m).enabled == m.enabled,
        pruned(m).visible == m.visible,
        pruned(m).checked == m.checked,
        pruned(m).icon == m.icon,
        pruned(m).path == m.path,
        pruned(m).children.len() == m.children.len(),
        forall|i: int| 0 <= i < m.children.len() ==> {
            let a = #[trigger] pruned(m).children[i];
            let b = m.children[i];
            &&& a.id == b.id
            &&& a.label == b.label
            &&& a.mnemonic == b.mnemonic
            &&& a.item_type == b.item_type
            &&& a.enabled == b.enabled
            &&& a.visible == b.visible
            &&& a.checked == b.checked
            &&& a.icon == b.icon
            &&& a.path == b.path
            &&& a.children.len() == 0
        },
{
}

} // verus!
