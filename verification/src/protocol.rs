//! The unified menu model shared by both menu sources, its mathematical view, and the
//! events sent to the shell plugin.
use vstd::prelude::*;

verus! {

/// Kind of a menu entry in the unified menu model.
#[derive(Debug, Clone, Copy, PartialEq, Eq, Structural)]
pub enum MenuItemType {
    Item,
    Submenu,
    Separator,
    Checkbox,
    Radio,
}

/// Unified menu entry handed to the shell plugin.
#[derive(Debug)]
pub struct MenuItem {
    pub id: u32,
    pub label: String,
    pub mnemonic: Option<String>,
    pub item_type: MenuItemType,
    pub enabled: bool,
    pub visible: bool,
    pub checked: bool,
    pub icon: Option<String>,
    pub children: Vec<MenuItem>,
    pub path: Vec<u32>,
}

/// The focused application as reported with a menu.
#[derive(Debug, Clone)]
pub struct AppInfo {
    pub app_id: String,
    pub title: String,
    pub pid: u32,
}

/// One line of the event stream from the bridge to the shell plugin.
#[derive(Debug)]
pub enum BridgeEvent {
    Hello { port: u16, pid: u32 },
    Menu { app: AppInfo, menu: Option<MenuItem>, source: &'static str },
    Heartbeat { ts: u64 },
    Error { msg: String },
}

/// Mathematical model of a menu entry.
#[verifier::ext_equal]
pub struct MenuNode {
    pub id: u32,
    pub label: Seq<char>,
    pub mnemonic: Option<Seq<char>>,
    pub item_type: MenuItemType,
    pub enabled: bool,
    pub visible: bool,
    pub checked: bool,
    pub icon: Option<Seq<char>>,
    pub children: Seq<MenuNode>,
    pub path: Seq<u32>,
}

/// The view of an optional string.
pub open spec fn opt_str_view(o: Option<String>) -> Option<Seq<char>> {
    match o {
        Some(s) => Some(s@),
        None => None,
    }
}

/// The model of a menu entry, children included.
pub open spec fn item_view(m: MenuItem) -> MenuNode
    decreases m, 0nat,
{
    MenuNode {
        id: m.id,
        label: m.label@,
        mnemonic: opt_str_view(m.mnemonic),
        item_type: m.item_type,
        enabled: m.enabled,
        visible: m.visible,
        checked: m.checked,
        icon: opt_str_view(m.icon),
        children: items_view(m.children@),
        path: m.path@,
    }
}

/// The models of a sequence of menu entries, in order.
pub open spec fn items_view(s: Seq<MenuItem>) -> Seq<MenuNode>
    decreases s, s.len(),
{
    if s.len() == 0 {
        Seq::empty()
    } else {
        items_view(s.subrange(0, s.len() - 1)).push(item_view(s[s.len() - 1]))
    }
}

/// The model of a pushed sequence is the model of the prefix followed by the new entry.
pub proof fn lemma_items_view_push(s: Seq<MenuItem>, x: MenuItem)
    ensures
        items_view(s.push(x)) == items_view(s).push(item_view(x)),
{
    assert(s.push(x).subrange(0, s.len() as int) =~= s);
}

/// The model of a sequence has one entry per item, each the model of that item.
pub proof fn lemma_items_view_index(s: Seq<MenuItem>)
    ensures
        items_view(s).len() == s.len(),
        forall|i: int| 0 <= i < s.len() ==> #[trigger] items_view(s)[i] == item_view(s[i]),
    decreases s.len(),
{
    if s.len() > 0 {
        let t = s.subrange(0, s.len() - 1);
        lemma_items_view_index(t);
        assert forall|i: int| 0 <= i < s.len() implies #[trigger] items_view(s)[i] == item_view(s[i]) by {
            if i < s.len() - 1 {
                assert(t[i] == s[i]);
            }
        }
    }
}

/// The ids of a tree in depth-first preorder.
pub open spec fn preorder_ids(m: MenuNode) -> Seq<u32>
    decreases m, 0nat,
{
    seq![m.id] + preorder_ids_forest(m.children)
}

/// The ids of a sequence of trees in depth-first preorder.
pub open spec fn preorder_ids_forest(ms: Seq<MenuNode>) -> Seq<u32>
    decreases ms, ms.len(),
{
    if ms.len() == 0 {
        Seq::empty()
    } else {
        preorder_ids_forest(ms.subrange(0, ms.len() - 1)) + preorder_ids(ms[ms.len() - 1])
    }
}

/// The consecutive ids `a + 1, a + 2, ..., b`.
pub open spec fn id_range(a: nat, b: nat) -> Seq<u32> {
    Seq::new((b - a) as nat, |i: int| (a + 1 + i) as u32)
}

/// Two adjacent id ranges joined form one range.
pub proof fn lemma_id_range_concat(a: nat, b: nat, c: nat)
    requires
        a <= b <= c,
    ensures
        id_range(a, b) + id_range(b, c) == id_range(a, c),
{
    assert(id_range(a, b) + id_range(b, c) =~= id_range(a, c));
}

/// The tree `m` with every id raised by `d`.
pub open spec fn shift_node(m: MenuNode, d: nat) -> MenuNode
    decreases m, 0nat,
{
    MenuNode {
        id: (m.id + d) as u32,
        label: m.label,
        mnemonic: m.mnemonic,
        item_type: m.item_type,
        enabled: m.enabled,
        visible: m.visible,
        checked: m.checked,
        icon: m.icon,
        children: shift_forest(m.children, d),
        path: m.path,
    }
}

/// The trees `ms` with every id raised by `d`.
pub open spec fn shift_forest(ms: Seq<MenuNode>, d: nat) -> Seq<MenuNode>
    decreases ms, ms.len(),
{
    if ms.len() == 0 {
        Seq::empty()
    } else {
        shift_forest(ms.subrange(0, ms.len() - 1), d).push(shift_node(ms[ms.len() - 1], d))
    }
}

/// Shifting keeps the number of trees.
pub proof fn lemma_shift_forest_len(ms: Seq<MenuNode>, d: nat)
    ensures
        shift_forest(ms, d).len() == ms.len(),
    decreases ms.len(),
{
    if ms.len() > 0 {
        lemma_shift_forest_len(ms.subrange(0, ms.len() - 1), d);
    }
}

/// The tree `m` with `pp` put before the path of every entry.
pub open spec fn prefix_node(m: MenuNode, pp: Seq<u32>) -> MenuNode
    decreases m, 0nat,
{
    MenuNode {
        id: m.id,
        label: m.label,
        mnemonic: m.mnemonic,
        item_type: m.item_type,
        enabled: m.enabled,
        visible: m.visible,
        checked: m.checked,
        icon: m.icon,
        children: prefix_forest(m.children, pp),
        path: pp + m.path,
    }
}

/// The trees `ms` with `pp` put before the path of every entry.
pub open spec fn prefix_forest(ms: Seq<MenuNode>, pp: Seq<u32>) -> Seq<MenuNode>
    decreases ms, ms.len(),
{
    if ms.len() == 0 {
        Seq::empty()
    } else {
        prefix_forest(ms.subrange(0, ms.len() - 1), pp).push(prefix_node(ms[ms.len() - 1], pp))
    }
}

/// Every entry of the tree `m`, in depth-first preorder.
pub open spec fn entries(m: MenuNode) -> Seq<MenuNode>
    decreases m, 0nat,
{
    seq![m] + entries_forest(m.children)
}

/// Every entry of the trees `ms`, in depth-first preorder.
pub open spec fn entries_forest(ms: Seq<MenuNode>) -> Seq<MenuNode>
    decreases ms, ms.len(),
{
    if ms.len() == 0 {
        Seq::empty()
    } else {
        entries_forest(ms.subrange(0, ms.len() - 1)) + entries(ms[ms.len() - 1])
    }
}

/// An entry of one of the trees is an entry of the forest.
pub proof fn lemma_entries_forest_contains(ms: Seq<MenuNode>, j: int, e: MenuNode)
    requires
        0 <= j < ms.len(),
        entries(ms[j]).contains(e),
    ensures
        entries_forest(ms).contains(e),
    decreases ms.len(),
{
    let t = ms.subrange(0, ms.len() - 1);
    let a = entries_forest(t);
    let b = entries(ms[ms.len() - 1]);
    if j == ms.len() - 1 {
        let k = choose|k: int| 0 <= k < b.len() && b[k] == e;
        assert((a + b)[a.len() + k] == e);
    } else {
        assert(t[j] == ms[j]);
        lemma_entries_forest_contains(t, j, e);
        let k = choose|k: int| 0 <= k < a.len() && a[k] == e;
        assert((a + b)[k] == e);
    }
}

/// An entry of the forest is an entry of one of its trees.
pub proof fn lemma_entries_forest_member(ms: Seq<MenuNode>, e: MenuNode) -> (j: int)
    requires
        entries_forest(ms).contains(e),
    ensures
        0 <= j < ms.len(),
        entries(ms[j]).contains(e),
    decreases ms.len(),
{
    let t = ms.subrange(0, ms.len() - 1);
    let a = entries_forest(t);
    let b = entries(ms[ms.len() - 1]);
    let k = choose|k: int| 0 <= k < (a + b).len() && (a + b)[k] == e;
    if k < a.len() {
        assert(a[k] == e);
        let j = lemma_entries_forest_member(t, e);
        assert(t[j] == ms[j]);
        j
    } else {
        assert(b[k - a.len()] == e);
        ms.len() - 1
    }
}

} // verus!
