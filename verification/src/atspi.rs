//! AT-SPI accessible trees: the raw node model read from the accessibility bus,
//! conversion into the unified menu model, and child-index path lookup.
use vstd::prelude::*;
use crate::protocol::{
    id_range, lemma_id_range_concat, lemma_shift_forest_len, preorder_ids, preorder_ids_forest,
    prefix_forest, prefix_node, shift_forest, shift_node,
    item_view, items_view, lemma_items_view_index, lemma_items_view_push, MenuItem, MenuItemType,
    MenuNode,
};
use crate::text::{ascii_lower_char, ascii_lower_seq, chars_of, contains_chars, contains_seq, copy_path, str_eq};

verus! {

pub const ROLE_CHECK_MENU_ITEM: u32 = 8;
pub const ROLE_FRAME: u32 = 28;
pub const ROLE_MENU: u32 = 33;
pub const ROLE_MENU_BAR: u32 = 34;
pub const ROLE_MENU_ITEM: u32 = 35;
pub const ROLE_RADIO_MENU_ITEM: u32 = 45;
pub const ROLE_SEPARATOR: u32 = 50;
pub const ROLE_WINDOW: u32 = 15;

pub const STATE_ENABLED: u32 = 8;
pub const STATE_SENSITIVE: u32 = 24;
pub const STATE_VISIBLE: u32 = 30;
pub const STATE_CHECKED: u32 = 4;
pub const STATE_SHOWING: u32 = 25;

/// Where an accessible lives on the accessibility bus: connection name and object path.
#[derive(Debug, Clone)]
pub struct AccessibleRef {
    pub bus: String,
    pub path: String,
}

/// One accessible as read from the bus: role, name, the first two state words, children,
/// and its bus coordinates when known.
#[derive(Debug)]
pub struct RawNode {
    pub role: u32,
    pub name: String,
    pub state: (u32, u32),
    pub children: Vec<RawNode>,
    pub acc: Option<AccessibleRef>,
}

/// Menus and menu bars always count as shown (a closed submenu has neither state bit);
/// other nodes need the VISIBLE or the SHOWING bit.
pub open spec fn node_visible(n: RawNode) -> bool {
    n.role == ROLE_MENU || n.role == ROLE_MENU_BAR || n.state.0 & (1u32 << STATE_VISIBLE) != 0
        || n.state.0 & (1u32 << STATE_SHOWING) != 0
}

/// Whether `n` is shown (see `node_visible`).
pub fn is_visible(n: &RawNode) -> (r: bool)
    ensures
        r == node_visible(*n),
{
    n.role == ROLE_MENU || n.role == ROLE_MENU_BAR || n.state.0 & (1u32 << STATE_VISIBLE) != 0
        || n.state.0 & (1u32 << STATE_SHOWING) != 0
}

/// Number of nodes in a tree.
pub open spec fn node_size(n: RawNode) -> nat
    decreases n, 0nat,
{
    1 + nodes_size(n.children@)
}

/// Number of nodes in a sequence of trees.
pub open spec fn nodes_size(s: Seq<RawNode>) -> nat
    decreases s, s.len(),
{
    if s.len() == 0 {
        0
    } else {
        nodes_size(s.subrange(0, s.len() - 1)) + node_size(s[s.len() - 1])
    }
}

/// A nameless menu under a menu item: Qt wraps each popup in one.
pub open spec fn is_wrapper(n: RawNode) -> bool {
    n.role == ROLE_MENU && n.name@.len() == 0
}

/// The entries offered under a menu item from its first `n` children: the children of a
/// nameless wrapper menu take its place, every other child stands for itself.
pub open spec fn popup_children(cs: Seq<RawNode>, n: nat) -> Seq<RawNode>
    decreases n,
{
    if n == 0 || n > cs.len() {
        Seq::empty()
    } else {
        popup_children(cs, (n - 1) as nat) + (if is_wrapper(cs[n - 1]) {
            cs[n - 1].children@
        } else {
            seq![cs[n - 1]]
        })
    }
}

/// The size of two sequences of trees joined is the sum of their sizes.
pub proof fn lemma_nodes_size_concat(a: Seq<RawNode>, b: Seq<RawNode>)
    ensures
        nodes_size(a + b) == nodes_size(a) + nodes_size(b),
    decreases b.len(),
{
    if b.len() == 0 {
        assert(a + b =~= a);
    } else {
        let b1 = b.subrange(0, b.len() - 1);
        lemma_nodes_size_concat(a, b1);
        assert((a + b).subrange(0, (a + b).len() - 1) =~= a + b1);
    }
}

/// The size of the first `n` trees is that of the first `n - 1` plus the `n`-th.
pub proof fn lemma_nodes_size_prefix(s: Seq<RawNode>, n: nat)
    requires
        0 < n <= s.len(),
    ensures
        nodes_size(s.subrange(0, n as int)) == nodes_size(s.subrange(0, n - 1)) + node_size(s[n - 1]),
{
    assert(s.subrange(0, n as int).subrange(0, n - 1) =~= s.subrange(0, n - 1));
}

/// No tree of a sequence is larger than the whole sequence.
pub proof fn lemma_nodes_size_index(s: Seq<RawNode>, i: int)
    requires
        0 <= i < s.len(),
    ensures
        node_size(s[i]) <= nodes_size(s),
    decreases s.len(),
{
    if i < s.len() - 1 {
        let t = s.subrange(0, s.len() - 1);
        lemma_nodes_size_index(t, i);
        assert(t[i] == s[i]);
    }
}

/// Flattening wrappers never makes the entries larger than the children they come from.
pub proof fn lemma_popup_size(cs: Seq<RawNode>, n: nat)
    requires
        n <= cs.len(),
    ensures
        nodes_size(popup_children(cs, n)) <= nodes_size(cs.subrange(0, n as int)),
    decreases n,
{
    if n == 0 {
        assert(cs.subrange(0, 0) =~= Seq::<RawNode>::empty());
    } else {
        lemma_popup_size(cs, (n - 1) as nat);
        let extra = if is_wrapper(cs[n - 1]) { cs[n - 1].children@ } else { seq![cs[n - 1]] };
        lemma_nodes_size_concat(popup_children(cs, (n - 1) as nat), extra);
        lemma_nodes_size_prefix(cs, n);
        assert(node_size(cs[n - 1]) == 1 + nodes_size(cs[n - 1].children@));
        if !is_wrapper(cs[n - 1]) {
            assert(seq![cs[n - 1]].subrange(0, 0) =~= Seq::<RawNode>::empty());
            assert(nodes_size(seq![cs[n - 1]]) == nodes_size(Seq::<RawNode>::empty()) + node_size(cs[n - 1]));
        }
    }
}

/// Menus and menu bars hold their entries directly; other nodes offer popup entries.
pub open spec fn submenu_like(n: RawNode) -> bool {
    n.role == ROLE_MENU_BAR || n.role == ROLE_MENU
}

/// The raw entries converted under `n`.
pub open spec fn item_entries(n: RawNode) -> Seq<RawNode> {
    if submenu_like(n) {
        n.children@
    } else {
        popup_children(n.children@, n.children@.len())
    }
}

/// The entries of a node, together and each alone, are smaller than the node.
pub proof fn lemma_entries_smaller(n: RawNode)
    ensures
        nodes_size(item_entries(n).subrange(0, item_entries(n).len() as int)) < node_size(n),
        forall|i: int| 0 <= i < item_entries(n).len() ==> node_size(#[trigger] item_entries(n)[i]) < node_size(n),
{
    let e = item_entries(n);
    assert(e.subrange(0, e.len() as int) =~= e);
    assert(n.children@.subrange(0, n.children@.len() as int) =~= n.children@);
    if !submenu_like(n) {
        lemma_popup_size(n.children@, n.children@.len());
    }
    assert forall|i: int| 0 <= i < e.len() implies node_size(#[trigger] e[i]) < node_size(n) by {
        lemma_nodes_size_index(e, i);
    }
}

/// The entry kind of an accessible: separator, then submenu (menu-like or with entries),
/// then checkbox / radio by role, else a plain item.
pub open spec fn role_kind(n: RawNode, has_children: bool) -> MenuItemType {
    if n.role == ROLE_SEPARATOR {
        MenuItemType::Separator
    } else if submenu_like(n) || has_children {
        MenuItemType::Submenu
    } else if n.role == ROLE_CHECK_MENU_ITEM {
        MenuItemType::Checkbox
    } else if n.role == ROLE_RADIO_MENU_ITEM {
        MenuItemType::Radio
    } else {
        MenuItemType::Item
    }
}

/// Converts the accessible `n` at `path` with the id counter at `c`: the node takes id
/// `c + 1`, its shown entries follow depth-first; the second component is the counter after.
pub open spec fn at_item(n: RawNode, path: Seq<u32>, c: nat) -> (MenuNode, nat)
    decreases node_size(n), 0nat,
{
    let entries = item_entries(n);
    proof {
        lemma_entries_smaller(n);
    }
    let kids = at_kids(entries, path, entries.len(), c + 1);
    (
        MenuNode {
            id: (c + 1) as u32,
            label: n.name@,
            mnemonic: None,
            item_type: role_kind(n, kids.0.len() > 0),
            enabled: n.state.0 & (1u32 << STATE_ENABLED) != 0 && n.state.0 & (1u32 << STATE_SENSITIVE) != 0,
            visible: true,
            checked: n.state.0 & (1u32 << STATE_CHECKED) != 0,
            icon: None,
            children: kids.0,
            path: path,
        },
        kids.1,
    )
}

/// Converts the shown nodes among the first `n` of `raws` (entries under `path`), counter at
/// `c`; each takes its index among `raws` as the last step of its path.
pub open spec fn at_kids(raws: Seq<RawNode>, path: Seq<u32>, n: nat, c: nat) -> (Seq<MenuNode>, nat)
    decreases nodes_size(raws.subrange(0, n as int)), 1nat,
{
    if n == 0 || n > raws.len() {
        (Seq::empty(), c)
    } else {
        proof {
            lemma_nodes_size_prefix(raws, n);
        }
        let prev = at_kids(raws, path, (n - 1) as nat, c);
        let r = raws[n - 1];
        if node_visible(r) {
            let it = at_item(r, path.push((n - 1) as u32), prev.1);
            (prev.0.push(it.0), it.1)
        } else {
            prev
        }
    }
}

/// Converts a menu bar: the root takes the next id and an empty label, is a submenu,
/// and its shown children (never flattened) follow with paths of length one.
pub open spec fn at_tree(root: RawNode, c: nat) -> (MenuNode, nat) {
    let kids = at_kids(root.children@, Seq::empty(), root.children@.len(), c + 1);
    (
        MenuNode {
            id: (c + 1) as u32,
            label: Seq::empty(),
            mnemonic: None,
            item_type: MenuItemType::Submenu,
            enabled: true,
            visible: true,
            checked: false,
            icon: None,
            children: kids.0,
            path: Seq::empty(),
        },
        kids.1,
    )
}

/// The counter only grows: a converted node consumes at least its own id.
pub proof fn lemma_at_counter_grows(n: RawNode, path: Seq<u32>, c: nat)
    ensures
        at_item(n, path, c).1 >= c + 1,
    decreases node_size(n), 0nat,
{
    lemma_entries_smaller(n);
    let e = item_entries(n);
    lemma_at_kids_counter_grows(e, path, e.len(), c + 1);
}

/// The counter after `n` entries is at least the counter after `m <= n` of them.
pub proof fn lemma_at_kids_counter_grows(raws: Seq<RawNode>, path: Seq<u32>, n: nat, c: nat)
    requires
        n <= raws.len(),
    ensures
        at_kids(raws, path, n, c).1 >= c,
        forall|m: nat| m <= n ==> #[trigger] at_kids(raws, path, m, c).1 <= at_kids(raws, path, n, c).1,
    decreases nodes_size(raws.subrange(0, n as int)), 1nat,
{
    if n > 0 {
        lemma_nodes_size_prefix(raws, n);
        lemma_at_kids_counter_grows(raws, path, (n - 1) as nat, c);
        let prev = at_kids(raws, path, (n - 1) as nat, c);
        if node_visible(raws[n - 1]) {
            lemma_at_counter_grows(raws[n - 1], path.push((n - 1) as u32), prev.1);
        }
    }
}

/// References to the entries of `node` (see `item_entries`).
fn entry_refs(node: &RawNode) -> (refs: Vec<&RawNode>)
    ensures
        refs@.len() == item_entries(*node).len(),
        forall|j: int| 0 <= j < refs@.len() ==> *refs@[j] == item_entries(*node)[j],
{
    let mut refs: Vec<&RawNode> = Vec::new();
    let ghost cs = node.children@;
    if node.role == ROLE_MENU_BAR || node.role == ROLE_MENU {
        let mut i: usize = 0;
        while i < node.children.len()
            invariant
                cs == node.children@,
                i <= cs.len(),
                refs@.len() == i,
                forall|j: int| 0 <= j < i ==> *refs@[j] == cs[j],
            decreases cs.len() - i,
        {
            refs.push(&node.children[i]);
            i = i + 1;
        }
    } else {
        let mut i: usize = 0;
        while i < node.children.len()
            invariant
                cs == node.children@,
                i <= cs.len(),
                refs@.len() == popup_children(cs, i as nat).len(),
                forall|j: int| 0 <= j < refs@.len() ==> *refs@[j] == popup_children(cs, i as nat)[j],
            decreases cs.len() - i,
        {
            let child = &node.children[i];
            let ghost before = popup_children(cs, i as nat);
            assert(popup_children(cs, (i + 1) as nat) == before + (if is_wrapper(cs[i as int]) {
                cs[i as int].children@
            } else {
                seq![cs[i as int]]
            }));
            if child.role == ROLE_MENU && child.name.as_str().is_empty() {
                let mut g: usize = 0;
                while g < child.children.len()
                    invariant
                        g <= child.children@.len(),
                        refs@.len() == before.len() + g,
                        forall|j: int| 0 <= j < before.len() ==> *refs@[j] == before[j],
                        forall|j: int| 0 <= j < g ==> *refs@[before.len() + j] == child.children@[j],
                    decreases child.children@.len() - g,
                {
                    refs.push(&child.children[g]);
                    g = g + 1;
                }
            } else {
                refs.push(child);
            }
            i = i + 1;
        }
    }
    refs
}

/// Public entry to the item conversion, for building the children of an opened node.
pub fn build_item_pub(node: &RawNode, path: &[u32], ids: &mut u32) -> (item: MenuItem)
    requires
        at_item(*node, path@, *old(ids) as nat).1 <= u32::MAX,
    ensures
        item_view(item) == at_item(*node, path@, *old(ids) as nat).0,
        *final(ids) as nat == at_item(*node, path@, *old(ids) as nat).1,
{
    build_item(node, copy_path(path), ids)
}

/// Converts the accessible `node` at `path`; `ids` is the depth-first id counter.
fn build_item(node: &RawNode, path: Vec<u32>, ids: &mut u32) -> (item: MenuItem)
    requires
        at_item(*node, path@, *old(ids) as nat).1 <= u32::MAX,
    ensures
        item_view(item) == at_item(*node, path@, *old(ids) as nat).0,
        *final(ids) as nat == at_item(*node, path@, *old(ids) as nat).1,
    decreases node_size(*node), 0nat,
{
    let ghost c0 = *ids as nat;
    let ghost entries = item_entries(*node);
    proof {
        lemma_at_counter_grows(*node, path@, c0);
        lemma_entries_smaller(*node);
        lemma_at_kids_counter_grows(entries, path@, entries.len(), c0 + 1);
    }
    *ids = *ids + 1;
    let id = *ids;
    let enabled = node.state.0 & (1u32 << STATE_ENABLED) != 0 && node.state.0 & (1u32 << STATE_SENSITIVE) != 0;
    let checked = node.state.0 & (1u32 << STATE_CHECKED) != 0;
    let is_submenu_like = node.role == ROLE_MENU_BAR || node.role == ROLE_MENU;

    let refs = entry_refs(node);
    let mut children: Vec<MenuItem> = Vec::new();
    let mut i: usize = 0;
    while i < refs.len()
        invariant
            i <= refs@.len(),
            refs@.len() == entries.len(),
            forall|j: int| 0 <= j < refs@.len() ==> *refs@[j] == entries[j],
            forall|j: int| 0 <= j < entries.len() ==> node_size(#[trigger] entries[j]) < node_size(*node),
            at_kids(entries, path@, entries.len(), c0 + 1).1 <= u32::MAX,
            forall|m: nat| m <= entries.len() ==> #[trigger] at_kids(entries, path@, m, c0 + 1).1
                <= at_kids(entries, path@, entries.len(), c0 + 1).1,
            items_view(children@) == at_kids(entries, path@, i as nat, c0 + 1).0,
            *ids as nat == at_kids(entries, path@, i as nat, c0 + 1).1,
        decreases refs@.len() - i,
    {
        let r: &RawNode = refs[i];
        assert(at_kids(entries, path@, (i + 1) as nat, c0 + 1).1 <= u32::MAX);
        if is_visible(r) {
            let mut child_path = copy_path(path.as_slice());
            child_path.push(i as u32);
            let item = build_item(r, child_path, ids);
            proof {
                lemma_items_view_push(children@, item);
            }
            children.push(item);
        }
        i = i + 1;
    }
    let item_type = if node.role == ROLE_SEPARATOR {
        MenuItemType::Separator
    } else if is_submenu_like || !children.is_empty() {
        MenuItemType::Submenu
    } else if node.role == ROLE_CHECK_MENU_ITEM {
        MenuItemType::Checkbox
    } else if node.role == ROLE_RADIO_MENU_ITEM {
        MenuItemType::Radio
    } else {
        MenuItemType::Item
    };
    proof {
        lemma_items_view_index(children@);
    }
    MenuItem {
        id,
        label: node.name.clone(),
        mnemonic: None,
        item_type,
        enabled,
        visible: true,
        checked,
        icon: None,
        children,
        path,
    }
}

/// Converts the shown nodes of `raws` as entries under `path` (no flattening here).
pub(crate) fn build_entries(raws: &[RawNode], path: &[u32], ids: &mut u32) -> (items: Vec<MenuItem>)
    requires
        at_kids(raws@, path@, raws@.len(), *old(ids) as nat).1 <= u32::MAX,
    ensures
        items_view(items@) == at_kids(raws@, path@, raws@.len(), *old(ids) as nat).0,
        *final(ids) as nat == at_kids(raws@, path@, raws@.len(), *old(ids) as nat).1,
{
    let ghost c0 = *ids as nat;
    let ghost total = raws@.len() as nat;
    proof {
        lemma_at_kids_counter_grows(raws@, path@, total, c0);
    }
    let mut items: Vec<MenuItem> = Vec::new();
    let mut i: usize = 0;
    while i < raws.len()
        invariant
            i <= raws@.len(),
            total == raws@.len(),
            at_kids(raws@, path@, total, c0).1 <= u32::MAX,
            forall|m: nat| m <= total ==> #[trigger] at_kids(raws@, path@, m, c0).1
                <= at_kids(raws@, path@, total, c0).1,
            items_view(items@) == at_kids(raws@, path@, i as nat, c0).0,
            *ids as nat == at_kids(raws@, path@, i as nat, c0).1,
        decreases raws@.len() - i,
    {
        let raw = &raws[i];
        assert(at_kids(raws@, path@, (i + 1) as nat, c0).1 <= u32::MAX);
        if is_visible(raw) {
            let mut p = copy_path(path);
            p.push(i as u32);
            let item = build_item(raw, p, ids);
            proof {
                lemma_items_view_push(items@, item);
            }
            items.push(item);
        }
        i = i + 1;
    }
    items
}

/// The id counter after converting `node` from `c`, or `None` once it would pass `u32::MAX`.
fn count_node(node: &RawNode, Ghost(path): Ghost<Seq<u32>>, c: u32) -> (r: Option<u32>)
    ensures
        match r {
            Some(k) => at_item(*node, path, c as nat).1 <= u32::MAX && k == at_item(*node, path, c as nat).1,
            None => at_item(*node, path, c as nat).1 > u32::MAX,
        },
    decreases node_size(*node), 0nat,
{
    let ghost entries = item_entries(*node);
    proof {
        lemma_entries_smaller(*node);
        lemma_at_kids_counter_grows(entries, path, entries.len(), c as nat + 1);
    }
    if c == u32::MAX {
        return None;
    }
    let refs = entry_refs(node);
    let ghost total = entries.len();
    let mut k: u32 = c + 1;
    let mut i: usize = 0;
    while i < refs.len()
        invariant
            i <= refs@.len(),
            refs@.len() == entries.len(),
            total == entries.len(),
            entries == item_entries(*node),
            forall|j: int| 0 <= j < refs@.len() ==> *refs@[j] == entries[j],
            forall|j: int| 0 <= j < entries.len() ==> node_size(#[trigger] entries[j]) < node_size(*node),
            forall|m: nat| m <= total ==> #[trigger] at_kids(entries, path, m, c as nat + 1).1
                <= at_kids(entries, path, total, c as nat + 1).1,
            k as nat == at_kids(entries, path, i as nat, c as nat + 1).1,
        decreases refs@.len() - i,
    {
        let r: &RawNode = refs[i];
        assert(*r == entries[i as int]);
        assert(node_size(*r) < node_size(*node));
        if is_visible(r) {
            match count_node(r, Ghost(path.push(i as u32)), k) {
                Some(k2) => {
                    k = k2;
                },
                None => {
                    assert(at_kids(entries, path, (i + 1) as nat, c as nat + 1).1 > u32::MAX);
                    assert(at_item(*node, path, c as nat).1 == at_kids(entries, path, total, c as nat + 1).1);
                    return None;
                },
            }
        }
        i = i + 1;
    }
    Some(k)
}

/// The id counter after converting the shown nodes of `raws` from `c`, or `None` once it
/// would pass `u32::MAX`.
fn count_entries(raws: &[RawNode], Ghost(path): Ghost<Seq<u32>>, c: u32) -> (r: Option<u32>)
    ensures
        match r {
            Some(k) => at_kids(raws@, path, raws@.len(), c as nat).1 <= u32::MAX
                && k == at_kids(raws@, path, raws@.len(), c as nat).1,
            None => at_kids(raws@, path, raws@.len(), c as nat).1 > u32::MAX,
        },
{
    let ghost total = raws@.len() as nat;
    proof {
        lemma_at_kids_counter_grows(raws@, path, total, c as nat);
    }
    let mut k: u32 = c;
    let mut i: usize = 0;
    while i < raws.len()
        invariant
            i <= raws@.len(),
            total == raws@.len(),
            forall|m: nat| m <= total ==> #[trigger] at_kids(raws@, path, m, c as nat).1
                <= at_kids(raws@, path, total, c as nat).1,
            k as nat == at_kids(raws@, path, i as nat, c as nat).1,
        decreases raws@.len() - i,
    {
        let raw = &raws[i];
        if is_visible(raw) {
            match count_node(raw, Ghost(path.push(i as u32)), k) {
                Some(k2) => {
                    k = k2;
                },
                None => {
                    assert(at_kids(raws@, path, (i + 1) as nat, c as nat).1 > u32::MAX);
                    return None;
                },
            }
        }
        i = i + 1;
    }
    Some(k)
}

/// Whether converting the accessible `node` at `path` with the counter at `start` stays
/// within `u32` ids.
pub fn item_ids_fit(node: &RawNode, path: &[u32], start: u32) -> (r: bool)
    ensures
        r == (at_item(*node, path@, start as nat).1 <= u32::MAX),
{
    count_node(node, Ghost(path@), start).is_some()
}

/// Whether converting the menu bar `root` with the counter at `start` stays within `u32` ids.
pub fn menu_tree_ids_fit(root: &RawNode, start: u32) -> (r: bool)
    ensures
        r == (at_tree(*root, start as nat).1 <= u32::MAX),
{
    if start == u32::MAX {
        proof {
            lemma_at_kids_counter_grows(root.children@, Seq::empty(), root.children@.len(), start as nat + 1);
        }
        return false;
    }
    count_entries(root.children.as_slice(), Ghost(Seq::empty()), start + 1).is_some()
}

/// Whether converting the entries `raws` under `path` from a fresh counter stays within
/// `u32` ids.
pub fn entries_ids_fit(raws: &[RawNode], path: &[u32]) -> (r: bool)
    ensures
        r == (at_kids(raws@, path@, raws@.len(), 0).1 <= u32::MAX),
{
    count_entries(raws, Ghost(path@), 0).is_some()
}

/// Converts a menu bar into the unified tree. `ids` is the depth-first id counter;
/// the root is a submenu with an empty label and an empty path.
pub fn build_menu_tree(root: &RawNode, ids: &mut u32) -> (item: MenuItem)
    requires
        at_tree(*root, *old(ids) as nat).1 <= u32::MAX,
    ensures
        item_view(item) == at_tree(*root, *old(ids) as nat).0,
        *final(ids) as nat == at_tree(*root, *old(ids) as nat).1,
{
    let ghost c0 = *ids as nat;
    proof {
        lemma_at_kids_counter_grows(root.children@, Seq::empty(), root.children@.len(), c0 + 1);
    }
    *ids = *ids + 1;
    let id = *ids;
    let path: Vec<u32> = Vec::new();
    let children = build_entries(root.children.as_slice(), path.as_slice(), ids);
    proof {
        lemma_items_view_index(children@);
    }
    MenuItem {
        id,
        label: String::new(),
        mnemonic: None,
        item_type: MenuItemType::Submenu,
        enabled: true,
        visible: true,
        checked: false,
        icon: None,
        children,
        path,
    }
}

/// The node reached from `r` by following the child indices of `p`.
pub open spec fn locate_node(r: RawNode, p: Seq<u32>) -> Option<RawNode>
    decreases p.len(),
{
    if p.len() == 0 {
        Some(r)
    } else if (p[0] as int) < r.children@.len() {
        locate_node(r.children@[p[0] as int], p.drop_first())
    } else {
        None
    }
}

/// Follows a child-index path from the menu bar (indices over all children).
pub fn locate_by_path<'a>(root: &'a RawNode, path: &[u32]) -> (r: Option<&'a RawNode>)
    ensures
        match locate_node(*root, path@) {
            Some(n) => r matches Some(x) && *x == n,
            None => r is None,
        },
{
    let mut cur = root;
    let mut k: usize = 0;
    assert(path@.subrange(0, path@.len() as int) =~= path@);
    while k < path.len()
        invariant
            k <= path@.len(),
            locate_node(*root, path@) == locate_node(*cur, path@.subrange(k as int, path@.len() as int)),
        decreases path.len() - k,
    {
        let ghost rest = path@.subrange(k as int, path@.len() as int);
        assert(rest.drop_first() =~= path@.subrange(k + 1, path@.len() as int));
        let i = path[k] as usize;
        if i < cur.children.len() {
            cur = &cur.children[i];
        } else {
            return None;
        }
        k = k + 1;
    }
    Some(cur)
}

// ── decisions of the bus walk ────────────────────────────────

/// The longest walk down to a menu bar examines this many accessibles.
pub const MENUBAR_SEARCH_STEPS: u32 = 1024;

/// Role and name (when it could be read) of one child window of an application.
#[derive(Debug)]
pub struct FrameInfo {
    pub role: u32,
    pub name: Option<String>,
}

/// The frame to search for the menu: none when the application has at most one child
/// window; otherwise the first frame or window whose name is exactly `title` (none if none is).
pub open spec fn frame_choice(frames: Seq<FrameInfo>, title: Seq<char>) -> Option<int> {
    if frames.len() <= 1 {
        None
    } else {
        first_titled(frames, title, 0)
    }
}

/// The first index from `i` on of a frame or window named `title`.
pub open spec fn first_titled(frames: Seq<FrameInfo>, title: Seq<char>, i: int) -> Option<int>
    decreases frames.len() - i,
{
    if i < 0 || i >= frames.len() {
        None
    } else if (frames[i].role == ROLE_FRAME || frames[i].role == ROLE_WINDOW) && (frames[i].name matches Some(n)
        && n@ == title) {
        Some(i)
    } else {
        first_titled(frames, title, i + 1)
    }
}

/// Picks the child window of a multi-window application whose name is the focused window's
/// title (never guesses); `None` means: search from the application root.
pub fn choose_frame(frames: &[FrameInfo], title: &str) -> (r: Option<usize>)
    ensures
        match frame_choice(frames@, title@) {
            Some(i) => r == Some(i as usize),
            None => r is None,
        },
{
    if frames.len() <= 1 {
        return None;
    }
    let mut i: usize = 0;
    while i < frames.len()
        invariant
            1 < frames@.len(),
            i <= frames@.len(),
            frame_choice(frames@, title@) == first_titled(frames@, title@, i as int),
        decreases frames.len() - i,
    {
        let f = &frames[i];
        if f.role == ROLE_FRAME || f.role == ROLE_WINDOW {
            match &f.name {
                Some(n) => {
                    if str_eq(n.as_str(), title) {
                        return Some(i);
                    }
                },
                None => {},
            }
        }
        i = i + 1;
    }
    None
}

/// Depth-first search for the menu bar below a starting accessible, bounded to
/// `MENUBAR_SEARCH_STEPS` examined accessibles. The caller examines what `next` hands out
/// and passes back the children of each accessible that is not the menu bar.
#[derive(Debug)]
pub struct MenubarSearch {
    stack: Vec<AccessibleRef>,
    steps_left: u32,
}

impl View for MenubarSearch {
    type V = (Seq<AccessibleRef>, nat);

    closed spec fn view(&self) -> (Seq<AccessibleRef>, nat) {
        (self.stack@, self.steps_left as nat)
    }
}

/// Whether an accessible of this role is the menu bar.
pub fn is_menu_bar(role: u32) -> (r: bool)
    ensures
        r == (role == ROLE_MENU_BAR),
{
    role == ROLE_MENU_BAR
}

impl MenubarSearch {
    /// A search that starts at `root`.
    pub fn new(root: AccessibleRef) -> (s: MenubarSearch)
        ensures
            s@.0 == seq![root],
            s@.1 == MENUBAR_SEARCH_STEPS,
    {
        let mut stack: Vec<AccessibleRef> = Vec::new();
        stack.push(root);
        MenubarSearch { stack, steps_left: MENUBAR_SEARCH_STEPS }
    }

    /// The next accessible to examine (the most recently pushed one), or `None` once the
    /// stack is empty or the step budget is spent. Every call spends one step.
    pub fn next(&mut self) -> (r: Option<AccessibleRef>)
        ensures
            old(self)@.1 == 0 ==> r is None && final(self)@ == old(self)@,
            old(self)@.1 > 0 ==> final(self)@.1 == old(self)@.1 - 1 && (if old(self)@.0.len() == 0 {
                r is None && final(self)@.0 == old(self)@.0
            } else {
                r == Some(old(self)@.0.last()) && final(self)@.0 == old(self)@.0.drop_last()
            }),
    {
        if self.steps_left == 0 {
            return None;
        }
        self.steps_left = self.steps_left - 1;
        self.stack.pop()
    }

    /// Queues the children of an examined accessible so that the first child comes next.
    pub fn expand(&mut self, children: Vec<AccessibleRef>)
        ensures
            final(self)@.0 == old(self)@.0 + children@.reverse(),
            final(self)@.1 == old(self)@.1,
    {
        let mut children = children;
        let ghost orig = children@;
        let ghost base = self.stack@;
        while children.len() > 0
            invariant
                children@.len() <= orig.len(),
                self.stack@ == base + orig.subrange(children@.len() as int, orig.len() as int).reverse(),
                children@ == orig.subrange(0, children@.len() as int),
                self.steps_left == old(self).steps_left,
            decreases children@.len(),
        {
            let ghost before = children@;
            let c = children.pop().unwrap();
            let ghost k = children@.len();
            assert(c == orig[k as int]);
            assert(children@ =~= orig.subrange(0, k as int));
            assert(orig.subrange(k as int, orig.len() as int).reverse() =~= orig.subrange((k + 1) as int, orig.len() as int).reverse().push(orig[k as int]));
            self.stack.push(c);
        }
        assert(orig.subrange(0, orig.len() as int) =~= orig);
    }
}

/// Whether an action is a click: its name, ASCII-lower-cased, contains `click`.
pub fn action_is_click(name: &str) -> (r: bool)
    ensures
        r == contains_seq(ascii_lower_seq(name@), "click"@),
{
    let cs = chars_of(name);
    let mut low: Vec<char> = Vec::new();
    let mut i: usize = 0;
    while i < cs.len()
        invariant
            i <= cs@.len(),
            low@ == ascii_lower_seq(cs@.subrange(0, i as int)),
        decreases cs.len() - i,
    {
        low.push(ascii_lower_char(cs[i]));
        assert(low@ =~= ascii_lower_seq(cs@.subrange(0, i + 1)));
        i = i + 1;
    }
    assert(cs@.subrange(0, cs@.len() as int) =~= cs@);
    assert(low@ == ascii_lower_seq(name@));
    let needle = chars_of("click");
    contains_chars(&low, &needle)
}

/// The first action named like a click, if any.
pub open spec fn first_click(names: Seq<String>, i: int) -> Option<int>
    decreases names.len() - i,
{
    if i < 0 || i >= names.len() {
        None
    } else if contains_seq(ascii_lower_seq(names[i]@), "click"@) {
        Some(i)
    } else {
        first_click(names, i + 1)
    }
}

/// The number of actions of an accessible: the answer of `GetActionCount` when it came
/// and is positive, else the `NActions` property when it could be read, else 0.
pub fn action_count(method_reply: Option<i32>, nactions: Option<i32>) -> (n: i32)
    ensures
        n == (if method_reply matches Some(m) && m > 0 {
            method_reply->0
        } else {
            match nactions {
                Some(k) => k,
                None => 0,
            }
        }),
{
    match method_reply {
        Some(m) => {
            if m > 0 {
                return m;
            }
        },
        None => {},
    }
    match nactions {
        Some(k) => k,
        None => 0,
    }
}

/// The next step of a click on an accessible with `count` actions, given the names of
/// actions `0 .. names_read.len()` read so far.
#[derive(Debug, Clone, Copy, PartialEq, Eq, Structural)]
pub enum ClickStep {
    /// The accessible has no action: nothing is performed.
    NoAction,
    /// Read the name of this action next.
    ReadName(i32),
    /// Perform this action.
    Act(i32),
}

/// Decides the next step of a click: no action when `count <= 0`; the first action read so
/// far whose name contains `click` (ASCII case ignored); else the next name, while some are
/// unread; else action 0.
pub fn click_step(count: i32, names_read: &[String]) -> (r: ClickStep)
    ensures
        count <= 0 ==> r == ClickStep::NoAction,
        count > 0 ==> match first_click(names_read@, 0) {
            Some(i) => r == ClickStep::Act(i as i32),
            None => if names_read@.len() < count {
                r == ClickStep::ReadName(names_read@.len() as i32)
            } else {
                r == ClickStep::Act(0)
            },
        },
{
    if count <= 0 {
        return ClickStep::NoAction;
    }
    let mut i: usize = 0;
    while i < names_read.len()
        invariant
            count > 0,
            i <= names_read@.len(),
            first_click(names_read@, 0) == first_click(names_read@, i as int),
        decreases names_read.len() - i,
    {
        if action_is_click(names_read[i].as_str()) {
            return ClickStep::Act(i as i32);
        }
        i = i + 1;
    }
    if names_read.len() < count as usize {
        ClickStep::ReadName(names_read.len() as i32)
    } else {
        ClickStep::Act(0)
    }
}

/// Where a click at `path` acts: the bus coordinates of the node the path leads to, if the
/// path leads to a node and that node has coordinates.
pub fn click_target<'a>(root: &'a RawNode, path: &[u32]) -> (r: Option<&'a AccessibleRef>)
    ensures
        match locate_node(*root, path@) {
            Some(n) => match n.acc {
                Some(a) => r matches Some(x) && *x == a,
                None => r is None,
            },
            None => r is None,
        },
{
    match locate_by_path(root, path) {
        Some(n) => match &n.acc {
            Some(a) => Some(a),
            None => None,
        },
        None => None,
    }
}

// ── laws ─────────────────────────────────────────────────────

/// Ids come out in depth-first preorder without gaps or repeats.
pub proof fn lemma_at_ids_are_preorder(n: RawNode, p: Seq<u32>, c: nat)
    requires
        at_item(n, p, c).1 <= u32::MAX,
    ensures
        preorder_ids(at_item(n, p, c).0) == id_range(c, at_item(n, p, c).1),
    decreases node_size(n), 1nat,
{
    lemma_entries_smaller(n);
    let e = item_entries(n);
    lemma_at_kids_counter_grows(e, p, e.len(), c + 1);
    lemma_at_kids_ids_are_preorder(e, p, e.len(), c + 1);
    let k = at_item(n, p, c).1;
    assert(seq![(c + 1) as u32] =~= id_range(c, c + 1));
    lemma_id_range_concat(c, c + 1, k);
}

/// The preorder ids of the entries converted from the first `n` raws are `c + 1, ..., c'`.
pub proof fn lemma_at_kids_ids_are_preorder(raws: Seq<RawNode>, p: Seq<u32>, n: nat, c: nat)
    requires
        n <= raws.len(),
        at_kids(raws, p, n, c).1 <= u32::MAX,
    ensures
        preorder_ids_forest(at_kids(raws, p, n, c).0) == id_range(c, at_kids(raws, p, n, c).1),
    decreases nodes_size(raws.subrange(0, n as int)), 2nat,
{
    if n == 0 {
        assert(id_range(c, c) =~= Seq::<u32>::empty());
    } else {
        lemma_nodes_size_prefix(raws, n);
        lemma_at_kids_counter_grows(raws, p, n, c);
        lemma_at_kids_counter_grows(raws, p, (n - 1) as nat, c);
        let prev = at_kids(raws, p, (n - 1) as nat, c);
        lemma_at_kids_ids_are_preorder(raws, p, (n - 1) as nat, c);
        if node_visible(raws[n - 1]) {
            let q = p.push((n - 1) as u32);
            let it = at_item(raws[n - 1], q, prev.1);
            lemma_at_counter_grows(raws[n - 1], q, prev.1);
            lemma_at_ids_are_preorder(raws[n - 1], q, prev.1);
            assert(prev.0.push(it.0).subrange(0, prev.0.len() as int) =~= prev.0);
            lemma_id_range_concat(c, prev.1, it.1);
        }
    }
}

/// The menu bar tree's ids are `c + 1, ..., c'` in depth-first preorder: all distinct.
pub proof fn lemma_menu_tree_ids_are_preorder(root: RawNode, c: nat)
    requires
        at_tree(root, c).1 <= u32::MAX,
    ensures
        preorder_ids(at_tree(root, c).0) == id_range(c, at_tree(root, c).1),
{
    let cs = root.children@;
    lemma_at_kids_counter_grows(cs, Seq::empty(), cs.len(), c + 1);
    lemma_at_kids_ids_are_preorder(cs, Seq::empty(), cs.len(), c + 1);
    assert(seq![(c + 1) as u32] =~= id_range(c, c + 1));
    lemma_id_range_concat(c, c + 1, at_tree(root, c).1);
}

/// Starting the counter `d` higher raises every id of the converted tree by `d`.
pub proof fn lemma_at_shift(n: RawNode, p: Seq<u32>, c: nat, d: nat)
    requires
        at_item(n, p, c + d).1 <= u32::MAX,
    ensures
        at_item(n, p, c + d).0 == shift_node(at_item(n, p, c).0, d),
        at_item(n, p, c + d).1 == at_item(n, p, c).1 + d,
    decreases node_size(n), 1nat,
{
    lemma_entries_smaller(n);
    let e = item_entries(n);
    lemma_at_counter_grows(n, p, c + d);
    lemma_at_kids_counter_grows(e, p, e.len(), c + d + 1);
    lemma_at_kids_shift(e, p, e.len(), c + 1, d);
    lemma_shift_forest_len(at_kids(e, p, e.len(), c + 1).0, d);
}

/// Shifting the start of the counter shifts every id of the converted entries.
pub proof fn lemma_at_kids_shift(raws: Seq<RawNode>, p: Seq<u32>, n: nat, c: nat, d: nat)
    requires
        n <= raws.len(),
        at_kids(raws, p, n, c + d).1 <= u32::MAX,
    ensures
        at_kids(raws, p, n, c + d).0 == shift_forest(at_kids(raws, p, n, c).0, d),
        at_kids(raws, p, n, c + d).1 == at_kids(raws, p, n, c).1 + d,
    decreases nodes_size(raws.subrange(0, n as int)), 2nat,
{
    if n == 0 {
        assert(shift_forest(Seq::<MenuNode>::empty(), d) =~= Seq::<MenuNode>::empty());
    } else {
        lemma_nodes_size_prefix(raws, n);
        lemma_at_kids_counter_grows(raws, p, n, c + d);
        lemma_at_kids_shift(raws, p, (n - 1) as nat, c, d);
        let prev = at_kids(raws, p, (n - 1) as nat, c);
        if node_visible(raws[n - 1]) {
            let q = p.push((n - 1) as u32);
            lemma_at_shift(raws[n - 1], q, prev.1, d);
            let it = at_item(raws[n - 1], q, prev.1);
            assert(prev.0.push(it.0).subrange(0, prev.0.len() as int) =~= prev.0);
        }
    }
}

/// The children an "open" request builds from a node's raw children match that node's
/// children in the main tree (same entries and paths, ids lowered by the node's id), as long
/// as the node's entries are its raw children (a menu, or no nameless wrapper beneath it).
pub proof fn lemma_open_children_match_main_tree(t: RawNode, p: Seq<u32>, c: nat)
    requires
        item_entries(t) == t.children@,
        at_item(t, p, c).1 <= u32::MAX,
    ensures
        at_item(t, p, c).0.children == shift_forest(
            at_kids(t.children@, p, t.children@.len(), 0).0,
            at_item(t, p, c).0.id as nat,
        ),
{
    lemma_at_counter_grows(t, p, c);
    lemma_at_kids_shift(t.children@, p, t.children@.len(), 0, c + 1);
}

/// The same for the menu bar itself: its children in the main tree are what an "open"
/// of the empty path builds, ids raised by the root's id.
pub proof fn lemma_open_root_matches_main_tree(root: RawNode, c: nat)
    requires
        at_tree(root, c).1 <= u32::MAX,
    ensures
        at_tree(root, c).0.children == shift_forest(
            at_kids(root.children@, Seq::empty(), root.children@.len(), 0).0,
            at_tree(root, c).0.id as nat,
        ),
{
    lemma_at_kids_counter_grows(root.children@, Seq::empty(), root.children@.len(), c + 1);
    lemma_at_kids_shift(root.children@, Seq::empty(), root.children@.len(), 0, c + 1);
}

/// No nameless wrapper menu among the given children.
pub open spec fn no_wrapper_child(cs: Seq<RawNode>) -> bool {
    forall|i: int| 0 <= i < cs.len() ==> !is_wrapper(#[trigger] cs[i])
}

/// A tree in which no flattening happens (wrappers only under menus) and every child index
/// fits a path step.
pub open spec fn plain_node(r: RawNode) -> bool
    decreases r, 0nat,
{
    &&& r.children@.len() <= u32::MAX + 1
    &&& (submenu_like(r) || no_wrapper_child(r.children@))
    &&& plain_nodes(r.children@)
}

/// Every tree of the sequence satisfies `plain_node`.
pub open spec fn plain_nodes(s: Seq<RawNode>) -> bool
    decreases s, s.len(),
{
    if s.len() == 0 {
        true
    } else {
        plain_nodes(s.subrange(0, s.len() - 1)) && plain_node(s[s.len() - 1])
    }
}

/// Each tree of a plain sequence is plain.
pub proof fn lemma_plain_nodes_index(s: Seq<RawNode>, i: int)
    requires
        plain_nodes(s),
        0 <= i < s.len(),
    ensures
        plain_node(s[i]),
    decreases s.len(),
{
    if i < s.len() - 1 {
        let t = s.subrange(0, s.len() - 1);
        lemma_plain_nodes_index(t, i);
        assert(t[i] == s[i]);
    }
}

/// Without wrapper menus, the popup entries are the children themselves.
pub proof fn lemma_popup_without_wrappers(cs: Seq<RawNode>, n: nat)
    requires
        n <= cs.len(),
        no_wrapper_child(cs),
    ensures
        popup_children(cs, n) == cs.subrange(0, n as int),
    decreases n,
{
    if n == 0 {
        assert(cs.subrange(0, 0) =~= Seq::<RawNode>::empty());
    } else {
        lemma_popup_without_wrappers(cs, (n - 1) as nat);
        assert(!is_wrapper(cs[n - 1]));
        assert(cs.subrange(0, n - 1) + seq![cs[n - 1]] =~= cs.subrange(0, n as int));
    }
}

/// In a plain tree the entries of a node are its children.
pub proof fn lemma_plain_entries(r: RawNode)
    requires
        plain_node(r),
    ensures
        item_entries(r) == r.children@,
{
    if !submenu_like(r) {
        lemma_popup_without_wrappers(r.children@, r.children@.len());
        assert(r.children@.subrange(0, r.children@.len() as int) =~= r.children@);
    }
}

/// Following `p` and then child `k` is the same as following `p` extended by `k`.
pub proof fn lemma_locate_node_push(root: RawNode, p: Seq<u32>, k: u32)
    ensures
        locate_node(root, p.push(k)) == match locate_node(root, p) {
            Some(t) => if (k as int) < t.children@.len() { Some(t.children@[k as int]) } else { None },
            None => None,
        },
    decreases p.len(),
{
    if p.len() == 0 {
        assert(p.push(k).drop_first() =~= Seq::<u32>::empty());
        if (k as int) < root.children@.len() {
            assert(locate_node(root.children@[k as int], Seq::<u32>::empty()) == Some(root.children@[k as int]));
        }
    } else {
        assert(p.push(k).drop_first() =~= p.drop_first().push(k));
        assert(p.push(k)[0] == p[0]);
        if (p[0] as int) < root.children@.len() {
            lemma_locate_node_push(root.children@[p[0] as int], p.drop_first(), k);
        }
    }
}

/// Whatever a path leads to inside a plain tree is plain too.
pub proof fn lemma_locate_plain(root: RawNode, p: Seq<u32>)
    requires
        plain_node(root),
        locate_node(root, p) is Some,
    ensures
        plain_node(locate_node(root, p)->0),
    decreases p.len(),
{
    if p.len() > 0 {
        lemma_plain_nodes_index(root.children@, p[0] as int);
        lemma_locate_plain(root.children@[p[0] as int], p.drop_first());
    }
}

/// The entry `m` is the conversion of the accessible its path leads to, with its own id.
pub open spec fn at_node_located(root: RawNode, m: MenuNode) -> bool {
    &&& m.id >= 1
    &&& locate_node(root, m.path) matches Some(r)
    &&& at_item(r, m.path, (m.id - 1) as nat).0 == m
}

/// Every entry of the tree `m` is located (see `at_node_located`).
pub open spec fn at_tree_located(root: RawNode, m: MenuNode) -> bool
    decreases m, 0nat,
{
    at_node_located(root, m) && at_forest_located(root, m.children)
}

/// Every entry of every tree in `ms` is located.
pub open spec fn at_forest_located(root: RawNode, ms: Seq<MenuNode>) -> bool
    decreases ms, ms.len(),
{
    if ms.len() == 0 {
        true
    } else {
        at_forest_located(root, ms.subrange(0, ms.len() - 1)) && at_tree_located(root, ms[ms.len() - 1])
    }
}

/// A click goes where the user pointed: in a plain menu tree, every entry converted from
/// the node at `p` has a path that `locate_by_path` follows back to the node it came from.
pub proof fn lemma_at_converted_is_located(root: RawNode, p: Seq<u32>, c: nat)
    requires
        plain_node(root),
        locate_node(root, p) is Some,
        at_item(locate_node(root, p)->0, p, c).1 <= u32::MAX,
    ensures
        at_tree_located(root, at_item(locate_node(root, p)->0, p, c).0),
    decreases node_size(locate_node(root, p)->0), 1nat,
{
    let t = locate_node(root, p)->0;
    lemma_locate_plain(root, p);
    lemma_plain_entries(t);
    lemma_entries_smaller(t);
    lemma_at_counter_grows(t, p, c);
    lemma_at_kids_counter_grows(t.children@, p, t.children@.len(), c + 1);
    lemma_at_kids_located(root, p, t.children@.len(), c + 1);
}

/// The entries converted from the first `n` children of the node at `p` are located.
pub proof fn lemma_at_kids_located(root: RawNode, p: Seq<u32>, n: nat, c: nat)
    requires
        plain_node(root),
        locate_node(root, p) is Some,
        n <= (locate_node(root, p)->0).children@.len(),
        at_kids((locate_node(root, p)->0).children@, p, n, c).1 <= u32::MAX,
    ensures
        at_forest_located(root, at_kids((locate_node(root, p)->0).children@, p, n, c).0),
    decreases nodes_size((locate_node(root, p)->0).children@.subrange(0, n as int)), 2nat,
{
    let t = locate_node(root, p)->0;
    let raws = t.children@;
    lemma_locate_plain(root, p);
    if n > 0 {
        lemma_nodes_size_prefix(raws, n);
        lemma_at_kids_counter_grows(raws, p, n, c);
        lemma_at_kids_counter_grows(raws, p, (n - 1) as nat, c);
        let prev = at_kids(raws, p, (n - 1) as nat, c);
        lemma_at_kids_located(root, p, (n - 1) as nat, c);
        if node_visible(raws[n - 1]) {
            let q = p.push((n - 1) as u32);
            lemma_locate_node_push(root, p, (n - 1) as u32);
            assert(locate_node(root, q) == Some(raws[n - 1]));
            lemma_at_converted_is_located(root, q, prev.1);
            let it = at_item(raws[n - 1], q, prev.1);
            assert(prev.0.push(it.0).subrange(0, prev.0.len() as int) =~= prev.0);
        }
    }
}

/// For the menu bar: in a plain tree every entry below the root is located.
pub proof fn lemma_menu_tree_is_located(root: RawNode, c: nat)
    requires
        plain_node(root),
        at_tree(root, c).1 <= u32::MAX,
    ensures
        at_forest_located(root, at_tree(root, c).0.children),
{
    assert(locate_node(root, Seq::empty()) == Some(root));
    lemma_at_kids_located(root, Seq::empty(), root.children@.len(), c + 1);
}

/// Converting under `pp + p` is converting under `p` with `pp` put before every path; ids
/// and the counter are the same.
pub proof fn lemma_at_prefix(n: RawNode, p: Seq<u32>, pp: Seq<u32>, c: nat)
    ensures
        at_item(n, pp + p, c).0 == prefix_node(at_item(n, p, c).0, pp),
        at_item(n, pp + p, c).1 == at_item(n, p, c).1,
    decreases node_size(n), 1nat,
{
    lemma_entries_smaller(n);
    let e = item_entries(n);
    lemma_at_kids_prefix(e, p, pp, e.len(), c + 1);
}

/// Converting entries under `pp + p` is converting them under `p` with `pp` put before
/// every path.
pub proof fn lemma_at_kids_prefix(raws: Seq<RawNode>, p: Seq<u32>, pp: Seq<u32>, n: nat, c: nat)
    requires
        n <= raws.len(),
    ensures
        at_kids(raws, pp + p, n, c).0 == prefix_forest(at_kids(raws, p, n, c).0, pp),
        at_kids(raws, pp + p, n, c).1 == at_kids(raws, p, n, c).1,
    decreases nodes_size(raws.subrange(0, n as int)), 2nat,
{
    if n == 0 {
        assert(prefix_forest(Seq::<MenuNode>::empty(), pp) =~= Seq::<MenuNode>::empty());
    } else {
        lemma_nodes_size_prefix(raws, n);
        lemma_at_kids_prefix(raws, p, pp, (n - 1) as nat, c);
        let prev = at_kids(raws, p, (n - 1) as nat, c);
        if node_visible(raws[n - 1]) {
            let q = p.push((n - 1) as u32);
            assert((pp + p).push((n - 1) as u32) =~= pp + q);
            lemma_at_prefix(raws[n - 1], q, pp, prev.1);
            let it = at_item(raws[n - 1], q, prev.1);
            assert(prev.0.push(it.0).subrange(0, prev.0.len() as int) =~= prev.0);
        }
    }
}

/// The entries an "open" request builds under any parent path `pp` are the main tree's
/// children of a menu bar with those raw children, with ids lowered by one and `pp` put
/// before every path: same shape, labels, kinds and flags, the same visibility filter and
/// raw-index path slots.
pub proof fn lemma_open_entries_under_any_path(root: RawNode, pp: Seq<u32>)
    requires
        at_tree(root, 0).1 <= u32::MAX,
    ensures
        at_tree(root, 0).0.children == shift_forest(
            at_kids(root.children@, Seq::empty(), root.children@.len(), 0).0,
            1,
        ),
        at_kids(root.children@, pp, root.children@.len(), 0).0 == prefix_forest(
            at_kids(root.children@, Seq::empty(), root.children@.len(), 0).0,
            pp,
        ),
{
    lemma_at_kids_counter_grows(root.children@, Seq::empty(), root.children@.len(), 1);
    lemma_at_kids_shift(root.children@, Seq::empty(), root.children@.len(), 0, 1);
    lemma_at_kids_prefix(root.children@, Seq::empty(), pp, root.children@.len(), 0);
    assert(pp + Seq::<u32>::empty() =~= pp);
}

/// Every field of a converted accessible, from its own role, name and state: id `c + 1`,
/// the path it was found at, its name as label, no mnemonic or icon, shown; enabled exactly
/// when both the ENABLED and SENSITIVE bits are set, checked exactly when the CHECKED bit is.
/// The kind: a separator for role SEPARATOR; else a submenu for a menu or menu bar or when
/// some entry is shown below it; else a checkbox for role CHECK_MENU_ITEM, a radio for role
/// RADIO_MENU_ITEM, a plain item for any other role.
pub proof fn lemma_at_fields(n: RawNode, p: Seq<u32>, c: nat)
    requires
        c + 1 <= u32::MAX,
    ensures
        at_item(n, p, c).0.id == c + 1,
        at_item(n, p, c).0.path == p,
        at_item(n, p, c).0.label == n.name@,
        at_item(n, p, c).0.mnemonic is None,
        at_item(n, p, c).0.icon is None,
        at_item(n, p, c).0.visible,
        at_item(n, p, c).0.enabled == (n.state.0 & 0x100u32 != 0 && n.state.0 & 0x100_0000u32 != 0),
        at_item(n, p, c).0.checked == (n.state.0 & 0x10u32 != 0),
        n.role == 50 ==> at_item(n, p, c).0.item_type == MenuItemType::Separator,
        n.role != 50 && (n.role == 33 || n.role == 34 || at_item(n, p, c).0.children.len() > 0)
            ==> at_item(n, p, c).0.item_type == MenuItemType::Submenu,
        n.role != 50 && n.role != 33 && n.role != 34 && at_item(n, p, c).0.children.len() == 0
            ==> at_item(n, p, c).0.item_type == (if n.role == 8 {
            MenuItemType::Checkbox
        } else if n.role == 45 {
            MenuItemType::Radio
        } else {
            MenuItemType::Item
        }),
{
    assert(1u32 << 8u32 == 0x100u32) by (bit_vector);
    assert(1u32 << 24u32 == 0x100_0000u32) by (bit_vector);
    assert(1u32 << 4u32 == 0x10u32) by (bit_vector);
}

/// The root of a converted menu bar: id `c + 1`, empty label and path, a shown and enabled
/// submenu, never checked, no mnemonic or icon.
pub proof fn lemma_menu_bar_root_fields(root: RawNode, c: nat)
    requires
        c + 1 <= u32::MAX,
    ensures
        at_tree(root, c).0.id == c + 1,
        at_tree(root, c).0.label.len() == 0,
        at_tree(root, c).0.path.len() == 0,
        at_tree(root, c).0.item_type == MenuItemType::Submenu,
        at_tree(root, c).0.enabled,
        at_tree(root, c).0.visible,
        !at_tree(root, c).0.checked,
        at_tree(root, c).0.mnemonic is None,
        at_tree(root, c).0.icon is None,
{
}

/// The click-named action is the first whose ASCII-lower-cased name contains `click`: the
/// found index names a click and none before it does; none is found only when no name does.
pub proof fn lemma_first_click_is_first(names: Seq<String>, i: int)
    requires
        0 <= i <= names.len(),
    ensures
        first_click(names, i) matches Some(k) ==> i <= k < names.len()
            && contains_seq(ascii_lower_seq(names[k]@), "click"@)
            && forall|j: int| i <= j < k ==> !contains_seq(ascii_lower_seq(#[trigger] names[j]@), "click"@),
        first_click(names, i) is None ==> forall|j: int| i <= j < names.len()
            ==> !contains_seq(ascii_lower_seq(#[trigger] names[j]@), "click"@),
    decreases names.len() - i,
{
    if i < names.len() {
        lemma_first_click_is_first(names, i + 1);
    }
}

/// The chosen frame is the first frame or window named exactly like the focused window, and
/// only when the application has more than one child window.
pub proof fn lemma_frame_choice_is_first(frames: Seq<FrameInfo>, title: Seq<char>, i: int)
    requires
        0 <= i <= frames.len(),
    ensures
        first_titled(frames, title, i) matches Some(k) ==> i <= k < frames.len()
            && (frames[k].role == ROLE_FRAME || frames[k].role == ROLE_WINDOW)
            && frames[k].name is Some && frames[k].name->0@ == title,
        first_titled(frames, title, i) is None ==> forall|j: int| i <= j < frames.len()
            && (#[trigger] frames[j].role == ROLE_FRAME || frames[j].role == ROLE_WINDOW)
            ==> !(frames[j].name is Some && frames[j].name->0@ == title),
        frames.len() <= 1 ==> frame_choice(frames, title) is None,
    decreases frames.len() - i,
{
    if i < frames.len() {
        lemma_frame_choice_is_first(frames, title, i + 1);
    }
}

/// Each converted entry comes from a shown raw entry at its index.
proof fn lemma_at_kids_from(raws: Seq<RawNode>, p: Seq<u32>, n: nat, c: nat, j: int) -> (r: (int, nat))
    requires
        n <= raws.len(),
        0 <= j < at_kids(raws, p, n, c).0.len(),
    ensures
        0 <= r.0 < n,
        node_visible(raws[r.0]),
        at_kids(raws, p, n, c).0[j] == at_item(raws[r.0], p.push(r.0 as u32), r.1).0,
    decreases n,
{
    let prev = at_kids(raws, p, (n - 1) as nat, c);
    if node_visible(raws[n - 1]) && j == prev.0.len() {
        (n - 1, prev.1)
    } else {
        if node_visible(raws[n - 1]) {
            let it = at_item(raws[n - 1], p.push((n - 1) as u32), prev.1);
            assert(prev.0.push(it.0)[j] == prev.0[j]);
        }
        lemma_at_kids_from(raws, p, (n - 1) as nat, c, j)
    }
}

/// Only shown accessibles give entries: every entry below a menu bar comes from a child that
/// is a menu or menu bar, or has the VISIBLE or the SHOWING state bit, and its path is that
/// child's index.
pub proof fn lemma_menu_bar_entries_are_shown(root: RawNode, c: nat, j: int)
    requires
        0 <= j < at_tree(root, c).0.children.len(),
    ensures
        exists|k: int| 0 <= k < root.children@.len() && {
            let r = #[trigger] root.children@[k];
            &&& (r.role == 33 || r.role == 34 || r.state.0 & 0x4000_0000u32 != 0 || r.state.0 & 0x200_0000u32 != 0)
            &&& at_tree(root, c).0.children[j].path == seq![k as u32]
            &&& at_tree(root, c).0.children[j].label == r.name@
        },
{
    let raws = root.children@;
    let (k, ck) = lemma_at_kids_from(raws, Seq::empty(), raws.len(), c + 1, j);
    assert(1u32 << 30u32 == 0x4000_0000u32) by (bit_vector);
    assert(1u32 << 25u32 == 0x200_0000u32) by (bit_vector);
    assert(Seq::<u32>::empty().push(k as u32) =~= seq![k as u32]);
    let r = raws[k];
    assert(r.role == 33 || r.role == 34 || r.state.0 & 0x4000_0000u32 != 0 || r.state.0 & 0x200_0000u32 != 0);
}

} // verus!
