//! The `com.canonical.dbusmenu` menu model: property lookup, mnemonic stripping,
//! conversion of a raw layout tree into the unified menu model, and path lookup.
use vstd::prelude::*;
use crate::protocol::{entries, entries_forest, lemma_entries_forest_contains, lemma_entries_forest_member, prefix_node, prefix_forest, shift_node, shift_forest, lemma_shift_forest_len, preorder_ids, preorder_ids_forest, id_range, lemma_id_range_concat, opt_str_view, item_view, items_view, lemma_items_view_push, MenuItem, MenuItemType, MenuNode};
use crate::text::{char_is_alphanumeric, chars_of, copy_path, is_alphanumeric, push_char, str_eq, string_from_chars};

verus! {

/// A property value of a dbusmenu item, as far as the conversion reads it.
#[derive(Debug)]
pub enum PropValue {
    Str(String),
    Bool(bool),
    I32(i32),
    /// Any value of another wire type.
    Other,
}

/// A decoded `(ia{sv}av)` layout node: item id, property table and children.
#[derive(Debug)]
pub struct RawMenuItem {
    pub id: i32,
    pub props: Vec<(String, PropValue)>,
    pub children: Vec<RawMenuItem>,
}

/// The value stored under `key`: the first entry with that key.
pub open spec fn prop_lookup(props: Seq<(String, PropValue)>, key: Seq<char>) -> Option<PropValue>
    decreases props.len(),
{
    if props.len() == 0 {
        None
    } else if props[0].0@ == key {
        Some(props[0].1)
    } else {
        prop_lookup(props.drop_first(), key)
    }
}

/// A string property, or `default` when it is missing or not a string.
pub open spec fn prop_str_spec(props: Seq<(String, PropValue)>, key: Seq<char>, default: Seq<char>) -> Seq<char> {
    match prop_lookup(props, key) {
        Some(PropValue::Str(s)) => s@,
        _ => default,
    }
}

/// A boolean property, or `default` when it is missing or not a boolean.
pub open spec fn prop_bool_spec(props: Seq<(String, PropValue)>, key: Seq<char>, default: bool) -> bool {
    match prop_lookup(props, key) {
        Some(PropValue::Bool(b)) => b,
        _ => default,
    }
}

/// A 32-bit integer property, or `default` when it is missing or not such an integer.
pub open spec fn prop_i32_spec(props: Seq<(String, PropValue)>, key: Seq<char>, default: i32) -> i32 {
    match prop_lookup(props, key) {
        Some(PropValue::I32(v)) => v,
        _ => default,
    }
}

/// The value stored under `key` (see `prop_lookup`).
fn find_prop<'a>(props: &'a Vec<(String, PropValue)>, key: &str) -> (r: Option<&'a PropValue>)
    ensures
        match prop_lookup(props@, key@) {
            Some(v) => r matches Some(x) && *x == v,
            None => r is None,
        },
{
    let mut i: usize = 0;
    assert(props@.subrange(0, props@.len() as int) =~= props@);
    while i < props.len()
        invariant
            i <= props.len(),
            prop_lookup(props@, key@) == prop_lookup(props@.subrange(i as int, props@.len() as int), key@),
        decreases props.len() - i,
    {
        let ghost rest = props@.subrange(i as int, props@.len() as int);
        assert(rest.drop_first() =~= props@.subrange(i + 1, props@.len() as int));
        if str_eq(props[i].0.as_str(), key) {
            return Some(&props[i].1);
        }
        i = i + 1;
    }
    None
}

/// A string property, or `default`.
fn get_str(props: &Vec<(String, PropValue)>, key: &str, default: &str) -> (r: String)
    ensures
        r@ == prop_str_spec(props@, key@, default@),
{
    match find_prop(props, key) {
        Some(PropValue::Str(s)) => s.clone(),
        _ => default.to_owned(),
    }
}

/// A boolean property, or `default`.
fn get_bool(props: &Vec<(String, PropValue)>, key: &str, default: bool) -> (r: bool)
    ensures
        r == prop_bool_spec(props@, key@, default),
{
    match find_prop(props, key) {
        Some(PropValue::Bool(b)) => *b,
        _ => default,
    }
}

/// A 32-bit integer property, or `default`.
fn get_i32(props: &Vec<(String, PropValue)>, key: &str, default: i32) -> (r: i32)
    ensures
        r == prop_i32_spec(props@, key@, default),
{
    match find_prop(props, key) {
        Some(PropValue::I32(v)) => *v,
        _ => default,
    }
}

impl RawMenuItem {
    /// The string property `key`, or `default`.
    pub fn prop_str(&self, key: &str, default: &str) -> (r: String)
        ensures
            r@ == prop_str_spec(self.props@, key@, default@),
    {
        get_str(&self.props, key, default)
    }

    /// The boolean property `key`, or `default`.
    pub fn prop_bool(&self, key: &str, default: bool) -> (r: bool)
        ensures
            r == prop_bool_spec(self.props@, key@, default),
    {
        get_bool(&self.props, key, default)
    }

    /// The 32-bit integer property `key`, or `default`.
    pub fn prop_i32(&self, key: &str, default: i32) -> (r: i32)
        ensures
            r == prop_i32_spec(self.props@, key@, default),
    {
        get_i32(&self.props, key, default)
    }
}

// ── mnemonic markers ─────────────────────────────────────────

/// Mnemonic stripping of `s` from position `i` on: an underscore followed by an
/// alphanumeric character is dropped and that character is the mnemonic (the first one wins);
/// every other character, a lone underscore included, is kept.
pub open spec fn strip_from(s: Seq<char>, i: int) -> (Seq<char>, Option<char>)
    decreases s.len() - i,
{
    if i < 0 || i >= s.len() {
        (Seq::empty(), None)
    } else if s[i] == '_' && i + 1 < s.len() && char_is_alphanumeric(s[i + 1]) {
        let rest = strip_from(s, i + 2);
        (seq![s[i + 1]] + rest.0, Some(s[i + 1]))
    } else {
        let rest = strip_from(s, i + 1);
        (seq![s[i]] + rest.0, rest.1)
    }
}

/// The mnemonic as a one-character string.
pub open spec fn mnemonic_view(m: Option<char>) -> Option<Seq<char>> {
    match m {
        Some(c) => Some(seq![c]),
        None => None,
    }
}

/// Removes mnemonic markers: `"_File"` gives `("File", Some("F"))`; a label without
/// a marker comes back unchanged with no mnemonic.
pub fn strip_mnemonic(label: &str) -> (r: (String, Option<String>))
    ensures
        r.0@ == strip_from(label@, 0).0,
        opt_str_view(r.1) == mnemonic_view(strip_from(label@, 0).1),
{
    let cs = chars_of(label);
    let n = cs.len();
    let mut out: Vec<char> = Vec::new();
    let mut mnemonic: Option<char> = None;
    let mut i: usize = 0;
    while i < n
        invariant
            n == cs@.len(),
            cs@ == label@,
            i <= n,
            out@ + strip_from(cs@, i as int).0 == strip_from(cs@, 0).0,
            strip_from(cs@, 0).1 == (if mnemonic is Some { mnemonic } else { strip_from(cs@, i as int).1 }),
        decreases n - i,
    {
        let c = cs[i];
        if c == '_' && i + 1 < n && is_alphanumeric(cs[i + 1]) {
            let next = cs[i + 1];
            if mnemonic.is_none() {
                mnemonic = Some(next);
            }
            proof {
                let rest = strip_from(cs@, i + 2);
                assert(out@.push(next) + rest.0 =~= out@ + (seq![next] + rest.0));
            }
            out.push(next);
            i = i + 2;
        } else {
            proof {
                let rest = strip_from(cs@, i + 1);
                assert(out@.push(c) + rest.0 =~= out@ + (seq![c] + rest.0));
            }
            out.push(c);
            i = i + 1;
        }
    }
    assert(out@ + strip_from(cs@, i as int).0 =~= out@);
    let s = string_from_chars(&out);
    let m = match mnemonic {
        Some(c) => {
            let mut ms = String::new();
            push_char(&mut ms, c);
            assert(ms@ =~= seq![c]);
            Some(ms)
        },
        None => None,
    };
    (s, m)
}

/// Stripping from inside `r` after a prefix `a` is stripping `r` alone.
proof fn lemma_strip_from_after_prefix(a: Seq<char>, r: Seq<char>, i: int)
    requires
        0 <= i,
    ensures
        strip_from(a + r, a.len() + i) == strip_from(r, i),
    decreases r.len() - i,
{
    let s = a + r;
    if i < r.len() {
        assert(s[a.len() + i] == r[i]);
        if i + 1 < r.len() {
            assert(s[a.len() + i + 1] == r[i + 1]);
        }
        lemma_strip_from_after_prefix(a, r, i + 1);
        if i + 2 <= r.len() {
            lemma_strip_from_after_prefix(a, r, i + 2);
        }
    }
}

/// A label that starts with an underscore followed by an alphanumeric `x` loses that
/// underscore, keeps `x`, and has `x` as its mnemonic, whatever follows; a label that starts
/// with an underscore followed by anything else keeps the underscore.
pub proof fn lemma_strip_leading_marker(x: char, r: Seq<char>)
    ensures
        char_is_alphanumeric(x) ==> strip_from(seq!['_', x] + r, 0) == (seq![x] + strip_from(r, 0).0, Some(x)),
        !char_is_alphanumeric(x) ==> strip_from(seq!['_', x] + r, 0).0 == seq!['_'] + strip_from(seq![x] + r, 0).0,
{
    let s = seq!['_', x] + r;
    assert(s[0] == '_' && s[1] == x);
    lemma_strip_from_after_prefix(seq!['_', x], r, 0);
    lemma_strip_from_after_prefix(seq!['_'], seq![x] + r, 0);
    assert(seq!['_'] + (seq![x] + r) =~= s);
}

/// There is no mnemonic marker in `s`: no underscore is followed by an alphanumeric character.
pub open spec fn has_no_marker(s: Seq<char>) -> bool {
    forall|j: int| 0 <= j < s.len() - 1 ==> !(#[trigger] s[j] == '_' && char_is_alphanumeric(s[j + 1]))
}

/// Without markers, stripping from `i` on gives back the rest of `s` and no mnemonic.
proof fn lemma_strip_from_unmarked(s: Seq<char>, i: int)
    requires
        0 <= i <= s.len(),
        has_no_marker(s),
    ensures
        strip_from(s, i).0 == s.subrange(i, s.len() as int),
        strip_from(s, i).1 is None,
    decreases s.len() - i,
{
    if i < s.len() {
        lemma_strip_from_unmarked(s, i + 1);
        assert(seq![s[i]] + s.subrange(i + 1, s.len() as int) =~= s.subrange(i, s.len() as int));
    } else {
        assert(s.subrange(i, s.len() as int) =~= Seq::<char>::empty());
    }
}

/// A label without a mnemonic marker comes back unchanged, with no mnemonic.
pub proof fn lemma_strip_unmarked_label(s: Seq<char>)
    requires
        has_no_marker(s),
    ensures
        strip_from(s, 0).0 == s,
        strip_from(s, 0).1 is None,
{
    lemma_strip_from_unmarked(s, 0);
    assert(s.subrange(0, s.len() as int) =~= s);
}

// ── conversion into the unified menu model ─────────────────

/// A node is shown unless its `visible` property is `false`.
pub open spec fn raw_visible(r: RawMenuItem) -> bool {
    prop_bool_spec(r.props@, "visible"@, true)
}

/// The entry kind: separator, then submenu (declared, or with shown children),
/// then checkbox / radio by toggle type, else a plain item.
pub open spec fn kind_of(raw_type: Seq<char>, has_children: bool, toggle_type: Seq<char>) -> MenuItemType {
    if raw_type == "separator"@ {
        MenuItemType::Separator
    } else if raw_type == "submenu"@ || has_children {
        MenuItemType::Submenu
    } else if toggle_type == "checkmark"@ {
        MenuItemType::Checkbox
    } else if toggle_type == "radio"@ {
        MenuItemType::Radio
    } else {
        MenuItemType::Item
    }
}

/// Converts `raw` found at `path`, with the id counter at `c` before the call:
/// the node takes id `c + 1`, its shown children follow in depth-first order.
/// The second component is the counter after the whole subtree.
pub open spec fn convert_item(raw: RawMenuItem, path: Seq<u32>, c: nat) -> (MenuNode, nat)
    decreases raw, 0nat,
{
    let kids = convert_kids(raw.children@, path, raw.children@.len(), c + 1);
    let props = raw.props@;
    let stripped = strip_from(prop_str_spec(props, "label"@, ""@), 0);
    let icon = prop_str_spec(props, "icon-name"@, ""@);
    (
        MenuNode {
            id: (c + 1) as u32,
            label: stripped.0,
            mnemonic: mnemonic_view(stripped.1),
            item_type: kind_of(
                prop_str_spec(props, "type"@, "standard"@),
                kids.0.len() > 0,
                prop_str_spec(props, "toggle-type"@, ""@),
            ),
            enabled: prop_bool_spec(props, "enabled"@, true),
            visible: prop_bool_spec(props, "visible"@, true),
            checked: prop_i32_spec(props, "toggle-state"@, 0) == 1,
            icon: if icon.len() == 0 { None } else { Some(icon) },
            children: kids.0,
            path: path,
        },
        kids.1,
    )
}

/// Converts the shown nodes among the first `n` of `raws` (children of `path`), counter at `c`;
/// each keeps its original index as the last step of its path.
pub open spec fn convert_kids(raws: Seq<RawMenuItem>, path: Seq<u32>, n: nat, c: nat) -> (Seq<MenuNode>, nat)
    decreases raws, n,
{
    if n == 0 || n > raws.len() {
        (Seq::empty(), c)
    } else {
        let prev = convert_kids(raws, path, (n - 1) as nat, c);
        let r = raws[n - 1];
        if raw_visible(r) {
            let it = convert_item(r, path.push((n - 1) as u32), prev.1);
            (prev.0.push(it.0), it.1)
        } else {
            prev
        }
    }
}

/// The counter only grows: a converted node consumes at least its own id.
pub proof fn lemma_counter_grows(raw: RawMenuItem, path: Seq<u32>, c: nat)
    ensures
        convert_item(raw, path, c).1 >= c + 1,
    decreases raw, 0nat,
{
    lemma_kids_counter_grows(raw.children@, path, raw.children@.len(), c + 1);
}

/// The counter after `n` children is at least the counter after `m <= n` of them.
pub proof fn lemma_kids_counter_grows(raws: Seq<RawMenuItem>, path: Seq<u32>, n: nat, c: nat)
    requires
        n <= raws.len(),
    ensures
        convert_kids(raws, path, n, c).1 >= c,
        forall|m: nat| m <= n ==> #[trigger] convert_kids(raws, path, m, c).1 <= convert_kids(raws, path, n, c).1,
    decreases raws, n,
{
    if n > 0 {
        lemma_kids_counter_grows(raws, path, (n - 1) as nat, c);
        let prev = convert_kids(raws, path, (n - 1) as nat, c);
        if raw_visible(raws[n - 1]) {
            lemma_counter_grows(raws[n - 1], path.push((n - 1) as u32), prev.1);
        }
    }
}

/// Converts the shown nodes of `raws` under `parent_path`; `ids` is the id counter.
fn convert_children(raws: &[RawMenuItem], parent_path: &[u32], ids: &mut u32) -> (items: Vec<MenuItem>)
    requires
        convert_kids(raws@, parent_path@, raws@.len(), *old(ids) as nat).1 <= u32::MAX,
    ensures
        items_view(items@) == convert_kids(raws@, parent_path@, raws@.len(), *old(ids) as nat).0,
        *final(ids) as nat == convert_kids(raws@, parent_path@, raws@.len(), *old(ids) as nat).1,
    decreases raws@, 1nat,
{
    let ghost c0 = *ids as nat;
    let ghost total = raws@.len() as nat;
    let mut items: Vec<MenuItem> = Vec::new();
    let mut i: usize = 0;
    proof {
        lemma_kids_counter_grows(raws@, parent_path@, total, c0);
    }
    while i < raws.len()
        invariant
            i <= raws@.len(),
            total == raws@.len(),
            convert_kids(raws@, parent_path@, total, c0).1 <= u32::MAX,
            forall|m: nat| m <= total ==> #[trigger] convert_kids(raws@, parent_path@, m, c0).1
                <= convert_kids(raws@, parent_path@, total, c0).1,
            items_view(items@) == convert_kids(raws@, parent_path@, i as nat, c0).0,
            *ids as nat == convert_kids(raws@, parent_path@, i as nat, c0).1,
        decreases raws@.len() - i,
    {
        let raw = &raws[i];
        let ghost prev = convert_kids(raws@, parent_path@, i as nat, c0);
        assert(convert_kids(raws@, parent_path@, (i + 1) as nat, c0).1 <= u32::MAX);
        if get_bool(&raw.props, "visible", true) {
            let mut p = copy_path(parent_path);
            p.push(i as u32);
            let item = raw_to_menu_item(raw, p.as_slice(), ids);
            proof {
                lemma_items_view_push(items@, item);
            }
            items.push(item);
        }
        i = i + 1;
    }
    items
}

/// Converts a raw layout node found at `path` into the unified model. `ids` is the
/// depth-first id counter: the node takes the next id, then its shown children do.
/// Hidden children (`visible` = false) take no id, but the paths of the others keep
/// their original child indices.
pub fn raw_to_menu_item(raw: &RawMenuItem, path: &[u32], ids: &mut u32) -> (item: MenuItem)
    requires
        convert_item(*raw, path@, *old(ids) as nat).1 <= u32::MAX,
    ensures
        item_view(item) == convert_item(*raw, path@, *old(ids) as nat).0,
        *final(ids) as nat == convert_item(*raw, path@, *old(ids) as nat).1,
    decreases raw, 0nat,
{
    proof {
        lemma_counter_grows(*raw, path@, *ids as nat);
        lemma_kids_counter_grows(raw.children@, path@, raw.children@.len(), *ids as nat + 1);
    }
    *ids = *ids + 1;
    let id = *ids;
    let (label, mnemonic) = strip_mnemonic(get_str(&raw.props, "label", "").as_str());
    let raw_type = get_str(&raw.props, "type", "standard");
    let enabled = get_bool(&raw.props, "enabled", true);
    let visible = get_bool(&raw.props, "visible", true);
    let icon = get_str(&raw.props, "icon-name", "");
    let toggle_type = get_str(&raw.props, "toggle-type", "");
    let toggle_state = get_i32(&raw.props, "toggle-state", 0);

    let children = convert_children(raw.children.as_slice(), path, ids);

    let item_type = if str_eq(raw_type.as_str(), "separator") {
        MenuItemType::Separator
    } else if str_eq(raw_type.as_str(), "submenu") || children.len() > 0 {
        MenuItemType::Submenu
    } else if str_eq(toggle_type.as_str(), "checkmark") {
        MenuItemType::Checkbox
    } else if str_eq(toggle_type.as_str(), "radio") {
        MenuItemType::Radio
    } else {
        MenuItemType::Item
    };
    proof {
        crate::protocol::lemma_items_view_index(children@);
    }
    let icon_opt = if icon.as_str().is_empty() { None } else { Some(icon) };
    MenuItem {
        id,
        label,
        mnemonic,
        item_type,
        enabled,
        visible,
        checked: toggle_state == 1,
        icon: icon_opt,
        children,
        path: copy_path(path),
    }
}

/// The id counter after converting `raw` from `c`, or `None` once it would pass `u32::MAX`.
fn count_item(raw: &RawMenuItem, Ghost(path): Ghost<Seq<u32>>, c: u32) -> (r: Option<u32>)
    ensures
        match r {
            Some(k) => convert_item(*raw, path, c as nat).1 <= u32::MAX && k == convert_item(*raw, path, c as nat).1,
            None => convert_item(*raw, path, c as nat).1 > u32::MAX,
        },
    decreases raw, 0nat,
{
    proof {
        lemma_kids_counter_grows(raw.children@, path, raw.children@.len(), c as nat + 1);
    }
    if c == u32::MAX {
        return None;
    }
    count_kids(raw.children.as_slice(), Ghost(path), c + 1)
}

/// The id counter after converting the shown nodes of `raws` from `c`, or `None` once it
/// would pass `u32::MAX`.
fn count_kids(raws: &[RawMenuItem], Ghost(path): Ghost<Seq<u32>>, c: u32) -> (r: Option<u32>)
    ensures
        match r {
            Some(k) => convert_kids(raws@, path, raws@.len(), c as nat).1 <= u32::MAX
                && k == convert_kids(raws@, path, raws@.len(), c as nat).1,
            None => convert_kids(raws@, path, raws@.len(), c as nat).1 > u32::MAX,
        },
    decreases raws@, 1nat,
{
    let ghost total = raws@.len() as nat;
    proof {
        lemma_kids_counter_grows(raws@, path, total, c as nat);
    }
    let mut k: u32 = c;
    let mut i: usize = 0;
    while i < raws.len()
        invariant
            i <= raws@.len(),
            total == raws@.len(),
            forall|m: nat| m <= total ==> #[trigger] convert_kids(raws@, path, m, c as nat).1
                <= convert_kids(raws@, path, total, c as nat).1,
            k as nat == convert_kids(raws@, path, i as nat, c as nat).1,
        decreases raws@.len() - i,
    {
        let raw = &raws[i];
        if get_bool(&raw.props, "visible", true) {
            match count_item(raw, Ghost(path.push(i as u32)), k) {
                Some(k2) => {
                    k = k2;
                },
                None => {
                    assert(convert_kids(raws@, path, (i + 1) as nat, c as nat).1 > u32::MAX);
                    return None;
                },
            }
        }
        i = i + 1;
    }
    Some(k)
}

/// Whether converting `raw` at `path` with the counter at `start` stays within `u32` ids.
pub fn item_ids_fit(raw: &RawMenuItem, path: &[u32], start: u32) -> (r: bool)
    ensures
        r == (convert_item(*raw, path@, start as nat).1 <= u32::MAX),
{
    count_item(raw, Ghost(path@), start).is_some()
}

/// Whether converting the children `raws` under `parent_path` from a fresh counter stays
/// within `u32` ids.
pub fn children_ids_fit(raws: &[RawMenuItem], parent_path: &[u32]) -> (r: bool)
    ensures
        r == (convert_kids(raws@, parent_path@, raws@.len(), 0).1 <= u32::MAX),
{
    count_kids(raws, Ghost(parent_path@), 0).is_some()
}

/// Builds the reply to an "open" request from the direct children of the target node:
/// shaped as in the main tree, ids counted afresh from 1, paths = parent path + original index.
pub fn children_from_raw(raws: &[RawMenuItem], parent_path: &[u32]) -> (items: Vec<MenuItem>)
    requires
        convert_kids(raws@, parent_path@, raws@.len(), 0).1 <= u32::MAX,
    ensures
        items_view(items@) == convert_kids(raws@, parent_path@, raws@.len(), 0).0,
{
    let mut ids: u32 = 0;
    convert_children(raws, parent_path, &mut ids)
}

/// The node reached from `r` by following the child indices of `p` (hidden children count).
pub open spec fn locate_raw(r: RawMenuItem, p: Seq<u32>) -> Option<RawMenuItem>
    decreases p.len(),
{
    if p.len() == 0 {
        Some(r)
    } else if (p[0] as int) < r.children@.len() {
        locate_raw(r.children@[p[0] as int], p.drop_first())
    } else {
        None
    }
}

/// Follows a child-index path in the raw tree (indices count hidden items too).
pub fn locate_raw_by_path<'a>(root: &'a RawMenuItem, path: &[u32]) -> (r: Option<&'a RawMenuItem>)
    ensures
        match locate_raw(*root, path@) {
            Some(n) => r matches Some(x) && *x == n,
            None => r is None,
        },
{
    let mut cur = root;
    let mut k: usize = 0;
    assert(path@.subrange(0, path@.len() as int) =~= path@);
    while k < path.len()
        invariant
            k <= path@.len(),
            locate_raw(*root, path@) == locate_raw(*cur, path@.subrange(k as int, path@.len() as int)),
        decreases path.len() - k,
    {
        let ghost rest = path@.subrange(k as int, path@.len() as int);
        assert(rest.drop_first() =~= path@.subrange(k + 1, path@.len() as int));
        let i = path[k] as usize;
        if i < cur.children.len() {
            cur = &cur.children[i];
        } else {
            return None;
        }
        k = k + 1;
    }
    Some(cur)
}

// ── laws ─────────────────────────────────────────────────────

/// Following `p` and then child `k` is the same as following `p` extended by `k`.
pub proof fn lemma_locate_push(root: RawMenuItem, p: Seq<u32>, k: u32)
    ensures
        locate_raw(root, p.push(k)) == match locate_raw(root, p) {
            Some(t) => if (k as int) < t.children@.len() { Some(t.children@[k as int]) } else { None },
            None => None,
        },
    decreases p.len(),
{
    if p.len() == 0 {
        assert(p.push(k).drop_first() =~= Seq::<u32>::empty());
        if (k as int) < root.children@.len() {
            assert(locate_raw(root.children@[k as int], Seq::<u32>::empty()) == Some(root.children@[k as int]));
        }
    } else {
        assert(p.push(k).drop_first() =~= p.drop_first().push(k));
        assert(p.push(k)[0] == p[0]);
        if (p[0] as int) < root.children@.len() {
            lemma_locate_push(root.children@[p[0] as int], p.drop_first(), k);
        }
    }
}

/// Every node of the tree has at most 2^32 children, so each child index fits a path step.
pub open spec fn raw_fits(r: RawMenuItem) -> bool
    decreases r, 0nat,
{
    r.children@.len() <= u32::MAX + 1 && raws_fit(r.children@)
}

/// Every tree in the sequence satisfies `raw_fits`.
pub open spec fn raws_fit(s: Seq<RawMenuItem>) -> bool
    decreases s, s.len(),
{
    if s.len() == 0 {
        true
    } else {
        raws_fit(s.subrange(0, s.len() - 1)) && raw_fits(s[s.len() - 1])
    }
}

/// Each tree of a fitting sequence fits.
pub proof fn lemma_raws_fit_index(s: Seq<RawMenuItem>, i: int)
    requires
        raws_fit(s),
        0 <= i < s.len(),
    ensures
        raw_fits(s[i]),
    decreases s.len(),
{
    if i < s.len() - 1 {
        let t = s.subrange(0, s.len() - 1);
        lemma_raws_fit_index(t, i);
        assert(t[i] == s[i]);
    }
}

/// Whatever a path leads to inside a fitting tree fits too.
pub proof fn lemma_locate_fits(root: RawMenuItem, p: Seq<u32>)
    requires
        raw_fits(root),
        locate_raw(root, p) is Some,
    ensures
        raw_fits(locate_raw(root, p)->0),
    decreases p.len(),
{
    if p.len() > 0 {
        lemma_raws_fit_index(root.children@, p[0] as int);
        lemma_locate_fits(root.children@[p[0] as int], p.drop_first());
    }
}

/// The node `m` is the conversion of the raw node its path leads to, with its own id.
pub open spec fn node_located(root: RawMenuItem, m: MenuNode) -> bool {
    &&& m.id >= 1
    &&& locate_raw(root, m.path) matches Some(r)
    &&& convert_item(r, m.path, (m.id - 1) as nat).0 == m
}

/// Every node of the tree `m` is located (see `node_located`).
pub open spec fn tree_located(root: RawMenuItem, m: MenuNode) -> bool
    decreases m, 0nat,
{
    node_located(root, m) && forest_located(root, m.children)
}

/// Every node of every tree in `ms` is located.
pub open spec fn forest_located(root: RawMenuItem, ms: Seq<MenuNode>) -> bool
    decreases ms, ms.len(),
{
    if ms.len() == 0 {
        true
    } else {
        forest_located(root, ms.subrange(0, ms.len() - 1)) && tree_located(root, ms[ms.len() - 1])
    }
}

/// A click goes where the user pointed: in the tree converted from the node at `p`,
/// every entry's path leads, in the raw tree, to the very node that entry was converted from.
pub proof fn lemma_converted_tree_is_located(root: RawMenuItem, p: Seq<u32>, c: nat)
    requires
        raw_fits(root),
        locate_raw(root, p) is Some,
        convert_item(locate_raw(root, p)->0, p, c).1 <= u32::MAX,
    ensures
        tree_located(root, convert_item(locate_raw(root, p)->0, p, c).0),
    decreases locate_raw(root, p)->0, 1nat,
{
    let t = locate_raw(root, p)->0;
    lemma_counter_grows(t, p, c);
    lemma_kids_counter_grows(t.children@, p, t.children@.len(), c + 1);
    lemma_kids_located(root, p, t.children@.len(), c + 1);
}

/// The children converted from the first `n` raw children of the node at `p` are located.
pub proof fn lemma_kids_located(root: RawMenuItem, p: Seq<u32>, n: nat, c: nat)
    requires
        raw_fits(root),
        locate_raw(root, p) is Some,
        n <= (locate_raw(root, p)->0).children@.len(),
        convert_kids((locate_raw(root, p)->0).children@, p, n, c).1 <= u32::MAX,
    ensures
        forest_located(root, convert_kids((locate_raw(root, p)->0).children@, p, n, c).0),
    decreases (locate_raw(root, p)->0).children@, n,
{
    let t = locate_raw(root, p)->0;
    let raws = t.children@;
    lemma_locate_fits(root, p);
    if n > 0 {
        lemma_kids_counter_grows(raws, p, n, c);
        let prev = convert_kids(raws, p, (n - 1) as nat, c);
        lemma_kids_located(root, p, (n - 1) as nat, c);
        if raw_visible(raws[n - 1]) {
            let q = p.push((n - 1) as u32);
            lemma_locate_push(root, p, (n - 1) as u32);
            assert(locate_raw(root, q) == Some(raws[n - 1]));
            lemma_converted_tree_is_located(root, q, prev.1);
            let it = convert_item(raws[n - 1], q, prev.1);
            assert(prev.0.push(it.0).subrange(0, prev.0.len() as int) =~= prev.0);
        }
    }
}

/// Ids are handed out in depth-first preorder without gaps or repeats: the preorder ids of a
/// converted tree are exactly `c + 1, ..., c'` where `c'` is the counter afterwards.
pub proof fn lemma_converted_ids_are_preorder(raw: RawMenuItem, p: Seq<u32>, c: nat)
    requires
        convert_item(raw, p, c).1 <= u32::MAX,
    ensures
        preorder_ids(convert_item(raw, p, c).0) == id_range(c, convert_item(raw, p, c).1),
    decreases raw, 1nat,
{
    lemma_kids_counter_grows(raw.children@, p, raw.children@.len(), c + 1);
    lemma_kids_ids_are_preorder(raw.children@, p, raw.children@.len(), c + 1);
    let k = convert_item(raw, p, c).1;
    assert(seq![(c + 1) as u32] =~= id_range(c, c + 1));
    lemma_id_range_concat(c, c + 1, k);
}

/// The preorder ids of the children converted from the first `n` raws are `c + 1, ..., c'`.
pub proof fn lemma_kids_ids_are_preorder(raws: Seq<RawMenuItem>, p: Seq<u32>, n: nat, c: nat)
    requires
        n <= raws.len(),
        convert_kids(raws, p, n, c).1 <= u32::MAX,
    ensures
        preorder_ids_forest(convert_kids(raws, p, n, c).0) == id_range(c, convert_kids(raws, p, n, c).1),
    decreases raws, n,
{
    if n == 0 {
        assert(id_range(c, c) =~= Seq::<u32>::empty());
    } else {
        lemma_kids_counter_grows(raws, p, n, c);
        let prev = convert_kids(raws, p, (n - 1) as nat, c);
        lemma_kids_ids_are_preorder(raws, p, (n - 1) as nat, c);
        lemma_kids_counter_grows(raws, p, (n - 1) as nat, c);
        if raw_visible(raws[n - 1]) {
            let q = p.push((n - 1) as u32);
            let it = convert_item(raws[n - 1], q, prev.1);
            lemma_counter_grows(raws[n - 1], q, prev.1);
            lemma_converted_ids_are_preorder(raws[n - 1], q, prev.1);
            assert(prev.0.push(it.0).subrange(0, prev.0.len() as int) =~= prev.0);
            lemma_id_range_concat(c, prev.1, it.1);
        }
    }
}

/// Starting the counter `d` higher raises every id of the converted tree by `d` and
/// changes nothing else.
pub proof fn lemma_convert_shift(raw: RawMenuItem, p: Seq<u32>, c: nat, d: nat)
    requires
        convert_item(raw, p, c + d).1 <= u32::MAX,
    ensures
        convert_item(raw, p, c + d).0 == shift_node(convert_item(raw, p, c).0, d),
        convert_item(raw, p, c + d).1 == convert_item(raw, p, c).1 + d,
    decreases raw, 1nat,
{
    lemma_counter_grows(raw, p, c + d);
    lemma_kids_counter_grows(raw.children@, p, raw.children@.len(), c + d + 1);
    lemma_kids_shift(raw.children@, p, raw.children@.len(), c + 1, d);
    let a = convert_kids(raw.children@, p, raw.children@.len(), c + 1);
    lemma_shift_forest_len(a.0, d);
}

/// Shifting the start of the counter shifts every id of the converted children.
pub proof fn lemma_kids_shift(raws: Seq<RawMenuItem>, p: Seq<u32>, n: nat, c: nat, d: nat)
    requires
        n <= raws.len(),
        convert_kids(raws, p, n, c + d).1 <= u32::MAX,
    ensures
        convert_kids(raws, p, n, c + d).0 == shift_forest(convert_kids(raws, p, n, c).0, d),
        convert_kids(raws, p, n, c + d).1 == convert_kids(raws, p, n, c).1 + d,
    decreases raws, n,
{
    if n == 0 {
        assert(shift_forest(Seq::<MenuNode>::empty(), d) =~= Seq::<MenuNode>::empty());
    } else {
        lemma_kids_counter_grows(raws, p, n, c + d);
        lemma_kids_shift(raws, p, (n - 1) as nat, c, d);
        let prev = convert_kids(raws, p, (n - 1) as nat, c);
        if raw_visible(raws[n - 1]) {
            let q = p.push((n - 1) as u32);
            lemma_convert_shift(raws[n - 1], q, prev.1, d);
            let it = convert_item(raws[n - 1], q, prev.1);
            assert(prev.0.push(it.0).subrange(0, prev.0.len() as int) =~= prev.0);
        }
    }
}

/// An "open" reply for a node matches that node's children in the main tree: the same
/// entries with the same paths, their ids lowered by the id of the opened node.
pub proof fn lemma_open_reply_matches_main_tree(t: RawMenuItem, p: Seq<u32>, c: nat)
    requires
        convert_item(t, p, c).1 <= u32::MAX,
    ensures
        convert_item(t, p, c).0.children == shift_forest(
            convert_kids(t.children@, p, t.children@.len(), 0).0,
            convert_item(t, p, c).0.id as nat,
        ),
{
    lemma_counter_grows(t, p, c);
    lemma_kids_shift(t.children@, p, t.children@.len(), 0, c + 1);
}

/// Converting under `pp + p` is converting under `p` with `pp` put before every path; ids
/// and the counter are the same.
pub proof fn lemma_convert_prefix(raw: RawMenuItem, p: Seq<u32>, pp: Seq<u32>, c: nat)
    ensures
        convert_item(raw, pp + p, c).0 == prefix_node(convert_item(raw, p, c).0, pp),
        convert_item(raw, pp + p, c).1 == convert_item(raw, p, c).1,
    decreases raw, 1nat,
{
    lemma_kids_prefix(raw.children@, p, pp, raw.children@.len(), c + 1);
}

/// Converting children under `pp + p` is converting them under `p` with `pp` put before
/// every path.
pub proof fn lemma_kids_prefix(raws: Seq<RawMenuItem>, p: Seq<u32>, pp: Seq<u32>, n: nat, c: nat)
    ensures
        convert_kids(raws, pp + p, n, c).0 == prefix_forest(convert_kids(raws, p, n, c).0, pp),
        convert_kids(raws, pp + p, n, c).1 == convert_kids(raws, p, n, c).1,
    decreases raws, n,
{
    if n == 0 || n > raws.len() {
        assert(prefix_forest(Seq::<MenuNode>::empty(), pp) =~= Seq::<MenuNode>::empty());
    } else {
        lemma_kids_prefix(raws, p, pp, (n - 1) as nat, c);
        let prev = convert_kids(raws, p, (n - 1) as nat, c);
        if raw_visible(raws[n - 1]) {
            let q = p.push((n - 1) as u32);
            assert((pp + p).push((n - 1) as u32) =~= pp + q);
            lemma_convert_prefix(raws[n - 1], q, pp, prev.1);
            let it = convert_item(raws[n - 1], q, prev.1);
            assert(prev.0.push(it.0).subrange(0, prev.0.len() as int) =~= prev.0);
        }
    }
}

/// An "open" reply under any parent path `pp` is the main tree's children of a node with
/// those raw children, with ids lowered by one and `pp` put before every path: same shape,
/// labels, kinds and flags, hidden entries dropped, raw-index path slots kept.
pub proof fn lemma_open_reply_under_any_path(root: RawMenuItem, pp: Seq<u32>)
    requires
        convert_item(root, Seq::empty(), 0).1 <= u32::MAX,
    ensures
        convert_item(root, Seq::empty(), 0).0.children == shift_forest(
            convert_kids(root.children@, Seq::empty(), root.children@.len(), 0).0,
            1,
        ),
        convert_kids(root.children@, pp, root.children@.len(), 0).0 == prefix_forest(
            convert_kids(root.children@, Seq::empty(), root.children@.len(), 0).0,
            pp,
        ),
{
    lemma_kids_counter_grows(root.children@, Seq::empty(), root.children@.len(), 1);
    lemma_kids_shift(root.children@, Seq::empty(), root.children@.len(), 0, 1);
    lemma_kids_prefix(root.children@, Seq::empty(), pp, root.children@.len(), 0);
    assert(pp + Seq::<u32>::empty() =~= pp);
}

/// Following `q` from `r` steps only onto children that are shown.
pub open spec fn visible_chain(r: RawMenuItem, q: Seq<u32>) -> bool
    decreases q.len(),
{
    if q.len() == 0 {
        true
    } else if (q[0] as int) < r.children@.len() && raw_visible(r.children@[q[0] as int]) {
        visible_chain(r.children@[q[0] as int], q.drop_first())
    } else {
        false
    }
}

/// The shown raw child `k` among the first `n` has its converted entry among the converted
/// children, at some counter.
proof fn lemma_kids_has(raws: Seq<RawMenuItem>, p: Seq<u32>, n: nat, c: nat, k: int) -> (r: (int, nat))
    requires
        0 <= k < n <= raws.len(),
        raw_visible(raws[k]),
    ensures
        0 <= r.0 < convert_kids(raws, p, n, c).0.len(),
        convert_kids(raws, p, n, c).0[r.0] == convert_item(raws[k], p.push(k as u32), r.1).0,
    decreases n,
{
    let prev = convert_kids(raws, p, (n - 1) as nat, c);
    if k == n - 1 {
        (prev.0.len() as int, prev.1)
    } else {
        let r = lemma_kids_has(raws, p, (n - 1) as nat, c, k);
        if raw_visible(raws[n - 1]) {
            let it = convert_item(raws[n - 1], p.push((n - 1) as u32), prev.1);
            assert(prev.0.push(it.0)[r.0] == prev.0[r.0]);
        }
        r
    }
}

/// Each converted child is the conversion of a shown raw child, at its index.
proof fn lemma_kids_from(raws: Seq<RawMenuItem>, p: Seq<u32>, n: nat, c: nat, j: int) -> (r: (int, nat))
    requires
        n <= raws.len(),
        0 <= j < convert_kids(raws, p, n, c).0.len(),
    ensures
        0 <= r.0 < n,
        raw_visible(raws[r.0]),
        convert_kids(raws, p, n, c).0[j] == convert_item(raws[r.0], p.push(r.0 as u32), r.1).0,
    decreases n,
{
    let prev = convert_kids(raws, p, (n - 1) as nat, c);
    if raw_visible(raws[n - 1]) && j == prev.0.len() {
        (n - 1, prev.1)
    } else {
        if raw_visible(raws[n - 1]) {
            let it = convert_item(raws[n - 1], p.push((n - 1) as u32), prev.1);
            assert(prev.0.push(it.0)[j] == prev.0[j]);
        }
        lemma_kids_from(raws, p, (n - 1) as nat, c, j)
    }
}

/// A shown chain `q` below `raw` has an entry with path `p + q` in the converted tree.
proof fn lemma_chain_has_entry(raw: RawMenuItem, p: Seq<u32>, c: nat, q: Seq<u32>) -> (e: MenuNode)
    requires
        visible_chain(raw, q),
    ensures
        entries(convert_item(raw, p, c).0).contains(e),
        e.path == p + q,
    decreases q.len(),
{
    let t = convert_item(raw, p, c).0;
    if q.len() == 0 {
        assert(p + q =~= p);
        assert(entries(t)[0] == t);
        t
    } else {
        let k = q[0] as int;
        let raws = raw.children@;
        let (j, ck) = lemma_kids_has(raws, p, raws.len(), c + 1, k);
        let e = lemma_chain_has_entry(raws[k], p.push(k as u32), ck, q.drop_first());
        assert(p.push(k as u32) + q.drop_first() =~= p + q);
        lemma_entries_forest_contains(t.children, j, e);
        let f = entries_forest(t.children);
        let i = choose|i: int| 0 <= i < f.len() && f[i] == e;
        assert(entries(t)[i + 1] == e);
        e
    }
}

/// Every entry of the converted tree has a path `p + q` for a shown chain `q` below `raw`.
proof fn lemma_entry_has_chain(raw: RawMenuItem, p: Seq<u32>, c: nat, e: MenuNode) -> (q: Seq<u32>)
    requires
        raw_fits(raw),
        entries(convert_item(raw, p, c).0).contains(e),
    ensures
        visible_chain(raw, q),
        e.path == p + q,
    decreases raw, 2nat,
{
    let t = convert_item(raw, p, c).0;
    let i = choose|i: int| 0 <= i < entries(t).len() && entries(t)[i] == e;
    if i == 0 {
        assert(p + Seq::<u32>::empty() =~= p);
        Seq::empty()
    } else {
        let f = entries_forest(t.children);
        assert(f[i - 1] == e);
        let j = lemma_entries_forest_member(t.children, e);
        let raws = raw.children@;
        let (k, ck) = lemma_kids_from(raws, p, raws.len(), c + 1, j);
        lemma_raws_fit_index(raws, k);
        assert((k as u32) as int == k);
        let q1 = lemma_entry_has_chain(raws[k], p.push(k as u32), ck, e);
        let q = seq![k as u32] + q1;
        assert(q.drop_first() =~= q1);
        assert(p.push(k as u32) + q1 =~= p + q);
        q
    }
}

/// One entry per shown node: converting `raw` at `p` gives an entry with path `p + q` for
/// every chain `q` of shown children below `raw` (hidden nodes and all below them give
/// none), and every entry is of that form (child indices within `u32`).
pub proof fn lemma_converted_entries_are_shown_nodes(raw: RawMenuItem, p: Seq<u32>, c: nat)
    requires
        raw_fits(raw),
    ensures
        forall|q: Seq<u32>| #[trigger] visible_chain(raw, q) ==> exists|e: MenuNode|
            entries(convert_item(raw, p, c).0).contains(e) && e.path == p + q,
        forall|e: MenuNode| #[trigger] entries(convert_item(raw, p, c).0).contains(e) ==> exists|q: Seq<u32>|
            visible_chain(raw, q) && e.path == p + q,
{
    assert forall|q: Seq<u32>| #[trigger] visible_chain(raw, q) implies exists|e: MenuNode|
        entries(convert_item(raw, p, c).0).contains(e) && e.path == p + q by {
        let e = lemma_chain_has_entry(raw, p, c, q);
    }
    assert forall|e: MenuNode| #[trigger] entries(convert_item(raw, p, c).0).contains(e) implies exists|q: Seq<u32>|
        visible_chain(raw, q) && e.path == p + q by {
        let q = lemma_entry_has_chain(raw, p, c, e);
    }
}

/// Converted children keep the raw order: each path is the parent path plus a raw index
/// below `n`, and those indices strictly increase along the converted children.
pub proof fn lemma_kids_order(raws: Seq<RawMenuItem>, p: Seq<u32>, n: nat, c: nat)
    requires
        n <= raws.len(),
        raws.len() <= u32::MAX + 1,
    ensures
        forall|j: int| 0 <= j < convert_kids(raws, p, n, c).0.len() ==> {
            let path = #[trigger] convert_kids(raws, p, n, c).0[j].path;
            &&& path.len() == p.len() + 1
            &&& path.subrange(0, p.len() as int) == p
            &&& (path[p.len() as int] as int) < n
        },
        forall|j1: int, j2: int| 0 <= j1 < j2 < convert_kids(raws, p, n, c).0.len() ==>
            #[trigger] convert_kids(raws, p, n, c).0[j1].path[p.len() as int]
                < #[trigger] convert_kids(raws, p, n, c).0[j2].path[p.len() as int],
    decreases n,
{
    if n > 0 {
        lemma_kids_order(raws, p, (n - 1) as nat, c);
        let prev = convert_kids(raws, p, (n - 1) as nat, c);
        if raw_visible(raws[n - 1]) {
            let q = p.push((n - 1) as u32);
            let it = convert_item(raws[n - 1], q, prev.1);
            let l = prev.0.push(it.0);
            assert(q.subrange(0, p.len() as int) =~= p);
            assert forall|j: int| 0 <= j < prev.0.len() implies l[j] == prev.0[j] by {}
        }
    }
}

/// Two entries of a converted tree with the same path are the same entry.
proof fn lemma_same_path_same_entry(raw: RawMenuItem, p: Seq<u32>, c: nat, e1: MenuNode, e2: MenuNode)
    requires
        raw_fits(raw),
        entries(convert_item(raw, p, c).0).contains(e1),
        entries(convert_item(raw, p, c).0).contains(e2),
        e1.path == e2.path,
    ensures
        e1 == e2,
    decreases raw, 2nat,
{
    let t = convert_item(raw, p, c).0;
    let raws = raw.children@;
    let kids = convert_kids(raws, p, raws.len(), c + 1).0;
    let q1 = lemma_entry_has_chain(raw, p, c, e1);
    let q2 = lemma_entry_has_chain(raw, p, c, e2);
    assert((p + q1).len() == (p + q2).len());
    if q1.len() == 0 {
        // both are the root: every other entry has a longer path
        let i1 = choose|i: int| 0 <= i < entries(t).len() && entries(t)[i] == e1;
        let i2 = choose|i: int| 0 <= i < entries(t).len() && entries(t)[i] == e2;
        if i1 != 0 || i2 != 0 {
            let e = if i1 != 0 { e1 } else { e2 };
            let i = if i1 != 0 { i1 } else { i2 };
            let f = entries_forest(t.children);
            assert(f[i - 1] == e);
            let j = lemma_entries_forest_member(t.children, e);
            let (k, ck) = lemma_kids_from(raws, p, raws.len(), c + 1, j);
            lemma_raws_fit_index(raws, k);
            let qq = lemma_chain_len(raws[k], p.push(k as u32), ck, e);
            assert(false);
        }
    } else {
        let i1 = choose|i: int| 0 <= i < entries(t).len() && entries(t)[i] == e1;
        let i2 = choose|i: int| 0 <= i < entries(t).len() && entries(t)[i] == e2;
        let f = entries_forest(t.children);
        if i1 == 0 || i2 == 0 {
            let e = if i1 == 0 { e2 } else { e1 };
            let i = if i1 == 0 { i2 } else { i1 };
            if i == 0 {
                assert(e1 == e2);
            } else {
                assert(f[i - 1] == e);
                let j = lemma_entries_forest_member(t.children, e);
                let (k, ck) = lemma_kids_from(raws, p, raws.len(), c + 1, j);
                lemma_raws_fit_index(raws, k);
                let qq = lemma_chain_len(raws[k], p.push(k as u32), ck, e);
                assert(t.path == p);
                assert(false);
            }
        } else {
            assert(f[i1 - 1] == e1);
            assert(f[i2 - 1] == e2);
            let j1 = lemma_entries_forest_member(t.children, e1);
            let j2 = lemma_entries_forest_member(t.children, e2);
            let (k1, c1) = lemma_kids_from(raws, p, raws.len(), c + 1, j1);
            let (k2, c2) = lemma_kids_from(raws, p, raws.len(), c + 1, j2);
            lemma_raws_fit_index(raws, k1);
            lemma_raws_fit_index(raws, k2);
            let a1 = lemma_chain_len(raws[k1], p.push(k1 as u32), c1, e1);
            let a2 = lemma_chain_len(raws[k2], p.push(k2 as u32), c2, e2);
            lemma_kids_order(raws, p, raws.len(), c + 1);
            assert(e1.path[p.len() as int] == kids[j1].path[p.len() as int]);
            assert(e2.path[p.len() as int] == kids[j2].path[p.len() as int]);
            if j1 < j2 {
                assert(kids[j1].path[p.len() as int] < kids[j2].path[p.len() as int]);
                assert(false);
            } else if j2 < j1 {
                assert(kids[j2].path[p.len() as int] < kids[j1].path[p.len() as int]);
                assert(false);
            }
            lemma_same_path_same_entry(raws[k1], p.push(k1 as u32), c1, e1, e2);
        }
    }
}

/// Every entry of the tree converted at `p` has a path that extends `p`, strictly unless it
/// is the root.
proof fn lemma_chain_len(raw: RawMenuItem, p: Seq<u32>, c: nat, e: MenuNode) -> (q: Seq<u32>)
    requires
        raw_fits(raw),
        entries(convert_item(raw, p, c).0).contains(e),
    ensures
        e.path == p + q,
        e.path.len() >= p.len(),
        e.path.subrange(0, p.len() as int) == p,
    decreases raw, 3nat,
{
    let q = lemma_entry_has_chain(raw, p, c, e);
    assert((p + q).subrange(0, p.len() as int) =~= p);
    q
}

/// Exactly one entry per shown node: no two entries of a converted tree share a path.
pub proof fn lemma_converted_paths_are_unique(raw: RawMenuItem, p: Seq<u32>, c: nat)
    requires
        raw_fits(raw),
    ensures
        forall|e1: MenuNode, e2: MenuNode| #[trigger] entries(convert_item(raw, p, c).0).contains(e1)
            && #[trigger] entries(convert_item(raw, p, c).0).contains(e2) && e1.path == e2.path ==> e1 == e2,
{
    assert forall|e1: MenuNode, e2: MenuNode| #[trigger] entries(convert_item(raw, p, c).0).contains(e1)
        && #[trigger] entries(convert_item(raw, p, c).0).contains(e2) && e1.path == e2.path implies e1 == e2 by {
        lemma_same_path_same_entry(raw, p, c, e1, e2);
    }
}

// ── what each converted field is ─────────────────────────────

/// Property lookup finds the first entry with the key: if entry `i` has the key and none
/// before it does, the lookup gives entry `i`'s value; if no entry has the key, nothing.
pub proof fn lemma_prop_lookup_first(props: Seq<(String, PropValue)>, key: Seq<char>)
    ensures
        forall|i: int| 0 <= i < props.len() && #[trigger] props[i].0@ == key
            && (forall|j: int| 0 <= j < i ==> props[j].0@ != key) ==> prop_lookup(props, key) == Some(props[i].1),
        (forall|i: int| 0 <= i < props.len() ==> props[i].0@ != key) ==> prop_lookup(props, key) is None,
    decreases props.len(),
{
    if props.len() > 0 {
        let t = props.drop_first();
        lemma_prop_lookup_first(t, key);
        assert forall|i: int| 0 <= i < props.len() && #[trigger] props[i].0@ == key
            && (forall|j: int| 0 <= j < i ==> props[j].0@ != key) implies prop_lookup(props, key) == Some(props[i].1) by {
            if i > 0 {
                assert(props[0].0@ != key);
                assert(t[i - 1] == props[i]);
                assert forall|j: int| 0 <= j < i - 1 implies t[j].0@ != key by {
                    assert(t[j] == props[j + 1]);
                }
            }
        }
        if forall|i: int| 0 <= i < props.len() ==> props[i].0@ != key {
            assert(props[0].0@ != key);
            assert forall|i: int| 0 <= i < t.len() implies t[i].0@ != key by {
                assert(t[i] == props[i + 1]);
            }
        }
    }
}

/// The string under `key`, when the first entry with that key holds a string.
pub open spec fn string_prop(props: Seq<(String, PropValue)>, key: Seq<char>) -> Option<Seq<char>> {
    match prop_lookup(props, key) {
        Some(PropValue::Str(v)) => Some(v@),
        _ => None,
    }
}

/// The boolean under `key`, when the first entry with that key holds a boolean.
pub open spec fn bool_prop(props: Seq<(String, PropValue)>, key: Seq<char>) -> Option<bool> {
    match prop_lookup(props, key) {
        Some(PropValue::Bool(b)) => Some(b),
        _ => None,
    }
}

/// Every field of a converted dbusmenu entry, from the item's own properties (the first
/// entry of each key): id `c + 1`; the path it was found at; `enabled` and `visible` are the
/// boolean `enabled` / `visible` properties, true when absent or not booleans; `checked`
/// holds exactly when `toggle-state` is the integer 1; the icon is a non-empty string
/// `icon-name`; the label is the `label` string with its mnemonic marker removed. The kind
/// is a separator for type `separator`; else a submenu for type `submenu` or when some
/// child is shown; else a checkbox for toggle type `checkmark`, a radio for `radio`, else a
/// plain item.
pub proof fn lemma_converted_fields(raw: RawMenuItem, p: Seq<u32>, c: nat)
    requires
        c + 1 <= u32::MAX,
    ensures
        convert_item(raw, p, c).0.id == c + 1,
        convert_item(raw, p, c).0.path == p,
        convert_item(raw, p, c).0.enabled == (match bool_prop(raw.props@, "enabled"@) {
            Some(b) => b,
            None => true,
        }),
        convert_item(raw, p, c).0.visible == (match bool_prop(raw.props@, "visible"@) {
            Some(b) => b,
            None => true,
        }),
        convert_item(raw, p, c).0.checked == (prop_lookup(raw.props@, "toggle-state"@) == Some(PropValue::I32(1))),
        convert_item(raw, p, c).0.icon == (match string_prop(raw.props@, "icon-name"@) {
            Some(v) => if v.len() > 0 { Some(v) } else { None },
            None => None,
        }),
        convert_item(raw, p, c).0.label == strip_from(
            match string_prop(raw.props@, "label"@) {
                Some(v) => v,
                None => Seq::empty(),
            },
            0,
        ).0,
        string_prop(raw.props@, "type"@) == Some("separator"@) ==> convert_item(raw, p, c).0.item_type
            == MenuItemType::Separator,
        string_prop(raw.props@, "type"@) != Some("separator"@) && (string_prop(raw.props@, "type"@) == Some(
            "submenu"@,
        ) || convert_item(raw, p, c).0.children.len() > 0) ==> convert_item(raw, p, c).0.item_type
            == MenuItemType::Submenu,
        string_prop(raw.props@, "type"@) != Some("separator"@) && string_prop(raw.props@, "type"@) != Some(
            "submenu"@,
        ) && convert_item(raw, p, c).0.children.len() == 0 ==> convert_item(raw, p, c).0.item_type == (
        if string_prop(raw.props@, "toggle-type"@) == Some("checkmark"@) {
            MenuItemType::Checkbox
        } else if string_prop(raw.props@, "toggle-type"@) == Some("radio"@) {
            MenuItemType::Radio
        } else {
            MenuItemType::Item
        }),
{
    reveal_strlit("separator");
    reveal_strlit("submenu");
    reveal_strlit("standard");
    reveal_strlit("checkmark");
    reveal_strlit("radio");
    reveal_strlit("");
    assert("standard"@.len() != "separator"@.len());
    assert("standard"@.len() != "submenu"@.len());
    assert(""@.len() != "checkmark"@.len());
    assert(""@.len() != "radio"@.len());
    let props = raw.props@;
    assert(prop_str_spec(props, "type"@, "standard"@) == (match string_prop(props, "type"@) {
        Some(v) => v,
        None => "standard"@,
    }));
    assert(prop_str_spec(props, "toggle-type"@, ""@) == (match string_prop(props, "toggle-type"@) {
        Some(v) => v,
        None => ""@,
    }));
}

/// The `enabled` flag of a converted entry is the item's boolean `enabled` property, true
/// when absent or not a boolean.
pub proof fn lemma_converted_fields_enabled(raw: RawMenuItem, p: Seq<u32>, c: nat)
    ensures
        convert_item(raw, p, c).0.enabled == (match bool_prop(raw.props@, "enabled"@) {
            Some(b) => b,
            None => true,
        }),
{
}

/// The children of a converted entry come from shown raw children, each with the path of
/// its raw index: child `j` is the conversion of a raw child `k` whose `visible` property is
/// not `false`, at path `p + [k]`, so its `enabled` flag is that child's own `enabled`
/// property (true when absent).
pub proof fn lemma_converted_child_fields(raw: RawMenuItem, p: Seq<u32>, c: nat, j: int)
    requires
        convert_item(raw, p, c).1 <= u32::MAX,
        0 <= j < convert_item(raw, p, c).0.children.len(),
    ensures
        exists|k: int| 0 <= k < raw.children@.len() && {
            let r = #[trigger] raw.children@[k];
            let e = convert_item(raw, p, c).0.children[j];
            &&& prop_lookup(r.props@, "visible"@) != Some(PropValue::Bool(false))
            &&& e.path == p.push(k as u32)
            &&& e.enabled == (match bool_prop(r.props@, "enabled"@) {
                Some(b) => b,
                None => true,
            })
        },
{
    let raws = raw.children@;
    let (k, ck) = lemma_kids_from(raws, p, raws.len(), c + 1, j);
    lemma_converted_fields_enabled(raws[k], p.push(k as u32), ck);
    assert(prop_lookup(raws[k].props@, "visible"@) != Some(PropValue::Bool(false)));
}

} // verus!
