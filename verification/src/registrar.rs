//! The `com.canonical.AppMenu.Registrar` bookkeeping: window id → registration, with an
//! index by process id for focus matching.
use vstd::prelude::*;
use std::collections::HashMap;
use vstd::std_specs::cmp::PartialEqSpecImpl;
use vstd::std_specs::hash::{spec_hash_map_iter, spec_keys_iter};
use vstd::std_specs::iter::IteratorSpec;
use crate::text::{
    after_char, all_digits, ascii_lower, ascii_lower_char, ascii_lower_seq, before_char, chars_of, contains_chars,
    contains_seq, parse_u32, parse_u32_spec, split_once_char, string_from_chars, trim_chars, trimmed,
};

verus! {

broadcast use vstd::std_specs::hash::group_hash_axioms;

/// One registration: window id → (caller's unique bus name, menu object path, caller's pid).
#[derive(Debug, Clone)]
pub struct MenuRegistration {
    pub xid: u32,
    pub bus: String,
    pub path: String,
    pub pid: u32,
}

impl MenuRegistration {
    /// A field-by-field copy.
    pub fn duplicate(&self) -> (r: MenuRegistration)
        ensures
            r == *self,
    {
        MenuRegistration { xid: self.xid, bus: self.bus.clone(), path: self.path.clone(), pid: self.pid }
    }
}

impl PartialEq for MenuRegistration {
    fn eq(&self, other: &Self) -> (r: bool) {
        self.xid == other.xid && self.bus == other.bus && self.path == other.path && self.pid == other.pid
    }
}

impl PartialEqSpecImpl for MenuRegistration {
    open spec fn obeys_eq_spec() -> bool {
        true
    }

    open spec fn eq_spec(&self, other: &MenuRegistration) -> bool {
        self.xid == other.xid && self.bus@ == other.bus@ && self.path@ == other.path@ && self.pid == other.pid
    }
}

/// The registrar's two indexes as mathematical maps.
#[verifier::ext_equal]
pub struct RegModel {
    pub by_xid: Map<u32, MenuRegistration>,
    pub by_pid: Map<u32, Seq<MenuRegistration>>,
}

/// Registration bookkeeping: the canonical map by window id, and per process id the list
/// of that process's registrations in the order they were made.
#[derive(Debug)]
pub struct RegistrarState {
    by_xid: HashMap<u32, MenuRegistration>,
    by_pid: HashMap<u32, Vec<MenuRegistration>>,
}

/// `s` without the registrations of window `xid`, order kept.
pub open spec fn remove_xid(s: Seq<MenuRegistration>, xid: u32) -> Seq<MenuRegistration>
    decreases s.len(),
{
    if s.len() == 0 {
        Seq::empty()
    } else {
        remove_xid(s.drop_last(), xid) + (if s.last().xid == xid { Seq::empty() } else { seq![s.last()] })
    }
}

/// The pid index with window `xid` taken out of the list of `pid` (the list goes when empty).
pub open spec fn drop_from_pid(by_pid: Map<u32, Seq<MenuRegistration>>, pid: u32, xid: u32) -> Map<u32, Seq<MenuRegistration>> {
    if by_pid.contains_key(pid) {
        let kept = remove_xid(by_pid[pid], xid);
        if kept.len() > 0 {
            by_pid.insert(pid, kept)
        } else {
            by_pid.remove(pid)
        }
    } else {
        by_pid
    }
}

/// The pid index with `reg` appended to the list of its process.
pub open spec fn push_to_pid(by_pid: Map<u32, Seq<MenuRegistration>>, reg: MenuRegistration) -> Map<u32, Seq<MenuRegistration>> {
    by_pid.insert(reg.pid, (if by_pid.contains_key(reg.pid) { by_pid[reg.pid] } else { Seq::empty() }).push(reg))
}

/// Registering `reg`: it replaces any registration of the same window, whose pid slot is
/// cleared first, and is appended to its process's list.
pub open spec fn register_model(m: RegModel, reg: MenuRegistration) -> RegModel {
    RegModel {
        by_xid: m.by_xid.insert(reg.xid, reg),
        by_pid: push_to_pid(
            if m.by_xid.contains_key(reg.xid) {
                drop_from_pid(m.by_pid, m.by_xid[reg.xid].pid, reg.xid)
            } else {
                m.by_pid
            },
            reg,
        ),
    }
}

/// Unregistering window `xid`: gone from both indexes; nothing changes for an unknown window.
pub open spec fn unregister_model(m: RegModel, xid: u32) -> RegModel {
    if m.by_xid.contains_key(xid) {
        RegModel { by_xid: m.by_xid.remove(xid), by_pid: drop_from_pid(m.by_pid, m.by_xid[xid].pid, xid) }
    } else {
        m
    }
}

/// No two entries of the list belong to the same window.
pub open spec fn distinct_xids(s: Seq<MenuRegistration>) -> bool {
    forall|j: int, k: int| 0 <= j < k < s.len() ==> #[trigger] s[j].xid != #[trigger] s[k].xid
}

/// The two indexes are finite and agree: the lists hold as many entries as there are
/// windows; every registration is filed under its window id
/// and in the non-empty list of its process, where no window appears twice; every listed
/// registration is the current one of its window and belongs to that process.
pub open spec fn model_wf(m: RegModel) -> bool {
    &&& m.by_xid.dom().finite()
    &&& m.by_pid.dom().finite()
    &&& pid_total(m.by_pid) == m.by_xid.dom().len()
    &&& forall|x: u32| #[trigger] m.by_xid.contains_key(x) ==> m.by_xid[x].xid == x
    &&& forall|x: u32| #[trigger] m.by_xid.contains_key(x) ==> m.by_pid.contains_key(m.by_xid[x].pid)
        && m.by_pid[m.by_xid[x].pid].contains(m.by_xid[x])
    &&& forall|p: u32| #[trigger] m.by_pid.contains_key(p) ==> m.by_pid[p].len() > 0 && distinct_xids(m.by_pid[p])
    &&& forall|p: u32, r: MenuRegistration| m.by_pid.contains_key(p) && #[trigger] m.by_pid[p].contains(r)
        ==> r.pid == p && m.by_xid.contains_key(r.xid) && m.by_xid[r.xid] == r
}

impl View for RegistrarState {
    type V = RegModel;

    closed spec fn view(&self) -> RegModel {
        RegModel { by_xid: self.by_xid@, by_pid: pid_model(self.by_pid@) }
    }
}

/// The process index as a map to sequences.
pub open spec fn pid_model(by_pid: Map<u32, Vec<MenuRegistration>>) -> Map<u32, Seq<MenuRegistration>> {
    by_pid.map_values(|v: Vec<MenuRegistration>| v@)
}

/// Drops window `xid` from the list of process `pid`, and the list itself once empty.
fn remove_from_pid(by_pid: &mut HashMap<u32, Vec<MenuRegistration>>, pid: u32, xid: u32)
    ensures
        pid_model(final(by_pid)@) == drop_from_pid(pid_model(old(by_pid)@), pid, xid),
{
    match by_pid.remove(&pid) {
        Some(list) => {
            let mut kept: Vec<MenuRegistration> = Vec::new();
            let mut i: usize = 0;
            while i < list.len()
                invariant
                    i <= list@.len(),
                    kept@ == remove_xid(list@.subrange(0, i as int), xid),
                decreases list@.len() - i,
            {
                assert(list@.subrange(0, i + 1).drop_last() =~= list@.subrange(0, i as int));
                if list[i].xid != xid {
                    kept.push(list[i].duplicate());
                    assert(kept@ =~= remove_xid(list@.subrange(0, i + 1), xid));
                } else {
                    assert(kept@ =~= remove_xid(list@.subrange(0, i + 1), xid));
                }
                i = i + 1;
            }
            assert(list@.subrange(0, list@.len() as int) =~= list@);
            if kept.len() > 0 {
                by_pid.insert(pid, kept);
            }
            assert(pid_model(by_pid@) =~= drop_from_pid(pid_model(old(by_pid)@), pid, xid));
        },
        None => {
            assert(pid_model(by_pid@) =~= pid_model(old(by_pid)@));
        },
    }
}

impl RegistrarState {
    /// Both indexes hold what `model_wf` asks; every registrar value does.
    #[verifier::type_invariant]
    spec fn indexes_agree(self) -> bool {
        model_wf(self@)
    }

    /// Both indexes hold what `model_wf` asks.
    pub open spec fn wf(&self) -> bool {
        model_wf(self@)
    }

    /// An empty registrar.
    pub fn new() -> (s: RegistrarState)
        ensures
            s.wf(),
            s@.by_xid == Map::<u32, MenuRegistration>::empty(),
            s@.by_pid == Map::<u32, Seq<MenuRegistration>>::empty(),
    {
        let by_xid: HashMap<u32, MenuRegistration> = HashMap::new();
        let by_pid: HashMap<u32, Vec<MenuRegistration>> = HashMap::new();
        assert(pid_model(by_pid@) =~= Map::<u32, Seq<MenuRegistration>>::empty());
        RegistrarState { by_xid, by_pid }
    }

    /// Records `xid` → (`bus`, `path`, `pid`), replacing (and returning) any earlier
    /// registration of the same window; that one's pid slot is cleared first.
    pub fn register(&mut self, xid: u32, bus: String, path: String, pid: u32) -> (old_reg: Option<MenuRegistration>)
        ensures
            final(self).wf(),
            final(self)@ == register_model(old(self)@, MenuRegistration { xid, bus, path, pid }),
            old_reg == (if old(self)@.by_xid.contains_key(xid) { Some(old(self)@.by_xid[xid]) } else { None }),
    {
        proof {
            use_type_invariant(&*self);
        }
        let ghost m0 = self@;
        let mut taken = RegistrarState::new();
        proof {
            use_type_invariant(&taken);
        }
        std::mem::swap(self, &mut taken);
        let RegistrarState { mut by_xid, mut by_pid } = taken;
        assert(by_xid@ == m0.by_xid && pid_model(by_pid@) == m0.by_pid);
        let reg = MenuRegistration { xid, bus, path, pid };
        let old_reg = by_xid.insert(xid, reg.duplicate());
        match &old_reg {
            Some(o) => {
                remove_from_pid(&mut by_pid, o.pid, xid);
            },
            None => {},
        }
        let ghost m1 = pid_model(by_pid@);
        let mut list = match by_pid.remove(&pid) {
            Some(v) => v,
            None => Vec::new(),
        };
        list.push(reg);
        by_pid.insert(pid, list);
        proof {
            assert(pid_model(by_pid@) =~= push_to_pid(m1, MenuRegistration { xid, bus, path, pid }));
            lemma_register_wf(m0, MenuRegistration { xid, bus, path, pid });
        }
        *self = RegistrarState { by_xid, by_pid };
        old_reg
    }

    /// Removes the registration of `xid` from both indexes and returns it; `None` for an
    /// unknown window.
    pub fn unregister(&mut self, xid: u32) -> (old_reg: Option<MenuRegistration>)
        ensures
            final(self).wf(),
            final(self)@ == unregister_model(old(self)@, xid),
            old_reg == (if old(self)@.by_xid.contains_key(xid) { Some(old(self)@.by_xid[xid]) } else { None }),
    {
        proof {
            use_type_invariant(&*self);
        }
        let ghost m0 = self@;
        let mut taken = RegistrarState::new();
        proof {
            use_type_invariant(&taken);
        }
        std::mem::swap(self, &mut taken);
        let RegistrarState { mut by_xid, mut by_pid } = taken;
        assert(by_xid@ == m0.by_xid && pid_model(by_pid@) == m0.by_pid);
        let r = match by_xid.remove(&xid) {
            Some(o) => {
                remove_from_pid(&mut by_pid, o.pid, xid);
                proof {
                    lemma_unregister_wf(m0, xid);
                }
                Some(o)
            },
            None => {
                assert(by_xid@ =~= m0.by_xid);
                None
            },
        };
        *self = RegistrarState { by_xid, by_pid };
        r
    }
}

/// Result of one step of focus matching.
#[derive(Debug)]
pub enum FocusLookup {
    /// A registration matched.
    Found(MenuRegistration),
    /// No process match; the X11 windows of the application's class are needed.
    NeedX11Windows,
    /// No window match either; the `comm` names of these registered processes are needed.
    NeedComms(Vec<u32>),
    /// Nothing matches.
    NotFound,
}

/// The first registration listed for process `pid`.
pub open spec fn pid_match(m: RegModel, pid: u32) -> Option<MenuRegistration> {
    if m.by_pid.contains_key(pid) && m.by_pid[pid].len() > 0 {
        Some(m.by_pid[pid][0])
    } else {
        None
    }
}

/// The registration of the first window of `xids` that is registered.
pub open spec fn xid_match(m: RegModel, xids: Seq<u32>) -> Option<MenuRegistration>
    decreases xids.len(),
{
    if xids.len() == 0 {
        None
    } else if m.by_xid.contains_key(xids[0]) {
        Some(m.by_xid[xids[0]])
    } else {
        xid_match(m, xids.drop_first())
    }
}

/// The first listed registration of the first process in `comms` whose `comm` name, white
/// space trimmed, equals `app_id` up to ASCII case and that has registrations.
pub open spec fn comm_match(m: RegModel, comms: Seq<(u32, String)>, app_id: Seq<char>) -> Option<MenuRegistration>
    decreases comms.len(),
{
    if comms.len() == 0 {
        None
    } else if ascii_lower_seq(trimmed(comms[0].1@)) == ascii_lower_seq(app_id) && pid_match(m, comms[0].0) is Some {
        pid_match(m, comms[0].0)
    } else {
        comm_match(m, comms.drop_first(), app_id)
    }
}

/// Whether two character sequences are equal up to ASCII case.
fn eq_ignore_ascii_case(av: &Vec<char>, bv: &Vec<char>) -> (r: bool)
    ensures
        r == (ascii_lower_seq(av@) == ascii_lower_seq(bv@)),
{
    let ghost a = av@;
    let ghost b = bv@;
    if av.len() != bv.len() {
        assert(ascii_lower_seq(av@).len() != ascii_lower_seq(bv@).len());
        return false;
    }
    let mut i: usize = 0;
    while i < av.len()
        invariant
            av.len() == bv.len(),
            i <= av.len(),
            forall|j: int| 0 <= j < i ==> ascii_lower(av@[j]) == ascii_lower(bv@[j]),
        decreases av.len() - i,
    {
        if ascii_lower_char(av[i]) != ascii_lower_char(bv[i]) {
            assert(ascii_lower_seq(av@)[i as int] != ascii_lower_seq(bv@)[i as int]);
            return false;
        }
        i = i + 1;
    }
    assert(ascii_lower_seq(av@) =~= ascii_lower_seq(bv@));
    true
}

impl RegistrarState {
    /// The registration of window `xid`, if any.
    pub fn lookup_xid(&self, xid: u32) -> (r: Option<&MenuRegistration>)
        ensures
            match r {
                Some(x) => self@.by_xid.contains_key(xid) && *x == self@.by_xid[xid],
                None => !self@.by_xid.contains_key(xid),
            },
    {
        self.by_xid.get(&xid)
    }

    /// The registrations of process `pid`, oldest first (empty when it has none).
    pub fn registrations_for_pid(&self, pid: u32) -> (r: &[MenuRegistration])
        ensures
            r@ == (if self@.by_pid.contains_key(pid) { self@.by_pid[pid] } else { Seq::empty() }),
    {
        match self.by_pid.get(&pid) {
            Some(v) => v.as_slice(),
            None => &[],
        }
    }

    /// Whether no window is registered.
    pub fn is_empty(&self) -> (r: bool)
        ensures
            r == (self@.by_xid.dom().len() == 0),
    {
        self.by_xid.len() == 0
    }

    /// The number of registered windows.
    pub fn len(&self) -> (r: usize)
        ensures
            r == self@.by_xid.dom().len(),
    {
        self.by_xid.len()
    }

    /// The processes that have registrations, each once.
    pub fn pids(&self) -> (r: Vec<u32>)
        ensures
            r@.no_duplicates(),
            r@.to_set() == self@.by_pid.dom(),
    {
        let mut out: Vec<u32> = Vec::new();
        let ghost ks = spec_keys_iter(&self.by_pid).remaining();
        for k in it: self.by_pid.keys()
            invariant
                it.seq() == ks,
                out@ == it.seq().take(it.index()).unref(),
        {
            out.push(*k);
            assert(out@ =~= it.seq().take(it.index() + 1).unref());
        }
        assert(out@ =~= ks.unref());
        out
    }
}

impl RegistrarState {
    /// The first registration of process `pid` (see `pid_match`).
    fn first_for_pid(&self, pid: u32) -> (r: Option<MenuRegistration>)
        ensures
            r == pid_match(self@, pid),
    {
        match self.by_pid.get(&pid) {
            Some(v) => {
                if v.len() > 0 {
                    Some(v[0].duplicate())
                } else {
                    None
                }
            },
            None => None,
        }
    }

    /// The registration of the first registered window of `xids` (see `xid_match`).
    fn first_registered_xid(&self, xids: &[u32]) -> (r: Option<MenuRegistration>)
        ensures
            r == xid_match(self@, xids@),
    {
        let mut i: usize = 0;
        assert(xids@.subrange(0, xids@.len() as int) =~= xids@);
        while i < xids.len()
            invariant
                i <= xids@.len(),
                xid_match(self@, xids@) == xid_match(self@, xids@.subrange(i as int, xids@.len() as int)),
            decreases xids.len() - i,
        {
            let ghost rest = xids@.subrange(i as int, xids@.len() as int);
            assert(rest.drop_first() =~= xids@.subrange(i + 1, xids@.len() as int));
            match self.by_xid.get(&xids[i]) {
                Some(r) => {
                    return Some(r.duplicate());
                },
                None => {},
            }
            i = i + 1;
        }
        None
    }

    /// The match by process name (see `comm_match`).
    fn first_comm_match(&self, comms: &[(u32, String)], app_id: &str) -> (r: Option<MenuRegistration>)
        ensures
            r == comm_match(self@, comms@, app_id@),
    {
        let app = chars_of(app_id);
        let mut i: usize = 0;
        assert(comms@.subrange(0, comms@.len() as int) =~= comms@);
        while i < comms.len()
            invariant
                i <= comms@.len(),
                app@ == app_id@,
                comm_match(self@, comms@, app_id@) == comm_match(self@, comms@.subrange(i as int, comms@.len() as int), app_id@),
            decreases comms.len() - i,
        {
            let ghost rest = comms@.subrange(i as int, comms@.len() as int);
            assert(rest.drop_first() =~= comms@.subrange(i + 1, comms@.len() as int));
            let comm = trim_chars(&chars_of(comms[i].1.as_str()));
            if eq_ignore_ascii_case(&comm, &app) {
                let r = self.first_for_pid(comms[i].0);
                if r.is_some() {
                    return r;
                }
            }
            i = i + 1;
        }
        None
    }

    /// One step of matching the focused window (process `pid`, application id `app_id`) to a
    /// registration, in this order: the first registration of `pid`; else, for a non-empty
    /// `app_id`, the first window among `x11_windows` (the X11 windows of that class) that
    /// is registered; else the first process in `comms` (pid and contents of its `comm`
    /// file) whose trimmed name equals `app_id` up to ASCII case. A missing input is asked for.
    pub fn find_for_focus(
        &self,
        pid: u32,
        app_id: &str,
        x11_windows: Option<&[u32]>,
        comms: Option<&[(u32, String)]>,
    ) -> (r: FocusLookup)
        ensures
            match pid_match(self@, pid) {
                Some(reg) => r == FocusLookup::Found(reg),
                None => if app_id@.len() == 0 {
                    r is NotFound
                } else {
                    match x11_windows {
                        None => r is NeedX11Windows,
                        Some(xs) => match xid_match(self@, xs@) {
                            Some(reg) => r == FocusLookup::Found(reg),
                            None => match comms {
                                None => r matches FocusLookup::NeedComms(ps) && ps@.no_duplicates()
                                    && ps@.to_set() == self@.by_pid.dom(),
                                Some(cs) => match comm_match(self@, cs@, app_id@) {
                                    Some(reg) => r == FocusLookup::Found(reg),
                                    None => r is NotFound,
                                },
                            },
                        },
                    }
                },
            },
    {
        match self.first_for_pid(pid) {
            Some(reg) => {
                return FocusLookup::Found(reg);
            },
            None => {},
        }
        if app_id.is_empty() {
            return FocusLookup::NotFound;
        }
        let xs = match x11_windows {
            Some(xs) => xs,
            None => {
                return FocusLookup::NeedX11Windows;
            },
        };
        match self.first_registered_xid(xs) {
            Some(reg) => {
                return FocusLookup::Found(reg);
            },
            None => {},
        }
        match comms {
            None => FocusLookup::NeedComms(self.pids()),
            Some(cs) => match self.first_comm_match(cs, app_id) {
                Some(reg) => FocusLookup::Found(reg),
                None => FocusLookup::NotFound,
            },
        }
    }

    /// Every registration, each once (the order is that of the map).
    pub fn registrations(&self) -> (r: Vec<MenuRegistration>)
        ensures
            r@.len() == self@.by_xid.dom().len(),
            forall|x: u32| #[trigger] self@.by_xid.contains_key(x) ==> r@.contains(self@.by_xid[x]),
            forall|i: int| 0 <= i < r@.len() ==> self@.by_xid.contains_key(#[trigger] r@[i].xid)
                && self@.by_xid[r@[i].xid] == r@[i],
    {
        proof {
            use_type_invariant(self);
        }
        let mut out: Vec<MenuRegistration> = Vec::new();
        let ghost vs = IteratorSpec::remaining(&spec_hash_map_iter(&self.by_xid));
        for kv in it: self.by_xid.iter()
            invariant
                it.seq() == vs,
                out@.len() == it.index(),
                forall|j: int| 0 <= j < it.index() ==> out@[j] == *(#[trigger] it.seq()[j]).1,
        {
            let (_, r) = kv;
            out.push(r.duplicate());
        }
        proof {
            assert forall|x: u32| #[trigger] self@.by_xid.contains_key(x) implies out@.contains(self@.by_xid[x]) by {
                assert(vs.contains((&x, &self.by_xid@[x])));
                let j = choose|j: int| 0 <= j < vs.len() && vs[j] == (&x, &self.by_xid@[x]);
                assert(out@[j] == self@.by_xid[x]);
            }
            assert forall|i: int| 0 <= i < out@.len() implies self@.by_xid.contains_key(#[trigger] out@[i].xid)
                && self@.by_xid[out@[i].xid] == out@[i] by {
                assert(self.by_xid@.contains_key(*vs[i].0));
            }
        }
        out
    }
}

// ── X11 helpers ──────────────────────────────────────────────

/// The display named on an `xwayland-satellite` command line (NUL-separated arguments):
/// the second argument, when the first contains `xwayland-satellite` and the second starts
/// with `:`.
pub open spec fn satellite_display(cmdline: Seq<char>) -> Option<Seq<char>> {
    let exe = before_char(cmdline, '\0');
    match after_char(cmdline, '\0') {
        Some(rest) => {
            let disp = before_char(rest, '\0');
            if contains_seq(exe, "xwayland-satellite"@) && disp.len() > 0 && disp[0] == ':' {
                Some(disp)
            } else {
                None
            }
        },
        None => None,
    }
}

/// The X display an `xwayland-satellite` process serves, from its `/proc/<pid>/cmdline`.
pub fn display_from_cmdline(cmdline: &str) -> (r: Option<String>)
    ensures
        match satellite_display(cmdline@) {
            Some(d) => r matches Some(s) && s@ == d,
            None => r is None,
        },
{
    let cs = chars_of(cmdline);
    let (exe, rest) = split_once_char(&cs, '\0');
    match rest {
        Some(rest) => {
            let (disp, _) = split_once_char(&rest, '\0');
            let sat = chars_of("xwayland-satellite");
            if contains_chars(&exe, &sat) && disp.len() > 0 && disp[0] == ':' {
                Some(string_from_chars(&disp))
            } else {
                None
            }
        },
        None => None,
    }
}

/// Whether a `/proc` entry name is made of ASCII digits only (a process directory).
pub fn is_pid_dir_name(name: &str) -> (r: bool)
    ensures
        r == all_digits(name@),
{
    let cs = chars_of(name);
    let mut i: usize = 0;
    while i < cs.len()
        invariant
            cs@ == name@,
            i <= cs@.len(),
            forall|j: int| 0 <= j < i ==> '0' <= #[trigger] cs@[j] && cs@[j] <= '9',
        decreases cs.len() - i,
    {
        if cs[i] < '0' || cs[i] > '9' {
            return false;
        }
        i = i + 1;
    }
    true
}

/// The window ids in `xdotool search` output: each line, trimmed, that parses as a `u32`.
pub open spec fn xids_of_output(s: Seq<char>) -> Seq<u32>
    decreases s.len(),
{
    let line = before_char(s, '\n');
    let head: Seq<u32> = match parse_u32_spec(trimmed(line)) {
        Some(v) => seq![v],
        None => Seq::empty(),
    };
    match after_char(s, '\n') {
        Some(rest) => {
            proof {
                crate::text::lemma_after_char_shorter(s, '\n');
            }
            head + xids_of_output(rest)
        },
        None => head,
    }
}

/// Parses the window ids printed by `xdotool search`, one per line.
pub fn xids_from_output(out: &str) -> (r: Vec<u32>)
    ensures
        r@ == xids_of_output(out@),
{
    let mut rest = chars_of(out);
    let mut ids: Vec<u32> = Vec::new();
    loop
        invariant
            ids@ + xids_of_output(rest@) == xids_of_output(out@),
        decreases rest@.len(),
    {
        let (line, tail) = split_once_char(&rest, '\n');
        let parsed = parse_u32(&trim_chars(&line));
        let ghost before = ids@;
        match parsed {
            Some(v) => {
                ids.push(v);
            },
            None => {},
        }
        match tail {
            Some(t) => {
                proof {
                    crate::text::lemma_after_char_shorter(rest@, '\n');
                    let head: Seq<u32> = match parse_u32_spec(trimmed(line@)) {
                        Some(v) => seq![v],
                        None => Seq::empty(),
                    };
                    assert(ids@ == before + head);
                    assert(before + (head + xids_of_output(t@)) =~= ids@ + xids_of_output(t@));
                }
                rest = t;
            },
            None => {
                proof {
                    let head: Seq<u32> = match parse_u32_spec(trimmed(line@)) {
                        Some(v) => seq![v],
                        None => Seq::empty(),
                    };
                    assert(ids@ =~= before + head);
                }
                return ids;
            },
        }
    }
}

impl Default for RegistrarState {
    /// An empty registrar.
    fn default() -> (s: RegistrarState)
        ensures
            s.wf(),
            s@.by_xid == Map::<u32, MenuRegistration>::empty(),
            s@.by_pid == Map::<u32, Seq<MenuRegistration>>::empty(),
    {
        RegistrarState::new()
    }
}

/// Removing a window from a list keeps exactly the other entries, in order.
pub proof fn lemma_remove_xid(s: Seq<MenuRegistration>, xid: u32)
    ensures
        forall|r: MenuRegistration| #[trigger] remove_xid(s, xid).contains(r) <==> (s.contains(r) && r.xid != xid),
        remove_xid(s, xid).len() <= s.len(),
    decreases s.len(),
{
    if s.len() > 0 {
        lemma_remove_xid(s.drop_last(), xid);
        let a = remove_xid(s.drop_last(), xid);
        let b: Seq<MenuRegistration> = if s.last().xid == xid { Seq::empty() } else { seq![s.last()] };
        assert forall|r: MenuRegistration| #[trigger] remove_xid(s, xid).contains(r) <==> (s.contains(r) && r.xid != xid) by {
            if (a + b).contains(r) {
                let k = choose|k: int| 0 <= k < (a + b).len() && (a + b)[k] == r;
                if k < a.len() {
                    assert(a[k] == r);
                    assert(a.contains(r));
                    let k2 = choose|k2: int| 0 <= k2 < s.drop_last().len() && s.drop_last()[k2] == r;
                    assert(s[k2] == r);
                } else {
                    assert(b[k - a.len()] == r);
                    assert(s[s.len() - 1] == r);
                }
            }
            if s.contains(r) && r.xid != xid {
                let k = choose|k: int| 0 <= k < s.len() && s[k] == r;
                if k < s.len() - 1 {
                    assert(s.drop_last()[k] == r);
                    assert(a.contains(r));
                    let k2 = choose|k2: int| 0 <= k2 < a.len() && a[k2] == r;
                    assert((a + b)[k2] == r);
                } else {
                    assert((a + b)[a.len() as int] == r);
                }
            }
        }
    }
}

/// Removing a window keeps a list free of repeated windows.
pub proof fn lemma_remove_xid_distinct(s: Seq<MenuRegistration>, xid: u32)
    requires
        distinct_xids(s),
    ensures
        distinct_xids(remove_xid(s, xid)),
    decreases s.len(),
{
    if s.len() > 0 {
        let d = s.drop_last();
        assert(distinct_xids(d)) by {
            assert forall|j: int, k: int| 0 <= j < k < d.len() implies #[trigger] d[j].xid != #[trigger] d[k].xid by {
                assert(d[j] == s[j] && d[k] == s[k]);
            }
        }
        lemma_remove_xid_distinct(d, xid);
        lemma_remove_xid(d, xid);
        let a = remove_xid(d, xid);
        if s.last().xid != xid {
            assert forall|j: int, k: int| 0 <= j < k < a.len() + 1 implies #[trigger] (a + seq![s.last()])[j].xid
                != #[trigger] (a + seq![s.last()])[k].xid by {
                if k == a.len() {
                    assert(a.contains(a[j]));
                    let i = choose|i: int| 0 <= i < d.len() && d[i] == a[j];
                    assert(s[i] == a[j]);
                    assert(s[s.len() - 1].xid != s[i].xid);
                }
            }
        } else {
            assert(a + Seq::<MenuRegistration>::empty() =~= a);
        }
    }
}

/// What taking window `xid` out of the list of `pid` leaves, for an index where `xid` is
/// unknown or registered by `pid`.
pub proof fn lemma_drop_from_pid(m: RegModel, pid: u32, xid: u32)
    requires
        model_wf(m),
        m.by_xid.contains_key(xid) ==> m.by_xid[xid].pid == pid,
    ensures
        ({
            let m1 = drop_from_pid(m.by_pid, pid, xid);
            &&& forall|p: u32| #[trigger] m1.contains_key(p) ==> m1[p].len() > 0 && distinct_xids(m1[p])
            &&& forall|p: u32, r: MenuRegistration| m1.contains_key(p) && #[trigger] m1[p].contains(r)
                ==> m.by_pid.contains_key(p) && m.by_pid[p].contains(r) && r.xid != xid
            &&& forall|p: u32, r: MenuRegistration| m.by_pid.contains_key(p) && #[trigger] m.by_pid[p].contains(r)
                && r.xid != xid ==> m1.contains_key(p) && m1[p].contains(r)
        }),
{
    let m1 = drop_from_pid(m.by_pid, pid, xid);
    if m.by_pid.contains_key(pid) {
        lemma_remove_xid(m.by_pid[pid], xid);
        lemma_remove_xid_distinct(m.by_pid[pid], xid);
    }
    assert forall|p: u32, r: MenuRegistration| m1.contains_key(p) && #[trigger] m1[p].contains(r)
        implies m.by_pid.contains_key(p) && m.by_pid[p].contains(r) && r.xid != xid by {
        if p != pid {
            assert(m1[p] == m.by_pid[p]);
            assert(r.pid == p);
            assert(m.by_xid.contains_key(r.xid) && m.by_xid[r.xid] == r);
        }
    }
    assert forall|p: u32, r: MenuRegistration| m.by_pid.contains_key(p) && #[trigger] m.by_pid[p].contains(r)
        && r.xid != xid implies m1.contains_key(p) && m1[p].contains(r) by {
        if p == pid {
            assert(remove_xid(m.by_pid[pid], xid).contains(r));
        }
    }
}

/// Registering keeps the two indexes in agreement.
pub proof fn lemma_register_wf(m: RegModel, reg: MenuRegistration)
    requires
        model_wf(m),
    ensures
        model_wf(register_model(m, reg)),
{
    lemma_register_counts(m, reg);
    let xid = reg.xid;
    let pid0: u32 = if m.by_xid.contains_key(xid) { m.by_xid[xid].pid } else { reg.pid };
    lemma_drop_from_pid(m, pid0, xid);
    let m1 = if m.by_xid.contains_key(xid) { drop_from_pid(m.by_pid, m.by_xid[xid].pid, xid) } else { m.by_pid };
    assert(m1 == drop_from_pid(m.by_pid, pid0, xid)) by {
        if !m.by_xid.contains_key(xid) {
            if m.by_pid.contains_key(pid0) {
                lemma_remove_xid(m.by_pid[pid0], xid);
                let s = m.by_pid[pid0];
                assert forall|j: int| 0 <= j < s.len() implies s[j].xid != xid by {
                    assert(s.contains(s[j]));
                }
                lemma_remove_xid_none(s, xid);
                assert(m.by_pid.insert(pid0, s) =~= m.by_pid);
            }
        }
    }
    let mm = register_model(m, reg);
    let base: Seq<MenuRegistration> = if m1.contains_key(reg.pid) { m1[reg.pid] } else { Seq::empty() };
    assert forall|x: u32| #[trigger] mm.by_xid.contains_key(x) implies mm.by_pid.contains_key(mm.by_xid[x].pid)
        && mm.by_pid[mm.by_xid[x].pid].contains(mm.by_xid[x]) by {
        if x == xid {
            assert(base.push(reg)[base.len() as int] == reg);
        } else {
            let r = m.by_xid[x];
            assert(m.by_pid[r.pid].contains(r));
            assert(m1[r.pid].contains(r));
            if r.pid == reg.pid {
                let k = choose|k: int| 0 <= k < base.len() && base[k] == r;
                assert(base.push(reg)[k] == r);
            }
        }
    }
    assert forall|p: u32| #[trigger] mm.by_pid.contains_key(p) implies mm.by_pid[p].len() > 0
        && distinct_xids(mm.by_pid[p]) by {
        if p == reg.pid {
            let l = base.push(reg);
            assert forall|j: int, k: int| 0 <= j < k < l.len() implies #[trigger] l[j].xid != #[trigger] l[k].xid by {
                if k == base.len() {
                    assert(base.contains(base[j]));
                    assert(m1[reg.pid].contains(base[j]));
                } else {
                    assert(l[j] == base[j] && l[k] == base[k]);
                }
            }
        }
    }
    assert forall|p: u32, r: MenuRegistration| mm.by_pid.contains_key(p) && #[trigger] mm.by_pid[p].contains(r)
        implies r.pid == p && mm.by_xid.contains_key(r.xid) && mm.by_xid[r.xid] == r by {
        if p == reg.pid {
            let l = base.push(reg);
            let k = choose|k: int| 0 <= k < l.len() && l[k] == r;
            if k < base.len() {
                assert(base[k] == r);
                assert(m1[p].contains(r));
            }
        } else {
            assert(m1[p].contains(r));
        }
    }
}

/// A list none of whose entries belongs to `xid` loses nothing.
pub proof fn lemma_remove_xid_none(s: Seq<MenuRegistration>, xid: u32)
    requires
        forall|j: int| 0 <= j < s.len() ==> s[j].xid != xid,
    ensures
        remove_xid(s, xid) == s,
    decreases s.len(),
{
    if s.len() > 0 {
        lemma_remove_xid_none(s.drop_last(), xid);
        assert(s.drop_last() + seq![s.last()] =~= s);
    }
}

/// Unregistering keeps the two indexes in agreement.
pub proof fn lemma_unregister_wf(m: RegModel, xid: u32)
    requires
        model_wf(m),
    ensures
        model_wf(unregister_model(m, xid)),
{
    lemma_unregister_counts(m, xid);
    if m.by_xid.contains_key(xid) {
        let pid = m.by_xid[xid].pid;
        lemma_drop_from_pid(m, pid, xid);
        let mm = unregister_model(m, xid);
        assert forall|x: u32| #[trigger] mm.by_xid.contains_key(x) implies mm.by_pid.contains_key(mm.by_xid[x].pid)
            && mm.by_pid[mm.by_xid[x].pid].contains(mm.by_xid[x]) by {
            let r = m.by_xid[x];
            assert(m.by_pid[r.pid].contains(r));
        }
        assert forall|p: u32, r: MenuRegistration| mm.by_pid.contains_key(p) && #[trigger] mm.by_pid[p].contains(r)
            implies r.pid == p && mm.by_xid.contains_key(r.xid) && mm.by_xid[r.xid] == r by {
            assert(m.by_pid[p].contains(r));
        }
    }
}

// ── laws ─────────────────────────────────────────────────────

/// Read after write: right after registering, the window maps to the new registration, and
/// its process's list ends with it.
pub proof fn lemma_lookup_after_register(m: RegModel, reg: MenuRegistration)
    ensures
        register_model(m, reg).by_xid.contains_key(reg.xid),
        register_model(m, reg).by_xid[reg.xid] == reg,
        register_model(m, reg).by_pid.contains_key(reg.pid),
        register_model(m, reg).by_pid[reg.pid].last() == reg,
{
}

/// Registering a new window and unregistering it again gives back the same indexes.
pub proof fn lemma_register_then_unregister_restores(m: RegModel, reg: MenuRegistration)
    requires
        model_wf(m),
        !m.by_xid.contains_key(reg.xid),
    ensures
        unregister_model(register_model(m, reg), reg.xid) == m,
{
    let mm = register_model(m, reg);
    let base: Seq<MenuRegistration> = if m.by_pid.contains_key(reg.pid) { m.by_pid[reg.pid] } else { Seq::empty() };
    assert forall|j: int| 0 <= j < base.len() implies base[j].xid != reg.xid by {
        assert(m.by_pid[reg.pid].contains(base[j]));
    }
    lemma_remove_xid_none(base, reg.xid);
    assert(base.push(reg).drop_last() =~= base);
    assert(remove_xid(base.push(reg), reg.xid) =~= base);
    let back = unregister_model(mm, reg.xid);
    assert(back.by_xid =~= m.by_xid);
    assert(back.by_pid =~= m.by_pid);
}

/// A window is listed in one process slot only, the one of its latest registration: after a
/// re-registration under another process the old slot holds it no more.
pub proof fn lemma_window_in_one_slot(m: RegModel, reg: MenuRegistration)
    requires
        model_wf(m),
    ensures
        forall|p: u32, r: MenuRegistration| register_model(m, reg).by_pid.contains_key(p)
            && #[trigger] register_model(m, reg).by_pid[p].contains(r) && r.xid == reg.xid
            ==> p == reg.pid && r == reg,
{
    lemma_register_wf(m, reg);
}

/// After unregistering, the window is known to neither index.
pub proof fn lemma_unregister_forgets(m: RegModel, xid: u32)
    requires
        model_wf(m),
    ensures
        !unregister_model(m, xid).by_xid.contains_key(xid),
        forall|p: u32, r: MenuRegistration| unregister_model(m, xid).by_pid.contains_key(p)
            && #[trigger] unregister_model(m, xid).by_pid[p].contains(r) ==> r.xid != xid,
{
    lemma_unregister_wf(m, xid);
}

/// Registering the same registration twice is the same as registering it once.
pub proof fn lemma_register_idempotent(m: RegModel, reg: MenuRegistration)
    requires
        model_wf(m),
    ensures
        register_model(register_model(m, reg), reg) == register_model(m, reg),
{
    let m1 = register_model(m, reg);
    lemma_register_wf(m, reg);
    lemma_lookup_after_register(m, reg);
    let l = m1.by_pid[reg.pid];
    let base = l.drop_last();
    assert(l.last() == reg);
    assert(distinct_xids(l));
    assert forall|j: int| 0 <= j < base.len() implies base[j].xid != reg.xid by {
        assert(l[j] == base[j]);
        assert(l[j].xid != l[l.len() - 1].xid);
    }
    lemma_remove_xid_none(base, reg.xid);
    assert(remove_xid(l, reg.xid) == base);
    assert(base.push(reg) =~= l);
    let m2 = register_model(m1, reg);
    assert(m2.by_xid =~= m1.by_xid);
    assert(m2.by_pid =~= m1.by_pid);
}

/// Unregistering a window that is not registered changes nothing.
pub proof fn lemma_unregister_unknown_is_noop(m: RegModel, xid: u32)
    requires
        !m.by_xid.contains_key(xid),
    ensures
        unregister_model(m, xid) == m,
{
}

// ── counting ─────────────────────────────────────────────────

/// The number of entries over all process lists.
pub open spec fn pid_total(m: Map<u32, Seq<MenuRegistration>>) -> nat
    decreases m.dom().len(),
    when m.dom().finite()
{
    if m.dom().len() == 0 {
        0
    } else {
        let p = m.dom().choose();
        m[p].len() + pid_total(m.remove(p))
    }
}

/// Any list can be counted first.
pub proof fn lemma_pid_total_remove(m: Map<u32, Seq<MenuRegistration>>, q: u32)
    requires
        m.dom().finite(),
        m.dom().contains(q),
    ensures
        pid_total(m) == m[q].len() + pid_total(m.remove(q)),
    decreases m.dom().len(),
{
    let p = m.dom().choose();
    assert(m.dom().contains(p));
    if p != q {
        lemma_pid_total_remove(m.remove(p), q);
        lemma_pid_total_remove(m.remove(q), p);
        assert(m.remove(p).remove(q) =~= m.remove(q).remove(p));
    }
}

/// Replacing the list of `q` by `v` counts `v` instead of the old list.
pub proof fn lemma_pid_total_insert(m: Map<u32, Seq<MenuRegistration>>, q: u32, v: Seq<MenuRegistration>)
    requires
        m.dom().finite(),
    ensures
        pid_total(m.insert(q, v)) == v.len() + pid_total(m.remove(q)),
{
    lemma_pid_total_remove(m.insert(q, v), q);
    assert(m.insert(q, v).remove(q) =~= m.remove(q));
}

/// The count of a map without a key it does not hold is the count of the map.
pub proof fn lemma_pid_total_absent(m: Map<u32, Seq<MenuRegistration>>, q: u32)
    requires
        !m.dom().contains(q),
    ensures
        m.remove(q) == m,
{
    assert(m.remove(q) =~= m);
}

/// A list with exactly one entry of window `xid` loses exactly that entry.
pub proof fn lemma_remove_xid_once(s: Seq<MenuRegistration>, xid: u32, k: int)
    requires
        distinct_xids(s),
        0 <= k < s.len(),
        s[k].xid == xid,
    ensures
        remove_xid(s, xid).len() == s.len() - 1,
    decreases s.len(),
{
    let t = s.drop_last();
    if k == s.len() - 1 {
        assert forall|j: int| 0 <= j < t.len() implies t[j].xid != xid by {
            assert(s[j].xid != s[k].xid);
        }
        lemma_remove_xid_none(t, xid);
    } else {
        assert(s.last().xid != xid) by {
            assert(s[k].xid != s[s.len() - 1].xid);
        }
        assert forall|j: int, l: int| 0 <= j < l < t.len() implies #[trigger] t[j].xid != #[trigger] t[l].xid by {
            assert(s[j].xid != s[l].xid);
        }
        lemma_remove_xid_once(t, xid, k);
    }
}

/// Taking window `xid` out of the slot of its process removes exactly one entry.
proof fn lemma_drop_from_pid_total(m: RegModel, xid: u32)
    requires
        model_wf(m),
        m.by_xid.contains_key(xid),
    ensures
        pid_total(drop_from_pid(m.by_pid, m.by_xid[xid].pid, xid)) + 1 == pid_total(m.by_pid),
        drop_from_pid(m.by_pid, m.by_xid[xid].pid, xid).dom().finite(),
{
    let r = m.by_xid[xid];
    let l = m.by_pid[r.pid];
    assert(l.contains(r));
    let k = choose|k: int| 0 <= k < l.len() && l[k] == r;
    lemma_remove_xid_once(l, xid, k);
    lemma_pid_total_remove(m.by_pid, r.pid);
    let kept = remove_xid(l, xid);
    if kept.len() > 0 {
        lemma_pid_total_insert(m.by_pid, r.pid, kept);
    }
}

/// The empty index holds no entry.
pub proof fn lemma_pid_total_empty()
    ensures
        pid_total(Map::<u32, Seq<MenuRegistration>>::empty()) == 0,
{
}

/// Registering adds one window exactly when the window was not registered before, and the
/// lists keep holding as many entries as there are windows.
pub proof fn lemma_register_counts(m: RegModel, reg: MenuRegistration)
    requires
        model_wf(m),
    ensures
        register_model(m, reg).by_xid.dom().len() == m.by_xid.dom().len() + (if m.by_xid.contains_key(reg.xid) {
            0int
        } else {
            1int
        }),
        pid_total(register_model(m, reg).by_pid) == register_model(m, reg).by_xid.dom().len(),
{
    let m1 = if m.by_xid.contains_key(reg.xid) {
        drop_from_pid(m.by_pid, m.by_xid[reg.xid].pid, reg.xid)
    } else {
        m.by_pid
    };
    if m.by_xid.contains_key(reg.xid) {
        lemma_drop_from_pid_total(m, reg.xid);
        assert(m.by_xid.insert(reg.xid, reg).dom() =~= m.by_xid.dom());
    } else {
        assert(m.by_xid.insert(reg.xid, reg).dom() =~= m.by_xid.dom().insert(reg.xid));
    }
    let base: Seq<MenuRegistration> = if m1.contains_key(reg.pid) { m1[reg.pid] } else { Seq::empty() };
    lemma_pid_total_insert(m1, reg.pid, base.push(reg));
    if m1.contains_key(reg.pid) {
        lemma_pid_total_remove(m1, reg.pid);
    } else {
        lemma_pid_total_absent(m1, reg.pid);
    }
}

/// Unregistering removes one window exactly when the window was registered, and the lists
/// keep holding as many entries as there are windows.
pub proof fn lemma_unregister_counts(m: RegModel, xid: u32)
    requires
        model_wf(m),
    ensures
        unregister_model(m, xid).by_xid.dom().len() + (if m.by_xid.contains_key(xid) { 1int } else { 0int })
            == m.by_xid.dom().len(),
        pid_total(unregister_model(m, xid).by_pid) == unregister_model(m, xid).by_xid.dom().len(),
{
    if m.by_xid.contains_key(xid) {
        lemma_drop_from_pid_total(m, xid);
        assert(m.by_xid.remove(xid).dom() =~= m.by_xid.dom().remove(xid));
    }
}

/// `a` and `b` are equal up to ASCII case: same length, and at each position the same
/// character once 'A'..='Z' are taken as 'a'..='z'.
pub open spec fn same_ignoring_ascii_case(a: Seq<char>, b: Seq<char>) -> bool {
    &&& a.len() == b.len()
    &&& forall|i: int| 0 <= i < a.len() ==> ascii_lower(#[trigger] a[i]) == ascii_lower(b[i])
}

/// The process-name step: the first listed process whose trimmed name equals `app_id` up to
/// ASCII case (capitals on either side) and that has registrations gives its first
/// registration; processes before it are passed over.
pub proof fn lemma_comm_match_ignores_ascii_case(m: RegModel, comms: Seq<(u32, String)>, app_id: Seq<char>, k: int)
    requires
        0 <= k < comms.len(),
        same_ignoring_ascii_case(trimmed(comms[k].1@), app_id),
        pid_match(m, comms[k].0) is Some,
        forall|j: int| 0 <= j < k ==> !(#[trigger] same_ignoring_ascii_case(trimmed(comms[j].1@), app_id)
            && pid_match(m, comms[j].0) is Some),
    ensures
        comm_match(m, comms, app_id) == pid_match(m, comms[k].0),
    decreases k,
{
    if k == 0 {
        lemma_same_ignoring_case_lower(trimmed(comms[0].1@), app_id);
    } else {
        lemma_same_ignoring_case_lower(trimmed(comms[0].1@), app_id);
        assert(!(same_ignoring_ascii_case(trimmed(comms[0].1@), app_id) && pid_match(m, comms[0].0) is Some));
        let t = comms.drop_first();
        assert forall|j: int| 0 <= j < k - 1 implies !(#[trigger] same_ignoring_ascii_case(trimmed(t[j].1@), app_id)
            && pid_match(m, t[j].0) is Some) by {
            assert(t[j] == comms[j + 1]);
        }
        assert(t[k - 1] == comms[k]);
        lemma_comm_match_ignores_ascii_case(m, t, app_id, k - 1);
    }
}

/// No listed process whose trimmed name equals `app_id` up to ASCII case has registrations:
/// the process-name step finds nothing.
pub proof fn lemma_comm_match_none(m: RegModel, comms: Seq<(u32, String)>, app_id: Seq<char>)
    requires
        forall|j: int| 0 <= j < comms.len() ==> !(#[trigger] same_ignoring_ascii_case(trimmed(comms[j].1@), app_id)
            && pid_match(m, comms[j].0) is Some),
    ensures
        comm_match(m, comms, app_id) is None,
    decreases comms.len(),
{
    if comms.len() > 0 {
        lemma_same_ignoring_case_lower(trimmed(comms[0].1@), app_id);
        assert(!(same_ignoring_ascii_case(trimmed(comms[0].1@), app_id) && pid_match(m, comms[0].0) is Some));
        let t = comms.drop_first();
        assert forall|j: int| 0 <= j < t.len() implies !(#[trigger] same_ignoring_ascii_case(trimmed(t[j].1@), app_id)
            && pid_match(m, t[j].0) is Some) by {
            assert(t[j] == comms[j + 1]);
        }
        lemma_comm_match_none(m, t, app_id);
    }
}

/// Equality of the ASCII-lower-cased texts is equality up to ASCII case.
proof fn lemma_same_ignoring_case_lower(a: Seq<char>, b: Seq<char>)
    ensures
        (ascii_lower_seq(a) == ascii_lower_seq(b)) == same_ignoring_ascii_case(a, b),
{
    if ascii_lower_seq(a) == ascii_lower_seq(b) {
        assert(ascii_lower_seq(a).len() == a.len());
        assert forall|i: int| 0 <= i < a.len() implies ascii_lower(#[trigger] a[i]) == ascii_lower(b[i]) by {
            assert(ascii_lower_seq(a)[i] == ascii_lower_seq(b)[i]);
        }
    }
    if same_ignoring_ascii_case(a, b) {
        assert(ascii_lower_seq(a) =~= ascii_lower_seq(b));
    }
}

/// The X11 step gives the registration of the first listed window that is registered;
/// nothing when none is.
pub proof fn lemma_xid_match_is_first(m: RegModel, xids: Seq<u32>)
    ensures
        xid_match(m, xids) is Some ==> exists|k: int| 0 <= k < xids.len() && m.by_xid.contains_key(xids[k])
            && xid_match(m, xids) == Some(m.by_xid[xids[k]])
            && forall|j: int| 0 <= j < k ==> !m.by_xid.contains_key(#[trigger] xids[j]),
        xid_match(m, xids) is None ==> forall|j: int| 0 <= j < xids.len() ==> !m.by_xid.contains_key(#[trigger] xids[j]),
    decreases xids.len(),
{
    if xids.len() > 0 {
        let t = xids.drop_first();
        lemma_xid_match_is_first(m, t);
        if !m.by_xid.contains_key(xids[0]) {
            if xid_match(m, t) is Some {
                let k = choose|k: int| 0 <= k < t.len() && m.by_xid.contains_key(t[k])
                    && xid_match(m, t) == Some(m.by_xid[t[k]])
                    && forall|j: int| 0 <= j < k ==> !m.by_xid.contains_key(#[trigger] t[j]);
                assert(xids[k + 1] == t[k]);
                assert forall|j: int| 0 <= j < k + 1 implies !m.by_xid.contains_key(#[trigger] xids[j]) by {
                    if j > 0 {
                        assert(xids[j] == t[j - 1]);
                    }
                }
            } else {
                assert forall|j: int| 0 <= j < xids.len() implies !m.by_xid.contains_key(#[trigger] xids[j]) by {
                    if j > 0 {
                        assert(xids[j] == t[j - 1]);
                    }
                }
            }
        } else {
            assert(forall|j: int| 0 <= j < 0 ==> !m.by_xid.contains_key(#[trigger] xids[j]));
        }
    }
}

} // verus!
