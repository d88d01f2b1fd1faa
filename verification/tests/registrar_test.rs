//! Registrar bookkeeping: both indexes, re-registration, focus matching steps.

use noctalia_global_menu_bridge::registrar::{FocusLookup, MenuRegistration, RegistrarState};

fn sample(xid: u32, pid: u32) -> (u32, String, String, u32) {
    (xid, format!(":1.{xid}"), format!("/com/canonical/menu/{xid:x}"), pid)
}

fn found_xid(r: FocusLookup) -> Option<u32> {
    match r {
        FocusLookup::Found(reg) => Some(reg.xid),
        _ => None,
    }
}

#[test]
fn register_and_unregister_maintains_both_indexes() {
    let mut s = RegistrarState::default();
    s.register(100, ":1.1".into(), "/m/100".into(), 1000);
    s.register(200, ":1.1".into(), "/m/200".into(), 1000);
    s.register(300, ":1.2".into(), "/m/300".into(), 2000);
    assert_eq!(s.len(), 3);
    assert_eq!(s.registrations_for_pid(1000).len(), 2);
    assert_eq!(s.registrations_for_pid(2000).len(), 1);

    let old = s.unregister(200);
    assert!(old.is_some());
    assert_eq!(s.len(), 2);
    assert_eq!(s.registrations_for_pid(1000).len(), 1);
    assert_eq!(s.registrations_for_pid(1000)[0].xid, 100);
    assert!(s.lookup_xid(200).is_none());

    assert!(s.unregister(999).is_none());
}

#[test]
fn re_register_same_xid_replaces_old_pid_slot() {
    let mut s = RegistrarState::default();
    s.register(100, ":1.1".into(), "/m/100".into(), 1000);
    s.register(100, ":1.9".into(), "/m/100-new".into(), 9000);
    assert_eq!(s.len(), 1);
    assert_eq!(s.registrations_for_pid(1000).len(), 0);
    assert_eq!(s.registrations_for_pid(9000).len(), 1);
    assert_eq!(s.lookup_xid(100).unwrap().path, "/m/100-new");
}

#[test]
fn find_for_focus_matches_pid_first() {
    let mut s = RegistrarState::default();
    s.register(100, ":1.1".into(), "/m/100".into(), 1000);
    let found = s.find_for_focus(1000, "anything-else", None, None);
    assert_eq!(found_xid(found), Some(100));
}

#[test]
fn find_for_focus_returns_none_when_nothing_matches() {
    let s = RegistrarState::default();
    assert!(matches!(s.find_for_focus(12345, "nonexistent-app", Some(&[]), Some(&[])), FocusLookup::NotFound));
}

#[test]
fn empty_app_id_skips_fallbacks() {
    let mut s = RegistrarState::default();
    s.register(100, ":1.1".into(), "/m/100".into(), 4242);
    assert!(matches!(s.find_for_focus(0xdead_beef, "", None, None), FocusLookup::NotFound));
}

#[test]
fn register_builds_pid_index_for_focus_matching() {
    let mut s = RegistrarState::default();
    let (xid, bus, path, pid) = sample(0x800001, 242071);
    s.register(xid, bus.clone(), path.clone(), pid);
    assert_eq!(s.len(), 1);
    let regs = s.registrations_for_pid(242071);
    assert_eq!(regs.len(), 1);
    assert_eq!(regs[0], MenuRegistration { xid, bus, path, pid });
}

#[test]
fn unregister_keeps_pid_index_consistent() {
    let mut s = RegistrarState::default();
    s.register(1, ":1.1".into(), "/m/1".into(), 100);
    s.register(2, ":1.1".into(), "/m/2".into(), 100);
    s.register(3, ":1.2".into(), "/m/3".into(), 200);

    assert!(s.unregister(2).is_some());
    assert_eq!(s.registrations_for_pid(100).len(), 1);
    assert_eq!(s.registrations_for_pid(100)[0].xid, 1);
    s.unregister(1);
    assert_eq!(s.registrations_for_pid(100).len(), 0);
    assert_eq!(s.registrations_for_pid(200).len(), 1);
    assert!(s.unregister(999).is_none());
}

#[test]
fn re_register_same_xid_updates_slot() {
    let mut s = RegistrarState::default();
    s.register(7, ":1.1".into(), "/m/old".into(), 100);
    s.register(7, ":1.9".into(), "/m/new".into(), 900);
    assert_eq!(s.len(), 1);
    assert_eq!(s.registrations_for_pid(100).len(), 0);
    assert_eq!(s.registrations_for_pid(900).len(), 1);
    assert_eq!(s.lookup_xid(7).unwrap().path, "/m/new");
    assert_eq!(s.lookup_xid(7).unwrap().bus, ":1.9");
}

#[test]
fn find_for_focus_prefers_exact_pid() {
    let mut s = RegistrarState::default();
    s.register(1, ":1.1".into(), "/m/1".into(), 1111);
    s.register(2, ":1.2".into(), "/m/2".into(), 2222);
    let found = s.find_for_focus(2222, "unrelated-app", None, None);
    assert_eq!(found_xid(found), Some(2));
}

#[test]
fn find_for_focus_no_match_returns_none() {
    let mut s = RegistrarState::default();
    s.register(1, ":1.1".into(), "/m/1".into(), 1111);
    let comms = vec![(1111u32, "someapp".to_string())];
    assert!(matches!(s.find_for_focus(9999, "nonexistent", Some(&[]), Some(&comms)), FocusLookup::NotFound));
    assert!(matches!(s.find_for_focus(9999, "", None, None), FocusLookup::NotFound));
}

#[test]
fn find_for_focus_comm_fallback_handles_xwayland_pid_mismatch() {
    let mut s = RegistrarState::default();
    s.register(0x800001, ":1.99".into(), "/com/canonical/menu/800001".into(), 242071);
    // the process name of the registered pid matches the application id
    let comms = vec![(242071u32, "typora".to_string())];
    let found = s.find_for_focus(0xdead_beef, "typora", Some(&[]), Some(&comms));
    assert_eq!(found_xid(found), Some(0x800001));
    assert!(matches!(s.find_for_focus(0xdead_beef, "TYPORA", Some(&[]), Some(&comms)), FocusLookup::Found(_)));
}

#[test]
fn find_for_focus_asks_for_inputs_in_order() {
    let mut s = RegistrarState::default();
    s.register(5, ":1.5".into(), "/m/5".into(), 500);
    s.register(6, ":1.6".into(), "/m/6".into(), 600);
    assert!(matches!(s.find_for_focus(1, "app", None, None), FocusLookup::NeedX11Windows));
    match s.find_for_focus(1, "app", Some(&[42]), None) {
        FocusLookup::NeedComms(mut pids) => {
            pids.sort();
            assert_eq!(pids, vec![500, 600]);
        }
        other => panic!("unexpected: {other:?}"),
    }
    // an X11 window of the class that is registered wins over process names
    assert_eq!(found_xid(s.find_for_focus(1, "app", Some(&[42, 6, 5]), None)), Some(6));
}

#[test]
fn register_then_unregister_restores_state() {
    let mut s = RegistrarState::default();
    s.register(1, ":1.1".into(), "/m/1".into(), 100);
    s.register(2, ":1.2".into(), "/m/2".into(), 100);
    assert!(s.register(2, ":1.3".into(), "/m/3".into(), 300).is_some());
    assert_eq!(s.registrations().len(), 2);
    s.unregister(2);
    assert_eq!(s.len(), 1);
    assert_eq!(s.registrations_for_pid(300).len(), 0);
    assert_eq!(s.registrations_for_pid(100).len(), 1);
    assert!(s.is_empty() == false);
    s.unregister(1);
    assert!(s.is_empty());
}

#[test]
fn find_for_focus_falls_back_to_comm() {
    let mut s = RegistrarState::default();
    s.register(100, ":1.1".into(), "/m/100".into(), 31337);
    // a process name as /proc/<pid>/comm holds it, with its line end
    let comms = vec![(31337u32, "cargo-test\n".to_string())];
    let found = s.find_for_focus(0xdead_beef, "cargo-test", Some(&[]), Some(&comms));
    assert_eq!(found_xid(found), Some(100));
    let found2 = s.find_for_focus(0xdead_beef, "CARGO-TEST", Some(&[]), Some(&comms));
    assert_eq!(found_xid(found2), Some(100));
}

#[test]
fn registering_twice_is_registering_once() {
    let mut s = RegistrarState::default();
    s.register(1, ":1.1".into(), "/m/1".into(), 100);
    s.register(2, ":1.2".into(), "/m/2".into(), 100);
    let old = s.register(1, ":1.1".into(), "/m/1".into(), 100);
    assert_eq!(old.map(|r| r.path), Some("/m/1".to_string()));
    // the re-registered window moves to the end of its process's list
    assert_eq!(s.registrations_for_pid(100).iter().map(|r| r.xid).collect::<Vec<_>>(), vec![2, 1]);
    s.register(1, ":1.1".into(), "/m/1".into(), 100);
    assert_eq!(s.registrations_for_pid(100).iter().map(|r| r.xid).collect::<Vec<_>>(), vec![2, 1]);
    assert_eq!(s.len(), 2);
    assert!(s.unregister(7).is_none());
    assert_eq!(s.len(), 2);
}

#[test]
fn list_entries_always_number_the_windows() {
    let mut s = RegistrarState::default();
    let count = |s: &RegistrarState| -> usize { s.pids().iter().map(|p| s.registrations_for_pid(*p).len()).sum() };
    s.register(1, ":1.1".into(), "/m/1".into(), 100);
    s.register(2, ":1.1".into(), "/m/2".into(), 100);
    s.register(3, ":1.2".into(), "/m/3".into(), 200);
    assert_eq!(count(&s), s.len());
    s.register(2, ":1.5".into(), "/m/2b".into(), 500);
    assert_eq!(count(&s), 3);
    assert_eq!(s.len(), 3);
    s.unregister(1);
    assert_eq!(count(&s), s.len());
    assert_eq!(s.len(), 2);
    s.unregister(1);
    assert_eq!(s.len(), 2);
    let mut regs = s.registrations();
    regs.sort_by_key(|r| r.xid);
    assert_eq!(regs.iter().map(|r| r.xid).collect::<Vec<_>>(), vec![2, 3]);
    assert!(regs[0].clone() == regs[0]);
}
