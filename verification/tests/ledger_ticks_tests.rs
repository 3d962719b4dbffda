use buffett_core::keys::EntryHash;
use buffett_core::ledger_ticks::{
    check_slot, expected_ticks, num_ticks, verify_ledger_ticks, EntryInfo, LedgerAction,
    LedgerEvent, LedgerTickWalk, PendingSlot, TickCheckError,
};

fn entry(tag: u8, is_tick: bool) -> EntryInfo {
    EntryInfo { hash: EntryHash([tag; 32]), is_tick }
}

fn ticks(tag: u8, n: usize) -> Vec<EntryInfo> {
    (0..n).map(|_| entry(tag, true)).collect()
}

fn read(action: LedgerAction) -> PendingSlot {
    match action {
        LedgerAction::ReadSlot(p) => p,
        other => panic!("expected a slot to read, got {:?}", other),
    }
}

#[test]
fn counts_ticks() {
    let entries = vec![entry(1, true), entry(2, false), entry(3, true)];
    assert_eq!(num_ticks(&entries), 2);
    assert_eq!(num_ticks(&Vec::new()), 0);
}

#[test]
fn expected_ticks_scale_with_slot_distance() {
    let p = PendingSlot { slot: 5, parent_slot: 2, last_id: EntryHash([0; 32]) };
    assert_eq!(expected_ticks(&p, 4), Some(12));
    let back = PendingSlot { slot: 1, parent_slot: 2, last_id: EntryHash([0; 32]) };
    assert_eq!(expected_ticks(&back, 4), None);
    let far = PendingSlot { slot: u64::MAX, parent_slot: 0, last_id: EntryHash([0; 32]) };
    assert_eq!(expected_ticks(&far, 2), None);
    assert_eq!(expected_ticks(&far, 0), Some(0));
}

#[test]
fn check_slot_returns_last_hash() {
    let p = PendingSlot { slot: 1, parent_slot: 0, last_id: EntryHash([0; 32]) };
    let entries = vec![entry(4, true), entry(5, false), entry(6, true)];
    let out = check_slot(&p, 2, &vec![2], true, &entries);
    assert_eq!(out.unwrap().0, [6u8; 32]);
    // the last slot of a fork need not be full
    let out = check_slot(&p, 5, &vec![], true, &entries);
    assert_eq!(out.unwrap().0, [6u8; 32]);
}

#[test]
fn check_slot_failures_in_order() {
    let p = PendingSlot { slot: 3, parent_slot: 1, last_id: EntryHash([0; 32]) };
    let back = PendingSlot { slot: 1, parent_slot: 3, last_id: EntryHash([0; 32]) };
    assert!(matches!(
        check_slot(&back, 2, &vec![4], false, &Vec::new()),
        Err(TickCheckError::TickCountOverflow { slot: 1, parent_slot: 3 })
    ));
    assert!(matches!(
        check_slot(&p, 2, &vec![4], false, &ticks(1, 4)),
        Err(TickCheckError::BrokenChain { slot: 3 })
    ));
    assert!(matches!(
        check_slot(&p, 2, &vec![4], true, &ticks(1, 3)),
        Err(TickCheckError::WrongTickCount { slot: 3, expected: 4, found: 3 })
    ));
    assert!(matches!(
        check_slot(&p, 2, &vec![], true, &Vec::new()),
        Err(TickCheckError::EmptySlot { slot: 3 })
    ));
}

#[test]
fn walks_a_forked_ledger() {
    // 0 -> 1 -> 2, and 0 -> 3; two ticks per slot
    let mut walk = LedgerTickWalk::new(2);
    let a = verify_ledger_ticks(
        &mut walk,
        LedgerEvent::ZerothSlot { entries: vec![entry(9, true)], next_slots: vec![1, 3] },
    );
    // the last listed child is read first, chained from the zeroth slot
    let p = read(a);
    assert_eq!((p.slot, p.parent_slot, p.last_id.0), (3, 0, [9u8; 32]));
    // slot 3 ends its fork, so its tick count is not checked
    let a = verify_ledger_ticks(
        &mut walk,
        LedgerEvent::SlotRead { next_slots: vec![], entries_verified: true, entries: ticks(3, 1) },
    );
    let p = read(a);
    assert_eq!((p.slot, p.parent_slot, p.last_id.0), (1, 0, [9u8; 32]));
    // slot 1 has a child, so it must hold (1 - 0) * 2 ticks
    let mut one = ticks(1, 2);
    one.push(entry(11, false));
    let a = verify_ledger_ticks(
        &mut walk,
        LedgerEvent::SlotRead { next_slots: vec![2], entries_verified: true, entries: one },
    );
    let p = read(a);
    assert_eq!((p.slot, p.parent_slot, p.last_id.0), (2, 1, [11u8; 32]));
    let a = verify_ledger_ticks(
        &mut walk,
        LedgerEvent::SlotRead { next_slots: vec![], entries_verified: true, entries: ticks(2, 1) },
    );
    assert!(matches!(a, LedgerAction::Finished));
}

#[test]
fn short_slot_fails_the_walk() {
    let mut walk = LedgerTickWalk::new(2);
    let a = verify_ledger_ticks(
        &mut walk,
        LedgerEvent::ZerothSlot { entries: vec![entry(9, true)], next_slots: vec![2] },
    );
    assert_eq!(read(a).slot, 2);
    // slot 2 skips a slot past its parent, so it needs 4 ticks
    let a = verify_ledger_ticks(
        &mut walk,
        LedgerEvent::SlotRead { next_slots: vec![3], entries_verified: true, entries: ticks(2, 2) },
    );
    assert!(matches!(
        a,
        LedgerAction::Failed(TickCheckError::WrongTickCount { slot: 2, expected: 4, found: 2 })
    ));
}

#[test]
fn empty_zeroth_slot_fails() {
    let mut walk = LedgerTickWalk::new(2);
    let a = verify_ledger_ticks(
        &mut walk,
        LedgerEvent::ZerothSlot { entries: vec![], next_slots: vec![1] },
    );
    assert!(matches!(a, LedgerAction::Failed(TickCheckError::EmptySlot { slot: 0 })));
}

#[test]
fn zeroth_slot_alone_finishes() {
    let mut walk = LedgerTickWalk::new(2);
    let a = verify_ledger_ticks(
        &mut walk,
        LedgerEvent::ZerothSlot { entries: vec![entry(1, true)], next_slots: vec![] },
    );
    assert!(matches!(a, LedgerAction::Finished));
}

#[test]
fn broken_chain_fails_the_walk() {
    let mut walk = LedgerTickWalk::new(1);
    let a = verify_ledger_ticks(
        &mut walk,
        LedgerEvent::ZerothSlot { entries: vec![entry(1, true)], next_slots: vec![1] },
    );
    assert_eq!(read(a).slot, 1);
    let a = verify_ledger_ticks(
        &mut walk,
        LedgerEvent::SlotRead { next_slots: vec![], entries_verified: false, entries: ticks(1, 1) },
    );
    assert!(matches!(a, LedgerAction::Failed(TickCheckError::BrokenChain { slot: 1 })));
}
