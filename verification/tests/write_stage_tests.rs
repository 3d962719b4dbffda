use buffett_core::keys::Pubkey;
use buffett_core::leader_schedule::{leader_rotation_due, LeaderSchedule};
use buffett_core::write_stage::{
    batch_heights_fit, commit_written_batch, find_leader_rotation_index, rotation_outcome, write_error_outcome,
    EntryBatches, WriteError, WriteStageReturnType,
};

fn me() -> Pubkey {
    Pubkey([1u8; 32])
}

fn other() -> Pubkey {
    Pubkey([2u8; 32])
}

/// This node leads at 0 and 4, another node takes over at 8.
fn schedule() -> LeaderSchedule {
    let mut s = LeaderSchedule::new(me());
    s.set_scheduled_leader(0, me());
    s.set_scheduled_leader(4, me());
    s.set_scheduled_leader(8, other());
    s
}

#[test]
fn same_key_compares_all_bytes() {
    let mut k = [1u8; 32];
    assert!(me().same_key(&Pubkey(k)));
    k[31] = 9;
    assert!(!me().same_key(&Pubkey(k)));
}

#[test]
fn scheduled_leader_lookup() {
    let s = schedule();
    assert!(s.get_scheduled_leader(8).unwrap().same_key(&other()));
    assert!(s.get_scheduled_leader(4).unwrap().same_key(&me()));
    assert!(s.get_scheduled_leader(5).is_none());
}

#[test]
fn rotation_due_only_on_interval_boundaries_led_by_others() {
    let s = schedule();
    assert!(!leader_rotation_due(&s, 4, 0));
    assert!(!leader_rotation_due(&s, 4, 4));
    assert!(leader_rotation_due(&s, 4, 8));
    // not a boundary, even though another node is scheduled there
    assert!(!leader_rotation_due(&s, 3, 8));
    // a boundary with no leader known rotates
    assert!(leader_rotation_due(&s, 4, 12));
    assert!(!leader_rotation_due(&s, 4, 13));
}

#[test]
fn cut_at_rotation_height() {
    let entries: Vec<u32> = (0..10).collect();
    let (kept, rotation) = find_leader_rotation_index(&schedule(), 4, 0, entries);
    assert_eq!(kept, vec![0, 1, 2, 3, 4, 5, 6, 7]);
    assert!(rotation);
}

#[test]
fn whole_batch_fits_before_rotation() {
    let entries: Vec<u32> = (0..6).collect();
    let (kept, rotation) = find_leader_rotation_index(&schedule(), 4, 0, entries);
    assert_eq!(kept, vec![0, 1, 2, 3, 4, 5]);
    assert!(!rotation);
}

#[test]
fn batch_ending_on_rotation_height_reports_it() {
    let entries: Vec<u32> = (0..8).collect();
    let (kept, rotation) = find_leader_rotation_index(&schedule(), 4, 0, entries);
    assert_eq!(kept.len(), 8);
    assert!(rotation);
}

#[test]
fn empty_batch_at_rotation_height() {
    let (kept, rotation) = find_leader_rotation_index(&schedule(), 4, 8, Vec::<u32>::new());
    assert!(kept.is_empty());
    assert!(rotation);
    let (kept, rotation) = find_leader_rotation_index(&schedule(), 4, 5, Vec::<u32>::new());
    assert!(kept.is_empty());
    assert!(!rotation);
}

#[test]
fn already_at_rotation_height_keeps_nothing() {
    let entries: Vec<u32> = vec![7, 8, 9];
    let (kept, rotation) = find_leader_rotation_index(&schedule(), 4, 8, entries);
    assert!(kept.is_empty());
    assert!(rotation);
}

#[test]
fn unaligned_start_looks_ahead_by_the_distance_to_the_next_boundary() {
    // From height 6 with interval 4 the stage looks 2 entries ahead at a time:
    // positions 0, 2, 4, ... stand for heights 6, 8, 10, ...
    let entries: Vec<u32> = (0..5).collect();
    let (kept, rotation) = find_leader_rotation_index(&schedule(), 4, 6, entries);
    assert_eq!(kept, vec![0, 1]);
    assert!(rotation);
}

#[test]
fn unaligned_start_stops_at_first_rotation_height() {
    // From height 1 with interval 4: this node keeps height 4, another node
    // takes over at height 8, which is 7 entries in.
    let entries: Vec<u32> = (0..10).collect();
    let (kept, rotation) = find_leader_rotation_index(&schedule(), 4, 1, entries);
    assert_eq!(kept, vec![0, 1, 2, 3, 4, 5, 6]);
    assert!(rotation);
}

#[test]
fn start_on_rotation_height_near_the_top_of_the_range() {
    // 2^64 - 4 is a multiple of 4 with no known leader: the batch is cut at
    // once, though its end would lie past u64::MAX.
    let entries: Vec<u32> = (0..10).collect();
    let (kept, rotation) = find_leader_rotation_index(&schedule(), 4, u64::MAX - 3, entries);
    assert!(kept.is_empty());
    assert!(rotation);
}

#[test]
fn round_from_unaligned_height_stops_at_rotation() {
    let s = schedule();
    let mut batches: EntryBatches<u32> = EntryBatches::new();
    assert!(batches.accept(&s, 4, 1, vec![0, 1, 2]));
    assert!(!batches.accept(&s, 4, 1, vec![3, 4, 5, 6, 7, 8, 9]));
    assert_eq!(batches.num_new_entries(), 7);
    let mut entry_height: u64 = 1;
    for b in batches.into_batches() {
        commit_written_batch(&mut entry_height, b.len());
    }
    assert_eq!(entry_height, 8);
    assert_eq!(rotation_outcome(&s, 4, entry_height), Some(WriteStageReturnType::LeaderRotation));
}

#[test]
fn batches_accumulate_until_rotation() {
    let s = schedule();
    let mut batches: EntryBatches<u32> = EntryBatches::new();
    assert_eq!(batches.num_new_entries(), 0);
    assert!(batches.accept(&s, 4, 0, vec![1, 2, 3]));
    assert_eq!(batches.num_new_entries(), 3);
    // heights continue at 3: the batch is cut at height 8
    assert!(!batches.accept(&s, 4, 0, vec![4, 5, 6, 7, 8, 9, 10]));
    assert_eq!(batches.num_new_entries(), 8);
    let all = batches.into_batches();
    assert_eq!(all, vec![vec![1, 2, 3], vec![4, 5, 6, 7, 8]]);
}

#[test]
fn committing_batches_advances_height() {
    let mut entry_height: u64 = 5;
    assert!(commit_written_batch(&mut entry_height, 3));
    assert_eq!(entry_height, 8);
    assert!(!commit_written_batch(&mut entry_height, 0));
    assert_eq!(entry_height, 8);
}

#[test]
fn write_errors_stop_the_thread_only_on_disconnect() {
    assert_eq!(
        write_error_outcome(&WriteError::RecvDisconnected),
        Some(WriteStageReturnType::ChannelDisconnected)
    );
    assert_eq!(write_error_outcome(&WriteError::RecvTimeout), None);
    assert_eq!(write_error_outcome(&WriteError::Other), None);
}

#[test]
fn thread_exits_on_rotation_height() {
    let s = schedule();
    assert_eq!(rotation_outcome(&s, 4, 8), Some(WriteStageReturnType::LeaderRotation));
    assert_eq!(rotation_outcome(&s, 4, 4), None);
    assert_eq!(rotation_outcome(&s, 4, 7), None);
}

#[test]
fn heights_fit_near_the_top_of_the_range() {
    let s = schedule();
    // the batch's end fits
    assert!(batch_heights_fit(&s, 4, 100, 10));
    assert!(batch_heights_fit(&s, 4, u64::MAX - 10, 10));
    // the end does not fit, but 2^64 - 4 is a rotation height (no leader known)
    assert!(batch_heights_fit(&s, 4, u64::MAX - 5, 10));
    // from 2^64 - 3 on, no multiple of 4 remains below the top
    assert!(!batch_heights_fit(&s, 4, u64::MAX - 2, 10));
    // a rotation height at the very start always fits
    assert!(batch_heights_fit(&s, 1, u64::MAX, 5));
}

#[test]
fn heights_fit_when_this_node_keeps_the_last_boundary() {
    let mut s = schedule();
    s.set_scheduled_leader(u64::MAX - 3, me());
    // the only boundary below the top keeps this node as leader
    assert!(!batch_heights_fit(&s, 4, u64::MAX - 5, 10));
}
