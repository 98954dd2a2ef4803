use mini_lsm::lsm_iterator::{FusedIterator, StorageIterator};
use std::sync::Arc;

use mini_lsm::key::KeyVec;
use mini_lsm::table::{SsTable, StorageError};
use mini_lsm::table_builder::SsTableBuilder;
use mini_lsm::table_iterator::SsTableIterator;
use mini_lsm::tiered::{LsmStorageState, TieredCompactionController, TieredCompactionOptions, TieredCompactionTask};

fn state(levels: &[(usize, &[usize])]) -> LsmStorageState {
    LsmStorageState { levels: levels.iter().map(|(id, ssts)| (*id, ssts.to_vec())).collect() }
}

fn controller(num_tiers: usize, amp: usize, ratio: usize, width: usize) -> TieredCompactionController {
    TieredCompactionController::new(TieredCompactionOptions {
        num_tiers,
        max_size_amplification_percent: amp,
        size_ratio: ratio,
        min_merge_width: width,
    })
}

#[test]
fn tiered_trigger_falls_back() {
    let s = state(&[(1, &[10]), (2, &[20]), (3, &[30, 31, 32])]);
    let task = controller(3, 200, 50, 2).generate_compaction_task(&s).unwrap();
    let ids: Vec<usize> = task.tiers.iter().map(|t| t.0).collect();
    assert_eq!(ids, vec![1, 2]);
    assert!(!task.bottom_tier_included);
}

#[test]
fn space_amp_trigger_takes_all() {
    let s = state(&[(1, &[1, 2, 3, 4]), (2, &[5])]);
    let task = controller(2, 200, 50, 2).generate_compaction_task(&s).unwrap();
    let ids: Vec<usize> = task.tiers.iter().map(|t| t.0).collect();
    assert_eq!(ids, vec![1, 2]);
    assert_eq!(task.tiers[0].1, vec![1, 2, 3, 4]);
    assert!(task.bottom_tier_included);
}

#[test]
fn too_few_tiers_gives_nothing() {
    let s = state(&[(1, &[1]), (2, &[2])]);
    assert!(controller(3, 200, 50, 2).generate_compaction_task(&s).is_none());
    assert!(controller(0, 200, 50, 2).generate_compaction_task(&state(&[])).is_none());
}

#[test]
fn size_ratio_trigger() {
    // sizes 3, 1, 5: upper 3 against 1 is 300% >= 101%, width 2
    let s = state(&[(1, &[1, 2, 3]), (2, &[4]), (3, &[5, 6, 7, 8, 9, 10, 11, 12, 13, 14])]);
    let task = controller(3, 1000, 1, 2).generate_compaction_task(&s).unwrap();
    let ids: Vec<usize> = task.tiers.iter().map(|t| t.0).collect();
    assert_eq!(ids, vec![1, 2]);
    assert!(!task.bottom_tier_included);
}

#[test]
fn empty_bottom_never_triggers_space_amp() {
    let s = state(&[(1, &[1]), (2, &[])]);
    let task = controller(2, 0, 1000, 5).generate_compaction_task(&s).unwrap();
    // fallback: 2 - 2 + 2 tiers, which is all of them
    assert_eq!(task.tiers.len(), 2);
    assert!(task.bottom_tier_included);
}

#[test]
fn apply_replaces_merged_tiers() {
    let s = state(&[(1, &[1]), (2, &[2, 3]), (4, &[4, 5])]);
    let ctl = controller(3, 200, 50, 2);
    let task = TieredCompactionTask { tiers: vec![(1, vec![1]), (2, vec![2, 3])], bottom_tier_included: false };
    let (next, removed) = ctl.apply_compaction_result(&s, &task, &[9, 10]);
    assert_eq!(next.levels, vec![(9, vec![9, 10]), (4, vec![4, 5])]);
    assert_eq!(removed, vec![1, 2, 3]);
    assert_eq!(next.levels.len(), s.levels.len() - task.tiers.len() + 1);
}

#[test]
fn fused_cursor_taints_after_failure() {
    let mut b = SsTableBuilder::new(32);
    for k in ["k1", "k2", "k3"] {
        b.add(&KeyVec::from_vec_with_ts(k.as_bytes().to_vec(), 0), b"vvvvvvvvv");
    }
    let t = b.build(1).unwrap();
    let second = t.block_meta()[1].offset;
    let mut bytes = t.file_bytes().to_vec();
    bytes[second + 2] = 200;
    let broken = Arc::new(SsTable::open(1, bytes).unwrap());
    let inner = SsTableIterator::create_and_seek_to_first(broken).unwrap();
    let mut it = FusedIterator::new(inner);
    assert!(StorageIterator::is_valid(&it));
    assert_eq!(it.step(), Err(StorageError::CorruptBlock));
    assert!(!StorageIterator::is_valid(&it));
    assert_eq!(it.step(), Err(StorageError::TaintedCursor));
    assert_eq!(StorageIterator::next(&mut it), Err(StorageError::TaintedCursor));
}
