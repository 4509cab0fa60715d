use ledger_mirror::account::CanisterId;
use ledger_mirror::ledger_sync::decode_block_batch;
use ledger_mirror::ledger_sync::determine_canister_for_blocks;
use ledger_mirror::ledger_sync::plan_block_fetch;
use ledger_mirror::ledger_sync::plan_sync;
use ledger_mirror::ledger_sync::ArchiveIndexEntry;
use ledger_mirror::ledger_sync::BlockModel;
use ledger_mirror::ledger_sync::OperationModel;
use ledger_mirror::ledger_sync::SyncLock;
use ledger_mirror::ledger_sync::SyncPlan;
use ledger_mirror::ledger_sync::MAX_BLOCK_PER_ITERATION;
use ledger_mirror::ledger_sync::PLACEHOLDER_AMOUNT_E8S;
use ledger_mirror::ledger_sync::PLACEHOLDER_MEMO;

fn entry(height_from: u64, height_to: u64, id: u64) -> ArchiveIndexEntry {
    ArchiveIndexEntry {
        height_from,
        height_to,
        canister_id: CanisterId::from_u64(id),
    }
}

#[test]
fn routes_to_the_archive_containing_the_start_height() {
    // from = 500, tip = 2500, two archives: the first one owns height 500,
    // so the batch is clipped to [500, 600] on that canister.
    let entries = vec![entry(100, 600, 10), entry(601, 1500, 11)];
    let ledger = CanisterId::from_u64(2);
    let (canister, start, end) = determine_canister_for_blocks(500, 2500, &entries, ledger);
    assert_eq!(canister, CanisterId::from_u64(10));
    assert_eq!((start, end), (500, 600));
}

#[test]
fn routing_falls_back_to_the_ledger_when_no_archive_contains_from() {
    let ledger = CanisterId::from_u64(2);
    let entries = vec![entry(100, 600, 10)];
    let (c, s, e) = determine_canister_for_blocks(601, 700, &entries, ledger);
    assert_eq!(c, ledger);
    assert_eq!((s, e), (601, 700));
    let empty: Vec<ArchiveIndexEntry> = Vec::new();
    let (c2, s2, e2) = determine_canister_for_blocks(0, 5, &empty, ledger);
    assert_eq!(c2, ledger);
    assert_eq!((s2, e2), (0, 5));
}

#[test]
fn routing_picks_a_later_archive_and_clips_to_the_tip() {
    let entries = vec![entry(100, 600, 10), entry(601, 1500, 11)];
    let ledger = CanisterId::from_u64(2);
    let (canister, start, end) = determine_canister_for_blocks(700, 900, &entries, ledger);
    assert_eq!(canister, CanisterId::from_u64(11));
    assert_eq!((start, end), (700, 900));
}

#[test]
fn batch_never_exceeds_the_iteration_bound() {
    let ledger = CanisterId::from_u64(2);
    let empty: Vec<ArchiveIndexEntry> = Vec::new();
    let (c, start, count) = plan_block_fetch(0, u64::MAX - 1, &empty, ledger);
    assert_eq!(c, ledger);
    assert_eq!(start, 0);
    assert_eq!(count, MAX_BLOCK_PER_ITERATION);
    let (_, _, small) = plan_block_fetch(10, 12, &empty, ledger);
    assert_eq!(small, 3);
    let entries = vec![entry(0, 5_000, 9)];
    let (c3, _, clamped) = plan_block_fetch(0, 4_000, &entries, ledger);
    assert_eq!(c3, CanisterId::from_u64(9));
    assert_eq!(clamped, MAX_BLOCK_PER_ITERATION);
}

#[test]
fn decode_failure_yields_placeholder_and_flags_height() {
    let good1 = BlockModel {
        timestamp_nanos: 111,
        memo: 7,
        operation: OperationModel::Transfer {
            from: vec![1],
            to: vec![2],
            amount_e8s: 10,
            fee_e8s: 1,
        },
    };
    let good2 = BlockModel {
        timestamp_nanos: 222,
        memo: 8,
        operation: OperationModel::Mint { to: vec![3], amount_e8s: 5 },
    };
    let (blocks, exceptional) = decode_block_batch(41, vec![Some(good1), None, Some(good2)]);
    assert_eq!(blocks.len(), 3);
    assert_eq!(blocks[0].0, 41);
    assert_eq!(blocks[0].1.memo, 7);
    // Height 42 failed to decode: a zero-timestamp burn of the fixed amount
    // from the null account stands in for it.
    assert_eq!(blocks[1].0, 42);
    assert_eq!(blocks[1].1.timestamp_nanos, 0);
    assert_eq!(blocks[1].1.memo, PLACEHOLDER_MEMO);
    match &blocks[1].1.operation {
        OperationModel::Burn { from, amount_e8s } => {
            assert!(from.is_empty());
            assert_eq!(*amount_e8s, PLACEHOLDER_AMOUNT_E8S);
        }
        _ => panic!("the placeholder block must be a burn"),
    }
    // The height is flagged for operator review, and later heights in the
    // batch are still processed.
    assert_eq!(exceptional, vec![42]);
    assert_eq!(blocks[2].0, 43);
    assert_eq!(blocks[2].1.memo, 8);
    assert_eq!(blocks[2].1.timestamp_nanos, 222);
}

#[test]
fn decode_batch_of_all_good_blocks_flags_nothing() {
    let b = BlockModel {
        timestamp_nanos: 1,
        memo: 2,
        operation: OperationModel::Burn { from: vec![9], amount_e8s: 3 },
    };
    let (blocks, exceptional) = decode_block_batch(0, vec![Some(b)]);
    assert_eq!(blocks.len(), 1);
    assert!(exceptional.is_empty());
    assert_eq!(blocks[0].0, 0);
    assert_eq!(blocks[0].1.memo, 2);
}

#[test]
fn sync_plan_covers_bootstrap_idle_and_fetch() {
    assert_eq!(
        plan_sync(None, 77),
        SyncPlan::InitializeWatermark { tip_of_chain: 77 }
    );
    assert_eq!(plan_sync(Some(10), 10), SyncPlan::NothingToDo);
    assert_eq!(plan_sync(Some(10), 9), SyncPlan::NothingToDo);
    assert_eq!(
        plan_sync(Some(10), 15),
        SyncPlan::FetchBlocks { next: 11, tip_of_chain: 15 }
    );
}

#[test]
fn sync_lock_is_single_flight() {
    let mut lock = SyncLock::new();
    assert!(lock.try_acquire());
    assert!(!lock.try_acquire(), "an overlapping sync attempt is skipped");
    lock.release();
    assert!(lock.try_acquire());
}
