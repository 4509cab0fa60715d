//! Decision core of the ledger synchronization pipeline.
//!
//! All remote calls — querying the tip of chain, the archive index, the raw
//! block bytes — and the decoding of those bytes happen outside this crate.
//! What is verified here is every decision the pipeline makes: which canister
//! owns the next batch of heights, how large the batch may be, what replaces
//! a block that failed to decode, which window one sync pass covers, and the
//! single-flight guard.

use vstd::prelude::*;

use crate::account::CanisterId;
use crate::proxy::min_int;

verus! {

/// Upper bound on the number of block heights requested in one fetch.
pub const MAX_BLOCK_PER_ITERATION: u32 = 1000;

/// One archive canister's contiguous range of block heights.
#[derive(Clone, Copy, PartialEq, Eq, Structural, Debug)]
pub struct ArchiveIndexEntry {
    pub height_from: u64,
    pub height_to: u64,
    pub canister_id: CanisterId,
}

/// The archive index as handed out by the ledger: each range well-formed,
/// sorted ascending and non-overlapping.
pub open spec fn archive_index_wf(entries: Seq<ArchiveIndexEntry>) -> bool {
    &&& forall|i: int|
        0 <= i < entries.len() ==> (#[trigger] entries[i]).height_from <= entries[i].height_to
    &&& forall|i: int, j: int|
        0 <= i < j < entries.len() ==> (#[trigger] entries[i]).height_to < (
        #[trigger] entries[j]).height_from
}

/// Whether `entry` owns block height `h`.
pub open spec fn entry_contains(entry: ArchiveIndexEntry, h: u64) -> bool {
    entry.height_from <= h && h <= entry.height_to
}

/// Routes a requested block range to the canister holding its next batch.
///
/// Scans the index most-recent-first; the result is the unique archive entry
/// containing `from`, clipped to `[from, tip_of_chain]`, or the primary
/// ledger canister with the whole range when no archive holds `from`. The
/// returned range `(r.1, r.2)` always satisfies `from == r.1 <= r.2 <=
/// tip_of_chain`.
pub fn determine_canister_for_blocks(
    from: u64,
    tip_of_chain: u64,
    archive_index_entries: &Vec<ArchiveIndexEntry>,
    ledger_canister_id: CanisterId,
) -> (r: (CanisterId, u64, u64))
    requires
        from <= tip_of_chain,
        archive_index_wf(archive_index_entries@),
    ensures
        r.1 == from,
        r.1 <= r.2 <= tip_of_chain,
        forall|i: int|
            0 <= i < archive_index_entries@.len() && entry_contains(
                #[trigger] archive_index_entries@[i],
                from,
            ) ==> r.0 == archive_index_entries@[i].canister_id && r.2 == (
            if tip_of_chain <= archive_index_entries@[i].height_to {
                tip_of_chain
            } else {
                archive_index_entries@[i].height_to
            }),
        (forall|i: int|
            0 <= i < archive_index_entries@.len() ==> !entry_contains(
                #[trigger] archive_index_entries@[i],
                from,
            )) ==> (r.0 == ledger_canister_id && r.2 == tip_of_chain),
{
    let n = archive_index_entries.len();
    let mut idx: usize = n;
    while idx > 0
        invariant
            idx <= n,
            n == archive_index_entries@.len(),
            archive_index_wf(archive_index_entries@),
            from <= tip_of_chain,
            forall|j: int|
                idx <= j < n ==> !entry_contains(#[trigger] archive_index_entries@[j], from),
        decreases idx,
    {
        let e = archive_index_entries[idx - 1];
        if e.height_to < from {
            // The index is sorted, so once even this entry ends before
            // `from`, no earlier entry can contain it: stop scanning.
            proof {
                assert forall|j: int| 0 <= j < n implies !entry_contains(
                    archive_index_entries@[j],
                    from,
                ) by {
                    if j < idx - 1 {
                        assert(archive_index_entries@[j].height_to
                            < archive_index_entries@[idx - 1].height_from);
                    }
                }
            }
            return (ledger_canister_id, from, tip_of_chain);
        } else if e.height_from > from {
            idx -= 1;
        } else {
            let range_end = if tip_of_chain <= e.height_to {
                tip_of_chain
            } else {
                e.height_to
            };
            proof {
                assert forall|i: int|
                    0 <= i < n && entry_contains(
                        archive_index_entries@[i],
                        from,
                    ) implies i == idx - 1 by {
                    if i < idx - 1 {
                        assert(archive_index_entries@[i].height_to
                            < archive_index_entries@[idx - 1].height_from);
                    }
                }
            }
            return (e.canister_id, from, range_end);
        }
    }
    (ledger_canister_id, from, tip_of_chain)
}

/// Plans one block fetch: routes the range, then clamps the number of
/// requested heights to at most `MAX_BLOCK_PER_ITERATION`, however large
/// `tip_of_chain - from + 1` may be.
pub fn plan_block_fetch(
    from: u64,
    tip_of_chain: u64,
    archive_index_entries: &Vec<ArchiveIndexEntry>,
    ledger_canister_id: CanisterId,
) -> (r: (CanisterId, u64, u32))
    requires
        from <= tip_of_chain,
        archive_index_wf(archive_index_entries@),
    ensures
        r.1 == from,
        r.2 <= MAX_BLOCK_PER_ITERATION,
        forall|i: int|
            0 <= i < archive_index_entries@.len() && entry_contains(
                #[trigger] archive_index_entries@[i],
                from,
            ) ==> r.0 == archive_index_entries@[i].canister_id && r.2 as int == min_int(
                (if tip_of_chain <= archive_index_entries@[i].height_to {
                    tip_of_chain
                } else {
                    archive_index_entries@[i].height_to
                }) - from + 1,
                MAX_BLOCK_PER_ITERATION as int,
            ),
        (forall|i: int|
            0 <= i < archive_index_entries@.len() ==> !entry_contains(
                #[trigger] archive_index_entries@[i],
                from,
            )) ==> (r.0 == ledger_canister_id && r.2 as int == min_int(
            tip_of_chain - from + 1,
            MAX_BLOCK_PER_ITERATION as int,
        )),
{
    let (canister_id, start, end) = determine_canister_for_blocks(
        from,
        tip_of_chain,
        archive_index_entries,
        ledger_canister_id,
    );
    let span = end - start;
    let count: u32 = if span >= MAX_BLOCK_PER_ITERATION as u64 {
        MAX_BLOCK_PER_ITERATION
    } else {
        (span + 1) as u32
    };
    (canister_id, start, count)
}

/// What this core reads of a decoded ledger block: its timestamp, memo, and
/// the transaction's operation, all as plain values. The boundary converts
/// between the remote wire form and this model.
pub struct BlockModel {
    pub timestamp_nanos: u64,
    pub memo: u64,
    pub operation: OperationModel,
}

/// A ledger transaction's operation; accounts are carried as opaque byte
/// identifiers.
pub enum OperationModel {
    Mint { to: Vec<u8>, amount_e8s: u64 },
    Burn { from: Vec<u8>, amount_e8s: u64 },
    Transfer { from: Vec<u8>, to: Vec<u8>, amount_e8s: u64, fee_e8s: u64 },
    Approve { from: Vec<u8>, spender: Vec<u8> },
}

/// Mathematical model of an [`OperationModel`].
#[verifier::ext_equal]
pub enum OperationSpec {
    Mint { to: Seq<u8>, amount_e8s: u64 },
    Burn { from: Seq<u8>, amount_e8s: u64 },
    Transfer { from: Seq<u8>, to: Seq<u8>, amount_e8s: u64, fee_e8s: u64 },
    Approve { from: Seq<u8>, spender: Seq<u8> },
}

/// Mathematical model of a [`BlockModel`].
#[verifier::ext_equal]
pub struct BlockSpec {
    pub timestamp_nanos: u64,
    pub memo: u64,
    pub operation: OperationSpec,
}

impl View for OperationModel {
    type V = OperationSpec;

    open spec fn view(&self) -> OperationSpec {
        match self {
            OperationModel::Mint { to, amount_e8s } => OperationSpec::Mint {
                to: to@,
                amount_e8s: *amount_e8s,
            },
            OperationModel::Burn { from, amount_e8s } => OperationSpec::Burn {
                from: from@,
                amount_e8s: *amount_e8s,
            },
            OperationModel::Transfer { from, to, amount_e8s, fee_e8s } => OperationSpec::Transfer {
                from: from@,
                to: to@,
                amount_e8s: *amount_e8s,
                fee_e8s: *fee_e8s,
            },
            OperationModel::Approve { from, spender } => OperationSpec::Approve {
                from: from@,
                spender: spender@,
            },
        }
    }
}

impl View for BlockModel {
    type V = BlockSpec;

    open spec fn view(&self) -> BlockSpec {
        BlockSpec {
            timestamp_nanos: self.timestamp_nanos,
            memo: self.memo,
            operation: self.operation@,
        }
    }
}

/// Amount burned by a placeholder block, in minor units.
pub const PLACEHOLDER_AMOUNT_E8S: u64 = 1234;

/// Memo carried by a placeholder block.
pub const PLACEHOLDER_MEMO: u64 = 64;

/// The placeholder substituted for a block that failed to decode: a
/// zero-timestamp burn of a fixed amount from the null account (the empty
/// byte identifier, standing for the canonical null principal), under a
/// fixed memo. Substituting it preserves height continuity.
pub open spec fn placeholder_block_spec() -> BlockSpec {
    BlockSpec {
        timestamp_nanos: 0,
        memo: PLACEHOLDER_MEMO,
        operation: OperationSpec::Burn {
            from: Seq::empty(),
            amount_e8s: PLACEHOLDER_AMOUNT_E8S,
        },
    }
}

/// Builds the placeholder block.
pub fn placeholder_block() -> (b: BlockModel)
    ensures
        b@ == placeholder_block_spec(),
{
    let b = BlockModel {
        timestamp_nanos: 0,
        memo: PLACEHOLDER_MEMO,
        operation: OperationModel::Burn { from: Vec::new(), amount_e8s: PLACEHOLDER_AMOUNT_E8S },
    };
    proof {
        assert(b@ =~= placeholder_block_spec());
    }
    b
}

/// The heights in `d` (starting at height `start`) whose decode failed, in
/// ascending order.
pub open spec fn exceptional_heights(start: u64, d: Seq<Option<BlockModel>>) -> Seq<u64>
    decreases d.len(),
{
    if d.len() == 0 {
        Seq::empty()
    } else {
        let rest = exceptional_heights(start, d.drop_last());
        if d.last() is None {
            rest.push((start + d.len() - 1) as u64)
        } else {
            rest
        }
    }
}

/// Assembles one fetched batch: pairs each decode result with its height, in
/// ascending height order, substituting the placeholder block wherever the
/// decode failed, and reports exactly the failed heights. A decode failure
/// is never fatal to the batch: every height keeps an entry.
pub fn decode_block_batch(start: u64, decoded: Vec<Option<BlockModel>>) -> (r: (
    Vec<(u64, BlockModel)>,
    Vec<u64>,
))
    requires
        start as int + decoded@.len() as int <= u64::MAX as int + 1,
    ensures
        r.0@.len() == decoded@.len(),
        forall|i: int| 0 <= i < decoded@.len() ==> (#[trigger] r.0@[i]).0 == start + i,
        forall|i: int|
            0 <= i < decoded@.len() ==> r.0@[i].1@ == (match decoded@[i] {
                Some(b) => b@,
                None => placeholder_block_spec(),
            }),
        r.1@ == exceptional_heights(start, decoded@),
{
    let ghost d0 = decoded@;
    let mut decoded = decoded;
    let n = decoded.len();
    let mut out: Vec<(u64, BlockModel)> = Vec::new();
    let mut exceptional: Vec<u64> = Vec::new();
    let mut i: usize = 0;
    while i < n
        invariant
            i <= n,
            n == d0.len(),
            decoded@ == d0.skip(i as int),
            start as int + n as int <= u64::MAX as int + 1,
            out@.len() == i,
            forall|j: int| 0 <= j < i ==> (#[trigger] out@[j]).0 == start + j,
            forall|j: int|
                0 <= j < i ==> out@[j].1@ == (match d0[j] {
                    Some(b) => b@,
                    None => placeholder_block_spec(),
                }),
            exceptional@ == exceptional_heights(start, d0.take(i as int)),
        decreases n - i,
    {
        let d = decoded.remove(0);
        proof {
            assert(d == d0[i as int]);
            assert(decoded@ =~= d0.skip(i as int + 1));
        }
        let h = start + (i as u64);
        match d {
            Some(b) => {
                out.push((h, b));
            },
            None => {
                out.push((h, placeholder_block()));
                exceptional.push(h);
            },
        }
        i += 1;
        proof {
            assert(d0.take(i as int).drop_last() =~= d0.take(i as int - 1));
            assert(d0.take(i as int).last() == d0[i as int - 1]);
        }
    }
    proof {
        assert(d0.take(n as int) =~= d0);
    }
    (out, exceptional)
}

/// What one sync pass should do, given the persisted watermark and the tip
/// of the chain.
#[derive(Clone, Copy, PartialEq, Eq, Structural, Debug)]
pub enum SyncPlan {
    /// First run ever: initialize the watermark to the tip and replay
    /// nothing — history before the first run is intentionally not replayed.
    InitializeWatermark { tip_of_chain: u64 },
    /// No block past the watermark: mark the sync complete, zero applied.
    NothingToDo,
    /// Fetch and apply blocks `next ..= tip_of_chain`.
    FetchBlocks { next: u64, tip_of_chain: u64 },
}

/// Decides the sync window for one pass.
pub fn plan_sync(block_height_synced_up_to: Option<u64>, tip_of_chain: u64) -> (p: SyncPlan)
    requires
        block_height_synced_up_to matches Some(h) ==> h < u64::MAX,
    ensures
        block_height_synced_up_to is None ==> p == (SyncPlan::InitializeWatermark {
            tip_of_chain,
        }),
        block_height_synced_up_to matches Some(h) ==> p == (if tip_of_chain <= h {
            SyncPlan::NothingToDo
        } else {
            SyncPlan::FetchBlocks { next: (h + 1) as u64, tip_of_chain }
        }),
{
    match block_height_synced_up_to {
        None => SyncPlan::InitializeWatermark { tip_of_chain },
        Some(h) => {
            let next = h + 1;
            if tip_of_chain < next {
                SyncPlan::NothingToDo
            } else {
                SyncPlan::FetchBlocks { next, tip_of_chain }
            }
        },
    }
}

/// The single-flight guard around a whole sync pass. Execution is
/// single-threaded and cooperative, so a plain flag suffices: it is tested
/// and set before the first suspension point and cleared on every exit path.
pub struct SyncLock {
    held: bool,
}

impl SyncLock {
    /// Whether a sync pass currently holds the lock.
    pub closed spec fn is_held(&self) -> bool {
        self.held
    }

    pub fn new() -> (l: SyncLock)
        ensures
            !l.is_held(),
    {
        SyncLock { held: false }
    }

    /// Non-blocking acquire: succeeds exactly when the lock was free, and
    /// leaves it held either way.
    pub fn try_acquire(&mut self) -> (acquired: bool)
        ensures
            acquired == !old(self).is_held(),
            final(self).is_held(),
    {
        let acquired = !self.held;
        self.held = true;
        acquired
    }

    /// Releases the lock.
    pub fn release(&mut self)
        ensures
            !final(self).is_held(),
    {
        self.held = false;
    }
}

} // verus!
