//! The store as a whole: the block lifecycle store and the withdrawal ledger
//! side by side, the query that joins them, and the operations under the
//! names by which the finalizer calls them.

use crate::error::Error;
use crate::ledger::{
    all_storable, finalized, ingested, is_highest_block, StoredWithdrawal, WithdrawalLedger,
};
use crate::lifecycle::{
    is_highest_commit, no_commit, recorded, storable_notification, BlockLifecycle,
    BlockLifecycleStore, Phase,
};
use crate::primitives::H256;
use crate::queue::{ascending, pending, unfinalized};
use vstd::prelude::*;

verus! {

/// How many candidates for finalization one call of
/// [`unfinalized_withdrawals`] hands out at most.
pub const FINALIZATION_BATCH_SIZE: usize = 30;

/// Whether record `i` of the ledger belongs to the given transaction and the
/// block lifecycle store has an entry for its L2 block.
pub open spec fn joins(
    ledger: Seq<StoredWithdrawal>,
    blocks: Map<i64, BlockLifecycle>,
    tx_hash: H256,
    i: int,
) -> bool {
    &&& 0 <= i < ledger.len()
    &&& ledger[i].event.tx_hash == tx_hash
    &&& blocks.contains_key(ledger[i].event.block_number as i64)
}

/// The first record at or behind `from` that joins, or the length of the
/// ledger where none does.
pub open spec fn first_join(
    ledger: Seq<StoredWithdrawal>,
    blocks: Map<i64, BlockLifecycle>,
    tx_hash: H256,
    from: int,
) -> int
    decreases ledger.len() - from,
{
    if from >= ledger.len() {
        ledger.len() as int
    } else if joins(ledger, blocks, tx_hash, from) {
        from
    } else {
        first_join(ledger, blocks, tx_hash, from + 1)
    }
}

/// The L1 block of `phase` for the withdrawal of the given transaction: the
/// marker of the L2 block of the first record of that transaction whose
/// block the lifecycle store holds. `None` where there is no such record,
/// and where that block has no marker for the phase.
pub open spec fn joined_marker(
    ledger: Seq<StoredWithdrawal>,
    blocks: Map<i64, BlockLifecycle>,
    phase: Phase,
    tx_hash: H256,
) -> Option<i64> {
    let i = first_join(ledger, blocks, tx_hash, 0);
    if i < ledger.len() {
        blocks[ledger[i].event.block_number as i64].marker(phase)
    } else {
        None
    }
}

/// The first join lies at or behind `from`, it joins where it lies within
/// the ledger, and no record between `from` and it joins.
pub proof fn lemma_first_join(
    ledger: Seq<StoredWithdrawal>,
    blocks: Map<i64, BlockLifecycle>,
    tx_hash: H256,
    from: int,
)
    requires
        0 <= from <= ledger.len(),
    ensures
        from <= first_join(ledger, blocks, tx_hash, from) <= ledger.len(),
        first_join(ledger, blocks, tx_hash, from) < ledger.len() ==> joins(
            ledger,
            blocks,
            tx_hash,
            first_join(ledger, blocks, tx_hash, from),
        ),
        forall|j: int|
            from <= j < first_join(ledger, blocks, tx_hash, from) ==> !joins(
                ledger,
                blocks,
                tx_hash,
                j,
            ),
    decreases ledger.len() - from,
{
    if from < ledger.len() && !joins(ledger, blocks, tx_hash, from) {
        lemma_first_join(ledger, blocks, tx_hash, from + 1);
    }
}

/// The two tables of the storage contract.
pub struct Store {
    /// Per L2 block, the L1 block of each lifecycle phase.
    pub blocks: BlockLifecycleStore,
    /// The withdrawal records.
    pub withdrawals: WithdrawalLedger,
}

impl Store {
    /// The invariant of the store: that of each of its tables.
    pub open spec fn wf(&self) -> bool {
        self.blocks.wf() && self.withdrawals.wf()
    }

    /// An empty store.
    pub fn new() -> (r: Store)
        ensures
            r.wf(),
            r.blocks@ == Map::<i64, BlockLifecycle>::empty(),
            r.withdrawals@ == Seq::<StoredWithdrawal>::empty(),
    {
        Store { blocks: BlockLifecycleStore::new(), withdrawals: WithdrawalLedger::new() }
    }

    /// The L1 block in which `phase` was observed for the L2 block of the
    /// withdrawal with the given transaction hash. Where several records
    /// share the hash, the one that arrived first among those whose block
    /// the lifecycle store holds decides.
    pub fn phase_l1_block(&self, phase: Phase, tx_hash: &H256) -> (r: Option<i64>)
        requires
            self.wf(),
        ensures
            r == joined_marker(self.withdrawals@, self.blocks@, phase, *tx_hash),
    {
        let rows = self.withdrawals.records();
        let mut i: usize = 0;
        while i < rows.len()
            invariant
                self.wf(),
                rows@ == self.withdrawals@,
                i <= rows@.len(),
                first_join(self.withdrawals@, self.blocks@, *tx_hash, 0) == first_join(
                    self.withdrawals@,
                    self.blocks@,
                    *tx_hash,
                    i as int,
                ),
            decreases rows@.len() - i,
        {
            assert(rows@[i as int].storable());
            if rows[i].event.tx_hash.same(tx_hash) {
                match self.blocks.get(rows[i].event.block_number as i64) {
                    Some(lifecycle) => {
                        return lifecycle.l1_block(phase);
                    },
                    None => {},
                }
            }
            i += 1;
        }
        None
    }
}

/// A batch of L2 blocks has been committed on L1: records the commit marker
/// for every block from `batch_start` to `batch_end`, both included.
pub fn committed_new_batch(
    conn: &mut Store,
    batch_start: u64,
    batch_end: u64,
    l1_block_number: u64,
) -> (r: Result<(), Error>)
    requires
        old(conn).wf(),
    ensures
        final(conn).wf(),
        final(conn).withdrawals@ == old(conn).withdrawals@,
        match r {
            Ok(_) => storable_notification(batch_start, batch_end, l1_block_number) && final(conn).blocks@ == recorded(
                old(conn).blocks@,
                Phase::Commit,
                batch_start as i64,
                batch_end as i64,
                l1_block_number as i64,
            ),
            Err(e) => e == Error::ConstraintViolation && !storable_notification(
                batch_start,
                batch_end,
                l1_block_number,
            ) && final(conn).blocks@ == old(conn).blocks@,
        },
{
    conn.blocks.record_phase(Phase::Commit, batch_start, batch_end, l1_block_number)
}

/// A batch of L2 blocks has been proven on L1: records the verify marker for
/// every block from `batch_start` to `batch_end`, both included.
pub fn verified_new_batch(
    conn: &mut Store,
    batch_start: u64,
    batch_end: u64,
    l1_block_number: u64,
) -> (r: Result<(), Error>)
    requires
        old(conn).wf(),
    ensures
        final(conn).wf(),
        final(conn).withdrawals@ == old(conn).withdrawals@,
        match r {
            Ok(_) => storable_notification(batch_start, batch_end, l1_block_number) && final(conn).blocks@ == recorded(
                old(conn).blocks@,
                Phase::Verify,
                batch_start as i64,
                batch_end as i64,
                l1_block_number as i64,
            ),
            Err(e) => e == Error::ConstraintViolation && !storable_notification(
                batch_start,
                batch_end,
                l1_block_number,
            ) && final(conn).blocks@ == old(conn).blocks@,
        },
{
    conn.blocks.record_phase(Phase::Verify, batch_start, batch_end, l1_block_number)
}

/// A batch of L2 blocks has been executed on L1: records the execute marker
/// for every block from `batch_start` to `batch_end`, both included.
pub fn executed_new_batch(
    conn: &mut Store,
    batch_start: u64,
    batch_end: u64,
    l1_block_number: u64,
) -> (r: Result<(), Error>)
    requires
        old(conn).wf(),
    ensures
        final(conn).wf(),
        final(conn).withdrawals@ == old(conn).withdrawals@,
        match r {
            Ok(_) => storable_notification(batch_start, batch_end, l1_block_number) && final(conn).blocks@ == recorded(
                old(conn).blocks@,
                Phase::Execute,
                batch_start as i64,
                batch_end as i64,
                l1_block_number as i64,
            ),
            Err(e) => e == Error::ConstraintViolation && !storable_notification(
                batch_start,
                batch_end,
                l1_block_number,
            ) && final(conn).blocks@ == old(conn).blocks@,
        },
{
    conn.blocks.record_phase(Phase::Execute, batch_start, batch_end, l1_block_number)
}

/// The L1 block in which the L2 block of this withdrawal was committed.
pub fn withdrawal_committed_in_block(conn: &Store, tx_hash: H256) -> (r: Result<Option<i64>, Error>)
    requires
        conn.wf(),
    ensures
        r == Ok::<Option<i64>, Error>(
            joined_marker(conn.withdrawals@, conn.blocks@, Phase::Commit, tx_hash),
        ),
{
    Ok(conn.phase_l1_block(Phase::Commit, &tx_hash))
}

/// The L1 block in which the L2 block of this withdrawal was proven.
pub fn withdrawal_verified_in_block(conn: &Store, tx_hash: H256) -> (r: Result<Option<i64>, Error>)
    requires
        conn.wf(),
    ensures
        r == Ok::<Option<i64>, Error>(
            joined_marker(conn.withdrawals@, conn.blocks@, Phase::Verify, tx_hash),
        ),
{
    Ok(conn.phase_l1_block(Phase::Verify, &tx_hash))
}

/// The L1 block in which the L2 block of this withdrawal was executed.
pub fn withdrawal_executed_in_block(conn: &Store, tx_hash: H256) -> (r: Result<Option<i64>, Error>)
    requires
        conn.wf(),
    ensures
        r == Ok::<Option<i64>, Error>(
            joined_marker(conn.withdrawals@, conn.blocks@, Phase::Execute, tx_hash),
        ),
{
    Ok(conn.phase_l1_block(Phase::Execute, &tx_hash))
}

/// Adds withdrawal events to the ledger in one atomic step. An event whose
/// transaction and position the ledger already holds is skipped.
pub fn add_withdrawals(conn: &mut Store, events: &[StoredWithdrawal]) -> (r: Result<(), Error>)
    requires
        old(conn).wf(),
    ensures
        final(conn).wf(),
        final(conn).blocks@ == old(conn).blocks@,
        match r {
            Ok(_) => all_storable(events@) && final(conn).withdrawals@ == ingested(
                old(conn).withdrawals@,
                events@,
            ),
            Err(e) => e == Error::ConstraintViolation && !all_storable(events@) && final(conn).withdrawals@ == old(conn).withdrawals@,
        },
{
    conn.withdrawals.ingest(events)
}

/// The L2 block of the latest withdrawal that the ledger has a record of.
pub fn last_l2_block_seen(conn: &Store) -> (r: Result<Option<u64>, Error>)
    ensures
        match r {
            Ok(Some(block_number)) => is_highest_block(conn.withdrawals@, block_number),
            Ok(None) => conn.withdrawals@.len() == 0,
            Err(_) => false,
        },
{
    Ok(conn.withdrawals.highest_observed_l2_block())
}

/// The latest L1 block in which a commit was observed.
pub fn last_l1_block_seen(conn: &Store) -> (r: Result<Option<u64>, Error>)
    requires
        conn.wf(),
    ensures
        match r {
            Ok(Some(l1_block_number)) => is_highest_commit(conn.blocks@, l1_block_number),
            Ok(None) => no_commit(conn.blocks@),
            Err(_) => false,
        },
{
    Ok(conn.blocks.highest_committed_l1_block())
}

/// The withdrawals that are not finalized yet, oldest L2 block first, at
/// most [`FINALIZATION_BATCH_SIZE`] of them.
pub fn unfinalized_withdrawals(conn: &Store) -> (r: Result<Vec<StoredWithdrawal>, Error>)
    ensures
        r is Ok,
        r.unwrap()@ == pending(conn.withdrawals@, FINALIZATION_BATCH_SIZE as nat),
        r.unwrap()@.len() == if FINALIZATION_BATCH_SIZE <= unfinalized(conn.withdrawals@).len() {
            FINALIZATION_BATCH_SIZE as nat
        } else {
            unfinalized(conn.withdrawals@).len()
        },
        ascending(r.unwrap()@),
        forall|i: int|
            0 <= i < r.unwrap()@.len() ==> conn.withdrawals@.contains(#[trigger] r.unwrap()@[i])
                && !r.unwrap()@[i].is_finalized,
{
    Ok(conn.withdrawals.pending_finalization(FINALIZATION_BATCH_SIZE))
}

/// Marks the withdrawals with the given transaction hashes and positions as
/// finalized. A pair that matches no record is ignored.
pub fn update_withdrawals_to_finalized(
    conn: &mut Store,
    tx_hashes_and_indices_in_tx: &[(H256, usize)],
) -> (r: Result<(), Error>)
    requires
        old(conn).wf(),
    ensures
        final(conn).wf(),
        r is Ok,
        final(conn).blocks@ == old(conn).blocks@,
        final(conn).withdrawals@ == finalized(old(conn).withdrawals@, tx_hashes_and_indices_in_tx@),
{
    conn.withdrawals.finalize(tx_hashes_and_indices_in_tx);
    Ok(())
}

} // verus!
