//! The withdrawal ledger: one record per withdrawal event, identified by the
//! transaction that emitted it and its position within that transaction.

use crate::error::Error;
use crate::primitives::{H160, H256, U256};
use crate::queue::{
    ascending, capped, lemma_capped_insert, lemma_oldest_first_ascending,
    lemma_pending_is_head_of_queue, lemma_slot_found, oldest_first, pending, slot, unfinalized,
};
use vstd::prelude::*;

verus! {

/// A withdrawal as the L2 chain emitted it.
#[derive(Clone, Copy, Debug, PartialEq, Eq)]
pub struct WithdrawalEvent {
    /// The L2 transaction that produced the withdrawal.
    pub tx_hash: H256,
    /// The L2 block that holds the transaction.
    pub block_number: u64,
    /// The withdrawn asset.
    pub token: H160,
    /// The withdrawn quantity.
    pub amount: U256,
}

/// A withdrawal event together with its position in the transaction and
/// whether it has been finalized on L1.
#[derive(Clone, Copy, Debug, PartialEq, Eq)]
pub struct StoredWithdrawal {
    /// The withdrawal event.
    pub event: WithdrawalEvent,
    /// Zero-based position of the event among those of its transaction.
    pub index_in_tx: usize,
    /// Whether the withdrawal has been finalized.
    pub is_finalized: bool,
}

impl StoredWithdrawal {
    /// The identity of the record: its transaction and its position there.
    pub open spec fn key(self) -> (H256, usize) {
        (self.event.tx_hash, self.index_in_tx)
    }

    /// Whether the record fits the ledger: the block number in a signed
    /// 64-bit column, the position in a signed 32-bit one.
    pub open spec fn storable(self) -> bool {
        self.event.block_number <= i64::MAX && self.index_in_tx <= i32::MAX
    }

    /// The same record with the finalized flag set.
    pub open spec fn marked_finalized(self) -> StoredWithdrawal {
        StoredWithdrawal { event: self.event, index_in_tx: self.index_in_tx, is_finalized: true }
    }

    /// Whether the record is identified by the given transaction and position.
    pub fn has_key(&self, tx_hash: &H256, index_in_tx: usize) -> (r: bool)
        ensures
            r == (self.key() == (*tx_hash, index_in_tx)),
    {
        self.index_in_tx == index_in_tx && self.event.tx_hash.same(tx_hash)
    }

    /// Whether the record fits the ledger.
    pub fn is_storable(&self) -> (r: bool)
        ensures
            r == self.storable(),
    {
        self.event.block_number <= 0x7fff_ffff_ffff_ffffu64 && self.index_in_tx <= 0x7fff_ffffusize
    }
}

/// Whether some record of `rows` has the given key.
pub open spec fn holds_key(rows: Seq<StoredWithdrawal>, key: (H256, usize)) -> bool {
    exists|i: int| 0 <= i < rows.len() && #[trigger] rows[i].key() == key
}

/// Whether no two records of `rows` share a key.
pub open spec fn distinct_keys(rows: Seq<StoredWithdrawal>) -> bool {
    forall|i: int, j: int|
        0 <= i < rows.len() && 0 <= j < rows.len() && i != j ==> #[trigger] rows[i].key()
            != #[trigger] rows[j].key()
}

/// Whether every record of `rows` fits the ledger.
pub open spec fn all_storable(rows: Seq<StoredWithdrawal>) -> bool {
    forall|i: int| 0 <= i < rows.len() ==> #[trigger] rows[i].storable()
}

/// What a ledger may hold: records that fit, no key twice.
pub open spec fn valid_rows(rows: Seq<StoredWithdrawal>) -> bool {
    distinct_keys(rows) && all_storable(rows)
}

/// The ledger after the records of `events` have been offered to it in
/// order: a record whose key the ledger already holds is skipped, any other
/// is appended as it is.
pub open spec fn ingested(rows: Seq<StoredWithdrawal>, events: Seq<StoredWithdrawal>) -> Seq<
    StoredWithdrawal,
>
    decreases events.len(),
{
    if events.len() == 0 {
        rows
    } else {
        let earlier = ingested(rows, events.drop_last());
        if holds_key(earlier, events.last().key()) {
            earlier
        } else {
            earlier.push(events.last())
        }
    }
}

/// The ledger after the records whose key is among `keys` have been marked
/// as finalized. No other record changes, and none is added or removed.
pub open spec fn finalized(rows: Seq<StoredWithdrawal>, keys: Seq<(H256, usize)>) -> Seq<
    StoredWithdrawal,
> {
    Seq::new(
        rows.len(),
        |i: int|
            if keys.contains(rows[i].key()) {
                rows[i].marked_finalized()
            } else {
                rows[i]
            },
    )
}

/// Whether `block_number` is the greatest L2 block among the records of `rows`.
pub open spec fn is_highest_block(rows: Seq<StoredWithdrawal>, block_number: u64) -> bool {
    &&& exists|i: int| 0 <= i < rows.len() && (#[trigger] rows[i]).event.block_number == block_number
    &&& forall|i: int| 0 <= i < rows.len() ==> (#[trigger] rows[i]).event.block_number <= block_number
}

/// The withdrawal ledger. Records are kept in the order of their arrival.
pub struct WithdrawalLedger {
    rows: Vec<StoredWithdrawal>,
}

impl View for WithdrawalLedger {
    type V = Seq<StoredWithdrawal>;

    /// The records of the ledger, oldest arrival first.
    closed spec fn view(&self) -> Seq<StoredWithdrawal> {
        self.rows@
    }
}

impl WithdrawalLedger {
    /// The invariant of the ledger.
    pub open spec fn wf(&self) -> bool {
        valid_rows(self@)
    }

    /// A ledger without records.
    pub fn new() -> (r: WithdrawalLedger)
        ensures
            r.wf(),
            r@ == Seq::<StoredWithdrawal>::empty(),
    {
        WithdrawalLedger { rows: Vec::new() }
    }

    /// The records of the ledger, oldest arrival first.
    pub fn records(&self) -> (r: &Vec<StoredWithdrawal>)
        ensures
            r@ == self@,
    {
        &self.rows
    }

    /// Where the record with the given key stands, if the ledger holds one.
    fn position(&self, tx_hash: &H256, index_in_tx: usize) -> (r: Option<usize>)
        ensures
            match r {
                Some(i) => i < self@.len() && self@[i as int].key() == (*tx_hash, index_in_tx),
                None => !holds_key(self@, (*tx_hash, index_in_tx)),
            },
    {
        let mut i: usize = 0;
        while i < self.rows.len()
            invariant
                i <= self.rows.len(),
                forall|j: int| 0 <= j < i ==> self.rows@[j].key() != (*tx_hash, index_in_tx),
            decreases self.rows.len() - i,
        {
            if self.rows[i].has_key(tx_hash, index_in_tx) {
                return Some(i);
            }
            i += 1;
        }
        None
    }

    /// Inserts the given records in one atomic step. A record whose key the
    /// ledger already holds is skipped without error, and the stored record
    /// stays as it was. Where any record of the batch does not fit the
    /// ledger, nothing is inserted.
    pub fn ingest(&mut self, events: &[StoredWithdrawal]) -> (r: Result<(), Error>)
        requires
            old(self).wf(),
        ensures
            final(self).wf(),
            match r {
                Ok(_) => all_storable(events@) && final(self)@ == ingested(old(self)@, events@),
                Err(e) => e == Error::ConstraintViolation && !all_storable(events@) && final(self)@
                    == old(self)@,
            },
    {
        let mut k: usize = 0;
        while k < events.len()
            invariant
                k <= events.len(),
                self.rows@ == old(self).rows@,
                valid_rows(self.rows@),
                forall|j: int| 0 <= j < k ==> #[trigger] events@[j].storable(),
            decreases events.len() - k,
        {
            if !events[k].is_storable() {
                return Err(Error::ConstraintViolation);
            }
            k += 1;
        }
        let mut i: usize = 0;
        while i < events.len()
            invariant
                i <= events.len(),
                all_storable(events@),
                valid_rows(self.rows@),
                self.rows@ == ingested(old(self)@, events@.take(i as int)),
            decreases events.len() - i,
        {
            let event = events[i];
            proof {
                assert(events@.take(i + 1).drop_last() =~= events@.take(i as int));
                assert(events@.take(i + 1).last() == event);
            }
            if self.position(&event.event.tx_hash, event.index_in_tx).is_none() {
                self.rows.push(event);
            }
            i += 1;
        }
        assert(events@.take(events@.len() as int) =~= events@);
        Ok(())
    }

    /// Whether the key of `row` is among `keys`.
    fn is_listed(keys: &[(H256, usize)], row: &StoredWithdrawal) -> (r: bool)
        ensures
            r == keys@.contains(row.key()),
    {
        let mut k: usize = 0;
        while k < keys.len()
            invariant
                k <= keys.len(),
                forall|j: int| 0 <= j < k ==> keys@[j] != row.key(),
            decreases keys.len() - k,
        {
            if row.has_key(&keys[k].0, keys[k].1) {
                assert(keys@[k as int] == row.key());
                return true;
            }
            k += 1;
        }
        false
    }

    /// Marks as finalized exactly the records whose key is among `keys`. A
    /// key that matches no record is ignored, and a record that is finalized
    /// already stays so.
    pub fn finalize(&mut self, keys: &[(H256, usize)])
        requires
            old(self).wf(),
        ensures
            final(self).wf(),
            final(self)@ == finalized(old(self)@, keys@),
    {
        let mut i: usize = 0;
        while i < self.rows.len()
            invariant
                i <= self.rows.len(),
                self.rows@.len() == old(self)@.len(),
                forall|j: int| 0 <= j < i ==> self.rows@[j] == finalized(old(self)@, keys@)[j],
                forall|j: int| i <= j < self.rows@.len() ==> self.rows@[j] == old(self)@[j],
            decreases self.rows.len() - i,
        {
            let row = self.rows[i];
            if !row.is_finalized && Self::is_listed(keys, &row) {
                self.rows[i] = StoredWithdrawal {
                    event: row.event,
                    index_in_tx: row.index_in_tx,
                    is_finalized: true,
                };
            }
            i += 1;
        }
        proof {
            let before = old(self)@;
            let after = self.rows@;
            assert(after =~= finalized(before, keys@));
            assert forall|j: int| 0 <= j < after.len() implies #[trigger] after[j].key()
                == before[j].key() && after[j].storable() by {
                assert(before[j].storable());
            }
            assert forall|a: int, b: int|
                0 <= a < after.len() && 0 <= b < after.len() && a != b implies #[trigger] after[a].key()
                != #[trigger] after[b].key() by {
                assert(before[a].key() != before[b].key());
            }
        }
    }

    /// The candidates for finalization: of the records that are not
    /// finalized, in ascending order of their L2 block, the first `limit`.
    /// Records of one block come in the order of their arrival. To drain a
    /// longer backlog, finalize what was handed out and ask again.
    pub fn pending_finalization(&self, limit: usize) -> (r: Vec<StoredWithdrawal>)
        ensures
            r@ == pending(self@, limit as nat),
            r@.len() == if limit <= unfinalized(self@).len() {
                limit as nat
            } else {
                unfinalized(self@).len()
            },
            ascending(r@),
            forall|i: int|
                0 <= i < r@.len() ==> self@.contains(#[trigger] r@[i]) && !r@[i].is_finalized,
            forall|x: StoredWithdrawal, i: int|
                self@.contains(x) && !x.is_finalized && !r@.contains(x) && 0 <= i < r@.len() ==> (
                #[trigger] r@[i]).event.block_number <= #[trigger] x.event.block_number,
    {
        let mut out: Vec<StoredWithdrawal> = Vec::new();
        let mut i: usize = 0;
        while i < self.rows.len()
            invariant
                i <= self.rows.len(),
                out@ == pending(self.rows@.take(i as int), limit as nat),
            decreases self.rows.len() - i,
        {
            let row = self.rows[i];
            let ghost seen = self.rows@.take(i as int);
            let ghost queue = oldest_first(unfinalized(seen));
            proof {
                assert(self.rows@.take(i + 1).drop_last() =~= seen);
                assert(self.rows@.take(i + 1).last() == row);
            }
            if !row.is_finalized {
                let mut at: usize = out.len();
                while at > 0 && out[at - 1].event.block_number > row.event.block_number
                    invariant
                        at <= out.len(),
                        forall|j: int|
                            at <= j < out@.len() ==> (#[trigger] out@[j]).event.block_number
                                > row.event.block_number,
                    decreases at,
                {
                    at -= 1;
                }
                proof {
                    lemma_slot_found(out@, row.event.block_number, at as int);
                    lemma_oldest_first_ascending(unfinalized(seen));
                    lemma_capped_insert(queue, row, limit as nat);
                    assert(unfinalized(seen).push(row).drop_last() =~= unfinalized(seen));
                }
                if at < limit {
                    out.insert(at, row);
                    if out.len() > limit {
                        out.pop();
                    }
                }
                assert(out@ =~= capped(
                    capped(queue, limit as nat).insert(at as int, row),
                    limit as nat,
                ));
            }
            i += 1;
        }
        proof {
            assert(self.rows@.take(self.rows@.len() as int) =~= self.rows@);
            lemma_pending_is_head_of_queue(self@, limit as nat);
        }
        out
    }

    /// The greatest L2 block for which the ledger holds a withdrawal, or
    /// `None` where the ledger is empty.
    pub fn highest_observed_l2_block(&self) -> (r: Option<u64>)
        ensures
            match r {
                Some(block_number) => is_highest_block(self@, block_number),
                None => self@.len() == 0,
            },
    {
        if self.rows.len() == 0 {
            return None;
        }
        let mut best: u64 = self.rows[0].event.block_number;
        let mut i: usize = 1;
        assert(self.rows@.take(1)[0].event.block_number == best);
        while i < self.rows.len()
            invariant
                1 <= i <= self.rows.len(),
                is_highest_block(self.rows@.take(i as int), best),
            decreases self.rows.len() - i,
        {
            let ghost seen = self.rows@.take(i as int);
            let ghost w = choose|w: int| 0 <= w < seen.len() && (#[trigger] seen[w]).event.block_number == best;
            if self.rows[i].event.block_number > best {
                best = self.rows[i].event.block_number;
                assert(self.rows@.take(i + 1)[i as int].event.block_number == best);
            } else {
                assert(self.rows@.take(i + 1)[w].event.block_number == best);
            }
            assert forall|j: int| 0 <= j < i + 1 implies (#[trigger] self.rows@.take(
                i + 1,
            )[j]).event.block_number <= best by {
                if j < i {
                    assert(seen[j].event.block_number <= best);
                }
            }
            i += 1;
        }
        assert(self.rows@.take(self.rows@.len() as int) =~= self.rows@);
        Some(best)
    }
}

} // verus!
