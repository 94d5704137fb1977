//! The finalization queue: the unfinalized records of a ledger, oldest L2
//! block first, and the head of that queue that one call hands out.

use crate::ledger::StoredWithdrawal;
use vstd::prelude::*;

verus! {

/// The records of `rows` that are not finalized, in their order in `rows`.
pub open spec fn unfinalized(rows: Seq<StoredWithdrawal>) -> Seq<StoredWithdrawal>
    decreases rows.len(),
{
    if rows.len() == 0 {
        rows
    } else {
        let earlier = unfinalized(rows.drop_last());
        if rows.last().is_finalized {
            earlier
        } else {
            earlier.push(rows.last())
        }
    }
}

/// Whether the records stand in ascending order of their L2 block.
pub open spec fn ascending(rows: Seq<StoredWithdrawal>) -> bool {
    forall|i: int, j: int|
        0 <= i <= j < rows.len() ==> (#[trigger] rows[i]).event.block_number <= (
        #[trigger] rows[j]).event.block_number
}

/// Where a record of the given block joins `rows`: behind the last record
/// whose block is not greater.
pub open spec fn slot(rows: Seq<StoredWithdrawal>, block_number: u64) -> int
    decreases rows.len(),
{
    if rows.len() == 0 {
        0
    } else if rows.last().event.block_number <= block_number {
        rows.len() as int
    } else {
        slot(rows.drop_last(), block_number)
    }
}

/// The records of `rows` by ascending L2 block; records of one block keep
/// their order in `rows`.
pub open spec fn oldest_first(rows: Seq<StoredWithdrawal>) -> Seq<StoredWithdrawal>
    decreases rows.len(),
{
    if rows.len() == 0 {
        rows
    } else {
        let earlier = oldest_first(rows.drop_last());
        earlier.insert(slot(earlier, rows.last().event.block_number), rows.last())
    }
}

/// The first `limit` records of `rows`, or all of them where there are fewer.
pub open spec fn capped(rows: Seq<StoredWithdrawal>, limit: nat) -> Seq<StoredWithdrawal> {
    if limit < rows.len() {
        rows.take(limit as int)
    } else {
        rows
    }
}

/// The candidates for finalization that one call hands out: of the
/// unfinalized records of `rows`, by ascending L2 block, the first `limit`.
pub open spec fn pending(rows: Seq<StoredWithdrawal>, limit: nat) -> Seq<StoredWithdrawal> {
    capped(oldest_first(unfinalized(rows)), limit)
}

/// The slot lies within the sequence, and every record from the slot on has
/// a greater block.
pub proof fn lemma_slot_bounds(rows: Seq<StoredWithdrawal>, block_number: u64)
    ensures
        0 <= slot(rows, block_number) <= rows.len(),
        forall|j: int|
            slot(rows, block_number) <= j < rows.len() ==> (#[trigger] rows[j]).event.block_number
                > block_number,
        slot(rows, block_number) > 0 ==> rows[slot(rows, block_number) - 1].event.block_number
            <= block_number,
    decreases rows.len(),
{
    if rows.len() > 0 && rows.last().event.block_number > block_number {
        let front = rows.drop_last();
        lemma_slot_bounds(front, block_number);
        assert forall|j: int| slot(rows, block_number) <= j < rows.len() implies (
        #[trigger] rows[j]).event.block_number > block_number by {
            if j < front.len() {
                assert(front[j] == rows[j]);
            }
        }
    }
}

/// In an ascending sequence every record before the slot has a block that is
/// not greater.
pub proof fn lemma_slot_splits(rows: Seq<StoredWithdrawal>, block_number: u64)
    requires
        ascending(rows),
    ensures
        forall|j: int|
            0 <= j < slot(rows, block_number) ==> (#[trigger] rows[j]).event.block_number
                <= block_number,
{
    lemma_slot_bounds(rows, block_number);
    let p = slot(rows, block_number);
    if p > 0 {
        assert forall|j: int| 0 <= j < p implies (#[trigger] rows[j]).event.block_number
            <= block_number by {
            assert(rows[j].event.block_number <= rows[p - 1].event.block_number);
        }
    }
}

/// A position with no lesser-or-equal block from it on, and one right before
/// it, is the slot.
pub proof fn lemma_slot_found(rows: Seq<StoredWithdrawal>, block_number: u64, p: int)
    requires
        0 <= p <= rows.len(),
        forall|j: int| p <= j < rows.len() ==> (#[trigger] rows[j]).event.block_number > block_number,
        p > 0 ==> rows[p - 1].event.block_number <= block_number,
    ensures
        slot(rows, block_number) == p,
    decreases rows.len(),
{
    if rows.len() > 0 && p < rows.len() {
        assert(rows[rows.len() - 1].event.block_number > block_number);
        lemma_slot_found(rows.drop_last(), block_number, p);
    }
}

/// Sorting keeps every record, and adds none.
pub proof fn lemma_oldest_first_keeps(rows: Seq<StoredWithdrawal>)
    ensures
        oldest_first(rows).len() == rows.len(),
        forall|x: StoredWithdrawal| #[trigger] oldest_first(rows).contains(x) <==> rows.contains(x),
    decreases rows.len(),
{
    if rows.len() > 0 {
        let front = rows.drop_last();
        let x = rows.last();
        let earlier = oldest_first(front);
        let p = slot(earlier, x.event.block_number);
        lemma_oldest_first_keeps(front);
        lemma_slot_bounds(earlier, x.event.block_number);
        let sorted = earlier.insert(p, x);
        assert(sorted.len() == rows.len());
        assert forall|y: StoredWithdrawal| #[trigger] sorted.contains(y) <==> rows.contains(y) by {
            if sorted.contains(y) {
                let k = choose|k: int| 0 <= k < sorted.len() && sorted[k] == y;
                if k == p {
                    assert(rows[rows.len() - 1] == y);
                } else {
                    let e = if k < p { k } else { k - 1 };
                    assert(earlier[e] == y);
                    assert(earlier.contains(y));
                    assert(front.contains(y));
                    let f = choose|f: int| 0 <= f < front.len() && front[f] == y;
                    assert(rows[f] == y);
                }
            }
            if rows.contains(y) {
                let f = choose|f: int| 0 <= f < rows.len() && rows[f] == y;
                if f == rows.len() - 1 {
                    assert(sorted[p] == y);
                } else {
                    assert(front[f] == y);
                    assert(front.contains(y));
                    assert(earlier.contains(y));
                    let e = choose|e: int| 0 <= e < earlier.len() && earlier[e] == y;
                    if e < p {
                        assert(sorted[e] == y);
                    } else {
                        assert(sorted[e + 1] == y);
                    }
                }
            }
        }
    }
}

/// Sorting yields an ascending sequence.
pub proof fn lemma_oldest_first_ascending(rows: Seq<StoredWithdrawal>)
    ensures
        ascending(oldest_first(rows)),
    decreases rows.len(),
{
    if rows.len() > 0 {
        let x = rows.last();
        let earlier = oldest_first(rows.drop_last());
        let p = slot(earlier, x.event.block_number);
        lemma_oldest_first_ascending(rows.drop_last());
        lemma_slot_bounds(earlier, x.event.block_number);
        lemma_slot_splits(earlier, x.event.block_number);
        let sorted = earlier.insert(p, x);
        assert forall|i: int, j: int| 0 <= i <= j < sorted.len() implies (
        #[trigger] sorted[i]).event.block_number <= (#[trigger] sorted[j]).event.block_number by {
            if i < p && j > p {
                assert(earlier[i].event.block_number <= x.event.block_number);
                assert(earlier[j - 1].event.block_number > x.event.block_number);
            } else if i < p && j < p {
                assert(sorted[i] == earlier[i] && sorted[j] == earlier[j]);
            } else if i > p {
                assert(sorted[i] == earlier[i - 1] && sorted[j] == earlier[j - 1]);
            } else if i < p {
                assert(earlier[i].event.block_number <= x.event.block_number);
            } else if j > p {
                assert(earlier[j - 1].event.block_number > x.event.block_number);
            }
        }
    }
}

/// The unfinalized records are exactly the records that are not finalized.
pub proof fn lemma_unfinalized_keeps(rows: Seq<StoredWithdrawal>)
    ensures
        unfinalized(rows).len() <= rows.len(),
        forall|x: StoredWithdrawal| #[trigger]
            unfinalized(rows).contains(x) <==> rows.contains(x) && !x.is_finalized,
    decreases rows.len(),
{
    if rows.len() > 0 {
        let front = rows.drop_last();
        let x = rows.last();
        lemma_unfinalized_keeps(front);
        let kept = unfinalized(rows);
        assert forall|y: StoredWithdrawal| #[trigger]
            kept.contains(y) <==> rows.contains(y) && !y.is_finalized by {
            if kept.contains(y) {
                let k = choose|k: int| 0 <= k < kept.len() && kept[k] == y;
                if !x.is_finalized && k == kept.len() - 1 {
                    assert(rows[rows.len() - 1] == y);
                } else {
                    assert(unfinalized(front)[k] == y);
                    assert(unfinalized(front).contains(y));
                    assert(front.contains(y));
                    let f = choose|f: int| 0 <= f < front.len() && front[f] == y;
                    assert(rows[f] == y);
                }
            }
            if rows.contains(y) && !y.is_finalized {
                let f = choose|f: int| 0 <= f < rows.len() && rows[f] == y;
                if f == rows.len() - 1 {
                    assert(kept[kept.len() - 1] == y);
                } else {
                    assert(front[f] == y);
                    assert(front.contains(y));
                    assert(unfinalized(front).contains(y));
                    let e = choose|e: int| 0 <= e < unfinalized(front).len() && unfinalized(front)[e] == y;
                    assert(kept[e] == y);
                }
            }
        }
    }
}

/// Joining a record to an ascending queue and then cutting it to `limit`
/// gives the same as joining the record to the queue already cut.
pub proof fn lemma_capped_insert(queue: Seq<StoredWithdrawal>, x: StoredWithdrawal, limit: nat)
    requires
        ascending(queue),
    ensures
        capped(queue.insert(slot(queue, x.event.block_number), x), limit) == capped(
            capped(queue, limit).insert(slot(capped(queue, limit), x.event.block_number), x),
            limit,
        ),
{
    let b = x.event.block_number;
    let head = capped(queue, limit);
    let p = slot(queue, b);
    lemma_slot_bounds(queue, b);
    lemma_slot_splits(queue, b);
    let q: int = if p <= head.len() { p } else { head.len() as int };
    assert forall|j: int| q <= j < head.len() implies (#[trigger] head[j]).event.block_number > b by {
        assert(head[j] == queue[j]);
    }
    if q > 0 {
        assert(head[q - 1] == queue[q - 1]);
    }
    lemma_slot_found(head, b, q);
    assert(capped(queue.insert(p, x), limit) =~= capped(head.insert(q, x), limit));
}

/// What one call hands out is the head of the queue: as many records as the
/// limit allows, in ascending order of their L2 block, each an unfinalized
/// record of the ledger, and none of them younger than an unfinalized record
/// that was left out.
pub proof fn lemma_pending_is_head_of_queue(rows: Seq<StoredWithdrawal>, limit: nat)
    ensures
        pending(rows, limit).len() == if limit < unfinalized(rows).len() {
            limit
        } else {
            unfinalized(rows).len()
        },
        ascending(pending(rows, limit)),
        forall|i: int|
            0 <= i < pending(rows, limit).len() ==> rows.contains(#[trigger] pending(rows, limit)[i])
                && !pending(rows, limit)[i].is_finalized,
        forall|x: StoredWithdrawal, i: int|
            rows.contains(x) && !x.is_finalized && !pending(rows, limit).contains(x) && 0 <= i
                < pending(rows, limit).len() ==> (#[trigger] pending(rows, limit)[i]).event.block_number
                <= #[trigger] x.event.block_number,
{
    let open = unfinalized(rows);
    let queue = oldest_first(open);
    let head = pending(rows, limit);
    lemma_unfinalized_keeps(rows);
    lemma_oldest_first_keeps(open);
    lemma_oldest_first_ascending(open);
    assert forall|i: int| 0 <= i < head.len() implies rows.contains(#[trigger] head[i])
        && !head[i].is_finalized by {
        assert(queue[i] == head[i]);
        assert(queue.contains(head[i]));
        assert(open.contains(head[i]));
    }
    assert forall|x: StoredWithdrawal, i: int|
        rows.contains(x) && !x.is_finalized && !head.contains(x) && 0 <= i < head.len() implies (
    #[trigger] head[i]).event.block_number <= #[trigger] x.event.block_number by {
        assert(open.contains(x));
        assert(queue.contains(x));
        let k = choose|k: int| 0 <= k < queue.len() && queue[k] == x;
        if k < head.len() {
            assert(head[k] == x);
        }
        assert(queue[i] == head[i]);
    }
    assert forall|i: int, j: int| 0 <= i <= j < head.len() implies (
    #[trigger] head[i]).event.block_number <= (#[trigger] head[j]).event.block_number by {
        assert(queue[i] == head[i] && queue[j] == head[j]);
    }
}

} // verus!
