//! What holds of the storage contract across calls: repeated calls change
//! nothing, records are never changed or lost by ingestion, the three phases
//! do not disturb each other, and a finalized withdrawal stays out of the
//! finalization queue.

use crate::ledger::{
    all_storable, distinct_keys, finalized, holds_key, ingested, valid_rows, StoredWithdrawal,
};
use crate::lifecycle::{recorded, valid_blocks, BlockLifecycle, Phase};
use crate::primitives::H256;
use crate::queue::{ascending, lemma_pending_is_head_of_queue, oldest_first, pending};
use crate::rows::storable_keys;
use crate::store::{first_join, joined_marker, joins, lemma_first_join};
use vstd::prelude::*;

verus! {

/// Ingestion never changes or removes a record that the ledger holds: the
/// ledger before is a prefix of the ledger after. In particular, of two
/// records with one key the one that arrived first stays.
pub proof fn law_ingest_keeps_records(rows: Seq<StoredWithdrawal>, events: Seq<StoredWithdrawal>)
    ensures
        rows.len() <= ingested(rows, events).len(),
        forall|i: int| 0 <= i < rows.len() ==> #[trigger] ingested(rows, events)[i] == rows[i],
        forall|key: (H256, usize)| holds_key(rows, key) ==> holds_key(ingested(rows, events), key),
    decreases events.len(),
{
    if events.len() > 0 {
        law_ingest_keeps_records(rows, events.drop_last());
    }
    let after = ingested(rows, events);
    assert forall|key: (H256, usize)| holds_key(rows, key) implies holds_key(after, key) by {
        let i = choose|i: int| 0 <= i < rows.len() && #[trigger] rows[i].key() == key;
        assert(after[i].key() == key);
    }
}

/// After ingestion the ledger holds a record for the key of every record
/// that was offered.
pub proof fn law_ingest_holds_every_key(rows: Seq<StoredWithdrawal>, events: Seq<StoredWithdrawal>)
    ensures
        forall|j: int|
            0 <= j < events.len() ==> holds_key(ingested(rows, events), #[trigger] events[j].key()),
    decreases events.len(),
{
    if events.len() > 0 {
        let front = events.drop_last();
        let earlier = ingested(rows, front);
        let after = ingested(rows, events);
        law_ingest_holds_every_key(rows, front);
        assert forall|j: int| 0 <= j < events.len() implies holds_key(
            after,
            #[trigger] events[j].key(),
        ) by {
            if j < front.len() {
                assert(front[j].key() == events[j].key());
                let i = choose|i: int|
                    0 <= i < earlier.len() && #[trigger] earlier[i].key() == events[j].key();
                assert(after[i].key() == events[j].key());
            } else if holds_key(earlier, events.last().key()) {
            } else {
                assert(after[earlier.len() as int].key() == events[j].key());
            }
        }
    }
}

/// Offering records whose keys the ledger holds already changes nothing.
pub proof fn law_ingest_skips_known(rows: Seq<StoredWithdrawal>, events: Seq<StoredWithdrawal>)
    requires
        forall|j: int| 0 <= j < events.len() ==> holds_key(rows, #[trigger] events[j].key()),
    ensures
        ingested(rows, events) == rows,
    decreases events.len(),
{
    if events.len() > 0 {
        let front = events.drop_last();
        assert forall|j: int| 0 <= j < front.len() implies holds_key(rows, #[trigger] front[j].key()) by {
            assert(front[j].key() == events[j].key());
        }
        law_ingest_skips_known(rows, front);
        assert(holds_key(rows, events[events.len() - 1].key()));
    }
}

/// Ingestion is idempotent: to ingest a batch a second time leaves the
/// ledger as the first time left it.
pub proof fn law_ingest_idempotent(rows: Seq<StoredWithdrawal>, events: Seq<StoredWithdrawal>)
    ensures
        ingested(ingested(rows, events), events) == ingested(rows, events),
{
    law_ingest_holds_every_key(rows, events);
    law_ingest_skips_known(ingested(rows, events), events);
}

/// Ingestion keeps the ledger valid: no key twice, every record storable.
pub proof fn law_ingest_keeps_valid(rows: Seq<StoredWithdrawal>, events: Seq<StoredWithdrawal>)
    requires
        valid_rows(rows),
        all_storable(events),
    ensures
        valid_rows(ingested(rows, events)),
    decreases events.len(),
{
    if events.len() > 0 {
        let front = events.drop_last();
        let earlier = ingested(rows, front);
        assert forall|j: int| 0 <= j < front.len() implies #[trigger] front[j].storable() by {
            assert(events[j].storable());
        }
        law_ingest_keeps_valid(rows, front);
        let after = ingested(rows, events);
        assert(events[events.len() - 1].storable());
        if !holds_key(earlier, events.last().key()) {
            assert forall|a: int, b: int|
                0 <= a < after.len() && 0 <= b < after.len() && a != b implies #[trigger] after[a].key()
                != #[trigger] after[b].key() by {
                if a < earlier.len() && b < earlier.len() {
                    assert(earlier[a].key() != earlier[b].key());
                } else if a < earlier.len() {
                    assert(earlier[a].key() != events.last().key());
                } else {
                    assert(earlier[b].key() != events.last().key());
                }
            }
            assert forall|i: int| 0 <= i < after.len() implies #[trigger] after[i].storable() by {
                if i < earlier.len() {
                    assert(earlier[i].storable());
                }
            }
        }
    }
}

/// Finalization changes nothing but the flag, and never clears it.
pub proof fn law_finalize_only_sets_flag(rows: Seq<StoredWithdrawal>, keys: Seq<(H256, usize)>)
    ensures
        finalized(rows, keys).len() == rows.len(),
        forall|i: int|
            0 <= i < rows.len() ==> {
                &&& (#[trigger] finalized(rows, keys)[i]).event == rows[i].event
                &&& finalized(rows, keys)[i].index_in_tx == rows[i].index_in_tx
                &&& finalized(rows, keys)[i].is_finalized == (rows[i].is_finalized || keys.contains(
                    rows[i].key(),
                ))
            },
{
}

/// Finalization is idempotent.
pub proof fn law_finalize_idempotent(rows: Seq<StoredWithdrawal>, keys: Seq<(H256, usize)>)
    ensures
        finalized(finalized(rows, keys), keys) == finalized(rows, keys),
{
    assert(finalized(finalized(rows, keys), keys) =~= finalized(rows, keys));
}

/// Finalization keeps the ledger valid.
pub proof fn law_finalize_keeps_valid(rows: Seq<StoredWithdrawal>, keys: Seq<(H256, usize)>)
    requires
        valid_rows(rows),
    ensures
        valid_rows(finalized(rows, keys)),
{
    let after = finalized(rows, keys);
    assert forall|a: int, b: int|
        0 <= a < after.len() && 0 <= b < after.len() && a != b implies #[trigger] after[a].key()
        != #[trigger] after[b].key() by {
        assert(rows[a].key() != rows[b].key());
    }
    assert forall|i: int| 0 <= i < after.len() implies #[trigger] after[i].storable() by {
        assert(rows[i].storable());
    }
}

/// A key whose position does not fit the ledger finalizes nothing: to leave
/// such keys out gives the same ledger.
pub proof fn law_finalize_by_storable_keys(rows: Seq<StoredWithdrawal>, keys: Seq<(H256, usize)>)
    requires
        valid_rows(rows),
    ensures
        finalized(rows, storable_keys(keys)) == finalized(rows, keys),
{
    assert forall|i: int| 0 <= i < rows.len() implies storable_keys(keys).contains(
        #[trigger] rows[i].key(),
    ) == keys.contains(rows[i].key()) by {
        assert(rows[i].storable());
        lemma_storable_keys_contains(keys, rows[i].key());
    }
    assert(finalized(rows, storable_keys(keys)) =~= finalized(rows, keys));
}

/// The kept keys are the given keys whose position fits.
proof fn lemma_storable_keys_contains(keys: Seq<(H256, usize)>, key: (H256, usize))
    ensures
        storable_keys(keys).contains(key) <==> keys.contains(key) && key.1 <= i32::MAX,
    decreases keys.len(),
{
    if keys.len() > 0 {
        let front = keys.drop_last();
        let kept = storable_keys(keys);
        lemma_storable_keys_contains(front, key);
        if kept.contains(key) {
            let k = choose|k: int| 0 <= k < kept.len() && kept[k] == key;
            if keys.last().1 <= i32::MAX && k == kept.len() - 1 {
                assert(keys[keys.len() - 1] == key);
            } else {
                assert(storable_keys(front)[k] == key);
                assert(storable_keys(front).contains(key));
                let f = choose|f: int| 0 <= f < front.len() && front[f] == key;
                assert(keys[f] == key);
            }
        }
        if keys.contains(key) && key.1 <= i32::MAX {
            let f = choose|f: int| 0 <= f < keys.len() && keys[f] == key;
            if f == keys.len() - 1 {
                assert(kept[kept.len() - 1] == key);
            } else {
                assert(front[f] == key);
                assert(front.contains(key));
                let e = choose|e: int| 0 <= e < storable_keys(front).len() && storable_keys(front)[e] == key;
                assert(kept[e] == key);
            }
        }
    }
}

/// Whether the withdrawal with the given key is settled: the ledger holds
/// it, and holds it as finalized.
pub open spec fn settled(rows: Seq<StoredWithdrawal>, key: (H256, usize)) -> bool {
    &&& holds_key(rows, key)
    &&& forall|i: int| 0 <= i < rows.len() && #[trigger] rows[i].key() == key ==> rows[i].is_finalized
}

/// No record whose key was among those finalized is handed out as a
/// candidate for finalization.
pub proof fn law_finalized_is_not_pending(
    rows: Seq<StoredWithdrawal>,
    keys: Seq<(H256, usize)>,
    key: (H256, usize),
    limit: nat,
)
    requires
        keys.contains(key),
    ensures
        forall|i: int|
            0 <= i < pending(finalized(rows, keys), limit).len() ==> (#[trigger] pending(
                finalized(rows, keys),
                limit,
            )[i]).key() != key,
{
    let after = finalized(rows, keys);
    let head = pending(after, limit);
    lemma_pending_is_head_of_queue(after, limit);
    assert forall|i: int| 0 <= i < head.len() implies (#[trigger] head[i]).key() != key by {
        assert(after.contains(head[i]));
        let j = choose|j: int| 0 <= j < after.len() && after[j] == head[i];
        if head[i].key() == key {
            assert(rows[j].key() == key);
            assert(after[j].is_finalized);
        }
    }
}

/// To finalize a withdrawal that the ledger holds settles it.
pub proof fn law_finalize_settles(
    rows: Seq<StoredWithdrawal>,
    keys: Seq<(H256, usize)>,
    key: (H256, usize),
)
    requires
        holds_key(rows, key),
        keys.contains(key),
    ensures
        settled(finalized(rows, keys), key),
{
    let after = finalized(rows, keys);
    let i = choose|i: int| 0 <= i < rows.len() && #[trigger] rows[i].key() == key;
    assert(after[i].key() == key);
    assert forall|j: int| 0 <= j < after.len() && #[trigger] after[j].key() == key implies after[j].is_finalized by {
        assert(rows[j].key() == key);
    }
}

/// A settled withdrawal stays settled whatever is ingested or finalized
/// afterwards, and is never handed out as a candidate for finalization.
pub proof fn law_settled_is_stable(
    rows: Seq<StoredWithdrawal>,
    key: (H256, usize),
    events: Seq<StoredWithdrawal>,
    keys: Seq<(H256, usize)>,
    limit: nat,
)
    requires
        settled(rows, key),
    ensures
        settled(ingested(rows, events), key),
        settled(finalized(rows, keys), key),
        forall|i: int|
            0 <= i < pending(rows, limit).len() ==> (#[trigger] pending(rows, limit)[i]).key() != key,
{
    lemma_ingest_adds_only_new_keys(rows, events, key);
    law_ingest_keeps_records(rows, events);
    let marked = finalized(rows, keys);
    let w = choose|i: int| 0 <= i < rows.len() && #[trigger] rows[i].key() == key;
    assert(marked[w].key() == key);
    assert forall|j: int| 0 <= j < marked.len() && #[trigger] marked[j].key() == key implies marked[j].is_finalized by {
        assert(rows[j].key() == key);
    }
    let head = pending(rows, limit);
    lemma_pending_is_head_of_queue(rows, limit);
    assert forall|i: int| 0 <= i < head.len() implies (#[trigger] head[i]).key() != key by {
        assert(rows.contains(head[i]));
        let j = choose|j: int| 0 <= j < rows.len() && rows[j] == head[i];
        if head[i].key() == key {
            assert(rows[j].key() == key);
        }
    }
}

/// Ingestion adds no record under a key that the ledger holds.
proof fn lemma_ingest_adds_only_new_keys(
    rows: Seq<StoredWithdrawal>,
    events: Seq<StoredWithdrawal>,
    key: (H256, usize),
)
    requires
        holds_key(rows, key),
    ensures
        forall|i: int|
            rows.len() <= i < ingested(rows, events).len() ==> (#[trigger] ingested(
                rows,
                events,
            )[i]).key() != key,
    decreases events.len(),
{
    if events.len() > 0 {
        let front = events.drop_last();
        let earlier = ingested(rows, front);
        lemma_ingest_adds_only_new_keys(rows, front, key);
        law_ingest_keeps_records(rows, front);
        let after = ingested(rows, events);
        assert forall|i: int| rows.len() <= i < after.len() implies (#[trigger] after[i]).key()
            != key by {
            if i < earlier.len() {
                assert(earlier[i].key() != key);
            } else {
                assert(holds_key(earlier, key));
            }
        }
    }
}

/// The queue is stable: records that stand in ascending order of their L2
/// block already are queued in the order in which they stand.
pub proof fn law_ascending_records_keep_their_order(rows: Seq<StoredWithdrawal>)
    requires
        ascending(rows),
    ensures
        oldest_first(rows) == rows,
    decreases rows.len(),
{
    if rows.len() > 0 {
        let front = rows.drop_last();
        assert(ascending(front)) by {
            assert forall|i: int, j: int| 0 <= i <= j < front.len() implies (
            #[trigger] front[i]).event.block_number <= (#[trigger] front[j]).event.block_number by {
                assert(rows[i].event.block_number <= rows[j].event.block_number);
            }
        }
        law_ascending_records_keep_their_order(front);
        if front.len() > 0 {
            assert(rows[front.len() - 1].event.block_number <= rows[rows.len() - 1].event.block_number);
            assert(front.last() == rows[front.len() - 1]);
        }
        assert(front.insert(front.len() as int, rows.last()) =~= rows);
    }
}

/// Recording a phase is idempotent: the same notification a second time
/// leaves the store as the first time left it.
pub proof fn law_record_phase_idempotent(
    blocks: Map<i64, BlockLifecycle>,
    phase: Phase,
    start: i64,
    end: i64,
    l1_block_number: i64,
)
    ensures
        recorded(recorded(blocks, phase, start, end, l1_block_number), phase, start, end, l1_block_number)
            == recorded(blocks, phase, start, end, l1_block_number),
{
    assert(recorded(
        recorded(blocks, phase, start, end, l1_block_number),
        phase,
        start,
        end,
        l1_block_number,
    ) =~= recorded(blocks, phase, start, end, l1_block_number));
}

/// Recording a phase overwrites: of two notifications for one phase and one
/// range, the later decides.
pub proof fn law_record_phase_overwrites(
    blocks: Map<i64, BlockLifecycle>,
    phase: Phase,
    start: i64,
    end: i64,
    earlier: i64,
    later: i64,
)
    ensures
        recorded(recorded(blocks, phase, start, end, earlier), phase, start, end, later) == recorded(
            blocks,
            phase,
            start,
            end,
            later,
        ),
{
    assert(recorded(recorded(blocks, phase, start, end, earlier), phase, start, end, later)
        =~= recorded(blocks, phase, start, end, later));
}

/// Recording a phase sets that phase's marker for every block of the range
/// and touches no other marker and no other block.
pub proof fn law_record_phase_touches_one_marker(
    blocks: Map<i64, BlockLifecycle>,
    phase: Phase,
    start: i64,
    end: i64,
    l1_block_number: i64,
    n: i64,
    other: Phase,
)
    ensures
        start <= n <= end ==> recorded(blocks, phase, start, end, l1_block_number).contains_key(n)
            && recorded(blocks, phase, start, end, l1_block_number)[n].marker(phase) == Some(
            l1_block_number,
        ) && recorded(blocks, phase, start, end, l1_block_number)[n].l2_block_number == (
        if blocks.contains_key(n) {
            blocks[n].l2_block_number
        } else {
            n
        }),
        start <= n <= end && other != phase ==> recorded(
            blocks,
            phase,
            start,
            end,
            l1_block_number,
        )[n].marker(other) == (if blocks.contains_key(n) {
            blocks[n].marker(other)
        } else {
            None
        }),
        !(start <= n <= end) ==> recorded(blocks, phase, start, end, l1_block_number).contains_key(n)
            == blocks.contains_key(n),
        !(start <= n <= end) && blocks.contains_key(n) ==> recorded(
            blocks,
            phase,
            start,
            end,
            l1_block_number,
        )[n] == blocks[n],
{
}

/// The phases are independent: notifications for two different phases give
/// the same store in either order, whatever their ranges.
pub proof fn law_phases_commute(
    blocks: Map<i64, BlockLifecycle>,
    first: Phase,
    first_start: i64,
    first_end: i64,
    first_l1_block_number: i64,
    second: Phase,
    second_start: i64,
    second_end: i64,
    second_l1_block_number: i64,
)
    requires
        first != second,
    ensures
        recorded(
            recorded(blocks, first, first_start, first_end, first_l1_block_number),
            second,
            second_start,
            second_end,
            second_l1_block_number,
        ) == recorded(
            recorded(blocks, second, second_start, second_end, second_l1_block_number),
            first,
            first_start,
            first_end,
            first_l1_block_number,
        ),
{
    assert(recorded(
        recorded(blocks, first, first_start, first_end, first_l1_block_number),
        second,
        second_start,
        second_end,
        second_l1_block_number,
    ) =~= recorded(
        recorded(blocks, second, second_start, second_end, second_l1_block_number),
        first,
        first_start,
        first_end,
        first_l1_block_number,
    ));
}

/// Recording a phase keeps the store valid.
pub proof fn law_record_phase_keeps_valid(
    blocks: Map<i64, BlockLifecycle>,
    phase: Phase,
    start: i64,
    end: i64,
    l1_block_number: i64,
)
    requires
        valid_blocks(blocks),
        0 <= start,
        0 <= l1_block_number,
    ensures
        valid_blocks(recorded(blocks, phase, start, end, l1_block_number)),
{
    let after = recorded(blocks, phase, start, end, l1_block_number);
    assert forall|n: i64| #[trigger] after.contains_key(n) implies after[n].l2_block_number == n
        && after[n].non_negative() by {
        if blocks.contains_key(n) {
            assert(blocks[n].non_negative());
        }
    }
}

/// A phase recorded for the L2 blocks of a withdrawal is reported for it:
/// where the ledger holds a record of the transaction, and the range covers
/// the block of every such record, the query for that phase gives the L1
/// block of the notification.
pub proof fn law_recorded_phase_is_reported(
    ledger: Seq<StoredWithdrawal>,
    blocks: Map<i64, BlockLifecycle>,
    phase: Phase,
    start: i64,
    end: i64,
    l1_block_number: i64,
    tx_hash: H256,
)
    requires
        exists|i: int| 0 <= i < ledger.len() && (#[trigger] ledger[i]).event.tx_hash == tx_hash,
        forall|i: int|
            0 <= i < ledger.len() && (#[trigger] ledger[i]).event.tx_hash == tx_hash ==> start
                <= ledger[i].event.block_number as i64 <= end,
    ensures
        joined_marker(ledger, recorded(blocks, phase, start, end, l1_block_number), phase, tx_hash)
            == Some(l1_block_number),
{
    let after = recorded(blocks, phase, start, end, l1_block_number);
    let w = choose|i: int| 0 <= i < ledger.len() && (#[trigger] ledger[i]).event.tx_hash == tx_hash;
    lemma_first_join(ledger, after, tx_hash, 0);
    let first = first_join(ledger, after, tx_hash, 0);
    assert(joins(ledger, after, tx_hash, w));
    assert(first <= w);
}

/// A phase that was recorded for no L2 block is reported for no withdrawal.
pub proof fn law_unrecorded_phase_is_not_reported(
    ledger: Seq<StoredWithdrawal>,
    blocks: Map<i64, BlockLifecycle>,
    phase: Phase,
    tx_hash: H256,
)
    requires
        forall|n: i64| #[trigger] blocks.contains_key(n) ==> blocks[n].marker(phase) is None,
    ensures
        joined_marker(ledger, blocks, phase, tx_hash) is None,
{
    lemma_first_join(ledger, blocks, tx_hash, 0);
}

/// A transaction of which the ledger holds no record is reported in no phase.
pub proof fn law_unknown_withdrawal_is_not_reported(
    ledger: Seq<StoredWithdrawal>,
    blocks: Map<i64, BlockLifecycle>,
    phase: Phase,
    tx_hash: H256,
)
    requires
        forall|i: int| 0 <= i < ledger.len() ==> (#[trigger] ledger[i]).event.tx_hash != tx_hash,
    ensures
        joined_marker(ledger, blocks, phase, tx_hash) is None,
{
    lemma_first_join(ledger, blocks, tx_hash, 0);
    let first = first_join(ledger, blocks, tx_hash, 0);
    if first < ledger.len() {
        assert(ledger[first].event.tx_hash != tx_hash);
    }
}

} // verus!
