//! The block lifecycle store: for each L2 block, the L1 block in which each
//! of the three phases (commit, verify, execute) was observed.

use crate::error::Error;
use vstd::prelude::*;

verus! {

/// One of the three L1-side phases through which an L2 block becomes final.
#[derive(Clone, Copy, Debug, PartialEq, Eq, Structural)]
pub enum Phase {
    /// The block's batch was committed on L1.
    Commit,
    /// The block's batch was proven on L1.
    Verify,
    /// The block's batch was executed on L1.
    Execute,
}

/// The lifecycle markers of one L2 block. Each phase is recorded on its own:
/// any subset of the three may be set.
#[derive(Clone, Copy, Debug, PartialEq, Eq, Structural)]
pub struct BlockLifecycle {
    /// The L2 block that the markers belong to.
    pub l2_block_number: i64,
    /// The L1 block in which the commit was observed.
    pub commit_l1_block_number: Option<i64>,
    /// The L1 block in which the proof was observed.
    pub verify_l1_block_number: Option<i64>,
    /// The L1 block in which the execution was observed.
    pub execute_l1_block_number: Option<i64>,
}

impl BlockLifecycle {
    /// The markers of a block of which no phase has been observed.
    pub open spec fn unmarked(l2_block_number: i64) -> BlockLifecycle {
        BlockLifecycle {
            l2_block_number,
            commit_l1_block_number: None,
            verify_l1_block_number: None,
            execute_l1_block_number: None,
        }
    }

    /// The L1 block recorded for `phase`, if any.
    pub open spec fn marker(self, phase: Phase) -> Option<i64> {
        match phase {
            Phase::Commit => self.commit_l1_block_number,
            Phase::Verify => self.verify_l1_block_number,
            Phase::Execute => self.execute_l1_block_number,
        }
    }

    /// The same markers with that of `phase` set to `l1_block_number`.
    pub open spec fn with_marker(self, phase: Phase, l1_block_number: i64) -> BlockLifecycle {
        match phase {
            Phase::Commit => BlockLifecycle {
                commit_l1_block_number: Some(l1_block_number),
                ..self
            },
            Phase::Verify => BlockLifecycle {
                verify_l1_block_number: Some(l1_block_number),
                ..self
            },
            Phase::Execute => BlockLifecycle {
                execute_l1_block_number: Some(l1_block_number),
                ..self
            },
        }
    }

    /// Whether the block number and every marker that is set are non-negative.
    pub open spec fn non_negative(self) -> bool {
        &&& self.l2_block_number >= 0
        &&& self.commit_l1_block_number matches Some(n) ==> n >= 0
        &&& self.verify_l1_block_number matches Some(n) ==> n >= 0
        &&& self.execute_l1_block_number matches Some(n) ==> n >= 0
    }

    /// The markers of a block of which no phase has been observed.
    pub fn new(l2_block_number: i64) -> (r: BlockLifecycle)
        ensures
            r == BlockLifecycle::unmarked(l2_block_number),
    {
        BlockLifecycle {
            l2_block_number,
            commit_l1_block_number: None,
            verify_l1_block_number: None,
            execute_l1_block_number: None,
        }
    }

    /// The L1 block recorded for `phase`, if any.
    pub fn l1_block(&self, phase: Phase) -> (r: Option<i64>)
        ensures
            r == self.marker(phase),
    {
        match phase {
            Phase::Commit => self.commit_l1_block_number,
            Phase::Verify => self.verify_l1_block_number,
            Phase::Execute => self.execute_l1_block_number,
        }
    }

    /// The same markers with that of `phase` set to `l1_block_number`.
    pub fn record(&self, phase: Phase, l1_block_number: i64) -> (r: BlockLifecycle)
        ensures
            r == self.with_marker(phase, l1_block_number),
    {
        let mut next = *self;
        match phase {
            Phase::Commit => {
                next.commit_l1_block_number = Some(l1_block_number);
            },
            Phase::Verify => {
                next.verify_l1_block_number = Some(l1_block_number);
            },
            Phase::Execute => {
                next.execute_l1_block_number = Some(l1_block_number);
            },
        }
        next
    }
}

/// Whether a phase notification can be stored: the range is not empty, and
/// its bounds and the L1 block each fit a signed 64-bit column.
pub open spec fn storable_notification(start: u64, end: u64, l1_block_number: u64) -> bool {
    start <= end && end <= i64::MAX && l1_block_number <= i64::MAX
}

/// The block numbers from `start` to `end`, both included, in ascending order.
pub open spec fn block_numbers(start: int, end: int) -> Seq<i64> {
    Seq::new((end - start + 1) as nat, |k: int| (start + k) as i64)
}

/// The store after `phase` has been recorded at `l1_block_number` for every
/// L2 block from `start` to `end`, both included. A block of the range that
/// the store did not hold appears with that one marker set; one that it held
/// keeps its other markers. Blocks outside the range are as before.
pub open spec fn recorded(
    blocks: Map<i64, BlockLifecycle>,
    phase: Phase,
    start: i64,
    end: i64,
    l1_block_number: i64,
) -> Map<i64, BlockLifecycle> {
    Map::new(
        |n: i64| blocks.contains_key(n) || start <= n <= end,
        |n: i64|
            if start <= n <= end {
                (if blocks.contains_key(n) {
                    blocks[n]
                } else {
                    BlockLifecycle::unmarked(n)
                }).with_marker(phase, l1_block_number)
            } else {
                blocks[n]
            },
    )
}

/// Whether `l1_block_number` is the greatest commit marker among `blocks`.
pub open spec fn is_highest_commit(blocks: Map<i64, BlockLifecycle>, l1_block_number: u64) -> bool {
    &&& exists|n: i64| #[trigger]
        blocks.contains_key(n) && blocks[n].commit_l1_block_number == Some(l1_block_number as i64)
    &&& l1_block_number <= i64::MAX
    &&& forall|n: i64| #[trigger]
        blocks.contains_key(n) ==> (blocks[n].commit_l1_block_number matches Some(c) ==> c
            <= l1_block_number)
}

/// Whether no block of `blocks` has a commit marker.
pub open spec fn no_commit(blocks: Map<i64, BlockLifecycle>) -> bool {
    forall|n: i64| #[trigger] blocks.contains_key(n) ==> blocks[n].commit_l1_block_number is None
}

/// What a block lifecycle store may hold: each entry under its own block
/// number, and no negative number anywhere.
pub open spec fn valid_blocks(blocks: Map<i64, BlockLifecycle>) -> bool {
    forall|n: i64| #[trigger]
        blocks.contains_key(n) ==> blocks[n].l2_block_number == n && blocks[n].non_negative()
}

/// A phase notification in the form in which it is stored: the L2 blocks of
/// the range one by one, and the L1 block, as signed 64-bit numbers.
#[derive(Debug, PartialEq, Eq)]
pub struct PhaseUpdate {
    /// The phase that was observed.
    pub phase: Phase,
    /// The L2 blocks that the notification covers, in ascending order.
    pub l2_block_numbers: Vec<i64>,
    /// The L1 block in which the phase was observed.
    pub l1_block_number: i64,
}

impl PhaseUpdate {
    /// The stored form of the notification that `phase` was observed at
    /// `l1_block_number` for the L2 blocks from `start` to `end`, both
    /// included.
    pub fn new(phase: Phase, start: u64, end: u64, l1_block_number: u64) -> (r: Result<
        PhaseUpdate,
        Error,
    >)
        ensures
            match r {
                Ok(update) => {
                    &&& storable_notification(start, end, l1_block_number)
                    &&& update.phase == phase
                    &&& update.l2_block_numbers@ == block_numbers(start as int, end as int)
                    &&& update.l1_block_number == l1_block_number
                },
                Err(e) => e == Error::ConstraintViolation && !storable_notification(
                    start,
                    end,
                    l1_block_number,
                ),
            },
    {
        if start > end || end > 0x7fff_ffff_ffff_ffffu64 || l1_block_number
            > 0x7fff_ffff_ffff_ffffu64 {
            return Err(Error::ConstraintViolation);
        }
        let first: i64 = start as i64;
        let last: i64 = end as i64;
        let mut numbers: Vec<i64> = Vec::new();
        let mut n: i64 = first;
        loop
            invariant_except_break
                0 <= first <= n <= last,
                numbers@ == block_numbers(first as int, n - 1),
            ensures
                numbers@ == block_numbers(first as int, last as int),
            decreases last - n,
        {
            numbers.push(n);
            assert(numbers@ =~= block_numbers(first as int, n as int));
            if n == last {
                break ;
            }
            n = n + 1;
        }
        Ok(PhaseUpdate { phase, l2_block_numbers: numbers, l1_block_number: l1_block_number as i64 })
    }
}

/// The entries of `rows` as a map from L2 block number to markers.
spec fn keyed(rows: Seq<BlockLifecycle>) -> Map<i64, BlockLifecycle> {
    Map::new(
        |n: i64| exists|i: int| 0 <= i < rows.len() && (#[trigger] rows[i]).l2_block_number == n,
        |n: i64| rows[choose|i: int| 0 <= i < rows.len() && (#[trigger] rows[i]).l2_block_number == n],
    )
}

/// Whether no two entries of `rows` belong to one L2 block.
spec fn distinct_blocks(rows: Seq<BlockLifecycle>) -> bool {
    forall|i: int, j: int|
        0 <= i < rows.len() && 0 <= j < rows.len() && i != j ==> (#[trigger] rows[i]).l2_block_number
            != (#[trigger] rows[j]).l2_block_number
}

/// The block lifecycle store.
pub struct BlockLifecycleStore {
    rows: Vec<BlockLifecycle>,
}

impl View for BlockLifecycleStore {
    type V = Map<i64, BlockLifecycle>;

    /// The markers that the store holds, by L2 block number.
    closed spec fn view(&self) -> Map<i64, BlockLifecycle> {
        keyed(self.rows@)
    }
}

impl BlockLifecycleStore {
    /// The invariant of the store.
    pub closed spec fn wf(&self) -> bool {
        &&& distinct_blocks(self.rows@)
        &&& forall|i: int| 0 <= i < self.rows@.len() ==> (#[trigger] self.rows@[i]).non_negative()
    }

    /// A well-formed store holds each entry under its own block number, and
    /// no negative number.
    pub proof fn lemma_wf_implies_valid(&self)
        requires
            self.wf(),
        ensures
            valid_blocks(self@),
    {
    }

    /// A store without entries.
    pub fn new() -> (r: BlockLifecycleStore)
        ensures
            r.wf(),
            r@ == Map::<i64, BlockLifecycle>::empty(),
    {
        let r = BlockLifecycleStore { rows: Vec::new() };
        assert(r@ =~= Map::<i64, BlockLifecycle>::empty());
        r
    }

    /// Where the entry of the given L2 block stands, if the store holds one.
    fn position(&self, l2_block_number: i64) -> (r: Option<usize>)
        ensures
            match r {
                Some(i) => i < self.rows@.len() && self.rows@[i as int].l2_block_number
                    == l2_block_number,
                None => forall|j: int|
                    0 <= j < self.rows@.len() ==> (#[trigger] self.rows@[j]).l2_block_number
                        != l2_block_number,
            },
    {
        let mut i: usize = 0;
        while i < self.rows.len()
            invariant
                i <= self.rows.len(),
                forall|j: int|
                    0 <= j < i ==> (#[trigger] self.rows@[j]).l2_block_number != l2_block_number,
            decreases self.rows.len() - i,
        {
            if self.rows[i].l2_block_number == l2_block_number {
                return Some(i);
            }
            i += 1;
        }
        None
    }

    /// The markers of the given L2 block, if the store holds any.
    pub fn get(&self, l2_block_number: i64) -> (r: Option<BlockLifecycle>)
        requires
            self.wf(),
        ensures
            r == if self@.contains_key(l2_block_number) {
                Some(self@[l2_block_number])
            } else {
                None
            },
    {
        match self.position(l2_block_number) {
            Some(i) => Some(self.rows[i]),
            None => None,
        }
    }

    /// Sets the marker of `phase` for one L2 block, creating the entry where
    /// the store holds none.
    fn upsert(&mut self, phase: Phase, l2_block_number: i64, l1_block_number: i64)
        requires
            old(self).wf(),
            l2_block_number >= 0,
            l1_block_number >= 0,
        ensures
            final(self).wf(),
            final(self)@ == recorded(
                old(self)@,
                phase,
                l2_block_number,
                l2_block_number,
                l1_block_number,
            ),
    {
        let ghost before = self.rows@;
        match self.position(l2_block_number) {
            Some(i) => {
                let next = self.rows[i].record(phase, l1_block_number);
                self.rows[i] = next;
                proof {
                    assert(before[i as int].non_negative());
                    lemma_keyed_replace(before, i as int, next);
                }
            },
            None => {
                let next = BlockLifecycle::new(l2_block_number).record(phase, l1_block_number);
                self.rows.push(next);
                proof {
                    lemma_keyed_push(before, next);
                }
            },
        }
        assert(self@ =~= recorded(
            old(self)@,
            phase,
            l2_block_number,
            l2_block_number,
            l1_block_number,
        ));
        assert forall|j: int| 0 <= j < self.rows@.len() implies (
        #[trigger] self.rows@[j]).non_negative() by {
            if j < before.len() {
                assert(before[j].non_negative());
            }
        }
    }

    /// Records that `phase` was observed at `l1_block_number` for every L2
    /// block from `start` to `end`, both included, in one atomic step. Each
    /// block of the range gets that one marker set, whether the store held
    /// the block or not; nothing else changes. To record the same
    /// notification again changes nothing. A notification that cannot be
    /// stored is refused as a whole.
    pub fn record_phase(&mut self, phase: Phase, start: u64, end: u64, l1_block_number: u64) -> (r:
        Result<(), Error>)
        requires
            old(self).wf(),
        ensures
            final(self).wf(),
            match r {
                Ok(_) => storable_notification(start, end, l1_block_number) && final(self)@
                    == recorded(
                    old(self)@,
                    phase,
                    start as i64,
                    end as i64,
                    l1_block_number as i64,
                ),
                Err(e) => e == Error::ConstraintViolation && !storable_notification(
                    start,
                    end,
                    l1_block_number,
                ) && final(self)@ == old(self)@,
            },
    {
        let update = match PhaseUpdate::new(phase, start, end, l1_block_number) {
            Ok(update) => update,
            Err(e) => {
                return Err(e);
            },
        };
        assert(self@ =~= recorded(
            old(self)@,
            phase,
            start as i64,
            (start - 1) as i64,
            l1_block_number as i64,
        ));
        let mut k: usize = 0;
        while k < update.l2_block_numbers.len()
            invariant
                self.wf(),
                k <= update.l2_block_numbers@.len(),
                storable_notification(start, end, l1_block_number),
                update.l2_block_numbers@ == block_numbers(start as int, end as int),
                update.l1_block_number == l1_block_number,
                update.phase == phase,
                self@ == recorded(
                    old(self)@,
                    phase,
                    start as i64,
                    (start + k - 1) as i64,
                    l1_block_number as i64,
                ),
            decreases update.l2_block_numbers@.len() - k,
        {
            let number: i64 = update.l2_block_numbers[k];
            self.upsert(update.phase, number, update.l1_block_number);
            assert(self@ =~= recorded(
                old(self)@,
                phase,
                start as i64,
                (start + k) as i64,
                l1_block_number as i64,
            ));
            k += 1;
        }
        Ok(())
    }

    /// The greatest L1 block recorded for the commit phase of any L2 block,
    /// or `None` where no commit has been recorded.
    pub fn highest_committed_l1_block(&self) -> (r: Option<u64>)
        requires
            self.wf(),
        ensures
            match r {
                Some(l1_block_number) => is_highest_commit(self@, l1_block_number),
                None => no_commit(self@),
            },
    {
        let mut best: Option<i64> = None;
        let mut i: usize = 0;
        while i < self.rows.len()
            invariant
                self.wf(),
                i <= self.rows.len(),
                match best {
                    Some(b) => {
                        &&& b >= 0
                        &&& exists|j: int|
                            0 <= j < i && (#[trigger] self.rows@[j]).commit_l1_block_number == Some(b)
                        &&& forall|j: int|
                            0 <= j < i ==> ((#[trigger] self.rows@[j]).commit_l1_block_number matches Some(
                                c,
                            ) ==> c <= b)
                    },
                    None => forall|j: int|
                        0 <= j < i ==> (#[trigger] self.rows@[j]).commit_l1_block_number is None,
                },
            decreases self.rows.len() - i,
        {
            assert(self.rows@[i as int].non_negative());
            match self.rows[i].commit_l1_block_number {
                Some(c) => {
                    let higher = match best {
                        Some(b) => c > b,
                        None => true,
                    };
                    if higher {
                        best = Some(c);
                    }
                },
                None => {},
            }
            i += 1;
        }
        proof {
            lemma_keyed(self.rows@);
        }
        match best {
            Some(b) => {
                proof {
                    let j = choose|j: int|
                        0 <= j < self.rows@.len() && (#[trigger] self.rows@[j]).commit_l1_block_number
                            == Some(b);
                    assert(self@.contains_key(self.rows@[j].l2_block_number));
                }
                Some(b as u64)
            },
            None => None,
        }
    }
}

/// With distinct block numbers, each entry is found under its own number.
proof fn lemma_keyed(rows: Seq<BlockLifecycle>)
    requires
        distinct_blocks(rows),
    ensures
        forall|i: int|
            0 <= i < rows.len() ==> keyed(rows).contains_key((#[trigger] rows[i]).l2_block_number)
                && keyed(rows)[rows[i].l2_block_number] == rows[i],
        forall|n: i64| #[trigger]
            keyed(rows).contains_key(n) ==> exists|i: int|
                0 <= i < rows.len() && (#[trigger] rows[i]).l2_block_number == n,
{
    assert forall|i: int| 0 <= i < rows.len() implies keyed(rows).contains_key(
        (#[trigger] rows[i]).l2_block_number,
    ) && keyed(rows)[rows[i].l2_block_number] == rows[i] by {
        let n = rows[i].l2_block_number;
        let j = choose|j: int| 0 <= j < rows.len() && (#[trigger] rows[j]).l2_block_number == n;
        assert(j == i);
    }
}

/// Replacing an entry by one for the same L2 block replaces it in the map.
proof fn lemma_keyed_replace(rows: Seq<BlockLifecycle>, i: int, next: BlockLifecycle)
    requires
        distinct_blocks(rows),
        0 <= i < rows.len(),
        next.l2_block_number == rows[i].l2_block_number,
    ensures
        distinct_blocks(rows.update(i, next)),
        keyed(rows.update(i, next)) == keyed(rows).insert(next.l2_block_number, next),
{
    let after = rows.update(i, next);
    assert forall|a: int, b: int|
        0 <= a < after.len() && 0 <= b < after.len() && a != b implies (
    #[trigger] after[a]).l2_block_number != (#[trigger] after[b]).l2_block_number by {
        assert(rows[a].l2_block_number != rows[b].l2_block_number);
    }
    lemma_keyed(rows);
    lemma_keyed(after);
    let wanted = keyed(rows).insert(next.l2_block_number, next);
    assert forall|n: i64| keyed(after).contains_key(n) <==> wanted.contains_key(n) by {
        if keyed(after).contains_key(n) {
            let j = choose|j: int| 0 <= j < after.len() && (#[trigger] after[j]).l2_block_number == n;
            assert(rows[j].l2_block_number == n);
        }
        if keyed(rows).contains_key(n) {
            let j = choose|j: int| 0 <= j < rows.len() && (#[trigger] rows[j]).l2_block_number == n;
            assert(after[j].l2_block_number == n);
        }
        if n == next.l2_block_number {
            assert(after[i].l2_block_number == n);
        }
    }
    assert forall|n: i64| keyed(after).contains_key(n) implies keyed(after)[n] == wanted[n] by {
        let j = choose|j: int| 0 <= j < after.len() && (#[trigger] after[j]).l2_block_number == n;
        assert(rows[j].l2_block_number == n);
        assert(keyed(after)[n] == after[j]);
        assert(keyed(rows)[n] == rows[j]);
    }
    assert(keyed(after) =~= wanted);
}

/// Appending an entry for an L2 block that has none adds it to the map.
proof fn lemma_keyed_push(rows: Seq<BlockLifecycle>, next: BlockLifecycle)
    requires
        distinct_blocks(rows),
        forall|j: int| 0 <= j < rows.len() ==> (#[trigger] rows[j]).l2_block_number != next.l2_block_number,
    ensures
        distinct_blocks(rows.push(next)),
        !keyed(rows).contains_key(next.l2_block_number),
        keyed(rows.push(next)) == keyed(rows).insert(next.l2_block_number, next),
{
    let after = rows.push(next);
    assert forall|a: int, b: int|
        0 <= a < after.len() && 0 <= b < after.len() && a != b implies (
    #[trigger] after[a]).l2_block_number != (#[trigger] after[b]).l2_block_number by {
        if a < rows.len() && b < rows.len() {
            assert(rows[a].l2_block_number != rows[b].l2_block_number);
        } else if a < rows.len() {
            assert(rows[a].l2_block_number != next.l2_block_number);
        } else {
            assert(rows[b].l2_block_number != next.l2_block_number);
        }
    }
    lemma_keyed(rows);
    lemma_keyed(after);
    let wanted = keyed(rows).insert(next.l2_block_number, next);
    assert forall|n: i64| keyed(after).contains_key(n) <==> wanted.contains_key(n) by {
        if keyed(after).contains_key(n) {
            let j = choose|j: int| 0 <= j < after.len() && (#[trigger] after[j]).l2_block_number == n;
            if j < rows.len() {
                assert(rows[j].l2_block_number == n);
            }
        }
        if keyed(rows).contains_key(n) {
            let j = choose|j: int| 0 <= j < rows.len() && (#[trigger] rows[j]).l2_block_number == n;
            assert(after[j].l2_block_number == n);
        }
        if n == next.l2_block_number {
            assert(after[rows.len() as int].l2_block_number == n);
        }
    }
    assert forall|n: i64| keyed(after).contains_key(n) implies keyed(after)[n] == wanted[n] by {
        let j = choose|j: int| 0 <= j < after.len() && (#[trigger] after[j]).l2_block_number == n;
        assert(keyed(after)[n] == after[j]);
        if j < rows.len() {
            assert(rows[j].l2_block_number == n);
            assert(keyed(rows)[n] == rows[j]);
        }
    }
    assert(keyed(after) =~= wanted);
}

} // verus!
