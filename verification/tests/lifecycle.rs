use storage::{BlockLifecycle, BlockLifecycleStore, Error, Phase, PhaseUpdate};

fn marks(
    n: i64,
    commit: Option<i64>,
    verify: Option<i64>,
    execute: Option<i64>,
) -> BlockLifecycle {
    BlockLifecycle {
        l2_block_number: n,
        commit_l1_block_number: commit,
        verify_l1_block_number: verify,
        execute_l1_block_number: execute,
    }
}

fn snapshot(store: &BlockLifecycleStore, from: i64, to: i64) -> Vec<Option<BlockLifecycle>> {
    (from..=to).map(|n| store.get(n)).collect()
}

#[test]
fn record_phase_twice_is_as_once() {
    let mut once = BlockLifecycleStore::new();
    assert_eq!(once.record_phase(Phase::Commit, 100, 105, 50), Ok(()));
    let mut twice = BlockLifecycleStore::new();
    assert_eq!(twice.record_phase(Phase::Commit, 100, 105, 50), Ok(()));
    assert_eq!(twice.record_phase(Phase::Commit, 100, 105, 50), Ok(()));
    assert_eq!(snapshot(&once, 98, 107), snapshot(&twice, 98, 107));
    for n in 100..=105 {
        assert_eq!(twice.get(n), Some(marks(n, Some(50), None, None)));
    }
    assert_eq!(twice.get(99), None);
    assert_eq!(twice.get(106), None);
}

#[test]
fn record_phase_again_overwrites_only_that_phase() {
    let mut store = BlockLifecycleStore::new();
    assert_eq!(store.record_phase(Phase::Commit, 100, 105, 50), Ok(()));
    assert_eq!(store.record_phase(Phase::Commit, 100, 105, 50), Ok(()));
    assert_eq!(store.record_phase(Phase::Verify, 100, 102, 60), Ok(()));
    assert_eq!(store.record_phase(Phase::Execute, 100, 100, 70), Ok(()));
    assert_eq!(store.record_phase(Phase::Commit, 100, 105, 51), Ok(()));
    assert_eq!(store.get(100), Some(marks(100, Some(51), Some(60), Some(70))));
    assert_eq!(store.get(101), Some(marks(101, Some(51), Some(60), None)));
    assert_eq!(store.get(102), Some(marks(102, Some(51), Some(60), None)));
    assert_eq!(store.get(103), Some(marks(103, Some(51), None, None)));
    assert_eq!(store.get(104), Some(marks(104, Some(51), None, None)));
    assert_eq!(store.get(105), Some(marks(105, Some(51), None, None)));
}

#[test]
fn record_phase_takes_the_later_value_not_the_greater() {
    let mut store = BlockLifecycleStore::new();
    assert_eq!(store.record_phase(Phase::Commit, 1, 2, 90), Ok(()));
    assert_eq!(store.record_phase(Phase::Commit, 2, 3, 10), Ok(()));
    assert_eq!(store.get(1), Some(marks(1, Some(90), None, None)));
    assert_eq!(store.get(2), Some(marks(2, Some(10), None, None)));
    assert_eq!(store.get(3), Some(marks(3, Some(10), None, None)));
}

#[test]
fn phases_may_arrive_in_any_order() {
    let mut store = BlockLifecycleStore::new();
    assert_eq!(store.record_phase(Phase::Execute, 7, 7, 30), Ok(()));
    assert_eq!(store.get(7), Some(marks(7, None, None, Some(30))));
    assert_eq!(store.record_phase(Phase::Verify, 7, 7, 20), Ok(()));
    assert_eq!(store.record_phase(Phase::Commit, 7, 7, 10), Ok(()));
    assert_eq!(store.get(7), Some(marks(7, Some(10), Some(20), Some(30))));

    let mut other = BlockLifecycleStore::new();
    assert_eq!(other.record_phase(Phase::Commit, 7, 7, 10), Ok(()));
    assert_eq!(other.record_phase(Phase::Verify, 7, 7, 20), Ok(()));
    assert_eq!(other.record_phase(Phase::Execute, 7, 7, 30), Ok(()));
    assert_eq!(other.get(7), store.get(7));
}

#[test]
fn record_phase_single_block_and_block_zero() {
    let mut store = BlockLifecycleStore::new();
    assert_eq!(store.record_phase(Phase::Verify, 0, 0, 0), Ok(()));
    assert_eq!(store.get(0), Some(marks(0, None, Some(0), None)));
    assert_eq!(store.get(1), None);
    assert_eq!(store.get(-1), None);
}

#[test]
fn record_phase_refuses_empty_range() {
    let mut store = BlockLifecycleStore::new();
    assert_eq!(store.record_phase(Phase::Commit, 5, 6, 1), Ok(()));
    assert_eq!(store.record_phase(Phase::Commit, 6, 5, 2), Err(Error::ConstraintViolation));
    assert_eq!(store.get(5), Some(marks(5, Some(1), None, None)));
    assert_eq!(store.get(6), Some(marks(6, Some(1), None, None)));
}

#[test]
fn record_phase_refuses_numbers_beyond_the_column() {
    let mut store = BlockLifecycleStore::new();
    let top = i64::MAX as u64;
    assert_eq!(store.record_phase(Phase::Commit, 1, top + 1, 2), Err(Error::ConstraintViolation));
    assert_eq!(store.record_phase(Phase::Commit, 1, 1, top + 1), Err(Error::ConstraintViolation));
    assert_eq!(store.record_phase(Phase::Commit, u64::MAX, u64::MAX, 1), Err(Error::ConstraintViolation));
    assert_eq!(store.get(1), None);
    assert_eq!(store.record_phase(Phase::Commit, top, top, top), Ok(()));
    assert_eq!(store.get(i64::MAX), Some(marks(i64::MAX, Some(i64::MAX), None, None)));
}

#[test]
fn highest_committed_l1_block_is_the_greatest_commit() {
    let mut store = BlockLifecycleStore::new();
    assert_eq!(store.highest_committed_l1_block(), None);
    assert_eq!(store.record_phase(Phase::Verify, 1, 3, 900), Ok(()));
    assert_eq!(store.record_phase(Phase::Execute, 1, 3, 901), Ok(()));
    assert_eq!(store.highest_committed_l1_block(), None);
    assert_eq!(store.record_phase(Phase::Commit, 1, 3, 40), Ok(()));
    assert_eq!(store.record_phase(Phase::Commit, 4, 6, 55), Ok(()));
    assert_eq!(store.record_phase(Phase::Commit, 7, 7, 42), Ok(()));
    assert_eq!(store.highest_committed_l1_block(), Some(55));
    assert_eq!(store.record_phase(Phase::Commit, 4, 6, 41), Ok(()));
    assert_eq!(store.highest_committed_l1_block(), Some(42));
}

#[test]
fn highest_committed_l1_block_may_be_zero() {
    let mut store = BlockLifecycleStore::new();
    assert_eq!(store.record_phase(Phase::Commit, 3, 3, 0), Ok(()));
    assert_eq!(store.highest_committed_l1_block(), Some(0));
}

#[test]
fn phase_update_lists_the_range() {
    let update = PhaseUpdate::new(Phase::Execute, 3, 5, 77);
    assert_eq!(
        update,
        Ok(PhaseUpdate { phase: Phase::Execute, l2_block_numbers: vec![3, 4, 5], l1_block_number: 77 })
    );
    let single = PhaseUpdate::new(Phase::Commit, 9, 9, 1);
    assert_eq!(
        single,
        Ok(PhaseUpdate { phase: Phase::Commit, l2_block_numbers: vec![9], l1_block_number: 1 })
    );
}

#[test]
fn phase_update_refuses_what_cannot_be_stored() {
    let top = i64::MAX as u64;
    assert_eq!(PhaseUpdate::new(Phase::Commit, 4, 3, 1), Err(Error::ConstraintViolation));
    assert_eq!(PhaseUpdate::new(Phase::Commit, 0, top + 1, 1), Err(Error::ConstraintViolation));
    assert_eq!(PhaseUpdate::new(Phase::Commit, 0, 0, top + 1), Err(Error::ConstraintViolation));
}

#[test]
fn block_lifecycle_markers() {
    let fresh = BlockLifecycle::new(12);
    assert_eq!(fresh, marks(12, None, None, None));
    let committed = fresh.record(Phase::Commit, 5);
    assert_eq!(committed, marks(12, Some(5), None, None));
    assert_eq!(committed.l1_block(Phase::Commit), Some(5));
    assert_eq!(committed.l1_block(Phase::Verify), None);
    assert_eq!(committed.l1_block(Phase::Execute), None);
    let all = committed.record(Phase::Verify, 6).record(Phase::Execute, 7);
    assert_eq!(all, marks(12, Some(5), Some(6), Some(7)));
    assert_eq!(all.l1_block(Phase::Verify), Some(6));
    assert_eq!(all.l1_block(Phase::Execute), Some(7));
}
