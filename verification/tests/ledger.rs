use storage::{Error, StoredWithdrawal, WithdrawalEvent, WithdrawalLedger, H160, H256, U256};

fn hash(byte: u8) -> H256 {
    H256 { bytes: [byte; 32] }
}

fn numbered_hash(n: u16) -> H256 {
    let mut bytes = [0u8; 32];
    bytes[30] = (n >> 8) as u8;
    bytes[31] = (n & 0xff) as u8;
    H256 { bytes }
}

fn record(tx: H256, block: u64, amount: u64, index: usize) -> StoredWithdrawal {
    StoredWithdrawal {
        event: WithdrawalEvent {
            tx_hash: tx,
            block_number: block,
            token: H160 { bytes: [0xBB; 20] },
            amount: U256::from_u64(amount),
        },
        index_in_tx: index,
        is_finalized: false,
    }
}

#[test]
fn ingest_twice_is_as_once() {
    let batch = vec![
        record(hash(1), 10, 100, 0),
        record(hash(1), 10, 200, 1),
        record(hash(2), 11, 300, 0),
    ];
    let mut once = WithdrawalLedger::new();
    assert_eq!(once.ingest(&batch), Ok(()));
    let mut twice = WithdrawalLedger::new();
    assert_eq!(twice.ingest(&batch), Ok(()));
    assert_eq!(twice.ingest(&batch), Ok(()));
    assert_eq!(once.records(), twice.records());
    assert_eq!(twice.records(), &batch);
}

#[test]
fn ingest_keeps_the_first_amount_on_conflict() {
    let mut ledger = WithdrawalLedger::new();
    assert_eq!(ledger.ingest(&[record(hash(1), 10, 100, 0)]), Ok(()));
    assert_eq!(ledger.ingest(&[record(hash(1), 10, 999, 0)]), Ok(()));
    assert_eq!(ledger.records(), &vec![record(hash(1), 10, 100, 0)]);
}

#[test]
fn ingest_skips_duplicates_within_one_batch() {
    let mut ledger = WithdrawalLedger::new();
    let batch = [
        record(hash(1), 10, 100, 0),
        record(hash(1), 12, 555, 0),
        record(hash(1), 10, 100, 1),
    ];
    assert_eq!(ledger.ingest(&batch), Ok(()));
    assert_eq!(ledger.records(), &vec![record(hash(1), 10, 100, 0), record(hash(1), 10, 100, 1)]);
}

#[test]
fn ingest_inserts_the_new_and_skips_the_known() {
    let mut ledger = WithdrawalLedger::new();
    assert_eq!(ledger.ingest(&[record(hash(1), 10, 100, 0), record(hash(2), 10, 1, 0)]), Ok(()));
    let replay = [record(hash(2), 10, 2, 0), record(hash(3), 9, 3, 0), record(hash(1), 10, 4, 0)];
    assert_eq!(ledger.ingest(&replay), Ok(()));
    assert_eq!(
        ledger.records(),
        &vec![record(hash(1), 10, 100, 0), record(hash(2), 10, 1, 0), record(hash(3), 9, 3, 0)]
    );
}

#[test]
fn ingest_of_nothing_changes_nothing() {
    let mut ledger = WithdrawalLedger::new();
    assert_eq!(ledger.ingest(&[]), Ok(()));
    assert!(ledger.records().is_empty());
}

#[test]
fn ingest_stores_the_flag_it_is_given() {
    let mut ledger = WithdrawalLedger::new();
    let mut done = record(hash(4), 3, 1, 0);
    done.is_finalized = true;
    assert_eq!(ledger.ingest(&[done]), Ok(()));
    assert_eq!(ledger.records(), &vec![done]);
    assert!(ledger.pending_finalization(30).is_empty());
}

#[test]
fn ingest_refuses_the_whole_batch_where_one_record_does_not_fit() {
    let mut ledger = WithdrawalLedger::new();
    assert_eq!(ledger.ingest(&[record(hash(1), 10, 100, 0)]), Ok(()));
    let too_high = record(hash(3), i64::MAX as u64 + 1, 1, 0);
    assert_eq!(
        ledger.ingest(&[record(hash(2), 11, 5, 0), too_high]),
        Err(Error::ConstraintViolation)
    );
    assert_eq!(ledger.records(), &vec![record(hash(1), 10, 100, 0)]);
    let too_far = record(hash(3), 11, 1, i32::MAX as usize + 1);
    assert_eq!(ledger.ingest(&[too_far]), Err(Error::ConstraintViolation));
    assert_eq!(ledger.records().len(), 1);
    let at_the_edge = record(hash(3), i64::MAX as u64, 1, i32::MAX as usize);
    assert_eq!(ledger.ingest(&[at_the_edge]), Ok(()));
    assert_eq!(ledger.records().len(), 2);
}

#[test]
fn finalize_marks_exactly_the_given_keys() {
    let mut ledger = WithdrawalLedger::new();
    let batch = [
        record(hash(1), 10, 100, 0),
        record(hash(1), 10, 200, 1),
        record(hash(2), 11, 300, 0),
    ];
    assert_eq!(ledger.ingest(&batch), Ok(()));
    ledger.finalize(&[(hash(1), 1), (hash(9), 0), (hash(2), 5)]);
    let mut expected = batch.to_vec();
    expected[1].is_finalized = true;
    assert_eq!(ledger.records(), &expected);
    ledger.finalize(&[(hash(1), 1)]);
    assert_eq!(ledger.records(), &expected);
    ledger.finalize(&[]);
    assert_eq!(ledger.records(), &expected);
}

#[test]
fn finalized_record_is_not_pending() {
    let mut ledger = WithdrawalLedger::new();
    assert_eq!(ledger.ingest(&[record(hash(7), 10, 100, 0), record(hash(7), 10, 100, 1)]), Ok(()));
    assert_eq!(ledger.pending_finalization(30).len(), 2);
    ledger.finalize(&[(hash(7), 0)]);
    assert_eq!(ledger.pending_finalization(30), vec![record(hash(7), 10, 100, 1)]);
    assert_eq!(ledger.ingest(&[record(hash(7), 10, 100, 0)]), Ok(()));
    assert_eq!(ledger.pending_finalization(30), vec![record(hash(7), 10, 100, 1)]);
}

#[test]
fn pending_finalization_is_capped_and_oldest_first() {
    let mut ledger = WithdrawalLedger::new();
    let batch: Vec<StoredWithdrawal> =
        (0..50u16).map(|n| record(numbered_hash(n), 1000 - n as u64, n as u64, 0)).collect();
    assert_eq!(ledger.ingest(&batch), Ok(()));
    let pending = ledger.pending_finalization(30);
    assert_eq!(pending.len(), 30);
    let expected: Vec<StoredWithdrawal> =
        (20..50u16).rev().map(|n| record(numbered_hash(n), 1000 - n as u64, n as u64, 0)).collect();
    assert_eq!(pending, expected);
    for pair in pending.windows(2) {
        assert!(pair[0].event.block_number <= pair[1].event.block_number);
    }
}

#[test]
fn pending_finalization_drains_by_repeated_calls() {
    let mut ledger = WithdrawalLedger::new();
    let batch: Vec<StoredWithdrawal> =
        (0..50u16).map(|n| record(numbered_hash(n), n as u64, 1, 0)).collect();
    assert_eq!(ledger.ingest(&batch), Ok(()));
    let first = ledger.pending_finalization(30);
    assert_eq!(first, batch[..30].to_vec());
    let keys: Vec<(H256, usize)> = first.iter().map(|w| (w.event.tx_hash, w.index_in_tx)).collect();
    ledger.finalize(&keys);
    let second = ledger.pending_finalization(30);
    assert_eq!(second, batch[30..].to_vec());
    let keys: Vec<(H256, usize)> = second.iter().map(|w| (w.event.tx_hash, w.index_in_tx)).collect();
    ledger.finalize(&keys);
    assert!(ledger.pending_finalization(30).is_empty());
}

#[test]
fn pending_finalization_keeps_arrival_order_within_a_block() {
    let mut ledger = WithdrawalLedger::new();
    let batch = [
        record(hash(1), 7, 1, 0),
        record(hash(2), 5, 2, 0),
        record(hash(3), 7, 3, 0),
        record(hash(4), 5, 4, 0),
        record(hash(5), 6, 5, 0),
    ];
    assert_eq!(ledger.ingest(&batch), Ok(()));
    assert_eq!(
        ledger.pending_finalization(30),
        vec![batch[1], batch[3], batch[4], batch[0], batch[2]]
    );
    assert_eq!(ledger.pending_finalization(3), vec![batch[1], batch[3], batch[4]]);
    assert_eq!(ledger.pending_finalization(1), vec![batch[1]]);
    assert!(ledger.pending_finalization(0).is_empty());
}

#[test]
fn pending_finalization_of_an_empty_ledger() {
    assert!(WithdrawalLedger::new().pending_finalization(30).is_empty());
}

#[test]
fn highest_observed_l2_block_of_the_ledger() {
    let mut ledger = WithdrawalLedger::new();
    assert_eq!(ledger.highest_observed_l2_block(), None);
    assert_eq!(ledger.ingest(&[record(hash(1), 42, 1, 0)]), Ok(()));
    assert_eq!(ledger.highest_observed_l2_block(), Some(42));
    assert_eq!(ledger.ingest(&[record(hash(2), 7, 1, 0), record(hash(3), 43, 1, 0)]), Ok(()));
    assert_eq!(ledger.highest_observed_l2_block(), Some(43));
    ledger.finalize(&[(hash(3), 0)]);
    assert_eq!(ledger.highest_observed_l2_block(), Some(43));
}

#[test]
fn record_key_and_fit() {
    let w = record(hash(1), 10, 100, 3);
    assert!(w.has_key(&hash(1), 3));
    assert!(!w.has_key(&hash(1), 2));
    assert!(!w.has_key(&hash(2), 3));
    assert!(w.is_storable());
    assert!(!record(hash(1), u64::MAX, 100, 3).is_storable());
    assert!(hash(1).same(&hash(1)));
    assert!(!hash(1).same(&numbered_hash(1)));
    let token = H160 { bytes: [3; 20] };
    let mut other = token;
    other.bytes[19] = 4;
    assert!(token.same(&token));
    assert!(!token.same(&other));
}
