use storage::{
    from_row, key_columns, to_row, withdrawal_columns, Decimal, Error, KeyColumns,
    StoredWithdrawal, WithdrawalEvent, WithdrawalRow, H160, H256, U256,
};

fn record(block: u64, amount: U256, index: usize, done: bool) -> StoredWithdrawal {
    let mut tx = [0u8; 32];
    for (i, b) in tx.iter_mut().enumerate() {
        *b = i as u8;
    }
    let mut token = [0u8; 20];
    for (i, b) in token.iter_mut().enumerate() {
        *b = 0xF0 + i as u8;
    }
    StoredWithdrawal {
        event: WithdrawalEvent {
            tx_hash: H256 { bytes: tx },
            block_number: block,
            token: H160 { bytes: token },
            amount,
        },
        index_in_tx: index,
        is_finalized: done,
    }
}

fn row() -> WithdrawalRow {
    WithdrawalRow {
        tx_hash: (0..32u8).collect(),
        l2_block_number: 77,
        token: (0..20u8).map(|i| 0xF0 + i).collect(),
        amount: Decimal { negative: false, digits: vec![1, 2, 3], scale: 0 },
        event_index_in_tx: 4,
        is_finalized: true,
    }
}

#[test]
fn to_row_writes_each_field() {
    let w = record(77, U256::from_u64(123), 4, true);
    assert_eq!(to_row(&w), Ok(row()));
}

#[test]
fn from_row_reads_each_field() {
    assert_eq!(from_row(&row()), Ok(record(77, U256::from_u64(123), 4, true)));
}

#[test]
fn row_round_trip() {
    let samples = [
        record(0, U256::zero(), 0, false),
        record(i64::MAX as u64, U256::max_value(), i32::MAX as usize, true),
        record(5, U256::from_limbs([1, 2, 3, 4]), 9, false),
    ];
    for w in samples {
        let row = to_row(&w).unwrap();
        assert_eq!(from_row(&row), Ok(w));
    }
}

#[test]
fn to_row_refuses_what_does_not_fit() {
    let high = record(i64::MAX as u64 + 1, U256::zero(), 0, false);
    assert_eq!(to_row(&high), Err(Error::ConstraintViolation));
    let far = record(1, U256::zero(), i32::MAX as usize + 1, false);
    assert_eq!(to_row(&far), Err(Error::ConstraintViolation));
}

#[test]
fn from_row_refuses_corrupt_rows() {
    let mut short_hash = row();
    short_hash.tx_hash.pop();
    assert_eq!(from_row(&short_hash), Err(Error::ConversionError));
    let mut long_token = row();
    long_token.token.push(0);
    assert_eq!(from_row(&long_token), Err(Error::ConversionError));
    let mut negative_block = row();
    negative_block.l2_block_number = -1;
    assert_eq!(from_row(&negative_block), Err(Error::ConversionError));
    let mut negative_index = row();
    negative_index.event_index_in_tx = -1;
    assert_eq!(from_row(&negative_index), Err(Error::ConversionError));
    let mut negative_amount = row();
    negative_amount.amount.negative = true;
    assert_eq!(from_row(&negative_amount), Err(Error::ConversionError));
    let mut fraction = row();
    fraction.amount.scale = 1;
    assert_eq!(from_row(&fraction), Err(Error::ConversionError));
}

#[test]
fn from_row_accepts_an_amount_written_with_a_scale() {
    let mut scaled = row();
    scaled.amount = Decimal { negative: false, digits: vec![1, 2, 3, 0, 0], scale: 2 };
    assert_eq!(from_row(&scaled), Ok(record(77, U256::from_u64(123), 4, true)));
}

#[test]
fn withdrawal_columns_are_parallel() {
    let batch = [
        record(1, U256::from_u64(10), 0, false),
        record(2, U256::from_u64(205), 1, true),
    ];
    let columns = withdrawal_columns(&batch).unwrap();
    let tx: Vec<u8> = (0..32u8).collect();
    let token: Vec<u8> = (0..20u8).map(|i| 0xF0 + i).collect();
    assert_eq!(columns.tx_hashes, vec![tx.clone(), tx]);
    assert_eq!(columns.block_numbers, vec![1, 2]);
    assert_eq!(columns.tokens, vec![token.clone(), token]);
    assert_eq!(
        columns.amounts,
        vec![
            Decimal { negative: false, digits: vec![1, 0], scale: 0 },
            Decimal { negative: false, digits: vec![2, 0, 5], scale: 0 },
        ]
    );
    assert_eq!(columns.indices_in_tx, vec![0, 1]);
    assert_eq!(columns.is_finalized, vec![false, true]);
}

#[test]
fn withdrawal_columns_of_nothing_are_empty() {
    let columns = withdrawal_columns(&[]).unwrap();
    assert!(columns.tx_hashes.is_empty());
    assert!(columns.block_numbers.is_empty());
    assert!(columns.tokens.is_empty());
    assert!(columns.amounts.is_empty());
    assert!(columns.indices_in_tx.is_empty());
    assert!(columns.is_finalized.is_empty());
}

#[test]
fn withdrawal_columns_refuse_what_does_not_fit() {
    let batch = [record(1, U256::zero(), 0, false), record(u64::MAX, U256::zero(), 0, false)];
    assert_eq!(withdrawal_columns(&batch), Err(Error::ConstraintViolation));
}

#[test]
fn key_columns_leave_out_keys_that_fit_no_record() {
    let a = H256 { bytes: [1; 32] };
    let b = H256 { bytes: [2; 32] };
    let keys = [(a, 0), (b, i32::MAX as usize + 1), (b, 7), (a, i32::MAX as usize)];
    assert_eq!(
        key_columns(&keys),
        KeyColumns {
            tx_hashes: vec![vec![1; 32], vec![2; 32], vec![1; 32]],
            indices_in_tx: vec![0, 7, i32::MAX],
        }
    );
    assert_eq!(key_columns(&[]), KeyColumns { tx_hashes: vec![], indices_in_tx: vec![] });
}
