//! Withdrawal records in the form in which they are kept at rest: hashes as
//! byte strings, numbers in signed columns, amounts as decimals.

use crate::decimal::{decode, decoded, encode, encoded, lemma_decode_encode, Decimal, DecimalView};
use crate::error::Error;
use crate::ledger::{all_storable, StoredWithdrawal, WithdrawalEvent};
use crate::primitives::{lemma_value_bounded, lemma_value_determines_limbs, H160, H256, U256};
use vstd::prelude::*;

verus! {

/// One withdrawal record at rest.
#[derive(Debug, PartialEq, Eq)]
pub struct WithdrawalRow {
    /// The bytes of the transaction hash.
    pub tx_hash: Vec<u8>,
    /// The L2 block that holds the transaction.
    pub l2_block_number: i64,
    /// The bytes of the token address.
    pub token: Vec<u8>,
    /// The withdrawn quantity.
    pub amount: Decimal,
    /// Zero-based position of the event among those of its transaction.
    pub event_index_in_tx: i32,
    /// Whether the withdrawal has been finalized.
    pub is_finalized: bool,
}

/// The content of a [`WithdrawalRow`].
pub struct WithdrawalRowView {
    /// The bytes of the transaction hash.
    pub tx_hash: Seq<u8>,
    /// The L2 block that holds the transaction.
    pub l2_block_number: i64,
    /// The bytes of the token address.
    pub token: Seq<u8>,
    /// The withdrawn quantity.
    pub amount: DecimalView,
    /// Zero-based position of the event among those of its transaction.
    pub event_index_in_tx: i32,
    /// Whether the withdrawal has been finalized.
    pub is_finalized: bool,
}

impl View for WithdrawalRow {
    type V = WithdrawalRowView;

    open spec fn view(&self) -> WithdrawalRowView {
        WithdrawalRowView {
            tx_hash: self.tx_hash@,
            l2_block_number: self.l2_block_number,
            token: self.token@,
            amount: self.amount@,
            event_index_in_tx: self.event_index_in_tx,
            is_finalized: self.is_finalized,
        }
    }
}

/// The row that a storable record is kept as.
pub open spec fn row_of(record: StoredWithdrawal) -> WithdrawalRowView {
    WithdrawalRowView {
        tx_hash: record.event.tx_hash.bytes@,
        l2_block_number: record.event.block_number as i64,
        token: record.event.token.bytes@,
        amount: encoded(record.event.amount@),
        event_index_in_tx: record.index_in_tx as i32,
        is_finalized: record.is_finalized,
    }
}

/// Whether a row can be read back as a record: hash and address have their
/// lengths, no number is negative, and the amount is a 256-bit unsigned
/// integer.
pub open spec fn readable(row: WithdrawalRowView) -> bool {
    &&& row.tx_hash.len() == 32
    &&& row.token.len() == 20
    &&& row.l2_block_number >= 0
    &&& row.event_index_in_tx >= 0
    &&& decoded(row.amount) is Some
}

/// Whether `record` is what `row` holds.
pub open spec fn stands_for(row: WithdrawalRowView, record: StoredWithdrawal) -> bool {
    &&& record.event.tx_hash.bytes@ == row.tx_hash
    &&& record.event.block_number == row.l2_block_number
    &&& record.event.token.bytes@ == row.token
    &&& decoded(row.amount) == Some(record.event.amount@)
    &&& record.index_in_tx == row.event_index_in_tx
    &&& record.is_finalized == row.is_finalized
}

/// A copy of the given bytes.
fn copied(bytes: &[u8]) -> (r: Vec<u8>)
    ensures
        r@ == bytes@,
{
    let mut out: Vec<u8> = Vec::new();
    let mut i: usize = 0;
    while i < bytes.len()
        invariant
            i <= bytes.len(),
            out@ == bytes@.take(i as int),
        decreases bytes.len() - i,
    {
        out.push(bytes[i]);
        assert(out@ =~= bytes@.take(i + 1));
        i += 1;
    }
    assert(bytes@.take(bytes@.len() as int) =~= bytes@);
    out
}

/// The row that `record` is kept as. Fails with
/// [`Error::ConstraintViolation`] where the record does not fit the ledger.
pub fn to_row(record: &StoredWithdrawal) -> (r: Result<WithdrawalRow, Error>)
    ensures
        match r {
            Ok(row) => record.storable() && row@ == row_of(*record),
            Err(e) => e == Error::ConstraintViolation && !record.storable(),
        },
{
    if !record.is_storable() {
        return Err(Error::ConstraintViolation);
    }
    Ok(
        WithdrawalRow {
            tx_hash: copied(record.event.tx_hash.bytes.as_slice()),
            l2_block_number: record.event.block_number as i64,
            token: copied(record.event.token.bytes.as_slice()),
            amount: encode(record.event.amount),
            event_index_in_tx: record.index_in_tx as i32,
            is_finalized: record.is_finalized,
        },
    )
}

/// The record that `row` holds. Fails with [`Error::ConversionError`] where
/// the row cannot be read back as a record.
pub fn from_row(row: &WithdrawalRow) -> (r: Result<StoredWithdrawal, Error>)
    ensures
        match r {
            Ok(record) => readable(row@) && stands_for(row@, record),
            Err(e) => e == Error::ConversionError && !readable(row@),
        },
{
    if row.tx_hash.len() != 32 || row.token.len() != 20 || row.l2_block_number < 0
        || row.event_index_in_tx < 0 {
        return Err(Error::ConversionError);
    }
    let amount = match decode(&row.amount) {
        Ok(amount) => amount,
        Err(e) => {
            return Err(e);
        },
    };
    let mut tx_hash: [u8; 32] = [0u8; 32];
    let mut i: usize = 0;
    while i < 32
        invariant
            i <= 32,
            row.tx_hash@.len() == 32,
            forall|j: int| 0 <= j < i ==> tx_hash@[j] == row.tx_hash@[j],
        decreases 32 - i,
    {
        tx_hash[i] = row.tx_hash[i];
        i += 1;
    }
    let mut token: [u8; 20] = [0u8; 20];
    let mut k: usize = 0;
    while k < 20
        invariant
            k <= 20,
            row.token@.len() == 20,
            forall|j: int| 0 <= j < k ==> token@[j] == row.token@[j],
        decreases 20 - k,
    {
        token[k] = row.token[k];
        k += 1;
    }
    assert(tx_hash@ =~= row.tx_hash@);
    assert(token@ =~= row.token@);
    Ok(
        StoredWithdrawal {
            event: WithdrawalEvent {
                tx_hash: H256 { bytes: tx_hash },
                block_number: row.l2_block_number as u64,
                token: H160 { bytes: token },
                amount,
            },
            index_in_tx: row.event_index_in_tx as usize,
            is_finalized: row.is_finalized,
        },
    )
}

/// A batch of withdrawal records at rest, column by column: entry `i` of
/// each column belongs to record `i` of the batch.
#[derive(Debug, PartialEq, Eq)]
pub struct WithdrawalColumns {
    /// The bytes of the transaction hashes.
    pub tx_hashes: Vec<Vec<u8>>,
    /// The L2 blocks that hold the transactions.
    pub block_numbers: Vec<i64>,
    /// The bytes of the token addresses.
    pub tokens: Vec<Vec<u8>>,
    /// The withdrawn quantities.
    pub amounts: Vec<Decimal>,
    /// The positions of the events within their transactions.
    pub indices_in_tx: Vec<i32>,
    /// Whether each withdrawal has been finalized.
    pub is_finalized: Vec<bool>,
}

impl WithdrawalColumns {
    /// Whether every column has `len` entries.
    pub open spec fn has_len(&self, len: nat) -> bool {
        &&& self.tx_hashes@.len() == len
        &&& self.block_numbers@.len() == len
        &&& self.tokens@.len() == len
        &&& self.amounts@.len() == len
        &&& self.indices_in_tx@.len() == len
        &&& self.is_finalized@.len() == len
    }

    /// The row that the entries at `i` make up.
    pub open spec fn row(&self, i: int) -> WithdrawalRowView {
        WithdrawalRowView {
            tx_hash: self.tx_hashes@[i]@,
            l2_block_number: self.block_numbers@[i],
            token: self.tokens@[i]@,
            amount: self.amounts@[i]@,
            event_index_in_tx: self.indices_in_tx@[i],
            is_finalized: self.is_finalized@[i],
        }
    }
}

/// The given records at rest, column by column. Fails with
/// [`Error::ConstraintViolation`] where one of them does not fit the ledger.
pub fn withdrawal_columns(events: &[StoredWithdrawal]) -> (r: Result<WithdrawalColumns, Error>)
    ensures
        match r {
            Ok(columns) => {
                &&& all_storable(events@)
                &&& columns.has_len(events@.len())
                &&& forall|i: int|
                    0 <= i < events@.len() ==> #[trigger] columns.row(i) == row_of(events@[i])
            },
            Err(e) => e == Error::ConstraintViolation && !all_storable(events@),
        },
{
    let mut columns = WithdrawalColumns {
        tx_hashes: Vec::new(),
        block_numbers: Vec::new(),
        tokens: Vec::new(),
        amounts: Vec::new(),
        indices_in_tx: Vec::new(),
        is_finalized: Vec::new(),
    };
    let mut i: usize = 0;
    while i < events.len()
        invariant
            i <= events.len(),
            columns.has_len(i as nat),
            forall|j: int| 0 <= j < i ==> (#[trigger] events@[j]).storable(),
            forall|j: int| 0 <= j < i ==> #[trigger] columns.row(j) == row_of(events@[j]),
        decreases events.len() - i,
    {
        let row = match to_row(&events[i]) {
            Ok(row) => row,
            Err(e) => {
                return Err(e);
            },
        };
        let ghost before = columns;
        let ghost content = row@;
        columns.tx_hashes.push(row.tx_hash);
        columns.block_numbers.push(row.l2_block_number);
        columns.tokens.push(row.token);
        columns.amounts.push(row.amount);
        columns.indices_in_tx.push(row.event_index_in_tx);
        columns.is_finalized.push(row.is_finalized);
        assert forall|j: int| 0 <= j < i + 1 implies #[trigger] columns.row(j) == row_of(
            events@[j],
        ) by {
            if j < i {
                assert(columns.row(j) == before.row(j));
            } else {
                assert(columns.row(j) == content);
            }
        }
        i += 1;
    }
    Ok(columns)
}

/// The keys among `keys` whose position fits a signed 32-bit column, in
/// their order. No record of a ledger has another key.
pub open spec fn storable_keys(keys: Seq<(H256, usize)>) -> Seq<(H256, usize)>
    decreases keys.len(),
{
    if keys.len() == 0 {
        keys
    } else if keys.last().1 <= i32::MAX {
        storable_keys(keys.drop_last()).push(keys.last())
    } else {
        storable_keys(keys.drop_last())
    }
}

/// Keys of withdrawal records at rest, column by column.
#[derive(Debug, PartialEq, Eq)]
pub struct KeyColumns {
    /// The bytes of the transaction hashes.
    pub tx_hashes: Vec<Vec<u8>>,
    /// The positions of the events within their transactions.
    pub indices_in_tx: Vec<i32>,
}

impl KeyColumns {
    /// Whether the columns hold exactly the given keys, in their order.
    pub open spec fn holds(&self, keys: Seq<(H256, usize)>) -> bool {
        &&& self.tx_hashes@.len() == keys.len()
        &&& self.indices_in_tx@.len() == keys.len()
        &&& forall|i: int|
            0 <= i < keys.len() ==> (#[trigger] self.tx_hashes@[i])@ == keys[i].0.bytes@
                && self.indices_in_tx@[i] == keys[i].1
    }
}

/// The given keys at rest, column by column. A key whose position does not
/// fit the column is left out: it is the key of no record.
pub fn key_columns(keys: &[(H256, usize)]) -> (r: KeyColumns)
    ensures
        r.holds(storable_keys(keys@)),
{
    let mut columns = KeyColumns { tx_hashes: Vec::new(), indices_in_tx: Vec::new() };
    let mut i: usize = 0;
    while i < keys.len()
        invariant
            i <= keys.len(),
            columns.holds(storable_keys(keys@.take(i as int))),
        decreases keys.len() - i,
    {
        let ghost before = columns;
        let ghost kept = storable_keys(keys@.take(i as int));
        proof {
            assert(keys@.take(i + 1).drop_last() =~= keys@.take(i as int));
            assert(keys@.take(i + 1).last() == keys@[i as int]);
        }
        if keys[i].1 <= 0x7fff_ffffusize {
            let bytes = copied(keys[i].0.bytes.as_slice());
            let ghost added = bytes@;
            columns.tx_hashes.push(bytes);
            columns.indices_in_tx.push(keys[i].1 as i32);
            proof {
                let next = kept.push(keys@[i as int]);
                assert(storable_keys(keys@.take(i + 1)) == next);
                assert(columns.tx_hashes@.len() == next.len());
                assert(columns.indices_in_tx@.len() == next.len());
                assert forall|j: int| 0 <= j < next.len() implies (#[trigger] columns.tx_hashes@[j])@
                    == next[j].0.bytes@ && columns.indices_in_tx@[j] == next[j].1 by {
                    if j < kept.len() {
                        assert(columns.tx_hashes@[j] == before.tx_hashes@[j]);
                        assert(columns.indices_in_tx@[j] == before.indices_in_tx@[j]);
                        assert(next[j] == kept[j]);
                    } else {
                        assert(columns.tx_hashes@[j]@ == added);
                    }
                }
            }
        } else {
            assert(storable_keys(keys@.take(i + 1)) == kept);
        }
        i += 1;
    }
    assert(keys@.take(keys@.len() as int) =~= keys@);
    columns
}

/// Round trip: the row of a storable record can be read back, and holds
/// that record.
pub proof fn lemma_row_round_trip(record: StoredWithdrawal)
    requires
        record.storable(),
    ensures
        readable(row_of(record)),
        stands_for(row_of(record), record),
{
    lemma_value_bounded(record.event.amount);
    lemma_decode_encode(record.event.amount@);
    assert(record.event.tx_hash.bytes@.len() == 32);
    assert(record.event.token.bytes@.len() == 20);
}

/// A row holds at most one record.
pub proof fn lemma_row_holds_one_record(
    row: WithdrawalRowView,
    first: StoredWithdrawal,
    second: StoredWithdrawal,
)
    requires
        stands_for(row, first),
        stands_for(row, second),
    ensures
        first == second,
{
    lemma_value_determines_limbs(first.event.amount, second.event.amount);
    assert(first.event.tx_hash.bytes@ =~= second.event.tx_hash.bytes@);
    assert(first.event.token.bytes@ =~= second.event.token.bytes@);
    assert(first.event.tx_hash.bytes == second.event.tx_hash.bytes);
    assert(first.event.token.bytes == second.event.token.bytes);
}

} // verus!
