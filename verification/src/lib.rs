//! Reading and writing financial transactions in three formats: CSV, a
//! key-value text form, and a framed big-endian binary form.
use vstd::prelude::*;
use vstd::utf8::encode_utf8;

pub mod bin_format;
pub mod compare;
pub mod csv_format;
pub mod error;
pub mod fields;
pub mod lines;
pub mod text;
pub mod txt_format;

pub use crate::error::{IoErrorKind, ParseError, WriteError};

verus! {

/// The name of each field, as the header and the text format write it.
pub const TX_ID: &'static str = "TX_ID";
pub const TX_TYPE: &'static str = "TX_TYPE";
pub const FROM_USER_ID: &'static str = "FROM_USER_ID";
pub const TO_USER_ID: &'static str = "TO_USER_ID";
pub const AMOUNT: &'static str = "AMOUNT";
pub const TIMESTAMP: &'static str = "TIMESTAMP";
pub const STATUS: &'static str = "STATUS";
pub const DESCRIPTION: &'static str = "DESCRIPTION";

/// The field name constants are the names the formats use for the fields, in
/// their order.
pub proof fn lemma_field_name_constants()
    ensures
        TX_ID@ == fields::field_name(0),
        TX_TYPE@ == fields::field_name(1),
        FROM_USER_ID@ == fields::field_name(2),
        TO_USER_ID@ == fields::field_name(3),
        AMOUNT@ == fields::field_name(4),
        TIMESTAMP@ == fields::field_name(5),
        STATUS@ == fields::field_name(6),
        DESCRIPTION@ == fields::field_name(7),
{
    reveal_strlit("TX_ID");
    reveal_strlit("TX_TYPE");
    reveal_strlit("FROM_USER_ID");
    reveal_strlit("TO_USER_ID");
    reveal_strlit("AMOUNT");
    reveal_strlit("TIMESTAMP");
    reveal_strlit("STATUS");
    reveal_strlit("DESCRIPTION");
    assert(TX_ID@ =~= fields::field_name(0));
    assert(TX_TYPE@ =~= fields::field_name(1));
    assert(FROM_USER_ID@ =~= fields::field_name(2));
    assert(TO_USER_ID@ =~= fields::field_name(3));
    assert(AMOUNT@ =~= fields::field_name(4));
    assert(TIMESTAMP@ =~= fields::field_name(5));
    assert(STATUS@ =~= fields::field_name(6));
    assert(DESCRIPTION@ =~= fields::field_name(7));
}

/// The three formats that transactions are read from and written in.
#[derive(Debug, Clone, Copy, PartialEq, Eq, Structural)]
pub enum Format {
    Bin,
    Csv,
    Txt,
}

/// The kind of a transaction.
#[derive(Debug, Clone, Copy, PartialEq, Eq, Structural)]
pub enum TransactionType {
    DEPOSIT,
    TRANSFER,
    WITHDRAWAL,
}

/// The outcome recorded for a transaction.
#[derive(Debug, Clone, Copy, PartialEq, Eq, Structural)]
pub enum Status {
    SUCCESS,
    FAILURE,
    PENDING,
}

/// One financial transaction.
#[derive(Debug, Clone, PartialEq, Eq)]
pub struct Transaction {
    pub tx_id: u64,
    pub tx_type: TransactionType,
    pub from_user_id: u64,
    pub to_user_id: u64,
    pub amount: u64,
    pub timestamp: u64,
    pub status: Status,
    pub description: String,
}

/// The mathematical value of a transaction: its description as characters.
pub struct TransactionView {
    pub tx_id: u64,
    pub tx_type: TransactionType,
    pub from_user_id: u64,
    pub to_user_id: u64,
    pub amount: u64,
    pub timestamp: u64,
    pub status: Status,
    pub description: Seq<char>,
}

impl View for Transaction {
    type V = TransactionView;

    open spec fn view(&self) -> TransactionView {
        TransactionView {
            tx_id: self.tx_id,
            tx_type: self.tx_type,
            from_user_id: self.from_user_id,
            to_user_id: self.to_user_id,
            amount: self.amount,
            timestamp: self.timestamp,
            status: self.status,
            description: self.description@,
        }
    }
}

/// The values of a sequence of transactions.
pub open spec fn views(txs: Seq<Transaction>) -> Seq<TransactionView> {
    txs.map_values(|t: Transaction| t@)
}

/// What reading `input` in `format` gives; `None` for binary input that holds a
/// record whose body is shorter than the fixed part.
pub open spec fn read_spec(input: Seq<u8>, format: Format) -> Option<
    Result<Seq<TransactionView>, error::ParseErrorView>,
> {
    match format {
        Format::Csv => Some(csv_format::csv_read(input)),
        Format::Txt => Some(txt_format::txt_read(input)),
        Format::Bin => bin_format::bin_read(input),
    }
}

/// The bytes that writing `txs` in `format` gives.
pub open spec fn write_spec(format: Format, txs: Seq<TransactionView>) -> Seq<u8> {
    match format {
        Format::Csv => encode_utf8(csv_format::csv_text(txs)),
        Format::Txt => encode_utf8(txt_format::txt_text(txs)),
        Format::Bin => bin_format::bin_bytes(txs),
    }
}

/// Reads transactions from the bytes `data` in `format`.
pub fn read(data: &[u8], format: Format) -> (r: Result<Vec<Transaction>, error::ParseError>)
    requires
        read_spec(data@, format) is Some,
    ensures
        read_spec(data@, format) == Some(error::outcome(r)),
{
    match format {
        Format::Csv => csv_format::read(data),
        Format::Bin => bin_format::read(data),
        Format::Txt => txt_format::read(data),
    }
}

/// Writes transactions in `format` at the end of `data`.
pub fn write(data: &mut Vec<u8>, format: Format, tx: Vec<Transaction>) -> (r: Result<(), WriteError>)
    ensures
        r is Ok,
        final(data)@ == old(data)@ + write_spec(format, views(tx@)),
{
    match format {
        Format::Csv => {
            let s = csv_format::write(tx);
            bin_format::push_bytes(data, s.as_str().as_bytes());
        },
        Format::Bin => {
            let b = bin_format::write(tx);
            bin_format::push_bytes(data, b.as_slice());
        },
        Format::Txt => {
            let s = txt_format::write(tx);
            bin_format::push_bytes(data, s.as_str().as_bytes());
        },
    }
    Ok(())
}

/// Whether `t` comes back unchanged from being written and read in `format`.
pub open spec fn survives(format: Format, t: TransactionView) -> bool {
    match format {
        Format::Csv => csv_format::csv_keeps(t),
        Format::Txt => txt_format::txt_keeps(t),
        Format::Bin => bin_format::bin_keeps(t),
    }
}

/// Writing transactions in a format and reading the bytes back in that format
/// gives the same transactions, for those that the format carries unchanged.
pub proof fn lemma_write_read(format: Format, txs: Seq<TransactionView>)
    requires
        forall|i: int| 0 <= i < txs.len() ==> survives(format, #[trigger] txs[i]),
    ensures
        read_spec(write_spec(format, txs), format) == Some(
            Ok::<Seq<TransactionView>, error::ParseErrorView>(txs),
        ),
{
    match format {
        Format::Csv => {
            assert forall|i: int| 0 <= i < txs.len() implies csv_format::csv_keeps(#[trigger] txs[i]) by {
                assert(survives(format, txs[i]));
            }
            csv_format::lemma_csv_roundtrip(txs);
        },
        Format::Txt => {
            assert forall|i: int| 0 <= i < txs.len() implies txt_format::txt_keeps(#[trigger] txs[i]) by {
                assert(survives(format, txs[i]));
            }
            txt_format::lemma_txt_roundtrip(txs);
        },
        Format::Bin => {
            assert forall|i: int| 0 <= i < txs.len() implies bin_format::bin_keeps(#[trigger] txs[i]) by {
                assert(survives(format, txs[i]));
            }
            bin_format::lemma_bin_roundtrip(txs);
        },
    }
}

} // verus!
