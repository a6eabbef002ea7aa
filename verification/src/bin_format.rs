//! The binary format: a sequence of records, each `YPBN`, a big-endian `u32`
//! body size, and a body of big-endian fields.
use vstd::prelude::*;
use vstd::slice::slice_subrange;
use vstd::string::StringExecFns;
use vstd::utf8::{decode_utf8, encode_utf8, valid_utf8};

use crate::csv_format::prepend;
use crate::error::{IoErrorKind, ParseError, ParseErrorView, outcome};
use crate::text::utf8_str;
use crate::{Status, Transaction, TransactionType, TransactionView, views};

verus! {

/// The size of each fixed field of a record body, in bytes.
pub const TX_ID_SIZE: usize = 8;
pub const TX_TYPE_SIZE: usize = 1;
pub const FROM_USER_ID_SIZE: usize = 8;
pub const TO_USER_ID_SIZE: usize = 8;
pub const AMOUNT_SIZE: usize = 8;
pub const TIMESTAMP_SIZE: usize = 8;
pub const STATUS_SIZE: usize = 1;
pub const DESC_LEN_SIZE: usize = 4;

/// The size of the fixed part of a record body; the description follows it.
pub const FIXED_BODY_SIZE: usize = 46;

/// The bytes that open every record: `YPBN`.
pub open spec fn magic() -> Seq<u8> {
    seq![0x59u8, 0x50u8, 0x42u8, 0x4Eu8]
}

/// The value of big-endian bytes.
pub open spec fn be_value(s: Seq<u8>) -> nat
    decreases s.len(),
{
    if s.len() == 0 {
        0
    } else {
        be_value(s.drop_last()) * 256 + s.last() as nat
    }
}

/// The last `n` bytes of the big-endian form of `v`, that is of `v` modulo `256^n`.
pub open spec fn be_bytes(v: nat, n: nat) -> Seq<u8>
    decreases n,
{
    if n == 0 {
        Seq::empty()
    } else {
        be_bytes(v / 256, (n - 1) as nat).push((v % 256) as u8)
    }
}

/// The byte a transaction type is written as.
pub open spec fn tx_type_byte(t: TransactionType) -> u8 {
    match t {
        TransactionType::DEPOSIT => 0,
        TransactionType::TRANSFER => 1,
        TransactionType::WITHDRAWAL => 2,
    }
}

/// The transaction type a byte stands for.
pub open spec fn tx_type_of_byte(b: u8) -> Option<TransactionType> {
    if b == 0 {
        Some(TransactionType::DEPOSIT)
    } else if b == 1 {
        Some(TransactionType::TRANSFER)
    } else if b == 2 {
        Some(TransactionType::WITHDRAWAL)
    } else {
        None
    }
}

/// The byte a status is written as.
pub open spec fn status_byte(s: Status) -> u8 {
    match s {
        Status::SUCCESS => 0,
        Status::FAILURE => 1,
        Status::PENDING => 2,
    }
}

/// The status a byte stands for.
pub open spec fn status_of_byte(b: u8) -> Option<Status> {
    if b == 0 {
        Some(Status::SUCCESS)
    } else if b == 1 {
        Some(Status::FAILURE)
    } else if b == 2 {
        Some(Status::PENDING)
    } else {
        None
    }
}

/// The name reported for a bad transaction type byte.
pub open spec fn tx_type_label() -> Seq<char> {
    seq!['t', 'x', '_', 't', 'y', 'p', 'e']
}

/// The name reported for a bad status byte.
pub open spec fn status_label() -> Seq<char> {
    seq!['s', 't', 'a', 't', 'u', 's']
}

/// The name reported for a description that is not UTF-8.
pub open spec fn desc_label() -> Seq<char> {
    seq!['d', 'e', 's', 'c', '_', 'b', 'y', 't', 'e', 's']
}

/// The name reported for a transaction type that bytes do not give.
pub open spec fn transaction_type_label() -> Seq<char> {
    seq!['t', 'r', 'a', 'n', 's', 'a', 'c', 't', 'i', 'o', 'n', '_', 't', 'y', 'p', 'e']
}

/// The transaction type that bytes give: that of their first byte.
pub open spec fn tx_type_of_bytes(v: Seq<u8>) -> Result<TransactionType, ParseErrorView> {
    if v.len() > 0 && tx_type_of_byte(v[0]) is Some {
        Ok(tx_type_of_byte(v[0])->Some_0)
    } else {
        Err(ParseErrorView::InvalidBinaryField(transaction_type_label()))
    }
}

/// The status that bytes give: that of their first byte.
pub open spec fn status_of_bytes(v: Seq<u8>) -> Result<Status, ParseErrorView> {
    if v.len() > 0 && status_of_byte(v[0]) is Some {
        Ok(status_of_byte(v[0])->Some_0)
    } else {
        Err(ParseErrorView::InvalidBinaryField(status_label()))
    }
}

/// The transaction a record body holds. The body has at least the fixed part;
/// a description length beyond the body gives an empty description, and bytes
/// after the description are ignored.
pub open spec fn bin_record(body: Seq<u8>) -> Result<TransactionView, ParseErrorView> {
    let desc_len = be_value(body.subrange(42, 46));
    let rest = body.skip(46);
    match tx_type_of_byte(body[8]) {
        None => Err(ParseErrorView::InvalidBinaryField(tx_type_label())),
        Some(tx_type) => match status_of_byte(body[41]) {
            None => Err(ParseErrorView::InvalidBinaryField(status_label())),
            Some(status) => {
                let t = TransactionView {
                    tx_id: be_value(body.subrange(0, 8)) as u64,
                    tx_type,
                    from_user_id: be_value(body.subrange(9, 17)) as u64,
                    to_user_id: be_value(body.subrange(17, 25)) as u64,
                    amount: be_value(body.subrange(25, 33)) as u64,
                    timestamp: be_value(body.subrange(33, 41)) as u64,
                    status,
                    description: Seq::empty(),
                };
                if desc_len <= rest.len() {
                    let d = rest.take(desc_len as int);
                    if !valid_utf8(d) {
                        Err(ParseErrorView::InvalidBinaryField(desc_label()))
                    } else {
                        Ok(TransactionView { description: decode_utf8(d), ..t })
                    }
                } else {
                    Ok(t)
                }
            },
        },
    }
}

/// `r` with `pre` in front of its transactions, where `None` stays `None`.
pub open spec fn prepend_scan(
    pre: Seq<TransactionView>,
    r: Option<Result<Seq<TransactionView>, ParseErrorView>>,
) -> Option<Result<Seq<TransactionView>, ParseErrorView>> {
    match r {
        None => None,
        Some(x) => Some(prepend(pre, x)),
    }
}

/// Reading records from `s`. A record starts wherever `YPBN` stands, at any
/// byte offset: bytes before it are skipped, so that reading gets back in step
/// after damaged data, and fewer than four bytes at the end are ignored. `None`
/// where a record's body is shorter than the fixed part, on which the reader
/// cannot go on.
pub open spec fn bin_scan(s: Seq<u8>) -> Option<Result<Seq<TransactionView>, ParseErrorView>>
    decreases s.len(),
{
    if s.len() < 4 {
        Some(Ok(Seq::empty()))
    } else if s.take(4) != magic() {
        bin_scan(s.drop_first())
    } else {
        let s1 = s.skip(4);
        if s1.len() < 4 {
            Some(Err(ParseErrorView::Io(IoErrorKind::UnexpectedEof)))
        } else {
            let size = be_value(s1.take(4));
            let s2 = s1.skip(4);
            if s2.len() < size {
                Some(Err(ParseErrorView::Io(IoErrorKind::UnexpectedEof)))
            } else if size < FIXED_BODY_SIZE {
                None
            } else {
                match bin_record(s2.take(size as int)) {
                    Err(e) => Some(Err(e)),
                    Ok(t) => prepend_scan(seq![t], bin_scan(s2.skip(size as int))),
                }
            }
        }
    }
}

/// What reading binary bytes gives; `None` where the reader cannot go on.
pub open spec fn bin_read(input: Seq<u8>) -> Option<Result<Seq<TransactionView>, ParseErrorView>> {
    bin_scan(input)
}

/// Whether `YPBN` starts at index `i` of `s`.
pub open spec fn magic_at(s: Seq<u8>, i: int) -> bool {
    0 <= i && i + 4 <= s.len() && s.subrange(i, i + 4) == magic()
}

/// The body a transaction is written as.
pub open spec fn bin_body(t: TransactionView) -> Seq<u8> {
    let d = encode_utf8(t.description);
    be_bytes(t.tx_id as nat, 8) + seq![tx_type_byte(t.tx_type)] + be_bytes(t.from_user_id as nat, 8)
        + be_bytes(t.to_user_id as nat, 8) + be_bytes(t.amount as nat, 8) + be_bytes(
        t.timestamp as nat,
        8,
    ) + seq![status_byte(t.status)] + be_bytes(d.len(), 4) + d
}

/// The record a transaction is written as.
pub open spec fn bin_record_bytes(t: TransactionView) -> Seq<u8> {
    magic() + be_bytes(bin_body(t).len(), 4) + bin_body(t)
}

/// What writing transactions in the binary format gives: their records in order.
pub open spec fn bin_bytes(txs: Seq<TransactionView>) -> Seq<u8>
    decreases txs.len(),
{
    if txs.len() == 0 {
        Seq::empty()
    } else {
        bin_record_bytes(txs[0]) + bin_bytes(txs.drop_first())
    }
}

/// Adding a transaction at the end adds its record at the end.
pub proof fn lemma_bin_bytes_push(txs: Seq<TransactionView>, t: TransactionView)
    ensures
        bin_bytes(txs.push(t)) == bin_bytes(txs) + bin_record_bytes(t),
    decreases txs.len(),
{
    if txs.len() == 0 {
        assert(txs.push(t).drop_first() =~= Seq::<TransactionView>::empty());
        assert(bin_bytes(Seq::<TransactionView>::empty()) == Seq::<u8>::empty());
        assert(bin_bytes(txs.push(t)) =~= bin_bytes(txs) + bin_record_bytes(t));
    } else {
        lemma_bin_bytes_push(txs.drop_first(), t);
        assert(txs.push(t).drop_first() =~= txs.drop_first().push(t));
        assert(txs.push(t)[0] == txs[0]);
        assert(bin_bytes(txs.push(t)) =~= bin_bytes(txs) + bin_record_bytes(t));
    }
}

// ---------------------------------------------------------------------------
// Big-endian integers
// ---------------------------------------------------------------------------

/// `256` to the power `n`.
pub open spec fn byte_pow(n: nat) -> nat
    decreases n,
{
    if n == 0 {
        1
    } else {
        256 * byte_pow((n - 1) as nat)
    }
}

/// Big-endian bytes are below `256` to the power of their number.
pub proof fn lemma_be_value_bound(s: Seq<u8>)
    ensures
        be_value(s) < byte_pow(s.len()),
    decreases s.len(),
{
    if s.len() > 0 {
        lemma_be_value_bound(s.drop_last());
        let p = byte_pow((s.len() - 1) as nat);
        let a = be_value(s.drop_last());
        let b = s.last() as int;
        assert(a * 256 + b < 256 * p) by (nonlinear_arith)
            requires
                a < p,
                0 <= b < 256,
        ;
    }
}

proof fn lemma_byte_pow_monotone(i: nat, j: nat)
    requires
        i <= j,
    ensures
        byte_pow(i) <= byte_pow(j),
    decreases j,
{
    if i < j {
        lemma_byte_pow_monotone(i, (j - 1) as nat);
    }
}

proof fn lemma_be_value_step(s: Seq<u8>, i: int)
    requires
        0 <= i < s.len(),
    ensures
        be_value(s.take(i + 1)) == be_value(s.take(i)) * 256 + s[i],
{
    assert(s.take(i + 1).drop_last() =~= s.take(i));
}

/// The value of the `n` big-endian bytes `b[at..at + n]`.
fn be_read(b: &[u8], at: usize, n: usize) -> (v: u64)
    requires
        n <= 8,
        at + n <= b.len(),
    ensures
        v == be_value(b@.subrange(at as int, at + n)),
        v < byte_pow(n as nat),
{
    let ghost s = b@.subrange(at as int, at + n);
    let mut v: u64 = 0;
    let mut i: usize = 0;
    while i < n
        invariant
            n <= 8,
            at + n <= b.len(),
            s == b@.subrange(at as int, at + n),
            i <= n,
            v == be_value(s.take(i as int)),
        decreases n - i,
    {
        proof {
            lemma_be_value_step(s, i as int);
            lemma_be_value_bound(s.take(i as int));
            lemma_byte_pow_monotone(i as nat, 7);
            reveal_with_fuel(byte_pow, 8);
            assert(byte_pow(7) == 72057594037927936);
            assert(v < 72057594037927936);
        }
        v = v * 256 + b[at + i] as u64;
        i = i + 1;
    }
    assert(s.take(n as int) =~= s);
    proof {
        lemma_be_value_bound(s);
    }
    v
}

/// Appends the last `n` bytes of the big-endian form of `v`.
fn push_be(out: &mut Vec<u8>, v: u64, n: usize)
    ensures
        final(out)@ == old(out)@ + be_bytes(v as nat, n as nat),
    decreases n,
{
    if n == 0 {
        assert(old(out)@ + Seq::<u8>::empty() =~= old(out)@);
    } else {
        push_be(out, v / 256, n - 1);
        out.push((v % 256) as u8);
        assert(out@ =~= old(out)@ + be_bytes(v as nat, n as nat));
    }
}

/// Appends the bytes of `b`.
pub(crate) fn push_bytes(out: &mut Vec<u8>, b: &[u8])
    ensures
        final(out)@ == old(out)@ + b@,
{
    let mut i: usize = 0;
    while i < b.len()
        invariant
            i <= b@.len(),
            out@ == old(out)@ + b@.take(i as int),
        decreases b.len() - i,
    {
        out.push(b[i]);
        assert(b@.take(i + 1) =~= b@.take(i as int).push(b@[i as int]));
        assert(out@ =~= old(out)@ + b@.take(i + 1));
        i = i + 1;
    }
    assert(b@.take(i as int) =~= b@);
}

/// Reads a `u64` from eight big-endian bytes; other lengths are refused with the
/// name `field`.
pub fn parse_u64_be(b: &[u8], field: &str) -> (r: Result<u64, ParseError>)
    ensures
        b@.len() == 8 ==> (r matches Ok(v) && v == be_value(b@)),
        b@.len() != 8 ==> (r matches Err(e) && e@ == ParseErrorView::InvalidBinaryField(field@)),
{
    if b.len() != 8 {
        return Err(ParseError::InvalidBinaryField(String::from_str(field)));
    }
    assert(b@.subrange(0, 8) =~= b@);
    Ok(be_read(b, 0, 8))
}

// ---------------------------------------------------------------------------
// Records
// ---------------------------------------------------------------------------

/// The transaction type that bytes give: that of their first byte, later bytes
/// ignored. An empty sequence, or a first byte that stands for no type, is
/// refused with the name `transaction_type`.
pub fn tx_type_from_bytes(value: &[u8]) -> (r: Result<TransactionType, ParseError>)
    ensures
        match r {
            Ok(t) => tx_type_of_bytes(value@) == Ok::<TransactionType, ParseErrorView>(t),
            Err(e) => tx_type_of_bytes(value@) == Err::<TransactionType, ParseErrorView>(e@),
        },
{
    if value.len() > 0 {
        match value[0] {
            0 => return Ok(TransactionType::DEPOSIT),
            1 => return Ok(TransactionType::TRANSFER),
            2 => return Ok(TransactionType::WITHDRAWAL),
            _ => {},
        }
    }
    let name = String::from_str("transaction_type");
    proof {
        reveal_strlit("transaction_type");
        assert(name@ =~= transaction_type_label());
    }
    Err(ParseError::InvalidBinaryField(name))
}

/// The status that bytes give: that of their first byte, later bytes ignored.
/// An empty sequence, or a first byte that stands for no status, is refused
/// with the name `status`.
pub fn status_from_bytes(value: &[u8]) -> (r: Result<Status, ParseError>)
    ensures
        match r {
            Ok(s) => status_of_bytes(value@) == Ok::<Status, ParseErrorView>(s),
            Err(e) => status_of_bytes(value@) == Err::<Status, ParseErrorView>(e@),
        },
{
    if value.len() > 0 {
        match value[0] {
            0 => return Ok(Status::SUCCESS),
            1 => return Ok(Status::FAILURE),
            2 => return Ok(Status::PENDING),
            _ => {},
        }
    }
    let name = String::from_str("status");
    proof {
        reveal_strlit("status");
        assert(name@ =~= status_label());
    }
    Err(ParseError::InvalidBinaryField(name))
}

/// A transaction type converts to the byte it is written as.
impl From<TransactionType> for u8 {
    fn from(t: TransactionType) -> (b: u8) {
        match t {
            TransactionType::DEPOSIT => 0,
            TransactionType::TRANSFER => 1,
            TransactionType::WITHDRAWAL => 2,
        }
    }
}

impl vstd::std_specs::convert::FromSpecImpl<TransactionType> for u8 {
    open spec fn obeys_from_spec() -> bool {
        true
    }

    open spec fn from_spec(t: TransactionType) -> u8 {
        tx_type_byte(t)
    }
}

/// A status converts to the byte it is written as.
impl From<Status> for u8 {
    fn from(s: Status) -> (b: u8) {
        match s {
            Status::SUCCESS => 0,
            Status::FAILURE => 1,
            Status::PENDING => 2,
        }
    }
}

impl vstd::std_specs::convert::FromSpecImpl<Status> for u8 {
    open spec fn obeys_from_spec() -> bool {
        true
    }

    open spec fn from_spec(s: Status) -> u8 {
        status_byte(s)
    }
}

/// The transaction a record body holds.
pub fn decode_record(body: &[u8]) -> (r: Result<Transaction, ParseError>)
    requires
        body@.len() >= FIXED_BODY_SIZE,
    ensures
        match r {
            Ok(t) => bin_record(body@) == Ok::<TransactionView, ParseErrorView>(t@),
            Err(e) => bin_record(body@) == Err::<TransactionView, ParseErrorView>(e@),
        },
{
    let desc_len = be_read(body, 42, 4);
    proof {
        reveal_with_fuel(byte_pow, 5);
    }
    let tx_id = be_read(body, 0, 8);
    let type_bytes = slice_subrange(body, 8, 9);
    assert(type_bytes@[0] == body@[8]);
    let tx_type = match tx_type_from_bytes(type_bytes) {
        Ok(t) => t,
        Err(_) => {
            let name = String::from_str("tx_type");
            proof {
                reveal_strlit("tx_type");
                assert(name@ =~= tx_type_label());
            }
            return Err(ParseError::InvalidBinaryField(name));
        },
    };
    let from_user_id = be_read(body, 9, 8);
    let to_user_id = be_read(body, 17, 8);
    let amount = be_read(body, 25, 8);
    let timestamp = be_read(body, 33, 8);
    let status_bytes = slice_subrange(body, 41, 42);
    assert(status_bytes@[0] == body@[41]);
    let status = match status_from_bytes(status_bytes) {
        Ok(s) => s,
        Err(_) => {
            let name = String::from_str("status");
            proof {
                reveal_strlit("status");
                assert(name@ =~= status_label());
            }
            return Err(ParseError::InvalidBinaryField(name));
        },
    };
    let rest_len = body.len() - FIXED_BODY_SIZE;
    let description = if (desc_len as usize) <= rest_len {
        let d = slice_subrange(body, FIXED_BODY_SIZE, FIXED_BODY_SIZE + desc_len as usize);
        assert(d@ =~= body@.skip(46).take(desc_len as int));
        match utf8_str(d) {
            Some(s) => {
                proof {
                    vstd::utf8::encode_utf8_decode_utf8(s@);
                }
                s.to_owned()
            },
            None => {
                let name = String::from_str("desc_bytes");
                proof {
                    reveal_strlit("desc_bytes");
                    assert(name@ =~= desc_label());
                }
                return Err(ParseError::InvalidBinaryField(name));
            },
        }
    } else {
        String::new()
    };
    let t = Transaction {
        tx_id,
        tx_type,
        from_user_id,
        to_user_id,
        amount,
        timestamp,
        status,
        description,
    };
    assert(t@ == bin_record(body@)->Ok_0);
    Ok(t)
}

/// The body a transaction is written as.
pub fn encode_body(t: &Transaction) -> (body: Vec<u8>)
    ensures
        body@ == bin_body(t@),
{
    let d = t.description.as_str().as_bytes();
    let mut body: Vec<u8> = Vec::new();
    push_be(&mut body, t.tx_id, 8);
    body.push(u8::from(t.tx_type));
    push_be(&mut body, t.from_user_id, 8);
    push_be(&mut body, t.to_user_id, 8);
    push_be(&mut body, t.amount, 8);
    push_be(&mut body, t.timestamp, 8);
    body.push(u8::from(t.status));
    push_be(&mut body, d.len() as u64, 4);
    push_bytes(&mut body, d);
    assert(body@ =~= bin_body(t@));
    body
}

// ---------------------------------------------------------------------------
// Reading and writing
// ---------------------------------------------------------------------------

/// Whether `YPBN` starts at `input[pos]`.
fn is_magic_at(input: &[u8], pos: usize) -> (b: bool)
    requires
        pos + 4 <= input.len(),
    ensures
        b == (input@.subrange(pos as int, input@.len() as int).take(4) == magic()),
{
    let ghost s = input@.subrange(pos as int, input@.len() as int);
    let b = input[pos] == 0x59 && input[pos + 1] == 0x50 && input[pos + 2] == 0x42 && input[pos
        + 3] == 0x4E;
    if b {
        assert(s.take(4) =~= magic());
    } else {
        assert(s.take(4)[0] == input@[pos as int]);
        assert(s.take(4)[1] == input@[pos + 1]);
        assert(s.take(4)[2] == input@[pos + 2]);
        assert(s.take(4)[3] == input@[pos + 3]);
    }
    b
}

/// Reads records from binary bytes, skipping bytes until each `YPBN`; `None`
/// where a record's body is shorter than the fixed part, on which reading cannot
/// go on.
pub fn read_records(input: &[u8]) -> (r: Option<Result<Vec<Transaction>, ParseError>>)
    ensures
        match r {
            None => bin_read(input@) is None,
            Some(x) => bin_read(input@) == Some(outcome(x)),
        },
{
    let mut transactions: Vec<Transaction> = Vec::new();
    let mut pos: usize = 0;
    assert(input@.subrange(0, input@.len() as int) =~= input@);
    while input.len() - pos >= 4
        invariant
            pos <= input@.len(),
            bin_read(input@) == prepend_scan(
                views(transactions@),
                bin_scan(input@.subrange(pos as int, input@.len() as int)),
            ),
        decreases input.len() - pos,
    {
        let ghost s = input@.subrange(pos as int, input@.len() as int);
        if !is_magic_at(input, pos) {
            assert(s.drop_first() =~= input@.subrange(pos + 1, input@.len() as int));
            pos = pos + 1;
        } else {
            pos = pos + 4;
            let ghost s1 = input@.subrange(pos as int, input@.len() as int);
            assert(s1 =~= s.skip(4));
            if input.len() - pos < 4 {
                return Some(Err(ParseError::Io(IoErrorKind::UnexpectedEof)));
            }
            proof {
                reveal_with_fuel(byte_pow, 5);
            }
            let size = be_read(input, pos, 4) as usize;
            assert(input@.subrange(pos as int, pos + 4) =~= s1.take(4));
            pos = pos + 4;
            let ghost s2 = input@.subrange(pos as int, input@.len() as int);
            assert(s2 =~= s1.skip(4));
            if input.len() - pos < size {
                return Some(Err(ParseError::Io(IoErrorKind::UnexpectedEof)));
            }
            if size < FIXED_BODY_SIZE {
                return None;
            }
            let body = slice_subrange(input, pos, pos + size);
            assert(body@ =~= s2.take(size as int));
            match decode_record(body) {
                Err(e) => return Some(Err(e)),
                Ok(tx) => {
                    let ghost before = views(transactions@);
                    transactions.push(tx);
                    assert(views(transactions@) =~= before + seq![tx@]);
                    pos = pos + size;
                    assert(input@.subrange(pos as int, input@.len() as int) =~= s2.skip(size as int));
                    proof {
                        match bin_scan(s2.skip(size as int)) {
                            Some(Ok(t)) => {
                                assert(before + (seq![tx@] + t) =~= views(transactions@) + t);
                            },
                            _ => {},
                        }
                    }
                },
            }
        }
    }
    assert(views(transactions@) + Seq::<TransactionView>::empty() =~= views(transactions@));
    Some(Ok(transactions))
}

/// Reads transactions from binary bytes: each `YPBN` opens a record, bytes
/// before it are skipped. The input must not hold a record whose body is
/// shorter than the fixed part.
pub fn read(input: &[u8]) -> (r: Result<Vec<Transaction>, ParseError>)
    requires
        bin_read(input@) is Some,
    ensures
        bin_read(input@) == Some(outcome(r)),
{
    read_records(input).unwrap()
}

/// Writes transactions in the binary format: a record each.
pub fn write(transactions: Vec<Transaction>) -> (bytes: Vec<u8>)
    ensures
        bytes@ == bin_bytes(views(transactions@)),
{
    let mut out: Vec<u8> = Vec::new();
    let mut i: usize = 0;
    while i < transactions.len()
        invariant
            i <= transactions@.len(),
            out@ == bin_bytes(views(transactions@).take(i as int)),
        decreases transactions.len() - i,
    {
        let body = encode_body(&transactions[i]);
        let ghost o = out@;
        out.push(0x59);
        out.push(0x50);
        out.push(0x42);
        out.push(0x4E);
        push_be(&mut out, body.len() as u64, 4);
        push_bytes(&mut out, body.as_slice());
        assert(out@ =~= o + bin_record_bytes(transactions@[i as int]@));
        proof {
            let vs = views(transactions@);
            lemma_bin_bytes_push(vs.take(i as int), vs[i as int]);
            assert(vs.take(i as int).push(vs[i as int]) =~= vs.take(i + 1));
        }
        i = i + 1;
    }
    assert(views(transactions@).take(i as int) =~= views(transactions@));
    out
}

} // verus!

verus! {

// ---------------------------------------------------------------------------
// Writing then reading gives the transactions back
// ---------------------------------------------------------------------------

/// A transaction that the binary format reads back as it was written: its body
/// size fits in the `u32` that frames it.
pub open spec fn bin_keeps(t: TransactionView) -> bool {
    encode_utf8(t.description).len() + FIXED_BODY_SIZE < 0x1_0000_0000
}

proof fn lemma_be_bytes_len(v: nat, n: nat)
    ensures
        be_bytes(v, n).len() == n,
    decreases n,
{
    if n > 0 {
        lemma_be_bytes_len(v / 256, (n - 1) as nat);
    }
}

/// Big-endian bytes of a value that fits read back as the value.
pub proof fn lemma_be_roundtrip(v: nat, n: nat)
    requires
        v < byte_pow(n),
    ensures
        be_value(be_bytes(v, n)) == v,
    decreases n,
{
    if n > 0 {
        let p = byte_pow((n - 1) as nat);
        assert(v / 256 < p) by (nonlinear_arith)
            requires
                v < 256 * p,
        ;
        lemma_be_roundtrip(v / 256, (n - 1) as nat);
        let b = be_bytes(v, n);
        assert(b.drop_last() =~= be_bytes(v / 256, (n - 1) as nat));
        vstd::arithmetic::div_mod::lemma_fundamental_div_mod(v as int, 256);
    }
}

proof fn lemma_byte_pow_values()
    ensures
        byte_pow(4) == 0x1_0000_0000,
        byte_pow(8) == 0x1_0000_0000_0000_0000,
{
    reveal_with_fuel(byte_pow, 9);
}

#[verifier::rlimit(40)]
/// Decoding the body a transaction is written as gives the transaction back,
/// when its description takes at most `u32::MAX` bytes: the body decoder
/// undoes the body encoder.
pub proof fn lemma_bin_record_roundtrip(t: TransactionView)
    requires
        encode_utf8(t.description).len() <= 0xFFFF_FFFF,
    ensures
        bin_body(t).len() == FIXED_BODY_SIZE + encode_utf8(t.description).len(),
        bin_record(bin_body(t)) == Ok::<TransactionView, ParseErrorView>(t),
{
    let d = encode_utf8(t.description);
    let body = bin_body(t);
    lemma_byte_pow_values();
    lemma_be_bytes_len(t.tx_id as nat, 8);
    lemma_be_bytes_len(t.from_user_id as nat, 8);
    lemma_be_bytes_len(t.to_user_id as nat, 8);
    lemma_be_bytes_len(t.amount as nat, 8);
    lemma_be_bytes_len(t.timestamp as nat, 8);
    lemma_be_bytes_len(d.len(), 4);
    lemma_be_roundtrip(t.tx_id as nat, 8);
    lemma_be_roundtrip(t.from_user_id as nat, 8);
    lemma_be_roundtrip(t.to_user_id as nat, 8);
    lemma_be_roundtrip(t.amount as nat, 8);
    lemma_be_roundtrip(t.timestamp as nat, 8);
    lemma_be_roundtrip(d.len(), 4);
    assert(body.subrange(0, 8) =~= be_bytes(t.tx_id as nat, 8));
    assert(body[8] == tx_type_byte(t.tx_type));
    assert(body.subrange(9, 17) =~= be_bytes(t.from_user_id as nat, 8));
    assert(body.subrange(17, 25) =~= be_bytes(t.to_user_id as nat, 8));
    assert(body.subrange(25, 33) =~= be_bytes(t.amount as nat, 8));
    assert(body.subrange(33, 41) =~= be_bytes(t.timestamp as nat, 8));
    assert(body[41] == status_byte(t.status));
    assert(body.subrange(42, 46) =~= be_bytes(d.len(), 4));
    assert(body.skip(46) =~= d);
    assert(d.take(d.len() as int) =~= d);
    vstd::utf8::encode_utf8_valid_utf8(t.description);
    vstd::utf8::encode_utf8_decode_utf8(t.description);
}

#[verifier::rlimit(60)]
proof fn lemma_bin_scan_roundtrip(txs: Seq<TransactionView>)
    requires
        forall|i: int| 0 <= i < txs.len() ==> bin_keeps(#[trigger] txs[i]),
    ensures
        bin_scan(bin_bytes(txs)) == Some(Ok::<Seq<TransactionView>, ParseErrorView>(txs)),
    decreases txs.len(),
{
    if txs.len() == 0 {
        assert(bin_bytes(txs) =~= Seq::<u8>::empty());
        assert(txs =~= Seq::<TransactionView>::empty());
    } else {
        let t = txs[0];
        let rest = txs.drop_first();
        assert(bin_keeps(t));
        assert forall|i: int| 0 <= i < rest.len() implies bin_keeps(#[trigger] rest[i]) by {
            assert(rest[i] == txs[i + 1]);
        }
        let body = bin_body(t);
        lemma_bin_record_roundtrip(t);
        lemma_byte_pow_values();
        lemma_be_bytes_len(body.len(), 4);
        lemma_be_roundtrip(body.len(), 4);
        let size_bytes = be_bytes(body.len(), 4);
        let tail = bin_bytes(rest);
        lemma_bin_scan_roundtrip(rest);
        let s = bin_bytes(txs);
        assert(s =~= magic() + size_bytes + body + tail);
        assert(s.take(4) =~= magic());
        let s1 = s.skip(4);
        assert(s1 =~= size_bytes + body + tail);
        assert(s1.take(4) =~= size_bytes);
        let s2 = s1.skip(4);
        assert(s2 =~= body + tail);
        assert(s2.take(body.len() as int) =~= body);
        assert(s2.skip(body.len() as int) =~= tail);
        assert(be_value(s1.take(4)) == body.len());
        assert(body.len() >= FIXED_BODY_SIZE);
        assert(bin_record(s2.take(body.len() as int)) == Ok::<TransactionView, ParseErrorView>(t));
        assert(seq![t] + rest =~= txs);
    }
}

/// Writing transactions in the binary format and reading the bytes back gives
/// the same transactions, when each body size fits in a `u32`.
pub proof fn lemma_bin_roundtrip(txs: Seq<TransactionView>)
    requires
        forall|i: int| 0 <= i < txs.len() ==> bin_keeps(#[trigger] txs[i]),
    ensures
        bin_read(bin_bytes(txs)) == Some(Ok::<Seq<TransactionView>, ParseErrorView>(txs)),
{
    lemma_bin_scan_roundtrip(txs);
}

} // verus!

verus! {

/// Damaged bytes before a record are skipped: when no `YPBN` starts inside `g`,
/// reading `g` followed by `s` gives what reading `s` gives.
pub proof fn lemma_bin_skips_garbage(g: Seq<u8>, s: Seq<u8>)
    requires
        forall|i: int| 0 <= i < g.len() ==> !magic_at(g + s, i),
    ensures
        bin_read(g + s) == bin_read(s),
    decreases g.len(),
{
    let x = g + s;
    if g.len() == 0 {
        assert(x =~= s);
    } else if x.len() < 4 {
    } else {
        assert(!magic_at(x, 0));
        assert(x.subrange(0, 4) =~= x.take(4));
        let g1 = g.drop_first();
        assert(x.drop_first() =~= g1 + s);
        assert forall|i: int| 0 <= i < g1.len() implies !magic_at(g1 + s, i) by {
            assert(!magic_at(x, i + 1));
            if i + 4 <= (g1 + s).len() {
                assert((g1 + s).subrange(i, i + 4) =~= x.subrange(i + 1, i + 5));
            }
        }
        lemma_bin_skips_garbage(g1, s);
    }
}


// ---------------------------------------------------------------------------
// Reading then writing gives canonical bytes back
// ---------------------------------------------------------------------------

/// A record body as the writer makes it: the description length is what follows
/// the fixed part, the type and status bytes stand for values, and the
/// description is UTF-8.
pub open spec fn canonical_body(body: Seq<u8>) -> bool {
    &&& body.len() >= FIXED_BODY_SIZE
    &&& be_value(body.subrange(42, 46)) == body.len() - FIXED_BODY_SIZE
    &&& tx_type_of_byte(body[8]) is Some
    &&& status_of_byte(body[41]) is Some
    &&& valid_utf8(body.skip(46))
}

/// Bytes as the writer makes them: records one after the other, each `YPBN`, the
/// body size and a canonical body, and nothing else.
pub open spec fn canonical_bin(b: Seq<u8>) -> bool
    decreases b.len(),
{
    if b.len() == 0 {
        true
    } else if b.len() < 8 || b.take(4) != magic() {
        false
    } else {
        let n = be_value(b.subrange(4, 8));
        &&& 8 + n <= b.len()
        &&& canonical_body(b.subrange(8, 8 + n as int))
        &&& canonical_bin(b.skip(8 + n as int))
    }
}

/// Big-endian bytes are written back as they were read.
proof fn lemma_be_bytes_value(s: Seq<u8>)
    ensures
        be_bytes(be_value(s), s.len()) == s,
    decreases s.len(),
{
    if s.len() > 0 {
        let a = be_value(s.drop_last());
        let b = s.last() as nat;
        lemma_be_bytes_value(s.drop_last());
        assert((a * 256 + b) / 256 == a && (a * 256 + b) % 256 == b) by (nonlinear_arith)
            requires
                0 <= b < 256,
                a >= 0,
        ;
        assert(be_bytes(be_value(s), s.len()) =~= s.drop_last().push(s.last()));
        assert(s.drop_last().push(s.last()) =~= s);
    }
}

/// Eight big-endian bytes hold a `u64`, four a `u32`.
proof fn lemma_be_fits(s: Seq<u8>)
    requires
        s.len() == 8 || s.len() == 4,
    ensures
        be_value(s) < 0x1_0000_0000_0000_0000,
        s.len() == 4 ==> be_value(s) < 0x1_0000_0000,
{
    lemma_be_value_bound(s);
    lemma_byte_pow_values();
}

/// A canonical body reads to a transaction that is written as the same body.
proof fn lemma_canonical_body(body: Seq<u8>)
    requires
        canonical_body(body),
    ensures
        bin_record(body) is Ok,
        bin_body(bin_record(body)->Ok_0) == body,
{
    let rest = body.skip(46);
    assert(rest.take(rest.len() as int) =~= rest);
    let t = bin_record(body)->Ok_0;
    lemma_be_fits(body.subrange(0, 8));
    lemma_be_fits(body.subrange(9, 17));
    lemma_be_fits(body.subrange(17, 25));
    lemma_be_fits(body.subrange(25, 33));
    lemma_be_fits(body.subrange(33, 41));
    lemma_be_bytes_value(body.subrange(0, 8));
    lemma_be_bytes_value(body.subrange(9, 17));
    lemma_be_bytes_value(body.subrange(17, 25));
    lemma_be_bytes_value(body.subrange(25, 33));
    lemma_be_bytes_value(body.subrange(33, 41));
    lemma_be_bytes_value(body.subrange(42, 46));
    vstd::utf8::decode_utf8_encode_utf8(rest);
    assert(encode_utf8(t.description) == rest);
    assert(tx_type_byte(t.tx_type) == body[8]);
    assert(status_byte(t.status) == body[41]);
    assert(bin_body(t) =~= body.subrange(0, 8) + seq![body[8]] + body.subrange(9, 17)
        + body.subrange(17, 25) + body.subrange(25, 33) + body.subrange(33, 41) + seq![body[41]]
        + body.subrange(42, 46) + rest);
    assert(bin_body(t) =~= body);
}

/// Canonical bytes read to transactions that are written as the same bytes: on
/// what the writer makes, writing undoes reading.
pub proof fn lemma_bin_canonical(b: Seq<u8>)
    requires
        canonical_bin(b),
    ensures
        bin_read(b) matches Some(Ok(v)) && bin_bytes(v) == b,
    decreases b.len(),
{
    if b.len() > 0 {
        let n = be_value(b.subrange(4, 8));
        let s1 = b.skip(4);
        let s2 = s1.skip(4);
        assert(s1.take(4) =~= b.subrange(4, 8));
        assert(s2.take(n as int) =~= b.subrange(8, 8 + n as int));
        assert(s2.skip(n as int) =~= b.skip(8 + n as int));
        let body = b.subrange(8, 8 + n as int);
        lemma_canonical_body(body);
        let t = bin_record(body)->Ok_0;
        lemma_bin_canonical(b.skip(8 + n as int));
        let v1 = bin_scan(b.skip(8 + n as int))->Some_0->Ok_0;
        let v = seq![t] + v1;
        assert(bin_read(b) == Some(Ok::<Seq<TransactionView>, ParseErrorView>(v)));
        assert(v[0] == t);
        assert(v.drop_first() =~= v1);
        lemma_be_bytes_value(b.subrange(4, 8));
        assert(bin_body(t).len() == n);
        assert(bin_record_bytes(t) =~= b.take(8 + n as int));
        assert(bin_bytes(v) =~= b);
    }
}


// ---------------------------------------------------------------------------
// The layout of a record body
// ---------------------------------------------------------------------------

/// Where each field stands in the body a transaction is written as: the id at
/// bytes 0..8, the type code at byte 8 (0 for a deposit, 1 for a transfer, 2 for
/// a withdrawal), the user ids, amount and timestamp at 9..17, 17..25, 25..33
/// and 33..41, the status code at byte 41 (0 for success, 1 for failure, 2 for
/// pending), the description's length at 42..46, all big-endian, and the
/// description's UTF-8 bytes after them.
pub proof fn lemma_bin_body_layout(t: TransactionView)
    ensures
        bin_body(t).len() == 46 + encode_utf8(t.description).len(),
        t.tx_type == TransactionType::DEPOSIT ==> bin_body(t)[8] == 0,
        t.tx_type == TransactionType::TRANSFER ==> bin_body(t)[8] == 1,
        t.tx_type == TransactionType::WITHDRAWAL ==> bin_body(t)[8] == 2,
        t.status == Status::SUCCESS ==> bin_body(t)[41] == 0,
        t.status == Status::FAILURE ==> bin_body(t)[41] == 1,
        t.status == Status::PENDING ==> bin_body(t)[41] == 2,
        be_value(bin_body(t).subrange(0, 8)) == t.tx_id,
        be_value(bin_body(t).subrange(9, 17)) == t.from_user_id,
        be_value(bin_body(t).subrange(17, 25)) == t.to_user_id,
        be_value(bin_body(t).subrange(25, 33)) == t.amount,
        be_value(bin_body(t).subrange(33, 41)) == t.timestamp,
        encode_utf8(t.description).len() < 0x1_0000_0000 ==> be_value(bin_body(t).subrange(42, 46))
            == encode_utf8(t.description).len(),
        bin_body(t).skip(46) == encode_utf8(t.description),
{
    let d = encode_utf8(t.description);
    let body = bin_body(t);
    lemma_byte_pow_values();
    lemma_be_bytes_len(t.tx_id as nat, 8);
    lemma_be_bytes_len(t.from_user_id as nat, 8);
    lemma_be_bytes_len(t.to_user_id as nat, 8);
    lemma_be_bytes_len(t.amount as nat, 8);
    lemma_be_bytes_len(t.timestamp as nat, 8);
    lemma_be_bytes_len(d.len(), 4);
    lemma_be_roundtrip(t.tx_id as nat, 8);
    lemma_be_roundtrip(t.from_user_id as nat, 8);
    lemma_be_roundtrip(t.to_user_id as nat, 8);
    lemma_be_roundtrip(t.amount as nat, 8);
    lemma_be_roundtrip(t.timestamp as nat, 8);
    if d.len() < 0x1_0000_0000 {
        lemma_be_roundtrip(d.len(), 4);
    }
    assert(body.subrange(0, 8) =~= be_bytes(t.tx_id as nat, 8));
    assert(body[8] == tx_type_byte(t.tx_type));
    assert(body.subrange(9, 17) =~= be_bytes(t.from_user_id as nat, 8));
    assert(body.subrange(17, 25) =~= be_bytes(t.to_user_id as nat, 8));
    assert(body.subrange(25, 33) =~= be_bytes(t.amount as nat, 8));
    assert(body.subrange(33, 41) =~= be_bytes(t.timestamp as nat, 8));
    assert(body[41] == status_byte(t.status));
    assert(body.subrange(42, 46) =~= be_bytes(d.len(), 4));
    assert(body.skip(46) =~= d);
}

/// What decoding a body reads from each place: the type from the code at byte 8
/// (0 a deposit, 1 a transfer, 2 a withdrawal, any other code refused as
/// `tx_type`), the status from the code at byte 41 (0 success, 1 failure, 2
/// pending, any other code refused as `status`), and the numbers from their
/// big-endian bytes.
pub proof fn lemma_bin_record_fields(body: Seq<u8>)
    requires
        body.len() >= FIXED_BODY_SIZE,
    ensures
        body[8] > 2 ==> bin_record(body) == Err::<TransactionView, ParseErrorView>(
            ParseErrorView::InvalidBinaryField(seq!['t', 'x', '_', 't', 'y', 'p', 'e']),
        ),
        body[8] <= 2 && body[41] > 2 ==> bin_record(body) == Err::<TransactionView, ParseErrorView>(
            ParseErrorView::InvalidBinaryField(seq!['s', 't', 'a', 't', 'u', 's']),
        ),
        bin_record(body) matches Ok(t) ==> {
            &&& body[8] <= 2 && body[41] <= 2
            &&& (t.tx_type == TransactionType::DEPOSIT <==> body[8] == 0)
            &&& (t.tx_type == TransactionType::TRANSFER <==> body[8] == 1)
            &&& (t.tx_type == TransactionType::WITHDRAWAL <==> body[8] == 2)
            &&& (t.status == Status::SUCCESS <==> body[41] == 0)
            &&& (t.status == Status::FAILURE <==> body[41] == 1)
            &&& (t.status == Status::PENDING <==> body[41] == 2)
            &&& t.tx_id == be_value(body.subrange(0, 8))
            &&& t.from_user_id == be_value(body.subrange(9, 17))
            &&& t.to_user_id == be_value(body.subrange(17, 25))
            &&& t.amount == be_value(body.subrange(25, 33))
            &&& t.timestamp == be_value(body.subrange(33, 41))
            &&& (be_value(body.subrange(42, 46)) <= body.len() - 46 ==> encode_utf8(t.description)
                == body.subrange(46, 46 + be_value(body.subrange(42, 46)) as int))
            &&& (be_value(body.subrange(42, 46)) > body.len() - 46 ==> t.description.len() == 0)
        },
{
    let n = be_value(body.subrange(42, 46));
    if n <= body.len() - 46 {
        let d = body.skip(46).take(n as int);
        assert(d =~= body.subrange(46, 46 + n as int));
        if valid_utf8(d) {
            vstd::utf8::decode_utf8_encode_utf8(d);
        }
    }
    lemma_be_fits(body.subrange(0, 8));
    lemma_be_fits(body.subrange(9, 17));
    lemma_be_fits(body.subrange(17, 25));
    lemma_be_fits(body.subrange(25, 33));
    lemma_be_fits(body.subrange(33, 41));
    assert(tx_type_label() =~= seq!['t', 'x', '_', 't', 'y', 'p', 'e']);
    assert(status_label() =~= seq!['s', 't', 'a', 't', 'u', 's']);
}

} // verus!
