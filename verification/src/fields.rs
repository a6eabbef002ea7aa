//! The fields of a transaction as the text formats name, read and write them.
use vstd::prelude::*;
use vstd::string::StringExecFns;

use crate::error::{ParseError, ParseErrorView};
use crate::text::{
    chars_of, lemma_subrange_whole, parse_u64, parse_u64_range, range_is, string_of_range,
};
use crate::{Status, TransactionType, TransactionView};

verus! {

/// The position of each field in a record, in the order the formats use.
pub const TX_ID: usize = 0;
pub const TX_TYPE: usize = 1;
pub const FROM_USER_ID: usize = 2;
pub const TO_USER_ID: usize = 3;
pub const AMOUNT: usize = 4;
pub const TIMESTAMP: usize = 5;
pub const STATUS: usize = 6;
pub const DESCRIPTION: usize = 7;

/// The name of field `k`.
pub open spec fn field_name(k: int) -> Seq<char> {
    if k == 0 {
        seq!['T', 'X', '_', 'I', 'D']
    } else if k == 1 {
        seq!['T', 'X', '_', 'T', 'Y', 'P', 'E']
    } else if k == 2 {
        seq!['F', 'R', 'O', 'M', '_', 'U', 'S', 'E', 'R', '_', 'I', 'D']
    } else if k == 3 {
        seq!['T', 'O', '_', 'U', 'S', 'E', 'R', '_', 'I', 'D']
    } else if k == 4 {
        seq!['A', 'M', 'O', 'U', 'N', 'T']
    } else if k == 5 {
        seq!['T', 'I', 'M', 'E', 'S', 'T', 'A', 'M', 'P']
    } else if k == 6 {
        seq!['S', 'T', 'A', 'T', 'U', 'S']
    } else {
        seq!['D', 'E', 'S', 'C', 'R', 'I', 'P', 'T', 'I', 'O', 'N']
    }
}

/// The characters of the name of field `k`.
pub fn field_name_chars(k: usize) -> (v: Vec<char>)
    requires
        k < 8,
    ensures
        v@ == field_name(k as int),
{
    let v = if k == 0 {
        vec!['T', 'X', '_', 'I', 'D']
    } else if k == 1 {
        vec!['T', 'X', '_', 'T', 'Y', 'P', 'E']
    } else if k == 2 {
        vec!['F', 'R', 'O', 'M', '_', 'U', 'S', 'E', 'R', '_', 'I', 'D']
    } else if k == 3 {
        vec!['T', 'O', '_', 'U', 'S', 'E', 'R', '_', 'I', 'D']
    } else if k == 4 {
        vec!['A', 'M', 'O', 'U', 'N', 'T']
    } else if k == 5 {
        vec!['T', 'I', 'M', 'E', 'S', 'T', 'A', 'M', 'P']
    } else if k == 6 {
        vec!['S', 'T', 'A', 'T', 'U', 'S']
    } else {
        vec!['D', 'E', 'S', 'C', 'R', 'I', 'P', 'T', 'I', 'O', 'N']
    };
    assert(v@ =~= field_name(k as int));
    v
}

/// The name of field `k` as a string.
pub fn field_name_string(k: usize) -> (s: String)
    requires
        k < 8,
    ensures
        s@ == field_name(k as int),
{
    let v = field_name_chars(k);
    string_of_range(&v, 0, v.len())
}

/// Appends the name of field `k` to `out`.
pub fn push_field_name(out: &mut String, k: usize)
    requires
        k < 8,
    ensures
        final(out)@ == old(out)@ + field_name(k as int),
{
    let v = field_name_chars(k);
    crate::text::push_range(out, &v, 0, v.len());
    assert(v@.subrange(0, v@.len() as int) =~= v@);
}

// ---------------------------------------------------------------------------
// Transaction types and statuses as words
// ---------------------------------------------------------------------------

/// How a transaction type is written.
pub open spec fn tx_type_text(t: TransactionType) -> Seq<char> {
    match t {
        TransactionType::DEPOSIT => seq!['D', 'E', 'P', 'O', 'S', 'I', 'T'],
        TransactionType::TRANSFER => seq!['T', 'R', 'A', 'N', 'S', 'F', 'E', 'R'],
        TransactionType::WITHDRAWAL => seq!['W', 'I', 'T', 'H', 'D', 'R', 'A', 'W', 'A', 'L'],
    }
}

/// The transaction type that a word names, as `TransactionType::from_str` reads it.
pub open spec fn parse_tx_type(s: Seq<char>) -> Option<TransactionType> {
    if s == tx_type_text(TransactionType::DEPOSIT) {
        Some(TransactionType::DEPOSIT)
    } else if s == tx_type_text(TransactionType::TRANSFER) {
        Some(TransactionType::TRANSFER)
    } else if s == tx_type_text(TransactionType::WITHDRAWAL) {
        Some(TransactionType::WITHDRAWAL)
    } else {
        None
    }
}

/// How a status is written.
pub open spec fn status_text(s: Status) -> Seq<char> {
    match s {
        Status::SUCCESS => seq!['S', 'U', 'C', 'C', 'E', 'S', 'S'],
        Status::FAILURE => seq!['F', 'A', 'I', 'L', 'U', 'R', 'E'],
        Status::PENDING => seq!['P', 'E', 'N', 'D', 'I', 'N', 'G'],
    }
}

/// The status that a word names, as `Status::from_str` reads it.
pub open spec fn parse_status(s: Seq<char>) -> Option<Status> {
    if s == status_text(Status::SUCCESS) {
        Some(Status::SUCCESS)
    } else if s == status_text(Status::FAILURE) {
        Some(Status::FAILURE)
    } else if s == status_text(Status::PENDING) {
        Some(Status::PENDING)
    } else {
        None
    }
}

/// Reading back the word of a transaction type gives the type.
pub proof fn lemma_parse_tx_type_text(t: TransactionType)
    ensures
        parse_tx_type(tx_type_text(t)) == Some(t),
{
    let d = tx_type_text(TransactionType::DEPOSIT);
    let r = tx_type_text(TransactionType::TRANSFER);
    let w = tx_type_text(TransactionType::WITHDRAWAL);
    assert(d != r) by { assert(d.len() != r.len()); }
    assert(d != w) by { assert(d.len() != w.len()); }
    assert(r != w) by { assert(r.len() != w.len()); }
}

/// Reading back the word of a status gives the status.
pub proof fn lemma_parse_status_text(s: Status)
    ensures
        parse_status(status_text(s)) == Some(s),
{
    let a = status_text(Status::SUCCESS);
    let b = status_text(Status::FAILURE);
    let c = status_text(Status::PENDING);
    assert(a != b) by { assert(a[0] != b[0]); }
    assert(a != c) by { assert(a[0] != c[0]); }
    assert(b != c) by { assert(b[0] != c[0]); }
}

/// Reads `v[lo..hi]` as a transaction type.
pub fn tx_type_of_range(v: &Vec<char>, lo: usize, hi: usize) -> (r: Option<TransactionType>)
    requires
        lo <= hi <= v@.len(),
    ensures
        r == parse_tx_type(v@.subrange(lo as int, hi as int)),
{
    let d = vec!['D', 'E', 'P', 'O', 'S', 'I', 'T'];
    let t = vec!['T', 'R', 'A', 'N', 'S', 'F', 'E', 'R'];
    let w = vec!['W', 'I', 'T', 'H', 'D', 'R', 'A', 'W', 'A', 'L'];
    assert(d@ =~= tx_type_text(TransactionType::DEPOSIT));
    assert(t@ =~= tx_type_text(TransactionType::TRANSFER));
    assert(w@ =~= tx_type_text(TransactionType::WITHDRAWAL));
    if range_is(v, lo, hi, d.as_slice()) {
        Some(TransactionType::DEPOSIT)
    } else if range_is(v, lo, hi, t.as_slice()) {
        Some(TransactionType::TRANSFER)
    } else if range_is(v, lo, hi, w.as_slice()) {
        Some(TransactionType::WITHDRAWAL)
    } else {
        None
    }
}

/// Reads `v[lo..hi]` as a status.
pub fn status_of_range(v: &Vec<char>, lo: usize, hi: usize) -> (r: Option<Status>)
    requires
        lo <= hi <= v@.len(),
    ensures
        r == parse_status(v@.subrange(lo as int, hi as int)),
{
    let a = vec!['S', 'U', 'C', 'C', 'E', 'S', 'S'];
    let b = vec!['F', 'A', 'I', 'L', 'U', 'R', 'E'];
    let c = vec!['P', 'E', 'N', 'D', 'I', 'N', 'G'];
    assert(a@ =~= status_text(Status::SUCCESS));
    assert(b@ =~= status_text(Status::FAILURE));
    assert(c@ =~= status_text(Status::PENDING));
    if range_is(v, lo, hi, a.as_slice()) {
        Some(Status::SUCCESS)
    } else if range_is(v, lo, hi, b.as_slice()) {
        Some(Status::FAILURE)
    } else if range_is(v, lo, hi, c.as_slice()) {
        Some(Status::PENDING)
    } else {
        None
    }
}

impl TransactionType {
    /// The word of the type, as `Display` writes it.
    pub fn text(&self) -> (s: &'static str)
        ensures
            s@ == tx_type_text(*self),
    {
        proof {
            reveal_strlit("DEPOSIT");
            reveal_strlit("TRANSFER");
            reveal_strlit("WITHDRAWAL");
        }
        let s = match self {
            TransactionType::DEPOSIT => "DEPOSIT",
            TransactionType::TRANSFER => "TRANSFER",
            TransactionType::WITHDRAWAL => "WITHDRAWAL",
        };
        assert(s@ =~= tx_type_text(*self));
        s
    }

    /// The type that a word names, as `from_str` reads it.
    pub fn from_text(s: &str) -> (t: Option<TransactionType>)
        ensures
            t == parse_tx_type(s@),
    {
        let v = chars_of(s);
        proof {
            lemma_subrange_whole(v@);
        }
        tx_type_of_range(&v, 0, v.len())
    }
}

impl Status {
    /// The word of the status, as `Display` writes it.
    pub fn text(&self) -> (s: &'static str)
        ensures
            s@ == status_text(*self),
    {
        proof {
            reveal_strlit("SUCCESS");
            reveal_strlit("FAILURE");
            reveal_strlit("PENDING");
        }
        let s = match self {
            Status::SUCCESS => "SUCCESS",
            Status::FAILURE => "FAILURE",
            Status::PENDING => "PENDING",
        };
        assert(s@ =~= status_text(*self));
        s
    }

    /// The status that a word names, as `from_str` reads it.
    pub fn from_text(s: &str) -> (r: Option<Status>)
        ensures
            r == parse_status(s@),
    {
        let v = chars_of(s);
        proof {
            lemma_subrange_whole(v@);
        }
        status_of_range(&v, 0, v.len())
    }
}

/// A transaction type is parsed from its word; any other text is refused.
impl std::str::FromStr for TransactionType {
    type Err = ();

    fn from_str(s: &str) -> (r: Result<TransactionType, ()>)
        ensures
            match r {
                Ok(t) => parse_tx_type(s@) == Some(t),
                Err(_) => parse_tx_type(s@) is None,
            },
    {
        match TransactionType::from_text(s) {
            Some(t) => Ok(t),
            None => Err(()),
        }
    }
}

/// A status is parsed from its word; any other text is refused.
impl std::str::FromStr for Status {
    type Err = ();

    fn from_str(s: &str) -> (r: Result<Status, ()>)
        ensures
            match r {
                Ok(t) => parse_status(s@) == Some(t),
                Err(_) => parse_status(s@) is None,
            },
    {
        match Status::from_text(s) {
            Some(t) => Ok(t),
            None => Err(()),
        }
    }
}

/// Appends the word of a transaction type.
pub fn push_tx_type(out: &mut String, t: TransactionType)
    ensures
        final(out)@ == old(out)@ + tx_type_text(t),
{
    out.append(t.text());
}

/// Appends the word of a status.
pub fn push_status(out: &mut String, s: Status)
    ensures
        final(out)@ == old(out)@ + status_text(s),
{
    out.append(s.text());
}

// ---------------------------------------------------------------------------
// Fields of a record
// ---------------------------------------------------------------------------

/// A field value as the text formats find it: its text and the line it stands on.
pub type FieldText = Option<(Seq<char>, nat)>;

/// The error for field `k` whose text does not parse.
pub open spec fn invalid_field(k: int, v: (Seq<char>, nat)) -> ParseErrorView {
    ParseErrorView::InvalidTextFieldValue { field: field_name(k), value: v.0, line_num: v.1 }
}

/// The error for field `k` that has no value.
pub open spec fn missing_field(k: int) -> ParseErrorView {
    ParseErrorView::FieldValueNotFound(field_name(k))
}

/// Field `k` read as a `u64`.
pub open spec fn u64_field(k: int, v: FieldText) -> Result<u64, ParseErrorView> {
    match v {
        None => Err(missing_field(k)),
        Some(p) => match parse_u64(p.0) {
            Some(n) => Ok(n),
            None => Err(invalid_field(k, p)),
        },
    }
}

/// Field `k` read as a transaction type.
pub open spec fn tx_type_field(k: int, v: FieldText) -> Result<TransactionType, ParseErrorView> {
    match v {
        None => Err(missing_field(k)),
        Some(p) => match parse_tx_type(p.0) {
            Some(t) => Ok(t),
            None => Err(invalid_field(k, p)),
        },
    }
}

/// Field `k` read as a status.
pub open spec fn status_field(k: int, v: FieldText) -> Result<Status, ParseErrorView> {
    match v {
        None => Err(missing_field(k)),
        Some(p) => match parse_status(p.0) {
            Some(s) => Ok(s),
            None => Err(invalid_field(k, p)),
        },
    }
}

/// A transaction from its fields read in order; the first field that fails decides the error.
pub open spec fn assemble(
    tx_id: Result<u64, ParseErrorView>,
    tx_type: Result<TransactionType, ParseErrorView>,
    from_user_id: Result<u64, ParseErrorView>,
    to_user_id: Result<u64, ParseErrorView>,
    amount: Result<u64, ParseErrorView>,
    timestamp: Result<u64, ParseErrorView>,
    status: Result<Status, ParseErrorView>,
    description: Seq<char>,
) -> Result<TransactionView, ParseErrorView> {
    match tx_id {
        Err(e) => Err(e),
        Ok(tx_id) => match tx_type {
            Err(e) => Err(e),
            Ok(tx_type) => match from_user_id {
                Err(e) => Err(e),
                Ok(from_user_id) => match to_user_id {
                    Err(e) => Err(e),
                    Ok(to_user_id) => match amount {
                        Err(e) => Err(e),
                        Ok(amount) => match timestamp {
                            Err(e) => Err(e),
                            Ok(timestamp) => match status {
                                Err(e) => Err(e),
                                Ok(status) => Ok(
                                    TransactionView {
                                        tx_id,
                                        tx_type,
                                        from_user_id,
                                        to_user_id,
                                        amount,
                                        timestamp,
                                        status,
                                        description,
                                    },
                                ),
                            },
                        },
                    },
                },
            },
        },
    }
}

/// The error for field `k` that has no value.
pub fn missing_field_error(k: usize) -> (e: ParseError)
    requires
        k < 8,
    ensures
        e@ == missing_field(k as int),
{
    ParseError::FieldValueNotFound(field_name_string(k))
}

/// The error for field `k` whose text `v[lo..hi]`, on line `line`, does not parse.
pub fn invalid_field_error(k: usize, v: &Vec<char>, lo: usize, hi: usize, line: usize) -> (e:
    ParseError)
    requires
        k < 8,
        lo <= hi <= v@.len(),
    ensures
        e@ == invalid_field(k as int, (v@.subrange(lo as int, hi as int), line as nat)),
{
    ParseError::InvalidTextFieldValue {
        field: field_name_string(k),
        value: string_of_range(v, lo, hi),
        line_num: line,
    }
}

/// Field `k`, with text `v[lo..hi]` on line `line`, read as a `u64`.
pub fn read_u64_field(k: usize, v: &Vec<char>, lo: usize, hi: usize, line: usize) -> (r: Result<
    u64,
    ParseError,
>)
    requires
        k < 8,
        lo <= hi <= v@.len(),
    ensures
        match r {
            Ok(n) => u64_field(k as int, Some((v@.subrange(lo as int, hi as int), line as nat)))
                == Ok::<u64, ParseErrorView>(n),
            Err(e) => u64_field(k as int, Some((v@.subrange(lo as int, hi as int), line as nat)))
                == Err::<u64, ParseErrorView>(e@),
        },
{
    match parse_u64_range(v, lo, hi) {
        Some(n) => Ok(n),
        None => Err(invalid_field_error(k, v, lo, hi, line)),
    }
}

/// Field `k`, with text `v[lo..hi]` on line `line`, read as a transaction type.
pub fn read_tx_type_field(k: usize, v: &Vec<char>, lo: usize, hi: usize, line: usize) -> (r:
    Result<TransactionType, ParseError>)
    requires
        k < 8,
        lo <= hi <= v@.len(),
    ensures
        match r {
            Ok(t) => tx_type_field(k as int, Some((v@.subrange(lo as int, hi as int), line as nat)))
                == Ok::<TransactionType, ParseErrorView>(t),
            Err(e) => tx_type_field(k as int, Some((v@.subrange(lo as int, hi as int), line as nat)))
                == Err::<TransactionType, ParseErrorView>(e@),
        },
{
    match tx_type_of_range(v, lo, hi) {
        Some(t) => Ok(t),
        None => Err(invalid_field_error(k, v, lo, hi, line)),
    }
}

/// Field `k`, with text `v[lo..hi]` on line `line`, read as a status.
pub fn read_status_field(k: usize, v: &Vec<char>, lo: usize, hi: usize, line: usize) -> (r: Result<
    Status,
    ParseError,
>)
    requires
        k < 8,
        lo <= hi <= v@.len(),
    ensures
        match r {
            Ok(s) => status_field(k as int, Some((v@.subrange(lo as int, hi as int), line as nat)))
                == Ok::<Status, ParseErrorView>(s),
            Err(e) => status_field(k as int, Some((v@.subrange(lo as int, hi as int), line as nat)))
                == Err::<Status, ParseErrorView>(e@),
        },
{
    match status_of_range(v, lo, hi) {
        Some(s) => Ok(s),
        None => Err(invalid_field_error(k, v, lo, hi, line)),
    }
}

} // verus!
