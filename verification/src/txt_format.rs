//! The key-value text format: `KEY: VALUE` lines, records parted by blank lines,
//! `#` lines ignored.
use vstd::prelude::*;
use vstd::slice::slice_subrange;
use vstd::string::StringExecFns;
use vstd::utf8::{decode_utf8, encode_utf8, valid_utf8};

use crate::csv_format::{blank_line, prepend};
use crate::error::{IoErrorKind, ParseError, ParseErrorView, outcome};
use crate::fields::{
    AMOUNT, DESCRIPTION, FROM_USER_ID, FieldText, STATUS, TIMESTAMP, TO_USER_ID, TX_ID, TX_TYPE,
    assemble, field_name, field_name_chars, lemma_parse_status_text, lemma_parse_tx_type_text,
    missing_field_error, push_field_name, push_status,
    push_tx_type, read_status_field, read_tx_type_field, read_u64_field, status_field,
    status_text, tx_type_field, tx_type_text, u64_field,
};
use crate::lines::{
    LF, find_line, join_lines, lemma_line_len, lemma_line_len_at, lemma_lines_prefix, lemma_next_line_of,
    lemma_next_line_shorter, next_line, strip_cr,
};
use crate::text::{
    count_until, decimal, decode_utf8_chars, find_char, is_digit, is_whitespace,
    lemma_count_until, lemma_count_until_at, lemma_decimal_digits, lemma_encode_avoids,
    lemma_encode_concat, lemma_encode_last, lemma_encode_newline, lemma_parse_decimal,
    lemma_subrange_whole, lemma_trim_blank_first, lemma_trim_fixed, lemma_trim_keeps_char, lemma_trim_keeps_first,
    parse_u64, push_char, push_decimal, range_is, string_of_range, trim, trim_range,
};
use crate::{Transaction, TransactionView, views};

verus! {

/// The fields of a record being read: each key with its value and the line it stood on.
pub type Fields = Map<Seq<char>, (Seq<char>, nat)>;

/// Whether no field has been read yet.
pub open spec fn no_fields(m: Fields) -> bool {
    m.dom() == Set::<Seq<char>>::empty()
}

/// The field named as field `k`, if the record has it.
pub open spec fn txt_field(m: Fields, k: int) -> FieldText {
    if m.contains_key(field_name(k)) {
        Some(m[field_name(k)])
    } else {
        None
    }
}

/// The transaction that a record's fields make.
pub open spec fn txt_record(m: Fields) -> Result<TransactionView, ParseErrorView> {
    assemble(
        u64_field(0, txt_field(m, 0)),
        tx_type_field(1, txt_field(m, 1)),
        u64_field(2, txt_field(m, 2)),
        u64_field(3, txt_field(m, 3)),
        u64_field(4, txt_field(m, 4)),
        u64_field(5, txt_field(m, 5)),
        status_field(6, txt_field(m, 6)),
        if m.contains_key(field_name(7)) {
            m[field_name(7)].0
        } else {
            Seq::empty()
        },
    )
}

/// The record that `m` holds, if any, as a sequence of at most one transaction.
pub open spec fn txt_flush(m: Fields) -> Result<Seq<TransactionView>, ParseErrorView> {
    if no_fields(m) {
        Ok(Seq::empty())
    } else {
        match txt_record(m) {
            Err(e) => Err(e),
            Ok(t) => Ok(seq![t]),
        }
    }
}

/// The transactions of the lines in `s`, the first of them being line `idx + 1`,
/// with the fields `m` already read for the current record.
pub open spec fn txt_lines(s: Seq<u8>, idx: nat, m: Fields) -> Result<
    Seq<TransactionView>,
    ParseErrorView,
>
    decreases s.len(),
{
    if s.len() == 0 {
        txt_flush(m)
    } else {
        proof {
            lemma_next_line_shorter(s);
        }
        let l = next_line(s).0;
        let rest = next_line(s).1;
        if !valid_utf8(l) {
            Err(ParseErrorView::Io(IoErrorKind::InvalidData))
        } else {
            let c = decode_utf8(l);
            if c.len() > 0 && c[0] == '#' {
                txt_lines(rest, idx + 1, m)
            } else if trim(c).len() == 0 && !no_fields(m) {
                match txt_record(m) {
                    Err(e) => Err(e),
                    Ok(t) => prepend(seq![t], txt_lines(rest, idx + 1, Map::empty())),
                }
            } else {
                let k = count_until(c, ':') as int;
                if k < c.len() {
                    txt_lines(rest, idx + 1, m.insert(trim(c.take(k)), (trim(c.skip(k + 1)), idx + 1)))
                } else {
                    txt_lines(rest, idx + 1, m)
                }
            }
        }
    }
}

/// What reading the text format gives.
pub open spec fn txt_read(input: Seq<u8>) -> Result<Seq<TransactionView>, ParseErrorView> {
    txt_lines(input, 0, Map::empty())
}

/// The line `KEY: VALUE` for field `k`, line feed included.
pub open spec fn txt_entry(k: int, value: Seq<char>) -> Seq<char> {
    field_name(k) + seq![':', ' '] + value + seq!['\n']
}

/// The lines that a transaction is written as, closed by a blank line.
pub open spec fn txt_block(t: TransactionView) -> Seq<char> {
    txt_entry(0, decimal(t.tx_id as nat)) + txt_entry(1, tx_type_text(t.tx_type)) + txt_entry(
        2,
        decimal(t.from_user_id as nat),
    ) + txt_entry(3, decimal(t.to_user_id as nat)) + txt_entry(4, decimal(t.amount as nat))
        + txt_entry(5, decimal(t.timestamp as nat)) + txt_entry(6, status_text(t.status))
        + txt_entry(7, t.description) + seq!['\n']
}

/// What writing transactions in the text format gives.
pub open spec fn txt_text(txs: Seq<TransactionView>) -> Seq<char>
    decreases txs.len(),
{
    if txs.len() == 0 {
        Seq::empty()
    } else {
        txt_block(txs[0]) + txt_text(txs.drop_first())
    }
}

/// Adding a transaction at the end adds its block at the end.
pub proof fn lemma_txt_text_push(txs: Seq<TransactionView>, t: TransactionView)
    ensures
        txt_text(txs.push(t)) == txt_text(txs) + txt_block(t),
    decreases txs.len(),
{
    if txs.len() == 0 {
        assert(txs.push(t).drop_first() =~= Seq::<TransactionView>::empty());
        assert(txt_text(Seq::<TransactionView>::empty()) == Seq::<char>::empty());
        assert(txt_text(txs.push(t)) =~= txt_text(txs) + txt_block(t));
    } else {
        lemma_txt_text_push(txs.drop_first(), t);
        assert(txs.push(t).drop_first() =~= txs.drop_first().push(t));
        assert(txs.push(t)[0] == txs[0]);
        assert(txt_text(txs.push(t)) =~= txt_text(txs) + txt_block(t));
    }
}

/// The field names differ from each other.
pub proof fn lemma_field_names_distinct(i: int, j: int)
    requires
        0 <= i < 8,
        0 <= j < 8,
        i != j,
    ensures
        field_name(i) != field_name(j),
{
    if field_name(i).len() == field_name(j).len() {
        assert(field_name(i)[0] != field_name(j)[0]);
    }
}

// ---------------------------------------------------------------------------
// Reading
// ---------------------------------------------------------------------------

/// The slot of each known field: its value and its line.
type Slots = Vec<Option<(Vec<char>, usize)>>;

/// The slots and the flag hold what `m` says of the eight known fields.
pub open spec fn holds(slots: Seq<Option<(Vec<char>, usize)>>, any: bool, m: Fields) -> bool {
    &&& slots.len() == 8
    &&& any == !no_fields(m)
    &&& forall|k: int|
        0 <= k < 8 ==> match #[trigger] slots[k] {
            None => !m.contains_key(field_name(k)),
            Some(p) => m.contains_key(field_name(k)) && m[field_name(k)] == (p.0@, p.1 as nat),
        }
}

fn empty_slots() -> (s: Slots)
    ensures
        holds(s@, false, Map::empty()),
{
    let mut s: Slots = Vec::new();
    let mut i: usize = 0;
    while i < 8
        invariant
            i <= 8,
            s@.len() == i,
            forall|k: int| 0 <= k < i ==> s@[k] is None,
        decreases 8 - i,
    {
        s.push(None);
        i = i + 1;
    }
    assert(Map::<Seq<char>, (Seq<char>, nat)>::empty().dom() =~= Set::<Seq<char>>::empty());
    s
}

/// A copy of `v[lo..hi]`.
fn copy_range(v: &Vec<char>, lo: usize, hi: usize) -> (c: Vec<char>)
    requires
        lo <= hi <= v@.len(),
    ensures
        c@ == v@.subrange(lo as int, hi as int),
{
    let mut c: Vec<char> = Vec::new();
    let mut i = lo;
    while i < hi
        invariant
            lo <= i <= hi <= v@.len(),
            c@ == v@.subrange(lo as int, i as int),
        decreases hi - i,
    {
        c.push(v[i]);
        assert(v@.subrange(lo as int, i + 1) =~= v@.subrange(lo as int, i as int).push(v@[i as int]));
        i = i + 1;
    }
    c
}

/// The index of the known field named `v[lo..hi]`, or 8 when it names none.
fn known_field(v: &Vec<char>, lo: usize, hi: usize) -> (k: usize)
    requires
        lo <= hi <= v@.len(),
    ensures
        k <= 8,
        k < 8 ==> v@.subrange(lo as int, hi as int) == field_name(k as int),
        k == 8 ==> forall|j: int| 0 <= j < 8 ==> v@.subrange(lo as int, hi as int) != field_name(j),
{
    let mut k: usize = 0;
    while k < 8
        invariant
            lo <= hi <= v@.len(),
            k <= 8,
            forall|j: int| 0 <= j < k ==> v@.subrange(lo as int, hi as int) != field_name(j),
        decreases 8 - k,
    {
        let name = field_name_chars(k);
        if range_is(v, lo, hi, name.as_slice()) {
            return k;
        }
        k = k + 1;
    }
    k
}

/// Records the field of the line `lv`, whose first colon is at `colon`, read on
/// line `line`: the trimmed key gets the trimmed value.
fn record_field(
    slots: &mut Slots,
    lv: &Vec<char>,
    colon: usize,
    line: usize,
    Ghost(m): Ghost<Fields>,
    Ghost(any): Ghost<bool>,
) -> (m2: Ghost<Fields>)
    requires
        holds(old(slots)@, any, m),
        colon < lv.len(),
    ensures
        m2@ == m.insert(trim(lv@.take(colon as int)), (trim(lv@.skip(colon + 1)), line as nat)),
        holds(final(slots)@, true, m2@),
{
    let (ka, kb) = trim_range(lv, 0, colon);
    let (va, vb) = trim_range(lv, colon + 1, lv.len());
    assert(lv@.take(colon as int) =~= lv@.subrange(0, colon as int));
    assert(lv@.skip(colon + 1) =~= lv@.subrange(colon + 1, lv@.len() as int));
    let ghost key = lv@.subrange(ka as int, kb as int);
    let ghost entry = (lv@.subrange(va as int, vb as int), line as nat);
    let k = known_field(lv, ka, kb);
    let value = copy_range(lv, va, vb);
    if k < 8 {
        slots.set(k, Some((value, line)));
    }
    let ghost m2 = m.insert(key, entry);
    proof {
        assert(m2.contains_key(key));
        assert(m2.dom() != Set::<Seq<char>>::empty()) by {
            assert(!Set::<Seq<char>>::empty().contains(key));
        }
        assert forall|j: int| 0 <= j < 8 implies match #[trigger] slots@[j] {
            None => !m2.contains_key(field_name(j)),
            Some(p) => m2.contains_key(field_name(j)) && m2[field_name(j)] == (p.0@, p.1 as nat),
        } by {
            if j != k as int && k < 8 {
                lemma_field_names_distinct(j, k as int);
            }
        }
    }
    Ghost(m2)
}

/// The transaction that the slots make.
fn build(slots: &Slots, Ghost(m): Ghost<Fields>) -> (r: Result<Transaction, ParseError>)
    requires
        holds(slots@, true, m),
    ensures
        match r {
            Ok(t) => txt_record(m) == Ok::<TransactionView, ParseErrorView>(t@),
            Err(e) => txt_record(m) == Err::<TransactionView, ParseErrorView>(e@),
        },
{
    assert(forall|k: int| 0 <= k < 8 ==> txt_field(m, k) == match #[trigger] slots@[k] {
        None => None,
        Some(p) => Some((p.0@, p.1 as nat)),
    });
    let tx_id = match &slots[TX_ID] {
        Some(p) => {
            proof {
                lemma_subrange_whole(p.0@);
            }
            match read_u64_field(TX_ID, &p.0, 0, p.0.len(), p.1) {
                Ok(x) => x,
                Err(e) => return Err(e),
            }
        },
        None => return Err(missing_field_error(TX_ID)),
    };
    let tx_type = match &slots[TX_TYPE] {
        Some(p) => {
            proof {
                lemma_subrange_whole(p.0@);
            }
            match read_tx_type_field(TX_TYPE, &p.0, 0, p.0.len(), p.1) {
                Ok(x) => x,
                Err(e) => return Err(e),
            }
        },
        None => return Err(missing_field_error(TX_TYPE)),
    };
    let from_user_id = match &slots[FROM_USER_ID] {
        Some(p) => {
            proof {
                lemma_subrange_whole(p.0@);
            }
            match read_u64_field(FROM_USER_ID, &p.0, 0, p.0.len(), p.1) {
                Ok(x) => x,
                Err(e) => return Err(e),
            }
        },
        None => return Err(missing_field_error(FROM_USER_ID)),
    };
    let to_user_id = match &slots[TO_USER_ID] {
        Some(p) => {
            proof {
                lemma_subrange_whole(p.0@);
            }
            match read_u64_field(TO_USER_ID, &p.0, 0, p.0.len(), p.1) {
                Ok(x) => x,
                Err(e) => return Err(e),
            }
        },
        None => return Err(missing_field_error(TO_USER_ID)),
    };
    let amount = match &slots[AMOUNT] {
        Some(p) => {
            proof {
                lemma_subrange_whole(p.0@);
            }
            match read_u64_field(AMOUNT, &p.0, 0, p.0.len(), p.1) {
                Ok(x) => x,
                Err(e) => return Err(e),
            }
        },
        None => return Err(missing_field_error(AMOUNT)),
    };
    let timestamp = match &slots[TIMESTAMP] {
        Some(p) => {
            proof {
                lemma_subrange_whole(p.0@);
            }
            match read_u64_field(TIMESTAMP, &p.0, 0, p.0.len(), p.1) {
                Ok(x) => x,
                Err(e) => return Err(e),
            }
        },
        None => return Err(missing_field_error(TIMESTAMP)),
    };
    let status = match &slots[STATUS] {
        Some(p) => {
            proof {
                lemma_subrange_whole(p.0@);
            }
            match read_status_field(STATUS, &p.0, 0, p.0.len(), p.1) {
                Ok(x) => x,
                Err(e) => return Err(e),
            }
        },
        None => return Err(missing_field_error(STATUS)),
    };
    let description = match &slots[DESCRIPTION] {
        Some(p) => {
            proof {
                lemma_subrange_whole(p.0@);
            }
            string_of_range(&p.0, 0, p.0.len())
        },
        None => String::new(),
    };
    Ok(Transaction { tx_id, tx_type, from_user_id, to_user_id, amount, timestamp, status, description })
}

/// Reads transactions from bytes in the text format.
pub fn read(input: &[u8]) -> (r: Result<Vec<Transaction>, ParseError>)
    ensures
        outcome(r) == txt_read(input@),
{
    let mut transactions: Vec<Transaction> = Vec::new();
    let mut slots = empty_slots();
    let mut any = false;
    let ghost mut m: Fields = Map::empty();
    let mut pos: usize = 0;
    let mut idx: usize = 0;
    assert(input@.subrange(0, input@.len() as int) =~= input@);
    while pos < input.len()
        invariant
            pos <= input@.len(),
            idx <= pos,
            holds(slots@, any, m),
            txt_read(input@) == prepend(
                views(transactions@),
                txt_lines(input@.subrange(pos as int, input@.len() as int), idx as nat, m),
            ),
        decreases input.len() - pos,
    {
        let (ce, next) = find_line(input, pos);
        let line_bytes = slice_subrange(input, pos, ce);
        let lv = match decode_utf8_chars(line_bytes) {
            None => return Err(ParseError::Io(IoErrorKind::InvalidData)),
            Some(lv) => lv,
        };
        let ghost rest = input@.subrange(next as int, input@.len() as int);
        let (a, b) = trim_range(&lv, 0, lv.len());
        assert(lv@.subrange(0, lv@.len() as int) =~= lv@);
        if lv.len() > 0 && lv[0] == '#' {
        } else if a == b && any {
            match build(&slots, Ghost(m)) {
                Err(e) => return Err(e),
                Ok(tx) => {
                    let ghost before = views(transactions@);
                    transactions.push(tx);
                    assert(views(transactions@) =~= before + seq![tx@]);
                    proof {
                        match txt_lines(rest, (idx + 1) as nat, Map::empty()) {
                            Ok(t) => {
                                assert(before + (seq![tx@] + t) =~= views(transactions@) + t);
                            },
                            Err(e) => {},
                        }
                    }
                },
            }
            slots = empty_slots();
            any = false;
            proof {
                m = Map::empty();
            }
        } else {
            let colon = find_char(&lv, 0, lv.len(), ':');
            proof {
                lemma_count_until(lv@, ':');
            }
            if colon < lv.len() {
                let Ghost(m2) = record_field(&mut slots, &lv, colon, idx + 1, Ghost(m), Ghost(any));
                any = true;
                proof {
                    m = m2;
                }
            }
        }
        pos = next;
        idx = idx + 1;
    }
    assert(input@.subrange(pos as int, input@.len() as int) =~= Seq::<u8>::empty());
    if any {
        match build(&slots, Ghost(m)) {
            Err(e) => return Err(e),
            Ok(tx) => {
                let ghost before = views(transactions@);
                transactions.push(tx);
                assert(views(transactions@) =~= before + seq![tx@]);
            },
        }
    } else {
        assert(views(transactions@) + Seq::<TransactionView>::empty() =~= views(transactions@));
    }
    Ok(transactions)
}

// ---------------------------------------------------------------------------
// Writing
// ---------------------------------------------------------------------------

/// Appends `KEY: ` for field `k`.
fn push_key(out: &mut String, k: usize)
    requires
        k < 8,
    ensures
        final(out)@ == old(out)@ + field_name(k as int) + seq![':', ' '],
{
    push_field_name(out, k);
    push_char(out, ':');
    push_char(out, ' ');
    assert(out@ =~= old(out)@ + field_name(k as int) + seq![':', ' ']);
}

/// Appends the line `KEY: n` for field `k`.
fn push_u64_entry(out: &mut String, k: usize, n: u64)
    requires
        k < 8,
    ensures
        final(out)@ == old(out)@ + txt_entry(k as int, decimal(n as nat)),
{
    push_key(out, k);
    push_decimal(out, n);
    push_char(out, '\n');
    assert(out@ =~= old(out)@ + txt_entry(k as int, decimal(n as nat)));
}

/// Appends the line `KEY: value` for field `k`.
fn push_str_entry(out: &mut String, k: usize, value: &str)
    requires
        k < 8,
    ensures
        final(out)@ == old(out)@ + txt_entry(k as int, value@),
{
    push_key(out, k);
    out.append(value);
    push_char(out, '\n');
    assert(out@ =~= old(out)@ + txt_entry(k as int, value@));
}

/// Appends the block of `t`.
#[verifier::rlimit(30)]
fn push_block(out: &mut String, t: &Transaction)
    ensures
        final(out)@ == old(out)@ + txt_block(t@),
{
    let ghost o = out@;
    push_u64_entry(out, TX_ID, t.tx_id);
    push_key(out, TX_TYPE);
    push_tx_type(out, t.tx_type);
    push_char(out, '\n');
    assert(out@ =~= o + txt_entry(0, decimal(t.tx_id as nat)) + txt_entry(1, tx_type_text(t.tx_type)));
    let ghost o1 = out@;
    push_u64_entry(out, FROM_USER_ID, t.from_user_id);
    push_u64_entry(out, TO_USER_ID, t.to_user_id);
    push_u64_entry(out, AMOUNT, t.amount);
    push_u64_entry(out, TIMESTAMP, t.timestamp);
    assert(out@ =~= o1 + txt_entry(2, decimal(t.from_user_id as nat)) + txt_entry(
        3,
        decimal(t.to_user_id as nat),
    ) + txt_entry(4, decimal(t.amount as nat)) + txt_entry(5, decimal(t.timestamp as nat)));
    let ghost o2 = out@;
    push_key(out, STATUS);
    push_status(out, t.status);
    push_char(out, '\n');
    assert(out@ =~= o2 + txt_entry(6, status_text(t.status)));
    push_str_entry(out, DESCRIPTION, t.description.as_str());
    push_char(out, '\n');
    assert(out@ =~= old(out)@ + txt_block(t@));
}

/// Writes transactions in the text format: a block of `KEY: VALUE` lines each,
/// closed by a blank line.
pub fn write(transactions: Vec<Transaction>) -> (s: String)
    ensures
        s@ == txt_text(views(transactions@)),
{
    let mut out = String::new();
    let mut i: usize = 0;
    while i < transactions.len()
        invariant
            i <= transactions@.len(),
            out@ == txt_text(views(transactions@).take(i as int)),
        decreases transactions.len() - i,
    {
        push_block(&mut out, &transactions[i]);
        proof {
            let vs = views(transactions@);
            lemma_txt_text_push(vs.take(i as int), vs[i as int]);
            assert(vs.take(i as int).push(vs[i as int]) =~= vs.take(i + 1));
        }
        i = i + 1;
    }
    assert(views(transactions@).take(i as int) =~= views(transactions@));
    out
}

} // verus!

verus! {

// ---------------------------------------------------------------------------
// Writing then reading gives the transactions back
// ---------------------------------------------------------------------------

/// A transaction that the text format reads back as it was written: its
/// description stays on one line and neither starts nor ends with white space,
/// which reading trims.
pub open spec fn txt_keeps(t: TransactionView) -> bool {
    &&& forall|i: int| 0 <= i < t.description.len() ==> t.description[i] != '\n'
    &&& t.description.len() > 0 ==> !is_whitespace(t.description[0]) && !is_whitespace(
        t.description.last(),
    )
}

/// A value that the text format reads back as written.
spec fn clean_value(v: Seq<char>) -> bool {
    &&& forall|i: int| 0 <= i < v.len() ==> v[i] != '\n'
    &&& v.len() > 0 ==> !is_whitespace(v[0]) && !is_whitespace(v.last())
}

proof fn lemma_field_name_shape(k: int)
    requires
        0 <= k < 8,
    ensures
        field_name(k).len() > 0,
        !is_whitespace(field_name(k)[0]),
        !is_whitespace(field_name(k).last()),
        field_name(k)[0] != '#',
        forall|i: int| 0 <= i < field_name(k).len() ==> field_name(k)[i] != ':' && field_name(k)[i]
            != '\n',
{
}

/// One `KEY: VALUE` line records the value under the key.
proof fn lemma_txt_entry(k: int, v: Seq<char>, rest: Seq<u8>, idx: nat, m: Fields)
    requires
        0 <= k < 8,
        clean_value(v),
    ensures
        txt_lines(encode_utf8(txt_entry(k, v)) + rest, idx, m) == txt_lines(
            rest,
            idx + 1,
            m.insert(field_name(k), (v, idx + 1)),
        ),
{
    let name = field_name(k);
    lemma_field_name_shape(k);
    let line = name + seq![':', ' '] + v;
    assert(txt_entry(k, v) == line + seq!['\n']);
    lemma_encode_concat(line, seq!['\n']);
    lemma_encode_newline();
    let el = encode_utf8(line);
    let s = encode_utf8(txt_entry(k, v)) + rest;
    assert(s =~= el + seq![10u8] + rest);
    assert forall|i: int| 0 <= i < line.len() implies line[i] != '\n' by {
        if i >= name.len() + 2 {
            assert(line[i] == v[i - name.len() - 2]);
        }
    }
    lemma_encode_avoids(line, '\n');
    lemma_line_len_at(s, el.len() as int);
    assert(s.take(el.len() as int) =~= el);
    assert(s.skip(el.len() as int + 1) =~= rest);
    if v.len() > 0 {
        assert(line.last() == v.last());
    } else {
        assert(line.last() == ' ');
    }
    lemma_encode_last(line, '\r');
    vstd::utf8::encode_utf8_valid_utf8(line);
    vstd::utf8::encode_utf8_decode_utf8(line);
    assert(line[0] == name[0]);
    lemma_trim_keeps_first(line);
    lemma_count_until_at(line, ':', name.len() as int);
    assert(line.take(name.len() as int) =~= name);
    assert(line.skip(name.len() as int + 1) =~= seq![' '] + v);
    lemma_trim_fixed(name);
    lemma_trim_blank_first(v);
    if v.len() > 0 {
        lemma_trim_fixed(v);
    }
}

proof fn lemma_decimal_clean(n: u64)
    ensures
        clean_value(decimal(n as nat)),
        parse_u64(decimal(n as nat)) == Some(n),
{
    lemma_parse_decimal(n);
    lemma_decimal_digits(n as nat);
    let d = decimal(n as nat);
    assert forall|i: int| 0 <= i < d.len() implies d[i] != '\n' by {
        assert(is_digit(d[i]));
    }
    assert(is_digit(d[0]));
    assert(is_digit(d[d.len() - 1]));
}

proof fn lemma_txt_record_roundtrip(t: TransactionView, idx: nat)
    ensures
        txt_record(
            Map::<Seq<char>, (Seq<char>, nat)>::empty().insert(
                field_name(0),
                (decimal(t.tx_id as nat), idx + 1),
            ).insert(field_name(1), (tx_type_text(t.tx_type), idx + 2)).insert(
                field_name(2),
                (decimal(t.from_user_id as nat), idx + 3),
            ).insert(field_name(3), (decimal(t.to_user_id as nat), idx + 4)).insert(
                field_name(4),
                (decimal(t.amount as nat), idx + 5),
            ).insert(field_name(5), (decimal(t.timestamp as nat), idx + 6)).insert(
                field_name(6),
                (status_text(t.status), idx + 7),
            ).insert(field_name(7), (t.description, idx + 8)),
        ) == Ok::<TransactionView, ParseErrorView>(t),
{
    assert forall|i: int, j: int| 0 <= i < 8 && 0 <= j < 8 && i != j implies field_name(i)
        != field_name(j) by {
        lemma_field_names_distinct(i, j);
    }
    lemma_decimal_clean(t.tx_id);
    lemma_decimal_clean(t.from_user_id);
    lemma_decimal_clean(t.to_user_id);
    lemma_decimal_clean(t.amount);
    lemma_decimal_clean(t.timestamp);
    lemma_parse_tx_type_text(t.tx_type);
    lemma_parse_status_text(t.status);
}

/// The bytes of a transaction's block, entry by entry, then the blank line.
proof fn lemma_txt_block_bytes(t: TransactionView, rest: Seq<u8>)
    ensures
        encode_utf8(txt_block(t)) + rest == encode_utf8(txt_entry(0, decimal(t.tx_id as nat)))
            + (encode_utf8(txt_entry(1, tx_type_text(t.tx_type))) + (encode_utf8(
            txt_entry(2, decimal(t.from_user_id as nat)),
        ) + (encode_utf8(txt_entry(3, decimal(t.to_user_id as nat))) + (encode_utf8(
            txt_entry(4, decimal(t.amount as nat)),
        ) + (encode_utf8(txt_entry(5, decimal(t.timestamp as nat))) + (encode_utf8(
            txt_entry(6, status_text(t.status)),
        ) + (encode_utf8(txt_entry(7, t.description)) + (seq![10u8] + rest)))))))),
{
    let e0 = txt_entry(0, decimal(t.tx_id as nat));
    let e1 = txt_entry(1, tx_type_text(t.tx_type));
    let e2 = txt_entry(2, decimal(t.from_user_id as nat));
    let e3 = txt_entry(3, decimal(t.to_user_id as nat));
    let e4 = txt_entry(4, decimal(t.amount as nat));
    let e5 = txt_entry(5, decimal(t.timestamp as nat));
    let e6 = txt_entry(6, status_text(t.status));
    let e7 = txt_entry(7, t.description);
    lemma_encode_concat(e0, e1);
    lemma_encode_concat(e0 + e1, e2);
    lemma_encode_concat(e0 + e1 + e2, e3);
    lemma_encode_concat(e0 + e1 + e2 + e3, e4);
    lemma_encode_concat(e0 + e1 + e2 + e3 + e4, e5);
    lemma_encode_concat(e0 + e1 + e2 + e3 + e4 + e5, e6);
    lemma_encode_concat(e0 + e1 + e2 + e3 + e4 + e5 + e6, e7);
    lemma_encode_concat(e0 + e1 + e2 + e3 + e4 + e5 + e6 + e7, seq!['\n']);
    lemma_encode_newline();
    assert(txt_block(t) == e0 + e1 + e2 + e3 + e4 + e5 + e6 + e7 + seq!['\n']);
    assert(encode_utf8(txt_block(t)) + rest =~= encode_utf8(e0) + (encode_utf8(e1) + (encode_utf8(
        e2,
    ) + (encode_utf8(e3) + (encode_utf8(e4) + (encode_utf8(e5) + (encode_utf8(e6) + (encode_utf8(
        e7,
    ) + (seq![10u8] + rest)))))))));
}

/// The lines of a transaction's block give the transaction.
#[verifier::rlimit(60)]
#[verifier::spinoff_prover]
proof fn lemma_txt_block(t: TransactionView, rest: Seq<u8>, idx: nat)
    requires
        txt_keeps(t),
    ensures
        txt_lines(encode_utf8(txt_block(t)) + rest, idx, Map::empty()) == prepend(
            seq![t],
            txt_lines(rest, idx + 9, Map::empty()),
        ),
{
    let v0 = decimal(t.tx_id as nat);
    let v1 = tx_type_text(t.tx_type);
    let v2 = decimal(t.from_user_id as nat);
    let v3 = decimal(t.to_user_id as nat);
    let v4 = decimal(t.amount as nat);
    let v5 = decimal(t.timestamp as nat);
    let v6 = status_text(t.status);
    let v7 = t.description;
    lemma_decimal_clean(t.tx_id);
    lemma_decimal_clean(t.from_user_id);
    lemma_decimal_clean(t.to_user_id);
    lemma_decimal_clean(t.amount);
    lemma_decimal_clean(t.timestamp);
    assert(clean_value(v1));
    assert(clean_value(v6));
    let e0 = txt_entry(0, v0);
    let e1 = txt_entry(1, v1);
    let e2 = txt_entry(2, v2);
    let e3 = txt_entry(3, v3);
    let e4 = txt_entry(4, v4);
    let e5 = txt_entry(5, v5);
    let e6 = txt_entry(6, v6);
    let e7 = txt_entry(7, v7);
    let s8 = seq![10u8] + rest;
    let s7 = encode_utf8(e7) + s8;
    let s6 = encode_utf8(e6) + s7;
    let s5 = encode_utf8(e5) + s6;
    let s4 = encode_utf8(e4) + s5;
    let s3 = encode_utf8(e3) + s4;
    let s2 = encode_utf8(e2) + s3;
    let s1 = encode_utf8(e1) + s2;
    let s0 = encode_utf8(e0) + s1;
    lemma_txt_block_bytes(t, rest);
    assert(encode_utf8(txt_block(t)) + rest == s0);
    let m0 = Map::<Seq<char>, (Seq<char>, nat)>::empty();
    let m1 = m0.insert(field_name(0), (v0, idx + 1));
    let m2 = m1.insert(field_name(1), (v1, idx + 2));
    let m3 = m2.insert(field_name(2), (v2, idx + 3));
    let m4 = m3.insert(field_name(3), (v3, idx + 4));
    let m5 = m4.insert(field_name(4), (v4, idx + 5));
    let m6 = m5.insert(field_name(5), (v5, idx + 6));
    let m7 = m6.insert(field_name(6), (v6, idx + 7));
    let m8 = m7.insert(field_name(7), (v7, idx + 8));
    lemma_txt_entry(0, v0, s1, idx, m0);
    lemma_txt_entry(1, v1, s2, idx + 1, m1);
    lemma_txt_entry(2, v2, s3, idx + 2, m2);
    lemma_txt_entry(3, v3, s4, idx + 3, m3);
    lemma_txt_entry(4, v4, s5, idx + 4, m4);
    lemma_txt_entry(5, v5, s6, idx + 5, m5);
    lemma_txt_entry(6, v6, s7, idx + 6, m6);
    lemma_txt_entry(7, v7, s8, idx + 7, m7);
    lemma_txt_record_roundtrip(t, idx);
    assert(m8.contains_key(field_name(7)));
    assert(!no_fields(m8)) by {
        assert(m8.dom().contains(field_name(7)));
    }
    lemma_line_len_at(s8, 0);
    assert(s8.take(0) =~= Seq::<u8>::empty());
    assert(s8.skip(1) =~= rest);
    assert(decode_utf8(Seq::<u8>::empty()) =~= Seq::<char>::empty());
}

proof fn lemma_txt_lines_roundtrip(txs: Seq<TransactionView>, idx: nat)
    requires
        forall|i: int| 0 <= i < txs.len() ==> txt_keeps(#[trigger] txs[i]),
    ensures
        txt_lines(encode_utf8(txt_text(txs)), idx, Map::empty()) == Ok::<
            Seq<TransactionView>,
            ParseErrorView,
        >(txs),
    decreases txs.len(),
{
    if txs.len() == 0 {
        assert(encode_utf8(txt_text(txs)) =~= Seq::<u8>::empty());
        assert(no_fields(Map::<Seq<char>, (Seq<char>, nat)>::empty())) by {
            assert(Map::<Seq<char>, (Seq<char>, nat)>::empty().dom() =~= Set::<Seq<char>>::empty());
        }
        assert(txs =~= Seq::<TransactionView>::empty());
    } else {
        let t = txs[0];
        let rest = txs.drop_first();
        assert(txt_keeps(t));
        assert forall|i: int| 0 <= i < rest.len() implies txt_keeps(#[trigger] rest[i]) by {
            assert(rest[i] == txs[i + 1]);
        }
        lemma_txt_lines_roundtrip(rest, idx + 9);
        lemma_encode_concat(txt_block(t), txt_text(rest));
        lemma_txt_block(t, encode_utf8(txt_text(rest)), idx);
        assert(seq![t] + rest =~= txs);
    }
}

/// Writing transactions in the text format and reading the text back gives the
/// same transactions, when each description stays on one line and neither
/// starts nor ends with white space.
pub proof fn lemma_txt_roundtrip(txs: Seq<TransactionView>)
    requires
        forall|i: int| 0 <= i < txs.len() ==> txt_keeps(#[trigger] txs[i]),
    ensures
        txt_read(encode_utf8(txt_text(txs))) == Ok::<Seq<TransactionView>, ParseErrorView>(txs),
{
    lemma_txt_lines_roundtrip(txs, 0);
}

} // verus!

verus! {

// ---------------------------------------------------------------------------
// Fields may come in any order
// ---------------------------------------------------------------------------

/// Two records with the same keys and the same values; the lines that the
/// values stood on may differ.
pub open spec fn same_values(m1: Fields, m2: Fields) -> bool {
    &&& m1.dom() == m2.dom()
    &&& forall|k: Seq<char>| #[trigger] m1.contains_key(k) ==> m1[k].0 == m2[k].0
}

/// The key and value that a line sets, when it is a field line: valid UTF-8,
/// not a comment, and holding a colon.
pub open spec fn field_line(l: Seq<u8>) -> Option<(Seq<char>, Seq<char>)> {
    if !valid_utf8(l) {
        None
    } else {
        let c = decode_utf8(l);
        let k = count_until(c, ':') as int;
        if (c.len() > 0 && c[0] == '#') || k >= c.len() {
            None
        } else {
            Some((trim(c.take(k)), trim(c.skip(k + 1))))
        }
    }
}

/// The key that a field line sets.
pub open spec fn field_key(l: Seq<u8>) -> Seq<char> {
    match field_line(l) {
        Some(p) => p.0,
        None => Seq::empty(),
    }
}

/// The value that a field line sets.
pub open spec fn field_value(l: Seq<u8>) -> Seq<char> {
    match field_line(l) {
        Some(p) => p.1,
        None => Seq::empty(),
    }
}

/// The text of a field that a record has.
spec fn field_text(f: FieldText) -> Seq<char> {
    match f {
        Some(p) => p.0,
        None => Seq::empty(),
    }
}

proof fn lemma_same_values_record(m1: Fields, m2: Fields)
    requires
        same_values(m1, m2),
        txt_record(m1) is Ok,
    ensures
        txt_record(m2) == txt_record(m1),
{
    assert forall|k: int| 0 <= k < 8 implies (txt_field(m1, k) is Some <==> txt_field(m2, k) is Some)
        && field_text(#[trigger] txt_field(m1, k)) == field_text(txt_field(m2, k)) by {
        assert(m1.dom().contains(field_name(k)) == m2.dom().contains(field_name(k)));
        if m1.contains_key(field_name(k)) {
            assert(m1[field_name(k)].0 == m2[field_name(k)].0);
        }
    }
    assert(m1.contains_key(field_name(7)) == m2.contains_key(field_name(7)));
    if m1.contains_key(field_name(7)) {
        assert(m1[field_name(7)].0 == m2[field_name(7)].0);
    }
    let f1 = txt_field(m1, 0);
    let f2 = txt_field(m2, 0);
    assert(u64_field(0, f1) is Ok ==> u64_field(0, f2) == u64_field(0, f1));
    assert(tx_type_field(1, txt_field(m1, 1)) is Ok ==> tx_type_field(1, txt_field(m2, 1)) == tx_type_field(1, txt_field(m1, 1)));
    assert(u64_field(2, txt_field(m1, 2)) is Ok ==> u64_field(2, txt_field(m2, 2)) == u64_field(2, txt_field(m1, 2)));
    assert(u64_field(3, txt_field(m1, 3)) is Ok ==> u64_field(3, txt_field(m2, 3)) == u64_field(3, txt_field(m1, 3)));
    assert(u64_field(4, txt_field(m1, 4)) is Ok ==> u64_field(4, txt_field(m2, 4)) == u64_field(4, txt_field(m1, 4)));
    assert(u64_field(5, txt_field(m1, 5)) is Ok ==> u64_field(5, txt_field(m2, 5)) == u64_field(5, txt_field(m1, 5)));
    assert(status_field(6, txt_field(m1, 6)) is Ok ==> status_field(6, txt_field(m2, 6)) == status_field(6, txt_field(m1, 6)));
}

/// Reading the rest of the input with records that agree in their values gives
/// the same successful result, whatever line number reading starts from.
proof fn lemma_same_values_lines(s: Seq<u8>, i: nat, m1: Fields, j: nat, m2: Fields)
    requires
        same_values(m1, m2),
        txt_lines(s, i, m1) is Ok,
    ensures
        txt_lines(s, j, m2) == txt_lines(s, i, m1),
    decreases s.len(),
{
    assert(no_fields(m1) == no_fields(m2));
    if s.len() == 0 {
        if !no_fields(m1) {
            lemma_same_values_record(m1, m2);
        }
    } else {
        lemma_next_line_shorter(s);
        let l = next_line(s).0;
        let rest = next_line(s).1;
        if valid_utf8(l) {
            let c = decode_utf8(l);
            if c.len() > 0 && c[0] == '#' {
                lemma_same_values_lines(rest, i + 1, m1, j + 1, m2);
            } else if trim(c).len() == 0 && !no_fields(m1) {
                lemma_same_values_record(m1, m2);
                lemma_same_values_lines(rest, i + 1, Map::empty(), j + 1, Map::empty());
            } else {
                let k = count_until(c, ':') as int;
                if k < c.len() {
                    let key = trim(c.take(k));
                    let v = trim(c.skip(k + 1));
                    let n1 = m1.insert(key, (v, i + 1));
                    let n2 = m2.insert(key, (v, j + 1));
                    assert(n1.dom() =~= n2.dom());
                    assert(same_values(n1, n2));
                    lemma_same_values_lines(rest, i + 1, n1, j + 1, n2);
                } else {
                    lemma_same_values_lines(rest, i + 1, m1, j + 1, m2);
                }
            }
        }
    }
}

/// One field line, then what follows it.
proof fn lemma_field_line_step(l: Seq<u8>, rest: Seq<u8>, idx: nat, m: Fields)
    requires
        forall|i: int| 0 <= i < l.len() ==> l[i] != crate::lines::LF,
        field_line(crate::lines::strip_cr(l)) is Some,
    ensures
        txt_lines(l + seq![crate::lines::LF] + rest, idx, m) == txt_lines(
            rest,
            idx + 1,
            m.insert(
                field_key(crate::lines::strip_cr(l)),
                (field_value(crate::lines::strip_cr(l)), idx + 1),
            ),
        ),
{
    let s = l + seq![crate::lines::LF] + rest;
    lemma_line_len_at(s, l.len() as int);
    assert(s.take(l.len() as int) =~= l);
    assert(s.skip(l.len() as int + 1) =~= rest);
    let c = decode_utf8(crate::lines::strip_cr(l));
    let k = count_until(c, ':') as int;
    lemma_count_until(c, ':');
    lemma_trim_keeps_char(c, k);
}

/// Within a record, two adjacent field lines that set different keys may be
/// swapped: where reading succeeds, it gives the same transactions either way.
pub proof fn lemma_txt_swap_fields(a: Seq<u8>, b: Seq<u8>, rest: Seq<u8>, idx: nat, m: Fields)
    requires
        forall|i: int| 0 <= i < a.len() ==> a[i] != crate::lines::LF,
        forall|i: int| 0 <= i < b.len() ==> b[i] != crate::lines::LF,
        field_line(crate::lines::strip_cr(a)) is Some,
        field_line(crate::lines::strip_cr(b)) is Some,
        field_key(crate::lines::strip_cr(a)) != field_key(crate::lines::strip_cr(b)),
        txt_lines(a + seq![crate::lines::LF] + b + seq![crate::lines::LF] + rest, idx, m) is Ok,
    ensures
        txt_lines(b + seq![crate::lines::LF] + a + seq![crate::lines::LF] + rest, idx, m)
            == txt_lines(a + seq![crate::lines::LF] + b + seq![crate::lines::LF] + rest, idx, m),
{
    let fa = (field_key(crate::lines::strip_cr(a)), field_value(crate::lines::strip_cr(a)));
    let fb = (field_key(crate::lines::strip_cr(b)), field_value(crate::lines::strip_cr(b)));
    let rb = b + seq![crate::lines::LF] + rest;
    let ra = a + seq![crate::lines::LF] + rest;
    assert(a + seq![crate::lines::LF] + b + seq![crate::lines::LF] + rest =~= a + seq![
        crate::lines::LF,
    ] + rb);
    assert(b + seq![crate::lines::LF] + a + seq![crate::lines::LF] + rest =~= b + seq![
        crate::lines::LF,
    ] + ra);
    lemma_field_line_step(a, rb, idx, m);
    lemma_field_line_step(b, rest, idx + 1, m.insert(fa.0, (fa.1, idx + 1)));
    lemma_field_line_step(b, ra, idx, m);
    lemma_field_line_step(a, rest, idx + 1, m.insert(fb.0, (fb.1, idx + 1)));
    let m1 = m.insert(fa.0, (fa.1, idx + 1)).insert(fb.0, (fb.1, idx + 2));
    let m2 = m.insert(fb.0, (fb.1, idx + 1)).insert(fa.0, (fa.1, idx + 2));
    assert(m1.dom() =~= m2.dom());
    assert(same_values(m1, m2));
    lemma_same_values_lines(rest, idx + 2, m1, idx + 2, m2);
}


// ---------------------------------------------------------------------------
// Comments and the order of field lines do not count
// ---------------------------------------------------------------------------

/// Replacing what follows complete lines `p` by text that reads the same from
/// every state of a record replaces nothing in what the whole reads to.
proof fn lemma_txt_prefix(p: Seq<u8>, x1: Seq<u8>, x2: Seq<u8>, idx: nat, m: Fields)
    requires
        p.len() == 0 || p.last() == LF,
        forall|i: nat, n: Fields|
            (#[trigger] txt_lines(x1, i, n) is Ok || txt_lines(x2, i, n) is Ok) ==> txt_lines(
                x2,
                i,
                n,
            ) == txt_lines(x1, i, n),
        txt_lines(p + x1, idx, m) is Ok || txt_lines(p + x2, idx, m) is Ok,
    ensures
        txt_lines(p + x2, idx, m) == txt_lines(p + x1, idx, m),
    decreases p.len(),
{
    if p.len() == 0 {
        assert(p + x1 =~= x1);
        assert(p + x2 =~= x2);
        assert(txt_lines(x1, idx, m) is Ok || txt_lines(x2, idx, m) is Ok);
    } else {
        lemma_lines_prefix(p, x1);
        lemma_lines_prefix(p, x2);
        lemma_next_line_shorter(p + x1);
        lemma_next_line_shorter(p + x2);
        lemma_line_len(p);
        let l = next_line(p).0;
        let p1 = next_line(p).1;
        if valid_utf8(l) {
            let c = decode_utf8(l);
            if c.len() > 0 && c[0] == '#' {
                lemma_txt_prefix(p1, x1, x2, idx + 1, m);
            } else if trim(c).len() == 0 && !no_fields(m) {
                if txt_record(m) is Ok {
                    lemma_txt_prefix(p1, x1, x2, idx + 1, Map::empty());
                }
            } else {
                let k = count_until(c, ':') as int;
                if k < c.len() {
                    lemma_txt_prefix(
                        p1,
                        x1,
                        x2,
                        idx + 1,
                        m.insert(trim(c.take(k)), (trim(c.skip(k + 1)), idx + 1)),
                    );
                } else {
                    lemma_txt_prefix(p1, x1, x2, idx + 1, m);
                }
            }
        }
    }
}

/// Whether `c` is a comment line: it has no line feed and, as `lines()` yields it
/// (one carriage return at its end dropped), it is UTF-8 that starts with `#`.
pub open spec fn comment_line(c: Seq<u8>) -> bool {
    &&& forall|j: int| 0 <= j < c.len() ==> c[j] != LF
    &&& valid_utf8(strip_cr(c))
    &&& decode_utf8(strip_cr(c)).len() > 0
    &&& decode_utf8(strip_cr(c))[0] == '#'
}

/// A comment line followed by text reads as the text does, from any state.
proof fn lemma_txt_comment_step(c: Seq<u8>, q: Seq<u8>)
    requires
        comment_line(c),
    ensures
        forall|i: nat, n: Fields|
            (#[trigger] txt_lines(q, i, n) is Ok || txt_lines(c + seq![LF] + q, i, n) is Ok)
                ==> txt_lines(c + seq![LF] + q, i, n) == txt_lines(q, i, n),
{
    let cq = c + seq![LF] + q;
    lemma_next_line_of(c, q);
    lemma_next_line_shorter(cq);
    assert forall|i: nat, n: Fields|
        (#[trigger] txt_lines(q, i, n) is Ok || txt_lines(cq, i, n) is Ok) implies txt_lines(
        cq,
        i,
        n,
    ) == txt_lines(q, i, n) by {
        assert(txt_lines(cq, i, n) == txt_lines(q, i + 1, n));
        if txt_lines(q, i, n) is Ok {
            lemma_same_values_lines(q, i, n, i + 1, n);
        } else {
            lemma_same_values_lines(q, i + 1, n, i, n);
        }
    }
}

/// A comment line inserted at the start of the text or after any line leaves a
/// successful read unchanged, and so does taking one out.
pub proof fn lemma_txt_comment_ignored(p: Seq<u8>, c: Seq<u8>, q: Seq<u8>)
    requires
        p.len() == 0 || p.last() == LF,
        comment_line(c),
        txt_read(p + q) is Ok || txt_read(p + c + seq![LF] + q) is Ok,
    ensures
        txt_read(p + c + seq![LF] + q) == txt_read(p + q),
{
    let cq = c + seq![LF] + q;
    assert(p + c + seq![LF] + q =~= p + cq);
    lemma_txt_comment_step(c, q);
    lemma_txt_prefix(p, q, cq, 0, Map::empty());
}

/// Two adjacent field lines that set different keys may be swapped anywhere in
/// the text: where either order reads, both read to the same transactions.
pub proof fn lemma_txt_swap_lines(p: Seq<u8>, a: Seq<u8>, b: Seq<u8>, r: Seq<u8>)
    requires
        p.len() == 0 || p.last() == LF,
        forall|i: int| 0 <= i < a.len() ==> a[i] != LF,
        forall|i: int| 0 <= i < b.len() ==> b[i] != LF,
        field_line(strip_cr(a)) is Some,
        field_line(strip_cr(b)) is Some,
        field_key(strip_cr(a)) != field_key(strip_cr(b)),
        txt_read(p + a + seq![LF] + b + seq![LF] + r) is Ok || txt_read(
            p + b + seq![LF] + a + seq![LF] + r,
        ) is Ok,
    ensures
        txt_read(p + b + seq![LF] + a + seq![LF] + r) == txt_read(
            p + a + seq![LF] + b + seq![LF] + r,
        ),
{
    let x1 = a + seq![LF] + b + seq![LF] + r;
    let x2 = b + seq![LF] + a + seq![LF] + r;
    assert(p + a + seq![LF] + b + seq![LF] + r =~= p + x1);
    assert(p + b + seq![LF] + a + seq![LF] + r =~= p + x2);
    assert forall|i: nat, n: Fields|
        (#[trigger] txt_lines(x1, i, n) is Ok || txt_lines(x2, i, n) is Ok) implies txt_lines(
        x2,
        i,
        n,
    ) == txt_lines(x1, i, n) by {
        if txt_lines(x1, i, n) is Ok {
            lemma_txt_swap_fields(a, b, r, i, n);
        } else {
            lemma_txt_swap_fields(b, a, r, i, n);
        }
    }
    lemma_txt_prefix(p, x1, x2, 0, Map::empty());
}


/// Whether `l` is a field line without a line feed.
pub open spec fn is_field_line(l: Seq<u8>) -> bool {
    &&& forall|j: int| 0 <= j < l.len() ==> l[j] != LF
    &&& field_line(strip_cr(l)) is Some
}

/// Whether `l` is a line that sets nothing inside a record: it has no line feed
/// and, as `lines()` yields it, it is UTF-8 and either a comment or a line that
/// is not blank and has no colon.
pub open spec fn inert_line(l: Seq<u8>) -> bool {
    &&& forall|j: int| 0 <= j < l.len() ==> l[j] != LF
    &&& valid_utf8(strip_cr(l))
    &&& {
        let c = decode_utf8(strip_cr(l));
        ||| c.len() > 0 && c[0] == '#'
        ||| trim(c).len() > 0 && count_until(c, ':') >= c.len()
    }
}

/// Whether `l` is a line that may stand inside a record: a field line or a line
/// that sets nothing.
pub open spec fn record_line(l: Seq<u8>) -> bool {
    is_field_line(l) || inert_line(l)
}

/// Whether each of `ls` may stand inside a record.
pub open spec fn record_lines(ls: Seq<Seq<u8>>) -> bool {
    forall|i: int| 0 <= i < ls.len() ==> record_line(#[trigger] ls[i])
}

/// Whether no two field lines of `ls` set the same key.
pub open spec fn distinct_keys(ls: Seq<Seq<u8>>) -> bool {
    forall|i: int, j: int|
        0 <= i < ls.len() && 0 <= j < ls.len() && i != j && is_field_line(#[trigger] ls[i])
            && is_field_line(#[trigger] ls[j]) ==> field_key(strip_cr(ls[i])) != field_key(
            strip_cr(ls[j]),
        )
}

/// The fields of a record after reading lines `ls`, the first of them on line
/// `idx + 1`, into fields `m`.
spec fn apply_lines(ls: Seq<Seq<u8>>, idx: nat, m: Fields) -> Fields
    decreases ls.len(),
{
    if ls.len() == 0 {
        m
    } else {
        apply_lines(
            ls.drop_first(),
            idx + 1,
            if is_field_line(ls[0]) {
                m.insert(field_key(strip_cr(ls[0])), (field_value(strip_cr(ls[0])), idx + 1))
            } else {
                m
            },
        )
    }
}

/// Whether a field line of `ls` sets key `k`.
spec fn sets_key(ls: Seq<Seq<u8>>, k: Seq<char>) -> bool {
    exists|i: int|
        0 <= i < ls.len() && is_field_line(#[trigger] ls[i]) && field_key(strip_cr(ls[i])) == k
}

/// A line that sets nothing, then what follows it.
proof fn lemma_inert_line_step(l: Seq<u8>, rest: Seq<u8>, idx: nat, m: Fields)
    requires
        inert_line(l),
    ensures
        txt_lines(l + seq![LF] + rest, idx, m) == txt_lines(rest, idx + 1, m),
{
    lemma_next_line_of(l, rest);
    lemma_next_line_shorter(l + seq![LF] + rest);
}

/// Reading lines of a record goes on with their fields added.
proof fn lemma_read_record_lines(ls: Seq<Seq<u8>>, r: Seq<u8>, idx: nat, m: Fields)
    requires
        record_lines(ls),
    ensures
        txt_lines(join_lines(ls) + r, idx, m) == txt_lines(
            r,
            idx + ls.len(),
            apply_lines(ls, idx, m),
        ),
    decreases ls.len(),
{
    if ls.len() == 0 {
        assert(join_lines(ls) + r =~= r);
    } else {
        let t = ls.drop_first();
        assert(record_line(ls[0]));
        assert forall|i: int| 0 <= i < t.len() implies record_line(#[trigger] t[i]) by {
            assert(t[i] == ls[i + 1]);
        }
        assert(join_lines(ls) + r =~= ls[0] + seq![LF] + (join_lines(t) + r));
        let m1 = if is_field_line(ls[0]) {
            lemma_field_line_step(ls[0], join_lines(t) + r, idx, m);
            m.insert(field_key(strip_cr(ls[0])), (field_value(strip_cr(ls[0])), idx + 1))
        } else {
            lemma_inert_line_step(ls[0], join_lines(t) + r, idx, m);
            m
        };
        lemma_read_record_lines(t, r, idx + 1, m1);
    }
}

/// The fields after lines with distinct keys: their keys are added, each with
/// the value of the line that sets it, and the other keys keep theirs.
proof fn lemma_apply_lines(ls: Seq<Seq<u8>>, idx: nat, m: Fields)
    requires
        distinct_keys(ls),
    ensures
        forall|k: Seq<char>|
            #[trigger] apply_lines(ls, idx, m).contains_key(k) <==> (m.contains_key(k) || sets_key(
                ls,
                k,
            )),
        forall|i: int|
            0 <= i < ls.len() && is_field_line(#[trigger] ls[i]) ==> apply_lines(ls, idx, m)[field_key(
                strip_cr(ls[i]),
            )].0 == field_value(strip_cr(ls[i])),
        forall|k: Seq<char>|
            !sets_key(ls, k) && m.contains_key(k) ==> #[trigger] apply_lines(ls, idx, m)[k] == m[k],
    decreases ls.len(),
{
    if ls.len() > 0 {
        let t = ls.drop_first();
        let f0 = is_field_line(ls[0]);
        let k0 = field_key(strip_cr(ls[0]));
        let m1 = if f0 {
            m.insert(k0, (field_value(strip_cr(ls[0])), idx + 1))
        } else {
            m
        };
        assert forall|i: int, j: int|
            0 <= i < t.len() && 0 <= j < t.len() && i != j && is_field_line(#[trigger] t[i])
                && is_field_line(#[trigger] t[j]) implies field_key(strip_cr(t[i])) != field_key(
            strip_cr(t[j]),
        ) by {
            assert(t[i] == ls[i + 1]);
            assert(t[j] == ls[j + 1]);
        }
        lemma_apply_lines(t, idx + 1, m1);
        let a = apply_lines(ls, idx, m);
        let at = apply_lines(t, idx + 1, m1);
        assert(a == at);
        assert forall|k: Seq<char>| sets_key(t, k) implies sets_key(ls, k) by {
            let i = choose|i: int|
                0 <= i < t.len() && is_field_line(#[trigger] t[i]) && field_key(strip_cr(t[i])) == k;
            assert(ls[i + 1] == t[i]);
        }
        assert forall|k: Seq<char>| sets_key(ls, k) implies ((f0 && k == k0) || sets_key(t, k)) by {
            let i = choose|i: int|
                0 <= i < ls.len() && is_field_line(#[trigger] ls[i]) && field_key(strip_cr(ls[i]))
                    == k;
            if i > 0 {
                assert(t[i - 1] == ls[i]);
            }
        }
        if f0 {
            assert(sets_key(ls, k0)) by {
                assert(is_field_line(ls[0]));
            }
            assert(!sets_key(t, k0)) by {
                if sets_key(t, k0) {
                    let i = choose|i: int|
                        0 <= i < t.len() && is_field_line(#[trigger] t[i]) && field_key(
                            strip_cr(t[i]),
                        ) == k0;
                    assert(t[i] == ls[i + 1]);
                    assert(is_field_line(ls[i + 1]) && is_field_line(ls[0]));
                }
            }
            assert(at[k0] == m1[k0]);
        }
        assert forall|k: Seq<char>| #[trigger] a.contains_key(k) <==> (m.contains_key(k) || sets_key(
            ls,
            k,
        )) by {
            assert(at.contains_key(k) <==> (m1.contains_key(k) || sets_key(t, k)));
        }
        assert forall|i: int| 0 <= i < ls.len() && is_field_line(#[trigger] ls[i]) implies a[field_key(
            strip_cr(ls[i]),
        )].0 == field_value(strip_cr(ls[i])) by {
            if i > 0 {
                assert(t[i - 1] == ls[i]);
                assert(at[field_key(strip_cr(t[i - 1]))].0 == field_value(strip_cr(t[i - 1])));
            }
        }
        assert forall|k: Seq<char>| !sets_key(ls, k) && m.contains_key(k) implies #[trigger] a[k]
            == m[k] by {
            assert(!sets_key(t, k));
            assert(!(f0 && k == k0));
            assert(at[k] == m1[k]);
        }
    }
}

/// Lines with distinct keys and the same field lines add the same values.
proof fn lemma_apply_same(ls1: Seq<Seq<u8>>, ls2: Seq<Seq<u8>>, idx: nat, m: Fields)
    requires
        distinct_keys(ls1),
        distinct_keys(ls2),
        forall|l: Seq<u8>| is_field_line(l) ==> (ls1.contains(l) <==> ls2.contains(l)),
    ensures
        same_values(apply_lines(ls1, idx, m), apply_lines(ls2, idx, m)),
{
    lemma_apply_lines(ls1, idx, m);
    lemma_apply_lines(ls2, idx, m);
    let a1 = apply_lines(ls1, idx, m);
    let a2 = apply_lines(ls2, idx, m);
    assert forall|k: Seq<char>| sets_key(ls1, k) <==> sets_key(ls2, k) by {
        if sets_key(ls1, k) {
            let i = choose|i: int|
                0 <= i < ls1.len() && is_field_line(#[trigger] ls1[i]) && field_key(strip_cr(ls1[i]))
                    == k;
            assert(ls1.contains(ls1[i]));
            let j = choose|j: int| 0 <= j < ls2.len() && ls2[j] == ls1[i];
            assert(is_field_line(ls2[j]) && field_key(strip_cr(ls2[j])) == k);
        }
        if sets_key(ls2, k) {
            let i = choose|i: int|
                0 <= i < ls2.len() && is_field_line(#[trigger] ls2[i]) && field_key(strip_cr(ls2[i]))
                    == k;
            assert(ls2.contains(ls2[i]));
            let j = choose|j: int| 0 <= j < ls1.len() && ls1[j] == ls2[i];
            assert(is_field_line(ls1[j]) && field_key(strip_cr(ls1[j])) == k);
        }
    }
    assert(a1.dom() =~= a2.dom());
    assert forall|k: Seq<char>| #[trigger] a1.contains_key(k) implies a1[k].0 == a2[k].0 by {
        if sets_key(ls1, k) {
            let i = choose|i: int|
                0 <= i < ls1.len() && is_field_line(#[trigger] ls1[i]) && field_key(strip_cr(ls1[i]))
                    == k;
            assert(ls1.contains(ls1[i]));
            let j = choose|j: int| 0 <= j < ls2.len() && ls2[j] == ls1[i];
            assert(is_field_line(ls2[j]));
            assert(a2[field_key(strip_cr(ls2[j]))].0 == field_value(strip_cr(ls2[j])));
        }
    }
}

/// Inside a record, the order of its lines and the comments among them do not
/// count: where `ls1` and `ls2` are lines that may stand in a record, no key is
/// set twice in either, and they hold the same field lines, in any order and
/// with any comments or lines without a colon around them, then where the text
/// reads with one of them, it reads to the same transactions with the other.
pub proof fn lemma_txt_record_lines(
    p: Seq<u8>,
    ls1: Seq<Seq<u8>>,
    ls2: Seq<Seq<u8>>,
    r: Seq<u8>,
)
    requires
        p.len() == 0 || p.last() == LF,
        record_lines(ls1),
        record_lines(ls2),
        distinct_keys(ls1),
        distinct_keys(ls2),
        forall|l: Seq<u8>| is_field_line(l) ==> (ls1.contains(l) <==> ls2.contains(l)),
        txt_read(p + join_lines(ls1) + r) is Ok || txt_read(p + join_lines(ls2) + r) is Ok,
    ensures
        txt_read(p + join_lines(ls2) + r) == txt_read(p + join_lines(ls1) + r),
{
    let x1 = join_lines(ls1) + r;
    let x2 = join_lines(ls2) + r;
    assert(p + join_lines(ls1) + r =~= p + x1);
    assert(p + join_lines(ls2) + r =~= p + x2);
    assert forall|i: nat, n: Fields|
        (#[trigger] txt_lines(x1, i, n) is Ok || txt_lines(x2, i, n) is Ok) implies txt_lines(
        x2,
        i,
        n,
    ) == txt_lines(x1, i, n) by {
        lemma_read_record_lines(ls1, r, i, n);
        lemma_read_record_lines(ls2, r, i, n);
        let a1 = apply_lines(ls1, i, n);
        let a2 = apply_lines(ls2, i, n);
        if txt_lines(x1, i, n) is Ok {
            lemma_apply_same(ls1, ls2, i, n);
            lemma_same_values_lines(r, i + ls1.len(), a1, i + ls2.len(), a2);
        } else {
            lemma_apply_same(ls2, ls1, i, n);
            lemma_same_values_lines(r, i + ls2.len(), a2, i + ls1.len(), a1);
        }
    }
    lemma_txt_prefix(p, x1, x2, 0, Map::empty());
}


// ---------------------------------------------------------------------------
// A line of white space parts records as an empty line does
// ---------------------------------------------------------------------------

/// Replacing what follows complete lines `p` by text that reads the same from
/// every state of a record replaces nothing in what the whole reads to.
proof fn lemma_txt_prefix_same(p: Seq<u8>, x1: Seq<u8>, x2: Seq<u8>, idx: nat, m: Fields)
    requires
        p.len() == 0 || p.last() == LF,
        forall|i: nat, n: Fields| #[trigger] txt_lines(x1, i, n) == txt_lines(x2, i, n),
    ensures
        txt_lines(p + x2, idx, m) == txt_lines(p + x1, idx, m),
    decreases p.len(),
{
    if p.len() == 0 {
        assert(p + x1 =~= x1);
        assert(p + x2 =~= x2);
        assert(txt_lines(x1, idx, m) == txt_lines(x2, idx, m));
    } else {
        lemma_lines_prefix(p, x1);
        lemma_lines_prefix(p, x2);
        lemma_next_line_shorter(p + x1);
        lemma_next_line_shorter(p + x2);
        lemma_line_len(p);
        let l = next_line(p).0;
        let p1 = next_line(p).1;
        if valid_utf8(l) {
            let c = decode_utf8(l);
            if c.len() > 0 && c[0] == '#' {
                lemma_txt_prefix_same(p1, x1, x2, idx + 1, m);
            } else if trim(c).len() == 0 && !no_fields(m) {
                lemma_txt_prefix_same(p1, x1, x2, idx + 1, Map::empty());
            } else {
                let k = count_until(c, ':') as int;
                if k < c.len() {
                    lemma_txt_prefix_same(
                        p1,
                        x1,
                        x2,
                        idx + 1,
                        m.insert(trim(c.take(k)), (trim(c.skip(k + 1)), idx + 1)),
                    );
                } else {
                    lemma_txt_prefix_same(p1, x1, x2, idx + 1, m);
                }
            }
        }
    }
}

/// A line of white space reads as an empty line does, whatever has been read
/// before it: after fields it ends their record, and before any it is skipped.
pub proof fn lemma_txt_blank_line_as_empty(w: Seq<u8>, q: Seq<u8>, idx: nat, m: Fields)
    requires
        blank_line(w),
    ensures
        txt_lines(w + seq![LF] + q, idx, m) == txt_lines(seq![LF] + q, idx, m),
{
    let e = Seq::<u8>::empty();
    assert(e + seq![LF] + q =~= seq![LF] + q);
    lemma_next_line_of(w, q);
    lemma_next_line_of(e, q);
    lemma_next_line_shorter(w + seq![LF] + q);
    lemma_next_line_shorter(seq![LF] + q);
    assert(strip_cr(e) =~= e);
    assert(decode_utf8(e) =~= Seq::<char>::empty());
    let c = decode_utf8(strip_cr(w));
    if c.len() > 0 && c[0] == '#' {
        lemma_trim_keeps_char(c, 0);
    }
    lemma_count_until(c, ':');
    if count_until(c, ':') < c.len() {
        lemma_trim_keeps_char(c, count_until(c, ':') as int);
    }
    lemma_count_until(Seq::<char>::empty(), ':');
}

/// In the text format a line of white space parts records as an empty line
/// does: putting one in place of an empty line, anywhere in the text, gives
/// the same result.
pub proof fn lemma_txt_blank_line_parts_records(p: Seq<u8>, w: Seq<u8>, q: Seq<u8>)
    requires
        p.len() == 0 || p.last() == LF,
        blank_line(w),
    ensures
        txt_read(p + w + seq![LF] + q) == txt_read(p + seq![LF] + q),
{
    let x1 = seq![LF] + q;
    let x2 = w + seq![LF] + q;
    assert(p + w + seq![LF] + q =~= p + x2);
    assert(p + seq![LF] + q =~= p + x1);
    assert forall|i: nat, n: Fields| #[trigger] txt_lines(x1, i, n) == txt_lines(x2, i, n) by {
        lemma_txt_blank_line_as_empty(w, q, i, n);
    }
    lemma_txt_prefix_same(p, x1, x2, 0, Map::empty());
}


/// Where two field lines of a record set the same key, the earlier one does not
/// count: the value that stands is the later one's.
pub proof fn lemma_txt_later_value_wins(
    a: Seq<u8>,
    b: Seq<u8>,
    r: Seq<u8>,
    idx: nat,
    m: Fields,
)
    requires
        is_field_line(a),
        is_field_line(b),
        field_key(strip_cr(a)) == field_key(strip_cr(b)),
        txt_lines(a + seq![LF] + b + seq![LF] + r, idx, m) is Ok || txt_lines(
            b + seq![LF] + r,
            idx,
            m,
        ) is Ok,
    ensures
        txt_lines(a + seq![LF] + b + seq![LF] + r, idx, m) == txt_lines(b + seq![LF] + r, idx, m),
{
    let k = field_key(strip_cr(a));
    let va = field_value(strip_cr(a));
    let vb = field_value(strip_cr(b));
    let rb = b + seq![LF] + r;
    assert(a + seq![LF] + b + seq![LF] + r =~= a + seq![LF] + rb);
    lemma_field_line_step(a, rb, idx, m);
    lemma_field_line_step(b, r, idx + 1, m.insert(k, (va, idx + 1)));
    lemma_field_line_step(b, r, idx, m);
    let m1 = m.insert(k, (va, idx + 1)).insert(k, (vb, idx + 2));
    let m2 = m.insert(k, (vb, idx + 1));
    assert(m1.dom() =~= m2.dom());
    assert(same_values(m1, m2));
    assert(same_values(m2, m1));
    if txt_lines(r, idx + 2, m1) is Ok {
        lemma_same_values_lines(r, idx + 2, m1, idx + 1, m2);
    } else {
        lemma_same_values_lines(r, idx + 1, m2, idx + 2, m1);
    }
}

} // verus!
