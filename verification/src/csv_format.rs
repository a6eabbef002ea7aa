//! The CSV format: a header line, then one transaction per line.
use vstd::prelude::*;
use vstd::slice::slice_subrange;
use vstd::string::StringExecFns;
use vstd::utf8::{decode_utf8, encode_utf8, valid_utf8};

use crate::error::{IoErrorKind, ParseError, ParseErrorView, outcome};
use crate::fields::{
    AMOUNT, FROM_USER_ID, FieldText, STATUS, TIMESTAMP, TO_USER_ID, TX_ID, TX_TYPE, assemble,
    field_name, lemma_parse_status_text, lemma_parse_tx_type_text, missing_field_error,
    push_status, push_tx_type, read_status_field, read_tx_type_field, read_u64_field,
    parse_status, parse_tx_type, status_field, status_text, tx_type_field, tx_type_text,
    u64_field,
};
use crate::lines::{
    CR, LF, find_line, find_read_line, join_lines, lemma_line_len, lemma_line_len_at,
    lemma_lines_prefix, lemma_lines_prefix_within, lemma_next_line_of, lemma_next_line_shorter,
    line_len, next_line, read_line, strip_cr,
};
use crate::text::{
    all_digits, chars_of, count_until, decimal, decode_utf8_chars, find_char, is_digit,
    is_whitespace, lemma_count_until, lemma_count_until_at, lemma_decimal_digits,
    lemma_encode_avoids, lemma_encode_concat, lemma_encode_last, lemma_encode_newline,
    lemma_parse_decimal, lemma_push_ascii_ws, lemma_trim_fixed, parse_u64, push_char, push_decimal, push_range,
    range_is, string_of_range, trim, trim_range,
};
use crate::{Transaction, TransactionView, views};

verus! {

/// The header line: the field names joined by commas.
pub open spec fn csv_header() -> Seq<char> {
    field_name(0) + seq![','] + field_name(1) + seq![','] + field_name(2) + seq![','] + field_name(
        3,
    ) + seq![','] + field_name(4) + seq![','] + field_name(5) + seq![','] + field_name(6) + seq![
        ',',
    ] + field_name(7)
}

/// `s` cut at commas into at most `n` parts, as `str::splitn(n, ',')` cuts it:
/// the last part keeps the rest of the line.
pub open spec fn split_fields(s: Seq<char>, n: nat) -> Seq<Seq<char>>
    decreases n,
{
    if n <= 1 {
        seq![s]
    } else {
        let k = count_until(s, ',') as int;
        if k < s.len() {
            seq![s.take(k)] + split_fields(s.skip(k + 1), (n - 1) as nat)
        } else {
            seq![s]
        }
    }
}

/// Part `k` of a split line numbered `line`, if the line has that many parts.
pub open spec fn part(parts: Seq<Seq<char>>, k: int, line: nat) -> FieldText {
    if k < parts.len() {
        Some((parts[k], line))
    } else {
        None
    }
}

/// The transaction on a trimmed, non-empty line numbered `line`.
pub open spec fn csv_record(s: Seq<char>, line: nat) -> Result<TransactionView, ParseErrorView> {
    let parts = split_fields(s, 8);
    assemble(
        u64_field(0, part(parts, 0, line)),
        tx_type_field(1, part(parts, 1, line)),
        u64_field(2, part(parts, 2, line)),
        u64_field(3, part(parts, 3, line)),
        u64_field(4, part(parts, 4, line)),
        u64_field(5, part(parts, 5, line)),
        status_field(6, part(parts, 6, line)),
        if 7 < parts.len() {
            parts[7]
        } else {
            Seq::empty()
        },
    )
}

/// `r` with `pre` in front of its transactions.
pub open spec fn prepend(pre: Seq<TransactionView>, r: Result<Seq<TransactionView>, ParseErrorView>) -> Result<
    Seq<TransactionView>,
    ParseErrorView,
> {
    match r {
        Ok(t) => Ok(pre + t),
        Err(e) => Err(e),
    }
}

/// The transactions of the lines in `s`, the first of them being line `idx + 2`
/// of the input; blank lines are skipped.
pub open spec fn csv_rows(s: Seq<u8>, idx: nat) -> Result<Seq<TransactionView>, ParseErrorView>
    decreases s.len(),
{
    if s.len() == 0 {
        Ok(Seq::empty())
    } else {
        proof {
            lemma_next_line_shorter(s);
        }
        let l = next_line(s).0;
        let rest = next_line(s).1;
        if !valid_utf8(l) {
            Err(ParseErrorView::Io(IoErrorKind::InvalidData))
        } else {
            let t = trim(decode_utf8(l));
            if t.len() == 0 {
                csv_rows(rest, idx + 1)
            } else {
                match csv_record(t, idx + 2) {
                    Err(e) => Err(e),
                    Ok(tx) => prepend(seq![tx], csv_rows(rest, idx + 1)),
                }
            }
        }
    }
}

/// What reading CSV bytes gives: the first line must be the header (white space
/// around it aside), then every non-blank line is a transaction.
pub open spec fn csv_read(input: Seq<u8>) -> Result<Seq<TransactionView>, ParseErrorView> {
    let h = read_line(input).0;
    if !valid_utf8(h) {
        Err(ParseErrorView::Io(IoErrorKind::InvalidData))
    } else if trim(decode_utf8(h)) != csv_header() {
        Err(ParseErrorView::InvalidHeaders { expected: csv_header(), found: decode_utf8(h) })
    } else {
        csv_rows(read_line(input).1, 0)
    }
}

/// The line that a transaction is written as, without its line feed.
pub open spec fn csv_line(t: TransactionView) -> Seq<char> {
    decimal(t.tx_id as nat) + seq![','] + tx_type_text(t.tx_type) + seq![','] + decimal(
        t.from_user_id as nat,
    ) + seq![','] + decimal(t.to_user_id as nat) + seq![','] + decimal(t.amount as nat) + seq![
        ',',
    ] + decimal(t.timestamp as nat) + seq![','] + status_text(t.status) + seq![','] + t.description
}

/// The lines of `txs`, each followed by a line feed.
pub open spec fn csv_lines(txs: Seq<TransactionView>) -> Seq<char>
    decreases txs.len(),
{
    if txs.len() == 0 {
        Seq::empty()
    } else {
        csv_line(txs[0]) + seq!['\n'] + csv_lines(txs.drop_first())
    }
}

/// What writing transactions as CSV gives: the header line, then a line per transaction.
pub open spec fn csv_text(txs: Seq<TransactionView>) -> Seq<char> {
    csv_header() + seq!['\n'] + csv_lines(txs)
}

/// Adding a transaction at the end adds its line at the end.
pub proof fn lemma_csv_lines_push(txs: Seq<TransactionView>, t: TransactionView)
    ensures
        csv_lines(txs.push(t)) == csv_lines(txs) + csv_line(t) + seq!['\n'],
    decreases txs.len(),
{
    if txs.len() == 0 {
        assert(txs.push(t).drop_first() =~= Seq::<TransactionView>::empty());
        assert(csv_lines(Seq::<TransactionView>::empty()) == Seq::<char>::empty());
        assert(csv_lines(txs.push(t)) =~= csv_lines(txs) + csv_line(t) + seq!['\n']);
    } else {
        lemma_csv_lines_push(txs.drop_first(), t);
        assert(txs.push(t).drop_first() =~= txs.drop_first().push(t));
        assert(txs.push(t)[0] == txs[0]);
        assert(csv_lines(txs.push(t)) =~= csv_lines(txs) + csv_line(t) + seq!['\n']);
    }
}

// ---------------------------------------------------------------------------
// Reading
// ---------------------------------------------------------------------------

/// The header line's characters.
fn header_chars() -> (v: Vec<char>)
    ensures
        v@ == csv_header(),
{
    let s = "TX_ID,TX_TYPE,FROM_USER_ID,TO_USER_ID,AMOUNT,TIMESTAMP,STATUS,DESCRIPTION";
    proof {
        reveal_strlit("TX_ID,TX_TYPE,FROM_USER_ID,TO_USER_ID,AMOUNT,TIMESTAMP,STATUS,DESCRIPTION");
    }
    let v = chars_of(s);
    assert(v@ =~= csv_header());
    v
}

/// The bounds of the parts of `v[lo..hi]` cut as `split_fields(.., 8)` cuts it.
fn split_parts(v: &Vec<char>, lo: usize, hi: usize) -> (parts: Vec<(usize, usize)>)
    requires
        lo <= hi <= v@.len(),
    ensures
        parts@.len() == split_fields(v@.subrange(lo as int, hi as int), 8).len(),
        forall|i: int|
            0 <= i < parts@.len() ==> {
                &&& lo <= (#[trigger] parts@[i]).0 <= parts@[i].1 <= hi
                &&& v@.subrange(parts@[i].0 as int, parts@[i].1 as int) == split_fields(
                    v@.subrange(lo as int, hi as int),
                    8,
                )[i]
            },
{
    let ghost whole = split_fields(v@.subrange(lo as int, hi as int), 8);
    let mut parts: Vec<(usize, usize)> = Vec::new();
    let mut cur = lo;
    let mut k: usize = 0;
    loop
        invariant
            lo <= cur <= hi <= v@.len(),
            k < 8,
            parts@.len() == k,
            whole == split_fields(v@.subrange(lo as int, hi as int), 8),
            whole.len() == k + split_fields(v@.subrange(cur as int, hi as int), (8 - k) as nat).len(),
            forall|i: int|
                0 <= i < k ==> {
                    &&& lo <= (#[trigger] parts@[i]).0 <= parts@[i].1 <= hi
                    &&& v@.subrange(parts@[i].0 as int, parts@[i].1 as int) == whole[i]
                },
            forall|i: int|
                0 <= i < split_fields(v@.subrange(cur as int, hi as int), (8 - k) as nat).len()
                    ==> whole[k + i] == #[trigger] split_fields(
                    v@.subrange(cur as int, hi as int),
                    (8 - k) as nat,
                )[i],
        decreases 8 - k,
    {
        let ghost rest = v@.subrange(cur as int, hi as int);
        let ghost n = (8 - k) as nat;
        if k == 7 {
            assert(split_fields(rest, n) == seq![rest]);
            parts.push((cur, hi));
            assert(split_fields(rest, n)[0] == rest);
            assert(whole[k + 0] == split_fields(rest, n)[0]);
            return parts;
        }
        let j = find_char(v, cur, hi, ',');
        proof {
            lemma_count_until(rest, ',');
        }
        if j == hi {
            assert(split_fields(rest, n) == seq![rest]);
            parts.push((cur, hi));
            assert(split_fields(rest, n)[0] == rest);
            assert(whole[k + 0] == split_fields(rest, n)[0]);
            return parts;
        }
        let ghost kk = (j - cur) as int;
        assert(rest.take(kk) =~= v@.subrange(cur as int, j as int));
        assert(rest.skip(kk + 1) =~= v@.subrange(j + 1, hi as int));
        assert(split_fields(rest, n) == seq![rest.take(kk)] + split_fields(rest.skip(kk + 1), (n - 1) as nat));
        parts.push((cur, j));
        proof {
            let tail = split_fields(v@.subrange(j + 1, hi as int), (n - 1) as nat);
            assert forall|i: int| 0 <= i < tail.len() implies whole[k + 1 + i] == #[trigger] tail[i] by {
                assert(split_fields(rest, n)[i + 1] == tail[i]);
            }
            assert(whole[k as int] == split_fields(rest, n)[0]);
        }
        cur = j + 1;
        k = k + 1;
    }
}

/// The transaction on the trimmed, non-empty line `v[lo..hi]`, numbered `line`.
fn parse_record(v: &Vec<char>, lo: usize, hi: usize, line: usize) -> (r: Result<Transaction, ParseError>)
    requires
        lo <= hi <= v@.len(),
    ensures
        match r {
            Ok(t) => csv_record(v@.subrange(lo as int, hi as int), line as nat) == Ok::<TransactionView, ParseErrorView>(t@),
            Err(e) => csv_record(v@.subrange(lo as int, hi as int), line as nat) == Err::<TransactionView, ParseErrorView>(e@),
        },
{
    let ghost s = v@.subrange(lo as int, hi as int);
    let ghost ps = split_fields(s, 8);
    let parts = split_parts(v, lo, hi);
    let n = parts.len();
    assert(forall|k: int| 0 <= k < n ==> part(ps, k, line as nat) == Some((v@.subrange(parts@[k].0 as int, parts@[k].1 as int), line as nat)));
    assert(forall|k: int| n <= k ==> part(ps, k, line as nat) == None::<(Seq<char>, nat)>);
    let tx_id = if n > 0 {
        match read_u64_field(TX_ID, v, parts[0].0, parts[0].1, line) {
            Ok(x) => x,
            Err(e) => return Err(e),
        }
    } else {
        return Err(missing_field_error(TX_ID));
    };
    let tx_type = if n > 1 {
        match read_tx_type_field(TX_TYPE, v, parts[1].0, parts[1].1, line) {
            Ok(x) => x,
            Err(e) => return Err(e),
        }
    } else {
        return Err(missing_field_error(TX_TYPE));
    };
    let from_user_id = if n > 2 {
        match read_u64_field(FROM_USER_ID, v, parts[2].0, parts[2].1, line) {
            Ok(x) => x,
            Err(e) => return Err(e),
        }
    } else {
        return Err(missing_field_error(FROM_USER_ID));
    };
    let to_user_id = if n > 3 {
        match read_u64_field(TO_USER_ID, v, parts[3].0, parts[3].1, line) {
            Ok(x) => x,
            Err(e) => return Err(e),
        }
    } else {
        return Err(missing_field_error(TO_USER_ID));
    };
    let amount = if n > 4 {
        match read_u64_field(AMOUNT, v, parts[4].0, parts[4].1, line) {
            Ok(x) => x,
            Err(e) => return Err(e),
        }
    } else {
        return Err(missing_field_error(AMOUNT));
    };
    let timestamp = if n > 5 {
        match read_u64_field(TIMESTAMP, v, parts[5].0, parts[5].1, line) {
            Ok(x) => x,
            Err(e) => return Err(e),
        }
    } else {
        return Err(missing_field_error(TIMESTAMP));
    };
    let status = if n > 6 {
        match read_status_field(STATUS, v, parts[6].0, parts[6].1, line) {
            Ok(x) => x,
            Err(e) => return Err(e),
        }
    } else {
        return Err(missing_field_error(STATUS));
    };
    let description = if n > 7 {
        string_of_range(v, parts[7].0, parts[7].1)
    } else {
        String::new()
    };
    Ok(Transaction { tx_id, tx_type, from_user_id, to_user_id, amount, timestamp, status, description })
}

/// Reads transactions from CSV bytes.
pub fn read(input: &[u8]) -> (r: Result<Vec<Transaction>, ParseError>)
    ensures
        outcome(r) == csv_read(input@),
{
    let end = find_read_line(input);
    let header_line = slice_subrange(input, 0, end);
    let hv = match decode_utf8_chars(header_line) {
        None => return Err(ParseError::Io(IoErrorKind::InvalidData)),
        Some(hv) => hv,
    };
    let (a, b) = trim_range(&hv, 0, hv.len());
    let header = header_chars();
    assert(hv@.subrange(0, hv@.len() as int) =~= hv@);
    assert(header@.subrange(0, header@.len() as int) =~= header@);
    if !range_is(&hv, a, b, header.as_slice()) {
        return Err(
            ParseError::InvalidHeaders {
                expected: string_of_range(&header, 0, header.len()),
                found: string_of_range(&hv, 0, hv.len()),
            },
        );
    }
    if end == 0 {
        assert(header_line@ =~= Seq::<u8>::empty());
        assert(hv@.len() == 0);
    }
    let mut transactions: Vec<Transaction> = Vec::new();
    let mut pos = end;
    let mut idx: usize = 0;
    while pos < input.len()
        invariant
            1 <= end <= pos <= input@.len(),
            end + idx <= pos,
            csv_read(input@) == prepend(
                views(transactions@),
                csv_rows(input@.subrange(pos as int, input@.len() as int), idx as nat),
            ),
        decreases input.len() - pos,
    {
        let ghost s = input@.subrange(pos as int, input@.len() as int);
        let (ce, next) = find_line(input, pos);
        let line_bytes = slice_subrange(input, pos, ce);
        let lv = match decode_utf8_chars(line_bytes) {
            None => return Err(ParseError::Io(IoErrorKind::InvalidData)),
            Some(lv) => lv,
        };
        let (a, b) = trim_range(&lv, 0, lv.len());
        assert(lv@.subrange(0, lv@.len() as int) =~= lv@);
        if a < b {
            match parse_record(&lv, a, b, idx + 2) {
                Err(e) => return Err(e),
                Ok(tx) => {
                    let ghost before = views(transactions@);
                    transactions.push(tx);
                    assert(views(transactions@) =~= before + seq![tx@]);
                    proof {
                        let rest = csv_rows(input@.subrange(next as int, input@.len() as int), (idx + 1) as nat);
                        match rest {
                            Ok(t) => {
                                assert(before + (seq![tx@] + t) =~= views(transactions@) + t);
                            },
                            Err(e) => {},
                        }
                    }
                },
            }
        }
        pos = next;
        idx = idx + 1;
    }
    assert(input@.subrange(pos as int, input@.len() as int) =~= Seq::<u8>::empty());
    assert(views(transactions@) + Seq::<TransactionView>::empty() =~= views(transactions@));
    Ok(transactions)
}

// ---------------------------------------------------------------------------
// Writing
// ---------------------------------------------------------------------------

/// Appends the line of `t`, line feed included.
fn push_line(out: &mut String, t: &Transaction)
    ensures
        final(out)@ == old(out)@ + csv_line(t@) + seq!['\n'],
{
    push_decimal(out, t.tx_id);
    push_char(out, ',');
    push_tx_type(out, t.tx_type);
    push_char(out, ',');
    push_decimal(out, t.from_user_id);
    push_char(out, ',');
    push_decimal(out, t.to_user_id);
    push_char(out, ',');
    push_decimal(out, t.amount);
    push_char(out, ',');
    push_decimal(out, t.timestamp);
    push_char(out, ',');
    push_status(out, t.status);
    push_char(out, ',');
    out.append(t.description.as_str());
    push_char(out, '\n');
    assert(out@ =~= old(out)@ + csv_line(t@) + seq!['\n']);
}

/// Writes transactions as CSV text: the header line, then one line each.
pub fn write(transactions: Vec<Transaction>) -> (s: String)
    ensures
        s@ == csv_text(views(transactions@)),
{
    let mut out = String::new();
    let header = header_chars();
    push_range(&mut out, &header, 0, header.len());
    push_char(&mut out, '\n');
    assert(header@.subrange(0, header@.len() as int) =~= header@);
    let mut i: usize = 0;
    while i < transactions.len()
        invariant
            i <= transactions@.len(),
            out@ == csv_header() + seq!['\n'] + csv_lines(views(transactions@).take(i as int)),
        decreases transactions.len() - i,
    {
        push_line(&mut out, &transactions[i]);
        proof {
            let vs = views(transactions@);
            lemma_csv_lines_push(vs.take(i as int), vs[i as int]);
            assert(vs.take(i as int).push(vs[i as int]) =~= vs.take(i + 1));
        }
        i = i + 1;
    }
    assert(views(transactions@).take(i as int) =~= views(transactions@));
    out
}

} // verus!

verus! {

// ---------------------------------------------------------------------------
// Writing then reading gives the transactions back
// ---------------------------------------------------------------------------

/// A transaction that CSV reads back as it was written: its description stays
/// on one line and does not end with white space, which reading trims.
pub open spec fn csv_keeps(t: TransactionView) -> bool {
    &&& forall|i: int| 0 <= i < t.description.len() ==> t.description[i] != '\n'
    &&& t.description.len() > 0 ==> !is_whitespace(t.description.last())
}

proof fn lemma_digits_avoid(s: Seq<char>, c: char)
    requires
        all_digits(s),
        !is_digit(c),
    ensures
        forall|i: int| 0 <= i < s.len() ==> s[i] != c,
{
    assert forall|i: int| 0 <= i < s.len() implies s[i] != c by {
        assert(is_digit(s[i]));
    }
}

proof fn lemma_split_step(a: Seq<char>, rest: Seq<char>, n: nat)
    requires
        n > 1,
        forall|i: int| 0 <= i < a.len() ==> a[i] != ',',
    ensures
        split_fields(a + seq![','] + rest, n) == seq![a] + split_fields(rest, (n - 1) as nat),
{
    let s = a + seq![','] + rest;
    lemma_count_until_at(s, ',', a.len() as int);
    assert(s.take(a.len() as int) =~= a);
    assert(s.skip(a.len() as int + 1) =~= rest);
}

/// The decimal text of a number has no comma, no line feed, and neither starts
/// nor ends with white space.
proof fn lemma_decimal_shape(n: u64)
    ensures
        forall|i: int| 0 <= i < decimal(n as nat).len() ==> decimal(n as nat)[i] != ',' && decimal(n as nat)[i] != '\n',
        decimal(n as nat).len() > 0,
        !is_whitespace(decimal(n as nat)[0]),
        !is_whitespace(decimal(n as nat).last()),
        decimal(n as nat).last() != '\r',
        parse_u64(decimal(n as nat)) == Some(n),
{
    lemma_parse_decimal(n);
    lemma_decimal_digits(n as nat);
    let d = decimal(n as nat);
    lemma_digits_avoid(d, ',');
    lemma_digits_avoid(d, '\n');
    assert(is_digit(d[0]));
    assert(is_digit(d[d.len() - 1]));
}

/// A written CSV line holds, parted by commas in the order of the header, the
/// id, the type word, the two user ids, the amount, the timestamp, the status
/// word and the description.
#[verifier::rlimit(60)]
pub proof fn lemma_csv_line_parts(t: TransactionView)
    ensures
        split_fields(csv_line(t), 8) == seq![
            decimal(t.tx_id as nat),
            tx_type_text(t.tx_type),
            decimal(t.from_user_id as nat),
            decimal(t.to_user_id as nat),
            decimal(t.amount as nat),
            decimal(t.timestamp as nat),
            status_text(t.status),
            t.description,
        ],
{
    let a0 = decimal(t.tx_id as nat);
    let a1 = tx_type_text(t.tx_type);
    let a2 = decimal(t.from_user_id as nat);
    let a3 = decimal(t.to_user_id as nat);
    let a4 = decimal(t.amount as nat);
    let a5 = decimal(t.timestamp as nat);
    let a6 = status_text(t.status);
    let a7 = t.description;
    lemma_decimal_shape(t.tx_id);
    lemma_decimal_shape(t.from_user_id);
    lemma_decimal_shape(t.to_user_id);
    lemma_decimal_shape(t.amount);
    lemma_decimal_shape(t.timestamp);
    let r6 = a6 + seq![','] + a7;
    let r5 = a5 + seq![','] + r6;
    let r4 = a4 + seq![','] + r5;
    let r3 = a3 + seq![','] + r4;
    let r2 = a2 + seq![','] + r3;
    let r1 = a1 + seq![','] + r2;
    let r0 = a0 + seq![','] + r1;
    assert(csv_line(t) =~= r0);
    lemma_split_step(a0, r1, 8);
    lemma_split_step(a1, r2, 7);
    lemma_split_step(a2, r3, 6);
    lemma_split_step(a3, r4, 5);
    lemma_split_step(a4, r5, 4);
    lemma_split_step(a5, r6, 3);
    lemma_split_step(a6, a7, 2);
    assert(split_fields(r0, 8) =~= seq![a0, a1, a2, a3, a4, a5, a6, a7]);
}

proof fn lemma_csv_record_roundtrip(t: TransactionView, line: nat)
    ensures
        csv_record(csv_line(t), line) == Ok::<TransactionView, ParseErrorView>(t),
{
    lemma_csv_line_parts(t);
    lemma_decimal_shape(t.tx_id);
    lemma_decimal_shape(t.from_user_id);
    lemma_decimal_shape(t.to_user_id);
    lemma_decimal_shape(t.amount);
    lemma_decimal_shape(t.timestamp);
    lemma_parse_tx_type_text(t.tx_type);
    lemma_parse_status_text(t.status);
    let parts = split_fields(csv_line(t), 8);
    assert(parts.len() == 8);
    assert(part(parts, 0, line) == Some((decimal(t.tx_id as nat), line)));
    assert(part(parts, 7, line) == Some((t.description, line)));
}

/// What the line of a transaction looks like to the reader.
proof fn lemma_csv_line_shape(t: TransactionView)
    requires
        csv_keeps(t),
    ensures
        forall|i: int| 0 <= i < csv_line(t).len() ==> csv_line(t)[i] != '\n',
        csv_line(t).len() > 0,
        !is_whitespace(csv_line(t)[0]),
        !is_whitespace(csv_line(t).last()),
        csv_line(t).last() != '\r',
{
    lemma_decimal_shape(t.tx_id);
    lemma_decimal_shape(t.from_user_id);
    lemma_decimal_shape(t.to_user_id);
    lemma_decimal_shape(t.amount);
    lemma_decimal_shape(t.timestamp);
    let l = csv_line(t);
    let a0 = decimal(t.tx_id as nat);
    let head = l.take(l.len() - t.description.len());
    assert(l =~= head + t.description);
    assert(head[0] == a0[0]);
    assert(forall|i: int| 0 <= i < tx_type_text(t.tx_type).len() ==> tx_type_text(t.tx_type)[i] != '\n');
    assert(forall|i: int| 0 <= i < status_text(t.status).len() ==> status_text(t.status)[i] != '\n');
    assert forall|i: int| 0 <= i < l.len() implies l[i] != '\n' by {
        if i >= head.len() {
            assert(l[i] == t.description[i - head.len()]);
        }
    }
    if t.description.len() == 0 {
        assert(l.last() == ',');
    } else {
        assert(l.last() == t.description.last());
    }
}

proof fn lemma_csv_rows_roundtrip(txs: Seq<TransactionView>, idx: nat)
    requires
        forall|i: int| 0 <= i < txs.len() ==> csv_keeps(#[trigger] txs[i]),
    ensures
        csv_rows(encode_utf8(csv_lines(txs)), idx) == Ok::<Seq<TransactionView>, ParseErrorView>(txs),
    decreases txs.len(),
{
    if txs.len() == 0 {
        assert(encode_utf8(csv_lines(txs)) =~= Seq::<u8>::empty());
        assert(txs =~= Seq::<TransactionView>::empty());
    } else {
        let t = txs[0];
        let rest = txs.drop_first();
        assert(csv_keeps(t));
        assert forall|i: int| 0 <= i < rest.len() implies csv_keeps(#[trigger] rest[i]) by {
            assert(rest[i] == txs[i + 1]);
        }
        lemma_csv_rows_roundtrip(rest, idx + 1);
        let line = csv_line(t);
        lemma_csv_line_shape(t);
        let el = encode_utf8(line);
        let er = encode_utf8(csv_lines(rest));
        lemma_encode_concat(line, seq!['\n']);
        lemma_encode_concat(line + seq!['\n'], csv_lines(rest));
        lemma_encode_newline();
        let s = encode_utf8(csv_lines(txs));
        assert(s == el + seq![10u8] + er);
        lemma_encode_avoids(line, '\n');
        crate::lines::lemma_line_len_at(s, el.len() as int);
        assert(s.take(el.len() as int) =~= el);
        assert(s.skip(el.len() as int + 1) =~= er);
        lemma_encode_last(line, '\r');
        vstd::utf8::encode_utf8_valid_utf8(line);
        vstd::utf8::encode_utf8_decode_utf8(line);
        lemma_trim_fixed(line);
        lemma_csv_record_roundtrip(t, idx + 2);
        assert(seq![t] + rest =~= txs);
    }
}

/// Writing transactions as CSV and reading the text back gives the same
/// transactions, when each description stays on one line and does not end with
/// white space.
pub proof fn lemma_csv_roundtrip(txs: Seq<TransactionView>)
    requires
        forall|i: int| 0 <= i < txs.len() ==> csv_keeps(#[trigger] txs[i]),
    ensures
        csv_read(encode_utf8(csv_text(txs))) == Ok::<Seq<TransactionView>, ParseErrorView>(txs),
{
    let h = csv_header();
    let body = csv_lines(txs);
    lemma_encode_concat(h, seq!['\n']);
    lemma_encode_concat(h + seq!['\n'], body);
    lemma_encode_newline();
    let eh = encode_utf8(h);
    let s = encode_utf8(csv_text(txs));
    assert(s == eh + seq![10u8] + encode_utf8(body));
    assert(forall|i: int| 0 <= i < h.len() ==> h[i] != '\n');
    lemma_encode_avoids(h, '\n');
    crate::lines::lemma_line_len_at(s, eh.len() as int);
    assert(s.take(eh.len() as int + 1) =~= eh + seq![10u8]);
    assert(s.skip(eh.len() as int + 1) =~= encode_utf8(body));
    vstd::utf8::encode_utf8_valid_utf8(h + seq!['\n']);
    vstd::utf8::encode_utf8_decode_utf8(h + seq!['\n']);
    assert((h + seq!['\n']).drop_last() =~= h);
    lemma_trim_fixed(h);
    assert(trim(h + seq!['\n']) == h);
    lemma_csv_rows_roundtrip(txs, 0);
}

// ---------------------------------------------------------------------------
// Blank lines do not count
// ---------------------------------------------------------------------------

/// A record that reads on one line reads the same on any other: the line number
/// only enters its errors.
proof fn lemma_csv_record_line(t: Seq<char>, i: nat, j: nat)
    requires
        csv_record(t, i) is Ok,
    ensures
        csv_record(t, j) == csv_record(t, i),
{
}

/// Rows that read from one line number read the same from any other.
proof fn lemma_csv_rows_line(s: Seq<u8>, i: nat, j: nat)
    requires
        csv_rows(s, i) is Ok,
    ensures
        csv_rows(s, j) == csv_rows(s, i),
    decreases s.len(),
{
    if s.len() > 0 {
        lemma_next_line_shorter(s);
        let l = next_line(s).0;
        let rest = next_line(s).1;
        let t = trim(decode_utf8(l));
        if t.len() == 0 {
            lemma_csv_rows_line(rest, i + 1, j + 1);
        } else {
            lemma_csv_record_line(t, i + 2, j + 2);
            lemma_csv_rows_line(rest, i + 1, j + 1);
        }
    }
}

/// Whether `w` is a line of white space: it has no line feed and, as `lines()`
/// yields it (one carriage return at its end dropped), it is UTF-8 and all white
/// space.
pub open spec fn blank_line(w: Seq<u8>) -> bool {
    &&& forall|j: int| 0 <= j < w.len() ==> w[j] != LF
    &&& valid_utf8(strip_cr(w))
    &&& trim(decode_utf8(strip_cr(w))).len() == 0
}

/// Inserting a blank line after complete lines `a` leaves rows that read as they
/// read.
proof fn lemma_csv_rows_blank(a: Seq<u8>, w: Seq<u8>, b: Seq<u8>, idx: nat)
    requires
        a.len() == 0 || a.last() == LF,
        blank_line(w),
        csv_rows(a + b, idx) is Ok || csv_rows(a + (w + seq![LF] + b), idx) is Ok,
    ensures
        csv_rows(a + (w + seq![LF] + b), idx) == csv_rows(a + b, idx),
    decreases a.len(),
{
    let wb = w + seq![LF] + b;
    if a.len() == 0 {
        assert(a + wb =~= wb);
        assert(a + b =~= b);
        lemma_next_line_of(w, b);
        lemma_next_line_shorter(wb);
        if csv_rows(b, idx) is Ok {
            lemma_csv_rows_line(b, idx, idx + 1);
        } else {
            lemma_csv_rows_line(b, idx + 1, idx);
        }
    } else {
        lemma_lines_prefix(a, b);
        lemma_lines_prefix(a, wb);
        lemma_next_line_shorter(a);
        lemma_next_line_shorter(a + b);
        lemma_next_line_shorter(a + wb);
        let a1 = next_line(a).1;
        assert(a1.len() < a.len()) by {
            lemma_line_len(a);
        }
        lemma_csv_rows_blank(a1, w, b, idx + 1);
    }
}

/// A line of white space inserted after the header, or after any later line,
/// leaves a successful CSV read unchanged, and so does taking one out.
proof fn lemma_csv_blank_line_ignored(p: Seq<u8>, w: Seq<u8>, q: Seq<u8>)
    requires
        p.len() > 0,
        p.last() == LF,
        blank_line(w),
        csv_read(p + q) is Ok || csv_read(p + w + seq![LF] + q) is Ok,
    ensures
        csv_read(p + w + seq![LF] + q) == csv_read(p + q),
{
    let wq = w + seq![LF] + q;
    assert(p + w + seq![LF] + q =~= p + wq);
    lemma_lines_prefix(p, q);
    lemma_lines_prefix(p, wq);
    lemma_csv_rows_blank(read_line(p).1, w, q, 0);
}


/// A line as `lines()` yields it with its last carriage return, or without it:
/// it is UTF-8 either way or neither, and trims to the same text.
proof fn lemma_strip_cr_line(a: Seq<u8>)
    ensures
        valid_utf8(strip_cr(a)) == valid_utf8(a),
        valid_utf8(a) ==> trim(decode_utf8(strip_cr(a))) == trim(decode_utf8(a)),
{
    if a.len() > 0 && a.last() == CR {
        let a1 = a.drop_last();
        assert(('\r' as u32) as u8 == CR);
        assert(a1.push(CR) =~= a);
        lemma_push_ascii_ws(a1, '\r');
    }
}

/// Rows whose last line has no line feed read as they do with one.
proof fn lemma_csv_rows_terminate(a: Seq<u8>, idx: nat)
    requires
        a.len() > 0,
        a.last() != LF,
    ensures
        csv_rows(a + seq![LF], idx) == csv_rows(a, idx),
    decreases a.len(),
{
    lemma_line_len(a);
    lemma_next_line_shorter(a);
    lemma_next_line_shorter(a + seq![LF]);
    let k = line_len(a) as int;
    if k < a.len() {
        lemma_lines_prefix_within(a, seq![LF]);
        let a1 = next_line(a).1;
        assert(k != a.len() - 1);
        assert(a1.len() > 0);
        assert(a1.last() == a.last());
        lemma_csv_rows_terminate(a1, idx + 1);
    } else {
        lemma_next_line_of(a, Seq::empty());
        assert(a + seq![LF] + Seq::<u8>::empty() =~= a + seq![LF]);
        lemma_strip_cr_line(a);
    }
}

/// A line feed added after a last line that has none leaves a successful read
/// unchanged, and so does taking it away.
pub proof fn lemma_csv_line_feed_at_end(d: Seq<u8>)
    requires
        d.len() > 0,
        d.last() != LF,
        csv_read(d) is Ok || csv_read(d + seq![LF]) is Ok,
    ensures
        csv_read(d + seq![LF]) == csv_read(d),
{
    lemma_line_len(d);
    let k = line_len(d) as int;
    if k < d.len() {
        lemma_lines_prefix_within(d, seq![LF]);
        assert(k != d.len() - 1);
        let a = read_line(d).1;
        assert(a.len() > 0);
        assert(a.last() == d.last());
        lemma_csv_rows_terminate(a, 0);
    } else {
        let e = d + seq![LF];
        assert forall|j: int| 0 <= j < d.len() implies e[j] != LF by {
            assert(e[j] == d[j]);
        }
        lemma_line_len_at(e, d.len() as int);
        assert(e.take(d.len() as int + 1) =~= e);
        assert(e.skip(d.len() as int + 1) =~= Seq::<u8>::empty());
        assert(('\n' as u32) as u8 == LF);
        assert(d.push(LF) =~= e);
        lemma_push_ascii_ws(d, '\n');
    }
}

/// Any number of lines of white space inserted after the header, or after any
/// later line that ends with a line feed, leave a successful CSV read unchanged,
/// and so does taking them out.
pub proof fn lemma_csv_blank_lines_ignored(p: Seq<u8>, ws: Seq<Seq<u8>>, q: Seq<u8>)
    requires
        p.len() > 0,
        p.last() == LF,
        forall|i: int| 0 <= i < ws.len() ==> blank_line(#[trigger] ws[i]),
        csv_read(p + q) is Ok || csv_read(p + join_lines(ws) + q) is Ok,
    ensures
        csv_read(p + join_lines(ws) + q) == csv_read(p + q),
    decreases ws.len(),
{
    if ws.len() == 0 {
        assert(p + join_lines(ws) + q =~= p + q);
    } else {
        let t = ws.drop_first();
        let qt = join_lines(t) + q;
        assert(p + join_lines(ws) + q =~= p + ws[0] + seq![LF] + qt);
        assert(p + join_lines(t) + q =~= p + qt);
        assert(blank_line(ws[0]));
        assert forall|i: int| 0 <= i < t.len() implies blank_line(#[trigger] t[i]) by {
            assert(t[i] == ws[i + 1]);
        }
        if csv_read(p + q) is Ok {
            lemma_csv_blank_lines_ignored(p, t, q);
            lemma_csv_blank_line_ignored(p, ws[0], qt);
        } else {
            lemma_csv_blank_line_ignored(p, ws[0], qt);
            lemma_csv_blank_lines_ignored(p, t, q);
        }
    }
}

/// Lines of white space added after a last line that has no line feed (so a
/// line feed ends that line first), the added last one with a line feed or
/// without, leave a successful CSV read unchanged, and so does taking them out.
pub proof fn lemma_csv_blank_lines_at_end(d: Seq<u8>, ws: Seq<Seq<u8>>, w: Seq<u8>)
    requires
        d.len() > 0,
        d.last() != LF,
        forall|i: int| 0 <= i < ws.len() ==> blank_line(#[trigger] ws[i]),
        w.len() == 0 || blank_line(w),
        csv_read(d) is Ok || csv_read(d + seq![LF] + join_lines(ws) + w) is Ok,
    ensures
        csv_read(d + seq![LF] + join_lines(ws) + w) == csv_read(d),
{
    let p = d + seq![LF];
    let big = d + seq![LF] + join_lines(ws) + w;
    assert(big =~= p + join_lines(ws) + w);
    assert(p + Seq::<u8>::empty() =~= p);
    assert(p + w + seq![LF] + Seq::<u8>::empty() =~= (p + w) + seq![LF]);
    if w.len() > 0 {
        assert((p + w).last() == w.last());
        assert(w.last() != LF);
    } else {
        assert(p + w =~= p);
    }
    if csv_read(d) is Ok {
        lemma_csv_line_feed_at_end(d);
        if w.len() > 0 {
            lemma_csv_blank_line_ignored(p, w, Seq::empty());
            lemma_csv_line_feed_at_end(p + w);
        }
        lemma_csv_blank_lines_ignored(p, ws, w);
    } else {
        lemma_csv_blank_lines_ignored(p, ws, w);
        if w.len() > 0 {
            lemma_csv_line_feed_at_end(p + w);
            lemma_csv_blank_line_ignored(p, w, Seq::empty());
        }
        lemma_csv_line_feed_at_end(d);
    }
}


/// What reading a CSV line takes from each of its comma-parted places: the id
/// from the first, the type word from the second, the user ids, amount and
/// timestamp from the next four, the status word from the seventh, and the
/// rest of the line as the description.
pub proof fn lemma_csv_record_fields(s: Seq<char>, line: nat)
    requires
        csv_record(s, line) is Ok,
    ensures
        split_fields(s, 8).len() >= 7,
        ({
            let parts = split_fields(s, 8);
            let t = csv_record(s, line)->Ok_0;
            &&& parse_u64(parts[0]) == Some(t.tx_id)
            &&& parse_tx_type(parts[1]) == Some(t.tx_type)
            &&& parse_u64(parts[2]) == Some(t.from_user_id)
            &&& parse_u64(parts[3]) == Some(t.to_user_id)
            &&& parse_u64(parts[4]) == Some(t.amount)
            &&& parse_u64(parts[5]) == Some(t.timestamp)
            &&& parse_status(parts[6]) == Some(t.status)
            &&& t.description == if parts.len() > 7 {
                parts[7]
            } else {
                Seq::empty()
            }
        }),
{
}

} // verus!
