use parser::bin_format::{
    decode_record, encode_body, parse_u64_be, read_records, status_from_bytes, tx_type_from_bytes,
};
use parser::compare::compare;
use parser::{read, Format, IoErrorKind, ParseError, Status, Transaction, TransactionType};

const HEADER: &str = "TX_ID,TX_TYPE,FROM_USER_ID,TO_USER_ID,AMOUNT,TIMESTAMP,STATUS,DESCRIPTION";

fn tx(id: u64, description: &str) -> Transaction {
    Transaction {
        tx_id: id,
        tx_type: TransactionType::TRANSFER,
        from_user_id: 7,
        to_user_id: 8,
        amount: 100,
        timestamp: 1672531200000,
        status: Status::PENDING,
        description: description.to_string(),
    }
}

fn invalid_field(err: ParseError) -> (String, String, usize) {
    match err {
        ParseError::InvalidTextFieldValue { field, value, line_num } => (field, value, line_num),
        other => panic!("unexpected error {:?}", other),
    }
}

// ---------------------------------------------------------------- CSV

#[test]
fn csv_header_mismatch_reports_the_raw_line() {
    let data = "TX,TX_TYPE\n1,DEPOSIT\n";
    match read(data.as_bytes(), Format::Csv).unwrap_err() {
        ParseError::InvalidHeaders { expected, found } => {
            assert_eq!(expected, HEADER);
            assert_eq!(found, "TX,TX_TYPE\n");
        }
        other => panic!("unexpected error {:?}", other),
    }
}

#[test]
fn csv_empty_input_has_no_header() {
    match read(b"", Format::Csv).unwrap_err() {
        ParseError::InvalidHeaders { found, .. } => assert_eq!(found, ""),
        other => panic!("unexpected error {:?}", other),
    }
}

#[test]
fn csv_header_only_gives_nothing() {
    let data = format!("  {}  \r\n\n   \n", HEADER);
    assert_eq!(read(data.as_bytes(), Format::Csv).unwrap(), Vec::<Transaction>::new());
}

#[test]
fn csv_blank_lines_count_in_line_numbers() {
    let data = format!("{}\n\n   \nx,DEPOSIT,1,2,3,4,SUCCESS,d\n", HEADER);
    let (field, value, line) = invalid_field(read(data.as_bytes(), Format::Csv).unwrap_err());
    assert_eq!(field, "TX_ID");
    assert_eq!(value, "x");
    assert_eq!(line, 4);
}

#[test]
fn csv_missing_field_is_named() {
    let data = format!("{}\n1,DEPOSIT", HEADER);
    match read(data.as_bytes(), Format::Csv).unwrap_err() {
        ParseError::FieldValueNotFound(f) => assert_eq!(f, "FROM_USER_ID"),
        other => panic!("unexpected error {:?}", other),
    }
}

#[test]
fn csv_missing_description_is_empty() {
    let data = format!("{}\n1,DEPOSIT,2,3,4,5,FAILURE", HEADER);
    let txs = read(data.as_bytes(), Format::Csv).unwrap();
    assert_eq!(txs.len(), 1);
    assert_eq!(txs[0].description, "");
    assert_eq!(txs[0].status, Status::FAILURE);
}

#[test]
fn csv_numbers_follow_u64_parsing() {
    let data = format!("{}\n+5,DEPOSIT,18446744073709551615,007,0,1,SUCCESS,a,b,c\n", HEADER);
    let txs = read(data.as_bytes(), Format::Csv).unwrap();
    assert_eq!(txs[0].tx_id, 5);
    assert_eq!(txs[0].from_user_id, u64::MAX);
    assert_eq!(txs[0].to_user_id, 7);
    assert_eq!(txs[0].description, "a,b,c");

    let over = format!("{}\n1,DEPOSIT,18446744073709551616,0,0,0,SUCCESS,d\n", HEADER);
    let (field, value, _) = invalid_field(read(over.as_bytes(), Format::Csv).unwrap_err());
    assert_eq!(field, "FROM_USER_ID");
    assert_eq!(value, "18446744073709551616");

    for bad in ["+", "-1", "1 ", ""] {
        let d = format!("{}\n{},DEPOSIT,1,2,3,4,SUCCESS,d\n", HEADER, bad);
        let (field, value, line) = invalid_field(read(d.as_bytes(), Format::Csv).unwrap_err());
        assert_eq!(field, "TX_ID");
        assert_eq!(value, bad);
        assert_eq!(line, 2);
    }
}

#[test]
fn csv_words_are_exact() {
    let data = format!("{}\n1,TRANSFER,1,2,3,4,PENDING,d\n2,WITHDRAWAL,1,2,3,4,Success,d\n", HEADER);
    let (field, value, line) = invalid_field(read(data.as_bytes(), Format::Csv).unwrap_err());
    assert_eq!(field, "STATUS");
    assert_eq!(value, "Success");
    assert_eq!(line, 3);
}

#[test]
fn csv_invalid_utf8_is_an_input_error() {
    let mut data = format!("{}\n1,DEPOSIT,1,2,3,4,SUCCESS,", HEADER).into_bytes();
    data.extend_from_slice(&[0xff, 0xfe, b'\n']);
    assert!(matches!(
        read(&data, Format::Csv).unwrap_err(),
        ParseError::Io(IoErrorKind::InvalidData)
    ));
    assert!(matches!(
        read(&[0xc3, b'\n'], Format::Csv).unwrap_err(),
        ParseError::Io(IoErrorKind::InvalidData)
    ));
}

#[test]
fn csv_earlier_error_wins_over_later_invalid_utf8() {
    let mut data = format!("{}\nx,DEPOSIT,1,2,3,4,SUCCESS,d\n", HEADER).into_bytes();
    data.extend_from_slice(&[0xff, b'\n']);
    let (field, _, line) = invalid_field(read(&data, Format::Csv).unwrap_err());
    assert_eq!(field, "TX_ID");
    assert_eq!(line, 2);
}

#[test]
fn csv_round_trip_keeps_unicode_and_commas() {
    let txs = vec![tx(1, "Пополнение, счёта 💰"), tx(2, ""), tx(3, "  leading kept")];
    let mut out = Vec::new();
    parser::write(&mut out, Format::Csv, txs.clone()).unwrap();
    assert_eq!(read(&out, Format::Csv).unwrap(), txs);
}

#[test]
fn csv_trailing_space_of_description_is_trimmed() {
    let txs = vec![tx(1, "ends with space ")];
    let mut out = Vec::new();
    parser::write(&mut out, Format::Csv, txs).unwrap();
    assert_eq!(read(&out, Format::Csv).unwrap()[0].description, "ends with space");
}

#[test]
fn csv_write_exact_line() {
    let mut out = Vec::new();
    parser::write(&mut out, Format::Csv, vec![tx(0, "x")]).unwrap();
    assert_eq!(
        String::from_utf8(out).unwrap(),
        format!("{}\n0,TRANSFER,7,8,100,1672531200000,PENDING,x\n", HEADER)
    );
}

#[test]
fn write_appends_to_what_is_there() {
    let mut out = b"prefix".to_vec();
    parser::write(&mut out, Format::Csv, vec![]).unwrap();
    assert_eq!(String::from_utf8(out).unwrap(), format!("prefix{}\n", HEADER));
}

// ---------------------------------------------------------------- TXT

#[test]
fn txt_comments_unknown_keys_and_last_value_win() {
    let data = "# a comment\nTX_ID: 9\nTX_ID: 10\nNOTE: ignored\nTX_TYPE: TRANSFER\n  FROM_USER_ID :  1  \nTO_USER_ID: 2\nAMOUNT: 3\nTIMESTAMP: 4\nSTATUS: PENDING\nDESCRIPTION:  a: b  ";
    let txs = read(data.as_bytes(), Format::Txt).unwrap();
    assert_eq!(txs.len(), 1);
    assert_eq!(txs[0].tx_id, 10);
    assert_eq!(txs[0].from_user_id, 1);
    assert_eq!(txs[0].description, "a: b");
}

#[test]
fn txt_error_reports_the_line_of_the_value() {
    let data = "\n\nTX_ID: 1\nTX_TYPE: DEPOSIT\nFROM_USER_ID: 1\nTO_USER_ID: 2\nAMOUNT: 3\nTIMESTAMP: t\nSTATUS: SUCCESS\n";
    let (field, value, line) = invalid_field(read(data.as_bytes(), Format::Txt).unwrap_err());
    assert_eq!(field, "TIMESTAMP");
    assert_eq!(value, "t");
    assert_eq!(line, 8);
}

#[test]
fn txt_unknown_keys_alone_make_a_record() {
    match read(b"NOTE: x\n\n", Format::Txt).unwrap_err() {
        ParseError::FieldValueNotFound(f) => assert_eq!(f, "TX_ID"),
        other => panic!("unexpected error {:?}", other),
    }
    assert_eq!(read(b"no colon here\n\n# c\n", Format::Txt).unwrap(), Vec::<Transaction>::new());
}

#[test]
fn txt_invalid_utf8_is_an_input_error() {
    assert!(matches!(
        read(&[b'T', b':', 0x80, b'\n'], Format::Txt).unwrap_err(),
        ParseError::Io(IoErrorKind::InvalidData)
    ));
}

#[test]
fn txt_round_trip() {
    let txs = vec![tx(1, "Перевод: другу"), tx(u64::MAX, ""), tx(0, "a  b")];
    let mut out = Vec::new();
    parser::write(&mut out, Format::Txt, txs.clone()).unwrap();
    assert_eq!(read(&out, Format::Txt).unwrap(), txs);
}

// ---------------------------------------------------------------- BIN

fn bin_of(txs: Vec<Transaction>) -> Vec<u8> {
    let mut out = Vec::new();
    parser::write(&mut out, Format::Bin, txs).unwrap();
    out
}

#[test]
fn bin_write_exact_bytes() {
    let out = bin_of(vec![Transaction {
        tx_id: 0x0102030405060708,
        tx_type: TransactionType::WITHDRAWAL,
        from_user_id: 1,
        to_user_id: 2,
        amount: 3,
        timestamp: 4,
        status: Status::FAILURE,
        description: "é".to_string(),
    }]);
    let mut expect = vec![0x59, 0x50, 0x42, 0x4E, 0, 0, 0, 48];
    expect.extend_from_slice(&[1, 2, 3, 4, 5, 6, 7, 8, 2]);
    expect.extend_from_slice(&[0, 0, 0, 0, 0, 0, 0, 1]);
    expect.extend_from_slice(&[0, 0, 0, 0, 0, 0, 0, 2]);
    expect.extend_from_slice(&[0, 0, 0, 0, 0, 0, 0, 3]);
    expect.extend_from_slice(&[0, 0, 0, 0, 0, 0, 0, 4]);
    expect.extend_from_slice(&[1, 0, 0, 0, 2, 0xc3, 0xa9]);
    assert_eq!(out, expect);
}

#[test]
fn bin_skips_unframed_words_and_short_tails() {
    let mut data = vec![1, 2, 3, 4];
    data.extend(bin_of(vec![tx(5, "five")]));
    data.extend_from_slice(&[9, 9]);
    assert_eq!(read(&data, Format::Bin).unwrap(), vec![tx(5, "five")]);
}

#[test]
fn bin_truncated_records_are_input_errors() {
    let full = bin_of(vec![tx(5, "five")]);
    assert!(matches!(
        read(&full[..6], Format::Bin).unwrap_err(),
        ParseError::Io(IoErrorKind::UnexpectedEof)
    ));
    assert!(matches!(
        read(&full[..full.len() - 1], Format::Bin).unwrap_err(),
        ParseError::Io(IoErrorKind::UnexpectedEof)
    ));
}

#[test]
fn bin_bad_bytes_are_named() {
    let mut data = bin_of(vec![tx(5, "five")]);
    data[8 + 8] = 3;
    match read(&data, Format::Bin).unwrap_err() {
        ParseError::InvalidBinaryField(f) => assert_eq!(f, "tx_type"),
        other => panic!("unexpected error {:?}", other),
    }
    let mut data = bin_of(vec![tx(5, "five")]);
    data[8 + 41] = 7;
    match read(&data, Format::Bin).unwrap_err() {
        ParseError::InvalidBinaryField(f) => assert_eq!(f, "status"),
        other => panic!("unexpected error {:?}", other),
    }
    let mut data = bin_of(vec![tx(5, "five")]);
    data[8 + 46] = 0xff;
    match read(&data, Format::Bin).unwrap_err() {
        ParseError::InvalidBinaryField(f) => assert_eq!(f, "desc_bytes"),
        other => panic!("unexpected error {:?}", other),
    }
}

#[test]
fn bin_description_length_beyond_body_gives_empty() {
    let mut data = bin_of(vec![tx(5, "five")]);
    data[8 + 45] = 200;
    assert_eq!(read(&data, Format::Bin).unwrap()[0].description, "");
    let mut data = bin_of(vec![tx(5, "five")]);
    data[8 + 45] = 2;
    assert_eq!(read(&data, Format::Bin).unwrap()[0].description, "fi");
}

#[test]
fn bin_short_body_cannot_be_read() {
    let data = [0x59, 0x50, 0x42, 0x4E, 0, 0, 0, 2, 0, 0];
    assert!(read_records(&data).is_none());
    let ok = bin_of(vec![tx(1, "")]);
    assert!(matches!(read_records(&ok), Some(Ok(ref v)) if v.len() == 1));
}

#[test]
fn bin_u64_needs_eight_bytes() {
    assert_eq!(parse_u64_be(&[0, 0, 0, 0, 0, 0, 1, 0], "amount").unwrap(), 256);
    match parse_u64_be(&[1, 2], "amount").unwrap_err() {
        ParseError::InvalidBinaryField(f) => assert_eq!(f, "amount"),
        other => panic!("unexpected error {:?}", other),
    }
}

// ---------------------------------------------------------------- across formats

#[test]
fn converting_through_every_format_keeps_transactions() {
    let txs = vec![tx(1, "one"), tx(2, "два, три")];
    let csv = {
        let mut o = Vec::new();
        parser::write(&mut o, Format::Csv, txs.clone()).unwrap();
        o
    };
    let from_csv = read(&csv, Format::Csv).unwrap();
    let bin = bin_of(from_csv);
    let from_bin = read(&bin, Format::Bin).unwrap();
    let mut txt = Vec::new();
    parser::write(&mut txt, Format::Txt, from_bin).unwrap();
    assert_eq!(read(&txt, Format::Txt).unwrap(), txs);
}

// ---------------------------------------------------------------- compare

#[test]
fn compare_uses_the_last_transaction_of_an_id() {
    let left = vec![tx(1, "old"), tx(1, "new")];
    let right = vec![tx(1, "new"), tx(2, "only right")];
    assert_eq!(compare(&left, &right), vec![(None, Some(&right[1]))]);
    let diff = compare(&right, &left);
    assert_eq!(diff, vec![(Some(&right[1]), None)]);
}

#[test]
fn compare_reports_each_id_once() {
    let left = vec![tx(1, "a"), tx(2, "b"), tx(3, "c")];
    let right = vec![tx(3, "c"), tx(2, "B"), tx(4, "d")];
    let diff = compare(&left, &right);
    assert_eq!(diff.len(), 3);
    assert!(diff.contains(&(Some(&left[0]), None)));
    assert!(diff.contains(&(Some(&left[1]), Some(&right[1]))));
    assert!(diff.contains(&(None, Some(&right[2]))));
}

#[test]
fn txt_field_order_does_not_matter() {
    let a = "TX_ID: 3\nAMOUNT: 9\nTX_TYPE: DEPOSIT\nFROM_USER_ID: 0\nTO_USER_ID: 1\nTIMESTAMP: 2\nSTATUS: SUCCESS\nDESCRIPTION: x\n\n";
    let b = "AMOUNT: 9\nTX_ID: 3\nTX_TYPE: DEPOSIT\nFROM_USER_ID: 0\nTO_USER_ID: 1\nTIMESTAMP: 2\nSTATUS: SUCCESS\nDESCRIPTION: x\n\n";
    let ra = read(a.as_bytes(), Format::Txt).unwrap();
    assert_eq!(ra, read(b.as_bytes(), Format::Txt).unwrap());
    assert_eq!(ra[0].amount, 9);
}

#[test]
fn compare_with_itself_reports_nothing() {
    let s = vec![tx(1, "a"), tx(1, "b"), tx(2, "c")];
    assert!(compare(&s, &s).is_empty());
}

#[test]
fn type_and_status_words() {
    assert_eq!(TransactionType::WITHDRAWAL.text(), "WITHDRAWAL");
    assert_eq!(TransactionType::DEPOSIT.text(), "DEPOSIT");
    assert_eq!(TransactionType::from_text("TRANSFER"), Some(TransactionType::TRANSFER));
    assert_eq!(TransactionType::from_text("transfer"), None);
    assert_eq!(Status::PENDING.text(), "PENDING");
    assert_eq!(Status::from_text("FAILURE"), Some(Status::FAILURE));
    assert_eq!(Status::from_text(" FAILURE"), None);
}

#[test]
fn bin_resynchronises_after_a_stray_byte() {
    let mut data = vec![0u8];
    data.extend(bin_of(vec![tx(5, "five")]));
    assert_eq!(read(&data, Format::Bin).unwrap(), vec![tx(5, "five")]);
    let mut data = vec![0x59u8, 0x50, 0x42];
    data.extend(bin_of(vec![tx(6, "six")]));
    data.extend(vec![1u8, 2, 3, 4, 5]);
    data.extend(bin_of(vec![tx(7, "seven")]));
    assert_eq!(read(&data, Format::Bin).unwrap(), vec![tx(6, "six"), tx(7, "seven")]);
}

#[test]
fn byte_decoders_name_the_field() {
    assert_eq!(tx_type_from_bytes(&[0]).unwrap(), TransactionType::DEPOSIT);
    assert_eq!(tx_type_from_bytes(&[1, 9]).unwrap(), TransactionType::TRANSFER);
    assert_eq!(tx_type_from_bytes(&[2]).unwrap(), TransactionType::WITHDRAWAL);
    for bad in [&[3u8][..], &[][..]] {
        match tx_type_from_bytes(bad) {
            Err(ParseError::InvalidBinaryField(name)) => assert_eq!(name, "transaction_type"),
            other => panic!("unexpected {:?}", other),
        }
    }
    assert_eq!(status_from_bytes(&[0]).unwrap(), Status::SUCCESS);
    assert_eq!(status_from_bytes(&[1]).unwrap(), Status::FAILURE);
    assert_eq!(status_from_bytes(&[2, 0]).unwrap(), Status::PENDING);
    for bad in [&[255u8][..], &[][..]] {
        match status_from_bytes(bad) {
            Err(ParseError::InvalidBinaryField(name)) => assert_eq!(name, "status"),
            other => panic!("unexpected {:?}", other),
        }
    }
}

#[test]
fn enums_convert_to_bytes_and_from_words() {
    assert_eq!(u8::from(TransactionType::DEPOSIT), 0);
    assert_eq!(u8::from(TransactionType::TRANSFER), 1);
    assert_eq!(u8::from(TransactionType::WITHDRAWAL), 2);
    assert_eq!(u8::from(Status::SUCCESS), 0);
    assert_eq!(u8::from(Status::FAILURE), 1);
    assert_eq!(u8::from(Status::PENDING), 2);
    assert_eq!("WITHDRAWAL".parse::<TransactionType>(), Ok(TransactionType::WITHDRAWAL));
    assert_eq!("withdrawal".parse::<TransactionType>(), Err(()));
    assert_eq!("PENDING".parse::<Status>(), Ok(Status::PENDING));
    assert_eq!("".parse::<Status>(), Err(()));
}

#[test]
fn csv_inserted_blank_lines_are_ignored() {
    let row1 = "1,DEPOSIT,1,2,3,4,SUCCESS,first";
    let row2 = "2,TRANSFER,5,6,7,8,PENDING,second";
    let plain = format!("{}\n{}\n{}\n", HEADER, row1, row2);
    let spaced = format!("{}\n \t\n{}\n\r\n\n{}\n   \n", HEADER, row1, row2);
    let expect = read(plain.as_bytes(), Format::Csv).unwrap();
    assert_eq!(expect.len(), 2);
    assert_eq!(read(spaced.as_bytes(), Format::Csv).unwrap(), expect);
}

#[test]
fn txt_comments_and_line_order_within_a_record_are_ignored() {
    let lines = [
        "TX_ID: 3",
        "TX_TYPE: DEPOSIT",
        "FROM_USER_ID: 0",
        "TO_USER_ID: 1",
        "AMOUNT: 9",
        "TIMESTAMP: 2",
        "STATUS: SUCCESS",
        "DESCRIPTION: x",
    ];
    let forward = format!("{}\n\n", lines.join("\n"));
    let mut reversed: Vec<&str> = lines.iter().rev().cloned().collect();
    reversed.insert(3, "# a comment: inside");
    let backward = format!("# first\n{}\n\n# last\n", reversed.join("\n"));
    let expect = read(forward.as_bytes(), Format::Txt).unwrap();
    assert_eq!(expect.len(), 1);
    assert_eq!(read(backward.as_bytes(), Format::Txt).unwrap(), expect);
}

#[test]
fn bin_writing_what_was_read_gives_the_bytes_back() {
    let bytes = bin_of(vec![tx(1, "one"), tx(2, ""), tx(3, "три")]);
    let txs = read(&bytes, Format::Bin).unwrap();
    assert_eq!(bin_of(txs), bytes);
}

#[test]
fn compare_the_other_way_swaps_each_pair() {
    let left = vec![tx(1, "a"), tx(2, "b"), tx(3, "c")];
    let right = vec![tx(3, "c"), tx(2, "B"), tx(4, "d")];
    let forward = compare(&left, &right);
    let mut swapped: Vec<_> = forward.iter().map(|(a, b)| (*b, *a)).collect();
    let mut backward = compare(&right, &left);
    let key = |p: &(Option<&Transaction>, Option<&Transaction>)| p.0.or(p.1).map(|t| t.tx_id);
    swapped.sort_by_key(key);
    backward.sort_by_key(key);
    assert_eq!(backward, swapped);
}

#[test]
fn csv_blank_lines_after_an_unterminated_last_line_are_ignored() {
    let row = "1,DEPOSIT,1,2,3,4,SUCCESS,last\r";
    let plain = format!("{}\n{}", HEADER, row);
    let expect = read(plain.as_bytes(), Format::Csv).unwrap();
    assert_eq!(expect.len(), 1);
    assert_eq!(expect[0].description, "last");
    for tail in ["\n", "\n  \n\t\n", "\n \n\r"] {
        let more = format!("{}{}", plain, tail);
        assert_eq!(read(more.as_bytes(), Format::Csv).unwrap(), expect);
    }
    let header_only = HEADER.to_string();
    assert_eq!(read(header_only.as_bytes(), Format::Csv).unwrap(), Vec::<Transaction>::new());
    let header_then_blank = format!("{}\n   ", HEADER);
    assert_eq!(read(header_then_blank.as_bytes(), Format::Csv).unwrap(), Vec::<Transaction>::new());
}

#[test]
fn txt_record_lines_in_any_order_with_comments_and_plain_lines() {
    let a = "TX_ID: 3\nTX_TYPE: DEPOSIT\nFROM_USER_ID: 0\nTO_USER_ID: 1\nAMOUNT: 9\nTIMESTAMP: 2\nSTATUS: SUCCESS\nDESCRIPTION: x\n\n";
    let b = "STATUS: SUCCESS\n# moved around\nAMOUNT: 9\njust a note\nDESCRIPTION: x\nTX_ID: 3\n#\nTIMESTAMP: 2\nTO_USER_ID: 1\nTX_TYPE: DEPOSIT\nFROM_USER_ID: 0\n\n";
    let ra = read(a.as_bytes(), Format::Txt).unwrap();
    assert_eq!(ra.len(), 1);
    assert_eq!(read(b.as_bytes(), Format::Txt).unwrap(), ra);
}

#[test]
fn bin_body_decoder_undoes_the_encoder() {
    for t in [tx(1, "one"), tx(u64::MAX, ""), tx(0, "многобайтовый текст")] {
        let body = encode_body(&t);
        assert_eq!(body.len(), 46 + t.description.len());
        assert_eq!(decode_record(&body).unwrap(), t);
    }
}

#[test]
fn field_name_constants_and_word_parsing() {
    let names = [
        parser::TX_ID,
        parser::TX_TYPE,
        parser::FROM_USER_ID,
        parser::TO_USER_ID,
        parser::AMOUNT,
        parser::TIMESTAMP,
        parser::STATUS,
        parser::DESCRIPTION,
    ];
    assert_eq!(names.join(","), HEADER);
    for t in [TransactionType::DEPOSIT, TransactionType::TRANSFER, TransactionType::WITHDRAWAL] {
        assert_eq!(t.text().parse::<TransactionType>(), Ok(t));
    }
    for s in [Status::SUCCESS, Status::FAILURE, Status::PENDING] {
        assert_eq!(s.text().parse::<Status>(), Ok(s));
    }
    assert_eq!("dep".parse::<TransactionType>(), Err(()));
    assert_eq!("succ".parse::<Status>(), Err(()));
    assert_eq!("SUCCESS ".parse::<Status>(), Err(()));
}
