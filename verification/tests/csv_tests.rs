use parser::{read, Format, ParseError, Status, Transaction, TransactionType};

fn transactions() -> Vec<Transaction> {
    vec![
        Transaction {
            tx_id: 1,
            tx_type: TransactionType::DEPOSIT,
            from_user_id: 12,
            to_user_id: 13,
            amount: 14,
            timestamp: 15,
            status: Status::SUCCESS,
            description: r#"desc, "desc1""#.to_string(),
        },
        Transaction {
            tx_id: 2,
            tx_type: TransactionType::WITHDRAWAL,
            from_user_id: 22,
            to_user_id: 33,
            amount: 44,
            timestamp: 55,
            status: Status::FAILURE,
            description: r#""desc2""#.to_string(),
        },
    ]
}

#[test]
fn test_read_succeed() {
    let data = r#"TX_ID,TX_TYPE,FROM_USER_ID,TO_USER_ID,AMOUNT,TIMESTAMP,STATUS,DESCRIPTION
1,DEPOSIT,12,13,14,15,SUCCESS,desc, "desc1"
2,WITHDRAWAL,22,33,44,55,FAILURE,"desc2""#;

    let tx = read(data.as_bytes(), Format::Csv).unwrap();
    assert_eq!(tx, transactions())
}

#[test]
fn test_write_succeed() {
    let data = r#"TX_ID,TX_TYPE,FROM_USER_ID,TO_USER_ID,AMOUNT,TIMESTAMP,STATUS,DESCRIPTION
1,DEPOSIT,12,13,14,15,SUCCESS,desc, "desc1"
2,WITHDRAWAL,22,33,44,55,FAILURE,"desc2"
"#;

    let mut output = Vec::new();
    let _ = parser::write(&mut output, Format::Csv, transactions()).unwrap();
    let result = String::from_utf8(output).unwrap();
    assert_eq!(data, result)
}

#[test]
fn test_read_headers_failed() {
    let data = r#"TX,TX_TYPE,FROM_USER_ID,TO_USER_ID,AMOUNT,TIMESTAMP,STATUS,DESCRIPTION
1,DEPOSIT,12,13,14,15,SUCCESS,desc, "desc1""#;

    let err = read(data.as_bytes(), Format::Csv).unwrap_err();
    assert!(matches!(err, ParseError::InvalidHeaders { .. }));
}

#[test]
fn test_read_field_not_found() {
    let data = r#"TX_ID,TX_TYPE,FROM_USER_ID,TO_USER_ID,AMOUNT,TIMESTAMP,STATUS,DESCRIPTION
1,DEPOSIT"#;

    let err = read(data.as_bytes(), Format::Csv).unwrap_err();
    assert!(matches!(err, ParseError::FieldValueNotFound(_),));
}

#[test]
fn test_read_tx_id_failed() {
    let data = r#"TX_ID,TX_TYPE,FROM_USER_ID,TO_USER_ID,AMOUNT,TIMESTAMP,STATUS,DESCRIPTION
x,DEPOSIT,12,13,14,15,SUCCESS,desc, "desc1""#;

    let err = read(data.as_bytes(), Format::Csv).unwrap_err();
    assert!(matches!(err, ParseError::InvalidTextFieldValue { .. },));
}

#[test]
fn test_read_tx_type_failed() {
    let data = r#"TX_ID,TX_TYPE,FROM_USER_ID,TO_USER_ID,AMOUNT,TIMESTAMP,STATUS,DESCRIPTION
1,dep,12,13,14,15,SUCCESS,desc, "desc1""#;

    let err = read(data.as_bytes(), Format::Csv).unwrap_err();
    assert!(matches!(err, ParseError::InvalidTextFieldValue { .. },));
}

#[test]
fn test_read_user_from_failed() {
    let data = r#"TX_ID,TX_TYPE,FROM_USER_ID,TO_USER_ID,AMOUNT,TIMESTAMP,STATUS,DESCRIPTION
1,DEPOSIT,x,13,14,15,SUCCESS,desc, "desc1""#;

    let err = read(data.as_bytes(), Format::Csv).unwrap_err();
    assert!(matches!(err, ParseError::InvalidTextFieldValue { .. },));
}

#[test]
fn test_read_user_to_failed() {
    let data = r#"TX_ID,TX_TYPE,FROM_USER_ID,TO_USER_ID,AMOUNT,TIMESTAMP,STATUS,DESCRIPTION
1,DEPOSIT,12,x,14,15,SUCCESS,desc, "desc1""#;

    let err = read(data.as_bytes(), Format::Csv).unwrap_err();
    assert!(matches!(err, ParseError::InvalidTextFieldValue { .. },));
}

#[test]
fn test_read_amount_failed() {
    let data = r#"TX_ID,TX_TYPE,FROM_USER_ID,TO_USER_ID,AMOUNT,TIMESTAMP,STATUS,DESCRIPTION
1,DEPOSIT,12,13,x,15,SUCCESS,desc, "desc1""#;

    let err = read(data.as_bytes(), Format::Csv).unwrap_err();
    assert!(matches!(err, ParseError::InvalidTextFieldValue { .. },));
}

#[test]
fn test_read_timestamp_failed() {
    let data = r#"TX_ID,TX_TYPE,FROM_USER_ID,TO_USER_ID,AMOUNT,TIMESTAMP,STATUS,DESCRIPTION
1,DEPOSIT,12,13,14,x,SUCCESS,desc, "desc1""#;

    let err = read(data.as_bytes(), Format::Csv).unwrap_err();
    assert!(matches!(err, ParseError::InvalidTextFieldValue { .. },));
}

#[test]
fn test_read_status_failed() {
    let data = r#"TX_ID,TX_TYPE,FROM_USER_ID,TO_USER_ID,AMOUNT,TIMESTAMP,STATUS,DESCRIPTION
1,DEPOSIT,12,13,14,15,succ,desc, "desc1""#;

    let err = read(data.as_bytes(), Format::Csv).unwrap_err();
    assert!(matches!(err, ParseError::InvalidTextFieldValue { .. },));
}
