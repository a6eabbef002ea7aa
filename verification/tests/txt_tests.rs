use parser::{read, Format, ParseError, Status, Transaction, TransactionType};

fn transactions() -> Vec<Transaction> {
    vec![
        Transaction {
            tx_id: 1,
            tx_type: TransactionType::DEPOSIT,
            from_user_id: 2,
            to_user_id: 3,
            amount: 4,
            timestamp: 5,
            status: Status::SUCCESS,
            description: r#"desc, "desc1""#.to_string(),
        },
        Transaction {
            tx_id: 11,
            tx_type: TransactionType::WITHDRAWAL,
            from_user_id: 22,
            to_user_id: 33,
            amount: 44,
            timestamp: 55,
            status: Status::FAILURE,
            description: "".to_string(),
        },
    ]
}

#[test]
fn lib_test_read_succeed() {
    let data = r#"
# Record 1 (DEPOSIT)
TX_TYPE: DEPOSIT
TO_USER_ID: 3
FROM_USER_ID: 2
TIMESTAMP: 5
DESCRIPTION: desc, "desc1"
TX_ID: 1
AMOUNT: 4
STATUS: SUCCESS

TX_TYPE: WITHDRAWAL
TO_USER_ID: 33
FROM_USER_ID: 22
TIMESTAMP: 55
TX_ID: 11
AMOUNT: 44
STATUS: FAILURE
"#;

    let tx = read(data.as_bytes(), Format::Txt).unwrap();
    assert_eq!(tx, transactions())
}

#[test]
fn lib_test_write_succeed() {
    let data = [
        r#"TX_ID: 1
TX_TYPE: DEPOSIT
FROM_USER_ID: 2
TO_USER_ID: 3
AMOUNT: 4
TIMESTAMP: 5
STATUS: SUCCESS
DESCRIPTION: desc, "desc1"

TX_ID: 11
TX_TYPE: WITHDRAWAL
FROM_USER_ID: 22
TO_USER_ID: 33
AMOUNT: 44
TIMESTAMP: 55
STATUS: FAILURE
DESCRIPTION: "#,
        "\n\n",
    ]
    .concat();

    let mut output = Vec::new();
    let _ = parser::write(&mut output, Format::Txt, transactions()).unwrap();
    let result = String::from_utf8(output).unwrap();
    assert_eq!(data, result);
}

#[test]
fn lib_test_read_tx_id_failed() {
    let data = r#"
# Record 1 (DEPOSIT)
TX_TYPE: DEPOSIT
TO_USER_ID: 3
FROM_USER_ID: 2
TIMESTAMP: 5
DESCRIPTION: desc, "desc1"
TX_ID: x
AMOUNT: 4
STATUS: SUCCESS
"#;

    let tx = read(data.as_bytes(), Format::Txt).unwrap_err();
    assert!(matches!(tx, ParseError::InvalidTextFieldValue { .. },));
}

#[test]
fn test_read_tx_id_not_found() {
    let data = r#"
# Record 1 (DEPOSIT)
TX_TYPE: DEPOSIT
TO_USER_ID: 3
FROM_USER_ID: 2
TIMESTAMP: 5
DESCRIPTION: desc, "desc1"
AMOUNT: 4
STATUS: SUCCESS
"#;

    let tx = read(data.as_bytes(), Format::Txt).unwrap_err();
    assert!(matches!(tx, ParseError::FieldValueNotFound { .. },));
}

#[test]
fn lib_test_read_tx_type_failed() {
    let data = r#"
# Record 1 (DEPOSIT)
TX_TYPE: dep
TO_USER_ID: 3
FROM_USER_ID: 2
TIMESTAMP: 5
DESCRIPTION: desc, "desc1"
TX_ID: 1
AMOUNT: 4
STATUS: SUCCESS
"#;

    let tx = read(data.as_bytes(), Format::Txt).unwrap_err();
    assert!(matches!(tx, ParseError::InvalidTextFieldValue { .. },));
}

#[test]
fn test_read_tx_type_not_found() {
    let data = r#"
# Record 1 (DEPOSIT)
TO_USER_ID: 3
FROM_USER_ID: 2
TIMESTAMP: 5
DESCRIPTION: desc, "desc1"
AMOUNT: 4
TX_ID: 1
STATUS: SUCCESS
"#;

    let tx = read(data.as_bytes(), Format::Txt).unwrap_err();
    assert!(matches!(tx, ParseError::FieldValueNotFound { .. },));
}

#[test]
fn test_read_from_user_failed() {
    let data = r#"
# Record 1 (DEPOSIT)
TX_TYPE: DEPOSIT
TO_USER_ID: 3
FROM_USER_ID: x
TIMESTAMP: 5
DESCRIPTION: desc, "desc1"
TX_ID: 1
AMOUNT: 4
STATUS: SUCCESS
"#;

    let tx = read(data.as_bytes(), Format::Txt).unwrap_err();
    assert!(matches!(tx, ParseError::InvalidTextFieldValue { .. },));
}

#[test]
fn test_read_to_user_not_found() {
    let data = r#"
# Record 1 (DEPOSIT)
TX_TYPE: DEPOSIT
TX_ID: 1
TO_USER_ID: 3
TIMESTAMP: 5
DESCRIPTION: desc, "desc1"
AMOUNT: 4
STATUS: SUCCESS
"#;

    let tx = read(data.as_bytes(), Format::Txt).unwrap_err();
    assert!(matches!(tx, ParseError::FieldValueNotFound { .. },));
}

#[test]
fn lib_test_read_amount_failed() {
    let data = r#"
# Record 1 (DEPOSIT)
TX_TYPE: DEPOSIT
TO_USER_ID: 3
FROM_USER_ID: 2
TIMESTAMP: 5
DESCRIPTION: desc, "desc1"
TX_ID: 1
AMOUNT: x
STATUS: SUCCESS
"#;

    let tx = read(data.as_bytes(), Format::Txt).unwrap_err();
    assert!(matches!(tx, ParseError::InvalidTextFieldValue { .. },));
}

#[test]
fn test_read_amount_not_found() {
    let data = r#"
# Record 1 (DEPOSIT)
TX_TYPE: DEPOSIT
TO_USER_ID: 3
FROM_USER_ID: 2
TIMESTAMP: 5
DESCRIPTION: desc, "desc1"
STATUS: SUCCESS
TX_ID: 1
"#;

    let tx = read(data.as_bytes(), Format::Txt).unwrap_err();
    assert!(matches!(tx, ParseError::FieldValueNotFound { .. },));
}

#[test]
fn lib_test_read_timestamp_failed() {
    let data = r#"
# Record 1 (DEPOSIT)
TX_TYPE: DEPOSIT
TO_USER_ID: 3
FROM_USER_ID: 2
TIMESTAMP: x
DESCRIPTION: desc, "desc1"
TX_ID: 1
AMOUNT: 4
STATUS: SUCCESS
"#;

    let tx = read(data.as_bytes(), Format::Txt).unwrap_err();
    assert!(matches!(tx, ParseError::InvalidTextFieldValue { .. },));
}

#[test]
fn test_read_timestamp_not_found() {
    let data = r#"
# Record 1 (DEPOSIT)
TX_TYPE: DEPOSIT
TO_USER_ID: 3
FROM_USER_ID: 2
DESCRIPTION: desc, "desc1"
AMOUNT: 4
TX_ID: 1
STATUS: SUCCESS
"#;

    let tx = read(data.as_bytes(), Format::Txt).unwrap_err();
    assert!(matches!(tx, ParseError::FieldValueNotFound { .. },));
}

#[test]
fn lib_test_read_status_failed() {
    let data = r#"
# Record 1 (DEPOSIT)
TX_TYPE: DEPOSIT
TO_USER_ID: 3
FROM_USER_ID: 2
TIMESTAMP: 5
DESCRIPTION: desc, "desc1"
TX_ID: 1
AMOUNT: 4
STATUS: succ
"#;

    let tx = read(data.as_bytes(), Format::Txt).unwrap_err();
    assert!(matches!(tx, ParseError::InvalidTextFieldValue { .. },));
}

#[test]
fn test_read_status_not_found() {
    let data = r#"
# Record 1 (DEPOSIT)
TX_TYPE: DEPOSIT
TO_USER_ID: 3
FROM_USER_ID: 2
DESCRIPTION: desc, "desc1"
AMOUNT: 4
TIMESTAMP: 5
TX_ID: 1
"#;

    let tx = read(data.as_bytes(), Format::Txt).unwrap_err();
    assert!(matches!(tx, ParseError::FieldValueNotFound { .. },));
}
