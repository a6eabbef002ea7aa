use parser::{read, Format, Status, Transaction, TransactionType};

fn transactions() -> Vec<Transaction> {
    vec![
        Transaction {
            tx_id: 1,
            tx_type: TransactionType::DEPOSIT,
            from_user_id: 2,
            to_user_id: 3,
            amount: 4,
            timestamp: 5,
            status: Status::SUCCESS,
            description: r#"desc, "desc1""#.to_string(),
        },
        Transaction {
            tx_id: 11,
            tx_type: TransactionType::WITHDRAWAL,
            from_user_id: 22,
            to_user_id: 33,
            amount: 44,
            timestamp: 55,
            status: Status::FAILURE,
            description: "".to_string(),
        },
    ]
}

#[test]
fn test_write_read_succeed() {
    let expect = transactions();

    let mut output = Vec::new();
    parser::write(&mut output, Format::Bin, transactions()).unwrap();

    let result = read(&output, Format::Bin).unwrap();

    assert_eq!(result, expect);
}
