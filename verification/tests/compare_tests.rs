use parser::compare::compare;
use parser::{Status, Transaction, TransactionType};

fn transactions() -> Vec<Transaction> {
    vec![
        Transaction {
            tx_id: 1,
            tx_type: TransactionType::DEPOSIT,
            from_user_id: 12,
            to_user_id: 13,
            amount: 14,
            timestamp: 15,
            status: Status::SUCCESS,
            description: "desc1".to_string(),
        },
        Transaction {
            tx_id: 2,
            tx_type: TransactionType::DEPOSIT,
            from_user_id: 22,
            to_user_id: 33,
            amount: 44,
            timestamp: 55,
            status: Status::FAILURE,
            description: "desc2".to_string(),
        },
    ]
}

#[test]
fn test_identical_compare() {
    let left = transactions();
    let right = transactions();

    assert_eq!(
        compare(&left, &right),
        Vec::<(Option<&Transaction>, Option<&Transaction>)>::new()
    );
}

#[test]
fn test_not_equal_one_of_compare() {
    let mut left = transactions();
    let right = transactions();
    left[0].tx_type = TransactionType::WITHDRAWAL;

    assert_eq!(compare(&left, &right), vec![(Some(&left[0]), Some(&right[0]))]);
}

#[test]
fn test_missing_left_compare() {
    let mut left = transactions();
    let right = transactions();
    left.remove(1);

    assert_eq!(compare(&left, &right), vec![(None, Some(&right[1]))]);
}

#[test]
fn test_missing_right_compare() {
    let left = transactions();
    let mut right = transactions();
    right.remove(1);

    assert_eq!(compare(&left, &right), vec![(Some(&left[1]), None)]);
}
