use kresolver::amount::ParseError;
use kresolver::book::ReplayError;
use kresolver::{Amount, Book};

#[test]
fn test_eviction_makes_old_txn_undisputable() {
    let transactions = r"type, client, tx, amount
deposit, 1, 1, 1.0
deposit, 1, 2, 1.0
dispute, 1, 1,
dispute, 1, 2,
";

    let mut book = Book::with_capacity(1);
    assert!(book.try_resolve_all(transactions).is_ok());
    let buf = book.write();

    let expected = r"id,available,held,total,locked
1,1.0,1.0,2.0,false
";

    assert_eq!(buf, expected);
}

#[test]
fn test_skipped_txn_not_disputable() {
    let transactions = r"type, client, tx, amount
deposit, 1, 1, 1.0
withdrawal, 1, 2, 5.0
dispute, 1, 2,
";

    let mut book = Book::new();
    assert!(book.try_resolve_all(transactions).is_ok());
    let buf = book.write();

    let expected = r"id,available,held,total,locked
1,1.0,0.0000,1.0,false
";

    assert_eq!(buf, expected);
}

#[test]
fn test_double_dispute_is_noop() {
    let transactions = r"type, client, tx, amount
deposit, 1, 1, 1.0
dispute, 1, 1,
dispute, 1, 1,
";

    let mut book = Book::new();
    assert!(book.try_resolve_all(transactions).is_ok());
    let buf = book.write();

    let expected = r"id,available,held,total,locked
1,0.0000,1.0,1.0,false
";

    assert_eq!(buf, expected);
}

#[test]
fn test_locked_account_rejects_everything() {
    let transactions = r"type, client, tx, amount
deposit, 1, 1, 1.0
dispute, 1, 1,
chargeback, 1, 1,
deposit, 1, 2, 5.0
withdrawal, 1, 3, 5.0
";

    let mut book = Book::new();
    assert!(book.try_resolve_all(transactions).is_ok());
    let buf = book.write();

    let expected = r"id,available,held,total,locked
1,0.0000,0.0000,0.0000,true
";

    assert_eq!(buf, expected);
}

#[test]
fn test_dispute_for_unknown_client_creates_account() {
    let transactions = r"type, client, tx, amount
dispute, 5, 9,
";

    let mut book = Book::new();
    assert!(book.try_resolve_all(transactions).is_ok());
    let buf = book.write();

    let expected = r"id,available,held,total,locked
5,0.0000,0.0000,0.0000,false
";

    assert_eq!(buf, expected);
}

#[test]
fn test_parse_error_unknown_kind() {
    let transactions = "type, client, tx, amount\nteleport, 1, 1, 1.0\n";
    let mut book = Book::new();
    assert_eq!(
        book.try_resolve_all(transactions),
        Err(ReplayError::Parse(ParseError::UnknownKind))
    );
}

#[test]
fn test_parse_error_bad_client() {
    let transactions = "type, client, tx, amount\ndeposit, one, 1, 1.0\n";
    let mut book = Book::new();
    assert_eq!(
        book.try_resolve_all(transactions),
        Err(ReplayError::Parse(ParseError::BadClient))
    );
}

#[test]
fn test_parse_error_bad_tx() {
    let transactions = "type, client, tx, amount\ndeposit, 1, -7, 1.0\n";
    let mut book = Book::new();
    assert_eq!(
        book.try_resolve_all(transactions),
        Err(ReplayError::Parse(ParseError::BadTx))
    );
}

#[test]
fn test_parse_error_bad_amount() {
    let transactions = "type, client, tx, amount\ndeposit, 1, 1, lots\n";
    let mut book = Book::new();
    assert_eq!(
        book.try_resolve_all(transactions),
        Err(ReplayError::Parse(ParseError::BadAmount))
    );
}

#[test]
fn test_parse_error_bad_row() {
    let transactions = "type, client, tx, amount\ndeposit, 1\n";
    let mut book = Book::new();
    assert_eq!(
        book.try_resolve_all(transactions),
        Err(ReplayError::Parse(ParseError::BadRow))
    );
}

#[test]
fn test_parse_failure_leaves_state_untouched() {
    let good = "type, client, tx, amount\ndeposit, 1, 1, 1.0\n";
    let bad = "type, client, tx, amount\ndeposit, 1, 2, 1.0\nteleport, 1, 3, 1.0\n";
    let mut book = Book::new();
    assert!(book.try_resolve_all(good).is_ok());
    assert!(book.try_resolve_all(bad).is_err());
    let expected = r"id,available,held,total,locked
1,1.0,0.0000,1.0,false
";
    assert_eq!(book.write(), expected);
}

#[test]
fn test_amount_parse_exact_parts() {
    let a = Amount::from_str("1.5").unwrap();
    assert_eq!(a.mantissa, 15);
    assert_eq!(a.scale, 1);

    let b = Amount::from_str("9_001_000.1").unwrap();
    assert_eq!(b.mantissa, 90010001);
    assert_eq!(b.scale, 1);

    let c = Amount::from_str("-0.0001").unwrap();
    assert_eq!(c.mantissa, -1);
    assert_eq!(c.scale, 4);

    assert!(matches!(Amount::from_str("lots"), Err(ParseError::BadAmount)));
}

#[test]
fn test_amount_serialize_display_rounding() {
    assert_eq!(Amount::new(15, 1).serialize(), "1.5");
    assert_eq!(Amount::zero().serialize(), "0.0000");
    assert_eq!(Amount::new(100006, 5).serialize(), "1.0001");
    assert_eq!(Amount::new(-10, 1).serialize(), "-1.0");
}

#[test]
fn test_amount_arithmetic_exact() {
    let mut a = Amount::new(1, 0);
    a.add_assign(Amount::new(5, 1));
    assert_eq!(a.mantissa, 15);
    assert_eq!(a.scale, 1);

    let mut b = Amount::new(15, 1);
    b.sub_assign(Amount::new(15, 1));
    assert_eq!(b.mantissa, 0);
    assert_eq!(b.scale, 1);

    assert!(Amount::new(15, 1).lt(&Amount::new(2, 0)));
    assert!(!Amount::new(2, 0).lt(&Amount::new(15, 1)));
    assert!(!Amount::new(20, 1).lt(&Amount::new(2, 0)));
    assert!(Amount::new(-1, 4).lt(&Amount::zero()));

    let n = Amount::new(15, 1).neg();
    assert_eq!(n.mantissa, -15);
    assert_eq!(n.scale, 1);
}

#[test]
fn test_withdrawal_of_exact_balance_succeeds() {
    let transactions = r"type, client, tx, amount
deposit, 1, 1, 2.5
withdrawal, 1, 2, 2.5
";
    let mut book = Book::new();
    assert!(book.try_resolve_all(transactions).is_ok());
    let expected = r"id,available,held,total,locked
1,0.0000,0.0000,0.0000,false
";
    assert_eq!(book.write(), expected);
}

#[test]
fn test_overflow_aborts_replay() {
    let transactions = "type, client, tx, amount\ndeposit, 1, 1, 79228162514264337593543950335\ndeposit, 1, 2, 79228162514264337593543950335\n";
    let mut book = Book::new();
    assert_eq!(book.try_resolve_all(transactions), Err(ReplayError::Overflow));
    let out = book.write();
    assert!(out.contains(
        "1,79228162514264337593543950335,0.0000,79228162514264337593543950335,false"
    ));
}
