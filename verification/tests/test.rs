use kresolver::Book;

#[test]
fn test_sample_from_problem_statement() {
    let transactions = r"type, client, tx, amount
deposit, 1, 1, 1.0
deposit, 2, 2, 2.0
deposit, 1, 3, 2.0
withdrawal, 1, 4, 1.5
withdrawal, 2, 5, 3.0
";

    let mut book = Book::new();
    assert!(book.try_resolve_all(transactions).is_ok());
    let buf = book.write();

    let expected = r"id,available,held,total,locked
1,1.5,0.0000,1.5,false
2,2.0,0.0000,2.0,false
";

    assert_eq!(&buf.into_bytes(), &expected.bytes().collect::<Vec<_>>());
}

#[test]
fn test_dispute() {
    let transactions = r"type, client, tx, amount
deposit, 1, 1, 1.0
dispute, 1, 1,
";

    let mut book = Book::new();
    assert!(book.try_resolve_all(transactions).is_ok());
    let buf = book.write();

    let expected = r"id,available,held,total,locked
1,0.0000,1.0,1.0,false
";

    assert_eq!(&buf.into_bytes(), &expected.bytes().collect::<Vec<_>>());
}

#[test]
fn test_resolve() {
    let transactions = r"type, client, tx, amount
deposit, 1, 1, 1.0
dispute, 1, 1,
deposit, 1, 2, 1.0
resolve, 1, 1,
resolve, 1, 2,
";

    let mut book = Book::new();
    assert!(book.try_resolve_all(transactions).is_ok());
    let buf = book.write();

    let expected = r"id,available,held,total,locked
1,2.0,0.0000,2.0,false
";

    assert_eq!(&buf.into_bytes(), &expected.bytes().collect::<Vec<_>>());
}

#[test]
fn test_negative() {
    let transactions = r"type, client, tx, amount
deposit, 1, 1, 1.0
withdrawal, 1, 2, 1.0
dispute, 1, 1,
";

    let mut book = Book::new();
    assert!(book.try_resolve_all(transactions).is_ok());
    let buf = book.write();

    let expected = r"id,available,held,total,locked
1,-1.0,1.0,0.0000,false
";

    assert_eq!(&buf.into_bytes(), &expected.bytes().collect::<Vec<_>>());
}

#[test]
fn test_chargeback() {
    let transactions = r"type, client, tx, amount
deposit, 1, 1, 1.0
dispute, 1, 1,
deposit, 1, 2, 1.0
deposit, 2, 3, 9_001_000.1
chargeback, 1, 1,
";

    let mut book = Book::new();
    assert!(book.try_resolve_all(transactions).is_ok());
    let buf = book.write();

    let expected = r"id,available,held,total,locked
1,1.0,0.0000,1.0,true
2,9001000.1,0.0000,9001000.1,false
";

    assert_eq!(&buf.into_bytes(), &expected.bytes().collect::<Vec<_>>());
}
