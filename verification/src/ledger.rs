//! A finite, order-preserving sequence of transactions, decoded from
//! delimited ledger text.

use vstd::prelude::*;

use crate::amount::ParseError;
use crate::record::Record;
use crate::transaction::{txn_of, Transaction};
use vstd::string::StrSliceExecFns;

verus! {

/// A decimal digit.
pub open spec fn is_digit(c: char) -> bool {
    48 <= c as u32 <= 57
}

pub open spec fn digit_val(c: char) -> int {
    c as u32 - 48
}

pub open spec fn all_digits(s: Seq<char>) -> bool {
    forall|i: int| 0 <= i < s.len() ==> is_digit(#[trigger] s[i])
}

/// The number a digit sequence denotes.
pub open spec fn digits_val(s: Seq<char>) -> int
    decreases s.len(),
{
    if s.len() == 0 {
        0
    } else {
        digits_val(s.drop_last()) * 10 + digit_val(s.last())
    }
}

/// What unsigned-16-bit text means: one or more decimal digits denoting
/// at most 65535; anything else is rejected.
pub open spec fn spec_parse_u16(s: Seq<char>) -> Option<u16> {
    if s.len() > 0 && all_digits(s) && digits_val(s) <= 65535 {
        Option::Some(digits_val(s) as u16)
    } else {
        Option::None
    }
}

/// What unsigned-32-bit text means, in the same way.
pub open spec fn spec_parse_u32(s: Seq<char>) -> Option<u32> {
    if s.len() > 0 && all_digits(s) && digits_val(s) <= 4294967295 {
        Option::Some(digits_val(s) as u32)
    } else {
        Option::None
    }
}

pub proof fn lemma_digits_val_nonneg(s: Seq<char>)
    requires
        all_digits(s),
    ensures
        digits_val(s) >= 0,
    decreases s.len(),
{
    if s.len() > 0 {
        assert(forall|i: int| 0 <= i < s.drop_last().len() ==> s.drop_last()[i] == s[i]);
        lemma_digits_val_nonneg(s.drop_last());
    }
}

/// A digit string denotes at least what any of its prefixes denotes.
pub proof fn lemma_digits_val_prefix(s: Seq<char>, i: int)
    requires
        0 <= i <= s.len(),
        all_digits(s),
    ensures
        digits_val(s) >= digits_val(s.take(i)),
    decreases s.len() - i,
{
    assert(forall|j: int| 0 <= j < i ==> s.take(i)[j] == s[j]);
    if i < s.len() {
        lemma_digits_val_prefix(s, i + 1);
        assert(s.take(i + 1).drop_last() =~= s.take(i));
        assert(s.take(i + 1).last() == s[i]);
        assert(forall|j: int| 0 <= j < i ==> s.take(i)[j] == s[j]);
        lemma_digits_val_nonneg(s.take(i));
        assert(digits_val(s.take(i + 1)) == digits_val(s.take(i)) * 10 + digit_val(s[i]));
        assert(digits_val(s.take(i)) * 10 >= digits_val(s.take(i))) by (nonlinear_arith)
            requires
                digits_val(s.take(i)) >= 0,
        ;
    } else {
        assert(s.take(i) =~= s);
    }
}

/// Decodes decimal digit text as a 16-bit unsigned integer.
pub fn parse_u16(s: &str) -> (r: Option<u16>)
    ensures
        r == spec_parse_u16(s@),
{
    let n = s.unicode_len();
    if n == 0 {
        return None;
    }
    let mut acc: u32 = 0;
    let mut i: usize = 0;
    while i < n
        invariant
            n == s@.len(),
            0 <= i <= n,
            all_digits(s@.take(i as int)),
            acc == digits_val(s@.take(i as int)),
            acc <= 65535,
        decreases n - i,
    {
        let c = s.get_char(i);
        let u = c as u32;
        proof {
            assert(s@.take(i as int + 1).drop_last() =~= s@.take(i as int));
            assert(s@.take(i as int + 1).last() == s@[i as int]);
        }
        if u < 48 || u > 57 {
            proof {
                assert(!is_digit(s@[i as int]));
            }
            return None;
        }
        acc = acc * 10 + (u - 48);
        if acc > 65535 {
            proof {
                if all_digits(s@) {
                    lemma_digits_val_prefix(s@, i as int + 1);
                }
            }
            return None;
        }
        i = i + 1;
    }
    proof {
        assert(s@.take(n as int) =~= s@);
    }
    Some(acc as u16)
}

/// Decodes decimal digit text as a 32-bit unsigned integer.
pub fn parse_u32(s: &str) -> (r: Option<u32>)
    ensures
        r == spec_parse_u32(s@),
{
    let n = s.unicode_len();
    if n == 0 {
        return None;
    }
    let mut acc: u64 = 0;
    let mut i: usize = 0;
    while i < n
        invariant
            n == s@.len(),
            0 <= i <= n,
            all_digits(s@.take(i as int)),
            acc == digits_val(s@.take(i as int)),
            acc <= 4294967295,
        decreases n - i,
    {
        let c = s.get_char(i);
        let u = (c as u32) as u64;
        proof {
            assert(s@.take(i as int + 1).drop_last() =~= s@.take(i as int));
            assert(s@.take(i as int + 1).last() == s@[i as int]);
        }
        if u < 48 || u > 57 {
            proof {
                assert(!is_digit(s@[i as int]));
            }
            return None;
        }
        acc = acc * 10 + (u - 48);
        if acc > 4294967295 {
            proof {
                if all_digits(s@) {
                    lemma_digits_val_prefix(s@, i as int + 1);
                }
            }
            return None;
        }
        i = i + 1;
    }
    proof {
        assert(s@.take(n as int) =~= s@);
    }
    Some(acc as u32)
}

/// What delimited text splits into: the data rows (after the header
/// row), each a sequence of trimmed fields; `None` for text the reader
/// rejects.
pub uninterp spec fn csv_rows_of(s: Seq<char>) -> Option<Seq<Seq<Seq<char>>>>;

/// Relies on `csv::ReaderBuilder` and `csv::StringRecord`: splits
/// delimited text into data rows of whitespace-trimmed fields, after a
/// header row; a malformed row rejects the whole text.
#[verifier::external_body]
fn csv_data_rows(text: &str) -> (r: Option<Vec<Vec<String>>>)
    ensures
        match r {
            Option::Some(rows) => csv_rows_of(text@) == Option::Some(rows.deep_view()),
            Option::None => csv_rows_of(text@) is None,
        },
{
    let mut reader = csv::ReaderBuilder::new().trim(csv::Trim::All).from_reader(text.as_bytes());
    let mut rows: Vec<Vec<String>> = Vec::new();
    for result in reader.records() {
        match result {
            Ok(rec) => rows.push(rec.iter().map(|f| f.to_string()).collect()),
            Err(_) => return None,
        }
    }
    Some(rows)
}

/// What one data row decodes to: a transaction, or the first reason it
/// is rejected (field count, then client, then transaction id, then
/// kind/amount).
pub open spec fn row_txn(row: Seq<Seq<char>>) -> Result<Transaction, ParseError> {
    if row.len() != 4 {
        Result::Err(ParseError::BadRow)
    } else {
        match spec_parse_u16(row[1]) {
            Option::None => Result::Err(ParseError::BadClient),
            Option::Some(client) => match spec_parse_u32(row[2]) {
                Option::None => Result::Err(ParseError::BadTx),
                Option::Some(tx) => txn_of(row[0], client, tx, row[3]),
            },
        }
    }
}

/// What a sequence of data rows decodes to: the transactions in order,
/// or the first row's rejection.
pub open spec fn rows_txns(rows: Seq<Seq<Seq<char>>>) -> Result<Seq<Transaction>, ParseError>
    decreases rows.len(),
{
    if rows.len() == 0 {
        Result::Ok(Seq::empty())
    } else {
        match row_txn(rows[0]) {
            Result::Err(e) => Result::Err(e),
            Result::Ok(t) => match rows_txns(rows.drop_first()) {
                Result::Err(e) => Result::Err(e),
                Result::Ok(ts) => Result::Ok(seq![t] + ts),
            },
        }
    }
}

/// What ledger text decodes to.
pub open spec fn ledger_of(text: Seq<char>) -> Result<Seq<Transaction>, ParseError> {
    match csv_rows_of(text) {
        Option::None => Result::Err(ParseError::BadRow),
        Option::Some(rows) => rows_txns(rows),
    }
}

/// An ordered collection of transactions, decoded from delimited ledger
/// text.
pub struct Ledger {
    pub txns: Vec<Transaction>,
}

impl Ledger {
    /// Wraps already-decoded transactions as a ledger.
    pub fn from_transactions(txns: Vec<Transaction>) -> (r: Ledger)
        ensures
            r.txns@ == txns@,
    {
        Ledger { txns }
    }

    /// Decodes delimited ledger text: a header row, then one record per
    /// row with fields kind, client, transaction id, amount. Any
    /// malformed row rejects the whole text; there is no partial-success
    /// parsing.
    pub fn try_from_text(text: &str) -> (r: Result<Ledger, ParseError>)
        ensures
            match r {
                Result::Ok(l) => ledger_of(text@) == Result::Ok::<Seq<Transaction>, ParseError>(
                    l.txns@,
                ),
                Result::Err(e) => ledger_of(text@) == Result::Err::<Seq<Transaction>, ParseError>(
                    e,
                ),
            },
    {
        let rows = match csv_data_rows(text) {
            None => {
                return Err(ParseError::BadRow);
            },
            Some(rows) => rows,
        };
        let ghost rv = rows.deep_view();
        let mut txns: Vec<Transaction> = Vec::new();
        let n = rows.len();
        let mut i: usize = 0;
        proof {
            assert(rv.skip(0) =~= rv);
            assert(Seq::<Transaction>::empty() + rows_txns_ok(rv) =~= rows_txns_ok(rv));
        }
        while i < n
            invariant
                n == rows@.len(),
                rv == rows.deep_view(),
                csv_rows_of(text@) == Option::Some(rv),
                0 <= i <= n,
                match rows_txns(rv.skip(i as int)) {
                    Result::Ok(ts) => rows_txns(rv) == Result::Ok::<Seq<Transaction>, ParseError>(
                        txns@ + ts,
                    ),
                    Result::Err(e) => rows_txns(rv) == Result::Err::<Seq<Transaction>, ParseError>(
                        e,
                    ),
                },
            decreases n - i,
        {
            proof {
                assert(rv.skip(i as int).len() > 0);
                assert(rv.skip(i as int)[0] == rv[i as int]);
                assert(rv.skip(i as int).drop_first() =~= rv.skip(i as int + 1));
                assert(rv[i as int] == rows@[i as int].deep_view());
            }
            let row = &rows[i];
            match row_to_txn(row) {
                Err(e) => {
                    return Err(e);
                },
                Ok(t) => {
                    proof {
                        let rest = rows_txns(rv.skip(i as int + 1));
                        if rest is Ok {
                            let ts = rest->Ok_0;
                            assert(txns@ + (seq![t] + ts) =~= (txns@ + seq![t]) + ts);
                            assert(txns@.push(t) =~= txns@ + seq![t]);
                        }
                    }
                    txns.push(t);
                },
            }
            i = i + 1;
        }
        proof {
            assert(rv.skip(n as int) =~= Seq::<Seq<Seq<char>>>::empty());
            assert(txns@ + Seq::<Transaction>::empty() =~= txns@);
        }
        Ok(Ledger { txns })
    }
}

/// The transactions of a successful decode (meaningful when `rows_txns`
/// succeeds).
pub open spec fn rows_txns_ok(rows: Seq<Seq<Seq<char>>>) -> Seq<Transaction> {
    rows_txns(rows)->Ok_0
}

/// Decodes one data row into a transaction.
fn row_to_txn(row: &Vec<String>) -> (r: Result<Transaction, ParseError>)
    ensures
        r == row_txn(row.deep_view()),
{
    if row.len() != 4 {
        return Err(ParseError::BadRow);
    }
    let client = match parse_u16(row[1].as_str()) {
        None => {
            return Err(ParseError::BadClient);
        },
        Some(c) => c,
    };
    let tx = match parse_u32(row[2].as_str()) {
        None => {
            return Err(ParseError::BadTx);
        },
        Some(t) => t,
    };
    let rec = Record { ty: row[0].as_str().to_owned(), client, tx, amount: row[3].as_str().to_owned() };
    Transaction::try_new(rec)
}

} // verus!
