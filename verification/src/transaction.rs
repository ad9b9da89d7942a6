//! Intermediate representation of a ledger record.

use vstd::prelude::*;

use crate::amount::{parsed_decimal, Amount, ParseError};
use crate::record::Record;

verus! {

/// Intermediate representation of a ledger record. This is either a
/// transaction (deposit/withdrawal) or a dispute-related record (dispute,
/// resolve, chargeback). The fields are the client id, the transaction
/// id, and (for deposit/withdrawal) the amount.
#[derive(Clone, Copy, Debug)]
pub enum Transaction {
    Deposit(u16, u32, Amount),
    Withdrawal(u16, u32, Amount),
    Dispute(u16, u32),
    Resolve(u16, u32),
    Chargeback(u16, u32),
}

/// The amount named by a successful decimal parse.
pub open spec fn spec_amount_of(p: Option<(i128, u32)>) -> Amount {
    match p {
        Option::Some((m, s)) => Amount { mantissa: m, scale: s },
        Option::None => Amount::zero_spec(),
    }
}

/// What a record with the given fields means: the transaction it decodes
/// to, or the reason it is rejected. Only deposit and withdrawal carry an
/// amount; the amount column of the other three kinds is ignored.
pub open spec fn txn_of(ty: Seq<char>, client: u16, tx: u32, amount: Seq<char>) -> Result<
    Transaction,
    ParseError,
> {
    if ty == "deposit"@ {
        if parsed_decimal(amount) is Some {
            Result::Ok(Transaction::Deposit(client, tx, spec_amount_of(parsed_decimal(amount))))
        } else {
            Result::Err(ParseError::BadAmount)
        }
    } else if ty == "withdrawal"@ {
        if parsed_decimal(amount) is Some {
            Result::Ok(Transaction::Withdrawal(client, tx, spec_amount_of(parsed_decimal(amount))))
        } else {
            Result::Err(ParseError::BadAmount)
        }
    } else if ty == "dispute"@ {
        Result::Ok(Transaction::Dispute(client, tx))
    } else if ty == "resolve"@ {
        Result::Ok(Transaction::Resolve(client, tx))
    } else if ty == "chargeback"@ {
        Result::Ok(Transaction::Chargeback(client, tx))
    } else {
        Result::Err(ParseError::UnknownKind)
    }
}

/// The record decodes to a transaction.
pub open spec fn record_wf(r: Record) -> bool {
    txn_of(r.ty@, r.client, r.tx, r.amount@) is Ok
}

/// The transaction a well-formed record decodes to.
pub open spec fn record_txn(r: Record) -> Transaction {
    txn_of(r.ty@, r.client, r.tx, r.amount@)->Ok_0
}

impl Transaction {
    /// Decodes a ledger record, reporting an unknown kind or unparsable
    /// amount text instead of producing a transaction.
    pub fn try_new(record: Record) -> (r: Result<Transaction, ParseError>)
        ensures
            r == txn_of(record.ty@, record.client, record.tx, record.amount@),
    {
        if string_is(&record.ty, "deposit") || string_is(&record.ty, "withdrawal") {
            match Amount::from_str(record.amount.as_str()) {
                Err(e) => Err(e),
                Ok(_) => Ok(Self::new(record)),
            }
        } else if string_is(&record.ty, "dispute") || string_is(&record.ty, "resolve")
            || string_is(&record.ty, "chargeback") {
            Ok(Self::new(record))
        } else {
            Err(ParseError::UnknownKind)
        }
    }

    /// Transforms a ledger record from its textual representation to the
    /// internal one; the record must be well-formed.
    pub fn new(record: Record) -> (t: Transaction)
        requires
            record_wf(record),
        ensures
            t == record_txn(record),
    {
        if string_is(&record.ty, "deposit") {
            match Amount::from_str(record.amount.as_str()) {
                Ok(a) => Transaction::Deposit(record.client, record.tx, a),
                Err(_) => unreached(),
            }
        } else if string_is(&record.ty, "withdrawal") {
            match Amount::from_str(record.amount.as_str()) {
                Ok(a) => Transaction::Withdrawal(record.client, record.tx, a),
                Err(_) => unreached(),
            }
        } else if string_is(&record.ty, "dispute") {
            Transaction::Dispute(record.client, record.tx)
        } else if string_is(&record.ty, "resolve") {
            Transaction::Resolve(record.client, record.tx)
        } else if string_is(&record.ty, "chargeback") {
            Transaction::Chargeback(record.client, record.tx)
        } else {
            unreached()
        }
    }
}

/// Whether `s` holds exactly the text `lit`.
fn string_is(s: &String, lit: &str) -> (r: bool)
    ensures
        r == (s@ == lit@),
{
    let other: String = lit.to_owned();
    *s == other
}

} // verus!
