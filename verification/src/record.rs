//! One row of a ledger input, with the numeric fields already decoded.

use vstd::prelude::*;

verus! {

/// A row from a ledger input: the record kind as text, the client and
/// transaction identifiers, and the amount column as text (empty for the
/// dispute-related kinds, which carry no amount).
#[derive(Debug)]
pub struct Record {
    pub ty: String,
    pub client: u16,
    pub tx: u32,
    pub amount: String,
}

} // verus!
