//! Cached replay state of one deposit or withdrawal.

use vstd::prelude::*;

use crate::amount::Amount;
use crate::txn_status::TxnStatus;

verus! {

/// Cached state of a past transaction: the owning client, the signed
/// amount (positive credits available funds, negative debits them), and
/// the dispute status.
#[derive(Clone, Copy, Debug)]
pub struct TxnState {
    pub account: u16,
    pub amount: Amount,
    pub status: TxnStatus,
}

impl TxnState {
    /// A new, healthy transaction.
    pub fn new(account: u16, amount: Amount) -> (r: TxnState)
        ensures
            r == (TxnState { account, amount, status: TxnStatus::Healthy }),
    {
        TxnState { account, amount, status: TxnStatus::Healthy }
    }

    /// A transaction that was skipped because at the point that it was to
    /// be processed, validity checks failed.
    pub fn skipped(account: u16, amount: Amount) -> (r: TxnState)
        ensures
            r == (TxnState { account, amount, status: TxnStatus::Skipped }),
    {
        TxnState { account, amount, status: TxnStatus::Skipped }
    }
}

} // verus!
