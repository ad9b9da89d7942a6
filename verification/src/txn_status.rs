//! The status of a past transaction.

use vstd::prelude::*;

verus! {

/// The status of a past transaction. Normally `Healthy`, except while a
/// dispute is in flight (`Disputed`). `Skipped` marks a deposit or
/// withdrawal that failed its own validity check and therefore must never
/// be treated as a real, disputable transaction; it is terminal.
#[derive(Clone, Copy, Debug, PartialEq, Eq, Structural)]
pub enum TxnStatus {
    Healthy,
    Disputed,
    Skipped,
}

} // verus!
