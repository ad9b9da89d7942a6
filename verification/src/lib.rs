//! A ledger-replay library: an ordered stream of transaction records is
//! applied to a set of per-client accounts, producing final balances.
//!
//! The core pieces are the exact-decimal [`amount::Amount`] type, the
//! per-client [`account::Account`] state machine, the bounded,
//! recency-evicting [`history::TxnHistory`] cache of past transactions, and
//! the [`book::Book`] orchestrator that replays records and renders the
//! resulting account state.

pub mod account;
pub mod amount;
pub mod book;
pub mod history;
pub mod ledger;
pub mod record;
pub mod transaction;
pub mod txn_state;
pub mod txn_status;

pub use account::Account;
pub use amount::Amount;
pub use book::Book;
pub use history::TxnHistory;
pub use ledger::Ledger;
pub use record::Record;
pub use transaction::Transaction;
pub use txn_state::TxnState;
pub use txn_status::TxnStatus;
