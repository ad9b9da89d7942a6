//! One client's balance state machine.

use vstd::prelude::*;

use crate::amount::{add_spec, can_add, can_sub, sub_spec, Amount};
use crate::amount::{lemma_add_value, lemma_neg_value};
use crate::txn_state::TxnState;
use crate::txn_status::TxnStatus;

verus! {

/// An individual's account, unique by `id`. Holds the funds currently at
/// the client's disposal (`available`), the funds frozen by open disputes
/// (`held`), their sum (`total`), and the one-way `locked` flag set by a
/// chargeback.
#[derive(Clone, Copy, Debug)]
pub struct Account {
    pub id: u16,
    pub available: Amount,
    pub held: Amount,
    pub total: Amount,
    pub locked: bool,
}

impl Account {
    /// Well-formedness: the three balances are representable and the books
    /// balance, `total == available + held`.
    pub open spec fn wf(self) -> bool {
        &&& self.available.inv()
        &&& self.held.inv()
        &&& self.total.inv()
        &&& self.total.value() == self.available.value() + self.held.value()
    }

    pub open spec fn new_spec(id: u16) -> Account {
        Account {
            id,
            available: Amount::zero_spec(),
            held: Amount::zero_spec(),
            total: Amount::zero_spec(),
            locked: false,
        }
    }

    /// Creates a new/empty account with the unique ID provided.
    pub fn new(id: u16) -> (r: Account)
        ensures
            r == Account::new_spec(id),
            r.wf(),
    {
        Account {
            id,
            available: Amount::zero(),
            held: Amount::zero(),
            total: Amount::zero(),
            locked: false,
        }
    }
}

/// What a deposit does: rejected on a locked account, otherwise `amount`
/// is credited to both `available` and `total`.
pub open spec fn deposit_spec(a: Account, amount: Amount) -> (bool, Account) {
    if a.locked {
        (false, a)
    } else {
        (
            true,
            Account {
                available: add_spec(a.available, amount),
                total: add_spec(a.total, amount),
                ..a
            },
        )
    }
}

/// A deposit's arithmetic stays representable.
pub open spec fn deposit_fits(a: Account, amount: Amount) -> bool {
    !a.locked ==> can_add(a.available, amount) && can_add(a.total, amount)
}

/// What a withdrawal does: rejected on a locked account or when
/// `available` is below `amount`, otherwise `amount` is debited from both
/// `available` and `total`.
pub open spec fn withdraw_spec(a: Account, amount: Amount) -> (bool, Account) {
    if a.locked || a.available.value() < amount.value() {
        (false, a)
    } else {
        (
            true,
            Account {
                available: sub_spec(a.available, amount),
                total: sub_spec(a.total, amount),
                ..a
            },
        )
    }
}

/// A withdrawal's arithmetic stays representable.
pub open spec fn withdraw_fits(a: Account, amount: Amount) -> bool {
    !a.locked && a.available.value() >= amount.value() ==> can_sub(a.available, amount) && can_sub(
        a.total,
        amount,
    )
}

/// What a dispute does. A no-op when the account is locked, when the
/// transaction is absent (never applied, evicted, or unknown), or when its
/// status is not `Healthy`. On success the entry becomes `Disputed` and the
/// entry's amount moves from `available` to `held`; `total` is unchanged.
pub open spec fn dispute_spec(a: Account, txn: Option<TxnState>) -> (bool, Account, Option<
    TxnState,
>) {
    if a.locked {
        (false, a, txn)
    } else {
        match txn {
            Option::None => (false, a, Option::None),
            Option::Some(st) => match st.status {
                TxnStatus::Healthy => (
                    (
                        true,
                        Account {
                            available: sub_spec(a.available, st.amount),
                            held: add_spec(a.held, st.amount),
                            ..a
                        },
                        Option::Some(TxnState { status: TxnStatus::Disputed, ..st }),
                    )
                ),
                _ => (false, a, Option::Some(st)),
            },
        }
    }
}

pub open spec fn dispute_fits(a: Account, txn: Option<TxnState>) -> bool {
    match txn {
        Option::Some(st) => !a.locked && st.status == TxnStatus::Healthy ==> can_sub(
            a.available,
            st.amount,
        ) && can_add(a.held, st.amount),
        Option::None => true,
    }
}

/// What a resolve does. A no-op when the account is locked, the
/// transaction is absent, or its status is not `Disputed`. On success the
/// entry becomes `Healthy` again and the entry's amount moves back from
/// `held` to `available`; `total` is unchanged.
pub open spec fn resolve_spec(a: Account, txn: Option<TxnState>) -> (bool, Account, Option<
    TxnState,
>) {
    if a.locked {
        (false, a, txn)
    } else {
        match txn {
            Option::None => (false, a, Option::None),
            Option::Some(st) => match st.status {
                TxnStatus::Disputed => (
                    (
                        true,
                        Account {
                            available: add_spec(a.available, st.amount),
                            held: sub_spec(a.held, st.amount),
                            ..a
                        },
                        Option::Some(TxnState { status: TxnStatus::Healthy, ..st }),
                    )
                ),
                _ => (false, a, Option::Some(st)),
            },
        }
    }
}

pub open spec fn resolve_fits(a: Account, txn: Option<TxnState>) -> bool {
    match txn {
        Option::Some(st) => !a.locked && st.status == TxnStatus::Disputed ==> can_add(
            a.available,
            st.amount,
        ) && can_sub(a.held, st.amount),
        Option::None => true,
    }
}

/// What a chargeback does. A no-op when the account is locked, the
/// transaction is absent, or its status is not `Disputed`. On success the
/// entry's amount leaves the account entirely (`held` and `total` drop by
/// it; `available` was already debited at dispute time) and the account is
/// permanently locked. The stored status field itself is not changed.
pub open spec fn chargeback_spec(a: Account, txn: Option<TxnState>) -> (bool, Account, Option<
    TxnState,
>) {
    if a.locked {
        (false, a, txn)
    } else {
        match txn {
            Option::None => (false, a, Option::None),
            Option::Some(st) => match st.status {
                TxnStatus::Disputed => (
                    (
                        true,
                        Account {
                            locked: true,
                            total: sub_spec(a.total, st.amount),
                            held: sub_spec(a.held, st.amount),
                            ..a
                        },
                        Option::Some(st),
                    )
                ),
                _ => (false, a, Option::Some(st)),
            },
        }
    }
}

pub open spec fn chargeback_fits(a: Account, txn: Option<TxnState>) -> bool {
    match txn {
        Option::Some(st) => !a.locked && st.status == TxnStatus::Disputed ==> can_sub(
            a.total,
            st.amount,
        ) && can_sub(a.held, st.amount),
        Option::None => true,
    }
}

impl Account {
    /// Fails if the account is locked.
    pub fn deposit(&mut self, amount: Amount) -> (ok: bool)
        requires
            old(self).wf(),
            amount.inv(),
            deposit_fits(*old(self), amount),
        ensures
            (ok, *final(self)) == deposit_spec(*old(self), amount),
            final(self).wf(),
            final(self).id == old(self).id,
            old(self).locked ==> !ok && *final(self) == *old(self),
    {
        if self.locked {
            return false;
        }
        self.available.add_assign(amount);
        self.total.add_assign(amount);
        true
    }

    /// Fails if the account is locked or if available funds are too low.
    pub fn withdraw(&mut self, amount: Amount) -> (ok: bool)
        requires
            old(self).wf(),
            amount.inv(),
            withdraw_fits(*old(self), amount),
        ensures
            (ok, *final(self)) == withdraw_spec(*old(self), amount),
            final(self).wf(),
            final(self).id == old(self).id,
            old(self).locked ==> !ok && *final(self) == *old(self),
    {
        if self.locked || self.available.lt(&amount) {
            return false;
        }
        self.available.sub_assign(amount);
        self.total.sub_assign(amount);
        true
    }

    /// Marks a transaction as disputed. If the transaction is too old, the
    /// account is already locked, the transaction was never applied, or the
    /// transaction is already disputed, then this will have no effect. The
    /// possibly-updated entry is handed back so the caller can store it.
    pub fn dispute(&mut self, txn: Option<TxnState>) -> (r: (bool, Option<TxnState>))
        requires
            old(self).wf(),
            txn matches Option::Some(st) ==> st.account == old(self).id && st.amount.inv(),
            dispute_fits(*old(self), txn),
        ensures
            (r.0, *final(self), r.1) == dispute_spec(*old(self), txn),
            final(self).wf(),
            final(self).id == old(self).id,
            old(self).locked ==> !r.0 && *final(self) == *old(self),
    {
        if self.locked {
            return (false, txn);
        }
        match txn {
            Option::None => (false, Option::None),
            Option::Some(st) => match st.status {
                TxnStatus::Healthy => {
                    self.available.sub_assign(st.amount);
                    self.held.add_assign(st.amount);
                    (true, Option::Some(TxnState { status: TxnStatus::Disputed, ..st }))
                },
                _ => (false, Option::Some(st)),
            },
        }
    }

    /// Marks a transaction as resolved. If the transaction is too old, the
    /// account is locked, the transaction was never applied, or the
    /// transaction is not currently disputed, then this will have no
    /// effect. The possibly-updated entry is handed back so the caller can
    /// store it.
    pub fn resolve(&mut self, txn: Option<TxnState>) -> (r: (bool, Option<TxnState>))
        requires
            old(self).wf(),
            txn matches Option::Some(st) ==> st.account == old(self).id && st.amount.inv(),
            resolve_fits(*old(self), txn),
        ensures
            (r.0, *final(self), r.1) == resolve_spec(*old(self), txn),
            final(self).wf(),
            final(self).id == old(self).id,
            old(self).locked ==> !r.0 && *final(self) == *old(self),
    {
        if self.locked {
            return (false, txn);
        }
        match txn {
            Option::None => (false, Option::None),
            Option::Some(st) => match st.status {
                TxnStatus::Disputed => {
                    self.available.add_assign(st.amount);
                    self.held.sub_assign(st.amount);
                    (true, Option::Some(TxnState { status: TxnStatus::Healthy, ..st }))
                },
                _ => (false, Option::Some(st)),
            },
        }
    }

    /// Marks a transaction as charged back. If the transaction is too old,
    /// the account is locked, the transaction was never applied, or the
    /// transaction is not currently disputed, then this will have no
    /// effect. Otherwise, the account is locked.
    pub fn chargeback(&mut self, txn: Option<TxnState>) -> (r: (bool, Option<TxnState>))
        requires
            old(self).wf(),
            txn matches Option::Some(st) ==> st.account == old(self).id && st.amount.inv(),
            chargeback_fits(*old(self), txn),
        ensures
            (r.0, *final(self), r.1) == chargeback_spec(*old(self), txn),
            final(self).wf(),
            final(self).id == old(self).id,
            old(self).locked ==> !r.0 && *final(self) == *old(self),
    {
        if self.locked {
            return (false, txn);
        }
        match txn {
            Option::None => (false, Option::None),
            Option::Some(st) => match st.status {
                TxnStatus::Disputed => {
                    self.locked = true;
                    self.total.sub_assign(st.amount);
                    self.held.sub_assign(st.amount);
                    (true, Option::Some(st))
                },
                _ => (false, Option::Some(st)),
            },
        }
    }
}

/// Law: every account operation keeps the books balanced; for every
/// well-formed account and every operation outcome,
/// `total == available + held` holds afterwards.
pub proof fn lemma_balance_invariant(a: Account, amount: Amount, txn: Option<TxnState>)
    requires
        a.wf(),
        amount.inv(),
        txn matches Option::Some(st) ==> st.amount.inv(),
        deposit_fits(a, amount),
        withdraw_fits(a, amount),
        dispute_fits(a, txn),
        resolve_fits(a, txn),
        chargeback_fits(a, txn),
    ensures
        deposit_spec(a, amount).1.wf(),
        withdraw_spec(a, amount).1.wf(),
        dispute_spec(a, txn).1.wf(),
        resolve_spec(a, txn).1.wf(),
        chargeback_spec(a, txn).1.wf(),
{
    if !a.locked {
        lemma_add_value(a.available, amount);
        lemma_add_value(a.total, amount);
        lemma_neg_value(amount);
        if a.available.value() >= amount.value() {
            lemma_add_value(a.available, amount.neg_spec());
            lemma_add_value(a.total, amount.neg_spec());
        }
        match txn {
            Option::Some(st) => {
                lemma_neg_value(st.amount);
                if st.status == TxnStatus::Healthy {
                    lemma_add_value(a.available, st.amount.neg_spec());
                    lemma_add_value(a.held, st.amount);
                }
                if st.status == TxnStatus::Disputed {
                    lemma_add_value(a.available, st.amount);
                    lemma_add_value(a.held, st.amount.neg_spec());
                    lemma_add_value(a.total, st.amount.neg_spec());
                }
            },
            Option::None => {},
        }
    }
}

/// Law: once `locked` is true, no operation changes any field of the
/// account.
pub proof fn lemma_locked_is_frozen(a: Account, amount: Amount, txn: Option<TxnState>)
    requires
        a.locked,
    ensures
        deposit_spec(a, amount) == (false, a),
        withdraw_spec(a, amount) == (false, a),
        dispute_spec(a, txn) == (false, a, txn),
        resolve_spec(a, txn) == (false, a, txn),
        chargeback_spec(a, txn) == (false, a, txn),
{
}

/// Law: disputing an already-disputed transaction is a no-op, and
/// resolving a transaction that is not currently disputed is a no-op.
pub proof fn lemma_dispute_resolve_idempotent(a: Account, st: TxnState)
    ensures
        st.status != TxnStatus::Healthy ==> dispute_spec(a, Option::Some(st)) == (
            false,
            a,
            Option::Some(st),
        ),
        st.status != TxnStatus::Disputed ==> resolve_spec(a, Option::Some(st)) == (
            false,
            a,
            Option::Some(st),
        ),
{
}

/// Law: a skipped transaction can never transition to `Disputed` via a
/// dispute record; its entry and the account are left exactly as they
/// were.
pub proof fn lemma_skipped_stays_skipped(a: Account, st: TxnState)
    requires
        st.status == TxnStatus::Skipped,
    ensures
        dispute_spec(a, Option::Some(st)) == (false, a, Option::Some(st)),
{
}

} // verus!
