//! The replay orchestrator: owns the full set of accounts and the
//! transaction history, and routes each incoming record to the right
//! account and history entry.

use vstd::prelude::*;
use vstd::string::StringExecFns;

use crate::account::{
    chargeback_fits, chargeback_spec, deposit_fits, deposit_spec, dispute_fits, dispute_spec,
    resolve_fits, resolve_spec, withdraw_fits, withdraw_spec, Account,
};
use crate::amount::{can_add_exec, can_sub_exec, display_spec, Amount, ParseError};
use crate::ledger::{ledger_of, Ledger};
use crate::history::{
    amounts_ok, lemma_put_preserves, lemma_touch_preserves, put_seq, seq_lookup, touch_seq,
    TxnHistory,
};
use crate::transaction::Transaction;
use crate::txn_state::TxnState;
use crate::txn_status::TxnStatus;

verus! {

/// The cache size for purposes of resolving dispute records. Increasing
/// this value trades off memory usage for correctness.
pub const TXN_CACHE_SIZE: usize = 1000000;

/// The account list is sorted by strictly ascending client id and every
/// account is well-formed.
pub open spec fn accounts_wf(accs: Seq<Account>) -> bool {
    &&& forall|i: int| 0 <= i < accs.len() ==> (#[trigger] accs[i]).wf()
    &&& forall|i: int, j: int| 0 <= i < j < accs.len() ==> accs[i].id < accs[j].id
}

/// Where `id` stands, or belongs, in the sorted account list: the first
/// position whose account id is at least `id`.
pub open spec fn insert_pos(accs: Seq<Account>, id: u16) -> int
    decreases accs.len(),
{
    if accs.len() == 0 {
        0
    } else if accs[0].id >= id {
        0
    } else {
        1 + insert_pos(accs.drop_first(), id)
    }
}

/// The account list after `id` is looked up or created, and the position
/// of `id`'s account in it.
pub open spec fn ensure_spec(accs: Seq<Account>, id: u16) -> (Seq<Account>, int) {
    let p = insert_pos(accs, id);
    if p < accs.len() && accs[p].id == id {
        (accs, p)
    } else {
        (accs.insert(p, Account::new_spec(id)), p)
    }
}

/// The account a record for client `id` operates on: the stored one, or
/// a fresh zero-balance account.
pub open spec fn target_account(accs: Seq<Account>, id: u16) -> Account {
    let (accs1, i) = ensure_spec(accs, id);
    accs1[i]
}

pub proof fn lemma_insert_pos(accs: Seq<Account>, id: u16)
    ensures
        0 <= insert_pos(accs, id) <= accs.len(),
        forall|j: int| 0 <= j < insert_pos(accs, id) ==> (#[trigger] accs[j]).id < id,
        insert_pos(accs, id) < accs.len() ==> accs[insert_pos(accs, id)].id >= id,
    decreases accs.len(),
{
    if accs.len() > 0 && accs[0].id < id {
        lemma_insert_pos(accs.drop_first(), id);
        let p = insert_pos(accs, id);
        assert forall|j: int| 0 <= j < p implies (#[trigger] accs[j]).id < id by {
            if j > 0 {
                assert(accs.drop_first()[j - 1] == accs[j]);
                assert(accs.drop_first()[j - 1].id < id);
            }
        }
        if p < accs.len() {
            assert(accs.drop_first()[p - 1] == accs[p]);
        }
    }
}

/// The position characterizes itself: any cut point with smaller ids
/// before it and a not-smaller id at it is `insert_pos`.
pub proof fn lemma_insert_pos_unique(accs: Seq<Account>, id: u16, i: int)
    requires
        0 <= i <= accs.len(),
        forall|j: int| 0 <= j < i ==> (#[trigger] accs[j]).id < id,
        i < accs.len() ==> accs[i].id >= id,
    ensures
        i == insert_pos(accs, id),
    decreases accs.len(),
{
    if accs.len() > 0 && accs[0].id < id {
        assert(forall|j: int|
            0 <= j < accs.drop_first().len() ==> accs.drop_first()[j] == accs[j + 1]);
        lemma_insert_pos_unique(accs.drop_first(), id, i - 1);
    }
}

/// Looking up or creating an account keeps the list sorted and
/// well-formed; the returned position holds the account for `id`.
pub proof fn lemma_ensure_spec(accs: Seq<Account>, id: u16)
    requires
        accounts_wf(accs),
    ensures
        ({
            let (accs1, i) = ensure_spec(accs, id);
            &&& accounts_wf(accs1)
            &&& 0 <= i < accs1.len()
            &&& accs1[i].id == id
            &&& accs1[i].wf()
            &&& accs.len() <= accs1.len() <= accs.len() + 1
        }),
{
    lemma_insert_pos(accs, id);
    let p = insert_pos(accs, id);
    if p < accs.len() && accs[p].id == id {
    } else {
        let accs1 = accs.insert(p, Account::new_spec(id));
        assert(forall|j: int| 0 <= j < p ==> accs1[j] == accs[j]);
        assert(forall|j: int| p < j < accs1.len() ==> accs1[j] == accs[j - 1]);
        assert(accs1[p] == Account::new_spec(id));
        assert(Account::new_spec(id).wf());
        assert forall|k: int| 0 <= k < accs1.len() implies (#[trigger] accs1[k]).wf() by {
            if k < p {
                assert(accs1[k] == accs[k]);
            } else if k > p {
                assert(accs1[k] == accs[k - 1]);
            }
        }
        assert forall|i: int, j: int| 0 <= i < j < accs1.len() implies accs1[i].id < accs1[j].id by {
            if i < p && j == p {
                assert(accs1[i] == accs[i]);
            } else if i == p && j > p {
                assert(accs1[j] == accs[j - 1]);
                assert(accs[j - 1].id >= id);
                assert(accs[j - 1].id != id || j - 1 != p);
                if accs[j - 1].id == id {
                    if j - 1 > p {
                        assert(accs[p].id < accs[j - 1].id);
                        assert(accs[p].id < id);
                        assert(false);
                    }
                }
            }
        }
    }
}

/// Looks up the account for `id` in the sorted list, creating it in
/// place when absent, and returns its position.
fn ensure_account(accounts: &mut Vec<Account>, id: u16) -> (i: usize)
    requires
        accounts_wf(old(accounts)@),
    ensures
        (final(accounts)@, i as int) == ensure_spec(old(accounts)@, id),
        accounts_wf(final(accounts)@),
        i < final(accounts)@.len(),
        final(accounts)@[i as int].id == id,
{
    proof {
        lemma_ensure_spec(old(accounts)@, id);
    }
    let ghost orig = accounts@;
    let n = accounts.len();
    let mut i: usize = 0;
    while i < n && accounts[i].id < id
        invariant
            accounts@ == orig,
            n == orig.len(),
            0 <= i <= n,
            forall|j: int| 0 <= j < i ==> (#[trigger] orig[j]).id < id,
        decreases n - i,
    {
        i = i + 1;
    }
    proof {
        lemma_insert_pos_unique(orig, id, i as int);
    }
    if i < n && accounts[i].id == id {
        return i;
    }
    accounts.insert(i, Account::new(id));
    i
}

/// The dispute-related argument handed to an account operation: the
/// looked-up history entry, but only when it belongs to the named client.
pub open spec fn entry_for(looked: Option<TxnState>, client: u16) -> Option<TxnState> {
    match looked {
        Option::Some(st) => if st.account == client {
            Option::Some(st)
        } else {
            Option::None
        },
        Option::None => Option::None,
    }
}

/// The history entry recorded for a processed deposit or withdrawal:
/// always recorded, `Healthy` on success and `Skipped` on failure, with
/// the signed amount (withdrawals store the negated amount, so later
/// disputes uniformly undo a credit).
pub open spec fn recorded_state(client: u16, amount: Amount, ok: bool) -> TxnState {
    TxnState {
        account: client,
        amount,
        status: if ok {
            TxnStatus::Healthy
        } else {
            TxnStatus::Skipped
        },
    }
}

/// One replay step: how a single transaction record transforms the
/// account list and the history entries.
pub open spec fn step(
    accs: Seq<Account>,
    cache: Seq<(u32, TxnState)>,
    cap: nat,
    t: Transaction,
) -> (Seq<Account>, Seq<(u32, TxnState)>) {
    match t {
        Transaction::Deposit(client, tx, amt) => {
            let (accs1, i) = ensure_spec(accs, client);
            let (ok, a2) = deposit_spec(accs1[i], amt);
            (accs1.update(i, a2), put_seq(cache, cap, tx, recorded_state(client, amt, ok)))
        },
        Transaction::Withdrawal(client, tx, amt) => {
            let (accs1, i) = ensure_spec(accs, client);
            let (ok, a2) = withdraw_spec(accs1[i], amt);
            (
                accs1.update(i, a2),
                put_seq(cache, cap, tx, recorded_state(client, amt.neg_spec(), ok)),
            )
        },
        Transaction::Dispute(client, tx) => {
            let arg = entry_for(seq_lookup(cache, tx), client);
            let cache1 = touch_seq(cache, tx);
            let (accs1, i) = ensure_spec(accs, client);
            let (ok, a2, st2) = dispute_spec(accs1[i], arg);
            let cache2 = match st2 {
                Option::Some(st) => put_seq(cache1, cap, tx, st),
                Option::None => cache1,
            };
            (accs1.update(i, a2), cache2)
        },
        Transaction::Resolve(client, tx) => {
            let arg = entry_for(seq_lookup(cache, tx), client);
            let cache1 = touch_seq(cache, tx);
            let (accs1, i) = ensure_spec(accs, client);
            let (ok, a2, st2) = resolve_spec(accs1[i], arg);
            let cache2 = match st2 {
                Option::Some(st) => put_seq(cache1, cap, tx, st),
                Option::None => cache1,
            };
            (accs1.update(i, a2), cache2)
        },
        Transaction::Chargeback(client, tx) => {
            let arg = entry_for(seq_lookup(cache, tx), client);
            let cache1 = touch_seq(cache, tx);
            let (accs1, i) = ensure_spec(accs, client);
            let (ok, a2, st2) = chargeback_spec(accs1[i], arg);
            let cache2 = match st2 {
                Option::Some(st) => put_seq(cache1, cap, tx, st),
                Option::None => cache1,
            };
            (accs1.update(i, a2), cache2)
        },
    }
}

/// The arithmetic of one replay step stays representable.
pub open spec fn step_fits(accs: Seq<Account>, cache: Seq<(u32, TxnState)>, t: Transaction) -> bool {
    match t {
        Transaction::Deposit(client, tx, amt) => amt.inv() && deposit_fits(
            target_account(accs, client),
            amt,
        ),
        Transaction::Withdrawal(client, tx, amt) => amt.inv() && withdraw_fits(
            target_account(accs, client),
            amt,
        ),
        Transaction::Dispute(client, tx) => dispute_fits(
            target_account(accs, client),
            entry_for(seq_lookup(cache, tx), client),
        ),
        Transaction::Resolve(client, tx) => resolve_fits(
            target_account(accs, client),
            entry_for(seq_lookup(cache, tx), client),
        ),
        Transaction::Chargeback(client, tx) => chargeback_fits(
            target_account(accs, client),
            entry_for(seq_lookup(cache, tx), client),
        ),
    }
}

/// A representation of accounts state. Can resolve transactions and
/// ledgers, and render the accounts state in delimited text form.
pub struct Book {
    pub accounts: Vec<Account>,
    pub tx_cache: TxnHistory,
}

impl Book {
    pub open spec fn wf(self) -> bool {
        &&& accounts_wf(self.accounts@)
        &&& self.tx_cache.wf()
    }

    /// A new Book with default transaction-cache size.
    pub fn new() -> (r: Book)
        ensures
            r.wf(),
            r.accounts@ == Seq::<Account>::empty(),
            r.tx_cache.entries() == Seq::<(u32, TxnState)>::empty(),
            r.tx_cache.capacity() == TXN_CACHE_SIZE as nat,
    {
        Book { accounts: Vec::new(), tx_cache: TxnHistory::new(TXN_CACHE_SIZE) }
    }

    /// A new Book whose transaction cache holds at most `cap` entries.
    pub fn with_capacity(cap: usize) -> (r: Book)
        requires
            cap >= 1,
        ensures
            r.wf(),
            r.accounts@ == Seq::<Account>::empty(),
            r.tx_cache.entries() == Seq::<(u32, TxnState)>::empty(),
            r.tx_cache.capacity() == cap as nat,
    {
        Book { accounts: Vec::new(), tx_cache: TxnHistory::new(cap) }
    }

    /// Resolves a single transaction record (including dispute-related
    /// records). Deposits *and* withdrawals are cached and can be later
    /// disputed. A record that cannot be applied (locked account,
    /// insufficient funds, unknown or conflicting history entry, or a
    /// history entry owned by another client) is absorbed as a no-op on
    /// the account; the replay never aborts because of one bad record.
    #[verifier::rlimit(100)]
    pub fn resolve(&mut self, transaction: Transaction)
        requires
            old(self).wf(),
            step_fits(old(self).accounts@, old(self).tx_cache.entries(), transaction),
        ensures
            final(self).wf(),
            (final(self).accounts@, final(self).tx_cache.entries()) == step(
                old(self).accounts@,
                old(self).tx_cache.entries(),
                old(self).tx_cache.capacity(),
                transaction,
            ),
            final(self).tx_cache.capacity() == old(self).tx_cache.capacity(),
    {
        proof {
            lemma_ensure_spec(self.accounts@, transaction_client(transaction));
        }
        match transaction {
            Transaction::Deposit(client, tx, amt) => {
                let i = ensure_account(&mut self.accounts, client);
                let mut a = self.accounts[i];
                let ok = a.deposit(amt);
                self.accounts[i] = a;
                let st = if ok {
                    TxnState::new(client, amt)
                } else {
                    TxnState::skipped(client, amt)
                };
                proof {
                    lemma_put_preserves(
                        self.tx_cache.entries(),
                        self.tx_cache.capacity(),
                        tx,
                        st,
                    );
                }
                self.tx_cache.record(tx, st);
            },
            Transaction::Withdrawal(client, tx, amt) => {
                let i = ensure_account(&mut self.accounts, client);
                let mut a = self.accounts[i];
                let ok = a.withdraw(amt);
                self.accounts[i] = a;
                let neg = amt.neg();
                let st = if ok {
                    TxnState::new(client, neg)
                } else {
                    TxnState::skipped(client, neg)
                };
                proof {
                    lemma_put_preserves(
                        self.tx_cache.entries(),
                        self.tx_cache.capacity(),
                        tx,
                        st,
                    );
                }
                self.tx_cache.record(tx, st);
            },
            Transaction::Dispute(client, tx) => {
                proof {
                    lemma_entry_amount_ok(self.tx_cache.entries(), tx);
                    lemma_touch_preserves(self.tx_cache.entries(), tx);
                }
                let looked = self.tx_cache.lookup(tx);
                let i = ensure_account(&mut self.accounts, client);
                let arg = entry_argument(looked, client);
                let mut a = self.accounts[i];
                let r = a.dispute(arg);
                self.accounts[i] = a;
                if let Some(st) = r.1 {
                    proof {
                        lemma_put_preserves(
                            self.tx_cache.entries(),
                            self.tx_cache.capacity(),
                            tx,
                            st,
                        );
                    }
                    self.tx_cache.record(tx, st);
                }
            },
            Transaction::Resolve(client, tx) => {
                proof {
                    lemma_entry_amount_ok(self.tx_cache.entries(), tx);
                    lemma_touch_preserves(self.tx_cache.entries(), tx);
                }
                let looked = self.tx_cache.lookup(tx);
                let i = ensure_account(&mut self.accounts, client);
                let arg = entry_argument(looked, client);
                let mut a = self.accounts[i];
                let r = a.resolve(arg);
                self.accounts[i] = a;
                if let Some(st) = r.1 {
                    proof {
                        lemma_put_preserves(
                            self.tx_cache.entries(),
                            self.tx_cache.capacity(),
                            tx,
                            st,
                        );
                    }
                    self.tx_cache.record(tx, st);
                }
            },
            Transaction::Chargeback(client, tx) => {
                proof {
                    lemma_entry_amount_ok(self.tx_cache.entries(), tx);
                    lemma_touch_preserves(self.tx_cache.entries(), tx);
                }
                let looked = self.tx_cache.lookup(tx);
                let i = ensure_account(&mut self.accounts, client);
                let arg = entry_argument(looked, client);
                let mut a = self.accounts[i];
                let r = a.chargeback(arg);
                self.accounts[i] = a;
                if let Some(st) = r.1 {
                    proof {
                        lemma_put_preserves(
                            self.tx_cache.entries(),
                            self.tx_cache.capacity(),
                            tx,
                            st,
                        );
                    }
                    self.tx_cache.record(tx, st);
                }
            },
        }
    }
}

/// The client id a transaction names.
pub open spec fn transaction_client(t: Transaction) -> u16 {
    match t {
        Transaction::Deposit(client, tx, amt) => client,
        Transaction::Withdrawal(client, tx, amt) => client,
        Transaction::Dispute(client, tx) => client,
        Transaction::Resolve(client, tx) => client,
        Transaction::Chargeback(client, tx) => client,
    }
}

/// Keeps only a history entry owned by the named client.
fn entry_argument(looked: Option<TxnState>, client: u16) -> (r: Option<TxnState>)
    ensures
        r == entry_for(looked, client),
{
    match looked {
        Some(st) => if st.account == client {
            Some(st)
        } else {
            None
        },
        None => None,
    }
}

/// Any entry stored in a well-formed history carries a representable
/// amount.
proof fn lemma_entry_amount_ok(s: Seq<(u32, TxnState)>, tx: u32)
    requires
        amounts_ok(s),
    ensures
        seq_lookup(s, tx) matches Option::Some(st) ==> st.amount.inv(),
{
}

/// The state after a whole sequence of records is replayed, in order.
pub open spec fn replay(
    accs: Seq<Account>,
    cache: Seq<(u32, TxnState)>,
    cap: nat,
    ts: Seq<Transaction>,
) -> (Seq<Account>, Seq<(u32, TxnState)>)
    decreases ts.len(),
{
    if ts.len() == 0 {
        (accs, cache)
    } else {
        let s1 = step(accs, cache, cap, ts[0]);
        replay(s1.0, s1.1, cap, ts.drop_first())
    }
}

/// How many leading records replay before one whose arithmetic does not
/// fit.
pub open spec fn fit_len(
    accs: Seq<Account>,
    cache: Seq<(u32, TxnState)>,
    cap: nat,
    ts: Seq<Transaction>,
) -> int
    decreases ts.len(),
{
    if ts.len() == 0 {
        0
    } else if !step_fits(accs, cache, ts[0]) {
        0
    } else {
        let s1 = step(accs, cache, cap, ts[0]);
        1 + fit_len(s1.0, s1.1, cap, ts.drop_first())
    }
}

/// The whole sequence replays with representable arithmetic.
pub open spec fn replay_fits(
    accs: Seq<Account>,
    cache: Seq<(u32, TxnState)>,
    cap: nat,
    ts: Seq<Transaction>,
) -> bool {
    fit_len(accs, cache, cap, ts) == ts.len()
}

/// Extending a replayed prefix by one record steps its final state once.
proof fn lemma_replay_snoc(
    accs: Seq<Account>,
    cache: Seq<(u32, TxnState)>,
    cap: nat,
    ts: Seq<Transaction>,
    i: int,
)
    requires
        0 <= i < ts.len(),
    ensures
        replay(accs, cache, cap, ts.take(i + 1)) == ({
            let s = replay(accs, cache, cap, ts.take(i));
            step(s.0, s.1, cap, ts[i])
        }),
    decreases i,
{
    if i == 0 {
        reveal_with_fuel(replay, 3);
        assert(ts.take(0) =~= Seq::<Transaction>::empty());
        assert(ts.take(1)[0] == ts[0]);
        assert(ts.take(1).drop_first() =~= Seq::<Transaction>::empty());
    } else {
        let s0 = step(accs, cache, cap, ts[0]);
        lemma_replay_snoc(s0.0, s0.1, cap, ts.drop_first(), i - 1);
        assert(ts.take(i + 1)[0] == ts[0]);
        assert(ts.take(i + 1).drop_first() =~= ts.drop_first().take(i));
        assert(ts.take(i)[0] == ts[0]);
        assert(ts.take(i).drop_first() =~= ts.drop_first().take(i - 1));
        assert(ts.drop_first()[i - 1] == ts[i]);
    }
}

impl Book {
    /// The account a record for `id` would operate on: the stored
    /// account, or a fresh one.
    fn target(&self, id: u16) -> (a: Account)
        requires
            accounts_wf(self.accounts@),
        ensures
            a == target_account(self.accounts@, id),
            a.wf(),
    {
        proof {
            lemma_ensure_spec(self.accounts@, id);
        }
        let n = self.accounts.len();
        let mut i: usize = 0;
        while i < n && self.accounts[i].id < id
            invariant
                accounts_wf(self.accounts@),
                n == self.accounts@.len(),
                0 <= i <= n,
                forall|j: int| 0 <= j < i ==> (#[trigger] self.accounts@[j]).id < id,
            decreases n - i,
        {
            i = i + 1;
        }
        proof {
            lemma_insert_pos_unique(self.accounts@, id, i as int);
        }
        if i < n {
            let a = self.accounts[i];
            if a.id == id {
                return a;
            }
        }
        proof {
            let p = insert_pos(self.accounts@, id);
            assert(self.accounts@.insert(p, Account::new_spec(id))[p] == Account::new_spec(id));
        }
        Account::new(id)
    }

    /// Decides at run time whether one record's arithmetic stays
    /// representable in the current state.
    pub fn step_fits_exec(&self, t: &Transaction) -> (b: bool)
        requires
            self.wf(),
        ensures
            b == step_fits(self.accounts@, self.tx_cache.entries(), *t),
    {
        match t {
            Transaction::Deposit(client, tx, amt) => {
                if !amt.check() {
                    return false;
                }
                let a = self.target(*client);
                if a.locked {
                    true
                } else {
                    can_add_exec(&a.available, amt) && can_add_exec(&a.total, amt)
                }
            },
            Transaction::Withdrawal(client, tx, amt) => {
                if !amt.check() {
                    return false;
                }
                let a = self.target(*client);
                if a.locked {
                    true
                } else if a.available.lt(amt) {
                    true
                } else {
                    can_sub_exec(&a.available, amt) && can_sub_exec(&a.total, amt)
                }
            },
            Transaction::Dispute(client, tx) => {
                proof {
                    lemma_entry_amount_ok(self.tx_cache.entries(), *tx);
                }
                let looked = self.tx_cache.peek(*tx);
                let arg = entry_argument(looked, *client);
                let a = self.target(*client);
                match arg {
                    Some(st) => {
                        if a.locked || !matches!(st.status, TxnStatus::Healthy) {
                            true
                        } else {
                            can_sub_exec(&a.available, &st.amount) && can_add_exec(
                                &a.held,
                                &st.amount,
                            )
                        }
                    },
                    None => true,
                }
            },
            Transaction::Resolve(client, tx) => {
                proof {
                    lemma_entry_amount_ok(self.tx_cache.entries(), *tx);
                }
                let looked = self.tx_cache.peek(*tx);
                let arg = entry_argument(looked, *client);
                let a = self.target(*client);
                match arg {
                    Some(st) => {
                        if a.locked || !matches!(st.status, TxnStatus::Disputed) {
                            true
                        } else {
                            can_add_exec(&a.available, &st.amount) && can_sub_exec(
                                &a.held,
                                &st.amount,
                            )
                        }
                    },
                    None => true,
                }
            },
            Transaction::Chargeback(client, tx) => {
                proof {
                    lemma_entry_amount_ok(self.tx_cache.entries(), *tx);
                }
                let looked = self.tx_cache.peek(*tx);
                let arg = entry_argument(looked, *client);
                let a = self.target(*client);
                match arg {
                    Some(st) => {
                        if a.locked || !matches!(st.status, TxnStatus::Disputed) {
                            true
                        } else {
                            can_sub_exec(&a.total, &st.amount) && can_sub_exec(
                                &a.held,
                                &st.amount,
                            )
                        }
                    },
                    None => true,
                }
            },
        }
    }

    /// Resolves all the transactions from the provided ledger, in input
    /// order.
    pub fn resolve_all(&mut self, ledger: Ledger)
        requires
            old(self).wf(),
            replay_fits(
                old(self).accounts@,
                old(self).tx_cache.entries(),
                old(self).tx_cache.capacity(),
                ledger.txns@,
            ),
        ensures
            final(self).wf(),
            (final(self).accounts@, final(self).tx_cache.entries()) == replay(
                old(self).accounts@,
                old(self).tx_cache.entries(),
                old(self).tx_cache.capacity(),
                ledger.txns@,
            ),
            final(self).tx_cache.capacity() == old(self).tx_cache.capacity(),
    {
        let ghost cap = self.tx_cache.capacity();
        let ghost ts = ledger.txns@;
        let ghost whole = replay(self.accounts@, self.tx_cache.entries(), cap, ts);
        let n = ledger.txns.len();
        let mut i: usize = 0;
        proof {
            assert(ts.skip(0) =~= ts);
        }
        while i < n
            invariant
                self.wf(),
                n == ts.len(),
                0 <= i <= n,
                self.tx_cache.capacity() == cap,
                replay(self.accounts@, self.tx_cache.entries(), cap, ts.skip(i as int)) == whole,
                fit_len(self.accounts@, self.tx_cache.entries(), cap, ts.skip(i as int)) == n - i,
                ts == ledger.txns@,
            decreases n - i,
        {
            let t = ledger.txns[i];
            proof {
                assert(ts.skip(i as int)[0] == ts[i as int]);
                assert(ts.skip(i as int).drop_first() =~= ts.skip(i as int + 1));
            }
            self.resolve(t);
            i = i + 1;
        }
        proof {
            assert(ts.skip(n as int) =~= Seq::<Transaction>::empty());
        }
    }
}

impl Default for Book {
    /// A new Book with default transaction-cache size.
    fn default() -> (r: Book)
        ensures
            r.wf(),
            r.accounts@ == Seq::<Account>::empty(),
            r.tx_cache.entries() == Seq::<(u32, TxnState)>::empty(),
            r.tx_cache.capacity() == TXN_CACHE_SIZE as nat,
    {
        Book::new()
    }
}

/// Why a replay run aborted: the input text could not be decoded, or a
/// record's arithmetic left the representable range.
#[derive(Clone, Copy, Debug, PartialEq, Eq, Structural)]
pub enum ReplayError {
    Parse(ParseError),
    Overflow,
}

impl Book {
    /// Resolves all the transactions from the provided ledger text.
    /// Fails without touching any state if the text is malformed; fails
    /// after replaying the longest representable prefix if a record's
    /// arithmetic overflows.
    pub fn try_resolve_all(&mut self, text: &str) -> (r: Result<(), ReplayError>)
        requires
            old(self).wf(),
        ensures
            final(self).wf(),
            final(self).tx_cache.capacity() == old(self).tx_cache.capacity(),
            match ledger_of(text@) {
                Result::Err(e) => r == Result::Err::<(), ReplayError>(ReplayError::Parse(e))
                    && final(self).accounts@ == old(self).accounts@
                    && final(self).tx_cache.entries() == old(self).tx_cache.entries(),
                Result::Ok(ts) => ({
                    let m = fit_len(
                        old(self).accounts@,
                        old(self).tx_cache.entries(),
                        old(self).tx_cache.capacity(),
                        ts,
                    );
                    &&& (final(self).accounts@, final(self).tx_cache.entries()) == replay(
                        old(self).accounts@,
                        old(self).tx_cache.entries(),
                        old(self).tx_cache.capacity(),
                        ts.take(m),
                    )
                    &&& (m == ts.len() ==> r == Result::Ok::<(), ReplayError>(()))
                    &&& (m < ts.len() ==> r == Result::Err::<(), ReplayError>(
                        ReplayError::Overflow,
                    ))
                }),
            },
    {
        let ledger = match Ledger::try_from_text(text) {
            Err(e) => {
                return Err(ReplayError::Parse(e));
            },
            Ok(l) => l,
        };
        let ghost cap = self.tx_cache.capacity();
        let ghost ts = ledger.txns@;
        let ghost init_accs = self.accounts@;
        let ghost init_cache = self.tx_cache.entries();
        let n = ledger.txns.len();
        let mut i: usize = 0;
        proof {
            assert(ts.skip(0) =~= ts);
            assert(ts.take(0) =~= Seq::<Transaction>::empty());
        }
        while i < n
            invariant
                self.wf(),
                n == ts.len(),
                0 <= i <= n,
                self.tx_cache.capacity() == cap,
                ts == ledger.txns@,
                cap == old(self).tx_cache.capacity(),
                init_accs == old(self).accounts@,
                init_cache == old(self).tx_cache.entries(),
                ledger_of(text@) == Result::Ok::<Seq<Transaction>, ParseError>(ts),
                (self.accounts@, self.tx_cache.entries()) == replay(
                    init_accs,
                    init_cache,
                    cap,
                    ts.take(i as int),
                ),
                fit_len(init_accs, init_cache, cap, ts) == i + fit_len(
                    self.accounts@,
                    self.tx_cache.entries(),
                    cap,
                    ts.skip(i as int),
                ),
            decreases n - i,
        {
            let t = ledger.txns[i];
            proof {
                assert(ts.skip(i as int)[0] == ts[i as int]);
                assert(ts.skip(i as int).drop_first() =~= ts.skip(i as int + 1));
            }
            if !self.step_fits_exec(&t) {
                proof {
                    assert(fit_len(
                        self.accounts@,
                        self.tx_cache.entries(),
                        cap,
                        ts.skip(i as int),
                    ) == 0);
                }
                return Err(ReplayError::Overflow);
            }
            proof {
                lemma_replay_snoc(init_accs, init_cache, cap, ts, i as int);
            }
            self.resolve(t);
            i = i + 1;
        }
        proof {
            assert(ts.skip(n as int) =~= Seq::<Transaction>::empty());
            assert(ts.take(n as int) =~= ts);
        }
        Ok(())
    }
}

/// The decimal digit character for `d`.
pub open spec fn digit_char(d: nat) -> char {
    ((48 + d) as u8) as char
}

/// The canonical decimal digits of `n`: no sign, no leading zeros.
pub open spec fn spec_nat_digits(n: nat) -> Seq<char>
    decreases n,
{
    if n < 10 {
        seq![digit_char(n)]
    } else {
        spec_nat_digits(n / 10) + seq![digit_char(n % 10)]
    }
}

/// Relies on `u16`'s `Display` implementation through `to_string`: the
/// canonical decimal digits of the number.
#[verifier::external_body]
fn u16_to_string(n: u16) -> (s: String)
    ensures
        s@ == spec_nat_digits(n as nat),
{
    n.to_string()
}

/// One output row: client id, available, held, total and the lock flag,
/// comma-separated.
pub open spec fn render_account(a: Account) -> Seq<char> {
    spec_nat_digits(a.id as nat) + ","@ + display_spec(a.available) + ","@ + display_spec(a.held)
        + ","@ + display_spec(a.total) + ","@ + (if a.locked {
        "true"@
    } else {
        "false"@
    }) + "\n"@
}

pub open spec fn render_accounts(accs: Seq<Account>) -> Seq<char>
    decreases accs.len(),
{
    if accs.len() == 0 {
        Seq::empty()
    } else {
        render_account(accs[0]) + render_accounts(accs.drop_first())
    }
}

/// The whole report: a header row, then one row per account in
/// ascending client id order.
pub open spec fn render_spec(accs: Seq<Account>) -> Seq<char> {
    "id,available,held,total,locked\n"@ + render_accounts(accs)
}

proof fn lemma_render_snoc(accs: Seq<Account>, i: int)
    requires
        0 <= i < accs.len(),
    ensures
        render_accounts(accs.take(i + 1)) == render_accounts(accs.take(i)) + render_account(
            accs[i],
        ),
    decreases i,
{
    if i == 0 {
        reveal_with_fuel(render_accounts, 3);
        assert(accs.take(0) =~= Seq::<Account>::empty());
        assert(accs.take(1)[0] == accs[0]);
        assert(accs.take(1).drop_first() =~= Seq::<Account>::empty());
        assert(render_accounts(accs.take(1)) == render_account(accs[0]) + Seq::<char>::empty());
        assert(render_account(accs[0]) + Seq::<char>::empty() =~= render_account(accs[0]));
        assert(Seq::<char>::empty() + render_account(accs[0]) =~= render_account(accs[0]));
    } else {
        lemma_render_snoc(accs.drop_first(), i - 1);
        assert(accs.take(i + 1)[0] == accs[0]);
        assert(accs.take(i + 1).drop_first() =~= accs.drop_first().take(i));
        assert(accs.take(i)[0] == accs[0]);
        assert(accs.take(i).drop_first() =~= accs.drop_first().take(i - 1));
        assert(accs.drop_first()[i - 1] == accs[i]);
        assert(render_account(accs[0]) + (render_accounts(accs.drop_first().take(i - 1))
            + render_account(accs[i])) =~= (render_account(accs[0]) + render_accounts(
            accs.drop_first().take(i - 1),
        )) + render_account(accs[i]));
    }
}

impl Book {
    /// Renders the internal account state as delimited text, one row per
    /// account, ordered by ascending client id, amounts displayed with
    /// four-fractional-digit rounding.
    pub fn write(&self) -> (out: String)
        requires
            self.wf(),
        ensures
            out@ == render_spec(self.accounts@),
    {
        let mut out: String = "id,available,held,total,locked\n".to_owned();
        let ghost header = out@;
        let n = self.accounts.len();
        let mut i: usize = 0;
        proof {
            assert(self.accounts@.take(0) =~= Seq::<Account>::empty());
            assert(out@ + Seq::<char>::empty() =~= out@);
        }
        while i < n
            invariant
                self.wf(),
                n == self.accounts@.len(),
                0 <= i <= n,
                header == "id,available,held,total,locked\n"@,
                out@ == header + render_accounts(self.accounts@.take(i as int)),
            decreases n - i,
        {
            let a = self.accounts[i];
            let ghost before = out@;
            let ids = u16_to_string(a.id);
            out.append(ids.as_str());
            out.append(",");
            let av = a.available.serialize();
            out.append(av.as_str());
            out.append(",");
            let hd = a.held.serialize();
            out.append(hd.as_str());
            out.append(",");
            let tt = a.total.serialize();
            out.append(tt.as_str());
            out.append(",");
            if a.locked {
                out.append("true");
            } else {
                out.append("false");
            }
            out.append("\n");
            proof {
                lemma_render_snoc(self.accounts@, i as int);
                assert(out@ =~= before + render_account(self.accounts@[i as int]));
                assert(out@ =~= header + render_accounts(self.accounts@.take(i as int + 1)));
            }
            i = i + 1;
        }
        proof {
            assert(self.accounts@.take(n as int) =~= self.accounts@);
        }
        out
    }
}

/// Law: once an account is locked, no replay step that names its client
/// changes any of its fields.
pub proof fn lemma_locked_client_unchanged(
    accs: Seq<Account>,
    cache: Seq<(u32, TxnState)>,
    cap: nat,
    t: Transaction,
)
    requires
        accounts_wf(accs),
        target_account(accs, transaction_client(t)).locked,
    ensures
        step(accs, cache, cap, t).0[ensure_spec(accs, transaction_client(t)).1] == target_account(
            accs,
            transaction_client(t),
        ),
{
    lemma_ensure_spec(accs, transaction_client(t));
}

/// Law: a dispute that references a transaction id absent from the
/// history (unknown, or already evicted) changes no account balances and
/// no history entries; at most a fresh zero-balance account for the
/// named client appears.
pub proof fn lemma_dispute_absent_is_noop(
    accs: Seq<Account>,
    cache: Seq<(u32, TxnState)>,
    cap: nat,
    client: u16,
    tx: u32,
)
    requires
        accounts_wf(accs),
        !crate::history::has_key(cache, tx),
    ensures
        step(accs, cache, cap, Transaction::Dispute(client, tx)).0 =~= ensure_spec(
            accs,
            client,
        ).0,
        step(accs, cache, cap, Transaction::Dispute(client, tx)).1 =~= cache,
{
    lemma_ensure_spec(accs, client);
    let (accs1, i) = ensure_spec(accs, client);
    assert(seq_lookup(cache, tx) is None);
    assert(touch_seq(cache, tx) == cache);
    assert(dispute_spec(accs1[i], Option::None) == (false, accs1[i], Option::None::<TxnState>));
    assert(accs1.update(i, accs1[i]) =~= accs1);
}

} // verus!
