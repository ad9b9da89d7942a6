//! The bounded, least-recently-used-evicting cache that maps a transaction
//! identifier to its replayable state and backs dispute lookups.
//!
//! The cache itself is `lru::LruCache`; its contents are described by two
//! names, [`lru_entries`] (the key/state pairs in recency order, most
//! recent first) and [`lru_capacity`] (the bound the cache was created
//! with), and every method the library calls is wrapped with a contract
//! over those names.

use vstd::prelude::*;

use crate::txn_state::TxnState;

verus! {

#[verifier::external_type_specification]
#[verifier::external_body]
#[verifier::reject_recursive_types(K)]
#[verifier::reject_recursive_types(V)]
#[verifier::reject_recursive_types(S)]
pub struct ExLruCache<K, V, S>(lru::LruCache<K, V, S>);

/// The key/state pairs held by the cache, in recency order: the most
/// recently used entry first, the next eviction victim last.
pub uninterp spec fn lru_entries(c: lru::LruCache<u32, TxnState>) -> Seq<(u32, TxnState)>;

/// The fixed capacity the cache was created with.
pub uninterp spec fn lru_capacity(c: lru::LruCache<u32, TxnState>) -> nat;

/// Whether some entry of `s` has key `id`.
pub open spec fn has_key(s: Seq<(u32, TxnState)>, id: u32) -> bool {
    exists|i: int| 0 <= i < s.len() && s[i].0 == id
}

/// The index of the entry with key `id` (meaningful when `has_key`).
pub open spec fn key_at(s: Seq<(u32, TxnState)>, id: u32) -> int {
    choose|i: int| 0 <= i < s.len() && s[i].0 == id
}

/// The state stored under `id`, if any.
pub open spec fn seq_lookup(s: Seq<(u32, TxnState)>, id: u32) -> Option<TxnState> {
    if has_key(s, id) {
        Option::Some(s[key_at(s, id)].1)
    } else {
        Option::None
    }
}

/// The sequence after a use of `id`: its entry moves to the front, all
/// others keep their relative order. Without such an entry, unchanged.
pub open spec fn touch_seq(s: Seq<(u32, TxnState)>, id: u32) -> Seq<(u32, TxnState)> {
    if has_key(s, id) {
        seq![s[key_at(s, id)]] + s.remove(key_at(s, id))
    } else {
        s
    }
}

/// The sequence after `id` is inserted or overwritten with `v`: the entry
/// stands at the front; an existing entry for `id` is replaced; when `id`
/// is new and the cache is full, the last (least recently used) entry is
/// dropped first.
pub open spec fn put_seq(s: Seq<(u32, TxnState)>, cap: nat, id: u32, v: TxnState) -> Seq<
    (u32, TxnState),
> {
    if has_key(s, id) {
        seq![(id, v)] + s.remove(key_at(s, id))
    } else if s.len() < cap {
        seq![(id, v)] + s
    } else {
        seq![(id, v)] + s.drop_last()
    }
}

/// No two entries share a key.
pub open spec fn distinct_keys(s: Seq<(u32, TxnState)>) -> bool {
    forall|i: int, j: int| 0 <= i < j < s.len() ==> s[i].0 != s[j].0
}

/// Every stored amount is representable.
pub open spec fn amounts_ok(s: Seq<(u32, TxnState)>) -> bool {
    forall|i: int| 0 <= i < s.len() ==> (#[trigger] s[i].1).amount.inv()
}

/// A capacity-bounded, least-recently-used-eviction cache mapping a
/// transaction identifier to its replayable state.
///
/// Eviction is a deliberate, documented trade-off: when a
/// dispute/resolve/chargeback record references a transaction identifier
/// that has been evicted, it is treated identically to an unknown
/// transaction (silently ignored). This bounds memory for arbitrarily
/// long input streams at the cost of correctness on sufficiently old
/// disputes.
pub struct TxnHistory {
    pub cache: lru::LruCache<u32, TxnState>,
}

impl TxnHistory {
    /// The entries, most recently used first.
    pub open spec fn entries(self) -> Seq<(u32, TxnState)> {
        lru_entries(self.cache)
    }

    /// The configured capacity.
    pub open spec fn capacity(self) -> nat {
        lru_capacity(self.cache)
    }

    pub open spec fn wf(self) -> bool {
        &&& self.capacity() >= 1
        &&& self.entries().len() <= self.capacity()
        &&& distinct_keys(self.entries())
        &&& amounts_ok(self.entries())
    }

    /// Relies on `lru::LruCache::new`: creates an empty cache that holds
    /// at most `cap` entries.
    #[verifier::external_body]
    pub fn new(cap: usize) -> (r: TxnHistory)
        requires
            cap >= 1,
        ensures
            lru_entries(r.cache) == Seq::<(u32, TxnState)>::empty(),
            lru_capacity(r.cache) == cap as nat,
    {
        TxnHistory { cache: lru::LruCache::new(core::num::NonZeroUsize::new(cap).unwrap()) }
    }

    /// Relies on `lru::LruCache::put`: inserts or overwrites the entry
    /// for `id` as most recently used; when a new key arrives at
    /// capacity, the least recently used entry is dropped first.
    #[verifier::external_body]
    pub fn record(&mut self, id: u32, state: TxnState)
        ensures
            lru_entries(final(self).cache) == put_seq(
                lru_entries(old(self).cache),
                lru_capacity(old(self).cache),
                id,
                state,
            ),
            lru_capacity(final(self).cache) == lru_capacity(old(self).cache),
    {
        self.cache.put(id, state);
    }

    /// Relies on `lru::LruCache::get`: returns the entry for `id` if
    /// present and marks it most recently used; an absent key leaves the
    /// cache unchanged.
    #[verifier::external_body]
    pub fn lookup(&mut self, id: u32) -> (r: Option<TxnState>)
        ensures
            r == seq_lookup(lru_entries(old(self).cache), id),
            lru_entries(final(self).cache) == touch_seq(lru_entries(old(self).cache), id),
            lru_capacity(final(self).cache) == lru_capacity(old(self).cache),
    {
        self.cache.get(&id).copied()
    }

    /// Relies on `lru::LruCache::peek`: returns the entry for `id`, if
    /// present, without marking it used; the cache is unchanged.
    #[verifier::external_body]
    pub fn peek(&self, id: u32) -> (r: Option<TxnState>)
        ensures
            r == seq_lookup(lru_entries(self.cache), id),
    {
        self.cache.peek(&id).copied()
    }
}

/// A use of `id` keeps the cache well-formed, its length, and the set of
/// stored keys and states.
pub proof fn lemma_touch_preserves(s: Seq<(u32, TxnState)>, id: u32)
    requires
        distinct_keys(s),
    ensures
        distinct_keys(touch_seq(s, id)),
        amounts_ok(s) ==> amounts_ok(touch_seq(s, id)),
        touch_seq(s, id).len() == s.len(),
        forall|k: u32| seq_lookup(touch_seq(s, id), k) == seq_lookup(s, k),
{
    if has_key(s, id) {
        let i = key_at(s, id);
        let t = touch_seq(s, id);
        assert forall|k: u32| seq_lookup(t, k) == seq_lookup(s, k) by {
            lemma_lookup_shift(s, i, k);
        }
        assert forall|p: int, q: int| 0 <= p < q < t.len() implies t[p].0 != t[q].0 by {
            lemma_index_shift(s, i, p);
            lemma_index_shift(s, i, q);
        }
        assert forall|p: int| 0 <= p < t.len() implies (#[trigger] t[p].1).amount.inv() || !amounts_ok(
            s,
        ) by {
            lemma_index_shift(s, i, p);
        }
    }
}

/// Each element of `seq![s[i]] + s.remove(i)` is an element of `s`, at a
/// described position.
proof fn lemma_index_shift(s: Seq<(u32, TxnState)>, i: int, p: int)
    requires
        0 <= i < s.len(),
        0 <= p < s.len(),
    ensures
        (seq![s[i]] + s.remove(i))[p] == if p == 0 {
            s[i]
        } else if p <= i {
            s[p - 1]
        } else {
            s[p]
        },
{
}

proof fn lemma_lookup_shift(s: Seq<(u32, TxnState)>, i: int, k: u32)
    requires
        0 <= i < s.len(),
        distinct_keys(s),
    ensures
        seq_lookup(seq![s[i]] + s.remove(i), k) == seq_lookup(s, k),
{
    let t = seq![s[i]] + s.remove(i);
    assert forall|p: int| 0 <= p < t.len() implies t[p] == if p == 0 {
        s[i]
    } else if p <= i {
        s[p - 1]
    } else {
        s[p]
    } by {
        lemma_index_shift(s, i, p);
    }
    if has_key(s, k) {
        let q = key_at(s, k);
        assert(s[q].0 == k);
        if q == i {
            assert(t[0] == s[i]);
            assert(has_key(t, k));
            let w = key_at(t, k);
            assert(t[w].0 == k);
            if w != 0 {
                let orig = if w <= i {
                    w - 1
                } else {
                    w
                };
                assert(s[orig].0 == k);
                assert(false);
            }
        } else {
            let w0 = if q < i {
                q + 1
            } else {
                q
            };
            assert(t[w0] == s[q]);
            assert(has_key(t, k));
            let w = key_at(t, k);
            assert(t[w].0 == k);
            let orig = if w == 0 {
                i
            } else if w <= i {
                w - 1
            } else {
                w
            };
            assert(s[orig].0 == k);
            assert(orig == q);
        }
    } else {
        if has_key(t, k) {
            let w = key_at(t, k);
            let orig = if w == 0 {
                i
            } else if w <= i {
                w - 1
            } else {
                w
            };
            assert(s[orig].0 == k);
            assert(false);
        }
    }
}

/// Recording `id` keeps the cache well-formed within its capacity, and
/// afterwards `id` is stored with the recorded state.
pub proof fn lemma_put_preserves(s: Seq<(u32, TxnState)>, cap: nat, id: u32, v: TxnState)
    requires
        distinct_keys(s),
        amounts_ok(s),
        s.len() <= cap,
        cap >= 1,
        v.amount.inv(),
    ensures
        distinct_keys(put_seq(s, cap, id, v)),
        amounts_ok(put_seq(s, cap, id, v)),
        put_seq(s, cap, id, v).len() <= cap,
        seq_lookup(put_seq(s, cap, id, v), id) == Option::Some(v),
{
    let t = put_seq(s, cap, id, v);
    if has_key(s, id) {
        let i = key_at(s, id);
        assert(s[i].0 == id);
        let r = s.remove(i);
        assert forall|p: int, q: int| 0 <= p < q < t.len() implies t[p].0 != t[q].0 by {
            if p == 0 {
                let oq = if q <= i {
                    q - 1
                } else {
                    q
                };
                assert(r[q - 1] == s[oq]);
                assert(s[oq].0 != id);
            } else {
                let op = if p <= i {
                    p - 1
                } else {
                    p
                };
                let oq = if q <= i {
                    q - 1
                } else {
                    q
                };
                assert(r[p - 1] == s[op]);
                assert(r[q - 1] == s[oq]);
            }
        }
        assert forall|p: int| 0 <= p < t.len() implies (#[trigger] t[p].1).amount.inv() by {
            if p > 0 {
                let op = if p <= i {
                    p - 1
                } else {
                    p
                };
                assert(r[p - 1] == s[op]);
            }
        }
        assert(t[0].0 == id);
        let w = key_at(t, id);
        assert(t[w].0 == id);
        assert(w == 0 || t[w].0 != id);
        assert(seq_lookup(t, id) == Option::Some(v));
    } else {
        let base = if s.len() < cap {
            s
        } else {
            s.drop_last()
        };
        assert forall|p: int, q: int| 0 <= p < q < t.len() implies t[p].0 != t[q].0 by {
            assert(t[q] == base[q - 1]);
            assert(base[q - 1] == s[q - 1]);
            if p > 0 {
                assert(t[p] == s[p - 1]);
            } else {
                assert(s[q - 1].0 != id);
            }
        }
        assert forall|p: int| 0 <= p < t.len() implies (#[trigger] t[p].1).amount.inv() by {
            if p > 0 {
                assert(t[p] == s[p - 1]);
            }
        }
        assert(t[0].0 == id);
        let w = key_at(t, id);
        assert(t[w].0 == id);
        if w != 0 {
            assert(t[w] == s[w - 1]);
            assert(false);
        }
        assert(seq_lookup(t, id) == Option::Some(v));
    }
}

/// Law: when a new transaction id is recorded into a full history, the
/// least-recently-referenced id is evicted and can no longer be looked
/// up, while every other id keeps exactly the entry it had.
pub proof fn lemma_eviction(s: Seq<(u32, TxnState)>, cap: nat, id: u32, v: TxnState)
    requires
        distinct_keys(s),
        s.len() == cap,
        cap >= 1,
        !has_key(s, id),
    ensures
        !has_key(put_seq(s, cap, id, v), s.last().0),
        forall|k: u32|
            has_key(s, k) && k != s.last().0 ==> seq_lookup(put_seq(s, cap, id, v), k)
                == seq_lookup(s, k),
        seq_lookup(put_seq(s, cap, id, v), id) == Option::Some(v),
{
    let t = put_seq(s, cap, id, v);
    let victim = s.last().0;
    assert(t == seq![(id, v)] + s.drop_last());
    if has_key(t, victim) {
        let w = key_at(t, victim);
        assert(t[w].0 == victim);
        if w == 0 {
            assert(s[s.len() - 1].0 == id);
            assert(false);
        } else {
            assert(t[w] == s[w - 1]);
            assert(s[w - 1].0 == s[s.len() - 1].0);
            assert(false);
        }
    }
    assert forall|k: u32| has_key(s, k) && k != victim implies seq_lookup(t, k) == seq_lookup(
        s,
        k,
    ) by {
        let q = key_at(s, k);
        assert(s[q].0 == k);
        assert(q < s.len() - 1);
        assert(t[q + 1] == s[q]);
        assert(has_key(t, k));
        let w = key_at(t, k);
        assert(t[w].0 == k);
        if w == 0 {
            assert(false);
        } else {
            assert(t[w] == s[w - 1]);
            assert(w - 1 == q);
        }
    }
    let w = key_at(t, id);
    assert(t[0].0 == id);
    assert(t[key_at(t, id)].0 == id);
    if w != 0 {
        assert(t[w] == s[w - 1]);
        assert(false);
    }
}

} // verus!
