//! Per-user, per-asset balance ledger.
//!
//! Each `(user, asset)` pair owns `{available, locked}` funds.  Every
//! operation is a within-entry move (lock, release), a cross-user
//! transfer of locked funds (settlement), or an external credit
//! (on-ramp).  Moves and transfers conserve each asset's total; only a
//! credit grows it.  Every entry keeps `available + locked` within
//! ticks, so no move can overflow.

use vstd::prelude::*;
use crate::numeric::str_eq;

verus! {

/// Funds of one user in one asset.
#[derive(Clone, Copy, Debug, PartialEq, Eq, Structural)]
pub struct UserBalance {
    pub available: u64,
    pub locked: u64,
}

/// One ledger row.
#[derive(Debug)]
pub struct BalanceEntry {
    pub user_id: String,
    pub asset: String,
    pub balance: UserBalance,
}

/// The ledger: a list of rows with unique `(user, asset)` keys.
#[derive(Debug)]
pub struct Ledger {
    pub entries: Vec<BalanceEntry>,
}

/// `e` is the row of this user and asset.
pub open spec fn entry_key_is(e: BalanceEntry, user: Seq<char>, asset: Seq<char>) -> bool {
    e.user_id@ == user && e.asset@ == asset
}

/// The balance of a user in an asset, if the row exists.
pub open spec fn bal_lookup(
    entries: Seq<BalanceEntry>,
    user: Seq<char>,
    asset: Seq<char>,
) -> Option<UserBalance>
    decreases entries.len(),
{
    if entries.len() == 0 {
        None
    } else if entry_key_is(entries[0], user, asset) {
        Some(entries[0].balance)
    } else {
        bal_lookup(entries.drop_first(), user, asset)
    }
}

/// No two rows share a key.
pub open spec fn keys_unique(entries: Seq<BalanceEntry>) -> bool {
    forall|i: int, j: int| 0 <= i < j < entries.len()
        ==> !((#[trigger] entries[i]).user_id@ == (#[trigger] entries[j]).user_id@
            && entries[i].asset@ == entries[j].asset@)
}

/// A row's funds fit in ticks even taken together.
pub open spec fn entry_ok(e: BalanceEntry) -> bool {
    e.balance.available + e.balance.locked <= u64::MAX
}

/// Ledger well-formedness.
pub open spec fn ledger_wf(entries: Seq<BalanceEntry>) -> bool {
    &&& keys_unique(entries)
    &&& forall|i: int| 0 <= i < entries.len() ==> entry_ok(#[trigger] entries[i])
}

/// Total holdings (available plus locked, over all users) of one asset.
pub open spec fn asset_total(entries: Seq<BalanceEntry>, asset: Seq<char>) -> int
    decreases entries.len(),
{
    if entries.len() == 0 {
        0
    } else {
        let h: int = if entries[0].asset@ == asset {
            entries[0].balance.available + entries[0].balance.locked
        } else {
            0
        };
        h + asset_total(entries.drop_first(), asset)
    }
}

/// The ledger as a finite map from `(user, asset)` to funds.  An
/// earlier row wins, matching `bal_lookup`.
pub open spec fn ledger_map(entries: Seq<BalanceEntry>) -> Map<(Seq<char>, Seq<char>), UserBalance>
    decreases entries.len(),
{
    if entries.len() == 0 {
        Map::empty()
    } else {
        ledger_map(entries.drop_first()).insert(
            (entries[0].user_id@, entries[0].asset@),
            entries[0].balance,
        )
    }
}

/// `m` names exactly the rows of `entries`, key by key.
pub open spec fn map_models(
    entries: Seq<BalanceEntry>,
    m: Map<(Seq<char>, Seq<char>), UserBalance>,
) -> bool {
    forall|u: Seq<char>, a: Seq<char>| #[trigger] bal_lookup(entries, u, a) == (
    if m.contains_key((u, a)) {
        Some(m[(u, a)])
    } else {
        None
    })
}

/// The row lookup and the map view agree on every key.
pub proof fn lemma_ledger_map_lookup(entries: Seq<BalanceEntry>, u: Seq<char>, a: Seq<char>)
    ensures
        bal_lookup(entries, u, a) == (if ledger_map(entries).contains_key((u, a)) {
            Some(ledger_map(entries)[(u, a)])
        } else {
            None
        }),
    decreases entries.len(),
{
    if entries.len() > 0 {
        lemma_ledger_map_lookup(entries.drop_first(), u, a);
    }
}

/// The ledger models its own map view.
pub proof fn lemma_models_self(entries: Seq<BalanceEntry>)
    ensures
        map_models(entries, ledger_map(entries)),
{
    assert forall|u: Seq<char>, a: Seq<char>| #[trigger] bal_lookup(entries, u, a) == (
    if ledger_map(entries).contains_key((u, a)) {
        Some(ledger_map(entries)[(u, a)])
    } else {
        None
    }) by {
        lemma_ledger_map_lookup(entries, u, a);
    }
}

/// Two maps that model the same rows are the same map.
pub proof fn lemma_models_unique(
    entries: Seq<BalanceEntry>,
    m1: Map<(Seq<char>, Seq<char>), UserBalance>,
    m2: Map<(Seq<char>, Seq<char>), UserBalance>,
)
    requires
        map_models(entries, m1),
        map_models(entries, m2),
    ensures
        m1 == m2,
{
    assert forall|k: (Seq<char>, Seq<char>)| #[trigger] m1.contains_key(k)
        implies m2.contains_key(k) && m1[k] == m2[k] by {
        assert(bal_lookup(entries, k.0, k.1) == Some(m1[k]));
    }
    assert forall|k: (Seq<char>, Seq<char>)| #[trigger] m2.contains_key(k)
        implies m1.contains_key(k) by {
        assert(bal_lookup(entries, k.0, k.1) == Some(m2[k]));
    }
    assert(m1 =~= m2);
}

/// In a well-formed ledger every looked-up row is within ticks.
pub proof fn lemma_lookup_ok(entries: Seq<BalanceEntry>, u: Seq<char>, a: Seq<char>)
    requires
        forall|i: int| 0 <= i < entries.len() ==> entry_ok(#[trigger] entries[i]),
    ensures
        bal_lookup(entries, u, a) matches Some(b) ==> b.available + b.locked <= u64::MAX,
    decreases entries.len(),
{
    if entries.len() > 0 && !entry_key_is(entries[0], u, a) {
        assert(forall|k: int| 0 <= k < entries.drop_first().len()
            ==> entries.drop_first()[k] == entries[k + 1]);
        lemma_lookup_ok(entries.drop_first(), u, a);
    }
}

/// If no row matches, the lookup misses.
proof fn lemma_lookup_none(entries: Seq<BalanceEntry>, user: Seq<char>, asset: Seq<char>)
    requires
        forall|k: int| 0 <= k < entries.len() ==> !entry_key_is(#[trigger] entries[k], user, asset),
    ensures
        bal_lookup(entries, user, asset) is None,
    decreases entries.len(),
{
    if entries.len() > 0 {
        assert(forall|k: int| 0 <= k < entries.drop_first().len()
            ==> entries.drop_first()[k] == entries[k + 1]);
        lemma_lookup_none(entries.drop_first(), user, asset);
    }
}

/// A first-match row decides the lookup, and updating that row's
/// balance updates exactly that key's lookup and that asset's total.
proof fn lemma_update_at(entries: Seq<BalanceEntry>, i: int, nb: UserBalance)
    requires
        0 <= i < entries.len(),
        forall|k: int| 0 <= k < i
            ==> !entry_key_is(#[trigger] entries[k], entries[i].user_id@, entries[i].asset@),
    ensures
        ({
            let e = entries[i];
            let upd = entries.update(i,
                BalanceEntry { user_id: e.user_id, asset: e.asset, balance: nb });
            &&& bal_lookup(entries, e.user_id@, e.asset@) == Some(e.balance)
            &&& bal_lookup(upd, e.user_id@, e.asset@) == Some(nb)
            &&& forall|u2: Seq<char>, a2: Seq<char>| !(u2 == e.user_id@ && a2 == e.asset@)
                ==> #[trigger] bal_lookup(upd, u2, a2) == bal_lookup(entries, u2, a2)
            &&& forall|a2: Seq<char>| a2 != e.asset@
                ==> #[trigger] asset_total(upd, a2) == asset_total(entries, a2)
            &&& asset_total(upd, e.asset@) == asset_total(entries, e.asset@)
                - (e.balance.available + e.balance.locked) + (nb.available + nb.locked)
        }),
    decreases entries.len(),
{
    let e = entries[i];
    let upd = entries.update(i, BalanceEntry { user_id: e.user_id, asset: e.asset, balance: nb });
    if i == 0 {
        assert(upd.drop_first() =~= entries.drop_first());
        assert forall|u2: Seq<char>, a2: Seq<char>| !(u2 == e.user_id@ && a2 == e.asset@)
            implies #[trigger] bal_lookup(upd, u2, a2) == bal_lookup(entries, u2, a2) by {
            assert(upd[0].user_id@ == entries[0].user_id@ && upd[0].asset@ == entries[0].asset@);
        }
        assert forall|a2: Seq<char>| a2 != e.asset@
            implies #[trigger] asset_total(upd, a2) == asset_total(entries, a2) by {
            assert(upd[0].asset@ == entries[0].asset@);
        }
    } else {
        let tail = entries.drop_first();
        let tupd = tail.update(i - 1,
            BalanceEntry { user_id: e.user_id, asset: e.asset, balance: nb });
        assert(forall|k: int| 0 <= k < tail.len() ==> tail[k] == entries[k + 1]);
        assert(tail[i - 1] == e);
        assert(upd.drop_first() =~= tupd);
        lemma_update_at(tail, i - 1, nb);
        assert(!entry_key_is(entries[0], e.user_id@, e.asset@));
        assert(upd[0] == entries[0]);
        assert forall|u2: Seq<char>, a2: Seq<char>| !(u2 == e.user_id@ && a2 == e.asset@)
            implies #[trigger] bal_lookup(upd, u2, a2) == bal_lookup(entries, u2, a2) by {
            assert(bal_lookup(tupd, u2, a2) == bal_lookup(tail, u2, a2));
        }
        assert forall|a2: Seq<char>| a2 != e.asset@
            implies #[trigger] asset_total(upd, a2) == asset_total(entries, a2) by {
            assert(asset_total(tupd, a2) == asset_total(tail, a2));
        }
    }
}

/// Appending a row for a fresh key adds exactly that key's lookup and
/// grows exactly that asset's total by the new funds.
proof fn lemma_push_new(entries: Seq<BalanceEntry>, e: BalanceEntry)
    requires
        forall|k: int| 0 <= k < entries.len()
            ==> !entry_key_is(#[trigger] entries[k], e.user_id@, e.asset@),
    ensures
        bal_lookup(entries.push(e), e.user_id@, e.asset@) == Some(e.balance),
        forall|u2: Seq<char>, a2: Seq<char>| !(u2 == e.user_id@ && a2 == e.asset@)
            ==> #[trigger] bal_lookup(entries.push(e), u2, a2) == bal_lookup(entries, u2, a2),
        forall|a2: Seq<char>| a2 != e.asset@
            ==> #[trigger] asset_total(entries.push(e), a2) == asset_total(entries, a2),
        asset_total(entries.push(e), e.asset@) == asset_total(entries, e.asset@)
            + e.balance.available + e.balance.locked,
        keys_unique(entries) ==> keys_unique(entries.push(e)),
    decreases entries.len(),
{
    let p = entries.push(e);
    if entries.len() == 0 {
        assert(p[0] == e);
        assert(p.drop_first() =~= Seq::<BalanceEntry>::empty());
    } else {
        assert(p[0] == entries[0]);
        assert(p.drop_first() =~= entries.drop_first().push(e));
        assert(forall|k: int| 0 <= k < entries.drop_first().len()
            ==> entries.drop_first()[k] == entries[k + 1]);
        lemma_push_new(entries.drop_first(), e);
    }
    assert forall|u2: Seq<char>, a2: Seq<char>| !(u2 == e.user_id@ && a2 == e.asset@)
        implies #[trigger] bal_lookup(p, u2, a2) == bal_lookup(entries, u2, a2) by {
        if entries.len() == 0 {
            assert(bal_lookup(p.drop_first(), u2, a2) is None);
            assert(bal_lookup(entries, u2, a2) is None);
        } else if !entry_key_is(entries[0], u2, a2) {
            assert(bal_lookup(entries.drop_first().push(e), u2, a2)
                == bal_lookup(entries.drop_first(), u2, a2));
        }
    }
    assert forall|a2: Seq<char>| a2 != e.asset@
        implies #[trigger] asset_total(p, a2) == asset_total(entries, a2) by {
        if entries.len() == 0 {
            assert(asset_total(p.drop_first(), a2) == 0);
        } else {
            assert(asset_total(entries.drop_first().push(e), a2)
                == asset_total(entries.drop_first(), a2));
        }
    }
    assert(asset_total(p, e.asset@) == asset_total(entries, e.asset@)
        + e.balance.available + e.balance.locked) by {
        if entries.len() == 0 {
            assert(asset_total(p.drop_first(), e.asset@) == 0);
        } else {
            assert(asset_total(entries.drop_first().push(e), e.asset@)
                == asset_total(entries.drop_first(), e.asset@)
                + e.balance.available + e.balance.locked);
        }
    }
    if keys_unique(entries) {
        assert forall|i: int, j: int| 0 <= i < j < p.len()
            implies !((#[trigger] p[i]).user_id@ == (#[trigger] p[j]).user_id@
                && p[i].asset@ == p[j].asset@) by {
            if j == p.len() - 1 {
                assert(p[i] == entries[i] && p[j] == e);
            }
        }
    }
}

/// Finds the row of a key, scanning from `start`.
fn find_idx(entries: &Vec<BalanceEntry>, user: &str, asset: &str, start: usize) -> (r: Option<
    usize,
>)
    requires
        start <= entries@.len(),
        forall|k: int| 0 <= k < start
            ==> !entry_key_is(#[trigger] entries@[k], user@, asset@),
    ensures
        r matches Some(i) ==> start <= i < entries@.len()
            && entry_key_is(entries@[i as int], user@, asset@)
            && forall|k: int| 0 <= k < i ==> !entry_key_is(#[trigger] entries@[k], user@, asset@),
        r is None ==> forall|k: int| 0 <= k < entries@.len()
            ==> !entry_key_is(#[trigger] entries@[k], user@, asset@),
    decreases entries@.len() - start,
{
    if start == entries.len() {
        return None;
    }
    let e = &entries[start];
    if str_eq(e.user_id.as_str(), user) && str_eq(e.asset.as_str(), asset) {
        Some(start)
    } else {
        find_idx(entries, user, asset, start + 1)
    }
}

impl Ledger {
    /// The ledger's well-formedness.
    pub open spec fn wf(&self) -> bool {
        ledger_wf(self.entries@)
    }

    /// An empty ledger.
    pub fn new() -> (r: Ledger)
        ensures
            r.wf(),
            r.entries@.len() == 0,
    {
        Ledger { entries: Vec::new() }
    }

    /// The funds of a user in an asset, if the row exists.
    pub fn balance_of(&self, user: &str, asset: &str) -> (r: Option<UserBalance>)
        ensures
            r == bal_lookup(self.entries@, user@, asset@),
    {
        match find_idx(&self.entries, user, asset, 0) {
            Some(i) => {
                proof {
                    lemma_update_at(self.entries@, i as int, self.entries@[i as int].balance);
                    assert(self.entries@.update(i as int, BalanceEntry {
                        user_id: self.entries@[i as int].user_id,
                        asset: self.entries@[i as int].asset,
                        balance: self.entries@[i as int].balance,
                    }) =~= self.entries@);
                }
                Some(entries_balance(&self.entries, i))
            },
            None => {
                proof {
                    lemma_lookup_none(self.entries@, user@, asset@);
                }
                None
            },
        }
    }

    /// Replaces the balance of the row at `i`, keeping its key.
    fn set_at(&mut self, i: usize, nb: UserBalance)
        requires
            i < old(self).entries@.len(),
        ensures
            final(self).entries@ == old(self).entries@.update(i as int, BalanceEntry {
                user_id: old(self).entries@[i as int].user_id,
                asset: old(self).entries@[i as int].asset,
                balance: nb,
            }),
    {
        let mut e = self.entries.remove(i);
        e.balance = nb;
        self.entries.insert(i, e);
        proof {
            assert(self.entries@ =~= old(self).entries@.update(i as int, BalanceEntry {
                user_id: old(self).entries@[i as int].user_id,
                asset: old(self).entries@[i as int].asset,
                balance: nb,
            }));
        }
    }

    /// Makes sure the row of this user and asset exists, creating it
    /// with zero funds if absent.  No balance and no total changes.
    pub fn ensure_entry(&mut self, user: &str, asset: &str)
        requires
            old(self).wf(),
        ensures
            final(self).wf(),
            bal_lookup(final(self).entries@, user@, asset@) == (
            match bal_lookup(old(self).entries@, user@, asset@) {
                Some(b) => Some(b),
                None => Some(UserBalance { available: 0, locked: 0 }),
            }),
            forall|u2: Seq<char>, a2: Seq<char>| !(u2 == user@ && a2 == asset@)
                ==> #[trigger] bal_lookup(final(self).entries@, u2, a2)
                == bal_lookup(old(self).entries@, u2, a2),
            forall|a2: Seq<char>| #[trigger] asset_total(final(self).entries@, a2)
                == asset_total(old(self).entries@, a2),
            bal_lookup(old(self).entries@, user@, asset@) is Some
                ==> final(self).entries@ == old(self).entries@,
    {
        match find_idx(&self.entries, user, asset, 0) {
            Some(i) => {
                proof {
                    lemma_update_at(self.entries@, i as int, self.entries@[i as int].balance);
                    assert(self.entries@.update(i as int, BalanceEntry {
                        user_id: self.entries@[i as int].user_id,
                        asset: self.entries@[i as int].asset,
                        balance: self.entries@[i as int].balance,
                    }) =~= self.entries@);
                }
            },
            None => {
                proof {
                    lemma_lookup_none(self.entries@, user@, asset@);
                }
                let e = BalanceEntry {
                    user_id: String::from_str(user),
                    asset: String::from_str(asset),
                    balance: UserBalance { available: 0, locked: 0 },
                };
                proof {
                    lemma_push_new(self.entries@, e);
                }
                self.entries.push(e);
            },
        }
    }

    /// Locks funds ahead of an order: moves `amount` from available to
    /// locked in one row.  Succeeds exactly when the row exists and has
    /// the funds available; fails without touching anything.  Totals
    /// never change.
    pub fn lock(&mut self, user: &str, asset: &str, amount: u64) -> (r: bool)
        requires
            old(self).wf(),
        ensures
            final(self).wf(),
            r == (bal_lookup(old(self).entries@, user@, asset@) matches Some(b)
                && b.available >= amount),
            ({
                let was = bal_lookup(old(self).entries@, user@, asset@);
                r ==> (was matches Some(b) && bal_lookup(final(self).entries@, user@, asset@)
                    == Some(UserBalance {
                    available: (b.available - amount) as u64,
                    locked: (b.locked + amount) as u64,
                }))
            }),
            forall|u2: Seq<char>, a2: Seq<char>| !(u2 == user@ && a2 == asset@)
                ==> #[trigger] bal_lookup(final(self).entries@, u2, a2)
                == bal_lookup(old(self).entries@, u2, a2),
            forall|a2: Seq<char>| #[trigger] asset_total(final(self).entries@, a2)
                == asset_total(old(self).entries@, a2),
            !r ==> final(self).entries@ == old(self).entries@,
    {
        match find_idx(&self.entries, user, asset, 0) {
            Some(i) => {
                let b = entries_balance(&self.entries, i);
                proof {
                    lemma_update_at(self.entries@, i as int, self.entries@[i as int].balance);
                    assert(self.entries@.update(i as int, BalanceEntry {
                        user_id: self.entries@[i as int].user_id,
                        asset: self.entries@[i as int].asset,
                        balance: self.entries@[i as int].balance,
                    }) =~= self.entries@);
                }
                if b.available >= amount {
                    let nb = UserBalance {
                        available: b.available - amount,
                        locked: b.locked + amount,
                    };
                    proof {
                        lemma_update_at(self.entries@, i as int, nb);
                    }
                    self.set_at(i, nb);
                    true
                } else {
                    false
                }
            },
            None => {
                proof {
                    lemma_lookup_none(self.entries@, user@, asset@);
                }
                false
            },
        }
    }

    /// Releases locked funds back to available in one row (a cancel).
    /// Succeeds exactly when the row exists and has that much locked.
    /// Totals never change.
    pub fn release(&mut self, user: &str, asset: &str, amount: u64) -> (r: bool)
        requires
            old(self).wf(),
        ensures
            final(self).wf(),
            r == (bal_lookup(old(self).entries@, user@, asset@) matches Some(b)
                && b.locked >= amount),
            ({
                let was = bal_lookup(old(self).entries@, user@, asset@);
                r ==> (was matches Some(b) && bal_lookup(final(self).entries@, user@, asset@)
                    == Some(UserBalance {
                    available: (b.available + amount) as u64,
                    locked: (b.locked - amount) as u64,
                }))
            }),
            forall|u2: Seq<char>, a2: Seq<char>| !(u2 == user@ && a2 == asset@)
                ==> #[trigger] bal_lookup(final(self).entries@, u2, a2)
                == bal_lookup(old(self).entries@, u2, a2),
            forall|a2: Seq<char>| #[trigger] asset_total(final(self).entries@, a2)
                == asset_total(old(self).entries@, a2),
            !r ==> final(self).entries@ == old(self).entries@,
    {
        match find_idx(&self.entries, user, asset, 0) {
            Some(i) => {
                let b = entries_balance(&self.entries, i);
                proof {
                    lemma_update_at(self.entries@, i as int, self.entries@[i as int].balance);
                    assert(self.entries@.update(i as int, BalanceEntry {
                        user_id: self.entries@[i as int].user_id,
                        asset: self.entries@[i as int].asset,
                        balance: self.entries@[i as int].balance,
                    }) =~= self.entries@);
                }
                if b.locked >= amount {
                    let nb = UserBalance {
                        available: b.available + amount,
                        locked: b.locked - amount,
                    };
                    proof {
                        lemma_update_at(self.entries@, i as int, nb);
                    }
                    self.set_at(i, nb);
                    true
                } else {
                    false
                }
            },
            None => {
                proof {
                    lemma_lookup_none(self.entries@, user@, asset@);
                }
                false
            },
        }
    }

    /// Settlement leg: moves `amount` of `asset` from one user's locked
    /// funds to another user's available funds.  Succeeds exactly when
    /// both rows exist, the payer has that much locked, and the payee's
    /// row stays within ticks; fails without touching anything.  Totals
    /// never change.
    pub fn transfer(&mut self, from: &str, to: &str, asset: &str, amount: u64) -> (r: bool)
        requires
            old(self).wf(),
            from@ != to@,
        ensures
            final(self).wf(),
            r == (bal_lookup(old(self).entries@, from@, asset@) matches Some(fb)
                && fb.locked >= amount
                && (bal_lookup(old(self).entries@, to@, asset@) matches Some(tb)
                && tb.available + tb.locked + amount <= u64::MAX)),
            ({
                let fwas = bal_lookup(old(self).entries@, from@, asset@);
                let twas = bal_lookup(old(self).entries@, to@, asset@);
                r ==> (fwas matches Some(fb) && twas matches Some(tb)
                    && bal_lookup(final(self).entries@, from@, asset@) == Some(UserBalance {
                    available: fb.available,
                    locked: (fb.locked - amount) as u64,
                }) && bal_lookup(final(self).entries@, to@, asset@) == Some(UserBalance {
                    available: (tb.available + amount) as u64,
                    locked: tb.locked,
                }))
            }),
            forall|u2: Seq<char>, a2: Seq<char>| !(u2 == from@ && a2 == asset@) && !(u2 == to@
                && a2 == asset@) ==> #[trigger] bal_lookup(final(self).entries@, u2, a2)
                == bal_lookup(old(self).entries@, u2, a2),
            forall|a2: Seq<char>| #[trigger] asset_total(final(self).entries@, a2)
                == asset_total(old(self).entries@, a2),
            !r ==> final(self).entries@ == old(self).entries@,
    {
        let fi = match find_idx(&self.entries, from, asset, 0) {
            Some(i) => i,
            None => {
                proof {
                    lemma_lookup_none(self.entries@, from@, asset@);
                }
                return false;
            },
        };
        let ti = match find_idx(&self.entries, to, asset, 0) {
            Some(i) => i,
            None => {
                proof {
                    lemma_lookup_none(self.entries@, to@, asset@);
                }
                return false;
            },
        };
        let fb = entries_balance(&self.entries, fi);
        let tb = entries_balance(&self.entries, ti);
        proof {
            lemma_update_at(self.entries@, fi as int, self.entries@[fi as int].balance);
            assert(self.entries@.update(fi as int, BalanceEntry {
                user_id: self.entries@[fi as int].user_id,
                asset: self.entries@[fi as int].asset,
                balance: self.entries@[fi as int].balance,
            }) =~= self.entries@);
            lemma_update_at(self.entries@, ti as int, self.entries@[ti as int].balance);
            assert(self.entries@.update(ti as int, BalanceEntry {
                user_id: self.entries@[ti as int].user_id,
                asset: self.entries@[ti as int].asset,
                balance: self.entries@[ti as int].balance,
            }) =~= self.entries@);
        }
        if !(fb.locked >= amount) {
            return false;
        }
        let room = u64::MAX - tb.available;
        let room2 = room - tb.locked;
        if !(amount <= room2) {
            return false;
        }
        let nfb = UserBalance { available: fb.available, locked: fb.locked - amount };
        proof {
            lemma_update_at(self.entries@, fi as int, nfb);
        }
        self.set_at(fi, nfb);
        let ghost mid = self.entries@;
        proof {
            assert(entry_key_is(mid[ti as int], to@, asset@));
            assert(forall|k: int| 0 <= k < ti
                ==> !entry_key_is(#[trigger] mid[k], to@, asset@));
        }
        let ntb = UserBalance { available: tb.available + amount, locked: tb.locked };
        proof {
            lemma_update_at(mid, ti as int, ntb);
        }
        self.set_at(ti, ntb);
        true
    }

    /// External credit (on-ramp or seeding): adds `amount` to a user's
    /// available funds, creating the row if absent.  Succeeds exactly
    /// when the row stays within ticks; grows the asset's total by
    /// `amount` and changes nothing else.
    pub fn credit(&mut self, user: &str, asset: &str, amount: u64) -> (r: bool)
        requires
            old(self).wf(),
        ensures
            final(self).wf(),
            ({
                let was = match bal_lookup(old(self).entries@, user@, asset@) {
                    Some(b) => b,
                    None => UserBalance { available: 0, locked: 0 },
                };
                &&& r == (was.available + was.locked + amount <= u64::MAX)
                &&& (r ==> bal_lookup(final(self).entries@, user@, asset@) == Some(UserBalance {
                    available: (was.available + amount) as u64,
                    locked: was.locked,
                }))
                &&& (r ==> asset_total(final(self).entries@, asset@)
                    == asset_total(old(self).entries@, asset@) + amount)
            }),
            forall|u2: Seq<char>, a2: Seq<char>| !(u2 == user@ && a2 == asset@)
                ==> #[trigger] bal_lookup(final(self).entries@, u2, a2)
                == bal_lookup(old(self).entries@, u2, a2),
            forall|a2: Seq<char>| a2 != asset@
                ==> #[trigger] asset_total(final(self).entries@, a2)
                == asset_total(old(self).entries@, a2),
            !r ==> forall|u2: Seq<char>, a2: Seq<char>|
                #[trigger] bal_lookup(final(self).entries@, u2, a2)
                == bal_lookup(old(self).entries@, u2, a2),
            !r ==> forall|a2: Seq<char>| #[trigger] asset_total(final(self).entries@, a2)
                == asset_total(old(self).entries@, a2),
            !r ==> final(self).entries@ == old(self).entries@,
    {
        self.ensure_entry(user, asset);
        let i = match find_idx(&self.entries, user, asset, 0) {
            Some(i) => i,
            None => {
                proof {
                    lemma_lookup_none(self.entries@, user@, asset@);
                }
                return false;
            },
        };
        let b = entries_balance(&self.entries, i);
        proof {
            lemma_update_at(self.entries@, i as int, self.entries@[i as int].balance);
            assert(self.entries@.update(i as int, BalanceEntry {
                user_id: self.entries@[i as int].user_id,
                asset: self.entries@[i as int].asset,
                balance: self.entries@[i as int].balance,
            }) =~= self.entries@);
        }
        let room = u64::MAX - b.available;
        if b.locked > room || amount > room - b.locked {
            return false;
        }
        let nb = UserBalance { available: b.available + amount, locked: b.locked };
        proof {
            lemma_update_at(self.entries@, i as int, nb);
        }
        self.set_at(i, nb);
        true
    }
}

/// Reads the balance stored at row `i`.
fn entries_balance(entries: &Vec<BalanceEntry>, i: usize) -> (r: UserBalance)
    requires
        i < entries@.len(),
    ensures
        r == entries@[i as int].balance,
{
    let e = &entries[i];
    UserBalance { available: e.balance.available, locked: e.balance.locked }
}

} // verus!
