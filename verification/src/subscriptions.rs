//! Subscription bookkeeping for the market-data fan-out.
//!
//! Maps each client to the channels it follows and each channel to its
//! followers.  The caller drives the actual transport: `subscribe`
//! reports when a channel gains its first follower (time to subscribe
//! upstream), `unsubscribe` when it loses its last (time to
//! unsubscribe).

use vstd::prelude::*;
use crate::numeric::str_eq;

verus! {

/// The channel views of a follower list.
pub open spec fn views_of(v: Seq<String>) -> Seq<Seq<char>> {
    v.map_values(|x: String| x@)
}

/// The list stored under a key, or empty if the key has no row.
pub open spec fn alist_get(rows: Seq<(String, Vec<String>)>, k: Seq<char>) -> Seq<String>
    decreases rows.len(),
{
    if rows.len() == 0 {
        Seq::empty()
    } else if rows[0].0@ == k {
        rows[0].1@
    } else {
        alist_get(rows.drop_first(), k)
    }
}

/// Some element of the list reads `x`.
pub open spec fn has_str(v: Seq<String>, x: Seq<char>) -> bool {
    exists|i: int| 0 <= i < v.len() && (#[trigger] v[i])@ == x
}

/// The list with every element reading `x` removed.
pub open spec fn remove_str(v: Seq<String>, x: Seq<char>) -> Seq<String>
    decreases v.len(),
{
    if v.len() == 0 {
        v
    } else {
        let rest = remove_str(v.drop_first(), x);
        if v[0]@ == x {
            rest
        } else {
            seq![v[0]] + rest
        }
    }
}

/// Keys of the rows are pairwise distinct.
pub open spec fn alist_keys_unique(rows: Seq<(String, Vec<String>)>) -> bool {
    forall|i: int, j: int| 0 <= i < j < rows.len()
        ==> (#[trigger] rows[i]).0@ != (#[trigger] rows[j]).0@
}

/// No key's row decides a lookup other than its own: updating row `i`
/// (same key) or removing it changes only that key's list.
proof fn lemma_alist_at(rows: Seq<(String, Vec<String>)>, i: int)
    requires
        0 <= i < rows.len(),
        forall|k: int| 0 <= k < i ==> (#[trigger] rows[k]).0@ != rows[i].0@,
    ensures
        alist_get(rows, rows[i].0@) == rows[i].1@,
        forall|nv: Vec<String>| #[trigger] alist_get(rows.update(i, (rows[i].0, nv)),
            rows[i].0@) == nv@,
        forall|nv: Vec<String>, k2: Seq<char>| k2 != rows[i].0@
            ==> #[trigger] alist_get(rows.update(i, (rows[i].0, nv)), k2) == alist_get(rows, k2),
        forall|k2: Seq<char>| k2 != rows[i].0@ ==> #[trigger] alist_get(rows.remove(i), k2)
            == alist_get(rows, k2),
        alist_keys_unique(rows) ==> alist_get(rows.remove(i), rows[i].0@) == Seq::<String>::empty(),
    decreases rows.len(),
{
    if i == 0 {
        assert forall|nv: Vec<String>, k2: Seq<char>| k2 != rows[0].0@
            implies #[trigger] alist_get(rows.update(0, (rows[0].0, nv)), k2) == alist_get(rows,
            k2) by {
            assert(rows.update(0, (rows[0].0, nv)).drop_first() =~= rows.drop_first());
        }
        assert forall|nv: Vec<String>| #[trigger] alist_get(rows.update(0, (rows[0].0, nv)),
            rows[0].0@) == nv@ by {
            assert(rows.update(0, (rows[0].0, nv))[0].0@ == rows[0].0@);
        }
        assert(rows.remove(0) =~= rows.drop_first());
        if alist_keys_unique(rows) {
            assert forall|k: int| 0 <= k < rows.drop_first().len()
                implies (#[trigger] rows.drop_first()[k]).0@ != rows[0].0@ by {
                assert(rows.drop_first()[k] == rows[k + 1]);
            }
            lemma_alist_none(rows.drop_first(), rows[0].0@);
        }
    } else {
        let tail = rows.drop_first();
        assert(forall|k: int| 0 <= k < tail.len() ==> tail[k] == rows[k + 1]);
        lemma_alist_at(tail, i - 1);
        assert(rows[0].0@ != rows[i].0@);
        assert forall|nv: Vec<String>| #[trigger] alist_get(rows.update(i, (rows[i].0, nv)),
            rows[i].0@) == nv@ by {
            assert(rows.update(i, (rows[i].0, nv)).drop_first()
                =~= tail.update(i - 1, (tail[i - 1].0, nv)));
            assert(rows.update(i, (rows[i].0, nv))[0] == rows[0]);
            assert(alist_get(tail.update(i - 1, (tail[i - 1].0, nv)), tail[i - 1].0@) == nv@);
        }
        assert forall|nv: Vec<String>, k2: Seq<char>| k2 != rows[i].0@
            implies #[trigger] alist_get(rows.update(i, (rows[i].0, nv)), k2) == alist_get(rows,
            k2) by {
            assert(rows.update(i, (rows[i].0, nv)).drop_first()
                =~= tail.update(i - 1, (tail[i - 1].0, nv)));
            assert(rows.update(i, (rows[i].0, nv))[0] == rows[0]);
            assert(alist_get(tail.update(i - 1, (tail[i - 1].0, nv)), k2)
                == alist_get(tail, k2));
        }
        assert forall|k2: Seq<char>| k2 != rows[i].0@
            implies #[trigger] alist_get(rows.remove(i), k2) == alist_get(rows, k2) by {
            assert(rows.remove(i).drop_first() =~= tail.remove(i - 1));
            assert(rows.remove(i)[0] == rows[0]);
            assert(alist_get(tail.remove(i - 1), k2) == alist_get(tail, k2));
        }
        if alist_keys_unique(rows) {
            assert(rows.remove(i).drop_first() =~= tail.remove(i - 1));
            assert(rows.remove(i)[0] == rows[0]);
            assert(alist_keys_unique(tail));
            assert(alist_get(tail.remove(i - 1), tail[i - 1].0@) == Seq::<String>::empty());
        }
    }
}

/// A key with no row looks up empty.
proof fn lemma_alist_none(rows: Seq<(String, Vec<String>)>, k: Seq<char>)
    requires
        forall|i: int| 0 <= i < rows.len() ==> (#[trigger] rows[i]).0@ != k,
    ensures
        alist_get(rows, k) == Seq::<String>::empty(),
    decreases rows.len(),
{
    if rows.len() > 0 {
        assert(forall|i: int| 0 <= i < rows.drop_first().len()
            ==> rows.drop_first()[i] == rows[i + 1]);
        lemma_alist_none(rows.drop_first(), k);
    }
}

/// A fresh key's row serves only that key.
proof fn lemma_alist_push(rows: Seq<(String, Vec<String>)>, row: (String, Vec<String>))
    requires
        forall|i: int| 0 <= i < rows.len() ==> (#[trigger] rows[i]).0@ != row.0@,
    ensures
        alist_get(rows.push(row), row.0@) == row.1@,
        forall|k2: Seq<char>| k2 != row.0@ ==> #[trigger] alist_get(rows.push(row), k2)
            == alist_get(rows, k2),
        alist_keys_unique(rows) ==> alist_keys_unique(rows.push(row)),
    decreases rows.len(),
{
    let p = rows.push(row);
    if rows.len() == 0 {
        assert(p[0] == row);
        assert(p.drop_first() =~= Seq::<(String, Vec<String>)>::empty());
        assert forall|k2: Seq<char>| k2 != row.0@ implies #[trigger] alist_get(p, k2)
            == alist_get(rows, k2) by {
            assert(alist_get(p.drop_first(), k2) == Seq::<String>::empty());
        }
    } else {
        assert(p[0] == rows[0]);
        assert(p.drop_first() =~= rows.drop_first().push(row));
        assert(forall|i: int| 0 <= i < rows.drop_first().len()
            ==> rows.drop_first()[i] == rows[i + 1]);
        lemma_alist_push(rows.drop_first(), row);
        assert forall|k2: Seq<char>| k2 != row.0@ implies #[trigger] alist_get(p, k2)
            == alist_get(rows, k2) by {
            if rows[0].0@ != k2 {
                assert(alist_get(rows.drop_first().push(row), k2)
                    == alist_get(rows.drop_first(), k2));
            }
        }
    }
    if alist_keys_unique(rows) {
        assert forall|i: int, j: int| 0 <= i < j < p.len()
            implies (#[trigger] p[i]).0@ != (#[trigger] p[j]).0@ by {
            if j == p.len() - 1 {
                assert(p[i] == rows[i] && p[j] == row);
            }
        }
    }
}

/// Finds the row of a key, scanning from `start`.
fn alist_find(rows: &Vec<(String, Vec<String>)>, k: &str, start: usize) -> (r: Option<usize>)
    requires
        start <= rows@.len(),
        forall|i: int| 0 <= i < start ==> (#[trigger] rows@[i]).0@ != k@,
    ensures
        r matches Some(i) ==> start <= i < rows@.len() && rows@[i as int].0@ == k@
            && forall|j: int| 0 <= j < i ==> (#[trigger] rows@[j]).0@ != k@,
        r is None ==> forall|i: int| 0 <= i < rows@.len() ==> (#[trigger] rows@[i]).0@ != k@,
    decreases rows@.len() - start,
{
    if start == rows.len() {
        return None;
    }
    if str_eq(rows[start].0.as_str(), k) {
        Some(start)
    } else {
        alist_find(rows, k, start + 1)
    }
}

/// Does any element read `x`?
fn vec_has(v: &Vec<String>, x: &str) -> (r: bool)
    ensures
        r == has_str(v@, x@),
{
    let mut i: usize = 0;
    while i < v.len()
        invariant
            0 <= i <= v@.len(),
            forall|k: int| 0 <= k < i ==> (#[trigger] v@[k])@ != x@,
        decreases v@.len() - i,
    {
        if str_eq(v[i].as_str(), x) {
            return true;
        }
        i = i + 1;
    }
    false
}

/// Removes every element reading `x`.
fn vec_remove_all(v: Vec<String>, x: &str) -> (r: Vec<String>)
    ensures
        r@ == remove_str(v@, x@),
    decreases v@.len(),
{
    let mut rest = v;
    if rest.len() == 0 {
        return rest;
    }
    let ghost pre = rest@;
    let head = rest.remove(0);
    proof {
        assert(rest@ =~= pre.drop_first());
    }
    let keep = !str_eq(head.as_str(), x);
    let mut out = vec_remove_all(rest, x);
    if keep {
        out.insert(0, head);
        proof {
            assert(out@ =~= seq![pre[0]] + remove_str(pre.drop_first(), x@));
        }
    }
    out
}

/// A copy of a follower list, equal element by element.
fn clone_strings(v: &Vec<String>) -> (r: Vec<String>)
    ensures
        r@ == v@,
{
    let mut out: Vec<String> = Vec::new();
    let mut i: usize = 0;
    while i < v.len()
        invariant
            0 <= i <= v@.len(),
            out@ == v@.subrange(0, i as int),
        decreases v@.len() - i,
    {
        out.push(v[i].clone());
        proof {
            assert(out@ =~= v@.subrange(0, i as int + 1));
        }
        i = i + 1;
    }
    proof {
        assert(v@.subrange(0, v@.len() as int) =~= v@);
    }
    out
}

/// Per-client channel lists and per-channel follower lists.
pub struct SubscriptionManager {
    pub subscriptions: Vec<(String, Vec<String>)>,
    pub reverse_subscriptions: Vec<(String, Vec<String>)>,
}

impl SubscriptionManager {
    /// Both association lists keep their keys unique.
    pub open spec fn wf(&self) -> bool {
        &&& alist_keys_unique(self.subscriptions@)
        &&& alist_keys_unique(self.reverse_subscriptions@)
    }

    /// A manager with no clients and no channels.
    pub fn new() -> (r: SubscriptionManager)
        ensures
            r.wf(),
            r.subscriptions@.len() == 0,
            r.reverse_subscriptions@.len() == 0,
    {
        SubscriptionManager { subscriptions: Vec::new(), reverse_subscriptions: Vec::new() }
    }

    /// The channels a client follows.
    pub fn get_subscriptions(&self, user_id: &str) -> (r: Vec<String>)
        ensures
            r@ == alist_get(self.subscriptions@, user_id@),
    {
        proof {
            assert(self.subscriptions@.skip(0) =~= self.subscriptions@);
        }
        match alist_find(&self.subscriptions, user_id, 0) {
            Some(i) => {
                proof {
                    lemma_alist_at(self.subscriptions@, i as int);
                }
                clone_strings(&self.subscriptions[i].1)
            },
            None => {
                proof {
                    lemma_alist_none(self.subscriptions@, user_id@);
                }
                Vec::new()
            },
        }
    }

    /// Adds a channel to a client's list, unless already followed, and
    /// the client to the channel's follower list.  Returns whether the
    /// channel just gained its first follower, so the caller knows to
    /// subscribe upstream.
    pub fn subscribe(&mut self, user_id: &str, subscription: String) -> (r: bool)
        requires
            old(self).wf(),
        ensures
            final(self).wf(),
            ({
                let u = user_id@;
                let s = subscription@;
                let was = alist_get(old(self).subscriptions@, u);
                if has_str(was, s) {
                    &&& *final(self) == *old(self)
                    &&& r == false
                } else {
                    &&& alist_get(final(self).subscriptions@, u) == was.push(subscription)
                    &&& (forall|k2: Seq<char>| k2 != u ==> #[trigger] alist_get(
                        final(self).subscriptions@,
                        k2,
                    ) == alist_get(old(self).subscriptions@, k2))
                    &&& views_of(alist_get(final(self).reverse_subscriptions@, s)) == views_of(
                        alist_get(old(self).reverse_subscriptions@, s),
                    ).push(u)
                    &&& (forall|k2: Seq<char>| k2 != s ==> #[trigger] alist_get(
                        final(self).reverse_subscriptions@,
                        k2,
                    ) == alist_get(old(self).reverse_subscriptions@, k2))
                    &&& r == (alist_get(old(self).reverse_subscriptions@, s).len() == 0)
                }
            }),
    {
        proof {
            assert(self.subscriptions@.skip(0) =~= self.subscriptions@);
        }
        match alist_find(&self.subscriptions, user_id, 0) {
            Some(i) => {
                proof {
                    lemma_alist_at(self.subscriptions@, i as int);
                }
                if vec_has(&self.subscriptions[i].1, subscription.as_str()) {
                    return false;
                }
                let mut row = self.subscriptions.remove(i);
                row.1.push(subscription.clone());
                let ghost nv = row.1;
                self.subscriptions.insert(i, row);
                proof {
                    assert(self.subscriptions@
                        =~= old(self).subscriptions@.update(i as int,
                        (old(self).subscriptions@[i as int].0, nv)));
                    assert(alist_keys_unique(self.subscriptions@)) by {
                        assert(forall|j: int| 0 <= j < self.subscriptions@.len()
                            ==> (#[trigger] self.subscriptions@[j]).0@
                            == old(self).subscriptions@[j].0@);
                    }
                }
            },
            None => {
                proof {
                    lemma_alist_none(self.subscriptions@, user_id@);
                }
                let mut v: Vec<String> = Vec::new();
                v.push(subscription.clone());
                let row = (String::from_str(user_id), v);
                proof {
                    lemma_alist_push(self.subscriptions@, row);
                    assert(alist_get(old(self).subscriptions@, user_id@).push(subscription)
                        =~= row.1@);
                }
                self.subscriptions.push(row);
            },
        }
        proof {
            assert(self.reverse_subscriptions@.skip(0) =~= self.reverse_subscriptions@);
        }
        match alist_find(&self.reverse_subscriptions, subscription.as_str(), 0) {
            Some(j) => {
                proof {
                    lemma_alist_at(self.reverse_subscriptions@, j as int);
                }
                let was_empty = self.reverse_subscriptions[j].1.len() == 0;
                let mut row = self.reverse_subscriptions.remove(j);
                row.1.push(String::from_str(user_id));
                let ghost nv = row.1;
                self.reverse_subscriptions.insert(j, row);
                proof {
                    let pre = old(self).reverse_subscriptions@;
                    assert(self.reverse_subscriptions@
                        =~= pre.update(j as int, (pre[j as int].0, nv)));
                    assert(alist_keys_unique(self.reverse_subscriptions@)) by {
                        assert(forall|k: int| 0 <= k < self.reverse_subscriptions@.len()
                            ==> (#[trigger] self.reverse_subscriptions@[k]).0@ == pre[k].0@);
                    }
                    assert(views_of(nv@) =~= views_of(pre[j as int].1@).push(user_id@));
                }
                was_empty
            },
            None => {
                proof {
                    lemma_alist_none(self.reverse_subscriptions@, subscription@);
                }
                let mut v: Vec<String> = Vec::new();
                v.push(String::from_str(user_id));
                let row = (subscription, v);
                proof {
                    lemma_alist_push(self.reverse_subscriptions@, row);
                }
                self.reverse_subscriptions.push(row);
                proof {
                    assert(views_of(alist_get(self.reverse_subscriptions@, row.0@))
                        =~= views_of(alist_get(old(self).reverse_subscriptions@, row.0@)).push(
                        user_id@));
                }
                true
            },
        }
    }

    /// Removes a channel from a client's list and the client from the
    /// channel's follower list; a follower list that empties leaves the
    /// table.  Returns whether the channel just lost its last follower,
    /// so the caller knows to unsubscribe upstream.
    pub fn unsubscribe(&mut self, user_id: &str, subscription: &str) -> (r: bool)
        requires
            old(self).wf(),
        ensures
            final(self).wf(),
            ({
                let u = user_id@;
                let s = subscription@;
                &&& alist_get(final(self).subscriptions@, u) == remove_str(
                    alist_get(old(self).subscriptions@, u),
                    s,
                )
                &&& (forall|k2: Seq<char>| k2 != u ==> #[trigger] alist_get(
                    final(self).subscriptions@,
                    k2,
                ) == alist_get(old(self).subscriptions@, k2))
                &&& ({
                    let rl = alist_get(old(self).reverse_subscriptions@, s);
                    let nl = remove_str(rl, u);
                    &&& (rl.len() > 0 && nl.len() == 0 ==> alist_get(
                        final(self).reverse_subscriptions@,
                        s,
                    ) == Seq::<String>::empty())
                    &&& (rl.len() > 0 && nl.len() > 0 ==> alist_get(
                        final(self).reverse_subscriptions@,
                        s,
                    ) == nl)
                    &&& (rl.len() == 0 ==> alist_get(final(self).reverse_subscriptions@, s) == rl)
                    &&& r == (rl.len() > 0 && nl.len() == 0)
                })
                &&& (forall|k2: Seq<char>| k2 != s ==> #[trigger] alist_get(
                    final(self).reverse_subscriptions@,
                    k2,
                ) == alist_get(old(self).reverse_subscriptions@, k2))
            }),
    {
        proof {
            assert(self.subscriptions@.skip(0) =~= self.subscriptions@);
        }
        match alist_find(&self.subscriptions, user_id, 0) {
            Some(i) => {
                proof {
                    lemma_alist_at(self.subscriptions@, i as int);
                }
                let mut row = self.subscriptions.remove(i);
                let nv = vec_remove_all(row.1, subscription);
                row.1 = nv;
                let ghost nvs = row.1;
                self.subscriptions.insert(i, row);
                proof {
                    assert(self.subscriptions@
                        =~= old(self).subscriptions@.update(i as int,
                        (old(self).subscriptions@[i as int].0, nvs)));
                    assert(alist_keys_unique(self.subscriptions@)) by {
                        assert(forall|j: int| 0 <= j < self.subscriptions@.len()
                            ==> (#[trigger] self.subscriptions@[j]).0@
                            == old(self).subscriptions@[j].0@);
                    }
                }
            },
            None => {
                proof {
                    lemma_alist_none(self.subscriptions@, user_id@);
                }
            },
        }
        proof {
            assert(self.reverse_subscriptions@.skip(0) =~= self.reverse_subscriptions@);
        }
        match alist_find(&self.reverse_subscriptions, subscription, 0) {
            Some(j) => {
                let ghost pre = self.reverse_subscriptions@;
                proof {
                    lemma_alist_at(pre, j as int);
                }
                let mut row = self.reverse_subscriptions.remove(j);
                let was_any = row.1.len() > 0;
                let nv = vec_remove_all(row.1, user_id);
                if nv.len() == 0 {
                    // the channel lost its last follower: the row leaves
                    proof {
                        assert(self.reverse_subscriptions@ =~= pre.remove(j as int));
                        assert(alist_keys_unique(self.reverse_subscriptions@)) by {
                            assert(forall|a: int, b: int| 0 <= a < b
                                < self.reverse_subscriptions@.len() ==> (
                            #[trigger] self.reverse_subscriptions@[a]).0@ != (
                            #[trigger] self.reverse_subscriptions@[b]).0@) by {
                                assert(forall|a: int| 0 <= a < self.reverse_subscriptions@.len()
                                    ==> exists|a0: int| 0 <= a0 < pre.len() && (
                                #[trigger] self.reverse_subscriptions@[a]) == pre[a0]
                                    && (a0 == if a < j { a } else { a + 1 }));
                            }
                        }
                    }
                    was_any
                } else {
                    row.1 = nv;
                    let ghost nvs = row.1;
                    self.reverse_subscriptions.insert(j, row);
                    proof {
                        assert(self.reverse_subscriptions@
                            =~= pre.update(j as int, (pre[j as int].0, nvs)));
                        assert(alist_keys_unique(self.reverse_subscriptions@)) by {
                            assert(forall|k: int| 0 <= k < self.reverse_subscriptions@.len()
                                ==> (#[trigger] self.reverse_subscriptions@[k]).0@ == pre[k].0@);
                        }
                    }
                    false
                }
            },
            None => {
                proof {
                    lemma_alist_none(self.reverse_subscriptions@, subscription@);
                }
                false
            },
        }
    }
}

} // verus!
