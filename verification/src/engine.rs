//! The matching engine: owns the order books and the balance ledger,
//! and serializes every request against them.
//!
//! A `CREATE_ORDER` locks the required funds, matches, settles each
//! fill, and rests the residual; a `CANCEL_ORDER` releases exactly the
//! order's remaining notional.  Within one request everything happens
//! before anything is published, and no request ever panics the
//! engine.

use vstd::prelude::*;
use crate::orderbook::{Orderbook, Order, Fill, OrderSide, book_find};
use crate::depth::{depth_of, depth_matches, open_orders_of};
use crate::protocol::{MessageFromApi, MessageToApi, DepthPayload, DbMessage, TradeMessage, OrderMessage};
use crate::ws::{WsMessage, WsMessageData, TradeData, DepthData};
use crate::ladder::{ladder_find, ladder_drop, ladder_insert};
use crate::matching::{ladder_match, lemma_ladder_match, fills_qty_sum};
use crate::ledger::{Ledger, UserBalance, bal_lookup, asset_total, ledger_map, map_models, lemma_models_self, lemma_models_unique};
use crate::numeric::{parse_scaled, valid_scaled, scaled_val, scaled_str, format_scaled, dec_str, str_eq, format_amount, find_char, find_char_exec, PRICE_DECIMALS, QUANTITY_DECIMALS, AMOUNT_DECIMALS, BASE_FACTOR};

verus! {

/// The asset credited by an on-ramp.
pub fn base_currency() -> (r: &'static str)
    ensures
        r@ == "INR"@,
{
    "INR"
}

/// The base asset of a market symbol: everything before the first `_`,
/// or the whole symbol if there is none.
pub open spec fn base_of(m: Seq<char>) -> Seq<char> {
    let i = find_char(m, '_', 0);
    if i < 0 {
        m
    } else {
        m.subrange(0, i)
    }
}

/// The quote asset of a market symbol: the segment after the first `_`
/// up to the next `_`, or the engine's base currency if the symbol has
/// no `_` at all.
pub open spec fn quote_of(m: Seq<char>) -> Seq<char> {
    let i = find_char(m, '_', 0);
    if i < 0 {
        "INR"@
    } else {
        let j = find_char(m, '_', i + 1);
        if j < 0 {
            m.subrange(i + 1, m.len() as int)
        } else {
            m.subrange(i + 1, j)
        }
    }
}

/// Splits a market symbol into its base and quote assets.
pub fn split_market(market: &str) -> (r: (String, String))
    ensures
        r.0@ == base_of(market@),
        r.1@ == quote_of(market@),
{
    let n = market.unicode_len();
    match find_char_exec(market, '_', 0) {
        None => (String::from_str(market), String::from_str(base_currency())),
        Some(i) => {
            let base = String::from_str(market.substring_char(0, i));
            let quote = match find_char_exec(market, '_', i + 1) {
                None => String::from_str(market.substring_char(i + 1, n)),
                Some(j) => String::from_str(market.substring_char(i + 1, j)),
            };
            (base, quote)
        },
    }
}

/// First book of this market, or -1.
pub open spec fn book_idx_of(books: Seq<Orderbook>, m: Seq<char>) -> int
    decreases books.len(),
{
    if books.len() == 0 {
        -1
    } else if books[0]@.market == m {
        0
    } else {
        let r = book_idx_of(books.drop_first(), m);
        if r < 0 {
            -1
        } else {
            r + 1
        }
    }
}

/// Executable search for a market's book.
fn find_book_idx(books: &Vec<Orderbook>, market: &str, from: usize) -> (r: Option<usize>)
    requires
        from <= books@.len(),
    ensures
        r matches Some(i) ==> from <= i < books@.len()
            && book_idx_of(books@.skip(from as int), market@) == i - from
            && books@[i as int]@.market == market@,
        r is None ==> book_idx_of(books@.skip(from as int), market@) == -1,
    decreases books@.len() - from,
{
    if from == books.len() {
        proof {
            assert(books@.skip(from as int) =~= Seq::<Orderbook>::empty());
        }
        return None;
    }
    proof {
        assert(books@.skip(from as int)[0] == books@[from as int]);
        assert(books@.skip(from as int).drop_first() =~= books@.skip(from as int + 1));
    }
    if str_eq(books[from].ticker(), market) {
        Some(from)
    } else {
        find_book_idx(books, market, from + 1)
    }
}

/// A transaction id already seen by the on-ramp.
pub open spec fn txn_seen(txns: Seq<String>, t: Seq<char>) -> bool {
    exists|i: int| 0 <= i < txns.len() && (#[trigger] txns[i])@ == t
}

/// Executable check for a seen transaction id.
fn txn_seen_exec(txns: &Vec<String>, t: &str) -> (r: bool)
    ensures
        r == txn_seen(txns@, t@),
{
    let mut i: usize = 0;
    while i < txns.len()
        invariant
            0 <= i <= txns@.len(),
            forall|k: int| 0 <= k < i ==> (#[trigger] txns@[k])@ != t@,
        decreases txns@.len() - i,
    {
        if str_eq(txns[i].as_str(), t) {
            return true;
        }
        i = i + 1;
    }
    false
}

/// The engine's state: one book per market, the ledger, and the
/// transaction ids already credited by the on-ramp.
#[derive(Debug)]
pub struct Engine {
    pub orderbooks: Vec<Orderbook>,
    pub balances: Ledger,
    pub used_txn_ids: Vec<String>,
}

impl Engine {
    /// Every book and the ledger are well formed.
    pub open spec fn wf(&self) -> bool {
        &&& forall|i: int| 0 <= i < self.orderbooks@.len()
            ==> (#[trigger] self.orderbooks@[i]).wf()
        &&& self.balances.wf()
    }

    /// A fresh engine with no markets, no funds and no history.
    pub fn new() -> (r: Engine)
        ensures
            r.wf(),
            r.orderbooks@.len() == 0,
            r.balances.entries@.len() == 0,
            r.used_txn_ids@.len() == 0,
    {
        Engine { orderbooks: Vec::new(), balances: Ledger::new(), used_txn_ids: Vec::new() }
    }

    /// Adds a market's book.
    pub fn add_orderbook(&mut self, orderbook: Orderbook)
        requires
            old(self).wf(),
            orderbook.wf(),
        ensures
            final(self).wf(),
            final(self).orderbooks@ == old(self).orderbooks@.push(orderbook),
            final(self).balances == old(self).balances,
            final(self).used_txn_ids == old(self).used_txn_ids,
    {
        self.orderbooks.push(orderbook);
    }

    /// Credits a user's balance in some asset, creating the row if
    /// absent: the seeding entry point, and the on-ramp's workhorse.
    pub fn deposit(&mut self, user_id: &str, asset: &str, amount: u64) -> (r: bool)
        requires
            old(self).wf(),
        ensures
            final(self).wf(),
            final(self).orderbooks == old(self).orderbooks,
            final(self).used_txn_ids == old(self).used_txn_ids,
            ({
                let was = match bal_lookup(old(self).balances.entries@, user_id@, asset@) {
                    Some(b) => b,
                    None => UserBalance { available: 0, locked: 0 },
                };
                &&& r == (was.available + was.locked + amount <= u64::MAX)
                &&& (r ==> bal_lookup(final(self).balances.entries@, user_id@, asset@)
                    == Some(UserBalance { available: (was.available + amount) as u64, locked: was.locked }))
                &&& (r ==> asset_total(final(self).balances.entries@, asset@)
                    == asset_total(old(self).balances.entries@, asset@) + amount)
            }),
            forall|u2: Seq<char>, a2: Seq<char>| !(u2 == user_id@ && a2 == asset@)
                ==> #[trigger] bal_lookup(final(self).balances.entries@, u2, a2)
                == bal_lookup(old(self).balances.entries@, u2, a2),
            forall|a2: Seq<char>| a2 != asset@
                ==> #[trigger] asset_total(final(self).balances.entries@, a2)
                == asset_total(old(self).balances.entries@, a2),
    {
        self.balances.credit(user_id, asset, amount)
    }

    /// The on-ramp: credits the base currency, exactly once per
    /// transaction id.  A repeated id, an unparsable amount, or a
    /// credit that would overflow the row is rejected and changes
    /// nothing.
    pub fn on_ramp(&mut self, user_id: &str, amount: &str, txn_id: &str) -> (r: bool)
        requires
            old(self).wf(),
        ensures
            final(self).wf(),
            final(self).orderbooks == old(self).orderbooks,
            r == (!txn_seen(old(self).used_txn_ids@, txn_id@) && valid_scaled(amount@,
                AMOUNT_DECIMALS as int)
                && ({
                let was = match bal_lookup(old(self).balances.entries@, user_id@, "INR"@) {
                    Some(b) => b,
                    None => UserBalance { available: 0, locked: 0 },
                };
                was.available + was.locked + scaled_val(amount@, AMOUNT_DECIMALS as int)
                    <= u64::MAX
            })),
            r ==> ({
                let was = match bal_lookup(old(self).balances.entries@, user_id@, "INR"@) {
                    Some(b) => b,
                    None => UserBalance { available: 0, locked: 0 },
                };
                &&& bal_lookup(final(self).balances.entries@, user_id@, "INR"@)
                    == Some(UserBalance {
                    available: (was.available + scaled_val(amount@, AMOUNT_DECIMALS as int)) as u64,
                    locked: was.locked,
                })
                &&& txn_seen(final(self).used_txn_ids@, txn_id@)
            }),
            r ==> forall|u2: Seq<char>, a2: Seq<char>| !(u2 == user_id@ && a2 == "INR"@)
                ==> #[trigger] bal_lookup(final(self).balances.entries@, u2, a2)
                == bal_lookup(old(self).balances.entries@, u2, a2),
            !r ==> final(self).balances.entries@ == old(self).balances.entries@
                && final(self).used_txn_ids@ == old(self).used_txn_ids@,
    {
        if txn_seen_exec(&self.used_txn_ids, txn_id) {
            return false;
        }
        let amt = match parse_scaled(amount, AMOUNT_DECIMALS) {
            Some(v) => v,
            None => {
                return false;
            },
        };
        let base = base_currency();
        proof {
            reveal_strlit("INR");
        }
        let credited = self.balances.credit(user_id, base, amt);
        if !credited {
            return false;
        }
        self.used_txn_ids.push(String::from_str(txn_id));
        proof {
            assert(self.used_txn_ids@[self.used_txn_ids@.len() - 1]@ == txn_id@);
        }
        true
    }
}

/// Makes sure the map has a row for this key, zero-funded if fresh.
pub open spec fn ensure_key_m(
    m: Map<(Seq<char>, Seq<char>), UserBalance>,
    u: Seq<char>,
    a: Seq<char>,
) -> Map<(Seq<char>, Seq<char>), UserBalance> {
    if m.contains_key((u, a)) {
        m
    } else {
        m.insert((u, a), UserBalance { available: 0, locked: 0 })
    }
}

/// One settlement leg on the map model: `amount` of `asset` moves from
/// the payer's locked funds to the payee's available funds, exactly
/// when both rows exist, the payer has it locked, and the payee's row
/// stays within ticks; otherwise nothing moves.
pub open spec fn transfer_m(
    m: Map<(Seq<char>, Seq<char>), UserBalance>,
    from: Seq<char>,
    to: Seq<char>,
    asset: Seq<char>,
    amount: int,
) -> Map<(Seq<char>, Seq<char>), UserBalance> {
    if m.contains_key((from, asset)) && m.contains_key((to, asset)) && m[(from, asset)].locked
        >= amount && m[(to, asset)].available + m[(to, asset)].locked + amount <= u64::MAX {
        let fb = m[(from, asset)];
        let tb = m[(to, asset)];
        m.insert((from, asset), UserBalance {
            available: fb.available,
            locked: (fb.locked - amount) as u64,
        }).insert((to, asset), UserBalance {
            available: (tb.available + amount) as u64,
            locked: tb.locked,
        })
    } else {
        m
    }
}

/// The ledger effect of one fill.  For a buying taker: its locked quote
/// pays the maker, and the maker's locked base pays it; mirrored for a
/// selling taker.
pub open spec fn apply_fill_m(
    m: Map<(Seq<char>, Seq<char>), UserBalance>,
    taker: Seq<char>,
    base: Seq<char>,
    quote: Seq<char>,
    side: OrderSide,
    f: Fill,
) -> Map<(Seq<char>, Seq<char>), UserBalance> {
    let maker = f.other_user_id@;
    let notional = f.qty * f.price;
    let base_amt = f.qty * BASE_FACTOR;
    if side == OrderSide::Buy {
        transfer_m(transfer_m(m, taker, maker, quote, notional), maker, taker, base, base_amt)
    } else {
        transfer_m(transfer_m(m, maker, taker, quote, notional), taker, maker, base, base_amt)
    }
}

/// The ledger effect of a fill sequence, first fill first.
pub open spec fn apply_fills_m(
    m: Map<(Seq<char>, Seq<char>), UserBalance>,
    fills: Seq<Fill>,
    taker: Seq<char>,
    base: Seq<char>,
    quote: Seq<char>,
    side: OrderSide,
) -> Map<(Seq<char>, Seq<char>), UserBalance>
    decreases fills.len(),
{
    if fills.len() == 0 {
        m
    } else {
        apply_fills_m(
            apply_fill_m(m, taker, base, quote, side, fills[0]),
            fills.drop_first(),
            taker,
            base,
            quote,
            side,
        )
    }
}

/// Folding one more fill at the end.
proof fn lemma_apply_fills_snoc(
    m: Map<(Seq<char>, Seq<char>), UserBalance>,
    fills: Seq<Fill>,
    x: Fill,
    taker: Seq<char>,
    base: Seq<char>,
    quote: Seq<char>,
    side: OrderSide,
)
    ensures
        apply_fills_m(m, fills.push(x), taker, base, quote, side) == apply_fill_m(
            apply_fills_m(m, fills, taker, base, quote, side),
            taker,
            base,
            quote,
            side,
            x,
        ),
    decreases fills.len(),
{
    if fills.len() == 0 {
        assert(fills.push(x).drop_first() =~= Seq::<Fill>::empty());
        assert(fills.push(x)[0] == x);
        assert(apply_fills_m(apply_fill_m(m, taker, base, quote, side, x), Seq::<Fill>::empty(),
            taker, base, quote, side) == apply_fill_m(m, taker, base, quote, side, x));
    } else {
        assert(fills.push(x)[0] == fills[0]);
        assert(fills.push(x).drop_first() =~= fills.drop_first().push(x));
        lemma_apply_fills_snoc(
            apply_fill_m(m, taker, base, quote, side, fills[0]),
            fills.drop_first(),
            x,
            taker,
            base,
            quote,
            side,
        );
    }
}

/// Relies on rand's `Alphanumeric` distribution: `sample_string` with
/// length 26 returns a string of exactly 26 (alphanumeric, hence
/// one-byte) characters.
#[verifier::external_body]
fn gen_order_id() -> (r: String)
    ensures
        r@.len() == 26,
{
    rand::distributions::DistString::sample_string(
        &rand::distributions::Alphanumeric,
        &mut rand::thread_rng(),
        26,
    )
}

/// The asset a new order must lock: the quote for a buy, the base for
/// a sell.
pub open spec fn lock_asset_of(side: OrderSide, m: Seq<char>) -> Seq<char> {
    if side == OrderSide::Buy {
        quote_of(m)
    } else {
        base_of(m)
    }
}

/// The amount a new order must lock, in balance ticks: its full
/// notional for a buy, its quantity scaled by `BASE_FACTOR` for a sell.
pub open spec fn required_of(side: OrderSide, pv: int, qv: int) -> int {
    if side == OrderSide::Buy {
        pv * qv
    } else {
        qv * BASE_FACTOR
    }
}

/// What accepting an order does, once the inputs parsed and the market
/// was found: rows for base and quote are ensured; the required funds
/// are locked or the order is rejected with `Insufficient funds`; the
/// book matches it exactly as the matching model prescribes, every fill
/// is settled in turn, and the residual rests.  The trade-id capacity
/// guard rejects the order with the lock undone.
pub open spec fn create_order_main(
    pre: Engine,
    post: Engine,
    r: Result<(u64, Vec<Fill>, String), String>,
    m: Seq<char>,
    pv: int,
    qv: int,
    side: OrderSide,
    u: Seq<char>,
) -> bool {
    let i = book_idx_of(pre.orderbooks@, m);
    let book0 = pre.orderbooks@[i]@;
    let base = base_of(m);
    let quote = quote_of(m);
    let la = lock_asset_of(side, m);
    let req = required_of(side, pv, qv);
    let m0 = ledger_map(pre.balances.entries@);
    let m1 = ensure_key_m(ensure_key_m(m0, u, base), u, quote);
    let avail0 = m1[(u, la)].available;
    &&& post.used_txn_ids@ == pre.used_txn_ids@
    &&& (avail0 < req ==> (r matches Err(msg) && msg@ == "Insufficient funds"@
        && post.orderbooks@ == pre.orderbooks@
        && ledger_map(post.balances.entries@) == m1))
    &&& (avail0 >= req ==> {
        let m2 = m1.insert((u, la), (UserBalance {
            available: (avail0 - req) as u64,
            locked: (m1[(u, la)].locked + req) as u64,
        }));
        if qv >= u64::MAX - book0.last_trade_id {
            r matches Err(msg) && msg@ == "trade id limit reached"@
                && post.orderbooks@ == pre.orderbooks@
                && ledger_map(post.balances.entries@) == m1
        } else {
            let out = ladder_match(
                if side == OrderSide::Buy {
                    book0.asks
                } else {
                    book0.bids
                },
                side,
                u,
                pv as u64,
                qv,
                book0.last_trade_id + 1,
            );
            r matches Ok(v) && {
                &&& v.0 as int == out.executed
                &&& v.1@ == out.fills
                &&& v.2@.len() == 26
                &&& fills_qty_sum(out.fills) == out.executed
                &&& ledger_map(post.balances.entries@) == apply_fills_m(m2, out.fills, u, base,
                    quote, side)
                &&& post.orderbooks@.len() == pre.orderbooks@.len()
                &&& (forall|j: int| 0 <= j < pre.orderbooks@.len() && j != i
                    ==> #[trigger] post.orderbooks@[j] == pre.orderbooks@[j])
                &&& ({
                    let nb = post.orderbooks@[i]@;
                    &&& nb.market == m
                    &&& nb.last_trade_id == book0.last_trade_id + out.fills.len()
                    &&& exists|rest: Order| (#[trigger] rest.price) == pv && rest.quantity == qv
                        && rest.filled == v.0 && rest.side == side && rest.user_id@ == u
                        && rest.order_id == v.2 && {
                        if side == OrderSide::Buy {
                            nb.asks == out.levels && nb.bids == (if out.executed == qv {
                                book0.bids
                            } else {
                                ladder_insert(book0.bids, rest, true)
                            })
                        } else {
                            nb.bids == out.levels && nb.asks == (if out.executed == qv {
                                book0.asks
                            } else {
                                ladder_insert(book0.asks, rest, false)
                            })
                        }
                    }
                })
            }
        }
    })
}

impl Engine {
    /// Settles a batch of fills against the ledger, fill by fill, as
    /// `apply_fills_m` prescribes.  Asset totals never change.
    fn update_balance(
        &mut self,
        user_id: &str,
        base: &str,
        quote: &str,
        side: OrderSide,
        fills: &Vec<Fill>,
    )
        requires
            old(self).wf(),
            forall|k: int| 0 <= k < fills@.len()
                ==> (#[trigger] fills@[k]).other_user_id@ != user_id@,
            forall|k: int| 0 <= k < fills@.len()
                ==> (#[trigger] fills@[k]).qty * fills@[k].price <= u64::MAX,
            forall|k: int| 0 <= k < fills@.len()
                ==> (#[trigger] fills@[k]).qty * BASE_FACTOR <= u64::MAX,
        ensures
            final(self).wf(),
            final(self).orderbooks == old(self).orderbooks,
            final(self).used_txn_ids == old(self).used_txn_ids,
            ledger_map(final(self).balances.entries@) == apply_fills_m(
                ledger_map(old(self).balances.entries@),
                fills@,
                user_id@,
                base@,
                quote@,
                side,
            ),
            forall|a2: Seq<char>| #[trigger] asset_total(final(self).balances.entries@, a2)
                == asset_total(old(self).balances.entries@, a2),
    {
        let ghost m0 = ledger_map(old(self).balances.entries@);
        let mut i: usize = 0;
        proof {
            assert(fills@.subrange(0, 0) =~= Seq::<Fill>::empty());
            lemma_models_self(self.balances.entries@);
        }
        while i < fills.len()
            invariant
                0 <= i <= fills@.len(),
                self.wf(),
                self.orderbooks == old(self).orderbooks,
                self.used_txn_ids == old(self).used_txn_ids,
                forall|k: int| 0 <= k < fills@.len()
                    ==> (#[trigger] fills@[k]).other_user_id@ != user_id@,
                forall|k: int| 0 <= k < fills@.len()
                    ==> (#[trigger] fills@[k]).qty * fills@[k].price <= u64::MAX,
                forall|k: int| 0 <= k < fills@.len()
                    ==> (#[trigger] fills@[k]).qty * BASE_FACTOR <= u64::MAX,
                map_models(self.balances.entries@, apply_fills_m(m0, fills@.subrange(0, i as int),
                    user_id@, base@, quote@, side)),
                forall|a2: Seq<char>| #[trigger] asset_total(self.balances.entries@, a2)
                    == asset_total(old(self).balances.entries@, a2),
            decreases fills@.len() - i,
        {
            let ghost cur = apply_fills_m(m0, fills@.subrange(0, i as int), user_id@, base@,
                quote@, side);
            let f = &fills[i];
            let notional = f.qty * f.price;
            let base_amt = f.qty * BASE_FACTOR;
            let ghost mid_m = if side == OrderSide::Buy {
                transfer_m(cur, user_id@, f.other_user_id@, quote@, notional as int)
            } else {
                transfer_m(cur, f.other_user_id@, user_id@, quote@, notional as int)
            };
            if side == OrderSide::Buy {
                let ghost pre1 = self.balances.entries@;
                self.balances.transfer(user_id, &f.other_user_id, quote, notional);
                proof {
                    lemma_step_models(pre1, self.balances.entries@, cur, user_id@,
                        f.other_user_id@, quote@, notional);
                }
                let ghost pre2 = self.balances.entries@;
                self.balances.transfer(&f.other_user_id, user_id, base, base_amt);
                proof {
                    lemma_step_models(pre2, self.balances.entries@, mid_m, f.other_user_id@,
                        user_id@, base@, base_amt);
                }
            } else {
                let ghost pre1 = self.balances.entries@;
                self.balances.transfer(&f.other_user_id, user_id, quote, notional);
                proof {
                    lemma_step_models(pre1, self.balances.entries@, cur, f.other_user_id@,
                        user_id@, quote@, notional);
                }
                let ghost pre2 = self.balances.entries@;
                self.balances.transfer(user_id, &f.other_user_id, base, base_amt);
                proof {
                    lemma_step_models(pre2, self.balances.entries@, mid_m, user_id@,
                        f.other_user_id@, base@, base_amt);
                }
            }
            proof {
                assert(fills@.subrange(0, i as int + 1)
                    =~= fills@.subrange(0, i as int).push(fills@[i as int]));
                lemma_apply_fills_snoc(m0, fills@.subrange(0, i as int), fills@[i as int],
                    user_id@, base@, quote@, side);
            }
            i = i + 1;
        }
        proof {
            assert(fills@.subrange(0, fills@.len() as int) =~= fills@);
            lemma_models_self(self.balances.entries@);
            lemma_models_unique(self.balances.entries@, ledger_map(self.balances.entries@),
                apply_fills_m(m0, fills@, user_id@, base@, quote@, side));
        }
    }
}

/// The whole contract of accepting an order, before the market is
/// known to exist: each malformed input is rejected exactly, and an
/// existing market hands over to `create_order_main`.
pub open spec fn create_order_full(
    pre: Engine,
    post: Engine,
    r: Result<(u64, Vec<Fill>, String), String>,
    m: Seq<char>,
    p: Seq<char>,
    q: Seq<char>,
    side: OrderSide,
    u: Seq<char>,
) -> bool {
    &&& (!valid_scaled(p, PRICE_DECIMALS as int) ==> (r matches Err(msg)
        && msg@ == "Invalid price"@ && post == pre))
    &&& (valid_scaled(p, PRICE_DECIMALS as int) && !valid_scaled(q, QUANTITY_DECIMALS as int)
        ==> (r matches Err(msg) && msg@ == "Invalid quantity"@ && post == pre))
    &&& (valid_scaled(p, PRICE_DECIMALS as int) && valid_scaled(q, QUANTITY_DECIMALS as int)
        && book_idx_of(pre.orderbooks@, m) < 0 ==> (r matches Err(msg)
        && msg@ == "No orderbook found"@ && post == pre))
    &&& (valid_scaled(p, PRICE_DECIMALS as int) && valid_scaled(q, QUANTITY_DECIMALS as int)
        && book_idx_of(pre.orderbooks@, m) >= 0 ==> create_order_main(pre, post, r, m,
        scaled_val(p, PRICE_DECIMALS as int), scaled_val(q, QUANTITY_DECIMALS as int), side, u))
}

/// The whole contract of a cancellation: the order leaves its ladder
/// and exactly its remaining notional is released to its owner.
pub open spec fn cancel_order_full(
    pre: Engine,
    post: Engine,
    r: Result<(u64, u64, u64), String>,
    oid: Seq<char>,
    m: Seq<char>,
) -> bool {
    &&& (book_idx_of(pre.orderbooks@, m) < 0 ==> (r matches Err(msg)
        && msg@ == "No orderbook found"@ && post == pre))
    &&& ({
        let i = book_idx_of(pre.orderbooks@, m);
        let book0 = pre.orderbooks@[i]@;
        i >= 0 ==> {
            let found = book_find(book0, oid);
            &&& (found is None ==> (r matches Err(msg) && msg@ == "Order not found"@
                && post == pre))
            &&& (found matches Some(o) ==> {
                let remaining = o.quantity - o.filled;
                let amount = if o.side == OrderSide::Buy {
                    remaining * o.price
                } else {
                    remaining * BASE_FACTOR
                };
                let asset = if o.side == OrderSide::Buy {
                    quote_of(m)
                } else {
                    base_of(m)
                };
                let was = bal_lookup(pre.balances.entries@, o.user_id@, asset);
                if was matches Some(b) && b.locked >= amount {
                    &&& (r matches Ok(v) && v.0 == o.filled && v.1 as int == remaining
                        && v.2 == o.price)
                    &&& bal_lookup(post.balances.entries@, o.user_id@, asset) == Some(
                    UserBalance {
                        available: (was->Some_0.available + amount) as u64,
                        locked: (was->Some_0.locked - amount) as u64,
                    })
                    &&& forall|u2: Seq<char>, a2: Seq<char>| !(u2 == o.user_id@ && a2 == asset)
                        ==> #[trigger] bal_lookup(post.balances.entries@, u2, a2) == bal_lookup(
                        pre.balances.entries@,
                        u2,
                        a2,
                    )
                    &&& post.orderbooks@.len() == pre.orderbooks@.len()
                    &&& (forall|j: int| 0 <= j < pre.orderbooks@.len() && j != i
                        ==> #[trigger] post.orderbooks@[j] == pre.orderbooks@[j])
                    &&& ({
                        let nb = post.orderbooks@[i]@;
                        &&& nb.market == book0.market
                        &&& nb.last_trade_id == book0.last_trade_id
                        &&& (o.side == OrderSide::Buy ==> nb.bids == ladder_drop(book0.bids, oid)
                            && nb.asks == book0.asks)
                        &&& (o.side == OrderSide::Sell ==> nb.asks == ladder_drop(book0.asks, oid)
                            && nb.bids == book0.bids)
                    })
                } else {
                    r matches Err(msg) && msg@ == "Insufficient locked funds"@ && post == pre
                }
            })
        }
    })
}

impl Engine {
    /// Accepts a new order: parses the amounts, finds the market,
    /// ensures the user's rows, locks the required funds, matches,
    /// settles every fill and rests the residual.  Each rejection is
    /// exact, and no request changes any asset's total holdings.
    pub fn create_order(
        &mut self,
        market: &str,
        price: &str,
        quantity: &str,
        side: OrderSide,
        user_id: &str,
    ) -> (r: Result<(u64, Vec<Fill>, String), String>)
        requires
            old(self).wf(),
        ensures
            final(self).wf(),
            final(self).used_txn_ids@ == old(self).used_txn_ids@,
            forall|a2: Seq<char>| #[trigger] asset_total(final(self).balances.entries@, a2)
                == asset_total(old(self).balances.entries@, a2),
            create_order_full(*old(self), *final(self), r, market@, price@, quantity@, side,
                user_id@),
    {
        let pv = match parse_scaled(price, PRICE_DECIMALS) {
            Some(v) => v,
            None => {
                return Err(String::from_str("Invalid price"));
            },
        };
        let qv = match parse_scaled(quantity, QUANTITY_DECIMALS) {
            Some(v) => v,
            None => {
                return Err(String::from_str("Invalid quantity"));
            },
        };
        proof {
            assert(self.orderbooks@.skip(0) =~= self.orderbooks@);
        }
        let bi = match find_book_idx(&self.orderbooks, market, 0) {
            Some(i) => i,
            None => {
                return Err(String::from_str("No orderbook found"));
            },
        };
        let (base, quote) = split_market(market);
        let ghost u = user_id@;
        let ghost m0 = ledger_map(old(self).balances.entries@);
        proof {
            lemma_models_self(self.balances.entries@);
        }
        let ghost pre_b = self.balances.entries@;
        self.balances.ensure_entry(user_id, base.as_str());
        let ghost m_base = ensure_key_m(m0, u, base@);
        proof {
            let was = bal_lookup(pre_b, u, base@);
            let nb = if was is Some {
                was->Some_0
            } else {
                UserBalance { available: 0, locked: 0 }
            };
            lemma_upd_models(pre_b, self.balances.entries@, m0, u, base@, nb);
            assert(m_base =~= m0.insert((u, base@), nb));
        }
        let ghost pre_q = self.balances.entries@;
        self.balances.ensure_entry(user_id, quote.as_str());
        let ghost m1 = ensure_key_m(m_base, u, quote@);
        proof {
            let was = bal_lookup(pre_q, u, quote@);
            let nb = if was is Some {
                was->Some_0
            } else {
                UserBalance { available: 0, locked: 0 }
            };
            lemma_upd_models(pre_q, self.balances.entries@, m_base, u, quote@, nb);
            assert(m1 =~= m_base.insert((u, quote@), nb));
        }
        let la: &String = if side == OrderSide::Buy {
            &quote
        } else {
            &base
        };
        let ghost laa = lock_asset_of(side, market@);
        proof {
            assert(la@ == laa);
            assert(m1.contains_key((u, laa)));
        }
        let b1 = match self.balances.balance_of(user_id, la.as_str()) {
            Some(b) => b,
            None => {
                proof {
                    assert(false);
                }
                return Err(String::from_str("Insufficient funds"));
            },
        };
        proof {
            assert(b1 == m1[(u, laa)]);
        }
        // the required funds, computed wide so an oversized notional is
        // simply unaffordable
        let req128: u128 = if side == OrderSide::Buy {
            proof {
                lemma_tick_product_fits(pv, qv);
            }
            (pv as u128) * (qv as u128)
        } else {
            proof {
                lemma_tick_product_fits(qv, BASE_FACTOR);
            }
            (qv as u128) * (BASE_FACTOR as u128)
        };
        if (b1.available as u128) < req128 {
            proof {
                lemma_models_self(self.balances.entries@);
                lemma_models_unique(self.balances.entries@,
                    ledger_map(self.balances.entries@), m1);
            }
            return Err(String::from_str("Insufficient funds"));
        }
        let req: u64 = req128 as u64;
        let ghost pre_l = self.balances.entries@;
        let locked_ok = self.balances.lock(user_id, la.as_str(), req);
        proof {
            assert(locked_ok);
        }
        let ghost m2 = m1.insert((u, laa), (UserBalance {
            available: (b1.available - req) as u64,
            locked: (b1.locked + req) as u64,
        }));
        proof {
            lemma_upd_models(pre_l, self.balances.entries@, m1, u, laa, UserBalance {
                available: (b1.available - req) as u64,
                locked: (b1.locked + req) as u64,
            });
        }
        proof {
            crate::ledger::lemma_lookup_ok(pre_l, u, laa);
        }
        let last = self.orderbooks[bi].last_trade_id;
        if qv >= u64::MAX - last {
            let ghost pre_r = self.balances.entries@;
            let released = self.balances.release(user_id, la.as_str(), req);
            proof {
                assert(b1.locked + req <= u64::MAX);
                assert(released);
                lemma_upd_models(pre_r, self.balances.entries@, m2, u, laa, b1);
                assert(m2.insert((u, laa), b1) =~= m1);
                lemma_models_self(self.balances.entries@);
                lemma_models_unique(self.balances.entries@,
                    ledger_map(self.balances.entries@), m1);
            }
            return Err(String::from_str("trade id limit reached"));
        }
        proof {
            if side == OrderSide::Buy {
                assert(req128 == pv * qv);
                assert(pv * qv <= u64::MAX);
                assert(qv * pv == pv * qv) by (nonlinear_arith);
            } else {
                assert(req128 == qv * BASE_FACTOR);
                assert(qv * BASE_FACTOR <= u64::MAX);
            }
        }
        let oid = gen_order_id();
        let oid_ret = oid.clone();
        let mut order = Order {
            price: pv,
            quantity: qv,
            order_id: oid,
            filled: 0,
            side,
            user_id: String::from_str(user_id),
        };
        let ghost books0 = old(self).orderbooks@;
        let mut bk = self.orderbooks.remove(bi);
        proof {
            assert(bk == books0[bi as int]);
        }
        let ghost book0 = bk@;
        let res = bk.add_order(&mut order);
        let (fills, executed) = match res {
            Ok(v) => v,
            Err(_) => {
                proof {
                    assert(false);
                }
                self.orderbooks.insert(bi, bk);
                return Err(String::from_str("trade id limit reached"));
            },
        };
        self.orderbooks.insert(bi, bk);
        proof {
            assert(self.orderbooks@.len() == books0.len());
            assert(forall|j: int| 0 <= j < books0.len() && j != bi
                ==> #[trigger] self.orderbooks@[j] == books0[j]);
            assert(self.orderbooks@[bi as int]@.market == book0.market);
        }
        // what the matching model says of the fills, for settlement
        let ghost opposing = if side == OrderSide::Buy {
            book0.asks
        } else {
            book0.bids
        };
        let ghost out = ladder_match(opposing, side, u, pv, qv as int, book0.last_trade_id + 1);
        proof {
            lemma_ladder_match(opposing, side, u, pv, qv as int, book0.last_trade_id + 1);
            assert forall|k: int| 0 <= k < fills@.len()
                implies (#[trigger] fills@[k]).qty * fills@[k].price <= u64::MAX by {
                let f = fills@[k];
                if side == OrderSide::Buy {
                    assert(f.qty <= qv && f.price <= pv);
                    vstd::arithmetic::mul::lemma_mul_inequality(f.qty as int, qv as int,
                        f.price as int);
                    vstd::arithmetic::mul::lemma_mul_inequality(f.price as int, pv as int,
                        qv as int);
                    vstd::arithmetic::mul::lemma_mul_is_commutative(qv as int, f.price as int);
                    vstd::arithmetic::mul::lemma_mul_is_commutative(pv as int, qv as int);
                }
            }
            assert forall|k: int| 0 <= k < fills@.len()
                implies (#[trigger] fills@[k]).qty * BASE_FACTOR <= u64::MAX by {
                let f = fills@[k];
                if side == OrderSide::Sell {
                    assert(f.qty <= qv);
                    assert(qv * BASE_FACTOR <= u64::MAX);
                    vstd::arithmetic::mul::lemma_mul_inequality(f.qty as int, qv as int,
                        BASE_FACTOR as int);
                }
            }
        }
        let ghost pre_s = self.balances.entries@;
        self.update_balance(user_id, base.as_str(), quote.as_str(), side, &fills);
        proof {
            lemma_models_self(pre_s);
            lemma_models_unique(pre_s, ledger_map(pre_s), m2);
            lemma_models_self(self.balances.entries@);
            assert(ledger_map(self.balances.entries@)
                == apply_fills_m(m2, out.fills, u, base@, quote@, side));
        }
        let r = Ok((executed, fills, oid_ret));
        proof {
            assert(create_order_main(*old(self), *self, r, market@, pv as int, qv as int, side,
                u)) by {
                let rest = order;
                assert(rest.price == pv && rest.quantity == qv && rest.filled == executed
                    && rest.side == side && rest.user_id@ == u && rest.order_id == oid_ret);
            }
        }
        r
    }

    /// Cancels a resting order: the order leaves its ladder and exactly
    /// its remaining notional moves from the owner's locked funds back
    /// to available — the remaining quantity times the limit price in
    /// the quote asset for a bid, the remaining quantity (in balance
    /// ticks) in the base asset for an ask.  Returns the executed
    /// quantity, the remaining quantity, and the price the order rested
    /// at.  The ledger is checked before anything mutates: a shortfall
    /// of locked funds rejects the request with both book and ledger
    /// untouched.  Every reachable state has the cover — each resting
    /// order locked its notional on acceptance — but that invariant is
    /// not carried in `wf`, so the guard stays and the release is exact
    /// only under the checked condition.
    pub fn cancel_order(&mut self, order_id: &str, market: &str) -> (r: Result<(u64, u64, u64), String>)
        requires
            old(self).wf(),
        ensures
            final(self).wf(),
            final(self).used_txn_ids@ == old(self).used_txn_ids@,
            forall|a2: Seq<char>| #[trigger] asset_total(final(self).balances.entries@, a2)
                == asset_total(old(self).balances.entries@, a2),
            cancel_order_full(*old(self), *final(self), r, order_id@, market@),
    {
        proof {
            assert(self.orderbooks@.skip(0) =~= self.orderbooks@);
        }
        let bi = match find_book_idx(&self.orderbooks, market, 0) {
            Some(i) => i,
            None => {
                return Err(String::from_str("No orderbook found"));
            },
        };
        let (base, quote) = split_market(market);
        let o = match self.orderbooks[bi].find_order(order_id) {
            Some(o) => o,
            None => {
                return Err(String::from_str("Order not found"));
            },
        };
        let ghost book0 = old(self).orderbooks@[bi as int]@;
        proof {
            // the found order is a resting order of its side's ladder,
            // so its fields are bounded by the book's well-formedness
            crate::ladder::lemma_ladder_drop_wf(book0.bids, order_id@, OrderSide::Buy);
            crate::ladder::lemma_ladder_drop_wf(book0.asks, order_id@, OrderSide::Sell);
        }
        let remaining = o.quantity - o.filled;
        let amount: u64;
        let asset: &String;
        if o.side == OrderSide::Buy {
            proof {
                vstd::arithmetic::mul::lemma_mul_inequality(remaining as int, o.quantity as int,
                    o.price as int);
            }
            amount = remaining * o.price;
            asset = &quote;
        } else {
            proof {
                vstd::arithmetic::mul::lemma_mul_inequality(remaining as int, o.quantity as int,
                    BASE_FACTOR as int);
            }
            amount = remaining * BASE_FACTOR;
            asset = &base;
        }
        let b = match self.balances.balance_of(o.user_id.as_str(), asset.as_str()) {
            Some(b) => b,
            None => {
                return Err(String::from_str("Insufficient locked funds"));
            },
        };
        if b.locked < amount {
            return Err(String::from_str("Insufficient locked funds"));
        }
        let mut bk = self.orderbooks.remove(bi);
        let cancelled = if o.side == OrderSide::Buy {
            bk.cancel_bid(order_id)
        } else {
            bk.cancel_ask(order_id)
        };
        proof {
            if cancelled is Err {
                assert(false);
            }
        }
        self.orderbooks.insert(bi, bk);
        proof {
            assert(forall|j: int| 0 <= j < old(self).orderbooks@.len() && j != bi
                ==> #[trigger] self.orderbooks@[j] == old(self).orderbooks@[j]);
        }
        let released = self.balances.release(o.user_id.as_str(), asset.as_str(), amount);
        proof {
            assert(released);
        }
        Ok((o.filled, remaining, o.price))
    }
}

/// Everything one request produces: at most one reply, the records for
/// the DB writer, and the market-data events for the fan-out.
pub struct ProcessOutput {
    pub reply: Option<MessageToApi>,
    pub db_messages: Vec<DbMessage>,
    pub ws_messages: Vec<WsMessage>,
}

/// A correct DB trade record for one fill.  `is_buyer_maker` compares
/// the maker to the requesting user; since matching never fills a user
/// against itself, it reads false — kept as the engine's comparison
/// rather than a derived constant.
pub open spec fn trade_db_ok(
    msg: DbMessage,
    f: Fill,
    m: Seq<char>,
    taker: Seq<char>,
    now: i64,
) -> bool {
    msg matches DbMessage::TradeAdded(t) && {
        &&& t.id@ == dec_str(f.trade_id as int)
        &&& t.is_buyer_maker == (f.other_user_id@ == taker)
        &&& t.price@ == scaled_str(f.price as int, PRICE_DECIMALS as int)
        &&& t.quantity@ == scaled_str(f.qty as int, QUANTITY_DECIMALS as int)
        &&& t.quote_quantity@ == scaled_str(f.qty * f.price, AMOUNT_DECIMALS as int)
        &&& t.timestamp == now
        &&& t.market@ == m
    }
}

/// A correct DB order update for a touched maker.
pub open spec fn maker_update_ok(msg: DbMessage, f: Fill) -> bool {
    msg matches DbMessage::OrderUpdate(o) && {
        &&& o.order_id@ == f.marker_order_id@
        &&& o.executed_qty == f.qty
        &&& o.market is None
        &&& o.price is None
        &&& o.quantity is None
        &&& o.side is None
    }
}

/// A correct DB order update for the incoming order itself.
pub open spec fn taker_update_ok(
    msg: DbMessage,
    oid: Seq<char>,
    executed: u64,
    m: Seq<char>,
    pv: u64,
    qv: u64,
    side: OrderSide,
) -> bool {
    msg matches DbMessage::OrderUpdate(o) && {
        &&& o.order_id@ == oid
        &&& o.executed_qty == executed
        &&& (o.market matches Some(s) && s@ == m)
        &&& (o.price matches Some(s) && s@ == scaled_str(pv as int, PRICE_DECIMALS as int))
        &&& (o.quantity matches Some(s) && s@ == scaled_str(qv as int,
            QUANTITY_DECIMALS as int))
        &&& o.side == Some(side)
    }
}

/// The whole DB batch of an accepted order: one trade record per fill,
/// then the taker's update, then one update per touched maker.
pub open spec fn db_msgs_ok(
    msgs: Seq<DbMessage>,
    fills: Seq<Fill>,
    oid: Seq<char>,
    executed: u64,
    m: Seq<char>,
    pv: u64,
    qv: u64,
    side: OrderSide,
    taker: Seq<char>,
    now: i64,
) -> bool {
    &&& msgs.len() == 2 * fills.len() + 1
    &&& (forall|k: int| 0 <= k < fills.len() ==> trade_db_ok(#[trigger] msgs[k], fills[k], m,
        taker, now))
    &&& taker_update_ok(msgs[fills.len() as int], oid, executed, m, pv, qv, side)
    &&& (forall|k: int| 0 <= k < fills.len() ==> maker_update_ok(
        #[trigger] msgs[fills.len() + 1 + k],
        fills[k],
    ))
}

/// A correct trade event for one fill.
pub open spec fn trade_ws_ok(msg: WsMessage, f: Fill, m: Seq<char>, taker: Seq<char>) -> bool {
    &&& msg.stream@ == "trade@"@ + m
    &&& msg.data matches WsMessageData::Trade(t) && {
        &&& t.e@ == "trade"@
        &&& t.t == f.trade_id as i64
        &&& t.m == (f.other_user_id@ == taker)
        &&& t.p@ == scaled_str(f.price as int, PRICE_DECIMALS as int)
        &&& t.q@ == scaled_str(f.qty as int, QUANTITY_DECIMALS as int)
        &&& t.s@ == m
    }
}

/// The view of executable depth rows.
pub open spec fn rows_view(rows: Seq<(String, String)>) -> Seq<(Seq<char>, Seq<char>)> {
    rows.map_values(|r: (String, String)| (r.0@, r.1@))
}

/// The price strings the fills of a batch touched, in fill order.
pub open spec fn fill_price_strs(fills: Seq<Fill>) -> Seq<Seq<char>>
    decreases fills.len(),
{
    if fills.len() == 0 {
        Seq::empty()
    } else {
        fill_price_strs(fills.drop_last()).push(
            scaled_str(fills.last().price as int, PRICE_DECIMALS as int),
        )
    }
}

/// `p` reads as one of the given strings.
pub open spec fn str_in(prices: Seq<Seq<char>>, p: Seq<char>) -> bool {
    exists|i: int| 0 <= i < prices.len() && prices[i] == p
}

/// The depth rows whose price is among the given strings, in order.
pub open spec fn model_rows_at(
    model: Seq<(Seq<char>, Seq<char>)>,
    prices: Seq<Seq<char>>,
) -> Seq<(Seq<char>, Seq<char>)>
    decreases model.len(),
{
    if model.len() == 0 {
        Seq::empty()
    } else {
        let r = model.last();
        let kept: Seq<(Seq<char>, Seq<char>)> = if str_in(prices, r.0) {
            seq![r]
        } else {
            Seq::empty()
        };
        model_rows_at(model.drop_last(), prices) + kept
    }
}

/// The first depth row at the given price, as a list of at most one.
pub open spec fn model_first_at(
    model: Seq<(Seq<char>, Seq<char>)>,
    p: Seq<char>,
) -> Seq<(Seq<char>, Seq<char>)>
    decreases model.len(),
{
    if model.len() == 0 {
        Seq::empty()
    } else if model[0].0 == p {
        seq![model[0]]
    } else {
        model_first_at(model.drop_first(), p)
    }
}

/// A correct depth event: the given rows on each side.
pub open spec fn depth_ws_rows_ok(
    msg: WsMessage,
    m: Seq<char>,
    bmodel: Seq<(Seq<char>, Seq<char>)>,
    amodel: Seq<(Seq<char>, Seq<char>)>,
) -> bool {
    &&& msg.stream@ == "depth@"@ + m
    &&& msg.data matches WsMessageData::Depth(d) && {
        &&& d.e@ == "depth"@
        &&& (d.b matches Some(rows) && depth_matches(rows@, bmodel))
        &&& (d.a matches Some(rows) && depth_matches(rows@, amodel))
    }
}

/// The whole event batch of an accepted order: one depth event carrying,
/// on the opposing side, the book's rows at the prices the fills
/// touched, and on the order's own side at most the single row at its
/// limit price; then one trade event per fill.
pub open spec fn ws_msgs_ok(
    msgs: Seq<WsMessage>,
    fills: Seq<Fill>,
    m: Seq<char>,
    taker: Seq<char>,
    bids: Seq<crate::orderbook::LevelView>,
    asks: Seq<crate::orderbook::LevelView>,
    side: OrderSide,
    pv: u64,
) -> bool {
    &&& msgs.len() == fills.len() + 1
    &&& ({
        let own = scaled_str(pv as int, PRICE_DECIMALS as int);
        let touched = fill_price_strs(fills);
        let bmodel = if side == OrderSide::Buy {
            model_first_at(depth_of(bids), own)
        } else {
            model_rows_at(depth_of(bids), touched)
        };
        let amodel = if side == OrderSide::Buy {
            model_rows_at(depth_of(asks), touched)
        } else {
            model_first_at(depth_of(asks), own)
        };
        depth_ws_rows_ok(msgs[0], m, bmodel, amodel)
    })
    &&& (forall|k: int| 0 <= k < fills.len() ==> trade_ws_ok(#[trigger] msgs[k + 1], fills[k], m,
        taker))
}

/// Does any of the price strings read as `p`?
fn str_in_vec(prices: &Vec<String>, p: &str) -> (r: bool)
    ensures
        r == str_in(crate::subscriptions::views_of(prices@), p@),
{
    let ghost pv = crate::subscriptions::views_of(prices@);
    let mut i: usize = 0;
    while i < prices.len()
        invariant
            0 <= i <= prices@.len(),
            pv == crate::subscriptions::views_of(prices@),
            forall|k: int| 0 <= k < i ==> (#[trigger] prices@[k])@ != p@,
        decreases prices@.len() - i,
    {
        if str_eq(prices[i].as_str(), p) {
            proof {
                assert(pv[i as int] == p@);
            }
            return true;
        }
        i = i + 1;
    }
    proof {
        assert forall|k: int| 0 <= k < pv.len() implies (#[trigger] pv[k]) != p@ by {
            assert(pv[k] == prices@[k]@);
        }
    }
    false
}

/// The price strings of a fill batch.
fn fill_price_strings(fills: &Vec<Fill>) -> (r: Vec<String>)
    ensures
        crate::subscriptions::views_of(r@) == fill_price_strs(fills@),
{
    let mut r: Vec<String> = Vec::new();
    let mut i: usize = 0;
    proof {
        assert(fills@.subrange(0, 0) =~= Seq::<Fill>::empty());
        assert(crate::subscriptions::views_of(r@)
            =~= fill_price_strs(fills@.subrange(0, 0)));
    }
    while i < fills.len()
        invariant
            0 <= i <= fills@.len(),
            crate::subscriptions::views_of(r@) == fill_price_strs(fills@.subrange(0, i as int)),
        decreases fills@.len() - i,
    {
        r.push(format_scaled(fills[i].price, PRICE_DECIMALS));
        proof {
            let pre = fills@.subrange(0, i as int);
            let post = fills@.subrange(0, i as int + 1);
            assert(post.drop_last() =~= pre);
            assert(post.last() == fills@[i as int]);
            assert(crate::subscriptions::views_of(r@) =~= fill_price_strs(post));
        }
        i = i + 1;
    }
    proof {
        assert(fills@.subrange(0, fills@.len() as int) =~= fills@);
    }
    r
}

/// Copies the depth rows whose price is among the given strings.
fn rows_at_exec(rows: &Vec<(String, String)>, prices: &Vec<String>) -> (r: Vec<(String, String)>)
    ensures
        rows_view(r@) == model_rows_at(rows_view(rows@), crate::subscriptions::views_of(prices@)),
{
    let ghost pv = crate::subscriptions::views_of(prices@);
    let mut r: Vec<(String, String)> = Vec::new();
    let mut i: usize = 0;
    proof {
        assert(rows_view(rows@).subrange(0, 0) =~= Seq::<(Seq<char>, Seq<char>)>::empty());
        assert(rows_view(r@) =~= model_rows_at(rows_view(rows@).subrange(0, 0), pv));
    }
    while i < rows.len()
        invariant
            0 <= i <= rows@.len(),
            pv == crate::subscriptions::views_of(prices@),
            rows_view(r@) == model_rows_at(rows_view(rows@).subrange(0, i as int), pv),
        decreases rows@.len() - i,
    {
        let keep = str_in_vec(prices, rows[i].0.as_str());
        if keep {
            r.push((rows[i].0.clone(), rows[i].1.clone()));
        }
        proof {
            let m = rows_view(rows@);
            let pre = m.subrange(0, i as int);
            let post = m.subrange(0, i as int + 1);
            assert(post.drop_last() =~= pre);
            assert(post.last() == m[i as int]);
            assert(m[i as int].0 == rows@[i as int].0@);
            assert(rows_view(r@) =~= model_rows_at(post, pv));
        }
        i = i + 1;
    }
    proof {
        assert(rows_view(rows@).subrange(0, rows@.len() as int) =~= rows_view(rows@));
    }
    r
}

/// Copies the first depth row at the given price, if any.
fn first_row_at(rows: &Vec<(String, String)>, p: &str, start: usize) -> (r: Option<(String, String)>)
    requires
        start <= rows@.len(),
    ensures
        r matches Some(row) ==> model_first_at(rows_view(rows@).skip(start as int), p@)
            == seq![(row.0@, row.1@)],
        r is None ==> model_first_at(rows_view(rows@).skip(start as int), p@)
            == Seq::<(Seq<char>, Seq<char>)>::empty(),
    decreases rows@.len() - start,
{
    if start == rows.len() {
        proof {
            assert(rows_view(rows@).skip(start as int) =~= Seq::<(Seq<char>, Seq<char>)>::empty());
        }
        return None;
    }
    proof {
        assert(rows_view(rows@).skip(start as int)[0] == rows_view(rows@)[start as int]);
        assert(rows_view(rows@).skip(start as int).drop_first()
            =~= rows_view(rows@).skip(start as int + 1));
    }
    if str_eq(rows[start].0.as_str(), p) {
        let row = (rows[start].0.clone(), rows[start].1.clone());
        proof {
            assert(model_first_at(rows_view(rows@).skip(start as int), p@)
                =~= seq![(row.0@, row.1@)]);
        }
        Some(row)
    } else {
        first_row_at(rows, p, start + 1)
    }
}

/// Builds the DB batch of an accepted order.
fn build_db_messages(
    fills: &Vec<Fill>,
    oid: &String,
    executed: u64,
    market: &str,
    pv: u64,
    qv: u64,
    side: OrderSide,
    taker: &str,
    now: i64,
) -> (r: Vec<DbMessage>)
    requires
        forall|k: int| 0 <= k < fills@.len() ==> (#[trigger] fills@[k]).qty * fills@[k].price
            <= u64::MAX,
    ensures
        db_msgs_ok(r@, fills@, oid@, executed, market@, pv, qv, side, taker@, now),
{
    let mut r: Vec<DbMessage> = Vec::new();
    let mut i: usize = 0;
    while i < fills.len()
        invariant
            0 <= i <= fills@.len(),
            r@.len() == i,
            forall|k: int| 0 <= k < fills@.len() ==> (#[trigger] fills@[k]).qty * fills@[k].price
                <= u64::MAX,
            forall|k: int| 0 <= k < i ==> trade_db_ok(#[trigger] r@[k], fills@[k], market@,
                taker@, now),
        decreases fills@.len() - i,
    {
        let f = &fills[i];
        let quote_qty: u64 = f.qty * f.price;
        r.push(DbMessage::TradeAdded(TradeMessage {
            id: format_amount(f.trade_id),
            is_buyer_maker: str_eq(f.other_user_id.as_str(), taker),
            price: format_scaled(f.price, PRICE_DECIMALS),
            quantity: format_scaled(f.qty, QUANTITY_DECIMALS),
            quote_quantity: format_scaled(quote_qty, AMOUNT_DECIMALS),
            timestamp: now,
            market: String::from_str(market),
        }));
        i = i + 1;
    }
    r.push(DbMessage::OrderUpdate(OrderMessage {
        order_id: oid.clone(),
        executed_qty: executed,
        market: Some(String::from_str(market)),
        price: Some(format_scaled(pv, PRICE_DECIMALS)),
        quantity: Some(format_scaled(qv, QUANTITY_DECIMALS)),
        side: Some(side),
    }));
    let mut j: usize = 0;
    while j < fills.len()
        invariant
            0 <= j <= fills@.len(),
            r@.len() == fills@.len() + 1 + j,
            forall|k: int| 0 <= k < fills@.len() ==> trade_db_ok(#[trigger] r@[k], fills@[k],
                market@, taker@, now),
            taker_update_ok(r@[fills@.len() as int], oid@, executed, market@, pv, qv, side),
            forall|k: int| 0 <= k < j ==> maker_update_ok(
                #[trigger] r@[fills@.len() + 1 + k],
                fills@[k],
            ),
        decreases fills@.len() - j,
    {
        let f = &fills[j];
        r.push(DbMessage::OrderUpdate(OrderMessage {
            order_id: f.marker_order_id.clone(),
            executed_qty: f.qty,
            market: None,
            price: None,
            quantity: None,
            side: None,
        }));
        j = j + 1;
    }
    r
}

/// Executable rows carry a model exactly when their views read it.
proof fn lemma_rows_view_matches(rows: Seq<(String, String)>, model: Seq<(Seq<char>, Seq<char>)>)
    ensures
        depth_matches(rows, model) <==> rows_view(rows) == model,
{
    if depth_matches(rows, model) {
        assert forall|i: int| 0 <= i < rows.len()
            implies #[trigger] rows_view(rows)[i] == model[i] by {
            assert(rows_view(rows)[i] == (rows[i].0@, rows[i].1@));
        }
        assert(rows_view(rows) =~= model);
    }
    if rows_view(rows) == model {
        assert forall|i: int| 0 <= i < rows.len() implies (#[trigger] rows[i]).0@ == model[i].0
            && rows[i].1@ == model[i].1 by {
            assert(rows_view(rows)[i] == (rows[i].0@, rows[i].1@));
        }
    }
}

/// Builds the event batch of an accepted order from the book as it now
/// stands: the depth rows the order touched, then the trade events.
fn build_ws_messages(
    fills: &Vec<Fill>,
    market: &str,
    taker: &str,
    book: &Orderbook,
    side: OrderSide,
    pv: u64,
) -> (r: Vec<WsMessage>)
    requires
        book.wf(),
    ensures
        ws_msgs_ok(r@, fills@, market@, taker@, book@.bids, book@.asks, side, pv),
{
    let mut r: Vec<WsMessage> = Vec::new();
    let depth = book.get_depth();
    let fps = fill_price_strings(fills);
    let own = format_scaled(pv, PRICE_DECIMALS);
    proof {
        lemma_rows_view_matches(depth.bids@, depth_of(book@.bids));
        lemma_rows_view_matches(depth.asks@, depth_of(book@.asks));
        assert(rows_view(depth.bids@).skip(0) =~= rows_view(depth.bids@));
        assert(rows_view(depth.asks@).skip(0) =~= rows_view(depth.asks@));
    }
    let ghost own_s = scaled_str(pv as int, PRICE_DECIMALS as int);
    let ghost touched = fill_price_strs(fills@);
    let brows: Vec<(String, String)>;
    let arows: Vec<(String, String)>;
    if side == OrderSide::Buy {
        brows = match first_row_at(&depth.bids, own.as_str(), 0) {
            Some(row) => {
                let mut v: Vec<(String, String)> = Vec::new();
                v.push(row);
                v
            },
            None => Vec::new(),
        };
        arows = rows_at_exec(&depth.asks, &fps);
        proof {
            assert(rows_view(brows@) =~= model_first_at(depth_of(book@.bids), own_s));
            lemma_rows_view_matches(brows@, model_first_at(depth_of(book@.bids), own_s));
            lemma_rows_view_matches(arows@, model_rows_at(depth_of(book@.asks), touched));
        }
    } else {
        brows = rows_at_exec(&depth.bids, &fps);
        arows = match first_row_at(&depth.asks, own.as_str(), 0) {
            Some(row) => {
                let mut v: Vec<(String, String)> = Vec::new();
                v.push(row);
                v
            },
            None => Vec::new(),
        };
        proof {
            assert(rows_view(arows@) =~= model_first_at(depth_of(book@.asks), own_s));
            lemma_rows_view_matches(arows@, model_first_at(depth_of(book@.asks), own_s));
            lemma_rows_view_matches(brows@, model_rows_at(depth_of(book@.bids), touched));
        }
    }
    r.push(WsMessage {
        stream: String::from_str("depth@").concat(market),
        data: WsMessageData::Depth(DepthData {
            b: Some(brows),
            a: Some(arows),
            e: String::from_str("depth"),
        }),
    });
    let mut i: usize = 0;
    while i < fills.len()
        invariant
            0 <= i <= fills@.len(),
            r@.len() == i + 1,
            ({
                let own2 = scaled_str(pv as int, PRICE_DECIMALS as int);
                let touched2 = fill_price_strs(fills@);
                let bmodel = if side == OrderSide::Buy {
                    model_first_at(depth_of(book@.bids), own2)
                } else {
                    model_rows_at(depth_of(book@.bids), touched2)
                };
                let amodel = if side == OrderSide::Buy {
                    model_rows_at(depth_of(book@.asks), touched2)
                } else {
                    model_first_at(depth_of(book@.asks), own2)
                };
                depth_ws_rows_ok(r@[0], market@, bmodel, amodel)
            }),
            forall|k: int| 0 <= k < i ==> trade_ws_ok(#[trigger] r@[k + 1], fills@[k], market@,
                taker@),
        decreases fills@.len() - i,
    {
        let f = &fills[i];
        r.push(WsMessage {
            stream: String::from_str("trade@").concat(market),
            data: WsMessageData::Trade(TradeData {
                e: String::from_str("trade"),
                t: f.trade_id as i64,
                m: str_eq(f.other_user_id.as_str(), taker),
                p: format_scaled(f.price, PRICE_DECIMALS),
                q: format_scaled(f.qty, QUANTITY_DECIMALS),
                s: String::from_str(market),
            }),
        });
        i = i + 1;
    }
    r
}

impl Engine {
    /// Dispatches one request: mutates the state exactly as the
    /// request's operation prescribes, and returns the reply plus the
    /// DB records and market-data events to publish.  Every asset's
    /// total holdings are conserved by every request except a
    /// successful on-ramp, which grows the base currency.
    pub fn process(&mut self, message: MessageFromApi, user_id: &String, now_ms: i64) -> (out:
        ProcessOutput)
        requires
            old(self).wf(),
        ensures
            final(self).wf(),
            ({
                &&& (message matches MessageFromApi::CreateOrder { data } ==> {
                    &&& forall|a2: Seq<char>| #[trigger] asset_total(
                        final(self).balances.entries@,
                        a2,
                    ) == asset_total(old(self).balances.entries@, a2)
                    &&& ({
                        ||| (out.reply matches Some(MessageToApi::OrderPlaced {
                            order_id,
                            executed_qty,
                            fills,
                        }) && {
                            &&& create_order_full(*old(self), *final(self), Ok(
                                (executed_qty, fills, order_id),
                            ), data.market@, data.price@, data.quantity@, data.side, user_id@)
                            &&& db_msgs_ok(out.db_messages@, fills@, order_id@, executed_qty,
                                data.market@, scaled_val(data.price@,
                                PRICE_DECIMALS as int) as u64, scaled_val(data.quantity@,
                                QUANTITY_DECIMALS as int) as u64, data.side, user_id@, now_ms)
                            &&& ({
                                let i = book_idx_of(old(self).orderbooks@, data.market@);
                                let nb = final(self).orderbooks@[i]@;
                                ws_msgs_ok(out.ws_messages@, fills@, data.market@, user_id@,
                                    nb.bids, nb.asks, data.side, scaled_val(data.price@,
                                    PRICE_DECIMALS as int) as u64)
                            })
                        })
                        ||| (out.reply matches Some(MessageToApi::Error { message: msg }) && {
                            &&& create_order_full(*old(self), *final(self), Err(msg),
                                data.market@, data.price@, data.quantity@, data.side, user_id@)
                            &&& out.db_messages@.len() == 0
                            &&& out.ws_messages@.len() == 0
                        })
                    })
                })
                &&& (message matches MessageFromApi::CancelOrder { data } ==> {
                    &&& forall|a2: Seq<char>| #[trigger] asset_total(
                        final(self).balances.entries@,
                        a2,
                    ) == asset_total(old(self).balances.entries@, a2)
                    &&& out.db_messages@.len() == 0
                    &&& ({
                        ||| (out.reply matches Some(MessageToApi::OrderCancelled {
                            order_id,
                            executed_qty,
                            remaining_qty,
                        }) && {
                            &&& order_id@ == data.order_id@
                            &&& ({
                                let i = book_idx_of(old(self).orderbooks@, data.market@);
                                let o = book_find(old(self).orderbooks@[i]@, data.order_id@);
                                cancel_order_full(*old(self), *final(self), Ok(
                                    (executed_qty, remaining_qty, o->Some_0.price),
                                ), data.order_id@, data.market@)
                            })
                            &&& ({
                                let i = book_idx_of(old(self).orderbooks@, data.market@);
                                let nb = final(self).orderbooks@[i]@;
                                let o = book_find(old(self).orderbooks@[i]@, data.order_id@);
                                let pstr = scaled_str(o->Some_0.price as int,
                                    PRICE_DECIMALS as int);
                                &&& out.ws_messages@.len() == 1
                                &&& depth_ws_rows_ok(out.ws_messages@[0], data.market@,
                                    model_rows_at(depth_of(nb.bids), seq![pstr]),
                                    model_rows_at(depth_of(nb.asks), seq![pstr]))
                            })
                        })
                        ||| (out.reply matches Some(MessageToApi::Error { message: msg }) && {
                            &&& cancel_order_full(*old(self), *final(self), Err(msg),
                                data.order_id@, data.market@)
                            &&& out.ws_messages@.len() == 0
                        })
                    })
                })
                &&& (message matches MessageFromApi::GetDepth { data } ==> {
                    &&& *final(self) == *old(self)
                    &&& out.db_messages@.len() == 0
                    &&& out.ws_messages@.len() == 0
                    &&& (out.reply matches Some(MessageToApi::Depth { payload }) && {
                        let i = book_idx_of(old(self).orderbooks@, data.market@);
                        &&& payload.market@ == data.market@
                        &&& (i >= 0 ==> depth_matches(payload.bids@, depth_of(
                            old(self).orderbooks@[i]@.bids,
                        )) && depth_matches(payload.asks@, depth_of(
                            old(self).orderbooks@[i]@.asks,
                        )))
                        &&& (i < 0 ==> payload.bids@.len() == 0 && payload.asks@.len() == 0)
                    })
                })
                &&& (message matches MessageFromApi::GetOpenOrders { data } ==> {
                    &&& *final(self) == *old(self)
                    &&& out.db_messages@.len() == 0
                    &&& out.ws_messages@.len() == 0
                    &&& (out.reply matches Some(MessageToApi::OpenOrders { payload }) && {
                        let i = book_idx_of(old(self).orderbooks@, data.market@);
                        &&& (i >= 0 ==> payload@ == open_orders_of(
                            old(self).orderbooks@[i]@.bids,
                            data.user_id@,
                        ) + open_orders_of(old(self).orderbooks@[i]@.asks, data.user_id@))
                        &&& (i < 0 ==> payload@.len() == 0)
                    })
                })
                &&& (message matches MessageFromApi::OnRamp { data } ==> {
                    &&& final(self).orderbooks == old(self).orderbooks
                    &&& out.db_messages@.len() == 0
                    &&& out.ws_messages@.len() == 0
                    &&& ({
                        let accepted = !txn_seen(old(self).used_txn_ids@, data.txn_id@)
                            && valid_scaled(data.amount@, AMOUNT_DECIMALS as int) && ({
                            let was = match bal_lookup(old(self).balances.entries@,
                                data.user_id@, "INR"@) {
                                Some(b) => b,
                                None => UserBalance { available: 0, locked: 0 },
                            };
                            was.available + was.locked + scaled_val(data.amount@,
                                AMOUNT_DECIMALS as int) <= u64::MAX
                        });
                        &&& (accepted ==> out.reply is None && ({
                            let was = match bal_lookup(old(self).balances.entries@,
                                data.user_id@, "INR"@) {
                                Some(b) => b,
                                None => UserBalance { available: 0, locked: 0 },
                            };
                            bal_lookup(final(self).balances.entries@, data.user_id@, "INR"@)
                                == Some(UserBalance {
                                available: (was.available + scaled_val(data.amount@,
                                    AMOUNT_DECIMALS as int)) as u64,
                                locked: was.locked,
                            })
                        }))
                        &&& (!accepted ==> (out.reply matches Some(MessageToApi::Error {
                            message: msg,
                        }) && msg@ == "On-ramp rejected"@
                            && final(self).balances.entries@ == old(self).balances.entries@))
                    })
                })
            }),
    {
        match message {
            MessageFromApi::CreateOrder { data } => {
                let res = self.create_order(data.market.as_str(), data.price.as_str(),
                    data.quantity.as_str(), data.side, user_id.as_str());
                match res {
                    Ok((executed, fills, order_id)) => {
                        let pv = match parse_scaled(data.price.as_str(), PRICE_DECIMALS) {
                            Some(v) => v,
                            None => {
                                proof {
                                    assert(false);
                                }
                                0
                            },
                        };
                        let qv = match parse_scaled(data.quantity.as_str(), QUANTITY_DECIMALS) {
                            Some(v) => v,
                            None => {
                                proof {
                                    assert(false);
                                }
                                0
                            },
                        };
                        proof {
                            assert(self.orderbooks@.skip(0) =~= self.orderbooks@);
                        }
                        proof {
                            lemma_book_idx_found(old(self).orderbooks@, data.market@);
                            assert(forall|j: int| 0 <= j < old(self).orderbooks@.len()
                                ==> (#[trigger] self.orderbooks@[j])@.market
                                == old(self).orderbooks@[j]@.market);
                            lemma_book_idx_unchanged(old(self).orderbooks@, self.orderbooks@,
                                data.market@);
                        }
                        let bi = match find_book_idx(&self.orderbooks, data.market.as_str(), 0) {
                            Some(i) => i,
                            None => {
                                proof {
                                    assert(false);
                                }
                                0
                            },
                        };
                        let ghost out_m = ladder_match(
                            if data.side == OrderSide::Buy {
                                old(self).orderbooks@[bi as int]@.asks
                            } else {
                                old(self).orderbooks@[bi as int]@.bids
                            },
                            data.side,
                            user_id@,
                            pv,
                            qv as int,
                            old(self).orderbooks@[bi as int]@.last_trade_id + 1,
                        );
                        proof {
                            lemma_ladder_match(
                                if data.side == OrderSide::Buy {
                                    old(self).orderbooks@[bi as int]@.asks
                                } else {
                                    old(self).orderbooks@[bi as int]@.bids
                                },
                                data.side,
                                user_id@,
                                pv,
                                qv as int,
                                old(self).orderbooks@[bi as int]@.last_trade_id + 1,
                            );
                            assert forall|k: int| 0 <= k < fills@.len()
                                implies (#[trigger] fills@[k]).qty * fills@[k].price
                                <= u64::MAX by {
                                let f = fills@[k];
                                if data.side == OrderSide::Buy {
                                    vstd::arithmetic::mul::lemma_mul_inequality(f.qty as int,
                                        qv as int, f.price as int);
                                    vstd::arithmetic::mul::lemma_mul_inequality(f.price as int,
                                        pv as int, qv as int);
                                    vstd::arithmetic::mul::lemma_mul_is_commutative(qv as int,
                                        f.price as int);
                                    vstd::arithmetic::mul::lemma_mul_is_commutative(pv as int,
                                        qv as int);
                                    assert(pv * qv <= u64::MAX);
                                }
                            }
                        }
                        let db = build_db_messages(&fills, &order_id, executed,
                            data.market.as_str(), pv, qv, data.side, user_id.as_str(), now_ms);
                        let ws = build_ws_messages(&fills, data.market.as_str(),
                            user_id.as_str(), &self.orderbooks[bi], data.side, pv);
                        ProcessOutput {
                            reply: Some(MessageToApi::OrderPlaced {
                                order_id,
                                executed_qty: executed,
                                fills,
                            }),
                            db_messages: db,
                            ws_messages: ws,
                        }
                    },
                    Err(msg) => ProcessOutput {
                        reply: Some(MessageToApi::Error { message: msg }),
                        db_messages: Vec::new(),
                        ws_messages: Vec::new(),
                    },
                }
            },
            MessageFromApi::CancelOrder { data } => {
                let ghost data0 = data;
                let res = self.cancel_order(data.order_id.as_str(), data.market.as_str());
                match res {
                    Ok((executed, remaining, rest_price)) => {
                        proof {
                            assert(self.orderbooks@.skip(0) =~= self.orderbooks@);
                        }
                        proof {
                            lemma_book_idx_found(old(self).orderbooks@, data0.market@);
                            assert(forall|j: int| 0 <= j < old(self).orderbooks@.len()
                                ==> (#[trigger] self.orderbooks@[j])@.market
                                == old(self).orderbooks@[j]@.market);
                            lemma_book_idx_unchanged(old(self).orderbooks@, self.orderbooks@,
                                data0.market@);
                        }
                        let bi = match find_book_idx(&self.orderbooks, data.market.as_str(), 0) {
                            Some(i) => i,
                            None => {
                                proof {
                                    assert(false);
                                }
                                0
                            },
                        };
                        let depth = self.orderbooks[bi].get_depth();
                        let mut prices: Vec<String> = Vec::new();
                        prices.push(format_scaled(rest_price, PRICE_DECIMALS));
                        let ghost pstr = scaled_str(rest_price as int, PRICE_DECIMALS as int);
                        proof {
                            assert(crate::subscriptions::views_of(prices@) =~= seq![pstr]);
                            lemma_rows_view_matches(depth.bids@,
                                depth_of(self.orderbooks@[bi as int]@.bids));
                            lemma_rows_view_matches(depth.asks@,
                                depth_of(self.orderbooks@[bi as int]@.asks));
                        }
                        let brows = rows_at_exec(&depth.bids, &prices);
                        let arows = rows_at_exec(&depth.asks, &prices);
                        proof {
                            lemma_rows_view_matches(brows@, model_rows_at(
                                depth_of(self.orderbooks@[bi as int]@.bids), seq![pstr]));
                            lemma_rows_view_matches(arows@, model_rows_at(
                                depth_of(self.orderbooks@[bi as int]@.asks), seq![pstr]));
                        }
                        let mut ws: Vec<WsMessage> = Vec::new();
                        ws.push(WsMessage {
                            stream: String::from_str("depth@").concat(data.market.as_str()),
                            data: WsMessageData::Depth(DepthData {
                                b: Some(brows),
                                a: Some(arows),
                                e: String::from_str("depth"),
                            }),
                        });
                        let outp = ProcessOutput {
                            reply: Some(MessageToApi::OrderCancelled {
                                order_id: data.order_id,
                                executed_qty: executed,
                                remaining_qty: remaining,
                            }),
                            db_messages: Vec::new(),
                            ws_messages: ws,
                        };
                        proof {
                            let i = book_idx_of(old(self).orderbooks@, data0.market@);
                            let o = book_find(old(self).orderbooks@[i]@, data0.order_id@);
                            assert(rest_price == o->Some_0.price);
                        }
                        outp
                    },
                    Err(msg) => ProcessOutput {
                        reply: Some(MessageToApi::Error { message: msg }),
                        db_messages: Vec::new(),
                        ws_messages: Vec::new(),
                    },
                }
            },
            MessageFromApi::GetDepth { data } => {
                proof {
                    assert(self.orderbooks@.skip(0) =~= self.orderbooks@);
                }
                let payload = match find_book_idx(&self.orderbooks, data.market.as_str(), 0) {
                    Some(i) => {
                        let depth = self.orderbooks[i].get_depth();
                        DepthPayload { market: data.market, bids: depth.bids, asks: depth.asks }
                    },
                    None => DepthPayload {
                        market: data.market,
                        bids: Vec::new(),
                        asks: Vec::new(),
                    },
                };
                ProcessOutput {
                    reply: Some(MessageToApi::Depth { payload }),
                    db_messages: Vec::new(),
                    ws_messages: Vec::new(),
                }
            },
            MessageFromApi::GetOpenOrders { data } => {
                proof {
                    assert(self.orderbooks@.skip(0) =~= self.orderbooks@);
                }
                let payload = match find_book_idx(&self.orderbooks, data.market.as_str(), 0) {
                    Some(i) => self.orderbooks[i].get_open_orders(data.user_id.as_str()),
                    None => Vec::new(),
                };
                ProcessOutput {
                    reply: Some(MessageToApi::OpenOrders { payload }),
                    db_messages: Vec::new(),
                    ws_messages: Vec::new(),
                }
            },
            MessageFromApi::OnRamp { data } => {
                let ok = self.on_ramp(data.user_id.as_str(), data.amount.as_str(),
                    data.txn_id.as_str());
                ProcessOutput {
                    reply: if ok {
                        None
                    } else {
                        Some(MessageToApi::Error { message: String::from_str("On-ramp rejected") })
                    },
                    db_messages: Vec::new(),
                    ws_messages: Vec::new(),
                }
            },
        }
    }
}

/// A found book really serves the market searched for.
proof fn lemma_book_idx_found(books: Seq<Orderbook>, m: Seq<char>)
    requires
        book_idx_of(books, m) >= 0,
    ensures
        0 <= book_idx_of(books, m) < books.len(),
        books[book_idx_of(books, m)]@.market == m,
    decreases books.len(),
{
    if books.len() > 0 && books[0]@.market != m {
        lemma_book_idx_found(books.drop_first(), m);
        assert(books.drop_first()[book_idx_of(books.drop_first(), m)]
            == books[book_idx_of(books, m)]);
    }
}

/// A book search depends only on the markets, which no request changes.
proof fn lemma_book_idx_unchanged(pre: Seq<Orderbook>, post: Seq<Orderbook>, m: Seq<char>)
    requires
        pre.len() == post.len(),
        forall|j: int| 0 <= j < pre.len() ==> (#[trigger] post[j])@.market == pre[j]@.market,
    ensures
        book_idx_of(post, m) == book_idx_of(pre, m),
    decreases pre.len(),
{
    if pre.len() > 0 {
        assert(forall|j: int| 0 <= j < pre.drop_first().len()
            ==> pre.drop_first()[j] == pre[j + 1]);
        assert(forall|j: int| 0 <= j < post.drop_first().len()
            ==> post.drop_first()[j] == post[j + 1]);
        lemma_book_idx_unchanged(pre.drop_first(), post.drop_first(), m);
    }
}

/// One executed single-row update models one map insertion.
proof fn lemma_upd_models(
    pre: Seq<crate::ledger::BalanceEntry>,
    post: Seq<crate::ledger::BalanceEntry>,
    cur: Map<(Seq<char>, Seq<char>), UserBalance>,
    u: Seq<char>,
    a: Seq<char>,
    nb: UserBalance,
)
    requires
        map_models(pre, cur),
        bal_lookup(post, u, a) == Some(nb),
        forall|u2: Seq<char>, a2: Seq<char>| !(u2 == u && a2 == a)
            ==> #[trigger] bal_lookup(post, u2, a2) == bal_lookup(pre, u2, a2),
    ensures
        map_models(post, cur.insert((u, a), nb)),
{
    let m2 = cur.insert((u, a), nb);
    assert forall|u2: Seq<char>, a2: Seq<char>| #[trigger] bal_lookup(post, u2, a2) == (
    if m2.contains_key((u2, a2)) {
        Some(m2[(u2, a2)])
    } else {
        None
    }) by {
        assert(bal_lookup(pre, u2, a2) == (if cur.contains_key((u2, a2)) {
            Some(cur[(u2, a2)])
        } else {
            None
        }));
    }
}

/// The product of two tick amounts fits in a double-width word.
proof fn lemma_tick_product_fits(pv: u64, qv: u64)
    ensures
        pv * qv <= u128::MAX,
{
    vstd::arithmetic::mul::lemma_mul_inequality(pv as int, u64::MAX as int, qv as int);
    vstd::arithmetic::mul::lemma_mul_inequality(qv as int, u64::MAX as int, u64::MAX as int);
    assert((u64::MAX as int) * (u64::MAX as int) < u128::MAX) by (nonlinear_arith);
    vstd::arithmetic::mul::lemma_mul_is_commutative(u64::MAX as int, qv as int);
}

/// One executed transfer step models one `transfer_m` step: the
/// ledger's pointwise guarantees pin the new map exactly.
proof fn lemma_step_models(
    pre: Seq<crate::ledger::BalanceEntry>,
    post: Seq<crate::ledger::BalanceEntry>,
    cur: Map<(Seq<char>, Seq<char>), UserBalance>,
    from: Seq<char>,
    to: Seq<char>,
    asset: Seq<char>,
    amount: u64,
)
    requires
        from != to,
        map_models(pre, cur),
        ({
            let ok = bal_lookup(pre, from, asset) matches Some(fb) && fb.locked >= amount
                && (bal_lookup(pre, to, asset) matches Some(tb)
                && tb.available + tb.locked + amount <= u64::MAX);
            if ok {
                let fb = bal_lookup(pre, from, asset)->Some_0;
                let tb = bal_lookup(pre, to, asset)->Some_0;
                &&& bal_lookup(post, from, asset) == Some(UserBalance {
                    available: fb.available,
                    locked: (fb.locked - amount) as u64,
                })
                &&& bal_lookup(post, to, asset) == Some(UserBalance {
                    available: (tb.available + amount) as u64,
                    locked: tb.locked,
                })
                &&& forall|u2: Seq<char>, a2: Seq<char>| !(u2 == from && a2 == asset) && !(u2 == to
                    && a2 == asset) ==> #[trigger] bal_lookup(post, u2, a2)
                    == bal_lookup(pre, u2, a2)
            } else {
                post == pre
            }
        }),
    ensures
        map_models(post, transfer_m(cur, from, to, asset, amount as int)),
{
    let tm = transfer_m(cur, from, to, asset, amount as int);
    assert forall|u2: Seq<char>, a2: Seq<char>| #[trigger] bal_lookup(post, u2, a2) == (
    if tm.contains_key((u2, a2)) {
        Some(tm[(u2, a2)])
    } else {
        None
    }) by {
        assert(bal_lookup(pre, u2, a2) == (if cur.contains_key((u2, a2)) {
            Some(cur[(u2, a2)])
        } else {
            None
        }));
        assert(bal_lookup(pre, from, asset) == (if cur.contains_key((from, asset)) {
            Some(cur[(from, asset)])
        } else {
            None
        }));
        assert(bal_lookup(pre, to, asset) == (if cur.contains_key((to, asset)) {
            Some(cur[(to, asset)])
        } else {
            None
        }));
    }
}

} // verus!
