//! Price-time-priority matching, as a mathematical model.
//!
//! `ladder_match` says exactly what matching an incoming order against
//! the opposing ladder produces: the surviving ladder, the fills in
//! order, and the executed quantity.  The executable matching code in
//! `orderbook` is proved to return precisely this outcome.

use vstd::prelude::*;
use vstd::math::min;
use crate::orderbook::{Order, Fill, OrderSide, LevelView, PriceLevel, ladder_wf, ladder_view, order_rem};
use crate::numeric::{str_eq, BASE_FACTOR};

verus! {

/// Outcome of matching within one price level.
pub ghost struct LevelOutcome {
    pub orders: Seq<Order>,
    pub fills: Seq<Fill>,
    pub executed: int,
}

/// Outcome of matching against a whole ladder.
pub ghost struct LadderOutcome {
    pub levels: Seq<LevelView>,
    pub fills: Seq<Fill>,
    pub executed: int,
}

/// The taker's opposite side: the side of the ladder it matches against.
pub open spec fn opposite(side: OrderSide) -> OrderSide {
    match side {
        OrderSide::Buy => OrderSide::Sell,
        OrderSide::Sell => OrderSide::Buy,
    }
}

/// Does a level at `level_price` cross a taker limited at `limit`?
/// A buyer matches asks priced at or below its limit; a seller matches
/// bids priced at or above.
pub open spec fn crosses(side: OrderSide, level_price: u64, limit: u64) -> bool {
    match side {
        OrderSide::Buy => level_price <= limit,
        OrderSide::Sell => level_price >= limit,
    }
}

/// An order that has not been fully filled.
pub open spec fn still_open(o: Order) -> bool {
    o.filled < o.quantity
}

/// Total quantity over a fill sequence.
pub open spec fn fills_qty_sum(fills: Seq<Fill>) -> int
    decreases fills.len(),
{
    if fills.len() == 0 {
        0
    } else {
        fills[0].qty + fills_qty_sum(fills.drop_first())
    }
}

/// Matching inside one level's FIFO: walk the resting orders in time
/// priority; skip the taker's own orders entirely; fill each other
/// order by the smaller of what the taker still wants and what the
/// maker still has.  Trade ids are handed out sequentially from
/// `next_tid`.
pub open spec fn level_match(
    orders: Seq<Order>,
    taker: Seq<char>,
    level_price: u64,
    remaining: int,
    next_tid: int,
) -> LevelOutcome
    decreases orders.len(),
{
    if remaining <= 0 || orders.len() == 0 {
        LevelOutcome { orders, fills: Seq::empty(), executed: 0 }
    } else {
        let o = orders[0];
        if o.user_id@ == taker {
            let rest = level_match(orders.drop_first(), taker, level_price, remaining, next_tid);
            LevelOutcome {
                orders: seq![o] + rest.orders,
                fills: rest.fills,
                executed: rest.executed,
            }
        } else {
            let take = min(remaining, order_rem(o));
            let upd = Order {
                price: o.price,
                quantity: o.quantity,
                order_id: o.order_id,
                filled: (o.filled + take) as u64,
                side: o.side,
                user_id: o.user_id,
            };
            let fill = Fill {
                qty: take as u64,
                price: level_price,
                trade_id: next_tid as u64,
                marker_order_id: o.order_id,
                other_user_id: o.user_id,
            };
            let rest = level_match(
                orders.drop_first(),
                taker,
                level_price,
                remaining - take,
                next_tid + 1,
            );
            LevelOutcome {
                orders: seq![upd] + rest.orders,
                fills: seq![fill] + rest.fills,
                executed: take + rest.executed,
            }
        }
    }
}

/// The orders of a level that stay resting after matching.
pub open spec fn level_keep(orders: Seq<Order>) -> Seq<Order> {
    orders.filter(|o: Order| still_open(o))
}

/// Matching against a ladder: walk levels from the best price outward,
/// stop at the first level the taker no longer crosses or once the
/// taker is satisfied; fully filled makers leave their FIFO, and a
/// level whose FIFO empties leaves the ladder.
pub open spec fn ladder_match(
    levels: Seq<LevelView>,
    side: OrderSide,
    taker: Seq<char>,
    limit: u64,
    remaining: int,
    next_tid: int,
) -> LadderOutcome
    decreases levels.len(),
{
    if remaining <= 0 || levels.len() == 0 || !crosses(side, levels[0].price, limit) {
        LadderOutcome { levels, fills: Seq::empty(), executed: 0 }
    } else {
        let lo = level_match(levels[0].orders, taker, levels[0].price, remaining, next_tid);
        let kept = level_keep(lo.orders);
        let rest = ladder_match(
            levels.drop_first(),
            side,
            taker,
            limit,
            remaining - lo.executed,
            next_tid + lo.fills.len(),
        );
        LadderOutcome {
            levels: if kept.len() == 0 {
                rest.levels
            } else {
                seq![LevelView { price: levels[0].price, orders: kept }] + rest.levels
            },
            fills: lo.fills + rest.fills,
            executed: lo.executed + rest.executed,
        }
    }
}

/// `p` is the price of some level of `levels`.
pub open spec fn price_in(levels: Seq<LevelView>, p: u64) -> bool {
    exists|i: int| 0 <= i < levels.len() && (#[trigger] levels[i]).price == p
}

/// What matching within a level guarantees: makers keep their identity
/// and only `filled` grows; the executed quantity is the sum of the
/// fills and never exceeds what the taker wanted; every fill is
/// non-trivial, priced at the level, numbered sequentially, and never
/// against the taker itself.
pub proof fn lemma_level_match(
    orders: Seq<Order>,
    taker: Seq<char>,
    level_price: u64,
    remaining: int,
    next_tid: int,
)
    requires
        0 <= remaining,
        0 <= next_tid,
        next_tid + remaining <= u64::MAX,
        forall|i: int| 0 <= i < orders.len() ==> still_open(#[trigger] orders[i]),
    ensures
        ({
            let out = level_match(orders, taker, level_price, remaining, next_tid);
            &&& out.orders.len() == orders.len()
            &&& forall|i: int| 0 <= i < orders.len() ==> {
                let o = #[trigger] out.orders[i];
                &&& o.price == orders[i].price
                &&& o.quantity == orders[i].quantity
                &&& o.order_id == orders[i].order_id
                &&& o.user_id == orders[i].user_id
                &&& o.side == orders[i].side
                &&& orders[i].filled <= o.filled <= o.quantity
                &&& (o.user_id@ == taker ==> o.filled == orders[i].filled)
            }
            &&& 0 <= out.executed <= remaining
            &&& fills_qty_sum(out.fills) == out.executed
            &&& out.fills.len() <= out.executed
            &&& forall|k: int| 0 <= k < out.fills.len() ==> {
                let f = #[trigger] out.fills[k];
                &&& f.other_user_id@ != taker
                &&& f.price == level_price
                &&& 1 <= f.qty <= remaining
                &&& f.trade_id == next_tid + k
                &&& exists|i: int| 0 <= i < orders.len()
                    && (#[trigger] orders[i]).user_id == f.other_user_id
                    && orders[i].order_id == f.marker_order_id
                    && f.qty <= order_rem(orders[i])
            }
        }),
    decreases orders.len(),
{
    let out = level_match(orders, taker, level_price, remaining, next_tid);
    if remaining <= 0 || orders.len() == 0 {
        assert(out.fills =~= Seq::<Fill>::empty());
    } else {
        let o = orders[0];
        let tail = orders.drop_first();
        assert(forall|i: int| 0 <= i < tail.len() ==> still_open(#[trigger] tail[i]));
        if o.user_id@ == taker {
            let rest = level_match(tail, taker, level_price, remaining, next_tid);
            lemma_level_match(tail, taker, level_price, remaining, next_tid);
            assert(out.orders == seq![o] + rest.orders);
            assert(forall|i: int| 1 <= i < out.orders.len() ==> out.orders[i] == rest.orders[i - 1]);
            assert(out.orders[0] == o);
            assert(out.fills == rest.fills);
            assert(forall|k: int| 0 <= k < out.fills.len() ==> {
                let f = #[trigger] out.fills[k];
                exists|i: int| 0 <= i < tail.len()
                    && (#[trigger] tail[i]).user_id == f.other_user_id
                    && tail[i].order_id == f.marker_order_id
                    && f.qty <= order_rem(tail[i])
            });
            assert forall|k: int| 0 <= k < out.fills.len() implies {
                let f = #[trigger] out.fills[k];
                exists|i: int| 0 <= i < orders.len()
                    && (#[trigger] orders[i]).user_id == f.other_user_id
                    && orders[i].order_id == f.marker_order_id
                    && f.qty <= order_rem(orders[i])
            } by {
                let f = out.fills[k];
                let i = choose|i: int| 0 <= i < tail.len()
                    && (#[trigger] tail[i]).user_id == f.other_user_id
                    && tail[i].order_id == f.marker_order_id
                    && f.qty <= order_rem(tail[i]);
                assert(orders[i + 1] == tail[i]);
            }
        } else {
            let take = min(remaining, order_rem(o));
            let rest = level_match(tail, taker, level_price, remaining - take, next_tid + 1);
            lemma_level_match(tail, taker, level_price, remaining - take, next_tid + 1);
            assert(forall|i: int| 1 <= i < out.orders.len() ==> out.orders[i] == rest.orders[i - 1]);
            assert((seq![out.fills[0]] + rest.fills).drop_first() =~= rest.fills);
            assert(out.fills[0].qty == take);
            assert(fills_qty_sum(out.fills) == take + fills_qty_sum(rest.fills));
            assert forall|k: int| 0 <= k < out.fills.len() implies {
                let f = #[trigger] out.fills[k];
                &&& f.other_user_id@ != taker
                &&& f.price == level_price
                &&& 1 <= f.qty <= remaining
                &&& f.trade_id == next_tid + k
                &&& exists|i: int| 0 <= i < orders.len()
                    && (#[trigger] orders[i]).user_id == f.other_user_id
                    && orders[i].order_id == f.marker_order_id
                    && f.qty <= order_rem(orders[i])
            } by {
                if k == 0 {
                    let f = out.fills[0];
                    assert(orders[0].user_id == f.other_user_id
                        && orders[0].order_id == f.marker_order_id
                        && f.qty <= order_rem(orders[0]));
                } else {
                    let f = out.fills[k];
                    assert(f == rest.fills[k - 1]);
                    let i = choose|i: int| 0 <= i < tail.len()
                        && (#[trigger] tail[i]).user_id == f.other_user_id
                        && tail[i].order_id == f.marker_order_id
                        && f.qty <= order_rem(tail[i]);
                    assert(orders[i + 1] == tail[i]);
                }
            }
        }
    }
}

/// What matching against a ladder guarantees: the surviving ladder is
/// well formed, executed quantity equals the sum of the fills and never
/// exceeds the request, every fill crosses the taker's limit, carries
/// the next trade id in sequence, and is never a self-trade.  Every
/// surviving level sits at a price the ladder already had.
pub proof fn lemma_ladder_match(
    levels: Seq<LevelView>,
    side: OrderSide,
    taker: Seq<char>,
    limit: u64,
    remaining: int,
    next_tid: int,
)
    requires
        0 <= remaining,
        0 <= next_tid,
        next_tid + remaining <= u64::MAX,
        ladder_wf(levels, opposite(side)),
    ensures
        ({
            let out = ladder_match(levels, side, taker, limit, remaining, next_tid);
            &&& ladder_wf(out.levels, opposite(side))
            &&& 0 <= out.executed <= remaining
            &&& fills_qty_sum(out.fills) == out.executed
            &&& out.fills.len() <= out.executed
            &&& forall|k: int| 0 <= k < out.levels.len()
                ==> price_in(levels, (#[trigger] out.levels[k]).price)
            &&& forall|k: int| 0 <= k < out.fills.len() ==> {
                let f = #[trigger] out.fills[k];
                &&& f.other_user_id@ != taker
                &&& crosses(side, f.price, limit)
                &&& 1 <= f.qty <= remaining
                &&& f.trade_id == next_tid + k
                &&& f.qty * f.price <= u64::MAX || side == OrderSide::Buy
                &&& f.qty * BASE_FACTOR <= u64::MAX || side == OrderSide::Sell
            }
        }),
    decreases levels.len(),
{
    let out = ladder_match(levels, side, taker, limit, remaining, next_tid);
    let lside = opposite(side);
    if remaining <= 0 || levels.len() == 0 || !crosses(side, levels[0].price, limit) {
        assert(out.fills =~= Seq::<Fill>::empty());
        assert forall|k: int| 0 <= k < out.levels.len()
            implies price_in(levels, (#[trigger] out.levels[k]).price) by {
            assert(levels[k].price == out.levels[k].price);
        }
    } else {
        let head = levels[0];
        let tail = levels.drop_first();
        let lo = level_match(head.orders, taker, head.price, remaining, next_tid);
        let kept = level_keep(lo.orders);
        lemma_level_match(head.orders, taker, head.price, remaining, next_tid);
        let rest = ladder_match(tail, side, taker, limit, remaining - lo.executed,
            next_tid + lo.fills.len());
        assert(ladder_wf(tail, lside));
        lemma_ladder_match(tail, side, taker, limit, remaining - lo.executed,
            next_tid + lo.fills.len());

        // The kept orders of the head level are still well formed.
        assert forall|i: int| 0 <= i < kept.len() implies {
            let o = #[trigger] kept[i];
            &&& still_open(o)
            &&& o.price == head.price
            &&& o.side == lside
            &&& (lside == OrderSide::Buy ==> o.quantity * o.price <= u64::MAX)
            &&& (lside == OrderSide::Sell ==> o.quantity * BASE_FACTOR <= u64::MAX)
        } by {
            lo.orders.lemma_filter_pred(|o: Order| still_open(o), i);
            let o = kept[i];
            lemma_filter_elem_from(lo.orders, |o: Order| still_open(o), i);
            let j = choose|j: int| 0 <= j < lo.orders.len() && lo.orders[j] == o;
            assert(head.orders[j].price == head.price);
        }

        // Fills: head fills then the tail's, with consecutive ids.
        assert(fills_qty_sum(lo.fills + rest.fills)
            == fills_qty_sum(lo.fills) + fills_qty_sum(rest.fills)) by {
            lemma_fills_qty_sum_add(lo.fills, rest.fills);
        }
        assert forall|k: int| 0 <= k < out.fills.len() implies {
            let f = #[trigger] out.fills[k];
            &&& f.other_user_id@ != taker
            &&& crosses(side, f.price, limit)
            &&& 1 <= f.qty <= remaining
            &&& f.trade_id == next_tid + k
            &&& f.qty * f.price <= u64::MAX || side == OrderSide::Buy
            &&& f.qty * BASE_FACTOR <= u64::MAX || side == OrderSide::Sell
        } by {
            if k < lo.fills.len() {
                let f = lo.fills[k];
                assert(f.price == head.price);
                let i = choose|i: int| 0 <= i < head.orders.len()
                    && (#[trigger] head.orders[i]).user_id == f.other_user_id
                    && head.orders[i].order_id == f.marker_order_id
                    && f.qty <= order_rem(head.orders[i]);
                let m = head.orders[i];
                assert(f.qty <= m.quantity);
                if side == OrderSide::Sell {
                    // The maker is a resting bid whose full notional fits.
                    assert(m.quantity * m.price <= u64::MAX);
                    vstd::arithmetic::mul::lemma_mul_inequality(f.qty as int, m.quantity as int, m.price as int);
                } else {
                    // The maker is a resting ask whose scaled quantity fits.
                    assert(m.quantity * BASE_FACTOR <= u64::MAX);
                    vstd::arithmetic::mul::lemma_mul_inequality(f.qty as int, m.quantity as int, BASE_FACTOR as int);
                }
            } else {
                let f = rest.fills[k - lo.fills.len()];
                assert(out.fills[k] == f);
            }
        }

        // The surviving levels: every price was already in the ladder,
        // and the ladder stays sorted.
        assert forall|k: int| 0 <= k < out.levels.len()
            implies price_in(levels, (#[trigger] out.levels[k]).price) by {
            let off: int = if kept.len() == 0 { 0 } else { 1 };
            if kept.len() > 0 && k == 0 {
                assert(levels[0].price == out.levels[0].price);
            } else {
                let p = out.levels[k].price;
                assert(rest.levels[k - off] == out.levels[k]);
                assert(price_in(tail, p));
                let i = choose|i: int| 0 <= i < tail.len() && (#[trigger] tail[i]).price == p;
                assert(levels[i + 1] == tail[i]);
            }
        }
        assert forall|i: int, j: int| 0 <= i < j < out.levels.len() implies {
            if lside == OrderSide::Buy {
                (#[trigger] out.levels[i]).price > (#[trigger] out.levels[j]).price
            } else {
                out.levels[i].price < out.levels[j].price
            }
        } by {
            let off: int = if kept.len() == 0 { 0 } else { 1 };
            if kept.len() > 0 && i == 0 {
                // head price beats every price surviving from the tail
                let p = out.levels[j].price;
                assert(rest.levels[j - 1] == out.levels[j]);
                assert(price_in(tail, p));
                let t = choose|t: int| 0 <= t < tail.len() && (#[trigger] tail[t]).price == p;
                assert(levels[t + 1] == tail[t]);
            } else {
                assert(rest.levels[i - off] == out.levels[i]);
                assert(rest.levels[j - off] == out.levels[j]);
            }
        }
    }
}

/// Every element of a filtered sequence is an element of the original.
pub proof fn lemma_filter_elem_from(s: Seq<Order>, pred: spec_fn(Order) -> bool, i: int)
    requires
        0 <= i < s.filter(pred).len(),
    ensures
        s.contains(s.filter(pred)[i]),
    decreases s.len(),
{
    reveal_with_fuel(Seq::filter, 3);
    if s.len() > 0 {
        let f = s.filter(pred);
        let fd = s.drop_last().filter(pred);
        if pred(s.last()) && i == fd.len() {
            assert(f[i] == s.last());
            assert(s[s.len() - 1] == s.last());
        } else {
            lemma_filter_elem_from(s.drop_last(), pred, i);
            let j = choose|j: int| 0 <= j < s.drop_last().len() && s.drop_last()[j] == fd[i];
            assert(s[j] == fd[i]);
        }
    }
}

/// Fill-quantity sums add over concatenation.
pub proof fn lemma_fills_qty_sum_add(a: Seq<Fill>, b: Seq<Fill>)
    ensures
        fills_qty_sum(a + b) == fills_qty_sum(a) + fills_qty_sum(b),
    decreases a.len(),
{
    if a.len() == 0 {
        assert(a + b =~= b);
    } else {
        assert((a + b).drop_first() =~= a.drop_first() + b);
        lemma_fills_qty_sum_add(a.drop_first(), b);
    }
}

/// A copy of an order, equal to the original.
pub fn clone_order(o: &Order) -> (r: Order)
    ensures
        r == *o,
{
    Order {
        price: o.price,
        quantity: o.quantity,
        order_id: o.order_id.clone(),
        filled: o.filled,
        side: o.side,
        user_id: o.user_id.clone(),
    }
}

/// Executable matching within one level's FIFO: returns the fills and
/// the executed quantity, and leaves exactly the orders the model says.
pub(crate) fn match_level_exec(
    orders: &mut Vec<Order>,
    taker: &String,
    level_price: u64,
    remaining: u64,
    next_tid: u64,
) -> (r: (Vec<Fill>, u64))
    requires
        forall|i: int| 0 <= i < old(orders)@.len() ==> still_open(#[trigger] old(orders)@[i]),
        next_tid + remaining <= u64::MAX,
    ensures
        ({
            let out = level_match(old(orders)@, taker@, level_price, remaining as int,
                next_tid as int);
            &&& final(orders)@ == out.orders
            &&& r.0@ == out.fills
            &&& r.1 as int == out.executed
        }),
    decreases old(orders)@.len(),
{
    if remaining == 0 || orders.len() == 0 {
        return (Vec::new(), 0);
    }
    let ghost pre = orders@;
    let first = orders.remove(0);
    proof {
        assert(orders@ =~= pre.drop_first());
    }
    if str_eq(first.user_id.as_str(), taker.as_str()) {
        let (fills, ex) = match_level_exec(orders, taker, level_price, remaining, next_tid);
        orders.insert(0, first);
        proof {
            let rest = level_match(pre.drop_first(), taker@, level_price, remaining as int,
                next_tid as int);
            assert(orders@ =~= seq![first] + rest.orders);
        }
        (fills, ex)
    } else {
        let avail = first.quantity - first.filled;
        let take = if remaining < avail { remaining } else { avail };
        let updated = Order {
            price: first.price,
            quantity: first.quantity,
            order_id: first.order_id.clone(),
            filled: first.filled + take,
            side: first.side,
            user_id: first.user_id.clone(),
        };
        let fill = Fill {
            qty: take,
            price: level_price,
            trade_id: next_tid,
            marker_order_id: first.order_id,
            other_user_id: first.user_id,
        };
        proof {
            lemma_level_match(pre.drop_first(), taker@, level_price,
                remaining as int - take as int, next_tid as int + 1);
        }
        let (mut fills, ex) = match_level_exec(orders, taker, level_price, remaining - take,
            next_tid + 1);
        orders.insert(0, updated);
        fills.insert(0, fill);
        proof {
            let rest = level_match(pre.drop_first(), taker@, level_price,
                remaining as int - take as int, next_tid as int + 1);
            assert(orders@ =~= seq![updated] + rest.orders);
            assert(fills@ =~= seq![fill] + rest.fills);
        }
        (fills, take + ex)
    }
}

/// Removes the fully filled orders of a level FIFO, keeping the rest in order.
fn retain_open(orders: Vec<Order>) -> (r: Vec<Order>)
    ensures
        r@ == level_keep(orders@),
    decreases orders@.len(),
{
    let mut rest = orders;
    if rest.len() == 0 {
        proof {
            reveal_with_fuel(Seq::filter, 3);
        }
        return rest;
    }
    let ghost pre = rest@;
    let first = rest.remove(0);
    proof {
        assert(rest@ =~= pre.drop_first());
    }
    let keep_first = first.filled < first.quantity;
    let mut kept = retain_open(rest);
    proof {
        pre.drop_first().lemma_filter_prepend(first, |o: Order| still_open(o));
        assert(seq![first] + pre.drop_first() =~= pre);
    }
    if keep_first {
        kept.insert(0, first);
        proof {
            assert(kept@ =~= seq![first] + level_keep(pre.drop_first()));
        }
    }
    kept
}

/// Executable matching against a whole ladder; returns exactly the
/// model's fills and executed quantity and leaves the model's ladder.
pub(crate) fn match_ladder_exec(
    levels: &mut Vec<PriceLevel>,
    side: OrderSide,
    taker: &String,
    limit: u64,
    remaining: u64,
    next_tid: u64,
) -> (r: (Vec<Fill>, u64))
    requires
        ladder_wf(ladder_view(old(levels)@), opposite(side)),
        next_tid + remaining <= u64::MAX,
    ensures
        ({
            let out = ladder_match(ladder_view(old(levels)@), side, taker@, limit,
                remaining as int, next_tid as int);
            &&& ladder_view(final(levels)@) == out.levels
            &&& r.0@ == out.fills
            &&& r.1 as int == out.executed
            &&& r.1 <= remaining
        }),
    decreases old(levels)@.len(),
{
    let ghost lpre = ladder_view(levels@);
    proof {
        lemma_ladder_match(lpre, side, taker@, limit, remaining as int, next_tid as int);
    }
    if remaining == 0 || levels.len() == 0 {
        return (Vec::new(), 0);
    }
    let cross = match side {
        OrderSide::Buy => levels[0].price <= limit,
        OrderSide::Sell => levels[0].price >= limit,
    };
    if !cross {
        return (Vec::new(), 0);
    }
    let mut head = levels.remove(0);
    proof {
        assert(ladder_view(levels@) =~= lpre.drop_first());
        assert(lpre[0].orders == head.orders@);
    }
    let (mut fills1, ex1) = match_level_exec(&mut head.orders, taker, head.price, remaining,
        next_tid);
    proof {
        lemma_level_match(lpre[0].orders, taker@, head.price, remaining as int, next_tid as int);
    }
    let kept = retain_open(head.orders);
    let n1 = fills1.len() as u64;
    let (mut fills2, ex2) = match_ladder_exec(levels, side, taker, limit, remaining - ex1,
        next_tid + n1);
    let ghost lo = level_match(lpre[0].orders, taker@, head.price, remaining as int,
        next_tid as int);
    let ghost rest = ladder_match(lpre.drop_first(), side, taker@, limit,
        remaining as int - lo.executed, next_tid as int + lo.fills.len());
    if kept.len() > 0 {
        let price = head.price;
        levels.insert(0, PriceLevel { price, orders: kept });
        proof {
            assert(ladder_view(levels@)
                =~= seq![LevelView { price: lpre[0].price, orders: level_keep(lo.orders) }]
                    + rest.levels);
        }
    }
    fills1.append(&mut fills2);
    proof {
        assert(fills1@ =~= lo.fills + rest.fills);
    }
    (fills1, ex1 + ex2)
}

} // verus!
