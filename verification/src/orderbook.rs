//! Order-book data model.
//!
//! A book holds two ladders of price levels.  Bids are sorted highest
//! price first, asks lowest first; each level is a FIFO of resting
//! orders at exactly that price.  A resting order is always strictly
//! unfilled, and a resting buy order's notional (`quantity * price`)
//! always fits in ticks, since it was locked before the order was
//! accepted.

use vstd::prelude::*;
use crate::matching::{ladder_match, lemma_ladder_match, match_ladder_exec, clone_order, fills_qty_sum};
use crate::ladder::{ladder_insert, ladder_find, ladder_drop, lemma_ladder_insert_wf, lemma_ladder_drop_wf, ladder_insert_exec, ladder_cancel_exec, ladder_find_from};
use crate::depth::{depth_of, depth_matches, open_orders_of, depth_exec, open_orders_exec};
use crate::numeric::BASE_FACTOR;

verus! {

/// Side of an order: buying or selling the base asset.
#[derive(Clone, Copy, Debug, PartialEq, Eq, Structural)]
pub enum OrderSide {
    Buy,
    Sell,
}

/// A limit order.  Identity fields never change once placed; only
/// `filled` grows while the order rests.
#[derive(Debug)]
pub struct Order {
    pub price: u64,
    pub quantity: u64,
    pub order_id: String,
    pub filled: u64,
    pub side: OrderSide,
    pub user_id: String,
}

/// A fill produced by matching: `qty` at `price` against the resting
/// order `marker_order_id` owned by `other_user_id`.
#[derive(Debug)]
pub struct Fill {
    pub qty: u64,
    pub price: u64,
    pub trade_id: u64,
    pub marker_order_id: String,
    pub other_user_id: String,
}

/// One price level: the FIFO of resting orders at one exact price.
#[derive(Debug)]
pub struct PriceLevel {
    pub price: u64,
    pub orders: Vec<Order>,
}

/// Mathematical model of a price level.
pub ghost struct LevelView {
    pub price: u64,
    pub orders: Seq<Order>,
}

/// Mathematical model of a whole book.
pub ghost struct BookView {
    pub market: Seq<char>,
    pub bids: Seq<LevelView>,
    pub asks: Seq<LevelView>,
    pub last_trade_id: u64,
    pub current_price: u64,
}

impl View for PriceLevel {
    type V = LevelView;

    open spec fn view(&self) -> LevelView {
        LevelView { price: self.price, orders: self.orders@ }
    }
}

/// The model of a ladder: each level by its model.
pub open spec fn ladder_view(levels: Seq<PriceLevel>) -> Seq<LevelView> {
    levels.map_values(|l: PriceLevel| l@)
}

/// Remaining (unfilled) quantity of an order.
pub open spec fn order_rem(o: Order) -> int {
    o.quantity - o.filled
}

/// Every order in a level FIFO is strictly unfilled, sits at the
/// level's own price on the given side, and its locked funds fit in
/// balance ticks: a buy's full notional, a sell's quantity scaled to
/// balance ticks.
pub open spec fn orders_wf(orders: Seq<Order>, price: u64, side: OrderSide) -> bool {
    forall|i: int| 0 <= i < orders.len() ==> {
        let o = #[trigger] orders[i];
        &&& o.filled < o.quantity
        &&& o.price == price
        &&& o.side == side
        &&& (side == OrderSide::Buy ==> o.quantity * o.price <= u64::MAX)
        &&& (side == OrderSide::Sell ==> o.quantity * BASE_FACTOR <= u64::MAX)
    }
}

/// Bids are sorted strictly descending, asks strictly ascending.
pub open spec fn ladder_sorted(levels: Seq<LevelView>, descending: bool) -> bool {
    forall|i: int, j: int| 0 <= i < j < levels.len() ==> {
        if descending {
            (#[trigger] levels[i]).price > (#[trigger] levels[j]).price
        } else {
            levels[i].price < levels[j].price
        }
    }
}

/// A well-formed ladder: sorted, no empty level, orders well formed.
pub open spec fn ladder_wf(levels: Seq<LevelView>, side: OrderSide) -> bool {
    &&& ladder_sorted(levels, side == OrderSide::Buy)
    &&& forall|i: int| 0 <= i < levels.len() ==> {
        let l = #[trigger] levels[i];
        l.orders.len() > 0 && orders_wf(l.orders, l.price, side)
    }
}

/// A well-formed book.
pub open spec fn book_wf(b: BookView) -> bool {
    &&& ladder_wf(b.bids, OrderSide::Buy)
    &&& ladder_wf(b.asks, OrderSide::Sell)
}

/// The first order with the given id anywhere in the book, bids first.
pub open spec fn book_find(b: BookView, oid: Seq<char>) -> Option<Order> {
    match ladder_find(b.bids, oid) {
        Some(o) => Some(o),
        None => ladder_find(b.asks, oid),
    }
}

/// One market's order book.
#[derive(Debug)]
pub struct Orderbook {
    pub market: String,
    pub bids: Vec<PriceLevel>,
    pub asks: Vec<PriceLevel>,
    pub last_trade_id: u64,
    pub current_price: u64,
}

/// Depth snapshot of a book: `(price, quantity)` rows as decimal
/// strings, bids best (highest) first, asks best (lowest) first.
#[derive(Debug)]
pub struct OrderbookSnapshot {
    pub bids: Vec<(String, String)>,
    pub asks: Vec<(String, String)>,
}

impl View for Orderbook {
    type V = BookView;

    open spec fn view(&self) -> BookView {
        BookView {
            market: self.market@,
            bids: ladder_view(self.bids@),
            asks: ladder_view(self.asks@),
            last_trade_id: self.last_trade_id,
            current_price: self.current_price,
        }
    }
}

/// A deep copy of a ladder.
fn clone_levels(levels: &Vec<PriceLevel>) -> (r: Vec<PriceLevel>)
    ensures
        ladder_view(r@) == ladder_view(levels@),
{
    let mut out: Vec<PriceLevel> = Vec::new();
    let mut i: usize = 0;
    while i < levels.len()
        invariant
            0 <= i <= levels@.len(),
            out@.len() == i,
            forall|k: int| 0 <= k < i ==> (#[trigger] out@[k])@ == levels@[k]@,
        decreases levels@.len() - i,
    {
        let src = &levels[i].orders;
        let mut fifo: Vec<Order> = Vec::new();
        let mut j: usize = 0;
        while j < src.len()
            invariant
                0 <= j <= src@.len(),
                fifo@ == src@.subrange(0, j as int),
            decreases src@.len() - j,
        {
            fifo.push(clone_order(&src[j]));
            proof {
                assert(fifo@ =~= src@.subrange(0, j as int + 1));
            }
            j = j + 1;
        }
        proof {
            assert(src@.subrange(0, src@.len() as int) =~= src@);
        }
        let price = levels[i].price;
        out.push(PriceLevel { price, orders: fifo });
        i = i + 1;
    }
    proof {
        assert(ladder_view(out@) =~= ladder_view(levels@));
    }
    out
}

impl Orderbook {
    /// The book's well-formedness: both ladders sorted, every resting
    /// order strictly unfilled at its level's price.
    pub open spec fn wf(&self) -> bool {
        book_wf(self@)
    }

    /// A fresh, empty book for the given market symbol.
    pub fn new(market: String) -> (r: Orderbook)
        ensures
            r@.market == market@,
            r@.bids == Seq::<LevelView>::empty(),
            r@.asks == Seq::<LevelView>::empty(),
            r@.last_trade_id == 0,
            r@.current_price == 0,
            r.wf(),
    {
        let r = Orderbook {
            market,
            bids: Vec::new(),
            asks: Vec::new(),
            last_trade_id: 0,
            current_price: 0,
        };
        proof {
            assert(r@.bids =~= Seq::<LevelView>::empty());
            assert(r@.asks =~= Seq::<LevelView>::empty());
        }
        r
    }

    /// The market symbol this book serves.
    pub fn ticker(&self) -> (r: &str)
        ensures
            r@ == self@.market,
    {
        self.market.as_str()
    }

    /// A copy of the whole book.
    pub fn get_snapshot(&self) -> (r: Orderbook)
        ensures
            r@ == self@,
    {
        Orderbook {
            market: self.market.clone(),
            bids: clone_levels(&self.bids),
            asks: clone_levels(&self.asks),
            last_trade_id: self.last_trade_id,
            current_price: self.current_price,
        }
    }

    /// Matches an incoming buy against the asks, from the lowest price
    /// up to the order's limit.  The book's resting state and the
    /// returned fills are exactly what the matching model prescribes;
    /// trade ids continue the book's sequence.  Fails only when the
    /// order's quantity could outrun the remaining trade-id space.
    pub fn match_bid(&mut self, order: &Order) -> (r: Result<(Vec<Fill>, u64), String>)
        requires
            old(self).wf(),
            order.side == OrderSide::Buy,
        ensures
            final(self).wf(),
            final(self)@.market == old(self)@.market,
            final(self)@.bids == old(self)@.bids,
            final(self)@.current_price == old(self)@.current_price,
            (r is Err <==> order.quantity >= u64::MAX - old(self)@.last_trade_id),
            r is Err ==> final(self)@ == old(self)@,
            r matches Ok(v) ==> ({
                let out = ladder_match(old(self)@.asks, OrderSide::Buy, order.user_id@,
                    order.price, order.quantity as int, old(self)@.last_trade_id + 1);
                &&& final(self)@.asks == out.levels
                &&& final(self)@.last_trade_id as int == old(self)@.last_trade_id + out.fills.len()
                &&& v.0@ == out.fills
                &&& v.1 as int == out.executed
                &&& v.1 <= order.quantity
            }),
    {
        if order.quantity >= u64::MAX - self.last_trade_id {
            return Err(String::from_str("trade id limit reached"));
        }
        let next_tid = self.last_trade_id + 1;
        proof {
            lemma_ladder_match(self@.asks, OrderSide::Buy, order.user_id@, order.price,
                order.quantity as int, next_tid as int);
        }
        let (fills, executed) = match_ladder_exec(&mut self.asks, OrderSide::Buy, &order.user_id,
            order.price, order.quantity, next_tid);
        let n = fills.len() as u64;
        self.last_trade_id = self.last_trade_id + n;
        Ok((fills, executed))
    }

    /// Matches an incoming sell against the bids, from the highest
    /// price down to the order's limit; otherwise as `match_bid`.
    pub fn match_ask(&mut self, order: &Order) -> (r: Result<(Vec<Fill>, u64), String>)
        requires
            old(self).wf(),
            order.side == OrderSide::Sell,
        ensures
            final(self).wf(),
            final(self)@.market == old(self)@.market,
            final(self)@.asks == old(self)@.asks,
            final(self)@.current_price == old(self)@.current_price,
            (r is Err <==> order.quantity >= u64::MAX - old(self)@.last_trade_id),
            r is Err ==> final(self)@ == old(self)@,
            r matches Ok(v) ==> ({
                let out = ladder_match(old(self)@.bids, OrderSide::Sell, order.user_id@,
                    order.price, order.quantity as int, old(self)@.last_trade_id + 1);
                &&& final(self)@.bids == out.levels
                &&& final(self)@.last_trade_id as int == old(self)@.last_trade_id + out.fills.len()
                &&& v.0@ == out.fills
                &&& v.1 as int == out.executed
                &&& v.1 <= order.quantity
            }),
    {
        if order.quantity >= u64::MAX - self.last_trade_id {
            return Err(String::from_str("trade id limit reached"));
        }
        let next_tid = self.last_trade_id + 1;
        proof {
            lemma_ladder_match(self@.bids, OrderSide::Sell, order.user_id@, order.price,
                order.quantity as int, next_tid as int);
        }
        let (fills, executed) = match_ladder_exec(&mut self.bids, OrderSide::Sell, &order.user_id,
            order.price, order.quantity, next_tid);
        let n = fills.len() as u64;
        self.last_trade_id = self.last_trade_id + n;
        Ok((fills, executed))
    }

    /// Takes a fresh order: matches it against the opposing ladder and
    /// rests the residual, if any, at its price on its own side.  On
    /// return the order's `filled` equals the executed quantity, which
    /// equals the sum of the returned fills and never exceeds the
    /// order's quantity.
    pub fn add_order(&mut self, order: &mut Order) -> (r: Result<(Vec<Fill>, u64), String>)
        requires
            old(self).wf(),
            old(order).filled == 0,
            old(order).side == OrderSide::Buy ==> old(order).quantity * old(order).price
                <= u64::MAX,
            old(order).side == OrderSide::Sell ==> old(order).quantity * BASE_FACTOR <= u64::MAX,
        ensures
            final(self).wf(),
            final(self)@.market == old(self)@.market,
            final(self)@.current_price == old(self)@.current_price,
            (r is Err <==> old(order).quantity >= u64::MAX - old(self)@.last_trade_id),
            r is Err ==> final(self)@ == old(self)@ && *final(order) == *old(order),
            r matches Ok(v) ==> ({
                let taker = *old(order);
                let opposing = if taker.side == OrderSide::Buy {
                    old(self)@.asks
                } else {
                    old(self)@.bids
                };
                let out = ladder_match(opposing, taker.side, taker.user_id@, taker.price,
                    taker.quantity as int, old(self)@.last_trade_id + 1);
                &&& v.0@ == out.fills
                &&& v.1 as int == out.executed
                &&& fills_qty_sum(out.fills) == out.executed
                &&& v.1 <= taker.quantity
                &&& *final(order) == Order { filled: v.1, ..taker }
                &&& final(self)@.last_trade_id as int == old(self)@.last_trade_id + out.fills.len()
                &&& (taker.side == OrderSide::Buy ==> final(self)@.asks == out.levels
                    && final(self)@.bids == (if v.1 == taker.quantity {
                    old(self)@.bids
                } else {
                    ladder_insert(old(self)@.bids, *final(order), true)
                }))
                &&& (taker.side == OrderSide::Sell ==> final(self)@.bids == out.levels
                    && final(self)@.asks == (if v.1 == taker.quantity {
                    old(self)@.asks
                } else {
                    ladder_insert(old(self)@.asks, *final(order), false)
                }))
            }),
    {
        let res = if order.side == OrderSide::Buy {
            self.match_bid(order)
        } else {
            self.match_ask(order)
        };
        match res {
            Err(e) => Err(e),
            Ok((fills, executed)) => {
                proof {
                    let taker = *old(order);
                    if taker.side == OrderSide::Buy {
                        lemma_ladder_match(old(self)@.asks, OrderSide::Buy, taker.user_id@,
                            taker.price, taker.quantity as int, old(self)@.last_trade_id + 1);
                    } else {
                        lemma_ladder_match(old(self)@.bids, OrderSide::Sell, taker.user_id@,
                            taker.price, taker.quantity as int, old(self)@.last_trade_id + 1);
                    }
                }
                order.filled = executed;
                if executed < order.quantity {
                    let residual = clone_order(order);
                    if order.side == OrderSide::Buy {
                        proof {
                            lemma_ladder_insert_wf(self@.bids, residual, OrderSide::Buy);
                        }
                        ladder_insert_exec(&mut self.bids, residual, true);
                    } else {
                        proof {
                            lemma_ladder_insert_wf(self@.asks, residual, OrderSide::Sell);
                        }
                        ladder_insert_exec(&mut self.asks, residual, false);
                    }
                }
                Ok((fills, executed))
            },
        }
    }

    /// Depth snapshot: per-level aggregated remainders, bids then asks,
    /// each ladder in its own order, zero-remainder levels skipped.
    pub fn get_depth(&self) -> (r: OrderbookSnapshot)
        requires
            self.wf(),
        ensures
            depth_matches(r.bids@, depth_of(self@.bids)),
            depth_matches(r.asks@, depth_of(self@.asks)),
    {
        proof {
            lemma_wf_fifo_bounds(self@.bids, self.bids@);
            lemma_wf_fifo_bounds(self@.asks, self.asks@);
        }
        let bids = depth_exec(&self.bids);
        let asks = depth_exec(&self.asks);
        OrderbookSnapshot { bids, asks }
    }

    /// All of a user's still-open resting orders, bids then asks.
    pub fn get_open_orders(&self, user_id: &str) -> (r: Vec<Order>)
        ensures
            r@ == open_orders_of(self@.bids, user_id@) + open_orders_of(self@.asks, user_id@),
    {
        let mut acc: Vec<Order> = Vec::new();
        open_orders_exec(&self.bids, user_id, &mut acc);
        open_orders_exec(&self.asks, user_id, &mut acc);
        proof {
            assert(acc@ =~= open_orders_of(self@.bids, user_id@)
                + open_orders_of(self@.asks, user_id@));
        }
        acc
    }

    /// A copy of the first order with this id, bids first.
    pub fn find_order(&self, order_id: &str) -> (r: Option<Order>)
        ensures
            r == book_find(self@, order_id@),
    {
        proof {
            assert(ladder_view(self.bids@).skip(0) =~= ladder_view(self.bids@));
            assert(ladder_view(self.asks@).skip(0) =~= ladder_view(self.asks@));
        }
        match ladder_find_from(&self.bids, order_id, 0) {
            Some(o) => Some(o),
            None => ladder_find_from(&self.asks, order_id, 0),
        }
    }

    /// Cancels a resting bid: removes it from its level (dropping the
    /// level if it empties) and returns the price it rested at, or
    /// fails if no bid has this id.
    pub fn cancel_bid(&mut self, order_id: &str) -> (r: Result<u64, String>)
        requires
            old(self).wf(),
        ensures
            final(self).wf(),
            final(self)@.market == old(self)@.market,
            final(self)@.asks == old(self)@.asks,
            final(self)@.last_trade_id == old(self)@.last_trade_id,
            final(self)@.current_price == old(self)@.current_price,
            (r is Ok <==> ladder_find(old(self)@.bids, order_id@) is Some),
            r matches Ok(p) ==> ladder_find(old(self)@.bids, order_id@) matches Some(o)
                && p == o.price && final(self)@.bids == ladder_drop(old(self)@.bids, order_id@),
            r matches Err(m) ==> m@ == "Order not found"@ && final(self)@ == old(self)@,
    {
        proof {
            lemma_ladder_drop_wf(self@.bids, order_id@, OrderSide::Buy);
        }
        match ladder_cancel_exec(&mut self.bids, order_id) {
            Some(o) => Ok(o.price),
            None => Err(String::from_str("Order not found")),
        }
    }

    /// Cancels a resting ask; mirror of `cancel_bid`.
    pub fn cancel_ask(&mut self, order_id: &str) -> (r: Result<u64, String>)
        requires
            old(self).wf(),
        ensures
            final(self).wf(),
            final(self)@.market == old(self)@.market,
            final(self)@.bids == old(self)@.bids,
            final(self)@.last_trade_id == old(self)@.last_trade_id,
            final(self)@.current_price == old(self)@.current_price,
            (r is Ok <==> ladder_find(old(self)@.asks, order_id@) is Some),
            r matches Ok(p) ==> ladder_find(old(self)@.asks, order_id@) matches Some(o)
                && p == o.price && final(self)@.asks == ladder_drop(old(self)@.asks, order_id@),
            r matches Err(m) ==> m@ == "Order not found"@ && final(self)@ == old(self)@,
    {
        proof {
            lemma_ladder_drop_wf(self@.asks, order_id@, OrderSide::Sell);
        }
        match ladder_cancel_exec(&mut self.asks, order_id) {
            Some(o) => Ok(o.price),
            None => Err(String::from_str("Order not found")),
        }
    }
}

/// In a well-formed ladder every resting order's `filled` is bounded by
/// its quantity, stated over the executable levels for the aggregation
/// loops.
proof fn lemma_wf_fifo_bounds(lv: Seq<LevelView>, levels: Seq<PriceLevel>)
    requires
        lv == ladder_view(levels),
        ladder_wf(lv, OrderSide::Buy) || ladder_wf(lv, OrderSide::Sell),
    ensures
        forall|i: int, j: int| 0 <= i < levels.len() && 0 <= j
            < (#[trigger] levels[i]).orders@.len() ==> (#[trigger] levels[i].orders@[j]).filled
            <= levels[i].orders@[j].quantity,
{
    assert forall|i: int, j: int| 0 <= i < levels.len() && 0 <= j
        < (#[trigger] levels[i]).orders@.len() implies (#[trigger] levels[i].orders@[j]).filled
        <= levels[i].orders@[j].quantity by {
        assert(lv[i].orders == levels[i].orders@);
        assert(lv[i].orders[j] == levels[i].orders@[j]);
    }
}

} // verus!
