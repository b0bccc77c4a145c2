//! The library's headline guarantees, stated on their own.
//!
//! Each law here is proved once and for all from the matching model
//! and the well-formedness invariants; the per-operation contracts in
//! `orderbook`, `ledger` and `engine` carry the rest (conservation of
//! every asset's total, the exact release on cancel, and depth equal
//! to the in-memory aggregation are ensured there directly).

use vstd::prelude::*;
use crate::orderbook::{OrderSide, BookView, book_wf, ladder_wf, LevelView};
use crate::matching::{ladder_match, lemma_ladder_match, fills_qty_sum, opposite, crosses};
use crate::ledger::BalanceEntry;

verus! {

/// Balances can never go negative: every row holds tick amounts.
pub proof fn lemma_balances_nonnegative(entries: Seq<BalanceEntry>, i: int)
    requires
        0 <= i < entries.len(),
    ensures
        entries[i].balance.available >= 0,
        entries[i].balance.locked >= 0,
{
}

/// No fully filled order ever rests: in a well-formed book, every
/// order in either ladder is strictly unfilled.
pub proof fn lemma_no_filled_order_rests(b: BookView)
    requires
        book_wf(b),
    ensures
        forall|i: int, j: int| 0 <= i < b.bids.len() && 0 <= j
            < (#[trigger] b.bids[i]).orders.len() ==> (#[trigger] b.bids[i].orders[j]).filled
            < b.bids[i].orders[j].quantity,
        forall|i: int, j: int| 0 <= i < b.asks.len() && 0 <= j
            < (#[trigger] b.asks[i]).orders.len() ==> (#[trigger] b.asks[i].orders[j]).filled
            < b.asks[i].orders[j].quantity,
{
}

/// Trade ids are handed out strictly increasing, each above the
/// book's previous last id: the ids of one matching are
/// `next_tid, next_tid + 1, ...` in fill order.
pub proof fn lemma_trade_ids_strictly_increase(
    levels: Seq<LevelView>,
    side: OrderSide,
    taker: Seq<char>,
    limit: u64,
    remaining: int,
    next_tid: int,
)
    requires
        0 <= remaining,
        0 <= next_tid,
        next_tid + remaining <= u64::MAX,
        ladder_wf(levels, opposite(side)),
    ensures
        ({
            let out = ladder_match(levels, side, taker, limit, remaining, next_tid);
            &&& forall|k1: int, k2: int| 0 <= k1 < k2 < out.fills.len()
                ==> (#[trigger] out.fills[k1]).trade_id < (#[trigger] out.fills[k2]).trade_id
            &&& forall|k: int| 0 <= k < out.fills.len()
                ==> (#[trigger] out.fills[k]).trade_id >= next_tid
        }),
{
    lemma_ladder_match(levels, side, taker, limit, remaining, next_tid);
}

/// No matching ever fills a taker against its own resting order: every
/// fill's maker is another user.
pub proof fn lemma_no_self_trade(
    levels: Seq<LevelView>,
    side: OrderSide,
    taker: Seq<char>,
    limit: u64,
    remaining: int,
    next_tid: int,
)
    requires
        0 <= remaining,
        0 <= next_tid,
        next_tid + remaining <= u64::MAX,
        ladder_wf(levels, opposite(side)),
    ensures
        forall|k: int| 0 <= k
            < ladder_match(levels, side, taker, limit, remaining, next_tid).fills.len()
            ==> (#[trigger] ladder_match(levels, side, taker, limit, remaining,
        next_tid).fills[k]).other_user_id@ != taker,
{
    lemma_ladder_match(levels, side, taker, limit, remaining, next_tid);
}

/// The executed quantity is exactly the sum of the fills, never more
/// than requested, and every fill crosses the taker's limit.
pub proof fn lemma_executed_is_fill_sum(
    levels: Seq<LevelView>,
    side: OrderSide,
    taker: Seq<char>,
    limit: u64,
    remaining: int,
    next_tid: int,
)
    requires
        0 <= remaining,
        0 <= next_tid,
        next_tid + remaining <= u64::MAX,
        ladder_wf(levels, opposite(side)),
    ensures
        ({
            let out = ladder_match(levels, side, taker, limit, remaining, next_tid);
            &&& fills_qty_sum(out.fills) == out.executed
            &&& 0 <= out.executed <= remaining
            &&& forall|k: int| 0 <= k < out.fills.len() ==> crosses(side,
                (#[trigger] out.fills[k]).price, limit)
        }),
{
    lemma_ladder_match(levels, side, taker, limit, remaining, next_tid);
}

} // verus!
