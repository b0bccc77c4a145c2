//! Resting-order bookkeeping on a ladder: inserting a residual order at
//! its price level, finding an order by id, and cancelling it.

use vstd::prelude::*;
use crate::orderbook::{Order, OrderSide, LevelView, PriceLevel, ladder_wf, ladder_view, ladder_sorted, orders_wf};
use crate::matching::{price_in, clone_order};
use crate::numeric::{str_eq, BASE_FACTOR};

verus! {

/// Where a residual order comes to rest: appended to the FIFO of its
/// own price's level, or in a fresh level placed to keep the ladder
/// sorted (`descending` for bids).
pub open spec fn ladder_insert(levels: Seq<LevelView>, o: Order, descending: bool) -> Seq<
    LevelView,
>
    decreases levels.len(),
{
    if levels.len() == 0 {
        seq![LevelView { price: o.price, orders: seq![o] }]
    } else if levels[0].price == o.price {
        seq![LevelView { price: o.price, orders: levels[0].orders.push(o) }]
            + levels.drop_first()
    } else if (descending && o.price > levels[0].price) || (!descending && o.price
        < levels[0].price) {
        seq![LevelView { price: o.price, orders: seq![o] }] + levels
    } else {
        seq![levels[0]] + ladder_insert(levels.drop_first(), o, descending)
    }
}

/// First order with the given id in a FIFO.
pub open spec fn orders_find(orders: Seq<Order>, oid: Seq<char>) -> Option<Order>
    decreases orders.len(),
{
    if orders.len() == 0 {
        None
    } else if orders[0].order_id@ == oid {
        Some(orders[0])
    } else {
        orders_find(orders.drop_first(), oid)
    }
}

/// The FIFO with the first order of the given id removed.
pub open spec fn orders_drop(orders: Seq<Order>, oid: Seq<char>) -> Seq<Order>
    decreases orders.len(),
{
    if orders.len() == 0 {
        orders
    } else if orders[0].order_id@ == oid {
        orders.drop_first()
    } else {
        seq![orders[0]] + orders_drop(orders.drop_first(), oid)
    }
}

/// First order with the given id in a ladder, best level first.
pub open spec fn ladder_find(levels: Seq<LevelView>, oid: Seq<char>) -> Option<Order>
    decreases levels.len(),
{
    if levels.len() == 0 {
        None
    } else {
        match orders_find(levels[0].orders, oid) {
            Some(o) => Some(o),
            None => ladder_find(levels.drop_first(), oid),
        }
    }
}

/// The ladder after cancelling the order with the given id: the first
/// match leaves its FIFO, and a level whose FIFO empties leaves the
/// ladder.
pub open spec fn ladder_drop(levels: Seq<LevelView>, oid: Seq<char>) -> Seq<LevelView>
    decreases levels.len(),
{
    if levels.len() == 0 {
        levels
    } else if orders_find(levels[0].orders, oid) is Some {
        let kept = orders_drop(levels[0].orders, oid);
        if kept.len() == 0 {
            levels.drop_first()
        } else {
            seq![LevelView { price: levels[0].price, orders: kept }] + levels.drop_first()
        }
    } else {
        seq![levels[0]] + ladder_drop(levels.drop_first(), oid)
    }
}

/// Inserting a well-formed resting order keeps the ladder well formed,
/// and every level sits either at the order's price or at a price the
/// ladder already had.
pub proof fn lemma_ladder_insert_wf(levels: Seq<LevelView>, o: Order, side: OrderSide)
    requires
        ladder_wf(levels, side),
        o.filled < o.quantity,
        o.side == side,
        side == OrderSide::Buy ==> o.quantity * o.price <= u64::MAX,
        side == OrderSide::Sell ==> o.quantity * BASE_FACTOR <= u64::MAX,
    ensures
        ({
            let out = ladder_insert(levels, o, side == OrderSide::Buy);
            &&& ladder_wf(out, side)
            &&& forall|k: int| 0 <= k < out.len()
                ==> (#[trigger] out[k]).price == o.price || price_in(levels, out[k].price)
        }),
    decreases levels.len(),
{
    let descending = side == OrderSide::Buy;
    let out = ladder_insert(levels, o, descending);
    if levels.len() == 0 {
        assert(orders_wf(seq![o], o.price, side));
    } else if levels[0].price == o.price {
        assert(orders_wf(levels[0].orders.push(o), o.price, side));
        assert(forall|k: int| 1 <= k < out.len() ==> out[k] == levels[k]);
        assert forall|k: int| 0 <= k < out.len()
            implies (#[trigger] out[k]).price == o.price || price_in(levels, out[k].price) by {
            if k >= 1 {
                assert(levels[k].price == out[k].price);
            }
        }
    } else if (descending && o.price > levels[0].price) || (!descending && o.price
        < levels[0].price) {
        assert(orders_wf(seq![o], o.price, side));
        assert(forall|k: int| 1 <= k < out.len() ==> out[k] == levels[k - 1]);
        assert forall|k: int| 0 <= k < out.len()
            implies (#[trigger] out[k]).price == o.price || price_in(levels, out[k].price) by {
            if k >= 1 {
                assert(levels[k - 1].price == out[k].price);
            }
        }
    } else {
        let tail = levels.drop_first();
        assert(ladder_wf(tail, side));
        lemma_ladder_insert_wf(tail, o, side);
        let rest = ladder_insert(tail, o, descending);
        assert(out == seq![levels[0]] + rest);
        assert(forall|k: int| 1 <= k < out.len() ==> out[k] == rest[k - 1]);
        assert forall|k: int| 0 <= k < out.len()
            implies (#[trigger] out[k]).price == o.price || price_in(levels, out[k].price) by {
            if k >= 1 && out[k].price != o.price {
                assert(price_in(tail, out[k].price));
                let i = choose|i: int| 0 <= i < tail.len() && (#[trigger] tail[i]).price
                    == out[k].price;
                assert(levels[i + 1] == tail[i]);
            } else if k == 0 {
                assert(levels[0] == out[0]);
            }
        }
        assert forall|i: int, j: int| 0 <= i < j < out.len() implies {
            if descending {
                (#[trigger] out[i]).price > (#[trigger] out[j]).price
            } else {
                out[i].price < out[j].price
            }
        } by {
            if i == 0 {
                // every deeper level is either at the order's price or a
                // price from the tail, and the head beats both
                if out[j].price != o.price {
                    assert(price_in(tail, out[j].price));
                    let t = choose|t: int| 0 <= t < tail.len() && (#[trigger] tail[t]).price
                        == out[j].price;
                    assert(levels[t + 1] == tail[t]);
                }
            }
        }
    }
}

/// Cancelling keeps the ladder well formed; surviving levels keep
/// prices the ladder already had, and the found order (if any) was a
/// resting order of the ladder.
pub proof fn lemma_ladder_drop_wf(levels: Seq<LevelView>, oid: Seq<char>, side: OrderSide)
    requires
        ladder_wf(levels, side),
    ensures
        ({
            let out = ladder_drop(levels, oid);
            &&& ladder_wf(out, side)
            &&& forall|k: int| 0 <= k < out.len()
                ==> price_in(levels, (#[trigger] out[k]).price)
            &&& (ladder_find(levels, oid) is None ==> out == levels)
            &&& (ladder_find(levels, oid) matches Some(o) ==> {
                &&& o.order_id@ == oid
                &&& o.filled < o.quantity
                &&& o.side == side
                &&& (side == OrderSide::Buy ==> o.quantity * o.price <= u64::MAX)
                &&& (side == OrderSide::Sell ==> o.quantity * BASE_FACTOR <= u64::MAX)
            })
        }),
    decreases levels.len(),
{
    let out = ladder_drop(levels, oid);
    if levels.len() == 0 {
    } else {
        let head = levels[0];
        let tail = levels.drop_first();
        assert(ladder_wf(tail, side));
        lemma_orders_drop(head.orders, oid);
        if orders_find(head.orders, oid) is Some {
            let o = orders_find(head.orders, oid).unwrap();
            let i = choose|i: int| 0 <= i < head.orders.len() && (#[trigger] head.orders[i]) == o
                && head.orders[i].order_id@ == oid;
            let kept = orders_drop(head.orders, oid);
            assert(orders_wf(kept, head.price, side));
            if kept.len() == 0 {
                assert(forall|k: int| 0 <= k < out.len() ==> out[k] == tail[k]);
                assert forall|k: int| 0 <= k < out.len()
                    implies price_in(levels, (#[trigger] out[k]).price) by {
                    assert(levels[k + 1] == tail[k]);
                }
            } else {
                assert(forall|k: int| 1 <= k < out.len() ==> out[k] == tail[k - 1]);
                assert forall|k: int| 0 <= k < out.len()
                    implies price_in(levels, (#[trigger] out[k]).price) by {
                    if k == 0 {
                        assert(levels[0].price == out[0].price);
                    } else {
                        assert(levels[k] == tail[k - 1]);
                    }
                }
            }
        } else {
            lemma_ladder_drop_wf(tail, oid, side);
            let rest = ladder_drop(tail, oid);
            if ladder_find(levels, oid) is None {
                assert(rest == tail);
                assert(out =~= levels);
            }
            assert(forall|k: int| 1 <= k < out.len() ==> out[k] == rest[k - 1]);
            assert forall|k: int| 0 <= k < out.len()
                implies price_in(levels, (#[trigger] out[k]).price) by {
                if k == 0 {
                    assert(levels[0].price == out[0].price);
                } else {
                    assert(price_in(tail, out[k].price));
                    let i = choose|i: int| 0 <= i < tail.len() && (#[trigger] tail[i]).price
                        == out[k].price;
                    assert(levels[i + 1] == tail[i]);
                }
            }
            assert forall|i: int, j: int| 0 <= i < j < out.len() implies {
                if side == OrderSide::Buy {
                    (#[trigger] out[i]).price > (#[trigger] out[j]).price
                } else {
                    out[i].price < out[j].price
                }
            } by {
                if i == 0 {
                    assert(price_in(tail, out[j].price));
                    let t = choose|t: int| 0 <= t < tail.len() && (#[trigger] tail[t]).price
                        == out[j].price;
                    assert(levels[t + 1] == tail[t]);
                }
            }
        }
    }
}

/// What dropping an order from a FIFO does: if the id is there, the
/// result is one order shorter and made of the other orders; the found
/// order is a member of the FIFO.
pub proof fn lemma_orders_drop(orders: Seq<Order>, oid: Seq<char>)
    ensures
        ({
            let found = orders_find(orders, oid);
            let out = orders_drop(orders, oid);
            &&& (found is None ==> out == orders)
            &&& (found matches Some(o) ==> {
                &&& o.order_id@ == oid
                &&& out.len() == orders.len() - 1
                &&& exists|i: int| 0 <= i < orders.len() && (#[trigger] orders[i]) == o
                    && orders[i].order_id@ == oid
                &&& forall|k: int| 0 <= k < out.len()
                    ==> exists|i: int| 0 <= i < orders.len() && (#[trigger] orders[i]) == (
                    #[trigger] out[k])
            })
        }),
    decreases orders.len(),
{
    if orders.len() == 0 {
    } else if orders[0].order_id@ == oid {
        let out = orders_drop(orders, oid);
        assert forall|k: int| 0 <= k < out.len()
            implies exists|i: int| 0 <= i < orders.len() && (#[trigger] orders[i]) == (
        #[trigger] out[k]) by {
            assert(orders[k + 1] == out[k]);
        }
    } else {
        let tail = orders.drop_first();
        lemma_orders_drop(tail, oid);
        let found = orders_find(orders, oid);
        let out = orders_drop(orders, oid);
        if found is None {
            assert(out =~= orders);
        } else {
            let o = found.unwrap();
            let i = choose|i: int| 0 <= i < tail.len() && (#[trigger] tail[i]) == o
                && tail[i].order_id@ == oid;
            assert(orders[i + 1] == tail[i]);
            let rest = orders_drop(tail, oid);
            assert(forall|k: int| 1 <= k < out.len() ==> out[k] == rest[k - 1]);
            assert forall|k: int| 0 <= k < out.len()
                implies exists|i: int| 0 <= i < orders.len() && (#[trigger] orders[i]) == (
            #[trigger] out[k]) by {
                if k == 0 {
                    assert(orders[0] == out[0]);
                } else {
                    let i = choose|i: int| 0 <= i < tail.len() && (#[trigger] tail[i])
                        == rest[k - 1];
                    assert(orders[i + 1] == tail[i]);
                }
            }
        }
    }
}

/// Executable insert of a residual order.
pub(crate) fn ladder_insert_exec(levels: &mut Vec<PriceLevel>, o: Order, descending: bool)
    ensures
        ladder_view(final(levels)@) == ladder_insert(ladder_view(old(levels)@), o, descending),
    decreases old(levels)@.len(),
{
    let ghost lpre = ladder_view(levels@);
    if levels.len() == 0 {
        let price = o.price;
        let mut fifo: Vec<Order> = Vec::new();
        fifo.push(o);
        levels.push(PriceLevel { price, orders: fifo });
        proof {
            assert(ladder_view(levels@) =~= ladder_insert(lpre, o, descending));
        }
    } else if levels[0].price == o.price {
        let mut head = levels.remove(0);
        head.orders.push(o);
        levels.insert(0, head);
        proof {
            assert(ladder_view(levels@) =~= ladder_insert(lpre, o, descending));
        }
    } else if (descending && o.price > levels[0].price) || (!descending && o.price
        < levels[0].price) {
        let price = o.price;
        let mut fifo: Vec<Order> = Vec::new();
        fifo.push(o);
        levels.insert(0, PriceLevel { price, orders: fifo });
        proof {
            assert(ladder_view(levels@) =~= ladder_insert(lpre, o, descending));
        }
    } else {
        let head = levels.remove(0);
        proof {
            assert(ladder_view(levels@) =~= lpre.drop_first());
        }
        ladder_insert_exec(levels, o, descending);
        levels.insert(0, head);
        proof {
            assert(ladder_view(levels@)
                =~= seq![lpre[0]] + ladder_insert(lpre.drop_first(), o, descending));
        }
    }
}

/// Executable cancel: removes the first order with the given id from
/// the ladder and hands it back.
pub(crate) fn ladder_cancel_exec(levels: &mut Vec<PriceLevel>, oid: &str) -> (r: Option<Order>)
    ensures
        r == ladder_find(ladder_view(old(levels)@), oid@),
        ladder_view(final(levels)@) == ladder_drop(ladder_view(old(levels)@), oid@),
    decreases old(levels)@.len(),
{
    let ghost lpre = ladder_view(levels@);
    if levels.len() == 0 {
        return None;
    }
    let mut head = levels.remove(0);
    proof {
        assert(ladder_view(levels@) =~= lpre.drop_first());
        assert(lpre[0].orders == head.orders@);
    }
    match orders_cancel_exec(&mut head.orders, oid) {
        Some(o) => {
            if head.orders.len() > 0 {
                levels.insert(0, head);
                proof {
                    assert(ladder_view(levels@)
                        =~= seq![
                        LevelView { price: lpre[0].price, orders: orders_drop(lpre[0].orders, oid@) },
                    ] + lpre.drop_first());
                }
            }
            Some(o)
        },
        None => {
            let r = ladder_cancel_exec(levels, oid);
            levels.insert(0, head);
            proof {
                lemma_orders_drop(lpre[0].orders, oid@);
                assert(head@.orders == lpre[0].orders);
                assert(head@ == lpre[0]);
                assert(ladder_view(levels@)
                    =~= seq![lpre[0]] + ladder_drop(lpre.drop_first(), oid@));
            }
            r
        },
    }
}

/// Executable removal of the first order with the given id from a FIFO.
fn orders_cancel_exec(orders: &mut Vec<Order>, oid: &str) -> (r: Option<Order>)
    ensures
        r == orders_find(old(orders)@, oid@),
        final(orders)@ == orders_drop(old(orders)@, oid@),
    decreases old(orders)@.len(),
{
    if orders.len() == 0 {
        return None;
    }
    let ghost pre = orders@;
    let first = orders.remove(0);
    proof {
        assert(orders@ =~= pre.drop_first());
    }
    if str_eq(first.order_id.as_str(), oid) {
        Some(first)
    } else {
        let r = orders_cancel_exec(orders, oid);
        orders.insert(0, first);
        proof {
            assert(orders@ =~= seq![first] + orders_drop(pre.drop_first(), oid@));
        }
        r
    }
}

/// Executable search for an order by id, returning a copy.
pub(crate) fn orders_find_from(orders: &Vec<Order>, oid: &str, start: usize) -> (r: Option<Order>)
    requires
        start <= orders@.len(),
    ensures
        r == orders_find(orders@.skip(start as int), oid@),
    decreases orders@.len() - start,
{
    if start == orders.len() {
        proof {
            assert(orders@.skip(start as int) =~= Seq::<Order>::empty());
        }
        return None;
    }
    proof {
        assert(orders@.skip(start as int)[0] == orders@[start as int]);
        assert(orders@.skip(start as int).drop_first() =~= orders@.skip(start as int + 1));
    }
    if str_eq(orders[start].order_id.as_str(), oid) {
        Some(clone_order(&orders[start]))
    } else {
        orders_find_from(orders, oid, start + 1)
    }
}

/// Executable search over a ladder, returning a copy of the order.
pub(crate) fn ladder_find_from(levels: &Vec<PriceLevel>, oid: &str, start: usize) -> (r: Option<
    Order,
>)
    requires
        start <= levels@.len(),
    ensures
        r == ladder_find(ladder_view(levels@).skip(start as int), oid@),
    decreases levels@.len() - start,
{
    if start == levels.len() {
        proof {
            assert(ladder_view(levels@).skip(start as int) =~= Seq::<LevelView>::empty());
        }
        return None;
    }
    proof {
        assert(ladder_view(levels@).skip(start as int)[0] == ladder_view(levels@)[start as int]);
        assert(ladder_view(levels@).skip(start as int).drop_first()
            =~= ladder_view(levels@).skip(start as int + 1));
    }
    match orders_find_from(&levels[start].orders, oid, 0) {
        Some(o) => {
            proof {
                assert(levels[start as int].orders@.skip(0) =~= levels[start as int].orders@);
            }
            Some(o)
        },
        None => {
            proof {
                assert(levels[start as int].orders@.skip(0) =~= levels[start as int].orders@);
            }
            ladder_find_from(levels, oid, start + 1)
        },
    }
}

} // verus!
