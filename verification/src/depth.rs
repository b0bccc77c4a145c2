//! Depth aggregation and open-order snapshots.

use vstd::prelude::*;
use crate::orderbook::{Order, LevelView, PriceLevel, ladder_view, order_rem};
use crate::matching::clone_order;
use crate::numeric::{scaled_str, format_scaled, format_scaled_u128, str_eq, PRICE_DECIMALS, QUANTITY_DECIMALS};

verus! {

/// Total unfilled quantity resting at a level.
pub open spec fn level_rem_sum(orders: Seq<Order>) -> int
    decreases orders.len(),
{
    if orders.len() == 0 {
        0
    } else {
        level_rem_sum(orders.drop_last()) + order_rem(orders.last())
    }
}

/// A level with anything resting at all.
pub open spec fn has_rem_pred() -> spec_fn(LevelView) -> bool {
    |l: LevelView| level_rem_sum(l.orders) > 0
}

/// Depth snapshot of one ladder: one `(price, quantity)` pair of
/// decimal strings per level, in ladder order, skipping any level whose
/// aggregated remainder is zero.
pub open spec fn depth_of(levels: Seq<LevelView>) -> Seq<(Seq<char>, Seq<char>)> {
    levels.filter(has_rem_pred()).map_values(
        |l: LevelView| (scaled_str(l.price as int, PRICE_DECIMALS as int), scaled_str(
            level_rem_sum(l.orders),
            QUANTITY_DECIMALS as int,
        )),
    )
}

/// The executable depth rows spell out exactly the model's rows.
pub open spec fn depth_matches(rows: Seq<(String, String)>, model: Seq<(Seq<char>, Seq<char>)>) -> bool {
    &&& rows.len() == model.len()
    &&& forall|i: int| 0 <= i < rows.len() ==> (#[trigger] rows[i]).0@ == model[i].0
        && rows[i].1@ == model[i].1
}

/// The still-open orders of one FIFO that belong to the given user, in
/// FIFO order.
pub open spec fn open_orders_in(orders: Seq<Order>, user: Seq<char>) -> Seq<Order>
    decreases orders.len(),
{
    if orders.len() == 0 {
        Seq::empty()
    } else {
        let o = orders.last();
        let kept: Seq<Order> = if o.user_id@ == user && o.filled < o.quantity {
            seq![o]
        } else {
            Seq::empty()
        };
        open_orders_in(orders.drop_last(), user) + kept
    }
}

/// A user's open orders in one ladder, best level first, FIFO order
/// within a level.
pub open spec fn open_orders_of(levels: Seq<LevelView>, user: Seq<char>) -> Seq<Order>
    decreases levels.len(),
{
    if levels.len() == 0 {
        Seq::empty()
    } else {
        open_orders_of(levels.drop_last(), user) + open_orders_in(levels.last().orders, user)
    }
}

/// Executable remainder sum over a level FIFO.
fn level_rem_sum_exec(orders: &Vec<Order>) -> (s: u128)
    requires
        forall|i: int| 0 <= i < orders@.len() ==> (#[trigger] orders@[i]).filled
            <= orders@[i].quantity,
    ensures
        s as int == level_rem_sum(orders@),
{
    let mut s: u128 = 0;
    let mut i: usize = 0;
    proof {
        assert(orders@.subrange(0, 0) =~= Seq::<Order>::empty());
    }
    while i < orders.len()
        invariant
            0 <= i <= orders@.len(),
            forall|k: int| 0 <= k < orders@.len() ==> (#[trigger] orders@[k]).filled
                <= orders@[k].quantity,
            s as int == level_rem_sum(orders@.subrange(0, i as int)),
            s <= i * (u64::MAX as u128),
        decreases orders@.len() - i,
    {
        let o = &orders[i];
        let rem = o.quantity - o.filled;
        proof {
            let pre = orders@.subrange(0, i as int);
            let post = orders@.subrange(0, i as int + 1);
            assert(post.drop_last() =~= pre);
            assert(post.last() == orders@[i as int]);
            assert((i + 1) * (u64::MAX as int) == i * (u64::MAX as int) + u64::MAX) by (nonlinear_arith);
            assert(orders@.len() * (u64::MAX as int) < u128::MAX) by {
                vstd::arithmetic::mul::lemma_mul_inequality(
                    orders@.len() as int,
                    usize::MAX as int,
                    u64::MAX as int,
                );
                assert((usize::MAX as int) * (u64::MAX as int) < u128::MAX) by (nonlinear_arith);
            }
            vstd::arithmetic::mul::lemma_mul_inequality(
                i as int + 1,
                orders@.len() as int,
                u64::MAX as int,
            );
        }
        s = s + (rem as u128);
        i = i + 1;
    }
    proof {
        assert(orders@.subrange(0, orders@.len() as int) =~= orders@);
    }
    s
}

/// Executable depth snapshot of one ladder.
pub(crate) fn depth_exec(levels: &Vec<PriceLevel>) -> (rows: Vec<(String, String)>)
    requires
        forall|i: int, j: int| 0 <= i < levels@.len() && 0 <= j
            < (#[trigger] levels@[i]).orders@.len() ==> (#[trigger] levels@[i].orders@[j]).filled
            <= levels@[i].orders@[j].quantity,
    ensures
        depth_matches(rows@, depth_of(ladder_view(levels@))),
{
    let mut rows: Vec<(String, String)> = Vec::new();
    let mut i: usize = 0;
    proof {
        assert(ladder_view(levels@).subrange(0, 0) =~= Seq::<LevelView>::empty());
        reveal_with_fuel(Seq::filter, 3);
    }
    while i < levels.len()
        invariant
            0 <= i <= levels@.len(),
            forall|k: int, j: int| 0 <= k < levels@.len() && 0 <= j
                < (#[trigger] levels@[k]).orders@.len() ==> (
            #[trigger] levels@[k].orders@[j]).filled <= levels@[k].orders@[j].quantity,
            depth_matches(rows@, depth_of(ladder_view(levels@).subrange(0, i as int))),
        decreases levels@.len() - i,
    {
        let rem = level_rem_sum_exec(&levels[i].orders);
        let ghost dpred = has_rem_pred();
        let ghost pre = ladder_view(levels@).subrange(0, i as int);
        let ghost cur = ladder_view(levels@)[i as int];
        proof {
            let post = ladder_view(levels@).subrange(0, i as int + 1);
            assert(post =~= pre + seq![cur]);
            Seq::filter_distributes_over_add(pre, seq![cur], dpred);
            reveal_with_fuel(Seq::filter, 3);
            assert(seq![cur].drop_last() =~= Seq::<LevelView>::empty());
            assert(cur.orders == levels@[i as int].orders@);
            if dpred(cur) {
                assert(seq![cur].filter(dpred) =~= seq![cur]);
            } else {
                assert(seq![cur].filter(dpred) =~= Seq::<LevelView>::empty());
            }
        }
        if rem > 0 {
            let price_s = format_scaled(levels[i].price, PRICE_DECIMALS);
            let qty_s = format_scaled_u128(rem, QUANTITY_DECIMALS);
            rows.push((price_s, qty_s));
            proof {
                assert(pre.filter(dpred) + seq![cur] =~= pre.filter(dpred).push(cur));
                let p = depth_of(pre + seq![cur]);
                assert(p =~= depth_of(pre).push(
                    (scaled_str(cur.price as int, PRICE_DECIMALS as int), scaled_str(
                        level_rem_sum(cur.orders),
                        QUANTITY_DECIMALS as int,
                    ))));
            }
        } else {
            proof {
                assert(pre.filter(dpred) + Seq::<LevelView>::empty() =~= pre.filter(dpred));
                assert(depth_of(pre + seq![cur]) =~= depth_of(pre));
            }
        }
        i = i + 1;
    }
    proof {
        assert(ladder_view(levels@).subrange(0, levels@.len() as int) =~= ladder_view(levels@));
    }
    rows
}

/// Executable open-order snapshot of one ladder, appended onto `acc`.
pub(crate) fn open_orders_exec(levels: &Vec<PriceLevel>, user: &str, acc: &mut Vec<Order>)
    ensures
        final(acc)@ == old(acc)@ + open_orders_of(ladder_view(levels@), user@),
{
    let ghost base = acc@;
    let mut i: usize = 0;
    proof {
        assert(ladder_view(levels@).subrange(0, 0) =~= Seq::<LevelView>::empty());
        assert(acc@ =~= base + open_orders_of(ladder_view(levels@).subrange(0, 0), user@));
    }
    while i < levels.len()
        invariant
            0 <= i <= levels@.len(),
            acc@ == base + open_orders_of(ladder_view(levels@).subrange(0, i as int), user@),
        decreases levels@.len() - i,
    {
        let fifo = &levels[i].orders;
        let ghost fpre = acc@;
        let mut j: usize = 0;
        proof {
            assert(fifo@.subrange(0, 0) =~= Seq::<Order>::empty());
            assert(acc@ =~= fpre + open_orders_in(fifo@.subrange(0, 0), user@));
        }
        while j < fifo.len()
            invariant
                0 <= j <= fifo@.len(),
                fifo == &levels[i as int].orders,
                i < levels@.len(),
                acc@ == fpre + open_orders_in(fifo@.subrange(0, j as int), user@),
            decreases fifo@.len() - j,
        {
            let o = &fifo[j];
            let keep = o.filled < o.quantity && str_eq(o.user_id.as_str(), user);
            if keep {
                let c = clone_order(o);
                acc.push(c);
            }
            proof {
                let x = fifo@[j as int];
                let a = fifo@.subrange(0, j as int);
                let b = fifo@.subrange(0, j as int + 1);
                assert(b.drop_last() =~= a);
                assert(b.last() == x);
                assert(acc@ =~= fpre + open_orders_in(b, user@));
            }
            j = j + 1;
        }
        proof {
            assert(fifo@.subrange(0, fifo@.len() as int) =~= fifo@);
            let lpre = ladder_view(levels@).subrange(0, i as int);
            let lpost = ladder_view(levels@).subrange(0, i as int + 1);
            assert(lpost.drop_last() =~= lpre);
            assert(lpost.last() == ladder_view(levels@)[i as int]);
            assert(acc@ =~= base + open_orders_of(lpost, user@));
        }
        i = i + 1;
    }
    proof {
        assert(ladder_view(levels@).subrange(0, levels@.len() as int) =~= ladder_view(levels@));
    }
}

} // verus!
