//! How one book queues, cancels and fills, order by order.

use crate::engine::book::{
    lemma_position_first, lemma_position_found, lemma_rank_bounds, position, qty_sum, rank,
    BookView,
};
use crate::engine::types::Order;
use crate::feed::{OrderId, Side};
use vstd::prelude::*;

verus! {

/// The best bid is the highest and the best ask the lowest; the best order of
/// a side is the first of its queue; and a book is crossed exactly when some
/// bid is at or above some ask.
pub proof fn law_the_best_price_stands_first(b: BookView)
    requires
        b.valid(),
    ensures
        forall|i: int| 0 <= i < b.bids.len() ==> b.bids[0].price.0 >= (#[trigger] b.bids[i]).price.0,
        forall|i: int| 0 <= i < b.asks.len() ==> b.asks[0].price.0 <= (#[trigger] b.asks[i]).price.0,
        b.bids.len() > 0 ==> b.best(Side::Buy) == Some(b.bids[0]),
        b.bids.len() == 0 ==> b.best(Side::Buy) is None,
        b.asks.len() > 0 ==> b.best(Side::Sell) == Some(b.asks[0]),
        b.asks.len() == 0 ==> b.best(Side::Sell) is None,
        b.crossed() <==> exists|i: int, j: int|
            0 <= i < b.bids.len() && 0 <= j < b.asks.len() && (#[trigger] b.bids[i]).price.0 >= (
            #[trigger] b.asks[j]).price.0,
{
    assert forall|i: int| 0 <= i < b.bids.len() implies b.bids[0].price.0 >= (
    #[trigger] b.bids[i]).price.0 by {}
    assert forall|i: int| 0 <= i < b.asks.len() implies b.asks[0].price.0 <= (
    #[trigger] b.asks[i]).price.0 by {}
    if b.crossed() {
        assert(b.bids[0].price.0 >= b.asks[0].price.0);
    }
}

/// A buy joins the bids, unchanged, behind every bid at its price or above and
/// ahead of every lower one; everybody else's turn stays, and so do the asks.
/// It can be cancelled under its id from then on.
pub proof fn law_a_buy_queues_behind_bids_as_high(b: BookView, o: Order)
    requires
        b.valid(),
        o.side == Side::Buy,
    ensures
        exists|k: int|
            #![trigger b.bids.insert(k, o)]
            {
                &&& 0 <= k <= b.bids.len()
                &&& b.insert(o).bids == b.bids.insert(k, o)
                &&& forall|i: int| 0 <= i < k ==> (#[trigger] b.bids[i]).price.0 >= o.price.0
                &&& forall|i: int|
                    k <= i < b.bids.len() ==> (#[trigger] b.bids[i]).price.0 < o.price.0
            },
        b.insert(o).asks == b.asks,
        b.insert(o).index == b.index.insert(o.id, (Side::Buy, o.price)),
{
    let k = rank(b.bids, o.side, o.price);
    lemma_rank_bounds(b.bids, o.side, o.price);
    assert forall|i: int| k <= i < b.bids.len() implies (#[trigger] b.bids[i]).price.0
        < o.price.0 by {
        assert(b.bids[k].price.0 < o.price.0);
        assert(i > k ==> b.bids[k].price.0 >= b.bids[i].price.0);
    }
    assert(b.insert(o).bids == b.bids.insert(k, o));
}

/// A sell joins the asks, unchanged, behind every ask at its price or below
/// and ahead of every higher one.
pub proof fn law_a_sell_queues_behind_asks_as_low(b: BookView, o: Order)
    requires
        b.valid(),
        o.side == Side::Sell,
    ensures
        exists|k: int|
            #![trigger b.asks.insert(k, o)]
            {
                &&& 0 <= k <= b.asks.len()
                &&& b.insert(o).asks == b.asks.insert(k, o)
                &&& forall|i: int| 0 <= i < k ==> (#[trigger] b.asks[i]).price.0 <= o.price.0
                &&& forall|i: int|
                    k <= i < b.asks.len() ==> (#[trigger] b.asks[i]).price.0 > o.price.0
            },
        b.insert(o).bids == b.bids,
        b.insert(o).index == b.index.insert(o.id, (Side::Sell, o.price)),
{
    let k = rank(b.asks, o.side, o.price);
    lemma_rank_bounds(b.asks, o.side, o.price);
    assert forall|i: int| k <= i < b.asks.len() implies (#[trigger] b.asks[i]).price.0
        > o.price.0 by {
        assert(b.asks[k].price.0 > o.price.0);
        assert(i > k ==> b.asks[k].price.0 <= b.asks[i].price.0);
    }
    assert(b.insert(o).asks == b.asks.insert(k, o));
}

/// A cancel takes out one order with that id, the first at the price under
/// which it is known, and hands it back as it rested; every other order stays
/// where it was. An id that is not known changes nothing.
pub proof fn law_a_cancel_takes_out_one_order(b: BookView, id: OrderId)
    requires
        b.valid(),
    ensures
        !b.index.contains_key(id) ==> b.cancelled(id) is None && b.cancel(id) == b,
        b.index.contains_key(id) ==> b.cancel(id).index == b.index.remove(id),
        b.index.contains_key(id) && b.index[id].0 == Side::Buy ==> b.cancel(id).asks == b.asks
            && exists|k: int|
            #![trigger b.bids.remove(k)]
            {
                &&& 0 <= k < b.bids.len()
                &&& b.bids[k].id == id
                &&& b.bids[k].price == b.index[id].1
                &&& forall|i: int|
                    0 <= i < k ==> (#[trigger] b.bids[i]).id != id || b.bids[i].price
                        != b.index[id].1
                &&& b.cancelled(id) == Some(b.bids[k])
                &&& b.cancel(id).bids == b.bids.remove(k)
            },
        b.index.contains_key(id) && b.index[id].0 == Side::Sell ==> b.cancel(id).bids == b.bids
            && exists|k: int|
            #![trigger b.asks.remove(k)]
            {
                &&& 0 <= k < b.asks.len()
                &&& b.asks[k].id == id
                &&& b.asks[k].price == b.index[id].1
                &&& forall|i: int|
                    0 <= i < k ==> (#[trigger] b.asks[i]).id != id || b.asks[i].price
                        != b.index[id].1
                &&& b.cancelled(id) == Some(b.asks[k])
                &&& b.cancel(id).asks == b.asks.remove(k)
            },
{
    if b.index.contains_key(id) {
        let (side, price) = b.index[id];
        let s = b.side(side);
        let k = position(s, id, price);
        lemma_position_found(s, id, price);
        lemma_position_first(s, id, price);
        match side {
            Side::Buy => assert(b.cancel(id).bids == b.bids.remove(k)),
            Side::Sell => assert(b.cancel(id).asks == b.asks.remove(k)),
        }
    }
}

/// A fill takes its quantity off the first order of a side. An order that has
/// no more than that leaves, with its id; any other keeps its place with the
/// difference, and nothing else of it changes. Nobody else is touched.
pub proof fn law_a_fill_takes_from_the_first(b: BookView, side: Side, qty: int)
    requires
        b.best(side) matches Some(o) ==> i64::MIN <= o.qty.0 - qty <= i64::MAX,
    ensures
        ({
            let n = b.reduce_best(side, qty);
            let (s, t) = if side == Side::Buy {
                (b.bids, n.bids)
            } else {
                (b.asks, n.asks)
            };
            let (u, w) = if side == Side::Buy {
                (b.asks, n.asks)
            } else {
                (b.bids, n.bids)
            };
            &&& w == u
            &&& s.len() == 0 ==> n == b
            &&& s.len() > 0 && s[0].qty.0 == qty ==> t == s.drop_first() && n.index
                == b.index.remove(s[0].id)
            &&& s.len() > 0 && s[0].qty.0 != qty ==> {
                &&& n.index == b.index
                &&& t.len() == s.len()
                &&& t[0].id == s[0].id
                &&& t[0].account == s[0].account
                &&& t[0].side == s[0].side
                &&& t[0].price == s[0].price
                &&& t[0].qty.0 == s[0].qty.0 - qty
                &&& t.drop_first() == s.drop_first()
            }
        }),
{
    let n = b.reduce_best(side, qty);
    let (s, t) = if side == Side::Buy {
        (b.bids, n.bids)
    } else {
        (b.asks, n.asks)
    };
    if s.len() > 0 && s[0].qty.0 != qty {
        assert(t.drop_first() =~= s.drop_first());
    }
}

/// The quantity of a queue is nothing for an empty one, and grows by what an
/// order holds when the order joins at the back; a book's quantity is that of
/// both its queues.
pub proof fn law_quantities_add_up(b: BookView, s: Seq<Order>, o: Order)
    ensures
        qty_sum(Seq::<Order>::empty()) == 0,
        qty_sum(s.push(o)) == qty_sum(s) + o.qty.0,
        b.total_qty() == qty_sum(b.bids) + qty_sum(b.asks),
{
    assert(s.push(o).drop_last() =~= s);
}

} // verus!
