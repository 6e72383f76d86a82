//! What an arriving order leaves behind: in its own queue, in the opposite one,
//! and in the routes.

use crate::engine::book::BookView;
use crate::engine::laws::quantity::lemma_sweep_quantity;
use crate::engine::laws::queues::{
    law_a_buy_queues_behind_bids_as_high, law_a_sell_queues_behind_asks_as_low,
};
use crate::engine::laws::trading::lemma_sweep_trades;
use crate::engine::matcher::{
    ids, lemma_sweep_shape, lemma_swept_valid, sweep, swept_book, traded, EngineView,
};
use crate::engine::types::{Event, Order, Qty, Symbol, Trade};
use crate::feed::{OrderId, Side};
use vstd::prelude::*;

verus! {

/// The quantity of an order that the trades did not fill.
pub open spec fn unfilled(order: Order, trades: Seq<Trade>) -> int {
    order.qty.0 - traded(trades)
}

/// Whether `rest` is `order` with `qty` left, and nothing else of it changed.
pub open spec fn remains(rest: Order, order: Order, qty: int) -> bool {
    &&& rest.id == order.id
    &&& rest.account == order.account
    &&& rest.side == order.side
    &&& rest.price == order.price
    &&& rest.qty.0 == qty
}

/// Whether `now` is the bids `was` with what remains of `order` behind every
/// bid at its limit or above and ahead of every lower one.
pub open spec fn bid_joined(was: Seq<Order>, now: Seq<Order>, order: Order, qty: int) -> bool {
    exists|k: int, rest: Order|
        #![trigger was.insert(k, rest)]
        {
            &&& 0 <= k <= was.len()
            &&& now == was.insert(k, rest)
            &&& remains(rest, order, qty)
            &&& forall|i: int| 0 <= i < k ==> (#[trigger] was[i]).price.0 >= order.price.0
            &&& forall|i: int| k <= i < was.len() ==> (#[trigger] was[i]).price.0 < order.price.0
        }
}

/// Whether `now` is the asks `was` with what remains of `order` behind every
/// ask at its limit or below and ahead of every higher one.
pub open spec fn ask_joined(was: Seq<Order>, now: Seq<Order>, order: Order, qty: int) -> bool {
    exists|k: int, rest: Order|
        #![trigger was.insert(k, rest)]
        {
            &&& 0 <= k <= was.len()
            &&& now == was.insert(k, rest)
            &&& remains(rest, order, qty)
            &&& forall|i: int| 0 <= i < k ==> (#[trigger] was[i]).price.0 <= order.price.0
            &&& forall|i: int| k <= i < was.len() ==> (#[trigger] was[i]).price.0 > order.price.0
        }
}

/// What is left of an order joins its own queue.
proof fn lemma_joined(b: BookView, order: Order, qty: int)
    requires
        b.valid(),
        i64::MIN <= qty <= i64::MAX,
    ensures
        ({
            let n = b.insert(Order { qty: Qty(qty as i64), ..order });
            &&& order.side == Side::Buy ==> bid_joined(b.bids, n.bids, order, qty)
            &&& order.side == Side::Sell ==> ask_joined(b.asks, n.asks, order, qty)
            &&& n.index == b.index.insert(order.id, (order.side, order.price))
        }),
{
    let rest = Order { qty: Qty(qty as i64), ..order };
    match order.side {
        Side::Buy => law_a_buy_queues_behind_bids_as_high(b, rest),
        Side::Sell => law_a_sell_queues_behind_asks_as_low(b, rest),
    }
}

/// What an accepted order has left rests on its own side under its own id,
/// account and limit price, with the quantity that no trade filled; every other
/// order there is as it was. An order that was filled leaves its side alone.
/// Other symbols do not notice.
#[verifier::spinoff_prover]
pub proof fn law_what_is_left_rests_at_its_own_limit(v: EngineView, symbol: Symbol, order: Order)
    requires
        v.valid(),
        v.follows(symbol@),
        v.admits(Event::New { symbol, order }),
    ensures
        ({
            let event = Event::New { symbol, order };
            let left = unfilled(order, v.trades(event));
            let (was, now) = (v.book(symbol@), v.apply(event).book(symbol@));
            &&& order.side == Side::Buy && left != 0 ==> bid_joined(was.bids, now.bids, order, left)
            &&& order.side == Side::Buy && left == 0 ==> now.bids == was.bids
            &&& order.side == Side::Sell && left != 0 ==> ask_joined(
                was.asks,
                now.asks,
                order,
                left,
            )
            &&& order.side == Side::Sell && left == 0 ==> now.asks == was.asks
            &&& left != 0 ==> now.index.contains_key(order.id) && now.index[order.id] == (
                order.side,
                order.price,
            )
            &&& forall|other: Seq<char>|
                other != symbol@ ==> #[trigger] v.apply(event).book(other) == v.book(other)
        }),
{
    let event = Event::New { symbol, order };
    let s = v.sweep(symbol, order);
    let makers = v.makers(symbol, order);
    let was = v.book(symbol@);
    let now = v.apply(event).book(symbol@);
    let left = unfilled(order, v.trades(event));
    lemma_sweep_quantity(symbol, order, order.qty.0 as int, makers);
    lemma_sweep_shape(symbol, order, order.qty.0 as int, makers);
    assert(s.trades.take(s.trades.len() as int) =~= s.trades);
    assert(left == s.left);
    assert(was.valid() && !was.crossed());
    let side = match order.side {
        Side::Buy => Side::Sell,
        Side::Sell => Side::Buy,
    };
    lemma_swept_valid(was, side, s.makers);
    let swept = swept_book(was, side, s.makers);
    if left != 0 {
        lemma_joined(swept, order, left);
    }
}

/// The makers of a sweep, one by one: those in front are used up by the trade
/// of the same rank, at most one more gave up part of what it had, and the rest
/// are as they were.
proof fn lemma_sweep_leaves(symbol: Symbol, taker: Order, left: int, makers: Seq<Order>)
    requires
        forall|i: int|
            0 <= i < sweep(symbol, taker, left, makers).trades.len() ==> i64::MIN <= makers[i].qty.0
                - (#[trigger] sweep(symbol, taker, left, makers).trades[i]).qty.0 <= i64::MAX,
        i64::MIN <= left <= i64::MAX,
        forall|k: int|
            0 <= k <= sweep(symbol, taker, left, makers).trades.len() ==> i64::MIN <= left - traded(
                #[trigger] sweep(symbol, taker, left, makers).trades.take(k),
            ) <= i64::MAX,
    ensures
        ({
            let s = sweep(symbol, taker, left, makers);
            let c = makers.len() - s.makers.len();
            &&& 0 <= c <= s.trades.len() <= c + 1
            &&& forall|i: int| 0 <= i < c ==> (#[trigger] s.trades[i]).qty == makers[i].qty
            &&& forall|i: int|
                0 <= i < s.makers.len() ==> remains(
                    #[trigger] s.makers[i],
                    makers[c + i],
                    makers[c + i].qty.0 - (if i == 0 && s.trades.len() > c {
                        s.trades[c].qty.0 as int
                    } else {
                        0
                    }),
                )
            &&& s.trades.len() > c ==> s.makers.len() > 0 && s.left == 0
        }),
    decreases makers.len(),
{
    let s = sweep(symbol, taker, left, makers);
    let c = makers.len() - s.makers.len();
    if s.trades.len() == 0 {
    } else if makers[0].qty.0 <= left {
        let fill = makers[0].qty.0;
        let tail = makers.drop_first();
        let rest = sweep(symbol, taker, left - fill, tail);
        lemma_sweep_trades(symbol, taker, left - fill, tail);
        assert(s.trades.drop_first() =~= rest.trades);
        assert(s.trades.take(1).drop_last() =~= Seq::<Trade>::empty());
        assert(traded(s.trades.take(1)) == fill) by {
            reveal_with_fuel(traded, 2);
        }
        assert forall|i: int| 0 <= i < rest.trades.len() implies i64::MIN <= tail[i].qty.0 - (
        #[trigger] rest.trades[i]).qty.0 <= i64::MAX by {
            assert(s.trades[i + 1] == rest.trades[i]);
            assert(tail[i] == makers[i + 1]);
        }
        assert forall|k: int| 0 <= k <= rest.trades.len() implies i64::MIN <= left - fill - traded(
            #[trigger] rest.trades.take(k),
        ) <= i64::MAX by {
            lemma_traded_front(s.trades.take(k + 1));
            assert(s.trades.take(k + 1).drop_first() =~= rest.trades.take(k));
        }
        lemma_sweep_leaves(symbol, taker, left - fill, tail);
        let d = tail.len() - rest.makers.len();
        assert(c == d + 1);
        assert forall|i: int| 0 <= i < c implies (#[trigger] s.trades[i]).qty == makers[i].qty by {
            if i > 0 {
                assert(s.trades[i] == rest.trades[i - 1]);
                assert(makers[i] == tail[i - 1]);
            }
        }
        assert forall|i: int| 0 <= i < s.makers.len() implies remains(
            #[trigger] s.makers[i],
            makers[c + i],
            makers[c + i].qty.0 - (if i == 0 && s.trades.len() > c {
                s.trades[c].qty.0 as int
            } else {
                0
            }),
        ) by {
            assert(makers[c + i] == tail[d + i]);
            if s.trades.len() > c {
                assert(s.trades[c] == rest.trades[d]);
            }
        }
    } else {
        assert(c == 0);
        assert(s.trades[0].qty.0 == left);
        assert(i64::MIN <= makers[0].qty.0 - s.trades[0].qty.0 <= i64::MAX);
    }
}

proof fn lemma_traded_front(trades: Seq<Trade>)
    requires
        trades.len() > 0,
    ensures
        traded(trades) == trades[0].qty.0 + traded(trades.drop_first()),
    decreases trades.len(),
{
    let tail = trades.drop_first();
    if trades.len() == 1 {
        assert(trades.drop_last() =~= Seq::<Trade>::empty());
        assert(tail =~= Seq::<Trade>::empty());
    } else {
        lemma_traded_front(trades.drop_last());
        assert(trades.drop_last().drop_first() =~= tail.drop_last());
        assert(tail.last() == trades.last());
    }
}

/// The orders that an arriving one can meet, and those of them left in the
/// book afterwards.
pub open spec fn opposite_queue(b: BookView, order: Order) -> Seq<Order> {
    if order.side == Side::Buy {
        b.asks
    } else {
        b.bids
    }
}

/// An accepted order takes from the front of the opposite queue. Each of its
/// trades is with the order of the same rank, at that order's price, which is
/// within its own limit. The makers that gave all they had are gone; at most
/// one more gave part of it and keeps its place with the difference; nobody
/// else is touched. It goes on until it is filled, the queue is empty, or the
/// first price left is beyond its limit.
pub proof fn law_an_arrival_takes_from_the_front(v: EngineView, symbol: Symbol, order: Order)
    requires
        v.valid(),
        v.follows(symbol@),
        v.admits(Event::New { symbol, order }),
    ensures
        ({
            let event = Event::New { symbol, order };
            let trades = v.trades(event);
            let was = opposite_queue(v.book(symbol@), order);
            let now = opposite_queue(v.apply(event).book(symbol@), order);
            let gone = was.len() - now.len();
            &&& 0 <= gone <= trades.len() <= gone + 1
            &&& trades.len() <= was.len()
            &&& forall|i: int|
                0 <= i < trades.len() ==> {
                    &&& (#[trigger] trades[i]).price.0 == was[i].price.0
                    &&& order.side == Side::Buy ==> trades[i].price.0 <= order.price.0
                    &&& order.side == Side::Sell ==> trades[i].price.0 >= order.price.0
                    &&& trades[i].seq == order.id
                    &&& trades[i].symbol@ == symbol@
                    &&& trades[i].maker_order == was[i].id
                    &&& trades[i].maker_account == was[i].account
                    &&& trades[i].taker_order == order.id
                    &&& trades[i].taker_account == order.account
                    &&& trades[i].taker_side == order.side
                }
            &&& forall|i: int| 0 <= i < gone ==> (#[trigger] trades[i]).qty.0 == was[i].qty.0
            &&& forall|i: int|
                0 <= i < now.len() ==> remains(
                    #[trigger] now[i],
                    was[gone + i],
                    was[gone + i].qty.0 - (if i == 0 && trades.len() > gone {
                        trades[gone].qty.0 as int
                    } else {
                        0
                    }),
                )
            &&& trades.len() > gone ==> unfilled(order, trades) == 0
            &&& unfilled(order, trades) != 0 && now.len() > 0 ==> (if order.side == Side::Buy {
                now[0].price.0 > order.price.0
            } else {
                now[0].price.0 < order.price.0
            })
        }),
{
    let s = v.sweep(symbol, order);
    let makers = v.makers(symbol, order);
    let q = order.qty.0 as int;
    lemma_sweep_quantity(symbol, order, q, makers);
    lemma_sweep_shape(symbol, order, q, makers);
    lemma_sweep_trades(symbol, order, q, makers);
    lemma_sweep_leaves(symbol, order, q, makers);
}

proof fn lemma_ids(s: Seq<Order>, id: OrderId)
    ensures
        ids(s).contains(id) == exists|i: int| 0 <= i < s.len() && (#[trigger] s[i]).id == id,
{
    let names = s.map_values(|o: Order| o.id);
    if exists|i: int| 0 <= i < s.len() && (#[trigger] s[i]).id == id {
        let i = choose|i: int| 0 <= i < s.len() && (#[trigger] s[i]).id == id;
        assert(names[i] == id);
        assert(names.contains(id));
    }
    if ids(s).contains(id) {
        assert(names.contains(id));
        let i = choose|i: int| 0 <= i < names.len() && names[i] == id;
        assert(s[i].id == id);
    }
}

/// An order can be cancelled once it rests and until it is used up: the routes
/// gain the arriving order if something of it is left, lose the makers that
/// gave all they had, and keep every other order under its symbol.
#[verifier::spinoff_prover]
pub proof fn law_routes_follow_the_resting_orders(
    v: EngineView,
    symbol: Symbol,
    order: Order,
    id: OrderId,
)
    requires
        v.follows(symbol@),
        v.admits(Event::New { symbol, order }),
    ensures
        ({
            let event = Event::New { symbol, order };
            let (was, now) = (v.routes, v.apply(event).routes);
            let left = unfilled(order, v.trades(event));
            let queue = opposite_queue(v.book(symbol@), order);
            let gone = queue.len() - opposite_queue(v.apply(event).book(symbol@), order).len();
            let used_up = exists|i: int| 0 <= i < gone && (#[trigger] queue[i]).id == id;
            &&& id == order.id && left != 0 ==> now.contains_key(id) && now[id] == symbol@
            &&& id != order.id || left == 0 ==> {
                &&& now.contains_key(id) == (was.contains_key(id) && !used_up)
                &&& now.contains_key(id) ==> now[id] == was[id]
            }
        }),
{
    let s = v.sweep(symbol, order);
    let makers = v.makers(symbol, order);
    lemma_sweep_quantity(symbol, order, order.qty.0 as int, makers);
    lemma_sweep_shape(symbol, order, order.qty.0 as int, makers);
    let gone = makers.take(makers.len() - s.makers.len());
    lemma_ids(gone, id);
    assert forall|i: int| 0 <= i < gone.len() implies #[trigger] makers[i] == gone[i] by {}
}

/// A book's index follows its orders in the same way: it gains the arriving
/// order, with its own side and limit, if something of it is left, loses the
/// makers that gave all they had, and keeps every other order as it was.
#[verifier::spinoff_prover]
pub proof fn law_the_index_follows_the_resting_orders(
    v: EngineView,
    symbol: Symbol,
    order: Order,
    id: OrderId,
)
    requires
        v.follows(symbol@),
        v.admits(Event::New { symbol, order }),
    ensures
        ({
            let event = Event::New { symbol, order };
            let (was, now) = (v.book(symbol@).index, v.apply(event).book(symbol@).index);
            let left = unfilled(order, v.trades(event));
            let queue = opposite_queue(v.book(symbol@), order);
            let gone = queue.len() - opposite_queue(v.apply(event).book(symbol@), order).len();
            let used_up = exists|i: int| 0 <= i < gone && (#[trigger] queue[i]).id == id;
            &&& id == order.id && left != 0 ==> now.contains_key(id) && now[id] == (
                order.side,
                order.price,
            )
            &&& id != order.id || left == 0 ==> {
                &&& now.contains_key(id) == (was.contains_key(id) && !used_up)
                &&& now.contains_key(id) ==> now[id] == was[id]
            }
        }),
{
    let s = v.sweep(symbol, order);
    let makers = v.makers(symbol, order);
    lemma_sweep_quantity(symbol, order, order.qty.0 as int, makers);
    lemma_sweep_shape(symbol, order, order.qty.0 as int, makers);
    let gone = makers.take(makers.len() - s.makers.len());
    lemma_ids(gone, id);
    assert forall|i: int| 0 <= i < gone.len() implies #[trigger] makers[i] == gone[i] by {}
}

} // verus!
