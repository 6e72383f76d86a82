//! What a cancel does, and what it leaves alone.

use crate::engine::book::{lemma_position_found, lemma_rank_bounds, position, rank, BookView};
use crate::engine::matcher::{
    book_after, ids, lemma_cancel_keeps_valid, opposite_side, sweep, swept_book, EngineView,
    StatsView,
};
use crate::engine::types::{Event, Order, Qty, Symbol};
use crate::feed::{AccountId, OrderId};
use vstd::prelude::*;

verus! {

/// A cancel never trades, and the tape does not notice it.
pub proof fn law_a_cancel_never_trades(
    v: EngineView,
    seq: OrderId,
    account: AccountId,
    target_id: OrderId,
)
    ensures
        ({
            let event = Event::Cancel { seq, account, target_id };
            let next = v.apply(event);
            &&& v.trades(event).len() == 0
            &&& next.market == v.market
            &&& next.stats.trades == v.stats.trades
            &&& next.stats.volume == v.stats.volume
        }),
{
}

/// Who sends a cancel, and under which id, makes no difference: ownership is
/// recorded on the wire but never enforced.
pub proof fn law_anyone_may_cancel(
    v: EngineView,
    seq: OrderId,
    account: AccountId,
    other_seq: OrderId,
    other_account: AccountId,
    target_id: OrderId,
)
    ensures
        v.apply(Event::Cancel { seq, account, target_id }) == v.apply(
            Event::Cancel { seq: other_seq, account: other_account, target_id },
        ),
{
}

/// A cancel for an order that is not resting is counted and does nothing else.
pub proof fn law_an_unknown_cancel_only_counts(
    v: EngineView,
    seq: OrderId,
    account: AccountId,
    target_id: OrderId,
)
    requires
        !v.routes.contains_key(target_id),
    ensures
        v.apply(Event::Cancel { seq, account, target_id }) == (EngineView {
            stats: StatsView {
                events: v.stats.events + 1,
                cancels: v.stats.cancels + 1,
                cancels_unknown: v.stats.cancels_unknown + 1,
                ..v.stats
            },
            ..v
        }),
{
}

/// A cancel for a routed order hits: the order leaves its book, what it had
/// left is counted as cancelled, and its route is gone, so that a second
/// cancel misses.
pub proof fn law_a_routed_cancel_hits_once(
    v: EngineView,
    seq: OrderId,
    account: AccountId,
    target_id: OrderId,
)
    requires
        v.valid(),
        v.routes.contains_key(target_id),
    ensures
        ({
            let next = v.apply(Event::Cancel { seq, account, target_id });
            let symbol = v.routes[target_id];
            &&& v.cancelled(target_id) matches Some(order) && {
                &&& order.id == target_id
                &&& next.stats.cancelled_qty == v.stats.cancelled_qty + order.qty.0
            }
            &&& next.stats.cancels_hit == v.stats.cancels_hit + 1
            &&& next.stats.cancels_unknown == v.stats.cancels_unknown
            &&& next.books == v.books.insert(symbol, v.books[symbol].cancel(target_id))
            &&& next.routes == v.routes.remove(target_id)
            &&& !next.routes.contains_key(target_id)
        }),
{
    lemma_cancel_keeps_valid(v, target_id);
    let b = v.books[v.routes[target_id]];
    let (side, price) = b.index[target_id];
    lemma_position_found(b.side(side), target_id, price);
}

/// An order that fills completely on arrival never rests: it gets no route, so
/// a later cancel for it misses.
pub proof fn law_an_order_filled_on_arrival_is_never_routed(
    v: EngineView,
    symbol: Symbol,
    order: Order,
)
    requires
        v.follows(symbol@),
        !v.routes.contains_key(order.id),
        v.sweep(symbol, order).left == 0,
    ensures
        !v.apply(Event::New { symbol, order }).routes.contains_key(order.id),
{
}

/// An order with something left after trading gets a route to its own book.
pub proof fn law_a_resting_order_is_routed_to_its_book(
    v: EngineView,
    symbol: Symbol,
    order: Order,
)
    requires
        v.follows(symbol@),
        v.sweep(symbol, order).left != 0,
    ensures
        ({
            let next = v.apply(Event::New { symbol, order });
            next.routes.contains_key(order.id) && next.routes[order.id] == symbol@
        }),
{
}

/// Taking a fresh order back out of a book leaves the book as it was.
pub proof fn law_a_cancel_undoes_an_insert(b: BookView, order: Order)
    requires
        !b.index.contains_key(order.id),
        forall|i: int|
            0 <= i < b.side(order.side).len() ==> (#[trigger] b.side(order.side)[i]).id != order.id,
    ensures
        b.insert(order).cancelled(order.id) == Some(order),
        b.insert(order).cancel(order.id) == b,
{
    let s = b.side(order.side);
    let k = rank(s, order.side, order.price);
    lemma_rank_bounds(s, order.side, order.price);
    let t = s.insert(k, order);
    assert(b.insert(order).side(order.side) == t);
    assert(t[k] == order);
    lemma_position_found(t, order.id, order.price);
    let at = position(t, order.id, order.price);
    if at < k {
        assert(t[at] == s[at]);
    } else if at > k {
        assert(t[at] == s[at - 1]);
    }
    assert(t.remove(k) =~= s);
    assert(b.insert(order).index.remove(order.id) =~= b.index);
    assert(b.insert(order).cancel(order.id) =~= b);
}

/// An order that meets nothing, and is cancelled next, leaves every book, the
/// routes and the tape as they were; only the counters remember it.
pub proof fn law_a_cancel_undoes_an_order_that_did_not_trade(
    v: EngineView,
    symbol: Symbol,
    order: Order,
    seq: OrderId,
    account: AccountId,
)
    requires
        v.valid(),
        v.tidy(),
        v.follows(symbol@),
        !v.routes.contains_key(order.id),
        order.qty.0 != 0,
        v.sweep(symbol, order).trades.len() == 0,
    ensures
        ({
            let rested = v.apply(Event::New { symbol, order });
            let undone = rested.apply(Event::Cancel { seq, account, target_id: order.id });
            &&& undone.books == v.books.insert(symbol@, v.book(symbol@))
            &&& undone.routes == v.routes
            &&& undone.market == v.market
            &&& undone.stats.cancelled_qty == v.stats.cancelled_qty + order.qty.0
        }),
{
    let b = v.book(symbol@);
    let side = opposite_side(order.side);
    let makers = b.side(side);
    let s = v.sweep(symbol, order);
    assert(s.makers == makers && s.left == order.qty.0);
    assert(makers.take(0) =~= seq![]);
    assert(ids(makers.take(0)) =~= Set::empty());
    assert(b.index.remove_keys(ids(makers.take(0))) =~= b.index);
    assert(v.routes.remove_keys(ids(makers.take(0))) =~= v.routes);
    assert(swept_book(b, side, makers) =~= b);
    assert(Order { qty: Qty(s.left as i64), ..order } == order);
    assert(book_after(b, symbol, order) == b.insert(order));
    assert(b.tidy());
    assert(!b.index.contains_key(order.id));
    law_a_cancel_undoes_an_insert(b, order);
    let rested = v.apply(Event::New { symbol, order });
    assert(rested.books[symbol@] == b.insert(order));
    let undone = rested.apply(Event::Cancel { seq, account, target_id: order.id });
    assert(undone.books =~= v.books.insert(symbol@, b));
    assert(undone.routes =~= v.routes);
}

} // verus!
