//! Where every submitted unit goes: it rests, it trades, or it is cancelled.

use crate::engine::book::{
    fits_i64, lemma_position_found, lemma_rank_bounds, position, qty_sum, rank, BookView,
};
use crate::engine::laws::replay;
use crate::engine::laws::routing::law_no_book_is_ever_crossed;
use crate::engine::laws::trading::lemma_sweep_trades;
use crate::engine::matcher::{
    book_after, opposite_side, sweep, swept_book, trade_of, traded, EngineView,
};
use crate::engine::sums::lemma_sum_insert;
use crate::engine::types::{Event, Order, Qty, Symbol, Trade};
use vstd::prelude::*;

verus! {

/// The quantity that a run of events submits in the symbols it follows.
pub open spec fn submitted(only: Option<Seq<char>>, events: Seq<Event>) -> int
    decreases events.len(),
{
    if events.len() == 0 {
        0
    } else {
        submitted(only, events.drop_last()) + offered(only, events.last())
    }
}

/// The quantity that one event submits.
pub open spec fn offered(only: Option<Seq<char>>, event: Event) -> int {
    match event {
        Event::New { symbol, order } => if only is None || only == Some(symbol@) {
            order.qty.0 as int
        } else {
            0
        },
        Event::Cancel { .. } => 0,
    }
}

/// Every number on the way through a run of events fits where it is kept.
pub open spec fn admitted(v: EngineView, events: Seq<Event>) -> bool
    decreases events.len(),
{
    events.len() == 0 || (admitted(v, events.drop_last()) && replay(v, events.drop_last()).admits(
        events.last(),
    ))
}

/// The quantity in the books, plus twice what traded, plus what was cancelled.
pub open spec fn accounted(v: EngineView) -> int {
    v.resting_qty() + 2 * v.stats.volume + v.stats.cancelled_qty
}

pub proof fn lemma_qty_sum_concat(a: Seq<Order>, b: Seq<Order>)
    ensures
        qty_sum(a + b) == qty_sum(a) + qty_sum(b),
    decreases b.len(),
{
    if b.len() == 0 {
        assert(a + b =~= a);
    } else {
        lemma_qty_sum_concat(a, b.drop_last());
        assert((a + b).drop_last() =~= a + b.drop_last());
        assert((a + b).last() == b.last());
    }
}

proof fn lemma_qty_sum_one(o: Order)
    ensures
        qty_sum(seq![o]) == o.qty.0,
{
    assert(seq![o].drop_last() =~= seq![]);
    assert(qty_sum(seq![]) == 0);
}

proof fn lemma_qty_sum_insert(s: Seq<Order>, k: int, o: Order)
    requires
        0 <= k <= s.len(),
    ensures
        qty_sum(s.insert(k, o)) == qty_sum(s) + o.qty.0,
{
    let (a, b) = (s.take(k), s.skip(k));
    assert(s =~= a + b);
    assert(s.insert(k, o) =~= a + seq![o] + b);
    lemma_qty_sum_concat(a, b);
    lemma_qty_sum_concat(a, seq![o]);
    lemma_qty_sum_concat(a + seq![o], b);
    lemma_qty_sum_one(o);
}

proof fn lemma_qty_sum_remove(s: Seq<Order>, k: int)
    requires
        0 <= k < s.len(),
    ensures
        qty_sum(s.remove(k)) == qty_sum(s) - s[k].qty.0,
{
    assert(s.remove(k).insert(k, s[k]) =~= s);
    lemma_qty_sum_insert(s.remove(k), k, s[k]);
}

pub proof fn lemma_traded_concat(a: Seq<Trade>, b: Seq<Trade>)
    ensures
        traded(a + b) == traded(a) + traded(b),
    decreases b.len(),
{
    if b.len() == 0 {
        assert(a + b =~= a);
    } else {
        lemma_traded_concat(a, b.drop_last());
        assert((a + b).drop_last() =~= a + b.drop_last());
        assert((a + b).last() == b.last());
    }
}

pub proof fn lemma_traded_one(t: Trade)
    ensures
        traded(seq![t]) == t.qty.0,
{
    assert(seq![t].drop_last() =~= seq![]);
    assert(traded(seq![]) == 0);
}

/// What a sweep takes from the taker it takes from the makers, and that is
/// what its trades say.
pub proof fn lemma_sweep_quantity(symbol: Symbol, taker: Order, left: int, makers: Seq<Order>)
    requires
        i64::MIN <= left,
        forall|k: int|
            0 <= k < sweep(symbol, taker, left, makers).trades.len() ==> fits_i64(
                makers[k].qty.0 - (#[trigger] sweep(symbol, taker, left, makers).trades[k]).qty.0,
            ),
    ensures
        ({
            let s = sweep(symbol, taker, left, makers);
            &&& s.left == left - traded(s.trades)
            &&& qty_sum(s.makers) == qty_sum(makers) - traded(s.trades)
        }),
    decreases makers.len(),
{
    let s = sweep(symbol, taker, left, makers);
    lemma_sweep_trades(symbol, taker, left, makers);
    if s.trades.len() == 0 {
    } else if makers[0].qty.0 <= left {
        let fill = makers[0].qty.0;
        let t = trade_of(symbol, taker, makers[0], fill as int);
        let tail = makers.drop_first();
        let rest = sweep(symbol, taker, left - fill, tail);
        assert(s.trades =~= seq![t] + rest.trades);
        assert forall|k: int| 0 <= k < rest.trades.len() implies fits_i64(
            tail[k].qty.0 - (#[trigger] rest.trades[k]).qty.0,
        ) by {
            assert(s.trades[k + 1] == rest.trades[k]);
            assert(tail[k] == makers[k + 1]);
        }
        lemma_sweep_quantity(symbol, taker, left - fill, tail);
        lemma_traded_concat(seq![t], rest.trades);
        lemma_traded_one(t);
        assert(makers =~= seq![makers[0]] + tail);
        lemma_qty_sum_concat(seq![makers[0]], tail);
        lemma_qty_sum_one(makers[0]);
    } else {
        let t = trade_of(symbol, taker, makers[0], left);
        assert(s.trades =~= seq![t]);
        lemma_traded_one(t);
        assert(s.trades[0] == t);
        let kept = Order { qty: Qty((makers[0].qty.0 - left) as i64), ..makers[0] };
        let tail = makers.drop_first();
        assert(makers =~= seq![makers[0]] + tail);
        assert(s.makers =~= seq![kept] + tail);
        lemma_qty_sum_concat(seq![makers[0]], tail);
        lemma_qty_sum_concat(seq![kept], tail);
        lemma_qty_sum_one(makers[0]);
        lemma_qty_sum_one(kept);
    }
}

proof fn lemma_book_after_quantity(b: BookView, symbol: Symbol, order: Order)
    requires
        ({
            let makers = b.side(opposite_side(order.side));
            let s = sweep(symbol, order, order.qty.0 as int, makers);
            &&& forall|k: int|
                0 <= k < s.trades.len() ==> fits_i64(
                    makers[k].qty.0 - (#[trigger] s.trades[k]).qty.0,
                )
            &&& fits_i64(order.qty.0 - traded(s.trades))
        }),
    ensures
        ({
            let makers = b.side(opposite_side(order.side));
            let s = sweep(symbol, order, order.qty.0 as int, makers);
            book_after(b, symbol, order).total_qty() + 2 * traded(s.trades) == b.total_qty()
                + order.qty.0
        }),
{
    let side = opposite_side(order.side);
    let makers = b.side(side);
    let s = sweep(symbol, order, order.qty.0 as int, makers);
    lemma_sweep_quantity(symbol, order, order.qty.0 as int, makers);
    let swept = swept_book(b, side, s.makers);
    assert(swept.side(side) == s.makers);
    assert(swept.side(order.side) == b.side(order.side));
    if s.left != 0 {
        let rest = Order { qty: Qty(s.left as i64), ..order };
        let own = swept.side(order.side);
        let k = rank(own, order.side, order.price);
        lemma_rank_bounds(own, order.side, order.price);
        lemma_qty_sum_insert(own, k, rest);
        assert(swept.insert(rest).side(order.side) == own.insert(k, rest));
        assert(swept.insert(rest).side(side) == s.makers);
    }
}

/// Exchanging one book moves the resting quantity by the change in that book.
proof fn lemma_resting_qty_insert(v: EngineView, symbol: Seq<char>, b: BookView, next: EngineView)
    requires
        v.books.dom().finite(),
        next.books == v.books.insert(symbol, b),
    ensures
        next.books.dom().finite(),
        next.resting_qty() == v.resting_qty() + b.total_qty() - v.book(symbol).total_qty(),
{
    let f = |x: BookView| x.total_qty();
    let totals = v.books.map_values(f);
    assert(totals.dom() =~= v.books.dom());
    assert(next.books.map_values(f) =~= totals.insert(symbol, b.total_qty()));
    lemma_sum_insert(totals, symbol, b.total_qty());
}

/// One event moves the account by exactly the quantity that it submits.
pub proof fn law_an_event_accounts_for_its_quantity(v: EngineView, event: Event)
    requires
        v.valid(),
        v.books.dom().finite(),
        event is New ==> v.admits(event),
    ensures
        v.apply(event).books.dom().finite(),
        accounted(v.apply(event)) == accounted(v) + offered(v.only, event),
{
    let next = v.apply(event);
    match event {
        Event::New { symbol, order } => {
            if v.follows(symbol@) {
                let b = v.book(symbol@);
                let s = v.sweep(symbol, order);
                assert(s.trades.take(s.trades.len() as int) =~= s.trades);
                lemma_book_after_quantity(b, symbol, order);
                lemma_resting_qty_insert(v, symbol@, book_after(b, symbol, order), next);
            }
        },
        Event::Cancel { target_id, .. } => {
            if v.cancelled(target_id) is Some {
                let b = v.books[v.routes[target_id]];
                let (side, price) = b.index[target_id];
                let queue = b.side(side);
                lemma_position_found(queue, target_id, price);
                lemma_qty_sum_remove(queue, position(queue, target_id, price));
                assert(b.cancel(target_id).side(opposite_side(side)) == b.side(
                    opposite_side(side),
                ));
                lemma_resting_qty_insert(v, v.routes[target_id], b.cancel(target_id), next);
            }
        },
    }
}

proof fn lemma_replay_only(v: EngineView, events: Seq<Event>)
    ensures
        replay(v, events).only == v.only,
    decreases events.len(),
{
    if events.len() > 0 {
        lemma_replay_only(v, events.drop_last());
    }
}

/// Every unit submitted ends up in exactly one of three places: still resting,
/// traded away, or cancelled out of the book. A trade takes a unit from each
/// side, hence the factor of two in the account.
pub proof fn law_every_unit_is_accounted_for(only: Option<Seq<char>>, events: Seq<Event>)
    requires
        admitted(EngineView::empty(only), events),
    ensures
        submitted(only, events) == accounted(replay(EngineView::empty(only), events)),
        replay(EngineView::empty(only), events).books.dom().finite(),
    decreases events.len(),
{
    let start = EngineView::empty(only);
    if events.len() == 0 {
        let totals = start.books.map_values(|b: BookView| b.total_qty());
        assert(totals.dom() =~= Set::empty());
        assert(totals.len() == 0);
    } else {
        let front = events.drop_last();
        law_every_unit_is_accounted_for(only, front);
        law_no_book_is_ever_crossed(only, front);
        lemma_replay_only(start, front);
        law_an_event_accounts_for_its_quantity(replay(start, front), events.last());
    }
}

} // verus!
