//! What an arriving order trades, with whom, and at which price.

use crate::engine::book::{
    at_least_as_good, lemma_position_found, lemma_rank_bounds, position, rank, BookView,
};
use crate::engine::laws::quantity::{lemma_sweep_quantity, lemma_traded_concat};
use crate::engine::laws::{law_resuming_matches_a_straight_run, replay};
use crate::engine::laws::routing::law_no_book_is_ever_crossed;
use crate::engine::market::MarketView;
use crate::engine::matcher::{
    book_after, crosses, opposite_side, recorded, sweep, swept_book, trade_of, traded, EngineView,
};
use crate::engine::types::{Event, Order, Price, Qty, Symbol, Trade};
use vstd::prelude::*;

verus! {

/// The trades of a sweep, one after the other: the makers from the front, each
/// used up before the next.
pub proof fn lemma_sweep_trades(symbol: Symbol, taker: Order, left: int, makers: Seq<Order>)
    ensures
        ({
            let s = sweep(symbol, taker, left, makers);
            &&& makers.len() - s.makers.len() <= s.trades.len() <= makers.len()
            &&& forall|i: int|
                0 <= i < s.trades.len() ==> {
                    &&& (#[trigger] s.trades[i]) == trade_of(
                        symbol,
                        taker,
                        makers[i],
                        s.trades[i].qty.0 as int,
                    )
                    &&& crosses(taker.side, taker.price, makers[i].price)
                    &&& i + 1 < s.trades.len() ==> s.trades[i].qty == makers[i].qty
                }
        }),
    decreases makers.len(),
{
    let s = sweep(symbol, taker, left, makers);
    if s.trades.len() == 0 {
    } else if makers[0].qty.0 <= left {
        let fill = makers[0].qty.0;
        let t = trade_of(symbol, taker, makers[0], fill as int);
        let tail = makers.drop_first();
        let rest = sweep(symbol, taker, left - fill, tail);
        lemma_sweep_trades(symbol, taker, left - fill, tail);
        assert(s.trades =~= seq![t] + rest.trades);
        assert forall|i: int| 0 <= i < s.trades.len() implies {
            &&& (#[trigger] s.trades[i]) == trade_of(
                symbol,
                taker,
                makers[i],
                s.trades[i].qty.0 as int,
            )
            &&& crosses(taker.side, taker.price, makers[i].price)
            &&& i + 1 < s.trades.len() ==> s.trades[i].qty == makers[i].qty
        } by {
            if i > 0 {
                assert(s.trades[i] == rest.trades[i - 1]);
                assert(tail[i - 1] == makers[i]);
            }
        }
    }
}

/// Price-time priority: an order trades with the opposite queue from the
/// front, using up each maker before the next, always at the maker's price,
/// and never at one worse than its own limit. So the prices it gets only
/// worsen from trade to trade.
pub proof fn law_trades_follow_price_time_priority(v: EngineView, symbol: Symbol, order: Order)
    requires
        v.valid(),
    ensures
        ({
            let trades = v.sweep(symbol, order).trades;
            let makers = v.makers(symbol, order);
            &&& trades.len() <= makers.len()
            &&& forall|i: int|
                0 <= i < trades.len() ==> {
                    &&& (#[trigger] trades[i]).seq == order.id
                    &&& trades[i].symbol == symbol
                    &&& trades[i].price == makers[i].price
                    &&& trades[i].maker_order == makers[i].id
                    &&& trades[i].maker_account == makers[i].account
                    &&& trades[i].taker_order == order.id
                    &&& trades[i].taker_account == order.account
                    &&& trades[i].taker_side == order.side
                    &&& crosses(order.side, order.price, trades[i].price)
                    &&& i + 1 < trades.len() ==> trades[i].qty == makers[i].qty
                }
            &&& forall|i: int, j: int|
                0 <= i < j < trades.len() ==> at_least_as_good(
                    opposite_side(order.side),
                    (#[trigger] trades[i]).price,
                    (#[trigger] trades[j]).price,
                )
        }),
{
    let trades = v.sweep(symbol, order).trades;
    let makers = v.makers(symbol, order);
    lemma_sweep_trades(symbol, order, order.qty.0 as int, makers);
    assert(v.books.contains_key(symbol@) || makers.len() == 0);
    assert forall|i: int, j: int| 0 <= i < j < trades.len() implies at_least_as_good(
        opposite_side(order.side),
        (#[trigger] trades[i]).price,
        (#[trigger] trades[j]).price,
    ) by {
        assert(at_least_as_good(opposite_side(order.side), makers[i].price, makers[j].price));
    }
}

/// Every order in the queue has something left.
pub open spec fn positive(s: Seq<Order>) -> bool {
    forall|i: int| 0 <= i < s.len() ==> (#[trigger] s[i]).qty.0 > 0
}

impl BookView {
    pub open spec fn positive(self) -> bool {
        positive(self.bids) && positive(self.asks)
    }
}

impl EngineView {
    /// Every resting order has something left.
    pub open spec fn positive(self) -> bool {
        forall|symbol: Seq<char>| #[trigger]
            self.books.contains_key(symbol) ==> self.books[symbol].positive()
    }
}

proof fn lemma_sweep_positive(symbol: Symbol, taker: Order, left: int, makers: Seq<Order>)
    requires
        0 <= left <= i64::MAX,
        positive(makers),
    ensures
        ({
            let s = sweep(symbol, taker, left, makers);
            &&& s.trades.len() <= makers.len()
            &&& forall|i: int|
                0 <= i < s.trades.len() ==> 0 < (#[trigger] s.trades[i]).qty.0 <= makers[i].qty.0
            &&& 0 <= s.left <= left
            &&& positive(s.makers)
        }),
    decreases makers.len(),
{
    let s = sweep(symbol, taker, left, makers);
    lemma_sweep_trades(symbol, taker, left, makers);
    if s.trades.len() == 0 {
    } else if makers[0].qty.0 <= left {
        let fill = makers[0].qty.0;
        let t = trade_of(symbol, taker, makers[0], fill as int);
        let tail = makers.drop_first();
        let rest = sweep(symbol, taker, left - fill, tail);
        assert forall|i: int| 0 <= i < tail.len() implies (#[trigger] tail[i]).qty.0 > 0 by {
            assert(tail[i] == makers[i + 1]);
        }
        lemma_sweep_positive(symbol, taker, left - fill, tail);
        assert(s.trades =~= seq![t] + rest.trades);
        assert forall|i: int| 0 <= i < s.trades.len() implies 0 < (#[trigger] s.trades[i]).qty.0
            <= makers[i].qty.0 by {
            if i > 0 {
                assert(s.trades[i] == rest.trades[i - 1]);
                assert(tail[i - 1] == makers[i]);
            }
        }
    } else {
        assert forall|i: int| 0 <= i < s.makers.len() implies (#[trigger] s.makers[i]).qty.0
            > 0 by {
            if i > 0 {
                assert(s.makers[i] == makers[i]);
            }
        }
    }
}

/// Every filled unit of an order appears in exactly one trade: the trades are
/// of positive size, none takes more than its maker has, and together they are
/// what the order lost.
pub proof fn law_every_filled_unit_is_in_one_trade(v: EngineView, symbol: Symbol, order: Order)
    requires
        v.positive(),
        order.qty.0 > 0,
    ensures
        ({
            let s = v.sweep(symbol, order);
            let makers = v.makers(symbol, order);
            &&& s.trades.len() <= makers.len()
            &&& forall|i: int|
                0 <= i < s.trades.len() ==> 0 < (#[trigger] s.trades[i]).qty.0 <= makers[i].qty.0
            &&& 0 <= s.left <= order.qty.0
            &&& traded(s.trades) == order.qty.0 - s.left
        }),
{
    let makers = v.makers(symbol, order);
    let s = v.sweep(symbol, order);
    assert(positive(makers)) by {
        if v.books.contains_key(symbol@) {
            assert(v.books[symbol@].positive());
        }
    }
    lemma_sweep_positive(symbol, order, order.qty.0 as int, makers);
    lemma_sweep_quantity(symbol, order, order.qty.0 as int, makers);
}

/// As long as every order arrives with a positive quantity, every resting
/// order has something left: none stays in the book empty.
pub proof fn law_resting_orders_have_something_left(v: EngineView, event: Event)
    requires
        v.valid(),
        v.positive(),
        match event {
            Event::New { order, .. } => order.qty.0 > 0,
            Event::Cancel { .. } => true,
        },
    ensures
        v.apply(event).positive(),
{
    match event {
        Event::New { symbol, order } => {
            if v.follows(symbol@) {
                let b = v.book(symbol@);
                assert(b.positive());
                let side = opposite_side(order.side);
                let s = sweep(symbol, order, order.qty.0 as int, b.side(side));
                lemma_sweep_positive(symbol, order, order.qty.0 as int, b.side(side));
                let now = book_after(b, symbol, order);
                let swept = swept_book(b, side, s.makers);
                assert(swept.positive());
                if s.left != 0 {
                    let rest = Order { qty: Qty(s.left as i64), ..order };
                    let own = swept.side(order.side);
                    let k = rank(own, order.side, order.price);
                    lemma_rank_bounds(own, order.side, order.price);
                    let t = own.insert(k, rest);
                    assert forall|i: int| 0 <= i < t.len() implies (#[trigger] t[i]).qty.0 > 0 by {
                        if i < k {
                            assert(t[i] == own[i]);
                        } else if i > k {
                            assert(t[i] == own[i - 1]);
                        }
                    }
                }
                assert(now.positive());
            }
        },
        Event::Cancel { target_id, .. } => {
            if v.cancelled(target_id) is Some {
                let b = v.books[v.routes[target_id]];
                let (side, price) = b.index[target_id];
                let queue = b.side(side);
                let k = position(queue, target_id, price);
                lemma_position_found(queue, target_id, price);
                assert(b.positive());
                let t = queue.remove(k);
                assert forall|i: int| 0 <= i < t.len() implies (#[trigger] t[i]).qty.0 > 0 by {
                    let x = if i < k { i } else { i + 1 };
                    assert(t[i] == queue[x]);
                }
                assert(b.cancel(target_id).positive());
            }
        },
    }
}

/// The counters and the tape grow by exactly the trades that an event causes.
pub proof fn law_an_event_counts_its_trades(v: EngineView, event: Event)
    ensures
        ({
            let (next, trades) = (v.apply(event), v.trades(event));
            &&& next.stats.trades == v.stats.trades + trades.len()
            &&& next.stats.volume == v.stats.volume + traded(trades)
            &&& next.market == recorded(v.market, trades)
        }),
{
}

/// An order that is accepted leaves the tape with each of its trades recorded
/// once, in order, and with nothing else: where it does not trade, because it
/// only rests or has no quantity, the tape does not notice it.
pub proof fn law_the_tape_records_an_orders_trades(v: EngineView, symbol: Symbol, order: Order)
    ensures
        v.accept(symbol, order).market == recorded(v.market, v.sweep(symbol, order).trades),
        v.sweep(symbol, order).trades.len() == 0 ==> v.accept(symbol, order).market == v.market,
        order.qty.0 == 0 ==> v.sweep(symbol, order).trades.len() == 0,
{
}

/// The trades that the `i`-th event of a run causes.
pub open spec fn trades_at(v: EngineView, events: Seq<Event>, i: int) -> Seq<Trade> {
    replay(v, events.take(i)).trades(events[i])
}

/// Whether every number that the `i`-th event of a run makes fits.
pub open spec fn admitted_at(v: EngineView, events: Seq<Event>, i: int) -> bool {
    replay(v, events.take(i)).admits(events[i])
}

/// A run that stops after `head` and resumes with `tail` is the straight run
/// over both, event by event: each event causes the same trades, fits where it
/// fitted, and the run ends in the same state. Without a stop, that says that
/// two runs over the same events agree.
pub proof fn law_a_resumed_run_makes_the_same_trades(
    v: EngineView,
    head: Seq<Event>,
    tail: Seq<Event>,
)
    ensures
        replay(v, head + tail) == replay(replay(v, head), tail),
        forall|i: int|
            #![trigger trades_at(v, head + tail, i)]
            0 <= i < head.len() ==> trades_at(v, head + tail, i) == trades_at(v, head, i),
        forall|i: int|
            #![trigger admitted_at(v, head + tail, i)]
            0 <= i < head.len() ==> admitted_at(v, head + tail, i) == admitted_at(v, head, i),
        forall|i: int|
            #![trigger trades_at(replay(v, head), tail, i)]
            0 <= i < tail.len() ==> trades_at(v, head + tail, head.len() + i) == trades_at(
                replay(v, head),
                tail,
                i,
            ),
        forall|i: int|
            #![trigger admitted_at(replay(v, head), tail, i)]
            0 <= i < tail.len() ==> admitted_at(v, head + tail, head.len() + i) == admitted_at(
                replay(v, head),
                tail,
                i,
            ),
        run_trades(v, head + tail) == run_trades(v, head) + run_trades(replay(v, head), tail),
{
    let all = head + tail;
    law_resuming_matches_a_straight_run(v, head, tail);
    lemma_run_trades_resume(v, head, tail);
    assert forall|i: int| 0 <= i < head.len() implies #[trigger] all.take(i) == head.take(i)
        && all[i] == head[i] by {
        assert(all.take(i) =~= head.take(i));
    }
    assert forall|i: int| 0 <= i < tail.len() implies #[trigger] replay(
        replay(v, head),
        tail.take(i),
    ) == replay(v, all.take(head.len() + i)) && tail[i] == all[head.len() + i] by {
        assert(all.take(head.len() + i) =~= head + tail.take(i));
        law_resuming_matches_a_straight_run(v, head, tail.take(i));
    }
}

proof fn lemma_run_trades_resume(v: EngineView, head: Seq<Event>, tail: Seq<Event>)
    ensures
        run_trades(v, head + tail) == run_trades(v, head) + run_trades(replay(v, head), tail),
    decreases tail.len(),
{
    if tail.len() == 0 {
        assert(head + tail =~= head);
        assert(run_trades(v, head) =~= run_trades(v, head) + run_trades(replay(v, head), tail));
    } else {
        let front = tail.drop_last();
        lemma_run_trades_resume(v, head, front);
        law_resuming_matches_a_straight_run(v, head, front);
        assert((head + tail).drop_last() =~= head + front);
        assert((head + tail).last() == tail.last());
        assert(run_trades(v, head + tail) =~= run_trades(v, head) + run_trades(
            replay(v, head),
            tail,
        ));
    }
}

/// Every trade that a run of events causes, in order.
pub open spec fn run_trades(v: EngineView, events: Seq<Event>) -> Seq<Trade>
    decreases events.len(),
{
    if events.len() == 0 {
        seq![]
    } else {
        run_trades(v, events.drop_last()) + replay(v, events.drop_last()).trades(events.last())
    }
}

pub proof fn lemma_recorded_concat(market: MarketView, a: Seq<Trade>, b: Seq<Trade>)
    ensures
        recorded(market, a + b) == recorded(recorded(market, a), b),
    decreases b.len(),
{
    if b.len() == 0 {
        assert(a + b =~= a);
    } else {
        lemma_recorded_concat(market, a, b.drop_last());
        assert((a + b).drop_last() =~= a + b.drop_last());
        assert((a + b).last() == b.last());
    }
}

/// After a run of events the tape and the traded volume are those of the
/// trades that the run caused, and of nothing else.
pub proof fn law_the_tape_is_made_of_the_trades(v: EngineView, events: Seq<Event>)
    ensures
        ({
            let (last, trades) = (replay(v, events), run_trades(v, events));
            &&& last.market == recorded(v.market, trades)
            &&& last.stats.trades == v.stats.trades + trades.len()
            &&& last.stats.volume == v.stats.volume + traded(trades)
        }),
    decreases events.len(),
{
    if events.len() > 0 {
        let front = events.drop_last();
        law_the_tape_is_made_of_the_trades(v, front);
        law_an_event_counts_its_trades(replay(v, front), events.last());
        let more = replay(v, front).trades(events.last());
        lemma_recorded_concat(v.market, run_trades(v, front), more);
        lemma_traded_concat(run_trades(v, front), more);
    }
}

/// Whether every order that the events introduce has a positive quantity. The
/// feed publishes no other.
pub open spec fn positive_orders(events: Seq<Event>) -> bool {
    forall|i: int|
        0 <= i < events.len() ==> match #[trigger] events[i] {
            Event::New { order, .. } => order.qty.0 > 0,
            Event::Cancel { .. } => true,
        }
}

/// Orders of positive quantity make trades of positive quantity, and leave no
/// empty order in the books.
pub proof fn law_positive_orders_make_positive_trades(
    only: Option<Seq<char>>,
    events: Seq<Event>,
)
    requires
        positive_orders(events),
    ensures
        replay(EngineView::empty(only), events).positive(),
        forall|i: int|
            0 <= i < run_trades(EngineView::empty(only), events).len() ==> (
            #[trigger] run_trades(EngineView::empty(only), events)[i]).qty.0 > 0,
    decreases events.len(),
{
    let start = EngineView::empty(only);
    if events.len() > 0 {
        let front = events.drop_last();
        let event = events.last();
        assert(event == events[events.len() - 1]);
        assert forall|i: int| 0 <= i < front.len() implies match #[trigger] front[i] {
            Event::New { order, .. } => order.qty.0 > 0,
            Event::Cancel { .. } => true,
        } by {
            assert(front[i] == events[i]);
        }
        law_positive_orders_make_positive_trades(only, front);
        law_no_book_is_ever_crossed(only, front);
        let before = replay(start, front);
        law_resting_orders_have_something_left(before, event);
        match event {
            Event::New { symbol, order } => {
                law_every_filled_unit_is_in_one_trade(before, symbol, order);
            },
            Event::Cancel { .. } => {},
        }
        let made = before.trades(event);
        assert forall|i: int| 0 <= i < made.len() implies (#[trigger] made[i]).qty.0 > 0 by {}
    }
}

} // verus!
