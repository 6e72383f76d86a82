//! How much the engine can hold.

use crate::engine::book::{fits_i64, lemma_position_found, qty_sum, BookView};
use crate::engine::laws::counting::law_a_run_counts_its_events;
use crate::engine::laws::quantity::{
    accounted, admitted, law_an_event_accounts_for_its_quantity, law_every_unit_is_accounted_for,
    lemma_traded_concat, offered, submitted,
};
use crate::engine::laws::records::{
    bought, law_a_position_is_bought_less_sold, law_the_tape_sums_up_the_trades_in_a_symbol, sold,
    trades_in, turnover,
};
use crate::engine::laws::replay;
use crate::engine::laws::routing::law_no_book_is_ever_crossed;
use crate::engine::laws::totals::{law_the_books_add_up_after_every_run, lemma_sum_not_negative};
use crate::engine::laws::trading::{
    law_every_filled_unit_is_in_one_trade, law_positive_orders_make_positive_trades,
    law_the_tape_is_made_of_the_trades, lemma_recorded_concat, positive, positive_orders,
    run_trades,
};
use crate::engine::market::MarketView;
use crate::engine::matcher::{recorded, sweep_fits, traded, EngineView, Sweep};
use crate::engine::types::{Event, Order, Symbol, Trade};
use crate::feed::{AccountId, OrderId};
use vstd::prelude::*;

verus! {

/// Whether a trade has a positive quantity and a price up to `most`.
pub open spec fn modest(t: Trade, most: int) -> bool {
    t.qty.0 > 0 && 0 <= t.price.0 <= most
}

pub open spec fn all_modest(trades: Seq<Trade>, most: int) -> bool {
    forall|i: int| 0 <= i < trades.len() ==> modest(#[trigger] trades[i], most)
}

/// What a list of trades adds up to for one symbol and one account.
proof fn lemma_own_bounds(trades: Seq<Trade>, symbol: Seq<char>, a: AccountId, most: int)
    requires
        all_modest(trades, most),
        most >= 0,
    ensures
        ({
            let own = trades_in(trades, symbol);
            &&& own.len() <= traded(own) <= traded(trades)
            &&& trades.len() <= traded(trades)
            &&& 0 <= turnover(own) <= most * traded(own)
            &&& 0 <= bought(own, a) <= traded(own)
            &&& 0 <= sold(own, a) <= traded(own)
        }),
    decreases trades.len(),
{
    if trades.len() > 0 {
        let front = trades.drop_last();
        let t = trades.last();
        assert(t == trades[trades.len() - 1]);
        assert forall|i: int| 0 <= i < front.len() implies modest(#[trigger] front[i], most) by {
            assert(front[i] == trades[i]);
        }
        lemma_own_bounds(front, symbol, a, most);
        let own = trades_in(front, symbol);
        assert(own.push(t).drop_last() =~= own);
        let (p, q, n) = (t.price.0 as int, t.qty.0 as int, traded(own));
        lemma_product(p, q, n, most, n + q);
    }
}

proof fn lemma_product(p: int, q: int, n: int, most: int, total: int)
    requires
        0 <= p <= most,
        0 <= q,
        0 <= n,
        n + q <= total,
    ensures
        0 <= p * q,
        0 <= most * n,
        most * n + p * q <= most * total,
{
    vstd::arithmetic::mul::lemma_mul_inequality(0, p, q);
    vstd::arithmetic::mul::lemma_mul_inequality(p, most, q);
    vstd::arithmetic::mul::lemma_mul_nonnegative(most, n);
    vstd::arithmetic::mul::lemma_mul_is_distributive_add(most, n, q);
    vstd::arithmetic::mul::lemma_mul_inequality(n + q, total, most);
    vstd::arithmetic::mul::lemma_mul_is_commutative(n + q, most);
    vstd::arithmetic::mul::lemma_mul_is_commutative(total, most);
}

/// The tape takes one more trade while all of them together stay modest.
proof fn lemma_market_admits(trades: Seq<Trade>, t: Trade, most: int, total: int)
    requires
        all_modest(trades, most),
        modest(t, most),
        traded(trades) + t.qty.0 <= total <= i64::MAX,
        0 <= most,
        most * total <= i64::MAX,
    ensures
        recorded(MarketView::empty(), trades).admits(t),
{
    let symbol = t.symbol@;
    let own = trades_in(trades, symbol);
    let (x, y) = (t.taker_account, t.maker_account);
    lemma_own_bounds(trades, symbol, x, most);
    lemma_own_bounds(trades, symbol, y, most);
    law_the_tape_sums_up_the_trades_in_a_symbol(trades, symbol);
    law_a_position_is_bought_less_sold(trades, x, symbol);
    law_a_position_is_bought_less_sold(trades, y, symbol);
    let (p, q, n) = (t.price.0 as int, t.qty.0 as int, traded(own));
    lemma_product(p, q, n, most, total);
}

proof fn lemma_traded_prefix(trades: Seq<Trade>, k: int)
    requires
        forall|i: int| 0 <= i < trades.len() ==> (#[trigger] trades[i]).qty.0 > 0,
        0 <= k <= trades.len(),
    ensures
        0 <= traded(trades.take(k)) <= traded(trades),
        k < trades.len() ==> traded(trades.take(k)) + trades[k].qty.0 <= traded(trades),
    decreases trades.len(),
{
    if k == trades.len() {
        assert(trades.take(k) =~= trades);
        if k > 0 {
            let front = trades.drop_last();
            assert forall|i: int| 0 <= i < front.len() implies (#[trigger] front[i]).qty.0 > 0 by {
                assert(front[i] == trades[i]);
            }
            lemma_traded_prefix(front, k - 1);
            assert(front.take(k - 1) =~= front);
            assert(trades.last() == trades[k - 1]);
        }
    } else {
        let front = trades.drop_last();
        assert forall|i: int| 0 <= i < front.len() implies (#[trigger] front[i]).qty.0 > 0 by {
            assert(front[i] == trades[i]);
        }
        lemma_traded_prefix(front, k);
        assert(front.take(k) =~= trades.take(k));
        assert(trades.last() == trades[trades.len() - 1]);
    }
}

proof fn lemma_qty_not_negative(s: Seq<Order>)
    requires
        positive(s),
    ensures
        qty_sum(s) >= 0,
    decreases s.len(),
{
    if s.len() > 0 {
        let front = s.drop_last();
        assert forall|i: int| 0 <= i < front.len() implies (#[trigger] front[i]).qty.0 > 0 by {
            assert(front[i] == s[i]);
        }
        lemma_qty_not_negative(front);
        assert(s.last() == s[s.len() - 1]);
    }
}

proof fn lemma_resting_not_negative(v: EngineView)
    requires
        v.books.dom().finite(),
        v.positive(),
    ensures
        v.resting_qty() >= 0,
{
    let q = v.books.map_values(|b: BookView| b.total_qty());
    assert(q.dom() =~= v.books.dom());
    assert forall|symbol: Seq<char>| #[trigger] q.contains_key(symbol) implies q[symbol] >= 0 by {
        let b = v.books[symbol];
        assert(v.books.contains_key(symbol));
        assert(b.positive());
        lemma_qty_not_negative(b.bids);
        lemma_qty_not_negative(b.asks);
    }
    lemma_sum_not_negative(q);
}

proof fn lemma_front_positive(events: Seq<Event>)
    requires
        positive_orders(events),
        events.len() > 0,
    ensures
        positive_orders(events.drop_last()),
        events.last() matches Event::New { order, .. } ==> order.qty.0 > 0,
{
    let front = events.drop_last();
    assert(events.last() == events[events.len() - 1]);
    assert forall|i: int| 0 <= i < front.len() implies #[trigger] front[i] == events[i] by {}
}

/// A run of positive orders cancels and submits nothing negative.
proof fn lemma_not_negative(only: Option<Seq<char>>, events: Seq<Event>)
    requires
        positive_orders(events),
    ensures
        replay(EngineView::empty(only), events).stats.cancelled_qty >= 0,
        submitted(only, events) >= 0,
    decreases events.len(),
{
    if events.len() > 0 {
        let (front, event) = (events.drop_last(), events.last());
        lemma_front_positive(events);
        lemma_not_negative(only, front);
        law_no_book_is_ever_crossed(only, front);
        law_positive_orders_make_positive_trades(only, front);
        let v = replay(EngineView::empty(only), front);
        match event {
            Event::Cancel { target_id, .. } => lemma_cancel_adds(v, event, target_id),
            Event::New { .. } => {},
        }
    }
}

proof fn lemma_cancel_adds(v: EngineView, event: Event, target_id: OrderId)
    requires
        v.valid(),
        v.positive(),
        event matches Event::Cancel { target_id: id, .. } && id == target_id,
    ensures
        v.apply(event).stats.cancelled_qty >= v.stats.cancelled_qty,
{
    if v.routes.contains_key(target_id) {
        let b = v.books[v.routes[target_id]];
        let (side, price) = b.index[target_id];
        assert(b.positive());
        lemma_position_found(b.side(side), target_id, price);
    }
}

proof fn lemma_counters_not_negative(only: Option<Seq<char>>, events: Seq<Event>)
    ensures
        ({
            let s = replay(EngineView::empty(only), events).stats;
            s.new_orders >= 0 && s.filtered >= 0 && s.cancels >= 0 && s.cancels_hit >= 0
                && s.cancels_unknown >= 0
        }),
    decreases events.len(),
{
    if events.len() > 0 {
        lemma_counters_not_negative(only, events.drop_last());
    }
}

proof fn lemma_modest_parts(a: Seq<Trade>, b: Seq<Trade>, most: int)
    ensures
        all_modest(a + b, most) <==> all_modest(a, most) && all_modest(b, most),
{
    let c = a + b;
    if all_modest(c, most) {
        assert forall|i: int| 0 <= i < a.len() implies modest(#[trigger] a[i], most) by {
            assert(c[i] == a[i]);
        }
        assert forall|i: int| 0 <= i < b.len() implies modest(#[trigger] b[i], most) by {
            assert(c[a.len() + i] == b[i]);
        }
    }
    if all_modest(a, most) && all_modest(b, most) {
        assert forall|i: int| 0 <= i < c.len() implies modest(#[trigger] c[i], most) by {
            if i < a.len() {
                assert(c[i] == a[i]);
            } else {
                assert(c[i] == b[i - a.len()]);
            }
        }
    }
}

proof fn lemma_modest_head(trades: Seq<Trade>, k: int, most: int)
    requires
        all_modest(trades, most),
        0 <= k <= trades.len(),
    ensures
        all_modest(trades.take(k), most),
        forall|i: int| 0 <= i < trades.len() ==> (#[trigger] trades[i]).qty.0 > 0,
{
    assert forall|i: int| 0 <= i < trades.len() implies (#[trigger] trades[i]).qty.0 > 0 by {
        assert(modest(trades[i], most));
    }
    lemma_modest_parts(trades.take(k), trades.skip(k), most);
    assert(trades.take(k) + trades.skip(k) =~= trades);
}

/// The trade after the first `k` of a list fits the tape, behind those before.
proof fn lemma_trade_fits(past: Seq<Trade>, trades: Seq<Trade>, k: int, most: int, total: int)
    requires
        all_modest(past, most),
        all_modest(trades, most),
        0 <= k < trades.len(),
        traded(past) + traded(trades) <= total <= i64::MAX,
        0 <= most,
        most * total <= i64::MAX,
    ensures
        recorded(recorded(MarketView::empty(), past), trades.take(k)).admits(trades[k]),
{
    let head = trades.take(k);
    lemma_modest_head(trades, k, most);
    lemma_traded_prefix(trades, k);
    lemma_recorded_concat(MarketView::empty(), past, head);
    lemma_traded_concat(past, head);
    lemma_modest_parts(past, head, most);
    assert(modest(trades[k], most));
    lemma_market_admits(past + head, trades[k], most, total);
}

/// The numbers of a sweep fit, behind the trades before it.
proof fn lemma_sweep_fits(
    s: Sweep,
    order: Order,
    makers: Seq<Order>,
    past: Seq<Trade>,
    most: int,
    total: int,
)
    requires
        all_modest(past, most),
        all_modest(s.trades, most),
        0 <= traded(past),
        traded(s.trades) <= order.qty.0,
        traded(past) + traded(s.trades) <= total <= i64::MAX,
        0 <= most,
        most * total <= i64::MAX,
        forall|k: int|
            0 <= k < s.trades.len() ==> 0 < (#[trigger] s.trades[k]).qty.0 <= makers[k].qty.0,
    ensures
        sweep_fits(s, order, makers, traded(past), recorded(MarketView::empty(), past)),
{
    let market = recorded(MarketView::empty(), past);
    assert forall|k: int| 0 <= k <= s.trades.len() implies fits_i64(
        order.qty.0 - traded(#[trigger] s.trades.take(k)),
    ) && fits_i64(traded(past) + traded(s.trades.take(k))) by {
        lemma_traded_prefix(s.trades, k);
    }
    assert forall|k: int| 0 <= k < s.trades.len() implies fits_i64(
        makers[k].qty.0 - (#[trigger] s.trades[k]).qty.0,
    ) && recorded(market, s.trades.take(k)).admits(s.trades[k]) by {
        lemma_trade_fits(past, s.trades, k, most, total);
    }
}

/// What has traded and what was cancelled is no more than what was submitted.
proof fn lemma_within_submitted(only: Option<Seq<char>>, events: Seq<Event>)
    requires
        positive_orders(events),
        submitted(only, events) == accounted(replay(EngineView::empty(only), events)),
    ensures
        ({
            let v = replay(EngineView::empty(only), events);
            let past = run_trades(EngineView::empty(only), events);
            &&& 0 <= traded(past) <= submitted(only, events)
            &&& past.len() <= traded(past)
            &&& v.stats.volume == traded(past)
            &&& v.stats.trades == past.len()
            &&& 0 <= v.stats.cancelled_qty <= submitted(only, events)
        }),
{
    let start = EngineView::empty(only);
    let v = replay(start, events);
    law_the_books_add_up_after_every_run(only, events);
    law_positive_orders_make_positive_trades(only, events);
    lemma_resting_not_negative(v);
    lemma_not_negative(only, events);
    law_the_tape_is_made_of_the_trades(start, events);
    lemma_at_least_one_each(run_trades(start, events));
}

proof fn lemma_at_least_one_each(trades: Seq<Trade>)
    requires
        forall|i: int| 0 <= i < trades.len() ==> (#[trigger] trades[i]).qty.0 > 0,
    ensures
        trades.len() <= traded(trades),
    decreases trades.len(),
{
    if trades.len() > 0 {
        let front = trades.drop_last();
        assert forall|i: int| 0 <= i < front.len() implies (#[trigger] front[i]).qty.0 > 0 by {
            assert(front[i] == trades[i]);
        }
        lemma_at_least_one_each(front);
        assert(trades.last() == trades[trades.len() - 1]);
    }
}

/// A new order fits behind a run, if its counters do.
#[verifier::spinoff_prover]
proof fn lemma_order_fits(
    only: Option<Seq<char>>,
    front: Seq<Event>,
    symbol: Symbol,
    order: Order,
    most: int,
    total: int,
)
    requires
        ({
            let start = EngineView::empty(only);
            let v = replay(start, front);
            let past = run_trades(start, front);
            &&& v.positive()
            &&& order.qty.0 > 0
            &&& v.follows(symbol@)
            &&& all_modest(past, most)
            &&& all_modest(v.sweep(symbol, order).trades, most)
            &&& 0 <= traded(past)
            &&& traded(past) + order.qty.0 <= total
            &&& v.stats.volume == traded(past)
            &&& v.apply(Event::New { symbol, order }).stats.fits()
        }),
        total <= i64::MAX,
        0 <= most,
        most * total <= i64::MAX,
    ensures
        replay(EngineView::empty(only), front).admits(Event::New { symbol, order }),
{
    let start = EngineView::empty(only);
    let v = replay(start, front);
    let past = run_trades(start, front);
    law_the_tape_is_made_of_the_trades(start, front);
    law_every_filled_unit_is_in_one_trade(v, symbol, order);
    lemma_sweep_fits(
        v.sweep(symbol, order),
        order,
        v.makers(symbol, order),
        past,
        most,
        total,
    );
}

/// The counters after one more event fit.
#[verifier::spinoff_prover]
proof fn lemma_counters_fit(only: Option<Seq<char>>, front: Seq<Event>, event: Event)
    requires
        positive_orders(front.push(event)),
        front.len() < u64::MAX,
        submitted(only, front) == accounted(replay(EngineView::empty(only), front)),
        submitted(only, front) + offered(only, event) <= i64::MAX,
    ensures
        replay(EngineView::empty(only), front).apply(event).stats.fits(),
{
    let start = EngineView::empty(only);
    let v = replay(start, front);
    let events = front.push(event);
    let next = v.apply(event);
    assert(events.drop_last() =~= front);
    assert(events.last() == event);
    lemma_front_positive(events);
    lemma_within_submitted(only, front);
    lemma_counters_not_negative(only, events);
    law_a_run_counts_its_events(only, front);
    law_a_run_counts_its_events(only, events);
    lemma_not_negative(only, events);
    assert(replay(start, events) == next);
    law_positive_orders_make_positive_trades(only, front);
    law_no_book_is_ever_crossed(only, front);
    law_the_books_add_up_after_every_run(only, front);
    match event {
        Event::New { symbol, order } => {
            if v.follows(symbol@) {
                law_every_filled_unit_is_in_one_trade(v, symbol, order);
                lemma_at_least_one_each(v.sweep(symbol, order).trades);
            }
        },
        Event::Cancel { .. } => {
            law_an_event_accounts_for_its_quantity(v, event);
            law_the_books_add_up_after_every_run(only, events);
            law_positive_orders_make_positive_trades(only, events);
            lemma_resting_not_negative(next);
        },
    }
}

/// The engine holds every run of up to 2^64 - 1 events in which the orders
/// have positive quantities and trade at prices from nothing up to `most`, as
/// long as the quantity submitted, and that quantity at `most`, fit 64 bits:
/// every number that it makes on the way fits where it is kept.
pub proof fn law_a_modest_run_always_fits(only: Option<Seq<char>>, events: Seq<Event>, most: int)
    requires
        positive_orders(events),
        all_modest(run_trades(EngineView::empty(only), events), most),
        events.len() <= u64::MAX,
        0 <= most,
        submitted(only, events) <= i64::MAX,
        most * submitted(only, events) <= i64::MAX,
    ensures
        admitted(EngineView::empty(only), events),
    decreases events.len(),
{
    let start = EngineView::empty(only);
    if events.len() > 0 {
        let (front, event) = (events.drop_last(), events.last());
        let v = replay(start, front);
        let total = submitted(only, events);
        lemma_front_positive(events);
        lemma_modest_parts(run_trades(start, front), v.trades(event), most);
        lemma_not_negative(only, front);
        lemma_product(0, 0, submitted(only, front), most, total);
        law_a_modest_run_always_fits(only, front, most);
        law_every_unit_is_accounted_for(only, front);
        assert(front.push(event) =~= events);
        lemma_counters_fit(only, front, event);
        lemma_within_submitted(only, front);
        law_positive_orders_make_positive_trades(only, front);
        law_a_run_counts_its_events(only, front);
        match event {
            Event::New { symbol, order } => {
                if v.follows(symbol@) {
                    lemma_order_fits(only, front, symbol, order, most, total);
                }
            },
            Event::Cancel { .. } => {},
        }
    }
}

} // verus!
