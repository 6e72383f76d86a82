//! The rows of the plain renderer, read back.

use crate::engine::book::{ranked, top_levels, BookView};
use crate::engine::laws::books::qty_at;
use crate::engine::laws::counting::{cancels_in, kept_out, law_a_run_counts_its_events};
use crate::engine::laws::levels::{
    better_prices, law_a_level_has_its_rank, law_the_depth_shows_the_best_prices, prices_of,
};
use crate::engine::laws::reading::{
    amount_read, digits_read, is_amount, is_count, law_a_number_reads_back,
    law_an_amount_reads_back, law_prices_and_quantities_read_back,
};
use crate::engine::laws::records::{
    law_a_quotient_drops_the_fraction, law_the_tape_sums_up_every_run, sums_up, trades_in, turnover,
};
use crate::engine::laws::replay;
use crate::engine::laws::tape::law_positions_net_to_zero_after_every_run;
use crate::engine::laws::totals::law_the_books_add_up_after_every_run;
use crate::engine::laws::trading::{law_the_tape_is_made_of_the_trades, run_trades};
use crate::engine::market::{quotient, SymbolView};
use crate::engine::matcher::{traded, EngineView};
use crate::engine::text::{at_left, at_right, decimal};
use crate::engine::types::{price_text, qty_text, Event, Order, Price, Qty, Symbol, Trade};
use crate::feed::{AccountId, OrderId, Side};
use crate::runner::report::{
    counters_row, depth_of, depth_row, level_text, market_row, message_row, position_text,
    positions_text, price_or_dash, totals_row, trade_row, vwap_text,
};
use vstd::prelude::*;

verus! {

/// Whether a text is this count.
pub open spec fn counts(s: Seq<char>, n: int) -> bool {
    is_count(s) && digits_read(s) == n
}

/// Whether a text is this price: an amount in cents with two decimals.
pub open spec fn prices(s: Seq<char>, p: int) -> bool {
    is_amount(s, 2) && amount_read(s) == p
}

/// Whether a text is this quantity: an amount in tenths with one decimal.
pub open spec fn measures(s: Seq<char>, q: int) -> bool {
    is_amount(s, 1) && amount_read(s) == q
}

pub proof fn lemma_counts(n: nat)
    ensures
        counts(decimal(n), n as int),
{
    law_a_number_reads_back(n);
}

pub proof fn lemma_prices(p: Price)
    ensures
        prices(price_text(p), p.0 as int),
{
    law_prices_and_quantities_read_back(p, 0);
}

pub proof fn lemma_measures(q: int)
    ensures
        measures(qty_text(q), q),
{
    law_prices_and_quantities_read_back(Price(0), q);
}

/// A price that there is reads back, and one that there is not yet is a dash.
pub proof fn law_a_missing_price_is_a_dash(p: Price)
    ensures
        price_or_dash(None) == "-"@,
        prices(price_or_dash(Some(p)), p.0 as int),
{
    lemma_prices(p);
}

/// The numbers of a symbol's market row, as they are printed.
pub struct MarketFields {
    pub last: Seq<char>,
    pub vwap: Seq<char>,
    pub high: Seq<char>,
    pub low: Seq<char>,
    pub volume: Seq<char>,
    pub trades: Seq<char>,
}

/// Whether a text is the volume-weighted average: what is left of the turnover
/// when the volume has been priced at it is less than the volume itself.
pub open spec fn averages(s: Seq<char>, total: int, volume: int) -> bool {
    if volume == 0 {
        s == "-"@
    } else {
        let p = amount_read(s);
        let size = if volume < 0 {
            -volume
        } else {
            volume
        };
        &&& is_amount(s, 2)
        &&& total >= 0 ==> 0 <= total - volume * p < size
        &&& total < 0 ==> 0 <= volume * p - total < size
    }
}

/// Whether the numbers tell of these trades: the last price, the average, the
/// greatest and the least price, the quantity and the number of trades.
pub open spec fn tells(f: MarketFields, own: Seq<Trade>) -> bool {
    &&& prices(f.last, own[own.len() - 1].price.0 as int)
    &&& averages(f.vwap, turnover(own), traded(own))
    &&& is_amount(f.high, 2)
    &&& is_amount(f.low, 2)
    &&& forall|i: int| 0 <= i < own.len() ==> amount_read(f.high) >= (#[trigger] own[i]).price.0
    &&& forall|i: int| 0 <= i < own.len() ==> amount_read(f.low) <= (#[trigger] own[i]).price.0
    &&& exists|i: int|
        0 <= i < own.len() && amount_read(f.high) == (#[trigger] own[i]).price.0
    &&& exists|i: int| 0 <= i < own.len() && amount_read(f.low) == (#[trigger] own[i]).price.0
    &&& amount_read(f.high) >= amount_read(f.low)
    &&& measures(f.volume, traded(own))
    &&& counts(f.trades, own.len() as int)
}

/// The numbers that are printed of a symbol's statistics.
pub open spec fn fields_of(s: SymbolView) -> MarketFields {
    MarketFields {
        last: price_or_dash(s.last),
        vwap: vwap_text(s),
        high: price_or_dash(s.high),
        low: price_or_dash(s.low),
        volume: qty_text(s.volume),
        trades: decimal(s.trades as nat),
    }
}

pub proof fn lemma_fields_tell(s: SymbolView, own: Seq<Trade>)
    requires
        sums_up(s, own),
        own.len() > 0,
    ensures
        tells(fields_of(s), own),
{
    let f = fields_of(s);
    lemma_prices(s.last->0);
    lemma_prices(s.high->0);
    lemma_prices(s.low->0);
    lemma_measures(s.volume);
    lemma_counts(own.len());
    if s.volume != 0 {
        law_an_amount_reads_back(quotient(s.notional, s.volume), 100, 2);
        law_a_quotient_drops_the_fraction(s.notional, s.volume);
    }
    assert(own[0].price.0 <= amount_read(f.high));
}

/// In the snapshot's row of a symbol, the number after `hi` reads back as the
/// greatest price traded in that symbol and the number after `lo` as the least,
/// so that the first is never below the second; the others read back as the
/// last price, the average, the volume and the number of trades. A symbol that
/// has not traded says so.
pub proof fn law_the_market_row_tells_of_the_trades(
    only: Option<Seq<char>>,
    events: Seq<Event>,
    name: Seq<char>,
) -> (f: MarketFields)
    ensures
        ({
            let start = EngineView::empty(only);
            let own = trades_in(run_trades(start, events), name);
            let row = market_row(replay(start, events), name);
            &&& own.len() > 0 ==> tells(f, own) && row == "  "@ + at_left(name, 8) + "  last "@
                + at_right(f.last, 9) + "  vwap "@ + at_right(f.vwap, 9) + "  hi "@ + at_right(
                f.high,
                9,
            ) + "  lo "@ + at_right(f.low, 9) + "  vol "@ + at_right(f.volume, 7) + " ("@ + f.trades
                + " trades)"@
            &&& own.len() == 0 ==> row == "  "@ + at_left(name, 8) + "  (no trades yet)"@
        }),
{
    let start = EngineView::empty(only);
    let own = trades_in(run_trades(start, events), name);
    let v = replay(start, events);
    law_the_tape_sums_up_every_run(only, events, 0, name);
    let s = v.market.ledger(name).state;
    if own.len() > 0 {
        lemma_fields_tell(s, own);
    }
    fields_of(s)
}

/// The row of a new order gives its id, symbol, account, side, price and
/// quantity, each in its column.
pub proof fn law_a_new_orders_row_tells_of_it(v: EngineView, symbol: Symbol, order: Order) -> (f: (
    Seq<char>,
    Seq<char>,
    Seq<char>,
    Seq<char>,
))
    ensures
        counts(f.0, order.id as int),
        counts(f.1, order.account as int),
        prices(f.2, order.price.0 as int),
        measures(f.3, order.qty.0 as int),
        message_row(v, Event::New { symbol, order }) == "#"@ + at_right(f.0, 6) + " | NEW    | "@
            + at_left(symbol@, 8) + " | acct "@ + at_right(f.1, 3) + " | "@ + at_left(
            if order.side == Side::Buy {
                "BUY"@
            } else {
                "SELL"@
            },
            4,
        ) + " | "@ + at_right(f.2, 9) + " x "@ + at_right(f.3, 5),
{
    lemma_counts(order.id as nat);
    lemma_counts(order.account as nat);
    lemma_prices(order.price);
    lemma_measures(order.qty.0 as int);
    (
        decimal(order.id as nat),
        decimal(order.account as nat),
        price_text(order.price),
        qty_text(order.qty.0 as int),
    )
}

/// The row of a cancel gives its id, its account and its target, and says
/// whether the target is resting: with its symbol if so, and unknown if not.
pub proof fn law_a_cancels_row_tells_of_it(
    v: EngineView,
    seq: OrderId,
    account: AccountId,
    target_id: OrderId,
) -> (f: (Seq<char>, Seq<char>, Seq<char>))
    ensures
        counts(f.0, seq as int),
        counts(f.1, account as int),
        counts(f.2, target_id as int),
        v.routes.contains_key(target_id) ==> message_row(
            v,
            Event::Cancel { seq, account, target_id },
        ) == "#"@ + at_right(f.0, 6) + " | CANCEL | "@ + at_left(v.routes[target_id], 8)
            + " | acct "@ + at_right(f.1, 3) + " | -> #"@ + at_left(f.2, 6) + " "@ + at_right(
            "["@ + "hit"@ + "]"@,
            16,
        ),
        !v.routes.contains_key(target_id) ==> message_row(
            v,
            Event::Cancel { seq, account, target_id },
        ) == "#"@ + at_right(f.0, 6) + " | CANCEL | "@ + at_left("?"@, 8) + " | acct "@ + at_right(
            f.1,
            3,
        ) + " | -> #"@ + at_left(f.2, 6) + " "@ + at_right("["@ + "unknown"@ + "]"@, 16),
{
    lemma_counts(seq as nat);
    lemma_counts(account as nat);
    lemma_counts(target_id as nat);
    (decimal(seq as nat), decimal(account as nat), decimal(target_id as nat))
}

/// The row of a trade gives the resting order and account before the arriving
/// ones, and the price before the quantity.
pub proof fn law_a_trades_row_tells_of_it(t: Trade) -> (f: (
    Seq<char>,
    Seq<char>,
    Seq<char>,
    Seq<char>,
    Seq<char>,
    Seq<char>,
))
    ensures
        counts(f.0, t.maker_order as int),
        counts(f.1, t.maker_account as int),
        counts(f.2, t.taker_order as int),
        counts(f.3, t.taker_account as int),
        prices(f.4, t.price.0 as int),
        measures(f.5, t.qty.0 as int),
        trade_row(t) == "        +- TRADE | "@ + at_left(t.symbol@, 8) + " | maker #"@ + f.0
            + " a"@ + f.1 + " <- taker #"@ + f.2 + " a"@ + f.3 + " | "@ + f.4 + " x "@ + f.5,
{
    lemma_counts(t.maker_order as nat);
    lemma_counts(t.maker_account as nat);
    lemma_counts(t.taker_order as nat);
    lemma_counts(t.taker_account as nat);
    lemma_prices(t.price);
    lemma_measures(t.qty.0 as int);
    (
        decimal(t.maker_order as nat),
        decimal(t.maker_account as nat),
        decimal(t.taker_order as nat),
        decimal(t.taker_account as nat),
        price_text(t.price),
        qty_text(t.qty.0 as int),
    )
}

/// The counters of a snapshot or a footer, as they are printed.
pub struct CounterFields {
    pub messages: Seq<char>,
    pub new_orders: Seq<char>,
    pub filtered: Seq<char>,
    pub cancels: Seq<char>,
    pub hit: Seq<char>,
    pub unknown: Seq<char>,
}

/// Whether the counters are those of these events: every one is a message, and
/// is a cancel, kept out by the filter, or a new order; every cancel hit or was
/// unknown.
pub open spec fn counts_events(
    f: CounterFields,
    v: EngineView,
    only: Option<Seq<char>>,
    events: Seq<Event>,
) -> bool {
    &&& counts(f.messages, events.len() as int)
    &&& counts(f.cancels, cancels_in(events))
    &&& counts(f.filtered, kept_out(only, events))
    &&& counts(f.new_orders, events.len() - cancels_in(events) - kept_out(only, events))
    &&& counts(f.hit, v.stats.cancels_hit)
    &&& counts(f.unknown, v.stats.cancels_unknown)
    &&& digits_read(f.hit) + digits_read(f.unknown) == cancels_in(events)
}

pub open spec fn counters_of(v: EngineView) -> CounterFields {
    CounterFields {
        messages: decimal(v.stats.events as nat),
        new_orders: decimal(v.stats.new_orders as nat),
        filtered: decimal(v.stats.filtered as nat),
        cancels: decimal(v.stats.cancels as nat),
        hit: decimal(v.stats.cancels_hit as nat),
        unknown: decimal(v.stats.cancels_unknown as nat),
    }
}

proof fn lemma_counters_not_negative(only: Option<Seq<char>>, events: Seq<Event>)
    ensures
        ({
            let s = replay(EngineView::empty(only), events).stats;
            s.events >= 0 && s.new_orders >= 0 && s.filtered >= 0 && s.cancels >= 0
                && s.cancels_hit >= 0 && s.cancels_unknown >= 0
        }),
    decreases events.len(),
{
    if events.len() > 0 {
        lemma_counters_not_negative(only, events.drop_last());
    }
}

pub proof fn lemma_counters_count(only: Option<Seq<char>>, events: Seq<Event>)
    ensures
        ({
            let v = replay(EngineView::empty(only), events);
            counts_events(counters_of(v), v, only, events)
        }),
{
    let v = replay(EngineView::empty(only), events);
    law_a_run_counts_its_events(only, events);
    lemma_counters_not_negative(only, events);
    lemma_counts(v.stats.events as nat);
    lemma_counts(v.stats.new_orders as nat);
    lemma_counts(v.stats.filtered as nat);
    lemma_counts(v.stats.cancels as nat);
    lemma_counts(v.stats.cancels_hit as nat);
    lemma_counts(v.stats.cancels_unknown as nat);
}

/// The first row of a snapshot counts the events of the run.
pub proof fn law_the_counters_row_counts_the_events(
    only: Option<Seq<char>>,
    events: Seq<Event>,
    cursor: OrderId,
    skipped: u64,
) -> (r: (CounterFields, Seq<char>, Seq<char>))
    ensures
        ({
            let v = replay(EngineView::empty(only), events);
            let f = r.0;
            &&& counts_events(f, v, only, events)
            &&& counts(r.1, cursor as int)
            &&& counts(r.2, skipped as int)
            &&& counters_row(v, cursor, skipped) == "cursor="@ + r.1 + " msgs="@ + f.messages
                + " new="@ + f.new_orders + " filtered="@ + f.filtered + " cancels="@ + f.cancels
                + " (hit "@ + f.hit + " / unknown "@ + f.unknown + ") skipped="@ + r.2
        }),
{
    let v = replay(EngineView::empty(only), events);
    lemma_counters_count(only, events);
    lemma_counts(cursor as nat);
    lemma_counts(skipped as nat);
    (counters_of(v), decimal(cursor as nat), decimal(skipped as nat))
}

/// The totals of a snapshot or a footer, as they are printed.
pub struct TotalFields {
    pub trades: Seq<char>,
    pub volume: Seq<char>,
    pub cancelled: Seq<char>,
    pub resting: Seq<char>,
    pub indexed: Seq<char>,
    pub net: Seq<char>,
}

/// Whether the totals are those of this state, whose trades were these. Every
/// unit bought was sold, so that the net position is nothing.
pub open spec fn totals_up(f: TotalFields, v: EngineView, trades: Seq<Trade>) -> bool {
    &&& counts(f.trades, trades.len() as int)
    &&& measures(f.volume, traded(trades))
    &&& measures(f.cancelled, v.stats.cancelled_qty)
    &&& counts(f.resting, v.resting())
    &&& counts(f.indexed, v.routes.len() as int)
    &&& measures(f.net, 0)
}

pub open spec fn totals_of(v: EngineView) -> TotalFields {
    TotalFields {
        trades: decimal(v.stats.trades as nat),
        volume: qty_text(v.stats.volume),
        cancelled: qty_text(v.stats.cancelled_qty),
        resting: decimal(v.resting() as nat),
        indexed: decimal(v.routes.len()),
        net: qty_text(v.market.net()),
    }
}

pub proof fn lemma_totals_add_up(only: Option<Seq<char>>, events: Seq<Event>)
    ensures
        ({
            let start = EngineView::empty(only);
            let v = replay(start, events);
            totals_up(totals_of(v), v, run_trades(start, events))
        }),
{
    let start = EngineView::empty(only);
    let v = replay(start, events);
    law_the_books_add_up_after_every_run(only, events);
    law_the_tape_is_made_of_the_trades(start, events);
    law_positions_net_to_zero_after_every_run(only, events);
    lemma_counts(v.stats.trades as nat);
    lemma_measures(v.stats.volume);
    lemma_measures(v.stats.cancelled_qty);
    lemma_counts(v.resting() as nat);
    lemma_counts(v.routes.len());
    lemma_measures(v.market.net());
}

/// The second row of a snapshot adds up the run.
pub proof fn law_the_totals_row_adds_up_the_run(only: Option<Seq<char>>, events: Seq<Event>) -> (f:
    TotalFields)
    ensures
        ({
            let start = EngineView::empty(only);
            let v = replay(start, events);
            &&& totals_up(f, v, run_trades(start, events))
            &&& totals_row(v) == "trades="@ + f.trades + " volume="@ + f.volume + " cancelled="@
                + f.cancelled + " resting="@ + f.resting + " indexed="@ + f.indexed
                + " net_position="@ + f.net
        }),
{
    lemma_totals_add_up(only, events);
    totals_of(replay(EngineView::empty(only), events))
}

/// A level is shown as a price, a cross and a quantity.
pub open spec fn shows_level(s: Seq<char>, price: int, qty: int) -> bool {
    exists|p: Seq<char>, q: Seq<char>|
        s == #[trigger] (p + " x "@ + q) && prices(p, price) && measures(q, qty)
}

/// Whether a text shows the `i`-th best price of a side with all that rests
/// there, or nothing where the side has no more prices.
pub open spec fn shows_rank(s: Seq<char>, queue: Seq<Order>, side: Side, i: int) -> bool {
    if i < prices_of(queue).len() {
        exists|p: Price|
            {
                &&& #[trigger] prices_of(queue).contains(p)
                &&& better_prices(queue, side, p).len() == i
                &&& shows_level(s, p.0 as int, qty_at(queue, p))
            }
    } else {
        s == ""@
    }
}

pub proof fn lemma_level_shown(queue: Seq<Order>, side: Side, n: nat, i: int)
    requires
        ranked(queue, side),
        0 <= i < n,
    ensures
        shows_rank(level_text(top_levels(queue, n as int), i), queue, side, i),
{
    let l = top_levels(queue, n as int);
    law_the_depth_shows_the_best_prices(queue, side, n);
    if i < l.len() {
        let (p, q) = l[i];
        law_a_level_has_its_rank(queue, side, n, i);
        lemma_prices(p);
        lemma_measures(q);
        assert(shows_level(level_text(l, i), p.0 as int, q)) by {
            assert(level_text(l, i) == price_text(p) + " x "@ + qty_text(q));
        }
        assert(prices_of(queue).contains(p));
    }
}

/// A book's rows in a snapshot show its best prices, bids at the left and asks
/// at the right: as many rows as the deeper side has prices, up to three, and
/// in each the price of that rank with all that rests there.
pub proof fn law_the_depth_rows_show_the_best_prices(b: BookView, i: int) -> (f: (
    Seq<char>,
    Seq<char>,
))
    requires
        b.valid(),
        0 <= i < 3,
    ensures
        shows_rank(f.0, b.bids, Side::Buy, i),
        shows_rank(f.1, b.asks, Side::Sell, i),
        depth_row(b, i) == "            "@ + at_right(f.0, 11) + " | "@ + at_left(f.1, 11),
        i < depth_of(b, 3) <==> i < prices_of(b.bids).len() || i < prices_of(b.asks).len(),
        depth_of(b, 3) <= 3,
{
    lemma_level_shown(b.bids, Side::Buy, 3, i);
    lemma_level_shown(b.asks, Side::Sell, 3, i);
    law_the_depth_shows_the_best_prices(b.bids, Side::Buy, 3);
    law_the_depth_shows_the_best_prices(b.asks, Side::Sell, 3);
    (level_text(top_levels(b.bids, 3), i), level_text(top_levels(b.asks, 3), i))
}

/// A position is shown as the account, the symbol and the quantity, with a
/// plus sign in front of a long one.
pub proof fn law_a_position_is_shown_with_its_sign(p: (AccountId, Symbol, Qty)) -> (f: (
    Seq<char>,
    Seq<char>,
))
    ensures
        counts(f.0, p.0 as int),
        measures(f.1, p.2.0 as int),
        p.2.0 > 0 ==> position_text(p) == "a"@ + f.0 + " "@ + p.1@ + " "@ + "+"@ + f.1,
        p.2.0 <= 0 ==> position_text(p) == "a"@ + f.0 + " "@ + p.1@ + " "@ + f.1,
{
    reveal_strlit("");
    lemma_counts(p.0 as nat);
    lemma_measures(p.2.0 as int);
    let head = "a"@ + decimal(p.0 as nat) + " "@ + p.1@ + " "@;
    assert(head + ""@ =~= head);
    (decimal(p.0 as nat), qty_text(p.2.0 as int))
}

/// A list of positions shows each of them, in order, with a bar between two.
pub proof fn law_positions_are_set_apart_by_bars(
    top: Seq<(AccountId, Symbol, Qty)>,
    p: (AccountId, Symbol, Qty),
)
    ensures
        positions_text(seq![p]) == position_text(p),
        top.len() > 0 ==> positions_text(top.push(p)) == positions_text(top) + "  |  "@
            + position_text(p),
{
    assert(top.push(p).drop_last() =~= top);
}

} // verus!
