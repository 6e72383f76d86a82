//! The matching engine: a pure fold over the feed's message sequence.
//!
//! `apply` touches no network and no clock, so the entire engine can be driven
//! from a canned list of events with no server running.
//!
//! Semantics, all deliberate:
//!   * price-time priority: best price first, then earliest arrival
//!   * the aggressor takes the **resting** order's price, never its own
//!   * self-trades are allowed; the feed has no account model to protect
//!   * a cancel for an unknown or already-filled order is a silent no-op
//!   * cancel ownership is recorded but never enforced

use crate::engine::book::{
    at_least_as_good, fits_i64, lemma_insert_keeps_valid, lemma_position_found, lemma_rank_bounds,
    located, position, rank, BookView, OrderBook,
};
use crate::engine::market::{MarketState, MarketView};
use crate::engine::sums::{lemma_sum_over, sum_over, sum_values};
use crate::engine::symbol_map::SymbolMap;
use crate::engine::text;
use crate::engine::types::{Event, Order, Price, Qty, Symbol, Trade};
use crate::feed::{OrderId, Side};
use std::collections::HashMap;
use vstd::prelude::*;

verus! {

/// Counters over everything the engine has folded.
#[derive(Debug, Clone, PartialEq, Eq)]
pub struct Stats {
    pub events: u64,
    pub new_orders: u64,
    pub filtered: u64,
    pub cancels: u64,
    pub cancels_hit: u64,
    pub cancels_unknown: u64,
    pub trades: u64,
    /// Traded quantity in ticks (tenths).
    pub volume: i64,
    /// Quantity that left the book via cancel without ever trading. Needed to
    /// account for every unit submitted: a unit is resting, traded, or cancelled.
    pub cancelled_qty: i64,
}

/// The counters as numbers without bounds.
pub struct StatsView {
    pub events: int,
    pub new_orders: int,
    pub filtered: int,
    pub cancels: int,
    pub cancels_hit: int,
    pub cancels_unknown: int,
    pub trades: int,
    pub volume: int,
    pub cancelled_qty: int,
}

impl StatsView {
    pub open spec fn zero() -> StatsView {
        StatsView {
            events: 0,
            new_orders: 0,
            filtered: 0,
            cancels: 0,
            cancels_hit: 0,
            cancels_unknown: 0,
            trades: 0,
            volume: 0,
            cancelled_qty: 0,
        }
    }

    /// Every counter fits where it is kept.
    pub open spec fn fits(self) -> bool {
        &&& 0 <= self.events <= u64::MAX
        &&& 0 <= self.new_orders <= u64::MAX
        &&& 0 <= self.filtered <= u64::MAX
        &&& 0 <= self.cancels <= u64::MAX
        &&& 0 <= self.cancels_hit <= u64::MAX
        &&& 0 <= self.cancels_unknown <= u64::MAX
        &&& 0 <= self.trades <= u64::MAX
        &&& fits_i64(self.volume)
        &&& fits_i64(self.cancelled_qty)
    }
}

impl View for Stats {
    type V = StatsView;

    open spec fn view(&self) -> StatsView {
        StatsView {
            events: self.events as int,
            new_orders: self.new_orders as int,
            filtered: self.filtered as int,
            cancels: self.cancels as int,
            cancels_hit: self.cancels_hit as int,
            cancels_unknown: self.cancels_unknown as int,
            trades: self.trades as int,
            volume: self.volume as int,
            cancelled_qty: self.cancelled_qty as int,
        }
    }
}

pub open spec fn opposite_side(side: Side) -> Side {
    match side {
        Side::Buy => Side::Sell,
        Side::Sell => Side::Buy,
    }
}

/// Whether an order on `side` limited to `limit` trades at a resting price.
pub open spec fn crosses(side: Side, limit: Price, resting: Price) -> bool {
    match side {
        Side::Buy => resting.0 <= limit.0,
        Side::Sell => resting.0 >= limit.0,
    }
}

/// The trade of `fill` between an arriving order and a resting one, at the
/// resting order's price.
pub open spec fn trade_of(symbol: Symbol, taker: Order, maker: Order, fill: int) -> Trade {
    Trade {
        seq: taker.id,
        symbol,
        price: maker.price,
        qty: Qty(fill as i64),
        maker_order: maker.id,
        maker_account: maker.account,
        taker_order: taker.id,
        taker_account: taker.account,
        taker_side: taker.side,
    }
}

/// What is left when an arriving order has met the opposite queue.
#[verifier::ext_equal]
pub struct Sweep {
    pub trades: Seq<Trade>,
    /// The opposite queue afterwards.
    pub makers: Seq<Order>,
    /// The arriving order's unfilled quantity.
    pub left: int,
}

/// Walks the opposite queue from the front while the taker has quantity left
/// and the resting price is one it is willing to trade at. A maker with no more
/// than that quantity is exhausted; a larger one keeps the difference.
pub open spec fn sweep(symbol: Symbol, taker: Order, left: int, makers: Seq<Order>) -> Sweep
    decreases makers.len(),
{
    if left == 0 || makers.len() == 0 || !crosses(taker.side, taker.price, makers[0].price) {
        Sweep { trades: seq![], makers, left }
    } else if makers[0].qty.0 <= left {
        let fill = makers[0].qty.0;
        let rest = sweep(symbol, taker, left - fill, makers.drop_first());
        Sweep { trades: seq![trade_of(symbol, taker, makers[0], fill as int)] + rest.trades, ..rest }
    } else {
        let kept = Order { qty: Qty((makers[0].qty.0 - left) as i64), ..makers[0] };
        Sweep {
            trades: seq![trade_of(symbol, taker, makers[0], left)],
            makers: makers.update(0, kept),
            left: 0,
        }
    }
}

/// The quantity that changed hands in a list of trades.
pub open spec fn traded(trades: Seq<Trade>) -> int
    decreases trades.len(),
{
    if trades.len() == 0 {
        0
    } else {
        traded(trades.drop_last()) + trades.last().qty.0
    }
}

/// The market after a list of trades, first to last.
pub open spec fn recorded(market: MarketView, trades: Seq<Trade>) -> MarketView
    decreases trades.len(),
{
    if trades.len() == 0 {
        market
    } else {
        recorded(market, trades.drop_last()).record(trades.last())
    }
}

/// The ids of a list of orders.
pub open spec fn ids(orders: Seq<Order>) -> Set<OrderId> {
    orders.map_values(|o: Order| o.id).to_set()
}

/// Every number that the sweep passes through fits where it is kept: the
/// taker's and each maker's remainder, the running volume, and the tape.
pub open spec fn sweep_fits(
    s: Sweep,
    taker: Order,
    makers: Seq<Order>,
    volume: int,
    market: MarketView,
) -> bool {
    &&& forall|k: int|
        0 <= k <= s.trades.len() ==> fits_i64(taker.qty.0 - traded(#[trigger] s.trades.take(k)))
            && fits_i64(volume + traded(s.trades.take(k)))
    &&& forall|k: int|
        0 <= k < s.trades.len() ==> fits_i64(makers[k].qty.0 - (#[trigger] s.trades[k]).qty.0)
            && recorded(market, s.trades.take(k)).admits(s.trades[k])
}

fn opposite(side: Side) -> (r: Side)
    ensures
        r == opposite_side(side),
{
    match side {
        Side::Buy => Side::Sell,
        Side::Sell => Side::Buy,
    }
}

/// The book once the first `gone` makers have left it.
pub open spec fn swept_book(b: BookView, side: Side, makers: Seq<Order>) -> BookView {
    let gone = b.side(side).take(b.side(side).len() - makers.len());
    BookView { index: b.index.remove_keys(ids(gone)), ..b.with_side(side, makers) }
}

/// A book that an arriving order has met: it trades as far as it crosses, and
/// what is left rests.
pub open spec fn book_after(b: BookView, symbol: Symbol, order: Order) -> BookView {
    let side = opposite_side(order.side);
    let s = sweep(symbol, order, order.qty.0 as int, b.side(side));
    let swept = swept_book(b, side, s.makers);
    if s.left == 0 {
        swept
    } else {
        swept.insert(Order { qty: Qty(s.left as i64), ..order })
    }
}

proof fn lemma_ids_push(s: Seq<Order>, k: int)
    requires
        0 <= k < s.len(),
    ensures
        ids(s.take(k + 1)) == ids(s.take(k)).insert(s[k].id),
{
    let a = s.take(k).map_values(|o: Order| o.id);
    let b = s.take(k + 1).map_values(|o: Order| o.id);
    assert(b =~= a.push(s[k].id));
    assert forall|x: OrderId| b.contains(x) <==> a.contains(x) || x == s[k].id by {
        if a.contains(x) {
            let i = choose|i: int| 0 <= i < a.len() && a[i] == x;
            assert(b[i] == x);
        }
        if x == s[k].id {
            assert(b[k] == x);
        }
    }
    assert(b.to_set() =~= a.to_set().insert(s[k].id));
}

/// The front maker and the taker's quantity after one fill between them.
spec fn after_fill(cur: Seq<Order>, fill: int) -> Seq<Order> {
    if cur[0].qty.0 == fill {
        cur.drop_first()
    } else {
        cur.update(0, Order { qty: Qty((cur[0].qty.0 - fill) as i64), ..cur[0] })
    }
}

/// One fill takes the first trade off what is still to come.
proof fn lemma_fill(
    symbol: Symbol,
    taker: Order,
    left: int,
    cur: Seq<Order>,
    trades: Seq<Trade>,
    all: Sweep,
    fill: int,
)
    requires
        left != 0,
        cur.len() > 0,
        crosses(taker.side, taker.price, cur[0].price),
        fill == (if left <= cur[0].qty.0 {
            left
        } else {
            cur[0].qty.0 as int
        }),
        all == ({
            let rest = sweep(symbol, taker, left, cur);
            Sweep { trades: trades + rest.trades, ..rest }
        }),
    ensures
        trades.len() < all.trades.len(),
        all.trades.take(trades.len() as int) == trades,
        all.trades[trades.len() as int] == trade_of(symbol, taker, cur[0], fill),
        all.trades.take(trades.len() as int + 1) == trades.push(trade_of(symbol, taker, cur[0], fill)),
        all == ({
            let rest = sweep(symbol, taker, left - fill, after_fill(cur, fill));
            Sweep {
                trades: trades.push(trade_of(symbol, taker, cur[0], fill)) + rest.trades,
                ..rest
            }
        }),
{
    let t = trade_of(symbol, taker, cur[0], fill);
    let rest = sweep(symbol, taker, left, cur);
    let next = sweep(symbol, taker, left - fill, after_fill(cur, fill));
    assert(rest.trades =~= seq![t] + next.trades);
    assert(rest.makers == next.makers);
    assert(rest.left == next.left);
    assert(all.trades.take(trades.len() as int) =~= trades);
    assert(all.trades.take(trades.len() as int + 1) =~= trades.push(t));
    assert(all.trades =~= trades.push(t) + next.trades);
}

/// A fill in the swept book is the swept book after that fill.
proof fn lemma_swept_step(b: BookView, side: Side, k: int, fill: int)
    requires
        0 <= k < b.side(side).len(),
    ensures
        ({
            let makers = b.side(side);
            let cur = makers.skip(k);
            let next = after_fill(cur, fill);
            &&& swept_book(b, side, cur).reduce_best(side, fill) == swept_book(b, side, next)
            &&& swept_book(b, side, next).side(side) == next
            &&& next.len() == (if cur[0].qty.0 == fill {
                cur.len() - 1
            } else {
                cur.len() as int
            })
            &&& cur.drop_first() == makers.skip(k + 1)
        }),
{
    let makers = b.side(side);
    let cur = makers.skip(k);
    lemma_ids_push(makers, k);
    assert(makers.take(makers.len() - cur.len()) =~= makers.take(k));
    assert(cur.drop_first() =~= makers.skip(k + 1));
    assert(b.index.remove_keys(ids(makers.take(k))).remove(makers[k].id) =~= b.index.remove_keys(
        ids(makers.take(k + 1)),
    ));
}

/// Trades an arriving order against the opposite side of its book, as far as
/// it crosses. Returns the trades and the quantity left over.
#[verifier::spinoff_prover]
#[verifier::rlimit(40)]
fn cross(
    book: &mut OrderBook,
    order_symbol: &mut HashMap<OrderId, Symbol>,
    stats: &mut Stats,
    market: &mut MarketState,
    symbol: Symbol,
    taker: Order,
) -> (r: (Vec<Trade>, Qty))
    requires
        old(book).wf(),
        old(market).wf(),
        ({
            let makers = old(book)@.side(opposite_side(taker.side));
            let s = sweep(symbol, taker, taker.qty.0 as int, makers);
            &&& sweep_fits(s, taker, makers, old(stats).volume as int, old(market)@)
            &&& old(stats).trades + s.trades.len() <= u64::MAX
        }),
    ensures
        ({
            let side = opposite_side(taker.side);
            let makers = old(book)@.side(side);
            let s = sweep(symbol, taker, taker.qty.0 as int, makers);
            let gone = makers.take(makers.len() - s.makers.len());
            &&& r.0@ == s.trades
            &&& r.1.0 == s.left
            &&& final(book).wf()
            &&& final(book)@ == swept_book(old(book)@, side, s.makers)
            &&& final(order_symbol)@ == old(order_symbol)@.remove_keys(ids(gone))
            &&& final(market).wf()
            &&& final(market)@ == recorded(old(market)@, s.trades)
            &&& final(stats)@ == (StatsView {
                trades: old(stats)@.trades + s.trades.len(),
                volume: old(stats)@.volume + traded(s.trades),
                ..old(stats)@
            })
        }),
{
    let side = opposite(taker.side);
    let ghost makers = book@.side(side);
    let ghost all = sweep(symbol, taker, taker.qty.0 as int, makers);
    let ghost book0 = book@;
    let ghost routes0 = order_symbol@;
    let ghost stats0 = stats@;
    let ghost market0 = market@;
    let mut left: Qty = taker.qty;
    let mut trades: Vec<Trade> = Vec::new();
    proof {
        assert(makers.take(0) =~= seq![]);
        assert(ids(makers.take(0)) =~= Set::empty());
        assert(book0.index.remove_keys(Set::empty()) =~= book0.index);
        assert(routes0.remove_keys(Set::empty()) =~= routes0);
        assert(makers.skip(0) =~= makers);
        assert(trades@ + all.trades =~= all.trades);
    }
    loop
        invariant
            side == opposite_side(taker.side),
            makers == book0.side(side),
            all == sweep(symbol, taker, taker.qty.0 as int, makers),
            sweep_fits(all, taker, makers, stats0.volume, market0),
            stats0.trades + all.trades.len() <= u64::MAX,
            book.wf(),
            market.wf(),
            all == ({
                let rest = sweep(symbol, taker, left.0 as int, book@.side(side));
                Sweep { trades: trades@ + rest.trades, ..rest }
            }),
            left.0 == taker.qty.0 - traded(trades@),
            book@.side(side).len() <= makers.len(),
            book@ == swept_book(book0, side, book@.side(side)),
            left.0 != 0 ==> book@.side(side) == makers.skip(trades@.len() as int) && trades@.len()
                <= makers.len(),
            order_symbol@ == routes0.remove_keys(
                ids(makers.take(makers.len() - book@.side(side).len())),
            ),
            market@ == recorded(market0, trades@),
            stats@ == (StatsView {
                trades: stats0.trades + trades@.len(),
                volume: stats0.volume + traded(trades@),
                ..stats0
            }),
        ensures
            all == (Sweep { trades: trades@, makers: book@.side(side), left: left.0 as int }),
        decreases book@.side(side).len() + if left.0 == 0 { 0int } else { 1 },
    {
        if left.is_zero() {
            break;
        }
        let best = match book.best_order(side) {
            Some(best) => *best,
            None => break,
        };
        let meets = match taker.side {
            Side::Buy => best.price.0 <= taker.price.0,
            Side::Sell => best.price.0 >= taker.price.0,
        };
        if !meets {
            break;
        }
        let ghost k = trades@.len() as int;
        let ghost cur = book@.side(side);
        let fill = if left.0 <= best.qty.0 { left } else { best.qty };
        let trade = Trade {
            seq: taker.id,
            symbol,
            price: best.price,
            qty: fill,
            maker_order: best.id,
            maker_account: best.account,
            taker_order: taker.id,
            taker_account: taker.account,
            taker_side: taker.side,
        };
        proof {
            assert(best == makers[k]);
            lemma_fill(symbol, taker, left.0 as int, cur, trades@, all, fill.0 as int);
            lemma_swept_step(book0, side, k, fill.0 as int);
            lemma_ids_push(makers, k);
            assert(routes0.remove_keys(ids(makers.take(k))).remove(best.id)
                =~= routes0.remove_keys(ids(makers.take(k + 1))));
            assert(trades@.push(trade).drop_last() =~= trades@);
            assert(fits_i64(makers[k].qty.0 - all.trades[k].qty.0));
        }
        book.reduce_best(side, fill);
        left = Qty(left.0 - fill.0);
        // The maker left the book only if this fill exhausted it.
        if best.qty.0 == fill.0 {
            order_symbol.remove(&best.id);
        }
        stats.trades = stats.trades + 1;
        stats.volume = stats.volume + fill.0;
        market.record(&trade);
        trades.push(trade);
    }
    (trades, left)
}

/// Trades an arriving order as far as it crosses, and rests what is left.
#[verifier::spinoff_prover]
fn meet(
    book: &mut OrderBook,
    order_symbol: &mut HashMap<OrderId, Symbol>,
    stats: &mut Stats,
    market: &mut MarketState,
    symbol: Symbol,
    taker: Order,
) -> (r: Vec<Trade>)
    requires
        old(book).wf(),
        old(market).wf(),
        ({
            let makers = old(book)@.side(opposite_side(taker.side));
            let s = sweep(symbol, taker, taker.qty.0 as int, makers);
            &&& sweep_fits(s, taker, makers, old(stats).volume as int, old(market)@)
            &&& old(stats).trades + s.trades.len() <= u64::MAX
        }),
    ensures
        ({
            let makers = old(book)@.side(opposite_side(taker.side));
            let s = sweep(symbol, taker, taker.qty.0 as int, makers);
            let kept = old(order_symbol)@.remove_keys(
                ids(makers.take(makers.len() - s.makers.len())),
            );
            &&& r@ == s.trades
            &&& final(book).wf()
            &&& final(book)@ == book_after(old(book)@, symbol, taker)
            &&& final(order_symbol)@ == (if s.left == 0 {
                kept
            } else {
                kept.insert(taker.id, symbol)
            })
            &&& final(market).wf()
            &&& final(market)@ == recorded(old(market)@, s.trades)
            &&& final(stats)@ == (StatsView {
                trades: old(stats)@.trades + s.trades.len(),
                volume: old(stats)@.volume + traded(s.trades),
                ..old(stats)@
            })
        }),
{
    let (trades, left) = cross(book, order_symbol, stats, market, symbol, taker);
    // Whatever is left rests and becomes available to future aggressors.
    if !left.is_zero() {
        book.insert(Order { qty: left, ..taker });
        order_symbol.insert(taker.id, symbol);
    }
    trades
}

/// What the engine has accumulated.
#[verifier::ext_equal]
pub struct EngineView {
    pub books: Map<Seq<char>, BookView>,
    /// The symbol whose book each resting order can be cancelled from.
    pub routes: Map<OrderId, Seq<char>>,
    /// When set, every other symbol is ignored.
    pub only: Option<Seq<char>>,
    pub stats: StatsView,
    pub market: MarketView,
}

impl EngineView {
    pub open spec fn empty(only: Option<Seq<char>>) -> EngineView {
        EngineView {
            books: Map::empty(),
            routes: Map::empty(),
            only,
            stats: StatsView::zero(),
            market: MarketView::empty(),
        }
    }

    pub open spec fn book(self, symbol: Seq<char>) -> BookView {
        if self.books.contains_key(symbol) {
            self.books[symbol]
        } else {
            BookView::empty()
        }
    }

    /// Whether orders in this symbol are processed at all.
    pub open spec fn follows(self, symbol: Seq<char>) -> bool {
        self.only is None || self.only == Some(symbol)
    }

    /// The orders that an arriving one can trade with, in priority order.
    pub open spec fn makers(self, symbol: Symbol, order: Order) -> Seq<Order> {
        self.book(symbol@).side(opposite_side(order.side))
    }

    pub open spec fn sweep(self, symbol: Symbol, order: Order) -> Sweep {
        sweep(symbol, order, order.qty.0 as int, self.makers(symbol, order))
    }

    /// The arriving order trades as far as it crosses; what is left rests.
    pub open spec fn accept(self, symbol: Symbol, order: Order) -> EngineView {
        let s = self.sweep(symbol, order);
        let makers = self.makers(symbol, order);
        let routes = self.routes.remove_keys(ids(makers.take(makers.len() - s.makers.len())));
        EngineView {
            books: self.books.insert(symbol@, book_after(self.book(symbol@), symbol, order)),
            routes: if s.left == 0 {
                routes
            } else {
                routes.insert(order.id, symbol@)
            },
            stats: StatsView {
                new_orders: self.stats.new_orders + 1,
                trades: self.stats.trades + s.trades.len(),
                volume: self.stats.volume + traded(s.trades),
                ..self.stats
            },
            market: recorded(self.market, s.trades),
            ..self
        }
    }

    /// The order that a cancel of `id` takes out of its book.
    pub open spec fn cancelled(self, id: OrderId) -> Option<Order> {
        if self.routes.contains_key(id) {
            self.book(self.routes[id]).cancelled(id)
        } else {
            None
        }
    }

    pub open spec fn cancel(self, id: OrderId) -> EngineView {
        match self.cancelled(id) {
            Some(order) => EngineView {
                books: self.books.insert(
                    self.routes[id],
                    self.book(self.routes[id]).cancel(id),
                ),
                routes: self.routes.remove(id),
                stats: StatsView {
                    cancels: self.stats.cancels + 1,
                    cancels_hit: self.stats.cancels_hit + 1,
                    cancelled_qty: self.stats.cancelled_qty + order.qty.0,
                    ..self.stats
                },
                ..self
            },
            None => EngineView {
                stats: StatsView {
                    cancels: self.stats.cancels + 1,
                    cancels_unknown: self.stats.cancels_unknown + 1,
                    ..self.stats
                },
                ..self
            },
        }
    }

    pub open spec fn counted(self) -> EngineView {
        EngineView { stats: StatsView { events: self.stats.events + 1, ..self.stats }, ..self }
    }

    /// Folds one event.
    pub open spec fn apply(self, event: Event) -> EngineView {
        match event {
            Event::New { symbol, order } => if self.follows(symbol@) {
                self.counted().accept(symbol, order)
            } else {
                EngineView {
                    stats: StatsView {
                        events: self.stats.events + 1,
                        filtered: self.stats.filtered + 1,
                        ..self.stats
                    },
                    ..self
                }
            },
            Event::Cancel { target_id, .. } => self.counted().cancel(target_id),
        }
    }

    /// The trades that an event causes. A cancel causes none.
    pub open spec fn trades(self, event: Event) -> Seq<Trade> {
        match event {
            Event::New { symbol, order } => if self.follows(symbol@) {
                self.sweep(symbol, order).trades
            } else {
                seq![]
            },
            Event::Cancel { .. } => seq![],
        }
    }

    /// Every number that folding the event makes fits where it is kept.
    pub open spec fn admits(self, event: Event) -> bool {
        &&& self.apply(event).stats.fits()
        &&& match event {
            Event::New { symbol, order } => self.follows(symbol@) ==> sweep_fits(
                self.sweep(symbol, order),
                order,
                self.makers(symbol, order),
                self.stats.volume,
                self.market,
            ),
            Event::Cancel { .. } => true,
        }
    }

    /// The books are sound and none is crossed, and every route leads to a
    /// book that can cancel the order.
    pub open spec fn valid(self) -> bool {
        &&& forall|symbol: Seq<char>| #[trigger]
            self.books.contains_key(symbol) ==> self.books[symbol].valid()
                && !self.books[symbol].crossed()
        &&& forall|id: OrderId| #[trigger]
            self.routes.contains_key(id) ==> self.books.contains_key(self.routes[id])
                && self.books[self.routes[id]].index.contains_key(id)
    }

    /// Whether some book is crossed.
    pub open spec fn any_crossed(self) -> bool {
        exists|symbol: Seq<char>| #[trigger]
            self.books.contains_key(symbol) && self.books[symbol].crossed()
    }

    /// How many orders rest across every book, counted by id in each.
    pub open spec fn resting(self) -> int {
        sum_values(self.books.map_values(|b: BookView| b.index.len() as int))
    }

    /// The quantity resting across every book.
    pub open spec fn resting_qty(self) -> int {
        sum_values(self.books.map_values(|b: BookView| b.total_qty()))
    }
}

/// A sweep consumes makers from the front; the first one left may be smaller
/// than it was, and does not cross if the taker still has quantity.
pub proof fn lemma_sweep_shape(symbol: Symbol, taker: Order, left: int, makers: Seq<Order>)
    ensures
        ({
            let s = sweep(symbol, taker, left, makers);
            let c = makers.len() - s.makers.len();
            &&& 0 <= c
            &&& forall|i: int|
                0 <= i < s.makers.len() ==> (#[trigger] s.makers[i]).id == makers[c + i].id
                    && s.makers[i].price == makers[c + i].price && s.makers[i].side == makers[c
                    + i].side
            &&& s.left == 0 || s.makers.len() == 0 || !crosses(
                taker.side,
                taker.price,
                s.makers[0].price,
            )
        }),
    decreases makers.len(),
{
    if left == 0 || makers.len() == 0 || !crosses(taker.side, taker.price, makers[0].price) {
    } else if makers[0].qty.0 <= left {
        let t = makers.drop_first();
        lemma_sweep_shape(symbol, taker, left - makers[0].qty.0, t);
        let s = sweep(symbol, taker, left, makers);
        let c = makers.len() - s.makers.len();
        assert forall|i: int| 0 <= i < s.makers.len() implies (#[trigger] s.makers[i]).id == makers[
        c + i].id && s.makers[i].price == makers[c + i].price && s.makers[i].side == makers[c
            + i].side by {
            assert(t[c - 1 + i] == makers[c + i]);
        }
    }
}

/// Taking makers off the front of a queue leaves the book in order and
/// uncrossed.
pub proof fn lemma_swept_valid(b: BookView, side: Side, makers: Seq<Order>)
    requires
        b.valid(),
        !b.crossed(),
        makers.len() <= b.side(side).len(),
        forall|i: int|
            0 <= i < makers.len() ==> {
                let m = b.side(side)[b.side(side).len() - makers.len() + i];
                (#[trigger] makers[i]).id == m.id && makers[i].price == m.price && makers[i].side
                    == m.side
            },
    ensures
        swept_book(b, side, makers).valid(),
        !swept_book(b, side, makers).crossed(),
{
    let s = b.side(side);
    let c = s.len() - makers.len();
    let n = swept_book(b, side, makers);
    assert(n.side(side) == makers);
    assert(n.index.dom() =~= b.index.dom().difference(ids(s.take(c))));
    assert forall|i: int, j: int| 0 <= i < j < makers.len() implies at_least_as_good(
        side,
        (#[trigger] makers[i]).price,
        (#[trigger] makers[j]).price,
    ) by {
        assert(at_least_as_good(side, s[c + i].price, s[c + j].price));
    }
    assert forall|i: int| 0 <= i < makers.len() implies (#[trigger] makers[i]).side == side by {
        assert(s[c + i].side == side);
    }
    assert forall|id: OrderId| #[trigger] n.index.contains_key(id) implies located(
        n.side(n.index[id].0),
        id,
        n.index[id].1,
    ) by {
        assert(b.index.contains_key(id));
        let (its_side, price) = b.index[id];
        let old_s = b.side(its_side);
        let at = choose|i: int|
            0 <= i < old_s.len() && (#[trigger] old_s[i]).id == id && old_s[i].price == price;
        if its_side == side {
            if at < c {
                let gone = s.take(c).map_values(|o: Order| o.id);
                assert(gone[at] == id);
                assert(ids(s.take(c)).contains(id));
            }
            assert(makers[at - c].id == id && makers[at - c].price == price);
        } else {
            assert(n.side(its_side)[at] == old_s[at]);
        }
    }
    if makers.len() > 0 {
        assert(makers[0].price == s[c].price);
        assert(c > 0 ==> at_least_as_good(side, s[0].price, s[c].price));
    }
}

/// Resting what is left of an order whose limit no longer crosses leaves the
/// book in order and uncrossed.
proof fn lemma_rest_valid(b: BookView, o: Order)
    requires
        b.valid(),
        !b.crossed(),
        b.side(opposite_side(o.side)).len() > 0 ==> !crosses(
            o.side,
            o.price,
            b.side(opposite_side(o.side))[0].price,
        ),
    ensures
        b.insert(o).valid(),
        !b.insert(o).crossed(),
{
    let own = b.side(o.side);
    let k = rank(own, o.side, o.price);
    lemma_insert_keeps_valid(b, o);
    lemma_rank_bounds(own, o.side, o.price);
    let t = own.insert(k, o);
    assert(k > 0 ==> t[0] == own[0]);
    assert(k == 0 ==> t[0] == o);
}

proof fn lemma_book_after(b: BookView, symbol: Symbol, order: Order)
    requires
        b.valid(),
        !b.crossed(),
    ensures
        book_after(b, symbol, order).valid(),
        !book_after(b, symbol, order).crossed(),
{
    let side = opposite_side(order.side);
    let s = sweep(symbol, order, order.qty.0 as int, b.side(side));
    lemma_sweep_shape(symbol, order, order.qty.0 as int, b.side(side));
    lemma_swept_valid(b, side, s.makers);
    if s.left != 0 {
        let rest = Order { qty: Qty(s.left as i64), ..order };
        lemma_rest_valid(swept_book(b, side, s.makers), rest);
    }
}

/// Accepting an order keeps every book in order and uncrossed, and every route
/// good.
pub proof fn lemma_accept_keeps_valid(v: EngineView, symbol: Symbol, order: Order)
    requires
        v.valid(),
    ensures
        v.accept(symbol, order).valid(),
{
    let b = v.book(symbol@);
    let next = v.accept(symbol, order);
    let now = book_after(b, symbol, order);
    lemma_book_after(b, symbol, order);
    assert(next.books == v.books.insert(symbol@, now));
    assert forall|id: OrderId| #[trigger] next.routes.contains_key(id) implies next.books.contains_key(
        next.routes[id],
    ) && next.books[next.routes[id]].index.contains_key(id) by {
        if v.sweep(symbol, order).left != 0 && id == order.id {
            assert(now.index.contains_key(id));
        } else {
            assert(v.routes.contains_key(id));
            assert(v.books.contains_key(v.routes[id]));
            assert(v.books[v.routes[id]].index.contains_key(id));
        }
    }
}

/// So does a cancel, and one that is routed finds its order.
pub proof fn lemma_cancel_keeps_valid(v: EngineView, id: OrderId)
    requires
        v.valid(),
    ensures
        v.cancel(id).valid(),
        v.routes.contains_key(id) ==> v.cancelled(id) is Some,
{
    if v.routes.contains_key(id) {
        let symbol = v.routes[id];
        let b = v.books[symbol];
        let next = v.cancel(id);
        crate::engine::book::lemma_cancel_keeps_valid(b, id);
        assert(b.index.contains_key(id));
        let (side, price) = b.index[id];
        let s = b.side(side);
        let k = position(s, id, price);
        lemma_position_found(s, id, price);
        assert(b.cancel(id).side(side) == s.remove(k));
        assert(k > 0 ==> s.remove(k)[0] == s[0]);
        assert(k == 0 && s.len() > 1 ==> s.remove(k)[0] == s[1]);
        assert(!b.cancel(id).crossed());
        assert forall|other: OrderId| #[trigger]
            next.routes.contains_key(other) implies next.books.contains_key(next.routes[other])
            && next.books[next.routes[other]].index.contains_key(other) by {
            assert(v.routes.contains_key(other));
            assert(v.books.contains_key(v.routes[other]));
        }
    }
}

#[derive(Debug)]
pub struct Engine {
    books: SymbolMap<OrderBook>,
    /// Which book holds each resting order.
    ///
    /// This exists because a cancel carries no symbol, so it cannot be routed
    /// from the message alone. It is the only piece of cross-book state in the
    /// engine.
    order_symbol: HashMap<OrderId, Symbol>,
    /// When set, every other symbol is ignored. Used to land matching on one
    /// symbol before opening it up to all of them.
    only: Option<Symbol>,
    pub stats: Stats,
    /// Derived tape state: last/high/low, VWAP, volume and net positions.
    /// Fed only from trades, never from the book.
    pub market: MarketState,
}

impl View for Engine {
    type V = EngineView;

    closed spec fn view(&self) -> EngineView {
        EngineView {
            books: self.books@.map_values(|b: OrderBook| b@),
            routes: self.order_symbol@.map_values(|s: Symbol| s@),
            only: match self.only {
                Some(s) => Some(s@),
                None => None,
            },
            stats: self.stats@,
            market: self.market@,
        }
    }
}

impl Engine {
    /// No book is kept twice, and the market is sound.
    pub closed spec fn parts_wf(&self) -> bool {
        &&& self.books.wf()
        &&& self.market.wf()
    }

    pub open spec fn wf(&self) -> bool {
        &&& self.parts_wf()
        &&& self@.valid()
    }

    pub fn new() -> (r: Self)
        ensures
            r.wf(),
            r@ == EngineView::empty(None),
    {
        let r = Engine {
            books: SymbolMap::new(),
            order_symbol: HashMap::new(),
            only: None,
            stats: Stats::default(),
            market: MarketState::new(),
        };
        assert(r@ =~= EngineView::empty(None));
        r
    }

    /// An engine that processes only `symbol`.
    pub fn only(symbol: Symbol) -> (r: Self)
        ensures
            r.wf(),
            r@ == EngineView::empty(Some(symbol@)),
    {
        let mut r = Engine::new();
        r.only = Some(symbol);
        r
    }

    /// Folds one event into the books, returning any trades it caused.
    /// A cancel never produces a trade.
    pub fn apply(&mut self, event: &Event) -> (r: Vec<Trade>)
        requires
            old(self).wf(),
            old(self)@.admits(*event),
        ensures
            final(self).wf(),
            final(self)@ == old(self)@.apply(*event),
            r@ == old(self)@.trades(*event),
    {
        let ghost before = self@;
        self.stats.events = self.stats.events + 1;
        assert(self@ =~= before.counted());
        match event {
            Event::New { symbol, order } => self.apply_new(symbol, *order),
            Event::Cancel { target_id, .. } => {
                self.apply_cancel(*target_id);
                Vec::new()
            },
        }
    }

    fn apply_new(&mut self, symbol: Symbol, incoming: Order) -> (r: Vec<Trade>)
        requires
            old(self).wf(),
            !old(self)@.follows(symbol@) ==> old(self)@.stats.filtered < u64::MAX,
            old(self)@.follows(symbol@) ==> {
                &&& old(self)@.accept(symbol, incoming).stats.fits()
                &&& sweep_fits(
                    old(self)@.sweep(symbol, incoming),
                    incoming,
                    old(self)@.makers(symbol, incoming),
                    old(self)@.stats.volume,
                    old(self)@.market,
                )
            },
        ensures
            final(self).wf(),
            old(self)@.follows(symbol@) ==> {
                &&& final(self)@ == old(self)@.accept(symbol, incoming)
                &&& r@ == old(self)@.sweep(symbol, incoming).trades
            },
            !old(self)@.follows(symbol@) ==> {
                &&& final(self)@ == (EngineView {
                    stats: StatsView {
                        filtered: old(self)@.stats.filtered + 1,
                        ..old(self)@.stats
                    },
                    ..old(self)@
                })
                &&& r@ == Seq::<Trade>::empty()
            },
    {
        if let Some(filter) = self.only {
            if !text::same(symbol, filter) {
                self.stats.filtered = self.stats.filtered + 1;
                return Vec::new();
            }
        }
        proof {
            lemma_accept_keeps_valid(self@, symbol, incoming);
        }
        self.accept(symbol, incoming)
    }

    /// Brings an order to its symbol's book, which is opened if need be.
    #[verifier::spinoff_prover]
    #[verifier::rlimit(40)]
    fn accept(&mut self, symbol: Symbol, incoming: Order) -> (r: Vec<Trade>)
        requires
            old(self).parts_wf(),
            old(self)@.book(symbol@).valid(),
            old(self)@.accept(symbol, incoming).stats.fits(),
            sweep_fits(
                old(self)@.sweep(symbol, incoming),
                incoming,
                old(self)@.makers(symbol, incoming),
                old(self)@.stats.volume,
                old(self)@.market,
            ),
        ensures
            final(self).parts_wf(),
            final(self)@ == old(self)@.accept(symbol, incoming),
            r@ == old(self)@.sweep(symbol, incoming).trades,
    {
        let ghost before = self@;
        self.stats.new_orders = self.stats.new_orders + 1;
        if self.books.get(symbol).is_none() {
            self.books.insert(symbol, OrderBook::new());
        }
        let mut trades: Vec<Trade> = Vec::new();
        match self.books.get_mut(symbol) {
            None => {},
            Some(book) => {
                trades = meet(
                    book,
                    &mut self.order_symbol,
                    &mut self.stats,
                    &mut self.market,
                    symbol,
                    incoming,
                );
            },
        }
        assert(self@ =~= before.accept(symbol, incoming));
        trades
    }

    fn apply_cancel(&mut self, target_id: OrderId)
        requires
            old(self).wf(),
            old(self)@.cancel(target_id).stats.fits(),
        ensures
            final(self).wf(),
            final(self)@ == old(self)@.cancel(target_id),
    {
        let ghost before = self@;
        proof {
            lemma_cancel_keeps_valid(before, target_id);
        }
        self.stats.cancels = self.stats.cancels + 1;

        // The symbol is derived here, never received: it is absent from the
        // message and depends on state this engine accumulated.
        let symbol: Symbol = match self.order_symbol.get(&target_id) {
            Some(symbol) => *symbol,
            None => {
                self.stats.cancels_unknown = self.stats.cancels_unknown + 1;
                return;
            },
        };
        let removed = match self.books.get_mut(symbol) {
            Some(book) => book.cancel(target_id),
            None => None,
        };
        match removed {
            Some(order) => {
                self.order_symbol.remove(&target_id);
                self.stats.cancels_hit = self.stats.cancels_hit + 1;
                self.stats.cancelled_qty = self.stats.cancelled_qty + order.qty.0;
            },
            None => {
                self.stats.cancels_unknown = self.stats.cancels_unknown + 1;
            },
        }
        assert(self@ =~= before.cancel(target_id));
    }

    /// Whether every number that folding the event makes fits where it is
    /// kept, so that `apply` may be called.
    pub fn admits(&self, event: &Event) -> (r: bool)
        requires
            self.wf(),
        ensures
            r == self@.admits(*event),
    {
        if self.stats.events == u64::MAX {
            return false;
        }
        match event {
            Event::New { symbol, order } => {
                if let Some(filter) = self.only {
                    if !text::same(symbol, filter) {
                        return self.stats.filtered < u64::MAX;
                    }
                }
                proof {
                    let s = self@.sweep(*symbol, *order);
                    assert(s.trades.take(s.trades.len() as int) =~= s.trades);
                }
                self.stats.new_orders < u64::MAX && self.admits_new(symbol, *order)
            },
            Event::Cancel { target_id, .. } => {
                proof {
                    lemma_cancel_keeps_valid(self@, *target_id);
                }
                let found = match self.order_symbol.get(target_id) {
                    None => None,
                    Some(symbol) => match self.books.get(symbol) {
                        None => None,
                        Some(book) => book.resting_order(*target_id),
                    },
                };
                self.stats.cancels < u64::MAX && match found {
                    Some(order) => self.stats.cancels_hit < u64::MAX
                        && self.stats.cancelled_qty.checked_add(order.qty.0).is_some(),
                    None => self.stats.cancels_unknown < u64::MAX,
                }
            },
        }
    }

    fn admits_new(&self, symbol: Symbol, order: Order) -> (r: bool)
        requires
            self.wf(),
        ensures
            r == ({
                let s = self@.sweep(symbol, order);
                &&& self@.stats.trades + s.trades.len() <= u64::MAX
                &&& sweep_fits(
                    s,
                    order,
                    self@.makers(symbol, order),
                    self@.stats.volume,
                    self@.market,
                )
            }),
    {
        proof {
            reveal(fits_whole);
        }
        match self.books.get(symbol) {
            None => {
                let ghost s = self@.sweep(symbol, order);
                assert(s.trades.len() == 0);
                assert(s.trades.take(0) =~= s.trades);
                true
            },
            Some(book) => {
                assert(self@.books.contains_key(symbol@));
                rehearse(book, &self.stats, &self.market, symbol, order)
            },
        }
    }

    /// Which book holds a resting order, if it is still resting. The runner
    /// uses this to label a cancel before applying it, since the message
    /// carries no symbol.
    pub fn symbol_of(&self, id: OrderId) -> (r: Option<Symbol>)
        ensures
            match r {
                Some(s) => self@.routes.contains_key(id) && s@ == self@.routes[id],
                None => !self@.routes.contains_key(id),
            },
    {
        match self.order_symbol.get(&id) {
            Some(s) => Some(*s),
            None => None,
        }
    }

    pub fn book(&self, symbol: Symbol) -> (r: Option<&OrderBook>)
        ensures
            match r {
                Some(b) => self@.books.contains_key(symbol@) && b@ == self@.books[symbol@],
                None => !self@.books.contains_key(symbol@),
            },
            self.wf() ==> (r matches Some(b) ==> b.wf()),
    {
        let r = self.books.get(symbol);
        assert(r is Some ==> self@.books.contains_key(symbol@));
        r
    }

    /// The derived tape state.
    pub fn market(&self) -> (r: &MarketState)
        ensures
            r@ == self@.market,
            self.wf() ==> r.wf(),
    {
        &self.market
    }

    /// The counters.
    pub fn stats(&self) -> (r: &Stats)
        ensures
            r@ == self@.stats,
    {
        &self.stats
    }

    /// Every symbol that has a book, each once.
    pub fn symbols(&self) -> (r: Vec<Symbol>)
        requires
            self.wf(),
        ensures
            forall|i: int| 0 <= i < r@.len() ==> self@.books.contains_key((#[trigger] r@[i])@),
            forall|i: int, j: int|
                0 <= i < j < r@.len() ==> (#[trigger] r@[i])@ != (#[trigger] r@[j])@,
            forall|symbol: Seq<char>| #[trigger]
                self@.books.contains_key(symbol) ==> exists|i: int|
                    0 <= i < r@.len() && (#[trigger] r@[i])@ == symbol,
    {
        let ghost o = self.books.order();
        let mut r: Vec<Symbol> = Vec::new();
        let mut i: usize = 0;
        while i < self.books.len()
            invariant
                i <= o.len(),
                o == self.books.order(),
                self.books.wf(),
                r@.len() == i,
                forall|k: int| 0 <= k < i ==> (#[trigger] r@[k])@ == o[k],
            decreases o.len() - i,
        {
            r.push(self.books.at(i).0);
            i = i + 1;
        }
        proof {
            self.books.lemma_order();
            assert forall|k: int| 0 <= k < r@.len() implies self@.books.contains_key(
                (#[trigger] r@[k])@,
            ) by {
                assert(self.books@.contains_key(o[k]));
            }
            assert forall|symbol: Seq<char>| #[trigger]
                self@.books.contains_key(symbol) implies exists|k: int|
                0 <= k < r@.len() && (#[trigger] r@[k])@ == symbol by {
                assert(o.to_set().contains(symbol));
                let k = choose|k: int| 0 <= k < o.len() && o[k] == symbol;
                assert(r@[k]@ == symbol);
            }
        }
        r
    }

    /// Total resting orders across every book, summed wide enough for every
    /// engine there can be.
    pub fn resting_wide(&self) -> (r: u128)
        requires
            self.wf(),
        ensures
            r == self@.resting(),
    {
        let ghost counts = self@.books.map_values(|b: BookView| b.index.len() as int);
        let ghost o = self.books.order();
        proof {
            self.books.lemma_order();
            assert(counts.dom() =~= self.books@.dom());
            lemma_sum_over(o, counts);
        }
        let mut sum: u128 = 0;
        let mut i: usize = 0;
        while i < self.books.len()
            invariant
                i <= o.len(),
                o == self.books.order(),
                self.books.wf(),
                counts == self@.books.map_values(|b: BookView| b.index.len() as int),
                sum == sum_over(o.take(i as int), counts),
                sum <= i * usize::MAX,
            decreases o.len() - i,
        {
            let (symbol, book) = self.books.at(i);
            assert(o.take(i + 1).drop_last() =~= o.take(i as int));
            assert(o.take(i + 1).last() == symbol@);
            assert(self@.books.contains_key(symbol@));
            assert(i * usize::MAX + usize::MAX <= u128::MAX) by (nonlinear_arith)
                requires
                    i < usize::MAX,
            ;
            assert((i + 1) * usize::MAX == i * usize::MAX + usize::MAX) by (nonlinear_arith);
            sum = sum + book.len() as u128;
            i = i + 1;
        }
        assert(o.take(i as int) =~= o);
        sum
    }

    /// Total resting orders across every book.
    pub fn resting(&self) -> (r: usize)
        requires
            self.wf(),
            self@.resting() <= usize::MAX,
        ensures
            r == self@.resting(),
    {
        self.resting_wide() as usize
    }

    /// Total quantity resting across every book.
    pub fn resting_qty(&self) -> (r: Qty)
        requires
            self.wf(),
            forall|symbol: Seq<char>| #[trigger]
                self@.books.contains_key(symbol) ==> fits_i64(self@.books[symbol].total_qty()),
            fits_i64(self@.resting_qty()),
        ensures
            r.0 == self@.resting_qty(),
    {
        let ghost totals = self@.books.map_values(|b: BookView| b.total_qty());
        let ghost o = self.books.order();
        proof {
            self.books.lemma_order();
            assert(totals.dom() =~= self.books@.dom());
            lemma_sum_over(o, totals);
        }
        let mut sum: i128 = 0;
        let mut i: usize = 0;
        while i < self.books.len()
            invariant
                i <= o.len(),
                o == self.books.order(),
                self.books.wf(),
                forall|symbol: Seq<char>| #[trigger]
                    self@.books.contains_key(symbol) ==> fits_i64(self@.books[symbol].total_qty()),
                totals == self@.books.map_values(|b: BookView| b.total_qty()),
                sum == sum_over(o.take(i as int), totals),
                i * i64::MIN <= sum <= i * i64::MAX,
            decreases o.len() - i,
        {
            let (symbol, book) = self.books.at(i);
            assert(o.take(i + 1).drop_last() =~= o.take(i as int));
            assert(o.take(i + 1).last() == symbol@);
            assert(self@.books.contains_key(symbol@));
            sum = sum + book.total_qty().0 as i128;
            i = i + 1;
        }
        assert(o.take(i as int) =~= o);
        Qty(sum as i64)
    }

    /// Size of the cancel-routing index. Equals `resting()` as long as no two
    /// orders share an id; a drift between them means the index is leaking.
    pub fn indexed(&self) -> (r: usize)
        ensures
            r == self@.routes.len(),
    {
        assert(self@.routes.dom() =~= self.order_symbol@.dom());
        self.order_symbol.len()
    }

    /// True if any book is crossed. False after every `apply`.
    pub fn any_crossed(&self) -> (r: bool)
        requires
            self.parts_wf(),
        ensures
            r == self@.any_crossed(),
    {
        let ghost o = self.books.order();
        let mut i: usize = 0;
        while i < self.books.len()
            invariant
                i <= o.len(),
                o == self.books.order(),
                self.books.wf(),
                forall|k: int| 0 <= k < i ==> !self@.books[#[trigger] o[k]].crossed(),
            decreases o.len() - i,
        {
            let (symbol, book) = self.books.at(i);
            assert(self@.books.contains_key(symbol@));
            if book.is_crossed() {
                return true;
            }
            i = i + 1;
        }
        proof {
            self.books.lemma_order();
            assert forall|symbol: Seq<char>| #[trigger]
                self@.books.contains_key(symbol) implies !self@.books[symbol].crossed() by {
                assert(o.to_set().contains(symbol));
                let k = choose|k: int| 0 <= k < o.len() && o[k] == symbol;
                assert(!self@.books[o[k]].crossed());
            }
        }
        false
    }
}

/// Recording trades in one symbol only looks at that symbol.
proof fn lemma_recorded_local(a: MarketView, b: MarketView, trades: Seq<Trade>, symbol: Symbol)
    requires
        a.ledger(symbol@) == b.ledger(symbol@),
        forall|i: int| 0 <= i < trades.len() ==> (#[trigger] trades[i]).symbol == symbol,
    ensures
        recorded(a, trades).ledger(symbol@) == recorded(b, trades).ledger(symbol@),
    decreases trades.len(),
{
    if trades.len() > 0 {
        let front = trades.drop_last();
        assert forall|i: int| 0 <= i < front.len() implies (#[trigger] front[i]).symbol == symbol by {
            assert(front[i] == trades[i]);
        }
        lemma_recorded_local(a, b, front, symbol);
        assert(trades.last() == trades[trades.len() - 1]);
    }
}

/// `sweep_fits`, taken as one fact.
#[verifier::opaque]
spec fn fits_whole(
    s: Sweep,
    taker: Order,
    makers: Seq<Order>,
    volume: int,
    market: MarketView,
) -> bool {
    sweep_fits(s, taker, makers, volume, market)
}

/// The part of `sweep_fits` that concerns the first `n` trades.
#[verifier::opaque]
spec fn fits_so_far(
    s: Sweep,
    taker: Order,
    makers: Seq<Order>,
    volume: int,
    market: MarketView,
    n: int,
) -> bool {
    &&& forall|k: int|
        0 <= k <= n ==> fits_i64(taker.qty.0 - traded(#[trigger] s.trades.take(k))) && fits_i64(
            volume + traded(s.trades.take(k)),
        )
    &&& forall|k: int|
        0 <= k < n ==> fits_i64(makers[k].qty.0 - (#[trigger] s.trades[k]).qty.0) && recorded(
            market,
            s.trades.take(k),
        ).admits(s.trades[k])
}

proof fn lemma_fits_whole(
    s: Sweep,
    taker: Order,
    makers: Seq<Order>,
    volume: int,
    market: MarketView,
)
    ensures
        fits_so_far(s, taker, makers, volume, market, s.trades.len() as int) == fits_whole(
            s,
            taker,
            makers,
            volume,
            market,
        ),
{
    reveal(fits_so_far);
    reveal(fits_whole);
}

/// Whether one trade of a sweep fits, given what was traded before it.
#[verifier::opaque]
spec fn fits_at(
    s: Sweep,
    taker: Order,
    makers: Seq<Order>,
    volume: int,
    market: MarketView,
    n: int,
) -> bool {
    let t = s.trades[n];
    let so_far = traded(s.trades.take(n));
    &&& fits_i64(taker.qty.0 - so_far - t.qty.0)
    &&& fits_i64(volume + so_far + t.qty.0)
    &&& fits_i64(makers[n].qty.0 - t.qty.0)
    &&& recorded(market, s.trades.take(n)).admits(t)
}

proof fn lemma_traded_next(trades: Seq<Trade>, n: int)
    requires
        0 <= n < trades.len(),
    ensures
        traded(trades.take(n + 1)) == traded(trades.take(n)) + trades[n].qty.0,
{
    assert(trades.take(n + 1).drop_last() =~= trades.take(n));
    assert(trades.take(n + 1).last() == trades[n]);
}

/// A trade that fits adds to the part that is known to fit.
#[verifier::spinoff_prover]
proof fn lemma_fits_more(
    s: Sweep,
    taker: Order,
    makers: Seq<Order>,
    volume: int,
    market: MarketView,
    n: int,
)
    requires
        0 <= n < s.trades.len(),
        fits_so_far(s, taker, makers, volume, market, n),
        fits_at(s, taker, makers, volume, market, n),
    ensures
        fits_so_far(s, taker, makers, volume, market, n + 1),
{
    reveal(fits_so_far);
    reveal(fits_at);
    lemma_traded_next(s.trades, n);
    assert forall|k: int| 0 <= k <= n + 1 implies fits_i64(
        taker.qty.0 - traded(#[trigger] s.trades.take(k)),
    ) && fits_i64(volume + traded(s.trades.take(k))) by {}
    assert forall|k: int| 0 <= k < n + 1 implies fits_i64(
        makers[k].qty.0 - (#[trigger] s.trades[k]).qty.0,
    ) && recorded(market, s.trades.take(k)).admits(s.trades[k]) by {}
}

/// A trade that does not fit refutes the whole.
#[verifier::spinoff_prover]
proof fn lemma_fits_not(
    s: Sweep,
    taker: Order,
    makers: Seq<Order>,
    volume: int,
    market: MarketView,
    n: int,
)
    requires
        0 <= n < s.trades.len(),
        !fits_at(s, taker, makers, volume, market, n),
    ensures
        !fits_whole(s, taker, makers, volume, market),
{
    reveal(fits_whole);
    reveal(fits_at);
    lemma_traded_next(s.trades, n);
    if sweep_fits(s, taker, makers, volume, market) {
        assert(fits_i64(taker.qty.0 - traded(s.trades.take(n + 1))));
        assert(fits_i64(makers[n].qty.0 - s.trades[n].qty.0));
    }
}

/// Adds one trade to the part that is known to fit, or refutes the whole.
proof fn lemma_fits_step(
    s: Sweep,
    taker: Order,
    makers: Seq<Order>,
    volume: int,
    market: MarketView,
    n: int,
)
    requires
        0 <= n < s.trades.len(),
        fits_so_far(s, taker, makers, volume, market, n),
    ensures
        ({
            let t = s.trades[n];
            let so_far = traded(s.trades.take(n));
            let fine = fits_i64(taker.qty.0 - so_far - t.qty.0) && fits_i64(
                volume + so_far + t.qty.0,
            ) && fits_i64(makers[n].qty.0 - t.qty.0) && recorded(
                market,
                s.trades.take(n),
            ).admits(t);
            &&& fine ==> fits_so_far(s, taker, makers, volume, market, n + 1)
            &&& !fine ==> !fits_whole(s, taker, makers, volume, market)
        }),
{
    assert(fits_at(s, taker, makers, volume, market, n) == ({
        let t = s.trades[n];
        let so_far = traded(s.trades.take(n));
        fits_i64(taker.qty.0 - so_far - t.qty.0) && fits_i64(volume + so_far + t.qty.0)
            && fits_i64(makers[n].qty.0 - t.qty.0) && recorded(market, s.trades.take(n)).admits(t)
    })) by {
        reveal(fits_at);
    }
    if fits_at(s, taker, makers, volume, market, n) {
        lemma_fits_more(s, taker, makers, volume, market, n);
    } else {
        lemma_fits_not(s, taker, makers, volume, market, n);
    }
}

/// Goes through the trades that an order would make, and says whether every
/// number on the way fits.
#[verifier::spinoff_prover]
#[verifier::rlimit(40)]
fn rehearse(
    book: &OrderBook,
    stats: &Stats,
    market: &MarketState,
    symbol: Symbol,
    taker: Order,
) -> (r: bool)
    requires
        book.wf(),
        market.wf(),
    ensures
        r == ({
            let makers = book@.side(opposite_side(taker.side));
            let s = sweep(symbol, taker, taker.qty.0 as int, makers);
            &&& stats.trades + s.trades.len() <= u64::MAX
            &&& fits_whole(s, taker, makers, stats.volume as int, market@)
        }),
{
    let side = opposite(taker.side);
    let ghost makers = book@.side(side);
    let ghost all = sweep(symbol, taker, taker.qty.0 as int, makers);
    let mut tape = market.excerpt(symbol);
    let ghost tape0 = tape@;
    let ghost mut trades: Seq<Trade> = seq![];
    let mut left: i64 = taker.qty.0;
    let mut volume: i64 = stats.volume;
    let mut count: u64 = stats.trades;
    let mut place: usize = 0;
    proof {
        assert(makers.skip(0) =~= makers);
        assert(trades + all.trades =~= all.trades);
        assert(all.trades.take(0) =~= trades);
        reveal(fits_so_far);
        lemma_fits_whole(all, taker, makers, stats.volume as int, market@);
    }
    loop
        invariant
            side == opposite_side(taker.side),
            makers == book@.side(side),
            all == sweep(symbol, taker, taker.qty.0 as int, makers),
            fits_so_far(
                all,
                taker,
                makers,
                stats.volume as int,
                market@,
                all.trades.len() as int,
            ) == fits_whole(all, taker, makers, stats.volume as int, market@),
            tape.wf(),
            tape0.ledger(symbol@) == market@.ledger(symbol@),
            tape@ == recorded(tape0, trades),
            place <= makers.len(),
            all == ({
                let rest = sweep(symbol, taker, left as int, makers.skip(place as int));
                Sweep { trades: trades + rest.trades, ..rest }
            }),
            trades.len() == place,
            forall|i: int| 0 <= i < trades.len() ==> (#[trigger] trades[i]).symbol == symbol,
            left == taker.qty.0 - traded(trades),
            volume == stats.volume + traded(trades),
            count == stats.trades + trades.len(),
            fits_so_far(all, taker, makers, stats.volume as int, market@, place as int),
        decreases makers.len() - place,
    {
        let next = if left == 0 { None } else { book.order_at(side, place) };
        let best = match next {
            Some(best) => *best,
            None => {
                assert(all.trades =~= trades);
                return true;
            },
        };
        let meets = match taker.side {
            Side::Buy => best.price.0 <= taker.price.0,
            Side::Sell => best.price.0 >= taker.price.0,
        };
        if !meets {
            assert(all.trades =~= trades);
            return true;
        }
        let ghost k = place as int;
        let ghost cur = makers.skip(k);
        let fill = if left <= best.qty.0 { left } else { best.qty.0 };
        let trade = Trade {
            seq: taker.id,
            symbol,
            price: best.price,
            qty: Qty(fill),
            maker_order: best.id,
            maker_account: best.account,
            taker_order: taker.id,
            taker_account: taker.account,
            taker_side: taker.side,
        };
        proof {
            lemma_fill(symbol, taker, left as int, cur, trades, all, fill as int);
            lemma_recorded_local(tape0, market@, trades, symbol);
            lemma_fits_step(all, taker, makers, stats.volume as int, market@, k);
            assert(trades.push(trade).drop_last() =~= trades);
            assert(cur.drop_first() =~= makers.skip(k + 1));
            assert(all.trades[k] == trade);
        }
        if count == u64::MAX || !tape.admits(&trade) || best.qty.0.checked_sub(fill).is_none() {
            return false;
        }
        match (left.checked_sub(fill), volume.checked_add(fill)) {
            (Some(l), Some(v)) => {
                left = l;
                volume = v;
            },
            _ => {
                return false;
            },
        }
        if best.qty.0 != fill {
            // The taker is exhausted: there is nothing after this trade.
            assert(all.trades =~= trades.push(trade));
            return true;
        }
        tape.record(&trade);
        proof {
            trades = trades.push(trade);
        }
        count = count + 1;
        place = place + 1;
    }
}

impl Default for Stats {
    fn default() -> (r: Self)
        ensures
            r@ == StatsView::zero(),
    {
        Stats {
            events: 0,
            new_orders: 0,
            filtered: 0,
            cancels: 0,
            cancels_hit: 0,
            cancels_unknown: 0,
            trades: 0,
            volume: 0,
            cancelled_qty: 0,
        }
    }
}

impl Default for Engine {
    fn default() -> (r: Self)
        ensures
            r.wf(),
            r@ == EngineView::empty(None),
    {
        Engine::new()
    }
}

} // verus!
