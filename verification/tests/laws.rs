//! The engine's laws on concrete runs.

use services::engine::matcher::{Engine, Stats};
use services::engine::types::{Event, Order, Price, Qty, Symbol, Trade};
use services::feed::{OrderId, Side};

const ETH: Symbol = "ETH-USDC";
const BTC: Symbol = "BTC-USDC";

fn new(id: OrderId, symbol: Symbol, account: u32, side: Side, price: i64, qty: i64) -> Event {
    Event::New {
        symbol,
        order: Order {
            id,
            account,
            side,
            price: Price(price),
            qty: Qty(qty),
        },
    }
}

fn cancel(seq: OrderId, account: u32, target_id: OrderId) -> Event {
    Event::Cancel {
        seq,
        account,
        target_id,
    }
}

/// Everything about an engine that can be read from outside.
fn picture(e: &Engine) -> (Stats, Vec<(Symbol, usize, Option<Price>, Option<Price>, Qty)>, usize) {
    let mut books: Vec<_> = e
        .symbols()
        .into_iter()
        .map(|s| {
            let b = e.book(s).unwrap();
            (s, b.len(), b.best_bid(), b.best_ask(), b.total_qty())
        })
        .collect();
    books.sort();
    (e.stats.clone(), books, e.indexed())
}

fn run(events: &[Event]) -> Engine {
    let mut e = Engine::new();
    for ev in events {
        assert!(e.admits(ev));
        e.apply(ev);
    }
    e
}

#[test]
fn resuming_gives_what_a_straight_run_gives() {
    let events = [
        new(1, ETH, 1, Side::Buy, 10000, 50),
        new(2, ETH, 2, Side::Sell, 9900, 20),
        new(3, BTC, 3, Side::Sell, 99000, 40),
        cancel(4, 1, 1),
    ];
    let whole = run(&events);
    for cut in 0..events.len() {
        let mut e = run(&events[..cut]);
        for ev in &events[cut..] {
            e.apply(ev);
        }
        assert_eq!(picture(&e), picture(&whole));
    }
}

#[test]
fn a_sweep_uses_up_each_maker_before_the_next() {
    let mut e = Engine::new();
    e.apply(&new(1, ETH, 1, Side::Sell, 10100, 10));
    e.apply(&new(2, ETH, 2, Side::Sell, 10000, 10));
    e.apply(&new(3, ETH, 3, Side::Sell, 10000, 15));
    e.apply(&new(4, ETH, 4, Side::Sell, 10300, 99));
    let trades = e.apply(&new(5, ETH, 5, Side::Buy, 10200, 32));
    let seen: Vec<(OrderId, i64, i64)> =
        trades.iter().map(|t| (t.maker_order, t.price.0, t.qty.0)).collect();
    assert_eq!(seen, vec![(2, 10000, 10), (3, 10000, 15), (1, 10100, 7)]);
    // What is left of the last maker keeps its place.
    assert_eq!(e.book(ETH).unwrap().best_order(Side::Sell).unwrap().qty, Qty(3));
    assert!(trades.iter().all(|t| t.taker_order == 5 && t.seq == 5 && t.price.0 <= 10200));
}

#[test]
fn a_sell_sweeps_the_bids_from_the_top() {
    let mut e = Engine::new();
    e.apply(&new(1, ETH, 1, Side::Buy, 9900, 10));
    e.apply(&new(2, ETH, 2, Side::Buy, 10000, 10));
    let trades = e.apply(&new(3, ETH, 3, Side::Sell, 9900, 25));
    let prices: Vec<i64> = trades.iter().map(|t| t.price.0).collect();
    assert_eq!(prices, vec![10000, 9900]);
    assert_eq!(e.book(ETH).unwrap().best_order(Side::Sell).unwrap().qty, Qty(5));
}

#[test]
fn every_unit_is_resting_traded_or_cancelled() {
    let events = [
        new(1, ETH, 1, Side::Sell, 10000, 30),
        new(2, ETH, 2, Side::Buy, 10000, 12),
        new(3, BTC, 2, Side::Buy, 99000, 7),
        cancel(4, 9, 1),
        cancel(5, 9, 1),
    ];
    let e = run(&events);
    assert_eq!(e.stats.volume, 12);
    assert_eq!(e.stats.cancelled_qty, 18);
    assert_eq!(e.resting_qty(), Qty(7));
    assert_eq!(30 + 12 + 7, 7 + 2 * 12 + 18);
}

#[test]
fn a_cancel_undoes_an_order_that_did_not_trade() {
    let base = [
        new(1, ETH, 1, Side::Buy, 10000, 50),
        new(2, ETH, 2, Side::Buy, 9900, 20),
    ];
    let before = run(&base);
    let mut after = run(&base);
    after.apply(&new(3, ETH, 3, Side::Buy, 10000, 70));
    assert_eq!(after.symbol_of(3), Some(ETH));
    after.apply(&cancel(4, 3, 3));
    assert_eq!(after.symbol_of(3), None);
    assert_eq!(picture(&before).1, picture(&after).1);
    assert_eq!(before.indexed(), after.indexed());
    assert_eq!(after.stats.cancelled_qty, 70);
}

#[test]
fn a_second_cancel_misses() {
    let mut e = run(&[new(1, ETH, 1, Side::Buy, 10000, 50)]);
    e.apply(&cancel(2, 1, 1));
    e.apply(&cancel(3, 1, 1));
    assert_eq!((e.stats.cancels, e.stats.cancels_hit, e.stats.cancels_unknown), (3 - 1, 1, 1));
    assert_eq!(e.stats.cancelled_qty, 50);
}

#[test]
fn who_cancels_makes_no_difference() {
    let base = [new(1, ETH, 1, Side::Buy, 10000, 50)];
    let mut a = run(&base);
    let mut b = run(&base);
    a.apply(&cancel(2, 1, 1));
    b.apply(&cancel(77, 99, 1));
    assert_eq!(picture(&a), picture(&b));
}

#[test]
fn an_order_in_one_symbol_leaves_the_other_books_alone() {
    let mut e = run(&[new(1, BTC, 1, Side::Buy, 99000, 50)]);
    e.apply(&new(2, ETH, 2, Side::Sell, 1, 50));
    let btc = e.book(BTC).unwrap();
    assert_eq!((btc.len(), btc.best_bid(), btc.best_ask()), (1, Some(Price(99000)), None));
}

#[test]
fn positions_follow_the_trades() {
    let e = run(&[
        new(1, ETH, 1, Side::Sell, 10000, 50),
        new(2, ETH, 2, Side::Buy, 10000, 20),
        new(3, ETH, 1, Side::Buy, 10000, 5),
    ]);
    // Account 1 sold 20 to account 2, then 5 to itself.
    assert_eq!(e.market.position(1, ETH), -20);
    assert_eq!(e.market.position(2, ETH), 20);
    assert_eq!(e.market.net_position(), 0);
    let s = e.market.symbol(ETH).unwrap();
    assert_eq!((s.trades, s.volume, s.notional), (2, 25, 250_000));
    assert_eq!(s.vwap(), Some(Price(10000)));
    let names: Vec<Symbol> = e.market.symbols().iter().map(|(s, _)| *s).collect();
    assert_eq!(names, vec![ETH]);
}

#[test]
fn ties_in_size_rank_by_account() {
    let e = run(&[
        new(1, ETH, 9, Side::Sell, 10000, 20),
        new(2, ETH, 4, Side::Buy, 10000, 20),
        new(3, BTC, 4, Side::Sell, 99000, 20),
        new(4, BTC, 7, Side::Buy, 99000, 20),
    ]);
    let top = e.market.top_positions(10);
    assert_eq!(
        top,
        vec![
            (4, BTC, Qty(-20)),
            (4, ETH, Qty(20)),
            (7, BTC, Qty(20)),
            (9, ETH, Qty(-20)),
        ]
    );
    assert_eq!(e.market.top_positions(2).len(), 2);
    assert!(e.market.top_positions(0).is_empty());
}

#[test]
fn an_order_of_no_quantity_does_nothing() {
    let mut e = run(&[new(1, ETH, 1, Side::Sell, 10000, 50)]);
    let trades: Vec<Trade> = e.apply(&new(2, ETH, 2, Side::Buy, 10000, 0));
    assert!(trades.is_empty());
    assert_eq!(e.resting(), 1);
    assert_eq!(e.symbol_of(2), None);
}

#[test]
fn what_would_not_fit_is_announced() {
    let mut e = run(&[new(1, ETH, 1, Side::Sell, i64::MAX, 2)]);
    let big = new(2, ETH, 2, Side::Buy, i64::MAX, 2);
    // Price times quantity is beyond 64 bits.
    assert!(!e.admits(&big));
    // One unit of it is not.
    let small = new(2, ETH, 2, Side::Buy, i64::MAX, 1);
    assert!(e.admits(&small));
    assert_eq!(e.apply(&small).len(), 1);
    assert_eq!(e.market.symbol(ETH).unwrap().notional, i64::MAX);
    // The next one would take the sum over the edge.
    assert!(!e.admits(&new(3, ETH, 2, Side::Buy, i64::MAX, 1)));
    assert!(e.admits(&cancel(4, 1, 1)));
}

#[test]
fn counters_that_are_full_admit_nothing() {
    let mut e = Engine::new();
    e.stats.events = u64::MAX;
    assert!(!e.admits(&cancel(1, 1, 1)));
    e.stats.events = 0;
    e.stats.cancels_unknown = u64::MAX;
    assert!(!e.admits(&cancel(1, 1, 1)));
    assert!(e.admits(&new(1, ETH, 1, Side::Buy, 1, 1)));
}

#[test]
fn levels_add_up_to_the_book() {
    let e = run(&[
        new(1, ETH, 1, Side::Buy, 10000, 10),
        new(2, ETH, 1, Side::Buy, 9900, 20),
        new(3, ETH, 1, Side::Buy, 10000, 30),
        new(4, ETH, 1, Side::Sell, 10100, 5),
    ]);
    let book = e.book(ETH).unwrap();
    let (bids, asks) = book.depth(10);
    assert_eq!(bids, vec![(Price(10000), Qty(40)), (Price(9900), Qty(20))]);
    assert_eq!(asks, vec![(Price(10100), Qty(5))]);
    assert_eq!(book.total_qty(), Qty(65));
    assert_eq!(book.depth(1).0.len(), 1);
    assert!(book.depth(0).0.is_empty());
    assert_eq!(book.depth_wide(1).0, vec![(Price(10000), 40i128)]);
}

#[test]
fn empty_things_are_empty() {
    let e = Engine::default();
    assert_eq!((e.resting(), e.indexed(), e.resting_qty()), (0, 0, Qty(0)));
    assert!(e.symbols().is_empty());
    assert!(e.market.top_positions(4).is_empty());
    assert_eq!(e.market.net_position(), 0);
    assert!(e.market.symbols().is_empty());
    assert_eq!(e.symbol_of(1), None);
}
