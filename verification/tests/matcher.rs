//! Matching, cancelling and routing.

use services::engine::matcher::Engine;
use services::engine::types::{Event, Order, Price, Qty, Symbol};
use services::feed::{OrderId, Side};

const ETH: Symbol = "ETH-USDC";
const BTC: Symbol = "BTC-USDC";

fn new(id: OrderId, symbol: Symbol, account: u32, side: Side, price: i64, qty: i64) -> Event {
    Event::New {
        symbol,
        order: Order {
            id,
            account,
            side,
            price: Price(price),
            qty: Qty(qty),
        },
    }
}

fn cancel(seq: OrderId, account: u32, target_id: OrderId) -> Event {
    Event::Cancel {
        seq,
        account,
        target_id,
    }
}

#[test]
fn an_order_with_nothing_to_cross_just_rests() {
    let mut e = Engine::new();
    let trades = e.apply(&new(1, ETH, 1, Side::Buy, 10000, 50));
    assert!(trades.is_empty());
    assert_eq!(e.resting(), 1);
    assert_eq!(e.book(ETH).unwrap().best_bid(), Some(Price(10000)));
}

#[test]
fn an_exact_cross_trades_and_empties_the_book() {
    let mut e = Engine::new();
    e.apply(&new(1, ETH, 1, Side::Sell, 10000, 50));
    let trades = e.apply(&new(2, ETH, 2, Side::Buy, 10000, 50));
    assert_eq!(trades.len(), 1);
    assert_eq!(trades[0].qty, Qty(50));
    assert_eq!(trades[0].maker_order, 1);
    assert_eq!(trades[0].taker_order, 2);
    assert!(e.book(ETH).unwrap().is_empty());
    assert_eq!(e.indexed(), 0);
}

#[test]
fn the_aggressor_takes_the_resting_price() {
    let mut e = Engine::new();
    // Resting ask at 100.00; an aggressive buy willing to pay 101.00.
    e.apply(&new(1, ETH, 1, Side::Sell, 10000, 50));
    let trades = e.apply(&new(2, ETH, 2, Side::Buy, 10100, 50));
    assert_eq!(trades.len(), 1);
    // Trades at the maker's 100.00, not the taker's 101.00.
    assert_eq!(trades[0].price, Price(10000));
    assert_eq!(trades[0].taker_side, Side::Buy);
}

#[test]
fn a_partial_fill_leaves_an_exact_remainder() {
    let mut e = Engine::new();
    e.apply(&new(1, ETH, 1, Side::Sell, 10000, 50)); // resting 5.0
    let trades = e.apply(&new(2, ETH, 2, Side::Buy, 10000, 31)); // takes 3.1
    assert_eq!(trades.len(), 1);
    assert_eq!(trades[0].qty, Qty(31));
    // 5.0 - 3.1 = 1.9 exactly. Under f64 this is 1.9000000000000004 and
    // the order would never leave the book.
    let book = e.book(ETH).unwrap();
    assert_eq!(book.best_order(Side::Sell).unwrap().qty, Qty(19));
    assert_eq!(e.resting(), 1);
}

#[test]
fn an_unfilled_remainder_of_the_aggressor_rests() {
    let mut e = Engine::new();
    e.apply(&new(1, ETH, 1, Side::Sell, 10000, 20));
    let trades = e.apply(&new(2, ETH, 2, Side::Buy, 10000, 50));
    assert_eq!(trades.len(), 1);
    assert_eq!(trades[0].qty, Qty(20));
    // 3.0 of the buy is left over and becomes the new best bid.
    let book = e.book(ETH).unwrap();
    assert_eq!(book.best_bid(), Some(Price(10000)));
    assert_eq!(book.best_order(Side::Buy).unwrap().qty, Qty(30));
}

#[test]
fn equal_prices_fill_in_arrival_order() {
    let mut e = Engine::new();
    e.apply(&new(1, ETH, 1, Side::Sell, 10000, 10));
    e.apply(&new(2, ETH, 2, Side::Sell, 10000, 10));
    let trades = e.apply(&new(3, ETH, 3, Side::Buy, 10000, 10));
    assert_eq!(trades.len(), 1);
    // Order 1 arrived first, so it fills first.
    assert_eq!(trades[0].maker_order, 1);
}

#[test]
fn one_order_sweeps_several_levels_best_price_first() {
    let mut e = Engine::new();
    e.apply(&new(1, ETH, 1, Side::Sell, 10200, 10));
    e.apply(&new(2, ETH, 2, Side::Sell, 10000, 10));
    e.apply(&new(3, ETH, 3, Side::Sell, 10100, 10));
    let trades = e.apply(&new(4, ETH, 4, Side::Buy, 10200, 30));

    assert_eq!(trades.len(), 3);
    // Cheapest ask consumed first, then the next.
    assert_eq!(
        trades.iter().map(|t| t.price).collect::<Vec<_>>(),
        vec![Price(10000), Price(10100), Price(10200)]
    );
    assert_eq!(trades.iter().map(|t| t.qty.0).sum::<i64>(), 30);
    assert!(e.book(ETH).unwrap().is_empty());
}

#[test]
fn a_non_crossing_order_does_not_trade() {
    let mut e = Engine::new();
    e.apply(&new(1, ETH, 1, Side::Sell, 10100, 10));
    let trades = e.apply(&new(2, ETH, 2, Side::Buy, 10000, 10));
    assert!(trades.is_empty());
    assert_eq!(e.resting(), 2);
    assert!(!e.any_crossed());
}

#[test]
fn the_book_is_never_crossed_after_apply() {
    let mut e = Engine::new();
    for (i, (side, price, qty)) in [
        (Side::Buy, 10000, 50),
        (Side::Sell, 9900, 30),
        (Side::Buy, 10100, 40),
        (Side::Sell, 9800, 90),
    ]
    .into_iter()
    .enumerate()
    {
        e.apply(&new(i as u64 + 1, ETH, 1, side, price, qty));
        assert!(!e.any_crossed(), "crossed after event {}", i + 1);
    }
}

#[test]
fn self_trades_are_allowed() {
    let mut e = Engine::new();
    e.apply(&new(1, ETH, 7, Side::Sell, 10000, 50));
    let trades = e.apply(&new(2, ETH, 7, Side::Buy, 10000, 50));
    assert_eq!(trades.len(), 1);
    assert_eq!(trades[0].maker_account, 7);
    assert_eq!(trades[0].taker_account, 7);
}

#[test]
fn a_cancel_removes_a_resting_order() {
    let mut e = Engine::new();
    e.apply(&new(1, ETH, 1, Side::Buy, 10000, 50));
    let trades = e.apply(&cancel(2, 1, 1));
    assert!(trades.is_empty());
    assert_eq!(e.resting(), 0);
    assert_eq!(e.stats.cancels_hit, 1);
    assert_eq!(e.stats.cancels_unknown, 0);
}

#[test]
fn a_cancel_for_an_order_that_never_existed_is_a_no_op() {
    let mut e = Engine::new();
    e.apply(&new(1, ETH, 1, Side::Buy, 10000, 50));
    let trades = e.apply(&cancel(2, 1, 9999));
    assert!(trades.is_empty());
    assert_eq!(e.resting(), 1);
    assert_eq!(e.stats.cancels_unknown, 1);
}

#[test]
fn a_cancel_for_an_already_filled_order_is_a_no_op() {
    let mut e = Engine::new();
    e.apply(&new(1, ETH, 1, Side::Sell, 10000, 50));
    e.apply(&new(2, ETH, 2, Side::Buy, 10000, 50)); // order 1 is now gone
    let trades = e.apply(&cancel(3, 1, 1));
    assert!(trades.is_empty());
    assert_eq!(e.stats.cancels_unknown, 1);
    assert_eq!(e.stats.cancels_hit, 0);
}

#[test]
fn an_order_that_fills_on_arrival_is_never_indexed() {
    let mut e = Engine::new();
    e.apply(&new(1, ETH, 1, Side::Sell, 10000, 50));
    // Order 2 fills completely on arrival, so it never rests.
    e.apply(&new(2, ETH, 2, Side::Buy, 10000, 50));
    assert_eq!(e.indexed(), 0);
    // A cancel for it therefore takes the unknown branch, not a misroute.
    e.apply(&cancel(3, 2, 2));
    assert_eq!(e.stats.cancels_unknown, 1);
}

#[test]
fn cancel_ownership_is_not_enforced() {
    let mut e = Engine::new();
    e.apply(&new(1, ETH, 1, Side::Buy, 10000, 50));
    // Account 99 cancels account 1's order. The feed permits this and so
    // do we; the account is recorded, never checked.
    e.apply(&cancel(2, 99, 1));
    assert_eq!(e.stats.cancels_hit, 1);
    assert_eq!(e.resting(), 0);
}

#[test]
fn symbols_do_not_match_against_each_other() {
    let mut e = Engine::new();
    e.apply(&new(1, BTC, 1, Side::Sell, 10000, 50));
    let trades = e.apply(&new(2, ETH, 2, Side::Buy, 10000, 50));
    assert!(trades.is_empty(), "an ETH order matched against BTC");
    assert_eq!(e.resting(), 2);
}

#[test]
fn a_cancel_routes_to_the_right_book() {
    let mut e = Engine::new();
    e.apply(&new(1, BTC, 1, Side::Buy, 10000, 50));
    e.apply(&new(2, ETH, 1, Side::Buy, 10000, 50));
    e.apply(&cancel(3, 1, 1));
    assert_eq!(e.stats.cancels_hit, 1);
    assert!(e.book(BTC).unwrap().is_empty());
    assert_eq!(e.book(ETH).unwrap().len(), 1, "cancelled the wrong book");
}

#[test]
fn the_symbol_filter_ignores_other_symbols() {
    let mut e = Engine::only(ETH);
    e.apply(&new(1, BTC, 1, Side::Buy, 10000, 50));
    e.apply(&new(2, ETH, 1, Side::Buy, 10000, 50));
    assert_eq!(e.stats.filtered, 1);
    assert_eq!(e.stats.new_orders, 1);
    assert_eq!(e.resting(), 1);
    // The filtered order was never indexed, so its cancel is unknown.
    e.apply(&cancel(3, 1, 1));
    assert_eq!(e.stats.cancels_unknown, 1);
}

#[test]
fn the_routing_index_never_drifts_from_the_resting_count() {
    let mut e = Engine::new();
    let events = [
        new(1, ETH, 1, Side::Buy, 10000, 50),
        new(2, ETH, 2, Side::Sell, 10000, 20),
        new(3, BTC, 3, Side::Sell, 99000, 40),
        cancel(4, 1, 1),
        new(5, ETH, 4, Side::Sell, 9900, 70),
        new(6, ETH, 5, Side::Buy, 9900, 70),
        cancel(7, 3, 3),
        cancel(8, 9, 12345),
    ];
    for ev in &events {
        e.apply(ev);
        assert_eq!(
            e.indexed(),
            e.resting(),
            "index drifted from the book after #{}",
            ev.seq()
        );
        assert!(!e.any_crossed(), "crossed after #{}", ev.seq());
    }
}

#[test]
fn every_filled_unit_appears_in_exactly_one_trade() {
    let mut e = Engine::new();
    let events = [
        new(1, ETH, 1, Side::Sell, 10000, 30),
        new(2, ETH, 2, Side::Sell, 10100, 40),
        new(3, ETH, 3, Side::Buy, 10200, 100),
        new(4, ETH, 4, Side::Sell, 10000, 25),
    ];
    let mut traded = 0i64;
    let mut submitted = 0i64;
    for ev in &events {
        if let Event::New { order, .. } = ev {
            submitted += order.qty.0;
        }
        traded += e.apply(ev).iter().map(|t| t.qty.0).sum::<i64>();
    }
    // Each trade consumes one unit from each side, so submitted quantity
    // equals resting quantity plus twice the traded quantity.
    let resting: i64 = e
        .book("ETH-USDC")
        .unwrap()
        .depth(100)
        .0
        .iter()
        .chain(e.book("ETH-USDC").unwrap().depth(100).1.iter())
        .map(|(_, q)| q.0)
        .sum();
    assert_eq!(submitted, resting + 2 * traded);
    assert_eq!(traded, e.stats.volume);
}
