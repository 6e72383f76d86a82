//! The order book.

use services::engine::book::OrderBook;
use services::engine::types::{Order, Price, Qty};
use services::feed::{OrderId, Side};

fn order(id: OrderId, side: Side, price: i64, qty: i64) -> Order {
    Order {
        id,
        account: 1,
        side,
        price: Price(price),
        qty: Qty(qty),
    }
}

#[test]
fn an_inserted_order_rests_and_sets_the_best_price() {
    let mut book = OrderBook::new();
    book.insert(order(1, Side::Buy, 10000, 50));
    assert_eq!(book.best_bid(), Some(Price(10000)));
    assert_eq!(book.best_ask(), None);
    assert_eq!(book.len(), 1);
}

#[test]
fn best_bid_is_the_highest_and_best_ask_the_lowest() {
    let mut book = OrderBook::new();
    book.insert(order(1, Side::Buy, 9900, 10));
    book.insert(order(2, Side::Buy, 10100, 10));
    book.insert(order(3, Side::Buy, 10000, 10));
    book.insert(order(4, Side::Sell, 10500, 10));
    book.insert(order(5, Side::Sell, 10300, 10));
    book.insert(order(6, Side::Sell, 10400, 10));
    assert_eq!(book.best_bid(), Some(Price(10100)));
    assert_eq!(book.best_ask(), Some(Price(10300)));
}

#[test]
fn orders_at_the_same_price_keep_arrival_order() {
    let mut book = OrderBook::new();
    book.insert(order(7, Side::Buy, 10000, 10));
    book.insert(order(8, Side::Buy, 10000, 10));
    book.insert(order(9, Side::Buy, 10000, 10));
    // Lowest id arrived first, so it is at the front.
    assert_eq!(book.best_order(Side::Buy).unwrap().id, 7);
    book.reduce_best(Side::Buy, Qty(10));
    assert_eq!(book.best_order(Side::Buy).unwrap().id, 8);
}

#[test]
fn a_better_price_outranks_an_earlier_arrival() {
    let mut book = OrderBook::new();
    book.insert(order(1, Side::Buy, 10000, 10));
    book.insert(order(2, Side::Buy, 10100, 10));
    assert_eq!(book.best_order(Side::Buy).unwrap().id, 2);
}

#[test]
fn cancel_removes_a_resting_order() {
    let mut book = OrderBook::new();
    book.insert(order(1, Side::Buy, 10000, 50));
    assert!(book.cancel(1).is_some());
    assert!(book.is_empty());
    assert_eq!(book.best_bid(), None);
}

#[test]
fn cancel_for_an_unknown_order_is_a_no_op() {
    let mut book = OrderBook::new();
    book.insert(order(1, Side::Buy, 10000, 50));
    assert!(book.cancel(9999).is_none());
    assert_eq!(book.len(), 1);
}

#[test]
fn cancel_twice_reports_false_the_second_time() {
    let mut book = OrderBook::new();
    book.insert(order(1, Side::Buy, 10000, 50));
    assert!(book.cancel(1).is_some());
    assert!(book.cancel(1).is_none());
}

#[test]
fn cancel_returns_the_unfilled_remainder() {
    let mut book = OrderBook::new();
    book.insert(order(1, Side::Sell, 10000, 50));
    book.reduce_best(Side::Sell, Qty(31));
    // 1.9 was still resting when the cancel arrived; that quantity left
    // the book without ever trading.
    let removed = book.cancel(1).expect("order should be resting");
    assert_eq!(removed.qty, Qty(19));
}

#[test]
fn cancelling_the_last_order_at_a_price_drops_the_level() {
    let mut book = OrderBook::new();
    book.insert(order(1, Side::Buy, 10000, 10));
    book.insert(order(2, Side::Buy, 9900, 10));
    book.cancel(1);
    assert_eq!(book.best_bid(), Some(Price(9900)));
}

#[test]
fn reduce_best_takes_a_partial_fill_and_leaves_the_remainder() {
    let mut book = OrderBook::new();
    book.insert(order(1, Side::Sell, 10000, 50));
    let maker = book.reduce_best(Side::Sell, Qty(31)).unwrap();
    // The snapshot reports the pre-fill state.
    assert_eq!(maker.qty, Qty(50));
    assert_eq!(book.best_order(Side::Sell).unwrap().qty, Qty(19));
    assert_eq!(book.len(), 1);
}

#[test]
fn reduce_best_removes_an_exhausted_order_and_deindexes_it() {
    let mut book = OrderBook::new();
    book.insert(order(1, Side::Sell, 10000, 50));
    book.reduce_best(Side::Sell, Qty(50));
    assert!(book.is_empty());
    assert_eq!(book.best_ask(), None);
    // Deindexed, so a later cancel takes the no-op path.
    assert!(book.cancel(1).is_none());
}

#[test]
fn is_crossed_detects_a_crossed_book() {
    let mut book = OrderBook::new();
    book.insert(order(1, Side::Buy, 10100, 10));
    assert!(!book.is_crossed());
    book.insert(order(2, Side::Sell, 10000, 10));
    // The book stores this happily; resolving it is the matcher's job.
    assert!(book.is_crossed());
}

#[test]
fn depth_aggregates_quantity_per_level_best_first() {
    let mut book = OrderBook::new();
    book.insert(order(1, Side::Buy, 10000, 10));
    book.insert(order(2, Side::Buy, 10000, 25));
    book.insert(order(3, Side::Buy, 9900, 5));
    book.insert(order(4, Side::Sell, 10200, 7));
    book.insert(order(5, Side::Sell, 10300, 8));
    let (bids, asks) = book.depth(2);
    assert_eq!(bids, vec![(Price(10000), Qty(35)), (Price(9900), Qty(5))]);
    assert_eq!(asks, vec![(Price(10200), Qty(7)), (Price(10300), Qty(8))]);
}

#[test]
fn the_length_is_that_of_the_queues() {
    let mut book = OrderBook::new();
    for id in 1..=6 {
        assert_eq!(book.len() as u64, id - 1);
        let side = if id % 2 == 0 { Side::Buy } else { Side::Sell };
        book.insert(order(id, side, 10000 + id as i64 * 10, 10));
    }
    book.cancel(2);
    book.reduce_best(Side::Sell, Qty(10));
    book.reduce_best(Side::Sell, Qty(4));
    assert_eq!(book.len(), 4);
    let queued = |side| (0..).take_while(|i| book.order_at(side, *i).is_some()).count();
    assert_eq!(queued(Side::Buy) + queued(Side::Sell), 4);
    assert!(!book.is_empty());
}
