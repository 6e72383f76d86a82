//! The plain renderer's lines.

use services::engine::matcher::Engine;
use services::engine::types::{Event, Order, Price, Qty, Symbol};
use services::feed::{OrderId, Side};
use services::runner::names::sorted_symbols;
use services::runner::report::{
    fmt_price, fmt_vwap, message_line, side_label, snapshot, trade_line, Line,
};

const ETH: Symbol = "ETH-USDC";
const BTC: Symbol = "BTC-USDC";
const NEX: Symbol = "NEX-USDC";

fn new(id: OrderId, symbol: Symbol, account: u32, side: Side, price: i64, qty: i64) -> Event {
    Event::New {
        symbol,
        order: Order {
            id,
            account,
            side,
            price: Price(price),
            qty: Qty(qty),
        },
    }
}

fn texts(lines: &[Line]) -> Vec<&str> {
    lines.iter().map(|l| l.text.as_str()).collect()
}

#[test]
fn a_new_order_is_one_row() {
    let e = Engine::new();
    assert_eq!(
        message_line(&e, &new(42, ETH, 3, Side::Buy, 10025, 50)),
        format!(
            "#{:>6} | NEW    | {:<8} | acct {:>3} | {:<4} | {:>9} x {:>5}",
            42, ETH, 3, "BUY", "100.25", "5.0"
        )
    );
    assert_eq!(
        message_line(&e, &new(1234567, ETH, 3000, Side::Sell, -5, -12)),
        "#1234567 | NEW    | ETH-USDC | acct 3000 | SELL |     -0.05 x  -1.2"
    );
}

#[test]
fn a_cancel_row_says_whether_it_will_hit() {
    let mut e = Engine::new();
    e.apply(&new(42, ETH, 3, Side::Buy, 10025, 50));
    let hit = Event::Cancel { seq: 57, account: 3, target_id: 42 };
    assert_eq!(
        message_line(&e, &hit),
        format!(
            "#{:>6} | CANCEL | {:<8} | acct {:>3} | -> #{:<6} {:>16}",
            57, ETH, 3, 42, "[hit]"
        )
    );
    let miss = Event::Cancel { seq: 58, account: 3, target_id: 7 };
    assert_eq!(
        message_line(&e, &miss),
        format!(
            "#{:>6} | CANCEL | {:<8} | acct {:>3} | -> #{:<6} {:>16}",
            58, "?", 3, 7, "[unknown]"
        )
    );
}

#[test]
fn a_trade_row_names_both_sides() {
    let mut e = Engine::new();
    e.apply(&new(1, ETH, 7, Side::Sell, 9910, 50));
    let trades = e.apply(&new(2, ETH, 9, Side::Buy, 10100, 31));
    assert_eq!(
        trade_line(&trades[0]),
        "        +- TRADE | ETH-USDC | maker #1 a7 <- taker #2 a9 | 99.10 x 3.1"
    );
}

#[test]
fn labels_and_dashes() {
    assert_eq!(side_label(Side::Buy), "BUY");
    assert_eq!(side_label(Side::Sell), "SELL");
    assert_eq!(fmt_price(None), "-");
    assert_eq!(fmt_price(Some(Price(996))), "9.96");
}

#[test]
fn an_average_drops_the_fraction_of_a_cent() {
    let mut e = Engine::new();
    e.apply(&new(1, ETH, 1, Side::Sell, 10000, 20));
    e.apply(&new(2, ETH, 1, Side::Sell, 10001, 10));
    e.apply(&new(3, ETH, 2, Side::Buy, 10001, 30));
    // (10000 * 20 + 10001 * 10) / 30 is 10000 and a third.
    assert_eq!(fmt_vwap(e.market.symbol(ETH).unwrap()), "100.00");
}

#[test]
fn symbols_are_listed_in_dictionary_order() {
    let mut e = Engine::new();
    e.apply(&new(1, NEX, 1, Side::Sell, 1000, 20));
    e.apply(&new(2, ETH, 1, Side::Sell, 10000, 20));
    e.apply(&new(3, BTC, 1, Side::Sell, 100000, 20));
    assert_eq!(sorted_symbols(&e), vec![BTC, ETH, NEX]);
    assert!(sorted_symbols(&Engine::new()).is_empty());
}

#[test]
fn a_snapshot_of_an_empty_engine() {
    let rule = "-".repeat(84);
    assert_eq!(
        texts(&snapshot(&Engine::new(), 0, 0)),
        vec![
            rule.as_str(),
            "cursor=0 msgs=0 new=0 filtered=0 cancels=0 (hit 0 / unknown 0) skipped=0",
            "trades=0 volume=0.0 cancelled=0.0 resting=0 indexed=0 net_position=0.0",
            rule.as_str(),
        ]
    );
}

#[test]
fn a_snapshot_shows_each_symbol_its_levels_and_the_positions() {
    let mut e = Engine::new();
    e.apply(&new(1, ETH, 13, Side::Sell, 10000, 50));
    e.apply(&new(2, ETH, 1, Side::Buy, 10000, 20));
    e.apply(&new(3, ETH, 2, Side::Buy, 9900, 15));
    e.apply(&new(4, ETH, 2, Side::Buy, 9900, 5));
    e.apply(&new(5, ETH, 2, Side::Buy, 9800, 5));
    e.apply(&new(6, ETH, 2, Side::Buy, 9700, 5));
    e.apply(&new(7, ETH, 2, Side::Buy, 9600, 5));
    e.apply(&new(8, BTC, 4, Side::Buy, 98303, 10));
    e.apply(&Event::Cancel { seq: 9, account: 2, target_id: 7 });
    e.apply(&Event::Cancel { seq: 10, account: 2, target_id: 700 });
    let lines = snapshot(&e, 10, 2);
    let rule = "-".repeat(84);
    let eth = format!(
        "  {:<8}  last {:>9}  vwap {:>9}  hi {:>9}  lo {:>9}  vol {:>7} ({} trades)",
        ETH, "100.00", "100.00", "100.00", "100.00", "2.0", 1
    );
    let row = |bid: &str, ask: &str| format!("            {:>11} | {:<11}", bid, ask);
    let (btc_row, first, second, third) = (
        row("983.03 x 1.0", ""),
        row("99.00 x 2.0", "100.00 x 3.0"),
        row("98.00 x 0.5", ""),
        row("97.00 x 0.5", ""),
    );
    assert_eq!(
        texts(&lines),
        vec![
            rule.as_str(),
            "cursor=10 msgs=10 new=8 filtered=0 cancels=2 (hit 1 / unknown 1) skipped=2",
            "trades=1 volume=2.0 cancelled=0.5 resting=6 indexed=6 net_position=0.0",
            "  BTC-USDC  (no trades yet)",
            btc_row.as_str(),
            eth.as_str(),
            first.as_str(),
            second.as_str(),
            third.as_str(),
            "  positions: a1 ETH-USDC +2.0  |  a13 ETH-USDC -2.0",
            rule.as_str(),
        ]
    );
    assert!(lines.iter().all(|l| !l.problem));
}

#[test]
fn orders_that_share_an_id_drift_the_index_and_are_complained_about() {
    let mut e = Engine::new();
    e.apply(&new(1, ETH, 1, Side::Buy, 100, 10));
    e.apply(&new(1, BTC, 1, Side::Buy, 100, 10));
    let lines = snapshot(&e, 1, 0);
    let problems: Vec<&str> =
        lines.iter().filter(|l| l.problem).map(|l| l.text.as_str()).collect();
    assert_eq!(problems, vec!["  !! INVARIANT VIOLATED: routing index drifted from the books"]);
}
