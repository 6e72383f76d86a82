//! The tape statistics and the positions.

use services::engine::market::{MarketState, SymbolState};
use services::engine::types::{Price, Qty, Symbol, Trade};
use services::feed::Side;

const ETH: Symbol = "ETH-USDC";
const BTC: Symbol = "BTC-USDC";

fn trade(symbol: Symbol, price: i64, qty: i64, maker: u32, taker: u32, side: Side) -> Trade {
    Trade {
        seq: 1,
        symbol,
        price: Price(price),
        qty: Qty(qty),
        maker_order: 1,
        maker_account: maker,
        taker_order: 2,
        taker_account: taker,
        taker_side: side,
    }
}

#[test]
fn records_last_high_low_and_volume() {
    let mut m = MarketState::new();
    m.record(&trade(ETH, 10000, 50, 1, 2, Side::Buy));
    m.record(&trade(ETH, 10200, 30, 1, 2, Side::Buy));
    m.record(&trade(ETH, 9900, 20, 1, 2, Side::Sell));

    let s = m.symbol(ETH).unwrap();
    assert_eq!(s.trades, 3);
    assert_eq!(s.volume, 100);
    assert_eq!(s.last, Some(Price(9900)));
    assert_eq!(s.high, Some(Price(10200)));
    assert_eq!(s.low, Some(Price(9900)));
}

#[test]
fn vwap_is_weighted_by_quantity_not_trade_count() {
    let mut m = MarketState::new();
    // 9.0 at 100.00 and 1.0 at 200.00 -> 110.00, not the 150.00 a plain
    // average of the two prices would give.
    m.record(&trade(ETH, 10000, 90, 1, 2, Side::Buy));
    m.record(&trade(ETH, 20000, 10, 1, 2, Side::Buy));
    assert_eq!(m.symbol(ETH).unwrap().vwap(), Some(Price(11000)));
}

#[test]
fn vwap_is_none_before_any_trade() {
    let m = MarketState::new();
    assert!(m.symbol(ETH).is_none());
    assert_eq!(SymbolState::default().vwap(), None);
}

#[test]
fn an_aggressive_buy_makes_the_taker_long_and_the_maker_short() {
    let mut m = MarketState::new();
    m.record(&trade(ETH, 10000, 50, 7, 9, Side::Buy));
    assert_eq!(m.position(9, ETH), 50); // taker bought
    assert_eq!(m.position(7, ETH), -50); // maker sold
}

#[test]
fn an_aggressive_sell_reverses_the_attribution() {
    let mut m = MarketState::new();
    m.record(&trade(ETH, 10000, 50, 7, 9, Side::Sell));
    assert_eq!(m.position(9, ETH), -50); // taker sold
    assert_eq!(m.position(7, ETH), 50); // maker bought
}

#[test]
fn positions_are_tracked_per_symbol() {
    let mut m = MarketState::new();
    m.record(&trade(ETH, 10000, 50, 1, 2, Side::Buy));
    m.record(&trade(BTC, 99000, 30, 1, 2, Side::Buy));
    assert_eq!(m.position(2, ETH), 50);
    assert_eq!(m.position(2, BTC), 30);
    assert_eq!(m.position(2, "NEX-USDC"), 0);
}

#[test]
fn a_self_trade_leaves_the_account_flat() {
    let mut m = MarketState::new();
    m.record(&trade(ETH, 10000, 50, 5, 5, Side::Buy));
    assert_eq!(m.position(5, ETH), 0);
}

#[test]
fn every_position_nets_to_zero_across_accounts() {
    let mut m = MarketState::new();
    m.record(&trade(ETH, 10000, 50, 1, 2, Side::Buy));
    m.record(&trade(ETH, 10100, 30, 3, 1, Side::Sell));
    m.record(&trade(BTC, 99000, 70, 2, 3, Side::Buy));
    m.record(&trade(ETH, 9900, 10, 5, 5, Side::Buy));
    // Each unit bought was sold by someone else.
    assert_eq!(m.net_position(), 0);
}

#[test]
fn top_positions_ranks_by_absolute_size_and_skips_flat_accounts() {
    let mut m = MarketState::new();
    m.record(&trade(ETH, 10000, 90, 1, 2, Side::Buy)); // 2 long 90, 1 short 90
    m.record(&trade(ETH, 10000, 10, 3, 4, Side::Buy)); // 4 long 10, 3 short 10
    m.record(&trade(ETH, 10000, 50, 5, 5, Side::Buy)); // 5 flat
    let top = m.top_positions(3);
    assert_eq!(top.len(), 3);
    assert_eq!(top[0].2.0.abs(), 90);
    assert!(!top.iter().any(|(account, _, _)| *account == 5));
}
