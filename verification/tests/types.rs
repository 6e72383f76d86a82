//! Ticks, symbols, and normalizing feed messages.

use services::double::Double;
use services::engine::text::{align_left, align_right};
use services::engine::types::{resolve_symbol, ConvertError, Event, Order, Price, Qty};
use services::feed::{OrderId, OrderMessage, Side};

fn double(x: f64) -> Double {
    Double(x.to_bits())
}

fn new_msg(id: OrderId, symbol: &str, side: Side, price: f64, quantity: f64) -> OrderMessage {
    OrderMessage::New {
        id,
        timestamp: 1_753_000_000_000,
        account: 3,
        symbol: symbol.to_string(),
        side,
        price: double(price),
        quantity: double(quantity),
    }
}

#[test]
fn price_conversion_is_lossless_for_two_decimals() {
    assert_eq!(Price::from_f64(double(100.25)).unwrap(), Price(10025));
    assert_eq!(Price::from_f64(double(9.96)).unwrap(), Price(996));
    assert_eq!(Price::from_f64(double(1000.0)).unwrap(), Price(100000));
    assert_eq!(Price(10025).to_f64(), double(100.25));
}

#[test]
fn quantity_conversion_is_lossless_for_one_decimal() {
    assert_eq!(Qty::from_f64(double(5.0)).unwrap(), Qty(50));
    assert_eq!(Qty::from_f64(double(8.1)).unwrap(), Qty(81));
    assert_eq!(Qty(81).to_f64(), double(8.1));
}

#[test]
fn integer_ticks_make_partial_fills_exact() {
    // The whole reason for integer ticks: in f64 this subtraction yields
    // 1.9000000000000004, so the order never compares equal to zero and
    // never leaves the book.
    let remaining = Qty(50).0 - Qty(31).0;
    assert_eq!(Qty(remaining), Qty(19));
    assert_eq!(Qty(remaining).to_f64(), double(1.9));
    assert!(Qty(Qty(50).0 - Qty(50).0).is_zero());
}

#[test]
fn rejects_non_positive_and_non_finite_values() {
    assert_eq!(Price::from_f64(double(0.0)), Err(ConvertError::BadPrice(double(0.0))));
    assert_eq!(Price::from_f64(double(-1.0)), Err(ConvertError::BadPrice(double(-1.0))));
    assert!(matches!(
        Price::from_f64(double(f64::NAN)),
        Err(ConvertError::BadPrice(_))
    ));
    assert_eq!(Qty::from_f64(double(0.0)), Err(ConvertError::BadQuantity(double(0.0))));
}

#[test]
fn resolves_known_symbols_and_rejects_others() {
    assert_eq!(resolve_symbol("ETH-USDC"), Some("ETH-USDC"));
    assert_eq!(resolve_symbol("BTC-USDC"), Some("BTC-USDC"));
    assert_eq!(resolve_symbol("NEX-USDC"), Some("NEX-USDC"));
    assert_eq!(resolve_symbol("DOGE-USDC"), None);
    // Case-sensitive, matching the feed's own table.
    assert_eq!(resolve_symbol("eth-usdc"), None);
}

#[test]
fn converts_a_new_message() {
    let ev = Event::try_from(new_msg(42, "ETH-USDC", Side::Buy, 100.25, 5.0)).unwrap();
    assert_eq!(
        ev,
        Event::New {
            symbol: "ETH-USDC",
            order: Order {
                id: 42,
                account: 3,
                side: Side::Buy,
                price: Price(10025),
                qty: Qty(50),
            },
        }
    );
    assert_eq!(ev.seq(), 42);
}

#[test]
fn converts_a_cancel_keeping_only_target_and_account() {
    let msg = OrderMessage::Cancel {
        id: 57,
        timestamp: 1_753_000_004_000,
        account: 3,
        target_id: 42,
    };
    let ev = Event::try_from(msg).unwrap();
    assert_eq!(
        ev,
        Event::Cancel {
            seq: 57,
            account: 3,
            target_id: 42,
        }
    );
    assert_eq!(ev.seq(), 57);
}

#[test]
fn rejects_a_new_message_with_an_unknown_symbol() {
    let err = Event::try_from(new_msg(1, "DOGE-USDC", Side::Buy, 1.0, 1.0)).unwrap_err();
    assert_eq!(err, ConvertError::UnknownSymbol("DOGE-USDC".to_string()));
}

#[test]
fn display_formats_ticks_back_to_human_decimals() {
    assert_eq!(Price(10025).to_string(), "100.25");
    assert_eq!(Price(996).to_string(), "9.96");
    assert_eq!(Price(100000).to_string(), "1000.00");
    assert_eq!(Qty(50).to_string(), "5.0");
    assert_eq!(Qty(81).to_string(), "8.1");
}

#[test]
fn display_keeps_the_sign_on_small_negative_values() {
    // Net positions can be short, and -2 / 10 == 0 in integer division, so
    // a naive impl would print "0.2" here and lose the direction entirely.
    assert_eq!(Qty(-2).to_string(), "-0.2");
    assert_eq!(Qty(-452).to_string(), "-45.2");
    assert_eq!(Price(-5).to_string(), "-0.05");
    assert_eq!(Qty(0).to_string(), "0.0");
}

#[test]
fn display_honours_width_and_alignment() {
    // Numbers fill their columns, or the printed rows do not line up.
    assert_eq!(align_right(&Price(10025).to_string(), 9), "   100.25");
    assert_eq!(align_right(&Qty(50).to_string(), 6), "   5.0");
    assert_eq!(format!("{}|", align_left(&Price(996).to_string(), 8)), "9.96    |");
}
