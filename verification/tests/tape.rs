//! The window of recent trades.

use services::engine::types::{Price, Qty, Trade};
use services::feed::{OrderId, Side};
use services::runner::tape::{TapeBuffer, TapeEntry};

fn entry(seq: OrderId) -> TapeEntry {
    TapeEntry {
        seq,
        symbol: "ETH-USDC",
        price: Price(10000),
        qty: Qty(50),
        taker_bought: true,
    }
}

#[test]
fn the_tape_shows_the_newest_trade_first() {
    let mut tape = TapeBuffer::new(8);
    tape.push(entry(1));
    tape.push(entry(2));
    tape.push(entry(3));
    let seqs: Vec<_> = tape.iter().map(|e| e.seq).collect();
    assert_eq!(seqs, vec![3, 2, 1]);
}

#[test]
fn the_tape_evicts_the_oldest_once_it_is_full() {
    let mut tape = TapeBuffer::new(3);
    for seq in 1..=5 {
        tape.push(entry(seq));
    }
    assert_eq!(tape.len(), 3);
    let seqs: Vec<_> = tape.iter().map(|e| e.seq).collect();
    assert_eq!(seqs, vec![5, 4, 3], "should keep the most recent three");
}

#[test]
fn a_zero_capacity_tape_still_holds_one_entry() {
    // Guards against a `%` or `while` on a zero bound silently dropping
    // everything, or panicking.
    let mut tape = TapeBuffer::new(0);
    tape.push(entry(1));
    assert_eq!(tape.len(), 1);
}

#[test]
fn a_new_tape_is_empty() {
    let tape = TapeBuffer::new(4);
    assert!(tape.is_empty());
    assert_eq!(tape.len(), 0);
}

#[test]
fn a_trade_becomes_a_tape_entry() {
    let trade = Trade {
        seq: 9,
        symbol: "ETH-USDC",
        price: Price(10000),
        qty: Qty(50),
        maker_order: 1,
        maker_account: 2,
        taker_order: 9,
        taker_account: 3,
        taker_side: Side::Buy,
    };
    assert_eq!(TapeEntry::of(&trade), entry(9));
    let sold = Trade { taker_side: Side::Sell, ..trade };
    assert_eq!(TapeEntry::of(&sold), TapeEntry { taker_bought: false, ..entry(9) });
    let mut tape = TapeBuffer::new(4);
    tape.push(entry(1));
    tape.push(entry(2));
    assert_eq!(tape.at(0).seq, 2);
    assert_eq!(tape.at(1).seq, 1);
}
