//! Replay of a long run of feed traffic.
//!
//! The unit tests build events by hand, which proves the rules but not that
//! they survive the feed's actual shape: crossing prices, cancels for orders
//! already matched away, three symbols interleaved. This folds 600 messages
//! drawn the way the feed draws them and asserts the invariants at every step.

use services::double::Double;
use services::engine::matcher::Engine;
use services::engine::types::{Event, Qty, Symbol};
use services::feed::{OrderMessage, Side};

const SYMBOLS: [Symbol; 3] = ["NEX-USDC", "ETH-USDC", "BTC-USDC"];

/// The price around which each symbol is quoted, in cents.
const MIDS: [u64; 3] = [1_000, 10_000, 100_000];

/// A small generator of reproducible numbers.
struct Draw(u64);

impl Draw {
    fn below(&mut self, n: u64) -> u64 {
        self.0 = self
            .0
            .wrapping_mul(6_364_136_223_846_793_005)
            .wrapping_add(1_442_695_040_888_963_407);
        (self.0 >> 33) % n
    }
}

fn double(x: f64) -> Double {
    Double(x.to_bits())
}

/// 600 messages: about 15% of them cancel one of the last 50 orders, the rest
/// are limit orders within 3% of the symbol's price, from 20 accounts.
fn messages() -> Vec<OrderMessage> {
    let mut draw = Draw(7);
    let mut recent: Vec<u64> = Vec::new();
    let mut out = Vec::new();
    for id in 1..=600u64 {
        let timestamp = 1_753_000_000_000 + id * 40;
        let account = draw.below(20) as u32 + 1;
        if !recent.is_empty() && draw.below(100) < 15 {
            let target_id = recent[draw.below(recent.len() as u64) as usize];
            out.push(OrderMessage::Cancel { id, timestamp, account, target_id });
            continue;
        }
        let which = draw.below(3) as usize;
        let spread = MIDS[which] * 6 / 100;
        let cents = MIDS[which] - spread / 2 + draw.below(spread + 1);
        let tenths = 1 + draw.below(100);
        out.push(OrderMessage::New {
            id,
            timestamp,
            account,
            symbol: SYMBOLS[which].to_string(),
            side: if draw.below(2) == 0 { Side::Buy } else { Side::Sell },
            price: double(cents as f64 / 100.0),
            quantity: double(tenths as f64 / 10.0),
        });
        recent.push(id);
        if recent.len() > 50 {
            recent.remove(0);
        }
    }
    out
}

fn events() -> Vec<Event> {
    messages()
        .into_iter()
        .map(|m| Event::try_from(m).expect("feed messages should all convert"))
        .collect()
}

#[test]
fn the_traffic_has_the_shape_of_the_feed() {
    let msgs = messages();
    assert_eq!(msgs.len(), 600);

    // Ids are strictly increasing with no gaps: the cursor contract.
    for pair in msgs.windows(2) {
        assert_eq!(
            pair[1].id(),
            pair[0].id() + 1,
            "feed ids should be contiguous"
        );
    }

    let cancels = msgs
        .iter()
        .filter(|m| matches!(m, OrderMessage::Cancel { .. }))
        .count();
    assert!(cancels > 0, "the traffic should exercise the cancel path");
}

#[test]
fn every_invariant_holds_at_every_step_of_a_real_replay() {
    let mut engine = Engine::new();
    let mut traded = 0i64;
    let mut submitted = 0i64;

    for event in events() {
        if let Event::New { order, .. } = &event {
            submitted += order.qty.0;
        }
        traded += engine.apply(&event).iter().map(|t| t.qty.0).sum::<i64>();

        let seq = event.seq();
        assert!(!engine.any_crossed(), "book crossed after #{}", seq);
        assert_eq!(
            engine.indexed(),
            engine.resting(),
            "routing index drifted from the books after #{}",
            seq
        );
        assert_eq!(
            engine.market.net_position(),
            0,
            "positions stopped netting to zero after #{}",
            seq
        );
    }

    // Every unit submitted ends up in exactly one of three places: still
    // resting, traded away, or cancelled out of the book. Each trade consumes
    // one unit from each side, hence the factor of two.
    assert_eq!(
        submitted,
        engine.resting_qty().0 + 2 * traded + engine.stats.cancelled_qty,
        "quantity was created or destroyed"
    );
    assert!(
        engine.stats.cancelled_qty > 0,
        "real feed traffic should cancel some resting quantity"
    );
    assert_eq!(traded, engine.stats.volume);
    assert!(traded > 0, "real feed traffic should produce trades");
}

#[test]
fn the_real_feed_cancels_orders_that_were_already_matched_away() {
    let mut engine = Engine::new();
    for event in events() {
        engine.apply(&event);
    }
    // This is the adversarial case the feed is built to produce. If it never
    // fired, the no-op path would be untested against real traffic.
    assert!(
        engine.stats.cancels_unknown > 0,
        "expected cancels for orders already gone from the book"
    );
    assert!(
        engine.stats.cancels_hit > 0,
        "expected some cancels to land"
    );
}

#[test]
fn replaying_the_same_messages_twice_gives_identical_state() {
    let run = || {
        let mut engine = Engine::new();
        for event in events() {
            engine.apply(&event);
        }
        engine
    };
    let (a, b) = (run(), run());

    // Determinism is what makes `--from 0` a safe recovery strategy.
    assert_eq!(a.stats, b.stats);
    assert_eq!(a.resting(), b.resting());
    assert_eq!(a.resting_qty(), b.resting_qty());
    for symbol in SYMBOLS {
        assert_eq!(
            a.market
                .symbol(symbol)
                .map(|s| (s.trades, s.volume, s.last)),
            b.market
                .symbol(symbol)
                .map(|s| (s.trades, s.volume, s.last)),
        );
        assert_eq!(
            a.book(symbol).map(|bk| (bk.best_bid(), bk.best_ask())),
            b.book(symbol).map(|bk| (bk.best_bid(), bk.best_ask())),
        );
    }
}

#[test]
fn a_symbol_filter_never_touches_the_other_books() {
    let mut engine = Engine::only("ETH-USDC");
    for event in events() {
        engine.apply(&event);
    }
    assert_eq!(engine.symbols().len(), 1);
    assert!(engine.book("BTC-USDC").is_none());
    assert!(engine.book("NEX-USDC").is_none());
    assert!(engine.stats.filtered > 0);
    assert_eq!(engine.market.net_position(), 0);
}

#[test]
fn resuming_from_a_midpoint_matches_a_full_replay_of_the_tail() {
    // Restarting the engine and replaying is only safe because the fold is
    // deterministic and the feed never drops a message.
    let all = events();
    let (head, tail) = all.split_at(300);

    let mut streamed = Engine::new();
    for event in &all {
        streamed.apply(event);
    }

    let mut resumed = Engine::new();
    for event in head {
        resumed.apply(event);
    }
    for event in tail {
        resumed.apply(event);
    }

    assert_eq!(streamed.stats, resumed.stats);
    assert_eq!(streamed.resting_qty(), resumed.resting_qty());
}

#[test]
fn the_tape_is_consistent_with_the_trades_it_came_from() {
    let mut engine = Engine::new();
    let mut last_by_symbol: Vec<(Symbol, Qty)> = Vec::new();

    for event in events() {
        for trade in engine.apply(&event) {
            last_by_symbol.retain(|(s, _)| *s != trade.symbol);
            last_by_symbol.push((trade.symbol, trade.qty));
        }
    }

    for symbol in SYMBOLS {
        let Some(state) = engine.market.symbol(symbol) else {
            continue;
        };
        let vwap = state.vwap().expect("a traded symbol has a vwap");
        let (low, high) = (state.low.unwrap(), state.high.unwrap());
        assert!(
            vwap >= low && vwap <= high,
            "{}: vwap {} outside [{}, {}]",
            symbol,
            vwap.to_string(),
            low.to_string(),
            high.to_string()
        );
        assert!(state.volume > 0);
    }
}
