//! A run against the feed, without the network.

use services::double::Double;
use services::engine::types::ConvertError;
use services::feed::{OrderMessage, Side};
use services::runner::report::Line;
use services::runner::session::{banner, build_engine, choose_filter, newest, Options, Session, Taken};

fn options() -> Options {
    Options {
        url: "http://feed".to_string(),
        poll_ms: 200,
        only: None,
        from: 0,
        snapshot_every: 0,
        quiet: false,
        ui: false,
    }
}

fn new_msg(id: u64, symbol: &str, side: Side, price: f64, quantity: f64) -> OrderMessage {
    OrderMessage::New {
        id,
        timestamp: 1_753_000_000_000,
        account: 3,
        symbol: symbol.to_string(),
        side,
        price: Double(price.to_bits()),
        quantity: Double(quantity.to_bits()),
    }
}

fn texts(lines: &[Line]) -> Vec<String> {
    lines.iter().map(|l| l.text.clone()).collect()
}

fn applied(taken: Taken) -> Vec<String> {
    match taken {
        Taken::Applied { lines, .. } => texts(&lines),
        other => panic!("not applied: {:?}", other),
    }
}

#[test]
fn a_filter_names_a_listed_symbol_or_is_an_error() {
    assert_eq!(choose_filter(None), Ok(None));
    assert_eq!(choose_filter(Some("BTC-USDC")), Ok(Some("BTC-USDC")));
    assert_eq!(
        choose_filter(Some("DOGE-USDC")),
        Err("error: 'DOGE-USDC' is not a valid symbol".to_string())
    );
}

#[test]
fn the_banner_says_what_the_run_will_do() {
    assert_eq!(
        texts(&banner(&options())),
        vec![
            "engine -> http://feed  (poll 200ms)".to_string(),
            "symbol filter: none (all symbols)".to_string(),
            "starting cursor: since=0   (ctrl-c for a final summary)".to_string(),
            "=".repeat(84),
        ]
    );
    let filtered = Options { only: Some("ETH-USDC"), ..options() };
    assert_eq!(banner(&filtered)[1].text, "symbol filter: ETH-USDC");
    assert!(banner(&Options { ui: true, ..options() }).is_empty());
}

#[test]
fn an_engine_is_built_for_the_filter() {
    assert!(build_engine(None).symbols().is_empty());
    let mut e = build_engine(Some("ETH-USDC"));
    let other = services::engine::types::Event::try_from(new_msg(1, "BTC-USDC", Side::Buy, 1.0, 1.0));
    e.apply(&other.unwrap());
    assert_eq!(e.stats.filtered, 1);
}

#[test]
fn each_message_prints_its_row_and_its_trades() {
    let mut s = Session::new(options());
    let first = applied(s.take(new_msg(1, "ETH-USDC", Side::Sell, 100.0, 5.0)));
    assert_eq!(first, vec!["#     1 | NEW    | ETH-USDC | acct   3 | SELL |    100.00 x   5.0"]);
    let second = applied(s.take(new_msg(2, "ETH-USDC", Side::Buy, 101.0, 3.1)));
    assert_eq!(
        second,
        vec![
            "#     2 | NEW    | ETH-USDC | acct   3 | BUY  |    101.00 x   3.1".to_string(),
            "        +- TRADE | ETH-USDC | maker #1 a3 <- taker #2 a3 | 100.00 x 3.1".to_string(),
        ]
    );
    assert_eq!(s.poll_url(), "http://feed/orders?since=2");
    assert_eq!(s.probe_url(), "http://feed/orders?n=1");
    assert_eq!(s.poll_ms(), 200);
}

#[test]
fn quiet_runs_print_trades_only() {
    let mut s = Session::new(Options { quiet: true, ..options() });
    assert!(applied(s.take(new_msg(1, "ETH-USDC", Side::Sell, 100.0, 5.0))).is_empty());
    assert_eq!(applied(s.take(new_msg(2, "ETH-USDC", Side::Buy, 100.0, 5.0))).len(), 1);
}

#[test]
fn the_ui_prints_nothing_and_fills_its_tape() {
    let mut s = Session::new(Options { ui: true, snapshot_every: 1, ..options() });
    assert!(applied(s.take(new_msg(1, "ETH-USDC", Side::Sell, 100.0, 5.0))).is_empty());
    assert!(applied(s.take(new_msg(2, "ETH-USDC", Side::Buy, 100.0, 1.0))).is_empty());
    assert!(applied(s.take(new_msg(3, "ETH-USDC", Side::Buy, 100.0, 1.0))).is_empty());
    let screen = s.screen();
    let seqs: Vec<u64> = screen.tape.iter().map(|e| e.seq).collect();
    assert_eq!(seqs, vec![3, 2]);
    assert!(screen.tape.iter().all(|e| e.taker_bought));
    assert_eq!((screen.cursor, screen.connected, screen.skipped), (3, true, 0));
}

#[test]
fn a_snapshot_falls_due_every_so_many_messages() {
    let mut s = Session::new(Options { quiet: true, snapshot_every: 2, ..options() });
    assert!(applied(s.take(new_msg(1, "ETH-USDC", Side::Sell, 100.0, 5.0))).is_empty());
    let lines = applied(s.take(new_msg(2, "ETH-USDC", Side::Sell, 100.0, 5.0)));
    assert_eq!(lines[0], "-".repeat(84));
    assert!(lines[1].starts_with("cursor=2 msgs=2 "));
    assert!(applied(s.take(new_msg(3, "ETH-USDC", Side::Sell, 100.0, 5.0))).is_empty());
}

#[test]
fn a_malformed_message_is_skipped_but_consumed() {
    let mut s = Session::new(options());
    let cases = [
        (new_msg(5, "DOGE-USDC", Side::Buy, -1.0, 1.0), "unknown symbol 'DOGE-USDC'"),
        (new_msg(6, "ETH-USDC", Side::Buy, -1.0, -1.0), "invalid price -1"),
        (new_msg(7, "ETH-USDC", Side::Buy, 1.0, f64::INFINITY), "invalid quantity inf"),
    ];
    for (msg, reason) in cases {
        let id = msg.id();
        let e = match s.take(msg) {
            Taken::Skipped(e) => e,
            other => panic!("not skipped: {:?}", other),
        };
        let shown = e.number().map(|x| f64::from_bits(x.0).to_string()).unwrap_or_default();
        let lines = s.skip_lines(&e, &shown);
        assert_eq!(texts(&lines), vec![format!("#{:>6} | SKIP   | {}", id, reason)]);
        assert!(lines[0].problem);
        assert_eq!(s.poll_url(), format!("http://feed/orders?since={}", id));
    }
    assert_eq!(s.screen().skipped, 3);
    assert_eq!(s.screen().engine.stats.events, 0);
}

#[test]
fn the_ui_says_nothing_of_a_skipped_message() {
    let mut s = Session::new(Options { ui: true, ..options() });
    match s.take(new_msg(5, "DOGE-USDC", Side::Buy, 1.0, 1.0)) {
        Taken::Skipped(e) => assert!(s.skip_lines(&e, "").is_empty()),
        other => panic!("not skipped: {:?}", other),
    }
    assert_eq!(s.screen().skipped, 1);
}

#[test]
fn errors_read_as_text() {
    let bad = ConvertError::BadPrice(Double((-0.5f64).to_bits()));
    assert_eq!(bad.number(), Some(Double((-0.5f64).to_bits())));
    assert_eq!(bad.to_text("-0.5"), "invalid price -0.5");
    let unknown = ConvertError::UnknownSymbol("X".to_string());
    assert_eq!(unknown.number(), None);
    assert_eq!(unknown.to_text(""), "unknown symbol 'X'");
}

#[test]
fn what_does_not_fit_is_handed_back() {
    let mut s = Session::new(options());
    applied(s.take(new_msg(1, "ETH-USDC", Side::Sell, 1e17, 1e10)));
    match s.take(new_msg(2, "ETH-USDC", Side::Buy, 1e17, 1e10)) {
        Taken::Overflow(Ok(_)) => {}
        other => panic!("it fitted: {:?}", other),
    }
    // The message counts as read all the same.
    assert_eq!(s.poll_url(), "http://feed/orders?since=2");
}

#[test]
fn the_wait_doubles_while_the_feed_is_away() {
    let mut s = Session::new(options());
    let (lines, wait) = s.lost("connection refused");
    assert_eq!(texts(&lines), vec!["-- feed unreachable (connection refused), retrying --"]);
    assert!(lines[0].problem);
    assert_eq!(wait, 200);
    let waits: Vec<u64> = (0..6).map(|_| s.lost("still").1).collect();
    assert_eq!(waits, vec![400, 800, 1600, 3200, 5000, 5000]);
    // It is said only once.
    assert!(s.lost("still").0.is_empty());
    assert!(!s.screen().connected);

    let (lines, probe) = s.reached(false);
    assert_eq!(texts(&lines), vec!["-- reconnected to http://feed --"]);
    assert!(!probe);
    assert!(s.screen().connected);
    assert!(s.reached(false).0.is_empty());
    assert_eq!(s.lost("again").1, 200);
}

#[test]
fn a_long_poll_interval_waits_no_longer_than_that() {
    let mut s = Session::new(Options { poll_ms: u64::MAX, ..options() });
    assert_eq!(s.lost("x").1, u64::MAX);
    assert_eq!(s.lost("x").1, 5000);
}

#[test]
fn the_ui_says_nothing_of_the_connection() {
    let mut s = Session::new(Options { ui: true, ..options() });
    assert!(s.lost("x").0.is_empty());
    assert!(s.reached(true).0.is_empty());
}

#[test]
fn five_empty_polls_call_for_a_probe() {
    let mut s = Session::new(options());
    let probes: Vec<bool> = (0..11).map(|_| s.reached(true).1).collect();
    assert_eq!(
        probes,
        vec![false, false, false, false, true, false, false, false, false, true, false]
    );
}

#[test]
fn a_restarted_feed_starts_the_run_over() {
    let mut s = Session::new(options());
    applied(s.take(new_msg(3000, "ETH-USDC", Side::Sell, 100.0, 5.0)));
    assert!(s.probed(None).is_empty());
    assert!(s.probed(Some(3000)).is_empty());
    assert_eq!(s.screen().engine.resting(), 1);
    assert_eq!(
        texts(&s.probed(Some(12))),
        vec![
            "!! feed restarted (its latest id is 12, cursor was 3000) -- discarding stale books \
             and replaying from 0"
        ]
    );
    assert_eq!(s.screen().engine.resting(), 0);
    assert_eq!(s.poll_url(), "http://feed/orders?since=0");
}

#[test]
fn a_restart_clears_the_ui_silently() {
    let mut s = Session::new(Options { ui: true, only: Some("ETH-USDC"), ..options() });
    applied(s.take(new_msg(8, "ETH-USDC", Side::Sell, 100.0, 5.0)));
    applied(s.take(new_msg(9, "ETH-USDC", Side::Buy, 100.0, 5.0)));
    assert_eq!(s.screen().tape.len(), 1);
    assert!(s.probed(Some(1)).is_empty());
    assert!(s.screen().tape.is_empty());
    assert_eq!(s.screen().filter, Some("ETH-USDC"));
    // The filter still holds.
    applied(s.take(new_msg(1, "BTC-USDC", Side::Sell, 100.0, 5.0)));
    assert_eq!(s.screen().engine.stats.filtered, 1);
}

#[test]
fn the_newest_id_is_the_last_one() {
    assert_eq!(newest(&vec![]), None);
    let two = vec![
        new_msg(4, "ETH-USDC", Side::Buy, 1.0, 1.0),
        OrderMessage::Cancel { id: 5, timestamp: 0, account: 1, target_id: 4 },
    ];
    assert_eq!(newest(&two), Some(5));
}

#[test]
fn the_run_ends_with_a_snapshot() {
    let s = Session::new(options());
    let lines = texts(&s.farewell());
    assert_eq!(lines[0], "");
    assert_eq!(lines[1], "-- interrupted, final state --");
    assert_eq!(lines[2], "-".repeat(84));
    assert_eq!(lines.len(), 6);
}
