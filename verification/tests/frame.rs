//! What the terminal UI shows, drawn on a terminal that is not there.

use ratatui::backend::TestBackend;
use ratatui::layout::{Constraint, Direction, Layout, Rect};
use ratatui::text::Line;
use ratatui::widgets::{Block, Borders, Paragraph};
use ratatui::{Frame, Terminal};
use services::engine::matcher::Engine;
use services::engine::types::{Event, Order, Price, Qty};
use services::feed::{OrderId, Side};
use services::runner::frame::{
    asks_to_quit, body_layout, footer, header, no_books_panel, page_split, symbol_panel,
    tape_panel, Key, Panel, Screen, Slot, Span, Split, Tone,
};
use services::runner::tape::{TapeBuffer, TapeEntry, TAPE_CAPACITY};

fn entry(seq: OrderId) -> TapeEntry {
    TapeEntry {
        seq,
        symbol: "ETH-USDC",
        price: Price(10000),
        qty: Qty(50),
        taker_bought: true,
    }
}

fn engine_with_a_trade() -> Engine {
    let mut engine = Engine::new();
    let order = |id, side, price, qty| Event::New {
        symbol: "ETH-USDC",
        order: Order {
            id,
            account: 1,
            side,
            price: Price(price),
            qty: Qty(qty),
        },
    };
    engine.apply(&order(1, Side::Sell, 10000, 50));
    engine.apply(&order(2, Side::Buy, 10000, 20));
    engine
}

fn line(spans: &[Span]) -> String {
    spans.iter().map(|s| s.text.as_str()).collect()
}

fn areas(split: &Split, area: Rect) -> Vec<Rect> {
    let direction = if split.across { Direction::Horizontal } else { Direction::Vertical };
    let constraints = split.slots.iter().map(|slot| match slot {
        Slot::Length(n) => Constraint::Length(*n),
        Slot::Min(n) => Constraint::Min(*n),
        Slot::Percentage(n) => Constraint::Percentage(*n),
        Slot::Ratio(n, d) => Constraint::Ratio(*n, *d),
    });
    Layout::new(direction, constraints).split(area).to_vec()
}

fn draw(frame: &mut Frame, area: Rect, panel: Panel) {
    let rows: Vec<Line> = panel.rows.iter().map(|r| Line::from(line(r))).collect();
    frame.render_widget(
        Paragraph::new(rows).block(Block::default().borders(Borders::ALL).title(panel.title)),
        area,
    );
}

/// Where the panels of the symbols lie on a screen of that size.
fn symbol_areas(width: u16, height: u16, engine: &Engine) -> Vec<Rect> {
    let body = areas(&page_split(), Rect::new(0, 0, width, height))[1];
    let (split, books) = body_layout(engine, body.width);
    match books {
        Some((_, shares)) => areas(&shares, areas(&split, body)[0]),
        None => Vec::new(),
    }
}

fn render_at(width: u16, height: u16, engine: &Engine, tape: &TapeBuffer) -> String {
    let mut terminal = Terminal::new(TestBackend::new(width, height)).unwrap();
    let screen = Screen {
        engine,
        tape,
        url: "http://127.0.0.1:3000",
        cursor: 42,
        connected: true,
        filter: None,
        skipped: 0,
    };
    terminal
        .draw(|frame| {
            let page = areas(&page_split(), frame.area());
            let top = Panel { title: " engine ".to_string(), rows: vec![header(&screen)] };
            draw(frame, page[0], top);
            let (split, books) = body_layout(engine, page[1].width);
            let body = areas(&split, page[1]);
            match books {
                None => draw(frame, body[0], no_books_panel()),
                Some((symbols, shares)) => {
                    for (symbol, slot) in symbols.into_iter().zip(areas(&shares, body[0])) {
                        draw(frame, slot, symbol_panel(engine, symbol));
                    }
                }
            }
            draw(frame, body[1], tape_panel(tape));
            let bottom = Panel { title: String::new(), rows: footer(engine, 0) };
            draw(frame, page[2], bottom);
        })
        .unwrap();
    terminal.backend().buffer().content().iter().map(|cell| cell.symbol()).collect()
}

#[test]
fn a_full_frame_renders_without_panicking() {
    let engine = engine_with_a_trade();
    let mut tape = TapeBuffer::new(TAPE_CAPACITY);
    tape.push(entry(2));
    let out = render_at(120, 40, &engine, &tape);
    assert!(out.contains("ETH-USDC"));
    assert!(out.contains("127.0.0.1"));
    assert!(out.contains("invariants ok"));
}

#[test]
fn it_survives_a_terminal_too_narrow_for_side_by_side_panels() {
    let engine = engine_with_a_trade();
    let tape = TapeBuffer::new(TAPE_CAPACITY);
    for (w, h) in [(40, 20), (20, 10), (1, 1)] {
        let out = render_at(w, h, &engine, &tape);
        assert!(!out.is_empty(), "{}x{} produced nothing", w, h);
    }
}

#[test]
fn an_engine_with_no_orders_yet_renders_a_placeholder() {
    let engine = Engine::new();
    let tape = TapeBuffer::new(TAPE_CAPACITY);
    let out = render_at(120, 40, &engine, &tape);
    assert!(out.contains("waiting for the first order"));
    assert!(out.contains("waiting for the first trade"));
}

#[test]
fn the_header_says_whether_the_feed_answers() {
    let engine = Engine::new();
    let tape = TapeBuffer::new(TAPE_CAPACITY);
    let mut screen = Screen {
        engine: &engine,
        tape: &tape,
        url: "http://feed",
        cursor: 3333,
        connected: true,
        filter: None,
        skipped: 0,
    };
    let up = header(&screen);
    assert_eq!(line(&up), "http://feed  connected   cursor 3333   filter all   [q] quit");
    assert_eq!((up[1].tone, up[1].bold), (Tone::Green, false));
    assert_eq!(up[4].tone, Tone::Dim);
    screen.connected = false;
    screen.filter = Some("ETH-USDC");
    let down = header(&screen);
    assert_eq!(
        line(&down),
        "http://feed  RECONNECTING   cursor 3333   filter ETH-USDC   [q] quit"
    );
    assert_eq!((down[1].tone, down[1].bold), (Tone::Red, true));
}

#[test]
fn a_symbol_panel_shows_its_statistics_over_its_ladder() {
    let engine = engine_with_a_trade();
    let panel = symbol_panel(&engine, "ETH-USDC");
    assert_eq!(panel.title, " ETH-USDC ");
    let rows: Vec<String> = panel.rows.iter().map(|r| line(r)).collect();
    let blank = format!("{:>13} | {:<13}", "", "");
    assert_eq!(
        rows,
        vec![
            "last 100.00  vwap 100.00".to_string(),
            "hi 100.00  lo 100.00  vol 2.0  (1 trades)".to_string(),
            format!("{:>13} | {:<13}", "BIDS", "ASKS"),
            format!("{:>13} | {:<13}", "", "100.00 x 3.0"),
            blank.clone(),
            blank.clone(),
            blank.clone(),
            blank.clone(),
            blank,
            "1 resting".to_string(),
        ]
    );
    assert_eq!((panel.rows[0][1].tone, panel.rows[0][1].bold), (Tone::Cyan, true));
    assert_eq!((panel.rows[2][0].tone, panel.rows[2][0].bold), (Tone::Dim, true));
    assert_eq!(panel.rows[3][0].tone, Tone::Green);
    assert_eq!(panel.rows[3][1].tone, Tone::Dim);
    assert_eq!(panel.rows[3][2].tone, Tone::Red);
}

#[test]
fn a_symbol_without_trades_or_book_says_so() {
    let panel = symbol_panel(&Engine::new(), "BTC-USDC");
    let rows: Vec<String> = panel.rows.iter().map(|r| line(r)).collect();
    assert_eq!(
        rows,
        vec!["no trades yet".to_string(), format!("{:>13} | {:<13}", "BIDS", "ASKS")]
    );
}

#[test]
fn a_tape_row_is_marked_by_the_aggressor() {
    let mut tape = TapeBuffer::new(TAPE_CAPACITY);
    tape.push(entry(2));
    tape.push(TapeEntry { taker_bought: false, ..entry(3041) });
    let panel = tape_panel(&tape);
    assert_eq!(panel.title, " trades (2) ");
    assert_eq!(
        line(&panel.rows[0]),
        format!("#{:<7}{:<9} {:>9} x {:>5} S", 3041, "ETH-USDC", "100.00", "5.0")
    );
    assert_eq!((panel.rows[0][4].tone, panel.rows[0][4].bold), (Tone::Red, true));
    assert_eq!(panel.rows[0][2].tone, Tone::Red);
    assert_eq!(panel.rows[1][4].text, "B");
    assert_eq!(panel.rows[1][2].tone, Tone::Green);
}

#[test]
fn the_footer_counts_and_checks() {
    let mut engine = engine_with_a_trade();
    let rows = footer(&engine, 3);
    assert_eq!(
        line(&rows[0]),
        "msgs 2  new 2  filtered 0  cancels 0 (hit 0 / unknown 0)  skipped 3"
    );
    assert_eq!(
        line(&rows[1]),
        "trades 1  volume 2.0  cancelled 0.0  resting 1  indexed 1  net 0.0"
    );
    // A self-trade leaves nobody with a position, so none are listed.
    assert_eq!(rows.len(), 3);
    assert_eq!(line(&rows[2]), "invariants ok");
    assert_eq!(rows[2][0].tone, Tone::Green);

    engine.apply(&Event::New {
        symbol: "ETH-USDC",
        order: Order { id: 3, account: 2, side: Side::Buy, price: Price(10000), qty: Qty(10) },
    });
    let rows = footer(&engine, 0);
    assert_eq!(line(&rows[2]), "positions: a1 ETH-USDC -1.0  |  a2 ETH-USDC +1.0");
    assert_eq!(rows[2][0].tone, Tone::Dim);

    // An id used twice drifts the index.
    let twice = |symbol| Event::New {
        symbol,
        order: Order { id: 9, account: 2, side: Side::Buy, price: Price(1), qty: Qty(1) },
    };
    engine.apply(&twice("ETH-USDC"));
    engine.apply(&twice("BTC-USDC"));
    let rows = footer(&engine, 0);
    assert_eq!(line(rows.last().unwrap()), "INVARIANT VIOLATED: index drifted");
    assert_eq!((rows.last().unwrap()[0].tone, rows.last().unwrap()[0].bold), (Tone::Red, true));
}

fn engine_with_three_books() -> Engine {
    let mut engine = Engine::new();
    for (id, symbol) in [(1, "NEX-USDC"), (2, "ETH-USDC"), (3, "BTC-USDC")] {
        engine.apply(&Event::New {
            symbol,
            order: Order { id, account: 1, side: Side::Buy, price: Price(100), qty: Qty(1) },
        });
    }
    engine
}

#[test]
fn panels_sit_side_by_side_from_a_hundred_columns() {
    assert_eq!(page_split().slots, vec![Slot::Length(3), Slot::Min(0), Slot::Length(6)]);
    assert!(!page_split().across);
    let engine = engine_with_three_books();
    for width in [0, 1, 74, 99, 100, 120, 160, 200] {
        let (body, books) = body_layout(&engine, width);
        let (symbols, shares) = books.unwrap();
        assert_eq!(symbols, vec!["BTC-USDC", "ETH-USDC", "NEX-USDC"]);
        assert_eq!(shares.slots, vec![Slot::Ratio(1, 3); 3]);
        assert_eq!((body.across, shares.across), (width >= 100, width >= 100), "{}", width);
        if width >= 100 {
            assert_eq!(body.slots, vec![Slot::Percentage(62), Slot::Percentage(38)]);
        } else {
            assert_eq!(body.slots, vec![Slot::Min(0), Slot::Length(10)]);
        }
    }
    let (body, books) = body_layout(&Engine::new(), 120);
    assert!(body.across && books.is_none());
}

#[test]
fn symbol_panels_share_rows_when_wide_and_columns_when_narrow() {
    let engine = engine_with_three_books();
    for width in [100, 120, 160, 200] {
        let panels = symbol_areas(width, 60, &engine);
        assert_eq!(panels.len(), 3);
        for pair in panels.windows(2) {
            assert_eq!((pair[0].y, pair[0].height), (pair[1].y, pair[1].height));
            assert!(pair[0].x + pair[0].width <= pair[1].x && pair[0].x < pair[1].x);
        }
    }
    for width in [40, 99] {
        let panels = symbol_areas(width, 60, &engine);
        assert_eq!(panels.len(), 3);
        for pair in panels.windows(2) {
            assert_eq!((pair[0].x, pair[0].width), (pair[1].x, pair[1].width));
            assert!(pair[0].y + pair[0].height <= pair[1].y && pair[0].y < pair[1].y);
        }
    }
}

#[test]
fn q_and_escape_quit() {
    assert!(asks_to_quit(Key::Char('q'), true));
    assert!(asks_to_quit(Key::Char('Q'), true));
    assert!(asks_to_quit(Key::Esc, true));
    assert!(!asks_to_quit(Key::Char('x'), true));
    assert!(!asks_to_quit(Key::Other, true));
    assert!(!asks_to_quit(Key::Char('q'), false));
}
