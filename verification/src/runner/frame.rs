//! The terminal UI, short of the terminal: what each panel says and how it is
//! laid out.
//!
//! Everything here is plain values, so a frame is made and checked with no
//! terminal at all.

use crate::engine::book::{lists_wide_levels, top_levels};
use crate::engine::laws::routing::{
    law_no_book_is_ever_crossed, law_the_routing_index_never_drifts,
};
use crate::engine::laws::tape::law_positions_net_to_zero_after_every_run;
use crate::engine::laws::{distinct_orders, replay};
use crate::engine::matcher::{Engine, EngineView};
use crate::engine::text;
use crate::engine::text::{at_left, at_right, decimal};
use crate::engine::types::{price_text, qty_text, Event, Qty, Symbol};
use crate::feed::{AccountId, OrderId};
use crate::runner::names::{book_names, in_dictionary_order, named, sorted_symbols};
use crate::runner::report::{
    fmt_level, fmt_positions, fmt_price, fmt_vwap, level_text, positions_text, price_or_dash,
    vwap_text,
};
use crate::runner::tape::{TapeBuffer, TapeEntry, TapeView};
use vstd::prelude::*;

verus! {

/// Price levels per side in each ladder.
pub const DEPTH_LEVELS: usize = 6;

/// Below this many columns the per-symbol panels cannot sit side by side.
pub const NARROW_WIDTH: u16 = 100;

/// The colours of the UI.
#[derive(Debug, Clone, Copy, PartialEq, Eq, Structural)]
pub enum Tone {
    /// The terminal's own.
    Plain,
    Green,
    Red,
    Dim,
    Cyan,
}

/// A piece of text in one style.
#[derive(Debug, Clone, PartialEq, Eq)]
pub struct Span {
    pub text: String,
    pub tone: Tone,
    pub bold: bool,
}

/// A piece of text by its characters.
#[verifier::ext_equal]
pub struct SpanView {
    pub text: Seq<char>,
    pub tone: Tone,
    pub bold: bool,
}

impl View for Span {
    type V = SpanView;

    open spec fn view(&self) -> SpanView {
        SpanView { text: self.text@, tone: self.tone, bold: self.bold }
    }
}

/// One row of spans by their characters.
pub open spec fn row(spans: Seq<Span>) -> Seq<SpanView> {
    spans.map_values(|s: Span| s@)
}

/// Rows of spans by their characters.
pub open spec fn rows(v: Seq<Vec<Span>>) -> Seq<Seq<SpanView>> {
    v.map_values(|r: Vec<Span>| row(r@))
}

pub open spec fn raw(text: Seq<char>) -> SpanView {
    SpanView { text, tone: Tone::Plain, bold: false }
}

pub open spec fn toned(text: Seq<char>, tone: Tone) -> SpanView {
    SpanView { text, tone, bold: false }
}

pub open spec fn strong(text: Seq<char>, tone: Tone) -> SpanView {
    SpanView { text, tone, bold: true }
}

/// A bordered panel: its title and what it shows.
#[derive(Debug, Clone, PartialEq, Eq)]
pub struct Panel {
    pub title: String,
    pub rows: Vec<Vec<Span>>,
}

/// A panel by its characters.
#[verifier::ext_equal]
pub struct PanelView {
    pub title: Seq<char>,
    pub rows: Seq<Seq<SpanView>>,
}

impl View for Panel {
    type V = PanelView;

    open spec fn view(&self) -> PanelView {
        PanelView { title: self.title@, rows: rows(self.rows@) }
    }
}

fn put(spans: &mut Vec<Span>, text: String, tone: Tone, bold: bool)
    ensures
        row(final(spans)@) == row(old(spans)@).push(SpanView { text: text@, tone, bold }),
{
    spans.push(Span { text, tone, bold });
    assert(row(spans@) =~= row(old(spans)@).push(SpanView { text: text@, tone, bold }));
}

fn end_row(all: &mut Vec<Vec<Span>>, spans: Vec<Span>)
    ensures
        rows(final(all)@) == rows(old(all)@).push(row(spans@)),
{
    all.push(spans);
    assert(rows(all@) =~= rows(old(all)@).push(row(spans@)));
}

/// Adds a row that is one span.
fn put_row(all: &mut Vec<Vec<Span>>, text: String, tone: Tone, bold: bool)
    ensures
        rows(final(all)@) == rows(old(all)@).push(seq![SpanView { text: text@, tone, bold }]),
{
    let mut spans: Vec<Span> = Vec::new();
    put(&mut spans, text, tone, bold);
    assert(row(spans@) =~= seq![SpanView { text: text@, tone, bold }]);
    end_row(all, spans);
}

/// Everything a frame needs. Borrowed, so rendering allocates nothing durable.
pub struct Screen<'a> {
    pub engine: &'a Engine,
    pub tape: &'a TapeBuffer,
    pub url: &'a str,
    pub cursor: OrderId,
    pub connected: bool,
    pub filter: Option<Symbol>,
    pub skipped: u64,
}

/// The header: the feed, whether it answers, and how far the run has read.
pub open spec fn header_row(
    url: Seq<char>,
    connected: bool,
    cursor: OrderId,
    filter: Option<Symbol>,
) -> Seq<SpanView> {
    seq![
        raw(url + "  "@),
        if connected {
            toned("connected"@, Tone::Green)
        } else {
            strong("RECONNECTING"@, Tone::Red)
        },
        raw("   cursor "@ + decimal(cursor as nat)),
        raw(
            "   filter "@ + (match filter {
                Some(symbol) => symbol@,
                None => "all"@,
            }),
        ),
        toned("   [q] quit"@, Tone::Dim),
    ]
}

/// The header row.
pub fn header(screen: &Screen) -> (r: Vec<Span>)
    ensures
        row(r@) == header_row(screen.url@, screen.connected, screen.cursor, screen.filter),
{
    let mut r: Vec<Span> = Vec::new();
    let mut url = screen.url.to_owned();
    url.append("  ");
    put(&mut r, url, Tone::Plain, false);
    if screen.connected {
        put(&mut r, "connected".to_owned(), Tone::Green, false);
    } else {
        put(&mut r, "RECONNECTING".to_owned(), Tone::Red, true);
    }
    let mut cursor = "   cursor ".to_owned();
    cursor.append(text::number(screen.cursor as u128).as_str());
    put(&mut r, cursor, Tone::Plain, false);
    let mut filter = "   filter ".to_owned();
    filter.append(
        match screen.filter {
            Some(symbol) => symbol,
            None => "all",
        },
    );
    put(&mut r, filter, Tone::Plain, false);
    put(&mut r, "   [q] quit".to_owned(), Tone::Dim, false);
    assert(row(r@) =~= header_row(screen.url@, screen.connected, screen.cursor, screen.filter));
    r
}

/// What the tape says of a symbol, at the top of its panel.
pub open spec fn market_rows(v: EngineView, name: Seq<char>) -> Seq<Seq<SpanView>> {
    if v.market.ledgers.contains_key(name) {
        let s = v.market.ledgers[name].state;
        seq![
            seq![
                raw("last "@),
                strong(price_or_dash(s.last), Tone::Cyan),
                raw("  vwap "@ + vwap_text(s)),
            ],
            seq![
                toned(
                    "hi "@ + price_or_dash(s.high) + "  lo "@ + price_or_dash(s.low) + "  vol "@
                        + qty_text(s.volume) + "  ("@ + decimal(s.trades as nat) + " trades)"@,
                    Tone::Dim,
                ),
            ],
        ]
    } else {
        seq![seq![toned("no trades yet"@, Tone::Dim)]]
    }
}

fn put_market(all: &mut Vec<Vec<Span>>, engine: &Engine, symbol: Symbol)
    ensures
        rows(final(all)@) == rows(old(all)@) + market_rows(engine@, symbol@),
{
    let ghost before = rows(all@);
    match engine.market().symbol(symbol) {
        Some(m) => {
            let mut first: Vec<Span> = Vec::new();
            put(&mut first, "last ".to_owned(), Tone::Plain, false);
            put(&mut first, fmt_price(m.last), Tone::Cyan, true);
            let mut vwap = "  vwap ".to_owned();
            vwap.append(fmt_vwap(m).as_str());
            put(&mut first, vwap, Tone::Plain, false);
            assert(row(first@) =~= market_rows(engine@, symbol@)[0]);
            end_row(all, first);
            let mut second = "hi ".to_owned();
            second.append(fmt_price(m.high).as_str());
            second.append("  lo ");
            second.append(fmt_price(m.low).as_str());
            second.append("  vol ");
            second.append(Qty(m.volume).to_string().as_str());
            second.append("  (");
            second.append(text::number(m.trades as u128).as_str());
            second.append(" trades)");
            put_row(all, second, Tone::Dim, false);
        },
        None => {
            put_row(all, "no trades yet".to_owned(), Tone::Dim, false);
        },
    }
    assert(rows(all@) =~= before + market_rows(engine@, symbol@));
}

/// One row of a ladder.
pub open spec fn ladder_row(v: EngineView, name: Seq<char>, i: int) -> Seq<SpanView> {
    let b = v.book(name);
    seq![
        toned(at_right(level_text(top_levels(b.bids, 6), i), 13), Tone::Green),
        toned(" | "@, Tone::Dim),
        toned(at_left(level_text(top_levels(b.asks, 6), i), 13), Tone::Red),
    ]
}

/// The ladder of a symbol's book: always as many rows as there can be levels,
/// and how many orders rest. Without a book there is none.
pub open spec fn ladder_rows(v: EngineView, name: Seq<char>) -> Seq<Seq<SpanView>> {
    if v.books.contains_key(name) {
        Seq::new(6, |i: int| ladder_row(v, name, i)).push(
            seq![toned(decimal(v.books[name].index.len()) + " resting"@, Tone::Dim)],
        )
    } else {
        seq![]
    }
}

fn put_ladder(all: &mut Vec<Vec<Span>>, engine: &Engine, symbol: Symbol)
    ensures
        rows(final(all)@) == rows(old(all)@) + ladder_rows(engine@, symbol@),
{
    let ghost before = rows(all@);
    let ghost v = engine@;
    let book = match engine.book(symbol) {
        Some(book) => book,
        None => {
            assert(rows(all@) =~= before + ladder_rows(v, symbol@));
            return;
        },
    };
    let ghost b = v.book(symbol@);
    let ghost ladder = Seq::new(6, |i: int| ladder_row(v, symbol@, i));
    let (bids, asks) = book.depth_wide(DEPTH_LEVELS);
    let mut i: usize = 0;
    assert(rows(all@) =~= before + ladder.take(0));
    while i < DEPTH_LEVELS
        invariant
            i <= 6,
            b == v.book(symbol@),
            ladder == Seq::new(6, |i: int| ladder_row(v, symbol@, i)),
            lists_wide_levels(bids@, top_levels(b.bids, 6)),
            lists_wide_levels(asks@, top_levels(b.asks, 6)),
            rows(all@) == before + ladder.take(i as int),
        decreases 6 - i,
    {
        let bid = fmt_level(&bids, i);
        let ask = fmt_level(&asks, i);
        assert(bid@ == level_text(top_levels(b.bids, 6), i as int));
        assert(ask@ == level_text(top_levels(b.asks, 6), i as int));
        let mut spans: Vec<Span> = Vec::new();
        put(&mut spans, text::align_right(bid.as_str(), 13), Tone::Green, false);
        put(&mut spans, " | ".to_owned(), Tone::Dim, false);
        put(&mut spans, text::align_left(ask.as_str(), 13), Tone::Red, false);
        assert(row(spans@) =~= ladder_row(v, symbol@, i as int));
        end_row(all, spans);
        assert(ladder.take(i + 1) =~= ladder.take(i as int).push(ladder[i as int]));
        i = i + 1;
        assert(rows(all@) =~= before + ladder.take(i as int));
    }
    assert(ladder.take(6) =~= ladder);
    let mut resting = text::number(book.len() as u128);
    resting.append(" resting");
    put_row(all, resting, Tone::Dim, false);
    assert(rows(all@) =~= before + ladder_rows(v, symbol@));
}

/// The panel of one symbol.
pub open spec fn symbol_view(v: EngineView, name: Seq<char>) -> PanelView {
    PanelView {
        title: " "@ + name + " "@,
        rows: market_rows(v, name) + seq![
            seq![strong(at_right("BIDS"@, 13) + " | "@ + at_left("ASKS"@, 13), Tone::Dim)],
        ] + ladder_rows(v, name),
    }
}

/// The panel of one symbol: its tape statistics over its ladder.
pub fn symbol_panel(engine: &Engine, symbol: Symbol) -> (r: Panel)
    ensures
        r@ == symbol_view(engine@, symbol@),
{
    let mut title = " ".to_owned();
    title.append(symbol);
    title.append(" ");
    let mut all: Vec<Vec<Span>> = Vec::new();
    put_market(&mut all, engine, symbol);
    let mut heading = text::align_right("BIDS", 13);
    heading.append(" | ");
    heading.append(text::align_left("ASKS", 13).as_str());
    put_row(&mut all, heading, Tone::Dim, true);
    put_ladder(&mut all, engine, symbol);
    let r = Panel { title, rows: all };
    assert(r@ =~= symbol_view(engine@, symbol@));
    r
}

/// What stands in place of the books before the first order.
pub fn no_books_panel() -> (r: Panel)
    ensures
        r@ == (PanelView {
            title: " books "@,
            rows: seq![seq![raw("waiting for the first order..."@)]],
        }),
{
    let mut all: Vec<Vec<Span>> = Vec::new();
    put_row(&mut all, "waiting for the first order...".to_owned(), Tone::Plain, false);
    let r = Panel { title: " books ".to_owned(), rows: all };
    assert(r@.rows =~= seq![seq![raw("waiting for the first order..."@)]]);
    r
}

/// One row of the trade tape, in the aggressor's colour.
pub open spec fn tape_row(t: TapeEntry) -> Seq<SpanView> {
    let tone = if t.taker_bought {
        Tone::Green
    } else {
        Tone::Red
    };
    let mark = if t.taker_bought {
        "B"@
    } else {
        "S"@
    };
    seq![
        toned("#"@ + at_left(decimal(t.seq as nat), 7), Tone::Dim),
        raw(at_left(t.symbol@, 9) + " "@),
        toned(at_right(price_text(t.price), 9), tone),
        raw(" x "@ + at_right(qty_text(t.qty.0 as int), 5) + " "@),
        strong(mark, tone),
    ]
}

fn tape_line(t: &TapeEntry) -> (r: Vec<Span>)
    ensures
        row(r@) == tape_row(*t),
{
    let (mark, tone) = if t.taker_bought { ("B", Tone::Green) } else { ("S", Tone::Red) };
    let mut r: Vec<Span> = Vec::new();
    let mut seq = "#".to_owned();
    seq.append(text::align_left(text::number(t.seq as u128).as_str(), 7).as_str());
    put(&mut r, seq, Tone::Dim, false);
    let mut symbol = text::align_left(t.symbol, 9);
    symbol.append(" ");
    put(&mut r, symbol, Tone::Plain, false);
    put(&mut r, text::align_right(t.price.to_string().as_str(), 9), tone, false);
    let mut qty = " x ".to_owned();
    qty.append(text::align_right(t.qty.to_string().as_str(), 5).as_str());
    qty.append(" ");
    put(&mut r, qty, Tone::Plain, false);
    put(&mut r, mark.to_owned(), tone, true);
    assert(row(r@) =~= tape_row(*t));
    r
}

/// The panel of the trade tape.
pub open spec fn tape_view(tape: TapeView) -> PanelView {
    if tape.entries.len() == 0 {
        PanelView {
            title: " trades "@,
            rows: seq![seq![toned("waiting for the first trade..."@, Tone::Dim)]],
        }
    } else {
        PanelView {
            title: " trades ("@ + decimal(tape.entries.len()) + ") "@,
            rows: tape.entries.map_values(|t: TapeEntry| tape_row(t)),
        }
    }
}

/// The panel of the trade tape, newest trade first.
pub fn tape_panel(tape: &TapeBuffer) -> (r: Panel)
    ensures
        r@ == tape_view(tape@),
{
    let mut all: Vec<Vec<Span>> = Vec::new();
    if tape.is_empty() {
        put_row(&mut all, "waiting for the first trade...".to_owned(), Tone::Dim, false);
        let r = Panel { title: " trades ".to_owned(), rows: all };
        assert(r@.rows =~= tape_view(tape@).rows);
        return r;
    }
    let ghost lines = tape@.entries.map_values(|t: TapeEntry| tape_row(t));
    let mut i: usize = 0;
    assert(rows(all@) =~= lines.take(0));
    while i < tape.len()
        invariant
            i <= tape@.entries.len(),
            lines == tape@.entries.map_values(|t: TapeEntry| tape_row(t)),
            rows(all@) == lines.take(i as int),
        decreases tape@.entries.len() - i,
    {
        end_row(&mut all, tape_line(tape.at(i)));
        assert(lines.take(i + 1) =~= lines.take(i as int).push(lines[i as int]));
        i = i + 1;
    }
    assert(lines.take(i as int) =~= lines);
    let mut title = " trades (".to_owned();
    title.append(text::number(tape.len() as u128).as_str());
    title.append(") ");
    Panel { title, rows: all }
}

/// The first line of the footer.
pub open spec fn counters_text(v: EngineView, skipped: u64) -> Seq<char> {
    "msgs "@ + decimal(v.stats.events as nat) + "  new "@ + decimal(v.stats.new_orders as nat)
        + "  filtered "@ + decimal(v.stats.filtered as nat) + "  cancels "@ + decimal(
        v.stats.cancels as nat,
    ) + " (hit "@ + decimal(v.stats.cancels_hit as nat) + " / unknown "@ + decimal(
        v.stats.cancels_unknown as nat,
    ) + ")  skipped "@ + decimal(skipped as nat)
}

fn counters(engine: &Engine, skipped: u64) -> (r: String)
    ensures
        r@ == counters_text(engine@, skipped),
{
    let s = engine.stats();
    let mut r = "msgs ".to_owned();
    r.append(text::number(s.events as u128).as_str());
    r.append("  new ");
    r.append(text::number(s.new_orders as u128).as_str());
    r.append("  filtered ");
    r.append(text::number(s.filtered as u128).as_str());
    r.append("  cancels ");
    r.append(text::number(s.cancels as u128).as_str());
    r.append(" (hit ");
    r.append(text::number(s.cancels_hit as u128).as_str());
    r.append(" / unknown ");
    r.append(text::number(s.cancels_unknown as u128).as_str());
    r.append(")  skipped ");
    r.append(text::number(skipped as u128).as_str());
    r
}

/// The second line of the footer.
pub open spec fn totals_text(v: EngineView) -> Seq<char> {
    "trades "@ + decimal(v.stats.trades as nat) + "  volume "@ + qty_text(v.stats.volume)
        + "  cancelled "@ + qty_text(v.stats.cancelled_qty) + "  resting "@ + decimal(
        v.resting() as nat,
    ) + "  indexed "@ + decimal(v.routes.len()) + "  net "@ + qty_text(v.market.net())
}

fn totals(engine: &Engine) -> (r: String)
    requires
        engine.wf(),
    ensures
        r@ == totals_text(engine@),
{
    let s = engine.stats();
    let mut r = "trades ".to_owned();
    r.append(text::number(s.trades as u128).as_str());
    r.append("  volume ");
    r.append(Qty(s.volume).to_string().as_str());
    r.append("  cancelled ");
    r.append(Qty(s.cancelled_qty).to_string().as_str());
    r.append("  resting ");
    r.append(text::number(engine.resting_wide()).as_str());
    r.append("  indexed ");
    r.append(text::number(engine.indexed() as u128).as_str());
    r.append("  net ");
    r.append(Qty(engine.market().net_position()).to_string().as_str());
    r
}

/// What is wrong with the engine, if anything is: the names of the broken
/// invariants, set apart by commas.
pub open spec fn broken(v: EngineView) -> Seq<char> {
    let drifted = v.routes.len() != v.resting();
    let unbalanced = v.market.net() != 0;
    (if v.any_crossed() {
        "book crossed"@
    } else {
        ""@
    }) + (if v.any_crossed() && drifted {
        ", "@
    } else {
        ""@
    }) + (if drifted {
        "index drifted"@
    } else {
        ""@
    }) + (if (v.any_crossed() || drifted) && unbalanced {
        ", "@
    } else {
        ""@
    }) + (if unbalanced {
        "positions do not net to zero"@
    } else {
        ""@
    })
}

/// The last row of the footer.
pub open spec fn health_row(v: EngineView) -> Seq<SpanView> {
    if v.any_crossed() || v.routes.len() != v.resting() || v.market.net() != 0 {
        seq![strong("INVARIANT VIOLATED: "@ + broken(v), Tone::Red)]
    } else {
        seq![toned("invariants ok"@, Tone::Green)]
    }
}

fn put_health(all: &mut Vec<Vec<Span>>, engine: &Engine)
    requires
        engine.wf(),
    ensures
        rows(final(all)@) == rows(old(all)@).push(health_row(engine@)),
{
    let crossed = engine.any_crossed();
    let drifted = engine.indexed() as u128 != engine.resting_wide();
    let unbalanced = engine.market().net_position() != 0;
    if crossed || drifted || unbalanced {
        let mut names = (if crossed { "book crossed" } else { "" }).to_owned();
        names.append(if crossed && drifted { ", " } else { "" });
        names.append(if drifted { "index drifted" } else { "" });
        names.append(if (crossed || drifted) && unbalanced { ", " } else { "" });
        names.append(if unbalanced { "positions do not net to zero" } else { "" });
        let mut r = "INVARIANT VIOLATED: ".to_owned();
        r.append(names.as_str());
        put_row(all, r, Tone::Red, true);
    } else {
        put_row(all, "invariants ok".to_owned(), Tone::Green, false);
    }
}

/// The footer, given the positions to show.
pub open spec fn footer_rows(
    v: EngineView,
    skipped: u64,
    top: Seq<(AccountId, Symbol, Qty)>,
) -> Seq<Seq<SpanView>> {
    seq![seq![raw(counters_text(v, skipped))], seq![raw(totals_text(v))]] + (if top.len() == 0 {
        seq![]
    } else {
        seq![seq![toned("positions: "@ + positions_text(top), Tone::Dim)]]
    }) + seq![health_row(v)]
}

/// The footer: the counters, the four largest positions, and the same
/// invariants that the plain renderer checks, where they cannot scroll away.
pub fn footer(engine: &Engine, skipped: u64) -> (r: Vec<Vec<Span>>)
    requires
        engine.wf(),
    ensures
        exists|top: Seq<(AccountId, Symbol, Qty)>| #[trigger]
            engine@.market.top(top, 4) && rows(r@) == footer_rows(engine@, skipped, top),
{
    let mut all: Vec<Vec<Span>> = Vec::new();
    put_row(&mut all, counters(engine, skipped), Tone::Plain, false);
    put_row(&mut all, totals(engine), Tone::Plain, false);
    let top = engine.market().top_positions(4);
    if top.len() > 0 {
        let mut r = "positions: ".to_owned();
        r.append(fmt_positions(&top).as_str());
        put_row(&mut all, r, Tone::Dim, false);
    }
    put_health(&mut all, engine);
    proof {
        assert(rows(all@) =~= footer_rows(engine@, skipped, top@));
        assert(engine@.market.top(top@, 4));
    }
    all
}

/// The footer of a run whose orders have ids of their own says that all is
/// well.
pub proof fn law_a_clean_run_is_healthy(only: Option<Seq<char>>, events: Seq<Event>)
    requires
        distinct_orders(events),
    ensures
        health_row(replay(EngineView::empty(only), events)) == seq![
            toned("invariants ok"@, Tone::Green),
        ],
{
    law_no_book_is_ever_crossed(only, events);
    law_the_routing_index_never_drifts(only, events);
    law_positions_net_to_zero_after_every_run(only, events);
}

/// A share of a split.
#[derive(Debug, Clone, Copy, PartialEq, Eq, Structural)]
pub enum Slot {
    /// Exactly so many cells.
    Length(u16),
    /// At least so many cells, and whatever is left.
    Min(u16),
    /// So many hundredths.
    Percentage(u16),
    /// A fraction.
    Ratio(u32, u32),
}

/// How an area is cut up.
#[derive(Debug, Clone, PartialEq, Eq)]
pub struct Split {
    /// Side by side, or stacked.
    pub across: bool,
    pub slots: Vec<Slot>,
}

/// The whole screen: header, body and footer, stacked.
pub fn page_split() -> (r: Split)
    ensures
        !r.across,
        r.slots@ == seq![Slot::Length(3), Slot::Min(0), Slot::Length(6)],
{
    let slots = vec![Slot::Length(3), Slot::Min(0), Slot::Length(6)];
    assert(slots@ =~= seq![Slot::Length(3), Slot::Min(0), Slot::Length(6)]);
    Split { across: false, slots }
}

/// The body: the books and the tape. Narrow terminals cannot fit them side by
/// side, so they are stacked instead.
fn body_split(width: u16) -> (r: Split)
    ensures
        r.across == (width >= 100),
        width >= 100 ==> r.slots@ == seq![Slot::Percentage(62), Slot::Percentage(38)],
        width < 100 ==> r.slots@ == seq![Slot::Min(0), Slot::Length(10)],
{
    let across = width >= NARROW_WIDTH;
    let slots = if across {
        vec![Slot::Percentage(62), Slot::Percentage(38)]
    } else {
        vec![Slot::Min(0), Slot::Length(10)]
    };
    assert(across ==> slots@ =~= seq![Slot::Percentage(62), Slot::Percentage(38)]);
    assert(!across ==> slots@ =~= seq![Slot::Min(0), Slot::Length(10)]);
    Split { across, slots }
}

/// Equal shares for so many books.
fn books_split(across: bool, books: usize) -> (r: Split)
    ensures
        r.across == across,
        r.slots@ == Seq::new(books as nat, |i: int| Slot::Ratio(1, books as u32)),
{
    let mut slots: Vec<Slot> = Vec::new();
    let mut i: usize = 0;
    while i < books
        invariant
            i <= books,
            slots@ == Seq::new(i as nat, |k: int| Slot::Ratio(1, books as u32)),
        decreases books - i,
    {
        slots.push(Slot::Ratio(1, books as u32));
        i = i + 1;
        assert(slots@ =~= Seq::new(i as nat, |k: int| Slot::Ratio(1, books as u32)));
    }
    assert(slots@ =~= Seq::new(books as nat, |k: int| Slot::Ratio(1, books as u32)));
    Split { across, slots }
}

/// How the body of a screen `width` columns wide is laid out: how the books
/// and the tape share it, and, once there is a book, which symbols' panels
/// share the books' part and how. Below a hundred columns of screen everything
/// is stacked; from there on the panels sit side by side.
pub fn body_layout(engine: &Engine, width: u16) -> (r: (Split, Option<(Vec<Symbol>, Split)>))
    requires
        engine.wf(),
    ensures
        r.0.across == (width >= 100),
        width >= 100 ==> r.0.slots@ == seq![Slot::Percentage(62), Slot::Percentage(38)],
        width < 100 ==> r.0.slots@ == seq![Slot::Min(0), Slot::Length(10)],
        r.1 is None == (engine@.books.dom() =~= Set::empty()),
        r.1 matches Some(b) ==> {
            &&& named(b.0@) == book_names(engine@)
            &&& in_dictionary_order(named(b.0@))
            &&& named(b.0@).to_set() == engine@.books.dom()
            &&& b.1.across == (width >= 100)
            &&& b.1.slots@.len() == b.0@.len()
            &&& forall|i: int|
                0 <= i < b.1.slots@.len() ==> #[trigger] b.1.slots@[i] == Slot::Ratio(
                    1,
                    b.0@.len() as u32,
                )
        },
{
    let body = body_split(width);
    let symbols = sorted_symbols(engine);
    let ghost names = named(symbols@);
    if symbols.len() == 0 {
        assert(engine@.books.dom() =~= Set::empty()) by {
            assert forall|name: Seq<char>| !engine@.books.dom().contains(name) by {
                assert(names.to_set().contains(name) == names.contains(name));
            }
        }
        return (body, None);
    }
    assert(engine@.books.dom().contains(names[0])) by {
        assert(names.contains(names[0]));
        assert(names.to_set().contains(names[0]));
    }
    let shares = books_split(body.across, symbols.len());
    (body, Some((symbols, shares)))
}

/// A key of the keyboard, as far as the UI tells keys apart.
#[derive(Debug, Clone, Copy, PartialEq, Eq, Structural)]
pub enum Key {
    Char(char),
    Esc,
    Other,
}

/// Whether a key event asks to quit. Only a press does; terminals that report
/// releases would quit twice otherwise.
pub fn asks_to_quit(key: Key, pressed: bool) -> (r: bool)
    ensures
        r == (pressed && (key == Key::Char('q') || key == Key::Char('Q') || key == Key::Esc)),
{
    pressed && match key {
        Key::Char(c) => c == 'q' || c == 'Q',
        Key::Esc => true,
        Key::Other => false,
    }
}

} // verus!
