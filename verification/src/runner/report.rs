//! The plain renderer: scrolling rows and market snapshots, as text.

use crate::engine::book::{lists_wide_levels, top_levels, BookView, OrderBook};
use crate::engine::laws::routing::{
    law_no_book_is_ever_crossed, law_the_routing_index_never_drifts,
};
use crate::engine::laws::tape::{
    law_positions_net_to_zero_after_every_run, law_the_top_positions_are_determined, same_position,
};
use crate::engine::laws::{distinct_orders, replay};
use crate::engine::market::{quotient, SymbolState, SymbolView};
use crate::engine::matcher::{Engine, EngineView};
use crate::engine::text;
use crate::engine::text::{at_left, at_right, decimal, fixed, run_of};
use crate::engine::types::{price_text, qty_text, Event, Price, Qty, Symbol, Trade};
use crate::feed::{AccountId, OrderId, Side};
use crate::runner::names::{book_names, named, sorted_symbols};
use vstd::prelude::*;

verus! {

/// Price levels shown per side in the snapshot.
pub const DEPTH_LEVELS: usize = 3;

/// How wide the rules of the report are.
pub const RULE_WIDTH: usize = 84;

/// One line of output.
#[derive(Debug, Clone, PartialEq, Eq)]
pub struct Line {
    pub text: String,
    /// Whether the line reports a problem, and so goes to the error stream.
    pub problem: bool,
}

/// A line of output by its characters.
#[verifier::ext_equal]
pub struct LineView {
    pub text: Seq<char>,
    pub problem: bool,
}

impl View for Line {
    type V = LineView;

    open spec fn view(&self) -> LineView {
        LineView { text: self.text@, problem: self.problem }
    }
}

/// A list of lines by their characters.
pub open spec fn shown(lines: Seq<Line>) -> Seq<LineView> {
    lines.map_values(|l: Line| l@)
}

pub open spec fn plain(text: Seq<char>) -> LineView {
    LineView { text, problem: false }
}

pub open spec fn problem(text: Seq<char>) -> LineView {
    LineView { text, problem: true }
}

/// Adds an ordinary line.
pub fn say(lines: &mut Vec<Line>, text: String)
    ensures
        shown(final(lines)@) == shown(old(lines)@).push(plain(text@)),
{
    lines.push(Line { text, problem: false });
    assert(shown(lines@) =~= shown(old(lines)@).push(plain(text@)));
}

/// Adds a line for the error stream.
pub fn complain(lines: &mut Vec<Line>, text: String)
    ensures
        shown(final(lines)@) == shown(old(lines)@).push(problem(text@)),
{
    lines.push(Line { text, problem: true });
    assert(shown(lines@) =~= shown(old(lines)@).push(problem(text@)));
}

pub open spec fn side_text(side: Side) -> Seq<char> {
    match side {
        Side::Buy => "BUY"@,
        Side::Sell => "SELL"@,
    }
}

pub fn side_label(side: Side) -> (r: &'static str)
    ensures
        r@ == side_text(side),
{
    match side {
        Side::Buy => "BUY",
        Side::Sell => "SELL",
    }
}

/// A price, or a dash where there is none yet.
pub open spec fn price_or_dash(p: Option<Price>) -> Seq<char> {
    match p {
        Some(p) => price_text(p),
        None => "-"@,
    }
}

pub fn fmt_price(p: Option<Price>) -> (r: String)
    ensures
        r@ == price_or_dash(p),
{
    match p {
        Some(p) => p.to_string(),
        None => "-".to_owned(),
    }
}

/// The volume-weighted average price, or a dash before the first trade.
pub open spec fn vwap_text(s: SymbolView) -> Seq<char> {
    if s.volume == 0 {
        "-"@
    } else {
        fixed(quotient(s.notional, s.volume), 100, 2)
    }
}

pub fn fmt_vwap(s: &SymbolState) -> (r: String)
    ensures
        r@ == vwap_text(s@),
{
    if s.volume == 0 {
        "-".to_owned()
    } else {
        text::fixed_point(s.wide_vwap(), 100, 2)
    }
}

/// The row of one feed message, before it is applied. A cancel carries no
/// symbol, so it is looked up among the routes.
pub open spec fn message_row(v: EngineView, event: Event) -> Seq<char> {
    match event {
        Event::New { symbol, order } => "#"@ + at_right(decimal(order.id as nat), 6)
            + " | NEW    | "@ + at_left(symbol@, 8) + " | acct "@ + at_right(
            decimal(order.account as nat),
            3,
        ) + " | "@ + at_left(side_text(order.side), 4) + " | "@ + at_right(
            price_text(order.price),
            9,
        ) + " x "@ + at_right(qty_text(order.qty.0 as int), 5),
        Event::Cancel { seq, account, target_id } => {
            let hit = v.routes.contains_key(target_id);
            let symbol = if hit {
                v.routes[target_id]
            } else {
                "?"@
            };
            let outcome = if hit {
                "hit"@
            } else {
                "unknown"@
            };
            "#"@ + at_right(decimal(seq as nat), 6) + " | CANCEL | "@ + at_left(symbol, 8)
                + " | acct "@ + at_right(decimal(account as nat), 3) + " | -> #"@ + at_left(
                decimal(target_id as nat),
                6,
            ) + " "@ + at_right("["@ + outcome + "]"@, 16)
        },
    }
}

/// One row per feed message, made before the event is applied.
pub fn message_line(engine: &Engine, event: &Event) -> (r: String)
    ensures
        r@ == message_row(engine@, *event),
{
    let mut r = "#".to_owned();
    match event {
        Event::New { symbol, order } => {
            r.append(text::align_right(text::number(order.id as u128).as_str(), 6).as_str());
            r.append(" | NEW    | ");
            r.append(text::align_left(symbol, 8).as_str());
            r.append(" | acct ");
            r.append(text::align_right(text::number(order.account as u128).as_str(), 3).as_str());
            r.append(" | ");
            r.append(text::align_left(side_label(order.side), 4).as_str());
            r.append(" | ");
            r.append(text::align_right(order.price.to_string().as_str(), 9).as_str());
            r.append(" x ");
            r.append(text::align_right(order.qty.to_string().as_str(), 5).as_str());
        },
        Event::Cancel { seq, account, target_id } => {
            // The wire message carries no symbol, so it is resolved here from
            // the engine's routing index, before `apply` consumes the entry.
            let (symbol, outcome) = match engine.symbol_of(*target_id) {
                Some(s) => (s, "hit"),
                None => ("?", "unknown"),
            };
            r.append(text::align_right(text::number(*seq as u128).as_str(), 6).as_str());
            r.append(" | CANCEL | ");
            r.append(text::align_left(symbol, 8).as_str());
            r.append(" | acct ");
            r.append(text::align_right(text::number(*account as u128).as_str(), 3).as_str());
            r.append(" | -> #");
            r.append(text::align_left(text::number(*target_id as u128).as_str(), 6).as_str());
            r.append(" ");
            let mut tag = "[".to_owned();
            tag.append(outcome);
            tag.append("]");
            r.append(text::align_right(tag.as_str(), 16).as_str());
        },
    }
    r
}

/// The row of one trade, indented under the message that caused it.
pub open spec fn trade_row(t: Trade) -> Seq<char> {
    "        +- TRADE | "@ + at_left(t.symbol@, 8) + " | maker #"@ + decimal(t.maker_order as nat)
        + " a"@ + decimal(t.maker_account as nat) + " <- taker #"@ + decimal(t.taker_order as nat)
        + " a"@ + decimal(t.taker_account as nat) + " | "@ + price_text(t.price) + " x "@
        + qty_text(t.qty.0 as int)
}

/// Trades are indented under the message that caused them.
pub fn trade_line(t: &Trade) -> (r: String)
    ensures
        r@ == trade_row(*t),
{
    let mut r = "        +- TRADE | ".to_owned();
    r.append(text::align_left(t.symbol, 8).as_str());
    r.append(" | maker #");
    r.append(text::number(t.maker_order as u128).as_str());
    r.append(" a");
    r.append(text::number(t.maker_account as u128).as_str());
    r.append(" <- taker #");
    r.append(text::number(t.taker_order as u128).as_str());
    r.append(" a");
    r.append(text::number(t.taker_account as u128).as_str());
    r.append(" | ");
    r.append(t.price.to_string().as_str());
    r.append(" x ");
    r.append(t.qty.to_string().as_str());
    r
}

/// The first line of a snapshot: where the run is, and what it has read.
pub open spec fn counters_row(v: EngineView, cursor: OrderId, skipped: u64) -> Seq<char> {
    "cursor="@ + decimal(cursor as nat) + " msgs="@ + decimal(v.stats.events as nat) + " new="@
        + decimal(v.stats.new_orders as nat) + " filtered="@ + decimal(v.stats.filtered as nat)
        + " cancels="@ + decimal(v.stats.cancels as nat) + " (hit "@ + decimal(
        v.stats.cancels_hit as nat,
    ) + " / unknown "@ + decimal(v.stats.cancels_unknown as nat) + ") skipped="@ + decimal(
        skipped as nat,
    )
}

fn counters_line(engine: &Engine, cursor: OrderId, skipped: u64) -> (r: String)
    ensures
        r@ == counters_row(engine@, cursor, skipped),
{
    let s = engine.stats();
    let mut r = "cursor=".to_owned();
    r.append(text::number(cursor as u128).as_str());
    r.append(" msgs=");
    r.append(text::number(s.events as u128).as_str());
    r.append(" new=");
    r.append(text::number(s.new_orders as u128).as_str());
    r.append(" filtered=");
    r.append(text::number(s.filtered as u128).as_str());
    r.append(" cancels=");
    r.append(text::number(s.cancels as u128).as_str());
    r.append(" (hit ");
    r.append(text::number(s.cancels_hit as u128).as_str());
    r.append(" / unknown ");
    r.append(text::number(s.cancels_unknown as u128).as_str());
    r.append(") skipped=");
    r.append(text::number(skipped as u128).as_str());
    r
}

/// The second line of a snapshot: what the run has matched.
pub open spec fn totals_row(v: EngineView) -> Seq<char> {
    "trades="@ + decimal(v.stats.trades as nat) + " volume="@ + qty_text(v.stats.volume)
        + " cancelled="@ + qty_text(v.stats.cancelled_qty) + " resting="@ + decimal(
        v.resting() as nat,
    ) + " indexed="@ + decimal(v.routes.len()) + " net_position="@ + qty_text(v.market.net())
}

fn totals_line(engine: &Engine) -> (r: String)
    requires
        engine.wf(),
    ensures
        r@ == totals_row(engine@),
{
    let s = engine.stats();
    let mut r = "trades=".to_owned();
    r.append(text::number(s.trades as u128).as_str());
    r.append(" volume=");
    r.append(Qty(s.volume).to_string().as_str());
    r.append(" cancelled=");
    r.append(Qty(s.cancelled_qty).to_string().as_str());
    r.append(" resting=");
    r.append(text::number(engine.resting_wide()).as_str());
    r.append(" indexed=");
    r.append(text::number(engine.indexed() as u128).as_str());
    r.append(" net_position=");
    r.append(Qty(engine.market().net_position()).to_string().as_str());
    r
}

/// What the tape says of one symbol, in a snapshot.
pub open spec fn market_row(v: EngineView, name: Seq<char>) -> Seq<char> {
    if v.market.ledgers.contains_key(name) {
        let s = v.market.ledgers[name].state;
        "  "@ + at_left(name, 8) + "  last "@ + at_right(price_or_dash(s.last), 9) + "  vwap "@
            + at_right(vwap_text(s), 9) + "  hi "@ + at_right(price_or_dash(s.high), 9) + "  lo "@
            + at_right(price_or_dash(s.low), 9) + "  vol "@ + at_right(qty_text(s.volume), 7)
            + " ("@ + decimal(s.trades as nat) + " trades)"@
    } else {
        "  "@ + at_left(name, 8) + "  (no trades yet)"@
    }
}

fn market_line(engine: &Engine, symbol: Symbol) -> (r: String)
    ensures
        r@ == market_row(engine@, symbol@),
{
    let mut r = "  ".to_owned();
    r.append(text::align_left(symbol, 8).as_str());
    match engine.market().symbol(symbol) {
        Some(m) => {
            r.append("  last ");
            r.append(text::align_right(fmt_price(m.last).as_str(), 9).as_str());
            r.append("  vwap ");
            r.append(text::align_right(fmt_vwap(m).as_str(), 9).as_str());
            r.append("  hi ");
            r.append(text::align_right(fmt_price(m.high).as_str(), 9).as_str());
            r.append("  lo ");
            r.append(text::align_right(fmt_price(m.low).as_str(), 9).as_str());
            r.append("  vol ");
            r.append(text::align_right(Qty(m.volume).to_string().as_str(), 7).as_str());
            r.append(" (");
            r.append(text::number(m.trades as u128).as_str());
            r.append(" trades)");
        },
        None => {
            r.append("  (no trades yet)");
        },
    }
    r
}

/// One level of a side, or nothing where the side is not that deep.
pub open spec fn level_text(levels: Seq<(Price, int)>, i: int) -> Seq<char> {
    if 0 <= i < levels.len() {
        price_text(levels[i].0) + " x "@ + qty_text(levels[i].1)
    } else {
        ""@
    }
}

/// Writes one level of a side.
pub fn fmt_level(levels: &Vec<(Price, i128)>, i: usize) -> (r: String)
    ensures
        forall|l: Seq<(Price, int)>|
            lists_wide_levels(levels@, l) ==> r@ == #[trigger] level_text(l, i as int),
{
    if i < levels.len() {
        let (price, qty) = levels[i];
        let mut r = price.to_string();
        r.append(" x ");
        r.append(text::fixed_point(qty, 10, 1).as_str());
        r
    } else {
        "".to_owned()
    }
}

/// How many rows show the top of a book: as many as its deeper side has
/// levels, up to `n`.
pub open spec fn depth_of(b: BookView, n: int) -> int {
    let (bids, asks) = (top_levels(b.bids, n).len(), top_levels(b.asks, n).len());
    if bids >= asks {
        bids as int
    } else {
        asks as int
    }
}

/// One row of a book: a bid level at the left, an ask level at the right.
pub open spec fn depth_row(b: BookView, i: int) -> Seq<char> {
    "            "@ + at_right(level_text(top_levels(b.bids, 3), i), 11) + " | "@ + at_left(
        level_text(top_levels(b.asks, 3), i),
        11,
    )
}

/// The lines of one symbol in a snapshot.
pub open spec fn symbol_lines(v: EngineView, name: Seq<char>) -> Seq<LineView> {
    let b = v.book(name);
    seq![plain(market_row(v, name))] + Seq::new(
        depth_of(b, 3) as nat,
        |i: int| plain(depth_row(b, i)),
    )
}

fn say_symbol(lines: &mut Vec<Line>, engine: &Engine, symbol: Symbol, book: &OrderBook)
    requires
        book@ == engine@.book(symbol@),
    ensures
        shown(final(lines)@) == shown(old(lines)@) + symbol_lines(engine@, symbol@),
{
    let ghost start = shown(lines@);
    let ghost b = engine@.book(symbol@);
    let ghost all = symbol_lines(engine@, symbol@);
    say(lines, market_line(engine, symbol));
    let (bids, asks) = book.depth_wide(DEPTH_LEVELS);
    let rows = if bids.len() >= asks.len() { bids.len() } else { asks.len() };
    let mut i: usize = 0;
    assert(shown(lines@) =~= start + all.take(1));
    while i < rows
        invariant
            i <= rows,
            rows == depth_of(b, 3),
            all == symbol_lines(engine@, symbol@),
            b == engine@.book(symbol@),
            lists_wide_levels(bids@, top_levels(b.bids, 3)),
            lists_wide_levels(asks@, top_levels(b.asks, 3)),
            shown(lines@) == start + all.take(i + 1),
        decreases rows - i,
    {
        let mut r = "            ".to_owned();
        let bid = fmt_level(&bids, i);
        let ask = fmt_level(&asks, i);
        assert(bid@ == level_text(top_levels(b.bids, 3), i as int));
        assert(ask@ == level_text(top_levels(b.asks, 3), i as int));
        r.append(text::align_right(bid.as_str(), 11).as_str());
        r.append(" | ");
        r.append(text::align_left(ask.as_str(), 11).as_str());
        say(lines, r);
        i = i + 1;
        assert(all[i as int] == plain(depth_row(b, i - 1)));
        assert(shown(lines@) =~= start + all.take(i + 1));
    }
    assert(all.take(i + 1) =~= all);
}

/// The lines of several symbols, one after the other.
pub open spec fn symbols_lines(v: EngineView, names: Seq<Seq<char>>) -> Seq<LineView>
    decreases names.len(),
{
    if names.len() == 0 {
        seq![]
    } else {
        symbols_lines(v, names.drop_last()) + symbol_lines(v, names.last())
    }
}

fn say_symbols(lines: &mut Vec<Line>, engine: &Engine)
    requires
        engine.wf(),
    ensures
        shown(final(lines)@) == shown(old(lines)@) + symbols_lines(engine@, book_names(engine@)),
{
    let ghost start = shown(lines@);
    let symbols = sorted_symbols(engine);
    let ghost names = named(symbols@);
    let mut i: usize = 0;
    assert(shown(lines@) =~= start + symbols_lines(engine@, names.take(0)));
    while i < symbols.len()
        invariant
            i <= symbols@.len(),
            engine.wf(),
            names == named(symbols@),
            names.to_set() == engine@.books.dom(),
            shown(lines@) == start + symbols_lines(engine@, names.take(i as int)),
        decreases symbols@.len() - i,
    {
        let symbol = symbols[i];
        proof {
            assert(names[i as int] == symbol@);
            assert(names.to_set().contains(symbol@));
            assert(names.take(i + 1).drop_last() =~= names.take(i as int));
        }
        if let Some(book) = engine.book(symbol) {
            say_symbol(lines, engine, symbol, book);
        }
        i = i + 1;
        assert(shown(lines@) =~= start + symbols_lines(engine@, names.take(i as int)));
    }
    assert(names.take(i as int) =~= names);
}

/// One position: the sign of a long one is written out.
pub open spec fn position_text(p: (AccountId, Symbol, Qty)) -> Seq<char> {
    "a"@ + decimal(p.0 as nat) + " "@ + p.1@ + " "@ + (if p.2.0 > 0 {
        "+"@
    } else {
        ""@
    }) + qty_text(p.2.0 as int)
}

fn fmt_position(p: &(AccountId, Symbol, Qty)) -> (r: String)
    ensures
        r@ == position_text(*p),
{
    let mut r = "a".to_owned();
    r.append(text::number(p.0 as u128).as_str());
    r.append(" ");
    r.append(p.1);
    r.append(" ");
    r.append(if p.2.0 > 0 { "+" } else { "" });
    r.append(p.2.to_string().as_str());
    r
}

/// Positions in one line, set apart by bars.
pub open spec fn positions_text(top: Seq<(AccountId, Symbol, Qty)>) -> Seq<char>
    decreases top.len(),
{
    if top.len() == 0 {
        ""@
    } else if top.len() == 1 {
        position_text(top[0])
    } else {
        positions_text(top.drop_last()) + "  |  "@ + position_text(top.last())
    }
}

/// Writes positions in one line.
pub fn fmt_positions(top: &Vec<(AccountId, Symbol, Qty)>) -> (r: String)
    ensures
        r@ == positions_text(top@),
{
    if top.len() == 0 {
        return "".to_owned();
    }
    let mut r = fmt_position(&top[0]);
    let mut i: usize = 1;
    assert(top@.take(1) =~= seq![top@[0]]);
    while i < top.len()
        invariant
            1 <= i <= top@.len(),
            r@ == positions_text(top@.take(i as int)),
        decreases top@.len() - i,
    {
        r.append("  |  ");
        r.append(fmt_position(&top[i]).as_str());
        assert(top@.take(i + 1).drop_last() =~= top@.take(i as int));
        assert(top@.take(i + 1).last() == top@[i as int]);
        i = i + 1;
    }
    assert(top@.take(i as int) =~= top@);
    r
}

/// The complaints of a snapshot: matching leaves no book crossed, the routing
/// index tracks the books exactly, and every unit bought was sold by someone.
pub open spec fn complaints(v: EngineView) -> Seq<LineView> {
    (if v.any_crossed() {
        seq![problem("  !! INVARIANT VIOLATED: a book is crossed after matching"@)]
    } else {
        seq![]
    }) + (if v.routes.len() != v.resting() {
        seq![problem("  !! INVARIANT VIOLATED: routing index drifted from the books"@)]
    } else {
        seq![]
    }) + (if v.market.net() != 0 {
        seq![problem("  !! INVARIANT VIOLATED: positions do not net to zero"@)]
    } else {
        seq![]
    })
}

/// A snapshot of the market, given the positions to show.
pub open spec fn snapshot_lines(
    v: EngineView,
    cursor: OrderId,
    skipped: u64,
    top: Seq<(AccountId, Symbol, Qty)>,
) -> Seq<LineView> {
    let rule = plain(run_of('-', 84));
    seq![rule, plain(counters_row(v, cursor, skipped)), plain(totals_row(v))] + symbols_lines(
        v,
        book_names(v),
    ) + (if top.len() == 0 {
        seq![]
    } else {
        seq![plain("  positions: "@ + positions_text(top))]
    }) + complaints(v) + seq![rule]
}

/// Whether `lines` is a snapshot of the market: counters, each symbol in
/// dictionary order with its top levels, the four largest positions, and what
/// is wrong, if anything is.
pub open spec fn is_snapshot(
    v: EngineView,
    cursor: OrderId,
    skipped: u64,
    lines: Seq<LineView>,
) -> bool {
    exists|top: Seq<(AccountId, Symbol, Qty)>| #[trigger]
        v.market.top(top, 4) && lines == snapshot_lines(v, cursor, skipped, top)
}

/// The market snapshot, line by line.
pub fn snapshot(engine: &Engine, cursor: OrderId, skipped: u64) -> (r: Vec<Line>)
    requires
        engine.wf(),
    ensures
        is_snapshot(engine@, cursor, skipped, shown(r@)),
{
    let ghost v = engine@;
    let mut lines: Vec<Line> = Vec::new();
    assert(shown(lines@) =~= seq![]);
    say(&mut lines, text::dashes(RULE_WIDTH));
    say(&mut lines, counters_line(engine, cursor, skipped));
    say(&mut lines, totals_line(engine));
    let ghost head = seq![
        plain(run_of('-', 84)),
        plain(counters_row(v, cursor, skipped)),
        plain(totals_row(v)),
    ];
    assert(shown(lines@) =~= head);
    say_symbols(&mut lines, engine);
    let top = engine.market().top_positions(4);
    let ghost held = if top@.len() == 0 {
        seq![]
    } else {
        seq![plain("  positions: "@ + positions_text(top@))]
    };
    if top.len() > 0 {
        let mut r = "  positions: ".to_owned();
        r.append(fmt_positions(&top).as_str());
        say(&mut lines, r);
    }
    let ghost body = head + symbols_lines(v, book_names(v)) + held;
    assert(shown(lines@) =~= body);
    if engine.any_crossed() {
        complain(
            &mut lines,
            "  !! INVARIANT VIOLATED: a book is crossed after matching".to_owned(),
        );
    }
    if engine.indexed() as u128 != engine.resting_wide() {
        complain(
            &mut lines,
            "  !! INVARIANT VIOLATED: routing index drifted from the books".to_owned(),
        );
    }
    if engine.market().net_position() != 0 {
        complain(
            &mut lines,
            "  !! INVARIANT VIOLATED: positions do not net to zero".to_owned(),
        );
    }
    assert(shown(lines@) =~= body + complaints(v));
    say(&mut lines, text::dashes(RULE_WIDTH));
    proof {
        assert(shown(lines@) =~= snapshot_lines(v, cursor, skipped, top@));
        assert(v.market.top(top@, 4));
    }
    lines
}

proof fn lemma_same_text(a: Seq<(AccountId, Symbol, Qty)>, b: Seq<(AccountId, Symbol, Qty)>)
    requires
        a.len() == b.len(),
        forall|i: int| 0 <= i < a.len() ==> same_position(#[trigger] a[i], b[i]),
    ensures
        positions_text(a) == positions_text(b),
    decreases a.len(),
{
    if a.len() > 0 {
        let (x, y) = (a.drop_last(), b.drop_last());
        assert forall|i: int| 0 <= i < x.len() implies same_position(#[trigger] x[i], y[i]) by {
            assert(same_position(a[i], b[i]));
        }
        lemma_same_text(x, y);
        assert(same_position(a[a.len() - 1], b[b.len() - 1]));
        assert(position_text(a.last()) == position_text(b.last()));
    }
}

/// A state of the run has one snapshot.
pub proof fn law_a_snapshot_is_determined(
    v: EngineView,
    cursor: OrderId,
    skipped: u64,
    a: Seq<LineView>,
    b: Seq<LineView>,
)
    requires
        is_snapshot(v, cursor, skipped, a),
        is_snapshot(v, cursor, skipped, b),
    ensures
        a == b,
{
    let x = choose|top: Seq<(AccountId, Symbol, Qty)>| #[trigger]
        v.market.top(top, 4) && a == snapshot_lines(v, cursor, skipped, top);
    let y = choose|top: Seq<(AccountId, Symbol, Qty)>| #[trigger]
        v.market.top(top, 4) && b == snapshot_lines(v, cursor, skipped, top);
    law_the_top_positions_are_determined(v.market, x, y, 4);
    lemma_same_text(x, y);
}

/// A run whose orders have ids of their own has nothing to complain about.
pub proof fn law_a_clean_run_has_no_complaints(only: Option<Seq<char>>, events: Seq<Event>)
    requires
        distinct_orders(events),
    ensures
        complaints(replay(EngineView::empty(only), events)) == Seq::<LineView>::empty(),
{
    law_no_book_is_ever_crossed(only, events);
    law_the_routing_index_never_drifts(only, events);
    law_positions_net_to_zero_after_every_run(only, events);
    assert(complaints(replay(EngineView::empty(only), events)) =~= seq![]);
}

} // verus!
