//! The panels of the terminal UI, read back.

use crate::engine::book::top_levels;
use crate::engine::laws::records::{law_the_tape_sums_up_every_run, trades_in};
use crate::engine::laws::replay;
use crate::engine::laws::trading::run_trades;
use crate::engine::matcher::EngineView;
use crate::engine::text::{at_left, at_right, decimal};
use crate::engine::types::{price_text, qty_text, Event, Qty, Symbol, Trade};
use crate::feed::{AccountId, OrderId, Side};
use crate::runner::frame::{
    counters_text, footer_rows, header_row, health_row, ladder_rows, market_rows, symbol_view,
    tape_row, tape_view, totals_text, Panel, Span, SpanView, Tone,
};
use crate::runner::laws::rows::{
    counters_of, counts, counts_events, fields_of, lemma_counters_count, lemma_counts,
    lemma_fields_tell, lemma_level_shown, lemma_measures, lemma_prices, lemma_totals_add_up,
    measures, prices, shows_rank, tells, totals_of, totals_up, CounterFields, MarketFields,
    TotalFields,
};
use crate::runner::report::{level_text, positions_text, shown, Line};
use crate::runner::tape::{entry_of, TapeView};
use vstd::prelude::*;

verus! {

/// Whether a span is this text, in this colour, and bold or not.
pub open spec fn is_span(s: SpanView, text: Seq<char>, tone: Tone, bold: bool) -> bool {
    s.text == text && s.tone == tone && s.bold == bold
}

/// The header names the feed, says in green that it answers or in bold red
/// that it does not, and gives the cursor and the filter.
pub proof fn law_the_header_says_where_the_run_is(
    url: Seq<char>,
    connected: bool,
    cursor: OrderId,
    filter: Option<Symbol>,
) -> (f: Seq<char>)
    ensures
        counts(f, cursor as int),
        ({
            let r = header_row(url, connected, cursor, filter);
            &&& r.len() == 5
            &&& is_span(r[0], url + "  "@, Tone::Plain, false)
            &&& connected ==> is_span(r[1], "connected"@, Tone::Green, false)
            &&& !connected ==> is_span(r[1], "RECONNECTING"@, Tone::Red, true)
            &&& is_span(r[2], "   cursor "@ + f, Tone::Plain, false)
            &&& filter matches Some(symbol) ==> is_span(
                r[3],
                "   filter "@ + symbol@,
                Tone::Plain,
                false,
            )
            &&& filter is None ==> is_span(r[3], "   filter "@ + "all"@, Tone::Plain, false)
            &&& is_span(r[4], "   [q] quit"@, Tone::Dim, false)
        }),
{
    lemma_counts(cursor as nat);
    decimal(cursor as nat)
}

/// The top of a symbol's panel tells of its trades, as the snapshot does: the
/// number after `hi` reads back as the greatest price and the number after
/// `lo` as the least.
pub proof fn law_a_panel_tells_of_the_trades(
    only: Option<Seq<char>>,
    events: Seq<Event>,
    name: Seq<char>,
) -> (f: MarketFields)
    ensures
        ({
            let start = EngineView::empty(only);
            let own = trades_in(run_trades(start, events), name);
            let r = market_rows(replay(start, events), name);
            &&& own.len() > 0 ==> {
                &&& tells(f, own)
                &&& r.len() == 2
                &&& r[0].len() == 3
                &&& is_span(r[0][0], "last "@, Tone::Plain, false)
                &&& is_span(r[0][1], f.last, Tone::Cyan, true)
                &&& is_span(r[0][2], "  vwap "@ + f.vwap, Tone::Plain, false)
                &&& r[1].len() == 1
                &&& is_span(
                    r[1][0],
                    "hi "@ + f.high + "  lo "@ + f.low + "  vol "@ + f.volume + "  ("@ + f.trades
                        + " trades)"@,
                    Tone::Dim,
                    false,
                )
            }
            &&& own.len() == 0 ==> {
                &&& r.len() == 1
                &&& r[0].len() == 1
                &&& is_span(r[0][0], "no trades yet"@, Tone::Dim, false)
            }
        }),
{
    let start = EngineView::empty(only);
    let own = trades_in(run_trades(start, events), name);
    law_the_tape_sums_up_every_run(only, events, 0, name);
    let s = replay(start, events).market.ledger(name).state;
    if own.len() > 0 {
        lemma_fields_tell(s, own);
    }
    fields_of(s)
}

/// The ladder of a book has six rows, bids in green at the left and asks in
/// red at the right, each with the price of that rank and all that rests there;
/// under them stands how many orders rest.
pub proof fn law_the_ladder_shows_the_best_prices(v: EngineView, name: Seq<char>, i: int) -> (f: (
    Seq<char>,
    Seq<char>,
    Seq<char>,
))
    requires
        v.books.contains_key(name),
        v.books[name].valid(),
        0 <= i < 6,
    ensures
        shows_rank(f.0, v.books[name].bids, Side::Buy, i),
        shows_rank(f.1, v.books[name].asks, Side::Sell, i),
        counts(f.2, v.books[name].index.len() as int),
        ({
            let r = ladder_rows(v, name);
            &&& r.len() == 7
            &&& r[i].len() == 3
            &&& is_span(r[i][0], at_right(f.0, 13), Tone::Green, false)
            &&& is_span(r[i][1], " | "@, Tone::Dim, false)
            &&& is_span(r[i][2], at_left(f.1, 13), Tone::Red, false)
            &&& r[6].len() == 1
            &&& is_span(r[6][0], f.2 + " resting"@, Tone::Dim, false)
        }),
{
    let b = v.books[name];
    lemma_level_shown(b.bids, Side::Buy, 6, i);
    lemma_level_shown(b.asks, Side::Sell, 6, i);
    lemma_counts(b.index.len());
    (
        level_text(top_levels(b.bids, 6), i),
        level_text(top_levels(b.asks, 6), i),
        decimal(b.index.len()),
    )
}

/// A symbol's panel bears its name, and holds what the tape says of it, a
/// heading, and its ladder, in this order.
pub proof fn law_a_panel_stacks_tape_and_ladder(v: EngineView, name: Seq<char>, i: int)
    ensures
        ({
            let p = symbol_view(v, name);
            let (m, l) = (market_rows(v, name), ladder_rows(v, name));
            &&& p.title == " "@ + name + " "@
            &&& p.rows.len() == m.len() + 1 + l.len()
            &&& 0 <= i < m.len() ==> p.rows[i] == m[i]
            &&& p.rows[m.len() as int].len() == 1
            &&& is_span(
                p.rows[m.len() as int][0],
                at_right("BIDS"@, 13) + " | "@ + at_left("ASKS"@, 13),
                Tone::Dim,
                true,
            )
            &&& 0 <= i < l.len() ==> p.rows[m.len() + 1 + i] == l[i]
            &&& !v.books.contains_key(name) ==> l.len() == 0
        }),
{
}

/// A row of the tape tells of its trade, marked with a green B where the
/// aggressor bought and with a red S where it sold.
pub proof fn law_a_tape_row_tells_of_its_trade(t: Trade) -> (f: (Seq<char>, Seq<char>, Seq<char>))
    ensures
        counts(f.0, t.seq as int),
        prices(f.1, t.price.0 as int),
        measures(f.2, t.qty.0 as int),
        ({
            let r = tape_row(entry_of(t));
            let tone = if t.taker_side == Side::Buy {
                Tone::Green
            } else {
                Tone::Red
            };
            &&& r.len() == 5
            &&& is_span(r[0], "#"@ + at_left(f.0, 7), Tone::Dim, false)
            &&& is_span(r[1], at_left(t.symbol@, 9) + " "@, Tone::Plain, false)
            &&& is_span(r[2], at_right(f.1, 9), tone, false)
            &&& is_span(r[3], " x "@ + at_right(f.2, 5) + " "@, Tone::Plain, false)
            &&& t.taker_side == Side::Buy ==> is_span(r[4], "B"@, Tone::Green, true)
            &&& t.taker_side == Side::Sell ==> is_span(r[4], "S"@, Tone::Red, true)
        }),
{
    lemma_counts(t.seq as nat);
    lemma_prices(t.price);
    lemma_measures(t.qty.0 as int);
    (decimal(t.seq as nat), price_text(t.price), qty_text(t.qty.0 as int))
}

/// The tape's panel has a row for each entry, newest first, and counts them in
/// its title; an empty tape says that it waits.
pub proof fn law_the_tape_panel_shows_every_entry(tape: TapeView, i: int) -> (f: Seq<char>)
    ensures
        counts(f, tape.entries.len() as int),
        ({
            let p = tape_view(tape);
            &&& tape.entries.len() > 0 ==> {
                &&& p.title == " trades ("@ + f + ") "@
                &&& p.rows.len() == tape.entries.len()
                &&& 0 <= i < tape.entries.len() ==> p.rows[i] == tape_row(tape.entries[i])
            }
            &&& tape.entries.len() == 0 ==> {
                &&& p.title == " trades "@
                &&& p.rows.len() == 1
                &&& p.rows[0].len() == 1
                &&& is_span(p.rows[0][0], "waiting for the first trade..."@, Tone::Dim, false)
            }
        }),
{
    lemma_counts(tape.entries.len());
    decimal(tape.entries.len())
}

/// The first line of the footer counts the events of the run.
pub proof fn law_the_footer_counts_the_events(
    only: Option<Seq<char>>,
    events: Seq<Event>,
    skipped: u64,
) -> (r: (CounterFields, Seq<char>))
    ensures
        ({
            let v = replay(EngineView::empty(only), events);
            let f = r.0;
            &&& counts_events(f, v, only, events)
            &&& counts(r.1, skipped as int)
            &&& counters_text(v, skipped) == "msgs "@ + f.messages + "  new "@ + f.new_orders
                + "  filtered "@ + f.filtered + "  cancels "@ + f.cancels + " (hit "@ + f.hit
                + " / unknown "@ + f.unknown + ")  skipped "@ + r.1
        }),
{
    lemma_counters_count(only, events);
    lemma_counts(skipped as nat);
    (counters_of(replay(EngineView::empty(only), events)), decimal(skipped as nat))
}

/// The second line of the footer adds up the run.
pub proof fn law_the_footer_adds_up_the_run(only: Option<Seq<char>>, events: Seq<Event>) -> (f:
    TotalFields)
    ensures
        ({
            let start = EngineView::empty(only);
            let v = replay(start, events);
            &&& totals_up(f, v, run_trades(start, events))
            &&& totals_text(v) == "trades "@ + f.trades + "  volume "@ + f.volume
                + "  cancelled "@ + f.cancelled + "  resting "@ + f.resting + "  indexed "@
                + f.indexed + "  net "@ + f.net
        }),
{
    lemma_totals_add_up(only, events);
    totals_of(replay(EngineView::empty(only), events))
}

/// Names in one line, with a comma between two.
pub open spec fn comma_list(names: Seq<Seq<char>>) -> Seq<char>
    decreases names.len(),
{
    if names.len() == 0 {
        seq![]
    } else if names.len() == 1 {
        names[0]
    } else {
        comma_list(names.drop_last()) + ", "@ + names.last()
    }
}

/// The names of what is wrong: a crossed book, an index that counts other
/// orders than the books do, positions that do not net to zero.
pub open spec fn wrongs(v: EngineView) -> Seq<Seq<char>> {
    (if v.any_crossed() {
        seq!["book crossed"@]
    } else {
        seq![]
    }) + (if v.routes.len() != v.resting() {
        seq!["index drifted"@]
    } else {
        seq![]
    }) + (if v.market.net() != 0 {
        seq!["positions do not net to zero"@]
    } else {
        seq![]
    })
}

/// The last row says in green that all is well if nothing is wrong, and else
/// names in bold red everything that is.
pub proof fn law_the_health_row_names_what_is_wrong(v: EngineView)
    ensures
        health_row(v).len() == 1,
        wrongs(v).len() == 0 ==> is_span(health_row(v)[0], "invariants ok"@, Tone::Green, false),
        wrongs(v).len() > 0 ==> is_span(
            health_row(v)[0],
            "INVARIANT VIOLATED: "@ + comma_list(wrongs(v)),
            Tone::Red,
            true,
        ),
{
    reveal_strlit("");
    reveal_with_fuel(comma_list, 4);
    let w = wrongs(v);
    let (a, b, c) = ("book crossed"@, "index drifted"@, "positions do not net to zero"@);
    if w.len() == 3 {
        assert(w.drop_last() =~= seq![a, b]);
        assert(w.drop_last().drop_last() =~= seq![a]);
    } else if w.len() == 2 {
        assert(w.drop_last() =~= seq![w[0]]);
    }
    if w.len() > 0 {
        assert(health_row(v)[0].text =~= "INVARIANT VIOLATED: "@ + comma_list(w));
    }
}

/// The footer shows the counters, the totals, the positions if there are any,
/// and how the invariants stand, in this order.
pub proof fn law_the_footer_stacks_its_rows(
    v: EngineView,
    skipped: u64,
    top: Seq<(AccountId, Symbol, Qty)>,
)
    ensures
        ({
            let r = footer_rows(v, skipped, top);
            let n = r.len() as int;
            &&& n == (if top.len() == 0 {
                3
            } else {
                4int
            })
            &&& r[0].len() == 1 && is_span(
                r[0][0],
                counters_text(v, skipped),
                Tone::Plain,
                false,
            )
            &&& r[1].len() == 1 && is_span(r[1][0], totals_text(v), Tone::Plain, false)
            &&& top.len() > 0 ==> r[2].len() == 1 && is_span(
                r[2][0],
                "positions: "@ + positions_text(top),
                Tone::Dim,
                false,
            )
            &&& r[n - 1] == health_row(v)
        }),
{
}

/// What is stated of lines, spans and panels holds of their fields, name by
/// name, and one by one.
pub proof fn law_what_is_shown_keeps_its_fields(
    l: Line,
    lines: Seq<Line>,
    s: Span,
    p: Panel,
    i: int,
    j: int,
)
    ensures
        l@.text == l.text@,
        l@.problem == l.problem,
        shown(lines).len() == lines.len(),
        0 <= i < lines.len() ==> shown(lines)[i].text == lines[i].text@ && shown(lines)[i].problem
            == lines[i].problem,
        s@.text == s.text@,
        s@.tone == s.tone,
        s@.bold == s.bold,
        p@.title == p.title@,
        p@.rows.len() == p.rows@.len(),
        0 <= i < p.rows@.len() ==> p@.rows[i].len() == p.rows@[i]@.len(),
        0 <= i < p.rows@.len() && 0 <= j < p.rows@[i]@.len() ==> is_span(
            p@.rows[i][j],
            p.rows@[i]@[j].text@,
            p.rows@[i]@[j].tone,
            p.rows@[i]@[j].bold,
        ),
{
}

} // verus!
