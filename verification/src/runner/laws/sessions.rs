//! How a run goes on: from the start, from message to message, and when the
//! feed falls silent or comes back.

use crate::engine::laws::counting::law_a_run_counts_its_events;
use crate::engine::laws::replay;
use crate::engine::matcher::EngineView;
use crate::engine::text::{at_right, decimal};
use crate::engine::types::{ConvertError, Event, Trade};
use crate::feed::{OrderId, OrderMessage};
use crate::runner::laws::rows::{counts, lemma_counts};
use crate::runner::laws::snapshots::{is_rule, says};
use crate::runner::report::{is_snapshot, message_row, trade_row, LineView};
use crate::runner::session::{
    after_message, after_messages, banner_lines, events_of, law_a_run_is_a_replay, poll_address,
    probe_address, Options, SessionView,
};
use crate::runner::tape::{entry_of, fed, first_of, TapeEntry, TapeView};
use vstd::prelude::*;

verus! {

/// A run begins with no book, no route and no count, at the id that it was
/// asked to start from, connected, and with the poll interval as its first wait.
pub proof fn law_a_run_begins_with_nothing(o: Options)
    ensures
        ({
            let s = SessionView::start(o);
            &&& s.options == o
            &&& s.engine.books == Map::<Seq<char>, crate::engine::book::BookView>::empty()
            &&& s.engine.routes == Map::<OrderId, Seq<char>>::empty()
            &&& s.engine.stats.events == 0
            &&& s.engine.stats.new_orders == 0
            &&& s.engine.stats.filtered == 0
            &&& s.engine.stats.cancels == 0
            &&& s.engine.stats.cancels_hit == 0
            &&& s.engine.stats.cancels_unknown == 0
            &&& s.engine.stats.trades == 0
            &&& s.engine.stats.volume == 0
            &&& s.engine.stats.cancelled_qty == 0
            &&& o.only matches Some(symbol) ==> s.engine.only == Some(symbol@)
            &&& o.only is None ==> s.engine.only is None
            &&& s.cursor.since == o.from
            &&& s.cursor.silent == 0
            &&& s.cursor.probe_after == 5
            &&& s.tape.entries.len() == 0
            &&& s.tape.capacity == 32
            &&& s.skipped == 0
            &&& s.backoff_ms == o.poll_ms
            &&& s.connected
        }),
{
}

/// A message is consumed whatever becomes of it: the cursor stands at its id
/// and the silence is over. An event is folded into the engine; what could not
/// be normalized is counted as skipped and touches nothing else.
pub proof fn law_a_message_is_consumed(
    v: SessionView,
    msg: OrderMessage,
    converted: Result<Event, ConvertError>,
)
    ensures
        ({
            let n = after_message(v, msg, converted);
            let id = match msg {
                OrderMessage::New { id, .. } => id,
                OrderMessage::Cancel { id, .. } => id,
            };
            &&& n.cursor.since == id
            &&& n.cursor.silent == 0
            &&& n.cursor.probe_after == v.cursor.probe_after
            &&& n.options == v.options
            &&& n.backoff_ms == v.backoff_ms
            &&& n.connected == v.connected
            &&& converted matches Ok(event) ==> n.engine == v.engine.apply(event) && n.skipped
                == v.skipped
            &&& converted is Err ==> n.engine == v.engine && n.tape == v.tape && (v.skipped
                < u64::MAX ==> n.skipped == v.skipped + 1)
            &&& !v.options.ui ==> n.tape == v.tape
        }),
{
}

/// How many messages of a log could not be normalized.
pub open spec fn refused(log: Seq<(OrderMessage, Result<Event, ConvertError>)>) -> int
    decreases log.len(),
{
    if log.len() == 0 {
        0
    } else {
        refused(log.drop_last()) + (if log.last().1 is Err {
            1int
        } else {
            0
        })
    }
}

/// After a log, every message was either folded or skipped: the run has folded
/// as many events as there are messages less the ones that it skipped.
pub proof fn law_every_message_is_folded_or_skipped(
    o: Options,
    log: Seq<(OrderMessage, Result<Event, ConvertError>)>,
)
    requires
        log.len() <= u64::MAX,
    ensures
        ({
            let s = after_messages(SessionView::start(o), log);
            &&& s.skipped == refused(log)
            &&& 0 <= refused(log) <= log.len()
            &&& s.engine.stats.events == log.len() - refused(log)
            &&& s.options == o
        }),
    decreases log.len(),
{
    if log.len() > 0 {
        law_every_message_is_folded_or_skipped(o, log.drop_last());
    }
}

/// The tape after more entries, newest first: the last of them stands in
/// front, the oldest fall off behind the capacity.
proof fn lemma_fed_again(tape: TapeView, more: Seq<TapeEntry>)
    requires
        tape.entries.len() <= tape.capacity,
    ensures
        fed(tape, more).entries == first_of(more.reverse() + tape.entries, tape.capacity),
        fed(tape, more).capacity == tape.capacity,
    decreases more.len(),
{
    if more.len() == 0 {
        assert(more.reverse() + tape.entries =~= tape.entries);
    } else {
        lemma_fed_again(tape, more.drop_last());
        let front = more.drop_last();
        assert(more.reverse() =~= seq![more.last()] + front.reverse());
        assert(fed(tape, more).entries =~= first_of(
            more.reverse() + tape.entries,
            tape.capacity,
        ));
    }
}

/// A tape made for `capacity` entries shows the latest of those it was given,
/// newest first, as many as fit; one made for none still shows one.
pub proof fn law_a_tape_shows_as_many_as_fit(capacity: nat, entries: Seq<TapeEntry>, i: int)
    ensures
        ({
            let shows = fed(TapeView::empty(capacity), entries).entries;
            let room: nat = if capacity == 0 {
                1
            } else {
                capacity
            };
            &&& shows.len() == (if entries.len() < room {
                entries.len()
            } else {
                room
            })
            &&& 0 <= i < shows.len() ==> shows[i] == entries[entries.len() - 1 - i]
        }),
{
    let empty = TapeView::empty(capacity);
    lemma_fed_again(empty, entries);
    assert(entries.reverse() + empty.entries =~= entries.reverse());
}

/// On the UI's tape the trades of an event stand in front, the last of them
/// first, each with its own id, symbol, price, quantity and aggressor; what
/// stood there follows, as far as there is room.
pub proof fn law_trades_reach_the_tape_newest_first(v: SessionView, event: Event, i: int)
    requires
        v.options.ui,
        v.tape.entries.len() <= v.tape.capacity,
    ensures
        ({
            let trades = v.engine.trades(event);
            let tape = v.folded(event).tape;
            let (n, m) = (trades.len() as int, v.tape.entries.len() as int);
            &&& tape.capacity == v.tape.capacity
            &&& tape.entries.len() == (if n + m < tape.capacity {
                n + m
            } else {
                tape.capacity as int
            })
            &&& 0 <= i < tape.entries.len() && i < n ==> {
                let t = trades[n - 1 - i];
                let e = tape.entries[i];
                &&& e.seq == t.seq
                &&& e.symbol@ == t.symbol@
                &&& e.price == t.price
                &&& e.qty == t.qty
                &&& e.taker_bought == (t.taker_side == crate::feed::Side::Buy)
            }
            &&& n <= i < tape.entries.len() ==> tape.entries[i] == v.tape.entries[i - n]
        }),
{
    let trades = v.engine.trades(event);
    let more = trades.map_values(|t: Trade| entry_of(t));
    lemma_fed_again(v.tape, more);
    let all = more.reverse() + v.tape.entries;
    assert(v.folded(event).tape.entries == first_of(all, v.tape.capacity));
    if 0 <= i < trades.len() {
        assert(all[i] == more.reverse()[i]);
        assert(more.reverse()[i] == more[more.len() - 1 - i]);
    }
}

/// What an event prints: with the UI nothing; else its row, as it stands
/// before the event is folded, unless the run is quiet; then a row for each of
/// its trades, in order; then a snapshot of the state after it, at every
/// so-many-th event and at no other, and never where that number is 0.
pub proof fn law_an_event_prints_its_row_trades_and_snapshot(
    v: SessionView,
    event: Event,
    lines: Seq<LineView>,
)
    requires
        v.prints(event, lines),
    ensures
        ({
            let trades = v.engine.trades(event);
            let every = v.options.snapshot_every as int;
            let next = v.engine.apply(event);
            let row: int = if v.options.quiet {
                0
            } else {
                1
            };
            let rows = row + trades.len();
            let due = every > 0 && (v.engine.stats.events + 1) % every == 0;
            &&& v.options.ui ==> lines.len() == 0
            &&& !v.options.ui ==> {
                &&& lines.len() >= rows
                &&& !v.options.quiet ==> says(lines[0], message_row(v.engine, event))
                &&& forall|i: int|
                    0 <= i < trades.len() ==> says(#[trigger] lines[row + i], trade_row(trades[i]))
                &&& !due ==> lines.len() == rows
                &&& due ==> is_snapshot(next, v.cursor.since, v.skipped, lines.skip(rows))
            }
        }),
{
    let trades = v.engine.trades(event);
    let rows = v.message_lines(event) + v.trade_lines(event);
    let next = v.folded(event);
    assert(next.engine.stats.events == v.engine.stats.events + 1);
    if next.snapshot_due() {
        let snap = choose|snap: Seq<LineView>| #[trigger]
            is_snapshot(next.engine, next.cursor.since, next.skipped, snap) && lines == rows + snap;
        assert(lines.skip(rows.len() as int) =~= snap);
    }
}

/// An answer of the feed restores the connection and the poll interval, and
/// counts one more silent poll if it is empty; nothing else moves. Silence that
/// has lasted long enough is counted from nothing again.
pub proof fn law_an_answer_moves_only_the_connection(v: SessionView, empty: bool)
    ensures
        ({
            let n = v.reached(empty);
            &&& n.connected
            &&& n.backoff_ms == v.options.poll_ms
            &&& n.engine == v.engine
            &&& n.tape == v.tape
            &&& n.skipped == v.skipped
            &&& n.options == v.options
            &&& n.cursor.since == v.cursor.since
            &&& !empty ==> n.cursor == v.cursor
            &&& empty && v.cursor.silent + 1 < v.cursor.probe_after ==> n.cursor.silent
                == v.cursor.silent + 1 && !v.cursor.due()
            &&& empty && v.cursor.silent + 1 >= v.cursor.probe_after ==> n.cursor.silent == 0
                && v.cursor.due()
        }),
{
}

/// A failure to reach the feed drops the connection and doubles the wait, up
/// to five seconds; nothing else moves.
pub proof fn law_a_failure_moves_only_the_connection(v: SessionView)
    ensures
        ({
            let n = v.lost();
            &&& !n.connected
            &&& n.backoff_ms <= 5000
            &&& 2 * v.backoff_ms <= 5000 ==> n.backoff_ms == 2 * v.backoff_ms
            &&& 2 * v.backoff_ms > 5000 ==> n.backoff_ms == 5000
            &&& n.engine == v.engine
            &&& n.tape == v.tape
            &&& n.skipped == v.skipped
            &&& n.options == v.options
            &&& n.cursor == v.cursor
        }),
{
}

/// A restart is noticed exactly when the feed's newest id is below the last one
/// read; it discards the books and the count of skipped messages, and leaves
/// the options and the connection alone.
pub proof fn law_a_restart_is_an_id_below_the_last_read(
    v: SessionView,
    msg: OrderMessage,
    newest: OrderId,
)
    ensures
        v.read(msg).cursor.overtakes(Some(newest)) == (newest < (match msg {
            OrderMessage::New { id, .. } => id,
            OrderMessage::Cancel { id, .. } => id,
        })),
        !v.read(msg).cursor.overtakes(None),
        ({
            let n = v.restarted();
            &&& n.options == v.options
            &&& n.connected == v.connected
            &&& n.backoff_ms == v.backoff_ms
            &&& n.cursor.since == 0
            &&& n.cursor.probe_after == v.cursor.probe_after
            &&& n.engine == EngineView::empty(v.options.filter())
            &&& n.skipped == 0
            &&& v.options.ui ==> n.tape.entries.len() == 0 && n.tape.capacity == 32
            &&& !v.options.ui ==> n.tape == v.tape
        }),
{
}

/// Messages are asked for after the last one read, under the feed's address;
/// a probe asks for one message.
pub proof fn law_a_poll_asks_for_what_comes_after(url: Seq<char>, since: OrderId) -> (f: Seq<char>)
    ensures
        counts(f, since as int),
        poll_address(url, since) == url + "/orders?since="@ + f,
        probe_address(url) == url + "/orders?n=1"@,
{
    lemma_counts(since as nat);
    decimal(since as nat)
}

/// A lost connection is complained of once, and its return reported once: of
/// two failures in a row only the first is mentioned, and of two answers after
/// a failure only the first. The UI mentions neither.
pub proof fn law_a_lost_connection_is_mentioned_once(v: SessionView, why: Seq<char>, empty: bool)
    ensures
        v.options.ui ==> v.lost_lines(why).len() == 0 && v.reached_lines().len() == 0,
        v.lost().lost_lines(why).len() == 0,
        v.reached(empty).reached_lines().len() == 0,
        !v.options.ui ==> {
            let (l, r) = (v.reached(empty).lost_lines(why), v.lost().reached_lines());
            &&& l.len() == 1
            &&& l[0].problem
            &&& l[0].text == "-- feed unreachable ("@ + why + "), retrying --"@
            &&& r.len() == 1
            &&& says(r[0], "-- reconnected to "@ + v.options.url@ + " --"@)
        },
{
}

/// A restart is reported with the feed's newest id and the cursor, in this
/// order; a probe that finds none says nothing, and neither does the UI.
pub proof fn law_a_restart_is_reported(v: SessionView, newest: OrderId) -> (f: (
    Seq<char>,
    Seq<char>,
))
    ensures
        counts(f.0, newest as int),
        counts(f.1, v.cursor.since as int),
        ({
            let l = v.probed_lines(Some(newest));
            &&& newest < v.cursor.since && !v.options.ui ==> l.len() == 1 && says(
                l[0],
                "!! feed restarted (its latest id is "@ + f.0 + ", cursor was "@ + f.1
                    + ") -- discarding stale books and replaying from 0"@,
            )
            &&& newest >= v.cursor.since || v.options.ui ==> l.len() == 0
        }),
        v.probed_lines(None).len() == 0,
{
    lemma_counts(newest as nat);
    lemma_counts(v.cursor.since as nat);
    (decimal(newest as nat), decimal(v.cursor.since as nat))
}

/// A message that was skipped is reported on the error stream, under its own
/// id and with the reason; the UI says nothing.
pub proof fn law_a_skipped_message_is_reported(
    v: SessionView,
    msg: OrderMessage,
    e: ConvertError,
    number: Seq<char>,
) -> (f: Seq<char>)
    ensures
        counts(
            f,
            match msg {
                OrderMessage::New { id, .. } => id as int,
                OrderMessage::Cancel { id, .. } => id as int,
            },
        ),
        ({
            let l = after_message(v, msg, Err(e)).skip_lines(e, number);
            &&& v.options.ui ==> l.len() == 0
            &&& !v.options.ui ==> l.len() == 1 && l[0].problem && l[0].text == "#"@ + at_right(
                f,
                6,
            ) + " | SKIP   | "@ + e.reason(number)
        }),
{
    let id = msg.place();
    lemma_counts(id as nat);
    decimal(id as nat)
}

/// The banner names the feed, the poll interval, the filter and the first id,
/// and ends in a rule of 84 equals signs; the UI has none.
pub proof fn law_the_banner_says_what_was_asked(o: Options) -> (f: (Seq<char>, Seq<char>))
    ensures
        counts(f.0, o.poll_ms as int),
        counts(f.1, o.from as int),
        ({
            let l = banner_lines(o);
            &&& o.ui ==> l.len() == 0
            &&& !o.ui ==> {
                &&& l.len() == 4
                &&& says(l[0], "engine -> "@ + o.url@ + "  (poll "@ + f.0 + "ms)"@)
                &&& o.only matches Some(symbol) ==> says(l[1], "symbol filter: "@ + symbol@)
                &&& o.only is None ==> says(l[1], "symbol filter: "@ + "none (all symbols)"@)
                &&& says(
                    l[2],
                    "starting cursor: since="@ + f.1 + "   (ctrl-c for a final summary)"@,
                )
                &&& is_rule(l[3], '=', 84)
            }
        }),
{
    lemma_counts(o.poll_ms as nat);
    lemma_counts(o.from as nat);
    (decimal(o.poll_ms as nat), decimal(o.from as nat))
}

/// A run's engine is that of the events it read, counted once each.
pub proof fn law_a_run_folds_its_events_once(
    o: Options,
    log: Seq<(OrderMessage, Result<Event, ConvertError>)>,
)
    ensures
        ({
            let s = after_messages(SessionView::start(o), log);
            &&& s.engine == replay(EngineView::empty(o.filter()), events_of(log))
            &&& s.engine.stats.events == events_of(log).len()
        }),
{
    law_a_run_is_a_replay(SessionView::start(o), log);
    law_a_run_counts_its_events(o.filter(), events_of(log));
}

} // verus!
