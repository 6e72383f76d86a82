//! A run against the feed, without the network: what each answer of the feed,
//! or its silence, leads to.
//!
//! Cursor discipline: `GET /orders?since=N` returns messages with an id
//! strictly greater than `N`, the feed retains full history, and ids are
//! assigned under the same lock as the push. So polling cannot gap or
//! duplicate, and restarting from 0 replays identical state.

use crate::engine::cursor::{Cursor, CursorView};
use crate::engine::laws::replay;
use crate::engine::matcher::{Engine, EngineView};
use crate::engine::text;
use crate::engine::text::{at_right, decimal, run_of};
use crate::engine::types::{converts, resolve_symbol, ConvertError, Event, Symbol, Trade};
use crate::feed::{listed, OrderId, OrderMessage};
use crate::runner::frame::Screen;
use crate::runner::report;
use crate::runner::report::{
    complain, is_snapshot, message_row, plain, problem, say, shown, trade_row, Line, LineView,
};
use crate::runner::tape::{entry_of, fed, TapeBuffer, TapeEntry, TapeView, TAPE_CAPACITY};
use vstd::arithmetic::power2::{lemma2_to64, lemma_pow2_unfold, pow2};
use vstd::prelude::*;

verus! {

/// The longest wait between two tries to reach the feed, in milliseconds.
pub const MAX_BACKOFF_MS: u64 = 5_000;

/// How many silent polls before we suspect the feed restarted. At the default
/// poll interval that is about a second, so the probe costs nothing in a live
/// market and fires quickly in a dead one.
pub const EMPTY_POLLS_BEFORE_PROBE: u32 = 5;

/// What a run was asked to do.
#[derive(Debug, Clone)]
pub struct Options {
    /// Base URL of the running order feed.
    pub url: String,
    /// How long to wait between polls, in milliseconds.
    pub poll_ms: u64,
    /// Only match this symbol, if there is one.
    pub only: Option<Symbol>,
    /// Feed id to start from. 0 replays the entire history.
    pub from: OrderId,
    /// Print a market snapshot every so many messages. 0 disables it.
    pub snapshot_every: u64,
    /// Suppress the per-message rows and show only trades and snapshots.
    pub quiet: bool,
    /// Draw a terminal UI instead of printing rows.
    pub ui: bool,
}

impl Options {
    /// The symbol to follow, by its characters.
    pub open spec fn filter(self) -> Option<Seq<char>> {
        match self.only {
            Some(symbol) => Some(symbol@),
            None => None,
        }
    }
}

/// Resolves the symbol filter of the command line. A filter that names no
/// listed symbol is an error, rather than a run that silently matches nothing.
pub fn choose_filter(symbol: Option<&str>) -> (r: Result<Option<Symbol>, String>)
    ensures
        match symbol {
            None => r matches Ok(None),
            Some(s) => if listed(s@) {
                r matches Ok(Some(only)) && only@ == s@
            } else {
                r matches Err(e) && e@ == "error: '"@ + s@ + "' is not a valid symbol"@
            },
        },
{
    match symbol {
        None => Ok(None),
        Some(s) => match resolve_symbol(s) {
            Some(only) => Ok(Some(only)),
            None => {
                let mut e = "error: '".to_owned();
                e.append(s);
                e.append("' is not a valid symbol");
                Err(e)
            },
        },
    }
}

/// What is printed before the first poll. The UI prints nothing.
pub open spec fn banner_lines(o: Options) -> Seq<LineView> {
    if o.ui {
        seq![]
    } else {
        seq![
            plain("engine -> "@ + o.url@ + "  (poll "@ + decimal(o.poll_ms as nat) + "ms)"@),
            plain(
                "symbol filter: "@ + (match o.only {
                    Some(symbol) => symbol@,
                    None => "none (all symbols)"@,
                }),
            ),
            plain(
                "starting cursor: since="@ + decimal(o.from as nat)
                    + "   (ctrl-c for a final summary)"@,
            ),
            plain(run_of('=', 84)),
        ]
    }
}

/// The lines before the first poll.
pub fn banner(o: &Options) -> (r: Vec<Line>)
    ensures
        shown(r@) == banner_lines(*o),
{
    let mut lines: Vec<Line> = Vec::new();
    if !o.ui {
        let mut first = "engine -> ".to_owned();
        first.append(o.url.as_str());
        first.append("  (poll ");
        first.append(text::number(o.poll_ms as u128).as_str());
        first.append("ms)");
        say(&mut lines, first);
        let mut second = "symbol filter: ".to_owned();
        second.append(
            match o.only {
                Some(symbol) => symbol,
                None => "none (all symbols)",
            },
        );
        say(&mut lines, second);
        let mut third = "starting cursor: since=".to_owned();
        third.append(text::number(o.from as u128).as_str());
        third.append("   (ctrl-c for a final summary)");
        say(&mut lines, third);
        say(&mut lines, text::double_dashes(report::RULE_WIDTH));
    }
    assert(shown(lines@) =~= banner_lines(*o));
    lines
}

/// An empty engine for the filter.
pub fn build_engine(only: Option<Symbol>) -> (r: Engine)
    ensures
        r.wf(),
        r@ == EngineView::empty(
            match only {
                Some(symbol) => Some(symbol@),
                None => None,
            },
        ),
{
    match only {
        Some(symbol) => Engine::only(symbol),
        None => Engine::new(),
    }
}

/// The newest id among messages that the feed hands out in order.
pub fn newest(messages: &Vec<OrderMessage>) -> (r: Option<OrderId>)
    ensures
        r == (if messages@.len() == 0 {
            None
        } else {
            Some(messages@.last().place())
        }),
{
    if messages.len() == 0 {
        None
    } else {
        Some(messages[messages.len() - 1].id())
    }
}

/// Where messages after `since` are asked for.
pub open spec fn poll_address(url: Seq<char>, since: OrderId) -> Seq<char> {
    url + "/orders?since="@ + decimal(since as nat)
}

/// Where the newest message is asked for.
pub open spec fn probe_address(url: Seq<char>) -> Seq<char> {
    url + "/orders?n=1"@
}

/// Where a run stands.
#[verifier::ext_equal]
pub struct SessionView {
    pub options: Options,
    pub engine: EngineView,
    pub cursor: CursorView,
    pub tape: TapeView,
    /// Messages that could not be normalized.
    pub skipped: u64,
    /// How long to wait after the next failure to reach the feed.
    pub backoff_ms: u64,
    /// Whether the feed answered the last time it was asked.
    pub connected: bool,
}

impl SessionView {
    pub open spec fn start(options: Options) -> SessionView {
        SessionView {
            options,
            engine: EngineView::empty(options.filter()),
            cursor: CursorView { since: options.from, silent: 0, probe_after: 5 },
            tape: TapeView::empty(32),
            skipped: 0,
            backoff_ms: options.poll_ms,
            connected: true,
        }
    }

    /// The feed answered. An empty answer is one more silent poll.
    pub open spec fn reached(self, empty: bool) -> SessionView {
        SessionView {
            connected: true,
            backoff_ms: self.options.poll_ms,
            cursor: if empty {
                self.cursor.after_empty_poll()
            } else {
                self.cursor
            },
            ..self
        }
    }

    /// The books are stale: the run starts over from the beginning.
    pub open spec fn restarted(self) -> SessionView {
        SessionView {
            engine: EngineView::empty(self.options.filter()),
            cursor: self.cursor.rewound(),
            skipped: 0,
            tape: if self.options.ui {
                TapeView::empty(32)
            } else {
                self.tape
            },
            ..self
        }
    }

    /// The feed did not answer.
    pub open spec fn lost(self) -> SessionView {
        SessionView {
            connected: false,
            backoff_ms: if 2 * self.backoff_ms > MAX_BACKOFF_MS {
                MAX_BACKOFF_MS
            } else {
                (2 * self.backoff_ms) as u64
            },
            ..self
        }
    }

    /// A message was read.
    pub open spec fn read(self, msg: OrderMessage) -> SessionView {
        SessionView { cursor: self.cursor.advanced(msg.place()), ..self }
    }

    /// The event of the message that was read is folded.
    pub open spec fn folded(self, event: Event) -> SessionView {
        SessionView {
            engine: self.engine.apply(event),
            tape: if self.options.ui {
                fed(self.tape, self.engine.trades(event).map_values(|t: Trade| entry_of(t)))
            } else {
                self.tape
            },
            ..self
        }
    }

    /// What is said when the feed answers: that it is back, if it was lost.
    pub open spec fn reached_lines(self) -> Seq<LineView> {
        if !self.connected && !self.options.ui {
            seq![plain("-- reconnected to "@ + self.options.url@ + " --"@)]
        } else {
            seq![]
        }
    }

    /// What is said of a probe: that the feed restarted, if it did.
    pub open spec fn probed_lines(self, feed_max_id: Option<OrderId>) -> Seq<LineView> {
        if self.cursor.overtakes(feed_max_id) && !self.options.ui {
            seq![
                plain(
                    "!! feed restarted (its latest id is "@ + decimal(feed_max_id->0 as nat)
                        + ", cursor was "@ + decimal(self.cursor.since as nat)
                        + ") -- discarding stale books and replaying from 0"@,
                ),
            ]
        } else {
            seq![]
        }
    }

    /// What is said when the feed does not answer, the first time.
    pub open spec fn lost_lines(self, why: Seq<char>) -> Seq<LineView> {
        if self.connected && !self.options.ui {
            seq![problem("-- feed unreachable ("@ + why + "), retrying --"@)]
        } else {
            seq![]
        }
    }

    /// The row of the message that was just read and could not be normalized.
    pub open spec fn skip_lines(self, e: ConvertError, number: Seq<char>) -> Seq<LineView> {
        if self.options.ui {
            seq![]
        } else {
            seq![
                problem(
                    "#"@ + at_right(decimal(self.cursor.since as nat), 6) + " | SKIP   | "@
                        + e.reason(number),
                ),
            ]
        }
    }

    /// The row of a message, unless rows are suppressed.
    pub open spec fn message_lines(self, event: Event) -> Seq<LineView> {
        if self.options.ui || self.options.quiet {
            seq![]
        } else {
            seq![plain(message_row(self.engine, event))]
        }
    }

    /// The rows of the trades of an event. The UI shows them on its tape.
    pub open spec fn trade_lines(self, event: Event) -> Seq<LineView> {
        if self.options.ui {
            seq![]
        } else {
            self.engine.trades(event).map_values(|t: Trade| plain(trade_row(t)))
        }
    }

    /// Whether a snapshot falls due.
    pub open spec fn snapshot_due(self) -> bool {
        !self.options.ui && self.options.snapshot_every > 0 && self.engine.stats.events
            % self.options.snapshot_every as int == 0
    }

    /// Whether `lines` is what is printed of an event: its row, its trades, and
    /// a snapshot of the state after it if one falls due.
    pub open spec fn prints(self, event: Event, lines: Seq<LineView>) -> bool {
        let next = self.folded(event);
        let rows = self.message_lines(event) + self.trade_lines(event);
        if next.snapshot_due() {
            exists|snap: Seq<LineView>| #[trigger]
                is_snapshot(next.engine, next.cursor.since, next.skipped, snap) && lines == rows
                    + snap
        } else {
            lines == rows
        }
    }
}

/// What came of one message.
#[derive(Debug)]
pub enum Taken {
    /// It was folded; these lines are to be printed.
    Applied { event: Event, lines: Vec<Line> },
    /// It could not be normalized, and was passed over.
    Skipped(ConvertError),
    /// A counter would not fit where it is kept.
    Overflow(Result<Event, ConvertError>),
}

/// A run against the feed.
#[derive(Debug)]
pub struct Session {
    options: Options,
    engine: Engine,
    cursor: Cursor,
    tape: TapeBuffer,
    skipped: u64,
    backoff_ms: u64,
    disconnected: bool,
}

impl View for Session {
    type V = SessionView;

    closed spec fn view(&self) -> SessionView {
        SessionView {
            options: self.options,
            engine: self.engine@,
            cursor: self.cursor@,
            tape: self.tape@,
            skipped: self.skipped,
            backoff_ms: self.backoff_ms,
            connected: !self.disconnected,
        }
    }
}

impl Session {
    pub closed spec fn wf(&self) -> bool {
        self.engine.wf()
    }

    pub fn new(options: Options) -> (r: Session)
        ensures
            r.wf(),
            r@ == SessionView::start(options),
    {
        let r = Session {
            engine: build_engine(options.only),
            cursor: Cursor::new(options.from, EMPTY_POLLS_BEFORE_PROBE),
            tape: TapeBuffer::new(TAPE_CAPACITY),
            skipped: 0,
            backoff_ms: options.poll_ms,
            disconnected: false,
            options,
        };
        assert(r@ =~= SessionView::start(options));
        r
    }

    /// Where the next poll is sent.
    pub fn poll_url(&self) -> (r: String)
        ensures
            r@ == poll_address(self@.options.url@, self@.cursor.since),
    {
        let mut r = self.options.url.clone();
        r.append("/orders?since=");
        r.append(text::number(self.cursor.since() as u128).as_str());
        r
    }

    /// Where a probe for the feed's newest id is sent.
    pub fn probe_url(&self) -> (r: String)
        ensures
            r@ == probe_address(self@.options.url@),
    {
        let mut r = self.options.url.clone();
        r.append("/orders?n=1");
        r
    }

    /// The feed answered a poll. Returns what to print, and whether the silence
    /// has lasted long enough to probe for a restart.
    pub fn reached(&mut self, empty: bool) -> (r: (Vec<Line>, bool))
        ensures
            final(self)@ == old(self)@.reached(empty),
            old(self).wf() ==> final(self).wf(),
            r.1 == (empty && old(self)@.cursor.due()),
            shown(r.0@) == old(self)@.reached_lines(),
    {
        let ghost before = self@;
        let mut lines: Vec<Line> = Vec::new();
        assert(shown(lines@) =~= seq![]);
        if self.disconnected {
            if !self.options.ui {
                let mut r = "-- reconnected to ".to_owned();
                r.append(self.options.url.as_str());
                r.append(" --");
                say(&mut lines, r);
                assert(shown(lines@) =~= seq![
                    plain("-- reconnected to "@ + before.options.url@ + " --"@),
                ]);
            }
            self.disconnected = false;
        }
        self.backoff_ms = self.options.poll_ms;
        let probe = empty && self.cursor.note_empty_poll();
        assert(self@ =~= before.reached(empty));
        (lines, probe)
    }

    /// A probe came back. A feed restart resets ids to 1, leaving the cursor
    /// permanently ahead of it: `since` matches nothing and the engine goes
    /// silently deaf. So the stale books are discarded and the run starts over.
    pub fn probed(&mut self, feed_max_id: Option<OrderId>) -> (r: Vec<Line>)
        ensures
            final(self)@ == (if old(self)@.cursor.overtakes(feed_max_id) {
                old(self)@.restarted()
            } else {
                old(self)@
            }),
            old(self).wf() ==> final(self).wf(),
            shown(r@) == old(self)@.probed_lines(feed_max_id),
    {
        let ghost before = self@;
        let mut lines: Vec<Line> = Vec::new();
        assert(shown(lines@) =~= seq![]);
        if self.cursor.detects_restart(feed_max_id) {
            let latest: OrderId = match feed_max_id {
                Some(max) => max,
                None => 0,
            };
            if self.options.ui {
                self.tape = TapeBuffer::new(TAPE_CAPACITY);
            } else {
                let mut r = "!! feed restarted (its latest id is ".to_owned();
                r.append(text::number(latest as u128).as_str());
                r.append(", cursor was ");
                r.append(text::number(self.cursor.since() as u128).as_str());
                r.append(") -- discarding stale books and replaying from 0");
                let ghost said = plain(r@);
                say(&mut lines, r);
                assert(shown(lines@) =~= seq![said]);
            }
            self.engine = build_engine(self.options.only);
            self.cursor.rewind();
            self.skipped = 0;
            assert(self@ =~= before.restarted());
        }
        lines
    }

    /// The feed did not answer. Returns what to print, and how long to wait
    /// before the next try, in milliseconds.
    pub fn lost(&mut self, why: &str) -> (r: (Vec<Line>, u64))
        ensures
            final(self)@ == old(self)@.lost(),
            old(self).wf() ==> final(self).wf(),
            r.1 == old(self)@.backoff_ms,
            shown(r.0@) == old(self)@.lost_lines(why@),
    {
        let ghost before = self@;
        let mut lines: Vec<Line> = Vec::new();
        assert(shown(lines@) =~= seq![]);
        if !self.disconnected {
            if !self.options.ui {
                let mut r = "-- feed unreachable (".to_owned();
                r.append(why);
                r.append("), retrying --");
                let ghost said = problem(r@);
                complain(&mut lines, r);
                assert(shown(lines@) =~= seq![said]);
            }
            self.disconnected = true;
        }
        let wait = self.backoff_ms;
        self.backoff_ms = if wait > MAX_BACKOFF_MS / 2 { MAX_BACKOFF_MS } else { wait * 2 };
        assert(self@ =~= before.lost());
        (lines, wait)
    }

    /// Takes one message. The cursor advances first: even a message that is
    /// skipped has been consumed, and re-reading it would loop forever. A
    /// malformed message is skipped, never fatal.
    #[verifier::spinoff_prover]
    #[verifier::rlimit(40)]
    pub fn take(&mut self, msg: OrderMessage) -> (r: Taken)
        requires
            old(self).wf(),
        ensures
            final(self).wf(),
            ({
                let read = old(self)@.read(msg);
                match r {
                    Taken::Applied { event, lines } => {
                        &&& converts(msg, Ok(event))
                        &&& old(self)@.engine.admits(event)
                        &&& final(self)@ == after_message(old(self)@, msg, Ok(event))
                        &&& read.prints(event, shown(lines@))
                    },
                    Taken::Skipped(e) => {
                        &&& converts(msg, Err(e))
                        &&& old(self)@.skipped < u64::MAX
                        &&& final(self)@ == after_message(old(self)@, msg, Err(e))
                    },
                    Taken::Overflow(converted) => {
                        &&& converts(msg, converted)
                        &&& match converted {
                            Ok(event) => !old(self)@.engine.admits(event),
                            Err(_) => old(self)@.skipped == u64::MAX,
                        }
                        &&& final(self)@ == read
                    },
                }
            }),
    {
        let ghost before = self@;
        let ghost read = before.read(msg);
        self.cursor.advance_to(msg.id());
        assert(self@ =~= read);
        let event = match Event::try_from(msg) {
            Ok(event) => event,
            Err(e) => {
                if self.skipped == u64::MAX {
                    return Taken::Overflow(Err(e));
                }
                self.skipped = self.skipped + 1;
                return Taken::Skipped(e);
            },
        };
        if !self.engine.admits(&event) {
            return Taken::Overflow(Ok(event));
        }
        let mut lines: Vec<Line> = Vec::new();
        assert(shown(lines@) =~= seq![]);
        if !self.options.ui && !self.options.quiet {
            say(&mut lines, report::message_line(&self.engine, &event));
        }
        assert(shown(lines@) =~= read.message_lines(event));
        let trades = self.engine.apply(&event);
        self.show_trades(&trades, &mut lines);
        proof {
            assert(shown(lines@) =~= read.message_lines(event) + read.trade_lines(event));
            assert(self@ =~= read.folded(event));
        }
        let every = self.options.snapshot_every;
        if !self.options.ui && every > 0 && self.engine.stats().events % every == 0 {
            let mut snap = report::snapshot(&self.engine, self.cursor.since(), self.skipped);
            let ghost rows = shown(lines@);
            let ghost snapped = shown(snap@);
            lines.append(&mut snap);
            assert(shown(lines@) =~= rows + snapped);
        }
        Taken::Applied { event, lines }
    }

    /// Puts trades where they are shown: on the tape of the UI, or in rows.
    fn show_trades(&mut self, trades: &Vec<Trade>, lines: &mut Vec<Line>)
        requires
            old(self).wf(),
        ensures
            final(self).wf(),
            final(self)@ == (SessionView {
                tape: if old(self)@.options.ui {
                    fed(old(self)@.tape, trades@.map_values(|t: Trade| entry_of(t)))
                } else {
                    old(self)@.tape
                },
                ..old(self)@
            }),
            shown(final(lines)@) == shown(old(lines)@) + (if old(self)@.options.ui {
                seq![]
            } else {
                trades@.map_values(|t: Trade| plain(trade_row(t)))
            }),
    {
        let ghost before = self@;
        let ghost start = shown(lines@);
        let ghost entries = trades@.map_values(|t: Trade| entry_of(t));
        let ghost rows = trades@.map_values(|t: Trade| plain(trade_row(t)));
        let ghost ui = self.options.ui;
        let mut i: usize = 0;
        proof {
            assert(entries.take(0) =~= seq![]);
            assert(shown(lines@) =~= start + (if ui {
                seq![]
            } else {
                rows.take(0)
            }));
        }
        while i < trades.len()
            invariant
                i <= trades@.len(),
                self.wf(),
                ui == before.options.ui,
                entries == trades@.map_values(|t: Trade| entry_of(t)),
                rows == trades@.map_values(|t: Trade| plain(trade_row(t))),
                self@ == (SessionView {
                    tape: if ui {
                        fed(before.tape, entries.take(i as int))
                    } else {
                        before.tape
                    },
                    ..before
                }),
                shown(lines@) == start + (if ui {
                    seq![]
                } else {
                    rows.take(i as int)
                }),
            decreases trades@.len() - i,
        {
            let trade = &trades[i];
            let ghost now = self@;
            proof {
                assert(entries.take(i + 1).drop_last() =~= entries.take(i as int));
                assert(entries.take(i + 1).last() == entry_of(*trade));
                assert(rows.take(i + 1) =~= rows.take(i as int).push(plain(trade_row(*trade))));
            }
            if self.options.ui {
                self.tape.push(TapeEntry::of(trade));
                assert(self@ =~= SessionView {
                    tape: fed(before.tape, entries.take(i + 1)),
                    ..before
                });
            } else {
                say(lines, report::trade_line(trade));
                assert(shown(lines@) =~= start + rows.take(i + 1));
            }
            i = i + 1;
        }
        assert(entries.take(i as int) =~= entries);
        assert(rows.take(i as int) =~= rows);
    }

    /// What is printed of a message that was skipped: its row, for the error
    /// stream. The UI prints nothing. `number` is the offending number as text,
    /// if there is one.
    pub fn skip_lines(&self, e: &ConvertError, number: &str) -> (r: Vec<Line>)
        ensures
            shown(r@) == self@.skip_lines(*e, number@),
    {
        let mut lines: Vec<Line> = Vec::new();
        assert(shown(lines@) =~= seq![]);
        if !self.options.ui {
            let mut r = "#".to_owned();
            r.append(
                text::align_right(text::number(self.cursor.since() as u128).as_str(), 6).as_str(),
            );
            r.append(" | SKIP   | ");
            r.append(e.to_text(number).as_str());
            let ghost said = problem(r@);
            complain(&mut lines, r);
            assert(shown(lines@) =~= seq![said]);
        }
        lines
    }

    /// What is printed when the run ends.
    pub fn farewell(&self) -> (r: Vec<Line>)
        requires
            self.wf(),
        ensures
            exists|snap: Seq<LineView>| #[trigger]
                is_snapshot(self@.engine, self@.cursor.since, self@.skipped, snap) && shown(r@)
                    == seq![plain(""@), plain("-- interrupted, final state --"@)] + snap,
    {
        let mut lines: Vec<Line> = Vec::new();
        say(&mut lines, "".to_owned());
        say(&mut lines, "-- interrupted, final state --".to_owned());
        let mut snap = report::snapshot(&self.engine, self.cursor.since(), self.skipped);
        let ghost head = shown(lines@);
        let ghost snapped = shown(snap@);
        lines.append(&mut snap);
        proof {
            assert(head =~= seq![plain(""@), plain("-- interrupted, final state --"@)]);
            assert(shown(lines@) =~= head + snapped);
            assert(is_snapshot(self@.engine, self@.cursor.since, self@.skipped, snapped));
        }
        lines
    }

    /// What the UI draws.
    pub fn screen(&self) -> (r: Screen<'_>)
        ensures
            r.engine@ == self@.engine,
            self.wf() ==> r.engine.wf(),
            r.tape@ == self@.tape,
            r.url@ == self@.options.url@,
            r.cursor == self@.cursor.since,
            r.connected == self@.connected,
            r.filter == self@.options.only,
            r.skipped == self@.skipped,
    {
        Screen {
            engine: &self.engine,
            tape: &self.tape,
            url: self.options.url.as_str(),
            cursor: self.cursor.since(),
            connected: !self.disconnected,
            filter: self.options.only,
            skipped: self.skipped,
        }
    }

    /// How long to wait after a poll that was answered, in milliseconds.
    pub fn poll_ms(&self) -> (r: u64)
        ensures
            r == self@.options.poll_ms,
    {
        self.options.poll_ms
    }
}

/// A run that noticed a restart is a run that has just begun, from the start
/// of the stream: nothing of the stale books is left.
pub proof fn law_a_restart_begins_anew(v: SessionView)
    ensures
        v.restarted().engine == SessionView::start(v.options).engine,
        v.restarted().skipped == 0,
        v.restarted().cursor.since == 0,
        v.restarted().cursor.silent == 0,
        v.options.ui ==> v.restarted().tape == SessionView::start(v.options).tape,
{
}

/// A run after one message, given what normalizing the message gave.
pub open spec fn after_message(
    v: SessionView,
    msg: OrderMessage,
    converted: Result<Event, ConvertError>,
) -> SessionView {
    let read = v.read(msg);
    match converted {
        Ok(event) => read.folded(event),
        Err(_) => SessionView { skipped: (read.skipped + 1) as u64, ..read },
    }
}

/// A run after a list of messages.
pub open spec fn after_messages(
    v: SessionView,
    log: Seq<(OrderMessage, Result<Event, ConvertError>)>,
) -> SessionView
    decreases log.len(),
{
    if log.len() == 0 {
        v
    } else {
        after_message(after_messages(v, log.drop_last()), log.last().0, log.last().1)
    }
}

/// The events of the messages that could be normalized.
pub open spec fn events_of(log: Seq<(OrderMessage, Result<Event, ConvertError>)>) -> Seq<Event>
    decreases log.len(),
{
    if log.len() == 0 {
        seq![]
    } else {
        match log.last().1 {
            Ok(event) => events_of(log.drop_last()).push(event),
            Err(_) => events_of(log.drop_last()),
        }
    }
}

/// What a run has matched is the replay of the messages that it read and could
/// normalize, and it goes on polling right after the last one that it read. So
/// reading the stream again from the start rebuilds the same state.
pub proof fn law_a_run_is_a_replay(
    v: SessionView,
    log: Seq<(OrderMessage, Result<Event, ConvertError>)>,
)
    ensures
        after_messages(v, log).engine == replay(v.engine, events_of(log)),
        after_messages(v, log).cursor.since == (if log.len() == 0 {
            v.cursor.since
        } else {
            log.last().0.place()
        }),
    decreases log.len(),
{
    if log.len() > 0 {
        let front = log.drop_last();
        law_a_run_is_a_replay(v, front);
        match log.last().1 {
            Ok(event) => {
                let events = events_of(log);
                assert(events.drop_last() =~= events_of(front));
                assert(events.last() == event);
            },
            Err(_) => {},
        }
    }
}

/// A run after `n` failures in a row to reach the feed.
pub open spec fn lost_for(v: SessionView, n: nat) -> SessionView
    decreases n,
{
    if n == 0 {
        v
    } else {
        lost_for(v, (n - 1) as nat).lost()
    }
}

/// The wait doubles with every failure, up to the limit, and one answer takes
/// it back to the poll interval.
pub proof fn law_the_wait_doubles_up_to_the_limit(v: SessionView, n: nat)
    requires
        n > 0,
    ensures
        lost_for(v, n).backoff_ms == (if v.backoff_ms * pow2(n) > MAX_BACKOFF_MS {
            MAX_BACKOFF_MS as int
        } else {
            v.backoff_ms * pow2(n)
        }),
        !lost_for(v, n).connected,
        forall|empty: bool|
            (#[trigger] lost_for(v, n).reached(empty)).backoff_ms == v.options.poll_ms,
        lost_for(v, n).options == v.options,
    decreases n,
{
    lemma_pow2_unfold(n);
    let b = v.backoff_ms as int;
    let p = pow2((n - 1) as nat) as int;
    assert(b * (2 * p) == 2 * (b * p)) by (nonlinear_arith);
    if n > 1 {
        law_the_wait_doubles_up_to_the_limit(v, (n - 1) as nat);
    } else {
        lemma2_to64();
        assert(b * p == b) by (nonlinear_arith)
            requires
                p == 1,
        ;
    }
}

} // verus!
