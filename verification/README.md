# Matching engine

The order feed publishes limit orders and cancels but never matches them. This
is the missing half: it reads the feed, keeps an order book per symbol, and
infers the trades that the exchange would have printed.

`src/` is a library written in Verus. Every function states what it returns or
changes, and the proofs are checked with the code. It touches no network, no
clock and no terminal.

    src/double.rs            floating-point numbers by their bits, to and from ticks
    src/feed.rs              what the feed publishes
    src/engine/types.rs      feed message to event: ticks, symbol validation
    src/engine/book.rs       one symbol's book, with price-time priority
    src/engine/matcher.rs    the fold: an event into the books, out come trades
    src/engine/market.rs     the derived tape: last, VWAP, high and low, positions
    src/engine/cursor.rs     place in the stream, and noticing a feed restart
    src/engine/laws/         what holds over whole runs, and between operations
    src/engine/text.rs       numbers and columns as text
    src/engine/sums.rs       sums over maps
    src/engine/symbol_map.rs a small map keyed by symbol
    src/runner/report.rs     the plain renderer: rows and snapshots
    src/runner/frame.rs      the terminal UI: panels, colours, layout
    src/runner/names.rs      symbols in dictionary order
    src/runner/tape.rs       the window of recent trades
    src/runner/session.rs    what each answer of the feed leads to
    app/                     the program: command line, HTTP, terminal

Prices are whole cents and quantities whole tenths, converted once at the edge.
Partial fills are then exact, and a filled order compares equal to zero.

Among what is proved, for every run of events:

- no book is crossed once an event has been folded;
- the routing index has one entry for each resting order, where orders have ids
  of their own;
- net positions add up to zero;
- every unit submitted is resting, traded (once on each side) or cancelled;
- an order trades with the best price first and the earliest arrival first, at
  the resting order's price;
- stopping and resuming gives what a straight run gives;
- two-decimal prices and one-decimal quantities convert without loss.

A function whose result must fit a machine integer asks for that in its
`requires`. `Engine::admits` decides it for `Engine::apply`.
