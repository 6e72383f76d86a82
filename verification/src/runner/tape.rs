//! The window of recent trades that a terminal shows.

use crate::engine::types::{Price, Qty, Symbol, Trade};
use crate::feed::{OrderId, Side};
use std::collections::VecDeque;
use vstd::prelude::*;

verus! {

/// How many recent trades the tape shows.
pub const TAPE_CAPACITY: usize = 32;

/// One line of the trade tape.
#[derive(Debug, Clone, PartialEq, Eq)]
pub struct TapeEntry {
    pub seq: OrderId,
    pub symbol: Symbol,
    pub price: Price,
    pub qty: Qty,
    /// True when the aggressor was buying, which colours the row.
    pub taker_bought: bool,
}

/// The line that a trade becomes.
pub open spec fn entry_of(t: Trade) -> TapeEntry {
    TapeEntry {
        seq: t.seq,
        symbol: t.symbol,
        price: t.price,
        qty: t.qty,
        taker_bought: t.taker_side == Side::Buy,
    }
}

impl TapeEntry {
    pub fn of(t: &Trade) -> (r: Self)
        ensures
            r == entry_of(*t),
    {
        TapeEntry {
            seq: t.seq,
            symbol: t.symbol,
            price: t.price,
            qty: t.qty,
            taker_bought: match t.taker_side {
                Side::Buy => true,
                Side::Sell => false,
            },
        }
    }
}

/// The first `n` of a list.
pub open spec fn first_of(s: Seq<TapeEntry>, n: nat) -> Seq<TapeEntry> {
    if s.len() > n {
        s.take(n as int)
    } else {
        s
    }
}

/// What a tape shows, newest first, and how much of it there can be.
#[verifier::ext_equal]
pub struct TapeView {
    pub entries: Seq<TapeEntry>,
    pub capacity: nat,
}

impl TapeView {
    pub open spec fn empty(capacity: nat) -> TapeView {
        TapeView {
            entries: seq![],
            capacity: if capacity == 0 {
                1
            } else {
                capacity
            },
        }
    }

    /// The entry goes in front; what no longer fits drops off the end.
    pub open spec fn push(self, entry: TapeEntry) -> TapeView {
        TapeView { entries: first_of(seq![entry] + self.entries, self.capacity), ..self }
    }
}

/// Recent trades, newest first.
///
/// The engine reports trades as they happen and then forgets them: it holds
/// books, not history, so the tape window belongs to the UI.
#[derive(Debug)]
pub struct TapeBuffer {
    entries: VecDeque<TapeEntry>,
    capacity: usize,
}

impl View for TapeBuffer {
    type V = TapeView;

    closed spec fn view(&self) -> TapeView {
        TapeView { entries: self.entries@, capacity: self.capacity as nat }
    }
}

impl TapeBuffer {
    pub fn new(capacity: usize) -> (r: Self)
        ensures
            r@ == TapeView::empty(capacity as nat),
    {
        let r = TapeBuffer {
            entries: VecDeque::new(),
            capacity: if capacity == 0 { 1 } else { capacity },
        };
        assert(r@ =~= TapeView::empty(capacity as nat));
        r
    }

    /// Adds a trade, evicting the oldest once the window is full.
    pub fn push(&mut self, entry: TapeEntry)
        ensures
            final(self)@ == old(self)@.push(entry),
    {
        let ghost all = seq![entry] + self.entries@;
        let ghost capacity = self.capacity;
        self.entries.push_front(entry);
        while self.entries.len() > self.capacity
            invariant
                self.capacity == capacity,
                self.entries@.len() <= all.len(),
                self.entries@ == all.take(self.entries@.len() as int),
                self.entries@.len() >= capacity || self.entries@ == all,
            decreases self.entries@.len(),
        {
            let ghost n = self.entries@.len();
            self.entries.pop_back();
            assert(all.take(n as int).subrange(0, n - 1) =~= all.take(n - 1));
        }
        assert(self@ =~= old(self)@.push(entry));
    }

    /// Newest first.
    pub fn iter(&self) -> (r: std::collections::vec_deque::Iter<'_, TapeEntry>)
        ensures
            vstd::std_specs::iter::IteratorSpec::remaining(&r) == self@.entries.as_ref(),
    {
        self.entries.iter()
    }

    /// The `i`-th newest.
    pub fn at(&self, i: usize) -> (r: &TapeEntry)
        requires
            i < self@.entries.len(),
        ensures
            *r == self@.entries[i as int],
    {
        &self.entries[i]
    }

    pub fn len(&self) -> (r: usize)
        ensures
            r == self@.entries.len(),
    {
        self.entries.len()
    }

    pub fn is_empty(&self) -> (r: bool)
        ensures
            r == (self@.entries.len() == 0),
    {
        self.entries.len() == 0
    }
}

/// A tape after a list of entries, first to last.
pub open spec fn fed(tape: TapeView, entries: Seq<TapeEntry>) -> TapeView
    decreases entries.len(),
{
    if entries.len() == 0 {
        tape
    } else {
        fed(tape, entries.drop_last()).push(entries.last())
    }
}

/// A tape shows the latest entries, the newest first, up to its capacity; one
/// made with no capacity still shows the newest.
pub proof fn law_the_tape_shows_the_latest_first(capacity: nat, entries: Seq<TapeEntry>)
    ensures
        ({
            let tape = fed(TapeView::empty(capacity), entries);
            &&& tape.capacity == TapeView::empty(capacity).capacity
            &&& tape.entries == first_of(entries.reverse(), tape.capacity)
            &&& tape.entries.len() <= tape.capacity
            &&& entries.len() > 0 ==> tape.entries.len() > 0 && tape.entries[0] == entries.last()
        }),
    decreases entries.len(),
{
    if entries.len() == 0 {
        assert(entries.reverse() =~= seq![]);
    } else {
        let front = entries.drop_last();
        law_the_tape_shows_the_latest_first(capacity, front);
        let before = fed(TapeView::empty(capacity), front);
        assert(entries.reverse() =~= seq![entries.last()] + front.reverse());
        assert(before.push(entries.last()).entries =~= first_of(
            entries.reverse(),
            before.capacity,
        ));
    }
}

} // verus!
