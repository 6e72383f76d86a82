//! What holds of the engine as a whole: over any run of events, and between
//! one operation and another.

pub mod arrivals;
pub mod books;
pub mod cancelling;
pub mod capacity;
pub mod conversions;
pub mod counting;
pub mod levels;
pub mod quantity;
pub mod queues;
pub mod ranking;
pub mod reading;
pub mod records;
pub mod routing;
pub mod symbols;
pub mod tape;
pub mod totals;
pub mod trading;
pub mod views;

use crate::engine::matcher::EngineView;
use crate::engine::types::Event;
use crate::feed::OrderId;
use vstd::prelude::*;

verus! {

/// The engine after a run of events, first to last.
pub open spec fn replay(v: EngineView, events: Seq<Event>) -> EngineView
    decreases events.len(),
{
    if events.len() == 0 {
        v
    } else {
        replay(v, events.drop_last()).apply(events.last())
    }
}

/// No two of the new orders share an id. The feed hands out every id once.
pub open spec fn distinct_orders(events: Seq<Event>) -> bool {
    forall|i: int, j: int|
        #![trigger events[i], events[j]]
        0 <= i < j < events.len() ==> match (events[i], events[j]) {
            (Event::New { order: a, .. }, Event::New { order: b, .. }) => a.id != b.id,
            _ => true,
        }
}

/// Whether some event introduces an order with this id.
pub open spec fn introduces(events: Seq<Event>, id: OrderId) -> bool {
    exists|i: int|
        0 <= i < events.len() && match #[trigger] events[i] {
            Event::New { order, .. } => order.id == id,
            Event::Cancel { .. } => false,
        }
}

/// Stopping after `head` and going on with `tail` gives what a straight run
/// over both gives.
pub proof fn law_resuming_matches_a_straight_run(
    v: EngineView,
    head: Seq<Event>,
    tail: Seq<Event>,
)
    ensures
        replay(v, head + tail) == replay(replay(v, head), tail),
    decreases tail.len(),
{
    if tail.len() == 0 {
        assert(head + tail =~= head);
    } else {
        law_resuming_matches_a_straight_run(v, head, tail.drop_last());
        assert((head + tail).drop_last() =~= head + tail.drop_last());
        assert((head + tail).last() == tail.last());
    }
}

} // verus!
