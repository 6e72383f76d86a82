//! Every event is counted once, under what became of it.

use crate::engine::laws::replay;
use crate::engine::matcher::EngineView;
use crate::engine::types::Event;
use vstd::prelude::*;

verus! {

/// How many of the events are cancels.
pub open spec fn cancels_in(events: Seq<Event>) -> int
    decreases events.len(),
{
    if events.len() == 0 {
        0
    } else {
        cancels_in(events.drop_last()) + (if events.last() is Cancel {
            1int
        } else {
            0
        })
    }
}

/// How many of the events are new orders that the filter keeps out.
pub open spec fn kept_out(only: Option<Seq<char>>, events: Seq<Event>) -> int
    decreases events.len(),
{
    if events.len() == 0 {
        0
    } else {
        kept_out(only, events.drop_last()) + (match (only, events.last()) {
            (Some(name), Event::New { symbol, .. }) => if symbol@ != name {
                1int
            } else {
                0
            },
            _ => 0,
        })
    }
}

/// Of one event: the messages grow by one, and so does exactly one of the new
/// orders, the filtered and the cancels. A cancel is a hit if its target has a
/// route, and unknown if not; nothing but a hit cancels quantity, and nothing
/// but a new order trades.
pub proof fn law_an_event_is_counted_once(v: EngineView, event: Event)
    requires
        v.valid(),
    ensures
        ({
            let (a, b) = (v.stats, v.apply(event).stats);
            &&& b.events == a.events + 1
            &&& match event {
                Event::New { symbol, .. } => {
                    let out = v.only is Some && v.only != Some(symbol@);
                    &&& b.filtered == a.filtered + (if out {
                        1int
                    } else {
                        0
                    })
                    &&& b.new_orders == a.new_orders + (if out {
                        0int
                    } else {
                        1
                    })
                    &&& b.cancels == a.cancels
                    &&& b.cancels_hit == a.cancels_hit
                    &&& b.cancels_unknown == a.cancels_unknown
                    &&& b.cancelled_qty == a.cancelled_qty
                    &&& out ==> b.trades == a.trades && b.volume == a.volume
                },
                Event::Cancel { target_id, .. } => {
                    let hit = v.routes.contains_key(target_id);
                    &&& b.cancels == a.cancels + 1
                    &&& b.cancels_hit == a.cancels_hit + (if hit {
                        1int
                    } else {
                        0
                    })
                    &&& b.cancels_unknown == a.cancels_unknown + (if hit {
                        0int
                    } else {
                        1
                    })
                    &&& b.new_orders == a.new_orders
                    &&& b.filtered == a.filtered
                    &&& b.trades == a.trades
                    &&& b.volume == a.volume
                    &&& !hit ==> b.cancelled_qty == a.cancelled_qty
                },
            }
        }),
{
    match event {
        Event::Cancel { target_id, .. } => {
            if v.routes.contains_key(target_id) {
                assert(v.books.contains_key(v.routes[target_id]));
            }
        },
        Event::New { .. } => {},
    }
}

/// After every run, the messages are as many as the events, the filtered and
/// the cancels are those among them, and the rest are new orders; the cancels
/// hit or were unknown.
pub proof fn law_a_run_counts_its_events(only: Option<Seq<char>>, events: Seq<Event>)
    ensures
        ({
            let s = replay(EngineView::empty(only), events).stats;
            &&& s.events == events.len()
            &&& s.cancels == cancels_in(events)
            &&& s.filtered == kept_out(only, events)
            &&& s.new_orders == events.len() - cancels_in(events) - kept_out(only, events)
            &&& s.cancels == s.cancels_hit + s.cancels_unknown
        }),
        replay(EngineView::empty(only), events).only == only,
    decreases events.len(),
{
    if events.len() > 0 {
        law_a_run_counts_its_events(only, events.drop_last());
    }
}

} // verus!
