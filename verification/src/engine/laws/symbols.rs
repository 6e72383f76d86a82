//! One symbol's orders never reach into another symbol's book.

use crate::engine::laws::replay;
use crate::engine::matcher::EngineView;
use crate::engine::types::{Event, Order, Symbol};
use crate::feed::{AccountId, OrderId};
use vstd::prelude::*;

verus! {

/// A new order touches its own symbol's book and no other.
pub proof fn law_symbols_do_not_match_against_each_other(
    v: EngineView,
    symbol: Symbol,
    order: Order,
    other: Seq<char>,
)
    requires
        other != symbol@,
    ensures
        ({
            let next = v.apply(Event::New { symbol, order });
            &&& next.books.contains_key(other) == v.books.contains_key(other)
            &&& next.book(other) == v.book(other)
        }),
{
}

/// A cancel touches the book that its target is routed to and no other.
pub proof fn law_a_cancel_stays_in_its_book(
    v: EngineView,
    seq: OrderId,
    account: AccountId,
    target_id: OrderId,
    other: Seq<char>,
)
    requires
        v.routes.contains_key(target_id) ==> other != v.routes[target_id],
    ensures
        ({
            let next = v.apply(Event::Cancel { seq, account, target_id });
            &&& next.books.contains_key(other) == v.books.contains_key(other)
            &&& next.book(other) == v.book(other)
        }),
{
}

/// A new order in a symbol that the engine does not follow is counted as
/// filtered and does nothing else.
pub proof fn law_a_filtered_order_only_counts(v: EngineView, symbol: Symbol, order: Order)
    requires
        !v.follows(symbol@),
    ensures
        ({
            let event = Event::New { symbol, order };
            let next = v.apply(event);
            &&& v.trades(event).len() == 0
            &&& next.books == v.books
            &&& next.routes == v.routes
            &&& next.market == v.market
            &&& next.stats.filtered == v.stats.filtered + 1
            &&& next.stats.new_orders == v.stats.new_orders
        }),
{
}

/// A book opens with the first order in its symbol and stays, empty or not; no
/// other event opens or closes one.
pub proof fn law_a_book_opens_and_stays(v: EngineView, event: Event, name: Seq<char>)
    requires
        v.valid(),
    ensures
        v.apply(event).books.contains_key(name) <==> v.books.contains_key(name) || match event {
            Event::New { symbol, .. } => symbol@ == name && (v.only is None || v.only == Some(
                symbol@,
            )),
            Event::Cancel { .. } => false,
        },
        v.apply(event).only == v.only,
{
    match event {
        Event::Cancel { target_id, .. } => {
            if v.routes.contains_key(target_id) {
                assert(v.books.contains_key(v.routes[target_id]));
            }
        },
        Event::New { .. } => {},
    }
}

/// An engine that follows one symbol never opens a book in another, and the
/// routes lead to no other.
pub proof fn law_a_filter_keeps_other_symbols_out(symbol: Seq<char>, events: Seq<Event>)
    ensures
        ({
            let v = replay(EngineView::empty(Some(symbol)), events);
            &&& v.only == Some(symbol)
            &&& forall|other: Seq<char>| #[trigger]
                v.books.contains_key(other) ==> other == symbol
            &&& forall|id: OrderId| #[trigger]
                v.routes.contains_key(id) ==> v.routes[id] == symbol
        }),
    decreases events.len(),
{
    if events.len() > 0 {
        law_a_filter_keeps_other_symbols_out(symbol, events.drop_last());
    }
}

} // verus!
