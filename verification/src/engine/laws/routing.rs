//! No book is ever crossed, and the routing index follows the books exactly.

use crate::engine::book::{
    lemma_position_found, lemma_rank_bounds, located, position, rank, BookView,
};
use crate::engine::laws::{distinct_orders, introduces, replay};
use crate::engine::matcher::{
    book_after, ids, lemma_accept_keeps_valid, lemma_cancel_keeps_valid, lemma_sweep_shape,
    opposite_side, sweep, swept_book, EngineView,
};
use crate::engine::sums::{lemma_sum_split, sum_values};
use crate::engine::types::{Event, Order, Price, Qty, Symbol};
use crate::feed::{OrderId, Side};
use vstd::prelude::*;

verus! {

/// Every order in the queue is in the index, under its side and price, and no
/// id stands in the queue twice.
pub open spec fn entered(s: Seq<Order>, side: Side, index: Map<OrderId, (Side, Price)>) -> bool {
    &&& forall|i: int|
        0 <= i < s.len() ==> index.contains_key((#[trigger] s[i]).id) && index[s[i].id] == (
            side,
            s[i].price,
        )
    &&& forall|i: int, j: int|
        0 <= i < j < s.len() ==> (#[trigger] s[i]).id != (#[trigger] s[j]).id
}

impl BookView {
    /// The index holds every resting order, each once.
    pub open spec fn tidy(self) -> bool {
        &&& self.index.dom().finite()
        &&& entered(self.bids, Side::Buy, self.index)
        &&& entered(self.asks, Side::Sell, self.index)
    }
}

impl EngineView {
    /// The books' indexes hold every resting order, each once, and the routes
    /// lead to every one of them.
    pub open spec fn tidy(self) -> bool {
        &&& self.books.dom().finite()
        &&& self.routes.dom().finite()
        &&& forall|symbol: Seq<char>| #[trigger]
            self.books.contains_key(symbol) ==> self.books[symbol].tidy()
        &&& forall|symbol: Seq<char>, id: OrderId|
            self.books.contains_key(symbol) && #[trigger] self.books[symbol].index.contains_key(id)
                ==> self.routes.contains_key(id) && self.routes[id] == symbol
    }
}

/// A tidy book's index counts exactly the orders in its queues.
pub proof fn law_the_index_counts_the_resting_orders(b: BookView)
    requires
        b.valid(),
        b.tidy(),
    ensures
        b.index.len() == b.bids.len() + b.asks.len(),
{
    let x = b.bids.map_values(|o: Order| o.id);
    let y = b.asks.map_values(|o: Order| o.id);
    x.unique_seq_to_set();
    y.unique_seq_to_set();
    assert forall|id: OrderId| b.index.contains_key(id) <==> x.to_set().contains(id)
        || y.to_set().contains(id) by {
        if b.index.contains_key(id) {
            let (side, price) = b.index[id];
            let s = b.side(side);
            assert(located(s, id, price));
            let at = choose|i: int|
                0 <= i < s.len() && (#[trigger] s[i]).id == id && s[i].price == price;
            match side {
                Side::Buy => assert(x[at] == id),
                Side::Sell => assert(y[at] == id),
            }
        }
        if x.contains(id) {
            let at = choose|i: int| 0 <= i < x.len() && x[i] == id;
            assert(b.bids[at].id == id);
        }
        if y.contains(id) {
            let at = choose|i: int| 0 <= i < y.len() && y[i] == id;
            assert(b.asks[at].id == id);
        }
    }
    assert(x.to_set().disjoint(y.to_set())) by {
        assert forall|id: OrderId| !(x.to_set().contains(id) && y.to_set().contains(id)) by {
            if x.contains(id) && y.contains(id) {
                let i = choose|i: int| 0 <= i < x.len() && x[i] == id;
                let j = choose|j: int| 0 <= j < y.len() && y[j] == id;
                assert(b.index[b.bids[i].id].0 == Side::Buy);
                assert(b.index[b.asks[j].id].0 == Side::Sell);
            }
        }
    }
    vstd::set_lib::lemma_set_disjoint_lens(x.to_set(), y.to_set());
    assert(b.index.dom() =~= x.to_set() + y.to_set());
}

proof fn lemma_in_ids(s: Seq<Order>, id: OrderId)
    ensures
        ids(s).contains(id) <==> exists|i: int| 0 <= i < s.len() && (#[trigger] s[i]).id == id,
{
    let x = s.map_values(|o: Order| o.id);
    if x.contains(id) {
        let i = choose|i: int| 0 <= i < x.len() && x[i] == id;
        assert(s[i].id == id);
    }
    if exists|i: int| 0 <= i < s.len() && (#[trigger] s[i]).id == id {
        let i = choose|i: int| 0 <= i < s.len() && (#[trigger] s[i]).id == id;
        assert(x[i] == id);
    }
}

/// Taking makers off the front of one queue leaves the book tidy.
proof fn lemma_swept_tidy(b: BookView, side: Side, makers: Seq<Order>)
    requires
        b.tidy(),
        makers.len() <= b.side(side).len(),
        forall|i: int|
            0 <= i < makers.len() ==> {
                let m = b.side(side)[b.side(side).len() - makers.len() + i];
                (#[trigger] makers[i]).id == m.id && makers[i].price == m.price && makers[i].side
                    == m.side
            },
    ensures
        swept_book(b, side, makers).tidy(),
{
    let s = b.side(side);
    let c = s.len() - makers.len();
    let gone = s.take(c);
    let n = swept_book(b, side, makers);
    let other = opposite_side(side);
    assert(n.index.dom() =~= b.index.dom().difference(ids(gone)));
    assert(entered(makers, side, n.index)) by {
        assert forall|i: int| 0 <= i < makers.len() implies n.index.contains_key(
            (#[trigger] makers[i]).id,
        ) && n.index[makers[i].id] == (side, makers[i].price) by {
            let id = s[c + i].id;
            lemma_in_ids(gone, id);
            assert(!ids(gone).contains(id));
        }
        assert forall|i: int, j: int| 0 <= i < j < makers.len() implies (#[trigger] makers[i]).id
            != (#[trigger] makers[j]).id by {
            assert(s[c + i].id != s[c + j].id);
        }
    }
    assert(entered(b.side(other), other, n.index)) by {
        let t = b.side(other);
        assert forall|i: int| 0 <= i < t.len() implies n.index.contains_key((#[trigger] t[i]).id)
            && n.index[t[i].id] == (other, t[i].price) by {
            lemma_in_ids(gone, t[i].id);
            if ids(gone).contains(t[i].id) {
                let k = choose|k: int| 0 <= k < gone.len() && (#[trigger] gone[k]).id == t[i].id;
                assert(s[k].id == t[i].id);
                assert(b.index[s[k].id].0 == side);
            }
        }
    }
}

/// Resting an order whose id is not in the index leaves the book tidy.
pub proof fn lemma_insert_tidy(b: BookView, o: Order)
    requires
        b.tidy(),
        !b.index.contains_key(o.id),
    ensures
        b.insert(o).tidy(),
{
    let s = b.side(o.side);
    let k = rank(s, o.side, o.price);
    lemma_rank_bounds(s, o.side, o.price);
    let t = s.insert(k, o);
    let n = b.insert(o);
    assert(n.index.dom() =~= b.index.dom().insert(o.id));
    assert(entered(t, o.side, n.index)) by {
        assert forall|i: int| 0 <= i < t.len() implies n.index.contains_key((#[trigger] t[i]).id)
            && n.index[t[i].id] == (o.side, t[i].price) by {
            if i < k {
                assert(t[i] == s[i]);
            } else if i > k {
                assert(t[i] == s[i - 1]);
            }
        }
        assert forall|i: int, j: int| 0 <= i < j < t.len() implies (#[trigger] t[i]).id != (
        #[trigger] t[j]).id by {
            let x = if i < k { i } else { i - 1 };
            let y = if j < k { j } else { j - 1 };
            if i != k {
                assert(t[i] == s[x]);
            }
            if j != k {
                assert(t[j] == s[y]);
            }
        }
    }
    let other = opposite_side(o.side);
    assert(entered(b.side(other), other, n.index));
}

/// So does a cancel.
pub proof fn lemma_cancel_tidy(b: BookView, id: OrderId)
    requires
        b.valid(),
        b.tidy(),
        b.index.contains_key(id),
    ensures
        b.cancel(id).tidy(),
{
    let (side, price) = b.index[id];
    let s = b.side(side);
    let k = position(s, id, price);
    lemma_position_found(s, id, price);
    let t = s.remove(k);
    let n = b.cancel(id);
    let other = opposite_side(side);
    assert(n.index.dom() =~= b.index.dom().remove(id));
    assert(entered(t, side, n.index)) by {
        assert forall|i: int| 0 <= i < t.len() implies n.index.contains_key((#[trigger] t[i]).id)
            && n.index[t[i].id] == (side, t[i].price) by {
            let x = if i < k { i } else { i + 1 };
            assert(t[i] == s[x]);
        }
        assert forall|i: int, j: int| 0 <= i < j < t.len() implies (#[trigger] t[i]).id != (
        #[trigger] t[j]).id by {
            let x = if i < k { i } else { i + 1 };
            let y = if j < k { j } else { j + 1 };
            assert(t[i] == s[x]);
            assert(t[j] == s[y]);
        }
    }
    assert(entered(b.side(other), other, n.index)) by {
        let u = b.side(other);
        assert forall|i: int| 0 <= i < u.len() implies n.index.contains_key((#[trigger] u[i]).id)
            && n.index[u[i].id] == (other, u[i].price) by {
            assert(b.index[u[i].id].0 == other);
        }
    }
}

/// What an arriving order does to a tidy book's index.
proof fn lemma_book_after_tidy(b: BookView, symbol: Symbol, order: Order)
    requires
        b.tidy(),
        !b.index.contains_key(order.id),
    ensures
        ({
            let side = opposite_side(order.side);
            let s = sweep(symbol, order, order.qty.0 as int, b.side(side));
            let gone = b.side(side).take(b.side(side).len() - s.makers.len());
            let next = book_after(b, symbol, order);
            &&& next.tidy()
            &&& forall|id: OrderId| #[trigger]
                next.index.contains_key(id) <==> (b.index.contains_key(id) && !ids(gone).contains(
                    id,
                )) || (s.left != 0 && id == order.id)
            &&& forall|id: OrderId| #[trigger]
                ids(gone).contains(id) ==> b.index.contains_key(id)
        }),
{
    let side = opposite_side(order.side);
    let makers = b.side(side);
    let s = sweep(symbol, order, order.qty.0 as int, makers);
    let gone = makers.take(makers.len() - s.makers.len());
    lemma_sweep_shape(symbol, order, order.qty.0 as int, makers);
    lemma_swept_tidy(b, side, s.makers);
    let swept = swept_book(b, side, s.makers);
    assert forall|id: OrderId| #[trigger] ids(gone).contains(id) implies b.index.contains_key(
        id,
    ) by {
        lemma_in_ids(gone, id);
        let k = choose|k: int| 0 <= k < gone.len() && (#[trigger] gone[k]).id == id;
        assert(makers[k].id == id);
    }
    if s.left != 0 {
        lemma_insert_tidy(swept, Order { qty: Qty(s.left as i64), ..order });
    }
}

proof fn lemma_accept_tidy(v: EngineView, symbol: Symbol, order: Order)
    requires
        v.valid(),
        v.tidy(),
        !v.routes.contains_key(order.id),
    ensures
        v.accept(symbol, order).tidy(),
{
    let b = v.book(symbol@);
    let next = v.accept(symbol, order);
    let now = book_after(b, symbol, order);
    let s = v.sweep(symbol, order);
    let makers = v.makers(symbol, order);
    let gone = makers.take(makers.len() - s.makers.len());
    assert(b.tidy());
    assert(!b.index.contains_key(order.id));
    lemma_book_after_tidy(b, symbol, order);
    assert(next.books.dom() =~= v.books.dom().insert(symbol@));
    let kept = v.routes.remove_keys(ids(gone));
    assert(kept.dom() =~= v.routes.dom().difference(ids(gone)));
    if s.left != 0 {
        assert(next.routes.dom() =~= kept.dom().insert(order.id));
    }
    assert forall|name: Seq<char>, id: OrderId|
        next.books.contains_key(name) && #[trigger] next.books[name].index.contains_key(
            id,
        ) implies next.routes.contains_key(id) && next.routes[id] == name by {
        if name == symbol@ {
            assert(next.books[name] == now);
            assert(now.index.contains_key(id));
            if !(s.left != 0 && id == order.id) {
                assert(v.books.contains_key(symbol@));
                assert(v.books[symbol@].index.contains_key(id));
            }
        } else {
            assert(v.books.contains_key(name));
            assert(v.books[name].index.contains_key(id));
            if ids(gone).contains(id) {
                assert(b.index.contains_key(id));
                assert(v.books.contains_key(symbol@));
                assert(v.books[symbol@].index.contains_key(id));
            }
        }
    }
}

/// One event keeps the books and the routes in step, if it brings no id that
/// is still resting.
pub proof fn law_an_event_keeps_the_routes_exact(v: EngineView, event: Event)
    requires
        v.valid(),
        v.tidy(),
        match event {
            Event::New { order, .. } => !v.routes.contains_key(order.id),
            Event::Cancel { .. } => true,
        },
    ensures
        v.apply(event).valid(),
        v.apply(event).tidy(),
{
    law_an_event_keeps_the_books_sound(v, event);
    let c = v.counted();
    match event {
        Event::New { symbol, order } => {
            if v.follows(symbol@) {
                lemma_accept_tidy(c, symbol, order);
            }
        },
        Event::Cancel { target_id, .. } => {
            if c.cancelled(target_id) is Some {
                let symbol = v.routes[target_id];
                let b = v.books[symbol];
                assert(v.books.contains_key(symbol));
                lemma_cancel_tidy(b, target_id);
                let next = c.cancel(target_id);
                assert(next.books.dom() =~= v.books.dom());
                assert(next.routes.dom() =~= v.routes.dom().remove(target_id));
                assert forall|name: Seq<char>, id: OrderId|
                    next.books.contains_key(name) && #[trigger] next.books[name].index.contains_key(
                        id,
                    ) implies next.routes.contains_key(id) && next.routes[id] == name by {
                    assert(v.books[name].index.contains_key(id));
                }
            }
        },
    }
}

/// One event leaves every book in priority order and uncrossed.
pub proof fn law_an_event_keeps_the_books_sound(v: EngineView, event: Event)
    requires
        v.valid(),
    ensures
        v.apply(event).valid(),
        !v.apply(event).any_crossed(),
{
    let c = v.counted();
    match event {
        Event::New { symbol, order } => {
            if v.follows(symbol@) {
                lemma_accept_keeps_valid(c, symbol, order);
            }
        },
        Event::Cancel { target_id, .. } => {
            lemma_cancel_keeps_valid(c, target_id);
        },
    }
}

/// No book is ever crossed once an event has been folded, whatever the events.
pub proof fn law_no_book_is_ever_crossed(only: Option<Seq<char>>, events: Seq<Event>)
    ensures
        replay(EngineView::empty(only), events).valid(),
        !replay(EngineView::empty(only), events).any_crossed(),
    decreases events.len(),
{
    if events.len() > 0 {
        law_no_book_is_ever_crossed(only, events.drop_last());
        law_an_event_keeps_the_books_sound(
            replay(EngineView::empty(only), events.drop_last()),
            events.last(),
        );
    }
}

/// The routes, split by the book that they lead to.
proof fn lemma_routes_by_book(
    routes: Map<OrderId, Seq<char>>,
    indexes: Map<Seq<char>, Set<OrderId>>,
)
    requires
        routes.dom().finite(),
        indexes.dom().finite(),
        forall|id: OrderId| #[trigger]
            routes.contains_key(id) ==> indexes.contains_key(routes[id])
                && indexes[routes[id]].contains(id),
        forall|symbol: Seq<char>, id: OrderId|
            indexes.contains_key(symbol) && #[trigger] indexes[symbol].contains(id)
                ==> routes.contains_key(id) && routes[id] == symbol,
    ensures
        routes.len() == sum_values(indexes.map_values(|s: Set<OrderId>| s.len() as int)),
    decreases indexes.len(),
{
    let sizes = indexes.map_values(|s: Set<OrderId>| s.len() as int);
    assert(sizes.dom() =~= indexes.dom());
    if indexes.len() == 0 {
        assert(routes.dom() =~= Set::empty()) by {
            assert forall|id: OrderId| !routes.dom().contains(id) by {
                if routes.contains_key(id) {
                    assert(indexes.dom().contains(routes[id]));
                }
            }
        }
        assert(sizes.len() == 0);
    } else {
        let symbol = indexes.dom().choose();
        let here = indexes[symbol];
        let others = indexes.remove(symbol);
        let rest = routes.remove_keys(here);
        assert(here.subset_of(routes.dom())) by {
            assert forall|id: OrderId| here.contains(id) implies routes.dom().contains(id) by {
                assert(indexes[symbol].contains(id));
            }
        }
        assert(rest.dom() =~= routes.dom().difference(here));
        assert forall|id: OrderId| #[trigger] rest.contains_key(id) implies others.contains_key(
            rest[id],
        ) && others[rest[id]].contains(id) by {
            assert(routes.contains_key(id));
        }
        assert forall|name: Seq<char>, id: OrderId|
            others.contains_key(name) && #[trigger] others[name].contains(
                id,
            ) implies rest.contains_key(id) && rest[id] == name by {
            assert(indexes[name].contains(id));
            if here.contains(id) {
                assert(indexes[symbol].contains(id));
            }
        }
        lemma_routes_by_book(rest, others);
        lemma_sum_split(sizes, symbol);
        assert(sizes.remove(symbol) =~= others.map_values(|s: Set<OrderId>| s.len() as int));
        vstd::set_lib::lemma_len_subset(here, routes.dom());
        vstd::set_lib::lemma_set_disjoint_lens(here, rest.dom());
        assert(here + rest.dom() =~= routes.dom());
    }
}

/// Where the routes are exact, there are as many as orders rest in the books.
pub proof fn law_exact_routes_count_the_resting_orders(v: EngineView)
    requires
        v.valid(),
        v.tidy(),
    ensures
        v.routes.len() == v.resting(),
{
    let indexes = v.books.map_values(|b: BookView| b.index.dom());
    assert(indexes.dom() =~= v.books.dom());
    assert forall|symbol: Seq<char>, id: OrderId|
        indexes.contains_key(symbol) && #[trigger] indexes[symbol].contains(
            id,
        ) implies v.routes.contains_key(id) && v.routes[id] == symbol by {
        assert(v.books.contains_key(symbol));
        assert(v.books[symbol].index.contains_key(id));
    }
    assert forall|id: OrderId| #[trigger] v.routes.contains_key(id) implies indexes.contains_key(
        v.routes[id],
    ) && indexes[v.routes[id]].contains(id) by {
        assert(v.books.contains_key(v.routes[id]));
    }
    lemma_routes_by_book(v.routes, indexes);
    assert(indexes.map_values(|s: Set<OrderId>| s.len() as int) =~= v.books.map_values(
        |b: BookView| b.index.len() as int,
    ));
}

/// The size of the routing index equals the number of resting orders after
/// every run of events whose orders have ids of their own: it never leaks.
pub proof fn law_the_routing_index_never_drifts(only: Option<Seq<char>>, events: Seq<Event>)
    requires
        distinct_orders(events),
    ensures
        ({
            let v = replay(EngineView::empty(only), events);
            &&& v.routes.len() == v.resting()
            &&& v.valid()
            &&& v.tidy()
            &&& forall|id: OrderId| #[trigger] v.routes.contains_key(id) ==> introduces(events, id)
        }),
    decreases events.len(),
{
    let v = replay(EngineView::empty(only), events);
    if events.len() > 0 {
        let front = events.drop_last();
        let event = events.last();
        let before = replay(EngineView::empty(only), front);
        assert(distinct_orders(front)) by {
            assert forall|i: int, j: int|
                #![trigger front[i], front[j]]
                0 <= i < j < front.len() implies match (front[i], front[j]) {
                (Event::New { order: a, .. }, Event::New { order: b, .. }) => a.id != b.id,
                _ => true,
            } by {
                assert(front[i] == events[i] && front[j] == events[j]);
            }
        }
        law_the_routing_index_never_drifts(only, front);
        assert(event == events[events.len() - 1]);
        match event {
            Event::New { order, .. } => {
                if before.routes.contains_key(order.id) {
                    assert(introduces(front, order.id));
                    let i = choose|i: int|
                        0 <= i < front.len() && match #[trigger] front[i] {
                            Event::New { order: o, .. } => o.id == order.id,
                            Event::Cancel { .. } => false,
                        };
                    assert(events[i] == front[i]);
                }
            },
            Event::Cancel { .. } => {},
        }
        law_an_event_keeps_the_routes_exact(before, event);
        assert forall|id: OrderId| #[trigger] v.routes.contains_key(id) implies introduces(
            events,
            id,
        ) by {
            if before.routes.contains_key(id) {
                assert(introduces(front, id));
                let i = choose|i: int|
                    0 <= i < front.len() && match #[trigger] front[i] {
                        Event::New { order: o, .. } => o.id == id,
                        Event::Cancel { .. } => false,
                    };
                assert(events[i] == front[i]);
            }
        }
    }
    law_exact_routes_count_the_resting_orders(v);
}

} // verus!
