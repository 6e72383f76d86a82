//! What holds of one book: how orders queue, and what its levels add up to.

use crate::engine::book::{
    at_least_as_good, lemma_cancel_keeps_valid, lemma_insert_keeps_valid, lemma_position_found,
    lemma_rank_bounds, lemma_reduce_keeps_valid, levels, position, qty_sum, rank, ranked, BookView,
};
use crate::engine::laws::routing::{
    entered, law_no_book_is_ever_crossed, law_the_index_counts_the_resting_orders,
    lemma_cancel_tidy, lemma_insert_tidy,
};
use crate::engine::laws::{introduces, replay};
use crate::engine::matcher::{
    book_after, lemma_sweep_shape, lemma_swept_valid, opposite_side, sweep, swept_book, EngineView,
};
use crate::engine::types::{Event, Order, Price, Qty, Symbol};
use crate::feed::{OrderId, Side};
use vstd::prelude::*;

verus! {

/// The quantity that a queue holds at one price.
pub open spec fn qty_at(s: Seq<Order>, price: Price) -> int
    decreases s.len(),
{
    if s.len() == 0 {
        0
    } else if s.last().price == price {
        qty_at(s.drop_last(), price) + s.last().qty.0
    } else {
        qty_at(s.drop_last(), price)
    }
}

/// The quantity of a list of levels.
pub open spec fn depth_sum(l: Seq<(Price, int)>) -> int
    decreases l.len(),
{
    if l.len() == 0 {
        0
    } else {
        depth_sum(l.drop_last()) + l.last().1
    }
}

/// The levels together hold what the queue holds.
pub proof fn law_the_levels_hold_the_whole_queue(s: Seq<Order>)
    ensures
        depth_sum(levels(s)) == qty_sum(s),
    decreases s.len(),
{
    if s.len() > 0 {
        law_the_levels_hold_the_whole_queue(s.drop_last());
        let front = levels(s.drop_last());
        assert(levels(s).drop_last() =~= if front.len() > 0 && front.last().0 == s.last().price {
            front.drop_last()
        } else {
            front
        });
    }
}

/// The levels of a queue in priority order stand best first, each price once;
/// every order has a level, and a level's quantity is that of its orders.
pub proof fn law_a_level_adds_up_the_orders_at_its_price(s: Seq<Order>, side: Side)
    requires
        ranked(s, side),
    ensures
        forall|i: int, j: int|
            0 <= i < j < levels(s).len() ==> at_least_as_good(
                side,
                (#[trigger] levels(s)[i]).0,
                (#[trigger] levels(s)[j]).0,
            ) && levels(s)[i].0 != levels(s)[j].0,
        forall|i: int|
            0 <= i < levels(s).len() ==> (#[trigger] levels(s)[i]).1 == qty_at(s, levels(s)[i].0),
        forall|k: int|
            0 <= k < s.len() ==> exists|i: int|
                0 <= i < levels(s).len() && (#[trigger] levels(s)[i]).0 == (#[trigger] s[k]).price,
        s.len() > 0 ==> levels(s).len() > 0 && levels(s).last().0 == s.last().price,
    decreases s.len(),
{
    if s.len() > 0 {
        let t = s.drop_last();
        let o = s.last();
        assert(ranked(t, side)) by {
            assert forall|i: int, j: int| 0 <= i < j < t.len() implies at_least_as_good(
                side,
                (#[trigger] t[i]).price,
                (#[trigger] t[j]).price,
            ) by {
                assert(t[i] == s[i] && t[j] == s[j]);
            }
            assert forall|i: int| 0 <= i < t.len() implies (#[trigger] t[i]).side == side by {
                assert(t[i] == s[i]);
            }
        }
        law_a_level_adds_up_the_orders_at_its_price(t, side);
        let (a, b) = (levels(t), levels(s));
        let joined = a.len() > 0 && a.last().0 == o.price;
        if t.len() > 0 {
            assert(t.last() == s[s.len() - 2]);
            assert(o == s[s.len() - 1]);
            assert(at_least_as_good(side, t.last().price, o.price));
        } else {
            assert(a.len() == 0);
        }
        // No level of the front but the last can share the new order's price.
        assert forall|i: int| 0 <= i < a.len() - 1 implies (#[trigger] a[i]).0 != o.price by {
            assert(at_least_as_good(side, a[i].0, a[a.len() - 1].0) && a[i].0 != a[a.len()
                - 1].0);
        }
        if !joined {
            lemma_no_such_price(t, o.price, a);
        }
        assert forall|i: int| 0 <= i < b.len() implies (#[trigger] b[i]).1 == qty_at(
            s,
            b[i].0,
        ) by {
            if i < a.len() {
                assert(a[i].1 == qty_at(t, a[i].0));
            }
        }
        assert forall|k: int| 0 <= k < s.len() implies exists|i: int|
            0 <= i < b.len() && (#[trigger] b[i]).0 == (#[trigger] s[k]).price by {
            if k < t.len() {
                assert(t[k] == s[k]);
                let i = choose|i: int| 0 <= i < a.len() && (#[trigger] a[i]).0 == t[k].price;
                assert(b[i].0 == a[i].0);
            } else {
                assert(b[b.len() - 1].0 == o.price);
            }
        }
        assert forall|i: int, j: int| 0 <= i < j < b.len() implies at_least_as_good(
            side,
            (#[trigger] b[i]).0,
            (#[trigger] b[j]).0,
        ) && b[i].0 != b[j].0 by {
            assert(b[i].0 == a[i].0);
            if j < a.len() {
                assert(b[j].0 == a[j].0);
            } else if i < a.len() - 1 {
                assert(at_least_as_good(side, a[i].0, a[a.len() - 1].0));
            }
        }
    }
}

proof fn lemma_no_such_price(s: Seq<Order>, price: Price, l: Seq<(Price, int)>)
    requires
        forall|k: int|
            0 <= k < s.len() ==> exists|i: int|
                0 <= i < l.len() && (#[trigger] l[i]).0 == (#[trigger] s[k]).price,
        forall|i: int| 0 <= i < l.len() ==> (#[trigger] l[i]).0 != price,
    ensures
        qty_at(s, price) == 0,
    decreases s.len(),
{
    if s.len() > 0 {
        let t = s.drop_last();
        assert forall|k: int| 0 <= k < t.len() implies exists|i: int|
            0 <= i < l.len() && (#[trigger] l[i]).0 == (#[trigger] t[k]).price by {
            assert(t[k] == s[k]);
        }
        lemma_no_such_price(t, price, l);
        assert(s.last() == s[s.len() - 1]);
        let i = choose|i: int| 0 <= i < l.len() && (#[trigger] l[i]).0 == s[s.len() - 1].price;
        assert(l[i].0 != price);
    }
}

/// An arriving order joins its queue behind every order at least as well
/// priced, so behind its equals, and ahead of all the others; nobody else's
/// turn changes.
pub proof fn law_an_order_joins_behind_its_equals(b: BookView, o: Order)
    requires
        b.valid(),
    ensures
        ({
            let (s, t) = (b.side(o.side), b.insert(o).side(o.side));
            let k = rank(s, o.side, o.price);
            &&& 0 <= k <= s.len()
            &&& t == s.insert(k, o)
            &&& forall|i: int|
                0 <= i < k ==> at_least_as_good(o.side, (#[trigger] s[i]).price, o.price)
            &&& forall|i: int|
                k <= i < s.len() ==> !at_least_as_good(o.side, (#[trigger] s[i]).price, o.price)
            &&& b.insert(o).side(opposite_side(o.side)) == b.side(opposite_side(o.side))
        }),
{
    let s = b.side(o.side);
    let k = rank(s, o.side, o.price);
    lemma_rank_bounds(s, o.side, o.price);
    assert forall|i: int| k <= i < s.len() implies !at_least_as_good(
        o.side,
        (#[trigger] s[i]).price,
        o.price,
    ) by {
        if i > k {
            assert(at_least_as_good(o.side, s[k].price, s[i].price));
        }
    }
}

/// A tidy book is as long as its queues together, and empty when both are.
pub proof fn law_the_length_is_that_of_the_queues(b: BookView)
    requires
        b.valid(),
        b.tidy(),
    ensures
        b.index.len() == b.bids.len() + b.asks.len(),
        (b.index.len() == 0) == (b.bids.len() == 0 && b.asks.len() == 0),
{
    law_the_index_counts_the_resting_orders(b);
}

/// A book starts out sound, tidy and empty.
pub proof fn law_an_empty_book_is_tidy()
    ensures
        BookView::empty().valid(),
        BookView::empty().tidy(),
        BookView::empty().index.len() == 0,
{
}

/// Resting an order with an id of its own keeps a book sound and tidy, and
/// makes it longer by one.
pub proof fn law_an_insert_keeps_the_book_tidy(b: BookView, o: Order)
    requires
        b.valid(),
        b.tidy(),
        !b.index.contains_key(o.id),
    ensures
        b.insert(o).valid(),
        b.insert(o).tidy(),
        b.insert(o).index.len() == b.index.len() + 1,
{
    lemma_insert_keeps_valid(b, o);
    lemma_insert_tidy(b, o);
}

/// A cancel keeps a book sound and tidy. It makes it shorter by one if the
/// order was resting, and leaves it alone otherwise.
pub proof fn law_a_cancel_keeps_the_book_tidy(b: BookView, id: OrderId)
    requires
        b.valid(),
        b.tidy(),
    ensures
        b.cancel(id).valid(),
        b.cancel(id).tidy(),
        b.index.contains_key(id) ==> b.cancel(id).index.len() == b.index.len() - 1,
        !b.index.contains_key(id) ==> b.cancel(id) == b,
{
    lemma_cancel_keeps_valid(b, id);
    if b.index.contains_key(id) {
        lemma_cancel_tidy(b, id);
    }
}

/// A fill keeps a book sound and tidy. It makes it shorter by one if it
/// exhausts the best order, and no shorter otherwise.
pub proof fn law_a_fill_keeps_the_book_tidy(b: BookView, side: Side, qty: int)
    requires
        b.valid(),
        b.tidy(),
    ensures
        b.reduce_best(side, qty).valid(),
        b.reduce_best(side, qty).tidy(),
        b.reduce_best(side, qty).index.len() == b.index.len() - (if b.best(side) is Some
            && b.best(side)->0.qty.0 == qty {
            1int
        } else {
            0
        }),
{
    lemma_reduce_keeps_valid(b, side, qty);
    let s = b.side(side);
    let n = b.reduce_best(side, qty);
    let other = opposite_side(side);
    if s.len() > 0 {
        let t = n.side(side);
        let c = s.len() - t.len();
        assert(n.side(other) == b.side(other));
        assert(b.index.contains_key(s[0].id));
        assert(entered(t, side, n.index)) by {
            assert forall|i: int| 0 <= i < t.len() implies n.index.contains_key(
                (#[trigger] t[i]).id,
            ) && n.index[t[i].id] == (side, t[i].price) by {
                assert(t[i].id == s[c + i].id && t[i].price == s[c + i].price);
                assert(c > 0 ==> s[0].id != s[c + i].id);
            }
            assert forall|i: int, j: int| 0 <= i < j < t.len() implies (#[trigger] t[i]).id != (
            #[trigger] t[j]).id by {
                assert(s[c + i].id != s[c + j].id);
            }
        }
        assert(entered(b.side(other), other, n.index)) by {
            let u = b.side(other);
            assert forall|i: int| 0 <= i < u.len() implies n.index.contains_key(
                (#[trigger] u[i]).id,
            ) && n.index[u[i].id] == (other, u[i].price) by {
                assert(b.index[u[i].id].0 == other);
                assert(b.index[s[0].id].0 == side);
            }
        }
    }
}

/// Among orders at one price, the lower id stands first.
pub open spec fn by_age(s: Seq<Order>) -> bool {
    forall|i: int, j: int|
        0 <= i < j < s.len() && (#[trigger] s[i]).price == (#[trigger] s[j]).price ==> s[i].id
            < s[j].id
}

/// Every order in the queue has a lower id than `id`.
pub open spec fn all_older(s: Seq<Order>, id: OrderId) -> bool {
    forall|i: int| 0 <= i < s.len() ==> (#[trigger] s[i]).id < id
}

impl BookView {
    pub open spec fn by_age(self) -> bool {
        by_age(self.bids) && by_age(self.asks)
    }

    pub open spec fn all_older(self, id: OrderId) -> bool {
        all_older(self.bids, id) && all_older(self.asks, id)
    }

    /// Every resting order was introduced by one of the events.
    pub open spec fn introduced_by(self, events: Seq<Event>) -> bool {
        all_introduced(self.bids, events) && all_introduced(self.asks, events)
    }
}

proof fn lemma_swept_by_age(b: BookView, side: Side, makers: Seq<Order>)
    requires
        b.by_age(),
        makers.len() <= b.side(side).len(),
        forall|i: int|
            0 <= i < makers.len() ==> {
                let m = b.side(side)[b.side(side).len() - makers.len() + i];
                (#[trigger] makers[i]).id == m.id && makers[i].price == m.price && makers[i].side
                    == m.side
            },
    ensures
        swept_book(b, side, makers).by_age(),
{
    let s = b.side(side);
    let c = s.len() - makers.len();
    assert forall|i: int, j: int|
        0 <= i < j < makers.len() && (#[trigger] makers[i]).price == (
        #[trigger] makers[j]).price implies makers[i].id < makers[j].id by {
        assert(s[c + i].price == s[c + j].price);
    }
    assert(swept_book(b, side, makers).side(side) == makers);
}

proof fn lemma_insert_by_age(b: BookView, o: Order)
    requires
        b.valid(),
        b.by_age(),
        b.all_older(o.id),
    ensures
        b.insert(o).by_age(),
{
    law_an_order_joins_behind_its_equals(b, o);
    let s = b.side(o.side);
    let k = rank(s, o.side, o.price);
    let t = s.insert(k, o);
    assert forall|i: int, j: int|
        0 <= i < j < t.len() && (#[trigger] t[i]).price == (#[trigger] t[j]).price implies t[i].id
        < t[j].id by {
        let x = if i < k { i } else { i - 1 };
        let y = if j < k { j } else { j - 1 };
        if i == k {
            assert(t[j] == s[y]);
            assert(!at_least_as_good(o.side, s[y].price, o.price));
        } else if j == k {
            assert(t[i] == s[x]);
        } else {
            assert(t[i] == s[x] && t[j] == s[y]);
        }
    }
}

proof fn lemma_book_after_by_age(b: BookView, symbol: Symbol, order: Order)
    requires
        b.valid(),
        !b.crossed(),
        b.by_age(),
        b.all_older(order.id),
    ensures
        book_after(b, symbol, order).by_age(),
{
    let side = opposite_side(order.side);
    let makers = b.side(side);
    let s = sweep(symbol, order, order.qty.0 as int, makers);
    let c = makers.len() - s.makers.len();
    lemma_sweep_shape(symbol, order, order.qty.0 as int, makers);
    lemma_swept_by_age(b, side, s.makers);
    if s.left != 0 {
        lemma_swept_valid(b, side, s.makers);
        let swept = swept_book(b, side, s.makers);
        assert(swept.all_older(order.id)) by {
            assert(swept.side(side) == s.makers);
            assert(swept.side(order.side) == b.side(order.side));
            assert forall|i: int| 0 <= i < s.makers.len() implies (#[trigger] s.makers[i]).id
                < order.id by {
                assert(makers[c + i].id < order.id);
            }
        }
        lemma_insert_by_age(swept, Order { qty: Qty(s.left as i64), ..order });
    }
}

/// Every order in the queue was introduced by one of the events.
pub open spec fn all_introduced(s: Seq<Order>, events: Seq<Event>) -> bool {
    forall|i: int| 0 <= i < s.len() ==> introduces(events, (#[trigger] s[i]).id)
}

proof fn lemma_insert_introduced(s: Seq<Order>, k: int, o: Order, events: Seq<Event>)
    requires
        all_introduced(s, events),
        introduces(events, o.id),
        0 <= k <= s.len(),
    ensures
        all_introduced(s.insert(k, o), events),
{
    let t = s.insert(k, o);
    assert forall|i: int| 0 <= i < t.len() implies introduces(events, (#[trigger] t[i]).id) by {
        if i < k {
            assert(t[i] == s[i]);
        } else if i > k {
            assert(t[i] == s[i - 1]);
        }
    }
}

proof fn lemma_book_after_introduced(
    b: BookView,
    symbol: Symbol,
    order: Order,
    events: Seq<Event>,
)
    requires
        b.introduced_by(events),
        introduces(events, order.id),
    ensures
        book_after(b, symbol, order).introduced_by(events),
{
    let side = opposite_side(order.side);
    let makers = b.side(side);
    let s = sweep(symbol, order, order.qty.0 as int, makers);
    let c = makers.len() - s.makers.len();
    lemma_sweep_shape(symbol, order, order.qty.0 as int, makers);
    assert(all_introduced(s.makers, events)) by {
        assert forall|i: int| 0 <= i < s.makers.len() implies introduces(
            events,
            (#[trigger] s.makers[i]).id,
        ) by {
            assert(introduces(events, makers[c + i].id));
        }
    }
    let swept = swept_book(b, side, s.makers);
    assert(swept.side(side) == s.makers);
    assert(swept.side(order.side) == b.side(order.side));
    if s.left != 0 {
        let rest = Order { qty: Qty(s.left as i64), ..order };
        let own = swept.side(order.side);
        let k = rank(own, order.side, order.price);
        lemma_rank_bounds(own, order.side, order.price);
        lemma_insert_introduced(own, k, rest, events);
    }
}

proof fn lemma_cancel_by_age(b: BookView, id: OrderId, events: Seq<Event>)
    requires
        b.valid(),
        b.by_age(),
        b.introduced_by(events),
        b.index.contains_key(id),
    ensures
        b.cancel(id).by_age(),
        b.cancel(id).introduced_by(events),
{
    let (side, price) = b.index[id];
    let s = b.side(side);
    let k = position(s, id, price);
    lemma_position_found(s, id, price);
    let t = s.remove(k);
    assert(b.cancel(id).side(side) == t);
    assert forall|i: int, j: int|
        0 <= i < j < t.len() && (#[trigger] t[i]).price == (#[trigger] t[j]).price implies t[i].id
        < t[j].id by {
        let x = if i < k { i } else { i + 1 };
        let y = if j < k { j } else { j + 1 };
        assert(t[i] == s[x] && t[j] == s[y]);
    }
    assert forall|i: int| 0 <= i < t.len() implies introduces(events, (#[trigger] t[i]).id) by {
        let x = if i < k { i } else { i + 1 };
        assert(t[i] == s[x]);
    }
}

/// The new orders carry strictly increasing ids, as the feed hands them out.
pub open spec fn in_feed_order(events: Seq<Event>) -> bool {
    forall|i: int, j: int|
        #![trigger events[i], events[j]]
        0 <= i < j < events.len() ==> match (events[i], events[j]) {
            (Event::New { order: a, .. }, Event::New { order: b, .. }) => a.id < b.id,
            _ => true,
        }
}

proof fn lemma_introduces_more(events: Seq<Event>, id: OrderId)
    requires
        events.len() > 0,
        introduces(events.drop_last(), id),
    ensures
        introduces(events, id),
{
    let front = events.drop_last();
    let i = choose|i: int|
        0 <= i < front.len() && match #[trigger] front[i] {
            Event::New { order, .. } => order.id == id,
            Event::Cancel { .. } => false,
        };
    assert(events[i] == front[i]);
}

proof fn lemma_book_introduced_more(b: BookView, events: Seq<Event>)
    requires
        events.len() > 0,
        b.introduced_by(events.drop_last()),
    ensures
        b.introduced_by(events),
{
    assert forall|i: int| 0 <= i < b.bids.len() implies introduces(
        events,
        (#[trigger] b.bids[i]).id,
    ) by {
        lemma_introduces_more(events, b.bids[i].id);
    }
    assert forall|i: int| 0 <= i < b.asks.len() implies introduces(
        events,
        (#[trigger] b.asks[i]).id,
    ) by {
        lemma_introduces_more(events, b.asks[i].id);
    }
}

proof fn lemma_newest_is_youngest(b: BookView, events: Seq<Event>, id: OrderId)
    requires
        events.len() > 0,
        in_feed_order(events),
        b.introduced_by(events.drop_last()),
        match events.last() {
            Event::New { order, .. } => order.id == id,
            Event::Cancel { .. } => false,
        },
    ensures
        b.all_older(id),
{
    assert forall|x: OrderId| introduces(events.drop_last(), x) implies x < id by {
        let front = events.drop_last();
        let i = choose|i: int|
            0 <= i < front.len() && match #[trigger] front[i] {
                Event::New { order, .. } => order.id == x,
                Event::Cancel { .. } => false,
            };
        assert(events[i] == front[i]);
        assert(events[events.len() - 1] == events.last());
    }
}

/// Arrival order is id order: where new orders carry strictly increasing ids,
/// the orders at one price stand by id in every queue after every run, so no
/// separate sequence number is needed for time priority.
pub proof fn law_arrival_order_is_id_order(only: Option<Seq<char>>, events: Seq<Event>)
    requires
        in_feed_order(events),
    ensures
        ({
            let v = replay(EngineView::empty(only), events);
            forall|symbol: Seq<char>| #[trigger]
                v.books.contains_key(symbol) ==> v.books[symbol].by_age()
                    && v.books[symbol].introduced_by(events)
        }),
    decreases events.len(),
{
    if events.len() > 0 {
        let front = events.drop_last();
        let event = events.last();
        assert(in_feed_order(front)) by {
            assert forall|i: int, j: int|
                #![trigger front[i], front[j]]
                0 <= i < j < front.len() implies match (front[i], front[j]) {
                (Event::New { order: a, .. }, Event::New { order: b, .. }) => a.id < b.id,
                _ => true,
            } by {
                assert(front[i] == events[i] && front[j] == events[j]);
            }
        }
        law_arrival_order_is_id_order(only, front);
        law_no_book_is_ever_crossed(only, front);
        let v = replay(EngineView::empty(only), front);
        let next = v.apply(event);
        assert forall|symbol: Seq<char>| #[trigger] next.books.contains_key(
            symbol,
        ) implies next.books[symbol].by_age() && next.books[symbol].introduced_by(events) by {
            let b = v.book(symbol);
            assert(b.valid() && !b.crossed() && b.by_age() && b.introduced_by(front)) by {
                if v.books.contains_key(symbol) {
                    assert(v.books[symbol].by_age());
                }
            }
            lemma_book_introduced_more(b, events);
            match event {
                Event::New { symbol: its, order } => {
                    if v.follows(its@) && its@ == symbol {
                        assert(events[events.len() - 1] == event);
                        assert(introduces(events, order.id));
                        lemma_newest_is_youngest(b, events, order.id);
                        lemma_book_after_by_age(b, its, order);
                        lemma_book_after_introduced(b, its, order, events);
                    }
                },
                Event::Cancel { target_id, .. } => {
                    if v.cancelled(target_id) is Some && v.routes[target_id] == symbol {
                        lemma_cancel_by_age(b, target_id, events);
                    }
                },
            }
        }
    }
}

} // verus!
