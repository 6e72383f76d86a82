//! What rests across all the books, added up.

use crate::engine::book::{qty_sum, BookView};
use crate::engine::laws::replay;
use crate::engine::matcher::EngineView;
use crate::engine::sums::{lemma_sum_insert, lemma_sum_split, sum_values};
use crate::engine::types::Event;
use vstd::prelude::*;

verus! {

/// Without a book nothing rests, and a book counts with its own orders and
/// quantity: setting one moves the totals by the change in it and by nothing
/// else.
pub proof fn law_a_book_counts_with_its_own(v: EngineView, symbol: Seq<char>, b: BookView)
    requires
        v.books.dom().finite(),
    ensures
        v.books == Map::<Seq<char>, BookView>::empty() ==> v.resting() == 0 && v.resting_qty() == 0,
        ({
            let next = EngineView { books: v.books.insert(symbol, b), ..v };
            let was = v.book(symbol);
            &&& next.resting() == v.resting() - was.index.len() + b.index.len()
            &&& next.resting_qty() == v.resting_qty() - qty_sum(was.bids) - qty_sum(was.asks)
                + qty_sum(b.bids) + qty_sum(b.asks)
        }),
{
    let next = EngineView { books: v.books.insert(symbol, b), ..v };
    let count = |b: BookView| b.index.len() as int;
    let qty = |b: BookView| b.total_qty();
    let (n, q) = (v.books.map_values(count), v.books.map_values(qty));
    assert(n.dom() =~= v.books.dom());
    assert(q.dom() =~= v.books.dom());
    lemma_sum_insert(n, symbol, count(b));
    lemma_sum_insert(q, symbol, qty(b));
    assert(next.books.map_values(count) =~= n.insert(symbol, count(b)));
    assert(next.books.map_values(qty) =~= q.insert(symbol, qty(b)));
    assert(BookView::empty().index.len() == 0);
    if v.books == Map::<Seq<char>, BookView>::empty() {
        assert(n =~= Map::empty());
        assert(q =~= Map::empty());
    }
}

pub proof fn lemma_sum_not_negative<K>(m: Map<K, int>)
    requires
        m.dom().finite(),
        forall|k: K| #[trigger] m.contains_key(k) ==> m[k] >= 0,
    ensures
        sum_values(m) >= 0,
    decreases m.len(),
{
    if m.len() > 0 {
        let k = m.dom().choose();
        assert(m.contains_key(k));
        lemma_sum_split(m, k);
        let rest = m.remove(k);
        assert forall|j: K| #[trigger] rest.contains_key(j) implies rest[j] >= 0 by {
            assert(m.contains_key(j));
        }
        lemma_sum_not_negative(rest);
    }
}

/// After every run there are finitely many books, and so a number of resting
/// orders.
pub proof fn law_the_books_add_up_after_every_run(only: Option<Seq<char>>, events: Seq<Event>)
    ensures
        replay(EngineView::empty(only), events).books.dom().finite(),
        replay(EngineView::empty(only), events).resting() >= 0,
    decreases events.len(),
{
    if events.len() > 0 {
        law_the_books_add_up_after_every_run(only, events.drop_last());
    }
    let v = replay(EngineView::empty(only), events);
    let n = v.books.map_values(|b: BookView| b.index.len() as int);
    assert(n.dom() =~= v.books.dom());
    lemma_sum_not_negative(n);
}

/// The engine reports a crossed book exactly when in some book a bid is at or
/// above an ask.
pub proof fn law_a_crossed_book_is_reported(v: EngineView)
    requires
        forall|symbol: Seq<char>| #[trigger]
            v.books.contains_key(symbol) ==> v.books[symbol].valid(),
    ensures
        v.any_crossed() <==> exists|symbol: Seq<char>, i: int, j: int|
            #![trigger v.books[symbol].bids[i], v.books[symbol].asks[j]]
            {
                &&& v.books.contains_key(symbol)
                &&& 0 <= i < v.books[symbol].bids.len()
                &&& 0 <= j < v.books[symbol].asks.len()
                &&& v.books[symbol].bids[i].price.0 >= v.books[symbol].asks[j].price.0
            },
{
    if v.any_crossed() {
        let symbol = choose|symbol: Seq<char>| #[trigger]
            v.books.contains_key(symbol) && v.books[symbol].crossed();
        let b = v.books[symbol];
        assert(b.bids[0].price.0 >= b.asks[0].price.0);
        assert(v.books[symbol].bids[0].price.0 >= v.books[symbol].asks[0].price.0);
    }
    assert forall|symbol: Seq<char>, i: int, j: int|
        #![trigger v.books[symbol].bids[i], v.books[symbol].asks[j]]
        v.books.contains_key(symbol) && 0 <= i < v.books[symbol].bids.len() && 0 <= j
            < v.books[symbol].asks.len() && v.books[symbol].bids[i].price.0
            >= v.books[symbol].asks[j].price.0 implies v.any_crossed() by {
        let b = v.books[symbol];
        assert(b.valid());
        assert(b.bids[0].price.0 >= b.bids[i].price.0);
        assert(b.asks[0].price.0 <= b.asks[j].price.0);
        assert(b.crossed());
    }
}

} // verus!
