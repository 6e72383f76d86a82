//! What the aggregated depth of a side shows.

use crate::engine::book::{
    levels, lists_levels, lists_wide_levels, ranked, top_levels, BookView,
};
use crate::engine::laws::books::{law_a_level_adds_up_the_orders_at_its_price, qty_at};
use crate::engine::types::{Order, Price, Qty};
use crate::feed::Side;
use vstd::prelude::*;

verus! {

/// The prices at which a queue holds orders.
pub open spec fn prices_of(s: Seq<Order>) -> Set<Price> {
    s.map_values(|o: Order| o.price).to_set()
}

/// Whether `a` is strictly the better price on its side: the higher of two
/// bids, the lower of two asks.
pub open spec fn better(side: Side, a: Price, b: Price) -> bool {
    if side == Side::Buy {
        a.0 > b.0
    } else {
        a.0 < b.0
    }
}

proof fn lemma_price_in(s: Seq<Order>, k: int)
    requires
        0 <= k < s.len(),
    ensures
        prices_of(s).contains(s[k].price),
{
    let m = s.map_values(|o: Order| o.price);
    assert(m[k] == s[k].price);
    assert(m.contains(m[k]));
}

/// Every level has the price of some order.
proof fn lemma_order_of_level(s: Seq<Order>, i: int) -> (k: int)
    requires
        0 <= i < levels(s).len(),
    ensures
        0 <= k < s.len(),
        s[k].price == levels(s)[i].0,
    decreases s.len(),
{
    if s.len() == 0 {
        0
    } else if i < levels(s).len() - 1 {
        let t = s.drop_last();
        assert(levels(s)[i] == levels(t)[i]);
        let k = lemma_order_of_level(t, i);
        assert(s[k] == t[k]);
        k
    } else {
        s.len() - 1
    }
}

/// Every order has a level.
proof fn lemma_level_of_order(s: Seq<Order>, side: Side, k: int) -> (i: int)
    requires
        ranked(s, side),
        0 <= k < s.len(),
    ensures
        0 <= i < levels(s).len(),
        levels(s)[i].0 == s[k].price,
{
    law_a_level_adds_up_the_orders_at_its_price(s, side);
    let p = s[k].price;
    choose|i: int| 0 <= i < levels(s).len() && (#[trigger] levels(s)[i]).0 == p
}

proof fn lemma_level_order(s: Seq<Order>, side: Side, i: int, j: int)
    requires
        ranked(s, side),
        0 <= i < j < levels(s).len(),
    ensures
        better(side, levels(s)[i].0, levels(s)[j].0),
{
    law_a_level_adds_up_the_orders_at_its_price(s, side);
}

proof fn lemma_level_sum(s: Seq<Order>, side: Side, i: int)
    requires
        ranked(s, side),
        0 <= i < levels(s).len(),
    ensures
        levels(s)[i].1 == qty_at(s, levels(s)[i].0),
{
    law_a_level_adds_up_the_orders_at_its_price(s, side);
}

/// There are as many levels as prices.
proof fn lemma_levels_count(s: Seq<Order>, side: Side)
    requires
        ranked(s, side),
    ensures
        levels(s).len() == prices_of(s).len(),
        levels(s).map_values(|l: (Price, int)| l.0).to_set() == prices_of(s),
{
    let l = levels(s);
    let p = l.map_values(|l: (Price, int)| l.0);
    let m = s.map_values(|o: Order| o.price);
    assert(p.no_duplicates()) by {
        assert forall|i: int, j: int| 0 <= i < p.len() && 0 <= j < p.len() && i != j implies p[i]
            != p[j] by {
            if i < j {
                lemma_level_order(s, side, i, j);
            } else {
                lemma_level_order(s, side, j, i);
            }
        }
    }
    p.unique_seq_to_set();
    assert forall|x: Price| p.contains(x) implies m.contains(x) by {
        let i = choose|i: int| 0 <= i < p.len() && p[i] == x;
        let k = lemma_order_of_level(s, i);
        assert(m[k] == x);
    }
    assert forall|x: Price| m.contains(x) implies p.contains(x) by {
        let k = choose|k: int| 0 <= k < m.len() && m[k] == x;
        let i = lemma_level_of_order(s, side, k);
        assert(p[i] == x);
    }
    assert(p.to_set() =~= m.to_set());
}

/// Asked for `n` levels, a side shows as many as it has different prices, up
/// to `n`: its best prices, best first, each once, each with all the quantity
/// that rests there. A price that is not shown is worse than all that are.
pub proof fn law_the_depth_shows_the_best_prices(s: Seq<Order>, side: Side, n: nat)
    requires
        ranked(s, side),
    ensures
        ({
            let l = top_levels(s, n as int);
            &&& l.len() == (if n < prices_of(s).len() {
                n
            } else {
                prices_of(s).len()
            })
            &&& forall|i: int, j: int|
                0 <= i < j < l.len() ==> better(side, (#[trigger] l[i]).0, (#[trigger] l[j]).0)
            &&& forall|i: int|
                0 <= i < l.len() ==> prices_of(s).contains((#[trigger] l[i]).0) && l[i].1 == qty_at(
                    s,
                    l[i].0,
                )
            &&& forall|p: Price| #[trigger]
                prices_of(s).contains(p) ==> (exists|i: int|
                    0 <= i < l.len() && (#[trigger] l[i]).0 == p) || (l.len() == n && forall|
                    i: int,
                |
                    0 <= i < l.len() ==> better(side, (#[trigger] l[i]).0, p))
        }),
{
    lemma_levels_count(s, side);
    let all = levels(s);
    let l = top_levels(s, n as int);
    let p = all.map_values(|l: (Price, int)| l.0);
    assert forall|i: int, j: int| 0 <= i < j < l.len() implies better(
        side,
        (#[trigger] l[i]).0,
        (#[trigger] l[j]).0,
    ) by {
        assert(l[i] == all[i] && l[j] == all[j]);
        lemma_level_order(s, side, i, j);
    }
    assert forall|i: int| 0 <= i < l.len() implies prices_of(s).contains((#[trigger] l[i]).0)
        && l[i].1 == qty_at(s, l[i].0) by {
        assert(l[i] == all[i]);
        let k = lemma_order_of_level(s, i);
        lemma_price_in(s, k);
        lemma_level_sum(s, side, i);
    }
    assert forall|x: Price| #[trigger] prices_of(s).contains(x) implies (exists|i: int|
        0 <= i < l.len() && (#[trigger] l[i]).0 == x) || (l.len() == n && forall|i: int|
        0 <= i < l.len() ==> better(side, (#[trigger] l[i]).0, x)) by {
        assert(p.to_set().contains(x));
        let k = choose|k: int| 0 <= k < p.len() && p[k] == x;
        assert(all[k].0 == x);
        if k < l.len() {
            assert(l[k].0 == x);
        } else {
            assert forall|i: int| 0 <= i < l.len() implies better(
                side,
                (#[trigger] l[i]).0,
                x,
            ) by {
                assert(l[i] == all[i]);
                lemma_level_order(s, side, i, k);
            }
        }
    }
}

/// The prices of a queue that are better than `p`.
pub open spec fn better_prices(s: Seq<Order>, side: Side, p: Price) -> Set<Price> {
    prices_of(s).filter(|q: Price| better(side, q, p))
}

/// The `i`-th level shown is the `i`-th best price: as many prices are better.
pub proof fn law_a_level_has_its_rank(s: Seq<Order>, side: Side, n: nat, i: int)
    requires
        ranked(s, side),
        0 <= i < top_levels(s, n as int).len(),
    ensures
        better_prices(s, side, top_levels(s, n as int)[i].0).len() == i,
{
    lemma_levels_count(s, side);
    let all = levels(s);
    let names = all.map_values(|l: (Price, int)| l.0);
    let p = all[i].0;
    assert(top_levels(s, n as int)[i] == all[i]);
    let ahead = names.take(i);
    assert(ahead.no_duplicates()) by {
        assert forall|a: int, b: int|
            0 <= a < ahead.len() && 0 <= b < ahead.len() && a != b implies ahead[a]
            != ahead[b] by {
            if a < b {
                lemma_level_order(s, side, a, b);
            } else {
                lemma_level_order(s, side, b, a);
            }
        }
    }
    ahead.unique_seq_to_set();
    assert forall|x: Price| ahead.contains(x) <==> #[trigger] better_prices(s, side, p).contains(
        x,
    ) by {
        if ahead.contains(x) {
            let k = choose|k: int| 0 <= k < ahead.len() && ahead[k] == x;
            lemma_level_order(s, side, k, i);
            assert(names[k] == x);
            assert(names.contains(x));
            assert(names.to_set().contains(x));
        }
        if better_prices(s, side, p).contains(x) {
            assert(names.to_set().contains(x));
            assert(names.contains(x));
            let k = choose|k: int| 0 <= k < names.len() && names[k] == x;
            if k > i {
                lemma_level_order(s, side, i, k);
            }
            assert(k < i);
            assert(ahead[k] == x);
        }
    }
    assert(ahead.to_set() =~= better_prices(s, side, p));
}

/// The depth that is handed out lists exactly the levels of a side: each price
/// with its quantity, in that order.
pub proof fn law_the_depth_lists_the_levels(
    v: Seq<(Price, Qty)>,
    w: Seq<(Price, i128)>,
    s: Seq<Order>,
    n: nat,
)
    ensures
        lists_levels(v, top_levels(s, n as int)) ==> {
            &&& v.len() == top_levels(s, n as int).len()
            &&& forall|i: int|
                0 <= i < v.len() ==> (#[trigger] v[i]).0.0 == top_levels(s, n as int)[i].0.0
                    && v[i].1.0 == top_levels(s, n as int)[i].1
        },
        lists_wide_levels(w, top_levels(s, n as int)) ==> {
            &&& w.len() == top_levels(s, n as int).len()
            &&& forall|i: int|
                0 <= i < w.len() ==> (#[trigger] w[i]).0.0 == top_levels(s, n as int)[i].0.0
                    && w[i].1 == top_levels(s, n as int)[i].1
        },
{
}

/// Whether a list shows the best `n` prices of a queue, or all if there are
/// fewer: as many entries, the `i`-th with the price that has `i` better ones,
/// and with all the quantity that rests there.
pub open spec fn shows_best(v: Seq<(Price, Qty)>, s: Seq<Order>, side: Side, n: nat) -> bool {
    &&& v.len() == (if n < prices_of(s).len() {
        n
    } else {
        prices_of(s).len()
    })
    &&& forall|i: int|
        0 <= i < v.len() ==> {
            &&& prices_of(s).contains((#[trigger] v[i]).0)
            &&& better_prices(s, side, v[i].0).len() == i
            &&& v[i].1.0 == qty_at(s, v[i].0)
        }
}

proof fn lemma_shows_best(v: Seq<(Price, Qty)>, s: Seq<Order>, side: Side, n: nat)
    requires
        ranked(s, side),
        lists_levels(v, top_levels(s, n as int)),
    ensures
        shows_best(v, s, side, n),
{
    let l = top_levels(s, n as int);
    law_the_depth_shows_the_best_prices(s, side, n);
    assert forall|i: int| 0 <= i < v.len() implies {
        &&& prices_of(s).contains((#[trigger] v[i]).0)
        &&& better_prices(s, side, v[i].0).len() == i
        &&& v[i].1.0 == qty_at(s, v[i].0)
    } by {
        assert(v[i].0 == l[i].0 && v[i].1.0 == l[i].1);
        law_a_level_has_its_rank(s, side, n, i);
    }
}

/// Asked for `n` levels, a book gives on each side as many as there are
/// different prices resting there, up to `n`, and the `i`-th of them is the
/// `i`-th best price with the sum of the quantities at that price.
pub proof fn law_a_books_depth_shows_the_best_prices(
    b: BookView,
    n: nat,
    bids: Seq<(Price, Qty)>,
    asks: Seq<(Price, Qty)>,
)
    requires
        b.valid(),
        lists_levels(bids, top_levels(b.bids, n as int)),
        lists_levels(asks, top_levels(b.asks, n as int)),
    ensures
        shows_best(bids, b.bids, Side::Buy, n),
        shows_best(asks, b.asks, Side::Sell, n),
{
    lemma_shows_best(bids, b.bids, Side::Buy, n);
    lemma_shows_best(asks, b.asks, Side::Sell, n);
}

/// The quantity at a price: nothing in an empty queue, and an order that joins
/// adds its own at its price and nothing at any other.
pub proof fn law_a_price_holds_its_orders_quantity(s: Seq<Order>, o: Order, p: Price)
    ensures
        qty_at(Seq::<Order>::empty(), p) == 0,
        qty_at(s.push(o), p) == qty_at(s, p) + (if o.price.0 == p.0 {
            o.qty.0 as int
        } else {
            0
        }),
{
    assert(s.push(o).drop_last() =~= s);
}

} // verus!
