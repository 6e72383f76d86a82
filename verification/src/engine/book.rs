//! A single symbol's limit order book, with price-time priority.
//!
//! Each side is one queue in priority order: the best price stands first, and
//! among equal prices the earliest arrival. A price level is a run of equal
//! prices in that queue, found by binary search; an order arrives at the back
//! of its run and fills from the front.
//!
//! The book stores orders and reports crossing; it does not decide what a
//! cross means. Matching lives in the matcher.

use crate::engine::types::{Order, Price, Qty};
use crate::feed::{OrderId, Side};
use std::collections::{HashMap, VecDeque};
use vstd::prelude::*;

verus! {

/// Aggregated price levels for one side, best first.
pub type DepthLevels = Vec<(Price, Qty)>;

/// Whether price `a` is at least as good as price `b` for an order resting on
/// `side`: bids rank from high to low, asks from low to high.
pub open spec fn at_least_as_good(side: Side, a: Price, b: Price) -> bool {
    match side {
        Side::Buy => a.0 >= b.0,
        Side::Sell => a.0 <= b.0,
    }
}

/// A queue of one side's orders whose prices never improve from front to back.
pub open spec fn ranked(s: Seq<Order>, side: Side) -> bool {
    &&& forall|i: int| 0 <= i < s.len() ==> (#[trigger] s[i]).side == side
    &&& forall|i: int, j: int|
        0 <= i < j < s.len() ==> at_least_as_good(
            side,
            (#[trigger] s[i]).price,
            (#[trigger] s[j]).price,
        )
}

/// How many orders at the front of the queue are at least as good as `price`.
pub open spec fn rank(s: Seq<Order>, side: Side, price: Price) -> int
    decreases s.len(),
{
    if s.len() == 0 || !at_least_as_good(side, s[0].price, price) {
        0
    } else {
        1 + rank(s.drop_first(), side, price)
    }
}

/// The first place in the queue of an order with this id and price, or the
/// length of the queue if there is none.
pub open spec fn position(s: Seq<Order>, id: OrderId, price: Price) -> int
    decreases s.len(),
{
    if s.len() == 0 || (s[0].id == id && s[0].price == price) {
        0
    } else {
        1 + position(s.drop_first(), id, price)
    }
}

/// Whether an order with this id and price stands in the queue.
pub open spec fn located(s: Seq<Order>, id: OrderId, price: Price) -> bool {
    exists|i: int| 0 <= i < s.len() && (#[trigger] s[i]).id == id && s[i].price == price
}

/// The quantity that a queue of orders still holds.
pub open spec fn qty_sum(s: Seq<Order>) -> int
    decreases s.len(),
{
    if s.len() == 0 {
        0
    } else {
        qty_sum(s.drop_last()) + s.last().qty.0
    }
}

/// The price levels of a queue, front to back, each with its total quantity.
pub open spec fn levels(s: Seq<Order>) -> Seq<(Price, int)>
    decreases s.len(),
{
    if s.len() == 0 {
        seq![]
    } else {
        let front = levels(s.drop_last());
        let o = s.last();
        if front.len() > 0 && front.last().0 == o.price {
            front.drop_last().push((o.price, front.last().1 + o.qty.0))
        } else {
            front.push((o.price, o.qty.0 as int))
        }
    }
}

/// Whether a quantity fits the 64 bits that hold it.
pub open spec fn fits_i64(x: int) -> bool {
    i64::MIN <= x <= i64::MAX
}

/// What an order book holds.
#[verifier::ext_equal]
pub struct BookView {
    /// Resting buys, in priority order.
    pub bids: Seq<Order>,
    /// Resting sells, in priority order.
    pub asks: Seq<Order>,
    /// The side and price under which each order can be cancelled.
    pub index: Map<OrderId, (Side, Price)>,
}

impl BookView {
    pub open spec fn empty() -> BookView {
        BookView { bids: seq![], asks: seq![], index: Map::empty() }
    }

    pub open spec fn side(self, side: Side) -> Seq<Order> {
        match side {
            Side::Buy => self.bids,
            Side::Sell => self.asks,
        }
    }

    pub open spec fn with_side(self, side: Side, s: Seq<Order>) -> BookView {
        match side {
            Side::Buy => BookView { bids: s, ..self },
            Side::Sell => BookView { asks: s, ..self },
        }
    }

    /// Both queues are in priority order, and the index is finite and whatever
    /// it names rests where it says.
    pub open spec fn valid(self) -> bool {
        &&& self.index.dom().finite()
        &&& ranked(self.bids, Side::Buy)
        &&& ranked(self.asks, Side::Sell)
        &&& forall|id: OrderId| #[trigger]
            self.index.contains_key(id) ==> located(
                self.side(self.index[id].0),
                id,
                self.index[id].1,
            )
    }

    /// The order joins its side behind every order at least as well priced.
    pub open spec fn insert(self, o: Order) -> BookView {
        let s = self.side(o.side);
        let placed = self.with_side(o.side, s.insert(rank(s, o.side, o.price), o));
        BookView { index: self.index.insert(o.id, (o.side, o.price)), ..placed }
    }

    /// The order that a cancel of `id` takes out.
    pub open spec fn cancelled(self, id: OrderId) -> Option<Order> {
        if self.index.contains_key(id) {
            let (side, price) = self.index[id];
            Some(self.side(side)[position(self.side(side), id, price)])
        } else {
            None
        }
    }

    pub open spec fn cancel(self, id: OrderId) -> BookView {
        if self.index.contains_key(id) {
            let (side, price) = self.index[id];
            let s = self.side(side);
            BookView {
                index: self.index.remove(id),
                ..self.with_side(side, s.remove(position(s, id, price)))
            }
        } else {
            self
        }
    }

    /// The first order in priority on `side`.
    pub open spec fn best(self, side: Side) -> Option<Order> {
        if self.side(side).len() == 0 {
            None
        } else {
            Some(self.side(side)[0])
        }
    }

    /// The best order on `side` gives up `qty`; it leaves when nothing is left.
    pub open spec fn reduce_best(self, side: Side, qty: int) -> BookView {
        let s = self.side(side);
        if s.len() == 0 {
            self
        } else if s[0].qty.0 == qty {
            BookView {
                index: self.index.remove(s[0].id),
                ..self.with_side(side, s.drop_first())
            }
        } else {
            let kept = Order { qty: Qty((s[0].qty.0 - qty) as i64), ..s[0] };
            self.with_side(side, s.update(0, kept))
        }
    }

    /// The best bid is at or above the best ask.
    pub open spec fn crossed(self) -> bool {
        &&& self.bids.len() > 0
        &&& self.asks.len() > 0
        &&& self.bids[0].price.0 >= self.asks[0].price.0
    }

    pub open spec fn total_qty(self) -> int {
        qty_sum(self.bids) + qty_sum(self.asks)
    }
}

/// The first `n` levels of a queue.
pub open spec fn top_levels(s: Seq<Order>, n: int) -> Seq<(Price, int)> {
    let all = levels(s);
    if n < all.len() {
        all.take(n)
    } else {
        all
    }
}

/// Whether `v` lists exactly the levels `l`.
pub open spec fn lists_levels(v: Seq<(Price, Qty)>, l: Seq<(Price, int)>) -> bool {
    &&& v.len() == l.len()
    &&& forall|i: int| 0 <= i < l.len() ==> (#[trigger] v[i]).0 == l[i].0 && v[i].1.0 == l[i].1
}

/// Whether `v` lists exactly the levels `l`, summed wide.
pub open spec fn lists_wide_levels(v: Seq<(Price, i128)>, l: Seq<(Price, int)>) -> bool {
    &&& v.len() == l.len()
    &&& forall|i: int| 0 <= i < l.len() ==> (#[trigger] v[i]).0 == l[i].0 && v[i].1 == l[i].1
}

proof fn lemma_rank_is(s: Seq<Order>, side: Side, price: Price, k: int)
    requires
        0 <= k <= s.len(),
        forall|i: int| 0 <= i < k ==> at_least_as_good(side, (#[trigger] s[i]).price, price),
        k < s.len() ==> !at_least_as_good(side, s[k].price, price),
    ensures
        rank(s, side, price) == k,
    decreases k,
{
    if k > 0 {
        let t = s.drop_first();
        assert forall|i: int| 0 <= i < k - 1 implies at_least_as_good(
            side,
            (#[trigger] t[i]).price,
            price,
        ) by {
            assert(t[i] == s[i + 1]);
        }
        assert(at_least_as_good(side, s[0].price, price));
        lemma_rank_is(t, side, price, k - 1);
    }
}

proof fn lemma_position_is(s: Seq<Order>, id: OrderId, price: Price, k: int)
    requires
        0 <= k < s.len(),
        s[k].id == id,
        s[k].price == price,
        forall|i: int| 0 <= i < k ==> !((#[trigger] s[i]).id == id && s[i].price == price),
    ensures
        position(s, id, price) == k,
    decreases k,
{
    if k > 0 {
        let t = s.drop_first();
        assert forall|i: int| 0 <= i < k - 1 implies !((#[trigger] t[i]).id == id && t[i].price
            == price) by {
            assert(t[i] == s[i + 1]);
        }
        assert(!(s[0].id == id && s[0].price == price));
        lemma_position_is(t, id, price, k - 1);
    }
}

pub proof fn lemma_rank_bounds(s: Seq<Order>, side: Side, price: Price)
    ensures
        0 <= rank(s, side, price) <= s.len(),
        forall|i: int|
            0 <= i < rank(s, side, price) ==> at_least_as_good(
                side,
                (#[trigger] s[i]).price,
                price,
            ),
        rank(s, side, price) < s.len() ==> !at_least_as_good(
            side,
            s[rank(s, side, price)].price,
            price,
        ),
    decreases s.len(),
{
    if s.len() > 0 && at_least_as_good(side, s[0].price, price) {
        let t = s.drop_first();
        lemma_rank_bounds(t, side, price);
        assert forall|i: int| 0 <= i < rank(s, side, price) implies at_least_as_good(
            side,
            (#[trigger] s[i]).price,
            price,
        ) by {
            if i > 0 {
                assert(t[i - 1] == s[i]);
            }
        }
    }
}

pub proof fn lemma_position_found(s: Seq<Order>, id: OrderId, price: Price)
    requires
        located(s, id, price),
    ensures
        0 <= position(s, id, price) < s.len(),
        s[position(s, id, price)].id == id,
        s[position(s, id, price)].price == price,
    decreases s.len(),
{
    let at = choose|k: int| 0 <= k < s.len() && (#[trigger] s[k]).id == id && s[k].price == price;
    if !(s[0].id == id && s[0].price == price) {
        let t = s.drop_first();
        assert(t[at - 1] == s[at]);
        lemma_position_found(t, id, price);
    }
}

/// Nobody before that place has this id and price.
pub proof fn lemma_position_first(s: Seq<Order>, id: OrderId, price: Price)
    ensures
        0 <= position(s, id, price) <= s.len(),
        forall|i: int|
            0 <= i < position(s, id, price) ==> (#[trigger] s[i]).id != id || s[i].price != price,
    decreases s.len(),
{
    if s.len() > 0 && !(s[0].id == id && s[0].price == price) {
        let t = s.drop_first();
        lemma_position_first(t, id, price);
        assert forall|i: int| 0 <= i < position(s, id, price) implies (#[trigger] s[i]).id != id
            || s[i].price != price by {
            if i > 0 {
                assert(t[i - 1] == s[i]);
            }
        }
    }
}

/// Joining the queue behind every order at least as good keeps it in order.
pub proof fn lemma_insert_keeps_valid(b: BookView, o: Order)
    requires
        b.valid(),
    ensures
        b.insert(o).valid(),
        0 <= rank(b.side(o.side), o.side, o.price) <= b.side(o.side).len(),
{
    let s = b.side(o.side);
    let k = rank(s, o.side, o.price);
    lemma_rank_bounds(s, o.side, o.price);
    let t = s.insert(k, o);
    let c = b.insert(o);
    assert(c.side(o.side) == t);
    assert(ranked(t, o.side)) by {
        assert forall|i: int, j: int| 0 <= i < j < t.len() implies at_least_as_good(
            o.side,
            (#[trigger] t[i]).price,
            (#[trigger] t[j]).price,
        ) by {
            let x = if i < k { i } else { i - 1 };
            let y = if j < k { j } else { j - 1 };
            if i == k {
                assert(t[j] == s[y]);
                assert(k < s.len());
                assert(!at_least_as_good(o.side, s[k].price, o.price));
                assert(y > k ==> at_least_as_good(o.side, s[k].price, s[y].price));
            } else if j == k {
                assert(t[i] == s[i]);
            } else {
                assert(t[i] == s[x]);
                assert(t[j] == s[y]);
            }
        }
        assert forall|i: int| 0 <= i < t.len() implies (#[trigger] t[i]).side == o.side by {
            if i < k {
                assert(t[i] == s[i]);
            } else if i > k {
                assert(t[i] == s[i - 1]);
            }
        }
    }
    assert forall|id: OrderId| #[trigger] c.index.contains_key(id) implies located(
        c.side(c.index[id].0),
        id,
        c.index[id].1,
    ) by {
        if id == o.id {
            assert(t[k] == o);
        } else {
            assert(b.index.contains_key(id));
            let (side, price) = b.index[id];
            let old_s = b.side(side);
            let at = choose|i: int|
                0 <= i < old_s.len() && (#[trigger] old_s[i]).id == id && old_s[i].price == price;
            if side == o.side {
                let to = if at < k { at } else { at + 1 };
                assert(t[to] == s[at]);
            } else {
                assert(c.side(side)[at] == old_s[at]);
            }
        }
    }
}

proof fn lemma_remove_keeps_ranked(s: Seq<Order>, side: Side, k: int)
    requires
        ranked(s, side),
        0 <= k < s.len(),
    ensures
        ranked(s.remove(k), side),
{
    let t = s.remove(k);
    assert forall|i: int, j: int| 0 <= i < j < t.len() implies at_least_as_good(
        side,
        (#[trigger] t[i]).price,
        (#[trigger] t[j]).price,
    ) by {
        let x = if i < k { i } else { i + 1 };
        let y = if j < k { j } else { j + 1 };
        assert(t[i] == s[x]);
        assert(t[j] == s[y]);
    }
    assert forall|i: int| 0 <= i < t.len() implies (#[trigger] t[i]).side == side by {
        let x = if i < k { i } else { i + 1 };
        assert(t[i] == s[x]);
    }
}

/// Taking one order out, and its id out of the index, leaves the rest located.
proof fn lemma_remove_keeps_valid(b: BookView, side: Side, k: int, c: BookView)
    requires
        b.valid(),
        0 <= k < b.side(side).len(),
        c == (BookView {
            index: b.index.remove(b.side(side)[k].id),
            ..b.with_side(side, b.side(side).remove(k))
        }),
    ensures
        c.valid(),
{
    let s = b.side(side);
    let t = s.remove(k);
    lemma_remove_keeps_ranked(s, side, k);
    assert forall|id: OrderId| #[trigger] c.index.contains_key(id) implies located(
        c.side(c.index[id].0),
        id,
        c.index[id].1,
    ) by {
        assert(b.index.contains_key(id));
        let (its_side, price) = b.index[id];
        let old_s = b.side(its_side);
        let at = choose|i: int|
            0 <= i < old_s.len() && (#[trigger] old_s[i]).id == id && old_s[i].price == price;
        if its_side == side {
            assert(at != k);
            let to = if at < k { at } else { at - 1 };
            assert(t[to] == s[at]);
        } else {
            assert(c.side(its_side)[at] == old_s[at]);
        }
    }
}

pub proof fn lemma_cancel_keeps_valid(b: BookView, id: OrderId)
    requires
        b.valid(),
    ensures
        b.cancel(id).valid(),
        b.index.contains_key(id) ==> located(b.side(b.index[id].0), id, b.index[id].1),
{
    if b.index.contains_key(id) {
        let (side, price) = b.index[id];
        lemma_position_found(b.side(side), id, price);
        lemma_remove_keeps_valid(b, side, position(b.side(side), id, price), b.cancel(id));
    }
}

pub proof fn lemma_reduce_keeps_valid(b: BookView, side: Side, qty: int)
    requires
        b.valid(),
    ensures
        b.reduce_best(side, qty).valid(),
{
    let s = b.side(side);
    let c = b.reduce_best(side, qty);
    if s.len() == 0 {
    } else if s[0].qty.0 == qty {
        assert(s.drop_first() =~= s.remove(0));
        lemma_remove_keeps_valid(b, side, 0, c);
    } else {
        let t = c.side(side);
        assert forall|id: OrderId| #[trigger] c.index.contains_key(id) implies located(
            c.side(c.index[id].0),
            id,
            c.index[id].1,
        ) by {
            assert(b.index.contains_key(id));
            let (its_side, price) = b.index[id];
            let old_s = b.side(its_side);
            let at = choose|i: int|
                0 <= i < old_s.len() && (#[trigger] old_s[i]).id == id && old_s[i].price == price;
            assert(c.side(its_side)[at].id == id && c.side(its_side)[at].price == price);
        }
        assert forall|i: int, j: int| 0 <= i < j < t.len() implies at_least_as_good(
            side,
            (#[trigger] t[i]).price,
            (#[trigger] t[j]).price,
        ) by {
            assert(t[i].price == s[i].price);
            assert(t[j].price == s[j].price);
        }
    }
}

#[derive(Debug)]
pub struct OrderBook {
    bids: VecDeque<Order>,
    asks: VecDeque<Order>,
    /// Where each resting order lives, so a cancel is a lookup rather than a
    /// scan of every price level.
    index: HashMap<OrderId, (Side, Price)>,
}

impl View for OrderBook {
    type V = BookView;

    closed spec fn view(&self) -> BookView {
        BookView { bids: self.bids@, asks: self.asks@, index: self.index@ }
    }
}

fn as_good(side: Side, a: Price, b: Price) -> (r: bool)
    ensures
        r == at_least_as_good(side, a, b),
{
    match side {
        Side::Buy => a.0 >= b.0,
        Side::Sell => a.0 <= b.0,
    }
}

/// Where an order at `price` joins the queue.
fn back_of_level(s: &VecDeque<Order>, side: Side, price: Price) -> (r: usize)
    requires
        ranked(s@, side),
    ensures
        r == rank(s@, side, price),
        r <= s@.len(),
{
    let mut lo: usize = 0;
    let mut hi: usize = s.len();
    while lo < hi
        invariant
            lo <= hi <= s@.len(),
            ranked(s@, side),
            forall|i: int| 0 <= i < lo ==> at_least_as_good(side, (#[trigger] s@[i]).price, price),
            forall|i: int|
                hi <= i < s@.len() ==> !at_least_as_good(side, (#[trigger] s@[i]).price, price),
        decreases hi - lo,
    {
        let mid = lo + (hi - lo) / 2;
        if as_good(side, s[mid].price, price) {
            lo = mid + 1;
        } else {
            hi = mid;
        }
    }
    proof {
        lemma_rank_is(s@, side, price, lo as int);
    }
    lo
}

/// Where the level at `price` starts in the queue, or would start: behind every
/// order with a better price, and ahead of all the others.
fn front_of_level(s: &VecDeque<Order>, side: Side, price: Price) -> (r: usize)
    requires
        ranked(s@, side),
    ensures
        r <= s@.len(),
        forall|i: int| 0 <= i < r ==> !at_least_as_good(side, price, (#[trigger] s@[i]).price),
        forall|i: int|
            r <= i < s@.len() ==> at_least_as_good(side, price, (#[trigger] s@[i]).price),
{
    let mut lo: usize = 0;
    let mut hi: usize = s.len();
    while lo < hi
        invariant
            lo <= hi <= s@.len(),
            ranked(s@, side),
            forall|i: int| 0 <= i < lo ==> !at_least_as_good(side, price, (#[trigger] s@[i]).price),
            forall|i: int|
                hi <= i < s@.len() ==> at_least_as_good(side, price, (#[trigger] s@[i]).price),
        decreases hi - lo,
    {
        let mid = lo + (hi - lo) / 2;
        if as_good(side, price, s[mid].price) {
            hi = mid;
        } else {
            lo = mid + 1;
        }
    }
    lo
}

/// Finds an order of the level at `price` by its id.
fn find(s: &VecDeque<Order>, side: Side, id: OrderId, price: Price) -> (r: usize)
    requires
        ranked(s@, side),
        located(s@, id, price),
    ensures
        r < s@.len(),
        r == position(s@, id, price),
        s@[r as int].id == id,
{
    let n = s.len();
    let mut i = front_of_level(s, side, price);
    let ghost at = choose|k: int|
        0 <= k < s@.len() && (#[trigger] s@[k]).id == id && s@[k].price == price;
    while s[i].id != id || s[i].price.0 != price.0
        invariant
            i <= at < n,
            n == s@.len(),
            s@[at].id == id,
            s@[at].price == price,
            forall|k: int| 0 <= k < i ==> !((#[trigger] s@[k]).id == id && s@[k].price == price),
        decreases at - i,
    {
        i = i + 1;
    }
    proof {
        lemma_position_is(s@, id, price, i as int);
    }
    i
}

/// The quantity in a queue, summed wide enough for every queue there can be.
fn queue_qty(s: &VecDeque<Order>) -> (r: i128)
    ensures
        r == qty_sum(s@),
{
    let n = s.len();
    let mut sum: i128 = 0;
    let mut i: usize = 0;
    while i < n
        invariant
            i <= n,
            n == s@.len(),
            sum == qty_sum(s@.take(i as int)),
            i * i64::MIN <= sum <= i * i64::MAX,
        decreases n - i,
    {
        assert(s@.take(i + 1).drop_last() =~= s@.take(i as int));
        sum = sum + s[i].qty.0 as i128;
        i = i + 1;
    }
    assert(s@.take(n as int) =~= s@);
    sum
}

/// Levels only ever gain orders at the back, so a level followed by another
/// is complete.
proof fn lemma_levels_complete(s: Seq<Order>, k: int)
    requires
        0 <= k < s.len(),
        levels(s.take(k + 1)).len() > levels(s.take(k)).len(),
    ensures
        levels(s).len() > levels(s.take(k)).len(),
        levels(s).take(levels(s.take(k)).len() as int) == levels(s.take(k)),
    decreases s.len(),
{
    let n = levels(s.take(k)).len() as int;
    if k + 1 == s.len() {
        assert(s.take(k + 1) =~= s);
        assert(s.drop_last() =~= s.take(k));
        assert(levels(s).take(n) =~= levels(s.take(k)));
    } else {
        let t = s.drop_last();
        assert(t.take(k + 1) =~= s.take(k + 1));
        assert(t.take(k) =~= s.take(k));
        lemma_levels_complete(t, k);
        assert(levels(s).take(n) =~= levels(t).take(n));
    }
}

proof fn lemma_levels_grow(s: Seq<Order>, k: int)
    requires
        0 <= k < s.len(),
    ensures
        levels(s.take(k + 1)) == ({
            let front = levels(s.take(k));
            if front.len() > 0 && front.last().0 == s[k].price {
                front.drop_last().push((s[k].price, front.last().1 + s[k].qty.0))
            } else {
                front.push((s[k].price, s[k].qty.0 as int))
            }
        }),
{
    assert(s.take(k + 1).drop_last() =~= s.take(k));
}

/// The first `n` levels of a queue, each summed wide.
fn wide_depth(s: &VecDeque<Order>, n: usize) -> (r: Vec<(Price, i128)>)
    ensures
        lists_wide_levels(r@, top_levels(s@, n as int)),
{
    let len = s.len();
    let mut acc: Vec<(Price, i128)> = Vec::new();
    let mut i: usize = 0;
    while i < len
        invariant_except_break
            i <= len,
            len == s@.len(),
            i == len ==> s@.take(i as int) =~= s@,
            acc@.len() <= n,
            acc@.len() == levels(s@.take(i as int)).len(),
            forall|j: int|
                0 <= j < acc@.len() ==> (#[trigger] acc@[j]).0 == levels(s@.take(i as int))[j].0
                    && acc@[j].1 == levels(s@.take(i as int))[j].1,
            forall|j: int|
                0 <= j < acc@.len() ==> i * i64::MIN <= (#[trigger] acc@[j]).1 <= i * i64::MAX,
        ensures
            acc@.len() == top_levels(s@, n as int).len(),
            forall|j: int|
                0 <= j < acc@.len() ==> (#[trigger] acc@[j]).0 == top_levels(s@, n as int)[j].0
                    && acc@[j].1 == top_levels(s@, n as int)[j].1,
        decreases len - i,
    {
        let o = s[i];
        proof {
            lemma_levels_grow(s@, i as int);
        }
        let m = acc.len();
        if m > 0 && acc[m - 1].0.0 == o.price.0 {
            let sum: i128 = acc[m - 1].1 + o.qty.0 as i128;
            acc.pop();
            acc.push((o.price, sum));
        } else {
            if m == n {
                proof {
                    lemma_levels_complete(s@, i as int);
                }
                break;
            }
            acc.push((o.price, o.qty.0 as i128));
        }
        i = i + 1;
    }
    acc
}

fn queue_depth(s: &VecDeque<Order>, n: usize) -> (r: DepthLevels)
    requires
        forall|i: int|
            0 <= i < top_levels(s@, n as int).len() ==> fits_i64(
                (#[trigger] top_levels(s@, n as int)[i]).1,
            ),
    ensures
        lists_levels(r@, top_levels(s@, n as int)),
{
    let wide = wide_depth(s, n);
    let mut r: DepthLevels = Vec::new();
    let mut i: usize = 0;
    while i < wide.len()
        invariant
            i <= wide@.len(),
            r@.len() == i,
            lists_wide_levels(wide@, top_levels(s@, n as int)),
            forall|j: int|
                0 <= j < top_levels(s@, n as int).len() ==> fits_i64(
                    (#[trigger] top_levels(s@, n as int)[j]).1,
                ),
            forall|j: int|
                0 <= j < i ==> (#[trigger] r@[j]).0 == top_levels(s@, n as int)[j].0 && r@[j].1.0
                    == top_levels(s@, n as int)[j].1,
        decreases wide@.len() - i,
    {
        let (price, sum) = wide[i];
        assert(fits_i64(top_levels(s@, n as int)[i as int].1));
        r.push((price, Qty(sum as i64)));
        i = i + 1;
    }
    r
}

impl OrderBook {
    /// The queues are in priority order and the index names only resting orders.
    pub open spec fn wf(&self) -> bool {
        self@.valid()
    }

    pub fn new() -> (r: Self)
        ensures
            r.wf(),
            r@ == BookView::empty(),
    {
        OrderBook { bids: VecDeque::new(), asks: VecDeque::new(), index: HashMap::new() }
    }

    /// Rests an order at the back of its price level.
    pub fn insert(&mut self, order: Order)
        requires
            old(self).wf(),
        ensures
            final(self).wf(),
            final(self)@ == old(self)@.insert(order),
    {
        let (side, price) = (order.side, order.price);
        proof {
            lemma_insert_keeps_valid(self@, order);
        }
        match side {
            Side::Buy => {
                let at = back_of_level(&self.bids, side, price);
                self.bids.insert(at, order);
            },
            Side::Sell => {
                let at = back_of_level(&self.asks, side, price);
                self.asks.insert(at, order);
            },
        }
        self.index.insert(order.id, (side, price));
    }

    /// Removes a resting order and returns it, so the caller can account for
    /// the quantity that left the book unfilled. `None` means it is not in the
    /// book: already filled, already cancelled, or never seen. That is a
    /// normal outcome on this feed, not an error.
    pub fn cancel(&mut self, id: OrderId) -> (r: Option<Order>)
        requires
            old(self).wf(),
        ensures
            final(self).wf(),
            final(self)@ == old(self)@.cancel(id),
            r == old(self)@.cancelled(id),
    {
        proof {
            lemma_cancel_keeps_valid(self@, id);
        }
        match self.index.remove(&id) {
            None => None,
            Some((side, price)) => {
                match side {
                    Side::Buy => {
                        let at = find(&self.bids, side, id, price);
                        self.bids.remove(at)
                    },
                    Side::Sell => {
                        let at = find(&self.asks, side, id, price);
                        self.asks.remove(at)
                    },
                }
            },
        }
    }

    /// Takes `qty` off the best resting order on `side`, removing it if that
    /// exhausts it. Returns the order as it stood *before* the reduction, so
    /// the caller can record the maker's price and account.
    ///
    /// `qty` must not exceed the resting quantity; the matcher always passes
    /// `min(taker, maker)`.
    pub fn reduce_best(&mut self, side: Side, qty: Qty) -> (r: Option<Order>)
        requires
            old(self).wf(),
            old(self)@.best(side) matches Some(o) ==> qty.0 <= o.qty.0 && fits_i64(
                o.qty.0 - qty.0,
            ),
        ensures
            final(self).wf(),
            final(self)@ == old(self)@.reduce_best(side, qty.0 as int),
            r == old(self)@.best(side),
    {
        proof {
            lemma_reduce_keeps_valid(self@, side, qty.0 as int);
        }
        let maker = match side {
            Side::Buy => self.bids.pop_front(),
            Side::Sell => self.asks.pop_front(),
        };
        if let Some(maker) = maker {
            let remaining = Qty(maker.qty.0 - qty.0);
            if remaining.is_zero() {
                self.index.remove(&maker.id);
            } else {
                let kept = Order { qty: remaining, ..maker };
                match side {
                    Side::Buy => self.bids.push_front(kept),
                    Side::Sell => self.asks.push_front(kept),
                }
            }
        }
        assert(self@ =~= old(self)@.reduce_best(side, qty.0 as int));
        maker
    }

    /// The best resting order on `side`: best price, then earliest arrival.
    pub fn best_order(&self, side: Side) -> (r: Option<&Order>)
        ensures
            match r {
                Some(o) => self@.best(side) == Some(*o),
                None => self@.best(side) is None,
            },
    {
        let s = self.queue(side);
        if s.len() == 0 {
            None
        } else {
            Some(&s[0])
        }
    }

    /// The order at one place of a side's queue, counted from the front.
    pub fn order_at(&self, side: Side, place: usize) -> (r: Option<&Order>)
        ensures
            match r {
                Some(o) => place < self@.side(side).len() <= usize::MAX && *o == self@.side(
                    side,
                )[place as int],
                None => place >= self@.side(side).len(),
            },
    {
        let s = self.queue(side);
        if place < s.len() {
            Some(&s[place])
        } else {
            None
        }
    }

    /// The order that `cancel` would take out.
    pub fn resting_order(&self, id: OrderId) -> (r: Option<&Order>)
        requires
            self.wf(),
        ensures
            match r {
                Some(o) => self@.cancelled(id) == Some(*o),
                None => self@.cancelled(id) is None,
            },
    {
        proof {
            lemma_cancel_keeps_valid(self@, id);
        }
        match self.index.get(&id) {
            None => None,
            Some(at) => {
                let s = self.queue(at.0);
                Some(&s[find(s, at.0, id, at.1)])
            },
        }
    }

    pub fn best_bid(&self) -> (r: Option<Price>)
        ensures
            r == (match self@.best(Side::Buy) {
                Some(o) => Some(o.price),
                None => None,
            }),
    {
        match self.best_order(Side::Buy) {
            Some(o) => Some(o.price),
            None => None,
        }
    }

    pub fn best_ask(&self) -> (r: Option<Price>)
        ensures
            r == (match self@.best(Side::Sell) {
                Some(o) => Some(o.price),
                None => None,
            }),
    {
        match self.best_order(Side::Sell) {
            Some(o) => Some(o.price),
            None => None,
        }
    }

    /// True when the best bid is at or above the best ask. After the matcher
    /// has processed an order this is always false.
    pub fn is_crossed(&self) -> (r: bool)
        ensures
            r == self@.crossed(),
    {
        match (self.best_bid(), self.best_ask()) {
            (Some(bid), Some(ask)) => bid.0 >= ask.0,
            _ => false,
        }
    }

    /// How many orders are resting, counted by id.
    pub fn len(&self) -> (r: usize)
        ensures
            r == self@.index.len(),
    {
        self.index.len()
    }

    pub fn is_empty(&self) -> (r: bool)
        ensures
            r == (self@.index.len() == 0),
    {
        self.index.len() == 0
    }

    /// Total quantity resting on both sides.
    pub fn total_qty(&self) -> (r: Qty)
        requires
            fits_i64(self@.total_qty()),
        ensures
            r.0 == self@.total_qty(),
    {
        let bids = queue_qty(&self.bids);
        let asks = queue_qty(&self.asks);
        Qty((bids + asks) as i64)
    }

    /// Top `n` levels per side as (price, aggregate quantity), best first.
    pub fn depth(&self, n: usize) -> (r: (DepthLevels, DepthLevels))
        requires
            forall|side: Side, i: int|
                0 <= i < top_levels(self@.side(side), n as int).len() ==> fits_i64(
                    (#[trigger] top_levels(self@.side(side), n as int)[i]).1,
                ),
        ensures
            lists_levels(r.0@, top_levels(self@.bids, n as int)),
            lists_levels(r.1@, top_levels(self@.asks, n as int)),
    {
        assert(self@.side(Side::Buy) == self@.bids);
        assert(self@.side(Side::Sell) == self@.asks);
        (queue_depth(&self.bids, n), queue_depth(&self.asks, n))
    }

    /// The same, with each level summed wide enough for every book there can
    /// be.
    pub fn depth_wide(&self, n: usize) -> (r: (Vec<(Price, i128)>, Vec<(Price, i128)>))
        ensures
            lists_wide_levels(r.0@, top_levels(self@.bids, n as int)),
            lists_wide_levels(r.1@, top_levels(self@.asks, n as int)),
    {
        (wide_depth(&self.bids, n), wide_depth(&self.asks, n))
    }

    fn queue(&self, side: Side) -> (r: &VecDeque<Order>)
        ensures
            r@ == self@.side(side),
    {
        match side {
            Side::Buy => &self.bids,
            Side::Sell => &self.asks,
        }
    }
}

impl Default for OrderBook {
    fn default() -> (r: Self)
        ensures
            r.wf(),
            r@ == BookView::empty(),
    {
        OrderBook::new()
    }
}

} // verus!
