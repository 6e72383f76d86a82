//! Derived market state: what the tape says once the matching is done.
//!
//! The feed publishes no trades, so every number here is inferred from the
//! trades the matcher produced. This module only ever consumes `Trade`s, it
//! never touches the book, which keeps "what happened" separate from "what is
//! resting".
//!
//! Net positions are tracked per (account, symbol). There are no balances: the
//! feed has no deposits, no starting funds and no settlement, so a cash balance
//! would be invented. A net position is not: it is just signed traded
//! quantity, and it is exactly derivable from the tape.

use crate::engine::book::fits_i64;
use crate::engine::sums::{lemma_sum_insert, lemma_sum_over, sum_over, sum_values};
use crate::engine::symbol_map::SymbolMap;
use crate::engine::text;
use crate::engine::text::precedes;
use crate::engine::types::{Price, Qty, Symbol, Trade};
use crate::feed::{AccountId, Side};
use std::collections::HashMap;
use vstd::prelude::*;

verus! {

/// Per-symbol tape statistics.
#[derive(Debug, Clone, PartialEq, Eq)]
pub struct SymbolState {
    pub trades: u64,
    /// Traded quantity in ticks (tenths).
    pub volume: i64,
    /// Sum of price_ticks * qty_ticks, used for VWAP.
    pub notional: i64,
    pub last: Option<Price>,
    pub high: Option<Price>,
    pub low: Option<Price>,
}

/// Tape statistics as numbers without bounds.
pub struct SymbolView {
    pub trades: int,
    pub volume: int,
    pub notional: int,
    pub last: Option<Price>,
    pub high: Option<Price>,
    pub low: Option<Price>,
}

impl View for SymbolState {
    type V = SymbolView;

    open spec fn view(&self) -> SymbolView {
        SymbolView {
            trades: self.trades as int,
            volume: self.volume as int,
            notional: self.notional as int,
            last: self.last,
            high: self.high,
            low: self.low,
        }
    }
}

/// Division as the machine does it: the fraction is dropped.
pub open spec fn quotient(a: int, b: int) -> int {
    if a >= 0 {
        a / b
    } else {
        -((-a) / b)
    }
}

proof fn lemma_quotient_bound(a: int, b: int)
    requires
        b != 0,
    ensures
        -abs(a) <= quotient(a, b) <= abs(a),
        a < 0 && b != -1 ==> quotient(a, b) < abs(a),
{
    let n = abs(a);
    let q = n / b;
    assert(-n <= q <= n) by (nonlinear_arith)
        requires
            n >= 0,
            b != 0,
            q == n / b,
    {
        assert(n == b * q + n % b);
        assert(0 <= n % b);
        assert(b > 0 ==> b * q <= n);
        assert(b > 0 ==> n % b < b);
        assert(b < 0 ==> n % b < -b);
    }
    if a < 0 && b != -1 {
        assert(-q < n) by (nonlinear_arith)
            requires
                n > 0,
                b > 0 || b <= -2,
                q == n / b,
        {
            assert(n == b * q + n % b);
            assert(0 <= n % b);
            assert(b > 0 ==> q >= 0);
            assert(b <= -2 && q <= -n ==> b * q >= 2 * n);
        }
    }
}

pub open spec fn abs(x: int) -> int {
    if x < 0 {
        -x
    } else {
        x
    }
}

impl SymbolState {
    /// Volume-weighted average price. `None` before the first trade.
    pub fn vwap(&self) -> (r: Option<Price>)
        requires
            !(self.notional == i64::MIN && self.volume == -1),
        ensures
            match r {
                Some(p) => self.volume != 0 && p.0 == quotient(
                    self.notional as int,
                    self.volume as int,
                ),
                None => self.volume == 0,
            },
    {
        if self.volume == 0 {
            None
        } else {
            proof {
                lemma_quotient_bound(self.notional as int, self.volume as int);
            }
            Some(Price(self.notional / self.volume))
        }
    }
}

impl SymbolState {
    /// The same average, wide enough for every state there can be.
    pub fn wide_vwap(&self) -> (r: i128)
        requires
            self.volume != 0,
        ensures
            r == quotient(self.notional as int, self.volume as int),
    {
        proof {
            lemma_quotient_bound(self.notional as int, self.volume as int);
        }
        self.notional as i128 / self.volume as i128
    }
}

/// The account that bought: `taker_side` is the aggressor's side.
pub open spec fn buyer(t: Trade) -> AccountId {
    match t.taker_side {
        Side::Buy => t.taker_account,
        Side::Sell => t.maker_account,
    }
}

/// The account that sold.
pub open spec fn seller(t: Trade) -> AccountId {
    match t.taker_side {
        Side::Buy => t.maker_account,
        Side::Sell => t.taker_account,
    }
}

impl SymbolView {
    pub open spec fn empty() -> SymbolView {
        SymbolView { trades: 0, volume: 0, notional: 0, last: None, high: None, low: None }
    }

    pub open spec fn record(self, price: Price, qty: int) -> SymbolView {
        SymbolView {
            trades: self.trades + 1,
            volume: self.volume + qty,
            notional: self.notional + price.0 * qty,
            last: Some(price),
            high: match self.high {
                Some(h) if h.0 > price.0 => Some(h),
                _ => Some(price),
            },
            low: match self.low {
                Some(l) if l.0 < price.0 => Some(l),
                _ => Some(price),
            },
        }
    }
}

/// What the tape says of one symbol.
#[verifier::ext_equal]
pub struct LedgerView {
    pub state: SymbolView,
    /// Signed traded quantity in ticks: positive is long, negative is short.
    pub positions: Map<AccountId, int>,
}

impl LedgerView {
    pub open spec fn empty() -> LedgerView {
        LedgerView { state: SymbolView::empty(), positions: Map::empty() }
    }

    pub open spec fn position(self, account: AccountId) -> int {
        if self.positions.contains_key(account) {
            self.positions[account]
        } else {
            0
        }
    }

    pub open spec fn moved(self, account: AccountId, by: int) -> LedgerView {
        LedgerView {
            positions: self.positions.insert(account, self.position(account) + by),
            ..self
        }
    }

    /// The buyer gains what the seller gives up.
    pub open spec fn record(self, t: Trade) -> LedgerView {
        let moved = self.moved(buyer(t), t.qty.0 as int).moved(seller(t), -t.qty.0);
        LedgerView { state: self.state.record(t.price, t.qty.0 as int), ..moved }
    }

    /// Every number that recording the trade makes fits where it is kept.
    pub open spec fn admits(self, t: Trade) -> bool {
        let next = self.state.record(t.price, t.qty.0 as int);
        let bought = self.moved(buyer(t), t.qty.0 as int);
        &&& next.trades <= u64::MAX
        &&& fits_i64(next.volume)
        &&& fits_i64(t.price.0 * t.qty.0)
        &&& fits_i64(next.notional)
        &&& fits_i64(bought.position(buyer(t)))
        &&& fits_i64(bought.position(seller(t)) - t.qty.0)
    }
}

/// What the tape says of every symbol that traded.
#[verifier::ext_equal]
pub struct MarketView {
    pub ledgers: Map<Seq<char>, LedgerView>,
}

impl MarketView {
    pub open spec fn empty() -> MarketView {
        MarketView { ledgers: Map::empty() }
    }

    pub open spec fn ledger(self, symbol: Seq<char>) -> LedgerView {
        if self.ledgers.contains_key(symbol) {
            self.ledgers[symbol]
        } else {
            LedgerView::empty()
        }
    }

    pub open spec fn record(self, t: Trade) -> MarketView {
        MarketView { ledgers: self.ledgers.insert(t.symbol@, self.ledger(t.symbol@).record(t)) }
    }

    pub open spec fn admits(self, t: Trade) -> bool {
        self.ledger(t.symbol@).admits(t)
    }

    /// Net position for one account in one symbol.
    pub open spec fn position(self, account: AccountId, symbol: Seq<char>) -> int {
        self.ledger(symbol).position(account)
    }

    /// The sum of every position.
    pub open spec fn net(self) -> int {
        sum_values(self.ledgers.map_values(|l: LedgerView| sum_values(l.positions)))
    }

    /// In each symbol, what was bought was sold.
    pub open spec fn balanced(self) -> bool {
        &&& self.ledgers.dom().finite()
        &&& forall|symbol: Seq<char>| #[trigger]
            self.ledgers.contains_key(symbol) ==> self.ledgers[symbol].positions.dom().finite()
                && sum_values(self.ledgers[symbol].positions) == 0
    }
}

/// Whether `v` lists each account of `m` once, with its position.
pub open spec fn lists_holdings(v: Seq<(AccountId, i64)>, m: Map<AccountId, int>) -> bool {
    &&& forall|i: int|
        0 <= i < v.len() ==> m.contains_key((#[trigger] v[i]).0) && m[v[i].0] == v[i].1
    &&& forall|i: int, j: int|
        0 <= i < j < v.len() ==> (#[trigger] v[i]).0 != (#[trigger] v[j]).0
    &&& forall|a: AccountId| #[trigger] m.contains_key(a) ==> exists|i: int|
        0 <= i < v.len() && (#[trigger] v[i]).0 == a
}

/// Larger absolute size first, then the lower account, then the symbol.
pub open spec fn outranks(a: (AccountId, Symbol, Qty), b: (AccountId, Symbol, Qty)) -> bool {
    let (x, y) = (abs(a.2.0 as int), abs(b.2.0 as int));
    x > y || (x == y && (a.0 < b.0 || (a.0 == b.0 && precedes(a.1@, b.1@))))
}

impl MarketView {
    /// Whether `p` is an account's position in a symbol, and not flat.
    pub open spec fn holds(self, p: (AccountId, Symbol, Qty)) -> bool {
        p.2.0 != 0 && p.2.0 == self.position(p.0, p.1@)
    }

    /// Whether `v` is the list of every non-flat position by rank, cut after
    /// the first `n`.
    pub open spec fn top(self, v: Seq<(AccountId, Symbol, Qty)>, n: int) -> bool {
        &&& v.len() <= n
        &&& forall|i: int| 0 <= i < v.len() ==> self.holds(#[trigger] v[i])
        &&& forall|i: int, j: int|
            0 <= i < j < v.len() ==> outranks(#[trigger] v[i], #[trigger] v[j])
        &&& forall|p: (AccountId, Symbol, Qty)| #[trigger] self.accounts_for(v, n, p)
    }

    /// A position that is not flat is in the list, or the list is full of
    /// better ones.
    pub open spec fn accounts_for(
        self,
        v: Seq<(AccountId, Symbol, Qty)>,
        n: int,
        p: (AccountId, Symbol, Qty),
    ) -> bool {
        self.holds(p) ==> (exists|i: int|
            0 <= i < v.len() && (#[trigger] v[i]).0 == p.0 && v[i].1@ == p.1@) || (v.len() == n
            && forall|i: int| 0 <= i < v.len() ==> outranks(#[trigger] v[i], p))
    }
}

proof fn lemma_outranks_total(
    a: (AccountId, Symbol, Qty),
    b: (AccountId, Symbol, Qty),
)
    requires
        a.0 != b.0 || a.1@ != b.1@,
    ensures
        outranks(a, b) || outranks(b, a),
{
    text::lemma_precedes_total(a.1@, b.1@);
}

proof fn lemma_outranks_transitive(
    a: (AccountId, Symbol, Qty),
    b: (AccountId, Symbol, Qty),
    c: (AccountId, Symbol, Qty),
)
    requires
        outranks(a, b),
        outranks(b, c),
    ensures
        outranks(a, c),
{
    if precedes(a.1@, b.1@) && precedes(b.1@, c.1@) {
        text::lemma_precedes_transitive(a.1@, b.1@, c.1@);
    }
}

fn magnitude(x: i64) -> (r: u64)
    ensures
        r == abs(x as int),
{
    if x < 0 {
        (-(x + 1)) as u64 + 1
    } else {
        x as u64
    }
}

fn is_before(a: &(AccountId, Symbol, Qty), b: &(AccountId, Symbol, Qty)) -> (r: bool)
    ensures
        r == outranks(*a, *b),
{
    let (x, y) = (magnitude(a.2.0), magnitude(b.2.0));
    x > y || (x == y && (a.0 < b.0 || (a.0 == b.0 && text::comes_before(a.1, b.1))))
}

/// Puts one entry where it belongs in a list that is in order.
fn place(sorted: &mut Vec<(AccountId, Symbol, Qty)>, p: (AccountId, Symbol, Qty))
    requires
        forall|i: int, j: int|
            0 <= i < j < old(sorted)@.len() ==> outranks(
                #[trigger] old(sorted)@[i],
                #[trigger] old(sorted)@[j],
            ),
        forall|i: int|
            0 <= i < old(sorted)@.len() ==> (#[trigger] old(sorted)@[i]).0 != p.0 || old(
                sorted,
            )@[i].1@ != p.1@,
    ensures
        forall|i: int, j: int|
            0 <= i < j < final(sorted)@.len() ==> outranks(
                #[trigger] final(sorted)@[i],
                #[trigger] final(sorted)@[j],
            ),
        exists|k: int|
            0 <= k <= old(sorted)@.len() && final(sorted)@ == #[trigger] old(sorted)@.insert(k, p),
{
    let ghost s = sorted@;
    let mut k: usize = 0;
    while k < sorted.len() && is_before(&sorted[k], &p)
        invariant
            k <= sorted@.len(),
            sorted@ == s,
            forall|i: int| 0 <= i < k ==> outranks(#[trigger] s[i], p),
        decreases sorted@.len() - k,
    {
        k = k + 1;
    }
    sorted.insert(k, p);
    proof {
        let t = s.insert(k as int, p);
        assert forall|i: int, j: int| 0 <= i < j < t.len() implies outranks(
            #[trigger] t[i],
            #[trigger] t[j],
        ) by {
            let x = if i < k { i } else { i - 1 };
            let y = if j < k { j } else { j - 1 };
            if i == k {
                assert(t[j] == s[y]);
                lemma_outranks_total(s[k as int], p);
                if y > k {
                    lemma_outranks_transitive(p, s[k as int], s[y]);
                }
            } else if j == k {
                assert(t[i] == s[i]);
            } else {
                assert(t[i] == s[x]);
                assert(t[j] == s[y]);
            }
        }
    }
}

spec fn listed(v: Seq<(AccountId, Symbol, Qty)>, account: AccountId, symbol: Seq<char>) -> bool {
    exists|i: int| 0 <= i < v.len() && (#[trigger] v[i]).0 == account && v[i].1@ == symbol
}

/// Whether `v` ranks the non-flat positions among the keys in `done`.
spec fn ranks(
    view: MarketView,
    v: Seq<(AccountId, Symbol, Qty)>,
    done: Set<(AccountId, Seq<char>)>,
) -> bool {
    &&& forall|i: int|
        0 <= i < v.len() ==> view.holds(#[trigger] v[i]) && done.contains((v[i].0, v[i].1@))
    &&& forall|i: int, j: int| 0 <= i < j < v.len() ==> outranks(#[trigger] v[i], #[trigger] v[j])
    &&& forall|k: (AccountId, Seq<char>)| #[trigger]
        done.contains(k) && view.position(k.0, k.1) != 0 ==> listed(v, k.0, k.1)
}

proof fn lemma_ranks_grow(
    view: MarketView,
    before: Seq<(AccountId, Symbol, Qty)>,
    after: Seq<(AccountId, Symbol, Qty)>,
    p: (AccountId, Symbol, Qty),
    done: Set<(AccountId, Seq<char>)>,
)
    requires
        ranks(view, before, done),
        view.holds(p),
        exists|k: int| 0 <= k <= before.len() && after == #[trigger] before.insert(k, p),
        forall|i: int, j: int|
            0 <= i < j < after.len() ==> outranks(#[trigger] after[i], #[trigger] after[j]),
    ensures
        ranks(view, after, done.insert((p.0, p.1@))),
{
    let at = choose|k: int| 0 <= k <= before.len() && after == #[trigger] before.insert(k, p);
    let next = done.insert((p.0, p.1@));
    assert forall|i: int| 0 <= i < after.len() implies view.holds(#[trigger] after[i])
        && next.contains((after[i].0, after[i].1@)) by {
        if i < at {
            assert(after[i] == before[i]);
        } else if i > at {
            assert(after[i] == before[i - 1]);
        }
    }
    assert forall|k: (AccountId, Seq<char>)| #[trigger]
        next.contains(k) && view.position(k.0, k.1) != 0 implies listed(after, k.0, k.1) by {
        if k == (p.0, p.1@) {
            assert(after[at] == p);
        } else {
            assert(done.contains(k));
            let i = choose|i: int|
                0 <= i < before.len() && (#[trigger] before[i]).0 == k.0 && before[i].1@ == k.1;
            let to = if i < at { i } else { i + 1 };
            assert(after[to] == before[i]);
        }
    }
}

#[derive(Debug)]
struct Ledger {
    state: SymbolState,
    positions: HashMap<AccountId, i64>,
}

impl View for Ledger {
    type V = LedgerView;

    closed spec fn view(&self) -> LedgerView {
        LedgerView {
            state: self.state@,
            positions: self.positions@.map_values(|q: i64| q as int),
        }
    }
}

impl Ledger {
    fn new() -> (r: Self)
        ensures
            r@ == LedgerView::empty(),
    {
        let r = Ledger { state: SymbolState::default(), positions: HashMap::new() };
        assert(r@.positions =~= Map::empty());
        r
    }

    fn position(&self, account: AccountId) -> (r: i64)
        ensures
            r == self@.position(account),
    {
        match self.positions.get(&account) {
            Some(q) => *q,
            None => 0,
        }
    }

    fn set(&mut self, account: AccountId, q: i64)
        ensures
            final(self)@ == (LedgerView {
                positions: old(self)@.positions.insert(account, q as int),
                ..old(self)@
            }),
    {
        self.positions.insert(account, q);
        assert(self@.positions =~= old(self)@.positions.insert(account, q as int));
    }

    fn record(&mut self, trade: &Trade)
        requires
            old(self)@.admits(*trade),
        ensures
            final(self)@ == old(self)@.record(*trade),
    {
        self.state.trades = self.state.trades + 1;
        self.state.volume = self.state.volume + trade.qty.0;
        self.state.notional = self.state.notional + trade.price.0 * trade.qty.0;
        self.state.last = Some(trade.price);
        self.state.high = match self.state.high {
            Some(h) if h.0 > trade.price.0 => Some(h),
            _ => Some(trade.price),
        };
        self.state.low = match self.state.low {
            Some(l) if l.0 < trade.price.0 => Some(l),
            _ => Some(trade.price),
        };

        // `taker_side` is the aggressor's side, so it identifies who bought.
        let (buyer, seller) = match trade.taker_side {
            Side::Buy => (trade.taker_account, trade.maker_account),
            Side::Sell => (trade.maker_account, trade.taker_account),
        };
        let bought = self.position(buyer) + trade.qty.0;
        self.set(buyer, bought);
        let sold = self.position(seller) - trade.qty.0;
        self.set(seller, sold);
    }

    /// Every account with its position, each once, in no particular order.
    fn holdings(&self) -> (r: Vec<(AccountId, i64)>)
        ensures
            lists_holdings(r@, self@.positions),
    {
        let mut r: Vec<(AccountId, i64)> = Vec::new();
        for entry in it: self.positions.iter()
            invariant
                r@.len() == it.index(),
                it.seq() == vstd::std_specs::iter::IteratorSpec::remaining(&self.positions.iter()),
                it.seq().no_duplicates(),
                forall|i: int|
                    0 <= i < r@.len() ==> (#[trigger] r@[i]).0 == *it.seq()[i].0 && r@[i].1
                        == *it.seq()[i].1,
        {
            r.push((*entry.0, *entry.1));
        }
        proof {
            let m = self.positions@;
            let v = vstd::std_specs::iter::IteratorSpec::remaining(&self.positions.iter());
            assert forall|i: int, j: int| 0 <= i < j < r@.len() implies (#[trigger] r@[i]).0 != (
            #[trigger] r@[j]).0 by {
                assert(m[*v[i].0] == *v[i].1 && m[*v[j].0] == *v[j].1);
            }
            assert forall|a: AccountId| #[trigger] self@.positions.contains_key(a) implies exists|
                i: int,
            |
                0 <= i < r@.len() && (#[trigger] r@[i]).0 == a by {
                assert(m.contains_key(a));
                let i = choose|i: int| 0 <= i < v.len() && v[i] == (&a, &m[a]);
                assert(r@[i].0 == a);
            }
        }
        r
    }

    /// The sum of the positions, taken wide enough for every account there is.
    fn net(&self) -> (r: i128)
        ensures
            r == sum_values(self@.positions),
    {
        let all = self.holdings();
        let ghost m = self@.positions;
        let ghost keys = all@.map_values(|h: (AccountId, i64)| h.0);
        proof {
            assert(keys.to_set() =~= m.dom()) by {
                assert forall|a: AccountId| keys.to_set().contains(a) <==> m.dom().contains(a) by {
                    if m.contains_key(a) {
                        let i = choose|i: int| 0 <= i < all@.len() && (#[trigger] all@[i]).0 == a;
                        assert(keys[i] == a);
                    }
                    if keys.contains(a) {
                        let i = choose|i: int| 0 <= i < keys.len() && keys[i] == a;
                        assert(all@[i].0 == a);
                    }
                }
            }
            assert forall|i: int, j: int| 0 <= i < j < keys.len() implies keys[i] != keys[j] by {
                assert(all@[i].0 != all@[j].0);
            }
            lemma_sum_over(keys, m);
        }
        let mut sum: i128 = 0;
        let mut i: usize = 0;
        while i < all.len()
            invariant
                i <= all@.len(),
                lists_holdings(all@, m),
                keys == all@.map_values(|h: (AccountId, i64)| h.0),
                sum == sum_over(keys.take(i as int), m),
                i * i64::MIN <= sum <= i * i64::MAX,
            decreases all@.len() - i,
        {
            assert(keys.take(i + 1).drop_last() =~= keys.take(i as int));
            assert(keys.take(i + 1).last() == all@[i as int].0);
            sum = sum + all[i].1 as i128;
            i = i + 1;
        }
        assert(keys.take(i as int) =~= keys);
        sum
    }

    /// Whether every number that recording the trade makes fits.
    fn admits(&self, trade: &Trade) -> (r: bool)
        ensures
            r == self@.admits(*trade),
    {
        let qty = trade.qty.0;
        if self.state.trades == u64::MAX || self.state.volume.checked_add(qty).is_none() {
            return false;
        }
        let notional = match trade.price.0.checked_mul(qty) {
            Some(value) => self.state.notional.checked_add(value),
            None => None,
        };
        if notional.is_none() {
            return false;
        }
        let (buyer, seller) = match trade.taker_side {
            Side::Buy => (trade.taker_account, trade.maker_account),
            Side::Sell => (trade.maker_account, trade.taker_account),
        };
        match self.position(buyer).checked_add(qty) {
            None => false,
            Some(bought) => {
                let before = if seller == buyer {
                    bought
                } else {
                    self.position(seller)
                };
                before.checked_sub(qty).is_some()
            },
        }
    }
}

/// Recording a trade leaves the sum of the positions where it was.
pub proof fn lemma_record_balances(l: LedgerView, t: Trade)
    requires
        l.positions.dom().finite(),
    ensures
        l.record(t).positions.dom().finite(),
        sum_values(l.record(t).positions) == sum_values(l.positions),
{
    let bought = l.moved(buyer(t), t.qty.0 as int);
    lemma_sum_insert(l.positions, buyer(t), l.position(buyer(t)) + t.qty.0);
    lemma_sum_insert(bought.positions, seller(t), bought.position(seller(t)) - t.qty.0);
}

#[derive(Debug)]
pub struct MarketState {
    ledgers: SymbolMap<Ledger>,
}

impl View for MarketState {
    type V = MarketView;

    closed spec fn view(&self) -> MarketView {
        MarketView { ledgers: self.ledgers@.map_values(|l: Ledger| l@) }
    }
}

impl MarketState {
    /// No symbol is kept twice.
    pub closed spec fn kept_once(&self) -> bool {
        self.ledgers.wf()
    }

    /// No symbol is kept twice, and every unit bought was sold.
    pub open spec fn wf(&self) -> bool {
        &&& self.kept_once()
        &&& self@.balanced()
    }

    pub fn new() -> (r: Self)
        ensures
            r.wf(),
            r@ == MarketView::empty(),
    {
        let r = MarketState { ledgers: SymbolMap::new() };
        assert(r@ =~= MarketView::empty());
        r
    }

    /// Folds one trade into the derived state.
    pub fn record(&mut self, trade: &Trade)
        requires
            old(self).wf(),
            old(self)@.admits(*trade),
        ensures
            final(self).wf(),
            final(self)@ == old(self)@.record(*trade),
    {
        let ghost before = self@;
        proof {
            lemma_record_balances(before.ledger(trade.symbol@), *trade);
        }
        if self.ledgers.get(trade.symbol).is_none() {
            self.ledgers.insert(trade.symbol, Ledger::new());
        }
        match self.ledgers.get_mut(trade.symbol) {
            Some(ledger) => ledger.record(trade),
            None => {},
        }
        assert(self@ =~= before.record(*trade));
    }

    /// Whether every number that recording the trade makes fits.
    pub fn admits(&self, trade: &Trade) -> (r: bool)
        ensures
            r == self@.admits(*trade),
    {
        match self.ledgers.get(trade.symbol) {
            Some(ledger) => ledger.admits(trade),
            None => Ledger::new().admits(trade),
        }
    }

    /// A market that knows this one symbol alone, as it stands here.
    pub fn excerpt(&self, symbol: Symbol) -> (r: MarketState)
        requires
            self.wf(),
        ensures
            r.wf(),
            r@.ledgers == (if self@.ledgers.contains_key(symbol@) {
                map![symbol@ => self@.ledgers[symbol@]]
            } else {
                Map::empty()
            }),
    {
        let mut r = MarketState::new();
        if let Some(ledger) = self.ledgers.get(symbol) {
            let copy = Ledger {
                state: SymbolState {
                    trades: ledger.state.trades,
                    volume: ledger.state.volume,
                    notional: ledger.state.notional,
                    last: ledger.state.last,
                    high: ledger.state.high,
                    low: ledger.state.low,
                },
                positions: ledger.positions.clone(),
            };
            assert(self@.ledgers.contains_key(symbol@));
            assert(!r@.ledgers.contains_key(symbol@));
            r.ledgers.insert(symbol, copy);
            assert(r@.ledgers =~= map![symbol@ => ledger@]);
        }
        r
    }

    pub fn symbol(&self, symbol: Symbol) -> (r: Option<&SymbolState>)
        ensures
            match r {
                Some(s) => self@.ledgers.contains_key(symbol@) && s@
                    == self@.ledgers[symbol@].state,
                None => !self@.ledgers.contains_key(symbol@),
            },
    {
        match self.ledgers.get(symbol) {
            Some(ledger) => Some(&ledger.state),
            None => None,
        }
    }

    /// Every symbol that traded, with its statistics.
    pub fn symbols(&self) -> (r: Vec<(Symbol, &SymbolState)>)
        requires
            self.wf(),
        ensures
            forall|i: int|
                0 <= i < r@.len() ==> self@.ledgers.contains_key((#[trigger] r@[i]).0@) && r@[i].1@
                    == self@.ledgers[r@[i].0@].state,
            forall|i: int, j: int|
                0 <= i < j < r@.len() ==> (#[trigger] r@[i]).0@ != (#[trigger] r@[j]).0@,
            forall|symbol: Seq<char>| #[trigger]
                self@.ledgers.contains_key(symbol) ==> exists|i: int|
                    0 <= i < r@.len() && (#[trigger] r@[i]).0@ == symbol,
    {
        let mut r: Vec<(Symbol, &SymbolState)> = Vec::new();
        let mut i: usize = 0;
        while i < self.ledgers.len()
            invariant
                i <= self.ledgers.order().len(),
                self.ledgers.wf(),
                r@.len() == i,
                forall|k: int|
                    0 <= k < i ==> (#[trigger] r@[k]).0@ == self.ledgers.order()[k]
                        && self@.ledgers.contains_key(r@[k].0@) && r@[k].1@
                        == self@.ledgers[r@[k].0@].state,
            decreases self.ledgers.order().len() - i,
        {
            let (symbol, ledger) = self.ledgers.at(i);
            r.push((symbol, &ledger.state));
            i = i + 1;
        }
        proof {
            self.ledgers.lemma_order();
            let o = self.ledgers.order();
            assert forall|symbol: Seq<char>| #[trigger]
                self@.ledgers.contains_key(symbol) implies exists|k: int|
                0 <= k < r@.len() && (#[trigger] r@[k]).0@ == symbol by {
                assert(o.to_set().contains(symbol));
                let k = choose|k: int| 0 <= k < o.len() && o[k] == symbol;
                assert(r@[k].0@ == symbol);
            }
        }
        r
    }

    /// Net position for one account in one symbol, in quantity ticks.
    pub fn position(&self, account: AccountId, symbol: Symbol) -> (r: i64)
        ensures
            r == self@.position(account, symbol@),
    {
        match self.ledgers.get(symbol) {
            Some(ledger) => ledger.position(account),
            None => 0,
        }
    }

    /// Every non-flat position by rank.
    fn open_positions(&self) -> (r: Vec<(AccountId, Symbol, Qty)>)
        requires
            self.wf(),
        ensures
            self@.top(r@, r@.len() as int + 1),
    {
        let ghost o = self.ledgers.order();
        let ghost view = self@;
        proof {
            self.ledgers.lemma_order();
        }
        let ghost mut done: Set<(AccountId, Seq<char>)> = Set::empty();
        let mut r: Vec<(AccountId, Symbol, Qty)> = Vec::new();
        let mut i: usize = 0;
        while i < self.ledgers.len()
            invariant
                i <= o.len(),
                o == self.ledgers.order(),
                o.no_duplicates(),
                view == self@,
                self.ledgers.wf(),
                ranks(view, r@, done),
                forall|k: (AccountId, Seq<char>)| #[trigger]
                    done.contains(k) <==> o.take(i as int).contains(k.1) && view.ledger(
                        k.1,
                    ).positions.contains_key(k.0),
            decreases o.len() - i,
        {
            let (symbol, ledger) = self.ledgers.at(i);
            let all = ledger.holdings();
            let ghost earlier = done;
            assert(view.ledger(symbol@) == ledger@);
            assert(!o.take(i as int).contains(symbol@));
            let mut j: usize = 0;
            while j < all.len()
                invariant
                    j <= all@.len(),
                    view.ledger(symbol@) == ledger@,
                    lists_holdings(all@, ledger@.positions),
                    ranks(view, r@, done),
                    forall|k: (AccountId, Seq<char>)| #[trigger]
                        earlier.contains(k) ==> k.1 != symbol@,
                    forall|k: (AccountId, Seq<char>)| #[trigger]
                        done.contains(k) <==> earlier.contains(k) || (k.1 == symbol@ && exists|
                            m: int,
                        |
                            0 <= m < j && (#[trigger] all@[m]).0 == k.0),
                decreases all@.len() - j,
            {
                let (account, qty) = all[j];
                assert(!done.contains((account, symbol@)));
                if qty != 0 {
                    let ghost before = r@;
                    place(&mut r, (account, symbol, Qty(qty)));
                    proof {
                        lemma_ranks_grow(view, before, r@, (account, symbol, Qty(qty)), done);
                    }
                }
                proof {
                    done = done.insert((account, symbol@));
                }
                j = j + 1;
            }
            proof {
                assert(o.take(i + 1) =~= o.take(i as int).push(symbol@));
                assert forall|k: (AccountId, Seq<char>)| #[trigger]
                    done.contains(k) <==> o.take(i + 1).contains(k.1) && view.ledger(
                        k.1,
                    ).positions.contains_key(k.0) by {
                    assert(o.take(i + 1).last() == symbol@);
                    assert(o.take(i + 1).contains(k.1) <==> o.take(i as int).contains(k.1) || k.1
                        == symbol@) by {
                        if o.take(i as int).contains(k.1) {
                            let m = choose|m: int|
                                0 <= m < o.take(i as int).len() && o.take(i as int)[m] == k.1;
                            assert(o.take(i + 1)[m] == k.1);
                        }
                    }
                }
            }
            i = i + 1;
        }
        proof {
            assert(o.take(i as int) =~= o);
            assert forall|p: (AccountId, Symbol, Qty)| #[trigger] view.holds(p) implies exists|
                k: int,
            |
                0 <= k < r@.len() && (#[trigger] r@[k]).0 == p.0 && r@[k].1@ == p.1@ by {
                assert(o.to_set().contains(p.1@));
                assert(done.contains((p.0, p.1@)));
            }
        }
        r
    }

    /// Every non-flat position, largest absolute size first.
    pub fn top_positions(&self, n: usize) -> (r: Vec<(AccountId, Symbol, Qty)>)
        requires
            self.wf(),
        ensures
            self@.top(r@, n as int),
    {
        let mut r = self.open_positions();
        let ghost all = r@;
        r.truncate(n);
        proof {
            assert forall|p: (AccountId, Symbol, Qty)| #[trigger] self@.accounts_for(
                r@,
                n as int,
                p,
            ) by {
                if self@.holds(p) {
                    assert(self@.accounts_for(all, all.len() as int + 1, p));
                    let i = choose|i: int|
                        0 <= i < all.len() && (#[trigger] all[i]).0 == p.0 && all[i].1@ == p.1@;
                    assert(self@.holds(all[i]));
                    if i < n {
                        assert(r@[i] == all[i]);
                    } else {
                        assert forall|m: int| 0 <= m < r@.len() implies outranks(
                            #[trigger] r@[m],
                            p,
                        ) by {
                            assert(r@[m] == all[m]);
                            assert(outranks(all[m], all[i]));
                        }
                    }
                }
            }
        }
        r
    }

    /// Sum of every position. Always zero: each unit bought by someone was
    /// sold by someone else.
    pub fn net_position(&self) -> (r: i64)
        requires
            self.wf(),
        ensures
            r == self@.net(),
            r == 0,
    {
        let ghost totals = self@.ledgers.map_values(|l: LedgerView| sum_values(l.positions));
        let ghost o = self.ledgers.order();
        proof {
            self.ledgers.lemma_order();
            assert(totals.dom() =~= self@.ledgers.dom());
            assert(self@.ledgers.dom() =~= self.ledgers@.dom());
            lemma_sum_over(o, totals);
        }
        let mut sum: i128 = 0;
        let mut i: usize = 0;
        while i < self.ledgers.len()
            invariant
                i <= o.len(),
                o == self.ledgers.order(),
                self.wf(),
                totals == self@.ledgers.map_values(|l: LedgerView| sum_values(l.positions)),
                sum == sum_over(o.take(i as int), totals),
                sum == 0,
            decreases o.len() - i,
        {
            let (symbol, ledger) = self.ledgers.at(i);
            assert(o.take(i + 1).drop_last() =~= o.take(i as int));
            assert(o.take(i + 1).last() == symbol@);
            assert(self@.ledgers.contains_key(symbol@));
            assert(totals[symbol@] == sum_values(ledger@.positions));
            sum = sum + ledger.net();
            i = i + 1;
        }
        assert(o.take(i as int) =~= o);
        sum as i64
    }
}

impl Default for SymbolState {
    fn default() -> (r: Self)
        ensures
            r@ == SymbolView::empty(),
    {
        SymbolState { trades: 0, volume: 0, notional: 0, last: None, high: None, low: None }
    }
}

impl Default for MarketState {
    fn default() -> (r: Self)
        ensures
            r.wf(),
            r@ == MarketView::empty(),
    {
        MarketState::new()
    }
}

} // verus!
