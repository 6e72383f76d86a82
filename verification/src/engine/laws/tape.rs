//! What the tape says follows from the trades alone.

use crate::engine::laws::replay;
use crate::engine::laws::trading::{
    law_positive_orders_make_positive_trades, law_the_tape_is_made_of_the_trades, positive_orders,
    run_trades,
};
use crate::engine::market::{
    buyer, lemma_record_balances, outranks, quotient, seller, LedgerView, MarketView, SymbolView,
};
use crate::engine::matcher::{recorded, EngineView};
use crate::engine::sums::{lemma_sum_split, sum_values};
use crate::engine::text::lemma_precedes_total;
use crate::engine::types::{Event, Price, Qty, Symbol, Trade};
use crate::feed::AccountId;
use vstd::prelude::*;

verus! {

/// The sum of a map of zeros.
proof fn lemma_zero_sum<K>(m: Map<K, int>)
    requires
        m.dom().finite(),
        forall|k: K| #[trigger] m.contains_key(k) ==> m[k] == 0,
    ensures
        sum_values(m) == 0,
    decreases m.len(),
{
    if m.len() > 0 {
        let k = m.dom().choose();
        assert(m.contains_key(k));
        lemma_zero_sum(m.remove(k));
        lemma_sum_split(m, k);
    }
}

/// Every unit bought was sold by someone: a market that was balanced stays so
/// over any trades, and its positions add up to zero.
pub proof fn law_positions_net_to_zero(market: MarketView, trades: Seq<Trade>)
    requires
        market.balanced(),
    ensures
        recorded(market, trades).balanced(),
        recorded(market, trades).net() == 0,
    decreases trades.len(),
{
    let next = recorded(market, trades);
    if trades.len() > 0 {
        law_positions_net_to_zero(market, trades.drop_last());
        let before = recorded(market, trades.drop_last());
        let t = trades.last();
        assert(sum_values(LedgerView::empty().positions) == 0);
        lemma_record_balances(before.ledger(t.symbol@), t);
        assert(next.ledgers.dom() =~= before.ledgers.dom().insert(t.symbol@));
    }
    let totals = next.ledgers.map_values(|l: LedgerView| sum_values(l.positions));
    assert(totals.dom() =~= next.ledgers.dom());
    lemma_zero_sum(totals);
}

/// After every run of events the positions across all accounts add up to zero.
pub proof fn law_positions_net_to_zero_after_every_run(
    only: Option<Seq<char>>,
    events: Seq<Event>,
)
    ensures
        replay(EngineView::empty(only), events).market.balanced(),
        replay(EngineView::empty(only), events).market.net() == 0,
{
    let start = EngineView::empty(only);
    law_the_tape_is_made_of_the_trades(start, events);
    law_positions_net_to_zero(start.market, run_trades(start, events));
}

/// A trade moves the buyer up and the seller down by its quantity, in its own
/// symbol, and nobody else anywhere.
pub proof fn law_a_trade_moves_two_positions(
    market: MarketView,
    t: Trade,
    account: AccountId,
    symbol: Seq<char>,
)
    ensures
        market.record(t).position(account, symbol) == market.position(account, symbol) + (
        if symbol == t.symbol@ && account == buyer(t) {
            t.qty.0 as int
        } else {
            0
        }) - (if symbol == t.symbol@ && account == seller(t) {
            t.qty.0 as int
        } else {
            0
        }),
{
}

/// A self-trade leaves the account where it was.
pub proof fn law_a_self_trade_leaves_the_account_flat(market: MarketView, t: Trade)
    requires
        t.maker_account == t.taker_account,
    ensures
        market.record(t).position(t.maker_account, t.symbol@) == market.position(
            t.maker_account,
            t.symbol@,
        ),
{
}

/// Whether a symbol's statistics are those of trades of positive size.
pub open spec fn weighed(s: SymbolView) -> bool {
    if s.trades == 0 {
        s == SymbolView::empty()
    } else {
        &&& s.trades > 0
        &&& s.volume > 0
        &&& match (s.low, s.last, s.high) {
            (Some(low), Some(last), Some(high)) => {
                &&& low.0 * s.volume <= s.notional <= high.0 * s.volume
                &&& low.0 <= last.0 <= high.0
            },
            _ => false,
        }
    }
}

proof fn lemma_weighed_step(s: SymbolView, price: Price, qty: int)
    requires
        weighed(s),
        qty > 0,
    ensures
        weighed(s.record(price, qty)),
{
    let next = s.record(price, qty);
    if s.trades > 0 {
        let (low, high) = ((s.low->0).0 as int, (s.high->0).0 as int);
        let (l, h) = ((next.low->0).0 as int, (next.high->0).0 as int);
        let (v, n, p) = (s.volume, s.notional, price.0 as int);
        assert(l * (v + qty) <= n + p * qty) by (nonlinear_arith)
            requires
                l <= low,
                l <= p,
                v > 0,
                qty > 0,
                low * v <= n,
        ;
        assert(n + p * qty <= h * (v + qty)) by (nonlinear_arith)
            requires
                high <= h,
                p <= h,
                v > 0,
                qty > 0,
                n <= high * v,
        ;
    } else {
        assert(price.0 * (0 + qty) == 0 + price.0 * qty);
    }
}

proof fn lemma_weighed(market: MarketView, trades: Seq<Trade>, symbol: Seq<char>)
    requires
        weighed(market.ledger(symbol).state),
        forall|i: int| 0 <= i < trades.len() ==> (#[trigger] trades[i]).qty.0 > 0,
    ensures
        weighed(recorded(market, trades).ledger(symbol).state),
    decreases trades.len(),
{
    if trades.len() > 0 {
        let front = trades.drop_last();
        assert forall|i: int| 0 <= i < front.len() implies (#[trigger] front[i]).qty.0 > 0 by {
            assert(front[i] == trades[i]);
        }
        lemma_weighed(market, front, symbol);
        let t = trades.last();
        assert(t == trades[trades.len() - 1]);
        lemma_weighed_step(recorded(market, front).ledger(symbol).state, t.price, t.qty.0 as int);
    }
}

proof fn lemma_quotient_between(low: int, high: int, n: int, v: int)
    requires
        v > 0,
        low * v <= n <= high * v,
    ensures
        low <= quotient(n, v) <= high,
{
    if n >= 0 {
        let q = n / v;
        assert(low <= q <= high) by (nonlinear_arith)
            requires
                v > 0,
                low * v <= n <= high * v,
                q == n / v,
        {
            assert(n == v * q + n % v);
            assert(0 <= n % v < v);
        }
    } else {
        let m = -n;
        let q = m / v;
        assert(low <= -q <= high) by (nonlinear_arith)
            requires
                v > 0,
                low * v <= -m <= high * v,
                q == m / v,
        {
            assert(m == v * q + m % v);
            assert(0 <= m % v < v);
        }
    }
}

/// The volume-weighted average price of trades of positive size lies between
/// the lowest and the highest price, and so does the last one.
pub proof fn law_the_vwap_lies_between_low_and_high(trades: Seq<Trade>, symbol: Seq<char>)
    requires
        forall|i: int| 0 <= i < trades.len() ==> (#[trigger] trades[i]).qty.0 > 0,
    ensures
        ({
            let s = recorded(MarketView::empty(), trades).ledger(symbol).state;
            s.trades > 0 ==> {
                &&& s.volume > 0
                &&& match (s.low, s.last, s.high) {
                    (Some(low), Some(last), Some(high)) => {
                        &&& low.0 <= last.0 <= high.0
                        &&& low.0 <= quotient(s.notional, s.volume) <= high.0
                    },
                    _ => false,
                }
            }
        }),
{
    lemma_weighed(MarketView::empty(), trades, symbol);
    let s = recorded(MarketView::empty(), trades).ledger(symbol).state;
    if s.trades > 0 {
        lemma_quotient_between((s.low->0).0 as int, (s.high->0).0 as int, s.notional, s.volume);
    }
}

/// So it is of every symbol that traded in a run of orders of positive
/// quantity.
pub proof fn law_the_vwap_lies_between_low_and_high_after_every_run(
    only: Option<Seq<char>>,
    events: Seq<Event>,
    symbol: Seq<char>,
)
    requires
        positive_orders(events),
    ensures
        ({
            let s = replay(EngineView::empty(only), events).market.ledger(symbol).state;
            s.trades > 0 ==> {
                &&& s.volume > 0
                &&& match (s.low, s.last, s.high) {
                    (Some(low), Some(last), Some(high)) => {
                        &&& low.0 <= last.0 <= high.0
                        &&& low.0 <= quotient(s.notional, s.volume) <= high.0
                    },
                    _ => false,
                }
            }
        }),
{
    let start = EngineView::empty(only);
    law_the_tape_is_made_of_the_trades(start, events);
    law_positive_orders_make_positive_trades(only, events);
    law_the_vwap_lies_between_low_and_high(run_trades(start, events), symbol);
}

/// Whether two listed positions are the same position.
pub open spec fn same_position(
    a: (AccountId, Symbol, Qty),
    b: (AccountId, Symbol, Qty),
) -> bool {
    a.0 == b.0 && a.1@ == b.1@ && a.2 == b.2
}

proof fn lemma_outranks_is_strict(a: (AccountId, Symbol, Qty), b: (AccountId, Symbol, Qty))
    requires
        outranks(a, b),
    ensures
        !outranks(b, a),
        !same_position(a, b),
{
    lemma_precedes_total(a.1@, b.1@);
    lemma_precedes_total(b.1@, a.1@);
}

/// `b[k]` is `a[k]` or outranks it, where both list the top and agree before.
proof fn lemma_no_worse(
    market: MarketView,
    a: Seq<(AccountId, Symbol, Qty)>,
    b: Seq<(AccountId, Symbol, Qty)>,
    n: int,
    k: int,
)
    requires
        market.top(a, n),
        market.top(b, n),
        0 <= k < a.len(),
        k < b.len(),
        forall|i: int| 0 <= i < k ==> same_position(#[trigger] a[i], b[i]),
    ensures
        same_position(a[k], b[k]) || outranks(b[k], a[k]),
{
    let p = a[k];
    assert(market.holds(p));
    assert(market.accounts_for(b, n, p));
    if exists|i: int| 0 <= i < b.len() && (#[trigger] b[i]).0 == p.0 && b[i].1@ == p.1@ {
        let m = choose|i: int| 0 <= i < b.len() && (#[trigger] b[i]).0 == p.0 && b[i].1@ == p.1@;
        assert(market.holds(b[m]));
        assert(same_position(b[m], p));
        if m < k {
            assert(same_position(a[m], b[m]));
            assert(outranks(a[m], a[k]));
            lemma_outranks_is_strict(a[m], a[k]);
        } else if m > k {
            assert(outranks(b[k], b[m]));
        }
    }
}

/// There is one list of the largest positions.
pub proof fn law_the_top_positions_are_determined(
    market: MarketView,
    a: Seq<(AccountId, Symbol, Qty)>,
    b: Seq<(AccountId, Symbol, Qty)>,
    n: int,
)
    requires
        market.top(a, n),
        market.top(b, n),
    ensures
        a.len() == b.len(),
        forall|i: int| 0 <= i < a.len() ==> same_position(#[trigger] a[i], b[i]),
{
    let m = if a.len() <= b.len() {
        a.len() as int
    } else {
        b.len() as int
    };
    lemma_tops_agree(market, a, b, n, m);
    if a.len() < b.len() {
        lemma_no_longer(market, a, b, n);
    }
    if b.len() < a.len() {
        assert forall|i: int| 0 <= i < b.len() implies same_position(#[trigger] b[i], a[i]) by {
            assert(same_position(a[i], b[i]));
        }
        lemma_no_longer(market, b, a, n);
    }
}

proof fn lemma_tops_agree(
    market: MarketView,
    a: Seq<(AccountId, Symbol, Qty)>,
    b: Seq<(AccountId, Symbol, Qty)>,
    n: int,
    k: int,
)
    requires
        market.top(a, n),
        market.top(b, n),
        0 <= k <= a.len(),
        k <= b.len(),
    ensures
        forall|i: int| 0 <= i < k ==> same_position(#[trigger] a[i], b[i]),
    decreases k,
{
    if k > 0 {
        lemma_tops_agree(market, a, b, n, k - 1);
        lemma_no_worse(market, a, b, n, k - 1);
        assert forall|i: int| 0 <= i < k - 1 implies same_position(#[trigger] b[i], a[i]) by {
            assert(same_position(a[i], b[i]));
        }
        lemma_no_worse(market, b, a, n, k - 1);
        if outranks(b[k - 1], a[k - 1]) {
            lemma_outranks_is_strict(b[k - 1], a[k - 1]);
        }
    }
}

/// A list of the top that agrees with a longer one as far as it goes would
/// have left a position out.
proof fn lemma_no_longer(
    market: MarketView,
    a: Seq<(AccountId, Symbol, Qty)>,
    b: Seq<(AccountId, Symbol, Qty)>,
    n: int,
)
    requires
        market.top(a, n),
        market.top(b, n),
        forall|i: int| 0 <= i < a.len() && i < b.len() ==> same_position(#[trigger] a[i], b[i]),
    ensures
        a.len() >= b.len(),
{
    if a.len() < b.len() {
        let k = a.len() as int;
        let p = b[k];
        assert(market.holds(p));
        assert(market.accounts_for(a, n, p));
        let m = choose|i: int| 0 <= i < a.len() && (#[trigger] a[i]).0 == p.0 && a[i].1@ == p.1@;
        assert(market.holds(a[m]));
        assert(same_position(a[m], b[m]));
        assert(outranks(b[m], b[k]));
        lemma_outranks_is_strict(b[m], b[k]);
    }
}

} // verus!
