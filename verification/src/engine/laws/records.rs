//! What the tape says of a symbol, read off the trades in it.

use crate::engine::laws::replay;
use crate::engine::laws::trading::{law_the_tape_is_made_of_the_trades, run_trades};
use crate::engine::market::{quotient, MarketView, SymbolView};
use crate::engine::matcher::{recorded, traded, EngineView};
use crate::engine::types::{Event, Trade};
use crate::feed::{AccountId, Side};
use vstd::prelude::*;

verus! {

/// The trades in one symbol, in order.
pub open spec fn trades_in(trades: Seq<Trade>, symbol: Seq<char>) -> Seq<Trade>
    decreases trades.len(),
{
    if trades.len() == 0 {
        seq![]
    } else if trades.last().symbol@ == symbol {
        trades_in(trades.drop_last(), symbol).push(trades.last())
    } else {
        trades_in(trades.drop_last(), symbol)
    }
}

/// Price times quantity, summed.
pub open spec fn turnover(trades: Seq<Trade>) -> int
    decreases trades.len(),
{
    if trades.len() == 0 {
        0
    } else {
        turnover(trades.drop_last()) + trades.last().price.0 * trades.last().qty.0
    }
}

/// What an account bought, as the aggressor or as the resting side.
pub open spec fn bought(trades: Seq<Trade>, account: AccountId) -> int
    decreases trades.len(),
{
    if trades.len() == 0 {
        0
    } else {
        let t = trades.last();
        bought(trades.drop_last(), account) + (if (t.taker_side == Side::Buy && t.taker_account
            == account) || (t.taker_side == Side::Sell && t.maker_account == account) {
            t.qty.0 as int
        } else {
            0
        })
    }
}

/// What an account sold.
pub open spec fn sold(trades: Seq<Trade>, account: AccountId) -> int
    decreases trades.len(),
{
    if trades.len() == 0 {
        0
    } else {
        let t = trades.last();
        sold(trades.drop_last(), account) + (if (t.taker_side == Side::Sell && t.taker_account
            == account) || (t.taker_side == Side::Buy && t.maker_account == account) {
            t.qty.0 as int
        } else {
            0
        })
    }
}

/// Whether a symbol's statistics are those of its trades: how many there are,
/// how much they moved and at what total, the price of the last one, and the
/// highest and the lowest price among them.
pub open spec fn sums_up(s: SymbolView, own: Seq<Trade>) -> bool {
    &&& s.trades == own.len()
    &&& s.volume == traded(own)
    &&& s.notional == turnover(own)
    &&& own.len() == 0 ==> s.last is None && s.high is None && s.low is None
    &&& own.len() > 0 ==> {
        &&& s.last == Some(own[own.len() - 1].price)
        &&& s.high is Some
        &&& s.low is Some
        &&& forall|i: int| 0 <= i < own.len() ==> (#[trigger] own[i]).price.0 <= (s.high->0).0
        &&& forall|i: int| 0 <= i < own.len() ==> (#[trigger] own[i]).price.0 >= (s.low->0).0
        &&& exists|i: int| 0 <= i < own.len() && (#[trigger] own[i]).price == s.high->0
        &&& exists|i: int| 0 <= i < own.len() && (#[trigger] own[i]).price == s.low->0
    }
}

proof fn lemma_sums_up_step(s: SymbolView, own: Seq<Trade>, t: Trade)
    requires
        sums_up(s, own),
    ensures
        sums_up(s.record(t.price, t.qty.0 as int), own.push(t)),
{
    let next = s.record(t.price, t.qty.0 as int);
    let more = own.push(t);
    assert(more.drop_last() =~= own);
    assert(more[own.len() as int] == t);
    if own.len() > 0 {
        let h = choose|i: int| 0 <= i < own.len() && (#[trigger] own[i]).price == s.high->0;
        let l = choose|i: int| 0 <= i < own.len() && (#[trigger] own[i]).price == s.low->0;
        assert(more[h] == own[h]);
        assert(more[l] == own[l]);
    }
    assert forall|i: int| 0 <= i < more.len() implies (#[trigger] more[i]).price.0 <= (
    next.high->0).0 && more[i].price.0 >= (next.low->0).0 by {
        if i < own.len() {
            assert(more[i] == own[i]);
        }
    }
    assert(exists|i: int| 0 <= i < more.len() && (#[trigger] more[i]).price == next.high->0);
    assert(exists|i: int| 0 <= i < more.len() && (#[trigger] more[i]).price == next.low->0);
}

/// For every list of trades: a symbol's last price is that of the last trade
/// in it, its high is the greatest price and its low the least, its volume is
/// the sum of the quantities, its notional the sum of price times quantity, and
/// its count the number, over the trades in that symbol and no others.
pub proof fn law_the_tape_sums_up_the_trades_in_a_symbol(trades: Seq<Trade>, symbol: Seq<char>)
    ensures
        sums_up(
            recorded(MarketView::empty(), trades).ledger(symbol).state,
            trades_in(trades, symbol),
        ),
        recorded(MarketView::empty(), trades).ledgers.contains_key(symbol) == (trades_in(
            trades,
            symbol,
        ).len() > 0),
    decreases trades.len(),
{
    if trades.len() > 0 {
        law_the_tape_sums_up_the_trades_in_a_symbol(trades.drop_last(), symbol);
        let before = recorded(MarketView::empty(), trades.drop_last());
        if trades.last().symbol@ == symbol {
            lemma_sums_up_step(
                before.ledger(symbol).state,
                trades_in(trades.drop_last(), symbol),
                trades.last(),
            );
        }
    }
}

/// For every list of trades: an account's position in a symbol is what it
/// bought less what it sold, over the trades in that symbol.
pub proof fn law_a_position_is_bought_less_sold(
    trades: Seq<Trade>,
    account: AccountId,
    symbol: Seq<char>,
)
    ensures
        recorded(MarketView::empty(), trades).position(account, symbol) == bought(
            trades_in(trades, symbol),
            account,
        ) - sold(trades_in(trades, symbol), account),
    decreases trades.len(),
{
    if trades.len() > 0 {
        let front = trades.drop_last();
        law_a_position_is_bought_less_sold(front, account, symbol);
        let own = trades_in(front, symbol);
        assert(own.push(trades.last()).drop_last() =~= own);
    }
}

/// So it is after every run of events, over the trades that the run made.
pub proof fn law_the_tape_sums_up_every_run(
    only: Option<Seq<char>>,
    events: Seq<Event>,
    account: AccountId,
    symbol: Seq<char>,
)
    ensures
        ({
            let market = replay(EngineView::empty(only), events).market;
            let own = trades_in(run_trades(EngineView::empty(only), events), symbol);
            &&& sums_up(market.ledger(symbol).state, own)
            &&& market.ledgers.contains_key(symbol) == (own.len() > 0)
            &&& market.position(account, symbol) == bought(own, account) - sold(own, account)
        }),
{
    let start = EngineView::empty(only);
    let trades = run_trades(start, events);
    law_the_tape_is_made_of_the_trades(start, events);
    law_the_tape_sums_up_the_trades_in_a_symbol(trades, symbol);
    law_a_position_is_bought_less_sold(trades, account, symbol);
}

/// A quotient drops the fraction: what it leaves over is smaller than the
/// divisor, and has the sign of the number that was divided.
pub proof fn law_a_quotient_drops_the_fraction(a: int, b: int)
    requires
        b != 0,
    ensures
        a >= 0 ==> 0 <= a - b * quotient(a, b) < (if b < 0 {
            -b
        } else {
            b
        }),
        a < 0 ==> 0 <= b * quotient(a, b) - a < (if b < 0 {
            -b
        } else {
            b
        }),
{
    let n = if a < 0 {
        -a
    } else {
        a
    };
    let q = n / b;
    vstd::arithmetic::div_mod::lemma_fundamental_div_mod(n, b);
    assert(0 <= n % b < (if b < 0 {
        -b
    } else {
        b
    })) by (nonlinear_arith)
        requires
            b != 0,
    ;
    assert(b * (-q) == -(b * q)) by (nonlinear_arith);
}

/// The volume-weighted average price of a symbol's trades is their turnover
/// over their volume, with the fraction of a tick dropped.
pub proof fn law_the_vwap_weighs_prices_by_quantity(trades: Seq<Trade>, symbol: Seq<char>)
    requires
        forall|i: int|
            0 <= i < trades.len() ==> (#[trigger] trades[i]).qty.0 > 0 && trades[i].price.0 >= 0,
    ensures
        ({
            let own = trades_in(trades, symbol);
            let s = recorded(MarketView::empty(), trades).ledger(symbol).state;
            let vwap = quotient(s.notional, s.volume);
            own.len() > 0 ==> traded(own) > 0 && traded(own) * vwap <= turnover(own) && turnover(
                own,
            ) < traded(own) * (vwap + 1)
        }),
{
    let own = trades_in(trades, symbol);
    let s = recorded(MarketView::empty(), trades).ledger(symbol).state;
    law_the_tape_sums_up_the_trades_in_a_symbol(trades, symbol);
    lemma_sums_not_negative(trades, symbol);
    if own.len() > 0 {
        law_a_quotient_drops_the_fraction(s.notional, s.volume);
        let (v, q) = (s.volume, quotient(s.notional, s.volume));
        assert(v * (q + 1) == v * q + v) by (nonlinear_arith);
    }
}

proof fn lemma_sums_not_negative(trades: Seq<Trade>, symbol: Seq<char>)
    requires
        forall|i: int|
            0 <= i < trades.len() ==> (#[trigger] trades[i]).qty.0 > 0 && trades[i].price.0 >= 0,
    ensures
        traded(trades_in(trades, symbol)) >= trades_in(trades, symbol).len(),
        turnover(trades_in(trades, symbol)) >= 0,
    decreases trades.len(),
{
    if trades.len() > 0 {
        let front = trades.drop_last();
        assert forall|i: int| 0 <= i < front.len() implies (#[trigger] front[i]).qty.0 > 0
            && front[i].price.0 >= 0 by {
            assert(front[i] == trades[i]);
        }
        lemma_sums_not_negative(front, symbol);
        let t = trades.last();
        assert(t == trades[trades.len() - 1]);
        let own = trades_in(front, symbol);
        assert(own.push(t).drop_last() =~= own);
        assert(t.price.0 * t.qty.0 >= 0) by (nonlinear_arith)
            requires
                t.price.0 >= 0,
                t.qty.0 > 0,
        ;
    }
}

/// The quantity of a list of trades is nothing for none, and grows by each
/// trade's own.
pub proof fn law_traded_quantities_add_up(trades: Seq<Trade>, t: Trade)
    ensures
        traded(Seq::<Trade>::empty()) == 0,
        traded(trades.push(t)) == traded(trades) + t.qty.0,
{
    assert(trades.push(t).drop_last() =~= trades);
}

} // verus!
