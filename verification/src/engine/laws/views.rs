//! What is stated of a value holds of its fields, name by name.

use crate::engine::book::fits_i64;
use crate::engine::cursor::CursorView;
use crate::engine::market::{LedgerView, SymbolState};
use crate::engine::matcher::{EngineView, Stats};
use crate::engine::types::{Event, Order, Symbol, Trade};
use crate::feed::{AccountId, OrderId, Side};
use vstd::prelude::*;

verus! {

/// The counters stand under their own names.
pub proof fn law_counters_keep_their_names(s: Stats)
    ensures
        s@.events == s.events,
        s@.new_orders == s.new_orders,
        s@.filtered == s.filtered,
        s@.cancels == s.cancels,
        s@.cancels_hit == s.cancels_hit,
        s@.cancels_unknown == s.cancels_unknown,
        s@.trades == s.trades,
        s@.volume == s.volume,
        s@.cancelled_qty == s.cancelled_qty,
{
}

/// The statistics of a symbol stand under their own names.
pub proof fn law_statistics_keep_their_names(s: SymbolState)
    ensures
        s@.trades == s.trades,
        s@.volume == s.volume,
        s@.notional == s.notional,
        s@.last == s.last,
        s@.high == s.high,
        s@.low == s.low,
{
}

/// A trade is recorded whenever the numbers that it makes fit 64 bits: the
/// count, the volume, its own turnover and the total, and the two positions.
pub proof fn law_a_trade_fits_if_its_numbers_do(l: LedgerView, t: Trade)
    requires
        0 <= l.state.trades < u64::MAX,
        i64::MIN <= l.state.volume + t.qty.0 <= i64::MAX,
        i64::MIN <= t.price.0 * t.qty.0 <= i64::MAX,
        i64::MIN <= l.state.notional + t.price.0 * t.qty.0 <= i64::MAX,
        ({
            let (to, from) = if t.taker_side == Side::Buy {
                (t.taker_account, t.maker_account)
            } else {
                (t.maker_account, t.taker_account)
            };
            &&& i64::MIN <= l.position(to) + t.qty.0 <= i64::MAX
            &&& to != from ==> i64::MIN <= l.position(from) - t.qty.0 <= i64::MAX
            &&& to == from ==> i64::MIN <= l.position(from) <= i64::MAX
        }),
    ensures
        l.admits(t),
{
}

/// A cancel is folded whenever the counters that it moves fit.
pub proof fn law_a_cancel_fits_if_its_counters_do(
    v: EngineView,
    seq: OrderId,
    account: AccountId,
    target_id: OrderId,
)
    requires
        v.stats.fits(),
        v.stats.events < u64::MAX,
        v.stats.cancels < u64::MAX,
        v.stats.cancels_hit < u64::MAX,
        v.stats.cancels_unknown < u64::MAX,
        v.cancelled(target_id) matches Some(order) ==> i64::MIN <= v.stats.cancelled_qty
            + order.qty.0 <= i64::MAX,
    ensures
        v.admits(Event::Cancel { seq, account, target_id }),
{
}

/// A new order that only rests, or that the filter keeps out, is folded
/// whenever the counters that it moves fit.
pub proof fn law_a_resting_order_fits_if_its_counters_do(
    v: EngineView,
    symbol: Symbol,
    order: Order,
)
    requires
        v.stats.fits(),
        v.stats.events < u64::MAX,
        v.stats.new_orders < u64::MAX,
        v.stats.filtered < u64::MAX,
        v.follows(symbol@) ==> v.sweep(symbol, order).trades.len() == 0,
    ensures
        v.admits(Event::New { symbol, order }),
{
    let s = v.sweep(symbol, order);
    if v.follows(symbol@) {
        assert forall|k: int| 0 <= k <= s.trades.len() implies #[trigger] s.trades.take(k)
            =~= s.trades by {}
    }
}

/// The counters are whole numbers of 64 bits, and the quantities signed ones.
pub proof fn law_counters_may_be_as_large_as_their_words(v: EngineView, x: int)
    ensures
        fits_i64(x) <==> i64::MIN <= x <= i64::MAX,
        v.stats.fits() <==> {
            &&& 0 <= v.stats.events <= u64::MAX
            &&& 0 <= v.stats.new_orders <= u64::MAX
            &&& 0 <= v.stats.filtered <= u64::MAX
            &&& 0 <= v.stats.cancels <= u64::MAX
            &&& 0 <= v.stats.cancels_hit <= u64::MAX
            &&& 0 <= v.stats.cancels_unknown <= u64::MAX
            &&& 0 <= v.stats.trades <= u64::MAX
            &&& i64::MIN <= v.stats.volume <= i64::MAX
            &&& i64::MIN <= v.stats.cancelled_qty <= i64::MAX
        },
{
}

/// A message moves the cursor to its id and ends the silence; the feed has
/// restarted exactly when its newest id is below the cursor; a rewound cursor
/// stands before the first message.
pub proof fn law_a_cursor_stands_where_it_was_put(c: CursorView, id: OrderId, newest: OrderId)
    ensures
        c.advanced(id).since == id,
        c.advanced(id).silent == 0,
        c.advanced(id).probe_after == c.probe_after,
        c.advanced(id).overtakes(Some(newest)) <==> newest < id,
        c.overtakes(Some(newest)) <==> newest < c.since,
        !c.overtakes(None),
        c.after_empty_poll().since == c.since,
        c.rewound().since == 0,
        c.rewound().probe_after == c.probe_after,
{
}

} // verus!
