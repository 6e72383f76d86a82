//! The list of the largest positions, on the quantities themselves.

use crate::engine::market::MarketView;
use crate::engine::text::{lemma_precedes_total, precedes};
use crate::engine::types::{Qty, Symbol};
use crate::feed::AccountId;
use vstd::prelude::*;

verus! {

/// How large a position is, long or short.
pub open spec fn size(q: Qty) -> int {
    if q.0 >= 0 {
        q.0 as int
    } else {
        -q.0
    }
}

/// The largest positions first: sizes never grow down the list; of equal sizes
/// the lower account stands first, and of one account's the symbol that comes
/// first in the dictionary. Each entry is an account's position, and not flat.
pub proof fn law_positions_are_listed_by_size(
    market: MarketView,
    v: Seq<(AccountId, Symbol, Qty)>,
    n: int,
)
    requires
        market.top(v, n),
    ensures
        v.len() <= n,
        forall|i: int|
            0 <= i < v.len() ==> (#[trigger] v[i]).2.0 != 0 && v[i].2.0 == market.position(
                v[i].0,
                v[i].1@,
            ),
        forall|i: int, j: int|
            0 <= i < j < v.len() ==> size((#[trigger] v[i]).2) >= size((#[trigger] v[j]).2),
        forall|i: int, j: int|
            0 <= i < j < v.len() && size((#[trigger] v[i]).2) == size((#[trigger] v[j]).2)
                ==> v[i].0 <= v[j].0,
        forall|i: int, j: int|
            0 <= i < j < v.len() && size((#[trigger] v[i]).2) == size((#[trigger] v[j]).2)
                && v[i].0 == v[j].0 ==> precedes(v[i].1@, v[j].1@),
{
}

/// No position is passed over for a smaller one: one that is not in the list
/// is flat, or the list is full and no entry of it is smaller.
pub proof fn law_no_larger_position_is_left_out(
    market: MarketView,
    v: Seq<(AccountId, Symbol, Qty)>,
    n: int,
    account: AccountId,
    symbol: Symbol,
    q: Qty,
)
    requires
        market.top(v, n),
        q.0 == market.position(account, symbol@),
        q.0 != 0,
    ensures
        (exists|i: int|
            0 <= i < v.len() && (#[trigger] v[i]).0 == account && v[i].1@ == symbol@ && v[i].2
                == q) || (v.len() == n && forall|i: int|
            0 <= i < v.len() ==> size((#[trigger] v[i]).2) >= size(q)),
{
    let p = (account, symbol, q);
    assert(market.holds(p));
    assert(market.accounts_for(v, n, p));
    if exists|i: int| 0 <= i < v.len() && (#[trigger] v[i]).0 == p.0 && v[i].1@ == p.1@ {
        let i = choose|i: int| 0 <= i < v.len() && (#[trigger] v[i]).0 == p.0 && v[i].1@ == p.1@;
        assert(market.holds(v[i]));
        assert(v[i].0 == account && v[i].1@ == symbol@ && v[i].2 == q);
    }
}

/// No account's position in a symbol is listed twice.
pub proof fn law_a_position_is_listed_once(
    market: MarketView,
    v: Seq<(AccountId, Symbol, Qty)>,
    n: int,
    i: int,
    j: int,
)
    requires
        market.top(v, n),
        0 <= i < j < v.len(),
    ensures
        v[i].0 != v[j].0 || v[i].1@ != v[j].1@,
{
    lemma_precedes_total(v[i].1@, v[j].1@);
    assert(market.holds(v[i]) && market.holds(v[j]));
}

} // verus!
