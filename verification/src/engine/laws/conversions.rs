//! What becomes of the numbers and names on the wire.

use crate::double::{excess, half_even, half_up, Double, FRACTION, SIGN, SIGNIFICAND};
use crate::engine::types::{converts, ConvertError, Event};
use crate::feed::{listed, OrderMessage};
use vstd::arithmetic::power2::pow2;
use vstd::prelude::*;
use vstd::std_specs::cmp::PartialEqSpec;

verus! {

/// The bits of infinity, which are above those of every finite number.
pub const INFINITY: u64 = 0x7ff0_0000_0000_0000;

/// A number is above zero and finite exactly when its bits lie between those
/// of zero and those of infinity; and it is not a number when they lie beyond
/// infinity, whatever the sign.
pub proof fn law_the_bits_tell_what_a_number_is(x: Double)
    ensures
        x.positive() <==> 0 < x.0 < INFINITY,
        x.not_a_number() <==> (INFINITY < x.0 < SIGN || SIGN + INFINITY < x.0),
        x.zero() <==> x.0 == 0 || x.0 == SIGN,
        x.negative() <==> x.0 >= SIGN,
{
    let n = x.0 as int;
    let f = FRACTION as int;
    let (q, r) = (n / f, n % f);
    assert(n == f * q + r && 0 <= r < f && 0 <= q < 4096);
    assert(q % 2048 == (if q < 2048 {
        q
    } else {
        q - 2048
    }));
}

/// Rounding goes to the nearest whole number. Half-way it goes to the even one
/// of the two, or to the larger one.
pub proof fn law_rounding_goes_to_the_nearest(n: nat, d: nat)
    requires
        d > 0,
    ensures
        2 * n - d <= 2 * (d * half_even(n, d)) <= 2 * n + d,
        2 * (d * half_even(n, d)) == 2 * n - d || 2 * (d * half_even(n, d)) == 2 * n + d
            ==> half_even(n, d) % 2 == 0,
        2 * n - d < 2 * (d * half_up(n, d)) <= 2 * n + d,
{
    let (q, r) = (n / d, n % d);
    vstd::arithmetic::div_mod::lemma_fundamental_div_mod(n as int, d as int);
    vstd::arithmetic::div_mod::lemma_mod_bound(n as int, d as int);
    assert(d * (q + 1) == d * q + d) by (nonlinear_arith);
    let (m, w) = (2 * n + d, 2 * d);
    let h = m / w;
    vstd::arithmetic::div_mod::lemma_fundamental_div_mod(m as int, w as int);
    vstd::arithmetic::div_mod::lemma_mod_bound(m as int, w as int);
    assert(w * h == 2 * (d * h)) by (nonlinear_arith)
        requires
            w == 2 * d,
    ;
}

/// How a number becomes ticks. Its product with the scale is rounded to as
/// many bits as a significand has, half-way to the even one; what that stands
/// for is rounded to the nearest whole number, half-way to the larger, and the
/// most that fits 64 bits is given for anything above it.
pub proof fn law_ticks_are_the_nearest(x: Double, scale: nat) -> (r: (nat, nat))
    requires
        x.positive(),
        0 < scale <= 100,
    ensures
        ({
            let (kept, k) = r;
            let n = x.significand() * scale;
            let e = x.exponent() + k;
            let t = x.ticks(scale);
            &&& n < SIGNIFICAND * pow2(k)
            &&& k > 0 ==> FRACTION * pow2(k) <= n
            &&& kept <= SIGNIFICAND
            &&& 2 * n - pow2(k) <= 2 * (pow2(k) * kept) <= 2 * n + pow2(k)
            &&& 2 * (pow2(k) * kept) == 2 * n - pow2(k) || 2 * (pow2(k) * kept) == 2 * n + pow2(k)
                ==> kept % 2 == 0
            &&& e >= 0 && kept * pow2(e as nat) <= i64::MAX ==> t == kept * pow2(e as nat)
            &&& e >= 0 && kept * pow2(e as nat) > i64::MAX ==> t == i64::MAX
            &&& e < 0 ==> 2 * kept - pow2((-e) as nat) < 2 * (pow2((-e) as nat) * t) <= 2 * kept
                + pow2((-e) as nat)
        }),
{
    let n = x.significand() * scale;
    let k = excess(n);
    let kept = half_even(n, pow2(k));
    let e = x.exponent() + k;
    crate::double::lemma_excess(n);
    crate::double::lemma_kept(n);
    law_rounding_goes_to_the_nearest(n, pow2(k));
    if e < 0 {
        let d = pow2((-e) as nat);
        vstd::arithmetic::power2::lemma_pow2_pos((-e) as nat);
        law_rounding_goes_to_the_nearest(kept, d);
        let h = half_up(kept, d);
        assert(h <= i64::MAX) by (nonlinear_arith)
            requires
                2 * (d * h) <= 2 * kept + d,
                kept <= SIGNIFICAND,
                d >= 1,
                h >= 0,
        ;
    }
    (kept, k)
}

/// A quotient below zero has the bits of the one above zero and the sign, and
/// nothing over a scale is zero.
pub proof fn law_a_negative_ratio_only_adds_the_sign(x: Double, v: int, scale: nat)
    requires
        v > 0,
        x.is_ratio(v, scale),
        x.0 < SIGN,
    ensures
        Double((x.0 + SIGN) as u64).is_ratio(-v, scale),
        Double(0).is_ratio(0, scale),
        forall|y: Double| #[trigger] y.is_ratio(0, scale) ==> y.0 == 0,
{
    let e = choose|e: int| x.is_ratio_in(v, scale, e);
    assert(Double((x.0 + SIGN) as u64).is_ratio_in(-v, scale, e));
}

/// Numbers compare as the format has it: equal bits are equal, and so are the
/// two zeros; what is not a number is equal to nothing, not even to itself.
pub proof fn law_numbers_compare_as_the_format_has_it(x: Double, y: Double)
    ensures
        x.eq_spec(&y) <==> {
            &&& x.0 <= INFINITY || SIGN <= x.0 <= SIGN + INFINITY
            &&& y.0 <= INFINITY || SIGN <= y.0 <= SIGN + INFINITY
            &&& x.0 == y.0 || ((x.0 == 0 || x.0 == SIGN) && (y.0 == 0 || y.0 == SIGN))
        },
{
    law_the_bits_tell_what_a_number_is(x);
    law_the_bits_tell_what_a_number_is(y);
}

/// How a count of ticks becomes a number. The count is rounded to as many bits
/// as a significand has, and its quotient by the scale, in units of a power of
/// two in which it has that many bits, to the nearest whole number; half-way
/// both go to the even one. That is the significand, and the power its exponent.
pub proof fn law_a_ratio_is_the_nearest(x: Double, v: nat, scale: nat) -> (r: (
    nat,
    nat,
    nat,
    int,
))
    requires
        v > 0,
        scale > 0,
        x.is_ratio(v as int, scale),
    ensures
        ({
            let (a, k, m, e) = r;
            let (n, q) = if e <= 0 {
                (a * pow2(k) * pow2((-e) as nat), scale)
            } else {
                (a * pow2(k), scale * pow2(e as nat))
            };
            &&& v < SIGNIFICAND * pow2(k)
            &&& k > 0 ==> FRACTION * pow2(k) <= v
            &&& 2 * v - pow2(k) <= 2 * (pow2(k) * a) <= 2 * v + pow2(k)
            &&& FRACTION * q <= n < SIGNIFICAND * q
            &&& 2 * n - q <= 2 * (q * m) <= 2 * n + q
            &&& 2 * (q * m) == 2 * n - q || 2 * (q * m) == 2 * n + q ==> m % 2 == 0
            &&& x.0 == (e + 1075) * FRACTION + (m - FRACTION)
        }),
{
    let e = choose|e: int| x.is_ratio_in(v as int, scale, e);
    let k = excess(v);
    let a = half_even(v, pow2(k));
    crate::double::lemma_excess(v);
    law_rounding_goes_to_the_nearest(v, pow2(k));
    let (n, q) = crate::double::in_units(a * pow2(k), scale, e);
    if e > 0 {
        vstd::arithmetic::power2::lemma_pow2_pos(e as nat);
        vstd::arithmetic::mul::lemma_mul_strictly_positive(scale as int, pow2(e as nat) as int);
    }
    law_rounding_goes_to_the_nearest(n, q);
    (a, k, half_even(n, q), e)
}

/// The feed lists three pairs, and no other name is a symbol.
pub proof fn law_three_pairs_are_listed(name: Seq<char>)
    ensures
        listed("NEX-USDC"@),
        listed("ETH-USDC"@),
        listed("BTC-USDC"@),
        listed(name) ==> name == "NEX-USDC"@ || name == "ETH-USDC"@ || name == "BTC-USDC"@,
{
}

/// A new order converts exactly when its symbol is listed and its price and
/// quantity are finite and above zero. It keeps its id, account, symbol and
/// side, with the price in cents and the quantity in tenths. Else the error
/// names the first of symbol, price and quantity that does not do.
pub proof fn law_a_new_order_converts_if_it_is_sound(
    msg: OrderMessage,
    r: Result<Event, ConvertError>,
)
    requires
        converts(msg, r),
    ensures
        match msg {
            OrderMessage::New { id, account, symbol, side, price, quantity, .. } => {
                let known = listed(symbol@);
                let priced = 0 < price.0 < INFINITY;
                let sized = 0 < quantity.0 < INFINITY;
                &&& r is Ok <==> known && priced && sized
                &&& match r {
                    Ok(Event::New { symbol: pair, order }) => {
                        &&& pair@ == symbol@
                        &&& order.id == id
                        &&& order.account == account
                        &&& order.side == side
                        &&& order.price.0 == price.ticks(100)
                        &&& order.qty.0 == quantity.ticks(10)
                    },
                    Ok(Event::Cancel { .. }) => false,
                    Err(ConvertError::UnknownSymbol(s)) => !known && s@ == symbol@,
                    Err(ConvertError::BadPrice(x)) => known && !priced && x == price,
                    Err(ConvertError::BadQuantity(x)) => known && priced && !sized && x == quantity,
                }
            },
            OrderMessage::Cancel { .. } => true,
        },
{
    match msg {
        OrderMessage::New { price, quantity, .. } => {
            law_the_bits_tell_what_a_number_is(price);
            law_the_bits_tell_what_a_number_is(quantity);
        },
        OrderMessage::Cancel { .. } => {},
    }
}

/// A cancel always converts, and keeps its id, account and target.
pub proof fn law_a_cancel_always_converts(msg: OrderMessage, r: Result<Event, ConvertError>)
    requires
        converts(msg, r),
        msg is Cancel,
    ensures
        match (msg, r) {
            (
                OrderMessage::Cancel { id, account, target_id, .. },
                Ok(Event::Cancel { seq, account: sender, target_id: target }),
            ) => seq == id && sender == account && target == target_id,
            _ => false,
        },
{
}

/// What an error says: the symbol in quotes, or the number as it is shown.
pub proof fn law_an_error_says_what_is_wrong(s: String, x: Double, shown: Seq<char>)
    ensures
        ConvertError::UnknownSymbol(s).reason(shown) == "unknown symbol '"@ + s@ + "'"@,
        ConvertError::BadPrice(x).reason(shown) == "invalid price "@ + shown,
        ConvertError::BadQuantity(x).reason(shown) == "invalid quantity "@ + shown,
{
}

} // verus!
