//! Double-precision numbers, held by their bits.
//!
//! The wire carries prices and quantities as 64-bit floating-point numbers.
//! The engine works in whole ticks, so the only arithmetic that such a number
//! ever sees is a multiplication or a division by a small scale. Both are done
//! here on the bits, in whole numbers, with the rounding that the format
//! prescribes.

use vstd::arithmetic::power2::pow2;
use vstd::prelude::*;

verus! {

/// Two to the 52nd: where the fraction ends and the exponent begins.
pub const FRACTION: u64 = 0x10_0000_0000_0000;

/// Two to the 53rd: significands lie below it.
pub const SIGNIFICAND: u64 = 0x20_0000_0000_0000;

/// Two to the 63rd: the place of the sign.
pub const SIGN: u64 = 0x8000_0000_0000_0000;

/// A double-precision number by its bits.
#[derive(Debug, Clone, Copy)]
pub struct Double(pub u64);

/// Numbers compare as the format has it: the two zeros are equal, and what is
/// not a number is equal to nothing.
impl PartialEq for Double {
    fn eq(&self, other: &Double) -> (r: bool) {
        if self.is_nan() || other.is_nan() {
            false
        } else {
            self.0 == other.0 || (self.is_zero() && other.is_zero())
        }
    }
}

impl vstd::std_specs::cmp::PartialEqSpecImpl for Double {
    open spec fn obeys_eq_spec() -> bool {
        true
    }

    open spec fn eq_spec(&self, other: &Double) -> bool {
        if self.not_a_number() || other.not_a_number() {
            false
        } else {
            self.0 == other.0 || (self.zero() && other.zero())
        }
    }
}

/// The whole number nearest to `n / d`; half-way, the even one.
pub open spec fn half_even(n: nat, d: nat) -> nat {
    let (q, r) = (n / d, n % d);
    if 2 * r < d || (2 * r == d && q % 2 == 0) {
        q
    } else {
        q + 1
    }
}

/// The whole number nearest to `n / d`; half-way, the larger one.
pub open spec fn half_up(n: nat, d: nat) -> nat {
    (2 * n + d) / (2 * d)
}

/// How many of a number's low bits a significand has no room for.
pub open spec fn excess(n: nat) -> nat
    decreases n,
{
    if n < SIGNIFICAND {
        0
    } else {
        1 + excess(n / 2)
    }
}

impl Double {
    pub open spec fn negative(self) -> bool {
        self.0 >= SIGN
    }

    /// The exponent field.
    pub open spec fn field(self) -> int {
        (self.0 as int / FRACTION as int) % 2048
    }

    /// Neither infinite nor not-a-number.
    pub open spec fn finite(self) -> bool {
        self.field() != 2047
    }

    /// The exponent field of an infinity, with a fraction.
    pub open spec fn not_a_number(self) -> bool {
        !self.finite() && self.0 as int % FRACTION as int != 0
    }

    /// Zero, of either sign.
    pub open spec fn zero(self) -> bool {
        self.0 == 0 || self.0 == SIGN
    }

    /// The magnitude is `significand * 2^exponent`.
    pub open spec fn significand(self) -> nat {
        let fraction = self.0 as int % FRACTION as int;
        if self.field() == 0 {
            fraction as nat
        } else {
            (FRACTION + fraction) as nat
        }
    }

    pub open spec fn exponent(self) -> int {
        if self.field() == 0 {
            -1074
        } else {
            self.field() - 1075
        }
    }

    /// Finite and above zero.
    pub open spec fn positive(self) -> bool {
        self.finite() && !self.negative() && self.significand() > 0
    }

    /// How many ticks of one `scale`-th the number is: it is multiplied by the
    /// scale, which keeps as many bits as a significand has, and rounded to the
    /// nearest whole number, half-way away from zero. What does not fit 64 bits
    /// is the most that does.
    pub open spec fn ticks(self, scale: nat) -> int {
        let n = self.significand() * scale;
        let k = excess(n);
        let kept = half_even(n, pow2(k));
        let e = self.exponent() + k;
        let t = if e >= 0 {
            kept * pow2(e as nat)
        } else {
            half_up(kept, pow2((-e) as nat))
        };
        if t > i64::MAX {
            i64::MAX as int
        } else {
            t as int
        }
    }
}

/// What is in excess is just what a significand has no room for.
pub proof fn lemma_excess(n: nat)
    ensures
        n < SIGNIFICAND * pow2(excess(n)),
        excess(n) > 0 ==> FRACTION * pow2(excess(n)) <= n,
        excess(n) == 0 <==> n < SIGNIFICAND,
        pow2(excess(n)) > 0,
    decreases n,
{
    vstd::arithmetic::power2::lemma2_to64();
    vstd::arithmetic::power2::lemma_pow2_pos(excess(n));
    if n >= SIGNIFICAND {
        lemma_excess(n / 2);
        let k = excess(n / 2);
        vstd::arithmetic::power2::lemma_pow2_unfold(k + 1);
        let p = pow2(k);
        assert(n < SIGNIFICAND * (2 * p)) by (nonlinear_arith)
            requires
                n / 2 < SIGNIFICAND * p,
        ;
        assert(FRACTION * (2 * p) <= n) by (nonlinear_arith)
            requires
                FRACTION * p <= n / 2 || (p == 1 && n >= SIGNIFICAND),
        ;
    }
}

/// Two to the `k`.
fn two_to(k: u32) -> (r: u128)
    requires
        k < 128,
    ensures
        r == pow2(k as nat),
        r > 0,
{
    let mut r: u128 = 1;
    let mut i: u32 = 0;
    proof {
        vstd::arithmetic::power2::lemma2_to64();
    }
    while i < k
        invariant
            i <= k < 128,
            r == pow2(i as nat),
        decreases k - i,
    {
        proof {
            vstd::arithmetic::power2::lemma_pow2_unfold(i as nat + 1);
            vstd::arithmetic::power2::lemma2_to64();
            vstd::arithmetic::power2::lemma2_to64_rest();
            vstd::arithmetic::power2::lemma_pow2_adds(63, 64);
            if i < 126 {
                vstd::arithmetic::power2::lemma_pow2_strictly_increases(i as nat, 126);
            }
            vstd::arithmetic::power2::lemma_pow2_adds(62, 64);
        }
        r = r * 2;
        i = i + 1;
    }
    proof {
        vstd::arithmetic::power2::lemma_pow2_pos(k as nat);
    }
    r
}

proof fn lemma_excess_fits(n: u64)
    ensures
        excess(n as nat) <= 11,
{
    lemma_excess(n as nat);
    let k = excess(n as nat);
    if k > 11 {
        vstd::arithmetic::power2::lemma2_to64();
        if k > 12 {
            vstd::arithmetic::power2::lemma_pow2_strictly_increases(12, k);
        }
        assert(FRACTION * pow2(k) >= FRACTION * 4096) by (nonlinear_arith)
            requires
                pow2(k) >= 4096,
        ;
    }
}

fn excess_of(n: u64) -> (k: u32)
    ensures
        k == excess(n as nat),
        k <= 11,
{
    let mut cur: u64 = n;
    let mut k: u32 = 0;
    proof {
        lemma_excess_fits(n);
    }
    while cur >= SIGNIFICAND
        invariant
            excess(n as nat) == k + excess(cur as nat),
            excess(n as nat) <= 11,
        decreases cur,
    {
        cur = cur / 2;
        k = k + 1;
    }
    k
}

fn round_half_even(n: u128, d: u128) -> (r: u128)
    requires
        0 < d,
        d <= 0x1000_0000_0000_0000_0000_0000_0000,
        n <= 0x1000_0000_0000_0000_0000_0000_0000,
    ensures
        r == half_even(n as nat, d as nat),
{
    let q = n / d;
    let r = n % d;
    if 2 * r < d || (2 * r == d && q % 2 == 0) {
        q
    } else {
        proof {
            vstd::arithmetic::div_mod::lemma_div_is_ordered_by_denominator(
                n as int,
                1,
                d as int,
            );
        }
        q + 1
    }
}

proof fn lemma_half_even_near(n: nat, d: nat)
    requires
        d > 0,
    ensures
        2 * (half_even(n, d) * d) <= 2 * n + d,
        2 * n <= 2 * (half_even(n, d) * d) + d,
        n / d <= half_even(n, d) <= n / d + 1,
{
    let (q, r) = (n / d, n % d);
    vstd::arithmetic::div_mod::lemma_fundamental_div_mod(n as int, d as int);
    assert(q * d == d * q) by (nonlinear_arith);
    assert((q + 1) * d == d * q + d) by (nonlinear_arith);
}

/// What is kept of a product fits a significand, or just fills one more bit;
/// a product too long for a significand fills at least one.
pub proof fn lemma_kept(n: nat)
    ensures
        half_even(n, pow2(excess(n))) <= SIGNIFICAND,
        n >= FRACTION ==> half_even(n, pow2(excess(n))) >= FRACTION,
{
    let k = excess(n);
    let p = pow2(k);
    lemma_excess(n);
    lemma_half_even_near(n, p);
    vstd::arithmetic::power2::lemma2_to64();
    let q = n / p;
    vstd::arithmetic::div_mod::lemma_fundamental_div_mod(n as int, p as int);
    assert(q < SIGNIFICAND) by (nonlinear_arith)
        requires
            n == p * q + n % p,
            n < SIGNIFICAND * p,
            p > 0,
            n % p >= 0,
    ;
    if n >= FRACTION {
        assert(q >= FRACTION) by (nonlinear_arith)
            requires
                n == p * q + n % p,
                n % p < p,
                FRACTION * p <= n,
                p > 0,
        ;
    }
}

impl Double {
    /// Whether this is not a number at all.
    pub fn is_nan(self) -> (r: bool)
        ensures
            r == self.not_a_number(),
    {
        (self.0 / FRACTION) % 2048 == 2047 && self.0 % FRACTION != 0
    }

    /// Whether this is zero, of either sign.
    pub fn is_zero(self) -> (r: bool)
        ensures
            r == self.zero(),
    {
        self.0 == 0 || self.0 == SIGN
    }

    /// The whole number of ticks, if the number is finite and above zero.
    pub fn to_ticks(self, scale: u64) -> (r: Option<i64>)
        requires
            0 < scale <= 100,
        ensures
            match r {
                Some(t) => self.positive() && t == self.ticks(scale as nat),
                None => !self.positive(),
            },
    {
        let field = (self.0 / FRACTION) % 2048;
        let fraction = self.0 % FRACTION;
        let significand = if field == 0 { fraction } else { FRACTION + fraction };
        if field == 2047 || self.0 >= SIGN || significand == 0 {
            return None;
        }
        let exponent: i64 = if field == 0 { -1074 } else { field as i64 - 1075 };
        assert(significand * scale <= SIGNIFICAND * 100) by (nonlinear_arith)
            requires
                significand <= SIGNIFICAND,
                scale <= 100,
        ;
        assert(significand * scale >= significand) by (nonlinear_arith)
            requires
                scale >= 1,
        ;
        let n = significand * scale;
        let k = excess_of(n);
        proof {
            lemma_kept(n as nat);
            vstd::arithmetic::power2::lemma2_to64();
            if k < 12 {
                vstd::arithmetic::power2::lemma_pow2_strictly_increases(k as nat, 12);
            }
        }
        let kept = round_half_even(n as u128, two_to(k));
        let e = exponent + k as i64;
        let t: u128 = if e >= 11 {
            proof {
                lemma_large(kept as nat, e as nat);
            }
            return Some(i64::MAX);
        } else if e >= 0 {
            let p = two_to(e as u32);
            proof {
                vstd::arithmetic::power2::lemma_pow2_strictly_increases(e as nat, 11);
                assert(kept * p <= SIGNIFICAND * 2048) by (nonlinear_arith)
                    requires
                        kept <= SIGNIFICAND,
                        p <= 2048,
                ;
            }
            kept * p
        } else if e < -64 {
            proof {
                lemma_small(kept as nat, (-e) as nat);
            }
            0
        } else {
            let p = two_to((-e) as u32);
            proof {
                vstd::arithmetic::power2::lemma2_to64_rest();
                if -e < 64 {
                    vstd::arithmetic::power2::lemma_pow2_strictly_increases((-e) as nat, 64);
                }
            }
            (2 * kept + p) / (2 * p)
        };
        if t > i64::MAX as u128 {
            Some(i64::MAX)
        } else {
            Some(t as i64)
        }
    }
}

proof fn lemma_large(kept: nat, e: nat)
    requires
        kept >= FRACTION,
        e >= 11,
    ensures
        kept * pow2(e) > i64::MAX,
{
    vstd::arithmetic::power2::lemma2_to64();
    if e > 11 {
        vstd::arithmetic::power2::lemma_pow2_strictly_increases(11, e);
    }
    assert(kept * pow2(e) >= FRACTION * 2048) by (nonlinear_arith)
        requires
            kept >= FRACTION,
            pow2(e) >= 2048,
    ;
}

proof fn lemma_small(kept: nat, s: nat)
    requires
        kept <= SIGNIFICAND,
        s > 64,
    ensures
        half_up(kept, pow2(s)) == 0,
{
    vstd::arithmetic::power2::lemma2_to64_rest();
    vstd::arithmetic::power2::lemma_pow2_strictly_increases(64, s);
    vstd::arithmetic::div_mod::lemma_basic_div(
        (2 * kept + pow2(s)) as int,
        (2 * pow2(s)) as int,
    );
}

/// A whole number with no more bits than a significand has.
pub open spec fn kept_bits(a: nat) -> nat {
    half_even(a, pow2(excess(a))) * pow2(excess(a))
}

/// The numerator and the denominator of `a / d` in units of `2^e`.
pub open spec fn in_units(a: nat, d: nat, e: int) -> (nat, nat) {
    if e <= 0 {
        (a * pow2((-e) as nat), d)
    } else {
        (a, d * pow2(e as nat))
    }
}

/// Whether `a / d` lies where significands count units of `2^e`.
pub open spec fn in_binade(a: nat, d: nat, e: int) -> bool {
    let (n, q) = in_units(a, d, e);
    FRACTION * q <= n < SIGNIFICAND * q
}

impl Double {
    /// Whether this is the number whose significand, in units of `2^e`, is
    /// nearest to the magnitude of `v` over `scale`, half-way the even one, and
    /// whose sign is that of `v`. The magnitude is first rounded to as many
    /// bits as a significand has. A quotient that rounds up to the next power of
    /// two carries into the exponent.
    pub open spec fn is_ratio_in(self, v: int, scale: nat, e: int) -> bool {
        let a = kept_bits(if v < 0 {
            (-v) as nat
        } else {
            v as nat
        });
        let (n, q) = in_units(a, scale, e);
        let sign = if v < 0 {
            SIGN as int
        } else {
            0
        };
        in_binade(a, scale, e) && self.0 == sign + (e + 1075) * FRACTION + (half_even(n, q)
            - FRACTION)
    }

    /// Whether this is what dividing the whole number `v` by `scale` gives.
    pub open spec fn is_ratio(self, v: int, scale: nat) -> bool {
        if v == 0 {
            self.0 == 0
        } else {
            exists|e: int| self.is_ratio_in(v, scale, e)
        }
    }

    /// The number nearest to `v / scale`.
    pub fn ratio(v: i64, scale: u64) -> (r: Double)
        requires
            0 < scale <= 100,
        ensures
            r.is_ratio(v as int, scale as nat),
    {
        if v == 0 {
            return Double(0);
        }
        let whole: u64 = if v < 0 { (-(v + 1)) as u64 + 1 } else { v as u64 };
        let k = excess_of(whole);
        proof {
            lemma_kept(whole as nat);
            lemma_excess(whole as nat);
            vstd::arithmetic::power2::lemma2_to64();
            if k < 12 {
                vstd::arithmetic::power2::lemma_pow2_strictly_increases(k as nat, 12);
            }
            assert(half_even(whole as nat, 1) == whole);
        }
        let p = two_to(k);
        let kept = round_half_even(whole as u128, p);
        assert(kept * p <= SIGNIFICAND * 4096) by (nonlinear_arith)
            requires
                kept <= SIGNIFICAND,
                p <= 4096,
        ;
        assert(kept * p >= 1) by (nonlinear_arith)
            requires
                kept >= 1,
                p >= 1,
        ;
        let a: u128 = kept * p;
        let (n, q, e) = to_binade(a, scale as u128);
        let m = round_half_even(n, q);
        proof {
            lemma_binade_kept(n as nat, q as nat);
        }
        let sign: u64 = if v < 0 { SIGN } else { 0 };
        let r = Double(sign + (e + 1075) as u64 * FRACTION + (m as u64 - FRACTION));
        assert(r.is_ratio_in(v as int, scale as nat, e as int));
        r
    }
}

/// A quotient in its binade rounds to a significand, or to the next power of
/// two.
proof fn lemma_binade_kept(n: nat, q: nat)
    requires
        q > 0,
        FRACTION * q <= n < SIGNIFICAND * q,
    ensures
        FRACTION <= half_even(n, q) <= SIGNIFICAND,
{
    lemma_half_even_near(n, q);
    let w = n / q;
    vstd::arithmetic::div_mod::lemma_fundamental_div_mod(n as int, q as int);
    assert(FRACTION <= w < SIGNIFICAND) by (nonlinear_arith)
        requires
            n == q * w + n % q,
            0 <= n % q < q,
            FRACTION * q <= n < SIGNIFICAND * q,
            q > 0,
    ;
}

/// Brings `a / d` to where significands count its units.
fn to_binade(a: u128, d: u128) -> (r: (u128, u128, i32))
    requires
        1 <= a <= SIGNIFICAND * 4096,
        0 < d <= 100,
    ensures
        (r.0 as nat, r.1 as nat) == in_units(a as nat, d as nat, r.2 as int),
        in_binade(a as nat, d as nat, r.2 as int),
        0 < r.1 <= 0x1_0000_0000_0000,
        r.0 <= 0x1_0000_0000_0000_0000_0000,
        -100 <= r.2 <= 100,
{
    let mut n: u128 = a;
    let mut e: i32 = 0;
    let least: u128 = FRACTION as u128 * d;
    proof {
        vstd::arithmetic::power2::lemma2_to64();
        assert(SIGNIFICAND * d == 2 * least) by (nonlinear_arith)
            requires
                least == FRACTION * d,
        ;
    }
    if n < least {
        while n < least
            invariant
                0 < least <= 0x1000_0000_0000_0000,
                1 <= a,
                -64 <= e <= 0,
                n == a * pow2((-e) as nat),
                1 <= n < 2 * least,
                n >= pow2((-e) as nat),
            decreases 2 * least - n,
        {
            proof {
                let s = (-e) as nat;
                vstd::arithmetic::power2::lemma_pow2_unfold(s + 1);
                assert(a * (2 * pow2(s)) == 2 * (a * pow2(s))) by (nonlinear_arith);
                vstd::arithmetic::power2::lemma2_to64_rest();
                if s == 64 {
                    assert(pow2(64) > 0x1000_0000_0000_0000);
                }
            }
            n = n * 2;
            e = e - 1;
        }
        return (n, d, e);
    }
    let mut q: u128 = d;
    let mut most: u128 = 2 * least;
    while n >= most
        invariant
            most == SIGNIFICAND * q,
            0 < d <= 100,
            n == a,
            n <= SIGNIFICAND * 4096,
            0 <= e <= 13,
            q == d * pow2(e as nat),
            pow2(e as nat) <= q <= 8192,
            q > 0,
            FRACTION * q <= n,
        decreases 8192 - q,
    {
        proof {
            vstd::arithmetic::power2::lemma_pow2_unfold(e as nat + 1);
            assert(d * (2 * pow2(e as nat)) == 2 * (d * pow2(e as nat))) by (nonlinear_arith);
            vstd::arithmetic::power2::lemma2_to64();
            assert(q <= 4096) by (nonlinear_arith)
                requires
                    SIGNIFICAND * q <= n,
                    n <= SIGNIFICAND * 4096,
            ;
            assert(FRACTION * (2 * q) == SIGNIFICAND * q) by (nonlinear_arith);
            assert(SIGNIFICAND * (2 * q) == 2 * (SIGNIFICAND * q)) by (nonlinear_arith);
            if e == 13 {
                assert(pow2(13) == 8192);
            }
        }
        q = q * 2;
        most = most * 2;
        e = e + 1;
    }
    assert(a * pow2(0) == a);
    assert(d * pow2(0) == d);
    (n, q, e)
}

/// A number within half a unit of `k` ticks, in units fine enough that neither
/// the product nor its rounding can stray half a tick, is `k` ticks.
proof fn lemma_near_ticks(x: Double, scale: nat, k: nat)
    requires
        x.positive(),
        0 < scale <= 100,
        x.exponent() < 0,
        ({
            let n = x.significand() * scale;
            let s = pow2((-x.exponent()) as nat);
            &&& 2 * n <= 2 * (k * s) + scale
            &&& 2 * (k * s) <= 2 * n + scale
            &&& scale + pow2(excess(n)) < s
        }),
    ensures
        x.ticks(scale) == k,
{
    let n = x.significand() * scale;
    let kk = excess(n);
    let s = (-x.exponent()) as nat;
    let p = pow2(kk);
    let r = half_even(n, p);
    lemma_excess(n);
    lemma_half_even_near(n, p);
    if kk >= s {
        if kk > s {
            vstd::arithmetic::power2::lemma_pow2_strictly_increases(s, kk);
        }
    }
    let q = pow2((s - kk) as nat);
    vstd::arithmetic::power2::lemma_pow2_adds(kk, (s - kk) as nat);
    vstd::arithmetic::power2::lemma_pow2_pos((s - kk) as nat);
    assert(k * (p * q) == (k * q) * p) by (nonlinear_arith);
    // Twice the distance from the kept product to `k` ticks is below a tick.
    assert(2 * (k * q) <= 2 * r + q && 2 * r + q < 2 * (k * q) + 2 * q) by (nonlinear_arith)
        requires
            p > 0,
            2 * (r * p) < 2 * ((k * q) * p) + p * q,
            2 * ((k * q) * p) < 2 * (r * p) + p * q,
    ;
    assert(2 * (k * q) == (2 * q) * k) by (nonlinear_arith);
    vstd::arithmetic::div_mod::lemma_fundamental_div_mod_converse(
        (2 * r + q) as int,
        (2 * q) as int,
        k as int,
        2 * r + q - (2 * q) * k,
    );
    assert(x.significand() * scale <= SIGNIFICAND * 100) by (nonlinear_arith)
        requires
            x.significand() <= SIGNIFICAND,
            scale <= 100,
    ;
    assert(k <= k * pow2(s)) by (nonlinear_arith)
        requires
            pow2(s) >= 1,
    ;
}

/// How many bits a product by a scale can have too many.
proof fn lemma_excess_of_product(m: nat, scale: nat)
    requires
        m < SIGNIFICAND,
        scale == 100 || scale == 10,
    ensures
        scale == 100 ==> pow2(excess(m * scale)) <= 128,
        scale == 10 ==> excess(m * scale) <= 4,
        scale == 10 && m >= FRACTION ==> excess(m * scale) >= 3,
{
    let n = m * scale;
    let k = excess(n);
    lemma_excess(n);
    vstd::arithmetic::power2::lemma2_to64();
    if k > 0 {
        assert(pow2(k) < 2 * scale) by (nonlinear_arith)
            requires
                FRACTION * pow2(k) <= m * scale,
                m < SIGNIFICAND,
                scale > 0,
        ;
    }
    if k > 8 {
        vstd::arithmetic::power2::lemma_pow2_strictly_increases(8, k);
    }
    if scale == 10 && k > 5 {
        vstd::arithmetic::power2::lemma_pow2_strictly_increases(5, k);
    }
    if scale == 10 && m >= FRACTION && k < 3 {
        assert(pow2(k) <= 4) by {
            if k < 2 {
                vstd::arithmetic::power2::lemma_pow2_strictly_increases(k, 2);
            }
        }
        assert(SIGNIFICAND * pow2(k) <= SIGNIFICAND * 4) by (nonlinear_arith)
            requires
                pow2(k) <= 4,
        ;
    }
}

/// Two decimals convert without loss: the number nearest to a count of
/// hundredths is that count of ticks of a hundredth. From about 2^45 upwards
/// the numbers lie too far apart for that.
pub proof fn law_two_decimals_convert_without_loss(x: Double, cents: nat)
    requires
        x.positive(),
        x.exponent() <= -8,
        ({
            let n = x.significand() * 100;
            let s = pow2((-x.exponent()) as nat);
            2 * n <= 2 * (cents * s) + 100 && 2 * (cents * s) <= 2 * n + 100
        }),
    ensures
        x.ticks(100) == cents,
{
    let s = (-x.exponent()) as nat;
    vstd::arithmetic::power2::lemma2_to64();
    if s > 8 {
        vstd::arithmetic::power2::lemma_pow2_strictly_increases(8, s);
    }
    lemma_excess_of_product(x.significand(), 100);
    lemma_near_ticks(x, 100, cents);
}

/// One decimal converts without loss: the number nearest to a count of tenths
/// is that count of ticks of a tenth. From about 2^49 upwards the numbers lie
/// too far apart for that.
pub proof fn law_one_decimal_converts_without_loss(x: Double, tenths: nat)
    requires
        x.positive(),
        x.exponent() <= -4,
        ({
            let n = x.significand() * 10;
            let s = pow2((-x.exponent()) as nat);
            2 * n <= 2 * (tenths * s) + 10 && 2 * (tenths * s) <= 2 * n + 10
        }),
    ensures
        x.ticks(10) == tenths,
{
    let s = (-x.exponent()) as nat;
    vstd::arithmetic::power2::lemma2_to64();
    lemma_excess_of_product(x.significand(), 10);
    let n = x.significand() * 10;
    let k = excess(n);
    if s > 4 {
        if s > 5 {
            vstd::arithmetic::power2::lemma_pow2_strictly_increases(5, s);
        }
        if k < 4 {
            vstd::arithmetic::power2::lemma_pow2_strictly_increases(k, 4);
        }
        lemma_near_ticks(x, 10, tenths);
    } else {
        let d = n - 16 * tenths;
        assert(tenths * pow2(s) == 16 * tenths) by (nonlinear_arith)
            requires
                pow2(s) == 16,
        ;
        assert(-4 <= d <= 4 && d % 2 == 0);
        let (p, t) = if k == 3 {
            (8int, 2 * tenths as int)
        } else {
            (16int, tenths as int)
        };
        let (q, r) = if d < 0 {
            (t - 1, p + d)
        } else {
            (t, d)
        };
        assert(n == q * p + r) by (nonlinear_arith)
            requires
                p == 8 || p == 16,
                p * t == 16 * tenths,
                d == n - 16 * tenths,
                (q == t - 1 && r == p + d) || (q == t && r == d),
        ;
        vstd::arithmetic::div_mod::lemma_fundamental_div_mod_converse(n as int, p, q, r);
        assert(half_even(n, pow2(k)) == t);
        if k == 3 {
            vstd::arithmetic::div_mod::lemma_fundamental_div_mod_converse(
                2 * t + 2,
                4,
                tenths as int,
                2,
            );
            assert(half_up(t as nat, pow2(1)) == tenths);
        } else {
            assert(t * pow2(0) == t) by (nonlinear_arith)
                requires
                    pow2(0) == 1,
            ;
        }
    }
}

proof fn lemma_short_numbers_are_kept(v: nat)
    requires
        v < SIGNIFICAND,
    ensures
        kept_bits(v) == v,
{
    vstd::arithmetic::power2::lemma2_to64();
    assert(v == v * 1 + 0);
    vstd::arithmetic::div_mod::lemma_fundamental_div_mod_converse(v as int, 1, v as int, 0);
    assert(half_even(v, 1) == v);
    assert(v * pow2(0) == v) by (nonlinear_arith)
        requires
            pow2(0) == 1,
    ;
}

/// The parts of a ratio of a whole number that a significand can hold.
proof fn lemma_ratio_parts(x: Double, v: nat, scale: nat, e: int)
    requires
        0 < v < SIGNIFICAND,
        0 < scale <= 100,
        -1074 <= e < 900,
        x.is_ratio_in(v as int, scale, e),
    ensures
        ({
            let (n, q) = in_units(v, scale, e);
            let m = half_even(n, q);
            &&& x.positive()
            &&& FRACTION * q <= n < SIGNIFICAND * q
            &&& m < SIGNIFICAND ==> x.significand() == m && x.exponent() == e
            &&& m == SIGNIFICAND ==> x.significand() == FRACTION && x.exponent() == e + 1
            &&& FRACTION <= m <= SIGNIFICAND
        }),
{
    lemma_short_numbers_are_kept(v);
    let (n, q) = in_units(v, scale, e);
    assert(q > 0) by {
        if e > 0 {
            vstd::arithmetic::power2::lemma_pow2_pos(e as nat);
            assert(scale * pow2(e as nat) > 0) by (nonlinear_arith)
                requires
                    scale > 0,
                    pow2(e as nat) > 0,
            ;
        }
    }
    lemma_binade_kept(n, q);
}

/// The distance from a ratio's exact value, in units of its exponent.
proof fn lemma_ratio_near(x: Double, v: nat, scale: nat, e: int)
    requires
        0 < v < SIGNIFICAND,
        scale == 100 || scale == 10,
        -1074 <= e < 0,
        x.is_ratio_in(v as int, scale, e),
    ensures
        x.positive(),
        ({
            let n = x.significand() * scale;
            let s = pow2((-x.exponent()) as nat);
            &&& 2 * n <= 2 * (v * s) + scale
            &&& 2 * (v * s) <= 2 * n + scale
        }),
{
    lemma_ratio_parts(x, v, scale, e);
    let (n, q) = in_units(v, scale, e);
    lemma_half_even_near(n, q);
    if half_even(n, q) == SIGNIFICAND {
        vstd::arithmetic::power2::lemma_pow2_unfold((-e) as nat);
        let h = pow2((-e - 1) as nat);
        assert(v * (2 * h) == 2 * (v * h)) by (nonlinear_arith);
    }
}

/// Which units a ratio below `scale * 2^b` is counted in.
proof fn lemma_ratio_units(v: nat, scale: nat, e: int, b: nat)
    requires
        0 < v,
        scale > 0,
        b < 52,
        v < scale * pow2(b),
        in_binade(v, scale, e),
    ensures
        e < b - 52,
{
    let (n, q) = in_units(v, scale, e);
    vstd::arithmetic::power2::lemma2_to64_rest();
    vstd::arithmetic::power2::lemma_pow2_strictly_increases(b, 52);
    vstd::arithmetic::power2::lemma_pow2_adds(b, (52 - b) as nat);
    if e > 0 {
        vstd::arithmetic::power2::lemma_pow2_pos(e as nat);
        assert(false) by (nonlinear_arith)
            requires
                FRACTION * (scale * pow2(e as nat)) <= v,
                v < scale * pow2(b),
                pow2(b) < FRACTION,
                pow2(e as nat) >= 1,
                scale > 0,
        ;
    } else if e >= b - 52 {
        let s = (-e) as nat;
        vstd::arithmetic::power2::lemma_pow2_pos(s);
        if s < (52 - b) as nat {
            vstd::arithmetic::power2::lemma_pow2_strictly_increases(s, (52 - b) as nat);
        }
        assert(false) by (nonlinear_arith)
            requires
                FRACTION * scale <= v * pow2(s),
                v < scale * pow2(b),
                pow2(s) <= pow2((52 - b) as nat),
                pow2(b) * pow2((52 - b) as nat) == FRACTION,
                pow2(s) > 0,
                scale > 0,
        ;
    }
}

/// A ratio below `scale * 2^b` is near its exact value, and its units are
/// finer than `2^(b - 52)`, or no coarser than that without a carry.
proof fn lemma_ratio_trip(x: Double, v: nat, scale: nat, e: int, b: nat)
    requires
        (scale == 100 && b == 45) || (scale == 10 && b == 49),
        0 < v < scale * pow2(b),
        x.is_ratio_in(v as int, scale, e),
    ensures
        x.positive(),
        x.exponent() <= b - 53,
        ({
            let n = x.significand() * scale;
            let s = pow2((-x.exponent()) as nat);
            &&& 2 * n <= 2 * (v * s) + scale
            &&& 2 * (v * s) <= 2 * n + scale
        }),
{
    vstd::arithmetic::power2::lemma2_to64();
    vstd::arithmetic::power2::lemma2_to64_rest();
    lemma_short_numbers_are_kept(v);
    lemma_ratio_units(v, scale, e, b);
    lemma_units_not_finer(v, scale, e);
    lemma_ratio_parts(x, v, scale, e);
    lemma_ratio_near(x, v, scale, e);
    let (n, q) = in_units(v, scale, e);
    lemma_half_even_near(n, q);
    if e == b - 53 && half_even(n, q) == SIGNIFICAND {
        // The largest tick below the bound lies more than half a unit under
        // the next power of two.
        let u = pow2((53 - b) as nat);
        assert((scale == 100 && u == 256) || (scale == 10 && u == 16));
        assert(false) by (nonlinear_arith)
            requires
                (scale == 100 && u == 256 && v < 100 * 0x2000_0000_0000) || (scale == 10 && u == 16
                    && v < 10 * 0x2_0000_0000_0000),
                2 * (SIGNIFICAND * scale) <= 2 * (v * u) + scale,
        ;
    }
}

/// No whole number over a scale is counted in units finer than that.
proof fn lemma_units_not_finer(v: nat, scale: nat, e: int)
    requires
        0 < v,
        0 < scale <= 100,
        in_binade(v, scale, e),
    ensures
        e >= -60,
{
    if e < -60 {
        let s = (-e) as nat;
        vstd::arithmetic::power2::lemma2_to64_rest();
        vstd::arithmetic::power2::lemma_pow2_strictly_increases(60, s);
        assert(false) by (nonlinear_arith)
            requires
                v * pow2(s) < SIGNIFICAND * scale,
                pow2(s) >= SIGNIFICAND * 128,
                v >= 1,
                scale <= 100,
        ;
    }
}

/// A price survives the way to a floating-point number and back: no two
/// prices below 2^45 units come out as the same number.
pub proof fn law_a_price_survives_the_round_trip(x: Double, cents: nat)
    requires
        0 < cents < 100 * pow2(45),
        x.is_ratio(cents as int, 100),
    ensures
        x.positive(),
        x.ticks(100) == cents,
{
    vstd::arithmetic::power2::lemma2_to64();
    vstd::arithmetic::power2::lemma2_to64_rest();
    let e = choose|e: int| x.is_ratio_in(cents as int, 100, e);
    lemma_ratio_trip(x, cents, 100, e, 45);
    law_two_decimals_convert_without_loss(x, cents);
}

/// A quantity survives the way to a floating-point number and back, below
/// 2^49 units.
pub proof fn law_a_quantity_survives_the_round_trip(x: Double, tenths: nat)
    requires
        0 < tenths < 10 * pow2(49),
        x.is_ratio(tenths as int, 10),
    ensures
        x.positive(),
        x.ticks(10) == tenths,
{
    vstd::arithmetic::power2::lemma2_to64();
    vstd::arithmetic::power2::lemma2_to64_rest();
    let e = choose|e: int| x.is_ratio_in(tenths as int, 10, e);
    lemma_ratio_trip(x, tenths, 10, e, 49);
    law_one_decimal_converts_without_loss(x, tenths);
}

} // verus!
