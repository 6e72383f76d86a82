//! Conversions between floating-point numbers and ticks, held against the
//! machine's own arithmetic.

use services::double::Double;
use services::engine::types::{ConvertError, Price, Qty};

fn double(x: f64) -> Double {
    Double(x.to_bits())
}

struct Draw(u64);

impl Draw {
    fn bits(&mut self) -> u64 {
        self.0 ^= self.0 << 13;
        self.0 ^= self.0 >> 7;
        self.0 ^= self.0 << 17;
        self.0
    }
}

/// The price and the quantity of a number, held against the machine's.
fn check_ticks(x: f64) {
    let (price, qty) = (Price::from_f64(double(x)), Qty::from_f64(double(x)));
    if !x.is_finite() || x <= 0.0 {
        assert!(matches!(price, Err(ConvertError::BadPrice(y)) if y.0 == x.to_bits()));
        assert!(matches!(qty, Err(ConvertError::BadQuantity(y)) if y.0 == x.to_bits()));
    } else {
        assert_eq!(price, Ok(Price((x * 100.0).round() as i64)), "price {}", x);
        assert_eq!(qty, Ok(Qty((x * 10.0).round() as i64)), "quantity {}", x);
    }
}

#[test]
fn ticks_agree_with_the_machine_on_edge_cases() {
    let cases = [
        0.0,
        -0.0,
        1.0,
        -1.0,
        0.005,
        0.004,
        0.015,
        0.045,
        0.05,
        0.5,
        1.005,
        2.675,
        1e-300,
        5e-324,
        f64::MIN_POSITIVE,
        f64::MAX,
        f64::MIN,
        f64::INFINITY,
        f64::NEG_INFINITY,
        f64::NAN,
        9007199254740991.0,
        9007199254740992.0,
        9007199254740993.0,
        9007199254740994.0,
        92233720368547758.07,
        92233720368547758.0,
        9223372036854775807.0,
        9223372036854775808.0,
        922337203685477580.7,
        1e17,
        1e18,
        1e19,
        1e20,
        35184372088832.33,
        562949953421312.3,
    ];
    for x in cases {
        check_ticks(x);
    }
}

#[test]
fn ticks_agree_with_the_machine_on_any_bits() {
    let mut draw = Draw(0x9E37_79B9_7F4A_7C15);
    for _ in 0..200_000 {
        let x = f64::from_bits(draw.bits());
        check_ticks(x);
    }
}

#[test]
fn ticks_agree_with_the_machine_on_ordinary_magnitudes() {
    let mut draw = Draw(0x1234_5678_9ABC_DEF1);
    for _ in 0..200_000 {
        // Exponents from 2^-20 to 2^70.
        let exponent = 1003 + draw.bits() % 90;
        let x = f64::from_bits((exponent << 52) | (draw.bits() >> 12));
        check_ticks(x);
    }
}

#[test]
fn numbers_agree_with_the_machine_on_any_ticks() {
    let mut draw = Draw(0xDEAD_BEEF_CAFE_F00D);
    let mut cases = vec![
        0,
        1,
        -1,
        99,
        100,
        101,
        i64::MAX,
        i64::MIN,
        i64::MAX - 1,
        1 << 53,
        (1 << 53) + 1,
        (1 << 53) - 1,
        -(1 << 53) - 1,
        (1 << 54) + 2,
        (1 << 54) + 6,
        100 << 45,
    ];
    for _ in 0..200_000 {
        let shift = draw.bits() % 64;
        cases.push((draw.bits() as i64) >> shift);
    }
    for v in cases {
        assert_eq!(Price(v).to_f64().0, (v as f64 / 100.0).to_bits(), "price {}", v);
        assert_eq!(Qty(v).to_f64().0, (v as f64 / 10.0).to_bits(), "quantity {}", v);
    }
}

#[test]
fn every_two_decimal_price_survives_the_round_trip() {
    for cents in 1..=300_000i64 {
        assert_eq!(Price::from_f64(double(cents as f64 / 100.0)), Ok(Price(cents)));
        assert_eq!(Price::from_f64(Price(cents).to_f64()), Ok(Price(cents)));
    }
    let limit = 100i64 << 45;
    for cents in limit - 1000..limit {
        assert_eq!(Price::from_f64(Price(cents).to_f64()), Ok(Price(cents)));
    }
}

#[test]
fn every_one_decimal_quantity_survives_the_round_trip() {
    for tenths in 1..=300_000i64 {
        assert_eq!(Qty::from_f64(double(tenths as f64 / 10.0)), Ok(Qty(tenths)));
        assert_eq!(Qty::from_f64(Qty(tenths).to_f64()), Ok(Qty(tenths)));
    }
    let limit = 10i64 << 49;
    for tenths in limit - 1000..limit {
        assert_eq!(Qty::from_f64(Qty(tenths).to_f64()), Ok(Qty(tenths)));
    }
}

#[test]
fn beyond_that_a_price_can_come_back_as_its_neighbour() {
    // Above 2^45 the numbers lie too far apart for hundredths.
    let start = 100i64 << 45;
    let strays = (start..start + 10_000)
        .filter(|cents| Price::from_f64(Price(*cents).to_f64()) != Ok(Price(*cents)))
        .count();
    assert!(strays > 0);
}

#[test]
fn a_price_below_half_a_tick_is_accepted_as_zero() {
    assert_eq!(Price::from_f64(double(0.001)), Ok(Price(0)));
    assert_eq!(Qty::from_f64(double(0.01)), Ok(Qty(0)));
}

#[test]
fn numbers_compare_as_the_machine_compares_them() {
    let cases = [
        0.0,
        -0.0,
        1.0,
        -1.0,
        5e-324,
        f64::MAX,
        f64::INFINITY,
        f64::NEG_INFINITY,
        f64::NAN,
        -f64::NAN,
        f64::from_bits(0x7ff0_0000_0000_0001),
    ];
    for a in cases {
        assert_eq!(double(a).is_nan(), a.is_nan());
        assert_eq!(double(a).is_zero(), a == 0.0);
        for b in cases {
            assert_eq!(double(a) == double(b), a == b, "{} {}", a, b);
        }
    }
    let nan = ConvertError::BadPrice(double(f64::NAN));
    assert_ne!(nan.clone(), nan);
    assert_eq!(ConvertError::BadPrice(double(0.0)), ConvertError::BadPrice(double(-0.0)));
}
