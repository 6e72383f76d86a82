//! Writing numbers and filling columns.

use services::engine::text::{
    align_left, align_right, comes_before, dashes, double_dashes, fixed_point, number, same,
};
use services::engine::types::{Price, Qty};

#[test]
fn numbers_are_written_in_decimal() {
    for n in [0u128, 1, 9, 10, 99, 100, 12345, u64::MAX as u128, u128::MAX] {
        assert_eq!(number(n), n.to_string());
    }
}

#[test]
fn ticks_are_written_with_their_sign_and_decimals() {
    assert_eq!(fixed_point(0, 100, 2), "0.00");
    assert_eq!(fixed_point(7, 100, 2), "0.07");
    assert_eq!(fixed_point(-7, 100, 2), "-0.07");
    assert_eq!(fixed_point(-12345, 100, 2), "-123.45");
    assert_eq!(Price(i64::MIN).to_string(), "-92233720368547758.08");
    assert_eq!(Price(i64::MAX).to_string(), "92233720368547758.07");
    assert_eq!(Qty(i64::MIN).to_string(), "-922337203685477580.8");
    assert_eq!(
        fixed_point(i128::MIN, 10, 1),
        "-17014118346046923173168730371588410572.8"
    );
}

#[test]
fn the_sign_is_kept_on_every_small_value() {
    for v in -250..250i64 {
        assert_eq!(Qty(v).to_string().starts_with('-'), v < 0);
        assert_eq!(Price(v).to_string().starts_with('-'), v < 0);
    }
}

#[test]
fn columns_are_filled_but_never_cut() {
    for s in ["", "a", "abc", "abcdef", "déjà vu"] {
        for width in 0..10usize {
            assert_eq!(align_right(s, width), format!("{:>w$}", s, w = width));
            assert_eq!(align_left(s, width), format!("{:<w$}", s, w = width));
        }
    }
}

#[test]
fn rules_are_as_long_as_asked() {
    assert_eq!(dashes(84), "-".repeat(84));
    assert_eq!(double_dashes(3), "===");
    assert_eq!(dashes(0), "");
}

#[test]
fn text_compares_by_its_characters() {
    let words = ["", "A", "B", "BTC", "BTC-USDC", "ETH-USDC", "NEX-USDC", "b", "é", "日本"];
    for a in words {
        for b in words {
            assert_eq!(same(a, b), a == b, "{} {}", a, b);
            assert_eq!(comes_before(a, b), a < b, "{} {}", a, b);
        }
    }
}
