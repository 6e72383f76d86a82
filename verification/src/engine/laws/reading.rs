//! What is printed reads back as what it stands for.

use crate::engine::text::{
    at_left, at_right, decimal, digit, fixed, lemma_decimal_is_digits,
    precedes, run_of,
};
use crate::engine::types::{price_text, qty_text, Price};
use vstd::prelude::*;

verus! {

/// Whether a character is a decimal digit.
pub open spec fn is_digit(c: char) -> bool {
    '0' as int <= c as int <= '9' as int
}

/// The number that a string of digits stands for. Points in between do not
/// count, so that an amount reads as so many of its last decimal.
pub open spec fn digits_read(s: Seq<char>) -> int
    decreases s.len(),
{
    if s.len() == 0 {
        0
    } else if s.last() == '.' {
        digits_read(s.drop_last())
    } else {
        10 * digits_read(s.drop_last()) + (s.last() as int - '0' as int)
    }
}

/// The number in a column: blanks in front are skipped, and a minus sign
/// makes it negative.
pub open spec fn amount_read(s: Seq<char>) -> int
    decreases s.len(),
{
    if s.len() == 0 {
        0
    } else if s[0] == ' ' {
        amount_read(s.drop_first())
    } else if s[0] == '-' {
        -digits_read(s.drop_first())
    } else {
        digits_read(s)
    }
}

/// Whether a string is a run of digits, with no zero in front of others.
pub open spec fn is_count(s: Seq<char>) -> bool {
    &&& s.len() > 0
    &&& forall|i: int| 0 <= i < s.len() ==> is_digit(#[trigger] s[i])
    &&& s.len() > 1 ==> s[0] != '0'
}

/// Whether a string is an amount with so many decimals: a minus sign if it is
/// negative, at least one digit, a point, and then the decimals.
pub open spec fn is_amount(s: Seq<char>, decimals: int) -> bool {
    let sign: int = if s.len() > 0 && s[0] == '-' {
        1
    } else {
        0
    };
    let point = s.len() - decimals - 1;
    &&& point > sign
    &&& s[point] == '.'
    &&& forall|i: int| sign <= i < s.len() && i != point ==> is_digit(#[trigger] s[i])
    &&& point > sign + 1 ==> s[sign] != '0'
}

/// Blanks, and then `s`, in a column `width` wide or as long as `s`.
pub open spec fn is_flush_right(column: Seq<char>, s: Seq<char>, width: int) -> bool {
    let blanks = column.len() - s.len();
    &&& column.len() == (if s.len() < width {
        width
    } else {
        s.len() as int
    })
    &&& forall|i: int| 0 <= i < blanks ==> #[trigger] column[i] == ' '
    &&& column.skip(blanks) == s
}

/// `s`, and then blanks, in a column `width` wide or as long as `s`.
pub open spec fn is_flush_left(column: Seq<char>, s: Seq<char>, width: int) -> bool {
    &&& column.len() == (if s.len() < width {
        width
    } else {
        s.len() as int
    })
    &&& forall|i: int| s.len() <= i < column.len() ==> #[trigger] column[i] == ' '
    &&& column.take(s.len() as int) == s
}

/// A number in decimal reads back as the number, and has no zeros in front.
pub proof fn law_a_number_reads_back(n: nat)
    ensures
        is_count(decimal(n)),
        digits_read(decimal(n)) == n,
        n > 0 ==> decimal(n)[0] != '0',
    decreases n,
{
    let s = decimal(n);
    lemma_decimal_is_digits(n);
    if n < 10 {
        assert(s.drop_last() =~= Seq::<char>::empty());
        assert(digit(n) as int - '0' as int == n);
        assert(digits_read(s.drop_last()) == 0);
    } else {
        law_a_number_reads_back(n / 10);
        assert(s.drop_last() =~= decimal(n / 10));
        assert(digit(n % 10) as int - '0' as int == n % 10);
        assert(s[0] == decimal(n / 10)[0]);
    }
}

proof fn lemma_digits_read_concat(a: Seq<char>, b: Seq<char>)
    requires
        forall|i: int| 0 <= i < b.len() ==> is_digit(#[trigger] b[i]),
    ensures
        digits_read(a + b) == digits_read(a) * vstd::arithmetic::power::pow(10, b.len())
            + digits_read(b),
    decreases b.len(),
{
    reveal(vstd::arithmetic::power::pow);
    if b.len() == 0 {
        assert(a + b =~= a);
    } else {
        let front = b.drop_last();
        lemma_digits_read_concat(a, front);
        assert((a + b).drop_last() =~= a + front);
        assert((a + b).last() == b.last());
        assert(is_digit(b[b.len() - 1]));
        let p = vstd::arithmetic::power::pow(10, front.len());
        assert(vstd::arithmetic::power::pow(10, b.len()) == 10 * p);
        assert(10 * (digits_read(a) * p) == digits_read(a) * (10 * p)) by (nonlinear_arith);
    }
}

proof fn lemma_zeros_read(n: int, s: Seq<char>)
    requires
        n >= 0,
    ensures
        digits_read(run_of('0', n) + s) == digits_read(s),
    decreases s.len(), n,
{
    let z = run_of('0', n);
    if s.len() > 0 {
        lemma_zeros_read(n, s.drop_last());
        assert((z + s).drop_last() =~= z + s.drop_last());
    } else if n > 0 {
        lemma_zeros_read(n - 1, s);
        assert((z + s).drop_last() =~= run_of('0', n - 1) + s);
    } else {
        assert(z + s =~= s);
    }
}

proof fn lemma_short_decimal(n: nat)
    ensures
        n < 10 ==> decimal(n).len() == 1,
        10 <= n < 100 ==> decimal(n).len() == 2,
{
    if 10 <= n < 100 {
        assert(n / 10 < 10);
        assert(decimal(n / 10).len() == 1);
    }
}

/// The whole part and the decimals of an amount, without its sign.
proof fn lemma_unsigned(v: nat, scale: nat, decimals: int)
    requires
        scale == 10 && decimals == 1 || scale == 100 && decimals == 2,
    ensures
        ({
            let rest = decimal(v % scale);
            let tail = run_of('0', decimals - rest.len()) + rest;
            let s = decimal(v / scale) + "."@ + tail;
            let point = s.len() - decimals - 1;
            &&& tail.len() == decimals
            &&& point > 0
            &&& point == decimal(v / scale).len()
            &&& s[point] == '.'
            &&& forall|i: int| 0 <= i < s.len() && i != point ==> is_digit(#[trigger] s[i])
            &&& point > 1 ==> s[0] != '0'
            &&& digits_read(s) == v
        }),
{
    reveal_strlit(".");
    let whole = decimal(v / scale);
    let rest = decimal(v % scale);
    let zeros = run_of('0', decimals - rest.len());
    let tail = zeros + rest;
    let s = whole + "."@ + tail;
    law_a_number_reads_back(v / scale);
    law_a_number_reads_back(v % scale);
    lemma_short_decimal(v % scale);
    lemma_zeros_read(decimals - rest.len(), rest);
    assert forall|i: int| 0 <= i < tail.len() implies is_digit(#[trigger] tail[i]) by {
        if i < zeros.len() {
            assert(tail[i] == '0');
        } else {
            assert(tail[i] == rest[i - zeros.len()]);
        }
    }
    lemma_digits_read_concat(whole + "."@, tail);
    assert((whole + "."@).drop_last() =~= whole);
    assert((whole + "."@).last() == '.');
    assert(vstd::arithmetic::power::pow(10, tail.len()) == scale) by {
        reveal(vstd::arithmetic::power::pow);
        reveal_with_fuel(vstd::arithmetic::power::pow, 3);
    }
    let point = whole.len() as int;
    assert forall|i: int| 0 <= i < s.len() && i != point implies is_digit(#[trigger] s[i]) by {
        if i < point {
            assert(s[i] == whole[i]);
        } else {
            assert(s[i] == tail[i - point - 1]);
        }
    }
    assert(s[0] == whole[0]);
    vstd::arithmetic::div_mod::lemma_fundamental_div_mod(v as int, scale as int);
    assert((v / scale) * scale == scale * (v / scale)) by (nonlinear_arith);
}

/// An amount has its decimals, and reads back as the count that it stands for,
/// with its sign.
pub proof fn law_an_amount_reads_back(value: int, scale: nat, decimals: int)
    requires
        scale == 10 && decimals == 1 || scale == 100 && decimals == 2,
    ensures
        is_amount(fixed(value, scale, decimals), decimals),
        amount_read(fixed(value, scale, decimals)) == value,
{
    reveal_strlit("-");
    reveal_strlit("");
    let v = if value < 0 {
        (-value) as nat
    } else {
        value as nat
    };
    let rest = decimal(v % scale);
    let tail = run_of('0', decimals - rest.len()) + rest;
    let body = decimal(v / scale) + "."@ + tail;
    let s = fixed(value, scale, decimals);
    lemma_unsigned(v, scale, decimals);
    assert(is_digit(body[0]));
    if value < 0 {
        assert(s =~= "-"@ + body);
        assert(s.drop_first() =~= body);
        assert forall|i: int| 1 <= i < s.len() implies #[trigger] s[i] == body[i - 1] by {}
    } else {
        assert(s =~= body);
    }
}

/// A price reads back in cents, a quantity in tenths.
pub proof fn law_prices_and_quantities_read_back(p: Price, q: int)
    ensures
        is_amount(price_text(p), 2),
        amount_read(price_text(p)) == p.0,
        is_amount(qty_text(q), 1),
        amount_read(qty_text(q)) == q,
{
    law_an_amount_reads_back(p.0 as int, 100, 2);
    law_an_amount_reads_back(q, 10, 1);
}

/// Blanks in front change nothing of the number in a column.
pub proof fn lemma_column_reads(s: Seq<char>, width: int)
    ensures
        amount_read(at_right(s, width)) == amount_read(s),
    decreases width,
{
    let t = at_right(s, width);
    if width > s.len() {
        lemma_column_reads(s, width - 1);
        assert(t.drop_first() =~= at_right(s, width - 1));
        assert(t[0] == ' ');
    } else {
        assert(t =~= s);
    }
}

/// A column holds its text whole, at its right or at its left, with blanks for
/// the rest.
pub proof fn law_columns_hold_their_text(s: Seq<char>, width: int)
    ensures
        is_flush_right(at_right(s, width), s, width),
        is_flush_left(at_left(s, width), s, width),
{
    let (r, l) = (at_right(s, width), at_left(s, width));
    assert(r.skip(r.len() - s.len()) =~= s);
    assert(l.take(s.len() as int) =~= s);
}

/// A rule is so many of one character and no other.
pub proof fn law_a_rule_is_one_character(c: char, n: int)
    ensures
        run_of(c, n).len() == (if n < 0 {
            0
        } else {
            n
        }),
        forall|i: int| 0 <= i < run_of(c, n).len() ==> #[trigger] run_of(c, n)[i] == c,
{
}

/// Dictionary order goes by the first character in which two strings differ;
/// where there is none, the shorter stands first.
pub proof fn law_the_first_difference_decides(a: Seq<char>, b: Seq<char>, k: int)
    requires
        0 <= k <= a.len(),
        k <= b.len(),
        forall|i: int| 0 <= i < k ==> (#[trigger] a[i]) == b[i],
    ensures
        k < a.len() && k < b.len() && a[k] != b[k] ==> precedes(a, b) == ((a[k] as int) < (
        b[k] as int)),
        k == a.len() ==> precedes(a, b) == (a.len() < b.len()),
    decreases k,
{
    if k > 0 {
        let (x, y) = (a.drop_first(), b.drop_first());
        assert(a[0] == b[0]);
        assert forall|i: int| 0 <= i < k - 1 implies (#[trigger] x[i]) == y[i] by {
            assert(x[i] == a[i + 1] && y[i] == b[i + 1]);
        }
        law_the_first_difference_decides(x, y, k - 1);
    }
}

} // verus!
