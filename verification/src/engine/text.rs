//! Plain text: comparing it, writing numbers, filling columns.

use vstd::prelude::*;

verus! {

/// Dictionary order by code point: a proper prefix comes first.
pub open spec fn precedes(a: Seq<char>, b: Seq<char>) -> bool
    decreases a.len(),
{
    if b.len() == 0 {
        false
    } else if a.len() == 0 {
        true
    } else if a[0] == b[0] {
        precedes(a.drop_first(), b.drop_first())
    } else {
        (a[0] as int) < (b[0] as int)
    }
}

/// Of two different strings exactly one stands before the other.
pub proof fn lemma_precedes_total(a: Seq<char>, b: Seq<char>)
    ensures
        a == b ==> !precedes(a, b),
        a != b ==> precedes(a, b) != precedes(b, a),
    decreases a.len(),
{
    if a.len() > 0 && b.len() > 0 {
        if a[0] == b[0] {
            lemma_precedes_total(a.drop_first(), b.drop_first());
            if a.drop_first() == b.drop_first() {
                assert(a =~= seq![a[0]] + a.drop_first());
                assert(b =~= seq![b[0]] + b.drop_first());
            }
        }
    } else if a.len() == 0 && b.len() == 0 {
        assert(a =~= b);
    }
}

pub proof fn lemma_precedes_transitive(a: Seq<char>, b: Seq<char>, c: Seq<char>)
    requires
        precedes(a, b),
        precedes(b, c),
    ensures
        precedes(a, c),
    decreases a.len(),
{
    if a.len() > 0 && b.len() > 0 && c.len() > 0 && a[0] == b[0] && b[0] == c[0] {
        lemma_precedes_transitive(a.drop_first(), b.drop_first(), c.drop_first());
    }
}

/// Whether two strings hold the same characters.
pub fn same(a: &str, b: &str) -> (r: bool)
    ensures
        r == (a@ == b@),
{
    let mut left = a.chars();
    let mut right = b.chars();
    let ghost mut i: int = 0;
    loop
        invariant
            0 <= i <= a@.len(),
            i <= b@.len(),
            vstd::std_specs::iter::IteratorSpec::remaining(&left) == a@.skip(i),
            vstd::std_specs::iter::IteratorSpec::remaining(&right) == b@.skip(i),
            a@.take(i) == b@.take(i),
        decreases a@.len() - i,
    {
        let x = left.next();
        let y = right.next();
        match (x, y) {
            (None, None) => {
                assert(a@.take(i) == a@);
                assert(b@.take(i) == b@);
                return true;
            },
            (Some(c), Some(d)) => {
                assert(c == a@[i]);
                assert(d == b@[i]);
                if c != d {
                    return false;
                }
                proof {
                    assert(a@.take(i + 1) == a@.take(i).push(a@[i]));
                    assert(b@.take(i + 1) == b@.take(i).push(b@[i]));
                    assert(a@.skip(i).drop_first() == a@.skip(i + 1));
                    assert(b@.skip(i).drop_first() == b@.skip(i + 1));
                    i = i + 1;
                }
            },
            _ => {
                assert(a@.len() != b@.len());
                return false;
            },
        }
    }
}

fn below(c: char, d: char) -> (r: bool)
    ensures
        r == ((c as int) < (d as int)),
{
    (c as u32) < (d as u32)
}

/// Whether `a` stands before `b` in dictionary order.
pub fn comes_before(a: &str, b: &str) -> (r: bool)
    ensures
        r == precedes(a@, b@),
{
    let mut left = a.chars();
    let mut right = b.chars();
    let ghost mut i: int = 0;
    assert(a@.skip(0) == a@);
    assert(b@.skip(0) == b@);
    loop
        invariant
            0 <= i <= a@.len(),
            i <= b@.len(),
            vstd::std_specs::iter::IteratorSpec::remaining(&left) == a@.skip(i),
            vstd::std_specs::iter::IteratorSpec::remaining(&right) == b@.skip(i),
            precedes(a@, b@) == precedes(a@.skip(i), b@.skip(i)),
        decreases a@.len() - i,
    {
        let x = left.next();
        let y = right.next();
        match (x, y) {
            (_, None) => {
                return false;
            },
            (None, Some(_)) => {
                return true;
            },
            (Some(c), Some(d)) => {
                if c != d {
                    return below(c, d);
                }
                proof {
                    assert(a@.skip(i).drop_first() == a@.skip(i + 1));
                    assert(b@.skip(i).drop_first() == b@.skip(i + 1));
                    i = i + 1;
                }
            },
        }
    }
}

/// The character of a digit.
pub open spec fn digit(d: nat) -> char {
    if d == 0 {
        '0'
    } else if d == 1 {
        '1'
    } else if d == 2 {
        '2'
    } else if d == 3 {
        '3'
    } else if d == 4 {
        '4'
    } else if d == 5 {
        '5'
    } else if d == 6 {
        '6'
    } else if d == 7 {
        '7'
    } else if d == 8 {
        '8'
    } else {
        '9'
    }
}

/// A number in decimal, without leading zeros.
pub open spec fn decimal(n: nat) -> Seq<char>
    decreases n,
{
    if n < 10 {
        seq![digit(n)]
    } else {
        decimal(n / 10).push(digit(n % 10))
    }
}

/// `n` copies of one character.
pub open spec fn run_of(c: char, n: int) -> Seq<char> {
    Seq::new(
        if n < 0 {
            0
        } else {
            n as nat
        },
        |i: int| c,
    )
}

/// At the right of a column `width` wide. Longer text is not cut.
pub open spec fn at_right(s: Seq<char>, width: int) -> Seq<char> {
    run_of(' ', width - s.len()) + s
}

/// At the left of a column `width` wide. Longer text is not cut.
pub open spec fn at_left(s: Seq<char>, width: int) -> Seq<char> {
    s + run_of(' ', width - s.len())
}

/// A count of `scale`-ths as a decimal number: the sign, the whole part, and
/// the rest on `decimals` digits.
pub open spec fn fixed(value: int, scale: nat, decimals: int) -> Seq<char> {
    let v = if value < 0 {
        (-value) as nat
    } else {
        value as nat
    };
    let sign = if value < 0 {
        "-"@
    } else {
        ""@
    };
    let rest = decimal(v % scale);
    sign + decimal(v / scale) + "."@ + (run_of('0', decimals - rest.len()) + rest)
}

fn digit_text(d: u8) -> (r: &'static str)
    requires
        d < 10,
    ensures
        r@ == seq![digit(d as nat)],
{
    proof {
        reveal_strlit("0");
        reveal_strlit("1");
        reveal_strlit("2");
        reveal_strlit("3");
        reveal_strlit("4");
        reveal_strlit("5");
        reveal_strlit("6");
        reveal_strlit("7");
        reveal_strlit("8");
        reveal_strlit("9");
    }
    let r = match d {
        0 => "0",
        1 => "1",
        2 => "2",
        3 => "3",
        4 => "4",
        5 => "5",
        6 => "6",
        7 => "7",
        8 => "8",
        _ => "9",
    };
    assert(r@ =~= seq![digit(d as nat)]);
    r
}

/// Writes a number in decimal.
pub fn number(n: u128) -> (r: String)
    ensures
        r@ == decimal(n as nat),
    decreases n,
{
    if n < 10 {
        digit_text(n as u8).to_owned()
    } else {
        let mut r = number(n / 10);
        r.append(digit_text((n % 10) as u8));
        assert(r@ =~= decimal(n as nat));
        r
    }
}

/// Writes `n` copies of a one-character text.
fn repeat(one: &str, n: usize) -> (r: String)
    requires
        one@.len() == 1,
    ensures
        r@ == run_of(one@[0], n as int),
{
    let mut r = String::new();
    let mut i: usize = 0;
    assert(r@ =~= run_of(one@[0], 0));
    while i < n
        invariant
            i <= n,
            one@.len() == 1,
            r@ == run_of(one@[0], i as int),
        decreases n - i,
    {
        r.append(one);
        i = i + 1;
        assert(r@ =~= run_of(one@[0], i as int));
    }
    r
}

/// A horizontal rule of dashes.
pub fn dashes(n: usize) -> (r: String)
    ensures
        r@ == run_of('-', n as int),
{
    proof {
        reveal_strlit("-");
    }
    repeat("-", n)
}

/// A horizontal rule of equals signs.
pub fn double_dashes(n: usize) -> (r: String)
    ensures
        r@ == run_of('=', n as int),
{
    proof {
        reveal_strlit("=");
    }
    repeat("=", n)
}

/// Copies of `one` that bring text of length `len` up to `width`.
fn filling(one: &str, len: usize, width: usize) -> (r: String)
    requires
        one@.len() == 1,
    ensures
        r@ == run_of(one@[0], width - len),
{
    if len < width {
        repeat(one, width - len)
    } else {
        let r = String::new();
        assert(r@ =~= run_of(one@[0], width - len));
        r
    }
}

/// Puts text at the right of a column.
pub fn align_right(s: &str, width: usize) -> (r: String)
    ensures
        r@ == at_right(s@, width as int),
{
    proof {
        reveal_strlit(" ");
    }
    let mut r = filling(" ", s.unicode_len(), width);
    r.append(s);
    r
}

/// Puts text at the left of a column.
pub fn align_left(s: &str, width: usize) -> (r: String)
    ensures
        r@ == at_left(s@, width as int),
{
    proof {
        reveal_strlit(" ");
    }
    let mut r = s.to_owned();
    r.append(filling(" ", s.unicode_len(), width).as_str());
    r
}

/// Writes a count of `scale`-ths as a decimal number. The sign is written from
/// the count itself and not taken from a quotient: `-2 / 10` is `0`, and a
/// short position of -0.2 would come out as "0.2".
pub fn fixed_point(value: i128, scale: u128, decimals: usize) -> (r: String)
    requires
        scale > 0,
    ensures
        r@ == fixed(value as int, scale as nat, decimals as int),
{
    proof {
        reveal_strlit("0");
    }
    let v: u128 = if value < 0 {
        // One less than the magnitude always fits.
        (-(value + 1)) as u128 + 1
    } else {
        value as u128
    };
    let mut r = if value < 0 { "-".to_owned() } else { "".to_owned() };
    let rest = number(v % scale);
    let mut tail = filling("0", rest.as_str().unicode_len(), decimals);
    tail.append(rest.as_str());
    r.append(number(v / scale).as_str());
    r.append(".");
    r.append(tail.as_str());
    r
}

pub proof fn lemma_decimal_is_digits(n: nat)
    ensures
        decimal(n).len() > 0,
        forall|i: int|
            0 <= i < decimal(n).len() ==> '0' as int <= (#[trigger] decimal(n)[i]) as int
                && decimal(n)[i] as int <= '9' as int,
    decreases n,
{
    if n >= 10 {
        lemma_decimal_is_digits(n / 10);
        assert forall|i: int| 0 <= i < decimal(n).len() implies '0' as int <= (
        #[trigger] decimal(n)[i]) as int && decimal(n)[i] as int <= '9' as int by {
            if i < decimal(n / 10).len() {
                assert(decimal(n)[i] == decimal(n / 10)[i]);
            }
        }
    }
}

/// A negative number starts with a minus sign, and no other number does, even
/// where its whole part is zero.
pub proof fn law_the_sign_is_kept(value: int, scale: nat, decimals: int)
    requires
        scale > 0,
    ensures
        fixed(value, scale, decimals).len() > 0,
        (fixed(value, scale, decimals)[0] == '-') == (value < 0),
{
    reveal_strlit("-");
    reveal_strlit("");
    reveal_strlit(".");
    let v = if value < 0 {
        (-value) as nat
    } else {
        value as nat
    };
    lemma_decimal_is_digits(v / scale);
    if value >= 0 {
        assert(fixed(value, scale, decimals)[0] == decimal(v / scale)[0]);
    }
}

/// Aligned text fills its column exactly, unless it was longer already.
pub proof fn law_columns_line_up(s: Seq<char>, width: int)
    ensures
        s.len() <= width ==> at_right(s, width).len() == width && at_left(s, width).len() == width,
        s.len() > width ==> at_right(s, width) == s && at_left(s, width) == s,
{
    if s.len() > width {
        assert(at_right(s, width) =~= s);
        assert(at_left(s, width) =~= s);
    }
}

} // verus!
