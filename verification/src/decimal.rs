//! Decimal numbers as text: both files, every label and the kernel's own values
//! are written in them.
//!
//! Reading takes what the usual grammar of decimal numbers allows: a sign, digits
//! with a point among them, an exponent, or the word for infinity. Every quantity
//! is a number, so the word for what is none is not read.
//!
//! Writing goes by the binary fraction of 53 bits that is nearest to a quantity.

pub mod laws;

use vstd::prelude::*;
use vstd::slice::slice_subrange;

use crate::micro::{abs, clip, clipped, lemma_div_within, magnitude, Micro};
use crate::text::{find, first_at, lemma_first_at, same};

verus! {

// ---------------------------------------------------------------------------
// Digits

/// Ten to the power of `k`.
pub open spec fn ten_to(k: nat) -> nat
    decreases k,
{
    if k == 0 {
        1
    } else {
        10 * ten_to((k - 1) as nat)
    }
}

pub open spec fn is_digit(c: char) -> bool {
    '0' <= c <= '9'
}

pub open spec fn digit(n: nat) -> char {
    (48 + n) as char
}

pub open spec fn digit_value(c: char) -> nat {
    (c as int - 48) as nat
}

pub open spec fn all_digits(s: Seq<char>) -> bool {
    forall|i: int| 0 <= i < s.len() ==> is_digit(#[trigger] s[i])
}

/// The number that a row of digits writes.
pub open spec fn value(s: Seq<char>) -> nat
    decreases s.len(),
{
    if s.len() == 0 {
        0
    } else {
        10 * value(s.drop_last()) + digit_value(s.last())
    }
}

/// A natural number in decimal, without leading zeros.
pub open spec fn natural(n: nat) -> Seq<char>
    decreases n,
{
    if n < 10 {
        seq![digit(n)]
    } else {
        natural(n / 10).push(digit(n % 10))
    }
}

/// The last `width` digits of a number, zeros in front where it is shorter.
pub open spec fn padded(n: nat, width: nat) -> Seq<char>
    decreases width,
{
    if width == 0 {
        seq![]
    } else {
        padded(n / 10, (width - 1) as nat).push(digit(n % 10))
    }
}

/// One digit as a character.
fn digit_char(n: u64) -> (r: char)
    requires
        n < 10,
    ensures
        r == digit(n as nat),
{
    (48u8 + n as u8) as char
}

/// Adds a natural number in decimal.
pub fn push_natural(out: &mut String, n: u64)
    ensures
        final(out)@ == old(out)@ + natural(n as nat),
    decreases n,
{
    if n >= 10 {
        push_natural(out, n / 10);
    }
    out.push(digit_char(n % 10));
    assert(out@ == old(out)@ + natural(n as nat));
}

pub proof fn lemma_natural(n: nat)
    ensures
        natural(n).len() > 0,
        all_digits(natural(n)),
        value(natural(n)) == n,
    decreases n,
{
    if n >= 10 {
        lemma_natural(n / 10);
        assert(natural(n).drop_last() == natural(n / 10));
    } else {
        assert(natural(n).drop_last() == Seq::<char>::empty());
        reveal_with_fuel(value, 2);
    }
}

pub proof fn lemma_padded(n: nat, width: nat)
    ensures
        padded(n, width).len() == width,
        all_digits(padded(n, width)),
        n < ten_to(width) ==> value(padded(n, width)) == n,
    decreases width,
{
    if width > 0 {
        lemma_padded(n / 10, (width - 1) as nat);
        assert(padded(n, width).drop_last() == padded(n / 10, (width - 1) as nat));
    }
}

/// Rows of digits written after one another.
pub proof fn lemma_value_concat(a: Seq<char>, b: Seq<char>)
    ensures
        value(a + b) == value(a) * ten_to(b.len()) + value(b),
    decreases b.len(),
{
    if b.len() == 0 {
        assert(a + b == a);
        assert(value(a) * 1 == value(a)) by (nonlinear_arith);
        assert(ten_to(0) == 1);
    } else {
        let c = b.drop_last();
        lemma_value_concat(a, c);
        assert((a + b).drop_last() == a + c);
        assert(ten_to(b.len()) == 10 * ten_to(c.len()));
        assert(10 * (value(a) * ten_to(c.len())) == value(a) * (10 * ten_to(c.len())))
            by (nonlinear_arith);
    }
}

// ---------------------------------------------------------------------------
// Writing

/// `a / b` to the nearest whole number, a half to the even neighbour.
pub open spec fn half_even(a: nat, b: nat) -> nat {
    let whole = a / b;
    let rest = a % b;
    if 2 * rest > b || (2 * rest == b && whole % 2 == 1) {
        whole + 1
    } else {
        whole
    }
}

/// `a / b` to the nearest whole number, a half to the even neighbour.
pub fn div_half_even(a: u128, b: u128) -> (r: u128)
    requires
        0 < b <= 0x1_0000_0000_0000_0000_0000_0000,
        a < u128::MAX,
    ensures
        r == half_even(a as nat, b as nat),
{
    let whole: u128 = a / b;
    let rest: u128 = a % b;
    proof {
        lemma_div_within(a as int, b as int);
    }
    if 2 * rest > b || (2 * rest == b && whole % 2 == 1) {
        whole + 1
    } else {
        whole
    }
}

/// So many millionths fill the 53 bits that a number is written from.
pub const FULL: u128 = 4_503_599_627_370_496_000_000;

/// The power of two by which `n` millionths fill those bits.
pub open spec fn binary_scale(n: nat) -> nat
    decreases 2 * FULL - n,
{
    if n == 0 || n >= FULL {
        1
    } else {
        2 * binary_scale(2 * n)
    }
}

/// A quantity is written from the binary fraction nearest to it, `bits(n) /
/// binary_scale(n)`: few decimal fractions are one themselves, and which way a half
/// goes is decided by the side on which the nearest one lies.
pub open spec fn bits(n: nat) -> nat {
    half_even(n * binary_scale(n), 1_000_000)
}

/// A quantity cut to so many decimals: how many of the last one it comes to.
pub open spec fn steps(v: int, decimals: nat) -> nat {
    half_even(bits(abs(v) as nat) * ten_to(decimals), binary_scale(abs(v) as nat))
}

/// So many steps of the last decimal, written out.
pub open spec fn numeral(q: nat, decimals: nat) -> Seq<char> {
    let whole = natural(q / ten_to(decimals));
    if decimals == 0 {
        whole
    } else {
        whole + seq!['.'] + padded(q % ten_to(decimals), decimals)
    }
}

/// A quantity written with a fixed number of decimals.
pub open spec fn fixed(v: int, decimals: nat) -> Seq<char> {
    let sign = if v < 0 {
        seq!['-']
    } else {
        seq![]
    };
    sign + numeral(steps(v, decimals), decimals)
}

pub proof fn lemma_small_powers()
    ensures
        ten_to(0) == 1,
        ten_to(1) == 10,
        ten_to(2) == 100,
        ten_to(3) == 1_000,
        ten_to(4) == 10_000,
        ten_to(5) == 100_000,
        ten_to(6) == 1_000_000,
{
    reveal_with_fuel(ten_to, 7);
}

pub proof fn lemma_binary_scale(n: nat)
    requires
        0 < n < 2 * FULL,
    ensures
        binary_scale(n) >= 1,
        n < FULL ==> FULL <= n * binary_scale(n) < 2 * FULL,
    decreases 2 * FULL - n,
{
    if n < FULL {
        let m = binary_scale(2 * n);
        lemma_binary_scale(2 * n);
        assert(binary_scale(n) == 2 * m);
        assert(n * (2 * m) == (2 * n) * m) by (nonlinear_arith);
        if 2 * n >= FULL {
            assert((2 * n) * m == 2 * n) by (nonlinear_arith)
                requires
                    m == 1,
            ;
        }
    }
}

/// The power of two by which a quantity is written.
fn binary_scale_of(n: u64) -> (r: u128)
    ensures
        r == binary_scale(n as nat),
        1 <= r < 0x1_0000_0000_0000_0000_0000,
        n * r < 2 * FULL,
{
    let mut filled: u128 = n as u128;
    let mut power: u128 = 1;
    if n == 0 {
        return 1;
    }
    assert(n * 1 == n) by (nonlinear_arith);
    while filled < FULL
        invariant
            n > 0,
            power >= 1,
            filled == n * power,
            filled < 2 * FULL,
            binary_scale(n as nat) == power * binary_scale(filled as nat),
        decreases 2 * FULL - filled,
    {
        assert(power <= filled) by (nonlinear_arith)
            requires
                filled == n * power,
                n >= 1,
                power >= 1,
        ;
        assert(n * (2 * power) == 2 * (n * power)) by (nonlinear_arith);
        assert(power * (2 * binary_scale(2 * filled as nat)) == (2 * power) * binary_scale(2 * filled as nat))
            by (nonlinear_arith);
        filled = filled * 2;
        power = power * 2;
    }
    assert(power <= filled) by (nonlinear_arith)
        requires
            filled == n * power,
            n >= 1,
            power >= 1,
    ;
    assert(power * 1 == power) by (nonlinear_arith);
    power
}

/// The digit after a digit that is not the last.
fn next_digit(c: char) -> (r: char)
    requires
        is_digit(c),
        c != '9',
    ensures
        is_digit(r),
        digit_value(r) == digit_value(c) + 1,
{
    (c as u8 + 1) as char
}

proof fn lemma_value_of_nines(s: Seq<char>)
    requires
        forall|i: int| 0 <= i < s.len() ==> #[trigger] s[i] == '9',
    ensures
        value(s) + 1 == ten_to(s.len()),
    decreases s.len(),
{
    if s.len() > 0 {
        assert(s[s.len() - 1] == '9');
        lemma_value_of_nines(s.drop_last());
    }
}

proof fn lemma_value_of_zeros(s: Seq<char>)
    requires
        forall|i: int| 0 <= i < s.len() ==> #[trigger] s[i] == '0',
    ensures
        value(s) == 0,
    decreases s.len(),
{
    if s.len() > 0 {
        assert(s[s.len() - 1] == '0');
        lemma_value_of_zeros(s.drop_last());
    }
}

/// Adds one to a row of digits; `true` where it ran over.
fn count_up(row: &mut Vec<char>) -> (over: bool)
    requires
        all_digits(old(row)@),
    ensures
        final(row)@.len() == old(row)@.len(),
        all_digits(final(row)@),
        value(old(row)@) + 1 == value(final(row)@) + if over {
            ten_to(old(row)@.len())
        } else {
            0
        },
{
    let ghost before = row@;
    let n = row.len();
    let mut i: usize = n;
    while i > 0
        invariant
            i <= n,
            before == old(row)@,
            n == before.len(),
            row@.len() == n,
            all_digits(before),
            forall|j: int| 0 <= j < i ==> row@[j] == before[j],
            forall|j: int| i <= j < n ==> #[trigger] before[j] == '9',
            forall|j: int| i <= j < n ==> #[trigger] row@[j] == '0',
        decreases i,
    {
        let c: char = row[i - 1];
        assert(is_digit(before[i - 1]));
        if c != '9' {
            row.set(i - 1, next_digit(c));
            proof {
                let head = before.take(i - 1);
                let tail = before.skip(i as int);
                let over = row@.skip(i as int);
                lemma_value_of_nines(tail);
                lemma_value_of_zeros(over);
                assert(before == head.push(c) + tail);
                assert(row@ == head.push(row@[i - 1]) + over);
                assert(head.push(c).drop_last() == head);
                assert(head.push(row@[i - 1]).drop_last() == head);
                lemma_value_concat(head.push(c), tail);
                lemma_value_concat(head.push(row@[i - 1]), over);
                let x = value(head.push(c)) as int;
                let t = ten_to(tail.len()) as int;
                assert((x + 1) * t == x * t + t) by (nonlinear_arith);
                assert forall|j: int| 0 <= j < row@.len() implies is_digit(#[trigger] row@[j]) by {
                    if j < i - 1 {
                        assert(row@[j] == before[j]);
                    }
                }
            }
            return false;
        }
        row.set(i - 1, '0');
        i -= 1;
    }
    proof {
        lemma_value_of_nines(before);
        lemma_value_of_zeros(row@);
    }
    true
}

/// A row of digits is its value, zeros in front.
proof fn lemma_row_is_padded(row: Seq<char>)
    requires
        all_digits(row),
    ensures
        padded(value(row), row.len()) == row,
        value(row) < ten_to(row.len()),
    decreases row.len(),
{
    if row.len() > 0 {
        let rest = row.drop_last();
        let c = row.last();
        assert(is_digit(row[row.len() - 1]));
        lemma_row_is_padded(rest);
        assert(value(row) / 10 == value(rest) && value(row) % 10 == digit_value(c));
        assert(digit(digit_value(c)) == c);
        assert(padded(value(row), row.len()) == rest.push(c));
    }
}

/// The quotient and the rest are the only numbers of their kind.
proof fn lemma_quotient(a: nat, b: nat, q: nat, r: nat)
    requires
        a == q * b + r,
        r < b,
    ensures
        a / b == q,
        a % b == r,
{
    assert(a / b == q && a % b == r) by (nonlinear_arith)
        requires
            a == q * b + r,
            r < b,
    ;
}

/// The parity of a number is that of its last digit.
proof fn lemma_parity(whole: nat, row: Seq<char>)
    requires
        all_digits(row),
    ensures
        (whole * ten_to(row.len()) + value(row)) % 2 == if row.len() == 0 {
            whole % 2
        } else {
            digit_value(row.last()) % 2
        },
{
    if row.len() == 0 {
        assert(whole * 1 == whole) by (nonlinear_arith);
    } else {
        let t = ten_to((row.len() - 1) as nat);
        let x = whole * t + value(row.drop_last());
        assert(whole * (10 * t) == 10 * (whole * t)) by (nonlinear_arith);
        assert(whole * ten_to(row.len()) + value(row) == 10 * x + digit_value(row.last()));
        assert((10 * x + digit_value(row.last())) % 2 == digit_value(row.last()) % 2);
    }
}

/// Adds a quantity with a fixed number of decimals.
pub fn push_fixed(out: &mut String, v: Micro, decimals: usize)
    ensures
        final(out)@ == old(out)@ + fixed(v as int, decimals as nat),
{
    let size: u64 = magnitude(v);
    let power: u128 = binary_scale_of(size);
    let filled: u128 = size as u128 * power;
    let binary: u128 = div_half_even(filled, 1_000_000);
    let mut whole: u128 = binary / power;
    let mut rest: u128 = binary % power;
    let mut row: Vec<char> = Vec::new();
    let mut i: usize = 0;
    proof {
        lemma_div_within(filled as int, 1_000_000);
        lemma_div_within(binary as int, power as int);
        assert(binary == whole * power + rest) by (nonlinear_arith)
            requires
                whole == binary / power,
                rest == binary % power,
                power > 0,
        ;
        lemma_whole_is_small(size as nat, power as nat, binary as nat);
        assert(binary * 1 == binary && whole * 1 == whole) by (nonlinear_arith);
    }
    let ghost first = whole;
    while i < decimals
        invariant
            i <= decimals,
            row@.len() == i,
            all_digits(row@),
            0 < power < 0x1_0000_0000_0000_0000_0000,
            rest < power,
            binary * ten_to(i as nat) == (whole * ten_to(i as nat) + value(row@)) * power + rest,
        decreases decimals - i,
    {
        let ghost before = row@;
        let ghost left = rest;
        let next: u128 = rest * 10 / power;
        rest = rest * 10 % power;
        assert(next < 10 && left * 10 == next * power + rest && rest < power) by (nonlinear_arith)
            requires
                next == (left * 10) / (power as int),
                rest == (left * 10) % (power as int),
                left < power,
        ;
        row.push(digit_char(next as u64));
        proof {
            assert(row@.drop_last() == before);
            assert(digit_value(digit(next as nat)) == next);
            let t = ten_to(i as nat) as int;
            let q = whole * t + value(before);
            assert(whole * (10 * t) == 10 * (whole * t)) by (nonlinear_arith);
            assert(binary * (10 * t) == 10 * (binary * t)) by (nonlinear_arith);
            assert((10 * q + next) * power == 10 * (q * power) + next * power)
                by (nonlinear_arith);
            assert forall|j: int| 0 <= j < row@.len() implies is_digit(#[trigger] row@[j]) by {
                if j < before.len() {
                    assert(row@[j] == before[j]);
                }
            }
        }
        i += 1;
    }
    let odd: bool = if decimals == 0 {
        whole % 2 == 1
    } else {
        (row[decimals - 1] as u64 - 48) % 2 == 1
    };
    let ghost t = ten_to(decimals as nat);
    let ghost cut = (whole * t + value(row@)) as nat;
    proof {
        assert(row@.len() > 0 ==> is_digit(row@[row@.len() - 1]));
        lemma_parity(whole as nat, row@);
        lemma_ten_to_grows(0, decimals as nat);
        assert(binary * t >= 0 && whole * t >= 0) by (nonlinear_arith);
        lemma_quotient((binary * t) as nat, power as nat, cut, rest as nat);
    }
    if 2 * rest > power || (2 * rest == power && odd) {
        if count_up(&mut row) {
            whole = whole + 1;
            assert((first + 1) * t == first * t + t) by (nonlinear_arith);
        }
    }
    let ghost q = steps(v as int, decimals as nat);
    proof {
        assert(q == whole * t + value(row@));
        lemma_row_is_padded(row@);
        lemma_quotient(q, t, whole as nat, value(row@));
    }
    if v < 0 {
        out.push('-');
    }
    push_natural(out, whole as u64);
    if decimals > 0 {
        out.push('.');
        let ghost before = out@;
        let mut j: usize = 0;
        while j < row.len()
            invariant
                j <= row@.len(),
                out@ == before + row@.take(j as int),
            decreases row@.len() - j,
        {
            out.push(row[j]);
            assert(row@.take(j + 1) == row@.take(j as int).push(row@[j as int]));
            j += 1;
        }
        assert(row@.take(j as int) == row@);
    }
    assert(out@ == old(out)@ + fixed(v as int, decimals as nat));
}

/// The whole units of what is written, with room for one more.
proof fn lemma_whole_is_small(n: nat, power: nat, binary: nat)
    requires
        n <= 0x8000_0000_0000_0000,
        power >= 1,
        binary == half_even(n * power, 1_000_000),
    ensures
        binary / power < u64::MAX,
{
    assert(1_000_000 * binary <= n * power + 1_000_000);
    assert(binary / power <= n + 1) by (nonlinear_arith)
        requires
            1_000_000 * binary <= n * power + 1_000_000,
            power >= 1,
            n >= 0,
    ;
}

/// A quantity to the nearest whole unit, halves away from zero, from the same
/// binary fraction.
pub open spec fn rounded(v: int) -> int {
    let n = abs(v) as nat;
    let size = (2 * bits(n) + binary_scale(n)) / (2 * binary_scale(n));
    if v < 0 {
        -size
    } else {
        size as int
    }
}

/// A quantity to the nearest whole unit, halves away from zero.
pub fn round(v: Micro) -> (r: i64)
    ensures
        r == rounded(v as int),
{
    let size: u64 = magnitude(v);
    let power: u128 = binary_scale_of(size);
    let binary: u128 = div_half_even(size as u128 * power, 1_000_000);
    proof {
        lemma_div_within(size * power, 1_000_000);
        lemma_rounded_is_small(size as nat, power as nat, binary as nat);
    }
    let whole: u128 = (2 * binary + power) / (2 * power);
    if v < 0 {
        -(whole as i64)
    } else {
        whole as i64
    }
}

proof fn lemma_rounded_is_small(n: nat, power: nat, binary: nat)
    requires
        n <= 0x8000_0000_0000_0000,
        power >= 1,
        binary == half_even(n * power, 1_000_000),
    ensures
        (2 * binary + power) / (2 * power) <= 0x1000_0000_0000_0000,
{
    assert(1_000_000 * binary <= n * power + 1_000_000);
    assert((2 * binary + power) / (2 * power) <= n / 1_000_000 + 3) by (nonlinear_arith)
        requires
            1_000_000 * binary <= n * power + 1_000_000,
            power >= 1,
            n >= 0,
    ;
}

/// A signed whole number in decimal.
pub open spec fn integer(n: int) -> Seq<char> {
    if n < 0 {
        seq!['-'] + natural(-n as nat)
    } else {
        natural(n as nat)
    }
}

/// Adds a signed whole number in decimal.
pub fn push_integer(out: &mut String, n: i64)
    ensures
        final(out)@ == old(out)@ + integer(n as int),
{
    if n < 0 {
        out.push('-');
    }
    push_natural(out, magnitude(n));
    assert(out@ == old(out)@ + integer(n as int));
}

// ---------------------------------------------------------------------------
// Reading

/// A natural number that fits 64 bits, a plus sign allowed in front.
pub open spec fn whole_number(s: Seq<char>) -> Option<int> {
    let body = if s.len() > 0 && s[0] == '+' {
        s.skip(1)
    } else {
        s
    };
    if body.len() > 0 && all_digits(body) && value(body) <= u64::MAX {
        Some(value(body) as int)
    } else {
        None
    }
}

pub proof fn lemma_value_of_prefix(s: Seq<char>, n: int)
    requires
        0 <= n <= s.len(),
    ensures
        value(s.take(n)) <= value(s),
    decreases s.len(),
{
    if n == s.len() {
        assert(s.take(n) == s);
    } else {
        lemma_value_of_prefix(s.drop_last(), n);
        assert(s.drop_last().take(n) == s.take(n));
    }
}

fn read_digit(c: char) -> (r: Option<u64>)
    ensures
        match r {
            Some(d) => is_digit(c) && d == digit_value(c) && d < 10,
            None => !is_digit(c),
        },
{
    if '0' <= c && c <= '9' {
        Some(c as u64 - 48)
    } else {
        None
    }
}

/// Reads a natural number.
pub fn read_whole(s: &[char]) -> (r: Option<u64>)
    ensures
        match r {
            Some(n) => whole_number(s@) == Some(n as int),
            None => whole_number(s@) is None,
        },
{
    let body = if s.len() > 0 && s[0] == '+' {
        slice_subrange(s, 1, s.len())
    } else {
        s
    };
    assert(body@ == if s@.len() > 0 && s@[0] == '+' {
        s@.skip(1)
    } else {
        s@
    });
    if body.len() == 0 {
        return None;
    }
    let mut acc: u64 = 0;
    let mut i: usize = 0;
    assert(body@.take(0) == Seq::<char>::empty());
    while i < body.len()
        invariant
            i <= body@.len(),
            body@.len() > 0,
            forall|j: int| 0 <= j < i ==> is_digit(#[trigger] body@[j]),
            acc == value(body@.take(i as int)),
            whole_number(s@) == (if all_digits(body@) && value(body@) <= u64::MAX {
                Some(value(body@) as int)
            } else {
                None
            }),
        decreases body@.len() - i,
    {
        let d: u64 = match read_digit(body[i]) {
            Some(d) => d,
            None => {
                assert(!is_digit(body@[i as int]));
                return None;
            },
        };
        assert(body@.take(i + 1).drop_last() == body@.take(i as int));
        proof {
            lemma_value_of_prefix(body@, i + 1);
        }
        if acc > (u64::MAX - d) / 10 {
            return None;
        }
        acc = acc * 10 + d;
        i += 1;
    }
    assert(body@.take(i as int) == body@);
    Some(acc)
}

/// Past this, a number is past every `i64` and past every length of text.
pub const CAP: u128 = 100_000_000_000_000_000_000;

/// The count of millionths written by a row of digits whose first `keep` stand
/// before the millionth place, rounded by the digit after them.
pub open spec fn scaled(digits: Seq<char>, keep: int) -> int {
    if keep < 0 {
        0
    } else if keep < digits.len() {
        value(digits.take(keep)) + if digits[keep] >= '5' {
            1int
        } else {
            0int
        }
    } else {
        (value(digits) * ten_to((keep - digits.len()) as nat)) as int
    }
}

/// A signed exponent.
pub open spec fn exponent(s: Seq<char>) -> Option<int> {
    let signed = s.len() > 0 && (s[0] == '-' || s[0] == '+');
    let body = if signed {
        s.skip(1)
    } else {
        s
    };
    if body.len() == 0 || !all_digits(body) {
        None
    } else if signed && s[0] == '-' {
        Some(-(value(body) as int))
    } else {
        Some(value(body) as int)
    }
}

/// Where the exponent mark stands; the length of the text where there is none.
pub open spec fn mark_at(s: Seq<char>) -> int {
    let small = first_at(s, 'e');
    let large = first_at(s, 'E');
    if small < large {
        small
    } else {
        large
    }
}

/// An unsigned number in millionths: digits, a decimal point anywhere among
/// them, and perhaps an exponent.
pub open spec fn unsigned_number(s: Seq<char>) -> Option<int> {
    let e = mark_at(s);
    let mantissa = s.take(e);
    let shift = if e < s.len() {
        exponent(s.skip(e + 1))
    } else {
        Some(0int)
    };
    let dot = first_at(mantissa, '.');
    let whole = mantissa.take(dot);
    let digits = if dot < mantissa.len() {
        whole + mantissa.skip(dot + 1)
    } else {
        whole
    };
    if digits.len() == 0 || !all_digits(digits) {
        None
    } else {
        match shift {
            Some(shift) => Some(scaled(digits, whole.len() + shift + 6)),
            None => None,
        }
    }
}

pub open spec fn lower(c: char) -> char {
    if 'A' <= c <= 'Z' {
        (c as int + 32) as char
    } else {
        c
    }
}

/// Whether `s` spells `word`, in capitals or not.
pub open spec fn spells(s: Seq<char>, word: Seq<char>) -> bool {
    s.map_values(|c: char| lower(c)) == word
}

/// A decimal number in millionths. Beyond the range, infinity included, it is
/// the end of the range; what is not a number is `None`.
pub open spec fn decimal(s: Seq<char>) -> Option<int> {
    let signed = s.len() > 0 && (s[0] == '-' || s[0] == '+');
    let body = if signed {
        s.skip(1)
    } else {
        s
    };
    let size = if spells(body, "inf"@) || spells(body, "infinity"@) {
        Some(CAP as int)
    } else {
        unsigned_number(body)
    };
    match size {
        Some(size) => Some(
            clipped(
                if signed && s[0] == '-' {
                    -size
                } else {
                    size
                },
            ),
        ),
        None => None,
    }
}

pub proof fn lemma_ten_to_grows(a: nat, b: nat)
    requires
        a <= b,
    ensures
        1 <= ten_to(a) <= ten_to(b),
    decreases b,
{
    if a < b {
        lemma_ten_to_grows(a, (b - 1) as nat);
    } else if a > 0 {
        lemma_ten_to_grows((a - 1) as nat, (b - 1) as nat);
    }
}

/// `n`, or past the cap where `n` is.
spec fn capped(acc: int, n: int) -> bool {
    acc == n || (acc >= CAP && n >= CAP)
}

/// Reads a row of digits, no further than the cap.
fn read_digits(s: &[char]) -> (r: Option<u128>)
    ensures
        match r {
            Some(n) => all_digits(s@) && capped(n as int, value(s@) as int) && n <= 10 * CAP + 9,
            None => !all_digits(s@),
        },
{
    let mut acc: u128 = 0;
    let mut i: usize = 0;
    assert(s@.take(0) == Seq::<char>::empty());
    while i < s.len()
        invariant
            i <= s@.len(),
            forall|j: int| 0 <= j < i ==> is_digit(#[trigger] s@[j]),
            capped(acc as int, value(s@.take(i as int)) as int),
            acc <= 10 * CAP + 9,
        decreases s@.len() - i,
    {
        let d: u64 = match read_digit(s[i]) {
            Some(d) => d,
            None => {
                assert(!is_digit(s@[i as int]));
                return None;
            },
        };
        assert(s@.take(i + 1).drop_last() == s@.take(i as int));
        if acc < CAP {
            acc = acc * 10 + d as u128;
        }
        i += 1;
    }
    assert(s@.take(i as int) == s@);
    Some(acc)
}

/// Reads a signed exponent, no further than the cap.
fn read_exponent(s: &[char]) -> (r: Option<i128>)
    ensures
        match r {
            Some(e) => exponent(s@) is Some && (e == exponent(s@)->0 || (e >= CAP && exponent(s@)->0
                >= CAP) || (e <= -CAP && exponent(s@)->0 <= -CAP)) && -10 * CAP - 9 <= e <= 10 * CAP
                + 9,
            None => exponent(s@) is None,
        },
{
    let signed = s.len() > 0 && (s[0] == '-' || s[0] == '+');
    let body = if signed {
        slice_subrange(s, 1, s.len())
    } else {
        s
    };
    assert(signed ==> body@ == s@.skip(1));
    if body.len() == 0 {
        return None;
    }
    match read_digits(body) {
        Some(n) => {
            if signed && s[0] == '-' {
                Some(-(n as i128))
            } else {
                Some(n as i128)
            }
        },
        None => None,
    }
}

/// The count of millionths that the digits write, no further than the cap.
fn scale(digits: &[char], keep: i128) -> (r: u128)
    requires
        all_digits(digits@),
    ensures
        capped(r as int, scaled(digits@, keep as int)),
        r <= 10 * CAP + 10,
{
    if keep < 0 {
        return 0;
    }
    if keep < digits.len() as i128 {
        let k: usize = keep as usize;
        let head = slice_subrange(digits, 0, k);
        assert(head@ == digits@.take(k as int));
        let n: u128 = match read_digits(head) {
            Some(n) => n,
            None => {
                assert(all_digits(head@));
                return 0;
            },
        };
        return if digits[k] >= '5' {
            n + 1
        } else {
            n
        };
    }
    let mut acc: u128 = match read_digits(digits) {
        Some(n) => n,
        None => {
            return 0;
        },
    };
    let ghost n = value(digits@);
    let mut k: i128 = digits.len() as i128;
    assert(n * 1 == n) by (nonlinear_arith);
    while k < keep && 0 < acc && acc < CAP
        invariant
            digits@.len() <= k <= keep,
            n == value(digits@),
            capped(acc as int, (n * ten_to((k - digits@.len()) as nat)) as int),
            acc <= 10 * CAP + 9,
        decreases keep - k,
    {
        proof {
            let p = (k - digits@.len()) as nat;
            assert(ten_to(p + 1) == 10 * ten_to(p));
            assert(n * (10 * ten_to(p)) == 10 * (n * ten_to(p))) by (nonlinear_arith);
        }
        acc = acc * 10;
        k += 1;
    }
    proof {
        let p = (k - digits@.len()) as nat;
        let q = (keep - digits@.len()) as nat;
        lemma_ten_to_grows(p, q);
        assert(n * ten_to(p) <= n * ten_to(q)) by (nonlinear_arith)
            requires
                ten_to(p) <= ten_to(q),
        ;
        if acc == 0 {
            assert(n == 0) by (nonlinear_arith)
                requires
                    n * ten_to(p) == 0,
                    1 <= ten_to(p),
            ;
            assert(n * ten_to(q) == 0) by (nonlinear_arith)
                requires
                    n == 0,
            ;
        }
    }
    acc
}

/// Whether the slice spells `word`, in capitals or not.
fn spell(s: &[char], word: &str) -> (r: bool)
    ensures
        r == spells(s@, word@),
{
    let mut small: Vec<char> = Vec::new();
    let mut i: usize = 0;
    while i < s.len()
        invariant
            i <= s@.len(),
            small@ == s@.take(i as int).map_values(|c: char| lower(c)),
        decreases s@.len() - i,
    {
        let c: char = s[i];
        let l: char = if 'A' <= c && c <= 'Z' {
            (c as u8 + 32) as char
        } else {
            c
        };
        assert(l == lower(c));
        small.push(l);
        assert(s@.take(i + 1) == s@.take(i as int).push(c));
        i += 1;
    }
    assert(s@.take(i as int) == s@);
    same(small.as_slice(), word)
}

/// Both readings of an exponent past the cap come to the same.
proof fn lemma_scaled_far(digits: Seq<char>, a: int, b: int)
    requires
        all_digits(digits),
        digits.len() + 20 <= a && digits.len() + 20 <= b || a < 0 && b < 0,
    ensures
        scaled(digits, a) == scaled(digits, b) || (scaled(digits, a) >= CAP && scaled(digits, b)
            >= CAP),
{
    if a >= 0 {
        lemma_far(digits, a);
        lemma_far(digits, b);
    }
}

proof fn lemma_far(digits: Seq<char>, a: int)
    requires
        digits.len() + 20 <= a,
    ensures
        value(digits) == 0 ==> scaled(digits, a) == 0,
        value(digits) > 0 ==> scaled(digits, a) >= CAP,
{
    let k = (a - digits.len()) as nat;
    lemma_ten_to_grows(20, k);
    assert(ten_to(20) == CAP) by {
        reveal_with_fuel(ten_to, 21);
    }
    let n = value(digits);
    assert(n * ten_to(k) >= ten_to(k) || n == 0) by (nonlinear_arith);
    if n == 0 {
        assert(n * ten_to(k) == 0) by (nonlinear_arith)
            requires
                n == 0,
        ;
    }
}

/// Reads an unsigned number, no further than the cap.
fn read_unsigned(s: &[char]) -> (r: Option<u128>)
    ensures
        match r {
            Some(n) => unsigned_number(s@) is Some && capped(n as int, unsigned_number(s@)->0) && n
                <= 10 * CAP + 10,
            None => unsigned_number(s@) is None,
        },
{
    let small = find(s, 'e');
    let large = find(s, 'E');
    let e: usize = if small < large {
        small
    } else {
        large
    };
    let mantissa = slice_subrange(s, 0, e);
    assert(mantissa@ == s@.take(e as int));
    let dot = find(mantissa, '.');
    let whole = slice_subrange(mantissa, 0, dot);
    assert(whole@ == mantissa@.take(dot as int));
    let mut digits: Vec<char> = Vec::new();
    let mut i: usize = 0;
    while i < mantissa.len()
        invariant
            i <= mantissa@.len(),
            dot <= mantissa@.len(),
            digits@ == (if i <= dot {
                mantissa@.take(i as int)
            } else {
                mantissa@.take(dot as int) + mantissa@.subrange(dot + 1, i as int)
            }),
        decreases mantissa@.len() - i,
    {
        if i != dot {
            digits.push(mantissa[i]);
        }
        assert(i > dot ==> mantissa@.subrange(dot + 1, i + 1) == mantissa@.subrange(
            dot + 1,
            i as int,
        ).push(mantissa@[i as int]));
        assert(mantissa@.take(i + 1) == mantissa@.take(i as int).push(mantissa@[i as int]));
        i += 1;
    }
    let ghost expected = if dot < mantissa@.len() {
        whole@ + mantissa@.skip(dot + 1)
    } else {
        whole@
    };
    assert(digits@ == expected);
    if digits.len() == 0 {
        return None;
    }
    if read_digits(digits.as_slice()).is_none() {
        return None;
    }
    let shift: i128 = if e < s.len() {
        let tail = slice_subrange(s, e + 1, s.len());
        assert(tail@ == s@.skip(e + 1));
        match read_exponent(tail) {
            Some(shift) => shift,
            None => {
                return None;
            },
        }
    } else {
        0
    };
    let r = scale(digits.as_slice(), dot as i128 + shift + 6);
    proof {
        let actual = if e < s@.len() {
            exponent(s@.skip(e + 1))->0
        } else {
            0
        };
        if actual != shift {
            lemma_scaled_far(digits@, dot + shift + 6, dot + actual + 6);
        }
    }
    Some(r)
}

/// Reads a decimal number in millionths.
pub fn read_decimal(s: &[char]) -> (r: Option<Micro>)
    ensures
        match r {
            Some(v) => decimal(s@) == Some(v as int),
            None => decimal(s@) is None,
        },
{
    let signed = s.len() > 0 && (s[0] == '-' || s[0] == '+');
    let body = if signed {
        slice_subrange(s, 1, s.len())
    } else {
        s
    };
    assert(signed ==> body@ == s@.skip(1));
    let size: u128 = if spell(body, "inf") || spell(body, "infinity") {
        CAP
    } else {
        match read_unsigned(body) {
            Some(size) => size,
            None => {
                return None;
            },
        }
    };
    if signed && s[0] == '-' {
        Some(clip(-(size as i128)))
    } else {
        Some(clip(size as i128))
    }
}

// ---------------------------------------------------------------------------
// What is written reads back

/// A quantity cut to so many decimals.
pub open spec fn cut_to(v: int, decimals: nat) -> int {
    let size = (steps(v, decimals) * ten_to((6 - decimals) as nat)) as int;
    clipped(
        if v < 0 {
            -size
        } else {
            size
        },
    )
}

/// Made of digits, points and minus signs only.
pub open spec fn is_numeral(s: Seq<char>) -> bool {
    &&& s.len() > 0
    &&& forall|i: int|
        0 <= i < s.len() ==> is_digit(#[trigger] s[i]) || s[i] == '.' || s[i] == '-'
}

/// A natural number reads back as itself.
pub proof fn lemma_natural_reads_back(n: nat)
    requires
        n <= u64::MAX,
    ensures
        whole_number(natural(n)) == Some(n as int),
        is_numeral(natural(n)),
{
    lemma_natural(n);
    assert(is_digit(natural(n)[0]));
}

/// What is written out with up to six decimals reads back: no exponent, no word
/// and one point at most stand in it.
proof fn lemma_numeral_reads_back(q: nat, decimals: nat)
    requires
        decimals <= 6,
    ensures
        unsigned_number(numeral(q, decimals)) == Some(
            (q * ten_to((6 - decimals) as nat)) as int,
        ),
        numeral(q, decimals).len() > 0,
        is_digit(numeral(q, decimals)[0]),
        forall|i: int|
            0 <= i < numeral(q, decimals).len() ==> is_digit(#[trigger] numeral(q, decimals)[i])
                || numeral(q, decimals)[i] == '.',
{
    let base = ten_to(decimals);
    lemma_ten_to_grows(decimals, decimals);
    let whole = natural(q / base);
    let part = padded(q % base, decimals);
    let body = numeral(q, decimals);
    lemma_natural(q / base);
    lemma_padded(q % base, decimals);
    assert(is_digit(whole[0]));
    assert(body[0] == whole[0]);
    assert forall|i: int| 0 <= i < body.len() implies is_digit(#[trigger] body[i]) || body[i]
        == '.' by {
        if i < whole.len() {
            assert(body[i] == whole[i]);
        } else if i > whole.len() {
            assert(body[i] == part[i - whole.len() - 1]);
        }
    }
    lemma_first_at(body, 'e', body.len() as int);
    lemma_first_at(body, 'E', body.len() as int);
    assert(body.take(body.len() as int) == body);
    lemma_first_at(body, '.', whole.len() as int);
    assert(body.take(whole.len() as int) == whole);
    let digits = whole + part;
    if decimals > 0 {
        assert(body.skip(whole.len() as int + 1) == part);
    } else {
        assert(part == Seq::<char>::empty());
        assert(digits == whole);
    }
    assert(all_digits(digits)) by {
        assert forall|i: int| 0 <= i < digits.len() implies is_digit(#[trigger] digits[i]) by {
            if i < whole.len() {
                assert(digits[i] == whole[i]);
            } else {
                assert(digits[i] == part[i - whole.len()]);
            }
        }
    }
    assert(value(digits) == q) by {
        lemma_value_concat(whole, part);
        assert(q == (q / base) * base + q % base && q % base < base) by (nonlinear_arith)
            requires
                base >= 1,
        ;
    }
    assert(unsigned_number(body) == Some(scaled(digits, whole.len() as int + 6)));
    assert(scaled(digits, whole.len() as int + 6) == q * ten_to((6 - decimals) as nat));
}

/// A quantity written with up to six decimals reads back as what was written.
pub proof fn lemma_fixed_reads_back(v: int, decimals: nat)
    requires
        decimals <= 6,
    ensures
        decimal(fixed(v, decimals)) == Some(cut_to(v, decimals)),
        is_numeral(fixed(v, decimals)),
{
    let q = steps(v, decimals);
    let body = numeral(q, decimals);
    let s = fixed(v, decimals);
    lemma_numeral_reads_back(q, decimals);
    if v < 0 {
        assert(s.skip(1) == body);
    } else {
        assert(s == body);
    }
    reveal_strlit("inf");
    reveal_strlit("infinity");
    assert(lower(body[0]) == body[0]);
    assert(!spells(body, "inf"@)) by {
        if spells(body, "inf"@) {
            assert(body.map_values(|c: char| lower(c))[0] == 'i');
        }
    }
    assert(!spells(body, "infinity"@)) by {
        if spells(body, "infinity"@) {
            assert(body.map_values(|c: char| lower(c))[0] == 'i');
        }
    }
    assert forall|i: int| 0 <= i < s.len() implies is_digit(#[trigger] s[i]) || s[i] == '.' || s[i]
        == '-' by {
        if v < 0 && i > 0 {
            assert(s[i] == body[i - 1]);
        }
    }
}

/// A quantity that is a whole number of steps is written with just these: the
/// binary fraction nearest to it lies well within half a step.
proof fn lemma_whole_steps(w: int, decimals: nat, q: nat)
    requires
        decimals <= 2,
        abs(w) == q * ten_to((6 - decimals) as nat),
        abs(w) <= 0x8000_0000_0000_0000,
    ensures
        steps(w, decimals) == q,
{
    let n = abs(w) as nat;
    let p = binary_scale(n);
    let b = bits(n);
    let t = ten_to(decimals);
    let unit = ten_to((6 - decimals) as nat);
    lemma_small_powers();
    if n == 0 {
        assert(q == 0) by (nonlinear_arith)
            requires
                q * unit == 0,
                unit >= 1,
        ;
        assert(0 * p == 0 && 0 * t == 0) by (nonlinear_arith);
    } else {
        lemma_binary_scale(n);
        assert(p >= 488) by (nonlinear_arith)
            requires
                n * p >= FULL,
                n <= 0x8000_0000_0000_0000,
                FULL == 4_503_599_627_370_496_000_000,
        ;
        // Half a millionth of the scale at most.
        assert(-500_000 <= 1_000_000 * b - n * p <= 500_000);
        let e = b * t - q * p;
        assert(decimals == 0 || decimals == 1 || decimals == 2);
        assert(unit * t == 1_000_000);
        assert(unit * e == 1_000_000 * b - n * p) by (nonlinear_arith)
            requires
                unit * t == 1_000_000,
                n == q * unit,
                e == b * t - q * p,
        ;
        assert(-50 <= e <= 50) by (nonlinear_arith)
            requires
                unit >= 10_000,
                -500_000 <= unit * e <= 500_000,
        ;
        if e >= 0 {
            lemma_quotient(b * t, p, q, e as nat);
        } else {
            assert(q >= 1) by (nonlinear_arith)
                requires
                    q * unit > 0,
            ;
            assert((q - 1) * p == q * p - p) by (nonlinear_arith);
            lemma_quotient(b * t, p, (q - 1) as nat, (p + e) as nat);
        }
    }
}

/// Cutting twice to the same number of decimals changes nothing more.
pub proof fn lemma_cut_once(v: int, decimals: nat)
    requires
        decimals <= 2,
    ensures
        cut_to(cut_to(v, decimals), decimals) == cut_to(v, decimals),
{
    let q = steps(v, decimals);
    let unit = ten_to((6 - decimals) as nat);
    let w = cut_to(v, decimals);
    lemma_ten_to_grows((6 - decimals) as nat, (6 - decimals) as nat);
    assert(q * unit >= 0) by (nonlinear_arith);
    if i64::MIN < w < i64::MAX {
        assert(abs(w) == q * unit);
        lemma_whole_steps(w, decimals, q);
        if v < 0 && w == 0 {
            assert(q * unit == 0);
        }
    } else {
        // Neither end of the range is a whole number of steps, and both round
        // outwards.
        lemma_small_powers();
        let n = abs(w) as nat;
        reveal_with_fuel(binary_scale, 11);
        assert(binary_scale(n) == 512);
        assert(bits(n) == 4_722_366_482_869_645);
        let whole: nat = if decimals == 0 {
            9_223_372_036_854
        } else if decimals == 1 {
            92_233_720_368_547
        } else {
            922_337_203_685_477
        };
        assert(steps(w, decimals) == whole + 1);
        assert((whole + 1) * unit > 9_223_372_036_854_775_808);
    }
}

} // verus!
