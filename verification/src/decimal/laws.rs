//! What holds of every number as text.

use vstd::prelude::*;

use super::{
    all_digits, binary_scale, bits, cut_to, decimal, exponent, fixed, half_even, integer,
    is_digit, lemma_binary_scale, lemma_fixed_reads_back, lemma_small_powers, lemma_value_concat,
    lower, natural, rounded, scaled, spells, steps, ten_to, unsigned_number, value,
    whole_number, FULL,
};
use crate::micro::{abs, clipped, UNIT};
use crate::text::lemma_first_at;

verus! {

/// A row of digits means ten times what the row without its last digit means, and
/// that digit.
pub proof fn law_digits_make_a_number(row: Seq<char>, c: char)
    requires
        '0' <= c <= '9',
    ensures
        value(Seq::<char>::empty()) == 0,
        value(row.push(c)) == 10 * value(row) + (c as int - '0' as int),
{
    assert(row.push(c).drop_last() == row);
}

/// A number is written digit by digit, the last one last and none of them a zero
/// in front.
pub proof fn law_a_number_is_written_in_digits(n: nat, d: nat)
    requires
        d < 10,
    ensures
        natural(d) == seq![('0' as int + d) as char],
        n > 0 ==> natural(10 * n + d) == natural(n).push(('0' as int + d) as char),
        integer(n as int) == natural(n),
        n > 0 ==> integer(-(n as int)) == seq!['-'] + natural(n),
{
    assert((10 * n + d) / 10 == n && (10 * n + d) % 10 == d);
}

/// A row of digits reads as the number it writes where that fits 64 bits; a plus
/// sign in front changes nothing, and anything else is no such number.
pub proof fn law_a_whole_number_is_read(s: Seq<char>)
    requires
        s.len() > 0,
    ensures
        all_digits(s) && value(s) <= u64::MAX ==> whole_number(s) == Some(value(s) as int)
            && whole_number(seq!['+'] + s) == Some(value(s) as int),
        !all_digits(s) && s[0] != '+' ==> whole_number(s) is None,
        all_digits(s) && value(s) > u64::MAX ==> whole_number(s) is None,
{
    if all_digits(s) {
        assert(is_digit(s[0]));
    }
    assert((seq!['+'] + s).skip(1) == s);
}

/// Digits with a point among them read as what they write, in millionths, up to
/// six places after the point; a minus sign makes it negative.
pub proof fn law_a_decimal_is_read(whole: Seq<char>, part: Seq<char>)
    requires
        whole.len() > 0,
        part.len() <= 6,
        all_digits(whole),
        all_digits(part),
    ensures
        decimal(whole + seq!['.'] + part) == Some(
            clipped(
                ((value(whole) * ten_to(part.len()) + value(part)) * ten_to(
                    (6 - part.len()) as nat,
                )) as int,
            ),
        ),
        decimal(seq!['-'] + (whole + seq!['.'] + part)) == Some(
            clipped(
                -((value(whole) * ten_to(part.len()) + value(part)) * ten_to(
                    (6 - part.len()) as nat,
                )),
            ),
        ),
        decimal(whole) == Some(clipped((value(whole) * 1_000_000) as int)),
        decimal(seq!['-'] + whole) == Some(clipped(-(value(whole) * 1_000_000))),
{
    lemma_small_powers();
    let none = Seq::<char>::empty();
    assert(is_digit(whole[0]));
    lemma_reads(whole, part, true);
    lemma_value_concat(whole, part);
    lemma_reads(whole, none, false);
    assert(whole + none == whole);
    let dotted = whole + seq!['.'] + part;
    lemma_no_word(dotted);
    lemma_no_word(whole);
    assert((seq!['-'] + dotted).skip(1) == dotted);
    assert((seq!['-'] + whole).skip(1) == whole);
}

proof fn lemma_no_word(body: Seq<char>)
    requires
        body.len() > 0,
        is_digit(body[0]),
    ensures
        !spells(body, "inf"@),
        !spells(body, "infinity"@),
{
    reveal_strlit("inf");
    reveal_strlit("infinity");
    assert(lower(body[0]) == body[0]);
    if spells(body, "inf"@) {
        assert(body.map_values(|c: char| lower(c))[0] == 'i');
    }
    if spells(body, "infinity"@) {
        assert(body.map_values(|c: char| lower(c))[0] == 'i');
    }
}

proof fn lemma_reads(whole: Seq<char>, part: Seq<char>, dot: bool)
    requires
        whole.len() > 0,
        part.len() <= 6,
        all_digits(whole),
        all_digits(part),
        !dot ==> part.len() == 0,
    ensures
        unsigned_number(
            if dot {
                whole + seq!['.'] + part
            } else {
                whole
            },
        ) == Some((value(whole + part) * ten_to((6 - part.len()) as nat)) as int),
{
    let body = if dot {
        whole + seq!['.'] + part
    } else {
        whole
    };
    assert forall|i: int| 0 <= i < body.len() implies is_digit(#[trigger] body[i]) || body[i]
        == '.' by {
        if i < whole.len() {
            assert(body[i] == whole[i]);
        } else if i > whole.len() {
            assert(body[i] == part[i - whole.len() - 1]);
        }
    }
    lemma_first_at(body, 'e', body.len() as int);
    lemma_first_at(body, 'E', body.len() as int);
    assert(body.take(body.len() as int) == body);
    assert forall|j: int| 0 <= j < whole.len() implies body[j] != '.' by {
        assert(is_digit(whole[j]));
    }
    lemma_first_at(body, '.', whole.len() as int);
    assert(body.take(whole.len() as int) == whole);
    let digits = whole + part;
    if dot {
        assert(body.skip(whole.len() as int + 1) == part);
    } else {
        assert(digits == whole);
    }
    assert forall|i: int| 0 <= i < digits.len() implies is_digit(#[trigger] digits[i]) by {
        if i < whole.len() {
            assert(digits[i] == whole[i]);
        } else {
            assert(digits[i] == part[i - whole.len()]);
        }
    }
    assert(unsigned_number(body) == Some(scaled(digits, whole.len() as int + 6)));
}

proof fn lemma_half(a: nat, b: nat)
    requires
        b > 0,
    ensures
        -b <= 2 * (half_even(a, b) * b - a) <= b,
{
    let q = a / b;
    assert(a == q * b + a % b && a % b < b) by (nonlinear_arith)
        requires
            q == a / b,
            b > 0,
    ;
    assert((q + 1) * b == q * b + b) by (nonlinear_arith);
}

/// The scale by which a quantity within range is written.
proof fn lemma_scale_of(n: nat)
    requires
        n <= 0x8000_0000_0000_0000,
    ensures
        binary_scale(n) >= 1,
        n > 0 ==> binary_scale(n) >= 488,
        n == 0 ==> bits(n) == 0 && binary_scale(n) == 1,
        -1_000_000 <= 2 * (bits(n) * 1_000_000 - n * binary_scale(n)) <= 1_000_000,
{
    let p = binary_scale(n);
    if n > 0 {
        lemma_binary_scale(n);
        assert(p >= 488) by (nonlinear_arith)
            requires
                n * p >= FULL,
                n <= 0x8000_0000_0000_0000,
                FULL == 4_503_599_627_370_496_000_000,
        ;
    }
    lemma_half(n * p, 1_000_000);
}

/// What is written with up to two decimals lies within 0.61 of the last of them of
/// the quantity: it is the nearest such number, or just beside a half.
pub proof fn law_what_is_written_is_near(v: int, decimals: nat)
    requires
        decimals <= 2,
        -9_000_000_000_000_000_000 <= v <= 9_000_000_000_000_000_000,
    ensures
        -61 * ten_to((6 - decimals) as nat) <= 100 * (cut_to(v, decimals) - v) <= 61 * ten_to(
            (6 - decimals) as nat,
        ),
        decimal(fixed(v, decimals)) == Some(cut_to(v, decimals)),
{
    lemma_fixed_reads_back(v, decimals);
    let n = abs(v) as nat;
    let p = binary_scale(n) as int;
    let b = bits(n) as int;
    let t = ten_to(decimals) as int;
    let unit = ten_to((6 - decimals) as nat) as int;
    let q = steps(v, decimals) as int;
    lemma_small_powers();
    lemma_scale_of(n);
    assert(decimals == 0 || decimals == 1 || decimals == 2);
    assert(unit * t == 1_000_000);
    if n == 0 {
        assert(0 * t == 0) by (nonlinear_arith);
        assert(q == 0);
        assert(q * unit == 0) by (nonlinear_arith)
            requires
                q == 0,
        ;
    } else {
        lemma_half((b * t) as nat, p as nat);
        assert(b * t >= 0) by (nonlinear_arith)
            requires
                b >= 0,
                t >= 1,
        ;
        assert(-61 * unit <= 100 * (q * unit - n) <= 61 * unit) by (nonlinear_arith)
            requires
                -p <= 2 * (q * p - b * t) <= p,
                -1_000_000 <= 2 * (b * 1_000_000 - n * p) <= 1_000_000,
                unit * t == 1_000_000,
                p >= 488,
                unit >= 10_000,
                1 <= t <= 100,
        ;
        assert(q * unit <= 9_100_000_000_000_000_000);
    }
}

/// A quantity to the whole unit lies within half of one of it, but for what the
/// binary fraction is off.
pub proof fn law_what_is_rounded_is_near(v: int)
    requires
        -9_000_000_000_000_000_000 <= v <= 9_000_000_000_000_000_000,
    ensures
        -51 * UNIT <= 100 * (rounded(v) * UNIT - v) <= 51 * UNIT,
        v >= 0 ==> rounded(v) >= 0,
        v <= 0 ==> rounded(v) <= 0,
{
    let n = abs(v) as nat;
    let p = binary_scale(n) as int;
    let b = bits(n) as int;
    lemma_scale_of(n);
    let size = (2 * b + p) / (2 * p);
    if n == 0 {
        assert(size == 0);
    } else {
        assert(size >= 0 && 2 * p * size <= 2 * b + p < 2 * p * size + 2 * p) by (nonlinear_arith)
            requires
                size == (2 * b + p) / (2 * p),
                p >= 1,
                b >= 0,
        ;
        assert(-51_000_000 <= 100 * (size * 1_000_000 - n) <= 51_000_000) by (nonlinear_arith)
            requires
                2 * p * size <= 2 * b + p < 2 * p * size + 2 * p,
                -1_000_000 <= 2 * (b * 1_000_000 - n * p) <= 1_000_000,
                p >= 488,
        ;
    }
}

/// A whole number of units is shown as that number.
pub proof fn law_whole_units_round_to_themselves(k: int)
    requires
        -9_000_000_000_000 <= k <= 9_000_000_000_000,
    ensures
        rounded(k * UNIT) == k,
{
    law_what_is_rounded_is_near(k * UNIT);
}

/// An exponent moves the point: to the right by as many places as it says, or to
/// the left, in either spelling.
pub proof fn law_an_exponent_moves_the_point(digits: Seq<char>, by: Seq<char>, mark: char)
    requires
        digits.len() > 0,
        by.len() > 0,
        all_digits(digits),
        all_digits(by),
        mark == 'e' || mark == 'E',
    ensures
        decimal(digits + seq![mark] + by) == Some(
            clipped((value(digits) * ten_to(value(by) + 6)) as int),
        ),
        value(by) <= 6 ==> decimal(digits + seq![mark, '-'] + by) == Some(
            clipped((value(digits) * ten_to((6 - value(by)) as nat)) as int),
        ),
{
    lemma_exponent(digits, by, by, mark);
    let signed = seq!['-'] + by;
    assert(signed.skip(1) == by);
    assert(is_digit(by[0]));
    lemma_exponent(digits, signed, by, mark);
    assert(digits + seq![mark, '-'] + by == digits + seq![mark] + signed);
    assert(is_digit(digits[0]));
    let plain = digits + seq![mark] + by;
    assert(plain[0] == digits[0]);
    lemma_no_word(plain);
    let left = digits + seq![mark] + signed;
    assert(left[0] == digits[0]);
    lemma_no_word(left);
}

proof fn lemma_exponent(digits: Seq<char>, tail: Seq<char>, by: Seq<char>, mark: char)
    requires
        digits.len() > 0,
        by.len() > 0,
        all_digits(digits),
        all_digits(by),
        mark == 'e' || mark == 'E',
        tail == by || tail == seq!['-'] + by,
    ensures
        exponent(tail) matches Some(k) && unsigned_number(digits + seq![mark] + tail) == Some(
            scaled(digits, digits.len() + k + 6),
        ) && k == if tail == by {
            value(by) as int
        } else {
            -(value(by) as int)
        },
{
    let s = digits + seq![mark] + tail;
    let n = digits.len() as int;
    assert forall|j: int| 0 <= j < tail.len() implies (#[trigger] tail[j]) != 'e' && tail[j]
        != 'E' by {
        if tail == by {
            assert(is_digit(by[j]));
        } else if j > 0 {
            assert(tail[j] == by[j - 1]);
            assert(is_digit(by[j - 1]));
        }
    }
    assert forall|j: int| 0 <= j < s.len() && j != n implies (#[trigger] s[j]) != 'e' && s[j]
        != 'E' by {
        if j < n {
            assert(is_digit(digits[j]));
        } else {
            assert(s[j] == tail[j - n - 1]);
        }
    }
    assert(s[n] == mark);
    if mark == 'e' {
        lemma_first_at(s, 'e', n);
        lemma_first_at(s, 'E', s.len() as int);
    } else {
        lemma_first_at(s, 'E', n);
        lemma_first_at(s, 'e', s.len() as int);
    }
    assert(s.take(n) == digits);
    assert(s.skip(n + 1) == tail);
    assert forall|j: int| 0 <= j < n implies digits[j] != '.' by {
        assert(is_digit(digits[j]));
    }
    lemma_first_at(digits, '.', n);
    assert(digits.take(n) == digits);
    assert(is_digit(by[0]));
    if tail != by {
        assert(tail.skip(1) == by);
    } else {
        assert(tail[0] == by[0]);
    }
}

/// Past the sixth place a decimal is rounded by the seventh.
pub proof fn law_further_places_are_rounded(whole: Seq<char>, part: Seq<char>)
    requires
        whole.len() > 0,
        part.len() > 6,
        all_digits(whole),
        all_digits(part),
    ensures
        decimal(whole + seq!['.'] + part) == Some(
            clipped(
                value(whole + part.take(6)) + if part[6] >= '5' {
                    1int
                } else {
                    0int
                },
            ),
        ),
{
    let body = whole + seq!['.'] + part;
    let n = whole.len() as int;
    assert forall|i: int| 0 <= i < body.len() implies is_digit(#[trigger] body[i]) || body[i]
        == '.' by {
        if i < n {
            assert(body[i] == whole[i]);
        } else if i > n {
            assert(body[i] == part[i - n - 1]);
        }
    }
    lemma_first_at(body, 'e', body.len() as int);
    lemma_first_at(body, 'E', body.len() as int);
    assert(body.take(body.len() as int) == body);
    assert forall|j: int| 0 <= j < n implies body[j] != '.' by {
        assert(is_digit(whole[j]));
    }
    lemma_first_at(body, '.', n);
    assert(body.take(n) == whole);
    assert(body.skip(n + 1) == part);
    let digits = whole + part;
    assert forall|i: int| 0 <= i < digits.len() implies is_digit(#[trigger] digits[i]) by {
        if i < n {
            assert(digits[i] == whole[i]);
        } else {
            assert(digits[i] == part[i - n]);
        }
    }
    assert(digits.take(n + 6) == whole + part.take(6));
    assert(digits[n + 6] == part[6]);
    assert(unsigned_number(body) == Some(scaled(digits, n + 6)));
    assert(is_digit(whole[0]));
    lemma_no_word(body);
}

} // verus!
