//! The size of a number literal, compared with a whole number.

use vstd::prelude::*;
use crate::number::{
    all_digits, digit_value, digits_end, digits_value, is_digit, is_number_literal,
    lemma_digits_end, lemma_digits_value_prefix, scan_digits,
};
use crate::text::to_chars;

verus! {

/// The power of ten.
pub open spec fn pow10(n: nat) -> nat
    decreases n,
{
    if n == 0 {
        1
    } else {
        10 * pow10((n - 1) as nat)
    }
}

/// Powers of ten are positive, and multiply as their exponents add.
pub proof fn lemma_pow10(a: nat, b: nat)
    ensures
        pow10(a) >= 1,
        pow10(a + b) == pow10(a) * pow10(b),
        a <= b ==> pow10(a) <= pow10(b),
    decreases a,
{
    if a > 0 {
        lemma_pow10((a - 1) as nat, b);
        assert(pow10(a + b) == 10 * pow10((a + b - 1) as nat));
        assert(10 * (pow10((a - 1) as nat) * pow10(b)) == (10 * pow10((a - 1) as nat)) * pow10(b))
            by (nonlinear_arith);
        if a <= b {
            lemma_pow10_step(a, b);
        }
    } else {
        lemma_pow10_positive(b);
    }
}

/// Powers of ten are positive.
pub proof fn lemma_pow10_positive(n: nat)
    ensures
        pow10(n) >= 1,
    decreases n,
{
    if n > 0 {
        lemma_pow10_positive((n - 1) as nat);
    }
}

/// Powers of ten grow with their exponents.
pub proof fn lemma_pow10_step(a: nat, b: nat)
    requires
        a <= b,
    ensures
        pow10(a) <= pow10(b),
    decreases b - a,
{
    if a < b {
        lemma_pow10_step(a, (b - 1) as nat);
        lemma_pow10_positive((b - 1) as nat);
    }
}

/// The number of two strings of digits in a row: the first, moved left by
/// the length of the second, plus the second.
pub proof fn lemma_digits_value_concat(a: Seq<char>, b: Seq<char>)
    ensures
        digits_value(a + b) == digits_value(a) * pow10(b.len()) + digits_value(b),
    decreases b.len(),
{
    if b.len() == 0 {
        assert(a + b =~= a);
        assert(digits_value(b) == 0);
        assert(pow10(0) == 1);
        assert(digits_value(a) * 1 == digits_value(a));
    } else {
        let ab = a + b;
        assert(ab.drop_last() =~= a + b.drop_last());
        assert(ab.last() == b.last());
        lemma_digits_value_concat(a, b.drop_last());
        let x = digits_value(a);
        let p = pow10(b.drop_last().len()) as int;
        let y = digits_value(b.drop_last());
        let d = digit_value(b.last());
        assert(pow10(b.len()) == 10 * p);
        assert(digits_value(ab) == digits_value(ab.drop_last()) * 10 + d);
        assert(digits_value(ab.drop_last()) == x * p + y);
        assert(digits_value(b) == y * 10 + d);
        assert((x * p + y) * 10 == x * (10 * p) + y * 10) by (nonlinear_arith);
        assert(digits_value(ab) == x * (10 * p) + digits_value(b));
    }
}

/// A string of digits stands for a number below the power of ten of its
/// length.
pub proof fn lemma_digits_value_below(a: Seq<char>)
    requires
        all_digits(a),
    ensures
        0 <= digits_value(a) < pow10(a.len()),
    decreases a.len(),
{
    if a.len() > 0 {
        assert(is_digit(a[a.len() - 1]));
        lemma_digits_value_below(a.drop_last());
    }
}

/// A string of digits that does not start with a zero stands for a number
/// of as many digits.
pub proof fn lemma_digits_value_above(a: Seq<char>)
    requires
        all_digits(a),
        a.len() >= 1,
        a[0] != '0',
    ensures
        digits_value(a) >= pow10((a.len() - 1) as nat),
    decreases a.len(),
{
    assert(is_digit(a[a.len() - 1]));
    if a.len() == 1 {
        assert(a.drop_last() =~= Seq::<char>::empty());
        assert(digits_value(a.drop_last()) == 0);
        assert(is_digit(a[0]));
    } else {
        assert(a.drop_last()[0] == a[0]);
        lemma_digits_value_above(a.drop_last());
    }
}

/// A string of digits stands for zero exactly where all its digits are
/// zeros.
pub proof fn lemma_digits_value_zero(a: Seq<char>)
    requires
        all_digits(a),
    ensures
        digits_value(a) == 0 <==> forall|i: int| 0 <= i < a.len() ==> a[i] == '0',
    decreases a.len(),
{
    if a.len() > 0 {
        let b = a.drop_last();
        assert(is_digit(a[a.len() - 1]));
        lemma_digits_value_zero(b);
        lemma_digits_value_below(b);
        if digits_value(a) == 0 {
            assert forall|i: int| 0 <= i < a.len() implies a[i] == '0' by {
                if i < b.len() {
                    assert(b[i] == a[i]);
                }
            }
        }
        if forall|i: int| 0 <= i < a.len() ==> a[i] == '0' {
            assert forall|i: int| 0 <= i < b.len() implies b[i] == '0' by {
                assert(b[i] == a[i]);
            }
        }
    }
}

/// Where the digits before the point start: behind the sign, if there is one.
pub open spec fn digits_start(l: Seq<char>) -> int {
    if l.len() > 0 && l[0] == '-' {
        1
    } else {
        0
    }
}

/// Where the digits after the point end; where there is no point, where the
/// digits before it end.
pub open spec fn fraction_end(l: Seq<char>) -> int {
    let b = digits_end(l, digits_start(l));
    if b < l.len() && l[b] == '.' {
        digits_end(l, b + 1)
    } else {
        b
    }
}

/// The digits of a literal after its point.
pub open spec fn fraction(l: Seq<char>) -> Seq<char> {
    let b = digits_end(l, digits_start(l));
    if b < fraction_end(l) <= l.len() {
        l.subrange(b + 1, fraction_end(l))
    } else {
        Seq::empty()
    }
}

/// The digits of a literal before its point and after it, in a row.
pub open spec fn mantissa(l: Seq<char>) -> Seq<char> {
    let a = digits_start(l);
    let b = digits_end(l, a);
    if a <= b <= l.len() {
        l.subrange(a, b) + fraction(l)
    } else {
        Seq::empty()
    }
}

/// The exponent of a literal; zero where it has none.
pub open spec fn exponent(l: Seq<char>) -> int {
    let c = fraction_end(l);
    if 0 <= c && c + 1 < l.len() {
        if l[c + 1] == '-' {
            -digits_value(l.subrange(c + 2, l.len() as int))
        } else if l[c + 1] == '+' {
            digits_value(l.subrange(c + 2, l.len() as int))
        } else {
            digits_value(l.subrange(c + 1, l.len() as int))
        }
    } else {
        0
    }
}

/// The number `mantissa` times ten to the power `scale` is at most `bound`.
pub open spec fn scaled_at_most(mantissa: int, scale: int, bound: nat) -> bool {
    if scale >= 0 {
        mantissa * pow10(scale as nat) <= bound
    } else {
        mantissa <= bound * pow10((-scale) as nat)
    }
}

/// The number that a literal stands for lies between `-bound` and `bound`:
/// its digits, as a whole number, times ten to the power of its exponent
/// less the number of its digits after the point.
pub open spec fn magnitude_at_most(l: Seq<char>, bound: nat) -> bool {
    scaled_at_most(digits_value(mantissa(l)), exponent(l) - fraction(l).len(), bound)
}

/// A number of fewer digits than the scale takes away is below one.
pub proof fn lemma_scaled_small(m: int, digits: nat, scale: int, bound: nat)
    requires
        0 <= m < pow10(digits),
        digits + scale <= 0,
        bound >= 1,
    ensures
        scaled_at_most(m, scale, bound),
{
    if scale >= 0 {
        assert(pow10(0) == 1);
        assert(m * pow10(0) == m) by (nonlinear_arith)
            requires
                pow10(0) == 1,
        ;
    } else {
        let s = (-scale) as nat;
        lemma_pow10_step(digits, s);
        lemma_pow10_positive(s);
        assert(pow10(s) <= bound * pow10(s)) by (nonlinear_arith)
            requires
                bound >= 1,
                pow10(s) >= 1,
        ;
    }
}

/// A number with more digits before the point than a bound has is above
/// the bound.
pub proof fn lemma_scaled_large(m: int, digits: nat, scale: int, bound: nat, width: nat)
    requires
        digits >= 1,
        m >= pow10((digits - 1) as nat),
        digits + scale >= width + 1,
        bound < pow10(width),
    ensures
        !scaled_at_most(m, scale, bound),
{
    if scale >= 0 {
        let s = scale as nat;
        lemma_pow10((digits - 1) as nat, s);
        lemma_pow10_step(width, ((digits - 1) + s) as nat);
        lemma_pow10_positive(s);
        assert(m * pow10(s) >= pow10((digits - 1) as nat) * pow10(s)) by (nonlinear_arith)
            requires
                m >= pow10((digits - 1) as nat),
                pow10(s) >= 1,
        ;
    } else {
        let s = (-scale) as nat;
        let rest = (digits - 1 - s) as nat;
        lemma_pow10(rest, s);
        lemma_pow10_step(width, rest);
        lemma_pow10_positive(s);
        assert(pow10(rest) * pow10(s) > bound * pow10(s)) by (nonlinear_arith)
            requires
                pow10(rest) > bound,
                pow10(s) >= 1,
        ;
    }
}

/// A number above zero is above the bound zero.
pub proof fn lemma_scaled_positive(m: int, scale: int)
    requires
        m >= 1,
    ensures
        !scaled_at_most(m, scale, 0),
{
    if scale >= 0 {
        lemma_pow10_positive(scale as nat);
        assert(m * pow10(scale as nat) >= 1) by (nonlinear_arith)
            requires
                m >= 1,
                pow10(scale as nat) >= 1,
        ;
    } else {
        assert(0 * pow10((-scale) as nat) == 0) by (nonlinear_arith);
    }
}

/// A number whose digits after the point are given apart is at most a whole
/// bound where its whole part is below the bound, or is the bound with
/// nothing after the point.
pub proof fn lemma_scaled_split(whole: int, rest: int, places: nat, bound: nat)
    requires
        0 <= rest < pow10(places),
        0 <= whole,
    ensures
        whole * pow10(places) + rest <= bound * pow10(places) <==> whole < bound || (whole == bound
            && rest == 0),
{
    let p = pow10(places) as int;
    lemma_pow10_positive(places);
    if whole < bound {
        assert(whole * p + rest <= bound * p) by (nonlinear_arith)
            requires
                whole + 1 <= bound,
                0 <= rest < p,
        ;
    } else if whole > bound {
        assert(whole * p + rest > bound * p) by (nonlinear_arith)
            requires
                whole >= bound + 1,
                0 <= rest,
                p >= 1,
        ;
    }
}

fn copy_digits(c: &Vec<char>, from: usize, to: usize, out: &mut Vec<char>)
    requires
        from <= to <= c.len(),
    ensures
        final(out)@ == old(out)@ + c@.subrange(from as int, to as int),
{
    let mut i: usize = from;
    while i < to
        invariant
            from <= i <= to,
            to <= c.len(),
            out@ == old(out)@ + c@.subrange(from as int, i as int),
        decreases to - i,
    {
        out.push(c[i]);
        assert(c@.subrange(from as int, i + 1) =~= c@.subrange(from as int, i as int).push(
            c@[i as int],
        ));
        i = i + 1;
    }
}

/// The digits of a literal before and after its point, the number of those
/// after it, and where they end.
fn read_mantissa(c: &Vec<char>) -> (r: (Vec<char>, usize, usize))
    requires
        is_number_literal(c@),
    ensures
        r.0@ == mantissa(c@),
        all_digits(r.0@),
        r.1 == fraction(c@).len(),
        r.2 == fraction_end(c@),
        r.2 <= c.len(),
        r.1 <= r.0.len(),
{
    let n = c.len();
    let a: usize = if n > 0 && c[0] == '-' { 1 } else { 0 };
    proof {
        lemma_digits_end(c@, a as int);
    }
    let b = scan_digits(c, a);
    let mut digits: Vec<char> = Vec::new();
    copy_digits(c, a, b, &mut digits);
    let mut end = b;
    if b < n && c[b] == '.' {
        proof {
            lemma_digits_end(c@, b + 1);
        }
        end = scan_digits(c, b + 1);
        copy_digits(c, b + 1, end, &mut digits);
    }
    assert(digits@ =~= mantissa(c@));
    assert forall|i: int| 0 <= i < digits@.len() implies is_digit(#[trigger] digits@[i]) by {
        if i < b - a {
            assert(digits@[i] == c@[a + i]);
        } else {
            assert(digits@[i] == c@[b + 1 + (i - (b - a))]);
        }
    }
    let places: usize = if end > b { end - b - 1 } else { 0 };
    (digits, places, end)
}

/// The exponent of a literal whose digits after the point end at `from`:
/// its sign, and its size where that is below ten to the power 30.
fn read_exponent(c: &Vec<char>, from: usize) -> (r: (bool, Option<u128>))
    requires
        is_number_literal(c@),
        from == fraction_end(c@),
        from <= c.len(),
    ensures
        match r.1 {
            Some(size) => exponent(c@) == if r.0 {
                -(size as int)
            } else {
                size as int
            },
            None => if r.0 {
                exponent(c@) <= -1000000000000000000000000000000
            } else {
                exponent(c@) >= 1000000000000000000000000000000
            },
        },
        r.1 is Some ==> r.1->Some_0 < 1000000000000000000000000000000,
{
    let n = c.len();
    if from >= n {
        return (false, Some(0));
    }
    proof {
        lemma_digits_end(c@, digits_start(c@));
        if from + 1 < n {
            lemma_digits_end(c@, from + 1);
        }
        if from + 2 <= n {
            lemma_digits_end(c@, from + 2);
        }
    }
    let negative = from + 1 < n && c[from + 1] == '-';
    let start: usize = if from + 1 < n && (c[from + 1] == '+' || c[from + 1] == '-') {
        from + 2
    } else {
        from + 1
    };
    let ghost digits = c@.subrange(start as int, n as int);
    assert forall|i: int| 0 <= i < digits.len() implies is_digit(#[trigger] digits[i]) by {
        assert(digits[i] == c@[start + i]);
    }
    let mut size: u128 = 0;
    let mut i: usize = start;
    assert(digits.take(0) =~= Seq::<char>::empty());
    while i < n
        invariant
            start <= i <= n,
            n == c.len(),
            digits == c@.subrange(start as int, n as int),
            all_digits(digits),
            size == digits_value(digits.take(i - start)),
            size < 1000000000000000000000000000000,
            from == fraction_end(c@),
            negative == (from + 1 < n && c@[from + 1] == '-'),
            start == if from + 1 < n && (c@[from + 1] == '+' || c@[from + 1] == '-') {
                from + 2
            } else {
                from + 1
            },
        decreases n - i,
    {
        let ch = c[i];
        assert(ch == digits[i - start]);
        assert(is_digit(ch));
        let d: u128 = (ch as u32 - 48) as u128;
        let ghost next = digits.take(i - start + 1);
        assert(next.drop_last() =~= digits.take(i - start));
        assert(next.last() == ch);
        if size >= 100000000000000000000000000000 {
            proof {
                assert(digits_value(next) == size * 10 + d);
                lemma_digits_value_prefix(digits, i - start + 1);
            }
            return (negative, None);
        }
        size = size * 10 + d;
        i = i + 1;
    }
    assert(digits.take(n - start) =~= digits);
    (negative, Some(size))
}

/// Zeros in front of a string of digits do not change the number that it
/// stands for.
pub proof fn lemma_leading_zeros(a: Seq<char>, zeros: int)
    requires
        all_digits(a),
        0 <= zeros <= a.len(),
        forall|i: int| 0 <= i < zeros ==> a[i] == '0',
    ensures
        digits_value(a) == digits_value(a.skip(zeros)),
        all_digits(a.skip(zeros)),
{
    let head = a.take(zeros);
    let tail = a.skip(zeros);
    assert(a =~= head + tail);
    assert forall|i: int| 0 <= i < head.len() implies is_digit(#[trigger] head[i]) by {
        assert(head[i] == a[i]);
    }
    assert forall|i: int| 0 <= i < tail.len() implies is_digit(#[trigger] tail[i]) by {
        assert(tail[i] == a[zeros + i]);
    }
    lemma_digits_value_zero(head);
    lemma_digits_value_concat(head, tail);
    assert(0 * pow10(tail.len()) == 0) by (nonlinear_arith);
}

/// A number with digits on both sides of the point is at most a whole bound
/// where its whole part is below the bound, or is the bound with only zeros
/// after the point.
pub proof fn lemma_point_inside(a: Seq<char>, before: int, bound: nat)
    requires
        all_digits(a),
        0 <= before < a.len(),
    ensures
        scaled_at_most(digits_value(a), before - a.len(), bound) <==> digits_value(a.take(before))
            < bound || (digits_value(a.take(before)) == bound && forall|i: int|
            before <= i < a.len() ==> a[i] == '0'),
{
    let first = a.take(before);
    let rest = a.skip(before);
    assert(a =~= first + rest);
    assert forall|k: int| 0 <= k < rest.len() implies is_digit(#[trigger] rest[k]) by {
        assert(rest[k] == a[before + k]);
    }
    assert forall|k: int| 0 <= k < first.len() implies is_digit(#[trigger] first[k]) by {
        assert(first[k] == a[k]);
    }
    lemma_digits_value_concat(first, rest);
    lemma_digits_value_below(rest);
    lemma_digits_value_below(first);
    lemma_digits_value_zero(rest);
    lemma_scaled_split(digits_value(first), digits_value(rest), rest.len(), bound);
    if forall|i: int| before <= i < a.len() ==> a[i] == '0' {
        assert forall|k: int| 0 <= k < rest.len() implies rest[k] == '0' by {
            assert(rest[k] == a[before + k]);
        }
    }
    if forall|k: int| 0 <= k < rest.len() ==> rest[k] == '0' {
        assert forall|i: int| before <= i < a.len() implies a[i] == '0' by {
            assert(rest[i - before] == a[i]);
        }
    }
}

fn leading_zeros(d: &Vec<char>) -> (zeros: usize)
    ensures
        zeros <= d.len(),
        forall|i: int| 0 <= i < zeros ==> d@[i] == '0',
        zeros < d.len() ==> d@[zeros as int] != '0',
{
    let mut zeros: usize = 0;
    while zeros < d.len() && d[zeros] == '0'
        invariant
            zeros <= d.len(),
            forall|i: int| 0 <= i < zeros ==> d@[i] == '0',
        decreases d.len() - zeros,
    {
        zeros = zeros + 1;
    }
    zeros
}

fn whole_part(d: &Vec<char>, count: usize) -> (whole: u64)
    requires
        all_digits(d@),
        count <= d.len(),
        count <= 10,
    ensures
        whole == digits_value(d@.take(count as int)),
        whole < pow10(count as nat),
        pow10(count as nat) <= 10000000000,
{
    let mut whole: u64 = 0;
    let mut i: usize = 0;
    assert(d@.take(0) =~= Seq::<char>::empty());
    assert(pow10(0) == 1);
    while i < count
        invariant
            i <= count <= 10,
            count <= d.len(),
            all_digits(d@),
            whole == digits_value(d@.take(i as int)),
            whole < pow10(i as nat),
            pow10(i as nat) <= 10000000000,
        decreases count - i,
    {
        let ch = d[i];
        assert(is_digit(d@[i as int]));
        let ghost next = d@.take(i + 1);
        assert(next.drop_last() =~= d@.take(i as int));
        assert(next.last() == ch);
        assert(pow10((i + 1) as nat) == 10 * pow10(i as nat));
        proof {
            lemma_pow10_step((i + 1) as nat, 10);
            assert(pow10(10) == 10000000000) by {
                reveal_with_fuel(pow10, 11);
            }
        }
        whole = whole * 10 + (ch as u32 - 48) as u64;
        i = i + 1;
    }
    whole
}

fn power_of_ten(n: usize) -> (r: u64)
    requires
        n <= 10,
    ensures
        r == pow10(n as nat),
        r <= 10000000000,
{
    let mut r: u64 = 1;
    let mut i: usize = 0;
    assert(pow10(0) == 1);
    while i < n
        invariant
            i <= n <= 10,
            r == pow10(i as nat),
            r <= 10000000000,
        decreases n - i,
    {
        assert(pow10((i + 1) as nat) == 10 * pow10(i as nat));
        proof {
            lemma_pow10_step((i + 1) as nat, 10);
            assert(pow10(10) == 10000000000) by {
                reveal_with_fuel(pow10, 11);
            }
        }
        r = r * 10;
        i = i + 1;
    }
    r
}

fn zeros_from(d: &Vec<char>, from: usize) -> (r: bool)
    requires
        from <= d.len(),
    ensures
        r == (forall|i: int| from <= i < d.len() ==> d@[i] == '0'),
{
    let mut k: usize = from;
    while k < d.len()
        invariant
            from <= k <= d.len(),
            forall|i: int| from <= i < k ==> d@[i] == '0',
        decreases d.len() - k,
    {
        if d[k] != '0' {
            return false;
        }
        k = k + 1;
    }
    true
}

fn skip_digits(d: &Vec<char>, from: usize) -> (r: Vec<char>)
    requires
        from <= d.len(),
    ensures
        r@ == d@.skip(from as int),
{
    let mut r: Vec<char> = Vec::new();
    copy_digits(d, from, d.len(), &mut r);
    assert(r@ =~= d@.skip(from as int));
    r
}

/// Whether the number with the digits `d`, none of them a leading zero, and
/// `before` of them before the point lies between `-bound` and `bound`.
fn compare(d: &Vec<char>, before: i128, bound: u32) -> (r: bool)
    requires
        all_digits(d@),
        d.len() >= 1,
        d@[0] != '0',
        bound >= 1,
    ensures
        r == scaled_at_most(digits_value(d@), before - d.len(), bound as nat),
{
    let count = d.len();
    proof {
        lemma_digits_value_above(d@);
        lemma_digits_value_below(d@);
        assert(pow10(10) == 10000000000) by {
            reveal_with_fuel(pow10, 11);
        }
    }
    if before <= 0 {
        proof {
            lemma_scaled_small(digits_value(d@), count as nat, before - count, bound as nat);
        }
        return true;
    }
    if before >= 11 {
        proof {
            lemma_scaled_large(digits_value(d@), count as nat, before - count, bound as nat, 10);
        }
        return false;
    }
    if (count as i128) <= before {
        let whole = whole_part(d, count);
        assert(d@.take(count as int) =~= d@);
        let shift: usize = (before - count as i128) as usize;
        let factor = power_of_ten(shift);
        proof {
            lemma_pow10(count as nat, shift as nat);
            lemma_pow10_step((count + shift) as nat, 10);
            assert(whole * factor <= pow10(count as nat) * pow10(shift as nat)) by (nonlinear_arith)
                requires
                    0 <= whole < pow10(count as nat),
                    factor == pow10(shift as nat),
            ;
        }
        whole * factor <= bound as u64
    } else {
        let places = before as usize;
        let whole = whole_part(d, places);
        let nothing = zeros_from(d, places);
        proof {
            lemma_point_inside(d@, before as int, bound as nat);
        }
        whole < bound as u64 || (whole == bound as u64 && nothing)
    }
}

/// Whether the number that a literal stands for lies between `-bound` and
/// `bound`.
pub(crate) fn within(c: &Vec<char>, bound: u32) -> (r: bool)
    requires
        is_number_literal(c@),
    ensures
        r == magnitude_at_most(c@, bound as nat),
{
    let (digits, places, end) = read_mantissa(c);
    let (negative, size) = read_exponent(c, end);
    let zeros = leading_zeros(&digits);
    let ghost scale = exponent(c@) - places;
    proof {
        lemma_leading_zeros(digits@, zeros as int);
    }
    let d = skip_digits(&digits, zeros);
    if d.len() == 0 {
        proof {
            assert(digits_value(d@) == 0);
            lemma_pow10_positive(0);
            if scale >= 0 {
                assert(0 * pow10(scale as nat) == 0) by (nonlinear_arith);
            } else {
                assert(bound * pow10((-scale) as nat) >= 0) by (nonlinear_arith);
            }
        }
        return true;
    }
    assert(d@[0] == digits@[zeros as int]);
    proof {
        lemma_digits_value_above(d@);
        lemma_digits_value_below(d@);
        lemma_pow10_positive((d.len() - 1) as nat);
    }
    if bound == 0 {
        proof {
            lemma_scaled_positive(digits_value(d@), scale);
        }
        return false;
    }
    match size {
        None => {
            proof {
                assert(pow10(10) == 10000000000) by {
                    reveal_with_fuel(pow10, 11);
                }
                if negative {
                    lemma_scaled_small(digits_value(d@), d.len() as nat, scale, bound as nat);
                } else {
                    lemma_scaled_large(digits_value(d@), d.len() as nat, scale, bound as nat, 10);
                }
            }
            negative
        },
        Some(size) => {
            let exponent: i128 = if negative { -(size as i128) } else { size as i128 };
            let before: i128 = d.len() as i128 + exponent - places as i128;
            compare(&d, before, bound)
        },
    }
}

/// Whether `l` is a number literal that stands for a number between `-bound`
/// and `bound`.
pub fn literal_within(l: &str, bound: u32) -> (r: bool)
    ensures
        r == (is_number_literal(l@) && magnitude_at_most(l@, bound as nat)),
{
    if !crate::number::is_number(l) {
        return false;
    }
    let c = to_chars(l);
    within(&c, bound)
}

/// The literal stands for a number below zero, or for zero written with a
/// minus sign.
pub open spec fn has_minus(l: Seq<char>) -> bool {
    l.len() > 0 && l[0] == '-'
}

/// The power of ten by which the digits of a literal, read as a whole
/// number, are multiplied: its exponent less the number of its digits after
/// the point.
pub open spec fn scale(l: Seq<char>) -> int {
    exponent(l) - fraction(l).len()
}

/// The number `m1` times ten to the power `k1` is the number `m2` times ten
/// to the power `k2`.
pub open spec fn scaled_equal(m1: int, k1: int, m2: int, k2: int) -> bool {
    if k1 >= k2 {
        m1 * pow10((k1 - k2) as nat) == m2
    } else {
        m1 == m2 * pow10((k2 - k1) as nat)
    }
}

/// Two number literals stand for the same number: both for zero, with
/// whatever sign, or both with the same sign and the same size.
pub open spec fn equal_numbers(a: Seq<char>, b: Seq<char>) -> bool {
    let m1 = digits_value(mantissa(a));
    let m2 = digits_value(mantissa(b));
    if m1 == 0 || m2 == 0 {
        m1 == 0 && m2 == 0
    } else {
        has_minus(a) == has_minus(b) && scaled_equal(m1, scale(a), m2, scale(b))
    }
}

/// Two texts stand for the same number, where both are number literals; two
/// texts of which one is no number literal are the same only as texts.
pub open spec fn same_literal(a: Seq<char>, b: Seq<char>) -> bool {
    if is_number_literal(a) && is_number_literal(b) {
        equal_numbers(a, b)
    } else {
        a == b
    }
}

/// A literal stands for the same number as itself.
pub proof fn lemma_equal_numbers_reflexive(a: Seq<char>)
    ensures
        equal_numbers(a, a),
        same_literal(a, a),
{
    let m = digits_value(mantissa(a));
    assert(pow10(0) == 1);
    assert(m * 1 == m);
}

/// Numbers that do not end in a zero, each times a power of ten, are equal
/// only where the numbers are equal and the powers are.
pub proof fn lemma_pow10_cancel(d1: int, u: nat, d2: int, v: nat)
    requires
        d1 > 0,
        d2 > 0,
        d1 % 10 != 0,
        d2 % 10 != 0,
    ensures
        d1 * pow10(u) == d2 * pow10(v) <==> d1 == d2 && u == v,
    decreases u,
{
    assert(pow10(0) == 1);
    if u == 0 {
        assert(d1 * pow10(0) == d1) by (nonlinear_arith)
            requires
                pow10(0) == 1,
        ;
        if v > 0 {
            let p = pow10((v - 1) as nat) as int;
            assert(pow10(v) == 10 * p);
            assert(d2 * (10 * p) == 10 * (d2 * p)) by (nonlinear_arith);
            assert((10 * (d2 * p)) % 10 == 0);
        } else {
            assert(d2 * pow10(0) == d2) by (nonlinear_arith)
                requires
                    pow10(0) == 1,
            ;
        }
    } else if v == 0 {
        let p = pow10((u - 1) as nat) as int;
        assert(pow10(u) == 10 * p);
        assert(d1 * (10 * p) == 10 * (d1 * p)) by (nonlinear_arith);
        assert((10 * (d1 * p)) % 10 == 0);
        assert(d2 * pow10(0) == d2) by (nonlinear_arith)
            requires
                pow10(0) == 1,
        ;
    } else {
        let p = pow10((u - 1) as nat) as int;
        let q = pow10((v - 1) as nat) as int;
        assert(pow10(u) == 10 * p && pow10(v) == 10 * q);
        lemma_pow10_cancel(d1, (u - 1) as nat, d2, (v - 1) as nat);
        assert(d1 * (10 * p) == 10 * (d1 * p)) by (nonlinear_arith);
        assert(d2 * (10 * q) == 10 * (d2 * q)) by (nonlinear_arith);
    }
}

/// Two numbers, given by their digits without the zeros at their ends and by
/// the number of those zeros, are equal under their scales only where the
/// digits are equal and the scales, with the zeros counted in, are.
pub proof fn lemma_scaled_equal_cores(d1: int, t1: nat, k1: int, d2: int, t2: nat, k2: int)
    requires
        d1 > 0,
        d2 > 0,
        d1 % 10 != 0,
        d2 % 10 != 0,
    ensures
        scaled_equal(d1 * pow10(t1), k1, d2 * pow10(t2), k2) <==> d1 == d2 && k1 + t1 == k2 + t2,
{
    if k1 >= k2 {
        let g = (k1 - k2) as nat;
        lemma_pow10(t1, g);
        assert((d1 * pow10(t1)) * pow10(g) == d1 * (pow10(t1) * pow10(g))) by (nonlinear_arith);
        lemma_pow10_cancel(d1, t1 + g, d2, t2);
    } else {
        let g = (k2 - k1) as nat;
        lemma_pow10(t2, g);
        assert((d2 * pow10(t2)) * pow10(g) == d2 * (pow10(t2) * pow10(g))) by (nonlinear_arith);
        lemma_pow10_cancel(d1, t1, d2, t2 + g);
    }
}

/// Strings of digits of one length that stand for the same number are the
/// same.
pub proof fn lemma_same_length_digits(a: Seq<char>, b: Seq<char>)
    requires
        all_digits(a),
        all_digits(b),
        a.len() == b.len(),
        digits_value(a) == digits_value(b),
    ensures
        a == b,
    decreases a.len(),
{
    if a.len() > 0 {
        let x = a.drop_last();
        let y = b.drop_last();
        assert(is_digit(a[a.len() - 1]) && is_digit(b[b.len() - 1]));
        assert forall|i: int| 0 <= i < x.len() implies is_digit(#[trigger] x[i]) by {
            assert(x[i] == a[i]);
        }
        assert forall|i: int| 0 <= i < y.len() implies is_digit(#[trigger] y[i]) by {
            assert(y[i] == b[i]);
        }
        lemma_digits_value_below(x);
        lemma_digits_value_below(y);
        lemma_same_length_digits(x, y);
        assert(a =~= x.push(a.last()));
        assert(b =~= y.push(b.last()));
    } else {
        assert(a =~= b);
    }
}

/// Strings of digits without zeros in front that stand for the same number
/// are the same.
pub proof fn lemma_digits_injective(a: Seq<char>, b: Seq<char>)
    requires
        all_digits(a),
        all_digits(b),
        a.len() >= 1,
        b.len() >= 1,
        a[0] != '0',
        b[0] != '0',
        digits_value(a) == digits_value(b),
    ensures
        a == b,
{
    lemma_digits_value_below(a);
    lemma_digits_value_below(b);
    lemma_digits_value_above(a);
    lemma_digits_value_above(b);
    if a.len() < b.len() {
        lemma_pow10_step(a.len(), (b.len() - 1) as nat);
    } else if b.len() < a.len() {
        lemma_pow10_step(b.len(), (a.len() - 1) as nat);
    } else {
        lemma_same_length_digits(a, b);
    }
}

/// The digits of a number without the zeros in front and at the end, and the
/// number of zeros at the end; no digits where the number is zero.
fn core_digits(d: &Vec<char>) -> (r: (Vec<char>, usize))
    requires
        all_digits(d@),
    ensures
        all_digits(r.0@),
        r.0.len() == 0 ==> digits_value(d@) == 0,
        r.0.len() > 0 ==> r.0@[0] != '0' && r.0@[r.0.len() - 1] != '0' && digits_value(d@)
            == digits_value(r.0@) * pow10(r.1 as nat) && digits_value(r.0@) > 0 && digits_value(
            r.0@,
        ) % 10 != 0 && digits_value(d@) > 0,
{
    let n = d.len();
    let zeros = leading_zeros(d);
    proof {
        lemma_leading_zeros(d@, zeros as int);
    }
    if zeros == n {
        assert(d@.skip(zeros as int) =~= Seq::<char>::empty());
        return (Vec::new(), 0);
    }
    let mut end: usize = n;
    while end > zeros + 1 && d[end - 1] == '0'
        invariant
            zeros < end <= n,
            n == d.len(),
            forall|i: int| end <= i < n ==> d@[i] == '0',
        decreases end,
    {
        end = end - 1;
    }
    let mut core: Vec<char> = Vec::new();
    copy_digits(d, zeros, end, &mut core);
    proof {
        let c = core@;
        let tail = d@.subrange(end as int, n as int);
        assert(c =~= d@.subrange(zeros as int, end as int));
        assert(d@.skip(zeros as int) =~= c + tail);
        assert forall|i: int| 0 <= i < c.len() implies is_digit(#[trigger] c[i]) by {
            assert(c[i] == d@[zeros + i]);
        }
        assert forall|i: int| 0 <= i < tail.len() implies is_digit(#[trigger] tail[i]) by {
            assert(tail[i] == d@[end + i]);
        }
        assert forall|i: int| 0 <= i < tail.len() implies tail[i] == '0' by {
            assert(tail[i] == d@[end + i]);
        }
        lemma_digits_value_zero(tail);
        lemma_digits_value_concat(c, tail);
        assert(c[0] == d@[zeros as int]);
        assert(c[c.len() - 1] == d@[end - 1]);
        lemma_digits_value_above(c);
        lemma_pow10_positive((c.len() - 1) as nat);
        lemma_pow10_positive(tail.len());
        let prefix = c.drop_last();
        assert forall|i: int| 0 <= i < prefix.len() implies is_digit(#[trigger] prefix[i]) by {
            assert(prefix[i] == c[i]);
        }
        lemma_digits_value_below(prefix);
        assert(is_digit(c[c.len() - 1]));
        assert(digits_value(c) == digits_value(prefix) * 10 + digit_value(c.last()));
        assert(digits_value(c) * pow10(tail.len()) > 0) by (nonlinear_arith)
            requires
                digits_value(c) > 0,
                pow10(tail.len()) >= 1,
        ;
    }
    (core, n - end)
}

fn same_digits(a: &Vec<char>, b: &Vec<char>) -> (r: bool)
    ensures
        r == (a@ == b@),
{
    if a.len() != b.len() {
        return false;
    }
    let mut i: usize = 0;
    while i < a.len()
        invariant
            i <= a.len(),
            a.len() == b.len(),
            forall|k: int| 0 <= k < i ==> a@[k] == b@[k],
        decreases a.len() - i,
    {
        if a[i] != b[i] {
            return false;
        }
        i = i + 1;
    }
    assert(a@ =~= b@);
    true
}

/// The digits of the exponent of a literal whose digits after the point end
/// at `from`, and whether a minus sign stands before them; no digits where
/// the literal has no exponent.
fn exponent_digits(c: &Vec<char>, from: usize) -> (r: (bool, Vec<char>))
    requires
        is_number_literal(c@),
        from == fraction_end(c@),
        from <= c.len(),
    ensures
        all_digits(r.1@),
        exponent(c@) == with_sign(r.0, digits_value(r.1@)),
{
    let n = c.len();
    if from >= n {
        return (false, Vec::new());
    }
    proof {
        lemma_digits_end(c@, digits_start(c@));
        if from + 1 < n {
            lemma_digits_end(c@, from + 1);
        }
        if from + 2 <= n {
            lemma_digits_end(c@, from + 2);
        }
    }
    let negative = from + 1 < n && c[from + 1] == '-';
    let start: usize = if from + 1 < n && (c[from + 1] == '+' || c[from + 1] == '-') {
        from + 2
    } else {
        from + 1
    };
    let mut digits: Vec<char> = Vec::new();
    copy_digits(c, start, n, &mut digits);
    assert(digits@ =~= c@.subrange(start as int, n as int));
    assert forall|i: int| 0 <= i < digits@.len() implies is_digit(#[trigger] digits@[i]) by {
        assert(digits@[i] == c@[start + i]);
    }
    (negative, digits)
}

/// A number with its sign.
pub open spec fn with_sign(negative: bool, size: int) -> int {
    if negative {
        -size
    } else {
        size
    }
}

/// How many of the first `i` places of a number of `n` places, written with
/// zeros in front of its `len` digits, are digits of its own.
pub open spec fn own_digits(i: int, n: int, len: int) -> int {
    if i >= n - len {
        i - (n - len)
    } else {
        0
    }
}

/// The difference of two whole numbers, each given by its digits and its
/// sign, where it is smaller than ten to the power 30; nothing where it is
/// not.
fn signed_difference(x: &Vec<char>, x_negative: bool, y: &Vec<char>, y_negative: bool) -> (r:
    Option<i128>)
    requires
        all_digits(x@),
        all_digits(y@),
    ensures
        match r {
            Some(v) => v == with_sign(x_negative, digits_value(x@)) - with_sign(
                y_negative,
                digits_value(y@),
            ),
            None => {
                let v = with_sign(x_negative, digits_value(x@)) - with_sign(
                    y_negative,
                    digits_value(y@),
                );
                v >= 1000000000000000000000000000000 || v <= -1000000000000000000000000000000
            },
        },
{
    let n: usize = if x.len() >= y.len() { x.len() } else { y.len() };
    let x_pad: usize = n - x.len();
    let y_pad: usize = n - y.len();
    let mut difference: i128 = 0;
    let mut beyond: bool = false;
    let mut i: usize = 0;
    assert(x@.take(0) =~= Seq::<char>::empty());
    assert(y@.take(0) =~= Seq::<char>::empty());
    while i < n
        invariant
            i <= n,
            x_pad == n - x.len(),
            y_pad == n - y.len(),
            x.len() <= n,
            y.len() <= n,
            all_digits(x@),
            all_digits(y@),
            ({
                let v = with_sign(
                    x_negative,
                    digits_value(x@.take(own_digits(i as int, n as int, x.len() as int))),
                ) - with_sign(
                    y_negative,
                    digits_value(y@.take(own_digits(i as int, n as int, y.len() as int))),
                );
                if beyond {
                    v >= 1000000000000000000000000000000 || v <= -1000000000000000000000000000000
                } else {
                    v == difference && -1000000000000000000000000000000 < difference
                        < 1000000000000000000000000000000
                }
            }),
        decreases n - i,
    {
        let ghost xj = own_digits(i as int, n as int, x.len() as int);
        let ghost yj = own_digits(i as int, n as int, y.len() as int);
        let mut a: i128 = 0;
        if i >= x_pad {
            let ch = x[i - x_pad];
            assert(is_digit(x@[i - x_pad]));
            a = (ch as u32 - 48) as i128;
            let ghost next = x@.take(xj + 1);
            assert(next.drop_last() =~= x@.take(xj));
            assert(next.last() == ch);
            assert(digits_value(next) == digits_value(x@.take(xj)) * 10 + a);
        } else {
            assert(digits_value(x@.take(0)) == 0);
        }
        let mut b: i128 = 0;
        if i >= y_pad {
            let ch = y[i - y_pad];
            assert(is_digit(y@[i - y_pad]));
            b = (ch as u32 - 48) as i128;
            let ghost next = y@.take(yj + 1);
            assert(next.drop_last() =~= y@.take(yj));
            assert(next.last() == ch);
            assert(digits_value(next) == digits_value(y@.take(yj)) * 10 + b);
        } else {
            assert(digits_value(y@.take(0)) == 0);
        }
        let step: i128 = (if x_negative { -a } else { a }) - (if y_negative { -b } else { b });
        if !beyond {
            let next: i128 = difference * 10 + step;
            if next >= 1000000000000000000000000000000 || next <= -1000000000000000000000000000000 {
                beyond = true;
            } else {
                difference = next;
            }
        }
        i = i + 1;
    }
    assert(x@.take(x.len() as int) =~= x@);
    assert(y@.take(y.len() as int) =~= y@);
    if beyond {
        None
    } else {
        Some(difference)
    }
}

/// Whether two number literals stand for the same number.
pub(crate) fn same_number(a: &Vec<char>, b: &Vec<char>) -> (r: bool)
    requires
        is_number_literal(a@),
        is_number_literal(b@),
    ensures
        r == equal_numbers(a@, b@),
{
    let (a_digits, a_places, a_end) = read_mantissa(a);
    let (b_digits, b_places, b_end) = read_mantissa(b);
    let (a_core, a_zeros) = core_digits(&a_digits);
    let (b_core, b_zeros) = core_digits(&b_digits);
    if a_core.len() == 0 || b_core.len() == 0 {
        return a_core.len() == 0 && b_core.len() == 0;
    }
    let a_minus = a.len() > 0 && a[0] == '-';
    let b_minus = b.len() > 0 && b[0] == '-';
    if a_minus != b_minus {
        return false;
    }
    proof {
        lemma_scaled_equal_cores(
            digits_value(a_core@),
            a_zeros as nat,
            scale(a@),
            digits_value(b_core@),
            b_zeros as nat,
            scale(b@),
        );
    }
    if !same_digits(&a_core, &b_core) {
        proof {
            if digits_value(a_core@) == digits_value(b_core@) {
                lemma_digits_injective(a_core@, b_core@);
            }
        }
        return false;
    }
    let (a_negative, a_exponent) = exponent_digits(a, a_end);
    let (b_negative, b_exponent) = exponent_digits(b, b_end);
    let wanted: i128 = (a_places as i128 - a_zeros as i128) - (b_places as i128 - b_zeros as i128);
    match signed_difference(&a_exponent, a_negative, &b_exponent, b_negative) {
        Some(v) => v == wanted,
        None => false,
    }
}

/// Whether two texts stand for the same number, where both are number
/// literals, or are the same text, where one is none.
pub fn same_number_or_text(a: &str, b: &str) -> (r: bool)
    ensures
        r == same_literal(a@, b@),
{
    if crate::number::is_number(a) && crate::number::is_number(b) {
        let x = to_chars(a);
        let y = to_chars(b);
        same_number(&x, &y)
    } else {
        crate::text::same_text(a, b)
    }
}

} // verus!
