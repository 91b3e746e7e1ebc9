//! Decimal integers, as the wire carries them inside strings, and the
//! number literals of JSON.

use vstd::prelude::*;
use crate::text::{from_chars, to_chars};

verus! {

/// One of the ten decimal digits.
pub open spec fn is_digit(c: char) -> bool {
    48 <= c as int <= 57
}

/// The number that a digit stands for.
pub open spec fn digit_value(c: char) -> int {
    c as int - 48
}

/// The digit that stands for `d`, for `d` from 0 to 9.
pub open spec fn digit_char(d: int) -> char {
    (d + 48) as char
}

/// Every character of `s` is a digit.
pub open spec fn all_digits(s: Seq<char>) -> bool {
    forall|i: int| 0 <= i < s.len() ==> is_digit(#[trigger] s[i])
}

/// The number that a string of digits stands for, most significant first.
pub open spec fn digits_value(s: Seq<char>) -> int
    decreases s.len(),
{
    if s.len() == 0 {
        0
    } else {
        digits_value(s.drop_last()) * 10 + digit_value(s.last())
    }
}

/// A decimal integer: an optional minus sign, then at least one digit.
pub open spec fn is_decimal(s: Seq<char>) -> bool {
    if s.len() > 0 && s[0] == '-' {
        s.len() > 1 && all_digits(s.skip(1))
    } else {
        s.len() > 0 && all_digits(s)
    }
}

/// The integer that a decimal stands for.
pub open spec fn decimal_value(s: Seq<char>) -> int {
    if s.len() > 0 && s[0] == '-' {
        -digits_value(s.skip(1))
    } else {
        digits_value(s)
    }
}

/// Reading `s` as an integer between `lo` and `hi`: its value where `s` is a
/// decimal in that range, nothing otherwise.
pub open spec fn parse_decimal(s: Seq<char>, lo: int, hi: int) -> Option<int> {
    if is_decimal(s) && lo <= decimal_value(s) <= hi {
        Some(decimal_value(s))
    } else {
        None
    }
}

/// The digits of `n`, without leading zeros.
pub open spec fn nat_digits(n: nat) -> Seq<char>
    decreases n,
{
    if n < 10 {
        seq![digit_char(n as int)]
    } else {
        nat_digits(n / 10).push(digit_char((n % 10) as int))
    }
}

/// The decimal that stands for `i`.
pub open spec fn decimal_of(i: int) -> Seq<char> {
    if i < 0 {
        seq!['-'] + nat_digits((-i) as nat)
    } else {
        nat_digits(i as nat)
    }
}

/// The digits of a number are digits, and stand for that number.
pub proof fn lemma_nat_digits(n: nat)
    ensures
        nat_digits(n).len() >= 1,
        all_digits(nat_digits(n)),
        digits_value(nat_digits(n)) == n,
    decreases n,
{
    if n < 10 {
        let s = nat_digits(n);
        assert(s.drop_last() =~= Seq::<char>::empty());
        assert(digits_value(s.drop_last()) == 0);
    } else {
        lemma_nat_digits(n / 10);
        let s = nat_digits(n);
        assert(s.drop_last() =~= nat_digits(n / 10));
        assert(s.last() == digit_char((n % 10) as int));
    }
}

/// Writing an integer as a decimal and reading it back gives the integer,
/// whatever range it is read in, as long as it lies in that range.
pub proof fn lemma_decimal_round_trip(i: int, lo: int, hi: int)
    requires
        lo <= i <= hi,
    ensures
        is_decimal(decimal_of(i)),
        parse_decimal(decimal_of(i), lo, hi) == Some(i),
{
    let s = decimal_of(i);
    if i < 0 {
        lemma_nat_digits((-i) as nat);
        assert(s.skip(1) =~= nat_digits((-i) as nat));
    } else {
        lemma_nat_digits(i as nat);
        assert(is_digit(s[0]));
    }
}

/// A string of digits stands for a number that is not negative.
pub proof fn lemma_digits_value_nonnegative(s: Seq<char>)
    requires
        all_digits(s),
    ensures
        0 <= digits_value(s),
    decreases s.len(),
{
    if s.len() > 0 {
        assert(is_digit(s[s.len() - 1]));
        lemma_digits_value_nonnegative(s.drop_last());
    }
}

/// A prefix of a string of digits stands for no more than the whole.
pub proof fn lemma_digits_value_prefix(s: Seq<char>, k: int)
    requires
        all_digits(s),
        0 <= k <= s.len(),
    ensures
        0 <= digits_value(s.take(k)) <= digits_value(s),
    decreases s.len() - k,
{
    lemma_digits_value_nonnegative(s.take(k));
    if k == s.len() {
        assert(s.take(k) =~= s);
    } else {
        lemma_digits_value_prefix(s, k + 1);
        let t = s.take(k + 1);
        assert(t.drop_last() =~= s.take(k));
        assert(is_digit(s[k]) && t.last() == s[k]);
    }
}

fn push_nat_digits(n: u64, out: &mut Vec<char>)
    ensures
        final(out)@ == old(out)@ + nat_digits(n as nat),
    decreases n,
{
    if n >= 10 {
        push_nat_digits(n / 10, out);
    }
    let d: u8 = (n % 10) as u8;
    let c: char = (48u8 + d) as char;
    assert(c == digit_char((n % 10) as int));
    out.push(c);
    assert(out@ =~= old(out)@ + nat_digits(n as nat));
}

/// The decimal that stands for `i`.
pub fn i64_to_decimal(i: i64) -> (s: String)
    ensures
        s@ == decimal_of(i as int),
{
    let mut out: Vec<char> = Vec::new();
    if i < 0 {
        out.push('-');
        let magnitude: u64 = ((-(i + 1)) as u64) + 1;
        push_nat_digits(magnitude, &mut out);
    } else {
        push_nat_digits(i as u64, &mut out);
    }
    assert(out@ =~= decimal_of(i as int));
    from_chars(&out)
}

/// The integer of an optional machine integer.
pub open spec fn int_of(r: Option<i64>) -> Option<int> {
    match r {
        Some(v) => Some(v as int),
        None => None,
    }
}

/// Reads a decimal 64-bit integer: the value, or nothing where `s` is no
/// decimal or stands for a number that 64 bits cannot hold.
pub fn parse_i64(s: &str) -> (r: Option<i64>)
    ensures
        int_of(r) == parse_decimal(s@, i64::MIN as int, i64::MAX as int),
{
    let c = to_chars(s);
    let n = c.len();
    let negative = n > 0 && c[0] == '-';
    let start: usize = if negative { 1 } else { 0 };
    if start >= n {
        return None;
    }
    let limit: u64 = if negative { 9223372036854775808 } else { 9223372036854775807 };
    let ghost digits = c@.skip(start as int);
    assert(c@.skip(0) =~= c@);
    let mut acc: u64 = 0;
    let mut i: usize = start;
    assert(digits.take(0) =~= Seq::<char>::empty());
    while i < n
        invariant
            start <= i <= n,
            n == c.len(),
            c@ == s@,
            digits == c@.skip(start as int),
            all_digits(digits.take(i - start)),
            acc == digits_value(digits.take(i - start)),
            acc <= limit,
            negative == (c@.len() > 0 && c@[0] == '-'),
            start == if negative { 1int } else { 0int },
            limit == if negative { 9223372036854775808int } else { 9223372036854775807int },
        decreases n - i,
    {
        let ch = c[i];
        assert(ch == digits[i - start]);
        if !(ch >= '0' && ch <= '9') {
            assert(!is_digit(digits[i - start]));
            return None;
        }
        assert(is_digit(ch));
        let d: u64 = (ch as u32 - 48) as u64;
        assert(d == digit_value(ch));
        let ghost next = digits.take(i - start + 1);
        assert(next.drop_last() =~= digits.take(i - start));
        assert(next.last() == ch);
        assert(all_digits(next)) by {
            assert forall|k: int| 0 <= k < next.len() implies is_digit(#[trigger] next[k]) by {
                if k < next.len() - 1 {
                    assert(next[k] == digits.take(i - start)[k]);
                }
            }
        }
        if acc > (limit - d) / 10 {
            proof {
                assert(digits_value(next) == acc * 10 + d);
                assert(acc * 10 + d > limit);
                assert(c@.skip(0) =~= c@);
                if all_digits(digits) {
                    lemma_digits_value_prefix(digits, i - start + 1);
                }
            }
            return None;
        }
        acc = acc * 10 + d;
        i = i + 1;
    }
    assert(digits.take(n - start) =~= digits);
    assert(c@.skip(0) =~= c@);
    if negative {
        if acc == 9223372036854775808 {
            Some(i64::MIN)
        } else {
            Some(-(acc as i64))
        }
    } else {
        Some(acc as i64)
    }
}

/// Where the run of digits that starts at `i` ends.
pub open spec fn digits_end(s: Seq<char>, i: int) -> int
    decreases s.len() - i,
{
    if 0 <= i < s.len() && is_digit(s[i]) {
        digits_end(s, i + 1)
    } else {
        i
    }
}

/// Where the number literal that starts at `i` ends, if one starts there: an
/// optional minus sign; an integer part, which is `0` or starts with another
/// digit; optionally a point and at least one digit; optionally an exponent,
/// which is `e` or `E`, an optional sign and at least one digit. The literal
/// is the longest that starts there.
pub open spec fn number_scan(s: Seq<char>, i: int) -> Option<int> {
    let a = if 0 <= i < s.len() && s[i] == '-' { i + 1 } else { i };
    let b = digits_end(s, a);
    let c = if b < s.len() && s[b] == '.' { digits_end(s, b + 1) } else { b };
    let d = if c < s.len() && (s[c] == 'e' || s[c] == 'E') {
        if c + 1 < s.len() && (s[c + 1] == '+' || s[c + 1] == '-') {
            c + 2
        } else {
            c + 1
        }
    } else {
        c
    };
    let e = if d > c { digits_end(s, d) } else { c };
    if b > a && (s[a] == '0' ==> b == a + 1) && c != b + 1 && (d > c ==> e > d) {
        Some(e)
    } else {
        None
    }
}

/// A number literal of JSON: the whole of `s` is one.
pub open spec fn is_number_literal(s: Seq<char>) -> bool {
    number_scan(s, 0) == Some(s.len() as int)
}

/// The end of a run of digits lies between its start and the end of the text.
pub proof fn lemma_digits_end(s: Seq<char>, i: int)
    requires
        0 <= i <= s.len(),
    ensures
        i <= digits_end(s, i) <= s.len(),
        forall|k: int| i <= k < digits_end(s, i) ==> is_digit(#[trigger] s[k]),
        digits_end(s, i) < s.len() ==> !is_digit(s[digits_end(s, i)]),
    decreases s.len() - i,
{
    if i < s.len() && is_digit(s[i]) {
        lemma_digits_end(s, i + 1);
    }
}

pub(crate) fn scan_digits(c: &Vec<char>, from: usize) -> (to: usize)
    requires
        from <= c.len(),
    ensures
        to == digits_end(c@, from as int),
        from <= to <= c.len(),
{
    let mut i: usize = from;
    while i < c.len() && c[i] >= '0' && c[i] <= '9'
        invariant
            from <= i <= c.len(),
            digits_end(c@, from as int) == digits_end(c@, i as int),
        decreases c.len() - i,
    {
        i = i + 1;
    }
    i
}

/// Where the number literal that starts at `from` ends, if one starts there.
pub(crate) fn scan_number(c: &Vec<char>, from: usize) -> (r: Option<usize>)
    requires
        from <= c.len(),
    ensures
        match r {
            Some(to) => number_scan(c@, from as int) == Some(to as int) && from < to <= c.len(),
            None => number_scan(c@, from as int) is None,
        },
{
    let n = c.len();
    let a: usize = if from < n && c[from] == '-' { from + 1 } else { from };
    let b = scan_digits(c, a);
    if b == a {
        return None;
    }
    if c[a] == '0' && b != a + 1 {
        return None;
    }
    let mut e: usize = b;
    if b < n && c[b] == '.' {
        e = scan_digits(c, b + 1);
        if e == b + 1 {
            return None;
        }
    }
    if e < n && (c[e] == 'e' || c[e] == 'E') {
        let d: usize = if e + 1 < n && (c[e + 1] == '+' || c[e + 1] == '-') { e + 2 } else { e + 1 };
        e = scan_digits(c, d);
        if e == d {
            return None;
        }
    }
    Some(e)
}

/// Whether `s` is a number literal of JSON.
pub fn is_number(s: &str) -> (r: bool)
    ensures
        r == is_number_literal(s@),
{
    let c = to_chars(s);
    match scan_number(&c, 0) {
        Some(e) => e == c.len(),
        None => false,
    }
}

/// The digits of a number start with a zero only where the number is zero.
pub proof fn lemma_nat_digits_start(n: nat)
    ensures
        nat_digits(n)[0] == '0' ==> n == 0 && nat_digits(n).len() == 1,
    decreases n,
{
    if n >= 10 {
        lemma_nat_digits(n / 10);
        lemma_nat_digits_start(n / 10);
        assert(nat_digits(n)[0] == nat_digits(n / 10)[0]);
    }
}

/// A run of digits that reaches the end of the text ends there.
pub proof fn lemma_digits_to_the_end(s: Seq<char>, i: int)
    requires
        0 <= i <= s.len(),
        forall|k: int| i <= k < s.len() ==> is_digit(#[trigger] s[k]),
    ensures
        digits_end(s, i) == s.len(),
    decreases s.len() - i,
{
    if i < s.len() {
        lemma_digits_to_the_end(s, i + 1);
    }
}

/// The decimal of an integer is a number literal.
pub proof fn lemma_decimal_is_literal(i: int)
    ensures
        is_number_literal(decimal_of(i)),
{
    let s = decimal_of(i);
    let n: nat = if i < 0 { (-i) as nat } else { i as nat };
    lemma_nat_digits(n);
    lemma_nat_digits_start(n);
    let d = nat_digits(n);
    if i < 0 {
        assert(s[0] == '-');
        assert forall|k: int| 1 <= k < s.len() implies is_digit(#[trigger] s[k]) by {
            assert(s[k] == d[k - 1]);
        }
        lemma_digits_to_the_end(s, 1);
        assert(s[1] == d[0]);
    } else {
        assert(is_digit(d[0]));
        lemma_digits_to_the_end(s, 0);
    }
}

} // verus!
