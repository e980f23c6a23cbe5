//! Decimal notation and integer logarithms.

use vstd::arithmetic::power2;
use vstd::prelude::*;

verus! {

/// Whether `c` is one of the ASCII digits.
pub open spec fn is_digit(c: char) -> bool {
    '0' <= c <= '9'
}

/// The value of an ASCII digit.
pub open spec fn digit_value(c: char) -> int {
    c as int - '0' as int
}

/// The ASCII digit of value `d`.
pub open spec fn digit_char(d: int) -> char {
    ('0' as int + d) as char
}

/// The number that a sequence of digits writes in base ten.
pub open spec fn digits_value(s: Seq<char>) -> int
    decreases s.len(),
{
    if s.len() == 0 {
        0
    } else {
        digits_value(s.drop_last()) * 10 + digit_value(s.last())
    }
}

/// `s` without one plus sign at its start.
pub open spec fn unsigned_part(s: Seq<char>) -> Seq<char> {
    if s.len() > 0 && s[0] == '+' {
        s.drop_first()
    } else {
        s
    }
}

/// The number written by `s`: an optional plus sign and at least one digit,
/// nothing else. `None` for any other text and for a number above `max`.
pub open spec fn parsed(s: Seq<char>, max: int) -> Option<int> {
    let digits = unsigned_part(s);
    if digits.len() > 0 && (forall|i: int| 0 <= i < digits.len() ==> is_digit(#[trigger] digits[i]))
        && digits_value(digits) <= max {
        Some(digits_value(digits))
    } else {
        None
    }
}

proof fn lemma_digits_value_bounds(s: Seq<char>)
    requires
        forall|i: int| 0 <= i < s.len() ==> is_digit(#[trigger] s[i]),
    ensures
        0 <= digits_value(s),
    decreases s.len(),
{
    if s.len() > 0 {
        assert forall|i: int| 0 <= i < s.drop_last().len() implies is_digit(
            #[trigger] s.drop_last()[i],
        ) by {
            assert(s.drop_last()[i] == s[i]);
        }
        lemma_digits_value_bounds(s.drop_last());
        assert(is_digit(s[s.len() - 1]));
    }
}

/// What is read is between zero and `max`.
pub proof fn lemma_parsed_range(s: Seq<char>, max: int)
    ensures
        parsed(s, max) matches Some(n) ==> 0 <= n <= max,
{
    if parsed(s, max) is Some {
        lemma_digits_value_bounds(unsigned_part(s));
    }
}

/// More digits never make a smaller number.
proof fn lemma_digits_value_grows(s: Seq<char>, n: int)
    requires
        0 <= n <= s.len(),
        forall|i: int| 0 <= i < s.len() ==> is_digit(#[trigger] s[i]),
    ensures
        digits_value(s.take(n)) <= digits_value(s),
    decreases s.len(),
{
    if n == s.len() {
        assert(s.take(n) =~= s);
    } else {
        let t = s.drop_last();
        assert forall|i: int| 0 <= i < t.len() implies is_digit(#[trigger] t[i]) by {
            assert(t[i] == s[i]);
        }
        lemma_digits_value_grows(t, n);
        lemma_digits_value_bounds(t);
        assert(t.take(n) =~= s.take(n));
        assert(is_digit(s[s.len() - 1]));
    }
}

/// Reads a decimal number of at most `max`.
pub fn parse_number(s: &[char], max: u64) -> (n: Option<u64>)
    ensures
        (match n {
            Some(v) => parsed(s@, max as int) == Some(v as int),
            None => parsed(s@, max as int) is None,
        }),
{
    let digits: &[char] = if s.len() > 0 && s[0] == '+' {
        &s[1..s.len()]
    } else {
        s
    };
    assert(digits@ =~= unsigned_part(s@));
    if digits.len() == 0 {
        return None;
    }
    let mut value: u64 = 0;
    for i in 0..digits.len()
        invariant
            digits@ == unsigned_part(s@),
            forall|k: int| 0 <= k < i ==> is_digit(#[trigger] digits@[k]),
            value == digits_value(digits@.take(i as int)),
            value <= max,
    {
        let c = digits[i];
        if c < '0' || c > '9' {
            assert(!is_digit(digits@[i as int]));
            return None;
        }
        let d: u64 = (c as u32 - '0' as u32) as u64;
        let ghost next = digits@.take(i + 1);
        assert(next.drop_last() =~= digits@.take(i as int));
        assert(next.last() == c);
        if d > max || value > (max - d) / 10 {
            proof {
                assert(value * 10 + d > max);
                if forall|k: int| 0 <= k < digits@.len() ==> is_digit(#[trigger] digits@[k]) {
                    lemma_digits_value_grows(digits@, i + 1);
                }
            }
            return None;
        }
        value = value * 10 + d;
    }
    assert(digits@.take(digits@.len() as int) =~= digits@);
    Some(value)
}

/// `n` in decimal notation, without leading zeros.
pub open spec fn decimal(n: int) -> Seq<char>
    decreases n,
{
    if n < 10 {
        seq![digit_char(n)]
    } else {
        decimal(n / 10).push(digit_char(n % 10))
    }
}

/// A decimal notation has only digits, and reads back as the number.
pub proof fn lemma_decimal_reads_back(n: int)
    requires
        0 <= n,
    ensures
        decimal(n).len() > 0,
        forall|i: int| 0 <= i < decimal(n).len() ==> is_digit(#[trigger] decimal(n)[i]),
        digits_value(decimal(n)) == n,
    decreases n,
{
    if n < 10 {
        assert(decimal(n).drop_last() =~= Seq::<char>::empty());
        assert(digits_value(decimal(n).drop_last()) == 0);
    } else {
        lemma_decimal_reads_back(n / 10);
        assert(decimal(n).drop_last() =~= decimal(n / 10));
        assert forall|i: int| 0 <= i < decimal(n).len() implies is_digit(
            #[trigger] decimal(n)[i],
        ) by {
            if i < decimal(n).len() - 1 {
                assert(decimal(n)[i] == decimal(n / 10)[i]);
            }
        }
    }
}

/// Reading the decimal notation of a number of at most `max` gives that number.
pub proof fn lemma_parsed_decimal(n: int, max: int)
    requires
        0 <= n <= max,
    ensures
        parsed(decimal(n), max) == Some(n),
{
    lemma_decimal_reads_back(n);
    assert(is_digit(decimal(n)[0]));
    assert(unsigned_part(decimal(n)) == decimal(n));
}

/// Writes `n` in decimal notation.
pub fn write_number(n: u64) -> (s: Vec<char>)
    ensures
        s@ == decimal(n as int),
    decreases n,
{
    let d: u8 = (n % 10) as u8;
    let c: char = ('0' as u8 + d) as char;
    if n < 10 {
        let mut s: Vec<char> = Vec::new();
        s.push(c);
        assert(s@ =~= decimal(n as int));
        s
    } else {
        let mut s = write_number(n / 10);
        s.push(c);
        s
    }
}

/// The exponent of the largest power of two that is at most `n`.
pub open spec fn floor_log2(n: int) -> int
    decreases n,
{
    if n <= 1 {
        0
    } else {
        1 + floor_log2(n / 2)
    }
}

/// `floor_log2` is the binary logarithm rounded down.
pub proof fn lemma_floor_log2(n: int)
    requires
        1 <= n,
    ensures
        0 <= floor_log2(n),
        power2::pow2(floor_log2(n) as nat) <= n < power2::pow2((floor_log2(n) + 1) as nat),
    decreases n,
{
    power2::lemma2_to64();
    if n > 1 {
        lemma_floor_log2(n / 2);
        let k = floor_log2(n / 2);
        power2::lemma_pow2_unfold((k + 1) as nat);
        power2::lemma_pow2_unfold((k + 2) as nat);
    }
}

/// The logarithm of a number below two to the power `bound` is below `bound`.
proof fn lemma_floor_log2_bound(n: int, bound: nat)
    requires
        0 <= n < power2::pow2(bound),
        bound > 0,
    ensures
        0 <= floor_log2(n) < bound,
    decreases bound,
{
    power2::lemma2_to64();
    if n > 1 {
        power2::lemma_pow2_unfold(bound);
        if bound == 1 {
            assert(power2::pow2(1) == 2);
        } else {
            lemma_floor_log2_bound(n / 2, (bound - 1) as nat);
        }
    }
}

/// The binary logarithm of `n`, rounded down; 0 for 0.
pub fn log2(n: u32) -> (k: u32)
    ensures
        k == floor_log2(n as int),
        k < 32,
{
    let mut m = n;
    let mut k: u32 = 0;
    proof {
        power2::lemma2_to64();
        lemma_floor_log2_bound(n as int, 32);
    }
    while m > 1
        invariant
            floor_log2(n as int) == k + floor_log2(m as int),
            0 <= floor_log2(n as int) < 32,
        decreases m,
    {
        assert(floor_log2(m as int) >= 1) by {
            lemma_floor_log2((m / 2) as int);
        }
        m = m / 2;
        k = k + 1;
    }
    k
}

} // verus!
