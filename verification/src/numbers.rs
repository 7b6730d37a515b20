//! Numbers written as ASCII decimal digits.

use crate::bytes::dec_digit;
use vstd::prelude::*;

verus! {

/// Every byte of `s` is a decimal digit.
pub open spec fn all_digits(s: Seq<u8>) -> bool {
    forall|i: int| 0 <= i < s.len() ==> dec_digit(#[trigger] s[i])
}

/// The number that the decimal digits `s` denote; 0 for no digits.
pub open spec fn decimal_value(s: Seq<u8>) -> nat
    decreases s.len(),
{
    if s.len() == 0 {
        0
    } else {
        decimal_value(s.drop_last()) * 10 + (s.last() - 0x30) as nat
    }
}

/// Ten to the power of `n`.
pub open spec fn pow10(n: nat) -> nat
    decreases n,
{
    if n == 0 {
        1
    } else {
        10 * pow10((n - 1) as nat)
    }
}

/// The powers of ten that bound the grammar's numbers.
pub proof fn lemma_pow10_values()
    ensures
        pow10(3) == 1_000,
        pow10(5) == 100_000,
        pow10(10) == 10_000_000_000,
{
    assert(pow10(0) == 1);
    assert(pow10(1) == 10);
    assert(pow10(2) == 100);
    assert(pow10(3) == 1_000);
    assert(pow10(4) == 10_000);
    assert(pow10(5) == 100_000);
    assert(pow10(6) == 1_000_000);
    assert(pow10(7) == 10_000_000);
    assert(pow10(8) == 100_000_000);
    assert(pow10(9) == 1_000_000_000);
    assert(pow10(10) == 10_000_000_000);
}

/// Ten to a higher power is no smaller.
pub proof fn lemma_pow10_monotonic(a: nat, b: nat)
    requires
        a <= b,
    ensures
        pow10(a) <= pow10(b),
    decreases b,
{
    if a < b {
        lemma_pow10_monotonic(a, (b - 1) as nat);
    }
}

/// `n` decimal digits denote a number below ten to the power of `n`.
pub proof fn lemma_decimal_value_bound(s: Seq<u8>)
    requires
        all_digits(s),
    ensures
        decimal_value(s) < pow10(s.len()),
    decreases s.len(),
{
    if s.len() > 0 {
        let t = s.drop_last();
        assert forall|i: int| 0 <= i < t.len() implies dec_digit(#[trigger] t[i]) by {
            assert(t[i] == s[i]);
        }
        lemma_decimal_value_bound(t);
        assert(dec_digit(s[s.len() - 1]));
    }
}

/// A prefix of a digit string denotes no more than the whole string.
pub proof fn lemma_decimal_value_prefix(s: Seq<u8>, n: int)
    requires
        all_digits(s),
        0 <= n <= s.len(),
    ensures
        decimal_value(s.take(n)) <= decimal_value(s),
    decreases s.len() - n,
{
    if n == s.len() {
        assert(s.take(n) == s);
    } else {
        lemma_decimal_value_prefix(s, n + 1);
        let u = s.take(n + 1);
        assert(u.drop_last() == s.take(n));
        assert(dec_digit(s[n]));
        assert(u.last() == s[n]);
    }
}

/// The number that the decimal digits denote, or `None` where it does not
/// fit in 64 bits.
pub fn decimal_u64(digits: &[u8]) -> (r: Option<u64>)
    requires
        all_digits(digits@),
    ensures
        r matches Some(v) ==> v == decimal_value(digits@),
        r is None <==> decimal_value(digits@) > u64::MAX,
{
    let mut acc: u64 = 0;
    let mut i: usize = 0;
    while i < digits.len()
        invariant
            i <= digits.len(),
            all_digits(digits@),
            acc == decimal_value(digits@.take(i as int)),
        decreases digits.len() - i,
    {
        assert(dec_digit(digits@[i as int]));
        let d: u64 = (digits[i] - 0x30) as u64;
        proof {
            let u = digits@.take(i + 1);
            assert(u.drop_last() == digits@.take(i as int));
            assert(u.last() == digits@[i as int]);
            lemma_decimal_value_prefix(digits@, i + 1);
        }
        if acc > (u64::MAX - d) / 10 {
            return None;
        }
        acc = acc * 10 + d;
        i += 1;
    }
    assert(digits@.take(i as int) == digits@);
    Some(acc)
}

} // verus!
