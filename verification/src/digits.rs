//! Shared mathematical model of ASCII decimal numerals.
//!
//! The readers and writers of this crate are specified against the same
//! model: `dec_digits` gives the canonical (no leading zero) decimal
//! rendering of a natural number, and `wrapped_value` gives the value that
//! a left-to-right accumulation with wraparound at a modulus assigns to a
//! run of digit bytes.  The lemmas here connect the two directions.

use vstd::prelude::*;

verus! {

/// True of the ASCII bytes `'0'` through `'9'`.
pub open spec fn digit_byte(b: u8) -> bool {
    48 <= b && b <= 57
}

/// Ten to the power `k`.
pub open spec fn pow10(k: nat) -> nat
    decreases k,
{
    if k == 0 {
        1
    } else {
        10 * pow10((k - 1) as nat)
    }
}

/// The canonical ASCII decimal rendering of `n`, most significant digit
/// first, with no leading zeros (`0` renders as the single byte `'0'`).
pub open spec fn dec_digits(n: nat) -> Seq<u8>
    decreases n,
{
    if n < 10 {
        seq![(48 + n) as u8]
    } else {
        dec_digits(n / 10).push((48 + n % 10) as u8)
    }
}

/// Number of decimal digits of `n`.
pub open spec fn dec_len(n: nat) -> nat {
    dec_digits(n).len()
}

/// Length of the longest prefix of `s` made of digit bytes.
pub open spec fn digit_prefix_len(s: Seq<u8>) -> nat
    decreases s.len(),
{
    if s.len() == 0 || !digit_byte(s[0]) {
        0
    } else {
        1 + digit_prefix_len(s.skip(1))
    }
}

/// The value accumulated by scanning the digit bytes of `s` left to right
/// as `acc = (acc * 10 + digit) mod m`.
pub open spec fn wrapped_value(s: Seq<u8>, m: nat) -> nat
    decreases s.len(),
{
    if s.len() == 0 {
        0
    } else {
        ((wrapped_value(s.drop_last(), m) * 10 + (s.last() - 48)) % (m as int)) as nat
    }
}

pub proof fn lemma_pow10_positive(k: nat)
    ensures
        pow10(k) >= 1,
    decreases k,
{
    if k > 0 {
        lemma_pow10_positive((k - 1) as nat);
    }
}

pub proof fn lemma_pow10_increases(j: nat, k: nat)
    requires
        j <= k,
    ensures
        pow10(j) <= pow10(k),
    decreases k,
{
    if j < k {
        lemma_pow10_increases(j, (k - 1) as nat);
        lemma_pow10_positive((k - 1) as nat);
    }
}

/// The small powers of ten written out, so that callers comparing against
/// literal thresholds can connect them to `pow10`.
pub proof fn lemma_pow10_values()
    ensures
        pow10(0) == 1,
        pow10(1) == 10,
        pow10(2) == 100,
        pow10(3) == 1000,
        pow10(4) == 10000,
        pow10(5) == 100000,
        pow10(6) == 1000000,
        pow10(7) == 10000000,
        pow10(8) == 100000000,
        pow10(9) == 1000000000,
        pow10(10) == 10000000000,
        pow10(11) == 100000000000,
        pow10(12) == 1000000000000,
        pow10(13) == 10000000000000,
        pow10(14) == 100000000000000,
        pow10(15) == 1000000000000000,
        pow10(16) == 10000000000000000,
        pow10(17) == 100000000000000000,
        pow10(18) == 1000000000000000000,
        pow10(19) == 10000000000000000000,
        pow10(20) == 100000000000000000000,
{
    assert(pow10(0) == 1);
    assert(pow10(1) == 10);
    assert(pow10(2) == 100);
    assert(pow10(3) == 1000);
    assert(pow10(4) == 10000);
    assert(pow10(5) == 100000);
    assert(pow10(6) == 1000000);
    assert(pow10(7) == 10000000);
    assert(pow10(8) == 100000000);
    assert(pow10(9) == 1000000000);
    assert(pow10(10) == 10000000000);
    assert(pow10(11) == 100000000000);
    assert(pow10(12) == 1000000000000);
    assert(pow10(13) == 10000000000000);
    assert(pow10(14) == 100000000000000);
    assert(pow10(15) == 1000000000000000);
    assert(pow10(16) == 10000000000000000);
    assert(pow10(17) == 100000000000000000);
    assert(pow10(18) == 1000000000000000000);
    assert(pow10(19) == 10000000000000000000);
    assert(pow10(20) == 100000000000000000000);
}

/// The higher powers of ten, for the 128-bit digit counter.
pub proof fn lemma_pow10_values_high()
    ensures
        pow10(21) == pow10(20) * 10,
        pow10(22) == pow10(20) * 100,
        pow10(23) == pow10(20) * 1000,
        pow10(24) == pow10(20) * 10000,
        pow10(25) == pow10(20) * 100000,
        pow10(26) == pow10(20) * 1000000,
        pow10(27) == pow10(20) * 10000000,
        pow10(28) == pow10(20) * 100000000,
        pow10(29) == pow10(20) * 1000000000,
        pow10(30) == pow10(20) * 10000000000,
        pow10(31) == pow10(20) * 100000000000,
        pow10(32) == pow10(20) * 1000000000000,
        pow10(33) == pow10(20) * 10000000000000,
        pow10(34) == pow10(20) * 100000000000000,
        pow10(35) == pow10(20) * 1000000000000000,
        pow10(36) == pow10(20) * 10000000000000000,
        pow10(37) == pow10(20) * 100000000000000000,
        pow10(38) == pow10(20) * 1000000000000000000,
        pow10(39) == pow10(20) * 10000000000000000000,
{
    assert(pow10(21) == 10 * pow10(20));
    assert(pow10(22) == 10 * pow10(21));
    assert(pow10(23) == 10 * pow10(22));
    assert(pow10(24) == 10 * pow10(23));
    assert(pow10(25) == 10 * pow10(24));
    assert(pow10(26) == 10 * pow10(25));
    assert(pow10(27) == 10 * pow10(26));
    assert(pow10(28) == 10 * pow10(27));
    assert(pow10(29) == 10 * pow10(28));
    assert(pow10(30) == 10 * pow10(29));
    assert(pow10(31) == 10 * pow10(30));
    assert(pow10(32) == 10 * pow10(31));
    assert(pow10(33) == 10 * pow10(32));
    assert(pow10(34) == 10 * pow10(33));
    assert(pow10(35) == 10 * pow10(34));
    assert(pow10(36) == 10 * pow10(35));
    assert(pow10(37) == 10 * pow10(36));
    assert(pow10(38) == 10 * pow10(37));
    assert(pow10(39) == 10 * pow10(38));
}

/// Splitting off the two lowest decimal digits commutes with taking them
/// one at a time.
pub proof fn lemma_two_digit_split(m: nat)
    ensures
        (m % 100) % 10 == m % 10,
        (m % 100) / 10 == (m / 10) % 10,
        m / 10 / 10 == m / 100,
        m % 100 < 100,
        m >= 100 ==> m / 100 >= 1,
{
    vstd::arithmetic::div_mod::lemma_mod_bound(m as int, 100);
    vstd::arithmetic::div_mod::lemma_mod_mod(m as int, 10, 10);
    vstd::arithmetic::div_mod::lemma_div_denominator(m as int, 10, 10);
    assert((m % 100) / 10 == (m / 10) % 10) by (nonlinear_arith);
    if m >= 100 {
        vstd::arithmetic::div_mod::lemma_div_is_ordered(100, m as int, 100);
    }
}

/// A number of at most `k` digits lies below `pow10(k)`, and conversely.
pub proof fn lemma_dec_len_at_least(n: nat, k: nat)
    requires
        n >= pow10((k - 1) as nat),
        k >= 1,
    ensures
        dec_len(n) >= k,
{
    lemma_dec_digits_shape(n);
    if dec_len(n) < k {
        lemma_pow10_increases(dec_len(n), (k - 1) as nat);
        assert(false);
    }
}

/// Bounds that characterise the digit count: `n` has `dec_len(n)` digits
/// exactly when it lies below `pow10(dec_len(n))` and, unless it is a
/// single digit, at or above `pow10(dec_len(n) - 1)`.  Every rendered byte
/// is a digit byte.
pub proof fn lemma_dec_digits_shape(n: nat)
    ensures
        dec_len(n) >= 1,
        n < pow10(dec_len(n)),
        dec_len(n) > 1 ==> n >= pow10((dec_len(n) - 1) as nat),
        forall|i: int| 0 <= i < dec_digits(n).len() ==> digit_byte(#[trigger] dec_digits(n)[i]),
    decreases n,
{
    if n < 10 {
        assert(pow10(0) == 1);
        assert(pow10(1) == 10);
    } else {
        lemma_dec_digits_shape(n / 10);
        let k = dec_len(n / 10);
        assert(dec_len(n) == k + 1);
        assert(pow10(k + 1) == 10 * pow10(k));
        assert(n == (n / 10) * 10 + n % 10) by (nonlinear_arith);
        assert((n / 10) * 10 + n % 10 < pow10(k) * 10) by (nonlinear_arith)
            requires
                n / 10 < pow10(k),
                0 <= n % 10 < 10,
        ;
        if k > 1 {
            assert(n / 10 >= pow10((k - 1) as nat));
            assert((n / 10) * 10 >= pow10((k - 1) as nat) * 10) by (nonlinear_arith)
                requires
                    n / 10 >= pow10((k - 1) as nat),
            ;
        } else {
            assert(n / 10 >= 1);
        }
    }
}

/// A number in `[pow10(k - 1), pow10(k))` has exactly `k` digits
/// (for `k == 1` the lower bound is zero).
pub proof fn lemma_dec_len_is(n: nat, k: nat)
    requires
        k >= 1,
        n < pow10(k),
        k > 1 ==> n >= pow10((k - 1) as nat),
    ensures
        dec_len(n) == k,
{
    lemma_dec_digits_shape(n);
    let l = dec_len(n);
    if l < k {
        lemma_pow10_increases(l, (k - 1) as nat);
        assert(n < pow10((k - 1) as nat));
        if k > 1 {
            assert(false);
        } else {
            assert(false);
        }
    }
    if l > k {
        lemma_pow10_increases(k, (l - 1) as nat);
        assert(n >= pow10(k));
        assert(false);
    }
}

/// Dividing by ten drops the last rendered digit.
pub proof fn lemma_dec_digits_step(n: nat)
    requires
        n >= 10,
    ensures
        dec_digits(n) == dec_digits(n / 10).push((48 + n % 10) as u8),
        dec_len(n) == dec_len(n / 10) + 1,
{
}

/// Stepping one power of ten deeper into `v` divides the quotient by ten.
pub proof fn lemma_pow10_quotient_step(v: nat, j: nat)
    ensures
        v / pow10(j) / 10 == v / pow10(j + 1),
{
    lemma_pow10_positive(j);
    vstd::arithmetic::div_mod::lemma_div_denominator(v as int, pow10(j) as int, 10);
    assert(pow10(j + 1) == 10 * pow10(j));
}

/// A position preceded by digit bytes alone and ending at a non-digit
/// (or at the end) is the digit prefix length.
pub proof fn lemma_digit_prefix_len_is(s: Seq<u8>, k: nat)
    requires
        k <= s.len(),
        forall|i: int| 0 <= i < k ==> digit_byte(#[trigger] s[i]),
        k < s.len() ==> !digit_byte(s[k as int]),
    ensures
        digit_prefix_len(s) == k,
    decreases s.len(),
{
    if s.len() == 0 || !digit_byte(s[0]) {
        assert(k == 0);
    } else {
        assert(digit_byte(s[0]));
        assert(k >= 1);
        lemma_digit_prefix_len_is(s.skip(1), (k - 1) as nat);
    }
}

/// Reading back the canonical digits of `n` under a modulus that `n` fits
/// in returns `n` itself.
pub proof fn lemma_wrapped_value_of_digits(n: nat, m: nat)
    requires
        n < m,
    ensures
        wrapped_value(dec_digits(n), m) == n,
    decreases n,
{
    if n < 10 {
        let s = dec_digits(n);
        assert(s.drop_last() =~= Seq::<u8>::empty());
        assert(wrapped_value(Seq::<u8>::empty(), m) == 0);
        assert(s.last() == (48 + n) as u8);
        assert(s.last() - 48 == n);
        assert(n % m == n) by {
            vstd::arithmetic::div_mod::lemma_small_mod(n, m);
        }
        assert(wrapped_value(s, m) == ((0 * 10 + n as int) % (m as int)) as nat);
    } else {
        lemma_wrapped_value_of_digits(n / 10, m);
        let s = dec_digits(n);
        assert(s.drop_last() =~= dec_digits(n / 10));
        assert(s.last() == (48 + n % 10) as u8);
        assert((n / 10) * 10 + n % 10 == n) by (nonlinear_arith);
        assert(n % m == n) by {
            vstd::arithmetic::div_mod::lemma_small_mod(n, m);
        }
    }
}

/// One wrapped multiply-add step: reducing the accumulator modulo `m`
/// before the step does not change the result.
pub proof fn lemma_wrap_mod_step(a: nat, d: nat, m: nat)
    requires
        m >= 1,
        a < m,
        d < m,
    ensures
        (a as int * 10 + d) % (m as int) == ((a as int * 10) % (m as int) + d) % (m as int),
        0 <= ((a as int * 10) % (m as int) + d) % (m as int) < m,
        (a as int * 10) % (m as int) + d < 2 * m,
        (a as int * 10) % (m as int) + d >= m ==> ((a as int * 10) % (m as int) + d) % (
        m as int) == (a as int * 10) % (m as int) + d - m,
        (a as int * 10) % (m as int) + d < m ==> ((a as int * 10) % (m as int) + d) % (
        m as int) == (a as int * 10) % (m as int) + d,
{
    let ai = a as int;
    let di = d as int;
    let mi = m as int;
    let x = (ai * 10) % mi;
    vstd::arithmetic::div_mod::lemma_mod_bound(ai * 10, mi);
    vstd::arithmetic::div_mod::lemma_add_mod_noop(ai * 10, di, mi);
    vstd::arithmetic::div_mod::lemma_small_mod(d, m);
    vstd::arithmetic::div_mod::lemma_mod_bound(x + di, mi);
    if x + di >= mi {
        vstd::arithmetic::div_mod::lemma_mod_multiples_vanish(1, x + di - mi, mi);
        vstd::arithmetic::div_mod::lemma_small_mod((x + di - mi) as nat, m);
    } else {
        vstd::arithmetic::div_mod::lemma_small_mod((x + di) as nat, m);
    }
}

/// The plain (unwrapped) value of a run of digit bytes.
pub open spec fn digits_value(s: Seq<u8>) -> int
    decreases s.len(),
{
    if s.len() == 0 {
        0
    } else {
        digits_value(s.drop_last()) * 10 + (s.last() - 48)
    }
}

/// The wrapped accumulation is the plain value reduced modulo `m`.
pub proof fn lemma_wrapped_is_plain_mod(s: Seq<u8>, m: nat)
    requires
        m >= 1,
    ensures
        wrapped_value(s, m) == digits_value(s) % (m as int),
    decreases s.len(),
{
    if s.len() == 0 {
        vstd::arithmetic::div_mod::lemma_small_mod(0, m);
    } else {
        lemma_wrapped_is_plain_mod(s.drop_last(), m);
        let a = digits_value(s.drop_last());
        let d = s.last() - 48;
        let mi = m as int;
        assert((a % mi) * 10 % mi == a * 10 % mi) by {
            vstd::arithmetic::div_mod::lemma_mul_mod_noop_left(a, 10, mi);
        }
        assert((a % mi * 10 + d) % mi == (a * 10 + d) % mi) by {
            vstd::arithmetic::div_mod::lemma_add_mod_noop(a % mi * 10, d, mi);
            vstd::arithmetic::div_mod::lemma_add_mod_noop(a * 10, d, mi);
            vstd::arithmetic::div_mod::lemma_mod_twice(d, mi);
        }
    }
}

/// Appending one digit byte to a run of digits advances the accumulated
/// value by one wrapped multiply-add step.
pub proof fn lemma_wrapped_value_snoc(s: Seq<u8>, b: u8, m: nat)
    requires
        m >= 1,
    ensures
        wrapped_value(s.push(b), m) == (wrapped_value(s, m) * 10 + (b - 48)) % (m as int),
{
    assert(s.push(b).drop_last() =~= s);
    assert(s.push(b).last() == b);
}

} // verus!
