//! Readers that decode primitive values from ASCII byte slices.
//!
//! All readers are total: malformed, empty, or truncated input degrades to
//! a defined default (0, false, an empty string) rather than an error.
//! Numeric readers scan from the start of the slice, stop at the first
//! non-digit byte, and wrap on overflow.

use vstd::prelude::*;

use crate::digits::digit_byte;
use crate::digits::digit_prefix_len;
use crate::digits::lemma_digit_prefix_len_is;
use crate::digits::lemma_wrap_mod_step;
use crate::digits::lemma_wrapped_value_snoc;
use crate::digits::wrapped_value;

verus! {

/// Two to the power 128, the wraparound modulus of `u128` accumulation
/// (written as a product: the literal itself would not fit a `u128`).
pub open spec fn two_pow_128() -> nat {
    0x1_0000_0000_0000_0000 * (0x1_0000_0000_0000_0000 as nat)
}

/// The value that a scanning reader with modulus `m` assigns to `s`: the
/// wrapped accumulation of the longest digit prefix of `s`.
pub open spec fn scanned_value(s: Seq<u8>, m: nat) -> nat {
    wrapped_value(s.take(digit_prefix_len(s) as int), m)
}

/// The bytes of `s` past an optional leading minus sign.
pub open spec fn decimal_body(s: Seq<u8>) -> Seq<u8> {
    if s.len() > 0 && s[0] == 45 {
        s.skip(1)
    } else {
        s
    }
}

/// The run of integer-part digits of a decimal literal.
pub open spec fn decimal_int_digits(s: Seq<u8>) -> Seq<u8> {
    let body = decimal_body(s);
    body.take(digit_prefix_len(body) as int)
}

/// The run of fractional digits of a decimal literal: the digits after a
/// dot that immediately follows the integer part, or empty when there is
/// no such dot.
pub open spec fn decimal_frac_digits(s: Seq<u8>) -> Seq<u8> {
    let body = decimal_body(s);
    let rest = body.skip(digit_prefix_len(body) as int);
    if rest.len() > 0 && rest[0] == 46 {
        let f = rest.skip(1);
        f.take(digit_prefix_len(f) as int)
    } else {
        Seq::empty()
    }
}

/// True exactly for an ASCII decimal digit byte.
pub fn is_digit(b: u8) -> (r: bool)
    ensures
        r == digit_byte(b),
{
    48 <= b && b <= 57
}

/// Parse a boolean: `true` only for the exact single byte `'Y'`.
pub fn read_bool(buf: &[u8]) -> (r: bool)
    ensures
        r == (buf@.len() == 1 && buf@[0] == 89),
{
    buf.len() == 1 && buf[0] == 89
}

/// Reinterpret bytes as text.
///
/// Relies on `str::from_utf8`: for valid UTF-8 input it returns the
/// string slice backed by exactly the input bytes, so ASCII bytes decode
/// one byte per character.  Invalid UTF-8 degrades to the empty string.
#[verifier::external_body]
pub fn read_str(buf: &[u8]) -> (r: &str)
    ensures
        buf@.len() == 0 ==> r@.len() == 0,
        (forall|i: int| 0 <= i < buf@.len() ==> buf@[i] < 128) ==> (r@.len() == buf@.len()
            && forall|i: int| 0 <= i < buf@.len() ==> r@[i] == buf@[i] as char),
{
    match core::str::from_utf8(buf) {
        Ok(s) => s,
        Err(_) => "",
    }
}

/// Parse a `u16` from decimal bytes, stopping at the first non-digit and
/// wrapping on overflow; empty input yields 0.
pub fn read_u16(buf: &[u8]) -> (r: u16)
    ensures
        r as nat == scanned_value(buf@, 0x1_0000),
{
    let mut acc: u16 = 0;
    let mut i: usize = 0;
    while i < buf.len() && is_digit(buf[i])
        invariant
            i <= buf@.len(),
            forall|j: int| 0 <= j < i ==> digit_byte(#[trigger] buf@[j]),
            acc as nat == wrapped_value(buf@.take(i as int), 0x1_0000),
        decreases buf@.len() - i,
    {
        let b = buf[i];
        proof {
            assert(buf@.take(i + 1) =~= buf@.take(i as int).push(b));
            lemma_wrapped_value_snoc(buf@.take(i as int), b, 0x1_0000);
            lemma_wrap_mod_step(acc as nat, (b - 48) as nat, 0x1_0000);
        }
        acc = acc.wrapping_mul(10).wrapping_add((b - 48) as u16);
        i = i + 1;
    }
    proof {
        lemma_digit_prefix_len_is(buf@, i as nat);
    }
    acc
}

/// Parse a `u32` from decimal bytes, stopping at the first non-digit and
/// wrapping on overflow; empty input yields 0.
pub fn read_u32(buf: &[u8]) -> (r: u32)
    ensures
        r as nat == scanned_value(buf@, 0x1_0000_0000),
{
    let mut acc: u32 = 0;
    let mut i: usize = 0;
    while i < buf.len() && is_digit(buf[i])
        invariant
            i <= buf@.len(),
            forall|j: int| 0 <= j < i ==> digit_byte(#[trigger] buf@[j]),
            acc as nat == wrapped_value(buf@.take(i as int), 0x1_0000_0000),
        decreases buf@.len() - i,
    {
        let b = buf[i];
        proof {
            assert(buf@.take(i + 1) =~= buf@.take(i as int).push(b));
            lemma_wrapped_value_snoc(buf@.take(i as int), b, 0x1_0000_0000);
            lemma_wrap_mod_step(acc as nat, (b - 48) as nat, 0x1_0000_0000);
        }
        acc = acc.wrapping_mul(10).wrapping_add((b - 48) as u32);
        i = i + 1;
    }
    proof {
        lemma_digit_prefix_len_is(buf@, i as nat);
    }
    acc
}

/// Parse a `u64` from decimal bytes, stopping at the first non-digit and
/// wrapping on overflow; empty input yields 0.
pub fn read_u64(buf: &[u8]) -> (r: u64)
    ensures
        r as nat == scanned_value(buf@, 0x1_0000_0000_0000_0000),
{
    let mut acc: u64 = 0;
    let mut i: usize = 0;
    while i < buf.len() && is_digit(buf[i])
        invariant
            i <= buf@.len(),
            forall|j: int| 0 <= j < i ==> digit_byte(#[trigger] buf@[j]),
            acc as nat == wrapped_value(buf@.take(i as int), 0x1_0000_0000_0000_0000),
        decreases buf@.len() - i,
    {
        let b = buf[i];
        proof {
            assert(buf@.take(i + 1) =~= buf@.take(i as int).push(b));
            lemma_wrapped_value_snoc(buf@.take(i as int), b, 0x1_0000_0000_0000_0000);
            lemma_wrap_mod_step(acc as nat, (b - 48) as nat, 0x1_0000_0000_0000_0000);
        }
        acc = acc.wrapping_mul(10).wrapping_add((b - 48) as u64);
        i = i + 1;
    }
    proof {
        lemma_digit_prefix_len_is(buf@, i as nat);
    }
    acc
}


/// The signed value produced by negating a scanned magnitude `mag` in a
/// width whose sign bit is `half` (so the range is `2 * half`): the
/// minimum value is hit exactly, other magnitudes are negated with
/// two's-complement truncation.
pub open spec fn negated_magnitude(mag: nat, half: nat) -> int {
    if mag == half {
        -(half as int)
    } else if mag < half {
        -(mag as int)
    } else {
        2 * half - mag
    }
}

/// The signed reinterpretation of an unsigned value `v` in a width whose
/// sign bit is `half`.
pub open spec fn reinterpreted(v: nat, half: nat) -> int {
    if v < half {
        v as int
    } else {
        v - 2 * half
    }
}

/// The `i16` value assigned to `s`: an optional leading minus sign, then
/// a scanned 16-bit magnitude.
pub open spec fn i16_of_bytes(s: Seq<u8>) -> int {
    if s.len() == 0 {
        0
    } else if s[0] == 45 {
        negated_magnitude(scanned_value(s.skip(1), 0x1_0000), 0x8000)
    } else {
        reinterpreted(scanned_value(s, 0x1_0000), 0x8000)
    }
}

/// The `i32` value assigned to `s`.
pub open spec fn i32_of_bytes(s: Seq<u8>) -> int {
    if s.len() == 0 {
        0
    } else if s[0] == 45 {
        negated_magnitude(scanned_value(s.skip(1), 0x1_0000_0000), 0x8000_0000)
    } else {
        reinterpreted(scanned_value(s, 0x1_0000_0000), 0x8000_0000)
    }
}

/// The `i64` value assigned to `s`.
pub open spec fn i64_of_bytes(s: Seq<u8>) -> int {
    if s.len() == 0 {
        0
    } else if s[0] == 45 {
        negated_magnitude(
            scanned_value(s.skip(1), 0x1_0000_0000_0000_0000),
            0x8000_0000_0000_0000,
        )
    } else {
        reinterpreted(scanned_value(s, 0x1_0000_0000_0000_0000), 0x8000_0000_0000_0000)
    }
}

/// Parse an `i16`: an optional leading minus sign, then digits, stopping
/// at the first non-digit.  The minimum value is produced exactly.
pub fn read_i16(buf: &[u8]) -> (r: i16)
    ensures
        r as int == i16_of_bytes(buf@),
{
    if buf.len() == 0 {
        return 0;
    }
    if buf[0] == 45 {
        let rest = &buf[1..buf.len()];
        proof {
            assert(rest@ =~= buf@.skip(1));
        }
        let mag: u16 = read_u16(rest);
        if mag == 0x8000 {
            i16::MIN
        } else if mag <= 0x7FFF {
            -(mag as i16)
        } else {
            0u16.wrapping_sub(mag) as i16
        }
    } else {
        let v: u16 = read_u16(buf);
        if v <= 0x7FFF {
            v as i16
        } else {
            i16::MIN + ((v - 0x8000) as i16)
        }
    }
}

/// Parse an `i32`: an optional leading minus sign, then digits, stopping
/// at the first non-digit.  The minimum value is produced exactly.
pub fn read_i32(buf: &[u8]) -> (r: i32)
    ensures
        r as int == i32_of_bytes(buf@),
{
    if buf.len() == 0 {
        return 0;
    }
    if buf[0] == 45 {
        let rest = &buf[1..buf.len()];
        proof {
            assert(rest@ =~= buf@.skip(1));
        }
        let mag: u32 = read_u32(rest);
        if mag == 0x8000_0000 {
            i32::MIN
        } else if mag <= 0x7FFF_FFFF {
            -(mag as i32)
        } else {
            0u32.wrapping_sub(mag) as i32
        }
    } else {
        let v: u32 = read_u32(buf);
        if v <= 0x7FFF_FFFF {
            v as i32
        } else {
            i32::MIN + ((v - 0x8000_0000) as i32)
        }
    }
}

/// Parse an `i64`: an optional leading minus sign, then digits, stopping
/// at the first non-digit.  The minimum value is produced exactly.
pub fn read_i64(buf: &[u8]) -> (r: i64)
    ensures
        r as int == i64_of_bytes(buf@),
{
    if buf.len() == 0 {
        return 0;
    }
    if buf[0] == 45 {
        let rest = &buf[1..buf.len()];
        proof {
            assert(rest@ =~= buf@.skip(1));
        }
        let mag: u64 = read_u64(rest);
        if mag == 0x8000_0000_0000_0000 {
            i64::MIN
        } else if mag <= 0x7FFF_FFFF_FFFF_FFFF {
            -(mag as i64)
        } else {
            0u64.wrapping_sub(mag) as i64
        }
    } else {
        let v: u64 = read_u64(buf);
        if v <= 0x7FFF_FFFF_FFFF_FFFF {
            v as i64
        } else {
            i64::MIN + ((v - 0x8000_0000_0000_0000) as i64)
        }
    }
}

/// Scan the digits and capped fractional digits of a decimal literal
/// `('-')? digit* ('.' digit*)?`, with a 64-bit wrapping integer
/// accumulator and a 32-bit wrapping fractional accumulator capped at 9
/// digits (further fractional digits are consumed but ignored).
///
/// Returns `(negative, integer_part, fractional_part, fractional_digits)`.
pub fn read_decimal32(buf: &[u8]) -> (r: (bool, u64, u32, usize))
    ensures
        r.0 == (buf@.len() > 0 && buf@[0] == 45),
        r.1 as nat == wrapped_value(decimal_int_digits(buf@), 0x1_0000_0000_0000_0000),
        r.3 == if decimal_frac_digits(buf@).len() <= 9 {
            decimal_frac_digits(buf@).len()
        } else {
            9 as nat
        },
        r.2 as nat == wrapped_value(decimal_frac_digits(buf@).take(r.3 as int), 0x1_0000_0000),
{
    let ghost s = buf@;
    let n = buf.len();
    if n == 0 {
        proof {
            assert(decimal_int_digits(s) =~= Seq::<u8>::empty());
            assert(decimal_frac_digits(s) =~= Seq::<u8>::empty());
        }
        return (false, 0, 0, 0);
    }
    let neg = buf[0] == 45;
    let start: usize = if neg { 1 } else { 0 };
    let ghost body = decimal_body(s);
    proof {
        assert(body =~= s.skip(start as int));
    }
    let mut i: usize = start;
    let mut int_acc: u64 = 0;
    while i < n && is_digit(buf[i])
        invariant
            start <= i <= n,
            n == s.len(),
            s == buf@,
            start == 1 <==> (s.len() > 0 && s[0] == 45),
            start <= 1,
            forall|j: int| start <= j < i ==> digit_byte(#[trigger] s[j]),
            int_acc as nat == wrapped_value(
                s.subrange(start as int, i as int),
                0x1_0000_0000_0000_0000,
            ),
        decreases n - i,
    {
        let b = buf[i];
        proof {
            assert(s.subrange(start as int, i + 1) =~= s.subrange(start as int, i as int).push(
                b,
            ));
            lemma_wrapped_value_snoc(
                s.subrange(start as int, i as int),
                b,
                0x1_0000_0000_0000_0000,
            );
            lemma_wrap_mod_step(int_acc as nat, (b - 48) as nat, 0x1_0000_0000_0000_0000);
        }
        int_acc = int_acc.wrapping_mul(10).wrapping_add((b - 48) as u64);
        i = i + 1;
    }
    proof {
        assert forall|k: int| 0 <= k < i - start implies digit_byte(#[trigger] body[k]) by {
            assert(body[k] == s[k + start]);
        }
        if i < n {
            assert(body[i - start] == s[i as int]);
        }
        lemma_digit_prefix_len_is(body, (i - start) as nat);
        assert(decimal_int_digits(s) =~= s.subrange(start as int, i as int));
    }
    let mut frac_acc: u32 = 0;
    let mut frac_len: usize = 0;
    if i < n && buf[i] == 46 {
        i = i + 1;
        let fs: usize = i;
        let ghost f = decimal_frac_digits(s);
        proof {
            assert(body.skip(digit_prefix_len(body) as int).skip(1) =~= s.skip(fs as int));
        }
        while i < n && is_digit(buf[i])
            invariant
                fs <= i <= n,
                n == s.len(),
                s == buf@,
                forall|j: int| fs <= j < i ==> digit_byte(#[trigger] s[j]),
                frac_len == if i - fs <= 9 { i - fs } else { 9 as int },
                frac_acc as nat == wrapped_value(
                    s.subrange(fs as int, fs + frac_len),
                    0x1_0000_0000,
                ),
            decreases n - i,
        {
            let b = buf[i];
            if frac_len < 9 {
                proof {
                    assert(s.subrange(fs as int, fs + frac_len + 1) =~= s.subrange(
                        fs as int,
                        fs + frac_len,
                    ).push(b));
                    lemma_wrapped_value_snoc(
                        s.subrange(fs as int, fs + frac_len),
                        b,
                        0x1_0000_0000,
                    );
                    lemma_wrap_mod_step(frac_acc as nat, (b - 48) as nat, 0x1_0000_0000);
                }
                frac_acc = frac_acc.wrapping_mul(10).wrapping_add((b - 48) as u32);
                frac_len = frac_len + 1;
            }
            i = i + 1;
        }
        proof {
            let fseq = s.skip(fs as int);
            assert forall|k: int| 0 <= k < i - fs implies digit_byte(#[trigger] fseq[k]) by {
                assert(fseq[k] == s[k + fs]);
            }
            if i < n {
                assert(fseq[i - fs] == s[i as int]);
            }
            lemma_digit_prefix_len_is(fseq, (i - fs) as nat);
            assert(f =~= s.subrange(fs as int, i as int));
            assert(f.take(frac_len as int) =~= s.subrange(fs as int, fs + frac_len));
        }
    } else {
        proof {
            assert(decimal_frac_digits(s) =~= Seq::<u8>::empty());
        }
    }
    (neg, int_acc, frac_acc, frac_len)
}

/// Scan the digits and capped fractional digits of a decimal literal
/// `('-')? digit* ('.' digit*)?`, with a 128-bit wrapping integer
/// accumulator and a 128-bit wrapping fractional accumulator capped at 18
/// digits (further fractional digits are consumed but ignored).
///
/// Returns `(negative, integer_part, fractional_part, fractional_digits)`.
pub fn read_decimal64(buf: &[u8]) -> (r: (bool, u128, u128, usize))
    ensures
        r.0 == (buf@.len() > 0 && buf@[0] == 45),
        r.1 as nat == wrapped_value(decimal_int_digits(buf@), two_pow_128()),
        r.3 == if decimal_frac_digits(buf@).len() <= 18 {
            decimal_frac_digits(buf@).len()
        } else {
            18 as nat
        },
        r.2 as nat == wrapped_value(decimal_frac_digits(buf@).take(r.3 as int), two_pow_128()),
{
    let ghost s = buf@;
    let n = buf.len();
    if n == 0 {
        proof {
            assert(decimal_int_digits(s) =~= Seq::<u8>::empty());
            assert(decimal_frac_digits(s) =~= Seq::<u8>::empty());
        }
        return (false, 0, 0, 0);
    }
    let neg = buf[0] == 45;
    let start: usize = if neg { 1 } else { 0 };
    let ghost body = decimal_body(s);
    proof {
        assert(body =~= s.skip(start as int));
    }
    let mut i: usize = start;
    let mut int_acc: u128 = 0;
    while i < n && is_digit(buf[i])
        invariant
            start <= i <= n,
            n == s.len(),
            s == buf@,
            start == 1 <==> (s.len() > 0 && s[0] == 45),
            start <= 1,
            forall|j: int| start <= j < i ==> digit_byte(#[trigger] s[j]),
            int_acc as nat == wrapped_value(
                s.subrange(start as int, i as int),
                two_pow_128(),
            ),
        decreases n - i,
    {
        let b = buf[i];
        proof {
            assert(s.subrange(start as int, i + 1) =~= s.subrange(start as int, i as int).push(
                b,
            ));
            lemma_wrapped_value_snoc(
                s.subrange(start as int, i as int),
                b,
                two_pow_128(),
            );
            lemma_wrap_mod_step(int_acc as nat, (b - 48) as nat, two_pow_128());
        }
        int_acc = int_acc.wrapping_mul(10).wrapping_add((b - 48) as u128);
        i = i + 1;
    }
    proof {
        assert forall|k: int| 0 <= k < i - start implies digit_byte(#[trigger] body[k]) by {
            assert(body[k] == s[k + start]);
        }
        if i < n {
            assert(body[i - start] == s[i as int]);
        }
        lemma_digit_prefix_len_is(body, (i - start) as nat);
        assert(decimal_int_digits(s) =~= s.subrange(start as int, i as int));
    }
    let mut frac_acc: u128 = 0;
    let mut frac_len: usize = 0;
    if i < n && buf[i] == 46 {
        i = i + 1;
        let fs: usize = i;
        let ghost f = decimal_frac_digits(s);
        proof {
            assert(body.skip(digit_prefix_len(body) as int).skip(1) =~= s.skip(fs as int));
        }
        while i < n && is_digit(buf[i])
            invariant
                fs <= i <= n,
                n == s.len(),
                s == buf@,
                forall|j: int| fs <= j < i ==> digit_byte(#[trigger] s[j]),
                frac_len == if i - fs <= 18 { i - fs } else { 18 as int },
                frac_acc as nat == wrapped_value(
                    s.subrange(fs as int, fs + frac_len),
                    two_pow_128(),
                ),
            decreases n - i,
        {
            let b = buf[i];
            if frac_len < 18 {
                proof {
                    assert(s.subrange(fs as int, fs + frac_len + 1) =~= s.subrange(
                        fs as int,
                        fs + frac_len,
                    ).push(b));
                    lemma_wrapped_value_snoc(
                        s.subrange(fs as int, fs + frac_len),
                        b,
                        two_pow_128(),
                    );
                    lemma_wrap_mod_step(frac_acc as nat, (b - 48) as nat, two_pow_128());
                }
                frac_acc = frac_acc.wrapping_mul(10).wrapping_add((b - 48) as u128);
                frac_len = frac_len + 1;
            }
            i = i + 1;
        }
        proof {
            let fseq = s.skip(fs as int);
            assert forall|k: int| 0 <= k < i - fs implies digit_byte(#[trigger] fseq[k]) by {
                assert(fseq[k] == s[k + fs]);
            }
            if i < n {
                assert(fseq[i - fs] == s[i as int]);
            }
            lemma_digit_prefix_len_is(fseq, (i - fs) as nat);
            assert(f =~= s.subrange(fs as int, i as int));
            assert(f.take(frac_len as int) =~= s.subrange(fs as int, fs + frac_len));
        }
    } else {
        proof {
            assert(decimal_frac_digits(s) =~= Seq::<u8>::empty());
        }
    }
    (neg, int_acc, frac_acc, frac_len)
}

} // verus!
