//! Round-trip laws: reading back what a writer produced recovers the
//! value that was written.
//!
//! The writers state which bytes they produce and the readers state
//! which value they assign to bytes, so each law here connects the two
//! renderings: canonical unsigned and signed digits, and the scaled
//! decimal renderings with their trimmed fractional digits.

use vstd::prelude::*;

use crate::digits::dec_digits;
use crate::digits::digit_byte;
use crate::digits::digit_prefix_len;
use crate::digits::digits_value;
use crate::digits::lemma_dec_digits_shape;
use crate::digits::lemma_digit_prefix_len_is;
use crate::digits::lemma_pow10_positive;
use crate::digits::lemma_pow10_values;
use crate::digits::lemma_wrapped_is_plain_mod;
use crate::digits::lemma_wrapped_value_of_digits;
use crate::digits::pow10;
use crate::digits::wrapped_value;
use crate::reading::decimal_body;
use crate::reading::decimal_frac_digits;
use crate::reading::decimal_int_digits;
use crate::reading::i16_of_bytes;
use crate::reading::i32_of_bytes;
use crate::reading::i64_of_bytes;
use crate::reading::scanned_value;
use crate::reading::two_pow_128;
use crate::special::civil_of_day;
use crate::special::date_digits;
use crate::special::wire_timestamp_bytes;
use crate::special::Timespec;
use crate::special::MAX_CACHEABLE_DAY;
use crate::writing::padded_digits;
use crate::writing::scaled15_digits;
use crate::writing::scaled6_digits;
use crate::writing::signed_digits;
use crate::writing::trim_zeros;

verus! {

/// Scanning the canonical digits of a value under its own width's
/// modulus returns the value: `read_u16` undoes `write_u16`.
pub proof fn lemma_round_trip_u16(v: u16)
    ensures
        scanned_value(dec_digits(v as nat), 0x1_0000) == v,
{
    lemma_unsigned_round_trip(v as nat, 0x1_0000);
}

/// `read_u32` undoes `write_u32`.
pub proof fn lemma_round_trip_u32(v: u32)
    ensures
        scanned_value(dec_digits(v as nat), 0x1_0000_0000) == v,
{
    lemma_unsigned_round_trip(v as nat, 0x1_0000_0000);
}

/// `read_u64` undoes `write_u64`.
pub proof fn lemma_round_trip_u64(v: u64)
    ensures
        scanned_value(dec_digits(v as nat), 0x1_0000_0000_0000_0000) == v,
{
    lemma_unsigned_round_trip(v as nat, 0x1_0000_0000_0000_0000);
}

proof fn lemma_unsigned_round_trip(n: nat, m: nat)
    requires
        n < m,
    ensures
        scanned_value(dec_digits(n), m) == n,
{
    let s = dec_digits(n);
    lemma_dec_digits_shape(n);
    lemma_digit_prefix_len_is(s, s.len());
    assert(s.take(s.len() as int) =~= s);
    lemma_wrapped_value_of_digits(n, m);
}

/// Reading back the signed rendering recovers the value, the minimum
/// included: `read_i16` undoes `write_i16`.
pub proof fn lemma_round_trip_i16(v: i16)
    ensures
        i16_of_bytes(signed_digits(v as int)) == v,
{
    let s = signed_digits(v as int);
    if v >= 0 {
        lemma_dec_digits_shape(v as nat);
        lemma_unsigned_round_trip(v as nat, 0x1_0000);
        assert(digit_byte(s[0]));
    } else {
        let mag = (-(v as int)) as nat;
        assert(s.skip(1) =~= dec_digits(mag));
        lemma_unsigned_round_trip(mag, 0x1_0000);
    }
}

/// `read_i32` undoes `write_i32`.
pub proof fn lemma_round_trip_i32(v: i32)
    ensures
        i32_of_bytes(signed_digits(v as int)) == v,
{
    let s = signed_digits(v as int);
    if v >= 0 {
        lemma_dec_digits_shape(v as nat);
        lemma_unsigned_round_trip(v as nat, 0x1_0000_0000);
        assert(digit_byte(s[0]));
    } else {
        let mag = (-(v as int)) as nat;
        assert(s.skip(1) =~= dec_digits(mag));
        lemma_unsigned_round_trip(mag, 0x1_0000_0000);
    }
}

/// `read_i64` undoes `write_i64`.
pub proof fn lemma_round_trip_i64(v: i64)
    ensures
        i64_of_bytes(signed_digits(v as int)) == v,
{
    let s = signed_digits(v as int);
    if v >= 0 {
        lemma_dec_digits_shape(v as nat);
        lemma_unsigned_round_trip(v as nat, 0x1_0000_0000_0000_0000);
        assert(digit_byte(s[0]));
    } else {
        let mag = (-(v as int)) as nat;
        assert(s.skip(1) =~= dec_digits(mag));
        lemma_unsigned_round_trip(mag, 0x1_0000_0000_0000_0000);
    }
}

/// Every byte of a zero-padded digit run is a digit byte.
proof fn lemma_padded_are_digits(v: nat, w: nat)
    ensures
        forall|j: int| 0 <= j < w ==> digit_byte(#[trigger] padded_digits(v, w)[j]),
{
    assert forall|j: int| 0 <= j < w implies digit_byte(#[trigger] padded_digits(v, w)[j]) by {
        assert(padded_digits(v, w)[j] == (48 + (v / pow10((w - 1 - j) as nat)) % 10) as u8);
    }
}

/// The plain value of the zero-padded digits of `v` is `v` itself, for
/// `v` below the width's bound.
proof fn lemma_plain_of_padded(v: nat, w: nat)
    requires
        v < pow10(w),
    ensures
        digits_value(padded_digits(v, w)) == v,
    decreases w,
{
    if w == 0 {
        assert(padded_digits(v, 0) =~= Seq::<u8>::empty());
    } else {
        assert(pow10(w) == 10 * pow10((w - 1) as nat));
        assert(v / 10 < pow10((w - 1) as nat));
        lemma_plain_of_padded(v / 10, (w - 1) as nat);
        let s = padded_digits(v, w);
        assert forall|j: int| 0 <= j < w - 1 implies s[j] == padded_digits(
            v / 10,
            (w - 1) as nat,
        )[j] by {
            let k = (w - 2 - j) as nat;
            lemma_pow10_positive(k);
            vstd::arithmetic::div_mod::lemma_div_denominator(v as int, 10, pow10(k) as int);
            assert(pow10(k + 1) == 10 * pow10(k));
            assert(v / 10 / pow10(k) == v / pow10(k + 1));
        }
        assert(s.drop_last() =~= padded_digits(v / 10, (w - 1) as nat));
        assert(pow10(0) == 1);
        vstd::arithmetic::div_mod::lemma_div_basics(v as int);
        assert(s.last() == (48 + v % 10) as u8);
        assert(digits_value(s) == digits_value(s.drop_last()) * 10 + (s.last() - 48));
        assert((v / 10) * 10 + v % 10 == v) by (nonlinear_arith);
    }
}

/// Trimming trailing zeros leaves a prefix.
proof fn lemma_trim_is_prefix(s: Seq<u8>)
    ensures
        trim_zeros(s).len() <= s.len(),
        trim_zeros(s) == s.take(trim_zeros(s).len() as int),
    decreases s.len(),
{
    if s.len() == 0 || s.last() != 48 {
        assert(s.take(s.len() as int) =~= s);
    } else {
        lemma_trim_is_prefix(s.drop_last());
        assert(s.drop_last().take(trim_zeros(s.drop_last()).len() as int) =~= s.take(
            trim_zeros(s.drop_last()).len() as int,
        ));
    }
}

/// The plain value survives trimming, up to the removed power of ten.
proof fn lemma_plain_of_trim(s: Seq<u8>)
    ensures
        digits_value(trim_zeros(s)) * pow10((s.len() - trim_zeros(s).len()) as nat)
            == digits_value(s),
    decreases s.len(),
{
    lemma_trim_is_prefix(s);
    if s.len() == 0 || s.last() != 48 {
        assert(trim_zeros(s) == s);
        assert((s.len() - trim_zeros(s).len()) as nat == 0);
        assert(pow10(0) == 1);
        assert(digits_value(trim_zeros(s)) * pow10(0) == digits_value(s));
    } else {
        lemma_plain_of_trim(s.drop_last());
        lemma_trim_is_prefix(s.drop_last());
        let t = trim_zeros(s);
        let k = (s.drop_last().len() - t.len()) as nat;
        let k2 = (s.len() - t.len()) as nat;
        assert(trim_zeros(s) == trim_zeros(s.drop_last()));
        assert(digits_value(s) == digits_value(s.drop_last()) * 10 + 0);
        assert(k2 == k + 1);
        assert(pow10(k2) == 10 * pow10(k));
        assert(digits_value(t) * (10 * pow10(k)) == (digits_value(t) * pow10(k)) * 10)
            by (nonlinear_arith);
        assert(digits_value(t) * pow10(k2) == digits_value(s.drop_last()) * 10);
    }
}

/// A run of digit bytes has a non-negative plain value.
proof fn lemma_plain_nonneg(s: Seq<u8>)
    requires
        forall|j: int| 0 <= j < s.len() ==> digit_byte(#[trigger] s[j]),
    ensures
        digits_value(s) >= 0,
    decreases s.len(),
{
    if s.len() > 0 {
        lemma_plain_nonneg(s.drop_last());
    }
}

/// A sequence of `'0'` bytes trims to nothing.
proof fn lemma_trim_all_zeros(s: Seq<u8>)
    requires
        forall|j: int| 0 <= j < s.len() ==> s[j] == 48,
    ensures
        trim_zeros(s) =~= Seq::<u8>::empty(),
    decreases s.len(),
{
    if s.len() > 0 {
        lemma_trim_all_zeros(s.drop_last());
    }
}


/// Parsing the scaled-by-ten-to-the-six rendering recovers its pieces:
/// the sign flag is the minus byte, the scanned integer digits give the
/// integer part, and the fractional digits are the zero-padded
/// fractional part with its trailing zeros removed, whose value times
/// the removed power of ten is the fractional part.  This is the digit
/// layer of the float round trip: within the six-digit cap the scaled
/// value survives writing and reading unchanged.
#[verifier::rlimit(100)]
pub proof fn lemma_scaled6_round_trip(negative: bool, scaled: u64)
    ensures
        ({
            let s = scaled6_digits(negative, scaled as nat);
            let f = decimal_frac_digits(s);
            &&& (s.len() > 0 && s[0] == 45) == negative
            &&& wrapped_value(decimal_int_digits(s), 0x1_0000_0000_0000_0000) == scaled as nat
                / 1000000
            &&& f == trim_zeros(padded_digits(scaled as nat % 1000000, 6))
            &&& f.len() <= 6
            &&& wrapped_value(f, 0x1_0000_0000) * pow10((6 - f.len()) as nat) == scaled as nat
                % 1000000
        }),
{
    let s = scaled6_digits(negative, scaled as nat);
    let ip_n = scaled as nat / 1000000;
    let frac = scaled as nat % 1000000;
    let ip = dec_digits(ip_n);
    let sign: Seq<u8> = if negative { seq![45u8] } else { Seq::<u8>::empty() };
    lemma_dec_digits_shape(ip_n);
    lemma_pow10_values();
    vstd::arithmetic::div_mod::lemma_mod_bound(scaled as int, 1000000);
    let body = decimal_body(s);
    if frac == 0 {
        assert(s =~= sign + ip);
        assert(digit_byte(ip[0]));
        if negative {
            assert(s[0] == 45);
            assert(body =~= ip);
        } else {
            assert(s[0] == ip[0]);
            assert(body =~= ip);
        }
        lemma_digit_prefix_len_is(body, body.len());
        assert(decimal_int_digits(s) =~= ip);
        lemma_wrapped_value_of_digits(ip_n, 0x1_0000_0000_0000_0000);
        assert(body.skip(digit_prefix_len(body) as int) =~= Seq::<u8>::empty());
        assert(decimal_frac_digits(s) =~= Seq::<u8>::empty());
        assert forall|j: int| 0 <= j < 6 implies padded_digits(frac, 6)[j] == 48 by {
            lemma_pow10_positive((5 - j) as nat);
            assert(frac / pow10((5 - j) as nat) == 0);
        }
        lemma_trim_all_zeros(padded_digits(frac, 6));
        assert(decimal_frac_digits(s) =~= trim_zeros(padded_digits(frac, 6)));
        assert(wrapped_value(decimal_frac_digits(s), 0x1_0000_0000) == 0);
        assert(wrapped_value(decimal_frac_digits(s), 0x1_0000_0000) * pow10(
            (6 - decimal_frac_digits(s).len()) as nat,
        ) == 0);
    } else {
        let t = trim_zeros(padded_digits(frac, 6));
        lemma_trim_is_prefix(padded_digits(frac, 6));
        lemma_padded_are_digits(frac, 6);
        assert forall|j: int| 0 <= j < t.len() implies digit_byte(#[trigger] t[j]) by {
            assert(t[j] == padded_digits(frac, 6)[j]);
        }
        assert(s =~= sign + ip + seq![46u8] + t);
        assert(digit_byte(ip[0]));
        if negative {
            assert(s[0] == 45);
            assert(body =~= ip + seq![46u8] + t);
        } else {
            assert(s[0] == ip[0]);
            assert(body =~= ip + seq![46u8] + t);
        }
        assert forall|j: int| 0 <= j < ip.len() implies digit_byte(#[trigger] body[j]) by {
            assert(body[j] == ip[j]);
        }
        assert(body[ip.len() as int] == 46);
        lemma_digit_prefix_len_is(body, ip.len());
        assert(decimal_int_digits(s) =~= ip);
        lemma_wrapped_value_of_digits(ip_n, 0x1_0000_0000_0000_0000);
        let rest = body.skip(ip.len() as int);
        assert(rest[0] == 46);
        assert(rest.skip(1) =~= t);
        lemma_digit_prefix_len_is(t, t.len());
        assert(decimal_frac_digits(s) =~= t);
        lemma_plain_of_padded(frac, 6);
        lemma_plain_of_trim(padded_digits(frac, 6));
        lemma_plain_nonneg(t);
        let k = (6 - t.len()) as nat;
        assert(digits_value(t) * pow10(k) == frac);
        lemma_pow10_positive(k);
        assert(digits_value(t) <= digits_value(t) * pow10(k)) by (nonlinear_arith)
            requires
                digits_value(t) >= 0,
                pow10(k) >= 1,
        ;
        lemma_wrapped_is_plain_mod(t, 0x1_0000_0000);
        assert(digits_value(t) % 0x1_0000_0000 == digits_value(t)) by {
            vstd::arithmetic::div_mod::lemma_small_mod(digits_value(t) as nat, 0x1_0000_0000);
        }
        assert(wrapped_value(decimal_frac_digits(s), 0x1_0000_0000) * pow10(
            (6 - decimal_frac_digits(s).len()) as nat,
        ) == frac);
    }
}

/// Parsing the scaled-by-ten-to-the-fifteen rendering recovers its pieces:
/// the sign flag is the minus byte, the scanned integer digits give the
/// integer part, and the fractional digits are the zero-padded
/// fractional part with its trailing zeros removed, whose value times
/// the removed power of ten is the fractional part.  This is the digit
/// layer of the float round trip: within the fifteen-digit cap the scaled
/// value survives writing and reading unchanged.
#[verifier::rlimit(100)]
pub proof fn lemma_scaled15_round_trip(negative: bool, scaled: u128)
    ensures
        ({
            let s = scaled15_digits(negative, scaled as nat);
            let f = decimal_frac_digits(s);
            &&& (s.len() > 0 && s[0] == 45) == negative
            &&& wrapped_value(decimal_int_digits(s), two_pow_128()) == scaled as nat
                / 1000000000000000
            &&& f == trim_zeros(padded_digits(scaled as nat % 1000000000000000, 15))
            &&& f.len() <= 15
            &&& wrapped_value(f, two_pow_128()) * pow10((15 - f.len()) as nat) == scaled as nat
                % 1000000000000000
        }),
{
    let s = scaled15_digits(negative, scaled as nat);
    let ip_n = scaled as nat / 1000000000000000;
    let frac = scaled as nat % 1000000000000000;
    let ip = dec_digits(ip_n);
    let sign: Seq<u8> = if negative { seq![45u8] } else { Seq::<u8>::empty() };
    lemma_dec_digits_shape(ip_n);
    lemma_pow10_values();
    vstd::arithmetic::div_mod::lemma_mod_bound(scaled as int, 1000000000000000);
    let body = decimal_body(s);
    if frac == 0 {
        assert(s =~= sign + ip);
        assert(digit_byte(ip[0]));
        if negative {
            assert(s[0] == 45);
            assert(body =~= ip);
        } else {
            assert(s[0] == ip[0]);
            assert(body =~= ip);
        }
        lemma_digit_prefix_len_is(body, body.len());
        assert(decimal_int_digits(s) =~= ip);
        lemma_wrapped_value_of_digits(ip_n, two_pow_128());
        assert(body.skip(digit_prefix_len(body) as int) =~= Seq::<u8>::empty());
        assert(decimal_frac_digits(s) =~= Seq::<u8>::empty());
        assert forall|j: int| 0 <= j < 15 implies padded_digits(frac, 15)[j] == 48 by {
            lemma_pow10_positive((14 - j) as nat);
            assert(frac / pow10((14 - j) as nat) == 0);
        }
        lemma_trim_all_zeros(padded_digits(frac, 15));
        assert(decimal_frac_digits(s) =~= trim_zeros(padded_digits(frac, 15)));
        assert(wrapped_value(decimal_frac_digits(s), two_pow_128()) == 0);
        assert(wrapped_value(decimal_frac_digits(s), two_pow_128()) * pow10(
            (15 - decimal_frac_digits(s).len()) as nat,
        ) == 0);
    } else {
        let t = trim_zeros(padded_digits(frac, 15));
        lemma_trim_is_prefix(padded_digits(frac, 15));
        lemma_padded_are_digits(frac, 15);
        assert forall|j: int| 0 <= j < t.len() implies digit_byte(#[trigger] t[j]) by {
            assert(t[j] == padded_digits(frac, 15)[j]);
        }
        assert(s =~= sign + ip + seq![46u8] + t);
        assert(digit_byte(ip[0]));
        if negative {
            assert(s[0] == 45);
            assert(body =~= ip + seq![46u8] + t);
        } else {
            assert(s[0] == ip[0]);
            assert(body =~= ip + seq![46u8] + t);
        }
        assert forall|j: int| 0 <= j < ip.len() implies digit_byte(#[trigger] body[j]) by {
            assert(body[j] == ip[j]);
        }
        assert(body[ip.len() as int] == 46);
        lemma_digit_prefix_len_is(body, ip.len());
        assert(decimal_int_digits(s) =~= ip);
        lemma_wrapped_value_of_digits(ip_n, two_pow_128());
        let rest = body.skip(ip.len() as int);
        assert(rest[0] == 46);
        assert(rest.skip(1) =~= t);
        lemma_digit_prefix_len_is(t, t.len());
        assert(decimal_frac_digits(s) =~= t);
        lemma_plain_of_padded(frac, 15);
        lemma_plain_of_trim(padded_digits(frac, 15));
        lemma_plain_nonneg(t);
        let k = (15 - t.len()) as nat;
        assert(digits_value(t) * pow10(k) == frac);
        lemma_pow10_positive(k);
        assert(digits_value(t) <= digits_value(t) * pow10(k)) by (nonlinear_arith)
            requires
                digits_value(t) >= 0,
                pow10(k) >= 1,
        ;
        lemma_wrapped_is_plain_mod(t, two_pow_128());
        assert(digits_value(t) % (two_pow_128() as int) == digits_value(t)) by {
            vstd::arithmetic::div_mod::lemma_small_mod(digits_value(t) as nat, two_pow_128());
        }
        assert(wrapped_value(decimal_frac_digits(s), two_pow_128()) * pow10(
            (15 - decimal_frac_digits(s).len()) as nat,
        ) == frac);
    }
}

/// `a` precedes `b` lexicographically with the first difference at `k`.
pub open spec fn lex_less_at(a: Seq<u8>, b: Seq<u8>, k: int) -> bool {
    &&& 0 <= k < a.len()
    &&& k < b.len()
    &&& a[k] < b[k]
    &&& forall|j: int| 0 <= j < k ==> a[j] == b[j]
}

/// `a` precedes `b` in lexicographic byte order.
pub open spec fn lex_less(a: Seq<u8>, b: Seq<u8>) -> bool {
    exists|k: int| lex_less_at(a, b, k)
}

/// The civil components of every supported day lie in their natural
/// ranges: a four-digit year from the epoch on, a month in 1..=12 and a
/// day-of-month in 1..=31.
#[verifier::rlimit(100)]
pub proof fn lemma_civil_components_in_range(day: int)
    requires
        0 <= day <= MAX_CACHEABLE_DAY,
    ensures
        ({
            let c = civil_of_day(day);
            &&& 1970 <= c.0 <= 9999
            &&& 1 <= c.1 <= 12
            &&& 1 <= c.2 <= 31
        }),
{
    let z = day + 719468;
    let era = z / 146097;
    let doe = z - era * 146097;
    let yoe = (doe - doe / 1460 + doe / 36524 - doe / 146096) / 365;
    let doy = doe - (365 * yoe + yoe / 4 - yoe / 100);
    let mp = (5 * doy + 2) / 153;
    assert(0 <= doe <= 146096);
    assert(365 * yoe + yoe / 4 - yoe / 100 <= doe);
    assert(doy <= 365);
    assert(0 <= yoe <= 399);
    assert(0 <= doy);
    assert(0 <= mp <= 11);
    assert(4 <= era <= 24);
}

/// One day forward moves the civil triple strictly forward in
/// (year, month, day) order.
#[verifier::rlimit(100)]
proof fn lemma_civil_step(day: int)
    requires
        0 <= day < MAX_CACHEABLE_DAY,
    ensures
        ({
            let c1 = civil_of_day(day);
            let c2 = civil_of_day(day + 1);
            c1.0 < c2.0 || (c1.0 == c2.0 && (c1.1 < c2.1 || (c1.1 == c2.1 && c1.2 < c2.2)))
        }),
{
    let z = day + 719468;
    let era = z / 146097;
    let doe = z - era * 146097;
    let yoe = (doe - doe / 1460 + doe / 36524 - doe / 146096) / 365;
    let doy = doe - (365 * yoe + yoe / 4 - yoe / 100);
    let mp = (5 * doy + 2) / 153;
    let z2 = z + 1;
    let era2 = z2 / 146097;
    let doe2 = z2 - era2 * 146097;
    let yoe2 = (doe2 - doe2 / 1460 + doe2 / 36524 - doe2 / 146096) / 365;
    let doy2 = doe2 - (365 * yoe2 + yoe2 / 4 - yoe2 / 100);
    let mp2 = (5 * doy2 + 2) / 153;
    if doe == 146096 {
        assert(era2 == era + 1);
        assert(doe2 == 0);
        assert(yoe == 399);
        assert(doy == 365);
        assert(mp == 11);
        assert(yoe2 == 0);
        assert(doy2 == 0);
        assert(mp2 == 0);
    } else {
        assert(era2 == era);
        assert(doe2 == doe + 1);
        assert(yoe <= yoe2 <= yoe + 1);
        if yoe2 == yoe {
            assert(doy2 == doy + 1);
            assert(mp <= mp2 <= mp + 1);
        } else {
            assert(doy <= 365);
            assert(doy2 <= 365);
        }
    }
}

/// The civil triple moves strictly forward over any number of days.
proof fn lemma_civil_increases(d1: int, d2: int)
    requires
        0 <= d1 < d2 <= MAX_CACHEABLE_DAY,
    ensures
        ({
            let c1 = civil_of_day(d1);
            let c2 = civil_of_day(d2);
            c1.0 < c2.0 || (c1.0 == c2.0 && (c1.1 < c2.1 || (c1.1 == c2.1 && c1.2 < c2.2)))
        }),
    decreases d2 - d1,
{
    if d2 == d1 + 1 {
        lemma_civil_step(d1);
    } else {
        lemma_civil_increases(d1, d2 - 1);
        lemma_civil_step(d2 - 1);
    }
}

/// For a supported day, the date bytes are exactly the four-digit
/// zero-padded year followed by the two-digit month and day: the digit
/// adjustments in the rendering are the identity on in-range
/// components.
#[verifier::rlimit(100)]
pub proof fn lemma_date_digits_split(day: int)
    requires
        0 <= day <= MAX_CACHEABLE_DAY,
    ensures
        ({
            let c = civil_of_day(day);
            date_digits(day) == padded_digits(c.0 as nat, 4) + padded_digits(c.1 as nat, 2)
                + padded_digits(c.2 as nat, 2)
        }),
{
    lemma_civil_components_in_range(day);
    lemma_pow10_values();
    let c = civil_of_day(day);
    let y = c.0 as nat;
    let mo = c.1 as nat;
    let dd = c.2 as nat;
    vstd::arithmetic::div_mod::lemma_div_basics(y as int);
    vstd::arithmetic::div_mod::lemma_div_basics(mo as int);
    vstd::arithmetic::div_mod::lemma_div_basics(dd as int);
    assert(padded_digits(y, 4)[0] == (48 + (y / pow10(3)) % 10) as u8);
    assert(padded_digits(y, 4)[1] == (48 + (y / pow10(2)) % 10) as u8);
    assert(padded_digits(y, 4)[2] == (48 + (y / pow10(1)) % 10) as u8);
    assert(padded_digits(y, 4)[3] == (48 + (y / pow10(0)) % 10) as u8);
    assert(padded_digits(mo, 2)[0] == (48 + (mo / pow10(1)) % 10) as u8);
    assert(padded_digits(mo, 2)[1] == (48 + (mo / pow10(0)) % 10) as u8);
    assert(padded_digits(dd, 2)[0] == (48 + (dd / pow10(1)) % 10) as u8);
    assert(padded_digits(dd, 2)[1] == (48 + (dd / pow10(0)) % 10) as u8);
    assert(date_digits(day) =~= padded_digits(c.0 as nat, 4) + padded_digits(c.1 as nat, 2)
        + padded_digits(c.2 as nat, 2));
}

/// Lexicographic order of two-digit zero-padded runs follows the values.
#[verifier::rlimit(100)]
proof fn lemma_padded2_lex(v1: nat, v2: nat)
    requires
        v1 < v2 < 100,
    ensures
        lex_less(padded_digits(v1, 2), padded_digits(v2, 2)),
{
    lemma_pow10_values();
    let a = padded_digits(v1, 2);
    let b = padded_digits(v2, 2);
    vstd::arithmetic::div_mod::lemma_div_basics(v1 as int);
    vstd::arithmetic::div_mod::lemma_div_basics(v2 as int);
    if v1 / 10 < v2 / 10 {
        assert(a[0] == (48 + (v1 / pow10(1)) % 10) as u8);
        assert(b[0] == (48 + (v2 / pow10(1)) % 10) as u8);
        assert(lex_less_at(a, b, 0));
    } else {
        assert(v1 / 10 == v2 / 10);
        assert(a[1] == (48 + (v1 / pow10(0)) % 10) as u8);
        assert(b[1] == (48 + (v2 / pow10(0)) % 10) as u8);
        assert(a[0] == b[0]);
        assert(v1 % 10 < v2 % 10);
        assert(lex_less_at(a, b, 1));
    }
}

/// Lexicographic order of four-digit zero-padded runs follows the
/// values.
#[verifier::rlimit(100)]
proof fn lemma_padded4_lex(v1: nat, v2: nat)
    requires
        v1 < v2 < 10000,
    ensures
        lex_less(padded_digits(v1, 4), padded_digits(v2, 4)),
{
    lemma_pow10_values();
    let a = padded_digits(v1, 4);
    let b = padded_digits(v2, 4);
    vstd::arithmetic::div_mod::lemma_div_basics(v1 as int);
    vstd::arithmetic::div_mod::lemma_div_basics(v2 as int);
    assert(a[0] == (48 + (v1 / 1000) % 10) as u8);
    assert(a[1] == (48 + (v1 / 100) % 10) as u8);
    assert(a[2] == (48 + (v1 / 10) % 10) as u8);
    assert(a[3] == (48 + v1 % 10) as u8);
    assert(b[0] == (48 + (v2 / 1000) % 10) as u8);
    assert(b[1] == (48 + (v2 / 100) % 10) as u8);
    assert(b[2] == (48 + (v2 / 10) % 10) as u8);
    assert(b[3] == (48 + v2 % 10) as u8);
    if v1 / 1000 < v2 / 1000 {
        assert(lex_less_at(a, b, 0));
    } else if v1 / 100 < v2 / 100 {
        assert(lex_less_at(a, b, 1));
    } else if v1 / 10 < v2 / 10 {
        assert(lex_less_at(a, b, 2));
    } else {
        assert(v1 % 10 < v2 % 10);
        assert(lex_less_at(a, b, 3));
    }
}

/// Across any day boundary the eight date bytes change and grow in
/// lexicographic byte order: a later day never renders an equal or
/// smaller `YYYYMMDD` prefix.
#[verifier::rlimit(100)]
pub proof fn lemma_date_digits_increase(d1: u64, d2: u64)
    requires
        d1 < d2 <= MAX_CACHEABLE_DAY,
    ensures
        lex_less(date_digits(d1 as int), date_digits(d2 as int)),
        date_digits(d1 as int) != date_digits(d2 as int),
{
    lemma_civil_components_in_range(d1 as int);
    lemma_civil_components_in_range(d2 as int);
    lemma_civil_increases(d1 as int, d2 as int);
    lemma_date_digits_split(d1 as int);
    lemma_date_digits_split(d2 as int);
    let c1 = civil_of_day(d1 as int);
    let c2 = civil_of_day(d2 as int);
    let a = date_digits(d1 as int);
    let b = date_digits(d2 as int);
    if c1.0 < c2.0 {
        lemma_padded4_lex(c1.0 as nat, c2.0 as nat);
        let k = choose|k: int|
            #[trigger] lex_less_at(padded_digits(c1.0 as nat, 4), padded_digits(c2.0 as nat, 4), k);
        assert(lex_less_at(a, b, k));
    } else if c1.1 < c2.1 {
        assert(padded_digits(c1.0 as nat, 4) == padded_digits(c2.0 as nat, 4));
        lemma_padded2_lex(c1.1 as nat, c2.1 as nat);
        let k = choose|k: int|
            #[trigger] lex_less_at(padded_digits(c1.1 as nat, 2), padded_digits(c2.1 as nat, 2), k);
        assert(lex_less_at(a, b, 4 + k));
    } else {
        assert(padded_digits(c1.0 as nat, 4) == padded_digits(c2.0 as nat, 4));
        assert(padded_digits(c1.1 as nat, 2) == padded_digits(c2.1 as nat, 2));
        lemma_padded2_lex(c1.2 as nat, c2.2 as nat);
        let k = choose|k: int|
            #[trigger] lex_less_at(padded_digits(c1.2 as nat, 2), padded_digits(c2.2 as nat, 2), k);
        assert(lex_less_at(a, b, 6 + k));
    }
    let w = choose|k: int| #[trigger] lex_less_at(a, b, k);
    assert(a[w] != b[w]);
}

/// Two valid instants on different days render wire timestamps whose
/// date prefixes differ and increase lexicographically with the day;
/// together with the date-cache invariant, a reader never observes date
/// digits paired with the wrong day.
#[verifier::rlimit(100)]
pub proof fn lemma_wire_dates_increase(ts1: Timespec, ts2: Timespec)
    requires
        ts1.valid(),
        ts2.valid(),
        ts1.tv_sec / 86400 < ts2.tv_sec / 86400,
    ensures
        lex_less(
            wire_timestamp_bytes(ts1).subrange(0, 8),
            wire_timestamp_bytes(ts2).subrange(0, 8),
        ),
        wire_timestamp_bytes(ts1).subrange(0, 8) != wire_timestamp_bytes(ts2).subrange(0, 8),
{
    let d1 = ts1.tv_sec / 86400;
    let d2 = ts2.tv_sec / 86400;
    assert(0 <= d1 && d2 <= MAX_CACHEABLE_DAY as int) by {
        vstd::arithmetic::div_mod::lemma_div_is_ordered(ts2.tv_sec as int, 253402300799, 86400);
    }
    lemma_civil_components_in_range(d1);
    lemma_civil_components_in_range(d2);
    assert(wire_timestamp_bytes(ts1).subrange(0, 8) =~= date_digits(d1));
    assert(wire_timestamp_bytes(ts2).subrange(0, 8) =~= date_digits(d2));
    lemma_date_digits_increase(d1 as u64, d2 as u64);
}

} // verus!
