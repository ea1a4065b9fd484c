//! Timestamp formatting over a cached date rendering, and the
//! process-unique identifier generator with its base-36 encoding.
//!
//! The date cache holds the most recently rendered `YYYYMMDD` digits
//! together with the day number they render; its well-formedness
//! invariant guarantees that a reader can never observe digits paired
//! with the wrong day.  The cache is an explicit service value updated
//! through `&mut`, so the pair changes as one unit; recomputation
//! happens only when a formatting call observes a different day.

use vstd::prelude::*;

use crate::digits::lemma_pow10_values;
use crate::digits::pow10;
use crate::writing::copy_bytes_at;
use crate::writing::padded_digits;

verus! {

/// Seconds in a civil day.
pub const SECS_PER_DAY: u64 = 86400;

/// The sentinel day number marking an uninitialized date cache.
pub const UNCACHED_DAY: u64 = 0xFFFF_FFFF_FFFF_FFFF;

/// The last day number whose civil year still has four digits
/// (9999-12-31).
pub const MAX_CACHEABLE_DAY: u64 = 2932896;

/// A UTC instant: whole seconds since the Unix epoch and nanoseconds
/// within the second.
pub struct Timespec {
    pub tv_sec: i64,
    pub tv_nsec: i64,
}

impl Timespec {
    /// An instant this module can format: non-negative, before the year
    /// 10000, with a normalized nanosecond field.
    pub open spec fn valid(self) -> bool {
        &&& 0 <= self.tv_sec < 253402300800
        &&& 0 <= self.tv_nsec < 1_000_000_000
    }
}

/// Truncating (round toward zero) division, as the machine performs it
/// on signed integers.
pub open spec fn tdiv(a: int, b: int) -> int {
    if a >= 0 {
        a / b
    } else {
        -((-a) / b)
    }
}

/// The civil `(year, month, day)` of a day number, by the
/// proleptic-Gregorian era decomposition evaluated with machine
/// (truncating) division.
pub open spec fn civil_of_day(day: int) -> (int, int, int) {
    let z = day + 719468;
    let era = tdiv(z, 146097);
    let doe = z - era * 146097;
    let yoe = tdiv(doe - tdiv(doe, 1460) + tdiv(doe, 36524) - tdiv(doe, 146096), 365);
    let y = yoe + era * 400;
    let doy = doe - (365 * yoe + tdiv(yoe, 4) - tdiv(yoe, 100));
    let mp = tdiv(5 * doy + 2, 153);
    let d = doy - tdiv(153 * mp + 2, 5) + 1;
    let m = mp + if mp < 10 {
        3int
    } else {
        -9int
    };
    let year = y + if m <= 2 {
        1int
    } else {
        0int
    };
    (year, m, d)
}

/// The ASCII digit for the lowest decimal digit of `x` (Euclidean, so
/// well defined for every integer).
pub open spec fn low_digit(x: int) -> u8 {
    (48 + x % 10) as u8
}

/// The eight `YYYYMMDD` bytes for a day number.  For every day in the
/// supported span the components lie in their natural ranges and these
/// are the plain zero-padded digits of year, month and day.
pub open spec fn date_digits(day: int) -> Seq<u8> {
    let c = civil_of_day(day);
    seq![
        low_digit(tdiv(c.0, 1000)),
        low_digit(tdiv(c.0, 100)),
        low_digit(tdiv(c.0, 10)),
        low_digit(c.0),
        low_digit(tdiv(c.1, 10)),
        low_digit(c.1),
        low_digit(tdiv(c.2, 10)),
        low_digit(c.2),
    ]
}

/// Compute the civil `(year, month, day)` of a day number.
pub fn civil_from_days(day_number: u64) -> (r: (i64, i64, i64))
    requires
        day_number <= MAX_CACHEABLE_DAY,
    ensures
        (r.0 as int, r.1 as int, r.2 as int) == civil_of_day(day_number as int),
{
    let days = day_number as i64;
    let z = days + 719_468;
    let era = z / 146_097;
    let doe = z - era * 146_097;
    let yoe = (doe - doe / 1_460 + doe / 36_524 - doe / 146_096) / 365;
    let y = yoe + era * 400;
    let doy = doe - (365 * yoe + yoe / 4 - yoe / 100);
    let mp = (5 * doy + 2) / 153;
    let d = doy - (153 * mp + 2) / 5 + 1;
    let m = mp + if mp < 10 {
        3
    } else {
        -9
    };
    let year = y + if m <= 2 {
        1
    } else {
        0
    };
    (year, m, d)
}

/// The ASCII digit for the lowest decimal digit of `x`.
fn ascii_low_digit(x: i64) -> (r: u8)
    ensures
        r == low_digit(x as int),
{
    (48 + ((x % 10) + 10) % 10) as u8
}

/// The shared date cache: the most recently used day number paired with
/// its pre-rendered `YYYYMMDD` bytes.
pub struct DateCache {
    cached_day: u64,
    cached_digits: Vec<u8>,
}

impl DateCache {
    /// The cache invariant: the digit field always holds eight bytes,
    /// and whenever a day is published the digits are exactly that
    /// day's rendering — digits from one day are never paired with
    /// another day's number.
    pub closed spec fn wf(self) -> bool {
        &&& self.cached_digits@.len() == 8
        &&& self.cached_day != UNCACHED_DAY ==> {
            &&& self.cached_day <= MAX_CACHEABLE_DAY
            &&& self.cached_digits@ == date_digits(self.cached_day as int)
        }
    }

    /// The day the cache currently renders.
    pub closed spec fn day(self) -> u64 {
        self.cached_day
    }

    /// The cached date bytes.
    pub closed spec fn digits(self) -> Seq<u8> {
        self.cached_digits@
    }

    /// An empty cache, holding the sentinel day.
    pub fn new() -> (c: DateCache)
        ensures
            c.wf(),
            c.day() == UNCACHED_DAY,
    {
        let mut digits: Vec<u8> = Vec::new();
        let mut k: usize = 0;
        while k < 8
            invariant
                k <= 8,
                digits@.len() == k,
            decreases 8 - k,
        {
            digits.push(48);
            k = k + 1;
        }
        DateCache { cached_day: UNCACHED_DAY, cached_digits: digits }
    }

    /// Recompute and publish the date digits for `day_number`.  The day
    /// and its digits are replaced together.
    pub fn publish_date_for_day(&mut self, day_number: u64)
        requires
            old(self).wf(),
            day_number <= MAX_CACHEABLE_DAY,
        ensures
            final(self).wf(),
            final(self).day() == day_number,
            final(self).digits() == date_digits(day_number as int),
    {
        let (year, month, day) = civil_from_days(day_number);
        self.cached_digits[0] = ascii_low_digit(year / 1000);
        self.cached_digits[1] = ascii_low_digit(year / 100);
        self.cached_digits[2] = ascii_low_digit(year / 10);
        self.cached_digits[3] = ascii_low_digit(year);
        self.cached_digits[4] = ascii_low_digit(month / 10);
        self.cached_digits[5] = ascii_low_digit(month);
        self.cached_digits[6] = ascii_low_digit(day / 10);
        self.cached_digits[7] = ascii_low_digit(day);
        self.cached_day = day_number;
        proof {
            assert(self.cached_digits@ =~= date_digits(day_number as int));
        }
    }

    /// Borrow the cached date bytes.
    pub fn date_bytes(&self) -> (r: &[u8])
        requires
            self.wf(),
        ensures
            r@ == self.digits(),
            r@.len() == 8,
    {
        self.cached_digits.as_slice()
    }

    /// Bring the cache up to date for `day_number`; a hit on the
    /// current day does nothing.
    pub fn ensure_date_cache(&mut self, day_number: u64)
        requires
            old(self).wf(),
            day_number <= MAX_CACHEABLE_DAY,
        ensures
            final(self).wf(),
            final(self).day() == day_number,
            final(self).digits() == date_digits(day_number as int),
    {
        if self.cached_day == day_number {
            return ;
        }
        self.publish_date_for_day(day_number);
    }
}

/// The 21 bytes `YYYYMMDD-HH:MM:SS.mmm` of a valid instant.
pub open spec fn wire_timestamp_bytes(ts: Timespec) -> Seq<u8> {
    let secs = ts.tv_sec as int;
    let day = secs / 86400;
    let sod = secs % 86400;
    date_digits(day) + seq![45u8] + padded_digits((sod / 3600) as nat, 2) + seq![58u8]
        + padded_digits(((sod % 3600) / 60) as nat, 2) + seq![58u8] + padded_digits(
        (sod % 60) as nat,
        2,
    ) + seq![46u8] + padded_digits((ts.tv_nsec / 1000000) as nat, 3)
}

/// The 31 bytes `YYYY-MM-DD HH:MM:SS.mmm.uuu.nnn` of a valid instant.
pub open spec fn logging_timestamp_bytes(ts: Timespec) -> Seq<u8> {
    let secs = ts.tv_sec as int;
    let day = secs / 86400;
    let sod = secs % 86400;
    let ns = ts.tv_nsec as int;
    let date = date_digits(day);
    date.subrange(0, 4) + seq![45u8] + date.subrange(4, 6) + seq![45u8] + date.subrange(6, 8)
        + seq![32u8] + padded_digits((sod / 3600) as nat, 2) + seq![58u8] + padded_digits(
        ((sod % 3600) / 60) as nat,
        2,
    ) + seq![58u8] + padded_digits((sod % 60) as nat, 2) + seq![46u8] + padded_digits(
        (ns / 1000000) as nat,
        3,
    ) + seq![46u8] + padded_digits(((ns / 1000) % 1000) as nat, 3) + seq![46u8]
        + padded_digits((ns % 1000) as nat, 3)
}

/// Write a two-digit zero-padded value (at most 99) at `pos`.
fn write_pair(buf: &mut Vec<u8>, pos: usize, v: u32)
    requires
        pos + 2 <= old(buf)@.len(),
        v < 100,
    ensures
        final(buf)@.len() == old(buf)@.len(),
        final(buf)@.subrange(pos as int, pos + 2) == padded_digits(v as nat, 2),
        forall|j: int|
            0 <= j < old(buf)@.len() && !(pos <= j < pos + 2) ==> final(buf)@[j] == old(
                buf,
            )@[j],
{
    // the buffer length is a machine word, so the index sums below cannot overflow
    let total = buf.len();
    buf[pos] = 48 + (v / 10) as u8;
    buf[pos + 1] = 48 + (v % 10) as u8;
    proof {
        lemma_pow10_values();
        assert(padded_digits(v as nat, 2)[0] == (48 + (v as nat / pow10(1)) % 10) as u8);
        assert(padded_digits(v as nat, 2)[1] == (48 + (v as nat / pow10(0)) % 10) as u8);
        vstd::arithmetic::div_mod::lemma_div_basics(v as int);
        assert((v as nat / pow10(1)) % 10 == v as nat / 10) by {
            vstd::arithmetic::div_mod::lemma_small_mod((v as nat) / 10, 10);
        }
        assert(buf@.subrange(pos as int, pos + 2) =~= padded_digits(v as nat, 2));
    }
}

/// Write a three-digit zero-padded value (at most 999) at `pos`.
fn write_triple(buf: &mut Vec<u8>, pos: usize, v: u32)
    requires
        pos + 3 <= old(buf)@.len(),
        v < 1000,
    ensures
        final(buf)@.len() == old(buf)@.len(),
        final(buf)@.subrange(pos as int, pos + 3) == padded_digits(v as nat, 3),
        forall|j: int|
            0 <= j < old(buf)@.len() && !(pos <= j < pos + 3) ==> final(buf)@[j] == old(
                buf,
            )@[j],
{
    // the buffer length is a machine word, so the index sums below cannot overflow
    let total = buf.len();
    buf[pos] = 48 + (v / 100) as u8;
    buf[pos + 1] = 48 + ((v / 10) % 10) as u8;
    buf[pos + 2] = 48 + (v % 10) as u8;
    proof {
        lemma_pow10_values();
        assert(padded_digits(v as nat, 3)[0] == (48 + (v as nat / pow10(2)) % 10) as u8);
        assert(padded_digits(v as nat, 3)[1] == (48 + (v as nat / pow10(1)) % 10) as u8);
        assert(padded_digits(v as nat, 3)[2] == (48 + (v as nat / pow10(0)) % 10) as u8);
        vstd::arithmetic::div_mod::lemma_div_basics(v as int);
        assert((v as nat / pow10(2)) % 10 == v as nat / 100) by {
            vstd::arithmetic::div_mod::lemma_small_mod((v as nat) / 100, 10);
        }
        assert(buf@.subrange(pos as int, pos + 3) =~= padded_digits(v as nat, 3));
    }
}

/// Write a complete wire timestamp field `TAG=YYYYMMDD-HH:MM:SS.mmm<SOH>`
/// at `offset`, for a caller-supplied instant, bringing the shared date
/// cache up to the instant's day.
pub fn format_timestamp_from_timespec(
    bytes: &mut Vec<u8>,
    offset: usize,
    tag_and_eq: &[u8],
    ts: &Timespec,
    cache: &mut DateCache,
) -> (len: usize)
    requires
        ts.valid(),
        old(cache).wf(),
        offset + tag_and_eq@.len() + 22 <= old(bytes)@.len(),
    ensures
        len == tag_and_eq@.len() + 22,
        final(bytes)@.len() == old(bytes)@.len(),
        final(bytes)@.subrange(offset as int, offset + len) == tag_and_eq@
            + wire_timestamp_bytes(*ts) + seq![1u8],
        forall|j: int|
            0 <= j < old(bytes)@.len() && !(offset <= j < offset + len) ==> final(bytes)@[j]
                == old(bytes)@[j],
        final(cache).wf(),
        final(cache).day() == ts.tv_sec / SECS_PER_DAY as i64,
{
    // the buffer length is a machine word, so the index sums below cannot overflow
    let total = bytes.len();
    copy_bytes_at(bytes, offset, tag_and_eq);
    let secs_u64 = ts.tv_sec as u64;
    let millis = (ts.tv_nsec / 1_000_000) as u32;
    let day_number = secs_u64 / SECS_PER_DAY;
    let sec_of_day = (secs_u64 % SECS_PER_DAY) as u32;
    let hour = sec_of_day / 3600;
    let minute = (sec_of_day % 3600) / 60;
    let second = sec_of_day % 60;
    cache.ensure_date_cache(day_number);
    let p = offset + tag_and_eq.len();
    let date = cache.date_bytes();
    copy_bytes_at(bytes, p, date);
    bytes[p + 8] = 45;
    write_pair(bytes, p + 9, hour);
    bytes[p + 11] = 58;
    write_pair(bytes, p + 12, minute);
    bytes[p + 14] = 58;
    write_pair(bytes, p + 15, second);
    bytes[p + 17] = 46;
    write_triple(bytes, p + 18, millis);
    bytes[p + 21] = 1;
    proof {
        assert(bytes@.subrange(offset as int, offset + tag_and_eq@.len() + 22) =~= tag_and_eq@
            + wire_timestamp_bytes(*ts) + seq![1u8]);
    }
    tag_and_eq.len() + 22
}

/// Write a 31-byte logging timestamp `YYYY-MM-DD HH:MM:SS.mmm.uuu.nnn`
/// at `offset`, for a caller-supplied instant, bringing the shared date
/// cache up to the instant's day.
#[verifier::rlimit(100)]
pub fn format_logging_timestamp_from_timespec(
    bytes: &mut Vec<u8>,
    offset: usize,
    ts: &Timespec,
    cache: &mut DateCache,
) -> (len: usize)
    requires
        ts.valid(),
        old(cache).wf(),
        offset + 31 <= old(bytes)@.len(),
    ensures
        len == 31,
        final(bytes)@.len() == old(bytes)@.len(),
        final(bytes)@.subrange(offset as int, offset + 31) == logging_timestamp_bytes(*ts),
        forall|j: int|
            0 <= j < old(bytes)@.len() && !(offset <= j < offset + 31) ==> final(bytes)@[j]
                == old(bytes)@[j],
        final(cache).wf(),
        final(cache).day() == ts.tv_sec / SECS_PER_DAY as i64,
{
    // the buffer length is a machine word, so the index sums below cannot overflow
    let total = bytes.len();
    let secs_u64 = ts.tv_sec as u64;
    let ns = ts.tv_nsec as u32;
    let day_number = secs_u64 / SECS_PER_DAY;
    let sec_of_day = (secs_u64 % SECS_PER_DAY) as u32;
    let hour = sec_of_day / 3600;
    let minute = (sec_of_day % 3600) / 60;
    let second = sec_of_day % 60;
    let millis = ns / 1_000_000;
    let micros = (ns / 1_000) % 1000;
    let nanos = ns % 1000;
    cache.ensure_date_cache(day_number);
    let date = cache.date_bytes();
    let year_hi = date[0];
    let year_lo1 = date[1];
    let year_lo2 = date[2];
    let year_lo3 = date[3];
    let month_hi = date[4];
    let month_lo = date[5];
    let day_hi = date[6];
    let day_lo = date[7];
    bytes[offset] = year_hi;
    bytes[offset + 1] = year_lo1;
    bytes[offset + 2] = year_lo2;
    bytes[offset + 3] = year_lo3;
    bytes[offset + 4] = 45;
    bytes[offset + 5] = month_hi;
    bytes[offset + 6] = month_lo;
    bytes[offset + 7] = 45;
    bytes[offset + 8] = day_hi;
    bytes[offset + 9] = day_lo;
    bytes[offset + 10] = 32;
    write_pair(bytes, offset + 11, hour);
    bytes[offset + 13] = 58;
    write_pair(bytes, offset + 14, minute);
    bytes[offset + 16] = 58;
    write_pair(bytes, offset + 17, second);
    bytes[offset + 19] = 46;
    write_triple(bytes, offset + 20, millis);
    bytes[offset + 23] = 46;
    write_triple(bytes, offset + 24, micros);
    bytes[offset + 27] = 46;
    write_triple(bytes, offset + 28, nanos);
    proof {
        assert(bytes@.subrange(offset as int, offset + 31) =~= logging_timestamp_bytes(*ts));
    }
    31
}

/// Thirty-six to the power `k`.
pub open spec fn pow36(k: nat) -> nat
    decreases k,
{
    if k == 0 {
        1
    } else {
        36 * pow36((k - 1) as nat)
    }
}

/// Stepping one power of thirty-six deeper divides the quotient by 36.
proof fn lemma_pow36_quotient_step(v: nat, j: nat)
    ensures
        v / pow36(j) / 36 == v / pow36(j + 1),
{
    assert(pow36(j) >= 1) by {
        lemma_pow36_positive(j);
    }
    vstd::arithmetic::div_mod::lemma_div_denominator(v as int, pow36(j) as int, 36);
    assert(pow36(j + 1) == 36 * pow36(j));
}

proof fn lemma_pow36_positive(k: nat)
    ensures
        pow36(k) >= 1,
    decreases k,
{
    if k > 0 {
        lemma_pow36_positive((k - 1) as nat);
    }
}

/// The base-36 character for a remainder: `0-9` then `A-Z`.
pub open spec fn base36_char(d: nat) -> u8 {
    if d < 10 {
        (48 + d) as u8
    } else {
        (55 + d) as u8
    }
}

/// The fixed thirteen-character base-36 rendering of `n`, most
/// significant digit first (every `u64` fits in thirteen digits).
pub open spec fn base36_fixed13(n: nat) -> Seq<u8> {
    Seq::new(13, |j: int| base36_char((n / pow36((12 - j) as nat)) % 36))
}

/// Left rotation of a 64-bit word.
pub open spec fn rotl64(x: u64, k: u64) -> u64
    recommends
        0 < k < 64,
{
    (x << k) | (x >> ((64 - k) as u64))
}

/// Left rotation of a 32-bit word.
pub open spec fn rotl32(x: u32, k: u32) -> u32
    recommends
        0 < k < 32,
{
    (x << k) | (x >> ((32 - k) as u32))
}

/// The splitmix64 finalizing hash.
pub open spec fn splitmix64_spec(x: u64) -> u64 {
    let x1 = vstd::wrapping::u64_specs::wrapping_add(x, 0x9E37_79B9_7F4A_7C15);
    let z1 = vstd::wrapping::u64_specs::wrapping_mul(x1 ^ (x1 >> 30), 0xBF58_476D_1CE4_E5B9);
    let z2 = vstd::wrapping::u64_specs::wrapping_mul(z1 ^ (z1 >> 27), 0x94D0_49BB_1331_11EB);
    z2 ^ (z2 >> 31)
}

/// Compute the splitmix64 finalizing hash.
pub fn splitmix64(x: u64) -> (r: u64)
    ensures
        r == splitmix64_spec(x),
{
    let x1 = x.wrapping_add(0x9E37_79B9_7F4A_7C15);
    let z1 = (x1 ^ (x1 >> 30)).wrapping_mul(0xBF58_476D_1CE4_E5B9);
    let z2 = (z1 ^ (z1 >> 27)).wrapping_mul(0x94D0_49BB_1331_11EB);
    z2 ^ (z2 >> 31)
}

/// The 32-bit process tag mixed from a process id and four
/// address-entropy words: rotations and a splitmix64 finish, folded to
/// 32 bits, with zero remapped to one.
pub open spec fn process_tag_of(pid: u64, a1: u64, a2: u64, a3: u64, a4: u64) -> u32 {
    let mixed = splitmix64_spec(
        pid ^ rotl64(a1, 7) ^ rotl64(a2, 17) ^ rotl64(a3, 29) ^ rotl64(a4, 3),
    );
    let folded = rotl32(
        vstd::wrapping::u32_specs::wrapping_add(
            (mixed & 0xFFFF_FFFF) as u32,
            ((mixed >> 32) & 0xFFFF_FFFF) as u32,
        ),
        5,
    );
    if folded == 0 {
        1u32
    } else {
        folded
    }
}

/// Derive the process tag from a process id and four address-entropy
/// words.  The result is never zero.
pub fn derive_process_tag(pid: u64, a1: u64, a2: u64, a3: u64, a4: u64) -> (t: u32)
    ensures
        t == process_tag_of(pid, a1, a2, a3, a4),
        t != 0,
{
    let mixed = splitmix64(
        pid ^ ((a1 << 7) | (a1 >> 57)) ^ ((a2 << 17) | (a2 >> 47)) ^ ((a3 << 29) | (a3 >> 35))
            ^ ((a4 << 3) | (a4 >> 61)),
    );
    let lo = (mixed & 0xFFFF_FFFF) as u32;
    let hi = ((mixed >> 32) & 0xFFFF_FFFF) as u32;
    let folded0 = lo.wrapping_add(hi);
    let folded = (folded0 << 5) | (folded0 >> 27);
    if folded == 0 {
        1
    } else {
        folded
    }
}

/// The 64-bit identifier minted from a process tag and a counter value:
/// the tag in the high half, the counter's low 32 bits in the low half.
pub open spec fn id_of(tag: u32, counter: u64) -> u64 {
    ((tag as u64) << 32) | (counter & 0xFFFF_FFFF)
}

/// Combine a process tag and a counter value into an identifier.
pub fn compose_id(tag: u32, counter: u64) -> (id: u64)
    ensures
        id == id_of(tag, counter),
{
    ((tag as u64) << 32) | (counter & 0xFFFF_FFFF)
}

/// The process-unique identifier generator: an immutable non-zero
/// process tag and a counter that wraps modulo two to the 64.
pub struct IdGenerator {
    tag: u32,
    counter: u64,
}

impl IdGenerator {
    /// The generator invariant: the tag is never zero.
    pub closed spec fn wf(self) -> bool {
        self.tag != 0
    }

    /// The process tag.
    pub closed spec fn tag(self) -> u32 {
        self.tag
    }

    /// The counter value consumed by the next identifier.
    pub closed spec fn counter(self) -> u64 {
        self.counter
    }

    /// A generator for the given non-zero process tag, counting from
    /// zero.
    pub fn new(tag: u32) -> (g: IdGenerator)
        requires
            tag != 0,
        ensures
            g.wf(),
            g.tag() == tag,
            g.counter() == 0,
    {
        IdGenerator { tag, counter: 0 }
    }

    /// Mint the next identifier: the tag over the counter's low 32
    /// bits, advancing the counter by one (wrapping).
    pub fn next_id_u64(&mut self) -> (id: u64)
        requires
            old(self).wf(),
        ensures
            final(self).wf(),
            final(self).tag() == old(self).tag(),
            final(self).counter() == vstd::wrapping::u64_specs::wrapping_add(
                old(self).counter(),
                1,
            ),
            id == id_of(old(self).tag(), old(self).counter()),
    {
        let n = self.counter;
        self.counter = self.counter.wrapping_add(1);
        compose_id(self.tag, n)
    }
}

/// Identifiers minted from the same tag and counter values that differ
/// in their low 32 bits are distinct; so are identifiers minted from
/// different tags.  Together: every run of up to two to the 32
/// consecutive counter values yields pairwise-distinct identifiers,
/// from any number of generators with distinct tags.
pub proof fn lemma_ids_distinct(t1: u32, t2: u32, c1: u64, c2: u64)
    requires
        t1 != t2 || (c1 & 0xFFFF_FFFF) != (c2 & 0xFFFF_FFFF),
    ensures
        id_of(t1, c1) != id_of(t2, c2),
{
    assert(t1 != t2 ==> ((t1 as u64) << 32) | (c1 & 0xFFFF_FFFF) != ((t2 as u64) << 32) | (c2
        & 0xFFFF_FFFF)) by (bit_vector);
    assert((c1 & 0xFFFF_FFFF) != (c2 & 0xFFFF_FFFF) ==> ((t1 as u64) << 32) | (c1
        & 0xFFFF_FFFF) != ((t2 as u64) << 32) | (c2 & 0xFFFF_FFFF)) by (bit_vector);
}

/// Counter values that lie within one wrap period of each other (fewer
/// than two to the 32 apart) have distinct low halves, so their
/// identifiers differ.
pub proof fn lemma_counters_in_window_distinct(c1: u64, c2: u64)
    requires
        c1 < c2,
        c2 - c1 < 0x1_0000_0000,
    ensures
        (c1 & 0xFFFF_FFFF) != (c2 & 0xFFFF_FFFF),
{
    assert(c1 < c2 && c2 - c1 < 0x1_0000_0000 ==> (c1 & 0xFFFF_FFFF) != (c2 & 0xFFFF_FFFF))
        by (bit_vector);
}

/// The base-36 character for a remainder below 36.
pub fn digit36(rem: u8) -> (r: u8)
    requires
        rem < 36,
    ensures
        r == base36_char(rem as nat),
{
    if rem < 10 {
        48 + rem
    } else {
        55 + rem
    }
}

/// Encode `n` as exactly thirteen base-36 characters at `offset`,
/// filled from the least significant digit backward.  Returns 13 on
/// success and 0 — writing nothing — when fewer than thirteen bytes
/// remain past `offset`.
pub fn encode_base36_fixed13(dst: &mut Vec<u8>, offset: usize, n: u64) -> (len: usize)
    ensures
        final(dst)@.len() == old(dst)@.len(),
        old(dst)@.len() < offset + 13 ==> len == 0 && final(dst)@ == old(dst)@,
        old(dst)@.len() >= offset + 13 ==> {
            &&& len == 13
            &&& final(dst)@.subrange(offset as int, offset + 13) == base36_fixed13(n as nat)
            &&& forall|j: int|
                0 <= j < old(dst)@.len() && !(offset <= j < offset + 13) ==> final(dst)@[j]
                    == old(dst)@[j]
        },
{
    // the buffer length is a machine word, so the index sums below cannot overflow
    let total = dst.len();
    if total < 13 || offset > total - 13 {
        return 0;
    }
    let ghost dst0 = dst@;
    let ghost n0 = n as nat;
    let mut w: u64 = n;
    let mut i: usize = 0;
    proof {
        assert(pow36(0) == 1);
        vstd::arithmetic::div_mod::lemma_div_basics(n0 as int);
    }
    while i < 13
        invariant
            i <= 13,
            total == dst0.len(),
            offset + 13 <= dst0.len(),
            dst@.len() == dst0.len(),
            n0 == n as nat,
            w as nat == n0 / pow36(i as nat),
            forall|k: int| 13 - i <= k < 13 ==> dst@[offset + k] == base36_fixed13(n0)[k],
            forall|j: int|
                0 <= j < dst0.len() && !(offset <= j < offset + 13) ==> dst@[j] == dst0[j],
        decreases 13 - i,
    {
        let q = w / 36;
        let rem = (w % 36) as u8;
        proof {
            lemma_pow36_quotient_step(n0, i as nat);
            assert(base36_fixed13(n0)[12 - i] == base36_char(
                (n0 / pow36(i as nat)) % 36,
            ));
        }
        dst[offset + 12 - i] = digit36(rem);
        w = q;
        i = i + 1;
    }
    proof {
        assert(dst@.subrange(offset as int, offset + 13) =~= base36_fixed13(n as nat));
    }
    13
}

/// Write a complete client-order-id field at `offset`: the tag prefix,
/// a fresh thirteen-character base-36 identifier from the generator,
/// and the delimiter.
#[allow(non_snake_case)]
pub fn write_tag_and_ClOrdID(
    bytes: &mut Vec<u8>,
    offset: usize,
    tag_and_eq: &[u8],
    ids: &mut IdGenerator,
) -> (len: usize)
    requires
        old(ids).wf(),
        offset + tag_and_eq@.len() + 14 <= old(bytes)@.len(),
    ensures
        len == tag_and_eq@.len() + 14,
        final(bytes)@.len() == old(bytes)@.len(),
        final(bytes)@.subrange(offset as int, offset + len) == tag_and_eq@ + base36_fixed13(
            id_of(old(ids).tag(), old(ids).counter()) as nat,
        ) + seq![1u8],
        forall|j: int|
            0 <= j < old(bytes)@.len() && !(offset <= j < offset + len) ==> final(bytes)@[j]
                == old(bytes)@[j],
        final(ids).wf(),
        final(ids).tag() == old(ids).tag(),
        final(ids).counter() == vstd::wrapping::u64_specs::wrapping_add(
            old(ids).counter(),
            1,
        ),
{
    // the buffer length is a machine word, so the index sums below cannot overflow
    let total = bytes.len();
    copy_bytes_at(bytes, offset, tag_and_eq);
    let mut pos = tag_and_eq.len();
    let id = ids.next_id_u64();
    let w = encode_base36_fixed13(bytes, offset + pos, id);
    pos = pos + w;
    bytes[offset + pos] = 1;
    proof {
        assert(bytes@.subrange(offset as int, offset + tag_and_eq@.len() + 14) =~= tag_and_eq@
            + base36_fixed13(id as nat) + seq![1u8]);
    }
    pos + 1
}

} // verus!
