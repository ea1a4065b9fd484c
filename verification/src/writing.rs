//! Writers that encode primitive values as ASCII decimal bytes in a
//! caller-owned buffer at a given offset.
//!
//! Integer writers fill the digits back to front, two per step, after
//! computing the exact digit count.  The caller supplies a buffer with
//! enough room past the offset; every writer states exactly which bytes
//! it touches and leaves the rest of the buffer unchanged.

use vstd::prelude::*;
use vstd::string::StringSliceAdditionalSpecFns;

use crate::digits::dec_digits;
use crate::digits::dec_len;
use crate::digits::lemma_dec_digits_shape;
use crate::digits::lemma_dec_digits_step;
use crate::digits::lemma_dec_len_at_least;
use crate::digits::lemma_dec_len_is;
use crate::digits::lemma_pow10_increases;
use crate::digits::lemma_pow10_quotient_step;
use crate::digits::lemma_pow10_values;
use crate::digits::lemma_pow10_values_high;
use crate::digits::lemma_two_digit_split;
use crate::digits::pow10;

verus! {

/// The decimal digit count of a `u16`.
pub fn digits_u16(n: u16) -> (r: usize)
    ensures
        r == dec_len(n as nat),
        1 <= r <= 5,
{
    proof {
        lemma_pow10_values();
    }
    if n >= 10000 {
        proof {
            lemma_dec_len_is(n as nat, 5);
        }
        5
    } else if n >= 1000 {
        proof {
            lemma_dec_len_is(n as nat, 4);
        }
        4
    } else if n >= 100 {
        proof {
            lemma_dec_len_is(n as nat, 3);
        }
        3
    } else if n >= 10 {
        proof {
            lemma_dec_len_is(n as nat, 2);
        }
        2
    } else {
        proof {
            lemma_dec_len_is(n as nat, 1);
        }
        1
    }
}

/// The decimal digit count of a `u32`.
pub fn digits_u32(n: u32) -> (r: usize)
    ensures
        r == dec_len(n as nat),
        1 <= r <= 10,
{
    proof {
        lemma_pow10_values();
    }
    if n >= 1_000_000_000 {
        proof {
            lemma_dec_len_is(n as nat, 10);
        }
        10
    } else if n >= 100_000_000 {
        proof {
            lemma_dec_len_is(n as nat, 9);
        }
        9
    } else if n >= 10_000_000 {
        proof {
            lemma_dec_len_is(n as nat, 8);
        }
        8
    } else if n >= 1_000_000 {
        proof {
            lemma_dec_len_is(n as nat, 7);
        }
        7
    } else if n >= 100_000 {
        proof {
            lemma_dec_len_is(n as nat, 6);
        }
        6
    } else if n >= 10_000 {
        proof {
            lemma_dec_len_is(n as nat, 5);
        }
        5
    } else if n >= 1_000 {
        proof {
            lemma_dec_len_is(n as nat, 4);
        }
        4
    } else if n >= 100 {
        proof {
            lemma_dec_len_is(n as nat, 3);
        }
        3
    } else if n >= 10 {
        proof {
            lemma_dec_len_is(n as nat, 2);
        }
        2
    } else {
        proof {
            lemma_dec_len_is(n as nat, 1);
        }
        1
    }
}

/// The decimal digit count of a `u64`.
pub fn digits_u64(n: u64) -> (r: usize)
    ensures
        r == dec_len(n as nat),
        1 <= r <= 20,
{
    proof {
        lemma_pow10_values();
    }
    if n >= 10000000000000000000 {
        proof {
            lemma_dec_len_is(n as nat, 20);
        }
        20
    } else if n >= 1000000000000000000 {
        proof {
            lemma_dec_len_is(n as nat, 19);
        }
        19
    } else if n >= 100000000000000000 {
        proof {
            lemma_dec_len_is(n as nat, 18);
        }
        18
    } else if n >= 10000000000000000 {
        proof {
            lemma_dec_len_is(n as nat, 17);
        }
        17
    } else if n >= 1000000000000000 {
        proof {
            lemma_dec_len_is(n as nat, 16);
        }
        16
    } else if n >= 100000000000000 {
        proof {
            lemma_dec_len_is(n as nat, 15);
        }
        15
    } else if n >= 10000000000000 {
        proof {
            lemma_dec_len_is(n as nat, 14);
        }
        14
    } else if n >= 1000000000000 {
        proof {
            lemma_dec_len_is(n as nat, 13);
        }
        13
    } else if n >= 100000000000 {
        proof {
            lemma_dec_len_is(n as nat, 12);
        }
        12
    } else if n >= 10000000000 {
        proof {
            lemma_dec_len_is(n as nat, 11);
        }
        11
    } else if n >= 1000000000 {
        proof {
            lemma_dec_len_is(n as nat, 10);
        }
        10
    } else if n >= 100000000 {
        proof {
            lemma_dec_len_is(n as nat, 9);
        }
        9
    } else if n >= 10000000 {
        proof {
            lemma_dec_len_is(n as nat, 8);
        }
        8
    } else if n >= 1000000 {
        proof {
            lemma_dec_len_is(n as nat, 7);
        }
        7
    } else if n >= 100000 {
        proof {
            lemma_dec_len_is(n as nat, 6);
        }
        6
    } else if n >= 10000 {
        proof {
            lemma_dec_len_is(n as nat, 5);
        }
        5
    } else if n >= 1000 {
        proof {
            lemma_dec_len_is(n as nat, 4);
        }
        4
    } else if n >= 100 {
        proof {
            lemma_dec_len_is(n as nat, 3);
        }
        3
    } else if n >= 10 {
        proof {
            lemma_dec_len_is(n as nat, 2);
        }
        2
    } else {
        proof {
            lemma_dec_len_is(n as nat, 1);
        }
        1
    }
}

/// The decimal digit count of a `u128`.
pub fn digits_u128(n: u128) -> (r: usize)
    ensures
        r == dec_len(n as nat),
        1 <= r <= 39,
{
    proof {
        lemma_pow10_values();
        lemma_pow10_values_high();
    }
    if n >= 100000000000000000000000000000000000000 {
        proof {
            lemma_dec_len_is(n as nat, 39);
        }
        39
    } else if n >= 10000000000000000000000000000000000000 {
        proof {
            lemma_dec_len_is(n as nat, 38);
        }
        38
    } else if n >= 1000000000000000000000000000000000000 {
        proof {
            lemma_dec_len_is(n as nat, 37);
        }
        37
    } else if n >= 100000000000000000000000000000000000 {
        proof {
            lemma_dec_len_is(n as nat, 36);
        }
        36
    } else if n >= 10000000000000000000000000000000000 {
        proof {
            lemma_dec_len_is(n as nat, 35);
        }
        35
    } else if n >= 1000000000000000000000000000000000 {
        proof {
            lemma_dec_len_is(n as nat, 34);
        }
        34
    } else if n >= 100000000000000000000000000000000 {
        proof {
            lemma_dec_len_is(n as nat, 33);
        }
        33
    } else if n >= 10000000000000000000000000000000 {
        proof {
            lemma_dec_len_is(n as nat, 32);
        }
        32
    } else if n >= 1000000000000000000000000000000 {
        proof {
            lemma_dec_len_is(n as nat, 31);
        }
        31
    } else if n >= 100000000000000000000000000000 {
        proof {
            lemma_dec_len_is(n as nat, 30);
        }
        30
    } else if n >= 10000000000000000000000000000 {
        proof {
            lemma_dec_len_is(n as nat, 29);
        }
        29
    } else if n >= 1000000000000000000000000000 {
        proof {
            lemma_dec_len_is(n as nat, 28);
        }
        28
    } else if n >= 100000000000000000000000000 {
        proof {
            lemma_dec_len_is(n as nat, 27);
        }
        27
    } else if n >= 10000000000000000000000000 {
        proof {
            lemma_dec_len_is(n as nat, 26);
        }
        26
    } else if n >= 1000000000000000000000000 {
        proof {
            lemma_dec_len_is(n as nat, 25);
        }
        25
    } else if n >= 100000000000000000000000 {
        proof {
            lemma_dec_len_is(n as nat, 24);
        }
        24
    } else if n >= 10000000000000000000000 {
        proof {
            lemma_dec_len_is(n as nat, 23);
        }
        23
    } else if n >= 1000000000000000000000 {
        proof {
            lemma_dec_len_is(n as nat, 22);
        }
        22
    } else if n >= 100000000000000000000 {
        proof {
            lemma_dec_len_is(n as nat, 21);
        }
        21
    } else if n >= 10000000000000000000 {
        proof {
            lemma_dec_len_is(n as nat, 20);
        }
        20
    } else if n >= 1000000000000000000 {
        proof {
            lemma_dec_len_is(n as nat, 19);
        }
        19
    } else if n >= 100000000000000000 {
        proof {
            lemma_dec_len_is(n as nat, 18);
        }
        18
    } else if n >= 10000000000000000 {
        proof {
            lemma_dec_len_is(n as nat, 17);
        }
        17
    } else if n >= 1000000000000000 {
        proof {
            lemma_dec_len_is(n as nat, 16);
        }
        16
    } else if n >= 100000000000000 {
        proof {
            lemma_dec_len_is(n as nat, 15);
        }
        15
    } else if n >= 10000000000000 {
        proof {
            lemma_dec_len_is(n as nat, 14);
        }
        14
    } else if n >= 1000000000000 {
        proof {
            lemma_dec_len_is(n as nat, 13);
        }
        13
    } else if n >= 100000000000 {
        proof {
            lemma_dec_len_is(n as nat, 12);
        }
        12
    } else if n >= 10000000000 {
        proof {
            lemma_dec_len_is(n as nat, 11);
        }
        11
    } else if n >= 1000000000 {
        proof {
            lemma_dec_len_is(n as nat, 10);
        }
        10
    } else if n >= 100000000 {
        proof {
            lemma_dec_len_is(n as nat, 9);
        }
        9
    } else if n >= 10000000 {
        proof {
            lemma_dec_len_is(n as nat, 8);
        }
        8
    } else if n >= 1000000 {
        proof {
            lemma_dec_len_is(n as nat, 7);
        }
        7
    } else if n >= 100000 {
        proof {
            lemma_dec_len_is(n as nat, 6);
        }
        6
    } else if n >= 10000 {
        proof {
            lemma_dec_len_is(n as nat, 5);
        }
        5
    } else if n >= 1000 {
        proof {
            lemma_dec_len_is(n as nat, 4);
        }
        4
    } else if n >= 100 {
        proof {
            lemma_dec_len_is(n as nat, 3);
        }
        3
    } else if n >= 10 {
        proof {
            lemma_dec_len_is(n as nat, 2);
        }
        2
    } else {
        proof {
            lemma_dec_len_is(n as nat, 1);
        }
        1
    }
}

/// Write the decimal digits of a `u64` at `pos`, returning the digit
/// count.  Exactly the bytes `pos .. pos + dec_len(n)` change, to the
/// canonical rendering of `n`.
pub fn write_u64(buf: &mut Vec<u8>, pos: usize, n: u64) -> (len: usize)
    requires
        pos + 20 <= old(buf)@.len(),
    ensures
        len == dec_len(n as nat),
        1 <= len <= 20,
        final(buf)@.len() == old(buf)@.len(),
        final(buf)@.subrange(pos as int, pos + len) == dec_digits(n as nat),
        forall|j: int|
            0 <= j < old(buf)@.len() && !(pos <= j < pos + len) ==> final(buf)@[j] == old(
                buf,
            )@[j],
{
    let ghost buf0 = buf@;
    let ghost digs = dec_digits(n as nat);
    let len = digits_u64(n);
    proof {
        lemma_dec_digits_shape(n as nat);
        assert(digs.take(len as int) =~= digs);
    }
    // the buffer length is a machine word, so the index sums below cannot overflow
    let total = buf.len();
    let mut i: usize = pos + len;
    let mut m: u64 = n;
    while m >= 100
        invariant
            digs == dec_digits(n as nat),
            digs.len() == len,
            pos + len <= buf0.len(),
            buf@.len() == buf0.len(),
            len == dec_len(n as nat),
            pos <= i <= pos + len,
            i - pos == dec_len(m as nat),
            dec_digits(m as nat) == digs.take(i - pos),
            forall|k: int| i - pos <= k < len ==> buf@[pos + k] == digs[k],
            forall|j: int|
                0 <= j < buf0.len() && !(pos <= j < pos + len) ==> buf@[j] == buf0[j],
        decreases m,
    {
        proof {
            lemma_pow10_values();
            lemma_dec_len_at_least(m as nat, 3);
            lemma_two_digit_split(m as nat);
            lemma_dec_digits_step(m as nat);
            lemma_dec_digits_step((m / 10) as nat);
            assert(dec_digits((m / 10) as nat) == digs.take(i - pos).drop_last());
            assert(digs.take(i - pos).drop_last() =~= digs.take(i - pos - 1));
            assert(dec_digits((m / 100) as nat) =~= digs.take(i - pos - 2));
            assert(dec_digits(m as nat).last() == (48 + m as nat % 10) as u8);
            assert(digs.take(i - pos).last() == digs[i - pos - 1]);
            assert(digs[i - pos - 1] == (48 + m as nat % 10) as u8);
            assert(dec_digits((m / 10) as nat).last() == (48 + (m / 10) as nat % 10) as u8);
            assert(digs.take(i - pos - 1).last() == digs[i - pos - 2]);
            assert(digs[i - pos - 2] == (48 + (m / 10) as nat % 10) as u8);
        }
        let rem = (m % 100) as u8;
        m = m / 100;
        i = i - 2;
        buf[i] = 48 + rem / 10;
        buf[i + 1] = 48 + rem % 10;
    }
    if m < 10 {
        proof {
            assert(dec_digits(m as nat) == seq![(48 + m as nat) as u8]);
            assert(i - pos == 1);
            assert(digs.take(1).last() == digs[0]);
            assert(digs[0] == (48 + m as nat) as u8);
        }
        buf[pos] = 48 + m as u8;
    } else {
        proof {
            lemma_dec_digits_step(m as nat);
            assert(i - pos == 2);
            assert(dec_digits((m / 10) as nat) == digs.take(2).drop_last());
            assert(digs.take(2).drop_last() =~= digs.take(1));
            assert(digs.take(2).last() == digs[1]);
            assert(digs[1] == (48 + m as nat % 10) as u8);
            assert(dec_digits((m / 10) as nat) == seq![(48 + (m / 10) as nat) as u8]);
            assert(digs.take(1).last() == digs[0]);
            assert(digs[0] == (48 + (m / 10) as nat) as u8);
        }
        buf[pos] = 48 + (m / 10) as u8;
        buf[pos + 1] = 48 + (m % 10) as u8;
    }
    proof {
        assert(buf@.subrange(pos as int, pos + len) =~= digs);
    }
    len
}

/// Write the decimal digits of a `u16` at `pos`, returning the digit
/// count.  Exactly the bytes `pos .. pos + dec_len(n)` change, to the
/// canonical rendering of `n`.
pub fn write_u16(buf: &mut Vec<u8>, pos: usize, n: u16) -> (len: usize)
    requires
        pos + 5 <= old(buf)@.len(),
    ensures
        len == dec_len(n as nat),
        1 <= len <= 5,
        final(buf)@.len() == old(buf)@.len(),
        final(buf)@.subrange(pos as int, pos + len) == dec_digits(n as nat),
        forall|j: int|
            0 <= j < old(buf)@.len() && !(pos <= j < pos + len) ==> final(buf)@[j] == old(
                buf,
            )@[j],
{
    let ghost buf0 = buf@;
    let ghost digs = dec_digits(n as nat);
    let len = digits_u16(n);
    proof {
        lemma_dec_digits_shape(n as nat);
        assert(digs.take(len as int) =~= digs);
    }
    // the buffer length is a machine word, so the index sums below cannot overflow
    let total = buf.len();
    let mut i: usize = pos + len;
    let mut m: u16 = n;
    while m >= 100
        invariant
            digs == dec_digits(n as nat),
            digs.len() == len,
            pos + len <= buf0.len(),
            buf@.len() == buf0.len(),
            len == dec_len(n as nat),
            pos <= i <= pos + len,
            i - pos == dec_len(m as nat),
            dec_digits(m as nat) == digs.take(i - pos),
            forall|k: int| i - pos <= k < len ==> buf@[pos + k] == digs[k],
            forall|j: int|
                0 <= j < buf0.len() && !(pos <= j < pos + len) ==> buf@[j] == buf0[j],
        decreases m,
    {
        proof {
            lemma_pow10_values();
            lemma_dec_len_at_least(m as nat, 3);
            lemma_two_digit_split(m as nat);
            lemma_dec_digits_step(m as nat);
            lemma_dec_digits_step((m / 10) as nat);
            assert(dec_digits((m / 10) as nat) == digs.take(i - pos).drop_last());
            assert(digs.take(i - pos).drop_last() =~= digs.take(i - pos - 1));
            assert(dec_digits((m / 100) as nat) =~= digs.take(i - pos - 2));
            assert(dec_digits(m as nat).last() == (48 + m as nat % 10) as u8);
            assert(digs.take(i - pos).last() == digs[i - pos - 1]);
            assert(digs[i - pos - 1] == (48 + m as nat % 10) as u8);
            assert(dec_digits((m / 10) as nat).last() == (48 + (m / 10) as nat % 10) as u8);
            assert(digs.take(i - pos - 1).last() == digs[i - pos - 2]);
            assert(digs[i - pos - 2] == (48 + (m / 10) as nat % 10) as u8);
        }
        let rem = (m % 100) as u8;
        m = m / 100;
        i = i - 2;
        buf[i] = 48 + rem / 10;
        buf[i + 1] = 48 + rem % 10;
    }
    if m < 10 {
        proof {
            assert(dec_digits(m as nat) == seq![(48 + m as nat) as u8]);
            assert(i - pos == 1);
            assert(digs.take(1).last() == digs[0]);
            assert(digs[0] == (48 + m as nat) as u8);
        }
        buf[pos] = 48 + m as u8;
    } else {
        proof {
            lemma_dec_digits_step(m as nat);
            assert(i - pos == 2);
            assert(dec_digits((m / 10) as nat) == digs.take(2).drop_last());
            assert(digs.take(2).drop_last() =~= digs.take(1));
            assert(digs.take(2).last() == digs[1]);
            assert(digs[1] == (48 + m as nat % 10) as u8);
            assert(dec_digits((m / 10) as nat) == seq![(48 + (m / 10) as nat) as u8]);
            assert(digs.take(1).last() == digs[0]);
            assert(digs[0] == (48 + (m / 10) as nat) as u8);
        }
        buf[pos] = 48 + (m / 10) as u8;
        buf[pos + 1] = 48 + (m % 10) as u8;
    }
    proof {
        assert(buf@.subrange(pos as int, pos + len) =~= digs);
    }
    len
}

/// Write the decimal digits of a `u32` at `pos`, returning the digit
/// count.  Exactly the bytes `pos .. pos + dec_len(n)` change, to the
/// canonical rendering of `n`.
pub fn write_u32(buf: &mut Vec<u8>, pos: usize, n: u32) -> (len: usize)
    requires
        pos + 10 <= old(buf)@.len(),
    ensures
        len == dec_len(n as nat),
        1 <= len <= 10,
        final(buf)@.len() == old(buf)@.len(),
        final(buf)@.subrange(pos as int, pos + len) == dec_digits(n as nat),
        forall|j: int|
            0 <= j < old(buf)@.len() && !(pos <= j < pos + len) ==> final(buf)@[j] == old(
                buf,
            )@[j],
{
    let ghost buf0 = buf@;
    let ghost digs = dec_digits(n as nat);
    let len = digits_u32(n);
    proof {
        lemma_dec_digits_shape(n as nat);
        assert(digs.take(len as int) =~= digs);
    }
    // the buffer length is a machine word, so the index sums below cannot overflow
    let total = buf.len();
    let mut i: usize = pos + len;
    let mut m: u32 = n;
    while m >= 100
        invariant
            digs == dec_digits(n as nat),
            digs.len() == len,
            pos + len <= buf0.len(),
            buf@.len() == buf0.len(),
            len == dec_len(n as nat),
            pos <= i <= pos + len,
            i - pos == dec_len(m as nat),
            dec_digits(m as nat) == digs.take(i - pos),
            forall|k: int| i - pos <= k < len ==> buf@[pos + k] == digs[k],
            forall|j: int|
                0 <= j < buf0.len() && !(pos <= j < pos + len) ==> buf@[j] == buf0[j],
        decreases m,
    {
        proof {
            lemma_pow10_values();
            lemma_dec_len_at_least(m as nat, 3);
            lemma_two_digit_split(m as nat);
            lemma_dec_digits_step(m as nat);
            lemma_dec_digits_step((m / 10) as nat);
            assert(dec_digits((m / 10) as nat) == digs.take(i - pos).drop_last());
            assert(digs.take(i - pos).drop_last() =~= digs.take(i - pos - 1));
            assert(dec_digits((m / 100) as nat) =~= digs.take(i - pos - 2));
            assert(dec_digits(m as nat).last() == (48 + m as nat % 10) as u8);
            assert(digs.take(i - pos).last() == digs[i - pos - 1]);
            assert(digs[i - pos - 1] == (48 + m as nat % 10) as u8);
            assert(dec_digits((m / 10) as nat).last() == (48 + (m / 10) as nat % 10) as u8);
            assert(digs.take(i - pos - 1).last() == digs[i - pos - 2]);
            assert(digs[i - pos - 2] == (48 + (m / 10) as nat % 10) as u8);
        }
        let rem = (m % 100) as u8;
        m = m / 100;
        i = i - 2;
        buf[i] = 48 + rem / 10;
        buf[i + 1] = 48 + rem % 10;
    }
    if m < 10 {
        proof {
            assert(dec_digits(m as nat) == seq![(48 + m as nat) as u8]);
            assert(i - pos == 1);
            assert(digs.take(1).last() == digs[0]);
            assert(digs[0] == (48 + m as nat) as u8);
        }
        buf[pos] = 48 + m as u8;
    } else {
        proof {
            lemma_dec_digits_step(m as nat);
            assert(i - pos == 2);
            assert(dec_digits((m / 10) as nat) == digs.take(2).drop_last());
            assert(digs.take(2).drop_last() =~= digs.take(1));
            assert(digs.take(2).last() == digs[1]);
            assert(digs[1] == (48 + m as nat % 10) as u8);
            assert(dec_digits((m / 10) as nat) == seq![(48 + (m / 10) as nat) as u8]);
            assert(digs.take(1).last() == digs[0]);
            assert(digs[0] == (48 + (m / 10) as nat) as u8);
        }
        buf[pos] = 48 + (m / 10) as u8;
        buf[pos + 1] = 48 + (m % 10) as u8;
    }
    proof {
        assert(buf@.subrange(pos as int, pos + len) =~= digs);
    }
    len
}

/// Write the decimal digits of a `u128` at `pos`, returning the digit
/// count.  Exactly the bytes `pos .. pos + dec_len(n)` change, to the
/// canonical rendering of `n`.
pub fn write_u128(buf: &mut Vec<u8>, pos: usize, n: u128) -> (len: usize)
    requires
        pos + 39 <= old(buf)@.len(),
    ensures
        len == dec_len(n as nat),
        1 <= len <= 39,
        final(buf)@.len() == old(buf)@.len(),
        final(buf)@.subrange(pos as int, pos + len) == dec_digits(n as nat),
        forall|j: int|
            0 <= j < old(buf)@.len() && !(pos <= j < pos + len) ==> final(buf)@[j] == old(
                buf,
            )@[j],
{
    let ghost buf0 = buf@;
    let ghost digs = dec_digits(n as nat);
    let len = digits_u128(n);
    proof {
        lemma_dec_digits_shape(n as nat);
        assert(digs.take(len as int) =~= digs);
    }
    // the buffer length is a machine word, so the index sums below cannot overflow
    let total = buf.len();
    let mut i: usize = pos + len;
    let mut m: u128 = n;
    while m >= 100
        invariant
            digs == dec_digits(n as nat),
            digs.len() == len,
            pos + len <= buf0.len(),
            buf@.len() == buf0.len(),
            len == dec_len(n as nat),
            pos <= i <= pos + len,
            i - pos == dec_len(m as nat),
            dec_digits(m as nat) == digs.take(i - pos),
            forall|k: int| i - pos <= k < len ==> buf@[pos + k] == digs[k],
            forall|j: int|
                0 <= j < buf0.len() && !(pos <= j < pos + len) ==> buf@[j] == buf0[j],
        decreases m,
    {
        proof {
            lemma_pow10_values();
            lemma_dec_len_at_least(m as nat, 3);
            lemma_two_digit_split(m as nat);
            lemma_dec_digits_step(m as nat);
            lemma_dec_digits_step((m / 10) as nat);
            assert(dec_digits((m / 10) as nat) == digs.take(i - pos).drop_last());
            assert(digs.take(i - pos).drop_last() =~= digs.take(i - pos - 1));
            assert(dec_digits((m / 100) as nat) =~= digs.take(i - pos - 2));
            assert(dec_digits(m as nat).last() == (48 + m as nat % 10) as u8);
            assert(digs.take(i - pos).last() == digs[i - pos - 1]);
            assert(digs[i - pos - 1] == (48 + m as nat % 10) as u8);
            assert(dec_digits((m / 10) as nat).last() == (48 + (m / 10) as nat % 10) as u8);
            assert(digs.take(i - pos - 1).last() == digs[i - pos - 2]);
            assert(digs[i - pos - 2] == (48 + (m / 10) as nat % 10) as u8);
        }
        let rem = (m % 100) as u8;
        m = m / 100;
        i = i - 2;
        buf[i] = 48 + rem / 10;
        buf[i + 1] = 48 + rem % 10;
    }
    if m < 10 {
        proof {
            assert(dec_digits(m as nat) == seq![(48 + m as nat) as u8]);
            assert(i - pos == 1);
            assert(digs.take(1).last() == digs[0]);
            assert(digs[0] == (48 + m as nat) as u8);
        }
        buf[pos] = 48 + m as u8;
    } else {
        proof {
            lemma_dec_digits_step(m as nat);
            assert(i - pos == 2);
            assert(dec_digits((m / 10) as nat) == digs.take(2).drop_last());
            assert(digs.take(2).drop_last() =~= digs.take(1));
            assert(digs.take(2).last() == digs[1]);
            assert(digs[1] == (48 + m as nat % 10) as u8);
            assert(dec_digits((m / 10) as nat) == seq![(48 + (m / 10) as nat) as u8]);
            assert(digs.take(1).last() == digs[0]);
            assert(digs[0] == (48 + (m / 10) as nat) as u8);
        }
        buf[pos] = 48 + (m / 10) as u8;
        buf[pos + 1] = 48 + (m % 10) as u8;
    }
    proof {
        assert(buf@.subrange(pos as int, pos + len) =~= digs);
    }
    len
}

/// The decimal rendering of a signed value: a minus sign followed by the
/// digits of the magnitude, or just the digits when non-negative.
pub open spec fn signed_digits(n: int) -> Seq<u8> {
    if n >= 0 {
        dec_digits(n as nat)
    } else {
        seq![45u8] + dec_digits((-n) as nat)
    }
}

/// The fixed-width, zero-padded low `w` decimal digits of `v`.
pub open spec fn padded_digits(v: nat, w: nat) -> Seq<u8> {
    Seq::new(w, |j: int| (48 + (v / pow10((w - 1 - j) as nat)) % 10) as u8)
}

/// `s` with its trailing `'0'` bytes removed.
pub open spec fn trim_zeros(s: Seq<u8>) -> Seq<u8>
    decreases s.len(),
{
    if s.len() == 0 || s.last() != 48 {
        s
    } else {
        trim_zeros(s.drop_last())
    }
}

/// Write an `i16` at `offset`: the sign, then the magnitude (the minimum
/// value's magnitude is written exactly).
pub fn write_i16(buf: &mut Vec<u8>, offset: usize, n: i16) -> (len: usize)
    requires
        offset + 6 <= old(buf)@.len(),
    ensures
        len == signed_digits(n as int).len(),
        1 <= len <= 6,
        final(buf)@.len() == old(buf)@.len(),
        final(buf)@.subrange(offset as int, offset + len) == signed_digits(n as int),
        forall|j: int|
            0 <= j < old(buf)@.len() && !(offset <= j < offset + len) ==> final(buf)@[j]
                == old(buf)@[j],
{
    // the buffer length is a machine word, so the index sums below cannot overflow
    let total = buf.len();
    if n >= 0 {
        write_u16(buf, offset, n as u16)
    } else {
        buf[offset] = 45;
        let mag: u16 = if n == i16::MIN {
            0x8000u16
        } else {
            (-n) as u16
        };
        let w = write_u16(buf, offset + 1, mag);
        proof {
            assert(buf@.subrange(offset as int, offset + 1 + w) =~= seq![45u8] + dec_digits(
                mag as nat,
            ));
        }
        1 + w
    }
}

/// Write an `i32` at `offset`: the sign, then the magnitude (the minimum
/// value's magnitude is written exactly).
pub fn write_i32(buf: &mut Vec<u8>, offset: usize, n: i32) -> (len: usize)
    requires
        offset + 11 <= old(buf)@.len(),
    ensures
        len == signed_digits(n as int).len(),
        1 <= len <= 11,
        final(buf)@.len() == old(buf)@.len(),
        final(buf)@.subrange(offset as int, offset + len) == signed_digits(n as int),
        forall|j: int|
            0 <= j < old(buf)@.len() && !(offset <= j < offset + len) ==> final(buf)@[j]
                == old(buf)@[j],
{
    // the buffer length is a machine word, so the index sums below cannot overflow
    let total = buf.len();
    if n >= 0 {
        write_u32(buf, offset, n as u32)
    } else {
        buf[offset] = 45;
        let mag: u32 = if n == i32::MIN {
            0x8000_0000u32
        } else {
            (-n) as u32
        };
        let w = write_u32(buf, offset + 1, mag);
        proof {
            assert(buf@.subrange(offset as int, offset + 1 + w) =~= seq![45u8] + dec_digits(
                mag as nat,
            ));
        }
        1 + w
    }
}

/// Write an `i64` at `offset`: the sign, then the magnitude (the minimum
/// value's magnitude is written exactly).
pub fn write_i64(buf: &mut Vec<u8>, offset: usize, n: i64) -> (len: usize)
    requires
        offset + 21 <= old(buf)@.len(),
    ensures
        len == signed_digits(n as int).len(),
        1 <= len <= 21,
        final(buf)@.len() == old(buf)@.len(),
        final(buf)@.subrange(offset as int, offset + len) == signed_digits(n as int),
        forall|j: int|
            0 <= j < old(buf)@.len() && !(offset <= j < offset + len) ==> final(buf)@[j]
                == old(buf)@[j],
{
    // the buffer length is a machine word, so the index sums below cannot overflow
    let total = buf.len();
    if n >= 0 {
        write_u64(buf, offset, n as u64)
    } else {
        buf[offset] = 45;
        let mag: u64 = if n == i64::MIN {
            0x8000_0000_0000_0000u64
        } else {
            (-n) as u64
        };
        let w = write_u64(buf, offset + 1, mag);
        proof {
            assert(buf@.subrange(offset as int, offset + 1 + w) =~= seq![45u8] + dec_digits(
                mag as nat,
            ));
        }
        1 + w
    }
}

/// Write exactly six zero-padded fractional digits of `v` at `pos`.
pub fn write_frac6_from_u32(v: u32, buf: &mut Vec<u8>, pos: usize) -> (len: usize)
    requires
        pos + 6 <= old(buf)@.len(),
    ensures
        len == 6,
        final(buf)@.len() == old(buf)@.len(),
        final(buf)@.subrange(pos as int, pos + 6) == padded_digits(v as nat, 6),
        forall|j: int|
            0 <= j < old(buf)@.len() && !(pos <= j < pos + 6) ==> final(buf)@[j] == old(
                buf,
            )@[j],
{
    // the buffer length is a machine word, so the index sums below cannot overflow
    let total = buf.len();
    let ghost buf0 = buf@;
    let ghost v0 = v as nat;
    let mut w: u32 = v;
    let mut j: usize = 0;
    proof {
        assert(pow10(0) == 1);
        vstd::arithmetic::div_mod::lemma_div_basics(v0 as int);
    }
    while j < 6
        invariant
            j <= 6,
            total == buf0.len(),
            pos + 6 <= buf0.len(),
            buf@.len() == buf0.len(),
            w as nat == v0 / pow10(j as nat),
            forall|k: int| 6 - j <= k < 6 ==> buf@[pos + k] == padded_digits(v0, 6)[k],
            forall|i: int| 0 <= i < buf0.len() && !(pos <= i < pos + 6) ==> buf@[i] == buf0[i],
        decreases 6 - j,
    {
        proof {
            assert(pow10(0) == 1);
            lemma_pow10_quotient_step(v0, j as nat);
            assert(padded_digits(v0, 6)[5 - j] == (48 + (v0 / pow10(j as nat)) % 10) as u8);
        }
        buf[pos + 5 - j] = 48 + (w % 10) as u8;
        w = w / 10;
        j = j + 1;
    }
    proof {
        assert(buf@.subrange(pos as int, pos + 6) =~= padded_digits(v as nat, 6));
    }
    6
}

/// Write exactly fifteen zero-padded fractional digits of `v` at `pos`.
pub fn write_frac15_from_u128(v: u128, buf: &mut Vec<u8>, pos: usize) -> (len: usize)
    requires
        pos + 15 <= old(buf)@.len(),
    ensures
        len == 15,
        final(buf)@.len() == old(buf)@.len(),
        final(buf)@.subrange(pos as int, pos + 15) == padded_digits(v as nat, 15),
        forall|j: int|
            0 <= j < old(buf)@.len() && !(pos <= j < pos + 15) ==> final(buf)@[j] == old(
                buf,
            )@[j],
{
    // the buffer length is a machine word, so the index sums below cannot overflow
    let total = buf.len();
    let ghost buf0 = buf@;
    let ghost v0 = v as nat;
    let mut w: u128 = v;
    let mut j: usize = 0;
    proof {
        assert(pow10(0) == 1);
        vstd::arithmetic::div_mod::lemma_div_basics(v0 as int);
    }
    while j < 15
        invariant
            j <= 15,
            total == buf0.len(),
            pos + 15 <= buf0.len(),
            buf@.len() == buf0.len(),
            w as nat == v0 / pow10(j as nat),
            forall|k: int| 15 - j <= k < 15 ==> buf@[pos + k] == padded_digits(v0, 15)[k],
            forall|i: int| 0 <= i < buf0.len() && !(pos <= i < pos + 15) ==> buf@[i] == buf0[i],
        decreases 15 - j,
    {
        proof {
            assert(pow10(0) == 1);
            lemma_pow10_quotient_step(v0, j as nat);
            assert(padded_digits(v0, 15)[14 - j] == (48 + (v0 / pow10(j as nat)) % 10) as u8);
        }
        buf[pos + 14 - j] = 48 + (w % 10) as u8;
        w = w / 10;
        j = j + 1;
    }
    proof {
        assert(buf@.subrange(pos as int, pos + 15) =~= padded_digits(v as nat, 15));
    }
    15
}

/// The rendering of a sign-and-scaled decimal with six fractional
/// digits: the optional minus sign, the integer part `scaled / 10^6`,
/// and, when the fractional part `scaled % 10^6` is not zero, a dot and
/// the six zero-padded fractional digits with trailing zeros removed.
pub open spec fn scaled6_digits(negative: bool, scaled: nat) -> Seq<u8> {
    let sign: Seq<u8> = if negative {
        seq![45u8]
    } else {
        Seq::empty()
    };
    let ip = dec_digits(scaled / 1000000);
    let frac = scaled % 1000000;
    if frac == 0 {
        sign + ip
    } else {
        sign + ip + seq![46u8] + trim_zeros(padded_digits(frac, 6))
    }
}

/// The same rendering scaled by `10^15`, with fifteen fractional digits.
pub open spec fn scaled15_digits(negative: bool, scaled: nat) -> Seq<u8> {
    let sign: Seq<u8> = if negative {
        seq![45u8]
    } else {
        Seq::empty()
    };
    let ip = dec_digits(scaled / 1000000000000000);
    let frac = scaled % 1000000000000000;
    if frac == 0 {
        sign + ip
    } else {
        sign + ip + seq![46u8] + trim_zeros(padded_digits(frac, 15))
    }
}

/// Write a sign and a decimal scaled by `10^6` at `offset`: the digit
/// layer beneath the 32-bit float writer.  Only bytes in
/// `offset .. offset + 28` are touched; the first `len` of them hold the
/// rendering.
pub fn write_scaled6(buf: &mut Vec<u8>, offset: usize, negative: bool, scaled: u64) -> (len:
    usize)
    requires
        offset + 28 <= old(buf)@.len(),
    ensures
        len == scaled6_digits(negative, scaled as nat).len(),
        1 <= len <= 28,
        final(buf)@.len() == old(buf)@.len(),
        final(buf)@.subrange(offset as int, offset + len) == scaled6_digits(
            negative,
            scaled as nat,
        ),
        forall|j: int|
            0 <= j < old(buf)@.len() && !(offset <= j < offset + 28) ==> final(buf)@[j]
                == old(buf)@[j],
{
    // the buffer length is a machine word, so the index sums below cannot overflow
    let total = buf.len();
    let ghost buf0 = buf@;
    let ghost sign: Seq<u8> = if negative { seq![45u8] } else { Seq::<u8>::empty() };
    let mut pos = offset;
    if negative {
        buf[pos] = 45;
        pos = pos + 1;
    }
    let int_part = scaled / 1_000_000;
    let frac = (scaled % 1_000_000) as u32;
    let ghost ip = dec_digits(int_part as nat);
    let iw = write_u64(buf, pos, int_part);
    pos = pos + iw;
    if frac != 0 {
        let ghost f6 = padded_digits(frac as nat, 6);
        buf[pos] = 46;
        pos = pos + 1;
        let start = pos;
        let fw = write_frac6_from_u32(frac, buf, start);
        pos = pos + fw;
        let ghost buf1 = buf@;
        proof {
            assert(f6.take(6) =~= f6);
        }
        while pos > start && buf[pos - 1] == 48
            invariant
                start <= pos <= start + 6,
                buf@ == buf1,
                start + 6 <= buf@.len(),
                f6 == padded_digits(frac as nat, 6),
                buf@.subrange(start as int, start + 6) == f6,
                trim_zeros(f6.take(pos - start)) == trim_zeros(f6),
            decreases pos,
        {
            proof {
                assert(buf@[pos - 1] == f6[pos - 1 - start]);
                assert(f6.take(pos - start).last() == f6[pos - 1 - start]);
                assert(f6.take(pos - start).drop_last() =~= f6.take(pos - start - 1));
            }
            pos = pos - 1;
        }
        proof {
            if pos > start {
                assert(f6.take(pos - start).last() == f6[pos - 1 - start]);
                assert(f6.take(pos - start).last() != 48);
                assert(trim_zeros(f6.take(pos - start)) == f6.take(pos - start));
            } else {
                assert(f6.take(0) =~= Seq::<u8>::empty());
                assert(trim_zeros(f6) =~= Seq::<u8>::empty());
            }
            assert(buf@.subrange(offset as int, pos as int) =~= sign + ip + seq![46u8]
                + trim_zeros(f6));
        }
        pos - offset
    } else {
        proof {
            assert(buf@.subrange(offset as int, pos as int) =~= sign + ip);
        }
        pos - offset
    }
}

/// Write a sign and a decimal scaled by `10^15` at `offset`: the digit
/// layer beneath the 64-bit float writer.  The integer part is carried in
/// 128 bits and written through the narrower writer when it fits.  Only
/// bytes in `offset .. offset + 41` are touched; the first `len` of them
/// hold the rendering.
#[verifier::rlimit(60)]
pub fn write_scaled15(buf: &mut Vec<u8>, offset: usize, negative: bool, scaled: u128) -> (len:
    usize)
    requires
        offset + 41 <= old(buf)@.len(),
    ensures
        len == scaled15_digits(negative, scaled as nat).len(),
        1 <= len <= 41,
        final(buf)@.len() == old(buf)@.len(),
        final(buf)@.subrange(offset as int, offset + len) == scaled15_digits(
            negative,
            scaled as nat,
        ),
        forall|j: int|
            0 <= j < old(buf)@.len() && !(offset <= j < offset + 41) ==> final(buf)@[j]
                == old(buf)@[j],
{
    // the buffer length is a machine word, so the index sums below cannot overflow
    let total = buf.len();
    let ghost buf0 = buf@;
    let ghost sign: Seq<u8> = if negative { seq![45u8] } else { Seq::<u8>::empty() };
    let mut pos = offset;
    if negative {
        buf[pos] = 45;
        pos = pos + 1;
    }
    let int_part = scaled / 1_000_000_000_000_000;
    let frac = scaled % 1_000_000_000_000_000;
    let ghost ip = dec_digits(int_part as nat);
    proof {
        lemma_pow10_values();
        lemma_pow10_values_high();
        vstd::arithmetic::div_mod::lemma_div_is_ordered(
            scaled as int,
            0xFFFF_FFFF_FFFF_FFFF_FFFF_FFFF_FFFF_FFFF as int,
            1_000_000_000_000_000,
        );
        assert(int_part < pow10(24));
        lemma_dec_digits_shape(int_part as nat);
        if dec_len(int_part as nat) > 24 {
            lemma_pow10_increases(24, (dec_len(int_part as nat) - 1) as nat);
            assert(false);
        }
    }
    let iw = if int_part <= 0xFFFF_FFFF_FFFF_FFFF {
        write_u64(buf, pos, int_part as u64)
    } else {
        write_u128(buf, pos, int_part)
    };
    pos = pos + iw;
    if frac != 0 {
        let ghost f15 = padded_digits(frac as nat, 15);
        buf[pos] = 46;
        pos = pos + 1;
        let start = pos;
        let fw = write_frac15_from_u128(frac, buf, start);
        pos = pos + fw;
        let ghost buf1 = buf@;
        proof {
            assert(f15.take(15) =~= f15);
        }
        while pos > start && buf[pos - 1] == 48
            invariant
                start <= pos <= start + 15,
                buf@ == buf1,
                start + 15 <= buf@.len(),
                f15 == padded_digits(frac as nat, 15),
                buf@.subrange(start as int, start + 15) == f15,
                trim_zeros(f15.take(pos - start)) == trim_zeros(f15),
            decreases pos,
        {
            proof {
                assert(buf@[pos - 1] == f15[pos - 1 - start]);
                assert(f15.take(pos - start).last() == f15[pos - 1 - start]);
                assert(f15.take(pos - start).drop_last() =~= f15.take(pos - start - 1));
            }
            pos = pos - 1;
        }
        proof {
            if pos > start {
                assert(f15.take(pos - start).last() == f15[pos - 1 - start]);
                assert(f15.take(pos - start).last() != 48);
                assert(trim_zeros(f15.take(pos - start)) == f15.take(pos - start));
            } else {
                assert(f15.take(0) =~= Seq::<u8>::empty());
                assert(trim_zeros(f15) =~= Seq::<u8>::empty());
            }
            assert(buf@.subrange(offset as int, pos as int) =~= sign + ip + seq![46u8]
                + trim_zeros(f15));
        }
        pos - offset
    } else {
        proof {
            assert(buf@.subrange(offset as int, pos as int) =~= sign + ip);
        }
        pos - offset
    }
}

/// Copy `src` into the buffer starting at `pos`.
pub(crate) fn copy_bytes_at(buf: &mut Vec<u8>, pos: usize, src: &[u8])
    requires
        pos + src@.len() <= old(buf)@.len(),
    ensures
        final(buf)@.len() == old(buf)@.len(),
        final(buf)@.subrange(pos as int, pos + src@.len()) == src@,
        forall|j: int|
            0 <= j < old(buf)@.len() && !(pos <= j < pos + src@.len()) ==> final(buf)@[j]
                == old(buf)@[j],
{
    // the buffer length is a machine word, so the index sums below cannot overflow
    let total = buf.len();
    let ghost buf0 = buf@;
    let n = src.len();
    let mut k: usize = 0;
    while k < n
        invariant
            k <= n,
            n == src@.len(),
            total == buf0.len(),
            pos + n <= buf0.len(),
            buf@.len() == buf0.len(),
            forall|i: int| 0 <= i < k ==> buf@[pos + i] == src@[i],
            forall|j: int| 0 <= j < buf0.len() && !(pos <= j < pos + n) ==> buf@[j] == buf0[j],
        decreases n - k,
    {
        buf[pos + k] = src[k];
        k = k + 1;
    }
    proof {
        assert(buf@.subrange(pos as int, pos + n) =~= src@);
    }
}

/// Write a complete `TAG=VALUE<SOH>` boolean field at `offset`: the tag
/// prefix bytes, `'Y'` or `'N'`, and the delimiter byte 0x01.
pub fn write_tag_and_bool(bytes: &mut Vec<u8>, offset: usize, tag_and_eq: &[u8], value: bool) -> (len: usize)
    requires
        offset + tag_and_eq@.len() + 2 <= old(bytes)@.len(),
    ensures
        len == tag_and_eq@.len() + 2,
        final(bytes)@.len() == old(bytes)@.len(),
        final(bytes)@.subrange(offset as int, offset + len) == tag_and_eq@ + seq![
            (if value { 89u8 } else { 78u8 }),
            1u8,
        ],
        forall|j: int|
            0 <= j < old(bytes)@.len() && !(offset <= j < offset + len) ==> final(bytes)@[j]
                == old(bytes)@[j],
{
    // the buffer length is a machine word, so the index sums below cannot overflow
    let total = bytes.len();
    copy_bytes_at(bytes, offset, tag_and_eq);
    let pos = tag_and_eq.len();
    bytes[offset + pos] = if value {
        89
    } else {
        78
    };
    bytes[offset + pos + 1] = 1;
    proof {
        assert(bytes@.subrange(offset as int, offset + pos + 2) =~= tag_and_eq@ + seq![
            (if value { 89u8 } else { 78u8 }),
            1u8,
        ]);
    }
    pos + 2
}

/// Write a complete `TAG=VALUE<SOH>` field with a raw byte-slice value.
pub fn write_tag_and_bytes(bytes: &mut Vec<u8>, offset: usize, tag_and_eq: &[u8], value: &[u8]) -> (len: usize)
    requires
        offset + tag_and_eq@.len() + value@.len() + 1 <= old(bytes)@.len(),
    ensures
        len == tag_and_eq@.len() + value@.len() + 1,
        final(bytes)@.len() == old(bytes)@.len(),
        final(bytes)@.subrange(offset as int, offset + len) == tag_and_eq@ + value@ + seq![1u8],
        forall|j: int|
            0 <= j < old(bytes)@.len() && !(offset <= j < offset + len) ==> final(bytes)@[j]
                == old(bytes)@[j],
{
    // the buffer length is a machine word, so the index sums below cannot overflow
    let total = bytes.len();
    copy_bytes_at(bytes, offset, tag_and_eq);
    let mut pos = tag_and_eq.len();
    copy_bytes_at(bytes, offset + pos, value);
    pos = pos + value.len();
    bytes[offset + pos] = 1;
    proof {
        assert(bytes@.subrange(offset as int, offset + pos + 1) =~= tag_and_eq@ + value@ + seq![
            1u8,
        ]);
    }
    pos + 1
}

/// Write a complete `TAG=VALUE<SOH>` field with a string value.
pub fn write_tag_and_str(bytes: &mut Vec<u8>, offset: usize, tag_and_eq: &[u8], value: &str) -> (len: usize)
    requires
        offset + tag_and_eq@.len() + value.spec_bytes().len() + 1 <= old(bytes)@.len(),
    ensures
        len == tag_and_eq@.len() + value.spec_bytes().len() + 1,
        final(bytes)@.len() == old(bytes)@.len(),
        final(bytes)@.subrange(offset as int, offset + len) == tag_and_eq@
            + value.spec_bytes() + seq![1u8],
        forall|j: int|
            0 <= j < old(bytes)@.len() && !(offset <= j < offset + len) ==> final(bytes)@[j]
                == old(bytes)@[j],
{
    write_tag_and_bytes(bytes, offset, tag_and_eq, value.as_bytes())
}

/// Write a complete `TAG=VALUE<SOH>` field with a `u16` value.
pub fn write_tag_and_u16(bytes: &mut Vec<u8>, offset: usize, tag_and_eq: &[u8], value: u16) -> (len: usize)
    requires
        offset + tag_and_eq@.len() + 6 <= old(bytes)@.len(),
    ensures
        len == tag_and_eq@.len() + dec_len(value as nat) + 1,
        final(bytes)@.len() == old(bytes)@.len(),
        final(bytes)@.subrange(offset as int, offset + len) == tag_and_eq@ + dec_digits(
            value as nat,
        ) + seq![1u8],
        forall|j: int|
            0 <= j < old(bytes)@.len() && !(offset <= j < offset + len) ==> final(bytes)@[j]
                == old(bytes)@[j],
{
    // the buffer length is a machine word, so the index sums below cannot overflow
    let total = bytes.len();
    copy_bytes_at(bytes, offset, tag_and_eq);
    let mut pos = tag_and_eq.len();
    let w = write_u16(bytes, offset + pos, value);
    pos = pos + w;
    bytes[offset + pos] = 1;
    proof {
        assert(bytes@.subrange(offset as int, offset + pos + 1) =~= tag_and_eq@ + dec_digits(
            value as nat,
        ) + seq![1u8]);
    }
    pos + 1
}

/// Write a complete `TAG=VALUE<SOH>` field with a `u32` value.
pub fn write_tag_and_u32(bytes: &mut Vec<u8>, offset: usize, tag_and_eq: &[u8], value: u32) -> (len: usize)
    requires
        offset + tag_and_eq@.len() + 11 <= old(bytes)@.len(),
    ensures
        len == tag_and_eq@.len() + dec_len(value as nat) + 1,
        final(bytes)@.len() == old(bytes)@.len(),
        final(bytes)@.subrange(offset as int, offset + len) == tag_and_eq@ + dec_digits(
            value as nat,
        ) + seq![1u8],
        forall|j: int|
            0 <= j < old(bytes)@.len() && !(offset <= j < offset + len) ==> final(bytes)@[j]
                == old(bytes)@[j],
{
    // the buffer length is a machine word, so the index sums below cannot overflow
    let total = bytes.len();
    copy_bytes_at(bytes, offset, tag_and_eq);
    let mut pos = tag_and_eq.len();
    let w = write_u32(bytes, offset + pos, value);
    pos = pos + w;
    bytes[offset + pos] = 1;
    proof {
        assert(bytes@.subrange(offset as int, offset + pos + 1) =~= tag_and_eq@ + dec_digits(
            value as nat,
        ) + seq![1u8]);
    }
    pos + 1
}

/// Write a complete `TAG=VALUE<SOH>` field with a `u64` value.
pub fn write_tag_and_u64(bytes: &mut Vec<u8>, offset: usize, tag_and_eq: &[u8], value: u64) -> (len: usize)
    requires
        offset + tag_and_eq@.len() + 21 <= old(bytes)@.len(),
    ensures
        len == tag_and_eq@.len() + dec_len(value as nat) + 1,
        final(bytes)@.len() == old(bytes)@.len(),
        final(bytes)@.subrange(offset as int, offset + len) == tag_and_eq@ + dec_digits(
            value as nat,
        ) + seq![1u8],
        forall|j: int|
            0 <= j < old(bytes)@.len() && !(offset <= j < offset + len) ==> final(bytes)@[j]
                == old(bytes)@[j],
{
    // the buffer length is a machine word, so the index sums below cannot overflow
    let total = bytes.len();
    copy_bytes_at(bytes, offset, tag_and_eq);
    let mut pos = tag_and_eq.len();
    let w = write_u64(bytes, offset + pos, value);
    pos = pos + w;
    bytes[offset + pos] = 1;
    proof {
        assert(bytes@.subrange(offset as int, offset + pos + 1) =~= tag_and_eq@ + dec_digits(
            value as nat,
        ) + seq![1u8]);
    }
    pos + 1
}

/// Write a complete `TAG=VALUE<SOH>` field with an `i16` value.
pub fn write_tag_and_i16(bytes: &mut Vec<u8>, offset: usize, tag_and_eq: &[u8], value: i16) -> (len: usize)
    requires
        offset + tag_and_eq@.len() + 7 <= old(bytes)@.len(),
    ensures
        len == tag_and_eq@.len() + signed_digits(value as int).len() + 1,
        final(bytes)@.len() == old(bytes)@.len(),
        final(bytes)@.subrange(offset as int, offset + len) == tag_and_eq@ + signed_digits(
            value as int,
        ) + seq![1u8],
        forall|j: int|
            0 <= j < old(bytes)@.len() && !(offset <= j < offset + len) ==> final(bytes)@[j]
                == old(bytes)@[j],
{
    // the buffer length is a machine word, so the index sums below cannot overflow
    let total = bytes.len();
    copy_bytes_at(bytes, offset, tag_and_eq);
    let mut pos = tag_and_eq.len();
    let w = write_i16(bytes, offset + pos, value);
    pos = pos + w;
    bytes[offset + pos] = 1;
    proof {
        assert(bytes@.subrange(offset as int, offset + pos + 1) =~= tag_and_eq@ + signed_digits(
            value as int,
        ) + seq![1u8]);
    }
    pos + 1
}

/// Write a complete `TAG=VALUE<SOH>` field with an `i32` value.
pub fn write_tag_and_i32(bytes: &mut Vec<u8>, offset: usize, tag_and_eq: &[u8], value: i32) -> (len: usize)
    requires
        offset + tag_and_eq@.len() + 12 <= old(bytes)@.len(),
    ensures
        len == tag_and_eq@.len() + signed_digits(value as int).len() + 1,
        final(bytes)@.len() == old(bytes)@.len(),
        final(bytes)@.subrange(offset as int, offset + len) == tag_and_eq@ + signed_digits(
            value as int,
        ) + seq![1u8],
        forall|j: int|
            0 <= j < old(bytes)@.len() && !(offset <= j < offset + len) ==> final(bytes)@[j]
                == old(bytes)@[j],
{
    // the buffer length is a machine word, so the index sums below cannot overflow
    let total = bytes.len();
    copy_bytes_at(bytes, offset, tag_and_eq);
    let mut pos = tag_and_eq.len();
    let w = write_i32(bytes, offset + pos, value);
    pos = pos + w;
    bytes[offset + pos] = 1;
    proof {
        assert(bytes@.subrange(offset as int, offset + pos + 1) =~= tag_and_eq@ + signed_digits(
            value as int,
        ) + seq![1u8]);
    }
    pos + 1
}

/// Write a complete `TAG=VALUE<SOH>` field with an `i64` value.
pub fn write_tag_and_i64(bytes: &mut Vec<u8>, offset: usize, tag_and_eq: &[u8], value: i64) -> (len: usize)
    requires
        offset + tag_and_eq@.len() + 22 <= old(bytes)@.len(),
    ensures
        len == tag_and_eq@.len() + signed_digits(value as int).len() + 1,
        final(bytes)@.len() == old(bytes)@.len(),
        final(bytes)@.subrange(offset as int, offset + len) == tag_and_eq@ + signed_digits(
            value as int,
        ) + seq![1u8],
        forall|j: int|
            0 <= j < old(bytes)@.len() && !(offset <= j < offset + len) ==> final(bytes)@[j]
                == old(bytes)@[j],
{
    // the buffer length is a machine word, so the index sums below cannot overflow
    let total = bytes.len();
    copy_bytes_at(bytes, offset, tag_and_eq);
    let mut pos = tag_and_eq.len();
    let w = write_i64(bytes, offset + pos, value);
    pos = pos + w;
    bytes[offset + pos] = 1;
    proof {
        assert(bytes@.subrange(offset as int, offset + pos + 1) =~= tag_and_eq@ + signed_digits(
            value as int,
        ) + seq![1u8]);
    }
    pos + 1
}

} // verus!
