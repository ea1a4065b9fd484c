//! The pre-initialized message buffer and its trailing length patch.
//!
//! Every outgoing message starts from the same fixed header template,
//! `8=<version><SOH>9=0000<SOH>35=`, laid out so that for the supported
//! version strings (all of the same length) the body-length placeholder
//! and the write-start offset sit at fixed positions.  Once the body has
//! been written, the four-digit body-length field is patched in place.

use vstd::prelude::*;
use vstd::string::StringSliceAdditionalSpecFns;

use crate::digits::pow10;
use crate::digits::lemma_pow10_values;
use crate::writing::copy_bytes_at;
use crate::writing::padded_digits;

verus! {

/// Size of a message buffer: room for most messages in practice.
pub const FORGE_BUFFER_SIZE: usize = 1024;

/// Length of the complete pre-initialized header for the supported
/// version family: `8=FIX.4.x<SOH>9=0000<SOH>35=` is 20 bytes.
pub const FORGE_HEADER_LEN: usize = 20;

/// Position where the four body-length digits start: after
/// `8=FIX.4.x<SOH>` (10 bytes) and `9=` (2 bytes).
pub const BODY_LENGTH_VALUE_POS: usize = 12;

/// First position available for the message-type value, immediately
/// after the pre-initialized header.
pub const FORGE_WRITE_START: usize = 20;

/// The fixed bytes that follow the version string in the header:
/// `<SOH>9=0000<SOH>35=`.
pub open spec fn header_suffix() -> Seq<u8> {
    seq![1u8, 57u8, 61u8, 48u8, 48u8, 48u8, 48u8, 1u8, 51u8, 53u8, 61u8]
}

/// Create a zero-filled message buffer whose first bytes hold the header
/// `8=<version><SOH>9=0000<SOH>35=` for the given version string.
pub fn forge_out_buffer(fix_version: &str) -> (r: Vec<u8>)
    requires
        fix_version.spec_bytes().len() + 13 <= FORGE_BUFFER_SIZE,
    ensures
        r@.len() == FORGE_BUFFER_SIZE,
        r@.subrange(0, 2) == seq![56u8, 61u8],
        r@.subrange(2, 2 + fix_version.spec_bytes().len() as int) == fix_version.spec_bytes(),
        r@.subrange(
            2 + fix_version.spec_bytes().len() as int,
            13 + fix_version.spec_bytes().len() as int,
        ) == header_suffix(),
        forall|j: int|
            13 + fix_version.spec_bytes().len() as int <= j < FORGE_BUFFER_SIZE ==> r@[j] == 0,
{
    let mut buffer: Vec<u8> = Vec::new();
    let mut k: usize = 0;
    while k < FORGE_BUFFER_SIZE
        invariant
            k <= FORGE_BUFFER_SIZE,
            buffer@.len() == k,
            forall|j: int| 0 <= j < k ==> buffer@[j] == 0,
        decreases FORGE_BUFFER_SIZE - k,
    {
        buffer.push(0);
        k = k + 1;
    }
    buffer[0] = 56;
    buffer[1] = 61;
    let version_bytes = fix_version.as_bytes();
    copy_bytes_at(&mut buffer, 2, version_bytes);
    let mut pos = 2 + version_bytes.len();
    buffer[pos] = 1;
    buffer[pos + 1] = 57;
    buffer[pos + 2] = 61;
    buffer[pos + 3] = 48;
    buffer[pos + 4] = 48;
    buffer[pos + 5] = 48;
    buffer[pos + 6] = 48;
    buffer[pos + 7] = 1;
    buffer[pos + 8] = 51;
    buffer[pos + 9] = 53;
    buffer[pos + 10] = 61;
    proof {
        assert(buffer@.subrange(0, 2) =~= seq![56u8, 61u8]);
        assert(buffer@.subrange(2, 2 + fix_version.spec_bytes().len() as int)
            =~= fix_version.spec_bytes());
        assert(buffer@.subrange(
            2 + fix_version.spec_bytes().len() as int,
            13 + fix_version.spec_bytes().len() as int,
        ) =~= header_suffix());
    }
    buffer
}

/// Patch the four body-length digits in place: the field holds the
/// zero-padded low four decimal digits of `(message_length - 17)`
/// truncated to sixteen bits.  Values above 9999 are not rejected; the
/// digits then encode the truncated value.
pub fn update_body_length(buffer: &mut Vec<u8>, message_length: usize)
    requires
        old(buffer)@.len() >= BODY_LENGTH_VALUE_POS + 4,
        message_length >= 17,
    ensures
        final(buffer)@.len() == old(buffer)@.len(),
        final(buffer)@.subrange(
            BODY_LENGTH_VALUE_POS as int,
            BODY_LENGTH_VALUE_POS + 4,
        ) == padded_digits(((message_length - 17) % 0x1_0000) as nat, 4),
        forall|j: int|
            0 <= j < old(buffer)@.len() && !(BODY_LENGTH_VALUE_POS <= j
                < BODY_LENGTH_VALUE_POS + 4) ==> final(buffer)@[j] == old(buffer)@[j],
{
    let body_length: u16 = ((message_length - 17) % 0x1_0000) as u16;
    let thousands = (body_length / 1000) % 10;
    let hundreds = (body_length / 100) % 10;
    let tens = (body_length / 10) % 10;
    let units = body_length % 10;
    buffer[BODY_LENGTH_VALUE_POS] = 48 + thousands as u8;
    buffer[BODY_LENGTH_VALUE_POS + 1] = 48 + hundreds as u8;
    buffer[BODY_LENGTH_VALUE_POS + 2] = 48 + tens as u8;
    buffer[BODY_LENGTH_VALUE_POS + 3] = 48 + units as u8;
    proof {
        lemma_pow10_values();
        let v = body_length as nat;
        assert(padded_digits(v, 4)[0] == (48 + (v / pow10(3)) % 10) as u8);
        assert(padded_digits(v, 4)[1] == (48 + (v / pow10(2)) % 10) as u8);
        assert(padded_digits(v, 4)[2] == (48 + (v / pow10(1)) % 10) as u8);
        assert(padded_digits(v, 4)[3] == (48 + (v / pow10(0)) % 10) as u8);
        assert(v / pow10(0) == v) by {
            vstd::arithmetic::div_mod::lemma_div_basics(v as int);
        }
        assert(buffer@.subrange(BODY_LENGTH_VALUE_POS as int, BODY_LENGTH_VALUE_POS + 4)
            =~= padded_digits(body_length as nat, 4));
    }
}

/// The position where message writing starts; the same for every
/// supported version string, since all have the same length.
pub fn forge_write_start(_fix_version: &str) -> (r: usize)
    ensures
        r == FORGE_WRITE_START,
{
    FORGE_WRITE_START
}

} // verus!
