use fix44_forge_helpers::read_bool;
use fix44_forge_helpers::read_decimal32;
use fix44_forge_helpers::read_decimal64;
use fix44_forge_helpers::read_i16;
use fix44_forge_helpers::read_i32;
use fix44_forge_helpers::read_i64;
use fix44_forge_helpers::read_str;
use fix44_forge_helpers::read_u16;
use fix44_forge_helpers::read_u32;
use fix44_forge_helpers::read_u64;

#[test]
fn test_read_bool() {
    assert_eq!(read_bool(b"Y"), true);
    assert_eq!(read_bool(b"N"), false);
    assert_eq!(read_bool(b""), false);
    assert_eq!(read_bool(b"yes"), false);
}

#[test]
fn test_read_str() {
    assert_eq!(read_str(b"hello"), "hello");
    assert_eq!(read_str(b""), "");
    assert_eq!(read_str(b"test123"), "test123");
}

#[test]
fn test_read_u16() {
    assert_eq!(read_u16(b"0"), 0);
    assert_eq!(read_u16(b"123"), 123);
    assert_eq!(read_u16(b"65535"), 65535);
    assert_eq!(read_u16(b"123abc"), 123);
    assert_eq!(read_u16(b""), 0);
    assert_eq!(read_u16(b"abc"), 0);
}

#[test]
fn test_read_u32() {
    assert_eq!(read_u32(b"0"), 0);
    assert_eq!(read_u32(b"123456789"), 123456789);
    assert_eq!(read_u32(b"4294967295"), 4294967295);
    assert_eq!(read_u32(b"123abc"), 123);
    assert_eq!(read_u32(b""), 0);
}

#[test]
fn test_read_u64() {
    assert_eq!(read_u64(b"0"), 0);
    assert_eq!(read_u64(b"123456789012345"), 123456789012345);
    assert_eq!(read_u64(b"18446744073709551615"), 18446744073709551615);
    assert_eq!(read_u64(b"123abc"), 123);
    assert_eq!(read_u64(b""), 0);
}

#[test]
fn test_read_i16() {
    assert_eq!(read_i16(b"0"), 0);
    assert_eq!(read_i16(b"123"), 123);
    assert_eq!(read_i16(b"-123"), -123);
    assert_eq!(read_i16(b"32767"), 32767);
    assert_eq!(read_i16(b"-32768"), -32768);
    assert_eq!(read_i16(b""), 0);
    assert_eq!(read_i16(b"-"), 0);
}

#[test]
fn test_read_i32() {
    assert_eq!(read_i32(b"0"), 0);
    assert_eq!(read_i32(b"123456789"), 123456789);
    assert_eq!(read_i32(b"-123456789"), -123456789);
    assert_eq!(read_i32(b"2147483647"), 2147483647);
    assert_eq!(read_i32(b"-2147483648"), -2147483648);
    assert_eq!(read_i32(b""), 0);
}

#[test]
fn test_read_i64() {
    assert_eq!(read_i64(b"0"), 0);
    assert_eq!(read_i64(b"123456789012345"), 123456789012345);
    assert_eq!(read_i64(b"-123456789012345"), -123456789012345);
    assert_eq!(read_i64(b"9223372036854775807"), 9223372036854775807);
    assert_eq!(read_i64(b"-9223372036854775808"), -9223372036854775808);
    assert_eq!(read_i64(b""), 0);
}

#[test]
fn test_read_decimal32_parts() {
    assert_eq!(read_decimal32(b"123.456"), (false, 123, 456, 3));
    assert_eq!(read_decimal32(b"-123.456"), (true, 123, 456, 3));
    assert_eq!(read_decimal32(b"123"), (false, 123, 0, 0));
    assert_eq!(read_decimal32(b".456"), (false, 0, 456, 3));
    assert_eq!(read_decimal32(b"123."), (false, 123, 0, 0));
    assert_eq!(read_decimal32(b""), (false, 0, 0, 0));
    assert_eq!(read_decimal32(b"-0"), (true, 0, 0, 0));
    assert_eq!(read_decimal32(b"-"), (true, 0, 0, 0));
    // the fractional accumulator is capped at nine digits
    assert_eq!(read_decimal32(b"0.12345678912"), (false, 0, 123456789, 9));
}

#[test]
fn test_read_decimal64_parts() {
    assert_eq!(read_decimal64(b"123.456789012345"), (false, 123, 456789012345, 12));
    assert_eq!(read_decimal64(b"-123.456"), (true, 123, 456, 3));
    assert_eq!(read_decimal64(b".456"), (false, 0, 456, 3));
    assert_eq!(read_decimal64(b"123."), (false, 123, 0, 0));
    assert_eq!(read_decimal64(b""), (false, 0, 0, 0));
    assert_eq!(read_decimal64(b"-0"), (true, 0, 0, 0));
}

#[test]
fn test_read_float_reconstruction_within_precision() {
    let (neg, int_part, frac, frac_len) = read_decimal32(b"123.456");
    let mut value = int_part as f32;
    if frac_len > 0 {
        value += (frac as f32) / 10f32.powi(frac_len as i32);
    }
    if neg {
        value = -value;
    }
    assert_eq!(value, 123.456f32);

    let (neg, int_part, frac, frac_len) = read_decimal64(b"-123.456789012345");
    let mut value = int_part as f64;
    if frac_len > 0 {
        value += (frac as f64) / 10f64.powi(frac_len as i32);
    }
    if neg {
        value = -value;
    }
    assert_eq!(value, -123.456789012345f64);

    // a lone minus sign or a minus-zero keeps its sign bit
    let (neg, int_part, frac, _) = read_decimal32(b"-0");
    assert!(neg && int_part == 0 && frac == 0);
}
