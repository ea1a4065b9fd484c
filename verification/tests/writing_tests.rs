use fix44_forge_helpers::read_i16;
use fix44_forge_helpers::read_i32;
use fix44_forge_helpers::read_i64;
use fix44_forge_helpers::read_u16;
use fix44_forge_helpers::read_u32;
use fix44_forge_helpers::read_u64;
use fix44_forge_helpers::write_i16;
use fix44_forge_helpers::write_i32;
use fix44_forge_helpers::write_i64;
use fix44_forge_helpers::write_scaled15;
use fix44_forge_helpers::write_scaled6;
use fix44_forge_helpers::write_tag_and_bool;
use fix44_forge_helpers::write_tag_and_str;
use fix44_forge_helpers::write_tag_and_u32;
use fix44_forge_helpers::write_u128;
use fix44_forge_helpers::write_u16;
use fix44_forge_helpers::write_u32;
use fix44_forge_helpers::write_u64;

#[test]
fn test_write_u16() {
    let mut buf = vec![0u8; 10];
    assert_eq!(write_u16(&mut buf, 0, 0), 1);
    assert_eq!(&buf[..1], b"0");

    let mut buf = vec![0u8; 10];
    assert_eq!(write_u16(&mut buf, 0, 123), 3);
    assert_eq!(&buf[..3], b"123");

    let mut buf = vec![0u8; 10];
    assert_eq!(write_u16(&mut buf, 0, 65535), 5);
    assert_eq!(&buf[..5], b"65535");
}

#[test]
fn test_write_i16() {
    let mut buf = vec![0u8; 10];
    assert_eq!(write_i16(&mut buf, 0, -123), 4);
    assert_eq!(&buf[..4], b"-123");

    let mut buf = vec![0u8; 10];
    assert_eq!(write_i16(&mut buf, 0, i16::MIN), 6);
    assert_eq!(&buf[..6], b"-32768");
}

#[test]
fn test_write_u32_and_u64() {
    let mut buf = vec![0u8; 10];
    assert_eq!(write_u32(&mut buf, 0, 4294967295), 10);
    assert_eq!(&buf[..10], b"4294967295");

    let mut buf = vec![0u8; 20];
    assert_eq!(write_u64(&mut buf, 0, 18446744073709551615), 20);
    assert_eq!(&buf[..20], b"18446744073709551615");
}

#[test]
fn test_write_u128() {
    let mut buf = vec![0u8; 39];
    let written = write_u128(&mut buf, 0, 340282366920938463463374607431768211455);
    assert_eq!(written, 39);
    assert_eq!(&buf[..39], b"340282366920938463463374607431768211455");
}

#[test]
fn test_unsigned_round_trips() {
    for v in [0u16, 1, 9, 10, 99, 12345, u16::MAX] {
        let mut buf = vec![0u8; 5];
        let w = write_u16(&mut buf, 0, v);
        assert_eq!(read_u16(&buf[..w]), v);
    }
    for v in [0u32, 7, 1000, 123456789, u32::MAX] {
        let mut buf = vec![0u8; 10];
        let w = write_u32(&mut buf, 0, v);
        assert_eq!(read_u32(&buf[..w]), v);
    }
    for v in [0u64, 42, 10000000000, u64::MAX] {
        let mut buf = vec![0u8; 20];
        let w = write_u64(&mut buf, 0, v);
        assert_eq!(read_u64(&buf[..w]), v);
    }
}

#[test]
fn test_signed_round_trips() {
    for v in [0i16, 1, -1, 999, -999, i16::MAX, i16::MIN] {
        let mut buf = vec![0u8; 6];
        let w = write_i16(&mut buf, 0, v);
        assert_eq!(read_i16(&buf[..w]), v);
    }
    for v in [0i32, 5, -5, i32::MAX, i32::MIN] {
        let mut buf = vec![0u8; 11];
        let w = write_i32(&mut buf, 0, v);
        assert_eq!(read_i32(&buf[..w]), v);
    }
    for v in [0i64, 77, -77, i64::MAX, i64::MIN] {
        let mut buf = vec![0u8; 21];
        let w = write_i64(&mut buf, 0, v);
        assert_eq!(read_i64(&buf[..w]), v);
    }
}

#[test]
fn test_write_scaled6() {
    // the scaled core beneath the 32-bit float writer: 123.456 scaled
    // by ten to the six
    let mut buf = vec![0u8; 28];
    let written = write_scaled6(&mut buf, 0, false, 123456000);
    assert_eq!(&buf[..written], b"123.456");

    // a zero fractional part omits the decimal point
    let mut buf = vec![0u8; 28];
    let written = write_scaled6(&mut buf, 0, false, 123000000);
    assert_eq!(&buf[..written], b"123");

    let mut buf = vec![0u8; 28];
    let written = write_scaled6(&mut buf, 0, true, 123456000);
    assert_eq!(&buf[..written], b"-123.456");

    // a negative sign is kept even for a zero magnitude
    let mut buf = vec![0u8; 28];
    let written = write_scaled6(&mut buf, 0, true, 0);
    assert_eq!(&buf[..written], b"-0");
}

#[test]
fn test_write_scaled15() {
    let mut buf = vec![0u8; 41];
    let written = write_scaled15(&mut buf, 0, false, 123456789012345678);
    assert_eq!(&buf[..written], b"123.456789012345678");

    let mut buf = vec![0u8; 41];
    let written = write_scaled15(&mut buf, 0, false, 5000000000000000);
    assert_eq!(&buf[..written], b"5");

    let mut buf = vec![0u8; 41];
    let written = write_scaled15(&mut buf, 0, true, 2500000000000000);
    assert_eq!(&buf[..written], b"-2.5");
}

#[test]
fn test_write_tag_and_bool() {
    let mut buf = vec![0u8; 20];
    let written = write_tag_and_bool(&mut buf, 0, b"54=", true);
    assert_eq!(&buf[..written], b"54=Y\x01");

    let mut buf = vec![0u8; 20];
    let written = write_tag_and_bool(&mut buf, 0, b"54=", false);
    assert_eq!(&buf[..written], b"54=N\x01");
}

#[test]
fn test_write_tag_and_str() {
    let mut buf = vec![0u8; 20];
    let written = write_tag_and_str(&mut buf, 0, b"35=", "D");
    assert_eq!(&buf[..written], b"35=D\x01");
}

#[test]
fn test_write_tag_and_u32() {
    let mut buf = vec![0u8; 20];
    let written = write_tag_and_u32(&mut buf, 0, b"34=", 12345);
    assert_eq!(&buf[..written], b"34=12345\x01");
}
