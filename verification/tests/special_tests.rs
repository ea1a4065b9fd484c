use std::collections::HashSet;

use fix44_forge_helpers::derive_process_tag;
use fix44_forge_helpers::digit36;
use fix44_forge_helpers::encode_base36_fixed13;
use fix44_forge_helpers::format_logging_timestamp_from_timespec;
use fix44_forge_helpers::format_timestamp_from_timespec;
use fix44_forge_helpers::splitmix64;
use fix44_forge_helpers::write_tag_and_ClOrdID;
use fix44_forge_helpers::DateCache;
use fix44_forge_helpers::IdGenerator;
use fix44_forge_helpers::Timespec;

#[test]
fn test_encode_base36_fixed13() {
    let mut buf = vec![0u8; 20];
    let written = encode_base36_fixed13(&mut buf, 0, 0);
    assert_eq!(written, 13);
    assert_eq!(&buf[..13], b"0000000000000");

    let mut buf = vec![0u8; 20];
    let written = encode_base36_fixed13(&mut buf, 0, 35);
    assert_eq!(written, 13);
    assert_eq!(&buf[..13], b"000000000000Z");

    let mut buf = vec![0u8; 10];
    let written = encode_base36_fixed13(&mut buf, 0, 123);
    assert_eq!(written, 0);
    assert!(buf.iter().all(|&b| b == 0));
}

#[test]
fn test_encode_base36_fixed13_large() {
    let mut buf = vec![0u8; 13];
    let written = encode_base36_fixed13(&mut buf, 0, 12345678901234567890);
    assert_eq!(written, 13);
    assert_eq!(&buf[..13], b"2LSOHXAWJUI8I");
}

#[test]
fn test_digit36() {
    assert_eq!(digit36(0), b'0');
    assert_eq!(digit36(9), b'9');
    assert_eq!(digit36(10), b'A');
    assert_eq!(digit36(35), b'Z');
}

#[test]
fn test_splitmix64_known_values() {
    assert_eq!(splitmix64(0), 0xE220A8397B1DCDAF);
    assert_eq!(splitmix64(1), 0x910A2DEC89025CC1);
}

#[test]
fn test_derive_process_tag() {
    let t1 = derive_process_tag(4242, 0x1000, 0x2000, 0x4000, 0x8000);
    let t2 = derive_process_tag(4242, 0x1000, 0x2000, 0x4000, 0x8000);
    assert_eq!(t1, t2);
    assert_ne!(t1, 0);
    assert_ne!(derive_process_tag(0, 0, 0, 0, 0), 0);
}

#[test]
fn test_next_id_u64_uniqueness() {
    let mut ids = IdGenerator::new(derive_process_tag(1, 2, 3, 4, 5));
    let id1 = ids.next_id_u64();
    let id2 = ids.next_id_u64();
    assert_ne!(id1, id2);
}

#[test]
fn test_next_id_u64_many_distinct() {
    let mut ids = IdGenerator::new(7);
    let mut seen = HashSet::new();
    for _ in 0..10000 {
        assert!(seen.insert(ids.next_id_u64()));
    }
}

#[test]
fn test_write_tag_and_clordid() {
    let mut ids = IdGenerator::new(derive_process_tag(99, 1, 2, 3, 4));
    let mut buf = vec![0u8; 30];
    let written = write_tag_and_ClOrdID(&mut buf, 0, b"11=", &mut ids);
    assert_eq!(written, 17); // 3 + 13 + 1
    assert_eq!(&buf[..3], b"11=");
    assert_eq!(buf[16], 0x01);

    let clord_id = &buf[3..16];
    assert_eq!(clord_id.len(), 13);
    for &byte in clord_id {
        assert!(
            (byte >= b'0' && byte <= b'9') || (byte >= b'A' && byte <= b'Z'),
            "Invalid base36 character: {}",
            byte as char
        );
    }
}

#[test]
fn test_format_timestamp_from_timespec_epoch() {
    let mut cache = DateCache::new();
    let ts = Timespec { tv_sec: 0, tv_nsec: 123_000_000 };
    let mut buf = vec![0u8; 64];
    let written = format_timestamp_from_timespec(&mut buf, 0, b"52=", &ts, &mut cache);
    assert_eq!(written, 3 + 21 + 1);
    assert_eq!(&buf[..3], b"52=");
    let ts_bytes = &buf[3..written - 1];
    assert_eq!(ts_bytes, b"19700101-00:00:00.123");
    assert_eq!(buf[written - 1], 0x01);
}

#[test]
fn test_format_logging_timestamp_from_timespec_epoch() {
    let mut cache = DateCache::new();
    let ts = Timespec { tv_sec: 0, tv_nsec: 987_654_321 };
    let mut buf = vec![0u8; 64];
    let written = format_logging_timestamp_from_timespec(&mut buf, 0, &ts, &mut cache);
    assert_eq!(written, 31);
    let s = core::str::from_utf8(&buf[..written]).unwrap();
    assert_eq!(s, "1970-01-01 00:00:00.987.654.321");
}

#[test]
fn test_timestamp_date_cache_rollover() {
    let mut cache = DateCache::new();
    let day_n: i64 = 10;
    let ts1 = Timespec { tv_sec: day_n * 86_400 + 12 * 3600 + 34 * 60 + 56, tv_nsec: 123_000_000 };
    let ts2 = Timespec {
        tv_sec: (day_n + 1) * 86_400 + 1 * 3600 + 2 * 60 + 3,
        tv_nsec: 456_000_000,
    };
    let mut buf1 = vec![0u8; 64];
    let mut buf2 = vec![0u8; 64];
    let w1 = format_timestamp_from_timespec(&mut buf1, 0, b"52=", &ts1, &mut cache);
    let w2 = format_timestamp_from_timespec(&mut buf2, 0, b"52=", &ts2, &mut cache);
    assert_eq!(&buf1[..3], b"52=");
    assert_eq!(&buf2[..3], b"52=");
    assert_eq!(w1, 3 + 21 + 1);
    assert_eq!(w2, 3 + 21 + 1);
    let date1 = &buf1[3..11];
    let date2 = &buf2[3..11];
    assert_ne!(date1, date2, "Date cache failed to update across day boundary");
    assert!(date2 > date1, "Rollover ordering unexpected: {:?} !< {:?}", date1, date2);
}

#[test]
fn test_timestamp_straddles_midnight_by_one_second() {
    let mut cache = DateCache::new();
    let before = Timespec { tv_sec: 365 * 86_400 - 1, tv_nsec: 0 };
    let after = Timespec { tv_sec: 365 * 86_400, tv_nsec: 0 };
    let mut buf1 = vec![0u8; 64];
    let mut buf2 = vec![0u8; 64];
    format_timestamp_from_timespec(&mut buf1, 0, b"60=", &before, &mut cache);
    format_timestamp_from_timespec(&mut buf2, 0, b"60=", &after, &mut cache);
    assert_eq!(&buf1[3..24], b"19701231-23:59:59.000");
    assert_eq!(&buf2[3..24], b"19710101-00:00:00.000");
    assert!(&buf1[3..11] < &buf2[3..11]);
}
