use fix44_forge_helpers::forge_out_buffer;
use fix44_forge_helpers::forge_write_start;
use fix44_forge_helpers::update_body_length;
use fix44_forge_helpers::write_tag_and_u32;
use fix44_forge_helpers::BODY_LENGTH_VALUE_POS;
use fix44_forge_helpers::FORGE_BUFFER_SIZE;
use fix44_forge_helpers::FORGE_HEADER_LEN;
use fix44_forge_helpers::FORGE_WRITE_START;

#[test]
fn test_forge_out_buffer_fix44() {
    let buffer = forge_out_buffer("FIX.4.4");

    assert_eq!(buffer.len(), FORGE_BUFFER_SIZE);
    assert_eq!(buffer.len(), 1024);

    let expected_header = b"8=FIX.4.4\x019=0000\x0135=";
    assert_eq!(&buffer[..expected_header.len()], expected_header);

    assert!(buffer[FORGE_WRITE_START..].iter().all(|&b| b == 0));
}

#[test]
fn test_forge_out_buffer_fix42() {
    let buffer = forge_out_buffer("FIX.4.2");

    let expected_header = b"8=FIX.4.2\x019=0000\x0135=";
    assert_eq!(&buffer[..expected_header.len()], expected_header);

    assert!(buffer[FORGE_WRITE_START..].iter().all(|&b| b == 0));
}

#[test]
fn test_forge_out_buffer_ready_for_writing() {
    let mut buffer = forge_out_buffer("FIX.4.4");

    let mut pos = FORGE_WRITE_START;

    buffer[pos] = b'D';
    pos += 1;
    buffer[pos] = 0x01;
    pos += 1;

    pos += write_tag_and_u32(&mut buffer, pos, b"34=", 123);

    update_body_length(&mut buffer, pos);

    let expected = b"8=FIX.4.4\x019=0012\x0135=D\x0134=123\x01";
    assert_eq!(&buffer[..pos], expected);

    assert_eq!(&buffer[..3], b"8=F");
    assert_eq!(&buffer[10..12], b"9=");
    assert_eq!(&buffer[17..20], b"35=");
}

#[test]
fn test_forge_out_buffer_independence() {
    let buffer1 = forge_out_buffer("FIX.4.4");
    let mut buffer2 = forge_out_buffer("FIX.4.4");

    buffer2[FORGE_WRITE_START] = b'X';

    let expected_header = b"8=FIX.4.4\x019=0000\x0135=";
    assert_eq!(&buffer1[..expected_header.len()], expected_header);
    assert_eq!(buffer1[FORGE_WRITE_START], 0);

    assert_eq!(&buffer2[..expected_header.len()], expected_header);
    assert_eq!(buffer2[FORGE_WRITE_START], b'X');
}

#[test]
fn test_update_body_length() {
    let mut buffer = forge_out_buffer("FIX.4.4");

    update_body_length(&mut buffer, 17);
    assert_eq!(&buffer[BODY_LENGTH_VALUE_POS..BODY_LENGTH_VALUE_POS + 4], b"0000");

    update_body_length(&mut buffer, 59);
    assert_eq!(&buffer[BODY_LENGTH_VALUE_POS..BODY_LENGTH_VALUE_POS + 4], b"0042");

    update_body_length(&mut buffer, 1251);
    assert_eq!(&buffer[BODY_LENGTH_VALUE_POS..BODY_LENGTH_VALUE_POS + 4], b"1234");

    update_body_length(&mut buffer, 10016);
    assert_eq!(&buffer[BODY_LENGTH_VALUE_POS..BODY_LENGTH_VALUE_POS + 4], b"9999");

    assert_eq!(&buffer[..10], b"8=FIX.4.4\x01");
    assert_eq!(&buffer[10..12], b"9=");
    assert_eq!(&buffer[16..20], b"\x0135=");
}

#[test]
fn test_forge_helper_functions() {
    assert_eq!(forge_write_start("FIX.4.4"), 20);

    assert_eq!(forge_write_start("FIX.4.2"), 20);

    assert_eq!(FORGE_WRITE_START, 20);
    assert_eq!(BODY_LENGTH_VALUE_POS, 12);
    assert_eq!(FORGE_HEADER_LEN, 20);
}
