use fix44_forge_helpers::ReadError;

fn meta3() -> Vec<(String, u16, u8)> {
    vec![
        ("Field1".to_string(), 1, 0),
        ("Component1".to_string(), 2, 1),
        ("Group1".to_string(), 3, 2),
    ]
}

#[test]
fn test_read_error_display_no_missing_fields() {
    let error = ReadError::MissingRequiredFields {
        missing_mask: 0,
        meta: vec![("TestField".to_string(), 1, 0)],
    };
    assert_eq!(error.render(), "No required members are missing");
}

#[test]
fn test_read_error_display_missing_fields() {
    let error = ReadError::MissingRequiredFields { missing_mask: 0b101, meta: meta3() };
    let error_str = error.render();
    assert!(error_str.contains("Missing required members"));
    assert!(error_str.contains("field Field1(tag=1)"));
    assert!(error_str.contains("group Group1(countTag=3)"));
}

#[test]
fn test_read_error_display_missing_fields_exact() {
    let error = ReadError::MissingRequiredFields { missing_mask: 0b101, meta: meta3() };
    assert_eq!(
        error.render(),
        "Missing required members (mask=0x5): field Field1(tag=1), group Group1(countTag=3)"
    );

    let all = ReadError::MissingRequiredFields { missing_mask: 0b111, meta: meta3() };
    assert_eq!(
        all.render(),
        "Missing required members (mask=0x7): field Field1(tag=1), component Component1(tag=2), group Group1(countTag=3)"
    );
}

#[test]
fn test_read_error_display_invalid_value() {
    let error = ReadError::InvalidValue {
        name: "TestField".to_string(),
        tag: 42,
        msg: "Expected numeric value".to_string(),
    };
    assert_eq!(error.render(), "Invalid value for TestField (tag=42): Expected numeric value");
}

#[test]
fn test_missing_member_names() {
    let meta = vec![
        ("Field1".to_string(), 1, 0),
        ("Field2".to_string(), 2, 0),
        ("Field3".to_string(), 3, 0),
    ];

    let error = ReadError::MissingRequiredFields { missing_mask: 0b101, meta: meta.clone() };
    let names = error.missing_member_names().unwrap();
    assert_eq!(names, vec!["Field1".to_string(), "Field3".to_string()]);

    let error = ReadError::MissingRequiredFields { missing_mask: 0, meta };
    let names = error.missing_member_names().unwrap();
    assert!(names.is_empty());

    let error = ReadError::InvalidValue {
        name: "TestField".to_string(),
        tag: 42,
        msg: "Test message".to_string(),
    };
    assert!(error.missing_member_names().is_none());
}
