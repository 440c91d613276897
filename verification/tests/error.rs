use gin::error::InsultError;

#[test]
fn message_of_a_parse_error() {
    let e = InsultError::ParseError("unclosed group".to_string());
    assert_eq!(e.message(), "Parse error: unclosed group");
}

#[test]
fn message_of_an_invalid_format() {
    let e = InsultError::InvalidFormat("No valid phrases found".to_string());
    assert_eq!(e.message(), "Invalid format: No valid phrases found");
    let e = InsultError::InvalidFormat(String::new());
    assert_eq!(e.message(), "Invalid format: ");
}

#[test]
fn message_of_an_io_error() {
    let inner = std::io::Error::new(std::io::ErrorKind::NotFound, "phrases are gone");
    let e = InsultError::from(inner);
    assert!(matches!(e, InsultError::IoError(_)));
    assert_eq!(e.message(), "IO error: phrases are gone");
}

#[test]
fn message_of_a_json_error() {
    let inner = serde_json::from_str::<serde_json::Value>("{").unwrap_err();
    let detail = inner.to_string();
    let e = InsultError::from(inner);
    assert!(matches!(e, InsultError::JsonError(_)));
    assert_eq!(e.message(), format!("JSON error: {}", detail));
}

#[test]
fn errors_can_be_shown_for_debugging() {
    let e = InsultError::InvalidFormat("Line 2: Expected 3 fields, found 1".to_string());
    assert_eq!(
        format!("{:?}", e),
        "InvalidFormat(\"Line 2: Expected 3 fields, found 1\")"
    );
}
