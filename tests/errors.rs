use libnote::error::{DocumentError, LibnoteError, ParseError, RepositoryError, SerializationError};

#[test]
fn test_parse_error_syntax() {
    let err = ParseError::syntax_error(42, "unexpected token");
    assert!(err.to_string().contains("line 42"));
    assert!(err.to_string().contains("unexpected token"));
}

#[test]
fn test_parse_error_unsupported_syntax() {
    let err = ParseError::unsupported_syntax("ReStructuredText");
    assert!(err.to_string().contains("ReStructuredText"));
}

#[test]
fn test_document_error_from_parse_error() {
    let parse_err = ParseError::other("test error");
    let doc_err: DocumentError = parse_err.into();
    assert!(doc_err.to_string().contains("test error"));
}

#[test]
fn test_document_error_invalid_index() {
    let doc_err = DocumentError::InvalidIndex;
    assert!(doc_err.to_string().contains("index"));
}

#[test]
fn test_libnote_error_from_document_error() {
    let doc_err = DocumentError::InvalidIndex;
    let lib_err: LibnoteError = doc_err.into();
    assert!(lib_err.to_string().contains("index"));
}

#[test]
fn test_serialization_error_utf8() {
    let err = SerializationError::InvalidUtf8;
    assert!(err.to_string().contains("UTF-8"));
}

#[test]
fn test_repository_error_not_found() {
    let err = RepositoryError::not_found("note-123");
    assert!(err.to_string().contains("note-123"));
}

#[test]
fn error_messages_are_exact() {
    assert_eq!(ParseError::syntax_error(0, "x").to_string(), "Syntax error at line 0: x");
    assert_eq!(ParseError::syntax_error(1907, "bad").to_string(), "Syntax error at line 1907: bad");
    assert_eq!(ParseError::detection_failed("d").to_string(), "Block detection failed: d");
    assert_eq!(DocumentError::missing_parser("Org").to_string(), "No parser available for syntax: Org");
    assert_eq!(DocumentError::render_failed("r").to_string(), "Failed to render document: r");
    assert_eq!(DocumentError::invalid_format("f").to_string(), "Invalid document format: f");
    assert_eq!(DocumentError::other("o").to_string(), "Document error: o");
    assert_eq!(
        DocumentError::ParseFailed(ParseError::other("p")).to_string(),
        "Failed to parse document: Parse error: p"
    );
    assert_eq!(SerializationError::unsupported_format("x").to_string(), "Unsupported format: x");
    assert_eq!(SerializationError::serialization_failed("s").to_string(), "Serialization failed: s");
    assert_eq!(SerializationError::deserialization_failed("d").to_string(), "Deserialization failed: d");
    assert_eq!(RepositoryError::already_exists("a").to_string(), "Note already exists: a");
    assert_eq!(RepositoryError::io_error("i").to_string(), "I/O error: i");
    assert_eq!(RepositoryError::invalid_id("v").to_string(), "Invalid note ID: v");
    assert_eq!(RepositoryError::other("o").to_string(), "Repository error: o");
    assert_eq!(LibnoteError::other("plain").to_string(), "plain");
    let from_parse: LibnoteError = ParseError::unsupported_syntax("Rst").into();
    assert_eq!(from_parse.to_string(), "Unsupported syntax: Rst");
}
