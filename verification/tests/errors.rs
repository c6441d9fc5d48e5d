//! Error messages.

use md_doc_search::SearchError;

#[test]
fn error_messages() {
    assert_eq!(SearchError::EmptyQuery.message(), "query contains no keyword");
    assert_eq!(SearchError::InvalidParam("top_k").message(), "top_k must be at least 1");
    assert_eq!(SearchError::InvalidParam("max_tokens").message(), "max_tokens must be at least 1");
    let io = std::io::Error::new(std::io::ErrorKind::NotFound, "no such corpus");
    assert_eq!(SearchError::Io(io).message(), "cannot read corpus file: no such corpus");
}

#[test]
fn io_errors_convert() {
    let io = std::io::Error::new(std::io::ErrorKind::Other, "boom");
    let e: SearchError = io.into();
    assert!(matches!(e, SearchError::Io(_)));
}

#[test]
fn io_message_prefixes_the_error_text() {
    assert_eq!(md_doc_search::io_message("gone"), "cannot read corpus file: gone");
    assert_eq!(md_doc_search::io_message(""), "cannot read corpus file: ");
}
