use turbo_rag::error::TurboError;

#[test]
fn errors_read_as_they_should() {
    let d = || "why".to_string();
    assert_eq!(TurboError::Embedding(d()).message(), "embedding error: why");
    assert_eq!(TurboError::Blob(d()).message(), "blob error: why");
    assert_eq!(TurboError::Store(d()).message(), "store error: why");
    assert_eq!(TurboError::Pipeline(d()).message(), "pipeline error: why");
    assert_eq!(TurboError::NotFound(d()).message(), "not found: why");
    assert_eq!(
        TurboError::UnsupportedSearchType(d()).message(),
        "unsupported search type for this backend: why"
    );
    assert_eq!(TurboError::Io(d()).message(), "why");
    assert_eq!(TurboError::Other(d()).message(), "why");
}
