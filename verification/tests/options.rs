use dir_archive::options::{CompressionMethod, Options};

#[test]
fn default_options_store_without_compression() {
    assert_eq!(Options::default().compression_method, CompressionMethod::Stored);
    assert_eq!(Options::default(), Options::stored());
}

#[test]
fn options_keep_the_method_they_were_made_with() {
    let deflated = Options::with_compression_method(CompressionMethod::Deflated);
    assert_eq!(deflated.compression_method, CompressionMethod::Deflated);
    assert_ne!(deflated, Options::stored());
    assert_eq!(Options::with_compression_method(CompressionMethod::Stored), Options::stored());
}
