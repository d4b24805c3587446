use cached_compression::algorithm::Algorithm;
use cached_compression::text::chars_of;

#[test]
fn gzip_is_named_gzip() {
    assert_eq!(Algorithm::Gzip.name(), "gzip");
}

#[test]
fn from_name_knows_gzip_only() {
    assert_eq!(Algorithm::from_name("gzip"), Some(Algorithm::Gzip));
    assert_eq!(Algorithm::from_name("GZIP"), None);
    assert_eq!(Algorithm::from_name(" gzip"), None);
    assert_eq!(Algorithm::from_name("gzi"), None);
    assert_eq!(Algorithm::from_name("gzipp"), None);
    assert_eq!(Algorithm::from_name("deflate"), None);
    assert_eq!(Algorithm::from_name(""), None);
}

#[test]
fn name_and_from_name_round_trip() {
    assert_eq!(Algorithm::from_name(Algorithm::Gzip.name()), Some(Algorithm::Gzip));
    assert_eq!(Algorithm::from_chars(&chars_of("gzip")), Some(Algorithm::Gzip));
    assert_eq!(Algorithm::from_chars(&chars_of("gzib")), None);
}

#[test]
fn to_string_gives_the_token() {
    assert_eq!(Algorithm::Gzip.to_string(), "gzip");
}

#[test]
fn crate_root_offers_the_main_types() {
    let compression = cached_compression::CachedCompression::new();
    assert!(!compression.is_ready("a", cached_compression::Algorithm::Gzip));
}
