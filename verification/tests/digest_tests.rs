use artifact_cache::cache::Cache;
use artifact_cache::digest::Sha256Digest;

#[test]
fn digest_hex_is_zero_padded_lower_case() {
    assert_eq!(
        Sha256Digest::from(42u64).to_hex(),
        "000000000000000000000000000000000000000000000000000000000000002a"
    );
}

#[test]
fn digest_hex_of_zero() {
    assert_eq!(
        Sha256Digest::from(0u64).to_hex(),
        "0000000000000000000000000000000000000000000000000000000000000000"
    );
}

#[test]
fn digest_hex_of_all_ones_word() {
    assert_eq!(
        Sha256Digest::from(u64::MAX).to_hex(),
        "000000000000000000000000000000000000000000000000ffffffffffffffff"
    );
}

#[test]
fn digest_hex_covers_all_words() {
    let d = Sha256Digest::from_words(
        0x0123456789abcdef,
        0xfedcba9876543210,
        0x0f1e2d3c4b5a6978,
        0x1111222233334444,
    );
    assert_eq!(
        d.to_hex(),
        "0123456789abcdeffedcba98765432100f1e2d3c4b5a69781111222233334444"
    );
}

#[test]
fn digests_compare_by_value() {
    assert_eq!(Sha256Digest::from(5u64), Sha256Digest::from(5u64));
    assert_ne!(Sha256Digest::from(5u64), Sha256Digest::from(6u64));
}

#[test]
fn cache_path_names_artifact_directory() {
    let d = Sha256Digest::from(42u64);
    assert_eq!(
        Cache::cache_path("/cache/root", &d),
        format!(
            "/cache/root/sha256/{}",
            "000000000000000000000000000000000000000000000000000000000000002a"
        )
    );
}
