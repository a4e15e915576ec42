use http_core::encoding::{parse_accept_encoding, scan_accept_encoding, Encoding, EncodingVal};

#[test]
fn test_re() {
    assert!(!scan_accept_encoding("encoding-1").is_empty());

    let cc: Vec<String> = scan_accept_encoding("encoding-1, gzip")
        .into_iter()
        .map(|e| e.0)
        .collect();

    assert_eq!(cc, vec!["encoding-1", "gzip"])
}

#[test]
fn parse_known_tokens() {
    let m = parse_accept_encoding("gzip, deflate, br");
    assert!(m.contains_key(Encoding::Gzip));
    assert!(m.contains_key(Encoding::Deflate));
    assert!(m.contains_key(Encoding::Br));
    assert!(!m.contains_key(Encoding::Zstd));
    assert!(!m.contains_key(Encoding::Identity));
}

#[test]
fn parse_quality_weights() {
    let m = parse_accept_encoding("gzip;q=0.5, identity;q=0, br;q=1.0, zstd");
    assert_eq!(
        m.get(Encoding::Gzip),
        Some(EncodingVal { encoding: Encoding::Gzip, quality: 500 })
    );
    assert_eq!(
        m.get(Encoding::Identity),
        Some(EncodingVal { encoding: Encoding::Identity, quality: 0 })
    );
    assert_eq!(
        m.get(Encoding::Br),
        Some(EncodingVal { encoding: Encoding::Br, quality: 1000 })
    );
    assert_eq!(
        m.get(Encoding::Zstd),
        Some(EncodingVal { encoding: Encoding::Zstd, quality: 1000 })
    );
}

#[test]
fn unknown_tokens_are_skipped() {
    let m = parse_accept_encoding("frobnicate, gzip, x-unknown;q=0.1");
    assert!(m.contains_key(Encoding::Gzip));
    assert_eq!(m.len(), 1);
}

#[test]
fn malformed_quality_falls_back_to_one() {
    // `;q=2` is no quality, so the token keeps quality one and the scanner
    // walks on over the leftovers
    let m = parse_accept_encoding("gzip;q=2");
    assert_eq!(
        m.get(Encoding::Gzip),
        Some(EncodingVal { encoding: Encoding::Gzip, quality: 1000 })
    );
}

#[test]
fn duplicate_tokens_overwrite() {
    let m = parse_accept_encoding("gzip;q=0.1, gzip;q=0.9");
    assert_eq!(
        m.get(Encoding::Gzip),
        Some(EncodingVal { encoding: Encoding::Gzip, quality: 900 })
    );
    assert_eq!(m.len(), 1);
}

#[test]
fn wildcard_and_spacing() {
    let m = parse_accept_encoding("*;  q=0.8, compress");
    assert_eq!(
        m.get(Encoding::Any),
        Some(EncodingVal { encoding: Encoding::Any, quality: 800 })
    );
    assert!(m.contains_key(Encoding::Compress));
}

#[test]
fn scan_reads_fractions_to_thousandths() {
    let entries = scan_accept_encoding("gzip;q=0.25");
    assert_eq!(entries.len(), 1);
    assert_eq!(entries[0].0, "gzip");
    assert_eq!(entries[0].1, 250);
}

#[test]
fn encoding_token_round_trip() {
    assert_eq!(Encoding::parse("gzip"), Some(Encoding::Gzip));
    assert_eq!(Encoding::parse("identity"), Some(Encoding::Identity));
    assert_eq!(Encoding::parse("*"), Some(Encoding::Any));
    assert_eq!(Encoding::parse("GZIP"), None);
    assert_eq!(Encoding::Gzip.token(), "gzip");
    assert_eq!(Encoding::Any.token(), "*");
}
