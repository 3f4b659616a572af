use mailcheck::canonicalizer::CanonicalizationType::{Relaxed, Simple};
use mailcheck::dkim::{
    parse_canonicalization, parse_dkim_signature, parse_dkim_tag, unwrap_string_tag_value,
    unwrap_tag_value, unwrap_uint_tag_value, DkimSignature, DkimSignatureParseError,
    DkimVerifier, HashAlgorithm,
};
use mailcheck::text::parse_u32;

fn tags(c_value: &str) -> Vec<(String, String)> {
    vec![("c".to_string(), c_value.to_string())]
}

#[test]
fn test_parse_canonicalization() {
    assert!(match parse_canonicalization(&tags("simple/simple")) {
        Ok((Simple, Simple)) => true,
        x => {
            println!("{:?}", x);
            false
        },
    });
    assert!(match parse_canonicalization(&tags("relaxed/relaxed")) {
        Ok((Relaxed, Relaxed)) => true,
        x => {
            println!("{:?}", x);
            false
        },
    });
    assert!(match parse_canonicalization(&tags("simple")) {
        Ok((Simple, Simple)) => true,
        x => {
            println!("{:?}", x);
            false
        },
    });
    assert!(match parse_canonicalization(&tags("relaxed")) {
        Ok((Relaxed, Simple)) => true,
        x => {
            println!("{:?}", x);
            false
        },
    });
    assert!(match parse_canonicalization(&Vec::new()) {
        Ok((Simple, Simple)) => true,
        x => {
            println!("{:?}", x);
            false
        },
    });
}

#[test]
fn bad_canonicalization_test() {
    match parse_canonicalization(&tags("foo")) {
        Err(DkimSignatureParseError::BadCanonicalization(t)) => assert_eq!(t, "foo"),
        x => panic!("unexpected: {:?}", x),
    }
    match parse_canonicalization(&tags("simple/")) {
        Err(DkimSignatureParseError::BadCanonicalization(t)) => assert_eq!(t, ""),
        x => panic!("unexpected: {:?}", x),
    }
}

#[test]
fn parse_dkim_tag_test() {
    let (name, value) = parse_dkim_tag(" a = b=c ").unwrap();
    assert_eq!(name, "a ");
    assert_eq!(value, " b=c");
    match parse_dkim_tag("  nonsense  ") {
        Err(DkimSignatureParseError::BadTag(t)) => assert_eq!(t, "nonsense"),
        x => panic!("unexpected: {:?}", x),
    }
}

#[test]
fn parse_dkim_signature_test() {
    let tags = parse_dkim_signature("a=1; b= 2 ;c=x=y;;;").unwrap();
    assert_eq!(
        tags,
        vec![
            ("a".to_string(), "1".to_string()),
            ("b".to_string(), " 2".to_string()),
            ("c".to_string(), "x=y".to_string()),
        ]
    );
    match parse_dkim_signature("a=1; oops; b=2") {
        Err(DkimSignatureParseError::BadTag(t)) => assert_eq!(t, "oops"),
        x => panic!("unexpected: {:?}", x),
    }
}

#[test]
fn tag_round_trip_test() {
    let first = parse_dkim_signature("a=1; b=2 ; c=x=y").unwrap();
    let mut wire = String::new();
    for (name, value) in first.iter() {
        wire.push_str(name);
        wire.push('=');
        wire.push_str(value);
        wire.push(';');
    }
    let second = parse_dkim_signature(&wire).unwrap();
    for probe in ["a", "b", "c", "d"] {
        let x = unwrap_tag_value(&first, probe);
        let y = unwrap_tag_value(&second, probe);
        assert_eq!(x, y);
    }
}

#[test]
fn tag_lookup_last_wins_test() {
    let tags = parse_dkim_signature("a=1; a=2").unwrap();
    assert_eq!(unwrap_tag_value(&tags, "a"), Some("2".to_string()));
    assert_eq!(unwrap_tag_value(&tags, "b"), None);
    assert_eq!(unwrap_uint_tag_value(&tags, "a").unwrap(), 2);
    match unwrap_string_tag_value(&tags, "z") {
        Err(DkimSignatureParseError::MissingTag(t)) => assert_eq!(t, "z"),
        x => panic!("unexpected: {:?}", x),
    }
}

#[test]
fn parse_u32_test() {
    assert_eq!(parse_u32("0"), Some(0));
    assert_eq!(parse_u32("42"), Some(42));
    assert_eq!(parse_u32("4294967295"), Some(u32::MAX));
    assert_eq!(parse_u32("4294967296"), None);
    assert_eq!(parse_u32(""), None);
    assert_eq!(parse_u32("1a"), None);
    assert_eq!(parse_u32("-1"), None);
}

#[test]
fn parse_signature_fields_test() {
    let sig = DkimSignature::parse(
        "v=1; a=rsa-sha1; b=A bC\td; bh= x\ty ; d=ex.com; h=from:to:from; s=sel; t=42; x=43; l=100; i=me@ex.com; q=dns/txt; z=Z; c=relaxed",
    )
    .unwrap();
    assert_eq!(sig.version, 1);
    assert!(matches!(sig.hash_type, HashAlgorithm::Sha1));
    assert_eq!(sig.signature, "AbCd");
    assert_eq!(sig.body_hash, "xy");
    assert_eq!(sig.sdid, "ex.com");
    assert_eq!(sig.header_fields, vec!["from", "to", "from"]);
    assert_eq!(sig.selector, "sel");
    assert_eq!(sig.timestamp, Some(42));
    assert_eq!(sig.expiration, Some(43));
    assert_eq!(sig.body_length, Some(100));
    assert!(matches!(sig.header_canon, Relaxed));
    assert!(matches!(sig.body_canon, Simple));
    assert_eq!(sig.auid, Some("me@ex.com".to_string()));
    assert_eq!(sig.query_methods, Some("dns/txt".to_string()));
    assert_eq!(sig.copied_header_fields, Some("Z".to_string()));
}

#[test]
fn parse_signature_errors_test() {
    match DkimSignature::parse("a=rsa-sha256; b=x; bh=y; d=d; h=h; s=s") {
        Err(DkimSignatureParseError::MissingTag(t)) => assert_eq!(t, "v"),
        x => panic!("unexpected: {:?}", x),
    }
    match DkimSignature::parse("v=1; b=x; bh=y; d=d; h=h; s=s") {
        Err(DkimSignatureParseError::MissingTag(t)) => assert_eq!(t, "a"),
        x => panic!("unexpected: {:?}", x),
    }
    match DkimSignature::parse("v=1; a=rsa-md5; b=x; bh=y; d=d; h=h; s=s") {
        Err(DkimSignatureParseError::BadHashAlgorithm(t)) => assert_eq!(t, "rsa-md5"),
        x => panic!("unexpected: {:?}", x),
    }
    match DkimSignature::parse("v=1; a=rsa-sha256; b=x; bh=y; d=d; h=h; s=s; c=foo") {
        Err(DkimSignatureParseError::BadCanonicalization(t)) => assert_eq!(t, "foo"),
        x => panic!("unexpected: {:?}", x),
    }
    match DkimSignature::parse("") {
        Err(DkimSignatureParseError::BadTag(t)) => assert_eq!(t, ""),
        x => panic!("unexpected: {:?}", x),
    }
}

fn signature_with(alg: &str, bh: &str, extra: &str) -> DkimSignature {
    let text = format!(
        "v=1; a={}; b=AbCd; bh={}; d=example.com; h=from:to; s=sel{}",
        alg, bh, extra
    );
    DkimSignature::parse(&text).unwrap()
}

#[test]
fn body_hash_sha256_test() {
    let sig = signature_with("rsa-sha256", "fdkeB/A0FkbVP2k4J4pNPoeWH6vqBm9+b0C3OY87Cw8=", "");
    let mut verifier = DkimVerifier::new(sig);
    verifier.update_body(&b"Test\r\n".to_vec()).unwrap();
    let results = verifier.finalize_body().unwrap();
    assert!(results.body_hash_ok);
}

#[test]
fn body_hash_sha1_test() {
    let sig = signature_with("rsa-sha1", "WAB3bZtTHYLitirqQFGpaOBbkVY=", "");
    let mut verifier = DkimVerifier::new(sig);
    verifier.update_body(&b"Test\r\n".to_vec()).unwrap();
    let results = verifier.finalize_body().unwrap();
    assert!(results.body_hash_ok);
}

#[test]
fn body_hash_mismatch_test() {
    let sig = signature_with("rsa-sha256", "AAAAB/A0FkbVP2k4J4pNPoeWH6vqBm9+b0C3OY87Cw8=", "");
    let mut verifier = DkimVerifier::new(sig);
    verifier.update_body(&b"Test\r\n".to_vec()).unwrap();
    let results = verifier.finalize_body().unwrap();
    assert!(!results.body_hash_ok);
}

#[test]
fn body_hash_chunking_test() {
    // A CRLF split across two chunks reaches the hash the same way.
    let sig = signature_with("rsa-sha256", "fdkeB/A0FkbVP2k4J4pNPoeWH6vqBm9+b0C3OY87Cw8=", "");
    let mut verifier = DkimVerifier::new(sig);
    verifier.update_body(&b"Test\r".to_vec()).unwrap();
    verifier.update_body(&b"\n".to_vec()).unwrap();
    let results = verifier.finalize_body().unwrap();
    assert!(results.body_hash_ok);
}

#[test]
fn body_length_limit_test() {
    // With l=5 only the first five canonicalized bytes are hashed,
    // whatever else streams in.
    let sig = signature_with("rsa-sha256", "KCUDYh74+flYXTn9al83JsyOBrUP9b07hSy8u6j/Qqs=", "; l=5");
    let mut verifier = DkimVerifier::new(sig);
    verifier.update_body(&b"Test\r\n".to_vec()).unwrap();
    verifier.update_body(&b"more bytes beyond the limit".to_vec()).unwrap();
    let results = verifier.finalize_body().unwrap();
    assert!(results.body_hash_ok);
}

#[test]
fn body_hash_relaxed_test() {
    let sig = signature_with(
        "rsa-sha256",
        "C2B4ZsGWEBs9qRd2CyQS5K2QoCiHOtItYBjlcK/sokE=",
        "; c=relaxed/relaxed",
    );
    let mut verifier = DkimVerifier::new(sig);
    verifier.update_body(&b"Test\r\nTest \r\n\r\n".to_vec()).unwrap();
    verifier.update_body(&b"\r\none  last \t line\r\n\r\n".to_vec()).unwrap();
    let results = verifier.finalize_body().unwrap();
    assert!(results.body_hash_ok);
}

#[test]
fn add_header_canonicalization_test() {
    let sig = signature_with("rsa-sha256", "x", "; c=relaxed/simple");
    let mut verifier = DkimVerifier::new(sig);
    verifier.add_header(
        "Test-Header".to_string(),
        "Test-Value\r\n   test".to_string(),
        b"Test-Header: Test-Value\r\n   test".to_vec(),
    );
    assert_eq!(
        verifier.canonicalized_headers(),
        &b"test-header:Test-Value test\r\n".to_vec()
    );
}

#[test]
fn iso_b_multiline_test() {
}
