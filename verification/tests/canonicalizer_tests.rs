use mailcheck::canonicalizer::{
    AnyBodyCanonicalizer, Canonicalizer, CanonicalizationType, RelaxedBodyCanonicalizer,
    RelaxedHeaderCanonicalizer, SimpleBodyCanonicalizer, SimpleHeaderCanonicalizer,
};

#[test]
fn test_simple_body_canonicalization() {
    let mut canon = SimpleBodyCanonicalizer::new();

    let mut result: Vec<u8> = vec![];

    result.extend(canon.canonicalize(&b"Test\r\nTest \r\n\r\n".to_vec()));
    result.extend(canon.canonicalize(&b"\r\none  last  line\r\n\r\n".to_vec()));
    result.extend(canon.flush());

    assert_eq!(
        "Test\r\nTest \r\n\r\n\r\none  last  line\r\n",
        std::str::from_utf8(&result).unwrap()
    );
}

#[test]
fn test_relaxed_body_canonicalization() {
    let mut canon = RelaxedBodyCanonicalizer::new();

    let mut result: Vec<u8> = vec![];

    result.extend(canon.canonicalize(&b"Test\r\nTest \r\n\r\n".to_vec()));
    result.extend(canon.canonicalize(&b"\r\none  last \t line\r\n\r\n".to_vec()));
    result.extend(canon.flush());

    assert_eq!(
        "Test\r\nTest\r\n\r\n\r\none last line\r\n",
        std::str::from_utf8(&result).unwrap()
    );
}

#[test]
fn test_simple_header_canonicalization() {
    let raw = b"Test-Header: Test-Value\r\n   test";
    let name = "Test-Header".to_string();
    let value = "Test-Value\r\n   test".to_string();

    let mut canon = SimpleHeaderCanonicalizer::new();

    let result = canon.canonicalize(name, value, raw.to_vec());

    assert_eq!(std::str::from_utf8(raw).ok(), std::str::from_utf8(&result).ok());
}

#[test]
fn test_relaxed_header_canonicalization() {
    let raw = b"Test-Header: Test-Value\r\n   test";
    let name = "Test-Header".to_string();
    let value = "Test-Value\r\n   test".to_string();

    let mut canon = RelaxedHeaderCanonicalizer::new();

    let result = canon.canonicalize(name, value, raw.to_vec());

    assert_eq!(
        std::str::from_utf8(b"test-header:Test-Value test\r\n").ok(),
        std::str::from_utf8(&result).ok()
    );
}

fn canonicalize_whole(canon: &mut SimpleBodyCanonicalizer, input: &[u8]) -> Vec<u8> {
    let mut out = canon.canonicalize(&input.to_vec());
    out.extend(canon.flush());
    out
}

#[test]
fn simple_body_canonicalization_idempotent_test() {
    let mut first = SimpleBodyCanonicalizer::new();
    let once = canonicalize_whole(&mut first, b"Test\r\nTest \r\n\r\n\r\n");
    let mut second = SimpleBodyCanonicalizer::new();
    let twice = canonicalize_whole(&mut second, &once);
    assert_eq!(once, twice);
    assert!(once.ends_with(b"\r\n"));
    assert!(!once[..once.len() - 2].ends_with(b"\r\n"));
}

#[test]
fn simple_body_canonicalization_empty_test() {
    let mut canon = SimpleBodyCanonicalizer::new();
    let out = canonicalize_whole(&mut canon, b"");
    assert_eq!(out, b"\r\n".to_vec());
}

#[test]
fn relaxed_body_canonicalization_idempotent_test() {
    let mut first = RelaxedBodyCanonicalizer::new();
    let mut once = first.canonicalize(&b"one  two\r\n\r\nthree \r\n\r\n".to_vec());
    once.extend(first.flush());
    let mut second = RelaxedBodyCanonicalizer::new();
    let mut twice = second.canonicalize(&once);
    twice.extend(second.flush());
    assert_eq!(once, twice);
}

#[test]
fn simple_body_split_crlf_chunks_test() {
    // The same bytes, chunked so a CRLF straddles the boundary, must
    // canonicalize to the same output in total.
    let mut one = SimpleBodyCanonicalizer::new();
    let mut out_one = one.canonicalize(&b"Body\r\n\r\n".to_vec());
    out_one.extend(one.flush());

    let mut two = SimpleBodyCanonicalizer::new();
    let mut out_two = two.canonicalize(&b"Body\r\n\r".to_vec());
    out_two.extend(two.canonicalize(&b"\n".to_vec()));
    out_two.extend(two.flush());

    assert_eq!(out_one, out_two);
    assert_eq!(out_one, b"Body\r\n".to_vec());
}

#[test]
fn canonicalizer_dispatch_test() {
    let mut body = Canonicalizer::body(CanonicalizationType::Relaxed);
    let mut out = body.canonicalize(&b"a  b\r\n".to_vec());
    out.extend(AnyBodyCanonicalizer::flush(&mut body));
    assert_eq!(out, b"a b\r\n".to_vec());

    let mut head = Canonicalizer::head(CanonicalizationType::Simple);
    let got = head.canonicalize("N".to_string(), "v".to_string(), b"N: v\r\n".to_vec());
    assert_eq!(got, b"N: v\r\n".to_vec());
}
