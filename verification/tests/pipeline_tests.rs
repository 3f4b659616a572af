use mailcheck::dkim_checker::DkimChecker;
use mailcheck::events::MessageParserEvent::{
    BodyChunk, EndOfHeaders, Header, HeaderName, HeaderValue, End, ParseError,
};
use mailcheck::events::{MessageParserEvent, MessageParserFilter};
use mailcheck::header_parser::HeaderParser;
use mailcheck::message_parser_sink::MessageParserSink;
use mailcheck::message_scanner::MessageScanner;
use mailcheck::reader_parser::ReaderParser;

fn run_header_pipeline(msg: &str) -> Vec<MessageParserEvent> {
    let sink = MessageParserSink::new();
    let parser: HeaderParser<MessageParserSink> = MessageParserFilter::new(sink);
    let scanner: MessageScanner<_> = MessageParserFilter::new(parser);
    let mut rp = ReaderParser::new(scanner, msg.as_bytes().to_vec());
    rp.read_to_end();
    rp.next_stage().next_stage().next_stage().events()
}

#[test]
fn header_parser_parser_test() {
    let s = "Header1: Value1\r\nHeader2: Value2\r\n\r\nBody".to_string();

    let expected_events = vec![
        HeaderName("Header1:".to_string()),
        HeaderValue(" Value1\r\n".to_string()),
        Header(
            "Header1".to_string(),
            "Value1".to_string(),
            "Header1: Value1\r\n".bytes().collect(),
        ),
        HeaderName("Header2:".to_string()),
        HeaderValue(" Value2\r\n".to_string()),
        Header(
            "Header2".to_string(),
            "Value2".to_string(),
            "Header2: Value2\r\n".bytes().collect(),
        ),
        EndOfHeaders,
        BodyChunk(vec![66, 111, 100, 121]),
        End,
    ];

    let actual = run_header_pipeline(&s);
    let zipped = expected_events.iter().zip(actual.iter());

    for (expected, actual) in zipped {
        assert_eq!(expected, actual);
    }
    assert_eq!(expected_events.len(), actual.len());
}

#[test]
fn dkim_checker_parser_test() {
    let s = "\nHeader1: Value1\nHeader2: Value2\nDKIM-Signature: test_signature\n\nBody"
        .to_string();

    let expected_events: Vec<MessageParserEvent> = vec![];

    let sink = MessageParserSink::new();
    let dkim: DkimChecker<MessageParserSink> = MessageParserFilter::new(sink);
    let parser: HeaderParser<_> = MessageParserFilter::new(dkim);
    let scanner: MessageScanner<_> = MessageParserFilter::new(parser);
    let mut rp = ReaderParser::new(scanner, s.as_bytes().to_vec());
    rp.read_to_end();

    let sink_ref = rp.next_stage().next_stage().next_stage().next_stage();
    for e in expected_events.iter() {
        assert!(sink_ref.contains(e));
    }
}

#[test]
fn dkim_checker_swallows_signature_header_test() {
    // The checker keeps the DKIM-Signature header to itself and forwards
    // everything else.
    let s = "A: 1\r\nDKIM-Signature: v=1\r\nB: 2\r\n\r\nxy".to_string();
    let sink = MessageParserSink::new();
    let dkim: DkimChecker<MessageParserSink> = MessageParserFilter::new(sink);
    let parser: HeaderParser<_> = MessageParserFilter::new(dkim);
    let scanner: MessageScanner<_> = MessageParserFilter::new(parser);
    let mut rp = ReaderParser::new(scanner, s.as_bytes().to_vec());
    rp.read_to_end();
    let events = rp.next_stage().next_stage().next_stage().next_stage().events();
    for e in events.iter() {
        if let Header(name, _, _) = e {
            assert_ne!(name, "DKIM-Signature");
        }
    }
    assert!(events.contains(&Header("B".to_string(), "2".to_string(), "B: 2\r\n".bytes().collect())));
}

#[test]
fn two_signatures_test() {
    // Each DKIM-Signature header gets its own verifier; outcomes come in
    // signature order.
    let good = "v=1; a=rsa-sha256; b=AbCd; bh=fdkeB/A0FkbVP2k4J4pNPoeWH6vqBm9+b0C3OY87Cw8=; d=example.com; h=from:to; s=sel";
    let bad = "v=1; a=rsa-sha256; b=AbCd; bh=nope; d=example.com; h=from:to; s=sel";
    let sink = MessageParserSink::new();
    let mut dkim: DkimChecker<MessageParserSink> = MessageParserFilter::new(sink);
    dkim.consume(Header(
        "DKIM-Signature".to_string(),
        good.to_string(),
        b"DKIM-Signature: ...\r\n".to_vec(),
    ));
    dkim.consume(Header(
        "DKIM-Signature".to_string(),
        bad.to_string(),
        b"DKIM-Signature: ...\r\n".to_vec(),
    ));
    dkim.consume(BodyChunk(b"Test\r\n".to_vec()));
    dkim.consume(End);
    let results = dkim.results();
    assert_eq!(results.len(), 2);
    assert!(results[0].as_ref().unwrap().body_hash_ok);
    assert!(!results[1].as_ref().unwrap().body_hash_ok);
}

#[test]
fn folded_header_test() {
    // A folded continuation line stays inside one header value, with the
    // original bytes kept in the raw field.
    let s = "Header1: Line1\r\n\t  Line2\r\n\r\nBody".to_string();
    let actual = run_header_pipeline(&s);

    let values: Vec<&MessageParserEvent> = actual
        .iter()
        .filter(|e| matches!(e, HeaderValue(_)))
        .collect();
    assert_eq!(values.len(), 1);
    assert_eq!(values[0], &HeaderValue(" Line1\r\n\t  Line2\r\n".to_string()));
    assert!(actual.contains(&Header(
        "Header1".to_string(),
        "Line1\r\n\t  Line2".to_string(),
        "Header1: Line1\r\n\t  Line2\r\n".bytes().collect(),
    )));
}

#[test]
fn raw_concatenation_test() {
    // The raw fields of the Header events, put together, are the original
    // header block without the blank line.
    let s = "A: 1\r\nB:  2\r\n  2b\r\n\r\nbody".to_string();
    let actual = run_header_pipeline(&s);
    let mut raws: Vec<u8> = vec![];
    for e in actual.iter() {
        if let Header(_, _, raw) = e {
            raws.extend(raw.iter().copied());
        }
    }
    assert_eq!(raws, b"A: 1\r\nB:  2\r\n  2b\r\n".to_vec());
}

#[test]
fn at_most_one_end_of_headers_test() {
    let s = "A: 1\r\n\r\nbody\r\n\r\nmore\r\n\r\n".to_string();
    let actual = run_header_pipeline(&s);
    let count = actual.iter().filter(|e| matches!(e, EndOfHeaders)).count();
    assert_eq!(count, 1);
    for (i, e) in actual.iter().enumerate() {
        if matches!(e, HeaderValue(_)) {
            assert!(i > 0);
            assert!(matches!(actual[i - 1], HeaderName(_)));
        }
    }
}

#[test]
fn truncated_message_test() {
    let actual = run_header_pipeline("A: 1\r\n");
    assert_eq!(
        actual,
        vec![HeaderName("A:".to_string()), ParseError]
    );
}

#[test]
fn empty_message_test() {
    let actual = run_header_pipeline("");
    assert_eq!(actual, vec![ParseError]);
}

#[test]
fn lf_normalization_test() {
    // Bare LF line endings are read as CRLF ones.
    let with_lf = run_header_pipeline("A: 1\nB: 2\n\nBody");
    let with_crlf = run_header_pipeline("A: 1\r\nB: 2\r\n\r\nBody");
    assert_eq!(with_lf, with_crlf);
}

#[test]
fn bad_framing_test() {
    // A CR inside a header line that is not followed by LF is a framing
    // error.
    let actual = run_header_pipeline("A: 1\rX\r\n\r\nBody");
    assert!(actual.contains(&ParseError));
    assert!(!actual.contains(&EndOfHeaders));
}
