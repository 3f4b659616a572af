use mailcheck::events::MessageParserEvent;
use mailcheck::header_decoder::decode_header_event;
use mailcheck::rfc2047::{b_decode, q_decode, FromRFC2047};

#[test]
fn ascii_q_test() {
    let x = "=?utf8?q?test?=";
    assert_eq!("test".to_string(), x.from_rfc2047());
}

#[test]
fn utf8_q_test() {
    let x = "=?utf8?q?test_test=40?=";
    assert_eq!("test test@".to_string(), x.from_rfc2047());
}

#[test]
fn utf8_b_test() {
    let y = "=?UTF8?B?55+l5bex55+l5b2877yM55m+5oiw5LiN5q6G44CC?=";
    assert_eq!("知己知彼，百戰不殆。".to_string(), y.from_rfc2047());
}

#[test]
fn multiword_test() {
    let x = "(=?ISO-8859-1?Q?a?= b)";
    assert_eq!("(a b)".to_string(), x.from_rfc2047());

    let y = "(=?ISO-8859-1?Q?a?= =?ISO-8859-1?Q?b?=)";
    assert_eq!("(ab)".to_string(), y.from_rfc2047());
}

#[test]
fn invalid_test() {
    let x = "test";
    assert_eq!("test".to_string(), x.from_rfc2047());
}

#[test]
fn unsupported_encoding_test() {
    let x = "=?utf8?z?test?=";
    assert_eq!("=?utf8?z?test?=".to_string(), x.from_rfc2047());
}

#[test]
fn q_decode_test() {
    assert_eq!(q_decode("a_b=41"), b"a b\x41".to_vec());
    assert_eq!(q_decode("=zz"), b"=zz".to_vec());
}

#[test]
fn b_decode_test() {
    assert_eq!(b_decode("dGVzdA=="), Some(b"test".to_vec()));
    assert_eq!(b_decode("@@"), None);
}

#[test]
fn decoded_header_event_test() {
    let event = MessageParserEvent::Header(
        "Subject".to_string(),
        "=?utf8?q?hi_there?=".to_string(),
        b"Subject: =?utf8?q?hi_there?=\r\n".to_vec(),
    );
    match decode_header_event(event) {
        MessageParserEvent::Header(n, v, raw) => {
            assert_eq!(n, "Subject");
            assert_eq!(v, "hi there");
            assert_eq!(raw, b"Subject: =?utf8?q?hi_there?=\r\n".to_vec());
        },
        _ => panic!("not a header"),
    }
}
