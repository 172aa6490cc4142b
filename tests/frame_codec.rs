use frame_conn::frame::{Checked, Frame, Parsed, write_decimal};

fn encoded(f: &Frame) -> Vec<u8> {
    let mut out = Vec::new();
    f.encode(&mut out);
    out
}

fn round_trip(f: Frame) {
    let bytes = encoded(&f);
    assert_eq!(Frame::check(&bytes), Checked::Complete(bytes.len()));
    assert_eq!(Frame::parse(&bytes), Parsed::Complete(f, bytes.len()));
}

#[test]
fn simple_round_trip() {
    round_trip(Frame::Simple("OK".to_string()));
    round_trip(Frame::Simple(String::new()));
    round_trip(Frame::Simple("caf\u{e9} \u{1f600}".to_string()));
}

#[test]
fn error_round_trip() {
    round_trip(Frame::Error("ERR unknown command".to_string()));
}

#[test]
fn integer_round_trip_boundaries() {
    round_trip(Frame::Integer(0));
    round_trip(Frame::Integer(u64::MAX));
    round_trip(Frame::Integer(1000));
}

#[test]
fn null_and_bulk_round_trip() {
    round_trip(Frame::Null);
    round_trip(Frame::Bulk(Vec::new()));
    round_trip(Frame::Bulk(b"hello\r\nworld".to_vec()));
}

#[test]
fn array_round_trip() {
    round_trip(Frame::Array(Vec::new()));
    round_trip(Frame::Array(vec![
        Frame::Bulk(b"get".to_vec()),
        Frame::Integer(7),
        Frame::Array(vec![Frame::Null, Frame::Simple("x".to_string())]),
    ]));
}

#[test]
fn encodings_are_exact() {
    assert_eq!(encoded(&Frame::Simple("OK".to_string())), b"+OK\r\n".to_vec());
    assert_eq!(encoded(&Frame::Error("bad".to_string())), b"-bad\r\n".to_vec());
    assert_eq!(encoded(&Frame::Integer(0)), b":0\r\n".to_vec());
    assert_eq!(encoded(&Frame::Integer(u64::MAX)), b":18446744073709551615\r\n".to_vec());
    assert_eq!(encoded(&Frame::Null), b"$-1\r\n".to_vec());
    assert_eq!(encoded(&Frame::Bulk(b"hello".to_vec())), b"$5\r\nhello\r\n".to_vec());
    assert_eq!(
        encoded(&Frame::Array(vec![Frame::Integer(1), Frame::Bulk(b"ab".to_vec())])),
        b"*2\r\n:1\r\n$2\r\nab\r\n".to_vec()
    );
}

#[test]
fn bulk_encoding_has_length_then_payload() {
    let payload: Vec<u8> = (0..300u32).map(|i| (i % 251) as u8).collect();
    let bytes = encoded(&Frame::Bulk(payload.clone()));
    let mut expected = b"$300\r\n".to_vec();
    expected.extend_from_slice(&payload);
    expected.extend_from_slice(b"\r\n");
    assert_eq!(bytes, expected);
}

#[test]
fn write_decimal_appends_digits_and_delimiter() {
    let mut out = b"x".to_vec();
    write_decimal(9075, &mut out);
    assert_eq!(out, b"x9075\r\n".to_vec());
}

#[test]
fn declared_length_must_meet_the_delimiter() {
    assert_eq!(Frame::check(b"$3\r\nhello\r\n"), Checked::Malformed);
    assert_eq!(Frame::parse(b"$3\r\nhello\r\n"), Parsed::Malformed);
    assert_eq!(Frame::check(b"$7\r\nhello\r\n"), Checked::Incomplete);
}

#[test]
fn unknown_prefix_is_malformed() {
    assert_eq!(Frame::check(b"!bad\r\n"), Checked::Malformed);
    assert_eq!(Frame::parse(b"!bad\r\n"), Parsed::Malformed);
}

#[test]
fn bad_numbers_are_malformed() {
    assert_eq!(Frame::check(b":01\r\n"), Checked::Malformed);
    assert_eq!(Frame::check(b":\r\n"), Checked::Malformed);
    assert_eq!(Frame::check(b":1a\r\n"), Checked::Malformed);
    assert_eq!(Frame::check(b":18446744073709551616\r\n"), Checked::Malformed);
    assert_eq!(Frame::check(b"$-2\r\n"), Checked::Malformed);
    assert_eq!(Frame::check(b"*x\r\n"), Checked::Malformed);
}

#[test]
fn invalid_utf8_text_is_malformed() {
    assert_eq!(Frame::check(b"+\xff\xfe\r\n"), Checked::Malformed);
    assert_eq!(Frame::parse(b"-\xc3\r\n"), Parsed::Malformed);
}

#[test]
fn multibyte_text_is_decoded() {
    assert_eq!(
        Frame::parse("+h\u{e9}\r\n".as_bytes()),
        Parsed::Complete(Frame::Simple("h\u{e9}".to_string()), 6)
    );
}

#[test]
fn every_proper_prefix_is_incomplete() {
    let f = Frame::Array(vec![
        Frame::Simple("a\rb".to_string()),
        Frame::Bulk(b"xyz".to_vec()),
        Frame::Null,
        Frame::Integer(42),
    ]);
    let bytes = encoded(&f);
    for k in 0..bytes.len() {
        assert_eq!(Frame::check(&bytes[..k]), Checked::Incomplete);
        assert_eq!(Frame::parse(&bytes[..k]), Parsed::Incomplete);
    }
    assert_eq!(Frame::check(&bytes), Checked::Complete(bytes.len()));
}

#[test]
fn trailing_bytes_are_left_alone() {
    let mut bytes = encoded(&Frame::Integer(5));
    bytes.extend_from_slice(b"+next\r\n");
    assert_eq!(Frame::check(&bytes), Checked::Complete(4));
    assert_eq!(Frame::parse(&bytes), Parsed::Complete(Frame::Integer(5), 4));
}
