use resp::{
    decode_frame, frames_equal, BulkString, DecodeError, RespDecoder, RespDouble, RespEncoder, RespFrame,
    RespMap, RespNullBulkString, RespSet, SimpleError, SimpleString,
};

fn bytes(s: &str) -> Vec<u8> {
    s.as_bytes().to_vec()
}

fn integer(i: i64) -> RespFrame {
    RespFrame::Integer(i)
}

fn bulk(s: &str) -> RespFrame {
    RespFrame::BulkString(BulkString::new(bytes(s)))
}

fn simple(s: &str) -> RespFrame {
    RespFrame::SimpleString(SimpleString::new(s.to_string()))
}

fn round_trip(make: fn() -> RespFrame) {
    let wire = make().encode().expect("encodes");
    let back = decode_frame(&wire).expect("decodes");
    assert!(frames_equal(&back, &make()));
}

#[test]
fn decode_round_trips_scalars() {
    round_trip(|| simple("OK"));
    round_trip(|| simple(""));
    round_trip(|| RespFrame::Error(SimpleError::new("ERR wrong type".to_string())));
    round_trip(|| integer(0));
    round_trip(|| integer(-5));
    round_trip(|| integer(i64::MIN));
    round_trip(|| integer(i64::MAX));
    round_trip(|| bulk("foo"));
    round_trip(|| bulk(""));
    round_trip(|| RespFrame::NullBulkString(RespNullBulkString));
    round_trip(|| RespFrame::Boolean(true));
    round_trip(|| RespFrame::Boolean(false));
}

#[test]
fn decode_round_trips_containers() {
    round_trip(|| RespFrame::Array(vec![integer(1), bulk("a")]));
    round_trip(|| RespFrame::Array(Vec::new()));
    round_trip(|| RespFrame::Array(vec![RespFrame::Array(vec![simple("x")]), integer(-7)]));
    round_trip(|| {
        let mut map = RespMap::new();
        map.insert("a".to_string(), integer(1));
        map.insert("b".to_string(), RespFrame::Array(vec![bulk("z")]));
        RespFrame::RespMap(map)
    });
    round_trip(|| {
        let mut set = RespSet::new();
        set.insert(integer(1));
        set.insert(simple("1"));
        RespFrame::RespSet(set)
    });
}

#[test]
fn decode_through_trait() {
    let frame = <Vec<u8> as RespDecoder>::decode(bytes("*2\r\n:+1\r\n$1\r\na\r\n")).unwrap();
    assert!(frames_equal(&frame, &RespFrame::Array(vec![integer(1), bulk("a")])));
    let data = bytes("%1\r\n+a\r\n:+1\r\n");
    let frame = <&[u8] as RespDecoder>::decode(data.as_slice()).unwrap();
    assert_eq!(frame.encode(), Ok(data));
}

#[test]
fn decode_rejects_unknown_sigil() {
    assert_eq!(decode_frame(b"?x\r\n").err(), Some(DecodeError::InvalidSigil));
    assert_eq!(decode_frame(b"_\r\n").err(), Some(DecodeError::InvalidSigil));
}

#[test]
fn decode_rejects_malformed_length() {
    assert_eq!(decode_frame(b"*x\r\n").err(), Some(DecodeError::MalformedLength));
    assert_eq!(decode_frame(b"$01\r\na\r\n").err(), Some(DecodeError::MalformedLength));
    assert_eq!(decode_frame(b"$-2\r\n").err(), Some(DecodeError::MalformedLength));
}

#[test]
fn decode_rejects_non_canonical_values() {
    assert_eq!(decode_frame(b":5\r\n").err(), Some(DecodeError::MalformedValue));
    assert_eq!(decode_frame(b":+05\r\n").err(), Some(DecodeError::MalformedValue));
    assert_eq!(decode_frame(b":-0\r\n").err(), Some(DecodeError::MalformedValue));
    assert_eq!(decode_frame(b":+9223372036854775808\r\n").err(), Some(DecodeError::MalformedValue));
    assert_eq!(decode_frame(b"#x\r\n").err(), Some(DecodeError::MalformedValue));
}

#[test]
fn decode_rejects_truncated_frames() {
    assert_eq!(decode_frame(b"").err(), Some(DecodeError::Truncated));
    assert_eq!(decode_frame(b"$3\r\nfo").err(), Some(DecodeError::Truncated));
    assert_eq!(decode_frame(b"+OK").err(), Some(DecodeError::Truncated));
    assert_eq!(decode_frame(b"*2\r\n:+1\r\n").err(), Some(DecodeError::Truncated));
}

#[test]
fn decode_rejects_invalid_text() {
    assert_eq!(decode_frame(b"+\xff\r\n").err(), Some(DecodeError::InvalidText));
}

#[test]
fn decode_rejects_duplicates() {
    assert_eq!(decode_frame(b"~2\r\n:+1\r\n:+1\r\n").err(), Some(DecodeError::Duplicate));
    assert_eq!(
        decode_frame(b"%2\r\n+a\r\n:+1\r\n+a\r\n:+2\r\n").err(),
        Some(DecodeError::Duplicate)
    );
}

#[test]
fn decode_rejects_trailing_bytes() {
    assert_eq!(decode_frame(b":+1\r\nx").err(), Some(DecodeError::TrailingBytes));
}

#[test]
fn decode_round_trips_doubles() {
    let cases: [(bool, u64, i32); 10] = [
        (false, 15, -1),
        (true, 225, -2),
        (false, 15, 8),
        (true, 15, 8),
        (false, 1, -3),
        (false, 1, 8),
        (false, 0, 0),
        (true, 0, 0),
        (false, 1, 100),
        (false, 5, -324),
    ];
    for (negative, digits, exponent) in cases {
        let wire = RespDouble::new(negative, digits, exponent).encode().unwrap();
        let back = decode_frame(&wire).expect("decodes");
        assert!(frames_equal(
            &back,
            &RespFrame::Double(RespDouble::new(negative, digits, exponent))
        ));
    }
}

#[test]
fn decode_rejects_non_canonical_doubles() {
    assert_eq!(decode_frame(b",+1.50\r\n").err(), Some(DecodeError::MalformedValue));
    assert_eq!(decode_frame(b",1.5\r\n").err(), Some(DecodeError::MalformedValue));
    assert_eq!(decode_frame(b",+1.5e0\r\n").err(), Some(DecodeError::MalformedValue));
    assert_eq!(decode_frame(b",+15e-1\r\n").err(), Some(DecodeError::MalformedValue));
}

#[test]
fn decode_does_not_return_text_holding_cr() {
    let wire = simple("a\rb").encode().unwrap();
    assert_eq!(wire, bytes("+a\rb\r\n"));
    assert_eq!(decode_frame(&wire).err(), Some(DecodeError::Truncated));
}

#[test]
fn decode_rejects_negative_zero() {
    assert_eq!(decode_frame(b",-0\r\n").err(), Some(DecodeError::MalformedValue));
    let back = decode_frame(b",+0\r\n").unwrap();
    assert!(frames_equal(&back, &RespFrame::Double(RespDouble::new(true, 0, 0))));
}
