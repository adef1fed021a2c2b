use resp::{
    frames_equal, BulkString, EncodeError, RespArray, RespDouble, RespEncoder, RespFrame, RespMap,
    RespNull, RespNullArray, RespNullBulkString, RespSet, SimpleError, SimpleString,
    text_is_line_safe,
};

fn bytes(s: &str) -> Vec<u8> {
    s.as_bytes().to_vec()
}

fn integer(i: i64) -> RespFrame {
    RespFrame::Integer(i)
}

fn bulk(s: &str) -> RespFrame {
    RespFrame::BulkString(BulkString::new(bytes(s)))
}

fn simple(s: &str) -> RespFrame {
    RespFrame::SimpleString(SimpleString::new(s.to_string()))
}

#[test]
fn integer_zero_and_positive_carry_plus() {
    assert_eq!(0i64.encode(), Ok(bytes(":+0\r\n")));
    assert_eq!(42i64.encode(), Ok(bytes(":+42\r\n")));
}

#[test]
fn integer_negative() {
    assert_eq!((-5i64).encode(), Ok(bytes(":-5\r\n")));
}

#[test]
fn integer_extremes() {
    assert_eq!(i64::MIN.encode(), Ok(bytes(":-9223372036854775808\r\n")));
    assert_eq!(i64::MAX.encode(), Ok(bytes(":+9223372036854775807\r\n")));
}

#[test]
fn bulk_string_foo() {
    assert_eq!(BulkString::new(bytes("foo")).encode(), Ok(bytes("$3\r\nfoo\r\n")));
}

#[test]
fn bulk_string_empty() {
    assert_eq!(BulkString::new(Vec::new()).encode(), Ok(bytes("$0\r\n\r\n")));
}

#[test]
fn bulk_string_is_binary_safe() {
    let payload = vec![0u8, 13, 10, 255];
    let mut expected = bytes("$4\r\n");
    expected.extend_from_slice(&payload);
    expected.extend_from_slice(b"\r\n");
    assert_eq!(BulkString::new(payload).encode(), Ok(expected));
}

#[test]
fn null_bulk_string_is_fixed() {
    assert_eq!(RespNullBulkString.encode(), Ok(bytes("$-1\r\n")));
    assert_eq!(RespFrame::NullBulkString(RespNullBulkString).encode(), Ok(bytes("$-1\r\n")));
}

#[test]
fn simple_string_and_error() {
    assert_eq!(SimpleString::new("OK".to_string()).encode(), Ok(bytes("+OK\r\n")));
    assert_eq!(SimpleError::new("ERR bad".to_string()).encode(), Ok(bytes("-ERR bad\r\n")));
    assert_eq!(simple("").encode(), Ok(bytes("+\r\n")));
}

#[test]
fn simple_string_is_utf8() {
    assert_eq!(simple("h\u{e9}").encode(), Ok(vec![b'+', b'h', 0xc3, 0xa9, b'\r', b'\n']));
}

#[test]
fn booleans() {
    assert_eq!(true.encode(), Ok(bytes("#t\r\n")));
    assert_eq!(false.encode(), Ok(bytes("#f\r\n")));
    assert_eq!(RespFrame::Boolean(true).encode(), Ok(bytes("#t\r\n")));
}

#[test]
fn array_of_integer_and_bulk_string() {
    let frame = RespFrame::Array(vec![integer(1), bulk("a")]);
    assert_eq!(frame.encode(), Ok(bytes("*2\r\n:+1\r\n$1\r\na\r\n")));
}

#[test]
fn resp_array_encodes_as_array() {
    let array = RespArray::new(vec![integer(1), bulk("a")]);
    assert_eq!(array.encode(), Ok(bytes("*2\r\n:+1\r\n$1\r\na\r\n")));
}

#[test]
fn nested_array() {
    let frame = RespFrame::Array(vec![RespFrame::Array(vec![integer(-1)]), simple("x")]);
    assert_eq!(frame.encode(), Ok(bytes("*2\r\n*1\r\n:-1\r\n+x\r\n")));
}

#[test]
fn double_one_and_a_half() {
    assert_eq!(RespDouble::new(false, 15, -1).encode(), Ok(bytes(",+1.5\r\n")));
}

#[test]
fn double_above_1e8_is_exponential() {
    assert_eq!(RespDouble::new(false, 15, 8).encode(), Ok(bytes(",+1.5e9\r\n")));
    assert_eq!(RespDouble::new(true, 15, 8).encode(), Ok(bytes(",-1.5e9\r\n")));
    assert_eq!(RespDouble::new(false, 123456789, 0).encode(), Ok(bytes(",+1.23456789e8\r\n")));
    assert_eq!(RespDouble::new(false, 1, 100).encode(), Ok(bytes(",+1e100\r\n")));
    assert_eq!(RespDouble::new(false, 100000001, 0).encode(), Ok(bytes(",+1.00000001e8\r\n")));
}

#[test]
fn double_at_1e8_is_fixed() {
    assert_eq!(RespDouble::new(false, 1, 8).encode(), Ok(bytes(",+100000000\r\n")));
    assert_eq!(RespDouble::new(true, 1, 8).encode(), Ok(bytes(",-100000000\r\n")));
}

#[test]
fn double_fixed_forms() {
    assert_eq!(RespDouble::new(true, 225, -2).encode(), Ok(bytes(",-2.25\r\n")));
    assert_eq!(RespDouble::new(false, 1, -3).encode(), Ok(bytes(",+0.001\r\n")));
    assert_eq!(RespDouble::new(false, 12, 1).encode(), Ok(bytes(",+120\r\n")));
    assert_eq!(RespDouble::new(false, 0, 0).encode(), Ok(bytes(",+0\r\n")));
    assert_eq!(RespDouble::new(true, 0, 5).encode(), Ok(bytes(",+0\r\n")));
}

#[test]
fn double_trailing_zeros_are_dropped() {
    assert_eq!(RespDouble::new(false, 1500, -3).encode(), Ok(bytes(",+1.5\r\n")));
    assert_eq!(RespDouble::new(false, 1000, 6).encode(), Ok(bytes(",+1e9\r\n")));
}

#[test]
fn empty_containers() {
    assert_eq!(RespFrame::Array(Vec::new()).encode(), Ok(bytes("*0\r\n")));
    assert_eq!(RespMap::new().encode(), Ok(bytes("%0\r\n")));
    assert_eq!(RespSet::new().encode(), Ok(bytes("~0\r\n")));
}

#[test]
fn map_with_one_entry() {
    let mut map = RespMap::new();
    map.insert("a".to_string(), integer(1));
    assert_eq!(map.len(), 1);
    assert_eq!(RespFrame::RespMap(map).encode(), Ok(bytes("%1\r\n+a\r\n:+1\r\n")));
}

#[test]
fn map_insert_replaces_in_place() {
    let mut map = RespMap::new();
    map.insert("a".to_string(), integer(1));
    map.insert("b".to_string(), integer(2));
    map.insert("a".to_string(), integer(3));
    assert_eq!(map.len(), 2);
    assert_eq!(map.encode(), Ok(bytes("%2\r\n+a\r\n:+3\r\n+b\r\n:+2\r\n")));
}

#[test]
fn set_keeps_members_unique() {
    let mut set = RespSet::new();
    assert!(set.insert(integer(1)));
    assert!(set.insert(bulk("x")));
    assert!(!set.insert(integer(1)));
    assert!(!set.insert(bulk("x")));
    assert!(set.insert(simple("x")));
    assert_eq!(set.len(), 3);
    assert_eq!(set.encode(), Ok(bytes("~3\r\n:+1\r\n$1\r\nx\r\n+x\r\n")));
}

#[test]
fn set_compares_nested_members() {
    let mut set = RespSet::new();
    assert!(set.insert(RespFrame::Array(vec![integer(1), integer(2)])));
    assert!(!set.insert(RespFrame::Array(vec![integer(1), integer(2)])));
    assert!(set.insert(RespFrame::Array(vec![integer(2), integer(1)])));
    assert_eq!(set.len(), 2);
}

#[test]
fn structural_equality() {
    assert!(frames_equal(&integer(3), &integer(3)));
    assert!(!frames_equal(&integer(3), &integer(4)));
    assert!(!frames_equal(&simple("a"), &bulk("a")));
    assert!(frames_equal(&RespFrame::Null(RespNull), &RespFrame::Null(RespNull)));
    let mut m1 = RespMap::new();
    m1.insert("k".to_string(), integer(1));
    let mut m2 = RespMap::new();
    m2.insert("k".to_string(), integer(1));
    assert!(frames_equal(&RespFrame::RespMap(m1), &RespFrame::RespMap(m2)));
    assert!(frames_equal(
        &RespFrame::Double(RespDouble::new(false, 15, -1)),
        &RespFrame::Double(RespDouble::new(false, 150, -2))
    ));
}

#[test]
fn null_variants_are_unsupported() {
    assert_eq!(RespFrame::Null(RespNull).encode(), Err(EncodeError::UnsupportedVariant));
    assert_eq!(RespFrame::NullArray(RespNullArray).encode(), Err(EncodeError::UnsupportedVariant));
}

#[test]
fn unsupported_member_fails_whole_frame() {
    let frame = RespFrame::Array(vec![integer(1), RespFrame::Null(RespNull)]);
    assert_eq!(frame.encode(), Err(EncodeError::UnsupportedVariant));
    let mut map = RespMap::new();
    map.insert("k".to_string(), RespFrame::NullArray(RespNullArray));
    assert_eq!(map.encode(), Err(EncodeError::UnsupportedVariant));
    let mut set = RespSet::new();
    set.insert(RespFrame::Array(vec![RespFrame::Null(RespNull)]));
    assert_eq!(set.encode(), Err(EncodeError::UnsupportedVariant));
}

#[test]
fn negative_zero_is_written_as_plus_zero() {
    let zero = RespDouble::new(true, 0, 0);
    assert!(!zero.is_negative());
    assert_eq!(zero.digits(), 0);
    assert_eq!(zero.encode(), Ok(bytes(",+0\r\n")));
}

#[test]
fn line_safety_of_text() {
    assert!(text_is_line_safe(&"OK h\u{e9}".to_string()));
    assert!(!text_is_line_safe(&"a\rb".to_string()));
    assert!(!text_is_line_safe(&"a\nb".to_string()));
}
