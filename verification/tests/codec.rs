use redis_lunatic::DecodingError;
use redis_lunatic::Frame;

#[test]
fn encodes_simple_string() {
    let frame = Frame::Simple(b"hello".to_vec());
    assert_eq!(frame.encode(), b"+hello\r\n".to_vec())
}

#[test]
fn encodes_integer() {
    let frame = Frame::Integer(42);
    assert_eq!(frame.encode(), b":42\r\n".to_vec())
}

#[test]
fn encodes_error() {
    let frame = Frame::Error(b"error".to_vec());
    assert_eq!(frame.encode(), b"-error\r\n".to_vec())
}

#[test]
fn encodes_null() {
    let frame = Frame::Null;
    assert_eq!(frame.encode(), b"$-1\r\n".to_vec())
}

#[test]
fn encodes_bulk() {
    let frame = Frame::Bulk(b"hello".to_vec());
    assert_eq!(frame.encode(), b"$5\r\nhello\r\n".to_vec())
}

#[test]
fn encodes_array() {
    let frame = Frame::Array(vec![Frame::Bulk(b"hello".to_vec()), Frame::Integer(42)]);
    assert_eq!(frame.encode(), b"*2\r\n$5\r\nhello\r\n:42\r\n".to_vec());
}

#[test]
fn decodes_simple_string() {
    let frame = Frame::Simple(b"hello".to_vec());
    let bytes = frame.encode();
    let (decoded, used) = Frame::decode(&bytes, 0).unwrap();
    assert_eq!(decoded, frame);
    assert_eq!(used, bytes.len());
}

#[test]
fn decodes_error() {
    let frame = Frame::Error(b"error".to_vec());
    let bytes = frame.encode();
    let (decoded, used) = Frame::decode(&bytes, 0).unwrap();
    assert_eq!(decoded, frame);
    assert_eq!(used, bytes.len());
}

#[test]
fn decodes_integer() {
    let frame = Frame::Integer(42);
    let bytes = frame.encode();
    let (decoded, used) = Frame::decode(&bytes, 0).unwrap();
    assert_eq!(decoded, frame);
    assert_eq!(used, bytes.len());
}

#[test]
fn decodes_bulk() {
    let frame = Frame::Bulk(b"hello".to_vec());
    let bytes = frame.encode();
    let (decoded, used) = Frame::decode(&bytes, 0).unwrap();
    assert_eq!(decoded, frame);
    assert_eq!(used, bytes.len());
}

#[test]
fn decode_null() {
    let frame = Frame::Null;
    let bytes = frame.encode();
    let (decoded, used) = Frame::decode(&bytes, 0).unwrap();
    assert_eq!(decoded, frame);
    assert_eq!(used, bytes.len());
}

#[test]
fn decodes_array() {
    let frame = Frame::Array(vec![
        Frame::Bulk(b"GET".to_vec()),
        Frame::Bulk(b"key".to_vec()),
    ]);
    let bytes = frame.encode();
    let (decoded, used) = Frame::decode(&bytes, 0).unwrap();
    assert_eq!(decoded, frame);
    assert_eq!(used, bytes.len());
}

#[test]
fn decodes_nested_array_round_trip() {
    let frame = Frame::Array(vec![
        Frame::Array(vec![Frame::Integer(-7), Frame::Null]),
        Frame::Array(vec![]),
        Frame::Simple(b"done".to_vec()),
    ]);
    let bytes = frame.encode();
    let (decoded, used) = Frame::decode(&bytes, 0).unwrap();
    assert_eq!(decoded, frame);
    assert_eq!(used, bytes.len());
}

#[test]
fn decodes_empty_array() {
    let bytes = b"*0\r\n".to_vec();
    let (decoded, used) = Frame::decode(&bytes, 0).unwrap();
    assert_eq!(decoded, Frame::Array(vec![]));
    assert_eq!(used, 4);
}

#[test]
fn encodes_integer_extremes() {
    assert_eq!(Frame::Integer(i32::MIN).encode(), b":-2147483648\r\n".to_vec());
    assert_eq!(Frame::Integer(i32::MAX).encode(), b":2147483647\r\n".to_vec());
    assert_eq!(Frame::Integer(0).encode(), b":0\r\n".to_vec());
    let bytes = Frame::Integer(i32::MIN).encode();
    let (decoded, _) = Frame::decode(&bytes, 0).unwrap();
    assert_eq!(decoded, Frame::Integer(i32::MIN));
}

#[test]
fn decodes_integer_with_sign_and_leading_zeros() {
    let bytes = b":007\r\n".to_vec();
    let (decoded, _) = Frame::decode(&bytes, 0).unwrap();
    assert_eq!(decoded, Frame::Integer(7));
    let bytes = b":+42\r\n".to_vec();
    let (decoded, _) = Frame::decode(&bytes, 0).unwrap();
    assert_eq!(decoded, Frame::Integer(42));
    let bytes = b":-0\r\n".to_vec();
    let (decoded, _) = Frame::decode(&bytes, 0).unwrap();
    assert_eq!(decoded, Frame::Integer(0));
}

#[test]
fn rejects_unknown_tag() {
    let bytes = b"%3\r\n".to_vec();
    assert_eq!(Frame::decode(&bytes, 0), Err(DecodingError::InvalidFormat));
}

#[test]
fn rejects_negative_array_count() {
    let bytes = b"*-1\r\n".to_vec();
    assert_eq!(Frame::decode(&bytes, 0), Err(DecodingError::InvalidFormat));
}

#[test]
fn rejects_non_numeric_bulk_length() {
    let bytes = b"$abc\r\n".to_vec();
    assert_eq!(Frame::decode(&bytes, 0), Err(DecodingError::InvalidFormat));
}

#[test]
fn rejects_bulk_length_below_null_sentinel() {
    let bytes = b"$-2\r\n".to_vec();
    assert_eq!(Frame::decode(&bytes, 0), Err(DecodingError::InvalidFormat));
}

#[test]
fn rejects_integer_overflow() {
    let bytes = b":2147483648\r\n".to_vec();
    assert_eq!(Frame::decode(&bytes, 0), Err(DecodingError::InvalidFormat));
    let bytes = b":-2147483649\r\n".to_vec();
    assert_eq!(Frame::decode(&bytes, 0), Err(DecodingError::InvalidFormat));
}

#[test]
fn rejects_bare_line_feed_in_header() {
    let bytes = b"+hello\n".to_vec();
    assert_eq!(Frame::decode(&bytes, 0), Err(DecodingError::InvalidFormat));
}

#[test]
fn reports_incomplete_frames() {
    assert_eq!(Frame::decode(&b"".to_vec(), 0), Err(DecodingError::Incomplete));
    assert_eq!(Frame::decode(&b"+hel".to_vec(), 0), Err(DecodingError::Incomplete));
    assert_eq!(Frame::decode(&b"$5\r\nhel".to_vec(), 0), Err(DecodingError::Incomplete));
    assert_eq!(
        Frame::decode(&b"*2\r\n$5\r\nhello\r\n".to_vec(), 0),
        Err(DecodingError::Incomplete)
    );
}

#[test]
fn consumes_exactly_one_frame() {
    let mut bytes = Frame::Simple(b"first".to_vec()).encode();
    let second_start = bytes.len();
    bytes.extend_from_slice(&Frame::Integer(9).encode());
    let (first, used) = Frame::decode(&bytes, 0).unwrap();
    assert_eq!(first, Frame::Simple(b"first".to_vec()));
    assert_eq!(used, second_start);
    let (second, end) = Frame::decode(&bytes, used).unwrap();
    assert_eq!(second, Frame::Integer(9));
    assert_eq!(end, bytes.len());
}
