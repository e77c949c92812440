use redis_lunatic::interpret_reply;
use redis_lunatic::ClientError;
use redis_lunatic::Connection;
use redis_lunatic::ConnectionError;
use redis_lunatic::DecodingError;
use redis_lunatic::Frame;

#[test]
fn send_fills_the_outgoing_buffer() {
    let mut connection = Connection::new();
    connection.send_frame(&Frame::Simple(b"hello".to_vec()));
    connection.send_frame(&Frame::Integer(42));
    assert_eq!(connection.take_outgoing(), b"+hello\r\n:42\r\n".to_vec());
    assert_eq!(connection.take_outgoing(), b"".to_vec());
}

#[test]
fn receive_consumes_one_frame_per_call() {
    let mut connection = Connection::new();
    connection.feed(&b"+one\r\n+two\r\n".to_vec());
    assert_eq!(
        connection.receive_frame().unwrap(),
        Frame::Simple(b"one".to_vec())
    );
    assert_eq!(
        connection.receive_frame().unwrap(),
        Frame::Simple(b"two".to_vec())
    );
    assert!(matches!(
        connection.receive_frame(),
        Err(ConnectionError::DecodingError(DecodingError::Incomplete))
    ));
}

#[test]
fn incomplete_frames_wait_for_more_bytes() {
    let mut connection = Connection::new();
    connection.feed(&b"$5\r\nhel".to_vec());
    assert!(matches!(
        connection.receive_frame(),
        Err(ConnectionError::DecodingError(DecodingError::Incomplete))
    ));
    connection.feed(&b"lo\r\n".to_vec());
    assert_eq!(
        connection.receive_frame().unwrap(),
        Frame::Bulk(b"hello".to_vec())
    );
}

#[test]
fn malformed_bytes_are_reported() {
    let mut connection = Connection::new();
    connection.feed(&b"%oops\r\n".to_vec());
    assert!(matches!(
        connection.receive_frame(),
        Err(ConnectionError::DecodingError(DecodingError::InvalidFormat))
    ));
}

#[test]
fn error_replies_become_client_failures() {
    let rejected = interpret_reply(Frame::Error(b"ERR protocol error".to_vec()));
    assert!(matches!(rejected, Err(ClientError::Rejected(text)) if text == b"ERR protocol error".to_vec()));
    let accepted = interpret_reply(Frame::Simple(b"PONG".to_vec()));
    assert_eq!(accepted.unwrap(), Frame::Simple(b"PONG".to_vec()));
}
