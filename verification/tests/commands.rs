use redis_lunatic::Command;
use redis_lunatic::Frame;

#[test]
fn ping_to_frame() {
    let frame: Frame = Command::Ping.to_frame();
    assert_eq!(frame, Frame::Array(vec![Frame::Bulk(b"PING".to_vec())]));
}

#[test]
fn get_to_frame() {
    let frame: Frame = Command::Get(b"name".to_vec()).to_frame();
    assert_eq!(
        frame,
        Frame::Array(vec![
            Frame::Bulk(b"GET".to_vec()),
            Frame::Bulk(b"name".to_vec())
        ])
    );
}

#[test]
fn set_to_frame() {
    let frame: Frame = Command::Put(b"name".to_vec(), b"unworthyEnzyme".to_vec()).to_frame();
    assert_eq!(
        frame,
        Frame::Array(vec![
            Frame::Bulk(b"SET".to_vec()),
            Frame::Bulk(b"name".to_vec()),
            Frame::Bulk(b"unworthyEnzyme".to_vec())
        ])
    );
}

#[test]
fn parses_each_command_back() {
    let commands = vec![
        Command::Ping,
        Command::Get(b"name".to_vec()),
        Command::Put(b"name".to_vec(), b"value".to_vec()),
    ];
    for command in commands {
        let parsed = Command::try_from(command.clone().to_frame()).unwrap();
        assert_eq!(parsed, command);
    }
}

#[test]
fn rejects_wrong_shapes() {
    // Not an array.
    assert!(Command::try_from(Frame::Simple(b"PING".to_vec())).is_err());
    // Empty array.
    assert!(Command::try_from(Frame::Array(vec![])).is_err());
    // Verb not a bulk string.
    assert!(Command::try_from(Frame::Array(vec![Frame::Integer(1)])).is_err());
    // Unknown verb, and a lowercase verb: matching is case-sensitive.
    assert!(Command::try_from(Frame::Array(vec![Frame::Bulk(b"DEL".to_vec())])).is_err());
    assert!(Command::try_from(Frame::Array(vec![Frame::Bulk(b"ping".to_vec())])).is_err());
}

#[test]
fn rejects_wrong_arity() {
    assert!(Command::try_from(Frame::Array(vec![
        Frame::Bulk(b"PING".to_vec()),
        Frame::Bulk(b"extra".to_vec()),
    ]))
    .is_err());
    assert!(Command::try_from(Frame::Array(vec![Frame::Bulk(b"GET".to_vec())])).is_err());
    assert!(Command::try_from(Frame::Array(vec![
        Frame::Bulk(b"SET".to_vec()),
        Frame::Bulk(b"key".to_vec()),
    ]))
    .is_err());
}

#[test]
fn rejects_wrong_argument_types() {
    assert!(Command::try_from(Frame::Array(vec![
        Frame::Bulk(b"GET".to_vec()),
        Frame::Integer(3),
    ]))
    .is_err());
    assert!(Command::try_from(Frame::Array(vec![
        Frame::Bulk(b"SET".to_vec()),
        Frame::Bulk(b"key".to_vec()),
        Frame::Null,
    ]))
    .is_err());
}

#[test]
fn rejects_non_utf8_keys() {
    let bad_key = vec![0xff, 0xfe];
    assert!(Command::try_from(Frame::Array(vec![
        Frame::Bulk(b"GET".to_vec()),
        Frame::Bulk(bad_key.clone()),
    ]))
    .is_err());
    assert!(Command::try_from(Frame::Array(vec![
        Frame::Bulk(b"SET".to_vec()),
        Frame::Bulk(bad_key),
        Frame::Bulk(b"value".to_vec()),
    ]))
    .is_err());
    // A multi-byte UTF-8 key is fine: "cle" with an accented e.
    let accented = vec![0x63, 0x6c, 0xc3, 0xa9];
    let parsed = Command::try_from(Frame::Array(vec![
        Frame::Bulk(b"GET".to_vec()),
        Frame::Bulk(accented.clone()),
    ]))
    .unwrap();
    assert_eq!(parsed, Command::Get(accented));
}

#[test]
fn command_survives_the_wire() {
    // Encode the command's frame, decode the bytes, parse the frame.
    let command = Command::Put(b"name".to_vec(), b"value".to_vec());
    let bytes = command.clone().to_frame().encode();
    let (frame, used) = Frame::decode(&bytes, 0).unwrap();
    assert_eq!(used, bytes.len());
    assert_eq!(Command::try_from(frame).unwrap(), command);
}
