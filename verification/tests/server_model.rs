use redis_lunatic::handle_frame;
use redis_lunatic::Command;
use redis_lunatic::Frame;
use redis_lunatic::DB;

#[test]
fn ping_needs_no_prior_state() {
    let mut db = DB::init();
    let reply = handle_frame(&mut db, Command::Ping.to_frame());
    assert_eq!(reply, Frame::Simple(b"PONG".to_vec()));
}

#[test]
fn set_then_get() {
    let mut db = DB::init();
    let reply = handle_frame(
        &mut db,
        Command::Put(b"name".to_vec(), b"value".to_vec()).to_frame(),
    );
    assert_eq!(reply, Frame::Simple(b"OK".to_vec()));
    let reply = handle_frame(&mut db, Command::Get(b"name".to_vec()).to_frame());
    assert_eq!(reply, Frame::Bulk(b"value".to_vec()));
    let reply = handle_frame(&mut db, Command::Get(b"missing".to_vec()).to_frame());
    assert_eq!(reply, Frame::Null);
}

#[test]
fn set_overwrites() {
    let mut db = DB::init();
    handle_frame(
        &mut db,
        Command::Put(b"k".to_vec(), b"one".to_vec()).to_frame(),
    );
    handle_frame(
        &mut db,
        Command::Put(b"k".to_vec(), b"two".to_vec()).to_frame(),
    );
    let reply = handle_frame(&mut db, Command::Get(b"k".to_vec()).to_frame());
    assert_eq!(reply, Frame::Bulk(b"two".to_vec()));
}

#[test]
fn interleaved_sets_lose_nothing() {
    // Two connections send SET a 1 and SET b 2; the serialized owner
    // applies them in whichever order its inbox delivers. Try both orders.
    let mut first = DB::init();
    handle_frame(
        &mut first,
        Command::Put(b"a".to_vec(), b"1".to_vec()).to_frame(),
    );
    handle_frame(
        &mut first,
        Command::Put(b"b".to_vec(), b"2".to_vec()).to_frame(),
    );
    let mut second = DB::init();
    handle_frame(
        &mut second,
        Command::Put(b"b".to_vec(), b"2".to_vec()).to_frame(),
    );
    handle_frame(
        &mut second,
        Command::Put(b"a".to_vec(), b"1".to_vec()).to_frame(),
    );
    for db in [&first, &second] {
        assert_eq!(db.get(&b"a".to_vec()), Some(b"1".to_vec()));
        assert_eq!(db.get(&b"b".to_vec()), Some(b"2".to_vec()));
    }
}

#[test]
fn malformed_frame_earns_error_reply() {
    let mut db = DB::init();
    handle_frame(
        &mut db,
        Command::Put(b"kept".to_vec(), b"value".to_vec()).to_frame(),
    );
    let reply = handle_frame(&mut db, Frame::Integer(5));
    assert_eq!(reply, Frame::Error(b"ERR protocol error".to_vec()));
    // The store is untouched and the worker can go on.
    let reply = handle_frame(&mut db, Command::Get(b"kept".to_vec()).to_frame());
    assert_eq!(reply, Frame::Bulk(b"value".to_vec()));
}

#[test]
fn store_set_and_get() {
    let mut db = DB::init();
    assert_eq!(db.get(&b"k".to_vec()), None);
    db.set(b"k".to_vec(), b"v".to_vec());
    assert_eq!(db.get(&b"k".to_vec()), Some(b"v".to_vec()));
    db.set(b"k".to_vec(), b"w".to_vec());
    assert_eq!(db.get(&b"k".to_vec()), Some(b"w".to_vec()));
    assert_eq!(db.get(&b"other".to_vec()), None);
}
