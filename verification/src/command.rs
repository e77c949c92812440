//! Application-level operations and their wire form.
//!
//! A command travels as an array of bulk strings: the verb first (one of
//! `PING`, `GET`, `SET`, matched case-sensitively), then the arguments the
//! verb requires. The mapping from command to frame is total and lossless;
//! the mapping back is partial and fails uniformly on any deviation.

use vstd::prelude::*;

use crate::frame::Frame;
use crate::frame::FrameModel;
use crate::frame::copy_range;
use crate::frame::frames_model;
use crate::frame::lemma_frames_model_index;

verus! {

/// An application-level operation. Keys are valid UTF-8; values are
/// arbitrary byte strings.
#[derive(Debug, Clone, PartialEq)]
pub enum Command {
    Ping,
    Put(Vec<u8>, Vec<u8>),
    Get(Vec<u8>),
}

/// The mathematical model of a `Command`.
#[verifier::ext_equal]
pub enum CommandModel {
    Ping,
    Put(Seq<u8>, Seq<u8>),
    Get(Seq<u8>),
}

impl View for Command {
    type V = CommandModel;

    open spec fn view(&self) -> CommandModel {
        match self {
            Command::Ping => CommandModel::Ping,
            Command::Put(key, value) => CommandModel::Put(key@, value@),
            Command::Get(key) => CommandModel::Get(key@),
        }
    }
}

/// A command is supported when its key is valid UTF-8.
pub open spec fn wf_command(c: CommandModel) -> bool {
    match c {
        CommandModel::Ping => true,
        CommandModel::Put(key, value) => is_utf8(key),
        CommandModel::Get(key) => is_utf8(key),
    }
}

// ---------------------------------------------------------------------------
// UTF-8 validity.
// ---------------------------------------------------------------------------

/// Whether `b` is a UTF-8 continuation byte (`10xxxxxx`).
pub open spec fn is_cont(b: u8) -> bool {
    128 <= b <= 191
}

/// Whether `s` is valid UTF-8: the shortest-form byte-range table, with
/// overlong forms, surrogates, and values past U+10FFFF excluded.
pub open spec fn is_utf8(s: Seq<u8>) -> bool
    decreases s.len(),
{
    if s.len() == 0 {
        true
    } else {
        let b0 = s[0];
        if b0 <= 127 {
            is_utf8(s.skip(1))
        } else if 194 <= b0 <= 223 {
            s.len() >= 2 && is_cont(s[1]) && is_utf8(s.skip(2))
        } else if b0 == 224 {
            s.len() >= 3 && 160 <= s[1] <= 191 && is_cont(s[2]) && is_utf8(s.skip(3))
        } else if 225 <= b0 <= 236 || b0 == 238 || b0 == 239 {
            s.len() >= 3 && is_cont(s[1]) && is_cont(s[2]) && is_utf8(s.skip(3))
        } else if b0 == 237 {
            s.len() >= 3 && 128 <= s[1] <= 159 && is_cont(s[2]) && is_utf8(s.skip(3))
        } else if b0 == 240 {
            s.len() >= 4 && 144 <= s[1] <= 191 && is_cont(s[2]) && is_cont(s[3]) && is_utf8(
                s.skip(4),
            )
        } else if 241 <= b0 <= 243 {
            s.len() >= 4 && is_cont(s[1]) && is_cont(s[2]) && is_cont(s[3]) && is_utf8(s.skip(4))
        } else if b0 == 244 {
            s.len() >= 4 && 128 <= s[1] <= 143 && is_cont(s[2]) && is_cont(s[3]) && is_utf8(
                s.skip(4),
            )
        } else {
            false
        }
    }
}

/// Checks whether `s` is valid UTF-8.
pub fn check_utf8(s: &Vec<u8>) -> (r: bool)
    ensures
        r == is_utf8(s@),
{
    let n = s.len();
    let mut i: usize = 0;
    proof {
        assert(s@.skip(0) =~= s@);
    }
    while i < n
        invariant
            i <= n,
            n == s@.len(),
            is_utf8(s@) == is_utf8(s@.skip(i as int)),
        decreases n - i,
    {
        let ghost tail = s@.skip(i as int);
        proof {
            assert(forall|k: int| 0 <= k < tail.len() ==> tail[k] == s@[i + k]);
        }
        let b0 = s[i];
        let width: usize = if b0 <= 127 {
            1
        } else if 194 <= b0 && b0 <= 223 {
            2
        } else if 224 <= b0 && b0 <= 239 {
            3
        } else if 240 <= b0 && b0 <= 244 {
            4
        } else {
            return false;
        };
        if n - i < width {
            return false;
        }
        if width >= 2 {
            let b1 = s[i + 1];
            let ok1 = if b0 == 224 {
                160 <= b1 && b1 <= 191
            } else if b0 == 237 {
                128 <= b1 && b1 <= 159
            } else if b0 == 240 {
                144 <= b1 && b1 <= 191
            } else if b0 == 244 {
                128 <= b1 && b1 <= 143
            } else {
                128 <= b1 && b1 <= 191
            };
            if !ok1 {
                return false;
            }
        }
        if width >= 3 {
            let b2 = s[i + 2];
            if !(128 <= b2 && b2 <= 191) {
                return false;
            }
        }
        if width >= 4 {
            let b3 = s[i + 3];
            if !(128 <= b3 && b3 <= 191) {
                return false;
            }
        }
        proof {
            assert(tail.skip(width as int) =~= s@.skip(i + width));
        }
        i = i + width;
    }
    proof {
        assert(s@.skip(n as int) =~= Seq::<u8>::empty());
    }
    true
}

// ---------------------------------------------------------------------------
// The verbs.
// ---------------------------------------------------------------------------

/// The bytes of the verb `PING`.
pub open spec fn spec_verb_ping() -> Seq<u8> {
    seq![80u8, 73u8, 78u8, 71u8]
}

/// The bytes of the verb `GET`.
pub open spec fn spec_verb_get() -> Seq<u8> {
    seq![71u8, 69u8, 84u8]
}

/// The bytes of the verb `SET`.
pub open spec fn spec_verb_set() -> Seq<u8> {
    seq![83u8, 69u8, 84u8]
}

/// Builds the verb `PING`.
fn verb_ping() -> (v: Vec<u8>)
    ensures
        v@ == spec_verb_ping(),
{
    let mut v: Vec<u8> = Vec::new();
    v.push(80);
    v.push(73);
    v.push(78);
    v.push(71);
    assert(v@ =~= spec_verb_ping());
    v
}

/// Builds the verb `GET`.
fn verb_get() -> (v: Vec<u8>)
    ensures
        v@ == spec_verb_get(),
{
    let mut v: Vec<u8> = Vec::new();
    v.push(71);
    v.push(69);
    v.push(84);
    assert(v@ =~= spec_verb_get());
    v
}

/// Builds the verb `SET`.
fn verb_set() -> (v: Vec<u8>)
    ensures
        v@ == spec_verb_set(),
{
    let mut v: Vec<u8> = Vec::new();
    v.push(83);
    v.push(69);
    v.push(84);
    assert(v@ =~= spec_verb_set());
    v
}

/// Compares two byte strings for equality.
pub fn bytes_eq(a: &Vec<u8>, b: &Vec<u8>) -> (r: bool)
    ensures
        r == (a@ == b@),
{
    if a.len() != b.len() {
        return false;
    }
    let n = a.len();
    let mut i: usize = 0;
    while i < n
        invariant
            i <= n,
            n == a@.len() == b@.len(),
            forall|k: int| 0 <= k < i ==> a@[k] == b@[k],
        decreases n - i,
    {
        if a[i] != b[i] {
            return false;
        }
        i = i + 1;
    }
    proof {
        assert(a@ =~= b@);
    }
    true
}

// ---------------------------------------------------------------------------
// Command to frame, and back.
// ---------------------------------------------------------------------------

/// The wire form of a command: an array of bulk strings, verb first.
pub open spec fn spec_command_frame(c: CommandModel) -> FrameModel {
    match c {
        CommandModel::Ping => FrameModel::Array(seq![FrameModel::Bulk(spec_verb_ping())]),
        CommandModel::Put(key, value) => FrameModel::Array(
            seq![
                FrameModel::Bulk(spec_verb_set()),
                FrameModel::Bulk(key),
                FrameModel::Bulk(value),
            ],
        ),
        CommandModel::Get(key) => FrameModel::Array(
            seq![FrameModel::Bulk(spec_verb_get()), FrameModel::Bulk(key)],
        ),
    }
}

/// Parses a frame as a command: an array whose first element is a bulk
/// string holding a known verb, with exactly the arity the verb requires,
/// every argument a bulk string, and the key valid UTF-8. Any deviation
/// fails, and all deviations fail alike.
pub open spec fn spec_parse_command(f: FrameModel) -> Option<CommandModel> {
    match f {
        FrameModel::Array(elems) => if elems.len() >= 1 {
            match elems[0] {
                FrameModel::Bulk(verb) => if verb == spec_verb_ping() {
                    if elems.len() == 1 {
                        Some(CommandModel::Ping)
                    } else {
                        None
                    }
                } else if verb == spec_verb_get() {
                    if elems.len() == 2 {
                        match elems[1] {
                            FrameModel::Bulk(key) => if is_utf8(key) {
                                Some(CommandModel::Get(key))
                            } else {
                                None
                            },
                            _ => None,
                        }
                    } else {
                        None
                    }
                } else if verb == spec_verb_set() {
                    if elems.len() == 3 {
                        match (elems[1], elems[2]) {
                            (FrameModel::Bulk(key), FrameModel::Bulk(value)) => if is_utf8(key) {
                                Some(CommandModel::Put(key, value))
                            } else {
                                None
                            },
                            _ => None,
                        }
                    } else {
                        None
                    }
                } else {
                    None
                },
                _ => None,
            }
        } else {
            None
        },
        _ => None,
    }
}

impl Command {
    /// The total, lossless wire form of this command.
    pub fn to_frame(self) -> (f: Frame)
        ensures
            f@ == spec_command_frame(self@),
    {
        broadcast use lemma_frames_model_index;

        match self {
            Command::Ping => {
                let verb = verb_ping();
                let mut elems: Vec<Frame> = Vec::new();
                elems.push(Frame::Bulk(verb));
                let f = Frame::Array(elems);
                proof {
                    assert(elems@[0] == Frame::Bulk(verb));
                    assert(frames_model(elems@) =~= seq![FrameModel::Bulk(spec_verb_ping())]);
                    assert(f@ == spec_command_frame(CommandModel::Ping));
                }
                f
            },
            Command::Put(key, value) => {
                let ghost c = CommandModel::Put(key@, value@);
                let verb = verb_set();
                let mut elems: Vec<Frame> = Vec::new();
                elems.push(Frame::Bulk(verb));
                elems.push(Frame::Bulk(key));
                elems.push(Frame::Bulk(value));
                let f = Frame::Array(elems);
                proof {
                    assert(elems@[0] == Frame::Bulk(verb));
                    assert(elems@[1] == Frame::Bulk(key));
                    assert(elems@[2] == Frame::Bulk(value));
                    assert(frames_model(elems@) =~= spec_command_frame(c)->Array_0);
                    assert(f@ == spec_command_frame(c));
                }
                f
            },
            Command::Get(key) => {
                let ghost c = CommandModel::Get(key@);
                let verb = verb_get();
                let mut elems: Vec<Frame> = Vec::new();
                elems.push(Frame::Bulk(verb));
                elems.push(Frame::Bulk(key));
                let f = Frame::Array(elems);
                proof {
                    assert(elems@[0] == Frame::Bulk(verb));
                    assert(elems@[1] == Frame::Bulk(key));
                    assert(frames_model(elems@) =~= spec_command_frame(c)->Array_0);
                    assert(f@ == spec_command_frame(c));
                }
                f
            },
        }
    }

    /// Parses a frame as a command. The mapping is partial: a frame that is
    /// not an array of bulk strings, an unknown verb, a wrong arity, or a
    /// key that is not valid UTF-8 all fail with the same undistinguished
    /// error.
    pub fn try_from(value: Frame) -> (r: Result<Command, ()>)
        ensures
            match r {
                Ok(c) => spec_parse_command(value@) == Some(c@),
                Err(e) => spec_parse_command(value@) is None,
            },
    {
        broadcast use lemma_frames_model_index;

        match value {
            Frame::Array(frames) => {
                proof {
                    assert(value@ == FrameModel::Array(frames_model(frames@)));
                }
                if frames.len() == 0 {
                    return Err(());
                }
                let is_bulk = match &frames[0] {
                    Frame::Bulk(name) => true,
                    _ => false,
                };
                if !is_bulk {
                    return Err(());
                }
                match &frames[0] {
                    Frame::Bulk(name) => {
                        proof {
                            assert(spec_verb_ping().len() == 4);
                            assert(spec_verb_get().len() == 3);
                            assert(spec_verb_set().len() == 3);
                            assert(spec_verb_get()[0] == 71 && spec_verb_set()[0] == 83);
                        }
                        let ping = verb_ping();
                        let get = verb_get();
                        let set = verb_set();
                        if bytes_eq(name, &ping) {
                            if frames.len() == 1 {
                                Ok(Command::Ping)
                            } else {
                                Err(())
                            }
                        } else if bytes_eq(name, &get) {
                            if frames.len() != 2 {
                                return Err(());
                            }
                            match &frames[1] {
                                Frame::Bulk(key) => {
                                    if check_utf8(key) {
                                        Ok(Command::Get(copy_range(key, 0, key.len())))
                                    } else {
                                        Err(())
                                    }
                                },
                                _ => Err(()),
                            }
                        } else if bytes_eq(name, &set) {
                            if frames.len() != 3 {
                                return Err(());
                            }
                            let key_ok = match &frames[1] {
                                Frame::Bulk(key) => check_utf8(key),
                                _ => false,
                            };
                            let value_is_bulk = match &frames[2] {
                                Frame::Bulk(v) => true,
                                _ => false,
                            };
                            if !key_ok || !value_is_bulk {
                                return Err(());
                            }
                            match (&frames[1], &frames[2]) {
                                (Frame::Bulk(key), Frame::Bulk(v)) => Ok(
                                    Command::Put(
                                        copy_range(key, 0, key.len()),
                                        copy_range(v, 0, v.len()),
                                    ),
                                ),
                                _ => Err(()),
                            }
                        } else {
                            Err(())
                        }
                    },
                    _ => Err(()),
                }
            },
            _ => Err(()),
        }
    }
}

/// Round trip of the command mapping: parsing the wire frame of any
/// supported command restores exactly that command.
pub proof fn lemma_parse_command_round(c: CommandModel)
    requires
        wf_command(c),
    ensures
        spec_parse_command(spec_command_frame(c)) == Some(c),
{
    assert(spec_verb_ping().len() == 4);
    assert(spec_verb_get().len() == 3);
    assert(spec_verb_set().len() == 3);
    assert(spec_verb_get()[0] == 71);
    assert(spec_verb_set()[0] == 83);
}

/// The wire frame of a command is representable on the wire whenever its
/// key and value fit the 32-bit length prefix.
pub proof fn lemma_command_frame_wf(c: CommandModel)
    requires
        match c {
            CommandModel::Ping => true,
            CommandModel::Put(key, value) => key.len() <= i32::MAX && value.len() <= i32::MAX,
            CommandModel::Get(key) => key.len() <= i32::MAX,
        },
    ensures
        crate::frame::wf_frame(spec_command_frame(c)),
{
    let f = spec_command_frame(c);
    let elems = f->Array_0;
    crate::frame::lemma_wf_frames_index(elems);
    assert(forall|i: int|
        0 <= i < elems.len() ==> crate::frame::wf_frame(#[trigger] elems[i])) by {
        assert(crate::frame::wf_frame(elems[0]));
        if elems.len() >= 2 {
            assert(crate::frame::wf_frame(elems[1]));
        }
        if elems.len() >= 3 {
            assert(crate::frame::wf_frame(elems[2]));
        }
    }
}

} // verus!
