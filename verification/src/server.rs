//! The key-value store and the per-frame dispatch step.
//!
//! The store is owned by exactly one serialized worker for its whole
//! lifetime: created empty when the service starts, mutated only by `set`
//! messages, read only by `get` requests, each applied one at a time in
//! arrival order. `handle_frame` is the decision step of a connection
//! worker: one received frame in, one reply frame out, with the store
//! updated in between. The loops around them — accepting sockets, reading
//! bytes, spawning workers — live outside the library.

use vstd::prelude::*;

use crate::command::Command;
use crate::command::CommandModel;
use crate::command::is_utf8;
use crate::command::lemma_parse_command_round;
use crate::command::spec_command_frame;
use crate::command::spec_parse_command;
use crate::frame::Frame;
use crate::frame::FrameModel;
use crate::frame::copy_range;

verus! {

/// The key-value store: the single owner of the mapping from keys to
/// values. Bindings are kept as a sequence with pairwise-distinct keys and
/// are seen in specifications as the map they form.
#[derive(Debug)]
pub struct DB {
    entries: Vec<(Vec<u8>, Vec<u8>)>,
}

/// The map a sequence of bindings forms, later bindings winning.
pub open spec fn entries_map(s: Seq<(Vec<u8>, Vec<u8>)>) -> Map<Seq<u8>, Seq<u8>>
    decreases s.len(),
{
    if s.len() == 0 {
        Map::empty()
    } else {
        entries_map(s.drop_last()).insert(s.last().0@, s.last().1@)
    }
}

/// Whether the keys of a sequence of bindings are pairwise distinct.
pub open spec fn distinct_keys(s: Seq<(Vec<u8>, Vec<u8>)>) -> bool {
    forall|i: int, j: int|
        0 <= i < j < s.len() ==> (#[trigger] s[i]).0@ != (#[trigger] s[j]).0@
}

/// A key is in the map exactly when some binding holds it.
proof fn lemma_entries_map_contains(s: Seq<(Vec<u8>, Vec<u8>)>, k: Seq<u8>)
    ensures
        entries_map(s).contains_key(k) <==> exists|i: int|
            0 <= i < s.len() && (#[trigger] s[i]).0@ == k,
    decreases s.len(),
{
    if s.len() > 0 {
        lemma_entries_map_contains(s.drop_last(), k);
        assert(forall|i: int| 0 <= i < s.len() - 1 ==> s.drop_last()[i] == s[i]);
        if s.last().0@ == k {
            assert(s[s.len() - 1].0@ == k);
        }
    }
}

/// With pairwise-distinct keys, the binding holding a key gives its value.
proof fn lemma_entries_map_at(s: Seq<(Vec<u8>, Vec<u8>)>, i: int)
    requires
        distinct_keys(s),
        0 <= i < s.len(),
    ensures
        entries_map(s).contains_key(s[i].0@),
        entries_map(s)[s[i].0@] == s[i].1@,
    decreases s.len(),
{
    if i < s.len() - 1 {
        assert(forall|j: int| 0 <= j < s.len() - 1 ==> s.drop_last()[j] == s[j]);
        lemma_entries_map_at(s.drop_last(), i);
        assert(s[i].0@ != s.last().0@);
    }
}

/// Replacing the binding that holds a key updates the map at that key.
proof fn lemma_entries_map_update(s: Seq<(Vec<u8>, Vec<u8>)>, i: int, p: (Vec<u8>, Vec<u8>))
    requires
        distinct_keys(s),
        0 <= i < s.len(),
        s[i].0@ == p.0@,
    ensures
        entries_map(s.update(i, p)) == entries_map(s).insert(p.0@, p.1@),
    decreases s.len(),
{
    let t = s.update(i, p);
    if i == s.len() - 1 {
        assert(t.drop_last() =~= s.drop_last());
        assert(t.last() == p);
        assert(entries_map(s.drop_last()).insert(p.0@, p.1@) =~= entries_map(
            s.drop_last(),
        ).insert(s.last().0@, s.last().1@).insert(p.0@, p.1@));
    } else {
        assert(forall|j: int| 0 <= j < s.len() - 1 ==> s.drop_last()[j] == s[j]);
        assert(t.drop_last() =~= s.drop_last().update(i, p));
        assert(t.last() == s.last());
        lemma_entries_map_update(s.drop_last(), i, p);
        assert(s[i].0@ != s.last().0@);
        assert(entries_map(s.drop_last()).insert(p.0@, p.1@).insert(s.last().0@, s.last().1@)
            =~= entries_map(s.drop_last()).insert(s.last().0@, s.last().1@).insert(
            p.0@,
            p.1@,
        ));
    }
}

impl View for DB {
    type V = Map<Seq<u8>, Seq<u8>>;

    closed spec fn view(&self) -> Map<Seq<u8>, Seq<u8>> {
        entries_map(self.entries@)
    }
}

impl DB {
    /// The store's invariant: no key is bound twice.
    pub closed spec fn wf(&self) -> bool {
        distinct_keys(self.entries@)
    }

    /// Creates the store empty.
    pub fn init() -> (db: DB)
        ensures
            db.wf(),
            db@ == Map::<Seq<u8>, Seq<u8>>::empty(),
    {
        DB { entries: Vec::new() }
    }

    /// Binds `key` to `value`, replacing any earlier binding. Fire and
    /// forget from the sender's side: the effect is visible to every `get`
    /// applied after it in the owner's inbox order.
    pub fn set(&mut self, key: Vec<u8>, value: Vec<u8>)
        requires
            old(self).wf(),
        ensures
            final(self).wf(),
            final(self)@ == old(self)@.insert(key@, value@),
    {
        let n = self.entries.len();
        let mut i: usize = 0;
        while i < n
            invariant
                i <= n,
                n == self.entries@.len(),
                *self == *old(self),
                distinct_keys(self.entries@),
                forall|j: int| 0 <= j < i ==> (#[trigger] self.entries@[j]).0@ != key@,
            decreases n - i,
        {
            if crate::command::bytes_eq(&self.entries[i].0, &key) {
                proof {
                    lemma_entries_map_update(self.entries@, i as int, (key, value));
                }
                self.entries.set(i, (key, value));
                proof {
                    assert(distinct_keys(self.entries@));
                }
                return ;
            }
            i = i + 1;
        }
        proof {
            let pushed = self.entries@.push((key, value));
            assert(pushed.drop_last() =~= self.entries@);
            assert(distinct_keys(pushed));
        }
        self.entries.push((key, value));
    }

    /// Looks `key` up, returning a copy of the bound value, or nothing if
    /// the key is unbound.
    pub fn get(&self, key: &Vec<u8>) -> (r: Option<Vec<u8>>)
        requires
            self.wf(),
        ensures
            match r {
                Some(v) => self@.contains_key(key@) && v@ == self@[key@],
                None => !self@.contains_key(key@),
            },
    {
        let n = self.entries.len();
        let mut i: usize = 0;
        while i < n
            invariant
                i <= n,
                n == self.entries@.len(),
                self.wf(),
                forall|j: int| 0 <= j < i ==> (#[trigger] self.entries@[j]).0@ != key@,
            decreases n - i,
        {
            if crate::command::bytes_eq(&self.entries[i].0, key) {
                proof {
                    lemma_entries_map_at(self.entries@, i as int);
                }
                let value = &self.entries[i].1;
                return Some(copy_range(value, 0, value.len()));
            }
            i = i + 1;
        }
        proof {
            lemma_entries_map_contains(self.entries@, key@);
        }
        None
    }
}

// ---------------------------------------------------------------------------
// Dispatch.
// ---------------------------------------------------------------------------

/// The bytes of the reply `PONG`.
pub open spec fn spec_pong() -> Seq<u8> {
    seq![80u8, 79u8, 78u8, 71u8]
}

/// The bytes of the reply `OK`.
pub open spec fn spec_ok() -> Seq<u8> {
    seq![79u8, 75u8]
}

/// The bytes of the reply to a frame that is no command: `ERR protocol error`.
pub open spec fn spec_protocol_error() -> Seq<u8> {
    seq![
        69u8,
        82u8,
        82u8,
        32u8,
        112u8,
        114u8,
        111u8,
        116u8,
        111u8,
        99u8,
        111u8,
        108u8,
        32u8,
        101u8,
        114u8,
        114u8,
        111u8,
        114u8,
    ]
}

/// Builds the reply `PONG`.
fn pong_bytes() -> (v: Vec<u8>)
    ensures
        v@ == spec_pong(),
{
    let mut v: Vec<u8> = Vec::new();
    v.push(80);
    v.push(79);
    v.push(78);
    v.push(71);
    assert(v@ =~= spec_pong());
    v
}

/// Builds the reply `OK`.
fn ok_bytes() -> (v: Vec<u8>)
    ensures
        v@ == spec_ok(),
{
    let mut v: Vec<u8> = Vec::new();
    v.push(79);
    v.push(75);
    assert(v@ =~= spec_ok());
    v
}

/// Builds the reply `ERR protocol error`.
fn protocol_error_bytes() -> (v: Vec<u8>)
    ensures
        v@ == spec_protocol_error(),
{
    let mut v: Vec<u8> = Vec::new();
    v.push(69);
    v.push(82);
    v.push(82);
    v.push(32);
    v.push(112);
    v.push(114);
    v.push(111);
    v.push(116);
    v.push(111);
    v.push(99);
    v.push(111);
    v.push(108);
    v.push(32);
    v.push(101);
    v.push(114);
    v.push(114);
    v.push(111);
    v.push(114);
    assert(v@ =~= spec_protocol_error());
    v
}

/// What one received frame does to the store, and the reply it earns: a
/// frame that parses as no command earns a protocol-error reply and leaves
/// the store alone; `PING` earns `PONG`; `SET` binds the key and earns
/// `OK`; `GET` earns the bound value as a bulk string, or `Null` when the
/// key is unbound.
pub open spec fn spec_handle(m: Map<Seq<u8>, Seq<u8>>, f: FrameModel) -> (
    Map<Seq<u8>, Seq<u8>>,
    FrameModel,
) {
    match spec_parse_command(f) {
        None => (m, FrameModel::Error(spec_protocol_error())),
        Some(c) => match c {
            CommandModel::Ping => (m, FrameModel::Simple(spec_pong())),
            CommandModel::Put(k, v) => (m.insert(k, v), FrameModel::Simple(spec_ok())),
            CommandModel::Get(k) => (
                m,
                if m.contains_key(k) {
                    FrameModel::Bulk(m[k])
                } else {
                    FrameModel::Null
                },
            ),
        },
    }
}

/// One step of a connection worker: parse the received frame, dispatch it
/// on the store, and return the reply frame to send back. A frame that is
/// no command earns an error reply and harms nothing, so the worker's loop
/// can go on.
pub fn handle_frame(db: &mut DB, frame: Frame) -> (reply: Frame)
    requires
        old(db).wf(),
    ensures
        final(db).wf(),
        final(db)@ == spec_handle(old(db)@, frame@).0,
        reply@ == spec_handle(old(db)@, frame@).1,
{
    match Command::try_from(frame) {
        Err(e) => Frame::Error(protocol_error_bytes()),
        Ok(c) => match c {
            Command::Ping => Frame::Simple(pong_bytes()),
            Command::Put(key, value) => {
                db.set(key, value);
                Frame::Simple(ok_bytes())
            },
            Command::Get(key) => match db.get(&key) {
                Some(value) => Frame::Bulk(value),
                None => Frame::Null,
            },
        },
    }
}

// ---------------------------------------------------------------------------
// What the dispatch step guarantees end to end.
// ---------------------------------------------------------------------------

/// `PING` needs no prior state: on any store it earns `Simple("PONG")`
/// and changes nothing.
pub proof fn lemma_ping_reply(m: Map<Seq<u8>, Seq<u8>>)
    ensures
        spec_handle(m, spec_command_frame(CommandModel::Ping)) == (
            m,
            FrameModel::Simple(spec_pong()),
        ),
{
    lemma_parse_command_round(CommandModel::Ping);
}

/// Setting a key and then getting it, in the owner's inbox order, earns
/// `Simple("OK")` and then exactly the value just set; getting a key that
/// nothing bound earns `Null`; none of the `GET`s changes the store.
pub proof fn lemma_set_then_get(
    m: Map<Seq<u8>, Seq<u8>>,
    k: Seq<u8>,
    v: Seq<u8>,
    missing: Seq<u8>,
)
    requires
        is_utf8(k),
        is_utf8(missing),
        missing != k,
        !m.contains_key(missing),
    ensures
        ({
            let set_step = spec_handle(m, spec_command_frame(CommandModel::Put(k, v)));
            let get_step = spec_handle(set_step.0, spec_command_frame(CommandModel::Get(k)));
            let miss_step = spec_handle(
                set_step.0,
                spec_command_frame(CommandModel::Get(missing)),
            );
            &&& set_step.1 == FrameModel::Simple(spec_ok())
            &&& get_step.1 == FrameModel::Bulk(v)
            &&& get_step.0 == set_step.0
            &&& miss_step.1 == FrameModel::Null
            &&& miss_step.0 == set_step.0
        }),
{
    lemma_parse_command_round(CommandModel::Put(k, v));
    lemma_parse_command_round(CommandModel::Get(k));
    lemma_parse_command_round(CommandModel::Get(missing));
}

/// No lost update: two `SET`s of distinct keys funnelled through the one
/// serialized owner leave both bindings in place, whichever of the two the
/// owner's inbox delivers first.
pub proof fn lemma_independent_sets(
    m: Map<Seq<u8>, Seq<u8>>,
    k1: Seq<u8>,
    v1: Seq<u8>,
    k2: Seq<u8>,
    v2: Seq<u8>,
)
    requires
        k1 != k2,
        is_utf8(k1),
        is_utf8(k2),
    ensures
        ({
            let first_then_second = spec_handle(
                spec_handle(m, spec_command_frame(CommandModel::Put(k1, v1))).0,
                spec_command_frame(CommandModel::Put(k2, v2)),
            ).0;
            let second_then_first = spec_handle(
                spec_handle(m, spec_command_frame(CommandModel::Put(k2, v2))).0,
                spec_command_frame(CommandModel::Put(k1, v1)),
            ).0;
            &&& spec_handle(
                first_then_second,
                spec_command_frame(CommandModel::Get(k1)),
            ).1 == FrameModel::Bulk(v1)
            &&& spec_handle(
                first_then_second,
                spec_command_frame(CommandModel::Get(k2)),
            ).1 == FrameModel::Bulk(v2)
            &&& spec_handle(
                second_then_first,
                spec_command_frame(CommandModel::Get(k1)),
            ).1 == FrameModel::Bulk(v1)
            &&& spec_handle(
                second_then_first,
                spec_command_frame(CommandModel::Get(k2)),
            ).1 == FrameModel::Bulk(v2)
        }),
{
    lemma_parse_command_round(CommandModel::Put(k1, v1));
    lemma_parse_command_round(CommandModel::Put(k2, v2));
    lemma_parse_command_round(CommandModel::Get(k1));
    lemma_parse_command_round(CommandModel::Get(k2));
}

} // verus!
