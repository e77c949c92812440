//! The wire-format codec: the `Frame` data type, its byte-exact encoding, and
//! the decoder working over a byte buffer.
//!
//! The wire format is line/length-prefixed. Every frame starts with one tag
//! byte; header lines are terminated by CRLF:
//!
//! ```text
//! Simple string : + <text> \r\n
//! Error         : - <text> \r\n
//! Integer       : : <decimal i32> \r\n
//! Bulk string   : $ <len> \r\n <len bytes> \r\n    (len == -1 means Null)
//! Array         : * <count> \r\n <count frames>
//! ```

use vstd::prelude::*;

verus! {

/// One decoded wire-protocol unit.
///
/// Payloads are byte strings: the protocol itself carries arbitrary bytes,
/// framed by the leading tag and the CRLF-terminated header lines.
#[derive(Debug, PartialEq, Eq)]
pub enum Frame {
    Simple(Vec<u8>),
    Error(Vec<u8>),
    Integer(i32),
    Bulk(Vec<u8>),
    Null,
    Array(Vec<Frame>),
}

/// The mathematical model of a `Frame`: the same tree over `Seq` and `int`.
#[verifier::ext_equal]
pub enum FrameModel {
    Simple(Seq<u8>),
    Error(Seq<u8>),
    Integer(int),
    Bulk(Seq<u8>),
    Null,
    Array(Seq<FrameModel>),
}

/// The model of a frame: each payload replaced by its sequence of bytes.
pub open spec fn frame_model(f: Frame) -> FrameModel
    decreases f,
{
    match f {
        Frame::Simple(s) => FrameModel::Simple(s@),
        Frame::Error(e) => FrameModel::Error(e@),
        Frame::Integer(i) => FrameModel::Integer(i as int),
        Frame::Bulk(b) => FrameModel::Bulk(b@),
        Frame::Null => FrameModel::Null,
        Frame::Array(a) => FrameModel::Array(frames_model(a@)),
    }
}

/// The elementwise model of a sequence of frames.
pub open spec fn frames_model(s: Seq<Frame>) -> Seq<FrameModel>
    decreases s,
{
    if s.len() == 0 {
        Seq::empty()
    } else {
        seq![frame_model(s[0])] + frames_model(s.drop_first())
    }
}

impl View for Frame {
    type V = FrameModel;

    open spec fn view(&self) -> FrameModel {
        frame_model(*self)
    }
}

pub broadcast proof fn lemma_frames_model_index(s: Seq<Frame>)
    ensures
        (#[trigger] frames_model(s)).len() == s.len(),
        forall|i: int| 0 <= i < s.len() ==> frames_model(s)[i] == frame_model(s[i]),
    decreases s,
{
    if s.len() > 0 {
        lemma_frames_model_index(s.drop_first());
    }
}

// ---------------------------------------------------------------------------
// Byte constants of the wire format.
// ---------------------------------------------------------------------------

/// Carriage return.
pub const CR: u8 = 13;

/// Line feed.
pub const LF: u8 = 10;

/// `+`, the tag of a simple string.
pub const TAG_SIMPLE: u8 = 43;

/// `-`, the tag of an error string.
pub const TAG_ERROR: u8 = 45;

/// `:`, the tag of an integer.
pub const TAG_INTEGER: u8 = 58;

/// `$`, the tag of a bulk string.
pub const TAG_BULK: u8 = 36;

/// `*`, the tag of an array.
pub const TAG_ARRAY: u8 = 42;

/// `0`, the first decimal digit.
pub const DIGIT_ZERO: u8 = 48;

/// `+`, an optional positive sign before a decimal number.
pub const SIGN_PLUS: u8 = 43;

/// `-`, the sign of a negative decimal number.
pub const SIGN_MINUS: u8 = 45;

/// `1`, the digit of the absent-value sentinel length `-1`.
pub const DIGIT_ONE: u8 = 49;

// ---------------------------------------------------------------------------
// Decimal text.
// ---------------------------------------------------------------------------

/// The decimal digits of `n`, most significant first, no leading zeros
/// (a single `0` for zero).
pub open spec fn spec_digits(n: nat) -> Seq<u8>
    decreases n,
{
    if n < 10 {
        seq![(n + 48) as u8]
    } else {
        spec_digits(n / 10).push((n % 10 + 48) as u8)
    }
}

/// The decimal text of a signed integer: a minus sign only if negative,
/// then the digits of the magnitude.
pub open spec fn spec_decimal(i: int) -> Seq<u8> {
    if i < 0 {
        seq![SIGN_MINUS] + spec_digits((-i) as nat)
    } else {
        spec_digits(i as nat)
    }
}

// ---------------------------------------------------------------------------
// Encoding.
// ---------------------------------------------------------------------------

/// The byte-exact encoding of one frame.
pub open spec fn spec_encode(f: FrameModel) -> Seq<u8>
    decreases f,
{
    match f {
        FrameModel::Simple(s) => seq![TAG_SIMPLE] + s + seq![CR, LF],
        FrameModel::Error(e) => seq![TAG_ERROR] + e + seq![CR, LF],
        FrameModel::Integer(i) => seq![TAG_INTEGER] + spec_decimal(i) + seq![CR, LF],
        FrameModel::Bulk(b) => seq![TAG_BULK] + spec_decimal(b.len() as int) + seq![CR, LF] + b
            + seq![CR, LF],
        FrameModel::Null => seq![TAG_BULK, SIGN_MINUS, DIGIT_ONE, CR, LF],
        FrameModel::Array(a) => seq![TAG_ARRAY] + spec_decimal(a.len() as int) + seq![CR, LF]
            + spec_encode_seq(a),
    }
}

/// The concatenation of the encodings of a sequence of frames, in order.
pub open spec fn spec_encode_seq(s: Seq<FrameModel>) -> Seq<u8>
    decreases s,
{
    if s.len() == 0 {
        Seq::empty()
    } else {
        spec_encode(s[0]) + spec_encode_seq(s.drop_first())
    }
}

/// Appends the decimal digits of `n` to `out`.
fn push_digits(n: u64, out: &mut Vec<u8>)
    ensures
        final(out)@ == old(out)@ + spec_digits(n as nat),
    decreases n,
{
    if n < 10 {
        out.push(n as u8 + DIGIT_ZERO);
        assert(out@ =~= old(out)@ + spec_digits(n as nat));
    } else {
        push_digits(n / 10, out);
        out.push((n % 10) as u8 + DIGIT_ZERO);
        assert(out@ =~= old(out)@ + spec_digits(n as nat));
    }
}

/// Appends the decimal text of `i` to `out`.
fn push_decimal_i32(i: i32, out: &mut Vec<u8>)
    ensures
        final(out)@ == old(out)@ + spec_decimal(i as int),
    decreases i,
{
    if i < 0 {
        out.push(SIGN_MINUS);
        let magnitude: u64 = (-(i as i64)) as u64;
        push_digits(magnitude, out);
        assert(out@ =~= old(out)@ + spec_decimal(i as int));
    } else {
        push_digits(i as u64, out);
    }
}

/// Appends a copy of `bytes` to `out`.
fn push_bytes(bytes: &Vec<u8>, out: &mut Vec<u8>)
    ensures
        final(out)@ == old(out)@ + bytes@,
{
    out.extend_from_slice(bytes.as_slice());
    assert(out@ =~= old(out)@ + bytes@);
}

/// `spec_encode_seq` grows by one encoding for each element taken.
proof fn lemma_encode_seq_take(s: Seq<FrameModel>, k: int)
    requires
        0 <= k < s.len(),
    ensures
        spec_encode_seq(s.take(k + 1)) == spec_encode_seq(s.take(k)) + spec_encode(s[k]),
    decreases k,
{
    if k == 0 {
        assert(s.take(1).drop_first() =~= s.take(0));
        assert(s.take(1)[0] == s[0]);
        assert(spec_encode_seq(s.take(0)) == Seq::<u8>::empty());
        assert(spec_encode_seq(s.take(1)) =~= spec_encode_seq(s.take(0)) + spec_encode(s[0]));
    } else {
        let t = s.drop_first();
        lemma_encode_seq_take(t, k - 1);
        assert(s.take(k + 1).drop_first() =~= t.take(k));
        assert(s.take(k).drop_first() =~= t.take(k - 1));
        assert(s.take(k + 1)[0] == s[0]);
        assert(s.take(k)[0] == s[0]);
        assert(t[k - 1] == s[k]);
        assert(spec_encode_seq(s.take(k + 1)) == spec_encode(s[0]) + spec_encode_seq(t.take(k)));
        assert(spec_encode_seq(s.take(k)) == spec_encode(s[0]) + spec_encode_seq(t.take(k - 1)));
        assert(spec_encode_seq(s.take(k + 1)) =~= spec_encode_seq(s.take(k)) + spec_encode(s[k]));
    }
}

impl Frame {
    /// Encodes this frame, appending the bytes to `out`.
    fn encode_into(&self, out: &mut Vec<u8>)
        ensures
            final(out)@ == old(out)@ + spec_encode(self@),
        decreases *self,
    {
        broadcast use lemma_frames_model_index;

        match self {
            Frame::Simple(s) => {
                out.push(TAG_SIMPLE);
                push_bytes(s, out);
                out.push(CR);
                out.push(LF);
                assert(out@ =~= old(out)@ + spec_encode(self@));
            },
            Frame::Error(e) => {
                out.push(TAG_ERROR);
                push_bytes(e, out);
                out.push(CR);
                out.push(LF);
                assert(out@ =~= old(out)@ + spec_encode(self@));
            },
            Frame::Integer(i) => {
                out.push(TAG_INTEGER);
                push_decimal_i32(*i, out);
                out.push(CR);
                out.push(LF);
                assert(out@ =~= old(out)@ + spec_encode(self@));
            },
            Frame::Bulk(b) => {
                out.push(TAG_BULK);
                push_digits(b.len() as u64, out);
                out.push(CR);
                out.push(LF);
                push_bytes(b, out);
                out.push(CR);
                out.push(LF);
                assert(out@ =~= old(out)@ + spec_encode(self@));
            },
            Frame::Null => {
                out.push(TAG_BULK);
                out.push(SIGN_MINUS);
                out.push(DIGIT_ONE);
                out.push(CR);
                out.push(LF);
                assert(out@ =~= old(out)@ + spec_encode(self@));
            },
            Frame::Array(a) => {
                out.push(TAG_ARRAY);
                push_digits(a.len() as u64, out);
                out.push(CR);
                out.push(LF);
                let ghost header = out@;
                let ghost elems = frames_model(a@);
                let n = a.len();
                let mut k: usize = 0;
                while k < n
                    invariant
                        *self is Array,
                        self->Array_0 == *a,
                        n == a.len(),
                        k <= n,
                        elems == frames_model(a@),
                        elems.len() == n,
                        forall|i: int| 0 <= i < n ==> elems[i] == frame_model(a@[i]),
                        out@ == header + spec_encode_seq(elems.take(k as int)),
                    decreases n - k,
                {
                    proof {
                        broadcast use vstd::std_specs::vec::axiom_vec_index_decreases;

                        assert(*a == self->Array_0);
                        assert(decreases_to!(*self => self->Array_0));
                        assert(decreases_to!(*a => a[k as int]));
                    }
                    a[k].encode_into(out);
                    proof {
                        lemma_encode_seq_take(elems, k as int);
                        assert(out@ =~= header + spec_encode_seq(elems.take(k + 1 as int)));
                    }
                    k = k + 1;
                }
                proof {
                    assert(elems.take(n as int) =~= elems);
                    assert(out@ =~= old(out)@ + spec_encode(self@));
                }
            },
        }
    }

    /// Encodes this frame to bytes; always succeeds, a pure function of the
    /// frame's value.
    pub fn encode(&self) -> (out: Vec<u8>)
        ensures
            out@ == spec_encode(self@),
    {
        let mut out: Vec<u8> = Vec::new();
        self.encode_into(&mut out);
        out
    }
}

// ---------------------------------------------------------------------------
// Decoding: the mathematical decoder.
// ---------------------------------------------------------------------------

/// The index of the first line feed in `s`, if any.
pub open spec fn find_lf(s: Seq<u8>) -> Option<int>
    decreases s.len(),
{
    if s.len() == 0 {
        None
    } else if s[0] == LF {
        Some(0int)
    } else {
        match find_lf(s.drop_first()) {
            None => None,
            Some(j) => Some(j + 1),
        }
    }
}

/// What reading one CRLF-terminated header line yields.
#[verifier::ext_equal]
pub enum LineOutcome {
    /// The line's content without the CRLF, and the index just past the LF.
    Line(Seq<u8>, int),
    /// No line feed yet: the buffer ends inside the line.
    MoreNeeded,
    /// The first line feed is not preceded by a carriage return.
    Bad,
}

/// Reads one header line from the start of `s`: everything up to the first
/// CRLF. A line feed not preceded by a carriage return is malformed.
pub open spec fn spec_read_line(s: Seq<u8>) -> LineOutcome {
    match find_lf(s) {
        None => LineOutcome::MoreNeeded,
        Some(j) => if j >= 1 && s[j - 1] == CR {
            LineOutcome::Line(s.subrange(0, j - 1), j + 1)
        } else {
            LineOutcome::Bad
        },
    }
}

/// Whether `b` is an ASCII decimal digit.
pub open spec fn is_digit(b: u8) -> bool {
    DIGIT_ZERO <= b <= 57
}

/// Whether every byte of `s` is an ASCII decimal digit.
pub open spec fn all_digits(s: Seq<u8>) -> bool {
    forall|k: int| 0 <= k < s.len() ==> is_digit(#[trigger] s[k])
}

/// The value of a sequence of decimal digits, most significant first.
pub open spec fn digits_value(s: Seq<u8>) -> int
    decreases s.len(),
{
    if s.len() == 0 {
        0
    } else {
        digits_value(s.drop_last()) * 10 + (s.last() - DIGIT_ZERO)
    }
}

/// The signed 32-bit value of a decimal text: an optional sign, then at
/// least one digit, and the value must lie within the `i32` range. Leading
/// zeros are accepted.
pub open spec fn spec_parse_i32(s: Seq<u8>) -> Option<int> {
    let body = if s.len() >= 1 && (s[0] == SIGN_PLUS || s[0] == SIGN_MINUS) {
        s.drop_first()
    } else {
        s
    };
    let value = if s.len() >= 1 && s[0] == SIGN_MINUS {
        -digits_value(body)
    } else {
        digits_value(body)
    };
    if body.len() >= 1 && all_digits(body) && i32::MIN <= value <= i32::MAX {
        Some(value)
    } else {
        None
    }
}

/// What decoding one frame from the front of a buffer yields.
#[verifier::ext_equal]
pub enum DecodeOutcome {
    /// One complete frame, and the number of bytes it occupied.
    Done(FrameModel, int),
    /// The buffer holds only a prefix of a frame.
    MoreNeeded,
    /// The buffer cannot begin a frame.
    Invalid,
}

/// What decoding a fixed number of consecutive frames yields.
#[verifier::ext_equal]
pub enum SeqOutcome {
    /// The frames, and the number of bytes they occupied together.
    Done(Seq<FrameModel>, int),
    /// The buffer ends inside one of the frames.
    MoreNeeded,
    /// One of the frames is malformed.
    Invalid,
}

/// Decodes exactly one frame from the front of `s`: one tag byte, then the
/// form the tag dictates. Exactly the bytes of that one frame are consumed.
pub open spec fn spec_decode(s: Seq<u8>) -> DecodeOutcome
    decreases s.len(), 0nat,
{
    if s.len() == 0 {
        DecodeOutcome::MoreNeeded
    } else {
        let tag = s[0];
        let rest = s.drop_first();
        if tag == TAG_SIMPLE {
            match spec_read_line(rest) {
                LineOutcome::Line(content, next) => DecodeOutcome::Done(
                    FrameModel::Simple(content),
                    1 + next,
                ),
                LineOutcome::MoreNeeded => DecodeOutcome::MoreNeeded,
                LineOutcome::Bad => DecodeOutcome::Invalid,
            }
        } else if tag == TAG_ERROR {
            match spec_read_line(rest) {
                LineOutcome::Line(content, next) => DecodeOutcome::Done(
                    FrameModel::Error(content),
                    1 + next,
                ),
                LineOutcome::MoreNeeded => DecodeOutcome::MoreNeeded,
                LineOutcome::Bad => DecodeOutcome::Invalid,
            }
        } else if tag == TAG_INTEGER {
            match spec_read_line(rest) {
                LineOutcome::Line(content, next) => match spec_parse_i32(content) {
                    Some(v) => DecodeOutcome::Done(FrameModel::Integer(v), 1 + next),
                    None => DecodeOutcome::Invalid,
                },
                LineOutcome::MoreNeeded => DecodeOutcome::MoreNeeded,
                LineOutcome::Bad => DecodeOutcome::Invalid,
            }
        } else if tag == TAG_BULK {
            match spec_read_line(rest) {
                LineOutcome::Line(content, next) => match spec_parse_i32(content) {
                    Some(v) => if v == -1 {
                        DecodeOutcome::Done(FrameModel::Null, 1 + next)
                    } else if v < -1 {
                        DecodeOutcome::Invalid
                    } else if s.len() >= 1 + next + v + 2 {
                        DecodeOutcome::Done(
                            FrameModel::Bulk(s.subrange(1 + next, 1 + next + v)),
                            1 + next + v + 2,
                        )
                    } else {
                        DecodeOutcome::MoreNeeded
                    },
                    None => DecodeOutcome::Invalid,
                },
                LineOutcome::MoreNeeded => DecodeOutcome::MoreNeeded,
                LineOutcome::Bad => DecodeOutcome::Invalid,
            }
        } else if tag == TAG_ARRAY {
            match spec_read_line(rest) {
                LineOutcome::Line(content, next) => match spec_parse_i32(content) {
                    Some(v) => if v < 0 {
                        DecodeOutcome::Invalid
                    } else {
                        // A successful header read always lands within the
                        // buffer; the bound here only justifies termination.
                        let start = if 1 <= 1 + next <= s.len() {
                            1 + next
                        } else {
                            1
                        };
                        match spec_decode_n(s.skip(start), v as nat) {
                            SeqOutcome::Done(frames, used) => DecodeOutcome::Done(
                                FrameModel::Array(frames),
                                start + used,
                            ),
                            SeqOutcome::MoreNeeded => DecodeOutcome::MoreNeeded,
                            SeqOutcome::Invalid => DecodeOutcome::Invalid,
                        }
                    },
                    None => DecodeOutcome::Invalid,
                },
                LineOutcome::MoreNeeded => DecodeOutcome::MoreNeeded,
                LineOutcome::Bad => DecodeOutcome::Invalid,
            }
        } else {
            DecodeOutcome::Invalid
        }
    }
}

/// Decodes exactly `n` consecutive frames from the front of `s`.
pub open spec fn spec_decode_n(s: Seq<u8>, n: nat) -> SeqOutcome
    decreases s.len(), n + 1,
{
    if n == 0 {
        SeqOutcome::Done(Seq::empty(), 0)
    } else {
        match spec_decode(s) {
            DecodeOutcome::Done(f, used) => {
                // A decoded frame always occupies from one byte up to the
                // whole buffer; the bound here only justifies termination.
                let step = if 1 <= used <= s.len() {
                    used
                } else if s.len() >= 1 {
                    1
                } else {
                    0
                };
                match spec_decode_n(s.skip(step), (n - 1) as nat) {
                    SeqOutcome::Done(frames, used2) => SeqOutcome::Done(
                        seq![f] + frames,
                        step + used2,
                    ),
                    SeqOutcome::MoreNeeded => SeqOutcome::MoreNeeded,
                    SeqOutcome::Invalid => SeqOutcome::Invalid,
                }
            },
            DecodeOutcome::MoreNeeded => SeqOutcome::MoreNeeded,
            DecodeOutcome::Invalid => SeqOutcome::Invalid,
        }
    }
}

// ---------------------------------------------------------------------------
// Facts about the mathematical decoder.
// ---------------------------------------------------------------------------

/// `find_lf` returns the index of the first line feed: the byte there is a
/// line feed and no earlier byte is.
pub proof fn lemma_find_lf_bounds(s: Seq<u8>)
    ensures
        find_lf(s) matches Some(j) ==> 0 <= j < s.len() && s[j] == LF && (forall|k: int|
            0 <= k < j ==> s[k] != LF),
    decreases s.len(),
{
    if s.len() > 0 && s[0] != LF {
        lemma_find_lf_bounds(s.drop_first());
        assert(forall|k: int| 1 <= k < s.len() ==> s[k] == s.drop_first()[k - 1]);
    }
}

/// If the first line feed of `s` stands at `j`, `find_lf` finds it.
pub proof fn lemma_find_lf_finds(s: Seq<u8>, j: int)
    requires
        0 <= j < s.len(),
        s[j] == LF,
        forall|k: int| 0 <= k < j ==> s[k] != LF,
    ensures
        find_lf(s) == Some(j),
    decreases s.len(),
{
    if j > 0 {
        lemma_find_lf_finds(s.drop_first(), j - 1);
    }
}

/// If `s` holds no line feed at all, `find_lf` finds none.
pub proof fn lemma_find_lf_none(s: Seq<u8>)
    requires
        forall|k: int| 0 <= k < s.len() ==> s[k] != LF,
    ensures
        find_lf(s) is None,
    decreases s.len(),
{
    if s.len() > 0 {
        lemma_find_lf_none(s.drop_first());
    }
}

/// The value of a digit string is never negative.
pub proof fn lemma_digits_value_nonneg(s: Seq<u8>)
    requires
        all_digits(s),
    ensures
        digits_value(s) >= 0,
    decreases s.len(),
{
    if s.len() > 0 {
        assert(all_digits(s.drop_last()));
        lemma_digits_value_nonneg(s.drop_last());
    }
}

/// Extending a digit string by one digit multiplies its value by ten and
/// adds the digit.
pub proof fn lemma_digits_value_take_step(s: Seq<u8>, m: int)
    requires
        0 <= m < s.len(),
    ensures
        digits_value(s.take(m + 1)) == digits_value(s.take(m)) * 10 + (s[m] - DIGIT_ZERO),
{
    assert(s.take(m + 1).drop_last() =~= s.take(m));
    assert(s.take(m + 1).last() == s[m]);
}

/// A prefix of a digit string never has a larger value than the whole.
pub proof fn lemma_digits_value_take_le(s: Seq<u8>, m: int)
    requires
        all_digits(s),
        0 <= m <= s.len(),
    ensures
        digits_value(s.take(m)) <= digits_value(s),
    decreases s.len() - m,
{
    if m < s.len() {
        lemma_digits_value_take_le(s, m + 1);
        lemma_digits_value_take_step(s, m);
        assert(all_digits(s.take(m)));
        lemma_digits_value_nonneg(s.take(m));
    } else {
        assert(s.take(m) =~= s);
    }
}

/// A decoded frame occupies at least one byte and at most the whole buffer.
pub proof fn lemma_decode_bounds(s: Seq<u8>)
    ensures
        spec_decode(s) matches DecodeOutcome::Done(f, used) ==> 1 <= used <= s.len(),
    decreases s.len(), 0nat,
{
    if s.len() > 0 {
        let rest = s.drop_first();
        lemma_find_lf_bounds(rest);
        if s[0] == TAG_ARRAY {
            match spec_read_line(rest) {
                LineOutcome::Line(content, next) => {
                    match spec_parse_i32(content) {
                        Some(v) => {
                            if v >= 0 {
                                lemma_decode_n_bounds(s.skip(1 + next), v as nat);
                            }
                        },
                        None => {},
                    }
                },
                LineOutcome::MoreNeeded => {},
                LineOutcome::Bad => {},
            }
        }
    }
}

/// Decoding `n` frames consumes between zero bytes and the whole buffer,
/// and yields exactly `n` frames.
pub proof fn lemma_decode_n_bounds(s: Seq<u8>, n: nat)
    ensures
        spec_decode_n(s, n) matches SeqOutcome::Done(frames, used) ==> 0 <= used <= s.len()
            && frames.len() == n,
    decreases s.len(), n + 1,
{
    if n > 0 {
        lemma_decode_bounds(s);
        match spec_decode(s) {
            DecodeOutcome::Done(f, used) => {
                lemma_decode_n_bounds(s.skip(used), (n - 1) as nat);
            },
            DecodeOutcome::MoreNeeded => {},
            DecodeOutcome::Invalid => {},
        }
    }
}

// ---------------------------------------------------------------------------
// The executable decoder.
// ---------------------------------------------------------------------------

/// Scans `buf` for the first line feed at or after `from`.
fn find_lf_exec(buf: &Vec<u8>, from: usize) -> (r: Option<usize>)
    requires
        from <= buf.len(),
    ensures
        match r {
            Some(j) => from <= j < buf.len() && find_lf(buf@.skip(from as int)) == Some(
                j - from,
            ),
            None => find_lf(buf@.skip(from as int)) is None,
        },
{
    let ghost s = buf@.skip(from as int);
    let mut j: usize = from;
    while j < buf.len()
        invariant
            from <= j <= buf.len(),
            s == buf@.skip(from as int),
            forall|k: int| from <= k < j ==> buf@[k] != LF,
        decreases buf.len() - j,
    {
        if buf[j] == LF {
            proof {
                assert(forall|k: int| 0 <= k < j - from ==> s[k] == buf@[from + k]);
                lemma_find_lf_finds(s, j - from);
            }
            return Some(j);
        }
        j = j + 1;
    }
    proof {
        assert(forall|k: int| 0 <= k < s.len() ==> s[k] == buf@[from + k]);
        lemma_find_lf_none(s);
    }
    None
}

/// Copies `buf[a..b]` into a fresh vector.
pub(crate) fn copy_range(buf: &Vec<u8>, a: usize, b: usize) -> (r: Vec<u8>)
    requires
        a <= b <= buf.len(),
    ensures
        r@ == buf@.subrange(a as int, b as int),
{
    let mut r: Vec<u8> = Vec::new();
    let mut i: usize = a;
    while i < b
        invariant
            a <= i <= b <= buf.len(),
            r@ == buf@.subrange(a as int, i as int),
        decreases b - i,
    {
        r.push(buf[i]);
        assert(r@ =~= buf@.subrange(a as int, i + 1 as int));
        i = i + 1;
    }
    r
}

/// Reads one CRLF-terminated header line beginning at `from`, yielding its
/// content and the index just past the line feed.
fn read_line_exec(buf: &Vec<u8>, from: usize) -> (r: Result<(Vec<u8>, usize), DecodingError>)
    requires
        from <= buf.len(),
    ensures
        match r {
            Ok(line) => {
                &&& spec_read_line(buf@.skip(from as int)) == LineOutcome::Line(
                    line.0@,
                    line.1 - from,
                )
                &&& from + 2 <= line.1 <= buf.len()
            },
            Err(e) => match e {
                DecodingError::Incomplete => spec_read_line(buf@.skip(from as int))
                    is MoreNeeded,
                DecodingError::InvalidFormat => spec_read_line(buf@.skip(from as int)) is Bad,
                DecodingError::EOF => false,
                DecodingError::Other => false,
            },
        },
{
    let ghost s = buf@.skip(from as int);
    match find_lf_exec(buf, from) {
        None => Err(DecodingError::Incomplete),
        Some(j) => {
            proof {
                lemma_find_lf_bounds(s);
            }
            if j == from || buf[j - 1] != CR {
                Err(DecodingError::InvalidFormat)
            } else {
                let content = copy_range(buf, from, j - 1);
                proof {
                    assert(content@ =~= s.subrange(0, j - from - 1));
                }
                Ok((content, j + 1))
            }
        },
    }
}

/// Parses a decimal text as a signed 32-bit integer, exactly as the wire
/// format's header lines require.
fn parse_i32_exec(s: &Vec<u8>) -> (r: Option<i32>)
    ensures
        match r {
            Some(v) => spec_parse_i32(s@) == Some(v as int),
            None => spec_parse_i32(s@) is None,
        },
{
    let n = s.len();
    let mut i: usize = 0;
    let mut negative = false;
    if n >= 1 && (s[0] == SIGN_PLUS || s[0] == SIGN_MINUS) {
        negative = s[0] == SIGN_MINUS;
        i = 1;
    }
    let ghost sign_len = i as int;
    let ghost body = if sign_len == 1 {
        s@.drop_first()
    } else {
        s@
    };
    if i >= n {
        // No digits at all.
        return None;
    }
    let mut acc: u64 = 0;
    while i < n
        invariant
            sign_len <= i <= n,
            sign_len < n,
            n == s@.len(),
            0 <= sign_len <= 1,
            (sign_len == 1) == (s@.len() >= 1 && (s@[0] == SIGN_PLUS || s@[0] == SIGN_MINUS)),
            negative == (s@.len() >= 1 && s@[0] == SIGN_MINUS && sign_len == 1),
            body == if sign_len == 1 {
                s@.drop_first()
            } else {
                s@
            },
            body.len() == n - sign_len,
            forall|k: int| 0 <= k < body.len() ==> body[k] == s@[k + sign_len],
            all_digits(body.take(i - sign_len)),
            acc == digits_value(body.take(i - sign_len)),
            acc <= 2147483648,
        decreases n - i,
    {
        let b = s[i];
        if b < DIGIT_ZERO || b > 57 {
            proof {
                assert(!is_digit(body[i - sign_len]));
            }
            return None;
        }
        proof {
            lemma_digits_value_take_step(body, i - sign_len);
            assert(body.take(i - sign_len).push(body[i - sign_len]) =~= body.take(
                i + 1 - sign_len,
            ));
            assert(all_digits(body.take(i + 1 - sign_len)));
        }
        acc = acc * 10 + (b - DIGIT_ZERO) as u64;
        i = i + 1;
        if acc > 2147483648 {
            // The digits seen so far already exceed every i32 magnitude, and
            // further digits can only grow the value.
            proof {
                if all_digits(body) {
                    assert(body.take(body.len() as int) =~= body);
                    lemma_digits_value_take_le(body, i - sign_len);
                }
            }
            return None;
        }
    }
    proof {
        assert(body.take(n - sign_len) =~= body);
    }
    if negative {
        Some((-(acc as i64)) as i32)
    } else {
        if acc > 2147483647 {
            None
        } else {
            Some(acc as i32)
        }
    }
}

impl Frame {
    /// Decodes exactly one frame from `buf`, beginning at index `from`.
    ///
    /// On success the frame and the index just past its last byte are
    /// returned: exactly the bytes of one frame are consumed, never more.
    /// `Incomplete` reports that the buffer holds only a prefix of a frame,
    /// so that feeding more bytes and retrying may succeed; `InvalidFormat`
    /// reports a malformed tag, header line, length or integer.
    pub fn decode(buf: &Vec<u8>, from: usize) -> (r: Result<(Frame, usize), DecodingError>)
        requires
            from <= buf.len(),
        ensures
            match r {
                Ok(v) => {
                    &&& spec_decode(buf@.skip(from as int)) == DecodeOutcome::Done(
                        v.0@,
                        v.1 - from,
                    )
                    &&& from < v.1 <= buf.len()
                },
                Err(e) => match e {
                    DecodingError::Incomplete => spec_decode(buf@.skip(from as int))
                        is MoreNeeded,
                    DecodingError::InvalidFormat => spec_decode(buf@.skip(from as int))
                        is Invalid,
                    DecodingError::EOF => false,
                    DecodingError::Other => false,
                },
            },
        decreases buf.len() - from, 0nat,
    {
        let ghost s = buf@.skip(from as int);
        if from == buf.len() {
            return Err(DecodingError::Incomplete);
        }
        let tag = buf[from];
        proof {
            assert(s[0] == tag);
            assert(s.drop_first() =~= buf@.skip(from + 1 as int));
        }
        if tag == TAG_SIMPLE {
            match read_line_exec(buf, from + 1) {
                Ok(line) => Ok((Frame::Simple(line.0), line.1)),
                Err(e) => Err(e),
            }
        } else if tag == TAG_ERROR {
            match read_line_exec(buf, from + 1) {
                Ok(line) => Ok((Frame::Error(line.0), line.1)),
                Err(e) => Err(e),
            }
        } else if tag == TAG_INTEGER {
            match read_line_exec(buf, from + 1) {
                Ok(line) => match parse_i32_exec(&line.0) {
                    Some(v) => Ok((Frame::Integer(v), line.1)),
                    None => Err(DecodingError::InvalidFormat),
                },
                Err(e) => Err(e),
            }
        } else if tag == TAG_BULK {
            match read_line_exec(buf, from + 1) {
                Ok(line) => match parse_i32_exec(&line.0) {
                    Some(v) => {
                        if v == -1 {
                            Ok((Frame::Null, line.1))
                        } else if v < -1 {
                            Err(DecodingError::InvalidFormat)
                        } else {
                            let need = v as usize;
                            if buf.len() - line.1 >= need + 2 {
                                let payload = copy_range(buf, line.1, line.1 + need);
                                proof {
                                    assert(payload@ =~= s.subrange(
                                        line.1 - from,
                                        line.1 - from + need,
                                    ));
                                }
                                Ok((Frame::Bulk(payload), line.1 + need + 2))
                            } else {
                                Err(DecodingError::Incomplete)
                            }
                        }
                    },
                    None => Err(DecodingError::InvalidFormat),
                },
                Err(e) => Err(e),
            }
        } else if tag == TAG_ARRAY {
            match read_line_exec(buf, from + 1) {
                Ok(line) => match parse_i32_exec(&line.0) {
                    Some(v) => {
                        if v < 0 {
                            Err(DecodingError::InvalidFormat)
                        } else {
                            let count = v as usize;
                            proof {
                                assert(s.skip(line.1 - from) =~= buf@.skip(line.1 as int));
                            }
                            match decode_n_exec(buf, line.1, count) {
                                Ok(pair) => Ok((Frame::Array(pair.0), pair.1)),
                                Err(e) => Err(e),
                            }
                        }
                    },
                    None => Err(DecodingError::InvalidFormat),
                },
                Err(e) => Err(e),
            }
        } else {
            Err(DecodingError::InvalidFormat)
        }
    }
}

/// Decodes exactly `count` consecutive frames beginning at `from`.
fn decode_n_exec(buf: &Vec<u8>, from: usize, count: usize) -> (r: Result<
    (Vec<Frame>, usize),
    DecodingError,
>)
    requires
        from <= buf.len(),
    ensures
        match r {
            Ok(v) => {
                &&& spec_decode_n(buf@.skip(from as int), count as nat) == SeqOutcome::Done(
                    frames_model(v.0@),
                    v.1 - from,
                )
                &&& from <= v.1 <= buf.len()
            },
            Err(e) => match e {
                DecodingError::Incomplete => spec_decode_n(buf@.skip(from as int), count as nat)
                    is MoreNeeded,
                DecodingError::InvalidFormat => spec_decode_n(
                    buf@.skip(from as int),
                    count as nat,
                ) is Invalid,
                DecodingError::EOF => false,
                DecodingError::Other => false,
            },
        },
    decreases buf.len() - from, count,
{
    let mut frames: Vec<Frame> = Vec::new();
    let mut pos: usize = from;
    let mut k: usize = 0;
    proof {
        match spec_decode_n(buf@.skip(from as int), count as nat) {
            SeqOutcome::Done(fs, used) => {
                assert(frames_model(frames@) + fs =~= fs);
            },
            SeqOutcome::MoreNeeded => {},
            SeqOutcome::Invalid => {},
        }
    }
    while k < count
        invariant
            from <= pos <= buf.len(),
            k <= count,
            frames@.len() == k,
            match spec_decode_n(buf@.skip(pos as int), (count - k) as nat) {
                SeqOutcome::Done(fs, used) => spec_decode_n(buf@.skip(from as int), count as nat)
                    == SeqOutcome::Done(frames_model(frames@) + fs, pos - from + used),
                SeqOutcome::MoreNeeded => spec_decode_n(buf@.skip(from as int), count as nat)
                    is MoreNeeded,
                SeqOutcome::Invalid => spec_decode_n(buf@.skip(from as int), count as nat)
                    is Invalid,
            },
        decreases count - k,
    {
        match Frame::decode(buf, pos) {
            Ok(pair) => {
                let ghost old_frames = frames@;
                let (f, end) = pair;
                frames.push(f);
                proof {
                    broadcast use lemma_frames_model_index;

                    assert(buf@.skip(pos as int).skip(end - pos) =~= buf@.skip(end as int));
                    assert(frames_model(frames@) =~= frames_model(old_frames) + seq![f@]);
                    match spec_decode_n(buf@.skip(end as int), (count - k - 1) as nat) {
                        SeqOutcome::Done(fs2, u2) => {
                            assert((frames_model(old_frames) + seq![f@]) + fs2 =~= frames_model(
                                old_frames,
                            ) + (seq![f@] + fs2));
                        },
                        SeqOutcome::MoreNeeded => {},
                        SeqOutcome::Invalid => {},
                    }
                }
                pos = end;
                k = k + 1;
            },
            Err(e) => {
                return Err(e);
            },
        }
    }
    proof {
        assert(frames_model(frames@) + Seq::<FrameModel>::empty() =~= frames_model(frames@));
    }
    Ok((frames, pos))
}

// ---------------------------------------------------------------------------
// Round trip: decoding an encoding.
// ---------------------------------------------------------------------------

/// Whether a frame is representable on the wire such that decoding its
/// encoding restores it: simple and error text must not embed CR or LF
/// (they are line-framed), integers must be 32-bit, and bulk payloads and
/// arrays must not exceed the 32-bit length prefix.
pub open spec fn wf_frame(f: FrameModel) -> bool
    decreases f,
{
    match f {
        FrameModel::Simple(s) => forall|k: int| 0 <= k < s.len() ==> s[k] != CR && s[k] != LF,
        FrameModel::Error(e) => forall|k: int| 0 <= k < e.len() ==> e[k] != CR && e[k] != LF,
        FrameModel::Integer(i) => i32::MIN <= i <= i32::MAX,
        FrameModel::Bulk(b) => b.len() <= i32::MAX,
        FrameModel::Null => true,
        FrameModel::Array(a) => a.len() <= i32::MAX && wf_frames(a),
    }
}

/// Whether every frame of a sequence is representable.
pub open spec fn wf_frames(s: Seq<FrameModel>) -> bool
    decreases s,
{
    if s.len() == 0 {
        true
    } else {
        wf_frame(s[0]) && wf_frames(s.drop_first())
    }
}

/// `wf_frames` holds exactly when each element is well formed.
pub proof fn lemma_wf_frames_index(s: Seq<FrameModel>)
    ensures
        wf_frames(s) <==> (forall|i: int| 0 <= i < s.len() ==> wf_frame(#[trigger] s[i])),
    decreases s,
{
    if s.len() > 0 {
        lemma_wf_frames_index(s.drop_first());
        assert(forall|k: int| 1 <= k < s.len() ==> s[k] == s.drop_first()[k - 1]);
    }
}

/// The decimal digits of `n` are digits, have the value `n`, and there is
/// at least one of them.
pub proof fn lemma_spec_digits_facts(n: nat)
    ensures
        spec_digits(n).len() >= 1,
        all_digits(spec_digits(n)),
        digits_value(spec_digits(n)) == n,
    decreases n,
{
    if n < 10 {
        let s = spec_digits(n);
        assert(s.drop_last() =~= Seq::<u8>::empty());
        assert(digits_value(Seq::<u8>::empty()) == 0);
        assert(digits_value(s) == ((n + 48) as u8 - DIGIT_ZERO));
    } else {
        lemma_spec_digits_facts(n / 10);
        let base = spec_digits(n / 10);
        let s = spec_digits(n);
        assert(s.drop_last() =~= base);
        assert(forall|k: int| 0 <= k < base.len() ==> s[k] == base[k]);
        assert(digits_value(s) == digits_value(base) * 10 + ((n % 10 + 48) as u8 - DIGIT_ZERO));
        assert(n / 10 * 10 + n % 10 == n);
    }
}

/// The decimal text of an integer contains neither CR nor LF.
pub proof fn lemma_decimal_no_crlf(i: int)
    ensures
        forall|k: int|
            0 <= k < spec_decimal(i).len() ==> spec_decimal(i)[k] != CR && #[trigger] spec_decimal(
                i,
            )[k] != LF,
{
    if i < 0 {
        lemma_spec_digits_facts((-i) as nat);
        let d = spec_digits((-i) as nat);
        assert(forall|k: int| 1 <= k < spec_decimal(i).len() ==> spec_decimal(i)[k] == d[k - 1]);
    } else {
        lemma_spec_digits_facts(i as nat);
    }
}

/// Parsing the decimal text of an in-range integer restores it.
pub proof fn lemma_parse_decimal(i: int)
    requires
        i32::MIN <= i <= i32::MAX,
    ensures
        spec_parse_i32(spec_decimal(i)) == Some(i),
{
    if i < 0 {
        lemma_spec_digits_facts((-i) as nat);
        let s = spec_decimal(i);
        assert(s[0] == SIGN_MINUS);
        assert(s.drop_first() =~= spec_digits((-i) as nat));
    } else {
        lemma_spec_digits_facts(i as nat);
        let s = spec_decimal(i);
        assert(is_digit(s[0]));
    }
}

/// Reading a line from `content ++ CRLF ++ tail` yields exactly `content`,
/// provided `content` holds no line feed.
pub proof fn lemma_read_line_round(content: Seq<u8>, tail: Seq<u8>)
    requires
        forall|k: int| 0 <= k < content.len() ==> #[trigger] content[k] != LF,
    ensures
        spec_read_line(content + seq![CR, LF] + tail) == LineOutcome::Line(
            content,
            content.len() + 2int,
        ),
{
    let s = content + seq![CR, LF] + tail;
    lemma_find_lf_finds(s, content.len() + 1int);
    assert(s.subrange(0, content.len() as int) =~= content);
}

/// Round trip: decoding the encoding of a well-formed frame yields exactly
/// that frame, consumes exactly its bytes, and never reads into whatever
/// follows them.
#[verifier::rlimit(60)]
pub proof fn lemma_decode_encode(f: FrameModel, rest: Seq<u8>)
    requires
        wf_frame(f),
    ensures
        spec_decode(spec_encode(f) + rest) == DecodeOutcome::Done(
            f,
            spec_encode(f).len() as int,
        ),
    decreases f,
{
    let s = spec_encode(f) + rest;
    match f {
        FrameModel::Simple(content) => {
            assert(s[0] == TAG_SIMPLE);
            assert(s.drop_first() =~= content + seq![CR, LF] + rest);
            lemma_read_line_round(content, rest);
        },
        FrameModel::Error(content) => {
            assert(s[0] == TAG_ERROR);
            assert(s.drop_first() =~= content + seq![CR, LF] + rest);
            lemma_read_line_round(content, rest);
        },
        FrameModel::Integer(i) => {
            assert(s[0] == TAG_INTEGER);
            assert(s.drop_first() =~= spec_decimal(i) + seq![CR, LF] + rest);
            lemma_decimal_no_crlf(i);
            lemma_read_line_round(spec_decimal(i), rest);
            lemma_parse_decimal(i);
        },
        FrameModel::Bulk(b) => {
            let d = spec_decimal(b.len() as int);
            assert(s[0] == TAG_BULK);
            assert(s.drop_first() =~= d + seq![CR, LF] + (b + seq![CR, LF] + rest));
            lemma_decimal_no_crlf(b.len() as int);
            lemma_read_line_round(d, b + seq![CR, LF] + rest);
            lemma_parse_decimal(b.len() as int);
            let next = d.len() + 2int;
            assert(s.subrange(1 + next, 1 + next + b.len() as int) =~= b);
        },
        FrameModel::Null => {
            assert(s[0] == TAG_BULK);
            let content = seq![SIGN_MINUS, DIGIT_ONE];
            assert(s.drop_first() =~= content + seq![CR, LF] + rest);
            lemma_read_line_round(content, rest);
            assert(content.drop_first() =~= seq![DIGIT_ONE]);
            assert(seq![DIGIT_ONE].drop_last() =~= Seq::<u8>::empty());
            assert(digits_value(Seq::<u8>::empty()) == 0);
            assert(digits_value(seq![DIGIT_ONE]) == 1);
            assert(all_digits(seq![DIGIT_ONE]));
            assert(spec_parse_i32(content) == Some(-1int));
        },
        FrameModel::Array(a) => {
            let d = spec_decimal(a.len() as int);
            assert(s[0] == TAG_ARRAY);
            assert(s.drop_first() =~= d + seq![CR, LF] + (spec_encode_seq(a) + rest));
            lemma_decimal_no_crlf(a.len() as int);
            lemma_read_line_round(d, spec_encode_seq(a) + rest);
            lemma_parse_decimal(a.len() as int);
            let start = 1int + d.len() + 2;
            assert(s.skip(start as int) =~= spec_encode_seq(a) + rest);
            lemma_decode_encode_seq(a, rest);
        },
    }
}

/// Round trip for a run of frames: decoding the concatenated encodings of
/// `n` well-formed frames yields exactly those frames in order.
pub proof fn lemma_decode_encode_seq(a: Seq<FrameModel>, rest: Seq<u8>)
    requires
        wf_frames(a),
    ensures
        spec_decode_n(spec_encode_seq(a) + rest, a.len()) == SeqOutcome::Done(
            a,
            spec_encode_seq(a).len() as int,
        ),
    decreases a,
{
    let s = spec_encode_seq(a) + rest;
    if a.len() == 0 {
        assert(a =~= Seq::<FrameModel>::empty());
        assert(spec_encode_seq(a).len() == 0);
    } else {
        let head = a[0];
        let tail = a.drop_first();
        let e0 = spec_encode(head);
        assert(s =~= e0 + (spec_encode_seq(tail) + rest));
        lemma_decode_encode(head, spec_encode_seq(tail) + rest);
        lemma_decode_bounds(s);
        assert(s.skip(e0.len() as int) =~= spec_encode_seq(tail) + rest);
        lemma_decode_encode_seq(tail, rest);
        assert(seq![head] + tail =~= a);
    }
}

/// Why decoding failed.
#[derive(Debug, Clone, PartialEq, Eq)]
pub enum DecodingError {
    /// The buffer ended before a complete frame could be read; feeding more
    /// bytes and retrying may succeed.
    Incomplete,
    /// A malformed tag, length, integer, or header line.
    InvalidFormat,
    /// The input stream was closed.
    EOF,
    /// An uncategorized transport fault.
    Other,
}

} // verus!
