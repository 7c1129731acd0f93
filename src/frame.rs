use crate::header::{be_value, decode_len, encode_len, header_bytes, lemma_header_round_trip, HEADER_LEN};
use vstd::prelude::*;
use vstd::slice::{slice_subrange, slice_to_vec};

verus! {

/// The largest payload, in bytes, that a reader accepts.
pub const MAX_FRAME_BYTES: u64 = 4_000_000;

/// Why a frame could not be read.
#[derive(Debug, Clone, Copy, PartialEq, Eq, Structural)]
pub enum FrameError {
    /// The stream ended before the whole frame was delivered.
    UnexpectedEnd,
    /// The header announced a payload larger than `MAX_FRAME_BYTES`.
    Oversized { len: u64 },
}

/// What a reader that accepts payloads of at most `max` bytes decides once it
/// holds a header whose value is `n`.
pub open spec fn admit_len_within(n: nat, max: u64) -> Result<usize, FrameError> {
    if n <= max {
        Ok(n as usize)
    } else {
        Err(FrameError::Oversized { len: n as u64 })
    }
}

/// The bytes that carry `data` as one frame: its length header, then the data.
pub open spec fn frame_of(data: Seq<u8>) -> Seq<u8> {
    header_bytes(data.len()) + data
}

/// What reading one frame from a stream that holds `s` yields.
pub open spec fn read_outcome(s: Seq<u8>) -> Result<Seq<u8>, FrameError> {
    if s.len() < HEADER_LEN {
        Err(FrameError::UnexpectedEnd)
    } else {
        let n = be_value(s.take(HEADER_LEN as int));
        if n > MAX_FRAME_BYTES {
            Err(FrameError::Oversized { len: n as u64 })
        } else if s.len() < HEADER_LEN + n {
            Err(FrameError::UnexpectedEnd)
        } else {
            Ok(s.subrange(HEADER_LEN as int, HEADER_LEN + n))
        }
    }
}

/// Decodes a length header and decides whether its payload may be read by a
/// reader whose limit is `max_frame_bytes`: the payload length, or
/// `Oversized` when it is above the limit. Nothing is allocated or read here.
pub fn payload_len_within(header: &[u8], max_frame_bytes: u64) -> (r: Result<usize, FrameError>)
    requires
        header@.len() == HEADER_LEN,
        max_frame_bytes <= usize::MAX,
    ensures
        r == admit_len_within(be_value(header@), max_frame_bytes),
{
    let n = decode_len(header);
    if n > max_frame_bytes {
        Err(FrameError::Oversized { len: n })
    } else {
        Ok(n as usize)
    }
}

/// Decodes a length header and decides whether its payload may be read:
/// the payload length, or `Oversized` when it is above `MAX_FRAME_BYTES`.
pub fn payload_len(header: &[u8]) -> (r: Result<usize, FrameError>)
    requires
        header@.len() == HEADER_LEN,
    ensures
        r == admit_len_within(be_value(header@), MAX_FRAME_BYTES),
{
    payload_len_within(header, MAX_FRAME_BYTES)
}

/// The length header to send before a payload of `len` bytes.
pub fn frame_header(len: usize) -> (r: Vec<u8>)
    ensures
        r@ == header_bytes(len as nat),
{
    encode_len(len as u64)
}

/// A byte source held in memory from which whole frames are read.
pub trait ReadSizedExt: View<V = Seq<u8>> + Sized {
    /// Reads one frame and returns its payload; the bytes it took are gone
    /// from the source.
    fn read_sized(&mut self) -> (r: Result<Vec<u8>, FrameError>)
        ensures
            match read_outcome(old(self)@) {
                Ok(p) => r is Ok && r->Ok_0@ == p && final(self)@ == old(self)@.skip(
                    HEADER_LEN + p.len(),
                ),
                Err(e) => r == Err::<Vec<u8>, FrameError>(e),
            },
    ;
}

/// A byte sink held in memory to which whole frames are written.
pub trait WriteSizedExt: View<V = Seq<u8>> + Sized {
    /// Appends `data` as one frame.
    fn write_sized(&mut self, data: &[u8])
        ensures
            final(self)@ == old(self)@ + frame_of(data@),
    ;
}

impl<'a> ReadSizedExt for &'a [u8] {
    fn read_sized(&mut self) -> (r: Result<Vec<u8>, FrameError>) {
        let s: &'a [u8] = *self;
        if s.len() < HEADER_LEN {
            return Err(FrameError::UnexpectedEnd);
        }
        let header = slice_subrange(s, 0, HEADER_LEN);
        assert(header@ == s@.take(HEADER_LEN as int));
        let n = match payload_len(header) {
            Ok(n) => n,
            Err(e) => return Err(e),
        };
        if s.len() - HEADER_LEN < n {
            return Err(FrameError::UnexpectedEnd);
        }
        let end = HEADER_LEN + n;
        let payload = slice_to_vec(slice_subrange(s, HEADER_LEN, end));
        *self = slice_subrange(s, end, s.len());
        Ok(payload)
    }
}

impl WriteSizedExt for Vec<u8> {
    fn write_sized(&mut self, data: &[u8]) {
        let header = frame_header(data.len());
        append(self, &header);
        append(self, data);
    }
}

fn append(out: &mut Vec<u8>, data: &[u8])
    ensures
        final(out)@ == old(out)@ + data@,
{
    let mut i: usize = 0;
    while i < data.len()
        invariant
            i <= data@.len(),
            out@ == old(out)@ + data@.take(i as int),
        decreases data@.len() - i,
    {
        out.push(data[i]);
        i = i + 1;
        assert(data@.take(i as int) == data@.take(i - 1).push(data@[i - 1]));
    }
    assert(data@.take(i as int) == data@);
}

/// Any payload within the reader's limit, written as a frame and read back
/// from a stream where more bytes may follow, comes back unchanged, and the
/// stream is left holding exactly the bytes that followed.
pub proof fn lemma_round_trip(data: Seq<u8>, rest: Seq<u8>)
    requires
        data.len() <= MAX_FRAME_BYTES,
    ensures
        read_outcome(frame_of(data) + rest) == Ok::<Seq<u8>, FrameError>(data),
        (frame_of(data) + rest).skip(HEADER_LEN + data.len()) == rest,
{
    let s = frame_of(data) + rest;
    lemma_header_round_trip(data.len() as u64);
    assert(s.take(HEADER_LEN as int) == header_bytes(data.len()));
    assert(s.subrange(HEADER_LEN as int, HEADER_LEN + data.len()) == data);
    assert(s.skip(HEADER_LEN + data.len()) == rest);
}

/// An empty payload makes a frame that reads back as an empty payload.
pub proof fn lemma_empty_frame()
    ensures
        read_outcome(frame_of(Seq::empty())) == Ok::<Seq<u8>, FrameError>(Seq::empty()),
{
    lemma_round_trip(Seq::empty(), Seq::empty());
    assert(frame_of(Seq::empty()) + Seq::empty() == frame_of(Seq::empty()));
}

/// Two frames written one after the other are read back in the same order,
/// each with its own payload.
pub proof fn lemma_two_frames(a: Seq<u8>, b: Seq<u8>)
    requires
        a.len() <= MAX_FRAME_BYTES,
        b.len() <= MAX_FRAME_BYTES,
    ensures
        read_outcome(frame_of(a) + frame_of(b)) == Ok::<Seq<u8>, FrameError>(a),
        (frame_of(a) + frame_of(b)).skip(HEADER_LEN + a.len()) == frame_of(b),
        read_outcome(frame_of(b)) == Ok::<Seq<u8>, FrameError>(b),
{
    lemma_round_trip(a, frame_of(b));
    lemma_round_trip(b, Seq::empty());
    assert(frame_of(b) + Seq::empty() == frame_of(b));
}

/// A stream that ends anywhere before the last byte of a frame fails the
/// read with `UnexpectedEnd`, never with a shorter payload.
pub proof fn lemma_truncated_frame(data: Seq<u8>, k: nat)
    requires
        data.len() <= MAX_FRAME_BYTES,
        k < frame_of(data).len(),
    ensures
        read_outcome(frame_of(data).take(k as int)) == Err::<Seq<u8>, FrameError>(
            FrameError::UnexpectedEnd,
        ),
{
    let s = frame_of(data).take(k as int);
    lemma_header_round_trip(data.len() as u64);
    if k >= HEADER_LEN {
        assert(s.take(HEADER_LEN as int) == header_bytes(data.len()));
    }
}

} // verus!
