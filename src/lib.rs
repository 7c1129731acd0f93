//! Length-prefixed framing of byte buffers.
//!
//! A frame is an eight-byte big-endian length header followed by exactly that
//! many payload bytes. `header` holds the header codec; `frame` holds the
//! reader's decision on a header, the frame model, and the sized reader and
//! writer over in-memory streams.
use vstd::prelude::*;

pub mod frame;
pub mod header;

pub use frame::{
    frame_header, payload_len, payload_len_within, FrameError, ReadSizedExt, WriteSizedExt, MAX_FRAME_BYTES,
};
pub use header::{decode_len, encode_len, HEADER_LEN};

verus! {

} // verus!
