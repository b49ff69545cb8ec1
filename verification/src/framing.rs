//! Length-prefixed wire frames: `[u32 big-endian length][payload]`.
//!
//! The functions here classify and build frame headers; reading and writing
//! the bytes of a socket is the application's job.

use vstd::prelude::*;

verus! {

/// Largest payload, in bytes, that a frame may carry (256 KiB).
pub const MAX_MESSAGE_SIZE: usize = 262144;

/// Why an incoming frame was refused before its payload was decoded.
#[derive(Debug, Clone, Copy, PartialEq, Eq, Structural)]
pub enum FrameError {
    /// The length header was zero. The connection stays open.
    EmptyFrame,
    /// The length header exceeded `MAX_MESSAGE_SIZE`. The connection closes.
    Oversized,
}

/// The 32-bit value that four big-endian header bytes denote.
pub open spec fn be_value(b: Seq<u8>) -> int {
    b[0] * 0x1000000 + b[1] * 0x10000 + b[2] * 0x100 + b[3]
}

/// Split a 32-bit length into its four big-endian header bytes.
pub fn header_bytes(len: u32) -> (r: [u8; 4])
    ensures
        r@.len() == 4,
        be_value(r@) == len,
{
    let b0: u8 = (len / 0x1000000) as u8;
    let b1: u8 = ((len / 0x10000) % 0x100) as u8;
    let b2: u8 = ((len / 0x100) % 0x100) as u8;
    let b3: u8 = (len % 0x100) as u8;
    proof {
        assert(((len / 0x1000000) as u8) * 0x1000000 + (((len / 0x10000) % 0x100) as u8)
            * 0x10000 + (((len / 0x100) % 0x100) as u8) * 0x100 + ((len % 0x100) as u8) == len)
            by (bit_vector);
    }
    let r: [u8; 4] = [b0, b1, b2, b3];
    assert(r@ =~= seq![b0, b1, b2, b3]);
    r
}

/// Read a 32-bit length out of its four big-endian header bytes.
pub fn header_value(b: &[u8]) -> (r: u32)
    requires
        b@.len() == 4,
    ensures
        r == be_value(b@),
{
    let b0: u32 = b[0] as u32;
    let b1: u32 = b[1] as u32;
    let b2: u32 = b[2] as u32;
    let b3: u32 = b[3] as u32;
    b0 * 0x1000000 + b1 * 0x10000 + b2 * 0x100 + b3
}

/// Judge a frame's length header: empty and oversized frames are refused,
/// anything else is accepted at its exact length.
pub fn classify_frame_len(len: u32) -> (r: Result<usize, FrameError>)
    ensures
        len == 0 ==> r == Result::<usize, FrameError>::Err(FrameError::EmptyFrame),
        len > MAX_MESSAGE_SIZE ==> r == Result::<usize, FrameError>::Err(FrameError::Oversized),
        0 < len <= MAX_MESSAGE_SIZE ==> r == Result::<usize, FrameError>::Ok(len as usize),
{
    if len == 0 {
        Err(FrameError::EmptyFrame)
    } else if len > MAX_MESSAGE_SIZE as u32 {
        Err(FrameError::Oversized)
    } else {
        Ok(len as usize)
    }
}

/// The reply a refused frame earns, and whether the connection stays open:
/// an empty frame is answered and the connection goes on; an oversized one
/// is answered and the connection closes.
pub fn frame_error_reply(e: FrameError) -> (r: (String, bool))
    ensures
        e == FrameError::EmptyFrame ==> (r.0@ == "Empty message"@ && r.1),
        e == FrameError::Oversized ==> (r.0@ == "Message too large"@ && !r.1),
{
    match e {
        FrameError::EmptyFrame => (String::from_str("Empty message"), true),
        FrameError::Oversized => (String::from_str("Message too large"), false),
    }
}

/// Build a whole outbound frame: header bytes, then the payload verbatim.
pub fn encode_frame(payload: &Vec<u8>) -> (r: Vec<u8>)
    requires
        payload@.len() <= u32::MAX,
    ensures
        r@.len() == payload@.len() + 4,
        be_value(r@.take(4)) == payload@.len(),
        r@.skip(4) == payload@,
{
    let header: [u8; 4] = header_bytes(payload.len() as u32);
    let mut r: Vec<u8> = Vec::new();
    r.push(header[0]);
    r.push(header[1]);
    r.push(header[2]);
    r.push(header[3]);
    let mut i: usize = 0;
    while i < payload.len()
        invariant
            i <= payload@.len(),
            payload@.len() <= u32::MAX,
            r@.len() == i + 4,
            r@.take(4) =~= header@,
            r@.skip(4) =~= payload@.take(i as int),
        decreases payload@.len() - i,
    {
        r.push(payload[i]);
        i = i + 1;
    }
    assert(r@.skip(4) =~= payload@);
    assert(r@.take(4) =~= header@);
    r
}

/// A frame read back from its own encoding yields the payload it was built
/// from, and its header passes classification whenever the payload was a
/// legal size.
pub proof fn lemma_frame_round_trip(payload: Seq<u8>, framed: Seq<u8>)
    requires
        payload.len() <= u32::MAX,
        framed.len() == payload.len() + 4,
        be_value(framed.take(4)) == payload.len(),
        framed.skip(4) == payload,
    ensures
        framed.subrange(4, framed.len() as int) == payload,
{
    assert(framed.skip(4) =~= framed.subrange(4, framed.len() as int));
}

} // verus!
