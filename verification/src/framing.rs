//! Length-prefixed framing: every packet on the wire is a 4-byte big-endian
//! length followed by that many bytes of payload.
use vstd::prelude::*;

verus! {

/// Largest payload accepted while a connection is still being set up.
pub const MAX_HANDSHAKE_PACKET_LENGTH: usize = 100;

/// The four header bytes that encode `n`, most significant byte first.
pub open spec fn header_bytes(n: u32) -> Seq<u8> {
    seq![(n >> 24u32) as u8, (n >> 16u32) as u8, (n >> 8u32) as u8, n as u8]
}

/// The number that four header bytes encode, most significant byte first.
pub open spec fn header_value(b0: u8, b1: u8, b2: u8, b3: u8) -> int {
    b0 * 0x1000000 + b1 * 0x10000 + b2 * 0x100 + b3
}

/// Encodes a payload length as the 4-byte big-endian frame header.
pub fn encode_frame_header(length: u32) -> (bytes: [u8; 4])
    ensures
        bytes@ == header_bytes(length),
{
    [(length >> 24u32) as u8, (length >> 16u32) as u8, (length >> 8u32) as u8, length as u8]
}

/// Decodes a 4-byte big-endian frame header.
pub fn decode_frame_header(bytes: [u8; 4]) -> (length: u32)
    ensures
        length == header_value(bytes[0], bytes[1], bytes[2], bytes[3]),
{
    let b0 = bytes[0] as u32;
    let b1 = bytes[1] as u32;
    let b2 = bytes[2] as u32;
    let b3 = bytes[3] as u32;
    b0 * 0x1000000 + b1 * 0x10000 + b2 * 0x100 + b3
}

/// Decoding an encoded header gives back the length.
pub proof fn lemma_header_roundtrip(n: u32)
    ensures
        header_value(header_bytes(n)[0], header_bytes(n)[1], header_bytes(n)[2], header_bytes(n)[3]) == n,
{
    assert(((n >> 24u32) as u8) as u32 * 0x1000000u32 + ((n >> 16u32) as u8) as u32 * 0x10000u32
        + ((n >> 8u32) as u8) as u32 * 0x100u32 + (n as u8) as u32 == n)
        by (bit_vector);
}


/// Why a frame was refused.
#[derive(Debug, Clone, Copy, PartialEq, Eq, Structural)]
pub enum FrameError {
    /// The header announced a payload longer than the limit in force.
    TooLarge { length: u32, max: usize },
}

/// What a buffer of received bytes holds at its start.
#[derive(Debug, PartialEq, Eq)]
pub enum FrameParse {
    /// Not enough bytes yet for the header, or for the payload it announces.
    Incomplete,
    /// A whole frame: its payload and the number of bytes it took (header included).
    Complete { payload: Vec<u8>, consumed: usize },
}

/// The bytes of a frame that carries `payload`.
pub open spec fn frame_bytes(payload: Seq<u8>) -> Seq<u8> {
    header_bytes(payload.len() as u32) + payload
}

/// The payload length that the header at the start of `buf` announces.
pub open spec fn announced_length(buf: Seq<u8>) -> int
    recommends
        buf.len() >= 4,
{
    header_value(buf[0], buf[1], buf[2], buf[3])
}

/// The buffer holds a header that announces more than `max` bytes.
pub open spec fn frame_too_large(buf: Seq<u8>, max: int) -> bool {
    buf.len() >= 4 && announced_length(buf) > max
}

/// The buffer starts with a whole frame within the limit.
pub open spec fn frame_complete(buf: Seq<u8>, max: int) -> bool {
    &&& buf.len() >= 4
    &&& announced_length(buf) <= max
    &&& buf.len() >= 4 + announced_length(buf)
}

/// The payload of the frame at the start of `buf`.
pub open spec fn frame_payload(buf: Seq<u8>) -> Seq<u8> {
    buf.subrange(4, 4 + announced_length(buf))
}

/// Checks a received length against the limit in force.
pub fn check_frame_length(length: u32, max: usize) -> (r: Result<usize, FrameError>)
    ensures
        length <= max ==> r == Ok::<usize, FrameError>(length as usize),
        length > max ==> r == Err::<usize, FrameError>(FrameError::TooLarge { length, max }),
{
    if length as u64 > max as u64 {
        Err(FrameError::TooLarge { length, max })
    } else {
        Ok(length as usize)
    }
}

/// Reads the frame at the start of `buf`, if the whole of it has arrived.
/// A header that announces more than `max` bytes is refused as soon as it
/// has arrived, before any of the payload.
pub fn parse_frame(buf: &[u8], max: usize) -> (r: Result<FrameParse, FrameError>)
    ensures
        frame_too_large(buf@, max as int) <==> r is Err,
        frame_too_large(buf@, max as int) ==> r == Err::<FrameParse, FrameError>(
            FrameError::TooLarge { length: announced_length(buf@) as u32, max },
        ),
        !frame_too_large(buf@, max as int) && !frame_complete(buf@, max as int) ==> r
            == Ok::<FrameParse, FrameError>(FrameParse::Incomplete),
        frame_complete(buf@, max as int) ==> (r matches Ok(FrameParse::Complete { payload, consumed })
            && payload@ == frame_payload(buf@) && consumed == 4 + announced_length(buf@)),
{
    if buf.len() < 4 {
        return Ok(FrameParse::Incomplete);
    }
    let length = decode_frame_header([buf[0], buf[1], buf[2], buf[3]]);
    let length = match check_frame_length(length, max) {
        Ok(length) => length,
        Err(e) => return Err(e),
    };
    if buf.len() - 4 < length {
        return Ok(FrameParse::Incomplete);
    }
    let mut payload: Vec<u8> = Vec::with_capacity(length);
    let mut i: usize = 0;
    while i < length
        invariant
            i <= length,
            4 + length <= buf.len(),
            payload@ == buf@.subrange(4, 4 + i as int),
        decreases length - i,
    {
        payload.push(buf[4 + i]);
        i = i + 1;
    }
    Ok(FrameParse::Complete { payload, consumed: 4 + length })
}

/// Builds the frame that carries `payload`: its length as a 4-byte
/// big-endian header, then the payload.
pub fn encode_frame(payload: &[u8]) -> (frame: Vec<u8>)
    requires
        payload.len() <= u32::MAX,
    ensures
        frame@ == frame_bytes(payload@),
{
    let header = encode_frame_header(payload.len() as u32);
    let mut frame: Vec<u8> = Vec::new();
    frame.push(header[0]);
    frame.push(header[1]);
    frame.push(header[2]);
    frame.push(header[3]);
    let mut i: usize = 0;
    while i < payload.len()
        invariant
            i <= payload.len(),
            header@ == header_bytes(payload.len() as u32),
            frame@ == header@ + payload@.subrange(0, i as int),
        decreases payload.len() - i,
    {
        frame.push(payload[i]);
        i = i + 1;
    }
    assert(payload@.subrange(0, payload.len() as int) == payload@);
    frame
}

/// Reading back a frame that was built for a payload within the limit gives
/// that payload, whatever follows the frame in the buffer.
pub proof fn lemma_frame_roundtrip(payload: Seq<u8>, rest: Seq<u8>, max: int)
    requires
        payload.len() <= max,
        payload.len() <= u32::MAX,
    ensures
        frame_complete(frame_bytes(payload) + rest, max),
        !frame_too_large(frame_bytes(payload) + rest, max),
        frame_payload(frame_bytes(payload) + rest) == payload,
        announced_length(frame_bytes(payload) + rest) == payload.len(),
{
    let buf = frame_bytes(payload) + rest;
    lemma_header_roundtrip(payload.len() as u32);
    assert(buf[0] == header_bytes(payload.len() as u32)[0]);
    assert(buf[1] == header_bytes(payload.len() as u32)[1]);
    assert(buf[2] == header_bytes(payload.len() as u32)[2]);
    assert(buf[3] == header_bytes(payload.len() as u32)[3]);
    assert(announced_length(buf) == payload.len());
    assert(frame_payload(buf) =~= payload);
}

/// A frame that has not wholly arrived is never taken for a complete one, nor
/// refused, when its payload is within the limit.
pub proof fn lemma_frame_prefix_incomplete(payload: Seq<u8>, n: int, max: int)
    requires
        payload.len() <= max,
        payload.len() <= u32::MAX,
        0 <= n < frame_bytes(payload).len(),
    ensures
        !frame_complete(frame_bytes(payload).subrange(0, n), max),
        !frame_too_large(frame_bytes(payload).subrange(0, n), max),
{
    let buf = frame_bytes(payload).subrange(0, n);
    if n >= 4 {
        lemma_header_roundtrip(payload.len() as u32);
        assert(buf[0] == header_bytes(payload.len() as u32)[0]);
        assert(buf[1] == header_bytes(payload.len() as u32)[1]);
        assert(buf[2] == header_bytes(payload.len() as u32)[2]);
        assert(buf[3] == header_bytes(payload.len() as u32)[3]);
    }
}

/// The header bytes of any number read back from four bytes are those bytes.
pub proof fn lemma_header_bytes_of_value(b0: u8, b1: u8, b2: u8, b3: u8)
    ensures
        header_value(b0, b1, b2, b3) <= u32::MAX,
        header_bytes(header_value(b0, b1, b2, b3) as u32) == seq![b0, b1, b2, b3],
{
    let v = header_value(b0, b1, b2, b3);
    assert(b0 as u32 * 0x1000000u32 + b1 as u32 * 0x10000u32 + b2 as u32 * 0x100u32 + b3 as u32
        == b0 as int * 0x1000000 + b1 as int * 0x10000 + b2 as int * 0x100 + b3 as int) by (bit_vector);
    let n: u32 = (b0 as u32 * 0x1000000u32 + b1 as u32 * 0x10000u32 + b2 as u32 * 0x100u32 + b3 as u32) as u32;
    assert(((n >> 24u32) as u8) == b0 && ((n >> 16u32) as u8) == b1 && ((n >> 8u32) as u8) == b2
        && (n as u8) == b3) by (bit_vector)
        requires
            n == b0 as u32 * 0x1000000u32 + b1 as u32 * 0x10000u32 + b2 as u32 * 0x100u32 + b3 as u32;
    assert(header_bytes(v as u32) =~= seq![b0, b1, b2, b3]);
}

/// A complete frame is exactly the encoding of the payload read from it: the
/// bytes it took are the frame built for that payload.
pub proof fn lemma_parse_reencodes(buf: Seq<u8>, max: int)
    requires
        frame_complete(buf, max),
    ensures
        frame_bytes(frame_payload(buf)) == buf.subrange(0, 4 + announced_length(buf)),
{
    lemma_header_bytes_of_value(buf[0], buf[1], buf[2], buf[3]);
    let p = frame_payload(buf);
    assert(p.len() == announced_length(buf));
    assert(frame_bytes(p) =~= buf.subrange(0, 4 + announced_length(buf)));
}

} // verus!
