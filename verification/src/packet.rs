//! Packets: a message kind and the encoded message, written with bincode's
//! default encoding as the pair (kind, data): the kind's byte length as a
//! little-endian `u64`, its UTF-8 bytes, the data's length the same way, and
//! the data.
use vstd::prelude::*;
use vstd::utf8::{decode_utf8, encode_utf8, encode_utf8_decode_utf8, encode_utf8_valid_utf8, valid_utf8};
use crate::framing::{encode_frame, frame_bytes, frame_complete, frame_payload, lemma_frame_roundtrip};

verus! {

/// The eight little-endian bytes of `n`.
pub open spec fn u64_le_bytes(n: u64) -> Seq<u8> {
    seq![
        n as u8,
        (n >> 8u64) as u8,
        (n >> 16u64) as u8,
        (n >> 24u64) as u8,
        (n >> 32u64) as u8,
        (n >> 40u64) as u8,
        (n >> 48u64) as u8,
        (n >> 56u64) as u8,
    ]
}

/// The number that eight little-endian bytes at the start of `b` encode.
pub open spec fn u64_le_value(b: Seq<u8>) -> int
    recommends
        b.len() >= 8,
{
    b[0] + b[1] * 0x100 + b[2] * 0x10000 + b[3] * 0x1000000 + b[4] * 0x100000000 + b[5] * 0x10000000000
        + b[6] * 0x1000000000000 + b[7] * 0x100000000000000
}

/// The bytes of a packet of `kind` that carries `data`.
pub open spec fn packet_encoding(kind: Seq<char>, data: Seq<u8>) -> Seq<u8> {
    let k = encode_utf8(kind);
    u64_le_bytes(k.len() as u64) + k + u64_le_bytes(data.len() as u64) + data
}

/// The packet that `bytes` start with, if they start with one: a kind whose
/// bytes are valid UTF-8 and data, each after its length; anything after the
/// data is left unread.
pub open spec fn packet_decoding(bytes: Seq<u8>) -> Option<(Seq<char>, Seq<u8>)> {
    if bytes.len() < 8 {
        None
    } else {
        let n1 = u64_le_value(bytes);
        if bytes.len() < 8 + n1 {
            None
        } else if !valid_utf8(bytes.subrange(8, 8 + n1)) {
            None
        } else if bytes.len() < 16 + n1 {
            None
        } else {
            let n2 = u64_le_value(bytes.subrange(8 + n1, bytes.len() as int));
            if bytes.len() < 16 + n1 + n2 {
                None
            } else {
                Some((decode_utf8(bytes.subrange(8, 8 + n1)), bytes.subrange(16 + n1, 16 + n1 + n2)))
            }
        }
    }
}

#[verifier::external_type_specification]
#[verifier::external_body]
pub struct ExBincodeErrorKind(bincode::ErrorKind);

/// `bincode::serialize` of the pair (kind, data). With the default options it
/// has no size limit and writes into a `Vec`, so it does not fail: it writes
/// the kind as a string (its byte length as a little-endian `u64`, then its
/// bytes) and the data as a sequence (its length, then each byte).
#[verifier::external_body]
fn bincode_serialize_packet(kind: &String, data: &Vec<u8>) -> (r: Result<Vec<u8>, Box<bincode::ErrorKind>>)
    ensures
        r is Ok,
        r is Ok ==> r->Ok_0@ == packet_encoding(kind@, data@),
{
    bincode::serialize(&(kind, data))
}

/// `bincode::deserialize` of the pair (kind, data) from `bytes`. With the
/// default options it reads a length as a little-endian `u64`, that many bytes,
/// fails where they are not UTF-8, then reads the data the same way; it fails
/// where the bytes run out, and leaves trailing bytes unread.
#[verifier::external_body]
fn bincode_deserialize_packet(bytes: &[u8]) -> (r: Result<(String, Vec<u8>), Box<bincode::ErrorKind>>)
    ensures
        r is Ok <==> packet_decoding(bytes@) is Some,
        r is Ok ==> packet_decoding(bytes@) == Some((r->Ok_0.0@, r->Ok_0.1@)),
{
    bincode::deserialize::<(String, Vec<u8>)>(bytes)
}

/// Encodes a packet of `kind` that carries `data`.
pub fn encode_packet(kind: &String, data: &Vec<u8>) -> (bytes: Vec<u8>)
    ensures
        bytes@ == packet_encoding(kind@, data@),
{
    match bincode_serialize_packet(kind, data) {
        Ok(bytes) => bytes,
        Err(_) => Vec::new(),
    }
}

/// Decodes the packet that `bytes` start with.
pub fn decode_packet(bytes: &[u8]) -> (packet: Option<(String, Vec<u8>)>)
    ensures
        match packet {
            Some((kind, data)) => packet_decoding(bytes@) == Some((kind@, data@)),
            None => packet_decoding(bytes@) is None,
        },
{
    match bincode_deserialize_packet(bytes) {
        Ok(packet) => Some(packet),
        Err(_) => None,
    }
}

/// The frame that carries a packet of `kind` with `data`, where the packet
/// fits in `max` bytes; `None` where it does not.
pub fn frame_packet(kind: &String, data: &Vec<u8>, max: usize) -> (frame: Option<Vec<u8>>)
    requires
        max <= u32::MAX,
    ensures
        frame is Some <==> packet_encoding(kind@, data@).len() <= max,
        frame matches Some(f) ==> f@ == frame_bytes(packet_encoding(kind@, data@)),
{
    let bytes = encode_packet(kind, data);
    if bytes.len() > max {
        None
    } else {
        Some(encode_frame(bytes.as_slice()))
    }
}

/// Reading eight little-endian bytes back gives the number they were written from.
pub proof fn lemma_u64_le_roundtrip(n: u64, rest: Seq<u8>)
    ensures
        u64_le_value(u64_le_bytes(n) + rest) == n,
{
    let b = u64_le_bytes(n) + rest;
    assert(b[0] == n as u8 && b[1] == (n >> 8u64) as u8 && b[2] == (n >> 16u64) as u8
        && b[3] == (n >> 24u64) as u8 && b[4] == (n >> 32u64) as u8 && b[5] == (n >> 40u64) as u8
        && b[6] == (n >> 48u64) as u8 && b[7] == (n >> 56u64) as u8);
    assert((n as u8) as int + ((n >> 8u64) as u8) as int * 0x100 + ((n >> 16u64) as u8) as int * 0x10000
        + ((n >> 24u64) as u8) as int * 0x1000000 + ((n >> 32u64) as u8) as int * 0x100000000
        + ((n >> 40u64) as u8) as int * 0x10000000000 + ((n >> 48u64) as u8) as int * 0x1000000000000
        + ((n >> 56u64) as u8) as int * 0x100000000000000 == n as int) by (bit_vector);
}

/// A packet reads back as the kind and data it was written from, whatever
/// follows it.
pub proof fn lemma_packet_roundtrip(kind: Seq<char>, data: Seq<u8>, rest: Seq<u8>)
    requires
        encode_utf8(kind).len() <= u64::MAX,
        data.len() <= u64::MAX,
    ensures
        packet_decoding(packet_encoding(kind, data) + rest) == Some((kind, data)),
{
    let k = encode_utf8(kind);
    let n1: int = k.len() as int;
    let n2: int = data.len() as int;
    let bytes = packet_encoding(kind, data) + rest;
    assert(bytes =~= u64_le_bytes(n1 as u64) + (k + u64_le_bytes(n2 as u64) + data + rest));
    lemma_u64_le_roundtrip(n1 as u64, k + u64_le_bytes(n2 as u64) + data + rest);
    assert(u64_le_value(bytes) == n1);
    assert(bytes.subrange(8, 8 + n1) =~= k);
    encode_utf8_valid_utf8(kind);
    encode_utf8_decode_utf8(kind);
    let tail = bytes.subrange(8 + n1, bytes.len() as int);
    assert(tail =~= u64_le_bytes(n2 as u64) + (data + rest));
    lemma_u64_le_roundtrip(n2 as u64, data + rest);
    assert(bytes.subrange(16 + n1, 16 + n1 + n2) =~= data);
}

/// What a server sends is what a client reads: the frame built for a packet
/// that fits the limit is read back whole, by a reader with that limit and
/// whatever follows it, and its payload decodes to the same kind and data.
pub proof fn lemma_framed_packet_received(kind: Seq<char>, data: Seq<u8>, rest: Seq<u8>, max: int)
    requires
        packet_encoding(kind, data).len() <= max,
        max <= u32::MAX,
    ensures
        frame_complete(frame_bytes(packet_encoding(kind, data)) + rest, max),
        packet_decoding(frame_payload(frame_bytes(packet_encoding(kind, data)) + rest)) == Some((kind, data)),
{
    let p = packet_encoding(kind, data);
    lemma_frame_roundtrip(p, rest, max);
    lemma_packet_roundtrip(kind, data, Seq::empty());
    assert(p + Seq::<u8>::empty() =~= p);
}

} // verus!
