//! Length-prefixed framing for the client-server protocol: a frame is a
//! 4-byte big-endian payload length followed by the payload.
use vstd::prelude::*;

verus! {

/// A request from a client.
#[derive(Debug)]
pub enum Request {
    Ping,
    Query(String),
}

/// The server's answer.
#[derive(Debug)]
pub enum Response {
    Pong,
    Result(String),
    Error(String),
}

/// The 4 big-endian bytes of `x`.
pub open spec fn be32(x: u32) -> Seq<u8> {
    seq![(x >> 24) as u8, ((x >> 16) & 0xff) as u8, ((x >> 8) & 0xff) as u8, (x & 0xff) as u8]
}

/// The number that 4 big-endian bytes denote.
pub open spec fn from_be32(b: Seq<u8>) -> u32
    recommends
        b.len() == 4,
{
    ((b[0] as u32) << 24) | ((b[1] as u32) << 16) | ((b[2] as u32) << 8) | (b[3] as u32)
}

/// The bytes of a frame carrying `data`.
pub open spec fn frame(data: Seq<u8>) -> Seq<u8> {
    be32(data.len() as u32) + data
}

/// The first frame of `b`: its payload and the bytes it takes, or `None`
/// when `b` ends before the frame does.
pub open spec fn first_frame(b: Seq<u8>) -> Option<(Seq<u8>, nat)> {
    if b.len() < 4 {
        None
    } else {
        let n = from_be32(b.take(4)) as int;
        if b.len() < 4 + n {
            None
        } else {
            Some((b.subrange(4, 4 + n), (4 + n) as nat))
        }
    }
}

proof fn lemma_be32_round_trip(x: u32)
    ensures
        from_be32(be32(x)) == x,
{
    let b = be32(x);
    let b0 = b[0];
    let b1 = b[1];
    let b2 = b[2];
    let b3 = b[3];
    assert(b0 == (x >> 24) as u8 && b1 == ((x >> 16) & 0xff) as u8 && b2 == ((x >> 8) & 0xff) as u8
        && b3 == (x & 0xff) as u8);
    assert((((b0 as u32) << 24) | ((b1 as u32) << 16) | ((b2 as u32) << 8) | (b3 as u32)) == x)
        by (bit_vector)
        requires
            b0 == (x >> 24) as u8,
            b1 == ((x >> 16) & 0xff) as u8,
            b2 == ((x >> 8) & 0xff) as u8,
            b3 == (x & 0xff) as u8,
    ;
}

/// The 4 big-endian bytes of `x`.
pub fn be32_bytes(x: u32) -> (r: Vec<u8>)
    ensures
        r@ == be32(x),
{
    let mut r: Vec<u8> = Vec::new();
    r.push((x >> 24) as u8);
    r.push(((x >> 16) & 0xff) as u8);
    r.push(((x >> 8) & 0xff) as u8);
    r.push((x & 0xff) as u8);
    proof {
        assert(r@ =~= be32(x));
    }
    r
}

/// The length that a 4-byte frame header announces.
pub fn frame_len(header: &[u8]) -> (n: u32)
    requires
        header@.len() == 4,
    ensures
        n == from_be32(header@),
{
    ((header[0] as u32) << 24) | ((header[1] as u32) << 16) | ((header[2] as u32) << 8) | (
    header[3] as u32)
}

/// The frame carrying `data`.
pub fn encode_frame(data: &[u8]) -> (r: Vec<u8>)
    requires
        data@.len() <= u32::MAX,
    ensures
        r@ == frame(data@),
{
    let mut r = be32_bytes(data.len() as u32);
    let mut d = vstd::slice::slice_to_vec(data);
    r.append(&mut d);
    r
}

/// Reads the first frame of `bytes`: its payload and the number of bytes
/// it takes, or `None` when the bytes end before the frame does.
pub fn decode_frame(bytes: &[u8]) -> (r: Option<(Vec<u8>, usize)>)
    ensures
        match first_frame(bytes@) {
            Some((d, used)) => r matches Some((v, u)) && v@ == d && u == used,
            None => r is None,
        },
{
    if bytes.len() < 4 {
        return None;
    }
    let header = vstd::slice::slice_subrange(bytes, 0, 4);
    let n = frame_len(header) as usize;
    proof {
        assert(header@ =~= bytes@.take(4));
    }
    if bytes.len() - 4 < n {
        return None;
    }
    let data = vstd::slice::slice_to_vec(vstd::slice::slice_subrange(bytes, 4, 4 + n));
    Some((data, 4 + n))
}

/// What a frame carries comes back unchanged, whatever follows it.
pub proof fn lemma_frame_round_trip(data: Seq<u8>, rest: Seq<u8>)
    requires
        data.len() <= u32::MAX,
    ensures
        first_frame(frame(data) + rest) == Some((data, (4 + data.len()) as nat)),
{
    lemma_be32_round_trip(data.len() as u32);
    let b = frame(data) + rest;
    assert(b.take(4) =~= be32(data.len() as u32));
    assert(b.subrange(4, 4 + data.len() as int) =~= data);
}

} // verus!
