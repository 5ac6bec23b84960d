//! Length-delimited frames: a big-endian 32-bit payload length, then exactly
//! that many payload bytes.
use vstd::prelude::*;

verus! {

/// Bytes of the length prefix.
pub const HEADER_LEN: usize = 4;

/// The big-endian bytes of `n`.
pub open spec fn be32_bytes(n: u32) -> Seq<u8> {
    seq![
        ((n >> 24u32) & 0xffu32) as u8,
        ((n >> 16u32) & 0xffu32) as u8,
        ((n >> 8u32) & 0xffu32) as u8,
        (n & 0xffu32) as u8,
    ]
}

/// The number whose big-endian bytes `b` starts with.
pub open spec fn be32_read(b: Seq<u8>) -> u32 {
    ((b[0] as u32) << 24u32) | ((b[1] as u32) << 16u32) | ((b[2] as u32) << 8u32) | (b[3] as u32)
}

/// The frame that carries `payload`.
pub open spec fn frame_of(payload: Seq<u8>) -> Seq<u8> {
    be32_bytes(payload.len() as u32) + payload
}

/// Reading the big-endian bytes of a number gives the number back.
pub proof fn lemma_be32_round_trip(n: u32)
    ensures
        be32_read(be32_bytes(n)) == n,
{
    let a = (n >> 24u32) & 0xffu32;
    let b = (n >> 16u32) & 0xffu32;
    let c = (n >> 8u32) & 0xffu32;
    let d = n & 0xffu32;
    assert(a < 256 && b < 256 && c < 256 && d < 256) by (bit_vector)
        requires
            a == (n >> 24u32) & 0xffu32,
            b == (n >> 16u32) & 0xffu32,
            c == (n >> 8u32) & 0xffu32,
            d == n & 0xffu32,
    ;
    assert((a << 24u32) | (b << 16u32) | (c << 8u32) | d == n) by (bit_vector)
        requires
            a == (n >> 24u32) & 0xffu32,
            b == (n >> 16u32) & 0xffu32,
            c == (n >> 8u32) & 0xffu32,
            d == n & 0xffu32,
    ;
    let s = be32_bytes(n);
    assert(s[0] as u32 == a && s[1] as u32 == b && s[2] as u32 == c && s[3] as u32 == d);
}

/// A frame announces the length of its payload, and the payload follows the
/// prefix.
pub proof fn lemma_frame_round_trip(payload: Seq<u8>)
    requires
        payload.len() <= u32::MAX,
    ensures
        be32_read(frame_of(payload)) == payload.len(),
        frame_of(payload).len() == HEADER_LEN + payload.len(),
        frame_of(payload).subrange(HEADER_LEN as int, frame_of(payload).len() as int) == payload,
{
    lemma_be32_round_trip(payload.len() as u32);
    let f = frame_of(payload);
    let h = be32_bytes(payload.len() as u32);
    assert(f[0] == h[0] && f[1] == h[1] && f[2] == h[2] && f[3] == h[3]);
    assert(f.subrange(HEADER_LEN as int, f.len() as int) =~= payload);
}

/// The frame that carries `payload`.
pub fn encode_frame(payload: &[u8]) -> (r: Vec<u8>)
    requires
        payload@.len() <= u32::MAX,
    ensures
        r@ == frame_of(payload@),
{
    let n = payload.len() as u32;
    let mut out: Vec<u8> = Vec::new();
    out.push(((n >> 24u32) & 0xffu32) as u8);
    out.push(((n >> 16u32) & 0xffu32) as u8);
    out.push(((n >> 8u32) & 0xffu32) as u8);
    out.push((n & 0xffu32) as u8);
    let mut i: usize = 0;
    while i < payload.len()
        invariant
            i <= payload@.len(),
            n == payload@.len(),
            out@ == be32_bytes(n) + payload@.subrange(0, i as int),
        decreases payload@.len() - i,
    {
        out.push(payload[i]);
        i = i + 1;
        assert(out@ =~= be32_bytes(n) + payload@.subrange(0, i as int));
    }
    assert(payload@.subrange(0, payload@.len() as int) =~= payload@);
    out
}

/// The first frame in `buf`: its payload and how many bytes it spans.
/// `None` while `buf` does not yet hold a whole frame.
pub fn decode_frame(buf: &[u8]) -> (r: Option<(Vec<u8>, usize)>)
    ensures
        buf@.len() < HEADER_LEN ==> r is None,
        buf@.len() >= HEADER_LEN ==> ({
            let n = be32_read(buf@) as int;
            &&& buf@.len() < HEADER_LEN + n ==> r is None
            &&& buf@.len() >= HEADER_LEN + n ==> (r matches Some((p, used)) && used == HEADER_LEN + n
                && p@ == buf@.subrange(HEADER_LEN as int, HEADER_LEN + n))
        }),
{
    if buf.len() < HEADER_LEN {
        return None;
    }
    let n: u32 = ((buf[0] as u32) << 24u32) | ((buf[1] as u32) << 16u32) | ((buf[2] as u32) << 8u32)
        | (buf[3] as u32);
    if ((buf.len() - HEADER_LEN) as u64) < (n as u64) {
        return None;
    }
    let end = HEADER_LEN + n as usize;
    let mut payload: Vec<u8> = Vec::new();
    let mut i: usize = HEADER_LEN;
    while i < end
        invariant
            HEADER_LEN <= i <= end,
            end <= buf@.len(),
            payload@ == buf@.subrange(HEADER_LEN as int, i as int),
        decreases end - i,
    {
        payload.push(buf[i]);
        i = i + 1;
        assert(payload@ =~= buf@.subrange(HEADER_LEN as int, i as int));
    }
    Some((payload, end))
}

} // verus!
