//! Framing for byte streams: each frame is preceded by its length as a
//! 4-byte big-endian number.
use vstd::prelude::*;
use vstd::slice::{slice_subrange, slice_to_vec};

verus! {

/// `x` as 4 big-endian bytes.
pub open spec fn enc_u32_be(x: u32) -> Seq<u8> {
    seq![(x >> 24u32) as u8, (x >> 16u32) as u8, (x >> 8u32) as u8, x as u8]
}

/// The number that 4 big-endian bytes hold.
pub open spec fn dec_u32_be(b0: u8, b1: u8, b2: u8, b3: u8) -> u32 {
    (b0 as u32) << 24u32 | (b1 as u32) << 16u32 | (b2 as u32) << 8u32 | (b3 as u32)
}

/// A frame with its length in front.
pub open spec fn framed(f: Seq<u8>) -> Seq<u8> {
    enc_u32_be(f.len() as u32) + f
}

/// The first frame of the stream `s` and the bytes it takes up, if `s` holds
/// more than a length and the whole frame that the length announces.
pub open spec fn unframe(s: Seq<u8>) -> Option<(Seq<u8>, int)> {
    if s.len() > 4 {
        let n = dec_u32_be(s[0], s[1], s[2], s[3]) as int;
        if 4 + n <= s.len() {
            Some((s.subrange(4, 4 + n), 4 + n))
        } else {
            None
        }
    } else {
        None
    }
}

/// `frame` with its length in front.
pub fn length_prefixed(frame: &[u8]) -> (r: Vec<u8>)
    requires
        frame@.len() <= u32::MAX,
    ensures
        r@ == framed(frame@),
{
    let n = frame.len() as u32;
    let mut r: Vec<u8> = Vec::new();
    r.push((n >> 24u32) as u8);
    r.push((n >> 16u32) as u8);
    r.push((n >> 8u32) as u8);
    r.push(n as u8);
    let ghost head = r@;
    let mut i: usize = 0;
    while i < frame.len()
        invariant
            i <= frame@.len(),
            r@ == head + frame@.take(i as int),
        decreases frame@.len() - i,
    {
        r.push(frame[i]);
        i = i + 1;
        assert(r@ =~= head + frame@.take(i as int));
    }
    assert(frame@.take(i as int) =~= frame@);
    assert(head =~= enc_u32_be(n));
    r
}

/// Takes the first frame off the front of `buf`: the frame and how many
/// bytes of `buf` it took, or `None` while the frame is incomplete.
pub fn split_length_prefixed(buf: &[u8]) -> (r: Option<(Vec<u8>, usize)>)
    ensures
        match r {
            Some((f, used)) => unframe(buf@) == Some((f@, used as int)),
            None => unframe(buf@) is None,
        },
{
    if buf.len() <= 4 {
        return None;
    }
    let n = ((buf[0] as u32) << 24u32 | (buf[1] as u32) << 16u32 | (buf[2] as u32) << 8u32 | (
    buf[3] as u32)) as usize;
    if n > buf.len() - 4 {
        return None;
    }
    let f = slice_to_vec(slice_subrange(buf, 4, 4 + n));
    Some((f, 4 + n))
}

proof fn lemma_u32_be(x: u32)
    ensures
        dec_u32_be(
            enc_u32_be(x)[0],
            enc_u32_be(x)[1],
            enc_u32_be(x)[2],
            enc_u32_be(x)[3],
        ) == x,
{
    let b0 = (x >> 24u32) as u8;
    let b1 = (x >> 16u32) as u8;
    let b2 = (x >> 8u32) as u8;
    let b3 = x as u8;
    assert(((b0 as u32) << 24u32 | (b1 as u32) << 16u32 | (b2 as u32) << 8u32 | (b3 as u32)) == x)
        by (bit_vector)
        requires
            b0 == (x >> 24u32) as u8,
            b1 == (x >> 16u32) as u8,
            b2 == (x >> 8u32) as u8,
            b3 == x as u8,
    ;
}

/// Taking a frame off a stream gives back the frame that was put on it,
/// whatever follows it (as long as the stream holds more than a length).
pub proof fn lemma_unframe_round_trip(f: Seq<u8>, rest: Seq<u8>)
    requires
        f.len() <= u32::MAX,
        f.len() + rest.len() > 0,
    ensures
        unframe(framed(f) + rest) == Some((f, 4 + f.len() as int)),
{
    lemma_u32_be(f.len() as u32);
    let s = framed(f) + rest;
    assert(s.subrange(4, 4 + f.len() as int) =~= f);
}

} // verus!
