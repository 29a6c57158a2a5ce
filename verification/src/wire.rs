//! Little-endian encoding of 32-bit integers as four bytes.

use vstd::prelude::*;

verus! {

/// The four little-endian bytes of `x`.
pub open spec fn le32(x: u32) -> Seq<u8> {
    seq![
        (x & 0xff) as u8,
        ((x >> 8) & 0xff) as u8,
        ((x >> 16) & 0xff) as u8,
        ((x >> 24) & 0xff) as u8,
    ]
}

/// The value of four little-endian bytes.
pub open spec fn u32_of_le(s: Seq<u8>) -> u32 {
    (s[0] as u32) | ((s[1] as u32) << 8) | ((s[2] as u32) << 16) | ((s[3] as u32) << 24)
}

/// Reading back the four bytes of `x` yields `x`.
pub proof fn lemma_le32_roundtrip(x: u32)
    ensures
        u32_of_le(le32(x)) == x,
{
    assert(((x & 0xff) as u8 as u32) | (((x >> 8) & 0xff) as u8 as u32) << 8 | (((x >> 16)
        & 0xff) as u8 as u32) << 16 | (((x >> 24) & 0xff) as u8 as u32) << 24 == x)
        by (bit_vector);
}

/// Encoding the value of four bytes yields those bytes again.
pub proof fn lemma_le32_inverse(s: Seq<u8>)
    requires
        s.len() == 4,
    ensures
        le32(u32_of_le(s)) == s,
{
    let b0 = s[0];
    let b1 = s[1];
    let b2 = s[2];
    let b3 = s[3];
    let x = u32_of_le(s);
    assert(x == (b0 as u32) | ((b1 as u32) << 8) | ((b2 as u32) << 16) | ((b3 as u32) << 24));
    assert((((b0 as u32) | ((b1 as u32) << 8) | ((b2 as u32) << 16) | ((b3 as u32) << 24))
        & 0xff) as u8 == b0) by (bit_vector);
    assert(((((b0 as u32) | ((b1 as u32) << 8) | ((b2 as u32) << 16) | ((b3 as u32) << 24))
        >> 8) & 0xff) as u8 == b1) by (bit_vector);
    assert(((((b0 as u32) | ((b1 as u32) << 8) | ((b2 as u32) << 16) | ((b3 as u32) << 24))
        >> 16) & 0xff) as u8 == b2) by (bit_vector);
    assert(((((b0 as u32) | ((b1 as u32) << 8) | ((b2 as u32) << 16) | ((b3 as u32) << 24))
        >> 24) & 0xff) as u8 == b3) by (bit_vector);
    assert(le32(u32_of_le(s)) =~= s);
}

/// Appends the four little-endian bytes of `x` to `buf`.
pub fn write_u32_le(buf: &mut Vec<u8>, x: u32)
    ensures
        final(buf)@ == old(buf)@ + le32(x),
{
    proof {
        assert(x & 0xff < 256 && (x >> 8) & 0xff < 256 && (x >> 16) & 0xff < 256 && (x >> 24)
            & 0xff < 256) by (bit_vector);
    }
    buf.push((x & 0xff) as u8);
    buf.push(((x >> 8) & 0xff) as u8);
    buf.push(((x >> 16) & 0xff) as u8);
    buf.push(((x >> 24) & 0xff) as u8);
    proof {
        assert(buf@ =~= old(buf)@ + le32(x));
    }
}

/// Reads the 32-bit value stored little-endian at `off`.
pub fn read_u32_le(b: &Vec<u8>, off: usize) -> (r: u32)
    requires
        off + 4 <= b@.len(),
    ensures
        r == u32_of_le(b@.subrange(off as int, off as int + 4)),
{
    // the length call bounds the vector by usize, so the index sums fit
    let _len: usize = b.len();
    let r = (b[off] as u32) | ((b[off + 1] as u32) << 8) | ((b[off + 2] as u32) << 16) | ((b[off
        + 3] as u32) << 24);
    proof {
        let s = b@.subrange(off as int, off as int + 4);
        assert(s[0] == b@[off as int] && s[1] == b@[off as int + 1] && s[2] == b@[off as int + 2]
            && s[3] == b@[off as int + 3]);
    }
    r
}

} // verus!
