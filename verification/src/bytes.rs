//! Little-endian encoding of 64-bit words into byte buffers, used for the
//! calibration trailers of code buffers and for the rotator's persisted
//! state. The encoding and decoding directions are proved inverse.

use vstd::prelude::*;

verus! {

/// The eight little-endian bytes of a 64-bit word.
pub open spec fn le_bytes8(v: u64) -> Seq<u8> {
    seq![
        (v % 0x100) as u8,
        ((v / 0x100) % 0x100) as u8,
        ((v / 0x10000) % 0x100) as u8,
        ((v / 0x1000000) % 0x100) as u8,
        ((v / 0x100000000) % 0x100) as u8,
        ((v / 0x10000000000) % 0x100) as u8,
        ((v / 0x1000000000000) % 0x100) as u8,
        ((v / 0x100000000000000) % 0x100) as u8,
    ]
}

/// The value encoded by eight little-endian bytes.
pub open spec fn le_val8(bs: Seq<u8>) -> int {
    bs[0] + 0x100 * bs[1] + 0x10000 * bs[2] + 0x1000000 * bs[3] + 0x100000000 * bs[4]
        + 0x10000000000 * bs[5] + 0x1000000000000 * bs[6] + 0x100000000000000 * bs[7]
}

/// Decoding the encoding gives the word back.
pub proof fn lemma_le_round_trip(v: u64)
    ensures
        le_val8(le_bytes8(v)) == v,
{
    assert(le_val8(le_bytes8(v)) == v) by (bit_vector);
}

/// Append the eight little-endian bytes of `v` to `buf`.
pub fn push_u64_le(buf: &mut Vec<u8>, v: u64)
    ensures
        final(buf)@ == old(buf)@ + le_bytes8(v),
{
    buf.push((v % 0x100) as u8);
    buf.push(((v / 0x100) % 0x100) as u8);
    buf.push(((v / 0x10000) % 0x100) as u8);
    buf.push(((v / 0x1000000) % 0x100) as u8);
    buf.push(((v / 0x100000000) % 0x100) as u8);
    buf.push(((v / 0x10000000000) % 0x100) as u8);
    buf.push(((v / 0x1000000000000) % 0x100) as u8);
    buf.push(((v / 0x100000000000000) % 0x100) as u8);
    assert(buf@ =~= old(buf)@ + le_bytes8(v));
}

/// Read the 64-bit word encoded at `off`.
pub fn read_u64_le(buf: &Vec<u8>, off: usize) -> (r: u64)
    requires
        off + 8 <= buf@.len(),
    ensures
        r == le_val8(buf@.subrange(off as int, off as int + 8)),
{
    let n = buf.len();
    let b0 = buf[off] as u64;
    let b1 = buf[off + 1] as u64;
    let b2 = buf[off + 2] as u64;
    let b3 = buf[off + 3] as u64;
    let b4 = buf[off + 4] as u64;
    let b5 = buf[off + 5] as u64;
    let b6 = buf[off + 6] as u64;
    let b7 = buf[off + 7] as u64;
    let r = b0 + 0x100 * b1 + 0x10000 * b2 + 0x1000000 * b3 + 0x100000000 * b4
        + 0x10000000000 * b5 + 0x1000000000000 * b6 + 0x100000000000000 * b7;
    proof {
        let s = buf@.subrange(off as int, off as int + 8);
        assert(s[0] == buf@[off as int]);
        assert(s[1] == buf@[off as int + 1]);
        assert(s[2] == buf@[off as int + 2]);
        assert(s[3] == buf@[off as int + 3]);
        assert(s[4] == buf@[off as int + 4]);
        assert(s[5] == buf@[off as int + 5]);
        assert(s[6] == buf@[off as int + 6]);
        assert(s[7] == buf@[off as int + 7]);
    }
    r
}

} // verus!
