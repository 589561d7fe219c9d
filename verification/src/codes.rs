//! Packed code buffers: bit-level layout shared by the quantizer (which
//! writes codes) and the estimators (which read them back), together with
//! the calibration trailers that travel with each buffer.
//!
//! Layout conventions, fixed here once:
//! * bits are packed least-significant-bit first within each byte: bit `p`
//!   of a buffer lives in byte `p / 8` at position `p % 8`;
//! * a binary code buffer holds `padded_dim` bits followed by a 16-byte
//!   trailer: `delta` then `vl`, each a little-endian 64-bit word (`vl`
//!   biased by [`VL_BIAS`] so it is stored unsigned);
//! * an extended code buffer holds `padded_dim * ex_bits` bits (the
//!   `ex_bits` low bits of each full code, value order, bit order low to
//!   high) followed by a 32-byte trailer: `delta`, biased `vl`, and the
//!   squared norm of the fully reconstructed residual as two 64-bit words,
//!   low half first.

use vstd::prelude::*;

verus! {

/// Bias added to `vl` before storing it as an unsigned word.
pub const VL_BIAS: i64 = 0x100000000;

/// Largest `delta` a well-formed trailer may carry.
pub const DELTA_BOUND: i64 = 0x800000;

/// Largest magnitude of `vl` a well-formed trailer may carry.
pub const VL_BOUND: i64 = 0x800000;

/// Powers of two up to `2^10`, as a closed table.
pub open spec fn p2(k: int) -> int {
    if k <= 0 {
        1
    } else if k == 1 {
        2
    } else if k == 2 {
        4
    } else if k == 3 {
        8
    } else if k == 4 {
        16
    } else if k == 5 {
        32
    } else if k == 6 {
        64
    } else if k == 7 {
        128
    } else if k == 8 {
        256
    } else if k == 9 {
        512
    } else {
        1024
    }
}

/// Bit `p` of a packed buffer.
pub open spec fn bit_of(buf: Seq<u8>, p: int) -> bool {
    (buf[p / 8] >> ((p % 8) as u8)) & 1 == 1
}

/// Value of the `ex` bits stored at bit positions `base .. base + ex`,
/// least-significant first.
pub open spec fn bits_val(buf: Seq<u8>, base: int, ex: int) -> int
    decreases ex,
{
    if ex <= 0 {
        0
    } else {
        bits_val(buf, base, ex - 1) + if bit_of(buf, base + ex - 1) {
            p2(ex - 1)
        } else {
            0
        }
    }
}

/// Pack a sequence of bits into bytes, least-significant-bit first.
pub fn pack_bits(bits: &Vec<bool>) -> (out: Vec<u8>)
    requires
        bits@.len() % 8 == 0,
    ensures
        out@.len() == bits@.len() / 8,
        forall|p: int| 0 <= p < bits@.len() ==> bit_of(out@, p) == bits@[p],
{
    let total = bits.len();
    let nbytes = total / 8;
    let mut out: Vec<u8> = Vec::with_capacity(nbytes);
    let mut j: usize = 0;
    while j < nbytes
        invariant
            j <= nbytes,
            nbytes == bits@.len() / 8,
            bits@.len() % 8 == 0,
            total == bits@.len(),
            out@.len() == j,
            forall|p: int| 0 <= p < 8 * j ==> bit_of(out@, p) == bits@[p],
        decreases nbytes - j,
    {
        let b0: u8 = if bits[8 * j] { 1 } else { 0 };
        let b1: u8 = if bits[8 * j + 1] { 1 } else { 0 };
        let b2: u8 = if bits[8 * j + 2] { 1 } else { 0 };
        let b3: u8 = if bits[8 * j + 3] { 1 } else { 0 };
        let b4: u8 = if bits[8 * j + 4] { 1 } else { 0 };
        let b5: u8 = if bits[8 * j + 5] { 1 } else { 0 };
        let b6: u8 = if bits[8 * j + 6] { 1 } else { 0 };
        let b7: u8 = if bits[8 * j + 7] { 1 } else { 0 };
        let c: u8 = b0 + 2 * b1 + 4 * b2 + 8 * b3 + 16 * b4 + 32 * b5 + 64 * b6 + 128 * b7;
        proof {
            assert(((c >> 0u8) & 1 == 1 <==> b0 == 1) && ((c >> 1u8) & 1 == 1 <==> b1 == 1) && ((c
                >> 2u8) & 1 == 1 <==> b2 == 1) && ((c >> 3u8) & 1 == 1 <==> b3 == 1) && ((c >> 4u8)
                & 1 == 1 <==> b4 == 1) && ((c >> 5u8) & 1 == 1 <==> b5 == 1) && ((c >> 6u8) & 1 == 1
                <==> b6 == 1) && ((c >> 7u8) & 1 == 1 <==> b7 == 1)) by (bit_vector)
                requires
                    b0 <= 1 && b1 <= 1 && b2 <= 1 && b3 <= 1 && b4 <= 1 && b5 <= 1 && b6 <= 1 && b7
                        <= 1 && c == b0 + 2 * b1 + 4 * b2 + 8 * b3 + 16 * b4 + 32 * b5 + 64 * b6
                        + 128 * b7,
            ;
        }
        out.push(c);
        proof {
            assert forall|p: int| 0 <= p < 8 * (j + 1) implies bit_of(out@, p) == bits@[p] by {
                if p >= 8 * j {
                    assert(p / 8 == j as int && 0 <= p % 8 < 8);
                    assert(out@[j as int] == c);
                }
            }
        }
        j += 1;
    }
    out
}

/// Read bit `p` of a packed buffer.
pub fn get_bit(buf: &Vec<u8>, p: usize) -> (r: bool)
    requires
        p / 8 < buf@.len(),
    ensures
        r == bit_of(buf@, p as int),
{
    let byte = buf[p / 8];
    let k = p % 8;
    (byte >> (k as u8)) & 1 == 1
}

/// Read back the `ex`-bit value at bit positions `base .. base + ex`.
pub fn read_bits_val(buf: &Vec<u8>, base: usize, ex: usize) -> (r: u16)
    requires
        ex <= 8,
        base + ex <= 8 * buf@.len(),
        buf@.len() <= 0x8000000,
    ensures
        r as int == bits_val(buf@, base as int, ex as int),
        r < 256,
{
    let mut acc: u16 = 0;
    let mut k: usize = 0;
    while k < ex
        invariant
            k <= ex,
            ex <= 8,
            base + ex <= 8 * buf@.len(),
            buf@.len() <= 0x8000000,
            acc as int == bits_val(buf@, base as int, k as int),
            acc < 256,
        decreases ex - k,
    {
        assert((acc as int) < p2(k as int)) by {
            lemma_bits_val_bound(buf@, base as int, k as int);
        };
        if get_bit(buf, base + k) {
            let bitv: u16 = 1u16 << (k as u16);
            assert(bitv as int == p2(k as int)) by (bit_vector)
                requires
                    bitv == 1u16 << (k as u16) && k < 8,
            ;
            acc = acc + bitv;
        }
        k += 1;
    }
    proof {
        lemma_bits_val_bound(buf@, base as int, ex as int);
    }
    acc
}

/// The `ex`-bit field of entry `i` never exceeds `2^ex - 1`.
pub proof fn lemma_bits_val_bound(buf: Seq<u8>, base: int, ex: int)
    requires
        ex <= 8,
    ensures
        0 <= bits_val(buf, base, ex) < p2(ex),
    decreases ex,
{
    if ex > 0 {
        lemma_bits_val_bound(buf, base, ex - 1);
    }
}

/// `1 << k` matches the [`p2`] table.
pub proof fn lemma_p2_shift(k: u16)
    requires
        k <= 10,
    ensures
        (1u16 << k) as int == p2(k as int),
{
    assert((1u16 << k) == (if k == 0 {
        1u16
    } else if k == 1 {
        2
    } else if k == 2 {
        4
    } else if k == 3 {
        8
    } else if k == 4 {
        16
    } else if k == 5 {
        32
    } else if k == 6 {
        64
    } else if k == 7 {
        128
    } else if k == 8 {
        256
    } else if k == 9 {
        512
    } else {
        1024
    })) by (bit_vector)
        requires
            k <= 10,
    ;
}

/// Bit `k` of a nonnegative value.
pub open spec fn val_bit(e: int, k: int) -> bool {
    (e / p2(k)) % 2 == 1
}

/// The shift-and-mask test computes [`val_bit`].
pub proof fn lemma_val_bit_shift(e: u16, k: u16)
    requires
        k <= 8,
    ensures
        ((e >> k) & 1 == 1) == val_bit(e as int, k as int),
{
    lemma_p2_shift(k);
    let pk: u16 = (1u16 << k) as u16;
    assert(((e >> k) & 1 == 1) == ((e / pk) % 2 == 1)) by (bit_vector)
        requires
            k <= 8,
            pk == 1u16 << k,
    ;
}

/// A full split code below `2^(ex+1)` is its top-bit contribution plus its
/// low `ex` bits, recovered by mask and comparison.
pub proof fn lemma_code_split(c: u16, ex: u16)
    requires
        1 <= ex <= 8,
        (c as int) < p2(ex as int + 1),
    ensures
        (c & (((1u16 << ex) - 1) as u16)) as int == (c as int) % p2(ex as int),
        (c >= (1u16 << ex)) == ((c as int) >= p2(ex as int)),
        c as int == (if (c as int) >= p2(ex as int) {
            p2(ex as int)
        } else {
            0
        }) + (c as int) % p2(ex as int),
{
    lemma_p2_shift(ex);
    lemma_p2_shift((ex + 1) as u16);
    let pe: u16 = (1u16 << ex) as u16;
    assert((c & ((pe - 1) as u16)) == c % pe && c == (if c >= pe {
        pe
    } else {
        0u16
    }) + c % pe) by (bit_vector)
        requires
            1 <= ex <= 8,
            pe == 1u16 << ex,
            c < (1u16 << (((ex + 1) as u16) as u16)),
    ;
}

/// If the bits at `base .. base + ex` agree with the low bits of `e`, the
/// stored field recomposes to `e`.
pub proof fn lemma_bits_recompose(buf: Seq<u8>, base: int, ex: int, e: u16)
    requires
        0 <= ex <= 8,
        e < p2(ex),
        forall|k: int| 0 <= k < ex ==> #[trigger] bit_of(buf, base + k) == ((e >> (k as u16)) & 1
            == 1),
    ensures
        bits_val(buf, base, ex) == e,
    decreases ex,
{
    if ex > 0 {
        let exu: u16 = ex as u16;
        lemma_p2_shift(exu);
        lemma_p2_shift((exu - 1) as u16);
        let exm: u16 = (exu - 1) as u16;
        let pm: u16 = ((1u16 << exm) - 1) as u16;
        let m: u16 = e & pm;
        assert(m < (1u16 << exm) && e == m + (if (e >> exm) & 1 == 1 {
            1u16 << exm
        } else {
            0u16
        }) && (forall|k: u16| k < exm ==> (((m >> k) & 1 == 1) == ((e >> k) & 1 == 1))))
            by (bit_vector)
            requires
                1 <= exu <= 8,
                exm == exu - 1,
                pm == (1u16 << exm) - 1,
                m == e & pm,
                e < (1u16 << exu),
        ;
        assert forall|k: int| 0 <= k < ex - 1 implies #[trigger] bit_of(buf, base + k) == ((m >> (
        k as u16)) & 1 == 1) by {
            assert((k as u16) < exu - 1);
            assert(((m >> (k as u16)) & 1 == 1) == ((e >> (k as u16)) & 1 == 1));
        }
        lemma_bits_recompose(buf, base, ex - 1, m);
    }
}

} // verus!
