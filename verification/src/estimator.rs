//! Two-stage distance estimation from packed code buffers.
//!
//! A handle (single or batch) owns query-derived state: the rotated query,
//! its precomputed sums, and an additive correction accumulated through
//! `set_g_add`. The first stage (`estdist`) reads a binary code buffer and
//! returns a calibrated point estimate, a lower bound proved sound in
//! [`lemma_low_bound_sound`], and the raw query/binary-code inner product.
//! The second stage (`distance_boosting`) refines the estimate from the
//! extended code through a bit-width-specific inner-product kernel chosen by
//! [`select_excode_ipfunc`].

use vstd::prelude::*;

use crate::bytes::le_val8;
use crate::codes::{bit_of, bits_val, get_bit, p2, lemma_p2_shift, read_bits_val, DELTA_BOUND, VL_BIAS, VL_BOUND};
use crate::intmath::{
    dist_sq, iabs, imax0, inner, isum, norm_sq, prod_seq, seq_diff, to_ints, vec_bounded,
};
use crate::quantizer::MetricType;
use crate::{RabitqError, MAX_COORD, MAX_PADDED_DIM};

verus! {

/// Bound on the accumulated additive correction of a handle.
pub const G_BOUND: i128 = 0x1000000000000000000000000;

/// Bound on the per-call correction arguments.
pub const G_ARG_BOUND: i128 = 0x100000000000000000000;

/// `delta` stored in the trailer of a binary code buffer over `n` coordinates.
pub open spec fn bin_tr_delta(buf: Seq<u8>, n: int) -> int {
    le_val8(buf.subrange(n / 8, n / 8 + 8))
}

/// `vl` stored in the trailer of a binary code buffer.
pub open spec fn bin_tr_vl(buf: Seq<u8>, n: int) -> int {
    le_val8(buf.subrange(n / 8 + 8, n / 8 + 16)) - VL_BIAS
}

/// A binary code buffer of the right length whose trailer scalars are in
/// range. Callers obtain such buffers from the quantizer; the numeric
/// ranges are a caller contract and are not re-validated per call.
pub open spec fn bin_buf_wf(buf: Seq<u8>, n: int) -> bool {
    &&& buf.len() == n / 8 + 16
    &&& 1 <= bin_tr_delta(buf, n) <= DELTA_BOUND as int
    &&& iabs(bin_tr_vl(buf, n)) <= VL_BOUND as int
}

/// Offset of the trailer of an extended code buffer.
pub open spec fn ex_tr_base(n: int, ex: int) -> int {
    n * ex / 8
}

/// `delta` stored in the trailer of an extended code buffer.
pub open spec fn ex_tr_delta(buf: Seq<u8>, n: int, ex: int) -> int {
    le_val8(buf.subrange(ex_tr_base(n, ex), ex_tr_base(n, ex) + 8))
}

/// `vl` stored in the trailer of an extended code buffer.
pub open spec fn ex_tr_vl(buf: Seq<u8>, n: int, ex: int) -> int {
    le_val8(buf.subrange(ex_tr_base(n, ex) + 8, ex_tr_base(n, ex) + 16)) - VL_BIAS
}

/// Squared reconstruction norm stored in the trailer of an extended code
/// buffer (two little-endian words, low half first).
pub open spec fn ex_tr_vpsq(buf: Seq<u8>, n: int, ex: int) -> int {
    le_val8(buf.subrange(ex_tr_base(n, ex) + 16, ex_tr_base(n, ex) + 24)) + 0x10000000000000000
        * le_val8(buf.subrange(ex_tr_base(n, ex) + 24, ex_tr_base(n, ex) + 32))
}

/// An extended code buffer of the right length whose trailer scalars are in
/// range.
pub open spec fn ex_buf_wf(buf: Seq<u8>, n: int, ex: int) -> bool {
    &&& buf.len() == ex_tr_base(n, ex) + 32
    &&& 1 <= ex_tr_delta(buf, n, ex) <= DELTA_BOUND as int
    &&& iabs(ex_tr_vl(buf, n, ex)) <= VL_BOUND as int
    &&& 0 <= ex_tr_vpsq(buf, n, ex) <= 0x100000000000000000000
}

/// Midpoint offset used to reconstruct a coordinate from its top bit alone.
pub open spec fn half_of(ex: int) -> int {
    p2(ex) / 2
}

/// The binary code bits as a 0/1 coordinate sequence.
pub open spec fn bits01(buf: Seq<u8>, n: int) -> Seq<int> {
    Seq::new(n as nat, |i: int| if bit_of(buf, i) { 1int } else { 0int })
}

/// Reconstruction of the residual from the binary code alone: each
/// coordinate is the midpoint of the half-grid its top bit selects.
pub open spec fn bin_recon(buf: Seq<u8>, n: int, ex: int) -> Seq<int> {
    Seq::new(
        n as nat,
        |i: int|
            ((if bit_of(buf, i) {
                p2(ex)
            } else {
                0
            }) + half_of(ex)) * bin_tr_delta(buf, n) + bin_tr_vl(buf, n),
    )
}

/// Worst-case distance between a residual coordinate and its binary-only
/// reconstruction.
pub open spec fn bin_err_bound(buf: Seq<u8>, n: int, ex: int) -> int {
    half_of(ex) * bin_tr_delta(buf, n) + bin_tr_delta(buf, n) / 2
}

/// Sum of coordinate magnitudes.
pub open spec fn sum_abs(q: Seq<int>) -> int {
    isum(Seq::new(q.len(), |i: int| iabs(q[i])))
}

/// Sum of coordinates.
pub open spec fn sum_of(q: Seq<int>) -> int {
    isum(q)
}

/// First-stage point estimate: for L2 the exact squared distance between
/// the query and the binary reconstruction plus the correction; for
/// inner-product mode the negated inner product plus the correction.
pub open spec fn spec_est(q: Seq<int>, mt: MetricType, g: int, buf: Seq<u8>, n: int, ex: int) -> int {
    match mt {
        MetricType::L2 => dist_sq(q, bin_recon(buf, n, ex)) + g,
        MetricType::IP => -inner(q, bin_recon(buf, n, ex)) + g,
    }
}

/// Core of the first-stage lower bound for L2: each coordinate contributes
/// the square of however much of `|q_i - w_i|` survives the worst-case
/// reconstruction error.
pub open spec fn low_core(q: Seq<int>, w: Seq<int>, e: int) -> int {
    isum(Seq::new(q.len(), |i: int| imax0(iabs(q[i] - w[i]) - e) * imax0(iabs(q[i] - w[i]) - e)))
}

/// First-stage lower bound.
pub open spec fn spec_low(
    q: Seq<int>,
    mt: MetricType,
    g: int,
    g_error: int,
    buf: Seq<u8>,
    n: int,
    ex: int,
) -> int {
    match mt {
        MetricType::L2 => imax0(low_core(q, bin_recon(buf, n, ex), bin_err_bound(buf, n, ex)) - g_error),
        MetricType::IP => -inner(q, bin_recon(buf, n, ex)) - bin_err_bound(buf, n, ex) * sum_abs(q)
            + g - g_error,
    }
}

/// Raw query/binary-code inner product handed to the boosting stage.
pub open spec fn spec_ipx(q: Seq<int>, buf: Seq<u8>, n: int) -> int {
    inner(q, bits01(buf, n))
}

/// The extended code fields as a coordinate sequence.
pub open spec fn ex_vals(buf: Seq<u8>, n: int, ex: int) -> Seq<int> {
    Seq::new(n as nat, |i: int| bits_val(buf, i * ex, ex))
}

/// Second-stage refined estimate: the inner product of query and full
/// reconstruction is rebuilt from the first-stage scalar, the kernel's
/// extended inner product and the trailer scalars.
pub open spec fn spec_boost(
    q: Seq<int>,
    mt: MetricType,
    g: int,
    buf: Seq<u8>,
    n: int,
    ex: int,
    ipx: int,
) -> int {
    let d = ex_tr_delta(buf, n, ex);
    let vl = ex_tr_vl(buf, n, ex);
    let ipqv = d * (p2(ex) * ipx + inner(q, ex_vals(buf, n, ex))) + vl * sum_of(q);
    match mt {
        MetricType::L2 => norm_sq(q) + ex_tr_vpsq(buf, n, ex) - 2 * ipqv + g,
        MetricType::IP => -ipqv + g,
    }
}

/// Read the two trailer words of a binary code buffer.
fn read_bin_trailer(buf: &Vec<u8>, n: usize) -> (r: (i64, i64))
    requires
        n % 8 == 0,
        n <= MAX_PADDED_DIM,
        bin_buf_wf(buf@, n as int),
    ensures
        r.0 as int == bin_tr_delta(buf@, n as int),
        r.1 as int == bin_tr_vl(buf@, n as int),
{
    let d = crate::bytes::read_u64_le(buf, n / 8);
    let v = crate::bytes::read_u64_le(buf, n / 8 + 8);
    (d as i64, (v as i64) - VL_BIAS)
}

/// Read the four trailer words of an extended code buffer.
fn read_ex_trailer(buf: &Vec<u8>, n: usize, ex: usize) -> (r: (i64, i64, i128))
    requires
        1 <= ex <= 8,
        n % 8 == 0,
        n <= MAX_PADDED_DIM,
        n * ex % 8 == 0,
        ex_buf_wf(buf@, n as int, ex as int),
    ensures
        r.0 as int == ex_tr_delta(buf@, n as int, ex as int),
        r.1 as int == ex_tr_vl(buf@, n as int, ex as int),
        r.2 as int == ex_tr_vpsq(buf@, n as int, ex as int),
{
    proof {
        assert(n * ex <= 524288) by (nonlinear_arith)
            requires
                n <= 65536,
                ex <= 8,
        ;
    }
    let base = n * ex / 8;
    let d = crate::bytes::read_u64_le(buf, base);
    let v = crate::bytes::read_u64_le(buf, base + 8);
    let lo = crate::bytes::read_u64_le(buf, base + 16);
    let hi = crate::bytes::read_u64_le(buf, base + 24);
    let vpsq: i128 = (lo as i128) + 0x10000000000000000 * (hi as i128);
    (d as i64, (v as i64) - VL_BIAS, vpsq)
}

/// Inner-product kernel over packed extended codes, one variant per
/// supported bit width. Obtained through [`select_excode_ipfunc`]; the
/// width in force is never assumed, always selected.
#[derive(Clone, Copy, Debug, PartialEq, Eq, Structural)]
pub enum ExCodeIpFunc {
    /// 1-bit residual codes.
    W1,
    /// 2-bit residual codes.
    W2,
    /// 4-bit residual codes.
    W4,
    /// 8-bit residual codes.
    W8,
}

impl ExCodeIpFunc {
    /// The residual bit width this kernel reads.
    pub open spec fn spec_width(self) -> int {
        match self {
            ExCodeIpFunc::W1 => 1,
            ExCodeIpFunc::W2 => 2,
            ExCodeIpFunc::W4 => 4,
            ExCodeIpFunc::W8 => 8,
        }
    }

    /// The residual bit width this kernel reads.
    pub fn width(&self) -> (r: usize)
        ensures
            r as int == self.spec_width(),
    {
        match self {
            ExCodeIpFunc::W1 => 1,
            ExCodeIpFunc::W2 => 2,
            ExCodeIpFunc::W4 => 4,
            ExCodeIpFunc::W8 => 8,
        }
    }

    /// Inner product between the query and the packed extended code fields.
    pub fn compute(&self, query: &Vec<i64>, ex_data: &Vec<u8>, padded_dim: usize) -> (r: i128)
        requires
            query@.len() == padded_dim,
            1 <= padded_dim <= MAX_PADDED_DIM,
            vec_bounded(query@, MAX_COORD as int),
            padded_dim * self.spec_width() <= 8 * ex_data@.len(),
            ex_data@.len() <= 0x8000000,
        ensures
            r as int == inner(to_ints(query@), ex_vals(ex_data@, padded_dim as int, self.spec_width())),
    {
        let ex = self.width();
        let n = padded_dim;
        let ghost q = to_ints(query@);
        let ghost vals = ex_vals(ex_data@, n as int, ex as int);
        let ghost terms = prod_seq(q, vals);
        let mut acc: i128 = 0;
        let mut i: usize = 0;
        while i < n
            invariant
                i <= n,
                n == query@.len(),
                n <= MAX_PADDED_DIM,
                1 <= ex <= 8,
                ex as int == self.spec_width(),
                vec_bounded(query@, MAX_COORD as int),
                n * ex <= 8 * ex_data@.len(),
                ex_data@.len() <= 0x8000000,
                q == to_ints(query@),
                vals == ex_vals(ex_data@, n as int, ex as int),
                terms == prod_seq(q, vals),
                acc as int == isum(terms.subrange(0, i as int)),
                iabs(acc as int) <= i * 0x10000000,
            decreases n - i,
        {
            proof {
                assert(i * ex + ex <= n * ex) by (nonlinear_arith)
                    requires
                        (i as int) < n as int,
                        1 <= ex as int,
                ;
                assert(0 <= (i as int) * (ex as int)) by (nonlinear_arith)
                    requires
                        0 <= i as int,
                        0 <= ex as int,
                ;
            }
            let e = read_bits_val(ex_data, i * ex, ex);
            let qi = query[i];
            proof {
                assert(iabs(query@[i as int] as int) <= MAX_COORD as int);
                crate::codes::lemma_bits_val_bound(ex_data@, i as int * ex as int, ex as int);
                crate::intmath::lemma_mul_abs_bound(qi as int, e as int, MAX_COORD as int, 256);
                assert(terms[i as int] == q[i as int] * vals[i as int]);
                assert(terms.subrange(0, i as int + 1) =~= terms.subrange(0, i as int).push(
                    terms[i as int],
                ));
                crate::intmath::lemma_isum_push(terms.subrange(0, i as int), terms[i as int]);
            }
            acc = acc + (qi as i128) * (e as i128);
            i += 1;
        }
        proof {
            assert(terms.subrange(0, n as int) =~= terms);
        }
        acc
    }
}

/// Sum, absolute sum and squared norm of a bounded coordinate vector.
fn vec_sums(query: &Vec<i64>) -> (r: (i128, i128, i128))
    requires
        query@.len() <= MAX_PADDED_DIM,
        vec_bounded(query@, MAX_COORD as int),
    ensures
        r.0 as int == sum_of(to_ints(query@)),
        r.1 as int == sum_abs(to_ints(query@)),
        r.2 as int == norm_sq(to_ints(query@)),
        iabs(r.0 as int) <= 0x10000000000,
        0 <= r.1 <= 0x10000000000,
        0 <= r.2 <= 0x100000000000000000000,
{
    let ghost q = to_ints(query@);
    let ghost aseq = Seq::new(q.len(), |i: int| iabs(q[i]));
    let ghost sseq = prod_seq(q, q);
    let n = query.len();
    let mut s: i128 = 0;
    let mut sa: i128 = 0;
    let mut sq: i128 = 0;
    let mut i: usize = 0;
    while i < n
        invariant
            i <= n,
            n == query@.len(),
            n <= MAX_PADDED_DIM,
            vec_bounded(query@, MAX_COORD as int),
            q == to_ints(query@),
            aseq == Seq::new(q.len(), |t: int| iabs(q[t])),
            sseq == prod_seq(q, q),
            s as int == isum(q.subrange(0, i as int)),
            sa as int == isum(aseq.subrange(0, i as int)),
            sq as int == isum(sseq.subrange(0, i as int)),
            iabs(s as int) <= i * 0x100000,
            0 <= sa <= i * 0x100000,
            0 <= sq <= i * 0x10000000000,
        decreases n - i,
    {
        let x = query[i];
        proof {
            assert(iabs(query@[i as int] as int) <= MAX_COORD as int);
            crate::intmath::lemma_sq_le(x as int, MAX_COORD as int);
            assert(q.subrange(0, i as int + 1) =~= q.subrange(0, i as int).push(q[i as int]));
            crate::intmath::lemma_isum_push(q.subrange(0, i as int), q[i as int]);
            assert(aseq.subrange(0, i as int + 1) =~= aseq.subrange(0, i as int).push(
                aseq[i as int],
            ));
            crate::intmath::lemma_isum_push(aseq.subrange(0, i as int), aseq[i as int]);
            assert(sseq.subrange(0, i as int + 1) =~= sseq.subrange(0, i as int).push(
                sseq[i as int],
            ));
            crate::intmath::lemma_isum_push(sseq.subrange(0, i as int), sseq[i as int]);
            assert(sseq[i as int] == q[i as int] * q[i as int]);
            assert(q[i as int] * q[i as int] >= 0 && q[i as int] * q[i as int]
                <= 0x10000000000) by (nonlinear_arith)
                requires
                    iabs(q[i as int]) <= 0x100000,
            ;
        }
        s = s + (x as i128);
        let ax: i64 = if x < 0 {
            -x
        } else {
            x
        };
        sa = sa + (ax as i128);
        sq = sq + (x as i128) * (x as i128);
        i += 1;
    }
    proof {
        assert(q.subrange(0, n as int) =~= q);
        assert(aseq.subrange(0, n as int) =~= aseq);
        assert(sseq.subrange(0, n as int) =~= sseq);
    }
    (s, sa, sq)
}

/// Shared first-stage computation over a binary code buffer: point
/// estimate, lower bound, raw binary inner product.
#[verifier::rlimit(100)]
fn estdist_core(
    query: &Vec<i64>,
    sabs: i128,
    mt: MetricType,
    ex: usize,
    g: i128,
    g_err: i128,
    buf: &Vec<u8>,
) -> (r: (i128, i128, i128))
    requires
        1 <= query@.len() <= MAX_PADDED_DIM,
        query@.len() % 8 == 0,
        vec_bounded(query@, MAX_COORD as int),
        1 <= ex <= 8,
        bin_buf_wf(buf@, query@.len() as int),
        sabs as int == sum_abs(to_ints(query@)),
        0 <= sabs <= 0x10000000000,
        iabs(g as int) <= 2 * G_BOUND as int,
        iabs(g_err as int) <= G_ARG_BOUND as int,
    ensures
        r.0 as int == spec_est(to_ints(query@), mt, g as int, buf@, query@.len() as int, ex as int),
        r.1 as int == spec_low(
            to_ints(query@),
            mt,
            g as int,
            g_err as int,
            buf@,
            query@.len() as int,
            ex as int,
        ),
        r.2 as int == spec_ipx(to_ints(query@), buf@, query@.len() as int),
{
    let n = query.len();
    let ghost q = to_ints(query@);
    let (delta, vl) = read_bin_trailer(buf, n);
    let topv16: u16 = 1u16 << (ex as u16);
    proof {
        lemma_p2_shift(ex as u16);
    }
    let topv: i64 = topv16 as i64;
    let h: i64 = topv / 2;
    proof {
        crate::intmath::lemma_mul_abs_bound(h as int, delta as int, 128, DELTA_BOUND as int);
    }
    let e_bound: i64 = h * delta + delta / 2;
    let ghost w = bin_recon(buf@, n as int, ex as int);
    let ghost dseq = prod_seq(seq_diff(q, w), seq_diff(q, w));
    let ghost lseq = Seq::new(
        q.len(),
        |i: int|
            imax0(iabs(q[i] - w[i]) - bin_err_bound(buf@, n as int, ex as int)) * imax0(
                iabs(q[i] - w[i]) - bin_err_bound(buf@, n as int, ex as int),
            ),
    );
    let ghost ipseq = prod_seq(q, bits01(buf@, n as int));
    let ghost qwseq = prod_seq(q, w);

    let mut acc_d: i128 = 0;
    let mut acc_low: i128 = 0;
    let mut acc_ipx: i128 = 0;
    let mut acc_qw: i128 = 0;
    let mut i: usize = 0;
    while i < n
        invariant
            i <= n,
            n == query@.len(),
            1 <= n <= MAX_PADDED_DIM,
            1 <= ex <= 8,
            vec_bounded(query@, MAX_COORD as int),
            bin_buf_wf(buf@, n as int),
            q == to_ints(query@),
            delta as int == bin_tr_delta(buf@, n as int),
            vl as int == bin_tr_vl(buf@, n as int),
            1 <= delta <= DELTA_BOUND,
            iabs(vl as int) <= VL_BOUND as int,
            topv as int == p2(ex as int),
            2 <= topv <= 256,
            h as int == half_of(ex as int),
            e_bound as int == bin_err_bound(buf@, n as int, ex as int),
            0 <= e_bound <= 0x100000000,
            w == bin_recon(buf@, n as int, ex as int),
            dseq == prod_seq(seq_diff(q, w), seq_diff(q, w)),
            lseq == Seq::new(
                q.len(),
                |t: int|
                    imax0(iabs(q[t] - w[t]) - bin_err_bound(buf@, n as int, ex as int)) * imax0(
                        iabs(q[t] - w[t]) - bin_err_bound(buf@, n as int, ex as int),
                    ),
            ),
            ipseq == prod_seq(q, bits01(buf@, n as int)),
            qwseq == prod_seq(q, w),
            acc_d as int == isum(dseq.subrange(0, i as int)),
            acc_low as int == isum(lseq.subrange(0, i as int)),
            acc_ipx as int == isum(ipseq.subrange(0, i as int)),
            acc_qw as int == isum(qwseq.subrange(0, i as int)),
            iabs(acc_d as int) <= i * 0x100000000000000000,
            iabs(acc_low as int) <= i * 0x100000000000000000,
            iabs(acc_ipx as int) <= i * 0x100000,
            iabs(acc_qw as int) <= i * 0x1000000000000000,
        decreases n - i,
    {
        proof {
            assert((i as int) / 8 < n as int / 8 + 16);
        }
        let b = get_bit(buf, i);
        let bv: i64 = if b {
            topv
        } else {
            0
        };
        proof {
            crate::intmath::lemma_mul_abs_bound(
                bv as int + h as int,
                delta as int,
                384,
                DELTA_BOUND as int,
            );
        }
        let w_i: i64 = (bv + h) * delta + vl;
        proof {
            assert(w_i as int == w[i as int]);
            assert(iabs(query@[i as int] as int) <= MAX_COORD as int);
        }
        let qi = query[i];
        let diff = qi - w_i;
        let ad: i64 = if diff < 0 {
            -diff
        } else {
            diff
        };
        let lt: i64 = if ad > e_bound {
            ad - e_bound
        } else {
            0
        };
        proof {
            assert(diff as int == q[i as int] - w[i as int]);
            assert(lt as int == imax0(iabs(q[i as int] - w[i as int]) - e_bound as int));
            crate::intmath::lemma_sq_le(diff as int, 0x200000000);
            crate::intmath::lemma_sq_le(lt as int, 0x200000000);
            crate::intmath::lemma_mul_abs_bound(qi as int, w_i as int, MAX_COORD as int, 0x200000000);
            assert(dseq.subrange(0, i as int + 1) =~= dseq.subrange(0, i as int).push(
                dseq[i as int],
            ));
            crate::intmath::lemma_isum_push(dseq.subrange(0, i as int), dseq[i as int]);
            assert(lseq.subrange(0, i as int + 1) =~= lseq.subrange(0, i as int).push(
                lseq[i as int],
            ));
            crate::intmath::lemma_isum_push(lseq.subrange(0, i as int), lseq[i as int]);
            assert(ipseq.subrange(0, i as int + 1) =~= ipseq.subrange(0, i as int).push(
                ipseq[i as int],
            ));
            crate::intmath::lemma_isum_push(ipseq.subrange(0, i as int), ipseq[i as int]);
            assert(qwseq.subrange(0, i as int + 1) =~= qwseq.subrange(0, i as int).push(
                qwseq[i as int],
            ));
            crate::intmath::lemma_isum_push(qwseq.subrange(0, i as int), qwseq[i as int]);
            assert(ipseq[i as int] == q[i as int] * bits01(buf@, n as int)[i as int]);
            if b {
                assert(q[i as int] * 1 == q[i as int]) by (nonlinear_arith);
            } else {
                assert(q[i as int] * 0 == 0) by (nonlinear_arith);
            }
        }
        acc_d = acc_d + (diff as i128) * (diff as i128);
        acc_low = acc_low + (lt as i128) * (lt as i128);
        acc_ipx = acc_ipx + (if b {
            qi as i128
        } else {
            0
        });
        acc_qw = acc_qw + (qi as i128) * (w_i as i128);
        i += 1;
    }
    proof {
        assert(dseq.subrange(0, n as int) =~= dseq);
        assert(lseq.subrange(0, n as int) =~= lseq);
        assert(ipseq.subrange(0, n as int) =~= ipseq);
        assert(qwseq.subrange(0, n as int) =~= qwseq);
        crate::intmath::lemma_mul_abs_bound(
            e_bound as int,
            sabs as int,
            0x100000000,
            0x10000000000,
        );
    }
    let est: i128 = match mt {
        MetricType::L2 => acc_d + g,
        MetricType::IP => -acc_qw + g,
    };
    let low: i128 = match mt {
        MetricType::L2 => {
            let lc = acc_low - g_err;
            if lc > 0 {
                lc
            } else {
                0
            }
        },
        MetricType::IP => -acc_qw - e_bound as i128 * sabs + g - g_err,
    };
    (est, low, acc_ipx)
}

/// Shared second-stage computation: rebuild the query/full-reconstruction
/// inner product from the first-stage scalar, the kernel result and the
/// trailer, and fold in the norms.
fn boost_core(
    query: &Vec<i64>,
    ssum: i128,
    qsq: i128,
    mt: MetricType,
    ex: usize,
    g: i128,
    kernel: ExCodeIpFunc,
    ex_data: &Vec<u8>,
    ipx: i128,
) -> (r: i128)
    requires
        1 <= query@.len() <= MAX_PADDED_DIM,
        query@.len() % 8 == 0,
        query@.len() * ex % 8 == 0,
        vec_bounded(query@, MAX_COORD as int),
        1 <= ex <= 8,
        kernel.spec_width() == ex as int,
        ex_buf_wf(ex_data@, query@.len() as int, ex as int),
        ssum as int == sum_of(to_ints(query@)),
        iabs(ssum as int) <= 0x10000000000,
        qsq as int == norm_sq(to_ints(query@)),
        0 <= qsq <= 0x100000000000000000000,
        iabs(g as int) <= 2 * G_BOUND as int,
        iabs(ipx as int) <= 0x10000000000000000,
    ensures
        r as int == spec_boost(
            to_ints(query@),
            mt,
            g as int,
            ex_data@,
            query@.len() as int,
            ex as int,
            ipx as int,
        ),
{
    let n = query.len();
    let (delta, vl, vpsq) = read_ex_trailer(ex_data, n, ex);
    let topv16: u16 = 1u16 << (ex as u16);
    proof {
        lemma_p2_shift(ex as u16);
        assert(n * ex <= 524288) by (nonlinear_arith)
            requires
                n <= 65536,
                ex <= 8,
        ;
    }
    let qe = kernel.compute(query, ex_data, n);
    proof {
        let vals = ex_vals(ex_data@, n as int, ex as int);
        assert forall|t: int| 0 <= t < n as int implies iabs(#[trigger] prod_seq(
            to_ints(query@),
            vals,
        )[t]) <= 0x10000000 by {
            crate::codes::lemma_bits_val_bound(ex_data@, t * ex as int, ex as int);
            assert(iabs(query@[t] as int) <= MAX_COORD as int);
            crate::intmath::lemma_mul_abs_bound(
                to_ints(query@)[t],
                vals[t],
                MAX_COORD as int,
                256,
            );
        }
        crate::intmath::lemma_isum_abs_bound(prod_seq(to_ints(query@), vals), 0x10000000);
        crate::intmath::lemma_mul_abs_bound(
            p2(ex as int),
            ipx as int,
            256,
            0x10000000000000000,
        );
        crate::intmath::lemma_mul_abs_bound(
            delta as int,
            p2(ex as int) * (ipx as int) + qe as int,
            DELTA_BOUND as int,
            0x2000000000000000000,
        );
        crate::intmath::lemma_mul_abs_bound(vl as int, ssum as int, VL_BOUND as int, 0x10000000000);
    }
    let ipqv: i128 = (delta as i128) * ((topv16 as i128) * ipx + qe) + (vl as i128) * ssum;
    match mt {
        MetricType::L2 => qsq + vpsq - 2 * ipqv + g,
        MetricType::IP => -ipqv + g,
    }
}

/// Spec-level state of an estimator handle.
pub ghost struct EstimatorV {
    /// The rotated query held by the handle.
    pub query: Seq<int>,
    /// Working dimension.
    pub padded_dim: int,
    /// Residual bit width in force.
    pub ex_bits: int,
    /// Metric the estimates target.
    pub metric_type: MetricType,
    /// Correction accumulated through `set_g_add`.
    pub g_acc: int,
}

/// Query-side state for estimating distances to one candidate at a time.
pub struct SingleEstimator {
    query: Vec<i64>,
    padded_dim: usize,
    ex_bits: usize,
    metric_type: MetricType,
    g_acc: i128,
    ssum: i128,
    sabs: i128,
    qsq: i128,
    q_delta: i64,
    q_vl: i64,
    q_bin: Vec<u8>,
}

impl View for SingleEstimator {
    type V = EstimatorV;

    closed spec fn view(&self) -> EstimatorV {
        EstimatorV {
            query: to_ints(self.query@),
            padded_dim: self.padded_dim as int,
            ex_bits: self.ex_bits as int,
            metric_type: self.metric_type,
            g_acc: self.g_acc as int,
        }
    }
}

impl SingleEstimator {
    /// Internal consistency of a handle: the query matches the dimensions,
    /// the precomputed sums match the query, and the correction is bounded.
    pub closed spec fn wf(&self) -> bool {
        &&& self.query@.len() == self.padded_dim
        &&& crate::quantizer::split_len_ok(self.padded_dim as int)
        &&& vec_bounded(self.query@, MAX_COORD as int)
        &&& crate::quantizer::ex_bits_ok(self.ex_bits as int)
        &&& self.ssum as int == sum_of(to_ints(self.query@))
        &&& iabs(self.ssum as int) <= 0x10000000000
        &&& self.sabs as int == sum_abs(to_ints(self.query@))
        &&& 0 <= self.sabs <= 0x10000000000
        &&& self.qsq as int == norm_sq(to_ints(self.query@))
        &&& 0 <= self.qsq <= 0x100000000000000000000
        &&& iabs(self.g_acc as int) <= G_BOUND as int
        &&& self.q_delta as int == crate::quantizer::spec_delta(
            to_ints(self.query@),
            self.metric_type,
            self.ex_bits + 1,
        )
        &&& self.q_vl as int == crate::quantizer::spec_vl(to_ints(self.query@), self.metric_type)
        &&& self.q_bin@.len() == self.padded_dim / 8
        &&& forall|i: int|
            0 <= i < self.padded_dim ==> (bit_of(self.q_bin@, i) <==> crate::quantizer::split_code(
                to_ints(self.query@),
                self.metric_type,
                self.ex_bits as int,
                i,
            ) >= p2(self.ex_bits as int))
    }

    /// Build a handle for one rotated query. Fails with
    /// [`RabitqError::UnsupportedParameter`] for a residual width outside
    /// the supported set and with [`RabitqError::ConstructionFailure`] when
    /// the query's length and `padded_dim` disagree or are invalid.
    pub fn new(
        rotated_query: &Vec<i64>,
        padded_dim: usize,
        ex_bits: usize,
        config: &crate::quantizer::RabitqConfig,
        metric_type: MetricType,
    ) -> (r: Result<SingleEstimator, RabitqError>)
        requires
            vec_bounded(rotated_query@, MAX_COORD as int),
        ensures
            r is Ok <==> crate::quantizer::ex_bits_ok(ex_bits as int) && rotated_query@.len()
                == padded_dim && crate::quantizer::split_len_ok(padded_dim as int),
            r is Err ==> r->Err_0 == (if !crate::quantizer::ex_bits_ok(ex_bits as int) {
                RabitqError::UnsupportedParameter
            } else {
                RabitqError::ConstructionFailure
            }),
            r is Ok ==> ({
                &&& r->Ok_0.wf()
                &&& r->Ok_0@ == (EstimatorV {
                    query: to_ints(rotated_query@),
                    padded_dim: padded_dim as int,
                    ex_bits: ex_bits as int,
                    metric_type,
                    g_acc: 0,
                })
            }),
    {
        if !(ex_bits == 1 || ex_bits == 2 || ex_bits == 4 || ex_bits == 8) {
            return Err(RabitqError::UnsupportedParameter);
        }
        let n = rotated_query.len();
        if n != padded_dim || n < 1 || n > MAX_PADDED_DIM || n % crate::ALIGNED_DIM != 0 {
            return Err(RabitqError::ConstructionFailure);
        }
        let mut query: Vec<i64> = Vec::with_capacity(n);
        let mut i: usize = 0;
        while i < n
            invariant
                i <= n,
                n == rotated_query@.len(),
                query@.len() == i,
                forall|t: int| 0 <= t < i ==> #[trigger] query@[t] == rotated_query@[t],
            decreases n - i,
        {
            query.push(rotated_query[i]);
            i += 1;
        }
        proof {
            assert(query@ =~= rotated_query@);
        }
        let (ssum, sabs, qsq) = vec_sums(&query);
        proof {
            assert forall|t: int| 0 <= t < query@.len() implies iabs(#[trigger] query@[t] as int)
                <= 2 * MAX_COORD as int by {
                assert(iabs(query@[t] as int) <= MAX_COORD as int);
            }
            assert(vec_bounded(query@, 2 * MAX_COORD as int));
            assert forall|t: int| 0 <= t < to_ints(query@).len() implies iabs(
                #[trigger] to_ints(query@)[t],
            ) <= 2 * MAX_COORD as int by {
                assert(iabs(query@[t] as int) <= MAX_COORD as int);
            }
        }
        let (q_vl, q_delta) = crate::quantizer::grid_params(&query, metric_type, ex_bits + 1);
        proof {
            crate::quantizer::lemma_grid_props(
                to_ints(query@),
                metric_type,
                ex_bits as int + 1,
            );
            assert forall|t: int| 0 <= t < query@.len() implies 0 <= #[trigger] (query@[t] as int)
                - q_vl <= (p2(ex_bits as int + 1) - 1) * q_delta by {
                assert(0 <= to_ints(query@)[t] - crate::quantizer::spec_vl(
                    to_ints(query@),
                    metric_type,
                ));
            }
            assert(2 <= p2(ex_bits as int + 1) <= 512);
        }
        let codes = crate::quantizer::compute_codes(&query, q_vl, q_delta, ex_bits + 1);
        let topbits = crate::quantizer::top_bits_of(&codes, ex_bits);
        proof {
            assert(n as int % 8 == 0) by (nonlinear_arith)
                requires
                    n as int % 16 == 0,
            ;
        }
        let q_bin = crate::codes::pack_bits(&topbits);
        let est = SingleEstimator {
            query,
            padded_dim,
            ex_bits,
            metric_type,
            g_acc: 0,
            ssum,
            sabs,
            qsq,
            q_delta,
            q_vl,
            q_bin,
        };
        proof {
            assert forall|t: int| 0 <= t < padded_dim as int implies (bit_of(est.q_bin@, t)
                <==> crate::quantizer::split_code(
                to_ints(est.query@),
                metric_type,
                ex_bits as int,
                t,
            ) >= p2(ex_bits as int)) by {
                assert(bit_of(est.q_bin@, t) == topbits@[t]);
                assert(topbits@[t] == ((codes@[t] as int) >= p2(ex_bits as int)));
            }
        }
        Ok(est)
    }

    /// The query's own binary code, packed in the library's bit layout.
    pub fn query_bin(&self) -> (r: &Vec<u8>)
        requires
            self.wf(),
        ensures
            r@.len() == self@.padded_dim / 8,
            forall|i: int|
                0 <= i < self@.padded_dim ==> (bit_of(r@, i) <==> crate::quantizer::split_code(
                    self@.query,
                    self@.metric_type,
                    self@.ex_bits,
                    i,
                ) >= p2(self@.ex_bits)),
    {
        &self.q_bin
    }

    /// The query's own grid step.
    pub fn delta(&self) -> (r: i64)
        requires
            self.wf(),
        ensures
            r as int == crate::quantizer::spec_delta(
                self@.query,
                self@.metric_type,
                self@.ex_bits + 1,
            ),
    {
        self.q_delta
    }

    /// The query's own grid origin.
    pub fn vl(&self) -> (r: i64)
        requires
            self.wf(),
        ensures
            r as int == crate::quantizer::spec_vl(self@.query, self@.metric_type),
    {
        self.q_vl
    }

    /// Fold a centroid-dependent correction into the handle: the correction
    /// becomes `g_acc + norm - 2 * ip`. Pure addition, so calls commute and
    /// may happen any number of times.
    pub fn set_g_add(&mut self, norm: i64, ip: i64)
        requires
            old(self).wf(),
            iabs(old(self)@.g_acc + norm - 2 * ip) <= G_BOUND as int,
        ensures
            final(self).wf(),
            final(self)@ == (EstimatorV {
                g_acc: old(self)@.g_acc + norm - 2 * ip,
                ..old(self)@
            }),
    {
        self.g_acc = self.g_acc + (norm as i128) - 2 * (ip as i128);
    }

    /// First-stage estimate against one binary code buffer: the point
    /// estimate, the lower bound and the raw binary inner product, each an
    /// exact integer given by [`spec_est`], [`spec_low`] and [`spec_ipx`].
    /// Fails with [`RabitqError::LengthMismatch`] when the buffer's length
    /// does not match the handle's dimension.
    pub fn estdist(&self, bin_data: &Vec<u8>, g_add: i128, g_error: i128) -> (r: Result<
        (i128, i128, i128),
        RabitqError,
    >)
        requires
            self.wf(),
            bin_data@.len() == self@.padded_dim / 8 + 16 ==> bin_buf_wf(
                bin_data@,
                self@.padded_dim,
            ),
            iabs(g_add as int) <= G_ARG_BOUND as int,
            iabs(g_error as int) <= G_ARG_BOUND as int,
        ensures
            r is Ok <==> bin_data@.len() == self@.padded_dim / 8 + 16,
            r is Err ==> r->Err_0 == RabitqError::LengthMismatch,
            r is Ok ==> ({
                &&& r->Ok_0.0 as int == spec_est(
                    self@.query,
                    self@.metric_type,
                    self@.g_acc + g_add,
                    bin_data@,
                    self@.padded_dim,
                    self@.ex_bits,
                )
                &&& r->Ok_0.1 as int == spec_low(
                    self@.query,
                    self@.metric_type,
                    self@.g_acc + g_add,
                    g_error as int,
                    bin_data@,
                    self@.padded_dim,
                    self@.ex_bits,
                )
                &&& r->Ok_0.2 as int == spec_ipx(self@.query, bin_data@, self@.padded_dim)
            }),
    {
        let n = self.padded_dim;
        if bin_data.len() != n / 8 + 16 {
            return Err(RabitqError::LengthMismatch);
        }
        proof {
            assert(n as int % 8 == 0) by (nonlinear_arith)
                requires
                    n as int % 16 == 0,
            ;
        }
        let g = self.g_acc + g_add;
        Ok(estdist_core(&self.query, self.sabs, self.metric_type, self.ex_bits, g, g_error, bin_data))
    }

    /// Second-stage refined estimate from the extended code, the kernel for
    /// the handle's bit width, and the first stage's raw inner product.
    /// Fails with [`RabitqError::UnsupportedParameter`] when no kernel is
    /// given or its width differs from the handle's, and with
    /// [`RabitqError::LengthMismatch`] on a buffer of the wrong length.
    pub fn distance_boosting(
        &self,
        ex_data: &Vec<u8>,
        ip_func: Option<ExCodeIpFunc>,
        ip_x0_qr: i128,
    ) -> (r: Result<i128, RabitqError>)
        requires
            self.wf(),
            ex_data@.len() == self@.padded_dim * self@.ex_bits / 8 + 32 ==> ex_buf_wf(
                ex_data@,
                self@.padded_dim,
                self@.ex_bits,
            ),
            iabs(ip_x0_qr as int) <= 0x10000000000000000,
        ensures
            r is Ok <==> (ip_func matches Some(k) && k.spec_width() == self@.ex_bits
                && ex_data@.len() == self@.padded_dim * self@.ex_bits / 8 + 32),
            r is Err ==> r->Err_0 == (if !(ip_func matches Some(k) && k.spec_width()
                == self@.ex_bits) {
                RabitqError::UnsupportedParameter
            } else {
                RabitqError::LengthMismatch
            }),
            r is Ok ==> r->Ok_0 as int == spec_boost(
                self@.query,
                self@.metric_type,
                self@.g_acc,
                ex_data@,
                self@.padded_dim,
                self@.ex_bits,
                ip_x0_qr as int,
            ),
    {
        let kernel = match ip_func {
            Some(k) => k,
            None => {
                return Err(RabitqError::UnsupportedParameter);
            },
        };
        if kernel.width() != self.ex_bits {
            return Err(RabitqError::UnsupportedParameter);
        }
        proof {
            assert(self.padded_dim * self.ex_bits <= 524288) by (nonlinear_arith)
                requires
                    self.padded_dim <= 65536,
                    self.ex_bits <= 8,
            ;
        }
        if ex_data.len() != self.padded_dim * self.ex_bits / 8 + 32 {
            return Err(RabitqError::LengthMismatch);
        }
        proof {
            assert(self.padded_dim as int % 8 == 0) by (nonlinear_arith)
                requires
                    self.padded_dim as int % 16 == 0,
            ;
            assert((self.padded_dim * self.ex_bits) as int % 8 == 0) by (nonlinear_arith)
                requires
                    self.padded_dim as int % 8 == 0,
                    1 <= self.ex_bits <= 8,
                    (self.padded_dim * self.ex_bits) as int == self.padded_dim as int
                        * self.ex_bits as int,
            ;
        }
        Ok(
            boost_core(
                &self.query,
                self.ssum,
                self.qsq,
                self.metric_type,
                self.ex_bits,
                self.g_acc,
                kernel,
                ex_data,
                ip_x0_qr,
            ),
        )
    }
}

/// Query-side state for batched scanning: the same mathematics as
/// [`SingleEstimator`], with query tables computed once at construction.
/// Integer accumulation is exact, so the hardware-accumulation flag selects
/// a summation strategy without changing any result.
pub struct BatchEstimator {
    core: SingleEstimator,
    use_hacc: bool,
}

impl View for BatchEstimator {
    type V = EstimatorV;

    closed spec fn view(&self) -> EstimatorV {
        self.core@
    }
}

impl BatchEstimator {
    /// Internal consistency, as for the single-candidate handle.
    pub closed spec fn wf(&self) -> bool {
        self.core.wf()
    }

    /// Build a batch handle for one rotated query.
    pub fn new(
        rotated_query: &Vec<i64>,
        padded_dim: usize,
        ex_bits: usize,
        metric_type: MetricType,
        use_hacc: bool,
    ) -> (r: Result<BatchEstimator, RabitqError>)
        requires
            vec_bounded(rotated_query@, MAX_COORD as int),
        ensures
            r is Ok <==> crate::quantizer::ex_bits_ok(ex_bits as int) && rotated_query@.len()
                == padded_dim && crate::quantizer::split_len_ok(padded_dim as int),
            r is Err ==> r->Err_0 == (if !crate::quantizer::ex_bits_ok(ex_bits as int) {
                RabitqError::UnsupportedParameter
            } else {
                RabitqError::ConstructionFailure
            }),
            r is Ok ==> ({
                &&& r->Ok_0.wf()
                &&& r->Ok_0@ == (EstimatorV {
                    query: to_ints(rotated_query@),
                    padded_dim: padded_dim as int,
                    ex_bits: ex_bits as int,
                    metric_type,
                    g_acc: 0,
                })
            }),
    {
        let cfg = crate::quantizer::RabitqConfig::new();
        let core = SingleEstimator::new(rotated_query, padded_dim, ex_bits, &cfg, metric_type)?;
        Ok(BatchEstimator { core, use_hacc })
    }

    /// Fold a centroid-dependent correction into the handle, additively.
    pub fn set_g_add(&mut self, norm: i64, ip: i64)
        requires
            old(self).wf(),
            iabs(old(self)@.g_acc + norm - 2 * ip) <= G_BOUND as int,
        ensures
            final(self).wf(),
            final(self)@ == (EstimatorV {
                g_acc: old(self)@.g_acc + norm - 2 * ip,
                ..old(self)@
            }),
    {
        self.core.set_g_add(norm, ip);
    }

    /// First-stage estimate against one binary code buffer from a batch.
    /// The flag selects the accumulation strategy; over exact integers every
    /// strategy returns the same three values.
    pub fn estdist(&self, batch_data: &Vec<u8>, use_hacc: bool) -> (r: Result<
        (i128, i128, i128),
        RabitqError,
    >)
        requires
            self.wf(),
            batch_data@.len() == self@.padded_dim / 8 + 16 ==> bin_buf_wf(
                batch_data@,
                self@.padded_dim,
            ),
        ensures
            r is Ok <==> batch_data@.len() == self@.padded_dim / 8 + 16,
            r is Err ==> r->Err_0 == RabitqError::LengthMismatch,
            r is Ok ==> ({
                &&& r->Ok_0.0 as int == spec_est(
                    self@.query,
                    self@.metric_type,
                    self@.g_acc,
                    batch_data@,
                    self@.padded_dim,
                    self@.ex_bits,
                )
                &&& r->Ok_0.1 as int == spec_low(
                    self@.query,
                    self@.metric_type,
                    self@.g_acc,
                    0,
                    batch_data@,
                    self@.padded_dim,
                    self@.ex_bits,
                )
                &&& r->Ok_0.2 as int == spec_ipx(self@.query, batch_data@, self@.padded_dim)
            }),
    {
        self.core.estdist(batch_data, 0, 0)
    }

    /// Second-stage refined estimate; `ex_bits` must match the handle's.
    pub fn distance_boosting(
        &self,
        ex_data: &Vec<u8>,
        ip_func: Option<ExCodeIpFunc>,
        ex_bits: usize,
        ip_x0_qr: i128,
    ) -> (r: Result<i128, RabitqError>)
        requires
            self.wf(),
            ex_data@.len() == self@.padded_dim * self@.ex_bits / 8 + 32 ==> ex_buf_wf(
                ex_data@,
                self@.padded_dim,
                self@.ex_bits,
            ),
            iabs(ip_x0_qr as int) <= 0x10000000000000000,
        ensures
            r is Ok <==> (ip_func matches Some(k) && k.spec_width() == self@.ex_bits && ex_bits
                as int == self@.ex_bits && ex_data@.len() == self@.padded_dim * self@.ex_bits / 8
                + 32),
            r is Err ==> r->Err_0 == (if !(ip_func matches Some(k) && k.spec_width()
                == self@.ex_bits && ex_bits as int == self@.ex_bits) {
                RabitqError::UnsupportedParameter
            } else {
                RabitqError::LengthMismatch
            }),
            r is Ok ==> r->Ok_0 as int == spec_boost(
                self@.query,
                self@.metric_type,
                self@.g_acc,
                ex_data@,
                self@.padded_dim,
                self@.ex_bits,
                ip_x0_qr as int,
            ),
    {
        if ex_bits != self.core.ex_bits {
            return Err(RabitqError::UnsupportedParameter);
        }
        self.core.distance_boosting(ex_data, ip_func, ip_x0_qr)
    }
}

/// The kernel for a residual bit width, or `None` when the width is
/// unsupported: zero, above [`crate::MAX_EX_BITS`], or not in the closed
/// supported set.
pub fn select_excode_ipfunc(ex_bits: usize) -> (r: Option<ExCodeIpFunc>)
    ensures
        r is Some <==> crate::quantizer::ex_bits_ok(ex_bits as int),
        r is Some ==> r->0.spec_width() == ex_bits as int,
{
    match ex_bits {
        1 => Some(ExCodeIpFunc::W1),
        2 => Some(ExCodeIpFunc::W2),
        4 => Some(ExCodeIpFunc::W4),
        8 => Some(ExCodeIpFunc::W8),
        _ => None,
    }
}

/// The magnitude squared is the square.
proof fn lemma_abs_sq(d: int)
    by (nonlinear_arith)
    ensures
        iabs(d) * iabs(d) == d * d,
{
}

/// Each coordinate of a binary code buffer written by the split quantizer
/// reconstructs to within [`bin_err_bound`] of the residual it encodes.
proof fn lemma_bin_recon_close(rv: Seq<int>, mt: MetricType, ex: int, buf: Seq<u8>)
    requires
        rv.len() >= 1,
        crate::quantizer::ex_bits_ok(ex),
        forall|i: int| 0 <= i < rv.len() ==> iabs(#[trigger] rv[i]) <= 2 * MAX_COORD as int,
        crate::quantizer::split_bin_wf(buf, rv, mt, ex),
    ensures
        bin_tr_delta(buf, rv.len() as int) == crate::quantizer::spec_delta(rv, mt, ex + 1),
        bin_tr_vl(buf, rv.len() as int) == crate::quantizer::spec_vl(rv, mt),
        forall|i: int|
            0 <= i < rv.len() ==> iabs(
                #[trigger] rv[i] - bin_recon(buf, rv.len() as int, ex)[i],
            ) <= bin_err_bound(buf, rv.len() as int, ex),
{
    let n = rv.len() as int;
    let d = crate::quantizer::spec_delta(rv, mt, ex + 1);
    let vl = crate::quantizer::spec_vl(rv, mt);
    let w = bin_recon(buf, n, ex);
    let h = half_of(ex);
    crate::quantizer::lemma_grid_props(rv, mt, ex + 1);
    assert(p2(ex + 1) == 2 * p2(ex));
    assert(p2(ex) == 2 * h);
    assert forall|i: int| 0 <= i < n implies iabs(#[trigger] rv[i] - w[i]) <= bin_err_bound(
        buf,
        n,
        ex,
    ) by {
        let c = crate::quantizer::split_code(rv, mt, ex, i);
        crate::quantizer::lemma_code_props(rv[i] - vl, d, p2(ex + 1) - 1);
        let b = if c >= p2(ex) {
            p2(ex)
        } else {
            0
        };
        assert(iabs(c - (b + h)) <= h);
        assert(w[i] == (b + h) * d + vl);
        assert((b + h) * d - c * d == (b + h - c) * d) by (nonlinear_arith);
        crate::intmath::lemma_mul_abs_bound(b + h - c, d, h, d);
        assert(iabs(rv[i] - (c * d + vl)) <= d / 2);
        assert(h * d + d / 2 == bin_err_bound(buf, n, ex));
    }
}

/// Law: lower-bound soundness. For codes produced by the split quantizer
/// from a residual `rv`, the first stage's lower bound never exceeds the
/// true distance between the handle's query and `rv`: for L2 it is at most
/// the exact squared distance, for inner-product mode at most the negated
/// exact inner product plus the correction.
pub proof fn lemma_low_bound_sound(
    q: Seq<int>,
    rv: Seq<int>,
    mt: MetricType,
    ex: int,
    buf: Seq<u8>,
    g: int,
    g_error: int,
)
    requires
        q.len() == rv.len(),
        rv.len() >= 1,
        crate::quantizer::ex_bits_ok(ex),
        forall|i: int| 0 <= i < rv.len() ==> iabs(#[trigger] rv[i]) <= 2 * MAX_COORD as int,
        crate::quantizer::split_bin_wf(buf, rv, mt, ex),
        g_error >= 0,
    ensures
        mt is L2 ==> spec_low(q, mt, g, g_error, buf, q.len() as int, ex) <= dist_sq(q, rv),
        mt is IP ==> spec_low(q, mt, g, g_error, buf, q.len() as int, ex) <= -inner(q, rv) + g,
{
    let n = q.len() as int;
    let w = bin_recon(buf, n, ex);
    let e = bin_err_bound(buf, n, ex);
    lemma_bin_recon_close(rv, mt, ex, buf);
    crate::quantizer::lemma_grid_props(rv, mt, ex + 1);
    assert(e >= 0) by {
        assert(half_of(ex) * bin_tr_delta(buf, n) >= 0) by (nonlinear_arith)
            requires
                half_of(ex) >= 0,
                bin_tr_delta(buf, n) >= 1,
        ;
    };
    match mt {
        MetricType::L2 => {
            let lseq = Seq::new(
                q.len(),
                |i: int| imax0(iabs(q[i] - w[i]) - e) * imax0(iabs(q[i] - w[i]) - e),
            );
            let dseq = prod_seq(seq_diff(q, rv), seq_diff(q, rv));
            assert forall|i: int| 0 <= i < n implies lseq[i] <= dseq[i] by {
                let a = imax0(iabs(q[i] - w[i]) - e);
                assert(iabs(rv[i] - w[i]) <= e);
                assert(a >= 0 && a <= iabs(q[i] - rv[i]));
                crate::intmath::lemma_sq_le(a, iabs(q[i] - rv[i]));
                lemma_abs_sq(q[i] - rv[i]);
            }
            crate::intmath::lemma_isum_pointwise_le(lseq, dseq);
            assert forall|i: int| 0 <= i < n implies #[trigger] dseq[i] >= 0 by {
                crate::intmath::lemma_sq_le(q[i] - rv[i], iabs(q[i] - rv[i]));
            }
            crate::intmath::lemma_isum_nonneg(dseq);
        },
        MetricType::IP => {
            let qr = prod_seq(q, rv);
            let bound = Seq::new(q.len(), |i: int| prod_seq(q, w)[i] + e * iabs(q[i]));
            assert forall|i: int| 0 <= i < n implies qr[i] <= bound[i] by {
                crate::intmath::lemma_mul_abs_bound(q[i], rv[i] - w[i], iabs(q[i]), e);
                assert(q[i] * rv[i] - q[i] * w[i] == q[i] * (rv[i] - w[i])) by (nonlinear_arith);
                assert(e * iabs(q[i]) == iabs(q[i]) * e) by (nonlinear_arith);
            }
            crate::intmath::lemma_isum_pointwise_le(qr, bound);
            let escaled = Seq::new(q.len(), |i: int| e * iabs(q[i]));
            assert(bound =~= Seq::new(q.len(), |i: int| prod_seq(q, w)[i] + escaled[i]));
            crate::intmath::lemma_isum_add(prod_seq(q, w), escaled);
            assert(escaled =~= Seq::new(q.len(), |i: int| e * Seq::new(q.len(), |t: int| iabs(q[t]))[i]));
            crate::intmath::lemma_isum_scale(e, Seq::new(q.len(), |t: int| iabs(q[t])));
            assert(inner(q, rv) <= inner(q, w) + e * sum_abs(q));
        },
    }
}

/// Law: boosting is exact. For the pair of buffers produced by the split
/// quantizer from a residual `rv`, feeding the first stage's raw binary
/// inner product into the second stage yields exactly the distance between
/// the query and the full reconstruction of `rv` (for L2; the negated
/// exact inner product for inner-product mode), plus the correction.
pub proof fn lemma_boost_exact(
    q: Seq<int>,
    rv: Seq<int>,
    mt: MetricType,
    ex: int,
    bin_buf: Seq<u8>,
    ex_buf: Seq<u8>,
    g: int,
)
    requires
        q.len() == rv.len(),
        rv.len() >= 1,
        crate::quantizer::ex_bits_ok(ex),
        forall|i: int| 0 <= i < rv.len() ==> iabs(#[trigger] rv[i]) <= 2 * MAX_COORD as int,
        crate::quantizer::split_bin_wf(bin_buf, rv, mt, ex),
        crate::quantizer::split_ex_wf(ex_buf, rv, mt, ex),
    ensures
        mt is L2 ==> spec_boost(q, mt, g, ex_buf, q.len() as int, ex, spec_ipx(q, bin_buf, q.len() as int))
            == dist_sq(q, crate::quantizer::split_recon(rv, mt, ex)) + g,
        mt is IP ==> spec_boost(q, mt, g, ex_buf, q.len() as int, ex, spec_ipx(q, bin_buf, q.len() as int))
            == -inner(q, crate::quantizer::split_recon(rv, mt, ex)) + g,
{
    let n = q.len() as int;
    let d = crate::quantizer::spec_delta(rv, mt, ex + 1);
    let vl = crate::quantizer::spec_vl(rv, mt);
    let codes = Seq::new(rv.len(), |i: int| crate::quantizer::split_code(rv, mt, ex, i));
    let recon = crate::quantizer::split_recon(rv, mt, ex);
    let b01 = bits01(bin_buf, n);
    let ev = ex_vals(ex_buf, n, ex);
    let vpsq = crate::quantizer::split_vpsq(rv, mt, ex);
    crate::quantizer::lemma_grid_props(rv, mt, ex + 1);
    assert(p2(ex + 1) == 2 * p2(ex));

    // trailer scalars match the grid
    assert(ex_tr_delta(ex_buf, n, ex) == d);
    assert(ex_tr_vl(ex_buf, n, ex) == vl);
    assert(ex_tr_vpsq(ex_buf, n, ex) == vpsq % 0x10000000000000000 + 0x10000000000000000 * (vpsq
        / 0x10000000000000000));
    vstd::arithmetic::div_mod::lemma_fundamental_div_mod(vpsq, 0x10000000000000000);
    assert(ex_tr_vpsq(ex_buf, n, ex) == vpsq);

    // each full code splits into its top bit and its stored low bits
    assert forall|i: int| 0 <= i < n implies codes[i] == p2(ex) * b01[i] + ev[i] by {
        let c = codes[i];
        crate::quantizer::lemma_code_props(rv[i] - vl, d, p2(ex + 1) - 1);
        crate::rotator::lemma_mod_once(c, p2(ex));
        assert(ev[i] == c % p2(ex));
        if c >= p2(ex) {
            assert(b01[i] == 1);
            assert(p2(ex) * 1 == p2(ex)) by (nonlinear_arith);
        } else {
            assert(b01[i] == 0);
            assert(p2(ex) * 0 == 0) by (nonlinear_arith);
        }
    }

    // inner(q, codes) == p2(ex) * inner(q, b01) + inner(q, ev)
    let scaled_qb = Seq::new(q.len(), |i: int| p2(ex) * prod_seq(q, b01)[i]);
    assert forall|i: int| 0 <= i < n implies prod_seq(q, codes)[i] == scaled_qb[i] + prod_seq(
        q,
        ev,
    )[i] by {
        assert(q[i] * (p2(ex) * b01[i] + ev[i]) == p2(ex) * (q[i] * b01[i]) + q[i] * ev[i])
            by (nonlinear_arith);
    }
    assert(prod_seq(q, codes) =~= Seq::new(q.len(), |i: int| scaled_qb[i] + prod_seq(q, ev)[i]));
    crate::intmath::lemma_isum_add(scaled_qb, prod_seq(q, ev));
    assert(scaled_qb =~= Seq::new(prod_seq(q, b01).len(), |i: int| p2(ex) * prod_seq(q, b01)[i]));
    crate::intmath::lemma_isum_scale(p2(ex), prod_seq(q, b01));
    assert(inner(q, codes) == p2(ex) * spec_ipx(q, bin_buf, n) + inner(q, ev));

    // inner(q, recon) == d * inner(q, codes) + vl * sum_of(q)
    let scaled_qc = Seq::new(q.len(), |i: int| d * prod_seq(q, codes)[i]);
    let scaled_q = Seq::new(q.len(), |i: int| vl * q[i]);
    assert forall|i: int| 0 <= i < n implies prod_seq(q, recon)[i] == scaled_qc[i]
        + scaled_q[i] by {
        assert(recon[i] == codes[i] * d + vl);
        assert(q[i] * (codes[i] * d + vl) == d * (q[i] * codes[i]) + vl * q[i])
            by (nonlinear_arith);
    }
    assert(prod_seq(q, recon) =~= Seq::new(q.len(), |i: int| scaled_qc[i] + scaled_q[i]));
    crate::intmath::lemma_isum_add(scaled_qc, scaled_q);
    assert(scaled_qc =~= Seq::new(prod_seq(q, codes).len(), |i: int| d * prod_seq(q, codes)[i]));
    crate::intmath::lemma_isum_scale(d, prod_seq(q, codes));
    assert(scaled_q =~= Seq::new(q.len(), |i: int| vl * q[i]));
    crate::intmath::lemma_isum_scale(vl, q);
    assert(inner(q, recon) == d * inner(q, codes) + vl * sum_of(q));

    // assemble
    let ipqv = d * (p2(ex) * spec_ipx(q, bin_buf, n) + inner(q, ev)) + vl * sum_of(q);
    assert(ipqv == inner(q, recon));
    if mt is L2 {
        crate::intmath::lemma_dist_expand(q, recon);
    }
}

} // verus!
