//! Uniform scalar quantization of fixed-point vectors into compact codes
//! with per-vector calibration scalars, and the exact reconstruction of
//! those codes. The per-vector grid adapts to the coordinate range: `vl` is
//! the grid origin, `delta` the step, and every code is the nearest grid
//! point, so the reconstruction error is at most half a step per coordinate
//! — a bound returned to the caller and proved below.

use vstd::prelude::*;

use crate::intmath::{
    dist_sq, iabs, isum, lemma_isum_const, lemma_isum_pointwise_le, norm_sq, seq_diff, to_ints,
    vec_bounded,
};
use crate::codes::{lemma_p2_shift, p2};
use crate::{RabitqError, MAX_COORD, MAX_PADDED_DIM};

verus! {

/// Distance flavor the codes will be used with. The grid origin differs:
/// L2 anchors at the minimum coordinate, inner-product mode at a symmetric
/// range around zero.
#[derive(Clone, Copy, Debug, PartialEq, Eq, Structural)]
pub enum MetricType {
    /// Squared Euclidean distance.
    L2,
    /// Inner-product similarity.
    IP,
}

/// Quantization settings shared read-only by many calls. A zero field
/// places no constraint; [`RabitqConfig::faster_config`] pins the expected
/// dimension and bit width so every call is validated against them.
pub struct RabitqConfig {
    /// Expected vector length, or 0 for any.
    pub dim: usize,
    /// Expected total bit width, or 0 for any.
    pub total_bits: usize,
}

impl RabitqConfig {
    /// A configuration that accepts any dimension and bit width.
    pub fn new() -> (r: RabitqConfig)
        ensures
            r.dim == 0,
            r.total_bits == 0,
    {
        RabitqConfig { dim: 0, total_bits: 0 }
    }

    /// A configuration specialized to one dimension and bit width; calls
    /// made with other parameters are rejected.
    pub fn faster_config(dim: usize, total_bits: usize) -> (r: RabitqConfig)
        ensures
            r.dim == dim,
            r.total_bits == total_bits,
    {
        RabitqConfig { dim, total_bits }
    }
}

/// Smallest element of a nonempty sequence.
pub open spec fn seq_min(s: Seq<int>) -> int
    decreases s.len(),
{
    if s.len() <= 1 {
        s[0]
    } else if s.last() < seq_min(s.drop_last()) {
        s.last()
    } else {
        seq_min(s.drop_last())
    }
}

/// Largest element of a nonempty sequence.
pub open spec fn seq_max(s: Seq<int>) -> int
    decreases s.len(),
{
    if s.len() <= 1 {
        s[0]
    } else if s.last() > seq_max(s.drop_last()) {
        s.last()
    } else {
        seq_max(s.drop_last())
    }
}

/// The minimum is a lower bound.
pub proof fn lemma_seq_min_le(s: Seq<int>, i: int)
    requires
        0 <= i < s.len(),
    ensures
        seq_min(s) <= s[i],
    decreases s.len(),
{
    if s.len() > 1 && i < s.len() - 1 {
        lemma_seq_min_le(s.drop_last(), i);
    }
}

/// The maximum is an upper bound.
pub proof fn lemma_seq_max_ge(s: Seq<int>, i: int)
    requires
        0 <= i < s.len(),
    ensures
        seq_max(s) >= s[i],
    decreases s.len(),
{
    if s.len() > 1 && i < s.len() - 1 {
        lemma_seq_max_ge(s.drop_last(), i);
    }
}

/// Grid origin for a residual sequence under a metric.
pub open spec fn spec_vl(r: Seq<int>, mt: MetricType) -> int {
    match mt {
        MetricType::L2 => seq_min(r),
        MetricType::IP => -(if iabs(seq_min(r)) >= iabs(seq_max(r)) {
            iabs(seq_min(r))
        } else {
            iabs(seq_max(r))
        }),
    }
}

/// Width of the value range the grid has to cover.
pub open spec fn spec_range(r: Seq<int>, mt: MetricType) -> int {
    match mt {
        MetricType::L2 => seq_max(r) - seq_min(r),
        MetricType::IP => -2 * spec_vl(r, mt),
    }
}

/// Grid step: the range split into `2^bits - 1` steps, rounded up, never
/// below one.
pub open spec fn spec_delta(r: Seq<int>, mt: MetricType, bits: int) -> int {
    let l1 = p2(bits) - 1;
    let c = (spec_range(r, mt) + l1 - 1) / l1;
    if c < 1 {
        1
    } else {
        c
    }
}

/// Nearest grid point below `2^bits` for offset `t` on a grid of step `d`.
pub open spec fn code_of(t: int, d: int) -> int {
    (t + d / 2) / d
}

/// Code of coordinate `i` of residual sequence `r`.
pub open spec fn spec_code(r: Seq<int>, mt: MetricType, bits: int, i: int) -> int {
    code_of(r[i] - spec_vl(r, mt), spec_delta(r, mt, bits))
}

/// Affine reconstruction of a code sequence.
pub open spec fn spec_recon(codes: Seq<int>, delta: int, vl: int) -> Seq<int> {
    Seq::new(codes.len(), |i: int| codes[i] * delta + vl)
}

/// Rounding to the nearest multiple of `d` stays within the range and
/// misses by at most half a step.
pub proof fn lemma_code_props(t: int, d: int, lmax: int)
    requires
        d >= 1,
        lmax >= 0,
        0 <= t <= lmax * d,
    ensures
        0 <= code_of(t, d) <= lmax,
        iabs(t - code_of(t, d) * d) <= d / 2,
{
    let q = (t + d / 2) / d;
    let rr = (t + d / 2) % d;
    vstd::arithmetic::div_mod::lemma_fundamental_div_mod(t + d / 2, d);
    assert(0 <= rr < d) by {
        vstd::arithmetic::div_mod::lemma_mod_bound(t + d / 2, d);
    };
    assert(q >= 0) by (nonlinear_arith)
        requires
            d >= 1,
            d * q + rr == t + d / 2,
            0 <= rr < d,
            t >= 0,
    ;
    assert(q <= lmax) by (nonlinear_arith)
        requires
            d >= 1,
            lmax >= 0,
            d * q + rr == t + d / 2,
            0 <= rr < d,
            t <= lmax * d,
    ;
    assert(t - q * d == rr - d / 2) by (nonlinear_arith)
        requires
            d * q + rr == t + d / 2,
    ;
}

/// Ceiling division: `(a + b - 1) / b` covers `a` and never exceeds `a`
/// for positive `a`.
pub proof fn lemma_ceil_div(a: int, b: int)
    requires
        a >= 0,
        b >= 1,
    ensures
        ((a + b - 1) / b) * b >= a,
        (a + b - 1) / b >= 0,
        (a + b - 1) / b <= a,
{
    let q = (a + b - 1) / b;
    let rr = (a + b - 1) % b;
    vstd::arithmetic::div_mod::lemma_fundamental_div_mod(a + b - 1, b);
    assert(0 <= rr < b) by {
        vstd::arithmetic::div_mod::lemma_mod_bound(a + b - 1, b);
    };
    assert(q * b >= a && q >= 0 && q <= a) by (nonlinear_arith)
        requires
            b >= 1,
            a >= 0,
            b * q + rr == a + b - 1,
            0 <= rr < b,
    ;
}

/// Facts about the whole grid of a residual sequence: the step covers the
/// range, every offset is in range, and the step is bounded.
pub proof fn lemma_grid_props(r: Seq<int>, mt: MetricType, bits: int)
    requires
        r.len() >= 1,
        1 <= bits <= 10,
        forall|i: int| 0 <= i < r.len() ==> iabs(#[trigger] r[i]) <= 2 * MAX_COORD as int,
    ensures
        spec_delta(r, mt, bits) >= 1,
        spec_delta(r, mt, bits) <= 4 * MAX_COORD as int + 1,
        iabs(spec_vl(r, mt)) <= 2 * MAX_COORD as int,
        forall|i: int|
            0 <= i < r.len() ==> 0 <= #[trigger] r[i] - spec_vl(r, mt) <= (p2(bits) - 1)
                * spec_delta(r, mt, bits),
{
    let vl = spec_vl(r, mt);
    let range = spec_range(r, mt);
    let l1 = p2(bits) - 1;
    let d = spec_delta(r, mt, bits);
    lemma_seq_min_le(r, 0);
    lemma_seq_max_ge(r, 0);
    lemma_seq_minmax_bounded(r, 2 * MAX_COORD as int);
    assert(range >= 0);
    let c = (range + l1 - 1) / l1;
    lemma_ceil_div(range, l1);
    if c < 1 {
        assert(c * l1 <= 0) by (nonlinear_arith)
            requires
                c <= 0,
                l1 >= 1,
        ;
        assert(d == 1 && d * l1 == l1 >= 0 >= range);
    } else {
        assert(d == c && d * l1 >= range);
    }
    assert forall|i: int| 0 <= i < r.len() implies 0 <= #[trigger] r[i] - vl <= l1 * d by {
        lemma_seq_min_le(r, i);
        lemma_seq_max_ge(r, i);
        if mt is IP {
            assert(iabs(r[i]) <= -vl);
        }
        assert(r[i] - vl <= range);
        assert(l1 * d == d * l1) by (nonlinear_arith);
    }
}

/// Whether a requested total bit width is accepted under a configuration.
pub open spec fn full_bits_ok(bits: int, cfg: RabitqConfig) -> bool {
    &&& 1 <= bits <= 8
    &&& (cfg.total_bits == 0 || cfg.total_bits as int == bits)
}

/// Whether a vector length is accepted under a configuration.
pub open spec fn full_len_ok(n: int, cfg: RabitqConfig) -> bool {
    &&& 1 <= n <= MAX_PADDED_DIM as int
    &&& (cfg.dim == 0 || cfg.dim as int == n)
}

/// The squared-error budget returned by full quantization.
pub open spec fn spec_full_err(n: int, delta: int) -> int {
    n * ((delta / 2) * (delta / 2))
}

/// A byte code sequence as mathematical integers.
pub open spec fn codes_ints(s: Seq<u8>) -> Seq<int> {
    Seq::new(s.len(), |i: int| s[i] as int)
}

/// Grid origin, range and step for a residual vector, as executable code.
/// Returns `(vl, delta)` matching [`spec_vl`] and [`spec_delta`].
pub(crate) fn grid_params(data: &Vec<i64>, metric_type: MetricType, bits: usize) -> (r: (i64, i64))
    requires
        data@.len() >= 1,
        vec_bounded(data@, 2 * MAX_COORD as int),
        1 <= bits <= 9,
    ensures
        r.0 as int == spec_vl(to_ints(data@), metric_type),
        r.1 as int == spec_delta(to_ints(data@), metric_type, bits as int),
{
    let ghost v = to_ints(data@);
    let (mn, mx) = min_max_wide(data);
    proof {
        assert forall|i: int| 0 <= i < v.len() implies iabs(#[trigger] v[i]) <= 2 * (
        MAX_COORD as int) by {
            assert(iabs(data@[i] as int) <= 2 * MAX_COORD as int);
        }
        lemma_seq_minmax_bounded(v, 2 * MAX_COORD as int);
    }
    let (vl, range): (i64, i64) = match metric_type {
        MetricType::L2 => (mn, mx - mn),
        MetricType::IP => {
            let a1 = if mn < 0 {
                -mn
            } else {
                mn
            };
            let a2 = if mx < 0 {
                -mx
            } else {
                mx
            };
            let am = if a1 >= a2 {
                a1
            } else {
                a2
            };
            (-am, 2 * am)
        },
    };
    proof {
        lemma_seq_min_le(v, 0);
        lemma_seq_max_ge(v, 0);
        lemma_seq_minmax_bounded(v, 2 * MAX_COORD as int);
        assert(vl as int == spec_vl(v, metric_type));
        assert(range as int == spec_range(v, metric_type));
    }
    let l: u16 = 1u16 << (bits as u16);
    proof {
        lemma_p2_shift(bits as u16);
    }
    let l1 = (l - 1) as u64;
    let ru = range as u64;
    let cu = (ru + l1 - 1) / l1;
    proof {
        lemma_ceil_div(range as int, l1 as int);
    }
    let delta: i64 = if cu < 1 {
        1
    } else {
        cu as i64
    };
    (vl, delta)
}

/// Minimum and maximum for vectors bounded by twice the coordinate limit
/// (residuals after centroid subtraction).
pub(crate) fn min_max_wide(data: &Vec<i64>) -> (r: (i64, i64))
    requires
        data@.len() >= 1,
        vec_bounded(data@, 2 * MAX_COORD as int),
    ensures
        r.0 as int == seq_min(to_ints(data@)),
        r.1 as int == seq_max(to_ints(data@)),
{
    let ghost v = to_ints(data@);
    let n = data.len();
    let mut mn = data[0];
    let mut mx = data[0];
    let mut i: usize = 1;
    while i < n
        invariant
            1 <= i <= n,
            n == data@.len(),
            v == to_ints(data@),
            mn as int == seq_min(v.subrange(0, i as int)),
            mx as int == seq_max(v.subrange(0, i as int)),
        decreases n - i,
    {
        let x = data[i];
        proof {
            assert(v.subrange(0, i as int + 1).drop_last() =~= v.subrange(0, i as int));
            assert(v.subrange(0, i as int + 1).last() == x as int);
        }
        if x < mn {
            mn = x;
        }
        if x > mx {
            mx = x;
        }
        i += 1;
    }
    proof {
        assert(v.subrange(0, n as int) =~= v);
    }
    (mn, mx)
}

/// Quantize a rotated vector to `total_bits`-bit codes, one byte per
/// coordinate, together with the affine dequantization scalars and an error
/// budget: `value[i]` is approximately `code[i] * f_rescale + f_add`, and
/// the squared distance between the vector and its reconstruction is at
/// most `f_error` (proved in [`lemma_full_reconstruct_error`]).
pub fn quantize_full_single(
    data: &Vec<i64>,
    total_bits: usize,
    metric_type: MetricType,
    config: &RabitqConfig,
) -> (r: Result<(Vec<u8>, i64, i64, i128), RabitqError>)
    requires
        vec_bounded(data@, MAX_COORD as int),
    ensures
        r is Ok <==> full_bits_ok(total_bits as int, *config) && full_len_ok(
            data@.len() as int,
            *config,
        ),
        r is Err ==> r->Err_0 == (if !full_bits_ok(total_bits as int, *config) {
            RabitqError::UnsupportedParameter
        } else {
            RabitqError::LengthMismatch
        }),
        r is Ok ==> ({
            let v = to_ints(data@);
            let bits = total_bits as int;
            &&& r->Ok_0.0@.len() == data@.len()
            &&& forall|i: int|
                0 <= i < data@.len() ==> (#[trigger] r->Ok_0.0@[i]) as int == spec_code(
                    v,
                    metric_type,
                    bits,
                    i,
                )
            &&& r->Ok_0.1 as int == spec_vl(v, metric_type)
            &&& r->Ok_0.2 as int == spec_delta(v, metric_type, bits)
            &&& r->Ok_0.3 as int == spec_full_err(data@.len() as int, spec_delta(v, metric_type, bits))
        }),
{
    let n = data.len();
    if total_bits < 1 || total_bits > 8 || (config.total_bits != 0 && config.total_bits
        != total_bits) {
        return Err(RabitqError::UnsupportedParameter);
    }
    if n < 1 || n > MAX_PADDED_DIM || (config.dim != 0 && config.dim != n) {
        return Err(RabitqError::LengthMismatch);
    }
    let ghost v = to_ints(data@);
    proof {
        assert forall|i: int| 0 <= i < data@.len() implies iabs(#[trigger] data@[i] as int) <= 2 * (
        MAX_COORD as int) by {
            assert(iabs(data@[i] as int) <= MAX_COORD as int);
        }
        assert(vec_bounded(data@, 2 * MAX_COORD as int));
        assert forall|i: int| 0 <= i < v.len() implies iabs(#[trigger] v[i]) <= 2 * (
        MAX_COORD as int) by {
            assert(iabs(data@[i] as int) <= MAX_COORD as int);
        }
    }
    let (vl, delta) = grid_params(data, metric_type, total_bits);
    proof {
        lemma_grid_props(v, metric_type, total_bits as int);
        lemma_p2_shift(total_bits as u16);
    }
    let du = delta as u64;
    let mut codes: Vec<u8> = Vec::with_capacity(n);
    let mut i: usize = 0;
    while i < n
        invariant
            i <= n,
            n == data@.len(),
            v == to_ints(data@),
            vec_bounded(data@, MAX_COORD as int),
            vl as int == spec_vl(v, metric_type),
            delta as int == spec_delta(v, metric_type, total_bits as int),
            1 <= delta <= 4 * MAX_COORD + 1,
            iabs(vl as int) <= 2 * MAX_COORD as int,
            du == delta as u64,
            1 <= total_bits <= 8,
            forall|i2: int|
                0 <= i2 < v.len() ==> 0 <= #[trigger] v[i2] - spec_vl(v, metric_type) <= (p2(
                    total_bits as int,
                ) - 1) * spec_delta(v, metric_type, total_bits as int),
            codes@.len() == i,
            forall|i2: int|
                0 <= i2 < i ==> (#[trigger] codes@[i2]) as int == spec_code(
                    v,
                    metric_type,
                    total_bits as int,
                    i2,
                ),
        decreases n - i,
    {
        proof {
            assert(iabs(data@[i as int] as int) <= MAX_COORD as int);
            assert(0 <= v[i as int] - vl as int);
        }
        let t = data[i] - vl;
        proof {
            lemma_code_props(
                t as int,
                delta as int,
                p2(total_bits as int) - 1,
            );
        }
        let c = ((t as u64) + du / 2) / du;
        codes.push(c as u8);
        i += 1;
    }
    let e2 = delta / 2;
    proof {
        crate::intmath::lemma_mul_abs_bound(e2 as int, e2 as int, 0x400000, 0x400000);
        crate::intmath::lemma_mul_abs_bound(
            n as int,
            (e2 as int) * (e2 as int),
            MAX_PADDED_DIM as int,
            0x100000000000,
        );
    }
    let f_error: i128 = (n as i128) * ((e2 as i128) * (e2 as i128));
    Ok((codes, vl, delta, f_error))
}

/// Invert the affine quantization exactly: `value[i] = code[i] * delta + vl`.
pub fn reconstruct_vec(quantized_vec: &Vec<u8>, delta: i64, vl: i64) -> (r: Vec<i64>)
    requires
        0 <= delta <= 0x800000,
        iabs(vl as int) <= 0x800000,
    ensures
        r@.len() == quantized_vec@.len(),
        to_ints(r@) == spec_recon(codes_ints(quantized_vec@), delta as int, vl as int),
{
    let n = quantized_vec.len();
    let mut out: Vec<i64> = Vec::with_capacity(n);
    let mut i: usize = 0;
    while i < n
        invariant
            i <= n,
            n == quantized_vec@.len(),
            0 <= delta <= 0x800000,
            iabs(vl as int) <= 0x800000,
            out@.len() == i,
            forall|t: int|
                0 <= t < i ==> (#[trigger] out@[t]) as int == quantized_vec@[t] * delta + vl,
        decreases n - i,
    {
        let c = quantized_vec[i] as i64;
        proof {
            crate::intmath::lemma_mul_abs_bound(c as int, delta as int, 255, 0x800000);
        }
        out.push(c * delta + vl);
        i += 1;
    }
    proof {
        assert(to_ints(out@) =~= spec_recon(codes_ints(quantized_vec@), delta as int, vl as int));
    }
    out
}

/// Whether an extended bit width is in the supported set.
pub open spec fn ex_bits_ok(ex: int) -> bool {
    ex == 1 || ex == 2 || ex == 4 || ex == 8
}

/// Whether a padded length is acceptable for split quantization.
pub open spec fn split_len_ok(n: int) -> bool {
    &&& 1 <= n <= MAX_PADDED_DIM as int
    &&& n % (crate::ALIGNED_DIM as int) == 0
}

/// Full `(1 + ex)`-bit code of coordinate `i` of residual sequence `r`.
pub open spec fn split_code(r: Seq<int>, mt: MetricType, ex: int, i: int) -> int {
    spec_code(r, mt, ex + 1, i)
}

/// Full reconstruction of a residual from its split codes.
pub open spec fn split_recon(r: Seq<int>, mt: MetricType, ex: int) -> Seq<int> {
    spec_recon(
        Seq::new(r.len(), |i: int| split_code(r, mt, ex, i)),
        spec_delta(r, mt, ex + 1),
        spec_vl(r, mt),
    )
}

/// Squared norm of the full reconstruction of a residual's split codes.
pub open spec fn split_vpsq(r: Seq<int>, mt: MetricType, ex: int) -> int {
    norm_sq(split_recon(r, mt, ex))
}

/// A binary code buffer produced for residual `r`: one top bit per
/// coordinate, then `delta` and biased `vl` as the trailer.
pub open spec fn split_bin_wf(buf: Seq<u8>, r: Seq<int>, mt: MetricType, ex: int) -> bool {
    let n = r.len() as int;
    &&& buf.len() == n / 8 + 16
    &&& forall|i: int|
        0 <= i < n ==> (crate::codes::bit_of(buf, i) <==> split_code(r, mt, ex, i) >= p2(ex))
    &&& crate::bytes::le_val8(buf.subrange(n / 8, n / 8 + 8)) == spec_delta(r, mt, ex + 1)
    &&& crate::bytes::le_val8(buf.subrange(n / 8 + 8, n / 8 + 16)) == spec_vl(r, mt)
        + crate::codes::VL_BIAS
}

/// An extended code buffer produced for residual `r`: the low `ex` bits of
/// each full code, then `delta`, biased `vl` and the split squared norm.
pub open spec fn split_ex_wf(buf: Seq<u8>, r: Seq<int>, mt: MetricType, ex: int) -> bool {
    let n = r.len() as int;
    let tb = n * ex / 8;
    &&& buf.len() == tb + 32
    &&& forall|i: int|
        0 <= i < n ==> crate::codes::bits_val(buf, i * ex, ex) == #[trigger] split_code(
            r,
            mt,
            ex,
            i,
        ) % p2(ex)
    &&& crate::bytes::le_val8(buf.subrange(tb, tb + 8)) == spec_delta(r, mt, ex + 1)
    &&& crate::bytes::le_val8(buf.subrange(tb + 8, tb + 16)) == spec_vl(r, mt)
        + crate::codes::VL_BIAS
    &&& crate::bytes::le_val8(buf.subrange(tb + 16, tb + 24)) == split_vpsq(r, mt, ex)
        % 0x10000000000000000
    &&& crate::bytes::le_val8(buf.subrange(tb + 24, tb + 32)) == split_vpsq(r, mt, ex)
        / 0x10000000000000000
}

/// Full `(bits)`-bit codes of a residual vector over its grid.
pub(crate) fn compute_codes(resid: &Vec<i64>, vl: i64, delta: i64, bits: usize) -> (codes: Vec<u16>)
    requires
        1 <= resid@.len() <= MAX_PADDED_DIM,
        2 <= bits <= 9,
        vl as int == spec_vl(to_ints(resid@), MetricType::L2) || vl as int == spec_vl(
            to_ints(resid@),
            MetricType::IP,
        ),
        1 <= delta <= 4 * MAX_COORD + 1,
        iabs(vl as int) <= 2 * MAX_COORD as int,
        forall|t: int|
            0 <= t < resid@.len() ==> 0 <= #[trigger] (resid@[t] as int) - vl <= (p2(bits as int)
                - 1) * delta,
    ensures
        codes@.len() == resid@.len(),
        forall|t: int|
            0 <= t < resid@.len() ==> (#[trigger] codes@[t]) as int == code_of(
                resid@[t] - vl,
                delta as int,
            ),
        forall|t: int| 0 <= t < resid@.len() ==> ((#[trigger] codes@[t]) as int) < p2(bits as int),
{
    let n = resid.len();
    let du = delta as u64;
    let mut codes: Vec<u16> = Vec::with_capacity(n);
    let mut i: usize = 0;
    while i < n
        invariant
            i <= n,
            n == resid@.len(),
            n <= MAX_PADDED_DIM,
            2 <= bits <= 9,
            1 <= delta <= 4 * MAX_COORD + 1,
            iabs(vl as int) <= 2 * MAX_COORD as int,
            du == delta as u64,
            forall|t: int|
                0 <= t < n ==> 0 <= #[trigger] (resid@[t] as int) - vl <= (p2(bits as int) - 1)
                    * delta,
            codes@.len() == i,
            forall|t: int|
                0 <= t < i ==> (#[trigger] codes@[t]) as int == code_of(resid@[t] - vl, delta as int),
            forall|t: int| 0 <= t < i ==> ((#[trigger] codes@[t]) as int) < p2(bits as int),
        decreases n - i,
    {
        proof {
            assert(0 <= (resid@[i as int] as int) - vl);
            assert(2 <= p2(bits as int) <= 512);
            assert((p2(bits as int) - 1) * delta <= 0x80000000) by (nonlinear_arith)
                requires
                    2 <= p2(bits as int) <= 512,
                    1 <= delta <= 0x400001,
            ;
            lemma_code_props(resid@[i as int] - vl, delta as int, p2(bits as int) - 1);
        }
        let t = resid[i] - vl;
        let c = (((t as u64) + du / 2) / du) as u16;
        codes.push(c);
        i += 1;
    }
    codes
}

/// The top bit of each full code: set when the code reaches `2^ex_bits`.
pub(crate) fn top_bits_of(codes: &Vec<u16>, ex_bits: usize) -> (out: Vec<bool>)
    requires
        1 <= ex_bits <= 8,
    ensures
        out@.len() == codes@.len(),
        forall|t: int|
            0 <= t < codes@.len() ==> #[trigger] out@[t] == ((codes@[t] as int) >= p2(ex_bits as int)),
{
    let n = codes.len();
    let topv: u16 = 1u16 << (ex_bits as u16);
    proof {
        lemma_p2_shift(ex_bits as u16);
    }
    let mut out: Vec<bool> = Vec::with_capacity(n);
    let mut i: usize = 0;
    while i < n
        invariant
            i <= n,
            n == codes@.len(),
            topv as int == p2(ex_bits as int),
            out@.len() == i,
            forall|t: int|
                0 <= t < i ==> #[trigger] out@[t] == ((codes@[t] as int) >= p2(ex_bits as int)),
        decreases n - i,
    {
        out.push(codes[i] >= topv);
        i += 1;
    }
    out
}

/// The low `ex_bits` bits of each full code, value order, low bit first.
fn low_bits_of(codes: &Vec<u16>, ex_bits: usize) -> (out: Vec<bool>)
    requires
        1 <= ex_bits <= 8,
        codes@.len() <= MAX_PADDED_DIM,
        forall|t: int| 0 <= t < codes@.len() ==> ((#[trigger] codes@[t]) as int) < p2(ex_bits as int + 1),
    ensures
        out@.len() == codes@.len() * ex_bits,
        forall|p: int|
            0 <= p < out@.len() ==> #[trigger] out@[p] == crate::codes::val_bit(
                codes@[p / (ex_bits as int)] as int % p2(ex_bits as int),
                p % (ex_bits as int),
            ),
{
    let n = codes.len();
    proof {
        assert(n * ex_bits <= 524288) by (nonlinear_arith)
            requires
                n <= 65536,
                ex_bits <= 8,
        ;
    }
    let topv: u16 = 1u16 << (ex_bits as u16);
    proof {
        lemma_p2_shift(ex_bits as u16);
    }
    let mut out: Vec<bool> = Vec::with_capacity(n * ex_bits);
    let mut i: usize = 0;
    while i < n
        invariant
            i <= n,
            n == codes@.len(),
            n <= MAX_PADDED_DIM,
            1 <= ex_bits <= 8,
            topv as int == p2(ex_bits as int),
            forall|t: int|
                0 <= t < codes@.len() ==> ((#[trigger] codes@[t]) as int) < p2(ex_bits as int + 1),
            out@.len() == i * ex_bits,
            forall|p: int|
                0 <= p < i * ex_bits ==> #[trigger] out@[p] == crate::codes::val_bit(
                    codes@[p / (ex_bits as int)] as int % p2(ex_bits as int),
                    p % (ex_bits as int),
                ),
        decreases n - i,
    {
        let c = codes[i];
        proof {
            crate::codes::lemma_code_split(c, ex_bits as u16);
        }
        let e = c & (topv - 1);
        proof {
            lemma_p2_shift(ex_bits as u16);
            assert((topv - 1) as u16 == ((1u16 << (ex_bits as u16)) - 1) as u16);
            assert(e as int == c as int % p2(ex_bits as int));
        }
        let ghost old_len = out@.len();
        let mut k: usize = 0;
        while k < ex_bits
            invariant
                k <= ex_bits,
                1 <= ex_bits <= 8,
                i < n,
                n == codes@.len(),
                e as int == codes@[i as int] as int % p2(ex_bits as int),
                old_len == i * ex_bits,
                out@.len() == old_len + k,
                forall|p: int|
                    0 <= p < i * ex_bits ==> #[trigger] out@[p] == crate::codes::val_bit(
                        codes@[p / (ex_bits as int)] as int % p2(ex_bits as int),
                        p % (ex_bits as int),
                    ),
                forall|k2: int|
                    0 <= k2 < k ==> #[trigger] out@[old_len + k2] == crate::codes::val_bit(
                        codes@[i as int] as int % p2(ex_bits as int),
                        k2,
                    ),
            decreases ex_bits - k,
        {
            let bitk = (e >> (k as u16)) & 1 == 1;
            proof {
                crate::codes::lemma_val_bit_shift(e, k as u16);
            }
            out.push(bitk);
            k += 1;
        }
        proof {
            assert((i + 1) * ex_bits == i * ex_bits + ex_bits) by (nonlinear_arith);
            assert forall|p: int| 0 <= p < (i + 1) * ex_bits implies #[trigger] out@[p]
                == crate::codes::val_bit(
                codes@[p / (ex_bits as int)] as int % p2(ex_bits as int),
                p % (ex_bits as int),
            ) by {
                if p >= i * ex_bits {
                    let k2 = p - i * ex_bits;
                    assert(0 <= k2 < ex_bits);
                    vstd::arithmetic::div_mod::lemma_fundamental_div_mod_converse(
                        p,
                        ex_bits as int,
                        i as int,
                        k2,
                    );
                    assert(out@[old_len + k2] == crate::codes::val_bit(
                        codes@[i as int] as int % p2(ex_bits as int),
                        k2,
                    ));
                }
            }
        }
        i += 1;
    }
    out
}

/// A `u16` code sequence as mathematical integers.
pub open spec fn codes16_ints(s: Seq<u16>) -> Seq<int> {
    Seq::new(s.len(), |i: int| s[i] as int)
}

/// Squared norm of the affine reconstruction of a code vector.
fn recon_norm_sq(codes: &Vec<u16>, delta: i64, vl: i64) -> (r: i128)
    requires
        codes@.len() <= MAX_PADDED_DIM,
        1 <= delta <= 4 * MAX_COORD + 1,
        iabs(vl as int) <= 2 * MAX_COORD as int,
        forall|t: int| 0 <= t < codes@.len() ==> (#[trigger] codes@[t]) < 512,
    ensures
        r as int == norm_sq(spec_recon(codes16_ints(codes@), delta as int, vl as int)),
        0 <= r <= codes@.len() * 0x10000000000000000,
{
    let ghost recon = spec_recon(codes16_ints(codes@), delta as int, vl as int);
    let ghost rsq = crate::intmath::prod_seq(recon, recon);
    let n = codes.len();
    let mut acc: i128 = 0;
    let mut i: usize = 0;
    while i < n
        invariant
            i <= n,
            n == codes@.len(),
            n <= MAX_PADDED_DIM,
            1 <= delta <= 4 * MAX_COORD + 1,
            iabs(vl as int) <= 2 * MAX_COORD as int,
            forall|t: int| 0 <= t < codes@.len() ==> (#[trigger] codes@[t]) < 512,
            recon == spec_recon(codes16_ints(codes@), delta as int, vl as int),
            rsq == crate::intmath::prod_seq(recon, recon),
            acc as int == isum(rsq.subrange(0, i as int)),
            0 <= acc <= i * 0x10000000000000000,
        decreases n - i,
    {
        let c = codes[i];
        proof {
            crate::intmath::lemma_mul_abs_bound(c as int, delta as int, 512, 0x400001);
        }
        let rec: i64 = (c as i64) * delta + vl;
        proof {
            assert(rec as int == recon[i as int]);
            assert(iabs(rec as int) <= 0x100000000);
            crate::intmath::lemma_sq_le(rec as int, 0x100000000);
            assert(rsq[i as int] == (rec as int) * (rec as int));
            assert(rsq.subrange(0, i as int + 1) =~= rsq.subrange(0, i as int).push(rsq[i as int]));
            crate::intmath::lemma_isum_push(rsq.subrange(0, i as int), rsq[i as int]);
        }
        acc = acc + (rec as i128) * (rec as i128);
        i += 1;
    }
    proof {
        assert(rsq.subrange(0, n as int) =~= rsq);
    }
    acc
}

/// Quantize `vector - centroid` into a 1-bit-per-coordinate binary code and
/// an `ex_bits`-per-coordinate residual refinement code, each carrying its
/// calibration trailer. The grid adapts to the range of the
/// centroid-relative coordinates; the two buffers follow the layout fixed
/// in [`crate::codes`].
#[verifier::rlimit(100)]
pub fn quantize_split_single(
    data: &Vec<i64>,
    centroid: &Vec<i64>,
    ex_bits: usize,
    metric_type: MetricType,
    config: &RabitqConfig,
) -> (r: Result<(Vec<u8>, Vec<u8>), RabitqError>)
    requires
        vec_bounded(data@, MAX_COORD as int),
        vec_bounded(centroid@, MAX_COORD as int),
    ensures
        r is Ok <==> ex_bits_ok(ex_bits as int) && data@.len() == centroid@.len() && split_len_ok(
            data@.len() as int,
        ),
        r is Err ==> r->Err_0 == (if !ex_bits_ok(ex_bits as int) {
            RabitqError::UnsupportedParameter
        } else {
            RabitqError::LengthMismatch
        }),
        r is Ok ==> ({
            let rv = seq_diff(to_ints(data@), to_ints(centroid@));
            &&& split_bin_wf(r->Ok_0.0@, rv, metric_type, ex_bits as int)
            &&& split_ex_wf(r->Ok_0.1@, rv, metric_type, ex_bits as int)
        }),
{
    if !(ex_bits == 1 || ex_bits == 2 || ex_bits == 4 || ex_bits == 8) {
        return Err(RabitqError::UnsupportedParameter);
    }
    let n = data.len();
    if centroid.len() != n || n < 1 || n > MAX_PADDED_DIM || n % crate::ALIGNED_DIM != 0 {
        return Err(RabitqError::LengthMismatch);
    }
    let ghost rv = seq_diff(to_ints(data@), to_ints(centroid@));

    // centroid-relative residual
    let mut resid: Vec<i64> = Vec::with_capacity(n);
    let mut i: usize = 0;
    while i < n
        invariant
            i <= n,
            n == data@.len(),
            n == centroid@.len(),
            vec_bounded(data@, MAX_COORD as int),
            vec_bounded(centroid@, MAX_COORD as int),
            rv == seq_diff(to_ints(data@), to_ints(centroid@)),
            resid@.len() == i,
            forall|t: int| 0 <= t < i ==> #[trigger] (resid@[t] as int) == rv[t],
        decreases n - i,
    {
        proof {
            assert(iabs(data@[i as int] as int) <= MAX_COORD as int);
            assert(iabs(centroid@[i as int] as int) <= MAX_COORD as int);
        }
        resid.push(data[i] - centroid[i]);
        i += 1;
    }
    proof {
        assert(to_ints(resid@) =~= rv);
        assert forall|t: int| 0 <= t < resid@.len() implies iabs(#[trigger] resid@[t] as int) <= 2
            * MAX_COORD as int by {
            assert(resid@[t] as int == rv[t]);
        }
        assert(vec_bounded(resid@, 2 * MAX_COORD as int));
    }

    let bits = ex_bits + 1;
    let (vl, delta) = grid_params(&resid, metric_type, bits);
    proof {
        lemma_grid_props(rv, metric_type, bits as int);
        assert forall|t: int| 0 <= t < resid@.len() implies 0 <= #[trigger] (resid@[t] as int) - vl
            <= (p2(bits as int) - 1) * delta by {
            assert(resid@[t] as int == rv[t]);
            assert(0 <= rv[t] - spec_vl(rv, metric_type));
        }
    }
    let codes = compute_codes(&resid, vl, delta, bits);
    proof {
        assert forall|t: int| 0 <= t < n implies (#[trigger] codes@[t]) as int == split_code(
            rv,
            metric_type,
            ex_bits as int,
            t,
        ) by {
            assert(resid@[t] as int == rv[t]);
        }
        assert forall|t: int| 0 <= t < n implies (#[trigger] codes@[t]) < 512 by {
            assert((codes@[t] as int) < p2(bits as int));
        }
    }
    let binbits = top_bits_of(&codes, ex_bits);
    let exbits = low_bits_of(&codes, ex_bits);
    let vpsq = recon_norm_sq(&codes, delta, vl);
    proof {
        assert(codes16_ints(codes@) =~= Seq::new(
            rv.len(),
            |t: int| split_code(rv, metric_type, ex_bits as int, t),
        ));
        assert(vpsq as int == split_vpsq(rv, metric_type, ex_bits as int));
        assert(n as int % 8 == 0) by (nonlinear_arith)
            requires
                n as int % 16 == 0,
        ;
        assert((n * ex_bits) as int % 8 == 0) by (nonlinear_arith)
            requires
                n as int % 8 == 0,
                1 <= ex_bits <= 8,
                (n * ex_bits) as int == n as int * ex_bits as int,
        ;
    }

    // binary buffer: packed top bits, then delta and biased vl
    let mut binbuf = crate::codes::pack_bits(&binbits);
    let ghost packed_bin = binbuf@;
    crate::bytes::push_u64_le(&mut binbuf, delta as u64);
    crate::bytes::push_u64_le(&mut binbuf, (vl + crate::codes::VL_BIAS) as u64);
    proof {
        lemma_trailer2(packed_bin, binbuf@, delta as u64, (vl + crate::codes::VL_BIAS) as u64);
        crate::bytes::lemma_le_round_trip(delta as u64);
        crate::bytes::lemma_le_round_trip((vl + crate::codes::VL_BIAS) as u64);
        assert forall|t: int| 0 <= t < n implies (crate::codes::bit_of(binbuf@, t)
            == crate::codes::bit_of(packed_bin, t)) by {
            assert(binbuf@[t / 8] == packed_bin[t / 8]);
        }
    }

    // extended buffer: packed low bits, then delta, biased vl, squared norm
    let mut exbuf = crate::codes::pack_bits(&exbits);
    let ghost packed_ex = exbuf@;
    let vu = vpsq as u128;
    let lo = (vu % 0x10000000000000000) as u64;
    let hi = (vu / 0x10000000000000000) as u64;
    crate::bytes::push_u64_le(&mut exbuf, delta as u64);
    crate::bytes::push_u64_le(&mut exbuf, (vl + crate::codes::VL_BIAS) as u64);
    crate::bytes::push_u64_le(&mut exbuf, lo);
    crate::bytes::push_u64_le(&mut exbuf, hi);
    proof {
        lemma_trailer4(
            packed_ex,
            exbuf@,
            delta as u64,
            (vl + crate::codes::VL_BIAS) as u64,
            lo,
            hi,
        );
        crate::bytes::lemma_le_round_trip(delta as u64);
        crate::bytes::lemma_le_round_trip((vl + crate::codes::VL_BIAS) as u64);
        crate::bytes::lemma_le_round_trip(lo);
        crate::bytes::lemma_le_round_trip(hi);
        assert forall|p: int| 0 <= p < n * ex_bits implies (crate::codes::bit_of(exbuf@, p)
            == crate::codes::bit_of(packed_ex, p)) by {
            assert(exbuf@[p / 8] == packed_ex[p / 8]);
        }
        assert forall|p: int| 0 <= p < n as int * ex_bits as int implies #[trigger] exbits@[p]
            == crate::codes::val_bit(
            split_code(rv, metric_type, ex_bits as int, p / (ex_bits as int)) % p2(ex_bits as int),
            p % (ex_bits as int),
        ) by {
            assert(0 <= p / (ex_bits as int) < n as int) by (nonlinear_arith)
                requires
                    0 <= p < n as int * ex_bits as int,
                    1 <= ex_bits as int,
            ;
            assert(codes@[p / (ex_bits as int)] as int == split_code(
                rv,
                metric_type,
                ex_bits as int,
                p / (ex_bits as int),
            ));
        }
        lemma_split_ex_fields(exbuf@, exbits@, rv, metric_type, ex_bits as int, n as int);
        assert(split_bin_wf(binbuf@, rv, metric_type, ex_bits as int)) by {
            assert(binbuf@.len() == n as int / 8 + 16);
            assert forall|t: int| 0 <= t < n as int implies (crate::codes::bit_of(binbuf@, t)
                <==> split_code(rv, metric_type, ex_bits as int, t) >= p2(ex_bits as int)) by {
                assert(crate::codes::bit_of(binbuf@, t) == crate::codes::bit_of(packed_bin, t));
                assert(crate::codes::bit_of(packed_bin, t) == binbits@[t]);
                assert(binbits@[t] == ((codes@[t] as int) >= p2(ex_bits as int)));
                assert(codes@[t] as int == split_code(rv, metric_type, ex_bits as int, t));
            }
        };
        assert(split_ex_wf(exbuf@, rv, metric_type, ex_bits as int)) by {
            assert(exbits@.len() == n as int * ex_bits as int);
            assert(exbuf@.len() == n as int * ex_bits as int / 8 + 32);
            assert(vu as int == vpsq as int);
            assert(lo as int == split_vpsq(rv, metric_type, ex_bits as int) % 0x10000000000000000);
            assert(hi as int == split_vpsq(rv, metric_type, ex_bits as int) / 0x10000000000000000);
        };
    }
    Ok((binbuf, exbuf))
}

/// Each coordinate's stored field in a packed extended buffer recomposes to
/// the low bits of its full code.
proof fn lemma_split_ex_fields(
    buf: Seq<u8>,
    bits: Seq<bool>,
    rv: Seq<int>,
    mt: MetricType,
    ex: int,
    n: int,
)
    requires
        rv.len() == n,
        n >= 1,
        1 <= ex <= 8,
        bits.len() == n * ex,
        forall|p: int|
            0 <= p < n * ex ==> #[trigger] bits[p] == crate::codes::val_bit(
                split_code(rv, mt, ex, p / ex) % p2(ex),
                p % ex,
            ),
        forall|p: int| 0 <= p < n * ex ==> crate::codes::bit_of(buf, p) == #[trigger] bits[p],
    ensures
        forall|t: int|
            0 <= t < n ==> crate::codes::bits_val(buf, t * ex, ex) == #[trigger] split_code(
                rv,
                mt,
                ex,
                t,
            ) % p2(ex),
{
    assert forall|t: int| 0 <= t < n implies crate::codes::bits_val(buf, t * ex, ex)
        == #[trigger] split_code(rv, mt, ex, t) % p2(ex) by {
        let e = split_code(rv, mt, ex, t) % p2(ex);
        assert(0 <= e < p2(ex)) by {
            vstd::arithmetic::div_mod::lemma_mod_bound(split_code(rv, mt, ex, t), p2(ex));
        };
        assert forall|k: int| 0 <= k < ex implies #[trigger] crate::codes::bit_of(buf, t * ex + k)
            == (((e as u16) >> (k as u16)) & 1 == 1) by {
            assert(0 <= t * ex + k < n * ex) by (nonlinear_arith)
                requires
                    0 <= t < n,
                    0 <= k < ex,
                    ex >= 1,
            ;
            vstd::arithmetic::div_mod::lemma_fundamental_div_mod_converse(t * ex + k, ex, t, k);
            assert(bits[t * ex + k] == crate::codes::val_bit(e, k));
            crate::codes::lemma_val_bit_shift(e as u16, k as u16);
        }
        crate::codes::lemma_bits_recompose(buf, t * ex, ex, e as u16);
    }
}

/// Appending two trailer words leaves earlier bytes alone and places the
/// words at fixed offsets.
#[verifier::rlimit(50)]
proof fn lemma_trailer2(before: Seq<u8>, after: Seq<u8>, w0: u64, w1: u64)
    requires
        after == before + crate::bytes::le_bytes8(w0) + crate::bytes::le_bytes8(w1),
    ensures
        after.len() == before.len() + 16,
        forall|t: int| 0 <= t < before.len() ==> after[t] == before[t],
        after.subrange(before.len() as int, before.len() as int + 8) == crate::bytes::le_bytes8(w0),
        after.subrange(before.len() as int + 8, before.len() as int + 16)
            == crate::bytes::le_bytes8(w1),
{
    assert(after.subrange(before.len() as int, before.len() as int + 8) =~= crate::bytes::le_bytes8(
        w0,
    ));
    assert(after.subrange(before.len() as int + 8, before.len() as int + 16)
        =~= crate::bytes::le_bytes8(w1));
}

/// Appending four trailer words leaves earlier bytes alone and places the
/// words at fixed offsets.
#[verifier::rlimit(50)]
proof fn lemma_trailer4(before: Seq<u8>, after: Seq<u8>, w0: u64, w1: u64, w2: u64, w3: u64)
    requires
        after == before + crate::bytes::le_bytes8(w0) + crate::bytes::le_bytes8(w1)
            + crate::bytes::le_bytes8(w2) + crate::bytes::le_bytes8(w3),
    ensures
        after.len() == before.len() + 32,
        forall|t: int| 0 <= t < before.len() ==> after[t] == before[t],
        after.subrange(before.len() as int, before.len() as int + 8) == crate::bytes::le_bytes8(w0),
        after.subrange(before.len() as int + 8, before.len() as int + 16)
            == crate::bytes::le_bytes8(w1),
        after.subrange(before.len() as int + 16, before.len() as int + 24)
            == crate::bytes::le_bytes8(w2),
        after.subrange(before.len() as int + 24, before.len() as int + 32)
            == crate::bytes::le_bytes8(w3),
{
    assert(after.subrange(before.len() as int, before.len() as int + 8) =~= crate::bytes::le_bytes8(
        w0,
    ));
    assert(after.subrange(before.len() as int + 8, before.len() as int + 16)
        =~= crate::bytes::le_bytes8(w1));
    assert(after.subrange(before.len() as int + 16, before.len() as int + 24)
        =~= crate::bytes::le_bytes8(w2));
    assert(after.subrange(before.len() as int + 24, before.len() as int + 32)
        =~= crate::bytes::le_bytes8(w3));
}

/// Law: quantize-then-reconstruct lands within the returned error budget.
/// The squared distance between a vector and the reconstruction of its full
/// quantization is at most `f_error == n * (delta/2)^2`.
pub proof fn lemma_full_reconstruct_error(v: Seq<int>, mt: MetricType, bits: int)
    requires
        1 <= v.len() <= MAX_PADDED_DIM as int,
        1 <= bits <= 9,
        forall|i: int| 0 <= i < v.len() ==> iabs(#[trigger] v[i]) <= 2 * MAX_COORD as int,
    ensures
        dist_sq(
            v,
            spec_recon(
                Seq::new(v.len(), |i: int| spec_code(v, mt, bits, i)),
                spec_delta(v, mt, bits),
                spec_vl(v, mt),
            ),
        ) <= spec_full_err(v.len() as int, spec_delta(v, mt, bits)),
{
    let n = v.len() as int;
    let d = spec_delta(v, mt, bits);
    let vl = spec_vl(v, mt);
    let codes = Seq::new(v.len(), |i: int| spec_code(v, mt, bits, i));
    let recon = spec_recon(codes, d, vl);
    let dv = seq_diff(v, recon);
    let dsq = crate::intmath::prod_seq(dv, dv);
    let budget = Seq::new(v.len(), |i: int| (d / 2) * (d / 2));
    lemma_grid_props(v, mt, bits);
    assert forall|i: int| 0 <= i < n implies dsq[i] <= budget[i] by {
        lemma_code_props(v[i] - vl, d, p2(bits) - 1);
        crate::intmath::lemma_sq_le(v[i] - (codes[i] * d + vl), d / 2);
    }
    lemma_isum_pointwise_le(dsq, budget);
    lemma_isum_const(n, (d / 2) * (d / 2));
}

/// Law: the split codes reconstruct their residual within half a grid step
/// per coordinate, so the squared distance between a residual and its full
/// reconstruction — what the boosted estimate measures the query against —
/// is at most `n * (delta/2)^2`.
pub proof fn lemma_split_reconstruct_error(rv: Seq<int>, mt: MetricType, ex: int)
    requires
        1 <= rv.len() <= MAX_PADDED_DIM as int,
        ex_bits_ok(ex),
        forall|i: int| 0 <= i < rv.len() ==> iabs(#[trigger] rv[i]) <= 2 * MAX_COORD as int,
    ensures
        dist_sq(rv, split_recon(rv, mt, ex)) <= spec_full_err(
            rv.len() as int,
            spec_delta(rv, mt, ex + 1),
        ),
{
    lemma_full_reconstruct_error(rv, mt, ex + 1);
    assert(Seq::new(rv.len(), |i: int| split_code(rv, mt, ex, i)) =~= Seq::new(
        rv.len(),
        |i: int| spec_code(rv, mt, ex + 1, i),
    ));
}

/// Minimum and maximum inherit a magnitude bound from the elements.
pub proof fn lemma_seq_minmax_bounded(s: Seq<int>, b: int)
    requires
        s.len() >= 1,
        forall|i: int| 0 <= i < s.len() ==> iabs(#[trigger] s[i]) <= b,
    ensures
        iabs(seq_min(s)) <= b,
        iabs(seq_max(s)) <= b,
    decreases s.len(),
{
    if s.len() > 1 {
        lemma_seq_minmax_bounded(s.drop_last(), b);
    }
}

} // verus!
