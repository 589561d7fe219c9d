//! Spec-level summation over integer sequences, and the handful of facts
//! about sums, squares and products that the quantizer and estimator
//! contracts are stated with.

use vstd::prelude::*;

verus! {

/// Sum of a sequence of mathematical integers.
pub open spec fn isum(s: Seq<int>) -> int
    decreases s.len(),
{
    if s.len() == 0 {
        0
    } else {
        isum(s.drop_last()) + s.last()
    }
}

/// A machine-integer coordinate sequence as mathematical integers.
pub open spec fn to_ints(s: Seq<i64>) -> Seq<int> {
    Seq::new(s.len(), |i: int| s[i] as int)
}

/// All coordinates of a machine-integer sequence bounded in magnitude by `b`.
pub open spec fn vec_bounded(s: Seq<i64>, b: int) -> bool {
    forall|i: int| 0 <= i < s.len() ==> iabs(#[trigger] s[i] as int) <= b
}

/// Absolute value of a mathematical integer.
pub open spec fn iabs(x: int) -> int {
    if x >= 0 { x } else { -x }
}

/// Pointwise product sequence of two equally long sequences.
pub open spec fn prod_seq(a: Seq<int>, b: Seq<int>) -> Seq<int> {
    Seq::new(a.len(), |i: int| a[i] * b[i])
}

/// Inner product of two equally long coordinate sequences.
pub open spec fn inner(a: Seq<int>, b: Seq<int>) -> int {
    isum(prod_seq(a, b))
}

/// Squared Euclidean norm.
pub open spec fn norm_sq(a: Seq<int>) -> int {
    inner(a, a)
}

/// Pointwise difference of two equally long sequences.
pub open spec fn seq_diff(a: Seq<int>, b: Seq<int>) -> Seq<int> {
    Seq::new(a.len(), |i: int| a[i] - b[i])
}

/// Squared Euclidean distance between two equally long coordinate sequences.
pub open spec fn dist_sq(a: Seq<int>, b: Seq<int>) -> int {
    norm_sq(seq_diff(a, b))
}

/// Extending a sequence by one element adds that element to its sum.
pub proof fn lemma_isum_push(s: Seq<int>, x: int)
    ensures
        isum(s.push(x)) == isum(s) + x,
{
    assert(s.push(x).drop_last() =~= s);
    assert(s.push(x).last() == x);
}

/// Sums respect pointwise ordering.
pub proof fn lemma_isum_pointwise_le(a: Seq<int>, b: Seq<int>)
    requires
        a.len() == b.len(),
        forall|i: int| 0 <= i < a.len() ==> a[i] <= b[i],
    ensures
        isum(a) <= isum(b),
    decreases a.len(),
{
    if a.len() > 0 {
        lemma_isum_pointwise_le(a.drop_last(), b.drop_last());
    }
}

/// A sum of elements bounded in magnitude by `bound` is itself bounded by
/// `len * bound`.
pub proof fn lemma_isum_abs_bound(s: Seq<int>, bound: int)
    requires
        forall|i: int| 0 <= i < s.len() ==> iabs(#[trigger] s[i]) <= bound,
    ensures
        iabs(isum(s)) <= s.len() * bound,
    decreases s.len(),
{
    if s.len() == 0 {
    } else {
        lemma_isum_abs_bound(s.drop_last(), bound);
        assert(iabs(s.last()) <= bound);
        assert((s.len() - 1) * bound + bound == s.len() * bound) by (nonlinear_arith);
    }
}

/// A sum of nonnegative elements is nonnegative.
pub proof fn lemma_isum_nonneg(s: Seq<int>)
    requires
        forall|i: int| 0 <= i < s.len() ==> #[trigger] s[i] >= 0,
    ensures
        isum(s) >= 0,
    decreases s.len(),
{
    if s.len() > 0 {
        lemma_isum_nonneg(s.drop_last());
    }
}

/// Sums split over concatenation.
pub proof fn lemma_isum_append(a: Seq<int>, b: Seq<int>)
    ensures
        isum(a + b) == isum(a) + isum(b),
    decreases b.len(),
{
    if b.len() == 0 {
        assert(a + b =~= a);
    } else {
        lemma_isum_append(a, b.drop_last());
        assert((a + b).drop_last() =~= a + b.drop_last());
        assert((a + b).last() == b.last());
    }
}

/// A sum splits at any cut point.
pub proof fn lemma_isum_split(s: Seq<int>, m: int)
    requires
        0 <= m <= s.len(),
    ensures
        isum(s) == isum(s.subrange(0, m)) + isum(s.subrange(m, s.len() as int)),
{
    assert(s =~= s.subrange(0, m) + s.subrange(m, s.len() as int));
    lemma_isum_append(s.subrange(0, m), s.subrange(m, s.len() as int));
}

/// The sum of a constant sequence.
pub proof fn lemma_isum_const(n: int, c: int)
    requires
        n >= 0,
    ensures
        isum(Seq::new(n as nat, |i: int| c)) == n * c,
    decreases n,
{
    if n == 0 {
    } else {
        lemma_isum_const(n - 1, c);
        assert(Seq::new(n as nat, |i: int| c).drop_last() =~= Seq::new((n - 1) as nat, |i: int| c));
        assert((n - 1) * c + c == n * c) by (nonlinear_arith);
    }
}

/// Squares are monotone in the magnitude of their argument.
pub proof fn lemma_sq_le(x: int, b: int)
    by (nonlinear_arith)
    requires
        iabs(x) <= b,
    ensures
        x * x <= b * b,
        x * x >= 0,
{
}

/// Nonnegative part of an integer.
pub open spec fn imax0(x: int) -> int {
    if x > 0 {
        x
    } else {
        0
    }
}

/// Sum of element sums.
pub proof fn lemma_isum_add(a: Seq<int>, b: Seq<int>)
    requires
        a.len() == b.len(),
    ensures
        isum(Seq::new(a.len(), |i: int| a[i] + b[i])) == isum(a) + isum(b),
    decreases a.len(),
{
    if a.len() > 0 {
        lemma_isum_add(a.drop_last(), b.drop_last());
        assert(Seq::new(a.len(), |i: int| a[i] + b[i]).drop_last() =~= Seq::new(
            a.drop_last().len(),
            |i: int| a.drop_last()[i] + b.drop_last()[i],
        ));
    }
}

/// A common factor hoists out of a sum.
pub proof fn lemma_isum_scale(c: int, a: Seq<int>)
    ensures
        isum(Seq::new(a.len(), |i: int| c * a[i])) == c * isum(a),
    decreases a.len(),
{
    if a.len() == 0 {
        assert(c * 0 == 0) by (nonlinear_arith);
    } else {
        lemma_isum_scale(c, a.drop_last());
        assert(Seq::new(a.len(), |i: int| c * a[i]).drop_last() =~= Seq::new(
            a.drop_last().len(),
            |i: int| c * a.drop_last()[i],
        ));
        assert(c * isum(a.drop_last()) + c * a.last() == c * (isum(a.drop_last()) + a.last()))
            by (nonlinear_arith);
    }
}

/// A squared difference expands to squares and a cross term.
proof fn lemma_sq_diff_expand(x: int, y: int)
    by (nonlinear_arith)
    ensures
        (x - y) * (x - y) == x * x + y * y + (-2) * (x * y),
{
}

/// The squared distance expands into norms and the inner product.
pub proof fn lemma_dist_expand(q: Seq<int>, v: Seq<int>)
    requires
        q.len() == v.len(),
    ensures
        dist_sq(q, v) == norm_sq(q) + norm_sq(v) - 2 * inner(q, v),
{
    let n = q.len();
    let qq = prod_seq(q, q);
    let vv = prod_seq(v, v);
    let qv = prod_seq(q, v);
    let sums = Seq::new(n, |i: int| qq[i] + vv[i]);
    let cross = Seq::new(n, |i: int| (-2) * qv[i]);
    let all = Seq::new(n, |i: int| sums[i] + cross[i]);
    assert forall|i: int| 0 <= i < n implies prod_seq(seq_diff(q, v), seq_diff(q, v))[i]
        == all[i] by {
        lemma_sq_diff_expand(q[i], v[i]);
    }
    assert(prod_seq(seq_diff(q, v), seq_diff(q, v)) =~= all);
    lemma_isum_add(sums, cross);
    lemma_isum_add(qq, vv);
    lemma_isum_scale(-2, qv);
}

/// Bound on the magnitude of a product from bounds on the factors.
pub proof fn lemma_mul_abs_bound(x: int, y: int, bx: int, by: int)
    by (nonlinear_arith)
    requires
        iabs(x) <= bx,
        iabs(y) <= by,
    ensures
        iabs(x * y) <= bx * by,
{
}

} // verus!
