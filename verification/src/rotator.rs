//! A reproducible randomized orthogonal transform over fixed-point vectors.
//!
//! Irrational rotation angles cannot be represented exactly in integer
//! arithmetic, so the transform is built from the orthogonal operators that
//! are exact on the integer lattice: per-coordinate sign flips and coordinate
//! permutations (adjacent-pair exchanges followed by a cyclic shift), composed
//! over several rounds. Every round is exactly norm-preserving and exactly
//! linear, so the isometry of the whole transform is a theorem here rather
//! than a floating-point tolerance. All the randomness is drawn from a
//! per-instance seeded generator, which makes construction reproducible and
//! lets the persisted state be a few words.

use vstd::prelude::*;

use crate::intmath::{iabs, isum, norm_sq, prod_seq, seq_diff, to_ints, vec_bounded};
use crate::intmath::{lemma_isum_append, lemma_isum_push, lemma_isum_split};
use crate::rng::{nth_state, SplitMix};
use crate::bytes::{le_bytes8, le_val8, lemma_le_round_trip, push_u64_le, read_u64_le};
use crate::{RabitqError, ALIGNED_DIM, MAX_COORD, MAX_PADDED_DIM};

verus! {

/// Number of sign/permutation rounds composed by a rotator.
pub const NUM_ROUNDS: usize = 4;

/// Marker at the head of a persisted rotation state.
pub const STATE_MAGIC: u64 = 0x524f544154455631;

/// One transform round, as spec-level data.
pub ghost struct RotRoundV {
    /// Which coordinates are negated.
    pub signs: Seq<bool>,
    /// Which adjacent pairs `(2j, 2j+1)` are exchanged.
    pub swaps: Seq<bool>,
    /// Cyclic shift applied after the exchanges.
    pub shift: int,
}

/// One transform round: sign flips, adjacent-pair exchanges, cyclic shift.
pub struct RotRound {
    signs: Vec<bool>,
    swaps: Vec<bool>,
    shift: usize,
}

impl View for RotRound {
    type V = RotRoundV;

    closed spec fn view(&self) -> RotRoundV {
        RotRoundV { signs: self.signs@, swaps: self.swaps@, shift: self.shift as int }
    }
}

/// Spec-level state of a rotator.
pub ghost struct RotatorV {
    /// Input dimension.
    pub dim: int,
    /// Working dimension, a multiple of [`ALIGNED_DIM`].
    pub padded_dim: int,
    /// Seed all round data is derived from.
    pub seed: u64,
    /// The rounds, always [`canonical_rounds`] of the seed.
    pub rounds: Seq<RotRoundV>,
}

/// A randomized, exactly norm-preserving orthogonal operator over
/// `padded_dim` fixed-point coordinates.
pub struct Rotator {
    dim: usize,
    padded_dim: usize,
    seed: u64,
    rounds: Vec<RotRound>,
}

impl View for Rotator {
    type V = RotatorV;

    closed spec fn view(&self) -> RotatorV {
        RotatorV {
            dim: self.dim as int,
            padded_dim: self.padded_dim as int,
            seed: self.seed,
            rounds: Seq::new(self.rounds@.len(), |r: int| self.rounds@[r]@),
        }
    }
}

/// Dimension combinations a rotator can be built over.
pub open spec fn dims_valid(dim: int, padded_dim: int) -> bool {
    &&& 1 <= dim <= padded_dim
    &&& padded_dim % (ALIGNED_DIM as int) == 0
    &&& padded_dim <= MAX_PADDED_DIM as int
}

/// How many generator steps one round consumes.
pub open spec fn round_len(n: int) -> int {
    n + n / 2 + 1
}

/// Index of the first generator step of round `r` (step 0 is the seed
/// itself, so data starts at step 1).
pub open spec fn round_base(n: int, r: int) -> int {
    1 + r * round_len(n)
}

/// Sign bit `i` of round `r` over dimension `n`, drawn from the generator.
pub open spec fn spec_sign(seed: u64, n: int, r: int, i: int) -> bool {
    nth_state(seed, (round_base(n, r) + i) as nat) & 1 == 1
}

/// Exchange bit `j` of round `r`.
pub open spec fn spec_swap(seed: u64, n: int, r: int, j: int) -> bool {
    nth_state(seed, (round_base(n, r) + n + j) as nat) & 1 == 1
}

/// Cyclic shift of round `r`.
pub open spec fn spec_shift(seed: u64, n: int, r: int) -> int {
    nth_state(seed, (round_base(n, r) + n + n / 2) as nat) as int % n
}

/// The full round data determined by a seed over dimension `n`.
pub open spec fn canonical_rounds(seed: u64, n: int) -> Seq<RotRoundV> {
    Seq::new(
        NUM_ROUNDS as nat,
        |r: int|
            RotRoundV {
                signs: Seq::new(n as nat, |i: int| spec_sign(seed, n, r, i)),
                swaps: Seq::new((n / 2) as nat, |j: int| spec_swap(seed, n, r, j)),
                shift: spec_shift(seed, n, r),
            },
    )
}

/// Well-formed rotator state: valid dimensions and rounds pinned to the seed.
pub open spec fn wf_v(v: RotatorV) -> bool {
    &&& dims_valid(v.dim, v.padded_dim)
    &&& v.rounds == canonical_rounds(v.seed, v.padded_dim)
}

/// The canonical state over `(dim, padded_dim, seed)`.
pub open spec fn canonical_state(dim: int, padded_dim: int, seed: u64) -> RotatorV {
    RotatorV { dim, padded_dim, seed, rounds: canonical_rounds(seed, padded_dim) }
}

/// Zero-extension of a coordinate sequence to length `n`.
pub open spec fn pad(x: Seq<int>, n: int) -> Seq<int> {
    Seq::new(n as nat, |i: int| if i < x.len() { x[i] } else { 0 })
}

/// Sign-flip step of a round.
pub open spec fn apply_signs(sg: Seq<bool>, x: Seq<int>) -> Seq<int> {
    Seq::new(x.len(), |i: int| if sg[i] { -x[i] } else { x[i] })
}

/// Source index of position `i` under the adjacent-pair exchanges.
pub open spec fn swap_src(sw: Seq<bool>, i: int) -> int {
    if sw[i / 2] {
        if i % 2 == 0 {
            i + 1
        } else {
            i - 1
        }
    } else {
        i
    }
}

/// Adjacent-pair exchange step of a round.
pub open spec fn apply_swaps(sw: Seq<bool>, x: Seq<int>) -> Seq<int> {
    Seq::new(x.len(), |i: int| x[swap_src(sw, i)])
}

/// Cyclic-shift step of a round.
pub open spec fn apply_shift(k: int, x: Seq<int>) -> Seq<int> {
    Seq::new(x.len(), |i: int| x[(i + k) % (x.len() as int)])
}

/// One whole round.
pub open spec fn apply_round(rv: RotRoundV, x: Seq<int>) -> Seq<int> {
    apply_shift(rv.shift, apply_swaps(rv.swaps, apply_signs(rv.signs, x)))
}

/// Composition of a sequence of rounds, first round first.
pub open spec fn apply_rounds(rs: Seq<RotRoundV>, x: Seq<int>) -> Seq<int>
    decreases rs.len(),
{
    if rs.len() == 0 {
        x
    } else {
        apply_rounds(rs.drop_first(), apply_round(rs.first(), x))
    }
}

/// What `rotate` computes: pad to the working dimension, then run the rounds.
pub open spec fn spec_rotate(v: RotatorV, x: Seq<int>) -> Seq<int> {
    apply_rounds(v.rounds, pad(x, v.padded_dim))
}

/// The persisted form of a rotator: magic, dimensions, seed.
pub open spec fn spec_saved(v: RotatorV) -> Seq<u8> {
    le_bytes8(STATE_MAGIC) + le_bytes8(v.dim as u64) + le_bytes8(v.padded_dim as u64)
        + le_bytes8(v.seed)
}

/// Whether `data` is a persisted state acceptable to a rotator in state `v`:
/// right length, right magic, matching dimensions.
pub open spec fn spec_load_ok(v: RotatorV, data: Seq<u8>) -> bool {
    &&& data.len() == 32
    &&& le_val8(data.subrange(0, 8)) == STATE_MAGIC
    &&& le_val8(data.subrange(8, 16)) == v.dim
    &&& le_val8(data.subrange(16, 24)) == v.padded_dim
}

/// The seed a persisted state carries.
pub open spec fn spec_loaded_seed(data: Seq<u8>) -> u64 {
    le_val8(data.subrange(24, 32)) as u64
}

/// All coordinates of `s` bounded in magnitude by `b`.
pub open spec fn coords_bounded(s: Seq<int>, b: int) -> bool {
    forall|i: int| 0 <= i < s.len() ==> iabs(#[trigger] s[i]) <= b
}

/// A round's data is sized for dimension `n` with an in-range shift.
pub open spec fn round_wf(rv: RotRoundV, n: int) -> bool {
    &&& rv.signs.len() == n
    &&& rv.swaps.len() == n / 2
    &&& 0 <= rv.shift < n
}

/// Negating a value does not change its square.
proof fn lemma_neg_sq(a: int)
    by (nonlinear_arith)
    ensures
        (-a) * (-a) == a * a,
{
}

/// For a dividend below twice the divisor, the remainder is reached by at
/// most one subtraction.
pub(crate) proof fn lemma_mod_once(x: int, n: int)
    requires
        0 < n,
        0 <= x < 2 * n,
    ensures
        x % n == if x < n {
            x
        } else {
            x - n
        },
{
    if x < n {
        vstd::arithmetic::div_mod::lemma_small_mod(x as nat, n as nat);
    } else {
        vstd::arithmetic::div_mod::lemma_mod_sub_multiples_vanish(x, n);
        vstd::arithmetic::div_mod::lemma_small_mod((x - n) as nat, n as nat);
    }
}

/// Sign flips preserve the squared norm.
proof fn lemma_signs_norm(sg: Seq<bool>, x: Seq<int>)
    requires
        sg.len() == x.len(),
    ensures
        norm_sq(apply_signs(sg, x)) == norm_sq(x),
{
    let y = apply_signs(sg, x);
    assert forall|i: int| 0 <= i < x.len() implies prod_seq(y, y)[i] == prod_seq(x, x)[i] by {
        lemma_neg_sq(x[i]);
    }
    assert(prod_seq(y, y) =~= prod_seq(x, x));
}

/// Cyclic shifts preserve sums: the shifted sequence is the two halves
/// concatenated the other way round.
proof fn lemma_shift_sum(k: int, s: Seq<int>)
    requires
        0 <= k < s.len(),
    ensures
        isum(apply_shift(k, s)) == isum(s),
{
    let n = s.len() as int;
    assert forall|i: int| 0 <= i < n implies apply_shift(k, s)[i] == (s.subrange(k, n)
        + s.subrange(0, k))[i] by {
        lemma_mod_once(i + k, n);
    }
    assert(apply_shift(k, s) =~= s.subrange(k, n) + s.subrange(0, k));
    lemma_isum_append(s.subrange(k, n), s.subrange(0, k));
    lemma_isum_split(s, k);
}

/// Cyclic shifts preserve the squared norm.
proof fn lemma_shift_norm(k: int, x: Seq<int>)
    requires
        0 <= k < x.len(),
    ensures
        norm_sq(apply_shift(k, x)) == norm_sq(x),
{
    let y = apply_shift(k, x);
    let n = x.len() as int;
    assert forall|i: int| 0 <= i < n implies prod_seq(y, y)[i] == apply_shift(
        k,
        prod_seq(x, x),
    )[i] by {
        assert(0 <= (i + k) % n < n);
    }
    assert(prod_seq(y, y) =~= apply_shift(k, prod_seq(x, x)));
    lemma_shift_sum(k, prod_seq(x, x));
}

/// The squared norm of the first `2 * k` coordinates is unchanged by the
/// pair exchanges.
proof fn lemma_swaps_norm_prefix(sw: Seq<bool>, x: Seq<int>, k: int)
    requires
        x.len() == 2 * sw.len(),
        0 <= k <= sw.len(),
    ensures
        isum(prod_seq(apply_swaps(sw, x), apply_swaps(sw, x)).subrange(0, 2 * k)) == isum(
            prod_seq(x, x).subrange(0, 2 * k),
        ),
    decreases k,
{
    if k > 0 {
        lemma_swaps_norm_prefix(sw, x, k - 1);
        let y = apply_swaps(sw, x);
        let ysq = prod_seq(y, y);
        let xsq = prod_seq(x, x);
        assert(ysq.subrange(0, 2 * k) =~= ysq.subrange(0, 2 * k - 2).push(ysq[2 * k - 2]).push(
            ysq[2 * k - 1],
        ));
        assert(xsq.subrange(0, 2 * k) =~= xsq.subrange(0, 2 * k - 2).push(xsq[2 * k - 2]).push(
            xsq[2 * k - 1],
        ));
        lemma_isum_push(ysq.subrange(0, 2 * k - 2).push(ysq[2 * k - 2]), ysq[2 * k - 1]);
        lemma_isum_push(ysq.subrange(0, 2 * k - 2), ysq[2 * k - 2]);
        lemma_isum_push(xsq.subrange(0, 2 * k - 2).push(xsq[2 * k - 2]), xsq[2 * k - 1]);
        lemma_isum_push(xsq.subrange(0, 2 * k - 2), xsq[2 * k - 2]);
        assert((2 * k - 2) / 2 == k - 1 && (2 * k - 2) % 2 == 0);
        assert((2 * k - 1) / 2 == k - 1 && (2 * k - 1) % 2 == 1);
        if sw[k - 1] {
            assert(y[2 * k - 2] == x[2 * k - 1] && y[2 * k - 1] == x[2 * k - 2]);
        } else {
            assert(y[2 * k - 2] == x[2 * k - 2] && y[2 * k - 1] == x[2 * k - 1]);
        }
    }
}

/// Pair exchanges preserve the squared norm.
proof fn lemma_swaps_norm(sw: Seq<bool>, x: Seq<int>)
    requires
        x.len() == 2 * sw.len(),
    ensures
        norm_sq(apply_swaps(sw, x)) == norm_sq(x),
{
    let y = apply_swaps(sw, x);
    lemma_swaps_norm_prefix(sw, x, sw.len() as int);
    assert(prod_seq(y, y).subrange(0, 2 * sw.len() as int) =~= prod_seq(y, y));
    assert(prod_seq(x, x).subrange(0, 2 * sw.len() as int) =~= prod_seq(x, x));
}

/// One round preserves the squared norm.
proof fn lemma_round_norm(rv: RotRoundV, n: int, x: Seq<int>)
    requires
        round_wf(rv, n),
        n % 2 == 0,
        x.len() == n,
        n >= 2,
    ensures
        norm_sq(apply_round(rv, x)) == norm_sq(x),
{
    let a = apply_signs(rv.signs, x);
    let b = apply_swaps(rv.swaps, a);
    lemma_signs_norm(rv.signs, x);
    lemma_swaps_norm(rv.swaps, a);
    lemma_shift_norm(rv.shift, b);
}

/// A composition of well-formed rounds preserves the squared norm.
proof fn lemma_rounds_norm(rs: Seq<RotRoundV>, n: int, x: Seq<int>)
    requires
        forall|r: int| 0 <= r < rs.len() ==> round_wf(#[trigger] rs[r], n),
        n % 2 == 0,
        x.len() == n,
        n >= 2,
    ensures
        apply_rounds(rs, x).len() == n,
        norm_sq(apply_rounds(rs, x)) == norm_sq(x),
    decreases rs.len(),
{
    if rs.len() > 0 {
        lemma_round_norm(rs.first(), n, x);
        lemma_rounds_norm(rs.drop_first(), n, apply_round(rs.first(), x));
    }
}

/// Sign flips are linear: they commute with pointwise difference.
proof fn lemma_signs_linear(sg: Seq<bool>, a: Seq<int>, b: Seq<int>)
    requires
        a.len() == b.len() == sg.len(),
    ensures
        apply_signs(sg, seq_diff(a, b)) == seq_diff(apply_signs(sg, a), apply_signs(sg, b)),
{
    assert(apply_signs(sg, seq_diff(a, b)) =~= seq_diff(
        apply_signs(sg, a),
        apply_signs(sg, b),
    ));
}

/// Pair exchanges are linear.
proof fn lemma_swaps_linear(sw: Seq<bool>, a: Seq<int>, b: Seq<int>)
    requires
        a.len() == b.len() == 2 * sw.len(),
    ensures
        apply_swaps(sw, seq_diff(a, b)) == seq_diff(apply_swaps(sw, a), apply_swaps(sw, b)),
{
    assert forall|i: int| 0 <= i < a.len() implies apply_swaps(sw, seq_diff(a, b))[i] == seq_diff(
        apply_swaps(sw, a),
        apply_swaps(sw, b),
    )[i] by {
        assert(0 <= swap_src(sw, i) < a.len());
    }
    assert(apply_swaps(sw, seq_diff(a, b)) =~= seq_diff(
        apply_swaps(sw, a),
        apply_swaps(sw, b),
    ));
}

/// Cyclic shifts are linear.
proof fn lemma_shift_linear(k: int, a: Seq<int>, b: Seq<int>)
    requires
        a.len() == b.len(),
        0 <= k < a.len(),
    ensures
        apply_shift(k, seq_diff(a, b)) == seq_diff(apply_shift(k, a), apply_shift(k, b)),
{
    let n = a.len() as int;
    assert forall|i: int| 0 <= i < n implies apply_shift(k, seq_diff(a, b))[i] == seq_diff(
        apply_shift(k, a),
        apply_shift(k, b),
    )[i] by {
        assert(0 <= (i + k) % n < n);
    }
    assert(apply_shift(k, seq_diff(a, b)) =~= seq_diff(apply_shift(k, a), apply_shift(k, b)));
}

/// One round is linear.
proof fn lemma_round_linear(rv: RotRoundV, n: int, a: Seq<int>, b: Seq<int>)
    requires
        round_wf(rv, n),
        n % 2 == 0,
        a.len() == n,
        b.len() == n,
        n >= 2,
    ensures
        apply_round(rv, seq_diff(a, b)) == seq_diff(apply_round(rv, a), apply_round(rv, b)),
{
    lemma_signs_linear(rv.signs, a, b);
    lemma_swaps_linear(rv.swaps, apply_signs(rv.signs, a), apply_signs(rv.signs, b));
    lemma_shift_linear(
        rv.shift,
        apply_swaps(rv.swaps, apply_signs(rv.signs, a)),
        apply_swaps(rv.swaps, apply_signs(rv.signs, b)),
    );
}

/// A composition of well-formed rounds is linear.
proof fn lemma_rounds_linear(rs: Seq<RotRoundV>, n: int, a: Seq<int>, b: Seq<int>)
    requires
        forall|r: int| 0 <= r < rs.len() ==> round_wf(#[trigger] rs[r], n),
        n % 2 == 0,
        a.len() == n,
        b.len() == n,
        n >= 2,
    ensures
        apply_rounds(rs, seq_diff(a, b)) == seq_diff(apply_rounds(rs, a), apply_rounds(rs, b)),
    decreases rs.len(),
{
    if rs.len() > 0 {
        lemma_round_linear(rs.first(), n, a, b);
        lemma_round_linear(rs.first(), n, a, b);
        assert(apply_round(rs.first(), a).len() == n);
        assert(apply_round(rs.first(), b).len() == n);
        lemma_rounds_linear(
            rs.drop_first(),
            n,
            apply_round(rs.first(), a),
            apply_round(rs.first(), b),
        );
    }
}

/// Appending a round to a composition applies it last.
proof fn lemma_apply_rounds_snoc(rs: Seq<RotRoundV>, rv: RotRoundV, x: Seq<int>)
    ensures
        apply_rounds(rs.push(rv), x) == apply_round(rv, apply_rounds(rs, x)),
    decreases rs.len(),
{
    let snoc = rs.push(rv);
    assert(snoc.len() > 0);
    assert(apply_rounds(snoc, x) == apply_rounds(snoc.drop_first(), apply_round(snoc.first(), x)));
    if rs.len() == 0 {
        assert(snoc.first() == rv);
        assert(snoc.drop_first() =~= Seq::<RotRoundV>::empty());
        assert(apply_rounds(snoc.drop_first(), apply_round(rv, x)) == apply_round(rv, x));
        assert(apply_rounds(rs, x) == x);
    } else {
        assert(snoc.first() == rs.first());
        assert(snoc.drop_first() =~= rs.drop_first().push(rv));
        lemma_apply_rounds_snoc(rs.drop_first(), rv, apply_round(rs.first(), x));
        assert(apply_rounds(rs, x) == apply_rounds(rs.drop_first(), apply_round(rs.first(), x)));
    }
}

/// Canonical rounds are well-formed for their dimension.
proof fn lemma_canonical_rounds_wf(seed: u64, n: int)
    requires
        n >= 2,
    ensures
        forall|r: int|
            0 <= r < canonical_rounds(seed, n).len() ==> round_wf(
                #[trigger] canonical_rounds(seed, n)[r],
                n,
            ),
{
}

/// Build the round data determined by `seed` over dimension `n`.
fn make_rounds(seed: u64, n: usize) -> (r: Vec<RotRound>)
    requires
        2 <= n <= MAX_PADDED_DIM,
        n % 2 == 0,
    ensures
        r@.len() == NUM_ROUNDS,
        Seq::new(r@.len(), |t: int| r@[t]@) == canonical_rounds(seed, n as int),
{
    let mut rng = SplitMix::new(seed);
    let mut rounds: Vec<RotRound> = Vec::new();
    let half = n / 2;
    let rl: usize = n + half + 1;
    let mut r: usize = 0;
    while r < NUM_ROUNDS
        invariant
            rng.wf(),
            rng.seed == seed,
            2 <= n <= MAX_PADDED_DIM,
            n % 2 == 0,
            half == n / 2,
            rl == round_len(n as int),
            r <= NUM_ROUNDS,
            rng.steps@ == r as int * round_len(n as int),
            rounds@.len() == r,
            forall|t: int|
                0 <= t < r ==> #[trigger] rounds@[t]@ == canonical_rounds(seed, n as int)[t],
        decreases NUM_ROUNDS - r,
    {
        let ghost base = round_base(n as int, r as int);
        assert(base == rng.steps@ + 1);

        let mut signs: Vec<bool> = Vec::new();
        let mut i: usize = 0;
        while i < n
            invariant
                rng.wf(),
                rng.seed == seed,
                i <= n,
                base == round_base(n as int, r as int),
                rng.steps@ == base - 1 + i,
                signs@.len() == i,
                forall|t: int|
                    0 <= t < i ==> #[trigger] signs@[t] == spec_sign(
                        seed,
                        n as int,
                        r as int,
                        t,
                    ),
            decreases n - i,
        {
            let v = rng.next();
            signs.push(v & 1 == 1);
            i += 1;
        }

        let mut swaps: Vec<bool> = Vec::new();
        let mut j: usize = 0;
        while j < half
            invariant
                rng.wf(),
                rng.seed == seed,
                j <= half,
                half == n / 2,
                base == round_base(n as int, r as int),
                rng.steps@ == base - 1 + n + j,
                swaps@.len() == j,
                forall|t: int|
                    0 <= t < j ==> #[trigger] swaps@[t] == spec_swap(
                        seed,
                        n as int,
                        r as int,
                        t,
                    ),
            decreases half - j,
        {
            let v = rng.next();
            swaps.push(v & 1 == 1);
            j += 1;
        }

        let v = rng.next();
        let shift = (v % (n as u64)) as usize;
        assert(shift as int == spec_shift(seed, n as int, r as int));

        let round = RotRound { signs, swaps, shift };
        proof {
            assert(round@.signs =~= canonical_rounds(seed, n as int)[r as int].signs);
            assert(round@.swaps =~= canonical_rounds(seed, n as int)[r as int].swaps);
        }
        rounds.push(round);
        proof {
            assert((r + 1) as int * round_len(n as int) == r as int * round_len(n as int)
                + round_len(n as int)) by (nonlinear_arith);
        }
        r += 1;
    }
    proof {
        assert(Seq::new(rounds@.len(), |t: int| rounds@[t]@) =~= canonical_rounds(
            seed,
            n as int,
        ));
    }
    rounds
}

impl Rotator {
    /// Well-formed rotator: dimensions valid, rounds pinned to the seed.
    pub open spec fn wf(&self) -> bool {
        wf_v(self@)
    }

    /// Create a rotator over `padded_dim` coordinates with a fixed default
    /// seed. Fails when `padded_dim` is smaller than `dim`, is not a
    /// multiple of [`ALIGNED_DIM`], or exceeds [`MAX_PADDED_DIM`].
    pub fn new(dim: usize, padded_dim: usize) -> (r: Option<Rotator>)
        ensures
            r is Some <==> dims_valid(dim as int, padded_dim as int),
            r is Some ==> r->Some_0.wf() && r->Some_0@ == canonical_state(
                dim as int,
                padded_dim as int,
                0x9E3779B97F4A7C15u64,
            ),
    {
        Rotator::new_seeded(dim, padded_dim, 0x9E3779B97F4A7C15u64)
    }

    /// Create a rotator whose randomness is drawn from `seed`.
    pub fn new_seeded(dim: usize, padded_dim: usize, seed: u64) -> (r: Option<Rotator>)
        ensures
            r is Some <==> dims_valid(dim as int, padded_dim as int),
            r is Some ==> r->Some_0.wf() && r->Some_0@ == canonical_state(
                dim as int,
                padded_dim as int,
                seed,
            ),
    {
        if dim < 1 || padded_dim < dim || padded_dim % ALIGNED_DIM != 0
            || padded_dim > MAX_PADDED_DIM {
            return None;
        }
        assert(padded_dim % 2 == 0) by {
            assert(padded_dim as int % 16 == 0 ==> padded_dim as int % 2 == 0) by (nonlinear_arith);
        };
        let rounds = make_rounds(seed, padded_dim);
        let rot = Rotator { dim, padded_dim, seed, rounds };
        proof {
            assert(rot@.rounds =~= canonical_rounds(seed, padded_dim as int));
        }
        Some(rot)
    }

    /// Apply the transform: zero-pad `x` to the working dimension, then run
    /// the rounds. The result lands in `y`, which must already have the
    /// working dimension. The output is exactly [`spec_rotate`] of the input,
    /// so equal states give bit-identical outputs.
    pub fn rotate(&self, x: &Vec<i64>, y: &mut Vec<i64>)
        requires
            self.wf(),
            x@.len() <= self@.dim,
            old(y)@.len() == self@.padded_dim,
            vec_bounded(x@, MAX_COORD as int),
        ensures
            final(y)@.len() == self@.padded_dim,
            to_ints(final(y)@) == spec_rotate(self@, to_ints(x@)),
            vec_bounded(final(y)@, MAX_COORD as int),
    {
        let n = self.padded_dim;
        let dim = x.len();
        let ghost x0 = pad(to_ints(x@), n as int);

        let mut cur: Vec<i64> = Vec::with_capacity(n);
        let mut i: usize = 0;
        while i < n
            invariant
                i <= n,
                dim == x@.len(),
                dim <= n,
                cur@.len() == i,
                x0 == pad(to_ints(x@), n as int),
                vec_bounded(x@, MAX_COORD as int),
                forall|t: int| 0 <= t < i ==> #[trigger] (cur@[t] as int) == x0[t],
                vec_bounded(cur@, MAX_COORD as int),
            decreases n - i,
        {
            if i < dim {
                cur.push(x[i]);
            } else {
                cur.push(0);
            }
            i += 1;
        }
        proof {
            assert(to_ints(cur@) =~= x0);
        }

        let nr = self.rounds.len();
        proof {
            assert(self@.rounds.len() == nr);
        }
        let mut r: usize = 0;
        while r < nr
            invariant
                self.wf(),
                r <= nr,
                nr == self.rounds@.len(),
                nr == self@.rounds.len(),
                n == self.padded_dim,
                n as int == self@.padded_dim,
                2 <= n <= MAX_PADDED_DIM,
                n % 2 == 0,
                x0 == pad(to_ints(x@), n as int),
                cur@.len() == n,
                to_ints(cur@) == apply_rounds(self@.rounds.subrange(0, r as int), x0),
                vec_bounded(cur@, MAX_COORD as int),
            decreases nr - r,
        {
            let ghost prev = to_ints(cur@);
            let ghost rv = self@.rounds[r as int];
            proof {
                assert(rv == self.rounds@[r as int]@);
                assert(round_wf(rv, n as int));
            }
            let round = &self.rounds[r];

            // sign flips
            let mut a: Vec<i64> = Vec::with_capacity(n);
            let mut i: usize = 0;
            while i < n
                invariant
                    i <= n,
                    cur@.len() == n,
                    round@ == rv,
                    rv.signs.len() == n,
                    a@.len() == i,
                    vec_bounded(cur@, MAX_COORD as int),
                    prev == to_ints(cur@),
                    forall|t: int|
                        0 <= t < i ==> #[trigger] (a@[t] as int) == apply_signs(rv.signs, prev)[t],
                    vec_bounded(a@, MAX_COORD as int),
                decreases n - i,
            {
                let v = cur[i];
                assert(iabs(cur@[i as int] as int) <= MAX_COORD as int);
                if round.signs[i] {
                    a.push(-v);
                } else {
                    a.push(v);
                }
                i += 1;
            }
            proof {
                assert(to_ints(a@) =~= apply_signs(rv.signs, prev));
            }

            // adjacent-pair exchanges
            let ghost sa = to_ints(a@);
            let mut b: Vec<i64> = Vec::with_capacity(n);
            let mut i: usize = 0;
            while i < n
                invariant
                    i <= n,
                    n % 2 == 0,
                    a@.len() == n,
                    round@ == rv,
                    rv.swaps.len() == n / 2,
                    b@.len() == i,
                    sa == to_ints(a@),
                    vec_bounded(a@, MAX_COORD as int),
                    forall|t: int|
                        0 <= t < i ==> #[trigger] (b@[t] as int) == apply_swaps(rv.swaps, sa)[t],
                    vec_bounded(b@, MAX_COORD as int),
                decreases n - i,
            {
                let j = i / 2;
                let src = if round.swaps[j] {
                    if i % 2 == 0 {
                        i + 1
                    } else {
                        i - 1
                    }
                } else {
                    i
                };
                assert(src as int == swap_src(rv.swaps, i as int));
                assert(iabs(a@[src as int] as int) <= MAX_COORD as int);
                b.push(a[src]);
                i += 1;
            }
            proof {
                assert(to_ints(b@) =~= apply_swaps(rv.swaps, sa));
            }

            // cyclic shift
            let ghost sb = to_ints(b@);
            let sh = round.shift;
            proof {
                assert(sh as int == rv.shift);
            }
            let mut c: Vec<i64> = Vec::with_capacity(n);
            let mut i: usize = 0;
            while i < n
                invariant
                    i <= n,
                    sh < n,
                    n <= MAX_PADDED_DIM,
                    sh as int == rv.shift,
                    b@.len() == n,
                    c@.len() == i,
                    sb == to_ints(b@),
                    vec_bounded(b@, MAX_COORD as int),
                    forall|t: int|
                        0 <= t < i ==> #[trigger] (c@[t] as int) == apply_shift(rv.shift, sb)[t],
                    vec_bounded(c@, MAX_COORD as int),
                decreases n - i,
            {
                let s = i + sh;
                let src = if s >= n {
                    s - n
                } else {
                    s
                };
                proof {
                    lemma_mod_once(i as int + rv.shift, n as int);
                }
                assert(iabs(b@[src as int] as int) <= MAX_COORD as int);
                c.push(b[src]);
                i += 1;
            }
            proof {
                assert(to_ints(c@) =~= apply_shift(rv.shift, sb));
                assert(to_ints(c@) == apply_round(rv, prev));
                assert(self@.rounds.subrange(0, r as int + 1) =~= self@.rounds.subrange(
                    0,
                    r as int,
                ).push(rv));
                lemma_apply_rounds_snoc(self@.rounds.subrange(0, r as int), rv, x0);
            }
            cur = c;
            r += 1;
        }
        proof {
            assert(self@.rounds.subrange(0, nr as int) =~= self@.rounds);
        }
        *y = cur;
    }

    /// Persist the compact randomized state: magic word, the two dimensions
    /// and the seed, little-endian. The round data is not written; it is
    /// fully determined by the seed.
    pub fn save(&self) -> (r: Vec<u8>)
        requires
            self.wf(),
        ensures
            r@ == spec_saved(self@),
    {
        let mut out: Vec<u8> = Vec::new();
        push_u64_le(&mut out, STATE_MAGIC);
        push_u64_le(&mut out, self.dim as u64);
        push_u64_le(&mut out, self.padded_dim as u64);
        push_u64_le(&mut out, self.seed);
        proof {
            assert(out@ =~= spec_saved(self@));
        }
        out
    }

    /// Restore a persisted state. Fails with [`RabitqError::FormatError`]
    /// when the bytes are malformed or encode dimensions other than this
    /// rotator's; on failure the rotator is unchanged.
    pub fn load(&mut self, data: &Vec<u8>) -> (r: Result<(), RabitqError>)
        requires
            old(self).wf(),
        ensures
            final(self).wf(),
            final(self)@.dim == old(self)@.dim,
            final(self)@.padded_dim == old(self)@.padded_dim,
            r is Ok <==> spec_load_ok(old(self)@, data@),
            r is Ok ==> final(self)@ == canonical_state(
                old(self)@.dim,
                old(self)@.padded_dim,
                spec_loaded_seed(data@),
            ),
            r is Err ==> final(self)@ == old(self)@ && r == Err::<(), RabitqError>(
                RabitqError::FormatError,
            ),
    {
        if data.len() != 32 {
            return Err(RabitqError::FormatError);
        }
        let magic = read_u64_le(data, 0);
        let d = read_u64_le(data, 8);
        let p = read_u64_le(data, 16);
        let seed = read_u64_le(data, 24);
        if magic != STATE_MAGIC {
            return Err(RabitqError::FormatError);
        }
        if d != self.dim as u64 || p != self.padded_dim as u64 {
            return Err(RabitqError::FormatError);
        }
        assert(self.padded_dim % 2 == 0) by {
            assert(self@.padded_dim % 16 == 0 ==> self@.padded_dim % 2 == 0) by (nonlinear_arith);
        };
        let rounds = make_rounds(seed, self.padded_dim);
        self.seed = seed;
        self.rounds = rounds;
        proof {
            assert(self@.rounds =~= canonical_rounds(seed, self@.padded_dim));
        }
        Ok(())
    }

    /// Input dimension.
    pub fn dim(&self) -> (r: usize)
        ensures
            r as int == self@.dim,
    {
        self.dim
    }

    /// Working (padded) dimension.
    pub fn padded_dim(&self) -> (r: usize)
        ensures
            r as int == self@.padded_dim,
    {
        self.padded_dim
    }
}

/// Padding with zeros does not change the squared norm.
proof fn lemma_pad_norm(x: Seq<int>, n: int)
    requires
        x.len() <= n,
    ensures
        norm_sq(pad(x, n)) == norm_sq(x),
{
    let p = pad(x, n);
    let tail = Seq::new((n - x.len()) as nat, |i: int| 0);
    assert(prod_seq(p, p) =~= prod_seq(x, x) + tail);
    lemma_isum_append(prod_seq(x, x), tail);
    crate::intmath::lemma_isum_abs_bound(tail, 0);
    assert(tail.len() * 0 == 0);
}

/// A well-formed rotator's padded dimension is even and at least two.
proof fn lemma_wf_dims(v: RotatorV)
    requires
        wf_v(v),
    ensures
        v.padded_dim >= 2,
        v.padded_dim % 2 == 0,
{
    assert(v.padded_dim % 16 == 0 && v.padded_dim >= 1 ==> v.padded_dim >= 2 && v.padded_dim % 2
        == 0) by (nonlinear_arith);
}

/// Law: the transform is an exact isometry. It preserves the norm of every
/// vector, and the distance between any two rotated vectors equals the
/// distance between the zero-padded inputs — with zero slack, not merely up
/// to a tolerance.
pub proof fn lemma_rotate_isometry(v: RotatorV, x: Seq<int>, y: Seq<int>)
    requires
        wf_v(v),
        x.len() <= v.padded_dim,
        y.len() <= v.padded_dim,
    ensures
        spec_rotate(v, x).len() == v.padded_dim,
        spec_rotate(v, y).len() == v.padded_dim,
        norm_sq(spec_rotate(v, x)) == norm_sq(x),
        norm_sq(seq_diff(spec_rotate(v, x), spec_rotate(v, y))) == norm_sq(
            seq_diff(pad(x, v.padded_dim), pad(y, v.padded_dim)),
        ),
{
    let n = v.padded_dim;
    lemma_wf_dims(v);
    lemma_canonical_rounds_wf(v.seed, n);
    lemma_rounds_norm(v.rounds, n, pad(x, n));
    lemma_rounds_norm(v.rounds, n, pad(y, n));
    lemma_pad_norm(x, n);
    lemma_rounds_linear(v.rounds, n, pad(x, n), pad(y, n));
    lemma_rounds_norm(v.rounds, n, seq_diff(pad(x, n), pad(y, n)));
}

/// Law: rotation is deterministic. Two rotators over the same dimensions and
/// seed are in the same state and produce identical outputs on every input.
pub proof fn lemma_rotate_deterministic(a: RotatorV, b: RotatorV, x: Seq<int>)
    requires
        wf_v(a),
        wf_v(b),
        a.dim == b.dim,
        a.padded_dim == b.padded_dim,
        a.seed == b.seed,
    ensures
        spec_rotate(a, x) == spec_rotate(b, x),
{
}

/// Law: persisting round-trips. The bytes saved from state `a` are accepted
/// by any well-formed rotator `b` with the same dimensions, and decode back
/// to exactly the state `a`.
pub proof fn lemma_save_load_round_trip(a: RotatorV, b: RotatorV)
    requires
        wf_v(a),
        wf_v(b),
        b.dim == a.dim,
        b.padded_dim == a.padded_dim,
    ensures
        spec_load_ok(b, spec_saved(a)),
        spec_loaded_seed(spec_saved(a)) == a.seed,
        canonical_state(b.dim, b.padded_dim, spec_loaded_seed(spec_saved(a))) == a,
{
    let data = spec_saved(a);
    assert(data.subrange(0, 8) =~= le_bytes8(STATE_MAGIC));
    assert(data.subrange(8, 16) =~= le_bytes8(a.dim as u64));
    assert(data.subrange(16, 24) =~= le_bytes8(a.padded_dim as u64));
    assert(data.subrange(24, 32) =~= le_bytes8(a.seed));
    lemma_le_round_trip(STATE_MAGIC);
    lemma_le_round_trip(a.dim as u64);
    lemma_le_round_trip(a.padded_dim as u64);
    lemma_le_round_trip(a.seed);
}

} // verus!
