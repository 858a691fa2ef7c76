//! The scoring function: a pure function from an item's vote count and
//! submission time to a sortable score.
//!
//! The intended ranking formula is `submittedAt + WEIGHT * ln(voteCount + 1)`
//! with `WEIGHT` one hour: logarithmic vote weighting bounds how long
//! high-vote items can dominate, so recency eventually overtakes stale
//! high-vote items, and `voteCount + 1` keeps zero-vote items ranked by pure
//! recency.  Scores here are integers, not floats: the natural logarithm is
//! carried in base-2 fixed point.  `lg2_fp(n)` approximates `log2(n)` times
//! `SCALE` (linear interpolation between neighbouring powers of two), and the
//! per-log2-unit weight `VOTE_WEIGHT` is one hour of seconds times `ln 2`
//! (`3600 * 0.6931... ~ 2495`), so that
//! `score = uploaded * SCALE + VOTE_WEIGHT * lg2_fp(votes + 1)`
//! is `SCALE` times roughly `uploaded + 3600 * ln(votes + 1)`.
//!
//! The approximation is exact where the ranking needs it: the score is
//! strictly increasing in the vote count (time held fixed) and strictly
//! increasing in the submission time (votes held fixed).

use vstd::prelude::*;
use vstd::arithmetic::div_mod::*;
use vstd::arithmetic::mul::*;
use vstd::arithmetic::power2::*;

verus! {

/// Fixed-point scale: one unit of `log2` is worth this many score units.
pub const SCALE: u64 = 0x1_0000_0000;

/// Score units per unit of `log2(votes + 1)`: one hour of seconds times
/// `ln 2`, so a factor two in votes is worth about an hour of recency.
pub const VOTE_WEIGHT: u64 = 2495;

/// The floor of `log2(n)` for `n >= 1`.
pub open spec fn floor_log2(n: int) -> nat
    recommends
        n >= 1,
    decreases n,
{
    if n < 2 {
        0
    } else {
        1 + floor_log2(n / 2)
    }
}

/// `SCALE * log2(n)`, approximated by linear interpolation between
/// neighbouring powers of two: for `pow2(k) <= n < pow2(k + 1)` the value is
/// `SCALE * k + (n - pow2(k)) * pow2(32 - k)`.  Exact on powers of two,
/// strictly increasing on `1 ..= pow2(32)`.
pub open spec fn lg2_fp(n: int) -> int
    recommends
        1 <= n <= pow2(32),
{
    let k = floor_log2(n);
    k * (SCALE as int) + (n - pow2(k)) * pow2((32 - k) as nat)
}

/// The ranking score of an item with `votes` votes submitted at time
/// `uploaded` (seconds): `SCALE` times roughly
/// `uploaded + 3600 * ln(votes + 1)`.
pub open spec fn spec_score(votes: u32, uploaded: u64) -> int {
    uploaded * (SCALE as int) + (VOTE_WEIGHT as int) * lg2_fp(votes as int + 1)
}

/// `floor_log2(n)` is the unique `k` with `pow2(k) <= n < pow2(k + 1)`.
proof fn lemma_floor_log2_bounds(n: int)
    requires
        n >= 1,
    ensures
        pow2(floor_log2(n)) <= n < pow2(floor_log2(n) + 1),
    decreases n,
{
    broadcast use lemma_pow2_unfold, lemma_pow2_pos;

    if n < 2 {
        lemma2_to64();
    } else {
        lemma_floor_log2_bounds(n / 2);
        let k = floor_log2(n / 2);
        lemma_fundamental_div_mod(n, 2);
        assert(pow2(k + 1) == 2 * pow2(k));
        assert(pow2(k + 2) == 2 * pow2(k + 1));
    }
}

/// Any `k` with `pow2(k) <= n < pow2(k + 1)` is `floor_log2(n)`.
proof fn lemma_floor_log2_is(n: int, k: nat)
    requires
        n >= 1,
        pow2(k) <= n < pow2(k + 1),
    ensures
        floor_log2(n) == k,
{
    lemma_floor_log2_bounds(n);
    let j = floor_log2(n);
    if j < k {
        lemma_pow2_strictly_increases(j + 1, k + 1);
        broadcast use lemma_pow2_unfold, lemma_pow2_pos;

        lemma_pow2_strictly_increases(j, k);
        assert(n < pow2(j + 1));
        if j + 1 < k {
            lemma_pow2_strictly_increases(j + 1, k);
            assert(false);
        } else {
            assert(j + 1 == k);
            assert(n < pow2(k));
            assert(false);
        }
    }
    if j > k {
        if k + 1 < j {
            lemma_pow2_strictly_increases(k + 1, j);
        }
        assert(pow2(j) <= n);
        assert(n < pow2(k + 1));
        assert(false);
    }
}

/// For `n` up to `pow2(e)`, `floor_log2(n)` is at most `e`.
proof fn lemma_floor_log2_le(n: int, e: nat)
    requires
        1 <= n <= pow2(e),
    ensures
        floor_log2(n) <= e,
{
    lemma_floor_log2_bounds(n);
    let k = floor_log2(n);
    if k > e {
        lemma_pow2_strictly_increases(e, k);
        assert(false);
    }
}

/// `lg2_fp` is strictly increasing on `1 ..= pow2(32)`.
pub proof fn lemma_lg2_fp_strict(a: int, b: int)
    requires
        1 <= a < b <= pow2(32),
    ensures
        lg2_fp(a) < lg2_fp(b),
    decreases b - a,
{
    if b > a + 1 {
        lemma_lg2_fp_strict(a, b - 1);
        lemma_lg2_fp_strict(b - 1, b);
    } else {
        let k = floor_log2(a);
        lemma_floor_log2_bounds(a);
        lemma_floor_log2_le(a, 32);
        broadcast use lemma_pow2_pos;

        if k == 32 {
            // then pow2(32) <= a < b <= pow2(32), impossible
            assert(false);
        }
        let q = pow2((32 - k) as nat);
        if b < pow2(k + 1) {
            // a and b share the binade: the interpolated part grows by q > 0
            lemma_floor_log2_is(b, k);
            assert((b - pow2(k)) * q == (a - pow2(k)) * q + q) by (nonlinear_arith)
                requires
                    b == a + 1,
            ;
        } else {
            // b == pow2(k + 1): new binade, value jumps to (k + 1) * SCALE
            broadcast use lemma_pow2_unfold;

            assert(b == pow2(k + 1));
            lemma_floor_log2_is(b, k + 1);
            assert(lg2_fp(b) == (k + 1) * (SCALE as int) + (b - pow2(k + 1)) * pow2(
                (32 - (k + 1)) as nat,
            ));
            assert(lg2_fp(b) == (k + 1) * (SCALE as int));
            // a - pow2(k) <= pow2(k) - 1, so the interpolated part stays below SCALE
            lemma_pow2_adds(k, (32 - k) as nat);
            assert(pow2(k) * q == pow2(32));
            lemma2_to64();
            assert((a - pow2(k)) * q <= (pow2(k) - 1) * q) by (nonlinear_arith)
                requires
                    a - pow2(k) <= pow2(k) - 1,
                    q > 0,
            ;
            assert((pow2(k) - 1) * q == pow2(k) * q - q) by (nonlinear_arith);
            assert((k + 1) * (SCALE as int) == k * (SCALE as int) + SCALE);
        }
    }
}

/// Holding the submission time fixed, the score is strictly increasing in
/// the vote count.
pub proof fn lemma_score_strict_in_votes(v1: u32, v2: u32, t: u64)
    requires
        v1 < v2,
    ensures
        spec_score(v1, t) < spec_score(v2, t),
{
    lemma2_to64();
    lemma_lg2_fp_strict(v1 as int + 1, v2 as int + 1);
}

/// Holding the vote count fixed, the score is strictly increasing in the
/// submission time.
pub proof fn lemma_score_strict_in_time(v: u32, t1: u64, t2: u64)
    requires
        t1 < t2,
    ensures
        spec_score(v, t1) < spec_score(v, t2),
{
}

/// Computes `lg2_fp(n)`.
pub fn lg2_fp_exec(n: u64) -> (r: u64)
    requires
        1 <= n <= SCALE,
    ensures
        r == lg2_fp(n as int),
        r < 33 * SCALE,
{
    proof {
        lemma2_to64();
    }
    let mut k: u64 = 0;
    let mut p: u64 = 1;
    while p <= n / 2
        invariant
            1 <= n <= SCALE,
            p == pow2(k as nat),
            1 <= p <= n,
            k <= 32,
        decreases n - p,
    {
        proof {
            lemma_fundamental_div_mod(n as int, 2);
            lemma_pow2_adds(k as nat, 1);
            lemma2_to64();
            if k + 1 > 32 {
                lemma_pow2_strictly_increases(32, (k + 1) as nat);
                assert(false);
            }
        }
        p = p * 2;
        k = k + 1;
    }
    proof {
        // exit: n / 2 < p, so n < 2 * p, hence pow2(k) <= n < pow2(k + 1)
        lemma_fundamental_div_mod(n as int, 2);
        lemma_pow2_adds(k as nat, 1);
        lemma_floor_log2_is(n as int, k as nat);
        lemma_pow2_subtracts(k as nat, 32);
        lemma2_to64();
        broadcast use lemma_pow2_pos;

    }
    let q: u64 = SCALE / p;
    proof {
        lemma_pow2_adds(k as nat, (32 - k) as nat);
        assert((n - p) * q < p * q) by (nonlinear_arith)
            requires
                n - p < p,
                q > 0,
        ;
        if k > 0 {
            lemma_pow2_strictly_increases(0, k as nat);
        }
    }
    k * SCALE + (n - p) * q
}

/// Computes the score of an item: `spec_score` never exceeds 128 bits.
pub fn compute_score(votes: u32, uploaded: u64) -> (s: u128)
    ensures
        s == spec_score(votes, uploaded),
{
    proof {
        lemma2_to64();
    }
    let lg: u64 = lg2_fp_exec((votes as u64) + 1);
    proof {
        assert((uploaded as int) * (SCALE as int) <= 0xffff_ffff_ffff_ffff * 0x1_0000_0000)
            by (nonlinear_arith)
            requires
                uploaded <= 0xffff_ffff_ffff_ffffu64,
        ;
        assert((VOTE_WEIGHT as int) * (lg as int) < 2495 * 33 * 0x1_0000_0000) by (nonlinear_arith)
            requires
                lg < 33 * 0x1_0000_0000u64,
        ;
    }
    (uploaded as u128) * (SCALE as u128) + (VOTE_WEIGHT as u128) * (lg as u128)
}

} // verus!
