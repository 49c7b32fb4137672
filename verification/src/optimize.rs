//! Statistical optimization primitives of the encoder: masked channel
//! sums, covariance accumulation, principal-axis estimation by power
//! iteration, endpoint segmentation, closed-form least-squares endpoint
//! refinement, and the analytic error bound used to rank partition
//! candidates.
//!
//! All arithmetic is integer arithmetic.  Covariances are scaled by the
//! number of active texels, which leaves eigenvectors unchanged; the power
//! iteration renormalizes by halving instead of dividing by a norm.  The
//! masked statistics and covariance entries carry exact sum contracts; the
//! axis estimate and the pruning bounds are the ranking aids the format's
//! own description calls them, carry range contracts, and only rank, prune
//! and seed — every stored result passes through the exactly-specified
//! index assignment afterwards.

use vstd::prelude::*;
use vstd::math::abs;

verus! {

/// All 64 channel values of a working block are bytes.
pub open spec fn spec_block_bytes(block: [i32; 64]) -> bool {
    forall|i: int| 0 <= i < 64 ==> 0 <= #[trigger] block[i] <= 255
}

/// Truncating division, as `div_trunc` computes it.
pub open spec fn spec_div_trunc(n: int, d: int) -> int {
    if n >= 0 {
        n / d
    } else {
        -((-n) / d)
    }
}

/// A value clamped to the byte range.
pub open spec fn spec_clamp_byte(x: int) -> int {
    if x < 0 {
        0
    } else if x > 255 {
        255
    } else {
        x
    }
}

/// Truncating signed division by a positive divisor.
pub fn div_trunc(n: i64, d: i64) -> (r: i64)
    requires
        d > 0,
        -0x4000_0000_0000_0000 < n < 0x4000_0000_0000_0000,
    ensures
        r == spec_div_trunc(n as int, d as int),
        abs(r as int) <= abs(n as int),
{
    if n >= 0 {
        proof {
            vstd::arithmetic::div_mod::lemma_div_is_ordered_by_denominator(n as int, 1, d as int);
            vstd::arithmetic::div_mod::lemma_div_pos_is_pos(n as int, d as int);
            assert(n as int / 1 == n) by {
                vstd::arithmetic::div_mod::lemma_div_basics_2(n as int);
            }
        }
        n / d
    } else {
        let m = -n;
        proof {
            vstd::arithmetic::div_mod::lemma_div_is_ordered_by_denominator(m as int, 1, d as int);
            vstd::arithmetic::div_mod::lemma_div_pos_is_pos(m as int, d as int);
            assert(m as int / 1 == m) by {
                vstd::arithmetic::div_mod::lemma_div_basics_2(m as int);
            }
        }
        -(m / d)
    }
}

/// Clamps a value to the byte range.
pub fn clamp_byte(x: i64) -> (r: i32)
    ensures
        0 <= r <= 255,
        r == spec_clamp_byte(x as int),
{
    if x < 0 {
        0
    } else if x > 255 {
        255
    } else {
        x as i32
    }
}

/// Integer square root.
pub fn isqrt_u64(x: u64) -> (r: u64)
    ensures
        r * r <= x,
        (r as int + 1) * (r as int + 1) > x,
        r <= 0xFFFF_FFFF,
    decreases x,
{
    // Bisection on the root.
    let mut lo: u64 = 0;
    let mut hi: u64 = 0xFFFF_FFFF;
    proof {
        assert((0xFFFF_FFFFu64 + 1) * (0xFFFF_FFFFu64 + 1) > 0xFFFF_FFFF_FFFF_FFFFu64)
            by (nonlinear_arith);
    }
    while lo < hi
        invariant
            lo <= hi <= 0xFFFF_FFFF,
            lo * lo <= x,
            (hi as int + 1) * (hi as int + 1) > x,
        decreases hi - lo,
    {
        let mid = lo + (hi - lo + 1) / 2;
        proof {
            assert(lo < mid <= hi);
            assert(mid * mid <= 0xFFFF_FFFF * 0xFFFF_FFFF) by (nonlinear_arith)
                requires
                    0 <= mid <= 0xFFFF_FFFF,
            ;
        }
        if mid * mid <= x {
            lo = mid;
        } else {
            hi = mid - 1;
            proof {
                assert(lo * lo <= x);
            }
        }
    }
    lo
}

/// Whether texel `k` belongs to the masked subset.
pub open spec fn spec_mask_bit(mask: u32, k: int) -> bool {
    ((mask >> (k as u32)) & 1) == 1
}

/// Number of masked texels below `k`.
pub open spec fn spec_ls_cnt(mask: u32, k: int) -> int
    decreases k,
{
    if k <= 0 {
        0
    } else {
        spec_ls_cnt(mask, k - 1) + if spec_mask_bit(mask, k - 1) {
            1int
        } else {
            0
        }
    }
}

/// Sum of channel `p` over the masked texels below `k`.
pub open spec fn spec_ls_sum(block: [i32; 64], mask: u32, p: int, k: int) -> int
    decreases k,
{
    if k <= 0 {
        0
    } else {
        spec_ls_sum(block, mask, p, k - 1) + if spec_mask_bit(mask, k - 1) {
            block[(k - 1) + p * 16] as int
        } else {
            0
        }
    }
}

/// Masked sum of products of two channels over the texels below `k`.
pub open spec fn spec_ls_prod(block: [i32; 64], mask: u32, a: int, b: int, k: int) -> int
    decreases k,
{
    if k <= 0 {
        0
    } else {
        spec_ls_prod(block, mask, a, b, k - 1) + if spec_mask_bit(mask, k - 1) {
            (block[(k - 1) + a * 16] as int) * (block[(k - 1) + b * 16] as int)
        } else {
            0
        }
    }
}

/// One step of walking a texel mask: the pre-shifted word after `k + 1`
/// right shifts tests exactly bit `k` of the mask.
pub proof fn lemma_mask_step(mask: u32, kk: u32)
    requires
        kk <= 16,
    ensures
        ((mask << 1) >> kk) >> 1 == (mask << 1) >> ((kk + 1) as u32),
        ((((mask << 1) >> ((kk + 1) as u32)) & 1) == ((mask >> kk) & 1)),
        ((mask >> kk) & 1) <= 1,
{
    assert(((mask << 1) >> kk) >> 1 == (mask << 1) >> ((kk + 1) as u32) && ((((mask << 1) >> ((
    kk + 1) as u32)) & 1) == ((mask >> kk) & 1)) && ((mask >> kk) & 1) <= 1) by (bit_vector)
        requires
            kk <= 16,
    ;
}

/// Ranges of a stats vector: slots 0 to 9 hold sums of products, 10 to 13
/// plain sums, and 14 the count of active texels.
pub open spec fn spec_stats_ok(s: [i64; 15]) -> bool {
    &&& forall|i: int| 0 <= i < 10 ==> 0 <= #[trigger] s[i] <= 1_040_400
    &&& forall|i: int| 10 <= i < 14 ==> 0 <= #[trigger] s[i] <= 4080
    &&& 0 <= s[14] <= 16
}

/// Per-channel sums, sums of squares and cross products over the masked
/// texels of a block: slot 14 counts the active texels, slots 10 to 13
/// hold the channel sums, and slots 0 to 9 the packed upper triangle of
/// the product sums.
pub fn compute_stats_masked(block: &[i32; 64], mask: u32, channels: u32) -> (stats: [i64; 15])
    requires
        spec_block_bytes(*block),
        channels == 3 || channels == 4,
    ensures
        spec_stats_ok(stats),
        stats[14] == spec_ls_cnt(mask, 16),
        stats[10] == spec_ls_sum(*block, mask, 0, 16),
        stats[11] == spec_ls_sum(*block, mask, 1, 16),
        stats[12] == spec_ls_sum(*block, mask, 2, 16),
        stats[0] == spec_ls_prod(*block, mask, 0, 0, 16),
        stats[1] == spec_ls_prod(*block, mask, 0, 1, 16),
        stats[2] == spec_ls_prod(*block, mask, 0, 2, 16),
        stats[4] == spec_ls_prod(*block, mask, 1, 1, 16),
        stats[5] == spec_ls_prod(*block, mask, 1, 2, 16),
        stats[7] == spec_ls_prod(*block, mask, 2, 2, 16),
        channels == 4 ==> stats[13] == spec_ls_sum(*block, mask, 3, 16) && stats[3]
            == spec_ls_prod(*block, mask, 0, 3, 16) && stats[6] == spec_ls_prod(
            *block,
            mask,
            1,
            3,
            16,
        ) && stats[8] == spec_ls_prod(*block, mask, 2, 3, 16) && stats[9] == spec_ls_prod(
            *block,
            mask,
            3,
            3,
            16,
        ),
        channels == 3 ==> stats[13] == 0 && stats[3] == 0 && stats[6] == 0 && stats[8] == 0
            && stats[9] == 0,
{
    let mut stats: [i64; 15] = [0; 15];
    let mut mask_shifted = mask << 1;
    proof {
        assert((mask << 1) >> 0u32 == mask << 1) by (bit_vector);
    }
    let mut k: usize = 0;
    while k < 16
        invariant
            k <= 16,
            spec_block_bytes(*block),
            channels == 3 || channels == 4,
            mask_shifted == (mask << 1) >> (k as u32),
            forall|i: int| 0 <= i < 10 ==> 0 <= #[trigger] stats[i] <= k * 65025,
            forall|i: int| 10 <= i < 14 ==> 0 <= #[trigger] stats[i] <= k * 255,
            0 <= stats[14] <= k,
            stats[14] == spec_ls_cnt(mask, k as int),
            stats[10] == spec_ls_sum(*block, mask, 0, k as int),
            stats[11] == spec_ls_sum(*block, mask, 1, k as int),
            stats[12] == spec_ls_sum(*block, mask, 2, k as int),
            stats[0] == spec_ls_prod(*block, mask, 0, 0, k as int),
            stats[1] == spec_ls_prod(*block, mask, 0, 1, k as int),
            stats[2] == spec_ls_prod(*block, mask, 0, 2, k as int),
            stats[4] == spec_ls_prod(*block, mask, 1, 1, k as int),
            stats[5] == spec_ls_prod(*block, mask, 1, 2, k as int),
            stats[7] == spec_ls_prod(*block, mask, 2, 2, k as int),
            channels == 4 ==> stats[13] == spec_ls_sum(*block, mask, 3, k as int) && stats[3]
                == spec_ls_prod(*block, mask, 0, 3, k as int) && stats[6] == spec_ls_prod(
                *block,
                mask,
                1,
                3,
                k as int,
            ) && stats[8] == spec_ls_prod(*block, mask, 2, 3, k as int) && stats[9]
                == spec_ls_prod(*block, mask, 3, 3, k as int),
            channels == 3 ==> stats[13] == 0 && stats[3] == 0 && stats[6] == 0 && stats[8] == 0
                && stats[9] == 0,
        decreases 16 - k,
    {
        let ghost kk = k as u32;
        mask_shifted = mask_shifted >> 1;
        proof {
            lemma_mask_step(mask, kk);
        }
        let flag: i64 = (mask_shifted & 1) as i64;
        proof {
            assert(flag == 1 <==> spec_mask_bit(mask, k as int));
            assert(flag == 0 || flag == 1);
        }
        let mut rgba: [i64; 4] = [0; 4];
        let mut p: usize = 0;
        proof {
            assert(forall|x: i64, f: i64|
                0 <= x <= 255 && 0 <= f <= 1 ==> 0 <= #[trigger] (x * f) <= 255)
                by (nonlinear_arith);
            assert(forall|x: i64|
                0 <= x <= 255 ==> #[trigger] (x * 1) == x && x * 0 == 0) by (nonlinear_arith);
        }
        while p < channels as usize
            invariant
                k < 16,
                p <= channels,
                channels == 3 || channels == 4,
                spec_block_bytes(*block),
                0 <= flag <= 1,
                flag == 1 <==> spec_mask_bit(mask, k as int),
                forall|x: i64, f: i64|
                    0 <= x <= 255 && 0 <= f <= 1 ==> 0 <= #[trigger] (x * f) <= 255,
                forall|x: i64| 0 <= x <= 255 ==> #[trigger] (x * 1) == x && x * 0 == 0,
                forall|i: int| 0 <= i < 4 ==> 0 <= #[trigger] rgba[i] <= 255,
                forall|i: int|
                    0 <= i < p ==> #[trigger] rgba[i] == (if spec_mask_bit(mask, k as int) {
                        block[k + i * 16] as int
                    } else {
                        0
                    }),
                forall|i: int| p <= i < 4 ==> #[trigger] rgba[i] == 0,
            decreases channels - p,
        {
            rgba[p] = (block[k + p * 16] as i64) * flag;
            p = p + 1;
        }
        proof {
            assert(forall|a: i64, b: i64|
                0 <= a <= 255 && 0 <= b <= 255 ==> 0 <= #[trigger] (a * b) <= 65025)
                by (nonlinear_arith);
            if channels == 3 {
                assert(rgba[3] == 0);
            }
        }
        stats[14] = stats[14] + flag;
        stats[10] = stats[10] + rgba[0];
        stats[11] = stats[11] + rgba[1];
        stats[12] = stats[12] + rgba[2];
        stats[0] = stats[0] + rgba[0] * rgba[0];
        stats[1] = stats[1] + rgba[0] * rgba[1];
        stats[2] = stats[2] + rgba[0] * rgba[2];
        stats[4] = stats[4] + rgba[1] * rgba[1];
        stats[5] = stats[5] + rgba[1] * rgba[2];
        stats[7] = stats[7] + rgba[2] * rgba[2];
        if channels == 4 {
            stats[13] = stats[13] + rgba[3];
            stats[3] = stats[3] + rgba[0] * rgba[3];
            stats[6] = stats[6] + rgba[1] * rgba[3];
            stats[8] = stats[8] + rgba[2] * rgba[3];
            stats[9] = stats[9] + rgba[3] * rgba[3];
        }
        k = k + 1;
    }
    stats
}

/// Difference of two stats vectors, used to derive the complement subset's
/// stats from the whole block's.
pub fn stats_sub(full: &[i64; 15], part: &[i64; 15]) -> (r: [i64; 15])
    requires
        spec_stats_ok(*full),
        spec_stats_ok(*part),
    ensures
        spec_stats_ok(r),
{
    let mut r: [i64; 15] = [0; 15];
    let mut i: usize = 0;
    while i < 15
        invariant
            i <= 15,
            spec_stats_ok(*full),
            spec_stats_ok(*part),
            forall|j: int| 0 <= j < i && j < 10 ==> 0 <= #[trigger] r[j] <= 1_040_400,
            forall|j: int| 10 <= j < i && j < 14 ==> 0 <= #[trigger] r[j] <= 4080,
            14 < i ==> 0 <= r[14] <= 16,
            forall|j: int| i <= j < 15 ==> #[trigger] r[j] == 0,
        decreases 15 - i,
    {
        // A mask outside the block would make a slot exceed the whole
        // block's; keep the difference at zero then.
        if part[i] <= full[i] {
            r[i] = full[i] - part[i];
        }
        i = i + 1;
    }
    r
}

/// Covariance matrix entries from per-subset stats, scaled by the number of
/// active texels: entry `a,b` is `n * sum(a*b) - sum(a) * sum(b)`.
pub fn covar_from_stats(stats: &[i64; 15], channels: u32) -> (covar: [i64; 10])
    requires
        spec_stats_ok(*stats),
        channels == 3 || channels == 4,
    ensures
        forall|i: int| 0 <= i < 10 ==> abs(#[trigger] covar[i] as int) <= 33_292_800,
        covar[0] == stats[14] * stats[0] - stats[10] * stats[10],
        covar[1] == stats[14] * stats[1] - stats[10] * stats[11],
        covar[2] == stats[14] * stats[2] - stats[10] * stats[12],
        covar[4] == stats[14] * stats[4] - stats[11] * stats[11],
        covar[5] == stats[14] * stats[5] - stats[11] * stats[12],
        covar[7] == stats[14] * stats[7] - stats[12] * stats[12],
        channels == 4 ==> covar[3] == stats[14] * stats[3] - stats[10] * stats[13] && covar[6]
            == stats[14] * stats[6] - stats[11] * stats[13] && covar[8] == stats[14] * stats[8]
            - stats[12] * stats[13] && covar[9] == stats[14] * stats[9] - stats[13] * stats[13],
        channels == 3 ==> covar[3] == 0 && covar[6] == 0 && covar[8] == 0 && covar[9] == 0,
{
    let n = stats[14];
    proof {
        assert(forall|nn: i64, p: i64|
            0 <= p <= 1_040_400 && 0 <= nn <= 16 ==> 0 <= #[trigger] (nn * p) <= 16_646_400)
            by (nonlinear_arith);
        assert(forall|sa: i64, sb: i64|
            0 <= sa <= 4080 && 0 <= sb <= 4080 ==> 0 <= #[trigger] (sa * sb) <= 16_646_400)
            by (nonlinear_arith);
    }
    let mut covar: [i64; 10] = [0; 10];
    covar[0] = n * stats[0] - stats[10] * stats[10];
    covar[1] = n * stats[1] - stats[10] * stats[11];
    covar[2] = n * stats[2] - stats[10] * stats[12];
    covar[4] = n * stats[4] - stats[11] * stats[11];
    covar[5] = n * stats[5] - stats[11] * stats[12];
    covar[7] = n * stats[7] - stats[12] * stats[12];
    if channels == 4 {
        covar[3] = n * stats[3] - stats[10] * stats[13];
        covar[6] = n * stats[6] - stats[11] * stats[13];
        covar[8] = n * stats[8] - stats[12] * stats[13];
        covar[9] = n * stats[9] - stats[13] * stats[13];
    }
    covar
}

/// Symmetric matrix times vector over the first three channels.
fn ssymv3(covar: &[i64; 10], b: &[i64; 4]) -> (a: [i64; 4])
    requires
        forall|i: int| 0 <= i < 10 ==> abs(#[trigger] covar[i] as int) <= 33_292_800,
        forall|i: int| 0 <= i < 4 ==> abs(#[trigger] b[i] as int) <= 0x10_0000,
    ensures
        forall|i: int| 0 <= i < 4 ==> abs(#[trigger] a[i] as int) <= 140_000_000_000_000,
        a[3] == 0,
{
    let mut a: [i64; 4] = [0; 4];
    a[0] = row3(covar[0], covar[1], covar[2], b);
    a[1] = row3(covar[1], covar[4], covar[5], b);
    a[2] = row3(covar[2], covar[5], covar[7], b);
    a
}

/// One row of the three-channel product.
fn row3(c0: i64, c1: i64, c2: i64, b: &[i64; 4]) -> (r: i64)
    requires
        abs(c0 as int) <= 33_292_800,
        abs(c1 as int) <= 33_292_800,
        abs(c2 as int) <= 33_292_800,
        forall|i: int| 0 <= i < 4 ==> abs(#[trigger] b[i] as int) <= 0x10_0000,
    ensures
        abs(r as int) <= 140_000_000_000_000,
{
    proof {
        assert(forall|c: i64, x: i64|
            abs(c as int) <= 33_292_800 && abs(x as int) <= 0x10_0000 ==> abs(#[trigger] (c * x))
                <= 35_000_000_000_000) by (nonlinear_arith);
    }
    c0 * b[0] + c1 * b[1] + c2 * b[2]
}

/// One row of the four-channel product.
fn row4(c0: i64, c1: i64, c2: i64, c3: i64, b: &[i64; 4]) -> (r: i64)
    requires
        abs(c0 as int) <= 33_292_800,
        abs(c1 as int) <= 33_292_800,
        abs(c2 as int) <= 33_292_800,
        abs(c3 as int) <= 33_292_800,
        forall|i: int| 0 <= i < 4 ==> abs(#[trigger] b[i] as int) <= 0x10_0000,
    ensures
        abs(r as int) <= 140_000_000_000_000,
{
    proof {
        assert(forall|c: i64, x: i64|
            abs(c as int) <= 33_292_800 && abs(x as int) <= 0x10_0000 ==> abs(#[trigger] (c * x))
                <= 35_000_000_000_000) by (nonlinear_arith);
    }
    c0 * b[0] + c1 * b[1] + c2 * b[2] + c3 * b[3]
}

/// Symmetric matrix times vector over all four channels.
fn ssymv4(covar: &[i64; 10], b: &[i64; 4]) -> (a: [i64; 4])
    requires
        forall|i: int| 0 <= i < 10 ==> abs(#[trigger] covar[i] as int) <= 33_292_800,
        forall|i: int| 0 <= i < 4 ==> abs(#[trigger] b[i] as int) <= 0x10_0000,
    ensures
        forall|i: int| 0 <= i < 4 ==> abs(#[trigger] a[i] as int) <= 140_000_000_000_000,
{
    let mut a: [i64; 4] = [0; 4];
    a[0] = row4(covar[0], covar[1], covar[2], covar[3], b);
    a[1] = row4(covar[1], covar[4], covar[5], covar[6], b);
    a[2] = row4(covar[2], covar[5], covar[7], covar[8], b);
    a[3] = row4(covar[3], covar[6], covar[8], covar[9], b);
    a
}

/// Scales a vector down by halving until every component fits `2^20`.
fn renormalize(a: &mut [i64; 4])
    requires
        forall|i: int| 0 <= i < 4 ==> abs(#[trigger] old(a)[i] as int) <= 0x4000_0000_0000_0000,
    ensures
        forall|i: int| 0 <= i < 4 ==> abs(#[trigger] final(a)[i] as int) <= 0x10_0000,
{
    let mut guard: u32 = 0;
    while guard < 63
        invariant
            forall|i: int| 0 <= i < 4 ==> abs(#[trigger] a[i] as int) <= 0x4000_0000_0000_0000,
        decreases 63 - guard,
    {
        let m0 = if a[0] >= 0 {
            a[0]
        } else {
            -a[0]
        };
        let m1 = if a[1] >= 0 {
            a[1]
        } else {
            -a[1]
        };
        let m2 = if a[2] >= 0 {
            a[2]
        } else {
            -a[2]
        };
        let m3 = if a[3] >= 0 {
            a[3]
        } else {
            -a[3]
        };
        let mut m = m0;
        if m1 > m {
            m = m1;
        }
        if m2 > m {
            m = m2;
        }
        if m3 > m {
            m = m3;
        }
        if m <= 0x10_0000 {
            return ;
        }
        a[0] = a[0] / 2;
        a[1] = a[1] / 2;
        a[2] = a[2] / 2;
        a[3] = a[3] / 2;
        proof {
            assert(forall|x: i64|
                abs(x as int) <= 0x4000_0000_0000_0000 ==> abs(#[trigger] (x / 2) as int) <= abs(x as int));
        }
        guard = guard + 1;
    }
    // Half of the starting magnitude bound, taken 63 times, leaves zero.
    a[0] = 0;
    a[1] = 0;
    a[2] = 0;
    a[3] = 0;
}

/// Estimates the dominant eigenvector of a covariance matrix by repeated
/// matrix-vector multiplication, renormalized by halving.
pub fn compute_axis(covar: &[i64; 10], iterations: u32, channels: u32) -> (axis: [i64; 4])
    requires
        forall|i: int| 0 <= i < 10 ==> abs(#[trigger] covar[i] as int) <= 33_292_800,
        channels == 3 || channels == 4,
        iterations <= 16,
    ensures
        forall|i: int| 0 <= i < 4 ==> abs(#[trigger] axis[i] as int) <= 0x10_0000,
{
    let mut a: [i64; 4] = [1, 1, 1, 1];
    let mut i: u32 = 0;
    while i < iterations
        invariant
            channels == 3 || channels == 4,
            forall|j: int| 0 <= j < 10 ==> abs(#[trigger] covar[j] as int) <= 33_292_800,
            forall|j: int| 0 <= j < 4 ==> abs(#[trigger] a[j] as int) <= 0x10_0000,
        decreases iterations - i,
    {
        let mut next = if channels == 3 {
            ssymv3(covar, &a)
        } else {
            ssymv4(covar, &a)
        };
        renormalize(&mut next);
        a = next;
        i = i + 1;
    }
    a
}


/// Integer square root over 128 bits.
pub fn isqrt_u128(x: u128) -> (r: u128)
    requires
        x < 0xFFFF_FFFF_FFFF_FFFF_FFFF_FFFF_FFFF_FFFF,
    ensures
        r * r <= x,
        (r as int + 1) * (r as int + 1) > x,
        r <= 0xFFFF_FFFF_FFFF_FFFF,
{
    let mut lo: u128 = 0;
    let mut hi: u128 = 0xFFFF_FFFF_FFFF_FFFF;
    proof {
        assert((0xFFFF_FFFF_FFFF_FFFFu128 + 1) * (0xFFFF_FFFF_FFFF_FFFFu128 + 1)
            > 0xFFFF_FFFF_FFFF_FFFF_FFFF_FFFF_FFFF_FFFEu128) by (nonlinear_arith);
    }
    while lo < hi
        invariant
            lo <= hi <= 0xFFFF_FFFF_FFFF_FFFF,
            lo * lo <= x,
            (hi as int + 1) * (hi as int + 1) > x,
        decreases hi - lo,
    {
        let mid = lo + (hi - lo + 1) / 2;
        proof {
            assert(lo < mid <= hi);
            assert(mid * mid <= 0xFFFF_FFFF_FFFF_FFFF * 0xFFFF_FFFF_FFFF_FFFF)
                by (nonlinear_arith)
                requires
                    0 <= mid <= 0xFFFF_FFFF_FFFF_FFFF,
            ;
        }
        if mid * mid <= x {
            lo = mid;
        } else {
            hi = mid - 1;
        }
    }
    lo
}

/// Endpoint pair from principal-axis segmentation: the masked texels are
/// projected on the axis, the extremes are mapped back through the
/// centroid, and the results are clamped to the byte range.  A subset with
/// no texels or no variance collapses to its centroid — the degenerate
/// projection range needs no symmetric widening here, because the integer
/// index assignment never divides by the endpoint span.
pub fn block_segment(block: &[i32; 64], mask: u32, channels: u32) -> (ep: [i32; 8])
    requires
        spec_block_bytes(*block),
        channels == 3 || channels == 4,
    ensures
        forall|i: int| 0 <= i < 8 ==> 0 <= #[trigger] ep[i] <= 255,
        spec_ls_cnt(mask, 16) == 0 ==> forall|i: int| 0 <= i < 8 ==> #[trigger] ep[i] == 0,
{
    let stats = compute_stats_masked(block, mask, channels);
    let covar = covar_from_stats(&stats, channels);
    let axis = compute_axis(&covar, 8, channels);
    let n = stats[14];
    let mut ep: [i32; 8] = [0; 8];
    if n == 0 {
        return ep;
    }
    let mut normsq: i64 = 0;
    let mut p: usize = 0;
    while p < channels as usize
        invariant
            channels == 3 || channels == 4,
            p <= 4,
            forall|i: int| 0 <= i < 4 ==> abs(#[trigger] axis[i] as int) <= 0x10_0000,
            0 <= normsq <= p * 0x100_0000_0000,
        decreases channels - p,
    {
        proof {
            assert(forall|x: i64|
                abs(x as int) <= 0x10_0000 ==> 0 <= #[trigger] (x * x) <= 0x100_0000_0000)
                by (nonlinear_arith);
        }
        normsq = normsq + axis[p] * axis[p];
        p = p + 1;
    }
    if normsq == 0 {
        // No variance along any axis: both endpoints sit at the centroid.
        let mut q: usize = 0;
        while q < channels as usize
            invariant
                channels == 3 || channels == 4,
                q <= 4,
                1 <= n <= 16,
                spec_stats_ok(stats),
                forall|i: int| 0 <= i < 8 ==> 0 <= #[trigger] ep[i] <= 255,
            decreases channels - q,
        {
            proof {
                vstd::arithmetic::div_mod::lemma_div_pos_is_pos(stats[10 + q] as int, n as int);
                vstd::arithmetic::div_mod::lemma_div_is_ordered_by_denominator(
                    stats[10 + q] as int,
                    1,
                    n as int,
                );
                vstd::arithmetic::div_mod::lemma_div_basics_2(stats[10 + q] as int);
            }
            let c = clamp_byte(stats[10 + q] / n);
            ep[q] = c;
            ep[4 + q] = c;
            q = q + 1;
        }
        return ep;
    }
    // Project every masked texel on the axis, relative to the centroid; the
    // projections are scaled by the texel count to stay integral.
    let mut dot_min: i64 = 0x7FFF_FFFF_FFFF_FFFF;
    let mut dot_max: i64 = -0x7FFF_FFFF_FFFF_FFFF;
    let mut mask_shifted = mask << 1;
    let mut k: usize = 0;
    while k < 16
        invariant
            k <= 16,
            spec_block_bytes(*block),
            channels == 3 || channels == 4,
            1 <= n <= 16,
            spec_stats_ok(stats),
            forall|i: int| 0 <= i < 4 ==> abs(#[trigger] axis[i] as int) <= 0x10_0000,
            dot_min == 0x7FFF_FFFF_FFFF_FFFF || abs(dot_min as int) <= 0x4_0000_0000,
            dot_max == -0x7FFF_FFFF_FFFF_FFFF || abs(dot_max as int) <= 0x4_0000_0000,
            (dot_min == 0x7FFF_FFFF_FFFF_FFFF) <==> (dot_max == -0x7FFF_FFFF_FFFF_FFFF),
        decreases 16 - k,
    {
        mask_shifted = mask_shifted >> 1;
        if mask_shifted & 1 == 1 {
            let mut dot: i64 = 0;
            let mut p2: usize = 0;
            while p2 < channels as usize
                invariant
                    k < 16,
                    p2 <= 4,
                    channels == 3 || channels == 4,
                    spec_block_bytes(*block),
                    1 <= n <= 16,
                    spec_stats_ok(stats),
                    forall|i: int| 0 <= i < 4 ==> abs(#[trigger] axis[i] as int) <= 0x10_0000,
                    abs(dot as int) <= p2 * 0x1_0000_0000,
                decreases channels - p2,
            {
                proof {
                    assert(forall|nn: i64, x: i64|
                        1 <= nn <= 16 && 0 <= x <= 255 ==> 0 <= #[trigger] (nn * x) <= 4080)
                        by (nonlinear_arith);
                    assert(forall|a: i64, d2: i64|
                        abs(a as int) <= 0x10_0000 && abs(d2 as int) <= 4080 ==> abs(
                            #[trigger] (a * d2) as int,
                        ) <= 0xFF00_0000) by (nonlinear_arith);
                }
                let d: i64 = n * (block[16 * p2 + k] as i64) - stats[10 + p2];
                dot = dot + axis[p2] * d;
                p2 = p2 + 1;
            }
            if dot < dot_min {
                dot_min = dot;
            }
            if dot > dot_max {
                dot_max = dot;
            }
        }
        k = k + 1;
    }
    if dot_min == 0x7FFF_FFFF_FFFF_FFFF {
        // The mask selected no texel; the count said otherwise only when the
        // caller's stats and mask disagree, so fall back to zeros.
        return ep;
    }
    // Map the extreme projections back: ep = (sum * normsq + dot * axis) /
    // (n * normsq), clamped to bytes.
    proof {
        assert(1 * 1 <= n * normsq <= 16 * 0x400_0000_0000) by (nonlinear_arith)
            requires
                1 <= n <= 16,
                1 <= normsq <= 0x400_0000_0000,
        ;
    }
    let denom = n * normsq;
    let mut p3: usize = 0;
    while p3 < channels as usize
        invariant
            channels == 3 || channels == 4,
            p3 <= 4,
            1 <= n <= 16,
            spec_stats_ok(stats),
            1 <= normsq <= 0x400_0000_0000,
            denom == n * normsq,
            1 <= denom <= 0x4000_0000_0000,
            forall|i: int| 0 <= i < 4 ==> abs(#[trigger] axis[i] as int) <= 0x10_0000,
            abs(dot_min as int) <= 0x4_0000_0000,
            abs(dot_max as int) <= 0x4_0000_0000,
            forall|i: int| 0 <= i < 8 ==> 0 <= #[trigger] ep[i] <= 255,
        decreases channels - p3,
    {
        proof {
            assert(forall|s: i64, nq: i64|
                0 <= s <= 4080 && 1 <= nq <= 0x400_0000_0000 ==> 0 <= #[trigger] (s * nq)
                    <= 0xFF0_0000_0000_0000) by (nonlinear_arith);
            assert(forall|d2: i64, a: i64|
                abs(d2 as int) <= 0x4_0000_0000 && abs(a as int) <= 0x10_0000 ==> abs(
                    #[trigger] (d2 * a) as int,
                ) <= 0x40_0000_0000_0000) by (nonlinear_arith);
        }
        let num0 = stats[10 + p3] * normsq + dot_min * axis[p3];
        let num1 = stats[10 + p3] * normsq + dot_max * axis[p3];
        ep[p3] = clamp_byte(div_trunc(num0, denom));
        ep[4 + p3] = clamp_byte(div_trunc(num1, denom));
        p3 = p3 + 1;
    }
    ep
}

/// The analytic error bound of a covariance matrix, used only to rank
/// partition candidates: the matrix trace minus an estimate of its largest
/// eigenvalue, floored at zero.
pub fn get_pca_bound(covar: &[i64; 10], channels: u32) -> (r: u64)
    requires
        forall|i: int| 0 <= i < 10 ==> abs(#[trigger] covar[i] as int) <= 33_292_800,
        channels == 3 || channels == 4,
    ensures
        r <= 140_000_000,
{
    let axis = compute_axis(covar, 4, channels);
    let cv = if channels == 3 {
        ssymv3(covar, &axis)
    } else {
        ssymv4(covar, &axis)
    };
    let mut sq_sum: u128 = 0;
    let mut p: usize = 0;
    while p < channels as usize
        invariant
            channels == 3 || channels == 4,
            p <= 4,
            forall|i: int| 0 <= i < 4 ==> abs(#[trigger] cv[i] as int) <= 140_000_000_000_000,
            sq_sum <= p * 0x4B82_FA09_B5A5_2CB9_8B40_0000,
        decreases channels - p,
    {
        let a = if cv[p] >= 0 {
            cv[p]
        } else {
            -cv[p]
        };
        let au = a as u128;
        proof {
            assert(forall|x: u128|
                0 <= x <= 140_000_000_000_000 ==> 0 <= #[trigger] (x * x)
                    <= 0x4B82_FA09_B5A5_2CB9_8B40_0000) by (nonlinear_arith);
        }
        sq_sum = sq_sum + au * au;
        p = p + 1;
    }
    let lam_num = isqrt_u128(sq_sum);
    let mut normsq: u64 = 0;
    let mut q: usize = 0;
    while q < channels as usize
        invariant
            channels == 3 || channels == 4,
            q <= 4,
            forall|i: int| 0 <= i < 4 ==> abs(#[trigger] axis[i] as int) <= 0x10_0000,
            normsq <= q * 0x100_0000_0000,
        decreases channels - q,
    {
        let a = if axis[q] >= 0 {
            axis[q]
        } else {
            -axis[q]
        };
        let au = a as u64;
        proof {
            assert(forall|x: u64|
                0 <= x <= 0x10_0000 ==> 0 <= #[trigger] (x * x) <= 0x100_0000_0000)
                by (nonlinear_arith);
        }
        normsq = normsq + au * au;
        q = q + 1;
    }
    let axis_norm = isqrt_u64(normsq);
    let lambda: u64 = if axis_norm == 0 {
        0
    } else {
        let l = lam_num / (axis_norm as u128);
        if l > 0xFFFF_FFFF_FFFF_FFFF {
            0xFFFF_FFFF_FFFF_FFFF
        } else {
            l as u64
        }
    };
    let mut trace: i64 = covar[0] + covar[4] + covar[7];
    if channels == 4 {
        trace = trace + covar[9];
    }
    if trace < 0 {
        return 0;
    }
    let traceu = trace as u64;
    if traceu <= lambda {
        0
    } else {
        let b = traceu - lambda;
        if b > 140_000_000 {
            140_000_000
        } else {
            b
        }
    }
}

/// Ranking value of one two-way split: the bounds of the two complementary
/// subsets, each normalized by its texel count, summed and square-rooted.
/// A heuristic aid for ordering partition candidates, nothing more.
pub fn block_pca_bound_split(
    block: &[i32; 64],
    mask: u32,
    full_stats: &[i64; 15],
    channels: u32,
) -> (r: u64)
    requires
        spec_block_bytes(*block),
        spec_stats_ok(*full_stats),
        channels == 3 || channels == 4,
    ensures
        r <= 0xFFFF,
{
    let stats = compute_stats_masked(block, mask, channels);
    let covar1 = covar_from_stats(&stats, channels);
    let stats2 = stats_sub(full_stats, &stats);
    let covar2 = covar_from_stats(&stats2, channels);
    let n1 = if stats[14] < 1 {
        1u64
    } else {
        stats[14] as u64
    };
    let n2 = if stats2[14] < 1 {
        1u64
    } else {
        stats2[14] as u64
    };
    let b1 = get_pca_bound(&covar1, channels) / n1;
    let b2 = get_pca_bound(&covar2, channels) / n2;
    proof {
        vstd::arithmetic::div_mod::lemma_div_is_ordered_by_denominator(140_000_000, 1, n1 as int);
        vstd::arithmetic::div_mod::lemma_div_is_ordered_by_denominator(140_000_000, 1, n2 as int);
        vstd::arithmetic::div_mod::lemma_div_is_ordered(
            get_pca_bound_bound(),
            140_000_000,
            n1 as int,
        );
    }
    let r = isqrt_u64(b1 + b2);
    proof {
        assert(r * r <= b1 + b2);
        assert(r <= 0xFFFF) by (nonlinear_arith)
            requires
                r * r <= b1 + b2,
                b1 + b2 <= 280_000_000,
                r >= 0,
        ;
    }
    r
}

/// Upper bound of the ranking aid.
pub open spec fn get_pca_bound_bound() -> int {
    140_000_000
}


/// Swapping two entries of a sequence keeps its multiset of values.
proof fn lemma_swap_keeps_multiset(s: Seq<i32>, a: int, b: int)
    requires
        0 <= a < s.len(),
        0 <= b < s.len(),
    ensures
        s.update(a, s[b]).update(b, s[a]).to_multiset() == s.to_multiset(),
{
    broadcast use vstd::seq_lib::to_multiset_update;
    broadcast use vstd::multiset::group_multiset_axioms;
    broadcast use vstd::multiset::group_multiset_properties;
    broadcast use vstd::seq_lib::to_multiset_contains;
    broadcast use vstd::seq_lib::group_to_multiset_ensures;

    if a == b {
        assert(s.update(a, s[b]).update(b, s[a]) =~= s);
    } else {
        let s1 = s.update(a, s[b]);
        assert(s1[b] == s[b]);
        assert(s.contains(s[a]) && s.contains(s[b]));
        assert(s1.update(b, s[a]).to_multiset() =~= s.to_multiset());
    }
}

/// Moves the `partial_count` smallest entries, in ascending order, to the
/// front of the first `length` entries by selection.
pub fn partial_sort_list(list: &mut [i32], length: usize, partial_count: u32)
    requires
        partial_count <= length,
        length <= old(list)@.len(),
    ensures
        final(list)@.len() == old(list)@.len(),
        final(list)@.to_multiset() == old(list)@.to_multiset(),
        forall|i: int| length <= i < final(list)@.len() ==> final(list)@[i] == old(list)@[i],
        forall|i: int, j: int|
            #![trigger final(list)@[i], final(list)@[j]]
            0 <= i < j < partial_count ==> final(list)@[i] <= final(list)@[j],
        forall|i: int, j: int|
            #![trigger final(list)@[i], final(list)@[j]]
            0 <= i < partial_count && partial_count <= j < length
                ==> final(list)@[i] <= final(list)@[j],
{
    let mut k: usize = 0;
    while k < partial_count as usize
        invariant
            k <= partial_count,
            partial_count <= length,
            length <= list@.len(),
            list@.len() == old(list)@.len(),
            list@.to_multiset() == old(list)@.to_multiset(),
            forall|i: int| length <= i < list@.len() ==> list@[i] == old(list)@[i],
            forall|i: int, j: int|
                0 <= i < j < k ==> #[trigger] list@[i] <= #[trigger] list@[j],
            forall|i: int, j: int|
                0 <= i < k && k <= j < length ==> #[trigger] list@[i] <= #[trigger] list@[j],
        decreases partial_count - k,
    {
        let mut best_idx = k;
        let mut best_value = list[k];
        let mut i = k + 1;
        while i < length
            invariant
                k < length,
                k <= best_idx < i,
                i <= length,
                length <= list@.len(),
                best_value == list@[best_idx as int],
                forall|j: int| k <= j < i ==> best_value <= #[trigger] list@[j],
            decreases length - i,
        {
            if best_value > list[i] {
                best_value = list[i];
                best_idx = i;
            }
            i = i + 1;
        }
        let ghost before = list@;
        let a = list[k];
        let b = list[best_idx];
        list[k] = b;
        list[best_idx] = a;
        proof {
            assert(list@ =~= before.update(k as int, before[best_idx as int]).update(
                best_idx as int,
                before[k as int],
            ));
            lemma_swap_keeps_multiset(before, k as int, best_idx as int);
        }
        k = k + 1;
    }
}

} // verus!
