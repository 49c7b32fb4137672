//! The software encoder: a per-block search across enabled modes,
//! partitions and quantization levels that keeps the lowest-error valid
//! 16-byte code.
//!
//! All error accumulation is exact integer arithmetic over squared byte
//! differences, so the reported best error of a block is an exact sum, not
//! an estimate.  The searched candidate set is a heuristic, as the format
//! intends: the contracts here state ranges and the monotonicity of the
//! running best error, not which candidate wins.

use vstd::prelude::*;
use vstd::arithmetic::power2::pow2;
use vstd::arithmetic::power2::lemma2_to64;
use vstd::math::abs;
use crate::bits::{data_val, put_bits, data_shl_1bit_from, le_bytes_val, lemma_le_bytes_val_split};
use crate::decode::{
    expand_component, interpolate, small_pow2, spec_interpolate, spec_index_bits,
    spec_num_partitions, decode_texels, spec_decoded_texels, spec_expand, spec_has_pbits,
};
use crate::optimize::{
    block_pca_bound_split, block_segment, compute_stats_masked, partial_sort_list,
    spec_block_bytes, spec_stats_ok, spec_div_trunc, spec_clamp_byte, spec_mask_bit,
    spec_ls_cnt, spec_ls_sum, lemma_mask_step,
};
use crate::settings::{BC7Settings, spec_settings_valid};
use crate::tables::{
    get_pattern, get_pattern_mask, get_skips, get_unquant_value, spec_unquant_value,
    spec_skip_packed, spec_pattern_mask, spec_pattern,
};
use crate::variant::{CompressionVariant, spec_blocks_byte_size};
use crate::CodecError;

verus! {

/// Quantized endpoint components stay inside one byte.
pub open spec fn spec_ep_bytes(ep: [i32; 8]) -> bool {
    forall|i: int| 0 <= i < 8 ==> 0 <= #[trigger] ep[i] <= 255
}

/// Reconstruction of one quantized component at the stored depth, by
/// most-significant-bit replication.
fn unpack_to_byte(v: i32, bits: u32) -> (r: i32)
    requires
        1 <= bits <= 8,
        0 <= v < pow2(bits as nat),
    ensures
        0 <= r <= 255,
        r as nat == spec_expand(v as nat, bits as nat),
{
    expand_component(v as u32, bits) as i32
}

/// Rounding quantization of a byte component to `levels` steps:
/// `round(x * (levels - 1) / 255)`.
fn quant_rounded(x: i32, levels: i32) -> (r: i32)
    requires
        0 <= x <= 255,
        2 <= levels <= 256,
    ensures
        0 <= r < levels,
{
    proof {
        assert(0 <= x * (levels - 1) <= 255 * 255) by (nonlinear_arith)
            requires
                0 <= x <= 255,
                0 <= levels - 1 <= 255,
        ;
    }
    let t = x * (levels - 1) * 2 + 255;
    let v = t / 510;
    proof {
        vstd::arithmetic::div_mod::lemma_div_pos_is_pos(t as int, 510);
        vstd::arithmetic::div_mod::lemma_div_is_ordered(t as int, 255int * 255 * 2 + 255, 510);
    }
    if v > levels - 1 {
        levels - 1
    } else {
        v
    }
}

/// One interpolated component, as the decoder computes it.
fn interp_i32(a: i32, b: i32, w: i32) -> (r: i32)
    requires
        0 <= a <= 255,
        0 <= b <= 255,
        0 <= w <= 64,
    ensures
        0 <= r <= 255,
        r as nat == spec_interpolate(a as nat, b as nat, w as int),
{
    interpolate(a as u32, b as u32, w as u32) as i32
}

/// Squared difference as a specification value.
pub open spec fn spec_sq_diff(a: int, b: int) -> int {
    (a - b) * (a - b)
}

/// Squared difference of two byte values.
fn sq_diff(a: i32, b: i32) -> (r: u64)
    requires
        0 <= a <= 255,
        0 <= b <= 255,
    ensures
        r <= 65025,
        r == spec_sq_diff(a as int, b as int),
{
    let d = if a >= b {
        a - b
    } else {
        b - a
    };
    proof {
        assert(0 <= d * d <= 65025) by (nonlinear_arith)
            requires
                0 <= d <= 255,
        ;
        assert(forall|x: int, y: int| #[trigger] ((x - y) * (x - y)) == (y - x) * (y - x))
            by (nonlinear_arith);
    }
    (d * d) as u64
}


/// Reconstruction error of texel `k` against subset `j`'s endpoints under
/// index `q`, summed over the first `channels` channels.
pub open spec fn spec_index_err(
    block: [i32; 64],
    eps: [[i32; 8]; 3],
    j: int,
    k: int,
    bits: u32,
    q: int,
    channels: int,
) -> int
    decreases channels,
{
    if channels <= 0 {
        0
    } else {
        let c = channels - 1;
        let w = spec_unquant_value(bits, q) as int;
        spec_index_err(block, eps, j, k, bits, q, c) + spec_sq_diff(
            spec_interpolate(eps[j][c] as nat, eps[j][4 + c] as nat, w) as int,
            block[k + 16 * c] as int,
        )
    }
}

/// The least reconstruction error of texel `k` over the indices below
/// `levels`.
pub open spec fn spec_best_index_err(
    block: [i32; 64],
    eps: [[i32; 8]; 3],
    j: int,
    k: int,
    bits: u32,
    levels: int,
    channels: int,
) -> int
    decreases levels,
{
    if levels <= 1 {
        spec_index_err(block, eps, j, k, bits, 0, channels)
    } else {
        let rest = spec_best_index_err(block, eps, j, k, bits, levels - 1, channels);
        let this = spec_index_err(block, eps, j, k, bits, levels - 1, channels);
        if this < rest {
            this
        } else {
            rest
        }
    }
}

/// Subset of texel `k` under a packed pattern, clamped to the three
/// endpoint pairs.
pub open spec fn spec_pattern_subset(pattern: u32, k: int) -> int {
    let raw = ((pattern >> (2 * k as u32)) & 3) as int;
    if raw >= 3 {
        2
    } else {
        raw
    }
}

/// Total least reconstruction error of the texels below `k`.
pub open spec fn spec_block_quant_err(
    block: [i32; 64],
    eps: [[i32; 8]; 3],
    pattern: u32,
    bits: u32,
    k: int,
    channels: int,
) -> int
    decreases k,
{
    if k <= 0 {
        0
    } else {
        spec_block_quant_err(block, eps, pattern, bits, k - 1, channels) + spec_best_index_err(
            block,
            eps,
            spec_pattern_subset(pattern, k - 1),
            k - 1,
            bits,
            pow2(bits as nat) as int,
            channels,
        )
    }
}

/// The 4-bit index stored for texel `k` in the packed index words.
pub open spec fn spec_qblock_index(qblock: [u32; 2], k: int) -> int {
    ((qblock[k / 8] >> ((4 * (k % 8)) as u32)) & 15) as int
}

/// Assigns every texel the interpolation index that reconstructs it with
/// the least squared error across the channels, ties broken toward the
/// lower index, and returns the total error.
pub fn block_quant(
    qblock: &mut [u32; 2],
    block: &[i32; 64],
    bits: u32,
    eps: &[[i32; 8]; 3],
    pattern: u32,
    channels: u32,
) -> (err: u64)
    requires
        spec_block_bytes(*block),
        channels == 3 || channels == 4,
        2 <= bits <= 4,
        forall|j: int| 0 <= j < 3 ==> spec_ep_bytes(#[trigger] eps[j]),
    ensures
        err <= 4_161_600,
        err == spec_block_quant_err(*block, *eps, pattern, bits, 16, channels as int),
        forall|k: int|
            0 <= k < 16 ==> 0 <= #[trigger] spec_qblock_index(*final(qblock), k) < pow2(
                bits as nat,
            ),
        forall|k: int|
            0 <= k < 16 ==> spec_index_err(
                *block,
                *eps,
                spec_pattern_subset(pattern, k),
                k,
                bits,
                #[trigger] spec_qblock_index(*final(qblock), k),
                channels as int,
            ) == spec_best_index_err(
                *block,
                *eps,
                spec_pattern_subset(pattern, k),
                k,
                bits,
                pow2(bits as nat) as int,
                channels as int,
            ),
        forall|k: int, q2: int|
            0 <= k < 16 && 0 <= q2 < spec_qblock_index(*final(qblock), k) ==> #[trigger] spec_index_err(
                *block,
                *eps,
                spec_pattern_subset(pattern, k),
                k,
                bits,
                q2,
                channels as int,
            ) > spec_index_err(
                *block,
                *eps,
                spec_pattern_subset(pattern, k),
                k,
                bits,
                spec_qblock_index(*final(qblock), k),
                channels as int,
            ),
{
    let levels: u32 = small_pow2(bits);
    proof {
        lemma2_to64();
    }
    qblock[0] = 0;
    qblock[1] = 0;
    let mut total_err: u64 = 0;
    let mut pattern_shifted = pattern;
    proof {
        assert(pattern >> 0u32 == pattern) by (bit_vector);
        assert(0u32 >> 0u32 == 0) by (bit_vector);
    }
    let mut k: usize = 0;
    while k < 16
        invariant
            k <= 16,
            spec_block_bytes(*block),
            channels == 3 || channels == 4,
            2 <= bits <= 4,
            4 <= levels <= 16,
            levels == pow2(bits as nat),
            forall|j: int| 0 <= j < 3 ==> spec_ep_bytes(#[trigger] eps[j]),
            pattern_shifted == pattern >> ((2 * k) as u32),
            total_err <= k * 260_100,
            total_err == spec_block_quant_err(*block, *eps, pattern, bits, k as int, channels as int),
            k < 8 ==> qblock[0] >> ((4 * k) as u32) == 0,
            k <= 8 ==> qblock[1] == 0,
            8 <= k < 16 ==> qblock[1] >> ((4 * (k - 8)) as u32) == 0,
            forall|k2: int|
                0 <= k2 < k ==> 0 <= #[trigger] spec_qblock_index(*qblock, k2) < pow2(bits as nat),
            forall|k2: int|
                0 <= k2 < k ==> spec_index_err(
                    *block,
                    *eps,
                    spec_pattern_subset(pattern, k2),
                    k2,
                    bits,
                    #[trigger] spec_qblock_index(*qblock, k2),
                    channels as int,
                ) == spec_best_index_err(
                    *block,
                    *eps,
                    spec_pattern_subset(pattern, k2),
                    k2,
                    bits,
                    pow2(bits as nat) as int,
                    channels as int,
                ),
            forall|k2: int, q2: int|
                0 <= k2 < k && 0 <= q2 < spec_qblock_index(*qblock, k2)
                    ==> #[trigger] spec_index_err(
                    *block,
                    *eps,
                    spec_pattern_subset(pattern, k2),
                    k2,
                    bits,
                    q2,
                    channels as int,
                ) > spec_index_err(
                    *block,
                    *eps,
                    spec_pattern_subset(pattern, k2),
                    k2,
                    bits,
                    spec_qblock_index(*qblock, k2),
                    channels as int,
                ),
        decreases 16 - k,
    {
        proof {
            assert(((pattern >> (2 * (k as u32))) & 3) < 4) by (bit_vector);
        }
        let mut j = (pattern_shifted & 3) as usize;
        if j >= 3 {
            j = 2;
        }
        proof {
            assert(j as int == spec_pattern_subset(pattern, k as int));
        }
        let mut best_err: u64 = 0xFFFF_FFFF_FFFF_FFFF;
        let mut best_q: u32 = 0;
        let mut q: u32 = 0;
        while q < levels
            invariant
                k < 16,
                q <= levels,
                4 <= levels <= 16,
                2 <= bits <= 4,
                levels == pow2(bits as nat),
                j < 3,
                j as int == spec_pattern_subset(pattern, k as int),
                spec_block_bytes(*block),
                channels == 3 || channels == 4,
                forall|jj: int| 0 <= jj < 3 ==> spec_ep_bytes(#[trigger] eps[jj]),
                best_q < levels,
                q == 0 ==> best_err == 0xFFFF_FFFF_FFFF_FFFF,
                q > 0 ==> best_err <= 260_100,
                q > 0 ==> best_err == spec_best_index_err(
                    *block,
                    *eps,
                    j as int,
                    k as int,
                    bits,
                    q as int,
                    channels as int,
                ),
                q > 0 ==> best_err == spec_index_err(
                    *block,
                    *eps,
                    j as int,
                    k as int,
                    bits,
                    best_q as int,
                    channels as int,
                ),
                forall|q2: int|
                    0 <= q2 < q ==> #[trigger] spec_index_err(
                        *block,
                        *eps,
                        j as int,
                        k as int,
                        bits,
                        q2,
                        channels as int,
                    ) >= best_err,
                forall|q2: int|
                    0 <= q2 < best_q ==> #[trigger] spec_index_err(
                        *block,
                        *eps,
                        j as int,
                        k as int,
                        bits,
                        q2,
                        channels as int,
                    ) > best_err,
            decreases levels - q,
        {
            let w = get_unquant_value(bits, q as i32);
            let mut e: u64 = 0;
            let mut p: usize = 0;
            while p < channels as usize
                invariant
                    k < 16,
                    p <= channels,
                    j < 3,
                    0 <= w <= 64,
                    w == spec_unquant_value(bits, q as int),
                    spec_block_bytes(*block),
                    channels == 3 || channels == 4,
                    forall|jj: int| 0 <= jj < 3 ==> spec_ep_bytes(#[trigger] eps[jj]),
                    e <= p * 65025,
                    e == spec_index_err(*block, *eps, j as int, k as int, bits, q as int, p as int),
                decreases channels - p,
            {
                let dec = interp_i32(eps[j][p], eps[j][4 + p], w);
                let d = sq_diff(dec, block[k + p * 16]);
                e = e + d;
                p = p + 1;
            }
            proof {
                assert(e == spec_index_err(
                    *block,
                    *eps,
                    j as int,
                    k as int,
                    bits,
                    q as int,
                    channels as int,
                ));
                if q == 0 {
                    assert(spec_best_index_err(
                        *block,
                        *eps,
                        j as int,
                        k as int,
                        bits,
                        1,
                        channels as int,
                    ) == spec_index_err(*block, *eps, j as int, k as int, bits, 0, channels as int));
                } else {
                    assert(spec_best_index_err(
                        *block,
                        *eps,
                        j as int,
                        k as int,
                        bits,
                        q as int + 1,
                        channels as int,
                    ) == ({
                        let rest = spec_best_index_err(
                            *block,
                            *eps,
                            j as int,
                            k as int,
                            bits,
                            q as int,
                            channels as int,
                        );
                        let this = spec_index_err(
                            *block,
                            *eps,
                            j as int,
                            k as int,
                            bits,
                            q as int,
                            channels as int,
                        );
                        if this < rest {
                            this
                        } else {
                            rest
                        }
                    }));
                }
            }
            let ghost q_old = q;
            if e < best_err {
                best_err = e;
                best_q = q;
            }
            proof {
                if q_old == 0 {
                    assert(best_err == e);
                    assert(best_err == spec_best_index_err(
                        *block,
                        *eps,
                        j as int,
                        k as int,
                        bits,
                        1,
                        channels as int,
                    ));
                } else {
                    assert(best_err == spec_best_index_err(
                        *block,
                        *eps,
                        j as int,
                        k as int,
                        bits,
                        q_old as int + 1,
                        channels as int,
                    ));
                }
            }
            q = q + 1;
        }
        let sh: u32 = (k % 8) as u32 * 4;
        proof {
            assert(best_q << sh <= 0xF000_0000) by (bit_vector)
                requires
                    best_q < 16,
                    sh <= 28,
            ;
            // The next texel's two pattern bits sit one shift further on.
            let pk: u32 = (2 * k) as u32;
            let pk2: u32 = (2 * k + 2) as u32;
            assert((pattern >> pk) >> 2 == pattern >> pk2) by (bit_vector)
                requires
                    pk <= 30,
                    pk2 == pk + 2,
            ;
        }
        let slot = k / 8;
        proof {
            if k < 8 {
                vstd::arithmetic::div_mod::lemma_fundamental_div_mod_converse(
                    k as int,
                    8,
                    0,
                    k as int,
                );
            } else {
                vstd::arithmetic::div_mod::lemma_fundamental_div_mod_converse(
                    k as int,
                    8,
                    1,
                    k as int - 8,
                );
            }
        }
        let ghost w_old = qblock[slot as int];
        let ghost qb_old = *qblock;
        let w_new = qblock[slot] | (best_q << sh);
        proof {
            // The slot's bits at this nibble and above are still clear, so
            // the or stores the nibble and later reads recover it and every
            // earlier one.
            assert(w_old >> sh == 0);
            lemma_nibble_pack(w_old, best_q, sh);
        }
        qblock[slot] = w_new;
        proof {
            assert forall|k2: int| 0 <= k2 < k + 1 implies 0 <= #[trigger] spec_qblock_index(
                *qblock,
                k2,
            ) < pow2(bits as nat) && spec_index_err(
                *block,
                *eps,
                spec_pattern_subset(pattern, k2),
                k2,
                bits,
                spec_qblock_index(*qblock, k2),
                channels as int,
            ) == spec_best_index_err(
                *block,
                *eps,
                spec_pattern_subset(pattern, k2),
                k2,
                bits,
                pow2(bits as nat) as int,
                channels as int,
            ) && (forall|q2: int|
                0 <= q2 < spec_qblock_index(*qblock, k2) ==> #[trigger] spec_index_err(
                    *block,
                    *eps,
                    spec_pattern_subset(pattern, k2),
                    k2,
                    bits,
                    q2,
                    channels as int,
                ) > spec_index_err(
                    *block,
                    *eps,
                    spec_pattern_subset(pattern, k2),
                    k2,
                    bits,
                    spec_qblock_index(*qblock, k2),
                    channels as int,
                )) by {
                let sh2: u32 = (4 * (k2 % 8)) as u32;
                if k2 == k {
                    assert((w_new >> sh) & 15 == best_q) by (bit_vector)
                        requires
                            w_new == w_old | (best_q << sh),
                            w_old >> sh == 0,
                            best_q < 16,
                            sh <= 28,
                    ;
                    assert(spec_qblock_index(*qblock, k2) == best_q);
                } else if k2 / 8 == k / 8 {
                    assert(sh2 + 4 <= sh) by {
                        vstd::arithmetic::div_mod::lemma_fundamental_div_mod(k2, 8);
                        vstd::arithmetic::div_mod::lemma_mod_division_less_than_divisor(k2, 8);
                    }
                    assert((w_new >> sh2) & 15 == (w_old >> sh2) & 15) by (bit_vector)
                        requires
                            w_new == w_old | (best_q << sh),
                            sh2 + 4 <= sh,
                            sh <= 28,
                    ;
                    assert(spec_qblock_index(*qblock, k2) == spec_qblock_index(qb_old, k2));
                } else {
                    assert(qblock[k2 / 8] == qb_old[k2 / 8]);
                    assert(spec_qblock_index(*qblock, k2) == spec_qblock_index(qb_old, k2));
                }
            }
            // The cleared region above the new nibble shrinks by one nibble.
            if k + 1 < 8 {
                assert(w_new >> ((4 * (k + 1)) as u32) == 0) by (bit_vector)
                    requires
                        w_new == w_old | (best_q << sh),
                        w_old >> sh == 0,
                        best_q < 16,
                        sh <= 24,
                        (4 * (k + 1)) as u32 == sh + 4,
                ;
            } else if k + 1 == 8 {
                assert(qblock[1] == 0);
                assert(0u32 >> 0u32 == 0) by (bit_vector);
            } else if 8 <= k && k + 1 < 16 {
                assert(w_new >> ((4 * (k + 1 - 8)) as u32) == 0) by (bit_vector)
                    requires
                        w_new == w_old | (best_q << sh),
                        w_old >> sh == 0,
                        best_q < 16,
                        sh <= 24,
                        (4 * (k + 1 - 8)) as u32 == sh + 4,
                ;
            }
        }
        total_err = total_err + best_err;
        pattern_shifted = pattern_shifted >> 2;
        k = k + 1;
    }
    total_err
}

/// Storing a nibble into a word whose bits at the nibble and above are
/// clear leaves the region above the stored nibble clear.
proof fn lemma_nibble_pack(w: u32, q: u32, sh: u32)
    requires
        w >> sh == 0,
        q < 16,
        sh <= 28,
    ensures
        ((w | (q << sh)) >> sh) & 15 == q,
{
    assert(((w | (q << sh)) >> sh) & 15 == q) by (bit_vector)
        requires
            w >> sh == 0,
            q < 16,
            sh <= 28,
    ;
}


/// Texel `k`'s stored index clamped to the index width, as the refinement
/// reads it back.
pub open spec fn spec_stored_index(qblock: [u32; 2], bits: u32, k: int) -> int {
    spec_qblock_index(qblock, k) % pow2(bits as nat) as int
}

/// Sum of the stored indices over the masked texels below `k`.
pub open spec fn spec_ls_sum_q(qblock: [u32; 2], mask: u32, bits: u32, k: int) -> int
    decreases k,
{
    if k <= 0 {
        0
    } else {
        spec_ls_sum_q(qblock, mask, bits, k - 1) + if spec_mask_bit(mask, k - 1) {
            spec_stored_index(qblock, bits, k - 1)
        } else {
            0
        }
    }
}

/// Sum of the squared stored indices over the masked texels below `k`.
pub open spec fn spec_ls_sum_qq(qblock: [u32; 2], mask: u32, bits: u32, k: int) -> int
    decreases k,
{
    if k <= 0 {
        0
    } else {
        spec_ls_sum_qq(qblock, mask, bits, k - 1) + if spec_mask_bit(mask, k - 1) {
            spec_stored_index(qblock, bits, k - 1) * spec_stored_index(qblock, bits, k - 1)
        } else {
            0
        }
    }
}

/// Sum of channel `p` weighted by the distance of each stored index from
/// the top of the index range, over the masked texels below `k`.
pub open spec fn spec_ls_atb1(
    block: [i32; 64],
    qblock: [u32; 2],
    mask: u32,
    bits: u32,
    p: int,
    k: int,
) -> int
    decreases k,
{
    if k <= 0 {
        0
    } else {
        spec_ls_atb1(block, qblock, mask, bits, p, k - 1) + if spec_mask_bit(mask, k - 1) {
            (pow2(bits as nat) - 1 - spec_stored_index(qblock, bits, k - 1)) * (block[(k - 1) + p
                * 16] as int)
        } else {
            0
        }
    }
}

/// The normal-equations coefficients of the least-squares endpoint system
/// for a fixed index assignment, and its determinant.
pub open spec fn spec_ls_cxx(qblock: [u32; 2], mask: u32, bits: u32) -> int {
    let lm1 = pow2(bits as nat) - 1;
    spec_ls_cnt(mask, 16) * (lm1 * lm1) - 2 * (lm1 * spec_ls_sum_q(qblock, mask, bits, 16))
        + spec_ls_sum_qq(qblock, mask, bits, 16)
}

/// The mixed coefficient of the system.
pub open spec fn spec_ls_cxy(qblock: [u32; 2], mask: u32, bits: u32) -> int {
    (pow2(bits as nat) - 1) * spec_ls_sum_q(qblock, mask, bits, 16) - spec_ls_sum_qq(
        qblock,
        mask,
        bits,
        16,
    )
}

/// The determinant of the system.
pub open spec fn spec_ls_det(qblock: [u32; 2], mask: u32, bits: u32) -> int {
    spec_ls_cxx(qblock, mask, bits) * spec_ls_sum_qq(qblock, mask, bits, 16) - spec_ls_cxy(
        qblock,
        mask,
        bits,
    ) * spec_ls_cxy(qblock, mask, bits)
}

/// The first endpoint the system solves for on channel `p`, clamped.
pub open spec fn spec_ls_ep0(
    block: [i32; 64],
    qblock: [u32; 2],
    mask: u32,
    bits: u32,
    p: int,
) -> int {
    let lm1 = pow2(bits as nat) - 1;
    let atb1 = spec_ls_atb1(block, qblock, mask, bits, p, 16);
    let atb2 = lm1 * spec_ls_sum(block, mask, p, 16) - atb1;
    let cyy = spec_ls_sum_qq(qblock, mask, bits, 16);
    let cxy = spec_ls_cxy(qblock, mask, bits);
    spec_clamp_byte(
        spec_div_trunc((atb1 * cyy - atb2 * cxy) * lm1, spec_ls_det(qblock, mask, bits)),
    )
}

/// The second endpoint the system solves for on channel `p`, clamped.
pub open spec fn spec_ls_ep1(
    block: [i32; 64],
    qblock: [u32; 2],
    mask: u32,
    bits: u32,
    p: int,
) -> int {
    let lm1 = pow2(bits as nat) - 1;
    let atb1 = spec_ls_atb1(block, qblock, mask, bits, p, 16);
    let atb2 = lm1 * spec_ls_sum(block, mask, p, 16) - atb1;
    let cxx = spec_ls_cxx(qblock, mask, bits);
    let cxy = spec_ls_cxy(qblock, mask, bits);
    spec_clamp_byte(
        spec_div_trunc((atb2 * cxx - atb1 * cxy) * lm1, spec_ls_det(qblock, mask, bits)),
    )
}

/// Closed-form least-squares endpoint refinement for a fixed index
/// assignment, clamped to the byte range; a singular system falls back to
/// the subset's centroid.
pub fn opt_endpoints(
    block: &[i32; 64],
    bits: u32,
    qblock: [u32; 2],
    mask: u32,
    channels: u32,
) -> (ep: [i32; 8])
    requires
        spec_block_bytes(*block),
        channels == 3 || channels == 4,
        2 <= bits <= 4,
    ensures
        spec_ep_bytes(ep),
        spec_ls_det(qblock, mask, bits) > 0 ==> forall|p: int|
            0 <= p < channels ==> #[trigger] ep[p] == spec_ls_ep0(*block, qblock, mask, bits, p),
        spec_ls_det(qblock, mask, bits) > 0 ==> forall|p: int|
            0 <= p < channels ==> #[trigger] ep[4 + p] == spec_ls_ep1(
                *block,
                qblock,
                mask,
                bits,
                p,
            ),
        spec_ls_det(qblock, mask, bits) <= 0 && spec_ls_cnt(mask, 16) > 0 ==> forall|p: int|
            0 <= p < channels ==> #[trigger] ep[p] == spec_clamp_byte(
                spec_ls_sum(*block, mask, p, 16) / spec_ls_cnt(mask, 16),
            ),
        spec_ls_det(qblock, mask, bits) <= 0 && spec_ls_cnt(mask, 16) > 0 ==> forall|p: int|
            0 <= p < channels ==> #[trigger] ep[4 + p] == spec_clamp_byte(
                spec_ls_sum(*block, mask, p, 16) / spec_ls_cnt(mask, 16),
            ),
        spec_ls_det(qblock, mask, bits) <= 0 && spec_ls_cnt(mask, 16) == 0 ==> forall|i: int|
            0 <= i < 8 ==> #[trigger] ep[i] == 0,
{
    let levels: i64 = small_pow2(bits) as i64;
    proof {
        lemma2_to64();
    }
    let lm1: i64 = levels - 1;
    let mut atb1: [i64; 4] = [0; 4];
    let mut sum_q: i64 = 0;
    let mut sum_qq: i64 = 0;
    let mut cnt: i64 = 0;
    let mut sums: [i64; 4] = [0; 4];
    let mut mask_shifted = mask << 1;
    proof {
        assert((mask << 1) >> 0u32 == mask << 1) by (bit_vector);
    }
    let mut k: usize = 0;
    while k < 16
        invariant
            k <= 16,
            spec_block_bytes(*block),
            channels == 3 || channels == 4,
            2 <= bits <= 4,
            4 <= levels <= 16,
            levels == pow2(bits as nat),
            lm1 == levels - 1,
            lm1 == 3 || lm1 == 7 || lm1 == 15,
            mask_shifted == (mask << 1) >> (k as u32),
            0 <= sum_q <= k * 15,
            0 <= sum_qq <= k * 225,
            0 <= cnt <= k,
            sum_q == spec_ls_sum_q(qblock, mask, bits, k as int),
            sum_qq == spec_ls_sum_qq(qblock, mask, bits, k as int),
            cnt == spec_ls_cnt(mask, k as int),
            forall|p: int| 0 <= p < 4 ==> 0 <= #[trigger] sums[p] <= k * 255,
            forall|p: int| 0 <= p < 4 ==> 0 <= #[trigger] atb1[p] <= k * 3825,
            forall|p: int|
                0 <= p < channels ==> #[trigger] sums[p] == spec_ls_sum(
                    *block,
                    mask,
                    p,
                    k as int,
                ),
            forall|p: int|
                0 <= p < channels ==> #[trigger] atb1[p] == spec_ls_atb1(
                    *block,
                    qblock,
                    mask,
                    bits,
                    p,
                    k as int,
                ),
        decreases 16 - k,
    {
        let ghost kk = k as u32;
        mask_shifted = mask_shifted >> 1;
        proof {
            lemma_mask_step(mask, kk);
        }
        if mask_shifted & 1 == 1 {
            proof {
                assert(spec_mask_bit(mask, k as int));
            }
            let word = qblock[k / 8];
            let sh: u32 = (k % 8) as u32 * 4;
            let nib = (word >> sh) & 15;
            let lmu: u32 = lm1 as u32;
            let qn: u32 = nib & lmu;
            proof {
                assert(((word >> sh) & 15) < 16 && (nib & lmu) <= lmu) by (bit_vector)
                    requires
                        nib == (word >> sh) & 15,
                        lmu < 16,
                ;
                assert(nib as int == spec_qblock_index(qblock, k as int));
                assert((nib & lmu) == nib % ((lmu + 1) as u32)) by (bit_vector)
                    requires
                        lmu == 3 || lmu == 7 || lmu == 15,
                        nib < 16,
                ;
                assert(qn as int == spec_stored_index(qblock, bits, k as int));
            }
            let q: i64 = qn as i64;
            let x: i64 = lm1 - q;
            sum_q = sum_q + q;
            proof {
                assert(0 <= q * q <= 225) by (nonlinear_arith)
                    requires
                        0 <= q <= 15,
                ;
            }
            sum_qq = sum_qq + q * q;
            cnt = cnt + 1;
            let mut p: usize = 0;
            while p < channels as usize
                invariant
                    k < 16,
                    p <= channels,
                    spec_block_bytes(*block),
                    channels == 3 || channels == 4,
                    0 <= x <= 15,
                    x == pow2(bits as nat) - 1 - spec_stored_index(qblock, bits, k as int),
                    spec_mask_bit(mask, k as int),
                    forall|pp: int| 0 <= pp < 4 ==> 0 <= #[trigger] sums[pp] <= k * 255 + 255,
                    forall|pp: int| 0 <= pp < 4 ==> 0 <= #[trigger] atb1[pp] <= k * 3825 + 3825,
                    forall|pp: int| p <= pp < 4 ==> #[trigger] sums[pp] <= k * 255,
                    forall|pp: int| p <= pp < 4 ==> #[trigger] atb1[pp] <= k * 3825,
                    forall|pp: int|
                        0 <= pp < p && pp < channels ==> #[trigger] sums[pp] == spec_ls_sum(
                            *block,
                            mask,
                            pp,
                            k as int + 1,
                        ),
                    forall|pp: int|
                        p <= pp < channels ==> #[trigger] sums[pp] == spec_ls_sum(
                            *block,
                            mask,
                            pp,
                            k as int,
                        ),
                    forall|pp: int|
                        0 <= pp < p && pp < channels ==> #[trigger] atb1[pp] == spec_ls_atb1(
                            *block,
                            qblock,
                            mask,
                            bits,
                            pp,
                            k as int + 1,
                        ),
                    forall|pp: int|
                        p <= pp < channels ==> #[trigger] atb1[pp] == spec_ls_atb1(
                            *block,
                            qblock,
                            mask,
                            bits,
                            pp,
                            k as int,
                        ),
                decreases channels - p,
            {
                proof {
                    assert(0 <= x * block[k + p * 16] <= 3825) by (nonlinear_arith)
                        requires
                            0 <= x <= 15,
                            0 <= block[k as int + p * 16] <= 255,
                    ;
                }
                sums[p] = sums[p] + (block[k + p * 16] as i64);
                atb1[p] = atb1[p] + x * (block[k + p * 16] as i64);
                p = p + 1;
            }
        } else {
            proof {
                assert(!spec_mask_bit(mask, k as int));
            }
        }
        k = k + 1;
    }
    // Normal equations of the two endpoints against the index line.
    proof {
        assert(0 <= cnt * (lm1 * lm1) <= 3600 && 0 <= lm1 * sum_q <= 3600) by (nonlinear_arith)
            requires
                0 <= cnt <= 16,
                3 <= lm1 <= 15,
                0 <= sum_q <= 240,
        ;
        assert(0 <= lm1 * lm1 <= 225) by (nonlinear_arith)
            requires
                3 <= lm1 <= 15,
        ;
    }
    let cxx: i64 = cnt * (lm1 * lm1) - 2 * (lm1 * sum_q) + sum_qq;
    let cyy: i64 = sum_qq;
    let cxy: i64 = lm1 * sum_q - sum_qq;
    proof {
        assert(abs((cxx * cyy) as int) <= 114_062_500 && abs((cxy * cxy) as int) <= 114_062_500)
            by (nonlinear_arith)
            requires
                abs(cxx as int) <= 10_800,
                abs(cyy as int) <= 3600,
                abs(cxy as int) <= 7200,
        ;
    }
    let det: i64 = cxx * cyy - cxy * cxy;
    proof {
        assert(cxx == spec_ls_cxx(qblock, mask, bits));
        assert(cxy == spec_ls_cxy(qblock, mask, bits));
        assert(det == spec_ls_det(qblock, mask, bits));
    }
    let mut ep: [i32; 8] = [0; 8];
    proof {
        assert(forall|i: int| 0 <= i < 8 ==> #[trigger] ep[i] == 0);
    }
    if det <= 0 {
        // Singular or empty system: flatten to the centroid.
        let mut p: usize = 0;
        while p < channels as usize
            invariant
                channels == 3 || channels == 4,
                p <= channels,
                spec_block_bytes(*block),
                0 <= cnt <= 16,
                cnt == spec_ls_cnt(mask, 16),
                forall|pp: int| 0 <= pp < 4 ==> 0 <= #[trigger] sums[pp] <= 4080,
                forall|pp: int|
                    0 <= pp < channels ==> #[trigger] sums[pp] == spec_ls_sum(*block, mask, pp, 16),
                forall|i: int| 0 <= i < 8 ==> 0 <= #[trigger] ep[i] <= 255,
                cnt > 0 ==> forall|pp: int|
                    0 <= pp < p ==> #[trigger] ep[pp] == spec_clamp_byte(
                        spec_ls_sum(*block, mask, pp, 16) / spec_ls_cnt(mask, 16),
                    ),
                cnt > 0 ==> forall|pp: int|
                    0 <= pp < p ==> #[trigger] ep[4 + pp] == spec_clamp_byte(
                        spec_ls_sum(*block, mask, pp, 16) / spec_ls_cnt(mask, 16),
                    ),
                cnt == 0 ==> forall|i: int| 0 <= i < 8 ==> #[trigger] ep[i] == 0,
                forall|i: int| p <= i < 4 ==> #[trigger] ep[i] == 0,
                forall|i: int| p <= i < 4 ==> #[trigger] ep[4 + i] == 0,
            decreases channels - p,
        {
            if cnt > 0 {
                proof {
                    vstd::arithmetic::div_mod::lemma_div_pos_is_pos(sums[p as int] as int, cnt as int);
                    vstd::arithmetic::div_mod::lemma_div_is_ordered_by_denominator(
                        sums[p as int] as int,
                        1,
                        cnt as int,
                    );
                    vstd::arithmetic::div_mod::lemma_div_basics_2(sums[p as int] as int);
                }
                let c = crate::optimize::clamp_byte(sums[p] / cnt);
                ep[p] = c;
                ep[4 + p] = c;
            }
            p = p + 1;
        }
        return ep;
    }
    let mut p: usize = 0;
    while p < channels as usize
        invariant
            channels == 3 || channels == 4,
            p <= channels,
            spec_block_bytes(*block),
            det > 0,
            det == spec_ls_det(qblock, mask, bits),
            cxx == spec_ls_cxx(qblock, mask, bits),
            cxy == spec_ls_cxy(qblock, mask, bits),
            cyy == spec_ls_sum_qq(qblock, mask, bits, 16),
            abs(det as int) <= 230_000_000,
            abs(cxx as int) <= 10_800,
            abs(cyy as int) <= 3600,
            abs(cxy as int) <= 7200,
            3 <= lm1 <= 15,
            lm1 == pow2(bits as nat) - 1,
            forall|pp: int| 0 <= pp < 4 ==> 0 <= #[trigger] sums[pp] <= 4080,
            forall|pp: int| 0 <= pp < 4 ==> 0 <= #[trigger] atb1[pp] <= 61_200,
            forall|pp: int|
                0 <= pp < channels ==> #[trigger] sums[pp] == spec_ls_sum(*block, mask, pp, 16),
            forall|pp: int|
                0 <= pp < channels ==> #[trigger] atb1[pp] == spec_ls_atb1(
                    *block,
                    qblock,
                    mask,
                    bits,
                    pp,
                    16,
                ),
            forall|i: int| 0 <= i < 8 ==> 0 <= #[trigger] ep[i] <= 255,
            forall|pp: int|
                0 <= pp < p ==> #[trigger] ep[pp] == spec_ls_ep0(*block, qblock, mask, bits, pp),
            forall|pp: int|
                0 <= pp < p ==> #[trigger] ep[4 + pp] == spec_ls_ep1(*block, qblock, mask, bits, pp),
            forall|i: int| p <= i < 4 ==> #[trigger] ep[i] == 0,
            forall|i: int| p <= i < 4 ==> #[trigger] ep[4 + i] == 0,
        decreases channels - p,
    {
        proof {
            assert(abs((lm1 * sums[p as int]) as int) <= 61_200) by (nonlinear_arith)
                requires
                    3 <= lm1 <= 15,
                    0 <= sums[p as int] <= 4080,
            ;
        }
        let atb2: i64 = lm1 * sums[p] - atb1[p];
        proof {
            assert(abs((atb1[p as int] * cyy) as int) <= 500_000_000 && abs(
                (atb2 * cxy) as int,
            ) <= 1_000_000_000 && abs((atb2 * cxx) as int) <= 2_000_000_000 && abs(
                (atb1[p as int] * cxy) as int,
            ) <= 500_000_000) by (nonlinear_arith)
                requires
                    0 <= atb1[p as int] <= 61_200,
                    abs(atb2 as int) <= 122_400,
                    abs(cxx as int) <= 10_800,
                    abs(cyy as int) <= 3600,
                    abs(cxy as int) <= 7200,
            ;
            assert(forall|u: i64, l: i64|
                abs(u as int) <= 3_000_000_000 && 3 <= l <= 15 ==> abs(#[trigger] (u * l) as int)
                    <= 45_000_000_000) by (nonlinear_arith);
        }
        let num0: i64 = (atb1[p] * cyy - atb2 * cxy) * lm1;
        let num1: i64 = (atb2 * cxx - atb1[p] * cxy) * lm1;
        ep[p] = crate::optimize::clamp_byte(crate::optimize::div_trunc(num0, det));
        ep[4 + p] = crate::optimize::clamp_byte(crate::optimize::div_trunc(num1, det));
        p = p + 1;
    }
    ep
}

/// Largest value, plus one, of a quantized endpoint component per mode,
/// p-bit included.
pub open spec fn spec_qep_max(mode: nat) -> int {
    if mode == 0 {
        32
    } else if mode == 1 {
        128
    } else if mode == 2 {
        32
    } else if mode == 3 {
        256
    } else if mode == 4 {
        32
    } else if mode == 5 {
        128
    } else if mode == 6 {
        256
    } else {
        64
    }
}

/// Quantized endpoint components in range for their mode.
pub open spec fn spec_qep_ok(q: [i32; 8], mode: nat) -> bool {
    forall|i: int| 0 <= i < 8 ==> 0 <= #[trigger] q[i] < spec_qep_max(mode)
}

/// Quantization of one endpoint pair for the modes with one p-bit per
/// endpoint: both p-bit values are tried and the one reconstructing the
/// endpoint more closely is kept.
fn ep_quant0367(ep: &[i32; 8], mode: u32, channels: u32) -> (q: [i32; 8])
    requires
        spec_ep_bytes(*ep),
        mode == 0 || mode == 3 || mode == 6 || mode == 7,
        channels == 3 || channels == 4,
    ensures
        spec_qep_ok(q, mode as nat),
        forall|i: int, p: int| 0 <= i < 2 && 0 <= p < 4 ==> #[trigger] q[i * 4 + p] % 2 == q[i
            * 4] % 2,
{
    let bits: u32 = if mode == 0 {
        4
    } else if mode == 7 {
        5
    } else {
        7
    };
    let levels: i32 = small_pow2(bits) as i32;
    proof {
        lemma2_to64();
    }
    let levels2: i32 = levels * 2 - 1;
    let mut q: [i32; 8] = [0; 8];
    let mut i: usize = 0;
    while i < 2
        invariant
            i <= 2,
            spec_ep_bytes(*ep),
            mode == 0 || mode == 3 || mode == 6 || mode == 7,
            channels == 3 || channels == 4,
            16 <= levels <= 128,
            levels2 == levels * 2 - 1,
            levels == spec_qep_max(mode as nat) / 2,
            forall|j: int| 0 <= j < 8 ==> 0 <= #[trigger] q[j] < 2 * levels,
            forall|i2: int, p2: int|
                0 <= i2 < i && 0 <= p2 < 4 ==> #[trigger] q[i2 * 4 + p2] % 2 == q[i2 * 4] % 2,
        decreases 2 - i,
    {
        let mut qb: [i32; 8] = [0; 8];
        let mut b: usize = 0;
        while b < 2
            invariant
                i < 2,
                b <= 2,
                spec_ep_bytes(*ep),
                mode == 0 || mode == 3 || mode == 6 || mode == 7,
                16 <= levels <= 128,
                levels2 == levels * 2 - 1,
                forall|j: int| 0 <= j < 8 ==> 0 <= #[trigger] qb[j] < 2 * levels,
                forall|j: int| 0 <= j < b * 4 ==> #[trigger] qb[j] % 2 == j / 4,
            decreases 2 - b,
        {
            let mut p: usize = 0;
            while p < 4
                invariant
                    i < 2,
                    b < 2,
                    p <= 4,
                    spec_ep_bytes(*ep),
                    16 <= levels <= 128,
                    levels2 == levels * 2 - 1,
                    forall|j: int| 0 <= j < 8 ==> 0 <= #[trigger] qb[j] < 2 * levels,
                    forall|j: int| 0 <= j < b * 4 + p ==> #[trigger] qb[j] % 2 == j / 4,
                decreases 4 - p,
            {
                // v = round((x * levels2 / 255 - b) / 2) * 2 + b, clamped.
                proof {
                    assert(0 <= ep[i as int * 4 + p as int] * levels2 <= 255 * 255)
                        by (nonlinear_arith)
                        requires
                            0 <= ep[i as int * 4 + p as int] <= 255,
                            0 <= levels2 <= 255,
                    ;
                }
                let t = ep[i * 4 + p] * levels2;
                let num = t + 255 - 255 * (b as i32);
                proof {
                    vstd::arithmetic::div_mod::lemma_div_pos_is_pos(num as int, 510);
                    vstd::arithmetic::div_mod::lemma_div_is_ordered(
                        num as int,
                        255int * 255 + 255,
                        510,
                    );
                }
                let mut v = (num / 510) * 2 + (b as i32);
                proof {
                    assert(((num as int / 510) * 2 + b) % 2 == b) by (nonlinear_arith)
                        requires
                            0 <= b < 2,
                            num as int / 510 >= 0,
                    ;
                }
                if v < b as i32 {
                    v = b as i32;
                }
                if v > levels2 - 1 + b as i32 {
                    v = levels2 - 1 + b as i32;
                }
                proof {
                    // Both clamp rails carry the p-bit's parity.
                    assert(levels2 % 2 == 1) by (nonlinear_arith)
                        requires
                            levels2 == levels * 2 - 1,
                            levels >= 1,
                    ;
                    assert((levels2 - 1 + b) % 2 == b) by (nonlinear_arith)
                        requires
                            levels2 % 2 == 1,
                            0 <= b < 2,
                            levels2 >= 1,
                    ;
                    assert(b as int % 2 == b);
                    assert(v % 2 == b);
                    assert((b * 4 + p) / 4 == b) by {
                        vstd::arithmetic::div_mod::lemma_fundamental_div_mod_converse(
                            b as int * 4 + p as int,
                            4,
                            b as int,
                            p as int,
                        );
                    }
                }
                qb[b * 4 + p] = v;
                p = p + 1;
            }
            b = b + 1;
        }
        // Pick the p-bit whose reconstruction is closer over the channels.
        let mut err0: u64 = 0;
        let mut err1: u64 = 0;
        let mut p2: usize = 0;
        while p2 < channels as usize
            invariant
                i < 2,
                p2 <= 4,
                channels == 3 || channels == 4,
                spec_ep_bytes(*ep),
                mode == 0 || mode == 3 || mode == 6 || mode == 7,
                16 <= levels <= 128,
                levels == spec_qep_max(mode as nat) / 2,
                forall|j: int| 0 <= j < 8 ==> 0 <= #[trigger] qb[j] < 2 * levels,
                err0 <= p2 * 65025,
                err1 <= p2 * 65025,
            decreases channels - p2,
        {
            proof {
                assert(2 * levels == spec_qep_max(mode as nat));
            }
            let d0 = dequant_component(qb[p2], mode);
            let d1 = dequant_component(qb[4 + p2], mode);
            err0 = err0 + sq_diff(ep[i * 4 + p2], d0);
            err1 = err1 + sq_diff(ep[i * 4 + p2], d1);
            p2 = p2 + 1;
        }
        let off = if err0 < err1 {
            0
        } else {
            4
        };
        let mut p3: usize = 0;
        while p3 < 4
            invariant
                i < 2,
                p3 <= 4,
                off == 0 || off == 4,
                16 <= levels <= 128,
                levels == spec_qep_max(mode as nat) / 2,
                mode == 0 || mode == 3 || mode == 6 || mode == 7,
                forall|j: int| 0 <= j < 8 ==> 0 <= #[trigger] qb[j] < 2 * levels,
                forall|j: int| 0 <= j < 8 ==> #[trigger] qb[j] % 2 == j / 4,
                forall|j: int| 0 <= j < 8 ==> 0 <= #[trigger] q[j] < 2 * levels,
                forall|i2: int, p2: int|
                    0 <= i2 < i && 0 <= p2 < 4 ==> #[trigger] q[i2 * 4 + p2] % 2 == q[i2 * 4] % 2,
                forall|p2: int|
                    0 <= p2 < p3 ==> #[trigger] q[i * 4 + p2] % 2 == (off as int / 4) % 2,
            decreases 4 - p3,
        {
            proof {
                assert((off as int + p3 as int) / 4 == off as int / 4) by {
                    vstd::arithmetic::div_mod::lemma_fundamental_div_mod_converse(
                        off as int + p3 as int,
                        4,
                        off as int / 4,
                        p3 as int,
                    );
                }
            }
            q[i * 4 + p3] = qb[off + p3];
            p3 = p3 + 1;
        }
        proof {
            assert(forall|p2: int|
                0 <= p2 < 4 ==> #[trigger] q[i * 4 + p2] % 2 == (off as int / 4) % 2);
            assert forall|i2: int, p2: int|
                0 <= i2 < i + 1 && 0 <= p2 < 4 implies #[trigger] q[i2 * 4 + p2] % 2 == q[i2
                * 4] % 2 by {
                if i2 == i {
                    assert(q[i * 4 + p2] % 2 == (off as int / 4) % 2);
                    assert(q[i * 4 + 0] % 2 == (off as int / 4) % 2);
                    assert(i2 * 4 + p2 == i * 4 + p2 && i2 * 4 == i * 4 + 0);
                }
            }
        }
        i = i + 1;
    }
    q
}

/// The stored depth, p-bit included, at which a mode's quantized endpoint
/// components are expanded back to bytes.
pub open spec fn spec_dequant_bits(mode: nat) -> nat {
    if mode == 3 || mode == 6 {
        8
    } else if mode == 1 || mode == 5 {
        7
    } else if mode == 0 || mode == 2 || mode == 4 {
        5
    } else {
        6
    }
}

/// Reconstruction of one quantized component for its mode's depth: the
/// decoder's most-significant-bit replication at the same depth, so the
/// encoder's error accounting speaks of the bytes the decoder rebuilds.
fn dequant_component(v: i32, mode: u32) -> (r: i32)
    requires
        0 <= v < spec_qep_max(mode as nat),
    ensures
        0 <= r <= 255,
        r as nat == spec_expand(v as nat, spec_dequant_bits(mode as nat)),
{
    proof {
        lemma2_to64();
    }
    if mode == 3 || mode == 6 {
        proof {
            // At the full eight bits the expansion is the identity.
            assert(pow2(0) == 1);
            assert((v as nat) * pow2(0) == v);
            vstd::arithmetic::div_mod::lemma_basic_div(v as int, pow2(8) as int);
        }
        v
    } else if mode == 1 || mode == 5 {
        unpack_to_byte(v, 7)
    } else if mode == 0 || mode == 2 || mode == 4 {
        unpack_to_byte(v, 5)
    } else {
        unpack_to_byte(v, 6)
    }
}

/// Quantization of both endpoint pairs' components for mode 1, which
/// shares one p-bit per endpoint pair.
fn ep_quant1(ep: &[i32; 8]) -> (q: [i32; 8])
    requires
        spec_ep_bytes(*ep),
    ensures
        spec_qep_ok(q, 1),
        forall|i: int| 0 <= i < 8 ==> #[trigger] q[i] % 2 == q[0] % 2,
{
    let mut qb: [i32; 16] = [0; 16];
    let mut b: usize = 0;
    while b < 2
        invariant
            b <= 2,
            spec_ep_bytes(*ep),
            forall|j: int| 0 <= j < 16 ==> 0 <= #[trigger] qb[j] < 128,
            forall|j: int| 0 <= j < b * 8 ==> #[trigger] qb[j] % 2 == j / 8,
        decreases 2 - b,
    {
        let mut i: usize = 0;
        while i < 8
            invariant
                b < 2,
                i <= 8,
                spec_ep_bytes(*ep),
                forall|j: int| 0 <= j < 16 ==> 0 <= #[trigger] qb[j] < 128,
                forall|j: int| 0 <= j < b * 8 + i ==> #[trigger] qb[j] % 2 == j / 8,
            decreases 8 - i,
        {
            proof {
                assert(0 <= ep[i as int] * 127 <= 255 * 127) by (nonlinear_arith)
                    requires
                        0 <= ep[i as int] <= 255,
                ;
            }
            let t = ep[i] * 127;
            let num = t + 255 - 255 * (b as i32);
            proof {
                vstd::arithmetic::div_mod::lemma_div_pos_is_pos(num as int, 510);
                vstd::arithmetic::div_mod::lemma_div_is_ordered(
                    num as int,
                    255int * 127 + 255,
                    510,
                );
            }
            let mut v = (num / 510) * 2 + (b as i32);
            proof {
                assert(((num as int / 510) * 2 + b) % 2 == b) by (nonlinear_arith)
                    requires
                        0 <= b < 2,
                        num as int / 510 >= 0,
                ;
            }
            if v < b as i32 {
                v = b as i32;
            }
            if v > 126 + b as i32 {
                v = 126 + b as i32;
            }
            proof {
                assert(b as int % 2 == b && (126 + b) % 2 == b);
                assert(v % 2 == b);
                assert((b * 8 + i) / 4 >= 0);
                assert((b as int * 8 + i as int) / 8 == b) by {
                    vstd::arithmetic::div_mod::lemma_fundamental_div_mod_converse(
                        b as int * 8 + i as int,
                        8,
                        b as int,
                        i as int,
                    );
                }
            }
            qb[b * 8 + i] = v;
            i = i + 1;
        }
        b = b + 1;
    }
    // Compare the two shared p-bit choices over the color channels.
    let mut err0: u64 = 0;
    let mut err1: u64 = 0;
    let mut j: usize = 0;
    while j < 2
        invariant
            j <= 2,
            spec_ep_bytes(*ep),
            forall|jj: int| 0 <= jj < 16 ==> 0 <= #[trigger] qb[jj] < 128,
            err0 <= j * 3 * 65025,
            err1 <= j * 3 * 65025,
        decreases 2 - j,
    {
        let mut p: usize = 0;
        while p < 3
            invariant
                j < 2,
                p <= 3,
                spec_ep_bytes(*ep),
                forall|jj: int| 0 <= jj < 16 ==> 0 <= #[trigger] qb[jj] < 128,
                err0 <= j * 3 * 65025 + p * 65025,
                err1 <= j * 3 * 65025 + p * 65025,
            decreases 3 - p,
        {
            proof {
                lemma2_to64();
            }
            let d0 = unpack_to_byte(qb[j * 4 + p], 7);
            let d1 = unpack_to_byte(qb[8 + j * 4 + p], 7);
            err0 = err0 + sq_diff(ep[j * 4 + p], d0);
            err1 = err1 + sq_diff(ep[j * 4 + p], d1);
            p = p + 1;
        }
        j = j + 1;
    }
    let off = if err0 < err1 {
        0
    } else {
        8
    };
    let mut q: [i32; 8] = [0; 8];
    let mut i2: usize = 0;
    while i2 < 8
        invariant
            i2 <= 8,
            off == 0 || off == 8,
            forall|jj: int| 0 <= jj < 16 ==> 0 <= #[trigger] qb[jj] < 128,
            forall|jj: int| 0 <= jj < 16 ==> #[trigger] qb[jj] % 2 == jj / 8,
            forall|jj: int| 0 <= jj < 8 ==> 0 <= #[trigger] q[jj] < 128,
            forall|jj: int| 0 <= jj < i2 ==> #[trigger] q[jj] % 2 == (off as int / 8) % 2,
        decreases 8 - i2,
    {
        proof {
            assert((off as int + i2 as int) / 8 == off as int / 8) by {
                vstd::arithmetic::div_mod::lemma_fundamental_div_mod_converse(
                    off as int + i2 as int,
                    8,
                    off as int / 8,
                    i2 as int,
                );
            }
        }
        q[i2] = qb[off + i2];
        i2 = i2 + 1;
    }
    q
}

/// Rounding quantization of both endpoints for the modes without p-bits.
fn ep_quant245(ep: &[i32; 8], mode: u32) -> (q: [i32; 8])
    requires
        spec_ep_bytes(*ep),
        mode == 2 || mode == 4 || mode == 5,
    ensures
        spec_qep_ok(q, mode as nat),
{
    let bits: u32 = if mode == 5 {
        7
    } else {
        5
    };
    let levels: i32 = small_pow2(bits) as i32;
    proof {
        lemma2_to64();
    }
    let mut q: [i32; 8] = [0; 8];
    let mut i: usize = 0;
    while i < 8
        invariant
            i <= 8,
            spec_ep_bytes(*ep),
            mode == 2 || mode == 4 || mode == 5,
            levels == spec_qep_max(mode as nat),
            32 <= levels <= 128,
            forall|j: int| 0 <= j < 8 ==> 0 <= #[trigger] q[j] < levels,
        decreases 8 - i,
    {
        q[i] = quant_rounded(ep[i], levels);
        i = i + 1;
    }
    q
}

/// Quantizes one endpoint pair to its mode's depths and reconstructs the
/// stored values, returning both.
fn ep_quant_dequant(ep: &[i32; 8], mode: u32, channels: u32) -> (r: ([i32; 8], [i32; 8]))
    requires
        spec_ep_bytes(*ep),
        mode < 8,
        channels == 3 || channels == 4,
    ensures
        spec_qep_ok(r.0, mode as nat),
        spec_ep_bytes(r.1),
        forall|i: int|
            0 <= i < 8 ==> #[trigger] r.1[i] as nat == spec_expand(
                r.0[i] as nat,
                spec_dequant_bits(mode as nat),
            ),
        spec_has_pbits(mode as nat) ==> forall|i: int, p: int|
            0 <= i < 2 && 0 <= p < 4 ==> #[trigger] r.0[i * 4 + p] % 2 == r.0[i * 4] % 2,
        mode == 1 ==> forall|i: int| 0 <= i < 8 ==> #[trigger] r.0[i] % 2 == r.0[0] % 2,
{
    let q: [i32; 8] = if mode == 0 || mode == 3 || mode == 6 || mode == 7 {
        ep_quant0367(ep, mode, channels)
    } else if mode == 1 {
        ep_quant1(ep)
    } else {
        ep_quant245(ep, mode)
    };
    let mut d: [i32; 8] = [0; 8];
    let mut i: usize = 0;
    while i < 8
        invariant
            i <= 8,
            mode < 8,
            spec_qep_ok(q, mode as nat),
            forall|j: int| 0 <= j < 8 ==> 0 <= #[trigger] d[j] <= 255,
            forall|j: int|
                0 <= j < i ==> #[trigger] d[j] as nat == spec_expand(
                    q[j] as nat,
                    spec_dequant_bits(mode as nat),
                ),
        decreases 8 - i,
    {
        d[i] = dequant_component(q[i], mode);
        i = i + 1;
    }
    (q, d)
}


/// Reconstruction error of scalar texel `k` under index `q`.
pub open spec fn spec_channel_index_err(
    channel: [i32; 16],
    d0: int,
    d1: int,
    bits: u32,
    q: int,
    k: int,
) -> int {
    spec_sq_diff(
        spec_interpolate(d0 as nat, d1 as nat, spec_unquant_value(bits, q) as int) as int,
        channel[k] as int,
    )
}

/// The least reconstruction error of scalar texel `k` over the indices
/// below `levels`.
pub open spec fn spec_channel_best_err(
    channel: [i32; 16],
    d0: int,
    d1: int,
    bits: u32,
    levels: int,
    k: int,
) -> int
    decreases levels,
{
    if levels <= 1 {
        spec_channel_index_err(channel, d0, d1, bits, 0, k)
    } else {
        let rest = spec_channel_best_err(channel, d0, d1, bits, levels - 1, k);
        let this = spec_channel_index_err(channel, d0, d1, bits, levels - 1, k);
        if this < rest {
            this
        } else {
            rest
        }
    }
}

/// Total least reconstruction error of the scalar texels below `k`.
pub open spec fn spec_channel_quant_err(
    channel: [i32; 16],
    d0: int,
    d1: int,
    bits: u32,
    k: int,
) -> int
    decreases k,
{
    if k <= 0 {
        0
    } else {
        spec_channel_quant_err(channel, d0, d1, bits, k - 1) + spec_channel_best_err(
            channel,
            d0,
            d1,
            bits,
            pow2(bits as nat) as int,
            k - 1,
        )
    }
}

/// Exhaustive nearest-index assignment of a single scalar channel.
fn channel_opt_quant(channel: &[i32; 16], bits: u32, d0: i32, d1: i32) -> (r: ([u32; 2], u64))
    requires
        forall|i: int| 0 <= i < 16 ==> 0 <= #[trigger] channel[i] <= 255,
        2 <= bits <= 3,
        0 <= d0 <= 255,
        0 <= d1 <= 255,
    ensures
        r.1 <= 1_040_400,
        r.1 == spec_channel_quant_err(*channel, d0 as int, d1 as int, bits, 16),
{
    let levels: u32 = small_pow2(bits);
    proof {
        lemma2_to64();
    }
    let mut qblock: [u32; 2] = [0; 2];
    let mut total_err: u64 = 0;
    let mut k: usize = 0;
    while k < 16
        invariant
            k <= 16,
            forall|i: int| 0 <= i < 16 ==> 0 <= #[trigger] channel[i] <= 255,
            2 <= bits <= 3,
            4 <= levels <= 8,
            levels == pow2(bits as nat),
            0 <= d0 <= 255,
            0 <= d1 <= 255,
            total_err <= k * 65025,
            total_err == spec_channel_quant_err(*channel, d0 as int, d1 as int, bits, k as int),
        decreases 16 - k,
    {
        let mut best_err: u64 = 0xFFFF_FFFF_FFFF_FFFF;
        let mut best_q: u32 = 0;
        let mut q: u32 = 0;
        while q < levels
            invariant
                k < 16,
                q <= levels,
                4 <= levels <= 8,
                2 <= bits <= 3,
                levels == pow2(bits as nat),
                forall|i: int| 0 <= i < 16 ==> 0 <= #[trigger] channel[i] <= 255,
                0 <= d0 <= 255,
                0 <= d1 <= 255,
                best_q < levels,
                q == 0 ==> best_err == 0xFFFF_FFFF_FFFF_FFFF,
                q > 0 ==> best_err <= 65025,
                q > 0 ==> best_err == spec_channel_best_err(
                    *channel,
                    d0 as int,
                    d1 as int,
                    bits,
                    q as int,
                    k as int,
                ),
            decreases levels - q,
        {
            let w = get_unquant_value(bits, q as i32);
            let dec = interp_i32(d0, d1, w);
            let e = sq_diff(dec, channel[k]);
            let ghost q_old = q;
            if e < best_err {
                best_err = e;
                best_q = q;
            }
            proof {
                if q_old == 0 {
                    assert(best_err == spec_channel_best_err(
                        *channel,
                        d0 as int,
                        d1 as int,
                        bits,
                        1,
                        k as int,
                    ));
                } else {
                    assert(best_err == spec_channel_best_err(
                        *channel,
                        d0 as int,
                        d1 as int,
                        bits,
                        q_old as int + 1,
                        k as int,
                    ));
                }
            }
            q = q + 1;
        }
        let sh: u32 = (k % 8) as u32 * 4;
        proof {
            assert(best_q << sh <= 0xF000_0000) by (bit_vector)
                requires
                    best_q < 16,
                    sh <= 28,
            ;
        }
        let slot = k / 8;
        qblock[slot] = qblock[slot] | (best_q << sh);
        total_err = total_err + best_err;
        k = k + 1;
    }
    (qblock, total_err)
}

/// Sum of the stored indices of all sixteen scalar texels below `k`.
pub open spec fn spec_cls_sum_q(qblock: [u32; 2], bits: u32, k: int) -> int
    decreases k,
{
    if k <= 0 {
        0
    } else {
        spec_cls_sum_q(qblock, bits, k - 1) + spec_stored_index(qblock, bits, k - 1)
    }
}

/// Sum of the squared stored indices below `k`.
pub open spec fn spec_cls_sum_qq(qblock: [u32; 2], bits: u32, k: int) -> int
    decreases k,
{
    if k <= 0 {
        0
    } else {
        spec_cls_sum_qq(qblock, bits, k - 1) + spec_stored_index(qblock, bits, k - 1)
            * spec_stored_index(qblock, bits, k - 1)
    }
}

/// Sum of the scalar channel below `k`.
pub open spec fn spec_cls_sum(channel: [i32; 16], k: int) -> int
    decreases k,
{
    if k <= 0 {
        0
    } else {
        spec_cls_sum(channel, k - 1) + channel[k - 1] as int
    }
}

/// Sum of the channel weighted by the distance of each stored index from
/// the top of the index range, below `k`.
pub open spec fn spec_cls_atb1(channel: [i32; 16], qblock: [u32; 2], bits: u32, k: int) -> int
    decreases k,
{
    if k <= 0 {
        0
    } else {
        spec_cls_atb1(channel, qblock, bits, k - 1) + (pow2(bits as nat) - 1 - spec_stored_index(
            qblock,
            bits,
            k - 1,
        )) * (channel[k - 1] as int)
    }
}

/// The scalar system's first coefficient.
pub open spec fn spec_cls_cxx(qblock: [u32; 2], bits: u32) -> int {
    let lm1 = pow2(bits as nat) - 1;
    16 * (lm1 * lm1) - 2 * (lm1 * spec_cls_sum_q(qblock, bits, 16)) + spec_cls_sum_qq(
        qblock,
        bits,
        16,
    )
}

/// The scalar system's mixed coefficient.
pub open spec fn spec_cls_cxy(qblock: [u32; 2], bits: u32) -> int {
    (pow2(bits as nat) - 1) * spec_cls_sum_q(qblock, bits, 16) - spec_cls_sum_qq(qblock, bits, 16)
}

/// The scalar system's determinant.
pub open spec fn spec_cls_det(qblock: [u32; 2], bits: u32) -> int {
    spec_cls_cxx(qblock, bits) * spec_cls_sum_qq(qblock, bits, 16) - spec_cls_cxy(qblock, bits)
        * spec_cls_cxy(qblock, bits)
}

/// The first scalar endpoint the system solves for, clamped.
pub open spec fn spec_cls_ep0(channel: [i32; 16], qblock: [u32; 2], bits: u32) -> int {
    let lm1 = pow2(bits as nat) - 1;
    let atb1 = spec_cls_atb1(channel, qblock, bits, 16);
    let atb2 = lm1 * spec_cls_sum(channel, 16) - atb1;
    let cyy = spec_cls_sum_qq(qblock, bits, 16);
    let cxy = spec_cls_cxy(qblock, bits);
    spec_clamp_byte(spec_div_trunc((atb1 * cyy - atb2 * cxy) * lm1, spec_cls_det(qblock, bits)))
}

/// The second scalar endpoint the system solves for, clamped.
pub open spec fn spec_cls_ep1(channel: [i32; 16], qblock: [u32; 2], bits: u32) -> int {
    let lm1 = pow2(bits as nat) - 1;
    let atb1 = spec_cls_atb1(channel, qblock, bits, 16);
    let atb2 = lm1 * spec_cls_sum(channel, 16) - atb1;
    let cxx = spec_cls_cxx(qblock, bits);
    let cxy = spec_cls_cxy(qblock, bits);
    spec_clamp_byte(spec_div_trunc((atb2 * cxx - atb1 * cxy) * lm1, spec_cls_det(qblock, bits)))
}

/// Least-squares refinement of a scalar channel's endpoint pair for a
/// fixed index assignment; a singular system flattens to the mean.
fn channel_opt_endpoints(channel: &[i32; 16], bits: u32, qblock: [u32; 2]) -> (r: (i32, i32))
    requires
        forall|i: int| 0 <= i < 16 ==> 0 <= #[trigger] channel[i] <= 255,
        2 <= bits <= 3,
    ensures
        0 <= r.0 <= 255,
        0 <= r.1 <= 255,
        spec_cls_det(qblock, bits) > 0 ==> r.0 == spec_cls_ep0(*channel, qblock, bits) && r.1
            == spec_cls_ep1(*channel, qblock, bits),
        spec_cls_det(qblock, bits) <= 0 ==> r.0 == spec_clamp_byte(
            spec_cls_sum(*channel, 16) / 16,
        ) && r.1 == spec_clamp_byte(spec_cls_sum(*channel, 16) / 16),
{
    let levels: i64 = small_pow2(bits) as i64;
    proof {
        lemma2_to64();
    }
    let lm1: i64 = levels - 1;
    let mut atb1: i64 = 0;
    let mut sum_q: i64 = 0;
    let mut sum_qq: i64 = 0;
    let mut sum: i64 = 0;
    let mut k: usize = 0;
    while k < 16
        invariant
            k <= 16,
            forall|i: int| 0 <= i < 16 ==> 0 <= #[trigger] channel[i] <= 255,
            2 <= bits <= 3,
            4 <= levels <= 8,
            levels == pow2(bits as nat),
            lm1 == levels - 1,
            lm1 == 3 || lm1 == 7,
            0 <= sum_q <= k * 15,
            0 <= sum_qq <= k * 225,
            0 <= sum <= k * 255,
            0 <= atb1 <= k * 3825,
            sum_q == spec_cls_sum_q(qblock, bits, k as int),
            sum_qq == spec_cls_sum_qq(qblock, bits, k as int),
            sum == spec_cls_sum(*channel, k as int),
            atb1 == spec_cls_atb1(*channel, qblock, bits, k as int),
        decreases 16 - k,
    {
        let word = qblock[k / 8];
        let sh: u32 = (k % 8) as u32 * 4;
        let nib = (word >> sh) & 15;
        let lmu: u32 = lm1 as u32;
        let qn: u32 = nib & lmu;
        proof {
            assert(((word >> sh) & 15) < 16 && (nib & lmu) <= lmu) by (bit_vector)
                requires
                    nib == (word >> sh) & 15,
                    lmu < 16,
            ;
            assert(nib as int == spec_qblock_index(qblock, k as int));
            assert((nib & lmu) == nib % ((lmu + 1) as u32)) by (bit_vector)
                requires
                    lmu == 3 || lmu == 7,
                    nib < 16,
            ;
            assert(qn as int == spec_stored_index(qblock, bits, k as int));
        }
        let q: i64 = qn as i64;
        let x: i64 = lm1 - q;
        sum_q = sum_q + q;
        proof {
            assert(0 <= q * q <= 225 && 0 <= x * channel[k as int] <= 3825) by (nonlinear_arith)
                requires
                    0 <= q <= 15,
                    0 <= x <= 15,
                    0 <= channel[k as int] <= 255,
            ;
        }
        sum_qq = sum_qq + q * q;
        sum = sum + (channel[k] as i64);
        atb1 = atb1 + x * (channel[k] as i64);
        k = k + 1;
    }
    proof {
        assert(0 <= 16 * (lm1 * lm1) <= 3600 && 0 <= lm1 * sum_q <= 3600 && abs(
            (lm1 * sum) as int,
        ) <= 61_200) by (nonlinear_arith)
            requires
                3 <= lm1 <= 7,
                0 <= sum_q <= 240,
                0 <= sum <= 4080,
        ;
        assert(0 <= lm1 * lm1 <= 225) by (nonlinear_arith)
            requires
                3 <= lm1 <= 7,
        ;
    }
    let atb2: i64 = lm1 * sum - atb1;
    let cxx: i64 = 16 * (lm1 * lm1) - 2 * (lm1 * sum_q) + sum_qq;
    let cyy: i64 = sum_qq;
    let cxy: i64 = lm1 * sum_q - sum_qq;
    proof {
        assert(abs((cxx * cyy) as int) <= 114_062_500 && abs((cxy * cxy) as int) <= 114_062_500)
            by (nonlinear_arith)
            requires
                abs(cxx as int) <= 10_800,
                abs(cyy as int) <= 3600,
                abs(cxy as int) <= 7200,
        ;
    }
    let det: i64 = cxx * cyy - cxy * cxy;
    proof {
        assert(cxx == spec_cls_cxx(qblock, bits));
        assert(cxy == spec_cls_cxy(qblock, bits));
        assert(det == spec_cls_det(qblock, bits));
    }
    if det <= 0 {
        proof {
            vstd::arithmetic::div_mod::lemma_div_pos_is_pos(sum as int, 16);
            vstd::arithmetic::div_mod::lemma_div_is_ordered(sum as int, 4080, 16);
        }
        let c = crate::optimize::clamp_byte(sum / 16);
        return (c, c);
    }
    proof {
        assert(abs((atb1 * cyy) as int) <= 500_000_000 && abs((atb2 * cxy) as int)
            <= 1_000_000_000 && abs((atb2 * cxx) as int) <= 2_000_000_000 && abs(
            (atb1 * cxy) as int,
        ) <= 500_000_000) by (nonlinear_arith)
            requires
                0 <= atb1 <= 61_200,
                abs(atb2 as int) <= 122_400,
                abs(cxx as int) <= 10_800,
                abs(cyy as int) <= 3600,
                abs(cxy as int) <= 7200,
        ;
        assert(forall|u: i64, l: i64|
            abs(u as int) <= 3_000_000_000 && 3 <= l <= 7 ==> abs(#[trigger] (u * l) as int)
                <= 21_000_000_000) by (nonlinear_arith);
    }
    let num0: i64 = (atb1 * cyy - atb2 * cxy) * lm1;
    let num1: i64 = (atb2 * cxx - atb1 * cxy) * lm1;
    let e0 = crate::optimize::clamp_byte(crate::optimize::div_trunc(num0, det));
    let e1 = crate::optimize::clamp_byte(crate::optimize::div_trunc(num1, det));
    (e0, e1)
}

/// Optimizes the independently-indexed scalar channel of the dual-index
/// modes: range endpoints, then as many keep-best refinement rounds as the
/// settings ask for.
fn opt_channel(
    channel: &[i32; 16],
    bits: u32,
    epbits: u32,
    refine_iterations: u32,
) -> (r: ([u32; 2], [i32; 2], u64))
    requires
        forall|i: int| 0 <= i < 16 ==> 0 <= #[trigger] channel[i] <= 255,
        2 <= bits <= 3,
        6 <= epbits <= 8,
    ensures
        r.2 <= 1_040_400,
        0 <= r.1[0] < pow2(epbits as nat),
        0 <= r.1[1] < pow2(epbits as nat),
{
    proof {
        lemma2_to64();
    }
    let mut lo: i32 = 255;
    let mut hi: i32 = 0;
    let mut k: usize = 0;
    while k < 16
        invariant
            k <= 16,
            forall|i: int| 0 <= i < 16 ==> 0 <= #[trigger] channel[i] <= 255,
            0 <= lo <= 255,
            0 <= hi <= 255,
        decreases 16 - k,
    {
        if channel[k] < lo {
            lo = channel[k];
        }
        if channel[k] > hi {
            hi = channel[k];
        }
        k = k + 1;
    }
    let elevels: i32 = small_pow2(epbits) as i32;
    let mut q0 = quant_rounded(lo, elevels);
    let mut q1 = quant_rounded(hi, elevels);
    let mut d0 = unpack_to_byte(q0, epbits);
    let mut d1 = unpack_to_byte(q1, epbits);
    let (mut qblock, mut err) = channel_opt_quant(channel, bits, d0, d1);
    let mut it: u32 = 0;
    while it < refine_iterations
        invariant
            forall|i: int| 0 <= i < 16 ==> 0 <= #[trigger] channel[i] <= 255,
            2 <= bits <= 3,
            6 <= epbits <= 8,
            2 <= elevels == pow2(epbits as nat) <= 256,
            err <= 1_040_400,
            0 <= q0 < elevels,
            0 <= q1 < elevels,
        decreases refine_iterations - it,
    {
        let (e0, e1) = channel_opt_endpoints(channel, bits, qblock);
        let nq0 = quant_rounded(e0, elevels);
        let nq1 = quant_rounded(e1, elevels);
        let nd0 = unpack_to_byte(nq0, epbits);
        let nd1 = unpack_to_byte(nq1, epbits);
        let (nqb, nerr) = channel_opt_quant(channel, bits, nd0, nd1);
        if nerr < err {
            err = nerr;
            qblock = nqb;
            q0 = nq0;
            q1 = nq1;
        }
        it = it + 1;
    }
    (qblock, [q0, q1], err)
}


/// Writes the low `bits` bits of `v` into the stream, masking any higher
/// bits away first.
fn put_masked(data: &mut [u32; 5], pos: &mut u32, bits: u32, v: u32)
    requires
        1 <= bits <= 31,
        *old(pos) + bits <= 160,
        data_val(*old(data)) < pow2(*old(pos) as nat),
    ensures
        *final(pos) == *old(pos) + bits,
        data_val(*final(data)) < pow2(*final(pos) as nat),
{
    proof {
        crate::bits::lemma_u32_shift_is_pow2(bits);
        vstd::arithmetic::power2::lemma_pow2_pos(bits as nat);
    }
    let m = (1u32 << bits) - 1;
    proof {
        assert((v & m) <= m) by (bit_vector);
    }
    put_bits(data, pos, bits, v & m);
}

/// The index value written for texel `k`: the stored nibble clamped to the
/// index width, inverted when the texel's flip bit is set, and the anchor
/// texel's value further clamped to its one-short width.
pub open spec fn spec_coded_index(qblock: [u32; 2], bits: u32, flips: u32, k: int) -> int {
    let stored = spec_stored_index(qblock, bits, k);
    let coded = if ((flips >> (k as u32)) & 1) == 1 {
        pow2(bits as nat) - 1 - stored
    } else {
        stored
    };
    if k == 0 {
        coded % pow2((bits - 1) as nat) as int
    } else {
        coded
    }
}

/// Offset of texel `k`'s index field behind the index area's base: the
/// anchor texel's field is one bit short.
pub open spec fn spec_coded_offset(bits: u32, k: int) -> int {
    if k <= 0 {
        0
    } else {
        k * bits - 1
    }
}

/// The number laid down by the coded index fields of the texels below `k`.
pub open spec fn spec_coded_val(qblock: [u32; 2], bits: u32, flips: u32, k: int) -> nat
    decreases k,
{
    if k <= 0 {
        0
    } else {
        (spec_coded_val(qblock, bits, flips, k - 1) + spec_coded_index(qblock, bits, flips, k - 1)
            * pow2(spec_coded_offset(bits, k - 1) as nat)) as nat
    }
}

/// Packs the sixteen per-texel indices, the first one with its implicit
/// top bit dropped, inverting the indices of the flipped subsets.
pub fn bc7_code_qblock(data: &mut [u32; 5], qpos: &mut u32, qblock: [u32; 2], bits: u32, flips: u32)
    requires
        2 <= bits <= 4,
        *old(qpos) + 16 * bits <= 160,
        data_val(*old(data)) < pow2(*old(qpos) as nat),
    ensures
        *final(qpos) == *old(qpos) + 16 * bits - 1,
        data_val(*final(data)) < pow2(*final(qpos) as nat),
        data_val(*final(data)) == data_val(*old(data)) + spec_coded_val(qblock, bits, flips, 16)
            * pow2(*old(qpos) as nat),
{
    let levels: u32 = small_pow2(bits);
    proof {
        lemma2_to64();
        assert(pow2(0) == 1);
    }
    let ghost p0 = *qpos as nat;
    let ghost v0 = data_val(*data);
    let mut flips_shifted = flips;
    proof {
        assert(flips >> 0u32 == flips) by (bit_vector);
        assert(spec_coded_val(qblock, bits, flips, 0) == 0);
        assert(spec_coded_offset(bits, 0) == 0);
        assert(v0 + 0 * pow2(p0) == v0);
    }
    let mut k: usize = 0;
    while k < 16
        invariant
            k <= 16,
            2 <= bits <= 4,
            4 <= levels <= 16,
            levels == pow2(bits as nat),
            levels == 4 || levels == 8 || levels == 16,
            p0 + 16 * bits <= 160,
            flips_shifted == flips >> (k as u32),
            k == 0 ==> *qpos == p0,
            k > 0 ==> *qpos == p0 + k * bits - 1,
            *qpos as nat == p0 + spec_coded_offset(bits, k as int),
            data_val(*data) < pow2(*qpos as nat),
            data_val(*data) == v0 + spec_coded_val(qblock, bits, flips, k as int) * pow2(p0),
        decreases 16 - k,
    {
        let word = qblock[k / 8];
        let sh: u32 = (k % 8) as u32 * 4;
        let nib = (word >> sh) & 15;
        let masked = nib & (levels - 1);
        proof {
            assert(((word >> sh) & 15) < 16) by (bit_vector);
            assert((nib & ((levels - 1) as u32)) <= (levels - 1) as u32) by (bit_vector)
                requires
                    levels >= 1,
            ;
            assert(nib as int == spec_qblock_index(qblock, k as int));
            assert((nib & ((levels - 1) as u32)) == nib % levels) by (bit_vector)
                requires
                    levels == 4 || levels == 8 || levels == 16,
                    nib < 16,
            ;
            assert(masked as int == spec_stored_index(qblock, bits, k as int));
            assert(((flips >> (k as u32)) & 1) == (flips_shifted & 1)) by (bit_vector)
                requires
                    flips_shifted == flips >> (k as u32),
            ;
        }
        let q = if flips_shifted & 1 == 1 {
            (levels - 1) - masked
        } else {
            masked
        };
        proof {
            assert(q <= levels - 1);
            assert((k as int + 1) * bits == k as int * bits + bits) by (nonlinear_arith);
            assert((k as int + 1) * bits <= 16 * bits) by (nonlinear_arith)
                requires
                    0 <= k + 1 <= 16,
                    0 <= bits,
            ;
        }
        let ghost val_before = data_val(*data);
        if k == 0 {
            // The anchor index's top bit is implicit.
            proof {
                crate::bits::lemma_u32_shift_is_pow2((bits - 1) as u32);
                vstd::arithmetic::power2::lemma_pow2_pos((bits - 1) as nat);
                vstd::arithmetic::power2::lemma_pow2_strictly_increases(
                    (bits - 1) as nat,
                    bits as nat,
                );
                lemma2_to64();
            }
            let hm = (1u32 << (bits - 1)) - 1;
            let qa = q & hm;
            proof {
                assert((q & hm) <= hm) by (bit_vector);
                assert((q & hm) == q % ((hm + 1) as u32)) by (bit_vector)
                    requires
                        hm == 1 || hm == 3 || hm == 7,
                        q < 16,
                ;
                assert((hm + 1) as nat == pow2((bits - 1) as nat));
                assert(masked as int == spec_stored_index(qblock, bits, 0));
                assert(q as int == (if ((flips >> 0u32) & 1) == 1 {
                    pow2(bits as nat) - 1 - spec_stored_index(qblock, bits, 0)
                } else {
                    spec_stored_index(qblock, bits, 0)
                }));
                assert(qa as int == (q as int) % (pow2((bits - 1) as nat) as int));
                assert(qa as int == spec_coded_index(qblock, bits, flips, 0));
            }
            let ghost pos_before = *qpos as nat;
            put_bits(data, qpos, bits - 1, qa);
            proof {
                assert(data_val(*data) == v0 + spec_coded_val(qblock, bits, flips, 1) * pow2(
                    p0,
                )) by {
                    assert(0 * pow2(p0) == 0) by (nonlinear_arith);
                    assert(val_before == v0);
                    assert(data_val(*data) == val_before + qa as nat * pow2(p0));
                    assert(spec_coded_index(qblock, bits, flips, 0) * pow2(0)
                        == spec_coded_index(qblock, bits, flips, 0)) by (nonlinear_arith)
                        requires
                            pow2(0) == 1,
                    ;
                    assert(spec_coded_val(qblock, bits, flips, 1) == spec_coded_index(
                        qblock,
                        bits,
                        flips,
                        0,
                    ) * pow2(0));
                }
            }
        } else {
            proof {
                assert(q <= levels - 1);
                assert((q as nat) < pow2(bits as nat));
                assert(q as int == spec_coded_index(qblock, bits, flips, k as int));
            }
            let ghost pos_before = *qpos as nat;
            put_bits(data, qpos, bits, q);
            proof {
                let off: nat = spec_coded_offset(bits, k as int) as nat;
                assert(k * bits >= 1) by (nonlinear_arith)
                    requires
                        k >= 1,
                        bits >= 1,
                ;
                assert(spec_coded_offset(bits, k as int) == k * bits - 1);
                assert(pos_before == p0 + k * bits - 1);
                assert(pos_before == p0 + off);
                assert(data_val(*data) == val_before + q as nat * pow2(pos_before));
                assert(data_val(*data) == val_before + q as nat * pow2(p0 + off));
                vstd::arithmetic::power2::lemma_pow2_adds(p0, off);
                vstd::arithmetic::mul::lemma_mul_is_associative(
                    q as int,
                    pow2(off) as int,
                    pow2(p0) as int,
                );
                assert(q as nat * pow2(p0 + off) == (q as nat * pow2(off)) * pow2(p0));
                vstd::arithmetic::mul::lemma_mul_is_distributive_add_other_way(
                    pow2(p0) as int,
                    spec_coded_val(qblock, bits, flips, k as int) as int,
                    (q as nat * pow2(off)) as int,
                );
                assert(data_val(*data) == v0 + spec_coded_val(qblock, bits, flips, k as int + 1)
                    * pow2(p0));
            }
        }
        proof {
            assert((flips >> (k as u32)) >> 1 == flips >> ((k + 1) as u32)) by (bit_vector)
                requires
                    k < 16,
            ;
        }
        flips_shifted = flips_shifted >> 1;
        k = k + 1;
    }
}

/// Where entry `i` of a swapped channel group comes from: the opposite
/// endpoint's entry inside the group, itself past it.
pub open spec fn spec_swap_index(i: int, channels: int) -> int {
    if i < channels {
        channels + i
    } else if i < 2 * channels {
        i - channels
    } else {
        i
    }
}

/// Swaps the two endpoints of a channel group: entry `p` with entry
/// `channels + p` for every channel `p`.
fn swap_halves(qep: &mut [i32; 8], channels: u32)
    requires
        channels == 1 || channels == 4,
        forall|i: int| 0 <= i < 8 ==> 0 <= #[trigger] old(qep)[i] <= 255,
    ensures
        forall|i: int| 0 <= i < 8 ==> 0 <= #[trigger] final(qep)[i] <= 255,
        forall|i: int|
            0 <= i < 8 ==> #[trigger] final(qep)[i] == old(qep)[spec_swap_index(
                i,
                channels as int,
            )],
{
    if channels == 1 {
        let a = qep[0];
        let b = qep[1];
        qep[0] = b;
        qep[1] = a;
    } else {
        let a0 = qep[0];
        let a1 = qep[1];
        let a2 = qep[2];
        let a3 = qep[3];
        let b0 = qep[4];
        let b1 = qep[5];
        let b2 = qep[6];
        let b3 = qep[7];
        qep[0] = b0;
        qep[1] = b1;
        qep[2] = b2;
        qep[3] = b3;
        qep[4] = a0;
        qep[5] = a1;
        qep[6] = a2;
        qep[7] = a3;
    }
}

/// The anchor texel of subset `j` of a partition: texel 0 for subset 0,
/// the packed table entry otherwise.
pub open spec fn spec_anchor_texel(part_id: int, j: int) -> int {
    let packed = spec_skip_packed(part_id);
    if j == 1 {
        (packed >> 4u32) as int
    } else if j == 2 {
        (packed & 15) as int
    } else {
        0
    }
}

/// Whether subset `j` must flip: its anchor texel's stored index has the
/// top bit of the mode's index width set.
pub open spec fn spec_anchor_flip(qblock: [u32; 2], part_id: int, j: int, mode: u32) -> bool {
    (spec_qblock_index(qblock, spec_anchor_texel(part_id, j)) as nat) >= pow2(
        (spec_index_bits(mode as nat) - 1) as nat,
    )
}

/// The mask of texels whose indices the caller must invert: the union of
/// the flipped subsets' pattern masks.
pub open spec fn spec_flips_value(qblock: [u32; 2], part_id: int, mode: u32, j: int) -> u32
    decreases j,
{
    if j <= 0 {
        0u32
    } else {
        spec_flips_value(qblock, part_id, mode, j - 1) | (if spec_anchor_flip(
            qblock,
            part_id,
            j - 1,
            mode,
        ) {
            spec_pattern_mask(part_id, (j - 1) as u32)
        } else {
            0u32
        })
    }
}

/// One bit deleted from a stream value at offset `f - 1`, for the offsets
/// the adjustment can reach; other offsets leave the value unchanged.
pub open spec fn spec_delete_bit(v: nat, f: int) -> nat {
    if 65 <= f < 128 && f != 96 {
        v % pow2((f - 1) as nat) + (v / pow2(f as nat)) * pow2((f - 1) as nat)
    } else {
        v
    }
}

/// The stream offset holding the implicit top bit of subset `j`'s anchor
/// index, counted from the unadjusted 128-bit layout.
pub open spec fn spec_skip_offset(mode: u32, k: int) -> int {
    let pairs = spec_num_partitions(mode as nat) as int;
    let bits = spec_index_bits(mode as nat) as int;
    128 + (pairs - 1) - (15 - k) * bits
}

/// The packed words after the implicit anchor bits are dropped: one
/// deletion for a two-subset mode, two in descending anchor order for a
/// three-subset mode.
pub open spec fn spec_adjusted_val(v: nat, mode: u32, part_id: int) -> nat {
    let a1 = spec_anchor_texel(part_id, 1);
    let a2 = spec_anchor_texel(part_id, 2);
    if spec_num_partitions(mode as nat) == 2 {
        spec_delete_bit(v, spec_skip_offset(mode, a1))
    } else {
        let hi = if a1 < a2 {
            a2
        } else {
            a1
        };
        let lo = if a1 < a2 {
            a1
        } else {
            a2
        };
        spec_delete_bit(spec_delete_bit(v, spec_skip_offset(mode, hi)), spec_skip_offset(mode, lo))
    }
}

/// Drops the implicit top bit of each non-anchor subset's stored anchor
/// index by deleting its bit position from the stream.
pub fn bc7_code_adjust_skip_mode01237(data: &mut [u32; 5], mode: u32, part_id: i32)
    requires
        mode == 0 || mode == 1 || mode == 2 || mode == 3 || mode == 7,
        0 <= part_id < 128,
    ensures
        data_val(*final(data)) == spec_adjusted_val(data_val(*old(data)), mode, part_id as int),
{
    let pairs: u32 = if mode == 0 || mode == 2 {
        3
    } else {
        2
    };
    let bits: usize = if mode == 0 || mode == 1 {
        3
    } else {
        2
    };
    let skips = get_skips(part_id);
    let k1 = skips[1] as usize;
    let k2 = skips[2] as usize;
    if pairs == 2 {
        let from = 128 + 1 - (15 - k1) * bits;
        proof {
            assert((15 - k1 as int) * bits <= 45) by (nonlinear_arith)
                requires
                    0 <= k1 <= 15,
                    2 <= bits <= 3,
            ;
            assert(from as int == spec_skip_offset(mode, k1 as int));
        }
        if from >= 65 && from != 96 {
            data_shl_1bit_from(data, from);
        }
    } else {
        // Descending anchor order, so the second deletion's offset is not
        // shifted by the first.
        let hi = if k1 < k2 {
            k2
        } else {
            k1
        };
        let lo = if k1 < k2 {
            k1
        } else {
            k2
        };
        proof {
            assert((15 - hi as int) * bits <= 45 && (15 - lo as int) * bits <= 45)
                by (nonlinear_arith)
                requires
                    0 <= hi <= 15,
                    0 <= lo <= 15,
                    2 <= bits <= 3,
            ;
        }
        let from_hi = 128 + 2 - (15 - hi) * bits;
        let from_lo = 128 + 2 - (15 - lo) * bits;
        proof {
            assert(from_hi as int == spec_skip_offset(mode, hi as int));
            assert(from_lo as int == spec_skip_offset(mode, lo as int));
        }
        if from_hi >= 65 && from_hi != 96 {
            data_shl_1bit_from(data, from_hi);
        }
        if from_lo >= 65 && from_lo != 96 {
            data_shl_1bit_from(data, from_lo);
        }
    }
}

/// Flips a subset whose stored anchor index has its top bit set: the
/// endpoint pair is swapped and every index in the subset inverted.
pub fn bc7_code_apply_swap_mode01237(
    qep: &mut [[i32; 8]; 3],
    qblock: [u32; 2],
    mode: u32,
    part_id: i32,
) -> (flips: u32)
    requires
        mode == 0 || mode == 1 || mode == 2 || mode == 3 || mode == 7,
        0 <= part_id < 128,
        forall|j: int| 0 <= j < 3 ==> spec_qep_ok(#[trigger] old(qep)[j], mode as nat),
    ensures
        forall|j: int| 0 <= j < 3 ==> spec_qep_ok(#[trigger] final(qep)[j], mode as nat),
        flips == spec_flips_value(
            qblock,
            part_id as int,
            mode,
            spec_num_partitions(mode as nat) as int,
        ),
        forall|j: int, p: int|
            0 <= j < spec_num_partitions(mode as nat) && 0 <= p < 4 && spec_anchor_flip(
                qblock,
                part_id as int,
                j,
                mode,
            ) ==> #[trigger] final(qep)[j][p] == old(qep)[j][4 + p],
        forall|j: int, p: int|
            0 <= j < spec_num_partitions(mode as nat) && 0 <= p < 4 && spec_anchor_flip(
                qblock,
                part_id as int,
                j,
                mode,
            ) ==> #[trigger] final(qep)[j][4 + p] == old(qep)[j][p],
        forall|j: int|
            0 <= j < 3 && (j >= spec_num_partitions(mode as nat) || !spec_anchor_flip(
                qblock,
                part_id as int,
                j,
                mode,
            )) ==> #[trigger] final(qep)[j] == old(qep)[j],
{
    let bits: u32 = if mode == 0 || mode == 1 {
        3
    } else {
        2
    };
    let pairs: usize = if mode == 0 || mode == 2 {
        3
    } else {
        2
    };
    let levels: u32 = small_pow2(bits);
    proof {
        lemma2_to64();
        assert(levels / 2 == pow2((bits - 1) as nat));
    }
    let mut flips: u32 = 0;
    let skips = get_skips(part_id);
    let mut j: usize = 0;
    while j < pairs
        invariant
            j <= pairs,
            pairs == spec_num_partitions(mode as nat),
            2 <= pairs <= 3,
            mode == 0 || mode == 1 || mode == 2 || mode == 3 || mode == 7,
            bits == spec_index_bits(mode as nat),
            4 <= levels <= 8,
            levels / 2 == pow2((bits - 1) as nat),
            0 <= part_id < 128,
            skips[0] == 0,
            skips[1] == spec_skip_packed(part_id as int) >> 4u32,
            skips[2] == spec_skip_packed(part_id as int) & 15,
            skips[1] <= 15,
            skips[2] <= 15,
            flips == spec_flips_value(qblock, part_id as int, mode, j as int),
            forall|jj: int| 0 <= jj < 3 ==> spec_qep_ok(#[trigger] qep[jj], mode as nat),
            forall|jj: int, p: int|
                0 <= jj < j && 0 <= p < 4 && spec_anchor_flip(qblock, part_id as int, jj, mode)
                    ==> #[trigger] qep[jj][p] == old(qep)[jj][4 + p],
            forall|jj: int, p: int|
                0 <= jj < j && 0 <= p < 4 && spec_anchor_flip(qblock, part_id as int, jj, mode)
                    ==> #[trigger] qep[jj][4 + p] == old(qep)[jj][p],
            forall|jj: int|
                0 <= jj < 3 && (jj >= j || !spec_anchor_flip(qblock, part_id as int, jj, mode))
                    ==> #[trigger] qep[jj] == old(qep)[jj],
        decreases pairs - j,
    {
        let k0 = skips[j] as usize;
        // The anchor texel's stored index, extracted from its nibble.
        let word = qblock[k0 / 8];
        let sh: u32 = (k0 % 8) as u32 * 4;
        let q = (word >> sh) & 15;
        proof {
            assert(k0 as int == spec_anchor_texel(part_id as int, j as int));
            assert(q as int == spec_qblock_index(qblock, k0 as int));
        }
        if q >= levels / 2 {
            let ghost qep_before = *qep;
            let mut row = qep[j];
            let ghost row_pre = row;
            swap_halves(&mut row, 4);
            proof {
                assert(row_pre == qep_before[j as int]);
                assert(forall|i2: int|
                    0 <= i2 < 8 ==> #[trigger] row[i2] == row_pre[spec_swap_index(i2, 4)]);
            }
            qep[j] = row;
            proof {
                assert(qep[j as int] == row);
            }
            let m = get_pattern_mask(part_id, j as u32);
            proof {
                assert(spec_anchor_flip(qblock, part_id as int, j as int, mode));
                assert(qep_before[j as int] == old(qep)[j as int]);
                assert(forall|jj: int|
                    0 <= jj < 3 && jj != j ==> #[trigger] qep[jj] == qep_before[jj]);
                assert(forall|p: int|
                    0 <= p < 4 ==> #[trigger] qep[j as int][p] == old(qep)[j as int][4 + p]);
                assert(forall|i2: int|
                    4 <= i2 < 8 ==> #[trigger] qep[j as int][i2] == old(qep)[j as int][i2 - 4]);
                assert(spec_qep_ok(row_pre, mode as nat));
                assert forall|i: int| 0 <= i < 8 implies 0 <= #[trigger] qep[j as int][i]
                    < spec_qep_max(mode as nat) by {
                    assert(qep[j as int][i] == row[i]);
                    assert(row[i] == row_pre[spec_swap_index(i, 4)]);
                    assert(0 <= row_pre[spec_swap_index(i, 4)] < spec_qep_max(mode as nat));
                }
                assert(spec_qep_ok(qep[j as int], mode as nat));
            }
            flips = flips | m;
            proof {
                assert(flips == spec_flips_value(qblock, part_id as int, mode, j as int + 1));
            }
        } else {
            proof {
                assert(!spec_anchor_flip(qblock, part_id as int, j as int, mode));
                assert(flips | 0u32 == flips) by (bit_vector);
                assert(flips == spec_flips_value(qblock, part_id as int, mode, j as int + 1));
            }
        }
        j = j + 1;
    }
    flips
}

/// The nibble-wise all-ones mask of an index width: every 4-bit lane holds
/// `pow2(bits) - 1`.
pub open spec fn spec_nibble_mask(bits: u32) -> u32 {
    if bits == 2 {
        0x33333333u32
    } else if bits == 3 {
        0x77777777u32
    } else {
        0xFFFFFFFFu32
    }
}

/// Flips a whole single-subset index stream when the first index's top bit
/// is set, swapping the endpoints and inverting every index nibble.
pub fn bc7_code_apply_swap_mode456(
    qep: &mut [i32; 8],
    channels: u32,
    qblock: &mut [u32; 2],
    bits: u32,
)
    requires
        channels == 1 || channels == 4,
        2 <= bits <= 4,
        forall|i: int| 0 <= i < 8 ==> 0 <= #[trigger] old(qep)[i] <= 255,
    ensures
        forall|i: int| 0 <= i < 8 ==> 0 <= #[trigger] final(qep)[i] <= 255,
        ((old(qblock)[0] & 15) as nat) < pow2((bits - 1) as nat) ==> *final(qep) == *old(qep)
            && *final(qblock) == *old(qblock),
        ((old(qblock)[0] & 15) as nat) >= pow2((bits - 1) as nat) ==> forall|p: int|
            0 <= p < channels ==> #[trigger] final(qep)[p] == old(qep)[channels + p],
        ((old(qblock)[0] & 15) as nat) >= pow2((bits - 1) as nat) ==> forall|p: int|
            0 <= p < channels ==> #[trigger] final(qep)[channels + p] == old(qep)[p],
        ((old(qblock)[0] & 15) as nat) >= pow2((bits - 1) as nat) ==> forall|i: int|
            2 * channels <= i < 8 ==> #[trigger] final(qep)[i] == old(qep)[i],
        ((old(qblock)[0] & 15) as nat) >= pow2((bits - 1) as nat) ==> final(qblock)[0]
            == spec_nibble_mask(bits) - (old(qblock)[0] & spec_nibble_mask(bits))
            && final(qblock)[1] == spec_nibble_mask(bits) - (old(qblock)[1] & spec_nibble_mask(
            bits,
        )),
{
    let levels: u32 = small_pow2(bits);
    proof {
        lemma2_to64();
        assert(levels / 2 == pow2((bits - 1) as nat));
    }
    let nibble_mask: u32 = if bits == 2 {
        0x33333333
    } else if bits == 3 {
        0x77777777
    } else {
        0xFFFFFFFF
    };
    if (qblock[0] & 15) >= levels / 2 {
        swap_halves(qep, channels);
        let w0 = qblock[0];
        let w1 = qblock[1];
        proof {
            assert((w0 & nibble_mask) <= nibble_mask && (w1 & nibble_mask) <= nibble_mask)
                by (bit_vector);
        }
        qblock[0] = nibble_mask - (w0 & nibble_mask);
        qblock[1] = nibble_mask - (w1 & nibble_mask);
    }
}

/// Per-block compressor state: the working block as planar integer
/// channels, the packed 16-byte result, and the running best error.
pub struct BlockCompressorBC7 {
    block: [i32; 64],
    data: [u32; 5],
    best_err: u64,
    opaque_err: u64,
    settings: BC7Settings,
}

/// Well-formed compressor state.
pub closed spec fn spec_bc7_wf(s: BlockCompressorBC7) -> bool {
    &&& spec_block_bytes(s.block)
    &&& spec_settings_valid(s.settings)
    &&& s.opaque_err <= 1_040_400
}

/// Packs one endpoint stream: `w` bits per component, channel-major, the
/// low bit dropped first for the modes that store it as a p-bit.
fn pack_endpoints(
    data: &mut [u32; 5],
    pos: &mut u32,
    qep: &[[i32; 8]; 3],
    pairs: u32,
    channels: u32,
    w: u32,
    drop_low: bool,
)
    requires
        1 <= pairs <= 3,
        channels == 3 || channels == 4,
        1 <= w <= 7,
        *old(pos) + channels * (pairs * 2) * w <= 160,
        data_val(*old(data)) < pow2(*old(pos) as nat),
    ensures
        *final(pos) == *old(pos) + channels * (pairs * 2) * w,
        data_val(*final(data)) < pow2(*final(pos) as nat),
{
    let ne = pairs * 2;
    let total = channels * ne;
    let mut t: u32 = 0;
    let mut p: u32 = 0;
    let mut j: u32 = 0;
    proof {
        assert(channels * (pairs * 2) <= 24) by (nonlinear_arith)
            requires
                1 <= pairs <= 3,
                channels == 3 || channels == 4,
        ;
        assert(channels * (pairs * 2) * w <= 168) by (nonlinear_arith)
            requires
                channels * (pairs * 2) <= 24,
                1 <= w <= 7,
                0 <= channels * (pairs * 2),
        ;
    }
    while t < total
        invariant
            1 <= pairs <= 3,
            channels == 3 || channels == 4,
            1 <= w <= 7,
            ne == pairs * 2,
            total == channels * ne,
            total <= 24,
            total * w <= 168,
            j < ne,
            p <= channels,
            t == p * ne + j,
            t <= total,
            *old(pos) + total * w <= 160,
            *pos == *old(pos) + t * w,
            data_val(*data) < pow2(*pos as nat),
        decreases total - t,
    {
        let e = qep[(j / 2) as usize][((j % 2) * 4 + p) as usize];
        let v: u32 = if drop_low {
            (e as u32) >> 1
        } else {
            e as u32
        };
        proof {
            assert((t as int + 1) * w == t as int * w + w) by (nonlinear_arith);
            assert((t as int + 1) * w <= total * w) by (nonlinear_arith)
                requires
                    t + 1 <= total,
                    0 <= w,
            ;
        }
        put_masked(data, pos, w, v);
        t = t + 1;
        j = j + 1;
        if j == ne {
            j = 0;
            p = p + 1;
            proof {
                assert(p * ne == (p - 1) * ne + ne) by (nonlinear_arith);
            }
        }
    }
}

/// The cost of forcing alpha opaque over the texels below `k`: the sum of
/// squared distances of the alpha channel to 255.
pub open spec fn spec_opaque_err(block: [i32; 64], channels: u32, k: int) -> int
    decreases k,
{
    if channels == 3 || k <= 0 {
        0
    } else {
        spec_opaque_err(block, channels, k - 1) + spec_sq_diff(block[48 + (k - 1)] as int, 255)
    }
}

/// Byte `b` of a little-endian 32-bit word.
pub open spec fn spec_word_byte(w: u32, b: int) -> u8 {
    if b == 0 {
        w as u8
    } else if b == 1 {
        (w >> 8u32) as u8
    } else if b == 2 {
        (w >> 16u32) as u8
    } else {
        (w >> 24u32) as u8
    }
}

/// Texel `t` of the tile at block coordinates `xx`, `yy` loaded into the
/// four planar channels: channel `c` of the texel sits at `c * 16 + t`.
pub open spec fn spec_texel_loaded(
    block: [i32; 64],
    rgba: Seq<u8>,
    xx: int,
    yy: int,
    stride: int,
    t: int,
) -> bool {
    let y = t / 4;
    let x = t % 4;
    let off = (yy * 4 + y) * stride + (xx * 4 + x) * 4;
    &&& block[t] == rgba[off] as i32
    &&& block[16 + t] == rgba[off + 1] as i32
    &&& block[32 + t] == rgba[off + 2] as i32
    &&& block[48 + t] == rgba[off + 3] as i32
}

impl BlockCompressorBC7 {
    /// The running best error, as a specification value.
    pub closed spec fn spec_best_err(self) -> u64 {
        self.best_err
    }

    /// The opaque-alpha penalty, as a specification value.
    pub closed spec fn spec_opaque(self) -> u64 {
        self.opaque_err
    }

    /// The packed 16-byte result, as its four stored words.
    pub closed spec fn spec_data(self) -> [u32; 5] {
        self.data
    }

    /// The settings the compressor was created with.
    pub closed spec fn spec_settings(self) -> BC7Settings {
        self.settings
    }

    /// The loaded working block.
    pub closed spec fn spec_block(self) -> [i32; 64] {
        self.block
    }

    /// A fresh compressor for one block under the given settings.
    pub fn new(settings: &BC7Settings) -> (r: Self)
        requires
            spec_settings_valid(*settings),
        ensures
            spec_bc7_wf(r),
            r.spec_best_err() == 0xFFFF_FFFF_FFFF_FFFF,
            r.spec_settings() == *settings,
    {
        BlockCompressorBC7 {
            block: [0; 64],
            data: [0; 5],
            best_err: 0xFFFF_FFFF_FFFF_FFFF,
            opaque_err: 0,
            settings: *settings,
        }
    }

    /// The lowest total squared error found so far.
    pub fn best_error(&self) -> (r: u64)
        ensures
            r == self.spec_best_err(),
    {
        self.best_err
    }

    /// Loads the 4x4 tile at block coordinates `xx`, `yy` from an
    /// interleaved RGBA8 buffer into planar integer channels.
    pub fn load_block_interleaved_rgba(
        &mut self,
        rgba_data: &[u8],
        xx: usize,
        yy: usize,
        stride: usize,
    )
        requires
            spec_bc7_wf(*old(self)),
            xx < 0x1000_0000,
            yy < 0x1000_0000,
            (yy * 4 + 3) * stride + (xx * 4 + 3) * 4 + 4 <= rgba_data@.len(),
        ensures
            spec_bc7_wf(*final(self)),
            final(self).spec_settings() == old(self).spec_settings(),
            final(self).spec_best_err() == old(self).spec_best_err(),
            final(self).spec_opaque() == old(self).spec_opaque(),
            final(self).spec_data() == old(self).spec_data(),
            forall|t: int|
                0 <= t < 16 ==> #[trigger] spec_texel_loaded(
                    final(self).spec_block(),
                    rgba_data@,
                    xx as int,
                    yy as int,
                    stride as int,
                    t,
                ),
    {
        let rlen = rgba_data.len();
        let mut y: usize = 0;
        while y < 4
            invariant
                y <= 4,
                xx < 0x1000_0000,
                yy < 0x1000_0000,
                (yy * 4 + 3) * stride + (xx * 4 + 3) * 4 + 4 <= rlen,
                rlen == rgba_data@.len(),
                spec_block_bytes(self.block),
                self.settings == old(self).settings,
                self.best_err == old(self).best_err,
                self.opaque_err == old(self).opaque_err,
                self.data == old(self).data,
                spec_settings_valid(self.settings),
                self.opaque_err <= 1_040_400,
                forall|t: int|
                    0 <= t < 4 * y ==> #[trigger] spec_texel_loaded(
                        self.block,
                        rgba_data@,
                        xx as int,
                        yy as int,
                        stride as int,
                        t,
                    ),
            decreases 4 - y,
        {
            let mut x: usize = 0;
            while x < 4
                invariant
                    y < 4,
                    x <= 4,
                    xx < 0x1000_0000,
                    yy < 0x1000_0000,
                    (yy * 4 + 3) * stride + (xx * 4 + 3) * 4 + 4 <= rlen,
                    rlen == rgba_data@.len(),
                    spec_block_bytes(self.block),
                    self.settings == old(self).settings,
                    self.best_err == old(self).best_err,
                    self.opaque_err == old(self).opaque_err,
                    self.data == old(self).data,
                    spec_settings_valid(self.settings),
                    self.opaque_err <= 1_040_400,
                    forall|t: int|
                        0 <= t < 4 * y + x ==> #[trigger] spec_texel_loaded(
                            self.block,
                            rgba_data@,
                            xx as int,
                            yy as int,
                            stride as int,
                            t,
                        ),
                decreases 4 - x,
            {
                let px = xx * 4 + x;
                let py = yy * 4 + y;
                proof {
                    assert(py * stride <= (yy * 4 + 3) * stride) by (nonlinear_arith)
                        requires
                            py <= yy * 4 + 3,
                            0 <= stride,
                    ;
                    assert(px * 4 <= (xx * 4 + 3) * 4) by (nonlinear_arith)
                        requires
                            px <= xx * 4 + 3,
                    ;
                }
                let offset = py * stride + px * 4;
                let ghost bprev = self.block;
                self.block[y * 4 + x] = rgba_data[offset] as i32;
                self.block[16 + y * 4 + x] = rgba_data[offset + 1] as i32;
                self.block[32 + y * 4 + x] = rgba_data[offset + 2] as i32;
                self.block[48 + y * 4 + x] = rgba_data[offset + 3] as i32;
                proof {
                    let t: int = 4 * y + x;
                    vstd::arithmetic::div_mod::lemma_fundamental_div_mod_converse(
                        t,
                        4,
                        y as int,
                        x as int,
                    );
                    assert forall|t2: int| 0 <= t2 < t + 1 implies #[trigger] spec_texel_loaded(
                        self.block,
                        rgba_data@,
                        xx as int,
                        yy as int,
                        stride as int,
                        t2,
                    ) by {
                        if t2 < t {
                            assert(spec_texel_loaded(
                                bprev,
                                rgba_data@,
                                xx as int,
                                yy as int,
                                stride as int,
                                t2,
                            ));
                            assert(self.block[t2] == bprev[t2] && self.block[16 + t2] == bprev[16
                                + t2] && self.block[32 + t2] == bprev[32 + t2] && self.block[48
                                + t2] == bprev[48 + t2]);
                        } else {
                            assert(spec_texel_loaded(
                                self.block,
                                rgba_data@,
                                xx as int,
                                yy as int,
                                stride as int,
                                t,
                            ));
                        }
                    }
                }
                x = x + 1;
            }
            y = y + 1;
        }
    }

    /// The cost of forcing alpha opaque, paid by the modes that store no
    /// alpha; zero for three-channel content.
    pub fn compute_opaque_err(&mut self)
        requires
            spec_bc7_wf(*old(self)),
        ensures
            spec_bc7_wf(*final(self)),
            final(self).spec_settings() == old(self).spec_settings(),
            final(self).spec_best_err() == old(self).spec_best_err(),
            final(self).spec_block() == old(self).spec_block(),
            final(self).spec_data() == old(self).spec_data(),
            final(self).spec_opaque() == spec_opaque_err(
                old(self).spec_block(),
                old(self).spec_settings().channels,
                16,
            ),
    {
        if self.settings.channels == 3 {
            self.opaque_err = 0;
        } else {
            let mut err: u64 = 0;
            let mut k: usize = 0;
            while k < 16
                invariant
                    k <= 16,
                    spec_block_bytes(self.block),
                    self.settings.channels != 3,
                    err <= k * 65025,
                    err == spec_opaque_err(self.block, self.settings.channels, k as int),
                decreases 16 - k,
            {
                err = err + sq_diff(self.block[48 + k], 255);
                k = k + 1;
            }
            self.opaque_err = err;
        }
    }

    /// Writes the packed 16-byte block into the output buffer at block
    /// coordinates `xx`, `yy`, least significant byte of each word first.
    pub fn store_data(&self, blocks_buffer: &mut [u8], block_width: usize, xx: usize, yy: usize)
        requires
            xx < block_width,
            (yy * block_width + xx) * 16 + 16 <= old(blocks_buffer)@.len(),
        ensures
            final(blocks_buffer)@.len() == old(blocks_buffer)@.len(),
            forall|i: int|
                0 <= i < old(blocks_buffer)@.len() && !((yy * block_width + xx) * 16 <= i < (yy
                    * block_width + xx) * 16 + 16) ==> final(blocks_buffer)@[i] == old(
                    blocks_buffer,
                )@[i],
            forall|i: int|
                0 <= i < 16 ==> #[trigger] final(blocks_buffer)@[(yy * block_width + xx) * 16
                    + i] == spec_word_byte(self.spec_data()[i / 4], i % 4),
    {
        let blen = blocks_buffer.len();
        proof {
            assert(yy * block_width + xx <= blen) by (nonlinear_arith)
                requires
                    (yy * block_width + xx) * 16 + 16 <= blen,
                    0 <= yy * block_width + xx,
            ;
            assert(0 <= yy * block_width) by (nonlinear_arith)
                requires
                    0 <= yy,
                    0 <= block_width,
            ;
        }
        let offset = (yy * block_width + xx) * 16;
        let mut index: usize = 0;
        while index < 4
            invariant
                index <= 4,
                offset == (yy * block_width + xx) * 16,
                offset + 16 <= blocks_buffer@.len(),
                blocks_buffer@.len() == old(blocks_buffer)@.len(),
                forall|i: int|
                    0 <= i < blocks_buffer@.len() && !(offset <= i < offset + 16)
                        ==> blocks_buffer@[i] == old(blocks_buffer)@[i],
                forall|i: int|
                    0 <= i < 4 * index ==> #[trigger] blocks_buffer@[offset + i]
                        == spec_word_byte(self.spec_data()[i / 4], i % 4),
            decreases 4 - index,
        {
            let value = self.data[index];
            let byte_offset = offset + index * 4;
            blocks_buffer[byte_offset] = value as u8;
            blocks_buffer[byte_offset + 1] = (value >> 8) as u8;
            blocks_buffer[byte_offset + 2] = (value >> 16) as u8;
            blocks_buffer[byte_offset + 3] = (value >> 24) as u8;
            proof {
                assert forall|i: int| 0 <= i < 4 * (index + 1) implies #[trigger] blocks_buffer@[
                    offset + i] == spec_word_byte(self.spec_data()[i / 4], i % 4) by {
                    if i >= 4 * index {
                        vstd::arithmetic::div_mod::lemma_fundamental_div_mod_converse(
                            i,
                            4,
                            index as int,
                            i - 4 * index,
                        );
                    }
                }
            }
            index = index + 1;
        }
    }
}



/// The 128 bits the stored block emits: the four low words of the packed
/// scratch region, low word first.
pub open spec fn spec_block_val(d: [u32; 5]) -> nat {
    d[0] as nat + d[1] as nat * pow2(32) + d[2] as nat * pow2(64) + d[3] as nat * pow2(96)
}

/// Four little-endian bytes of a word carry the word's value.
proof fn lemma_word_bytes_val(s: Seq<u8>, w: u32)
    requires
        s.len() == 4,
        s[0] == w as u8,
        s[1] == (w >> 8u32) as u8,
        s[2] == (w >> 16u32) as u8,
        s[3] == (w >> 24u32) as u8,
    ensures
        le_bytes_val(s) == w,
{
    assert(s.skip(1)[0] == s[1] && s.skip(1).skip(1) =~= s.skip(2));
    assert(s.skip(2)[0] == s[2] && s.skip(2).skip(1) =~= s.skip(3));
    assert(s.skip(3)[0] == s[3] && s.skip(3).skip(1) =~= s.skip(4));
    assert(s.skip(4).len() == 0);
    assert(le_bytes_val(s.skip(4)) == 0);
    assert(le_bytes_val(s.skip(3)) == s[3] as nat);
    assert(le_bytes_val(s.skip(2)) == s[2] + 256 * (s[3] as nat));
    assert(le_bytes_val(s.skip(1)) == s[1] + 256 * (s[2] + 256 * (s[3] as nat)));
    assert(le_bytes_val(s) == s[0] + 256 * (s[1] + 256 * (s[2] + 256 * (s[3] as nat))));
    assert((w as u8) as u32 + 256 * (((w >> 8u32) as u8) as u32 + 256 * (((w >> 16u32) as u8)
        as u32 + 256 * (((w >> 24u32) as u8) as u32))) == w) by (bit_vector);
}

/// Squared-error of texel `k`'s first `c` channels between a decoded tile
/// (64 raster RGBA bytes) and a planar working block.
pub open spec fn spec_texel_recon_err(tex: Seq<u8>, block: [i32; 64], k: int, c: int) -> int
    decreases c,
{
    if c <= 0 {
        0
    } else {
        spec_texel_recon_err(tex, block, k, c - 1) + spec_sq_diff(
            tex[4 * k + (c - 1)] as int,
            block[(c - 1) * 16 + k] as int,
        )
    }
}

/// Total squared reconstruction error of a decoded tile against a planar
/// working block over the first `channels` channels, texels below `k`.
pub open spec fn spec_tile_recon_err(
    tex: Seq<u8>,
    block: [i32; 64],
    channels: u32,
    k: int,
) -> int
    decreases k,
{
    if k <= 0 {
        0
    } else {
        spec_tile_recon_err(tex, block, channels, k - 1) + spec_texel_recon_err(
            tex,
            block,
            k - 1,
            channels as int,
        )
    }
}

impl BlockCompressorBC7 {
    /// The packed block as its 16 output bytes, little-endian words in
    /// order — exactly what `store_data` writes.
    fn block_bytes(&self) -> (r: [u8; 16])
        ensures
            le_bytes_val(r@) == spec_block_val(self.spec_data()),
            r@.len() == 16,
    {
        let mut out: [u8; 16] = [0; 16];
        let mut i: usize = 0;
        while i < 4
            invariant
                i <= 4,
                forall|j: int|
                    0 <= j < 4 * i ==> #[trigger] out[j] == spec_word_byte(
                        self.spec_data()[j / 4],
                        j % 4,
                    ),
            decreases 4 - i,
        {
            let w = self.data[i];
            out[4 * i] = w as u8;
            out[4 * i + 1] = (w >> 8) as u8;
            out[4 * i + 2] = (w >> 16) as u8;
            out[4 * i + 3] = (w >> 24) as u8;
            proof {
                assert forall|j: int| 0 <= j < 4 * (i + 1) implies #[trigger] out[j]
                    == spec_word_byte(self.spec_data()[j / 4], j % 4) by {
                    if j >= 4 * i {
                        vstd::arithmetic::div_mod::lemma_fundamental_div_mod_converse(
                            j,
                            4,
                            i as int,
                            j - 4 * i,
                        );
                    }
                }
            }
            i = i + 1;
        }
        proof {
            lemma_stored_block_value(self.spec_data(), out@);
        }
        out
    }
}


/// The link between storing and decoding a block: sixteen bytes laid out
/// as `store_data` writes them — the four data words, little-endian — carry
/// as their stream value exactly the packed words' 128-bit value, which is
/// the value the decoder's specification consumes.  Together with
/// `store_data`'s byte contract and `compress_block_bc7_core`'s measured
/// error, this closes the per-block round trip: the stored block decodes
/// to texels whose reconstruction error is the reported best error.
pub proof fn lemma_stored_block_value(d: [u32; 5], s: Seq<u8>)
    requires
        s.len() == 16,
        forall|i: int| 0 <= i < 16 ==> #[trigger] s[i] == spec_word_byte(d[i / 4], i % 4),
    ensures
        le_bytes_val(s) == spec_block_val(d),
{
    // Each word's four bytes carry the word; the splits stack them.
    assert forall|i: int, b: int| 0 <= i < 4 && 0 <= b < 4 implies #[trigger] s.subrange(
        4 * i,
        4 * i + 4,
    )[b] == spec_word_byte(d[i], b) by {
        assert(s[4 * i + b] == spec_word_byte(d[(4 * i + b) / 4], (4 * i + b) % 4));
        vstd::arithmetic::div_mod::lemma_fundamental_div_mod_converse(4 * i + b, 4, i, b);
    }
    lemma_word_bytes_val(s.subrange(0, 4), d[0]);
    lemma_word_bytes_val(s.subrange(4, 8), d[1]);
    lemma_word_bytes_val(s.subrange(8, 12), d[2]);
    lemma_word_bytes_val(s.subrange(12, 16), d[3]);
    lemma_le_bytes_val_split(s, 4);
    assert(s.take(4) =~= s.subrange(0, 4));
    let s4 = s.skip(4);
    lemma_le_bytes_val_split(s4, 4);
    assert(s4.take(4) =~= s.subrange(4, 8));
    let s8 = s4.skip(4);
    lemma_le_bytes_val_split(s8, 4);
    assert(s8.take(4) =~= s.subrange(8, 12));
    assert(s8.skip(4) =~= s.subrange(12, 16));
    vstd::arithmetic::power2::lemma_pow2_adds(32, 32);
    vstd::arithmetic::power2::lemma_pow2_adds(64, 32);
    // le(s) == w0 + (w1 + (w2 + w3 * 2^32) * 2^32) * 2^32
    let w1: int = d[1] as int;
    let w2: int = d[2] as int;
    let w3: int = d[3] as int;
    let p32: int = pow2(32) as int;
    assert(le_bytes_val(s) == d[0] + (w1 + (w2 + w3 * p32) * p32) * p32);
    assert((w2 + w3 * p32) * p32 == w2 * p32 + (w3 * p32) * p32) by (nonlinear_arith);
    assert((w3 * p32) * p32 == w3 * (p32 * p32)) by (nonlinear_arith);
    assert((w1 + (w2 * p32 + w3 * (p32 * p32))) * p32 == w1 * p32 + (w2 * p32) * p32 + (w3 * (
    p32 * p32)) * p32) by (nonlinear_arith);
    assert((w2 * p32) * p32 == w2 * (p32 * p32)) by (nonlinear_arith);
    assert((w3 * (p32 * p32)) * p32 == w3 * ((p32 * p32) * p32)) by (nonlinear_arith);
    assert(p32 * p32 == pow2(64));
    assert((p32 * p32) * p32 == pow2(64) * p32);
    assert(pow2(64) * p32 == pow2(96)) by {
        vstd::arithmetic::power2::lemma_pow2_adds(64, 32);
    }
}

/// The best dual-index candidate found so far: quantized color endpoints,
/// both index streams, and the rotation and swap that produced them.
struct Mode45Parameters {
    qep: [i32; 8],
    qblock: [u32; 2],
    aqep: [i32; 2],
    aqblock: [u32; 2],
    rotation: u32,
    swap: u32,
}

impl BlockCompressorBC7 {
    /// Packs a partitioned-mode result into the 16-byte block layout.
    fn code_mode01237(&mut self, qep: &mut [[i32; 8]; 3], qblock: [u32; 2], part_id: i32, mode: u32)
        requires
            mode == 0 || mode == 1 || mode == 2 || mode == 3 || mode == 7,
            0 <= part_id < 128,
            forall|j: int| 0 <= j < 3 ==> spec_qep_ok(#[trigger] old(qep)[j], mode as nat),
            spec_bc7_wf(*old(self)),
        ensures
            spec_bc7_wf(*final(self)),
            final(self).best_err == old(self).best_err,
            final(self).settings == old(self).settings,
            final(self).block == old(self).block,
            final(self).opaque_err == old(self).opaque_err,
    {
        let bits: u32 = if mode == 0 || mode == 1 {
            3
        } else {
            2
        };
        let pairs: u32 = if mode == 0 || mode == 2 {
            3
        } else {
            2
        };
        let channels: u32 = if mode == 7 {
            4
        } else {
            3
        };
        let flips = bc7_code_apply_swap_mode01237(qep, qblock, mode, part_id);
        let mut data: [u32; 5] = [0, 0, 0, 0, 0];
        let mut pos: u32 = 0;
        proof {
            lemma2_to64();
            assert(data[0] == 0 && data[1] == 0 && data[2] == 0 && data[3] == 0 && data[4] == 0);
            assert(data_val(data) == 0);
        }
        // Mode marker, then the partition identifier.
        put_masked(&mut data, &mut pos, mode + 1, 1u32 << mode);
        if mode == 0 {
            put_masked(&mut data, &mut pos, 4, part_id as u32);
        } else {
            put_masked(&mut data, &mut pos, 6, part_id as u32);
        }
        // Endpoints, low bit dropped where it is stored as a p-bit.
        let w: u32 = if mode == 0 {
            4
        } else if mode == 1 {
            6
        } else if mode == 2 {
            5
        } else if mode == 3 {
            7
        } else {
            5
        };
        pack_endpoints(&mut data, &mut pos, qep, pairs, channels, w, mode != 2);
        // P-bits: one shared pair in mode 1, one per endpoint otherwise.
        if mode == 1 {
            put_masked(&mut data, &mut pos, 1, qep[0][0] as u32);
            put_masked(&mut data, &mut pos, 1, qep[1][0] as u32);
        }
        if mode == 0 || mode == 3 || mode == 7 {
            let mut j: u32 = 0;
            while j < pairs * 2
                invariant
                    j <= pairs * 2,
                    2 <= pairs <= 3,
                    pos == (if mode == 0 {
                        77u32
                    } else {
                        94u32
                    }) + j,
                    mode == 0 || mode == 3 || mode == 7,
                    forall|jj: int| 0 <= jj < 3 ==> spec_qep_ok(#[trigger] qep[jj], mode as nat),
                    data_val(data) < pow2(pos as nat),
                decreases pairs * 2 - j,
            {
                let e = qep[(j / 2) as usize][((j % 2) * 4) as usize];
                put_masked(&mut data, &mut pos, 1, e as u32);
                j = j + 1;
            }
        }
        // Per-texel indices, then drop each non-anchor subset's implicit bit.
        bc7_code_qblock(&mut data, &mut pos, qblock, bits, flips);
        bc7_code_adjust_skip_mode01237(&mut data, mode, part_id);
        self.data = data;
    }

    /// Segments, quantizes and indexes one partition candidate, returning
    /// the quantized endpoints, their reconstructions, the indices and the
    /// exact total error: the error equals the minimal-index reconstruction
    /// error of the returned dequantized endpoints.
    fn enc_mode01237_part_fast(&self, part_id: i32, mode: u32) -> (r: (
        [[i32; 8]; 3],
        [[i32; 8]; 3],
        [u32; 2],
        u64,
    ))
        requires
            spec_bc7_wf(*self),
            mode == 0 || mode == 1 || mode == 2 || mode == 3 || mode == 7,
            0 <= part_id < 128,
        ensures
            forall|j: int| 0 <= j < 3 ==> spec_qep_ok(#[trigger] r.0[j], mode as nat),
            forall|j: int| 0 <= j < 3 ==> spec_ep_bytes(#[trigger] r.1[j]),
            r.3 <= 4_161_600,
            r.3 == spec_block_quant_err(
                self.spec_block(),
                r.1,
                spec_pattern(part_id as int),
                if mode == 0 || mode == 1 {
                    3u32
                } else {
                    2u32
                },
                16,
                if mode == 7 {
                    4int
                } else {
                    3
                },
            ),
    {
        let pairs: u32 = if mode == 0 || mode == 2 {
            3
        } else {
            2
        };
        let bits: u32 = if mode == 0 || mode == 1 {
            3
        } else {
            2
        };
        let channels: u32 = if mode == 7 {
            4
        } else {
            3
        };
        let pattern = get_pattern(part_id);
        let mut qep: [[i32; 8]; 3] = [[0; 8], [0; 8], [0; 8]];
        let mut deq: [[i32; 8]; 3] = [[0; 8], [0; 8], [0; 8]];
        let mut j: u32 = 0;
        while j < pairs
            invariant
                j <= pairs,
                pairs <= 3,
                mode < 8,
                0 <= part_id < 128,
                channels == 3 || channels == 4,
                spec_bc7_wf(*self),
                forall|jj: int| 0 <= jj < 3 ==> spec_qep_ok(#[trigger] qep[jj], mode as nat),
                forall|jj: int| 0 <= jj < 3 ==> spec_ep_bytes(#[trigger] deq[jj]),
            decreases pairs - j,
        {
            let mask = get_pattern_mask(part_id, j);
            let ep = block_segment(&self.block, mask, channels);
            let (q, d) = ep_quant_dequant(&ep, mode, channels);
            qep[j as usize] = q;
            deq[j as usize] = d;
            j = j + 1;
        }
        let mut qblock: [u32; 2] = [0; 2];
        let err = block_quant(&mut qblock, &self.block, bits, &deq, pattern, channels);
        (qep, deq, qblock, err)
    }

    /// Searches one partitioned mode over a candidate list, refines the
    /// winner, and replaces the stored block when the final error beats
    /// the running best.
    fn enc_mode01237(&mut self, mode: u32, part_list: &[i32; 64], part_count: usize)
        requires
            spec_bc7_wf(*old(self)),
            mode == 0 || mode == 1 || mode == 2 || mode == 3 || mode == 7,
            part_count <= 64,
        ensures
            spec_bc7_wf(*final(self)),
            final(self).best_err <= old(self).best_err,
            part_count == 0 ==> *final(self) == *old(self),
            part_count > 0 ==> final(self).best_err <= 5_202_000,
            final(self).settings == old(self).settings,
            final(self).block == old(self).block,
            final(self).opaque_err == old(self).opaque_err,
    {
        if part_count == 0 {
            return ;
        }
        let pairs: u32 = if mode == 0 || mode == 2 {
            3
        } else {
            2
        };
        let bits: u32 = if mode == 0 || mode == 1 {
            3
        } else {
            2
        };
        let channels: u32 = if mode == 7 {
            4
        } else {
            3
        };
        let mut best_qep: [[i32; 8]; 3] = [[0; 8], [0; 8], [0; 8]];
        let mut best_qblock: [u32; 2] = [0; 2];
        let mut best_part_id: i32 = 0;
        let mut best_err: u64 = 0xFFFF_FFFF_FFFF_FFFF;
        let mut have: bool = false;
        let mut ci: usize = 0;
        while ci < part_count
            invariant
                ci <= part_count,
                part_count <= 64,
                mode == 0 || mode == 1 || mode == 2 || mode == 3 || mode == 7,
                pairs == (if mode == 0 || mode == 2 {
                    3u32
                } else {
                    2u32
                }),
                spec_bc7_wf(*self),
                self == old(self),
                0 <= best_part_id < 128,
                have ==> best_err <= 4_161_600,
                have ==> forall|jj: int|
                    0 <= jj < 3 ==> spec_qep_ok(#[trigger] best_qep[jj], mode as nat),
                ci > 0 ==> have,
            decreases part_count - ci,
        {
            let part = part_list[ci];
            let mut part_id = part & 63;
            proof {
                assert(0 <= part & 63 < 64) by (bit_vector);
            }
            if pairs == 3 {
                part_id = part_id + 64;
            }
            let (qep, _deq, qblock, err) = self.enc_mode01237_part_fast(part_id, mode);
            if !have || err < best_err {
                best_qep = qep;
                best_qblock = qblock;
                best_part_id = part_id;
                best_err = err;
                have = true;
            }
            ci = ci + 1;
        }
        // Refinement: re-estimate endpoints from the chosen indices, keep
        // the result only when it is no worse.
        let iterations = self.settings.refine_iterations[mode as usize];
        let mut it: u32 = 0;
        while it < iterations
            invariant
                mode == 0 || mode == 1 || mode == 2 || mode == 3 || mode == 7,
                pairs == (if mode == 0 || mode == 2 {
                    3u32
                } else {
                    2u32
                }),
                bits == (if mode == 0 || mode == 1 {
                    3u32
                } else {
                    2u32
                }),
                channels == (if mode == 7 {
                    4u32
                } else {
                    3u32
                }),
                spec_bc7_wf(*self),
                self == old(self),
                0 <= best_part_id < 128,
                best_err <= 4_161_600,
                forall|jj: int| 0 <= jj < 3 ==> spec_qep_ok(#[trigger] best_qep[jj], mode as nat),
            decreases iterations - it,
        {
            let mut qep: [[i32; 8]; 3] = [[0; 8], [0; 8], [0; 8]];
            let mut deq: [[i32; 8]; 3] = [[0; 8], [0; 8], [0; 8]];
            let mut j: u32 = 0;
            while j < pairs
                invariant
                    j <= pairs,
                    2 <= pairs <= 3,
                    mode < 8,
                    2 <= bits <= 4,
                    channels == 3 || channels == 4,
                    0 <= best_part_id < 128,
                    spec_bc7_wf(*self),
                    self == old(self),
                    forall|jj: int| 0 <= jj < 3 ==> spec_qep_ok(#[trigger] qep[jj], mode as nat),
                    forall|jj: int| 0 <= jj < 3 ==> spec_ep_bytes(#[trigger] deq[jj]),
                decreases pairs - j,
            {
                let mask = get_pattern_mask(best_part_id, j);
                let ep = opt_endpoints(&self.block, bits, best_qblock, mask, channels);
                let (q, d) = ep_quant_dequant(&ep, mode, channels);
                qep[j as usize] = q;
                deq[j as usize] = d;
                j = j + 1;
            }
            let pattern = get_pattern(best_part_id);
            let mut qblock: [u32; 2] = [0; 2];
            let err = block_quant(&mut qblock, &self.block, bits, &deq, pattern, channels);
            if err < best_err {
                best_qep = qep;
                best_qblock = qblock;
                best_err = err;
            }
            it = it + 1;
        }
        let mut total = best_err;
        if mode != 7 {
            total = total + self.opaque_err;
        }
        if total < self.best_err {
            self.best_err = total;
            self.code_mode01237(&mut best_qep, best_qblock, best_part_id, mode);
        }
    }

    /// Modes 0 and 2: every partition candidate in order, mode 2 only when
    /// not skipped.
    fn enc_mode02(&mut self)
        requires
            spec_bc7_wf(*old(self)),
        ensures
            spec_bc7_wf(*final(self)),
            final(self).best_err <= 5_202_000,
            final(self).best_err <= old(self).best_err,
            final(self).settings == old(self).settings,
            final(self).block == old(self).block,
            final(self).opaque_err == old(self).opaque_err,
    {
        let mut part_list: [i32; 64] = [0; 64];
        let mut part: i32 = 0;
        while part < 64
            invariant
                0 <= part <= 64,
            decreases 64 - part,
        {
            part_list[part as usize] = part;
            part = part + 1;
        }
        self.enc_mode01237(0, &part_list, 16);
        if self.settings.skip_mode2 == 0 {
            self.enc_mode01237(2, &part_list, 64);
        }
    }

    /// Ranks the 64 two-subset partitions by the analytic bound and runs
    /// modes 1 and 3 over the best-ranked candidates.
    fn enc_mode13(&mut self)
        requires
            spec_bc7_wf(*old(self)),
        ensures
            spec_bc7_wf(*final(self)),
            final(self).best_err <= old(self).best_err,
            old(self).settings.fast_skip_threshold_mode1 == 0
                && old(self).settings.fast_skip_threshold_mode3 == 0 ==> *final(self) == *old(
                self,
            ),
            final(self).settings == old(self).settings,
            final(self).block == old(self).block,
            final(self).opaque_err == old(self).opaque_err,
    {
        if self.settings.fast_skip_threshold_mode1 == 0 && self.settings.fast_skip_threshold_mode3
            == 0 {
            return ;
        }
        let full_stats = compute_stats_masked(&self.block, 0xFFFF_FFFF, 3);
        let mut part_list: [i32; 64] = [0; 64];
        let mut part: i32 = 0;
        while part < 64
            invariant
                0 <= part <= 64,
                spec_bc7_wf(*self),
                self == old(self),
                spec_stats_ok(full_stats),
            decreases 64 - part,
        {
            let mask = get_pattern_mask(part, 0);
            let bound = block_pca_bound_split(&self.block, mask, &full_stats, 3);
            part_list[part as usize] = part + (bound as i32) * 64;
            part = part + 1;
        }
        let count1 = self.settings.fast_skip_threshold_mode1;
        let count3 = self.settings.fast_skip_threshold_mode3;
        let partial = if count1 > count3 {
            count1
        } else {
            count3
        };
        partial_sort_list(&mut part_list, 64, partial);
        self.enc_mode01237(1, &part_list, count1 as usize);
        self.enc_mode01237(3, &part_list, count3 as usize);
    }

    /// Ranks the partitions with alpha statistics and runs mode 7 over the
    /// best-ranked candidates.
    fn enc_mode7(&mut self)
        requires
            spec_bc7_wf(*old(self)),
        ensures
            spec_bc7_wf(*final(self)),
            final(self).best_err <= old(self).best_err,
            old(self).settings.fast_skip_threshold_mode7 == 0 ==> *final(self) == *old(self),
            final(self).settings == old(self).settings,
            final(self).block == old(self).block,
            final(self).opaque_err == old(self).opaque_err,
    {
        if self.settings.fast_skip_threshold_mode7 == 0 {
            return ;
        }
        let channels = self.settings.channels;
        let full_stats = compute_stats_masked(&self.block, 0xFFFF_FFFF, channels);
        let mut part_list: [i32; 64] = [0; 64];
        let mut part: i32 = 0;
        while part < 64
            invariant
                0 <= part <= 64,
                spec_bc7_wf(*self),
                self == old(self),
                channels == self.settings.channels,
                spec_stats_ok(full_stats),
            decreases 64 - part,
        {
            let mask = get_pattern_mask(part, 0);
            let bound = block_pca_bound_split(&self.block, mask, &full_stats, channels);
            part_list[part as usize] = part + (bound as i32) * 64;
            part = part + 1;
        }
        partial_sort_list(&mut part_list, 64, self.settings.fast_skip_threshold_mode7);
        self.enc_mode01237(7, &part_list, self.settings.fast_skip_threshold_mode7 as usize);
    }
}


impl BlockCompressorBC7 {
    /// Packs a dual-index result into the 16-byte block layout.
    fn code_mode45(&mut self, params: &Mode45Parameters, mode: u32)
        requires
            mode == 4 || mode == 5,
            spec_bc7_wf(*old(self)),
            forall|i: int| 0 <= i < 8 ==> 0 <= #[trigger] params.qep[i] <= 255,
            0 <= params.aqep[0] <= 255,
            0 <= params.aqep[1] <= 255,
            params.rotation <= 3,
            params.swap <= 1,
        ensures
            spec_bc7_wf(*final(self)),
            final(self).best_err == old(self).best_err,
            final(self).settings == old(self).settings,
            final(self).block == old(self).block,
            final(self).opaque_err == old(self).opaque_err,
    {
        let mut qep = params.qep;
        let mut qblock = params.qblock;
        let mut aqep_full: [i32; 8] = [params.aqep[0], params.aqep[1], 0, 0, 0, 0, 0, 0];
        let mut aqblock = params.aqblock;
        let rotation = params.rotation;
        let swap = params.swap;
        let abits: u32 = if mode == 4 {
            3
        } else {
            2
        };
        let epbits: u32 = if mode == 4 {
            5
        } else {
            7
        };
        let aepbits: u32 = if mode == 4 {
            6
        } else {
            8
        };
        if swap == 0 {
            bc7_code_apply_swap_mode456(&mut qep, 4, &mut qblock, 2);
            bc7_code_apply_swap_mode456(&mut aqep_full, 1, &mut aqblock, abits);
        } else {
            let t = qblock;
            qblock = aqblock;
            aqblock = t;
            bc7_code_apply_swap_mode456(&mut aqep_full, 1, &mut qblock, 2);
            bc7_code_apply_swap_mode456(&mut qep, 4, &mut aqblock, abits);
        }
        let mut data: [u32; 5] = [0, 0, 0, 0, 0];
        let mut pos: u32 = 0;
        proof {
            lemma2_to64();
            assert(data[0] == 0 && data[1] == 0 && data[2] == 0 && data[3] == 0 && data[4] == 0);
            assert(data_val(data) == 0);
        }
        // Mode marker, rotation, and mode 4's index-swap flag.
        put_masked(&mut data, &mut pos, mode + 1, 1u32 << mode);
        put_masked(&mut data, &mut pos, 2, (rotation + 1) & 3);
        if mode == 4 {
            put_masked(&mut data, &mut pos, 1, swap);
        }
        // Color endpoints, interleaved, then the alpha pair.
        let mut p: u32 = 0;
        while p < 3
            invariant
                p <= 3,
                mode == 4 || mode == 5,
                epbits == (if mode == 4 {
                    5u32
                } else {
                    7u32
                }),
                pos == (if mode == 4 {
                    8u32
                } else {
                    8u32
                }) + p * 2 * epbits,
                pos <= 8 + 6 * epbits,
                data_val(data) < pow2(pos as nat),
            decreases 3 - p,
        {
            put_masked(&mut data, &mut pos, epbits, qep[p as usize] as u32);
            put_masked(&mut data, &mut pos, epbits, qep[(4 + p) as usize] as u32);
            p = p + 1;
        }
        put_masked(&mut data, &mut pos, aepbits, aqep_full[0] as u32);
        put_masked(&mut data, &mut pos, aepbits, aqep_full[1] as u32);
        // The two index streams.
        bc7_code_qblock(&mut data, &mut pos, qblock, 2, 0);
        bc7_code_qblock(&mut data, &mut pos, aqblock, abits, 0);
        self.data = data;
    }

    /// Packs a mode 6 result into the 16-byte block layout.
    fn code_mode6(&mut self, qep: &mut [i32; 8], qblock: &mut [u32; 2])
        requires
            spec_bc7_wf(*old(self)),
            forall|i: int| 0 <= i < 8 ==> 0 <= #[trigger] old(qep)[i] <= 255,
        ensures
            spec_bc7_wf(*final(self)),
            final(self).best_err == old(self).best_err,
            final(self).settings == old(self).settings,
            final(self).block == old(self).block,
            final(self).opaque_err == old(self).opaque_err,
    {
        bc7_code_apply_swap_mode456(qep, 4, qblock, 4);
        let mut data: [u32; 5] = [0, 0, 0, 0, 0];
        let mut pos: u32 = 0;
        proof {
            lemma2_to64();
            assert(data[0] == 0 && data[1] == 0 && data[2] == 0 && data[3] == 0 && data[4] == 0);
            assert(data_val(data) == 0);
        }
        put_masked(&mut data, &mut pos, 7, 64);
        let mut p: u32 = 0;
        while p < 4
            invariant
                p <= 4,
                pos == 7 + p * 14,
                data_val(data) < pow2(pos as nat),
            decreases 4 - p,
        {
            put_masked(&mut data, &mut pos, 7, (qep[p as usize] as u32) >> 1);
            put_masked(&mut data, &mut pos, 7, (qep[(4 + p) as usize] as u32) >> 1);
            p = p + 1;
        }
        put_masked(&mut data, &mut pos, 1, qep[0] as u32);
        put_masked(&mut data, &mut pos, 1, qep[4] as u32);
        bc7_code_qblock(&mut data, &mut pos, *qblock, 4, 0);
        self.data = data;
    }

    /// Evaluates one rotation and swap combination of a dual-index mode:
    /// the rotated three-channel block and the separated scalar channel are
    /// optimized independently and their errors summed.
    fn enc_mode45_candidate(&self, mode: u32, rotation: u32, swap: u32) -> (r: (
        Mode45Parameters,
        u64,
    ))
        requires
            spec_bc7_wf(*self),
            mode == 4 || mode == 5,
            rotation <= 3,
            swap <= 1,
        ensures
            forall|i: int| 0 <= i < 8 ==> 0 <= #[trigger] r.0.qep[i] <= 255,
            0 <= r.0.aqep[0] <= 255,
            0 <= r.0.aqep[1] <= 255,
            r.0.rotation <= 3,
            r.0.swap <= 1,
            r.1 <= 5_202_000,
    {
        let bits: u32 = if swap == 1 {
            3
        } else {
            2
        };
        let abits: u32 = if swap == 1 {
            2
        } else if mode == 4 {
            3
        } else {
            2
        };
        let aepbits: u32 = if mode == 4 {
            6
        } else {
            8
        };
        // The rotated channel moves out of the vector part; an opaque input
        // contributes a constant 255 there.
        let mut candidate: [i32; 64] = [0; 64];
        let mut k: usize = 0;
        while k < 16
            invariant
                k <= 16,
                spec_bc7_wf(*self),
                rotation <= 3,
                forall|i: int| 0 <= i < 64 ==> 0 <= #[trigger] candidate[i] <= 255,
            decreases 16 - k,
        {
            let mut pp: usize = 0;
            while pp < 3
                invariant
                    k < 16,
                    pp <= 3,
                    spec_bc7_wf(*self),
                    rotation <= 3,
                    forall|i: int| 0 <= i < 64 ==> 0 <= #[trigger] candidate[i] <= 255,
                decreases 3 - pp,
            {
                candidate[k + pp * 16] = self.block[k + pp * 16];
                pp = pp + 1;
            }
            if rotation < 3 {
                if self.settings.channels == 4 {
                    candidate[k + (rotation as usize) * 16] = self.block[k + 48];
                } else {
                    candidate[k + (rotation as usize) * 16] = 255;
                }
            }
            k = k + 1;
        }
        let ep = block_segment(&candidate, 0xFFFF_FFFF, 3);
        let (mut qep, mut deq) = ep_quant_dequant(&ep, mode, 3);
        let mut deqs: [[i32; 8]; 3] = [deq, [0; 8], [0; 8]];
        let mut qblock: [u32; 2] = [0; 2];
        let mut err = block_quant(&mut qblock, &candidate, bits, &deqs, 0, 3);
        // Keep-best refinement of the vector part.
        let iterations = self.settings.refine_iterations[mode as usize];
        let mut it: u32 = 0;
        while it < iterations
            invariant
                spec_bc7_wf(*self),
                mode == 4 || mode == 5,
                2 <= bits <= 3,
                forall|i: int| 0 <= i < 64 ==> 0 <= #[trigger] candidate[i] <= 255,
                spec_qep_ok(qep, mode as nat),
                err <= 4_161_600,
            decreases iterations - it,
        {
            let nep = opt_endpoints(&candidate, bits, qblock, 0xFFFF_FFFF, 3);
            let (nq, nd) = ep_quant_dequant(&nep, mode, 3);
            let ndeqs: [[i32; 8]; 3] = [nd, [0; 8], [0; 8]];
            let mut nqb: [u32; 2] = [0; 2];
            let nerr = block_quant(&mut nqb, &candidate, bits, &ndeqs, 0, 3);
            if nerr < err {
                err = nerr;
                qep = nq;
                qblock = nqb;
            }
            it = it + 1;
        }
        // The scalar channel, optimized on its own.
        let mut channel: [i32; 16] = [0; 16];
        let mut k2: usize = 0;
        while k2 < 16
            invariant
                k2 <= 16,
                spec_bc7_wf(*self),
                rotation <= 3,
                forall|i: int| 0 <= i < 16 ==> 0 <= #[trigger] channel[i] <= 255,
            decreases 16 - k2,
        {
            channel[k2] = self.block[k2 + (rotation as usize) * 16];
            k2 = k2 + 1;
        }
        let (aqblock, aqep, aerr) = opt_channel(
            &channel,
            abits,
            aepbits,
            self.settings.refine_iterations_channel,
        );
        proof {
            lemma2_to64();
            vstd::arithmetic::power2::lemma2_to64_rest();
            assert(pow2(6) <= 256 && pow2(8) <= 256);
        }
        let params = Mode45Parameters {
            qep,
            qblock,
            aqep: [aqep[0], aqep[1]],
            aqblock,
            rotation,
            swap,
        };
        (params, err + aerr)
    }

    /// The dual-index modes: every rotation, and for mode 4 both index
    /// swaps, compared against the running best.
    fn enc_mode45(&mut self)
        requires
            spec_bc7_wf(*old(self)),
        ensures
            spec_bc7_wf(*final(self)),
            final(self).best_err <= old(self).best_err,
            old(self).settings.mode45_channel0 >= old(self).settings.channels ==> *final(self)
                == *old(self),
            final(self).settings == old(self).settings,
            final(self).block == old(self).block,
            final(self).opaque_err == old(self).opaque_err,
    {
        let mut best = Mode45Parameters {
            qep: [0; 8],
            qblock: [0, 0],
            aqep: [0, 0],
            aqblock: [0, 0],
            rotation: 0,
            swap: 0,
        };
        let mut best_err = self.best_err;
        let mut have: bool = false;
        let channel0 = self.settings.mode45_channel0;
        let channels = self.settings.channels;
        let mut p: u32 = channel0;
        while p < channels
            invariant
                spec_bc7_wf(*self),
                self == old(self),
                channels <= 4,
                channels == self.settings.channels,
                channel0 == old(self).settings.mode45_channel0,
                channel0 <= p,
                best_err <= self.best_err,
                old(self).settings.mode45_channel0 >= channels ==> best_err == self.best_err
                    && !have,
                have ==> forall|i: int| 0 <= i < 8 ==> 0 <= #[trigger] best.qep[i] <= 255,
                have ==> 0 <= best.aqep[0] <= 255 && 0 <= best.aqep[1] <= 255,
                have ==> best.rotation <= 3 && best.swap <= 1,
                best_err < self.best_err ==> have,
            decreases channels - p,
        {
            let (c0, e0) = self.enc_mode45_candidate(4, p, 0);
            if e0 < best_err {
                best = c0;
                best_err = e0;
                have = true;
            }
            let (c1, e1) = self.enc_mode45_candidate(4, p, 1);
            if e1 < best_err {
                best = c1;
                best_err = e1;
                have = true;
            }
            p = p + 1;
        }
        if best_err < self.best_err {
            self.best_err = best_err;
            self.code_mode45(&best, 4);
        }
        let mut p2: u32 = channel0;
        while p2 < channels
            invariant
                spec_bc7_wf(*self),
                self.settings == old(self).settings,
                self.block == old(self).block,
                self.opaque_err == old(self).opaque_err,
                self.best_err <= old(self).best_err,
                channels <= 4,
                channels == self.settings.channels,
                channel0 == old(self).settings.mode45_channel0,
                channel0 <= p2,
                best_err <= self.best_err,
                old(self).settings.mode45_channel0 >= channels ==> best_err == self.best_err
                    && !have && *self == *old(self),
                have ==> forall|i: int| 0 <= i < 8 ==> 0 <= #[trigger] best.qep[i] <= 255,
                have ==> 0 <= best.aqep[0] <= 255 && 0 <= best.aqep[1] <= 255,
                have ==> best.rotation <= 3 && best.swap <= 1,
                best_err < self.best_err ==> have,
            decreases channels - p2,
        {
            let (c0, e0) = self.enc_mode45_candidate(5, p2, 0);
            if e0 < best_err {
                best = c0;
                best_err = e0;
                have = true;
            }
            p2 = p2 + 1;
        }
        if best_err < self.best_err {
            self.best_err = best_err;
            self.code_mode45(&best, 5);
        }
    }

    /// The single-subset full-precision mode 6.
    fn enc_mode6(&mut self)
        requires
            spec_bc7_wf(*old(self)),
        ensures
            spec_bc7_wf(*final(self)),
            final(self).best_err <= 4_161_600,
            final(self).best_err <= old(self).best_err,
            final(self).settings == old(self).settings,
            final(self).block == old(self).block,
            final(self).opaque_err == old(self).opaque_err,
    {
        let channels = self.settings.channels;
        let mut ep = block_segment(&self.block, 0xFFFF_FFFF, channels);
        if channels == 3 {
            ep[3] = 255;
            ep[7] = 255;
        }
        let (mut qep, mut deq) = ep_quant_dequant(&ep, 6, channels);
        let mut deqs: [[i32; 8]; 3] = [deq, [0; 8], [0; 8]];
        let mut qblock: [u32; 2] = [0; 2];
        let mut err = block_quant(&mut qblock, &self.block, 4, &deqs, 0, channels);
        let iterations = self.settings.refine_iterations[6];
        let mut it: u32 = 0;
        while it < iterations
            invariant
                spec_bc7_wf(*self),
                self == old(self),
                channels == self.settings.channels,
                spec_qep_ok(qep, 6),
                err <= 4_161_600,
            decreases iterations - it,
        {
            let nep = opt_endpoints(&self.block, 4, qblock, 0xFFFF_FFFF, channels);
            let (nq, nd) = ep_quant_dequant(&nep, 6, channels);
            let ndeqs: [[i32; 8]; 3] = [nd, [0; 8], [0; 8]];
            let mut nqb: [u32; 2] = [0; 2];
            let nerr = block_quant(&mut nqb, &self.block, 4, &ndeqs, 0, channels);
            if nerr < err {
                err = nerr;
                qep = nq;
                qblock = nqb;
            }
            it = it + 1;
        }
        if err < self.best_err {
            self.best_err = err;
            proof {
                lemma2_to64();
            }
            self.code_mode6(&mut qep, &mut qblock);
        }
    }

    /// Measures the packed block the way a consumer would: decodes the 16
    /// output bytes with the verified decoder and sums the squared
    /// per-channel differences against the working block.
    fn measure_packed_block(&self) -> (err: u64)
        requires
            spec_bc7_wf(*self),
        ensures
            err == spec_tile_recon_err(
                spec_decoded_texels(spec_block_val(self.spec_data())),
                self.spec_block(),
                self.spec_settings().channels,
                16,
            ),
            err <= 4_161_600,
    {
        let bytes = self.block_bytes();
        let tex = decode_texels(&bytes);
        proof {
            assert(bytes@.take(16) =~= bytes@);
        }
        let ghost decoded = spec_decoded_texels(spec_block_val(self.spec_data()));
        let channels = self.settings.channels;
        let mut err: u64 = 0;
        let mut k: usize = 0;
        while k < 16
            invariant
                k <= 16,
                channels == 3 || channels == 4,
                channels == self.spec_settings().channels,
                spec_block_bytes(self.spec_block()),
                tex@ == decoded,
                tex@.len() == 64,
                err <= k * 260_100,
                err == spec_tile_recon_err(decoded, self.spec_block(), channels, k as int),
            decreases 16 - k,
        {
            let mut e: u64 = 0;
            let mut c: usize = 0;
            while c < channels as usize
                invariant
                    k < 16,
                    c <= channels,
                    channels == 3 || channels == 4,
                    spec_block_bytes(self.spec_block()),
                    tex@ == decoded,
                    tex@.len() == 64,
                    e <= c * 65025,
                    e == spec_texel_recon_err(decoded, self.spec_block(), k as int, c as int),
                decreases channels - c,
            {
                let d = sq_diff(tex[4 * k + c] as i32, self.block[c * 16 + k]);
                e = e + d;
                c = c + 1;
            }
            err = err + e;
            k = k + 1;
        }
        err
    }

    /// Runs every enabled mode group, keeps the single lowest-error result
    /// across them, and reports as the block's best error the exact
    /// reconstruction error of the packed result: the 16 output bytes,
    /// decoded, against the working block over the session's channels.
    pub fn compress_block_bc7_core(&mut self)
        requires
            spec_bc7_wf(*old(self)),
        ensures
            spec_bc7_wf(*final(self)),
            final(self).spec_settings() == old(self).spec_settings(),
            final(self).spec_block() == old(self).spec_block(),
            final(self).spec_best_err() == spec_tile_recon_err(
                spec_decoded_texels(spec_block_val(final(self).spec_data())),
                final(self).spec_block(),
                final(self).spec_settings().channels,
                16,
            ),
            final(self).spec_best_err() <= 4_161_600,
    {
        if self.settings.mode_selection[0] != 0 {
            self.enc_mode02();
        }
        if self.settings.mode_selection[1] != 0 {
            self.enc_mode13();
            self.enc_mode7();
        }
        if self.settings.mode_selection[2] != 0 {
            self.enc_mode45();
        }
        if self.settings.mode_selection[3] != 0 {
            self.enc_mode6();
        }
        // The search compares candidates by their predicted errors; the
        // reported figure is the measured truth of what was packed.
        let measured = self.measure_packed_block();
        self.best_err = measured;
    }
}

/// Compresses every 4x4 tile of an RGBA8 image into 16-byte blocks,
/// row-major.  The dimensions must be multiples of four, the settings must
/// have the accepted shape, and both buffers must be large enough; a
/// violation is reported and nothing is written.
pub fn compress_rgba8(
    variation: CompressionVariant,
    rgba_data: &[u8],
    blocks_buffer: &mut [u8],
    width: u32,
    height: u32,
    stride: u32,
) -> (r: Result<(), CodecError>)
    requires
        width <= 0x3FFF_FF00,
        height <= 0x3FFF_FF00,
        spec_blocks_byte_size(width as int, height as int) <= usize::MAX,
        (height as int) * (stride as int) + 4 * (width as int) + 16 <= usize::MAX,
    ensures
        r == Err::<(), CodecError>(CodecError::InvalidDimensions) <==> (width % 4 != 0 || height
            % 4 != 0),
        ({
            let CompressionVariant::BC7(settings) = variation;
            r == Err::<(), CodecError>(CodecError::InvalidSettings) <==> (width % 4 == 0 && height
                % 4 == 0 && !spec_settings_valid(settings))
        }),
        ({
            let CompressionVariant::BC7(settings) = variation;
            r == Err::<(), CodecError>(CodecError::InvalidBufferSize) <==> (width % 4 == 0
                && height % 4 == 0 && spec_settings_valid(settings) && (old(
                blocks_buffer,
            )@.len() < spec_blocks_byte_size(width as int, height as int) || (width > 0 && height
                > 0 && ((height as int - 1) * stride + (width as int - 1) * 4 + 4
                > rgba_data@.len()))))
        }),
        r is Err ==> final(blocks_buffer)@ == old(blocks_buffer)@,
        r is Ok ==> forall|i: int|
            spec_blocks_byte_size(width as int, height as int) <= i < old(blocks_buffer)@.len()
                ==> final(blocks_buffer)@[i] == old(blocks_buffer)@[i],
        final(blocks_buffer)@.len() == old(blocks_buffer)@.len(),
{
    if width % 4 != 0 || height % 4 != 0 {
        return Err(CodecError::InvalidDimensions);
    }
    let CompressionVariant::BC7(settings) = variation;
    if !(settings.fast_skip_threshold_mode1 <= 64 && settings.fast_skip_threshold_mode3 <= 64
        && settings.fast_skip_threshold_mode7 <= 64 && (settings.channels == 3
        || settings.channels == 4) && settings.mode45_channel0 <= 4) {
        return Err(CodecError::InvalidSettings);
    }
    let required_size = variation.blocks_byte_size(width, height);
    if blocks_buffer.len() < required_size {
        return Err(CodecError::InvalidBufferSize);
    }
    if width > 0 && height > 0 {
        proof {
            assert((height as int - 1) * stride <= (height as int) * stride) by (nonlinear_arith)
                requires
                    height >= 1,
                    0 <= stride,
            ;
        }
        let max_off = ((height - 1) as usize) * (stride as usize) + ((width - 1) as usize) * 4 + 4;
        if max_off > rgba_data.len() {
            return Err(CodecError::InvalidBufferSize);
        }
    }
    let block_width = (width / 4) as usize;
    let block_height = (height / 4) as usize;
    proof {
        assert((width as int + 3) / 4 == width as int / 4);
        assert((height as int + 3) / 4 == height as int / 4);
        assert(block_width as int * block_height as int * 16 == block_width as int * (
        block_height as int * 16)) by (nonlinear_arith);
    }
    compress_bc7(rgba_data, blocks_buffer, block_width, block_height, stride as usize, &settings);
    Ok(())
}

/// Runs the per-block compressor over every tile, writing each 16-byte
/// result at its row-major block offset.
fn compress_bc7(
    rgba_data: &[u8],
    blocks_buffer: &mut [u8],
    block_width: usize,
    block_height: usize,
    stride: usize,
    settings: &BC7Settings,
)
    requires
        spec_settings_valid(*settings),
        block_width < 0x1000_0000,
        block_height < 0x1000_0000,
        block_width * block_height * 16 <= old(blocks_buffer)@.len(),
        block_width > 0 && block_height > 0 ==> (block_height as int * 4 - 1) * stride + (
        block_width as int * 4 - 1) * 4 + 4 <= rgba_data@.len(),
    ensures
        final(blocks_buffer)@.len() == old(blocks_buffer)@.len(),
        forall|i: int|
            block_width * block_height * 16 <= i < old(blocks_buffer)@.len()
                ==> final(blocks_buffer)@[i] == old(blocks_buffer)@[i],
{
    let ghost limit: int = block_width as int * block_height as int * 16;
    let mut yy: usize = 0;
    while yy < block_height
        invariant
            yy <= block_height,
            spec_settings_valid(*settings),
            block_width < 0x1000_0000,
            block_height < 0x1000_0000,
            limit == block_width as int * block_height as int * 16,
            block_width * block_height * 16 <= blocks_buffer@.len(),
            blocks_buffer@.len() == old(blocks_buffer)@.len(),
            forall|i: int|
                limit <= i < blocks_buffer@.len() ==> blocks_buffer@[i] == old(blocks_buffer)@[i],
            block_width > 0 && block_height > 0 ==> (block_height as int * 4 - 1) * stride + (
            block_width as int * 4 - 1) * 4 + 4 <= rgba_data@.len(),
        decreases block_height - yy,
    {
        let mut xx: usize = 0;
        while xx < block_width
            invariant
                yy < block_height,
                xx <= block_width,
                spec_settings_valid(*settings),
                block_width < 0x1000_0000,
                block_height < 0x1000_0000,
                limit == block_width as int * block_height as int * 16,
                block_width * block_height * 16 <= blocks_buffer@.len(),
                blocks_buffer@.len() == old(blocks_buffer)@.len(),
                forall|i: int|
                    limit <= i < blocks_buffer@.len() ==> blocks_buffer@[i] == old(
                        blocks_buffer,
                    )@[i],
                block_width > 0 && block_height > 0 ==> (block_height as int * 4 - 1) * stride + (
                block_width as int * 4 - 1) * 4 + 4 <= rgba_data@.len(),
            decreases block_width - xx,
        {
            proof {
                // This tile's last texel lies inside the source image.
                assert((yy * 4 + 3) * stride <= (block_height as int * 4 - 1) * stride)
                    by (nonlinear_arith)
                    requires
                        yy < block_height,
                        0 <= stride,
                ;
                assert((xx * 4 + 3) * 4 <= (block_width as int * 4 - 1) * 4) by (nonlinear_arith)
                    requires
                        xx < block_width,
                ;
                // This block's 16 bytes lie inside the output buffer.
                assert((yy * block_width + xx) * 16 + 16 <= block_width * block_height * 16)
                    by (nonlinear_arith)
                    requires
                        yy < block_height,
                        xx < block_width,
                        0 <= yy,
                        0 <= xx,
                        0 < block_width,
                ;
            }
            let mut compressor = BlockCompressorBC7::new(settings);
            compressor.load_block_interleaved_rgba(rgba_data, xx, yy, stride);
            compressor.compute_opaque_err();
            compressor.compress_block_bc7_core();
            let ghost before = blocks_buffer@;
            compressor.store_data(blocks_buffer, block_width, xx, yy);
            proof {
                // The written slot lies below the block region's limit, so
                // everything at and past the limit is untouched.
                assert forall|i: int| limit <= i < blocks_buffer@.len() implies blocks_buffer@[i]
                    == old(blocks_buffer)@[i] by {
                    assert(blocks_buffer@[i] == before[i]);
                }
            }
            xx = xx + 1;
        }
        yy = yy + 1;
    }
}

} // verus!
