//! The mode decoder: a pure function from a 16-byte compressed block to a
//! 4x4 tile of RGBA texels.
//!
//! The whole block is modelled as the natural number `v` whose binary digits
//! are the block's bits, least significant first.  Every stored field is
//! `(v / pow2(offset)) % pow2(width)`; the spec functions below give each
//! field its offset and width, mode by mode, and `spec_decoded_texels` is
//! the decoded tile.  The executable decoder is proved to return exactly
//! that tile for every input.

use vstd::prelude::*;
use vstd::arithmetic::power2::{pow2, lemma_pow2_adds, lemma_pow2_pos, lemma2_to64};
use crate::bits::{BitStream, le_bytes_val};
use crate::variant::{CompressionVariant, spec_blocks_byte_size};
use crate::CodecError;
use crate::tables::{
    get_pattern, get_skips, get_unquant_value, spec_pattern, spec_skip_packed, spec_unquant_value,
};

verus! {

/// Field of `width` bits at `offset` in the block value `v`.
pub open spec fn ex(v: nat, offset: nat, width: nat) -> nat {
    (v / pow2(offset)) % pow2(width)
}

/// The mode is the position of the first set bit, scanning from the low
/// end, in at most eight tries; 8 means no mode was found.
pub open spec fn spec_mode_of(v: nat) -> nat {
    if v % 2 == 1 {
        0
    } else if v / 2 % 2 == 1 {
        1
    } else if v / 4 % 2 == 1 {
        2
    } else if v / 8 % 2 == 1 {
        3
    } else if v / 16 % 2 == 1 {
        4
    } else if v / 32 % 2 == 1 {
        5
    } else if v / 64 % 2 == 1 {
        6
    } else if v / 128 % 2 == 1 {
        7
    } else {
        8
    }
}

/// Endpoint color depth per mode, in bits.
pub open spec fn spec_color_bits(mode: nat) -> nat {
    if mode == 0 {
        4
    } else if mode == 1 {
        6
    } else if mode == 2 {
        5
    } else if mode == 3 {
        7
    } else if mode == 4 {
        5
    } else if mode == 5 {
        7
    } else if mode == 6 {
        7
    } else {
        5
    }
}

/// Endpoint alpha depth per mode, in bits; 0 when the mode stores no alpha.
pub open spec fn spec_alpha_bits(mode: nat) -> nat {
    if mode == 4 {
        6
    } else if mode == 5 {
        8
    } else if mode == 6 {
        7
    } else if mode == 7 {
        5
    } else {
        0
    }
}

/// Whether the mode extends endpoint precision with p-bits.
pub open spec fn spec_has_pbits(mode: nat) -> bool {
    mode == 0 || mode == 1 || mode == 3 || mode == 6 || mode == 7
}

/// Number of subsets per mode.
pub open spec fn spec_num_partitions(mode: nat) -> nat {
    if mode == 0 || mode == 2 {
        3
    } else if mode == 1 || mode == 3 || mode == 7 {
        2
    } else {
        1
    }
}

/// Width of the stored partition identifier.
pub open spec fn spec_partition_field(mode: nat) -> nat {
    if mode == 0 {
        4
    } else if mode == 1 || mode == 2 || mode == 3 || mode == 7 {
        6
    } else {
        0
    }
}

/// Primary index width per mode.
pub open spec fn spec_index_bits(mode: nat) -> nat {
    if mode == 0 || mode == 1 {
        3
    } else if mode == 6 {
        4
    } else {
        2
    }
}

/// Secondary index width; 0 when the mode has a single index stream.
pub open spec fn spec_index_bits2(mode: nat) -> nat {
    if mode == 4 {
        3
    } else if mode == 5 {
        2
    } else {
        0
    }
}

/// Offset of the first endpoint bit: past the mode marker and the
/// partition, rotation and index-swap fields.
pub open spec fn spec_ep_base(v: nat) -> nat {
    let mode = spec_mode_of(v);
    if mode == 4 {
        mode + 1 + 3
    } else if mode == 5 {
        mode + 1 + 2
    } else {
        mode + 1 + spec_partition_field(mode)
    }
}

/// The stored partition identifier.
pub open spec fn spec_partition(v: nat) -> nat {
    ex(v, spec_mode_of(v) + 1, spec_partition_field(spec_mode_of(v)))
}

/// The 2-bit rotation field of the dual-index modes.
pub open spec fn spec_rotation(v: nat) -> nat {
    let mode = spec_mode_of(v);
    if mode == 4 || mode == 5 {
        ex(v, mode + 1, 2)
    } else {
        0
    }
}

/// The index-swap bit of mode 4.
pub open spec fn spec_index_swap(v: nat) -> nat {
    let mode = spec_mode_of(v);
    if mode == 4 {
        ex(v, mode + 1 + 2, 1)
    } else {
        0
    }
}

/// Raw color component `c` of endpoint `j` as stored, before p-bits and
/// expansion; components are stored channel-major.
pub open spec fn spec_raw_color(v: nat, c: nat, j: nat) -> nat {
    let mode = spec_mode_of(v);
    let ne = 2 * spec_num_partitions(mode);
    let cw = spec_color_bits(mode);
    ex(v, spec_ep_base(v) + (c * ne + j) * cw, cw)
}

/// Offset of the first alpha bit.
pub open spec fn spec_alpha_base(v: nat) -> nat {
    let mode = spec_mode_of(v);
    let ne = 2 * spec_num_partitions(mode);
    spec_ep_base(v) + 3 * ne * spec_color_bits(mode)
}

/// Raw alpha component of endpoint `j` as stored.
pub open spec fn spec_raw_alpha(v: nat, j: nat) -> nat {
    let mode = spec_mode_of(v);
    ex(v, spec_alpha_base(v) + j * spec_alpha_bits(mode), spec_alpha_bits(mode))
}

/// Offset of the first p-bit.
pub open spec fn spec_pbit_base(v: nat) -> nat {
    let mode = spec_mode_of(v);
    let ne = 2 * spec_num_partitions(mode);
    spec_alpha_base(v) + ne * spec_alpha_bits(mode)
}

/// Number of stored p-bits: one shared pair in mode 1, one per endpoint in
/// modes 0, 3, 6 and 7.
pub open spec fn spec_num_pbits(mode: nat) -> nat {
    if mode == 1 {
        2
    } else if spec_has_pbits(mode) {
        2 * spec_num_partitions(mode)
    } else {
        0
    }
}

/// The p-bit that extends endpoint `j`'s color components.
pub open spec fn spec_pbit(v: nat, j: nat) -> nat {
    let mode = spec_mode_of(v);
    if mode == 1 {
        ex(v, spec_pbit_base(v) + (if j < 2 { 0nat } else { 1 }), 1)
    } else {
        ex(v, spec_pbit_base(v) + j, 1)
    }
}

/// Offset of the first primary index bit.
pub open spec fn spec_index_base(v: nat) -> nat {
    spec_pbit_base(v) + spec_num_pbits(spec_mode_of(v))
}

/// Expansion of a `tb`-bit component to 8 bits: left-align to bit 7, then
/// replicate the most significant bits into the newly exposed low bits.
pub open spec fn spec_expand(c: nat, tb: nat) -> nat {
    if tb == 0 {
        0
    } else {
        let e = c * pow2((8 - tb) as nat);
        e + e / pow2(tb)
    }
}

/// Color component `c` of endpoint `j`, fully decoded to 8 bits.
pub open spec fn spec_endpoint_color(v: nat, c: nat, j: nat) -> nat {
    let mode = spec_mode_of(v);
    let raw = spec_raw_color(v, c, j);
    if spec_has_pbits(mode) {
        spec_expand(raw * 2 + spec_pbit(v, j), spec_color_bits(mode) + 1)
    } else {
        spec_expand(raw, spec_color_bits(mode))
    }
}

/// Alpha component of endpoint `j`, fully decoded to 8 bits; modes without
/// stored alpha force it to 255.
pub open spec fn spec_endpoint_alpha(v: nat, j: nat) -> nat {
    let mode = spec_mode_of(v);
    let aw = spec_alpha_bits(mode);
    if aw == 0 {
        255
    } else if spec_has_pbits(mode) {
        spec_expand(spec_raw_alpha(v, j) * 2 + spec_pbit(v, j), aw + 1)
    } else {
        spec_expand(spec_raw_alpha(v, j), aw)
    }
}

/// Subset of texel `k` under the block's partition.
pub open spec fn spec_subset(v: nat, k: nat) -> nat {
    let mode = spec_mode_of(v);
    let np = spec_num_partitions(mode);
    if np == 1 {
        0
    } else {
        let raw = ((spec_pattern(((np - 2) * 64 + spec_partition(v)) as int) >> (2 * (
        k as u32))) & 3) as nat;
        if raw >= np {
            (np - 1) as nat
        } else {
            raw
        }
    }
}

/// The anchor texel of subset `s`: texel 0 for subset 0, the table entry
/// otherwise.
pub open spec fn spec_anchor(v: nat, s: nat) -> nat {
    let mode = spec_mode_of(v);
    let np = spec_num_partitions(mode);
    let packed = spec_skip_packed(((np - 2) * 64 + spec_partition(v)) as int);
    if s == 1 {
        (packed >> 4u32) as nat
    } else if s == 2 {
        (packed & 15) as nat
    } else {
        0
    }
}

/// A texel whose stored primary index drops its top bit.
pub open spec fn spec_is_fixup(v: nat, k: nat) -> bool {
    k == spec_anchor(v, spec_subset(v, k))
}

/// Width of texel `k`'s stored primary index.
pub open spec fn spec_idx1_width(v: nat, k: nat) -> nat {
    if spec_is_fixup(v, k) {
        (spec_index_bits(spec_mode_of(v)) - 1) as nat
    } else {
        spec_index_bits(spec_mode_of(v))
    }
}

/// Offset of texel `k`'s primary index, relative to the index area.
pub open spec fn spec_idx1_off(v: nat, k: nat) -> nat
    decreases k,
{
    if k == 0 {
        0
    } else {
        spec_idx1_off(v, (k - 1) as nat) + spec_idx1_width(v, (k - 1) as nat)
    }
}

/// Texel `k`'s primary index.
pub open spec fn spec_idx1(v: nat, k: nat) -> nat {
    ex(v, spec_index_base(v) + spec_idx1_off(v, k), spec_idx1_width(v, k))
}

/// Offset of the secondary index area.
pub open spec fn spec_index2_base(v: nat) -> nat {
    spec_index_base(v) + spec_idx1_off(v, 16)
}

/// Width of texel `k`'s stored secondary index: one less bit at texel 0.
pub open spec fn spec_idx2_width(v: nat, k: nat) -> nat {
    if spec_index_bits2(spec_mode_of(v)) == 0 {
        0
    } else if k == 0 {
        (spec_index_bits2(spec_mode_of(v)) - 1) as nat
    } else {
        spec_index_bits2(spec_mode_of(v))
    }
}

/// Offset of texel `k`'s secondary index, relative to its area.
pub open spec fn spec_idx2_off(v: nat, k: nat) -> nat
    decreases k,
{
    if k == 0 {
        0
    } else {
        spec_idx2_off(v, (k - 1) as nat) + spec_idx2_width(v, (k - 1) as nat)
    }
}

/// Texel `k`'s secondary index.
pub open spec fn spec_idx2(v: nat, k: nat) -> nat {
    ex(v, spec_index2_base(v) + spec_idx2_off(v, k), spec_idx2_width(v, k))
}

/// Integer-weighted interpolation between two endpoint components.
pub open spec fn spec_interpolate(a: nat, b: nat, w: int) -> nat {
    ((a * (64 - w) + b * w + 32) / 64) as nat
}

/// Channel `c` (0 red, 1 green, 2 blue, 3 alpha) of texel `k`, before the
/// rotation swap.
pub open spec fn spec_texel_channel(v: nat, k: nat, c: nat) -> nat {
    let mode = spec_mode_of(v);
    let s = spec_subset(v, k);
    let e0 = 2 * s;
    let e1 = 2 * s + 1;
    let ib = spec_index_bits(mode);
    let ib2 = spec_index_bits2(mode);
    let w1 = spec_unquant_value(ib as u32, spec_idx1(v, k) as int) as int;
    let w2 = spec_unquant_value(ib2 as u32, spec_idx2(v, k) as int) as int;
    let primary_color = ib2 == 0 || spec_index_swap(v) == 0;
    if c < 3 {
        if primary_color {
            spec_interpolate(spec_endpoint_color(v, c, e0), spec_endpoint_color(v, c, e1), w1)
        } else {
            spec_interpolate(spec_endpoint_color(v, c, e0), spec_endpoint_color(v, c, e1), w2)
        }
    } else {
        if ib2 == 0 {
            spec_interpolate(spec_endpoint_alpha(v, e0), spec_endpoint_alpha(v, e1), w1)
        } else if spec_index_swap(v) == 0 {
            spec_interpolate(spec_endpoint_alpha(v, e0), spec_endpoint_alpha(v, e1), w2)
        } else {
            spec_interpolate(spec_endpoint_alpha(v, e0), spec_endpoint_alpha(v, e1), w1)
        }
    }
}

/// Channel `c` of texel `k` after the rotation swap of the dual-index
/// modes.
pub open spec fn spec_texel_rotated(v: nat, k: nat, c: nat) -> nat {
    let rot = spec_rotation(v);
    if rot == 1 {
        if c == 0 {
            spec_texel_channel(v, k, 3)
        } else if c == 3 {
            spec_texel_channel(v, k, 0)
        } else {
            spec_texel_channel(v, k, c)
        }
    } else if rot == 2 {
        if c == 1 {
            spec_texel_channel(v, k, 3)
        } else if c == 3 {
            spec_texel_channel(v, k, 1)
        } else {
            spec_texel_channel(v, k, c)
        }
    } else if rot == 3 {
        if c == 2 {
            spec_texel_channel(v, k, 3)
        } else if c == 3 {
            spec_texel_channel(v, k, 2)
        } else {
            spec_texel_channel(v, k, c)
        }
    } else {
        spec_texel_channel(v, k, c)
    }
}

/// The decoded 4x4 tile as 64 bytes, texels in raster order, four channels
/// per texel.  A block with no mode marker decodes to transparent black.
pub open spec fn spec_decoded_texels(v: nat) -> Seq<u8> {
    if spec_mode_of(v) == 8 {
        Seq::new(64, |i: int| 0u8)
    } else {
        Seq::new(64, |i: int| (spec_texel_rotated(v, (i / 4) as nat, (i % 4) as nat) % 256) as u8)
    }
}

/// Decoding is a function of the 16 block bytes alone: equal blocks always
/// decode to equal tiles.  The substance lives in `decode_block_bc7`'s
/// postcondition, which pins its output to `spec_decoded_texels` of the
/// input value; this restates the purity reading of that fact for the
/// record.
pub proof fn lemma_decode_deterministic(v1: nat, v2: nat)
    requires
        v1 == v2,
    ensures
        spec_decoded_texels(v1) == spec_decoded_texels(v2),
{
}

/// A block whose low byte has no set bit decodes to 64 zero bytes, whatever
/// its remaining 120 bits hold.
pub proof fn lemma_no_mode_decodes_to_zero(v: nat)
    requires
        v % 256 == 0,
    ensures
        spec_decoded_texels(v) =~= Seq::new(64, |i: int| 0u8),
{
    lemma_mode_from_low_byte(v);
}

/// The mode probe looks only at the low byte: each of the eight probed bits
/// is a digit of `v % 256`.
proof fn lemma_mode_from_low_byte(v: nat)
    requires
        v % 256 == 0,
    ensures
        spec_mode_of(v) == 8,
{
    vstd::arithmetic::div_mod::lemma_fundamental_div_mod(v as int, 256);
    let q = v / 256;
    assert(v == 256 * q);
    lemma_mult256_probe(v, q, 1, 256);
    lemma_mult256_probe(v, q, 2, 128);
    lemma_mult256_probe(v, q, 4, 64);
    lemma_mult256_probe(v, q, 8, 32);
    lemma_mult256_probe(v, q, 16, 16);
    lemma_mult256_probe(v, q, 32, 8);
    lemma_mult256_probe(v, q, 64, 4);
    lemma_mult256_probe(v, q, 128, 2);
    assert(v % 2 == 0) by (nonlinear_arith)
        requires
            v == 256 * q,
    ;
}

/// A bit probed below the eighth position of a multiple of 256 is zero.
proof fn lemma_mult256_probe(v: nat, q: nat, d: nat, e: nat)
    requires
        v == 256 * q,
        256 == d * e,
        d > 0,
        e % 2 == 0,
    ensures
        (v / d) % 2 == 0,
{
    vstd::arithmetic::div_mod::lemma_div_denominator(v as int, d as int, e as int);
    assert((256 * q) / d == e * q) by (nonlinear_arith)
        requires
            256 == d * e,
            d > 0,
    ;
    let h = e / 2;
    assert(e == 2 * h);
    assert(e * q == 2 * (h * q)) by (nonlinear_arith)
        requires
            e == 2 * h,
    ;
    vstd::arithmetic::div_mod::lemma_mod_multiples_basic((h * q) as int, 2);
    vstd::arithmetic::mul::lemma_mul_is_commutative((h * q) as int, 2);
}

/// Writing four channel bytes at `off`.
pub open spec fn spec_write4(dest: Seq<u8>, off: int, tex: Seq<u8>, k: int) -> Seq<u8> {
    dest.update(off, tex[4 * k]).update(off + 1, tex[4 * k + 1]).update(off + 2, tex[4 * k + 2])
        .update(off + 3, tex[4 * k + 3])
}

/// Writing the texels from `k` on into `dest`, each texel's four bytes at
/// `base + row * pitch + column * 4`, in raster order.
pub open spec fn spec_write_texels(dest: Seq<u8>, tex: Seq<u8>, base: int, pitch: int, k: int) -> Seq<
    u8,
>
    decreases 16 - k,
{
    if k < 0 || k >= 16 {
        dest
    } else {
        spec_write_texels(
            spec_write4(dest, base + (k / 4) * pitch + (k % 4) * 4, tex, k),
            tex,
            base,
            pitch,
            k + 1,
        )
    }
}


/// `pow2` for small exponents, as an executable value.
pub fn small_pow2(n: u32) -> (r: u32)
    requires
        n <= 16,
    ensures
        r as nat == pow2(n as nat),
{
    proof {
        lemma2_to64();
    }
    match n {
        0 => 1,
        1 => 2,
        2 => 4,
        3 => 8,
        4 => 16,
        5 => 32,
        6 => 64,
        7 => 128,
        8 => 256,
        9 => 512,
        10 => 1024,
        11 => 2048,
        12 => 4096,
        13 => 8192,
        14 => 16384,
        15 => 32768,
        _ => 65536,
    }
}

/// Endpoint color depth of a mode.
fn color_bits(mode: u32) -> (r: u32)
    ensures
        r == spec_color_bits(mode as nat),
        4 <= r <= 7,
{
    match mode {
        0 => 4,
        1 => 6,
        2 => 5,
        3 => 7,
        4 => 5,
        5 => 7,
        6 => 7,
        _ => 5,
    }
}

/// Endpoint alpha depth of a mode.
fn alpha_bits(mode: u32) -> (r: u32)
    ensures
        r == spec_alpha_bits(mode as nat),
        r <= 8,
{
    match mode {
        4 => 6,
        5 => 8,
        6 => 7,
        7 => 5,
        _ => 0,
    }
}

/// Whether a mode stores p-bits.
fn has_pbits(mode: u32) -> (r: bool)
    ensures
        r == spec_has_pbits(mode as nat),
{
    mode == 0 || mode == 1 || mode == 3 || mode == 6 || mode == 7
}

/// Number of subsets of a mode.
fn num_partitions(mode: u32) -> (r: u32)
    ensures
        r == spec_num_partitions(mode as nat),
        1 <= r <= 3,
{
    match mode {
        0 | 2 => 3,
        1 | 3 | 7 => 2,
        _ => 1,
    }
}

/// Width of a mode's stored partition identifier.
fn partition_field(mode: u32) -> (r: u32)
    ensures
        r == spec_partition_field(mode as nat),
        r <= 6,
{
    match mode {
        0 => 4,
        1 | 2 | 3 | 7 => 6,
        _ => 0,
    }
}

/// Primary index width of a mode.
fn index_bits(mode: u32) -> (r: u32)
    ensures
        r == spec_index_bits(mode as nat),
        2 <= r <= 4,
{
    match mode {
        0 | 1 => 3,
        6 => 4,
        _ => 2,
    }
}

/// Secondary index width of a mode.
fn index_bits2(mode: u32) -> (r: u32)
    ensures
        r == spec_index_bits2(mode as nat),
        r <= 3,
{
    match mode {
        4 => 3,
        5 => 2,
        _ => 0,
    }
}

/// Dropping `pow2(k)` then one more factor of two drops `pow2(k + 1)`.
proof fn lemma_div_step(v: nat, k: nat)
    ensures
        (v / pow2(k)) / 2 == v / pow2(k + 1),
{
    lemma_pow2_pos(k);
    lemma_pow2_adds(k, 1);
    assert(pow2(1) == 2) by {
        lemma2_to64();
    }
    vstd::arithmetic::div_mod::lemma_div_denominator(v as int, pow2(k) as int, 2);
}

/// Dropping `pow2(used)` then `pow2(n)` more drops `pow2(used + n)`.
proof fn lemma_consume(v: nat, used: nat, n: nat)
    ensures
        (v / pow2(used)) / pow2(n) == v / pow2(used + n),
{
    lemma_pow2_pos(used);
    lemma_pow2_pos(n);
    lemma_pow2_adds(used, n);
    vstd::arithmetic::div_mod::lemma_div_denominator(v as int, pow2(used) as int, pow2(n) as int);
}

/// Expands a `tb`-bit component (already carrying its p-bit, if any) to the
/// full 8-bit range by most-significant-bit replication.
pub(crate) fn expand_component(c: u32, tb: u32) -> (r: u32)
    requires
        tb <= 8,
        (c as nat) < pow2(tb as nat),
    ensures
        r as nat == spec_expand(c as nat, tb as nat),
        r <= 255,
{
    if tb == 0 {
        0
    } else {
        let sp = small_pow2(8 - tb);
        proof {
            lemma_pow2_adds(tb as nat, (8 - tb) as nat);
            lemma2_to64();
            lemma_pow2_pos(tb as nat);
            lemma_pow2_pos((8 - tb) as nat);
            // c * 2^(8-tb) <= 256 - 2^(8-tb), so the sum below stays a byte.
            assert((c as nat) * pow2((8 - tb) as nat) <= (pow2(tb as nat) - 1) * pow2(
                (8 - tb) as nat,
            )) by {
                vstd::arithmetic::mul::lemma_mul_inequality(
                    c as int,
                    pow2(tb as nat) as int - 1,
                    pow2((8 - tb) as nat) as int,
                );
            }
            assert((pow2(tb as nat) - 1) * pow2((8 - tb) as nat) == 256 - pow2((8 - tb) as nat))
                by {
                vstd::arithmetic::mul::lemma_mul_is_distributive_sub_other_way(
                    pow2((8 - tb) as nat) as int,
                    pow2(tb as nat) as int,
                    1,
                );
            }
        }
        let e = c * sp;
        proof {
            assert((e as nat) < pow2(tb as nat) * pow2((8 - tb) as nat)) by {
                lemma_pow2_pos((8 - tb) as nat);
            }
            vstd::arithmetic::div_mod::lemma_multiply_divide_lt(
                e as int,
                pow2(tb as nat) as int,
                pow2((8 - tb) as nat) as int,
            );
        }
        let lo = e / small_pow2(tb);
        e + lo
    }
}

/// Integer-weighted interpolation between two 8-bit endpoint components:
/// `(a * (64 - w) + b * w + 32) / 64`.
pub(crate) fn interpolate(a: u32, b: u32, w: u32) -> (r: u32)
    requires
        a <= 255,
        b <= 255,
        w <= 64,
    ensures
        r as nat == spec_interpolate(a as nat, b as nat, w as int),
        r <= 255,
{
    proof {
        assert(a * (64 - w) + b * w <= 255 * 64) by (nonlinear_arith)
            requires
                a <= 255,
                b <= 255,
                w <= 64,
        ;
    }
    let num = a * (64 - w) + b * w + 32;
    proof {
        assert((num as int) / 64 <= 255) by {
            vstd::arithmetic::div_mod::lemma_div_is_ordered(num as int, 255int * 64 + 32, 64);
        }
        assert((num as int) / 64 >= 0) by {
            vstd::arithmetic::div_mod::lemma_div_pos_is_pos(num as int, 64);
        }
    }
    num / 64
}


/// Probes for the mode marker: reads bits until the first set one, at most
/// eight; returns 8, with eight bits consumed, when none is found.
fn probe_mode(bs: &mut BitStream) -> (m: u32)
    ensures
        m as nat == spec_mode_of(old(bs).val()),
        m <= 8,
        m < 8 ==> final(bs).val() == old(bs).val() / pow2((m + 1) as nat),
        m == 8 ==> final(bs).val() == old(bs).val() / pow2(8),
{
    let ghost v = old(bs).val();
    proof {
        lemma2_to64();
        assert(v / pow2(0) == v) by {
            vstd::arithmetic::div_mod::lemma_div_basics_2(v as int);
        }
    }
    let m: u32;
    if bs.read_bit() == 1 {
        m = 0;
    } else {
        proof {
            lemma_div_step(v, 0);
        }
        if bs.read_bit() == 1 {
            m = 1;
        } else {
            proof {
                lemma_div_step(v, 1);
            }
            if bs.read_bit() == 1 {
                m = 2;
            } else {
                proof {
                    lemma_div_step(v, 2);
                }
                if bs.read_bit() == 1 {
                    m = 3;
                } else {
                    proof {
                        lemma_div_step(v, 3);
                    }
                    if bs.read_bit() == 1 {
                        m = 4;
                    } else {
                        proof {
                            lemma_div_step(v, 4);
                        }
                        if bs.read_bit() == 1 {
                            m = 5;
                        } else {
                            proof {
                                lemma_div_step(v, 5);
                            }
                            if bs.read_bit() == 1 {
                                m = 6;
                            } else {
                                proof {
                                    lemma_div_step(v, 6);
                                }
                                if bs.read_bit() == 1 {
                                    m = 7;
                                } else {
                                    m = 8;
                                }
                            }
                        }
                    }
                }
            }
        }
    }
    m
}


/// `(4k + c) / 4 == k` and `(4k + c) % 4 == c` for a channel `c < 4`.
proof fn lemma_texel_split(k: int, c: int)
    requires
        0 <= k,
        0 <= c < 4,
    ensures
        (4 * k + c) / 4 == k,
        (4 * k + c) % 4 == c,
{
    vstd::arithmetic::div_mod::lemma_fundamental_div_mod_converse(4 * k + c, 4, k, c);
}

/// A stored field is below `pow2` of its width.
proof fn lemma_ex_bound(v: nat, offset: nat, width: nat)
    ensures
        ex(v, offset, width) < pow2(width),
{
    lemma_pow2_pos(width);
    vstd::arithmetic::div_mod::lemma_mod_division_less_than_divisor(
        (v / pow2(offset)) as int,
        pow2(width) as int,
    );
}

/// A stored color component is below `pow2` of the mode's color depth.
proof fn lemma_raw_color_bound(v: nat, c: nat, j: nat)
    ensures
        spec_raw_color(v, c, j) < pow2(spec_color_bits(spec_mode_of(v))),
{
    let mode = spec_mode_of(v);
    let ne = 2 * spec_num_partitions(mode);
    let cw = spec_color_bits(mode);
    lemma_ex_bound(v, spec_ep_base(v) + (c * ne + j) * cw, cw);
}

/// A stored alpha component is below `pow2` of the mode's alpha depth.
proof fn lemma_raw_alpha_bound(v: nat, j: nat)
    ensures
        spec_raw_alpha(v, j) < pow2(spec_alpha_bits(spec_mode_of(v))),
{
    let mode = spec_mode_of(v);
    lemma_ex_bound(v, spec_alpha_base(v) + j * spec_alpha_bits(mode), spec_alpha_bits(mode));
}

/// A p-bit is a single bit.
proof fn lemma_pbit_bound(v: nat, j: nat)
    ensures
        spec_pbit(v, j) <= 1,
{
    let mode = spec_mode_of(v);
    if mode == 1 {
        lemma_ex_bound(v, spec_pbit_base(v) + (if j < 2 { 0nat } else { 1 }), 1);
    } else {
        lemma_ex_bound(v, spec_pbit_base(v) + j, 1);
    }
    assert(pow2(1) == 2) by {
        lemma2_to64();
    }
}

/// Decodes one endpoint component to its 8-bit value: shift in the p-bit,
/// if the mode has one, then expand by most-significant-bit replication.
fn endpoint_component(raw: u32, pbv: u32, use_pb: bool, w: u32) -> (r: u32)
    requires
        1 <= w <= 8,
        use_pb ==> w <= 7,
        (raw as nat) < pow2(w as nat),
        pbv <= 1,
    ensures
        use_pb ==> r as nat == spec_expand((raw * 2 + pbv) as nat, (w + 1) as nat),
        !use_pb ==> r as nat == spec_expand(raw as nat, w as nat),
        r <= 255,
{
    proof {
        lemma_pow2_adds(w as nat, 1);
        lemma2_to64();
        if use_pb {
            assert(pow2(w as nat) <= pow2(7)) by {
                if (w as nat) < 7 {
                    vstd::arithmetic::power2::lemma_pow2_strictly_increases(w as nat, 7);
                }
            }
        }
    }
    if use_pb {
        expand_component(raw * 2 + pbv, w + 1)
    } else {
        expand_component(raw, w)
    }
}

/// Computes the four rotated channel bytes of texel `kk` from the decoded
/// block fields.
fn decode_one_texel(
    Ghost(v): Ghost<nat>,
    kk: u32,
    mode: u32,
    np: u32,
    ne: u32,
    cw: u32,
    aw: u32,
    pbits: bool,
    ib1: u32,
    ib2: u32,
    rotation: u32,
    isb: u32,
    endpoints: &[[u32; 4]; 6],
    pb: &[u32; 6],
    idx1: &[u32; 16],
    idx2: &[u32; 16],
    subs: &[u32; 16],
) -> (r: (u32, u32, u32, u32))
    requires
        kk < 16,
        mode < 8,
        mode as nat == spec_mode_of(v),
        np == spec_num_partitions(mode as nat),
        1 <= np <= 3,
        ne == 2 * np,
        cw == spec_color_bits(mode as nat),
        4 <= cw <= 7,
        aw == spec_alpha_bits(mode as nat),
        aw <= 8,
        pbits == spec_has_pbits(mode as nat),
        ib1 == spec_index_bits(mode as nat),
        2 <= ib1 <= 4,
        ib2 == spec_index_bits2(mode as nat),
        ib2 <= 3,
        rotation as nat == spec_rotation(v),
        isb as nat == spec_index_swap(v),
        forall|c2: int, j2: int|
            0 <= c2 < 3 && 0 <= j2 < ne ==> endpoints[j2][c2] as nat == spec_raw_color(
                v,
                c2 as nat,
                j2 as nat,
            ),
        aw > 0 ==> forall|j2: int|
            0 <= j2 < ne ==> endpoints[j2][3] as nat == spec_raw_alpha(v, j2 as nat),
        spec_has_pbits(mode as nat) ==> forall|j2: int|
            0 <= j2 < ne ==> pb[j2] as nat == spec_pbit(v, j2 as nat),
        forall|j2: int| 0 <= j2 < 6 ==> pb[j2] <= 1,
        idx1[kk as int] as nat == spec_idx1(v, kk as nat),
        subs[kk as int] as nat == spec_subset(v, kk as nat),
        subs[kk as int] < np,
        ib2 > 0 ==> idx2[kk as int] as nat == spec_idx2(v, kk as nat),
    ensures
        r.0 as nat == spec_texel_rotated(v, kk as nat, 0),
        r.1 as nat == spec_texel_rotated(v, kk as nat, 1),
        r.2 as nat == spec_texel_rotated(v, kk as nat, 2),
        r.3 as nat == spec_texel_rotated(v, kk as nat, 3),
        r.0 <= 255 && r.1 <= 255 && r.2 <= 255 && r.3 <= 255,
{
    let s = subs[kk as usize];
    let e0 = (2 * s) as usize;
    let e1 = (2 * s + 1) as usize;
    proof {
        lemma_idx_bounds(v, kk as nat);
        lemma_raw_color_bound(v, 0, (2 * s) as nat);
        lemma_raw_color_bound(v, 1, (2 * s) as nat);
        lemma_raw_color_bound(v, 2, (2 * s) as nat);
        lemma_raw_color_bound(v, 0, (2 * s + 1) as nat);
        lemma_raw_color_bound(v, 1, (2 * s + 1) as nat);
        lemma_raw_color_bound(v, 2, (2 * s + 1) as nat);
        lemma_raw_alpha_bound(v, (2 * s) as nat);
        lemma_raw_alpha_bound(v, (2 * s + 1) as nat);
    }
    let wq1 = get_unquant_value(ib1, idx1[kk as usize] as i32) as u32;
    let wq2 = if ib2 > 0 {
        get_unquant_value(ib2, idx2[kk as usize] as i32) as u32
    } else {
        0
    };

    // Fully decoded endpoint components for this texel's subset.
    let r0 = endpoint_component(endpoints[e0][0], pb[e0], pbits, cw);
    let g0 = endpoint_component(endpoints[e0][1], pb[e0], pbits, cw);
    let b0 = endpoint_component(endpoints[e0][2], pb[e0], pbits, cw);
    let r1 = endpoint_component(endpoints[e1][0], pb[e1], pbits, cw);
    let g1 = endpoint_component(endpoints[e1][1], pb[e1], pbits, cw);
    let b1 = endpoint_component(endpoints[e1][2], pb[e1], pbits, cw);
    let a0 = if aw == 0 {
        255
    } else {
        endpoint_component(endpoints[e0][3], pb[e0], pbits, aw)
    };
    let a1 = if aw == 0 {
        255
    } else {
        endpoint_component(endpoints[e1][3], pb[e1], pbits, aw)
    };
    proof {
        assert(r0 as nat == spec_endpoint_color(v, 0, (2 * s) as nat));
        assert(g0 as nat == spec_endpoint_color(v, 1, (2 * s) as nat));
        assert(b0 as nat == spec_endpoint_color(v, 2, (2 * s) as nat));
        assert(r1 as nat == spec_endpoint_color(v, 0, (2 * s + 1) as nat));
        assert(g1 as nat == spec_endpoint_color(v, 1, (2 * s + 1) as nat));
        assert(b1 as nat == spec_endpoint_color(v, 2, (2 * s + 1) as nat));
        assert(a0 as nat == spec_endpoint_alpha(v, (2 * s) as nat));
        assert(a1 as nat == spec_endpoint_alpha(v, (2 * s + 1) as nat));
    }

    // Interpolate the four channels, honoring the index-swap rule.
    let primary_color = ib2 == 0 || isb == 0;
    let wc = if primary_color {
        wq1
    } else {
        wq2
    };
    let r_ch = interpolate(r0, r1, wc);
    let g_ch = interpolate(g0, g1, wc);
    let b_ch = interpolate(b0, b1, wc);
    let a_ch = if ib2 == 0 {
        interpolate(a0, a1, wq1)
    } else if isb == 0 {
        interpolate(a0, a1, wq2)
    } else {
        interpolate(a0, a1, wq1)
    };
    proof {
        assert(r_ch as nat == spec_texel_channel(v, kk as nat, 0));
        assert(g_ch as nat == spec_texel_channel(v, kk as nat, 1));
        assert(b_ch as nat == spec_texel_channel(v, kk as nat, 2));
        assert(a_ch as nat == spec_texel_channel(v, kk as nat, 3));
    }

    // Rotation: swap alpha with the designated channel.
    if rotation == 1 {
        (a_ch, g_ch, b_ch, r_ch)
    } else if rotation == 2 {
        (r_ch, a_ch, b_ch, g_ch)
    } else if rotation == 3 {
        (r_ch, g_ch, a_ch, b_ch)
    } else {
        (r_ch, g_ch, b_ch, a_ch)
    }
}

/// Decodes one 16-byte compressed block into its 4x4 tile of RGBA texels,
/// 64 bytes in raster order.
#[verifier::rlimit(100)]
pub fn decode_texels(compressed: &[u8]) -> (r: [u8; 64])
    requires
        compressed@.len() >= 16,
    ensures
        r@ == spec_decoded_texels(le_bytes_val(compressed@.take(16))),
{
    let mut bs = BitStream::new(compressed);
    let ghost v = bs.val();
    let mut out = [0u8; 64];
    let mode = probe_mode(&mut bs);
    if mode >= 8 {
        proof {
            assert(out@ =~= spec_decoded_texels(v));
        }
        return out;
    }
    proof {
        lemma2_to64();
    }
    let np = num_partitions(mode);
    let ne = 2 * np;
    let cw = color_bits(mode);
    let aw = alpha_bits(mode);
    let pbits = has_pbits(mode);

    // Partition, rotation and index-swap fields.
    let mut partition: u32 = 0;
    let mut rotation: u32 = 0;
    let mut isb: u32 = 0;
    if mode == 0 || mode == 1 || mode == 2 || mode == 3 || mode == 7 {
        let pf = partition_field(mode);
        partition = bs.read_bits(pf);
        proof {
            lemma_consume(v, (mode + 1) as nat, pf as nat);
        }
    }
    if mode == 4 || mode == 5 {
        rotation = bs.read_bits(2);
        proof {
            lemma_consume(v, (mode + 1) as nat, 2);
        }
        if mode == 4 {
            isb = bs.read_bit();
            proof {
                lemma_div_step(v, (mode + 1 + 2) as nat);
            }
        }
    }
    let ghost eb = spec_ep_base(v);
    proof {
        assert(bs.val() == v / pow2(eb));
        assert(partition as nat == spec_partition(v)) by {
            if spec_partition_field(mode as nat) == 0 {
                lemma_pow2_pos((mode + 1) as nat);
                assert(pow2(0) == 1);
                assert((v / pow2((mode + 1) as nat)) % 1 == 0) by {
                    vstd::arithmetic::div_mod::lemma_mod_division_less_than_divisor(
                        (v / pow2((mode + 1) as nat)) as int,
                        1,
                    );
                }
            }
        }
        assert(rotation as nat == spec_rotation(v));
        assert(isb as nat == spec_index_swap(v));
        assert(partition < 64) by {
            lemma_ex_bound(v, (mode + 1) as nat, spec_partition_field(mode as nat));
            assert(pow2(spec_partition_field(mode as nat)) <= 64);
        }
    }

    // Endpoint color components, channel-major.
    let mut endpoints: [[u32; 4]; 6] = [[0; 4], [0; 4], [0; 4], [0; 4], [0; 4], [0; 4]];
    let mut t: u32 = 0;
    let mut cch: u32 = 0;
    let mut jep: u32 = 0;
    while t < 3 * ne
        invariant
            mode < 8,
            mode as nat == spec_mode_of(v),
            np == spec_num_partitions(mode as nat),
            1 <= np <= 3,
            ne == 2 * np,
            cw == spec_color_bits(mode as nat),
            4 <= cw <= 7,
            eb == spec_ep_base(v),
            jep < ne,
            cch <= 3,
            t == cch * ne + jep,
            t <= 3 * ne,
            bs.val() == v / pow2(eb + (t * cw) as nat),
            forall|c2: int, j2: int|
                0 <= c2 < 3 && 0 <= j2 < ne && c2 * ne + j2 < t ==> endpoints[j2][c2] as nat
                    == spec_raw_color(v, c2 as nat, j2 as nat),
        decreases 3 * ne - t,
    {
        let e = bs.read_bits(cw);
        proof {
            lemma_consume(v, eb + (t * cw) as nat, cw as nat);
            assert(((t + 1) * cw) as int == t * cw + cw) by {
                vstd::arithmetic::mul::lemma_mul_is_distributive_add_other_way(
                    cw as int,
                    t as int,
                    1,
                );
            }
            assert(e as nat == ex(v, eb + (t * cw) as nat, cw as nat));
        }
        endpoints[jep as usize][cch as usize] = e;
        proof {
            assert((cch * ne + jep) * cw == t * cw);
            assert(e as nat == spec_raw_color(v, cch as nat, jep as nat));
            assert forall|c2: int, j2: int|
                0 <= c2 && 0 <= j2 < ne && #[trigger] (c2 * ne + j2) == t implies c2 == cch && j2
                == jep by {
                assert(jep < ne);
                assert(c2 == cch && j2 == jep) by (nonlinear_arith)
                    requires
                        c2 * ne + j2 == cch * ne + jep,
                        0 <= j2 < ne,
                        0 <= jep < ne,
                        0 <= c2,
                        0 <= cch,
                        ne > 0,
                ;
            }
        }
        t = t + 1;
        jep = jep + 1;
        if jep == ne {
            jep = 0;
            cch = cch + 1;
            proof {
                assert((cch * ne) as int == (cch - 1) * ne + ne) by {
                    vstd::arithmetic::mul::lemma_mul_is_distributive_sub_other_way(
                        ne as int,
                        cch as int,
                        1,
                    );
                }
            }
        }
    }
    let ghost ab = spec_alpha_base(v);
    proof {
        assert(3 * ne * cw == t * cw);
        assert(bs.val() == v / pow2(ab));
        assert forall|c2: int, j2: int| 0 <= c2 < 3 && 0 <= j2 < ne implies endpoints[j2][c2]
            as nat == spec_raw_color(v, c2 as nat, j2 as nat) by {
            assert(c2 * ne + j2 < 3 * ne) by (nonlinear_arith)
                requires
                    0 <= c2 < 3,
                    0 <= j2 < ne,
            ;
        }
    }

    // Endpoint alpha components, when the mode stores them.
    if aw > 0 {
        let mut j: u32 = 0;
        while j < ne
            invariant
                mode < 8,
                mode as nat == spec_mode_of(v),
                np == spec_num_partitions(mode as nat),
                1 <= np <= 3,
                ne == 2 * np,
                aw == spec_alpha_bits(mode as nat),
                1 <= aw <= 8,
                ab == spec_alpha_base(v),
                j <= ne,
                bs.val() == v / pow2(ab + (j * aw) as nat),
                forall|c2: int, j2: int|
                    0 <= c2 < 3 && 0 <= j2 < ne ==> endpoints[j2][c2] as nat == spec_raw_color(
                        v,
                        c2 as nat,
                        j2 as nat,
                    ),
                forall|j2: int|
                    0 <= j2 < j ==> endpoints[j2][3] as nat == spec_raw_alpha(v, j2 as nat),
            decreases ne - j,
        {
            let e = bs.read_bits(aw);
            proof {
                lemma_consume(v, ab + (j * aw) as nat, aw as nat);
                assert(((j + 1) * aw) as int == j * aw + aw) by {
                    vstd::arithmetic::mul::lemma_mul_is_distributive_add_other_way(
                        aw as int,
                        j as int,
                        1,
                    );
                }
            }
            endpoints[j as usize][3] = e;
            j = j + 1;
        }
    }
    let ghost pbb = spec_pbit_base(v);
    proof {
        if aw > 0 {
            assert(bs.val() == v / pow2(pbb));
        } else {
            assert(ne * aw == 0) by {
                vstd::arithmetic::mul::lemma_mul_basics(ne as int);
            }
            assert(bs.val() == v / pow2(pbb));
        }
    }

    // P-bits: one shared pair in mode 1, one per endpoint otherwise.
    let mut pb: [u32; 6] = [0; 6];
    if mode == 1 {
        let p0 = bs.read_bit();
        proof {
            lemma_div_step(v, pbb);
        }
        let p1 = bs.read_bit();
        proof {
            lemma_div_step(v, pbb + 1);
        }
        pb[0] = p0;
        pb[1] = p0;
        pb[2] = p1;
        pb[3] = p1;
    } else if pbits {
        let mut j: u32 = 0;
        while j < ne
            invariant
                mode < 8,
                mode as nat == spec_mode_of(v),
                mode != 1,
                spec_has_pbits(mode as nat),
                np == spec_num_partitions(mode as nat),
                1 <= np <= 3,
                ne == 2 * np,
                pbb == spec_pbit_base(v),
                j <= ne,
                bs.val() == v / pow2(pbb + j as nat),
                forall|j2: int| 0 <= j2 < j ==> pb[j2] as nat == spec_pbit(v, j2 as nat),
                forall|j2: int| 0 <= j2 < 6 ==> pb[j2] <= 1,
            decreases ne - j,
        {
            let p = bs.read_bit();
            proof {
                lemma_div_step(v, pbb + j as nat);
                assert(pow2(1) == 2) by {
                    lemma2_to64();
                }
            }
            pb[j as usize] = p;
            j = j + 1;
        }
    }
    let ghost ib = spec_index_base(v);
    proof {
        assert(bs.val() == v / pow2(ib));
        assert(spec_has_pbits(mode as nat) ==> forall|j2: int|
            0 <= j2 < ne ==> pb[j2] as nat == spec_pbit(v, j2 as nat));
    }

    // Partition pattern and anchor texels.
    let pat: u32 = if np > 1 {
        get_pattern(((np - 2) * 64 + partition) as i32)
    } else {
        0
    };
    let skips: [u32; 3] = if np > 1 {
        get_skips(((np - 2) * 64 + partition) as i32)
    } else {
        [0, 0, 0]
    };
    let ib1 = index_bits(mode);
    let ib2 = index_bits2(mode);

    // Pass 1: primary indices, one less bit at each subset's anchor texel.
    let mut idx1: [u32; 16] = [0; 16];
    let mut subs: [u32; 16] = [0; 16];
    let mut k: u32 = 0;
    while k < 16
        invariant
            mode < 8,
            mode as nat == spec_mode_of(v),
            np == spec_num_partitions(mode as nat),
            1 <= np <= 3,
            ne == 2 * np,
            ib1 == spec_index_bits(mode as nat),
            2 <= ib1 <= 4,
            ib == spec_index_base(v),
            partition as nat == spec_partition(v),
            partition < 64,
            np > 1 ==> pat == spec_pattern(((np - 2) * 64 + spec_partition(v)) as int),
            np > 1 ==> skips[1] == spec_skip_packed(((np - 2) * 64 + spec_partition(v)) as int)
                >> 4u32 && skips[2] == spec_skip_packed(
                ((np - 2) * 64 + spec_partition(v)) as int,
            ) & 15,
            skips[0] == 0,
            k <= 16,
            bs.val() == v / pow2(ib + spec_idx1_off(v, k as nat)),
            forall|k2: int|
                0 <= k2 < k ==> idx1[k2] as nat == spec_idx1(v, k2 as nat) && subs[k2] as nat
                    == spec_subset(v, k2 as nat) && subs[k2] < np,
        decreases 16 - k,
    {
        let s: u32 = if np == 1 {
            0
        } else {
            let raw = (pat >> (2 * k)) & 3;
            proof {
                assert(((pat >> (2 * k)) & 3) < 4) by (bit_vector);
            }
            if raw >= np {
                np - 1
            } else {
                raw
            }
        };
        proof {
            assert(s as nat == spec_subset(v, k as nat));
            assert(s < np);
        }
        let anchor: u32 = if s == 1 {
            skips[1]
        } else if s == 2 {
            skips[2]
        } else {
            0
        };
        proof {
            assert(anchor as nat == spec_anchor(v, s as nat));
        }
        let w: u32 = if k == anchor {
            ib1 - 1
        } else {
            ib1
        };
        proof {
            assert(w as nat == spec_idx1_width(v, k as nat));
        }
        let idx = bs.read_bits(w);
        proof {
            lemma_consume(v, ib + spec_idx1_off(v, k as nat), w as nat);
            assert(spec_idx1_off(v, (k + 1) as nat) == spec_idx1_off(v, k as nat)
                + spec_idx1_width(v, k as nat));
            assert(idx as nat == spec_idx1(v, k as nat));
        }
        idx1[k as usize] = idx;
        subs[k as usize] = s;
        k = k + 1;
    }
    let ghost ib2base = spec_index2_base(v);
    proof {
        assert(bs.val() == v / pow2(ib2base));
    }

    // Pass 2 reads: secondary indices of the dual-index modes, one less bit
    // at the very first texel.
    let mut idx2: [u32; 16] = [0; 16];
    if ib2 > 0 {
        let mut k2: u32 = 0;
        while k2 < 16
            invariant
                mode < 8,
                mode as nat == spec_mode_of(v),
                ib2 == spec_index_bits2(mode as nat),
                2 <= ib2 <= 3,
                ib2base == spec_index2_base(v),
                k2 <= 16,
                bs.val() == v / pow2(ib2base + spec_idx2_off(v, k2 as nat)),
                forall|kx: int| 0 <= kx < k2 ==> idx2[kx] as nat == spec_idx2(v, kx as nat),
            decreases 16 - k2,
        {
            let w: u32 = if k2 == 0 {
                ib2 - 1
            } else {
                ib2
            };
            proof {
                assert(w as nat == spec_idx2_width(v, k2 as nat));
            }
            let idx = bs.read_bits(w);
            proof {
                lemma_consume(v, ib2base + spec_idx2_off(v, k2 as nat), w as nat);
                assert(spec_idx2_off(v, (k2 + 1) as nat) == spec_idx2_off(v, k2 as nat)
                    + spec_idx2_width(v, k2 as nat));
                assert(idx as nat == spec_idx2(v, k2 as nat));
            }
            idx2[k2 as usize] = idx;
            k2 = k2 + 1;
        }
    }

    // Interpolate every texel and apply the rotation swap.
    let mut kk: u32 = 0;
    while kk < 16
        invariant
            mode < 8,
            mode as nat == spec_mode_of(v),
            np == spec_num_partitions(mode as nat),
            1 <= np <= 3,
            ne == 2 * np,
            cw == spec_color_bits(mode as nat),
            4 <= cw <= 7,
            aw == spec_alpha_bits(mode as nat),
            aw <= 8,
            pbits == spec_has_pbits(mode as nat),
            ib1 == spec_index_bits(mode as nat),
            2 <= ib1 <= 4,
            ib2 == spec_index_bits2(mode as nat),
            ib2 <= 3,
            rotation as nat == spec_rotation(v),
            isb as nat == spec_index_swap(v),
            forall|c2: int, j2: int|
                0 <= c2 < 3 && 0 <= j2 < ne ==> endpoints[j2][c2] as nat == spec_raw_color(
                    v,
                    c2 as nat,
                    j2 as nat,
                ),
            aw > 0 ==> forall|j2: int|
                0 <= j2 < ne ==> endpoints[j2][3] as nat == spec_raw_alpha(v, j2 as nat),
            spec_has_pbits(mode as nat) ==> forall|j2: int|
                0 <= j2 < ne ==> pb[j2] as nat == spec_pbit(v, j2 as nat),
            forall|j2: int| 0 <= j2 < 6 ==> pb[j2] <= 1,
            forall|k2: int|
                0 <= k2 < 16 ==> idx1[k2] as nat == spec_idx1(v, k2 as nat) && subs[k2] as nat
                    == spec_subset(v, k2 as nat) && subs[k2] < np,
            ib2 > 0 ==> forall|kx: int| 0 <= kx < 16 ==> idx2[kx] as nat == spec_idx2(
                v,
                kx as nat,
            ),
            kk <= 16,
            forall|i: int| 0 <= i < 4 * kk ==> out[i] as nat == spec_decoded_texels(v)[i],
        decreases 16 - kk,
    {
        let (fr, fg, fb, fa) = decode_one_texel(
            Ghost(v),
            kk,
            mode,
            np,
            ne,
            cw,
            aw,
            pbits,
            ib1,
            ib2,
            rotation,
            isb,
            &endpoints,
            &pb,
            &idx1,
            &idx2,
            &subs,
        );
        let base = (4 * kk) as usize;
        out[base] = fr as u8;
        out[base + 1] = fg as u8;
        out[base + 2] = fb as u8;
        out[base + 3] = fa as u8;
        proof {
            lemma_texel_split(kk as int, 0);
            lemma_texel_split(kk as int, 1);
            lemma_texel_split(kk as int, 2);
            lemma_texel_split(kk as int, 3);
            assert(out[4 * kk as int] as nat == spec_decoded_texels(v)[4 * kk as int]);
            assert(out[4 * kk as int + 1] as nat == spec_decoded_texels(v)[4 * kk as int + 1]);
            assert(out[4 * kk as int + 2] as nat == spec_decoded_texels(v)[4 * kk as int + 2]);
            assert(out[4 * kk as int + 3] as nat == spec_decoded_texels(v)[4 * kk as int + 3]);
        }
        kk = kk + 1;
    }
    proof {
        assert(out@ =~= spec_decoded_texels(v));
    }
    out
}

/// The stored indices fit the weight tables.
proof fn lemma_idx_bounds(v: nat, k: nat)
    ensures
        spec_idx1(v, k) < 16,
        spec_idx2(v, k) < 16,
{
    lemma_ex_bound(v, spec_index_base(v) + spec_idx1_off(v, k), spec_idx1_width(v, k));
    lemma_ex_bound(v, spec_index2_base(v) + spec_idx2_off(v, k), spec_idx2_width(v, k));
    lemma2_to64();
    assert(spec_idx1_width(v, k) <= 4);
    assert(spec_idx2_width(v, k) <= 3);
    assert(pow2(spec_idx1_width(v, k)) <= pow2(4)) by {
        if spec_idx1_width(v, k) < 4 {
            vstd::arithmetic::power2::lemma_pow2_strictly_increases(spec_idx1_width(v, k), 4);
        }
    }
    assert(pow2(spec_idx2_width(v, k)) <= pow2(4)) by {
        if spec_idx2_width(v, k) < 4 {
            vstd::arithmetic::power2::lemma_pow2_strictly_increases(spec_idx2_width(v, k), 4);
        }
    }
}


/// Writes the 64 texel bytes of one decoded tile into `dest`, each texel at
/// `base + row * pitch + column * 4`, in raster order.
fn write_block_texels(dest: &mut [u8], tex: &[u8; 64], base: usize, pitch: usize)
    requires
        base + 3 * pitch + 16 <= old(dest)@.len(),
    ensures
        final(dest)@ == spec_write_texels(old(dest)@, tex@, base as int, pitch as int, 0),
        final(dest)@.len() == old(dest)@.len(),
{
    let ghost orig = dest@;
    let n = dest.len();
    let mut k: usize = 0;
    while k < 16
        invariant
            k <= 16,
            base + 3 * pitch + 16 <= n,
            n == dest@.len(),
            dest@.len() == orig.len(),
            spec_write_texels(orig, tex@, base as int, pitch as int, 0) == spec_write_texels(
                dest@,
                tex@,
                base as int,
                pitch as int,
                k as int,
            ),
        decreases 16 - k,
    {
        let row = k / 4;
        let col = k % 4;
        proof {
            assert(row <= 3 && col <= 3);
            assert(row * pitch <= 3 * pitch) by (nonlinear_arith)
                requires
                    row <= 3,
                    0 <= pitch,
            ;
        }
        let off = base + row * pitch + col * 4;
        let ghost bk = dest@;
        dest[off] = tex[4 * k];
        dest[off + 1] = tex[4 * k + 1];
        dest[off + 2] = tex[4 * k + 2];
        dest[off + 3] = tex[4 * k + 3];
        proof {
            assert(dest@ =~= spec_write4(bk, off as int, tex@, k as int));
            assert(off as int == base + (k as int / 4) * pitch + (k as int % 4) * 4);
            assert(spec_write_texels(bk, tex@, base as int, pitch as int, k as int)
                == spec_write_texels(dest@, tex@, base as int, pitch as int, k as int + 1));
        }
        k = k + 1;
    }
    proof {
        assert(spec_write_texels(dest@, tex@, base as int, pitch as int, 16) == dest@);
    }
}


/// Decodes one compressed block into a tile of the destination buffer, the
/// four bytes of each texel at `row * destination_pitch + column * 4`.
pub fn decode_block_bc7(compressed: &[u8], decompressed: &mut [u8], destination_pitch: usize)
    requires
        compressed@.len() >= 16,
        3 * destination_pitch + 16 <= old(decompressed)@.len(),
    ensures
        final(decompressed)@ == spec_write_texels(
            old(decompressed)@,
            spec_decoded_texels(le_bytes_val(compressed@.take(16))),
            0,
            destination_pitch as int,
            0,
        ),
        final(decompressed)@.len() == old(decompressed)@.len(),
{
    let tex = decode_texels(compressed);
    write_block_texels(decompressed, &tex, 0, destination_pitch);
}

/// The whole image decoded: every block's tile written in raster order into
/// an RGBA8 buffer of `4 * width` bytes per row.
pub open spec fn spec_decompress_image(
    rgba: Seq<u8>,
    blocks: Seq<u8>,
    bw: int,
    pitch: int,
    b: int,
    nb: int,
) -> Seq<u8>
    decreases nb - b,
{
    if b < 0 || b >= nb || bw <= 0 {
        rgba
    } else {
        spec_decompress_image(
            spec_write_texels(
                rgba,
                spec_decoded_texels(le_bytes_val(blocks.subrange(16 * b, 16 * b + 16))),
                (b / bw) * 4 * pitch + (b % bw) * 16,
                pitch,
                0,
            ),
            blocks,
            bw,
            pitch,
            b + 1,
            nb,
        )
    }
}

/// Decodes block `b` of the image and writes its tile into the pixel
/// buffer.
fn decompress_one_block(
    rgba_data: &mut [u8],
    blocks_data: &[u8],
    b: usize,
    bw: usize,
    bh: usize,
    width: u32,
    height: u32,
    pitch: usize,
) -> (base: Ghost<int>)
    requires
        bw == width as int / 4,
        bh == height as int / 4,
        width % 4 == 0,
        height % 4 == 0,
        width <= 0x3FFF_FF00,
        height <= 0x3FFF_FF00,
        pitch == 4 * width,
        b < bw * bh,
        blocks_data@.len() == bw as int * (bh as int * 16),
        old(rgba_data)@.len() == width * height * 4,
        (width as int) * (height as int) * 4 <= usize::MAX,
    ensures
        base@ == (b as int / bw as int) * 4 * pitch + (b as int % bw as int) * 16,
        final(rgba_data)@ == spec_write_texels(
            old(rgba_data)@,
            spec_decoded_texels(
                le_bytes_val(blocks_data@.subrange(16 * b as int, 16 * b as int + 16)),
            ),
            base@,
            pitch as int,
            0,
        ),
        final(rgba_data)@.len() == old(rgba_data)@.len(),
{
    let blocks_len = blocks_data.len();
    proof {
        assert(bw > 0 && bh > 0) by (nonlinear_arith)
            requires
                b < bw as int * bh as int,
                0 <= b,
                0 <= bw,
                0 <= bh,
        ;
    }
    let by = b / bw;
    let bx = b % bw;
    proof {
        vstd::arithmetic::div_mod::lemma_fundamental_div_mod(b as int, bw as int);
        vstd::arithmetic::div_mod::lemma_mod_division_less_than_divisor(b as int, bw as int);
        assert(by < bh) by (nonlinear_arith)
            requires
                b as int == bw as int * (b as int / bw as int) + b as int % bw as int,
                by == b as int / bw as int,
                b < bw as int * bh as int,
                0 <= b as int % bw as int,
                0 < bw,
                0 <= bh,
                0 <= by,
        ;
        assert(width as int == 4 * bw) by {
            vstd::arithmetic::div_mod::lemma_fundamental_div_mod(width as int, 4);
        }
        assert(height as int == 4 * bh) by {
            vstd::arithmetic::div_mod::lemma_fundamental_div_mod(height as int, 4);
        }
        // The block's tile fits in the pixel buffer.
        assert(by * 4 * pitch + bx * 16 + 3 * pitch + 16 <= (width as int) * (height as int) * 4)
            by (nonlinear_arith)
            requires
                by < bh,
                bx < bw,
                0 <= by,
                0 <= bx,
                pitch == 4 * width,
                width as int == 4 * bw,
                height as int == 4 * bh,
        ;
        assert(16 * b + 16 <= blocks_data@.len()) by (nonlinear_arith)
            requires
                b < bw as int * bh as int,
                blocks_data@.len() == bw as int * (bh as int * 16),
                0 <= b,
        ;
        assert(by * 4 * pitch <= bh as int * 4 * pitch) by (nonlinear_arith)
            requires
                by < bh,
                0 <= by,
                0 <= pitch,
        ;
        assert(bh as int * 4 * pitch == (width as int) * (height as int) * 4) by (nonlinear_arith)
            requires
                pitch == 4 * width,
                height as int == 4 * bh,
        ;
        assert(bx * 16 < bw as int * 16) by (nonlinear_arith)
            requires
                bx < bw,
                0 <= bx,
        ;
    }
    let base = by * 4 * pitch + bx * 16;
    let tex = decode_texels(&blocks_data[16 * b..16 * b + 16]);
    proof {
        assert(blocks_data@.subrange(16 * b as int, 16 * b as int + 16).take(16)
            =~= blocks_data@.subrange(16 * b as int, 16 * b as int + 16));
    }
    write_block_texels(rgba_data, &tex, base, pitch);
    Ghost(base as int)
}

/// Decompresses a whole image of blocks into an RGBA8 pixel buffer.  The
/// dimensions must be multiples of four and both buffer lengths must match
/// them exactly; a violation is reported and nothing is written.
#[verifier::rlimit(100)]
pub fn decompress_blocks_as_rgba8(
    variant: CompressionVariant,
    width: u32,
    height: u32,
    blocks_data: &[u8],
    rgba_data: &mut [u8],
) -> (r: Result<(), CodecError>)
    requires
        width <= 0x3FFF_FF00,
        height <= 0x3FFF_FF00,
        spec_blocks_byte_size(width as int, height as int) <= usize::MAX,
        (width as int) * (height as int) * 4 <= usize::MAX,
    ensures
        r == Err::<(), CodecError>(CodecError::InvalidDimensions) <==> (width % 4 != 0 || height
            % 4 != 0),
        r == Err::<(), CodecError>(CodecError::InvalidBufferSize) <==> (width % 4 == 0 && height
            % 4 == 0 && (blocks_data@.len() != spec_blocks_byte_size(width as int, height as int)
            || old(rgba_data)@.len() != width * height * 4)),
        r is Ok <==> (width % 4 == 0 && height % 4 == 0 && blocks_data@.len()
            == spec_blocks_byte_size(width as int, height as int) && old(rgba_data)@.len()
            == width * height * 4),
        r is Err ==> final(rgba_data)@ == old(rgba_data)@,
        r is Ok ==> final(rgba_data)@ == spec_decompress_image(
            old(rgba_data)@,
            blocks_data@,
            width as int / 4,
            4 * width as int,
            0,
            (width as int / 4) * (height as int / 4),
        ),
        final(rgba_data)@.len() == old(rgba_data)@.len(),
{
    if width % 4 != 0 || height % 4 != 0 {
        return Err(CodecError::InvalidDimensions);
    }
    let bw = (width / 4) as usize;
    let bh = (height / 4) as usize;
    proof {
        assert(width as int + 3 < 0x4000_0000);
        assert((width as int + 3) / 4 == width as int / 4);
        assert((height as int + 3) / 4 == height as int / 4);
        assert(bw as int * (bh as int * 16) == spec_blocks_byte_size(
            width as int,
            height as int,
        )) by (nonlinear_arith)
            requires
                bw == width as int / 4,
                bh == height as int / 4,
                (width as int + 3) / 4 == width as int / 4,
                (height as int + 3) / 4 == height as int / 4,
        ;
        assert(bw < 0x1000_0000 && bh < 0x1000_0000);
        assert(bh * 16 < 0x1_0000_0000);
        assert(bw as int * (bh as int * 16) <= usize::MAX);
    }
    let expected_blocks = bw * (bh * 16);
    let expected_rgba_a = (width as usize) * (height as usize);
    proof {
        assert((width as int) * (height as int) <= usize::MAX) by (nonlinear_arith)
            requires
                (width as int) * (height as int) * 4 <= usize::MAX,
                0 <= (width as int) * (height as int),
        ;
        assert(0 <= (width as int) * (height as int)) by (nonlinear_arith)
            requires
                0 <= width,
                0 <= height,
        ;
    }
    if blocks_data.len() != expected_blocks {
        return Err(CodecError::InvalidBufferSize);
    }
    let rgba_len = rgba_data.len();
    if rgba_len / 4 != expected_rgba_a || rgba_len % 4 != 0 {
        proof {
            assert(rgba_data@.len() != width * height * 4) by {
                if rgba_data@.len() == (width as int) * (height as int) * 4 {
                    assert(rgba_len as int == expected_rgba_a as int * 4) by (nonlinear_arith)
                        requires
                            rgba_len as int == (width as int) * (height as int) * 4,
                            expected_rgba_a == (width as int) * (height as int),
                    ;
                    assert(rgba_len as int / 4 == expected_rgba_a as int
                        && rgba_len as int % 4 == 0) by {
                        vstd::arithmetic::div_mod::lemma_fundamental_div_mod_converse(
                            rgba_len as int,
                            4,
                            expected_rgba_a as int,
                            0,
                        );
                    }
                }
            }
        }
        return Err(CodecError::InvalidBufferSize);
    }
    proof {
        vstd::arithmetic::div_mod::lemma_fundamental_div_mod(rgba_len as int, 4);
        assert(rgba_len as int == expected_rgba_a as int * 4) by (nonlinear_arith)
            requires
                rgba_len as int == 4 * (rgba_len as int / 4) + rgba_len as int % 4,
                rgba_len as int / 4 == expected_rgba_a as int,
                rgba_len as int % 4 == 0,
        ;
        assert(rgba_data@.len() == width * height * 4) by (nonlinear_arith)
            requires
                rgba_len as int == expected_rgba_a as int * 4,
                expected_rgba_a == (width as int) * (height as int),
                rgba_len == rgba_data@.len(),
        ;
    }
    let pitch = (width as usize) * 4;
    proof {
        assert(bw as int * bh as int <= expected_blocks) by (nonlinear_arith)
            requires
                expected_blocks == bw as int * (bh as int * 16),
                0 <= bw,
                0 <= bh,
        ;
    }
    let nb = bw * bh;
    let ghost orig = rgba_data@;
    let mut b: usize = 0;
    while b < nb
        invariant
            nb == bw * bh,
            bw == width as int / 4,
            bh == height as int / 4,
            width % 4 == 0,
            height % 4 == 0,
            width <= 0x3FFF_FF00,
            height <= 0x3FFF_FF00,
            pitch == 4 * width,
            blocks_data@.len() == bw as int * (bh as int * 16),
            rgba_data@.len() == width * height * 4,
            rgba_data@.len() == orig.len(),
            (width as int) * (height as int) * 4 <= usize::MAX,
            b <= nb,
            spec_decompress_image(orig, blocks_data@, bw as int, pitch as int, 0, nb as int)
                == spec_decompress_image(
                rgba_data@,
                blocks_data@,
                bw as int,
                pitch as int,
                b as int,
                nb as int,
            ),
        decreases nb - b,
    {
        let ghost prev = rgba_data@;
        let base = decompress_one_block(
            rgba_data,
            blocks_data,
            b,
            bw,
            bh,
            width,
            height,
            pitch,
        );
        proof {
            assert(spec_decompress_image(
                prev,
                blocks_data@,
                bw as int,
                pitch as int,
                b as int,
                nb as int,
            ) == spec_decompress_image(
                rgba_data@,
                blocks_data@,
                bw as int,
                pitch as int,
                b as int + 1,
                nb as int,
            ));
        }
        b = b + 1;
    }
    Ok(())
}

} // verus!
