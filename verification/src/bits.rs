//! Fixed-width bit packing and unpacking over small scratch regions.
//!
//! The writer accumulates into five 32-bit words (160 bits); the reader holds
//! 128 bits as two 64-bit halves.  Both are modelled by the natural number
//! whose binary digits are the stored bits, least significant first, so that
//! appending a `w`-bit value `v` at offset `p` adds `v * pow2(p)` and reading
//! `w` bits takes the value modulo `pow2(w)`.

use vstd::prelude::*;
use vstd::arithmetic::power2::{
    pow2, lemma_pow2_adds, lemma_pow2_pos, lemma_pow2_strictly_increases, lemma2_to64,
    lemma2_to64_rest,
};
use vstd::arithmetic::div_mod::{
    lemma_div_denominator, lemma_fundamental_div_mod, lemma_div_multiples_vanish, lemma_small_mod,
    lemma_fundamental_div_mod_converse,
};
use vstd::arithmetic::mul::{lemma_mul_inequality, lemma_mul_strict_inequality};
use vstd::bits::{
    lemma_u64_shl_is_mul, lemma_u32_shl_is_mul, lemma_u32_shr_is_div, lemma_u64_shr_is_div,
    lemma_u64_low_bits_mask_is_mod, low_bits_mask,
};

verus! {

/// The number stored by the five words of a bit writer, low word first.
pub open spec fn data_val(d: [u32; 5]) -> nat {
    d[0] as nat + d[1] as nat * pow2(32) + d[2] as nat * pow2(64) + d[3] as nat * pow2(96)
        + d[4] as nat * pow2(128)
}

/// The number stored by the two halves of a bit reader, low half first.
spec fn halves_val(low: u64, high: u64) -> nat {
    low as nat + high as nat * pow2(64)
}

/// `1 << s` is `pow2(s)` for a 32-bit shift.
proof fn lemma_u32_pow2_shift(s: u32)
    requires
        s < 32,
    ensures
        (1u32 << s) as nat == pow2(s as nat),
{
    lemma2_to64();
    assert(pow2(s as nat) <= pow2(31)) by {
        if (s as nat) < 31 {
            lemma_pow2_strictly_increases(s as nat, 31);
        }
    }
    assert(1 * pow2(s as nat) == pow2(s as nat));
    lemma_u32_shl_is_mul(1u32, s);
}

/// `1 << s` is `pow2(s)` for a 64-bit shift.
proof fn lemma_u64_pow2_shift(s: u64)
    requires
        s < 64,
    ensures
        (1u64 << s) as nat == pow2(s as nat),
{
    lemma2_to64();
    lemma2_to64_rest();
    assert(pow2(s as nat) <= pow2(63)) by {
        if (s as nat) < 63 {
            lemma_pow2_strictly_increases(s as nat, 63);
        }
    }
    assert(1 * pow2(s as nat) == pow2(s as nat));
    lemma_u64_shl_is_mul(1u64, s);
}

/// `1 << s` is `pow2(s)`, as a fact usable outside this module.
pub proof fn lemma_u32_shift_is_pow2(s: u32)
    requires
        s < 32,
    ensures
        (1u32 << s) as nat == pow2(s as nat),
{
    lemma_u32_pow2_shift(s);
}

/// In a word whose bits at positions `>= s` are clear, bitwise or with a
/// value whose bits at positions `< s` are clear is addition.
proof fn lemma_u32_or_is_add(d: u32, x: u32, s: u32)
    requires
        s < 32,
        d < pow2(s as nat),
        x & (((1u32 << s) - 1) as u32) == 0,
    ensures
        (d | x) == d + x,
{
    lemma_u32_pow2_shift(s);
    assert((d | x) == d + x) by (bit_vector)
        requires
            s < 32,
            d < (1u32 << s),
            x & (((1u32 << s) - 1) as u32) == 0,
    ;
}

/// Same fact for 64-bit words.
proof fn lemma_u64_or_is_add(d: u64, x: u64, s: u64)
    requires
        s < 64,
        d < pow2(s as nat),
        x & (((1u64 << s) - 1) as u64) == 0,
    ensures
        (d | x) == d + x,
{
    lemma_u64_pow2_shift(s);
    assert((d | x) == d + x) by (bit_vector)
        requires
            s < 64,
            d < (1u64 << s),
            x & (((1u64 << s) - 1) as u64) == 0,
    ;
}

/// A writer that already holds `pos` bits has all its upper words clear and
/// only the low `pos % 32` bits of the current word set.
proof fn lemma_data_val_parts(d: [u32; 5], pos: u32)
    requires
        pos <= 160,
        data_val(d) < pow2(pos as nat),
    ensures
        forall|j: int| 0 <= j < 5 && j > pos / 32 ==> d[j] == 0,
        pos < 160 ==> d[pos as int / 32] < pow2((pos % 32) as nat),
{
    lemma2_to64();
    lemma2_to64_rest();
    lemma_pow2_adds(32, 32);
    lemma_pow2_adds(64, 32);
    lemma_pow2_adds(96, 32);
    lemma_pow2_adds(128, 32);
    assert forall|j: int| 0 <= j < 5 && j > pos / 32 implies d[j] == 0 by {
        if d[j] != 0 {
            let w: nat = (32 * j) as nat;
            // Each term of the sum is at most the whole, and pow2 is increasing.
            assert(d[j] as nat * pow2(w) <= data_val(d)) by {
                assert(j == 1 ==> w == 32 && d[1] as nat * pow2(32) <= data_val(d));
                assert(j == 2 ==> w == 64 && d[2] as nat * pow2(64) <= data_val(d));
                assert(j == 3 ==> w == 96 && d[3] as nat * pow2(96) <= data_val(d));
                assert(j == 4 ==> w == 128 && d[4] as nat * pow2(128) <= data_val(d));
            }
            assert(pow2(pos as nat) <= pow2(w)) by {
                if (pos as nat) < w {
                    lemma_pow2_strictly_increases(pos as nat, w);
                }
            }
            assert(pow2(w) <= d[j] as nat * pow2(w)) by {
                lemma_mul_inequality(1, d[j] as int, pow2(w) as int);
            }
        }
    }
    if pos < 160 {
        let k = pos as int / 32;
        let s: nat = (pos % 32) as nat;
        let w: nat = (32 * k) as nat;
        assert(d[k] as nat * pow2(w) <= data_val(d)) by {
            assert(pow2(0) == 1);
            assert(k == 0 ==> w == 0 && d[0] as nat * pow2(0) <= data_val(d));
            assert(k == 1 ==> w == 32 && d[1] as nat * pow2(32) <= data_val(d));
            assert(k == 2 ==> w == 64 && d[2] as nat * pow2(64) <= data_val(d));
            assert(k == 3 ==> w == 96 && d[3] as nat * pow2(96) <= data_val(d));
            assert(k == 4 ==> w == 128 && d[4] as nat * pow2(128) <= data_val(d));
        }
        lemma_pow2_adds(w, s);
        assert(pos as nat == w + s);
        if d[k] >= pow2(s) {
            assert(pow2(s) * pow2(w) <= d[k] as nat * pow2(w)) by {
                lemma_mul_inequality(pow2(s) as int, d[k] as int, pow2(w) as int);
            }
            assert(pow2(w) * pow2(s) == pow2(s) * pow2(w)) by {
                broadcast use vstd::arithmetic::mul::lemma_mul_is_commutative;

            }
            assert(false);
        }
    }
}

/// Raising one word by `x` raises the stored number by `x * pow2(32 * k)`.
proof fn lemma_data_val_update1(d0: [u32; 5], d1: [u32; 5], k: int, x: nat)
    requires
        0 <= k < 5,
        d1[k] as nat == d0[k] as nat + x,
        forall|i: int| 0 <= i < 5 && i != k ==> d1[i] == d0[i],
    ensures
        data_val(d1) == data_val(d0) + x * pow2((32 * k) as nat),
{
    broadcast use vstd::arithmetic::mul::group_mul_is_distributive;

    assert(pow2(0) == 1) by {
        lemma2_to64();
    }
    if k == 0 {
        assert(x * pow2(0) == x);
    } else if k == 1 {
        assert(d1[1] as nat * pow2(32) == d0[1] as nat * pow2(32) + x * pow2(32));
    } else if k == 2 {
        assert(d1[2] as nat * pow2(64) == d0[2] as nat * pow2(64) + x * pow2(64));
    } else if k == 3 {
        assert(d1[3] as nat * pow2(96) == d0[3] as nat * pow2(96) + x * pow2(96));
    } else {
        assert(d1[4] as nat * pow2(128) == d0[4] as nat * pow2(128) + x * pow2(128));
    }
}

/// Raising one word by `x` and setting the zero word above it to `y` raises
/// the stored number by `x * pow2(32 * k) + y * pow2(32 * (k + 1))`.
proof fn lemma_data_val_update2(d0: [u32; 5], d1: [u32; 5], k: int, x: nat, y: nat)
    requires
        0 <= k < 4,
        d1[k] as nat == d0[k] as nat + x,
        d0[k + 1] == 0,
        d1[k + 1] as nat == y,
        forall|i: int| 0 <= i < 5 && i != k && i != k + 1 ==> d1[i] == d0[i],
    ensures
        data_val(d1) == data_val(d0) + x * pow2((32 * k) as nat) + y * pow2((32 * k + 32) as nat),
{
    broadcast use vstd::arithmetic::mul::group_mul_is_distributive;

    assert(pow2(0) == 1) by {
        lemma2_to64();
    }
    if k == 0 {
        assert(x * pow2(0) == x);
        assert(d1[1] as nat * pow2(32) == y * pow2(32));
    } else if k == 1 {
        assert(d1[1] as nat * pow2(32) == d0[1] as nat * pow2(32) + x * pow2(32));
        assert(d1[2] as nat * pow2(64) == y * pow2(64));
    } else if k == 2 {
        assert(d1[2] as nat * pow2(64) == d0[2] as nat * pow2(64) + x * pow2(64));
        assert(d1[3] as nat * pow2(96) == y * pow2(96));
    } else {
        assert(d1[3] as nat * pow2(96) == d0[3] as nat * pow2(96) + x * pow2(96));
        assert(d1[4] as nat * pow2(128) == y * pow2(128));
    }
}

/// A value split at a 32-bit boundary reassembles: placing the truncated low
/// part at word offset `kw` and the carried high part one word above amounts
/// to placing the whole value at bit offset `kw + sn`.
proof fn lemma_split_carry(v: nat, sn: nat, kw: nat, lo: nat, hi: nat)
    requires
        lo == (v * pow2(sn)) % pow2(32),
        hi == (v * pow2(sn)) / pow2(32),
    ensures
        lo * pow2(kw) + hi * pow2(kw + 32) == v * pow2(kw + sn),
{
    let vs: int = (v * pow2(sn)) as int;
    let q: int = hi as int;
    let r: int = lo as int;
    let p32: int = pow2(32) as int;
    let pkw: int = pow2(kw) as int;
    lemma_pow2_pos(32);
    lemma_pow2_pos(kw);
    lemma_fundamental_div_mod(vs, p32);
    assert(vs == p32 * q + r);
    vstd::arithmetic::mul::lemma_mul_is_distributive_add_other_way(pkw, p32 * q, r);
    assert((p32 * q + r) * pkw == (p32 * q) * pkw + r * pkw);
    vstd::arithmetic::mul::lemma_mul_is_commutative(p32, q);
    vstd::arithmetic::mul::lemma_mul_is_associative(q, p32, pkw);
    assert((p32 * q) * pkw == q * (p32 * pkw));
    lemma_pow2_adds(32, kw);
    vstd::arithmetic::mul::lemma_mul_is_commutative(p32, pkw);
    assert(p32 * pkw == pow2(kw + 32));
    vstd::arithmetic::mul::lemma_mul_is_associative(v as int, pow2(sn) as int, pkw);
    lemma_pow2_adds(sn, kw);
    assert(vs * pkw == v as int * pow2(sn + kw) as int);
    vstd::arithmetic::mul::lemma_mul_is_commutative(vs, pkw);
    assert(vs * pkw == (p32 * q + r) * pkw);
}

/// Appends the low `bits` bits of `v` to the stream at offset `*pos`,
/// splitting across a 32-bit word boundary when necessary, and advances
/// `*pos`.
///
/// The precondition `data_val < pow2(pos)` is the sequential writer's
/// discipline: every bit at or past the write offset is still clear, which
/// is what makes the or below an addition.  The hardware-style operation is
/// an or at an arbitrary offset; this crate's encoder only ever appends, so
/// the narrower, exactly-invertible form is the one specified.
pub fn put_bits(data: &mut [u32; 5], pos: &mut u32, bits: u32, v: u32)
    requires
        1 <= bits <= 32,
        *old(pos) + bits <= 160,
        (v as nat) < pow2(bits as nat),
        data_val(*old(data)) < pow2(*old(pos) as nat),
    ensures
        *final(pos) == *old(pos) + bits,
        data_val(*final(data)) == data_val(*old(data)) + v as nat * pow2(*old(pos) as nat),
        data_val(*final(data)) < pow2(*final(pos) as nat),
{
    proof {
        lemma_data_val_parts(*data, *pos);
    }
    let ghost d0 = *data;
    let ghost old_val = data_val(*data);
    let ghost p = *pos as nat;
    let k = (*pos / 32) as usize;
    let s = *pos % 32;
    let ghost sn = s as nat;
    let ghost kw: nat = (32 * (k as int)) as nat;
    proof {
        lemma_pow2_adds(kw, sn);
        assert(p == kw + sn);
        lemma_pow2_pos(sn);
        lemma_pow2_pos(kw);
        // v * pow2(s) fits in 64 bits.
        assert(v as nat * pow2(sn) < pow2(64)) by {
            assert(v as nat * pow2(sn) < pow2(bits as nat) * pow2(sn)) by {
                lemma_mul_strict_inequality(v as int, pow2(bits as nat) as int, pow2(sn) as int);
            }
            lemma_pow2_adds(bits as nat, sn);
            assert(pow2(bits as nat + sn) <= pow2(64)) by {
                if bits as nat + sn < 64 {
                    lemma_pow2_strictly_increases(bits as nat + sn, 64);
                }
            }
        }
        assert(pow2(64) - 1 == u64::MAX) by {
            lemma2_to64_rest();
        }
        lemma_u64_shl_is_mul(v as u64, s as u64);
        assert((v as u64) << (s as u64) == v as nat * pow2(sn));
    }
    let w0 = data[k];
    let shifted = v << s;
    proof {
        // The shifted word is v * pow2(s) truncated to 32 bits, and its low
        // s bits are clear.
        assert(shifted == ((v as u64) << (s as u64)) as u32) by (bit_vector)
            requires
                s < 32u32,
                shifted == v << s,
        ;
        assert((shifted & (((1u32 << s) - 1) as u32)) == 0u32) by (bit_vector)
            requires
                s < 32u32,
                shifted == v << s,
        ;
        let y: u64 = (v as u64) << (s as u64);
        assert(y as u32 as u64 == y % 0x1_0000_0000u64) by (bit_vector);
        assert(pow2(32) == 0x1_0000_0000u64) by {
            lemma2_to64();
        }
        assert(shifted as nat == (v as nat * pow2(sn)) % pow2(32));
        lemma_u32_or_is_add(w0, shifted, s);
    }
    data[k] = data[k] | shifted;

    if s + bits > 32 {
        let hi = v >> (32 - s);
        proof {
            assert(k < 4) by {
                if k == 4 {
                    assert(p >= 128 && p % 32 == sn);
                }
            }
            lemma_u32_shr_is_div(v, (32 - s) as u32);
            // The two word deltas reassemble v * pow2(s):
            //   v * 2^s == 2^32 * (v div 2^(32-s)) + (v * 2^s mod 2^32).
            let vs: nat = v as nat * pow2(sn);
            lemma_fundamental_div_mod(vs as int, pow2(32) as int);
            lemma_pow2_adds(sn, (32 - s) as nat);
            lemma_div_denominator(vs as int, pow2(sn) as int, pow2((32 - s) as nat) as int);
            lemma_div_multiples_vanish(v as int, pow2(sn) as int);
            lemma_pow2_pos((32 - s) as nat);
            assert(vs / pow2(32) == v as nat / pow2((32 - s) as nat));
            // The word above the current one is still zero.
            assert(d0[k + 1] == 0);
            assert(data[k as int + 1] == 0);
            assert((0u32 | hi) == hi) by (bit_vector);
        }
        let k1 = k + 1;
        data[k1] = data[k1] | hi;
        proof {
            lemma_data_val_update2(d0, *data, k as int, shifted as nat, hi as nat);
            lemma_pow2_adds(kw, 32);
            assert((32 * (k1 as int)) as nat == kw + 32);
            // Reassemble: shifted * 2^(32k) + hi * 2^(32k + 32) == v * 2^p.
            lemma_split_carry(v as nat, sn, kw, shifted as nat, hi as nat);
        }
    } else {
        proof {
            assert(shifted as nat == v as nat * pow2(sn)) by {
                assert(v as nat * pow2(sn) < pow2(32)) by {
                    assert(v as nat * pow2(sn) < pow2(bits as nat) * pow2(sn)) by {
                        lemma_mul_strict_inequality(
                            v as int,
                            pow2(bits as nat) as int,
                            pow2(sn) as int,
                        );
                    }
                    lemma_pow2_adds(bits as nat, sn);
                    assert(pow2(bits as nat + sn) <= pow2(32)) by {
                        if bits as nat + sn < 32 {
                            lemma_pow2_strictly_increases(bits as nat + sn, 32);
                        }
                    }
                }
                lemma_small_mod(v as nat * pow2(sn), pow2(32));
            }
            lemma_data_val_update1(d0, *data, k as int, shifted as nat);
            assert(shifted as nat * pow2(kw) == v as nat * pow2(p)) by {
                vstd::arithmetic::mul::lemma_mul_is_associative(
                    v as int,
                    pow2(sn) as int,
                    pow2(kw) as int,
                );
                lemma_pow2_adds(sn, kw);
            }
        }
    }
    *pos = *pos + bits;
    proof {
        // The new total stays under pow2 of the new position.
        let new_p: nat = p + bits as nat;
        lemma_pow2_adds(p, bits as nat);
        assert(old_val + v as nat * pow2(p) < pow2(new_p)) by {
            assert(v as nat * pow2(p) <= (pow2(bits as nat) - 1) * pow2(p)) by {
                lemma_mul_inequality(v as int, pow2(bits as nat) as int - 1, pow2(p) as int);
            }
            assert((pow2(bits as nat) - 1) * pow2(p) + pow2(p) == pow2(bits as nat) * pow2(p)) by {
                vstd::arithmetic::mul::lemma_mul_is_distributive_sub_other_way(
                    pow2(p) as int,
                    pow2(bits as nat) as int,
                    1,
                );
            }
            lemma_pow2_pos(p);
        }
    }
}

/// Dividing a value stacked as `a + rest * pow2(eb)` with `a < pow2(eb)` by
/// `pow2(e)` splits cleanly: the quotient restacks at `pow2(eb - e)` and the
/// remainder comes from `a` alone.
proof fn lemma_stack_div(a: nat, rest: nat, eb: nat, e: nat)
    requires
        e <= eb,
        a < pow2(eb),
    ensures
        (a + rest * pow2(eb)) / pow2(e) == a / pow2(e) + rest * pow2((eb - e) as nat),
        (a + rest * pow2(eb)) % pow2(e) == a % pow2(e),
{
    let pe: int = pow2(e) as int;
    let pr: int = pow2((eb - e) as nat) as int;
    lemma_pow2_pos(e);
    lemma_pow2_pos((eb - e) as nat);
    lemma_pow2_adds(e, (eb - e) as nat);
    assert(pow2(eb) == pe * pr);
    lemma_fundamental_div_mod(a as int, pe);
    let q: int = a as int / pe;
    let r: int = a as int % pe;
    assert(a == pe * q + r);
    // a + rest * (pe * pr) == pe * (q + rest * pr) + r
    vstd::arithmetic::mul::lemma_mul_is_associative(rest as int, pe, pr);
    vstd::arithmetic::mul::lemma_mul_is_commutative(rest as int, pe);
    vstd::arithmetic::mul::lemma_mul_is_associative(pe, rest as int, pr);
    vstd::arithmetic::mul::lemma_mul_is_distributive_add(pe, q, rest as int * pr);
    assert(a as int + rest * pow2(eb) == pe * (q + rest * pr) + r);
    lemma_fundamental_div_mod_converse(
        a as int + rest as int * pow2(eb) as int,
        pe,
        q + rest as int * pr,
        r,
    );
}

/// A bit reader over 128 bits, kept as two 64-bit halves; bits are consumed
/// from the low end.
#[derive(Clone, Copy)]
pub struct BitStream {
    low: u64,
    high: u64,
}

impl BitStream {
    /// The number whose binary digits are the unread bits, least significant
    /// first.
    pub closed spec fn val(self) -> nat {
        halves_val(self.low, self.high)
    }

    /// Creates a reader over the first 16 bytes of `data`, least significant
    /// byte first.
    pub fn new(data: &[u8]) -> (r: Self)
        requires
            data@.len() >= 16,
        ensures
            r.val() == le_bytes_val(data@.take(16)),
            r.val() < pow2(128),
    {
        let low = u64_from_le_slice(data, 0);
        let high = u64_from_le_slice(data, 8);
        proof {
            lemma_le_bytes_val_split(data@.take(16), 8);
            assert(data@.take(16).take(8) =~= data@.subrange(0, 8));
            assert(data@.take(16).skip(8) =~= data@.subrange(8, 16));
            lemma2_to64();
            lemma2_to64_rest();
            lemma_pow2_adds(8, 56);
            // The two halves stay under pow2(128).
            lemma_pow2_adds(64, 64);
            assert(high as nat * pow2(64) <= (pow2(64) - 1) * pow2(64)) by {
                lemma_mul_inequality(high as int, pow2(64) as int - 1, pow2(64) as int);
            }
            assert((pow2(64) - 1) * pow2(64) == pow2(128) - pow2(64)) by {
                vstd::arithmetic::mul::lemma_mul_is_distributive_sub_other_way(
                    pow2(64) as int,
                    pow2(64) as int,
                    1,
                );
            }
        }
        Self { low, high }
    }

    /// Reads one bit.
    pub fn read_bit(&mut self) -> (r: u32)
        ensures
            r as nat == old(self).val() % 2,
            final(self).val() == old(self).val() / 2,
            r <= 1,
    {
        let b = self.read_bits(1);
        proof {
            assert(pow2(1) == 2) by { lemma2_to64(); }
        }
        b
    }

    /// Removes the lowest `num_bits` bits from the 128-bit value and returns
    /// them, carrying bits across the half boundary.
    pub fn read_bits(&mut self, num_bits: u32) -> (r: u32)
        requires
            1 <= num_bits <= 32,
        ensures
            r as nat == old(self).val() % pow2(num_bits as nat),
            final(self).val() == old(self).val() / pow2(num_bits as nat),
            (r as nat) < pow2(num_bits as nat),
    {
        let ghost v0 = self.val();
        let ghost nn = num_bits as nat;
        let n = num_bits;
        proof {
            lemma_u64_pow2_shift(n as u64);
            lemma_pow2_pos(nn);
            lemma_pow2_strictly_increases(nn, 64);
            lemma2_to64_rest();
            assert(pow2(64) - 1 == u64::MAX);
        }
        let mask = (1u64 << n) - 1;
        proof {
            assert(mask as nat == pow2(nn) - 1);
            // mask == low_bits_mask(n), so & mask is % pow2(n)
            assert(mask == low_bits_mask(nn) as u64);
            lemma_u64_low_bits_mask_is_mod(self.low, nn);
            lemma_u64_low_bits_mask_is_mod(self.high, nn);
        }
        let bits = (self.low & mask) as u32;
        proof {
            assert(self.low & mask == self.low as nat % pow2(nn));
            vstd::arithmetic::div_mod::lemma_mod_division_less_than_divisor(
                self.low as int,
                pow2(nn) as int,
            );
            assert(pow2(nn) <= pow2(32)) by {
                if nn < 32 {
                    lemma_pow2_strictly_increases(nn, 32);
                }
            }
            lemma2_to64();
            // The result is the low n bits of the whole 128-bit value.
            assert((self.low as nat) < pow2(64));
            lemma_stack_div(self.low as nat, self.high as nat, 64, nn);
        }
        let old_low = self.low;
        self.low = self.low >> n;
        let carried = (self.high & mask) << (64 - n);
        proof {
            lemma_u64_shr_is_div(old_low, n as u64);
            let hm: u64 = (self.high & mask) as u64;
            assert(hm as nat == self.high as nat % pow2(nn));
            assert(hm as nat * pow2((64 - n) as nat) < pow2(64)) by {
                lemma_mul_strict_inequality(
                    hm as int,
                    pow2(nn) as int,
                    pow2((64 - n) as nat) as int,
                );
                lemma_pow2_adds(nn, (64 - n) as nat);
                lemma_pow2_pos((64 - n) as nat);
            }
            lemma_u64_shl_is_mul(hm, (64 - n) as u64);
            assert(carried as nat == (self.high as nat % pow2(nn)) * pow2((64 - n) as nat));
            // The or below is an addition of disjoint parts.
            assert((carried & (((1u64 << ((64 - n) as u64)) - 1) as u64)) == 0) by (bit_vector)
                requires
                    carried == hm << ((64 - n) as u64),
                    1 <= n <= 32,
            ;
            assert(self.low < pow2((64 - n) as nat)) by {
                assert((old_low as nat) < pow2(64));
                lemma_pow2_adds(nn, (64 - n) as nat);
                vstd::arithmetic::div_mod::lemma_multiply_divide_lt(
                    old_low as int,
                    pow2(nn) as int,
                    pow2((64 - n) as nat) as int,
                );
            }
            lemma_u64_or_is_add(self.low, carried, (64 - n) as u64);
        }
        self.low = self.low | carried;
        let old_high = self.high;
        self.high = self.high >> n;
        proof {
            lemma_u64_shr_is_div(old_high, n as u64);
            // Reassemble the new value as the old one shifted down by n.
            assert((old_low as nat) < pow2(64));
            lemma_stack_div(old_low as nat, old_high as nat, 64, nn);
            assert(v0 / pow2(nn) == old_low as nat / pow2(nn) + old_high as nat * pow2(
                (64 - n) as nat,
            ));
            // old_high * pow2(64 - n) splits at the 64-bit boundary.
            lemma_split_carry_general(old_high as nat, nn, (64 - n) as nat);
            assert(self.val() == v0 / pow2(nn));
        }
        bits
    }
}

/// A value times `pow2(64 - n)` splits at the 64-bit boundary into its low
/// `n` bits shifted up and its remaining bits carried one unit of `pow2(64)`
/// higher.
proof fn lemma_split_carry_general(b: nat, n: nat, rn: nat)
    requires
        n + rn == 64,
    ensures
        b * pow2(rn) == (b % pow2(n)) * pow2(rn) + (b / pow2(n)) * pow2(64),
{
    let pn: int = pow2(n) as int;
    let pr: int = pow2(rn) as int;
    lemma_pow2_pos(n);
    lemma_pow2_pos(rn);
    lemma_fundamental_div_mod(b as int, pn);
    assert(b == pn * (b as int / pn) + b as int % pn);
    vstd::arithmetic::mul::lemma_mul_is_distributive_add_other_way(
        pr,
        pn * (b as int / pn),
        b as int % pn,
    );
    vstd::arithmetic::mul::lemma_mul_is_commutative(pn, b as int / pn);
    vstd::arithmetic::mul::lemma_mul_is_associative(b as int / pn, pn, pr);
    lemma_pow2_adds(n, rn);
}

/// The number stored by a little-endian byte sequence.
pub open spec fn le_bytes_val(s: Seq<u8>) -> nat
    decreases s.len(),
{
    if s.len() == 0 {
        0
    } else {
        s[0] as nat + 256 * le_bytes_val(s.skip(1))
    }
}

/// A little-endian byte sequence splits at any byte boundary.
pub proof fn lemma_le_bytes_val_split(s: Seq<u8>, i: int)
    requires
        0 <= i <= s.len(),
    ensures
        le_bytes_val(s) == le_bytes_val(s.take(i)) + le_bytes_val(s.skip(i)) * pow2((8 * i) as nat),
    decreases i,
{
    if i == 0 {
        assert(s.take(0).len() == 0);
        assert(s.skip(0) =~= s);
        assert(pow2(0) == 1) by { lemma2_to64(); }
        assert(le_bytes_val(s.take(0)) == 0);
        assert(le_bytes_val(s) == le_bytes_val(s.take(0)) + le_bytes_val(s.skip(0)) * pow2(0));
    } else {
        let t = s.skip(1);
        lemma_le_bytes_val_split(t, i - 1);
        assert(t.take(i - 1) =~= s.take(i).skip(1));
        assert(t.skip(i - 1) =~= s.skip(i));
        // le_bytes_val(s) == s[0] + 256 * le_bytes_val(t)
        //                 == s[0] + 256 * (le_bytes_val(take) + le_bytes_val(skip) * pow2(8i - 8))
        vstd::arithmetic::mul::lemma_mul_is_distributive_add(
            256,
            le_bytes_val(t.take(i - 1)) as int,
            (le_bytes_val(t.skip(i - 1)) * pow2((8 * (i - 1)) as nat)) as int,
        );
        vstd::arithmetic::mul::lemma_mul_is_associative(
            256,
            le_bytes_val(t.skip(i - 1)) as int,
            pow2((8 * (i - 1)) as nat) as int,
        );
        vstd::arithmetic::mul::lemma_mul_is_commutative(256, le_bytes_val(t.skip(i - 1)) as int);
        vstd::arithmetic::mul::lemma_mul_is_associative(
            le_bytes_val(t.skip(i - 1)) as int,
            256,
            pow2((8 * (i - 1)) as nat) as int,
        );
        assert(256 == pow2(8)) by { lemma2_to64(); }
        lemma_pow2_adds(8, (8 * (i - 1)) as nat);
        assert(s.take(i)[0] == s[0]);
        assert(le_bytes_val(s.take(i)) == s[0] as nat + 256 * le_bytes_val(t.take(i - 1)));
        let lt: int = le_bytes_val(t.take(i - 1)) as int;
        let ls: int = le_bytes_val(t.skip(i - 1)) as int;
        let pp: int = pow2((8 * (i - 1)) as nat) as int;
        assert(le_bytes_val(s) == s[0] + 256 * (lt + ls * pp));
        assert(256 * (lt + ls * pp) == 256 * lt + 256 * (ls * pp));
        assert(256 * (ls * pp) == ls * (256 * pp));
        assert(256 * pp == pow2((8 * i) as nat));
        assert(le_bytes_val(s) == s[0] + 256 * lt + ls * pow2((8 * i) as nat));
        assert(le_bytes_val(s) == le_bytes_val(s.take(i)) + le_bytes_val(s.skip(i)) * pow2(
            (8 * i) as nat,
        ));
    }
}

/// Assembles a 64-bit word from eight consecutive bytes, least significant
/// byte first.
fn u64_from_le_slice(data: &[u8], off: usize) -> (r: u64)
    requires
        off + 8 <= data@.len(),
    ensures
        r as nat == le_bytes_val(data@.subrange(off as int, off as int + 8)),
{
    let ghost s = data@.subrange(off as int, off as int + 8);
    let dlen = data.len();
    let mut r: u64 = 0;
    let mut i: usize = 8;
    proof {
        lemma2_to64();
        assert(s.skip(8).len() == 0);
    }
    while i > 0
        invariant
            i <= 8,
            off + 8 <= dlen,
            dlen == data@.len(),
            s == data@.subrange(off as int, off as int + 8),
            r as nat == le_bytes_val(s.skip(i as int)),
            (r as nat) < pow2((8 * (8 - i)) as nat),
        decreases i,
    {
        i = i - 1;
        let b = data[off + i];
        proof {
            assert(s.skip(i as int)[0] == s[i as int] == data@[off + i]);
            assert(s.skip(i as int).skip(1) =~= s.skip(i as int + 1));
            lemma2_to64();
            lemma2_to64_rest();
            let e7: nat = (8 * (7 - i)) as nat;
            let e8: nat = (8 * (8 - i)) as nat;
            // r < pow2(8 * (7 - i)), so r * 256 + b stays under pow2(8 * (8 - i)).
            assert((r as nat) < pow2(e7));
            assert(256 == pow2(8));
            lemma_pow2_adds(e7, 8);
            assert(pow2(e7) * 256 == pow2(e8));
            assert(r * 256 <= (pow2(e7) - 1) * 256) by {
                lemma_mul_inequality(r as int, pow2(e7) as int - 1, 256);
            }
            assert((pow2(e7) - 1) * 256 == pow2(e7) * 256 - 256) by {
                vstd::arithmetic::mul::lemma_mul_is_distributive_sub_other_way(
                    256,
                    pow2(e7) as int,
                    1,
                );
            }
            assert(pow2(e8) <= pow2(64)) by {
                if e8 < 64 {
                    lemma_pow2_strictly_increases(e8, 64);
                }
            }
        }
        r = r * 256 + (b as u64);
        proof {
            assert(le_bytes_val(s.skip(i as int)) == s[i as int] as nat + 256 * le_bytes_val(
                s.skip(i as int + 1),
            ));
        }
    }
    proof {
        assert(s.skip(0) =~= s);
    }
    r
}


/// Halving a word with a carry bit fed in at the top: the combined word is
/// the lower half of the halved two-word stack.
proof fn lemma_u32_half_merge(d: u32, e: u32, sh: u32)
    requires
        sh == (d >> 1) | (e << 31),
    ensures
        sh as nat == d as nat / 2 + (e as nat % 2) * pow2(31),
{
    assert(((d >> 1) | (e << 31)) == d / 2 + (e % 2) * 0x8000_0000) by (bit_vector);
    lemma2_to64();
}

/// Halving a value stacked as `a + b * pow2(32)`.
proof fn lemma_half_stack(a: nat, b: nat)
    requires
        a < pow2(32),
    ensures
        (a + b * pow2(32)) / 2 == a / 2 + (b % 2) * pow2(31) + (b / 2) * pow2(32),
{
    lemma_stack_div(a, b, 32, 1);
    assert(pow2(1) == 2 && pow2(31) * 2 == pow2(32)) by {
        lemma2_to64();
        lemma_pow2_adds(31, 1);
    }
    assert((a + b * pow2(32)) / 2 == a / 2 + b * pow2(31));
    // b * pow2(31) splits into its parity bit and the rest carried up.
    lemma_fundamental_div_mod(b as int, 2);
    assert(b == 2 * (b / 2) + b % 2);
    vstd::arithmetic::mul::lemma_mul_is_distributive_add_other_way(
        pow2(31) as int,
        2 * (b as int / 2),
        b as int % 2,
    );
    vstd::arithmetic::mul::lemma_mul_is_commutative(2, b as int / 2);
    vstd::arithmetic::mul::lemma_mul_is_associative(b as int / 2, 2, pow2(31) as int);
    assert(b * pow2(31) == (b / 2) * pow2(32) + (b % 2) * pow2(31));
}

/// Merging the low `mm` bits of `d` with the upper bits of `sh` keeps
/// `d`'s remainder and `sh`'s quotient at `pow2(mm)`.
proof fn lemma_u32_masked_merge(d: u32, sh: u32, mm: u32, mask: u32, nd: u32)
    requires
        mm < 31,
        mask as nat == low_bits_mask(mm as nat),
        nd == (mask & d) | (!mask & sh),
    ensures
        nd as nat == d as nat % pow2(mm as nat) + (sh as nat / pow2(mm as nat)) * pow2(mm as nat),
{
    let mn = mm as nat;
    lemma_u32_pow2_shift(mm);
    lemma_pow2_pos(mn);
    assert(mask == ((1u32 << mm) - 1) as u32);
    assert((mask & d) == (d & mask) && (!mask & sh) == ((sh >> mm) << mm)) by (bit_vector)
        requires
            mm < 31,
            mask == ((1u32 << mm) - 1) as u32,
    ;
    vstd::bits::lemma_u32_low_bits_mask_is_mod(d, mn);
    assert((d & mask) as nat == d as nat % pow2(mn));
    lemma_u32_shr_is_div(sh, mm);
    assert((sh >> mm) as nat == sh as nat / pow2(mn));
    assert(((sh >> mm) as nat) * pow2(mn) <= sh as nat) by {
        lemma_fundamental_div_mod(sh as int, pow2(mn) as int);
        vstd::arithmetic::mul::lemma_mul_is_commutative(
            pow2(mn) as int,
            sh as int / pow2(mn) as int,
        );
    }
    lemma_u32_shl_is_mul((sh >> mm), mm);
    assert(((((sh >> mm) << mm)) & (((1u32 << mm) - 1) as u32)) == 0) by (bit_vector)
        requires
            mm < 31,
    ;
    vstd::arithmetic::div_mod::lemma_mod_division_less_than_divisor(d as int, pow2(mn) as int);
    lemma_u32_or_is_add((d & mask), ((sh >> mm) << mm), mm);
}

/// Deleting bit `m - 1` of a tail value stacked as `d + rest * pow2(32)`:
/// the written words hold the remainder below the deleted bit plus the upper
/// bits moved down one place.
proof fn lemma_delete_bit_tail(d: nat, rest: nat, m: nat, sh: nat, nd: nat, nr: nat)
    requires
        1 <= m < 32,
        d < pow2(32),
        sh == d / 2 + (rest % 2) * pow2(31),
        nd == d % pow2((m - 1) as nat) + (sh / pow2((m - 1) as nat)) * pow2((m - 1) as nat),
        nr == rest / 2,
    ensures
        nd + nr * pow2(32) == (d + rest * pow2(32)) % pow2((m - 1) as nat) + ((d + rest * pow2(
            32,
        )) / pow2(m)) * pow2((m - 1) as nat),
{
    let mn = (m - 1) as nat;
    let t = d + rest * pow2(32);
    // t % pow2(m - 1) comes from d alone.
    lemma_stack_div(d, rest, 32, mn);
    assert(t % pow2(mn) == d % pow2(mn));
    // t / 2 restacks as sh + nr * pow2(32).
    lemma_half_stack(d, rest);
    assert(t / 2 == sh + nr * pow2(32));
    // t / pow2(m) == (t / 2) / pow2(m - 1)
    assert(pow2(m) == 2 * pow2(mn)) by {
        lemma_pow2_adds(1, mn);
        lemma2_to64();
    }
    lemma_pow2_pos(mn);
    lemma_div_denominator(t as int, 2, pow2(mn) as int);
    assert(t / pow2(m) == (t / 2) / pow2(mn));
    // sh < pow2(32), so the stacked division splits.
    assert(sh < pow2(32)) by {
        lemma2_to64();
    }
    lemma_stack_div(sh, nr, 32, mn);
    assert((t / 2) / pow2(mn) == sh / pow2(mn) + nr * pow2((32 - mn) as nat));
    // Multiply back by pow2(m - 1) and regroup.
    vstd::arithmetic::mul::lemma_mul_is_distributive_add_other_way(
        pow2(mn) as int,
        (sh / pow2(mn)) as int,
        (nr * pow2((32 - mn) as nat)) as int,
    );
    vstd::arithmetic::mul::lemma_mul_is_associative(
        nr as int,
        pow2((32 - mn) as nat) as int,
        pow2(mn) as int,
    );
    lemma_pow2_adds((32 - mn) as nat, mn);
}

/// Restacking a deletion inside the tail: if `tp` is `t` with bit `mn`
/// deleted, then `l + tp * pow2(eb)` is `l + t * pow2(eb)` with bit
/// `eb + mn` deleted.
proof fn lemma_delete_assemble(l: nat, t: nat, tp: nat, eb: nat, mn: nat)
    requires
        l < pow2(eb),
        tp == t % pow2(mn) + (t / pow2(mn + 1)) * pow2(mn),
    ensures
        l + tp * pow2(eb) == (l + t * pow2(eb)) % pow2(eb + mn) + ((l + t * pow2(eb)) / pow2(
            eb + mn + 1,
        )) * pow2(eb + mn),
{
    let v = l + t * pow2(eb);
    lemma_stack2(l, t, eb, mn);
    lemma_stack2(l, t, eb, mn + 1);
    assert(v % pow2(eb + mn) == l + (t % pow2(mn)) * pow2(eb));
    assert(v / pow2(eb + mn + 1) == t / pow2(mn + 1));
    lemma_pow2_adds(mn, eb);
    let aa: nat = t % pow2(mn);
    let bb: nat = t / pow2(mn + 1);
    let pm: nat = pow2(mn);
    let pe: nat = pow2(eb);
    let pme: nat = pow2(mn + eb);
    assert(tp == aa + bb * pm);
    assert(pme == pm * pe);
    assert(tp * pe == aa * pe + bb * pme) by (nonlinear_arith)
        requires
            tp == aa + bb * pm,
            pme == pm * pe,
    ;
    assert(pow2(eb + mn) == pow2(mn + eb));
}

/// Modulo and division of `l + t * pow2(eb)` by `pow2(eb + e)` when
/// `l < pow2(eb)`: the split happens inside `t`.
proof fn lemma_stack2(l: nat, t: nat, eb: nat, e: nat)
    requires
        l < pow2(eb),
    ensures
        (l + t * pow2(eb)) % pow2(eb + e) == l + (t % pow2(e)) * pow2(eb),
        (l + t * pow2(eb)) / pow2(eb + e) == t / pow2(e),
{
    let pe: int = pow2(e) as int;
    let pb: int = pow2(eb) as int;
    lemma_pow2_pos(e);
    lemma_pow2_pos(eb);
    lemma_pow2_adds(eb, e);
    lemma_fundamental_div_mod(t as int, pe);
    let q: int = t as int / pe;
    let r: int = t as int % pe;
    assert(t == pe * q + r);
    // l + t * pb == (pb * pe) * q + (l + r * pb), with the remainder in range.
    vstd::arithmetic::mul::lemma_mul_is_distributive_add_other_way(pb, pe * q, r);
    vstd::arithmetic::mul::lemma_mul_is_associative(pe, q, pb);
    vstd::arithmetic::mul::lemma_mul_is_commutative(pe, q);
    vstd::arithmetic::mul::lemma_mul_is_associative(q, pe, pb);
    vstd::arithmetic::mul::lemma_mul_is_commutative(q, pe * pb);
    vstd::arithmetic::mul::lemma_mul_is_commutative(pb, pe);
    assert(t as int * pb == (pe * pb) * q + r * pb);
    assert(l + r * pb < pe * pb) by {
        assert(r * pb <= (pe - 1) * pb) by {
            lemma_mul_inequality(r, pe - 1, pb);
        }
        vstd::arithmetic::mul::lemma_mul_is_distributive_sub_other_way(pb, pe, 1);
    }
    lemma_fundamental_div_mod_converse(
        l as int + t as int * pb,
        pe * pb,
        q,
        l as int + r * pb,
    );
    vstd::arithmetic::mul::lemma_mul_is_commutative(pe, pb);
}

/// Deletes the single bit at offset `from_bits - 1` in the written stream:
/// every higher bit moves down one place.  Used once per non-anchor subset to
/// drop the implicit top bit of a stored anchor index.
pub fn data_shl_1bit_from(data: &mut [u32; 5], from_bits: usize)
    requires
        65 <= from_bits,
        from_bits != 96,
    ensures
        from_bits < 128 ==> data_val(*final(data)) == data_val(*old(data)) % pow2(
            (from_bits - 1) as nat,
        ) + (data_val(*old(data)) / pow2(from_bits as nat)) * pow2((from_bits - 1) as nat),
        from_bits >= 128 ==> *final(data) == *old(data),
{
    let ghost d0 = *data;
    proof {
        lemma2_to64();
        lemma2_to64_rest();
    }
    if from_bits < 96 {
        let m = (from_bits - 64) as u32;
        let shifted = (data[2] >> 1) | (data[3] << 31);
        proof {
            lemma_u32_pow2_shift(m);
            lemma_pow2_pos(m as nat);
        }
        let mask = ((1u32 << m) - 1) >> 1;
        proof {
            lemma_u32_pow2_shift((m - 1) as u32);
            assert(mask == ((1u32 << ((m - 1) as u32)) - 1) as u32) by (bit_vector)
                requires
                    1 <= m < 32,
                    mask == (((1u32 << m) - 1) as u32) >> 1,
            ;
            assert(mask as nat == low_bits_mask((m - 1) as nat));
        }
        data[2] = (mask & data[2]) | (!mask & shifted);
        data[3] = (data[3] >> 1) | (data[4] << 31);
        data[4] = data[4] >> 1;
        proof {
            let l: nat = d0[0] as nat + d0[1] as nat * pow2(32);
            let t: nat = d0[2] as nat + (d0[3] as nat + d0[4] as nat * pow2(32)) * pow2(32);
            let rest: nat = d0[3] as nat + d0[4] as nat * pow2(32);
            lemma_u32_half_merge(d0[2], d0[3], shifted);
            lemma_u32_half_merge(d0[3], d0[4], data[3]);
            lemma_u32_masked_merge(d0[2], shifted, (m - 1) as u32, mask, data[2]);
            lemma_u32_shr_is_div(d0[4], 1);
            assert(pow2(1) == 2);
            assert(rest % 2 == d0[3] as nat % 2) by {
                lemma_stack_div(d0[3] as nat, d0[4] as nat, 32, 1);
            }
            assert(data[3] as nat + data[4] as nat * pow2(32) == rest / 2) by {
                lemma_half_stack(d0[3] as nat, d0[4] as nat);
                lemma_stack_div(d0[3] as nat, d0[4] as nat, 32, 1);
            }
            lemma_delete_bit_tail(
                d0[2] as nat,
                rest,
                m as nat,
                shifted as nat,
                data[2] as nat,
                data[3] as nat + data[4] as nat * pow2(32),
            );
            // Stack the unchanged low 64 bits under the rewritten tail.
            assert(l < pow2(64));
            lemma_delete_assemble(
                l,
                t,
                data[2] as nat + (data[3] as nat + data[4] as nat * pow2(32)) * pow2(32),
                64,
                (m - 1) as nat,
            );
            lemma_data_val_stack_64(d0);
            lemma_data_val_stack_64(*data);
        }
    } else if from_bits < 128 {
        let m = (from_bits - 96) as u32;
        let shifted = (data[3] >> 1) | (data[4] << 31);
        proof {
            lemma_u32_pow2_shift(m);
            lemma_pow2_pos(m as nat);
        }
        let mask = ((1u32 << m) - 1) >> 1;
        proof {
            lemma_u32_pow2_shift((m - 1) as u32);
            assert(mask == ((1u32 << ((m - 1) as u32)) - 1) as u32) by (bit_vector)
                requires
                    1 <= m < 32,
                    mask == (((1u32 << m) - 1) as u32) >> 1,
            ;
            assert(mask as nat == low_bits_mask((m - 1) as nat));
        }
        data[3] = (mask & data[3]) | (!mask & shifted);
        data[4] = data[4] >> 1;
        proof {
            let l: nat = d0[0] as nat + d0[1] as nat * pow2(32) + d0[2] as nat * pow2(64);
            let t: nat = d0[3] as nat + d0[4] as nat * pow2(32);
            lemma_u32_half_merge(d0[3], d0[4], shifted);
            lemma_u32_masked_merge(d0[3], shifted, (m - 1) as u32, mask, data[3]);
            lemma_u32_shr_is_div(d0[4], 1);
            assert(pow2(1) == 2);
            lemma_delete_bit_tail(
                d0[3] as nat,
                d0[4] as nat,
                m as nat,
                shifted as nat,
                data[3] as nat,
                data[4] as nat,
            );
            assert(l < pow2(96)) by {
                lemma_pow2_adds(64, 32);
                assert(d0[2] as nat * pow2(64) <= (pow2(32) - 1) * pow2(64)) by {
                    lemma_mul_inequality(d0[2] as int, pow2(32) as int - 1, pow2(64) as int);
                }
                vstd::arithmetic::mul::lemma_mul_is_distributive_sub_other_way(
                    pow2(64) as int,
                    pow2(32) as int,
                    1,
                );
            }
            lemma_delete_assemble(l, t, data[3] as nat + data[4] as nat * pow2(32), 96, (m - 1) as nat);
            lemma_data_val_stack_96(d0);
            lemma_data_val_stack_96(*data);
        }
    }
}

/// `data_val` regrouped as the low 64 bits plus a tail of three words.
proof fn lemma_data_val_stack_64(d: [u32; 5])
    ensures
        data_val(d) == (d[0] as nat + d[1] as nat * pow2(32)) + (d[2] as nat + (d[3] as nat + d[4]
            as nat * pow2(32)) * pow2(32)) * pow2(64),
{
    let a: int = (d[3] as nat + d[4] as nat * pow2(32)) as int;
    let p32: int = pow2(32) as int;
    let p64: int = pow2(64) as int;
    let p96: int = pow2(96) as int;
    vstd::arithmetic::mul::lemma_mul_is_distributive_add_other_way(p64, d[2] as int, a * p32);
    vstd::arithmetic::mul::lemma_mul_is_associative(a, p32, p64);
    lemma_pow2_adds(32, 64);
    assert((a * p32) * p64 == a * p96);
    vstd::arithmetic::mul::lemma_mul_is_distributive_add_other_way(
        p96,
        d[3] as int,
        d[4] as int * p32,
    );
    vstd::arithmetic::mul::lemma_mul_is_associative(d[4] as int, p32, p96);
    lemma_pow2_adds(32, 96);
    assert(a * p96 == d[3] as int * p96 + d[4] as int * pow2(128));
}

/// `data_val` regrouped as the low 96 bits plus a tail of two words.
proof fn lemma_data_val_stack_96(d: [u32; 5])
    ensures
        data_val(d) == (d[0] as nat + d[1] as nat * pow2(32) + d[2] as nat * pow2(64)) + (d[3]
            as nat + d[4] as nat * pow2(32)) * pow2(96),
{
    vstd::arithmetic::mul::lemma_mul_is_distributive_add_other_way(
        pow2(96) as int,
        d[3] as int,
        (d[4] as nat * pow2(32)) as int,
    );
    vstd::arithmetic::mul::lemma_mul_is_associative(d[4] as int, pow2(32) as int, pow2(96) as int);
    lemma_pow2_adds(32, 96);
}


/// A well-formed write sequence: each field is 1 to 32 bits wide and each
/// value fits its width.
pub open spec fn stream_ops_wf(ops: Seq<(u32, u32)>) -> bool {
    forall|i: int|
        0 <= i < ops.len() ==> 1 <= (#[trigger] ops[i]).0 <= 32 && (ops[i].1 as nat) < pow2(
            ops[i].0 as nat,
        )
}

/// Total width of a write sequence.
pub open spec fn ops_width(ops: Seq<(u32, u32)>) -> nat
    decreases ops.len(),
{
    if ops.len() == 0 {
        0
    } else {
        ops[0].0 as nat + ops_width(ops.skip(1))
    }
}

/// The number laid down by a write sequence, first field at the low end:
/// exactly what `put_bits` accumulates, one field at a time.
pub open spec fn ops_val(ops: Seq<(u32, u32)>) -> nat
    decreases ops.len(),
{
    if ops.len() == 0 {
        0
    } else {
        ops[0].1 as nat + ops_val(ops.skip(1)) * pow2(ops[0].0 as nat)
    }
}

/// A well-formed write sequence lays down fewer than `pow2` of its total
/// width bits.
pub proof fn lemma_ops_val_bound(ops: Seq<(u32, u32)>)
    requires
        stream_ops_wf(ops),
    ensures
        ops_val(ops) < pow2(ops_width(ops)),
    decreases ops.len(),
{
    if ops.len() == 0 {
        assert(pow2(0) == 1) by {
            lemma2_to64();
        }
    } else {
        let rest = ops.skip(1);
        assert(stream_ops_wf(rest)) by {
            assert(forall|i: int| 0 <= i < rest.len() ==> rest[i] == ops[i + 1]);
        }
        lemma_ops_val_bound(rest);
        let w0: nat = ops[0].0 as nat;
        let v0: nat = ops[0].1 as nat;
        let rv: nat = ops_val(rest);
        let rw: nat = ops_width(rest);
        lemma_pow2_adds(w0, rw);
        lemma_pow2_pos(w0);
        lemma_pow2_pos(rw);
        // v0 + rv * 2^w0 <= (2^w0 - 1) + (2^rw - 1) * 2^w0 < 2^(w0 + rw)
        assert(rv * pow2(w0) <= (pow2(rw) - 1) * pow2(w0)) by {
            lemma_mul_inequality(rv as int, pow2(rw) as int - 1, pow2(w0) as int);
        }
        assert((pow2(rw) - 1) * pow2(w0) == pow2(rw) * pow2(w0) - pow2(w0)) by {
            vstd::arithmetic::mul::lemma_mul_is_distributive_sub_other_way(
                pow2(w0) as int,
                pow2(rw) as int,
                1,
            );
        }
        vstd::arithmetic::mul::lemma_mul_is_commutative(pow2(rw) as int, pow2(w0) as int);
    }
}

/// The writer-reader inverse law: after a well-formed sequence of fields is
/// laid down, dropping the bits of the fields before position `i` and taking
/// the remainder at field `i`'s width — which is exactly what `read_bits`
/// returns at that point — yields field `i`'s value unchanged.
pub proof fn lemma_stream_round_trip(ops: Seq<(u32, u32)>, i: int)
    requires
        stream_ops_wf(ops),
        0 <= i < ops.len(),
    ensures
        (ops_val(ops) / pow2(ops_width(ops.take(i)))) % pow2(ops[i].0 as nat) == ops[i].1,
    decreases i,
{
    let w0: nat = ops[0].0 as nat;
    let v0: nat = ops[0].1 as nat;
    let rest = ops.skip(1);
    let rv: nat = ops_val(rest);
    assert(stream_ops_wf(rest)) by {
        assert(forall|j: int| 0 <= j < rest.len() ==> rest[j] == ops[j + 1]);
    }
    lemma_pow2_pos(w0);
    if i == 0 {
        assert(ops.take(0).len() == 0);
        assert(pow2(0) == 1) by {
            lemma2_to64();
        }
        vstd::arithmetic::div_mod::lemma_div_basics_2(ops_val(ops) as int);
        assert(ops_val(ops) / pow2(0) == ops_val(ops));
        // The low w0 bits of the laid-down number are exactly v0.
        assert(v0 < pow2(w0));
        lemma_stack_div(v0, rv, w0, w0);
        vstd::arithmetic::div_mod::lemma_small_mod(v0, pow2(w0));
        assert(ops_val(ops) == v0 + rv * pow2(w0));
        assert(ops_val(ops) % pow2(w0) == v0);
    } else {
        lemma_stream_round_trip(rest, i - 1);
        // The widths of the first i fields split off the head field.
        assert(ops.take(i).skip(1) =~= rest.take(i - 1));
        assert(ops_width(ops.take(i)) == w0 + ops_width(rest.take(i - 1))) by {
            assert(ops.take(i)[0] == ops[0]);
        }
        // Dropping the head field's bits leaves the remaining fields' number.
        assert(ops_val(ops) / pow2(w0) == rv) by {
            lemma_stack_div(v0, rv, w0, w0);
            vstd::arithmetic::div_mod::lemma_basic_div(v0 as int, pow2(w0) as int);
            assert(pow2(0) == 1) by {
                lemma2_to64();
            }
            assert(rv * pow2(0) == rv * 1 == rv);
            assert(ops_val(ops) == v0 + rv * pow2(w0));
        }
        let wr: nat = ops_width(rest.take(i - 1));
        lemma_pow2_pos(wr);
        lemma_pow2_adds(w0, wr);
        lemma_div_denominator(ops_val(ops) as int, pow2(w0) as int, pow2(wr) as int);
        assert(ops_val(ops) / pow2(w0 + wr) == rv / pow2(wr));
        assert(rest[i - 1] == ops[i]);
    }
}

} // verus!
