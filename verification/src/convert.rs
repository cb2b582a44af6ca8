//! Conversions between `Scalar` and integers.

use vstd::prelude::*;
use vstd::arithmetic::power2::*;
use vstd::arithmetic::div_mod::*;
use crate::rounding::{
    INFINITY_BITS,
    nearest_ratio,
    packed,
    bit_length,
    round_pack,
    lemma_packed_ratio,
    lemma_bit_length_bounds,
    lemma_scaled_division,
    power_of_two,
};
use crate::arithmetic::lemma_scale_twice;
use crate::scalar::{Scalar, scaled_of, significand_of, exponent_of, signed};

verus! {

/// A number that fits in twenty-four digits, scaled by a power of two that
/// keeps it below 2^128, is rounded to itself.
pub proof fn lemma_packed_exact(m: nat, p: nat)
    requires
        bit_length(m) <= 24,
        bit_length(m) + p <= 277,
    ensures
        packed(m, p as int, false) < 0x7f80_0000,
        scaled_of(packed(m, p as int, false)) == m * pow2(p),
{
    lemma2_to64();
    if m == 0 {
        assert(0 * pow2(p) == 0) by (nonlinear_arith);
        assert(scaled_of(0) == 0) by (nonlinear_arith)
            requires
                scaled_of(0) == 0 * pow2(0),
        ;
    } else {
        let l = bit_length(m);
        lemma_bit_length_bounds(m);
        let j: int = if l + p - 24 > 0 {
            l + p - 24
        } else {
            0
        };
        let e = (p - j) as nat;
        let body = m * pow2(e);
        lemma_pow2_adds((l - 1) as nat, e);
        lemma_pow2_adds(l, e);
        lemma_pow2_pos(e);
        assert(pow2((l - 1) as nat) * pow2(e) <= body < pow2(l) * pow2(e)) by (nonlinear_arith)
            requires
                body == m * pow2(e),
                pow2((l - 1) as nat) <= m < pow2(l),
                pow2(e) > 0,
        ;
        lemma_scale_twice(m, e, j as nat);
        if j > 0 {
            assert(l + e == 24);
            assert(0x80_0000 <= body < 0x100_0000);
            let bits = (j * 0x80_0000 + body) as nat;
            assert(bits == packed(m, p as int, false));
            assert(bits / 0x80_0000 == j + 1 && bits % 0x80_0000 == body - 0x80_0000) by {
                lemma_fundamental_div_mod_converse(
                    bits as int,
                    0x80_0000,
                    j + 1,
                    body - 0x80_0000,
                );
            }
            assert(significand_of(bits) == body);
            assert(exponent_of(bits) == j);
        } else {
            if l + e < 24 {
                lemma_pow2_strictly_increases(l + e, 24);
            }
            assert(body < 0x100_0000);
            assert(body == packed(m, p as int, false));
            assert(significand_of(body) == body);
            assert(exponent_of(body) == 0);
            assert(body * pow2(0) == body);
        }
    }
}

impl Scalar {
    /// The number nearest to the integer `v`.
    pub open spec fn of_integer(v: nat) -> Scalar {
        signed(false, nearest_ratio(v * pow2(149), 1))
    }

    /// The integer part of this number, held to the range of a byte: zero
    /// for a not-a-number and for anything below one, 255 for anything from
    /// 255 up.
    pub open spec fn truncated_byte(self) -> u8 {
        if self.is_nan() || self.is_negative() {
            0
        } else {
            let whole = self.scaled() / pow2(149);
            if whole >= 255 {
                255
            } else {
                whole as u8
            }
        }
    }

    /// The number `(w mod 2^23) / 2^23`, which lies in `[0, 1)`: in units of
    /// 2^-149 it is `(w mod 2^23) * 2^126`, which is representable.
    pub open spec fn unit_fraction(w: u32) -> Scalar {
        signed(false, nearest_ratio((w % 0x80_0000) as nat * pow2(126), 1))
    }

    /// Converts an integer, rounding to nearest, ties to even.
    pub fn from_u64(v: u64) -> (r: Scalar)
        ensures
            r == Scalar::of_integer(v as nat),
            r.is_finite(),
            !r.is_negative(),
            v < 0x100_0000 ==> r.scaled() == v * pow2(149),
    {
        proof {
            let w = pow2(149);
            lemma_pow2_pos(149);
            let n: nat = v as nat * w;
            assert(1 * w == w);
            assert(n == v * w + 0);
            lemma_fundamental_div_mod_converse(n as int, w as int, v as int, 0);
            lemma_packed_ratio(n, 1, v as nat, 149, false);
            lemma_from_integer_finite(v as nat);
            if v < 0x100_0000 {
                lemma_short(v as nat);
                lemma_packed_exact(v as nat, 149);
            }
        }
        Scalar::with_sign(false, round_pack(v, 149, false))
    }

    /// Truncates toward zero and saturates at the bounds of a byte.
    pub fn to_byte(self) -> (r: u8)
        ensures
            r == self.truncated_byte(),
    {
        let mag: u32 = self.magnitude_bits();
        if mag > INFINITY_BITS || self.sign() {
            return 0;
        }
        let field: u32 = mag / 0x80_0000;
        let (k, j) = self.decode();
        proof {
            lemma2_to64();
            lemma_pow2_pos(149);
            lemma_pow2_pos(j as nat);
        }
        if field < 127 {
            proof {
                lemma_pow2_adds(24, 125);
                if j < 125 {
                    lemma_pow2_strictly_increases(j as nat, 125);
                }
                assert(k * pow2(j as nat) < 0x100_0000 * pow2(125)) by (nonlinear_arith)
                    requires
                        k < 0x100_0000,
                        0 < pow2(j as nat) <= pow2(125),
                ;
                lemma_basic_div(self.scaled() as int, pow2(149) as int);
            }
            return 0;
        }
        if field >= 135 {
            proof {
                lemma_pow2_adds(8, 149);
                lemma_pow2_adds(23, 134);
                if j > 134 {
                    lemma_pow2_strictly_increases(134, j as nat);
                }
                assert(k * pow2(j as nat) >= 0x80_0000 * pow2(134)) by (nonlinear_arith)
                    requires
                        k >= 0x80_0000,
                        pow2(j as nat) >= pow2(134),
                ;
                lemma_div_is_ordered((256 * pow2(149)) as int, self.scaled() as int, pow2(149) as int);
                lemma_div_by_multiple(256, pow2(149) as int);
            }
            return 255;
        }
        let shift: u32 = 149 - (j as u32);
        let whole: u64 = k / power_of_two(shift);
        proof {
            let w = pow2(shift as nat);
            lemma_pow2_pos(shift as nat);
            lemma_pow2_adds(shift as nat, j as nat);
            assert(1 * pow2(j as nat) == pow2(j as nat));
            assert(self.scaled() * 1 == k * pow2(j as nat));
            assert(pow2(149) * 1 == w * pow2(j as nat));
            lemma_scaled_division(self.scaled(), pow2(149), 1, k as nat, w, pow2(j as nat));
            if shift > 16 {
                lemma_pow2_strictly_increases(16, shift as nat);
            }
            lemma_div_is_ordered_by_denominator(k as int, 0x1_0000, w as int);
        }
        if whole >= 255 {
            255
        } else {
            whole as u8
        }
    }

    /// The low twenty-three bits of a word as a fraction of one.
    pub fn from_word(w: u32) -> (r: Scalar)
        ensures
            r == Scalar::unit_fraction(w),
            r.is_finite(),
            !r.is_negative(),
            r.scaled() == (w % 0x80_0000) * pow2(126),
            r.below(crate::scalar::one()),
    {
        let f: u32 = w % 0x80_0000;
        proof {
            let unit = pow2(126);
            lemma_pow2_pos(126);
            let n: nat = f as nat * unit;
            assert(1 * unit == unit);
            assert(n == f * unit + 0);
            lemma_fundamental_div_mod_converse(n as int, unit as int, f as int, 0);
            lemma_packed_ratio(n, 1, f as nat, 126, false);
            lemma_short(f as nat);
            lemma_packed_exact(f as nat, 126);
            lemma2_to64();
            lemma_pow2_pos(126);
            assert(scaled_of(0x3f80_0000) == 0x80_0000 * pow2(126));
            assert(f * pow2(126) < 0x80_0000 * pow2(126)) by (nonlinear_arith)
                requires
                    f < 0x80_0000,
                    pow2(126) > 0,
            ;
        }
        Scalar::with_sign(false, round_pack(f as u64, 126, false))
    }
}

/// Numbers below 2^24 have at most twenty-four digits.
proof fn lemma_short(v: nat)
    requires
        v < 0x100_0000,
    ensures
        bit_length(v) <= 24,
{
    lemma2_to64();
    if v > 0 {
        lemma_bit_length_bounds(v);
        if bit_length(v) > 24 {
            lemma_pow2_strictly_increases(24, (bit_length(v) - 1) as nat);
        }
    }
}

/// Integers of sixty-four bits round to finite numbers.
proof fn lemma_from_integer_finite(v: nat)
    requires
        v < 0x1_0000_0000_0000_0000,
    ensures
        packed(v, 149, false) < 0x7f80_0000,
{
    lemma2_to64();
    lemma2_to64_rest();
    if v > 0 {
        let l = bit_length(v);
        lemma_bit_length_bounds(v);
        if l > 64 {
            lemma_pow2_strictly_increases(64, (l - 1) as nat);
        }
        let j = l + 125;
        let shift = j - 149;
        if shift <= 0 {
            let e = (-shift) as nat;
            lemma_pow2_adds(l, e);
            lemma_pow2_pos(e);
            assert(v * pow2(e) < pow2(l) * pow2(e)) by (nonlinear_arith)
                requires
                    v < pow2(l),
                    pow2(e) > 0,
            ;
        } else {
            let half = pow2((shift - 1) as nat);
            lemma_pow2_pos((shift - 1) as nat);
            lemma_pow2_unfold(shift as nat);
            lemma_pow2_adds(shift as nat, 24);
            assert(v / (2 * half) < 0x100_0000) by {
                lemma_div_is_ordered(v as int, (pow2(l) - 1) as int, (2 * half) as int);
                assert(pow2(l) - 1 < (2 * half) * 0x100_0000);
                lemma_multiply_divide_lt((pow2(l) - 1) as int, (2 * half) as int, 0x100_0000);
            }
        }
    }
}

} // verus!
