//! Addition, subtraction, multiplication and division of `Scalar`s, each
//! rounded to the nearest representable number with ties to even.
//!
//! The exact result of each operation on finite numbers is a rational number
//! of units of 2^-149; the result is the number that `nearest_ratio` gives
//! for it, with the sign of the exact result.

use vstd::prelude::*;
use vstd::arithmetic::power2::*;
use vstd::arithmetic::div_mod::*;
use crate::rounding::{
    INFINITY_BITS,
    nearest_ratio,
    round_pack,
    stands_for,
    lemma_packed_ratio,
    lemma_scaled_division,
    lemma_nearest_ratio_zero,
    length_of,
    power_of_two,
    lemma_bit_length_bounds,
};
use crate::scalar::{Scalar, lemma_scaled_monotonic, not_a_number, one, scaled_of, signed, zero};

verus! {

impl Scalar {
    /// The product, rounded to nearest.
    #[verifier::opaque]
    pub open spec fn product(self, other: Scalar) -> Scalar {
        let negative = self.is_negative() != other.is_negative();
        if self.is_nan() || other.is_nan() {
            not_a_number()
        } else if self.is_infinite() || other.is_infinite() {
            if self.is_zero() || other.is_zero() {
                not_a_number()
            } else {
                signed(negative, 0x7f80_0000)
            }
        } else {
            signed(negative, nearest_ratio(self.scaled() * other.scaled(), pow2(149)))
        }
    }

    /// The sum, rounded to nearest. An exact zero is negative only when
    /// both terms are.
    #[verifier::opaque]
    pub open spec fn sum(self, other: Scalar) -> Scalar {
        if self.is_nan() || other.is_nan() {
            not_a_number()
        } else if self.is_infinite() {
            if other.is_infinite() && self.is_negative() != other.is_negative() {
                not_a_number()
            } else {
                self
            }
        } else if other.is_infinite() {
            other
        } else {
            let v = self.value() + other.value();
            if v == 0 {
                signed(self.is_negative() && other.is_negative(), 0)
            } else if v < 0 {
                signed(true, nearest_ratio((-v) as nat, 1))
            } else {
                signed(false, nearest_ratio(v as nat, 1))
            }
        }
    }

    /// The difference, rounded to nearest: the sum with the negated
    /// subtrahend.
    pub open spec fn difference(self, other: Scalar) -> Scalar {
        self.sum(other.negated())
    }

    /// The quotient, rounded to nearest. A finite number other than zero
    /// divided by zero is an infinity; zero by zero and infinity by infinity
    /// are not numbers.
    #[verifier::opaque]
    pub open spec fn quotient(self, other: Scalar) -> Scalar {
        let negative = self.is_negative() != other.is_negative();
        if self.is_nan() || other.is_nan() {
            not_a_number()
        } else if self.is_infinite() {
            if other.is_infinite() {
                not_a_number()
            } else {
                signed(negative, 0x7f80_0000)
            }
        } else if other.is_infinite() {
            signed(negative, 0)
        } else if other.is_zero() {
            if self.is_zero() {
                not_a_number()
            } else {
                signed(negative, 0x7f80_0000)
            }
        } else {
            signed(negative, nearest_ratio(self.scaled() * pow2(149), other.scaled()))
        }
    }

    /// The product of two numbers, rounded to nearest, ties to even.
    pub fn mul(self, other: Scalar) -> (r: Scalar)
        ensures
            r == self.product(other),
    {
        reveal(Scalar::product);
        let negative: bool = self.sign() != other.sign();
        let ma: u32 = self.magnitude_bits();
        let mb: u32 = other.magnitude_bits();
        if ma > INFINITY_BITS || mb > INFINITY_BITS {
            return Scalar::nan();
        }
        if ma == INFINITY_BITS || mb == INFINITY_BITS {
            if ma == 0 || mb == 0 {
                return Scalar::nan();
            }
            return Scalar::with_sign(negative, INFINITY_BITS);
        }
        let (ka, ja) = self.decode();
        let (kb, jb) = other.decode();
        proof {
            assert(ka * kb < 0x100_0000 * 0x100_0000) by (nonlinear_arith)
                requires
                    ka < 0x100_0000,
                    kb < 0x100_0000,
            ;
        }
        let m: u64 = ka * kb;
        let p: i32 = ja + jb - 149;
        proof {
            lemma_product_stands(ka as nat, ja as nat, kb as nat, jb as nat);
            lemma_packed_ratio(self.scaled() * other.scaled(), pow2(149), m as nat, p as int, false);
        }
        Scalar::with_sign(negative, round_pack(m, p, false))
    }

    /// The sum of two numbers, rounded to nearest, ties to even.
    pub fn add(self, other: Scalar) -> (r: Scalar)
        ensures
            r == self.sum(other),
    {
        reveal(Scalar::sum);
        let ma: u32 = self.magnitude_bits();
        let mb: u32 = other.magnitude_bits();
        if ma > INFINITY_BITS || mb > INFINITY_BITS {
            return Scalar::nan();
        }
        if ma == INFINITY_BITS {
            if mb == INFINITY_BITS && self.sign() != other.sign() {
                return Scalar::nan();
            }
            return self;
        }
        if mb == INFINITY_BITS {
            return other;
        }
        let first: bool = ma >= mb;
        let hi: Scalar = if first {
            self
        } else {
            other
        };
        let lo: Scalar = if first {
            other
        } else {
            self
        };
        let (kh, jh) = hi.decode();
        let (kl, jl) = lo.decode();
        let same: bool = self.sign() == other.sign();
        proof {
            if hi.magnitude() > lo.magnitude() {
                lemma_scaled_monotonic(lo.magnitude(), hi.magnitude());
            }
            lemma2_to64();
            lemma_pow2_pos(jl as nat);
            lemma_pow2_pos(jh as nat);
        }
        let gap: i32 = jh - jl;
        let ghost n: nat = if same {
            hi.scaled() + lo.scaled()
        } else {
            (hi.scaled() - lo.scaled()) as nat
        };
        let ghost v: int = self.value() + other.value();
        assert(v == if hi.is_negative() {
            -(n as int)
        } else {
            n as int
        });
        if gap <= 38 {
            proof {
                lemma_sum_aligned(kh as nat, jh as nat, kl as nat, jl as nat, same);
                lemma_pow2_strictly_increases(gap as nat, 39);
                assert(kh * pow2(gap as nat) < 0x100_0000 * pow2(39)) by (nonlinear_arith)
                    requires
                        kh < 0x100_0000,
                        pow2(gap as nat) < pow2(39),
                ;
                lemma_pow2_adds(24, 39);
                lemma2_to64_rest();
            }
            let big: u64 = kh * power_of_two(gap as u32);
            let m: u64 = if same {
                big + kl
            } else {
                big - kl
            };
            proof {
                assert(n == m * pow2(jl as nat));
                assert((m == 0) == (n == 0)) by (nonlinear_arith)
                    requires
                        n == m * pow2(jl as nat),
                        pow2(jl as nat) > 0,
                ;
            }
            if m == 0 {
                return Scalar::with_sign(self.sign() && other.sign(), 0);
            }
            proof {
                lemma_packed_ratio(n, 1, m as nat, jl as int, false);
            }
            return Scalar::with_sign(hi.sign(), round_pack(m, jl, false));
        }
        if kl == 0 {
            proof {
                assert(lo.scaled() == 0) by (nonlinear_arith)
                    requires
                        lo.scaled() == kl * pow2(jl as nat),
                        kl == 0,
                ;
                let w = pow2(jh as nat);
                assert(1 * w == w);
                assert(n == kh * w + 0);
                lemma_fundamental_div_mod_converse(n as int, w as int, kh as int, 0);
                lemma_packed_ratio(n, 1, kh as nat, jh as int, false);
                assert(n > 0) by (nonlinear_arith)
                    requires
                        n == kh * w,
                        kh >= 0x80_0000,
                        w > 0,
                ;
            }
            return Scalar::with_sign(hi.sign(), round_pack(kh, jh, false));
        }
        let m: u64 = if same {
            8 * kh
        } else {
            8 * kh - 1
        };
        proof {
            lemma_sum_absorbed(kh as nat, jh as nat, kl as nat, jl as nat, same);
            lemma_packed_ratio(n, 1, m as nat, jh - 3, true);
        }
        Scalar::with_sign(hi.sign(), round_pack(m, jh - 3, true))
    }

    /// The difference of two numbers, rounded to nearest, ties to even.
    pub fn sub(self, other: Scalar) -> (r: Scalar)
        ensures
            r == self.difference(other),
    {
        self.add(other.neg())
    }
}

/// The exact product of two decoded magnitudes, over 2^149, is what the
/// product of the significands stands for at the sum of the exponents.
proof fn lemma_product_stands(ka: nat, ja: nat, kb: nat, jb: nat)
    ensures
        pow2(149) > 0,
        stands_for((ka * pow2(ja)) * (kb * pow2(jb)), pow2(149), ka * kb, ja + jb - 149, false),
{
    let n = (ka * pow2(ja)) * (kb * pow2(jb));
    let m = ka * kb;
    let big = pow2(ja + jb);
    lemma_pow2_adds(ja, jb);
    lemma_pow2_pos(149);
    lemma_pow2_pos(ja + jb);
    assert(n == m * big) by (nonlinear_arith)
        requires
            n == (ka * pow2(ja)) * (kb * pow2(jb)),
            m == ka * kb,
            big == pow2(ja) * pow2(jb),
    ;
    let p = ja + jb - 149;
    if p >= 0 {
        lemma_pow2_adds(149, p as nat);
        let w = pow2(149) * pow2(p as nat);
        assert(w == big);
        assert(n == m * w + 0);
        lemma_fundamental_div_mod_converse(n as int, w as int, m as int, 0);
    } else {
        lemma_pow2_adds(ja + jb, (-p) as nat);
        let w = n * pow2((-p) as nat);
        assert(w == m * pow2(149) + 0) by (nonlinear_arith)
            requires
                w == n * pow2((-p) as nat),
                n == m * big,
                big * pow2((-p) as nat) == pow2(149),
        ;
        lemma_fundamental_div_mod_converse(w as int, pow2(149) as int, m as int, 0);
    }
}

/// Two magnitudes whose exponents are close are added or subtracted exactly
/// at the smaller exponent.
proof fn lemma_sum_aligned(kh: nat, jh: nat, kl: nat, jl: nat, same: bool)
    requires
        jl <= jh,
        kh * pow2(jh) >= kl * pow2(jl),
    ensures
        kh * pow2((jh - jl) as nat) >= kl,
        ({
            let big = kh * pow2((jh - jl) as nat);
            let m = if same {
                big + kl
            } else {
                (big - kl) as nat
            };
            let n = if same {
                kh * pow2(jh) + kl * pow2(jl)
            } else {
                (kh * pow2(jh) - kl * pow2(jl)) as nat
            };
            n == m * pow2(jl) && stands_for(n, 1, m, jl as int, false)
        }),
{
    let g = pow2((jh - jl) as nat);
    let w = pow2(jl);
    lemma_pow2_adds((jh - jl) as nat, jl);
    lemma_pow2_pos(jl);
    let big = kh * g;
    assert(kh * pow2(jh) == big * w) by (nonlinear_arith)
        requires
            pow2(jh) == g * w,
            big == kh * g,
    ;
    assert(big >= kl) by (nonlinear_arith)
        requires
            big * w >= kl * w,
            w > 0,
    ;
    let m = if same {
        big + kl
    } else {
        (big - kl) as nat
    };
    let n = if same {
        kh * pow2(jh) + kl * pow2(jl)
    } else {
        (kh * pow2(jh) - kl * pow2(jl)) as nat
    };
    assert(n == m * w) by (nonlinear_arith)
        requires
            kh * pow2(jh) == big * w,
            w == pow2(jl),
            big >= kl,
            m == if same {
                big + kl
            } else {
                (big - kl) as nat
            },
            n == if same {
                kh * pow2(jh) + kl * pow2(jl)
            } else {
                (kh * pow2(jh) - kl * pow2(jl)) as nat
            },
    ;
    assert(1 * w == w);
    assert(n == m * w + 0);
    lemma_fundamental_div_mod_converse(n as int, w as int, m as int, 0);
}

/// A magnitude far below another only decides on which side of the larger
/// one the sum lies.
proof fn lemma_sum_absorbed(kh: nat, jh: nat, kl: nat, jl: nat, same: bool)
    requires
        jh > jl + 38,
        kh >= 0x80_0000,
        0 < kl < 0x100_0000,
    ensures
        kh * pow2(jh) > kl * pow2(jl),
        ({
            let m = if same {
                8 * kh
            } else {
                (8 * kh - 1) as nat
            };
            let n = if same {
                kh * pow2(jh) + kl * pow2(jl)
            } else {
                (kh * pow2(jh) - kl * pow2(jl)) as nat
            };
            stands_for(n, 1, m, jh - 3, true)
        }),
{
    lemma2_to64();
    let w = pow2((jh - 3) as nat);
    let sl = kl * pow2(jl);
    let sh = kh * pow2(jh);
    lemma_pow2_adds(3, (jh - 3) as nat);
    lemma_pow2_adds(24, jl);
    lemma_pow2_strictly_increases(24 + jl, (jh - 3) as nat);
    lemma_pow2_pos(jl);
    assert(sl < pow2(24) * pow2(jl)) by (nonlinear_arith)
        requires
            sl == kl * pow2(jl),
            kl < pow2(24),
            pow2(jl) > 0,
    ;
    assert(sl > 0) by (nonlinear_arith)
        requires
            sl == kl * pow2(jl),
            kl > 0,
            pow2(jl) > 0,
    ;
    assert(0 < sl < w);
    assert(sh == (8 * kh) * w) by (nonlinear_arith)
        requires
            sh == kh * pow2(jh),
            pow2(jh) == 8 * w,
    ;
    assert(sh >= w) by (nonlinear_arith)
        requires
            sh == (8 * kh) * w,
            kh >= 1,
    ;
    assert(1 * w == w);
    if same {
        lemma_fundamental_div_mod_converse((sh + sl) as int, w as int, (8 * kh) as int, sl as int);
    } else {
        assert(sh - sl == (8 * kh - 1) * w + (w - sl)) by (nonlinear_arith)
            requires
                sh == (8 * kh) * w,
        ;
        lemma_fundamental_div_mod_converse(
            (sh - sl) as int,
            w as int,
            (8 * kh - 1) as int,
            (w - sl) as int,
        );
    }
}

pub proof fn lemma_scale_twice(k: nat, a: nat, b: nat)
    ensures
        (k * pow2(a)) * pow2(b) == k * pow2(a + b),
{
    lemma_pow2_adds(a, b);
    assert((k * pow2(a)) * pow2(b) == k * (pow2(a) * pow2(b))) by (nonlinear_arith);
}

/// Shifts a significand up until its leading bit is the hidden bit.
pub fn normalise(k: u64) -> (r: (u64, i32))
    requires
        0 < k < 0x100_0000,
    ensures
        r.0 == k * pow2(r.1 as nat),
        0x80_0000 <= r.0 < 0x100_0000,
        0 <= r.1 <= 23,
        k >= 0x80_0000 ==> r.1 == 0,
{
    let l: u32 = length_of(k);
    proof {
        lemma2_to64();
        lemma_bit_length_bounds(k as nat);
        if l > 24 {
            lemma_pow2_strictly_increases(24, (l - 1) as nat);
        }
        if k >= 0x80_0000 && l < 24 {
            if l < 23 {
                lemma_pow2_strictly_increases(l as nat, 23);
            }
        }
        lemma_pow2_adds((l - 1) as nat, (24 - l) as nat);
        lemma_pow2_adds(l as nat, (24 - l) as nat);
        let w = pow2((24 - l) as nat);
        lemma_pow2_pos((24 - l) as nat);
        assert(pow2((l - 1) as nat) * w <= k * w < pow2(l as nat) * w) by (nonlinear_arith)
            requires
                pow2((l - 1) as nat) <= k < pow2(l as nat),
                w > 0,
        ;
    }
    let z: u32 = 24 - l;
    (k * power_of_two(z), z as i32)
}

/// The quotient of two decoded magnitudes is what the quotient of the
/// normalised significands stands for.
proof fn lemma_quotient_stands(
    ka: nat,
    ja: nat,
    za: nat,
    kb: nat,
    jb: nat,
    zb: nat,
)
    requires
        kb > 0,
        za <= 23,
        zb <= 23,
    ensures
        kb * pow2(zb) > 0,
        kb * pow2(jb) > 0,
        ({
            let num = (ka * pow2(za)) * pow2(40);
            let den = kb * pow2(zb);
            stands_for(
                (ka * pow2(ja)) * pow2(149),
                kb * pow2(jb),
                num / den,
                ja - za - jb + zb + 109,
                num % den != 0,
            )
        }),
{
    let n = (ka * pow2(ja)) * pow2(149);
    let d = kb * pow2(jb);
    let num = (ka * pow2(za)) * pow2(40);
    let den = kb * pow2(zb);
    let p = ja - za - jb + zb + 109;
    lemma_pow2_pos(zb);
    lemma_pow2_pos(jb);
    lemma_pow2_pos(za);
    assert(den > 0 && d > 0) by (nonlinear_arith)
        requires
            den == kb * pow2(zb),
            d == kb * pow2(jb),
            kb > 0,
            pow2(zb) > 0,
            pow2(jb) > 0,
    ;
    lemma_scale_twice(ka, ja, 149);
    lemma_scale_twice(ka, za, 40);
    if p >= 0 {
        let b = d * pow2(p as nat);
        lemma_scale_twice(kb, jb, p as nat);
        let c1 = pow2(za);
        let c2 = pow2(ja + 109);
        lemma_pow2_pos(ja + 109);
        lemma_scale_twice(ka, ja + 149, za);
        lemma_scale_twice(ka, za + 40, ja + 109);
        lemma_scale_twice(kb, (jb + p) as nat, za);
        lemma_scale_twice(kb, zb, ja + 109);
        lemma_pow2_pos(p as nat);
        assert(b > 0) by (nonlinear_arith)
            requires
                b == d * pow2(p as nat),
                d > 0,
                pow2(p as nat) > 0,
        ;
        lemma_scaled_division(n, b, c1, num, den, c2);
    } else {
        let a = n * pow2((-p) as nat);
        let c1 = pow2(zb);
        let c2 = pow2(jb);
        lemma_scale_twice(ka, ja + 149, (-p) as nat);
        lemma_scale_twice(ka, (ja + 149 - p) as nat, zb);
        lemma_scale_twice(ka, za + 40, jb);
        lemma_scale_twice(kb, jb, zb);
        lemma_scale_twice(kb, zb, jb);
        lemma_scaled_division(a, d, c1, num, den, c2);
    }
}

impl Scalar {
    /// The quotient of two numbers, rounded to nearest, ties to even.
    pub fn div(self, other: Scalar) -> (r: Scalar)
        ensures
            r == self.quotient(other),
    {
        reveal(Scalar::quotient);
        let negative: bool = self.sign() != other.sign();
        let ma: u32 = self.magnitude_bits();
        let mb: u32 = other.magnitude_bits();
        if ma > INFINITY_BITS || mb > INFINITY_BITS {
            return Scalar::nan();
        }
        if ma == INFINITY_BITS {
            if mb == INFINITY_BITS {
                return Scalar::nan();
            }
            return Scalar::with_sign(negative, INFINITY_BITS);
        }
        if mb == INFINITY_BITS {
            return Scalar::with_sign(negative, 0);
        }
        if mb == 0 {
            if ma == 0 {
                return Scalar::nan();
            }
            return Scalar::with_sign(negative, INFINITY_BITS);
        }
        let (ka, ja) = self.decode();
        let (kb, jb) = other.decode();
        if ka == 0 {
            proof {
                lemma_pow2_pos(jb as nat);
                assert(self.scaled() * pow2(149) == 0) by (nonlinear_arith)
                    requires
                        self.scaled() == ka * pow2(ja as nat),
                        ka == 0,
                ;
                assert(other.scaled() > 0) by (nonlinear_arith)
                    requires
                        other.scaled() == kb * pow2(jb as nat),
                        kb > 0,
                        pow2(jb as nat) > 0,
                ;
                lemma_nearest_ratio_zero(other.scaled());
            }
            return Scalar::with_sign(negative, 0);
        }
        let (na, za) = normalise(ka);
        let (nb, zb) = normalise(kb);
        proof {
            lemma2_to64();
            lemma2_to64_rest();
            lemma_pow2_adds(24, 40);
            lemma_pow2_adds(23, 40);
            lemma_pow2_adds(24, 39);
            assert(0x80_0000 * 0x100_0000_0000 <= na * 0x100_0000_0000 < 0x100_0000
                * 0x100_0000_0000) by (nonlinear_arith)
                requires
                    0x80_0000 <= na < 0x100_0000,
            ;
        }
        let num: u64 = na * 0x100_0000_0000;
        let q: u64 = num / nb;
        let rest: u64 = num % nb;
        let p: i32 = ja - za - jb + zb + 109;
        proof {
            lemma_quotient_stands(ka as nat, ja as nat, za as nat, kb as nat, jb as nat, zb as nat);
            assert(q >= 0x200_0000) by {
                lemma_div_is_ordered_by_denominator(num as int, nb as int, 0x100_0000);
                lemma_div_is_ordered(0x8000_0000_0000_0000int, num as int, 0x100_0000);
            }
            lemma_packed_ratio(
                self.scaled() * pow2(149),
                other.scaled(),
                q as nat,
                p as int,
                rest != 0,
            );
        }
        Scalar::with_sign(negative, round_pack(q, p, rest != 0))
    }
}

/// Zero times zero and zero plus zero are zero, and zero is below one.
pub proof fn lemma_zero_arithmetic()
    ensures
        zero().product(zero()) == zero(),
        zero().sum(zero()) == zero(),
        zero().below(one()),
{
    reveal(Scalar::product);
    reveal(Scalar::sum);
    lemma2_to64();
    lemma_pow2_pos(149);
    lemma_pow2_pos(126);
    assert(scaled_of(0) == 0) by (nonlinear_arith)
        requires
            scaled_of(0) == 0 * pow2(0),
    ;
    assert(zero().scaled() * zero().scaled() == 0) by (nonlinear_arith)
        requires
            zero().scaled() == 0,
    ;
    lemma_nearest_ratio_zero(pow2(149));
    assert(scaled_of(0x3f80_0000) == 0x80_0000 * pow2(126));
    assert(0x80_0000 * pow2(126) > 0) by (nonlinear_arith)
        requires
            pow2(126) > 0,
    ;
}

} // verus!
