//! The square root of a `Scalar`, rounded to nearest.

use vstd::prelude::*;
use vstd::arithmetic::power2::*;
use vstd::arithmetic::div_mod::*;
use crate::rounding::{
    nearest,
    represents,
    round_pack,
    lemma_packed_is_nearest,
    power_of_two,
};
use crate::arithmetic::normalise;
use crate::scalar::{Scalar, not_a_number, signed};

verus! {

/// Whether `r` is the integer part of the square root of `n`.
pub open spec fn is_floor_root(r: nat, n: nat) -> bool {
    r * r <= n < (r + 1) * (r + 1)
}

/// The integer part of the square root of `n`.
pub open spec fn floor_root(n: nat) -> nat {
    choose|r: nat| is_floor_root(r, n)
}

proof fn lemma_square_order(a: nat, b: nat)
    ensures
        a <= b ==> a * a <= b * b,
        a < b ==> a * a < b * b,
        a < b ==> (a + 1) * (a + 1) <= b * b,
{
    assert(a <= b ==> a * a <= b * b) by (nonlinear_arith);
    assert(a < b ==> a * a < b * b) by (nonlinear_arith);
    assert(a < b ==> (a + 1) * (a + 1) <= b * b) by (nonlinear_arith);
}

/// No number has two integer square roots.
pub proof fn lemma_floor_root_unique(r1: nat, r2: nat, n: nat)
    requires
        is_floor_root(r1, n),
        is_floor_root(r2, n),
    ensures
        r1 == r2,
{
    lemma_square_order(r1, r2);
    lemma_square_order(r2, r1);
}

/// Every number has an integer square root, and `floor_root` is it.
pub proof fn lemma_floor_root(n: nat) -> (r: nat)
    ensures
        is_floor_root(r, n),
        r == floor_root(n),
    decreases n,
{
    let r: nat;
    if n == 0 {
        r = 0;
        assert(is_floor_root(0, 0)) by (nonlinear_arith);
    } else {
        let prev = lemma_floor_root((n - 1) as nat);
        if (prev + 1) * (prev + 1) <= n {
            r = prev + 1;
            assert((r + 1) * (r + 1) > r * r) by (nonlinear_arith);
        } else {
            r = prev;
        }
    }
    assert(is_floor_root(r, n));
    lemma_floor_root_unique(r, floor_root(n), n);
    r
}

/// The integer square root of a machine word.
pub fn floor_root_of(m: u64) -> (r: u64)
    ensures
        is_floor_root(r as nat, m as nat),
        r < 0x1_0000_0000,
{
    let mut r: u64 = 0;
    let mut i: u32 = 32;
    proof {
        lemma2_to64();
        lemma2_to64_rest();
        assert(0x1_0000_0000nat * 0x1_0000_0000nat == 0x1_0000_0000_0000_0000nat) by (nonlinear_arith);
    }
    while i > 0
        invariant
            i <= 32,
            r * r <= m,
            m < (r + pow2(i as nat)) * (r + pow2(i as nat)),
            r + pow2(i as nat) <= 0x1_0000_0000,
        decreases i,
    {
        proof {
            lemma_pow2_unfold(i as nat);
            lemma_pow2_pos((i - 1) as nat);
        }
        i = i - 1;
        let step: u64 = power_of_two(i);
        let candidate: u64 = r + step;
        proof {
            assert(candidate * candidate < 0x1_0000_0000 * 0x1_0000_0000) by (nonlinear_arith)
                requires
                    candidate < 0x1_0000_0000,
            ;
        }
        if candidate * candidate <= m {
            r = candidate;
        }
    }
    proof {
        assert(pow2(0) == 1);
    }
    r
}

impl Scalar {
    /// The square root, rounded to nearest. The root of a negative number
    /// other than zero is not a number; the root of a zero is that zero.
    #[verifier::opaque]
    pub open spec fn root(self) -> Scalar {
        if self.is_nan() {
            not_a_number()
        } else if self.is_zero() {
            self
        } else if self.is_negative() {
            not_a_number()
        } else if self.is_infinite() {
            self
        } else {
            let n = self.scaled() * pow2(151);
            let r = floor_root(n);
            signed(false, nearest(r, r * r != n))
        }
    }
}

/// The root of `m * 4^g` is described by the root of `m` at the scale `2^g`.
proof fn lemma_root_represents(m: nat, g: nat, r: nat)
    requires
        is_floor_root(r, m),
        g >= 1,
    ensures
        ({
            let n = m * (pow2(g) * pow2(g));
            let h = floor_root(n);
            represents(h, h * h != n, r, g - 1, r * r != m)
        }),
{
    let w = pow2(g);
    lemma_pow2_pos(g);
    let n = m * (w * w);
    let h = lemma_floor_root(n);
    let lo = r * w;
    let hi = (r + 1) * w;
    assert(lo * lo == (r * r) * (w * w)) by (nonlinear_arith)
        requires
            lo == r * w,
    ;
    assert(hi * hi == ((r + 1) * (r + 1)) * (w * w)) by (nonlinear_arith)
        requires
            hi == (r + 1) * w,
    ;
    assert(w * w > 0) by (nonlinear_arith)
        requires
            w > 0,
    ;
    assert(lo * lo <= n) by (nonlinear_arith)
        requires
            lo * lo == (r * r) * (w * w),
            n == m * (w * w),
            r * r <= m,
            w * w > 0,
    ;
    assert(n < hi * hi) by (nonlinear_arith)
        requires
            hi * hi == ((r + 1) * (r + 1)) * (w * w),
            n == m * (w * w),
            m < (r + 1) * (r + 1),
            w * w > 0,
    ;
    lemma_square_order(h, lo);
    lemma_square_order(hi, h);
    assert(lo <= h < hi);
    let rho = (h - lo) as nat;
    assert(rho < w) by (nonlinear_arith)
        requires
            rho == h - r * w,
            h < (r + 1) * w,
    ;
    assert(h == r * w + rho);
    lemma_fundamental_div_mod_converse(h as int, w as int, r as int, rho as int);
    if r * r == m {
        assert(is_floor_root(lo, n)) by {
            assert((lo + 1) * (lo + 1) > lo * lo) by (nonlinear_arith);
        }
        lemma_floor_root_unique(lo, h, n);
    } else {
        if h * h == n && rho == 0 {
            assert((r * r) * (w * w) == m * (w * w));
            assert(r * r == m) by (nonlinear_arith)
                requires
                    (r * r) * (w * w) == m * (w * w),
                    w * w > 0,
            ;
        }
    }
}

impl Scalar {
    /// The square root, rounded to nearest, ties to even.
    pub fn sqrt(self) -> (r: Scalar)
        ensures
            r == self.root(),
    {
        reveal(Scalar::root);
        let mag: u32 = self.magnitude_bits();
        if mag > crate::rounding::INFINITY_BITS {
            return Scalar::nan();
        }
        if mag == 0 {
            return self;
        }
        if self.sign() {
            return Scalar::nan();
        }
        if mag == crate::rounding::INFINITY_BITS {
            return self;
        }
        let (k, j) = self.decode();
        proof {
            lemma2_to64();
            lemma2_to64_rest();
            lemma_pow2_pos(j as nat);
            if k == 0 {
                assert(mag == 0);
            }
        }
        let (nk, z) = normalise(k);
        let e: i32 = j - z + 151;
        let c: i32 = if (e - 40) % 2 == 0 {
            40
        } else {
            39
        };
        proof {
            lemma_pow2_adds(24, c as nat);
            lemma_pow2_le_local(c as nat, 40);
            lemma_pow2_pos(c as nat);
            assert(nk * pow2(c as nat) < 0x100_0000 * pow2(40)) by (nonlinear_arith)
                requires
                    nk < 0x100_0000,
                    0 < pow2(c as nat) <= pow2(40),
            ;
            lemma_pow2_adds(24, 40);
        }
        let m: u64 = nk * power_of_two(c as u32);
        let r: u64 = floor_root_of(m);
        let g: i32 = (e - c) / 2;
        proof {
            let gn = g as nat;
            let n = self.scaled() * pow2(151);
            lemma_root_represents(m as nat, gn, r as nat);
            // n == m * 4^g
            lemma_pow2_adds(gn, gn);
            crate::arithmetic::lemma_scale_twice(k as nat, j as nat, 151);
            crate::arithmetic::lemma_scale_twice(k as nat, z as nat, e as nat);
            crate::arithmetic::lemma_scale_twice(nk as nat, c as nat, (2 * g) as nat);
            assert(n == (m as nat) * (pow2(gn) * pow2(gn)));
            // enough digits for the sticky flag
            assert(r >= 0x200_0000) by {
                lemma_pow2_adds(23, 39);
                lemma_pow2_le_local(39, c as nat);
                assert(m >= 0x80_0000 * pow2(39)) by (nonlinear_arith)
                    requires
                        m == nk * pow2(c as nat),
                        nk >= 0x80_0000,
                        pow2(c as nat) >= pow2(39),
                ;
                assert(pow2(62) == 0x4000_0000_0000_0000);
                if r < 0x200_0000 {
                    assert((r + 1) * (r + 1) <= 0x200_0000 * 0x200_0000) by (nonlinear_arith)
                        requires
                            r < 0x200_0000,
                    ;
                }
            }
            let h = floor_root(n);
            lemma_packed_is_nearest(h, h * h != n, r as nat, g - 1, r * r != m);
        }
        Scalar::with_sign(false, round_pack(r, g - 1, r * r != m))
    }
}

proof fn lemma_pow2_le_local(a: nat, b: nat)
    requires
        a <= b,
    ensures
        pow2(a) <= pow2(b),
{
    if a < b {
        lemma_pow2_strictly_increases(a, b);
    }
}

} // verus!
