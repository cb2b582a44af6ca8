//! Rounding to the nearest binary32 magnitude, ties to even.
//!
//! Magnitudes are measured in units of 2^-149, the spacing of the smallest
//! binary32 values. In this unit every finite binary32 magnitude is a natural
//! number, and every midpoint between two neighbouring magnitudes is a
//! multiple of one half. A non-negative real `x` is therefore rounded
//! correctly once two things are known of it: `h`, the number of whole
//! half-units below it (the floor of `2x`), and whether `x` sits exactly on
//! `h` half-units or strictly above.

use vstd::prelude::*;
use vstd::arithmetic::power2::*;
use vstd::arithmetic::div_mod::*;
use vstd::arithmetic::mul::*;
use vstd::bits::*;

verus! {

/// Magnitude bits of the infinities.
pub const INFINITY_BITS: u32 = 0x7f80_0000;

/// The exponent `j` of the spacing `2^j` (in units of 2^-149) between the
/// binary32 magnitudes around a value with `h` whole half-units below it: the
/// least `j` with `h < 2^(25 + j)`.
pub open spec fn ulp_exponent(h: nat) -> nat
    decreases h,
{
    if h < 0x200_0000 {
        0
    } else {
        1 + ulp_exponent(h / 2)
    }
}

/// Whether a value rounds up to the next multiple of the spacing: `rem` is
/// what lies above the multiple `q`, `half` is half the spacing, `above`
/// says that the value exceeds what `rem` counts.
pub open spec fn rounds_up(q: nat, rem: nat, half: nat, above: bool) -> bool {
    rem > half || (rem == half && (above || q % 2 == 1))
}

/// The magnitude bits of the binary32 value nearest to a real `x >= 0`, ties
/// to the even significand, where `h` is the floor of `2x` in units of
/// 2^-149 and `inexact` says that `2x` is not the integer `h`. Values that
/// round to 2^128 or more give the bits of infinity.
pub open spec fn nearest(h: nat, inexact: bool) -> nat {
    let j = ulp_exponent(h);
    let half = pow2(j);
    let q = h / (2 * half);
    let rem = h % (2 * half);
    let bits = j * 0x80_0000 + q + if rounds_up(q, rem, half, inexact) { 1nat } else { 0nat };
    if bits >= 0x7f80_0000 {
        0x7f80_0000
    } else {
        bits
    }
}

/// The magnitude bits of the binary32 value nearest to the rational `n / d`,
/// taken in units of 2^-149.
pub open spec fn nearest_ratio(n: nat, d: nat) -> nat {
    nearest((2 * n) / d, (2 * n) % d != 0)
}

/// The number of binary digits of `m`.
pub open spec fn bit_length(m: nat) -> nat
    decreases m,
{
    if m == 0 {
        0
    } else {
        1 + bit_length(m / 2)
    }
}

/// A positive `m` lies between the two powers of two that its length names.
pub proof fn lemma_bit_length_bounds(m: nat)
    requires
        m > 0,
    ensures
        bit_length(m) >= 1,
        pow2((bit_length(m) - 1) as nat) <= m < pow2(bit_length(m)),
    decreases m,
{
    lemma2_to64();
    if m / 2 == 0 {
        assert(bit_length(m / 2) == 0);
        assert(m == 1);
    } else {
        lemma_bit_length_bounds(m / 2);
        let l = bit_length(m / 2);
        lemma_pow2_unfold(l);
        lemma_pow2_unfold(l + 1);
    }
}

/// `ulp_exponent` is zero below 2^25 and otherwise names the binade of `h`.
pub proof fn lemma_ulp_exponent(h: nat, j: nat)
    requires
        j == 0 ==> h < pow2(25),
        j > 0 ==> pow2(24 + j) <= h < pow2(25 + j),
    ensures
        ulp_exponent(h) == j,
    decreases j,
{
    lemma2_to64();
    if j > 0 {
        lemma_pow2_unfold(24 + j);
        lemma_pow2_unfold(25 + j);
        if 24 + j > 25 {
            lemma_pow2_strictly_increases(25, 24 + j);
        }
        assert(h >= 0x200_0000);
        lemma_ulp_exponent(h / 2, (j - 1) as nat);
    }
}

/// Rounding a value and rounding it after its low digits were folded into a
/// flag agree: `fine` counts the value in a small unit together with
/// `flag_f`, and `fine / g` counts it in a unit `g` times larger.
pub proof fn lemma_coarsen(fine: nat, g: nat, hc: nat, flag_f: bool)
    requires
        g > 0,
        hc > 0,
    ensures
        2 * (hc * g) > 0,
        fine / (2 * (hc * g)) == (fine / g) / (2 * hc),
        rounds_up(fine / (2 * (hc * g)), fine % (2 * (hc * g)), hc * g, flag_f) == rounds_up(
            (fine / g) / (2 * hc),
            (fine / g) % (2 * hc),
            hc,
            flag_f || fine % g != 0,
        ),
{
    let coarse = fine / g;
    let r = fine % g;
    let q = coarse / (2 * hc);
    let rc = coarse % (2 * hc);
    let hf = hc * g;
    lemma_fundamental_div_mod(fine as int, g as int);
    lemma_fundamental_div_mod(coarse as int, (2 * hc) as int);
    assert(hf > 0) by (nonlinear_arith)
        requires
            hf == hc * g,
            hc > 0,
            g > 0,
    ;
    assert(fine == q * (2 * hf) + (rc * g + r)) by (nonlinear_arith)
        requires
            fine == g * coarse + r,
            coarse == (2 * hc) * q + rc,
            hf == hc * g,
    ;
    assert(rc * g + r < 2 * hf) by (nonlinear_arith)
        requires
            rc < 2 * hc,
            r < g,
            hf == hc * g,
    ;
    lemma_fundamental_div_mod_converse(fine as int, (2 * hf) as int, q as int, (rc * g + r) as int);
    if rc > hc {
        assert(rc * g + r > hf) by (nonlinear_arith)
            requires
                rc > hc,
                g > 0,
                hf == hc * g,
        ;
    } else if rc < hc {
        assert(rc * g + r < hf) by (nonlinear_arith)
            requires
                rc < hc,
                r < g,
                hf == hc * g,
        ;
    } else {
        assert(rc * g == hf) by (nonlinear_arith)
            requires
                rc == hc,
                hf == hc * g,
        ;
    }
}

/// What `(m, p, sticky)` stands for: a real `x >= 0` with `m` the floor of
/// `x / 2^p` (in units of 2^-149) and `sticky` true when `x` is not exactly
/// `m * 2^p`. This says that `h` and `inexact` describe the same `x` in half
/// units.
pub open spec fn represents(h: nat, inexact: bool, m: nat, p: int, sticky: bool) -> bool {
    if p + 1 >= 0 {
        let t = pow2((p + 1) as nat);
        m == h / t && sticky == (inexact || h % t != 0)
    } else {
        let u = pow2((-(p + 1)) as nat);
        h == m / u && inexact == (sticky || m % u != 0)
    }
}

/// The rounded magnitude bits computed from a significand `m` of any length
/// scaled by `2^p`, with the digits below `m` folded into `sticky`.
pub open spec fn packed(m: nat, p: int, sticky: bool) -> nat {
    let l = bit_length(m) as int;
    let j: int = if l + p - 24 > 0 {
        l + p - 24
    } else {
        0
    };
    let shift = j - p;
    let bits: int = if m == 0 {
        0
    } else if shift <= 0 {
        j * 0x80_0000 + m * pow2((-shift) as nat)
    } else {
        let half = pow2((shift - 1) as nat);
        let q = m / (2 * half);
        let rem = m % (2 * half);
        j * 0x80_0000 + q + if rounds_up(q, rem, half, sticky) {
            1int
        } else {
            0int
        }
    };
    if bits >= 0x7f80_0000 {
        0x7f80_0000
    } else {
        bits as nat
    }
}

proof fn lemma_pow2_sum(a: nat, b: nat, c: nat)
    requires
        a + b == c,
    ensures
        pow2(a) * pow2(b) == pow2(c),
        pow2(a) > 0,
        pow2(b) > 0,
        pow2(c) > 0,
{
    lemma_pow2_adds(a, b);
    lemma_pow2_pos(a);
    lemma_pow2_pos(b);
    lemma_pow2_pos(c);
}

proof fn lemma_pow2_le(a: nat, b: nat)
    requires
        a <= b,
    ensures
        pow2(a) <= pow2(b),
{
    if a < b {
        lemma_pow2_strictly_increases(a, b);
    }
}

/// The binade of `h` follows from the length of `m` and the scale `p`.
proof fn lemma_represents_ulp(h: nat, inexact: bool, m: nat, p: int, sticky: bool)
    requires
        represents(h, inexact, m, p, sticky),
        m > 0,
    ensures
        ulp_exponent(h) == if bit_length(m) + p - 24 > 0 {
            bit_length(m) + p - 24
        } else {
            0
        },
{
    let l = bit_length(m);
    lemma_bit_length_bounds(m);
    let lo = pow2((l - 1) as nat);
    let hi = pow2(l);
    let t = p + 1;
    if t >= 0 {
        let tn = t as nat;
        let tt = pow2(tn);
        lemma_pow2_pos(tn);
        lemma_fundamental_div_mod(h as int, tt as int);
        let r = h % tt;
        lemma_pow2_sum((l - 1) as nat, tn, (l - 1 + tn) as nat);
        lemma_pow2_sum(l, tn, l + tn);
        assert(lo * tt <= h) by (nonlinear_arith)
            requires
                h == tt * m + r,
                lo <= m,
                r >= 0,
                tt > 0,
        ;
        assert(h < hi * tt) by (nonlinear_arith)
            requires
                h == tt * m + r,
                m < hi,
                r < tt,
                tt > 0,
        ;
        if l + t - 25 >= 1 {
            lemma_ulp_exponent(h, (l + t - 25) as nat);
        } else {
            lemma_pow2_le(l + tn, 25);
            lemma_ulp_exponent(h, 0);
        }
    } else {
        let un = (-t) as nat;
        let uu = pow2(un);
        lemma_pow2_pos(un);
        lemma_fundamental_div_mod(m as int, uu as int);
        let r = m % uu;
        if l >= un + 26 {
            let j = (l - un - 25) as nat;
            lemma_pow2_sum((l - un) as nat, un, l);
            lemma_pow2_sum((l - 1 - un) as nat, un, (l - 1) as nat);
            let a = pow2((l - un) as nat);
            let b = pow2((l - 1 - un) as nat);
            assert(h < a) by (nonlinear_arith)
                requires
                    m == uu * h + r,
                    m < a * uu,
                    r >= 0,
                    uu > 0,
            ;
            assert(b <= h) by (nonlinear_arith)
                requires
                    m == uu * h + r,
                    b * uu <= m,
                    r < uu,
                    uu > 0,
            ;
            lemma_ulp_exponent(h, j);
        } else if l >= un {
            lemma_pow2_sum((l - un) as nat, un, l);
            let a = pow2((l - un) as nat);
            assert(h < a) by (nonlinear_arith)
                requires
                    m == uu * h + r,
                    m < a * uu,
                    r >= 0,
                    uu > 0,
            ;
            lemma_pow2_le((l - un) as nat, 25);
            lemma_ulp_exponent(h, 0);
        } else {
            lemma_pow2_le(l, un);
            assert(h == 0) by (nonlinear_arith)
                requires
                    m == uu * h + r,
                    m < uu,
                    r >= 0,
                    uu > 0,
                    h >= 0,
            ;
            lemma2_to64();
            lemma_ulp_exponent(h, 0);
        }
    }
}

/// `packed` rounds correctly: whenever `(m, p, sticky)` and `(h, inexact)`
/// describe the same value, and `m` is long enough for `sticky` to lie below
/// the rounding position, `packed` gives the nearest magnitude.
pub proof fn lemma_packed_is_nearest(h: nat, inexact: bool, m: nat, p: int, sticky: bool)
    requires
        represents(h, inexact, m, p, sticky),
        sticky ==> m >= 0x200_0000,
    ensures
        packed(m, p, sticky) == nearest(h, inexact),
{
    lemma2_to64();
    let t = p + 1;
    if m == 0 {
        if t >= 0 {
            let tt = pow2(t as nat);
            lemma_pow2_pos(t as nat);
            lemma_fundamental_div_mod(h as int, tt as int);
            assert(h == 0) by (nonlinear_arith)
                requires
                    h == tt * (h / tt) + h % tt,
                    h / tt == 0,
                    h % tt == 0,
            ;
        } else {
            lemma_pow2_pos((-t) as nat);
            lemma_small_mod(0, pow2((-t) as nat));
            lemma_div_basics_1(pow2((-t) as nat) as int);
        }
        assert(h == 0);
        assert(!inexact);
        assert(ulp_exponent(0) == 0);
        assert(pow2(0) == 1);
        assert(0nat / 2 == 0 && 0nat % 2 == 0);
    } else {
        let l = bit_length(m);
        lemma_bit_length_bounds(m);
        lemma_represents_ulp(h, inexact, m, p, sticky);
        let j: int = if l + p - 24 > 0 {
            l + p - 24
        } else {
            0
        };
        let jn = j as nat;
        let shift = j - p;
        assert(ulp_exponent(h) == jn);
        if sticky {
            if l <= 25 {
                lemma_pow2_le(l, 25);
            }
            assert(l >= 26);
            assert(shift >= 2);
        }
        lemma_pow2_pos(jn);
        if t >= 0 {
            let tn = t as nat;
            let tt = pow2(tn);
            lemma_pow2_pos(tn);
            if shift >= 1 {
                let hc = pow2((shift - 1) as nat);
                lemma_pow2_sum((shift - 1) as nat, tn, jn);
                lemma_coarsen(h, tt, hc, inexact);
                assert(hc * tt == pow2(jn));
            } else {
                assert(!sticky);
                lemma_fundamental_div_mod(h as int, tt as int);
                let e = (-shift) as nat;
                lemma_pow2_sum(e, jn + 1, tn);
                lemma_pow2_unfold(jn + 1);
                let unit = 2 * pow2(jn);
                let q = m * pow2(e);
                assert(h == q * unit + 0) by (nonlinear_arith)
                    requires
                        h == tt * m + 0,
                        pow2(e) * unit == tt,
                        q == m * pow2(e),
                ;
                lemma_fundamental_div_mod_converse(h as int, unit as int, q as int, 0);
            }
        } else {
            let un = (-t) as nat;
            let uu = pow2(un);
            lemma_pow2_pos(un);
            let hc = pow2(jn);
            lemma_pow2_sum(jn, un, (shift - 1) as nat);
            lemma_coarsen(m, uu, hc, sticky);
            assert(hc * uu == pow2((shift - 1) as nat));
        }
    }
}

/// `2^e` as a machine word.
pub fn power_of_two(e: u32) -> (r: u64)
    requires
        e < 64,
    ensures
        r == pow2(e as nat),
{
    proof {
        lemma_u64_pow2_no_overflow(e as nat);
        lemma_u64_shl_is_mul(1, e as u64);
    }
    1u64 << (e as u64)
}

/// Dropping `k` low digits of a number that has more than `k` digits leaves
/// `k` digits fewer.
pub proof fn lemma_bit_length_shift(m: nat, k: nat)
    requires
        m >= pow2(k),
    ensures
        bit_length(m) == k + bit_length(m / pow2(k)),
    decreases k,
{
    lemma2_to64();
    if k > 0 {
        lemma_pow2_unfold(k);
        lemma_pow2_pos((k - 1) as nat);
        let half = pow2((k - 1) as nat);
        assert(m / 2 >= half);
        lemma_bit_length_shift(m / 2, (k - 1) as nat);
        lemma_div_denominator(m as int, 2, half as int);
        assert(2 * half == pow2(k));
        assert((m / 2) / half == m / pow2(k));
        assert(m > 0);
        assert(bit_length(m) == 1 + bit_length(m / 2));
    } else {
        assert(pow2(0) == 1);
        assert(m / 1 == m);
    }
}

/// The number of binary digits of a machine word.
pub fn length_of(m: u64) -> (l: u32)
    ensures
        l == bit_length(m as nat),
        l <= 64,
{
    let mut l: u32 = 0;
    let mut rest: u64 = m;
    proof {
        lemma2_to64();
    }
    if rest >= 0x1_0000_0000 {
        proof {
            lemma_bit_length_shift(rest as nat, 32);
        }
        rest = rest / 0x1_0000_0000;
        l = l + 32;
    }
    if rest >= 0x1_0000 {
        proof {
            lemma_bit_length_shift(rest as nat, 16);
        }
        rest = rest / 0x1_0000;
        l = l + 16;
    }
    if rest >= 0x100 {
        proof {
            lemma_bit_length_shift(rest as nat, 8);
        }
        rest = rest / 0x100;
        l = l + 8;
    }
    if rest >= 0x10 {
        proof {
            lemma_bit_length_shift(rest as nat, 4);
        }
        rest = rest / 0x10;
        l = l + 4;
    }
    if rest >= 4 {
        proof {
            lemma_bit_length_shift(rest as nat, 2);
        }
        rest = rest / 4;
        l = l + 2;
    }
    if rest >= 2 {
        proof {
            lemma_bit_length_shift(rest as nat, 1);
        }
        rest = rest / 2;
        l = l + 1;
    }
    proof {
        assert(rest <= 1);
        assert(bit_length(0) == 0);
        assert(bit_length(1) == 1) by {
            assert(bit_length(1) == 1 + bit_length(0));
        }
    }
    if rest >= 1 {
        l = l + 1;
    }
    l
}

/// Rounds `(m + f) * 2^p`, in units of 2^-149, to the nearest binary32
/// magnitude, where `0 <= f < 1` and `sticky` says that `f` is not zero.
pub fn round_pack(m: u64, p: i32, sticky: bool) -> (r: u32)
    requires
        -0x1000 <= p <= 0x1000,
    ensures
        r == packed(m as nat, p as int, sticky),
        r <= INFINITY_BITS,
{
    if m == 0 {
        return 0;
    }
    let l: i64 = length_of(m) as i64;
    let scale: i64 = p as i64;
    let j: i64 = if l + scale - 24 > 0 {
        l + scale - 24
    } else {
        0
    };
    let shift: i64 = j - scale;
    proof {
        lemma_bit_length_bounds(m as nat);
        lemma2_to64();
        lemma2_to64_rest();
    }
    if j >= 255 {
        proof {
            if shift <= 0 {
                lemma_pow2_pos((-shift) as nat);
                assert(m * pow2((-shift) as nat) >= 0) by (nonlinear_arith)
                    requires
                        pow2((-shift) as nat) > 0,
                ;
            }
        }
        return INFINITY_BITS;
    }
    let base: u64 = (j as u64) * 0x80_0000;
    let body: u64;
    if shift <= 0 {
        let e: u32 = (-shift) as u32;
        proof {
            lemma_pow2_sum(l as nat, e as nat, (l + e) as nat);
            lemma_pow2_le((l + e) as nat, 24);
            let w = pow2(e as nat);
            let top = pow2(l as nat);
            assert(m * w < top * w) by (nonlinear_arith)
                requires
                    m < top,
                    w > 0,
            ;
        }
        body = m * power_of_two(e);
    } else if shift >= 65 {
        proof {
            let half = pow2((shift - 1) as nat);
            lemma_pow2_le(64, (shift - 1) as nat);
            lemma_basic_div(m as int, (2 * half) as int);
            lemma_small_mod(m as nat, 2 * half);
        }
        body = 0;
    } else {
        let half: u64 = power_of_two((shift - 1) as u32);
        let q: u64;
        let rem: u64;
        if shift == 64 {
            proof {
                lemma_basic_div(m as int, (2 * half) as int);
                lemma_small_mod(m as nat, (2 * half) as nat);
            }
            q = 0;
            rem = m;
        } else {
            proof {
                lemma_pow2_le((shift - 1) as nat, 62);
                lemma_pow2_pos((shift - 1) as nat);
                lemma_div_is_ordered_by_denominator(m as int, 2, (2 * half) as int);
            }
            q = m / (2 * half);
            rem = m % (2 * half);
        }
        let up: bool = rem > half || (rem == half && (sticky || q % 2 == 1));
        body = if up {
            q + 1
        } else {
            q
        };
    }
    let bits: u64 = base + body;
    if bits >= 0x7f80_0000 {
        INFINITY_BITS
    } else {
        bits as u32
    }
}

/// Quotient and remainder-is-zero do not change when dividend and divisor
/// are scaled alike: here `a * c1 == a2 * c2` and `b * c1 == b2 * c2`.
pub proof fn lemma_scaled_division(a: nat, b: nat, c1: nat, a2: nat, b2: nat, c2: nat)
    requires
        b > 0,
        b2 > 0,
        c1 > 0,
        c2 > 0,
        a * c1 == a2 * c2,
        b * c1 == b2 * c2,
    ensures
        a / b == a2 / b2,
        (a % b != 0) == (a2 % b2 != 0),
{
    lemma_div_multiples_vanish_quotient(c1 as int, a as int, b as int);
    lemma_div_multiples_vanish_quotient(c2 as int, a2 as int, b2 as int);
    lemma_truncate_middle(a as int, c1 as int, b as int);
    lemma_truncate_middle(a2 as int, c2 as int, b2 as int);
    lemma_mul_is_commutative(a as int, c1 as int);
    lemma_mul_is_commutative(b as int, c1 as int);
    lemma_mul_is_commutative(a2 as int, c2 as int);
    lemma_mul_is_commutative(b2 as int, c2 as int);
    let r = a % b;
    let r2 = a2 % b2;
    assert(c1 * r == c2 * r2);
    assert((r != 0) == (r2 != 0)) by (nonlinear_arith)
        requires
            c1 * r == c2 * r2,
            c1 > 0,
            c2 > 0,
            r >= 0,
            r2 >= 0,
    ;
}

/// Whether `(m, p, sticky)` stands for the rational `n / d`: `m` is the floor
/// of `(n / d) / 2^p` and `sticky` says that the division left a remainder.
pub open spec fn stands_for(n: nat, d: nat, m: nat, p: int, sticky: bool) -> bool {
    if p >= 0 {
        let w = d * pow2(p as nat);
        m == n / w && sticky == (n % w != 0)
    } else {
        let w = n * pow2((-p) as nat);
        m == w / d && sticky == (w % d != 0)
    }
}

/// A triple that stands for `n / d` describes the same value as the half-unit
/// count that `nearest_ratio` rounds.
pub proof fn lemma_ratio_represents(n: nat, d: nat, m: nat, p: int, sticky: bool)
    requires
        d > 0,
        stands_for(n, d, m, p, sticky),
    ensures
        represents((2 * n) / d, (2 * n) % d != 0, m, p, sticky),
{
    lemma2_to64();
    let h = (2 * n) / d;
    let rho = (2 * n) % d;
    if p >= 0 {
        let w = pow2(p as nat);
        let t = pow2((p + 1) as nat);
        lemma_pow2_pos(p as nat);
        lemma_pow2_unfold((p + 1) as nat);
        assert(d * w > 0) by (nonlinear_arith)
            requires
                d > 0,
                w > 0,
        ;
        assert(d * t == 2 * (d * w)) by (nonlinear_arith)
            requires
                t == 2 * w,
        ;
        lemma_div_denominator((2 * n) as int, d as int, t as int);
        lemma_div_multiples_vanish_quotient(2, n as int, (d * w) as int);
        lemma_mod_breakdown((2 * n) as int, d as int, t as int);
        lemma_truncate_middle(n as int, 2, (d * w) as int);
        let x = h % t;
        assert((d * x + rho != 0) == (rho != 0 || x != 0)) by (nonlinear_arith)
            requires
                d > 0,
                x >= 0,
                rho >= 0,
        ;
    } else if p == -1 {
        assert(pow2(0) == 1);
        assert(pow2(1) == 2);
        assert(h / 1 == h);
        assert(h % 1 == 0);
        assert(n * 2 == 2 * n);
    } else {
        let u = pow2((-(p + 1)) as nat);
        let w = pow2((-p) as nat);
        lemma_pow2_pos((-(p + 1)) as nat);
        lemma_pow2_unfold((-p) as nat);
        let big = n * w;
        assert(big == (2 * n) * u) by (nonlinear_arith)
            requires
                big == n * w,
                w == 2 * u,
        ;
        lemma_div_denominator(big as int, d as int, u as int);
        assert(d * u > 0 && (d * u) * 1 == d * u) by (nonlinear_arith)
            requires
                d > 0,
                u > 0,
        ;
        lemma_scaled_division(big, d * u, 1, 2 * n, d, u);
        lemma_mod_breakdown(big as int, d as int, u as int);
        let x = m % u;
        let s = big % d;
        assert((d * x + s != 0) == (s != 0 || x != 0)) by (nonlinear_arith)
            requires
                d > 0,
                x >= 0,
                s >= 0,
        ;
    }
}

/// `round_pack` on a triple that stands for `n / d` gives the binary32
/// magnitude nearest to `n / d`.
pub proof fn lemma_packed_ratio(n: nat, d: nat, m: nat, p: int, sticky: bool)
    requires
        d > 0,
        stands_for(n, d, m, p, sticky),
        sticky ==> m >= 0x200_0000,
    ensures
        packed(m, p, sticky) == nearest_ratio(n, d),
{
    lemma_ratio_represents(n, d, m, p, sticky);
    lemma_packed_is_nearest((2 * n) / d, (2 * n) % d != 0, m, p, sticky);
}

/// Zero rounds to zero.
pub proof fn lemma_nearest_ratio_zero(d: nat)
    requires
        d > 0,
    ensures
        nearest_ratio(0, d) == 0,
{
    lemma2_to64();
    lemma_small_mod(0, d);
    lemma_div_basics_1(d as int);
    assert((2 * 0nat) / d == 0);
    assert((2 * 0nat) % d == 0);
    assert(ulp_exponent(0) == 0);
    assert(pow2(0) == 1);
    assert(0nat / 2 == 0 && 0nat % 2 == 0);
    assert(!rounds_up(0, 0, 1, false));
    assert(nearest(0, false) == 0);
}

} // verus!
