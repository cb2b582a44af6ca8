//! What rounding promises: `nearest` gives the representable magnitude
//! closest to the value it is given, and the even one of two that are
//! equally close.

use vstd::prelude::*;
use vstd::arithmetic::power2::*;
use vstd::arithmetic::div_mod::*;
use crate::rounding::{nearest, nearest_ratio, rounds_up, ulp_exponent, lemma_nearest_ratio_zero};
use crate::root::lemma_floor_root;
use crate::scalar::{Scalar, scaled_of, significand_of, exponent_of, lemma_scaled_monotonic, lemma_scaled_zero};

verus! {

/// Four times the distance, in units of 2^-149, between the magnitude with
/// bits `mag` and a real `x >= 0` of which `h` is the floor of `2x` and
/// `inexact` says that `2x` is not `h`. Where `2x` lies strictly between `h`
/// and `h + 1` the distance is taken from the middle of the two; that orders
/// the distances of any two magnitudes as their true distances are ordered,
/// because twice a magnitude is an even number.
pub open spec fn gap(mag: nat, h: nat, inexact: bool) -> int {
    let target = 2 * h + if inexact {
        1int
    } else {
        0int
    };
    let d = 4 * scaled_of(mag) - target;
    if d < 0 {
        -d
    } else {
        d
    }
}

/// The binade that `ulp_exponent` names holds `h`.
pub proof fn lemma_ulp_exponent_bounds(h: nat)
    ensures
        ulp_exponent(h) == 0 ==> h < pow2(25),
        ulp_exponent(h) > 0 ==> pow2(24 + ulp_exponent(h)) <= h < pow2(25 + ulp_exponent(h)),
    decreases h,
{
    lemma2_to64();
    if h >= 0x200_0000 {
        lemma_ulp_exponent_bounds(h / 2);
        let j = ulp_exponent(h / 2);
        lemma_pow2_unfold(25 + j);
        lemma_pow2_unfold(26 + j);
    }
}

/// The bits `j * 2^23 + k` hold the magnitude `k * 2^j`, for a significand
/// `k` of up to 2^24 that is at least 2^23 where `j` is not zero.
pub proof fn lemma_encoding(j: nat, k: nat)
    requires
        k <= 0x100_0000,
        j > 0 ==> k >= 0x80_0000,
        j * 0x80_0000 + k <= 0x7f80_0000,
    ensures
        scaled_of(j * 0x80_0000 + k) == k * pow2(j),
{
    lemma2_to64();
    let bits = j * 0x80_0000 + k;
    if k == 0x100_0000 {
        assert(bits == (j + 2) * 0x80_0000);
        assert(significand_of(bits) == 0x80_0000);
        assert(exponent_of(bits) == j + 1);
        lemma_pow2_unfold(j + 1);
        assert(0x80_0000 * pow2(j + 1) == 0x100_0000 * pow2(j)) by (nonlinear_arith)
            requires
                pow2(j + 1) == 2 * pow2(j),
        ;
    } else if j == 0 {
        assert(significand_of(bits) == k);
        assert(exponent_of(bits) == 0);
    } else {
        assert(bits == (j + 1) * 0x80_0000 + (k - 0x80_0000));
        assert(significand_of(bits) == k);
        assert(exponent_of(bits) == j);
    }
}

/// Round to nearest, ties to even: no magnitude, the infinite one counted as
/// 2^128, is closer to the value than the one that `nearest` gives, and where
/// another is as close, the one given has an even significand.
pub proof fn lemma_nearest_is_nearest(h: nat, inexact: bool, b: nat)
    requires
        b <= 0x7f80_0000,
    ensures
        nearest(h, inexact) <= 0x7f80_0000,
        gap(nearest(h, inexact), h, inexact) <= gap(b, h, inexact),
        gap(nearest(h, inexact), h, inexact) == gap(b, h, inexact) && b != nearest(h, inexact)
            ==> nearest(h, inexact) % 2 == 0,
{
    lemma2_to64();
    let j = ulp_exponent(h);
    let half = pow2(j);
    let r = nearest(h, inexact);
    lemma_ulp_exponent_bounds(h);
    lemma_pow2_pos(j);
    let top: nat = 0x7f80_0000;
    lemma_encoding(254, 0x80_0000);
    assert(top == 254 * 0x80_0000 + 0x80_0000);
    let most = scaled_of(top);
    assert(most == 0x80_0000 * pow2(254));
    if b < top {
        lemma_scaled_monotonic(b, top);
    }
    if j >= 254 {
        let q = h / (2 * half);
        let rem = h % (2 * half);
        lemma_fundamental_div_mod(h as int, (2 * half) as int);
        lemma_pow2_adds(23, j);
        lemma_pow2_unfold(24 + j);
        assert(q >= 0x80_0000) by (nonlinear_arith)
            requires
                h == (2 * half) * q + rem,
                h >= 0x80_0000 * (2 * half),
                rem < 2 * half,
                half > 0,
        ;
        assert(j * 0x80_0000 + q >= 0x7f80_0000);
        assert(r == top);
        if 24 + j > 278 {
            lemma_pow2_strictly_increases(278, 24 + j);
        }
        lemma_pow2_adds(24, 254);
        assert(pow2(278) == 0x100_0000 * pow2(254));
        assert(2 * h >= 4 * most);
    } else {
        let q = h / (2 * half);
        let rem = h % (2 * half);
        lemma_fundamental_div_mod(h as int, (2 * half) as int);
        lemma_pow2_unfold(24 + j + 1);
        lemma_pow2_adds(24, j);
        lemma_pow2_adds(23, j);
        lemma_pow2_unfold(24 + j);
        if j == 0 {
            assert(pow2(25) == 0x100_0000 * 2);
            assert(half == 1);
        }
        assert(h < 0x100_0000 * (2 * half));
        assert(q < 0x100_0000) by (nonlinear_arith)
            requires
                h == (2 * half) * q + rem,
                h < 0x100_0000 * (2 * half),
                rem >= 0,
                half > 0,
        ;
        if j > 0 {
            assert(q >= 0x80_0000) by (nonlinear_arith)
                requires
                    h == (2 * half) * q + rem,
                    h >= 0x80_0000 * (2 * half),
                    rem < 2 * half,
                    half > 0,
            ;
        }
        let lo = j * 0x80_0000 + q;
        let hi = lo + 1;
        lemma_encoding(j, q);
        lemma_encoding(j, q + 1);
        let s_lo = q * half;
        let s_hi = (q + 1) * half;
        assert(s_hi == s_lo + half) by (nonlinear_arith)
            requires
                s_lo == q * half,
                s_hi == (q + 1) * half,
        ;
        assert(2 * h == 4 * s_lo + 2 * rem) by (nonlinear_arith)
            requires
                h == (2 * half) * q + rem,
                s_lo == q * half,
        ;
        let up = rounds_up(q, rem, half, inexact);
        assert(r == if up {
            hi
        } else {
            lo
        });
        if b < lo {
            lemma_scaled_monotonic(b, lo);
        }
        if b > hi {
            lemma_scaled_monotonic(hi, b);
        }
        assert(b <= lo || b >= hi);
    }
}

/// Rounding a value of at least 2^24 units that stays below 2^276 units
/// gives a finite magnitude and moves the value by no more than one part in
/// 2^24: here `h` is the floor of twice the value.
pub proof fn lemma_nearest_relative(h: nat, inexact: bool)
    requires
        pow2(25) <= h < pow2(277),
    ensures
        nearest(h, inexact) < 0x7f80_0000,
        0x100_0000 * (2 * scaled_of(nearest(h, inexact)) - h) <= h,
        0x100_0000 * (h - 2 * scaled_of(nearest(h, inexact))) <= h,
{
    lemma2_to64();
    let j = ulp_exponent(h);
    let half = pow2(j);
    lemma_ulp_exponent_bounds(h);
    lemma_pow2_pos(j);
    assert(j >= 1);
    if 25 + j > 277 {
        lemma_pow2_strictly_increases(277, 24 + j);
    }
    assert(j <= 252);
    let q = h / (2 * half);
    let rem = h % (2 * half);
    lemma_fundamental_div_mod(h as int, (2 * half) as int);
    lemma_pow2_unfold(24 + j + 1);
    lemma_pow2_adds(24, j);
    lemma_pow2_adds(23, j);
    lemma_pow2_unfold(24 + j);
    assert(q < 0x100_0000) by (nonlinear_arith)
        requires
            h == (2 * half) * q + rem,
            h < 0x100_0000 * (2 * half),
            rem >= 0,
            half > 0,
    ;
    assert(q >= 0x80_0000) by (nonlinear_arith)
        requires
            h == (2 * half) * q + rem,
            h >= 0x80_0000 * (2 * half),
            rem < 2 * half,
            half > 0,
    ;
    let up = rounds_up(q, rem, half, inexact);
    let k = if up {
        q + 1
    } else {
        q
    };
    let r = nearest(h, inexact);
    assert(r == j * 0x80_0000 + k);
    lemma_encoding(j, k);
    let s = scaled_of(r);
    assert(2 * s - h == 2 * (k * half) - ((2 * half) * q + rem));
    assert(2 * (k * half) == (2 * half) * q + if up {
        2 * half
    } else {
        0
    }) by (nonlinear_arith)
        requires
            k == if up {
                q + 1
            } else {
                q
            },
    ;
    assert(0x100_0000 * half <= h);
}

/// Rounding a rational of at least 2^24 units that stays below 2^276 units
/// gives a finite magnitude and moves the value by no more than one part in
/// 2^23.
pub proof fn lemma_ratio_relative(n: nat, d: nat)
    requires
        d > 0,
        0x100_0000 * d <= n,
        n < pow2(276) * d,
    ensures
        nearest_ratio(n, d) < 0x7f80_0000,
        0x80_0000 * (scaled_of(nearest_ratio(n, d)) * d - n) <= n,
        0x80_0000 * (n - scaled_of(nearest_ratio(n, d)) * d) <= n,
{
    lemma2_to64();
    let h = (2 * n) / d;
    let rho = (2 * n) % d;
    lemma_fundamental_div_mod((2 * n) as int, d as int);
    lemma_pow2_unfold(277);
    assert(h >= 0x200_0000) by (nonlinear_arith)
        requires
            2 * n == d * h + rho,
            rho < d,
            0x100_0000 * d <= n,
            d > 0,
    ;
    assert(h < pow2(277)) by (nonlinear_arith)
        requires
            2 * n == d * h + rho,
            rho >= 0,
            n < pow2(276) * d,
            pow2(277) == 2 * pow2(276),
            d > 0,
    ;
    lemma_nearest_relative(h, rho != 0);
    let s = scaled_of(nearest_ratio(n, d));
    assert(0x80_0000 * (s * d - n) <= n && 0x80_0000 * (n - s * d) <= n) by (nonlinear_arith)
        requires
            0x100_0000 * (2 * s - h) <= h,
            0x100_0000 * (h - 2 * s) <= h,
            2 * n == d * h + rho,
            0 <= rho < d,
            0x100_0000 * d <= n,
            d > 0,
    ;
}

/// The product of two finite numbers, where it is zero or lies between
/// 2^-125 and 2^127, is finite and within one part in 2^23 of the exact
/// product.
pub proof fn lemma_product_relative(a: Scalar, b: Scalar)
    requires
        a.is_finite(),
        b.is_finite(),
        a.scaled() * b.scaled() == 0 || (0x100_0000 * pow2(149) <= a.scaled() * b.scaled() < pow2(
            276,
        ) * pow2(149)),
    ensures
        a.product(b).is_finite(),
        a.product(b).is_negative() == (a.is_negative() != b.is_negative()),
        0x80_0000 * (a.product(b).scaled() * pow2(149) - a.scaled() * b.scaled()) <= a.scaled()
            * b.scaled(),
        0x80_0000 * (a.scaled() * b.scaled() - a.product(b).scaled() * pow2(149)) <= a.scaled()
            * b.scaled(),
{
    reveal(Scalar::product);
    lemma2_to64();
    lemma_pow2_pos(149);
    let n = a.scaled() * b.scaled();
    let r = nearest_ratio(n, pow2(149));
    if n == 0 {
        lemma_nearest_ratio_zero(pow2(149));
        lemma_scaled_zero(0);
        assert(scaled_of(0) * pow2(149) == 0) by (nonlinear_arith)
            requires
                scaled_of(0) == 0,
        ;
    } else {
        lemma_ratio_relative(n, pow2(149));
    }
    assert(a.product(b).magnitude() == r);
}

/// The sum of two finite numbers that are not negative, where it is zero or
/// lies between 2^-125 and 2^127, is finite, not negative, and within one
/// part in 2^23 of the exact sum.
pub proof fn lemma_sum_relative(a: Scalar, b: Scalar)
    requires
        a.is_finite(),
        b.is_finite(),
        !a.is_negative(),
        !b.is_negative(),
        a.scaled() + b.scaled() == 0 || 0x100_0000 <= a.scaled() + b.scaled() < pow2(276),
    ensures
        a.sum(b).is_finite(),
        !a.sum(b).is_negative(),
        0x80_0000 * (a.sum(b).scaled() - (a.scaled() + b.scaled())) <= a.scaled() + b.scaled(),
        0x80_0000 * ((a.scaled() + b.scaled()) - a.sum(b).scaled()) <= a.scaled() + b.scaled(),
{
    reveal(Scalar::sum);
    lemma2_to64();
    let n = a.scaled() + b.scaled();
    if n == 0 {
        lemma_scaled_zero(0);
    } else {
        assert(n * 1 == n);
        assert(pow2(276) * 1 == pow2(276));
        lemma_ratio_relative(n, 1);
        let r = nearest_ratio(n, 1);
        assert(scaled_of(r) * 1 == scaled_of(r));
        assert(a.sum(b).magnitude() == r);
    }
}

/// The quotient of two finite numbers, where it is zero or lies between
/// 2^-125 and 2^127, is finite and within one part in 2^23 of the exact
/// quotient.
pub proof fn lemma_quotient_relative(a: Scalar, b: Scalar)
    requires
        a.is_finite(),
        b.is_finite(),
        !b.is_zero(),
        a.is_zero() || (0x100_0000 * b.scaled() <= a.scaled() * pow2(149) < pow2(276) * b.scaled()),
    ensures
        a.quotient(b).is_finite(),
        a.quotient(b).is_negative() == (a.is_negative() != b.is_negative()),
        0x80_0000 * (a.quotient(b).scaled() * b.scaled() - a.scaled() * pow2(149)) <= a.scaled()
            * pow2(149),
        0x80_0000 * (a.scaled() * pow2(149) - a.quotient(b).scaled() * b.scaled()) <= a.scaled()
            * pow2(149),
{
    reveal(Scalar::quotient);
    lemma2_to64();
    lemma_pow2_pos(149);
    lemma_scaled_zero(b.magnitude());
    lemma_scaled_zero(a.magnitude());
    let n = a.scaled() * pow2(149);
    let d = b.scaled();
    let r = nearest_ratio(n, d);
    if a.is_zero() {
        assert(n == 0) by (nonlinear_arith)
            requires
                n == a.scaled() * pow2(149),
                a.scaled() == 0,
        ;
        lemma_nearest_ratio_zero(d);
        lemma_scaled_zero(0);
        assert(scaled_of(0) * d == 0) by (nonlinear_arith)
            requires
                scaled_of(0) == 0,
        ;
    } else {
        lemma_ratio_relative(n, d);
    }
    assert(a.quotient(b).magnitude() == r);
}

/// The square root of a normal number is finite, not negative, and its
/// square is within two parts in 2^23 of the number.
pub proof fn lemma_root_relative(a: Scalar)
    requires
        a.is_finite(),
        !a.is_negative(),
        a.scaled() >= 0x80_0000,
    ensures
        a.root().is_finite(),
        !a.root().is_negative(),
        0x7f_ffff * 0x7f_ffff * (a.scaled() * pow2(149)) <= 0x80_0000 * 0x80_0000 * (a.root().scaled()
            * a.root().scaled()),
        0x80_0000 * 0x80_0000 * (a.root().scaled() * a.root().scaled()) <= 0x80_0001 * 0x80_0001 * (
        a.scaled() * pow2(149)),
{
    reveal(Scalar::root);
    lemma2_to64();
    lemma_pow2_pos(149);
    lemma_scaled_zero(a.magnitude());
    let x = a.scaled();
    let w = pow2(149);
    let n = x * pow2(151);
    lemma_pow2_adds(2, 149);
    assert(n == 4 * (x * w)) by (nonlinear_arith)
        requires
            n == x * pow2(151),
            pow2(151) == 4 * w,
    ;
    let h = lemma_floor_root(n);
    // 2^87 <= h < 2^215
    lemma_pow2_adds(23, 151);
    lemma_pow2_adds(87, 87);
    lemma_pow2_adds(214, 214);
    lemma_pow2_adds(277, 151);
    lemma_scaled_monotonic(a.magnitude(), 0x7f80_0000);
    lemma_encoding(254, 0x80_0000);
    lemma_pow2_adds(23, 254);
    lemma_pow2_pos(151);
    assert(pow2(174) <= n < pow2(428)) by (nonlinear_arith)
        requires
            n == x * pow2(151),
            0x80_0000 <= x < pow2(277),
            pow2(174) == 0x80_0000 * pow2(151),
            pow2(428) == pow2(277) * pow2(151),
            pow2(151) > 0,
    ;
    let lo = pow2(87);
    let hi = pow2(214);
    assert(h >= lo) by (nonlinear_arith)
        requires
            n < (h + 1) * (h + 1),
            n >= lo * lo,
    ;
    lemma_pow2_pos(214);
    assert(h < hi) by (nonlinear_arith)
        requires
            h * h <= n,
            n < hi * hi,
            hi > 0,
    ;
    lemma_pow2_strictly_increases(25, 87);
    lemma_pow2_strictly_increases(214, 277);
    lemma_nearest_relative(h, h * h != n);
    let r = nearest(h, h * h != n);
    let s = scaled_of(r);
    assert(a.root().magnitude() == r);
    assert(0x100_0000 * 0x100_0000 * (4 * (s * s)) <= 0x100_0001 * 0x100_0001 * n) by (nonlinear_arith)
        requires
            0x100_0000 * (2 * s - h) <= h,
            h * h <= n,
            h >= 0,
            s >= 0,
    ;
    assert(0xff_fffe * 0xff_fffe * n <= 0x100_0000 * 0x100_0000 * (4 * (s * s))) by (nonlinear_arith)
        requires
            0x100_0000 * (h - 2 * s) <= h,
            n < (h + 1) * (h + 1),
            h * h <= n,
            h >= 0x200_0000,
            s >= 0,
    ;
    let t = s * s;
    let m = x * w;
    assert(0x7f_ffff * 0x7f_ffff * m <= 0x80_0000 * 0x80_0000 * t && 0x80_0000 * 0x80_0000 * t
        <= 0x80_0001 * 0x80_0001 * m) by (nonlinear_arith)
        requires
            0x100_0000 * 0x100_0000 * (4 * t) <= 0x100_0001 * 0x100_0001 * n,
            0xff_fffe * 0xff_fffe * n <= 0x100_0000 * 0x100_0000 * (4 * t),
            n == 4 * m,
            m >= 0,
            t >= 0,
    ;
}

/// A magnitude of at least 2^(24 + g) units is a multiple of 2^(g + 1)
/// units: the spacing of the numbers grows with them.
pub proof fn lemma_spacing(mag: nat, g: nat)
    requires
        mag <= 0x7f80_0000,
        scaled_of(mag) >= pow2(24 + g),
    ensures
        scaled_of(mag) % pow2(g + 1) == 0,
{
    lemma2_to64();
    let k = significand_of(mag);
    let j = exponent_of(mag);
    lemma_pow2_pos(j);
    lemma_pow2_pos(g + 1);
    if j <= g {
        lemma_pow2_adds(24, j);
        if j < g {
            lemma_pow2_strictly_increases(24 + j, 24 + g);
        }
        assert(k * pow2(j) < 0x100_0000 * pow2(j)) by (nonlinear_arith)
            requires
                k < 0x100_0000,
                pow2(j) > 0,
        ;
        assert(false);
    }
    let rest = (j - (g + 1)) as nat;
    lemma_pow2_adds(rest, g + 1);
    let c = k * pow2(rest);
    assert(scaled_of(mag) == c * pow2(g + 1) + 0) by (nonlinear_arith)
        requires
            scaled_of(mag) == k * pow2(j),
            pow2(j) == pow2(rest) * pow2(g + 1),
            c == k * pow2(rest),
    ;
    lemma_fundamental_div_mod_converse(scaled_of(mag) as int, pow2(g + 1) as int, c as int, 0);
}

/// Whether `x` is within one part in 2^23 of `target`.
pub open spec fn within(x: int, target: int) -> bool {
    let size = if target < 0 {
        -target
    } else {
        target
    };
    0x80_0000 * (x - target) <= size && 0x80_0000 * (target - x) <= size
}

/// The sum of two finite numbers of any sign, where it is zero or lies
/// between 2^-125 and 2^127 in magnitude, is finite, has the sign of the
/// exact sum and is within one part in 2^23 of it.
pub proof fn lemma_sum_signed(a: Scalar, b: Scalar)
    requires
        a.is_finite(),
        b.is_finite(),
        a.value() + b.value() == 0 || 0x100_0000 <= a.value() + b.value() < pow2(276)
            || 0x100_0000 <= -(a.value() + b.value()) < pow2(276),
    ensures
        a.sum(b).is_finite(),
        a.value() + b.value() == 0 ==> a.sum(b).is_zero(),
        a.value() + b.value() > 0 ==> !a.sum(b).is_negative(),
        a.value() + b.value() < 0 ==> a.sum(b).is_negative(),
        within(a.sum(b).value(), a.value() + b.value()),
{
    reveal(Scalar::sum);
    lemma2_to64();
    let v = a.value() + b.value();
    lemma_scaled_zero(0);
    if v != 0 {
        let n: nat = if v < 0 {
            (-v) as nat
        } else {
            v as nat
        };
        assert(n * 1 == n);
        assert(pow2(276) * 1 == pow2(276));
        lemma_ratio_relative(n, 1);
        let r = nearest_ratio(n, 1);
        assert(scaled_of(r) * 1 == scaled_of(r));
        assert(a.sum(b).magnitude() == r);
    }
}

/// The product of two finite numbers of any sign, where it is zero or lies
/// between 2^-125 and 2^127 in magnitude, is within one part in 2^23 of the
/// exact product.
pub proof fn lemma_product_signed(a: Scalar, b: Scalar)
    requires
        a.is_finite(),
        b.is_finite(),
        a.scaled() * b.scaled() == 0 || (0x100_0000 * pow2(149) <= a.scaled() * b.scaled() < pow2(
            276,
        ) * pow2(149)),
    ensures
        a.product(b).is_finite(),
        a.product(b).is_negative() == (a.is_negative() != b.is_negative()),
        within(a.product(b).value() * pow2(149), a.value() * b.value()),
{
    lemma_product_relative(a, b);
    let p = a.product(b).scaled() as int;
    let x = a.scaled() as int;
    let y = b.scaled() as int;
    let w = pow2(149) as int;
    let pv = a.product(b).value();
    let same = a.is_negative() == b.is_negative();
    assert(a.value() * b.value() == if same {
        x * y
    } else {
        -(x * y)
    }) by (nonlinear_arith)
        requires
            a.value() == x || a.value() == -x,
            b.value() == y || b.value() == -y,
            same == ((a.value() == x) == (b.value() == y)) || x == 0 || y == 0,
    ;
    assert(pv * w == if same {
        p * w
    } else {
        -(p * w)
    }) by (nonlinear_arith)
        requires
            pv == if same {
                p
            } else {
                -p
            },
    ;
    assert(x * y >= 0) by (nonlinear_arith)
        requires
            x >= 0,
            y >= 0,
    ;
}

/// Halving a finite number of at least 2^-125 in magnitude is exact.
pub proof fn lemma_halving(a: Scalar)
    requires
        a.is_finite(),
        a.magnitude() >= 0x100_0000,
    ensures
        crate::scalar::half().product(a).is_finite(),
        crate::scalar::half().product(a).is_negative() == a.is_negative(),
        crate::scalar::half().product(a).magnitude() == a.magnitude() - 0x80_0000,
        2 * crate::scalar::half().product(a).scaled() == a.scaled(),
        2 * crate::scalar::half().product(a).value() == a.value(),
{
    reveal(Scalar::product);
    lemma2_to64();
    let m = a.magnitude();
    let lower = (m - 0x80_0000) as nat;
    let x = scaled_of(m);
    let y = scaled_of(lower);
    // The number with one less in the exponent field is half as large.
    lemma_pow2_pos(exponent_of(lower));
    if lower >= 0x100_0000 {
        lemma_pow2_unfold(exponent_of(m));
        assert(significand_of(lower) == significand_of(m));
        assert(exponent_of(m) == exponent_of(lower) + 1);
    } else {
        assert(exponent_of(m) == 1);
        assert(exponent_of(lower) == 0);
        assert(significand_of(lower) == significand_of(m));
    }
    assert(x == 2 * y) by (nonlinear_arith)
        requires
            x == significand_of(m) * pow2(exponent_of(m)),
            y == significand_of(m) * pow2(exponent_of(lower)),
            pow2(exponent_of(m)) == 2 * pow2(exponent_of(lower)),
    ;
    crate::algebra::lemma_nearest_exact(lower);
    let half_scaled = crate::scalar::half().scaled();
    lemma_pow2_adds(23, 125);
    lemma_pow2_unfold(149);
    assert(half_scaled == pow2(148));
    let w = pow2(149);
    let n = half_scaled * x;
    lemma_pow2_pos(148);
    assert(2 * n == x * w + 0) by (nonlinear_arith)
        requires
            n == pow2(148) * x,
            w == 2 * pow2(148),
    ;
    lemma_fundamental_div_mod_converse((2 * n) as int, w as int, x as int, 0);
    assert((2 * y) / 1 == x && (2 * y) % 1 == 0);
    assert(nearest_ratio(n, w) == nearest_ratio(y, 1));
}

/// Rounding a value below 2^24 units, where the numbers lie one unit apart,
/// gives a finite magnitude and moves the value by no more than half a
/// unit: here `h` is the floor of twice the value.
pub proof fn lemma_nearest_small(h: nat, inexact: bool)
    requires
        h < pow2(25),
    ensures
        nearest(h, inexact) < 0x7f80_0000,
        2 * scaled_of(nearest(h, inexact)) - h <= 1,
        h - 2 * scaled_of(nearest(h, inexact)) <= 1,
{
    lemma2_to64();
    assert(ulp_exponent(h) == 0);
    assert(pow2(0) == 1);
    let q = h / 2;
    let k = if rounds_up(q, h % 2, 1, inexact) {
        q + 1
    } else {
        q
    };
    assert(nearest(h, inexact) == k);
    lemma_encoding(0, k);
    assert(k * pow2(0) == k);
}

/// Rounding a rational that stays below 2^276 units gives a finite
/// magnitude and moves the value by no more than one part in 2^23 and one
/// unit together.
pub proof fn lemma_ratio_general(n: nat, d: nat)
    requires
        d > 0,
        n < pow2(276) * d,
    ensures
        nearest_ratio(n, d) < 0x7f80_0000,
        0x80_0000 * (scaled_of(nearest_ratio(n, d)) * d - n) <= n + 0x80_0000 * d,
        0x80_0000 * (n - scaled_of(nearest_ratio(n, d)) * d) <= n + 0x80_0000 * d,
{
    lemma2_to64();
    let h = (2 * n) / d;
    let rho = (2 * n) % d;
    lemma_fundamental_div_mod((2 * n) as int, d as int);
    if 0x100_0000 * d <= n {
        lemma_ratio_relative(n, d);
    } else {
        assert(h < 0x200_0000) by (nonlinear_arith)
            requires
                2 * n == d * h + rho,
                rho >= 0,
                n < 0x100_0000 * d,
                d > 0,
        ;
        lemma_nearest_small(h, rho != 0);
        let s = scaled_of(nearest_ratio(n, d));
        assert(s * d - n <= d && n - s * d <= d) by (nonlinear_arith)
            requires
                2 * s - h <= 1,
                h - 2 * s <= 1,
                2 * n == d * h + rho,
                0 <= rho < d,
                d > 0,
        ;
    }
}

/// The product of two finite numbers that stays below 2^127 is finite and
/// within one part in 2^23 and one unit of the exact product.
pub proof fn lemma_product_general(a: Scalar, b: Scalar)
    requires
        a.is_finite(),
        b.is_finite(),
        a.scaled() * b.scaled() < pow2(276) * pow2(149),
    ensures
        a.product(b).is_finite(),
        a.product(b).is_negative() == (a.is_negative() != b.is_negative()),
        0x80_0000 * (a.product(b).scaled() * pow2(149) - a.scaled() * b.scaled()) <= a.scaled()
            * b.scaled() + 0x80_0000 * pow2(149),
        0x80_0000 * (a.scaled() * b.scaled() - a.product(b).scaled() * pow2(149)) <= a.scaled()
            * b.scaled() + 0x80_0000 * pow2(149),
{
    reveal(Scalar::product);
    lemma_pow2_pos(149);
    let n = a.scaled() * b.scaled();
    lemma_ratio_general(n, pow2(149));
    assert(a.product(b).magnitude() == nearest_ratio(n, pow2(149)));
}

/// The sum of two finite numbers that are not negative, where it stays
/// below 2^127, is finite, not negative, and within one part in 2^23 of
/// the exact sum.
pub proof fn lemma_sum_general(a: Scalar, b: Scalar)
    requires
        a.is_finite(),
        b.is_finite(),
        !a.is_negative(),
        !b.is_negative(),
        a.scaled() + b.scaled() < pow2(276),
    ensures
        a.sum(b).is_finite(),
        !a.sum(b).is_negative(),
        0x80_0000 * (a.sum(b).scaled() - (a.scaled() + b.scaled())) <= a.scaled() + b.scaled(),
        0x80_0000 * ((a.scaled() + b.scaled()) - a.sum(b).scaled()) <= a.scaled() + b.scaled(),
{
    lemma2_to64();
    let n = a.scaled() + b.scaled();
    if n == 0 || n >= 0x100_0000 {
        lemma_sum_relative(a, b);
    } else {
        reveal(Scalar::sum);
        assert((2 * n) / 1 == 2 * n && (2 * n) % 1 == 0);
        lemma_nearest_small(2 * n, false);
        let r = nearest_ratio(n, 1);
        assert(a.sum(b).magnitude() == r);
        assert(scaled_of(r) == n);
    }
}

/// The quotient of two finite numbers, where it stays below 2^127, is
/// finite and within one part in 2^23 and one unit of the exact quotient.
pub proof fn lemma_quotient_general(a: Scalar, b: Scalar)
    requires
        a.is_finite(),
        b.is_finite(),
        !b.is_zero(),
        a.scaled() * pow2(149) < pow2(276) * b.scaled(),
    ensures
        a.quotient(b).is_finite(),
        a.quotient(b).is_negative() == (a.is_negative() != b.is_negative()),
        0x80_0000 * (a.quotient(b).scaled() * b.scaled() - a.scaled() * pow2(149)) <= a.scaled()
            * pow2(149) + 0x80_0000 * b.scaled(),
        0x80_0000 * (a.scaled() * pow2(149) - a.quotient(b).scaled() * b.scaled()) <= a.scaled()
            * pow2(149) + 0x80_0000 * b.scaled(),
{
    reveal(Scalar::quotient);
    lemma_scaled_zero(b.magnitude());
    let n = a.scaled() * pow2(149);
    let d = b.scaled();
    lemma_ratio_general(n, d);
    assert(a.quotient(b).magnitude() == nearest_ratio(n, d));
}

} // verus!
