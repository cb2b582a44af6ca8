//! The length of a normalised vector.
//!
//! Rounding keeps `unit_vector` from giving a length of exactly one, and a
//! vector whose squared length leaves the range of single precision has no
//! useful unit vector at all. For vectors with components of at most 2^60
//! in magnitude, one of them of at least 2^-60, the squared length of the
//! result is within one part in 2^19 of one, and the result points the way
//! the vector does.

use vstd::prelude::*;
use vstd::arithmetic::power2::*;
use crate::accuracy::{
    lemma_product_general,
    lemma_quotient_general,
    lemma_root_relative,
    lemma_sum_general,
};
use crate::scalar::{Scalar, lemma_scaled_zero};
use crate::vector::Vector3;

verus! {

/// The exact squared length of a vector with finite components, in units of
/// 2^-298.
pub open spec fn exact_squared_length(v: Vector3) -> nat {
    v.x.scaled() * v.x.scaled() + v.y.scaled() * v.y.scaled() + v.z.scaled() * v.z.scaled()
}

/// The exact dot product of two vectors with finite components, in units of
/// 2^-298.
pub open spec fn exact_dot(a: Vector3, b: Vector3) -> int {
    a.x.value() * b.x.value() + a.y.value() * b.y.value() + a.z.value() * b.z.value()
}

/// The powers of two that the bounds of this module are made of.
proof fn lemma_powers()
    ensures
        pow2(149) > 0,
        pow2(89) * pow2(89) == pow2(29) * pow2(149),
        pow2(209) * pow2(209) == pow2(269) * pow2(149),
        pow2(24) == 0x100_0000,
        pow2(28) < pow2(29) < pow2(269) < pow2(270) < pow2(276),
        pow2(270) == 2 * pow2(269),
        pow2(29) == 2 * pow2(28),
        pow2(276) == 64 * pow2(270),
        pow2(28) == 16 * pow2(24),
{
    lemma2_to64();
    lemma_pow2_pos(149);
    lemma_pow2_adds(89, 89);
    lemma_pow2_adds(29, 149);
    lemma_pow2_adds(209, 209);
    lemma_pow2_adds(269, 149);
    lemma_pow2_strictly_increases(29, 269);
    lemma_pow2_unfold(270);
    lemma_pow2_adds(6, 270);
    lemma_pow2_pos(269);
}

/// From the closeness of each rounded operation to the closeness of the
/// whole: `t` is the exact squared length, `bw` the rounded one times 2^149,
/// `l2` the square of the rounded length, `q` the exact squared length of the
/// result and `w2` the square of one. The three steps are each within
/// `f / d` and `e / d`, to the third power for the first and to the second
/// for the other two, and `tol` is a tolerance that these bounds meet.
proof fn lemma_chain(
    t: int,
    bw: int,
    l2: int,
    q: int,
    w2: int,
    d2: int,
    d3: int,
    e2: int,
    e3: int,
    f2: int,
    f3: int,
    tol: int,
)
    requires
        t > 0,
        l2 > 0,
        q >= 0,
        w2 >= 0,
        d2 > 0 && d3 > 0 && e2 > 0 && e3 > 0 && f2 > 0 && f3 > 0 && tol > 0,
        f3 * t <= d3 * bw,
        d3 * bw <= e3 * t,
        f2 * bw <= d2 * l2,
        d2 * l2 <= e2 * bw,
        f2 * (t * w2) <= d2 * (q * l2),
        d2 * (q * l2) <= e2 * (t * w2),
        (e2 * (d2 * d3)) * tol <= (d2 * (f2 * f3)) * (tol + 1),
        (f2 * (d2 * d3)) * tol >= (d2 * (e2 * e3)) * (tol - 1),
    ensures
        tol * (q - w2) <= w2,
        tol * (w2 - q) <= w2,
{
    let d5 = d2 * d3;
    let e5 = e2 * e3;
    let f5 = f2 * f3;
    // The rounded length squared against the exact squared length.
    assert(f5 * t <= d5 * l2 && d5 * l2 <= e5 * t) by (nonlinear_arith)
        requires
            f3 * t <= d3 * bw,
            d3 * bw <= e3 * t,
            f2 * bw <= d2 * l2,
            d2 * l2 <= e2 * bw,
            d2 > 0 && d3 > 0 && e2 > 0 && e3 > 0 && f2 > 0 && f3 > 0,
            d5 == d2 * d3,
            e5 == e2 * e3,
            f5 == f2 * f3,
    ;
    let ql = q * l2;
    let tw = t * w2;
    let lw = l2 * w2;
    assert(f5 * tw <= d5 * lw) by (nonlinear_arith)
        requires
            f5 * t <= d5 * l2,
            tw == t * w2,
            lw == l2 * w2,
            w2 >= 0,
    ;
    assert(d5 * lw <= e5 * tw) by (nonlinear_arith)
        requires
            d5 * l2 <= e5 * t,
            tw == t * w2,
            lw == l2 * w2,
            w2 >= 0,
    ;
    assert(f5 > 0 && e5 > 0 && d5 > 0) by (nonlinear_arith)
        requires
            d2 > 0 && d3 > 0 && e2 > 0 && e3 > 0 && f2 > 0 && f3 > 0,
            d5 == d2 * d3,
            e5 == e2 * e3,
            f5 == f2 * f3,
    ;
    let k1 = d2 * f5;
    let k2 = e2 * d5;
    let k3 = d2 * e5;
    let k4 = f2 * d5;
    assert(k1 * ql <= k2 * lw) by (nonlinear_arith)
        requires
            d2 * ql <= e2 * tw,
            f5 * tw <= d5 * lw,
            k1 == d2 * f5,
            k2 == e2 * d5,
            f5 > 0,
            e2 > 0,
    ;
    assert(k3 * ql >= k4 * lw) by (nonlinear_arith)
        requires
            f2 * tw <= d2 * ql,
            d5 * lw <= e5 * tw,
            k3 == d2 * e5,
            k4 == f2 * d5,
            e5 > 0,
            f2 > 0,
    ;
    // Cancel the rounded length squared.
    assert(k1 * q <= k2 * w2 && k3 * q >= k4 * w2) by (nonlinear_arith)
        requires
            k1 * ql <= k2 * lw,
            k3 * ql >= k4 * lw,
            ql == q * l2,
            lw == l2 * w2,
            l2 > 0,
    ;
    assert(k1 > 0 && k3 > 0) by (nonlinear_arith)
        requires
            k1 == d2 * f5,
            k3 == d2 * e5,
            d2 > 0,
            f5 > 0,
            e5 > 0,
    ;
    assert(tol * q <= (tol + 1) * w2) by (nonlinear_arith)
        requires
            k1 * q <= k2 * w2,
            k2 * tol <= k1 * (tol + 1),
            k1 > 0,
            tol > 0,
            w2 >= 0,
            q >= 0,
    ;
    assert(tol * q >= (tol - 1) * w2) by (nonlinear_arith)
        requires
            k3 * q >= k4 * w2,
            k4 * tol >= k3 * (tol - 1),
            k3 > 0,
            tol > 0,
            w2 >= 0,
            q >= 0,
    ;
    assert(tol * (q - w2) <= w2 && tol * (w2 - q) <= w2) by (nonlinear_arith)
        requires
            tol * q <= (tol + 1) * w2,
            tol * q >= (tol - 1) * w2,
    ;
}

/// Whether a vector has finite components of at most 2^60 in magnitude, one
/// of them of at least 2^-60.
pub open spec fn measurable(v: Vector3) -> bool {
    &&& v.x.is_finite() && v.x.scaled() <= pow2(209)
    &&& v.y.is_finite() && v.y.scaled() <= pow2(209)
    &&& v.z.is_finite() && v.z.scaled() <= pow2(209)
    &&& (v.x.scaled() >= pow2(89) || v.y.scaled() >= pow2(89) || v.z.scaled() >= pow2(89))
}

/// The square of a finite number of at most 2^60: finite, not negative,
/// and within one part in 2^23 and one unit of the exact square.
proof fn lemma_square(a: Scalar)
    requires
        a.is_finite(),
        a.scaled() <= pow2(209),
    ensures
        a.product(a).is_finite(),
        !a.product(a).is_negative(),
        0x80_0000 * (a.product(a).scaled() * pow2(149) - a.scaled() * a.scaled()) <= a.scaled()
            * a.scaled() + 0x80_0000 * pow2(149),
        0x80_0000 * (a.scaled() * a.scaled() - a.product(a).scaled() * pow2(149)) <= a.scaled()
            * a.scaled() + 0x80_0000 * pow2(149),
        a.product(a).scaled() < pow2(271),
{
    lemma_powers();
    let x = a.scaled();
    let w = pow2(149);
    let hi = pow2(209);
    assert(x * x <= hi * hi) by (nonlinear_arith)
        requires
            0 <= x <= hi,
    ;
    assert(x * x < pow2(276) * w) by (nonlinear_arith)
        requires
            x * x <= pow2(269) * w,
            pow2(269) < pow2(276),
            w > 0,
    ;
    lemma_product_general(a, a);
    let p = a.product(a).scaled();
    let xx = x * x;
    let pw = p * w;
    lemma_pow2_unfold(271);
    let top = pow2(271) * w;
    assert(top == 4 * (pow2(269) * w)) by (nonlinear_arith)
        requires
            top == pow2(271) * w,
            pow2(271) == 2 * pow2(270),
            pow2(270) == 2 * pow2(269),
    ;
    assert(pow2(269) * w >= w) by (nonlinear_arith)
        requires
            pow2(269) >= 1,
            w > 0,
    ;
    assert(pw < top);
    assert(p < pow2(271)) by (nonlinear_arith)
        requires
            p * w < pow2(271) * w,
            w > 0,
    ;
}

/// Three roundings in a row, of squares that may lose a unit each and of the
/// two sums, keep the rounded squared length within three parts in 2^22 of
/// the exact one, where that is at least 2^-120.
proof fn lemma_three_roundings(
    x1: int,
    x2: int,
    x3: int,
    s1: int,
    s2: int,
    s3: int,
    a: int,
    b: int,
    w: int,
)
    requires
        w > 0,
        s1 >= 0 && s2 >= 0 && s3 >= 0 && a >= 0 && b >= 0,
        x1 >= 0 && x2 >= 0 && x3 >= 0,
        x1 + x2 + x3 >= 0x2000_0000 * w,
        0x80_0000 * (s1 * w - x1) <= x1 + 0x80_0000 * w,
        0x80_0000 * (x1 - s1 * w) <= x1 + 0x80_0000 * w,
        0x80_0000 * (s2 * w - x2) <= x2 + 0x80_0000 * w,
        0x80_0000 * (x2 - s2 * w) <= x2 + 0x80_0000 * w,
        0x80_0000 * (s3 * w - x3) <= x3 + 0x80_0000 * w,
        0x80_0000 * (x3 - s3 * w) <= x3 + 0x80_0000 * w,
        0x7f_ffff * (s1 + s2) <= 0x80_0000 * a,
        0x80_0000 * a <= 0x80_0001 * (s1 + s2),
        0x7f_ffff * (a + s3) <= 0x80_0000 * b,
        0x80_0000 * b <= 0x80_0001 * (a + s3),
    ensures
        (0x7f_fffeint * 0x7f_fffe * 0x7f_fffe) * (x1 + x2 + x3) <= (0x80_0000int * 0x80_0000
            * 0x80_0000) * (b * w),
        (0x80_0000int * 0x80_0000 * 0x80_0000) * (b * w) <= (0x80_0002int * 0x80_0002 * 0x80_0002)
            * (x1 + x2 + x3),
{
    let d: int = 0x80_0000;
    let e: int = 0x80_0001;
    let f: int = 0x7f_ffff;
    let sum = s1 + s2 + s3;
    assert(d * d * b <= e * e * sum && f * f * sum <= d * d * b) by (nonlinear_arith)
        requires
            f * (s1 + s2) <= d * a,
            d * a <= e * (s1 + s2),
            f * (a + s3) <= d * b,
            d * b <= e * (a + s3),
            sum == s1 + s2 + s3,
            s3 >= 0,
            d == 0x80_0000,
            e == 0x80_0001,
            f == 0x7f_ffff,
    ;
    let bw = b * w;
    let sw = sum * w;
    assert(sw == s1 * w + s2 * w + s3 * w) by (nonlinear_arith)
        requires
            sw == sum * w,
            sum == s1 + s2 + s3,
    ;
    assert(d * d * bw <= e * e * sw && f * f * sw <= d * d * bw) by (nonlinear_arith)
        requires
            d * d * b <= e * e * sum,
            f * f * sum <= d * d * b,
            bw == b * w,
            sw == sum * w,
            w > 0,
    ;
    let t = x1 + x2 + x3;
    assert(d * sw <= e * t + 3 * d * w && f * t - 3 * d * w <= d * sw);
    assert(d * d * d * bw <= e * e * (e * t + 3 * d * w) && f * f * (f * t - 3 * d * w) <= d * d * d
        * bw) by (nonlinear_arith)
        requires
            d * d * bw <= e * e * sw,
            f * f * sw <= d * d * bw,
            d * sw <= e * t + 3 * d * w,
            f * t - 3 * d * w <= d * sw,
            d == 0x80_0000,
            e == 0x80_0001,
            f == 0x7f_ffff,
    ;
    assert(e * e * (e * t + 3 * d * w) <= (0x80_0002int * 0x80_0002 * 0x80_0002) * t) by (nonlinear_arith)
        requires
            t >= 0x2000_0000 * w,
            w > 0,
            d == 0x80_0000,
            e == 0x80_0001,
    ;
    assert(f * f * (f * t - 3 * d * w) >= (0x7f_fffeint * 0x7f_fffe * 0x7f_fffe) * t) by (nonlinear_arith)
        requires
            t >= 0x2000_0000 * w,
            w > 0,
            d == 0x80_0000,
            f == 0x7f_ffff,
    ;
}

/// The square of a quotient that is within one part in 2^23 and one unit:
/// `y` is the quotient, `l` the divisor, `x` the dividend and `w` is one.
proof fn lemma_squared_quotient(y: int, l: int, x: int, w: int)
    requires
        y >= 0,
        l >= 0,
        x >= 0,
        w >= 0,
        0x80_0000 * (y * l - x * w) <= x * w + 0x80_0000 * l,
        0x80_0000 * (x * w - y * l) <= x * w + 0x80_0000 * l,
    ensures
        (0x80_0000int * 0x80_0000) * ((y * y) * (l * l)) <= (0x80_0001int * 0x80_0001) * ((x * x) * (w
            * w)) + (0x80_0000int * 0x80_0001) * (w * (x * x + l * l)) + (0x80_0000int * 0x80_0000)
            * (l * l),
        (0x80_0000int * 0x80_0000) * ((y * y) * (l * l)) + (0x80_0000int * 0x7f_ffff) * (w * (x * x
            + l * l)) >= (0x7f_ffffint * 0x7f_ffff) * ((x * x) * (w * w)),
{
    let d: int = 0x80_0000;
    let e: int = 0x80_0001;
    let f: int = 0x7f_ffff;
    let yl = y * l;
    let xw = x * w;
    assert((y * y) * (l * l) == yl * yl) by (nonlinear_arith)
        requires
            yl == y * l,
    ;
    assert((x * x) * (w * w) == xw * xw) by (nonlinear_arith)
        requires
            xw == x * w,
    ;
    assert(yl >= 0 && xw >= 0) by (nonlinear_arith)
        requires
            yl == y * l,
            xw == x * w,
            y >= 0,
            l >= 0,
            x >= 0,
            w >= 0,
    ;
    // twice the cross term is at most w (x^2 + l^2)
    let cross = xw * l;
    let gap = x - l;
    assert(gap * gap >= 0) by (nonlinear_arith);
    assert(2 * (x * l) <= x * x + l * l) by (nonlinear_arith)
        requires
            gap == x - l,
            gap * gap >= 0,
    ;
    assert(2 * cross <= w * (x * x + l * l)) by (nonlinear_arith)
        requires
            cross == (x * w) * l,
            2 * (x * l) <= x * x + l * l,
            w >= 0,
    ;
    let hi = e * xw + d * l;
    assert(0 <= d * yl <= hi);
    assert((d * yl) * (d * yl) <= hi * hi) by (nonlinear_arith)
        requires
            0 <= d * yl <= hi,
    ;
    assert((d * yl) * (d * yl) == (d * d) * (yl * yl)) by (nonlinear_arith);
    let first = e * xw;
    let second = d * l;
    assert(hi * hi == first * first + 2 * (first * second) + second * second) by (nonlinear_arith)
        requires
            hi == first + second,
    ;
    assert(first * first == (e * e) * (xw * xw)) by (nonlinear_arith)
        requires
            first == e * xw,
    ;
    assert(second * second == (d * d) * (l * l)) by (nonlinear_arith)
        requires
            second == d * l,
    ;
    assert(first * second == (d * e) * cross) by (nonlinear_arith)
        requires
            first == e * xw,
            second == d * l,
            cross == xw * l,
    ;
    assert(hi * hi == (e * e) * (xw * xw) + (d * e) * (2 * cross) + (d * d) * (l * l)) by (nonlinear_arith)
        requires
            hi * hi == first * first + 2 * (first * second) + second * second,
            first * first == (e * e) * (xw * xw),
            second * second == (d * d) * (l * l),
            first * second == (d * e) * cross,
    ;
    assert((d * e) * (2 * cross) <= (d * e) * (w * (x * x + l * l))) by (nonlinear_arith)
        requires
            2 * cross <= w * (x * x + l * l),
            d == 0x80_0000,
            e == 0x80_0001,
    ;
    // from below
    let lo = f * xw - d * l;
    assert(d * yl >= lo);
    assert((d * d) * (yl * yl) + (d * f) * (2 * cross) >= (f * f) * (xw * xw)) by (nonlinear_arith)
        requires
            d * yl >= f * xw - d * l,
            d * yl >= 0,
            cross == xw * l,
            xw >= 0,
            l >= 0,
            d == 0x80_0000,
            f == 0x7f_ffff,
    ;
    assert((d * f) * (2 * cross) <= (d * f) * (w * (x * x + l * l))) by (nonlinear_arith)
        requires
            2 * cross <= w * (x * x + l * l),
            d == 0x80_0000,
            f == 0x7f_ffff,
    ;
}

/// The squares of the three quotients together: within two parts in 2^22 of
/// the exact ones. Here `xx` and `yy` are the squares of the components
/// before and after, `l2` the square of the length, `w` is one and `t` and
/// `q` are the sums of the squares.
proof fn lemma_squares_together(
    xx1: int,
    xx2: int,
    xx3: int,
    yy1: int,
    yy2: int,
    yy3: int,
    l2: int,
    w: int,
)
    requires
        xx1 >= 0 && xx2 >= 0 && xx3 >= 0 && yy1 >= 0 && yy2 >= 0 && yy3 >= 0,
        xx1 + xx2 + xx3 > 0,
        0 <= l2 <= 2 * (xx1 + xx2 + xx3),
        w >= 0x100_0000_0000,
        (0x80_0000int * 0x80_0000) * (yy1 * l2) <= (0x80_0001int * 0x80_0001) * (xx1 * (w * w)) + (
        0x80_0000int * 0x80_0001) * (w * (xx1 + l2)) + (0x80_0000int * 0x80_0000) * l2,
        (0x80_0000int * 0x80_0000) * (yy2 * l2) <= (0x80_0001int * 0x80_0001) * (xx2 * (w * w)) + (
        0x80_0000int * 0x80_0001) * (w * (xx2 + l2)) + (0x80_0000int * 0x80_0000) * l2,
        (0x80_0000int * 0x80_0000) * (yy3 * l2) <= (0x80_0001int * 0x80_0001) * (xx3 * (w * w)) + (
        0x80_0000int * 0x80_0001) * (w * (xx3 + l2)) + (0x80_0000int * 0x80_0000) * l2,
        (0x80_0000int * 0x80_0000) * (yy1 * l2) + (0x80_0000int * 0x7f_ffff) * (w * (xx1 + l2)) >= (
        0x7f_ffffint * 0x7f_ffff) * (xx1 * (w * w)),
        (0x80_0000int * 0x80_0000) * (yy2 * l2) + (0x80_0000int * 0x7f_ffff) * (w * (xx2 + l2)) >= (
        0x7f_ffffint * 0x7f_ffff) * (xx2 * (w * w)),
        (0x80_0000int * 0x80_0000) * (yy3 * l2) + (0x80_0000int * 0x7f_ffff) * (w * (xx3 + l2)) >= (
        0x7f_ffffint * 0x7f_ffff) * (xx3 * (w * w)),
    ensures
        (0x7f_fffeint * 0x7f_fffe) * ((xx1 + xx2 + xx3) * (w * w)) <= (0x80_0000int * 0x80_0000) * ((
        yy1 + yy2 + yy3) * l2),
        (0x80_0000int * 0x80_0000) * ((yy1 + yy2 + yy3) * l2) <= (0x80_0002int * 0x80_0002) * ((xx1
            + xx2 + xx3) * (w * w)),
{
    let d2: int = 0x4000_0000_0000;
    let e2: int = 0x4000_0100_0001;
    let f2: int = 0x3fff_ff00_0001;
    let de: int = 0x4000_0080_0000;
    let df: int = 0x3fff_ff80_0000;
    assert(d2 == 0x80_0000int * 0x80_0000 && e2 == 0x80_0001int * 0x80_0001 && f2 == 0x7f_ffffint
        * 0x7f_ffff && de == 0x80_0000int * 0x80_0001 && df == 0x80_0000int * 0x7f_ffff);
    let t = xx1 + xx2 + xx3;
    let q = yy1 + yy2 + yy3;
    let w2 = w * w;
    let ql = q * l2;
    let tw = t * w2;
    assert(ql == yy1 * l2 + yy2 * l2 + yy3 * l2) by (nonlinear_arith)
        requires
            ql == q * l2,
            q == yy1 + yy2 + yy3,
    ;
    assert(tw == xx1 * w2 + xx2 * w2 + xx3 * w2) by (nonlinear_arith)
        requires
            tw == t * w2,
            t == xx1 + xx2 + xx3,
    ;
    let side = w * (t + 3 * l2);
    assert(side == w * (xx1 + l2) + w * (xx2 + l2) + w * (xx3 + l2)) by (nonlinear_arith)
        requires
            side == w * (t + 3 * l2),
            t == xx1 + xx2 + xx3,
    ;
    let a1 = yy1 * l2;
    let a2 = yy2 * l2;
    let a3 = yy3 * l2;
    let b1 = xx1 * w2;
    let b2 = xx2 * w2;
    let b3 = xx3 * w2;
    let c1 = w * (xx1 + l2);
    let c2 = w * (xx2 + l2);
    let c3 = w * (xx3 + l2);
    assert(0x4000_0000_0000 * a1 <= 0x4000_0100_0001 * b1 + 0x4000_0080_0000 * c1 + 0x4000_0000_0000
        * l2);
    assert(0x4000_0000_0000 * a2 <= 0x4000_0100_0001 * b2 + 0x4000_0080_0000 * c2 + 0x4000_0000_0000
        * l2);
    assert(0x4000_0000_0000 * a3 <= 0x4000_0100_0001 * b3 + 0x4000_0080_0000 * c3 + 0x4000_0000_0000
        * l2);
    assert(0x4000_0000_0000 * a1 + 0x3fff_ff80_0000 * c1 >= 0x3fff_ff00_0001 * b1);
    assert(0x4000_0000_0000 * a2 + 0x3fff_ff80_0000 * c2 >= 0x3fff_ff00_0001 * b2);
    assert(0x4000_0000_0000 * a3 + 0x3fff_ff80_0000 * c3 >= 0x3fff_ff00_0001 * b3);
    assert(ql == a1 + a2 + a3 && tw == b1 + b2 + b3 && side == c1 + c2 + c3);
    assert(d2 * ql <= e2 * tw + de * side + 3 * d2 * l2);
    assert(d2 * ql + df * side >= f2 * tw);
    let wt = w * t;
    assert(side <= 7 * wt) by (nonlinear_arith)
        requires
            side == w * (t + 3 * l2),
            wt == w * t,
            0 <= l2 <= 2 * t,
            w >= 0,
    ;
    assert(tw >= 0x100_0000_0000 * wt && wt >= t) by (nonlinear_arith)
        requires
            tw == t * (w * w),
            wt == w * t,
            w >= 0x100_0000_0000,
            t > 0,
    ;
    assert(de * side + 3 * d2 * l2 <= 0x100_0003 * tw) by (nonlinear_arith)
        requires
            side <= 7 * wt,
            0 <= l2 <= 2 * t,
            tw >= 0x100_0000_0000 * wt,
            wt >= t,
            t > 0,
            de == 0x4000_0080_0000,
            d2 == 0x4000_0000_0000,
    ;
    assert(side >= 0) by (nonlinear_arith)
        requires
            side == w * (t + 3 * l2),
            w >= 0,
            t > 0,
            l2 >= 0,
    ;
    assert(df * side <= 0xff_fffd * tw) by (nonlinear_arith)
        requires
            0 <= side <= 7 * wt,
            tw >= 0x100_0000_0000 * wt,
            wt >= t,
            t > 0,
            df == 0x3fff_ff80_0000,
    ;
    assert(e2 + 0x100_0003 <= 0x80_0002int * 0x80_0002);
    assert(f2 - 0xff_fffd >= 0x7f_fffeint * 0x7f_fffe);
    assert(d2 * ql <= (0x80_0002int * 0x80_0002) * tw) by (nonlinear_arith)
        requires
            d2 * ql <= e2 * tw + de * side + 3 * d2 * l2,
            de * side + 3 * d2 * l2 <= 0x100_0003 * tw,
            e2 + 0x100_0003 <= 0x80_0002int * 0x80_0002,
            tw >= 0,
    ;
    assert((0x7f_fffeint * 0x7f_fffe) * tw <= d2 * ql) by (nonlinear_arith)
        requires
            d2 * ql + df * side >= f2 * tw,
            df * side <= 0xff_fffd * tw,
            f2 - 0xff_fffd >= 0x7f_fffeint * 0x7f_fffe,
            tw >= 0,
    ;
}

/// The squared length of a normalised vector is within one part in 2^19 of
/// one, so that its length is within one part in a million of one, and the
/// vector points the way the one it was made of does: every component keeps
/// its sign and the exact dot product of the two is above zero. This holds
/// for every vector with finite components of at most 2^60 in magnitude, one
/// of them of at least 2^-60. The other components may be as small as they
/// like; their squares may be lost in rounding.
pub proof fn lemma_unit_length(v: Vector3)
    requires
        measurable(v),
    ensures
        v.unit().x.is_finite() && v.unit().y.is_finite() && v.unit().z.is_finite(),
        v.unit().x.is_negative() == v.x.is_negative(),
        v.unit().y.is_negative() == v.y.is_negative(),
        v.unit().z.is_negative() == v.z.is_negative(),
        0x8_0000 * (exact_squared_length(v.unit()) - pow2(298)) <= pow2(298),
        0x8_0000 * (pow2(298) - exact_squared_length(v.unit())) <= pow2(298),
        exact_dot(v.unit(), v) > 0,
{
    lemma2_to64();
    lemma_powers();
    let w = pow2(149);
    let x1 = v.x.scaled();
    let x2 = v.y.scaled();
    let x3 = v.z.scaled();
    let px = v.x.product(v.x);
    let py = v.y.product(v.y);
    let pz = v.z.product(v.z);
    lemma_square(v.x);
    lemma_square(v.y);
    lemma_square(v.z);
    let s1 = px.scaled();
    let s2 = py.scaled();
    let s3 = pz.scaled();
    lemma_pow2_unfold(272);
    lemma_pow2_unfold(273);
    lemma_pow2_unfold(274);
    lemma_pow2_unfold(275);
    lemma_pow2_unfold(276);
    let first = px.sum(py);
    lemma_sum_general(px, py);
    let a = first.scaled();
    assert(a < pow2(273));
    let second = first.sum(pz);
    lemma_sum_general(first, pz);
    let b = second.scaled();
    // The exact squared length.
    let xx1 = x1 * x1;
    let xx2 = x2 * x2;
    let xx3 = x3 * x3;
    let t = xx1 + xx2 + xx3;
    let low = pow2(89);
    let high = pow2(209);
    lemma_pow2_pos(89);
    assert(xx1 >= 0 && xx2 >= 0 && xx3 >= 0) by (nonlinear_arith)
        requires
            xx1 == x1 * x1,
            xx2 == x2 * x2,
            xx3 == x3 * x3,
    ;
    assert(xx1 <= high * high && xx2 <= high * high && xx3 <= high * high) by (nonlinear_arith)
        requires
            xx1 == x1 * x1,
            xx2 == x2 * x2,
            xx3 == x3 * x3,
            0 <= x1 <= high,
            0 <= x2 <= high,
            0 <= x3 <= high,
    ;
    assert(t >= low * low) by (nonlinear_arith)
        requires
            t == x1 * x1 + x2 * x2 + x3 * x3,
            x1 >= low || x2 >= low || x3 >= low,
            x1 >= 0 && x2 >= 0 && x3 >= 0,
            low > 0,
    ;
    lemma_pow2_unfold(29);
    assert(pow2(29) == 0x2000_0000);
    lemma_three_roundings(
        xx1 as int,
        xx2 as int,
        xx3 as int,
        s1 as int,
        s2 as int,
        s3 as int,
        a as int,
        b as int,
        w as int,
    );
    let bw = b * w;
    lemma_pow2_unfold(28);
    lemma_pow2_unfold(27);
    lemma_pow2_unfold(271);
    assert(pow2(26) * w <= bw < pow2(274) * w) by (nonlinear_arith)
        requires
            (0x7f_fffeint * 0x7f_fffe * 0x7f_fffe) * t <= (0x80_0000int * 0x80_0000 * 0x80_0000) * bw,
            (0x80_0000int * 0x80_0000 * 0x80_0000) * bw <= (0x80_0002int * 0x80_0002 * 0x80_0002) * t,
            pow2(29) * w <= t <= 3 * (pow2(269) * w),
            pow2(29) == 8 * pow2(26),
            pow2(274) == 32 * pow2(269),
            w > 0,
            pow2(26) > 0,
            pow2(269) > 0,
    ;
    assert(b >= pow2(26)) by (nonlinear_arith)
        requires
            pow2(26) * w <= b * w,
            w > 0,
    ;
    // The length.
    let length = second.root();
    lemma_root_relative(second);
    let l = length.scaled();
    let l2 = l * l;
    lemma_pow2_adds(25, 149);
    lemma_pow2_adds(87, 87);
    lemma_pow2_adds(275, 149);
    lemma_pow2_adds(212, 212);
    assert(pow2(87) * pow2(87) <= l2 < pow2(212) * pow2(212)) by (nonlinear_arith)
        requires
            0x7f_ffff * 0x7f_ffff * bw <= 0x80_0000 * 0x80_0000 * l2,
            0x80_0000 * 0x80_0000 * l2 <= 0x80_0001 * 0x80_0001 * bw,
            pow2(26) * w <= bw < pow2(274) * w,
            pow2(26) == 2 * pow2(25),
            pow2(275) == 2 * pow2(274),
            pow2(87) * pow2(87) == pow2(25) * w,
            pow2(212) * pow2(212) == pow2(275) * w,
            w > 0,
    ;
    lemma_pow2_pos(87);
    lemma_pow2_pos(212);
    assert(pow2(87) <= l < pow2(212)) by (nonlinear_arith)
        requires
            pow2(87) * pow2(87) <= l * l < pow2(212) * pow2(212),
            l >= 0,
            pow2(87) > 0,
            pow2(212) > 0,
    ;
    assert(l2 <= 2 * t) by (nonlinear_arith)
        requires
            0x80_0000 * 0x80_0000 * l2 <= 0x80_0001 * 0x80_0001 * bw,
            (0x80_0000int * 0x80_0000 * 0x80_0000) * bw <= (0x80_0002int * 0x80_0002 * 0x80_0002) * t,
            t >= 0,
    ;
    // The components.
    lemma_scaled_zero(length.magnitude());
    lemma_pow2_adds(276, 87);
    lemma_pow2_adds(214, 149);
    lemma_pow2_strictly_increases(209, 214);
    let far = pow2(276) * l;
    assert(high * w < far) by (nonlinear_arith)
        requires
            far == pow2(276) * l,
            pow2(276) * pow2(87) == pow2(214) * w,
            high < pow2(214),
            pow2(87) <= l,
            w > 0,
            pow2(276) > 0,
    ;
    assert(x1 * w <= high * w && x2 * w <= high * w && x3 * w <= high * w) by (nonlinear_arith)
        requires
            x1 <= high && x2 <= high && x3 <= high,
            w > 0,
    ;
    lemma_quotient_general(v.x, length);
    lemma_quotient_general(v.y, length);
    lemma_quotient_general(v.z, length);
    let u = v.unit();
    assert(u.x == v.x.quotient(length));
    assert(u.y == v.y.quotient(length));
    assert(u.z == v.z.quotient(length));
    let y1 = u.x.scaled();
    let y2 = u.y.scaled();
    let y3 = u.z.scaled();
    lemma_squared_quotient(y1 as int, l as int, x1 as int, w as int);
    lemma_squared_quotient(y2 as int, l as int, x2 as int, w as int);
    lemma_squared_quotient(y3 as int, l as int, x3 as int, w as int);
    lemma_pow2_strictly_increases(40, 149);
    assert(pow2(40) == 0x100_0000_0000) by {
        lemma_pow2_adds(32, 8);
    }
    lemma_squares_together(
        xx1 as int,
        xx2 as int,
        xx3 as int,
        (y1 * y1) as int,
        (y2 * y2) as int,
        (y3 * y3) as int,
        l2 as int,
        w as int,
    );
    let q = y1 * y1 + y2 * y2 + y3 * y3;
    let w2 = w * w;
    lemma_pow2_adds(149, 149);
    assert(l2 > 0) by (nonlinear_arith)
        requires
            l2 == l * l,
            l > 0,
    ;
    assert((0x7f_fffeint * 0x7f_fffe) * bw <= (0x80_0000int * 0x80_0000) * l2 && (0x80_0000int
        * 0x80_0000) * l2 <= (0x80_0002int * 0x80_0002) * bw) by (nonlinear_arith)
        requires
            0x7f_ffff * 0x7f_ffff * bw <= 0x80_0000 * 0x80_0000 * l2,
            0x80_0000 * 0x80_0000 * l2 <= 0x80_0001 * 0x80_0001 * bw,
            bw >= 0,
    ;
    lemma_tolerance();
    lemma_chain(
        t as int,
        bw as int,
        l2 as int,
        q as int,
        w2 as int,
        0x80_0000int * 0x80_0000,
        0x80_0000int * 0x80_0000 * 0x80_0000,
        0x80_0002int * 0x80_0002,
        0x80_0002int * 0x80_0002 * 0x80_0002,
        0x7f_fffeint * 0x7f_fffe,
        0x7f_fffeint * 0x7f_fffe * 0x7f_fffe,
        0x8_0000,
    );
    // The way it points.
    lemma_scaled_zero(u.x.magnitude());
    lemma_scaled_zero(u.y.magnitude());
    lemma_scaled_zero(u.z.magnitude());
    assert(u.x.value() * v.x.value() == y1 * x1) by (nonlinear_arith)
        requires
            (u.x.value() == y1 && v.x.value() == x1) || (u.x.value() == -y1 && v.x.value() == -x1)
                || (y1 == 0 && (v.x.value() == x1 || v.x.value() == -x1) && u.x.value() == 0) || (x1
                == 0 && v.x.value() == 0),
    ;
    assert(u.y.value() * v.y.value() == y2 * x2) by (nonlinear_arith)
        requires
            (u.y.value() == y2 && v.y.value() == x2) || (u.y.value() == -y2 && v.y.value() == -x2)
                || (y2 == 0 && (v.y.value() == x2 || v.y.value() == -x2) && u.y.value() == 0) || (x2
                == 0 && v.y.value() == 0),
    ;
    assert(u.z.value() * v.z.value() == y3 * x3) by (nonlinear_arith)
        requires
            (u.z.value() == y3 && v.z.value() == x3) || (u.z.value() == -y3 && v.z.value() == -x3)
                || (y3 == 0 && (v.z.value() == x3 || v.z.value() == -x3) && u.z.value() == 0) || (x3
                == 0 && v.z.value() == 0),
    ;
    lemma_pow2_adds(89, 149);
    lemma_pow2_adds(2, 212);
    lemma_pow2_strictly_increases(214, 238);
    assert(4 * l <= low * w);
    lemma_leading(y1 as int, x1 as int, l as int, w as int, low as int);
    lemma_leading(y2 as int, x2 as int, l as int, w as int, low as int);
    lemma_leading(y3 as int, x3 as int, l as int, w as int, low as int);
    assert(y1 * x1 + y2 * x2 + y3 * x3 > 0) by (nonlinear_arith)
        requires
            x1 >= low ==> y1 > 0,
            x2 >= low ==> y2 > 0,
            x3 >= low ==> y3 > 0,
            x1 >= low || x2 >= low || x3 >= low,
            low > 0,
            x1 >= 0 && x2 >= 0 && x3 >= 0 && y1 >= 0 && y2 >= 0 && y3 >= 0,
    ;
}

/// The bounds of the three steps meet a tolerance of one part in 2^19.
proof fn lemma_tolerance()
    ensures
        ((0x80_0002int * 0x80_0002) * ((0x80_0000int * 0x80_0000) * (0x80_0000int * 0x80_0000
            * 0x80_0000))) * 0x8_0000 <= ((0x80_0000int * 0x80_0000) * ((0x7f_fffeint * 0x7f_fffe)
            * (0x7f_fffeint * 0x7f_fffe * 0x7f_fffe))) * (0x8_0000 + 1),
        ((0x7f_fffeint * 0x7f_fffe) * ((0x80_0000int * 0x80_0000) * (0x80_0000int * 0x80_0000
            * 0x80_0000))) * 0x8_0000 >= ((0x80_0000int * 0x80_0000) * ((0x80_0002int * 0x80_0002)
            * (0x80_0002int * 0x80_0002 * 0x80_0002))) * (0x8_0000 - 1),
{
    assert(((0x80_0002int * 0x80_0002) * ((0x80_0000int * 0x80_0000) * (0x80_0000int * 0x80_0000
        * 0x80_0000))) * 0x8_0000 <= ((0x80_0000int * 0x80_0000) * ((0x7f_fffeint * 0x7f_fffe) * (
    0x7f_fffeint * 0x7f_fffe * 0x7f_fffe))) * (0x8_0000 + 1)) by (nonlinear_arith);
    assert(((0x7f_fffeint * 0x7f_fffe) * ((0x80_0000int * 0x80_0000) * (0x80_0000int * 0x80_0000
        * 0x80_0000))) * 0x8_0000 >= ((0x80_0000int * 0x80_0000) * ((0x80_0002int * 0x80_0002) * (
    0x80_0002int * 0x80_0002 * 0x80_0002))) * (0x8_0000 - 1)) by (nonlinear_arith);
}

/// The quotient of a component of at least 2^-60 by a length below 2^63 is
/// above zero.
proof fn lemma_leading(y: int, x: int, l: int, w: int, low: int)
    requires
        y >= 0,
        x >= 0,
        0 < l,
        0x80_0000 * (x * w - y * l) <= x * w + 0x80_0000 * l,
        4 * l <= low * w,
        w > 0,
        low > 0,
    ensures
        x >= low ==> y > 0,
{
    if x >= low && y == 0 {
        assert(y * l == 0) by (nonlinear_arith)
            requires
                y == 0,
        ;
        assert(x * w >= low * w) by (nonlinear_arith)
            requires
                x >= low,
                w > 0,
        ;
    }
}

} // verus!
