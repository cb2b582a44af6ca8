//! The range of the sky's colour, and of what is left of it after bounces.
//!
//! Seen along a ray whose direction has components of at most 2^60 in
//! magnitude, one of them of at least 2^-60, every channel of the sky lies
//! between one half and one, the green one between seven tenths and one, and
//! the blue one at one, each within a few parts in a million. Halving such a
//! colour is exact, so a ray that bounced `k` times carries the sky divided
//! by `2^k`, which is never black.

use vstd::prelude::*;
use vstd::arithmetic::power2::*;
use crate::accuracy::{
    lemma_halving,
    lemma_product_relative,
    lemma_product_signed,
    lemma_spacing,
    lemma_sum_signed,
    within,
};
use crate::algebra::{lemma_one_is_neutral, lemma_product_commutes};
use crate::geometry::Ray;
use crate::scalar::{Scalar, half, number, one, scaled_of, lemma_scaled_monotonic, lemma_scaled_zero};
use crate::sampler::Sampler;
use crate::scene::World;
use crate::tracer::{
    attenuated,
    background,
    bounces,
    last_ray,
    lemma_trace_decays,
    nearest_hit,
    traced,
    MAX_RECURSION_SIZE,
};
use crate::unit_length::{exact_squared_length, lemma_unit_length, measurable};
use crate::vector::Vector3;

verus! {

/// Whether a channel lies between `low / 10` and one, within four parts in
/// a million: a finite number that is not negative.
pub open spec fn channel_between(c: Scalar, low: int) -> bool {
    &&& c.is_finite()
    &&& !c.is_negative()
    &&& 0x4_0000 * (c.scaled() - pow2(149)) <= pow2(149)
    &&& 10 * 0x4_0000 * c.scaled() >= low * 0x3_ffff * pow2(149)
}

/// One, one half and seven tenths in units of 2^-149.
proof fn lemma_constants()
    ensures
        one().value() == pow2(149),
        one().is_finite(),
        half().scaled() == pow2(148),
        half().is_finite() && !half().is_negative(),
        number(0x3f33_3333).scaled() == 0xb3_3333 * pow2(125),
        number(0x3f33_3333).is_finite() && !number(0x3f33_3333).is_negative(),
        pow2(149) == 0x100_0000 * pow2(125),
        pow2(149) == 2 * pow2(148),
        pow2(148) == 0x80_0000 * pow2(125),
        pow2(125) > 0,
        pow2(149) < pow2(276),
        pow2(276) == pow2(127) * pow2(149),
        pow2(127) == 4 * pow2(125),
{
    lemma2_to64();
    lemma_pow2_adds(23, 126);
    lemma_pow2_adds(23, 125);
    lemma_pow2_adds(24, 125);
    lemma_pow2_unfold(149);
    lemma_pow2_pos(125);
    lemma_pow2_strictly_increases(149, 276);
    lemma_pow2_adds(127, 149);
    lemma_pow2_adds(2, 125);
    assert(scaled_of(0x3f80_0000) == 0x80_0000 * pow2(126));
    assert(scaled_of(0x3f00_0000) == 0x80_0000 * pow2(125));
    assert(scaled_of(0x3f33_3333) == 0xb3_3333 * pow2(125));
}

/// A finite number plus or minus one is zero or at least 2^-24 in magnitude,
/// and below 2^127.
proof fn lemma_beside_one(x: Scalar)
    requires
        x.is_finite(),
        x.scaled() <= 4 * pow2(149),
    ensures
        ({
            let w = pow2(149) as int;
            let low = pow2(125) as int;
            &&& (w - x.scaled() == 0 || w - x.scaled() >= low || x.scaled() - w >= low)
            &&& low >= 0x100_0000
            &&& w + x.scaled() < pow2(276)
        }),
{
    lemma_constants();
    lemma2_to64();
    lemma_pow2_strictly_increases(24, 125);
    let s = x.scaled();
    let w = pow2(149);
    let low = pow2(125);
    assert(w + s < pow2(276)) by (nonlinear_arith)
        requires
            s <= 4 * w,
            pow2(276) == pow2(127) * w,
            pow2(127) == 4 * low,
            low >= 0x100_0000,
            w > 0,
    ;
    if s >= pow2(148) {
        lemma_spacing(x.magnitude(), 124);
        let c = s / low;
        vstd::arithmetic::div_mod::lemma_fundamental_div_mod(s as int, low as int);
        assert(s == low * c);
        assert(w - s == low * (0x100_0000 - c)) by (nonlinear_arith)
            requires
                s == low * c,
                w == 0x100_0000 * low,
        ;
        if c < 0x100_0000 {
            assert(low * (0x100_0000 - c) >= low) by (nonlinear_arith)
                requires
                    c < 0x100_0000,
                    low > 0,
            ;
        } else if c > 0x100_0000 {
            assert(low * (c - 0x100_0000) >= low) by (nonlinear_arith)
                requires
                    c > 0x100_0000,
                    low > 0,
            ;
            assert(low * (c - 0x100_0000) == -(low * (0x100_0000 - c))) by (nonlinear_arith);
        } else {
            assert(low * (0x100_0000 - c) == 0) by (nonlinear_arith)
                requires
                    c == 0x100_0000,
            ;
        }
    } else {
        assert(pow2(148) == 0x80_0000 * low);
        assert(w - s > 0x80_0000 * low);
        assert(0x80_0000 * low >= low) by (nonlinear_arith)
            requires
                low > 0,
        ;
    }
}

/// From the closeness of each step of the blend to the range of the three
/// channels. Here `w` is one, `uy` the height of the unit direction, `a` that
/// height plus one, `t` half of it, `b` one less `t`, `hx` and `hy` the parts
/// of red and green that `t` brings, and `cx`, `cy`, `cz` the channels.
proof fn lemma_blend(
    w: int,
    uy: int,
    a: int,
    t: int,
    b: int,
    hx: int,
    hy: int,
    cx: int,
    cy: int,
    cz: int,
)
    requires
        w > 0,
        0x10_0000 * uy <= 0x10_0001 * w,
        0x10_0000 * (-uy) <= 0x10_0001 * w,
        within(a, uy + w),
        2 * t == a,
        within(b, w - t),
        2 * hx == t,
        within(0x100_0000 * hy, 0xb3_3333 * t),
        within(cx, b + hx),
        within(cy, b + hy),
        within(cz, b + t),
    ensures
        4 * (b + hx) >= w,
        4 * (b + hy) >= w,
        4 * (b + t) >= w,
        b + hx <= 2 * w,
        b + hy <= 2 * w,
        b + t <= 2 * w,
        0x4_0000 * (cx - w) <= w,
        2 * 0x4_0000 * cx >= 0x3_ffff * w,
        0x4_0000 * (cy - w) <= w,
        10 * 0x4_0000 * cy >= 7 * 0x3_ffff * w,
        0x4_0000 * (cz - w) <= w,
        0x4_0000 * cz >= 0x3_ffff * w,
{
    // t lies between -2^-21 and 1 + 2^-21, roughly.
    let v = uy + w;
    assert(0x10_0000 * v <= 0x20_0001 * w && 0x10_0000 * v >= -w);
    assert(0x80_0000 * a <= 0x80_0001 * (0x20_0001 * w) / 0x10_0000 + 0x80_0000) by {
        if v >= 0 {
            assert(0x80_0000 * a <= 0x80_0001 * v);
        } else {
            assert(0x80_0000 * a <= 0x7f_ffff * v);
        }
    }
    assert(0x40_0000 * t <= 0x40_0003 * w);
    assert(0x40_0000 * t >= -3 * w);
    let rest = w - t;
    assert(0x40_0000 * rest >= -3 * w && rest <= 2 * w);
    assert(0x40_0000 * (b - rest) <= w && 0x40_0000 * (rest - b) <= w);
    assert(0x40_0000 * (0x100_0000 * hy - 0xb3_3333 * t) <= 0x100_0000 * w && 0x40_0000 * (0xb3_3333
        * t - 0x100_0000 * hy) <= 0x100_0000 * w);
    // red: 1 - t / 2
    assert(0x40_0000 * (2 * (b + hx)) >= 0x3f_fffa * w);
    assert(0x40_0000 * (b + hx) <= 0x40_0010 * w);
    assert(0x40_0000 * (2 * cx) >= 0x3f_fff8 * w);
    // green: 1 - t + 7/10 t
    let g = 0x100_0000 * hy;
    let big = 0x100_0000 * w;
    let bb = 0x100_0000 * b;
    let tt = 0x100_0000 * t;
    assert(4 * (bb - (big - tt)) <= 16 * w && 4 * ((big - tt) - bb) <= 16 * w);
    assert(0x40_0000 * tt <= 0x40_0003 * big);
    if t >= 0 {
        assert(0x80_0000 * g >= 0x7f_ffff * (0xb3_3333 * t));
        assert(0x80_0000 * g <= 0x80_0001 * (0xb3_3333 * t));
        // 10 * 0xb33333 = 7 * 2^24 - 2
        assert(10 * g >= 7 * tt - 16 * t);
        assert(10 * g <= 7 * tt + 16 * t);
        assert(10 * (bb + g) >= 10 * big - 3 * tt - 16 * t - 40 * w);
        assert(16 * t <= 17 * w);
        assert(10 * (bb + g) >= 7 * big - 100 * w) by (nonlinear_arith)
            requires
                10 * (bb + g) >= 10 * big - 3 * tt - 16 * t - 40 * w,
                16 * t <= 17 * w,
                0x40_0000 * tt <= 0x40_0003 * big,
                big == 0x100_0000 * w,
                w > 0,
        ;
    } else {
        assert(0x80_0000 * g >= 0x80_0001 * (0xb3_3333 * t));
        assert(0x80_0000 * g <= 0x7f_ffff * (0xb3_3333 * t));
        assert(g >= tt);
        assert(g <= 0);
        assert(10 * (bb + g) >= 10 * big - 40 * w);
    }
    assert(10 * (bb + g) >= 7 * big - 100 * w);
    assert(0x100_0000 * (10 * (b + hy)) == 10 * (bb + g));
    let ry = b + hy;
    assert(0x40_0000 * (10 * ry) >= 7 * 0x3f_fff8 * w) by (nonlinear_arith)
        requires
            0x100_0000 * (10 * ry) >= 7 * big - 100 * w,
            big == 0x100_0000 * w,
            w > 0,
    ;
    assert(0x40_0000 * ry <= 0x40_0010 * w);
    assert(0x40_0000 * (10 * cy) >= 7 * 0x3f_fff0 * w) by (nonlinear_arith)
        requires
            within(cy, ry),
            0x40_0000 * (10 * ry) >= 7 * 0x3f_fff8 * w,
            w > 0,
    ;
    assert(10 * 0x4_0000 * cy >= 7 * 0x3_ffff * w) by (nonlinear_arith)
        requires
            0x40_0000 * (10 * cy) >= 7 * 0x3f_fff0 * w,
            w > 0,
    ;
    assert(2 * 0x4_0000 * cx >= 0x3_ffff * w) by (nonlinear_arith)
        requires
            0x40_0000 * (2 * cx) >= 0x3f_fff8 * w,
            w > 0,
    ;
}

/// Half of a finite number that is zero or at least `2^g` units in
/// magnitude is exactly half of it, whichever factor comes first.
proof fn lemma_half_of(a: Scalar, g: nat)
    requires
        g >= 25,
        a.is_finite(),
        a.is_zero() || a.scaled() >= pow2(g),
    ensures
        half().product(a).is_finite(),
        2 * half().product(a).value() == a.value(),
        2 * half().product(a).scaled() == a.scaled(),
        a.product(half()) == half().product(a),
        half().product(a).is_zero() || half().product(a).scaled() >= pow2((g - 1) as nat),
{
    lemma_constants();
    lemma2_to64();
    lemma_product_commutes(a, half());
    lemma_scaled_zero(a.magnitude());
    lemma_pow2_pos(149);
    if a.is_zero() {
        assert(half().scaled() * a.scaled() == 0) by (nonlinear_arith)
            requires
                a.scaled() == 0,
        ;
        lemma_product_relative(half(), a);
        let p = half().product(a).scaled();
        assert(p == 0) by (nonlinear_arith)
            requires
                0x80_0000 * (p * pow2(149) - 0) <= 0,
                pow2(149) > 0,
                p >= 0,
        ;
        lemma_scaled_zero(half().product(a).magnitude());
    } else {
        lemma_pow2_strictly_increases(24, g);
        if a.magnitude() < 0x100_0000 {
            lemma_scaled_monotonic(a.magnitude(), 0x100_0000);
            assert(scaled_of(0x100_0000) == 0x80_0000 * pow2(1));
        }
        lemma_halving(a);
        lemma_pow2_unfold(g);
    }
}

/// The weight of blue in the blend: half of the height of the unit
/// direction plus one.
proof fn lemma_weight(r: Ray)
    requires
        measurable(r.heading()),
    ensures
        ({
            let w = pow2(149) as int;
            let uy = r.heading().unit().y;
            let a = uy.sum(one());
            let t = half().product(a);
            &&& t.is_finite()
            &&& t.is_zero() || t.scaled() >= pow2(123)
            &&& t.scaled() <= 4 * w
            &&& 0x10_0000 * uy.value() <= 0x10_0001 * w
            &&& 0x10_0000 * (-uy.value()) <= 0x10_0001 * w
            &&& within(a.value(), uy.value() + w)
            &&& 2 * t.value() == a.value()
        }),
{
    lemma_constants();
    lemma2_to64();
    let w = pow2(149) as int;
    let d = r.heading();
    let u = d.unit();
    lemma_unit_length(d);
    let uy = u.y;
    let y = uy.scaled() as int;
    let q = exact_squared_length(u) as int;
    lemma_pow2_adds(149, 149);
    assert(y * y <= q) by (nonlinear_arith)
        requires
            q == u.x.scaled() * u.x.scaled() + y * y + u.z.scaled() * u.z.scaled(),
    ;
    assert(0x10_0000 * y <= 0x10_0001 * w) by (nonlinear_arith)
        requires
            y * y <= q,
            0x8_0000 * (q - w * w) <= w * w,
            y >= 0,
            w > 0,
    ;
    lemma_beside_one(uy);
    lemma_pow2_strictly_increases(24, 125);
    let a = uy.sum(one());
    lemma_sum_signed(uy, one());
    lemma_scaled_zero(a.magnitude());
    let v = uy.value() + w;
    lemma_pow2_unfold(125);
    if !a.is_zero() {
        assert(v != 0);
        assert(v >= pow2(125) || -v >= pow2(125));
        assert(a.scaled() >= pow2(124));
    }
    lemma_half_of(a, 124);
}

/// What the blend takes of white and of blue, for a weight `t` that is zero
/// or at least 2^-26 and at most four in magnitude: one less `t`, half of
/// `t` and seven tenths of `t`, each within one part in 2^23.
proof fn lemma_parts(t: Scalar)
    requires
        t.is_finite(),
        t.is_zero() || t.scaled() >= pow2(123),
        t.scaled() <= 4 * pow2(149),
    ensures
        ({
            let w = pow2(149) as int;
            let b = one().difference(t);
            let hx = t.product(half());
            let hy = t.product(number(0x3f33_3333));
            &&& b.is_finite() && hx.is_finite() && hy.is_finite()
            &&& within(b.value(), w - t.value())
            &&& 2 * hx.value() == t.value()
            &&& within(0x100_0000 * hy.value(), 0xb3_3333 * t.value())
            &&& t.product(one()) == t
            &&& b.product(one()) == b
        }),
{
    lemma_constants();
    lemma2_to64();
    let w = pow2(149) as int;
    let tv = t.value();
    let tn = t.negated();
    assert(tn.is_finite() && tn.value() == -tv);
    lemma_beside_one(t);
    lemma_pow2_strictly_increases(24, 125);
    let b = one().sum(tn);
    assert(b == one().difference(t));
    lemma_sum_signed(one(), tn);
    lemma_one_is_neutral(b);
    lemma_one_is_neutral(t);
    lemma_half_of(t, 123);
    let seven = number(0x3f33_3333);
    let hy = t.product(seven);
    let unit = pow2(125) as int;
    let ts = t.scaled() as int;
    lemma_scaled_zero(t.magnitude());
    lemma_pow2_adds(123, 125);
    lemma_pow2_adds(24, 149);
    lemma_pow2_strictly_increases(173, 248);
    lemma_pow2_adds(151, 149);
    lemma_pow2_strictly_increases(300, 425);
    lemma_pow2_adds(276, 149);
    lemma_pow2_adds(2, 149);
    if ts != 0 {
        assert(ts * (0xb3_3333 * unit) >= pow2(123) * unit) by (nonlinear_arith)
            requires
                ts >= pow2(123),
                unit > 0,
        ;
        assert(ts * (0xb3_3333 * unit) < pow2(151) * pow2(149)) by (nonlinear_arith)
            requires
                0 < ts <= 4 * w,
                pow2(151) == 4 * w,
                0xb3_3333 * unit < w,
                w == pow2(149),
                unit > 0,
        ;
    } else {
        assert(ts * (0xb3_3333 * unit) == 0) by (nonlinear_arith)
            requires
                ts == 0,
        ;
    }
    lemma_product_signed(t, seven);
    let hyv = hy.value();
    assert(within(0x100_0000 * hyv, 0xb3_3333 * tv)) by (nonlinear_arith)
        requires
            within(hyv * w, tv * (0xb3_3333 * unit)),
            w == 0x100_0000 * unit,
            unit > 0,
    ;
}

/// Where the direction of a ray has components of at most 2^60 in
/// magnitude, one of them of at least 2^-60, the sky along the ray has a
/// red channel between one half and one, a green channel between seven
/// tenths and one and a blue channel of one, each within four parts in a
/// million.
pub proof fn lemma_sky_range(r: Ray)
    requires
        measurable(r.heading()),
    ensures
        channel_between(background(r).x, 5),
        channel_between(background(r).y, 7),
        channel_between(background(r).z, 10),
{
    let w = pow2(149) as int;
    lemma_pow2_pos(149);
    let uy = r.heading().unit().y;
    let a = uy.sum(one());
    let t = half().product(a);
    lemma_weight(r);
    lemma_parts(t);
    let b = one().difference(t);
    let hx = t.product(half());
    let hy = t.product(number(0x3f33_3333));
    let white = Vector3 { x: one(), y: one(), z: one() };
    let blue = Vector3 { x: half(), y: number(0x3f33_3333), z: one() };
    let c = background(r);
    assert(c == white.scaled(b).sum(blue.scaled(t)));
    assert(c.x == b.sum(hx));
    assert(c.y == b.sum(hy));
    assert(c.z == b.sum(t));
    lemma_blend(
        w,
        uy.value(),
        a.value(),
        t.value(),
        b.value(),
        hx.value(),
        hy.value(),
        b.value() + hx.value(),
        b.value() + hy.value(),
        b.value() + t.value(),
    );
    lemma_sums(b, hx);
    lemma_sums(b, hy);
    lemma_sums(b, t);
    lemma_blend(
        w,
        uy.value(),
        a.value(),
        t.value(),
        b.value(),
        hx.value(),
        hy.value(),
        c.x.value(),
        c.y.value(),
        c.z.value(),
    );
}

/// The sum of two finite numbers whose exact sum lies between one quarter
/// and two is finite, above zero and within one part in 2^23 of it.
proof fn lemma_sums(a: Scalar, b: Scalar)
    requires
        a.is_finite(),
        b.is_finite(),
        4 * (a.value() + b.value()) >= pow2(149),
        a.value() + b.value() <= 2 * pow2(149),
    ensures
        a.sum(b).is_finite(),
        !a.sum(b).is_negative(),
        a.sum(b).value() == a.sum(b).scaled(),
        within(a.sum(b).value(), a.value() + b.value()),
{
    lemma2_to64();
    lemma_pow2_strictly_increases(24, 147);
    lemma_pow2_adds(2, 147);
    lemma_pow2_strictly_increases(150, 276);
    lemma_pow2_unfold(150);
    lemma_sum_signed(a, b);
}

/// Whether a direction has finite components of at most 2^60 in magnitude,
/// one of them of at least 2^-60.
pub open spec fn steady(d: Vector3) -> bool {
    measurable(d)
}

/// The number `c` halved `k` times.
pub open spec fn halved(c: Scalar, k: nat) -> Scalar
    decreases k,
{
    if k == 0 {
        c
    } else {
        half().product(halved(c, (k - 1) as nat))
    }
}

/// The channels of a colour halved `k` times are its channels halved `k`
/// times.
pub proof fn lemma_attenuated_channels(c: Vector3, k: nat)
    ensures
        attenuated(c, k).x == halved(c.x, k),
        attenuated(c, k).y == halved(c.y, k),
        attenuated(c, k).z == halved(c.z, k),
    decreases k,
{
    if k > 0 {
        lemma_attenuated_channels(c, (k - 1) as nat);
    }
}

/// Halving a channel of at least `2^g` units `k` times, with `g >= k + 25`,
/// loses nothing: the result times `2^k` is the channel, and it is finite
/// and above zero.
pub proof fn lemma_halved(c: Scalar, k: nat, g: nat)
    requires
        c.is_finite(),
        !c.is_negative(),
        c.scaled() >= pow2(g),
        g >= k + 25,
    ensures
        halved(c, k).is_finite(),
        !halved(c, k).is_negative(),
        halved(c, k).scaled() * pow2(k) == c.scaled(),
        halved(c, k).scaled() >= pow2((g - k) as nat),
        halved(c, k).scaled() > 0,
    decreases k,
{
    lemma2_to64();
    lemma_pow2_pos((g - k) as nat);
    if k > 0 {
        lemma_halved(c, (k - 1) as nat, g);
        let before = halved(c, (k - 1) as nat);
        lemma_half_of(before, (g - (k - 1)) as nat);
        lemma_scaled_zero(halved(c, k).magnitude());
        lemma_pow2_unfold(k);
        let now = halved(c, k).scaled();
        assert(now * pow2(k) == before.scaled() * pow2((k - 1) as nat)) by (nonlinear_arith)
            requires
                2 * now == before.scaled(),
                pow2(k) == 2 * pow2((k - 1) as nat),
        ;
        lemma_scaled_zero(before.magnitude());
    } else {
        assert(c.scaled() * 1 == c.scaled());
    }
}

/// What a traced ray carries back is the sky along the last ray of its path
/// divided by two for every bounce. Where the direction of that last ray is
/// steady, every channel is therefore finite and above zero, and at most one
/// over `2^k`, within four parts in a million, after `k` bounces.
pub proof fn lemma_trace_range(world: World, r: Ray, depth: int, sampler: Sampler)
    requires
        depth >= 0,
        steady(last_ray(world, r, depth, sampler).heading()),
    ensures
        ({
            let c = traced(world, r, depth, sampler).0;
            let sky = background(last_ray(world, r, depth, sampler));
            let k = bounces(world, r, depth, sampler);
            &&& channel_between(sky.x, 5) && channel_between(sky.y, 7) && channel_between(sky.z, 10)
            &&& c.x.is_finite() && !c.x.is_negative() && c.x.scaled() > 0
            &&& c.y.is_finite() && !c.y.is_negative() && c.y.scaled() > 0
            &&& c.z.is_finite() && !c.z.is_negative() && c.z.scaled() > 0
            &&& c.x.scaled() * pow2(k) == sky.x.scaled()
            &&& c.y.scaled() * pow2(k) == sky.y.scaled()
            &&& c.z.scaled() * pow2(k) == sky.z.scaled()
        }),
{
    lemma_trace_decays(world, r, depth, sampler);
    let last = last_ray(world, r, depth, sampler);
    let k = bounces(world, r, depth, sampler);
    let sky = background(last);
    lemma_sky_range(last);
    lemma_attenuated_channels(sky, k);
    lemma_pow2_adds(2, 147);
    lemma2_to64();
    lemma_pow2_unfold(149);
    lemma_pow2_unfold(148);
    let quarter = pow2(147);
    let w = pow2(149);
    assert(sky.y.scaled() >= quarter) by (nonlinear_arith)
        requires
            10 * 0x4_0000 * sky.y.scaled() >= 7 * 0x3_ffff * w,
            w == 4 * quarter,
            quarter >= 0,
    ;
    lemma_halved(sky.x, k, 147);
    lemma_halved(sky.y, k, 147);
    lemma_halved(sky.z, k, 147);
}

/// A ray that hits something before its depth is used up comes back darker
/// than the sky: where the last ray of its path is steady, each of its
/// channels is below the green and the blue channel of the sky along any
/// steady ray.
pub proof fn lemma_covered_is_darker(
    world: World,
    r: Ray,
    depth: int,
    sampler: Sampler,
    other: Ray,
)
    requires
        0 <= depth < MAX_RECURSION_SIZE,
        nearest_hit(world.objects@, r).is_hit,
        steady(last_ray(world, r, depth, sampler).heading()),
        steady(other.heading()),
    ensures
        ({
            let c = traced(world, r, depth, sampler).0;
            let sky = background(other);
            &&& c.x.below(sky.y) && c.y.below(sky.y) && c.z.below(sky.y)
            &&& c.x.below(sky.z) && c.y.below(sky.z) && c.z.below(sky.z)
        }),
{
    lemma_trace_decays(world, r, depth, sampler);
    lemma_trace_range(world, r, depth, sampler);
    lemma_sky_range(other);
    let k = bounces(world, r, depth, sampler);
    let c = traced(world, r, depth, sampler).0;
    let w = pow2(149);
    lemma_pow2_pos(149);
    lemma_pow2_unfold(k);
    lemma_pow2_pos((k - 1) as nat);
    let f = pow2(k);
    lemma_darker(c.x.scaled() as int, f as int, w as int, background(other).y.scaled() as int);
    lemma_darker(c.y.scaled() as int, f as int, w as int, background(other).y.scaled() as int);
    lemma_darker(c.z.scaled() as int, f as int, w as int, background(other).y.scaled() as int);
    lemma_darker(c.x.scaled() as int, f as int, w as int, background(other).z.scaled() as int);
    lemma_darker(c.y.scaled() as int, f as int, w as int, background(other).z.scaled() as int);
    lemma_darker(c.z.scaled() as int, f as int, w as int, background(other).z.scaled() as int);
}

/// A channel of at most one, divided by two or more, is below a channel of
/// at least seven tenths.
proof fn lemma_darker(c: int, f: int, w: int, s: int)
    requires
        c >= 0,
        f >= 2,
        w > 0,
        0x4_0000 * (c * f - w) <= w,
        10 * 0x4_0000 * s >= 7 * 0x3_ffff * w,
    ensures
        c < s,
{
    assert(0x4_0000 * (2 * c) <= 0x4_0001 * w) by (nonlinear_arith)
        requires
            c >= 0,
            f >= 2,
            0x4_0000 * (c * f - w) <= w,
    ;
    assert(c < s) by (nonlinear_arith)
        requires
            0x4_0000 * (2 * c) <= 0x4_0001 * w,
            10 * 0x4_0000 * s >= 7 * 0x3_ffff * w,
            w > 0,
    ;
}

} // verus!
