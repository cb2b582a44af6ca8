//! The tracer: the nearest hit of a ray in a scene, and the colour that the
//! ray carries back after bouncing.

use vstd::prelude::*;
use crate::geometry::{Hit, Ray, Visible, inside, missed};
use crate::materials::Material;
use crate::sampler::Sampler;
use crate::scalar::{Scalar, number, half, one};
use crate::scene::{Shape, World};
use crate::vector::{Vector3, unit_vector};

verus! {

/// The far end of the window in which hits count: 10000.
pub const T_MAX_BITS: u32 = 0x461c_4000;

/// The near end of the window in which hits count: 0.001, which keeps a
/// bounced ray from hitting the surface it leaves.
pub const T_MIN_BITS: u32 = 0x3a83_126f;

/// The depth at which a ray stops bouncing.
pub const MAX_RECURSION_SIZE: i32 = 100;

/// The colour of the sky in the direction of a ray: white at the horizon
/// blending into `(0.5, 0.7, 1.0)` at the zenith, by
/// `t = 0.5 (unit_direction.y + 1)`.
pub open spec fn background(r: Ray) -> Vector3 {
    let t = half().product(r.heading().unit().y.sum(one()));
    Vector3 { x: one(), y: one(), z: one() }.scaled(one().difference(t)).sum(
        Vector3 { x: half(), y: number(0x3f33_3333), z: one() }.scaled(t),
    )
}

/// The colour of the sky in the direction of a ray.
pub fn gradient_color(r: Ray) -> (c: Vector3)
    ensures
        c == background(r),
{
    let unit: Vector3 = unit_vector(r.direction());
    let t: Scalar = Scalar::half().mul(unit.y.add(Scalar::one()));
    let white: Vector3 = Vector3::from_value(Scalar::one());
    let blue: Vector3 = Vector3::new(Scalar::half(), Scalar::from_bits(0x3f33_3333), Scalar::one());
    white.scale(Scalar::one().sub(t)).add(blue.scale(t))
}

/// The far end of the window when the search comes to a shape: the distance
/// of the hit found so far, or 10000 when there is none.
pub open spec fn bound(found: Hit) -> Scalar {
    if found.is_hit {
        found.t
    } else {
        number(T_MAX_BITS)
    }
}

/// What the search holds after the first `n` shapes: each shape is asked for
/// a hit nearer than the one held, and a hit replaces what is held.
pub open spec fn searched(objects: Seq<Shape>, ray: Ray, n: nat) -> Hit
    decreases n,
{
    if n == 0 {
        missed(0)
    } else {
        let held = searched(objects, ray, (n - 1) as nat);
        let h = objects[n - 1].struck(ray, number(T_MIN_BITS), bound(held));
        if h.is_hit {
            h
        } else {
            held
        }
    }
}

/// The nearest hit of a ray among all the shapes of a scene.
pub open spec fn nearest_hit(objects: Seq<Shape>, ray: Ray) -> Hit {
    searched(objects, ray, objects.len())
}

/// A hit that the search holds lies strictly inside the window
/// `(0.001, 10000)`, on the ray, and on one of the shapes searched.
pub proof fn lemma_searched_hit(objects: Seq<Shape>, ray: Ray, n: nat)
    requires
        n <= objects.len(),
    ensures
        ({
            let found = searched(objects, ray, n);
            found.is_hit ==> {
                &&& inside(found.t, number(T_MIN_BITS), number(T_MAX_BITS))
                &&& found.point == ray.at(found.t)
                &&& exists|k: int| 0 <= k < n && found.material == (#[trigger] objects[k]).surface()
            }
        }),
    decreases n,
{
    if n > 0 {
        lemma_searched_hit(objects, ray, (n - 1) as nat);
        let held = searched(objects, ray, (n - 1) as nat);
        let h = objects[n - 1].struck(ray, number(T_MIN_BITS), bound(held));
        lemma_struck(objects[n - 1], ray, number(T_MIN_BITS), bound(held));
        if h.is_hit {
            assert(h.material == objects[n - 1].surface());
        } else if held.is_hit {
            let k = choose|k: int| 0 <= k < n - 1 && held.material == (#[trigger] objects[k]).surface();
            assert(0 <= k < n && held.material == objects[k].surface());
        }
    }
}

/// What every shape's `struck` gives: the material of the shape, and for a
/// hit a distance strictly inside the window and the point at that distance.
pub proof fn lemma_struck(shape: Shape, ray: Ray, t_min: Scalar, t_max: Scalar)
    ensures
        ({
            let h = shape.struck(ray, t_min, t_max);
            &&& h.material == shape.surface()
            &&& h.is_hit ==> inside(h.t, t_min, t_max) && h.point == ray.at(h.t)
        }),
{
}

/// The search only ever moves nearer: a hit held after `i` shapes is still a
/// hit after `n >= i` shapes, and not nearer than the one held then.
pub proof fn lemma_search_narrows(objects: Seq<Shape>, ray: Ray, i: nat, n: nat)
    requires
        i <= n <= objects.len(),
        searched(objects, ray, i).is_hit,
    ensures
        searched(objects, ray, n).is_hit,
        !searched(objects, ray, i).t.below(searched(objects, ray, n).t),
    decreases n,
{
    if i < n {
        lemma_search_narrows(objects, ray, i, (n - 1) as nat);
        let held = searched(objects, ray, (n - 1) as nat);
        lemma_struck(objects[n - 1], ray, number(T_MIN_BITS), bound(held));
    }
}

/// Drawing the far end of the window nearer does not make a shape answer
/// with a farther hit: where the shape has a hit in the wide window, its hit
/// in the narrow one is no farther, and if it has none there, the hit of the
/// wide window lies at or beyond the near end.
pub proof fn lemma_narrowed(shape: Shape, ray: Ray, t_min: Scalar, narrow: Scalar, wide: Scalar)
    requires
        narrow == wide || narrow.below(wide),
        shape.struck(ray, t_min, wide).is_hit,
    ensures
        shape.struck(ray, t_min, narrow).is_hit ==> !shape.struck(ray, t_min, wide).t.below(
            shape.struck(ray, t_min, narrow).t,
        ),
        !shape.struck(ray, t_min, narrow).is_hit ==> !shape.struck(ray, t_min, wide).t.below(narrow),
{
}

/// The hit that the search holds after `n` shapes is no farther than the hit
/// that any one of these shapes has by itself in the whole window.
pub proof fn lemma_search_nearest(objects: Seq<Shape>, ray: Ray, n: nat, k: int)
    requires
        n <= objects.len(),
        0 <= k < n,
        objects[k].struck(ray, number(T_MIN_BITS), number(T_MAX_BITS)).is_hit,
    ensures
        searched(objects, ray, n).is_hit,
        !objects[k].struck(ray, number(T_MIN_BITS), number(T_MAX_BITS)).t.below(
            searched(objects, ray, n).t,
        ),
{
    let own = objects[k].struck(ray, number(T_MIN_BITS), number(T_MAX_BITS));
    let held = searched(objects, ray, k as nat);
    let after = searched(objects, ray, (k + 1) as nat);
    lemma_searched_hit(objects, ray, k as nat);
    lemma_searched_hit(objects, ray, (k + 1) as nat);
    lemma_searched_hit(objects, ray, n);
    lemma_struck(objects[k], ray, number(T_MIN_BITS), number(T_MAX_BITS));
    lemma_narrowed(objects[k], ray, number(T_MIN_BITS), bound(held), number(T_MAX_BITS));
    assert(after.is_hit && !own.t.below(after.t));
    lemma_search_narrows(objects, ray, (k + 1) as nat, n);
}

/// When the search ends without a hit, no shape has one anywhere in the
/// window `(0.001, 10000)`.
pub proof fn lemma_search_miss(objects: Seq<Shape>, ray: Ray, n: nat)
    requires
        n <= objects.len(),
        !searched(objects, ray, n).is_hit,
    ensures
        forall|k: int|
            0 <= k < n ==> !(#[trigger] objects[k]).struck(
                ray,
                number(T_MIN_BITS),
                number(T_MAX_BITS),
            ).is_hit,
    decreases n,
{
    if n > 0 {
        lemma_search_miss(objects, ray, (n - 1) as nat);
    }
}

/// No shape after the one that gave the final hit has a hit nearer than it.
pub proof fn lemma_search_final(objects: Seq<Shape>, ray: Ray, n: nat, k: int)
    requires
        n <= objects.len(),
        0 <= k < n,
        searched(objects, ray, n) == searched(objects, ray, (k + 1) as nat),
        searched(objects, ray, n).is_hit,
    ensures
        forall|i: int|
            k < i < n ==> !(#[trigger] objects[i]).struck(
                ray,
                number(T_MIN_BITS),
                searched(objects, ray, n).t,
            ).is_hit,
    decreases n,
{
    if n > k + 1 {
        let held = searched(objects, ray, (n - 1) as nat);
        lemma_search_narrows(objects, ray, (k + 1) as nat, (n - 1) as nat);
        let last = objects[n - 1].struck(ray, number(T_MIN_BITS), bound(held));
        lemma_struck(objects[n - 1], ray, number(T_MIN_BITS), bound(held));
        // A hit on the last shape would be nearer than what was held, so
        // the final hit is the one held before it.
        assert(!last.is_hit);
        assert(searched(objects, ray, n) == held);
        lemma_search_final(objects, ray, (n - 1) as nat, k);
    }
}

/// The nearest hit of a ray among the shapes of a world, in the window
/// `(0.001, 10000)`; a record with `is_hit` false when there is none.
pub fn search(r: Ray, world: &World) -> (hit: Hit)
    ensures
        hit == nearest_hit(world.objects@, r),
        hit.is_hit ==> inside(hit.t, number(T_MIN_BITS), number(T_MAX_BITS)) && hit.point == r.at(
            hit.t,
        ),
        hit.is_hit ==> exists|k: int|
            0 <= k < world.objects@.len() && hit.material == (#[trigger] world.objects@[k]).surface(),
        hit.is_hit ==> forall|k: int|
            0 <= k < world.objects@.len() && (#[trigger] world.objects@[k]).struck(
                r,
                number(T_MIN_BITS),
                number(T_MAX_BITS),
            ).is_hit ==> !world.objects@[k].struck(r, number(T_MIN_BITS), number(T_MAX_BITS)).t.below(
                hit.t,
            ),
        !hit.is_hit ==> forall|k: int|
            0 <= k < world.objects@.len() ==> !(#[trigger] world.objects@[k]).struck(
                r,
                number(T_MIN_BITS),
                number(T_MAX_BITS),
            ).is_hit,
{
    let mut hit: Hit = Hit {
        is_hit: false,
        t: Scalar::zero(),
        point: Vector3::from_value(Scalar::zero()),
        norm: Vector3::from_value(Scalar::zero()),
        material: 0,
    };
    let mut closest: Scalar = Scalar::from_bits(T_MAX_BITS);
    let mut i: usize = 0;
    while i < world.objects.len()
        invariant
            i <= world.objects@.len(),
            hit == searched(world.objects@, r, i as nat),
            closest == bound(hit),
        decreases world.objects@.len() - i,
    {
        let tmp_hit: Hit = world.objects[i].hit(r, Scalar::from_bits(T_MIN_BITS), closest);
        if tmp_hit.is_hit {
            closest = tmp_hit.t;
            hit = tmp_hit;
        }
        i = i + 1;
    }
    proof {
        lemma_searched_hit(world.objects@, r, world.objects@.len());
        if !hit.is_hit {
            lemma_search_miss(world.objects@, r, world.objects@.len());
        }
        assert forall|k: int|
            0 <= k < world.objects@.len() && (#[trigger] world.objects@[k]).struck(
                r,
                number(T_MIN_BITS),
                number(T_MAX_BITS),
            ).is_hit implies !world.objects@[k].struck(
            r,
            number(T_MIN_BITS),
            number(T_MAX_BITS),
        ).t.below(hit.t) by {
            lemma_search_nearest(world.objects@, r, world.objects@.len(), k);
        }
    }
    hit
}

/// The colour that a ray carries back: the sky when the ray has bounced
/// `MAX_RECURSION_SIZE` times or hits nothing, and otherwise half of what the
/// ray scattered by the material at the nearest hit carries back. The
/// sampler is the one left after the random numbers of all the bounces.
pub open spec fn traced(world: World, r: Ray, depth: int, sampler: Sampler) -> (Vector3, Sampler)
    decreases MAX_RECURSION_SIZE - depth,
{
    if depth >= MAX_RECURSION_SIZE {
        (background(r), sampler)
    } else {
        let hit = nearest_hit(world.objects@, r);
        if hit.is_hit {
            let out = world.materials@[hit.material as int].scattered(r, hit, sampler);
            let rest = traced(world, out.0, depth + 1, out.1);
            (rest.0.scaled(half()), rest.1)
        } else {
            (background(r), sampler)
        }
    }
}

/// Traces a ray that has bounced `depth` times already.
pub fn trace(r: Ray, world: &World, depth: i32, sampler: &mut Sampler) -> (c: Vector3)
    requires
        depth < MAX_RECURSION_SIZE ==> world.well_formed(),
    ensures
        (c, *final(sampler)) == traced(*world, r, depth as int, *old(sampler)),
        depth >= MAX_RECURSION_SIZE ==> c == background(r) && *final(sampler) == *old(sampler),
        !nearest_hit(world.objects@, r).is_hit ==> c == background(r) && *final(sampler) == *old(
            sampler,
        ),
    decreases MAX_RECURSION_SIZE - depth,
{
    if depth >= MAX_RECURSION_SIZE {
        return gradient_color(r);
    }
    let hit: Hit = search(r, world);
    if hit.is_hit {
        let (new_ray, _was_reflected) = world.materials[hit.material].scatter(r, hit, sampler);
        let rest: Vector3 = trace(new_ray, world, depth + 1, sampler);
        return rest.scale(Scalar::half());
    }
    gradient_color(r)
}

/// The colour `c` halved `k` times.
pub open spec fn attenuated(c: Vector3, k: nat) -> Vector3
    decreases k,
{
    if k == 0 {
        c
    } else {
        attenuated(c, (k - 1) as nat).scaled(half())
    }
}

/// The number of times a traced ray bounces before it sees the sky.
pub open spec fn bounces(world: World, r: Ray, depth: int, sampler: Sampler) -> nat
    decreases MAX_RECURSION_SIZE - depth,
{
    if depth >= MAX_RECURSION_SIZE {
        0
    } else {
        let hit = nearest_hit(world.objects@, r);
        if hit.is_hit {
            let out = world.materials@[hit.material as int].scattered(r, hit, sampler);
            1 + bounces(world, out.0, depth + 1, out.1)
        } else {
            0
        }
    }
}

/// The last ray of the path of a traced ray: the one that sees the sky.
pub open spec fn last_ray(world: World, r: Ray, depth: int, sampler: Sampler) -> Ray
    decreases MAX_RECURSION_SIZE - depth,
{
    if depth >= MAX_RECURSION_SIZE {
        r
    } else {
        let hit = nearest_hit(world.objects@, r);
        if hit.is_hit {
            let out = world.materials@[hit.material as int].scattered(r, hit, sampler);
            last_ray(world, out.0, depth + 1, out.1)
        } else {
            r
        }
    }
}

/// Every traced colour is the sky seen along the last ray of the path,
/// halved once for every bounce; there are no more bounces than the depth
/// leaves room for, and at least one where the ray hits something before the
/// depth is used up.
pub proof fn lemma_trace_decays(world: World, r: Ray, depth: int, sampler: Sampler)
    requires
        depth >= 0,
    ensures
        depth + bounces(world, r, depth, sampler) <= MAX_RECURSION_SIZE || bounces(
            world,
            r,
            depth,
            sampler,
        ) == 0,
        bounces(world, r, depth, sampler) <= MAX_RECURSION_SIZE,
        depth < MAX_RECURSION_SIZE && nearest_hit(world.objects@, r).is_hit ==> bounces(
            world,
            r,
            depth,
            sampler,
        ) >= 1,
        bounces(world, r, depth, sampler) == 0 ==> last_ray(world, r, depth, sampler) == r,
        traced(world, r, depth, sampler).0 == attenuated(
            background(last_ray(world, r, depth, sampler)),
            bounces(world, r, depth, sampler),
        ),
    decreases MAX_RECURSION_SIZE - depth,
{
    if depth < MAX_RECURSION_SIZE {
        let hit = nearest_hit(world.objects@, r);
        if hit.is_hit {
            let out = world.materials@[hit.material as int].scattered(r, hit, sampler);
            lemma_trace_decays(world, out.0, depth + 1, out.1);
        }
    }
}

} // verus!
