//! Surface materials: how a ray leaves a surface it has hit.

use vstd::prelude::*;
use crate::geometry::{Hit, Ray};
use crate::sampler::Sampler;
use crate::arithmetic::lemma_zero_arithmetic;
use crate::scalar::{Scalar, one, two, zero};
use crate::vector::Vector3;

verus! {

/// How many candidates `lambert_unit_vector_from` draws before it gives up
/// and returns the centre of the ball.
pub const ATTEMPTS: u32 = 0xffff_ffff;

/// The point of the cube `[-1, 1)^3` that three numbers of `[0, 1)` name:
/// `2 (r1, r2, r3) - (1, 1, 1)`.
pub open spec fn candidate(r1: Scalar, r2: Scalar, r3: Scalar) -> Vector3 {
    Vector3 { x: r1, y: r2, z: r3 }.scaled(two()).difference(
        Vector3 { x: one(), y: one(), z: one() },
    )
}

/// Whether the squared length of `p` is below one.
pub open spec fn in_unit_ball(p: Vector3) -> bool {
    p.squared_length().below(one())
}

/// The candidate that the next three numbers of the sampler name, and the
/// sampler after them.
pub open spec fn drawn(s: Sampler) -> (Vector3, Sampler) {
    (
        candidate(
            Scalar::unit_fraction(s.output()),
            Scalar::unit_fraction(s.advanced().output()),
            Scalar::unit_fraction(s.advanced().advanced().output()),
        ),
        s.advanced().advanced().advanced(),
    )
}

/// The first of at most `attempts` candidates in a row that lies in the unit
/// ball, and the sampler after it; the zero vector when none does.
pub open spec fn sampled(s: Sampler, attempts: nat) -> (Vector3, Sampler)
    decreases attempts,
{
    if attempts == 0 {
        (Vector3 { x: zero(), y: zero(), z: zero() }, s)
    } else if in_unit_ball(drawn(s).0) {
        drawn(s)
    } else {
        sampled(drawn(s).1, (attempts - 1) as nat)
    }
}

/// Whatever the sampler and the number of attempts, the sample lies in the
/// unit ball.
pub proof fn lemma_sampled_in_ball(s: Sampler, attempts: nat)
    ensures
        in_unit_ball(sampled(s, attempts).0),
    decreases attempts,
{
    if attempts == 0 {
        lemma_zero_arithmetic();
    } else if !in_unit_ball(drawn(s).0) {
        lemma_sampled_in_ball(drawn(s).1, (attempts - 1) as nat);
    }
}

/// The point `2 (r1, r2, r3) - (1, 1, 1)`.
pub fn candidate_of(r1: Scalar, r2: Scalar, r3: Scalar) -> (p: Vector3)
    ensures
        p == candidate(r1, r2, r3),
{
    Vector3::new(r1, r2, r3).scale(Scalar::two()).sub(Vector3::from_value(Scalar::one()))
}

/// Whether a candidate is kept: its squared length is below one.
pub fn accepts(p: Vector3) -> (kept: bool)
    ensures
        kept == in_unit_ball(p),
{
    p.length_squared().lt(Scalar::one())
}

/// A point of the unit ball by rejection: candidates are drawn from the cube
/// until one has a squared length below one.
pub fn lambert_unit_vector_from(sampler: &mut Sampler) -> (p: Vector3)
    ensures
        (p, *final(sampler)) == sampled(*old(sampler), ATTEMPTS as nat),
        in_unit_ball(p),
{
    let mut left: u32 = ATTEMPTS;
    proof {
        lemma_sampled_in_ball(*sampler, ATTEMPTS as nat);
    }
    while left > 0
        invariant
            sampled(*sampler, left as nat) == sampled(*old(sampler), ATTEMPTS as nat),
        decreases left,
    {
        let r1: Scalar = sampler.next_unit();
        let r2: Scalar = sampler.next_unit();
        let r3: Scalar = sampler.next_unit();
        let p: Vector3 = candidate_of(r1, r2, r3);
        if accepts(p) {
            return p;
        }
        left = left - 1;
    }
    Vector3::from_value(Scalar::zero())
}

/// A random point of the unit ball, from a sampler that starts from the
/// operating system's entropy.
pub fn lambert_unit_vector() -> (p: Vector3)
    ensures
        in_unit_ball(p),
        exists|s: Sampler| p == sampled(s, ATTEMPTS as nat).0,
{
    let mut sampler: Sampler = Sampler::from_entropy();
    let ghost first = sampler;
    let p: Vector3 = lambert_unit_vector_from(&mut sampler);
    assert(p == sampled(first, ATTEMPTS as nat).0);
    p
}

/// A table of points of the unit ball, drawn once and then picked from.
pub struct LambertTable {
    pub table: Vec<Vector3>,
    pub size: usize,
}

/// The sampler after a table of the given size was filled from it.
pub open spec fn after_filling(s: Sampler, size: nat) -> Sampler
    decreases size,
{
    if size == 0 {
        s
    } else {
        sampled(after_filling(s, (size - 1) as nat), ATTEMPTS as nat).1
    }
}

/// The points that a table of the given size is filled with from a sampler:
/// one sample after the other.
pub open spec fn filled(s: Sampler, size: nat) -> Seq<Vector3>
    decreases size,
{
    if size == 0 {
        Seq::empty()
    } else {
        filled(s, (size - 1) as nat).push(
            sampled(after_filling(s, (size - 1) as nat), ATTEMPTS as nat).0,
        )
    }
}

impl LambertTable {
    /// The points of the table.
    pub open spec fn entries(self) -> Seq<Vector3> {
        self.table@
    }

    /// The table holds `size` points, each of them in the unit ball.
    pub open spec fn well_formed(self) -> bool {
        &&& self.table@.len() == self.size
        &&& forall|i: int| 0 <= i < self.table@.len() ==> in_unit_ball(#[trigger] self.table@[i])
    }

    /// The number by which `get` reduces a random word: the size as a word
    /// of thirty-two bits.
    pub open spec fn modulus(self) -> nat {
        (self.size as nat) % 0x1_0000_0000
    }

    /// A table of `size` points drawn from the sampler.
    pub fn new_from(size: usize, sampler: &mut Sampler) -> (t: LambertTable)
        ensures
            t.well_formed(),
            t.size == size,
            t.entries() == filled(*old(sampler), size as nat),
            *final(sampler) == after_filling(*old(sampler), size as nat),
    {
        let mut table: Vec<Vector3> = Vec::new();
        let mut i: usize = 0;
        while i < size
            invariant
                i <= size,
                table@ == filled(*old(sampler), i as nat),
                table@.len() == i,
                *sampler == after_filling(*old(sampler), i as nat),
                forall|k: int| 0 <= k < table@.len() ==> in_unit_ball(#[trigger] table@[k]),
            decreases size - i,
        {
            let p: Vector3 = lambert_unit_vector_from(sampler);
            table.push(p);
            i = i + 1;
        }
        LambertTable { table, size }
    }

    /// A table of `size` random points of the unit ball.
    pub fn new(size: usize) -> (t: LambertTable)
        ensures
            t.well_formed(),
            t.size == size,
            exists|s: Sampler| t.entries() == filled(s, size as nat),
    {
        let mut sampler: Sampler = Sampler::from_entropy();
        let ghost first = sampler;
        let t: LambertTable = LambertTable::new_from(size, &mut sampler);
        assert(t.entries() == filled(first, size as nat));
        t
    }

    /// The entry that a random word picks: the one at the word reduced by
    /// the size.
    pub fn pick(&self, word: u32) -> (p: Vector3)
        requires
            self.well_formed(),
            self.modulus() != 0,
        ensures
            p == self.entries()[(word as nat % self.modulus()) as int],
            in_unit_ball(p),
    {
        let modulus: u32 = ((self.size as u64) % 0x1_0000_0000) as u32;
        let index: usize = (word % modulus) as usize;
        self.table[index]
    }

    /// The entry that the next word of the sampler picks.
    pub fn get_from(&self, sampler: &mut Sampler) -> (p: Vector3)
        requires
            self.well_formed(),
            self.modulus() != 0,
        ensures
            p == self.entries()[(old(sampler).output() as nat % self.modulus()) as int],
            *final(sampler) == old(sampler).advanced(),
            in_unit_ball(p),
    {
        let word: u32 = sampler.next_word();
        self.pick(word)
    }

    /// A random entry of the table.
    pub fn get(&self) -> (p: Vector3)
        requires
            self.well_formed(),
            self.modulus() != 0,
        ensures
            in_unit_ball(p),
            exists|i: int| 0 <= i < self.entries().len() && p == self.entries()[i],
    {
        let mut sampler: Sampler = Sampler::from_entropy();
        let ghost word = sampler.output();
        let p: Vector3 = self.get_from(&mut sampler);
        assert(p == self.entries()[(word as nat % self.modulus()) as int]);
        p
    }
}

/// A material: the rule by which a ray leaves a surface.
pub trait Material {
    /// The ray that leaves the surface at `hit` when `ray` arrived, and the
    /// sampler after the random numbers that the rule used.
    spec fn scattered(&self, ray: Ray, hit: Hit, sampler: Sampler) -> (Ray, Sampler);

    /// The outgoing ray, with its random numbers taken from `sampler`. The
    /// flag says that the ray was scattered, which every material here does.
    fn scatter(&self, ray: Ray, hit: Hit, sampler: &mut Sampler) -> (out: (Ray, bool))
        ensures
            out.1,
            (out.0, *final(sampler)) == self.scattered(ray, hit, *old(sampler)),
            out.0.start() == hit.point,
    ;

    /// The outgoing ray, with its random numbers taken from the operating
    /// system's entropy.
    fn reflect(&self, ray: Ray, hit: Hit) -> (out: (Ray, bool))
        ensures
            out.1,
            out.0.start() == hit.point,
            exists|s: Sampler| out.0 == self.scattered(ray, hit, s).0,
    ;
}

/// A diffuse surface.
#[derive(Clone, Copy, Debug, PartialEq, Eq, Structural)]
pub struct Lambertian {}

impl Lambertian {
    /// A diffuse surface; it has no parameters.
    pub fn new() -> (r: Lambertian)
        ensures
            r == (Lambertian {  }),
    {
        Lambertian {  }
    }

    /// The ray that leaves a diffuse surface towards the point `unit` of the
    /// unit ball: from the hit point to `(point + normal) + unit`.
    pub open spec fn bounced(hit: Hit, unit: Vector3) -> Ray {
        Ray { a: hit.point, b: hit.point.sum(hit.norm).sum(unit).difference(hit.point) }
    }

    /// The ray from the hit point towards `(point + normal) + unit`.
    pub fn bounce(hit: Hit, unit: Vector3) -> (r: Ray)
        ensures
            r == Lambertian::bounced(hit, unit),
    {
        let target: Vector3 = hit.point.add(hit.norm).add(unit);
        Ray::new(hit.point, target.sub(hit.point))
    }
}

impl Material for Lambertian {
    open spec fn scattered(&self, ray: Ray, hit: Hit, sampler: Sampler) -> (Ray, Sampler) {
        (
            Lambertian::bounced(hit, sampled(sampler, ATTEMPTS as nat).0),
            sampled(sampler, ATTEMPTS as nat).1,
        )
    }

    fn scatter(&self, ray: Ray, hit: Hit, sampler: &mut Sampler) -> (out: (Ray, bool))
        ensures
            out.0 == Lambertian::bounced(hit, sampled(*old(sampler), ATTEMPTS as nat).0),
            *final(sampler) == sampled(*old(sampler), ATTEMPTS as nat).1,
    {
        let unit: Vector3 = lambert_unit_vector_from(sampler);
        (Lambertian::bounce(hit, unit), true)
    }

    fn reflect(&self, ray: Ray, hit: Hit) -> (out: (Ray, bool))
        ensures
            exists|unit: Vector3| in_unit_ball(unit) && out.0 == Lambertian::bounced(hit, unit),
    {
        let mut sampler: Sampler = Sampler::from_entropy();
        let ghost first = sampler;
        let out = self.scatter(ray, hit, &mut sampler);
        assert(out.0 == self.scattered(ray, hit, first).0);
        proof {
            let unit = sampled(first, ATTEMPTS as nat).0;
            lemma_sampled_in_ball(first, ATTEMPTS as nat);
            assert(in_unit_ball(unit) && out.0 == Lambertian::bounced(hit, unit));
        }
        out
    }
}

/// A mirror surface.
#[derive(Clone, Copy, Debug, PartialEq, Eq, Structural)]
pub struct Metal {}

impl Metal {
    /// A mirror surface; it has no parameters.
    pub fn new() -> (r: Metal)
        ensures
            r == (Metal {  }),
    {
        Metal {  }
    }

    /// The mirror image of the direction `d` about the normal `n`:
    /// `d - (2 (d . n)) n`.
    pub open spec fn mirrored(d: Vector3, n: Vector3) -> Vector3 {
        d.difference(n.scaled(two().product(d.inner(n))))
    }

    /// The ray that leaves a mirror: from the hit point in the mirrored
    /// direction.
    pub open spec fn bounced(ray: Ray, hit: Hit) -> Ray {
        Ray { a: hit.point, b: Metal::mirrored(ray.heading(), hit.norm) }
    }

    /// The ray from the hit point in the mirrored direction.
    pub fn bounce(ray: Ray, hit: Hit) -> (r: Ray)
        ensures
            r == Metal::bounced(ray, hit),
    {
        let d: Vector3 = *ray.direction();
        let direction: Vector3 = d.sub(hit.norm.scale(Scalar::two().mul(d.dot(hit.norm))));
        Ray::new(hit.point, direction)
    }
}

impl Material for Metal {
    open spec fn scattered(&self, ray: Ray, hit: Hit, sampler: Sampler) -> (Ray, Sampler) {
        (Metal::bounced(ray, hit), sampler)
    }

    fn scatter(&self, ray: Ray, hit: Hit, sampler: &mut Sampler) -> (out: (Ray, bool))
        ensures
            out.0 == Metal::bounced(ray, hit),
            *final(sampler) == *old(sampler),
    {
        (Metal::bounce(ray, hit), true)
    }

    fn reflect(&self, ray: Ray, hit: Hit) -> (out: (Ray, bool))
        ensures
            out.0 == Metal::bounced(ray, hit),
    {
        let out = (Metal::bounce(ray, hit), true);
        assert(out.0 == self.scattered(ray, hit, Sampler { x: 0, y: 0, z: 0, w: 0 }).0);
        out
    }
}

} // verus!
