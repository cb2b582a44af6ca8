//! The render pipeline: one job per pixel, each job a sum of jittered
//! samples, and an image buffer into which finished pixels are stored in
//! any order.

use vstd::prelude::*;
use crate::geometry::Ray;
use crate::sampler::Sampler;
use crate::scalar::{Scalar, number, zero};
use crate::scene::World;
use crate::tracer::{trace, traced};
use crate::vector::{Vector3, unit_vector};

verus! {

/// The factor that takes a channel of `[0, 1]` to a byte: 255.99.
pub const BYTE_SCALE_BITS: u32 = 0x437f_fd71;

/// The pinhole camera: an origin and the rectangle that the image is
/// projected on, given by its lower left corner and its two edges.
#[derive(Clone, Copy, Debug, PartialEq, Eq, Structural)]
pub struct Camera {
    pub origin: Vector3,
    pub lower_left: Vector3,
    pub horizontal: Vector3,
    pub vertical: Vector3,
}

/// A finished pixel: its colour, and where its three bytes go in the image
/// buffer.
#[derive(Clone, Copy, Debug, PartialEq, Eq, Structural)]
pub struct PixelMessage {
    pub color: Vector3,
    pub index: usize,
}

/// Where the three bytes of the pixel in column `x` of row `y` start in the
/// buffer of an image `width` pixels wide.
pub open spec fn offset(x: nat, y: nat, width: nat) -> nat {
    (y * width + x) * 3
}

/// The ray through the pixel in column `x` of row `y`, moved by `ju` and `jv`
/// within the pixel. Row 0 is the top of the image.
pub open spec fn ray_through(
    camera: Camera,
    x: nat,
    y: nat,
    width: nat,
    height: nat,
    ju: Scalar,
    jv: Scalar,
) -> Ray {
    let u = Scalar::of_integer(x).sum(ju).quotient(Scalar::of_integer(width));
    let v = Scalar::of_integer((height - y) as nat).sum(jv).quotient(Scalar::of_integer(height));
    Ray {
        a: camera.origin,
        b: camera.lower_left.sum(camera.horizontal.scaled(u).sum(camera.vertical.scaled(v))).unit(),
    }
}

/// The colour with every channel raised to the power one half, which is
/// gamma correction for a gamma of two.
pub open spec fn corrected(color: Vector3) -> Vector3 {
    Vector3 { x: color.x.root(), y: color.y.root(), z: color.z.root() }
}

/// The sum of the first `n` samples of a pixel, and the sampler after them.
/// Each sample draws its two jitters and then traces its ray.
pub open spec fn gathered(
    world: World,
    camera: Camera,
    x: nat,
    y: nat,
    width: nat,
    height: nat,
    n: nat,
    sampler: Sampler,
) -> (Vector3, Sampler)
    decreases n,
{
    if n == 0 {
        (Vector3 { x: zero(), y: zero(), z: zero() }, sampler)
    } else {
        let before = gathered(world, camera, x, y, width, height, (n - 1) as nat, sampler);
        let ju = Scalar::unit_fraction(before.1.output());
        let jv = Scalar::unit_fraction(before.1.advanced().output());
        let sample = traced(
            world,
            ray_through(camera, x, y, width, height, ju, jv),
            0,
            before.1.advanced().advanced(),
        );
        (before.0.sum(sample.0), sample.1)
    }
}

/// The colour of a pixel: the mean of its samples, gamma corrected.
pub open spec fn pixel_color(
    world: World,
    camera: Camera,
    x: nat,
    y: nat,
    width: nat,
    height: nat,
    samples: nat,
    sampler: Sampler,
) -> Vector3 {
    corrected(
        gathered(world, camera, x, y, width, height, samples, sampler).0.divided(
            Scalar::of_integer(samples),
        ),
    )
}

/// The byte of a channel: the channel times 255.99, cut to a whole number
/// and held to `[0, 255]`.
pub open spec fn channel_byte(c: Scalar) -> u8 {
    c.product(number(BYTE_SCALE_BITS)).truncated_byte()
}

/// The buffer after the three bytes of a pixel were written at its index.
pub open spec fn stored(data: Seq<u8>, pm: PixelMessage) -> Seq<u8> {
    data.update(pm.index as int, channel_byte(pm.color.x)).update(
        pm.index + 1,
        channel_byte(pm.color.y),
    ).update(pm.index + 2, channel_byte(pm.color.z))
}

impl Camera {
    /// The camera at the origin that looks down the negative z axis at a
    /// rectangle four wide and two high, one unit away.
    pub open spec fn standard_view() -> Camera {
        Camera {
            origin: Vector3 { x: zero(), y: zero(), z: zero() },
            lower_left: Vector3 { x: number(0xc000_0000), y: number(0xbf80_0000), z: number(0xbf80_0000) },
            horizontal: Vector3 { x: number(0x4080_0000), y: zero(), z: zero() },
            vertical: Vector3 { x: zero(), y: number(0x4000_0000), z: zero() },
        }
    }

    /// The camera of `standard_view`.
    pub fn standard() -> (c: Camera)
        ensures
            c == Camera::standard_view(),
    {
        let o: Scalar = Scalar::zero();
        Camera {
            origin: Vector3::new(o, o, o),
            lower_left: Vector3::new(
                Scalar::from_bits(0xc000_0000),
                Scalar::from_bits(0xbf80_0000),
                Scalar::from_bits(0xbf80_0000),
            ),
            horizontal: Vector3::new(Scalar::from_bits(0x4080_0000), o, o),
            vertical: Vector3::new(o, Scalar::from_bits(0x4000_0000), o),
        }
    }

    /// The ray through a pixel, moved by the jitters `ju` and `jv`.
    pub fn ray(
        &self,
        x: usize,
        y: usize,
        width: usize,
        height: usize,
        ju: Scalar,
        jv: Scalar,
    ) -> (r: Ray)
        requires
            y <= height,
        ensures
            r == ray_through(*self, x as nat, y as nat, width as nat, height as nat, ju, jv),
    {
        let u: Scalar = Scalar::from_u64(x as u64).add(ju).div(Scalar::from_u64(width as u64));
        let v: Scalar = Scalar::from_u64((height - y) as u64).add(jv).div(
            Scalar::from_u64(height as u64),
        );
        Ray::new(
            self.origin,
            unit_vector(&self.lower_left.add(self.horizontal.scale(u).add(self.vertical.scale(v)))),
        )
    }
}

/// Gamma correction for a gamma of two: the square root of every channel.
pub fn gamma(color: Vector3) -> (c: Vector3)
    ensures
        c == corrected(color),
{
    Vector3::new(color.x.sqrt(), color.y.sqrt(), color.z.sqrt())
}

/// Where the bytes of a pixel start in the buffer.
pub fn pixel_index(x: usize, y: usize, width: usize) -> (index: usize)
    requires
        offset(x as nat, y as nat, width as nat) <= usize::MAX,
    ensures
        index == offset(x as nat, y as nat, width as nat),
{
    proof {
        assert(y * width >= 0) by (nonlinear_arith)
            requires
                y >= 0,
                width >= 0,
        ;
    }
    (y * width + x) * 3
}

/// The job of one pixel: `samples` rays through the pixel, each moved by a
/// random offset of `[0, 1)` in both directions, are traced and averaged,
/// and the mean is gamma corrected.
pub fn sample_pixel(
    x: usize,
    y: usize,
    width: usize,
    height: usize,
    samples: u32,
    camera: &Camera,
    world: &World,
    sampler: &mut Sampler,
) -> (pm: PixelMessage)
    requires
        world.well_formed(),
        x < width,
        y < height,
        3 * (width * height) <= usize::MAX,
    ensures
        pm.index == offset(x as nat, y as nat, width as nat),
        pm.index + 3 <= 3 * (width * height),
        pm.color == pixel_color(
            *world,
            *camera,
            x as nat,
            y as nat,
            width as nat,
            height as nat,
            samples as nat,
            *old(sampler),
        ),
        *final(sampler) == gathered(
            *world,
            *camera,
            x as nat,
            y as nat,
            width as nat,
            height as nat,
            samples as nat,
            *old(sampler),
        ).1,
{
    proof {
        lemma_offset_fits(x as nat, y as nat, width as nat, height as nat);
    }
    let index: usize = pixel_index(x, y, width);
    let mut color: Vector3 = Vector3::from_value(Scalar::zero());
    let mut i: u32 = 0;
    while i < samples
        invariant
            i <= samples,
            world.well_formed(),
            y < height,
            (color, *sampler) == gathered(
                *world,
                *camera,
                x as nat,
                y as nat,
                width as nat,
                height as nat,
                i as nat,
                *old(sampler),
            ),
        decreases samples - i,
    {
        let ju: Scalar = sampler.next_unit();
        let jv: Scalar = sampler.next_unit();
        let r: Ray = camera.ray(x, y, width, height, ju, jv);
        let sample: Vector3 = trace(r, world, 0, sampler);
        color = color.add(sample);
        i = i + 1;
    }
    color = color.div(Scalar::from_u64(samples as u64));
    color = gamma(color);
    PixelMessage { color, index }
}

/// The bytes of a pixel inside an image lie inside its buffer.
pub proof fn lemma_offset_fits(x: nat, y: nat, width: nat, height: nat)
    requires
        x < width,
        y < height,
    ensures
        offset(x, y, width) + 3 <= 3 * (width * height),
{
    assert((y * width + x) * 3 + 3 <= 3 * (width * height)) by (nonlinear_arith)
        requires
            x < width,
            y < height,
    ;
}

/// The byte of a channel.
pub fn to_channel(c: Scalar) -> (b: u8)
    ensures
        b == channel_byte(c),
{
    c.mul(Scalar::from_bits(BYTE_SCALE_BITS)).to_byte()
}

/// Writes the three bytes of a finished pixel at its index. The other bytes
/// of the buffer stay as they are.
pub fn store(data: &mut Vec<u8>, pm: PixelMessage)
    requires
        pm.index + 3 <= old(data)@.len(),
    ensures
        final(data)@ == stored(old(data)@, pm),
        final(data)@.len() == old(data)@.len(),
{
    let red: u8 = to_channel(pm.color.x);
    let green: u8 = to_channel(pm.color.y);
    let blue: u8 = to_channel(pm.color.z);
    let at: usize = pm.index;
    let length: usize = data.len();
    assert(at + 3 <= length);
    data.set(at, red);
    data.set(at + 1, green);
    data.set(at + 2, blue);
}

/// Pixels that do not overlap can be stored in either order.
pub proof fn lemma_store_commutes(data: Seq<u8>, a: PixelMessage, b: PixelMessage)
    requires
        a.index + 3 <= data.len(),
        b.index + 3 <= data.len(),
        a.index + 3 <= b.index || b.index + 3 <= a.index,
    ensures
        stored(stored(data, a), b) == stored(stored(data, b), a),
{
    assert(stored(stored(data, a), b) =~= stored(stored(data, b), a));
}

/// Storing a pixel twice is storing it once.
pub proof fn lemma_store_idempotent(data: Seq<u8>, a: PixelMessage)
    requires
        a.index + 3 <= data.len(),
    ensures
        stored(stored(data, a), a) == stored(data, a),
{
    assert(stored(stored(data, a), a) =~= stored(data, a));
}

/// The buffer after finished pixels arrived in the given order.
pub open spec fn assembled(data: Seq<u8>, arrivals: Seq<PixelMessage>) -> Seq<u8>
    decreases arrivals.len(),
{
    if arrivals.len() == 0 {
        data
    } else {
        stored(assembled(data, arrivals.drop_last()), arrivals.last())
    }
}

/// Whether the three bytes at the index of `pm` are the bytes of its colour.
pub open spec fn holds(data: Seq<u8>, pm: PixelMessage) -> bool {
    &&& data[pm.index as int] == channel_byte(pm.color.x)
    &&& data[pm.index + 1] == channel_byte(pm.color.y)
    &&& data[pm.index + 2] == channel_byte(pm.color.z)
}

/// Where arrivals that share bytes are the same pixel, the buffer in the end
/// holds every pixel that arrived, whatever the order, and is unchanged
/// everywhere else.
pub proof fn lemma_assembled_holds(data: Seq<u8>, arrivals: Seq<PixelMessage>)
    requires
        forall|i: int| 0 <= i < arrivals.len() ==> (#[trigger] arrivals[i]).index + 3 <= data.len(),
        forall|i: int, j: int|
            0 <= i < arrivals.len() && 0 <= j < arrivals.len() ==> #[trigger] arrivals[i]
                == #[trigger] arrivals[j] || arrivals[i].index + 3 <= arrivals[j].index
                || arrivals[j].index + 3 <= arrivals[i].index,
    ensures
        assembled(data, arrivals).len() == data.len(),
        forall|i: int| 0 <= i < arrivals.len() ==> holds(assembled(data, arrivals), #[trigger] arrivals[i]),
        forall|p: int|
            0 <= p < data.len() && (forall|i: int|
                0 <= i < arrivals.len() ==> p < (#[trigger] arrivals[i]).index || p >= arrivals[i].index
                    + 3) ==> assembled(data, arrivals)[p] == data[p],
    decreases arrivals.len(),
{
    if arrivals.len() > 0 {
        let before = arrivals.drop_last();
        let last = arrivals.last();
        assert(last == arrivals[arrivals.len() - 1]);
        assert forall|i: int| 0 <= i < before.len() implies (#[trigger] before[i]).index + 3
            <= data.len() by {
            assert(before[i] == arrivals[i]);
        }
        assert forall|i: int, j: int| 0 <= i < before.len() && 0 <= j < before.len() implies
            #[trigger] before[i] == #[trigger] before[j] || before[i].index + 3 <= before[j].index
            || before[j].index + 3 <= before[i].index by {
            assert(before[i] == arrivals[i] && before[j] == arrivals[j]);
        }
        lemma_assembled_holds(data, before);
        let prior = assembled(data, before);
        let after = assembled(data, arrivals);
        assert(after == stored(prior, last));
        assert forall|i: int| 0 <= i < arrivals.len() implies holds(after, #[trigger] arrivals[i]) by {
            if i < before.len() {
                assert(before[i] == arrivals[i]);
                assert(holds(prior, before[i]));
            }
        }
        assert forall|p: int|
            0 <= p < data.len() && (forall|i: int|
                0 <= i < arrivals.len() ==> p < (#[trigger] arrivals[i]).index || p >= arrivals[i].index
                    + 3) implies after[p] == data[p] by {
            assert(p < last.index || p >= last.index + 3);
            assert forall|i: int| 0 <= i < before.len() implies p < (#[trigger] before[i]).index || p
                >= before[i].index + 3 by {
                assert(before[i] == arrivals[i]);
            }
        }
    }
}

/// An image buffer of the given size with every byte zero.
pub fn zeroed(width: usize, height: usize) -> (data: Vec<u8>)
    requires
        3 * (width * height) <= usize::MAX,
    ensures
        data@ == blank(width as nat, height as nat),
        data@.len() == 3 * (width * height),
{
    proof {
        assert(width * height >= 0) by (nonlinear_arith)
            requires
                width >= 0,
                height >= 0,
        ;
    }
    let length: usize = 3 * (width * height);
    let mut data: Vec<u8> = Vec::new();
    let mut filled: usize = 0;
    while filled < length
        invariant
            filled <= length,
            data@ == Seq::new(filled as nat, |i: int| 0u8),
        decreases length - filled,
    {
        data.push(0);
        filled = filled + 1;
        assert(data@ =~= Seq::new(filled as nat, |i: int| 0u8));
    }
    data
}

/// How many pixels arrive between two ticks of progress.
pub const TICK: usize = 1000;

/// What the collector asks for after a pixel has arrived.
#[derive(Clone, Copy, Debug, PartialEq, Eq, Structural)]
pub struct Progress {
    /// A tick of `TICK` pixels is to be shown.
    pub tick: bool,
    /// Every pixel of the image has arrived.
    pub done: bool,
}

/// The single collector of a render: it stores the finished pixels as they
/// arrive, in whatever order, and knows when the image is complete by their
/// number alone.
pub struct Aggregator {
    data: Vec<u8>,
    received: usize,
    expected: usize,
    arrivals: Ghost<Seq<PixelMessage>>,
}

impl Aggregator {
    /// The pixels that have arrived, in the order of their arrival.
    pub closed spec fn arrived(&self) -> Seq<PixelMessage> {
        self.arrivals@
    }

    /// The number of pixels of the image.
    pub closed spec fn awaited(&self) -> nat {
        self.expected as nat
    }

    /// The buffer as it stands.
    pub closed spec fn buffer(&self) -> Seq<u8> {
        self.data@
    }

    /// The buffer holds what has arrived so far, stored into an image of
    /// zeros.
    pub closed spec fn well_formed(&self) -> bool {
        &&& self.received == self.arrivals@.len()
        &&& self.data@.len() == 3 * self.expected
        &&& self.data@ == assembled(Seq::new((3 * self.expected) as nat, |i: int| 0u8), self.arrivals@)
    }

    /// Whether as many pixels have arrived as the image has.
    pub open spec fn complete(&self) -> bool {
        self.arrived().len() >= self.awaited()
    }

    /// The collector for an image of the given size, with nothing arrived.
    pub fn new(width: usize, height: usize) -> (a: Aggregator)
        requires
            3 * (width * height) <= usize::MAX,
        ensures
            a.well_formed(),
            a.awaited() == width * height,
            a.arrived() == Seq::<PixelMessage>::empty(),
            a.buffer() == blank(width as nat, height as nat),
    {
        proof {
            assert(width * height >= 0) by (nonlinear_arith)
                requires
                    width >= 0,
                    height >= 0,
            ;
        }
        let data: Vec<u8> = zeroed(width, height);
        Aggregator { data, received: 0, expected: width * height, arrivals: Ghost(Seq::empty()) }
    }

    /// Whether as many pixels have arrived as the image has.
    pub fn is_complete(&self) -> (done: bool)
        requires
            self.well_formed(),
        ensures
            done == self.complete(),
    {
        self.received >= self.expected
    }

    /// Whether the bytes of a pixel lie inside the image.
    pub fn fits(&self, pm: &PixelMessage) -> (ok: bool)
        requires
            self.well_formed(),
        ensures
            ok == (pm.index + 3 <= self.buffer().len()),
            self.buffer().len() == 3 * self.awaited(),
    {
        pm.index <= self.data.len() && self.data.len() - pm.index >= 3
    }

    /// Stores a pixel that has arrived. A tick is due with the first pixel
    /// and then with every thousandth after it.
    pub fn accept(&mut self, pm: PixelMessage) -> (progress: Progress)
        requires
            old(self).well_formed(),
            !old(self).complete(),
            pm.index + 3 <= old(self).buffer().len(),
        ensures
            final(self).well_formed(),
            final(self).awaited() == old(self).awaited(),
            final(self).arrived() == old(self).arrived().push(pm),
            final(self).buffer() == stored(old(self).buffer(), pm),
            progress.tick == (old(self).arrived().len() % (TICK as nat) == 0),
            progress.done == final(self).complete(),
    {
        let tick: bool = self.received % TICK == 0;
        store(&mut self.data, pm);
        self.received = self.received + 1;
        proof {
            let before = self.arrivals@;
            self.arrivals@ = before.push(pm);
            assert(before.push(pm).drop_last() =~= before);
        }
        Progress { tick, done: self.received >= self.expected }
    }

    /// The image buffer.
    pub fn into_image(self) -> (data: Vec<u8>)
        requires
            self.well_formed(),
        ensures
            data@ == self.buffer(),
    {
        self.data
    }
}

/// What the collector holds is what `assembled` describes.
pub proof fn lemma_aggregator_buffer(a: &Aggregator, width: nat, height: nat)
    requires
        a.well_formed(),
        a.awaited() == width * height,
    ensures
        a.buffer() == assembled(blank(width, height), a.arrived()),
{
}

/// The finished pixel number `k` of a seeded render, counting row by row
/// from the top left: its samples come from the sampler of stream `k`.
#[verifier::opaque]
pub open spec fn message(
    world: World,
    camera: Camera,
    width: nat,
    height: nat,
    samples: nat,
    seed: u64,
    k: nat,
) -> PixelMessage {
    PixelMessage {
        color: pixel_color(
            world,
            camera,
            k % width,
            k / width,
            width,
            height,
            samples,
            Sampler::start(seed, k as u64),
        ),
        index: (3 * k) as usize,
    }
}

/// The finished pixels of a seeded render in the order of their numbers,
/// up to the number `n`.
pub open spec fn in_order(
    world: World,
    camera: Camera,
    width: nat,
    height: nat,
    samples: nat,
    seed: u64,
    n: nat,
) -> Seq<PixelMessage> {
    Seq::new(n, |k: int| message(world, camera, width, height, samples, seed, k as nat))
}

/// An image of the given size with every byte zero.
pub open spec fn blank(width: nat, height: nat) -> Seq<u8> {
    Seq::new(3 * (width * height), |i: int| 0u8)
}

/// The image of a seeded render: three bytes for each pixel, row by row
/// from the top.
pub open spec fn image(
    world: World,
    camera: Camera,
    width: nat,
    height: nat,
    samples: nat,
    seed: u64,
) -> Seq<u8> {
    assembled(
        blank(width, height),
        in_order(world, camera, width, height, samples, seed, width * height),
    )
}

/// The bytes of pixel number `k` start at `3k`.
pub proof fn lemma_message_index(
    world: World,
    camera: Camera,
    width: nat,
    height: nat,
    samples: nat,
    seed: u64,
    k: nat,
)
    requires
        k < width * height,
        3 * (width * height) <= usize::MAX,
    ensures
        message(world, camera, width, height, samples, seed, k).index == 3 * k,
        message(world, camera, width, height, samples, seed, k).color == pixel_color(
            world,
            camera,
            k % width,
            k / width,
            width,
            height,
            samples,
            Sampler::start(seed, k as u64),
        ),
{
    reveal(message);
}

/// The image has three bytes for every pixel, and holds every pixel of the
/// render.
pub proof fn lemma_image_length(
    world: World,
    camera: Camera,
    width: nat,
    height: nat,
    samples: nat,
    seed: u64,
)
    requires
        3 * (width * height) <= usize::MAX,
    ensures
        image(world, camera, width, height, samples, seed).len() == 3 * (width * height),
        forall|i: int|
            0 <= i < width * height ==> holds(
                image(world, camera, width, height, samples, seed),
                #[trigger] in_order(world, camera, width, height, samples, seed, width * height)[i],
            ),
{
    let all = in_order(world, camera, width, height, samples, seed, width * height);
    lemma_distinct(world, camera, width, height, samples, seed, Seq::new(width * height, |k: int| k as nat));
    assert(all =~= Seq::new(width * height, |k: int| k as nat).map(
        |i: int, k: nat| message(world, camera, width, height, samples, seed, k),
    ));
    lemma_assembled_holds(blank(width, height), all);
}

/// Every byte of the image of a seeded render is the channel of the pixel
/// that it belongs to.
pub proof fn lemma_image_bytes(
    world: World,
    camera: Camera,
    width: nat,
    height: nat,
    samples: nat,
    seed: u64,
    k: nat,
)
    requires
        k < width * height,
        3 * (width * height) <= usize::MAX,
    ensures
        image(world, camera, width, height, samples, seed).len() == 3 * (width * height),
        holds(
            image(world, camera, width, height, samples, seed),
            message(world, camera, width, height, samples, seed, k),
        ),
        message(world, camera, width, height, samples, seed, k).index == 3 * k,
{
    lemma_image_length(world, camera, width, height, samples, seed);
    let all = in_order(world, camera, width, height, samples, seed, width * height);
    assert(all[k as int] == message(world, camera, width, height, samples, seed, k));
    lemma_message_index(world, camera, width, height, samples, seed, k);
}

/// The finished pixels with the given numbers fit the buffer, and two of
/// them are the same pixel or do not share a byte.
pub proof fn lemma_distinct(
    world: World,
    camera: Camera,
    width: nat,
    height: nat,
    samples: nat,
    seed: u64,
    numbers: Seq<nat>,
)
    requires
        3 * (width * height) <= usize::MAX,
        forall|i: int| 0 <= i < numbers.len() ==> numbers[i] < width * height,
    ensures
        ({
            let arrivals = numbers.map(
                |i: int, k: nat| message(world, camera, width, height, samples, seed, k),
            );
            &&& forall|i: int|
                0 <= i < arrivals.len() ==> (#[trigger] arrivals[i]).index + 3 <= 3 * (width * height)
            &&& forall|i: int, j: int|
                0 <= i < arrivals.len() && 0 <= j < arrivals.len() ==> #[trigger] arrivals[i]
                    == #[trigger] arrivals[j] || arrivals[i].index + 3 <= arrivals[j].index
                    || arrivals[j].index + 3 <= arrivals[i].index
        }),
{
    let arrivals = numbers.map(
        |i: int, k: nat| message(world, camera, width, height, samples, seed, k),
    );
    assert forall|i: int| 0 <= i < arrivals.len() implies (#[trigger] arrivals[i]).index == 3
        * numbers[i] by {
        lemma_message_index(world, camera, width, height, samples, seed, numbers[i]);
    }
    assert forall|i: int, j: int| 0 <= i < arrivals.len() && 0 <= j < arrivals.len() implies
        #[trigger] arrivals[i] == #[trigger] arrivals[j] || arrivals[i].index + 3 <= arrivals[j].index
        || arrivals[j].index + 3 <= arrivals[i].index by {
        assert(arrivals[i].index == 3 * numbers[i]);
        assert(arrivals[j].index == 3 * numbers[j]);
        if numbers[i] == numbers[j] {
            assert(arrivals[i] == arrivals[j]);
        }
    }
}

/// The order in which the finished pixels arrive does not matter: once every
/// pixel has arrived, be it more than once, the buffer is the image.
pub proof fn lemma_any_order(
    world: World,
    camera: Camera,
    width: nat,
    height: nat,
    samples: nat,
    seed: u64,
    numbers: Seq<nat>,
)
    requires
        3 * (width * height) <= usize::MAX,
        forall|i: int| 0 <= i < numbers.len() ==> numbers[i] < width * height,
        forall|k: nat| k < width * height ==> numbers.contains(k),
    ensures
        assembled(
            blank(width, height),
            numbers.map(|i: int, k: nat| message(world, camera, width, height, samples, seed, k)),
        ) == image(world, camera, width, height, samples, seed),
{
    let arrivals = numbers.map(
        |i: int, k: nat| message(world, camera, width, height, samples, seed, k),
    );
    let a = assembled(blank(width, height), arrivals);
    let b = image(world, camera, width, height, samples, seed);
    lemma_distinct(world, camera, width, height, samples, seed, numbers);
    lemma_assembled_holds(blank(width, height), arrivals);
    lemma_image_length(world, camera, width, height, samples, seed);
    assert forall|p: int| 0 <= p < a.len() implies a[p] == b[p] by {
        let k = (p / 3) as nat;
        assert(k < width * height);
        lemma_image_bytes(world, camera, width, height, samples, seed, k);
        let pm = message(world, camera, width, height, samples, seed, k);
        assert(numbers.contains(k));
        let i = choose|i: int| 0 <= i < numbers.len() && numbers[i] == k;
        assert(arrivals[i] == pm);
        assert(holds(a, arrivals[i]));
        assert(p == 3 * k || p == 3 * k + 1 || p == 3 * k + 2);
    }
    assert(a =~= b);
}

/// The job of one pixel of a seeded render. The pixel's random numbers come
/// from a sampler of its own, so jobs can run in any order and at the same
/// time.
pub fn pixel_job(
    x: usize,
    y: usize,
    width: usize,
    height: usize,
    samples: u32,
    seed: u64,
    camera: &Camera,
    world: &World,
) -> (pm: PixelMessage)
    requires
        world.well_formed(),
        x < width,
        y < height,
        3 * (width * height) <= usize::MAX,
    ensures
        pm == message(
            *world,
            *camera,
            width as nat,
            height as nat,
            samples as nat,
            seed,
            (y * width + x) as nat,
        ),
        pm.index == offset(x as nat, y as nat, width as nat),
        pm.index + 3 <= 3 * (width * height),
{
    reveal(message);
    proof {
        lemma_offset_fits(x as nat, y as nat, width as nat, height as nat);
        vstd::arithmetic::div_mod::lemma_fundamental_div_mod_converse(
            (y * width + x) as int,
            width as int,
            y as int,
            x as int,
        );
        assert(y * width >= 0) by (nonlinear_arith)
            requires
                y >= 0,
                width >= 0,
        ;
    }
    let k: usize = y * width + x;
    let mut sampler: Sampler = Sampler::seeded(seed, k as u64);
    sample_pixel(x, y, width, height, samples, camera, world, &mut sampler)
}

/// Renders a whole image, pixel after pixel. The result depends on nothing
/// but the arguments: the same world, camera, size, sample count and seed
/// give the same bytes.
pub fn render(
    world: &World,
    camera: &Camera,
    width: usize,
    height: usize,
    samples: u32,
    seed: u64,
) -> (data: Vec<u8>)
    requires
        world.well_formed(),
        3 * (width * height) <= usize::MAX,
    ensures
        data@ == image(*world, *camera, width as nat, height as nat, samples as nat, seed),
        data@.len() == 3 * (width * height),
{
    proof {
        assert(width * height >= 0) by (nonlinear_arith)
            requires
                width >= 0,
                height >= 0,
        ;
    }
    let mut data: Vec<u8> = zeroed(width, height);
    let ghost w = width as nat;
    let ghost h = height as nat;
    let ghost n = samples as nat;
    assert(in_order(*world, *camera, w, h, n, seed, 0) =~= Seq::empty());
    let mut y: usize = 0;
    while y < height
        invariant
            y <= height,
            w == width,
            h == height,
            n == samples,
            world.well_formed(),
            3 * (width * height) <= usize::MAX,
            data@.len() == 3 * (width * height),
            data@ == assembled(
                blank(w, h),
                in_order(*world, *camera, w, h, n, seed, (y * width) as nat),
            ),
        decreases height - y,
    {
        let mut x: usize = 0;
        while x < width
            invariant
                x <= width,
                y < height,
                w == width,
                h == height,
                n == samples,
                world.well_formed(),
                3 * (width * height) <= usize::MAX,
                data@.len() == 3 * (width * height),
                data@ == assembled(
                    blank(w, h),
                    in_order(*world, *camera, w, h, n, seed, (y * width + x) as nat),
                ),
            decreases width - x,
        {
            let pm: PixelMessage = pixel_job(x, y, width, height, samples, seed, camera, world);
            proof {
                let k = (y * width + x) as nat;
                let next = in_order(*world, *camera, w, h, n, seed, k + 1);
                assert(next.drop_last() =~= in_order(*world, *camera, w, h, n, seed, k));
                assert(next.last() == pm);
            }
            store(&mut data, pm);
            x = x + 1;
        }
        proof {
            assert((y + 1) * width == y * width + width) by (nonlinear_arith);
        }
        y = y + 1;
    }
    proof {
        assert(height * width == width * height) by (nonlinear_arith);
    }
    data
}

} // verus!
