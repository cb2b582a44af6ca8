use cgmath::Vector3;
use pathtracer::geometry::{Ray, Sphere};
use pathtracer::materials::Lambertian;
use pathtracer::pipeline::{
    gamma, pixel_index, pixel_job, render, sample_pixel, store, to_channel, zeroed, Aggregator,
    Camera, PixelMessage, Progress,
};
use pathtracer::sampler::Sampler;
use pathtracer::scalar::Scalar;
use pathtracer::scene::{Shape, Surface, World};
use pathtracer::tracer::{gradient_color, search, trace};

fn sc(x: f32) -> Scalar {
    Scalar::from_bits(x.to_bits())
}

fn fl(s: Scalar) -> f32 {
    f32::from_bits(s.to_bits())
}

fn vec(v: Vector3<f32>) -> pathtracer::vector::Vector3 {
    pathtracer::vector::Vector3::new(sc(v.x), sc(v.y), sc(v.z))
}

fn cg(v: pathtracer::vector::Vector3) -> Vector3<f32> {
    Vector3::new(fl(v.x), fl(v.y), fl(v.z))
}

fn unit(v: Vector3<f32>) -> Vector3<f32> {
    let euclidian_length = (v.x * v.x + v.y * v.y + v.z * v.z).sqrt();
    Vector3::new(v.x / euclidian_length, v.y / euclidian_length, v.z / euclidian_length)
}

fn scene() -> World {
    World::new(
        vec![
            Shape::Sphere(Sphere::new(vec(Vector3::new(0.0, 0.0, -1.0)), sc(0.5), 0)),
            Shape::Sphere(Sphere::new(vec(Vector3::new(0.0, -100.5, -1.0)), sc(100.0), 0)),
        ],
        vec![Surface::Lambertian(Lambertian::new())],
    )
}

#[test]
fn camera_rays_follow_the_basis() {
    let camera = Camera::standard();
    assert_eq!(cg(camera.origin), Vector3::new(0.0, 0.0, 0.0));
    assert_eq!(cg(camera.lower_left), Vector3::new(-2.0, -1.0, -1.0));
    assert_eq!(cg(camera.horizontal), Vector3::new(4.0, 0.0, 0.0));
    assert_eq!(cg(camera.vertical), Vector3::new(0.0, 2.0, 0.0));
    let (width, height) = (2560usize, 1440usize);
    for (x, y, ju, jv) in [(0usize, 0usize, 0.0f32, 0.0f32), (1280, 720, 0.5, 0.5), (2559, 1439, 0.999, 0.001), (17, 1000, 0.25, 0.75)] {
        let u: f32 = (x as f32 + ju) / width as f32;
        let v: f32 = ((height - y) as f32 + jv) / height as f32;
        let want = unit(Vector3::new(-2.0, -1.0, -1.0) + ((u * Vector3::new(4.0, 0.0, 0.0)) + (v * Vector3::new(0.0, 2.0, 0.0))));
        let r = camera.ray(x, y, width, height, sc(ju), sc(jv));
        assert_eq!(cg(*r.origin()), Vector3::new(0.0, 0.0, 0.0));
        assert_eq!(cg(*r.direction()), want);
    }
    // Row 0 is the top of the image.
    let top = camera.ray(5, 0, 10, 10, sc(0.0), sc(0.0));
    let bottom = camera.ray(5, 9, 10, 10, sc(0.0), sc(0.0));
    assert!(fl(top.direction().y) > fl(bottom.direction().y));
}

#[test]
fn gamma_is_the_square_root() {
    let c = gamma(vec(Vector3::new(0.25, 0.5, 1.0)));
    assert_eq!(cg(c), Vector3::new(0.5, 0.5f32.sqrt(), 1.0));
    assert_eq!(fl(c.y), 0.70710677);
    let mut x = 0.0f32;
    while x <= 1.0 {
        let got = fl(gamma(vec(Vector3::new(x, x, x))).x);
        assert_eq!(got, x.sqrt());
        assert_eq!(got, f32::powf(x, 1.0 / 2.0));
        x += 0.001;
    }
}

#[test]
fn pixel_indices_count_three_bytes_a_pixel_row_by_row() {
    assert_eq!(pixel_index(0, 0, 2560), 0);
    assert_eq!(pixel_index(1, 0, 2560), 3);
    assert_eq!(pixel_index(0, 1, 2560), 7680);
    assert_eq!(pixel_index(2559, 1439, 2560), 3 * 2560 * 1440 - 3);
    assert_eq!(pixel_index(7, 3, 20), (3 * 20 + 7) * 3);
}

#[test]
fn channels_become_bytes() {
    assert_eq!(to_channel(sc(0.0)), 0);
    assert_eq!(to_channel(sc(1.0)), 255);
    assert_eq!(to_channel(sc(0.5)), 127);
    assert_eq!(to_channel(sc(0.999)), (0.999f32 * 255.99) as u8);
    assert_eq!(to_channel(sc(2.0)), 255);
    assert_eq!(to_channel(sc(-0.5)), 0);
    assert_eq!(to_channel(sc(f32::NAN)), 0);
    let mut x = 0.0f32;
    while x <= 1.0 {
        assert_eq!(to_channel(sc(x)), (x * 255.99) as u8);
        x += 0.0007;
    }
}

#[test]
fn store_writes_three_bytes_and_leaves_the_rest() {
    let mut data = vec![9u8; 12];
    let pm = PixelMessage { color: vec(Vector3::new(0.0, 0.5, 1.0)), index: 3 };
    store(&mut data, pm);
    assert_eq!(data, vec![9, 9, 9, 0, 127, 255, 9, 9, 9, 9, 9, 9]);
    store(&mut data, PixelMessage { color: vec(Vector3::new(1.0, 1.0, 0.25)), index: 9 });
    assert_eq!(data, vec![9, 9, 9, 0, 127, 255, 9, 9, 9, 255, 255, 63]);
}

#[test]
fn store_order_does_not_matter() {
    let a = PixelMessage { color: vec(Vector3::new(0.1, 0.2, 0.3)), index: 0 };
    let b = PixelMessage { color: vec(Vector3::new(0.4, 0.5, 0.6)), index: 3 };
    let c = PixelMessage { color: vec(Vector3::new(0.7, 0.8, 0.9)), index: 6 };
    let mut first = vec![0u8; 9];
    for pm in [a, b, c] {
        store(&mut first, pm);
    }
    let mut second = vec![0u8; 9];
    for pm in [c, a, b, a] {
        store(&mut second, pm);
    }
    assert_eq!(first, second);
}

#[test]
fn pixel_is_the_corrected_mean_of_its_samples() {
    let world = scene();
    let camera = Camera::standard();
    let (width, height, samples) = (20usize, 10usize, 5u32);
    for (x, y) in [(0usize, 0usize), (10, 5), (19, 9), (3, 8)] {
        let mut sampler = Sampler::seeded(77, 1);
        let mut by_hand = sampler;
        let pm = sample_pixel(x, y, width, height, samples, &camera, &world, &mut sampler);
        let mut color = Vector3::new(0.0f32, 0.0, 0.0);
        for _ in 0..samples {
            let ju = by_hand.next_unit();
            let jv = by_hand.next_unit();
            let r = camera.ray(x, y, width, height, ju, jv);
            color += cg(trace(r, &world, 0, &mut by_hand));
        }
        color /= samples as f32;
        assert_eq!(cg(pm.color), Vector3::new(color.x.sqrt(), color.y.sqrt(), color.z.sqrt()));
        assert_eq!(pm.index, (y * width + x) * 3);
        assert_eq!(sampler, by_hand);
    }
}

#[test]
fn render_of_two_spheres() {
    let world = scene();
    assert!(world.check());
    let camera = Camera::standard();
    let (width, height, seed) = (20usize, 10usize, 2024u64);
    let data = render(&world, &camera, width, height, 1, seed);
    assert_eq!(data.len(), 3 * width * height);
    let mut covered = 0;
    let mut open = 0;
    for y in 0..height {
        for x in 0..width {
            let k = y * width + x;
            let mut sampler = Sampler::seeded(seed, k as u64);
            let ju = sampler.next_unit();
            let jv = sampler.next_unit();
            let r: Ray = camera.ray(x, y, width, height, ju, jv);
            let sky = gamma(gradient_color(r).div(sc(1.0)));
            let pm = pixel_job(x, y, width, height, 1, seed, &camera, &world);
            let bytes = &data[3 * k..3 * k + 3];
            assert_eq!(bytes, [to_channel(pm.color.x), to_channel(pm.color.y), to_channel(pm.color.z)]);
            if search(r, &world).is_hit {
                covered += 1;
                let (c, s) = (cg(pm.color), cg(sky));
                assert!(c.x < s.x && c.y < s.y && c.z < s.z, "pixel {} {}", x, y);
                assert!(c.x > 0.0 && c.y > 0.0 && c.z > 0.0, "pixel {} {}", x, y);
                assert!(bytes != [0, 0, 0]);
            } else {
                open += 1;
                assert_eq!(pm.color, sky);
                assert_eq!(bytes, [to_channel(sky.x), to_channel(sky.y), to_channel(sky.z)]);
            }
        }
    }
    assert!(covered > 50 && open > 50);
}

#[test]
fn render_is_repeatable() {
    let world = scene();
    let camera = Camera::standard();
    let first = render(&world, &camera, 20, 10, 2, 7);
    let second = render(&world, &camera, 20, 10, 2, 7);
    assert_eq!(first, second);
    let other = render(&world, &camera, 20, 10, 2, 8);
    assert_ne!(first, other);
}

#[test]
fn render_is_the_store_of_its_pixel_jobs_in_any_order() {
    let world = scene();
    let camera = Camera::standard();
    let (width, height, samples, seed) = (12usize, 6usize, 2u32, 99u64);
    let image = render(&world, &camera, width, height, samples, seed);
    let mut data = vec![0u8; 3 * width * height];
    for y in (0..height).rev() {
        for x in (0..width).rev() {
            store(&mut data, pixel_job(x, y, width, height, samples, seed, &camera, &world));
        }
    }
    assert_eq!(data, image);
}

#[test]
fn render_of_nothing() {
    let world = scene();
    let camera = Camera::standard();
    assert_eq!(render(&world, &camera, 0, 10, 1, 0), Vec::<u8>::new());
    assert_eq!(render(&world, &camera, 10, 0, 1, 0), Vec::<u8>::new());
    let empty = World::new(vec![], vec![]);
    let data = render(&empty, &camera, 4, 2, 3, 0);
    assert_eq!(data.len(), 24);
    assert!(data.iter().all(|b| *b >= 127));
}

#[test]
fn aggregator_collects_an_image_in_any_order() {
    let world = scene();
    let camera = Camera::standard();
    let (width, height, samples, seed) = (8usize, 4usize, 1u32, 5u64);
    let image = render(&world, &camera, width, height, samples, seed);
    let mut aggregator = Aggregator::new(width, height);
    assert!(!aggregator.is_complete());
    let mut order: Vec<usize> = (0..width * height).collect();
    order.reverse();
    order.swap(3, 17);
    order.swap(0, 30);
    let mut arrived = 0;
    for k in order {
        let pm = pixel_job(k % width, k / width, width, height, samples, seed, &camera, &world);
        assert!(aggregator.fits(&pm));
        let progress = aggregator.accept(pm);
        arrived += 1;
        assert_eq!(progress.done, arrived == width * height);
        assert_eq!(progress.done, aggregator.is_complete());
        assert_eq!(progress.tick, arrived == 1);
    }
    assert_eq!(aggregator.into_image(), image);
}

#[test]
fn aggregator_ticks_every_thousand_pixels() {
    let mut aggregator = Aggregator::new(50, 50);
    let pm = PixelMessage { color: vec(Vector3::new(0.5, 0.5, 0.5)), index: 0 };
    let mut ticks = Vec::new();
    for i in 0..2500 {
        let progress = aggregator.accept(pm);
        if progress.tick {
            ticks.push(i);
        }
        assert_eq!(progress, Progress { tick: i % 1000 == 0, done: i == 2499 });
    }
    assert_eq!(ticks, vec![0, 1000, 2000]);
    assert!(aggregator.is_complete());
    let data = aggregator.into_image();
    assert_eq!(data.len(), 7500);
    assert_eq!(&data[..4], [127, 127, 127, 0]);
}

#[test]
fn aggregator_knows_what_fits() {
    let aggregator = Aggregator::new(2, 2);
    let at = |index: usize| PixelMessage { color: vec(Vector3::new(0.0, 0.0, 0.0)), index };
    assert!(aggregator.fits(&at(0)));
    assert!(aggregator.fits(&at(9)));
    assert!(!aggregator.fits(&at(10)));
    assert!(!aggregator.fits(&at(12)));
    assert!(!aggregator.fits(&at(usize::MAX)));
    let nothing = Aggregator::new(0, 7);
    assert!(nothing.is_complete());
    assert_eq!(nothing.into_image(), Vec::<u8>::new());
}

#[test]
fn zeroed_buffers_have_three_bytes_a_pixel() {
    assert_eq!(zeroed(4, 3), vec![0u8; 36]);
    assert_eq!(zeroed(0, 3), Vec::<u8>::new());
    assert_eq!(zeroed(1, 1), vec![0u8, 0, 0]);
}
