use pathtracer::scalar::Scalar;

fn s(x: f32) -> Scalar {
    Scalar::from_bits(x.to_bits())
}

fn agree(got: Scalar, want: f32) -> bool {
    (f32::from_bits(got.to_bits()).is_nan() && want.is_nan()) || got.to_bits() == want.to_bits()
}

struct Lcg(u64);

impl Lcg {
    fn next(&mut self) -> u32 {
        self.0 = self.0.wrapping_mul(6364136223846793005).wrapping_add(1442695040888963407);
        (self.0 >> 32) as u32
    }

    fn pattern(&mut self) -> u32 {
        let specials = [
            0u32, 0x8000_0000, 0x7f80_0000, 0xff80_0000, 0x7fc0_0000, 1, 0x7f7f_ffff,
            0x0080_0000, 0x007f_ffff, 0x3f80_0000, 0x8000_0001, 0x3f00_0000, 0x4000_0000,
        ];
        match self.next() % 10 {
            0 => specials[(self.next() % 13) as usize],
            1 | 2 => self.next(),
            3 | 4 => (self.next() & 0x8000_0000) | (self.next() & 0x00ff_ffff),
            _ => (self.next() & 0x8000_0000) | ((100 + self.next() % 61) << 23) | (self.next() & 0x007f_ffff),
        }
    }
}

#[test]
fn product_matches_hardware() {
    let mut g = Lcg(1);
    for _ in 0..200000 {
        let a = g.pattern();
        let b = g.pattern();
        let want = f32::from_bits(a) * f32::from_bits(b);
        let got = Scalar::from_bits(a).mul(Scalar::from_bits(b));
        assert!(agree(got, want), "{:#x} * {:#x}: got {:#x}, want {:#x}", a, b, got.to_bits(), want.to_bits());
    }
}

#[test]
fn product_of_small_numbers() {
    assert_eq!(s(1.5).mul(s(2.0)), s(3.0));
    assert_eq!(s(-0.5).mul(s(0.5)), s(-0.25));
    assert_eq!(s(0.0).mul(s(-3.0)).to_bits(), 0x8000_0000);
}

#[test]
fn sum_matches_hardware() {
    let mut g = Lcg(2);
    for i in 0..200000 {
        let a = g.pattern();
        let mut b = g.pattern();
        if i % 5 == 0 {
            b = a.wrapping_add(g.next() % 7).wrapping_sub(3) ^ (g.next() & 0x8000_0000);
        }
        let want = f32::from_bits(a) + f32::from_bits(b);
        let got = Scalar::from_bits(a).add(Scalar::from_bits(b));
        assert!(agree(got, want), "{:#x} + {:#x}: got {:#x}, want {:#x}", a, b, got.to_bits(), want.to_bits());
    }
}

#[test]
fn difference_matches_hardware() {
    let mut g = Lcg(3);
    for i in 0..200000 {
        let a = g.pattern();
        let mut b = g.pattern();
        if i % 5 == 0 {
            b = a.wrapping_add(g.next() % 7).wrapping_sub(3) ^ (g.next() & 0x8000_0000);
        }
        let want = f32::from_bits(a) - f32::from_bits(b);
        let got = Scalar::from_bits(a).sub(Scalar::from_bits(b));
        assert!(agree(got, want), "{:#x} - {:#x}: got {:#x}, want {:#x}", a, b, got.to_bits(), want.to_bits());
    }
}

#[test]
fn quotient_matches_hardware() {
    let mut g = Lcg(4);
    for _ in 0..200000 {
        let a = g.pattern();
        let b = g.pattern();
        let want = f32::from_bits(a) / f32::from_bits(b);
        let got = Scalar::from_bits(a).div(Scalar::from_bits(b));
        assert!(agree(got, want), "{:#x} / {:#x}: got {:#x}, want {:#x}", a, b, got.to_bits(), want.to_bits());
    }
}

#[test]
fn root_matches_hardware() {
    let mut g = Lcg(5);
    for _ in 0..200000 {
        let a = g.pattern();
        let want = f32::from_bits(a).sqrt();
        let got = Scalar::from_bits(a).sqrt();
        assert!(agree(got, want), "sqrt {:#x}: got {:#x}, want {:#x}", a, got.to_bits(), want.to_bits());
    }
    assert_eq!(s(-0.0).sqrt().to_bits(), 0x8000_0000);
    assert_eq!(s(4.0).sqrt(), s(2.0));
    assert_eq!(s(2.0).sqrt(), s(1.4142135));
}

#[test]
fn order_matches_hardware() {
    let mut g = Lcg(6);
    for i in 0..200000 {
        let a = g.pattern();
        let mut b = g.pattern();
        if i % 4 == 0 {
            b = a.wrapping_add(g.next() % 3).wrapping_sub(1);
        }
        let (x, y) = (f32::from_bits(a), f32::from_bits(b));
        assert_eq!(Scalar::from_bits(a).lt(Scalar::from_bits(b)), x < y, "{:#x} < {:#x}", a, b);
        assert_eq!(Scalar::from_bits(a).gt(Scalar::from_bits(b)), x > y, "{:#x} > {:#x}", a, b);
        assert_eq!(Scalar::from_bits(a).eq_number(Scalar::from_bits(b)), x == y, "{:#x} == {:#x}", a, b);
    }
    assert!(s(0.0).eq_number(s(-0.0)));
    assert!(!s(f32::NAN).eq_number(s(f32::NAN)));
    assert!(s(1.5).eq_number(s(1.5)));
    assert!(!s(0.0).lt(s(-0.0)));
    assert!(!s(-0.0).lt(s(0.0)));
    assert!(!s(f32::NAN).lt(s(1.0)));
}

#[test]
fn integers_convert_as_hardware() {
    let mut g = Lcg(7);
    for _ in 0..200000 {
        let bits = 1 + g.next() % 64;
        let v = (((g.next() as u64) << 32) | g.next() as u64) >> (64 - bits);
        assert_eq!(Scalar::from_u64(v), s(v as f32), "{}", v);
    }
    for v in [0u64, 1, 2, 3, 2560, 1440, 64, (1 << 24) - 1, 1 << 24, (1 << 24) + 1, (1 << 24) + 3, u64::MAX] {
        assert_eq!(Scalar::from_u64(v), s(v as f32), "{}", v);
    }
}

#[test]
fn bytes_truncate_as_hardware() {
    let mut g = Lcg(8);
    for _ in 0..200000 {
        let a = g.pattern();
        assert_eq!(Scalar::from_bits(a).to_byte(), f32::from_bits(a) as u8, "{:#x}", a);
    }
    for x in [0.0f32, 0.99, 1.0, 1.5, 254.99, 255.0, 255.5, 255.99, 256.0, 1e9, -1.0, f32::INFINITY, f32::NAN] {
        assert_eq!(s(x).to_byte(), x as u8, "{}", x);
    }
    assert_eq!(s(0.5).mul(s(255.99)).to_byte(), 127);
}

#[test]
fn words_become_fractions_of_one() {
    let mut g = Lcg(9);
    for _ in 0..200000 {
        let w = g.next();
        let want = f32::from_bits(0x3f80_0000 | (w & 0x007f_ffff)) - 1.0;
        assert_eq!(Scalar::from_word(w), s(want), "{:#x}", w);
        assert!(want >= 0.0 && want < 1.0);
    }
    assert_eq!(Scalar::from_word(0), s(0.0));
    assert_eq!(Scalar::from_word(0x0040_0000), s(0.5));
}

#[test]
fn negation_flips_the_sign_bit() {
    assert_eq!(s(1.5).neg(), s(-1.5));
    assert_eq!(s(-0.0).neg().to_bits(), 0);
    assert_eq!(s(0.0).neg().to_bits(), 0x8000_0000);
    assert_eq!(s(f32::INFINITY).neg(), s(f32::NEG_INFINITY));
    let mut g = Lcg(10);
    for _ in 0..1000 {
        let a = g.pattern();
        assert_eq!(Scalar::from_bits(a).neg().to_bits(), a ^ 0x8000_0000);
    }
}

#[test]
fn constants_are_what_they_say() {
    assert_eq!(Scalar::zero(), s(0.0));
    assert_eq!(Scalar::half(), s(0.5));
    assert_eq!(Scalar::one(), s(1.0));
    assert_eq!(Scalar::two(), s(2.0));
    assert!(f32::from_bits(Scalar::nan().to_bits()).is_nan());
    assert_eq!(Scalar::with_sign(true, 0x3f80_0000), s(-1.0));
    assert_eq!(Scalar::with_sign(false, 0x3f80_0000), s(1.0));
    assert_eq!(s(-2.5).magnitude_bits(), 2.5f32.to_bits());
    assert!(s(-2.5).sign());
    assert!(!s(2.5).sign());
}

#[test]
fn numbers_decode_into_significand_and_exponent() {
    assert_eq!(s(1.0).decode(), (0x80_0000, 126));
    assert_eq!(s(-1.5).decode(), (0xc0_0000, 126));
    assert_eq!(Scalar::from_bits(1).decode(), (1, 0));
    assert_eq!(Scalar::from_bits(0x007f_ffff).decode(), (0x7f_ffff, 0));
    assert_eq!(Scalar::from_bits(0x0080_0000).decode(), (0x80_0000, 0));
    assert_eq!(Scalar::from_bits(0x0100_0000).decode(), (0x80_0000, 1));
    assert_eq!(s(f32::MAX).decode(), (0xff_ffff, 253));
    assert_eq!(s(0.0).decode(), (0, 0));
}

#[test]
fn sums_of_small_numbers() {
    assert_eq!(s(1.5).add(s(2.25)), s(3.75));
    assert_eq!(s(1.0).sub(s(1.0)).to_bits(), 0);
    assert_eq!(s(-1.0).add(s(1.0)).to_bits(), 0);
    assert_eq!(s(-0.0).add(s(-0.0)).to_bits(), 0x8000_0000);
    assert_eq!(s(0.1).add(s(0.2)), s(0.1f32 + 0.2f32));
    assert_eq!(s(0.1).add(s(0.2)).to_bits(), 0x3e99_999a);
    assert_eq!(s(1.0).add(s(1e-10)), s(1.0));
    assert_eq!(s(1.0).sub(s(1e-10)), s(1.0));
    assert_eq!(s(16777216.0).add(s(1.0)), s(16777216.0));
    assert_eq!(s(16777216.0).add(s(3.0)), s(16777220.0));
    assert_eq!(s(7.0).div(s(2.0)), s(3.5));
    assert_eq!(s(1.0).div(s(3.0)), s(0.33333334));
    assert_eq!(s(1.0).div(s(0.0)), s(f32::INFINITY));
    assert_eq!(s(-1.0).div(s(0.0)), s(f32::NEG_INFINITY));
    assert!(f32::from_bits(s(0.0).div(s(0.0)).to_bits()).is_nan());
}
