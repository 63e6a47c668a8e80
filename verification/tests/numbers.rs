use omastorm::ieee::{Double, Single};

fn d(x: f64) -> Double {
    Double { bits: x.to_bits() }
}

fn s(x: f32) -> Single {
    Single { bits: x.to_bits() }
}

/// A row of patterns that reaches all over the range.
fn patterns() -> Vec<u64> {
    let mut list = vec![
        0, 1, 2, 3, 0x000f_ffff_ffff_ffff, 0x0010_0000_0000_0000, 0x7fef_ffff_ffff_ffff,
        0x7ff0_0000_0000_0000, 0x7ff8_0000_0000_0000, 0x3ff0_0000_0000_0000, 0x41df_ffff_ffc0_0000,
        0x43e0_0000_0000_0000, 0x43df_ffff_ffff_ffff, 0x3fa9_9999_9999_999a, 0x3fb9_9999_9999_999a,
    ];
    let mut x: u64 = 0x9e37_79b9_7f4a_7c15;
    for _ in 0..400 {
        x ^= x << 13;
        x ^= x >> 7;
        x ^= x << 17;
        list.push(x);
        list.push((x & 0x000f_ffff_ffff_ffff) | 0x4050_0000_0000_0000);
    }
    let negative: Vec<u64> = list.iter().map(|b| b ^ 0x8000_0000_0000_0000).collect();
    list.extend(negative);
    list
}

#[test]
fn comparisons_are_those_of_the_numbers() {
    let list: Vec<u64> = patterns().into_iter().step_by(7).collect();
    for &a in &list {
        for &b in &list {
            let (x, y) = (f64::from_bits(a), f64::from_bits(b));
            let (p, q) = (d(x), d(y));
            assert_eq!(p.less(q), x < y);
            assert_eq!(p.less_or_same(q), x <= y);
            assert_eq!(p == q, x == y);
            assert_eq!(
                Double { bits: a }.total_rank() < Double { bits: b }.total_rank(),
                x.total_cmp(&y).is_lt()
            );
        }
    }
}

#[test]
fn whole_numbers_and_tenths_are_those_of_the_casts() {
    for bits in patterns() {
        let x = f64::from_bits(bits);
        assert_eq!(Double { bits }.to_whole(), x as i64, "{x}");
        assert_eq!(Double { bits }.to_tenths(), (x * 10.0).round() as i32, "{x}");
        assert_eq!(Double { bits }.nan(), x.is_nan());
    }
    for x in [0.05, 0.15, 0.25, -0.05, -97.27748, 35.33306, 35.35, 1e9, -1e9, 214748364.75] {
        assert_eq!(d(x).to_tenths(), (x * 10.0).round() as i32, "{x}");
    }
    assert_eq!(d(35.33306).to_tenths(), 353);
    assert_eq!(d(-97.27748).to_tenths(), -973);
    assert_eq!(d(-1.9).to_whole(), -1);
}

#[test]
fn singles_widen_halve_and_compare_exactly() {
    let list: Vec<u32> = patterns()
        .into_iter()
        .step_by(5)
        .flat_map(|b| [(b >> 32) as u32, b as u32])
        .chain([0, 1, 2, 3, 0x007f_ffff, 0x0080_0000, 0x00ff_ffff, 0x7f80_0000, 0x7fc0_0000])
        .collect();
    for &a in &list {
        let x = f32::from_bits(a);
        let p = Single { bits: a };
        assert_eq!(p.nan(), x.is_nan());
        assert_eq!(p.finite(), x.is_finite());
        if !x.is_nan() {
            assert_eq!(p.widen().bits, (x as f64).to_bits());
            assert_eq!(p.half().bits, (x / 2.0).to_bits(), "{x}");
        }
        for &b in list.iter().step_by(11) {
            let y = f32::from_bits(b);
            let q = Single { bits: b };
            assert_eq!(p.less_or_same(q), x <= y);
            assert_eq!(p.close_to(q), (x - y).abs() < 1.0, "{x} {y}");
        }
    }
    for (x, y) in [(1.0f32, 0.0), (0.999_999_94, 0.0), (16_777_216.0, 16_777_215.0), (-0.5, 0.5)] {
        assert_eq!(s(x).close_to(s(y)), (x - y).abs() < 1.0);
    }
}

#[test]
fn tolerances_are_those_of_the_rounded_difference() {
    for (center, tolerance) in [(55.0, 1e-6), (10.0, 1e-6), (1_950_000.0, 1e-3), (-2_100_000.0, 1e-3), (1000.0, 1e-6), (-1000.0, 1e-6)]
    {
        let c: f64 = center;
        let mut near: Vec<f64> = vec![c, 0.0, -c, f64::NAN, f64::INFINITY, f64::MAX, 1e-320];
        for k in -40i64..40 {
            near.push(c + tolerance * k as f64 / 20.0);
            let edge = (c + tolerance).to_bits() as i64;
            near.push(f64::from_bits((edge + k) as u64));
            let edge = (c - tolerance).to_bits() as i64;
            near.push(f64::from_bits((edge + k) as u64));
        }
        for x in near {
            assert_eq!(d(x).away_from(d(c), d(tolerance)), (x - c).abs() > tolerance, "{x} {c}");
        }
    }
}
