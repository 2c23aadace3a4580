use tickpack::float::{grid_bits, grid_mantissa, scale_to_i64};
use tickpack::gen::Rng;
use tickpack::price::exact_mantissa;

const POW10: [f64; 13] = [
    1e0, 1e1, 1e2, 1e3, 1e4, 1e5, 1e6, 1e7, 1e8, 1e9, 1e10, 1e11, 1e12,
];

/// The same in the doubles of the machine.
fn hardware_mantissa(v: f64, scale: u32) -> Option<i64> {
    let p = POW10[scale as usize];
    let r = (v * p).round();
    if !(i64::MIN as f64..-(i64::MIN as f64)).contains(&r) {
        return None;
    }
    let m = r as i64;
    ((m as f64 / p).to_bits() == v.to_bits()).then_some(m)
}

fn check(v: f64) {
    for k in 0..13u32 {
        assert_eq!(
            grid_mantissa(v.to_bits(), k),
            hardware_mantissa(v, k),
            "{v:?} ({:#x}) at {k}",
            v.to_bits()
        );
        assert_eq!(
            scale_to_i64(v.to_bits(), k),
            (v * POW10[k as usize]).round() as i64,
            "{v:?} at {k}"
        );
    }
}

#[test]
fn division_rounds_as_the_machine_does() {
    let mut rng = Rng::new(11);
    for i in 0..40_000u64 {
        let m = (rng.next_u64() >> (i % 64)) as i64;
        let m = if i % 3 == 0 { m.wrapping_neg() } else { m };
        let k = (rng.next_u64() % 13) as u32;
        assert_eq!(
            grid_bits(m, k),
            (m as f64 / POW10[k as usize]).to_bits(),
            "{m} at {k}"
        );
    }
    for m in [0, 1, -1, 3, i64::MAX, i64::MIN, i64::MAX - 512, (1 << 53) + 1, (1 << 54) + 2] {
        for k in 0..13u32 {
            assert_eq!(grid_bits(m, k), (m as f64 / POW10[k as usize]).to_bits());
        }
    }
}

#[test]
fn mantissas_are_those_of_the_machine() {
    let mut rng = Rng::new(12);
    for i in 0..4_000u64 {
        // Any pattern, and patterns with exponents near those of prices.
        let any = rng.next_u64();
        check(f64::from_bits(any));
        let near = (any >> 12) | ((1000 + i % 90) << 52) | (any & (1 << 63));
        check(f64::from_bits(near));
        let m = (any >> (i % 60)) as i64;
        check(m as f64 / POW10[(any % 13) as usize]);
        check(m as f64 / POW10[(any % 13) as usize] * 1.0000000000000002);
    }
}

#[test]
fn mantissas_at_the_edges() {
    for v in [
        0.0,
        -0.0,
        0.5,
        -0.5,
        1.5,
        2.5,
        0.49999999999999994,
        4503599627370495.5,
        4503599627370496.5,
        9007199254740991.0,
        9007199254740993.0,
        1e15,
        1e18,
        9.223372036854775e18,
        9_223_372_036_854_774_784.0,
        9_223_372_036_854_775_808.0,
        -9_223_372_036_854_775_808.0,
        1.8446744073709552e19,
        f64::MIN_POSITIVE,
        f64::MIN_POSITIVE / 2.0,
        5e-324,
        f64::MAX,
        f64::MIN,
        f64::INFINITY,
        f64::NEG_INFINITY,
        f64::NAN,
        0.1,
        0.1 + 0.2,
        101.30000000000001,
        1e-12,
        5e-13,
        -5e-13,
    ] {
        check(v);
    }
}

#[test]
fn grid_values_are_found_up_to_fifteen_digits() {
    let mut rng = Rng::new(13);
    for i in 0..20_000u64 {
        let m = (rng.next_u64() % 1_000_000_000_000_000) as i64 >> (i % 50);
        let k = (i % 13) as u32;
        assert_eq!(exact_mantissa(grid_bits(m, k), k), Some(m));
        assert_eq!(exact_mantissa(grid_bits(-m, k), k), Some(-m));
    }
}

#[test]
fn finer_grids_hold_coarser_ones() {
    for m in [1i64, -7, 123, 99_999, -1_000_001] {
        for j in 0..7u32 {
            for k in j..7u32 {
                assert_eq!(grid_bits(m, j), grid_bits(m * 10i64.pow(k - j), k));
            }
        }
    }
}
