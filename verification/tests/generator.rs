use tickpack::gen::{
    bench_scenarios, clean_price, finest_scale, generate, sizes, timestamps, Draw, Grid, Quote,
    Rng, Scenario, Ticks, P_0_0001, P_0_0002, P_0_0005, P_0_2, P_0_3, P_0_4, P_0_5, P_0_6, P_0_8,
    PRICE_101_3, PRICE_1_0845, PRICE_250, PRICE_4500_25,
};
use tickpack::price::{encode_with, BlockKind, FallbackReason, Mode};
use tickpack::report::{grid_blocks, reason_label, rows, same_bits, LIMIT};

fn gap_us(d: &Draw) -> i64 {
    (-(1.0 - f64::from_bits(d.gap)).ln() * 2000.0) as i64
}

fn price_of(s: &Scenario, q: Quote) -> u64 {
    match (clean_price(q), q) {
        (Some(b), _) => b,
        (
            None,
            Quote::Price {
                mantissa,
                scale,
                tick,
                artefact,
                noise,
            },
        ) => {
            let mut p = if artefact {
                mantissa as f64 * 10f64.powi(-(scale as i32))
            } else {
                mantissa as f64 / 10f64.powi(scale as i32)
            };
            if let Some(u) = noise {
                let tick_value = tick as f64 / 10f64.powi(scale as i32);
                p += (f64::from_bits(u) - 0.5) * f64::from_bits(s.noise) * 2.0 * tick_value;
            }
            p.to_bits()
        }
        (None, Quote::Gap) => unreachable!(),
    }
}

fn ticks(s: &Scenario) -> Ticks {
    let draws = generate(s).expect("every level fits");
    let gaps: Vec<i64> = draws.iter().map(gap_us).collect();
    Ticks {
        ts: timestamps(&draws, &gaps).expect("every time fits"),
        price: draws.iter().map(|d| price_of(s, d.quote)).collect(),
        size: sizes(&draws),
    }
}

fn prices(t: &Ticks) -> Vec<f64> {
    t.price.iter().map(|&b| f64::from_bits(b)).collect()
}

fn decimals(p: f64) -> u32 {
    let s = format!("{p}");
    s.split_once('.').map_or(0, |(_, frac)| frac.len() as u32)
}

#[test]
fn deterministic_per_seed() {
    let s = Scenario::walk("x", 42, 5000, 10.0f64.to_bits(), 2, 1);
    assert_eq!(ticks(&s), ticks(&s));
    let other = Scenario {
        seed: 43,
        ..s.clone()
    };
    assert_ne!(ticks(&s).price, ticks(&other).price);
}

#[test]
fn clean_walk_stays_on_grid_and_timestamps_increase() {
    let s = Scenario::walk("futures", 7, 20_000, 4500.25f64.to_bits(), 2, 25);
    let t = ticks(&s);
    for &p in &prices(&t) {
        let m = (p * 100.0).round() as i64;
        assert_eq!(m % 25, 0, "{p} off the 0.25 grid");
        assert_eq!((m as f64 / 100.0).to_bits(), p.to_bits());
        assert!(p > 0.0);
    }
    assert!(t.ts.windows(2).all(|w| w[1] >= w[0]));
    assert!(t.size.iter().all(|&s| s > 0));
}

#[test]
fn precision_change_switches_grid_at_the_given_index() {
    let mut s = Scenario::walk("pc", 9, 4000, 50.0f64.to_bits(), 1, 1);
    s.p_move = 0.9f64.to_bits();
    s.grids.push(Grid {
        start: 2000,
        scale: 3,
        tick: 1,
    });
    let t = prices(&ticks(&s));
    assert!(t[..2000].iter().all(|&p| decimals(p) <= 1));
    assert!(t[2000..].iter().any(|&p| decimals(p) == 3));
}

#[test]
fn impairments_appear() {
    let s = Scenario {
        artefact_rate: 0.05f64.to_bits(),
        p_nan_gap: 0.001f64.to_bits(),
        nan_gap_len: 10,
        p_halt: 0.001f64.to_bits(),
        halt_len: 50,
        ..Scenario::walk("dirty", 3, 50_000, 101.30f64.to_bits(), 2, 1)
    };
    let price = prices(&ticks(&s));
    assert!(price.iter().any(|p| p.is_nan()));
    let artefacts = price
        .iter()
        .filter(|p| !p.is_nan() && decimals(**p) > 2)
        .count();
    assert!(artefacts > 100, "only {artefacts} artefacts");
    let longest_flat = price
        .windows(2)
        .fold((0, 0), |(best, cur), w| {
            let c = if w[0].to_bits() == w[1].to_bits() {
                cur + 1
            } else {
                0
            };
            (if c > best { c } else { best }, c)
        })
        .0;
    assert!(longest_flat >= 49);
}

#[test]
fn splitmix_numbers() {
    // The first numbers of SplitMix64 for the seed 1234567.
    let mut rng = Rng::new(1234567);
    assert_eq!(rng.next_u64(), 6457827717110365317);
    assert_eq!(rng.next_u64(), 3203168211198807973);
    assert_eq!(rng.next_u64(), 9817491932198370423);
    assert_eq!(rng.next_u64(), 4593380528125082431);
    assert_eq!(rng.next_u64(), 16408922859458223821);
}

#[test]
fn unit_and_chance_agree_with_the_machine() {
    for p in [
        0.0,
        -0.0,
        -1.0,
        0.5,
        0.3,
        1.0,
        0.9999999999999999,
        2.0,
        1e-300,
        5e-324,
        1e-17,
        f64::INFINITY,
        f64::NEG_INFINITY,
        f64::NAN,
    ] {
        let mut raw = Rng::new(99);
        let mut units = Rng::new(99);
        let mut chances = Rng::new(99);
        for _ in 0..500 {
            let x = (raw.next_u64() >> 11) as f64 / (1u64 << 53) as f64;
            assert_eq!(units.unit(), x.to_bits());
            assert_eq!(chances.chance(p.to_bits()), x < p, "{x} < {p}");
        }
    }
}

#[test]
fn geometric_counts_chances() {
    let mut a = Rng::new(5);
    let mut b = Rng::new(5);
    for _ in 0..300 {
        let mut k = 1;
        while k < 1000 && b.chance(P_0_6) {
            k += 1;
        }
        assert_eq!(a.geometric(P_0_6), k);
    }
    assert_eq!(Rng::new(1).geometric(1.0f64.to_bits()), 1000);
    assert_eq!(Rng::new(1).geometric(0), 1);
}

#[test]
fn constants_are_the_doubles_they_name() {
    let named = [
        (P_0_2, 0.2),
        (P_0_3, 0.3),
        (P_0_4, 0.4),
        (P_0_5, 0.5),
        (P_0_6, 0.6),
        (P_0_8, 0.8),
        (P_0_0001, 0.0001),
        (P_0_0002, 0.0002),
        (P_0_0005, 0.0005),
        (PRICE_1_0845, 1.08450),
        (PRICE_101_3, 101.30),
        (PRICE_250, 250.00),
        (PRICE_4500_25, 4500.25),
    ];
    for (bits, value) in named {
        assert_eq!(f64::from_bits(bits), value);
    }
}

#[test]
fn bench_scenarios_have_their_names_and_seeds() {
    let all = bench_scenarios(1000);
    let names: Vec<(&str, u64)> = all.iter().map(|s| (s.name, s.seed)).collect();
    assert_eq!(
        names,
        vec![
            ("equities-0.01", 1),
            ("futures-0.25", 2),
            ("fx-0.00001", 3),
            ("precision-change", 4),
            ("adversarial-noise", 5),
            ("artefacts+nan-gaps", 6),
        ]
    );
    assert_eq!(all[3].grids[1].start, 877);
    assert_eq!(all[5].nan_gap_len, 20);
    assert_eq!(all[0].halt_len, 400);
    assert_eq!(finest_scale(&all[3].grids), 3);
}

fn kind_row(kind: BlockKind) -> String {
    match kind {
        BlockKind::Grid { scale, tick, mode } => format!("grid {scale} {tick} {mode:?}"),
        BlockKind::Gorilla { reason } => format!("gorilla {}", reason_label(reason)),
    }
}

fn inspected(name: &str, n: usize) -> (usize, f64, Vec<(usize, String, String)>) {
    let s = bench_scenarios(n).into_iter().find(|s| s.name == name).unwrap();
    let t = ticks(&s);
    let (enc, infos) = encode_with(&t.price, 1024);
    assert!(same_bits(&t.price, &tickpack::price::decode(&enc).unwrap()));
    let shown = rows(&infos)
        .into_iter()
        .map(|i| {
            let b = &infos[i];
            let per = format!("{:.2}", b.bits as f64 / b.len as f64);
            (b.start, kind_row(b.kind), per)
        })
        .collect();
    (infos.len(), enc.len() as f64 * 8.0 / n as f64, shown)
}

fn row(start: usize, path: &str, per: &str) -> (usize, String, String) {
    (start, path.to_string(), per.to_string())
}

#[test]
fn inspection_of_a_precision_change() {
    let (blocks, per_value, shown) = inspected("precision-change", 20_000);
    assert_eq!(blocks, 20);
    assert_eq!(format!("{per_value:.2}"), "2.77");
    assert_eq!(
        shown,
        vec![
            row(0, "grid 2 5 ZeroFlag", "2.54"),
            row(10240, "grid 3 1 ZeroFlag", "4.75"),
        ]
    );
}

#[test]
fn inspection_of_artefacts_and_gaps() {
    let (blocks, per_value, shown) = inspected("artefacts+nan-gaps", 12_000);
    assert_eq!(blocks, 12);
    assert_eq!(format!("{per_value:.2}"), "5.57");
    assert_eq!(
        shown,
        vec![
            row(0, "grid 2 1 ZeroFlag", "2.63"),
            row(2048, "gorilla no-scale", "18.66"),
            row(3072, "grid 2 1 ZeroFlag", "2.73"),
            row(6144, "gorilla no-scale", "20.78"),
            row(7168, "grid 2 1 ZeroFlag", "2.67"),
        ]
    );
}

#[test]
fn adversarial_noise_has_no_grid() {
    let s = &bench_scenarios(5000)[4];
    let t = ticks(s);
    let (enc, infos) = encode_with(&t.price, 1024);
    assert_eq!(grid_blocks(&infos), 0);
    assert_eq!(infos.len(), 5);
    assert!(infos.iter().all(|b| b.kind
        == BlockKind::Gorilla {
            reason: FallbackReason::NoDecimalScale
        }));
    let baseline = tickpack::gorilla::encode_f64(&t.price);
    assert!(enc.len() * 8 <= baseline.len() * 8 + 16 + 2 * 5 + 7);
}

#[test]
fn no_draws_where_a_number_does_not_fit() {
    let mut s = Scenario::walk("zero", 1, 10, 1.0f64.to_bits(), 2, 0);
    assert_eq!(generate(&s), None);
    s.grids[0].tick = i64::MAX;
    s.grids.push(Grid {
        start: 5,
        scale: 3,
        tick: 1,
    });
    assert_eq!(generate(&s), None);
    // A level at the top of the range has no room to move.
    let top = Scenario {
        p_move: 1.0f64.to_bits(),
        ..Scenario::walk("top", 1, 50, 1e300f64.to_bits(), 0, 1)
    };
    assert_eq!(generate(&top), None);
    let none = Scenario::walk("none", 1, 0, 1.0f64.to_bits(), 0, 1);
    assert_eq!(generate(&none), Some(Vec::new()));
}

#[test]
fn times_add_up() {
    let quote = Quote::Gap;
    let draw = |halt_ns: i64| Draw {
        halt_ns,
        gap: 0,
        size: 1,
        quote,
    };
    let draws = [draw(0), draw(60_000_000_000), draw(0)];
    assert_eq!(
        timestamps(&draws, &[3, 0, 7]),
        Some(vec![
            1_767_000_000_000_003_000,
            1_767_000_060_000_003_000,
            1_767_000_060_000_010_000
        ])
    );
    assert_eq!(timestamps(&draws, &[3, i64::MAX, 7]), None);
    assert_eq!(timestamps(&[draw(i64::MAX)], &[0]), None);
    assert_eq!(clean_price(quote), Some(f64::NAN.to_bits()));
}

#[test]
fn rows_are_limited() {
    let info = |i: usize, tick: u64| tickpack::price::BlockInfo {
        start: i,
        len: 1,
        kind: BlockKind::Grid {
            scale: 2,
            tick,
            mode: Mode::Packed,
        },
        bits: 1,
    };
    let changing: Vec<_> = (0..100).map(|i| info(i, i as u64)).collect();
    assert_eq!(rows(&changing), (0..LIMIT).collect::<Vec<_>>());
    let steady: Vec<_> = (0..100).map(|i| info(i, 1)).collect();
    assert_eq!(rows(&steady), vec![0]);
    assert_eq!(grid_blocks(&steady), 100);
    assert_eq!(rows(&[]), Vec::<usize>::new());
    assert!(same_bits(&[1, 2], &[1, 2]));
    assert!(!same_bits(&[1, 2], &[1, 3]));
    assert!(!same_bits(&[1, 2], &[1]));
}

#[test]
fn reasons_in_a_word() {
    assert_eq!(reason_label(FallbackReason::NoDecimalScale), "no-scale");
    assert_eq!(reason_label(FallbackReason::DeltaOverflow), "overflow");
    assert_eq!(reason_label(FallbackReason::Smaller), "smaller");
}

#[test]
fn draws_keep_their_promises() {
    for s in bench_scenarios(3000) {
        let draws = generate(&s).unwrap();
        assert_eq!(draws.len(), 3000);
        for (i, d) in draws.iter().enumerate() {
            assert!(d.size >= 1);
            assert!((0..=1_800_000_000_000).contains(&d.halt_ns));
            if let Quote::Price {
                mantissa,
                scale,
                tick,
                ..
            } = d.quote
            {
                let g = s.grids.iter().rev().find(|g| g.start <= i).unwrap();
                assert_eq!((scale, tick), (g.scale, g.tick));
                assert_eq!(mantissa % g.tick, 0);
                assert!(mantissa > 0);
            }
        }
    }
}

#[test]
fn fewer_ticks_are_the_first_ticks() {
    for (long, short) in bench_scenarios(2000).into_iter().zip(bench_scenarios(2000)) {
        let short = Scenario { n: 700, ..short };
        let (a, b) = (ticks(&long), ticks(&short));
        assert_eq!(b.ts, a.ts[..700]);
        assert_eq!(b.price, a.price[..700]);
        assert_eq!(b.size, a.size[..700]);
    }
}
