use tickpack::gen::Rng;
use tickpack::price::{self, detect_scale, encode_with, BlockKind};
use tickpack::{gorilla, size, timestamp};

/// Draws for one case.
struct Cases(Rng);

impl Cases {
    fn below(&mut self, n: u64) -> u64 {
        self.0.next_u64() % n
    }

    fn range(&mut self, low: i64, high: i64) -> i64 {
        low + self.below((high - low) as u64) as i64
    }

    fn awkward(&mut self) -> f64 {
        let special = [
            f64::NAN,
            -f64::NAN,
            f64::from_bits(0x7ff8_0000_0000_0001),
            f64::from_bits(0xfff4_0000_dead_beef),
            -0.0,
            0.0,
            f64::INFINITY,
            f64::NEG_INFINITY,
            f64::MAX,
            f64::MIN,
            f64::MIN_POSITIVE,
            5e-324,
            101.30000000000001,
            9_223_372_036_854_775_808.0,
        ];
        match self.below(4) {
            0 => f64::from_bits(self.0.next_u64()),
            1 => special[self.below(special.len() as u64) as usize],
            2 => {
                let k = self.below(13) as i32;
                self.range(-10_000_000, 10_000_000) as f64 / 10f64.powi(k)
            }
            _ => (f64::from_bits(self.0.unit()) - 0.5) * 2e9,
        }
    }

    /// Stretches on one grid and stretches of awkward values, so grid and
    /// Gorilla blocks interleave and share the XOR state.
    fn mixed_column(&mut self) -> Vec<f64> {
        let mut out = Vec::new();
        for _ in 0..self.below(8) {
            if self.below(2) == 0 {
                let k = self.below(7) as i32;
                let tick = self.range(1, 500);
                let mut m = self.range(-100_000, 100_000) * tick;
                for _ in 0..1 + self.below(299) {
                    m += self.range(-5, 6) * tick;
                    out.push(m as f64 / 10f64.powi(k));
                }
            } else {
                for _ in 0..1 + self.below(59) {
                    let x = self.awkward();
                    for _ in 0..1 + self.below(5) {
                        out.push(x);
                    }
                }
            }
        }
        out
    }
}

fn bits_of(v: &[f64]) -> Vec<u64> {
    v.iter().map(|x| x.to_bits()).collect()
}

fn shortest_decimals(v: f64) -> u32 {
    let s = format!("{v}");
    s.split_once('.').map_or(0, |(_, frac)| frac.len() as u32)
}

fn gcd(a: u64, b: u64) -> u64 {
    if b == 0 {
        a
    } else {
        gcd(b, a % b)
    }
}

#[test]
fn arbitrary_f64_roundtrip_is_bit_exact() {
    let mut c = Cases(Rng::new(1));
    for _ in 0..60 {
        let n = c.below(600);
        let v: Vec<u64> = (0..n).map(|_| c.awkward().to_bits()).collect();
        let block = 1 + c.below(79) as usize;
        let (enc, _) = encode_with(&v, block);
        assert_eq!(price::decode(&enc), Ok(v));
    }
}

#[test]
fn mixed_columns_roundtrip_and_stay_within_gorilla_bound() {
    let mut c = Cases(Rng::new(2));
    for _ in 0..60 {
        let v = bits_of(&c.mixed_column());
        let block = [1usize, 7, 64, 256, 1024][c.below(5) as usize];
        let (enc, infos) = encode_with(&v, block);
        let baseline_bits = gorilla::encode_f64(&v).len() as u64 * 8;
        // Header difference is the block-size varint (at most 2 bytes here),
        // plus byte padding; each block adds at most its 2-bit tag.
        assert!(enc.len() as u64 * 8 <= baseline_bits + 2 * infos.len() as u64 + 16 + 8);
        assert_eq!(price::decode(&enc), Ok(v));
    }
}

#[test]
fn arbitrary_timestamps_roundtrip() {
    let mut c = Cases(Rng::new(3));
    for _ in 0..100 {
        let n = c.below(400);
        let ts: Vec<i64> = (0..n).map(|_| c.0.next_u64() as i64).collect();
        assert_eq!(timestamp::decode(&timestamp::encode(&ts)).unwrap(), ts);
    }
}

#[test]
fn near_regular_timestamps_roundtrip() {
    let mut c = Cases(Rng::new(4));
    for _ in 0..100 {
        let mut t = c.0.next_u64() as i64;
        let n = c.below(400);
        let ts: Vec<i64> = (0..n)
            .map(|_| {
                t = t.wrapping_add(c.range(-3000, 1_000_000));
                t
            })
            .collect();
        assert_eq!(timestamp::decode(&timestamp::encode(&ts)).unwrap(), ts);
    }
}

#[test]
fn arbitrary_sizes_roundtrip() {
    let mut c = Cases(Rng::new(5));
    for _ in 0..100 {
        let n = c.below(400);
        let v: Vec<i64> = (0..n).map(|_| c.0.next_u64() as i64).collect();
        let block = 1 + c.below(99) as usize;
        assert_eq!(size::decode(&size::encode_with(&v, block)).unwrap(), v);
    }
}

/// On-grid series take the grid path; the detected scale matches Rust's
/// shortest round-trip formatting; and the recovered tick, converted to
/// the generating scale, is the generating tick times the GCD of the step
/// counts. With a one-tick move present that GCD is 1, so the tick is
/// recovered exactly.
#[test]
fn on_grid_series_recover_scale_and_tick() {
    let mut c = Cases(Rng::new(6));
    for _ in 0..60 {
        let scale = c.below(9) as u32;
        let tick = c.range(1, 1000);
        let start = c.range(1, 1_000_000);
        let mut steps: Vec<i64> = (0..31 + c.below(569)).map(|_| c.range(-20, 21)).collect();
        let force_one_tick = c.below(2) == 0;
        if force_one_tick {
            let i = c.below(steps.len() as u64) as usize;
            steps[i] = if steps[i] < 0 { -1 } else { 1 };
        }
        let mut m = start * tick;
        let mut mants = vec![m];
        for s in &steps {
            m += s * tick;
            mants.push(m);
        }
        let p = 10f64.powi(scale as i32);
        let values: Vec<f64> = mants.iter().map(|&m| m as f64 / p).collect();
        let bits = bits_of(&values);

        let (enc, infos) = encode_with(&bits, bits.len());
        assert_eq!(price::decode(&enc).unwrap(), bits);
        assert_eq!(infos.len(), 1);
        let (k, recovered) = match infos[0].kind {
            BlockKind::Grid { scale, tick, .. } => (scale, tick),
            other => panic!("fell back: {other:?}"),
        };

        let oracle = values.iter().map(|&v| shortest_decimals(v)).max().unwrap();
        assert_eq!(Some(k), detect_scale(&bits));
        assert_eq!(k, oracle);
        assert!(k <= scale);

        let step_gcd = steps.iter().fold(0u64, |g, s| gcd(g, s.unsigned_abs()));
        let at_generating_scale = recovered * 10u64.pow(scale - k);
        if step_gcd == 0 {
            assert_eq!(recovered, 1);
        } else {
            assert_eq!(at_generating_scale, tick as u64 * step_gcd);
            assert_eq!(at_generating_scale % tick as u64, 0);
        }
        if force_one_tick {
            assert_eq!(at_generating_scale, tick as u64);
        }
    }
}

#[test]
fn column_fallback_costs_what_the_baseline_does() {
    let mut c = Cases(Rng::new(7));
    let v: Vec<u64> = (0..5000).map(|_| c.0.next_u64() | 1).collect();
    for block in [1usize, 10, 1024] {
        let (enc, infos) = encode_with(&v, block);
        assert!(infos
            .iter()
            .all(|b| matches!(b.kind, BlockKind::Gorilla { .. })));
        let total: u64 = infos.iter().map(|b| b.bits).sum();
        let mut counter = tickpack::bits::BitCounter::default();
        let mut st = gorilla::XorState::new();
        for &x in &v {
            st.encode(x, &mut counter);
        }
        assert_eq!(total, counter.bits + 2 * infos.len() as u64);
        assert_eq!(price::decode(&enc).unwrap(), v);
    }
}
