use tickpack::price::{self, detect_scale, encode_with, BlockKind, FallbackReason, Mode};
use tickpack::{gorilla, DecodeError};

fn bits_of(v: &[f64]) -> Vec<u64> {
    v.iter().map(|x| x.to_bits()).collect()
}

/// Number of digits after the decimal point in Rust's shortest round-trip
/// formatting of `v`: an independent oracle for `detect_scale`.
fn shortest_decimals(v: f64) -> Option<u32> {
    if !v.is_finite() {
        return None;
    }
    let s = format!("{v}");
    Some(s.split_once('.').map_or(0, |(_, frac)| frac.len() as u32))
}

fn assert_roundtrip(values: &[f64], block: usize) -> Vec<price::BlockInfo> {
    let (enc, infos) = encode_with(&bits_of(values), block);
    let dec = price::decode(&enc).expect("decode");
    assert_eq!(dec, bits_of(values), "round-trip differs");
    let total: u64 = infos.iter().map(|b| b.bits).sum();
    let header = {
        let mut h = Vec::new();
        tickpack::bits::put_varint(&mut h, values.len() as u64);
        tickpack::bits::put_varint(&mut h, block as u64);
        h.len() as u64
    };
    assert_eq!(
        enc.len() as u64,
        header + total.div_ceil(8),
        "block bit accounting"
    );
    infos
}

fn grid(infos: &[price::BlockInfo], i: usize) -> (u32, u64, Mode) {
    match infos[i].kind {
        BlockKind::Grid { scale, tick, mode } => (scale, tick, mode),
        other => panic!("block {i} took {other:?}"),
    }
}

fn fallback(infos: &[price::BlockInfo], i: usize) -> FallbackReason {
    match infos[i].kind {
        BlockKind::Gorilla { reason } => reason,
        other => panic!("block {i} took {other:?}"),
    }
}

#[test]
fn single_value_block() {
    let infos = assert_roundtrip(&[101.3], 1024);
    assert_eq!(grid(&infos, 0).0, 1);
    assert_eq!(infos.len(), 1);

    let walk: Vec<f64> = (0..50).map(|i| (10_000 + i * 3) as f64 / 100.0).collect();
    let infos = assert_roundtrip(&walk, 1);
    assert_eq!(infos.len(), 50);
    assert!(infos.iter().all(|b| b.len == 1));
}

#[test]
fn empty_column() {
    let (enc, infos) = encode_with(&[], 1024);
    assert!(infos.is_empty());
    assert_eq!(price::decode(&enc).unwrap(), Vec::<u64>::new());
}

#[test]
fn all_equal_values_cost_only_the_header() {
    let v = vec![42.17; 1024];
    let infos = assert_roundtrip(&v, 1024);
    let (scale, tick, mode) = grid(&infos, 0);
    assert_eq!((scale, tick, mode), (2, 1, Mode::Packed));
    assert!(
        infos[0].bits < 64,
        "{} bits for a constant block",
        infos[0].bits
    );
}

#[test]
fn one_off_grid_value_forces_fallback_for_its_block_only() {
    let mut v: Vec<f64> = (0..3072)
        .map(|i| (10_130 + (i % 7) as i64) as f64 / 100.0)
        .collect();
    let clean = v[1500];
    v[1500] = 1013.0 * 0.1;
    assert_eq!(v[1500].to_bits(), 101.30000000000001f64.to_bits());
    assert_ne!(v[1500].to_bits(), clean.to_bits());
    let infos = assert_roundtrip(&v, 1024);
    assert_eq!(grid(&infos, 0).0, 2);
    assert_eq!(fallback(&infos, 1), FallbackReason::NoDecimalScale);
    assert_eq!(grid(&infos, 2).0, 2);
}

#[test]
fn precision_change_at_block_boundary() {
    let mut v: Vec<f64> = (0..1024)
        .map(|i| (25_000 + 5 * (i % 11)) as f64 / 100.0)
        .collect();
    v.extend((0..1024).map(|i| (250_000 + (i % 13)) as f64 / 1000.0));
    let infos = assert_roundtrip(&v, 1024);
    assert_eq!(grid(&infos, 0).0, 2);
    assert_eq!(grid(&infos, 0).1, 5);
    assert_eq!(grid(&infos, 1).0, 3);
    assert_eq!(grid(&infos, 1).1, 1);
}

#[test]
fn precision_change_inside_a_block_uses_the_finer_scale() {
    let mut v: Vec<f64> = (0..500).map(|i| (1_000 + (i % 3)) as f64 / 10.0).collect();
    v.extend((0..524).map(|i| (100_000 + 7 * (i % 3)) as f64 / 1000.0));
    let infos = assert_roundtrip(&v, 1024);
    assert_eq!(grid(&infos, 0).0, 3);
}

#[test]
fn scale_twelve_at_the_i64_edge() {
    // 9e6 at scale 12 is a mantissa of 9e18, just under i64::MAX (9.22e18).
    let fits = [1e-12, 2e-12, 5e-12, 9_000_000.0, 1e-12, 3e-12, 4e-12, 2e-12];
    assert_eq!(detect_scale(&bits_of(&fits)), Some(12));
    let infos = assert_roundtrip(&fits, 1024);
    assert!(matches!(
        infos[0].kind,
        BlockKind::Grid { scale: 12, .. }
            | BlockKind::Gorilla {
                reason: FallbackReason::Smaller
            }
    ));
    assert_eq!(
        price::exact_mantissa(9_000_000.0f64.to_bits(), 12),
        Some(9_000_000_000_000_000_000)
    );

    // 9.3e6 would need a mantissa of 9.3e18, which does not fit.
    let overflows = [1e-12, 9_300_000.0];
    assert_eq!(price::exact_mantissa(9_300_000.0f64.to_bits(), 12), None);
    assert_eq!(detect_scale(&bits_of(&overflows)), None);
    let infos = assert_roundtrip(&overflows, 1024);
    assert_eq!(fallback(&infos, 0), FallbackReason::NoDecimalScale);
}

#[test]
fn mantissa_difference_overflow_falls_back() {
    let v = [-9e18, 9e18, -9e18];
    assert_eq!(detect_scale(&bits_of(&v)), Some(0));
    let infos = assert_roundtrip(&v, 1024);
    assert_eq!(fallback(&infos, 0), FallbackReason::DeltaOverflow);
}

#[test]
fn largest_i64_representable_doubles() {
    let below = 9_223_372_036_854_774_784.0f64; // largest double under 2^63
    assert_eq!(
        price::exact_mantissa(below.to_bits(), 0),
        Some(9_223_372_036_854_774_784)
    );
    assert_eq!(
        price::exact_mantissa(9_223_372_036_854_775_808.0f64.to_bits(), 0),
        None
    );
    assert_eq!(
        price::exact_mantissa((-9_223_372_036_854_775_808.0f64).to_bits(), 0),
        Some(i64::MIN)
    );
    assert_roundtrip(&[below, -9_223_372_036_854_775_808.0, below], 2);
}

#[test]
fn special_values_never_take_the_grid_path() {
    let specials = [
        f64::NAN,
        -f64::NAN,
        f64::from_bits(0x7ff0_0000_0000_0001),
        -0.0,
        f64::INFINITY,
        f64::NEG_INFINITY,
        f64::MAX,
        f64::MIN,
        f64::MIN_POSITIVE / 7.0,
        5e-324,
    ];
    for s in specials {
        assert_eq!(
            detect_scale(&[s.to_bits()]),
            None,
            "{s:?} ({:#x})",
            s.to_bits()
        );
        let v = [1.5, 2.5, s, 3.5];
        let infos = assert_roundtrip(&v, 4);
        assert_eq!(fallback(&infos, 0), FallbackReason::NoDecimalScale);
    }
    assert_eq!(detect_scale(&bits_of(&[0.0])), Some(0));
    assert_eq!(detect_scale(&bits_of(&[f64::MIN_POSITIVE])), None);
}

#[test]
fn each_payload_mode_is_selected_and_roundtrips() {
    // Every price changes by a small amount: packed.
    let packed: Vec<f64> = (0..1024)
        .map(|i| (10_000 + [0, 3, 1, 2][i % 4]) as f64 / 100.0)
        .collect();
    // About half the prices are unchanged, moves are wide: zero-flag.
    let mut m = 10_000i64;
    let flagged: Vec<f64> = (0..1024u64)
        .map(|i| {
            let h = i.wrapping_mul(0x9E37_79B9_7F4A_7C15) >> 58;
            if h % 2 == 0 {
                m += (h as i64 % 13) - 6;
            }
            m as f64 / 100.0
        })
        .collect();
    // Long flat stretches: zero runs.
    let runs: Vec<f64> = (0..1024)
        .map(|i| (10_000 + (i / 200) * 3) as f64 / 100.0)
        .collect();
    for (v, want) in [
        (packed, Mode::Packed),
        (flagged, Mode::ZeroFlag),
        (runs, Mode::Runs),
    ] {
        let infos = assert_roundtrip(&v, 1024);
        assert_eq!(grid(&infos, 0).2, want);
    }
}

#[test]
fn tick_is_the_gcd_of_moves() {
    let v: Vec<f64> = [450_025i64, 450_050, 450_000, 450_100, 450_075]
        .iter()
        .map(|&m| m as f64 / 100.0)
        .collect();
    let infos = assert_roundtrip(&v, 1024);
    assert_eq!(grid(&infos, 0), (2, 25, Mode::Packed));
}

#[test]
fn shortest_formatting_agrees_with_detected_scale() {
    for (v, k) in [
        (101.3f64, 1),
        (101.29, 2),
        (1.08451, 5),
        (4500.0, 0),
        (1e-12, 12),
        (0.1 + 0.2, 17),
    ] {
        assert_eq!(shortest_decimals(v), Some(k), "{v}");
        let detected = detect_scale(&[v.to_bits()]);
        assert_eq!(detected, (k <= 12).then_some(k), "{v}");
    }
}

#[test]
fn never_worse_than_gorilla_plus_two_bits_per_block() {
    let noisy: Vec<f64> = (0..10_000u64)
        .map(|i| 100.0 + (i.wrapping_mul(0x9E37_79B9_7F4A_7C15) >> 11) as f64 / (1u64 << 53) as f64)
        .collect();
    let (enc, infos) = encode_with(&bits_of(&noisy), 1024);
    let baseline = gorilla::encode_f64(&bits_of(&noisy));
    assert!(infos
        .iter()
        .all(|b| matches!(b.kind, BlockKind::Gorilla { .. })));
    let blocks = infos.len() as u64;
    // Extra bytes: the varint block size (2 bytes) plus 2 bits per block.
    assert!((enc.len() as u64) * 8 <= baseline.len() as u64 * 8 + 2 * blocks + 16);
}

#[test]
fn corrupt_streams_are_errors_not_panics() {
    let v: Vec<f64> = (0..3000)
        .map(|i| (10_000 + (i * 7919) % 97) as f64 / 100.0)
        .collect();
    let mut mixed = v.clone();
    mixed[2500] = f64::NAN;
    for data in [v, mixed] {
        let enc = price::encode(&bits_of(&data));
        for cut in 0..enc.len() {
            assert!(price::decode(&enc[..cut]).is_err(), "cut {cut}");
        }
        // Flipping bits must never panic; it may or may not be detected.
        for i in 0..enc.len().min(400) {
            let mut bad = enc.clone();
            bad[i] ^= 0x5a;
            let _ = price::decode(&bad);
        }
    }
    // Header says one value in blocks of 1024, then tag 11.
    assert_eq!(
        price::decode(&[1, 0x80, 0x08, 0b1100_0000]),
        Err(DecodeError::Corrupt("reserved block tag"))
    );
    assert_eq!(
        price::decode(&[1, 0]),
        Err(DecodeError::Corrupt("zero block size"))
    );
}

#[test]
fn worked_example_of_one_block() {
    let v = bits_of(&[101.30, 101.31, 101.31, 101.29, 101.30]);
    assert_eq!(detect_scale(&v[..1]), Some(1));
    assert_eq!(detect_scale(&v), Some(2));
    let mantissas: Vec<i64> = v
        .iter()
        .map(|&x| price::exact_mantissa(x, 2).unwrap())
        .collect();
    assert_eq!(mantissas, vec![10130, 10131, 10131, 10129, 10130]);
    assert_eq!(price::exact_mantissa(v[0], 0), None);
    assert_eq!(price::exact_mantissa(v[1], 1), None);
    let (enc, infos) = encode_with(&v, 1024);
    assert_eq!(grid(&infos, 0), (2, 1, Mode::Packed));
    // Tag 2, scale 4, base 7 + 15, tick 7 + 1, minimum 7 + 2, width 7, mode 2,
    // then four offsets of two bits.
    assert_eq!(infos[0].bits, 2 + 4 + 22 + 8 + 9 + 7 + 2 + 8);
    // 00 0010 0001111 100111100100100 0000001 1 0000010 11 0000010 00 11 10 00 11
    assert_eq!(
        enc,
        vec![
            5, 0x80, 0x08, 0b0000_1000, 0b0111_1100, 0b1111_0010, 0b0100_0000, 0b0011_0000,
            0b0101_1000, 0b0010_0011, 0b1000_1100
        ]
    );
    assert_eq!(price::decode(&enc), Ok(v));
}

#[test]
fn grid_block_errors_name_their_reason() {
    let decode_bits = |count: u8, s: &str| {
        let mut data = vec![count, 0x80, 0x08];
        let padded: Vec<char> = s.chars().filter(|c| *c != ' ').collect();
        for chunk in padded.chunks(8) {
            let mut byte = 0u8;
            for i in 0..8 {
                byte = byte * 2 + (chunk.get(i) == Some(&'1')) as u8;
            }
            data.push(byte);
        }
        price::decode(&data)
    };
    // Tag 00, scale 13.
    assert_eq!(
        decode_bits(1, "00 1101"),
        Err(DecodeError::Corrupt("scale above 12"))
    );
    // Base 0, tick 1, minimum 0, width 65.
    let fields = "00 0010 0000000 0000001 1 0000000";
    assert_eq!(
        decode_bits(1, &format!("{fields} 1000001")),
        Err(DecodeError::Corrupt("delta width above 64"))
    );
    assert_eq!(
        decode_bits(1, &format!("{fields} 0000000 11")),
        Err(DecodeError::Corrupt("reserved payload mode"))
    );
    // Two values with a run of three zeros.
    assert_eq!(
        decode_bits(2, &format!("{fields} 0000000 10 000010 11")),
        Err(DecodeError::Corrupt("zero run past end of block"))
    );
    // The same with a run of one, and a trailing run.
    assert_eq!(
        decode_bits(2, &format!("{fields} 0000000 10 000010 01")),
        Ok(vec![0, 0])
    );
    assert_eq!(
        decode_bits(1, "00 0010 0000000 00"),
        Err(DecodeError::UnexpectedEof)
    );
}

#[test]
fn tick_of_two_to_the_63() {
    // Mantissas i64::MIN and 0: one difference of 2^63 does not fit, the other
    // way round it does.
    let low = (-9_223_372_036_854_775_808.0f64).to_bits();
    let v = vec![0u64, low];
    let (enc, infos) = encode_with(&v, 2);
    assert_eq!(price::decode(&enc), Ok(v));
    assert_eq!(infos.len(), 1);
    let long: Vec<u64> = (0..40).map(|_| 0u64).chain([low, low, low]).collect();
    let (enc, infos) = encode_with(&long, 64);
    assert!(matches!(
        infos[0].kind,
        BlockKind::Grid {
            scale: 0,
            tick: 0x8000_0000_0000_0000,
            ..
        }
    ));
    assert_eq!(price::decode(&enc), Ok(long));
}

#[test]
fn report_tiles_the_column() {
    let v: Vec<u64> = (0..2500)
        .map(|i| ((10_000 + i % 9) as f64 / 100.0).to_bits())
        .collect();
    let (_, infos) = encode_with(&v, 1000);
    let spans: Vec<(usize, usize)> = infos.iter().map(|b| (b.start, b.len)).collect();
    assert_eq!(spans, vec![(0, 1000), (1000, 1000), (2000, 500)]);
    // What a block takes does not depend on how the blocks before it were
    // written, only on their values.
    let mut dirty = v.clone();
    dirty[1500] = f64::NAN.to_bits();
    let (_, after) = encode_with(&dirty, 1000);
    assert_eq!(after[0], infos[0]);
    assert_eq!(after[2], infos[2]);
    assert_eq!(fallback(&after, 1), FallbackReason::NoDecimalScale);
}

#[test]
fn equal_values_take_an_exact_number_of_bits() {
    // 4217 zigzags to 8434, a field of 14 bits.
    let infos = assert_roundtrip(&vec![42.17; 1024], 1024);
    assert_eq!(infos[0].bits, 30 + 7 + 14);
}

#[test]
fn bytes_after_a_column_are_ignored() {
    let v = bits_of(&[101.30, 101.31, f64::NAN, 101.29, 101.30]);
    let mut enc = encode_with(&v, 2).0;
    enc.extend([0xff, 0x00, 0x12]);
    assert_eq!(price::decode(&enc), Ok(v.clone()));
    let mut enc = gorilla::encode_f64(&v);
    enc.extend([0xff, 0x00, 0x12]);
    assert_eq!(gorilla::decode_f64(&enc), Ok(v));
    let ts = vec![5i64, 7, -9, 1 << 50];
    let mut enc = gorilla::encode_timestamps(&ts);
    enc.extend([0xff, 0x00, 0x12]);
    assert_eq!(gorilla::decode_timestamps(&enc), Ok(ts));
}

#[test]
fn smaller_gorilla_wins() {
    // At scale 12 the moves take 64 bits each, more than their XORs.
    let v = [1e-12, 9_000_000.0, 2e-12];
    assert_eq!(detect_scale(&bits_of(&v)), Some(12));
    let infos = assert_roundtrip(&v, 3);
    assert_eq!(fallback(&infos, 0), FallbackReason::Smaller);
    let mut counter = tickpack::bits::BitCounter::default();
    let mut st = gorilla::XorState::new();
    for x in v {
        st.encode(x.to_bits(), &mut counter);
    }
    assert_eq!(infos[0].bits, 2 + counter.bits);
}

#[test]
fn a_cut_column_is_the_end_of_the_input() {
    let mut v: Vec<f64> = (0..300)
        .map(|i| (10_000 + (i * 7919) % 97) as f64 / 100.0)
        .collect();
    v[250] = f64::NAN;
    let v = bits_of(&v);
    let enc = encode_with(&v, 64).0;
    for cut in 0..enc.len() {
        assert_eq!(
            price::decode(&enc[..cut]),
            Err(DecodeError::UnexpectedEof),
            "cut {cut}"
        );
    }
    let enc = gorilla::encode_f64(&v);
    for cut in 0..enc.len() {
        assert_eq!(gorilla::decode_f64(&enc[..cut]), Err(DecodeError::UnexpectedEof));
    }
    let ts = [5i64, 7, 1_000_000, -3, i64::MAX, i64::MIN];
    let enc = gorilla::encode_timestamps(&ts);
    for cut in 0..enc.len() {
        assert_eq!(
            gorilla::decode_timestamps(&enc[..cut]),
            Err(DecodeError::UnexpectedEof)
        );
    }
    let enc = tickpack::size::encode_with(&ts, 4);
    for cut in 0..enc.len() {
        assert_eq!(
            tickpack::size::decode(&enc[..cut]),
            Err(DecodeError::UnexpectedEof)
        );
    }
}

#[test]
fn every_block_costs_against_the_baseline() {
    let mut v: Vec<u64> = (0..500)
        .map(|i| ((10_000 + i % 9) as f64 / 100.0).to_bits())
        .collect();
    for i in 200..300 {
        v[i] = (i as u64).wrapping_mul(0x9E37_79B9_7F4A_7C15);
    }
    let (_, infos) = encode_with(&v, 50);
    let mut st = gorilla::XorState::new();
    for b in &infos {
        let mut counter = tickpack::bits::BitCounter::default();
        for &x in &v[b.start..b.start + b.len] {
            st.encode(x, &mut counter);
        }
        match b.kind {
            BlockKind::Gorilla { .. } => assert_eq!(b.bits, counter.bits + 2),
            BlockKind::Grid { .. } => assert!(b.bits < counter.bits + 2),
        }
    }
    assert!(infos.iter().any(|b| matches!(b.kind, BlockKind::Gorilla { .. })));
    assert!(infos.iter().any(|b| matches!(b.kind, BlockKind::Grid { .. })));
}
