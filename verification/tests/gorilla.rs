use tickpack::bits::{BitCounter, BitReader, BitSink, BitWriter};
use tickpack::gorilla::{
    decode_f64, decode_timestamps, encode_f64, encode_timestamps, DodState, XorState,
};
use tickpack::DecodeError;

fn bit_string(values: &[(u64, u32)]) -> String {
    values
        .iter()
        .map(|&(v, b)| format!("{:0width$b}", v, width = b as usize))
        .collect()
}

fn bits(values: &[f64]) -> Vec<u64> {
    values.iter().map(|x| x.to_bits()).collect()
}

fn encode_bits_f64(values: &[f64]) -> String {
    let mut w = BitWriter::new();
    let mut st = XorState::new();
    for &v in values {
        st.encode(v.to_bits(), &mut w);
    }
    let n = w.bit_len() as usize;
    let bytes = w.finish();
    let s: String = bytes.iter().map(|b| format!("{b:08b}")).collect();
    s[..n].to_string()
}

/// Figure 2 of the Gorilla paper: values 12, 12, 24 encode as the raw 64
/// bits of 12.0, then `0`, then `11` + 11 leading zeros (01011) + one
/// meaningful bit (000001) + `1`.
#[test]
fn paper_worked_example_values() {
    let bits = encode_bits_f64(&[12.0, 12.0, 24.0]);
    let expected = bit_string(&[
        (12.0f64.to_bits(), 64),
        (0, 1),
        (0b11, 2),
        (0b01011, 5),
        (0b000001, 6),
        (1, 1),
    ]);
    assert_eq!(bits, expected);
    assert_eq!(bits.len(), 64 + 1 + 14);
}

/// Figure 2 timestamps: 02:01:02, 02:02:02, 02:03:02 after the 02:00:00
/// header give deltas 62, 60, 60, so the paper's stream continues with
/// `10`:-2 and then `0`.
#[test]
fn paper_worked_example_timestamps() {
    let header = 1_427_162_400i64; // 2015-03-24 02:00:00 UTC
    let ts = [header, header + 62, header + 122, header + 182];
    let mut w = BitWriter::new();
    let mut st = DodState::default();
    for &t in &ts {
        st.encode(t, &mut w);
    }
    let n = w.bit_len() as usize;
    let bytes = w.finish();
    let s: String = bytes.iter().map(|b| format!("{b:08b}")).collect();
    let expected = bit_string(&[
        (header as u64, 64),
        (0b10, 2),
        ((62 + 63) as u64, 7), // first delta 62 against a previous delta of 0
        (0b10, 2),
        ((-2i64 + 63) as u64, 7), // dod -2, as in the paper
        (0, 1),                   // dod 0
    ]);
    assert_eq!(&s[..n], expected);
    assert_eq!(decode_timestamps(&encode_timestamps(&ts)).unwrap(), ts);
}

#[test]
fn dod_bucket_boundaries_roundtrip() {
    let mut ts = vec![0i64];
    let dods = [
        -63,
        64,
        -64,
        65,
        -255,
        256,
        -256,
        257,
        -2047,
        2048,
        -2048,
        2049,
        i64::MAX,
        i64::MIN,
        0,
    ];
    let mut delta = 0i64;
    for d in dods {
        delta = delta.wrapping_add(d);
        let last = *ts.last().unwrap();
        ts.push(last.wrapping_add(delta));
    }
    assert_eq!(decode_timestamps(&encode_timestamps(&ts)).unwrap(), ts);
}

#[test]
fn bucket_costs_match_paper() {
    let cost = |dod: i64| {
        let mut c = BitCounter::default();
        let mut st = DodState::default();
        st.encode(0, &mut c);
        st.encode(0, &mut c);
        let before = c.bits;
        st.encode(dod, &mut c);
        c.bits - before
    };
    assert_eq!(cost(0), 1);
    assert_eq!(cost(-63), 9);
    assert_eq!(cost(64), 9);
    assert_eq!(cost(65), 12);
    assert_eq!(cost(256), 12);
    assert_eq!(cost(-2047), 16);
    assert_eq!(cost(2049), 37);
    assert_eq!(cost(i32::MIN as i64), 37);
    assert_eq!(cost(i32::MAX as i64 + 1), 69);
}

#[test]
fn xor_roundtrip_special_values() {
    let v = [
        f64::NAN,
        -0.0,
        0.0,
        f64::INFINITY,
        f64::NEG_INFINITY,
        f64::MAX,
        f64::MIN_POSITIVE / 3.0,
        f64::from_bits(0x7ff0_0000_dead_beef),
        1.0,
        1.0,
        -1.0,
    ];
    let d = decode_f64(&encode_f64(&bits(&v))).unwrap();
    assert_eq!(d, bits(&v));
}

#[test]
fn truncated_stream_is_an_error() {
    let enc = encode_f64(&bits(&[1.5, 2.25, 3.125, 100.0]));
    for cut in 1..enc.len() {
        assert!(decode_f64(&enc[..cut]).is_err(), "cut at {cut}");
    }
}

#[test]
fn truncated_timestamps_are_an_error() {
    let enc = encode_timestamps(&[5, 7, 1_000_000, -3, i64::MAX, i64::MIN]);
    for cut in 0..enc.len() {
        assert!(decode_timestamps(&enc[..cut]).is_err(), "cut at {cut}");
    }
}

#[test]
fn window_used_before_it_is_set_is_an_error() {
    let mut w = BitWriter::with_prefix(vec![2]);
    let mut st = XorState::new();
    st.encode(1.0f64.to_bits(), &mut w);
    w.put(0b10, 2);
    assert_eq!(
        decode_f64(&w.finish()),
        Err(DecodeError::Corrupt("XOR window reused before being set"))
    );
}

#[test]
fn window_past_the_word_is_an_error() {
    let mut w = BitWriter::with_prefix(vec![2]);
    let mut st = XorState::new();
    st.encode(1.0f64.to_bits(), &mut w);
    w.put(0b11, 2);
    w.put(31, 5);
    w.put(63, 6);
    w.put(0, 64);
    let enc = w.finish();
    assert_eq!(
        decode_f64(&enc),
        Err(DecodeError::Corrupt("XOR window wider than 64 bits"))
    );
}

#[test]
fn states_read_back_value_by_value() {
    let values = [100.25f64, 100.25, 100.5, -3.0, 1e300, 100.25];
    let mut w = BitWriter::new();
    let mut st = XorState::default();
    for v in values {
        st.encode(v.to_bits(), &mut w);
    }
    let bytes = w.finish();
    let mut r = BitReader::new(&bytes);
    let mut back = XorState::new();
    for v in values {
        assert_eq!(back.decode(&mut r), Ok(v.to_bits()));
    }
    assert_eq!(back, st);

    let ts = [10i64, 20, 30, -5, i64::MAX];
    let mut w = BitWriter::new();
    let mut st = DodState::default();
    for t in ts {
        st.encode(t, &mut w);
    }
    let bytes = w.finish();
    let mut r = BitReader::new(&bytes);
    let mut back = DodState::default();
    for t in ts {
        assert_eq!(back.decode(&mut r), Ok(t));
    }
}

#[test]
fn the_state_does_not_depend_on_the_sink() {
    let mut a = XorState::new();
    let mut b = a;
    let mut c = BitCounter::default();
    let mut w = BitWriter::new();
    for v in [100.25f64, 100.25, 100.5, f64::NAN, -0.0, 1e300, 1e300] {
        a.encode(v.to_bits(), &mut c);
        b.encode(v.to_bits(), &mut w);
        assert_eq!(a, b);
        assert_eq!(c.bits, w.bit_len());
    }
}

#[test]
fn the_first_delta_counts_the_first_timestamp_twice() {
    // 7 after 5: the delta of deltas is 2. Then 9 gives 0.
    let mut w = BitWriter::new();
    let mut st = DodState::default();
    for t in [5i64, 7, 9] {
        st.encode(t, &mut w);
    }
    let n = w.bit_len() as usize;
    let s: String = w.finish().iter().map(|b| format!("{b:08b}")).collect();
    assert_eq!(s[..n], bit_string(&[(5, 64), (0b10, 2), (65, 7), (0, 1)]));
}
