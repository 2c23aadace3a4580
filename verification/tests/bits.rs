use tickpack::bits::{
    get_sized, get_varint, put_sized, put_varint, sized_cost, unzigzag, width, zigzag, BitCounter,
    BitReader, BitSink, BitWriter,
};
use tickpack::DecodeError;

#[test]
fn writer_reader_roundtrip_mixed_widths() {
    let fields: Vec<(u64, u32)> = (0..500u64)
        .map(|i| {
            let bits = (i % 65) as u32;
            let v = i.wrapping_mul(0x9E37_79B9_7F4A_7C15);
            let v = if bits == 64 {
                v
            } else {
                v & ((1u64 << bits) - 1)
            };
            (v, bits)
        })
        .collect();
    let mut w = BitWriter::new();
    for &(v, b) in &fields {
        w.put(v, b);
    }
    let total: u64 = fields.iter().map(|f| f.1 as u64).sum();
    assert_eq!(w.bit_len(), total);
    let bytes = w.finish();
    assert_eq!(bytes.len() as u64, total.div_ceil(8));
    let mut r = BitReader::new(&bytes);
    for &(v, b) in &fields {
        assert_eq!(r.read(b).unwrap(), v, "width {b}");
    }
}

#[test]
fn reader_reports_eof_instead_of_panicking() {
    let mut w = BitWriter::new();
    w.put(0b101, 3);
    let bytes = w.finish();
    let mut r = BitReader::new(&bytes);
    assert_eq!(r.read(3).unwrap(), 0b101);
    assert_eq!(r.read(5).unwrap(), 0);
    assert_eq!(r.read(1), Err(DecodeError::UnexpectedEof));
}

#[test]
fn writer_masks_high_bits() {
    let mut w = BitWriter::new();
    w.put(u64::MAX, 3);
    w.put(0, 5);
    assert_eq!(w.finish(), vec![0b1110_0000]);
}

#[test]
fn zigzag_extremes() {
    for v in [0, -1, 1, i64::MIN, i64::MAX, -12345, 987654321] {
        assert_eq!(unzigzag(zigzag(v)), v);
    }
    assert_eq!(zigzag(-1), 1);
    assert_eq!(zigzag(1), 2);
    assert_eq!(zigzag(i64::MIN), u64::MAX);
}

#[test]
fn varint_roundtrip_and_rejects_truncation() {
    let mut out = Vec::new();
    let vals = [0u64, 1, 127, 128, 300, u32::MAX as u64, u64::MAX];
    for &v in &vals {
        put_varint(&mut out, v);
    }
    let mut pos = 0;
    for &v in &vals {
        assert_eq!(get_varint(&out, &mut pos).unwrap(), v);
    }
    assert_eq!(pos, out.len());
    let mut pos = 0;
    assert_eq!(
        get_varint(&[0x80, 0x80], &mut pos),
        Err(DecodeError::UnexpectedEof)
    );
    let mut pos = 0;
    assert!(get_varint(&[0xff; 11], &mut pos).is_err());
}

#[test]
fn varint_bytes_are_leb128() {
    let mut out = Vec::new();
    put_varint(&mut out, 300);
    assert_eq!(out, vec![0xAC, 0x02]);
    out.clear();
    put_varint(&mut out, u64::MAX);
    assert_eq!(out.len(), 10);
    assert_eq!(out[9], 1);
}

#[test]
fn varint_errors_name_their_reason() {
    let mut pos = 0;
    assert_eq!(
        get_varint(&[0xff; 11], &mut pos),
        Err(DecodeError::Corrupt("varint overflows u64"))
    );
    let mut pos = 0;
    let long = [0x80, 0x80, 0x80, 0x80, 0x80, 0x80, 0x80, 0x80, 0x80, 0x80, 0x00];
    assert_eq!(
        get_varint(&long, &mut pos),
        Err(DecodeError::Corrupt("varint longer than 10 bytes"))
    );
    let mut pos = 3;
    assert_eq!(
        get_varint(&[1, 2, 3], &mut pos),
        Err(DecodeError::UnexpectedEof)
    );
}

#[test]
fn width_counts_binary_digits() {
    assert_eq!(width(0), 0);
    assert_eq!(width(1), 1);
    assert_eq!(width(255), 8);
    assert_eq!(width(256), 9);
    assert_eq!(width(u64::MAX), 64);
}

#[test]
fn sized_fields_carry_their_width() {
    for v in [0u64, 1, 5, 1 << 40, u64::MAX] {
        let mut w = BitWriter::new();
        put_sized(&mut w, v);
        assert_eq!(w.bit_len(), sized_cost(v));
        assert_eq!(sized_cost(v), 7 + width(v) as u64);
        let bytes = w.finish();
        assert_eq!(get_sized(&mut BitReader::new(&bytes)), Ok(v));
    }
    // A width of 65 does not exist.
    assert_eq!(
        get_sized(&mut BitReader::new(&[0b1000_0010, 0, 0, 0, 0, 0, 0, 0, 0, 0])),
        Err(DecodeError::Corrupt("field width above 64"))
    );
}

#[test]
fn counter_counts_what_the_writer_writes() {
    let mut c = BitCounter::default();
    let mut w = BitWriter::new();
    for i in 0..200u64 {
        let bits = (i * 7 % 65) as u32;
        c.put(i, bits);
        w.put(i, bits);
    }
    assert_eq!(c.bits, w.bit_len());
}

#[test]
fn prefix_comes_before_the_bits() {
    let mut w = BitWriter::with_prefix(vec![7, 9]);
    w.put(0b11, 2);
    assert_eq!(w.bit_len(), 2);
    assert_eq!(w.finish(), vec![7, 9, 0b1100_0000]);
}

#[test]
fn wide_and_empty_reads() {
    let bytes = [0xAB; 16];
    let mut r = BitReader::new(&bytes);
    assert_eq!(r.read(0), Ok(0));
    assert_eq!(r.read(65), Err(DecodeError::UnexpectedEof));
    assert_eq!(r.read(4), Ok(0xA));
    assert_eq!(r.read(64), Ok(0xBABA_BABA_BABA_BABA));
    assert_eq!(r.read_bit(), Ok(true));
}

#[test]
fn errors_in_words() {
    assert_eq!(DecodeError::UnexpectedEof.message(), "unexpected end of input");
    assert_eq!(
        DecodeError::Corrupt("zero block size").message(),
        "corrupt input: zero block size"
    );
}

#[test]
fn fields_read_back_without_their_high_bits() {
    let fields = [(u64::MAX, 5u32), (0x1234, 8), (7, 0), (u64::MAX, 64), (0b1010, 3)];
    let mut w = BitWriter::new();
    for (v, b) in fields {
        w.put(v, b);
    }
    let bytes = w.finish();
    let mut r = BitReader::new(&bytes);
    for (b, want) in [(5u32, 31u64), (8, 0x34), (0, 0), (64, u64::MAX), (3, 0b010)] {
        assert_eq!(r.read(b), Ok(want));
    }
}
