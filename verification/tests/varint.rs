use repr::{decode_int, encode_int, Error, Int, Source, Type};

fn written(n: i64) -> Vec<u8> {
    let mut out = Vec::new();
    let count = encode_int(n, &mut out);
    assert_eq!(count, out.len());
    out
}

fn read(bytes: &[u8]) -> (Result<Int, Error>, usize) {
    let mut src = Source::new(bytes);
    let r = decode_int(&mut src);
    (r, src.remaining())
}

#[test]
fn varint_below_128_is_one_byte() {
    for n in 0..128i64 {
        assert_eq!(written(n), vec![n as u8]);
    }
}

#[test]
fn varint_128_takes_two_bytes() {
    assert_eq!(written(128), vec![0x80, 0x01]);
}

#[test]
fn varint_500_takes_two_bytes() {
    assert_eq!(written(500), vec![0xF4, 0x03]);
}

#[test]
fn varint_4096() {
    assert_eq!(written(4096), vec![0x80, 0x20]);
}

#[test]
fn varint_largest_positive() {
    assert_eq!(
        written(i64::MAX),
        vec![0xFF, 0xFF, 0xFF, 0xFF, 0xFF, 0xFF, 0xFF, 0xFF, 0x7F]
    );
}

#[test]
fn varint_appends_to_what_is_there() {
    let mut out = vec![0xAA];
    assert_eq!(encode_int(300, &mut out), 2);
    assert_eq!(out, vec![0xAA, 0xAC, 0x02]);
}

// A negative number is written as its unsigned 64-bit bit pattern, shifted
// logically: ten bytes, and encoding ends.
#[test]
fn varint_negative_is_its_bit_pattern() {
    assert_eq!(
        written(-1),
        vec![0xFF, 0xFF, 0xFF, 0xFF, 0xFF, 0xFF, 0xFF, 0xFF, 0xFF, 0x01]
    );
    assert_eq!(
        written(i64::MIN),
        vec![0x80, 0x80, 0x80, 0x80, 0x80, 0x80, 0x80, 0x80, 0x80, 0x01]
    );
}

#[test]
fn varint_negative_round_trip() {
    for n in [-1i64, -2, -128, -500, -1_000_000, (isize::MIN as i64)] {
        let bytes = written(n);
        assert_eq!(read(&bytes), (Ok(n as Int), 0));
    }
}

#[test]
fn varint_round_trip() {
    for n in [0i64, 1, 127, 128, 255, 256, 500, 16383, 16384, 1 << 35, (isize::MAX as i64)] {
        let bytes = written(n);
        assert_eq!(read(&bytes), (Ok(n as Int), 0));
    }
}

#[test]
fn varint_decode_stops_behind_the_number() {
    assert_eq!(read(&[0xF4, 0x03, 0x99, 0x98]), (Ok(500), 2));
    assert_eq!(read(&[0x05, 0x80]), (Ok(5), 1));
}

#[test]
fn varint_decode_accepts_padding_groups() {
    assert_eq!(read(&[0x81, 0x80, 0x00]), (Ok(1), 0));
}

#[test]
fn varint_decode_empty_is_eof() {
    assert_eq!(read(&[]), (Err(Error::UnexpectedEof), 0));
}

#[test]
fn varint_decode_without_last_byte_is_eof() {
    assert_eq!(read(&[0x80]), (Err(Error::UnexpectedEof), 0));
    assert_eq!(read(&[0xF4, 0x83, 0xFF]), (Err(Error::UnexpectedEof), 0));
}

// Groups beyond the 64 bits that are kept add nothing.
#[test]
fn varint_decode_drops_bits_beyond_the_width() {
    let bytes = [0x81, 0x80, 0x80, 0x80, 0x80, 0x80, 0x80, 0x80, 0x80, 0x80, 0x7F];
    assert_eq!(read(&bytes), (Ok(1), 0));
}

#[test]
fn isize_uses_varint() {
    let mut out = Vec::new();
    assert_eq!(123isize.encode_bin(&mut out), 1);
    assert_eq!(out, vec![0x7B]);
    let mut src = Source::new(&out);
    assert_eq!(isize::decode_bin(&mut src), Ok(123));
}

#[test]
fn isize_negative_round_trip() {
    let mut out = Vec::new();
    assert_eq!((-7isize).encode_bin(&mut out), 10);
    let mut src = Source::new(&out);
    assert_eq!(isize::decode_bin(&mut src), Ok(-7));
    assert_eq!(src.remaining(), 0);
}

#[test]
fn usize_uses_varint() {
    let mut out = Vec::new();
    assert_eq!(500usize.encode_bin(&mut out), 2);
    assert_eq!(out, vec![0xF4, 0x03]);
    let mut src = Source::new(&out);
    assert_eq!(usize::decode_bin(&mut src), Ok(500));
}

#[test]
fn usize_largest_round_trip() {
    let mut out = Vec::new();
    usize::MAX.encode_bin(&mut out);
    let mut src = Source::new(&out);
    assert_eq!(usize::decode_bin(&mut src), Ok(usize::MAX));
}
