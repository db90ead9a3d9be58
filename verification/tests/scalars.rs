use repr::{Error, Source, Type};

fn encode<T: Type>(value: &T) -> Vec<u8> {
    let mut out = Vec::new();
    let count = value.encode_bin(&mut out);
    assert_eq!(count, out.len());
    out
}

fn decode<T: Type>(bytes: &[u8]) -> Result<T, Error> {
    let mut src = Source::new(bytes);
    T::decode_bin(&mut src)
}

#[test]
fn bool_true_is_ff() {
    assert_eq!(encode(&true), vec![0xFF]);
}

#[test]
fn bool_false_is_00() {
    assert_eq!(encode(&false), vec![0x00]);
}

#[test]
fn bool_any_nonzero_byte_is_true() {
    for b in 1..=255u8 {
        assert_eq!(decode::<bool>(&[b]), Ok(true));
    }
    assert_eq!(decode::<bool>(&[0]), Ok(false));
}

#[test]
fn bool_from_nothing_is_eof() {
    assert_eq!(decode::<bool>(&[]), Err(Error::UnexpectedEof));
}

#[test]
fn u8_is_one_raw_byte() {
    assert_eq!(encode(&0xABu8), vec![0xAB]);
    assert_eq!(decode::<u8>(&[0xAB, 0x01]), Ok(0xAB));
    assert_eq!(decode::<u8>(&[]), Err(Error::UnexpectedEof));
}

#[test]
fn u16_is_big_endian() {
    assert_eq!(encode(&0x1234u16), vec![0x12, 0x34]);
    assert_eq!(decode::<u16>(&[0x12, 0x34]), Ok(0x1234));
    assert_eq!(decode::<u16>(&[0xFF, 0xFF]), Ok(u16::MAX));
}

#[test]
fn u32_is_big_endian() {
    assert_eq!(encode(&0x1234_5678u32), vec![0x12, 0x34, 0x56, 0x78]);
    assert_eq!(decode::<u32>(&[0x12, 0x34, 0x56, 0x78]), Ok(0x1234_5678));
    assert_eq!(decode::<u32>(&[0xFF, 0xFF, 0xFF, 0xFF]), Ok(u32::MAX));
}

#[test]
fn u64_is_big_endian() {
    assert_eq!(
        encode(&0x0102_0304_0506_0708u64),
        vec![0x01, 0x02, 0x03, 0x04, 0x05, 0x06, 0x07, 0x08]
    );
    assert_eq!(
        decode::<u64>(&[0x01, 0x02, 0x03, 0x04, 0x05, 0x06, 0x07, 0x08]),
        Ok(0x0102_0304_0506_0708)
    );
    assert_eq!(decode::<u64>(&[0xFF; 8]), Ok(u64::MAX));
}

#[test]
fn i32_is_its_unsigned_bits() {
    assert_eq!(encode(&-1i32), vec![0xFF, 0xFF, 0xFF, 0xFF]);
    assert_eq!(encode(&-2i32), vec![0xFF, 0xFF, 0xFF, 0xFE]);
    assert_eq!(encode(&i32::MIN), vec![0x80, 0x00, 0x00, 0x00]);
    assert_eq!(encode(&258i32), vec![0x00, 0x00, 0x01, 0x02]);
    assert_eq!(decode::<i32>(&[0xFF, 0xFF, 0xFF, 0xFE]), Ok(-2));
    assert_eq!(decode::<i32>(&[0x80, 0x00, 0x00, 0x00]), Ok(i32::MIN));
    assert_eq!(decode::<i32>(&[0x7F, 0xFF, 0xFF, 0xFF]), Ok(i32::MAX));
}

#[test]
fn i64_is_its_unsigned_bits() {
    assert_eq!(encode(&-1i64), vec![0xFF; 8]);
    assert_eq!(
        encode(&i64::MIN),
        vec![0x80, 0x00, 0x00, 0x00, 0x00, 0x00, 0x00, 0x00]
    );
    assert_eq!(encode(&1i64), vec![0x00, 0x00, 0x00, 0x00, 0x00, 0x00, 0x00, 0x01]);
    assert_eq!(decode::<i64>(&[0xFF; 8]), Ok(-1));
    assert_eq!(
        decode::<i64>(&[0x80, 0x00, 0x00, 0x00, 0x00, 0x00, 0x00, 0x00]),
        Ok(i64::MIN)
    );
}

#[test]
fn fixed_width_round_trip() {
    for x in [0u16, 1, 255, 256, u16::MAX] {
        assert_eq!(decode::<u16>(&encode(&x)), Ok(x));
    }
    for x in [0u32, 1, 65535, 65536, u32::MAX] {
        assert_eq!(decode::<u32>(&encode(&x)), Ok(x));
    }
    for x in [0u64, 1, 1 << 32, 1 << 56, u64::MAX] {
        assert_eq!(decode::<u64>(&encode(&x)), Ok(x));
    }
    for x in [0i32, 1, -1, i32::MIN, i32::MAX] {
        assert_eq!(decode::<i32>(&encode(&x)), Ok(x));
    }
    for x in [0i64, 1, -1, i64::MIN, i64::MAX] {
        assert_eq!(decode::<i64>(&encode(&x)), Ok(x));
    }
}

#[test]
fn fixed_width_truncated_is_eof() {
    assert_eq!(decode::<u16>(&[0x12]), Err(Error::UnexpectedEof));
    assert_eq!(decode::<u32>(&[0x12, 0x34, 0x56]), Err(Error::UnexpectedEof));
    assert_eq!(decode::<i32>(&[]), Err(Error::UnexpectedEof));
    assert_eq!(decode::<u64>(&[0; 7]), Err(Error::UnexpectedEof));
    assert_eq!(decode::<i64>(&[0; 4]), Err(Error::UnexpectedEof));
}

#[test]
fn fixed_width_decode_leaves_the_rest() {
    let bytes = [0x00, 0x01, 0x02, 0x03, 0x04];
    let mut src = Source::new(&bytes);
    assert_eq!(u16::decode_bin(&mut src), Ok(1));
    assert_eq!(src.remaining(), 3);
    assert_eq!(u16::decode_bin(&mut src), Ok(0x0203));
    assert_eq!(u16::decode_bin(&mut src), Err(Error::UnexpectedEof));
}

#[test]
fn unit_is_no_bytes() {
    assert_eq!(encode(&()), Vec::<u8>::new());
    assert_eq!(decode::<()>(&[]), Ok(()));
    let bytes = [0x07];
    let mut src = Source::new(&bytes);
    assert_eq!(<()>::decode_bin(&mut src), Ok(()));
    assert_eq!(src.remaining(), 1);
}

#[test]
fn reference_encodes_as_its_target() {
    let x = 0x0102u16;
    assert_eq!(encode(&&x), vec![0x01, 0x02]);
}

#[test]
fn reference_cannot_be_decoded() {
    let bytes = [0x01, 0x02];
    let mut src = Source::new(&bytes);
    assert_eq!(<&u16>::decode_bin(&mut src), Err(Error::InvalidData));
    assert_eq!(src.remaining(), 2);
}

#[test]
fn source_reads() {
    let bytes = [1u8, 2, 3, 4];
    let mut src = Source::new(&bytes);
    assert_eq!(src.remaining(), 4);
    assert_eq!(src.read_u8(), Ok(1));
    assert_eq!(src.read_exact(2), Ok(&bytes[1..3]));
    assert_eq!(src.read_exact(2), Err(Error::UnexpectedEof));
    assert_eq!(src.remaining(), 1);
    assert_eq!(src.read_exact(0), Ok(&bytes[0..0]));
    assert_eq!(src.read_u8(), Ok(4));
    assert_eq!(src.read_u8(), Err(Error::UnexpectedEof));
}

#[test]
fn float_is_its_bits_big_endian() {
    let f = repr::Float::from_bits(4.5f64.to_bits());
    assert_eq!(encode(&f), vec![0x40, 0x12, 0x00, 0x00, 0x00, 0x00, 0x00, 0x00]);
    let back = decode::<repr::Float>(&[0x40, 0x12, 0, 0, 0, 0, 0, 0]).unwrap();
    assert_eq!(f64::from_bits(back.to_bits()), 4.5);
    assert_eq!(back, f);
}

#[test]
fn float_keeps_every_bit_pattern() {
    for x in [0.0f64, -0.0, 1.0, -1.5, f64::MAX, f64::MIN_POSITIVE, f64::INFINITY, f64::NAN] {
        let f = repr::Float::from_bits(x.to_bits());
        let back = decode::<repr::Float>(&encode(&f)).unwrap();
        assert_eq!(back.to_bits(), x.to_bits());
    }
    assert_eq!(decode::<repr::Float>(&[0; 7]), Err(Error::UnexpectedEof));
}
