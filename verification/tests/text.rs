use repr::{Bytes, Error, Source, Str, Type};

fn encode<T: Type>(value: &T) -> Vec<u8> {
    let mut out = Vec::new();
    let count = value.encode_bin(&mut out);
    assert_eq!(count, out.len());
    out
}

fn decode<T: Type>(bytes: &[u8]) -> Result<T, Error> {
    let mut src = Source::new(bytes);
    T::decode_bin(&mut src)
}

#[test]
fn string_is_length_then_bytes() {
    assert_eq!(encode(&"abc".to_string()), vec![0x03, 0x61, 0x62, 0x63]);
    assert_eq!(encode(&String::new()), vec![0x00]);
}

#[test]
fn string_length_counts_bytes_not_chars() {
    assert_eq!(encode(&"é€".to_string()), vec![0x05, 0xC3, 0xA9, 0xE2, 0x82, 0xAC]);
}

#[test]
fn string_round_trip() {
    for s in ["", "a", "hello world", "é€😀", "\0\n"] {
        let owned = s.to_string();
        assert_eq!(decode::<String>(&encode(&owned)), Ok(owned));
    }
}

#[test]
fn string_decodes_multibyte_text() {
    assert_eq!(
        decode::<String>(&[0x05, 0xC3, 0xA9, 0xE2, 0x82, 0xAC]),
        Ok("é€".to_string())
    );
}

#[test]
fn long_string_has_a_two_byte_length() {
    let s = "x".repeat(200);
    let bytes = encode(&s);
    assert_eq!(&bytes[..2], &[0xC8, 0x01]);
    assert_eq!(bytes.len(), 202);
    assert_eq!(decode::<String>(&bytes), Ok(s));
}

#[test]
fn malformed_utf8_is_invalid_data() {
    assert_eq!(decode::<String>(&[0x02, 0xC3, 0x28]), Err(Error::InvalidData));
    assert_eq!(decode::<String>(&[0x01, 0xFF]), Err(Error::InvalidData));
    assert_eq!(decode::<String>(&[0x03, 0x61, 0x80, 0x62]), Err(Error::InvalidData));
}

#[test]
fn malformed_utf8_in_a_view_is_invalid_data() {
    assert!(matches!(decode::<Str>(&[0x02, 0xC3, 0x28]), Err(Error::InvalidData)));
    assert!(matches!(decode::<Str>(&[0x03, 0xED, 0xA0, 0x80]), Err(Error::InvalidData)));
}

#[test]
fn truncated_string_is_eof() {
    assert_eq!(decode::<String>(&[0x03, 0x61, 0x62]), Err(Error::UnexpectedEof));
    assert_eq!(decode::<String>(&[0x01]), Err(Error::UnexpectedEof));
    assert_eq!(decode::<String>(&[]), Err(Error::UnexpectedEof));
    assert_eq!(decode::<String>(&[0x80]), Err(Error::UnexpectedEof));
}

#[test]
fn truncated_string_is_eof_before_it_is_invalid() {
    assert_eq!(decode::<String>(&[0x03, 0xFF, 0xFF]), Err(Error::UnexpectedEof));
}

#[test]
fn huge_announced_length_is_eof() {
    let mut bytes = Vec::new();
    usize::MAX.encode_bin(&mut bytes);
    bytes.push(0x61);
    assert_eq!(decode::<String>(&bytes), Err(Error::UnexpectedEof));
    assert!(matches!(decode::<Bytes>(&bytes), Err(Error::UnexpectedEof)));
}

#[test]
fn string_decode_leaves_the_rest() {
    let bytes = [0x01, 0x61, 0x01, 0x62];
    let mut src = Source::new(&bytes);
    assert_eq!(String::decode_bin(&mut src), Ok("a".to_string()));
    assert_eq!(src.remaining(), 2);
    assert_eq!(String::decode_bin(&mut src), Ok("b".to_string()));
    assert_eq!(src.remaining(), 0);
}

#[test]
fn str_reference_encodes_like_a_string() {
    assert_eq!(encode(&"abc"), vec![0x03, 0x61, 0x62, 0x63]);
}

#[test]
fn str_reference_cannot_be_decoded() {
    assert_eq!(decode::<&str>(&[0x01, 0x61]), Err(Error::InvalidData));
}

#[test]
fn str_view_variants_encode_alike() {
    let borrowed = Str::Ref("héllo");
    let owned = Str::Owned("héllo".to_string());
    assert_eq!(encode(&borrowed), encode(&owned));
    assert_eq!(encode(&borrowed), vec![0x06, 0x68, 0xC3, 0xA9, 0x6C, 0x6C, 0x6F]);
}

#[test]
fn str_view_len_and_as_ref() {
    let borrowed = Str::Ref("héllo");
    assert_eq!(borrowed.len(), 6);
    assert_eq!(borrowed.as_ref(), "héllo");
    let owned = Str::Owned("ab".to_string());
    assert_eq!(owned.len(), 2);
    assert_eq!(owned.as_ref(), "ab");
}

#[test]
fn str_view_decodes_to_owned() {
    match decode::<Str>(&[0x02, 0x68, 0x69]) {
        Ok(Str::Owned(s)) => assert_eq!(s, "hi"),
        _ => panic!("expected owned text"),
    }
}

#[test]
fn bytes_are_length_then_bytes() {
    let data = [0xDE, 0xAD, 0xBE, 0xEF];
    assert_eq!(encode(&Bytes::Ref(&data)), vec![0x04, 0xDE, 0xAD, 0xBE, 0xEF]);
    assert_eq!(encode(&Bytes::Owned(data.to_vec())), vec![0x04, 0xDE, 0xAD, 0xBE, 0xEF]);
    assert_eq!(encode(&Bytes::Ref(&[])), vec![0x00]);
}

#[test]
fn bytes_decode_to_owned_without_validation() {
    match decode::<Bytes>(&[0x02, 0xC3, 0x28, 0x77]) {
        Ok(Bytes::Owned(b)) => assert_eq!(b, vec![0xC3, 0x28]),
        _ => panic!("expected owned bytes"),
    }
}

#[test]
fn bytes_len_and_as_ref() {
    let data = [1u8, 2, 3];
    let view = Bytes::Ref(&data);
    assert_eq!(view.len(), 3);
    assert_eq!(view.as_ref(), &data);
    let owned = Bytes::Owned(vec![9]);
    assert_eq!(owned.len(), 1);
    assert_eq!(owned.as_ref(), &[9]);
}

#[test]
fn truncated_bytes_are_eof() {
    assert!(matches!(decode::<Bytes>(&[0x02, 0x01]), Err(Error::UnexpectedEof)));
    assert!(matches!(decode::<Bytes>(&[]), Err(Error::UnexpectedEof)));
}

#[test]
fn bytes_match_a_sequence_of_u8() {
    let data = vec![7u8, 8, 9];
    assert_eq!(encode(&Bytes::Ref(&data)), encode(&data));
}
