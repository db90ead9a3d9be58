use repr::{Error, Source, Type};

#[test]
fn test_int_string_pair() {
    let a = (123isize, "abc".to_string());
    let data: &[u8] = &[0x7B, 0x03, 0x61, 0x62, 0x63];
    let mut output = Vec::new();
    a.encode_bin(&mut output);
    assert_eq!(output.as_slice(), data);

    let t: (isize, String) = Type::decode_bin(&mut Source::new(output.as_slice())).unwrap();
    assert_eq!(a, t);
}

#[test]
fn test_int_long_string_pair() {
    let s = [b'A'; 4096];
    let s = std::str::from_utf8(&s).unwrap();
    let a = (500isize, s.to_string());
    let mut data = vec![0xF4u8, 0x03, 0x80, 0x20];
    data.extend_from_slice(&[b'A'; 4096]);
    let mut output = Vec::new();
    a.encode_bin(&mut output);
    assert_eq!(output, data);

    let t: (isize, String) = Type::decode_bin(&mut Source::new(output.as_slice())).unwrap();
    assert_eq!(a, t);
}

#[derive(Debug, PartialEq)]
struct Test {
    a: isize,
    b: Vec<String>,
}

// A record is its fields in the order of their declaration.  The items of
// the capability that only a proof reads are never run.
impl Type for Test {
    type Model = ();

    fn model(&self) {}

    fn representable(_: ()) -> bool {
        true
    }

    fn decodable() -> bool {
        true
    }

    fn encoding(_: ()) -> vstd::seq::Seq<u8> {
        unreachable!()
    }

    fn decoding(_: vstd::seq::Seq<u8>) -> Result<((), vstd::prelude::nat), Error> {
        unreachable!()
    }

    fn lemma_round_trip(_: (), _: vstd::seq::Seq<u8>) {}

    fn encode_bin(&self, dest: &mut Vec<u8>) -> usize {
        let mut n = self.a.encode_bin(dest);
        n += self.b.encode_bin(dest);
        n
    }

    fn decode_bin(src: &mut Source) -> Result<Self, Error> {
        let a = isize::decode_bin(src)?;
        let b = Vec::<String>::decode_bin(src)?;
        Ok(Test { a, b })
    }
}

#[test]
fn test_struct1() {
    let s = Test {
        a: 999,
        b: vec!["B".to_string(); 16],
    };
    let mut data = vec![0xE7u8, 0x07, 0x10];
    for _ in 0..16 {
        data.extend_from_slice(&[0x01, 0x42]);
    }
    let mut output = Vec::new();
    s.encode_bin(&mut output);
    assert_eq!(output, data);

    let t: Test = Type::decode_bin(&mut Source::new(output.as_slice())).unwrap();
    assert_eq!(s, t);
}

#[test]
fn record_inside_containers() {
    let records = vec![
        Some(Test { a: 1, b: vec![] }),
        None,
        Some(Test { a: -1, b: vec!["x".to_string()] }),
    ];
    let mut output = Vec::new();
    let n = records.encode_bin(&mut output);
    assert_eq!(n, output.len());
    assert_eq!(
        output,
        vec![
            0x03, 0xFF, 0x01, 0x00, 0x00, 0xFF, 0xFF, 0xFF, 0xFF, 0xFF, 0xFF, 0xFF, 0xFF, 0xFF,
            0xFF, 0x01, 0x01, 0x01, 0x78
        ]
    );
    let back: Vec<Option<Test>> = Type::decode_bin(&mut Source::new(&output)).unwrap();
    assert_eq!(back, records);
}

#[test]
fn record_cut_short_is_eof() {
    let bytes = [0xE7u8, 0x07, 0x02, 0x01, 0x42];
    let r: Result<Test, Error> = Type::decode_bin(&mut Source::new(&bytes));
    assert_eq!(r, Err(Error::UnexpectedEof));
}
