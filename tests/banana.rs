use twisted_banana::{Banana, DecodeError, Element, Profile};

#[test]
fn length_type() {
    assert!(Banana::length_type("".as_bytes()).is_err());
    assert_eq!(
        Banana::length_type(&[0x42, 0x24, 0x82, 0x01]).unwrap(),
        (&[0x42 as u8, 0x24 as u8] as &[u8], 0x82 as u8,)
    );
}

#[test]
fn decode_integers() {
    let bytes: &[u8] = &[0x12, 0x34, 0x81];
    assert_eq!(Banana::from_bytes(&bytes), Ok(Element::Integer(6674)));
    let bytes: &[u8] = &[0x7f, 0x7f, 0x7f, 0x7f, 0x07, 0x81];
    assert_eq!(
        Banana::from_bytes(&bytes),
        Ok(Element::Integer(i32::max_value()))
    );
    let bytes: &[u8] = &[0x00, 0x00, 0x00, 0x00, 0x08, 0x81];
    assert_eq!(
        Banana::from_bytes(&bytes),
        Err(DecodeError::OverFlow(vec![0, 0, 0, 0, 8]))
    );
    let bytes: &[u8] = &[0x12, 0x34, 0x83];
    assert_eq!(Banana::from_bytes(&bytes), Ok(Element::Integer(-6674)));
    let bytes: &[u8] = &[0x00, 0x00, 0x00, 0x00, 0x08, 0x83];
    assert_eq!(
        Banana::from_bytes(&bytes),
        Ok(Element::Integer(i32::min_value()))
    );
}

#[test]
fn encode_integers() {
    let elt: Banana = Element::Integer(12);
    assert_eq!(&elt.encode(), &[0x0c, 0x81]);

    let elt: Banana = Element::Integer(6674);
    assert_eq!(&elt.encode(), &[0x12, 0x34, 0x81]);

    let elt: Banana = Element::Integer(-6674);
    assert_eq!(&elt.encode(), &[0x12, 0x34, 0x83]);

    let elt: Banana = Element::Integer(i32::min_value());
    assert_eq!(&elt.encode(), &[0x00, 0x00, 0x00, 0x00, 0x08, 0x83]);
}

#[test]
fn decode_string() {
    let bytes: &[u8] = &[0x03, 0x82, b'b', b'a', b'n'];
    assert_eq!(
        Banana::from_bytes(&bytes),
        Ok(Element::String(String::from("ban").into_bytes()))
    );
    let bytes: &[u8] = &[0x04, 0x82, b'b', b'a', b'n'];
    assert_eq!(Banana::from_bytes(&bytes), Err(DecodeError::TooShort(4, 3)));
}

#[test]
fn encode_string() {
    let elt: Banana = Element::String(String::from("ban").into_bytes());
    assert_eq!(&elt.encode(), &[0x03, 0x82, b'b', b'a', b'n']);
}

#[test]
fn decode_float() {
    // 23.0 as a big-endian IEEE-754 double, with extra content at the end
    let bytes: &[u8] = &[0x84, 0x40, 0x37, 0, 0, 0, 0, 0, 0, 12, 12];
    assert_eq!(
        Banana::from_bytes(&bytes),
        Ok(Element::Float((23 as f64).to_bits()))
    );
    let bytes: &[u8] = &[0x84, 0x3f, 0xf8];
    assert_eq!(Banana::from_bytes(&bytes), Err(DecodeError::TooShort(9, 3)));
}

#[test]
fn encode_float() {
    let elt: Banana = Element::Float((23 as f64).to_bits());
    assert_eq!(&elt.encode(), &[0x84, 0x40, 0x37, 0, 0, 0, 0, 0, 0]);
}

#[test]
fn decode_list() {
    let bytes: &[u8] = &[0x02, 0x80, 0x02, 0x81, 0x03, 0x83];
    assert_eq!(
        Banana::from_bytes(&bytes).unwrap(),
        Element::List(vec![Element::Integer(2), Element::Integer(-3)])
    );
    let bytes: &[u8] = &[0x80];
    assert_eq!(
        Banana::from_bytes(&bytes),
        Err(DecodeError::Invalid("List without a length".into()))
    );
}

#[test]
fn encode_list() {
    let elt: Banana = Element::List(vec![Element::Integer(2), Element::Integer(-3)]);
    assert_eq!(&elt.encode(), &[0x02, 0x80, 0x02, 0x81, 0x03, 0x83]);
}

#[test]
fn spec_examples() {
    // integer
    let bytes: &[u8] = &[0x01, 0x81];
    assert_eq!(Banana::from_bytes(&bytes).unwrap(), Element::Integer(1));

    let bytes: &[u8] = &[0x01, 0x83];
    assert_eq!(Banana::from_bytes(&bytes).unwrap(), Element::Integer(-1));

    // float
    let bytes: &[u8] = &[0x84, 0x3f, 0xf8, 0, 0, 0, 0, 0, 0];
    assert_eq!(
        Banana::from_bytes(&bytes).unwrap(),
        Element::Float((1.5 as f64).to_bits())
    );

    // string
    let bytes: &[u8] = &[0x05, 0x82, 0x68, 0x65, 0x6c, 0x6c, 0x6f];
    assert_eq!(
        Banana::from_bytes(&bytes).unwrap(),
        Element::String(String::from("hello").into_bytes())
    );

    // lists
    let bytes: &[u8] = &[0, 0x80];
    assert_eq!(Banana::from_bytes(&bytes).unwrap(), Element::List(vec![]));
    let bytes: &[u8] = &[2, 0x80, 0x01, 0x81, 0x17, 0x81];
    assert_eq!(
        Banana::from_bytes(&bytes).unwrap(),
        Element::List(vec![Element::Integer(1), Element::Integer(23)])
    );
    let bytes: &[u8] = &[
        2, 0x80, 1, 0x81, 1, 0x80, 5, 0x82, 0x68, 0x65, 0x6c, 0x6c, 0x6f,
    ];
    assert_eq!(
        Banana::from_bytes(&bytes).unwrap(),
        Element::List(vec![
            Element::Integer(1),
            Element::List(vec![Element::String(String::from("hello").into_bytes()),]),
        ])
    );
}

/// A profile that claims delimiter 0xff, with at most one preamble byte.
#[derive(Debug, PartialEq)]
struct TestProfile {
    contents: Option<u8>,
}

type TestProto = Element<TestProfile>;

impl TestProfile {
    fn some(val: u8) -> TestProfile {
        TestProfile {
            contents: Some(val),
        }
    }

    fn none() -> TestProfile {
        TestProfile { contents: None }
    }
}

impl Profile for TestProfile {
    fn decode<'a>(
        delimiter: u8,
        preamble: &'a [u8],
        full_msg: &'a [u8],
    ) -> Result<(TestProfile, &'a [u8]), DecodeError> {
        if delimiter != 0xff {
            return Err(DecodeError::UnknownType(delimiter));
        }
        let rem = match full_msg.get(2..) {
            None => &[],
            Some(sl) => sl,
        };
        match preamble.len() {
            0 => Ok((TestProfile { contents: None }, rem)),
            1 => Ok((
                TestProfile {
                    contents: Some(preamble[0]),
                },
                rem,
            )),
            _ => Err(DecodeError::Invalid("Invalid length".into())),
        }
    }

    fn encode(&self, v: &mut Vec<u8>) {
        if let Some(u) = self.contents {
            v.push(u);
        }
        v.push(0xff);
    }
}

#[test]
fn decode_with_profile() {
    let bytes: &[u8] = &[b'a', 0xff];
    assert_eq!(
        TestProto::from_bytes(&bytes).unwrap(),
        Element::Extension(TestProfile::some(b'a'))
    );

    let bytes: &[u8] = &[0xff];
    assert_eq!(
        TestProto::from_bytes(&bytes).unwrap(),
        Element::Extension(TestProfile::none())
    );

    let bytes: &[u8] = &[b'a', 0xfe];
    assert_eq!(
        TestProto::from_bytes(&bytes),
        Err(DecodeError::UnknownType(0xfe))
    );

    let bytes: &[u8] = &[0x01, 0x02, 0xff];
    assert!(match TestProto::from_bytes(&bytes) {
        Err(DecodeError::Invalid(_)) => true,
        _ => false,
    });

    // recursion into vanilla Banana
    let bytes: &[u8] = &[2, 0x80, b'%', 0xff, 127, 0x81];
    assert_eq!(
        TestProto::from_bytes(&bytes).unwrap(),
        Element::List(vec![
            Element::Extension(TestProfile::some(b'%')),
            Element::Integer(127),
        ])
    );
}

#[test]
fn encode_with_profile() {
    let elt: TestProto = Element::List(vec![
        Element::Integer(2),
        Element::Extension(TestProfile::some(b'-')),
    ]);
    assert_eq!(&elt.encode(), &[0x02, 0x80, 0x02, 0x81, b'-', 0xff]);
}
