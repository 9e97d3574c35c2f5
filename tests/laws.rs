use twisted_banana::{Banana, DecodeError, Element, PerspectiveBroker, PB};

fn all_opcodes() -> Vec<PB> {
    vec![
        PB::NoneValue,
        PB::Class,
        PB::DeReference,
        PB::Reference,
        PB::Dictionary,
        PB::Function,
        PB::Instance,
        PB::List,
        PB::Module,
        PB::Persistent,
        PB::Tuple,
        PB::UnPersistable,
        PB::Copy,
        PB::Cache,
        PB::Cached,
        PB::Remote,
        PB::Local,
        PB::LCache,
        PB::Version,
        PB::Login,
        PB::Password,
        PB::Challenge,
        PB::LoggedIn,
        PB::NotLoggedIn,
        PB::CacheMessage,
        PB::Message,
        PB::Answer,
        PB::Error,
        PB::DecRef,
        PB::DeCache,
        PB::UnCache,
    ]
}

fn sample_values() -> Vec<Banana> {
    vec![
        Element::Integer(0),
        Element::Integer(1),
        Element::Integer(-1),
        Element::Integer(127),
        Element::Integer(128),
        Element::Integer(-128),
        Element::Integer(i32::MAX),
        Element::Integer(i32::MIN),
        Element::String(vec![]),
        Element::String(vec![0x80, 0xff, 0x00]),
        Element::String(vec![b'x'; 300]),
        Element::Float((1.5 as f64).to_bits()),
        Element::Float(f64::NAN.to_bits()),
        Element::Float((-0.0 as f64).to_bits()),
        Element::List(vec![]),
        Element::List(vec![
            Element::Integer(-7),
            Element::List(vec![Element::String(b"abc".to_vec()), Element::List(vec![])]),
            Element::Float((2.25 as f64).to_bits()),
        ]),
    ]
}

#[test]
fn round_trip_plain_values() {
    for v in sample_values() {
        let bytes = v.encode();
        assert_eq!(Banana::from_bytes(&bytes), Ok(v));
    }
}

#[test]
fn round_trip_keeps_what_follows() {
    for v in sample_values() {
        let mut bytes = v.encode();
        let len = bytes.len();
        bytes.extend_from_slice(&[0x05, 0x81]);
        let (e, rem) = Banana::from_bytes_rem(&bytes).unwrap();
        assert_eq!(e, v);
        assert_eq!(rem, &bytes[len..]);
        assert_eq!(rem, &[0x05, 0x81]);
    }
}

#[test]
fn round_trip_every_opcode() {
    for (i, op) in all_opcodes().into_iter().enumerate() {
        let elt: PerspectiveBroker = Element::Extension(op.clone());
        let bytes = elt.encode();
        assert_eq!(bytes, vec![(i + 1) as u8, 0x87]);
        assert_eq!(PerspectiveBroker::from_bytes(&bytes), Ok(Element::Extension(op)));
    }
}

#[test]
fn round_trip_pb_list() {
    let elt: PerspectiveBroker = Element::List(vec![
        Element::Extension(PB::Copy),
        Element::Integer(-40000),
        Element::List(vec![Element::Extension(PB::UnCache), Element::String(b"a".to_vec())]),
    ]);
    let bytes = elt.encode();
    assert_eq!(PerspectiveBroker::from_bytes(&bytes), Ok(elt));
}

#[test]
fn copy_opcode_has_its_own_number() {
    let elt: PerspectiveBroker = Element::Extension(PB::Copy);
    assert_eq!(elt.encode(), vec![0x0d, 0x87]);
    let tuple: PerspectiveBroker = Element::Extension(PB::Tuple);
    assert_eq!(tuple.encode(), vec![0x0b, 0x87]);
}

#[test]
fn magnitude_boundaries() {
    let max: Banana = Element::Integer(i32::MAX);
    assert_eq!(max.encode(), vec![0x7f, 0x7f, 0x7f, 0x7f, 0x07, 0x81]);
    let min: Banana = Element::Integer(i32::MIN);
    assert_eq!(min.encode(), vec![0x00, 0x00, 0x00, 0x00, 0x08, 0x83]);
    assert_eq!(Banana::from_bytes(&max.encode()), Ok(max));
    assert_eq!(Banana::from_bytes(&min.encode()), Ok(min));
    // one beyond i32::MAX
    assert_eq!(
        Banana::from_bytes(&[0x00, 0x00, 0x00, 0x00, 0x08, 0x81]),
        Err(DecodeError::OverFlow(vec![0x00, 0x00, 0x00, 0x00, 0x08]))
    );
    // one beyond i32::MIN
    assert_eq!(
        Banana::from_bytes(&[0x01, 0x00, 0x00, 0x00, 0x08, 0x83]),
        Err(DecodeError::OverFlow(vec![0x01, 0x00, 0x00, 0x00, 0x08]))
    );
    // a digit more after the largest magnitude
    assert_eq!(
        Banana::from_bytes(&[0x00, 0x00, 0x00, 0x00, 0x00, 0x08, 0x83]),
        Err(DecodeError::OverFlow(vec![0x00, 0x00, 0x00, 0x00, 0x00, 0x08]))
    );
}

#[test]
fn leading_zero_digits_are_accepted() {
    assert_eq!(
        Banana::from_bytes(&[0x05, 0x00, 0x00, 0x00, 0x00, 0x00, 0x81]),
        Ok(Element::Integer(5))
    );
    assert_eq!(Banana::from_bytes(&[0x81]), Ok(Element::Integer(0)));
    assert_eq!(Banana::from_bytes(&[0x83]), Ok(Element::Integer(0)));
}

#[test]
fn truncated_string() {
    assert_eq!(
        Banana::from_bytes(&[0x04, 0x82, b'b', b'a', b'n']),
        Err(DecodeError::TooShort(4, 3))
    );
    assert_eq!(
        Banana::from_bytes(&[0x00, 0x01, 0x82]),
        Err(DecodeError::TooShort(128, 0))
    );
}

#[test]
fn list_shape() {
    assert_eq!(
        Banana::from_bytes(&[0x80]),
        Err(DecodeError::Invalid("List without a length".into()))
    );
    assert_eq!(Banana::from_bytes(&[0x00, 0x80]), Ok(Element::List(vec![])));
}

#[test]
fn list_child_error_ends_the_list() {
    assert_eq!(
        Banana::from_bytes(&[0x02, 0x80, 0x01, 0x81, 0x05, 0x82, 0x61]),
        Err(DecodeError::TooShort(5, 1))
    );
    assert_eq!(
        Banana::from_bytes(&[0x03, 0x80, 0x01, 0x81]),
        Err(DecodeError::Empty)
    );
    assert_eq!(
        Banana::from_bytes(&[0x02, 0x80, 0x01, 0x81, 0x01]),
        Err(DecodeError::NoType)
    );
}

#[test]
fn list_count_overflow() {
    assert_eq!(
        Banana::from_bytes(&[0x00, 0x00, 0x00, 0x00, 0x08, 0x80]),
        Err(DecodeError::OverFlow(vec![0x00, 0x00, 0x00, 0x00, 0x08]))
    );
}

#[test]
fn unknown_delimiter() {
    assert_eq!(
        Banana::from_bytes(&[0x61, 0xfe]),
        Err(DecodeError::UnknownType(0xfe))
    );
    assert_eq!(
        Banana::from_bytes(&[0x13, 0x87]),
        Err(DecodeError::UnknownType(0x87))
    );
    assert_eq!(
        PerspectiveBroker::from_bytes(&[0x01, 0x85]),
        Err(DecodeError::UnknownType(0x85))
    );
}

#[test]
fn empty_and_missing_delimiter() {
    assert_eq!(Banana::from_bytes(&[]), Err(DecodeError::Empty));
    assert_eq!(Banana::from_bytes(&[0x01, 0x02]), Err(DecodeError::NoType));
    assert_eq!(Banana::length_type(&[0x01, 0x7f]), Err(DecodeError::NoType));
    assert_eq!(Banana::length_type(&[]), Err(DecodeError::Empty));
    assert_eq!(
        Banana::length_type(&[0x80, 0x81]),
        Ok((&[] as &[u8], 0x80))
    );
}

#[test]
fn float_with_preamble() {
    assert_eq!(
        Banana::from_bytes(&[0x01, 0x84, 0, 0, 0, 0, 0, 0, 0, 0]),
        Err(DecodeError::Invalid(
            "Float values must not have a length preamble".into()
        ))
    );
}

#[test]
fn float_bytes_are_big_endian() {
    let bits: u64 = 0x0102_0304_0506_0708;
    let elt: Banana = Element::Float(bits);
    assert_eq!(
        elt.encode(),
        vec![0x84, 0x01, 0x02, 0x03, 0x04, 0x05, 0x06, 0x07, 0x08]
    );
    assert_eq!(
        Banana::from_bytes(&[0x84, 0x01, 0x02, 0x03, 0x04, 0x05, 0x06, 0x07, 0x08]),
        Ok(Element::Float(bits))
    );
}

#[test]
fn pb_preamble_length() {
    let msg = "PB element type 0x87 must be prefixed by exactly one byte";
    assert_eq!(
        PerspectiveBroker::from_bytes(&[0x87]),
        Err(DecodeError::Invalid(msg.into()))
    );
    assert_eq!(
        PerspectiveBroker::from_bytes(&[0x01, 0x02, 0x87]),
        Err(DecodeError::Invalid(msg.into()))
    );
}

#[test]
fn pb_unknown_opcode() {
    assert_eq!(
        PerspectiveBroker::from_bytes(&[0x20, 0x87]),
        Err(DecodeError::Invalid("Unknown PB short identifier 0x20".into()))
    );
    assert_eq!(
        PerspectiveBroker::from_bytes(&[0x00, 0x87]),
        Err(DecodeError::Invalid("Unknown PB short identifier 0x0".into()))
    );
    assert_eq!(
        PerspectiveBroker::from_bytes(&[0x7e, 0x87]),
        Err(DecodeError::Invalid("Unknown PB short identifier 0x7e".into()))
    );
}

#[test]
fn pb_error_inside_list_ends_it() {
    assert_eq!(
        PerspectiveBroker::from_bytes(&[0x02, 0x80, 0x13, 0x87, 0x3a, 0x87]),
        Err(DecodeError::Invalid("Unknown PB short identifier 0x3a".into()))
    );
}

#[test]
fn pb_session_start_scenario() {
    assert_eq!(
        PerspectiveBroker::from_bytes(&[0x02, 0x80, 0x13, 0x87, 0x06, 0x81]),
        Ok(Element::List(vec![
            Element::Extension(PB::Version),
            Element::Integer(6)
        ]))
    );
}

#[test]
fn trailing_bytes_are_ignored() {
    assert_eq!(
        Banana::from_bytes(&[0x01, 0x81, 0xff, 0xff]),
        Ok(Element::Integer(1))
    );
    let (e, rem) = Banana::from_bytes_rem(&[0x01, 0x81, 0x02, 0x81]).unwrap();
    assert_eq!(e, Element::Integer(1));
    assert_eq!(rem, &[0x02, 0x81]);
}

#[test]
fn encode_in_appends() {
    let mut v: Vec<u8> = vec![0xaa];
    let elt: Banana = Element::String(b"hi".to_vec());
    elt.encode_in(&mut v);
    assert_eq!(v, vec![0xaa, 0x02, 0x82, b'h', b'i']);
    let again: Banana = Element::Integer(300);
    again.encode_in(&mut v);
    assert_eq!(v, vec![0xaa, 0x02, 0x82, b'h', b'i', 0x2c, 0x02, 0x81]);
}

#[test]
fn long_string_length_uses_several_digits() {
    let elt: Banana = Element::String(vec![0; 200]);
    let bytes = elt.encode();
    assert_eq!(&bytes[..3], &[0x48, 0x01, 0x82]);
    assert_eq!(bytes.len(), 203);
}

#[test]
fn strict_decoding_rejects_trailing_bytes() {
    assert_eq!(Banana::from_bytes_strict(&[0x01, 0x81]), Ok(Element::Integer(1)));
    assert_eq!(
        Banana::from_bytes_strict(&[0x01, 0x81, 0x00]),
        Err(DecodeError::Invalid("Trailing bytes after the element".into()))
    );
    assert_eq!(
        Banana::from_bytes_strict(&[0x04, 0x82, b'b']),
        Err(DecodeError::TooShort(4, 1))
    );
}

#[test]
fn bounded_decoding_limits_nesting() {
    let bytes: &[u8] = &[0x01, 0x80, 0x01, 0x80, 0x00, 0x80];
    let nested: Banana = Element::List(vec![Element::List(vec![Element::List(vec![])])]);
    assert_eq!(
        Banana::from_bytes_rem_bounded(bytes, 3),
        Ok((nested, &[] as &[u8]))
    );
    assert_eq!(
        Banana::from_bytes_rem_bounded(bytes, 2),
        Err(DecodeError::Invalid("List nesting too deep".into()))
    );
    assert_eq!(
        Banana::from_bytes_rem_bounded(&[0x05, 0x81], 0),
        Ok((Element::Integer(5), &[] as &[u8]))
    );
    assert_eq!(
        Banana::from_bytes_rem_bounded(&[0x80], 0),
        Err(DecodeError::Invalid("List without a length".into()))
    );
}

#[test]
fn bounded_decoding_stops_deep_input() {
    let mut bytes: Vec<u8> = Vec::new();
    for _ in 0..200_000 {
        bytes.push(0x01);
        bytes.push(0x80);
    }
    bytes.push(0x00);
    bytes.push(0x80);
    assert_eq!(
        Banana::from_bytes_rem_bounded(&bytes, 64),
        Err(DecodeError::Invalid("List nesting too deep".into()))
    );
}
