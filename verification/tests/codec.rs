//! End-to-end tests of the NBT codec: round trips under all three
//! variants, exact byte fixtures, and every error kind.

use nbt::{
    from_be_bytes, from_bytes, from_bytes_named, from_bytes_named_strict, from_bytes_strict,
    from_le_bytes, from_net_bytes, to_be_bytes, to_be_bytes_in, to_bytes, to_bytes_in,
    to_bytes_named, to_le_bytes, to_net_bytes, BigEndian, FieldType, LittleEndian, NbtError,
    NetworkLittleEndian, Value, Variant,
};

fn all_types_value() -> Value {
    Value::Compound(vec![
        ("byte".to_owned(), Value::Byte(42)),
        ("short".to_owned(), Value::Short(42)),
        ("int".to_owned(), Value::Int(42)),
        ("long".to_owned(), Value::Long(42)),
        ("float".to_owned(), Value::Float(42.0f32.to_bits())),
        ("double".to_owned(), Value::Double(42.0f64.to_bits())),
        ("byte_array".to_owned(), Value::ByteArray(vec![1, 2, 3])),
        (
            "string".to_owned(),
            Value::String("Hello, World!".to_owned()),
        ),
        (
            "list".to_owned(),
            Value::List(vec![
                Value::Compound(vec![(
                    "name".to_owned(),
                    Value::String("Compound 1".to_owned()),
                )]),
                Value::Compound(vec![(
                    "name".to_owned(),
                    Value::String("Compound 2".to_owned()),
                )]),
            ]),
        ),
        (
            "compound".to_owned(),
            Value::Compound(vec![(
                "name".to_owned(),
                Value::String("Compound 3".to_owned()),
            )]),
        ),
    ])
}

#[test]
fn read_write_all() {
    let value = all_types_value();

    let ser = to_net_bytes(&value).unwrap();
    let ser_le = to_le_bytes(&value).unwrap();
    let ser_be = to_be_bytes(&value).unwrap();

    from_net_bytes(&ser).unwrap();
    from_le_bytes(&ser_le).unwrap();
    from_be_bytes(&ser_be).unwrap();
}

#[test]
fn round_trip_all_types_all_variants() {
    let value = all_types_value();

    let ser_be = to_be_bytes(&value).unwrap();
    assert_eq!(from_be_bytes(&ser_be).unwrap(), value);

    let ser_le = to_le_bytes(&value).unwrap();
    assert_eq!(from_le_bytes(&ser_le).unwrap(), value);

    let ser_net = to_net_bytes(&value).unwrap();
    assert_eq!(from_net_bytes(&ser_net).unwrap(), value);
}

#[test]
fn tag_range_closure() {
    for b in 0u8..=12 {
        let tag = FieldType::from_byte(b).unwrap();
        assert_eq!(tag.to_byte(), b);
    }
    for b in 13u8..=255 {
        assert_eq!(
            FieldType::from_byte(b),
            Err(NbtError::TypeOutOfRange { actual: b })
        );
    }
}

#[test]
fn varint_minus_one_is_one_byte() {
    // Root Int(-1) under the network variant: tag byte 3, empty name as a
    // zero varint, then the zig-zag varint of -1, which is the single byte
    // 0x01.
    let bytes = to_net_bytes(&Value::Int(-1)).unwrap();
    assert_eq!(bytes, vec![0x03, 0x00, 0x01]);
}

#[test]
fn varint_too_long() {
    // Six continuation-flagged bytes for a 32-bit field: the reader gives
    // up after ceil(32/7) = 5 bytes.
    let doc = vec![0x03u8, 0x00, 0x81, 0x81, 0x81, 0x81, 0x81, 0x81];
    assert_eq!(from_net_bytes(&doc), Err(NbtError::VarintTooLong));
}

#[test]
fn empty_list_round_trip() {
    let value = Value::List(vec![]);
    let bytes = to_be_bytes(&value).unwrap();
    // Tag byte for List, 2-byte name length 0, element tag End (0x00),
    // then a 4-byte zero count.
    assert_eq!(bytes, vec![0x09, 0x00, 0x00, 0x00, 0x00, 0x00, 0x00, 0x00]);
    assert_eq!(from_be_bytes(&bytes).unwrap(), Value::List(vec![]));
}

fn hello_world_fixture() -> Vec<u8> {
    let mut bytes = vec![0x0A, 0x00, 0x0B];
    bytes.extend_from_slice(b"hello world");
    bytes.extend_from_slice(&[0x08, 0x00, 0x04]);
    bytes.extend_from_slice(b"name");
    bytes.extend_from_slice(&[0x00, 0x09]);
    bytes.extend_from_slice(b"Bananrama");
    bytes.push(0x00);
    bytes
}

#[test]
fn read_write_hello_world() {
    let fixture = hello_world_fixture();
    let inner = Value::Compound(vec![(
        "name".to_owned(),
        Value::String("Bananrama".to_owned()),
    )]);

    // Encoding the named root reproduces the canonical fixture bytes.
    let encoded = to_bytes_named::<BigEndian>("hello world", &inner).unwrap();
    assert_eq!(encoded, fixture);

    // Decoding the fixture gives back the name and a structurally equal
    // tree, and re-encoding that tree is byte-stable.
    let (name, decoded) = from_bytes_named::<BigEndian>(&fixture).unwrap();
    assert_eq!(name, "hello world");
    assert_eq!(decoded, inner);
    let re_encoded = to_bytes_named::<BigEndian>(&name, &decoded).unwrap();
    assert_eq!(re_encoded, fixture);
}

#[test]
fn strict_mode_trailing_bytes() {
    let mut bytes = to_be_bytes(&Value::Byte(7)).unwrap();
    bytes.push(0xAA);
    assert_eq!(
        from_bytes_strict::<BigEndian>(&bytes),
        Err(NbtError::TrailingBytes)
    );
    assert_eq!(
        from_bytes_named_strict::<BigEndian>(&bytes),
        Err(NbtError::TrailingBytes)
    );
    // Lenient mode ignores the extra byte.
    assert_eq!(from_be_bytes(&bytes).unwrap(), Value::Byte(7));
}

#[test]
fn cross_variant_bytes_differ_values_agree() {
    let value = all_types_value();
    let be = to_bytes::<BigEndian>(&value).unwrap();
    let net = to_bytes::<NetworkLittleEndian>(&value).unwrap();
    assert_ne!(be, net);
    assert_eq!(from_be_bytes(&be).unwrap(), from_net_bytes(&net).unwrap());
    assert_eq!(from_be_bytes(&be).unwrap(), value);
}

#[test]
fn list_truncated_input_is_rejected() {
    // A list declaring three ints with only two present must fail with
    // UnexpectedEof, never silently truncate.
    let mut doc = vec![0x09u8, 0x00, 0x00]; // tag List, empty name
    doc.push(0x03); // element tag Int
    doc.extend_from_slice(&[0x00, 0x00, 0x00, 0x03]); // count 3
    doc.extend_from_slice(&[0x00, 0x00, 0x00, 0x01]); // one int
    doc.extend_from_slice(&[0x00, 0x00, 0x00, 0x02]); // a second int
    assert_eq!(from_be_bytes(&doc), Err(NbtError::UnexpectedEof));
}

#[test]
fn list_of_end_tag_is_rejected() {
    // Element tag End with a non-zero count carries no decodable value.
    let doc = vec![0x09u8, 0x00, 0x00, 0x00, 0x00, 0x00, 0x00, 0x02];
    assert_eq!(from_be_bytes(&doc), Err(NbtError::UnexpectedEndTag));
}

#[test]
fn root_end_tag_is_rejected() {
    let doc = vec![0x00u8, 0x00, 0x00];
    assert_eq!(from_be_bytes(&doc), Err(NbtError::UnexpectedEndTag));
}

#[test]
fn root_tag_out_of_range() {
    let doc = vec![0x0Du8, 0x00, 0x00];
    assert_eq!(
        from_be_bytes(&doc),
        Err(NbtError::TypeOutOfRange { actual: 13 })
    );
}

#[test]
fn empty_input_is_eof() {
    assert_eq!(from_be_bytes(&[]), Err(NbtError::UnexpectedEof));
}

#[test]
fn invalid_utf8_is_rejected() {
    // A one-byte string whose byte is 0xFF.
    let doc = vec![0x08u8, 0x00, 0x00, 0x00, 0x01, 0xFF];
    assert_eq!(from_be_bytes(&doc), Err(NbtError::InvalidUtf8));
}

#[test]
fn oversized_string_is_rejected() {
    // Under the fixed-width variants a string length must fit two bytes.
    let long = "a".repeat(0x1_0000);
    let value = Value::String(long.clone());
    assert_eq!(to_be_bytes(&value), Err(NbtError::SequenceTooLong));
    // The network variant uses varint lengths and accepts it.
    let net = to_net_bytes(&value).unwrap();
    assert_eq!(from_net_bytes(&net).unwrap(), Value::String(long));
}

#[test]
fn depth_limit_exceeded() {
    let mut v = Value::Byte(1);
    for _ in 0..600 {
        v = Value::List(vec![v]);
    }
    assert_eq!(to_be_bytes(&v), Err(NbtError::DepthLimitExceeded));
    assert!(!v.fits_depth(512));
}

#[test]
fn depth_within_limit_round_trips() {
    let mut v = Value::Byte(1);
    for _ in 0..500 {
        v = Value::List(vec![v]);
    }
    assert!(v.fits_depth(512));
    let bytes = to_be_bytes(&v).unwrap();
    assert_eq!(from_be_bytes(&bytes).unwrap(), v);
}

#[test]
fn byte_order_of_fixed_fields() {
    let be = to_be_bytes(&Value::Short(0x1234)).unwrap();
    assert_eq!(be, vec![0x02, 0x00, 0x00, 0x12, 0x34]);
    let le = to_le_bytes(&Value::Short(0x1234)).unwrap();
    assert_eq!(le, vec![0x02, 0x00, 0x00, 0x34, 0x12]);
}

#[test]
fn float_bit_patterns_round_trip() {
    let nan_bits = f32::NAN.to_bits() ^ 0x0000_0001; // a non-canonical NaN
    let neg_zero = (-0.0f64).to_bits();
    let value = Value::Compound(vec![
        ("f".to_owned(), Value::Float(nan_bits)),
        ("d".to_owned(), Value::Double(neg_zero)),
    ]);
    let be = to_be_bytes(&value).unwrap();
    assert_eq!(from_be_bytes(&be).unwrap(), value);
    let le = to_le_bytes(&value).unwrap();
    assert_eq!(from_le_bytes(&le).unwrap(), value);
    let net = to_net_bytes(&value).unwrap();
    assert_eq!(from_net_bytes(&net).unwrap(), value);
}

#[test]
fn extreme_integers_round_trip_network() {
    let value = Value::Compound(vec![
        ("min_int".to_owned(), Value::Int(i32::MIN)),
        ("max_int".to_owned(), Value::Int(i32::MAX)),
        ("min_long".to_owned(), Value::Long(i64::MIN)),
        ("max_long".to_owned(), Value::Long(i64::MAX)),
        (
            "arrays".to_owned(),
            Value::List(vec![Value::IntArray(vec![i32::MIN, -1, 0, 1, i32::MAX])]),
        ),
        (
            "longs".to_owned(),
            Value::LongArray(vec![i64::MIN, -1, 0, 1, i64::MAX]),
        ),
    ]);
    let net = to_net_bytes(&value).unwrap();
    assert_eq!(from_net_bytes(&net).unwrap(), value);
    let be = to_be_bytes(&value).unwrap();
    assert_eq!(from_be_bytes(&be).unwrap(), value);
}

#[test]
fn negative_fixed_count_is_rejected() {
    // A ByteArray whose 4-byte count has the sign bit set can never be
    // satisfied.
    let doc = vec![0x07u8, 0x00, 0x00, 0xFF, 0xFF, 0xFF, 0xFF];
    assert_eq!(from_be_bytes(&doc), Err(NbtError::UnexpectedEof));
}

#[test]
fn well_formedness_check() {
    let homogeneous = Value::List(vec![Value::Byte(1), Value::Byte(2)]);
    assert!(homogeneous.is_well_formed());
    let mixed = Value::List(vec![Value::Byte(1), Value::Short(2)]);
    assert!(!mixed.is_well_formed());
}

#[test]
fn append_variants_leave_prefix_intact() {
    let mut out = vec![0xAB, 0xCD];
    to_be_bytes_in(&Value::Byte(5), &mut out).unwrap();
    assert_eq!(&out[..2], &[0xAB, 0xCD]);
    assert_eq!(&out[2..], to_be_bytes(&Value::Byte(5)).unwrap().as_slice());

    let mut out2 = vec![0x01];
    let long = Value::String("a".repeat(0x1_0000));
    assert_eq!(
        to_bytes_in::<LittleEndian>(&long, &mut out2),
        Err(NbtError::SequenceTooLong)
    );
    assert_eq!(out2, vec![0x01]);
}

#[test]
fn variant_policy_flags() {
    assert!(Variant::LittleEndian.is_little_endian());
    assert!(!Variant::BigEndian.is_little_endian());
    assert!(Variant::NetworkEndian.is_little_endian());
    assert!(Variant::NetworkEndian.uses_varint_lengths());
    assert!(Variant::NetworkEndian.uses_varint_integers());
    assert!(!Variant::BigEndian.uses_varint_lengths());
    assert!(!Variant::LittleEndian.uses_varint_integers());
}
