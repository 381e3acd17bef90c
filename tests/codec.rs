use nbtx::{
    from_be_bytes, from_bytes, from_le_bytes, from_net_bytes, to_be_bytes, to_bytes, to_bytes_in,
    to_bytes_named, to_le_bytes, to_net_bytes, Deserializer, FieldType, NbtError, Value, Variant,
};

const VARIANTS: [Variant; 3] = [Variant::BigEndian, Variant::LittleEndian, Variant::NetworkEndian];

fn compound(entries: Vec<(&str, Value)>) -> Value {
    Value::Compound(entries.into_iter().map(|(k, v)| (k.to_owned(), v)).collect())
}

fn hello_world_nbt() -> Vec<u8> {
    let mut b = vec![10u8, 0, 11];
    b.extend_from_slice(b"hello world");
    b.extend_from_slice(&[8, 0, 4]);
    b.extend_from_slice(b"name");
    b.extend_from_slice(&[0, 9]);
    b.extend_from_slice(b"Bananrama");
    b.push(0);
    b
}

#[test]
fn read_write_salad() {
    let salad = compound(vec![
        ("name", Value::String(String::from("Caesar Salad"))),
        ("quantity", Value::Int(3)),
    ]);
    let some_ser = to_bytes(Variant::BigEndian, &salad).unwrap();
    let some_de = from_bytes(Variant::BigEndian, &some_ser).unwrap();
    assert_eq!(some_de, salad);
}

#[test]
fn read_write_all() {
    let value = compound(vec![
        ("byte", Value::Byte(42)),
        ("short", Value::Short(42)),
        ("int", Value::Int(42)),
        ("long", Value::Long(42)),
        ("float", Value::Float(42.0f32.to_bits())),
        ("double", Value::Double(42.0f64.to_bits())),
        ("byte_array", Value::ByteArray(vec![1, 2, 3])),
        ("string", Value::String("Hello, World!".to_owned())),
        (
            "list",
            Value::List(vec![
                compound(vec![("name", Value::String("Compound 1".to_owned()))]),
                compound(vec![("name", Value::String("Compound 2".to_owned()))]),
            ]),
        ),
        ("compound", compound(vec![("name", Value::String("Compound 3".to_owned()))])),
    ]);

    let ser_var = to_bytes(Variant::NetworkEndian, &value).unwrap();
    let ser_le = to_bytes(Variant::LittleEndian, &value).unwrap();
    let ser_be = to_bytes(Variant::BigEndian, &value).unwrap();

    from_bytes(Variant::NetworkEndian, &ser_var).unwrap();
    from_bytes(Variant::LittleEndian, &ser_le).unwrap();
    from_bytes(Variant::BigEndian, &ser_be).unwrap();
}

#[test]
fn read_write_hello_world() {
    let nbt = hello_world_nbt();
    let decoded = from_be_bytes(&nbt).unwrap();
    let encoded = to_bytes_named(Variant::BigEndian, &decoded, "hello world").unwrap();
    assert_eq!(encoded.as_slice(), nbt.as_slice());

    let value = from_be_bytes(&nbt).unwrap();
    let value_encoded = to_be_bytes(&value).unwrap();
    let value_decoded = from_be_bytes(&value_encoded).unwrap();
    assert_eq!(value, value_decoded);
}

#[test]
fn round_trip_every_variant() {
    let value = compound(vec![
        ("b", Value::Byte(-7)),
        ("s", Value::Short(-300)),
        ("i", Value::Int(i32::MIN)),
        ("l", Value::Long(i64::MAX)),
        ("f", Value::Float(f32::NAN.to_bits())),
        ("d", Value::Double((-0.0f64).to_bits())),
        ("ia", Value::IntArray(vec![0, -1, 1, i32::MAX])),
        ("la", Value::LongArray(vec![i64::MIN, 5])),
        ("empty_list", Value::List(vec![])),
        ("lists", Value::List(vec![Value::List(vec![Value::Short(1)]), Value::List(vec![])])),
        ("unicode", Value::String("héllo ✓".to_owned())),
    ]);
    for v in VARIANTS {
        let bytes = to_bytes(v, &value).unwrap();
        let back = from_bytes(v, &bytes).unwrap();
        // NaN is not equal to itself, so compare the encodings.
        assert_eq!(to_bytes(v, &back).unwrap(), bytes);
    }
}

#[test]
fn variant_equivalence() {
    let value = compound(vec![
        ("byte", Value::Byte(42)),
        ("int", Value::Int(42)),
        ("string", Value::String("Hello, World!".to_owned())),
    ]);
    let be = to_be_bytes(&value).unwrap();
    let le = to_le_bytes(&value).unwrap();
    let net = to_net_bytes(&value).unwrap();
    assert_eq!(from_be_bytes(&be).unwrap(), value);
    assert_eq!(from_le_bytes(&le).unwrap(), value);
    assert_eq!(from_net_bytes(&net).unwrap(), value);
    assert_ne!(be, le);
    assert_ne!(be, net);
    assert_ne!(le, net);
}

#[test]
fn exact_encodings() {
    let value = compound(vec![("a", Value::Int(-2))]);
    assert_eq!(to_be_bytes(&value).unwrap(), vec![10, 0, 0, 3, 0, 1, b'a', 0xff, 0xff, 0xff, 0xfe, 0]);
    assert_eq!(to_le_bytes(&value).unwrap(), vec![10, 0, 0, 3, 1, 0, b'a', 0xfe, 0xff, 0xff, 0xff, 0]);
    // zigzag(-2) = 3, one varint byte; string lengths are varints.
    assert_eq!(to_net_bytes(&value).unwrap(), vec![10, 0, 3, 1, b'a', 3, 0]);

    let shorts = compound(vec![("s", Value::Short(0x0102))]);
    assert_eq!(to_net_bytes(&shorts).unwrap(), vec![10, 0, 2, 1, b's', 2, 1, 0]);
    assert_eq!(to_be_bytes(&shorts).unwrap(), vec![10, 0, 0, 2, 0, 1, b's', 1, 2, 0]);

    let long = compound(vec![("l", Value::Long(300))]);
    // zigzag(300) = 600 = 0b100_1011000: 0xd8 0x04
    assert_eq!(to_net_bytes(&long).unwrap(), vec![10, 0, 4, 1, b'l', 0xd8, 0x04, 0]);

    let list = compound(vec![("x", Value::List(vec![Value::Int(1), Value::Int(2)]))]);
    // element tag, length as zigzag varint (2 -> 4), then payloads only
    assert_eq!(to_net_bytes(&list).unwrap(), vec![10, 0, 9, 1, b'x', 3, 4, 2, 4, 0]);

    let float = compound(vec![("f", Value::Float(1.0f32.to_bits()))]);
    assert_eq!(to_net_bytes(&float).unwrap(), vec![10, 0, 5, 1, b'f', 0, 0, 0x80, 0x3f, 0]);
}

#[test]
fn network_bytes_decode_exactly() {
    let v = from_net_bytes(&[10, 0, 3, 1, b'a', 3, 4, 1, b'l', 0xd8, 0x04, 8, 1, b's', 2, b'h', b'i', 0]).unwrap();
    assert_eq!(
        v,
        compound(vec![
            ("a", Value::Int(-2)),
            ("l", Value::Long(300)),
            ("s", Value::String("hi".to_owned())),
        ])
    );
}

#[test]
fn empty_compound_is_one_end_byte() {
    let empty = Value::Compound(vec![]);
    assert_eq!(to_be_bytes(&empty).unwrap(), vec![10, 0, 0, 0]);
    let back = from_be_bytes(&[10, 0, 0, 0]).unwrap();
    assert_eq!(back.as_compound().map(|c| c.len()), Some(0));
}

#[test]
fn unrecognized_tag_everywhere() {
    assert_eq!(from_be_bytes(&[13]), Err(NbtError::UnrecognizedTag(13)));
    assert_eq!(from_le_bytes(&[200, 0, 0]), Err(NbtError::UnrecognizedTag(200)));
    assert_eq!(from_net_bytes(&[13, 0]), Err(NbtError::UnrecognizedTag(13)));
    assert_eq!(from_be_bytes(&[10, 0, 0, 13, 0, 0]), Err(NbtError::UnrecognizedTag(13)));
    assert!(matches!(Deserializer::new(&[13], Variant::BigEndian), Err(NbtError::UnrecognizedTag(13))));
    // a list whose element tag is illegal
    assert_eq!(
        from_be_bytes(&[10, 0, 0, 9, 0, 1, b'x', 13, 0, 0, 0, 0, 0]),
        Err(NbtError::UnrecognizedTag(13))
    );
}

#[test]
fn root_must_be_compound() {
    assert_eq!(
        from_be_bytes(&[1, 0, 0, 5]),
        Err(NbtError::UnexpectedType { expected: FieldType::Compound, actual: FieldType::Byte })
    );
    assert_eq!(
        to_be_bytes(&Value::Int(1)),
        Err(NbtError::UnexpectedType { expected: FieldType::Compound, actual: FieldType::Int })
    );
}

#[test]
fn type_strictness() {
    let doc = to_be_bytes(&compound(vec![("n", Value::Int(5))])).unwrap();
    let mut de = Deserializer::new(&doc, Variant::BigEndian).unwrap();
    de.deserialize_map().unwrap();
    let tag = de.next_key_tag().unwrap();
    assert_eq!(tag, Some(FieldType::Int));
    assert_eq!(de.deserialize_string().unwrap(), "n");
    de.end_key(FieldType::Int);
    assert_eq!(
        de.deserialize_i16(),
        Err(NbtError::UnexpectedType { expected: FieldType::Short, actual: FieldType::Int })
    );
    assert_eq!(de.deserialize_i32(), Ok(5));
}

#[test]
fn list_arity() {
    let doc = to_be_bytes(&compound(vec![("v", Value::List(vec![Value::Int(1), Value::Int(2)]))])).unwrap();
    let mut de = Deserializer::new(&doc, Variant::BigEndian).unwrap();
    assert_eq!(de.next_key_tag().unwrap(), Some(FieldType::List));
    de.deserialize_string().unwrap();
    de.end_key(FieldType::List);
    assert!(matches!(
        de.deserialize_seq(3),
        Err(NbtError::LengthMismatch { expected_len: 3, found_len: 2 })
    ));
}

#[test]
fn typed_sequence_reading() {
    let doc = to_le_bytes(&compound(vec![("v", Value::IntArray(vec![7, -8]))])).unwrap();
    let mut de = Deserializer::new(&doc, Variant::LittleEndian).unwrap();
    assert_eq!(de.next_key_tag().unwrap(), Some(FieldType::IntArray));
    de.deserialize_string().unwrap();
    de.end_key(FieldType::IntArray);
    let mut seq = de.deserialize_seq(2).unwrap();
    let mut got = Vec::new();
    while seq.next_element() {
        got.push(de.deserialize_i32().unwrap());
        seq.restore(&mut de);
    }
    assert_eq!(got, vec![7, -8]);
    assert_eq!(de.next_key_tag().unwrap(), None);
}

#[test]
fn bool_is_any_nonzero_byte() {
    let doc = to_be_bytes(&compound(vec![("t", Value::Byte(5)), ("f", Value::Byte(0))])).unwrap();
    let mut de = Deserializer::new(&doc, Variant::BigEndian).unwrap();
    de.next_key_tag().unwrap();
    de.deserialize_string().unwrap();
    de.end_key(FieldType::Byte);
    assert_eq!(de.deserialize_bool(), Ok(true));
    de.next_key_tag().unwrap();
    de.deserialize_string().unwrap();
    de.end_key(FieldType::Byte);
    assert_eq!(de.deserialize_bool(), Ok(false));
}

#[test]
fn error_variants() {
    // truncated
    assert_eq!(from_be_bytes(&[10, 0]), Err(NbtError::UnexpectedEof));
    assert_eq!(from_be_bytes(&[10, 0, 0, 3, 0, 1, b'a', 0, 0]), Err(NbtError::UnexpectedEof));
    assert_eq!(from_be_bytes(&[]), Err(NbtError::UnexpectedEof));
    // invalid UTF-8 in a key
    assert_eq!(from_be_bytes(&[10, 0, 0, 1, 0, 1, 0xff, 1, 0]), Err(NbtError::InvalidUtf8));
    // a varint with six continuation bytes
    assert_eq!(from_net_bytes(&[10, 0x80, 0x80, 0x80, 0x80, 0x80, 0x80]), Err(NbtError::VarintTooLong));
    // a list of End elements that claims one element
    assert_eq!(from_be_bytes(&[10, 0, 0, 9, 0, 1, b'x', 0, 0, 0, 0, 1, 0]), Err(NbtError::UnmatchedEnd));
    // mixed list
    let mixed = compound(vec![("m", Value::List(vec![Value::Byte(1), Value::Int(1)]))]);
    assert_eq!(to_be_bytes(&mixed), Err(NbtError::MixedList));
    // a key longer than a 16-bit length allows
    let long_key = "k".repeat(70_000);
    let big = Value::Compound(vec![(long_key, Value::Byte(1))]);
    assert_eq!(to_be_bytes(&big), Err(NbtError::TooLong));
    assert!(to_net_bytes(&big).is_ok());
}

#[test]
fn depth_is_capped() {
    let mut v = Value::Byte(0);
    for _ in 0..600 {
        v = Value::List(vec![v]);
    }
    let doc = compound(vec![("deep", v)]);
    assert_eq!(to_be_bytes(&doc), Err(NbtError::DepthExceeded));

    let mut bytes = vec![10, 0, 0, 9, 0, 0];
    for _ in 0..600 {
        bytes.extend_from_slice(&[9, 0, 0, 0, 1]);
    }
    assert_eq!(from_be_bytes(&bytes), Err(NbtError::DepthExceeded));
}

#[test]
fn arbitrary_bytes_never_panic() {
    let mut state: u64 = 0x1234_5678_9abc_def0;
    for len in 0..400usize {
        let mut data = Vec::with_capacity(len);
        for _ in 0..len {
            state ^= state << 13;
            state ^= state >> 7;
            state ^= state << 17;
            data.push((state >> 24) as u8);
        }
        if len > 0 {
            data[0] = 10;
        }
        for v in VARIANTS {
            let _ = from_bytes(v, &data);
        }
    }
}

#[test]
fn equality_semantics() {
    let a = compound(vec![("x", Value::Int(1)), ("y", Value::Float(0.0f32.to_bits()))]);
    let b = compound(vec![("y", Value::Float((-0.0f32).to_bits())), ("x", Value::Int(1))]);
    assert_eq!(a, b);
    assert_ne!(Value::Float(f32::NAN.to_bits()), Value::Float(f32::NAN.to_bits()));
    assert_ne!(Value::Int(1), Value::Long(1));
    assert_ne!(Value::List(vec![Value::Int(1)]), Value::List(vec![Value::Int(1), Value::Int(2)]));
}

#[test]
fn duplicate_keys_keep_the_last_value() {
    let bytes = [10, 0, 0, 1, 0, 1, b'a', 1, 1, 0, 1, b'a', 2, 0];
    let v = from_be_bytes(&bytes).unwrap();
    assert_eq!(v, compound(vec![("a", Value::Byte(2))]));
}

#[test]
fn accessors_and_discriminant() {
    let v = Value::Short(9);
    assert_eq!(v.discriminant(), 2);
    assert_eq!(v.as_short(), Some(&9));
    assert!(v.is_short());
    assert!(!v.is_int());
    assert_eq!(v.as_int(), None);
    assert_eq!(Value::LongArray(vec![]).discriminant(), 12);
    let v = Value::String("s".to_owned());
    assert_eq!(v.into_int(), Err(Value::String("s".to_owned())));
}

#[test]
fn encode_into_appends() {
    let mut out = vec![1, 2];
    to_bytes_in(&mut out, Variant::BigEndian, &Value::Compound(vec![])).unwrap();
    assert_eq!(out, vec![1, 2, 10, 0, 0, 0]);
    let before = out.clone();
    assert!(to_bytes_in(&mut out, Variant::BigEndian, &Value::Byte(1)).is_err());
    assert_eq!(out, before);
}

#[test]
fn absent_fields_are_omitted() {
    let record = nbtx::record_compound(vec![
        ("name".to_owned(), Some(Value::String("x".to_owned()))),
        ("icon".to_owned(), None),
        ("port".to_owned(), Some(Value::Short(25565))),
    ]);
    let bytes = to_be_bytes(&record).unwrap();
    assert!(!bytes.windows(4).any(|w| w == b"icon"));
    let back = from_be_bytes(&bytes).unwrap();
    assert_eq!(
        back,
        compound(vec![("name", Value::String("x".to_owned())), ("port", Value::Short(25565))])
    );
    assert!(back.as_compound().unwrap().iter().all(|(k, _)| k != "icon"));
}

#[test]
fn clone_is_equal_and_independent() {
    let original = compound(vec![
        ("l", Value::List(vec![Value::ByteArray(vec![1, 2]), Value::ByteArray(vec![])])),
        ("c", compound(vec![("k", Value::LongArray(vec![3]))])),
    ]);
    let mut copy = original.clone();
    assert_eq!(copy, original);
    if let Value::Compound(es) = &mut copy {
        es.push(("new".to_owned(), Value::Byte(1)));
    }
    assert_ne!(copy, original);
    assert_eq!(to_be_bytes(&original.clone()).unwrap(), to_be_bytes(&original).unwrap());
}
