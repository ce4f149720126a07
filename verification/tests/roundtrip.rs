use minecraft_world::{NbtList, NbtValue};

fn compound(entries: Vec<(&str, NbtValue)>) -> NbtValue {
    let mut c = NbtValue::Compound(Vec::new());
    for (k, v) in entries {
        assert!(c.insert(k.to_string(), v));
    }
    c
}

#[test]
fn byte_in_compound_exact_bytes() {
    let doc = compound(vec![("Nice", NbtValue::Byte(-69))]);
    let bytes = doc.to_bytes("root").unwrap();
    let expected: Vec<u8> = vec![
        0x0A, 0x00, 0x04, 0x72, 0x6F, 0x6F, 0x74, 0x01, 0x00, 0x04, 0x4E, 0x69, 0x63, 0x65, 0xBB,
        0x00,
    ];
    assert_eq!(bytes, expected);
    let (name, value) = NbtValue::from_bytes(&bytes).unwrap();
    assert_eq!(name, "root");
    assert_eq!(value, compound(vec![("Nice", NbtValue::Byte(-69))]));
}

#[test]
fn int_list_under_key() {
    let doc = compound(vec![("nums", NbtValue::List(NbtList::IntList(vec![1, 2, 3])))]);
    let bytes = doc.to_bytes("").unwrap();
    let (name, value) = NbtValue::from_bytes(&bytes).unwrap();
    assert_eq!(name, "");
    match value.get_key("nums") {
        Some(NbtValue::List(NbtList::IntList(v))) => assert_eq!(v, &vec![1, 2, 3]),
        other => panic!("unexpected entry: {:?}", other),
    }
}

fn every_kind() -> NbtValue {
    compound(vec![
        ("byte", NbtValue::Byte(-1)),
        ("short", NbtValue::Short(-300)),
        ("int", NbtValue::Int(123456)),
        ("long", NbtValue::Long(-9_876_543_210)),
        ("float", NbtValue::Float(3.5f32.to_bits())),
        ("double", NbtValue::Double((-2.25f64).to_bits())),
        ("bytes", NbtValue::ByteArray(vec![-128, 0, 127])),
        ("text", NbtValue::String("héllo wörld".to_string())),
        ("empty_text", NbtValue::String(String::new())),
        ("byte_list", NbtValue::List(NbtList::ByteList(vec![1, -2]))),
        ("short_list", NbtValue::List(NbtList::ShortList(vec![10, -20]))),
        ("int_list", NbtValue::List(NbtList::IntList(vec![]))),
        ("long_list", NbtValue::List(NbtList::LongList(vec![i64::MIN, i64::MAX]))),
        ("float_list", NbtValue::List(NbtList::FloatList(vec![1.0f32.to_bits()]))),
        ("double_list", NbtValue::List(NbtList::DoubleList(vec![1.5f64.to_bits()]))),
        ("byte_array_list", NbtValue::List(NbtList::ByteArrayList(vec![vec![1], vec![], vec![-3]]))),
        ("string_list", NbtValue::List(NbtList::StringList(vec!["a".to_string(), String::new()]))),
        (
            "list_list",
            NbtValue::List(NbtList::ListList(vec![
                NbtList::IntList(vec![7]),
                NbtList::EmptyList,
            ])),
        ),
        (
            "compound_list",
            NbtValue::List(NbtList::CompoundList(vec![
                vec![("k".to_string(), NbtValue::Int(5))],
                vec![],
            ])),
        ),
        ("int_array_list", NbtValue::List(NbtList::IntArrayList(vec![vec![1, 2]]))),
        ("long_array_list", NbtValue::List(NbtList::LongArrayList(vec![vec![-1]]))),
        ("empty_list", NbtValue::List(NbtList::EmptyList)),
        ("ints", NbtValue::IntArray(vec![i32::MIN, 0, i32::MAX])),
        ("longs", NbtValue::LongArray(vec![1, 2, 3])),
        ("empty_compound", NbtValue::Compound(Vec::new())),
        (
            "nested",
            compound(vec![("inner", compound(vec![("leaf", NbtValue::String("x".to_string()))]))]),
        ),
    ])
}

#[test]
fn every_kind_round_trip() {
    let doc = every_kind();
    let bytes = doc.to_bytes("all kinds").unwrap();
    let (name, value) = NbtValue::from_bytes(&bytes).unwrap();
    assert_eq!(name, "all kinds");
    assert_eq!(value, every_kind());
}

#[test]
fn every_kind_compressed_round_trip() {
    let doc = every_kind();
    let packed = doc.to_compressed_bytes("all kinds").unwrap();
    // A gzip stream is framed, so it cannot coincide with the raw encoding.
    assert_ne!(packed, doc.to_bytes("all kinds").unwrap());
    let (name, value) = NbtValue::from_compressed_bytes(&packed).unwrap();
    assert_eq!(name, "all kinds");
    assert_eq!(value, every_kind());
}

#[test]
fn root_may_be_any_kind() {
    for doc in [
        NbtValue::Byte(7),
        NbtValue::String("just text".to_string()),
        NbtValue::LongArray(vec![42]),
        NbtValue::List(NbtList::ShortList(vec![1])),
    ] {
        let bytes = doc.to_bytes("n").unwrap();
        let (name, value) = NbtValue::from_bytes(&bytes).unwrap();
        assert_eq!(name, "n");
        assert_eq!(value, doc);
    }
}

#[test]
fn long_array_uses_its_own_tag() {
    let bytes = NbtValue::LongArray(vec![1]).to_bytes("").unwrap();
    let expected: Vec<u8> = vec![
        0x0C, 0x00, 0x00, 0x00, 0x00, 0x00, 0x01, 0x00, 0x00, 0x00, 0x00, 0x00, 0x00, 0x00, 0x01,
    ];
    assert_eq!(bytes, expected);
}

#[test]
fn float_bits_survive_exactly() {
    let bits32 = f32::NAN.to_bits();
    let bits64 = (-0.0f64).to_bits();
    let doc = compound(vec![
        ("f", NbtValue::Float(bits32)),
        ("d", NbtValue::Double(bits64)),
    ]);
    let bytes = doc.to_bytes("x").unwrap();
    let (_, value) = NbtValue::from_bytes(&bytes).unwrap();
    match value.get_key("f") {
        Some(NbtValue::Float(b)) => assert_eq!(*b, bits32),
        other => panic!("unexpected entry: {:?}", other),
    }
    match value.get_key("d") {
        Some(NbtValue::Double(b)) => assert_eq!(*b, bits64),
        other => panic!("unexpected entry: {:?}", other),
    }
}

#[test]
fn serialize_appends_to_an_existing_buffer() {
    let mut buf: Vec<u8> = vec![0x11, 0x22];
    NbtValue::Byte(-69).serialize("ab", &mut buf).unwrap();
    assert_eq!(buf, vec![0x11, 0x22, 0x01, 0x00, 0x02, 0x61, 0x62, 0xBB]);
    // A failed serialize leaves the buffer untouched.
    let mut buf2: Vec<u8> = vec![0x33];
    assert!(NbtValue::String("a".repeat(70_000)).serialize("", &mut buf2).is_err());
    assert_eq!(buf2, vec![0x33]);
}

#[test]
fn trailing_bytes_are_ignored() {
    let doc = compound(vec![("Nice", NbtValue::Byte(-69))]);
    let mut bytes = doc.to_bytes("root").unwrap();
    bytes.extend_from_slice(&[0xDE, 0xAD, 0xBE, 0xEF]);
    let (name, value) = NbtValue::from_bytes(&bytes).unwrap();
    assert_eq!(name, "root");
    assert_eq!(value, compound(vec![("Nice", NbtValue::Byte(-69))]));
}

#[test]
fn duplicate_keys_last_write_wins() {
    let mut c = NbtValue::Compound(Vec::new());
    assert!(c.insert("k".to_string(), NbtValue::Int(1)));
    assert!(c.insert("k".to_string(), NbtValue::Int(2)));
    assert!(c.insert("other".to_string(), NbtValue::Int(3)));
    assert_eq!(c.entries().unwrap().len(), 2);
    assert_eq!(c.get_key("k"), Some(&NbtValue::Int(2)));
}
