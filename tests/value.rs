use dash_value::{
    compare_keys, Bytes, DocumentValue, Error, Identifier, StaticBytes, ToDashValue, ValueMap,
    Version, WireValue,
};
use std::cmp::Ordering;

fn string(s: &str) -> DocumentValue {
    DocumentValue::String(String::from(s))
}

fn map_of(entries: Vec<(&str, DocumentValue)>) -> DocumentValue {
    let mut m = ValueMap::new();
    for (k, v) in entries {
        m.insert(String::from(k), v);
    }
    DocumentValue::Dict(m)
}

fn wire_keys(w: &WireValue) -> Vec<String> {
    match w {
        WireValue::Dict(entries) => entries.iter().map(|(k, _)| k.clone()).collect(),
        other => panic!("expected a map, got {:?}", other),
    }
}

#[test]
fn indexing() {
    let mut dash_value = map_of(vec![(
        "alpha",
        map_of(vec![("bravo", DocumentValue::Array(vec![string("bravo_value")]))]),
    )]);

    assert_eq!(
        DocumentValue::String("bravo_value".into()),
        *dash_value.index("alpha").index("bravo").index(0usize)
    );

    *dash_value.index_mut("alpha").index_mut("bravo") =
        DocumentValue::Identifier(Identifier::from(vec![1_u8; 32]));
    assert!(matches!(
        dash_value.index("alpha").index("bravo"),
        DocumentValue::Identifier(_)
    ))
}

#[test]
fn get_mut_changes_one_child() {
    let mut v = map_of(vec![
        ("a", DocumentValue::Array(vec![DocumentValue::Integer(1), DocumentValue::Integer(2)])),
        ("b", DocumentValue::Null),
    ]);
    *v.get_mut("a").unwrap().get_mut(1usize).unwrap() = DocumentValue::Bool(true);
    assert!(v.get_mut("c").is_none());
    assert!(v.get_mut(0usize).is_none());
    assert!(v.index_mut("a").get_mut(2usize).is_none());
    assert_eq!(
        *v.index("a"),
        DocumentValue::Array(vec![DocumentValue::Integer(1), DocumentValue::Bool(true)])
    );
    assert_eq!(*v.index("b"), DocumentValue::Null);
}

#[test]
fn clone_copies_the_tree() {
    let v = map_of(vec![
        ("id", DocumentValue::Identifier(Identifier::default())),
        ("l", DocumentValue::Array(vec![string("x"), DocumentValue::Bytes(Bytes(vec![1]))])),
    ]);
    let c = v.clone();
    assert_eq!(c, v);
}

#[test]
fn get_misses_are_none() {
    let v = map_of(vec![("a", DocumentValue::Array(vec![DocumentValue::Null]))]);
    assert!(v.get("b").is_none());
    assert!(v.get(0usize).is_none());
    assert!(v.index("a").get(1usize).is_none());
    assert!(v.index("a").get("a").is_none());
    assert_eq!(v.index("a").get(0usize), Some(&DocumentValue::Null));
    assert!(DocumentValue::Integer(1).get("a").is_none());
}

#[test]
fn test_document_values() {
    let dynamic_a = map_of(vec![
        ("property_a", string("value_a")),
        ("property_b", string("value_b")),
    ]);
    let dynamic_b = map_of(vec![
        ("property_b", string("value_b")),
        ("property_a", string("value_a")),
    ]);
    let d = map_of(vec![("id", string("aaa")), ("data", dynamic_a)]);
    let d2 = map_of(vec![("data", dynamic_b), ("id", string("aaa"))]);

    let data = d.to_wire(true);
    let bytes = d.to_wire(false);
    let bytes_2 = d2.to_wire(false);

    println!("result is {data:?}");
    assert_eq!(bytes, bytes_2);
    assert_eq!(data, d2.to_wire(true));
    assert_eq!(d, d2);
}

#[test]
fn canonical_sort_order() {
    let v = map_of(vec![
        ("ab", DocumentValue::Integer(1)),
        ("a", DocumentValue::Integer(2)),
        ("ba", DocumentValue::Integer(3)),
    ]);
    for human_readable in [true, false] {
        assert_eq!(wire_keys(&v.to_wire(human_readable)), vec!["a", "ab", "ba"]);
    }
}

#[test]
fn canonical_sort_uses_byte_length() {
    // "é" is one character but two bytes, so it sorts after "z" and before "abc".
    let v = map_of(vec![
        ("abc", DocumentValue::Null),
        ("\u{e9}", DocumentValue::Null),
        ("z", DocumentValue::Null),
        ("b", DocumentValue::Null),
    ]);
    assert_eq!(wire_keys(&v.to_wire(false)), vec!["b", "z", "\u{e9}", "abc"]);
}

#[test]
fn compare_keys_orders_by_length_then_bytes() {
    assert_eq!(compare_keys("a", "ab"), Ordering::Less);
    assert_eq!(compare_keys("ba", "ab"), Ordering::Greater);
    assert_eq!(compare_keys("ab", "ab"), Ordering::Equal);
    assert_eq!(compare_keys("zz", "aaa"), Ordering::Less);
}

#[test]
fn insert_replaces_and_returns_previous() {
    let mut m = ValueMap::new();
    assert_eq!(m.insert(String::from("k"), DocumentValue::Integer(1)), None);
    assert_eq!(
        m.insert(String::from("k"), DocumentValue::Integer(2)),
        Some(DocumentValue::Integer(1))
    );
    assert_eq!(m.len(), 1);
    assert_eq!(m.get("k"), Some(&DocumentValue::Integer(2)));
}

#[test]
fn empty_map_and_array_encode() {
    assert_eq!(DocumentValue::Dict(ValueMap::new()).to_wire(true), WireValue::Dict(vec![]));
    assert_eq!(DocumentValue::Array(vec![]).to_wire(false), WireValue::Array(vec![]));
    assert_eq!(DocumentValue::default(), DocumentValue::Null);
    assert_eq!(DocumentValue::Null.to_wire(true), WireValue::Null);
}

#[test]
fn version_encodes_as_integer() {
    assert_eq!(DocumentValue::Version(4).to_wire(true), WireValue::UInteger(4));
    assert_eq!(DocumentValue::Version(4).to_wire(false), WireValue::UInteger(4));
}

#[test]
fn base58_encoding_of_known_bytes() {
    let id = Identifier::from(vec![0x04, 0x30, 0x5e, 0x2b, 0x24, 0x73, 0xf0, 0x58]);
    assert_eq!(id.to_base58(), "he11owor1d");
    assert_eq!(
        DocumentValue::Identifier(id).to_wire(true),
        WireValue::Text(String::from("he11owor1d"))
    );
}

#[test]
fn base64_encoding_of_known_bytes() {
    let b = Bytes(b"hello".to_vec());
    assert_eq!(b.to_base64(), "aGVsbG8=");
    assert_eq!(
        DocumentValue::Bytes(b).to_wire(true),
        WireValue::Text(String::from("aGVsbG8="))
    );
    let s = StaticBytes([0u8; 32]);
    assert_eq!(s.to_base64(), "AAAAAAAAAAAAAAAAAAAAAAAAAAAAAAAAAAAAAAAAAAA=");
}

#[test]
fn identifier_dual_mode_round_trip() {
    let id = Identifier::from(vec![0x0B; 32]);
    let text = match DocumentValue::Identifier(id.clone()).to_wire(true) {
        WireValue::Text(t) => t,
        other => panic!("expected text, got {:?}", other),
    };
    assert_eq!(text, id.to_base58());
    let back = Identifier::from_text(&text).expect("valid base58");
    assert_eq!(back.data, vec![0x0B; 32]);

    let binary = DocumentValue::Identifier(id.clone()).to_wire(false);
    assert_eq!(binary, WireValue::Bytes(vec![0x0B; 32]));
    let decoded = DocumentValue::from_wire(&binary);
    let back = Identifier::from_value(decoded).expect("bytes");
    assert_eq!(back, id);
}

#[test]
fn identifier_of_wrong_length_is_deserialization_error() {
    let short = Identifier::from(vec![0x0B; 31]).to_base58();
    assert!(matches!(Identifier::from_text(&short), Err(Error::DeserializationError(_))));
    assert!(matches!(
        Identifier::from_value(DocumentValue::Bytes(Bytes(vec![0x0B; 31]))),
        Err(Error::DeserializationError(_))
    ));
    assert!(matches!(
        Identifier::from_value(DocumentValue::Bytes(Bytes(vec![0x0B; 33]))),
        Err(Error::DeserializationError(_))
    ));
    assert_eq!(Identifier::default().data, vec![0u8; 32]);
}

#[test]
fn identifier_from_bad_text_is_deserialization_error() {
    assert!(matches!(Identifier::from_text("0OIl"), Err(Error::DeserializationError(_))));
    assert!(matches!(
        Identifier::from_value(DocumentValue::Integer(3)),
        Err(Error::DeserializationError(_))
    ));
}

#[test]
fn bytes_decoding() {
    assert_eq!(Bytes::from_text("aGVsbG8=").unwrap(), Bytes(b"hello".to_vec()));
    assert!(matches!(Bytes::from_text("***"), Err(Error::DeserializationError(_))));
    assert_eq!(
        Bytes::from_value(DocumentValue::Bytes(Bytes(vec![1, 2]))).unwrap(),
        Bytes(vec![1, 2])
    );
    assert!(matches!(Bytes::from_value(DocumentValue::Null), Err(Error::DeserializationError(_))));
}

#[test]
fn fixed_bytes_decoding_checks_length() {
    let ok: StaticBytes<4> = StaticBytes::from_slice(&[1, 2, 3, 4]).unwrap();
    assert_eq!(ok.0, [1, 2, 3, 4]);
    let short: Result<StaticBytes<4>, Error> = StaticBytes::from_slice(&[1, 2, 3]);
    assert!(matches!(short, Err(Error::DeserializationError(_))));
    let from_text: StaticBytes<5> = StaticBytes::from_text("aGVsbG8=").unwrap();
    assert_eq!(&from_text.0, b"hello");
    let wrong: Result<StaticBytes<4>, Error> = StaticBytes::from_text("aGVsbG8=");
    assert!(matches!(wrong, Err(Error::DeserializationError(_))));
    let v: StaticBytes<2> = StaticBytes::from_value(DocumentValue::Bytes(Bytes(vec![7, 8]))).unwrap();
    assert_eq!(v.0, [7, 8]);
    assert_eq!(StaticBytes::<3>::default().0, [0, 0, 0]);
}

#[test]
fn bytes_as_arrays_leaves_byte_free_tree() {
    let make = || {
        map_of(vec![
            ("n", DocumentValue::Integer(-1)),
            ("s", string("x")),
            ("l", DocumentValue::Array(vec![DocumentValue::Bool(true), DocumentValue::Null])),
        ])
    };
    let once = make().bytes_as_arrays();
    assert_eq!(once, make());
    let twice = once.bytes_as_arrays();
    assert_eq!(twice, make());
}

#[test]
fn bytes_as_arrays_expands_identifier() {
    let id = Identifier::from(vec![0x0B; 32]);
    let tree = map_of(vec![
        ("id", DocumentValue::Identifier(id)),
        ("b", DocumentValue::Bytes(Bytes(vec![255, 0]))),
        ("f", DocumentValue::StaticBytes(StaticBytes([1u8; 32]))),
    ]);
    let out = tree.bytes_as_arrays();
    match out.index("id") {
        DocumentValue::Array(items) => {
            assert_eq!(items.len(), 32);
            assert!(items.iter().all(|i| *i == DocumentValue::UInteger(0x0B)));
        }
        other => panic!("expected an array, got {:?}", other),
    }
    assert_eq!(
        *out.index("b"),
        DocumentValue::Array(vec![DocumentValue::UInteger(255), DocumentValue::UInteger(0)])
    );
    assert!(matches!(out.index("f"), DocumentValue::Array(a) if a.len() == 32));
    let root = DocumentValue::Bytes(Bytes(vec![3])).bytes_as_arrays();
    assert_eq!(root, DocumentValue::Array(vec![DocumentValue::UInteger(3)]));
}

#[test]
fn generic_decoder_maps_plain_items() {
    let wire = WireValue::Dict(vec![
        (String::from("a"), WireValue::Integer(-1)),
        (String::from("b"), WireValue::Bytes(vec![1, 2])),
        (String::from("c"), WireValue::Array(vec![WireValue::Text(String::from("t")), WireValue::Null])),
    ]);
    let v = DocumentValue::from_wire(&wire);
    assert_eq!(*v.index("a"), DocumentValue::Integer(-1));
    assert_eq!(*v.index("b"), DocumentValue::Bytes(Bytes(vec![1, 2])));
    assert_eq!(
        *v.index("c"),
        DocumentValue::Array(vec![string("t"), DocumentValue::Null])
    );
    assert_eq!(v.to_wire(false), wire);
}

#[test]
fn generic_decoder_never_rebuilds_wrapper_leaves() {
    let tree = map_of(vec![
        ("id", DocumentValue::Identifier(Identifier::from(vec![7u8; 32]))),
        ("f", DocumentValue::StaticBytes(StaticBytes([1u8; 32]))),
        ("v", DocumentValue::Version(3)),
    ]);
    let back = DocumentValue::from_wire(&tree.to_wire(false));
    assert_eq!(*back.index("id"), DocumentValue::Bytes(Bytes(vec![7u8; 32])));
    assert_eq!(*back.index("f"), DocumentValue::Bytes(Bytes(vec![1u8; 32])));
    assert_eq!(*back.index("v"), DocumentValue::UInteger(3));
}

#[test]
fn generic_decoder_reads_unordered_maps() {
    let wire = WireValue::Dict(vec![
        (String::from("zz"), WireValue::Bool(false)),
        (String::from("a"), WireValue::Array(vec![WireValue::UInteger(9)])),
    ]);
    let v = DocumentValue::from_wire(&wire);
    assert_eq!(*v.index("zz"), DocumentValue::Bool(false));
    assert_eq!(*v.index("a"), DocumentValue::Array(vec![DocumentValue::UInteger(9)]));
    assert_eq!(wire_keys(&v.to_wire(false)), vec!["a", "zz"]);
}

#[test]
fn generic_decoder_later_key_wins() {
    let wire = WireValue::Dict(vec![
        (String::from("k"), WireValue::UInteger(1)),
        (String::from("k"), WireValue::UInteger(2)),
    ]);
    let v = DocumentValue::from_wire(&wire);
    assert_eq!(v.get("k"), Some(&DocumentValue::UInteger(2)));
}

#[test]
fn end_to_end_binary_round_trip() {
    let id = Identifier::from(vec![0x0B; 32]);
    let builder = ToDashValue::default().with_skip_version(true);
    let mut record = builder.serialize_struct("Record", 4).unwrap();
    let inner = record.value_builder().serialize_u32(Version(1).0).unwrap();
    let v = record.value_builder().serialize_newtype_struct("Version", inner).unwrap();
    record.serialize_field("$protocolVersion", v).unwrap();
    let inner = record.value_builder().serialize_bytes(&id.data).unwrap();
    let v = record.value_builder().serialize_newtype_struct("identifier", inner).unwrap();
    record.serialize_field("id", v).unwrap();
    let v = record.value_builder().serialize_u32(0).unwrap();
    record.serialize_field("revision", v).unwrap();
    record
        .serialize_entry(string("a"), DocumentValue::Integer(1))
        .unwrap();
    record.serialize_entry(string("bb"), string("x")).unwrap();
    let tree = record.end().unwrap();
    assert!(tree.get("$protocolVersion").is_none());

    let wire = tree.to_wire(false);
    assert_eq!(wire, tree.to_wire(false));
    assert_eq!(wire_keys(&wire), vec!["a", "bb", "id", "revision"]);

    let back = DocumentValue::from_wire(&wire);
    let back_id = Identifier::from_value(DocumentValue::from_wire(&back.index("id").to_wire(false)))
        .unwrap();
    assert_eq!(back_id, id);
    assert_eq!(*back.index("revision"), DocumentValue::UInteger(0));
    assert_eq!(*back.index("a"), DocumentValue::Integer(1));
    assert_eq!(*back.index("bb"), string("x"));
    assert_eq!(back.to_wire(false), wire);
}

#[test]
fn version_conversions() {
    assert_eq!(Version::from(7u32), Version(7));
    assert_eq!(Version::from(7u8), Version(7));
    assert_eq!(Version::default(), Version(0));
}

#[test]
fn error_constructors() {
    assert_eq!(Error::unsupported("x"), Error::Unsupported(String::from("x")));
    assert_eq!(Error::serialization("y"), Error::SerializationError(String::from("y")));
    assert_eq!(Error::deserialization("z"), Error::DeserializationError(String::from("z")));
}
