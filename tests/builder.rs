use dash_value::{
    DocumentValue, Error, Identifier, SerializeMap, ToDashValue, Version, WrapperKind,
};

fn version_field(builder: ToDashValue, version: Version) -> DocumentValue {
    let inner = builder.serialize_u32(version.0).expect("no errors");
    builder
        .serialize_newtype_struct("Version", inner)
        .expect("no errors")
}

fn identifier_field(builder: ToDashValue, id: &Identifier) -> DocumentValue {
    let inner = builder.serialize_bytes(&id.data).expect("no errors");
    builder
        .serialize_newtype_struct("identifier", inner)
        .expect("no errors")
}

fn example_with_version(skip: bool) -> DocumentValue {
    let builder = ToDashValue::default().with_skip_version(skip);
    let mut map: SerializeMap = builder.serialize_struct("Example", 1).expect("no errors");
    let value = version_field(map.value_builder(), Version::default());
    map.serialize_field("version", value).expect("no errors");
    map.end().expect("no errors")
}

#[test]
fn skip_version() {
    let serialized = example_with_version(true);
    assert!(serialized.get("version").is_none())
}

#[test]
fn keep_version() {
    let serialized = example_with_version(false);
    assert_eq!(Some(&DocumentValue::Version(0)), serialized.get("version"))
}

#[test]
fn keep_version_value_unchanged() {
    let builder = ToDashValue::default();
    let mut map = builder.serialize_struct("Example", 1).expect("no errors");
    let value = version_field(map.value_builder(), Version(7));
    map.serialize_field("version", value).expect("no errors");
    let tree = map.end().expect("no errors");
    assert_eq!(Some(&DocumentValue::Version(7)), tree.get("version"));
}

#[test]
fn skip_version_keeps_other_fields() {
    let builder = ToDashValue::default().with_skip_version(true);
    let mut map = builder.serialize_struct("Example", 2).expect("no errors");
    let v = version_field(map.value_builder(), Version(1));
    map.serialize_field("version", v).expect("no errors");
    map.serialize_field("revision", DocumentValue::UInteger(3)).expect("no errors");
    let tree = map.end().expect("no errors");
    assert!(tree.get("version").is_none());
    assert_eq!(Some(&DocumentValue::UInteger(3)), tree.get("revision"));
}

#[test]
fn skip_version_reaches_nested_maps() {
    let builder = ToDashValue::default().with_skip_version(true);
    let mut top = builder.serialize_struct("Outer", 2).expect("no errors");
    let mut inner = top.value_builder().serialize_struct("Inner", 2).expect("no errors");
    let v = version_field(inner.value_builder(), Version(2));
    inner.serialize_field("version", v).expect("no errors");
    inner.serialize_field("n", DocumentValue::UInteger(1)).expect("no errors");
    let inner = inner.end().expect("no errors");
    top.serialize_field("inner", inner).expect("no errors");
    let mut seq = top.value_builder().serialize_seq(Some(1)).expect("no errors");
    let mut element = seq.element_builder().serialize_map(None).expect("no errors");
    let v = version_field(element.value_builder(), Version(2));
    element
        .serialize_entry(DocumentValue::String(String::from("version")), v)
        .expect("no errors");
    let element = element.end().expect("no errors");
    seq.serialize_element(element).expect("no errors");
    let list = seq.end().expect("no errors");
    top.serialize_field("list", list).expect("no errors");
    let tree = top.end().expect("no errors");
    assert!(tree.index("inner").get("version").is_none());
    assert_eq!(tree.index("inner").get("n"), Some(&DocumentValue::UInteger(1)));
    assert!(tree.index("list").index(0usize).get("version").is_none());
}

#[test]
fn identifier_wrapper_needs_32_bytes() {
    let b = ToDashValue::default();
    let r = b.serialize_newtype_struct("identifier", DocumentValue::Bytes(vec![1u8; 31].into()));
    assert!(matches!(r, Err(Error::SerializationError(_))));
}

#[test]
fn test_serializer() {
    let builder = ToDashValue::default();
    let mut top = builder.serialize_struct("ExampleStruct", 6).expect("dash value error");
    let id = Identifier { data: vec![0u8; 32] };
    let v = identifier_field(top.value_builder(), &id);
    top.serialize_field("id", v).expect("dash value error");
    let v = identifier_field(top.value_builder(), &Identifier::default());
    top.serialize_field("dataContractId", v).expect("dash value error");
    let v = top.value_builder().serialize_i64(0).expect("dash value error");
    top.serialize_field("cost", v).expect("dash value error");
    let v = top
        .value_builder()
        .serialize_bytes(&vec![2u8; 32])
        .expect("dash value error");
    top.serialize_field("binaryData", v).expect("dash value error");
    let mut nested = top
        .value_builder()
        .serialize_struct("Inner", 1)
        .expect("dash value error");
    let v = identifier_field(nested.value_builder(), &Identifier::default());
    nested.serialize_field("id", v).expect("dash value error");
    let nested = nested.end().expect("dash value error");
    top.serialize_field("nested", nested).expect("dash value error");
    top.serialize_entry(
        DocumentValue::String(String::from("dynamic_bytes")),
        DocumentValue::Bytes(vec![2u8; 32].into()),
    )
    .expect("dash value error");
    top.serialize_entry(
        DocumentValue::String(String::from("dynamic_id")),
        DocumentValue::Identifier(Identifier::default()),
    )
    .expect("dash value error");
    let result = top.end().expect("dash value error");
    println!("result is {:#?}", result);

    assert!(matches!(result.get("id"), Some(DocumentValue::Identifier(i)) if i.data == vec![0u8; 32]));
    assert!(matches!(result.get("binaryData"), Some(DocumentValue::Bytes(b)) if b.0 == vec![2u8; 32]));
    assert!(matches!(result.index("nested").get("id"), Some(DocumentValue::Identifier(_))));

    let text = result.to_wire(true);
    println!("json result is {:?}", text);
    let binary = result.to_wire(false);
    println!("cbor result is {:?}", binary);
}

#[test]
fn unsupported_newtype_variant() {
    let r = ToDashValue::default().serialize_newtype_variant("E", 0, "A", DocumentValue::Integer(1));
    assert!(matches!(r, Err(Error::Unsupported(_))));
}

#[test]
fn unsupported_variant_shapes() {
    let b = ToDashValue::default();
    assert!(matches!(b.serialize_tuple_variant("E", 1, "B", 2), Err(Error::Unsupported(_))));
    assert!(matches!(b.serialize_struct_variant("E", 2, "C", 2), Err(Error::Unsupported(_))));
    assert!(matches!(b.serialize_tuple_struct("T", 2), Err(Error::Unsupported(_))));
}

#[test]
fn scalars_widen() {
    let b = ToDashValue::default();
    assert_eq!(b.serialize_i8(-3).unwrap(), DocumentValue::Integer(-3));
    assert_eq!(b.serialize_i16(-300).unwrap(), DocumentValue::Integer(-300));
    assert_eq!(b.serialize_i32(-70000).unwrap(), DocumentValue::Integer(-70000));
    assert_eq!(b.serialize_u8(200).unwrap(), DocumentValue::UInteger(200));
    assert_eq!(b.serialize_u16(60000).unwrap(), DocumentValue::UInteger(60000));
    assert_eq!(b.serialize_u32(4_000_000_000).unwrap(), DocumentValue::UInteger(4_000_000_000));
    assert_eq!(b.serialize_bool(true).unwrap(), DocumentValue::Bool(true));
    assert_eq!(b.serialize_char('x').unwrap(), DocumentValue::String(String::from("x")));
    assert_eq!(b.serialize_str("abc").unwrap(), DocumentValue::String(String::from("abc")));
    assert_eq!(b.serialize_unit().unwrap(), DocumentValue::Null);
    assert_eq!(b.serialize_none().unwrap(), DocumentValue::Null);
    assert_eq!(b.serialize_unit_struct("U").unwrap(), DocumentValue::Null);
    assert_eq!(
        b.serialize_unit_variant("E", 0, "Red").unwrap(),
        DocumentValue::String(String::from("Red"))
    );
    assert_eq!(
        b.serialize_f64_bits(1.5f64.to_bits()).unwrap(),
        DocumentValue::Float(1.5f64.to_bits())
    );
    assert!(!b.is_human_readable());
}

#[test]
fn wrapper_names_are_recognised() {
    assert_eq!(dash_value::wrapper_kind("Version"), Some(WrapperKind::Version));
    assert_eq!(dash_value::wrapper_kind("StaticBytes"), Some(WrapperKind::StaticBytes));
    assert_eq!(dash_value::wrapper_kind("Bytes"), Some(WrapperKind::Bytes));
    assert_eq!(dash_value::wrapper_kind("identifier"), Some(WrapperKind::Identifier));
    assert_eq!(dash_value::wrapper_kind("Other"), None);
}

#[test]
fn newtype_other_name_passes_through() {
    let b = ToDashValue::default();
    let r = b.serialize_newtype_struct("Meters", DocumentValue::UInteger(5)).unwrap();
    assert_eq!(r, DocumentValue::UInteger(5));
}

#[test]
fn wrapper_shape_mismatch_is_an_error() {
    let b = ToDashValue::default();
    let r = b.serialize_newtype_struct("Version", DocumentValue::String(String::from("1")));
    assert!(matches!(r, Err(Error::SerializationError(_))));
    let r = b.serialize_newtype_struct("Version", DocumentValue::UInteger(1 << 40));
    assert!(matches!(r, Err(Error::SerializationError(_))));
    let r = b.serialize_newtype_struct("identifier", DocumentValue::UInteger(1));
    assert!(matches!(r, Err(Error::SerializationError(_))));
    let r = b.serialize_newtype_struct("StaticBytes", DocumentValue::Bytes(vec![1u8; 31].into()));
    assert!(matches!(r, Err(Error::SerializationError(_))));
}

#[test]
fn fixed_bytes_wrapper_rewraps() {
    let b = ToDashValue::default();
    let r = b
        .serialize_newtype_struct("StaticBytes", DocumentValue::Bytes(vec![9u8; 32].into()))
        .unwrap();
    match r {
        DocumentValue::StaticBytes(s) => assert_eq!(s.0, [9u8; 32]),
        other => panic!("unexpected {:?}", other),
    }
}

#[test]
fn map_key_must_be_string() {
    let mut m = ToDashValue::default().serialize_map(None).unwrap();
    let r = m.serialize_key(DocumentValue::Integer(1));
    assert!(matches!(r, Err(Error::SerializationError(_))));
}

#[test]
fn map_value_without_key_is_an_error() {
    let mut m = ToDashValue::default().serialize_map(None).unwrap();
    let r = m.serialize_value(DocumentValue::Integer(1));
    assert!(matches!(r, Err(Error::SerializationError(_))));
}

#[test]
fn sequence_builds_array() {
    let b = ToDashValue::default();
    let mut s = b.serialize_seq(Some(2)).unwrap();
    let e = s.element_builder().serialize_u8(1).unwrap();
    s.serialize_element(e).unwrap();
    let e = s.element_builder().serialize_str("two").unwrap();
    s.serialize_element(e).unwrap();
    let a = s.end().unwrap();
    assert_eq!(
        a,
        DocumentValue::Array(vec![
            DocumentValue::UInteger(1),
            DocumentValue::String(String::from("two"))
        ])
    );
    let t = b.serialize_tuple(0).unwrap().end().unwrap();
    assert_eq!(t, DocumentValue::Array(vec![]));
}
