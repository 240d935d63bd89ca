use relic_chunky::container::{Chunk, ChunkBody, ChunkKind, Chunky};
use relic_chunky::reflect_type::{
    array_element_type, classify_field, is_enum_type, parse_type, parse_type_from_bytes, FieldKind,
    SchemaRegistry,
};

fn pascal(out: &mut Vec<u8>, s: &str) {
    out.extend_from_slice(&(s.len() as u32).to_le_bytes());
    out.extend_from_slice(s.as_bytes());
}

/// An `RFTY` body for a type with one base and the given fields.
fn rfty(name: &str, hash: u64, size: u32, fields: &[(&str, &str, u32, u32)]) -> Vec<u8> {
    let mut b = Vec::new();
    pascal(&mut b, name);
    b.extend_from_slice(&hash.to_le_bytes());
    b.extend_from_slice(&size.to_le_bytes());
    b.extend_from_slice(&[0u8; 12]);
    b.extend_from_slice(&77u32.to_le_bytes()); // trailer
    b.extend_from_slice(&[0u8; 20]);
    b.extend_from_slice(&1u64.to_le_bytes()); // one base
    b.extend_from_slice(&0xabcdu64.to_le_bytes());
    b.extend_from_slice(&3u32.to_le_bytes());
    b.extend_from_slice(&[0u8; 24]);
    b.extend_from_slice(&(fields.len() as u64).to_le_bytes());
    for (i, (f, t, off, sz)) in fields.iter().enumerate() {
        pascal(&mut b, f);
        b.extend_from_slice(&(100 + i as u64).to_le_bytes());
        pascal(&mut b, t);
        b.extend_from_slice(&(200 + i as u64).to_le_bytes());
        b.extend_from_slice(&off.to_le_bytes());
        b.extend_from_slice(&sz.to_le_bytes());
        b.extend_from_slice(&[0u8; 64]);
    }
    b
}

#[test]
fn parse_type_reads_header_bases_and_fields() {
    let bytes = rfty("Mod", 0x1234, 16, &[("m_a", "int32_t", 0, 4), ("m_b", "bool", 4, 1)]);
    let ty = parse_type(&bytes).unwrap();
    assert_eq!(ty.name, "Mod");
    assert_eq!(ty.hash, 0x1234);
    assert_eq!(ty.size, 16);
    assert_eq!(ty.trailer, 77);
    assert_eq!(ty.bases, vec![(0xabcd, 3)]);
    assert_eq!(ty.fields.len(), 2);
    assert_eq!(ty.fields[1].name, "m_b");
    assert_eq!(ty.fields[1].ty_name, "bool");
    assert_eq!(ty.fields[1].offset, 4);
    assert_eq!(ty.fields[1].name_hash, 101);
    assert_eq!(ty.fields[1].type_hash, 201);
}

#[test]
fn a_bad_field_clears_all_fields() {
    let bytes = rfty("Mod", 1, 4, &[("m_a", "int32_t", 0, 4), ("m_b", "bool", 8, 1)]);
    let ty = parse_type(&bytes).unwrap();
    assert!(ty.fields.is_empty());
    let not_member = rfty("Mod", 1, 4, &[("a", "int32_t", 0, 4)]);
    assert!(parse_type(&not_member).unwrap().fields.is_empty());
    assert!(parse_type(&bytes[..10]).is_none());
}

#[test]
fn field_kinds_follow_type_names() {
    assert_eq!(classify_field("util::ReflectArray<Foo*,StdTraits>", |_| false), FieldKind::PointerArray);
    assert_eq!(classify_field("util::ReflectArray<Foo,StdTraits>", |_| false), FieldKind::Array);
    assert_eq!(classify_field("FamilyManagerEnum<X>", |_| false), FieldKind::Enum);
    assert_eq!(classify_field("util::ReflectString<StdTraits>", |_| false), FieldKind::Str);
    assert_eq!(classify_field("ReflectOffsetPointer<A>", |_| false), FieldKind::OffsetPointer);
    assert_eq!(classify_field("bool", |_| false), FieldKind::Bool);
    assert_eq!(classify_field("float", |_| false), FieldKind::Scalar);
    assert_eq!(classify_field("uint32_t", |_| false), FieldKind::Scalar);
    assert_eq!(classify_field("unsigned long long", |_| false), FieldKind::Scalar64);
    assert_eq!(classify_field("uint8_t", |_| false), FieldKind::Scalar8);
    assert_eq!(classify_field("Point", |_| true), FieldKind::Embed);
    assert_eq!(classify_field("Point", |_| false), FieldKind::Opaque);
    assert!(is_enum_type("util::ReflectStringHash"));
    assert!(!is_enum_type("util::ReflectString"));
}

#[test]
fn array_element_types() {
    assert_eq!(array_element_type("util::ReflectArray<WinCondition*,StdTraits>"), "WinCondition");
    assert_eq!(array_element_type("util::ReflectArray< Foo * ,StdTraits>"), "Foo");
    assert_eq!(array_element_type("Plain"), "Plain");
    assert_eq!(array_element_type("util::ReflectArray<Open"), "util::ReflectArray<Open");
}

fn container(bodies: Vec<Vec<u8>>) -> Chunky {
    Chunky {
        major: 4,
        minor: 1,
        platform: 1,
        chunks: bodies
            .into_iter()
            .map(|b| Chunk { kind: ChunkKind::Data, name: *b"RFTY", version: 1, path: Vec::new(), body: ChunkBody::Data(b) })
            .collect(),
    }
}

#[test]
fn registry_keeps_the_first_type_of_a_hash() {
    let chunky = container(vec![rfty("B", 9, 4, &[]), rfty("A", 3, 4, &[]), rfty("Other", 9, 4, &[])]);
    let mut reg = SchemaRegistry::new();
    reg.add_from_chunky(&chunky);
    assert_eq!(reg.types.len(), 2);
    assert_eq!(reg.by_hash(9).unwrap().name, "B");
    assert_eq!(reg.by_name("A").unwrap().hash, 3);
    assert!(reg.by_name("Other").is_none());
    assert!(reg.by_hash(4).is_none());

    let mut bytes = Vec::new();
    chunky.write(&mut bytes);
    let mut fresh = SchemaRegistry::new();
    assert!(fresh.scan_reader(&bytes));
    assert!(!fresh.scan_reader(&bytes));
    assert!(!fresh.scan_reader(b"junk"));
    assert_eq!(parse_type_from_bytes(&bytes).unwrap().name, "A");
    assert!(parse_type_from_bytes(b"junk").is_none());
}
