use relic_chunky::container::{Chunk, ChunkBody, ChunkKind};
use relic_chunky::rdo::{RdoGraph, RdoObject, RdoValue, ScalarType};
use relic_chunky::reflect_compile::{compile_graph, compile_reflect_full, schema_chunk, CompileError};
use relic_chunky::reflect_reference::compile_reflect;
use relic_chunky::reflect_type::{FieldDef, SchemaRegistry, TypeDef};

fn field(name: &str, ty: &str, offset: u32, size: u32) -> FieldDef {
    FieldDef { name: name.to_string(), ty_name: ty.to_string(), offset, size, name_hash: 0, type_hash: 0 }
}

fn registry() -> SchemaRegistry {
    let mut reg = SchemaRegistry::new();
    reg.types.insert(
        0x1234,
        TypeDef {
            name: "Mod".to_string(),
            hash: 0x1234,
            size: 16,
            trailer: 7,
            fields: vec![field("m_count", "int32_t", 0, 4), field("m_on", "bool", 4, 1)],
            bases: Vec::new(),
        },
    );
    reg
}

fn schema() -> Chunk {
    Chunk { kind: ChunkKind::Folder, name: *b"RFDB", version: 1, path: Vec::new(), body: ChunkBody::Folder(Vec::new()) }
}

fn root(ty: &str) -> RdoObject {
    RdoObject {
        id: 9,
        ty_name: ty.to_string(),
        owner_id: 0,
        props: vec![
            ("m_count".to_string(), RdoValue::Scalar { xml_type: ScalarType::Int32, bits: 5 }),
            ("m_on".to_string(), RdoValue::Bool(true)),
        ],
    }
}

fn data(c: &Chunk) -> &[u8] {
    match &c.body {
        ChunkBody::Data(d) => d,
        ChunkBody::Folder(_) => panic!("folder"),
    }
}

#[test]
fn a_flat_root_compiles_into_the_seven_chunks() {
    let graph = RdoGraph { objects: vec![root("Mod")] };
    let out = compile_graph(&graph, &registry(), &schema()).unwrap();
    let names: Vec<[u8; 4]> = out.chunks.iter().map(|c| c.name).collect();
    assert_eq!(names, vec![*b"RFCI", *b"RFUP", *b"RNEW", *b"RSHI", *b"RFDB", *b"ROBJ", *b"RERF"]);
    let blob = data(&out.chunks[0]);
    assert_eq!(&blob[..12], &[0, 0, 0, 0, 5, 0, 0, 0, 1, 0, 0, 0]);
    assert_eq!(data(&out.chunks[6]), &[0u8; 8]);
    assert_eq!(schema_chunk(&out).unwrap().name, *b"RFDB");
}

#[test]
fn compile_errors_name_their_cause() {
    let reg = registry();
    let mut owned = root("Mod");
    owned.owner_id = 3;
    assert_eq!(compile_graph(&RdoGraph { objects: vec![owned] }, &reg, &schema()), Err(CompileError::NoRoot));
    assert_eq!(
        compile_graph(&RdoGraph { objects: vec![root("Nope")] }, &reg, &schema()),
        Err(CompileError::UnknownType("Nope".to_string()))
    );
}

fn float_bits(s: &str) -> Option<u32> {
    s.parse::<f32>().ok().map(f32::to_bits)
}

const MOD_RDO: &str = "<DataObject Id=\"9\" Type=\"Mod\" OwnerId=\"0\">\
<DataProperty Name=\"m_count\" Type=\"Int32\" Value=\"6\"/>\
<DataProperty Name=\"m_on\" Type=\"Bool\" Value=\"False\"/>\
</DataObject>";

#[test]
fn compiling_against_a_reference_rebuilds_the_object_data_only() {
    let reg = registry();
    let reference = compile_graph(&RdoGraph { objects: vec![root("Mod")] }, &reg, &schema()).unwrap();
    let out = compile_reflect(MOD_RDO, &reg, &reference, float_bits).unwrap();
    assert_eq!(out.chunks.len(), 7);
    assert_eq!(&data(&out.chunks[0])[..12], &[0, 0, 0, 0, 6, 0, 0, 0, 0, 0, 0, 0]);
    for i in 1..7 {
        assert_eq!(out.chunks[i], reference.chunks[i]);
    }
    let full = compile_reflect_full(MOD_RDO, &reg, &schema(), float_bits).unwrap();
    assert_eq!(full, out);
}

#[test]
fn a_reference_without_object_data_is_refused() {
    let reg = registry();
    let mut reference = compile_graph(&RdoGraph { objects: vec![root("Mod")] }, &reg, &schema()).unwrap();
    reference.chunks.remove(5);
    assert_eq!(compile_reflect(MOD_RDO, &reg, &reference, float_bits), Err(CompileError::MissingChunk(*b"ROBJ")));
    reference.chunks.remove(0);
    assert_eq!(compile_reflect(MOD_RDO, &reg, &reference, float_bits), Err(CompileError::MissingChunk(*b"RFCI")));
    assert_eq!(compile_reflect("<a></b>", &reg, &reference, float_bits), Err(CompileError::Xml));
}

#[test]
fn the_compiler_reads_integers_strictly() {
    let mut reg = SchemaRegistry::new();
    reg.types.insert(
        0x77,
        TypeDef {
            name: "Big".to_string(),
            hash: 0x77,
            size: 16,
            trailer: 0,
            fields: vec![field("m_u", "uint64_t", 0, 8), field("m_i", "int64_t", 8, 8)],
            bases: Vec::new(),
        },
    );
    let rdo = "<DataObject Id=\"1\" Type=\"Big\" OwnerId=\"0\">\
<DataProperty Name=\"m_u\" Type=\"UInt64\" Value=\"-1\"/>\
<DataProperty Name=\"m_i\" Type=\"Int64\" Value=\"18446744073709551615\"/>\
</DataObject>";
    let graph = relic_chunky::rdo_parse::parse_rdo(rdo, float_bits).unwrap();
    assert_eq!(graph.objects[0].scalar("m_u"), Some(u64::MAX));
    assert_eq!(graph.objects[0].scalar("m_i"), Some(u64::MAX));
    let out = compile_reflect_full(rdo, &reg, &schema(), float_bits).unwrap();
    assert_eq!(&data(&out.chunks[0])[..20], &[0u8; 20]);
    let lenient = compile_graph(&graph, &reg, &schema()).unwrap();
    assert_eq!(&data(&lenient.chunks[0])[4..20], &[0xffu8; 16]);
}

#[test]
fn a_string_lands_behind_its_slot() {
    let mut reg = SchemaRegistry::new();
    reg.types.insert(
        0x55,
        TypeDef {
            name: "Named".to_string(),
            hash: 0x55,
            size: 16,
            trailer: 0,
            fields: vec![field("m_name", "ReflectString", 0, 16)],
            bases: Vec::new(),
        },
    );
    let rdo = "<DataObject Id=\"1\" Type=\"Named\" OwnerId=\"0\">\
<DataProperty Name=\"m_name\" Type=\"String\" Value=\"hello\"/>\
</DataObject>";
    let out = compile_reflect_full(rdo, &reg, &schema(), float_bits).unwrap();
    let blob = data(&out.chunks[0]);
    let slot = 4usize;
    let rel = i32::from_le_bytes(blob[slot..slot + 4].try_into().unwrap());
    let len = u32::from_le_bytes(blob[slot + 8..slot + 12].try_into().unwrap()) as usize;
    let at = (slot as i64 + rel as i64) as usize;
    assert_eq!(len, 5);
    assert_eq!(&blob[at..at + len], b"hello");
    assert!(blob.len() > at + len);
}
