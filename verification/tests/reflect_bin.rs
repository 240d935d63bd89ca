use relic_chunky::container::{Chunk, ChunkBody, ChunkKind, Chunky, ChunkyError};
use relic_chunky::rdo::{RdoGraph, RdoObject, RdoValue, ScalarType};
use relic_chunky::reflect_bin::{compile_bin, compile_bin_from_schema, extract_schema, recompile_bin, BinError};
use relic_chunky::schema_lib::{sanitize, schema_for};
use relic_chunky::reflect_compile::{compile_graph, compile_reflect_full, CompileError};
use relic_chunky::reflect_reference::compile_reflect;
use relic_chunky::reflect_type::SchemaRegistry;

fn pascal(out: &mut Vec<u8>, s: &str) {
    out.extend_from_slice(&(s.len() as u32).to_le_bytes());
    out.extend_from_slice(s.as_bytes());
}

/// An `RFTY` body for a type with no bases and the given fields.
fn rfty(name: &str, hash: u64, size: u32, fields: &[(&str, &str, u32, u32)]) -> Vec<u8> {
    let mut b = Vec::new();
    pascal(&mut b, name);
    b.extend_from_slice(&hash.to_le_bytes());
    b.extend_from_slice(&size.to_le_bytes());
    b.extend_from_slice(&[0u8; 12]);
    b.extend_from_slice(&7u32.to_le_bytes());
    b.extend_from_slice(&[0u8; 20]);
    b.extend_from_slice(&0u64.to_le_bytes());
    b.extend_from_slice(&[0u8; 24]);
    b.extend_from_slice(&(fields.len() as u64).to_le_bytes());
    for (i, (f, t, off, sz)) in fields.iter().enumerate() {
        pascal(&mut b, f);
        b.extend_from_slice(&(100 + i as u64).to_le_bytes());
        pascal(&mut b, t);
        b.extend_from_slice(&(200 + i as u64).to_le_bytes());
        b.extend_from_slice(&off.to_le_bytes());
        b.extend_from_slice(&sz.to_le_bytes());
        b.extend_from_slice(&[0u8; 64]);
    }
    b
}

fn data_chunk(name: &[u8; 4], body: Vec<u8>) -> Chunk {
    Chunk { kind: ChunkKind::Data, name: *name, version: 1, path: Vec::new(), body: ChunkBody::Data(body) }
}

fn schema() -> Chunk {
    let ty = rfty("Mod", 0x1234, 16, &[("m_count", "int32_t", 0, 4), ("m_on", "bool", 4, 1)]);
    Chunk {
        kind: ChunkKind::Folder,
        name: *b"RFDB",
        version: 1,
        path: Vec::new(),
        body: ChunkBody::Folder(vec![data_chunk(b"RFTY", ty)]),
    }
}

fn registry() -> SchemaRegistry {
    let mut reg = SchemaRegistry::new();
    reg.add_from_chunky(&Chunky { major: 4, minor: 0, platform: 1, chunks: vec![schema()] });
    reg
}

fn root() -> RdoObject {
    RdoObject {
        id: 9,
        ty_name: "Mod".to_string(),
        owner_id: 0,
        props: vec![
            ("m_count".to_string(), RdoValue::Scalar { xml_type: ScalarType::Int32, bits: 5 }),
            ("m_on".to_string(), RdoValue::Bool(true)),
        ],
    }
}

fn bytes_of(c: &Chunky) -> Vec<u8> {
    let mut out = Vec::new();
    c.write(&mut out);
    out
}

fn float_bits(s: &str) -> Option<u32> {
    s.parse::<f32>().ok().map(f32::to_bits)
}

const MOD_RDO: &str = "<DataObject Id=\"9\" Type=\"Mod\" OwnerId=\"0\">\
<DataProperty Name=\"m_count\" Type=\"Int32\" Value=\"6\"/>\
<DataProperty Name=\"m_on\" Type=\"Bool\" Value=\"True\"/>\
</DataObject>";

fn reference() -> Chunky {
    compile_graph(&RdoGraph { objects: vec![root()] }, &registry(), &schema()).unwrap()
}

#[test]
fn recompiling_a_bin_matches_compiling_its_container() {
    let reference = reference();
    let bin = bytes_of(&reference);
    let want = compile_reflect(MOD_RDO, &registry(), &reference, float_bits).unwrap();
    assert_eq!(recompile_bin(MOD_RDO, &bin, float_bits), Ok(bytes_of(&want)));
    let unchanged = "<DataObject Id=\"9\" Type=\"Mod\" OwnerId=\"0\">\
<DataProperty Name=\"m_count\" Type=\"Int32\" Value=\"5\"/>\
<DataProperty Name=\"m_on\" Type=\"Bool\" Value=\"True\"/>\
</DataObject>";
    assert_eq!(recompile_bin(unchanged, &bin, float_bits), Ok(bin.clone()));
    assert_eq!(recompile_bin(MOD_RDO, b"junk", float_bits), Err(BinError::Read(ChunkyError::UnexpectedEof)));
}

#[test]
fn compiling_from_a_schema_container() {
    let container = Chunky { major: 4, minor: 0, platform: 1, chunks: vec![schema()] };
    let bin = bytes_of(&container);
    let want = compile_reflect_full(MOD_RDO, &registry(), &schema(), float_bits).unwrap();
    assert_eq!(compile_bin_from_schema(MOD_RDO, &bin, float_bits), Ok(bytes_of(&want)));
    let unknown = "<DataObject Id=\"1\" Type=\"Other\" OwnerId=\"0\"></DataObject>";
    assert_eq!(
        compile_bin_from_schema(unknown, &bin, float_bits),
        Err(BinError::Compile(CompileError::UnknownType("Other".to_string())))
    );
    let bare = bytes_of(&Chunky { major: 4, minor: 0, platform: 1, chunks: vec![data_chunk(b"DATA", vec![1])] });
    assert_eq!(compile_bin_from_schema(MOD_RDO, &bare, float_bits), Err(BinError::NoSchema));
}

#[test]
fn the_schema_comes_out_with_the_root_type() {
    let bin = bytes_of(&reference());
    let (name, bytes) = extract_schema(&bin).unwrap();
    assert_eq!(name, "Mod");
    assert_eq!(bytes, bytes_of(&Chunky { major: 4, minor: 0, platform: 1, chunks: vec![schema()] }));
}

#[test]
fn extracting_needs_a_rooted_object_table() {
    let table = |body: Vec<u8>| {
        bytes_of(&Chunky { major: 4, minor: 0, platform: 1, chunks: vec![schema(), data_chunk(b"ROBJ", body)] })
    };
    let no_table = bytes_of(&Chunky { major: 4, minor: 0, platform: 1, chunks: vec![schema()] });
    assert_eq!(extract_schema(&no_table), Err(BinError::NoObjectTable));
    assert_eq!(extract_schema(&table(vec![1, 0])), Err(BinError::ShortObjectTable));
    let mut one = vec![1, 0, 0, 0, 0, 0, 0, 0];
    one.extend_from_slice(&[0u8; 36]);
    one[8 + 8..8 + 16].copy_from_slice(&0x99u64.to_le_bytes());
    assert_eq!(extract_schema(&table(one.clone())), Err(BinError::UnknownRootType(0x99)));
    one[8 + 24] = 5;
    assert_eq!(extract_schema(&table(one.clone())), Err(BinError::NoRootObject));
    one[0] = 2;
    assert_eq!(extract_schema(&table(one)), Err(BinError::ShortObjectTable));
}

#[test]
fn the_schema_library_is_looked_up_by_sanitised_root_type() {
    assert_eq!(sanitize("Foo<Bar>::Baz 2"), "Foo_Bar___Baz_2");
    let container = bytes_of(&Chunky { major: 4, minor: 0, platform: 1, chunks: vec![schema()] });
    let library = vec![("Other".to_string(), vec![1u8]), ("Mod".to_string(), container.clone())];
    assert_eq!(schema_for("Mod", &library), Some(&container[..]));
    assert_eq!(schema_for("Missing", &library), None);
    assert_eq!(schema_for("Other", &library), None);
    assert_eq!(schema_for("WinCondition", &library), None);
    let both = vec![("WinCondition".to_string(), vec![7u8]), ("Mod".to_string(), vec![8u8])];
    assert_eq!(schema_for("WinCondition", &both), Some(&[7u8][..]));
    assert_eq!(schema_for("Mod", &both), Some(&[8u8][..]));
    assert_eq!(compile_bin(MOD_RDO, &library, float_bits), compile_bin_from_schema(MOD_RDO, &container, float_bits));
    let other = "<DataObject Id=\"1\" Type=\"Win:Condition\" OwnerId=\"0\"></DataObject>";
    assert_eq!(compile_bin(other, &library, float_bits), Err(BinError::NoSchemaFor("Win:Condition".to_string())));
    assert_eq!(compile_bin("<a></b>", &library, float_bits), Err(BinError::Compile(CompileError::Xml)));
}
