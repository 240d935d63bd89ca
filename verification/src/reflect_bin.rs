//! Reflection `.bin` files as bytes: recompiling one from its `.rdo` source,
//! compiling one against a schema container, and cutting the schema out of
//! a compiled one.
use vstd::prelude::*;

use crate::container::{view_chunk, chunky_bytes, parse_chunky, Chunk, Chunky, ChunkyError, SpecBody, SpecChunk, SpecChunky};
use crate::le::{le32, le64, read_u32, read_u64};
use crate::rdo_parse::{reads_floats_as, spec_compile_rdo};
use crate::reflect::tag;
use crate::reflect_compile::{
    compile_reflect_full, first_root, root_type_of, first_named_at, lemma_view_chunks_map, schema_chunk, spec_compile_graph, view_compile_error, CompileError,
    SpecCompileError,
};
use crate::reflect_reference::{compile_reflect, spec_compile_reference};
use crate::reflect_type::{add_types, SchemaRegistry, SpecType, TypeDef};
use crate::schema_lib::{bundled_key, resource_named, schema_for, spec_sanitize};
use crate::walk::data_list;

verus! {

/// Why a `.bin` could not be made or taken apart.
#[derive(Debug, Clone, PartialEq, Eq)]
pub enum BinError {
    /// The bytes are no readable container.
    Read(ChunkyError),
    /// The `.rdo` could not be compiled.
    Compile(CompileError),
    /// The container has no schema chunk (`RFDB`).
    NoSchema,
    /// The container has no object table (`ROBJ`).
    NoObjectTable,
    /// The object table ends inside a record.
    ShortObjectTable,
    /// No record of the object table has owner id 0.
    NoRootObject,
    /// The root object's type hash is not in the schema.
    UnknownRootType(u64),
    /// The schema library has no schema for the root type; its name.
    NoSchemaFor(String),
}

pub enum SpecBinError {
    Read(ChunkyError),
    Compile(SpecCompileError),
    NoSchema,
    NoObjectTable,
    ShortObjectTable,
    NoRootObject,
    UnknownRootType(u64),
    NoSchemaFor(Seq<char>),
}

pub open spec fn view_bin_error(e: BinError) -> SpecBinError {
    match e {
        BinError::Read(x) => SpecBinError::Read(x),
        BinError::Compile(x) => SpecBinError::Compile(view_compile_error(x)),
        BinError::NoSchema => SpecBinError::NoSchema,
        BinError::NoObjectTable => SpecBinError::NoObjectTable,
        BinError::ShortObjectTable => SpecBinError::ShortObjectTable,
        BinError::NoRootObject => SpecBinError::NoRootObject,
        BinError::UnknownRootType(h) => SpecBinError::UnknownRootType(h),
        BinError::NoSchemaFor(t) => SpecBinError::NoSchemaFor(t@),
    }
}

/// The types that a registry reads out of the chunks `cs`, starting empty.
pub open spec fn schema_types(cs: Seq<SpecChunk>) -> Map<u64, SpecType> {
    add_types(Map::empty(), data_list(cs))
}

/// A registry filled from the chunks `cs` can hold exactly these types.
pub open spec fn types_of(types: Map<u64, TypeDef>, cs: Seq<SpecChunk>) -> bool {
    types.map_values(|t: TypeDef| t.spec_view()) == schema_types(cs)
}

/// The schema chunk (`RFDB`) among the top-level chunks `cs`: the first of
/// that name.
pub open spec fn schema_of(cs: Seq<SpecChunk>) -> Option<SpecChunk> {
    if exists|i: int| first_named_at(cs, tag(0x52, 0x46, 0x44, 0x42), i) {
        Some(cs[choose|i: int| first_named_at(cs, tag(0x52, 0x46, 0x44, 0x42), i)])
    } else {
        None
    }
}

proof fn lemma_first_named_unique(cs: Seq<SpecChunk>, name: Seq<u8>, i: int, j: int)
    requires
        first_named_at(cs, name, i),
        first_named_at(cs, name, j),
    ensures
        i == j,
{
    if i < j {
        assert(cs[i].name != name);
    } else if j < i {
        assert(cs[j].name != name);
    }
}

fn find_schema(chunky: &Chunky) -> (r: Option<&Chunk>)
    ensures
        match schema_of(chunky@.chunks) {
            Some(c) => r matches Some(x) && x@ == c,
            None => r is None,
        },
{
    let r = schema_chunk(chunky);
    proof {
        let cs = chunky@.chunks;
        let name = tag(0x52, 0x46, 0x44, 0x42);
        match r {
            Some(c) => {
                let i = choose|i: int| first_named_at(cs, name, i) && c@ == #[trigger] cs[i];
                let k = choose|k: int| first_named_at(cs, name, k);
                lemma_first_named_unique(cs, name, i, k);
            },
            None => {
                if exists|i: int| first_named_at(cs, name, i) {
                    let i = choose|i: int| first_named_at(cs, name, i);
                    assert(cs[i].name == name);
                }
            },
        }
    }
    r
}

// ---------------------------------------------------------------------------
// Compiling to bytes
// ---------------------------------------------------------------------------
/// `r` is what compiling the `.rdo` text `rdo` against `reference` gives,
/// as bytes, with the types that a registry reads out of `reference` and
/// the floats read by `parse_float`.
pub open spec fn recompiled_as<F: Fn(&str) -> Option<u32>>(
    parse_float: F,
    rdo: Seq<char>,
    reference: SpecChunky,
    r: Result<Vec<u8>, BinError>,
) -> bool {
    exists|types: Map<u64, TypeDef>|
        #![trigger types_of(types, reference.chunks)]
        types_of(types, reference.chunks) && forall|g: spec_fn(Seq<char>) -> Option<u32>|
            reads_floats_as(parse_float, g) ==> match #[trigger] spec_compile_rdo(rdo, g) {
                Err(_) => r matches Err(x) && view_bin_error(x) == SpecBinError::Compile(SpecCompileError::Xml),
                Ok(objs) => match spec_compile_reference(objs, types, reference) {
                    Ok(c) => r matches Ok(b) && b@ == chunky_bytes(c),
                    Err(e) => r matches Err(x) && view_bin_error(x) == SpecBinError::Compile(e),
                },
            }
}

/// Recompiles a `.bin` from its `.rdo` source, its types and its invariant
/// chunks taken from the `.bin` bytes `reference_bin` (see
/// `spec_compile_reference`); the new bytes are returned.
pub fn recompile_bin<F: Fn(&str) -> Option<u32>>(rdo_xml: &str, reference_bin: &[u8], parse_float: F) -> (r: Result<
    Vec<u8>,
    BinError,
>)
    requires
        forall|s: &str| #[trigger] parse_float.requires((s,)),
    ensures
        match parse_chunky(reference_bin@) {
            Err(e) => r matches Err(x) && view_bin_error(x) == SpecBinError::Read(e),
            Ok(reference) => recompiled_as(parse_float, rdo_xml@, reference, r),
        },
{
    let reference = match Chunky::read(reference_bin) {
        Err(e) => {
            return Err(BinError::Read(e));
        },
        Ok(c) => c,
    };
    let mut registry = SchemaRegistry::new();
    registry.add_from_chunky(&reference);
    proof {
        assert(registry.types@.map_values(|t: TypeDef| t.spec_view()) =~= registry.spec_types());
        assert(Map::<u64, TypeDef>::empty().map_values(|t: TypeDef| t.spec_view()) =~= Map::<u64, SpecType>::empty());
    }
    let compiled = compile_reflect(rdo_xml, &registry, &reference, parse_float);
    let ghost made = compiled;
    let res = match compiled {
        Err(e) => Err(BinError::Compile(e)),
        Ok(out) => {
            let mut buf: Vec<u8> = Vec::new();
            out.write(&mut buf);
            proof {
                assert(buf@ =~= chunky_bytes(out@));
            }
            Ok(buf)
        },
    };
    proof {
        let types = registry.types@;
        assert(types_of(types, reference@.chunks));
        assert forall|g: spec_fn(Seq<char>) -> Option<u32>|
            reads_floats_as(parse_float, g) implies match #[trigger] spec_compile_rdo(rdo_xml@, g) {
                Err(_) => res matches Err(x) && view_bin_error(x) == SpecBinError::Compile(SpecCompileError::Xml),
                Ok(objs) => match spec_compile_reference(objs, types, reference@) {
                    Ok(c) => res matches Ok(b) && b@ == chunky_bytes(c),
                    Err(e) => res matches Err(x) && view_bin_error(x) == SpecBinError::Compile(e),
                },
            } by {
            assert(spec_compile_rdo(rdo_xml@, g) == spec_compile_rdo(rdo_xml@, g));
        }
        assert(parse_chunky(reference_bin@) == Ok::<SpecChunky, ChunkyError>(reference@));
        assert(recompiled_as(parse_float, rdo_xml@, reference@, res));
    }
    res
}

/// `r` is what compiling the `.rdo` text `rdo` with the schema container
/// `schema_bin` gives, as bytes: its types are those a registry reads out
/// of the container, its schema chunk the container's `RFDB`, the floats
/// read by `parse_float`.
pub open spec fn compiled_from_schema<F: Fn(&str) -> Option<u32>>(
    parse_float: F,
    rdo: Seq<char>,
    schema_bin: Seq<u8>,
    r: Result<Vec<u8>, BinError>,
) -> bool {
    match parse_chunky(schema_bin) {
        Err(e) => r matches Err(x) && view_bin_error(x) == SpecBinError::Read(e),
        Ok(container) => match schema_of(container.chunks) {
            None => r matches Err(x) && view_bin_error(x) == SpecBinError::NoSchema,
            Some(schema) => exists|types: Map<u64, TypeDef>|
                #![trigger types_of(types, container.chunks)]
                types_of(types, container.chunks) && forall|g: spec_fn(Seq<char>) -> Option<u32>|
                    reads_floats_as(parse_float, g) ==> match #[trigger] spec_compile_rdo(rdo, g) {
                        Err(_) => r matches Err(x) && view_bin_error(x) == SpecBinError::Compile(SpecCompileError::Xml),
                        Ok(objs) => match spec_compile_graph(objs, types, schema) {
                            Ok(c) => r matches Ok(b) && b@ == chunky_bytes(c),
                            Err(e) => r matches Err(x) && view_bin_error(x) == SpecBinError::Compile(e),
                        },
                    },
        },
    }
}

/// Compiles a `.bin` from its `.rdo` source and a schema container (a `.bin`
/// with the `RFDB` chunk of the same root type), which supplies the types and
/// the schema chunk (see `compile_reflect_full`); the new bytes are returned.
pub fn compile_bin_from_schema<F: Fn(&str) -> Option<u32>>(rdo_xml: &str, schema_bin: &[u8], parse_float: F) -> (r: Result<
    Vec<u8>,
    BinError,
>)
    requires
        forall|s: &str| #[trigger] parse_float.requires((s,)),
    ensures
        compiled_from_schema(parse_float, rdo_xml@, schema_bin@, r),
{
    let container = match Chunky::read(schema_bin) {
        Err(e) => {
            return Err(BinError::Read(e));
        },
        Ok(c) => c,
    };
    let mut registry = SchemaRegistry::new();
    registry.add_from_chunky(&container);
    proof {
        assert(registry.types@.map_values(|t: TypeDef| t.spec_view()) =~= registry.spec_types());
        assert(Map::<u64, TypeDef>::empty().map_values(|t: TypeDef| t.spec_view()) =~= Map::<u64, SpecType>::empty());
    }
    let schema: &Chunk = match find_schema(&container) {
        None => {
            return Err(BinError::NoSchema);
        },
        Some(s) => s,
    };
    let compiled = compile_reflect_full(rdo_xml, &registry, schema, parse_float);
    let ghost made = compiled;
    let res = match compiled {
        Err(e) => Err(BinError::Compile(e)),
        Ok(out) => {
            let mut buf: Vec<u8> = Vec::new();
            out.write(&mut buf);
            proof {
                assert(buf@ =~= chunky_bytes(out@));
            }
            Ok(buf)
        },
    };
    proof {
        let types = registry.types@;
        assert(types_of(types, container@.chunks));
        assert forall|g: spec_fn(Seq<char>) -> Option<u32>|
            reads_floats_as(parse_float, g) implies match #[trigger] spec_compile_rdo(rdo_xml@, g) {
                Err(_) => res matches Err(x) && view_bin_error(x) == SpecBinError::Compile(SpecCompileError::Xml),
                Ok(objs) => match spec_compile_graph(objs, types, schema@) {
                    Ok(c) => res matches Ok(b) && b@ == chunky_bytes(c),
                    Err(e) => res matches Err(x) && view_bin_error(x) == SpecBinError::Compile(e),
                },
            } by {
            assert(spec_compile_rdo(rdo_xml@, g) == spec_compile_rdo(rdo_xml@, g));
        }
    }
    res
}

// ---------------------------------------------------------------------------
// Cutting the schema out of a compiled `.bin`
// ---------------------------------------------------------------------------
/// The body of the first top-level data chunk named `name`.
pub open spec fn first_data_named(cs: Seq<SpecChunk>, name: Seq<u8>) -> Option<Seq<u8>>
    decreases cs.len(),
{
    if cs.len() == 0 {
        None
    } else if cs[0].name == name && cs[0].body is Data {
        Some(cs[0].body->Data_0)
    } else {
        first_data_named(cs.subrange(1, cs.len() as int), name)
    }
}

/// The type hash of the first record, from record `i` on, of an object
/// table of `count` records whose owner id is 0. Records are 36 bytes long
/// from offset 8: id, type hash, data offset, owner id, trailer.
pub open spec fn root_hash_from(robj: Seq<u8>, count: int, i: int) -> Result<u64, SpecBinError>
    decreases count - i,
{
    if i >= count {
        Err(SpecBinError::NoRootObject)
    } else if robj.len() < 8 + 36 * i + 32 {
        Err(SpecBinError::ShortObjectTable)
    } else if le64(robj, 8 + 36 * i + 24) == 0 {
        Ok(le64(robj, 8 + 36 * i + 8) as u64)
    } else {
        root_hash_from(robj, count, i + 1)
    }
}

/// The type hash of the root object (owner id 0) of an object table.
pub open spec fn spec_root_type_hash(robj: Seq<u8>) -> Result<u64, SpecBinError> {
    if robj.len() < 4 {
        Err(SpecBinError::ShortObjectTable)
    } else {
        root_hash_from(robj, le32(robj, 0), 0)
    }
}

/// The root object's type name and a container of the same header that holds
/// the schema chunk alone, as bytes.
pub open spec fn spec_extract_schema(bin: Seq<u8>) -> Result<(Seq<char>, Seq<u8>), SpecBinError> {
    match parse_chunky(bin) {
        Err(e) => Err(SpecBinError::Read(e)),
        Ok(c) => match first_data_named(c.chunks, tag(0x52, 0x4f, 0x42, 0x4a)) {
            None => Err(SpecBinError::NoObjectTable),
            Some(robj) => match spec_root_type_hash(robj) {
                Err(e) => Err(e),
                Ok(h) => if !schema_types(c.chunks).contains_key(h) {
                    Err(SpecBinError::UnknownRootType(h))
                } else {
                    match schema_of(c.chunks) {
                        None => Err(SpecBinError::NoSchema),
                        Some(schema) => Ok(
                            (
                                schema_types(c.chunks)[h].name,
                                chunky_bytes(
                                    SpecChunky { major: c.major, minor: c.minor, platform: c.platform, chunks: seq![schema] },
                                ),
                            ),
                        ),
                    }
                },
            },
        },
    }
}

fn find_object_table(chunky: &Chunky) -> (r: Option<&[u8]>)
    ensures
        match first_data_named(chunky@.chunks, tag(0x52, 0x4f, 0x42, 0x4a)) {
            Some(d) => r matches Some(x) && x@ == d,
            None => r is None,
        },
{
    let ghost cs = chunky@.chunks;
    let ghost name = tag(0x52, 0x4f, 0x42, 0x4a);
    proof {
        lemma_view_chunks_map(chunky.chunks@);
        assert(cs.subrange(0, cs.len() as int) =~= cs);
    }
    let mut i: usize = 0;
    while i < chunky.chunks.len()
        invariant
            i <= chunky.chunks@.len(),
            cs == chunky@.chunks,
            cs == chunky.chunks@.map_values(|c: Chunk| view_chunk(c)),
            name == tag(0x52, 0x4f, 0x42, 0x4a),
            first_data_named(cs, name) == first_data_named(cs.subrange(i as int, cs.len() as int), name),
        decreases chunky.chunks.len() - i,
    {
        let c: &Chunk = &chunky.chunks[i];
        let ghost rest = cs.subrange(i as int, cs.len() as int);
        proof {
            assert(rest[0] == view_chunk(*c));
            assert(rest.subrange(1, rest.len() as int) =~= cs.subrange(i + 1, cs.len() as int));
        }
        if c.name[0] == 0x52 && c.name[1] == 0x4f && c.name[2] == 0x42 && c.name[3] == 0x4a {
            proof {
                assert(c.name@ =~= name);
            }
            match c.data() {
                Some(d) => {
                    return Some(d);
                },
                None => {},
            }
        } else {
            proof {
                if c.name@ == name {
                    assert(c.name@[0] == 0x52 && c.name@[1] == 0x4f && c.name@[2] == 0x42 && c.name@[3] == 0x4a);
                }
            }
        }
        i += 1;
    }
    None
}

proof fn lemma_record_room(len: int, i: int)
    requires
        len >= 40,
        i >= 0,
    ensures
        (len - 40) / 36 < i <==> len < 8 + 36 * i + 32,
{
    assert((len - 40) / 36 < i ==> len < 8 + 36 * i + 32) by (nonlinear_arith)
        requires
            len >= 40,
            i >= 0,
    ;
    assert(len < 8 + 36 * i + 32 ==> (len - 40) / 36 < i) by (nonlinear_arith)
        requires
            len >= 40,
            i >= 0,
    ;
}

/// The type hash of the root object (owner id 0) of an object table.
fn root_type_hash(robj: &[u8]) -> (r: Result<u64, BinError>)
    ensures
        match spec_root_type_hash(robj@) {
            Ok(h) => r == Ok::<u64, BinError>(h),
            Err(e) => r matches Err(x) && view_bin_error(x) == e,
        },
{
    let count: u32 = match read_u32(robj, 0) {
        None => {
            return Err(BinError::ShortObjectTable);
        },
        Some(c) => c,
    };
    let mut i: usize = 0;
    while i < count as usize
        invariant
            i <= count,
            robj@.len() >= 4,
            count as int == le32(robj@, 0),
            root_hash_from(robj@, count as int, 0) == root_hash_from(robj@, count as int, i as int),
        decreases count - i,
    {
        if robj.len() < 40 {
            return Err(BinError::ShortObjectTable);
        }
        proof {
            lemma_record_room(robj@.len() as int, i as int);
        }
        if (robj.len() - 40) / 36 < i {
            return Err(BinError::ShortObjectTable);
        }
        let base: usize = 8 + 36 * i;
        let owner: u64 = match read_u64(robj, base + 24) {
            Some(v) => v,
            None => {
                return Err(BinError::ShortObjectTable);
            },
        };
        if owner == 0 {
            match read_u64(robj, base + 8) {
                Some(h) => {
                    return Ok(h);
                },
                None => {
                    return Err(BinError::ShortObjectTable);
                },
            }
        }
        i += 1;
    }
    Err(BinError::NoRootObject)
}

/// Cuts the schema out of a compiled `.bin`: the root object's type name,
/// and the bytes of a container with the same header that holds the schema
/// chunk (`RFDB`) alone.
pub fn extract_schema(bin: &[u8]) -> (r: Result<(String, Vec<u8>), BinError>)
    ensures
        match spec_extract_schema(bin@) {
            Ok((name, bytes)) => r matches Ok((n, b)) && n@ == name && b@ == bytes,
            Err(e) => r matches Err(x) && view_bin_error(x) == e,
        },
{
    let container = match Chunky::read(bin) {
        Err(e) => {
            return Err(BinError::Read(e));
        },
        Ok(c) => c,
    };
    let mut registry = SchemaRegistry::new();
    registry.add_from_chunky(&container);
    proof {
        assert(Map::<u64, TypeDef>::empty().map_values(|t: TypeDef| t.spec_view()) =~= Map::<u64, SpecType>::empty());
        assert(registry.spec_types() == schema_types(container@.chunks));
    }
    let robj: &[u8] = match find_object_table(&container) {
        None => {
            return Err(BinError::NoObjectTable);
        },
        Some(d) => d,
    };
    let root_hash: u64 = match root_type_hash(robj) {
        Err(e) => {
            return Err(e);
        },
        Ok(h) => h,
    };
    let root_type: String = match registry.by_hash(root_hash) {
        None => {
            proof {
                assert(!registry.spec_types().contains_key(root_hash));
            }
            return Err(BinError::UnknownRootType(root_hash));
        },
        Some(t) => {
            proof {
                assert(registry.spec_types().contains_key(root_hash));
                assert(registry.spec_types()[root_hash] == t.spec_view());
            }
            t.name.clone()
        },
    };
    let schema: &Chunk = match find_schema(&container) {
        None => {
            return Err(BinError::NoSchema);
        },
        Some(s) => s,
    };
    let mut chunks: Vec<Chunk> = Vec::new();
    chunks.push(schema.clone());
    let minimal = Chunky { major: container.major, minor: container.minor, platform: container.platform, chunks };
    let mut buf: Vec<u8> = Vec::new();
    minimal.write(&mut buf);
    proof {
        lemma_view_chunks_map(minimal.chunks@);
        assert(minimal@.chunks =~= seq![schema@]);
        assert(buf@ =~= chunky_bytes(minimal@));
    }
    Ok((root_type, buf))
}

// ---------------------------------------------------------------------------
// Compiling with a schema library
// ---------------------------------------------------------------------------
/// Compiles a `.rdo` into a complete `.bin` with the bundled schema for the
/// `.rdo`'s root type (see `schema_for`; `library` holds the bundled
/// files), no reference `.bin` needed; then as `compile_bin_from_schema`.
pub fn compile_bin<F: Fn(&str) -> Option<u32>>(rdo_xml: &str, library: &[(String, Vec<u8>)], parse_float: F) -> (r: Result<
    Vec<u8>,
    BinError,
>)
    requires
        forall|s: &str| #[trigger] parse_float.requires((s,)),
    ensures
        forall|g: spec_fn(Seq<char>) -> Option<u32>|
            reads_floats_as(parse_float, g) ==> match #[trigger] spec_compile_rdo(rdo_xml@, g) {
                Err(_) => r matches Err(x) && view_bin_error(x) == SpecBinError::Compile(SpecCompileError::Xml),
                Ok(objs) => match first_root(objs) {
                    None => r matches Err(x) && view_bin_error(x) == SpecBinError::Compile(SpecCompileError::NoRoot),
                    Some(i) => if !bundled_key(spec_sanitize(objs[i].ty_name)) {
                        r matches Err(x) && view_bin_error(x) == SpecBinError::NoSchemaFor(objs[i].ty_name)
                    } else {
                        match resource_named(library@, spec_sanitize(objs[i].ty_name)) {
                            None => r matches Err(x) && view_bin_error(x) == SpecBinError::NoSchemaFor(objs[i].ty_name),
                            Some(k) => compiled_from_schema(parse_float, rdo_xml@, library@[k].1@, r),
                        }
                    },
                },
            },
{
    let root_type: String = match root_type_of(rdo_xml, &parse_float) {
        Err(e) => {
            return Err(BinError::Compile(e));
        },
        Ok(t) => t,
    };
    let schema: &[u8] = match schema_for(root_type.as_str(), library) {
        None => {
            return Err(BinError::NoSchemaFor(root_type));
        },
        Some(b) => b,
    };
    compile_bin_from_schema(rdo_xml, schema, parse_float)
}

} // verus!
