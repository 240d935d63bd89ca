//! Compiling an `.rdo` object graph against a reference container: the
//! reference keeps its schema and its invariant chunks, and only the object
//! data, the object table and (where the graph interns values) the interned
//! strings are rebuilt.
use vstd::prelude::*;

use crate::container::{view_chunk, view_chunks, Chunk, ChunkBody, Chunky, SpecBody, SpecChunk, SpecChunky};
use crate::rdo::{view_rdo_objects, RdoObject, SpecRdoObject};
use crate::rdo_parse::{parse_rdo_for_compile, reads_floats_as, spec_compile_rdo};
use crate::records::{object_table_bytes, ObjectRecord, ObjectTable};
use crate::reflect::tag;
use crate::reflect_compile::{
    build_records, build_rshi, lemma_view_chunks_map, object_records, place_all, rshi_bytes, spec_compile_graph,
    spec_place_all,
    view_compile_error, CompileError, SpecCompileError,
};
use crate::reflect_type::{SchemaRegistry, TypeDef};
use crate::reflect_write::{view_pairs, Placement};

verus! {

// ---------------------------------------------------------------------------
// Replacing the body of a data chunk
// ---------------------------------------------------------------------------
/// `c` with the body of its first data chunk named `name` (itself, or one
/// found depth first among its children) set to `data`; `None` if it holds
/// no such chunk.
pub open spec fn replaced_chunk(c: SpecChunk, name: Seq<u8>, data: Seq<u8>) -> Option<SpecChunk>
    decreases c, 0nat,
{
    match c.body {
        SpecBody::Data(_) => if c.name == name {
            Some(SpecChunk { body: SpecBody::Data(data), ..c })
        } else {
            None
        },
        SpecBody::Folder(children) => match replaced_chunks(children, name, data) {
            Some(n) => Some(SpecChunk { body: SpecBody::Folder(n), ..c }),
            None => None,
        },
    }
}

/// `cs` with the first data chunk named `name`, depth first in file order,
/// given the body `data`; `None` if there is none.
pub open spec fn replaced_chunks(cs: Seq<SpecChunk>, name: Seq<u8>, data: Seq<u8>) -> Option<Seq<SpecChunk>>
    decreases cs, 1nat,
{
    if cs.len() == 0 {
        None
    } else {
        match replaced_chunk(cs[0], name, data) {
            Some(c) => Some(cs.update(0, c)),
            None => match replaced_chunks(cs.subrange(1, cs.len() as int), name, data) {
                Some(rest) => Some(seq![cs[0]] + rest),
                None => None,
            },
        }
    }
}

/// Where the first `i` chunks hold no match, the replacement is made in the
/// first later chunk that holds one.
proof fn lemma_replaced_from(s: Seq<SpecChunk>, name: Seq<u8>, data: Seq<u8>, i: int)
    requires
        0 <= i <= s.len(),
        forall|j: int| 0 <= j < i ==> replaced_chunk(#[trigger] s[j], name, data) is None,
    ensures
        i < s.len() ==> (replaced_chunk(s[i], name, data) matches Some(c) ==> replaced_chunks(s, name, data) == Some(
            s.update(i, c),
        )),
        i == s.len() ==> replaced_chunks(s, name, data) is None,
    decreases s.len(),
{
    if s.len() > 0 && i > 0 {
        let t = s.subrange(1, s.len() as int);
        assert forall|j: int| 0 <= j < i - 1 implies replaced_chunk(#[trigger] t[j], name, data) is None by {
            assert(t[j] == s[j + 1]);
        }
        lemma_replaced_from(t, name, data, i - 1);
        assert(replaced_chunk(s[0], name, data) is None);
        if i < s.len() {
            assert(t[i - 1] == s[i]);
            if let Some(c) = replaced_chunk(s[i], name, data) {
                assert(seq![s[0]] + t.update(i - 1, c) =~= s.update(i, c));
            }
        }
    }
}

/// The chunk with its first data chunk named `name` given the body `data`.
fn replace_in_chunk(c: &Chunk, name: &[u8; 4], data: &Vec<u8>) -> (r: Option<Chunk>)
    ensures
        match replaced_chunk(c@, name@, data@) {
            Some(x) => r matches Some(y) && y@ == x,
            None => r is None,
        },
    decreases c,
{
    match &c.body {
        ChunkBody::Data(_) => {
            if c.name[0] == name[0] && c.name[1] == name[1] && c.name[2] == name[2] && c.name[3] == name[3] {
                proof {
                    assert(c.name@ =~= name@);
                }
                Some(Chunk { kind: c.kind, name: c.name, version: c.version, path: c.path.clone(), body: ChunkBody::Data(data.clone()) })
            } else {
                proof {
                    if c.name@ == name@ {
                        assert(c.name@[0] == name@[0] && c.name@[1] == name@[1] && c.name@[2] == name@[2]
                            && c.name@[3] == name@[3]);
                    }
                }
                None
            }
        },
        ChunkBody::Folder(children) => {
            proof {
                assert(decreases_to!(*c => c.body));
                assert(decreases_to!(c.body => c.body->Folder_0));
            }
            match replace_in_chunks(children, name, data) {
                Some(n) => Some(Chunk { kind: c.kind, name: c.name, version: c.version, path: c.path.clone(), body: ChunkBody::Folder(n) }),
                None => None,
            }
        },
    }
}

/// The chunks with the first data chunk named `name`, depth first in file
/// order, given the body `data`.
fn replace_in_chunks(cs: &Vec<Chunk>, name: &[u8; 4], data: &Vec<u8>) -> (r: Option<Vec<Chunk>>)
    ensures
        match replaced_chunks(view_chunks(cs@), name@, data@) {
            Some(x) => r matches Some(y) && view_chunks(y@) == x,
            None => r is None,
        },
    decreases cs,
{
    let ghost v = view_chunks(cs@);
    proof {
        lemma_view_chunks_map(cs@);
    }
    let mut i: usize = 0;
    while i < cs.len()
        invariant
            i <= cs@.len(),
            v == view_chunks(cs@),
            v == cs@.map_values(|c: Chunk| view_chunk(c)),
            forall|j: int| 0 <= j < i ==> replaced_chunk(#[trigger] v[j], name@, data@) is None,
        decreases cs.len() - i,
    {
        proof {
            assert(decreases_to!(*cs => cs@));
            assert(decreases_to!(cs@ => cs@[i as int]));
        }
        match replace_in_chunk(&cs[i], name, data) {
            Some(c) => {
                let mut out: Vec<Chunk> = Vec::new();
                let mut k: usize = 0;
                while k < cs.len()
                    invariant
                        k <= cs@.len(),
                        i < cs@.len(),
                        out@.len() == k,
                        forall|j: int|
                            0 <= j < k ==> view_chunk(#[trigger] out@[j]) == (if j == i {
                                view_chunk(c)
                            } else {
                                view_chunk(cs@[j])
                            }),
                    decreases cs.len() - k,
                {
                    if k == i {
                        out.push(c.clone());
                    } else {
                        out.push(cs[k].clone());
                    }
                    k += 1;
                }
                proof {
                    assert(v[i as int] == view_chunk(cs@[i as int]));
                    lemma_replaced_from(v, name@, data@, i as int);
                    lemma_view_chunks_map(out@);
                    assert(view_chunks(out@) =~= v.update(i as int, view_chunk(c)));
                }
                return Some(out);
            },
            None => {},
        }
        i += 1;
    }
    proof {
        lemma_replaced_from(v, name@, data@, i as int);
    }
    None
}

// ---------------------------------------------------------------------------
// Compiling against a reference
// ---------------------------------------------------------------------------
/// The reference with its object data (`RFCI`) and object table (`ROBJ`)
/// rebuilt and, where the graph interns any values, its interned strings
/// (`RSHI`); a reference without `RFCI` or `ROBJ` is refused.
#[verifier::opaque]
pub open spec fn spec_compile_reference(objects: Seq<SpecRdoObject>, types: Map<u64, TypeDef>, reference: SpecChunky) -> Result<
    SpecChunky,
    SpecCompileError,
> {
    match spec_place_all(objects, types) {
        Err(e) => Err(e),
        Ok((st, _)) => match object_records(objects, types, st.order) {
            Err(e) => Err(e),
            Ok(rs) => match replaced_chunks(reference.chunks, tag(0x52, 0x46, 0x43, 0x49), st.blob) {
                None => Err(SpecCompileError::MissingChunk(tag(0x52, 0x46, 0x43, 0x49))),
                Some(c1) => match replaced_chunks(c1, tag(0x52, 0x4f, 0x42, 0x4a), object_table_bytes(rs)) {
                    None => Err(SpecCompileError::MissingChunk(tag(0x52, 0x4f, 0x42, 0x4a))),
                    Some(c2) => Ok(
                        SpecChunky {
                            chunks: if st.rshi.len() == 0 {
                                c2
                            } else {
                                match replaced_chunks(c2, tag(0x52, 0x53, 0x48, 0x49), rshi_bytes(st.rshi)) {
                                    Some(c3) => c3,
                                    None => c2,
                                }
                            },
                            ..reference
                        },
                    ),
                },
            },
        },
    }
}

fn compile_objects(objects: &Vec<RdoObject>, registry: &SchemaRegistry, reference: &Chunky) -> (r: Result<Chunky, CompileError>)
    ensures
        match spec_compile_reference(view_rdo_objects(objects@), registry.types@, reference@) {
            Ok(c) => r matches Ok(x) && x@ == c,
            Err(e) => r matches Err(x) && view_compile_error(x) == e,
        },
{
    reveal(spec_compile_reference);
    let (st, _root) = match place_all(objects, registry) {
        Err(e) => {
            return Err(e);
        },
        Ok(p) => p,
    };
    let records: Vec<ObjectRecord> = match build_records(objects, registry, &st.order) {
        Err(e) => {
            return Err(e);
        },
        Ok(rs) => rs,
    };
    let table = ObjectTable { records };
    let robj: Vec<u8> = table.write();
    let interns: bool = st.rshi.len() > 0;
    let rshi: Vec<u8> = build_rshi(&st.rshi);
    proof {
        assert(view_pairs(st.rshi@).len() == st.rshi@.len());
    }
    let rfci_name: [u8; 4] = [0x52, 0x46, 0x43, 0x49];
    let robj_name: [u8; 4] = [0x52, 0x4f, 0x42, 0x4a];
    let rshi_name: [u8; 4] = [0x52, 0x53, 0x48, 0x49];
    proof {
        assert(rfci_name@ =~= tag(0x52, 0x46, 0x43, 0x49));
        assert(robj_name@ =~= tag(0x52, 0x4f, 0x42, 0x4a));
        assert(rshi_name@ =~= tag(0x52, 0x53, 0x48, 0x49));
    }
    let c1: Vec<Chunk> = match replace_in_chunks(&reference.chunks, &rfci_name, &st.blob) {
        None => {
            return Err(CompileError::MissingChunk(rfci_name));
        },
        Some(c) => c,
    };
    let c2: Vec<Chunk> = match replace_in_chunks(&c1, &robj_name, &robj) {
        None => {
            return Err(CompileError::MissingChunk(robj_name));
        },
        Some(c) => c,
    };
    let chunks: Vec<Chunk> = if interns {
        match replace_in_chunks(&c2, &rshi_name, &rshi) {
            Some(c3) => c3,
            None => c2,
        }
    } else {
        c2
    };
    Ok(Chunky { major: reference.major, minor: reference.minor, platform: reference.platform, chunks })
}

/// Compiles `.rdo` text against a reference container (see
/// `spec_compile_reference`); `parse_float` reads the text of a `Float`
/// value as the bits of an `f32`.
pub fn compile_reflect<F: Fn(&str) -> Option<u32>>(
    rdo_xml: &str,
    registry: &SchemaRegistry,
    reference: &Chunky,
    parse_float: F,
) -> (r: Result<Chunky, CompileError>)
    requires
        forall|s: &str| #[trigger] parse_float.requires((s,)),
    ensures
        forall|g: spec_fn(Seq<char>) -> Option<u32>|
            reads_floats_as(parse_float, g) ==> match #[trigger] spec_compile_rdo(rdo_xml@, g) {
                Err(_) => r matches Err(x) && view_compile_error(x) == SpecCompileError::Xml,
                Ok(objs) => match spec_compile_reference(objs, registry.types@, reference@) {
                    Ok(c) => r matches Ok(x) && x@ == c,
                    Err(e) => r matches Err(x) && view_compile_error(x) == e,
                },
            },
{
    match parse_rdo_for_compile(rdo_xml, parse_float) {
        Err(_) => Err(CompileError::Xml),
        Ok(graph) => compile_objects(&graph.objects, registry, reference),
    }
}

// ---------------------------------------------------------------------------
// Laws
// ---------------------------------------------------------------------------
/// A chunk whose data chunk of that name already has the body comes back
/// unchanged.
proof fn lemma_replace_same(cs: Seq<SpecChunk>, name: Seq<u8>, i: int)
    requires
        0 <= i < cs.len(),
        forall|j: int| 0 <= j < i ==> replaced_chunk(#[trigger] cs[j], name, cs[i].body->Data_0) is None,
        cs[i].name == name,
        cs[i].body is Data,
    ensures
        replaced_chunks(cs, name, cs[i].body->Data_0) == Some(cs),
{
    let d = cs[i].body->Data_0;
    lemma_replaced_from(cs, name, d, i);
    assert(replaced_chunk(cs[i], name, d) == Some(cs[i]));
    assert(cs.update(i, cs[i]) =~= cs);
}

/// Compiling a graph against the container that the same graph compiles
/// into gives that container back, when the schema chunk holds no data
/// chunk named `ROBJ`.
pub proof fn law_recompile_unchanged(objects: Seq<SpecRdoObject>, types: Map<u64, TypeDef>, schema: SpecChunk)
    requires
        spec_compile_graph(objects, types, schema) is Ok,
        forall|d: Seq<u8>| #[trigger] replaced_chunk(schema, tag(0x52, 0x4f, 0x42, 0x4a), d) is None,
    ensures
        spec_compile_reference(objects, types, spec_compile_graph(objects, types, schema)->Ok_0) == spec_compile_graph(
            objects,
            types,
            schema,
        ),
{
    reveal(spec_compile_reference);
    let reference = spec_compile_graph(objects, types, schema)->Ok_0;
    let cs = reference.chunks;
    let (st, root) = spec_place_all(objects, types)->Ok_0;
    let rs = object_records(objects, types, st.order)->Ok_0;
    assert(cs.len() == 7);
    assert(cs[0].body->Data_0 == st.blob);
    lemma_replace_same(cs, tag(0x52, 0x46, 0x43, 0x49), 0);
    assert(cs[5].body->Data_0 == object_table_bytes(rs));
    assert forall|j: int| 0 <= j < 5 implies replaced_chunk(#[trigger] cs[j], tag(0x52, 0x4f, 0x42, 0x4a), cs[5].body->Data_0) is None by {
        if j < 4 {
            assert(cs[j].body is Data);
            assert(cs[j].name[1] != tag(0x52, 0x4f, 0x42, 0x4a)[1] || cs[j].name[2] != tag(0x52, 0x4f, 0x42, 0x4a)[2]);
        }
    }
    lemma_replace_same(cs, tag(0x52, 0x4f, 0x42, 0x4a), 5);
    if st.rshi.len() > 0 {
        assert(cs[3].body->Data_0 == rshi_bytes(st.rshi));
        assert forall|j: int| 0 <= j < 3 implies replaced_chunk(#[trigger] cs[j], tag(0x52, 0x53, 0x48, 0x49), cs[3].body->Data_0) is None by {
            assert(cs[j].body is Data);
            assert(cs[j].name[1] != tag(0x52, 0x53, 0x48, 0x49)[1] || cs[j].name[2] != tag(0x52, 0x53, 0x48, 0x49)[2]);
        }
        lemma_replace_same(cs, tag(0x52, 0x53, 0x48, 0x49), 3);
    }
    assert(spec_compile_reference(objects, types, reference) == Ok::<SpecChunky, SpecCompileError>(reference));
}

} // verus!
