//! Compiling an `.rdo` object graph into a reflection container: the laid
//! out blob (`RFCI`), the object table (`ROBJ`), the relocation table
//! (`RFUP`), the allocation table (`RNEW`) and the interned strings (`RSHI`).
use vstd::prelude::*;

use std::collections::HashMap;

use vstd::string::{StrSliceExecFns, StringExecFns};

use crate::container::{view_chunk, view_chunks, Chunk, ChunkBody, ChunkKind, Chunky, SpecBody, SpecChunk, SpecChunky};
use crate::le::{bytes32, bytes64, push_u32, push_u64};
use crate::rdo::{view_rdo_objects, RdoGraph, RdoObject, SpecRdoObject};
use crate::rdo_parse::{parse_rdo_for_compile, reads_floats_as, spec_compile_rdo};
use crate::records::{
    object_table_bytes, hashed_list_bytes, HashedString, InternedStringTable, ObjectRecord, ObjectTable,
};
use crate::reflect_drain::settled;
use crate::reflect_type::{FieldKind, SchemaRegistry, SpecType, TypeDef};
use crate::reflect_write::{
    index_of, indexes_ids, kind_in, reg_kind, spec_place, type_named, type_of, view_pairs, wf_placement, Ctx, PlaceError,
    Placement, PointerRecord, SpecCtx, SpecPlacement, BLOB_LIMIT, RFCI_FILE_OFFSET, RFCI_PREFIX,
};
use crate::reflect::tag;
use crate::rgd_write::{data_chunk, data_chunk_spec, insert_stable, lemma_insert_at, sort_stable};

verus! {

/// Why a graph could not be compiled.
#[derive(Debug, Clone, PartialEq, Eq)]
pub enum CompileError {
    /// The `.rdo` text is no readable XML.
    Xml,
    /// No object has owner id 0.
    NoRoot,
    /// A placed object's type is not in the registry.
    UnknownType(String),
    /// The objects could not be laid out.
    Place(PlaceError),
    /// The reference container lacks a chunk that is rebuilt; its name.
    MissingChunk([u8; 4]),
}

pub enum SpecCompileError {
    Xml,
    NoRoot,
    UnknownType(Seq<char>),
    Place(PlaceError),
    MissingChunk(Seq<u8>),
}

pub open spec fn view_compile_error(e: CompileError) -> SpecCompileError {
    match e {
        CompileError::Xml => SpecCompileError::Xml,
        CompileError::NoRoot => SpecCompileError::NoRoot,
        CompileError::UnknownType(s) => SpecCompileError::UnknownType(s@),
        CompileError::Place(p) => SpecCompileError::Place(p),
        CompileError::MissingChunk(n) => SpecCompileError::MissingChunk(n@),
    }
}

/// The version stamped on the reflection chunks.
pub const REFLECT_CHUNK_VERSION: u32 = 4131415;

// ---------------------------------------------------------------------------
// The placement of a whole graph
// ---------------------------------------------------------------------------
/// The index of the first object with no owner.
pub open spec fn first_root(objects: Seq<SpecRdoObject>) -> Option<int>
    decreases objects.len(),
{
    if objects.len() == 0 {
        None
    } else {
        match first_root(objects.drop_last()) {
            Some(i) => Some(i),
            None => if objects.last().owner_id == 0 {
                Some(objects.len() - 1)
            } else {
                None
            },
        }
    }
}

pub open spec fn is_reified_kind(k: FieldKind) -> bool {
    k == FieldKind::Str || k == FieldKind::Array || k == FieldKind::PointerArray
}

/// Whether any object is a string or an array of its own.
pub open spec fn has_reified(objects: Seq<SpecRdoObject>, types: Map<u64, TypeDef>) -> bool {
    exists|i: int| 0 <= i < objects.len() && is_reified_kind(reg_kind(types, #[trigger] objects[i].ty_name))
}

pub open spec fn compile_ctx(objects: Seq<SpecRdoObject>, types: Map<u64, TypeDef>) -> SpecCtx {
    SpecCtx { objects, types, reified: has_reified(objects, types), align_fuel: types.len() }
}

/// The blob before anything is placed: the reserved word, the cursor past
/// the root's footprint.
pub open spec fn start_placement(root_size: int) -> SpecPlacement {
    SpecPlacement {
        blob: seq![0u8, 0u8, 0u8, 0u8],
        next: RFCI_PREFIX + root_size,
        order: Seq::empty(),
        rshi: Seq::empty(),
        pointers: Seq::empty(),
    }
}

/// The graph laid out from object `root`, whose footprint is `size` bytes,
/// after the reserved word; a chain of nested objects longer than there are
/// objects (a cycle) is refused.
#[verifier::opaque]
pub open spec fn placed_graph(objects: Seq<SpecRdoObject>, types: Map<u64, TypeDef>, root: int, size: int) -> Result<
    SpecPlacement,
    PlaceError,
> {
    spec_place(compile_ctx(objects, types), start_placement(size), root, RFCI_PREFIX as int, objects.len())
}

/// The whole graph laid out from its root, after the reserved word; with
/// the root's index.
pub open spec fn spec_place_all(objects: Seq<SpecRdoObject>, types: Map<u64, TypeDef>) -> Result<
    (SpecPlacement, int),
    SpecCompileError,
> {
    match first_root(objects) {
        None => Err(SpecCompileError::NoRoot),
        Some(root) => match type_named(types, objects[root].ty_name) {
            None => Err(SpecCompileError::UnknownType(objects[root].ty_name)),
            Some(rt) => if RFCI_PREFIX + rt.size > BLOB_LIMIT {
                Err(SpecCompileError::Place(PlaceError::TooLarge))
            } else {
                match placed_graph(objects, types, root, rt.size as int) {
                    Err(e) => Err(SpecCompileError::Place(e)),
                    Ok(st) => Ok((st, root)),
                }
            },
        },
    }
}

fn find_root(objects: &Vec<RdoObject>) -> (r: Option<usize>)
    ensures
        match first_root(view_rdo_objects(objects@)) {
            Some(i) => r matches Some(x) && x as int == i && i < objects@.len(),
            None => r is None,
        },
{
    let ghost v = view_rdo_objects(objects@);
    let mut i: usize = 0;
    proof {
        assert(v.subrange(0, 0) =~= Seq::<SpecRdoObject>::empty());
    }
    while i < objects.len()
        invariant
            i <= objects@.len(),
            v == view_rdo_objects(objects@),
            first_root(v.subrange(0, i as int)) is None,
        decreases objects.len() - i,
    {
        proof {
            let t = v.subrange(0, i + 1);
            assert(t.drop_last() =~= v.subrange(0, i as int));
            assert(t.last() == v[i as int]);
        }
        if objects[i].owner_id == 0 {
            proof {
                lemma_first_root_prefix(v, i as int + 1, i as int);
            }
            return Some(i);
        }
        i += 1;
    }
    proof {
        assert(v.subrange(0, i as int) =~= v);
    }
    None
}

proof fn lemma_first_root_prefix(v: Seq<SpecRdoObject>, j: int, k: int)
    requires
        0 < j <= v.len(),
        first_root(v.subrange(0, j)) == Some(k),
    ensures
        first_root(v) == Some(k),
    decreases v.len() - j,
{
    if j < v.len() {
        let t = v.subrange(0, j + 1);
        assert(t.drop_last() =~= v.subrange(0, j));
        assert(first_root(t) == Some(k));
        lemma_first_root_prefix(v, j + 1, k);
    } else {
        assert(v.subrange(0, j) =~= v);
    }
}

fn any_reified(objects: &Vec<RdoObject>, reg: &SchemaRegistry) -> (r: bool)
    ensures
        r == has_reified(view_rdo_objects(objects@), reg.types@),
{
    let ghost v = view_rdo_objects(objects@);
    let mut i: usize = 0;
    while i < objects.len()
        invariant
            i <= objects@.len(),
            v == view_rdo_objects(objects@),
            forall|j: int| 0 <= j < i ==> !is_reified_kind(reg_kind(reg.types@, #[trigger] v[j].ty_name)),
        decreases objects.len() - i,
    {
        proof {
            assert(v[i as int].ty_name == objects@[i as int].ty_name@);
        }
        match kind_in(reg, objects[i].ty_name.as_str()) {
            FieldKind::Str | FieldKind::Array | FieldKind::PointerArray => {
                return true;
            },
            _ => {},
        }
        i += 1;
    }
    false
}

/// Each id's last object index.
fn id_index(objects: &Vec<RdoObject>) -> (by_id: HashMap<u64, usize>)
    ensures
        indexes_ids(by_id@, view_rdo_objects(objects@)),
{
    broadcast use vstd::std_specs::hash::group_hash_axioms;

    let ghost v = view_rdo_objects(objects@);
    let mut map: HashMap<u64, usize> = HashMap::new();
    let mut i: usize = 0;
    proof {
        assert(v.subrange(0, 0) =~= Seq::<SpecRdoObject>::empty());
        reveal(index_of);
    }
    while i < objects.len()
        invariant
            i <= objects@.len(),
            v == view_rdo_objects(objects@),
            indexes_ids(map@, v.subrange(0, i as int)),
        decreases objects.len() - i,
    {
        let ghost before = map@;
        map.insert(objects[i].id, i);
        proof {
            let t = v.subrange(0, i + 1);
            assert(t.drop_last() =~= v.subrange(0, i as int));
            assert(t.last() == v[i as int]);
            reveal(index_of);
            assert forall|id: u64| #![trigger map@.contains_key(id)]
                match index_of(t, id) {
                    Some(j) => map@.contains_key(id) && map@[id] as int == j,
                    None => !map@.contains_key(id),
                } by {
                if id == objects@[i as int].id {
                    assert(index_of(t, id) == Some(i as int));
                } else {
                    assert(index_of(t, id) == index_of(v.subrange(0, i as int), id));
                }
            }
        }
        i += 1;
    }
    proof {
        assert(v.subrange(0, i as int) =~= v);
    }
    map
}

/// Lays the whole graph out from its root.
pub(crate) fn place_all(objects: &Vec<RdoObject>, reg: &SchemaRegistry) -> (r: Result<(Placement, usize), CompileError>)
    ensures
        match spec_place_all(view_rdo_objects(objects@), reg.types@) {
            Ok((st, root)) => r matches Ok((p, x)) && p@ == st && x as int == root,
            Err(e) => r matches Err(x) && view_compile_error(x) == e,
        },
{
    broadcast use vstd::std_specs::hash::group_hash_axioms;
    broadcast use vstd::std_specs::btree::group_btree_axioms;

    proof {
        crate::reflect_type::lemma_u64_keys();
    }
    let ghost v = view_rdo_objects(objects@);
    let root: usize = match find_root(objects) {
        None => {
            return Err(CompileError::NoRoot);
        },
        Some(i) => i,
    };
    proof {
        assert(v[root as int].ty_name == objects@[root as int].ty_name@);
    }
    let rt: &TypeDef = match type_of(reg, objects[root].ty_name.as_str()) {
        None => {
            return Err(CompileError::UnknownType(objects[root].ty_name.clone()));
        },
        Some(t) => t,
    };
    if rt.size > BLOB_LIMIT - RFCI_PREFIX {
        return Err(CompileError::Place(PlaceError::TooLarge));
    }
    match place_from(objects, reg, root, rt.size) {
        Err(e) => Err(CompileError::Place(e)),
        Ok(st) => Ok((st, root)),
    }
}

fn make_ctx<'a>(objects: &'a Vec<RdoObject>, reg: &'a SchemaRegistry) -> (ctx: Ctx<'a>)
    ensures
        ctx.spec_ctx() == compile_ctx(view_rdo_objects(objects@), reg.types@),
        ctx.wf(),
        ctx.objects@ == objects@,
{
    broadcast use vstd::std_specs::btree::group_btree_axioms;

    proof {
        crate::reflect_type::lemma_u64_keys();
    }
    let by_id: HashMap<u64, usize> = id_index(objects);
    let reified: bool = any_reified(objects, reg);
    let fuel: usize = reg.types.len();
    Ctx { objects, by_id, registry: reg, reified, align_fuel: fuel }
}

/// A placement with the reserved word written and room kept for a root of
/// `size` bytes.
fn new_placement(size: u32) -> (st: Placement)
    requires
        size <= BLOB_LIMIT - RFCI_PREFIX,
    ensures
        st@ == start_placement(size as int),
        wf_placement(st@),
{
    let mut blob: Vec<u8> = Vec::new();
    blob.push(0);
    blob.push(0);
    blob.push(0);
    blob.push(0);
    let st = Placement { blob, next: RFCI_PREFIX + size, order: Vec::new(), rshi: Vec::new(), pointers: Vec::new() };
    proof {
        assert(st@.blob =~= seq![0u8, 0u8, 0u8, 0u8]);
        assert(view_pairs(st.rshi@) =~= Seq::<(u64, Seq<char>)>::empty());
        assert(st@ =~= start_placement(size as int));
    }
    st
}

#[verifier::spinoff_prover]
fn place_from(objects: &Vec<RdoObject>, reg: &SchemaRegistry, root: usize, size: u32) -> (r: Result<Placement, PlaceError>)
    requires
        root < objects@.len(),
        size <= BLOB_LIMIT - RFCI_PREFIX,
    ensures
        match placed_graph(view_rdo_objects(objects@), reg.types@, root as int, size as int) {
            Ok(s) => r matches Ok(p) && p@ == s,
            Err(e) => r matches Err(x) && x == e,
        },
{
    broadcast use vstd::std_specs::btree::group_btree_axioms;

    proof {
        crate::reflect_type::lemma_u64_keys();
    }
    let ctx = make_ctx(objects, reg);
    let mut st = new_placement(size);
    let ghost goal = spec_place(ctx.spec_ctx(), st@, root as int, RFCI_PREFIX as int, objects@.len());
    let placed = st.place(&ctx, root, RFCI_PREFIX as u64, objects.len());
    proof {
        assert(settled(placed, goal, st@));
        reveal(placed_graph);
        assert(placed_graph(view_rdo_objects(objects@), reg.types@, root as int, size as int) == goal);
    }
    match placed {
        Err(e) => Err(e),
        Ok(()) => Ok(st),
    }
}


// ---------------------------------------------------------------------------
// The tables
// ---------------------------------------------------------------------------
/// The object table record of a placed object: its id, its type's hash and
/// trailer, the file offset of its data, its owner. An entry that names no
/// object (placement records none) is an unknown type with no name.
pub open spec fn record_for(objects: Seq<SpecRdoObject>, types: Map<u64, TypeDef>, e: (usize, u32)) -> Result<
    ObjectRecord,
    SpecCompileError,
> {
    if e.0 as int >= objects.len() {
        Err(SpecCompileError::UnknownType(Seq::empty()))
    } else {
        let o = objects[e.0 as int];
        match type_named(types, o.ty_name) {
            None => Err(SpecCompileError::UnknownType(o.ty_name)),
            Some(t) => Ok(
                ObjectRecord {
                    id: o.id,
                    type_hash: t.hash,
                    data_offset: (RFCI_FILE_OFFSET + e.1) as u32,
                    owner_id: o.owner_id,
                    trailer: t.trailer,
                },
            ),
        }
    }
}

/// The records of the placed objects, in the order they were placed.
pub open spec fn object_records(objects: Seq<SpecRdoObject>, types: Map<u64, TypeDef>, order: Seq<(usize, u32)>) -> Result<
    Seq<ObjectRecord>,
    SpecCompileError,
>
    decreases order.len(),
{
    if order.len() == 0 {
        Ok(Seq::empty())
    } else {
        match object_records(objects, types, order.drop_last()) {
            Err(e) => Err(e),
            Ok(rs) => match record_for(objects, types, order.last()) {
                Err(e) => Err(e),
                Ok(r) => Ok(rs.push(r)),
            },
        }
    }
}

/// The interned strings table: count, reserved word, records.
pub open spec fn rshi_bytes(v: Seq<(u64, Seq<char>)>) -> Seq<u8> {
    bytes32(v.len() as int) + bytes32(0) + hashed_list_bytes(v)
}

pub open spec fn int_order() -> spec_fn(int, int) -> bool {
    |a: int, b: int| a <= b
}

pub open spec fn u64_list(v: Seq<int>) -> Seq<u8>
    decreases v.len(),
{
    if v.len() == 0 {
        Seq::empty()
    } else {
        u64_list(v.drop_last()) + bytes64(v.last())
    }
}

/// The relocation table: the count, then the file offset of every pointer,
/// ascending.
pub open spec fn rfup_bytes(ps: Seq<PointerRecord>) -> Seq<u8> {
    bytes64(ps.len() as int) + u64_list(
        sort_stable(ps.map_values(|p: PointerRecord| p.file_off as int), int_order()),
    )
}

pub open spec fn id_at(objects: Seq<SpecRdoObject>, i: int) -> Option<u64> {
    if 0 <= i < objects.len() {
        Some(objects[i].id)
    } else {
        None
    }
}

/// Each pointed-at object once, by id, first pointer first: its index and
/// the file offset of its data.
pub open spec fn rnew_entries(objects: Seq<SpecRdoObject>, ps: Seq<PointerRecord>) -> Seq<(int, int)>
    decreases ps.len(),
{
    if ps.len() == 0 {
        Seq::empty()
    } else {
        let es = rnew_entries(objects, ps.drop_last());
        let p = ps.last();
        if exists|k: int| 0 <= k < es.len() && id_at(objects, #[trigger] es[k].0) == id_at(objects, p.target as int) {
            es
        } else {
            es.push((p.target as int, RFCI_FILE_OFFSET + p.target_off))
        }
    }
}

/// One allocation record: id, type hash, data offset, trailer, and whether
/// it is the root.
pub open spec fn rnew_record(objects: Seq<SpecRdoObject>, types: Map<u64, TypeDef>, e: (int, int)) -> Result<
    Seq<u8>,
    SpecCompileError,
> {
    if !(0 <= e.0 < objects.len()) {
        Err(SpecCompileError::UnknownType(Seq::empty()))
    } else {
        let o = objects[e.0];
        match type_named(types, o.ty_name) {
            None => Err(SpecCompileError::UnknownType(o.ty_name)),
            Some(t) => Ok(
                bytes64(o.id as int) + bytes64(t.hash as int) + bytes64(e.1) + bytes32(t.trailer as int) + seq![
                    if o.owner_id == 0 {
                        1u8
                    } else {
                        0u8
                    },
                ],
            ),
        }
    }
}

pub open spec fn rnew_list(objects: Seq<SpecRdoObject>, types: Map<u64, TypeDef>, es: Seq<(int, int)>) -> Result<
    Seq<u8>,
    SpecCompileError,
>
    decreases es.len(),
{
    if es.len() == 0 {
        Ok(Seq::empty())
    } else {
        match rnew_list(objects, types, es.drop_last()) {
            Err(e) => Err(e),
            Ok(b) => match rnew_record(objects, types, es.last()) {
                Err(e) => Err(e),
                Ok(r) => Ok(b + r),
            },
        }
    }
}

/// The allocation table: every pointed-at object, then the root.
pub open spec fn rnew_bytes(objects: Seq<SpecRdoObject>, types: Map<u64, TypeDef>, ps: Seq<PointerRecord>, root: int) -> Result<
    Seq<u8>,
    SpecCompileError,
> {
    let es = rnew_entries(objects, ps).push((root, RFCI_FILE_OFFSET + RFCI_PREFIX));
    match rnew_list(objects, types, es) {
        Err(e) => Err(e),
        Ok(b) => Ok(bytes64(es.len() as int) + b),
    }
}

pub open spec fn reflect_chunk(name: Seq<u8>, body: Seq<u8>) -> SpecChunk {
    data_chunk_spec(name, REFLECT_CHUNK_VERSION, body)
}

/// The complete container of a graph: every chunk built from the graph,
/// the schema chunk spliced in.
pub open spec fn spec_compile_graph(objects: Seq<SpecRdoObject>, types: Map<u64, TypeDef>, schema: SpecChunk) -> Result<
    SpecChunky,
    SpecCompileError,
> {
    match spec_place_all(objects, types) {
        Err(e) => Err(e),
        Ok((st, root)) => match object_records(objects, types, st.order) {
            Err(e) => Err(e),
            Ok(rs) => match rnew_bytes(objects, types, st.pointers, root) {
                Err(e) => Err(e),
                Ok(rnew) => Ok(
                    reflect_chunks(st.blob, rfup_bytes(st.pointers), rnew, rshi_bytes(st.rshi), schema, object_table_bytes(rs)),
                ),
            },
        },
    }
}

pub(crate) fn build_records(objects: &Vec<RdoObject>, reg: &SchemaRegistry, order: &Vec<(usize, u32)>) -> (r: Result<
    Vec<ObjectRecord>,
    CompileError,
>)
    ensures
        match object_records(view_rdo_objects(objects@), reg.types@, order@) {
            Ok(rs) => r matches Ok(x) && x@ == rs,
            Err(e) => r matches Err(x) && view_compile_error(x) == e,
        },
{
    let ghost v = view_rdo_objects(objects@);
    let mut out: Vec<ObjectRecord> = Vec::new();
    let mut i: usize = 0;
    proof {
        assert(order@.subrange(0, 0) =~= Seq::<(usize, u32)>::empty());
    }
    while i < order.len()
        invariant
            i <= order@.len(),
            v == view_rdo_objects(objects@),
            object_records(v, reg.types@, order@.subrange(0, i as int)) == Ok::<Seq<ObjectRecord>, SpecCompileError>(out@),
        decreases order.len() - i,
    {
        let (idx, off) = order[i];
        proof {
            let t = order@.subrange(0, i + 1);
            assert(t.drop_last() =~= order@.subrange(0, i as int));
            assert(t.last() == (idx, off));
        }
        if idx >= objects.len() {
            proof {
                lemma_records_err(v, reg.types@, order@, i as int + 1);
            }
            return Err(CompileError::UnknownType(String::new()));
        }
        let o: &RdoObject = &objects[idx];
        proof {
            assert(v[idx as int] == crate::rdo::view_rdo_object(*o));
        }
        match type_of(reg, o.ty_name.as_str()) {
            None => {
                proof {
                    lemma_records_err(v, reg.types@, order@, i as int + 1);
                }
                return Err(CompileError::UnknownType(o.ty_name.clone()));
            },
            Some(t) => {
                out.push(
                    ObjectRecord {
                        id: o.id,
                        type_hash: t.hash,
                        data_offset: #[verifier::truncate] ((RFCI_FILE_OFFSET as u64 + off as u64) as u32),
                        owner_id: o.owner_id,
                        trailer: t.trailer,
                    },
                );
            },
        }
        i += 1;
    }
    proof {
        assert(order@.subrange(0, i as int) =~= order@);
    }
    Ok(out)
}

proof fn lemma_records_err(v: Seq<SpecRdoObject>, types: Map<u64, TypeDef>, order: Seq<(usize, u32)>, j: int)
    requires
        0 <= j <= order.len(),
        object_records(v, types, order.subrange(0, j)) is Err,
    ensures
        object_records(v, types, order) == object_records(v, types, order.subrange(0, j)),
    decreases order.len() - j,
{
    if j < order.len() {
        assert(order.subrange(0, j + 1).drop_last() =~= order.subrange(0, j));
        lemma_records_err(v, types, order, j + 1);
    } else {
        assert(order.subrange(0, j) =~= order);
    }
}

pub(crate) fn build_rshi(rshi: &Vec<(u64, String)>) -> (r: Vec<u8>)
    ensures
        r@ == rshi_bytes(view_pairs(rshi@)),
{
    let mut strings: Vec<HashedString> = Vec::new();
    let mut i: usize = 0;
    while i < rshi.len()
        invariant
            i <= rshi@.len(),
            crate::records::view_hashed(strings@) == view_pairs(rshi@.subrange(0, i as int)),
        decreases rshi.len() - i,
    {
        let value: String = rshi[i].1.clone();
        proof {
            assert(value@ == rshi@[i as int].1@);
        }
        let ghost before = strings@;
        strings.push(HashedString { hash: rshi[i].0, value });
        proof {
            assert(strings@ == before.push(HashedString { hash: rshi@[i as int].0, value }));
            assert(crate::records::view_hashed(strings@) =~= crate::records::view_hashed(before).push(
                (rshi@[i as int].0, rshi@[i as int].1@),
            ));
            assert(view_pairs(rshi@.subrange(0, i + 1)) =~= view_pairs(rshi@.subrange(0, i as int)).push(
                (rshi@[i as int].0, rshi@[i as int].1@),
            ));
            assert(crate::records::view_hashed(strings@) =~= view_pairs(rshi@.subrange(0, i + 1)));
        }
        i += 1;
    }
    proof {
        assert(rshi@.subrange(0, i as int) =~= rshi@);
    }
    let table = InternedStringTable { strings };
    table.write()
}

fn build_rfup(ps: &Vec<PointerRecord>) -> (r: Vec<u8>)
    ensures
        r@ == rfup_bytes(ps@),
{
    let ghost offs = ps@.map_values(|p: PointerRecord| p.file_off as int);
    let mut sorted: Vec<u32> = Vec::new();
    let mut i: usize = 0;
    proof {
        assert(offs.subrange(0, 0) =~= Seq::<int>::empty());
        assert(sorted@.map_values(|x: u32| x as int) =~= Seq::<int>::empty());
    }
    while i < ps.len()
        invariant
            i <= ps@.len(),
            offs == ps@.map_values(|p: PointerRecord| p.file_off as int),
            sorted@.map_values(|x: u32| x as int) == sort_stable(offs.subrange(0, i as int), int_order()),
        decreases ps.len() - i,
    {
        let x: u32 = ps[i].file_off;
        let ghost before = sorted@.map_values(|y: u32| y as int);
        let mut p: usize = sorted.len();
        while p > 0 && sorted[p - 1] > x
            invariant
                sorted@.map_values(|y: u32| y as int) == before,
                p <= sorted@.len(),
                forall|j: int| p <= j < sorted@.len() ==> #[trigger] sorted@[j] > x,
            decreases p,
        {
            p -= 1;
        }
        sorted.insert(p, x);
        proof {
            lemma_insert_at(before, x as int, int_order(), p as int);
            assert(sorted@.map_values(|y: u32| y as int) =~= before.insert(p as int, x as int));
            let t = offs.subrange(0, i + 1);
            assert(t.drop_last() =~= offs.subrange(0, i as int));
            assert(t.last() == x as int);
        }
        i += 1;
    }
    proof {
        assert(offs.subrange(0, i as int) =~= offs);
    }
    let mut out: Vec<u8> = Vec::new();
    push_u64(&mut out, ps.len() as u64);
    let ghost head = out@;
    let ghost sv = sorted@.map_values(|y: u32| y as int);
    let mut j: usize = 0;
    proof {
        assert(sv.subrange(0, 0) =~= Seq::<int>::empty());
    }
    while j < sorted.len()
        invariant
            j <= sorted@.len(),
            sv == sorted@.map_values(|y: u32| y as int),
            out@ == head + u64_list(sv.subrange(0, j as int)),
        decreases sorted.len() - j,
    {
        push_u64(&mut out, sorted[j] as u64);
        proof {
            let t = sv.subrange(0, j + 1);
            assert(t.drop_last() =~= sv.subrange(0, j as int));
            assert(t.last() == sorted@[j as int] as int);
            assert(out@ =~= head + u64_list(t));
        }
        j += 1;
    }
    proof {
        assert(sv.subrange(0, j as int) =~= sv);
    }
    out
}


pub open spec fn view_entries(es: Seq<(usize, u64)>) -> Seq<(int, int)> {
    es.map_values(|e: (usize, u64)| (e.0 as int, e.1 as int))
}

fn id_at_exec(objects: &Vec<RdoObject>, i: usize) -> (r: Option<u64>)
    ensures
        r == id_at(view_rdo_objects(objects@), i as int),
{
    if i < objects.len() {
        Some(objects[i].id)
    } else {
        None
    }
}

fn rnew_entries_of(objects: &Vec<RdoObject>, ps: &Vec<PointerRecord>) -> (r: Vec<(usize, u64)>)
    ensures
        view_entries(r@) == rnew_entries(view_rdo_objects(objects@), ps@),
        forall|k: int| 0 <= k < r@.len() ==> (#[trigger] r@[k]).1 <= u32::MAX + RFCI_FILE_OFFSET,
{
    let ghost v = view_rdo_objects(objects@);
    let mut es: Vec<(usize, u64)> = Vec::new();
    let mut i: usize = 0;
    proof {
        assert(ps@.subrange(0, 0) =~= Seq::<PointerRecord>::empty());
        assert(view_entries(es@) =~= Seq::<(int, int)>::empty());
    }
    while i < ps.len()
        invariant
            i <= ps@.len(),
            v == view_rdo_objects(objects@),
            view_entries(es@) == rnew_entries(v, ps@.subrange(0, i as int)),
            forall|k: int| 0 <= k < es@.len() ==> (#[trigger] es@[k]).1 <= u32::MAX + RFCI_FILE_OFFSET,
        decreases ps.len() - i,
    {
        let p: PointerRecord = ps[i];
        let id: Option<u64> = id_at_exec(objects, p.target);
        let ghost ves = view_entries(es@);
        let mut seen: bool = false;
        let mut k: usize = 0;
        while k < es.len()
            invariant
                k <= es@.len(),
                ves == view_entries(es@),
                v == view_rdo_objects(objects@),
                id == id_at(v, p.target as int),
                seen == exists|m: int| 0 <= m < k && id_at(v, #[trigger] ves[m].0) == id_at(v, p.target as int),
            decreases es.len() - k,
        {
            let other: Option<u64> = id_at_exec(objects, es[k].0);
            if other == id {
                seen = true;
            }
            proof {
                assert(ves[k as int].0 == es@[k as int].0 as int);
                if seen {
                    if other == id {
                        assert(id_at(v, ves[k as int].0) == id_at(v, p.target as int));
                    }
                }
            }
            k += 1;
        }
        proof {
            let t = ps@.subrange(0, i + 1);
            assert(t.drop_last() =~= ps@.subrange(0, i as int));
            assert(t.last() == p);
        }
        if !seen {
            es.push((p.target, RFCI_FILE_OFFSET as u64 + p.target_off as u64));
            proof {
                assert(view_entries(es@) =~= ves.push((p.target as int, RFCI_FILE_OFFSET + p.target_off)));
            }
        }
        i += 1;
    }
    proof {
        assert(ps@.subrange(0, i as int) =~= ps@);
    }
    es
}

proof fn lemma_rnew_err(v: Seq<SpecRdoObject>, types: Map<u64, TypeDef>, es: Seq<(int, int)>, j: int)
    requires
        0 <= j <= es.len(),
        rnew_list(v, types, es.subrange(0, j)) is Err,
    ensures
        rnew_list(v, types, es) == rnew_list(v, types, es.subrange(0, j)),
    decreases es.len() - j,
{
    if j < es.len() {
        assert(es.subrange(0, j + 1).drop_last() =~= es.subrange(0, j));
        lemma_rnew_err(v, types, es, j + 1);
    } else {
        assert(es.subrange(0, j) =~= es);
    }
}

#[verifier::rlimit(60)]
fn build_rnew(objects: &Vec<RdoObject>, reg: &SchemaRegistry, ps: &Vec<PointerRecord>, root: usize) -> (r: Result<
    Vec<u8>,
    CompileError,
>)
    ensures
        match rnew_bytes(view_rdo_objects(objects@), reg.types@, ps@, root as int) {
            Ok(b) => r matches Ok(x) && x@ == b,
            Err(e) => r matches Err(x) && view_compile_error(x) == e,
        },
{
    let ghost v = view_rdo_objects(objects@);
    let mut es: Vec<(usize, u64)> = rnew_entries_of(objects, ps);
    let ghost before = view_entries(es@);
    es.push((root, (RFCI_FILE_OFFSET + RFCI_PREFIX) as u64));
    let ghost ve = view_entries(es@);
    proof {
        assert(ve =~= before.push((root as int, RFCI_FILE_OFFSET + RFCI_PREFIX)));
    }
    let mut body: Vec<u8> = Vec::new();
    let mut i: usize = 0;
    proof {
        assert(ve.subrange(0, 0) =~= Seq::<(int, int)>::empty());
    }
    while i < es.len()
        invariant
            i <= es@.len(),
            v == view_rdo_objects(objects@),
            ve == view_entries(es@),
            ve.len() == es@.len(),
            ve == rnew_entries(v, ps@).push((root as int, RFCI_FILE_OFFSET + RFCI_PREFIX)),
            forall|k: int| 0 <= k < es@.len() ==> (#[trigger] es@[k]).1 <= u32::MAX + RFCI_FILE_OFFSET,
            rnew_list(v, reg.types@, ve.subrange(0, i as int)) == Ok::<Seq<u8>, SpecCompileError>(body@),
        decreases es.len() - i,
    {
        let (idx, off) = es[i];
        proof {
            let t = ve.subrange(0, i + 1);
            assert(t.drop_last() =~= ve.subrange(0, i as int));
            assert(t.last() == (idx as int, off as int));
        }
        if idx >= objects.len() {
            proof {
                lemma_rnew_err(v, reg.types@, ve, i as int + 1);
            }
            return Err(CompileError::UnknownType(String::new()));
        }
        let o: &RdoObject = &objects[idx];
        proof {
            assert(v[idx as int] == crate::rdo::view_rdo_object(*o));
        }
        match type_of(reg, o.ty_name.as_str()) {
            None => {
                proof {
                    lemma_rnew_err(v, reg.types@, ve, i as int + 1);
                }
                return Err(CompileError::UnknownType(o.ty_name.clone()));
            },
            Some(t) => {
                let ghost b0 = body@;
                push_u64(&mut body, o.id);
                push_u64(&mut body, t.hash);
                push_u64(&mut body, off);
                push_u32(&mut body, t.trailer);
                body.push(if o.owner_id == 0 { 1u8 } else { 0u8 });
                proof {
                    assert(body@ =~= b0 + (bytes64(o.id as int) + bytes64(t.hash as int) + bytes64(off as int)
                        + bytes32(t.trailer as int) + seq![
                        if o.owner_id == 0 {
                            1u8
                        } else {
                            0u8
                        },
                    ]));
                }
            },
        }
        i += 1;
    }
    proof {
        assert(ve.subrange(0, i as int) =~= ve);
    }
    let mut out: Vec<u8> = Vec::new();
    push_u64(&mut out, es.len() as u64);
    let ghost head = out@;
    crate::le::push_all(&mut out, body.as_slice());
    Ok(out)
}


pub(crate) proof fn lemma_view_chunks_map(s: Seq<Chunk>)
    ensures
        view_chunks(s) == s.map_values(|c: Chunk| view_chunk(c)),
    decreases s.len(),
{
    crate::container::lemma_view_chunks_len(s);
    assert forall|i: int| 0 <= i < s.len() implies view_chunks(s)[i] == view_chunk(s[i]) by {
        crate::container::lemma_view_chunks_index(s, i);
    }
    assert(view_chunks(s) =~= s.map_values(|c: Chunk| view_chunk(c)));
}

fn reflect_data(name: [u8; 4], body: Vec<u8>) -> (c: Chunk)
    ensures
        c@ == reflect_chunk(name@, body@),
{
    data_chunk(name, REFLECT_CHUNK_VERSION, body)
}

/// Compiles an object graph into a complete reflection container: the laid
/// out blob, the relocation, allocation and interned string tables, the
/// schema chunk `schema` (an `RFDB` folder with the type definitions), the
/// object table and the reserved `RERF` chunk.
pub fn compile_graph(graph: &RdoGraph, registry: &SchemaRegistry, schema: &Chunk) -> (r: Result<Chunky, CompileError>)
    ensures
        match spec_compile_graph(view_rdo_objects(graph.objects@), registry.types@, schema@) {
            Ok(c) => r matches Ok(x) && x@ == c,
            Err(e) => r matches Err(x) && view_compile_error(x) == e,
        },
{
    let (st, root) = match place_all(&graph.objects, registry) {
        Err(e) => {
            return Err(e);
        },
        Ok(p) => p,
    };
    let records: Vec<ObjectRecord> = match build_records(&graph.objects, registry, &st.order) {
        Err(e) => {
            return Err(e);
        },
        Ok(rs) => rs,
    };
    let rnew: Vec<u8> = match build_rnew(&graph.objects, registry, &st.pointers, root) {
        Err(e) => {
            return Err(e);
        },
        Ok(b) => b,
    };
    let rshi: Vec<u8> = build_rshi(&st.rshi);
    let rfup: Vec<u8> = build_rfup(&st.pointers);
    let table = ObjectTable { records };
    let robj: Vec<u8> = table.write();
    let Placement { blob, .. } = st;
    Ok(assemble(blob, rfup, rnew, rshi, schema, robj))
}

pub open spec fn reflect_chunks(
    blob: Seq<u8>,
    rfup: Seq<u8>,
    rnew: Seq<u8>,
    rshi: Seq<u8>,
    schema: SpecChunk,
    robj: Seq<u8>,
) -> SpecChunky {
    SpecChunky {
        major: 4,
        minor: 0,
        platform: 1,
        chunks: seq![
            reflect_chunk(tag(0x52, 0x46, 0x43, 0x49), blob),
            reflect_chunk(tag(0x52, 0x46, 0x55, 0x50), rfup),
            reflect_chunk(tag(0x52, 0x4e, 0x45, 0x57), rnew),
            reflect_chunk(tag(0x52, 0x53, 0x48, 0x49), rshi),
            schema,
            reflect_chunk(tag(0x52, 0x4f, 0x42, 0x4a), robj),
            reflect_chunk(tag(0x52, 0x45, 0x52, 0x46), seq![0u8, 0u8, 0u8, 0u8, 0u8, 0u8, 0u8, 0u8]),
        ],
    }
}

fn assemble(blob: Vec<u8>, rfup: Vec<u8>, rnew: Vec<u8>, rshi: Vec<u8>, schema: &Chunk, robj: Vec<u8>) -> (out: Chunky)
    ensures
        out@ == reflect_chunks(blob@, rfup@, rnew@, rshi@, schema@, robj@),
{
    let mut rerf: Vec<u8> = Vec::new();
    push_u64(&mut rerf, 0);
    proof {
        assert(bytes64(0) =~= seq![0u8, 0u8, 0u8, 0u8, 0u8, 0u8, 0u8, 0u8]);
        assert(rerf@ =~= seq![0u8, 0u8, 0u8, 0u8, 0u8, 0u8, 0u8, 0u8]);
        assert([0x52u8, 0x46u8, 0x43u8, 0x49u8]@ =~= tag(0x52, 0x46, 0x43, 0x49));
        assert([0x52u8, 0x46u8, 0x55u8, 0x50u8]@ =~= tag(0x52, 0x46, 0x55, 0x50));
        assert([0x52u8, 0x4eu8, 0x45u8, 0x57u8]@ =~= tag(0x52, 0x4e, 0x45, 0x57));
        assert([0x52u8, 0x53u8, 0x48u8, 0x49u8]@ =~= tag(0x52, 0x53, 0x48, 0x49));
        assert([0x52u8, 0x4fu8, 0x42u8, 0x4au8]@ =~= tag(0x52, 0x4f, 0x42, 0x4a));
        assert([0x52u8, 0x45u8, 0x52u8, 0x46u8]@ =~= tag(0x52, 0x45, 0x52, 0x46));
    }
    let c0 = reflect_data([0x52, 0x46, 0x43, 0x49], blob);
    let c1 = reflect_data([0x52, 0x46, 0x55, 0x50], rfup);
    let c2 = reflect_data([0x52, 0x4e, 0x45, 0x57], rnew);
    let c3 = reflect_data([0x52, 0x53, 0x48, 0x49], rshi);
    let c4 = schema.clone();
    let c5 = reflect_data([0x52, 0x4f, 0x42, 0x4a], robj);
    let c6 = reflect_data([0x52, 0x45, 0x52, 0x46], rerf);
    let mut chunks: Vec<Chunk> = Vec::new();
    chunks.push(c0);
    chunks.push(c1);
    chunks.push(c2);
    chunks.push(c3);
    chunks.push(c4);
    chunks.push(c5);
    chunks.push(c6);
    let out = Chunky { major: 4, minor: 0, platform: 1, chunks };
    proof {
        lemma_view_chunks_map(out.chunks@);
        assert(out@.chunks =~= reflect_chunks(blob@, rfup@, rnew@, rshi@, schema@, robj@).chunks);
    }
    out
}

/// Compiles `.rdo` text into a complete reflection container (see
/// `compile_graph`); `parse_float` reads the text of a `Float` value as the
/// bits of an `f32`.
pub fn compile_reflect_full<F: Fn(&str) -> Option<u32>>(
    rdo_xml: &str,
    registry: &SchemaRegistry,
    schema: &Chunk,
    parse_float: F,
) -> (r: Result<Chunky, CompileError>)
    requires
        forall|s: &str| #[trigger] parse_float.requires((s,)),
    ensures
        forall|g: spec_fn(Seq<char>) -> Option<u32>|
            reads_floats_as(parse_float, g) ==> match #[trigger] spec_compile_rdo(rdo_xml@, g) {
                Err(_) => r matches Err(x) && view_compile_error(x) == SpecCompileError::Xml,
                Ok(objs) => match spec_compile_graph(objs, registry.types@, schema@) {
                    Ok(c) => r matches Ok(x) && x@ == c,
                    Err(e) => r matches Err(x) && view_compile_error(x) == e,
                },
            },
{
    match parse_rdo_for_compile(rdo_xml, parse_float) {
        Err(_) => Err(CompileError::Xml),
        Ok(graph) => compile_graph(&graph, registry, schema),
    }
}

/// Chunk `i` is the first named `name`.
pub open spec fn first_named_at(cs: Seq<SpecChunk>, name: Seq<u8>, i: int) -> bool {
    0 <= i < cs.len() && cs[i].name == name && forall|j: int| 0 <= j < i ==> cs[j].name != name
}

/// The schema chunk (`RFDB`) of a reflection container: its first top-level
/// chunk of that name.
pub fn schema_chunk(chunky: &Chunky) -> (r: Option<&Chunk>)
    ensures
        match r {
            Some(c) => exists|i: int|
                first_named_at(chunky@.chunks, tag(0x52, 0x46, 0x44, 0x42), i) && c@ == #[trigger] chunky@.chunks[i],
            None => forall|j: int| 0 <= j < chunky@.chunks.len() ==> #[trigger] chunky@.chunks[j].name != tag(0x52, 0x46, 0x44, 0x42),
        },
{
    let ghost cs = chunky@.chunks;
    let ghost name = tag(0x52, 0x46, 0x44, 0x42);
    proof {
        lemma_view_chunks_map(chunky.chunks@);
    }
    let mut i: usize = 0;
    while i < chunky.chunks.len()
        invariant
            i <= chunky.chunks@.len(),
            cs == chunky@.chunks,
            cs == chunky.chunks@.map_values(|c: Chunk| view_chunk(c)),
            name == tag(0x52, 0x46, 0x44, 0x42),
            forall|j: int| 0 <= j < i ==> cs[j].name != name,
        decreases chunky.chunks.len() - i,
    {
        let c: &Chunk = &chunky.chunks[i];
        if c.name[0] == 0x52 && c.name[1] == 0x46 && c.name[2] == 0x44 && c.name[3] == 0x42 {
            proof {
                assert(cs[i as int] == view_chunk(*c));
                assert(cs[i as int].name =~= name);
                assert(first_named_at(cs, name, i as int));
            }
            return Some(c);
        }
        proof {
            assert(cs[i as int] == view_chunk(*c));
            if cs[i as int].name == name {
                assert(c.name@[0] == 0x52 && c.name@[1] == 0x46 && c.name@[2] == 0x44 && c.name@[3] == 0x42);
            }
        }
        i += 1;
    }
    None
}

/// The type of the root object (the first with owner id 0) of `.rdo` text.
pub fn root_type_of<F: Fn(&str) -> Option<u32>>(rdo_xml: &str, parse_float: F) -> (r: Result<String, CompileError>)
    requires
        forall|s: &str| #[trigger] parse_float.requires((s,)),
    ensures
        forall|g: spec_fn(Seq<char>) -> Option<u32>|
            reads_floats_as(parse_float, g) ==> match #[trigger] spec_compile_rdo(rdo_xml@, g) {
                Err(_) => r matches Err(x) && view_compile_error(x) == SpecCompileError::Xml,
                Ok(objs) => match first_root(objs) {
                    None => r matches Err(x) && view_compile_error(x) == SpecCompileError::NoRoot,
                    Some(i) => r matches Ok(s) && s@ == objs[i].ty_name,
                },
            },
{
    let graph = match parse_rdo_for_compile(rdo_xml, parse_float) {
        Err(_) => {
            return Err(CompileError::Xml);
        },
        Ok(g) => g,
    };
    match find_root(&graph.objects) {
        None => Err(CompileError::NoRoot),
        Some(i) => {
            proof {
                assert(view_rdo_objects(graph.objects@)[i as int].ty_name == graph.objects@[i as int].ty_name@);
            }
            Ok(graph.objects[i].ty_name.clone())
        },
    }
}

} // verus!
