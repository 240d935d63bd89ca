//! Decompiling a reflection container: the types, objects, data blob and
//! interned strings it holds, and the `.rdo` object graph they describe.
use vstd::prelude::*;

use std::collections::{BTreeMap, HashMap, HashSet};

use vstd::string::{StrSliceExecFns, StringExecFns};

use crate::container::{chunky_bytes, Chunk, Chunky, SpecBody, SpecChunk};
use crate::le::{le32, le64, read_u32, read_u64};
use crate::records::{
    lossy_records, parse_interned_table, parse_object_table, view_hashed, InternedStringTable, ObjectRecord,
    ObjectTable,
};
use crate::reflect::tag;
use crate::rdo::{view_props, view_rdo_object, view_rdo_objects, view_rdo_value, RdoGraph, RdoObject, RdoValue, ScalarType, SpecRdoObject, SpecRdoValue};
use crate::reflect_type::{
    has_text, spec_is_enum_type, kind_by_name, named_kind, parse_type, spec_array_element_type, spec_classify, spec_parse_type, FieldDef, FieldKind,
    SpecField, SpecType, TypeDef,
};
use crate::rdo_xml::{formats_floats_as, spec_to_xml};
use crate::rgd_write::{insert_stable, lemma_insert_at, sort_stable};
use crate::text::{decimal, decimal_string, lossy_string, utf8_text};
use crate::walk::{data_entries, view_entries, FILE_HEADER_LEN};

verus! {

/// An object of the container: its id, the hash of its type, its owner's
/// id, and the file offset of its data.
#[derive(Debug, Clone, Copy)]
pub struct ObjectRef {
    pub id: u64,
    pub type_hash: u64,
    pub owner_id: u64,
    pub data_offset: usize,
}

/// What a reflection container holds: its types by hash, its objects, its
/// `RFCI` data blob and the file offset of that blob, its interned strings,
/// and the id of its root object.
#[derive(Debug)]
pub struct DecompiledReflect {
    pub types: BTreeMap<u64, TypeDef>,
    pub objects: Vec<ObjectRef>,
    pub data: Vec<u8>,
    pub rfci_offset: usize,
    pub interned: HashMap<u64, String>,
    pub root_id: u64,
}

pub struct SpecDecompiled {
    pub types: Map<u64, SpecType>,
    pub objects: Seq<ObjectRef>,
    pub data: Seq<u8>,
    pub rfci_offset: int,
    pub interned: Map<u64, Seq<char>>,
    pub root_id: u64,
}

impl View for DecompiledReflect {
    type V = SpecDecompiled;

    open spec fn view(&self) -> SpecDecompiled {
        SpecDecompiled {
            types: self.types@.map_values(|t: TypeDef| t.spec_view()),
            objects: self.objects@,
            data: self.data@,
            rfci_offset: self.rfci_offset as int,
            interned: self.interned@.map_values(|s: String| s@),
            root_id: self.root_id,
        }
    }
}

// ---------------------------------------------------------------------------
// Reading the blob
// ---------------------------------------------------------------------------
pub open spec fn at_u8(b: Seq<u8>, pos: int) -> Option<u8> {
    if 0 <= pos < b.len() {
        Some(b[pos])
    } else {
        None
    }
}

pub open spec fn at_u32(b: Seq<u8>, pos: int) -> Option<u32> {
    if 0 <= pos && pos + 4 <= b.len() {
        Some(le32(b, pos) as u32)
    } else {
        None
    }
}

pub open spec fn at_i32(b: Seq<u8>, pos: int) -> Option<i32> {
    match at_u32(b, pos) {
        Some(v) => Some(v as i32),
        None => None,
    }
}

pub open spec fn at_u64(b: Seq<u8>, pos: int) -> Option<u64> {
    if 0 <= pos && pos + 8 <= b.len() {
        Some(le64(b, pos) as u64)
    } else {
        None
    }
}

pub open spec fn i32_or0(o: Option<i32>) -> int {
    match o {
        Some(v) => v as int,
        None => 0,
    }
}

pub open spec fn u64_or0(o: Option<u64>) -> u64 {
    match o {
        Some(v) => v,
        None => 0,
    }
}

fn byte_at(b: &Vec<u8>, pos: usize) -> (r: Option<u8>)
    ensures
        r == at_u8(b@, pos as int),
{
    if pos < b.len() {
        Some(b[pos])
    } else {
        None
    }
}

fn u32_at(b: &Vec<u8>, pos: usize) -> (r: Option<u32>)
    ensures
        r == at_u32(b@, pos as int),
{
    if pos <= b.len() && b.len() - pos >= 4 {
        let v = read_u32(b.as_slice(), pos);
        v
    } else {
        None
    }
}

fn i32_at(b: &Vec<u8>, pos: usize) -> (r: Option<i32>)
    ensures
        r == at_i32(b@, pos as int),
{
    match u32_at(b, pos) {
        Some(v) => Some(v as i32),
        None => None,
    }
}

fn u64_at(b: &Vec<u8>, pos: usize) -> (r: Option<u64>)
    ensures
        r == at_u64(b@, pos as int),
{
    if pos <= b.len() && b.len() - pos >= 8 {
        read_u64(b.as_slice(), pos)
    } else {
        None
    }
}

// ---------------------------------------------------------------------------
// Reading a container
// ---------------------------------------------------------------------------
pub open spec fn object_of(r: ObjectRecord) -> ObjectRef {
    ObjectRef { id: r.id, type_hash: r.type_hash, owner_id: r.owner_id, data_offset: r.data_offset as usize }
}

/// The objects of an `ROBJ` body; none when it does not read.
pub open spec fn objects_of(d: Seq<u8>) -> Seq<ObjectRef> {
    match parse_object_table(d) {
        None => Seq::empty(),
        Some(rs) => rs.map_values(|r: ObjectRecord| object_of(r)),
    }
}

/// The last value of each key.
pub open spec fn last_values(v: Seq<(u64, Seq<char>)>) -> Map<u64, Seq<char>>
    decreases v.len(),
{
    if v.len() == 0 {
        Map::empty()
    } else {
        last_values(v.drop_last()).insert(v.last().0, v.last().1)
    }
}

/// The interned strings of an `RSHI` body, a later entry of a hash winning;
/// none when it does not read.
pub open spec fn interned_of(d: Seq<u8>) -> Map<u64, Seq<char>> {
    match parse_interned_table(d) {
        None => Map::empty(),
        Some(v) => last_values(lossy_records(v)),
    }
}

/// What the data chunks read so far give: the types (a later type of a
/// hash replacing an earlier one), the objects, the blob and its file
/// offset, the interned strings, the root id from `RNEW`, and whether any
/// type was read.
pub struct ScanState {
    pub types: Map<u64, SpecType>,
    pub objects: Seq<ObjectRef>,
    pub data: Seq<u8>,
    pub rfci_offset: int,
    pub interned: Map<u64, Seq<char>>,
    pub root_id: u64,
    pub saw_type: bool,
}

pub open spec fn scan_step(st: ScanState, c: SpecChunk, pos: int) -> ScanState {
    match c.body {
        SpecBody::Data(d) => if c.name == tag(0x52, 0x46, 0x54, 0x59) {
            match spec_parse_type(d) {
                Some(t) => ScanState { types: st.types.insert(t.hash, t), saw_type: true, ..st },
                None => st,
            }
        } else if c.name == tag(0x52, 0x4f, 0x42, 0x4a) {
            ScanState { objects: objects_of(d), ..st }
        } else if c.name == tag(0x52, 0x46, 0x43, 0x49) {
            ScanState { rfci_offset: (pos as usize) as int, data: d, ..st }
        } else if c.name == tag(0x52, 0x53, 0x48, 0x49) {
            ScanState { interned: interned_of(d), ..st }
        } else if c.name == tag(0x52, 0x4e, 0x45, 0x57) {
            ScanState { root_id: u64_or0(at_u64(d, 8)), ..st }
        } else {
            st
        },
        SpecBody::Folder(_) => st,
    }
}

pub open spec fn scan(entries: Seq<(SpecChunk, int)>) -> ScanState
    decreases entries.len(),
{
    if entries.len() == 0 {
        ScanState {
            types: Map::empty(),
            objects: Seq::empty(),
            data: Seq::empty(),
            rfci_offset: 0,
            interned: Map::empty(),
            root_id: 0,
            saw_type: false,
        }
    } else {
        scan_step(scan(entries.drop_last()), entries.last().0, entries.last().1)
    }
}

/// The first object with no owner.
pub open spec fn first_unowned(objects: Seq<ObjectRef>) -> Option<ObjectRef>
    decreases objects.len(),
{
    if objects.len() == 0 {
        None
    } else if objects[0].owner_id == 0 {
        Some(objects[0])
    } else {
        first_unowned(objects.subrange(1, objects.len() as int))
    }
}

/// What a container holds, when it holds at least one type; the root is the
/// first object with no owner, else the one that `RNEW` names.
pub open spec fn spec_decompile(chunks: Seq<SpecChunk>) -> Option<SpecDecompiled> {
    let st = scan(data_entries(chunks, FILE_HEADER_LEN as int));
    if !st.saw_type {
        None
    } else {
        Some(
            SpecDecompiled {
                types: st.types,
                objects: st.objects,
                data: st.data,
                rfci_offset: st.rfci_offset,
                interned: st.interned,
                root_id: match first_unowned(st.objects) {
                    Some(o) => o.id,
                    None => st.root_id,
                },
            },
        )
    }
}

fn tag_is(c: &Chunk, a: u8, b: u8, d: u8, e: u8) -> (r: bool)
    ensures
        r == (c.name@ == tag(a, b, d, e)),
{
    let r: bool = c.name[0] == a && c.name[1] == b && c.name[2] == d && c.name[3] == e;
    proof {
        if r {
            assert(c.name@ =~= tag(a, b, d, e));
        } else if c.name@ == tag(a, b, d, e) {
            assert(c.name@[0] == a && c.name@[1] == b && c.name@[2] == d && c.name@[3] == e);
        }
    }
    r
}

fn read_objects(d: &[u8]) -> (r: Vec<ObjectRef>)
    ensures
        r@ == objects_of(d@),
{
    match ObjectTable::read(d) {
        None => Vec::new(),
        Some(table) => {
            let mut out: Vec<ObjectRef> = Vec::new();
            let mut i: usize = 0;
            while i < table.records.len()
                invariant
                    i <= table.records@.len(),
                    out@ == table.records@.subrange(0, i as int).map_values(|r: ObjectRecord| object_of(r)),
                decreases table.records.len() - i,
            {
                let r = &table.records[i];
                out.push(ObjectRef { id: r.id, type_hash: r.type_hash, owner_id: r.owner_id, data_offset: r.data_offset as usize });
                proof {
                    assert(table.records@.subrange(0, i + 1).map_values(|r: ObjectRecord| object_of(r)) =~= table.records@.subrange(
                        0,
                        i as int,
                    ).map_values(|r: ObjectRecord| object_of(r)).push(object_of(table.records@[i as int])));
                }
                i += 1;
            }
            proof {
                assert(table.records@.subrange(0, i as int) =~= table.records@);
            }
            out
        },
    }
}

fn read_interned(d: &[u8]) -> (r: HashMap<u64, String>)
    ensures
        r@.map_values(|s: String| s@) == interned_of(d@),
{
    broadcast use vstd::std_specs::hash::group_hash_axioms;

    let mut out: HashMap<u64, String> = HashMap::new();
    match InternedStringTable::read(d) {
        None => {
            proof {
                assert(out@.map_values(|s: String| s@) =~= Map::<u64, Seq<char>>::empty());
            }
            out
        },
        Some(table) => {
            let ghost v = view_hashed(table.strings@);
            let mut i: usize = 0;
            proof {
                assert(v.subrange(0, 0) =~= Seq::<(u64, Seq<char>)>::empty());
                assert(out@.map_values(|s: String| s@) =~= Map::<u64, Seq<char>>::empty());
            }
            while i < table.strings.len()
                invariant
                    i <= table.strings@.len(),
                    v == view_hashed(table.strings@),
                    out@.map_values(|s: String| s@) == last_values(v.subrange(0, i as int)),
                decreases table.strings.len() - i,
            {
                let h: u64 = table.strings[i].hash;
                let value: String = table.strings[i].value.clone();
                let ghost before = out@;
                out.insert(h, value);
                proof {
                    let t = v.subrange(0, i + 1);
                    assert(t.drop_last() =~= v.subrange(0, i as int));
                    assert(t.last() == (h, value@));
                    assert(out@.map_values(|s: String| s@) =~= before.map_values(|s: String| s@).insert(h, value@));
                }
                i += 1;
            }
            proof {
                assert(v.subrange(0, i as int) =~= v);
            }
            out
        },
    }
}

fn find_unowned(objects: &Vec<ObjectRef>) -> (r: Option<u64>)
    ensures
        r == (match first_unowned(objects@) {
            Some(o) => Some(o.id),
            None => None,
        }),
{
    let mut i: usize = 0;
    proof {
        assert(objects@.subrange(0, objects@.len() as int) =~= objects@);
    }
    while i < objects.len()
        invariant
            i <= objects@.len(),
            first_unowned(objects@) == first_unowned(objects@.subrange(i as int, objects@.len() as int)),
        decreases objects.len() - i,
    {
        let ghost t = objects@.subrange(i as int, objects@.len() as int);
        proof {
            assert(t[0] == objects@[i as int]);
            assert(t.subrange(1, t.len() as int) =~= objects@.subrange(i + 1, objects@.len() as int));
        }
        if objects[i].owner_id == 0 {
            return Some(objects[i].id);
        }
        i += 1;
    }
    None
}

impl DecompiledReflect {
    /// Reads what a reflection container holds; `None` when it holds no
    /// readable `RFTY` type.
    pub fn parse(chunky: &Chunky) -> (r: Option<DecompiledReflect>)
        requires
            chunky_bytes(chunky@).len() <= u64::MAX,
        ensures
            match spec_decompile(chunky@.chunks) {
                None => r is None,
                Some(d) => r matches Some(x) && x@ == d,
            },
    {
        broadcast use vstd::std_specs::btree::group_btree_axioms;

        let entries: Vec<(&Chunk, u64)> = chunky.data_chunks();
        let ghost es = data_entries(chunky@.chunks, FILE_HEADER_LEN as int);
        let mut types: BTreeMap<u64, TypeDef> = BTreeMap::new();
        let mut objects: Vec<ObjectRef> = Vec::new();
        let mut data: Vec<u8> = Vec::new();
        let mut rfci_offset: usize = 0;
        let mut interned: HashMap<u64, String> = HashMap::new();
        let mut root_id: u64 = 0;
        let mut saw_type: bool = false;
        let mut i: usize = 0;
        proof {
            assert(es.subrange(0, 0) =~= Seq::<(SpecChunk, int)>::empty());
            assert(types@.map_values(|t: TypeDef| t.spec_view()) =~= Map::<u64, SpecType>::empty());
            assert(interned@.map_values(|s: String| s@) =~= Map::<u64, Seq<char>>::empty());
            crate::reflect_type::lemma_u64_keys();
        }
        while i < entries.len()
            invariant
                i <= entries@.len(),
                view_entries(entries@) == es,
                crate::reflect_type::u64_keys_ordered(),
                ({
                    let st = scan(es.subrange(0, i as int));
                    &&& types@.map_values(|t: TypeDef| t.spec_view()) == st.types
                    &&& objects@ == st.objects
                    &&& data@ == st.data
                    &&& rfci_offset as int == st.rfci_offset
                    &&& interned@.map_values(|s: String| s@) == st.interned
                    &&& root_id == st.root_id
                    &&& saw_type == st.saw_type
                }),
            decreases entries.len() - i,
        {
            let (chunk, position) = entries[i];
            proof {
                let t = es.subrange(0, i + 1);
                assert(t.drop_last() =~= es.subrange(0, i as int));
                assert(t.last() == (crate::container::view_chunk(*chunk), position as int));
            }
            if let Some(d) = chunk.data() {
                if tag_is(chunk, 0x52, 0x46, 0x54, 0x59) {
                    if let Some(ty) = parse_type(d) {
                        let ghost before = types@;
                        let ghost tv = ty.spec_view();
                        types.insert(ty.hash, ty);
                        saw_type = true;
                        proof {
                            assert(types@.map_values(|t: TypeDef| t.spec_view()) =~= before.map_values(
                                |t: TypeDef| t.spec_view(),
                            ).insert(tv.hash, tv));
                        }
                    }
                } else if tag_is(chunk, 0x52, 0x4f, 0x42, 0x4a) {
                    objects = read_objects(d);
                } else if tag_is(chunk, 0x52, 0x46, 0x43, 0x49) {
                    rfci_offset = #[verifier::truncate] (position as usize);
                    data = vstd::slice::slice_to_vec(d);
                } else if tag_is(chunk, 0x52, 0x53, 0x48, 0x49) {
                    interned = read_interned(d);
                } else if tag_is(chunk, 0x52, 0x4e, 0x45, 0x57) {
                    root_id = match read_u64(d, 8) {
                        Some(v) => v,
                        None => 0,
                    };
                }
            }
            i += 1;
        }
        proof {
            assert(es.subrange(0, i as int) =~= es);
        }
        if let Some(id) = find_unowned(&objects) {
            root_id = id;
        }
        if saw_type {
            Some(DecompiledReflect { types, objects, data, rfci_offset, interned, root_id })
        } else {
            None
        }
    }
}

// ---------------------------------------------------------------------------
// Looking things up
// ---------------------------------------------------------------------------
/// Where an object's data starts in the blob: its file offset less the
/// blob's, or 0 before the blob.
pub open spec fn spec_base_of(d: SpecDecompiled, o: ObjectRef) -> int {
    if o.data_offset >= d.rfci_offset {
        o.data_offset - d.rfci_offset
    } else {
        0
    }
}

/// Whether some type of that name has fields.
pub open spec fn spec_has_fields(types: Map<u64, SpecType>, name: Seq<char>) -> bool {
    exists|k: u64| types.contains_key(k) && types[k].name == name && types[k].fields.len() > 0
}

/// The layout kind of a field type, asking the schema whether a type has
/// fields.
pub open spec fn kind_of(d: SpecDecompiled, t: Seq<char>) -> FieldKind {
    spec_classify(t, spec_has_fields(d.types, t))
}

/// The least hash of a type with that name.
pub open spec fn least_named(types: Map<u64, SpecType>, name: Seq<char>) -> Option<u64> {
    if exists|k: u64| types.contains_key(k) && types[k].name == name {
        Some(
            choose|k: u64|
                types.contains_key(k) && types[k].name == name && forall|j: u64|
                    types.contains_key(j) && types[j].name == name ==> k <= j,
        )
    } else {
        None
    }
}

/// The first object at file offset `pos` owned by `owner`.
pub open spec fn child_at(objects: Seq<ObjectRef>, pos: int, owner: u64) -> Option<ObjectRef>
    decreases objects.len(),
{
    if objects.len() == 0 {
        None
    } else if objects[0].data_offset == pos && objects[0].owner_id == owner {
        Some(objects[0])
    } else {
        child_at(objects.subrange(1, objects.len() as int), pos, owner)
    }
}

/// A string field at `pos`: `[i32 rel][pad][i32 len]`, the bytes at
/// `pos + rel`; empty when anything is out of range.
pub open spec fn read_string(d: SpecDecompiled, pos: int) -> Seq<char> {
    match at_i32(d.data, pos) {
        None => Seq::empty(),
        Some(rel) => {
            let len = i32_or0(at_i32(d.data, pos + 8));
            let start = pos + rel;
            if len <= 0 || start < 0 || start + len > d.data.len() {
                Seq::empty()
            } else {
                utf8_text(d.data.subrange(start, start + len))
            }
        },
    }
}

/// `name#index|` for each base of the type, in order; `None` when a base
/// type is unknown.
pub open spec fn base_types_text(types: Map<u64, SpecType>, bases: Seq<(u64, u32)>) -> Option<Seq<char>>
    decreases bases.len(),
{
    if bases.len() == 0 {
        Some(Seq::empty())
    } else {
        match base_types_text(types, bases.drop_last()) {
            None => None,
            Some(s) => {
                let (h, idx) = bases.last();
                if types.contains_key(h) {
                    Some(s + types[h].name + "#"@ + decimal(idx as nat) + "|"@)
                } else {
                    None
                }
            },
        }
    }
}

/// Objects in the order of their file offsets.
pub open spec fn offset_order() -> spec_fn(ObjectRef, ObjectRef) -> bool {
    |a: ObjectRef, b: ObjectRef| a.data_offset <= b.data_offset
}

/// The objects owned by `owner` at or after `first`, in object order.
pub open spec fn owned_from(objects: Seq<ObjectRef>, owner: u64, first: int) -> Seq<ObjectRef>
    decreases objects.len(),
{
    if objects.len() == 0 {
        Seq::empty()
    } else {
        let rest = owned_from(objects.drop_last(), owner, first);
        let o = objects.last();
        if o.owner_id == owner && o.data_offset >= first {
            rest.push(o)
        } else {
            rest
        }
    }
}

/// The elements of a by-value array: the `count` objects owned by the
/// parent from the array's first element on, by file offset; `None` when
/// there is no element at the start or too few follow.
pub open spec fn array_elements(d: SpecDecompiled, parent: ObjectRef, file_pos: int, rel: int, count: int) -> Option<
    Seq<ObjectRef>,
> {
    if count == 0 {
        Some(Seq::empty())
    } else {
        let first = file_pos + rel;
        if child_at(d.objects, first, parent.id) is None {
            None
        } else {
            let sorted = sort_stable(owned_from(d.objects, parent.id, first), offset_order());
            if sorted.len() < count || sorted[0].data_offset != first {
                None
            } else {
                Some(sorted.subrange(0, count))
            }
        }
    }
}

/// The raw bytes of an array whose elements are no objects: `count`
/// elements of the element type's size at `pos + rel`.
pub open spec fn raw_array_bytes(d: SpecDecompiled, array_type: Seq<char>, pos: int, rel: int, count: int) -> Option<
    Seq<u8>,
> {
    if count == 0 {
        None
    } else {
        match least_named(d.types, spec_array_element_type(array_type)) {
            None => None,
            Some(k) => {
                let size = d.types[k].size as int;
                let start = pos + rel;
                if start < 0 || start + count * size > d.data.len() {
                    None
                } else {
                    Some(d.data.subrange(start, start + count * size))
                }
            },
        }
    }
}

/// The targets of the first `j` pointers of a pointer block at `block`:
/// each 8-byte relative pointer leads to the object at that file offset.
pub open spec fn targets_upto(d: SpecDecompiled, block: int, j: nat, owner: u64) -> Option<Seq<ObjectRef>>
    decreases j,
{
    if j == 0 {
        Some(Seq::empty())
    } else {
        match targets_upto(d, block, (j - 1) as nat, owner) {
            None => None,
            Some(ts) => {
                let ptr = block + 8 * (j - 1);
                match at_u64(d.data, ptr) {
                    None => None,
                    Some(rel2) => match child_at(d.objects, ptr + (rel2 as i64) + d.rfci_offset, owner) {
                        None => None,
                        Some(c) => Some(ts.push(c)),
                    },
                }
            },
        }
    }
}

pub open spec fn pointer_targets(d: SpecDecompiled, pos: int, rel: int, count: int, owner: u64) -> Option<Seq<ObjectRef>> {
    if count <= 0 {
        Some(Seq::empty())
    } else {
        targets_upto(d, pos + rel, count as nat, owner)
    }
}

fn u8_at_pos(b: &Vec<u8>, pos: i128) -> (r: Option<u8>)
    ensures
        r == at_u8(b@, pos as int),
{
    if 0 <= pos && pos < b.len() as i128 {
        byte_at(b, pos as usize)
    } else {
        None
    }
}

fn u32_at_pos(b: &Vec<u8>, pos: i128) -> (r: Option<u32>)
    ensures
        r == at_u32(b@, pos as int),
{
    if 0 <= pos && pos <= b.len() as i128 {
        u32_at(b, pos as usize)
    } else {
        None
    }
}

fn i32_at_pos(b: &Vec<u8>, pos: i128) -> (r: Option<i32>)
    ensures
        r == at_i32(b@, pos as int),
{
    if 0 <= pos && pos <= b.len() as i128 {
        i32_at(b, pos as usize)
    } else {
        None
    }
}

fn u64_at_pos(b: &Vec<u8>, pos: i128) -> (r: Option<u64>)
    ensures
        r == at_u64(b@, pos as int),
{
    if 0 <= pos && pos <= b.len() as i128 {
        u64_at(b, pos as usize)
    } else {
        None
    }
}

fn find_child(objects: &Vec<ObjectRef>, pos: i128, owner: u64) -> (r: Option<ObjectRef>)
    ensures
        r == child_at(objects@, pos as int, owner),
{
    let mut i: usize = 0;
    proof {
        assert(objects@.subrange(0, objects@.len() as int) =~= objects@);
    }
    while i < objects.len()
        invariant
            i <= objects@.len(),
            child_at(objects@, pos as int, owner) == child_at(
                objects@.subrange(i as int, objects@.len() as int),
                pos as int,
                owner,
            ),
        decreases objects.len() - i,
    {
        let ghost t = objects@.subrange(i as int, objects@.len() as int);
        proof {
            assert(t[0] == objects@[i as int]);
            assert(t.subrange(1, t.len() as int) =~= objects@.subrange(i + 1, objects@.len() as int));
        }
        if objects[i].data_offset as i128 == pos && objects[i].owner_id == owner {
            return Some(objects[i]);
        }
        i += 1;
    }
    None
}

impl DecompiledReflect {
    fn base_of(&self, o: &ObjectRef) -> (r: usize)
        ensures
            r as int == spec_base_of(self@, *o),
    {
        if o.data_offset >= self.rfci_offset {
            o.data_offset - self.rfci_offset
        } else {
            0
        }
    }

    /// Whether some type of that name has fields.
    fn has_fields(&self, name: &str) -> (r: bool)
        ensures
            r == spec_has_fields(self@.types, name@),
    {
        broadcast use vstd::std_specs::btree::group_btree_axioms;

        proof {
            crate::reflect_type::lemma_u64_keys();
        }
        let ghost m = self.types@;
        let values = self.types.values();
        let ghost key_seq: Seq<u64> = choose|ks: Seq<u64>|
            {
                &&& vstd::std_specs::btree::increasing_seq(ks)
                &&& ks.to_set() == m.dom()
                &&& ks.no_duplicates()
                &&& vstd::std_specs::iter::IteratorSpec::remaining(&values) == ks.map(|i: int, k: u64| &m[k])
            };
        for t in it: values
            invariant
                it.seq() == key_seq.map(|i: int, k: u64| &m[k]),
                key_seq.to_set() == m.dom(),
                m == self.types@,
                forall|p: int|
                    0 <= p < it.index() ==> !(m[#[trigger] key_seq[p]].name@ == name@ && m[key_seq[p]].fields@.len()
                        > 0),
        {
            let ghost idx = it.index();
            if crate::attrib::str_eq(t.name.as_str(), name) && t.fields.len() > 0 {
                proof {
                    let k = key_seq[idx];
                    assert(it.seq()[idx] == &m[k]);
                    assert(key_seq.to_set().contains(k));
                    assert(self@.types.contains_key(k));
                    assert(self@.types[k] == m[k].spec_view());
                }
                return true;
            }
        }
        proof {
            assert forall|k: u64| self@.types.contains_key(k) implies !(self@.types[k].name == name@
                && self@.types[k].fields.len() > 0) by {
                assert(key_seq.to_set().contains(k));
                let p = choose|p: int| 0 <= p < key_seq.len() && key_seq[p] == k;
                assert(m[key_seq[p]].fields@.map_values(|f: FieldDef| f.spec_view()).len() == m[k].fields@.len());
            }
        }
        false
    }

    /// The layout kind of a field type.
    fn kind_of(&self, t: &str) -> (r: FieldKind)
        ensures
            r == kind_of(self@, t@),
    {
        match kind_by_name(t) {
            Some(k) => k,
            None => {
                if self.has_fields(t) {
                    FieldKind::Embed
                } else {
                    FieldKind::Opaque
                }
            },
        }
    }
}

impl DecompiledReflect {
    /// The size of the type with that name and the least hash.
    fn size_of_named(&self, name: &str) -> (r: Option<u32>)
        ensures
            match least_named(self@.types, name@) {
                Some(k) => r == Some(self@.types[k].size),
                None => r is None,
            },
    {
        broadcast use vstd::std_specs::btree::group_btree_axioms;

        proof {
            crate::reflect_type::lemma_u64_keys();
        }
        let ghost m = self.types@;
        let ghost sm = self@.types;
        let values = self.types.values();
        let ghost key_seq: Seq<u64> = choose|ks: Seq<u64>|
            {
                &&& vstd::std_specs::btree::increasing_seq(ks)
                &&& ks.to_set() == m.dom()
                &&& ks.no_duplicates()
                &&& vstd::std_specs::iter::IteratorSpec::remaining(&values) == ks.map(|i: int, k: u64| &m[k])
            };
        for t in it: values
            invariant
                it.seq() == key_seq.map(|i: int, k: u64| &m[k]),
                vstd::std_specs::btree::increasing_seq(key_seq),
                key_seq.to_set() == m.dom(),
                key_seq.no_duplicates(),
                m == self.types@,
                sm == self@.types,
                forall|p: int| 0 <= p < it.index() ==> m[#[trigger] key_seq[p]].name@ != name@,
        {
            let ghost idx = it.index();
            if crate::attrib::str_eq(t.name.as_str(), name) {
                proof {
                    let k = key_seq[idx];
                    assert(it.seq()[idx] == &m[k]);
                    assert(key_seq.to_set().contains(k));
                    assert(sm.contains_key(k) && sm[k].name == name@);
                    assert forall|j: u64| sm.contains_key(j) && sm[j].name == name@ implies k <= j by {
                        assert(key_seq.to_set().contains(j));
                        let p = choose|p: int| 0 <= p < key_seq.len() && key_seq[p] == j;
                        if p < idx {
                            assert(m[key_seq[p]].name@ != name@);
                        } else if p > idx {
                            assert(crate::reflect_type::ordered_before(key_seq[idx], key_seq[p]));
                        }
                    }
                    assert(least_named(sm, name@) == Some(k));
                }
                return Some(t.size);
            }
        }
        proof {
            assert forall|k: u64| sm.contains_key(k) implies sm[k].name != name@ by {
                assert(key_seq.to_set().contains(k));
                let p = choose|p: int| 0 <= p < key_seq.len() && key_seq[p] == k;
            }
        }
        None
    }

    /// A string field at `pos`.
    fn read_string(&self, pos: i128) -> (r: String)
        requires
            0 <= pos < 0x1_0000_0000_0000_0000_0000,
        ensures
            r@ == read_string(self@, pos as int),
    {
        proof {
            reveal_strlit("");
            assert(""@ =~= Seq::<char>::empty());
        }
        let rel: i32 = match i32_at_pos(&self.data, pos) {
            Some(v) => v,
            None => {
                return String::from_str("");
            },
        };
        let len: i32 = match i32_at_pos(&self.data, pos + 8) {
            Some(v) => v,
            None => 0,
        };
        let start: i128 = pos + rel as i128;
        if len <= 0 || start < 0 || start + len as i128 > self.data.len() as i128 {
            return String::from_str("");
        }
        let s: usize = start as usize;
        let e: usize = (start + len as i128) as usize;
        let bytes = vstd::slice::slice_subrange(self.data.as_slice(), s, e);
        lossy_string(bytes)
    }

    /// `name#index|` for each base type.
    fn base_types_string(&self, bases: &Vec<(u64, u32)>) -> (r: Option<String>)
        ensures
            match base_types_text(self@.types, bases@) {
                Some(t) => r matches Some(x) && x@ == t,
                None => r is None,
            },
    {
        broadcast use vstd::std_specs::btree::group_btree_axioms;

        proof {
            crate::reflect_type::lemma_u64_keys();
        }
        let mut out: String = String::new();
        let mut i: usize = 0;
        proof {
            assert(bases@.subrange(0, 0) =~= Seq::<(u64, u32)>::empty());
        }
        while i < bases.len()
            invariant
                i <= bases@.len(),
                crate::reflect_type::u64_keys_ordered(),
                base_types_text(self@.types, bases@.subrange(0, i as int)) == Some(out@),
            decreases bases.len() - i,
        {
            let (h, index) = bases[i];
            proof {
                let t = bases@.subrange(0, i + 1);
                assert(t.drop_last() =~= bases@.subrange(0, i as int));
                assert(t.last() == (h, index));
            }
            match self.types.get(&h) {
                Some(ty) => {
                    out.append(ty.name.as_str());
                    out.append("#");
                    let d: String = decimal_string(index as u64);
                    out.append(d.as_str());
                    out.append("|");
                },
                None => {
                    proof {
                        assert(!self@.types.contains_key(h));
                        lemma_base_types_none(self@.types, bases@, i as int + 1);
                    }
                    return None;
                },
            }
            i += 1;
        }
        proof {
            assert(bases@.subrange(0, i as int) =~= bases@);
        }
        Some(out)
    }
}

proof fn lemma_base_types_none(types: Map<u64, SpecType>, bases: Seq<(u64, u32)>, j: int)
    requires
        0 <= j <= bases.len(),
        base_types_text(types, bases.subrange(0, j)) is None,
    ensures
        base_types_text(types, bases) is None,
    decreases bases.len() - j,
{
    if j < bases.len() {
        let t = bases.subrange(0, j + 1);
        assert(t.drop_last() =~= bases.subrange(0, j));
        lemma_base_types_none(types, bases, j + 1);
    } else {
        assert(bases.subrange(0, j) =~= bases);
    }
}

impl DecompiledReflect {
    fn array_elements(&self, parent: &ObjectRef, file_pos: i128, rel: i32, count: usize) -> (r: Option<
        Vec<ObjectRef>,
    >)
        requires
            0 <= file_pos < 0x1_0000_0000_0000_0000_0000,
        ensures
            match array_elements(self@, *parent, file_pos as int, rel as int, count as int) {
                Some(v) => r matches Some(x) && x@ == v,
                None => r is None,
            },
    {
        if count == 0 {
            let v: Vec<ObjectRef> = Vec::new();
            assert(v@ =~= Seq::<ObjectRef>::empty());
            return Some(v);
        }
        let first: i128 = file_pos + rel as i128;
        if find_child(&self.objects, first, parent.id).is_none() {
            return None;
        }
        let ghost owned = owned_from(self.objects@, parent.id, first as int);
        let mut sorted: Vec<ObjectRef> = Vec::new();
        let mut i: usize = 0;
        proof {
            assert(self.objects@.subrange(0, 0) =~= Seq::<ObjectRef>::empty());
        }
        while i < self.objects.len()
            invariant
                i <= self.objects@.len(),
                sorted@ == sort_stable(owned_from(self.objects@.subrange(0, i as int), parent.id, first as int), offset_order()),
            decreases self.objects.len() - i,
        {
            let o: ObjectRef = self.objects[i];
            let ghost t = self.objects@.subrange(0, i + 1);
            proof {
                assert(t.drop_last() =~= self.objects@.subrange(0, i as int));
                assert(t.last() == o);
            }
            if o.owner_id == parent.id && o.data_offset as i128 >= first {
                let ghost before = sorted@;
                let mut p: usize = sorted.len();
                while p > 0 && sorted[p - 1].data_offset > o.data_offset
                    invariant
                        sorted@ == before,
                        p <= sorted@.len(),
                        forall|j: int| p <= j < sorted@.len() ==> #[trigger] sorted@[j].data_offset > o.data_offset,
                    decreases p,
                {
                    p -= 1;
                }
                sorted.insert(p, o);
                proof {
                    lemma_insert_at(before, o, offset_order(), p as int);
                    let ow = owned_from(t, parent.id, first as int);
                    assert(ow == owned_from(t.drop_last(), parent.id, first as int).push(o));
                    assert(ow.drop_last() =~= owned_from(t.drop_last(), parent.id, first as int));
                    assert(ow.last() == o);
                }
            }
            i += 1;
        }
        proof {
            assert(self.objects@.subrange(0, i as int) =~= self.objects@);
        }
        if sorted.len() < count || sorted[0].data_offset as i128 != first {
            return None;
        }
        sorted.truncate(count);
        proof {
            assert(sorted@ =~= sort_stable(owned, offset_order()).subrange(0, count as int));
        }
        Some(sorted)
    }

    #[verifier::rlimit(40)]
    fn raw_array_bytes(&self, array_type: &str, pos: i128, rel: i32, count: usize) -> (r: Option<Vec<u8>>)
        requires
            0 <= pos < 0x1_0000_0000_0000_0000_0000,
            count <= i32::MAX,
        ensures
            match raw_array_bytes(self@, array_type@, pos as int, rel as int, count as int) {
                Some(v) => r matches Some(x) && x@ == v,
                None => r is None,
            },
    {
        if count == 0 {
            return None;
        }
        let elem: String = crate::reflect_type::array_element_type(array_type);
        let size: u32 = match self.size_of_named(elem.as_str()) {
            Some(s) => s,
            None => {
                return None;
            },
        };
        let start: i128 = pos + rel as i128;
        assert(0 <= count * size <= 0x8000_0000 * 0x1_0000_0000) by (nonlinear_arith)
            requires
                count <= i32::MAX,
                size <= u32::MAX,
        ;
        let total: i128 = count as i128 * size as i128;
        if start < 0 || start + total > self.data.len() as i128 {
            return None;
        }
        let s: usize = start as usize;
        let e: usize = (start + total) as usize;
        Some(vstd::slice::slice_to_vec(vstd::slice::slice_subrange(self.data.as_slice(), s, e)))
    }

    fn pointer_targets(&self, pos: i128, rel: i32, count: usize, owner: u64) -> (r: Option<Vec<ObjectRef>>)
        requires
            0 <= pos < 0x1_0000_0000_0000_0000_0000,
            count <= i32::MAX,
        ensures
            match pointer_targets(self@, pos as int, rel as int, count as int, owner) {
                Some(v) => r matches Some(x) && x@ == v,
                None => r is None,
            },
    {
        let block: i128 = pos + rel as i128;
        let mut out: Vec<ObjectRef> = Vec::new();
        let mut j: usize = 0;
        proof {
            assert(out@ =~= Seq::<ObjectRef>::empty());
        }
        while j < count
            invariant
                j <= count <= i32::MAX,
                block == pos + rel,
                -0x8000_0000 <= block < 0x1_0000_0000_0000_0000_0000 + 0x8000_0000,
                targets_upto(self@, block as int, j as nat, owner) == Some(out@),
            decreases count - j,
        {
            let ptr: i128 = block + 8 * j as i128;
            let rel2: u64 = match u64_at_pos(&self.data, ptr) {
                Some(v) => v,
                None => {
                    proof {
                        assert(targets_upto(self@, block as int, (j + 1) as nat, owner) is None);
                        lemma_targets_none(self@, block as int, (j + 1) as nat, count as nat, owner);
                    }
                    return None;
                },
            };
            let signed: i64 = #[verifier::truncate] (rel2 as i64);
            let target: i128 = ptr + signed as i128 + self.rfci_offset as i128;
            match find_child(&self.objects, target, owner) {
                Some(c) => {
                    out.push(c);
                    proof {
                        assert(targets_upto(self@, block as int, (j + 1) as nat, owner) == Some(out@));
                    }
                },
                None => {
                    proof {
                        assert(targets_upto(self@, block as int, (j + 1) as nat, owner) is None);
                        lemma_targets_none(self@, block as int, (j + 1) as nat, count as nat, owner);
                    }
                    return None;
                },
            }
            j += 1;
        }
        Some(out)
    }
}

proof fn lemma_targets_none(d: SpecDecompiled, block: int, j: nat, n: nat, owner: u64)
    requires
        j <= n,
        targets_upto(d, block, j, owner) is None,
    ensures
        targets_upto(d, block, n, owner) is None,
    decreases n - j,
{
    if j < n {
        lemma_targets_none(d, block, j + 1, n, owner);
    }
}

// ---------------------------------------------------------------------------
// The object graph
// ---------------------------------------------------------------------------
/// The objects built so far, each once, and the ids already taken.
pub struct BuildState {
    pub emitted: Set<u64>,
    pub graph: Seq<SpecRdoObject>,
}

pub open spec fn starts_with(t: Seq<char>, p: Seq<char>) -> bool {
    t.len() >= p.len() && t.subrange(0, p.len() as int) == p
}

pub open spec fn not_negative(x: int) -> int {
    if x < 0 {
        0
    } else {
        x
    }
}

/// The `.rdo` object of `obj`, built after everything it holds; nothing
/// when its type is unknown or it was built already. `fuel` bounds the
/// nesting.
pub open spec fn spec_build_object(d: SpecDecompiled, obj: ObjectRef, st: BuildState, fuel: nat) -> BuildState
    decreases fuel, 5int, 0int,
{
    if !d.types.contains_key(obj.type_hash) || st.emitted.contains(obj.id) || fuel == 0 {
        st
    } else {
        let ty = d.types[obj.type_hash];
        let st1 = BuildState { emitted: st.emitted.insert(obj.id), graph: st.graph };
        let props0 = if ty.bases.len() > 0 {
            match base_types_text(d.types, ty.bases) {
                Some(v) => seq![("#BaseTypes"@, SpecRdoValue::Text(v))],
                None => Seq::empty(),
            }
        } else {
            Seq::empty()
        };
        let (st2, props) = spec_build_content(d, obj, ty, st1, props0, fuel);
        BuildState {
            emitted: st2.emitted,
            graph: st2.graph.push(SpecRdoObject { id: obj.id, ty_name: ty.name, owner_id: obj.owner_id, props }),
        }
    }
}

/// The properties of an object by its type's kind: an enum's name (or its
/// hash), a string's value, an array's elements, raw bytes, or a property per
/// field.
pub open spec fn spec_build_content(
    d: SpecDecompiled,
    obj: ObjectRef,
    ty: SpecType,
    st: BuildState,
    props: Seq<(Seq<char>, SpecRdoValue)>,
    fuel: nat,
) -> (BuildState, Seq<(Seq<char>, SpecRdoValue)>)
    decreases fuel, 4int, 0int,
{
    let base = spec_base_of(d, obj);
    if spec_is_enum_type(ty.name) {
        let hash = u64_or0(at_u64(d.data, base));
        if d.interned.contains_key(hash) {
            (st, props.push(("m_enumName"@, SpecRdoValue::Text(d.interned[hash]))))
        } else {
            (st, props.push(("m_hashValue"@, SpecRdoValue::Scalar(ScalarType::UInt64, hash))))
        }
    } else {
        let k = kind_of(d, ty.name);
        let rel = i32_or0(at_i32(d.data, base));
        let count = not_negative(i32_or0(at_i32(d.data, base + 8)));
        if k == FieldKind::Str {
            (st, props.push(("m_value"@, SpecRdoValue::Text(read_string(d, base)))))
        } else if k == FieldKind::Array {
            match array_elements(d, obj, obj.data_offset as int, rel, count) {
                Some(ch) => if ch.len() > 0 {
                    spec_children_prop(d, "m_elements"@, ch, st, props, fuel)
                } else {
                    (st, props)
                },
                None => match raw_array_bytes(d, ty.name, base, rel, count) {
                    Some(b) => (st, props.push(("m_elements"@, SpecRdoValue::Bytes(count as u32, b)))),
                    None => (st, props),
                },
            }
        } else if k == FieldKind::PointerArray {
            match pointer_targets(d, base, rel, count, obj.id) {
                Some(ch) => if ch.len() > 0 {
                    spec_children_prop(d, "m_elements"@, ch, st, props, fuel)
                } else {
                    (st, props)
                },
                None => (st, props),
            }
        } else if matches!(k, FieldKind::Opaque) && ty.fields.len() == 0 && ty.size > 0 {
            let size = ty.size as int;
            let bytes = if base + size <= d.data.len() {
                d.data.subrange(base, base + size)
            } else {
                Seq::empty()
            };
            (st, props.push(("#Raw"@, SpecRdoValue::Bytes(ty.size, bytes))))
        } else {
            spec_build_fields(d, obj, ty.fields, st, props, fuel)
        }
    }
}

pub open spec fn spec_build_fields(
    d: SpecDecompiled,
    obj: ObjectRef,
    fields: Seq<SpecField>,
    st: BuildState,
    props: Seq<(Seq<char>, SpecRdoValue)>,
    fuel: nat,
) -> (BuildState, Seq<(Seq<char>, SpecRdoValue)>)
    decreases fuel, 3int, fields.len(),
{
    if fields.len() == 0 {
        (st, props)
    } else {
        let (st1, p1) = spec_build_fields(d, obj, fields.drop_last(), st, props, fuel);
        spec_build_property(d, obj, fields.last(), st1, p1, fuel)
    }
}

/// The scalar type of a 4-byte field type.
pub open spec fn scalar32_type(t: Seq<char>) -> ScalarType {
    if t == "float"@ {
        ScalarType::Float
    } else if has_text(t, "uint32"@) || t == "unsigned int"@ {
        ScalarType::UInt32
    } else {
        ScalarType::Int32
    }
}

/// The scalar type of an 8-byte field type.
pub open spec fn scalar64_type(t: Seq<char>) -> ScalarType {
    if has_text(t, "uint64"@) || starts_with(t, "unsigned"@) {
        ScalarType::UInt64
    } else {
        ScalarType::Int64
    }
}

/// The property of one field of `parent`.
pub open spec fn spec_build_property(
    d: SpecDecompiled,
    parent: ObjectRef,
    f: SpecField,
    st: BuildState,
    props: Seq<(Seq<char>, SpecRdoValue)>,
    fuel: nat,
) -> (BuildState, Seq<(Seq<char>, SpecRdoValue)>)
    decreases fuel, 2int, 0int,
{
    let pos = spec_base_of(d, parent) + f.offset;
    let file_pos = parent.data_offset + f.offset;
    let t = f.ty_name;
    let name = f.name;
    let k = kind_of(d, t);
    let none = (st, props.push((name, SpecRdoValue::Children(Seq::empty()))));
    let rel = i32_or0(at_i32(d.data, pos));
    let count = not_negative(i32_or0(at_i32(d.data, pos + 8)));
    if k == FieldKind::Scalar {
        let bits = match at_u32(d.data, pos) {
            Some(v) => v as u64,
            None => 0,
        };
        (st, props.push((name, SpecRdoValue::Scalar(scalar32_type(t), bits))))
    } else if k == FieldKind::Scalar64 {
        (st, props.push((name, SpecRdoValue::Scalar(scalar64_type(t), u64_or0(at_u64(d.data, pos))))))
    } else if k == FieldKind::Scalar8 {
        let bits = match at_u8(d.data, pos) {
            Some(b) => b as u64,
            None => 0,
        };
        (st, props.push((name, SpecRdoValue::Scalar(ScalarType::UInt8, bits))))
    } else if k == FieldKind::Bool {
        let b = match at_u8(d.data, pos) {
            Some(b) => b != 0,
            None => false,
        };
        (st, props.push((name, SpecRdoValue::Bool(b))))
    } else if k == FieldKind::Str {
        match child_at(d.objects, file_pos, parent.id) {
            Some(c) => spec_children_prop(d, name, seq![c], st, props, fuel),
            None => (st, props.push((name, SpecRdoValue::Text(read_string(d, pos))))),
        }
    } else if k == FieldKind::Embed || k == FieldKind::Enum || k == FieldKind::Opaque {
        match child_at(d.objects, file_pos, parent.id) {
            Some(c) => spec_children_prop(d, name, seq![c], st, props, fuel),
            None => none,
        }
    } else if k == FieldKind::OffsetPointer {
        if rel != 0 {
            match child_at(d.objects, file_pos + rel, parent.id) {
                Some(c) => spec_children_prop(d, name, seq![c], st, props, fuel),
                None => none,
            }
        } else {
            none
        }
    } else {
        match child_at(d.objects, file_pos, parent.id) {
            Some(c) => spec_children_prop(d, name, seq![c], st, props, fuel),
            None => spec_array_property(d, parent, k, t, name, pos, file_pos, rel, count, st, props, fuel),
        }
    }
}

/// An array field with no child object at its own position: the elements
/// it points at, else its raw bytes, else no children.
pub open spec fn spec_array_property(
    d: SpecDecompiled,
    parent: ObjectRef,
    k: FieldKind,
    t: Seq<char>,
    name: Seq<char>,
    pos: int,
    file_pos: int,
    rel: int,
    count: int,
    st: BuildState,
    props: Seq<(Seq<char>, SpecRdoValue)>,
    fuel: nat,
) -> (BuildState, Seq<(Seq<char>, SpecRdoValue)>)
    decreases fuel, 1int, 1int,
{
    let none = (st, props.push((name, SpecRdoValue::Children(Seq::empty()))));
    if k == FieldKind::PointerArray {
        match pointer_targets(d, pos, rel, count, parent.id) {
            Some(ch) => if ch.len() > 0 {
                spec_children_prop(d, name, ch, st, props, fuel)
            } else {
                none
            },
            None => none,
        }
    } else {
        match array_elements(d, parent, file_pos, rel, count) {
            Some(ch) => if ch.len() > 0 {
                spec_children_prop(d, name, ch, st, props, fuel)
            } else {
                none
            },
            None => match raw_array_bytes(d, t, pos, rel, count) {
                Some(b) => (st, props.push((name, SpecRdoValue::Bytes(count as u32, b)))),
                None => none,
            },
        }
    }
}

/// A property naming child objects, and the children built.
pub open spec fn spec_children_prop(
    d: SpecDecompiled,
    name: Seq<char>,
    children: Seq<ObjectRef>,
    st: BuildState,
    props: Seq<(Seq<char>, SpecRdoValue)>,
    fuel: nat,
) -> (BuildState, Seq<(Seq<char>, SpecRdoValue)>)
    decreases fuel, 1int, 0int,
{
    (
        spec_build_all(d, children, st, fuel),
        props.push((name, SpecRdoValue::Children(children.map_values(|c: ObjectRef| c.id)))),
    )
}

pub open spec fn spec_build_all(d: SpecDecompiled, children: Seq<ObjectRef>, st: BuildState, fuel: nat) -> BuildState
    decreases fuel, 0int, children.len(),
{
    if children.len() == 0 || fuel == 0 {
        st
    } else {
        spec_build_object(d, children.last(), spec_build_all(d, children.drop_last(), st, fuel), (fuel - 1) as nat)
    }
}

/// The first object with the id.
pub open spec fn object_with_id(objects: Seq<ObjectRef>, id: u64) -> Option<ObjectRef>
    decreases objects.len(),
{
    if objects.len() == 0 {
        None
    } else if objects[0].id == id {
        Some(objects[0])
    } else {
        object_with_id(objects.subrange(1, objects.len() as int), id)
    }
}

/// The `.rdo` graph of a decompiled container: the root object and all it
/// reaches, each object after the objects it holds.
pub open spec fn spec_to_rdo_graph(d: SpecDecompiled) -> Seq<SpecRdoObject> {
    match object_with_id(d.objects, d.root_id) {
        Some(root) => spec_build_object(
            d,
            root,
            BuildState { emitted: Set::empty(), graph: Seq::empty() },
            (d.objects.len() + 1) as nat,
        ).graph,
        None => Seq::empty(),
    }
}

pub open spec fn ids_of(objects: Seq<ObjectRef>) -> Set<u64> {
    objects.map_values(|o: ObjectRef| o.id).to_set()
}

/// How many of the container's objects are still to be built.
pub open spec fn unbuilt(objects: Seq<ObjectRef>, e: Set<u64>) -> nat {
    ids_of(objects).difference(e).len()
}

pub open spec fn state_of(e: Set<u64>, g: Seq<RdoObject>) -> BuildState {
    BuildState { emitted: e, graph: view_rdo_objects(g) }
}

proof fn lemma_unbuilt_shrinks(objects: Seq<ObjectRef>, e: Set<u64>, e2: Set<u64>)
    requires
        e.subset_of(e2),
    ensures
        unbuilt(objects, e2) <= unbuilt(objects, e),
{
    broadcast use vstd::set::group_set_axioms, vstd::seq_lib::seq_to_set_is_finite;

    let ids = ids_of(objects);
    assert(ids.difference(e2).subset_of(ids.difference(e)));
    vstd::set_lib::lemma_len_subset(ids.difference(e2), ids.difference(e));
}

proof fn lemma_unbuilt_insert(objects: Seq<ObjectRef>, e: Set<u64>, id: u64)
    requires
        ids_of(objects).contains(id),
        !e.contains(id),
    ensures
        unbuilt(objects, e.insert(id)) + 1 == unbuilt(objects, e),
{
    broadcast use vstd::set::group_set_axioms, vstd::seq_lib::seq_to_set_is_finite;

    let ids = ids_of(objects);
    assert(ids.difference(e.insert(id)) =~= ids.difference(e).remove(id));
}

proof fn lemma_in_ids(objects: Seq<ObjectRef>, o: ObjectRef)
    requires
        objects.contains(o),
    ensures
        ids_of(objects).contains(o.id),
{
    let i = choose|i: int| 0 <= i < objects.len() && objects[i] == o;
    let m = objects.map_values(|x: ObjectRef| x.id);
    assert(m[i] == o.id);
    assert(m.contains(o.id));
}

proof fn lemma_child_in(objects: Seq<ObjectRef>, pos: int, owner: u64)
    ensures
        child_at(objects, pos, owner) matches Some(c) ==> objects.contains(c),
    decreases objects.len(),
{
    if objects.len() > 0 {
        let rest = objects.subrange(1, objects.len() as int);
        lemma_child_in(rest, pos, owner);
        match child_at(objects, pos, owner) {
            Some(c) => {
                if objects[0].data_offset == pos && objects[0].owner_id == owner {
                    assert(objects[0] == c);
                } else {
                    let j = choose|j: int| 0 <= j < rest.len() && rest[j] == c;
                    assert(objects[j + 1] == c);
                }
            },
            None => {},
        }
    }
}

fn push_prop(props: &mut Vec<(String, RdoValue)>, name: String, v: RdoValue)
    ensures
        view_props(final(props)@) == view_props(old(props)@).push((name@, view_rdo_value(v))),
{
    props.push((name, v));
    proof {
        assert(view_props(props@) =~= view_props(old(props)@).push((name@, view_rdo_value(v))));
    }
}


proof fn lemma_owned_in(objects: Seq<ObjectRef>, owner: u64, first: int)
    ensures
        forall|i: int|
            0 <= i < owned_from(objects, owner, first).len() ==> objects.contains(
                #[trigger] owned_from(objects, owner, first)[i],
            ),
    decreases objects.len(),
{
    if objects.len() > 0 {
        let d = objects.drop_last();
        lemma_owned_in(d, owner, first);
        let rest = owned_from(d, owner, first);
        let all = owned_from(objects, owner, first);
        assert forall|i: int| 0 <= i < all.len() implies objects.contains(#[trigger] all[i]) by {
            if i < rest.len() {
                assert(all[i] == rest[i]);
                let k = choose|k: int| 0 <= k < d.len() && d[k] == rest[i];
                assert(objects[k] == d[k]);
            } else {
                assert(all[i] == objects.last());
                assert(objects[objects.len() - 1] == objects.last());
            }
        }
    }
}

proof fn lemma_array_in(d: SpecDecompiled, parent: ObjectRef, file_pos: int, rel: int, count: int)
    requires
        0 <= count,
    ensures
        array_elements(d, parent, file_pos, rel, count) matches Some(v) ==> forall|i: int|
            0 <= i < v.len() ==> d.objects.contains(#[trigger] v[i]),
{
    if count != 0 {
        let first = file_pos + rel;
        let owned = owned_from(d.objects, parent.id, first);
        let sorted = sort_stable(owned, offset_order());
        lemma_owned_in(d.objects, parent.id, first);
        crate::rgd_laws::lemma_sort_elems(owned, offset_order());
        if let Some(v) = array_elements(d, parent, file_pos, rel, count) {
            assert forall|i: int| 0 <= i < v.len() implies d.objects.contains(#[trigger] v[i]) by {
                assert(v[i] == sorted[i]);
                assert(sorted.contains(sorted[i]));
                assert(owned.contains(v[i]));
                let k = choose|k: int| 0 <= k < owned.len() && owned[k] == v[i];
            }
        }
    }
}

proof fn lemma_targets_in(d: SpecDecompiled, block: int, j: nat, owner: u64)
    ensures
        targets_upto(d, block, j, owner) matches Some(v) ==> forall|i: int|
            0 <= i < v.len() ==> d.objects.contains(#[trigger] v[i]),
    decreases j,
{
    if j > 0 {
        lemma_targets_in(d, block, (j - 1) as nat, owner);
        let ptr = block + 8 * (j - 1);
        if let Some(rel2) = at_u64(d.data, ptr) {
            lemma_child_in(d.objects, ptr + (rel2 as i64) + d.rfci_offset, owner);
        }
    }
}

proof fn lemma_with_id_in(objects: Seq<ObjectRef>, id: u64)
    ensures
        object_with_id(objects, id) matches Some(c) ==> objects.contains(c),
    decreases objects.len(),
{
    if objects.len() > 0 {
        let rest = objects.subrange(1, objects.len() as int);
        lemma_with_id_in(rest, id);
        if objects[0].id != id {
            if let Some(c) = object_with_id(rest, id) {
                let j = choose|j: int| 0 <= j < rest.len() && rest[j] == c;
                assert(objects[j + 1] == c);
            }
        }
    }
}

fn find_object(objects: &Vec<ObjectRef>, id: u64) -> (r: Option<ObjectRef>)
    ensures
        r == object_with_id(objects@, id),
{
    let mut i: usize = 0;
    proof {
        assert(objects@.subrange(0, objects@.len() as int) =~= objects@);
    }
    while i < objects.len()
        invariant
            i <= objects@.len(),
            object_with_id(objects@, id) == object_with_id(objects@.subrange(i as int, objects@.len() as int), id),
        decreases objects.len() - i,
    {
        let ghost t = objects@.subrange(i as int, objects@.len() as int);
        proof {
            assert(t[0] == objects@[i as int]);
            assert(t.subrange(1, t.len() as int) =~= objects@.subrange(i + 1, objects@.len() as int));
        }
        if objects[i].id == id {
            return Some(objects[i]);
        }
        i += 1;
    }
    None
}

fn scalar32_of(t: &str) -> (r: ScalarType)
    ensures
        r == scalar32_type(t@),
{
    if crate::attrib::str_eq(t, "float") {
        ScalarType::Float
    } else if crate::reflect_type::text_occurs(t, "uint32") || crate::attrib::str_eq(t, "unsigned int") {
        ScalarType::UInt32
    } else {
        ScalarType::Int32
    }
}

fn scalar64_of(t: &str) -> (r: ScalarType)
    ensures
        r == scalar64_type(t@),
{
    if crate::reflect_type::text_occurs(t, "uint64") {
        return ScalarType::UInt64;
    }
    let p: &str = "unsigned";
    if t.unicode_len() >= p.unicode_len() && crate::reflect_type::chars_match(t, 0, p) {
        ScalarType::UInt64
    } else {
        ScalarType::Int64
    }
}

/// The building so far leaves room for every object still to build.
pub open spec fn budget(d: SpecDecompiled, e: Set<u64>, fuel: nat) -> bool {
    fuel >= unbuilt(d.objects, e) + 2
}

/// Each object built takes one id out of those still to build.
pub open spec fn conserves(d: SpecDecompiled, e0: Set<u64>, g0: Seq<RdoObject>, e1: Set<u64>, g1: Seq<RdoObject>) -> bool {
    &&& e0.subset_of(e1)
    &&& g1.len() + unbuilt(d.objects, e1) == g0.len() + unbuilt(d.objects, e0)
}

pub open spec fn built_as(
    r: (BuildState, Seq<(Seq<char>, SpecRdoValue)>),
    e: Set<u64>,
    g: Seq<RdoObject>,
    p: Seq<(String, RdoValue)>,
) -> bool {
    state_of(e, g) == r.0 && view_props(p) == r.1
}

impl DecompiledReflect {
    fn build_object(
        &self,
        obj: &ObjectRef,
        emitted: &mut HashSet<u64>,
        graph: &mut Vec<RdoObject>,
        Ghost(fuel): Ghost<nat>,
    )
        requires
            self@.objects.contains(*obj),
            !old(emitted)@.contains(obj.id) ==> fuel >= unbuilt(self@.objects, old(emitted)@) + 1,
        ensures
            state_of(final(emitted)@, final(graph)@) == spec_build_object(
                self@,
                *obj,
                state_of(old(emitted)@, old(graph)@),
                fuel,
            ),
            conserves(self@, old(emitted)@, old(graph)@, final(emitted)@, final(graph)@),
        decreases fuel, 5int, 0int,
    {
        broadcast use vstd::std_specs::hash::group_hash_axioms;
        broadcast use vstd::std_specs::btree::group_btree_axioms;

        proof {
            crate::reflect_type::lemma_u64_keys();
        }
        let ty: &TypeDef = match self.types.get(&obj.type_hash) {
            Some(t) => t,
            None => {
                return ;
            },
        };
        if emitted.contains(&obj.id) {
            return ;
        }
        let ghost e0 = emitted@;
        let ghost g0 = graph@;
        proof {
            lemma_in_ids(self@.objects, *obj);
            lemma_unbuilt_insert(self@.objects, e0, obj.id);
        }
        emitted.insert(obj.id);
        let mut props: Vec<(String, RdoValue)> = Vec::new();
        proof {
            assert(view_props(props@) =~= Seq::<(Seq<char>, SpecRdoValue)>::empty());
        }
        if ty.bases.len() > 0 {
            if let Some(v) = self.base_types_string(&ty.bases) {
                push_prop(&mut props, String::from_str("#BaseTypes"), RdoValue::String(v));
                proof {
                    assert(view_props(props@) =~= seq![("#BaseTypes"@, SpecRdoValue::Text(v@))]);
                }
            }
        }
        self.build_content(obj, ty, emitted, graph, &mut props, Ghost(fuel));
        let ghost g2 = graph@;
        graph.push(RdoObject { id: obj.id, ty_name: ty.name.clone(), owner_id: obj.owner_id, props });
        proof {
            assert(view_rdo_objects(graph@) =~= view_rdo_objects(g2).push(view_rdo_object(graph@.last())));
        }
    }

    fn children_prop(
        &self,
        name: String,
        children: &Vec<ObjectRef>,
        emitted: &mut HashSet<u64>,
        graph: &mut Vec<RdoObject>,
        props: &mut Vec<(String, RdoValue)>,
        Ghost(fuel): Ghost<nat>,
    )
        requires
            forall|i: int| 0 <= i < children@.len() ==> self@.objects.contains(#[trigger] children@[i]),
            budget(self@, old(emitted)@, fuel),
        ensures
            built_as(
                spec_children_prop(
                    self@,
                    name@,
                    children@,
                    state_of(old(emitted)@, old(graph)@),
                    view_props(old(props)@),
                    fuel,
                ),
                final(emitted)@,
                final(graph)@,
                final(props)@,
            ),
            conserves(self@, old(emitted)@, old(graph)@, final(emitted)@, final(graph)@),
        decreases fuel, 1int, 0int,
    {
        let mut ids: Vec<u64> = Vec::new();
        let mut i: usize = 0;
        while i < children.len()
            invariant
                i <= children@.len(),
                ids@ == children@.subrange(0, i as int).map_values(|c: ObjectRef| c.id),
            decreases children.len() - i,
        {
            ids.push(children[i].id);
            proof {
                assert(children@.subrange(0, i + 1).map_values(|c: ObjectRef| c.id) =~= children@.subrange(
                    0,
                    i as int,
                ).map_values(|c: ObjectRef| c.id).push(children@[i as int].id));
            }
            i += 1;
        }
        proof {
            assert(children@.subrange(0, i as int) =~= children@);
        }
        push_prop(props, name, RdoValue::Children(ids));
        let ghost st0 = state_of(emitted@, graph@);
        let ghost e0 = emitted@;
        let ghost g0 = graph@;
        let mut j: usize = 0;
        proof {
            assert(children@.subrange(0, 0) =~= Seq::<ObjectRef>::empty());
        }
        while j < children.len()
            invariant
                j <= children@.len(),
                forall|i: int| 0 <= i < children@.len() ==> self@.objects.contains(#[trigger] children@[i]),
                budget(self@, emitted@, fuel),
                state_of(emitted@, graph@) == spec_build_all(self@, children@.subrange(0, j as int), st0, fuel),
                conserves(self@, e0, g0, emitted@, graph@),
            decreases children.len() - j,
        {
            let ghost e1 = emitted@;
            let ghost g1 = graph@;
            proof {
                let t = children@.subrange(0, j + 1);
                assert(t.drop_last() =~= children@.subrange(0, j as int));
                assert(t.last() == children@[j as int]);
                assert(self@.objects.contains(children@[j as int]));
            }
            self.build_object(&children[j], emitted, graph, Ghost((fuel - 1) as nat));
            proof {
                lemma_unbuilt_shrinks(self@.objects, e1, emitted@);
            }
            j += 1;
        }
        proof {
            assert(children@.subrange(0, j as int) =~= children@);
        }
    }
}


impl DecompiledReflect {
    #[verifier::rlimit(90)]
    fn build_content(
        &self,
        obj: &ObjectRef,
        ty: &TypeDef,
        emitted: &mut HashSet<u64>,
        graph: &mut Vec<RdoObject>,
        props: &mut Vec<(String, RdoValue)>,
        Ghost(fuel): Ghost<nat>,
    )
        requires
            budget(self@, old(emitted)@, fuel),
        ensures
            built_as(
                spec_build_content(
                    self@,
                    *obj,
                    ty.spec_view(),
                    state_of(old(emitted)@, old(graph)@),
                    view_props(old(props)@),
                    fuel,
                ),
                final(emitted)@,
                final(graph)@,
                final(props)@,
            ),
            conserves(self@, old(emitted)@, old(graph)@, final(emitted)@, final(graph)@),
        decreases fuel, 4int, 0int,
    {
        broadcast use vstd::std_specs::hash::group_hash_axioms;

        let base: i128 = self.base_of(obj) as i128;
        if crate::reflect_type::is_enum_type(ty.name.as_str()) {
            let hash: u64 = match u64_at_pos(&self.data, base) {
                Some(v) => v,
                None => 0,
            };
            match self.interned.get(&hash) {
                Some(value) => push_prop(props, String::from_str("m_enumName"), RdoValue::String(value.clone())),
                None => push_prop(
                    props,
                    String::from_str("m_hashValue"),
                    RdoValue::Scalar { xml_type: ScalarType::UInt64, bits: hash },
                ),
            }
            return ;
        }
        let k: FieldKind = self.kind_of(ty.name.as_str());
        let rel: i32 = match i32_at_pos(&self.data, base) {
            Some(v) => v,
            None => 0,
        };
        let c: i32 = match i32_at_pos(&self.data, base + 8) {
            Some(v) => v,
            None => 0,
        };
        let count: usize = if c < 0 {
            0
        } else {
            c as usize
        };
        match k {
            FieldKind::Str => {
                let v: String = self.read_string(base);
                push_prop(props, String::from_str("m_value"), RdoValue::String(v));
            },
            FieldKind::Array => {
                proof {
                    lemma_array_in(self@, *obj, obj.data_offset as int, rel as int, count as int);
                }
                match self.array_elements(obj, obj.data_offset as i128, rel, count) {
                    Some(ch) => {
                        if ch.len() > 0 {
                            self.children_prop(String::from_str("m_elements"), &ch, emitted, graph, props, Ghost(fuel));
                        }
                    },
                    None => {
                        match self.raw_array_bytes(ty.name.as_str(), base, rel, count) {
                            Some(b) => push_prop(
                                props,
                                String::from_str("m_elements"),
                                RdoValue::Bytes { count: count as u32, data: b },
                            ),
                            None => {},
                        }
                    },
                }
            },
            FieldKind::PointerArray => {
                proof {
                    if count > 0 {
                        lemma_targets_in(self@, base + rel, count as nat, obj.id);
                    }
                }
                match self.pointer_targets(base, rel, count, obj.id) {
                    Some(ch) => {
                        if ch.len() > 0 {
                            self.children_prop(String::from_str("m_elements"), &ch, emitted, graph, props, Ghost(fuel));
                        }
                    },
                    None => {},
                }
            },
            _ => {
                if matches!(k, FieldKind::Opaque) && ty.fields.len() == 0 && ty.size > 0 {
                    let size: usize = ty.size as usize;
                    let bytes: Vec<u8> = if self.base_of(obj) <= self.data.len() && size <= self.data.len()
                        - self.base_of(obj) {
                        let s: usize = self.base_of(obj);
                        vstd::slice::slice_to_vec(vstd::slice::slice_subrange(self.data.as_slice(), s, s + size))
                    } else {
                        Vec::new()
                    };
                    push_prop(props, String::from_str("#Raw"), RdoValue::Bytes { count: ty.size, data: bytes });
                } else {
                    self.build_fields(obj, &ty.fields, emitted, graph, props, Ghost(fuel));
                }
            },
        }
    }

    fn build_fields(
        &self,
        obj: &ObjectRef,
        fields: &Vec<FieldDef>,
        emitted: &mut HashSet<u64>,
        graph: &mut Vec<RdoObject>,
        props: &mut Vec<(String, RdoValue)>,
        Ghost(fuel): Ghost<nat>,
    )
        requires
            budget(self@, old(emitted)@, fuel),
        ensures
            built_as(
                spec_build_fields(
                    self@,
                    *obj,
                    fields@.map_values(|f: FieldDef| f.spec_view()),
                    state_of(old(emitted)@, old(graph)@),
                    view_props(old(props)@),
                    fuel,
                ),
                final(emitted)@,
                final(graph)@,
                final(props)@,
            ),
            conserves(self@, old(emitted)@, old(graph)@, final(emitted)@, final(graph)@),
        decreases fuel, 3int, 0int,
    {
        let ghost fs = fields@.map_values(|f: FieldDef| f.spec_view());
        let ghost st0 = state_of(emitted@, graph@);
        let ghost p0 = view_props(props@);
        let ghost e0 = emitted@;
        let ghost g0 = graph@;
        let mut i: usize = 0;
        proof {
            assert(fs.subrange(0, 0) =~= Seq::<SpecField>::empty());
        }
        while i < fields.len()
            invariant
                i <= fields@.len(),
                fs == fields@.map_values(|f: FieldDef| f.spec_view()),
                budget(self@, emitted@, fuel),
                built_as(spec_build_fields(self@, *obj, fs.subrange(0, i as int), st0, p0, fuel), emitted@, graph@, props@),
                conserves(self@, e0, g0, emitted@, graph@),
            decreases fields.len() - i,
        {
            let ghost e1 = emitted@;
            proof {
                let t = fs.subrange(0, i + 1);
                assert(t.drop_last() =~= fs.subrange(0, i as int));
                assert(t.last() == fields@[i as int].spec_view());
            }
            self.build_property(obj, &fields[i], emitted, graph, props, Ghost(fuel));
            proof {
                lemma_unbuilt_shrinks(self@.objects, e1, emitted@);
            }
            i += 1;
        }
        proof {
            assert(fs.subrange(0, i as int) =~= fs);
        }
    }
}


impl DecompiledReflect {
    fn one_child(
        &self,
        name: String,
        c: ObjectRef,
        emitted: &mut HashSet<u64>,
        graph: &mut Vec<RdoObject>,
        props: &mut Vec<(String, RdoValue)>,
        Ghost(fuel): Ghost<nat>,
    )
        requires
            self@.objects.contains(c),
            budget(self@, old(emitted)@, fuel),
        ensures
            built_as(
                spec_children_prop(
                    self@,
                    name@,
                    seq![c],
                    state_of(old(emitted)@, old(graph)@),
                    view_props(old(props)@),
                    fuel,
                ),
                final(emitted)@,
                final(graph)@,
                final(props)@,
            ),
            conserves(self@, old(emitted)@, old(graph)@, final(emitted)@, final(graph)@),
        decreases fuel, 1int, 1int,
    {
        let v: Vec<ObjectRef> = vec![c];
        proof {
            assert(v@ =~= seq![c]);
        }
        self.children_prop(name, &v, emitted, graph, props, Ghost(fuel));
    }

    #[verifier::rlimit(50)]
    fn build_property(
        &self,
        parent: &ObjectRef,
        f: &FieldDef,
        emitted: &mut HashSet<u64>,
        graph: &mut Vec<RdoObject>,
        props: &mut Vec<(String, RdoValue)>,
        Ghost(fuel): Ghost<nat>,
    )
        requires
            budget(self@, old(emitted)@, fuel),
        ensures
            built_as(
                spec_build_property(
                    self@,
                    *parent,
                    f.spec_view(),
                    state_of(old(emitted)@, old(graph)@),
                    view_props(old(props)@),
                    fuel,
                ),
                final(emitted)@,
                final(graph)@,
                final(props)@,
            ),
            conserves(self@, old(emitted)@, old(graph)@, final(emitted)@, final(graph)@),
        decreases fuel, 2int, 0int,
    {
        let pos: i128 = self.base_of(parent) as i128 + f.offset as i128;
        let file_pos: i128 = parent.data_offset as i128 + f.offset as i128;
        let t: &str = f.ty_name.as_str();
        let name: String = f.name.clone();
        let k: FieldKind = self.kind_of(t);
        let rel: i32 = match i32_at_pos(&self.data, pos) {
            Some(v) => v,
            None => 0,
        };
        let c: i32 = match i32_at_pos(&self.data, pos + 8) {
            Some(v) => v,
            None => 0,
        };
        let count: usize = if c < 0 {
            0
        } else {
            c as usize
        };
        proof {
            lemma_child_in(self@.objects, file_pos as int, parent.id);
            lemma_child_in(self@.objects, file_pos + rel, parent.id);
        }
        match k {
            FieldKind::Scalar => {
                let bits: u64 = match u32_at_pos(&self.data, pos) {
                    Some(v) => v as u64,
                    None => 0,
                };
                push_prop(props, name, RdoValue::Scalar { xml_type: scalar32_of(t), bits });
            },
            FieldKind::Scalar64 => {
                let bits: u64 = match u64_at_pos(&self.data, pos) {
                    Some(v) => v,
                    None => 0,
                };
                push_prop(props, name, RdoValue::Scalar { xml_type: scalar64_of(t), bits });
            },
            FieldKind::Scalar8 => {
                let bits: u64 = match u8_at_pos(&self.data, pos) {
                    Some(b) => b as u64,
                    None => 0,
                };
                push_prop(props, name, RdoValue::Scalar { xml_type: ScalarType::UInt8, bits });
            },
            FieldKind::Bool => {
                let b: bool = match u8_at_pos(&self.data, pos) {
                    Some(b) => b != 0,
                    None => false,
                };
                push_prop(props, name, RdoValue::Bool(b));
            },
            FieldKind::Str => {
                match find_child(&self.objects, file_pos, parent.id) {
                    Some(ch) => self.one_child(name, ch, emitted, graph, props, Ghost(fuel)),
                    None => {
                        let v: String = self.read_string(pos);
                        push_prop(props, name, RdoValue::String(v));
                    },
                }
            },
            FieldKind::Embed | FieldKind::Enum | FieldKind::Opaque => {
                match find_child(&self.objects, file_pos, parent.id) {
                    Some(ch) => self.one_child(name, ch, emitted, graph, props, Ghost(fuel)),
                    None => push_prop(props, name, RdoValue::Children(Vec::new())),
                }
            },
            FieldKind::OffsetPointer => {
                if rel != 0 {
                    match find_child(&self.objects, file_pos + rel as i128, parent.id) {
                        Some(ch) => self.one_child(name, ch, emitted, graph, props, Ghost(fuel)),
                        None => push_prop(props, name, RdoValue::Children(Vec::new())),
                    }
                } else {
                    push_prop(props, name, RdoValue::Children(Vec::new()));
                }
            },
            _ => {
                match find_child(&self.objects, file_pos, parent.id) {
                    Some(ch) => self.one_child(name, ch, emitted, graph, props, Ghost(fuel)),
                    None => self.array_property(parent, k, t, name, pos, file_pos, rel, count, emitted, graph, props, Ghost(fuel)),
                }
            },
        }
    }

    #[verifier::rlimit(50)]
    fn array_property(
        &self,
        parent: &ObjectRef,
        k: FieldKind,
        t: &str,
        name: String,
        pos: i128,
        file_pos: i128,
        rel: i32,
        count: usize,
        emitted: &mut HashSet<u64>,
        graph: &mut Vec<RdoObject>,
        props: &mut Vec<(String, RdoValue)>,
        Ghost(fuel): Ghost<nat>,
    )
        requires
            0 <= pos < 0x1_0000_0000_0000_0000_0000,
            0 <= file_pos < 0x1_0000_0000_0000_0000_0000,
            count <= i32::MAX,
            budget(self@, old(emitted)@, fuel),
        ensures
            built_as(
                spec_array_property(
                    self@,
                    *parent,
                    k,
                    t@,
                    name@,
                    pos as int,
                    file_pos as int,
                    rel as int,
                    count as int,
                    state_of(old(emitted)@, old(graph)@),
                    view_props(old(props)@),
                    fuel,
                ),
                final(emitted)@,
                final(graph)@,
                final(props)@,
            ),
            conserves(self@, old(emitted)@, old(graph)@, final(emitted)@, final(graph)@),
        decreases fuel, 1int, 2int,
    {
        if matches!(k, FieldKind::PointerArray) {
            proof {
                if count > 0 {
                    lemma_targets_in(self@, pos + rel, count as nat, parent.id);
                }
            }
            match self.pointer_targets(pos, rel, count, parent.id) {
                Some(ch) => {
                    if ch.len() > 0 {
                        self.children_prop(name, &ch, emitted, graph, props, Ghost(fuel));
                    } else {
                        push_prop(props, name, RdoValue::Children(Vec::new()));
                    }
                },
                None => push_prop(props, name, RdoValue::Children(Vec::new())),
            }
        } else {
            proof {
                lemma_array_in(self@, *parent, file_pos as int, rel as int, count as int);
            }
            match self.array_elements(parent, file_pos, rel, count) {
                Some(ch) => {
                    if ch.len() > 0 {
                        self.children_prop(name, &ch, emitted, graph, props, Ghost(fuel));
                    } else {
                        push_prop(props, name, RdoValue::Children(Vec::new()));
                    }
                },
                None => match self.raw_array_bytes(t, pos, rel, count) {
                    Some(b) => push_prop(props, name, RdoValue::Bytes { count: count as u32, data: b }),
                    None => push_prop(props, name, RdoValue::Children(Vec::new())),
                },
            }
        }
    }
}


impl DecompiledReflect {
    /// The `.rdo` object graph of the container: the object with the root id
    /// and everything it reaches, each object once, after the objects it
    /// holds.
    pub fn to_rdo_graph(&self) -> (r: RdoGraph)
        ensures
            view_rdo_objects(r.objects@) == spec_to_rdo_graph(self@),
            r.objects@.len() <= self.objects@.len(),
    {
        let mut emitted: HashSet<u64> = HashSet::new();
        let mut graph: Vec<RdoObject> = Vec::new();
        proof {
            assert(view_rdo_objects(graph@) =~= Seq::<SpecRdoObject>::empty());
            let ids = self@.objects.map_values(|o: ObjectRef| o.id);
            ids.lemma_cardinality_of_set();
            assert(ids_of(self@.objects).difference(Set::empty()) =~= ids_of(self@.objects));
        }
        match find_object(&self.objects, self.root_id) {
            Some(root) => {
                proof {
                    lemma_with_id_in(self@.objects, self.root_id);
                }
                self.build_object(&root, &mut emitted, &mut graph, Ghost((self.objects.len() + 1) as nat));
            },
            None => {},
        }
        RdoGraph { objects: graph }
    }

    /// The container as `.rdo` text: the text of its object graph; `fmt`
    /// writes the text of a float from its bits.
    pub fn to_rdo_xml<F: Fn(u32) -> String>(&self, fmt: F) -> (r: String)
        requires
            forall|b: u32| #[trigger] fmt.requires((b,)),
            2 * self.objects@.len() + 6 < usize::MAX,
        ensures
            exists|g: Seq<RdoObject>|
                #[trigger] view_rdo_objects(g) == spec_to_rdo_graph(self@) && forall|h: spec_fn(u32) -> Seq<char>|
                    formats_floats_as(fmt, h) ==> r@ == #[trigger] spec_to_xml(g, h),
    {
        let graph = self.to_rdo_graph();
        let r = graph.to_xml(fmt);
        proof {
            assert(view_rdo_objects(graph.objects@) == spec_to_rdo_graph(self@));
        }
        r
    }
}

} // verus!
