//! Compiling an `.rdo` object graph into reflection data: laying the
//! objects out in the `RFCI` blob and building the tables that describe them.
use vstd::prelude::*;

use std::collections::HashMap;

use vstd::string::{StrSliceExecFns, StringExecFns};

use crate::attrib::str_eq;
use crate::rgd_write::{insert_stable, lemma_insert_at};
use crate::hash::spec_city_hash64;
use crate::le::{bytes32, bytes64};
use crate::paths::lowercase;
use crate::rdo::{view_rdo_objects, RdoObject, RdoValue, SpecRdoObject, SpecRdoValue};
use crate::reflect_type::{
    first_named, kind_by_name, spec_classify, spec_is_enum_type, FieldDef, FieldKind, SchemaRegistry, SpecField,
    SpecType, TypeDef,
};

verus! {

/// The file offset of the `RFCI` blob: the file header (24 bytes) and the
/// chunk header (20 bytes) come first.
pub const RFCI_FILE_OFFSET: u32 = 44;

/// The blob opens with a reserved word before the root object's data.
pub const RFCI_PREFIX: u32 = 4;

/// The largest blob offset: offsets are stored as `i32`.
pub const BLOB_LIMIT: u32 = 0x7fff_ffff;

/// Why an object graph could not be laid out.
#[derive(Debug, Clone, Copy, PartialEq, Eq)]
pub enum PlaceError {
    /// A child id that no object has.
    MissingChild(u64),
    /// The blob would grow past `BLOB_LIMIT`.
    TooLarge,
    /// Objects or types that contain themselves.
    TooDeep,
}

// ---------------------------------------------------------------------------
// Reading an object's properties
// ---------------------------------------------------------------------------
/// The kinds of leaf property an object holds.
#[derive(Debug, Clone, Copy, PartialEq, Eq)]
pub enum PropKind {
    Scalar,
    Flag,
    Text,
    Raw,
}

pub open spec fn has_kind(v: SpecRdoValue, k: PropKind) -> bool {
    match v {
        SpecRdoValue::Scalar(_, _) => k == PropKind::Scalar,
        SpecRdoValue::Bool(_) => k == PropKind::Flag,
        SpecRdoValue::Text(_) => k == PropKind::Text,
        SpecRdoValue::Bytes(_, _) => k == PropKind::Raw,
        SpecRdoValue::Children(_) => false,
    }
}

/// The index of the last property named `name` of kind `k`: a later
/// property replaces an earlier one.
pub open spec fn last_index(p: Seq<(Seq<char>, SpecRdoValue)>, name: Seq<char>, k: PropKind) -> Option<int>
    decreases p.len(),
{
    if p.len() == 0 {
        None
    } else if p.last().0 == name && has_kind(p.last().1, k) {
        Some(p.len() - 1)
    } else {
        last_index(p.drop_last(), name, k)
    }
}

pub open spec fn scalar_or0(p: Seq<(Seq<char>, SpecRdoValue)>, name: Seq<char>) -> u64 {
    match last_index(p, name, PropKind::Scalar) {
        Some(i) => match p[i].1 {
            SpecRdoValue::Scalar(_, bits) => bits,
            _ => 0,
        },
        None => 0,
    }
}

pub open spec fn scalar_of(p: Seq<(Seq<char>, SpecRdoValue)>, name: Seq<char>) -> Option<u64> {
    match last_index(p, name, PropKind::Scalar) {
        Some(i) => Some(scalar_or0(p, name)),
        None => None,
    }
}

pub open spec fn flag_or_false(p: Seq<(Seq<char>, SpecRdoValue)>, name: Seq<char>) -> bool {
    match last_index(p, name, PropKind::Flag) {
        Some(i) => match p[i].1 {
            SpecRdoValue::Bool(b) => b,
            _ => false,
        },
        None => false,
    }
}

pub open spec fn text_or_empty(p: Seq<(Seq<char>, SpecRdoValue)>, name: Seq<char>) -> Seq<char> {
    match last_index(p, name, PropKind::Text) {
        Some(i) => match p[i].1 {
            SpecRdoValue::Text(s) => s,
            _ => Seq::empty(),
        },
        None => Seq::empty(),
    }
}

pub open spec fn raw_of(p: Seq<(Seq<char>, SpecRdoValue)>, name: Seq<char>) -> Option<(u32, Seq<u8>)> {
    match last_index(p, name, PropKind::Raw) {
        Some(i) => match p[i].1 {
            SpecRdoValue::Bytes(c, b) => Some((c, b)),
            _ => None,
        },
        None => None,
    }
}

/// The ids that the object-valued properties named `name` list, in order.
pub open spec fn child_ids(p: Seq<(Seq<char>, SpecRdoValue)>, name: Seq<char>) -> Seq<u64>
    decreases p.len(),
{
    if p.len() == 0 {
        Seq::empty()
    } else {
        let rest = child_ids(p.drop_last(), name);
        match p.last().1 {
            SpecRdoValue::Children(ids) => if p.last().0 == name {
                rest + ids
            } else {
                rest
            },
            _ => rest,
        }
    }
}

fn kind_matches(v: &RdoValue, k: PropKind) -> (r: bool)
    ensures
        r == has_kind(crate::rdo::view_rdo_value(*v), k),
{
    match v {
        RdoValue::Scalar { .. } => matches!(k, PropKind::Scalar),
        RdoValue::Bool(_) => matches!(k, PropKind::Flag),
        RdoValue::String(_) => matches!(k, PropKind::Text),
        RdoValue::Bytes { .. } => matches!(k, PropKind::Raw),
        RdoValue::Children(_) => false,
    }
}

proof fn lemma_last_index(p: Seq<(Seq<char>, SpecRdoValue)>, name: Seq<char>, k: PropKind)
    ensures
        last_index(p, name, k) matches Some(i) ==> 0 <= i < p.len() && p[i].0 == name && has_kind(p[i].1, k),
    decreases p.len(),
{
    if p.len() > 0 {
        lemma_last_index(p.drop_last(), name, k);
    }
}

pub(crate) fn find_last(props: &Vec<(String, RdoValue)>, name: &str, k: PropKind) -> (r: Option<usize>)
    ensures
        match r {
            Some(i) => last_index(crate::rdo::view_props(props@), name@, k) == Some(i as int) && i
                < props@.len(),
            None => last_index(crate::rdo::view_props(props@), name@, k) is None,
        },
{
    proof {
        lemma_last_index(crate::rdo::view_props(props@), name@, k);
    }
    let ghost p = crate::rdo::view_props(props@);
    let mut found: Option<usize> = None;
    let mut i: usize = 0;
    proof {
        assert(p.subrange(0, 0) =~= Seq::<(Seq<char>, SpecRdoValue)>::empty());
    }
    while i < props.len()
        invariant
            i <= props@.len(),
            p == crate::rdo::view_props(props@),
            match found {
                Some(j) => last_index(p.subrange(0, i as int), name@, k) == Some(j as int) && j < i,
                None => last_index(p.subrange(0, i as int), name@, k) is None,
            },
        decreases props.len() - i,
    {
        proof {
            let t = p.subrange(0, i + 1);
            assert(t.drop_last() =~= p.subrange(0, i as int));
            assert(t.last() == p[i as int]);
        }
        if str_eq(props[i].0.as_str(), name) && kind_matches(&props[i].1, k) {
            found = Some(i);
        }
        i += 1;
    }
    proof {
        assert(p.subrange(0, i as int) =~= p);
    }
    found
}

pub(crate) fn get_scalar(props: &Vec<(String, RdoValue)>, name: &str) -> (r: Option<u64>)
    ensures
        r == scalar_of(crate::rdo::view_props(props@), name@),
{
    let ghost p = crate::rdo::view_props(props@);
    match find_last(props, name, PropKind::Scalar) {
        Some(i) => {
            proof {
                lemma_last_index(p, name@, PropKind::Scalar);
                assert(p[i as int] == (props@[i as int].0@, crate::rdo::view_rdo_value(props@[i as int].1)));
                assert(last_index(p, name@, PropKind::Scalar) == Some(i as int));
                assert(has_kind(p[i as int].1, PropKind::Scalar));
            }
            match &props[i].1 {
                RdoValue::Scalar { bits, .. } => Some(*bits),
                _ => Some(0),
            }
        },
        None => None,
    }
}

pub(crate) fn get_flag(props: &Vec<(String, RdoValue)>, name: &str) -> (r: bool)
    ensures
        r == flag_or_false(crate::rdo::view_props(props@), name@),
{
    match find_last(props, name, PropKind::Flag) {
        Some(i) => {
            proof {
                assert(crate::rdo::view_props(props@)[i as int] == (
                    props@[i as int].0@,
                    crate::rdo::view_rdo_value(props@[i as int].1),
                ));
            }
            match &props[i].1 {
            RdoValue::Bool(b) => *b,
            _ => false,
            }
        },
        None => false,
    }
}

pub(crate) fn get_text(props: &Vec<(String, RdoValue)>, name: &str) -> (r: String)
    ensures
        r@ == text_or_empty(crate::rdo::view_props(props@), name@),
{
    match find_last(props, name, PropKind::Text) {
        Some(i) => {
            proof {
                assert(crate::rdo::view_props(props@)[i as int] == (
                    props@[i as int].0@,
                    crate::rdo::view_rdo_value(props@[i as int].1),
                ));
            }
            match &props[i].1 {
            RdoValue::String(s) => s.clone(),
            _ => String::new(),
            }
        },
        None => String::new(),
    }
}

pub(crate) fn get_raw(props: &Vec<(String, RdoValue)>, name: &str) -> (r: Option<(u32, Vec<u8>)>)
    ensures
        match raw_of(crate::rdo::view_props(props@), name@) {
            Some((c, b)) => r matches Some((rc, rb)) && rc == c && rb@ == b,
            None => r is None,
        },
{
    match find_last(props, name, PropKind::Raw) {
        Some(i) => {
            proof {
                assert(crate::rdo::view_props(props@)[i as int] == (
                    props@[i as int].0@,
                    crate::rdo::view_rdo_value(props@[i as int].1),
                ));
            }
            match &props[i].1 {
            RdoValue::Bytes { count, data } => Some((*count, data.clone())),
            _ => None,
            }
        },
        None => None,
    }
}

pub(crate) fn get_children(props: &Vec<(String, RdoValue)>, name: &str) -> (r: Vec<u64>)
    ensures
        r@ == child_ids(crate::rdo::view_props(props@), name@),
{
    let ghost p = crate::rdo::view_props(props@);
    let mut out: Vec<u64> = Vec::new();
    let mut i: usize = 0;
    proof {
        assert(p.subrange(0, 0) =~= Seq::<(Seq<char>, SpecRdoValue)>::empty());
    }
    while i < props.len()
        invariant
            i <= props@.len(),
            p == crate::rdo::view_props(props@),
            out@ == child_ids(p.subrange(0, i as int), name@),
        decreases props.len() - i,
    {
        proof {
            let t = p.subrange(0, i + 1);
            assert(t.drop_last() =~= p.subrange(0, i as int));
            assert(t.last() == p[i as int]);
        }
        if str_eq(props[i].0.as_str(), name) {
            match &props[i].1 {
                RdoValue::Children(ids) => {
                    let mut j: usize = 0;
                    let ghost before = out@;
                    while j < ids.len()
                        invariant
                            j <= ids@.len(),
                            out@ == before + ids@.subrange(0, j as int),
                        decreases ids.len() - j,
                    {
                        out.push(ids[j]);
                        j += 1;
                        proof {
                            assert(out@ =~= before + ids@.subrange(0, j as int));
                        }
                    }
                    proof {
                        assert(ids@.subrange(0, j as int) =~= ids@);
                    }
                },
                _ => {},
            }
        }
        i += 1;
    }
    proof {
        assert(p.subrange(0, i as int) =~= p);
    }
    out
}

// ---------------------------------------------------------------------------
// Types by name
// ---------------------------------------------------------------------------
/// The type named `name` with the least hash.
#[verifier::opaque]
pub open spec fn type_named(types: Map<u64, TypeDef>, name: Seq<char>) -> Option<SpecType> {
    match first_named(types, name) {
        Some(k) => Some(types[k].spec_view()),
        None => None,
    }
}

/// The layout kind of a type name, asking the registry whether a type has
/// fields.
#[verifier::opaque]
pub open spec fn reg_kind(types: Map<u64, TypeDef>, t: Seq<char>) -> FieldKind {
    spec_classify(
        t,
        match type_named(types, t) {
            Some(ty) => ty.fields.len() > 0,
            None => false,
        },
    )
}

/// The size of the type with that name; 8 for an unknown type.
#[verifier::opaque]
pub open spec fn size_or8(types: Map<u64, TypeDef>, t: Seq<char>) -> int {
    match type_named(types, t) {
        Some(ty) => ty.size as int,
        None => 8,
    }
}

pub(crate) fn kind_in(reg: &SchemaRegistry, t: &str) -> (r: FieldKind)
    ensures
        r == reg_kind(reg.types@, t@),
{
    proof {
        reveal(reg_kind);
        reveal(type_named);
    }
    match kind_by_name(t) {
        Some(k) => k,
        None => match reg.by_name(t) {
            Some(ty) => if ty.fields.len() > 0 {
                FieldKind::Embed
            } else {
                FieldKind::Opaque
            },
            None => FieldKind::Opaque,
        },
    }
}

pub(crate) fn size_in(reg: &SchemaRegistry, t: &str) -> (r: u32)
    ensures
        r as int == size_or8(reg.types@, t@),
{
    proof {
        reveal(size_or8);
        reveal(type_named);
    }
    match reg.by_name(t) {
        Some(ty) => ty.size,
        None => 8,
    }
}

/// Whether values of the type are written as interned hashes.
#[verifier::opaque]
pub open spec fn enum_name(t: Seq<char>) -> bool {
    spec_is_enum_type(t)
}

pub(crate) fn is_enum_name(t: &str) -> (r: bool)
    ensures
        r == enum_name(t@),
{
    proof {
        reveal(enum_name);
    }
    crate::reflect_type::is_enum_type(t)
}

/// The type named `name`, as `type_named` gives it.
pub(crate) fn type_of<'a>(reg: &'a SchemaRegistry, name: &str) -> (r: Option<&'a TypeDef>)
    ensures
        match type_named(reg.types@, name@) {
            Some(t) => r matches Some(x) && x.spec_view() == t,
            None => r is None,
        },
{
    proof {
        reveal(type_named);
    }
    reg.by_name(name)
}

/// The alignment of a field of type `t`; `None` when the types embed each
/// other deeper than `fuel`.
pub open spec fn field_align(types: Map<u64, TypeDef>, t: Seq<char>, fuel: nat) -> Option<int>
    decreases fuel, 1int, 0int,
{
    let k = reg_kind(types, t);
    if k == FieldKind::Str || k == FieldKind::Array || k == FieldKind::PointerArray || k
        == FieldKind::OffsetPointer || k == FieldKind::Scalar64 || k == FieldKind::Enum {
        Some(8)
    } else if k == FieldKind::Scalar {
        Some(4)
    } else if k == FieldKind::Embed {
        type_align(types, t, fuel)
    } else {
        Some(1)
    }
}

/// The alignment of a struct: the widest of its fields; 8 for a type with
/// no fields.
pub open spec fn type_align(types: Map<u64, TypeDef>, name: Seq<char>, fuel: nat) -> Option<int>
    decreases fuel, 0int, 0int,
{
    match type_named(types, name) {
        Some(ty) => if ty.fields.len() > 0 {
            if fuel == 0 {
                None
            } else {
                fields_align(types, ty.fields, (fuel - 1) as nat)
            }
        } else {
            Some(8)
        },
        None => Some(8),
    }
}

pub open spec fn fields_align(types: Map<u64, TypeDef>, fs: Seq<SpecField>, fuel: nat) -> Option<int>
    decreases fuel, 2int, fs.len(),
{
    if fs.len() == 0 {
        Some(1)
    } else {
        match fields_align(types, fs.drop_last(), fuel) {
            None => None,
            Some(a) => match field_align(types, fs.last().ty_name, fuel) {
                None => None,
                Some(b) => Some(
                    if a < b {
                        b
                    } else {
                        a
                    },
                ),
            },
        }
    }
}

pub open spec fn is_align(a: int) -> bool {
    a == 1 || a == 4 || a == 8
}

impl SchemaRegistry {
    fn field_align_of(&self, t: &str, fuel: usize) -> (r: Option<u32>)
        ensures
            match field_align(self.types@, t@, fuel as nat) {
                Some(a) => is_align(a) && r == Some(a as u32),
                None => r is None,
            },
        decreases fuel, 1int,
    {
        match kind_in(self, t) {
            FieldKind::Str | FieldKind::Array | FieldKind::PointerArray | FieldKind::OffsetPointer
            | FieldKind::Scalar64 | FieldKind::Enum => Some(8),
            FieldKind::Scalar => Some(4),
            FieldKind::Embed => self.type_align_of(t, fuel),
            _ => Some(1),
        }
    }

    fn type_align_of(&self, name: &str, fuel: usize) -> (r: Option<u32>)
        ensures
            match type_align(self.types@, name@, fuel as nat) {
                Some(a) => is_align(a) && r == Some(a as u32),
                None => r is None,
            },
        decreases fuel, 0int,
    {
        proof {
            reveal(type_named);
        }
        let ty: &TypeDef = match self.by_name(name) {
            Some(t) => t,
            None => {
                return Some(8);
            },
        };
        if ty.fields.len() == 0 {
            return Some(8);
        }
        if fuel == 0 {
            return None;
        }
        self.fields_align_of(&ty.fields, fuel - 1)
    }

    fn fields_align_of(&self, fields: &Vec<FieldDef>, fuel: usize) -> (r: Option<u32>)
        ensures
            match fields_align(self.types@, fields@.map_values(|f: FieldDef| f.spec_view()), fuel as nat) {
                Some(a) => is_align(a) && r == Some(a as u32),
                None => r is None,
            },
        decreases fuel, 2int,
    {
        let ghost fs = fields@.map_values(|f: FieldDef| f.spec_view());
        let mut best: u32 = 1;
        let mut i: usize = 0;
        proof {
            assert(fs.subrange(0, 0) =~= Seq::<SpecField>::empty());
        }
        while i < fields.len()
            invariant
                i <= fields@.len(),
                fs == fields@.map_values(|f: FieldDef| f.spec_view()),
                fields_align(self.types@, fs.subrange(0, i as int), fuel as nat) == Some(best as int),
                is_align(best as int),
            decreases fields.len() - i,
        {
            proof {
                let t = fs.subrange(0, i + 1);
                assert(t.drop_last() =~= fs.subrange(0, i as int));
                assert(t.last() == fields@[i as int].spec_view());
            }
            let fa = self.field_align_of(fields[i].ty_name.as_str(), fuel);
            match fa {
                Some(a) => {
                    if best < a {
                        best = a;
                    }
                },
                None => {
                    proof {
                        lemma_fields_align_none(self.types@, fs, i as int + 1, fuel as nat);
                    }
                    return None;
                },
            }
            i += 1;
        }
        proof {
            assert(fs.subrange(0, i as int) =~= fs);
        }
        Some(best)
    }
}

proof fn lemma_fields_align_none(types: Map<u64, TypeDef>, fs: Seq<SpecField>, j: int, fuel: nat)
    requires
        0 <= j <= fs.len(),
        fields_align(types, fs.subrange(0, j), fuel) is None,
    ensures
        fields_align(types, fs, fuel) is None,
    decreases fs.len() - j,
{
    if j < fs.len() {
        assert(fs.subrange(0, j + 1).drop_last() =~= fs.subrange(0, j));
        lemma_fields_align_none(types, fs, j + 1, fuel);
    } else {
        assert(fs.subrange(0, j) =~= fs);
    }
}

/// `rel` rounded up so that its file position (`rel + 44`) is a multiple of
/// `align`.
pub open spec fn align_file(rel: int, align: int) -> int {
    ((RFCI_FILE_OFFSET + rel + align - 1) / align) * align - RFCI_FILE_OFFSET
}

fn align_file_exec(rel: u32, align: u32) -> (r: u64)
    requires
        rel <= BLOB_LIMIT,
        is_align(align as int),
    ensures
        r as int == align_file(rel as int, align as int),
        rel <= r <= rel + 7,
{
    let p: u64 = RFCI_FILE_OFFSET as u64 + rel as u64 + align as u64 - 1;
    let q: u64 = p / align as u64;
    assert(q * align <= p && p < q * align + align) by (nonlinear_arith)
        requires
            q == p / (align as u64),
            align > 0,
    ;
    let r: u64 = q * align as u64 - RFCI_FILE_OFFSET as u64;
    r
}


// ---------------------------------------------------------------------------
// The blob being laid out
// ---------------------------------------------------------------------------
/// An 8-byte relative pointer written into the blob: its file offset, the
/// index of the object it points at, and that object's blob offset.
#[derive(Debug, Clone, Copy, PartialEq, Eq)]
pub struct PointerRecord {
    pub file_off: u32,
    pub target: usize,
    pub target_off: u32,
}

/// The blob so far and what the tables need: the append cursor, each object
/// placed with its blob offset, the interned strings, and every pointer.
pub struct Placement {
    pub blob: Vec<u8>,
    pub next: u32,
    pub order: Vec<(usize, u32)>,
    pub rshi: Vec<(u64, String)>,
    pub pointers: Vec<PointerRecord>,
}

pub struct SpecPlacement {
    pub blob: Seq<u8>,
    pub next: int,
    pub order: Seq<(usize, u32)>,
    pub rshi: Seq<(u64, Seq<char>)>,
    pub pointers: Seq<PointerRecord>,
}

pub open spec fn view_pairs(v: Seq<(u64, String)>) -> Seq<(u64, Seq<char>)> {
    v.map_values(|p: (u64, String)| (p.0, p.1@))
}

impl View for Placement {
    type V = SpecPlacement;

    open spec fn view(&self) -> SpecPlacement {
        SpecPlacement {
            blob: self.blob@,
            next: self.next as int,
            order: self.order@,
            rshi: view_pairs(self.rshi@),
            pointers: self.pointers@,
        }
    }
}

pub open spec fn wf_placement(st: SpecPlacement) -> bool {
    st.blob.len() <= BLOB_LIMIT && 0 <= st.next <= BLOB_LIMIT
}

/// `b` padded with zeros to `end` bytes.
pub open spec fn grown(b: Seq<u8>, end: int) -> Seq<u8> {
    if b.len() < end {
        b + Seq::new((end - b.len()) as nat, |i: int| 0u8)
    } else {
        b
    }
}

/// The blob made at least `end` bytes long.
pub open spec fn grow(st: SpecPlacement, end: int) -> Result<SpecPlacement, PlaceError> {
    if end > BLOB_LIMIT {
        Err(PlaceError::TooLarge)
    } else {
        Ok(SpecPlacement { blob: grown(st.blob, end), ..st })
    }
}

/// `bytes` written at `off`.
pub open spec fn put(st: SpecPlacement, off: int, bytes: Seq<u8>) -> Result<SpecPlacement, PlaceError> {
    match grow(st, off + bytes.len()) {
        Err(e) => Err(e),
        Ok(s) => Ok(
            SpecPlacement {
                blob: s.blob.subrange(0, off) + bytes + s.blob.subrange(off + bytes.len(), s.blob.len() as int),
                ..s
            },
        ),
    }
}

/// The bits of a 32-bit two's complement value.
pub open spec fn i32_bits(d: int) -> int {
    if d >= 0 {
        d
    } else {
        d + 0x1_0000_0000
    }
}

/// The bits of a 64-bit two's complement value.
pub open spec fn i64_bits(d: int) -> int {
    if d >= 0 {
        d
    } else {
        d + 0x1_0000_0000_0000_0000
    }
}

pub open spec fn max_int(a: int, b: int) -> int {
    if a < b {
        b
    } else {
        a
    }
}

/// The append cursor moved to the next `align`-aligned free position.
pub open spec fn append(st: SpecPlacement, align: int) -> Result<SpecPlacement, PlaceError> {
    let p = align_file(max_int(st.next, st.blob.len() as int), align);
    if p > BLOB_LIMIT {
        Err(PlaceError::TooLarge)
    } else {
        Ok(SpecPlacement { next: p, ..st })
    }
}

/// An interned value, kept once per hash, first seen first.
pub open spec fn intern(st: SpecPlacement, h: u64, v: Seq<char>) -> SpecPlacement {
    if exists|i: int| 0 <= i < st.rshi.len() && #[trigger] st.rshi[i].0 == h {
        st
    } else {
        SpecPlacement { rshi: st.rshi.push((h, v)), ..st }
    }
}

fn le_bytes32(x: u32) -> (r: [u8; 4])
    ensures
        r@ == bytes32(x as int),
{
    let r: [u8; 4] = [(x % 256) as u8, ((x / 256) % 256) as u8, ((x / 65536) % 256) as u8, ((x
        / 16777216) % 256) as u8];
    assert(r@ =~= bytes32(x as int));
    r
}

fn le_bytes64(x: u64) -> (r: [u8; 8])
    ensures
        r@ == bytes64(x as int),
{
    let lo: [u8; 4] = le_bytes32((x % 4294967296) as u32);
    let hi: [u8; 4] = le_bytes32((x / 4294967296) as u32);
    let r: [u8; 8] = [lo[0], lo[1], lo[2], lo[3], hi[0], hi[1], hi[2], hi[3]];
    assert(r@ =~= bytes64(x as int));
    r
}

impl Placement {
    pub(crate) fn grow(&mut self, end: u64) -> (r: Result<(), PlaceError>)
        requires
            wf_placement(old(self)@),
        ensures
            match grow(old(self)@, end as int) {
                Ok(s) => r is Ok && final(self)@ == s && wf_placement(s),
                Err(e) => r matches Err(x) && x == e,
            },
    {
        if end > BLOB_LIMIT as u64 {
            return Err(PlaceError::TooLarge);
        }
        let ghost start = self.blob@;
        let ghost st0 = self@;
        while self.blob.len() < end as usize
            invariant
                end <= BLOB_LIMIT,
                self@ == (SpecPlacement { blob: self.blob@, ..st0 }),
                start == st0.blob,
                start.len() <= self.blob@.len() <= BLOB_LIMIT,
                start.len() < end ==> self.blob@.len() <= end,
                start.len() >= end ==> self.blob@.len() == start.len(),
                self.blob@ == start + Seq::new((self.blob@.len() - start.len()) as nat, |i: int| 0u8),
            decreases end - self.blob@.len(),
        {
            let ghost before = self.blob@;
            self.blob.push(0);
            proof {
                assert(self.blob@ =~= start + Seq::new((self.blob@.len() - start.len()) as nat, |i: int| 0u8));
            }
        }
        proof {
            if start.len() >= end {
                assert(self.blob@ =~= start);
            }
        }
        Ok(())
    }

    pub(crate) fn put(&mut self, off: u64, bytes: &[u8]) -> (r: Result<(), PlaceError>)
        requires
            wf_placement(old(self)@),
            off < 0x1_0000_0000_0000,
        ensures
            match put(old(self)@, off as int, bytes@) {
                Ok(s) => r is Ok && final(self)@ == s && wf_placement(s),
                Err(e) => r matches Err(x) && x == e,
            },
    {
        if bytes.len() as u64 > BLOB_LIMIT as u64 {
            return Err(PlaceError::TooLarge);
        }
        let end: u64 = off + bytes.len() as u64;
        match self.grow(end) {
            Err(e) => {
                return Err(e);
            },
            Ok(()) => {},
        }
        let ghost g = self.blob@;
        let ghost st0 = self@;
        let mut i: usize = 0;
        while i < bytes.len()
            invariant
                i <= bytes@.len(),
                self@ == (SpecPlacement { blob: self.blob@, ..st0 }),
                g == st0.blob,
                off + bytes@.len() <= g.len(),
                g.len() <= BLOB_LIMIT,
                self.blob@ == g.subrange(0, off as int) + bytes@.subrange(0, i as int) + g.subrange(
                    off + i,
                    g.len() as int,
                ),
            decreases bytes.len() - i,
        {
            let ghost before = self.blob@;
            self.blob.set(off as usize + i, bytes[i]);
            proof {
                assert(self.blob@ =~= g.subrange(0, off as int) + bytes@.subrange(0, i + 1) + g.subrange(
                    off + i + 1,
                    g.len() as int,
                ));
            }
            i += 1;
        }
        proof {
            assert(bytes@.subrange(0, i as int) =~= bytes@);
        }
        Ok(())
    }

    pub(crate) fn put32(&mut self, off: u64, v: u32) -> (r: Result<(), PlaceError>)
        requires
            wf_placement(old(self)@),
            off < 0x1_0000_0000_0000,
        ensures
            match put(old(self)@, off as int, bytes32(v as int)) {
                Ok(s) => r is Ok && final(self)@ == s && wf_placement(s),
                Err(e) => r matches Err(x) && x == e,
            },
    {
        let b: [u8; 4] = le_bytes32(v);
        self.put(off, &b)
    }

    pub(crate) fn put64(&mut self, off: u64, v: u64) -> (r: Result<(), PlaceError>)
        requires
            wf_placement(old(self)@),
            off < 0x1_0000_0000_0000,
        ensures
            match put(old(self)@, off as int, bytes64(v as int)) {
                Ok(s) => r is Ok && final(self)@ == s && wf_placement(s),
                Err(e) => r matches Err(x) && x == e,
            },
    {
        let b: [u8; 8] = le_bytes64(v);
        self.put(off, &b)
    }

    /// Writes the signed offset from `off` to `to` as an `i32` at `off`.
    pub(crate) fn put_rel32(&mut self, off: u64, to: u64) -> (r: Result<(), PlaceError>)
        requires
            wf_placement(old(self)@),
            off < 0x1_0000_0000_0000,
            to <= BLOB_LIMIT,
        ensures
            match put(old(self)@, off as int, bytes32(i32_bits(to - off))) {
                Ok(s) => r is Ok && final(self)@ == s && wf_placement(s),
                Err(e) => r matches Err(x) && x == e,
            },
    {
        if off + 4 > BLOB_LIMIT as u64 {
            return Err(PlaceError::TooLarge);
        }
        let v: u32 = if to >= off {
            (to - off) as u32
        } else {
            (0x1_0000_0000u64 - (off - to)) as u32
        };
        self.put32(off, v)
    }

    /// Moves the append cursor to the next `align`-aligned free position and
    /// returns it.
    pub(crate) fn append(&mut self, align: u32) -> (r: Result<u32, PlaceError>)
        requires
            wf_placement(old(self)@),
            is_align(align as int),
        ensures
            match append(old(self)@, align as int) {
                Ok(s) => r matches Ok(x) && x == s.next && final(self)@ == s && wf_placement(s),
                Err(e) => r matches Err(x) && x == e,
            },
    {
        let base: u32 = if self.next < self.blob.len() as u32 {
            self.blob.len() as u32
        } else {
            self.next
        };
        let p: u64 = align_file_exec(base, align);
        if p > BLOB_LIMIT as u64 {
            return Err(PlaceError::TooLarge);
        }
        self.next = p as u32;
        Ok(self.next)
    }

    pub(crate) fn intern(&mut self, h: u64, v: String)
        ensures
            final(self)@ == intern(old(self)@, h, v@),
    {
        let mut i: usize = 0;
        while i < self.rshi.len()
            invariant
                i <= self.rshi@.len(),
                self@ == old(self)@,
                forall|j: int| 0 <= j < i ==> (#[trigger] self@.rshi[j]).0 != h,
            decreases self.rshi.len() - i,
        {
            if self.rshi[i].0 == h {
                proof {
                    assert(self@.rshi[i as int].0 == h);
                }
                return ;
            }
            i += 1;
        }
        let ghost before = self@;
        self.rshi.push((h, v));
        proof {
            assert(view_pairs(self.rshi@) =~= before.rshi.push((h, v@)));
        }
    }
}


// ---------------------------------------------------------------------------
// Out-of-line pieces
// ---------------------------------------------------------------------------
/// A piece of an object placed out of line, at the field position `fpos`
/// that points at it.
pub enum Item {
    Str { fpos: u64, val: String },
    Array { fpos: u64, children: Vec<u64> },
    RawArray { fpos: u64, count: u32, bytes: Vec<u8> },
    Pointers { fpos: u64, children: Vec<u64> },
    OffsetPointer { fpos: u64, children: Vec<u64> },
}

pub enum SpecItem {
    Str(int, Seq<char>),
    Array(int, Seq<u64>),
    RawArray(int, u32, Seq<u8>),
    Pointers(int, Seq<u64>),
    OffsetPointer(int, Seq<u64>),
}

pub open spec fn view_item(i: Item) -> SpecItem {
    match i {
        Item::Str { fpos, val } => SpecItem::Str(fpos as int, val@),
        Item::Array { fpos, children } => SpecItem::Array(fpos as int, children@),
        Item::RawArray { fpos, count, bytes } => SpecItem::RawArray(fpos as int, count, bytes@),
        Item::Pointers { fpos, children } => SpecItem::Pointers(fpos as int, children@),
        Item::OffsetPointer { fpos, children } => SpecItem::OffsetPointer(fpos as int, children@),
    }
}

pub open spec fn view_items(v: Seq<Item>) -> Seq<SpecItem> {
    v.map_values(|i: Item| view_item(i))
}

pub open spec fn item_pos(i: SpecItem) -> int {
    match i {
        SpecItem::Str(p, _) => p,
        SpecItem::Array(p, _) => p,
        SpecItem::RawArray(p, _, _) => p,
        SpecItem::Pointers(p, _) => p,
        SpecItem::OffsetPointer(p, _) => p,
    }
}

/// Pieces in the order of their field positions.
pub open spec fn item_order() -> spec_fn(SpecItem, SpecItem) -> bool {
    |a: SpecItem, b: SpecItem| item_pos(a) <= item_pos(b)
}

/// A piece added to the pending ones: they stay in field order, pieces of
/// one position in the order they came.
#[verifier::opaque]
pub open spec fn with_item(out: Seq<SpecItem>, x: SpecItem) -> Seq<SpecItem> {
    insert_stable(out, x, item_order())
}

fn item_fpos(i: &Item) -> (r: u64)
    ensures
        r as int == item_pos(view_item(*i)),
{
    match i {
        Item::Str { fpos, .. } => *fpos,
        Item::Array { fpos, .. } => *fpos,
        Item::RawArray { fpos, .. } => *fpos,
        Item::Pointers { fpos, .. } => *fpos,
        Item::OffsetPointer { fpos, .. } => *fpos,
    }
}

pub(crate) fn add_item(out: &mut Vec<Item>, x: Item)
    ensures
        view_items(final(out)@) == with_item(view_items(old(out)@), view_item(x)),
        bounded_items(view_items(old(out)@)) && item_pos(view_item(x)) < 0x4_0000_0000 ==> bounded_items(
            view_items(final(out)@),
        ),
{
    let xp: u64 = item_fpos(&x);
    let ghost before = view_items(out@);
    let mut p: usize = out.len();
    while p > 0 && item_fpos(&out[p - 1]) > xp
        invariant
            view_items(out@) == before,
            p <= out@.len(),
            xp == item_pos(view_item(x)),
            forall|j: int| p <= j < out@.len() ==> item_pos(#[trigger] before[j]) > xp,
        decreases p,
    {
        p -= 1;
    }
    let ghost xv = view_item(x);
    out.insert(p, x);
    proof {
        reveal(with_item);
        lemma_insert_at(before, xv, item_order(), p as int);
        assert(view_items(out@) =~= before.insert(p as int, xv));
        let after = view_items(out@);
        assert forall|i: int| 0 <= i < after.len() implies after[i] == xv || before.contains(#[trigger] after[i]) by {
            if i < p {
                assert(after[i] == before[i]);
            } else if i > p {
                assert(after[i] == before[i - 1]);
            }
        }
    }
}

// ---------------------------------------------------------------------------
// The objects being placed
// ---------------------------------------------------------------------------
/// The index of the last object with the id.
#[verifier::opaque]
pub open spec fn index_of(objects: Seq<SpecRdoObject>, id: u64) -> Option<int>
    decreases objects.len(),
{
    if objects.len() == 0 {
        None
    } else if objects.last().id == id {
        Some(objects.len() - 1)
    } else {
        index_of(objects.drop_last(), id)
    }
}

proof fn lemma_index_of(objects: Seq<SpecRdoObject>, id: u64)
    ensures
        index_of(objects, id) matches Some(i) ==> 0 <= i < objects.len() && objects[i].id == id,
    decreases objects.len(),
{
    reveal(index_of);
    if objects.len() > 0 {
        lemma_index_of(objects.drop_last(), id);
    }
}

/// What the placement reads: the objects, the types, whether strings and
/// arrays appear as objects of their own, and how deep types may embed
/// each other.
/// `by_id` maps each id to the index of its last object, and holds no other id.
pub open spec fn indexes_ids(by_id: Map<u64, usize>, objects: Seq<SpecRdoObject>) -> bool {
    forall|id: u64|
        #![trigger by_id.contains_key(id)]
        #![trigger index_of(objects, id)]
        match index_of(objects, id) {
            Some(j) => by_id.contains_key(id) && by_id[id] as int == j,
            None => !by_id.contains_key(id),
        }
}

pub struct SpecCtx {
    pub objects: Seq<SpecRdoObject>,
    pub types: Map<u64, TypeDef>,
    pub reified: bool,
    pub align_fuel: nat,
}

pub struct Ctx<'a> {
    pub objects: &'a Vec<RdoObject>,
    pub by_id: HashMap<u64, usize>,
    pub registry: &'a SchemaRegistry,
    pub reified: bool,
    pub align_fuel: usize,
}

impl<'a> Ctx<'a> {
    pub open spec fn spec_ctx(&self) -> SpecCtx {
        SpecCtx {
            objects: view_rdo_objects(self.objects@),
            types: self.registry.types@,
            reified: self.reified,
            align_fuel: self.align_fuel as nat,
        }
    }

    pub open spec fn wf(&self) -> bool {
        indexes_ids(self.by_id@, view_rdo_objects(self.objects@))
    }

    pub(crate) fn get(&self, id: u64) -> (r: Result<usize, PlaceError>)
        requires
            self.wf(),
        ensures
            match index_of(self.spec_ctx().objects, id) {
                Some(i) => r matches Ok(x) && x == i && x < self.objects@.len(),
                None => r matches Err(e) && e == PlaceError::MissingChild(id),
            },
    {
        broadcast use vstd::std_specs::hash::group_hash_axioms;

        proof {
            lemma_index_of(self.spec_ctx().objects, id);
            assert(self.spec_ctx().objects.len() == self.objects@.len());
            assert(self.by_id@.contains_key(id) == (index_of(self.spec_ctx().objects, id) is Some));
        }
        match self.by_id.get(&id) {
            Some(i) => {
                proof {
                    assert(self.by_id@[id] == *i);
                    assert(index_of(self.spec_ctx().objects, id) == Some(*i as int));
                }
                Ok(*i)
            },
            None => {
                proof {
                    assert(index_of(self.spec_ctx().objects, id) is None);
                }
                Err(PlaceError::MissingChild(id))
            },
        }
    }
}

/// The alignment of the object with the id.
#[verifier::opaque]
pub open spec fn align_of(ctx: SpecCtx, id: u64) -> Result<int, PlaceError> {
    match index_of(ctx.objects, id) {
        None => Err(PlaceError::MissingChild(id)),
        Some(i) => match type_align(ctx.types, ctx.objects[i].ty_name, ctx.align_fuel) {
            None => Err(PlaceError::TooDeep),
            Some(a) => Ok(a),
        },
    }
}

impl<'a> Ctx<'a> {
    pub(crate) fn align_of(&self, id: u64) -> (r: Result<u32, PlaceError>)
        requires
            self.wf(),
        ensures
            match align_of(self.spec_ctx(), id) {
                Ok(a) => is_align(a) && (r matches Ok(x) && x == a),
                Err(e) => r matches Err(x) && x == e,
            },
    {
        proof {
            reveal(align_of);
        }
        let i: usize = match self.get(id) {
            Ok(i) => i,
            Err(e) => {
                return Err(e);
            },
        };
        proof {
            assert(self.spec_ctx().objects[i as int].ty_name == self.objects@[i as int].ty_name@);
        }
        match self.registry.type_align_of(self.objects[i].ty_name.as_str(), self.align_fuel) {
            Some(a) => Ok(a),
            None => Err(PlaceError::TooDeep),
        }
    }
}

/// The object that a string or array field's single child is, when the
/// child is itself a string or an array.
pub open spec fn reified_child(ctx: SpecCtx, o: SpecRdoObject, field: Seq<char>) -> Option<int> {
    let ids = child_ids(o.props, field);
    if ids.len() == 1 {
        match index_of(ctx.objects, ids[0]) {
            Some(ci) => {
                let k = reg_kind(ctx.types, ctx.objects[ci].ty_name);
                if k == FieldKind::Str || k == FieldKind::Array || k == FieldKind::PointerArray {
                    Some(ci)
                } else {
                    None
                }
            },
            None => None,
        }
    } else {
        None
    }
}

impl<'a> Ctx<'a> {
    pub(crate) fn reified_child(&self, o: &RdoObject, field: &str) -> (r: Option<usize>)
        requires
            self.wf(),
        ensures
            match reified_child(self.spec_ctx(), crate::rdo::view_rdo_object(*o), field@) {
                Some(ci) => (r matches Some(x) && x as int == ci) && ci < self.objects@.len(),
                None => r is None,
            },
    {
        let ids: Vec<u64> = get_children(&o.props, field);
        if ids.len() != 1 {
            return None;
        }
        let ci: usize = match self.get(ids[0]) {
            Ok(i) => i,
            Err(_) => {
                return None;
            },
        };
        proof {
            assert(self.spec_ctx().objects[ci as int].ty_name == self.objects@[ci as int].ty_name@);
        }
        match kind_in(self.registry, self.objects[ci].ty_name.as_str()) {
            FieldKind::Str | FieldKind::Array | FieldKind::PointerArray => Some(ci),
            _ => None,
        }
    }
}

/// A by-value array piece: its raw bytes when it lists no children and has
/// them, else its children.
pub open spec fn array_item(fpos: int, ch: Seq<u64>, raw: Option<(u32, Seq<u8>)>) -> SpecItem {
    match raw {
        Some((c, b)) => if ch.len() == 0 {
            SpecItem::RawArray(fpos, c, b)
        } else {
            SpecItem::Array(fpos, ch)
        },
        None => SpecItem::Array(fpos, ch),
    }
}

pub(crate) fn array_item_of(fpos: u64, ch: Vec<u64>, raw: Option<(u32, Vec<u8>)>) -> (r: Item)
    ensures
        view_item(r) == array_item(
            fpos as int,
            ch@,
            match raw {
                Some((c, b)) => Some((c, b@)),
                None => None,
            },
        ),
{
    match raw {
        Some((c, b)) => if ch.len() == 0 {
            Item::RawArray { fpos, count: c, bytes: b }
        } else {
            Item::Array { fpos, children: ch }
        },
        None => Item::Array { fpos, children: ch },
    }
}


// ---------------------------------------------------------------------------
// Writing an object in place
// ---------------------------------------------------------------------------
/// The hash an enum value is written as: CityHash64 of its lower-cased name.
pub open spec fn enum_hash(name: Seq<char>) -> u64 {
    spec_city_hash64(vstd::utf8::encode_utf8(lowercase(name)))
}

pub open spec fn lift(r: Result<SpecPlacement, PlaceError>, out: Seq<SpecItem>) -> Result<
    (SpecPlacement, Seq<SpecItem>),
    PlaceError,
> {
    match r {
        Ok(s) => Ok((s, out)),
        Err(e) => Err(e),
    }
}

/// An enum written in place: its hash, or the hash of its name, which is
/// then interned.
#[verifier::opaque]
pub open spec fn write_enum(st: SpecPlacement, out: Seq<SpecItem>, o: SpecRdoObject, off: int) -> Result<
    (SpecPlacement, Seq<SpecItem>),
    PlaceError,
> {
    match scalar_of(o.props, "m_hashValue"@) {
        Some(h) => lift(put(st, off, bytes64(h as int)), out),
        None => {
            let name = text_or_empty(o.props, "m_enumName"@);
            let h = enum_hash(name);
            match put(st, off, bytes64(h as int)) {
                Ok(s) => Ok((intern(s, h, name), out)),
                Err(e) => Err(e),
            }
        },
    }
}

/// What writing an object in place does beyond reserving its footprint.
pub enum ObjectPlan {
    Enum,
    Piece(SpecItem),
    Write(Seq<u8>),
    Fields(Seq<SpecField>),
    Skip,
}

/// The plan for object `o` at blob offset `off`: an enum's hash, a string
/// or array as a pending piece, an opaque object's raw bytes, or its
/// fields.
#[verifier::opaque]
pub open spec fn object_plan(ctx: SpecCtx, o: SpecRdoObject, off: int) -> ObjectPlan {
    if enum_name(o.ty_name) {
        ObjectPlan::Enum
    } else {
        let k = reg_kind(ctx.types, o.ty_name);
        if k == FieldKind::Str {
            ObjectPlan::Piece(SpecItem::Str(off, text_or_empty(o.props, "m_value"@)))
        } else if k == FieldKind::Array {
            ObjectPlan::Piece(array_item(off, child_ids(o.props, "m_elements"@), raw_of(o.props, "m_elements"@)))
        } else if k == FieldKind::PointerArray {
            ObjectPlan::Piece(SpecItem::Pointers(off, child_ids(o.props, "m_elements"@)))
        } else if k == FieldKind::Opaque {
            match raw_of(o.props, "#Raw"@) {
                Some((_, b)) => ObjectPlan::Write(b),
                None => ObjectPlan::Skip,
            }
        } else {
            match type_named(ctx.types, o.ty_name) {
                None => ObjectPlan::Skip,
                Some(ty) => ObjectPlan::Fields(ty.fields),
            }
        }
    }
}

/// Object `idx` written at blob offset `off`: its footprint reserved, the
/// object recorded as placed, then written as its plan says: inline data in
/// place, embedded objects inside it, out-of-line pieces added to `out`.
/// `fuel` bounds how deep objects embed each other.
pub open spec fn spec_inline_write(
    ctx: SpecCtx,
    st: SpecPlacement,
    out: Seq<SpecItem>,
    idx: int,
    off: int,
    fuel: nat,
) -> Result<(SpecPlacement, Seq<SpecItem>), PlaceError>
    decreases fuel, 3int, 0int,
{
    if fuel == 0 {
        Err(PlaceError::TooDeep)
    } else {
        let o = ctx.objects[idx];
        match grow(st, off + size_or8(ctx.types, o.ty_name)) {
            Err(e) => Err(e),
            Ok(st1) => {
                let st2 = SpecPlacement { order: st1.order.push((idx as usize, off as u32)), ..st1 };
                match object_plan(ctx, o, off) {
                    ObjectPlan::Enum => write_enum(st2, out, o, off),
                    ObjectPlan::Piece(it) => Ok((st2, with_item(out, it))),
                    ObjectPlan::Write(b) => lift(put(st2, off, b), out),
                    ObjectPlan::Fields(fs) => spec_write_fields(ctx, st2, out, idx, off, fs, fuel),
                    ObjectPlan::Skip => Ok((st2, out)),
                }
            },
        }
    }
}

/// The plan for an object, as the writer carries it out.
pub enum ObjectStep<'a> {
    Enum,
    Piece(Item),
    Write(Vec<u8>),
    Fields(&'a Vec<FieldDef>),
    Skip,
}

impl<'a> Ctx<'a> {
    pub(crate) fn object_plan_of(&self, o: &RdoObject, off: u64) -> (r: ObjectStep<'a>)
        ensures
            match object_plan(self.spec_ctx(), crate::rdo::view_rdo_object(*o), off as int) {
                ObjectPlan::Enum => r is Enum,
                ObjectPlan::Piece(it) => r matches ObjectStep::Piece(x) && view_item(x) == it && item_pos(it) == off,
                ObjectPlan::Write(b) => r matches ObjectStep::Write(x) && x@ == b,
                ObjectPlan::Fields(fs) => r matches ObjectStep::Fields(x) && x@.map_values(|f: FieldDef| f.spec_view())
                    == fs,
                ObjectPlan::Skip => r is Skip,
            },
    {
        proof {
            reveal(object_plan);
        }
        if is_enum_name(o.ty_name.as_str()) {
            return ObjectStep::Enum;
        }
        match kind_in(self.registry, o.ty_name.as_str()) {
            FieldKind::Str => ObjectStep::Piece(Item::Str { fpos: off, val: get_text(&o.props, "m_value") }),
            FieldKind::Array => {
                let ch: Vec<u64> = get_children(&o.props, "m_elements");
                let raw: Option<(u32, Vec<u8>)> = get_raw(&o.props, "m_elements");
                ObjectStep::Piece(array_item_of(off, ch, raw))
            },
            FieldKind::PointerArray => ObjectStep::Piece(
                Item::Pointers { fpos: off, children: get_children(&o.props, "m_elements") },
            ),
            FieldKind::Opaque => match get_raw(&o.props, "#Raw") {
                Some((_, b)) => ObjectStep::Write(b),
                None => ObjectStep::Skip,
            },
            _ => match type_of(self.registry, o.ty_name.as_str()) {
                None => ObjectStep::Skip,
                Some(ty) => ObjectStep::Fields(&ty.fields),
            },
        }
    }
}

/// The fields of object `idx` written in order.
pub open spec fn spec_write_fields(
    ctx: SpecCtx,
    st: SpecPlacement,
    out: Seq<SpecItem>,
    idx: int,
    off: int,
    fields: Seq<SpecField>,
    fuel: nat,
) -> Result<(SpecPlacement, Seq<SpecItem>), PlaceError>
    decreases fuel, 2int, fields.len(),
{
    if fields.len() == 0 {
        Ok((st, out))
    } else {
        match spec_write_fields(ctx, st, out, idx, off, fields.drop_last(), fuel) {
            Err(e) => Err(e),
            Ok((s, o)) => spec_write_field(ctx, s, o, idx, off, fields.last(), fuel),
        }
    }
}

pub open spec fn is_leaf(k: FieldKind) -> bool {
    k == FieldKind::Scalar || k == FieldKind::Scalar64 || k == FieldKind::Scalar8 || k == FieldKind::Bool
}

/// The bytes of a scalar or flag field.
#[verifier::opaque]
pub open spec fn leaf_bytes(p: Seq<(Seq<char>, SpecRdoValue)>, name: Seq<char>, k: FieldKind) -> Seq<u8> {
    if k == FieldKind::Scalar {
        bytes32(scalar_or0(p, name) as int)
    } else if k == FieldKind::Scalar64 {
        bytes64(scalar_or0(p, name) as int)
    } else if k == FieldKind::Scalar8 {
        seq![(scalar_or0(p, name) % 256) as u8]
    } else {
        seq![
            if flag_or_false(p, name) {
                1u8
            } else {
                0u8
            },
        ]
    }
}

/// The object a field writes in place: a string or array child that is an
/// object of its own, or the first child of an embedded field.
#[verifier::opaque]
pub open spec fn field_child(ctx: SpecCtx, o: SpecRdoObject, name: Seq<char>, k: FieldKind) -> Option<int> {
    if k == FieldKind::Str || k == FieldKind::Array || k == FieldKind::PointerArray {
        reified_child(ctx, o, name)
    } else if k == FieldKind::OffsetPointer {
        None
    } else {
        let ids = child_ids(o.props, name);
        if ids.len() > 0 {
            index_of(ctx.objects, ids[0])
        } else {
            None
        }
    }
}

/// The pending piece of a field with no object in place.
#[verifier::opaque]
pub open spec fn field_piece(p: Seq<(Seq<char>, SpecRdoValue)>, fpos: int, name: Seq<char>, k: FieldKind) -> Option<
    SpecItem,
> {
    if k == FieldKind::Str {
        Some(SpecItem::Str(fpos, text_or_empty(p, name)))
    } else if k == FieldKind::Array {
        Some(array_item(fpos, child_ids(p, name), raw_of(p, name)))
    } else if k == FieldKind::PointerArray {
        Some(SpecItem::Pointers(fpos, child_ids(p, name)))
    } else if k == FieldKind::OffsetPointer {
        Some(SpecItem::OffsetPointer(fpos, child_ids(p, name)))
    } else {
        None
    }
}

/// The plan for a field, as the writer carries it out.
pub enum FieldStep {
    Write(u64, Vec<u8>),
    Inline(usize, u64),
    Piece(Item),
    Skip,
}

/// What writing one field does: bytes written in place, an object written
/// in place at a position, a pending piece, or nothing.
pub enum FieldPlan {
    Write(int, Seq<u8>),
    Inline(int, int),
    Piece(SpecItem),
    Skip,
}

/// The plan for field `f` of object `o` at blob offset `off`: a scalar or
/// flag inline, a string or array child that is an object of its own in
/// place, an embedded object in place, anything else as a pending piece.
#[verifier::opaque]
pub open spec fn field_plan(ctx: SpecCtx, o: SpecRdoObject, off: int, f: SpecField) -> FieldPlan {
    let fpos = off + f.offset;
    let k = reg_kind(ctx.types, f.ty_name);
    if is_leaf(k) {
        FieldPlan::Write(fpos, leaf_bytes(o.props, f.name, k))
    } else {
        match field_child(ctx, o, f.name, k) {
            Some(ci) => FieldPlan::Inline(ci, fpos),
            None => match field_piece(o.props, fpos, f.name, k) {
                Some(it) => FieldPlan::Piece(it),
                None => FieldPlan::Skip,
            },
        }
    }
}

/// One field of object `idx` (at blob offset `off`) written as its plan
/// says.
pub open spec fn spec_write_field(
    ctx: SpecCtx,
    st: SpecPlacement,
    out: Seq<SpecItem>,
    idx: int,
    off: int,
    f: SpecField,
    fuel: nat,
) -> Result<(SpecPlacement, Seq<SpecItem>), PlaceError>
    decreases fuel, 1int, 0int,
{
    if fuel == 0 {
        Err(PlaceError::TooDeep)
    } else {
        match field_plan(ctx, ctx.objects[idx], off, f) {
            FieldPlan::Write(p, b) => lift(put(st, p, b), out),
            FieldPlan::Inline(ci, p) => spec_inline_write(ctx, st, out, ci, p, (fuel - 1) as nat),
            FieldPlan::Piece(it) => Ok((st, with_item(out, it))),
            FieldPlan::Skip => Ok((st, out)),
        }
    }
}

/// Pending pieces sit at positions below 2^34: a blob offset plus a
/// field offset.
pub open spec fn bounded_items(out: Seq<SpecItem>) -> bool {
    forall|i: int| 0 <= i < out.len() ==> item_pos(#[trigger] out[i]) < 0x4_0000_0000
}

pub open spec fn placed_as(
    r: Result<(), PlaceError>,
    spec: Result<(SpecPlacement, Seq<SpecItem>), PlaceError>,
    st: SpecPlacement,
    out: Seq<Item>,
) -> bool {
    match spec {
        Ok((s, o)) => r is Ok && st == s && view_items(out) == o && wf_placement(s) && bounded_items(o),
        Err(e) => r matches Err(x) && x == e,
    }
}

pub(crate) fn leaf_bytes_of(props: &Vec<(String, RdoValue)>, name: &str, k: FieldKind) -> (r: Vec<u8>)
    requires
        is_leaf(k),
    ensures
        r@ == leaf_bytes(crate::rdo::view_props(props@), name@, k),
{
    proof {
        reveal(leaf_bytes);
    }
    match k {
        FieldKind::Scalar => {
            let v: u64 = match get_scalar(props, name) {
                Some(v) => v,
                None => 0,
            };
            proof {
                crate::le::lemma_bytes32_low(v as int);
            }
            let b: [u8; 4] = le_bytes32((v % 4294967296) as u32);
            vstd::slice::slice_to_vec(&b)
        },
        FieldKind::Scalar64 => {
            let v: u64 = match get_scalar(props, name) {
                Some(v) => v,
                None => 0,
            };
            let b: [u8; 8] = le_bytes64(v);
            vstd::slice::slice_to_vec(&b)
        },
        FieldKind::Scalar8 => {
            let v: u64 = match get_scalar(props, name) {
                Some(v) => v,
                None => 0,
            };
            let r: Vec<u8> = vec![(v % 256) as u8];
            proof {
                assert(r@ =~= seq![(v % 256) as u8]);
            }
            r
        },
        _ => {
            let flag: bool = get_flag(props, name);
            let r: Vec<u8> = vec![
                if flag {
                    1u8
                } else {
                    0u8
                },
            ];
            proof {
                assert(r@ =~= seq![
                    if flag {
                        1u8
                    } else {
                        0u8
                    },
                ]);
            }
            r
        },
    }
}

pub(crate) fn field_piece_of(props: &Vec<(String, RdoValue)>, fpos: u64, name: &str, k: FieldKind) -> (r: Option<Item>)
    ensures
        match field_piece(crate::rdo::view_props(props@), fpos as int, name@, k) {
            Some(it) => r matches Some(x) && view_item(x) == it,
            None => r is None,
        },
{
    proof {
        reveal(field_piece);
    }
    match k {
        FieldKind::Str => Some(Item::Str { fpos, val: get_text(props, name) }),
        FieldKind::Array => {
            let ch: Vec<u64> = get_children(props, name);
            let raw: Option<(u32, Vec<u8>)> = get_raw(props, name);
            Some(array_item_of(fpos, ch, raw))
        },
        FieldKind::PointerArray => Some(Item::Pointers { fpos, children: get_children(props, name) }),
        FieldKind::OffsetPointer => Some(Item::OffsetPointer { fpos, children: get_children(props, name) }),
        _ => None,
    }
}

impl<'a> Ctx<'a> {
    /// What writing field `f` of object `o` does: `Err` with the bytes
    /// to write, `Ok` with the object to write in place or the pending piece.
    pub(crate) fn field_plan_of(&self, o: &RdoObject, off: u64, f: &FieldDef) -> (r: FieldStep)
        requires
            self.wf(),
            off <= BLOB_LIMIT,
        ensures
            match field_plan(self.spec_ctx(), crate::rdo::view_rdo_object(*o), off as int, f.spec_view()) {
                FieldPlan::Write(p, b) => r matches FieldStep::Write(rp, rb) && rp == p && rb@ == b && p == off
                    + f.offset,
                FieldPlan::Inline(ci, p) => r matches FieldStep::Inline(rc, rp) && rc == ci && rp == p && rc
                    < self.objects@.len() && p == off + f.offset,
                FieldPlan::Piece(it) => r matches FieldStep::Piece(x) && view_item(x) == it && item_pos(it) == off
                    + f.offset,
                FieldPlan::Skip => r is Skip,
            },
    {
        proof {
            reveal(field_plan);
            reveal(field_piece);
        }
        let fpos: u64 = off + f.offset as u64;
        let name: &str = f.name.as_str();
        let k: FieldKind = kind_in(self.registry, f.ty_name.as_str());
        let ghost ov = crate::rdo::view_rdo_object(*o);
        proof {
            assert(ov.props == crate::rdo::view_props(o.props@));
            assert(f.spec_view().name == name@);
            assert(k == reg_kind(self.spec_ctx().types, f.spec_view().ty_name));
        }
        if matches!(k, FieldKind::Scalar | FieldKind::Scalar64 | FieldKind::Scalar8 | FieldKind::Bool) {
            let b: Vec<u8> = leaf_bytes_of(&o.props, name, k);
            assert(field_plan(self.spec_ctx(), ov, off as int, f.spec_view()) == FieldPlan::Write(fpos as int, b@));
            return FieldStep::Write(fpos, b);
        }
        proof {
            assert(!is_leaf(k));
        }
        match self.field_child(o, name, k) {
            Some(ci) => {
                assert(field_child(self.spec_ctx(), ov, f.spec_view().name, k) == Some(ci as int));
                assert(field_plan(self.spec_ctx(), ov, off as int, f.spec_view()) == FieldPlan::Inline(ci as int, fpos as int));
                FieldStep::Inline(ci, fpos)
            },
            None => match field_piece_of(&o.props, fpos, name, k) {
                Some(it) => {
                    assert(field_plan(self.spec_ctx(), ov, off as int, f.spec_view()) == FieldPlan::Piece(view_item(it)));
                    FieldStep::Piece(it)
                },
                None => FieldStep::Skip,
            },
        }
    }

    pub(crate) fn field_child(&self, o: &RdoObject, name: &str, k: FieldKind) -> (r: Option<usize>)
        requires
            self.wf(),
        ensures
            match field_child(self.spec_ctx(), crate::rdo::view_rdo_object(*o), name@, k) {
                Some(ci) => (r matches Some(x) && x as int == ci) && ci < self.objects@.len(),
                None => r is None,
            },
    {
        proof {
            reveal(field_child);
        }
        match k {
            FieldKind::Str | FieldKind::Array | FieldKind::PointerArray => self.reified_child(o, name),
            FieldKind::OffsetPointer => None,
            _ => {
                let ids: Vec<u64> = get_children(&o.props, name);
                if ids.len() > 0 {
                    match self.get(ids[0]) {
                        Ok(ci) => Some(ci),
                        Err(_) => None,
                    }
                } else {
                    None
                }
            },
        }
    }
}

pub(crate) proof fn lemma_fields_err(
    ctx: SpecCtx,
    st: SpecPlacement,
    out: Seq<SpecItem>,
    idx: int,
    off: int,
    fs: Seq<SpecField>,
    j: int,
    fuel: nat,
)
    requires
        0 <= j <= fs.len(),
        spec_write_fields(ctx, st, out, idx, off, fs.subrange(0, j), fuel) is Err,
    ensures
        spec_write_fields(ctx, st, out, idx, off, fs, fuel) == spec_write_fields(ctx, st, out, idx, off, fs.subrange(0, j), fuel),
    decreases fs.len() - j,
{
    if j < fs.len() {
        assert(fs.subrange(0, j + 1).drop_last() =~= fs.subrange(0, j));
        lemma_fields_err(ctx, st, out, idx, off, fs, j + 1, fuel);
    } else {
        assert(fs.subrange(0, j) =~= fs);
    }
}


// ---------------------------------------------------------------------------
// Placing pending pieces
// ---------------------------------------------------------------------------
/// How many pieces one placement handles at most.
pub const STEP_LIMIT: u64 = 0xffff_ffff_ffff_ffff;

/// The 32-bit offset from `from` to `to`.
pub open spec fn rel32(to: int, from: int) -> Seq<u8> {
    bytes32(i32_bits(to - from))
}

pub open spec fn and_then(r: Result<SpecPlacement, PlaceError>, off: int, bytes: Seq<u8>) -> Result<SpecPlacement, PlaceError> {
    match r {
        Ok(s) => put(s, off, bytes),
        Err(e) => Err(e),
    }
}

/// A string placed: its bytes at the free end of the blob, a terminating
/// zero reserved, and the field pointed at them with the byte length.
#[verifier::opaque]
pub open spec fn place_str(st: SpecPlacement, fpos: int, val: Seq<char>) -> Result<SpecPlacement, PlaceError> {
    let at = max_int(st.next, st.blob.len() as int);
    let bytes = vstd::utf8::encode_utf8(val);
    let s0 = SpecPlacement { next: at, ..st };
    let s1 = if bytes.len() > 0 {
        put(s0, at, bytes)
    } else {
        Ok(s0)
    };
    match s1 {
        Err(e) => Err(e),
        Ok(s) => and_then(and_then(grow(s, at + bytes.len() + 1), fpos, rel32(at, fpos)), fpos + 8, bytes32(bytes.len() as int)),
    }
}

/// An array with no elements: an offset to an aligned free position when
/// strings and arrays are objects of their own, else zero, and a count of
/// zero.
#[verifier::opaque]
pub open spec fn place_empty(reified: bool, st: SpecPlacement, fpos: int) -> Result<SpecPlacement, PlaceError> {
    if reified {
        match append(st, 8) {
            Err(e) => Err(e),
            Ok(s) => and_then(put(s, fpos, rel32(s.next, fpos)), fpos + 8, bytes32(0)),
        }
    } else {
        and_then(put(st, fpos, bytes32(0)), fpos + 8, bytes32(0))
    }
}

/// Raw array bytes placed at the next 8-aligned free position, the field
/// pointed at them with the count.
#[verifier::opaque]
pub open spec fn place_raw(st: SpecPlacement, fpos: int, count: u32, bytes: Seq<u8>) -> Result<SpecPlacement, PlaceError> {
    match append(st, 8) {
        Err(e) => Err(e),
        Ok(s) => and_then(and_then(put(s, s.next, bytes), fpos, rel32(s.next, fpos)), fpos + 8, bytes32(count as int)),
    }
}

/// The 8-byte relative pointers from `j` on: slot `j` of the block points
/// at the target of child `j`, and each is recorded.
pub open spec fn spec_pointers(
    ctx: SpecCtx,
    st: SpecPlacement,
    children: Seq<u64>,
    ts: Seq<int>,
    block: int,
    j: int,
) -> Result<SpecPlacement, PlaceError>
    decreases children.len() - j,
{
    if j >= children.len() || j < 0 {
        Ok(st)
    } else {
        let ptr = block + 8 * j;
        match put(st, ptr, bytes64(i64_bits(ts[j] - ptr))) {
            Err(e) => Err(e),
            Ok(s1) => match index_of(ctx.objects, children[j]) {
                None => Err(PlaceError::MissingChild(children[j])),
                Some(ci) => spec_pointers(
                    ctx,
                    SpecPlacement {
                        pointers: s1.pointers.push(
                            PointerRecord {
                                file_off: (RFCI_FILE_OFFSET + ptr) as u32,
                                target: ci as usize,
                                target_off: ts[j] as u32,
                            },
                        ),
                        ..s1
                    },
                    children,
                    ts,
                    block,
                    j + 1,
                ),
            },
        }
    }
}

/// Object `idx` placed at `off` with everything it points at: written in
/// place, then its pending pieces placed one by one, in field order (first
/// first when strings and arrays are objects of their own, else last
/// first).
pub open spec fn spec_place(ctx: SpecCtx, st: SpecPlacement, idx: int, off: int, fuel: nat) -> Result<
    SpecPlacement,
    PlaceError,
>
    decreases fuel, 4int, 0int,
{
    if fuel == 0 {
        Err(PlaceError::TooDeep)
    } else {
        match spec_inline_write(ctx, st, Seq::empty(), idx, off, fuel) {
            Err(e) => Err(e),
            Ok((s, out)) => spec_drain(ctx, s, out, fuel, STEP_LIMIT as nat),
        }
    }
}

pub open spec fn next_item(reified: bool, out: Seq<SpecItem>) -> SpecItem {
    if reified {
        out[0]
    } else {
        out.last()
    }
}

pub open spec fn rest_items(reified: bool, out: Seq<SpecItem>) -> Seq<SpecItem> {
    if reified {
        out.subrange(1, out.len() as int)
    } else {
        out.drop_last()
    }
}

pub open spec fn spec_drain(ctx: SpecCtx, st: SpecPlacement, out: Seq<SpecItem>, fuel: nat, steps: nat) -> Result<
    SpecPlacement,
    PlaceError,
>
    decreases fuel, 3int, steps,
{
    if out.len() == 0 {
        Ok(st)
    } else if steps == 0 {
        Err(PlaceError::TooDeep)
    } else {
        match spec_process(ctx, st, rest_items(ctx.reified, out), next_item(ctx.reified, out), fuel) {
            Err(e) => Err(e),
            Ok((s, o)) => spec_drain(ctx, s, o, fuel, (steps - 1) as nat),
        }
    }
}

/// One pending piece placed.
pub open spec fn spec_process(ctx: SpecCtx, st: SpecPlacement, out: Seq<SpecItem>, item: SpecItem, fuel: nat) -> Result<
    (SpecPlacement, Seq<SpecItem>),
    PlaceError,
>
    decreases fuel, 2int, 0int,
{
    match item {
        SpecItem::Str(fpos, val) => lift(place_str(st, fpos, val), out),
        SpecItem::RawArray(fpos, count, bytes) => lift(place_raw(st, fpos, count, bytes), out),
        SpecItem::Array(fpos, children) => if children.len() == 0 {
            lift(place_empty(ctx.reified, st, fpos), out)
        } else {
            match align_of(ctx, children[0]) {
                Err(e) => Err(e),
                Ok(a) => match append(st, a) {
                    Err(e) => Err(e),
                    Ok(s1) => match spec_array_children(ctx, s1, out, children, s1.next, fuel) {
                        Err(e) => Err(e),
                        Ok((s2, o2)) => lift(
                            and_then(put(s2, fpos, rel32(s1.next, fpos)), fpos + 8, bytes32(children.len() as int)),
                            o2,
                        ),
                    },
                },
            }
        },
        SpecItem::Pointers(fpos, children) => if children.len() == 0 {
            lift(place_empty(ctx.reified, st, fpos), out)
        } else {
            lift(spec_pointer_array(ctx, st, fpos, children, fuel), out)
        },
        SpecItem::OffsetPointer(fpos, children) => if children.len() == 0 {
            lift(put(st, fpos, bytes32(0)), out)
        } else {
            lift(spec_offset_pointer(ctx, st, fpos, children, fuel), out)
        },
    }
}

/// A pointer array placed: a block of 8-byte slots at the next 8-aligned
/// free position, the targets placed after it (the last first), the slots
/// pointed at them, and the field pointed at the block with the count.
pub open spec fn spec_pointer_array(ctx: SpecCtx, st: SpecPlacement, fpos: int, children: Seq<u64>, fuel: nat) -> Result<
    SpecPlacement,
    PlaceError,
>
    decreases fuel, 1int, children.len() + 1,
{
    match append(st, 8) {
        Err(e) => Err(e),
        Ok(s1) => {
            let block = s1.next;
            let nxt = block + 8 * children.len();
            match grow(SpecPlacement { next: nxt, ..s1 }, nxt) {
                Err(e) => Err(e),
                Ok(s2) => match spec_targets(ctx, s2, children, children.len(), Seq::empty(), fuel) {
                    Err(e) => Err(e),
                    Ok((s3, ts)) => and_then(
                        and_then(spec_pointers(ctx, s3, children, ts, block, 0), fpos, rel32(block, fpos)),
                        fpos + 8,
                        bytes32(children.len() as int),
                    ),
                },
            }
        },
    }
}

/// An offset pointer placed: its first child placed at the next free
/// position aligned for it, and the field pointed at it.
pub open spec fn spec_offset_pointer(ctx: SpecCtx, st: SpecPlacement, fpos: int, children: Seq<u64>, fuel: nat) -> Result<
    SpecPlacement,
    PlaceError,
>
    decreases fuel, 1int, 0int,
{
    if fuel == 0 || children.len() == 0 {
        Err(PlaceError::TooDeep)
    } else {
        match align_of(ctx, children[0]) {
            Err(e) => Err(e),
            Ok(a) => match append(st, a) {
                Err(e) => Err(e),
                Ok(s1) => match index_of(ctx.objects, children[0]) {
                    None => Err(PlaceError::MissingChild(children[0])),
                    Some(ci) => match spec_place(ctx, s1, ci, s1.next, (fuel - 1) as nat) {
                        Err(e) => Err(e),
                        Ok(s2) => put(s2, fpos, rel32(s1.next, fpos)),
                    },
                },
            },
        }
    }
}

/// The elements of a by-value array written one after another from `at`.
pub open spec fn spec_array_children(
    ctx: SpecCtx,
    st: SpecPlacement,
    out: Seq<SpecItem>,
    children: Seq<u64>,
    at: int,
    fuel: nat,
) -> Result<(SpecPlacement, Seq<SpecItem>), PlaceError>
    decreases fuel, 1int, children.len(),
{
    if children.len() == 0 {
        Ok((st, out))
    } else {
        match index_of(ctx.objects, children[0]) {
            None => Err(PlaceError::MissingChild(children[0])),
            Some(ci) => match spec_inline_write(ctx, st, out, ci, at, fuel) {
                Err(e) => Err(e),
                Ok((s, o)) => spec_array_children(
                    ctx,
                    s,
                    o,
                    children.subrange(1, children.len() as int),
                    at + size_or8(ctx.types, ctx.objects[ci].ty_name),
                    fuel,
                ),
            },
        }
    }
}

/// The targets of a pointer array placed, the last first: each at the next
/// free position aligned for it; `acc` holds the offsets of those placed.
pub open spec fn spec_targets(
    ctx: SpecCtx,
    st: SpecPlacement,
    children: Seq<u64>,
    k: nat,
    acc: Seq<int>,
    fuel: nat,
) -> Result<(SpecPlacement, Seq<int>), PlaceError>
    decreases fuel, 1int, k,
{
    if k == 0 {
        Ok((st, acc))
    } else if fuel == 0 || k > children.len() {
        Err(PlaceError::TooDeep)
    } else {
        let c = children[k - 1];
        match align_of(ctx, c) {
            Err(e) => Err(e),
            Ok(a) => match append(st, a) {
                Err(e) => Err(e),
                Ok(s1) => match index_of(ctx.objects, c) {
                    None => Err(PlaceError::MissingChild(c)),
                    Some(ci) => match spec_place(ctx, s1, ci, s1.next, (fuel - 1) as nat) {
                        Err(e) => Err(e),
                        Ok(s2) => spec_targets(ctx, s2, children, (k - 1) as nat, seq![s1.next] + acc, fuel),
                    },
                },
            },
        }
    }
}

} // verus!
