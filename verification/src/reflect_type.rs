//! The type schema of reflection data: how an `RFTY` body describes a type,
//! its fields and its bases, and how a field type is written.
use vstd::prelude::*;

use vstd::string::{StrSliceExecFns, StringSliceAdditionalSpecFns};

use std::collections::BTreeMap;

use crate::container::{parse_chunky, view_chunk, Chunk, Chunky, SpecBody, SpecChunk};
use crate::le::{le32, le64, read_u32, read_u64};
use crate::reflect::{all_printable, printable, tag};
use crate::walk::{data_list, view_refs};
use crate::text::{ascii_chars, lemma_ascii_decodes, lossy_string};

verus! {

#[derive(Debug, PartialEq, Eq)]
pub struct FieldDef {
    pub name: String,
    pub ty_name: String,
    pub offset: u32,
    pub size: u32,
    pub name_hash: u64,
    pub type_hash: u64,
}

#[derive(Debug, PartialEq, Eq)]
pub struct TypeDef {
    pub name: String,
    pub hash: u64,
    pub size: u32,
    pub trailer: u32,
    pub fields: Vec<FieldDef>,
    /// Base types this type derives from, as `(type hash, index)`. Empty for
    /// types with no bases (or non-struct kinds).
    pub bases: Vec<(u64, u32)>,
}

/// How a field is laid out in compiled reflection data.
#[derive(Clone, Copy, PartialEq, Eq, Debug)]
pub enum FieldKind {
    /// 4-byte value written inline (float / int32 / uint32).
    Scalar,
    /// 8-byte value written inline (int64 / uint64).
    Scalar64,
    /// 1-byte value written inline (char / uint8).
    Scalar8,
    /// 1-byte flag written inline.
    Bool,
    /// Out-of-line string: `[i32 rel][pad][i32 len]` inline.
    Str,
    /// Interned enum: `u64` string hash written inline, child object in `.rdo`.
    Enum,
    /// Struct child written inside the parent's footprint at the field offset.
    Embed,
    /// `[i32 rel]` inline pointing at an out-of-line child.
    OffsetPointer,
    /// By-value array: `[i32 rel][pad][i32 count]`, elements packed out-of-line.
    Array,
    /// Pointer array: `[i32 rel][pad][i32 count]` to a block of 8-byte
    /// relative pointers, one per out-of-line element.
    PointerArray,
    /// Not written; occupies its footprint as zeros.
    Opaque,
}

/// The mathematical value of a field definition.
pub struct SpecField {
    pub name: Seq<char>,
    pub ty_name: Seq<char>,
    pub offset: u32,
    pub size: u32,
    pub name_hash: u64,
    pub type_hash: u64,
}

/// The mathematical value of a type definition.
pub struct SpecType {
    pub name: Seq<char>,
    pub hash: u64,
    pub size: u32,
    pub trailer: u32,
    pub fields: Seq<SpecField>,
    pub bases: Seq<(u64, u32)>,
}

impl FieldDef {
    pub open spec fn spec_view(&self) -> SpecField {
        SpecField {
            name: self.name@,
            ty_name: self.ty_name@,
            offset: self.offset,
            size: self.size,
            name_hash: self.name_hash,
            type_hash: self.type_hash,
        }
    }
}

impl TypeDef {
    pub open spec fn spec_view(&self) -> SpecType {
        SpecType {
            name: self.name@,
            hash: self.hash,
            size: self.size,
            trailer: self.trailer,
            fields: self.fields@.map_values(|f: FieldDef| f.spec_view()),
            bases: self.bases@,
        }
    }
}

impl Clone for FieldDef {
    fn clone(&self) -> (r: Self)
        ensures
            r.spec_view() == self.spec_view(),
    {
        FieldDef {
            name: self.name.clone(),
            ty_name: self.ty_name.clone(),
            offset: self.offset,
            size: self.size,
            name_hash: self.name_hash,
            type_hash: self.type_hash,
        }
    }
}

impl Clone for TypeDef {
    fn clone(&self) -> (r: Self)
        ensures
            r.spec_view() == self.spec_view(),
    {
        let mut fields: Vec<FieldDef> = Vec::new();
        let mut i: usize = 0;
        while i < self.fields.len()
            invariant
                i <= self.fields@.len(),
                fields@.len() == i,
                forall|j: int| 0 <= j < i ==> (#[trigger] fields@[j]).spec_view() == self.fields@[j].spec_view(),
            decreases self.fields.len() - i,
        {
            fields.push(self.fields[i].clone());
            i += 1;
        }
        let mut bases: Vec<(u64, u32)> = Vec::new();
        let mut k: usize = 0;
        while k < self.bases.len()
            invariant
                k <= self.bases@.len(),
                bases@ == self.bases@.subrange(0, k as int),
            decreases self.bases.len() - k,
        {
            let b: (u64, u32) = self.bases[k];
            bases.push(b);
            k += 1;
            assert(bases@ =~= self.bases@.subrange(0, k as int));
        }
        let r = TypeDef {
            name: self.name.clone(),
            hash: self.hash,
            size: self.size,
            trailer: self.trailer,
            fields,
            bases,
        };
        proof {
            assert(bases@ =~= self.bases@);
            assert(r.spec_view().fields =~= self.spec_view().fields);
        }
        r
    }
}

// ---------------------------------------------------------------------------
// Reading an RFTY body
// ---------------------------------------------------------------------------
/// A length-prefixed printable string of 1 to 256 bytes at `pos`, and the
/// position after it.
pub open spec fn name_at(b: Seq<u8>, pos: int) -> Option<(Seq<u8>, int)> {
    if pos < 0 || pos + 4 > b.len() {
        None
    } else {
        let len = le32(b, pos);
        if len == 0 || len > 256 || pos + 4 + len > b.len() {
            None
        } else if all_printable(b.subrange(pos + 4, pos + 4 + len)) {
            Some((b.subrange(pos + 4, pos + 4 + len), pos + 4 + len))
        } else {
            None
        }
    }
}

/// Bytes after the size field up to the trailer.
pub const AFTER_SIZE_TO_TRAILER: usize = 12;

/// Bytes after the trailer up to the base count.
pub const AFTER_TRAILER_TO_BASE_COUNT: usize = 20;

/// Bytes after the base entries up to the field count.
pub const AFTER_BASES_TO_FIELD_COUNT: usize = 24;

/// The fixed trailer of each field record.
pub const FIELD_TRAILER_LEN: usize = 64;

/// Counts above this mark a kind of type (template, enum, pointer) whose
/// header carries no placeable fields.
pub const MAX_COUNT: u64 = 512;

/// A field name: it begins with `m_`.
pub open spec fn member_name(s: Seq<u8>) -> bool {
    s.len() >= 2 && s[0] == 0x6d && s[1] == 0x5f
}

/// One field record at `pos` and the position after it: name, its hash, type
/// name, its hash, offset, size and the fixed trailer. It is refused unless
/// the name is a member name and the field lies inside the type.
pub open spec fn field_at(b: Seq<u8>, pos: int, type_size: u32) -> Option<(SpecField, int)> {
    match name_at(b, pos) {
        None => None,
        Some((name, p1)) => if p1 + 8 > b.len() {
            None
        } else {
            match name_at(b, p1 + 8) {
                None => None,
                Some((ty_name, p2)) => if p2 + 8 + 4 + 4 + 64 > b.len() {
                    None
                } else {
                    let offset = le32(b, p2 + 8) as u32;
                    let size = le32(b, p2 + 12) as u32;
                    if !member_name(name) || offset >= type_size || size == 0 || size > type_size {
                        None
                    } else {
                        Some(
                            (
                                SpecField {
                                    name: ascii_chars(name),
                                    ty_name: ascii_chars(ty_name),
                                    offset,
                                    size,
                                    name_hash: le64(b, p1) as u64,
                                    type_hash: le64(b, p2) as u64,
                                },
                                p2 + 16 + 64,
                            ),
                        )
                    }
                },
            }
        },
    }
}

/// `k` field records from `pos`; `None` as soon as one is refused.
pub open spec fn fields_at(b: Seq<u8>, pos: int, k: nat, type_size: u32) -> Option<Seq<SpecField>>
    decreases k,
{
    if k == 0 {
        Some(Seq::empty())
    } else {
        match field_at(b, pos, type_size) {
            None => None,
            Some((f, p)) => match fields_at(b, p, (k - 1) as nat, type_size) {
                None => None,
                Some(rest) => Some(seq![f] + rest),
            },
        }
    }
}

/// `k` base entries, `[u64 hash][u32 index]` each, from `pos`.
pub open spec fn bases_at(b: Seq<u8>, pos: int, k: nat) -> Seq<(u64, u32)> {
    Seq::new(k, |i: int| (le64(b, pos + 12 * i) as u64, le32(b, pos + 12 * i + 8) as u32))
}

/// The type an `RFTY` body describes: its name, hash, size and trailer, its
/// base entries and its field records. A base count above `MAX_COUNT` gives
/// a type with neither bases nor fields; a field count above it, or a field
/// record that is refused, gives no fields.
pub open spec fn spec_parse_type(b: Seq<u8>) -> Option<SpecType> {
    match name_at(b, 0) {
        None => None,
        Some((name, p)) => {
            let q = p + 8 + 4 + 12 + 4 + 20;
            if q + 8 > b.len() {
                None
            } else {
                let hash = le64(b, p) as u64;
                let size = le32(b, p + 8) as u32;
                let trailer = le32(b, p + 24) as u32;
                let base_count = le64(b, q);
                if base_count > MAX_COUNT {
                    Some(
                        SpecType {
                            name: ascii_chars(name),
                            hash,
                            size,
                            trailer,
                            fields: Seq::empty(),
                            bases: Seq::empty(),
                        },
                    )
                } else {
                    let r = q + 8 + 12 * base_count + 24;
                    if r + 8 > b.len() {
                        None
                    } else {
                        let field_count = le64(b, r);
                        let fields = if field_count <= MAX_COUNT {
                            match fields_at(b, r + 8, field_count as nat, size) {
                                Some(fs) => fs,
                                None => Seq::empty(),
                            }
                        } else {
                            Seq::empty()
                        };
                        Some(
                            SpecType {
                                name: ascii_chars(name),
                                hash,
                                size,
                                trailer,
                                fields,
                                bases: bases_at(b, q + 8, base_count as nat),
                            },
                        )
                    }
                }
            }
        },
    }
}

fn is_printable(b: u8) -> (r: bool)
    ensures
        r == printable(b),
{
    0x20 <= b && b <= 0x7e
}

fn printable_text(s: &[u8]) -> (r: Option<String>)
    ensures
        all_printable(s@) ==> (r matches Some(t) && t@ == ascii_chars(s@)),
        !all_printable(s@) ==> r is None,
{
    let mut i: usize = 0;
    while i < s.len()
        invariant
            i <= s@.len(),
            forall|k: int| 0 <= k < i ==> printable(#[trigger] s@[k]),
        decreases s.len() - i,
    {
        if !is_printable(s[i]) {
            assert(!printable(s@[i as int]));
            return None;
        }
        i += 1;
    }
    proof {
        assert forall|k: int| 0 <= k < s@.len() implies #[trigger] s@[k] < 128 by {
            assert(printable(s@[k]));
        }
        lemma_ascii_decodes(s@);
    }
    Some(lossy_string(s))
}

fn read_name(b: &[u8], pos: usize) -> (r: Option<(String, usize, Ghost<Seq<u8>>)>)
    ensures
        match name_at(b@, pos as int) {
            None => r is None,
            Some((s, p)) => r matches Some((t, q, g)) && t@ == ascii_chars(s) && q == p && g@ == s,
        },
{
    let len: u32 = match read_u32(b, pos) {
        Some(l) => l,
        None => {
            return None;
        },
    };
    let total: usize = b.len();
    if len == 0 || len > 256 || len as usize > total - pos - 4 {
        return None;
    }
    let end: usize = pos + 4 + len as usize;
    let raw: &[u8] = vstd::slice::slice_subrange(b, pos + 4, end);
    match printable_text(raw) {
        Some(t) => Some((t, end, Ghost(raw@))),
        None => None,
    }
}

} // verus!

verus! {

fn read_field(b: &[u8], pos: usize, type_size: u32) -> (r: Option<(FieldDef, usize)>)
    ensures
        match field_at(b@, pos as int, type_size) {
            None => r is None,
            Some((f, p)) => r matches Some((g, q)) && g.spec_view() == f && q == p,
        },
{
    let (name, p1, gname) = match read_name(b, pos) {
        Some(x) => x,
        None => {
            return None;
        },
    };
    let name_hash: u64 = match read_u64(b, p1) {
        Some(h) => h,
        None => {
            return None;
        },
    };
    let blen: usize = b.len();
    assert(p1 + 8 <= blen);
    let (ty_name, p2, gtype) = match read_name(b, p1 + 8) {
        Some(x) => x,
        None => {
            return None;
        },
    };
    let total: usize = b.len();
    if total - p2 < 8 + 4 + 4 + FIELD_TRAILER_LEN {
        return None;
    }
    let type_hash: u64 = read_u64(b, p2).unwrap();
    let offset: u32 = read_u32(b, p2 + 8).unwrap();
    let size: u32 = read_u32(b, p2 + 12).unwrap();
    let nb: &[u8] = name.as_str().as_bytes();
    proof {
        crate::text::lemma_ascii_decodes(gname@);
        assert(gname@.len() > 0);
        assert forall|k: int| 0 <= k < gname@.len() implies #[trigger] gname@[k] < 128 by {
            assert(printable(gname@[k]));
        }
        crate::text::lemma_ascii_decodes(gname@);
        vstd::utf8::is_ascii_chars_encode_utf8(name@);
        assert(name@ == ascii_chars(gname@));
        assert(vstd::utf8::is_ascii_chars(name@));
        assert(nb@ =~= gname@) by {
            assert forall|k: int| 0 <= k < gname@.len() implies nb@[k] == gname@[k] by {
                assert(name@[k] == gname@[k] as char);
            }
        }
    }
    let member: bool = nb.len() >= 2 && nb[0] == 0x6d && nb[1] == 0x5f;
    if !member || offset >= type_size || size == 0 || size > type_size {
        return None;
    }
    Some((FieldDef { name, ty_name, offset, size, name_hash, type_hash }, p2 + 16 + FIELD_TRAILER_LEN))
}

fn read_fields(b: &[u8], start: usize, m: usize, size: u32) -> (r: Option<Vec<FieldDef>>)
    requires
        start <= b@.len(),
    ensures
        match fields_at(b@, start as int, m as nat, size) {
            None => r is None,
            Some(fs) => r matches Some(v) && v@.map_values(|f: FieldDef| f.spec_view()) == fs,
        },
{
    let mut fields: Vec<FieldDef> = Vec::new();
    let mut pos: usize = start;
    let mut k: usize = 0;
    let ghost goal = fields_at(b@, start as int, m as nat, size);
    proof {
        if let Some(g) = goal {
            assert(fields@.map_values(|f: FieldDef| f.spec_view()) + g =~= g);
        }
    }
    while k < m
        invariant
            k <= m,
            pos <= b@.len(),
            goal == fields_at(b@, start as int, m as nat, size),
            goal == (match fields_at(b@, pos as int, (m - k) as nat, size) {
                Some(rest) => Some(fields@.map_values(|f: FieldDef| f.spec_view()) + rest),
                None => None::<Seq<SpecField>>,
            }),
        decreases m - k,
    {
        match read_field(b, pos, size) {
            Some((f, next)) => {
                let ghost before = fields@;
                fields.push(f);
                proof {
                    let rest = fields_at(b@, next as int, (m - k - 1) as nat, size);
                    assert(fields@.map_values(|f: FieldDef| f.spec_view()) =~= before.map_values(
                        |f: FieldDef| f.spec_view(),
                    ).push(f.spec_view()));
                    if let Some(t) = rest {
                        assert(before.map_values(|f: FieldDef| f.spec_view()) + (seq![f.spec_view()]
                            + t) =~= fields@.map_values(|f: FieldDef| f.spec_view()) + t);
                    }
                }
                pos = next;
            },
            None => {
                return None;
            },
        }
        k += 1;
    }
    proof {
        assert(fields@.map_values(|f: FieldDef| f.spec_view()) + Seq::<SpecField>::empty()
            =~= fields@.map_values(|f: FieldDef| f.spec_view()));
    }
    Some(fields)
}

/// Reads the type an `RFTY` body describes.
pub fn parse_type(payload: &[u8]) -> (r: Option<TypeDef>)
    ensures
        match spec_parse_type(payload@) {
            None => r is None,
            Some(t) => r matches Some(d) && d.spec_view() == t,
        },
{
    let b = payload;
    let (name, p, gname) = match read_name(b, 0) {
        Some(x) => x,
        None => {
            return None;
        },
    };
    let total: usize = b.len();
    if total - p < 8 + 4 + AFTER_SIZE_TO_TRAILER + 4 + AFTER_TRAILER_TO_BASE_COUNT + 8 {
        return None;
    }
    let hash: u64 = read_u64(b, p).unwrap();
    let size: u32 = read_u32(b, p + 8).unwrap();
    let trailer: u32 = read_u32(b, p + 24).unwrap();
    let q: usize = p + 48;
    let base_count: u64 = read_u64(b, q).unwrap();
    if base_count > MAX_COUNT {
        let d = TypeDef { name, hash, size, trailer, fields: Vec::new(), bases: Vec::new() };
        proof {
            assert(d.spec_view().fields =~= Seq::<SpecField>::empty());
            assert(d.spec_view().bases =~= Seq::<(u64, u32)>::empty());
        }
        return Some(d);
    }
    let n: usize = base_count as usize;
    if (total - q - 8) / 12 < n || total - q - 8 - 12 * n < AFTER_BASES_TO_FIELD_COUNT + 8 {
        return None;
    }
    let mut bases: Vec<(u64, u32)> = Vec::new();
    let mut i: usize = 0;
    while i < n
        invariant
            i <= n,
            n == base_count,
            q + 8 + 12 * n + 24 + 8 <= b@.len(),
            b@.len() == total,
            bases@ =~= bases_at(b@, q + 8, i as nat),
        decreases n - i,
    {
        let at: usize = q + 8 + 12 * i;
        let h: u64 = read_u64(b, at).unwrap();
        let x: u32 = read_u32(b, at + 8).unwrap();
        bases.push((h, x));
        i += 1;
        proof {
            assert(bases@ =~= bases_at(b@, q + 8, i as nat));
        }
    }
    let r: usize = q + 8 + 12 * n + AFTER_BASES_TO_FIELD_COUNT;
    let field_count: u64 = read_u64(b, r).unwrap();
    let fields: Vec<FieldDef> = if field_count <= MAX_COUNT {
        match read_fields(b, r + 8, field_count as usize, size) {
            Some(v) => v,
            None => Vec::new(),
        }
    } else {
        Vec::new()
    };
    proof {
        let fv = fields@.map_values(|f: FieldDef| f.spec_view());
        if field_count > MAX_COUNT || fields_at(b@, r + 8, field_count as nat, size) is None {
            assert(fv =~= Seq::<SpecField>::empty());
        }
    }
    let d = TypeDef { name, hash, size, trailer, fields, bases };
    Some(d)
}

} // verus!

verus! {

// ---------------------------------------------------------------------------
// Field kinds
// ---------------------------------------------------------------------------
/// Whether `pat` occurs in `s`, as bytes.
pub open spec fn occurs(s: Seq<u8>, pat: Seq<u8>) -> bool {
    exists|i: int| 0 <= i && i + pat.len() <= s.len() && #[trigger] s.subrange(i, i + pat.len()) == pat
}

/// Whether the text `pat` occurs in the text `s`.
pub open spec fn has_text(s: Seq<char>, pat: Seq<char>) -> bool {
    occurs(vstd::utf8::encode_utf8(s), vstd::utf8::encode_utf8(pat))
}

/// Whether two texts are the same.
pub open spec fn same_text(s: Seq<char>, t: Seq<char>) -> bool {
    vstd::utf8::encode_utf8(s) == vstd::utf8::encode_utf8(t)
}

fn bytes_occur(s: &[u8], pat: &[u8]) -> (r: bool)
    ensures
        r == occurs(s@, pat@),
{
    if pat.len() > s.len() {
        return false;
    }
    let n: usize = s.len();
    let last: usize = n - pat.len();
    let mut i: usize = 0;
    loop
        invariant
            i <= last,
            n == s@.len(),
            last + pat@.len() == s@.len(),
            forall|j: int| 0 <= j < i ==> #[trigger] s@.subrange(j, j + pat@.len()) != pat@,
        decreases last - i,
    {
        let window: &[u8] = vstd::slice::slice_subrange(s, i, i + pat.len());
        if crate::le::same_bytes(window, pat) {
            return true;
        }
        if i == last {
            proof {
                assert forall|j: int| 0 <= j && j + pat@.len() <= s@.len() implies #[trigger] s@.subrange(
                    j,
                    j + pat@.len(),
                ) != pat@ by {
                    assert(j <= i);
                }
            }
            return false;
        }
        i += 1;
    }
}

pub(crate) fn text_occurs(s: &str, pat: &str) -> (r: bool)
    ensures
        r == has_text(s@, pat@),
{
    bytes_occur(s.as_bytes(), pat.as_bytes())
}

fn text_is(s: &str, t: &str) -> (r: bool)
    ensures
        r == same_text(s@, t@),
{
    crate::le::same_bytes(s.as_bytes(), t.as_bytes())
}

/// Interned enum types: their values are written as string hashes.
pub open spec fn spec_is_enum_type(t: Seq<char>) -> bool {
    has_text(t, "FamilyManagerEnum"@) || has_text(t, "ReflectStringHash"@)
}

/// Whether a type name is an interned enum type.
pub fn is_enum_type(ty_name: &str) -> (r: bool)
    ensures
        r == spec_is_enum_type(ty_name@),
{
    text_occurs(ty_name, "FamilyManagerEnum") || text_occurs(ty_name, "ReflectStringHash")
}

/// The kind that a type name alone decides, if it decides one.
pub open spec fn named_kind(t: Seq<char>) -> Option<FieldKind> {
    if has_text(t, "ReflectArray"@) {
        if has_text(t, "*"@) {
            Some(FieldKind::PointerArray)
        } else {
            Some(FieldKind::Array)
        }
    } else if spec_is_enum_type(t) {
        Some(FieldKind::Enum)
    } else if has_text(t, "ReflectString"@) {
        Some(FieldKind::Str)
    } else if has_text(t, "ReflectOffsetPointer"@) {
        Some(FieldKind::OffsetPointer)
    } else if same_text(t, "bool"@) {
        Some(FieldKind::Bool)
    } else if same_text(t, "float"@) || has_text(t, "int32"@) || same_text(t, "int"@) || same_text(t, "unsigned int"@) {
        Some(FieldKind::Scalar)
    } else if has_text(t, "int64"@) || same_text(t, "long long"@) || same_text(t, "unsigned long long"@) {
        Some(FieldKind::Scalar64)
    } else if same_text(t, "char"@) || same_text(t, "uint8_t"@) || same_text(t, "unsigned char"@) {
        Some(FieldKind::Scalar8)
    } else {
        None
    }
}

/// The kind of a field of type `t`: decided by its name where the name
/// decides it, else `Embed` for a type with fields and `Opaque` otherwise.
pub open spec fn spec_classify(t: Seq<char>, has_fields: bool) -> FieldKind {
    match named_kind(t) {
        Some(k) => k,
        None => if has_fields {
            FieldKind::Embed
        } else {
            FieldKind::Opaque
        },
    }
}

pub(crate) fn kind_by_name(t: &str) -> (r: Option<FieldKind>)
    ensures
        r == named_kind(t@),
{
    if text_occurs(t, "ReflectArray") {
        if text_occurs(t, "*") {
            Some(FieldKind::PointerArray)
        } else {
            Some(FieldKind::Array)
        }
    } else if is_enum_type(t) {
        Some(FieldKind::Enum)
    } else if text_occurs(t, "ReflectString") {
        Some(FieldKind::Str)
    } else if text_occurs(t, "ReflectOffsetPointer") {
        Some(FieldKind::OffsetPointer)
    } else if text_is(t, "bool") {
        Some(FieldKind::Bool)
    } else if text_is(t, "float") || text_occurs(t, "int32") || text_is(t, "int") || text_is(
        t,
        "unsigned int",
    ) {
        Some(FieldKind::Scalar)
    } else if text_occurs(t, "int64") || text_is(t, "long long") || text_is(t, "unsigned long long") {
        Some(FieldKind::Scalar64)
    } else if text_is(t, "char") || text_is(t, "uint8_t") || text_is(t, "unsigned char") {
        Some(FieldKind::Scalar8)
    } else {
        None
    }
}

/// The layout kind of a field of type `ty_name`. `has_fields` is asked only
/// when the name decides nothing: whether that type is a struct with fields.
pub fn classify_field<F: Fn(&str) -> bool>(ty_name: &str, has_fields: F) -> (k: FieldKind)
    requires
        has_fields.requires((ty_name,)),
    ensures
        named_kind(ty_name@) is Some ==> k == spec_classify(ty_name@, false),
        named_kind(ty_name@) is None ==> exists|h: bool|
            has_fields.ensures((ty_name,), h) && k == spec_classify(ty_name@, h),
{
    match kind_by_name(ty_name) {
        Some(k) => k,
        None => {
            let h: bool = has_fields(ty_name);
            let k: FieldKind = if h {
                FieldKind::Embed
            } else {
                FieldKind::Opaque
            };
            assert(has_fields.ensures((ty_name,), h) && k == spec_classify(ty_name@, h));
            k
        },
    }
}

} // verus!

verus! {

// ---------------------------------------------------------------------------
// Array element types
// ---------------------------------------------------------------------------
/// A whitespace character (the Unicode `White_Space` property, as
/// `char::is_whitespace` has it).
pub open spec fn is_ws(c: char) -> bool {
    ||| '\t' <= c && c <= '\r'
    ||| c == ' ' || c == '\u{85}' || c == '\u{a0}' || c == '\u{1680}'
    ||| '\u{2000}' <= c && c <= '\u{200a}'
    ||| c == '\u{2028}' || c == '\u{2029}' || c == '\u{202f}' || c == '\u{205f}' || c == '\u{3000}'
}

pub open spec fn trim_start(s: Seq<char>) -> Seq<char>
    decreases s.len(),
{
    if s.len() > 0 && is_ws(s[0]) {
        trim_start(s.subrange(1, s.len() as int))
    } else {
        s
    }
}

pub open spec fn trim_end_by(s: Seq<char>, star: bool) -> Seq<char>
    decreases s.len(),
{
    if s.len() > 0 && (if star {
        s.last() == '*'
    } else {
        is_ws(s.last())
    }) {
        trim_end_by(s.drop_last(), star)
    } else {
        s
    }
}

/// Leading and trailing whitespace removed.
pub open spec fn trimmed(s: Seq<char>) -> Seq<char> {
    trim_end_by(trim_start(s), false)
}

/// `s` without `p` in front and `q` behind, if it has both; else `s`.
pub open spec fn unwrap_text(s: Seq<char>, p: Seq<char>, q: Seq<char>) -> Seq<char> {
    if s.len() >= p.len() + q.len() && s.subrange(0, p.len() as int) == p && s.subrange(
        s.len() - q.len(),
        s.len() as int,
    ) == q {
        s.subrange(p.len() as int, s.len() - q.len())
    } else {
        s
    }
}

/// The element type named by an array type: the argument of
/// `util::ReflectArray<..>` without its `,StdTraits` and without a trailing
/// pointer star, trimmed.
pub open spec fn spec_array_element_type(s: Seq<char>) -> Seq<char> {
    let inner = unwrap_text(s, "util::ReflectArray<"@, ">"@);
    let elem = unwrap_text(inner, Seq::empty(), ",StdTraits"@);
    trimmed(trim_end_by(trimmed(elem), true))
}

fn ws(c: char) -> (r: bool)
    ensures
        r == is_ws(c),
{
    ('\t' <= c && c <= '\r') || c == ' ' || c == '\u{85}' || c == '\u{a0}' || c == '\u{1680}' || (
    '\u{2000}' <= c && c <= '\u{200a}') || c == '\u{2028}' || c == '\u{2029}' || c == '\u{202f}'
        || c == '\u{205f}' || c == '\u{3000}'
}

/// Whether `s@.subrange(at, at + p.len())` is `p@`.
pub(crate) fn chars_match(s: &str, at: usize, p: &str) -> (r: bool)
    requires
        at + p@.len() <= s@.len(),
    ensures
        r == (s@.subrange(at as int, at + p@.len()) == p@),
{
    let n: usize = p.unicode_len();
    let sl: usize = s.unicode_len();
    let mut k: usize = 0;
    while k < n
        invariant
            n == p@.len(),
            sl == s@.len(),
            k <= n,
            at + n <= s@.len(),
            forall|j: int| 0 <= j < k ==> s@[at + j] == p@[j],
        decreases n - k,
    {
        if s.get_char(at + k) != p.get_char(k) {
            assert(s@.subrange(at as int, at + p@.len())[k as int] != p@[k as int]);
            return false;
        }
        k += 1;
    }
    assert(s@.subrange(at as int, at + p@.len()) =~= p@);
    true
}

/// The element type named by an array type, such as `WinCondition` for
/// `util::ReflectArray<WinCondition*,StdTraits>`.
pub fn array_element_type(array_type: &str) -> (r: String)
    ensures
        r@ == spec_array_element_type(array_type@),
{
    let s = array_type;
    let n: usize = s.unicode_len();
    let pre: &str = "util::ReflectArray<";
    let post: &str = ">";
    let traits: &str = ",StdTraits";
    let pl: usize = pre.unicode_len();
    let ql: usize = post.unicode_len();
    let tl: usize = traits.unicode_len();
    let mut lo: usize = 0;
    let mut hi: usize = n;
    if pl <= n && ql <= n - pl && chars_match(s, 0, pre) && chars_match(s, n - ql, post) {
        lo = pl;
        hi = n - ql;
    }
    let ghost inner = unwrap_text(s@, pre@, post@);
    assert(s@.subrange(lo as int, hi as int) =~= inner);
    if tl <= hi - lo && chars_match(s, hi - tl, traits) {
        proof {
            let t = s@.subrange(lo as int, hi as int);
            assert(t.subrange(0, 0) =~= Seq::<char>::empty());
            assert(t.subrange(t.len() - tl, t.len() as int) =~= s@.subrange(hi - tl, hi as int));
            assert(t.subrange(0, t.len() - tl) =~= s@.subrange(lo as int, hi - tl));
        }
        hi = hi - tl;
    } else {
        proof {
            let t = s@.subrange(lo as int, hi as int);
            if t.len() >= tl {
                assert(t.subrange(t.len() - tl, t.len() as int) =~= s@.subrange(hi - tl, hi as int));
            }
        }
    }
    let ghost elem = unwrap_text(inner, Seq::empty(), traits@);
    assert(s@.subrange(lo as int, hi as int) =~= elem);
    let (lo1, hi1) = trim_range(s, lo, hi);
    let (lo2, hi2) = end_range(s, lo1, hi1, true);
    let (lo3, hi3) = trim_range(s, lo2, hi2);
    s.substring_char(lo3, hi3).to_owned()
}

fn strips_at(s: &str, i: usize, star: bool) -> (r: bool)
    requires
        i < s@.len(),
    ensures
        r == (if star {
            s@[i as int] == '*'
        } else {
            is_ws(s@[i as int])
        }),
{
    let c: char = s.get_char(i);
    if star {
        c == '*'
    } else {
        ws(c)
    }
}

/// Shrinks `[lo, hi)` past trailing stars (`star`) or whitespace.
fn end_range(s: &str, lo: usize, hi: usize, star: bool) -> (r: (usize, usize))
    requires
        lo <= hi <= s@.len(),
    ensures
        r.0 == lo,
        lo <= r.1 <= hi,
        s@.subrange(r.0 as int, r.1 as int) == trim_end_by(s@.subrange(lo as int, hi as int), star),
{
    let mut h: usize = hi;
    while h > lo && strips_at(s, h - 1, star)
        invariant
            lo <= h <= hi <= s@.len(),
            trim_end_by(s@.subrange(lo as int, hi as int), star) == trim_end_by(
                s@.subrange(lo as int, h as int),
                star,
            ),
        decreases h - lo,
    {
        let ghost t = s@.subrange(lo as int, h as int);
        proof {
            assert(t.last() == s@[h - 1]);
            assert(t.drop_last() =~= s@.subrange(lo as int, h - 1));
        }
        h = h - 1;
    }
    proof {
        let t = s@.subrange(lo as int, h as int);
        if h > lo {
            assert(t.last() == s@[h - 1]);
        }
    }
    (lo, h)
}

/// Shrinks `[lo, hi)` past leading and then trailing whitespace.
pub(crate) fn trim_range(s: &str, lo: usize, hi: usize) -> (r: (usize, usize))
    requires
        lo <= hi <= s@.len(),
    ensures
        lo <= r.0 <= r.1 <= hi,
        s@.subrange(r.0 as int, r.1 as int) == trimmed(s@.subrange(lo as int, hi as int)),
{
    let mut l: usize = lo;
    while l < hi && strips_at(s, l, false)
        invariant
            lo <= l <= hi <= s@.len(),
            trim_start(s@.subrange(lo as int, hi as int)) == trim_start(
                s@.subrange(l as int, hi as int),
            ),
        decreases hi - l,
    {
        let ghost t = s@.subrange(l as int, hi as int);
        proof {
            assert(t[0] == s@[l as int]);
            assert(t.subrange(1, t.len() as int) =~= s@.subrange(l + 1, hi as int));
        }
        l = l + 1;
    }
    proof {
        let t = s@.subrange(l as int, hi as int);
        if l < hi {
            assert(t[0] == s@[l as int]);
        }
    }
    end_range(s, l, hi, false)
}

} // verus!

verus! {

// ---------------------------------------------------------------------------
// The schema registry
// ---------------------------------------------------------------------------
/// Every type definition seen, by type hash.
#[derive(Debug, Clone)]
pub struct SchemaRegistry {
    pub types: BTreeMap<u64, TypeDef>,
}

impl SchemaRegistry {
    pub open spec fn spec_types(&self) -> Map<u64, SpecType> {
        self.types@.map_values(|t: TypeDef| t.spec_view())
    }
}

/// The first type of each hash that the `RFTY` data chunks of `cs` define,
/// added in order to `m`; a hash already present keeps its type.
pub open spec fn add_types(m: Map<u64, SpecType>, cs: Seq<SpecChunk>) -> Map<u64, SpecType>
    decreases cs.len(),
{
    if cs.len() == 0 {
        m
    } else {
        let m1 = add_types(m, cs.drop_last());
        let c = cs.last();
        match c.body {
            SpecBody::Data(d) => if c.name == tag(0x52, 0x46, 0x54, 0x59) {
                match spec_parse_type(d) {
                    Some(t) => if m1.contains_key(t.hash) {
                        m1
                    } else {
                        m1.insert(t.hash, t)
                    },
                    None => m1,
                }
            } else {
                m1
            },
            SpecBody::Folder(_) => m1,
        }
    }
}

/// The least hash whose type is named `name`, if any.
pub open spec fn first_named(m: Map<u64, TypeDef>, name: Seq<char>) -> Option<u64> {
    if exists|k: u64| m.contains_key(k) && m[k].name@ == name {
        Some(
            choose|k: u64|
                m.contains_key(k) && m[k].name@ == name && forall|j: u64|
                    m.contains_key(j) && m[j].name@ == name ==> k <= j,
        )
    } else {
        None
    }
}

} // verus!

verus! {

fn name_equals(s: &str, t: &str) -> (r: bool)
    ensures
        r == (s@ == t@),
{
    let r: bool = crate::le::same_bytes(s.as_bytes(), t.as_bytes());
    proof {
        vstd::utf8::encode_utf8_decode_utf8(s@);
        vstd::utf8::encode_utf8_decode_utf8(t@);
    }
    r
}

impl SchemaRegistry {
    /// An empty registry.
    pub fn new() -> (r: Self)
        ensures
            r.types@ == Map::<u64, TypeDef>::empty(),
    {
        SchemaRegistry { types: BTreeMap::new() }
    }

    /// Adds the type of every `RFTY` data chunk of the container, depth first
    /// in file order; a hash already known keeps its first type.
    pub fn add_from_chunky(&mut self, chunky: &Chunky)
        ensures
            final(self).spec_types() == add_types(old(self).spec_types(), data_list(chunky@.chunks)),
    {
        broadcast use vstd::std_specs::btree::group_btree_axioms;

        proof {
            lemma_u64_keys();
        }

        let chunks: Vec<&Chunk> = chunky.data_chunk_list();
        let ghost cs = data_list(chunky@.chunks);
        let ghost start = self.spec_types();
        let mut i: usize = 0;
        proof {
            assert(cs.subrange(0, 0) =~= Seq::<SpecChunk>::empty());
        }
        while i < chunks.len()
            invariant
                i <= chunks@.len(),
                view_refs(chunks@) == cs,
                self.spec_types() == add_types(start, cs.subrange(0, i as int)),
            decreases chunks.len() - i,
        {
            let chunk: &Chunk = chunks[i];
            proof {
                assert(cs.subrange(0, i + 1).drop_last() =~= cs.subrange(0, i as int));
                assert(cs.subrange(0, i + 1).last() == view_chunk(*chunk));
            }
            if let Some(data) = chunk.data() {
                if chunk.name[0] == 0x52 && chunk.name[1] == 0x46 && chunk.name[2] == 0x54
                    && chunk.name[3] == 0x59 {
                    proof {
                        assert(chunk.name@ =~= tag(0x52, 0x46, 0x54, 0x59));
                    }
                    if let Some(ty) = parse_type(data) {
                        if !self.types.contains_key(&ty.hash) {
                            let h: u64 = ty.hash;
                            let ghost tv = ty.spec_view();
                            self.types.insert(h, ty);
                            proof {
                                assert(self.spec_types() =~= add_types(
                                    start,
                                    cs.subrange(0, i as int),
                                ).insert(h, tv));
                            }
                        }
                    }
                } else {
                    proof {
                        if chunk.name@ == tag(0x52, 0x46, 0x54, 0x59) {
                            assert(chunk.name@[0] == 0x52 && chunk.name@[1] == 0x46
                                && chunk.name@[2] == 0x54 && chunk.name@[3] == 0x59);
                        }
                    }
                }
            }
            i += 1;
        }
        proof {
            assert(cs.subrange(0, i as int) =~= cs);
        }
    }

    /// The type with this hash.
    pub fn by_hash(&self, hash: u64) -> (r: Option<&TypeDef>)
        ensures
            match r {
                Some(t) => self.types@.contains_key(hash) && *t == self.types@[hash],
                None => !self.types@.contains_key(hash),
            },
    {
        broadcast use vstd::laws_cmp::group_laws_cmp, vstd::std_specs::btree::group_btree_axioms;

        self.types.get(&hash)
    }
}

} // verus!

verus! {

impl SchemaRegistry {
    /// The type named `name` with the least hash.
    pub fn by_name(&self, name: &str) -> (r: Option<&TypeDef>)
        ensures
            match first_named(self.types@, name@) {
                Some(k) => r matches Some(t) && *t == self.types@[k],
                None => r is None,
            },
    {
        broadcast use vstd::laws_cmp::group_laws_cmp, vstd::std_specs::btree::group_btree_axioms;

        let ghost m = self.types@;
        let values = self.types.values();
        let ghost key_seq: Seq<u64> = choose|ks: Seq<u64>|
            {
                &&& vstd::std_specs::btree::increasing_seq(ks)
                &&& ks.to_set() == m.dom()
                &&& ks.no_duplicates()
                &&& vstd::std_specs::iter::IteratorSpec::remaining(&values) == ks.map(|i: int, k: u64| &m[k])
            };
        for t in it: values
            invariant
                it.seq() == key_seq.map(|i: int, k: u64| &m[k]),
                vstd::std_specs::btree::increasing_seq(key_seq),
                key_seq.to_set() == m.dom(),
                key_seq.no_duplicates(),
                m == self.types@,
                forall|p: int| 0 <= p < it.index() ==> m[#[trigger] key_seq[p]].name@ != name@,
        {
            let ghost idx = it.index();
            if name_equals(t.name.as_str(), name) {
                proof {
                    let k = key_seq[idx];
                    assert(it.seq()[idx] == &m[k]);
                    assert(key_seq.to_set().contains(k));
                    assert forall|j: u64| m.contains_key(j) && m[j].name@ == name@ implies k <= j by {
                        assert(key_seq.to_set().contains(j));
                        let p = choose|p: int| 0 <= p < key_seq.len() && key_seq[p] == j;
                        if p < idx {
                            assert(m[key_seq[p]].name@ != name@);
                        } else if p > idx {
                            assert(vstd::std_specs::cmp::OrdSpec::cmp_spec(&key_seq[idx], &key_seq[p]) is Less);
                        }
                    }
                    assert(first_named(m, name@) == Some(k));
                }
                return Some(t);
            }
        }
        proof {
            assert forall|k: u64| m.contains_key(k) implies m[k].name@ != name@ by {
                assert(key_seq.to_set().contains(k));
                let p = choose|p: int| 0 <= p < key_seq.len() && key_seq[p] == k;
            }
        }
        None
    }

    /// Reads a container from `bytes` and adds its types; whether that added
    /// any. Bytes that are not a container add nothing.
    pub fn scan_reader(&mut self, bytes: &[u8]) -> (r: bool)
        ensures
            match parse_chunky(bytes@) {
                Err(_) => !r && final(self).spec_types() == old(self).spec_types(),
                Ok(c) => final(self).spec_types() == add_types(old(self).spec_types(), data_list(c.chunks))
                    && r == (final(self).types@.len() > old(self).types@.len()),
            },
    {
        broadcast use vstd::laws_cmp::group_laws_cmp, vstd::std_specs::btree::group_btree_axioms;

        match Chunky::read(bytes) {
            Ok(chunky) => {
                let before: usize = self.types.len();
                self.add_from_chunky(&chunky);
                self.types.len() > before
            },
            Err(_) => false,
        }
    }
}

} // verus!

verus! {

/// `a` comes before `b` in the key order of `u64`.
pub open spec fn ordered_before(a: u64, b: u64) -> bool {
    vstd::std_specs::cmp::OrdSpec::cmp_spec(&a, &b) is Less
}

/// `u64` keys are totally ordered, as the ordered map's operations need.
pub open spec fn u64_keys_ordered() -> bool {
    vstd::laws_cmp::obeys_cmp::<u64>() && vstd::std_specs::btree::key_obeys_cmp_spec::<u64>()
}

/// `u64` keys are totally ordered, as the map operations need.
pub(crate) proof fn lemma_u64_keys()
    ensures
        vstd::laws_cmp::obeys_cmp::<u64>(),
        vstd::std_specs::btree::key_obeys_cmp_spec::<u64>(),
        u64_keys_ordered(),
{
    broadcast use vstd::laws_cmp::group_laws_cmp, vstd::std_specs::btree::group_btree_axioms;

}

/// The least key of a map, if it has any.
pub open spec fn least_key<V>(m: Map<u64, V>) -> Option<u64> {
    if exists|k: u64| m.contains_key(k) {
        Some(choose|k: u64| m.contains_key(k) && forall|j: u64| m.contains_key(j) ==> k <= j)
    } else {
        None
    }
}

proof fn lemma_least_key_same_dom<A, B>(a: Map<u64, A>, b: Map<u64, B>)
    requires
        a.dom() == b.dom(),
    ensures
        least_key(a) == least_key(b),
{
    assert forall|k: u64| a.contains_key(k) <==> b.contains_key(k) by {}
}

fn first_type(types: &BTreeMap<u64, TypeDef>) -> (r: Option<&TypeDef>)
    ensures
        match least_key(types@) {
            Some(k) => types@.contains_key(k) && (r matches Some(t) && *t == types@[k]),
            None => r is None,
        },
{
    broadcast use vstd::laws_cmp::group_laws_cmp, vstd::std_specs::btree::group_btree_axioms;

    let ghost m = types@;
    let values = types.values();
    let ghost key_seq: Seq<u64> = choose|ks: Seq<u64>|
        {
            &&& vstd::std_specs::btree::increasing_seq(ks)
            &&& ks.to_set() == m.dom()
            &&& ks.no_duplicates()
            &&& vstd::std_specs::iter::IteratorSpec::remaining(&values) == ks.map(
                |i: int, k: u64| &m[k],
            )
        };
    for t in it: values
        invariant
            it.seq() == key_seq.map(|i: int, k: u64| &m[k]),
            vstd::std_specs::btree::increasing_seq(key_seq),
            key_seq.to_set() == m.dom(),
            key_seq.no_duplicates(),
            it.index() == 0,
            m == types@,
    {
        proof {
            let k = key_seq[0];
            assert(it.seq()[0] == &m[k]);
            assert(key_seq.to_set().contains(k));
            assert forall|j: u64| m.contains_key(j) implies k <= j by {
                assert(key_seq.to_set().contains(j));
                let p = choose|p: int| 0 <= p < key_seq.len() && key_seq[p] == j;
                if p > 0 {
                    assert(vstd::std_specs::cmp::OrdSpec::cmp_spec(&key_seq[0], &key_seq[p]) is Less);
                }
            }
            assert(least_key(m) == Some(k));
        }
        return Some(t);
    }
    proof {
        assert forall|k: u64| !m.contains_key(k) by {
            if m.contains_key(k) {
                assert(key_seq.to_set().contains(k));
            }
        }
    }
    None
}

/// The type with the least hash among those the container in `bytes`
/// defines; `None` when the bytes are not a container or define none.
fn least_type(registry: &SchemaRegistry) -> (r: Option<TypeDef>)
    ensures
        match least_key(registry.spec_types()) {
            Some(k) => r matches Some(t) && t.spec_view() == registry.spec_types()[k],
            None => r is None,
        },
{
    proof {
        assert(registry.spec_types().dom() =~= registry.types@.dom());
        lemma_least_key_same_dom(registry.types@, registry.spec_types());
    }
    match first_type(&registry.types) {
        Some(t) => {
            let c: TypeDef = t.clone();
            proof {
                let k = least_key(registry.types@)->Some_0;
                assert(registry.spec_types()[k] == registry.types@[k].spec_view());
            }
            Some(c)
        },
        None => None,
    }
}

fn registry_of(chunky: &Chunky) -> (r: SchemaRegistry)
    ensures
        r.spec_types() == add_types(Map::empty(), data_list(chunky@.chunks)),
{
    let mut registry: SchemaRegistry = SchemaRegistry::new();
    proof {
        assert(registry.spec_types() =~= Map::<u64, SpecType>::empty());
    }
    registry.add_from_chunky(chunky);
    registry
}

pub fn parse_type_from_bytes(bytes: &[u8]) -> (r: Option<TypeDef>)
    ensures
        match parse_chunky(bytes@) {
            Err(_) => r is None,
            Ok(c) => {
                let m = add_types(Map::empty(), data_list(c.chunks));
                match least_key(m) {
                    Some(k) => r matches Some(t) && t.spec_view() == m[k],
                    None => r is None,
                }
            },
        },
{
    let chunky: Chunky = match Chunky::read(bytes) {
        Ok(c) => c,
        Err(_) => {
            return None;
        },
    };
    let registry: SchemaRegistry = registry_of(&chunky);
    least_type(&registry)
}

} // verus!
