//! Targeted edits to compiled game data that leave every other byte alone.
//!
//! An `AEGD` chunk is `[u32 CRC32][node list]`. A patch reads the raw list,
//! refuses unless it re-encodes byte for byte, changes the values asked for,
//! and writes the list back behind a fresh CRC.
use vstd::prelude::*;

use crate::container::{
    chunky_bytes, parse_chunky, Chunky, lemma_view_chunks_index, lemma_view_chunks_len, lemma_view_chunks_push, view_chunk, view_chunks, Chunk,
    ChunkBody, ChunkKind, ChunkyError, SpecBody, SpecChunk, SpecChunky,
};
use crate::le::{bytes32, has_zero, push_all, push_u32, same_bytes};
use crate::raw_list::{
    list_bytes, read_raw_list, spec_read_raw_list, view_node, view_nodes, view_value, write_raw_list,
    RawListError, RawNode, RawValue, SpecNode, SpecValue,
};

verus! {

// ---------------------------------------------------------------------------
// Edits on the node tree
// ---------------------------------------------------------------------------
/// An edit of a node tree.
pub enum SpecEdit {
    /// Every CString equal to the first string becomes the second.
    CString(Seq<u8>, Seq<u8>),
    /// Every Float (type 0) under the key hash whose four bytes equal the
    /// first bytes gets the second.
    Float(u64, Seq<u8>, Seq<u8>),
}

/// The edited value of a node with key `key`.
pub open spec fn edit_value(v: SpecValue, key: u64, e: SpecEdit) -> SpecValue
    decreases v,
{
    match v {
        SpecValue::CString(s) => match e {
            SpecEdit::CString(old, new) => if s == old {
                SpecValue::CString(new)
            } else {
                v
            },
            SpecEdit::Float(_, _, _) => v,
        },
        SpecValue::FourBytes(t, b) => match e {
            SpecEdit::Float(k, old, new) => if t == 0 && key == k && b == old {
                SpecValue::FourBytes(t, new)
            } else {
                v
            },
            SpecEdit::CString(_, _) => v,
        },
        SpecValue::List(t, ch) => SpecValue::List(t, edit_nodes(ch, e)),
        _ => v,
    }
}

/// Every node edited, the tree's shape and keys kept.
pub open spec fn edit_nodes(ns: Seq<SpecNode>, e: SpecEdit) -> Seq<SpecNode>
    decreases ns,
{
    if ns.len() == 0 {
        Seq::empty()
    } else {
        let last = ns[ns.len() - 1];
        edit_nodes(ns.subrange(0, ns.len() - 1), e).push(
            SpecNode { key_hash: last.key_hash, value: edit_value(last.value, last.key_hash, e) },
        )
    }
}

/// How many values the edit changes in a node with key `key`.
pub open spec fn edit_count_value(v: SpecValue, key: u64, e: SpecEdit) -> nat
    decreases v,
{
    match v {
        SpecValue::CString(s) => match e {
            SpecEdit::CString(old, _) => if s == old {
                1
            } else {
                0
            },
            SpecEdit::Float(_, _, _) => 0,
        },
        SpecValue::FourBytes(t, b) => match e {
            SpecEdit::Float(k, old, _) => if t == 0 && key == k && b == old {
                1
            } else {
                0
            },
            SpecEdit::CString(_, _) => 0,
        },
        SpecValue::List(_, ch) => edit_count(ch, e),
        _ => 0,
    }
}

pub open spec fn edit_count(ns: Seq<SpecNode>, e: SpecEdit) -> nat
    decreases ns,
{
    if ns.len() == 0 {
        0
    } else {
        let last = ns[ns.len() - 1];
        edit_count(ns.subrange(0, ns.len() - 1), e) + edit_count_value(last.value, last.key_hash, e)
    }
}

/// A count, as far as `usize` holds it.
pub open spec fn capped(n: nat) -> usize {
    if n > usize::MAX {
        usize::MAX
    } else {
        n as usize
    }
}

/// An edit of a node tree, as the patch functions receive it.
pub enum Edit<'a> {
    CString(&'a [u8], &'a [u8]),
    Float(u64, [u8; 4], [u8; 4]),
}

impl<'a> Edit<'a> {
    pub open spec fn spec_edit(&self) -> SpecEdit {
        match *self {
            Edit::CString(old, new) => SpecEdit::CString(old@, new@),
            Edit::Float(k, old, new) => SpecEdit::Float(k, old@, new@),
        }
    }
}

fn same4(a: &[u8; 4], b: &[u8; 4]) -> (r: bool)
    ensures
        r == (a@ == b@),
{
    let r: bool = a[0] == b[0] && a[1] == b[1] && a[2] == b[2] && a[3] == b[3];
    proof {
        if r {
            assert(a@ =~= b@);
        }
    }
    r
}

fn edit_tree(nodes: &mut Vec<RawNode>, e: &Edit) -> (count: usize)
    ensures
        view_nodes(final(nodes)@) == edit_nodes(view_nodes(old(nodes)@), e.spec_edit()),
        count == capped(edit_count(view_nodes(old(nodes)@), e.spec_edit())),
    decreases old(nodes)@,
{
    let ghost start = old(nodes)@;
    let ghost es = e.spec_edit();
    let mut count: usize = 0;
    let mut i: usize = 0;
    proof {
        crate::raw_list::lemma_view_nodes_len(start);
    }
    while i < nodes.len()
        invariant
            i <= nodes@.len(),
            nodes@.len() == start.len(),
            es == e.spec_edit(),
            start == old(nodes)@,
            forall|k: int| i <= k < start.len() ==> #[trigger] nodes@[k] == start[k],
            view_nodes(nodes@.subrange(0, i as int)) == edit_nodes(
                view_nodes(start.subrange(0, i as int)),
                es,
            ),
            count == capped(edit_count(view_nodes(start.subrange(0, i as int)), es)),
        decreases nodes.len() - i,
    {
        let ghost before = nodes@;
        let ghost orig = start[i as int];
        let key: u64 = nodes[i].key_hash;
        let mut added: usize = 0;
        match &mut nodes[i].value {
            RawValue::CString(value) => {
                if let Edit::CString(old, new) = e {
                    if crate::le::same_bytes(value.as_slice(), old) {
                        *value = vstd::slice::slice_to_vec(new);
                        added = 1;
                    }
                }
            },
            RawValue::FourBytes { data_type, bytes } => {
                if let Edit::Float(k, old, new) = e {
                    if *data_type == 0 && key == *k && same4(bytes, old) {
                        *bytes = *new;
                        added = 1;
                    }
                }
            },
            RawValue::List { children, .. } => {
                proof {
                    assert(orig.value is List);
                    assert(*children == orig.value->children);
                    assert(decreases_to!(start => start[i as int]));
                    assert(decreases_to!(orig => orig.value));
                    assert(decreases_to!(orig.value => orig.value->children));
                    assert(decreases_to!(orig.value->children => orig.value->children@));
                    assert(decreases_to!(start => (*children)@));
                }
                added = edit_tree(children, e);
            },
            _ => {},
        }
        count = count.saturating_add(added);
        proof {
            let sv = view_value(orig.value);
            assert(view_node(orig) == view_nodes(start)[i as int]) by {
                crate::raw_list::lemma_view_nodes_index(start, i as int);
            }
            assert(nodes@.len() == before.len());
            assert forall|k: int| 0 <= k < nodes@.len() && k != i implies #[trigger] nodes@[k]
                == before[k] by {}
            assert(nodes@[i as int].key_hash == orig.key_hash);
            assert(view_value(nodes@[i as int].value) == edit_value(sv, orig.key_hash, es));
            assert(added == capped(edit_count_value(sv, orig.key_hash, es)));
            let p1 = nodes@.subrange(0, i + 1);
            assert(p1.subrange(0, i as int) =~= nodes@.subrange(0, i as int));
            assert(nodes@.subrange(0, i as int) =~= before.subrange(0, i as int));
            let s1 = start.subrange(0, i + 1);
            assert(s1.subrange(0, i as int) =~= start.subrange(0, i as int));
            assert(s1[i as int] == orig);
            crate::raw_list::lemma_view_nodes_len(start.subrange(0, i as int));
            crate::raw_list::lemma_view_nodes_len(nodes@.subrange(0, i as int));
            let vs1 = view_nodes(s1);
            assert(vs1 == view_nodes(start.subrange(0, i as int)).push(view_node(orig)));
            assert(vs1.subrange(0, i as int) =~= view_nodes(start.subrange(0, i as int)));
            assert(vs1[i as int] == view_node(orig));
            assert(edit_nodes(vs1, es) == edit_nodes(vs1.subrange(0, i as int), es).push(
                SpecNode { key_hash: orig.key_hash, value: edit_value(sv, orig.key_hash, es) },
            ));
            assert(view_nodes(p1) == view_nodes(nodes@.subrange(0, i as int)).push(
                view_node(nodes@[i as int]),
            ));
            assert(edit_count(vs1, es) == edit_count(vs1.subrange(0, i as int), es)
                + edit_count_value(sv, orig.key_hash, es));
        }
        i += 1;
    }
    proof {
        assert(nodes@.subrange(0, i as int) =~= nodes@);
        assert(start.subrange(0, i as int) =~= start);
    }
    count
}

} // verus!

verus! {

/// Replaces every CString value equal to `from` with `to`, anywhere in the
/// node tree; returns how many were replaced.
pub fn patch_cstrings(nodes: &mut Vec<RawNode>, from: &[u8], to: &[u8]) -> (count: usize)
    ensures
        view_nodes(final(nodes)@) == edit_nodes(view_nodes(old(nodes)@), SpecEdit::CString(from@, to@)),
        count == capped(edit_count(view_nodes(old(nodes)@), SpecEdit::CString(from@, to@))),
{
    edit_tree(nodes, &Edit::CString(from, to))
}

/// Replaces the four bytes of every Float value (type 0) under `key_hash`
/// that equal `from` with `to`, anywhere in the node tree; integers and
/// values under other keys are left alone. Returns how many were replaced.
pub fn patch_f32s(nodes: &mut Vec<RawNode>, key_hash: u64, from: [u8; 4], to: [u8; 4]) -> (count: usize)
    ensures
        view_nodes(final(nodes)@) == edit_nodes(
            view_nodes(old(nodes)@),
            SpecEdit::Float(key_hash, from@, to@),
        ),
        count == capped(edit_count(view_nodes(old(nodes)@), SpecEdit::Float(key_hash, from@, to@))),
{
    edit_tree(nodes, &Edit::Float(key_hash, from, to))
}

/// `k` rounds of the reflected CRC-32 shift register (polynomial
/// `0xEDB88320`) on the state `c`.
pub open spec fn crc_shift(c: u32, k: nat) -> u32
    decreases k,
{
    if k == 0 {
        c
    } else {
        let next: u32 = if c & 1 == 1 {
            (c >> 1u32) ^ 0xEDB8_8320u32
        } else {
            c >> 1u32
        };
        crc_shift(next, (k - 1) as nat)
    }
}

/// The CRC-32 register after `data`, started from all ones.
pub open spec fn crc_register(data: Seq<u8>) -> u32
    decreases data.len(),
{
    if data.len() == 0 {
        0xFFFF_FFFFu32
    } else {
        crc_shift(crc_register(data.drop_last()) ^ (data.last() as u32), 8)
    }
}

/// The CRC-32 (IEEE 802.3) checksum of `data`: the register, started from
/// all ones, fed each byte low bit first through the reflected polynomial
/// `0xEDB88320`, and inverted at the end.
pub open spec fn crc32(data: Seq<u8>) -> u32 {
    crc_register(data) ^ 0xFFFF_FFFFu32
}

/// Feeds `data` to a fresh `flate2::Crc` and returns its `sum()`: the
/// standard CRC-32 of the bytes.
#[verifier::external_body]
pub(crate) fn crc32_of(data: &[u8]) -> (r: u32)
    ensures
        r == crc32(data@),
{
    let mut crc = flate2::Crc::new();
    crc.update(data);
    crc.sum()
}

} // verus!

verus! {

// ---------------------------------------------------------------------------
// Patching the AEGD chunk of a container
// ---------------------------------------------------------------------------
/// What a patch changed.
#[derive(Debug, Clone, Copy, PartialEq, Eq)]
pub struct PatchReport {
    /// Values rewritten.
    pub replacements: usize,
    /// Size in bytes of the `AEGD` chunk before the patch.
    pub original_aegd_size: usize,
    /// Size in bytes of the `AEGD` chunk after the patch.
    pub patched_aegd_size: usize,
}

/// Why a patch was refused.
#[derive(Debug, Clone, Copy, PartialEq, Eq)]
pub enum PatchError {
    /// The input is not a readable container.
    Container(ChunkyError),
    /// The container does not re-encode to the same bytes.
    ContainerNotByteExact,
    /// A CString edit with an empty string or a NUL byte in it.
    InvalidCString,
    /// More than one `DATA AEGD` chunk.
    MultipleAegd,
    /// A `DATA AEGD` chunk shorter than its CRC.
    AegdTooShort,
    /// The node list of the `AEGD` chunk cannot be read.
    RawList(RawListError),
    /// The node list does not re-encode to the same bytes.
    AegdNotByteExact,
    /// No `DATA AEGD` chunk.
    MissingAegd,
    /// A Float edit whose old or new value is infinite or NaN.
    NonFiniteFloat,
}

pub open spec fn aegd_tag() -> Seq<u8> {
    seq![0x41u8, 0x45, 0x47, 0x44]
}

/// A patched `AEGD` body and the number of values changed: the list after the
/// CRC is read, must re-encode exactly, is edited and is written back behind
/// the CRC of the new list.
pub open spec fn patch_body(d: Seq<u8>, e: SpecEdit) -> Result<(Seq<u8>, usize), PatchError> {
    if d.len() < 4 {
        Err(PatchError::AegdTooShort)
    } else {
        let list = d.subrange(4, d.len() as int);
        match spec_read_raw_list(list) {
            Err(x) => Err(PatchError::RawList(x)),
            Ok(ns) => if list_bytes(ns) != list {
                Err(PatchError::AegdNotByteExact)
            } else {
                let out = list_bytes(edit_nodes(ns, e));
                Ok((bytes32(crc32(out) as int) + out, capped(edit_count(ns, e))))
            },
        }
    }
}

/// Patches one chunk, given the report of an `AEGD` chunk already patched.
pub open spec fn patch_chunk(c: SpecChunk, e: SpecEdit, seen: Option<PatchReport>) -> Result<
    (SpecChunk, Option<PatchReport>),
    PatchError,
>
    decreases c,
{
    match c.body {
        SpecBody::Folder(ch) => match patch_chunks(ch, e, seen) {
            Err(x) => Err(x),
            Ok((ch2, s2)) => Ok((SpecChunk { body: SpecBody::Folder(ch2), ..c }, s2)),
        },
        SpecBody::Data(d) => if c.kind == ChunkKind::Data && c.name == aegd_tag() {
            if seen is Some {
                Err(PatchError::MultipleAegd)
            } else {
                match patch_body(d, e) {
                    Err(x) => Err(x),
                    Ok((d2, n)) => Ok(
                        (
                            SpecChunk { body: SpecBody::Data(d2), ..c },
                            Some(
                                PatchReport {
                                    replacements: n,
                                    original_aegd_size: d.len() as usize,
                                    patched_aegd_size: d2.len() as usize,
                                },
                            ),
                        ),
                    ),
                }
            }
        } else {
            Ok((c, seen))
        },
    }
}

/// Patches the chunks in order; the first refusal is the result.
pub open spec fn patch_chunks(cs: Seq<SpecChunk>, e: SpecEdit, seen: Option<PatchReport>) -> Result<
    (Seq<SpecChunk>, Option<PatchReport>),
    PatchError,
>
    decreases cs,
{
    if cs.len() == 0 {
        Ok((Seq::empty(), seen))
    } else {
        match patch_chunks(cs.subrange(0, cs.len() - 1), e, seen) {
            Err(x) => Err(x),
            Ok((done, s)) => match patch_chunk(cs[cs.len() - 1], e, s) {
                Err(x) => Err(x),
                Ok((c2, s2)) => Ok((done.push(c2), s2)),
            },
        }
    }
}

/// A container with its single `DATA AEGD` chunk patched, and the report.
pub open spec fn spec_patch(c: SpecChunky, e: SpecEdit) -> Result<(SpecChunky, PatchReport), PatchError> {
    match patch_chunks(c.chunks, e, None) {
        Err(x) => Err(x),
        Ok((cs, None)) => Err(PatchError::MissingAegd),
        Ok((cs, Some(r))) => Ok((SpecChunky { chunks: cs, ..c }, r)),
    }
}

/// A refusal in the first `j` chunks is the refusal of the whole list.
proof fn lemma_patch_err_extends(cs: Seq<SpecChunk>, j: int, e: SpecEdit, seen: Option<PatchReport>)
    requires
        0 <= j <= cs.len(),
        patch_chunks(cs.subrange(0, j), e, seen) is Err,
    ensures
        patch_chunks(cs, e, seen) == patch_chunks(cs.subrange(0, j), e, seen),
    decreases cs.len() - j,
{
    if j < cs.len() {
        let t = cs.subrange(0, j + 1);
        assert(t.subrange(0, j) =~= cs.subrange(0, j));
        assert(patch_chunks(t, e, seen) == patch_chunks(cs.subrange(0, j), e, seen));
        lemma_patch_err_extends(cs, j + 1, e, seen);
    } else {
        assert(cs.subrange(0, j) =~= cs);
    }
}

fn patch_aegd_body(d: &[u8], e: &Edit) -> (r: Result<(Vec<u8>, usize), PatchError>)
    ensures
        match patch_body(d@, e.spec_edit()) {
            Err(x) => r == Err::<(Vec<u8>, usize), PatchError>(x),
            Ok((d2, n)) => r matches Ok((v, m)) && v@ == d2 && m == n,
        },
{
    if d.len() < 4 {
        return Err(PatchError::AegdTooShort);
    }
    let list: &[u8] = vstd::slice::slice_subrange(d, 4, d.len());
    let mut nodes: Vec<RawNode> = match read_raw_list(list) {
        Ok(n) => n,
        Err(x) => {
            return Err(PatchError::RawList(x));
        },
    };
    let again: Vec<u8> = write_raw_list(nodes.as_slice());
    if !same_bytes(again.as_slice(), list) {
        return Err(PatchError::AegdNotByteExact);
    }
    let replacements: usize = edit_tree(&mut nodes, e);
    let patched_list: Vec<u8> = write_raw_list(nodes.as_slice());
    let sum: u32 = crc32_of(patched_list.as_slice());
    let mut out: Vec<u8> = Vec::new();
    push_u32(&mut out, sum);
    push_all(&mut out, patched_list.as_slice());
    Ok((out, replacements))
}

fn is_aegd(c: &Chunk) -> (r: bool)
    ensures
        r == (c.kind == ChunkKind::Data && c.name@ == aegd_tag()),
{
    let data: bool = match c.kind {
        ChunkKind::Data => true,
        ChunkKind::Folder => false,
    };
    let r: bool = data && c.name[0] == 0x41 && c.name[1] == 0x45
        && c.name[2] == 0x47 && c.name[3] == 0x44;
    proof {
        if r {
            assert(c.name@ =~= aegd_tag());
        }
        if c.name@ == aegd_tag() {
            assert(c.name@[0] == 0x41 && c.name@[1] == 0x45 && c.name@[2] == 0x47 && c.name@[3]
                == 0x44);
        }
    }
    r
}

pub open spec fn view_patch_result(r: Result<(Vec<Chunk>, Option<PatchReport>), PatchError>) -> Result<
    (Seq<SpecChunk>, Option<PatchReport>),
    PatchError,
> {
    match r {
        Ok((v, s)) => Ok((view_chunks(v@), s)),
        Err(x) => Err(x),
    }
}

fn patch_tree(chunks: &[Chunk], e: &Edit, seen: Option<PatchReport>) -> (r: Result<
    (Vec<Chunk>, Option<PatchReport>),
    PatchError,
>)
    ensures
        view_patch_result(r) == patch_chunks(view_chunks(chunks@), e.spec_edit(), seen),
    decreases chunks@,
{
    let ghost cs = view_chunks(chunks@);
    let ghost es = e.spec_edit();
    let mut out: Vec<Chunk> = Vec::new();
    let mut state: Option<PatchReport> = seen;
    let mut i: usize = 0;
    proof {
        lemma_view_chunks_len(chunks@);
        assert(cs.subrange(0, 0) =~= Seq::<SpecChunk>::empty());
        assert(view_chunks(out@) =~= Seq::<SpecChunk>::empty());
    }
    while i < chunks.len()
        invariant
            i <= chunks@.len(),
            cs == view_chunks(chunks@),
            cs.len() == chunks@.len(),
            es == e.spec_edit(),
            patch_chunks(cs.subrange(0, i as int), es, seen) == Ok::<
                (Seq<SpecChunk>, Option<PatchReport>),
                PatchError,
            >((view_chunks(out@), state)),
        decreases chunks.len() - i,
    {
        let chunk: &Chunk = &chunks[i];
        proof {
            lemma_view_chunks_index(chunks@, i as int);
            let t = cs.subrange(0, i + 1);
            assert(t.subrange(0, i as int) =~= cs.subrange(0, i as int));
            assert(t[i as int] == view_chunk(*chunk));
        }
        let ghost done = view_chunks(out@);
        let ghost step = patch_chunk(view_chunk(*chunk), es, state);
        let patched: Chunk = match &chunk.body {
            ChunkBody::Folder(children) => {
                proof {
                    assert(decreases_to!(chunks@ => chunks@[i as int]));
                    assert(decreases_to!(chunks@[i as int] => chunks@[i as int].body));
                    assert(decreases_to!(chunk.body => chunk.body->Folder_0));
                    assert(decreases_to!(*children => children@));
                }
                match patch_tree(children.as_slice(), e, state) {
                    Err(x) => {
                        proof {
                            lemma_patch_err_extends(cs, i + 1, es, seen);
                        }
                        return Err(x);
                    },
                    Ok((ch2, s2)) => {
                        state = s2;
                        Chunk {
                            kind: chunk.kind,
                            name: chunk.name,
                            version: chunk.version,
                            path: chunk.path.clone(),
                            body: ChunkBody::Folder(ch2),
                        }
                    },
                }
            },
            ChunkBody::Data(d) => {
                if is_aegd(chunk) {
                    if state.is_some() {
                        proof {
                            lemma_patch_err_extends(cs, i + 1, es, seen);
                        }
                        return Err(PatchError::MultipleAegd);
                    }
                    match patch_aegd_body(d.as_slice(), e) {
                        Err(x) => {
                            proof {
                                lemma_patch_err_extends(cs, i + 1, es, seen);
                            }
                            return Err(x);
                        },
                        Ok((d2, n)) => {
                            state = Some(
                                PatchReport {
                                    replacements: n,
                                    original_aegd_size: d.len(),
                                    patched_aegd_size: d2.len(),
                                },
                            );
                            Chunk {
                                kind: chunk.kind,
                                name: chunk.name,
                                version: chunk.version,
                                path: chunk.path.clone(),
                                body: ChunkBody::Data(d2),
                            }
                        },
                    }
                } else {
                    chunk.clone()
                }
            },
        };
        proof {
            assert(step == Ok::<(SpecChunk, Option<PatchReport>), PatchError>(
                (view_chunk(patched), state),
            ));
        }
        let ghost before = out@;
        out.push(patched);
        proof {
            lemma_view_chunks_push(before, patched);
        }
        i += 1;
    }
    proof {
        assert(cs.subrange(0, i as int) =~= cs);
    }
    Ok((out, state))
}

} // verus!

verus! {

/// A CString edit that keeps every string a single NUL-terminated value.
/// The four little-endian bytes of a finite `f32`: its exponent bits are
/// not all ones.
pub open spec fn finite_f32_bytes(b: Seq<u8>) -> bool {
    !((b[3] & 0x7f) == 0x7f && (b[2] & 0x80) == 0x80)
}

pub open spec fn valid_float_edit(from: Seq<u8>, to: Seq<u8>) -> bool {
    finite_f32_bytes(from) && finite_f32_bytes(to)
}

fn finite_f32(b: [u8; 4]) -> (r: bool)
    ensures
        r == finite_f32_bytes(b@),
{
    !((b[3] & 0x7f) == 0x7f && (b[2] & 0x80) == 0x80)
}

pub open spec fn valid_cstring_edit(from: Seq<u8>, to: Seq<u8>) -> bool {
    &&& from.len() > 0
    &&& to.len() > 0
    &&& forall|k: int| 0 <= k < from.len() ==> from[k] != 0
    &&& forall|k: int| 0 <= k < to.len() ==> to[k] != 0
}

fn patch_container(chunky: &mut Chunky, e: &Edit) -> (r: Result<PatchReport, PatchError>)
    ensures
        match spec_patch(old(chunky)@, e.spec_edit()) {
            Err(x) => r == Err::<PatchReport, PatchError>(x) && final(chunky)@ == old(chunky)@,
            Ok((c2, rep)) => r == Ok::<PatchReport, PatchError>(rep) && final(chunky)@ == c2,
        },
{
    match patch_tree(chunky.chunks.as_slice(), e, None) {
        Err(x) => Err(x),
        Ok((_, None)) => Err(PatchError::MissingAegd),
        Ok((chunks, Some(report))) => {
            chunky.chunks = chunks;
            Ok(report)
        },
    }
}

/// Replaces every CString value equal to `from` with `to`, anywhere in the
/// node tree of the container's single `DATA AEGD` chunk. Both strings must
/// be non-empty and free of NUL bytes. On a refusal the container is left as
/// it was.
pub fn patch_cstring(chunky: &mut Chunky, from: &[u8], to: &[u8]) -> (r: Result<PatchReport, PatchError>)
    ensures
        !valid_cstring_edit(from@, to@) ==> r == Err::<PatchReport, PatchError>(
            PatchError::InvalidCString,
        ) && final(chunky)@ == old(chunky)@,
        valid_cstring_edit(from@, to@) ==> match spec_patch(
            old(chunky)@,
            SpecEdit::CString(from@, to@),
        ) {
            Err(x) => r == Err::<PatchReport, PatchError>(x) && final(chunky)@ == old(chunky)@,
            Ok((c2, rep)) => r == Ok::<PatchReport, PatchError>(rep) && final(chunky)@ == c2,
        },
{
    if from.len() == 0 || to.len() == 0 || has_zero(from) || has_zero(to) {
        return Err(PatchError::InvalidCString);
    }
    patch_container(chunky, &Edit::CString(from, to))
}

/// Replaces the four little-endian bytes of every Float value under
/// `key_hash` that equal `from` with `to`, in the container's single
/// `DATA AEGD` chunk. Both values must be finite. On a refusal the
/// container is left as it was.
pub fn patch_f32_bits(chunky: &mut Chunky, key_hash: u64, from: [u8; 4], to: [u8; 4]) -> (r: Result<
    PatchReport,
    PatchError,
>)
    ensures
        !valid_float_edit(from@, to@) ==> r == Err::<PatchReport, PatchError>(
            PatchError::NonFiniteFloat,
        ) && final(chunky)@ == old(chunky)@,
        valid_float_edit(from@, to@) ==> match spec_patch(
            old(chunky)@,
            SpecEdit::Float(key_hash, from@, to@),
        ) {
            Err(x) => r == Err::<PatchReport, PatchError>(x) && final(chunky)@ == old(chunky)@,
            Ok((c2, rep)) => r == Ok::<PatchReport, PatchError>(rep) && final(chunky)@ == c2,
        },
{
    if !finite_f32(from) || !finite_f32(to) {
        return Err(PatchError::NonFiniteFloat);
    }
    patch_container(chunky, &Edit::Float(key_hash, from, to))
}

/// A whole file patched: it must read as a container that writes back to the
/// same bytes; then the edit is applied and the container written.
pub open spec fn spec_patch_file(input: Seq<u8>, e: SpecEdit) -> Result<(Seq<u8>, PatchReport), PatchError> {
    match parse_chunky(input) {
        Err(x) => Err(PatchError::Container(x)),
        Ok(c) => if chunky_bytes(c) != input {
            Err(PatchError::ContainerNotByteExact)
        } else {
            match e {
                SpecEdit::CString(from, to) if !valid_cstring_edit(from, to) => Err(
                    PatchError::InvalidCString,
                ),
                SpecEdit::Float(_, from, to) if !valid_float_edit(from, to) => Err(
                    PatchError::NonFiniteFloat,
                ),
                _ => match spec_patch(c, e) {
                    Err(x) => Err(x),
                    Ok((c2, rep)) => Ok((chunky_bytes(c2), rep)),
                },
            }
        },
    }
}

pub open spec fn view_file_result(r: Result<(Vec<u8>, PatchReport), PatchError>) -> Result<
    (Seq<u8>, PatchReport),
    PatchError,
> {
    match r {
        Ok((v, rep)) => Ok((v@, rep)),
        Err(x) => Err(x),
    }
}

fn patch_file(input: &[u8], e: &Edit) -> (r: Result<(Vec<u8>, PatchReport), PatchError>)
    ensures
        view_file_result(r) == spec_patch_file(input@, e.spec_edit()),
{
    let mut chunky: Chunky = match Chunky::read(input) {
        Ok(c) => c,
        Err(x) => {
            return Err(PatchError::Container(x));
        },
    };
    let mut control: Vec<u8> = Vec::new();
    chunky.write(&mut control);
    proof {
        assert(control@ =~= chunky_bytes(chunky@));
    }
    if !same_bytes(control.as_slice(), input) {
        return Err(PatchError::ContainerNotByteExact);
    }
    let report: PatchReport = match e {
        Edit::CString(from, to) => match patch_cstring(&mut chunky, from, to) {
            Ok(rep) => rep,
            Err(x) => {
                return Err(x);
            },
        },
        Edit::Float(k, from, to) => match patch_f32_bits(&mut chunky, *k, *from, *to) {
            Ok(rep) => rep,
            Err(x) => {
                return Err(x);
            },
        },
    };
    let mut bytes: Vec<u8> = Vec::new();
    chunky.write(&mut bytes);
    proof {
        assert(bytes@ =~= chunky_bytes(chunky@));
    }
    Ok((bytes, report))
}

/// [`patch_cstring`] over a whole file's bytes, refused unless the container
/// re-encodes to exactly those bytes; returns the patched file.
pub fn patch_cstring_bytes(input: &[u8], from: &[u8], to: &[u8]) -> (r: Result<
    (Vec<u8>, PatchReport),
    PatchError,
>)
    ensures
        view_file_result(r) == spec_patch_file(input@, SpecEdit::CString(from@, to@)),
{
    patch_file(input, &Edit::CString(from, to))
}

/// [`patch_f32_bits`] over a whole file's bytes, with the same guard.
pub fn patch_f32_bits_bytes(input: &[u8], key_hash: u64, from: [u8; 4], to: [u8; 4]) -> (r: Result<
    (Vec<u8>, PatchReport),
    PatchError,
>)
    ensures
        view_file_result(r) == spec_patch_file(input@, SpecEdit::Float(key_hash, from@, to@)),
{
    patch_file(input, &Edit::Float(key_hash, from, to))
}

} // verus!

verus! {

/// `b` is `a` with at most the bodies of its `DATA AEGD` chunks changed.
pub open spec fn same_but_aegd(a: SpecChunk, b: SpecChunk) -> bool
    decreases a, 0int,
{
    &&& a.kind == b.kind
    &&& a.name == b.name
    &&& a.version == b.version
    &&& a.path == b.path
    &&& match a.body {
        SpecBody::Data(x) => match b.body {
            SpecBody::Data(y) => (a.kind == ChunkKind::Data && a.name == aegd_tag()) || x == y,
            SpecBody::Folder(_) => false,
        },
        SpecBody::Folder(x) => match b.body {
            SpecBody::Folder(y) => all_same_but_aegd(x, y),
            SpecBody::Data(_) => false,
        },
    }
}

pub open spec fn all_same_but_aegd(a: Seq<SpecChunk>, b: Seq<SpecChunk>) -> bool
    decreases a, 1int,
{
    a.len() == b.len() && (a.len() == 0 || (all_same_but_aegd(
        a.subrange(0, a.len() - 1),
        b.subrange(0, b.len() - 1),
    ) && same_but_aegd(a[a.len() - 1], b[b.len() - 1])))
}

proof fn lemma_patch_chunk_same(c: SpecChunk, e: SpecEdit, seen: Option<PatchReport>)
    requires
        patch_chunk(c, e, seen) is Ok,
    ensures
        same_but_aegd(c, patch_chunk(c, e, seen)->Ok_0.0),
    decreases c, 0int, 0int,
{
    if let SpecBody::Folder(ch) = c.body {
        lemma_patch_chunks_same(ch, e, seen);
    }
}

proof fn lemma_patch_chunks_same(cs: Seq<SpecChunk>, e: SpecEdit, seen: Option<PatchReport>)
    requires
        patch_chunks(cs, e, seen) is Ok,
    ensures
        all_same_but_aegd(cs, patch_chunks(cs, e, seen)->Ok_0.0),
    decreases cs, 1int, 0int,
{
    if cs.len() > 0 {
        let d = cs.subrange(0, cs.len() - 1);
        lemma_patch_chunks_same(d, e, seen);
        let (done, s) = patch_chunks(d, e, seen)->Ok_0;
        lemma_patch_chunk_same(cs[cs.len() - 1], e, s);
        let out = patch_chunks(cs, e, seen)->Ok_0.0;
        assert(out.subrange(0, out.len() - 1) =~= done);
    }
}

/// A patch changes nothing but the bodies of `DATA AEGD` chunks: the header,
/// the tree's shape and every other chunk stay as they were.
pub proof fn law_patch_only_touches_aegd(c: SpecChunky, e: SpecEdit)
    requires
        spec_patch(c, e) is Ok,
    ensures
        spec_patch(c, e)->Ok_0.0.major == c.major,
        spec_patch(c, e)->Ok_0.0.minor == c.minor,
        spec_patch(c, e)->Ok_0.0.platform == c.platform,
        all_same_but_aegd(c.chunks, spec_patch(c, e)->Ok_0.0.chunks),
{
    lemma_patch_chunks_same(c.chunks, e, None);
}

} // verus!
