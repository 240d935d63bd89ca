//! The raw node list of a compiled game-data (`AEGD`) body.
//!
//! A list is `[u32 count]`, then `count` index entries `[u64 key hash]
//! [i32 data type][i32 offset]`, then the packed values; each offset counts
//! from the end of the index. Values are kept as their bytes, so a list that
//! is read and written again comes out byte for byte the same.
use vstd::prelude::*;

use crate::le::{
    bytes16, bytes32, bytes64, le16, le32, le64, push_all, push_len32, push_u16, push_u32, push_u64,
    read_u16, read_u32, read_u64,
};

verus! {

#[derive(Debug, PartialEq, Eq)]
pub enum RawValue {
    FourBytes { data_type: i32, bytes: [u8; 4] },
    Bool(u8),
    CString(Vec<u8>),
    LocString(Vec<u16>),
    List { data_type: i32, children: Vec<RawNode> },
}

#[derive(Debug, PartialEq, Eq)]
pub struct RawNode {
    pub key_hash: u64,
    pub value: RawValue,
}

/// Why a raw node list could not be read.
#[derive(Debug, Clone, Copy, PartialEq, Eq)]
pub enum RawListError {
    /// A count, an index entry or a value runs past the end of the bytes.
    UnexpectedEof,
    /// The value of `key_hash` has an offset that points before the start of
    /// the bytes.
    OffsetOverflow { key_hash: u64, offset: i32 },
    /// A data type other than 0, 1, 2, 3, 4, 100 or 101.
    UnsupportedType { data_type: i32 },
    /// A list that contains itself: its nesting never ends.
    TooDeep,
}

/// The mathematical value of a raw value.
pub enum SpecValue {
    FourBytes(i32, Seq<u8>),
    Bool(u8),
    CString(Seq<u8>),
    LocString(Seq<u16>),
    List(i32, Seq<SpecNode>),
}

pub struct SpecNode {
    pub key_hash: u64,
    pub value: SpecValue,
}

pub open spec fn view_value(v: RawValue) -> SpecValue
    decreases v,
{
    match v {
        RawValue::FourBytes { data_type, bytes } => SpecValue::FourBytes(data_type, bytes@),
        RawValue::Bool(b) => SpecValue::Bool(b),
        RawValue::CString(s) => SpecValue::CString(s@),
        RawValue::LocString(u) => SpecValue::LocString(u@),
        RawValue::List { data_type, children } => SpecValue::List(
            data_type,
            view_nodes(children@),
        ),
    }
}

pub open spec fn view_node(n: RawNode) -> SpecNode
    decreases n,
{
    SpecNode { key_hash: n.key_hash, value: view_value(n.value) }
}

pub open spec fn view_nodes(s: Seq<RawNode>) -> Seq<SpecNode>
    decreases s,
{
    if s.len() == 0 {
        Seq::empty()
    } else {
        view_nodes(s.subrange(0, s.len() - 1)).push(view_node(s[s.len() - 1]))
    }
}

impl View for RawNode {
    type V = SpecNode;

    open spec fn view(&self) -> SpecNode {
        view_node(*self)
    }
}

pub proof fn lemma_view_nodes_len(s: Seq<RawNode>)
    ensures
        view_nodes(s).len() == s.len(),
    decreases s.len(),
{
    if s.len() > 0 {
        lemma_view_nodes_len(s.subrange(0, s.len() - 1));
    }
}

pub proof fn lemma_view_nodes_index(s: Seq<RawNode>, i: int)
    requires
        0 <= i < s.len(),
    ensures
        view_nodes(s).len() == s.len(),
        view_nodes(s)[i] == view_node(s[i]),
    decreases s.len(),
{
    lemma_view_nodes_len(s);
    if i < s.len() - 1 {
        let t = s.subrange(0, s.len() - 1);
        lemma_view_nodes_index(t, i);
    }
}

pub proof fn lemma_view_nodes_push(s: Seq<RawNode>, n: RawNode)
    ensures
        view_nodes(s.push(n)) == view_nodes(s).push(view_node(n)),
{
    let t = s.push(n);
    assert(t.subrange(0, t.len() - 1) =~= s);
}

pub proof fn lemma_view_nodes_pointwise(a: Seq<RawNode>, b: Seq<RawNode>)
    requires
        a.len() == b.len(),
        forall|j: int| 0 <= j < a.len() ==> view_node(#[trigger] a[j]) == view_node(b[j]),
    ensures
        view_nodes(a) == view_nodes(b),
    decreases a.len(),
{
    if a.len() > 0 {
        let a1 = a.subrange(0, a.len() - 1);
        let b1 = b.subrange(0, b.len() - 1);
        assert forall|j: int| 0 <= j < a1.len() implies view_node(#[trigger] a1[j]) == view_node(
            b1[j],
        ) by {
            assert(a1[j] == a[j]);
            assert(b1[j] == b[j]);
        }
        lemma_view_nodes_pointwise(a1, b1);
    }
}

impl Clone for RawNode {
    fn clone(&self) -> (res: Self)
        ensures
            res@ == self@,
        decreases self,
    {
        let value = match &self.value {
            RawValue::FourBytes { data_type, bytes } => RawValue::FourBytes {
                data_type: *data_type,
                bytes: *bytes,
            },
            RawValue::Bool(b) => RawValue::Bool(*b),
            RawValue::CString(s) => RawValue::CString(s.clone()),
            RawValue::LocString(u) => RawValue::LocString(u.clone()),
            RawValue::List { data_type, children } => {
                let mut out: Vec<RawNode> = Vec::new();
                let mut i: usize = 0;
                while i < children.len()
                    invariant
                        i <= children.len(),
                        out@.len() == i,
                        self.value is List && self.value->children == *children,
                        forall|j: int|
                            0 <= j < i ==> view_node(#[trigger] out@[j]) == view_node(children@[j]),
                    decreases children.len() - i,
                {
                    proof {
                        assert(decreases_to!(*self => self.value));
                        assert(decreases_to!(self.value => self.value->children));
                        assert(decreases_to!(*children => children@));
                        assert(decreases_to!(children@ => children@[i as int]));
                    }
                    out.push(children[i].clone());
                    i += 1;
                }
                proof {
                    lemma_view_nodes_pointwise(out@, children@);
                }
                RawValue::List { data_type: *data_type, children: out }
            },
        };
        RawNode { key_hash: self.key_hash, value }
    }
}

// ---------------------------------------------------------------------------
// Reading
// ---------------------------------------------------------------------------
/// The first zero byte at or after `pos`.
pub open spec fn zero_at(b: Seq<u8>, pos: int) -> Option<int>
    decreases b.len() - pos,
{
    if pos < 0 || pos >= b.len() {
        None
    } else if b[pos] == 0 {
        Some(pos)
    } else {
        zero_at(b, pos + 1)
    }
}

/// The little-endian `u16` units from `pos` up to a zero unit, which ends
/// them; `None` when the bytes run out first.
pub open spec fn wstring_at(b: Seq<u8>, pos: int) -> Option<Seq<u16>>
    decreases b.len() - pos,
{
    if pos < 0 || pos + 2 > b.len() {
        None
    } else if le16(b, pos) == 0 {
        Some(Seq::empty())
    } else {
        match wstring_at(b, pos + 2) {
            Some(rest) => Some(seq![le16(b, pos) as u16] + rest),
            None => None,
        }
    }
}

/// The value of `data_type` stored at `pos`; a nested list may nest `fuel`
/// levels deeper.
pub open spec fn value_at(b: Seq<u8>, pos: int, data_type: i32, fuel: nat) -> Result<
    SpecValue,
    RawListError,
>
    decreases fuel, 0int, 0int,
{
    if data_type == 0 || data_type == 1 {
        if pos + 4 > b.len() {
            Err(RawListError::UnexpectedEof)
        } else {
            Ok(SpecValue::FourBytes(data_type, b.subrange(pos, pos + 4)))
        }
    } else if data_type == 2 {
        if pos + 1 > b.len() {
            Err(RawListError::UnexpectedEof)
        } else {
            Ok(SpecValue::Bool(b[pos]))
        }
    } else if data_type == 3 {
        match zero_at(b, pos) {
            Some(z) => Ok(SpecValue::CString(b.subrange(pos, z))),
            None => Err(RawListError::UnexpectedEof),
        }
    } else if data_type == 4 {
        match wstring_at(b, pos) {
            Some(u) => Ok(SpecValue::LocString(u)),
            None => Err(RawListError::UnexpectedEof),
        }
    } else if data_type == 100 || data_type == 101 {
        if fuel == 0 {
            Err(RawListError::TooDeep)
        } else {
            match list_at(b, pos, (fuel - 1) as nat) {
                Ok(ns) => Ok(SpecValue::List(data_type, ns)),
                Err(e) => Err(e),
            }
        }
    } else {
        Err(RawListError::UnsupportedType { data_type })
    }
}

/// The `k` nodes whose index entries start at `idx`, their values found from
/// `data_start`, in index order; the first failure is the result.
pub open spec fn nodes_at(b: Seq<u8>, idx: int, data_start: int, k: nat, fuel: nat) -> Result<
    Seq<SpecNode>,
    RawListError,
>
    decreases fuel, 1int, k,
{
    if k == 0 {
        Ok(Seq::empty())
    } else {
        let key_hash = le64(b, idx) as u64;
        let data_type = (le32(b, idx + 8) as u32) as i32;
        let offset = (le32(b, idx + 12) as u32) as i32;
        let position = data_start + offset;
        if position < 0 {
            Err(RawListError::OffsetOverflow { key_hash, offset })
        } else {
            match value_at(b, position, data_type, fuel) {
                Err(e) => Err(e),
                Ok(v) => match nodes_at(b, idx + 16, data_start, (k - 1) as nat, fuel) {
                    Err(e) => Err(e),
                    Ok(rest) => Ok(seq![SpecNode { key_hash, value: v }] + rest),
                },
            }
        }
    }
}

/// The node list stored at `pos`.
pub open spec fn list_at(b: Seq<u8>, pos: int, fuel: nat) -> Result<Seq<SpecNode>, RawListError>
    decreases fuel, 2int, 0int,
{
    if pos < 0 || pos + 4 > b.len() {
        Err(RawListError::UnexpectedEof)
    } else {
        let count = le32(b, pos);
        if pos + 4 + 16 * count > b.len() {
            Err(RawListError::UnexpectedEof)
        } else {
            nodes_at(b, pos + 4, pos + 4 + 16 * count, count as nat, fuel)
        }
    }
}

/// The node list that fills `b`. Every level of nesting starts at a
/// different position unless a list contains itself, so `b.len()` levels are
/// never used up by a list that ends.
pub open spec fn spec_read_raw_list(b: Seq<u8>) -> Result<Seq<SpecNode>, RawListError> {
    list_at(b, 0, b.len())
}

pub open spec fn view_value_result(r: Result<RawValue, RawListError>) -> Result<SpecValue, RawListError> {
    match r {
        Ok(v) => Ok(view_value(v)),
        Err(e) => Err(e),
    }
}

pub open spec fn view_list_result(r: Result<Vec<RawNode>, RawListError>) -> Result<
    Seq<SpecNode>,
    RawListError,
> {
    match r {
        Ok(v) => Ok(view_nodes(v@)),
        Err(e) => Err(e),
    }
}

pub open spec fn chain(acc: Seq<SpecNode>, r: Result<Seq<SpecNode>, RawListError>) -> Result<
    Seq<SpecNode>,
    RawListError,
> {
    match r {
        Ok(rest) => Ok(acc + rest),
        Err(e) => Err(e),
    }
}

} // verus!

verus! {

fn read_cstring_at(b: &[u8], pos: usize) -> (r: Option<Vec<u8>>)
    requires
        pos <= b@.len(),
    ensures
        match zero_at(b@, pos as int) {
            Some(z) => r matches Some(v) && v@ == b@.subrange(pos as int, z),
            None => r is None,
        },
{
    let mut i: usize = pos;
    while i < b.len()
        invariant
            pos <= i <= b@.len(),
            zero_at(b@, pos as int) == zero_at(b@, i as int),
        decreases b.len() - i,
    {
        if b[i] == 0 {
            let s: &[u8] = vstd::slice::slice_subrange(b, pos, i);
            return Some(vstd::slice::slice_to_vec(s));
        }
        i += 1;
    }
    None
}

fn read_wstring_at(b: &[u8], pos: usize) -> (r: Option<Vec<u16>>)
    requires
        pos <= b@.len(),
    ensures
        match wstring_at(b@, pos as int) {
            Some(u) => r matches Some(v) && v@ == u,
            None => r is None,
        },
{
    let mut units: Vec<u16> = Vec::new();
    let mut i: usize = pos;
    while i < b.len() && b.len() - i >= 2
        invariant
            pos <= i <= b@.len(),
            wstring_at(b@, pos as int) == (match wstring_at(b@, i as int) {
                Some(rest) => Some(units@ + rest),
                None => None::<Seq<u16>>,
            }),
        decreases b.len() - i,
    {
        let unit: u16 = read_u16(b, i).unwrap();
        if unit == 0 {
            proof {
                assert(units@ + Seq::<u16>::empty() =~= units@);
            }
            return Some(units);
        }
        let ghost before = units@;
        units.push(unit);
        proof {
            let rest = wstring_at(b@, i + 2);
            if let Some(r) = rest {
                assert(before + (seq![unit] + r) =~= units@ + r);
            }
        }
        i += 2;
    }
    None
}

fn read_value_at(b: &[u8], pos: usize, data_type: i32, fuel: usize) -> (r: Result<RawValue, RawListError>)
    requires
        pos <= b@.len(),
    ensures
        view_value_result(r) == value_at(b@, pos as int, data_type, fuel as nat),
    decreases fuel, 0int, 0int,
{
    if data_type == 0 || data_type == 1 {
        if b.len() - pos < 4 {
            return Err(RawListError::UnexpectedEof);
        }
        let bytes: [u8; 4] = [b[pos], b[pos + 1], b[pos + 2], b[pos + 3]];
        proof {
            assert(bytes@ =~= b@.subrange(pos as int, pos + 4));
        }
        Ok(RawValue::FourBytes { data_type, bytes })
    } else if data_type == 2 {
        if b.len() - pos < 1 {
            return Err(RawListError::UnexpectedEof);
        }
        Ok(RawValue::Bool(b[pos]))
    } else if data_type == 3 {
        match read_cstring_at(b, pos) {
            Some(s) => Ok(RawValue::CString(s)),
            None => Err(RawListError::UnexpectedEof),
        }
    } else if data_type == 4 {
        match read_wstring_at(b, pos) {
            Some(u) => Ok(RawValue::LocString(u)),
            None => Err(RawListError::UnexpectedEof),
        }
    } else if data_type == 100 || data_type == 101 {
        if fuel == 0 {
            return Err(RawListError::TooDeep);
        }
        match read_list_at(b, pos, fuel - 1) {
            Ok(children) => Ok(RawValue::List { data_type, children }),
            Err(e) => Err(e),
        }
    } else {
        Err(RawListError::UnsupportedType { data_type })
    }
}

/// Past the end of the bytes every read fails the same way.
proof fn lemma_value_past_end(b: Seq<u8>, pos: int, data_type: i32, fuel: nat)
    requires
        pos >= b.len(),
    ensures
        value_at(b, pos, data_type, fuel) == value_at(b, b.len() as int, data_type, fuel),
{
    reveal_with_fuel(zero_at, 1);
    reveal_with_fuel(wstring_at, 1);
    if fuel > 0 {
        reveal_with_fuel(list_at, 1);
    }
}

#[verifier::rlimit(50)]
pub(crate) fn read_list_at(b: &[u8], pos: usize, fuel: usize) -> (r: Result<Vec<RawNode>, RawListError>)
    requires
        pos <= b@.len(),
    ensures
        view_list_result(r) == list_at(b@, pos as int, fuel as nat),
    decreases fuel, 2int, 0int,
{
    let count: u32 = match read_u32(b, pos) {
        Some(c) => c,
        None => {
            return Err(RawListError::UnexpectedEof);
        },
    };
    let room: u64 = (b.len() - pos - 4) as u64;
    if (count as u64) * 16 > room {
        return Err(RawListError::UnexpectedEof);
    }
    let data_start: usize = pos + 4 + (count as usize) * 16;
    let ghost total = nodes_at(b@, pos + 4, data_start as int, count as nat, fuel as nat);
    let mut out: Vec<RawNode> = Vec::new();
    let mut i: u32 = 0;
    let mut idx: usize = pos + 4;
    proof {
        lemma_view_nodes_len(out@);
        assert(view_nodes(out@) =~= Seq::<SpecNode>::empty());
        assert(chain(view_nodes(out@), total) =~= total) by {
            if let Ok(t) = total {
                assert(Seq::<SpecNode>::empty() + t =~= t);
            }
        }
    }
    while i < count
        invariant
            i <= count,
            idx == pos + 4 + 16 * i,
            data_start == pos + 4 + 16 * count,
            data_start <= b@.len(),
            total == nodes_at(b@, pos + 4, data_start as int, count as nat, fuel as nat),
            list_at(b@, pos as int, fuel as nat) == total,
            total == chain(
                view_nodes(out@),
                nodes_at(b@, idx as int, data_start as int, (count - i) as nat, fuel as nat),
            ),
        decreases count - i,
    {
        let key_hash: u64 = read_u64(b, idx).unwrap();
        let dt_bits: u32 = read_u32(b, idx + 8).unwrap();
        let off_bits: u32 = read_u32(b, idx + 12).unwrap();
        let data_type: i32 = #[verifier::truncate] (dt_bits as i32);
        let offset: i32 = #[verifier::truncate] (off_bits as i32);
        let ghost here = nodes_at(b@, idx as int, data_start as int, (count - i) as nat, fuel as nat);
        let p: i128 = data_start as i128 + offset as i128;
        if p < 0 {
            assert(here == Err::<Seq<SpecNode>, RawListError>(
                RawListError::OffsetOverflow { key_hash, offset },
            ));
            return Err(RawListError::OffsetOverflow { key_hash, offset });
        }
        let at: usize = if p > b.len() as i128 {
            b.len()
        } else {
            p as usize
        };
        proof {
            if p > b.len() {
                lemma_value_past_end(b@, p as int, data_type, fuel as nat);
            }
        }
        let value: RawValue = match read_value_at(b, at, data_type, fuel) {
            Ok(v) => v,
            Err(e) => {
                assert(here == Err::<Seq<SpecNode>, RawListError>(e));
                return Err(e);
            },
        };
        let node = RawNode { key_hash, value };
        let ghost before = out@;
        out.push(node);
        proof {
            lemma_view_nodes_push(before, node);
            let rest = nodes_at(b@, idx + 16, data_start as int, (count - i - 1) as nat, fuel as nat);
            let sn = SpecNode { key_hash, value: view_value(node.value) };
            assert(view_node(node) == sn);
            if let Ok(t) = rest {
                assert(view_nodes(before) + (seq![sn] + t) =~= view_nodes(out@) + t);
            }
        }
        i = i + 1;
        idx = idx + 16;
    }
    proof {
        assert(view_nodes(out@) + Seq::<SpecNode>::empty() =~= view_nodes(out@));
    }
    Ok(out)
}

/// Reads the node list that fills `bytes`.
pub fn read_raw_list(bytes: &[u8]) -> (r: Result<Vec<RawNode>, RawListError>)
    ensures
        view_list_result(r) == spec_read_raw_list(bytes@),
{
    read_list_at(bytes, 0, bytes.len())
}

} // verus!

verus! {

// ---------------------------------------------------------------------------
// Writing
// ---------------------------------------------------------------------------
/// The type code written for a value.
pub open spec fn data_type_of(v: SpecValue) -> i32 {
    match v {
        SpecValue::FourBytes(t, _) => t,
        SpecValue::Bool(_) => 2,
        SpecValue::CString(_) => 3,
        SpecValue::LocString(_) => 4,
        SpecValue::List(t, _) => t,
    }
}

/// The alignment of a value inside the packed value area.
pub open spec fn align_of(v: SpecValue) -> int {
    match v {
        SpecValue::FourBytes(_, _) => 4,
        SpecValue::List(_, _) => 4,
        SpecValue::LocString(_) => 2,
        SpecValue::Bool(_) => 1,
        SpecValue::CString(_) => 1,
    }
}

/// The zero bytes that bring `n` up to a multiple of `a`.
pub open spec fn pad_to(n: int, a: int) -> int {
    if n % a == 0 {
        0
    } else {
        a - n % a
    }
}

pub open spec fn zeros(n: int) -> Seq<u8> {
    Seq::new(n as nat, |i: int| 0u8)
}

pub open spec fn units_bytes(u: Seq<u16>) -> Seq<u8>
    decreases u.len(),
{
    if u.len() == 0 {
        Seq::empty()
    } else {
        units_bytes(u.drop_last()) + bytes16(u.last() as int)
    }
}

/// The bytes of a value: four raw bytes, one flag byte, a NUL-terminated
/// string, a zero-terminated run of `u16` units, or a whole nested list.
pub open spec fn value_bytes(v: SpecValue) -> Seq<u8>
    decreases v, 0int,
{
    match v {
        SpecValue::FourBytes(_, b) => b,
        SpecValue::Bool(x) => seq![x],
        SpecValue::CString(s) => s.push(0u8),
        SpecValue::LocString(u) => units_bytes(u) + bytes16(0),
        SpecValue::List(_, children) => list_bytes(children),
    }
}

/// The packed value area of a list and the offset of each value in it: each
/// value starts at the next multiple of its alignment.
pub open spec fn layout(ns: Seq<SpecNode>) -> (Seq<u8>, Seq<int>)
    decreases ns, 0int,
{
    if ns.len() == 0 {
        (Seq::empty(), Seq::empty())
    } else {
        let (blob, offs) = layout(ns.subrange(0, ns.len() - 1));
        let v = ns[ns.len() - 1].value;
        let start = blob.len() + pad_to(blob.len() as int, align_of(v));
        (blob + zeros(pad_to(blob.len() as int, align_of(v))) + value_bytes(v), offs.push(start))
    }
}

/// The index entries of a list: key hash, type code and the low 32 bits of
/// the value's offset.
pub open spec fn index_bytes(ns: Seq<SpecNode>, offs: Seq<int>) -> Seq<u8>
    decreases ns.len(),
{
    if ns.len() == 0 || offs.len() == 0 {
        Seq::empty()
    } else {
        index_bytes(ns.drop_last(), offs.drop_last()) + bytes64(ns.last().key_hash as int) + bytes32(
            (data_type_of(ns.last().value) as u32) as int,
        ) + bytes32(offs.last())
    }
}

/// The bytes of a list: the low 32 bits of its length, its index, then its
/// value area.
pub open spec fn list_bytes(ns: Seq<SpecNode>) -> Seq<u8>
    decreases ns, 1int,
{
    bytes32(ns.len() as int) + index_bytes(ns, layout(ns).1) + layout(ns).0
}

fn align(v: &RawValue) -> (r: usize)
    ensures
        r == align_of(view_value(*v)),
{
    match v {
        RawValue::FourBytes { .. } => 4,
        RawValue::List { .. } => 4,
        RawValue::LocString(_) => 2,
        RawValue::Bool(_) => 1,
        RawValue::CString(_) => 1,
    }
}

fn data_type(v: &RawValue) -> (r: i32)
    ensures
        r == data_type_of(view_value(*v)),
{
    match v {
        RawValue::FourBytes { data_type, .. } => *data_type,
        RawValue::List { data_type, .. } => *data_type,
        RawValue::Bool(_) => 2,
        RawValue::CString(_) => 3,
        RawValue::LocString(_) => 4,
    }
}

fn write_raw_value(v: &RawValue) -> (out: Vec<u8>)
    ensures
        out@ == value_bytes(view_value(*v)),
    decreases v,
{
    let mut out: Vec<u8> = Vec::new();
    match v {
        RawValue::FourBytes { bytes, .. } => {
            push_all(&mut out, bytes);
            proof {
                assert(out@ =~= bytes@);
            }
        },
        RawValue::Bool(x) => {
            out.push(*x);
            proof {
                assert(out@ =~= seq![*x]);
            }
        },
        RawValue::CString(s) => {
            push_all(&mut out, s.as_slice());
            out.push(0);
            proof {
                assert(out@ =~= s@.push(0u8));
            }
        },
        RawValue::LocString(units) => {
            let mut i: usize = 0;
            proof {
                assert(units@.subrange(0, 0) =~= Seq::<u16>::empty());
                assert(out@ =~= units_bytes(units@.subrange(0, 0)));
            }
            while i < units.len()
                invariant
                    i <= units@.len(),
                    out@ == units_bytes(units@.subrange(0, i as int)),
                decreases units.len() - i,
            {
                push_u16(&mut out, units[i]);
                proof {
                    let t = units@.subrange(0, i + 1);
                    assert(t.drop_last() =~= units@.subrange(0, i as int));
                }
                i += 1;
            }
            push_u16(&mut out, 0);
            proof {
                assert(units@.subrange(0, i as int) =~= units@);
            }
        },
        RawValue::List { children, .. } => {
            proof {
                assert(decreases_to!(*v => v->children));
                assert(decreases_to!(v->children => children@));
            }
            out = write_raw_list(children.as_slice());
        },
    }
    out
}

/// Encodes a node list: the values packed with their alignment padding,
/// behind a count and an index of key hashes, type codes and offsets.
pub fn write_raw_list(nodes: &[RawNode]) -> (out: Vec<u8>)
    ensures
        out@ == list_bytes(view_nodes(nodes@)),
    decreases nodes@,
{
    let ghost ns = view_nodes(nodes@);
    let mut blob: Vec<u8> = Vec::new();
    let mut index: Vec<u8> = Vec::new();
    let mut i: usize = 0;
    proof {
        lemma_view_nodes_len(nodes@);
        assert(ns.subrange(0, 0) =~= Seq::<SpecNode>::empty());
    }
    while i < nodes.len()
        invariant
            i <= nodes@.len(),
            ns == view_nodes(nodes@),
            ns.len() == nodes@.len(),
            blob@ == layout(ns.subrange(0, i as int)).0,
            index@ == index_bytes(ns.subrange(0, i as int), layout(ns.subrange(0, i as int)).1),
            layout(ns.subrange(0, i as int)).1.len() == i,
        decreases nodes.len() - i,
    {
        let node: &RawNode = &nodes[i];
        proof {
            lemma_view_nodes_index(nodes@, i as int);
            assert(decreases_to!(nodes@ => nodes@[i as int]));
            assert(decreases_to!(nodes@[i as int] => nodes@[i as int].value));
        }
        let a: usize = align(&node.value);
        let ghost before = blob@;
        let ghost pad = pad_to(before.len() as int, a as int);
        let rem: usize = blob.len() % a;
        let need: usize = if rem == 0 {
            0
        } else {
            a - rem
        };
        let mut k: usize = 0;
        while k < need
            invariant
                k <= need,
                need == pad,
                blob@ == before + zeros(k as int),
            decreases need - k,
        {
            blob.push(0);
            k += 1;
            proof {
                assert(blob@ =~= before + zeros(k as int));
            }
        }
        let start: usize = blob.len();
        push_u64(&mut index, node.key_hash);
        push_u32(&mut index, data_type(&node.value) as u32);
        push_len32(&mut index, start);
        let bytes: Vec<u8> = write_raw_value(&node.value);
        push_all(&mut blob, bytes.as_slice());
        proof {
            let t = ns.subrange(0, i + 1);
            assert(t.subrange(0, t.len() - 1) =~= ns.subrange(0, i as int));
            assert(t[t.len() - 1] == view_node(*node));
            assert(t.drop_last() =~= ns.subrange(0, i as int));
            assert(layout(t).1.drop_last() =~= layout(ns.subrange(0, i as int)).1);
        }
        i += 1;
    }
    let mut out: Vec<u8> = Vec::new();
    push_len32(&mut out, nodes.len());
    push_all(&mut out, index.as_slice());
    push_all(&mut out, blob.as_slice());
    proof {
        assert(ns.subrange(0, i as int) =~= ns);
    }
    out
}

} // verus!
