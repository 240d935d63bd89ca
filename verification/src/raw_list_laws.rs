//! What reading gives back of a written node list.
use vstd::prelude::*;

use crate::le::{bytes16, bytes32, bytes64, le16, le32, le64, lemma_le16_bytes16, lemma_le32_bytes32, lemma_le64_bytes64};
use crate::raw_list::{
    align_of, data_type_of, index_bytes, layout, list_at, list_bytes, nodes_at, pad_to, spec_read_raw_list,
    units_bytes, value_at, value_bytes, wstring_at, zero_at, zeros, SpecNode, SpecValue,
};

verus! {

/// A part of a part of `b` is a part of `b`.
pub proof fn lemma_part(b: Seq<u8>, p: int, whole: Seq<u8>, off: int, part: Seq<u8>)
    requires
        0 <= p,
        p + whole.len() <= b.len(),
        b.subrange(p, p + whole.len()) == whole,
        0 <= off,
        off + part.len() <= whole.len(),
        whole.subrange(off, off + part.len()) == part,
    ensures
        b.subrange(p + off, p + off + part.len()) == part,
{
    assert forall|k: int| 0 <= k < part.len() implies b.subrange(p + off, p + off + part.len())[k]
        == part[k] by {
        assert(whole[off + k] == part[k]);
        assert(b.subrange(p, p + whole.len())[off + k] == b[p + off + k]);
    }
    assert(b.subrange(p + off, p + off + part.len()) =~= part);
}

/// The layout of a prefix of a list is a prefix of the list's layout.
proof fn lemma_layout_prefix(ns: Seq<SpecNode>, j: int)
    requires
        0 <= j <= ns.len(),
    ensures
        layout(ns).1.len() == ns.len(),
        layout(ns.subrange(0, j)).0.len() <= layout(ns).0.len(),
        layout(ns).0.subrange(0, layout(ns.subrange(0, j)).0.len() as int) == layout(
            ns.subrange(0, j),
        ).0,
        layout(ns).1.subrange(0, j) == layout(ns.subrange(0, j)).1,
    decreases ns.len(),
{
    if j == ns.len() {
        assert(ns.subrange(0, j) =~= ns);
        if ns.len() == 0 {
            assert(layout(ns).1.len() == 0);
        } else {
            lemma_layout_prefix(ns.subrange(0, ns.len() - 1), 0);
        }
        assert(layout(ns).0.subrange(0, layout(ns).0.len() as int) =~= layout(ns).0);
        assert(layout(ns).1.subrange(0, j) =~= layout(ns).1);
    } else {
        let d = ns.subrange(0, ns.len() - 1);
        lemma_layout_prefix(d, j);
        assert(d.subrange(0, j) =~= ns.subrange(0, j));
        let (blob, offs) = layout(d);
        let v = ns[ns.len() - 1].value;
        let whole = blob + zeros(pad_to(blob.len() as int, align_of(v))) + value_bytes(v);
        assert(layout(ns).0 == whole);
        let pre = layout(ns.subrange(0, j)).0;
        assert(whole.subrange(0, pre.len() as int) =~= blob.subrange(0, pre.len() as int));
        assert(layout(ns).1.subrange(0, j) =~= offs.subrange(0, j));
    }
}

/// Where each value of a list lies in its value area.
pub proof fn lemma_layout_value(ns: Seq<SpecNode>, i: int)
    requires
        0 <= i < ns.len(),
        forall|k: int| 0 <= k < ns.len() ==> align_of(#[trigger] ns[k].value) > 0,
    ensures
        layout(ns).1.len() == ns.len(),
        0 <= layout(ns).1[i],
        layout(ns).1[i] + value_bytes(ns[i].value).len() <= layout(ns).0.len(),
        layout(ns).0.subrange(layout(ns).1[i], layout(ns).1[i] + value_bytes(ns[i].value).len())
            == value_bytes(ns[i].value),
{
    let sub = ns.subrange(0, i + 1);
    lemma_layout_prefix(ns, i + 1);
    let d = sub.subrange(0, sub.len() - 1);
    lemma_layout_prefix(d, 0);
    let (blob, offs) = layout(d);
    let v = sub[sub.len() - 1].value;
    assert(v == ns[i].value);
    assert(align_of(v) > 0);
    let pad = pad_to(blob.len() as int, align_of(v));
    assert(pad >= 0);
    let start = blob.len() + pad;
    let whole = blob + zeros(pad) + value_bytes(v);
    assert(layout(sub).0 == whole);
    assert(layout(sub).1 == offs.push(start));
    assert(offs.len() == i);
    assert(layout(ns).1[i] == layout(ns).1.subrange(0, i + 1)[i]);
    assert(layout(ns).1[i] == start);
    assert(whole.subrange(start, start + value_bytes(v).len()) =~= value_bytes(v));
    lemma_part(layout(ns).0, 0, whole, start, value_bytes(v));
}

/// The sixteen index bytes of entry `i`.
pub proof fn lemma_index_entry(ns: Seq<SpecNode>, offs: Seq<int>, i: int)
    requires
        offs.len() == ns.len(),
        0 <= i < ns.len(),
    ensures
        index_bytes(ns, offs).len() == 16 * ns.len(),
        index_bytes(ns, offs).subrange(16 * i, 16 * i + 16) == bytes64(ns[i].key_hash as int)
            + bytes32((data_type_of(ns[i].value) as u32) as int) + bytes32(offs[i]),
    decreases ns.len(),
{
    let d = ns.drop_last();
    let od = offs.drop_last();
    let entry = bytes64(ns.last().key_hash as int) + bytes32(
        (data_type_of(ns.last().value) as u32) as int,
    ) + bytes32(offs.last());
    assert(index_bytes(ns, offs) == index_bytes(d, od) + entry);
    if d.len() > 0 {
        lemma_index_entry(d, od, 0);
    } else {
        assert(index_bytes(d, od) == Seq::<u8>::empty());
    }
    if i < ns.len() - 1 {
        lemma_index_entry(d, od, i);
        assert(d[i] == ns[i]);
        assert(od[i] == offs[i]);
        assert(index_bytes(ns, offs).subrange(16 * i, 16 * i + 16) =~= index_bytes(d, od).subrange(
            16 * i,
            16 * i + 16,
        ));
    } else {
        assert(index_bytes(ns, offs).subrange(16 * i, 16 * i + 16) =~= entry);
    }
}

/// A string without NUL, then a NUL: the first zero is right after it.
proof fn lemma_zero_at(b: Seq<u8>, p: int, s: Seq<u8>)
    requires
        0 <= p,
        p + s.len() + 1 <= b.len(),
        b.subrange(p, p + s.len() + 1) == s.push(0u8),
        forall|k: int| 0 <= k < s.len() ==> s[k] != 0,
    ensures
        zero_at(b, p) == Some(p + s.len()),
    decreases s.len(),
{
    assert(b[p] == s.push(0u8)[0]);
    if s.len() > 0 {
        let r = s.subrange(1, s.len() as int);
        assert(b.subrange(p + 1, p + 1 + r.len() + 1) =~= r.push(0u8)) by {
            assert forall|k: int| 0 <= k < r.len() + 1 implies b.subrange(p + 1, p + 1 + r.len() + 1)[k]
                == r.push(0u8)[k] by {
                assert(b.subrange(p, p + s.len() + 1)[k + 1] == s.push(0u8)[k + 1]);
                assert(b.subrange(p, p + s.len() + 1)[k + 1] == b[p + k + 1]);
                assert(b.subrange(p + 1, p + 1 + r.len() + 1)[k] == b[p + 1 + k]);
                if k < r.len() {
                    assert(s[k + 1] == r[k]);
                    assert(s.push(0u8)[k + 1] == s[k + 1]);
                    assert(r.push(0u8)[k] == r[k]);
                } else {
                    assert(s.push(0u8)[k + 1] == 0);
                    assert(r.push(0u8)[k] == 0);
                }
            }
        }
        lemma_zero_at(b, p + 1, r);
    }
}

/// The units of `seq![x] + r` are those of `x` followed by those of `r`.
proof fn lemma_units_front(x: u16, r: Seq<u16>)
    ensures
        units_bytes(seq![x] + r) == bytes16(x as int) + units_bytes(r),
    decreases r.len(),
{
    let t = seq![x] + r;
    if r.len() == 0 {
        assert(t =~= seq![x]);
        assert(t.drop_last() =~= Seq::<u16>::empty());
        assert(units_bytes(t.drop_last()) == Seq::<u8>::empty());
        assert(units_bytes(r) == Seq::<u8>::empty());
        assert(t.last() == x);
        assert(units_bytes(t) == units_bytes(t.drop_last()) + bytes16(x as int));
        assert(units_bytes(t) =~= bytes16(x as int) + units_bytes(r));
    } else {
        assert(t.drop_last() =~= seq![x] + r.drop_last());
        assert(t.last() == r.last());
        lemma_units_front(x, r.drop_last());
        assert(units_bytes(r) == units_bytes(r.drop_last()) + bytes16(r.last() as int));
        assert(units_bytes(t) == units_bytes(t.drop_last()) + bytes16(t.last() as int));
        assert(units_bytes(t.drop_last()) == bytes16(x as int) + units_bytes(r.drop_last()));
        let hx = bytes16(x as int);
        let ur = units_bytes(r.drop_last());
        let last = bytes16(r.last() as int);
        assert(units_bytes(t) == (hx + ur) + last);
        assert((hx + ur) + last =~= hx + (ur + last));
    }
}

proof fn lemma_units_len(u: Seq<u16>)
    ensures
        units_bytes(u).len() == 2 * u.len(),
    decreases u.len(),
{
    if u.len() > 0 {
        lemma_units_len(u.drop_last());
    }
}

/// Units without a zero, then a zero unit, read back as those units.
proof fn lemma_wstring_at(b: Seq<u8>, p: int, u: Seq<u16>)
    requires
        0 <= p,
        p + 2 * u.len() + 2 <= b.len(),
        b.subrange(p, p + 2 * u.len() + 2) == units_bytes(u) + bytes16(0),
        forall|k: int| 0 <= k < u.len() ==> u[k] != 0,
    ensures
        wstring_at(b, p) == Some(u),
    decreases u.len(),
{
    lemma_units_len(u);
    if u.len() == 0 {
        assert(units_bytes(u) == Seq::<u8>::empty());
        assert(b.subrange(p, p + 2) =~= bytes16(0));
        lemma_le16_bytes16(0, b, p);
    } else {
        let x = u[0];
        let r = u.subrange(1, u.len() as int);
        assert(u =~= seq![x] + r);
        lemma_units_front(x, r);
        lemma_units_len(r);
        let whole = units_bytes(u) + bytes16(0);
        assert(whole == bytes16(x as int) + (units_bytes(r) + bytes16(0)));
        assert(whole.subrange(0, 2) =~= bytes16(x as int));
        lemma_part(b, p, whole, 0, bytes16(x as int));
        lemma_le16_bytes16(x as int, b, p);
        let rest = units_bytes(r) + bytes16(0);
        assert(whole.subrange(2, 2 + rest.len() as int) =~= rest);
        lemma_part(b, p, whole, 2, rest);
        lemma_wstring_at(b, p + 2, r);
        assert(seq![x] + r =~= u);
    }
}

} // verus!

verus! {

/// A value that writes and reads back as itself: its type code matches its
/// kind, strings hold no terminator, and a nested list is well formed.
pub open spec fn wf_value(v: SpecValue) -> bool
    decreases v, 0int,
{
    match v {
        SpecValue::FourBytes(t, b) => (t == 0 || t == 1) && b.len() == 4,
        SpecValue::Bool(_) => true,
        SpecValue::CString(s) => forall|k: int| 0 <= k < s.len() ==> #[trigger] s[k] != 0,
        SpecValue::LocString(u) => forall|k: int| 0 <= k < u.len() ==> #[trigger] u[k] != 0,
        SpecValue::List(t, ch) => (t == 100 || t == 101) && wf_list(ch),
    }
}

pub open spec fn wf_nodes(ns: Seq<SpecNode>) -> bool
    decreases ns, 0int,
{
    ns.len() == 0 || (wf_nodes(ns.subrange(0, ns.len() - 1)) && wf_value(ns[ns.len() - 1].value))
}

/// A list whose values are well formed, whose count fits in 32 bits and
/// whose value area fits the signed 32-bit offsets.
pub open spec fn wf_list(ns: Seq<SpecNode>) -> bool
    decreases ns, 1int,
{
    wf_nodes(ns) && ns.len() < 0x1_0000_0000 && layout(ns).0.len() < 0x8000_0000
}

pub open spec fn value_depth(v: SpecValue) -> nat
    decreases v,
{
    match v {
        SpecValue::List(_, ch) => 1 + nodes_depth(ch),
        _ => 0,
    }
}

/// How deeply lists nest inside `ns`.
pub open spec fn nodes_depth(ns: Seq<SpecNode>) -> nat
    decreases ns,
{
    if ns.len() == 0 {
        0
    } else {
        let a = nodes_depth(ns.subrange(0, ns.len() - 1));
        let b = value_depth(ns[ns.len() - 1].value);
        if a >= b {
            a
        } else {
            b
        }
    }
}

proof fn lemma_wf_nodes_index(ns: Seq<SpecNode>, i: int)
    requires
        wf_nodes(ns),
        0 <= i < ns.len(),
    ensures
        wf_value(ns[i].value),
        value_depth(ns[i].value) <= nodes_depth(ns),
    decreases ns.len(),
{
    if i < ns.len() - 1 {
        let d = ns.subrange(0, ns.len() - 1);
        lemma_wf_nodes_index(d, i);
        assert(d[i] == ns[i]);
    }
}

proof fn lemma_depth_value(v: SpecValue)
    ensures
        value_depth(v) <= value_bytes(v).len(),
    decreases v,
{
    if let SpecValue::List(_, ch) = v {
        lemma_depth_blob(ch);
    }
}

/// Nesting never runs deeper than the bytes of the list's value area.
pub proof fn lemma_depth_blob(ns: Seq<SpecNode>)
    ensures
        nodes_depth(ns) + 4 <= list_bytes(ns).len(),
        nodes_depth(ns) <= layout(ns).0.len(),
    decreases ns,
{
    if ns.len() > 0 {
        let d = ns.subrange(0, ns.len() - 1);
        lemma_depth_blob(d);
        lemma_depth_value(ns[ns.len() - 1].value);
    }
}

pub proof fn lemma_i32_bits(x: i32)
    ensures
        ((x as u32) as i32) == x,
{
    assert(((x as u32) as i32) == x) by (bit_vector);
}

proof fn lemma_small_offset(o: int)
    requires
        0 <= o < 0x8000_0000,
    ensures
        ((o as u32) as i32) == o,
{
}

#[verifier::spinoff_prover]
proof fn lemma_read_value(b: Seq<u8>, p: int, v: SpecValue, fuel: nat)
    requires
        wf_value(v),
        value_depth(v) <= fuel,
        0 <= p,
        p + value_bytes(v).len() <= b.len(),
        b.subrange(p, p + value_bytes(v).len()) == value_bytes(v),
    ensures
        value_at(b, p, data_type_of(v), fuel) == Ok::<SpecValue, crate::raw_list::RawListError>(v),
    decreases v, 0int, 0int,
{
    match v {
        SpecValue::FourBytes(t, bytes) => {
            assert(value_bytes(v) == bytes);
            assert(data_type_of(v) == t);
            assert(b.subrange(p, p + 4) =~= bytes);
            assert(value_at(b, p, t, fuel) == Ok::<SpecValue, crate::raw_list::RawListError>(
                SpecValue::FourBytes(t, b.subrange(p, p + 4)),
            ));
            assert(SpecValue::FourBytes(t, b.subrange(p, p + 4)) == v);
        },
        SpecValue::Bool(x) => {
            assert(b[p] == b.subrange(p, p + 1)[0]);
        },
        SpecValue::CString(s) => {
            lemma_zero_at(b, p, s);
            assert forall|k: int| 0 <= k < s.len() implies b.subrange(p, p + s.len())[k] == s[k] by {
                assert(b.subrange(p, p + s.len() + 1)[k] == s.push(0u8)[k]);
            }
            assert(b.subrange(p, p + s.len()) =~= s);
        },
        SpecValue::LocString(u) => {
            lemma_units_len(u);
            lemma_wstring_at(b, p, u);
        },
        SpecValue::List(t, ch) => {
            lemma_read_list(b, p, ch, (fuel - 1) as nat);
        },
    }
}

pub proof fn lemma_read_list(b: Seq<u8>, p: int, ns: Seq<SpecNode>, fuel: nat)
    requires
        wf_list(ns),
        nodes_depth(ns) <= fuel,
        0 <= p,
        p + list_bytes(ns).len() <= b.len(),
        b.subrange(p, p + list_bytes(ns).len()) == list_bytes(ns),
    ensures
        list_at(b, p, fuel) == Ok::<Seq<SpecNode>, crate::raw_list::RawListError>(ns),
    decreases ns, 2int, 0int,
{
    let lb = list_bytes(ns);
    let n = ns.len();
    let (blob, offs) = layout(ns);
    let idx = index_bytes(ns, offs);
    lemma_layout_prefix(ns, 0);
    if n > 0 {
        lemma_index_entry(ns, offs, 0);
    } else {
        assert(idx.len() == 0);
    }
    assert(lb == bytes32(n as int) + idx + blob);
    assert(lb.subrange(0, 4) =~= bytes32(n as int));
    lemma_part(b, p, lb, 0, bytes32(n as int));
    lemma_le32_bytes32(n as int, b, p);
    lemma_read_nodes(b, p, ns, fuel, 0);
    assert(ns.subrange(0, n as int) =~= ns);
}

#[verifier::rlimit(100)]
#[verifier::spinoff_prover]
proof fn lemma_read_nodes(b: Seq<u8>, p: int, ns: Seq<SpecNode>, fuel: nat, i: int)
    requires
        wf_list(ns),
        nodes_depth(ns) <= fuel,
        0 <= p,
        p + list_bytes(ns).len() <= b.len(),
        b.subrange(p, p + list_bytes(ns).len()) == list_bytes(ns),
        0 <= i <= ns.len(),
    ensures
        nodes_at(b, p + 4 + 16 * i, p + 4 + 16 * ns.len(), (ns.len() - i) as nat, fuel) == Ok::<
            Seq<SpecNode>,
            crate::raw_list::RawListError,
        >(ns.subrange(i, ns.len() as int)),
    decreases ns, 1int, ns.len() - i,
{
    let n = ns.len();
    if i == n {
        assert(ns.subrange(i, n as int) =~= Seq::<SpecNode>::empty());
    } else {
        let lb = list_bytes(ns);
        let (blob, offs) = layout(ns);
        let idx = index_bytes(ns, offs);
        let ds = p + 4 + 16 * n;
        lemma_layout_prefix(ns, 0);
        lemma_index_entry(ns, offs, i);
        assert(lb == bytes32(n as int) + idx + blob);
        let entry = idx.subrange(16 * i, 16 * i + 16);
        let dt = data_type_of(ns[i].value);
        assert(lb.subrange(4 + 16 * i, 4 + 16 * i + 16) =~= entry);
        lemma_part(b, p, lb, 4 + 16 * i, entry);
        let at = p + 4 + 16 * i;
        assert(entry.subrange(0, 8) =~= bytes64(ns[i].key_hash as int));
        lemma_part(b, at, entry, 0, bytes64(ns[i].key_hash as int));
        lemma_le64_bytes64(ns[i].key_hash as int, b, at);
        assert(entry.subrange(8, 12) =~= bytes32((dt as u32) as int));
        lemma_part(b, at, entry, 8, bytes32((dt as u32) as int));
        lemma_le32_bytes32((dt as u32) as int, b, at + 8);
        lemma_i32_bits(dt);
        assert forall|k: int| 0 <= k < ns.len() implies align_of(#[trigger] ns[k].value) > 0 by {}
        lemma_layout_value(ns, i);
        let o = offs[i];
        assert(entry.subrange(12, 16) =~= bytes32(o));
        lemma_part(b, at, entry, 12, bytes32(o));
        lemma_le32_bytes32(o, b, at + 12);
        lemma_small_offset(o);
        let vb = value_bytes(ns[i].value);
        assert(lb.subrange(4 + 16 * n + o, 4 + 16 * n + o + vb.len()) =~= vb) by {
            assert(idx.len() == 16 * n);
            assert forall|k: int| 0 <= k < vb.len() implies lb.subrange(
                4 + 16 * n + o,
                4 + 16 * n + o + vb.len(),
            )[k] == vb[k] by {
                assert(blob.subrange(o, o + vb.len())[k] == blob[o + k]);
            }
        }
        lemma_part(b, p, lb, 4 + 16 * n + o, vb);
        lemma_wf_nodes_index(ns, i);
        lemma_read_value(b, ds + o, ns[i].value, fuel);
        lemma_read_nodes(b, p, ns, fuel, i + 1);
        assert(seq![SpecNode { key_hash: ns[i].key_hash, value: ns[i].value }] + ns.subrange(
            i + 1,
            n as int,
        ) =~= ns.subrange(i, n as int));
    }
}

/// Writing a well-formed node list and reading the bytes back gives the same
/// list.
pub proof fn law_raw_list_roundtrip(ns: Seq<SpecNode>)
    requires
        wf_list(ns),
    ensures
        spec_read_raw_list(list_bytes(ns)) == Ok::<Seq<SpecNode>, crate::raw_list::RawListError>(ns),
{
    let lb = list_bytes(ns);
    lemma_depth_blob(ns);
    assert(lb.subrange(0, lb.len() as int) =~= lb);
    lemma_read_list(lb, 0, ns, lb.len());
}

} // verus!
