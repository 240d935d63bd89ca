//! What reading gives back of a written `.rgd` file.
use vstd::prelude::*;

use crate::container::{
    body_bytes, chunky_bytes, law_read_after_write, parse_chunky, wf_chunk, wf_chunks, wf_chunky, ChunkKind,
    ChunkyError, SpecBody, SpecChunk, SpecChunky,
};
use crate::le::{bytes32, bytes64, le32, le64, lemma_le32_bytes32, lemma_le64_bytes64};
use crate::raw_list::{layout, list_at, list_bytes, SpecNode, SpecValue};
use crate::raw_list_laws::{lemma_part, lemma_depth_blob, lemma_i32_bits, lemma_read_list, wf_list, wf_nodes, wf_value};
use crate::records::{hashed_bytes, hashed_list_bytes, hashed_records, lossy_records, parse_key_table};
use crate::rgd::{
    aegd_name, find_tables, first_names, game_nodes, game_value, key_name, keys_tag, spec_parse_aegd,
    spec_parse_rgd, RelicGameDataError, SpecGameNode, SpecGameValue,
};
use crate::rgd_write::{
    aegd_body, data_chunk_spec, encoded_list, encoded_nodes, encoded_value, first_of_each_hash, has_hash,
    hash_order, insert_stable, key_entries, key_hash, key_pairs, keys_body, name_order, rgd_container,
    sort_stable, value_key_pairs,
};
use crate::rgd_patch::crc32;
use crate::walk::data_list;
use crate::text::{lemma_utf16_char, lemma_utf16_text, utf16_of, utf8_text};

verus! {

// ---------------------------------------------------------------------------
// Stable sorting keeps the elements and commutes with maps
// ---------------------------------------------------------------------------
pub(crate) proof fn lemma_insert_elems<T>(s: Seq<T>, x: T, le: spec_fn(T, T) -> bool)
    ensures
        insert_stable(s, x, le).len() == s.len() + 1,
        forall|y: T| #[trigger] insert_stable(s, x, le).contains(y) <==> (s.contains(y) || y == x),
    decreases s.len(),
{
    let r = insert_stable(s, x, le);
    if s.len() == 0 {
        assert(r =~= seq![x]);
        assert forall|y: T| r.contains(y) <==> (s.contains(y) || y == x) by {
            if r.contains(y) {
                assert(r[0] == x);
            }
            if y == x {
                assert(r[0] == x);
            }
        }
    } else if le(s.last(), x) {
        assert forall|y: T| r.contains(y) <==> (s.contains(y) || y == x) by {
            if r.contains(y) {
                let j = choose|j: int| 0 <= j < r.len() && r[j] == y;
                if j < s.len() {
                    assert(s[j] == y);
                }
            }
            if s.contains(y) {
                let j = choose|j: int| 0 <= j < s.len() && s[j] == y;
                assert(r[j] == y);
            }
            if y == x {
                assert(r[s.len() as int] == x);
            }
        }
    } else {
        let d = s.drop_last();
        let q = insert_stable(d, x, le);
        lemma_insert_elems(d, x, le);
        assert(r == q.push(s.last()));
        assert forall|y: T| r.contains(y) <==> (s.contains(y) || y == x) by {
            if r.contains(y) {
                let j = choose|j: int| 0 <= j < r.len() && r[j] == y;
                if j < q.len() {
                    assert(q[j] == y);
                    assert(q.contains(y));
                    if d.contains(y) {
                        let k = choose|k: int| 0 <= k < d.len() && d[k] == y;
                        assert(s[k] == y);
                    }
                } else {
                    assert(s[s.len() - 1] == y);
                }
            }
            if s.contains(y) {
                let j = choose|j: int| 0 <= j < s.len() && s[j] == y;
                if j < d.len() {
                    assert(d[j] == y);
                    assert(q.contains(y));
                    let k = choose|k: int| 0 <= k < q.len() && q[k] == y;
                    assert(r[k] == y);
                } else {
                    assert(r[q.len() as int] == y);
                }
            }
            if y == x {
                assert(q.contains(x));
                let k = choose|k: int| 0 <= k < q.len() && q[k] == x;
                assert(r[k] == x);
            }
        }
    }
}

/// A stable sort keeps the length and the elements.
pub proof fn lemma_sort_elems<T>(s: Seq<T>, le: spec_fn(T, T) -> bool)
    ensures
        sort_stable(s, le).len() == s.len(),
        forall|y: T| #[trigger] sort_stable(s, le).contains(y) <==> s.contains(y),
    decreases s.len(),
{
    if s.len() > 0 {
        let d = s.drop_last();
        lemma_sort_elems(d, le);
        lemma_insert_elems(sort_stable(d, le), s.last(), le);
        assert forall|y: T| #[trigger] sort_stable(s, le).contains(y) <==> s.contains(y) by {
            if d.contains(y) {
                let k = choose|k: int| 0 <= k < d.len() && d[k] == y;
                assert(s[k] == y);
            }
            if s.contains(y) {
                let k = choose|k: int| 0 <= k < s.len() && s[k] == y;
                if k < d.len() {
                    assert(d[k] == y);
                }
            }
            if y == s.last() {
                assert(s[s.len() - 1] == y);
            }
        }
    }
}

/// Mapping commutes with a stable insertion when the two orders agree on the
/// elements involved.
proof fn lemma_insert_map<A, B>(
    s: Seq<A>,
    x: A,
    le1: spec_fn(A, A) -> bool,
    le2: spec_fn(B, B) -> bool,
    f: spec_fn(A) -> B,
)
    requires
        forall|a: A| #[trigger] s.contains(a) ==> le1(a, x) == le2(f(a), f(x)),
    ensures
        insert_stable(s, x, le1).map_values(f) == insert_stable(s.map_values(f), f(x), le2),
    decreases s.len(),
{
    let m = s.map_values(f);
    if s.len() == 0 {
        assert(insert_stable(s, x, le1).map_values(f) =~= seq![f(x)]);
    } else {
        let d = s.drop_last();
        assert(s.contains(s.last())) by {
            assert(s[s.len() - 1] == s.last());
        }
        assert(m.last() == f(s.last()));
        assert(m.drop_last() =~= d.map_values(f));
        if le1(s.last(), x) {
            assert(s.push(x).map_values(f) =~= m.push(f(x)));
        } else {
            assert forall|a: A| #[trigger] d.contains(a) implies le1(a, x) == le2(f(a), f(x)) by {
                let k = choose|k: int| 0 <= k < d.len() && d[k] == a;
                assert(0 <= k < d.len() && d[k] == a);
                assert(s[k] == a);
                assert(s.contains(a));
            }
            lemma_insert_map(d, x, le1, le2, f);
            assert(insert_stable(d, x, le1).push(s.last()).map_values(f) =~= insert_stable(
                d,
                x,
                le1,
            ).map_values(f).push(f(s.last())));
        }
    }
}

/// Mapping commutes with a stable sort when the two orders agree on the
/// elements.
pub proof fn lemma_sort_map<A, B>(
    s: Seq<A>,
    le1: spec_fn(A, A) -> bool,
    le2: spec_fn(B, B) -> bool,
    f: spec_fn(A) -> B,
)
    requires
        forall|a: A, b: A| #[trigger] s.contains(a) && #[trigger] s.contains(b) ==> le1(a, b) == le2(f(a), f(b)),
    ensures
        sort_stable(s, le1).map_values(f) == sort_stable(s.map_values(f), le2),
    decreases s.len(),
{
    if s.len() == 0 {
        assert(sort_stable(s, le1).map_values(f) =~= Seq::<B>::empty());
        assert(s.map_values(f) =~= Seq::<A>::empty().map_values(f));
    } else {
        let d = s.drop_last();
        let x = s.last();
        assert(s.contains(x)) by {
            assert(s[s.len() - 1] == x);
        }
        assert forall|a: A, b: A| #[trigger] d.contains(a) && #[trigger] d.contains(b) implies le1(a, b) == le2(f(a), f(b)) by {
            let k = choose|k: int| 0 <= k < d.len() && d[k] == a;
            assert(0 <= k < d.len() && d[k] == a);
            assert(s[k] == a);
            let k2 = choose|k: int| 0 <= k < d.len() && d[k] == b;
            assert(0 <= k2 < d.len() && d[k2] == b);
            assert(s[k2] == b);
            assert(s.contains(a) && s.contains(b));
        }
        lemma_sort_map(d, le1, le2, f);
        let t = sort_stable(d, le1);
        lemma_sort_elems(d, le1);
        assert forall|a: A| #[trigger] t.contains(a) implies le1(a, x) == le2(f(a), f(x)) by {
            assert(d.contains(a));
            let k = choose|k: int| 0 <= k < d.len() && d[k] == a;
            assert(0 <= k < d.len() && d[k] == a);
            assert(s[k] == a);
            assert(s.contains(a) && s.contains(x));
        }
        lemma_insert_map(t, x, le1, le2, f);
        let m = s.map_values(f);
        assert(m.drop_last() =~= d.map_values(f));
        assert(m.last() == f(x));
    }
}

// ---------------------------------------------------------------------------
// What can be stored
// ---------------------------------------------------------------------------
/// No character of the text is NUL.
pub open spec fn no_nul(s: Seq<char>) -> bool {
    forall|k: int| 0 <= k < s.len() ==> (#[trigger] s[k] as u32) != 0
}

pub open spec fn storable_value(v: SpecGameValue) -> bool
    decreases v, 0int,
{
    match v {
        SpecGameValue::CString(s) => no_nul(s),
        SpecGameValue::LocString(s) => no_nul(s),
        SpecGameValue::List(ns) => storable_list(ns),
        SpecGameValue::List2(ns) => storable_list(ns),
        _ => true,
    }
}

pub open spec fn storable_each(ns: Seq<SpecGameNode>) -> bool
    decreases ns, 1int,
{
    if ns.len() == 0 {
        true
    } else {
        let n = ns[ns.len() - 1];
        proof {
            assert(decreases_to!(ns => n));
            assert(decreases_to!(n => n.value));
        }
        storable_each(ns.subrange(0, ns.len() - 1)) && storable_value(n.value)
    }
}

/// A list that can be written and read back: no string in it holds a NUL
/// character, and each list's count fits in 32 bits and its packed values in
/// the 31 bits of a signed offset.
pub open spec fn storable_list(ns: Seq<SpecGameNode>) -> bool
    decreases ns, 2int,
{
    &&& storable_each(ns)
    &&& ns.len() < 0x1_0000_0000
    &&& layout(encoded_list(ns)).0.len() < 0x8000_0000
}

proof fn lemma_storable_index(ns: Seq<SpecGameNode>, i: int)
    requires
        storable_each(ns),
        0 <= i < ns.len(),
    ensures
        storable_value(ns[i].value),
    decreases ns.len(),
{
    if i < ns.len() - 1 {
        lemma_storable_index(ns.subrange(0, ns.len() - 1), i);
    }
}

pub proof fn lemma_encoded_nodes_index(ns: Seq<SpecGameNode>, i: int)
    requires
        0 <= i < ns.len(),
    ensures
        encoded_nodes(ns).len() == ns.len(),
        encoded_nodes(ns)[i] == (SpecNode { key_hash: key_hash(ns[i].key), value: encoded_value(ns[i].value) }),
    decreases ns.len(),
{
    lemma_encoded_nodes_len(ns);
    if i < ns.len() - 1 {
        lemma_encoded_nodes_index(ns.subrange(0, ns.len() - 1), i);
    }
}

pub proof fn lemma_encoded_nodes_len(ns: Seq<SpecGameNode>)
    ensures
        encoded_nodes(ns).len() == ns.len(),
    decreases ns.len(),
{
    if ns.len() > 0 {
        lemma_encoded_nodes_len(ns.subrange(0, ns.len() - 1));
    }
}

proof fn lemma_wf_nodes_all(s: Seq<SpecNode>)
    requires
        forall|i: int| 0 <= i < s.len() ==> wf_value(#[trigger] s[i].value),
    ensures
        wf_nodes(s),
    decreases s.len(),
{
    if s.len() > 0 {
        let d = s.subrange(0, s.len() - 1);
        assert forall|i: int| 0 <= i < d.len() implies wf_value(#[trigger] d[i].value) by {
            assert(d[i] == s[i]);
        }
        lemma_wf_nodes_all(d);
    }
}

/// The UTF-8 bytes of a text without NUL hold no zero byte.
proof fn lemma_utf8_no_zero(s: Seq<char>)
    requires
        no_nul(s),
    ensures
        forall|k: int| 0 <= k < vstd::utf8::encode_utf8(s).len() ==> #[trigger] vstd::utf8::encode_utf8(s)[k] != 0,
    decreases s.len(),
{
    if s.len() > 0 {
        let rest = s.drop_first();
        assert forall|k: int| 0 <= k < rest.len() implies (#[trigger] rest[k] as u32) != 0 by {
            assert(rest[k] == s[k + 1]);
        }
        lemma_utf8_no_zero(rest);
        let v = s[0] as u32;
        assert(v != 0);
        let e = vstd::utf8::encode_scalar(v);
        assert forall|k: int| 0 <= k < e.len() implies #[trigger] e[k] != 0 by {
            if vstd::utf8::has_width_1_encoding(v) {
                assert((v & 0x7F) as u8 != 0) by (bit_vector)
                    requires
                        v != 0 && v <= 0x7F,
                ;
            } else {
                let a = ((v >> 6) & 0x1F) as u8;
                let b = ((v >> 12) & 0x0F) as u8;
                let c = ((v >> 18) & 0x7) as u8;
                let d = (v & 0x3F) as u8;
                let f = ((v >> 6) & 0x3F) as u8;
                let g = ((v >> 12) & 0x3F) as u8;
                assert(0xC0u8 | a != 0 && 0xE0u8 | b != 0 && 0xF0u8 | c != 0 && 0x80u8 | d != 0
                    && 0x80u8 | f != 0 && 0x80u8 | g != 0) by (bit_vector);
            }
        }
        let all = vstd::utf8::encode_utf8(s);
        assert(all == e + vstd::utf8::encode_utf8(rest));
        assert forall|k: int| 0 <= k < all.len() implies #[trigger] all[k] != 0 by {
            if k < e.len() {
                assert(all[k] == e[k]);
            } else {
                assert(all[k] == vstd::utf8::encode_utf8(rest)[k - e.len()]);
            }
        }
    }
}

/// The UTF-16 units of a text without NUL hold no zero unit.
proof fn lemma_utf16_no_zero(s: Seq<char>)
    requires
        no_nul(s),
    ensures
        forall|k: int| 0 <= k < utf16_of(s).len() ==> #[trigger] utf16_of(s)[k] != 0,
    decreases s.len(),
{
    if s.len() > 0 {
        let d = s.drop_last();
        assert forall|k: int| 0 <= k < d.len() implies (#[trigger] d[k] as u32) != 0 by {
            assert(d[k] == s[k]);
        }
        lemma_utf16_no_zero(d);
        let c = s.last();
        assert((s[s.len() - 1] as u32) != 0);
        lemma_utf16_char(c);
        let all = utf16_of(s);
        let p = utf16_of(d);
        let e = crate::text::utf16_char(c);
        assert(all == p + e);
        assert forall|k: int| 0 <= k < all.len() implies #[trigger] all[k] != 0 by {
            if k < p.len() {
                assert(all[k] == p[k]);
            } else {
                assert(all[k] == e[k - p.len()]);
            }
        }
    }
}

/// A storable value is written as a well-formed raw value.
proof fn lemma_storable_value_wf(v: SpecGameValue)
    requires
        storable_value(v),
    ensures
        wf_value(encoded_value(v)),
    decreases v, 0int,
{
    match v {
        SpecGameValue::CString(s) => {
            lemma_utf8_no_zero(s);
        },
        SpecGameValue::LocString(s) => {
            lemma_utf16_no_zero(s);
        },
        SpecGameValue::List(ns) => {
            lemma_storable_list_wf(ns);
        },
        SpecGameValue::List2(ns) => {
            lemma_storable_list_wf(ns);
        },
        _ => {},
    }
}

/// A storable list is written as a well-formed raw list.
pub proof fn lemma_storable_list_wf(ns: Seq<SpecGameNode>)
    requires
        storable_list(ns),
    ensures
        wf_list(encoded_list(ns)),
    decreases ns, 1int,
{
    let e = encoded_nodes(ns);
    lemma_encoded_nodes_len(ns);
    assert forall|i: int| 0 <= i < e.len() implies wf_value(#[trigger] e[i].value) by {
        lemma_encoded_nodes_index(ns, i);
        lemma_storable_index(ns, i);
        assert(decreases_to!(ns => ns[i]));
        assert(decreases_to!(ns[i] => ns[i].value));
        lemma_storable_value_wf(ns[i].value);
    }
    let sorted = encoded_list(ns);
    lemma_sort_elems(e, hash_order());
    assert forall|i: int| 0 <= i < sorted.len() implies wf_value(#[trigger] sorted[i].value) by {
        assert(sorted.contains(sorted[i]));
        assert(e.contains(sorted[i]));
        let j = choose|j: int| 0 <= j < e.len() && e[j] == sorted[i];
        assert(0 <= j < e.len() && e[j] == sorted[i]);
    }
    lemma_wf_nodes_all(sorted);
}

// ---------------------------------------------------------------------------
// What a written tree reads back as
// ---------------------------------------------------------------------------
/// Game-data nodes ordered by the hash of their keys.
pub open spec fn game_hash_order() -> spec_fn(SpecGameNode, SpecGameNode) -> bool {
    |a: SpecGameNode, b: SpecGameNode| key_hash(a.key) <= key_hash(b.key)
}

/// A value with every list in it stably sorted by key hash.
pub open spec fn sorted_value(v: SpecGameValue) -> SpecGameValue
    decreases v, 0int,
{
    match v {
        SpecGameValue::List(ns) => SpecGameValue::List(sorted_nodes(ns)),
        SpecGameValue::List2(ns) => SpecGameValue::List2(sorted_nodes(ns)),
        _ => v,
    }
}

pub open spec fn sorted_each(ns: Seq<SpecGameNode>) -> Seq<SpecGameNode>
    decreases ns, 1int,
{
    if ns.len() == 0 {
        Seq::empty()
    } else {
        let n = ns[ns.len() - 1];
        proof {
            assert(decreases_to!(ns => n));
            assert(decreases_to!(n => n.value));
        }
        sorted_each(ns.subrange(0, ns.len() - 1)).push(SpecGameNode { key: n.key, value: sorted_value(n.value) })
    }
}

/// A list stably sorted by key hash, and every list below it too: the order
/// in which a written list comes back.
pub open spec fn sorted_nodes(ns: Seq<SpecGameNode>) -> Seq<SpecGameNode>
    decreases ns, 2int,
{
    sort_stable(sorted_each(ns), game_hash_order())
}

/// `keys` names each hash of `pairs` by the key of the pair.
pub open spec fn names_all(keys: Map<u64, Seq<char>>, pairs: Seq<(u64, Seq<char>)>) -> bool {
    forall|p: (u64, Seq<char>)| #[trigger] pairs.contains(p) ==> keys.contains_key(p.0) && keys[p.0] == p.1
}

/// The pairs of node `i` of a list and of everything below it are pairs of
/// the list.
proof fn lemma_key_pairs_index(ns: Seq<SpecGameNode>, i: int)
    requires
        0 <= i < ns.len(),
    ensures
        key_pairs(ns).contains((key_hash(ns[i].key), ns[i].key)),
        forall|p: (u64, Seq<char>)| #[trigger] value_key_pairs(ns[i].value).contains(p) ==> key_pairs(ns).contains(p),
    decreases ns.len(),
{
    let d = ns.subrange(0, ns.len() - 1);
    let n = ns[ns.len() - 1];
    let all = key_pairs(ns);
    let pre = key_pairs(d);
    let mid = seq![(key_hash(n.key), n.key)];
    let post = value_key_pairs(n.value);
    assert(all == pre + mid + post);
    if i < ns.len() - 1 {
        lemma_key_pairs_index(d, i);
        assert(d[i] == ns[i]);
        let q = (key_hash(ns[i].key), ns[i].key);
        let k = choose|k: int| 0 <= k < pre.len() && pre[k] == q;
        assert(0 <= k < pre.len() && pre[k] == q);
        assert(all[k] == q);
        assert forall|p: (u64, Seq<char>)| #[trigger] value_key_pairs(ns[i].value).contains(p) implies all.contains(p) by {
            assert(pre.contains(p));
            let k = choose|k: int| 0 <= k < pre.len() && pre[k] == p;
            assert(0 <= k < pre.len() && pre[k] == p);
            assert(all[k] == p);
        }
    } else {
        assert(all[pre.len() as int] == mid[0]);
        assert forall|p: (u64, Seq<char>)| #[trigger] value_key_pairs(ns[i].value).contains(p) implies all.contains(p) by {
            let k = choose|k: int| 0 <= k < post.len() && post[k] == p;
            assert(0 <= k < post.len() && post[k] == p);
            assert(all[pre.len() + 1 + k] == p);
        }
    }
}

/// How a raw node reads back, keys resolved through `keys`.
pub open spec fn decode_node(keys: Map<u64, Seq<char>>) -> spec_fn(SpecNode) -> SpecGameNode {
    |n: SpecNode| SpecGameNode { key: key_name(keys, n.key_hash), value: game_value(n.value, keys) }
}

proof fn lemma_game_nodes_map(ns: Seq<SpecNode>, keys: Map<u64, Seq<char>>)
    ensures
        game_nodes(ns, keys) == ns.map_values(decode_node(keys)),
    decreases ns.len(),
{
    if ns.len() > 0 {
        let d = ns.subrange(0, ns.len() - 1);
        lemma_game_nodes_map(d, keys);
        assert(ns.map_values(decode_node(keys)) =~= d.map_values(decode_node(keys)).push(
            (decode_node(keys))(ns[ns.len() - 1]),
        ));
    } else {
        assert(ns.map_values(decode_node(keys)) =~= Seq::<SpecGameNode>::empty());
    }
}

/// A written value reads back as itself with its lists sorted.
proof fn lemma_decode_value(v: SpecGameValue, keys: Map<u64, Seq<char>>)
    requires
        names_all(keys, value_key_pairs(v)),
    ensures
        game_value(encoded_value(v), keys) == sorted_value(v),
    decreases v, 0int,
{
    match v {
        SpecGameValue::List(ns) => {
            lemma_decode_list(ns, keys);
        },
        SpecGameValue::List2(ns) => {
            lemma_decode_list(ns, keys);
        },
        _ => {
            lemma_decode_scalar(v, keys);
        },
    }
}

proof fn lemma_decode_scalar(v: SpecGameValue, keys: Map<u64, Seq<char>>)
    requires
        !(v is List),
        !(v is List2),
    ensures
        game_value(encoded_value(v), keys) == sorted_value(v),
{
    match v {
        SpecGameValue::Float(b) => {
            lemma_decode_float(b);
        },
        SpecGameValue::Int(i) => {
            lemma_decode_int(i);
        },
        SpecGameValue::CString(s) => {
            vstd::utf8::encode_utf8_valid_utf8(s);
            vstd::utf8::encode_utf8_decode_utf8(s);
        },
        SpecGameValue::LocString(s) => {
            lemma_utf16_text(s);
        },
        _ => {},
    }
}

proof fn lemma_decode_float(b: u32)
    ensures
        le32(bytes32(b as int), 0) as u32 == b,
{
    assert(bytes32(b as int).subrange(0, 4) =~= bytes32(b as int));
    lemma_le32_bytes32(b as int, bytes32(b as int), 0);
}

proof fn lemma_decode_int(i: i32)
    ensures
        ((le32(bytes32((i as u32) as int), 0) as u32) as i32) == i,
{
    lemma_decode_float(i as u32);
    lemma_i32_bits(i);
}

/// A written list reads back as itself, stably sorted by key hash at every
/// level, when `keys` names every key in it.
pub proof fn lemma_decode_list(ns: Seq<SpecGameNode>, keys: Map<u64, Seq<char>>)
    requires
        names_all(keys, key_pairs(ns)),
    ensures
        game_nodes(encoded_list(ns), keys) == sorted_nodes(ns),
    decreases ns, 1int,
{
    let e = encoded_nodes(ns);
    let dec = decode_node(keys);
    lemma_encoded_nodes_len(ns);
    assert forall|i: int| 0 <= i < ns.len() implies #[trigger] dec(e[i]) == (SpecGameNode {
        key: ns[i].key,
        value: sorted_value(ns[i].value),
    }) by {
        lemma_encoded_nodes_index(ns, i);
        lemma_key_pairs_index(ns, i);
        assert(decreases_to!(ns => ns[i]));
        assert(decreases_to!(ns[i] => ns[i].value));
        lemma_decode_value(ns[i].value, keys);
    }
    lemma_sorted_each_map(ns, e, dec);
    assert forall|a: SpecNode, b: SpecNode| #[trigger] e.contains(a) && #[trigger] e.contains(b) implies (hash_order())(a, b) == (game_hash_order())(dec(a), dec(b)) by {
        let i = choose|i: int| 0 <= i < e.len() && e[i] == a;
        assert(0 <= i < e.len() && e[i] == a);
        let j = choose|j: int| 0 <= j < e.len() && e[j] == b;
        assert(0 <= j < e.len() && e[j] == b);
        lemma_encoded_nodes_index(ns, i);
        lemma_encoded_nodes_index(ns, j);
    }
    lemma_sort_map(e, hash_order(), game_hash_order(), dec);
    lemma_game_nodes_map(encoded_list(ns), keys);
}

proof fn lemma_sorted_each_map(ns: Seq<SpecGameNode>, e: Seq<SpecNode>, dec: spec_fn(SpecNode) -> SpecGameNode)
    requires
        e.len() == ns.len(),
        forall|i: int| 0 <= i < ns.len() ==> #[trigger] dec(e[i]) == (SpecGameNode {
            key: ns[i].key,
            value: sorted_value(ns[i].value),
        }),
    ensures
        e.map_values(dec) == sorted_each(ns),
    decreases ns.len(),
{
    if ns.len() > 0 {
        let d = ns.subrange(0, ns.len() - 1);
        let ed = e.subrange(0, e.len() - 1);
        assert forall|i: int| 0 <= i < d.len() implies #[trigger] dec(ed[i]) == (SpecGameNode {
            key: d[i].key,
            value: sorted_value(d[i].value),
        }) by {
            assert(ed[i] == e[i]);
            assert(d[i] == ns[i]);
            assert(dec(e[i]) == (SpecGameNode { key: ns[i].key, value: sorted_value(ns[i].value) }));
        }
        lemma_sorted_each_map(d, ed, dec);
        assert(dec(e[e.len() - 1]) == (SpecGameNode {
            key: ns[ns.len() - 1].key,
            value: sorted_value(ns[ns.len() - 1].value),
        }));
        assert(e.map_values(dec) =~= ed.map_values(dec).push(dec(e[e.len() - 1])));
    } else {
        assert(e.map_values(dec) =~= Seq::<SpecGameNode>::empty());
    }
}

// ---------------------------------------------------------------------------
// The key dictionary reads back
// ---------------------------------------------------------------------------
proof fn lemma_hashed_list_front(v: Seq<(u64, Seq<char>)>)
    requires
        v.len() > 0,
    ensures
        hashed_list_bytes(v) == hashed_bytes(v[0]) + hashed_list_bytes(v.drop_first()),
    decreases v.len(),
{
    if v.len() == 1 {
        assert(v.drop_first() =~= Seq::<(u64, Seq<char>)>::empty());
        assert(v.drop_last() =~= Seq::<(u64, Seq<char>)>::empty());
        assert(hashed_list_bytes(v.drop_last()) =~= Seq::<u8>::empty());
        assert(hashed_list_bytes(v.drop_first()) =~= Seq::<u8>::empty());
        assert(v.last() == v[0]);
        assert(hashed_list_bytes(v) =~= hashed_bytes(v[0]) + hashed_list_bytes(v.drop_first()));
    } else {
        let d = v.drop_last();
        lemma_hashed_list_front(d);
        assert(d[0] == v[0]);
        assert(v.drop_first().drop_last() =~= d.drop_first());
        assert(v.drop_first().last() == v.last());
    }
}

proof fn lemma_hashed_list_len(v: Seq<(u64, Seq<char>)>)
    ensures
        12 * v.len() <= hashed_list_bytes(v).len(),
    decreases v.len(),
{
    if v.len() > 0 {
        lemma_hashed_list_len(v.drop_last());
    }
}

/// The records as the table holds them: each name by its UTF-8 bytes.
pub open spec fn raw_names(v: Seq<(u64, Seq<char>)>) -> Seq<(u64, Seq<u8>)> {
    v.map_values(|p: (u64, Seq<char>)| (p.0, vstd::utf8::encode_utf8(p.1)))
}

#[verifier::rlimit(50)]
proof fn lemma_read_hashed(b: Seq<u8>, off: int, v: Seq<(u64, Seq<char>)>)
    requires
        0 <= off,
        off + hashed_list_bytes(v).len() <= b.len(),
        b.subrange(off, off + hashed_list_bytes(v).len()) == hashed_list_bytes(v),
        hashed_list_bytes(v).len() < 0x1_0000_0000,
    ensures
        hashed_records(b, off, v.len() as nat) == Some(raw_names(v)),
    decreases v.len(),
{
    if v.len() == 0 {
        assert(raw_names(v) =~= Seq::<(u64, Seq<u8>)>::empty());
    } else {
        lemma_hashed_list_front(v);
        let h = v[0];
        let e = vstd::utf8::encode_utf8(h.1);
        let hb = hashed_bytes(h);
        let rest = v.drop_first();
        let all = hashed_list_bytes(v);
        let tail = hashed_list_bytes(rest);
        assert(all == hb + tail);
        assert(hb == bytes64(h.0 as int) + bytes32(e.len() as int) + e);
        assert(e.len() < 0x1_0000_0000);
        assert(all.subrange(0, 8) =~= bytes64(h.0 as int));
        lemma_part(b, off, all, 0, bytes64(h.0 as int));
        lemma_le64_bytes64(h.0 as int, b, off);
        assert(all.subrange(8, 12) =~= bytes32(e.len() as int));
        lemma_part(b, off, all, 8, bytes32(e.len() as int));
        lemma_le32_bytes32(e.len() as int, b, off + 8);
        assert(all.subrange(12, 12 + e.len() as int) =~= e);
        lemma_part(b, off, all, 12, e);
        let next = off + hb.len();
        assert(all.subrange(hb.len() as int, (hb.len() + tail.len()) as int) =~= tail);
        lemma_part(b, off, all, hb.len() as int, tail);
        lemma_read_hashed(b, next, rest);
        assert(raw_names(v) =~= seq![(h.0, e)] + raw_names(rest));
    }
}

/// The `KEYS` body written for a tree reads back as its entries.
proof fn lemma_read_keys(ns: Seq<SpecGameNode>)
    requires
        keys_body(ns).len() < 0x1_0000_0000,
    ensures
        parse_key_table(keys_body(ns)) == Some(raw_names(key_entries(ns))),
        lossy_records(raw_names(key_entries(ns))) == key_entries(ns),
{
    let v = key_entries(ns);
    let b = keys_body(ns);
    let hl = hashed_list_bytes(v);
    lemma_hashed_list_len(v);
    assert(b.subrange(0, 4) =~= bytes32(v.len() as int));
    lemma_le32_bytes32(v.len() as int, b, 0);
    assert(b.subrange(4, 4 + hl.len() as int) =~= hl);
    lemma_read_hashed(b, 4, v);
    let lr = lossy_records(raw_names(v));
    assert forall|k: int| 0 <= k < v.len() implies lr[k] == v[k] by {
        vstd::utf8::encode_utf8_valid_utf8(v[k].1);
        vstd::utf8::encode_utf8_decode_utf8(v[k].1);
        assert(utf8_text(vstd::utf8::encode_utf8(v[k].1)) == v[k].1);
    }
    assert(lr =~= v);
}

// ---------------------------------------------------------------------------
// The dictionary names every key
// ---------------------------------------------------------------------------
proof fn lemma_first_names(s: Seq<(u64, Seq<char>)>, h: u64)
    ensures
        first_names(s).contains_key(h) == has_hash(s, h),
        first_names(s).contains_key(h) ==> exists|j: int|
            0 <= j < s.len() && #[trigger] s[j].0 == h && first_names(s)[h] == s[j].1,
    decreases s.len(),
{
    if s.len() > 0 {
        let d = s.drop_last();
        lemma_first_names(d, h);
        lemma_first_names(d, s.last().0);
        crate::rgd_write::lemma_has_hash_push(d, s.last(), h);
        assert(d.push(s.last()) =~= s);
        if first_names(d).contains_key(h) {
            let j = choose|j: int| 0 <= j < d.len() && #[trigger] d[j].0 == h && first_names(d)[h] == d[j].1;
            assert(s[j] == d[j]);
        }
        if h == s.last().0 && !first_names(d).contains_key(h) {
            assert(s[s.len() - 1].0 == h);
        }
    }
}

proof fn lemma_first_of_each(s: Seq<(u64, Seq<char>)>)
    ensures
        forall|p: (u64, Seq<char>)| #[trigger] first_of_each_hash(s).contains(p) ==> s.contains(p),
        forall|h: u64| has_hash(s, h) ==> #[trigger] has_hash(first_of_each_hash(s), h),
    decreases s.len(),
{
    if s.len() > 0 {
        let d = s.drop_last();
        let x = s.last();
        lemma_first_of_each(d);
        let fd = first_of_each_hash(d);
        assert forall|p: (u64, Seq<char>)| #[trigger] first_of_each_hash(s).contains(p) implies s.contains(p) by {
            let f = first_of_each_hash(s);
            let j = choose|j: int| 0 <= j < f.len() && f[j] == p;
            assert(0 <= j < f.len() && f[j] == p);
            if j < fd.len() {
                assert(fd[j] == p);
                assert(fd.contains(p));
                assert(d.contains(p));
                let k = choose|k: int| 0 <= k < d.len() && d[k] == p;
                assert(0 <= k < d.len() && d[k] == p);
                assert(s[k] == p);
            } else {
                assert(p == x);
                assert(s[s.len() - 1] == p);
            }
        }
        assert forall|h: u64| has_hash(s, h) implies #[trigger] has_hash(first_of_each_hash(s), h) by {
            crate::rgd_write::lemma_has_hash_push(d, x, h);
            assert(d.push(x) =~= s);
            crate::rgd_write::lemma_has_hash_push(fd, x, h);
            if has_hash(d, h) {
                assert(has_hash(fd, h));
                if !has_hash(d, x.0) {
                    assert(first_of_each_hash(s) == fd.push(x));
                }
            }
        }
    }
}

/// No two different keys of a tree share a hash.
pub open spec fn hashes_distinct(ns: Seq<SpecGameNode>) -> bool {
    forall|p: (u64, Seq<char>), q: (u64, Seq<char>)|
        #[trigger] key_pairs(ns).contains(p) && #[trigger] key_pairs(ns).contains(q) && p.0 == q.0 ==> p.1 == q.1
}

/// The dictionary written for a tree names each of its keys by itself.
proof fn lemma_dictionary_names_all(ns: Seq<SpecGameNode>)
    requires
        hashes_distinct(ns),
    ensures
        names_all(first_names(key_entries(ns)), key_pairs(ns)),
{
    let kp = key_pairs(ns);
    let f = first_of_each_hash(kp);
    let v = key_entries(ns);
    let keys = first_names(v);
    lemma_first_of_each(kp);
    lemma_sort_elems(f, name_order());
    assert forall|p: (u64, Seq<char>)| #[trigger] kp.contains(p) implies keys.contains_key(p.0) && keys[p.0] == p.1 by {
        let i = choose|i: int| 0 <= i < kp.len() && kp[i] == p;
        assert(0 <= i < kp.len() && kp[i] == p);
        assert(has_hash(kp, p.0));
        assert(has_hash(f, p.0));
        let j = choose|j: int| 0 <= j < f.len() && #[trigger] f[j].0 == p.0;
        assert(0 <= j < f.len() && f[j].0 == p.0);
        assert(f.contains(f[j]));
        assert(v.contains(f[j]));
        let k = choose|k: int| 0 <= k < v.len() && v[k] == f[j];
        assert(0 <= k < v.len() && v[k] == f[j]);
        assert(has_hash(v, p.0));
        lemma_first_names(v, p.0);
        let m = choose|m: int| 0 <= m < v.len() && #[trigger] v[m].0 == p.0 && keys[p.0] == v[m].1;
        assert(0 <= m < v.len() && v[m].0 == p.0 && keys[p.0] == v[m].1);
        assert(v.contains(v[m]));
        assert(f.contains(v[m]));
        assert(kp.contains(v[m]));
    }
}

// ---------------------------------------------------------------------------
// The law
// ---------------------------------------------------------------------------
proof fn lemma_tags_differ()
    ensures
        aegd_name() != keys_tag(),
{
    assert(aegd_name()[0] != keys_tag()[0]);
}

/// Reading back what `write_rgd` writes: the container comes back as it was
/// written, and its game data as the tree with every list stably sorted by
/// key hash, for any tree whose strings hold no NUL, whose lists fit the
/// format's 32-bit counts and offsets, whose chunk bodies fit 32-bit lengths,
/// and in which no two different keys share a hash.
pub proof fn law_rgd_read_after_write(ns: Seq<SpecGameNode>)
    requires
        storable_list(ns),
        hashes_distinct(ns),
        aegd_body(ns).len() < 0x1_0000_0000,
        keys_body(ns).len() < 0x1_0000_0000,
    ensures
        parse_chunky(chunky_bytes(rgd_container(ns))) == Ok::<SpecChunky, ChunkyError>(rgd_container(ns)),
        spec_parse_rgd(rgd_container(ns).chunks) == Ok::<Seq<SpecGameNode>, RelicGameDataError>(
            sorted_nodes(ns),
        ),
{
    assert(rgd_container(ns) == two_tables(aegd_body(ns), keys_body(ns)));
    lemma_container_reads_back(aegd_body(ns), keys_body(ns));
    lemma_read_keys(ns);
    lemma_dictionary_names_all(ns);
    lemma_aegd_reads_back(ns);
}

/// The container of the two bodies.
pub open spec fn two_tables(a: Seq<u8>, k: Seq<u8>) -> SpecChunky {
    SpecChunky {
        major: 4,
        minor: 0,
        platform: 1,
        chunks: seq![data_chunk_spec(aegd_name(), 3, a), data_chunk_spec(keys_tag(), 1, k)],
    }
}

proof fn lemma_container_reads_back(a: Seq<u8>, k: Seq<u8>)
    requires
        a.len() < 0x1_0000_0000,
        k.len() < 0x1_0000_0000,
    ensures
        parse_chunky(chunky_bytes(two_tables(a, k))) == Ok::<SpecChunky, ChunkyError>(two_tables(a, k)),
        find_tables(data_list(two_tables(a, k).chunks)) == Ok::<(Option<Seq<u8>>, Option<Seq<u8>>), RelicGameDataError>(
            (Some(k), Some(a)),
        ),
{
    let c = two_tables(a, k);
    let c1 = data_chunk_spec(aegd_name(), 3, a);
    let c2 = data_chunk_spec(keys_tag(), 1, k);
    assert(c.chunks == seq![c1, c2]);
    assert(wf_chunk(c1));
    assert(wf_chunk(c2));
    assert(c.chunks.subrange(1, 2) =~= seq![c2]);
    assert(seq![c2].subrange(1, 1) =~= Seq::<SpecChunk>::empty());
    assert(wf_chunks(Seq::<SpecChunk>::empty()));
    assert(seq![c2][0] == c2);
    assert(wf_chunks(seq![c2]));
    assert(wf_chunks(c.chunks));
    law_read_after_write(c);
    assert(c.chunks.subrange(0, 1) =~= seq![c1]);
    assert(seq![c1].subrange(0, 0) =~= Seq::<SpecChunk>::empty());
    assert(data_list(Seq::<SpecChunk>::empty()) =~= Seq::<SpecChunk>::empty());
    assert(seq![c1][0] == c1);
    assert(c1.body is Data);
    assert(data_list(seq![c1]) =~= seq![c1]);
    assert(data_list(c.chunks) =~= seq![c1, c2]);
    lemma_tags_differ();
    assert(seq![c1, c2].drop_last() =~= seq![c1]);
    assert(seq![c1].drop_last() =~= Seq::<SpecChunk>::empty());
    assert(find_tables(Seq::<SpecChunk>::empty()) == Ok::<(Option<Seq<u8>>, Option<Seq<u8>>), RelicGameDataError>(
        (None, None),
    ));
    assert(seq![c1].last() == c1);
    assert(seq![c1, c2].last() == c2);
    assert(c1.name != keys_tag());
    assert(find_tables(seq![c1]) == Ok::<(Option<Seq<u8>>, Option<Seq<u8>>), RelicGameDataError>(
        (None, Some(a)),
    ));
}

/// A CRC word followed by a well-formed list reads back as that list.
proof fn lemma_aegd_list(crc: u32, e: Seq<SpecNode>, keys: Map<u64, Seq<char>>)
    requires
        wf_list(e),
    ensures
        spec_parse_aegd(bytes32(crc as int) + list_bytes(e), keys) == Ok::<Seq<SpecGameNode>, RelicGameDataError>(
            game_nodes(e, keys),
        ),
{
    let lb = list_bytes(e);
    let data = bytes32(crc as int) + lb;
    lemma_depth_blob(e);
    assert(data.subrange(4, 4 + lb.len() as int) =~= lb);
    lemma_read_list(data, 4, e, data.len());
}

proof fn lemma_aegd_reads_back(ns: Seq<SpecGameNode>)
    requires
        storable_list(ns),
        hashes_distinct(ns),
    ensures
        spec_parse_aegd(aegd_body(ns), first_names(key_entries(ns))) == Ok::<
            Seq<SpecGameNode>,
            RelicGameDataError,
        >(sorted_nodes(ns)),
{
    let keys = first_names(key_entries(ns));
    lemma_dictionary_names_all(ns);
    let e = encoded_list(ns);
    lemma_storable_list_wf(ns);
    lemma_aegd_list(crc32(list_bytes(e)), e, keys);
    lemma_decode_list(ns, keys);
}

} // verus!
