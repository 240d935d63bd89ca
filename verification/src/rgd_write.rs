//! Encoding a game-data node tree into `.rgd` bytes: an `AEGD` chunk with
//! the CRC and the node lists, each sorted by key hash, and a `KEYS` chunk
//! with the dictionary of key names.
use vstd::prelude::*;

use std::collections::HashSet;

use vstd::string::{StrSliceExecFns, StringSliceAdditionalSpecFns};

use crate::container::{chunky_bytes, lemma_view_chunks_push, view_chunks, Chunk, ChunkBody, ChunkKind, Chunky, SpecBody, SpecChunk, SpecChunky};

use crate::hash::{dictionary_hash, spec_dictionary_hash};
use crate::text::utf16_of;
use crate::le::{bytes32, push_all, push_u32};
use crate::raw_list::{
    lemma_view_nodes_index, lemma_view_nodes_len, lemma_view_nodes_pointwise, view_node, view_nodes, view_value,
    list_bytes, write_raw_list, RawNode, RawValue, SpecNode, SpecValue,
};
use crate::records::{hashed_list_bytes, view_hashed, HashedString, KeyTable};
use crate::rgd_patch::{crc32, crc32_of};
use crate::rgd::{aegd_name, keys_tag};
use crate::rgd::{view_game_node, view_game_nodes, view_game_value, GameNode, GameValue, SpecGameNode, SpecGameValue};

verus! {

// ---------------------------------------------------------------------------
// UTF-16
// ---------------------------------------------------------------------------
fn encode_utf16(s: &str) -> (r: Vec<u16>)
    ensures
        r@ == utf16_of(s@),
{
    let n: usize = s.unicode_len();
    let mut out: Vec<u16> = Vec::new();
    let mut i: usize = 0;
    proof {
        assert(s@.subrange(0, 0) =~= Seq::<char>::empty());
    }
    while i < n
        invariant
            n == s@.len(),
            i <= n,
            out@ == utf16_of(s@.subrange(0, i as int)),
        decreases n - i,
    {
        let c: char = s.get_char(i);
        let v: u32 = c as u32;
        if v < 0x10000 {
            out.push(v as u16);
        } else {
            proof {
                assert(v <= 0x10FFFF) by {
                    vstd::utf8::char_is_scalar(c);
                }
            }
            out.push((0xD800 + ((v - 0x10000) / 1024)) as u16);
            out.push((0xDC00 + ((v - 0x10000) % 1024)) as u16);
        }
        proof {
            let t = s@.subrange(0, i + 1);
            assert(t.drop_last() =~= s@.subrange(0, i as int));
            assert(t.last() == c);
            assert(out@ =~= utf16_of(t));
        }
        i += 1;
    }
    proof {
        assert(s@.subrange(0, i as int) =~= s@);
    }
    out
}

// ---------------------------------------------------------------------------
// Stable insertion order
// ---------------------------------------------------------------------------
/// `x` placed into `s` behind every element at its end that `le` puts at or
/// before it: one step of a stable insertion sort.
pub open spec fn insert_stable<T>(s: Seq<T>, x: T, le: spec_fn(T, T) -> bool) -> Seq<T>
    decreases s.len(),
{
    if s.len() == 0 {
        seq![x]
    } else if le(s.last(), x) {
        s.push(x)
    } else {
        insert_stable(s.drop_last(), x, le).push(s.last())
    }
}

/// `s` sorted by `le`, elements that `le` does not tell apart keeping their
/// order (what a stable sort gives).
pub open spec fn sort_stable<T>(s: Seq<T>, le: spec_fn(T, T) -> bool) -> Seq<T>
    decreases s.len(),
{
    if s.len() == 0 {
        Seq::empty()
    } else {
        insert_stable(sort_stable(s.drop_last(), le), s.last(), le)
    }
}

/// Inserting at `p` is the stable insertion when everything from `p` on comes
/// after `x` and the element before `p`, if any, does not.
pub proof fn lemma_insert_at<T>(s: Seq<T>, x: T, le: spec_fn(T, T) -> bool, p: int)
    requires
        0 <= p <= s.len(),
        forall|j: int| p <= j < s.len() ==> !le(#[trigger] s[j], x),
        p == 0 || le(s[p - 1], x),
    ensures
        insert_stable(s, x, le) == s.insert(p, x),
    decreases s.len(),
{
    if s.len() == p {
        if p == 0 {
            assert(s.insert(p, x) =~= seq![x]);
        } else {
            assert(s.last() == s[p - 1]);
            assert(s.insert(p, x) =~= s.push(x));
        }
    } else {
        let d = s.drop_last();
        assert forall|j: int| p <= j < d.len() implies !le(#[trigger] d[j], x) by {
            assert(d[j] == s[j]);
        }
        if p > 0 {
            assert(d[p - 1] == s[p - 1]);
        }
        assert(!le(s[s.len() - 1], x));
        lemma_insert_at(d, x, le, p);
        assert(d.insert(p, x).push(s.last()) =~= s.insert(p, x));
    }
}

// ---------------------------------------------------------------------------
// Encoding the node tree
// ---------------------------------------------------------------------------
/// The hash that stands for a key: the dictionary hash of its UTF-8 bytes.
#[verifier::opaque]
pub open spec fn key_hash(key: Seq<char>) -> u64 {
    spec_dictionary_hash(vstd::utf8::encode_utf8(key))
}

/// Nodes ordered by key hash.
pub open spec fn hash_order() -> spec_fn(SpecNode, SpecNode) -> bool {
    |a: SpecNode, b: SpecNode| a.key_hash <= b.key_hash
}

/// The raw value a game value is written as: a float by its bits, an integer
/// by its two's-complement bytes, a flag as 0 or 1, a string by its UTF-8
/// bytes, a localised string by its UTF-16 units, a list by its encoded nodes
/// with type code 100 or 101.
pub open spec fn encoded_value(v: SpecGameValue) -> SpecValue
    decreases v, 0int,
{
    match v {
        SpecGameValue::Float(b) => SpecValue::FourBytes(0, bytes32(b as int)),
        SpecGameValue::Int(i) => SpecValue::FourBytes(1, bytes32((i as u32) as int)),
        SpecGameValue::Boolean(b) => SpecValue::Bool(if b { 1u8 } else { 0u8 }),
        SpecGameValue::CString(s) => SpecValue::CString(vstd::utf8::encode_utf8(s)),
        SpecGameValue::LocString(s) => SpecValue::LocString(utf16_of(s)),
        SpecGameValue::List(ns) => SpecValue::List(100, encoded_list(ns)),
        SpecGameValue::List2(ns) => SpecValue::List(101, encoded_list(ns)),
    }
}

/// The nodes of a list, each keyed by the hash of its key, in their order.
pub open spec fn encoded_nodes(ns: Seq<SpecGameNode>) -> Seq<SpecNode>
    decreases ns, 1int,
{
    if ns.len() == 0 {
        Seq::empty()
    } else {
        let n = ns[ns.len() - 1];
        proof {
            assert(decreases_to!(ns => n));
            assert(decreases_to!(n => n.value));
        }
        encoded_nodes(ns.subrange(0, ns.len() - 1)).push(
            SpecNode { key_hash: key_hash(n.key), value: encoded_value(n.value) },
        )
    }
}

/// The raw list a game-data list is written as: its encoded nodes, stably
/// sorted by key hash.
pub open spec fn encoded_list(ns: Seq<SpecGameNode>) -> Seq<SpecNode>
    decreases ns, 2int,
{
    sort_stable(encoded_nodes(ns), hash_order())
}

fn hash_of_key(key: &String) -> (h: u64)
    ensures
        h == key_hash(key@),
{
    proof {
        reveal(key_hash);
    }
    dictionary_hash(key.as_str())
}

/// The four little-endian bytes of `x`.
fn u32_bytes(x: u32) -> (r: [u8; 4])
    ensures
        r@ == bytes32(x as int),
{
    let r: [u8; 4] = [(x % 256) as u8, ((x / 256) % 256) as u8, ((x / 65536) % 256) as u8, ((x
        / 16777216) % 256) as u8];
    assert(r@ =~= bytes32(x as int));
    r
}

fn encode_value(v: &GameValue) -> (r: RawValue)
    ensures
        view_value(r) == encoded_value(view_game_value(*v)),
    decreases *v,
{
    match v {
        GameValue::Float(b) => RawValue::FourBytes { data_type: 0, bytes: u32_bytes(*b) },
        GameValue::Int(i) => RawValue::FourBytes { data_type: 1, bytes: u32_bytes(*i as u32) },
        GameValue::Boolean(b) => RawValue::Bool(if *b { 1 } else { 0 }),
        GameValue::CString(s) => {
            let mut bytes: Vec<u8> = Vec::new();
            push_all(&mut bytes, s.as_str().as_bytes());
            proof {
                assert(bytes@ =~= vstd::utf8::encode_utf8(s@));
            }
            RawValue::CString(bytes)
        },
        GameValue::LocString(s) => RawValue::LocString(encode_utf16(s.as_str())),
        GameValue::List(ns) => {
            proof {
                assert(decreases_to!(*v => ns@));
            }
            RawValue::List { data_type: 100, children: encode_list(ns.as_slice()) }
        },
        GameValue::List2(ns) => {
            proof {
                assert(decreases_to!(*v => ns@));
            }
            RawValue::List { data_type: 101, children: encode_list(ns.as_slice()) }
        },
    }
}

/// Encodes a list: each node in turn, inserted behind the nodes whose hash is
/// not greater than its own.
fn encode_list(nodes: &[GameNode]) -> (r: Vec<RawNode>)
    ensures
        view_nodes(r@) == encoded_list(view_game_nodes(nodes@)),
    decreases nodes@,
{
    let ghost gs = view_game_nodes(nodes@);
    let mut out: Vec<RawNode> = Vec::new();
    let mut i: usize = 0;
    proof {
        lemma_game_nodes_len(nodes@);
        assert(gs.subrange(0, 0) =~= Seq::<SpecGameNode>::empty());
        assert(view_nodes(out@) =~= Seq::<SpecNode>::empty());
    }
    while i < nodes.len()
        invariant
            i <= nodes@.len(),
            gs == view_game_nodes(nodes@),
            gs.len() == nodes@.len(),
            view_nodes(out@) == sort_stable(encoded_nodes(gs.subrange(0, i as int)), hash_order()),
        decreases nodes.len() - i,
    {
        let node: &GameNode = &nodes[i];
        proof {
            lemma_game_nodes_index(nodes@, i as int);
            assert(decreases_to!(nodes@ => nodes@[i as int]));
        }
        let h: u64 = hash_of_key(&node.key);
        let value: RawValue = encode_value(&node.value);
        let raw = RawNode { key_hash: h, value };
        let ghost before = out@;
        let ghost sorted = view_nodes(before);
        let mut p: usize = out.len();
        proof {
            lemma_view_nodes_len(before);
        }
        while p > 0 && out[p - 1].key_hash > h
            invariant
                out@ == before,
                p <= out@.len(),
                forall|j: int| p <= j < out@.len() ==> #[trigger] out@[j].key_hash > h,
            decreases p,
        {
            p -= 1;
        }
        out.insert(p, raw);
        proof {
            lemma_insert_step(before, raw, p as int);
            let t = gs.subrange(0, i + 1);
            assert(t.subrange(0, t.len() - 1) =~= gs.subrange(0, i as int));
            assert(t[t.len() - 1] == view_game_node(*node));
            let e = encoded_nodes(t);
            assert(e.drop_last() =~= encoded_nodes(gs.subrange(0, i as int)));
            assert(e.last() == view_node(raw));
            assert(sort_stable(e, hash_order()) == insert_stable(
                sort_stable(e.drop_last(), hash_order()),
                e.last(),
                hash_order(),
            ));
        }
        i += 1;
    }
    proof {
        assert(gs.subrange(0, i as int) =~= gs);
    }
    out
}

/// Inserting a node at the place the backward scan found is the stable
/// insertion of its view.
proof fn lemma_insert_step(before: Seq<RawNode>, raw: RawNode, p: int)
    requires
        0 <= p <= before.len(),
        forall|j: int| p <= j < before.len() ==> #[trigger] before[j].key_hash > raw.key_hash,
        p == 0 || before[p - 1].key_hash <= raw.key_hash,
    ensures
        view_nodes(before.insert(p, raw)) == insert_stable(view_nodes(before), view_node(raw), hash_order()),
{
    let sorted = view_nodes(before);
    let x = view_node(raw);
    lemma_view_nodes_len(before);
    assert forall|j: int| p <= j < sorted.len() implies !(hash_order())(#[trigger] sorted[j], x) by {
        lemma_view_nodes_index(before, j);
    }
    if p > 0 {
        lemma_view_nodes_index(before, p - 1);
    }
    lemma_insert_at(sorted, x, hash_order(), p);
    lemma_view_nodes_insert(before, p, raw);
}

// ---------------------------------------------------------------------------
// The key dictionary
// ---------------------------------------------------------------------------
/// Every `(hash, key)` pair of a list, depth first: a node, then the pairs
/// below it.
pub open spec fn key_pairs(ns: Seq<SpecGameNode>) -> Seq<(u64, Seq<char>)>
    decreases ns, 1int,
{
    if ns.len() == 0 {
        Seq::empty()
    } else {
        let n = ns[ns.len() - 1];
        proof {
            assert(decreases_to!(ns => n));
            assert(decreases_to!(n => n.value));
        }
        key_pairs(ns.subrange(0, ns.len() - 1)) + seq![(key_hash(n.key), n.key)] + value_key_pairs(
            n.value,
        )
    }
}

pub open spec fn value_key_pairs(v: SpecGameValue) -> Seq<(u64, Seq<char>)>
    decreases v, 0int,
{
    match v {
        SpecGameValue::List(ns) => key_pairs(ns),
        SpecGameValue::List2(ns) => key_pairs(ns),
        _ => Seq::empty(),
    }
}

pub open spec fn has_hash(s: Seq<(u64, Seq<char>)>, h: u64) -> bool {
    exists|j: int| 0 <= j < s.len() && #[trigger] s[j].0 == h
}

/// The first pair of each hash, in their order.
pub open spec fn first_of_each_hash(s: Seq<(u64, Seq<char>)>) -> Seq<(u64, Seq<char>)>
    decreases s.len(),
{
    if s.len() == 0 {
        Seq::empty()
    } else {
        let d = first_of_each_hash(s.drop_last());
        if has_hash(s.drop_last(), s.last().0) {
            d
        } else {
            d.push(s.last())
        }
    }
}

/// Byte strings in lexicographic order: `a` comes strictly before `b`.
pub open spec fn bytes_lt(a: Seq<u8>, b: Seq<u8>) -> bool
    decreases a.len(),
{
    if a.len() == 0 {
        b.len() > 0
    } else if b.len() == 0 {
        false
    } else if a[0] != b[0] {
        a[0] < b[0]
    } else {
        bytes_lt(a.drop_first(), b.drop_first())
    }
}

/// Dictionary entries ordered by the bytes of their names.
pub open spec fn name_order() -> spec_fn((u64, Seq<char>), (u64, Seq<char>)) -> bool {
    |a: (u64, Seq<char>), b: (u64, Seq<char>)|
        !bytes_lt(vstd::utf8::encode_utf8(b.1), vstd::utf8::encode_utf8(a.1))
}

/// The dictionary written beside a node tree: each hash met in the tree with
/// the first key that gave it, sorted by name.
pub open spec fn key_entries(ns: Seq<SpecGameNode>) -> Seq<(u64, Seq<char>)> {
    sort_stable(first_of_each_hash(key_pairs(ns)), name_order())
}

fn bytes_less(a: &[u8], b: &[u8]) -> (r: bool)
    ensures
        r == bytes_lt(a@, b@),
{
    let mut i: usize = 0;
    proof {
        assert(a@.subrange(0, a@.len() as int) =~= a@);
        assert(b@.subrange(0, b@.len() as int) =~= b@);
    }
    while i < a.len() && i < b.len()
        invariant
            i <= a@.len(),
            i <= b@.len(),
            bytes_lt(a@, b@) == bytes_lt(a@.subrange(i as int, a@.len() as int), b@.subrange(i as int, b@.len() as int)),
        decreases a.len() - i,
    {
        let ghost x = a@.subrange(i as int, a@.len() as int);
        let ghost y = b@.subrange(i as int, b@.len() as int);
        if a[i] != b[i] {
            assert(x[0] == a@[i as int] && y[0] == b@[i as int]);
            return a[i] < b[i];
        }
        proof {
            assert(x.drop_first() =~= a@.subrange(i + 1, a@.len() as int));
            assert(y.drop_first() =~= b@.subrange(i + 1, b@.len() as int));
        }
        i += 1;
    }
    i == a.len() && i < b.len()
}

pub proof fn lemma_has_hash_push(s: Seq<(u64, Seq<char>)>, x: (u64, Seq<char>), h: u64)
    ensures
        has_hash(s.push(x), h) == (has_hash(s, h) || x.0 == h),
{
    let t = s.push(x);
    if has_hash(s, h) {
        let j = choose|j: int| 0 <= j < s.len() && #[trigger] s[j].0 == h;
        assert(t[j] == s[j]);
    }
    if x.0 == h {
        assert(t[s.len() as int] == x);
    }
    if has_hash(t, h) {
        let j = choose|j: int| 0 <= j < t.len() && #[trigger] t[j].0 == h;
        if j < s.len() {
            assert(t[j] == s[j]);
        }
    }
}

/// Appends to `out` the first pair of each hash of `nodes` not seen before,
/// depth first, and records the hashes in `seen`; `done` stands for the pairs
/// met before.
fn gather_keys_into(
    nodes: &[GameNode],
    out: &mut Vec<HashedString>,
    seen: &mut HashSet<u64>,
    Ghost(done): Ghost<Seq<(u64, Seq<char>)>>,
)
    requires
        view_hashed(old(out)@) == first_of_each_hash(done),
        forall|h: u64| old(seen)@.contains(h) <==> has_hash(done, h),
    ensures
        view_hashed(final(out)@) == first_of_each_hash(done + key_pairs(view_game_nodes(nodes@))),
        forall|h: u64|
            final(seen)@.contains(h) <==> has_hash(done + key_pairs(view_game_nodes(nodes@)), h),
    decreases nodes@,
{
    broadcast use vstd::std_specs::hash::group_hash_axioms;

    let ghost gs = view_game_nodes(nodes@);
    let mut i: usize = 0;
    proof {
        lemma_game_nodes_len(nodes@);
        assert(gs.subrange(0, 0) =~= Seq::<SpecGameNode>::empty());
        assert(done + key_pairs(gs.subrange(0, 0)) =~= done);
    }
    while i < nodes.len()
        invariant
            i <= nodes@.len(),
            gs == view_game_nodes(nodes@),
            gs.len() == nodes@.len(),
            view_hashed(out@) == first_of_each_hash(done + key_pairs(gs.subrange(0, i as int))),
            forall|h: u64| seen@.contains(h) <==> has_hash(done + key_pairs(gs.subrange(0, i as int)), h),
        decreases nodes.len() - i,
    {
        let node: &GameNode = &nodes[i];
        proof {
            lemma_game_nodes_index(nodes@, i as int);
            assert(decreases_to!(nodes@ => nodes@[i as int]));
        }
        let h: u64 = hash_of_key(&node.key);
        let ghost d0 = done + key_pairs(gs.subrange(0, i as int));
        let ghost pair = (h, node.key@);
        let ghost d1 = d0.push(pair);
        let ghost before = out@;
        let fresh: bool = seen.insert(h);
        if fresh {
            out.push(HashedString { hash: h, value: node.key.clone() });
        }
        proof {
            assert(d1.drop_last() =~= d0);
            assert(d1.last() == pair);
            if fresh {
                assert(view_hashed(out@) =~= view_hashed(before).push(pair));
            }
            assert forall|k: u64| seen@.contains(k) <==> has_hash(d1, k) by {
                lemma_has_hash_push(d0, pair, k);
            }
        }
        match &node.value {
            GameValue::List(children) => {
                proof {
                    assert(decreases_to!(nodes@[i as int] => nodes@[i as int].value));
                    assert(decreases_to!(nodes@[i as int].value => children@));
                }
                gather_keys_into(children.as_slice(), out, seen, Ghost(d1));
            },
            GameValue::List2(children) => {
                proof {
                    assert(decreases_to!(nodes@[i as int] => nodes@[i as int].value));
                    assert(decreases_to!(nodes@[i as int].value => children@));
                }
                gather_keys_into(children.as_slice(), out, seen, Ghost(d1));
            },
            _ => {
                proof {
                    assert(d1 + Seq::<(u64, Seq<char>)>::empty() =~= d1);
                }
            },
        }
        proof {
            let t = gs.subrange(0, i + 1);
            assert(t.subrange(0, t.len() - 1) =~= gs.subrange(0, i as int));
            assert(t[t.len() - 1] == view_game_node(*node));
            assert(done + key_pairs(t) =~= d1 + value_key_pairs(view_game_value(node.value)));
        }
        i += 1;
    }
    proof {
        assert(gs.subrange(0, i as int) =~= gs);
    }
}

/// The key dictionary of a node tree, sorted by name.
fn gather_keys(nodes: &[GameNode]) -> (r: Vec<HashedString>)
    ensures
        view_hashed(r@) == key_entries(view_game_nodes(nodes@)),
{
    let mut found: Vec<HashedString> = Vec::new();
    let mut seen: HashSet<u64> = HashSet::new();
    proof {
        assert(view_hashed(found@) =~= Seq::<(u64, Seq<char>)>::empty());
    }
    gather_keys_into(nodes, &mut found, &mut seen, Ghost(Seq::empty()));
    let ghost all = first_of_each_hash(Seq::empty() + key_pairs(view_game_nodes(nodes@)));
    proof {
        assert(Seq::<(u64, Seq<char>)>::empty() + key_pairs(view_game_nodes(nodes@)) =~= key_pairs(
            view_game_nodes(nodes@),
        ));
    }
    let mut sorted: Vec<HashedString> = Vec::new();
    let mut i: usize = 0;
    proof {
        assert(view_hashed(found@).subrange(0, 0) =~= Seq::<(u64, Seq<char>)>::empty());
        assert(view_hashed(sorted@) =~= Seq::<(u64, Seq<char>)>::empty());
    }
    while i < found.len()
        invariant
            i <= found@.len(),
            view_hashed(found@) == all,
            all == first_of_each_hash(key_pairs(view_game_nodes(nodes@))),
            view_hashed(sorted@) == sort_stable(all.subrange(0, i as int), name_order()),
        decreases found.len() - i,
    {
        let entry: &HashedString = &found[i];
        let name: &[u8] = entry.value.as_str().as_bytes();
        let ghost before = sorted@;
        let mut p: usize = sorted.len();
        while p > 0 && bytes_less(name, sorted[p - 1].value.as_str().as_bytes())
            invariant
                sorted@ == before,
                p <= sorted@.len(),
                name@ == vstd::utf8::encode_utf8(entry.value@),
                forall|j: int|
                    p <= j < sorted@.len() ==> bytes_lt(
                        name@,
                        vstd::utf8::encode_utf8(#[trigger] sorted@[j].value@),
                    ),
            decreases p,
        {
            p -= 1;
        }
        let item: HashedString = HashedString { hash: entry.hash, value: entry.value.clone() };
        sorted.insert(p, item);
        proof {
            let x = (entry.hash, entry.value@);
            let s = view_hashed(before);
            assert forall|j: int| p <= j < s.len() implies !(name_order())(#[trigger] s[j], x) by {
                assert(s[j] == (before[j].hash, before[j].value@));
            }
            if p > 0 {
                assert(s[p - 1] == (before[p - 1].hash, before[p - 1].value@));
            }
            lemma_insert_at(s, x, name_order(), p as int);
            assert(view_hashed(sorted@) =~= s.insert(p as int, x));
            let t = all.subrange(0, i + 1);
            assert(t.drop_last() =~= all.subrange(0, i as int));
            assert(t.last() == x);
        }
        i += 1;
    }
    proof {
        assert(all.subrange(0, i as int) =~= all);
    }
    sorted
}

// ---------------------------------------------------------------------------
// The file
// ---------------------------------------------------------------------------
/// A `DATA` chunk with an empty path.
pub open spec fn data_chunk_spec(name: Seq<u8>, version: u32, body: Seq<u8>) -> SpecChunk {
    SpecChunk { kind: ChunkKind::Data, name, version, path: Seq::empty(), body: SpecBody::Data(body) }
}

/// The `AEGD` body: the CRC-32 of the encoded node list, then the list.
pub open spec fn aegd_body(ns: Seq<SpecGameNode>) -> Seq<u8> {
    let list = list_bytes(encoded_list(ns));
    bytes32(crc32(list) as int) + list
}

/// The `KEYS` body: the number of entries, then each entry.
pub open spec fn keys_body(ns: Seq<SpecGameNode>) -> Seq<u8> {
    bytes32(key_entries(ns).len() as int) + hashed_list_bytes(key_entries(ns))
}

/// The container of a node tree: version 4.0 for platform 1, with the `AEGD`
/// chunk (version 3) and the `KEYS` chunk (version 1).
pub open spec fn rgd_container(ns: Seq<SpecGameNode>) -> SpecChunky {
    SpecChunky {
        major: 4,
        minor: 0,
        platform: 1,
        chunks: seq![data_chunk_spec(aegd_name(), 3, aegd_body(ns)), data_chunk_spec(keys_tag(), 1, keys_body(ns))],
    }
}

pub(crate) fn data_chunk(name: [u8; 4], version: u32, body: Vec<u8>) -> (c: Chunk)
    ensures
        c@ == data_chunk_spec(name@, version, body@),
{
    let c = Chunk { kind: ChunkKind::Data, name, version, path: Vec::new(), body: ChunkBody::Data(body) };
    assert(c@.path =~= Seq::<u8>::empty());
    c
}

/// The `.rgd` bytes of a node tree: each list's nodes sorted by key hash and
/// packed behind a CRC-32 in an `AEGD` chunk, and the dictionary of every key
/// in a `KEYS` chunk.
pub fn write_rgd(nodes: &[GameNode]) -> (r: Vec<u8>)
    ensures
        r@ == chunky_bytes(rgd_container(view_game_nodes(nodes@))),
{
    let raw: Vec<RawNode> = encode_list(nodes);
    let list: Vec<u8> = write_raw_list(raw.as_slice());
    let crc: u32 = crc32_of(list.as_slice());
    let mut aegd: Vec<u8> = Vec::new();
    push_u32(&mut aegd, crc);
    push_all(&mut aegd, list.as_slice());
    let table = KeyTable { keys: gather_keys(nodes) };
    let keys_data: Vec<u8> = table.write();
    let aegd_tag: [u8; 4] = [0x41, 0x45, 0x47, 0x44];
    let keys_name: [u8; 4] = [0x4b, 0x45, 0x59, 0x53];
    proof {
        assert(aegd_tag@ =~= aegd_name());
        assert(keys_name@ =~= keys_tag());
    }
    let first: Chunk = data_chunk(aegd_tag, 3, aegd);
    let second: Chunk = data_chunk(keys_name, 1, keys_data);
    let ghost c1 = first@;
    let ghost c2 = second@;
    let mut chunks: Vec<Chunk> = Vec::new();
    chunks.push(first);
    chunks.push(second);
    proof {
        let s0 = Seq::<Chunk>::empty();
        lemma_view_chunks_push(s0, chunks@[0]);
        assert(s0.push(chunks@[0]) =~= chunks@.subrange(0, 1));
        lemma_view_chunks_push(chunks@.subrange(0, 1), chunks@[1]);
        assert(chunks@.subrange(0, 1).push(chunks@[1]) =~= chunks@);
        assert(view_chunks(s0) =~= Seq::<SpecChunk>::empty());
        assert(view_chunks(chunks@) =~= seq![c1, c2]);
    }
    let chunky = Chunky { major: 4, minor: 0, platform: 1, chunks };
    let mut out: Vec<u8> = Vec::new();
    chunky.write(&mut out);
    proof {
        assert(chunky@ == rgd_container(view_game_nodes(nodes@)));
        assert(out@ =~= chunky_bytes(chunky@));
    }
    out
}

proof fn lemma_view_nodes_insert(s: Seq<RawNode>, p: int, x: RawNode)
    requires
        0 <= p <= s.len(),
    ensures
        view_nodes(s.insert(p, x)) == view_nodes(s).insert(p, view_node(x)),
{
    let t = s.insert(p, x);
    lemma_view_nodes_len(s);
    lemma_view_nodes_len(t);
    assert forall|j: int| 0 <= j < t.len() implies view_nodes(t)[j] == view_nodes(s).insert(
        p,
        view_node(x),
    )[j] by {
        lemma_view_nodes_index(t, j);
        if j < p {
            lemma_view_nodes_index(s, j);
        } else if j > p {
            lemma_view_nodes_index(s, j - 1);
        }
    }
    assert(view_nodes(t) =~= view_nodes(s).insert(p, view_node(x)));
}

pub proof fn lemma_game_nodes_len(s: Seq<GameNode>)
    ensures
        view_game_nodes(s).len() == s.len(),
    decreases s.len(),
{
    if s.len() > 0 {
        lemma_game_nodes_len(s.subrange(0, s.len() - 1));
    }
}

pub proof fn lemma_game_nodes_index(s: Seq<GameNode>, i: int)
    requires
        0 <= i < s.len(),
    ensures
        view_game_nodes(s).len() == s.len(),
        view_game_nodes(s)[i] == view_game_node(s[i]),
    decreases s.len(),
{
    lemma_game_nodes_len(s);
    if i < s.len() - 1 {
        lemma_game_nodes_index(s.subrange(0, s.len() - 1), i);
    }
}

pub proof fn lemma_game_nodes_push(s: Seq<GameNode>, n: GameNode)
    ensures
        view_game_nodes(s.push(n)) == view_game_nodes(s).push(view_game_node(n)),
{
    assert(s.push(n).subrange(0, s.len() as int) =~= s);
}

pub proof fn lemma_game_nodes_concat(a: Seq<GameNode>, b: Seq<GameNode>)
    ensures
        view_game_nodes(a + b) == view_game_nodes(a) + view_game_nodes(b),
{
    let c = a + b;
    lemma_game_nodes_len(a);
    lemma_game_nodes_len(b);
    lemma_game_nodes_len(c);
    assert forall|i: int| 0 <= i < c.len() implies view_game_nodes(c)[i] == (view_game_nodes(a) + view_game_nodes(
        b,
    ))[i] by {
        lemma_game_nodes_index(c, i);
        if i < a.len() {
            lemma_game_nodes_index(a, i);
        } else {
            lemma_game_nodes_index(b, i - a.len());
        }
    }
    assert(view_game_nodes(c) =~= view_game_nodes(a) + view_game_nodes(b));
}

} // verus!
