//! Where data bodies land in a written container: the offsets that the
//! walk over the chunk tree reports are where the bytes really are.
use vstd::prelude::*;

use crate::container::{
    body_bytes, chunk_bytes, chunks_bytes, chunky_bytes, kind_tag, view_chunk, view_chunks, Chunk, ChunkBody,
    Chunky, SpecBody, SpecChunk, SpecChunky,
};
use crate::walk::{data_entries, lemma_data_entries_empty, lemma_data_entries_single, lemma_data_entries_unfold};

verus! {

/// The body of a data chunk.
pub open spec fn data_body(c: SpecChunk) -> Seq<u8> {
    c.body->Data_0
}

/// The entries `e` stand in `bytes` written from `base`: each is a data
/// chunk whose body sits at its offset, a chunk header or more past `base`,
/// and each entry's body ends a chunk header or more before the next
/// entry's offset.
#[verifier::opaque]
pub open spec fn entries_in_place(e: Seq<(SpecChunk, int)>, bytes: Seq<u8>, base: int) -> bool {
    &&& forall|i: int|
        0 <= i < e.len() ==> {
            let (c, p) = #[trigger] e[i];
            &&& c.body is Data
            &&& base + 20 <= p
            &&& p - base + data_body(c).len() <= bytes.len()
            &&& bytes.subrange(p - base, p - base + data_body(c).len()) == data_body(c)
        }
    &&& forall|i: int, j: int|
        0 <= i < j < e.len() ==> #[trigger] e[i].1 + data_body(e[i].0).len() + 20 <= #[trigger] e[j].1
}

proof fn lemma_shift(e: Seq<(SpecChunk, int)>, x: Seq<u8>, b: Seq<u8>, y: Seq<u8>, base: int)
    requires
        entries_in_place(e, b, base),
    ensures
        entries_in_place(e, x + b + y, base - x.len()),
{
    reveal(entries_in_place);
    let w = x + b + y;
    let nb = base - x.len();
    assert forall|i: int| 0 <= i < e.len() implies {
        let (c, p) = #[trigger] e[i];
        &&& c.body is Data
        &&& nb + 20 <= p
        &&& p - nb + data_body(c).len() <= w.len()
        &&& w.subrange(p - nb, p - nb + data_body(c).len()) == data_body(c)
    } by {
        let (c, p) = e[i];
        let d = data_body(c);
        let o = p - base;
        assert(b.subrange(o, o + d.len()) == d);
        assert(w.subrange(o + x.len(), o + x.len() + d.len()) =~= b.subrange(o, o + d.len())) by {
            assert forall|k: int| 0 <= k < d.len() implies #[trigger] w.subrange(o + x.len(), o + x.len() + d.len())[k]
                == b.subrange(o, o + d.len())[k] by {
                assert(w[o + x.len() + k] == b[o + k]);
            }
        }
    }
}

proof fn lemma_concat(e1: Seq<(SpecChunk, int)>, b1: Seq<u8>, e2: Seq<(SpecChunk, int)>, b2: Seq<u8>, base: int)
    requires
        entries_in_place(e1, b1, base),
        entries_in_place(e2, b2, base + b1.len()),
    ensures
        entries_in_place(e1 + e2, b1 + b2, base),
{
    reveal(entries_in_place);
    let e = e1 + e2;
    lemma_shift(e1, Seq::empty(), b1, b2, base);
    assert(Seq::<u8>::empty() + b1 + b2 =~= b1 + b2);
    lemma_shift(e2, b1, b2, Seq::empty(), base + b1.len());
    assert(b1 + b2 + Seq::<u8>::empty() =~= b1 + b2);
    assert forall|i: int| 0 <= i < e.len() implies {
        let (c, p) = #[trigger] e[i];
        &&& c.body is Data
        &&& base + 20 <= p
        &&& p - base + data_body(c).len() <= (b1 + b2).len()
        &&& (b1 + b2).subrange(p - base, p - base + data_body(c).len()) == data_body(c)
    } by {
        if i < e1.len() {
            assert(e[i] == e1[i]);
        } else {
            assert(e[i] == e2[i - e1.len()]);
        }
    }
    assert forall|i: int, j: int|
        0 <= i < j < e.len() implies #[trigger] e[i].1 + data_body(e[i].0).len() + 20 <= #[trigger] e[j].1 by {
        if j < e1.len() {
            assert(e[i] == e1[i] && e[j] == e1[j]);
        } else if i >= e1.len() {
            assert(e[i] == e2[i - e1.len()] && e[j] == e2[j - e1.len()]);
        } else {
            assert(e[i] == e1[i] && e[j] == e2[j - e1.len()]);
            let (c, p) = e1[i];
            assert(p - base + data_body(c).len() <= b1.len());
            let (c2, p2) = e2[j - e1.len()];
            assert(base + b1.len() + 20 <= p2);
        }
    }
}

proof fn lemma_chunk_layout(c: SpecChunk)
    requires
        c.name.len() == 4,
    ensures
        chunk_bytes(c) == (kind_tag(c.kind) + c.name + crate::le::bytes32(c.version as int) + crate::le::bytes32(
            body_bytes(c).len() as int,
        ) + crate::le::bytes32(c.path.len() as int) + c.path) + body_bytes(c) + Seq::<u8>::empty(),
        (kind_tag(c.kind) + c.name + crate::le::bytes32(c.version as int) + crate::le::bytes32(
            body_bytes(c).len() as int,
        ) + crate::le::bytes32(c.path.len() as int) + c.path).len() == 20 + c.path.len(),
{
    let h = kind_tag(c.kind) + c.name + crate::le::bytes32(c.version as int) + crate::le::bytes32(
        body_bytes(c).len() as int,
    ) + crate::le::bytes32(c.path.len() as int) + c.path;
    assert(chunk_bytes(c) =~= h + body_bytes(c) + Seq::<u8>::empty());
}

proof fn lemma_single_data(c: SpecChunk, pos: int)
    requires
        c.name.len() == 4,
        c.body is Data,
    ensures
        entries_in_place(seq![(c, pos + 20 + c.path.len())], chunk_bytes(c), pos),
{
    reveal(entries_in_place);
    lemma_chunk_layout(c);
    let d = data_body(c);
    let h = kind_tag(c.kind) + c.name + crate::le::bytes32(c.version as int) + crate::le::bytes32(
        body_bytes(c).len() as int,
    ) + crate::le::bytes32(c.path.len() as int) + c.path;
    let w = h + body_bytes(c) + Seq::<u8>::empty();
    assert(body_bytes(c) == d);
    assert(w.subrange(h.len() as int, (h.len() + d.len()) as int) =~= d) by {
        assert forall|k: int| 0 <= k < d.len() implies #[trigger] w.subrange(h.len() as int, (h.len() + d.len()) as int)[k]
            == d[k] by {
            assert(w[h.len() + k] == d[k]);
        }
    }
}

proof fn lemma_folder(c: SpecChunk, pos: int, children: Seq<SpecChunk>)
    requires
        c.name.len() == 4,
        c.body == SpecBody::Folder(children),
        entries_in_place(data_entries(children, pos + 20 + c.path.len()), chunks_bytes(children), pos + 20 + c.path.len()),
    ensures
        entries_in_place(data_entries(children, pos + 20 + c.path.len()), chunk_bytes(c), pos),
{
    lemma_chunk_layout(c);
    let h = kind_tag(c.kind) + c.name + crate::le::bytes32(c.version as int) + crate::le::bytes32(
        body_bytes(c).len() as int,
    ) + crate::le::bytes32(c.path.len() as int) + c.path;
    assert(body_bytes(c) == chunks_bytes(children));
    lemma_shift(data_entries(children, pos + 20 + c.path.len()), h, body_bytes(c), Seq::empty(), pos + 20 + c.path.len());
}

/// Written from `pos`, the data chunks of `cs` that the walk finds stand in
/// the written bytes where it says.
pub proof fn lemma_entries_in_place(cs: Seq<SpecChunk>, pos: int)
    requires
        four_byte_names(cs),
    ensures
        entries_in_place(data_entries(cs, pos), chunks_bytes(cs), pos),
    decreases cs,
{
    if cs.len() == 0 {
        lemma_data_entries_empty(pos);
        assert(cs =~= Seq::<SpecChunk>::empty());
        reveal(entries_in_place);
    } else {
        let c = cs[0];
        let rest = cs.subrange(1, cs.len() as int);
        let next = pos + chunk_bytes(c).len();
        lemma_data_entries_unfold(cs, pos);
        lemma_data_entries_single(c, pos);
        assert(c.name.len() == 4);
        assert(four_byte_names(rest));
        match c.body {
            SpecBody::Data(d) => {
                lemma_single_data(c, pos);
                assert(data_entries(seq![c], pos) == seq![(c, pos + 20 + c.path.len())]);
            },
            SpecBody::Folder(children) => {
                assert(decreases_to!(cs => cs[0]));
                assert(decreases_to!(c => c.body));
                assert(decreases_to!(c.body => children));
                assert(four_byte_names(children));
                lemma_entries_in_place(children, pos + 20 + c.path.len());
                lemma_folder(c, pos, children);
                assert(data_entries(seq![c], pos) == data_entries(children, pos + 20 + c.path.len()));
            },
        }
        assert(decreases_to!(cs => rest));
        lemma_entries_in_place(rest, next);
        lemma_concat(data_entries(seq![c], pos), chunk_bytes(c), data_entries(rest, next), chunks_bytes(rest), pos);
        assert(chunks_bytes(cs) == chunk_bytes(c) + chunks_bytes(rest));
        assert(data_entries(cs, pos) == data_entries(seq![c], pos) + data_entries(rest, next));
    }
}

/// Every chunk in the tree has a four-byte name.
pub open spec fn four_byte_names(cs: Seq<SpecChunk>) -> bool
    decreases cs,
{
    cs.len() == 0 || (cs[0].name.len() == 4 && (match cs[0].body {
        SpecBody::Folder(ch) => four_byte_names(ch),
        SpecBody::Data(_) => true,
    }) && four_byte_names(cs.subrange(1, cs.len() as int)))
}

/// The chunks of a container value all have four-byte names.
proof fn lemma_four_byte_names(s: Seq<Chunk>)
    ensures
        four_byte_names(view_chunks(s)),
    decreases s,
{
    if s.len() > 0 {
        let v = view_chunks(s);
        let rest = s.subrange(1, s.len() as int);
        assert(v == seq![view_chunk(s[0])] + view_chunks(rest));
        assert(v[0] == view_chunk(s[0]));
        assert(v.subrange(1, v.len() as int) =~= view_chunks(rest));
        assert(decreases_to!(s => rest));
        lemma_four_byte_names(rest);
        match s[0].body {
            ChunkBody::Folder(children) => {
                assert(decreases_to!(s => s[0]));
                assert(decreases_to!(s[0] => s[0].body));
                assert(decreases_to!(s[0].body => children));
                assert(decreases_to!(children => children@));
                lemma_four_byte_names(children@);
            },
            ChunkBody::Data(_) => {},
        }
    }
}

/// In the bytes of any written container, each data chunk's body sits at
/// the offset that the walk over its tree (`data_chunks`, depth first in
/// file order) reports; the offsets start past the file header and a chunk
/// header (44), strictly increase, and each body ends at least a chunk
/// header before the next one begins.
pub proof fn law_data_chunks_in_place(c: Chunky)
    ensures
        entries_in_place(data_entries(c@.chunks, 24), chunky_bytes(c@), 0),
        forall|i: int| 0 <= i < data_entries(c@.chunks, 24).len() ==> 44 <= (#[trigger] data_entries(c@.chunks, 24)[i]).1,
        forall|i: int, j: int|
            0 <= i < j < data_entries(c@.chunks, 24).len() ==> (#[trigger] data_entries(c@.chunks, 24)[i]).1
                < (#[trigger] data_entries(c@.chunks, 24)[j]).1,
{
    lemma_four_byte_names(c.chunks@);
    lemma_placed_chunks(c@);
    reveal(entries_in_place);
}

proof fn lemma_placed_chunks(c: SpecChunky)
    requires
        four_byte_names(c.chunks),
    ensures
        entries_in_place(data_entries(c.chunks, 24), chunky_bytes(c), 0),
        forall|i: int| 0 <= i < data_entries(c.chunks, 24).len() ==> 44 <= (#[trigger] data_entries(c.chunks, 24)[i]).1,
{
    lemma_entries_in_place(c.chunks, 24);
    assert forall|i: int| 0 <= i < data_entries(c.chunks, 24).len() implies 44 <= (
    #[trigger] data_entries(c.chunks, 24)[i]).1 by {
        reveal(entries_in_place);
        let (x, p) = data_entries(c.chunks, 24)[i];
    }
    let head = crate::container::magic() + crate::le::bytes16(c.major as int) + crate::le::bytes16(c.minor as int)
        + crate::le::bytes32(c.platform as int);
    assert(head.len() == 24);
    lemma_shift(data_entries(c.chunks, 24), head, chunks_bytes(c.chunks), Seq::empty(), 24);
    assert(head + chunks_bytes(c.chunks) + Seq::<u8>::empty() =~= chunky_bytes(c));
}

} // verus!
