//! Where each data chunk's body lands in the written file.
use vstd::prelude::*;

use crate::container::{
    chunk_bytes, chunks_bytes, chunky_bytes, lemma_chunks_bytes_push, lemma_view_chunks_index,
    lemma_view_chunks_len, view_chunk, view_chunks, Chunk, ChunkBody, Chunky, SpecChunk, SpecBody,
};

verus! {

/// Size of the Relic Chunky file header (16-byte magic + major/minor/platform).
pub const FILE_HEADER_LEN: u64 = 24;

/// Fixed part of a chunk header: kind, name, version, length, path length.
pub const CHUNK_HEADER_FIXED: u64 = 20;

/// Every data chunk in `cs`, depth first in file order, with the file offset
/// of its body when `cs` is written from `pos`.
#[verifier::opaque]
pub open spec fn data_entries(cs: Seq<SpecChunk>, pos: int) -> Seq<(SpecChunk, int)>
    decreases cs,
{
    if cs.len() == 0 {
        Seq::empty()
    } else {
        let c = cs[0];
        let body_pos = pos + 20 + c.path.len();
        let here = match c.body {
            SpecBody::Data(_) => seq![(c, body_pos)],
            SpecBody::Folder(children) => data_entries(children, body_pos),
        };
        here + data_entries(cs.subrange(1, cs.len() as int), pos + chunk_bytes(c).len())
    }
}

pub open spec fn view_entries(v: Seq<(&Chunk, u64)>) -> Seq<(SpecChunk, int)> {
    v.map_values(|e: (&Chunk, u64)| (view_chunk(*e.0), e.1 as int))
}

/// A non-empty list's entries: those of its first chunk, then the rest's.
pub proof fn lemma_data_entries_unfold(cs: Seq<SpecChunk>, pos: int)
    requires
        cs.len() > 0,
    ensures
        data_entries(cs, pos) == data_entries(seq![cs[0]], pos) + data_entries(
            cs.subrange(1, cs.len() as int),
            pos + chunk_bytes(cs[0]).len(),
        ),
{
    reveal_with_fuel(data_entries, 2);
    let one = seq![cs[0]];
    assert(one.subrange(1, 1) =~= Seq::<SpecChunk>::empty());
    assert(data_entries(one, pos) =~= data_entries(one, pos) + Seq::<(SpecChunk, int)>::empty());
}

pub proof fn lemma_data_entries_empty(pos: int)
    ensures
        data_entries(Seq::<SpecChunk>::empty(), pos) == Seq::<(SpecChunk, int)>::empty(),
{
    reveal_with_fuel(data_entries, 1);
}

pub proof fn lemma_data_entries_single(c: SpecChunk, pos: int)
    ensures
        data_entries(seq![c], pos) == (match c.body {
            SpecBody::Data(_) => seq![(c, pos + 20 + c.path.len())],
            SpecBody::Folder(children) => data_entries(children, pos + 20 + c.path.len()),
        }),
{
    reveal_with_fuel(data_entries, 1);
    let one = seq![c];
    assert(one.subrange(1, 1) =~= Seq::<SpecChunk>::empty());
    lemma_data_entries_empty(pos + chunk_bytes(c).len());
    assert(data_entries(one, pos) =~= (match c.body {
        SpecBody::Data(_) => seq![(c, pos + 20 + c.path.len())],
        SpecBody::Folder(children) => data_entries(children, pos + 20 + c.path.len()),
    }));
}

pub proof fn lemma_data_entries_push(cs: Seq<SpecChunk>, c: SpecChunk, pos: int)
    ensures
        data_entries(cs.push(c), pos) == data_entries(cs, pos) + data_entries(
            seq![c],
            pos + chunks_bytes(cs).len(),
        ),
    decreases cs.len(),
{
    let t = cs.push(c);
    if cs.len() == 0 {
        assert(t =~= seq![c]);
        assert(cs =~= Seq::<SpecChunk>::empty());
        lemma_data_entries_empty(pos);
        assert(chunks_bytes(cs) == Seq::<u8>::empty());
        assert(data_entries(t, pos) =~= data_entries(cs, pos) + data_entries(
            seq![c],
            pos + chunks_bytes(cs).len(),
        ));
    } else {
        let r = cs.subrange(1, cs.len() as int);
        let p1 = pos + chunk_bytes(cs[0]).len();
        assert(t.subrange(1, t.len() as int) =~= r.push(c));
        assert(t[0] == cs[0]);
        lemma_data_entries_unfold(t, pos);
        lemma_data_entries_unfold(cs, pos);
        lemma_data_entries_push(r, c, p1);
        assert(chunks_bytes(cs) == chunk_bytes(cs[0]) + chunks_bytes(r));
        let h = data_entries(seq![cs[0]], pos);
        let x = data_entries(r, p1);
        let y = data_entries(seq![c], p1 + chunks_bytes(r).len());
        assert(data_entries(t, pos) == h + (x + y));
        assert(data_entries(cs, pos) == h + x);
        assert(h + (x + y) =~= (h + x) + y);
    }
}

pub proof fn lemma_chunks_bytes_split(cs: Seq<SpecChunk>, k: int)
    requires
        0 <= k <= cs.len(),
    ensures
        chunks_bytes(cs) == chunks_bytes(cs.subrange(0, k)) + chunks_bytes(
            cs.subrange(k, cs.len() as int),
        ),
    decreases cs.len(),
{
    if k == 0 {
        assert(cs.subrange(0, 0) =~= Seq::<SpecChunk>::empty());
        assert(cs.subrange(0, cs.len() as int) =~= cs);
        assert(chunks_bytes(Seq::<SpecChunk>::empty()) == Seq::<u8>::empty());
        assert(chunks_bytes(cs) =~= Seq::<u8>::empty() + chunks_bytes(cs));
    } else {
        let r = cs.subrange(1, cs.len() as int);
        lemma_chunks_bytes_split(r, k - 1);
        assert(r.subrange(0, k - 1) =~= cs.subrange(1, k));
        assert(r.subrange(k - 1, r.len() as int) =~= cs.subrange(k, cs.len() as int));
        let a = cs.subrange(0, k);
        assert(a[0] == cs[0]);
        assert(a.subrange(1, a.len() as int) =~= cs.subrange(1, k));
        assert(chunks_bytes(a) == chunk_bytes(cs[0]) + chunks_bytes(cs.subrange(1, k)));
        assert(chunks_bytes(cs) =~= chunks_bytes(a) + chunks_bytes(cs.subrange(k, cs.len() as int)));
    }
}


fn collect_data_chunks<'a>(chunks: &'a [Chunk], pos: u64, out: &mut Vec<(&'a Chunk, u64)>) -> (end: u64)
    requires
        pos + chunks_bytes(view_chunks(chunks@)).len() <= u64::MAX,
    ensures
        end == pos + chunks_bytes(view_chunks(chunks@)).len(),
        view_entries(final(out)@) == view_entries(old(out)@) + data_entries(view_chunks(chunks@), pos as int),
    decreases chunks@,
{
    let ghost cs = view_chunks(chunks@);
    let ghost start = view_entries(out@);
    let mut p: u64 = pos;
    let mut i: usize = 0;
    proof {
        lemma_view_chunks_len(chunks@);
        assert(cs.subrange(0, 0) =~= Seq::<SpecChunk>::empty());
        lemma_data_entries_empty(pos as int);
        assert(start + data_entries(cs.subrange(0, 0), pos as int) =~= start);
    }
    while i < chunks.len()
        invariant
            i <= chunks@.len(),
            cs == view_chunks(chunks@),
            cs.len() == chunks@.len(),
            pos + chunks_bytes(cs).len() <= u64::MAX,
            p == pos + chunks_bytes(cs.subrange(0, i as int)).len(),
            view_entries(out@) == start + data_entries(cs.subrange(0, i as int), pos as int),
        decreases chunks.len() - i,
    {
        let chunk: &Chunk = &chunks[i];
        proof {
            lemma_view_chunks_index(chunks@, i as int);
            lemma_chunks_bytes_push(cs.subrange(0, i as int), cs[i as int]);
            lemma_data_entries_push(cs.subrange(0, i as int), cs[i as int], pos as int);
            assert(cs.subrange(0, i as int).push(cs[i as int]) =~= cs.subrange(0, i + 1));
            assert(chunks_bytes(cs) == chunks_bytes(cs.subrange(0, i + 1)) + chunks_bytes(
                cs.subrange(i + 1, cs.len() as int),
            )) by {
                lemma_chunks_bytes_split(cs, i + 1);
            }
        }
        let body_pos: u64 = p + CHUNK_HEADER_FIXED + chunk.path.len() as u64;
        proof {
            lemma_data_entries_single(cs[i as int], p as int);
        }
        match &chunk.body {
            ChunkBody::Data(data) => {
                let ghost before = out@;
                out.push((chunk, body_pos));
                proof {
                    assert(view_entries(out@) =~= view_entries(before) + seq![(view_chunk(*chunk), body_pos as int)]);
                }
                p = body_pos + data.len() as u64;
            },
            ChunkBody::Folder(children) => {
                proof {
                    assert(decreases_to!(chunks@ => chunks@[i as int]));
                    assert(decreases_to!(chunks@[i as int] => chunks@[i as int].body));
                    assert(decreases_to!(chunk.body => chunk.body->Folder_0));
                    assert(decreases_to!(*children => children@));
                }
                p = collect_data_chunks(children.as_slice(), body_pos, out);
            },
        }
        i += 1;
        proof {
            assert(view_entries(out@) =~= start + data_entries(cs.subrange(0, i as int), pos as int));
        }
    }
    proof {
        assert(cs.subrange(0, i as int) =~= cs);
    }
    p
}


impl Chunky {
    /// Every data chunk in the tree, depth first in file order, with the file
    /// offset at which its body begins when the container is written.
    pub fn data_chunks(&self) -> (r: Vec<(&Chunk, u64)>)
        requires
            chunky_bytes(self@).len() <= u64::MAX,
        ensures
            view_entries(r@) == data_entries(self@.chunks, FILE_HEADER_LEN as int),
    {
        let mut out: Vec<(&Chunk, u64)> = Vec::new();
        proof {
            assert(view_entries(out@) =~= Seq::<(SpecChunk, int)>::empty());
        }
        collect_data_chunks(self.chunks.as_slice(), FILE_HEADER_LEN, &mut out);
        proof {
            assert(view_entries(out@) =~= data_entries(self@.chunks, FILE_HEADER_LEN as int));
        }
        out
    }
}




/// Every data chunk in `cs`, depth first in file order.
pub open spec fn data_list(cs: Seq<SpecChunk>) -> Seq<SpecChunk>
    decreases cs,
{
    if cs.len() == 0 {
        Seq::empty()
    } else {
        let c = cs[cs.len() - 1];
        let here = match c.body {
            SpecBody::Data(_) => seq![c],
            SpecBody::Folder(children) => data_list(children),
        };
        data_list(cs.subrange(0, cs.len() - 1)) + here
    }
}

pub open spec fn view_refs(v: Seq<&Chunk>) -> Seq<SpecChunk> {
    v.map_values(|c: &Chunk| view_chunk(*c))
}

fn collect_data_list<'a>(chunks: &'a [Chunk], out: &mut Vec<&'a Chunk>)
    ensures
        view_refs(final(out)@) == view_refs(old(out)@) + data_list(view_chunks(chunks@)),
    decreases chunks@,
{
    let ghost cs = view_chunks(chunks@);
    let ghost start = view_refs(out@);
    let mut i: usize = 0;
    proof {
        lemma_view_chunks_len(chunks@);
        assert(cs.subrange(0, 0) =~= Seq::<SpecChunk>::empty());
        assert(start + data_list(cs.subrange(0, 0)) =~= start);
    }
    while i < chunks.len()
        invariant
            i <= chunks@.len(),
            cs == view_chunks(chunks@),
            cs.len() == chunks@.len(),
            view_refs(out@) == start + data_list(cs.subrange(0, i as int)),
        decreases chunks.len() - i,
    {
        let chunk: &Chunk = &chunks[i];
        let ghost before = view_refs(out@);
        proof {
            lemma_view_chunks_index(chunks@, i as int);
            let next = cs.subrange(0, i + 1);
            assert(next.subrange(0, i as int) =~= cs.subrange(0, i as int));
            assert(next[i as int] == cs[i as int]);
        }
        match &chunk.body {
            ChunkBody::Data(_) => {
                out.push(chunk);
                proof {
                    assert(view_refs(out@) =~= before + seq![view_chunk(*chunk)]);
                }
            },
            ChunkBody::Folder(children) => {
                proof {
                    assert(decreases_to!(chunks@ => chunks@[i as int]));
                    assert(decreases_to!(chunks@[i as int] => chunks@[i as int].body));
                    assert(decreases_to!(chunk.body => chunk.body->Folder_0));
                    assert(decreases_to!(*children => children@));
                }
                collect_data_list(children.as_slice(), out);
            },
        }
        i += 1;
        proof {
            assert(view_refs(out@) =~= start + data_list(cs.subrange(0, i as int)));
        }
    }
    proof {
        assert(cs.subrange(0, i as int) =~= cs);
    }
}

impl Chunky {
    /// Every data chunk in the tree, depth first in file order.
    pub fn data_chunk_list(&self) -> (r: Vec<&Chunk>)
        ensures
            view_refs(r@) == data_list(self@.chunks),
    {
        let mut out: Vec<&Chunk> = Vec::new();
        proof {
            assert(view_refs(out@) =~= Seq::<SpecChunk>::empty());
        }
        collect_data_list(self.chunks.as_slice(), &mut out);
        proof {
            assert(view_refs(out@) =~= data_list(self@.chunks));
        }
        out
    }
}

} // verus!
