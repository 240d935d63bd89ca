//! Retargeting length-prefixed string tokens inside the data chunks of a
//! container: each `[u32 len][bytes]` token found is swapped for another, and
//! the container's lengths follow when it is written again.
use vstd::prelude::*;

use crate::container::{
    chunky_bytes, lemma_view_chunks_index, lemma_view_chunks_len, lemma_view_chunks_push,
    parse_chunky, view_chunk, view_chunks, Chunk, ChunkBody, Chunky, ChunkyError, SpecBody,
    SpecChunk, SpecChunky,
};
use vstd::string::StringSliceAdditionalSpecFns;

use crate::le::{bytes32, push_all, push_len32, same_bytes};
use crate::rgd_patch::capped;

verus! {

/// The first position at or after `i` where `needle` occurs in `data`.
pub open spec fn find_from(data: Seq<u8>, needle: Seq<u8>, i: int) -> Option<int>
    decreases data.len() - i,
{
    if needle.len() == 0 || i < 0 || i + needle.len() > data.len() {
        None
    } else if data.subrange(i, i + needle.len()) == needle {
        Some(i)
    } else {
        find_from(data, needle, i + 1)
    }
}

pub proof fn lemma_find_from(data: Seq<u8>, needle: Seq<u8>, i: int)
    ensures
        find_from(data, needle, i) matches Some(at) ==> i <= at && at + needle.len() <= data.len()
            && data.subrange(at, at + needle.len()) == needle,
    decreases data.len() - i,
{
    if !(needle.len() == 0 || i < 0 || i + needle.len() > data.len()) && data.subrange(
        i,
        i + needle.len(),
    ) != needle {
        lemma_find_from(data, needle, i + 1);
    }
}

/// `data` with every occurrence of `pat` from `from` on replaced by `rep`,
/// scanning on after each replacement, and the number of replacements.
pub open spec fn replace_from(data: Seq<u8>, pat: Seq<u8>, rep: Seq<u8>, from: int) -> (Seq<u8>, nat)
    decreases data.len() - from,
{
    if pat.len() == 0 || from < 0 {
        (data, 0)
    } else {
        match find_from(data, pat, from) {
            None => (data, 0),
            Some(at) => {
                proof {
                    lemma_find_from(data, pat, from);
                }
                let d2 = data.subrange(0, at) + rep + data.subrange(at + pat.len(), data.len() as int);
                let (d3, k) = replace_from(d2, pat, rep, at + rep.len());
                (d3, k + 1)
            },
        }
    }
}

/// The token of a string: its byte length (low 32 bits) then its bytes.
pub open spec fn token(s: Seq<u8>) -> Seq<u8> {
    bytes32(s.len() as int) + s
}

/// Every substitution `(pattern, replacement)` applied to `data` in order,
/// and the total count.
pub open spec fn replace_all(data: Seq<u8>, subs: Seq<(Seq<u8>, Seq<u8>)>) -> (Seq<u8>, nat)
    decreases subs.len(),
{
    if subs.len() == 0 {
        (data, 0)
    } else {
        let (d1, k1) = replace_all(data, subs.drop_last());
        let (d2, k2) = replace_from(d1, subs.last().0, subs.last().1, 0);
        (d2, k1 + k2)
    }
}

pub open spec fn retarget_chunk(c: SpecChunk, subs: Seq<(Seq<u8>, Seq<u8>)>) -> (SpecChunk, nat)
    decreases c, 0int,
{
    match c.body {
        SpecBody::Data(d) => {
            let (d2, k) = replace_all(d, subs);
            (SpecChunk { body: SpecBody::Data(d2), ..c }, k)
        },
        SpecBody::Folder(ch) => {
            let (ch2, k) = retarget_chunks(ch, subs);
            (SpecChunk { body: SpecBody::Folder(ch2), ..c }, k)
        },
    }
}

/// Every chunk retargeted, and the total count.
pub open spec fn retarget_chunks(cs: Seq<SpecChunk>, subs: Seq<(Seq<u8>, Seq<u8>)>) -> (Seq<SpecChunk>, nat)
    decreases cs, 1int,
{
    if cs.len() == 0 {
        (Seq::empty(), 0)
    } else {
        let (done, k1) = retarget_chunks(cs.subrange(0, cs.len() - 1), subs);
        let (c2, k2) = retarget_chunk(cs[cs.len() - 1], subs);
        (done.push(c2), k1 + k2)
    }
}

fn find_sub(haystack: &[u8], needle: &[u8], from: usize) -> (r: Option<usize>)
    requires
        from <= haystack@.len(),
    ensures
        r == (match find_from(haystack@, needle@, from as int) {
            Some(i) => Some(i as usize),
            None => None::<usize>,
        }),
{
    if needle.len() == 0 {
        return None;
    }
    let n: usize = haystack.len();
    let mut i: usize = from;
    while i <= n && n - i >= needle.len()
        invariant
            from <= i,
            n == haystack@.len(),
            needle@.len() > 0,
            find_from(haystack@, needle@, from as int) == find_from(haystack@, needle@, i as int),
        decreases n + 1 - i,
    {
        let window: &[u8] = vstd::slice::slice_subrange(haystack, i, i + needle.len());
        if same_bytes(window, needle) {
            return Some(i);
        }
        i = i + 1;
    }
    None
}

fn replace_tokens(data: &[u8], from_tok: &[u8], to_tok: &[u8]) -> (r: (Vec<u8>, usize))
    requires
        from_tok@.len() > 0,
    ensures
        r.0@ == replace_from(data@, from_tok@, to_tok@, 0).0,
        r.1 == capped(replace_from(data@, from_tok@, to_tok@, 0).1),
{
    let mut cur: Vec<u8> = vstd::slice::slice_to_vec(data);
    let mut from: usize = 0;
    let mut count: usize = 0;
    let ghost goal = replace_from(data@, from_tok@, to_tok@, 0);
    let ghost mut done: nat = 0;
    proof {
        assert(cur@ =~= data@);
    }
    loop
        invariant
            from_tok@.len() > 0,
            from <= cur@.len(),
            goal == replace_from(data@, from_tok@, to_tok@, 0),
            goal.0 == replace_from(cur@, from_tok@, to_tok@, from as int).0,
            goal.1 == done + replace_from(cur@, from_tok@, to_tok@, from as int).1,
            count == capped(done),
        decreases cur@.len() - from,
    {
        match find_sub(cur.as_slice(), from_tok, from) {
            None => {
                proof {
                    assert(find_from(cur@, from_tok@, from as int) is None);
                    assert(replace_from(cur@, from_tok@, to_tok@, from as int) == (cur@, 0nat));
                }
                return (cur, count);
            },
            Some(at) => {
                proof {
                    lemma_find_from(cur@, from_tok@, from as int);
                }
                let total: usize = cur.len();
                let mut next: Vec<u8> = Vec::new();
                push_all(&mut next, vstd::slice::slice_subrange(cur.as_slice(), 0, at));
                push_all(&mut next, to_tok);
                push_all(&mut next, vstd::slice::slice_subrange(cur.as_slice(), at + from_tok.len(), total));
                proof {
                    assert(next@ =~= cur@.subrange(0, at as int) + to_tok@ + cur@.subrange(
                        at + from_tok@.len(),
                        cur@.len() as int,
                    ));
                }
                let new_len: usize = next.len();
                cur = next;
                assert(at + to_tok@.len() <= new_len);
                from = at + to_tok.len();
                count = count.saturating_add(1);
                proof {
                    done = done + 1;
                }
            },
        }
    }
}

} // verus!

verus! {

pub open spec fn view_subs(v: Seq<(Vec<u8>, Vec<u8>)>) -> Seq<(Seq<u8>, Seq<u8>)> {
    v.map_values(|p: (Vec<u8>, Vec<u8>)| (p.0@, p.1@))
}

/// The token of `s`: its byte length (low 32 bits), then its bytes.
fn length_prefixed(s: &str) -> (r: Vec<u8>)
    ensures
        r@ == token(s.spec_bytes()),
{
    let b: &[u8] = s.as_bytes();
    let mut v: Vec<u8> = Vec::new();
    push_len32(&mut v, b.len());
    push_all(&mut v, b);
    v
}

fn replace_in_data(data: &[u8], subs: &[(Vec<u8>, Vec<u8>)]) -> (r: (Vec<u8>, usize))
    ensures
        r.0@ == replace_all(data@, view_subs(subs@)).0,
        r.1 == capped(replace_all(data@, view_subs(subs@)).1),
{
    let mut cur: Vec<u8> = vstd::slice::slice_to_vec(data);
    let mut count: usize = 0;
    let mut i: usize = 0;
    let ghost vs = view_subs(subs@);
    proof {
        assert(vs.subrange(0, 0) =~= Seq::<(Seq<u8>, Seq<u8>)>::empty());
        assert(cur@ =~= data@);
    }
    while i < subs.len()
        invariant
            i <= subs@.len(),
            vs == view_subs(subs@),
            cur@ == replace_all(data@, vs.subrange(0, i as int)).0,
            count == capped(replace_all(data@, vs.subrange(0, i as int)).1),
        decreases subs.len() - i,
    {
        let from_tok: &[u8] = subs[i].0.as_slice();
        let to_tok: &[u8] = subs[i].1.as_slice();
        proof {
            let t = vs.subrange(0, i + 1);
            assert(t.drop_last() =~= vs.subrange(0, i as int));
            assert(t.last() == (from_tok@, to_tok@));
        }
        if from_tok.len() > 0 {
            let (next, k) = replace_tokens(cur.as_slice(), from_tok, to_tok);
            cur = next;
            count = count.saturating_add(k);
        } else {
            proof {
                assert(replace_from(cur@, from_tok@, to_tok@, 0) == (cur@, 0nat));
            }
        }
        i += 1;
    }
    proof {
        assert(vs.subrange(0, i as int) =~= vs);
    }
    (cur, count)
}

fn retarget(chunks: &[Chunk], subs: &[(Vec<u8>, Vec<u8>)]) -> (r: (Vec<Chunk>, usize))
    ensures
        view_chunks(r.0@) == retarget_chunks(view_chunks(chunks@), view_subs(subs@)).0,
        r.1 == capped(retarget_chunks(view_chunks(chunks@), view_subs(subs@)).1),
    decreases chunks@,
{
    let ghost cs = view_chunks(chunks@);
    let ghost vs = view_subs(subs@);
    let mut out: Vec<Chunk> = Vec::new();
    let mut count: usize = 0;
    let mut i: usize = 0;
    proof {
        lemma_view_chunks_len(chunks@);
        assert(cs.subrange(0, 0) =~= Seq::<SpecChunk>::empty());
        assert(view_chunks(out@) =~= Seq::<SpecChunk>::empty());
    }
    while i < chunks.len()
        invariant
            i <= chunks@.len(),
            cs == view_chunks(chunks@),
            cs.len() == chunks@.len(),
            vs == view_subs(subs@),
            view_chunks(out@) == retarget_chunks(cs.subrange(0, i as int), vs).0,
            count == capped(retarget_chunks(cs.subrange(0, i as int), vs).1),
        decreases chunks.len() - i,
    {
        let chunk: &Chunk = &chunks[i];
        proof {
            lemma_view_chunks_index(chunks@, i as int);
            let t = cs.subrange(0, i + 1);
            assert(t.subrange(0, i as int) =~= cs.subrange(0, i as int));
            assert(t[i as int] == view_chunk(*chunk));
        }
        let (body, k): (ChunkBody, usize) = match &chunk.body {
            ChunkBody::Data(d) => {
                let (d2, k) = replace_in_data(d.as_slice(), subs);
                (ChunkBody::Data(d2), k)
            },
            ChunkBody::Folder(children) => {
                proof {
                    assert(decreases_to!(chunks@ => chunks@[i as int]));
                    assert(decreases_to!(chunks@[i as int] => chunks@[i as int].body));
                    assert(decreases_to!(chunk.body => chunk.body->Folder_0));
                    assert(decreases_to!(*children => children@));
                }
                let (ch2, k) = retarget(children.as_slice(), subs);
                (ChunkBody::Folder(ch2), k)
            },
        };
        let c2 = Chunk {
            kind: chunk.kind,
            name: chunk.name,
            version: chunk.version,
            path: chunk.path.clone(),
            body,
        };
        let ghost step = retarget_chunk(cs[i as int], vs);
        proof {
            assert(view_chunk(c2) == step.0);
            assert(k == capped(step.1));
        }
        let ghost before = out@;
        out.push(c2);
        proof {
            lemma_view_chunks_push(before, c2);
        }
        let ghost prev = retarget_chunks(cs.subrange(0, i as int), vs);
        count = count.saturating_add(k);
        proof {
            assert(count == capped(prev.1 + step.1));
        }
        i += 1;
    }
    proof {
        assert(cs.subrange(0, i as int) =~= cs);
    }
    (out, count)
}

/// The token substitutions for text substitutions.
pub open spec fn token_subs(subs: Seq<(&str, &str)>) -> Seq<(Seq<u8>, Seq<u8>)> {
    subs.map_values(|p: (&str, &str)| (token(p.0.spec_bytes()), token(p.1.spec_bytes())))
}

/// The container with its tokens retargeted, written, and the count.
pub open spec fn spec_retarget_file(bytes: Seq<u8>, subs: Seq<(&str, &str)>) -> Result<
    (Seq<u8>, usize),
    ChunkyError,
> {
    match parse_chunky(bytes) {
        Err(e) => Err(e),
        Ok(c) => {
            let (cs, k) = retarget_chunks(c.chunks, token_subs(subs));
            Ok((chunky_bytes(SpecChunky { chunks: cs, ..c }), capped(k)))
        },
    }
}

/// Rewrites length-prefixed string tokens inside every data chunk of the
/// container in `bytes`: each `(from, to)` is matched as `[u32 len][bytes]`
/// and replaced, in order, every occurrence, scanning on after each
/// replacement; the container is written again with its lengths recomputed.
/// Returns the new bytes and the number of tokens replaced.
pub fn replace_length_prefixed_strings(bytes: &[u8], subs: &[(&str, &str)]) -> (r: Result<
    (Vec<u8>, usize),
    ChunkyError,
>)
    ensures
        match spec_retarget_file(bytes@, subs@) {
            Err(e) => r == Err::<(Vec<u8>, usize), ChunkyError>(e),
            Ok((out, k)) => r matches Ok((v, n)) && v@ == out && n == k,
        },
{
    let mut chunky: Chunky = match Chunky::read(bytes) {
        Ok(c) => c,
        Err(e) => {
            return Err(e);
        },
    };
    let mut tokens: Vec<(Vec<u8>, Vec<u8>)> = Vec::new();
    let mut i: usize = 0;
    while i < subs.len()
        invariant
            i <= subs@.len(),
            view_subs(tokens@) == token_subs(subs@.subrange(0, i as int)),
        decreases subs.len() - i,
    {
        let (from, to) = subs[i];
        let pair = (length_prefixed(from), length_prefixed(to));
        let ghost before = tokens@;
        tokens.push(pair);
        i += 1;
        proof {
            assert(subs@.subrange(0, i as int) =~= subs@.subrange(0, i - 1).push(subs@[i - 1]));
            assert(view_subs(tokens@) =~= view_subs(before).push((pair.0@, pair.1@)));
            assert(token_subs(subs@.subrange(0, i as int)) =~= token_subs(subs@.subrange(0, i - 1)).push(
                (token(from.spec_bytes()), token(to.spec_bytes())),
            ));
        }
    }
    proof {
        assert(subs@.subrange(0, i as int) =~= subs@);
    }
    let (chunks, count) = retarget(chunky.chunks.as_slice(), tokens.as_slice());
    chunky.chunks = chunks;
    let mut out: Vec<u8> = Vec::new();
    chunky.write(&mut out);
    proof {
        assert(out@ =~= chunky_bytes(chunky@));
    }
    Ok((out, count))
}

} // verus!
