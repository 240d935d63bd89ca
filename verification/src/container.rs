//! The Relic Chunky container: a 24-byte file header followed by a tree of
//! `DATA` and `FOLD` chunks, each `[kind][name][version][length][path length]`
//! then its path and body.
use vstd::prelude::*;

use crate::le::{bytes16, bytes32, le16, le32, push_all, push_len32, push_u16, push_u32, read_u16, read_u32};

verus! {

#[derive(Debug, Clone, Copy, PartialEq, Eq)]
pub enum ChunkKind {
    Data,
    Folder,
}

#[derive(Debug, PartialEq, Eq)]
pub enum ChunkBody {
    Data(Vec<u8>),
    Folder(Vec<Chunk>),
}

#[derive(Debug, PartialEq, Eq)]
pub struct Chunk {
    pub kind: ChunkKind,
    pub name: [u8; 4],
    pub version: u32,
    pub path: Vec<u8>,
    pub body: ChunkBody,
}

#[derive(Debug, PartialEq, Eq)]
pub struct Chunky {
    pub major: u16,
    pub minor: u16,
    pub platform: u32,
    pub chunks: Vec<Chunk>,
}

/// Why a byte buffer is not a readable Relic Chunky container.
#[derive(Debug, Clone, Copy, PartialEq, Eq)]
pub enum ChunkyError {
    /// The file does not start with the Relic Chunky magic.
    NotChunky,
    /// A chunk header names a kind other than `DATA` or `FOLD`; the four kind
    /// bytes read as a little-endian integer.
    UnknownChunkType { tag: u32 },
    /// A header or body runs past the end of the buffer.
    UnexpectedEof,
}

/// The mathematical body of a chunk.
pub enum SpecBody {
    Data(Seq<u8>),
    Folder(Seq<SpecChunk>),
}

/// The mathematical value of a chunk.
pub struct SpecChunk {
    pub kind: ChunkKind,
    pub name: Seq<u8>,
    pub version: u32,
    pub path: Seq<u8>,
    pub body: SpecBody,
}

/// The mathematical value of a container.
pub struct SpecChunky {
    pub major: u16,
    pub minor: u16,
    pub platform: u32,
    pub chunks: Seq<SpecChunk>,
}

pub open spec fn view_chunk(c: Chunk) -> SpecChunk
    decreases c,
{
    SpecChunk {
        kind: c.kind,
        name: c.name@,
        version: c.version,
        path: c.path@,
        body: match c.body {
            ChunkBody::Data(d) => SpecBody::Data(d@),
            ChunkBody::Folder(v) => SpecBody::Folder(view_chunks(v@)),
        },
    }
}

pub open spec fn view_chunks(s: Seq<Chunk>) -> Seq<SpecChunk>
    decreases s,
{
    if s.len() == 0 {
        Seq::empty()
    } else {
        seq![view_chunk(s[0])] + view_chunks(s.subrange(1, s.len() as int))
    }
}

impl View for Chunk {
    type V = SpecChunk;

    open spec fn view(&self) -> SpecChunk {
        view_chunk(*self)
    }
}

impl View for Chunky {
    type V = SpecChunky;

    open spec fn view(&self) -> SpecChunky {
        SpecChunky {
            major: self.major,
            minor: self.minor,
            platform: self.platform,
            chunks: view_chunks(self.chunks@),
        }
    }
}

pub proof fn lemma_view_chunks_len(s: Seq<Chunk>)
    ensures
        view_chunks(s).len() == s.len(),
    decreases s.len(),
{
    if s.len() > 0 {
        lemma_view_chunks_len(s.subrange(1, s.len() as int));
    }
}

pub proof fn lemma_view_chunks_index(s: Seq<Chunk>, i: int)
    requires
        0 <= i < s.len(),
    ensures
        view_chunks(s).len() == s.len(),
        view_chunks(s)[i] == view_chunk(s[i]),
    decreases s.len(),
{
    lemma_view_chunks_len(s);
    if i > 0 {
        let t = s.subrange(1, s.len() as int);
        lemma_view_chunks_index(t, i - 1);
        assert(t[i - 1] == s[i]);
    }
}

pub proof fn lemma_view_chunks_push(s: Seq<Chunk>, c: Chunk)
    ensures
        view_chunks(s.push(c)) == view_chunks(s).push(view_chunk(c)),
    decreases s.len(),
{
    let t = s.push(c);
    if s.len() == 0 {
        assert(t.subrange(1, t.len() as int) =~= Seq::<Chunk>::empty());
        assert(view_chunks(Seq::<Chunk>::empty()) == Seq::<SpecChunk>::empty());
        assert(view_chunks(s) == Seq::<SpecChunk>::empty());
        assert(t[0] == c);
        assert(view_chunks(t) =~= seq![view_chunk(c)]);
    } else {
        let s1 = s.subrange(1, s.len() as int);
        assert(t.subrange(1, t.len() as int) =~= s1.push(c));
        lemma_view_chunks_push(s1, c);
        assert(view_chunks(t) =~= view_chunks(s).push(view_chunk(c)));
    }
}

pub proof fn lemma_view_chunks_pointwise(a: Seq<Chunk>, b: Seq<Chunk>)
    requires
        a.len() == b.len(),
        forall|j: int| 0 <= j < a.len() ==> view_chunk(#[trigger] a[j]) == view_chunk(b[j]),
    ensures
        view_chunks(a) == view_chunks(b),
    decreases a.len(),
{
    if a.len() > 0 {
        let a1 = a.subrange(1, a.len() as int);
        let b1 = b.subrange(1, b.len() as int);
        assert forall|j: int| 0 <= j < a1.len() implies view_chunk(#[trigger] a1[j]) == view_chunk(
            b1[j],
        ) by {
            assert(a1[j] == a[j + 1]);
            assert(b1[j] == b[j + 1]);
        }
        lemma_view_chunks_pointwise(a1, b1);
    }
}

impl Clone for Chunk {
    fn clone(&self) -> (res: Self)
        ensures
            res@ == self@,
        decreases self,
    {
        let body = match &self.body {
            ChunkBody::Data(d) => ChunkBody::Data(d.clone()),
            ChunkBody::Folder(v) => {
                let mut out: Vec<Chunk> = Vec::new();
                let mut i: usize = 0;
                while i < v.len()
                    invariant
                        i <= v.len(),
                        out@.len() == i,
                        self.body is Folder && self.body->Folder_0 == *v,
                        forall|j: int| 0 <= j < i ==> view_chunk(#[trigger] out@[j]) == view_chunk(v@[j]),
                    decreases v.len() - i,
                {
                    proof {
                        assert(decreases_to!(*self => self.body));
                        assert(decreases_to!(self.body => self.body->Folder_0));
                        assert(decreases_to!(*v => v@));
                        assert(decreases_to!(v@ => v@[i as int]));
                    }
                    out.push(v[i].clone());
                    i += 1;
                }
                proof {
                    lemma_view_chunks_pointwise(out@, v@);
                }
                ChunkBody::Folder(out)
            },
        };
        Chunk {
            kind: self.kind,
            name: self.name,
            version: self.version,
            path: self.path.clone(),
            body,
        }
    }
}

impl Clone for Chunky {
    fn clone(&self) -> (res: Self)
        ensures
            res@ == self@,
    {
        let mut out: Vec<Chunk> = Vec::new();
        let mut i: usize = 0;
        while i < self.chunks.len()
            invariant
                i <= self.chunks@.len(),
                out@.len() == i,
                forall|j: int|
                    0 <= j < i ==> view_chunk(#[trigger] out@[j]) == view_chunk(self.chunks@[j]),
            decreases self.chunks.len() - i,
        {
            out.push(self.chunks[i].clone());
            i += 1;
        }
        proof {
            lemma_view_chunks_pointwise(out@, self.chunks@);
        }
        Chunky { major: self.major, minor: self.minor, platform: self.platform, chunks: out }
    }
}

// ---------------------------------------------------------------------------
// Layout
// ---------------------------------------------------------------------------
/// `Relic Chunky\r\n\x1a\0`, the first sixteen bytes of every container.
pub open spec fn magic() -> Seq<u8> {
    seq![82u8, 101, 108, 105, 99, 32, 67, 104, 117, 110, 107, 121, 13, 10, 26, 0]
}

/// `DATA`.
pub open spec fn data_tag() -> Seq<u8> {
    seq![68u8, 65, 84, 65]
}

/// `FOLD`.
pub open spec fn folder_tag() -> Seq<u8> {
    seq![70u8, 79, 76, 68]
}

pub open spec fn kind_tag(k: ChunkKind) -> Seq<u8> {
    match k {
        ChunkKind::Data => data_tag(),
        ChunkKind::Folder => folder_tag(),
    }
}

/// The body bytes of a chunk: its data, or its children laid end to end.
pub open spec fn body_bytes(c: SpecChunk) -> Seq<u8>
    decreases c, 0nat,
{
    match c.body {
        SpecBody::Data(d) => d,
        SpecBody::Folder(children) => chunks_bytes(children),
    }
}

/// A chunk as written: header, path, body. Lengths are stored as `u32`.
pub open spec fn chunk_bytes(c: SpecChunk) -> Seq<u8>
    decreases c, 1nat,
{
    let body = body_bytes(c);
    kind_tag(c.kind) + c.name + bytes32(c.version as int) + bytes32(body.len() as int) + bytes32(
        c.path.len() as int,
    ) + c.path + body
}

pub open spec fn chunks_bytes(cs: Seq<SpecChunk>) -> Seq<u8>
    decreases cs, 2nat,
{
    if cs.len() == 0 {
        Seq::empty()
    } else {
        chunk_bytes(cs[0]) + chunks_bytes(cs.subrange(1, cs.len() as int))
    }
}

/// A whole container as written.
pub open spec fn chunky_bytes(c: SpecChunky) -> Seq<u8> {
    magic() + bytes16(c.major as int) + bytes16(c.minor as int) + bytes32(c.platform as int)
        + chunks_bytes(c.chunks)
}

/// The measure that parsing consumes: the bytes left from `pos`.
pub open spec fn left(b: Seq<u8>, pos: int) -> nat {
    if 0 <= pos <= b.len() {
        (b.len() - pos) as nat
    } else {
        0
    }
}

/// The chunk kind named by the four bytes at `pos`, if it is one.
pub open spec fn kind_at(b: Seq<u8>, pos: int) -> Option<ChunkKind> {
    if b.subrange(pos, pos + 4) == data_tag() {
        Some(ChunkKind::Data)
    } else if b.subrange(pos, pos + 4) == folder_tag() {
        Some(ChunkKind::Folder)
    } else {
        None
    }
}

/// The chunks read from `pos` while a whole header still fits before `limit`;
/// after each chunk reading resumes at the end of its declared body.
pub open spec fn parse_chunks(b: Seq<u8>, pos: int, limit: int) -> Result<
    Seq<SpecChunk>,
    ChunkyError,
>
    decreases left(b, pos),
{
    if pos + 20 > limit {
        Ok(Seq::empty())
    } else if pos < 0 || pos + 4 > b.len() {
        Err(ChunkyError::UnexpectedEof)
    } else if kind_at(b, pos) is None {
        Err(ChunkyError::UnknownChunkType { tag: le32(b, pos) as u32 })
    } else if pos + 20 > b.len() {
        Err(ChunkyError::UnexpectedEof)
    } else {
        let kind = kind_at(b, pos)->0;
        let length = le32(b, pos + 12);
        let path_len = le32(b, pos + 16);
        let ds = pos + 20 + path_len;
        if ds > b.len() {
            Err(ChunkyError::UnexpectedEof)
        } else {
            let body: Result<SpecBody, ChunkyError> = match kind {
                ChunkKind::Folder => match parse_chunks(b, ds, ds + length) {
                    Ok(children) => Ok(SpecBody::Folder(children)),
                    Err(e) => Err(e),
                },
                ChunkKind::Data => if ds + length > b.len() {
                    Err(ChunkyError::UnexpectedEof)
                } else {
                    Ok(SpecBody::Data(b.subrange(ds, ds + length)))
                },
            };
            match body {
                Err(e) => Err(e),
                Ok(body) => {
                    let c = SpecChunk {
                        kind,
                        name: b.subrange(pos + 4, pos + 8),
                        version: le32(b, pos + 8) as u32,
                        path: b.subrange(pos + 20, ds),
                        body,
                    };
                    match parse_chunks(b, ds + length, limit) {
                        Ok(rest) => Ok(seq![c] + rest),
                        Err(e) => Err(e),
                    }
                },
            }
        }
    }
}

/// A container read from bytes.
pub open spec fn parse_chunky(b: Seq<u8>) -> Result<SpecChunky, ChunkyError> {
    if b.len() < 16 {
        Err(ChunkyError::UnexpectedEof)
    } else if b.subrange(0, 16) != magic() {
        Err(ChunkyError::NotChunky)
    } else if b.len() < 24 {
        Err(ChunkyError::UnexpectedEof)
    } else {
        match parse_chunks(b, 24, b.len() as int) {
            Ok(chunks) => Ok(
                SpecChunky {
                    major: le16(b, 16) as u16,
                    minor: le16(b, 18) as u16,
                    platform: le32(b, 20) as u32,
                    chunks,
                },
            ),
            Err(e) => Err(e),
        }
    }
}

pub open spec fn view_chunks_result(r: Result<Vec<Chunk>, ChunkyError>) -> Result<
    Seq<SpecChunk>,
    ChunkyError,
> {
    match r {
        Ok(v) => Ok(view_chunks(v@)),
        Err(e) => Err(e),
    }
}

pub open spec fn view_chunky_result(r: Result<Chunky, ChunkyError>) -> Result<
    SpecChunky,
    ChunkyError,
> {
    match r {
        Ok(c) => Ok(c@),
        Err(e) => Err(e),
    }
}

/// `acc` followed by whatever `r` read, or `r`'s error.
pub open spec fn prepend(acc: Seq<SpecChunk>, r: Result<Seq<SpecChunk>, ChunkyError>) -> Result<
    Seq<SpecChunk>,
    ChunkyError,
> {
    match r {
        Ok(rest) => Ok(acc + rest),
        Err(e) => Err(e),
    }
}

// ---------------------------------------------------------------------------
// Reading
// ---------------------------------------------------------------------------
fn read_kind(b: &[u8], pos: usize) -> (r: Option<ChunkKind>)
    requires
        pos + 4 <= b@.len(),
    ensures
        r == kind_at(b@, pos as int),
{
    let (k0, k1, k2, k3) = (b[pos], b[pos + 1], b[pos + 2], b[pos + 3]);
    proof {
        assert(b@.subrange(pos as int, pos + 4) =~= seq![k0, k1, k2, k3]);
    }
    if k0 == 68 && k1 == 65 && k2 == 84 && k3 == 65 {
        Some(ChunkKind::Data)
    } else if k0 == 70 && k1 == 79 && k2 == 76 && k3 == 68 {
        Some(ChunkKind::Folder)
    } else {
        proof {
            assert(b@.subrange(pos as int, pos + 4) != data_tag() ==> true);
            if b@.subrange(pos as int, pos + 4) == data_tag() {
                assert(b@.subrange(pos as int, pos + 4)[0] == 68);
            }
            if b@.subrange(pos as int, pos + 4) == folder_tag() {
                assert(b@.subrange(pos as int, pos + 4)[0] == 70);
            }
        }
        None
    }
}

fn copy_range(b: &[u8], start: usize, end: usize) -> (r: Vec<u8>)
    requires
        start <= end <= b@.len(),
    ensures
        r@ == b@.subrange(start as int, end as int),
{
    let mut out: Vec<u8> = Vec::with_capacity(end - start);
    let mut i: usize = start;
    while i < end
        invariant
            start <= i <= end,
            end <= b@.len(),
            out@ == b@.subrange(start as int, i as int),
        decreases end - i,
    {
        out.push(b[i]);
        i += 1;
        assert(out@ =~= b@.subrange(start as int, i as int));
    }
    out
}

/// Reads the chunks starting at `pos` until a header no longer fits before
/// `limit`.
#[verifier::rlimit(100)]
fn read_chunks(b: &[u8], pos: u128, limit: u128) -> (r: Result<Vec<Chunk>, ChunkyError>)
    requires
        pos <= b@.len() + 0x1_0000_0000 + 0x1_0000_0000,
        limit <= b@.len() + 0x1_0000_0000 + 0x1_0000_0000,
    ensures
        view_chunks_result(r) == parse_chunks(b@, pos as int, limit as int),
    decreases left(b@, pos as int),
{
    let len: usize = b.len();
    let mut out: Vec<Chunk> = Vec::new();
    let mut cur: u128 = pos;
    
    proof {
        assert(view_chunks(out@) =~= Seq::<SpecChunk>::empty());
    }
    loop
        invariant
            len == b@.len(),
            cur <= b@.len() + 0x1_0000_0000 + 0x1_0000_0000,
            limit <= b@.len() + 0x1_0000_0000 + 0x1_0000_0000,
            left(b@, cur as int) <= left(b@, pos as int),
            parse_chunks(b@, pos as int, limit as int) == prepend(
                view_chunks(out@),
                parse_chunks(b@, cur as int, limit as int),
            ),
        decreases left(b@, cur as int),
    {
        if cur + 20 > limit {
            proof {
                assert(parse_chunks(b@, cur as int, limit as int) == Ok::<Seq<SpecChunk>, ChunkyError>(Seq::empty()));
                assert(view_chunks(out@) + Seq::<SpecChunk>::empty() =~= view_chunks(out@));
                assert(parse_chunks(b@, pos as int, limit as int) == Ok::<Seq<SpecChunk>, ChunkyError>(view_chunks(out@)));
            }
            return Ok(out);
        }
        if cur + 4 > len as u128 {
            return Err(ChunkyError::UnexpectedEof);
        }
        let p: usize = cur as usize;
        let kind = match read_kind(b, p) {
            Some(k) => k,
            None => {
                return Err(ChunkyError::UnknownChunkType { tag: read_u32(b, p).unwrap() });
            },
        };
        if cur + 20 > len as u128 {
            return Err(ChunkyError::UnexpectedEof);
        }
        let name: [u8; 4] = [b[p + 4], b[p + 5], b[p + 6], b[p + 7]];
        let version: u32 = read_u32(b, p + 8).unwrap();
        let length: u32 = read_u32(b, p + 12).unwrap();
        let path_len: u32 = read_u32(b, p + 16).unwrap();
        if path_len as u128 > len as u128 - cur - 20 {
            return Err(ChunkyError::UnexpectedEof);
        }
        let ds: usize = p + 20 + path_len as usize;
        let path: Vec<u8> = copy_range(b, p + 20, ds);
        let body = match kind {
            ChunkKind::Folder => {
                match read_chunks(b, ds as u128, ds as u128 + length as u128) {
                    Ok(children) => ChunkBody::Folder(children),
                    Err(e) => {
                        return Err(e);
                    },
                }
            },
            ChunkKind::Data => {
                if length as usize > len - ds {
                    return Err(ChunkyError::UnexpectedEof);
                }
                ChunkBody::Data(copy_range(b, ds, ds + length as usize))
            },
        };
        let chunk = Chunk { kind, name, version, path, body };
        proof {
            assert(name@ =~= b@.subrange(cur as int + 4, cur as int + 8));
            lemma_view_chunks_push(out@, chunk);
            assert(view_chunks(out@.push(chunk)) + parse_chunks(b@, ds + length, limit as int)->Ok_0
                =~= view_chunks(out@) + (seq![view_chunk(chunk)] + parse_chunks(b@, ds + length, limit as int)->Ok_0));
        }
        out.push(chunk);
        cur = ds as u128 + length as u128;
    }
}

impl Chunky {
    /// Reads a container from its bytes.
    pub fn read(bytes: &[u8]) -> (r: Result<Chunky, ChunkyError>)
        ensures
            view_chunky_result(r) == parse_chunky(bytes@),
    {
        if bytes.len() < 16 {
            return Err(ChunkyError::UnexpectedEof);
        }
        let mut i: usize = 0;
        let m: [u8; 16] = [82u8, 101, 108, 105, 99, 32, 67, 104, 117, 110, 107, 121, 13, 10, 26, 0];
        proof {
            assert(m@ =~= magic());
        }
        while i < 16
            invariant
                i <= 16,
                bytes@.len() >= 16,
                m@ == magic(),
                forall|j: int| 0 <= j < i ==> bytes@[j] == magic()[j],
            decreases 16 - i,
        {
            if bytes[i] != m[i] {
                proof {
                    assert(bytes@.subrange(0, 16)[i as int] != magic()[i as int]);
                }
                return Err(ChunkyError::NotChunky);
            }
            i += 1;
        }
        proof {
            assert(bytes@.subrange(0, 16) =~= magic());
        }
        if bytes.len() < 24 {
            return Err(ChunkyError::UnexpectedEof);
        }
        let major: u16 = read_u16(bytes, 16).unwrap();
        let minor: u16 = read_u16(bytes, 18).unwrap();
        let platform: u32 = read_u32(bytes, 20).unwrap();
        match read_chunks(bytes, 24, bytes.len() as u128) {
            Ok(chunks) => Ok(Chunky { major, minor, platform, chunks }),
            Err(e) => Err(e),
        }
    }
}

} // verus!

verus! {

// ---------------------------------------------------------------------------
// Writing
// ---------------------------------------------------------------------------
pub proof fn lemma_chunks_bytes_push(cs: Seq<SpecChunk>, c: SpecChunk)
    ensures
        chunks_bytes(cs.push(c)) == chunks_bytes(cs) + chunk_bytes(c),
    decreases cs.len(),
{
    let t = cs.push(c);
    if cs.len() == 0 {
        assert(t.subrange(1, t.len() as int) =~= Seq::<SpecChunk>::empty());
        assert(t[0] == c);
        assert(chunks_bytes(Seq::<SpecChunk>::empty()) == Seq::<u8>::empty());
        assert(chunks_bytes(t) =~= chunk_bytes(c));
        assert(chunks_bytes(cs) == Seq::<u8>::empty());
        assert(chunks_bytes(cs) + chunk_bytes(c) =~= chunk_bytes(c));
    } else {
        let r = cs.subrange(1, cs.len() as int);
        assert(t.subrange(1, t.len() as int) =~= r.push(c));
        lemma_chunks_bytes_push(r, c);
        assert(t[0] == cs[0]);
        assert(chunks_bytes(t) =~= chunks_bytes(cs) + chunk_bytes(c));
    }
}

fn write_chunk(c: &Chunk, out: &mut Vec<u8>)
    ensures
        final(out)@ == old(out)@ + chunk_bytes(c@),
    decreases c,
{
    let mut body: Vec<u8> = Vec::new();
    match &c.body {
        ChunkBody::Data(d) => {
            push_all(&mut body, d.as_slice());
            assert(body@ == body_bytes(c@));
        },
        ChunkBody::Folder(children) => {
            let mut i: usize = 0;
            proof {
                lemma_view_chunks_len(children@);
                assert(view_chunks(children@).subrange(0, 0) =~= Seq::<SpecChunk>::empty());
            }
            while i < children.len()
                invariant
                    i <= children@.len(),
                    view_chunks(children@).len() == children@.len(),
                    c.body is Folder && c.body->Folder_0 == *children,
                    body@ == chunks_bytes(view_chunks(children@).subrange(0, i as int)),
                decreases children.len() - i,
            {
                proof {
                    assert(decreases_to!(*c => c.body));
                    assert(decreases_to!(c.body => c.body->Folder_0));
                    assert(decreases_to!(*children => children@));
                    assert(decreases_to!(children@ => children@[i as int]));
                    lemma_view_chunks_index(children@, i as int);
                    lemma_chunks_bytes_push(
                        view_chunks(children@).subrange(0, i as int),
                        view_chunk(children@[i as int]),
                    );
                    assert(view_chunks(children@).subrange(0, i as int).push(
                        view_chunk(children@[i as int]),
                    ) =~= view_chunks(children@).subrange(0, i + 1));
                }
                write_chunk(&children[i], &mut body);
                i += 1;
            }
            proof {
                assert(view_chunks(children@).subrange(0, i as int) =~= view_chunks(children@));
            }
            assert(body@ == body_bytes(c@));
        },
    }
    let ghost start = out@;
    match c.kind {
        ChunkKind::Data => {
            out.push(68);
            out.push(65);
            out.push(84);
            out.push(65);
        },
        ChunkKind::Folder => {
            out.push(70);
            out.push(79);
            out.push(76);
            out.push(68);
        },
    }
    assert(out@ =~= start + kind_tag(c.kind));
    push_all(out, &c.name);
    push_u32(out, c.version);
    push_len32(out, body.len());
    push_len32(out, c.path.len());
    push_all(out, c.path.as_slice());
    push_all(out, body.as_slice());
    assert(out@ =~= start + chunk_bytes(c@));
}

impl Chunky {
    /// Appends the container's bytes: the file header, then every chunk.
    pub fn write(&self, out: &mut Vec<u8>)
        ensures
            final(out)@ == old(out)@ + chunky_bytes(self@),
    {
        let ghost start = out@;
        let m: [u8; 16] = [82u8, 101, 108, 105, 99, 32, 67, 104, 117, 110, 107, 121, 13, 10, 26, 0];
        proof {
            assert(m@ =~= magic());
        }
        push_all(out, &m);
        push_u16(out, self.major);
        push_u16(out, self.minor);
        push_u32(out, self.platform);
        let ghost head = out@;
        let mut i: usize = 0;
        proof {
            lemma_view_chunks_len(self.chunks@);
            assert(view_chunks(self.chunks@).subrange(0, 0) =~= Seq::<SpecChunk>::empty());
            assert(out@ =~= head + chunks_bytes(view_chunks(self.chunks@).subrange(0, 0)));
        }
        while i < self.chunks.len()
            invariant
                i <= self.chunks@.len(),
                view_chunks(self.chunks@).len() == self.chunks@.len(),
                out@ == head + chunks_bytes(view_chunks(self.chunks@).subrange(0, i as int)),
            decreases self.chunks.len() - i,
        {
            proof {
                lemma_view_chunks_index(self.chunks@, i as int);
                lemma_chunks_bytes_push(
                    view_chunks(self.chunks@).subrange(0, i as int),
                    view_chunk(self.chunks@[i as int]),
                );
                assert(view_chunks(self.chunks@).subrange(0, i as int).push(
                    view_chunk(self.chunks@[i as int]),
                ) =~= view_chunks(self.chunks@).subrange(0, i + 1));
            }
            write_chunk(&self.chunks[i], out);
            i += 1;
        }
        proof {
            assert(view_chunks(self.chunks@).subrange(0, i as int) =~= view_chunks(self.chunks@));
        }
        assert(out@ =~= start + chunky_bytes(self@));
    }
}

} // verus!

verus! {

// ---------------------------------------------------------------------------
// Reading back what was written
// ---------------------------------------------------------------------------
/// A chunk that reads back as itself: its kind agrees with its body, its name
/// is four bytes, and its path and body lengths fit the `u32` header fields.
pub open spec fn wf_chunk(c: SpecChunk) -> bool
    decreases c, 1nat,
{
    &&& c.name.len() == 4
    &&& c.path.len() < 0x1_0000_0000
    &&& body_bytes(c).len() < 0x1_0000_0000
    &&& match c.body {
        SpecBody::Data(_) => c.kind == ChunkKind::Data,
        SpecBody::Folder(children) => c.kind == ChunkKind::Folder && wf_chunks(children),
    }
}

pub open spec fn wf_chunks(cs: Seq<SpecChunk>) -> bool
    decreases cs, 2nat,
{
    cs.len() == 0 || (wf_chunk(cs[0]) && wf_chunks(cs.subrange(1, cs.len() as int)))
}

pub open spec fn wf_chunky(c: SpecChunky) -> bool {
    wf_chunks(c.chunks)
}

proof fn lemma_sub_of_sub(b: Seq<u8>, p: int, s: Seq<u8>, i: int, j: int)
    requires
        0 <= p,
        p + s.len() <= b.len(),
        b.subrange(p, p + s.len()) == s,
        0 <= i <= j <= s.len(),
    ensures
        b.subrange(p + i, p + j) == s.subrange(i, j),
{
    assert(b.subrange(p + i, p + j) =~= s.subrange(i, j)) by {
        assert forall|k: int| 0 <= k < j - i implies b.subrange(p + i, p + j)[k] == s.subrange(
            i,
            j,
        )[k] by {
            assert(b.subrange(p, p + s.len())[i + k] == s[i + k]);
        }
    }
}

proof fn lemma_tag_kind(b: Seq<u8>, pos: int, k: ChunkKind)
    requires
        0 <= pos,
        pos + 4 <= b.len(),
        b.subrange(pos, pos + 4) == kind_tag(k),
    ensures
        kind_at(b, pos) == Some(k),
{
    match k {
        ChunkKind::Data => {},
        ChunkKind::Folder => {
            if b.subrange(pos, pos + 4) == data_tag() {
                assert(data_tag()[0] != folder_tag()[0]);
            }
        },
    }
}

proof fn lemma_chunk_layout(b: Seq<u8>, pos: int, c: SpecChunk)
    requires
        wf_chunk(c),
        0 <= pos,
        pos + chunk_bytes(c).len() <= b.len(),
        b.subrange(pos, pos + chunk_bytes(c).len()) == chunk_bytes(c),
    ensures
        chunk_bytes(c).len() == 20 + c.path.len() + body_bytes(c).len(),
        kind_at(b, pos) == Some(c.kind),
        b.subrange(pos + 4, pos + 8) == c.name,
        le32(b, pos + 8) == c.version,
        le32(b, pos + 12) == body_bytes(c).len(),
        le32(b, pos + 16) == c.path.len(),
        b.subrange(pos + 20, pos + 20 + c.path.len()) == c.path,
        b.subrange(pos + 20 + c.path.len(), pos + 20 + c.path.len() + body_bytes(c).len())
            == body_bytes(c),
{
    let cb = chunk_bytes(c);
    let body = body_bytes(c);
    let plen = c.path.len() as int;
    let blen = body.len() as int;
    assert(cb == kind_tag(c.kind) + c.name + bytes32(c.version as int) + bytes32(blen) + bytes32(
        plen,
    ) + c.path + body);
    assert(cb.len() == 20 + plen + blen);
    lemma_sub_of_sub(b, pos, cb, 0, 4);
    assert(cb.subrange(0, 4) =~= kind_tag(c.kind));
    lemma_tag_kind(b, pos, c.kind);
    lemma_sub_of_sub(b, pos, cb, 4, 8);
    assert(cb.subrange(4, 8) =~= c.name);
    lemma_sub_of_sub(b, pos, cb, 8, 12);
    assert(cb.subrange(8, 12) =~= bytes32(c.version as int));
    crate::le::lemma_le32_bytes32(c.version as int, b, pos + 8);
    lemma_sub_of_sub(b, pos, cb, 12, 16);
    assert(cb.subrange(12, 16) =~= bytes32(blen));
    crate::le::lemma_le32_bytes32(blen, b, pos + 12);
    lemma_sub_of_sub(b, pos, cb, 16, 20);
    assert(cb.subrange(16, 20) =~= bytes32(plen));
    crate::le::lemma_le32_bytes32(plen, b, pos + 16);
    lemma_sub_of_sub(b, pos, cb, 20, 20 + plen);
    assert(cb.subrange(20, 20 + plen) =~= c.path);
    lemma_sub_of_sub(b, pos, cb, 20 + plen, 20 + plen + blen);
    assert(cb.subrange(20 + plen, 20 + plen + blen) =~= body);
}

/// One successful step of `parse_chunks`, given what its parts read.
proof fn lemma_parse_step(b: Seq<u8>, pos: int, limit: int, c: SpecChunk, rest: Seq<SpecChunk>)
    requires
        0 <= pos,
        pos + 20 <= limit,
        pos + 20 <= b.len(),
        kind_at(b, pos) == Some(c.kind),
        c.name == b.subrange(pos + 4, pos + 8),
        c.version == le32(b, pos + 8) as u32,
        pos + 20 + le32(b, pos + 16) <= b.len(),
        c.path == b.subrange(pos + 20, pos + 20 + le32(b, pos + 16)),
        ({
            let ds = pos + 20 + le32(b, pos + 16);
            let length = le32(b, pos + 12);
            &&& c.kind == ChunkKind::Folder ==> c.body is Folder && parse_chunks(b, ds, ds + length)
                == Ok::<Seq<SpecChunk>, ChunkyError>(c.body->Folder_0)
            &&& c.kind == ChunkKind::Data ==> c.body is Data && ds + length <= b.len()
                && c.body->Data_0 == b.subrange(ds, ds + length)
            &&& parse_chunks(b, ds + length, limit) == Ok::<Seq<SpecChunk>, ChunkyError>(rest)
        }),
    ensures
        parse_chunks(b, pos, limit) == Ok::<Seq<SpecChunk>, ChunkyError>(seq![c] + rest),
{
}

#[verifier::rlimit(100)]
proof fn lemma_parse_chunks_of_bytes(b: Seq<u8>, pos: int, cs: Seq<SpecChunk>)
    requires
        wf_chunks(cs),
        0 <= pos,
        pos + chunks_bytes(cs).len() <= b.len(),
        b.subrange(pos, pos + chunks_bytes(cs).len()) == chunks_bytes(cs),
    ensures
        parse_chunks(b, pos, pos + chunks_bytes(cs).len()) == Ok::<Seq<SpecChunk>, ChunkyError>(cs),
    decreases cs,
{
    let limit = pos + chunks_bytes(cs).len();
    if cs.len() == 0 {
        assert(parse_chunks(b, pos, limit) == Ok::<Seq<SpecChunk>, ChunkyError>(Seq::empty()));
        assert(cs =~= Seq::<SpecChunk>::empty());
    } else {
        let c = cs[0];
        let rest = cs.subrange(1, cs.len() as int);
        let cb = chunk_bytes(c);
        let all = chunks_bytes(cs);
        assert(all == cb + chunks_bytes(rest));
        assert(wf_chunk(c) && wf_chunks(rest));
        assert(b.subrange(pos, pos + cb.len()) == cb) by {
            lemma_sub_of_sub(b, pos, all, 0, cb.len() as int);
            assert(all.subrange(0, cb.len() as int) =~= cb);
        }
        assert(b.subrange(pos + cb.len(), limit) == chunks_bytes(rest)) by {
            lemma_sub_of_sub(b, pos, all, cb.len() as int, all.len() as int);
            assert(all.subrange(cb.len() as int, all.len() as int) =~= chunks_bytes(rest));
        }
        lemma_chunk_layout(b, pos, c);
        let plen = c.path.len() as int;
        let blen = body_bytes(c).len() as int;
        let ds = pos + 20 + plen;
        assert(pos + cb.len() == ds + blen);
        match c.body {
            SpecBody::Folder(children) => {
                assert(decreases_to!(cs => cs[0]));
                assert(decreases_to!(c => c.body));
                assert(decreases_to!(c.body => children));
                assert(body_bytes(c) == chunks_bytes(children));
                lemma_parse_chunks_of_bytes(b, ds, children);
            },
            SpecBody::Data(d) => {
                assert(body_bytes(c) == d);
            },
        }
        lemma_parse_chunks_of_bytes(b, ds + blen, rest);
        lemma_parse_step(b, pos, limit, c, rest);
        assert(seq![c] + rest =~= cs);
    }
}

/// Writing a well-formed container and reading the bytes back gives the same
/// container.
pub proof fn law_read_after_write(c: SpecChunky)
    requires
        wf_chunky(c),
    ensures
        parse_chunky(chunky_bytes(c)) == Ok::<SpecChunky, ChunkyError>(c),
{
    let b = chunky_bytes(c);
    let body = chunks_bytes(c.chunks);
    let head = magic() + bytes16(c.major as int) + bytes16(c.minor as int) + bytes32(
        c.platform as int,
    );
    assert(b == head + body);
    assert(b.subrange(0, 16) =~= magic());
    assert(b.subrange(16, 18) =~= bytes16(c.major as int));
    crate::le::lemma_le16_bytes16(c.major as int, b, 16);
    assert(b.subrange(18, 20) =~= bytes16(c.minor as int));
    crate::le::lemma_le16_bytes16(c.minor as int, b, 18);
    assert(b.subrange(20, 24) =~= bytes32(c.platform as int));
    crate::le::lemma_le32_bytes32(c.platform as int, b, 20);
    assert(b.subrange(24, 24 + body.len() as int) =~= body);
    lemma_parse_chunks_of_bytes(b, 24, c.chunks);
}

} // verus!

verus! {

// ---------------------------------------------------------------------------
// Access
// ---------------------------------------------------------------------------
impl Chunk {
    /// The four name bytes as text.
    pub fn name_str(&self) -> (s: String)
        ensures
            s@ == crate::text::utf8_lossy(self.name@),
    {
        crate::text::lossy_string(&self.name)
    }

    /// The body bytes of a data chunk.
    pub fn data(&self) -> (r: Option<&[u8]>)
        ensures
            r is Some <==> self.body is Data,
            r matches Some(d) ==> d@ == self.body->Data_0@,
    {
        match &self.body {
            ChunkBody::Data(bytes) => Some(bytes.as_slice()),
            ChunkBody::Folder(_) => None,
        }
    }

    /// The children of a folder chunk.
    pub fn children(&self) -> (r: Option<&[Chunk]>)
        ensures
            r is Some <==> self.body is Folder,
            r matches Some(c) ==> c@ == self.body->Folder_0@,
    {
        match &self.body {
            ChunkBody::Folder(children) => Some(children.as_slice()),
            ChunkBody::Data(_) => None,
        }
    }
}

} // verus!
