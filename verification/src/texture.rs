//! Compiling a PNG into a Relic `.rrtex` texture.
//!
//! The container is `TSET → DATA + TXTR(name) → DXTC → TMAN + TDAT`. The
//! pixels are one BC7 mip behind a 16-byte surface descriptor, cut into
//! 64 KB segments that are each zlib-compressed and concatenated in `TDAT`;
//! `TMAN` carries the dimensions and a `[raw<<8][compressed<<8]` table.
use vstd::prelude::*;

use vstd::string::StringSliceAdditionalSpecFns;

use crate::container::{
    chunky_bytes, view_chunk, view_chunks, Chunk, ChunkBody, ChunkKind, Chunky, SpecBody, SpecChunk,
    SpecChunky,
};
use crate::le::{bytes32, push_all, push_u32};

verus! {

/// BC7 pixel data is stored in 64 KB segments.
pub const SEGMENT_SIZE: usize = 65536;

/// `TMAN` and `TDAT` tag the format with this code (BC7).
pub const FORMAT_BC7: u32 = 6;

/// Why a texture could not be compiled.
#[derive(Debug, Clone, Copy, PartialEq, Eq)]
pub enum TextureError {
    /// The PNG could not be decoded.
    Png,
    /// Only 8-bit samples are supported; the bit depth found.
    UnsupportedBitDepth(u8),
    /// Palette images (after expansion) and other layouts are not supported.
    UnsupportedColorType,
    /// The decoded frame holds fewer samples than its size needs.
    ShortFrame,
    /// Width and height must be multiples of 4.
    NotBlockAligned { width: u32, height: u32 },
    /// The surface has more texels than a `u32` counts.
    TooLarge,
    /// A segment could not be compressed.
    Compression,
}

// ---------------------------------------------------------------------------
// The container
// ---------------------------------------------------------------------------
pub open spec fn data_spec(name: Seq<u8>, version: u32, body: Seq<u8>) -> SpecChunk {
    SpecChunk { kind: ChunkKind::Data, name, version, path: Seq::empty(), body: SpecBody::Data(body) }
}

pub open spec fn folder_spec(name: Seq<u8>, version: u32, path: Seq<u8>, children: Seq<SpecChunk>) -> SpecChunk {
    SpecChunk { kind: ChunkKind::Folder, name, version, path, body: SpecBody::Folder(children) }
}

fn data(name: &[u8; 4], version: u32, body: Vec<u8>) -> (c: Chunk)
    ensures
        c@ == data_spec(name@, version, body@),
{
    Chunk { kind: ChunkKind::Data, name: *name, version, path: Vec::new(), body: ChunkBody::Data(body) }
}

fn folder(name: &[u8; 4], version: u32, path: Vec<u8>, children: Vec<Chunk>) -> (c: Chunk)
    ensures
        c@ == folder_spec(name@, version, path@, view_chunks(children@)),
{
    Chunk { kind: ChunkKind::Folder, name: *name, version, path, body: ChunkBody::Folder(children) }
}

/// The segment table of `TMAN`: raw and compressed sizes, each shifted left
/// by 8 (in 32 bits).
pub open spec fn segment_table(segs: Seq<(nat, Seq<u8>)>) -> Seq<u8>
    decreases segs.len(),
{
    if segs.len() == 0 {
        Seq::empty()
    } else {
        segment_table(segs.drop_last()) + bytes32(((segs.last().0 * 256) % 0x1_0000_0000) as int)
            + bytes32(((segs.last().1.len() * 256) % 0x1_0000_0000) as int)
    }
}

/// The `TMAN` body: format, width, height, one mip, the BC7 2D descriptor
/// constants, the 256x256 segment tile, the padded surface size over 256,
/// the segment table and a trailing zero byte.
pub open spec fn tman_bytes(width: u32, height: u32, segs: Seq<(nat, Seq<u8>)>) -> Seq<u8> {
    bytes32(6) + bytes32(width as int) + bytes32(height as int) + bytes32(1) + bytes32(2) + bytes32(
        28,
    ) + bytes32(1) + bytes32(2) + bytes32(256) + bytes32(256) + bytes32(
        ((segs.len() * 256) % 0x1_0000_0000) as int,
    ) + segment_table(segs) + seq![0u8]
}

pub open spec fn concat_segments(segs: Seq<(nat, Seq<u8>)>) -> Seq<u8>
    decreases segs.len(),
{
    if segs.len() == 0 {
        Seq::empty()
    } else {
        concat_segments(segs.drop_last()) + segs.last().1
    }
}

/// The `TDAT` body: the format code, then the compressed segments.
pub open spec fn tdat_bytes(segs: Seq<(nat, Seq<u8>)>) -> Seq<u8> {
    bytes32(6) + concat_segments(segs)
}

/// The `TSET` folder of a texture named `name`.
pub open spec fn tset_spec(name: Seq<u8>, tman: Seq<u8>, tdat: Seq<u8>) -> SpecChunk {
    let dxtc = folder_spec(
        seq![0x44u8, 0x58, 0x54, 0x43],
        6,
        Seq::empty(),
        seq![data_spec(seq![0x54u8, 0x4d, 0x41, 0x4e], 2, tman), data_spec(seq![0x54u8, 0x44, 0x41, 0x54], 1, tdat)],
    );
    let txtr = folder_spec(seq![0x54u8, 0x58, 0x54, 0x52], 2, name.push(0u8), seq![dxtc]);
    folder_spec(
        seq![0x54u8, 0x53, 0x45, 0x54],
        1,
        Seq::empty(),
        seq![data_spec(seq![0x44u8, 0x41, 0x54, 0x41], 4, Seq::empty()), txtr],
    )
}

pub open spec fn view_segments(v: Seq<(usize, Vec<u8>)>) -> Seq<(nat, Seq<u8>)> {
    v.map_values(|s: (usize, Vec<u8>)| (s.0 as nat, s.1@))
}

fn put(t: &mut Vec<u8>, v: u32)
    ensures
        final(t)@ == old(t)@ + bytes32(v as int),
{
    push_u32(t, v);
}

fn shifted(n: usize) -> (r: u32)
    ensures
        r == (n * 256) % 0x1_0000_0000,
{
    let low: u32 = ((n as u64) % 0x1_0000_0000u64) as u32;
    let r: u32 = low.wrapping_mul(256);
    let ghost m: int = n as int;
    assert(r == (m * 256) % 0x1_0000_0000) by (nonlinear_arith)
        requires
            low == m % 0x1_0000_0000,
            r == (low * 256) % 0x1_0000_0000,
    ;
    r
}

/// Builds the `TMAN` body.
fn build_tman(width: u32, height: u32, segments: &[(usize, Vec<u8>)]) -> (t: Vec<u8>)
    ensures
        t@ == tman_bytes(width, height, view_segments(segments@)),
{
    let mut t: Vec<u8> = Vec::new();
    put(&mut t, FORMAT_BC7);
    put(&mut t, width);
    put(&mut t, height);
    put(&mut t, 1);
    put(&mut t, 2);
    put(&mut t, 28);
    put(&mut t, 1);
    put(&mut t, 2);
    put(&mut t, 256);
    put(&mut t, 256);
    put(&mut t, shifted(segments.len()));
    let ghost head = t@;
    let ghost segs = view_segments(segments@);
    let mut i: usize = 0;
    proof {
        assert(segs.subrange(0, 0) =~= Seq::<(nat, Seq<u8>)>::empty());
        assert(t@ =~= head + segment_table(segs.subrange(0, 0)));
    }
    while i < segments.len()
        invariant
            i <= segments@.len(),
            segs == view_segments(segments@),
            t@ == head + segment_table(segs.subrange(0, i as int)),
        decreases segments.len() - i,
    {
        put(&mut t, shifted(segments[i].0));
        put(&mut t, shifted(segments[i].1.len()));
        proof {
            let s = segs.subrange(0, i + 1);
            assert(s.drop_last() =~= segs.subrange(0, i as int));
            assert(t@ =~= head + segment_table(s));
        }
        i += 1;
    }
    t.push(0);
    proof {
        assert(segs.subrange(0, i as int) =~= segs);
        assert(t@ =~= tman_bytes(width, height, segs));
    }
    t
}

/// Builds the `TDAT` body.
fn build_tdat(segments: &[(usize, Vec<u8>)]) -> (d: Vec<u8>)
    ensures
        d@ == tdat_bytes(view_segments(segments@)),
{
    let mut d: Vec<u8> = Vec::new();
    push_u32(&mut d, FORMAT_BC7);
    let ghost head = d@;
    let ghost segs = view_segments(segments@);
    let mut i: usize = 0;
    proof {
        assert(segs.subrange(0, 0) =~= Seq::<(nat, Seq<u8>)>::empty());
        assert(d@ =~= head + concat_segments(segs.subrange(0, 0)));
    }
    while i < segments.len()
        invariant
            i <= segments@.len(),
            segs == view_segments(segments@),
            d@ == head + concat_segments(segs.subrange(0, i as int)),
        decreases segments.len() - i,
    {
        push_all(&mut d, segments[i].1.as_slice());
        proof {
            let s = segs.subrange(0, i + 1);
            assert(s.drop_last() =~= segs.subrange(0, i as int));
            assert(d@ =~= head + concat_segments(s));
        }
        i += 1;
    }
    proof {
        assert(segs.subrange(0, i as int) =~= segs);
    }
    d
}

/// Builds the `TSET` folder of a texture named `name`.
fn build_tset(name: &str, tman: Vec<u8>, tdat: Vec<u8>) -> (c: Chunk)
    ensures
        c@ == tset_spec(name.spec_bytes(), tman@, tdat@),
{
    let tman_chunk = data(&[0x54, 0x4d, 0x41, 0x4e], 2, tman);
    let tdat_chunk = data(&[0x54, 0x44, 0x41, 0x54], 1, tdat);
    let dxtc_children: Vec<Chunk> = vec![tman_chunk, tdat_chunk];
    proof {
        assert(view_chunks(dxtc_children@) =~= seq![view_chunk(tman_chunk), view_chunk(tdat_chunk)])
            by {
            reveal_with_fuel(view_chunks, 3);
        }
    }
    let dxtc = folder(&[0x44, 0x58, 0x54, 0x43], 6, Vec::new(), dxtc_children);
    let mut txtr_path: Vec<u8> = vstd::slice::slice_to_vec(name.as_bytes());
    txtr_path.push(0);
    let txtr_children: Vec<Chunk> = vec![dxtc];
    proof {
        assert(view_chunks(txtr_children@) =~= seq![view_chunk(dxtc)]) by {
            reveal_with_fuel(view_chunks, 2);
        }
    }
    let txtr = folder(&[0x54, 0x58, 0x54, 0x52], 2, txtr_path, txtr_children);
    let info = data(&[0x44, 0x41, 0x54, 0x41], 4, Vec::new());
    let tset_children: Vec<Chunk> = vec![info, txtr];
    proof {
        assert(view_chunks(tset_children@) =~= seq![view_chunk(info), view_chunk(txtr)]) by {
            reveal_with_fuel(view_chunks, 3);
        }
    }
    let c = folder(&[0x54, 0x53, 0x45, 0x54], 1, Vec::new(), tset_children);
    proof {
        assert(c@ =~= tset_spec(name.spec_bytes(), tman@, tdat@));
    }
    c
}

} // verus!

verus! {

// ---------------------------------------------------------------------------
// Outside work: PNG decoding, BC7 encoding, zlib
// ---------------------------------------------------------------------------
/// What the `png` crate decodes from `bytes` with `Transformations::EXPAND`:
/// the first frame's samples, its width and height, its colour type code
/// (0 grey, 2 RGB, 3 indexed, 4 grey and alpha, 6 RGBA) and its bit depth;
/// `None` when decoding fails.
pub uninterp spec fn png_decoded(bytes: Seq<u8>) -> Option<(Seq<u8>, u32, u32, u8, u8)>;

/// What a `flate2` zlib encoder at `Compression::best()` makes of `raw`:
/// the stream it writes, or `None` where it reports an error.
pub uninterp spec fn zlib_best(raw: Seq<u8>) -> Option<Seq<u8>>;


/// Decodes the first frame of a PNG with the `png` crate (`Decoder::new`,
/// `set_transformations(EXPAND)`, `read_info`, `next_frame`), keeping the
/// samples the frame fills.
#[verifier::external_body]
fn decode_png_frame(bytes: &[u8]) -> (r: Option<(Vec<u8>, u32, u32, u8, u8)>)
    ensures
        match r {
            Some((s, w, h, c, d)) => png_decoded(bytes@) == Some((s@, w, h, c, d)),
            None => png_decoded(bytes@) is None,
        },
{
    let mut decoder = png::Decoder::new(bytes);
    decoder.set_transformations(png::Transformations::EXPAND);
    let mut reader = match decoder.read_info() { Ok(r) => r, Err(_) => return None };
    let mut buf = vec![0u8; reader.output_buffer_size()];
    let info = match reader.next_frame(&mut buf) { Ok(i) => i, Err(_) => return None };
    buf.truncate(info.buffer_size());
    Some((buf, info.width, info.height, info.color_type as u8, info.bit_depth as u8))
}

/// Compresses `raw` into a fresh `Vec` with `flate2::write::ZlibEncoder` at
/// `Compression::best()` (`write_all`, then `finish`); `None` if either
/// reports an error.
#[verifier::external_body]
fn zlib_compress(raw: &[u8]) -> (r: Option<Vec<u8>>)
    ensures
        match r {
            Some(v) => zlib_best(raw@) == Some(v@),
            None => zlib_best(raw@) is None,
        },
{
    let mut encoder = flate2::write::ZlibEncoder::new(Vec::new(), flate2::Compression::best());
    match std::io::Write::write_all(&mut encoder, raw) {
        Ok(()) => encoder.finish().ok(),
        Err(_) => None,
    }
}

/// Encodes an RGBA surface of rows `stride` bytes apart into BC7 blocks
/// with `intel_tex_2::bc7::compress_blocks` at `opaque_basic_settings`.
/// The output holds one 16-byte block per 4x4 tile (`calc_output_size`).
/// Which bytes the blocks hold is not stated: the prebuilt kernel picks its
/// code by the CPU it runs on. The surface must fill the rows it declares
/// and its sizes must fit the kernel's `i32` fields.
#[verifier::external_body]
fn bc7_encode(rgba: &[u8], width: u32, height: u32, stride: u32) -> (r: Vec<u8>)
    requires
        stride == 4 * width,
        rgba@.len() == 4 * width * height,
        width % 4 == 0,
        height % 4 == 0,
        width * height + 15 <= u32::MAX,
        stride <= i32::MAX,
        height <= i32::MAX,
    ensures
        r@.len() == width * height,
{
    let surface = intel_tex_2::RgbaSurface { width, height, stride, data: rgba };
    intel_tex_2::bc7::compress_blocks(&intel_tex_2::bc7::opaque_basic_settings(), &surface)
}

} // verus!

verus! {

// ---------------------------------------------------------------------------
// Pixels
// ---------------------------------------------------------------------------
/// Samples per pixel of a supported colour type.
pub open spec fn channels(color: u8) -> int {
    if color == 6 {
        4
    } else if color == 2 {
        3
    } else if color == 4 {
        2
    } else {
        1
    }
}

pub open spec fn supported_color(color: u8) -> bool {
    color == 6 || color == 2 || color == 4 || color == 0
}

/// Byte `k` of the RGBA expansion of `s`: grey is copied to red, green and
/// blue, and a missing alpha is opaque.
pub open spec fn rgba_byte(s: Seq<u8>, color: u8, k: int) -> u8 {
    let i = k / 4;
    let c = k % 4;
    if color == 6 {
        s[k]
    } else if color == 2 {
        if c < 3 {
            s[3 * i + c]
        } else {
            255
        }
    } else if color == 4 {
        if c < 3 {
            s[2 * i]
        } else {
            s[2 * i + 1]
        }
    } else if c < 3 {
        s[i]
    } else {
        255
    }
}

pub open spec fn rgba_of(s: Seq<u8>, color: u8, pixels: nat) -> Seq<u8> {
    Seq::new(4 * pixels, |k: int| rgba_byte(s, color, k))
}

fn expand_rgba(s: &[u8], color: u8, pixels: usize) -> (r: Vec<u8>)
    requires
        supported_color(color),
        s@.len() >= channels(color) * pixels,
        4 * pixels <= usize::MAX,
    ensures
        r@ == rgba_of(s@, color, pixels as nat),
{
    let mut out: Vec<u8> = Vec::new();
    let mut i: usize = 0;
    while i < pixels
        invariant
            i <= pixels,
            supported_color(color),
            s@.len() >= channels(color) * pixels,
            4 * pixels <= usize::MAX,
            out@ == Seq::new(4 * i as nat, |k: int| rgba_byte(s@, color, k)),
        decreases pixels - i,
    {
        proof {
            assert(channels(color) * i + channels(color) <= channels(color) * pixels) by (nonlinear_arith)
                requires
                    i < pixels,
                    channels(color) >= 1,
            ;
        }
        let (r, g, b, a): (u8, u8, u8, u8) = if color == 6 {
            (s[4 * i], s[4 * i + 1], s[4 * i + 2], s[4 * i + 3])
        } else if color == 2 {
            (s[3 * i], s[3 * i + 1], s[3 * i + 2], 255)
        } else if color == 4 {
            (s[2 * i], s[2 * i], s[2 * i], s[2 * i + 1])
        } else {
            (s[i], s[i], s[i], 255)
        };
        let ghost before = out@;
        out.push(r);
        out.push(g);
        out.push(b);
        out.push(a);
        proof {
            let ii = i as int;
            assert forall|k: int| 0 <= k < 4 * ii + 4 implies #[trigger] out@[k] == rgba_byte(
                s@,
                color,
                k,
            ) by {
                if k >= 4 * ii {
                    assert(k / 4 == ii && k % 4 == k - 4 * ii) by (nonlinear_arith)
                        requires
                            4 * ii <= k < 4 * ii + 4,
                    ;
                }
            }
            assert(out@ =~= Seq::new(4 * (i + 1) as nat, |k: int| rgba_byte(s@, color, k)));
        }
        i += 1;
    }
    out
}

// ---------------------------------------------------------------------------
// Segments
// ---------------------------------------------------------------------------
/// The surface descriptor and the BC7 blocks.
pub open spec fn pixel_bytes(width: u32, height: u32, blocks: Seq<u8>) -> Seq<u8> {
    bytes32(0) + bytes32(width as int) + bytes32(height as int) + bytes32(
        (blocks.len() % 0x1_0000_0000) as int,
    ) + blocks
}

/// `segs` in front of the segments `rest`, if there are any.
pub open spec fn after_segments(segs: Seq<(nat, Seq<u8>)>, rest: Option<Seq<(nat, Seq<u8>)>>) -> Option<
    Seq<(nat, Seq<u8>)>,
> {
    match rest {
        Some(r) => Some(segs + r),
        None => None,
    }
}

/// The segments of `p` from `start`: 64 KB slices, each with its length
/// and its zlib stream; `None` if a slice cannot be compressed.
pub open spec fn segments_from(p: Seq<u8>, start: int) -> Option<Seq<(nat, Seq<u8>)>>
    decreases p.len() - start,
{
    if start < 0 || start >= p.len() {
        Some(Seq::empty())
    } else {
        let end = if p.len() - start > 65536 {
            start + 65536
        } else {
            p.len() as int
        };
        match zlib_best(p.subrange(start, end)) {
            None => None,
            Some(z) => after_segments(seq![((end - start) as nat, z)], segments_from(p, end)),
        }
    }
}

/// The file of a texture named `name` whose BC7 blocks are `blocks`, or
/// `Compression` where a segment cannot be compressed.
pub open spec fn texture_file(name: Seq<u8>, width: u32, height: u32, blocks: Seq<u8>) -> Result<
    Seq<u8>,
    TextureError,
> {
    match segments_from(pixel_bytes(width, height, blocks), 0) {
        None => Err(TextureError::Compression),
        Some(segs) => Ok(
            chunky_bytes(
                SpecChunky {
                    major: 4,
                    minor: 0,
                    platform: 1,
                    chunks: seq![tset_spec(name, tman_bytes(width, height, segs), tdat_bytes(segs))],
                },
            ),
        ),
    }
}

/// Assembles the texture file around already encoded BC7 blocks: the
/// surface descriptor, the 64 KB zlib segments, `TMAN`, `TDAT` and the
/// container. Fails only if a segment cannot be compressed.
pub fn texture_from_blocks(name: &str, width: u32, height: u32, blocks: &[u8]) -> (r: Result<
    Vec<u8>,
    TextureError,
>)
    ensures
        match texture_file(name.spec_bytes(), width, height, blocks@) {
            Ok(b) => r matches Ok(out) && out@ == b,
            Err(e) => r == Err::<Vec<u8>, TextureError>(e),
        },
{
    let mut pixels: Vec<u8> = Vec::new();
    push_u32(&mut pixels, 0);
    push_u32(&mut pixels, width);
    push_u32(&mut pixels, height);
    crate::le::push_len32(&mut pixels, blocks.len());
    push_all(&mut pixels, blocks);
    let ghost p = pixels@;
    proof {
        assert(p =~= pixel_bytes(width, height, blocks@)) by {
            crate::le::lemma_bytes32_low(blocks@.len() as int);
        }
    }
    let mut segments: Vec<(usize, Vec<u8>)> = Vec::new();
    let mut start: usize = 0;
    proof {
        assert(view_segments(segments@) =~= Seq::<(nat, Seq<u8>)>::empty());
        match segments_from(p, 0) {
            Some(r) => {
                assert(Seq::<(nat, Seq<u8>)>::empty() + r =~= r);
            },
            None => {},
        }
    }
    while start < pixels.len()
        invariant
            p == pixels@,
            p == pixel_bytes(width, height, blocks@),
            start <= p.len(),
            after_segments(view_segments(segments@), segments_from(p, start as int)) == segments_from(p, 0),
        decreases p.len() - start,
    {
        let end: usize = if pixels.len() - start > SEGMENT_SIZE {
            start + SEGMENT_SIZE
        } else {
            pixels.len()
        };
        let raw: &[u8] = vstd::slice::slice_subrange(pixels.as_slice(), start, end);
        let compressed: Vec<u8> = match zlib_compress(raw) {
            Some(c) => c,
            None => {
                proof {
                    assert(raw@ == p.subrange(start as int, end as int));
                    assert(segments_from(p, start as int) is None);
                    assert(segments_from(p, 0) is None);
                }
                return Err(TextureError::Compression);
            },
        };
        let ghost before = view_segments(segments@);
        let seg = (end - start, compressed);
        segments.push(seg);
        proof {
            assert(raw@ == p.subrange(start as int, end as int));
            assert(view_segments(segments@) =~= before.push(((end - start) as nat, compressed@)));
            let item = seq![((end - start) as nat, compressed@)];
            assert(segments_from(p, start as int) == after_segments(item, segments_from(p, end as int)));
            match segments_from(p, end as int) {
                Some(rest) => {
                    assert(before.push(((end - start) as nat, compressed@)) + rest =~= before + (item + rest));
                },
                None => {},
            }
        }
        start = end;
    }
    proof {
        assert(view_segments(segments@) + Seq::<(nat, Seq<u8>)>::empty() =~= view_segments(segments@));
    }
    let tman: Vec<u8> = build_tman(width, height, segments.as_slice());
    let tdat: Vec<u8> = build_tdat(segments.as_slice());
    let tset: Chunk = build_tset(name, tman, tdat);
    let chunks: Vec<Chunk> = vec![tset];
    proof {
        assert(view_chunks(chunks@) =~= seq![view_chunk(tset)]) by {
            reveal_with_fuel(view_chunks, 2);
        }
    }
    let chunky = Chunky { major: 4, minor: 0, platform: 1, chunks };
    let mut out: Vec<u8> = Vec::new();
    chunky.write(&mut out);
    proof {
        assert(out@ =~= chunky_bytes(chunky@));
    }
    Ok(out)
}

} // verus!

verus! {

pub open spec fn decoded_width(png: Seq<u8>) -> u32 {
    png_decoded(png)->Some_0.1
}

pub open spec fn decoded_height(png: Seq<u8>) -> u32 {
    png_decoded(png)->Some_0.2
}

/// When compiling a PNG is refused, and why; `None` when it goes ahead.
pub open spec fn texture_refusal(png: Seq<u8>) -> Option<TextureError> {
    match png_decoded(png) {
        None => Some(TextureError::Png),
        Some((s, w, h, color, depth)) => if depth != 8 {
            Some(TextureError::UnsupportedBitDepth(depth))
        } else if !supported_color(color) {
            Some(TextureError::UnsupportedColorType)
        } else if w * h + 15 > u32::MAX || 4 * w * h > usize::MAX || 4 * w > i32::MAX || h > i32::MAX {
            Some(TextureError::TooLarge)
        } else if s.len() < channels(color) * w * h {
            Some(TextureError::ShortFrame)
        } else if w % 4 != 0 || h % 4 != 0 {
            Some(TextureError::NotBlockAligned { width: w, height: h })
        } else {
            None
        },
    }
}

/// `r` is what `texture_from_blocks` gives for these blocks.
pub open spec fn texture_result_is(r: Result<Vec<u8>, TextureError>, name: Seq<u8>, width: u32, height: u32, blocks: Seq<u8>) -> bool {
    match texture_file(name, width, height, blocks) {
        Ok(b) => r matches Ok(out) && out@ == b,
        Err(e) => r == Err::<Vec<u8>, TextureError>(e),
    }
}

/// Compiles PNG bytes into a `.rrtex` texture named `name`: the frame is
/// expanded to RGBA, encoded to BC7 blocks (one 16-byte block per 4x4 tile)
/// and assembled by `texture_from_blocks`.
#[verifier::rlimit(60)]
pub fn compile_texture(png_bytes: &[u8], name: &str) -> (r: Result<Vec<u8>, TextureError>)
    ensures
        match texture_refusal(png_bytes@) {
            Some(e) => r == Err::<Vec<u8>, TextureError>(e),
            None => exists|blocks: Seq<u8>|
                blocks.len() == decoded_width(png_bytes@) * decoded_height(png_bytes@) && #[trigger] texture_result_is(
                    r,
                    name.spec_bytes(),
                    decoded_width(png_bytes@),
                    decoded_height(png_bytes@),
                    blocks,
                ),
        },
{
    let (samples, width, height, color, depth) = match decode_png_frame(png_bytes) {
        Some(f) => f,
        None => {
            return Err(TextureError::Png);
        },
    };
    if depth != 8 {
        return Err(TextureError::UnsupportedBitDepth(depth));
    }
    if !(color == 6 || color == 2 || color == 4 || color == 0) {
        return Err(TextureError::UnsupportedColorType);
    }
    assert((width as int) * (height as int) <= 0xFFFF_FFFF * 0xFFFF_FFFF) by (nonlinear_arith)
        requires
            width <= 0xFFFF_FFFF,
            height <= 0xFFFF_FFFF,
    ;
    let area: u64 = (width as u64) * (height as u64);
    proof {
        let a: int = area as int;
        let m: int = usize::MAX as int;
        assert((a > m / 4) == (4 * a > m)) by (nonlinear_arith)
            requires
                m > 0,
                a >= 0,
        ;
        assert(4 * width * height == 4 * a) by (nonlinear_arith)
            requires
                a == (width as int) * (height as int),
        ;
    }
    if area + 15 > u32::MAX as u64 || area > (usize::MAX / 4) as u64 || width > 0x1FFF_FFFF || height > 0x7FFF_FFFF {
        return Err(TextureError::TooLarge);
    }
    let pixels: usize = area as usize;
    let per: usize = if color == 6 {
        4
    } else if color == 2 {
        3
    } else if color == 4 {
        2
    } else {
        1
    };
    if samples.len() / per < pixels {
        proof {
            let sl: int = samples@.len() as int;
            assert(sl < (per as int) * pixels) by (nonlinear_arith)
                requires
                    sl / (per as int) < pixels,
                    per >= 1,
                    sl >= 0,
            ;
            assert((per as int) * pixels == channels(color) * width * height) by (nonlinear_arith)
                requires
                    per as int == channels(color),
                    pixels == (width as int) * (height as int),
            ;
        }
        return Err(TextureError::ShortFrame);
    }
    proof {
        let sl: int = samples@.len() as int;
        assert(sl >= channels(color) * width * height) by (nonlinear_arith)
            requires
                sl / (per as int) >= pixels,
                per as int == channels(color),
                per >= 1,
                pixels == width * height,
        ;
    }
    if width % 4 != 0 || height % 4 != 0 {
        return Err(TextureError::NotBlockAligned { width, height });
    }
    let rgba: Vec<u8> = expand_rgba(samples.as_slice(), color, pixels);
    proof {
        assert(rgba@.len() == 4 * width * height) by (nonlinear_arith)
            requires
                rgba@.len() == 4 * pixels,
                pixels == (width as int) * (height as int),
        ;
    }
    let stride: u32 = width * 4;
    let blocks: Vec<u8> = bc7_encode(rgba.as_slice(), width, height, stride);
    let r = texture_from_blocks(name, width, height, blocks.as_slice());
    proof {
        assert(decoded_width(png_bytes@) == width);
        assert(decoded_height(png_bytes@) == height);
        assert(texture_result_is(r, name.spec_bytes(), width, height, blocks@));
    }
    r
}

} // verus!
