use std::io::Read;

use flate2::read::ZlibDecoder;

use relic_chunky::container::{ChunkBody, Chunky};
use relic_chunky::texture::{compile_texture, texture_from_blocks, TextureError};

fn png_bytes(width: u32, height: u32, color: png::ColorType, samples: &[u8]) -> Vec<u8> {
    let mut out = Vec::new();
    {
        let mut encoder = png::Encoder::new(&mut out, width, height);
        encoder.set_color(color);
        encoder.set_depth(png::BitDepth::Eight);
        let mut writer = encoder.write_header().unwrap();
        writer.write_image_data(samples).unwrap();
    }
    out
}

fn child<'a>(chunks: &'a [relic_chunky::container::Chunk], name: &[u8; 4]) -> &'a relic_chunky::container::Chunk {
    chunks.iter().find(|c| &c.name == name).unwrap()
}

#[test]
fn texture_has_the_rrtex_layout() {
    let (w, h) = (8u32, 4u32);
    let samples: Vec<u8> = (0..w * h * 4).map(|i| (i * 7) as u8).collect();
    let png = png_bytes(w, h, png::ColorType::Rgba, &samples);
    let rrtex = compile_texture(&png, "test").unwrap();
    let chunky = Chunky::read(&rrtex).unwrap();
    assert_eq!((chunky.major, chunky.minor, chunky.platform), (4, 0, 1));
    let tset = &chunky.chunks[0];
    assert_eq!(&tset.name, b"TSET");
    let tset_children = tset.children().unwrap();
    let txtr = child(tset_children, b"TXTR");
    assert_eq!(txtr.path, b"test\0".to_vec());
    let dxtc = child(txtr.children().unwrap(), b"DXTC");
    let tman = child(dxtc.children().unwrap(), b"TMAN").data().unwrap();
    let tdat = child(dxtc.children().unwrap(), b"TDAT").data().unwrap();
    let word = |b: &[u8], i: usize| u32::from_le_bytes(b[i * 4..i * 4 + 4].try_into().unwrap());
    assert_eq!(word(tman, 0), 6);
    assert_eq!(word(tman, 1), w);
    assert_eq!(word(tman, 2), h);
    assert_eq!(word(tman, 3), 1);
    assert_eq!(word(tman, 10), 256);
    assert_eq!(word(tdat, 0), 6);
    let mut raw = Vec::new();
    flate2::read::ZlibDecoder::new(&tdat[4..]).read_to_end(&mut raw).unwrap();
    let blocks = (w * h / 16) * 16;
    assert_eq!(raw.len() as u32, 16 + blocks);
    assert_eq!(word(&raw, 1), w);
    assert_eq!(word(&raw, 2), h);
    assert_eq!(word(&raw, 3), blocks);
    assert_eq!(word(tman, 11), (raw.len() as u32) << 8);
    assert!(matches!(tset.body, ChunkBody::Folder(_)));
}

#[test]
fn texture_refusals() {
    let gray = png_bytes(5, 4, png::ColorType::Grayscale, &[128u8; 20]);
    assert_eq!(compile_texture(&gray, "g"), Err(TextureError::NotBlockAligned { width: 5, height: 4 }));
    assert_eq!(compile_texture(b"not a png", "x"), Err(TextureError::Png));
    let ok_gray = png_bytes(4, 4, png::ColorType::Grayscale, &[9u8; 16]);
    assert!(compile_texture(&ok_gray, "g").is_ok());
}

#[test]
fn large_surfaces_span_several_segments() {
    let blocks = vec![0xabu8; 70000];
    let out = texture_from_blocks("big", 4, 4, &blocks).unwrap();
    let chunky = Chunky::read(&out).unwrap();
    let txtr = child(chunky.chunks[0].children().unwrap(), b"TXTR");
    let dxtc = child(txtr.children().unwrap(), b"DXTC");
    let tman = child(dxtc.children().unwrap(), b"TMAN").data().unwrap();
    let word = |b: &[u8], i: usize| u32::from_le_bytes(b[i * 4..i * 4 + 4].try_into().unwrap());
    assert_eq!(word(tman, 10), 2 * 256);
    assert_eq!(word(tman, 11), 65536 << 8);
    assert_eq!(word(tman, 13), (70016 - 65536) << 8);
    assert_eq!(*tman.last().unwrap(), 0);
}

const W: u32 = 256;
const H: u32 = 256;

/// A synthetic image where every 4x4 block is a distinct solid colour. Solid
/// blocks encode near-losslessly, so any block-shift, channel swap, or layout
/// bug in the compiler shows up as a large PSNR drop.
fn synthetic_rgba() -> Vec<u8> {
    let mut rgba = vec![0u8; (W * H * 4) as usize];
    for by in 0..H / 4 {
        for bx in 0..W / 4 {
            let r = (bx * 37 + by * 17) as u8;
            let g = (bx * 53 + by * 29) as u8;
            let b = (bx * 97 + by * 61) as u8;
            for dy in 0..4 {
                for dx in 0..4 {
                    let p = (((by * 4 + dy) * W + (bx * 4 + dx)) * 4) as usize;
                    rgba[p..p + 4].copy_from_slice(&[r, g, b, 255]);
                }
            }
        }
    }
    rgba
}

fn find<'a>(chunks: &'a [relic_chunky::container::Chunk], name: &[u8; 4]) -> Option<&'a [u8]> {
    for chunk in chunks {
        if &chunk.name == name {
            return chunk.data();
        }
        if let ChunkBody::Folder(children) = &chunk.body {
            if let Some(found) = find(children, name) {
                return Some(found);
            }
        }
    }
    None
}

/// Decodes row-major BC7 blocks of a `W` by `H` surface into RGBA.
fn decode_bc7(blocks: &[u8]) -> Vec<u8> {
    let mut out = vec![0u8; (W * H * 4) as usize];
    let pitch = (W * 4) as usize;
    for by in 0..(H / 4) as usize {
        for bx in 0..(W / 4) as usize {
            let i = by * (W / 4) as usize + bx;
            let start = (by * 4) * pitch + bx * 16;
            bcdec_rs::bc7(&blocks[i * 16..i * 16 + 16], &mut out[start..], pitch);
        }
    }
    out
}

#[test]
fn texture_round_trips() {
    let source = synthetic_rgba();
    let rrtex = compile_texture(&png_bytes(W, H, png::ColorType::Rgba, &source), "test").unwrap();

    let chunky = Chunky::read(&rrtex).unwrap();
    let tman = find(&chunky.chunks, b"TMAN").expect("TMAN");
    let tdat = find(&chunky.chunks, b"TDAT").expect("TDAT");

    // Container header: format=BC7(6), correct dimensions, one mip.
    assert_eq!(u32::from_le_bytes(tman[0..4].try_into().unwrap()), 6, "format");
    assert_eq!(u32::from_le_bytes(tman[4..8].try_into().unwrap()), W, "width");
    assert_eq!(u32::from_le_bytes(tman[8..12].try_into().unwrap()), H, "height");
    assert_eq!(u32::from_le_bytes(tman[12..16].try_into().unwrap()), 1, "mip count");

    // Inflate the segments (compressed sizes from the TMAN table) into the
    // pixel payload.
    let segments = (tman.len() - 44 - 1) / 8;
    let mut pixels = Vec::new();
    let mut off = 4usize;
    for i in 0..segments {
        let comp =
            (u32::from_le_bytes(tman[44 + i * 8 + 4..44 + i * 8 + 8].try_into().unwrap()) >> 8)
                as usize;
        let mut raw = Vec::new();
        ZlibDecoder::new(&tdat[off..off + comp]).read_to_end(&mut raw).unwrap();
        pixels.extend_from_slice(&raw);
        off += comp;
    }

    // 16-byte surface descriptor: [0][width][height][bc7 byte count].
    assert_eq!(u32::from_le_bytes(pixels[0..4].try_into().unwrap()), 0);
    assert_eq!(u32::from_le_bytes(pixels[4..8].try_into().unwrap()), W);
    assert_eq!(u32::from_le_bytes(pixels[8..12].try_into().unwrap()), H);
    let bc7_len = u32::from_le_bytes(pixels[12..16].try_into().unwrap()) as usize;
    assert_eq!(bc7_len, pixels.len() - 16, "descriptor payload size");

    // Decode the BC7 (after the header) and check it matches the source.
    let decoded = decode_bc7(&pixels[16..]);
    let mut sse = 0f64;
    for (a, b) in source.iter().zip(&decoded) {
        let e = *a as f64 - *b as f64;
        sse += e * e;
    }
    let mse = sse / source.len() as f64;
    let psnr = 10.0 * (255.0 * 255.0 / mse).log10();
    assert!(psnr > 40.0, "round-trip PSNR too low ({psnr:.1} dB) - layout/header/channel bug?");
}
