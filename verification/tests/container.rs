use relic_chunky::container::{Chunk, ChunkBody, ChunkKind, Chunky, ChunkyError};
use relic_chunky::hash::{city_hash64, dictionary_hash};
use relic_chunky::tokens::replace_length_prefixed_strings;

fn sample() -> Chunky {
    Chunky {
        major: 4,
        minor: 1,
        platform: 1,
        chunks: vec![
            Chunk {
                kind: ChunkKind::Folder,
                name: *b"INFO",
                version: 2,
                path: b"root".to_vec(),
                body: ChunkBody::Folder(vec![Chunk {
                    kind: ChunkKind::Data,
                    name: *b"DATA",
                    version: 1,
                    path: Vec::new(),
                    body: ChunkBody::Data(vec![1, 2, 3]),
                }]),
            },
            Chunk {
                kind: ChunkKind::Data,
                name: *b"TAIL",
                version: 7,
                path: Vec::new(),
                body: ChunkBody::Data(vec![9; 5]),
            },
        ],
    }
}

#[test]
fn chunky_write_then_read_gives_it_back() {
    let chunky = sample();
    let mut bytes = Vec::new();
    chunky.write(&mut bytes);
    assert_eq!(&bytes[..16], b"Relic Chunky\r\n\x1a\0");
    let back = Chunky::read(&bytes).unwrap();
    assert_eq!(back, chunky);
    let mut again = Vec::new();
    back.write(&mut again);
    assert_eq!(again, bytes);
}

#[test]
fn chunky_read_errors() {
    assert_eq!(Chunky::read(b"Relic Chunky"), Err(ChunkyError::UnexpectedEof));
    assert_eq!(Chunky::read(b"Definitely not a chunky file"), Err(ChunkyError::NotChunky));
    let mut bytes = Vec::new();
    sample().write(&mut bytes);
    bytes.truncate(bytes.len() - 1);
    assert_eq!(Chunky::read(&bytes), Err(ChunkyError::UnexpectedEof));
    let mut bad = Vec::new();
    Chunky { major: 1, minor: 1, platform: 1, chunks: Vec::new() }.write(&mut bad);
    bad.extend_from_slice(b"JUNK");
    bad.extend_from_slice(&[0u8; 16]);
    assert!(matches!(Chunky::read(&bad), Err(ChunkyError::UnknownChunkType { .. })));
}

#[test]
fn data_chunks_report_body_offsets_in_file_order() {
    let chunky = sample();
    let mut bytes = Vec::new();
    chunky.write(&mut bytes);
    let entries = chunky.data_chunks();
    assert_eq!(entries.len(), 2);
    for (chunk, pos) in &entries {
        let data = chunk.data().unwrap();
        let pos = *pos as usize;
        assert_eq!(&bytes[pos..pos + data.len()], data);
    }
    assert_eq!(entries[0].0.name_str(), "DATA");
    assert_eq!(entries[1].0.name_str(), "TAIL");
    assert_eq!(chunky.data_chunk_list().len(), 2);
    assert!(chunky.chunks[0].children().is_some());
    assert!(chunky.chunks[0].data().is_none());
}

#[test]
fn city_hash_of_known_inputs() {
    assert_eq!(city_hash64(b""), 0x9ae16a3b2f90404f);
    assert_eq!(dictionary_hash("Speed"), dictionary_hash("speed"));
    assert_eq!(dictionary_hash("speed"), city_hash64(b"speed"));
    let long: Vec<u8> = (0u8..200).collect();
    assert_ne!(city_hash64(&long), city_hash64(&long[..199]));
}

#[test]
fn tokens_are_retargeted_and_lengths_follow() {
    let mut body = Vec::new();
    body.extend_from_slice(&3u32.to_le_bytes());
    body.extend_from_slice(b"old");
    body.extend_from_slice(b"|");
    body.extend_from_slice(&3u32.to_le_bytes());
    body.extend_from_slice(b"old");
    let chunky = Chunky {
        major: 4,
        minor: 1,
        platform: 1,
        chunks: vec![Chunk {
            kind: ChunkKind::Data,
            name: *b"PATH",
            version: 1,
            path: Vec::new(),
            body: ChunkBody::Data(body),
        }],
    };
    let mut bytes = Vec::new();
    chunky.write(&mut bytes);
    let (out, count) = replace_length_prefixed_strings(&bytes, &[("old", "newer")]).unwrap();
    assert_eq!(count, 2);
    let back = Chunky::read(&out).unwrap();
    let mut want = Vec::new();
    want.extend_from_slice(&5u32.to_le_bytes());
    want.extend_from_slice(b"newer");
    want.extend_from_slice(b"|");
    want.extend_from_slice(&5u32.to_le_bytes());
    want.extend_from_slice(b"newer");
    assert_eq!(back.chunks[0].data().unwrap(), &want[..]);
    assert_eq!(
        replace_length_prefixed_strings(b"nope, not a container", &[]),
        Err(ChunkyError::NotChunky)
    );
}
