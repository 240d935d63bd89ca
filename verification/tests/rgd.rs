use relic_chunky::container::{Chunk, ChunkBody, ChunkKind, Chunky};
use relic_chunky::hash::dictionary_hash;
use relic_chunky::raw_list::{write_raw_list, RawNode, RawValue};
use relic_chunky::rgd::{GameNode, GameValue, RGDDataType, RelicGameData, RelicGameDataError};

#[test]
fn missing_keys_chunk_is_an_error() {
    // A chunky file with a valid header but no chunks at all.
    let mut bytes = b"Relic Chunky\r\n\x1A\0".to_vec();
    bytes.extend_from_slice(&4u16.to_le_bytes()); // major
    bytes.extend_from_slice(&1u16.to_le_bytes()); // minor
    bytes.extend_from_slice(&1u32.to_le_bytes()); // platform

    let chunky = Chunky::read(&bytes).unwrap();
    assert!(RelicGameData::parse(&chunky).is_err());
}

#[test]
fn data_type_codes_and_names() {
    for (t, code, name) in [
        (RGDDataType::Float, 0, "Float"),
        (RGDDataType::Int, 1, "Int"),
        (RGDDataType::Boolean, 2, "Boolean"),
        (RGDDataType::CString, 3, "CString"),
        (RGDDataType::LocString, 4, "LocString"),
        (RGDDataType::List, 100, "List"),
        (RGDDataType::List2, 101, "List"),
    ] {
        assert_eq!(t.code(), code);
        assert_eq!(t.name(), name);
        assert_eq!(RGDDataType::from_code(code), Some(t));
    }
    assert_eq!(RGDDataType::from_code(5), None);
}

fn data(name: &[u8; 4], body: Vec<u8>) -> Chunk {
    Chunk { kind: ChunkKind::Data, name: *name, version: 1, path: Vec::new(), body: ChunkBody::Data(body) }
}

fn keys_chunk(names: &[&str]) -> Chunk {
    let mut body = (names.len() as u32).to_le_bytes().to_vec();
    for n in names {
        body.extend_from_slice(&dictionary_hash(n).to_le_bytes());
        body.extend_from_slice(&(n.len() as u32).to_le_bytes());
        body.extend_from_slice(n.as_bytes());
    }
    data(b"KEYS", body)
}

#[test]
fn parses_keys_and_values() {
    let nodes = vec![
        RawNode { key_hash: dictionary_hash("speed"), value: RawValue::FourBytes { data_type: 0, bytes: 2.5f32.to_le_bytes() } },
        RawNode { key_hash: dictionary_hash("count"), value: RawValue::FourBytes { data_type: 1, bytes: (-3i32).to_le_bytes() } },
        RawNode {
            key_hash: dictionary_hash("group"),
            value: RawValue::List {
                data_type: 100,
                children: vec![
                    RawNode { key_hash: 77, value: RawValue::Bool(1) },
                    RawNode { key_hash: dictionary_hash("title"), value: RawValue::LocString(vec![0x48, 0x69]) },
                ],
            },
        },
        RawNode { key_hash: dictionary_hash("icon"), value: RawValue::CString(b"icons\\thing".to_vec()) },
    ];
    let mut aegd = vec![0, 0, 0, 0];
    aegd.extend_from_slice(&write_raw_list(&nodes));
    let chunky = Chunky {
        major: 4,
        minor: 1,
        platform: 1,
        chunks: vec![keys_chunk(&["speed", "count", "group", "title", "icon"]), data(b"AEGD", aegd)],
    };
    let parsed = RelicGameData::parse(&chunky).unwrap();
    assert_eq!(
        parsed,
        vec![
            GameNode { key: "speed".to_string(), value: GameValue::Float(2.5f32.to_bits()) },
            GameNode { key: "count".to_string(), value: GameValue::Int(-3) },
            GameNode {
                key: "group".to_string(),
                value: GameValue::List(vec![
                    GameNode { key: "unknown_77".to_string(), value: GameValue::Boolean(true) },
                    GameNode { key: "title".to_string(), value: GameValue::LocString("Hi".to_string()) },
                ]),
            },
            GameNode { key: "icon".to_string(), value: GameValue::CString("icons\\thing".to_string()) },
        ]
    );
    assert_eq!(parsed[2].value.data_type(), RGDDataType::List);
}

#[test]
fn second_keys_chunk_and_missing_aegd_are_errors() {
    let two = Chunky { major: 4, minor: 1, platform: 1, chunks: vec![keys_chunk(&[]), keys_chunk(&[])] };
    assert_eq!(RelicGameData::parse(&two), Err(RelicGameDataError::MultipleDataKeysChunks));
    let no_aegd = Chunky { major: 4, minor: 1, platform: 1, chunks: vec![keys_chunk(&[])] };
    assert_eq!(RelicGameData::parse(&no_aegd), Err(RelicGameDataError::MissingDataAegdChunk));
    let bad_offset = {
        let mut aegd = vec![0, 0, 0, 0];
        aegd.extend_from_slice(&1u32.to_le_bytes());
        aegd.extend_from_slice(&9u64.to_le_bytes());
        aegd.extend_from_slice(&1i32.to_le_bytes());
        aegd.extend_from_slice(&(-64i32).to_le_bytes());
        Chunky { major: 4, minor: 1, platform: 1, chunks: vec![keys_chunk(&[]), data(b"AEGD", aegd)] }
    };
    assert_eq!(
        RelicGameData::parse(&bad_offset),
        Err(RelicGameDataError::InvalidDataOffset { key: 9, offset: -64 })
    );
}

#[test]
fn first_key_name_wins() {
    let mut body = 2u32.to_le_bytes().to_vec();
    for n in ["first", "second"] {
        body.extend_from_slice(&5u64.to_le_bytes());
        body.extend_from_slice(&(n.len() as u32).to_le_bytes());
        body.extend_from_slice(n.as_bytes());
    }
    let keys = RelicGameData::parse_keys(&body).unwrap();
    assert_eq!(keys.get(&5).map(|s| s.as_str()), Some("first"));
    assert_eq!(RelicGameData::parse_keys(&[1, 0]), Err(RelicGameDataError::UnexpectedEof));
}
