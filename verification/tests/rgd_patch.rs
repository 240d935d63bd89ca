use flate2::Crc;
use relic_chunky::container::{Chunk, ChunkBody, ChunkKind, Chunky};
use relic_chunky::raw_list::{read_raw_list, write_raw_list, RawListError, RawNode, RawValue};
use relic_chunky::rgd_patch::{
    patch_cstring, patch_cstring_bytes, patch_cstrings, patch_f32_bits_bytes, patch_f32s, PatchError,
};

#[test]
fn patches_exact_cstrings_recursively_without_touching_other_values() {
    let mut nodes = vec![RawNode {
        key_hash: 1,
        value: RawValue::List {
            data_type: 101,
            children: vec![
                RawNode {
                    key_hash: 2,
                    value: RawValue::CString(b"short".to_vec()),
                },
                RawNode {
                    key_hash: 3,
                    value: RawValue::CString(b"shorter".to_vec()),
                },
                RawNode {
                    key_hash: 4,
                    value: RawValue::List {
                        data_type: 100,
                        children: vec![RawNode {
                            key_hash: 5,
                            value: RawValue::CString(b"short".to_vec()),
                        }],
                    },
                },
            ],
        },
    }];

    let before = write_raw_list(&nodes);
    assert_eq!(patch_cstrings(&mut nodes, b"short", b"owner:short"), 2);
    let after = write_raw_list(&nodes);
    assert_ne!(before, after);
    let RawValue::List {
        data_type,
        children,
    } = &nodes[0].value
    else {
        panic!("outer list type changed");
    };
    assert_eq!(*data_type, 101);
    assert_eq!(
        children[0].value,
        RawValue::CString(b"owner:short".to_vec())
    );
    assert_eq!(children[1].value, RawValue::CString(b"shorter".to_vec()));
}

#[test]
fn patches_exact_f32_values_without_touching_ints_or_other_floats() {
    let old = 750.0f32.to_le_bytes();
    let new = 3000.0f32.to_le_bytes();
    let mut nodes = vec![
        RawNode {
            key_hash: 1,
            value: RawValue::FourBytes {
                data_type: 0,
                bytes: old,
            },
        },
        RawNode {
            key_hash: 2,
            value: RawValue::FourBytes {
                data_type: 1,
                bytes: old,
            },
        },
        RawNode {
            key_hash: 3,
            value: RawValue::List {
                data_type: 100,
                children: vec![RawNode {
                    key_hash: 4,
                    value: RawValue::FourBytes {
                        data_type: 0,
                        bytes: 15.0f32.to_le_bytes(),
                    },
                }],
            },
        },
    ];

    assert_eq!(patch_f32s(&mut nodes, 1, old, new), 1);
    assert_eq!(
        nodes[0].value,
        RawValue::FourBytes {
            data_type: 0,
            bytes: new
        }
    );
    assert_eq!(
        nodes[1].value,
        RawValue::FourBytes {
            data_type: 1,
            bytes: old
        }
    );
}

#[test]
fn raw_list_round_trips_with_alignment_padding() {
    let nodes = vec![
        RawNode {
            key_hash: 9,
            value: RawValue::Bool(1),
        },
        RawNode {
            key_hash: 10,
            value: RawValue::CString(b"abc".to_vec()),
        },
        RawNode {
            key_hash: 11,
            value: RawValue::LocString(vec![0x41, 0x42]),
        },
        RawNode {
            key_hash: 12,
            value: RawValue::FourBytes {
                data_type: 1,
                bytes: 7u32.to_le_bytes(),
            },
        },
    ];
    let bytes = write_raw_list(&nodes);
    let parsed = read_raw_list(&bytes).unwrap();
    assert_eq!(parsed, nodes);
    assert_eq!(write_raw_list(&parsed), bytes);
}

#[test]
fn container_patch_changes_only_the_aegd_chunk() {
    let list = write_raw_list(&[RawNode {
        key_hash: 42,
        value: RawValue::CString(b"eng_house".to_vec()),
    }]);
    let mut crc = Crc::new();
    crc.update(&list);
    let mut aegd = crc.sum().to_le_bytes().to_vec();
    aegd.extend_from_slice(&list);
    let chunky = Chunky {
        major: 4,
        minor: 1,
        platform: 1,
        chunks: vec![
            Chunk {
                kind: ChunkKind::Data,
                name: *b"AEGD",
                version: 3,
                path: Vec::new(),
                body: ChunkBody::Data(aegd),
            },
            Chunk {
                kind: ChunkKind::Data,
                name: *b"KEYS",
                version: 1,
                path: Vec::new(),
                body: ChunkBody::Data(vec![0, 0, 0, 0]),
            },
        ],
    };
    let mut input = Vec::new();
    chunky.write(&mut input);

    let (patched, report) =
        patch_cstring_bytes(&input, b"eng_house", b"owner:eng_house").unwrap();
    assert_eq!(report.replacements, 1);
    assert_eq!(report.patched_aegd_size, report.original_aegd_size + 6);
    let reparsed = Chunky::read(&patched).unwrap();
    assert_eq!(reparsed.chunks[1], chunky.chunks[1]);
    let aegd = reparsed.chunks[0].data().unwrap();
    let nodes = read_raw_list(&aegd[4..]).unwrap();
    assert_eq!(
        nodes[0].value,
        RawValue::CString(b"owner:eng_house".to_vec())
    );
    let mut crc = Crc::new();
    crc.update(&aegd[4..]);
    assert_eq!(&aegd[..4], crc.sum().to_le_bytes());

    assert!(
        patch_cstring_bytes(&input, b"missing", b"x")
            .unwrap()
            .1
            .replacements
            == 0
    );
    assert!(patch_cstring_bytes(&input, b"", b"x").is_err());
}

fn container(chunks: Vec<Chunk>) -> Chunky {
    Chunky { major: 4, minor: 1, platform: 1, chunks }
}

fn aegd_with(nodes: &[RawNode]) -> Chunk {
    let list = write_raw_list(nodes);
    let mut body = vec![0, 0, 0, 0];
    body.extend_from_slice(&list);
    Chunk { kind: ChunkKind::Data, name: *b"AEGD", version: 3, path: Vec::new(), body: ChunkBody::Data(body) }
}

#[test]
fn patch_errors_name_what_was_wrong() {
    let one = [RawNode { key_hash: 1, value: RawValue::CString(b"a".to_vec()) }];
    let mut two = container(vec![aegd_with(&one), aegd_with(&one)]);
    let before = two.clone();
    assert_eq!(patch_cstring(&mut two, b"a", b"b"), Err(PatchError::MultipleAegd));
    assert_eq!(two, before);

    let mut none = container(Vec::new());
    assert_eq!(patch_cstring(&mut none, b"a", b"b"), Err(PatchError::MissingAegd));

    let mut short = container(vec![Chunk {
        kind: ChunkKind::Data,
        name: *b"AEGD",
        version: 3,
        path: Vec::new(),
        body: ChunkBody::Data(vec![1, 2]),
    }]);
    assert_eq!(patch_cstring(&mut short, b"a", b"b"), Err(PatchError::AegdTooShort));

    let mut bad = container(vec![Chunk {
        kind: ChunkKind::Data,
        name: *b"AEGD",
        version: 3,
        path: Vec::new(),
        body: ChunkBody::Data(vec![0, 0, 0, 0, 1, 0, 0, 0]),
    }]);
    assert_eq!(
        patch_cstring(&mut bad, b"a", b"b"),
        Err(PatchError::RawList(RawListError::UnexpectedEof))
    );

    let mut ok = container(vec![aegd_with(&one)]);
    assert_eq!(patch_cstring(&mut ok, b"a\0", b"b"), Err(PatchError::InvalidCString));

    assert_eq!(
        patch_cstring_bytes(b"this is not a container", b"a", b"b"),
        Err(PatchError::Container(relic_chunky::container::ChunkyError::NotChunky))
    );
}

#[test]
fn float_patch_over_file_bytes() {
    let nodes = [
        RawNode { key_hash: 7, value: RawValue::FourBytes { data_type: 0, bytes: 1.5f32.to_le_bytes() } },
        RawNode { key_hash: 8, value: RawValue::FourBytes { data_type: 0, bytes: 1.5f32.to_le_bytes() } },
    ];
    let mut input = Vec::new();
    container(vec![aegd_with(&nodes)]).write(&mut input);
    let (out, report) =
        patch_f32_bits_bytes(&input, 7, 1.5f32.to_le_bytes(), 2.5f32.to_le_bytes()).unwrap();
    assert_eq!(report.replacements, 1);
    let patched = Chunky::read(&out).unwrap();
    let body = patched.chunks[0].data().unwrap();
    let list = read_raw_list(&body[4..]).unwrap();
    assert_eq!(list[0].value, RawValue::FourBytes { data_type: 0, bytes: 2.5f32.to_le_bytes() });
    assert_eq!(list[1].value, nodes[1].value);
}

#[test]
fn raw_list_errors() {
    assert_eq!(read_raw_list(&[1, 0]), Err(RawListError::UnexpectedEof));
    let mut bad_type = Vec::new();
    bad_type.extend_from_slice(&1u32.to_le_bytes());
    bad_type.extend_from_slice(&5u64.to_le_bytes());
    bad_type.extend_from_slice(&7i32.to_le_bytes());
    bad_type.extend_from_slice(&0i32.to_le_bytes());
    assert_eq!(read_raw_list(&bad_type), Err(RawListError::UnsupportedType { data_type: 7 }));
    let mut before_start = Vec::new();
    before_start.extend_from_slice(&1u32.to_le_bytes());
    before_start.extend_from_slice(&5u64.to_le_bytes());
    before_start.extend_from_slice(&2i32.to_le_bytes());
    before_start.extend_from_slice(&(-100i32).to_le_bytes());
    assert_eq!(
        read_raw_list(&before_start),
        Err(RawListError::OffsetOverflow { key_hash: 5, offset: -100 })
    );
    // A list whose only child is the list itself.
    let mut cyclic = Vec::new();
    cyclic.extend_from_slice(&1u32.to_le_bytes());
    cyclic.extend_from_slice(&5u64.to_le_bytes());
    cyclic.extend_from_slice(&100i32.to_le_bytes());
    cyclic.extend_from_slice(&(-20i32).to_le_bytes());
    assert_eq!(read_raw_list(&cyclic), Err(RawListError::TooDeep));
}

#[test]
fn non_finite_float_edits_are_refused() {
    let nodes = [RawNode { key_hash: 7, value: RawValue::FourBytes { data_type: 0, bytes: 1.5f32.to_le_bytes() } }];
    let mut input = Vec::new();
    container(vec![aegd_with(&nodes)]).write(&mut input);
    for bad in [f32::NAN, f32::INFINITY, f32::NEG_INFINITY] {
        assert_eq!(
            patch_f32_bits_bytes(&input, 7, 1.5f32.to_le_bytes(), bad.to_le_bytes()),
            Err(PatchError::NonFiniteFloat)
        );
        assert_eq!(
            patch_f32_bits_bytes(&input, 7, bad.to_le_bytes(), 1.5f32.to_le_bytes()),
            Err(PatchError::NonFiniteFloat)
        );
    }
    assert!(patch_f32_bits_bytes(&input, 7, f32::MAX.to_le_bytes(), 1.0f32.to_le_bytes()).is_ok());
}
