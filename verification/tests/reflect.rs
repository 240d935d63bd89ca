use relic_chunky::container::{Chunk, ChunkBody, ChunkKind, Chunky};
use relic_chunky::reflect::{
    is_type_token_for_test, parse_rfty_for_test, parse_rshi_for_test, InternedString, ReflectFile,
    ReflectType,
};

fn pascal(s: &str) -> Vec<u8> {
    let mut out = (s.len() as u32).to_le_bytes().to_vec();
    out.extend_from_slice(s.as_bytes());
    out
}

#[test]
fn is_type_token_accepts_identifiers_and_templates() {
    assert!(is_type_token_for_test("WinCondition"));
    assert!(is_type_token_for_test("m_startingCondition"));
    assert!(is_type_token_for_test(
        "util::ReflectArray<WinCondition::StartingSquad,StdTraits>"
    ));
    assert!(is_type_token_for_test("int32_t"));

    assert!(!is_type_token_for_test(""));
    assert!(!is_type_token_for_test("1abc"));
    assert!(!is_type_token_for_test("has\ttab"));
    assert!(!is_type_token_for_test("has!bang"));
}

#[test]
fn parse_rfty_pairs_fields_with_types_and_handles_primitives() {
    let mut bytes = Vec::new();
    bytes.extend_from_slice(&pascal("WinCondition"));
    bytes.extend_from_slice(&[0u8; 8]);
    bytes.extend_from_slice(&pascal("m_name"));
    bytes.extend_from_slice(&[0u8; 8]);
    bytes.extend_from_slice(&pascal("util::ReflectString<StdTraits>"));
    bytes.extend_from_slice(&[0u8; 8]);
    bytes.extend_from_slice(&pascal("m_devOnly"));
    bytes.extend_from_slice(&[0u8; 8]);
    bytes.extend_from_slice(&pascal("m_maxTeams"));
    bytes.extend_from_slice(&[0u8; 8]);
    bytes.extend_from_slice(&pascal("int32_t"));

    let ty = parse_rfty_for_test(&bytes).expect("parses");
    assert_eq!(ty.name, "WinCondition");
    assert_eq!(
        ty.fields,
        vec![
            ("m_name".to_string(), Some("util::ReflectString<StdTraits>".to_string())),
            ("m_devOnly".to_string(), None),
            ("m_maxTeams".to_string(), Some("int32_t".to_string())),
        ]
    );
}

#[test]
fn parse_rshi_reads_u64_count_and_entries() {
    let mut bytes = Vec::new();
    bytes.extend_from_slice(&1u64.to_le_bytes());
    bytes.extend_from_slice(&0x8c623eca289a7e3bu64.to_le_bytes());
    bytes.extend_from_slice(&5u32.to_le_bytes());
    bytes.extend_from_slice(b"nomad");

    let strings = parse_rshi_for_test(&bytes);
    assert_eq!(strings.len(), 1);
    assert_eq!(strings[0].hash, 0x8c623eca289a7e3b);
    assert_eq!(strings[0].value, "nomad");
}

#[test]
fn type_tokens_reject_non_ascii_and_leading_digits() {
    assert!(!is_type_token_for_test("Café"));
    assert!(!is_type_token_for_test("9lives"));
    assert!(is_type_token_for_test("_private"));
    assert!(is_type_token_for_test("Foo *"));
}

#[test]
fn rfty_without_tokens_is_none() {
    assert!(parse_rfty_for_test(&[]).is_none());
    assert!(parse_rfty_for_test(&[1, 2, 3, 4, 5, 6, 7]).is_none());
    // A string that is not a type token is skipped byte by byte.
    assert!(parse_rfty_for_test(&pascal("1bad")).is_none());
}

#[test]
fn rshi_stops_at_a_truncated_entry() {
    let mut bytes = Vec::new();
    bytes.extend_from_slice(&3u64.to_le_bytes());
    bytes.extend_from_slice(&7u64.to_le_bytes());
    bytes.extend_from_slice(&2u32.to_le_bytes());
    bytes.extend_from_slice(b"ok");
    bytes.extend_from_slice(&9u64.to_le_bytes());
    bytes.extend_from_slice(&10u32.to_le_bytes());
    bytes.extend_from_slice(b"short");
    let strings = parse_rshi_for_test(&bytes);
    assert_eq!(
        strings,
        vec![InternedString { hash: 7, value: "ok".to_string() }]
    );
    assert!(parse_rshi_for_test(&[1, 2, 3]).is_empty());
}

fn data_chunk(name: &[u8; 4], body: Vec<u8>) -> Chunk {
    Chunk { kind: ChunkKind::Data, name: *name, version: 1, path: Vec::new(), body: ChunkBody::Data(body) }
}

#[test]
fn reflect_file_collects_types_strings_and_values() {
    let mut rfty = Vec::new();
    rfty.extend_from_slice(&pascal("Mod"));
    rfty.extend_from_slice(&pascal("m_name"));
    rfty.extend_from_slice(&pascal("int32_t"));
    let mut rshi = Vec::new();
    rshi.extend_from_slice(&1u64.to_le_bytes());
    rshi.extend_from_slice(&5u64.to_le_bytes());
    rshi.extend_from_slice(&3u32.to_le_bytes());
    rshi.extend_from_slice(b"abc");
    let rfci = b"\x00\x01configured\x00short\x00".to_vec();
    let chunky = Chunky {
        major: 4,
        minor: 1,
        platform: 1,
        chunks: vec![
            data_chunk(b"RFCI", rfci),
            Chunk {
                kind: ChunkKind::Folder,
                name: *b"RFDB",
                version: 1,
                path: Vec::new(),
                body: ChunkBody::Folder(vec![data_chunk(b"RFTY", rfty)]),
            },
            data_chunk(b"RSHI", rshi),
        ],
    };
    let file = ReflectFile::parse(&chunky).expect("has an RFTY chunk");
    assert_eq!(
        file.types,
        vec![ReflectType {
            name: "Mod".to_string(),
            fields: vec![("m_name".to_string(), Some("int32_t".to_string()))],
        }]
    );
    assert_eq!(file.interned_strings, vec![InternedString { hash: 5, value: "abc".to_string() }]);
    assert_eq!(file.object_strings, vec!["configured".to_string()]);

    let report = file.to_report();
    assert!(report.starts_with("== Interned strings (RSHI: enum values, hashed text) ==\n"));
    assert!(report.contains("  0x0000000000000005  \"abc\"\n"));
    assert!(report.contains("  \"configured\"\n"));
    assert!(report.ends_with("  Mod\n    m_name: int32_t\n"));
}

#[test]
fn reflect_file_needs_an_rfty_chunk() {
    let chunky = Chunky { major: 4, minor: 1, platform: 1, chunks: vec![data_chunk(b"RSHI", vec![0; 8])] };
    assert!(ReflectFile::parse(&chunky).is_none());
}

#[test]
fn empty_report_says_none() {
    let file = ReflectFile { types: Vec::new(), interned_strings: Vec::new(), object_strings: Vec::new() };
    assert_eq!(
        file.to_report(),
        "== Interned strings (RSHI: enum values, hashed text) ==\n  (none)\n\n== Object string values (RFCI: configured strings) ==\n  (none)\n\n== Type schema (RFDB/RFTY: all available fields) ==\n"
    );
}
