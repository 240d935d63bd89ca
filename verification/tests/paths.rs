use relic_chunky::extract_rules::{check_replacements, extract_request, member_key, member_selected, ExtractError};
use relic_chunky::paths::{
    format_guid, normalized, parse_mappings, report_path, safe_relative, MappingError, PathError,
    RgdFormat,
};

#[test]
fn report_paths_use_forward_slashes() {
    assert_eq!(report_path("art\\house\\a.rgm"), "art/house/a.rgm");
    assert_eq!(normalized("ART\\House.RGM"), "art/house.rgm");
}

#[test]
fn safe_relative_keeps_inner_components() {
    assert_eq!(
        safe_relative("art\\.\\house//a.rgm").unwrap(),
        vec!["art".to_string(), "house".to_string(), "a.rgm".to_string()]
    );
    assert_eq!(safe_relative("..\\evil"), Err(PathError::Escapes));
    assert_eq!(safe_relative("c:\\evil"), Err(PathError::Escapes));
    assert_eq!(safe_relative("a/../b"), Err(PathError::Escapes));
    assert_eq!(safe_relative("./\\"), Err(PathError::Empty));
    assert_eq!(safe_relative(""), Err(PathError::Empty));
}

#[test]
fn mappings_split_at_the_first_equals() {
    let values = vec!["art/a.rgm=art/b.rgm".to_string(), "x=y=z".to_string()];
    assert_eq!(
        parse_mappings(&values).unwrap(),
        vec![
            ("art/a.rgm".to_string(), "art/b.rgm".to_string()),
            ("x".to_string(), "y=z".to_string())
        ]
    );
    let bad = vec!["ok=fine".to_string(), "no-equals".to_string(), "=x".to_string()];
    assert_eq!(parse_mappings(&bad), Err(MappingError { value: "no-equals".to_string() }));
    assert!(parse_mappings(&["a=".to_string()]).is_err());
}

#[test]
fn guids_get_dashes() {
    assert_eq!(
        format_guid("50bdc4b41a3f4794936d8c6d0b2898a0"),
        "50bdc4b4-1a3f-4794-936d-8c6d0b2898a0"
    );
    assert_eq!(format_guid("not-a-guid"), "not-a-guid");
    assert_eq!(format_guid("50bdc4b41a3f4794936d8c6d0b2898aZ"), "50bdc4b41a3f4794936d8c6d0b2898aZ");
    assert_eq!(RgdFormat::Xml.extension(), Some("xml"));
    assert_eq!(RgdFormat::Json.extension(), Some("json"));
    assert_eq!(RgdFormat::Keep.extension(), None);
}

#[test]
fn mod_project_files_carry_the_dashed_guid_and_the_locdb() {
    let with = relic_chunky::paths::mod_project("50bdc4b41a3f4794936d8c6d0b2898a0", "locdb\\Foo.locdb");
    let want = "\u{feff}<?xml version=\"1.0\" encoding=\"utf-8\"?>\r\n\
<Mod xmlns:i=\"http://www.w3.org/2001/XMLSchema-instance\" xmlns=\"http://schemas.datacontract.org/2004/07/Essence.Editor.Modding\">\r\n\
\t<DataGenericPath>assets</DataGenericPath>\r\n\
\t<DataIntermediatePath>cache</DataIntermediatePath>\r\n\
\t<ID>50bdc4b4-1a3f-4794-936d-8c6d0b2898a0</ID>\r\n\
\t<LocDBPath>locdb\\Foo.locdb</LocDBPath>\r\n\
\t<Type>Extension</Type>\r\n\
</Mod>";
    assert_eq!(with, want);
    let without = relic_chunky::paths::mod_project("plain", "");
    assert!(without.contains("\t<ID>plain</ID>\r\n\t<Type>Extension</Type>"));
    assert!(!without.contains("LocDBPath"));
    assert_eq!(relic_chunky::paths::editor_path("locdb/sub/Foo.locdb"), "locdb\\sub\\Foo.locdb");
}

#[test]
fn extraction_picks_members_by_filter_or_key() {
    assert_eq!(member_key("\\Data\\Attrib\\Foo.XML/"), "data/attrib/foo.xml");
    assert_eq!(member_key("//"), "");
    let wanted = extract_request(None, &["/Data\\Foo.bin".to_string()]).unwrap();
    assert_eq!(wanted, vec!["data/foo.bin".to_string()]);
    assert!(member_selected("data\\FOO.bin", None, &wanted));
    assert!(!member_selected("data\\bar.bin", None, &wanted));
    assert!(member_selected("data\\bar.bin", Some("BAR"), &wanted));
    assert!(!member_selected("data\\bar.bin", Some("baz"), &wanted));
    assert_eq!(extract_request(None, &[]), Err(ExtractError::NothingRequested));
    assert_eq!(
        ExtractError::NothingRequested.message(),
        "extract needs --filter or at least one --member; use `unpack` for a whole archive"
    );
    assert!(extract_request(Some("x"), &[]).unwrap().is_empty());
    assert!(check_replacements(false, 2, 2).is_ok());
    assert_eq!(
        check_replacements(false, 2, 3).unwrap_err().message(),
        "expected 2 CString replacements, found 3"
    );
    assert_eq!(check_replacements(true, 1, 0).unwrap_err().message(), "expected 1 Float replacements, found 0");
}
