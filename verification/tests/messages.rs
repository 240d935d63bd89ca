use relic_chunky::paths::MappingError;
use relic_chunky::reflect_bin::BinError;
use relic_chunky::reflect_compile::CompileError;
use relic_chunky::reflect_write::PlaceError;
use relic_chunky::rgd_patch::PatchError;

#[test]
fn errors_read_as_the_tools_print_them() {
    assert_eq!(CompileError::NoRoot.message(), "no root object (owner id 0) in .rdo");
    assert_eq!(CompileError::MissingChunk(*b"RFCI").message(), "reference .bin has no RFCI chunk");
    assert_eq!(CompileError::MissingChunk(*b"ROBJ").message(), "reference .bin has no ROBJ chunk");
    assert_eq!(CompileError::UnknownType("Foo".to_string()).message(), "type not in registry: Foo");
    assert_eq!(CompileError::Place(PlaceError::MissingChild(42)).message(), "child object 42 not found");
    assert_eq!(
        BinError::NoSchemaFor("Foo".to_string()).message(),
        "no bundled schema for root type 'Foo'"
    );
    assert_eq!(BinError::UnknownRootType(0x1a2b).message(), "root type hash 0x1a2b not found in schema");
    assert_eq!(BinError::UnknownRootType(0).message(), "root type hash 0x0 not found in schema");
    assert_eq!(BinError::Compile(CompileError::NoRoot).message(), "no root object (owner id 0) in .rdo");
    assert_eq!(
        PatchError::InvalidCString.message(),
        "old and new CString values must be non-empty and contain no NUL bytes"
    );
    assert_eq!(PatchError::NonFiniteFloat.message(), "old and new Float values must be finite");
    assert_eq!(MappingError { value: "a".to_string() }.message(), "invalid graft-as mapping: a");
}
