//! Relic Chunky containers and the reflection / game-data formats stored in them.

// The BC7 encoder links prebuilt C++ objects but not the C++ runtime they
// need; this crate brings the platform's C++ standard library in.
use link_cplusplus as _;

pub mod le;
pub mod text;
pub mod hash;
pub mod container;
pub mod walk;
pub mod records;
pub mod reflect;
pub mod raw_list;
pub mod raw_list_laws;
pub mod rgd_patch;
pub mod reflect_type;
pub mod rdo;
pub mod tokens;
pub mod rgd;
pub mod texture;
pub mod paths;
pub mod rgd_write;
pub mod rgd_laws;
pub mod xml;
pub mod attrib;
pub mod rdo_xml;
pub mod rdo_parse;
pub mod decompile;
pub mod reflect_write;
pub mod reflect_place;
pub mod reflect_drain;
pub mod reflect_compile;
pub mod reflect_reference;
pub mod reflect_bin;
pub mod schema_lib;
pub mod schema_laws;
pub mod walk_laws;
pub mod rdo_xml_laws;
pub mod place_laws;
pub mod rgd_xml;
pub mod messages;
pub mod extract_rules;
pub mod scalar_laws;
pub mod hash_laws;
