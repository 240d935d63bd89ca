//! The text of each error, as the command-line tools print it.
use vstd::prelude::*;

use vstd::string::{StrSliceExecFns, StringExecFns};

use crate::paths::MappingError;
use crate::reflect_bin::BinError;
use crate::reflect_compile::CompileError;
use crate::reflect_write::PlaceError;
use crate::rgd_patch::PatchError;
use crate::text::{decimal, decimal_string, lossy_string, utf8_lossy};

verus! {

fn lit(s: &str) -> (r: String)
    ensures
        r@ == s@,
{
    String::from_str(s)
}

fn join(a: &str, b: &str, c: &str) -> (r: String)
    ensures
        r@ == a@ + b@ + c@,
{
    let mut out: String = String::from_str(a);
    out.append(b);
    out.append(c);
    out
}

/// The lower-case hex digit of `d` (below 16).
pub open spec fn hex_char(d: nat) -> char {
    "0123456789abcdef"@[d as int]
}

/// `n` in lower-case hex without leading zeros.
pub open spec fn hex_text(n: nat) -> Seq<char>
    decreases n,
{
    if n < 16 {
        seq![hex_char(n)]
    } else {
        hex_text(n / 16).push(hex_char(n % 16))
    }
}

fn hex_of(n: u64) -> (r: String)
    ensures
        r@ == hex_text(n as nat),
    decreases n,
{
    let digits: &str = "0123456789abcdef";
    proof {
        reveal_strlit("0123456789abcdef");
    }
    let d: usize = (n % 16) as usize;
    let last: &str = digits.substring_char(d, d + 1);
    if n < 16 {
        let r: String = String::from_str(last);
        proof {
            assert(r@ =~= seq![hex_char(n as nat)]);
        }
        r
    } else {
        let mut r: String = hex_of(n / 16);
        r.append(last);
        proof {
            assert(r@ =~= hex_text((n / 16) as nat).push(hex_char((n % 16) as nat)));
        }
        r
    }
}

pub open spec fn place_message(e: PlaceError) -> Seq<char> {
    match e {
        PlaceError::MissingChild(id) => "child object "@ + decimal(id as nat) + " not found"@,
        PlaceError::TooLarge => "the object data outgrows the reflection blob limit"@,
        PlaceError::TooDeep => "objects or types contain themselves"@,
    }
}

pub open spec fn compile_message(e: CompileError) -> Seq<char> {
    match e {
        CompileError::Xml => "failed to parse .rdo xml"@,
        CompileError::NoRoot => "no root object (owner id 0) in .rdo"@,
        CompileError::UnknownType(t) => "type not in registry: "@ + t@,
        CompileError::Place(p) => place_message(p),
        CompileError::MissingChunk(n) => "reference .bin has no "@ + utf8_lossy(n@) + " chunk"@,
    }
}

pub open spec fn bin_message(e: BinError) -> Seq<char> {
    match e {
        BinError::Read(_) => "not a readable Relic Chunky container"@,
        BinError::Compile(c) => compile_message(c),
        BinError::NoSchema => "schema container has no RFDB chunk"@,
        BinError::NoObjectTable => "schema source has no ROBJ chunk"@,
        BinError::ShortObjectTable => "short ROBJ"@,
        BinError::NoRootObject => "no root object (owner id 0) in ROBJ"@,
        BinError::UnknownRootType(h) => "root type hash 0x"@ + hex_text(h as nat) + " not found in schema"@,
        BinError::NoSchemaFor(t) => "no bundled schema for root type '"@ + t@ + "'"@,
    }
}

pub open spec fn patch_message(e: PatchError) -> Seq<char> {
    match e {
        PatchError::Container(_) => "failed to parse RGD container"@,
        PatchError::ContainerNotByteExact => "refusing patch: Chunky container is not byte-exact on re-encode"@,
        PatchError::InvalidCString => "old and new CString values must be non-empty and contain no NUL bytes"@,
        PatchError::MultipleAegd => "more than one DATA AEGD chunk present"@,
        PatchError::AegdTooShort => "DATA AEGD chunk is too short"@,
        PatchError::RawList(_) => "failed to read the AEGD node list"@,
        PatchError::AegdNotByteExact => "refusing patch: parsed AEGD layout is not byte-exact on re-encode"@,
        PatchError::MissingAegd => "No DATA AEGD chunk present"@,
        PatchError::NonFiniteFloat => "old and new Float values must be finite"@,
    }
}

impl PlaceError {
    /// The error's text.
    pub fn message(&self) -> (r: String)
        ensures
            r@ == place_message(*self),
    {
        match self {
            PlaceError::MissingChild(id) => {
                let d: String = decimal_string(*id);
                join("child object ", d.as_str(), " not found")
            },
            PlaceError::TooLarge => lit("the object data outgrows the reflection blob limit"),
            PlaceError::TooDeep => lit("objects or types contain themselves"),
        }
    }
}

impl CompileError {
    /// The error's text.
    pub fn message(&self) -> (r: String)
        ensures
            r@ == compile_message(*self),
    {
        match self {
            CompileError::Xml => lit("failed to parse .rdo xml"),
            CompileError::NoRoot => lit("no root object (owner id 0) in .rdo"),
            CompileError::UnknownType(t) => {
                let r: String = join("type not in registry: ", t.as_str(), "");
                proof {
                    reveal_strlit("");
                    assert(r@ =~= "type not in registry: "@ + t@);
                }
                r
            },
            CompileError::Place(p) => p.message(),
            CompileError::MissingChunk(n) => {
                let name: String = lossy_string(n);
                join("reference .bin has no ", name.as_str(), " chunk")
            },
        }
    }
}

impl BinError {
    /// The error's text.
    pub fn message(&self) -> (r: String)
        ensures
            r@ == bin_message(*self),
    {
        match self {
            BinError::Read(_) => lit("not a readable Relic Chunky container"),
            BinError::Compile(c) => c.message(),
            BinError::NoSchema => lit("schema container has no RFDB chunk"),
            BinError::NoObjectTable => lit("schema source has no ROBJ chunk"),
            BinError::ShortObjectTable => lit("short ROBJ"),
            BinError::NoRootObject => lit("no root object (owner id 0) in ROBJ"),
            BinError::UnknownRootType(h) => {
                let x: String = hex_of(*h);
                join("root type hash 0x", x.as_str(), " not found in schema")
            },
            BinError::NoSchemaFor(t) => join("no bundled schema for root type '", t.as_str(), "'"),
        }
    }
}

impl PatchError {
    /// The error's text.
    pub fn message(&self) -> (r: String)
        ensures
            r@ == patch_message(*self),
    {
        match self {
            PatchError::Container(_) => lit("failed to parse RGD container"),
            PatchError::ContainerNotByteExact => lit("refusing patch: Chunky container is not byte-exact on re-encode"),
            PatchError::InvalidCString => lit("old and new CString values must be non-empty and contain no NUL bytes"),
            PatchError::MultipleAegd => lit("more than one DATA AEGD chunk present"),
            PatchError::AegdTooShort => lit("DATA AEGD chunk is too short"),
            PatchError::RawList(_) => lit("failed to read the AEGD node list"),
            PatchError::AegdNotByteExact => lit("refusing patch: parsed AEGD layout is not byte-exact on re-encode"),
            PatchError::MissingAegd => lit("No DATA AEGD chunk present"),
            PatchError::NonFiniteFloat => lit("old and new Float values must be finite"),
        }
    }
}

impl MappingError {
    /// The error's text.
    pub fn message(&self) -> (r: String)
        ensures
            r@ == "invalid graft-as mapping: "@ + self.value@,
    {
        let r: String = join("invalid graft-as mapping: ", self.value.as_str(), "");
        proof {
            reveal_strlit("");
            assert(r@ =~= "invalid graft-as mapping: "@ + self.value@);
        }
        r
    }
}

} // verus!
