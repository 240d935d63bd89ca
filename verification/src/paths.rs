//! Archive member paths, graft mappings and GUID text, as the archive tools
//! handle them.
use vstd::prelude::*;

use vstd::string::StringSliceAdditionalSpecFns;

verus! {

/// The text with every backslash turned into a forward slash.
pub open spec fn slashed(s: Seq<char>) -> Seq<char> {
    s.map_values(|c: char| if c == '\\' {
        '/'
    } else {
        c
    })
}

/// Archive paths use `\` on the wire; reports use `/`.
pub fn report_path(path: &str) -> (r: String)
    ensures
        r@ == slashed(path@),
{
    let n: usize = path.unicode_len();
    let mut out: String = String::new();
    let mut i: usize = 0;
    while i < n
        invariant
            n == path@.len(),
            i <= n,
            out@ == slashed(path@.subrange(0, i as int)),
        decreases n - i,
    {
        let c: char = path.get_char(i);
        if c == '\\' {
            out.append("/");
        } else {
            let piece: &str = path.substring_char(i, i + 1);
            out.append(piece);
        }
        proof {
            reveal_strlit("/");
            assert(slashed(path@.subrange(0, i + 1)) =~= slashed(path@.subrange(0, i as int)).push(
                if c == '\\' {
                    '/'
                } else {
                    c
                },
            ));
        }
        i += 1;
    }
    proof {
        assert(path@.subrange(0, i as int) =~= path@);
    }
    out
}

/// What `str::to_lowercase` makes of a text: each character's full Unicode
/// lower-case mapping.
pub uninterp spec fn lowercase(s: Seq<char>) -> Seq<char>;

/// Calls `str::to_lowercase`; the result depends on the text alone.
#[verifier::external_body]
pub(crate) fn lower(s: &str) -> (r: String)
    ensures
        r@ == lowercase(s@),
{
    s.to_lowercase()
}

/// A path as reports compare it: forward slashes, lower case.
pub fn normalized(path: &str) -> (r: String)
    ensures
        r@ == lowercase(slashed(path@)),
{
    let slashed_path: String = report_path(path);
    lower(slashed_path.as_str())
}

// ---------------------------------------------------------------------------
// Safe relative paths
// ---------------------------------------------------------------------------
/// Why an archive path cannot be written below an output directory.
#[derive(Debug, Clone, PartialEq, Eq)]
pub enum PathError {
    /// A `..` component, or one with a drive colon, would leave the directory.
    Escapes,
    /// No component is left.
    Empty,
}

pub open spec fn is_separator(c: char) -> bool {
    c == '\\' || c == '/'
}

/// The components of `s` between separators, in order, empty ones included.
pub open spec fn components(s: Seq<char>) -> Seq<Seq<char>>
    decreases s.len(),
{
    if s.len() == 0 {
        seq![Seq::empty()]
    } else {
        let rest = components(s.drop_last());
        if is_separator(s.last()) {
            rest.push(Seq::empty())
        } else {
            rest.update(rest.len() - 1, rest.last().push(s.last()))
        }
    }
}

/// The components kept: empty ones and `.` are skipped.
pub open spec fn kept(parts: Seq<Seq<char>>) -> Seq<Seq<char>>
    decreases parts.len(),
{
    if parts.len() == 0 {
        Seq::empty()
    } else {
        let rest = kept(parts.drop_last());
        let p = parts.last();
        if p.len() == 0 || p == seq!['.'] {
            rest
        } else {
            rest.push(p)
        }
    }
}

/// A component that would leave the directory.
pub open spec fn escapes(p: Seq<char>) -> bool {
    p == seq!['.', '.'] || p.contains(':')
}

/// The components of a safe relative path, or why there are none.
pub open spec fn spec_safe_relative(s: Seq<char>) -> Result<Seq<Seq<char>>, PathError> {
    let ks = kept(components(s));
    if any_escapes(ks) {
        Err(PathError::Escapes)
    } else if ks.len() == 0 {
        Err(PathError::Empty)
    } else {
        Ok(ks)
    }
}

pub open spec fn view_parts(v: Seq<String>) -> Seq<Seq<char>> {
    v.map_values(|s: String| s@)
}

proof fn lemma_components_nonempty(s: Seq<char>)
    ensures
        components(s).len() >= 1,
    decreases s.len(),
{
    if s.len() > 0 {
        lemma_components_nonempty(s.drop_last());
    }
}

pub open spec fn any_escapes(v: Seq<Seq<char>>) -> bool {
    exists|j: int| 0 <= j < v.len() && escapes(#[trigger] v[j])
}

proof fn lemma_push_escape(before: Seq<Seq<char>>, x: Seq<char>)
    ensures
        any_escapes(before.push(x)) == (any_escapes(before) || escapes(x)),
{
    let after = before.push(x);
    if any_escapes(before) {
        let j = choose|j: int| 0 <= j < before.len() && escapes(#[trigger] before[j]);
        assert(after[j] == before[j]);
    }
    if escapes(x) {
        assert(after[before.len() as int] == x);
    }
    if any_escapes(after) {
        let j = choose|j: int| 0 <= j < after.len() && escapes(#[trigger] after[j]);
        if j < before.len() {
            assert(after[j] == before[j]);
        }
    }
}

fn is_escape(p: &str) -> (r: bool)
    ensures
        r == escapes(p@),
{
    let n: usize = p.unicode_len();
    if n == 2 && p.get_char(0) == '.' && p.get_char(1) == '.' {
        assert(p@ =~= seq!['.', '.']);
        return true;
    }
    let mut i: usize = 0;
    while i < n
        invariant
            n == p@.len(),
            i <= n,
            forall|j: int| 0 <= j < i ==> p@[j] != ':',
        decreases n - i,
    {
        if p.get_char(i) == ':' {
            assert(p@.contains(':')) by {
                assert(p@[i as int] == ':');
            }
            return true;
        }
        i += 1;
    }
    proof {
        if p@ == seq!['.', '.'] {
            assert(p@.len() == 2 && p@[0] == '.' && p@[1] == '.');
        }
    }
    false
}

/// The components of an archive path below an output directory: separators
/// are `\` or `/`, empty and `.` components are dropped, and `..` or a
/// component with `:` is refused, as is a path with nothing left.
pub fn safe_relative(path: &str) -> (r: Result<Vec<String>, PathError>)
    ensures
        match spec_safe_relative(path@) {
            Ok(ks) => r matches Ok(v) && view_parts(v@) == ks,
            Err(e) => r == Err::<Vec<String>, PathError>(e),
        },
{
    let n: usize = path.unicode_len();
    let mut out: Vec<String> = Vec::new();
    let mut current: String = String::new();
    let mut escape: bool = false;
    let mut i: usize = 0;
    proof {
        reveal_strlit("");
        assert(path@.subrange(0, 0) =~= Seq::<char>::empty());
        assert(view_parts(out@) =~= Seq::<Seq<char>>::empty());
        assert(!any_escapes(view_parts(out@)));
    }
    while i < n
        invariant
            n == path@.len(),
            i <= n,
            components(path@.subrange(0, i as int)).len() >= 1,
            current@ == components(path@.subrange(0, i as int)).last(),
            view_parts(out@) == kept(components(path@.subrange(0, i as int)).drop_last()),
            escape == any_escapes(view_parts(out@)),
        decreases n - i,
    {
        let c: char = path.get_char(i);
        let ghost pre = path@.subrange(0, i as int);
        let ghost parts = components(pre);
        proof {
            assert(path@.subrange(0, i + 1).drop_last() =~= pre);
            assert(path@.subrange(0, i + 1).last() == c);
            lemma_components_nonempty(pre);
        }
        if c == '\\' || c == '/' {
            let mut piece: String = String::new();
            std::mem::swap(&mut piece, &mut current);
            let ghost before = view_parts(out@);
            let dot: bool = piece.as_str().unicode_len() == 1 && piece.as_str().get_char(0) == '.';
            if piece.as_str().unicode_len() == 0 || dot {
                proof {
                    assert(dot ==> piece@ =~= seq!['.']);
                }
            } else {
                let bad: bool = is_escape(piece.as_str());
                out.push(piece);
                proof {
                    assert(piece@ != seq!['.']) by {
                        if piece@ == seq!['.'] {
                            assert(piece@.len() == 1 && piece@[0] == '.');
                        }
                    }
                    assert(view_parts(out@) =~= before.push(piece@));
                    lemma_push_escape(before, piece@);
                }
                escape = escape || bad;
            }
            proof {
                let next = components(path@.subrange(0, i + 1));
                assert(next == parts.push(Seq::empty()));
                assert(next.drop_last() =~= parts);
                assert(parts =~= parts.drop_last().push(parts.last()));
            }
        } else {
            let piece: &str = path.substring_char(i, i + 1);
            current.append(piece);
            proof {
                let next = components(path@.subrange(0, i + 1));
                assert(next.drop_last() =~= parts.drop_last());
            }
        }
        i += 1;
    }
    proof {
        assert(path@.subrange(0, i as int) =~= path@);
        lemma_components_nonempty(path@);
    }
    let ghost parts = components(path@);
    let ghost before = view_parts(out@);
    let dot: bool = current.as_str().unicode_len() == 1 && current.as_str().get_char(0) == '.';
    if current.as_str().unicode_len() == 0 || dot {
        proof {
            assert(dot ==> current@ =~= seq!['.']);
            assert(parts =~= parts.drop_last().push(parts.last()));
        }
    } else {
        let bad: bool = is_escape(current.as_str());
        out.push(current);
        proof {
            assert(parts =~= parts.drop_last().push(parts.last()));
            assert(parts.last() != seq!['.']) by {
                if parts.last() == seq!['.'] {
                    assert(parts.last().len() == 1 && parts.last()[0] == '.');
                }
            }
            assert(view_parts(out@) =~= before.push(parts.last()));
            lemma_push_escape(before, parts.last());
        }
        escape = escape || bad;
    }
    proof {
        assert(view_parts(out@) == kept(parts));
    }
    if escape {
        return Err(PathError::Escapes);
    }
    if out.len() == 0 {
        return Err(PathError::Empty);
    }
    Ok(out)
}

} // verus!

verus! {

// ---------------------------------------------------------------------------
// Graft mappings
// ---------------------------------------------------------------------------
/// A `source=target` argument that is not one.
#[derive(Debug, Clone, PartialEq, Eq)]
pub struct MappingError {
    pub value: String,
}

/// The position of the first `=` in `s`.
pub open spec fn first_eq(s: Seq<char>) -> Option<int> {
    if exists|i: int| 0 <= i < s.len() && s[i] == '=' {
        Some(choose|i: int| 0 <= i < s.len() && s[i] == '=' && forall|j: int| 0 <= j < i ==> s[j] != '=')
    } else {
        None
    }
}

/// A mapping split at its first `=`, both sides non-empty.
pub open spec fn mapping_of(s: Seq<char>) -> Option<(Seq<char>, Seq<char>)> {
    match first_eq(s) {
        Some(i) => if i > 0 && i + 1 < s.len() {
            Some((s.subrange(0, i), s.subrange(i + 1, s.len() as int)))
        } else {
            None
        },
        None => None,
    }
}

fn split_mapping(value: &str) -> (r: Option<(String, String)>)
    ensures
        match mapping_of(value@) {
            Some((a, b)) => r matches Some((x, y)) && x@ == a && y@ == b,
            None => r is None,
        },
{
    let n: usize = value.unicode_len();
    let mut i: usize = 0;
    while i < n
        invariant
            n == value@.len(),
            i <= n,
            forall|j: int| 0 <= j < i ==> value@[j] != '=',
        decreases n - i,
    {
        if value.get_char(i) == '=' {
            proof {
                assert(first_eq(value@) == Some(i as int));
            }
            if i == 0 || i + 1 >= n {
                return None;
            }
            let source: String = value.substring_char(0, i).to_owned();
            let target: String = value.substring_char(i + 1, n).to_owned();
            return Some((source, target));
        }
        i += 1;
    }
    None
}

pub open spec fn view_pairs(v: Seq<(String, String)>) -> Seq<(Seq<char>, Seq<char>)> {
    v.map_values(|p: (String, String)| (p.0@, p.1@))
}

/// Parses `source=target` pairs; the first argument that is not one is the
/// error.
pub fn parse_mappings(values: &[String]) -> (r: Result<Vec<(String, String)>, MappingError>)
    ensures
        match r {
            Ok(v) => v@.len() == values@.len() && forall|k: int|
                0 <= k < values@.len() ==> mapping_of(values@[k]@) == Some(view_pairs(v@)[k]),
            Err(e) => exists|k: int|
                0 <= k < values@.len() && mapping_of(values@[k]@) is None && e.value@ == values@[k]@
                    && forall|j: int| 0 <= j < k ==> mapping_of(#[trigger] values@[j]@) is Some,
        },
{
    let mut out: Vec<(String, String)> = Vec::new();
    let mut i: usize = 0;
    while i < values.len()
        invariant
            i <= values@.len(),
            out@.len() == i,
            forall|k: int| 0 <= k < i ==> mapping_of(values@[k]@) == Some(view_pairs(out@)[k]),
        decreases values.len() - i,
    {
        match split_mapping(values[i].as_str()) {
            Some(pair) => {
                let ghost before = out@;
                out.push(pair);
                proof {
                    assert(view_pairs(out@) =~= view_pairs(before).push((pair.0@, pair.1@)));
                }
            },
            None => {
                proof {
                    assert forall|j: int| 0 <= j < i implies mapping_of(#[trigger] values@[j]@) is Some by {
                        assert(mapping_of(values@[j]@) == Some(view_pairs(out@)[j]));
                    }
                }
                return Err(MappingError { value: values[i].clone() });
            },
        }
        i += 1;
    }
    Ok(out)
}

// ---------------------------------------------------------------------------
// GUIDs and output formats
// ---------------------------------------------------------------------------
pub open spec fn is_hex(c: char) -> bool {
    ('0' <= c && c <= '9') || ('a' <= c && c <= 'f') || ('A' <= c && c <= 'F')
}

/// Thirty-two hex digits get the dashes of a GUID (8-4-4-4-12); anything
/// else is kept as it is.
pub open spec fn spec_format_guid(s: Seq<char>) -> Seq<char> {
    if s.len() == 32 && forall|i: int| 0 <= i < 32 ==> is_hex(#[trigger] s[i]) {
        s.subrange(0, 8) + seq!['-'] + s.subrange(8, 12) + seq!['-'] + s.subrange(12, 16) + seq!['-']
            + s.subrange(16, 20) + seq!['-'] + s.subrange(20, 32)
    } else {
        s
    }
}

fn hex_char(c: char) -> (r: bool)
    ensures
        r == is_hex(c),
{
    ('0' <= c && c <= '9') || ('a' <= c && c <= 'f') || ('A' <= c && c <= 'F')
}

/// A GUID in its dashed form, when `raw` is 32 hex digits.
pub fn format_guid(raw: &str) -> (r: String)
    ensures
        r@ == spec_format_guid(raw@),
{
    let n: usize = raw.unicode_len();
    if n != 32 {
        return raw.to_owned();
    }
    let mut i: usize = 0;
    while i < 32
        invariant
            n == raw@.len(),
            n == 32,
            i <= 32,
            forall|j: int| 0 <= j < i ==> is_hex(#[trigger] raw@[j]),
        decreases 32 - i,
    {
        if !hex_char(raw.get_char(i)) {
            return raw.to_owned();
        }
        i += 1;
    }
    let mut out: String = raw.substring_char(0, 8).to_owned();
    out.append("-");
    out.append(raw.substring_char(8, 12));
    out.append("-");
    out.append(raw.substring_char(12, 16));
    out.append("-");
    out.append(raw.substring_char(16, 20));
    out.append("-");
    out.append(raw.substring_char(20, 32));
    proof {
        reveal_strlit("-");
        assert(out@ =~= spec_format_guid(raw@));
    }
    out
}

/// The text with every forward slash turned into a backslash.
pub open spec fn backslashed(s: Seq<char>) -> Seq<char> {
    s.map_values(|c: char| if c == '/' {
        '\\'
    } else {
        c
    })
}

/// The mod editor writes paths with `\`.
pub fn editor_path(path: &str) -> (r: String)
    ensures
        r@ == backslashed(path@),
{
    let n: usize = path.unicode_len();
    let mut out: String = String::new();
    let mut i: usize = 0;
    while i < n
        invariant
            n == path@.len(),
            i <= n,
            out@ == backslashed(path@.subrange(0, i as int)),
        decreases n - i,
    {
        let c: char = path.get_char(i);
        if c == '/' {
            out.append("\\");
        } else {
            let piece: &str = path.substring_char(i, i + 1);
            out.append(piece);
        }
        proof {
            reveal_strlit("\\");
            assert(backslashed(path@.subrange(0, i + 1)) =~= backslashed(path@.subrange(0, i as int)).push(
                if c == '/' {
                    '\\'
                } else {
                    c
                },
            ));
        }
        i += 1;
    }
    proof {
        assert(path@.subrange(0, i as int) =~= path@);
    }
    out
}

/// The `.aoe4mod` project file of a mod whose archive names it `name` (its
/// GUID, dashed where it is 32 hex digits), with the path of its loc-db
/// relative to the mod root where there is one (`locdb` not empty). The
/// other fields are the editor's fixed conventions.
pub open spec fn spec_mod_project(name: Seq<char>, locdb: Seq<char>) -> Seq<char> {
    "\u{feff}<?xml version=\"1.0\" encoding=\"utf-8\"?>\r\n"@
        + "<Mod xmlns:i=\"http://www.w3.org/2001/XMLSchema-instance\" xmlns=\"http://schemas.datacontract.org/2004/07/Essence.Editor.Modding\">\r\n"@
        + "\t<DataGenericPath>assets</DataGenericPath>\r\n"@ + "\t<DataIntermediatePath>cache</DataIntermediatePath>\r\n"@
        + "\t<ID>"@ + spec_format_guid(name) + "</ID>\r\n"@ + (if locdb.len() == 0 {
        Seq::empty()
    } else {
        "\t<LocDBPath>"@ + locdb + "</LocDBPath>\r\n"@
    }) + "\t<Type>Extension</Type>\r\n"@ + "</Mod>"@
}

/// The text of a mod's `.aoe4mod` project file (see `spec_mod_project`).
pub fn mod_project(name: &str, locdb: &str) -> (r: String)
    ensures
        r@ == spec_mod_project(name@, locdb@),
{
    let mut xml: String = String::new();
    xml.append("\u{feff}<?xml version=\"1.0\" encoding=\"utf-8\"?>\r\n");
    xml.append(
        "<Mod xmlns:i=\"http://www.w3.org/2001/XMLSchema-instance\" xmlns=\"http://schemas.datacontract.org/2004/07/Essence.Editor.Modding\">\r\n",
    );
    xml.append("\t<DataGenericPath>assets</DataGenericPath>\r\n");
    xml.append("\t<DataIntermediatePath>cache</DataIntermediatePath>\r\n");
    xml.append("\t<ID>");
    let guid: String = format_guid(name);
    xml.append(guid.as_str());
    xml.append("</ID>\r\n");
    if locdb.unicode_len() > 0 {
        xml.append("\t<LocDBPath>");
        xml.append(locdb);
        xml.append("</LocDBPath>\r\n");
    }
    xml.append("\t<Type>Extension</Type>\r\n");
    xml.append("</Mod>");
    proof {
        assert(xml@ =~= spec_mod_project(name@, locdb@));
    }
    xml
}

/// The format extracted game data is decoded into.
#[derive(Debug, Clone, Copy, PartialEq, Eq)]
pub enum RgdFormat {
    Xml,
    Json,
    /// Leave the files as they are.
    Keep,
}

impl RgdFormat {
    /// The file extension of the format, if it writes one.
    pub fn extension(&self) -> (r: Option<&'static str>)
        ensures
            match *self {
                RgdFormat::Xml => r matches Some(e) && e@ == "xml"@,
                RgdFormat::Json => r matches Some(e) && e@ == "json"@,
                RgdFormat::Keep => r is None,
            },
    {
        match self {
            RgdFormat::Xml => Some("xml"),
            RgdFormat::Json => Some("json"),
            RgdFormat::Keep => None,
        }
    }
}

} // verus!
