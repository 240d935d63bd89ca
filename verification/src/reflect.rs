//! A readable summary of a reflection file: its type schema (`RFTY`), the
//! interned strings (`RSHI`) and the configured string values (`RFCI`).
use vstd::prelude::*;

use crate::container::{view_chunk, Chunk, Chunky, SpecBody, SpecChunk, SpecChunky};
use crate::le::{le32, le64, read_u32, read_u64};
use crate::walk::{data_list, view_refs};
use crate::text::{
    all_ascii, ascii_chars, debug_quoted, debug_text, hex16, hex16_string, lemma_ascii_decodes, lossy_string,
    utf8_lossy,
};

verus! {

#[derive(Debug, Clone, PartialEq, Eq)]
pub struct ReflectType {
    pub name: String,
    pub fields: Vec<(String, Option<String>)>,
}

#[derive(Debug, Clone, PartialEq, Eq)]
pub struct InternedString {
    pub hash: u64,
    pub value: String,
}

#[derive(Debug, Clone, PartialEq, Eq, Default)]
pub struct ReflectFile {
    pub types: Vec<ReflectType>,
    pub interned_strings: Vec<InternedString>,
    pub object_strings: Vec<String>,
}

/// A printable ASCII byte, `0x20..=0x7e`.
pub open spec fn printable(b: u8) -> bool {
    0x20 <= b <= 0x7e
}

pub open spec fn all_printable(s: Seq<u8>) -> bool {
    forall|i: int| 0 <= i < s.len() ==> printable(#[trigger] s[i])
}

/// The length-prefixed printable string at `off` (1 to 512 bytes), with the
/// number of bytes it takes including its prefix.
pub open spec fn spec_pascal_at(b: Seq<u8>, off: int) -> Option<(Seq<u8>, int)> {
    if off + 4 > b.len() {
        None
    } else {
        let len = le32(b, off);
        if len == 0 || len > 512 || off + 4 + len > b.len() {
            None
        } else if all_printable(b.subrange(off + 4, off + 4 + len)) {
            Some((b.subrange(off + 4, off + 4 + len), 4 + len))
        } else {
            None
        }
    }
}

pub proof fn lemma_printable_ascii(s: Seq<u8>)
    requires
        all_printable(s),
    ensures
        all_ascii(s),
        vstd::utf8::decode_utf8(s) == ascii_chars(s),
        vstd::utf8::valid_utf8(s),
{
    assert forall|i: int| 0 <= i < s.len() implies #[trigger] s[i] < 128 by {
        assert(printable(s[i]));
    }
    lemma_ascii_decodes(s);
}

/// The text of printable bytes.
fn ascii_string(s: &[u8]) -> (r: String)
    requires
        all_printable(s@),
    ensures
        r@ == ascii_chars(s@),
{
    proof {
        lemma_printable_ascii(s@);
    }
    lossy_string(s)
}

fn is_printable(b: u8) -> (r: bool)
    ensures
        r == printable(b),
{
    0x20 <= b && b <= 0x7e
}

fn all_printable_bytes(s: &[u8]) -> (r: bool)
    ensures
        r == all_printable(s@),
{
    let mut i: usize = 0;
    while i < s.len()
        invariant
            i <= s@.len(),
            forall|k: int| 0 <= k < i ==> printable(#[trigger] s@[k]),
        decreases s.len() - i,
    {
        if !is_printable(s[i]) {
            assert(!printable(s@[i as int]));
            return false;
        }
        i += 1;
    }
    true
}

fn pascal_bytes(bytes: &[u8], off: usize) -> (r: Option<(&[u8], usize)>)
    ensures
        match spec_pascal_at(bytes@, off as int) {
            None => r is None,
            Some((s, n)) => r matches Some((t, m)) && t@ == s && m == n,
        },
{
    let len: u32 = match read_u32(bytes, off) {
        Some(l) => l,
        None => {
            return None;
        },
    };
    assert(len as int == le32(bytes@, off as int));
    if len == 0 || len > 512 || len as usize > bytes.len() - off - 4 {
        return None;
    }
    let start: usize = off + 4;
    let end: usize = start + len as usize;
    let s: &[u8] = vstd::slice::slice_subrange(bytes, start, end);
    if !all_printable_bytes(s) {
        return None;
    }
    Some((s, 4 + len as usize))
}

/// Runs of printable bytes in `b` from `i`, given that the current run began
/// at `start`; runs shorter than `min_len` are dropped.
pub open spec fn packed_runs(b: Seq<u8>, i: int, start: Option<int>, min_len: int) -> Seq<Seq<u8>>
    decreases b.len() - i,
{
    if i >= b.len() {
        match start {
            Some(s) => if b.len() - s >= min_len {
                seq![b.subrange(s, b.len() as int)]
            } else {
                Seq::empty()
            },
            None => Seq::empty(),
        }
    } else if printable(b[i]) {
        match start {
            None => packed_runs(b, i + 1, Some(i), min_len),
            Some(s) => packed_runs(b, i + 1, Some(s), min_len),
        }
    } else {
        match start {
            None => packed_runs(b, i + 1, None, min_len),
            Some(s) => if i - s >= min_len {
                seq![b.subrange(s, i)] + packed_runs(b, i + 1, None, min_len)
            } else {
                packed_runs(b, i + 1, None, min_len)
            },
        }
    }
}

pub open spec fn view_strings(v: Seq<String>) -> Seq<Seq<char>> {
    v.map_values(|s: String| s@)
}

pub open spec fn ascii_all(v: Seq<Seq<u8>>) -> Seq<Seq<char>> {
    v.map_values(|s: Seq<u8>| ascii_chars(s))
}

/// The maximal runs of printable ASCII in `bytes` that are at least `min_len`
/// long, in order.
fn packed_strings(bytes: &[u8], min_len: usize) -> (out: Vec<String>)
    ensures
        view_strings(out@) == ascii_all(packed_runs(bytes@, 0, None, min_len as int)),
{
    let mut out: Vec<String> = Vec::new();
    let mut start: Option<usize> = None;
    let mut i: usize = 0;
    let ghost goal = packed_runs(bytes@, 0, None, min_len as int);
    let ghost sv: Option<int> = None;
    proof {
        assert(view_strings(out@) + ascii_all(goal) =~= ascii_all(goal));
    }
    while i < bytes.len()
        invariant
            i <= bytes@.len(),
            sv == (match start {
                Some(s) => Some(s as int),
                None => None::<int>,
            }),
            start matches Some(s) ==> s < i && all_printable(bytes@.subrange(s as int, i as int)),
            view_strings(out@) + ascii_all(packed_runs(bytes@, i as int, sv, min_len as int))
                == ascii_all(goal),
        decreases bytes.len() - i,
    {
        let b: u8 = bytes[i];
        let p: bool = is_printable(b);
        if p {
            if start.is_none() {
                start = Some(i);
                proof {
                    sv = Some(i as int);
                }
            }
            proof {
                let s = sv->Some_0;
                assert(bytes@.subrange(s, i + 1) =~= bytes@.subrange(s, i as int).push(b));
            }
        } else {
            if let Some(s) = start {
                if i - s >= min_len {
                    let run: &[u8] = vstd::slice::slice_subrange(bytes, s, i);
                    let text: String = ascii_string(run);
                    let ghost before = out@;
                    out.push(text);
                    proof {
                        assert(view_strings(out@) =~= view_strings(before).push(text@));
                        let rest = packed_runs(bytes@, i + 1, None, min_len as int);
                        assert(ascii_all(seq![run@] + rest) =~= seq![ascii_chars(run@)]
                            + ascii_all(rest));
                        assert(view_strings(before).push(text@) + ascii_all(rest) =~= view_strings(
                            before,
                        ) + (seq![ascii_chars(run@)] + ascii_all(rest)));
                    }
                }
                start = None;
                proof {
                    sv = None;
                }
            }
        }
        i += 1;
    }
    if let Some(s) = start {
        if bytes.len() - s >= min_len {
            let run: &[u8] = vstd::slice::slice_subrange(bytes, s, bytes.len());
            let text: String = ascii_string(run);
            let ghost before = out@;
            out.push(text);
            proof {
                assert(view_strings(out@) =~= view_strings(before).push(text@));
                assert(ascii_all(seq![run@]) =~= seq![ascii_chars(run@)]);
            }
        } else {
            proof {
                assert(view_strings(out@) + Seq::<Seq<char>>::empty() =~= view_strings(out@));
            }
        }
    } else {
        proof {
            assert(view_strings(out@) + Seq::<Seq<char>>::empty() =~= view_strings(out@));
        }
    }
    out
}

} // verus!

verus! {

// ---------------------------------------------------------------------------
// Type tokens
// ---------------------------------------------------------------------------
/// A character that may begin a type or field name.
pub open spec fn token_start(c: char) -> bool {
    ('a' <= c && c <= 'z') || ('A' <= c && c <= 'Z') || c == '_'
}

/// A character that may appear in a type or field name, templates included.
pub open spec fn token_char(c: char) -> bool {
    ||| 'a' <= c && c <= 'z'
    ||| 'A' <= c && c <= 'Z'
    ||| '0' <= c && c <= '9'
    ||| c == '_' || c == ':' || c == '<' || c == '>'
    ||| c == ',' || c == '*' || c == ' '
}

/// A non-empty identifier-like string: a letter or `_`, then letters, digits
/// and the punctuation of C++ type names.
pub open spec fn type_token(s: Seq<char>) -> bool {
    &&& s.len() > 0
    &&& token_start(s[0])
    &&& forall|i: int| 0 <= i < s.len() ==> token_char(#[trigger] s[i])
}

fn token_start_byte(b: u8) -> (r: bool)
    ensures
        r == token_start(b as char),
{
    (0x61 <= b && b <= 0x7a) || (0x41 <= b && b <= 0x5a) || b == 0x5f
}

fn token_byte(b: u8) -> (r: bool)
    ensures
        r == token_char(b as char),
{
    (0x61 <= b && b <= 0x7a) || (0x41 <= b && b <= 0x5a) || (0x30 <= b && b <= 0x39) || b == 0x5f
        || b == 0x3a || b == 0x3c || b == 0x3e || b == 0x2c || b == 0x2a || b == 0x20
}

/// Whether the bytes, read one character each, form a type token.
fn token_bytes(b: &[u8]) -> (r: bool)
    ensures
        r == type_token(ascii_chars(b@)),
{
    let ghost cs = ascii_chars(b@);
    if b.len() == 0 {
        return false;
    }
    if !token_start_byte(b[0]) {
        return false;
    }
    let mut i: usize = 0;
    while i < b.len()
        invariant
            i <= b@.len(),
            cs == ascii_chars(b@),
            forall|k: int| 0 <= k < i ==> token_char(#[trigger] cs[k]),
        decreases b.len() - i,
    {
        if !token_byte(b[i]) {
            assert(!token_char(cs[i as int]));
            return false;
        }
        i += 1;
    }
    true
}

fn is_type_token(s: &str) -> (r: bool)
    ensures
        r == type_token(s@),
{
    if !s.is_ascii() {
        proof {
            let i = choose|i: int| 0 <= i < s@.len() && !('\0' <= #[trigger] s@[i] <= '\u{7f}');
            assert(!token_char(s@[i]));
        }
        return false;
    }
    let b: &[u8] = s.as_bytes();
    proof {
        vstd::utf8::is_ascii_chars_encode_utf8(s@);
        assert(ascii_chars(b@) =~= s@);
    }
    token_bytes(b)
}

} // verus!

verus! {

/// The type tokens of an `RFTY` body: scanning from `off`, each length-prefixed
/// printable string that is a type token is taken whole, and anything else
/// is skipped one byte at a time, while more than four bytes remain.
pub open spec fn scan_tokens(b: Seq<u8>, off: int) -> Seq<Seq<u8>>
    decreases b.len() - off,
{
    if off < 0 || off + 4 >= b.len() {
        Seq::empty()
    } else {
        match spec_pascal_at(b, off) {
            Some((s, n)) => if type_token(ascii_chars(s)) {
                seq![s] + scan_tokens(b, off + n)
            } else {
                scan_tokens(b, off + 1)
            },
            None => scan_tokens(b, off + 1),
        }
    }
}

pub open spec fn view_slices(v: Seq<&[u8]>) -> Seq<Seq<u8>> {
    v.map_values(|s: &[u8]| s@)
}

fn scan_type_tokens(bytes: &[u8]) -> (out: Vec<&[u8]>)
    ensures
        view_slices(out@) == scan_tokens(bytes@, 0),
        forall|i: int| 0 <= i < out@.len() ==> all_printable(#[trigger] out@[i]@),
{
    let mut out: Vec<&[u8]> = Vec::new();
    let mut off: usize = 0;
    proof {
        assert(view_slices(out@) + scan_tokens(bytes@, 0) =~= scan_tokens(bytes@, 0));
    }
    while off < bytes.len() && bytes.len() - off > 4
        invariant
            off <= bytes@.len(),
            view_slices(out@) + scan_tokens(bytes@, off as int) == scan_tokens(bytes@, 0),
            forall|i: int| 0 <= i < out@.len() ==> all_printable(#[trigger] out@[i]@),
        decreases bytes.len() - off,
    {
        match pascal_bytes(bytes, off) {
            Some((s, n)) => {
                if token_bytes(s) {
                    let ghost before = out@;
                    out.push(s);
                    proof {
                        assert(view_slices(out@) =~= view_slices(before).push(s@));
                        assert(view_slices(before).push(s@) + scan_tokens(bytes@, off + n)
                            =~= view_slices(before) + (seq![s@] + scan_tokens(bytes@, off + n)));
                    }
                    off = off + n;
                } else {
                    off = off + 1;
                }
            },
            None => {
                off = off + 1;
            },
        }
    }
    proof {
        assert(scan_tokens(bytes@, off as int) =~= Seq::<Seq<u8>>::empty());
        assert(view_slices(out@) + Seq::<Seq<u8>>::empty() =~= view_slices(out@));
    }
    out
}

// ---------------------------------------------------------------------------
// RFTY: one type and its fields
// ---------------------------------------------------------------------------
/// A field name: it begins with `m_`.
pub open spec fn is_member(t: Seq<char>) -> bool {
    t.len() >= 2 && t[0] == 'm' && t[1] == '_'
}

/// Pairs field names with the type name that follows each: a member name
/// opens a field; the first other token after it is its type; further
/// tokens, and tokens before any field, are ignored.
pub open spec fn pair_fields(toks: Seq<Seq<char>>) -> Seq<(Seq<char>, Option<Seq<char>>)>
    decreases toks.len(),
{
    if toks.len() == 0 {
        Seq::empty()
    } else {
        let prev = pair_fields(toks.drop_last());
        let t = toks.last();
        if is_member(t) {
            prev.push((t, None))
        } else if prev.len() > 0 && prev.last().1 is None {
            prev.update(prev.len() - 1, (prev.last().0, Some(t)))
        } else {
            prev
        }
    }
}

/// What an `RFTY` body describes: the first token names the type, the rest
/// give its fields.
pub open spec fn spec_rfty(b: Seq<u8>) -> Option<(Seq<char>, Seq<(Seq<char>, Option<Seq<char>>)>)> {
    let toks = ascii_all(scan_tokens(b, 0));
    if toks.len() == 0 {
        None
    } else {
        Some((toks[0], pair_fields(toks.subrange(1, toks.len() as int))))
    }
}

pub open spec fn view_opt(o: Option<String>) -> Option<Seq<char>> {
    match o {
        Some(s) => Some(s@),
        None => None,
    }
}

pub open spec fn view_fields(v: Seq<(String, Option<String>)>) -> Seq<(Seq<char>, Option<Seq<char>>)> {
    v.map_values(|p: (String, Option<String>)| (p.0@, view_opt(p.1)))
}

impl ReflectType {
    pub open spec fn spec_view(&self) -> (Seq<char>, Seq<(Seq<char>, Option<Seq<char>>)>) {
        (self.name@, view_fields(self.fields@))
    }
}

fn is_member_bytes(t: &[u8]) -> (r: bool)
    ensures
        r == is_member(ascii_chars(t@)),
{
    t.len() >= 2 && t[0] == 0x6d && t[1] == 0x5f
}

fn parse_rfty(bytes: &[u8]) -> (r: Option<ReflectType>)
    ensures
        match spec_rfty(bytes@) {
            None => r is None,
            Some(v) => r matches Some(t) && t.spec_view() == v,
        },
{
    let toks: Vec<&[u8]> = scan_type_tokens(bytes);
    let ghost all = ascii_all(scan_tokens(bytes@, 0));
    proof {
        assert(all.len() == toks@.len());
    }
    if toks.len() == 0 {
        return None;
    }
    let name: String = ascii_string(toks[0]);
    proof {
        assert(all[0] == ascii_chars(toks@[0]@));
    }
    let mut fields: Vec<(String, Option<String>)> = Vec::new();
    let mut i: usize = 1;
    proof {
        assert(all.subrange(1, 1) =~= Seq::<Seq<char>>::empty());
        assert(view_fields(fields@) =~= pair_fields(all.subrange(1, 1)));
    }
    while i < toks.len()
        invariant
            1 <= i <= toks@.len(),
            all.len() == toks@.len(),
            all == ascii_all(view_slices(toks@)),
            forall|k: int| 0 <= k < toks@.len() ==> all_printable(#[trigger] toks@[k]@),
            view_fields(fields@) == pair_fields(all.subrange(1, i as int)),
        decreases toks.len() - i,
    {
        let t: &[u8] = toks[i];
        let text: String = ascii_string(t);
        let ghost prev = pair_fields(all.subrange(1, i as int));
        proof {
            assert(all[i as int] == ascii_chars(t@));
            assert(all.subrange(1, i + 1).drop_last() =~= all.subrange(1, i as int));
            assert(all.subrange(1, i + 1).last() == all[i as int]);
        }
        if is_member_bytes(t) {
            let ghost before = fields@;
            fields.push((text, None));
            proof {
                assert(view_fields(fields@) =~= view_fields(before).push((text@, None)));
            }
        } else if fields.len() > 0 && fields[fields.len() - 1].1.is_none() {
            let ghost before = fields@;
            let last: (String, Option<String>) = fields.pop().unwrap();
            let field_name: String = last.0;
            fields.push((field_name, Some(text)));
            proof {
                assert(view_fields(fields@) =~= view_fields(before).update(
                    before.len() - 1,
                    (before.last().0@, Some(text@)),
                ));
            }
        }
        i += 1;
    }
    proof {
        assert(all.subrange(1, i as int) =~= all.subrange(1, all.len() as int));
    }
    Some(ReflectType { name, fields })
}

} // verus!

verus! {

// ---------------------------------------------------------------------------
// RSHI: hashed interned strings
// ---------------------------------------------------------------------------
/// Up to `count` entries from `off`: a `u64` hash, a `u32` length and that
/// many bytes each, stopping at the first entry that does not fit.
pub open spec fn rshi_entries(b: Seq<u8>, off: int, count: nat) -> Seq<(u64, Seq<u8>)>
    decreases count,
{
    if count == 0 || off < 0 || off + 12 > b.len() {
        Seq::empty()
    } else {
        let n = le32(b, off + 8);
        if off + 12 + n > b.len() {
            Seq::empty()
        } else {
            seq![(le64(b, off) as u64, b.subrange(off + 12, off + 12 + n))] + rshi_entries(
                b,
                off + 12 + n,
                (count - 1) as nat,
            )
        }
    }
}

/// An `RSHI` body: a `u64` entry count, then the entries.
pub open spec fn spec_rshi(b: Seq<u8>) -> Seq<(u64, Seq<u8>)> {
    if b.len() < 8 {
        Seq::empty()
    } else {
        rshi_entries(b, 8, le64(b, 0) as nat)
    }
}

/// Interned strings as hashes and text, the text decoded as
/// `String::from_utf8_lossy` decodes it.
pub open spec fn lossy_entries(v: Seq<(u64, Seq<u8>)>) -> Seq<(u64, Seq<char>)> {
    v.map_values(|e: (u64, Seq<u8>)| (e.0, utf8_lossy(e.1)))
}

pub open spec fn view_interned(v: Seq<InternedString>) -> Seq<(u64, Seq<char>)> {
    v.map_values(|s: InternedString| (s.hash, s.value@))
}

fn parse_rshi(bytes: &[u8]) -> (out: Vec<InternedString>)
    ensures
        view_interned(out@) == lossy_entries(spec_rshi(bytes@)),
{
    let mut out: Vec<InternedString> = Vec::new();
    let count: u64 = match read_u64(bytes, 0) {
        Some(c) => c,
        None => {
            proof {
                assert(view_interned(out@) =~= lossy_entries(spec_rshi(bytes@)));
            }
            return out;
        },
    };
    let ghost goal = lossy_entries(spec_rshi(bytes@));
    let mut off: usize = 8;
    let mut done: u64 = 0;
    proof {
        assert(view_interned(out@) + lossy_entries(rshi_entries(bytes@, 8, count as nat)) =~= goal);
    }
    while done < count
        invariant
            off <= bytes@.len(),
            done <= count,
            view_interned(out@) + lossy_entries(
                rshi_entries(bytes@, off as int, (count - done) as nat),
            ) == goal,
        ensures
            view_interned(out@) + lossy_entries(
                rshi_entries(bytes@, off as int, (count - done) as nat),
            ) == goal,
            rshi_entries(bytes@, off as int, (count - done) as nat) == Seq::<(u64, Seq<u8>)>::empty(),
        decreases count - done,
    {
        let ghost rest = (count - done) as nat;
        let hash_at: Option<u64> = read_u64(bytes, off);
        let len_at: Option<u32> = if hash_at.is_some() {
            let total: usize = bytes.len();
            assert(off + 8 <= total);
            read_u32(bytes, off + 8)
        } else {
            None
        };
        if hash_at.is_none() || len_at.is_none() {
            proof {
                assert(rshi_entries(bytes@, off as int, rest) =~= Seq::<(u64, Seq<u8>)>::empty());
            }
            break;
        }
        let hash: u64 = hash_at.unwrap();
        let len: u32 = len_at.unwrap();
        if len as usize > bytes.len() - off - 12 {
            proof {
                assert(rshi_entries(bytes@, off as int, rest) =~= Seq::<(u64, Seq<u8>)>::empty());
            }
            break;
        }
        let end: usize = off + 12 + len as usize;
        let raw: &[u8] = vstd::slice::slice_subrange(bytes, off + 12, end);
        let value: String = lossy_string(raw);
        let ghost before = out@;
        out.push(InternedString { hash, value });
        proof {
            let e = (hash, raw@);
            let tail = rshi_entries(bytes@, end as int, (rest - 1) as nat);
            assert(rshi_entries(bytes@, off as int, rest) == seq![e] + tail);
            assert(view_interned(out@) =~= view_interned(before).push((hash, utf8_lossy(raw@))));
            assert(lossy_entries(seq![e] + tail) =~= seq![(hash, utf8_lossy(raw@))]
                + lossy_entries(tail));
            assert(view_interned(before).push((hash, utf8_lossy(raw@))) + lossy_entries(tail)
                =~= view_interned(before) + lossy_entries(seq![e] + tail));
        }
        off = end;
        done = done + 1;
    }
    proof {
        assert(view_interned(out@) + lossy_entries(Seq::<(u64, Seq<u8>)>::empty()) =~= view_interned(out@));
    }
    out
}

} // verus!

verus! {

/// The reflection data of a container, as plain values.
pub struct SpecReflectFile {
    pub types: Seq<(Seq<char>, Seq<(Seq<char>, Option<Seq<char>>)>)>,
    pub interned: Seq<(u64, Seq<char>)>,
    pub objects: Seq<Seq<char>>,
}

impl ReflectFile {
    pub open spec fn spec_view(&self) -> SpecReflectFile {
        SpecReflectFile {
            types: self.types@.map_values(|t: ReflectType| t.spec_view()),
            interned: view_interned(self.interned_strings@),
            objects: view_strings(self.object_strings@),
        }
    }
}

pub open spec fn tag(a: u8, b: u8, c: u8, d: u8) -> Seq<u8> {
    seq![a, b, c, d]
}

/// The minimum length of a configured string value in an `RFCI` body.
pub const OBJECT_STRING_MIN: usize = 6;

/// Reads the data chunks in order: every `RFTY` adds the type it describes,
/// if any; the last `RSHI` gives the interned strings and the last `RFCI`
/// the configured strings. The flag says whether an `RFTY` was seen.
pub open spec fn reflect_scan(cs: Seq<SpecChunk>) -> (bool, SpecReflectFile)
    decreases cs.len(),
{
    if cs.len() == 0 {
        (false, SpecReflectFile { types: Seq::empty(), interned: Seq::empty(), objects: Seq::empty() })
    } else {
        let (saw, f) = reflect_scan(cs.drop_last());
        let c = cs.last();
        match c.body {
            SpecBody::Data(d) => if c.name == tag(0x52, 0x46, 0x54, 0x59) {
                (
                    true,
                    match spec_rfty(d) {
                        Some(t) => SpecReflectFile { types: f.types.push(t), ..f },
                        None => f,
                    },
                )
            } else if c.name == tag(0x52, 0x53, 0x48, 0x49) {
                (saw, SpecReflectFile { interned: lossy_entries(spec_rshi(d)), ..f })
            } else if c.name == tag(0x52, 0x46, 0x43, 0x49) {
                (
                    saw,
                    SpecReflectFile {
                        objects: ascii_all(packed_runs(d, 0, None, OBJECT_STRING_MIN as int)),
                        ..f
                    },
                )
            } else {
                (saw, f)
            },
            SpecBody::Folder(_) => (saw, f),
        }
    }
}

/// The reflection data of a container: present when it has an `RFTY` chunk.
pub open spec fn spec_reflect_file(c: SpecChunky) -> Option<SpecReflectFile> {
    let (saw, f) = reflect_scan(data_list(c.chunks));
    if saw {
        Some(f)
    } else {
        None
    }
}

fn name_is(name: &[u8; 4], a: u8, b: u8, c: u8, d: u8) -> (r: bool)
    ensures
        r == (name@ == tag(a, b, c, d)),
{
    let r: bool = name[0] == a && name[1] == b && name[2] == c && name[3] == d;
    proof {
        if r {
            assert(name@ =~= tag(a, b, c, d));
        }
        if name@ == tag(a, b, c, d) {
            assert(name@[0] == a && name@[1] == b && name@[2] == c && name@[3] == d);
        }
    }
    r
}

impl ReflectFile {
    /// The reflection data of a container: the types of its `RFTY` chunks,
    /// the interned strings of its `RSHI` chunk and the configured strings of
    /// its `RFCI` chunk. `None` when it has no `RFTY` chunk.
    pub fn parse(chunky: &Chunky) -> (r: Option<ReflectFile>)
        ensures
            match spec_reflect_file(chunky@) {
                None => r is None,
                Some(f) => r matches Some(file) && file.spec_view() == f,
            },
    {
        let chunks: Vec<&Chunk> = chunky.data_chunk_list();
        let ghost cs = data_list(chunky@.chunks);
        let mut file = ReflectFile {
            types: Vec::new(),
            interned_strings: Vec::new(),
            object_strings: Vec::new(),
        };
        let mut saw_rfty: bool = false;
        let mut i: usize = 0;
        proof {
            assert(cs.subrange(0, 0) =~= Seq::<SpecChunk>::empty());
            assert(file.spec_view().types =~= Seq::empty());
            assert(file.spec_view().interned =~= Seq::empty());
            assert(file.spec_view().objects =~= Seq::empty());
        }
        while i < chunks.len()
            invariant
                i <= chunks@.len(),
                view_refs(chunks@) == cs,
                (saw_rfty, file.spec_view()) == reflect_scan(cs.subrange(0, i as int)),
            decreases chunks.len() - i,
        {
            let chunk: &Chunk = chunks[i];
            let ghost prev = file.spec_view();
            proof {
                assert(cs.subrange(0, i + 1).drop_last() =~= cs.subrange(0, i as int));
                assert(cs.subrange(0, i + 1).last() == view_chunk(*chunk));
            }
            if let Some(data) = chunk.data() {
                if name_is(&chunk.name, 0x52, 0x46, 0x54, 0x59) {
                    saw_rfty = true;
                    if let Some(ty) = parse_rfty(data) {
                        file.types.push(ty);
                        proof {
                            assert(file.spec_view().types =~= prev.types.push(ty.spec_view()));
                        }
                    }
                } else if name_is(&chunk.name, 0x52, 0x53, 0x48, 0x49) {
                    file.interned_strings = parse_rshi(data);
                } else if name_is(&chunk.name, 0x52, 0x46, 0x43, 0x49) {
                    file.object_strings = packed_strings(data, OBJECT_STRING_MIN);
                }
            }
            i += 1;
            proof {
                assert(file.spec_view() =~= reflect_scan(cs.subrange(0, i as int)).1);
            }
        }
        proof {
            assert(cs.subrange(0, i as int) =~= cs);
        }
        if saw_rfty {
            Some(file)
        } else {
            None
        }
    }
}

/// Whether `s` names a type: see `type_token`.
pub fn is_type_token_for_test(s: &str) -> (r: bool)
    ensures
        r == type_token(s@),
{
    is_type_token(s)
}

/// The type an `RFTY` body describes: see `spec_rfty`.
pub fn parse_rfty_for_test(bytes: &[u8]) -> (r: Option<ReflectType>)
    ensures
        match spec_rfty(bytes@) {
            None => r is None,
            Some(v) => r matches Some(t) && t.spec_view() == v,
        },
{
    parse_rfty(bytes)
}

/// The interned strings of an `RSHI` body: see `spec_rshi`.
pub fn parse_rshi_for_test(bytes: &[u8]) -> (out: Vec<InternedString>)
    ensures
        view_interned(out@) == lossy_entries(spec_rshi(bytes@)),
{
    parse_rshi(bytes)
}

} // verus!

verus! {

// ---------------------------------------------------------------------------
// Report
// ---------------------------------------------------------------------------
pub open spec fn interned_lines(v: Seq<(u64, Seq<char>)>) -> Seq<char>
    decreases v.len(),
{
    if v.len() == 0 {
        Seq::empty()
    } else {
        interned_lines(v.drop_last()) + "  0x"@ + hex16(v.last().0) + "  "@ + debug_text(v.last().1)
            + "\n"@
    }
}

pub open spec fn object_lines(v: Seq<Seq<char>>) -> Seq<char>
    decreases v.len(),
{
    if v.len() == 0 {
        Seq::empty()
    } else {
        object_lines(v.drop_last()) + "  "@ + debug_text(v.last()) + "\n"@
    }
}

pub open spec fn field_lines(v: Seq<(Seq<char>, Option<Seq<char>>)>) -> Seq<char>
    decreases v.len(),
{
    if v.len() == 0 {
        Seq::empty()
    } else {
        field_lines(v.drop_last()) + "    "@ + v.last().0 + match v.last().1 {
            Some(t) => ": "@ + t,
            None => Seq::empty(),
        } + "\n"@
    }
}

pub open spec fn type_lines(v: Seq<(Seq<char>, Seq<(Seq<char>, Option<Seq<char>>)>)>) -> Seq<char>
    decreases v.len(),
{
    if v.len() == 0 {
        Seq::empty()
    } else {
        type_lines(v.drop_last()) + "  "@ + v.last().0 + "\n"@ + field_lines(v.last().1)
    }
}

/// The readable summary of reflection data: the interned strings with
/// their hashes, the configured strings, then each type with its fields.
pub open spec fn report_text(f: SpecReflectFile) -> Seq<char> {
    "== Interned strings (RSHI: enum values, hashed text) ==\n"@ + (if f.interned.len() == 0 {
        "  (none)\n"@
    } else {
        interned_lines(f.interned)
    }) + "\n== Object string values (RFCI: configured strings) ==\n"@ + (if f.objects.len() == 0 {
        "  (none)\n"@
    } else {
        object_lines(f.objects)
    }) + "\n== Type schema (RFDB/RFTY: all available fields) ==\n"@ + type_lines(f.types)
}

fn push_text(out: &mut String, s: &str)
    ensures
        final(out)@ == old(out)@ + s@,
{
    out.append(s);
}

impl ReflectFile {
    /// The readable summary of the reflection data.
    pub fn to_report(&self) -> (r: String)
        ensures
            r@ == report_text(self.spec_view()),
    {
        let ghost f = self.spec_view();
        let mut out: String = String::new();
        push_text(&mut out, "== Interned strings (RSHI: enum values, hashed text) ==\n");
        let ghost head = out@;
        if self.interned_strings.len() == 0 {
            push_text(&mut out, "  (none)\n");
        } else {
            let mut i: usize = 0;
            proof {
                assert(f.interned.subrange(0, 0) =~= Seq::<(u64, Seq<char>)>::empty());
                assert(out@ =~= head + interned_lines(f.interned.subrange(0, 0)));
            }
            while i < self.interned_strings.len()
                invariant
                    i <= self.interned_strings@.len(),
                    f == self.spec_view(),
                    out@ == head + interned_lines(f.interned.subrange(0, i as int)),
                decreases self.interned_strings.len() - i,
            {
                let s: &InternedString = &self.interned_strings[i];
                push_text(&mut out, "  0x");
                let h: String = hex16_string(s.hash);
                push_text(&mut out, h.as_str());
                push_text(&mut out, "  ");
                let q: String = debug_quoted(s.value.as_str());
                push_text(&mut out, q.as_str());
                push_text(&mut out, "\n");
                proof {
                    let t = f.interned.subrange(0, i + 1);
                    assert(t.drop_last() =~= f.interned.subrange(0, i as int));
                    assert(t.last() == (s.hash, s.value@));
                    assert(out@ =~= head + interned_lines(t));
                }
                i += 1;
            }
            proof {
                assert(f.interned.subrange(0, i as int) =~= f.interned);
            }
        }
        push_text(&mut out, "\n== Object string values (RFCI: configured strings) ==\n");
        let ghost mid = out@;
        if self.object_strings.len() == 0 {
            push_text(&mut out, "  (none)\n");
        } else {
            let mut i: usize = 0;
            proof {
                assert(f.objects.subrange(0, 0) =~= Seq::<Seq<char>>::empty());
                assert(out@ =~= mid + object_lines(f.objects.subrange(0, 0)));
            }
            while i < self.object_strings.len()
                invariant
                    i <= self.object_strings@.len(),
                    f == self.spec_view(),
                    out@ == mid + object_lines(f.objects.subrange(0, i as int)),
                decreases self.object_strings.len() - i,
            {
                push_text(&mut out, "  ");
                let q: String = debug_quoted(self.object_strings[i].as_str());
                push_text(&mut out, q.as_str());
                push_text(&mut out, "\n");
                proof {
                    let t = f.objects.subrange(0, i + 1);
                    assert(t.drop_last() =~= f.objects.subrange(0, i as int));
                    assert(out@ =~= mid + object_lines(t));
                }
                i += 1;
            }
            proof {
                assert(f.objects.subrange(0, i as int) =~= f.objects);
            }
        }
        push_text(&mut out, "\n== Type schema (RFDB/RFTY: all available fields) ==\n");
        let ghost tail = out@;
        let mut i: usize = 0;
        proof {
            assert(f.types.subrange(0, 0) =~= Seq::<(Seq<char>, Seq<(Seq<char>, Option<Seq<char>>)>)>::empty());
            assert(out@ =~= tail + type_lines(f.types.subrange(0, 0)));
        }
        while i < self.types.len()
            invariant
                i <= self.types@.len(),
                f == self.spec_view(),
                out@ == tail + type_lines(f.types.subrange(0, i as int)),
            decreases self.types.len() - i,
        {
            let ty: &ReflectType = &self.types[i];
            let ghost before = out@;
            push_text(&mut out, "  ");
            push_text(&mut out, ty.name.as_str());
            push_text(&mut out, "\n");
            let ghost fields = view_fields(ty.fields@);
            let ghost start = out@;
            let mut k: usize = 0;
            proof {
                assert(fields.subrange(0, 0) =~= Seq::<(Seq<char>, Option<Seq<char>>)>::empty());
                assert(out@ =~= start + field_lines(fields.subrange(0, 0)));
            }
            while k < ty.fields.len()
                invariant
                    k <= ty.fields@.len(),
                    fields == view_fields(ty.fields@),
                    out@ == start + field_lines(fields.subrange(0, k as int)),
                decreases ty.fields.len() - k,
            {
                let (field, field_type) = &ty.fields[k];
                push_text(&mut out, "    ");
                push_text(&mut out, field.as_str());
                match field_type {
                    Some(t) => {
                        push_text(&mut out, ": ");
                        push_text(&mut out, t.as_str());
                    },
                    None => {},
                }
                push_text(&mut out, "\n");
                proof {
                    let t = fields.subrange(0, k + 1);
                    assert(t.drop_last() =~= fields.subrange(0, k as int));
                    assert(t.last() == (field@, view_opt(*field_type)));
                    assert(out@ =~= start + field_lines(t));
                }
                k += 1;
            }
            proof {
                assert(fields.subrange(0, k as int) =~= fields);
                let t = f.types.subrange(0, i + 1);
                assert(t.drop_last() =~= f.types.subrange(0, i as int));
                assert(t.last() == ty.spec_view());
                assert(out@ =~= tail + type_lines(t));
            }
            i += 1;
        }
        proof {
            assert(f.types.subrange(0, i as int) =~= f.types);
        }
        out
    }
}

} // verus!
