//! The rules by which the archive tools pick members to extract and check
//! the count of a patch.
use vstd::prelude::*;

use vstd::string::{StrSliceExecFns, StringExecFns};

use crate::paths::{is_separator, lower, lowercase, normalized, slashed};
use crate::text::{decimal, decimal_string};

verus! {

/// The text without its leading and trailing separators.
pub open spec fn strip_separators(s: Seq<char>) -> Seq<char>
    decreases s.len(),
{
    if s.len() > 0 && is_separator(s[0]) {
        strip_separators(s.subrange(1, s.len() as int))
    } else if s.len() > 0 && is_separator(s[s.len() - 1]) {
        strip_separators(s.subrange(0, s.len() - 1))
    } else {
        s
    }
}

/// The key a requested member is matched by: separators at either end
/// dropped, then forward slashes and lower case.
pub open spec fn spec_member_key(member: Seq<char>) -> Seq<char> {
    lowercase(slashed(strip_separators(member)))
}

fn separator(c: char) -> (r: bool)
    ensures
        r == is_separator(c),
{
    c == '\\' || c == '/'
}

/// The key a requested member is matched by (see `spec_member_key`).
pub fn member_key(member: &str) -> (r: String)
    ensures
        r@ == spec_member_key(member@),
{
    let n: usize = member.unicode_len();
    let mut lo: usize = 0;
    let mut hi: usize = n;
    proof {
        assert(member@.subrange(0, n as int) =~= member@);
    }
    while lo < hi && (separator(member.get_char(lo)) || separator(member.get_char(hi - 1)))
        invariant
            n == member@.len(),
            lo <= hi <= n,
            strip_separators(member@) == strip_separators(member@.subrange(lo as int, hi as int)),
        decreases hi - lo,
    {
        let ghost t = member@.subrange(lo as int, hi as int);
        if separator(member.get_char(lo)) {
            proof {
                assert(t[0] == member@[lo as int]);
                assert(t.subrange(1, t.len() as int) =~= member@.subrange(lo + 1, hi as int));
            }
            lo += 1;
        } else {
            proof {
                assert(t[0] == member@[lo as int]);
                assert(t[t.len() - 1] == member@[hi - 1]);
                assert(t.subrange(0, t.len() - 1) =~= member@.subrange(lo as int, hi - 1));
            }
            hi -= 1;
        }
    }
    proof {
        let t = member@.subrange(lo as int, hi as int);
        if lo < hi {
            assert(t[0] == member@[lo as int]);
            assert(t[t.len() - 1] == member@[hi - 1]);
        }
        assert(strip_separators(t) == t);
    }
    let inner: &str = member.substring_char(lo, hi);
    normalized(inner)
}

/// `needle` occurs in `hay`.
pub open spec fn contains_text(hay: Seq<char>, needle: Seq<char>) -> bool {
    exists|i: int| 0 <= i && i + needle.len() <= hay.len() && #[trigger] hay.subrange(i, i + needle.len()) == needle
}

fn occurs_at(hay: &str, needle: &str, i: usize) -> (r: bool)
    requires
        i + needle@.len() <= hay@.len(),
    ensures
        r == (hay@.subrange(i as int, i + needle@.len()) == needle@),
{
    let m: usize = needle.unicode_len();
    let hn: usize = hay.unicode_len();
    let mut k: usize = 0;
    while k < m
        invariant
            m == needle@.len(),
            hn == hay@.len(),
            i + m <= hay@.len(),
            k <= m,
            forall|j: int| 0 <= j < k ==> hay@[i + j] == needle@[j],
        decreases m - k,
    {
        if hay.get_char(i + k) != needle.get_char(k) {
            proof {
                assert(hay@.subrange(i as int, i + m)[k as int] != needle@[k as int]);
            }
            return false;
        }
        k += 1;
    }
    proof {
        assert(hay@.subrange(i as int, i + m) =~= needle@);
    }
    true
}

/// Whether `needle` occurs in `hay`.
pub fn contains(hay: &str, needle: &str) -> (r: bool)
    ensures
        r == contains_text(hay@, needle@),
{
    let n: usize = hay.unicode_len();
    let m: usize = needle.unicode_len();
    if m > n {
        proof {
            assert forall|i: int| 0 <= i && i + m <= n implies #[trigger] hay@.subrange(i, i + m) != needle@ by {}
        }
        return false;
    }
    if m == 0 {
        proof {
            assert(hay@.subrange(0, 0 + needle@.len() as int) =~= needle@);
        }
        return true;
    }
    let mut i: usize = 0;
    while i <= n - m
        invariant
            n == hay@.len(),
            m == needle@.len(),
            0 < m <= n,
            i <= n - m + 1,
            forall|j: int| 0 <= j < i ==> #[trigger] hay@.subrange(j, j + m) != needle@,
        decreases n + 1 - i,
    {
        if occurs_at(hay, needle, i) {
            return true;
        }
        i += 1;
    }
    proof {
        assert forall|j: int| 0 <= j && j + m <= n implies #[trigger] hay@.subrange(j, j + m) != needle@ by {
            assert(j < i);
        }
    }
    false
}

/// Whether extraction picks the archive path `path`: its normalised form
/// contains the lower-cased filter, or is one of the wanted member keys.
pub open spec fn spec_member_selected(path: Seq<char>, filter: Option<Seq<char>>, wanted: Seq<Seq<char>>) -> bool {
    let key = lowercase(slashed(path));
    (filter matches Some(f) && contains_text(key, lowercase(f))) || wanted.contains(key)
}

pub open spec fn view_texts(v: Seq<String>) -> Seq<Seq<char>> {
    v.map_values(|s: String| s@)
}

fn same(a: &str, b: &str) -> (r: bool)
    ensures
        r == (a@ == b@),
{
    let n: usize = a.unicode_len();
    if n != b.unicode_len() {
        return false;
    }
    let r: bool = occurs_at(a, b, 0);
    proof {
        assert(a@.subrange(0, n as int) =~= a@);
    }
    r
}

/// Whether extraction picks the archive path `path` (see
/// `spec_member_selected`); `wanted` holds the keys of the requested
/// members (see `member_key`).
pub fn member_selected(path: &str, filter: Option<&str>, wanted: &[String]) -> (r: bool)
    ensures
        r == spec_member_selected(
            path@,
            match filter {
                Some(f) => Some(f@),
                None => None,
            },
            view_texts(wanted@),
        ),
{
    let key: String = normalized(path);
    let by_filter: bool = match filter {
        Some(f) => {
            let needle: String = lower(f);
            contains(key.as_str(), needle.as_str())
        },
        None => false,
    };
    if by_filter {
        return true;
    }
    let ghost w = view_texts(wanted@);
    let mut i: usize = 0;
    while i < wanted.len()
        invariant
            i <= wanted@.len(),
            w == view_texts(wanted@),
            key@ == lowercase(slashed(path@)),
            forall|j: int| 0 <= j < i ==> w[j] != key@,
        decreases wanted.len() - i,
    {
        if same(wanted[i].as_str(), key.as_str()) {
            proof {
                assert(w[i as int] == key@);
            }
            return true;
        }
        i += 1;
    }
    proof {
        if w.contains(key@) {
            let j = choose|j: int| 0 <= j < w.len() && w[j] == key@;
        }
    }
    false
}

/// Why an extraction request is refused.
#[derive(Debug, Clone, Copy, PartialEq, Eq)]
pub enum ExtractError {
    /// Neither a filter nor a member was named.
    NothingRequested,
}

impl ExtractError {
    /// The error's text.
    pub fn message(&self) -> (r: String)
        ensures
            r@ == "extract needs --filter or at least one --member; use `unpack` for a whole archive"@,
    {
        String::from_str("extract needs --filter or at least one --member; use `unpack` for a whole archive")
    }
}

/// The keys of the requested members (see `member_key`), in order; a
/// request that names neither a filter nor a member is refused.
pub fn extract_request(filter: Option<&str>, members: &[String]) -> (r: Result<Vec<String>, ExtractError>)
    ensures
        filter is None && members@.len() == 0 ==> r == Err::<Vec<String>, ExtractError>(ExtractError::NothingRequested),
        !(filter is None && members@.len() == 0) ==> (r matches Ok(keys) && keys@.len() == members@.len() && forall|i: int|
            0 <= i < members@.len() ==> #[trigger] keys@[i]@ == spec_member_key(members@[i]@)),
{
    if filter.is_none() && members.len() == 0 {
        return Err(ExtractError::NothingRequested);
    }
    let mut keys: Vec<String> = Vec::new();
    let mut i: usize = 0;
    while i < members.len()
        invariant
            i <= members@.len(),
            keys@.len() == i,
            forall|j: int| 0 <= j < i ==> #[trigger] keys@[j]@ == spec_member_key(members@[j]@),
        decreases members.len() - i,
    {
        keys.push(member_key(members[i].as_str()));
        i += 1;
    }
    Ok(keys)
}

/// A patch that changed another number of values than the caller expected.
#[derive(Debug, Clone, Copy, PartialEq, Eq)]
pub struct CountMismatch {
    /// Whether the patch replaced Float values (else CString values).
    pub float: bool,
    pub expected: usize,
    pub found: usize,
}

impl CountMismatch {
    /// The error's text.
    pub fn message(&self) -> (r: String)
        ensures
            r@ == "expected "@ + decimal(self.expected as nat) + (if self.float {
                " Float"@
            } else {
                " CString"@
            }) + " replacements, found "@ + decimal(self.found as nat),
    {
        let mut out: String = String::from_str("expected ");
        let e: String = decimal_string(self.expected as u64);
        out.append(e.as_str());
        if self.float {
            out.append(" Float");
        } else {
            out.append(" CString");
        }
        out.append(" replacements, found ");
        let f: String = decimal_string(self.found as u64);
        out.append(f.as_str());
        out
    }
}

/// A patch's count of replacements against the caller's expectation:
/// refused unless they are equal.
pub fn check_replacements(float: bool, expected: usize, found: usize) -> (r: Result<(), CountMismatch>)
    ensures
        expected == found ==> r is Ok,
        expected != found ==> r == Err::<(), CountMismatch>(CountMismatch { float, expected, found }),
{
    if expected == found {
        Ok(())
    } else {
        Err(CountMismatch { float, expected, found })
    }
}

} // verus!
