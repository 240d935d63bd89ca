//! Engine reflection schemas kept beside the compiler, one per root object
//! type. A schema library is a list of resources, each named by the root
//! type it serves (in file-name form) and holding a schema container.
use vstd::prelude::*;

verus! {

pub open spec fn is_ascii_alnum(c: char) -> bool {
    ('0' <= c <= '9') || ('a' <= c <= 'z') || ('A' <= c <= 'Z')
}

/// A type name in the file-name form of its schema resource: every
/// character but an ASCII letter or digit becomes `_`.
pub open spec fn spec_sanitize(name: Seq<char>) -> Seq<char> {
    name.map_values(|c: char| if is_ascii_alnum(c) {
        c
    } else {
        '_'
    })
}

/// Reduces a type name to the file-name form used for its schema resource
/// (template punctuation like `<`, `>` and `:` becomes `_`).
pub fn sanitize(name: &str) -> (r: String)
    ensures
        r@ == spec_sanitize(name@),
{
    let n: usize = name.unicode_len();
    let mut out: String = String::new();
    let mut i: usize = 0;
    while i < n
        invariant
            n == name@.len(),
            i <= n,
            out@ == spec_sanitize(name@.subrange(0, i as int)),
        decreases n - i,
    {
        let c: char = name.get_char(i);
        let keep: bool = ('0' <= c && c <= '9') || ('a' <= c && c <= 'z') || ('A' <= c && c <= 'Z');
        if keep {
            let piece: &str = name.substring_char(i, i + 1);
            out.append(piece);
        } else {
            out.append("_");
        }
        proof {
            reveal_strlit("_");
            assert(spec_sanitize(name@.subrange(0, i + 1)) =~= spec_sanitize(name@.subrange(0, i as int)).push(
                if is_ascii_alnum(c) {
                    c
                } else {
                    '_'
                },
            ));
        }
        i += 1;
    }
    proof {
        assert(name@.subrange(0, i as int) =~= name@);
    }
    out
}

/// Entry `i` is the first of the library named `key`.
pub open spec fn first_resource(library: Seq<(String, Vec<u8>)>, key: Seq<char>, i: int) -> bool {
    0 <= i < library.len() && library[i].0@ == key && forall|j: int| 0 <= j < i ==> library[j].0@ != key
}

/// The first resource of `library` named `key`.
pub open spec fn resource_named(library: Seq<(String, Vec<u8>)>, key: Seq<char>) -> Option<int> {
    if exists|i: int| first_resource(library, key, i) {
        Some(choose|i: int| first_resource(library, key, i))
    } else {
        None
    }
}

proof fn lemma_first_resource_unique(library: Seq<(String, Vec<u8>)>, key: Seq<char>, i: int, j: int)
    requires
        first_resource(library, key, i),
        first_resource(library, key, j),
    ensures
        i == j,
{
    if i < j {
        assert(library[i].0@ != key);
    } else if j < i {
        assert(library[j].0@ != key);
    }
}

fn same_text(a: &str, b: &str) -> (r: bool)
    ensures
        r == (a@ == b@),
{
    let n: usize = a.unicode_len();
    if n != b.unicode_len() {
        return false;
    }
    let mut i: usize = 0;
    while i < n
        invariant
            n == a@.len(),
            n == b@.len(),
            i <= n,
            forall|k: int| 0 <= k < i ==> a@[k] == b@[k],
        decreases n - i,
    {
        if a.get_char(i) != b.get_char(i) {
            return false;
        }
        i += 1;
    }
    proof {
        assert(a@ =~= b@);
    }
    true
}

/// The root types whose schemas the tool bundles, in file-name form.
pub open spec fn bundled_key(key: Seq<char>) -> bool {
    key == "WinCondition"@ || key == "Mod"@
}

/// The bundled schema container for a root type: only `WinCondition` and
/// `Mod` (after sanitising) have one, found as the first resource of that
/// name in `library`, which holds the bundled files; `None` for any other
/// type or when the library lacks the file.
pub fn schema_for<'a>(root_type: &str, library: &'a [(String, Vec<u8>)]) -> (r: Option<&'a [u8]>)
    ensures
        !bundled_key(spec_sanitize(root_type@)) ==> r is None,
        bundled_key(spec_sanitize(root_type@)) ==> match resource_named(library@, spec_sanitize(root_type@)) {
            Some(i) => r matches Some(b) && b@ == library@[i].1@,
            None => r is None,
        },
{
    let key: String = sanitize(root_type);
    if !(same_text(key.as_str(), "WinCondition") || same_text(key.as_str(), "Mod")) {
        return None;
    }
    let ghost k = key@;
    let mut i: usize = 0;
    while i < library.len()
        invariant
            i <= library@.len(),
            k == key@,
            k == spec_sanitize(root_type@),
            bundled_key(k),
            forall|j: int| 0 <= j < i ==> library@[j].0@ != k,
        decreases library.len() - i,
    {
        if same_text(library[i].0.as_str(), key.as_str()) {
            proof {
                assert(first_resource(library@, k, i as int));
                let c = choose|c: int| first_resource(library@, k, c);
                lemma_first_resource_unique(library@, k, i as int, c);
            }
            return Some(library[i].1.as_slice());
        }
        i += 1;
    }
    proof {
        if exists|c: int| first_resource(library@, k, c) {
            let c = choose|c: int| first_resource(library@, k, c);
            assert(library@[c].0@ == k);
        }
    }
    None
}

} // verus!
