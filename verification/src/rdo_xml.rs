//! Writing an `.rdo` object graph as the editor's `<DataWarehouse>` XML.
use vstd::prelude::*;

use std::collections::HashSet;

use vstd::string::{StrSliceExecFns, StringExecFns};

use crate::rdo::{first_where, has_id, is_root, root_test, RdoGraph, RdoObject, RdoValue, ScalarType};
use crate::text::{all_ascii, ascii_chars, decimal, decimal_string, hex_digit, lemma_ascii_decodes, lossy_string};

verus! {

// ---------------------------------------------------------------------------
// Text pieces
// ---------------------------------------------------------------------------
pub open spec fn tabs(n: nat) -> Seq<char> {
    Seq::new(n, |i: int| '\t')
}

/// A character as it stands in an attribute value.
pub open spec fn escape_char(c: char) -> Seq<char> {
    if c == '&' {
        "&amp;"@
    } else if c == '<' {
        "&lt;"@
    } else if c == '>' {
        "&gt;"@
    } else if c == '"' {
        "&quot;"@
    } else {
        seq![c]
    }
}

/// A text with `&`, `<`, `>` and `"` written as entities.
pub open spec fn escaped(s: Seq<char>) -> Seq<char>
    decreases s.len(),
{
    if s.len() == 0 {
        Seq::empty()
    } else {
        escaped(s.drop_last()) + escape_char(s.last())
    }
}

/// The bytes as lower-case hex, two digits each.
pub open spec fn hex_bytes(b: Seq<u8>) -> Seq<u8>
    decreases b.len(),
{
    if b.len() == 0 {
        Seq::empty()
    } else {
        hex_bytes(b.drop_last()) + seq![hex_digit((b.last() / 16) as u64), hex_digit((b.last() % 16) as u64)]
    }
}

pub open spec fn hex_text(b: Seq<u8>) -> Seq<char> {
    ascii_chars(hex_bytes(b))
}

/// An integer in decimal, with a `-` when negative.
pub open spec fn signed_decimal(v: int) -> Seq<char> {
    if v < 0 {
        "-"@ + decimal((-v) as nat)
    } else {
        decimal(v as nat)
    }
}

/// The text of a scalar's bits, as its type reads them; a float's text is
/// `h` of its bits.
pub open spec fn scalar_text(t: ScalarType, bits: u64, h: spec_fn(u32) -> Seq<char>) -> Seq<char> {
    match t {
        ScalarType::Float => h(bits as u32),
        ScalarType::Int32 => signed_decimal(((bits as u32) as i32) as int),
        ScalarType::UInt32 => decimal((bits as u32) as nat),
        ScalarType::Int64 => signed_decimal((bits as i64) as int),
        ScalarType::UInt64 => decimal(bits as nat),
        ScalarType::UInt8 => decimal((bits as u8) as nat),
    }
}

/// `f` writes the float with bits `b` as `h(b)`.
pub open spec fn formats_floats_as<F: Fn(u32) -> String>(f: F, h: spec_fn(u32) -> Seq<char>) -> bool {
    forall|b: u32, s: String| #[trigger] f.ensures((b,), s) ==> s@ == h(b)
}

fn push_tabs(out: &mut String, n: usize)
    ensures
        final(out)@ == old(out)@ + tabs(n as nat),
{
    proof {
        reveal_strlit("\t");
    }
    let mut i: usize = 0;
    while i < n
        invariant
            i <= n,
            out@ == old(out)@ + tabs(i as nat),
        decreases n - i,
    {
        out.append("\t");
        i += 1;
        proof {
            reveal_strlit("\t");
            assert(out@ =~= old(out)@ + tabs(i as nat));
        }
    }
}

/// `s` with `&`, `<`, `>` and `"` written as entities.
fn escape(s: &str) -> (r: String)
    ensures
        r@ == escaped(s@),
{
    let n: usize = s.unicode_len();
    let mut out: String = String::new();
    let mut i: usize = 0;
    proof {
        assert(s@.subrange(0, 0) =~= Seq::<char>::empty());
    }
    while i < n
        invariant
            i <= n,
            n == s@.len(),
            out@ == escaped(s@.subrange(0, i as int)),
        decreases n - i,
    {
        let c: char = s.get_char(i);
        if c == '&' {
            out.append("&amp;");
        } else if c == '<' {
            out.append("&lt;");
        } else if c == '>' {
            out.append("&gt;");
        } else if c == '"' {
            out.append("&quot;");
        } else {
            out.append(s.substring_char(i, i + 1));
            proof {
                assert(s@.subrange(i as int, i + 1) =~= seq![c]);
            }
        }
        proof {
            let t = s@.subrange(0, i + 1);
            assert(t.drop_last() =~= s@.subrange(0, i as int));
            assert(t.last() == c);
        }
        i += 1;
    }
    proof {
        assert(s@.subrange(0, i as int) =~= s@);
    }
    out
}

proof fn lemma_hex_ascii(b: Seq<u8>)
    ensures
        all_ascii(hex_bytes(b)),
    decreases b.len(),
{
    if b.len() > 0 {
        lemma_hex_ascii(b.drop_last());
        let h = hex_bytes(b);
        let p = hex_bytes(b.drop_last());
        assert forall|i: int| 0 <= i < h.len() implies #[trigger] h[i] < 128 by {
            if i < p.len() {
                assert(h[i] == p[i]);
            }
        }
    }
}

/// The bytes as lower-case hex.
fn hex_encode(bytes: &[u8]) -> (r: String)
    ensures
        r@ == hex_text(bytes@),
{
    let mut digits: Vec<u8> = Vec::new();
    let mut i: usize = 0;
    proof {
        assert(bytes@.subrange(0, 0) =~= Seq::<u8>::empty());
    }
    while i < bytes.len()
        invariant
            i <= bytes@.len(),
            digits@ == hex_bytes(bytes@.subrange(0, i as int)),
        decreases bytes.len() - i,
    {
        let b: u8 = bytes[i];
        let hi: u64 = (b / 16) as u64;
        let lo: u64 = (b % 16) as u64;
        digits.push(if hi < 10 {
            (48 + hi) as u8
        } else {
            (87 + hi) as u8
        });
        digits.push(if lo < 10 {
            (48 + lo) as u8
        } else {
            (87 + lo) as u8
        });
        proof {
            let t = bytes@.subrange(0, i + 1);
            assert(t.drop_last() =~= bytes@.subrange(0, i as int));
            assert(t.last() == b);
            assert(digits@ =~= hex_bytes(t));
        }
        i += 1;
    }
    proof {
        assert(bytes@.subrange(0, i as int) =~= bytes@);
        lemma_hex_ascii(bytes@);
        lemma_ascii_decodes(digits@);
    }
    lossy_string(digits.as_slice())
}

/// `v` in decimal, as `v.to_string()` writes it.
pub(crate) fn signed_text(v: i64) -> (r: String)
    ensures
        r@ == signed_decimal(v as int),
{
    if v < 0 {
        let magnitude: u64 = if v == i64::MIN {
            0x8000_0000_0000_0000
        } else {
            (-v) as u64
        };
        let mut out: String = String::from_str("-");
        let digits: String = decimal_string(magnitude);
        out.append(digits.as_str());
        out
    } else {
        decimal_string(v as u64)
    }
}

/// The text of a scalar: integers in decimal as their type reads the bits,
/// floats as `fmt` writes them.
fn scalar_text_of<F: Fn(u32) -> String>(t: ScalarType, bits: u64, fmt: &F) -> (r: String)
    requires
        forall|b: u32| #[trigger] fmt.requires((b,)),
    ensures
        forall|h: spec_fn(u32) -> Seq<char>|
            formats_floats_as(*fmt, h) ==> r@ == #[trigger] scalar_text(t, bits, h),
{
    match t {
        ScalarType::Float => {
            let b: u32 = bits as u32;
            let s: String = fmt(b);
            proof {
                assert forall|h: spec_fn(u32) -> Seq<char>|
                    formats_floats_as(*fmt, h) implies s@ == #[trigger] scalar_text(t, bits, h) by {
                    assert(s@ == h(b));
                }
            }
            s
        },
        ScalarType::Int32 => signed_text(((bits as u32) as i32) as i64),
        ScalarType::UInt32 => decimal_string((bits as u32) as u64),
        ScalarType::Int64 => signed_text(bits as i64),
        ScalarType::UInt64 => decimal_string(bits),
        ScalarType::UInt8 => decimal_string((bits as u8) as u64),
    }
}

// ---------------------------------------------------------------------------
// The document
// ---------------------------------------------------------------------------
/// The ids of the graph's objects.
pub open spec fn object_ids(g: Seq<RdoObject>) -> Set<u64> {
    g.map_values(|o: RdoObject| o.id).to_set()
}

/// How many objects of the graph are still to be written.
pub open spec fn unwritten(g: Seq<RdoObject>, em: Set<u64>) -> nat {
    object_ids(g).difference(em).len()
}

/// The first object with the id.
pub open spec fn object_with_id(g: Seq<RdoObject>, id: u64) -> Option<RdoObject> {
    match first_where(g, has_id(id)) {
        Some(i) => Some(g[i]),
        None => None,
    }
}

pub open spec fn type_name_text(g: Seq<RdoObject>, id: u64) -> Seq<char> {
    match object_with_id(g, id) {
        Some(o) => o.ty_name@,
        None => Seq::empty(),
    }
}

/// The line that opens an object.
pub open spec fn object_open_line(o: RdoObject, depth: nat) -> Seq<char> {
    if o.owner_id == 0 {
        tabs(depth) + "<DataObject Name=\"\" Type=\""@ + escaped(o.ty_name@) + "\" Id=\""@ + decimal(o.id as nat)
            + "\">\r\n"@
    } else {
        tabs(depth) + "<DataObject Name=\"\" Type=\""@ + escaped(o.ty_name@) + "\" Id=\""@ + decimal(o.id as nat)
            + "\" OwnerId=\""@ + decimal(o.owner_id as nat) + "\">\r\n"@
    }
}

/// The line of a property that holds no child objects.
pub open spec fn leaf_line(name: Seq<char>, v: RdoValue, depth: nat, h: spec_fn(u32) -> Seq<char>) -> Seq<char> {
    let head = tabs(depth) + "<DataProperty Name=\""@ + escaped(name);
    match v {
        RdoValue::Scalar { xml_type, bits } => head + "\" Type=\""@ + xml_type.spec_name() + "\" Value=\""@
            + scalar_text(xml_type, bits, h) + "\"/>\r\n"@,
        RdoValue::Bool(b) => head + "\" Type=\"Bool\" Value=\""@ + (if b {
            "true"@
        } else {
            "false"@
        }) + "\"/>\r\n"@,
        RdoValue::String(t) => head + "\" Type=\"String\" Value=\""@ + escaped(t@) + "\"/>\r\n"@,
        RdoValue::Bytes { count, data } => head + "\" Type=\"Bytes\" Count=\""@ + decimal(count as nat)
            + "\" Value=\""@ + hex_text(data@) + "\"/>\r\n"@,
        RdoValue::Children(_) => head + "\" Type=\"Object\"/>\r\n"@,
    }
}

/// One `<DataValue>` line per child id, naming the child's type.
pub open spec fn value_lines(g: Seq<RdoObject>, ids: Seq<u64>, depth: nat) -> Seq<char>
    decreases ids.len(),
{
    if ids.len() == 0 {
        Seq::empty()
    } else {
        value_lines(g, ids.drop_last(), depth) + value_line(g, ids.last(), depth)
    }
}

/// The `<DataValue>` line of one child id.
#[verifier::opaque]
pub open spec fn value_line(g: Seq<RdoObject>, id: u64, depth: nat) -> Seq<char> {
    tabs(depth) + "<DataValue Name=\""@ + escaped(type_name_text(g, id)) + "\">"@ + decimal(id as nat)
        + "</DataValue>\r\n"@
}

/// Writing an object not written before (`em` holds those written): its
/// opening line, its properties one level deeper, its closing line. `fuel`
/// bounds the nesting.
pub open spec fn spec_emit_object(
    g: Seq<RdoObject>,
    o: RdoObject,
    depth: nat,
    em: Set<u64>,
    fuel: nat,
    h: spec_fn(u32) -> Seq<char>,
) -> (Set<u64>, Seq<char>)
    decreases fuel, 3int, 0int,
{
    if em.contains(o.id) || fuel == 0 {
        (em, Seq::empty())
    } else {
        let (em2, body) = spec_emit_props(g, o.props@, depth + 1, em.insert(o.id), fuel, h);
        (em2, object_open_line(o, depth) + body + tabs(depth) + "</DataObject>\r\n"@)
    }
}

pub open spec fn spec_emit_props(
    g: Seq<RdoObject>,
    props: Seq<(String, RdoValue)>,
    depth: nat,
    em: Set<u64>,
    fuel: nat,
    h: spec_fn(u32) -> Seq<char>,
) -> (Set<u64>, Seq<char>)
    decreases fuel, 2int, props.len(),
{
    if props.len() == 0 {
        (em, Seq::empty())
    } else {
        let (em1, first) = spec_emit_props(g, props.drop_last(), depth, em, fuel, h);
        let (em2, last) = spec_emit_prop(g, props.last().0@, props.last().1, depth, em1, fuel, h);
        (em2, first + last)
    }
}

/// A property: one line, or for child objects an `Object` property holding
/// a `<DataValue>` line per child and then each child written out.
pub open spec fn spec_emit_prop(
    g: Seq<RdoObject>,
    name: Seq<char>,
    v: RdoValue,
    depth: nat,
    em: Set<u64>,
    fuel: nat,
    h: spec_fn(u32) -> Seq<char>,
) -> (Set<u64>, Seq<char>)
    decreases fuel, 1int, 0int,
{
    match v {
        RdoValue::Children(ids) => if ids@.len() == 0 {
            (em, leaf_line(name, v, depth, h))
        } else {
            let (em2, kids) = spec_emit_children(g, ids@, depth + 1, em, fuel, h);
            (
                em2,
                tabs(depth) + "<DataProperty Name=\""@ + escaped(name) + "\" Type=\"Object\">\r\n"@ + value_lines(
                    g,
                    ids@,
                    depth + 1,
                ) + kids + tabs(depth) + "</DataProperty>\r\n"@,
            )
        },
        _ => (em, leaf_line(name, v, depth, h)),
    }
}

pub open spec fn spec_emit_children(
    g: Seq<RdoObject>,
    ids: Seq<u64>,
    depth: nat,
    em: Set<u64>,
    fuel: nat,
    h: spec_fn(u32) -> Seq<char>,
) -> (Set<u64>, Seq<char>)
    decreases fuel, 0int, ids.len(),
{
    if ids.len() == 0 || fuel == 0 {
        (em, Seq::empty())
    } else {
        let (em1, first) = spec_emit_children(g, ids.drop_last(), depth, em, fuel, h);
        match object_with_id(g, ids.last()) {
            Some(c) => {
                let (em2, last) = spec_emit_object(g, c, depth, em1, (fuel - 1) as nat, h);
                (em2, first + last)
            },
            None => (em1, first),
        }
    }
}

/// The `.rdo` text of a graph: its first root object and everything it
/// reaches, each object written once.
pub open spec fn spec_to_xml(g: Seq<RdoObject>, h: spec_fn(u32) -> Seq<char>) -> Seq<char> {
    "<DataWarehouse>\r\n"@ + root_text(g, h) + "</DataWarehouse>\r\n"@
}

/// The root's comment line and the root written out, when there is a root.
pub open spec fn root_text(g: Seq<RdoObject>, h: spec_fn(u32) -> Seq<char>) -> Seq<char> {
    match first_where(g, root_test()) {
        Some(i) => "\t<!--"@ + g[i].ty_name@ + "/-->\r\n"@ + object_text(g, g[i], h),
        None => Seq::empty(),
    }
}

/// The text of an object of the graph written at depth 1 with everything
/// it reaches, nothing yet written.
#[verifier::opaque]
pub open spec fn object_text(g: Seq<RdoObject>, o: RdoObject, h: spec_fn(u32) -> Seq<char>) -> Seq<char> {
    spec_emit_object(g, o, 1, Set::empty(), (g.len() + 1) as nat, h).1
}

fn push_leaf<F: Fn(u32) -> String>(name: &str, v: &RdoValue, depth: usize, out: &mut String, fmt: &F)
    requires
        forall|b: u32| #[trigger] fmt.requires((b,)),
    ensures
        forall|h: spec_fn(u32) -> Seq<char>|
            formats_floats_as(*fmt, h) ==> final(out)@ == old(out)@ + #[trigger] leaf_line(name@, *v, depth as nat, h),
{
    let ghost start = out@;
    push_tabs(out, depth);
    out.append("<DataProperty Name=\"");
    let en: String = escape(name);
    out.append(en.as_str());
    let ghost head = tabs(depth as nat) + "<DataProperty Name=\""@ + escaped(name@);
    proof {
        assert(out@ =~= start + head);
    }
    match v {
        RdoValue::Scalar { xml_type, bits } => {
            out.append("\" Type=\"");
            out.append(xml_type.as_str());
            out.append("\" Value=\"");
            let ghost mid = out@;
            let text: String = scalar_text_of(*xml_type, *bits, fmt);
            out.append(text.as_str());
            out.append("\"/>\r\n");
            proof {
                assert forall|h: spec_fn(u32) -> Seq<char>|
                    formats_floats_as(*fmt, h) implies out@ == start + #[trigger] leaf_line(name@, *v, depth as nat, h) by {
                    assert(text@ == scalar_text(*xml_type, *bits, h));
                    assert(out@ =~= start + leaf_line(name@, *v, depth as nat, h));
                }
            }
        },
        RdoValue::Bool(b) => {
            out.append("\" Type=\"Bool\" Value=\"");
            if *b {
                out.append("true");
            } else {
                out.append("false");
            }
            out.append("\"/>\r\n");
            proof {
                assert(out@ =~= start + leaf_line(name@, *v, depth as nat, |b: u32| Seq::<char>::empty()));
            }
        },
        RdoValue::String(t) => {
            out.append("\" Type=\"String\" Value=\"");
            let et: String = escape(t.as_str());
            out.append(et.as_str());
            out.append("\"/>\r\n");
            proof {
                assert(out@ =~= start + leaf_line(name@, *v, depth as nat, |b: u32| Seq::<char>::empty()));
            }
        },
        RdoValue::Bytes { count, data } => {
            out.append("\" Type=\"Bytes\" Count=\"");
            let c: String = decimal_string(*count as u64);
            out.append(c.as_str());
            out.append("\" Value=\"");
            let hx: String = hex_encode(data.as_slice());
            out.append(hx.as_str());
            out.append("\"/>\r\n");
            proof {
                assert(out@ =~= start + leaf_line(name@, *v, depth as nat, |b: u32| Seq::<char>::empty()));
            }
        },
        RdoValue::Children(_) => {
            out.append("\" Type=\"Object\"/>\r\n");
            proof {
                assert(out@ =~= start + leaf_line(name@, *v, depth as nat, |b: u32| Seq::<char>::empty()));
            }
        },
    }
}

proof fn lemma_unwritten_shrinks(g: Seq<RdoObject>, em: Set<u64>, em2: Set<u64>)
    requires
        em.subset_of(em2),
    ensures
        unwritten(g, em2) <= unwritten(g, em),
{
    broadcast use vstd::set::group_set_axioms, vstd::seq_lib::seq_to_set_is_finite;

    let ids = object_ids(g);
    assert(ids.difference(em2).subset_of(ids.difference(em)));
    vstd::set_lib::lemma_len_subset(ids.difference(em2), ids.difference(em));
}

proof fn lemma_unwritten_insert(g: Seq<RdoObject>, em: Set<u64>, id: u64)
    requires
        object_ids(g).contains(id),
        !em.contains(id),
    ensures
        unwritten(g, em.insert(id)) + 1 == unwritten(g, em),
{
    broadcast use vstd::set::group_set_axioms, vstd::seq_lib::seq_to_set_is_finite;

    let ids = object_ids(g);
    assert(ids.difference(em.insert(id)) =~= ids.difference(em).remove(id));
}

/// An object found by id is one of the graph's.
proof fn lemma_found_in_ids(g: Seq<RdoObject>, i: int)
    requires
        0 <= i < g.len(),
    ensures
        object_ids(g).contains(g[i].id),
{
    let m = g.map_values(|o: RdoObject| o.id);
    assert(m[i] == g[i].id);
    assert(m.contains(g[i].id));
}

fn emit_object<F: Fn(u32) -> String>(
    graph: &RdoGraph,
    o: &RdoObject,
    depth: usize,
    emitted: &mut HashSet<u64>,
    out: &mut String,
    fmt: &F,
    Ghost(fuel): Ghost<nat>,
)
    requires
        forall|b: u32| #[trigger] fmt.requires((b,)),
        object_ids(graph.objects@).contains(o.id),
        !old(emitted)@.contains(o.id) ==> fuel >= unwritten(graph.objects@, old(emitted)@) + 1,
        depth + 2 * fuel + 2 < usize::MAX,
    ensures
        old(emitted)@.subset_of(final(emitted)@),
        forall|h: spec_fn(u32) -> Seq<char>|
            formats_floats_as(*fmt, h) ==> (final(emitted)@, final(out)@ ) == ({
                let r = #[trigger] spec_emit_object(graph.objects@, *o, depth as nat, old(emitted)@, fuel, h);
                (r.0, old(out)@ + r.1)
            }),
    decreases fuel, 3int, 0int,
{
    broadcast use vstd::std_specs::hash::group_hash_axioms;

    let ghost em0 = emitted@;
    let ghost start = out@;
    if !emitted.insert(o.id) {
        return;
    }
    proof {
        lemma_unwritten_insert(graph.objects@, em0, o.id);
    }
    if o.owner_id == 0 {
        push_tabs(out, depth);
        out.append("<DataObject Name=\"\" Type=\"");
        let t: String = escape(o.ty_name.as_str());
        out.append(t.as_str());
        out.append("\" Id=\"");
        let id: String = decimal_string(o.id);
        out.append(id.as_str());
        out.append("\">\r\n");
    } else {
        push_tabs(out, depth);
        out.append("<DataObject Name=\"\" Type=\"");
        let t: String = escape(o.ty_name.as_str());
        out.append(t.as_str());
        out.append("\" Id=\"");
        let id: String = decimal_string(o.id);
        out.append(id.as_str());
        out.append("\" OwnerId=\"");
        let owner: String = decimal_string(o.owner_id);
        out.append(owner.as_str());
        out.append("\">\r\n");
    }
    proof {
        assert(out@ =~= start + object_open_line(*o, depth as nat));
    }
    let ghost mid = out@;
    let ghost em1 = emitted@;
    emit_props(graph, &o.props, depth + 1, emitted, out, fmt, Ghost(fuel));
    let ghost after = out@;
    push_tabs(out, depth);
    out.append("</DataObject>\r\n");
    proof {
        assert forall|h: spec_fn(u32) -> Seq<char>|
            formats_floats_as(*fmt, h) implies (emitted@, out@) == ({
                let r = #[trigger] spec_emit_object(graph.objects@, *o, depth as nat, em0, fuel, h);
                (r.0, start + r.1)
            }) by {
            let p = spec_emit_props(graph.objects@, o.props@, (depth + 1) as nat, em0.insert(o.id), fuel, h);
            assert(em1 == em0.insert(o.id));
            assert(after == mid + p.1);
            assert(out@ =~= start + (object_open_line(*o, depth as nat) + p.1 + tabs(depth as nat)
                + "</DataObject>\r\n"@));
        }
    }
}

fn emit_props<F: Fn(u32) -> String>(
    graph: &RdoGraph,
    props: &Vec<(String, RdoValue)>,
    depth: usize,
    emitted: &mut HashSet<u64>,
    out: &mut String,
    fmt: &F,
    Ghost(fuel): Ghost<nat>,
)
    requires
        forall|b: u32| #[trigger] fmt.requires((b,)),
        fuel >= unwritten(graph.objects@, old(emitted)@) + 2,
        depth + 2 * fuel + 1 < usize::MAX,
    ensures
        old(emitted)@.subset_of(final(emitted)@),
        forall|h: spec_fn(u32) -> Seq<char>|
            formats_floats_as(*fmt, h) ==> (final(emitted)@, final(out)@ ) == ({
                let r = #[trigger] spec_emit_props(graph.objects@, props@, depth as nat, old(emitted)@, fuel, h);
                (r.0, old(out)@ + r.1)
            }),
    decreases fuel, 2int, props@.len(),
{
    let ghost em0 = emitted@;
    let ghost start = out@;
    let mut i: usize = 0;
    proof {
        assert(props@.subrange(0, 0) =~= Seq::<(String, RdoValue)>::empty());
        assert(out@ =~= start + Seq::<char>::empty());
    }
    while i < props.len()
        invariant
            i <= props@.len(),
            forall|b: u32| #[trigger] fmt.requires((b,)),
            depth + 2 * fuel + 1 < usize::MAX,
            em0.subset_of(emitted@),
            fuel >= unwritten(graph.objects@, em0) + 2,
            forall|h: spec_fn(u32) -> Seq<char>|
                formats_floats_as(*fmt, h) ==> (emitted@, out@) == ({
                    let r = #[trigger] spec_emit_props(
                        graph.objects@,
                        props@.subrange(0, i as int),
                        depth as nat,
                        em0,
                        fuel,
                        h,
                    );
                    (r.0, start + r.1)
                }),
        decreases props.len() - i,
    {
        let ghost em_i = emitted@;
        let ghost out_i = out@;
        proof {
            lemma_unwritten_shrinks(graph.objects@, em0, em_i);
        }
        emit_prop(graph, props[i].0.as_str(), &props[i].1, depth, emitted, out, fmt, Ghost(fuel));
        proof {
            let t = props@.subrange(0, i + 1);
            assert(t.drop_last() =~= props@.subrange(0, i as int));
            assert(t.last() == props@[i as int]);
            assert forall|h: spec_fn(u32) -> Seq<char>|
                formats_floats_as(*fmt, h) implies (emitted@, out@) == ({
                    let r = #[trigger] spec_emit_props(graph.objects@, t, depth as nat, em0, fuel, h);
                    (r.0, start + r.1)
                }) by {
                let a = spec_emit_props(graph.objects@, props@.subrange(0, i as int), depth as nat, em0, fuel, h);
                assert(em_i == a.0 && out_i == start + a.1);
                let b = spec_emit_prop(graph.objects@, props@[i as int].0@, props@[i as int].1, depth as nat, em_i, fuel, h);
                assert(emitted@ == b.0 && out@ == out_i + b.1);
                assert(out@ =~= start + (a.1 + b.1));
            }
        }
        i += 1;
    }
    proof {
        assert(props@.subrange(0, i as int) =~= props@);
    }
}

fn emit_prop<F: Fn(u32) -> String>(
    graph: &RdoGraph,
    name: &str,
    v: &RdoValue,
    depth: usize,
    emitted: &mut HashSet<u64>,
    out: &mut String,
    fmt: &F,
    Ghost(fuel): Ghost<nat>,
)
    requires
        forall|b: u32| #[trigger] fmt.requires((b,)),
        fuel >= unwritten(graph.objects@, old(emitted)@) + 2,
        depth + 2 * fuel + 1 < usize::MAX,
    ensures
        old(emitted)@.subset_of(final(emitted)@),
        forall|h: spec_fn(u32) -> Seq<char>|
            formats_floats_as(*fmt, h) ==> (final(emitted)@, final(out)@ ) == ({
                let r = #[trigger] spec_emit_prop(graph.objects@, name@, *v, depth as nat, old(emitted)@, fuel, h);
                (r.0, old(out)@ + r.1)
            }),
    decreases fuel, 1int, 0int,
{
    let ghost em0 = emitted@;
    let ghost start = out@;
    match v {
        RdoValue::Children(ids) => {
            if ids.len() == 0 {
                push_leaf(name, v, depth, out, fmt);
                return;
            }
            push_tabs(out, depth);
            out.append("<DataProperty Name=\"");
            let en: String = escape(name);
            out.append(en.as_str());
            out.append("\" Type=\"Object\">\r\n");
            push_value_lines(graph, ids, depth + 1, out);
            let ghost lines_end = out@;
            let ghost em_before = emitted@;
            emit_children(graph, ids, depth + 1, emitted, out, fmt, Ghost(fuel));
            let ghost kids_end = out@;
            push_tabs(out, depth);
            out.append("</DataProperty>\r\n");
            proof {
                assert forall|h: spec_fn(u32) -> Seq<char>|
                    formats_floats_as(*fmt, h) implies (emitted@, out@) == ({
                        let r = #[trigger] spec_emit_prop(graph.objects@, name@, *v, depth as nat, em0, fuel, h);
                        (r.0, start + r.1)
                    }) by {
                    let k = spec_emit_children(graph.objects@, ids@, (depth + 1) as nat, em0, fuel, h);
                    assert(kids_end == lines_end + k.1);
                    assert(out@ =~= start + (tabs(depth as nat) + "<DataProperty Name=\""@ + escaped(name@)
                        + "\" Type=\"Object\">\r\n"@ + value_lines(graph.objects@, ids@, (depth + 1) as nat) + k.1
                        + tabs(depth as nat) + "</DataProperty>\r\n"@));
                }
            }
        },
        _ => {
            push_leaf(name, v, depth, out, fmt);
        },
    }
}

fn escaped_type_name(graph: &RdoGraph, id: u64) -> (r: String)
    ensures
        r@ == escaped(type_name_text(graph.objects@, id)),
{
    proof {
        reveal_strlit("");
        assert(""@ =~= Seq::<char>::empty());
    }
    match graph.by_id(id) {
        Some(c) => escape(c.ty_name.as_str()),
        None => escape(""),
    }
}

fn push_value_lines(graph: &RdoGraph, ids: &Vec<u64>, depth: usize, out: &mut String)
    ensures
        final(out)@ == old(out)@ + value_lines(graph.objects@, ids@, depth as nat),
{
    let ghost head = out@;
    let mut i: usize = 0;
    proof {
        assert(ids@.subrange(0, 0) =~= Seq::<u64>::empty());
        assert(head =~= head + value_lines(graph.objects@, ids@.subrange(0, 0), depth as nat));
    }
    while i < ids.len()
        invariant
            i <= ids@.len(),
            out@ == head + value_lines(graph.objects@, ids@.subrange(0, i as int), depth as nat),
        decreases ids.len() - i,
    {
        let id: u64 = ids[i];
        let ghost before = out@;
        push_value_line(graph, id, depth, out);
        proof {
            let t = ids@.subrange(0, i + 1);
            assert(t.drop_last() =~= ids@.subrange(0, i as int));
            assert(t.last() == id);
            assert(value_lines(graph.objects@, t, depth as nat) == value_lines(graph.objects@, ids@.subrange(0, i as int), depth as nat) + value_line(graph.objects@, id, depth as nat));
            assert(out@ =~= head + value_lines(graph.objects@, t, depth as nat));
        }
        i += 1;
    }
    proof {
        assert(ids@.subrange(0, i as int) =~= ids@);
    }
}

fn push_value_line(graph: &RdoGraph, id: u64, depth: usize, out: &mut String)
    ensures
        final(out)@ == old(out)@ + value_line(graph.objects@, id, depth as nat),
{
    proof {
        reveal(value_line);
    }
    push_tabs(out, depth);
    out.append("<DataValue Name=\"");
    let kind_name: String = escaped_type_name(graph, id);
    out.append(kind_name.as_str());
    out.append("\">");
    let d: String = decimal_string(id);
    out.append(d.as_str());
    out.append("</DataValue>\r\n");
    proof {
        assert(out@ =~= old(out)@ + value_line(graph.objects@, id, depth as nat));
    }
}

proof fn lemma_children_step(
    g: Seq<RdoObject>,
    ids: Seq<u64>,
    i: int,
    depth: nat,
    em: Set<u64>,
    fuel: nat,
    h: spec_fn(u32) -> Seq<char>,
)
    requires
        0 <= i < ids.len(),
        fuel > 0,
    ensures
        spec_emit_children(g, ids.subrange(0, i + 1), depth, em, fuel, h) == ({
            let a = spec_emit_children(g, ids.subrange(0, i), depth, em, fuel, h);
            match object_with_id(g, ids[i]) {
                Some(c) => {
                    let b = spec_emit_object(g, c, depth, a.0, (fuel - 1) as nat, h);
                    (b.0, a.1 + b.1)
                },
                None => a,
            }
        }),
{
    let t = ids.subrange(0, i + 1);
    assert(t.drop_last() =~= ids.subrange(0, i));
    assert(t.last() == ids[i]);
}

fn emit_children<F: Fn(u32) -> String>(
    graph: &RdoGraph,
    ids: &Vec<u64>,
    depth: usize,
    emitted: &mut HashSet<u64>,
    out: &mut String,
    fmt: &F,
    Ghost(fuel): Ghost<nat>,
)
    requires
        forall|b: u32| #[trigger] fmt.requires((b,)),
        fuel >= unwritten(graph.objects@, old(emitted)@) + 2,
        depth + 2 * fuel < usize::MAX,
    ensures
        old(emitted)@.subset_of(final(emitted)@),
        forall|h: spec_fn(u32) -> Seq<char>|
            formats_floats_as(*fmt, h) ==> (final(emitted)@, final(out)@ ) == ({
                let r = #[trigger] spec_emit_children(graph.objects@, ids@, depth as nat, old(emitted)@, fuel, h);
                (r.0, old(out)@ + r.1)
            }),
    decreases fuel, 0int, ids@.len(),
{
    let ghost em0 = emitted@;
    let ghost start = out@;
    let mut i: usize = 0;
    proof {
        assert(ids@.subrange(0, 0) =~= Seq::<u64>::empty());
        assert(out@ =~= start + Seq::<char>::empty());
    }
    while i < ids.len()
        invariant
            i <= ids@.len(),
            forall|b: u32| #[trigger] fmt.requires((b,)),
            depth + 2 * fuel < usize::MAX,
            fuel >= 2,
            em0.subset_of(emitted@),
            fuel >= unwritten(graph.objects@, em0) + 2,
            forall|h: spec_fn(u32) -> Seq<char>|
                formats_floats_as(*fmt, h) ==> (emitted@, out@) == ({
                    let r = #[trigger] spec_emit_children(
                        graph.objects@,
                        ids@.subrange(0, i as int),
                        depth as nat,
                        em0,
                        fuel,
                        h,
                    );
                    (r.0, start + r.1)
                }),
        decreases ids.len() - i,
    {
        let ghost em_i = emitted@;
        let ghost out_i = out@;
        let id: u64 = ids[i];
        proof {
            let t = ids@.subrange(0, i + 1);
            assert(t.drop_last() =~= ids@.subrange(0, i as int));
            assert(t.last() == id);
            lemma_unwritten_shrinks(graph.objects@, em0, em_i);
        }
        match graph.by_id(id) {
            Some(child) => {
                proof {
                    let k = first_where(graph.objects@, has_id(id))->Some_0;
                    lemma_found_in_ids(graph.objects@, k);
                }
                emit_object(graph, child, depth, emitted, out, fmt, Ghost((fuel - 1) as nat));
                proof {
                    assert forall|h: spec_fn(u32) -> Seq<char>|
                        formats_floats_as(*fmt, h) implies (emitted@, out@) == ({
                            let r = #[trigger] spec_emit_children(
                                graph.objects@,
                                ids@.subrange(0, i + 1),
                                depth as nat,
                                em0,
                                fuel,
                                h,
                            );
                            (r.0, start + r.1)
                        }) by {
                        lemma_children_step(graph.objects@, ids@, i as int, depth as nat, em0, fuel, h);
                        let a = spec_emit_children(graph.objects@, ids@.subrange(0, i as int), depth as nat, em0, fuel, h);
                        let b = spec_emit_object(graph.objects@, *child, depth as nat, em_i, (fuel - 1) as nat, h);
                        assert(out@ =~= start + (a.1 + b.1));
                    }
                }
            },
            None => {
                proof {
                    assert forall|h: spec_fn(u32) -> Seq<char>|
                        formats_floats_as(*fmt, h) implies (emitted@, out@) == ({
                            let r = #[trigger] spec_emit_children(
                                graph.objects@,
                                ids@.subrange(0, i + 1),
                                depth as nat,
                                em0,
                                fuel,
                                h,
                            );
                            (r.0, start + r.1)
                        }) by {
                        lemma_children_step(graph.objects@, ids@, i as int, depth as nat, em0, fuel, h);
                    }
                }
            },
        }
        i += 1;
    }
    proof {
        assert(ids@.subrange(0, i as int) =~= ids@);
    }
}

/// Writes the root object and everything it reaches.
fn emit_root<F: Fn(u32) -> String>(graph: &RdoGraph, root: &RdoObject, out: &mut String, fmt: &F)
    requires
        forall|b: u32| #[trigger] fmt.requires((b,)),
        object_ids(graph.objects@).contains(root.id),
        2 * graph.objects@.len() + 6 < usize::MAX,
    ensures
        forall|h: spec_fn(u32) -> Seq<char>|
            formats_floats_as(*fmt, h) ==> final(out)@ == old(out)@ + #[trigger] object_text(graph.objects@, *root, h),
{
    proof {
        reveal(object_text);
    }
    let mut emitted: HashSet<u64> = HashSet::new();
    let ghost fuel = (graph.objects@.len() + 1) as nat;
    proof {
        broadcast use vstd::seq_lib::seq_to_set_is_finite;

        graph.objects@.map_values(|o: RdoObject| o.id).lemma_cardinality_of_set();
        vstd::set_lib::lemma_len_subset(
            object_ids(graph.objects@).difference(emitted@),
            object_ids(graph.objects@),
        );
        assert(emitted@ == Set::<u64>::empty());
    }
    emit_object(graph, root, 1, &mut emitted, out, fmt, Ghost(fuel));
}

#[verifier::rlimit(60)]
#[verifier::spinoff_prover]
fn push_root_text<F: Fn(u32) -> String>(graph: &RdoGraph, out: &mut String, fmt: &F)
    requires
        forall|b: u32| #[trigger] fmt.requires((b,)),
        2 * graph.objects@.len() + 6 < usize::MAX,
    ensures
        forall|h: spec_fn(u32) -> Seq<char>|
            formats_floats_as(*fmt, h) ==> final(out)@ == old(out)@ + #[trigger] root_text(graph.objects@, h),
{
    let ghost start = out@;
    match graph.root() {
        Some(root) => {
            out.append("\t<!--");
            out.append(root.ty_name.as_str());
            out.append("/-->\r\n");
            let ghost mid = out@;
            proof {
                let k = first_where(graph.objects@, root_test())->Some_0;
                lemma_found_in_ids(graph.objects@, k);
            }
            emit_root(graph, root, out, fmt);
            proof {
                assert forall|h: spec_fn(u32) -> Seq<char>|
                    formats_floats_as(*fmt, h) implies out@ == start + #[trigger] root_text(graph.objects@, h) by {
                    assert(out@ == mid + object_text(graph.objects@, *root, h));
                    assert(out@ =~= start + root_text(graph.objects@, h));
                }
            }
        },
        None => {
            proof {
                assert(out@ =~= start + root_text(graph.objects@, |b: u32| Seq::<char>::empty()));
            }
        },
    }
}

impl RdoGraph {
    /// The graph as `.rdo` text: the first root object and every object it
    /// reaches, each once; `fmt` writes the text of a float from its bits.
    pub fn to_xml<F: Fn(u32) -> String>(&self, fmt: F) -> (r: String)
        requires
            forall|b: u32| #[trigger] fmt.requires((b,)),
            2 * self.objects@.len() + 6 < usize::MAX,
        ensures
            forall|h: spec_fn(u32) -> Seq<char>|
                formats_floats_as(fmt, h) ==> r@ == #[trigger] spec_to_xml(self.objects@, h),
    {
        let mut out: String = String::from_str("<DataWarehouse>\r\n");
        let ghost start = out@;
        push_root_text(self, &mut out, &fmt);
        let ghost mid = out@;
        out.append("</DataWarehouse>\r\n");
        proof {
            assert forall|h: spec_fn(u32) -> Seq<char>|
                formats_floats_as(fmt, h) implies out@ == #[trigger] spec_to_xml(self.objects@, h) by {
                assert(mid == start + root_text(self.objects@, h));
                assert(out@ =~= spec_to_xml(self.objects@, h));
            }
        }
        out
    }
}

} // verus!
