//! Reading an `.rdo` document into the flat object graph.
use vstd::prelude::*;

use vstd::string::{StrSliceExecFns, StringExecFns, StringSliceAdditionalSpecFns};

use crate::attrib::{is_true_text, str_eq, true_text};
use crate::le::same_bytes;
use crate::rdo::{
    view_props, view_rdo_object, view_rdo_objects, view_rdo_value, RdoGraph, RdoObject, RdoValue, ScalarType,
    SpecRdoObject, SpecRdoValue,
};
use crate::reflect_type::{chars_match, trim_range, trimmed};
use crate::text::{lossy_string, utf8_text};
use crate::xml::{
    parse_i32, parse_i64, parse_u32, parse_u64, read_xml_events, spec_parse_int, view_events, xml_events,
    SpecXmlEvent, XmlEvent,
};

verus! {

// ---------------------------------------------------------------------------
// Text
// ---------------------------------------------------------------------------
/// Every occurrence of `p` in `s`, left to right and not overlapping,
/// replaced by `r` (as `str::replace` does).
pub open spec fn replace_text(s: Seq<char>, p: Seq<char>, r: Seq<char>) -> Seq<char>
    decreases s.len(),
{
    if p.len() == 0 || s.len() < p.len() {
        s
    } else if s.subrange(0, p.len() as int) == p {
        r + replace_text(s.subrange(p.len() as int, s.len() as int), p, r)
    } else {
        seq![s[0]] + replace_text(s.subrange(1, s.len() as int), p, r)
    }
}

fn replace(s: &str, p: &str, r: &str) -> (out: String)
    requires
        p@.len() > 0,
    ensures
        out@ == replace_text(s@, p@, r@),
{
    let n: usize = s.unicode_len();
    let pl: usize = p.unicode_len();
    let mut out: String = String::new();
    let mut i: usize = 0;
    proof {
        assert(s@.subrange(0, n as int) =~= s@);
        assert(out@ + replace_text(s@.subrange(0, n as int), p@, r@) =~= replace_text(s@, p@, r@));
    }
    while i < n
        invariant
            i <= n,
            n == s@.len(),
            pl == p@.len(),
            pl > 0,
            out@ + replace_text(s@.subrange(i as int, n as int), p@, r@) == replace_text(s@, p@, r@),
        decreases n - i,
    {
        let ghost rest = s@.subrange(i as int, n as int);
        if pl <= n - i && chars_match(s, i, p) {
            out.append(r);
            proof {
                assert(rest.subrange(0, pl as int) =~= s@.subrange(i as int, i + pl));
                assert(rest.subrange(pl as int, rest.len() as int) =~= s@.subrange(i + pl, n as int));
                assert(out@ + replace_text(s@.subrange(i + pl, n as int), p@, r@) =~= replace_text(s@, p@, r@));
            }
            i = i + pl;
        } else {
            out.append(s.substring_char(i, i + 1));
            proof {
                if pl <= n - i {
                    assert(rest.subrange(0, pl as int) =~= s@.subrange(i as int, i + pl));
                }
                assert(s@.subrange(i as int, i + 1) =~= seq![rest[0]]);
                assert(rest.subrange(1, rest.len() as int) =~= s@.subrange(i + 1, n as int));
                assert(out@ + replace_text(s@.subrange(i + 1, n as int), p@, r@) =~= replace_text(s@, p@, r@));
            }
            i = i + 1;
        }
    }
    proof {
        assert(s@.subrange(i as int, n as int) =~= Seq::<char>::empty());
        assert(out@ =~= out@ + replace_text(s@.subrange(i as int, n as int), p@, r@));
    }
    out
}

/// The entities of `.rdo` attribute values resolved: `&lt;`, `&gt;`,
/// `&quot;`, `&apos;`, then `&amp;`, each replaced in turn.
pub open spec fn unescaped(s: Seq<char>) -> Seq<char> {
    replace_text(
        replace_text(
            replace_text(replace_text(replace_text(s, "&lt;"@, "<"@), "&gt;"@, ">"@), "&quot;"@, "\""@),
            "&apos;"@,
            "'"@,
        ),
        "&amp;"@,
        "&"@,
    )
}

fn unescape(raw: &str) -> (r: String)
    ensures
        r@ == unescaped(raw@),
{
    proof {
        reveal_strlit("&lt;");
        reveal_strlit("&gt;");
        reveal_strlit("&quot;");
        reveal_strlit("&apos;");
        reveal_strlit("&amp;");
    }
    let a: String = replace(raw, "&lt;", "<");
    let b: String = replace(a.as_str(), "&gt;", ">");
    let c: String = replace(b.as_str(), "&quot;", "\"");
    let d: String = replace(c.as_str(), "&apos;", "'");
    replace(d.as_str(), "&amp;", "&")
}

/// The value of a hex digit byte.
pub open spec fn hex_value(b: u8) -> Option<u8> {
    if 48 <= b <= 57 {
        Some((b - 48) as u8)
    } else if 97 <= b <= 102 {
        Some((b - 87) as u8)
    } else if 65 <= b <= 70 {
        Some((b - 55) as u8)
    } else {
        None
    }
}

/// The bytes of hex text: each pair of hex digits in turn, a pair that is
/// not two hex digits (and a last lone byte) skipped.
pub open spec fn hex_decoded(s: Seq<u8>) -> Seq<u8>
    decreases s.len(),
{
    if s.len() < 2 {
        Seq::empty()
    } else {
        let rest = hex_decoded(s.subrange(2, s.len() as int));
        match (hex_value(s[0]), hex_value(s[1])) {
            (Some(hi), Some(lo)) => seq![(hi * 16 + lo) as u8] + rest,
            _ => rest,
        }
    }
}

fn hex_val(b: u8) -> (r: Option<u8>)
    ensures
        r == hex_value(b),
{
    if 48 <= b && b <= 57 {
        Some(b - 48)
    } else if 97 <= b && b <= 102 {
        Some(b - 87)
    } else if 65 <= b && b <= 70 {
        Some(b - 55)
    } else {
        None
    }
}

fn hex_decode(s: &str) -> (r: Vec<u8>)
    ensures
        r@ == hex_decoded(s.spec_bytes()),
{
    let b: &[u8] = s.as_bytes();
    let n: usize = b.len();
    let mut out: Vec<u8> = Vec::new();
    let mut i: usize = 0;
    proof {
        assert(b@.subrange(0, n as int) =~= b@);
        assert(out@ + hex_decoded(b@.subrange(0, n as int)) =~= hex_decoded(b@));
    }
    while i < n && n - i >= 2
        invariant
            i <= n,
            n == b@.len(),
            out@ + hex_decoded(b@.subrange(i as int, n as int)) == hex_decoded(b@),
        decreases n - i,
    {
        let ghost rest = b@.subrange(i as int, n as int);
        proof {
            assert(rest[0] == b@[i as int] && rest[1] == b@[i + 1]);
            assert(rest.subrange(2, rest.len() as int) =~= b@.subrange(i + 2, n as int));
        }
        match (hex_val(b[i]), hex_val(b[i + 1])) {
            (Some(hi), Some(lo)) => {
                out.push(hi * 16 + lo);
                proof {
                    assert(out@ + hex_decoded(b@.subrange(i + 2, n as int)) =~= hex_decoded(b@));
                }
            },
            _ => {},
        }
        i = i + 2;
    }
    proof {
        assert(hex_decoded(b@.subrange(i as int, n as int)) =~= Seq::<u8>::empty());
        assert(out@ =~= out@ + hex_decoded(b@.subrange(i as int, n as int)));
    }
    out
}

// ---------------------------------------------------------------------------
// Attributes and values
// ---------------------------------------------------------------------------
/// The value of the first attribute called `name`, its entities resolved.
pub open spec fn rdo_attr(attrs: Seq<(Seq<u8>, Seq<u8>)>, name: Seq<char>) -> Option<Seq<char>>
    decreases attrs.len(),
{
    if attrs.len() == 0 {
        None
    } else if attrs[0].0 == vstd::utf8::encode_utf8(name) {
        Some(unescaped(utf8_text(attrs[0].1)))
    } else {
        rdo_attr(attrs.subrange(1, attrs.len() as int), name)
    }
}

pub open spec fn text_or_empty(v: Option<Seq<char>>) -> Seq<char> {
    match v {
        Some(t) => t,
        None => Seq::empty(),
    }
}

/// A decimal `u64` attribute, 0 when missing or not a number.
pub open spec fn u64_or_zero(v: Option<Seq<char>>) -> u64 {
    match v {
        Some(t) => match spec_parse_int(t, 0, u64::MAX as int) {
            Some(n) => n as u64,
            None => 0,
        },
        None => 0,
    }
}

/// A decimal `u32` attribute, 0 when missing or not a number.
pub open spec fn u32_or_zero(v: Option<Seq<char>>) -> u32 {
    match v {
        Some(t) => match spec_parse_int(t, 0, u32::MAX as int) {
            Some(n) => n as u32,
            None => 0,
        },
        None => 0,
    }
}

/// The scalar type a property's `Type` names; any other name reads as
/// `UInt64`.
pub open spec fn scalar_type_named(t: Seq<char>) -> ScalarType {
    if t == "Float"@ {
        ScalarType::Float
    } else if t == "Int32"@ {
        ScalarType::Int32
    } else if t == "UInt32"@ {
        ScalarType::UInt32
    } else if t == "Int64"@ {
        ScalarType::Int64
    } else if t == "UInt8"@ {
        ScalarType::UInt8
    } else {
        ScalarType::UInt64
    }
}

/// The bits of a scalar's text: a float as `g` reads it, an `Int32` as a
/// decimal `i32`, anything else as a decimal `u64` or else `i64`; 0 when the
/// text does not read. Read `strict`ly (as the compiler reads), an `Int64`
/// is a decimal `i64` only and any other type a decimal `u64` only.
pub open spec fn scalar_bits(t: ScalarType, text: Seq<char>, g: spec_fn(Seq<char>) -> Option<u32>, strict: bool) -> u64 {
    match t {
        ScalarType::Float => match g(text) {
            Some(b) => b as u64,
            None => 0,
        },
        ScalarType::Int32 => match spec_parse_int(text, i32::MIN as int, i32::MAX as int) {
            Some(v) => ((v as i32) as u32) as u64,
            None => 0,
        },
        ScalarType::Int64 if strict => match spec_parse_int(text, i64::MIN as int, i64::MAX as int) {
            Some(v) => (v as i64) as u64,
            None => 0,
        },
        _ => match spec_parse_int(text, 0, u64::MAX as int) {
            Some(v) => v as u64,
            None => if strict {
                0
            } else {
                match spec_parse_int(text, i64::MIN as int, i64::MAX as int) {
                    Some(v) => (v as i64) as u64,
                    None => 0,
                }
            },
        },
    }
}

/// The value of a self-closing property of type `t`.
pub open spec fn parsed_value(
    t: Seq<char>,
    value: Seq<char>,
    attrs: Seq<(Seq<u8>, Seq<u8>)>,
    g: spec_fn(Seq<char>) -> Option<u32>,
    strict: bool,
) -> SpecRdoValue {
    if t == "Bool"@ {
        SpecRdoValue::Bool(is_true_text(value))
    } else if t == "String"@ {
        SpecRdoValue::Text(value)
    } else if t == "Bytes"@ {
        SpecRdoValue::Bytes(u32_or_zero(rdo_attr(attrs, "Count"@)), hex_decoded(vstd::utf8::encode_utf8(value)))
    } else {
        SpecRdoValue::Scalar(scalar_type_named(t), scalar_bits(scalar_type_named(t), value, g, strict))
    }
}

/// `f` reads each float text `s` as `g(s)`.
pub open spec fn reads_floats_as<F: Fn(&str) -> Option<u32>>(f: F, g: spec_fn(Seq<char>) -> Option<u32>) -> bool {
    forall|s: &str, o: Option<u32>| #[trigger] f.ensures((s,), o) ==> o == g(s@)
}

fn rdo_attr_of(attrs: &Vec<(Vec<u8>, Vec<u8>)>, name: &str) -> (r: Option<String>)
    ensures
        match rdo_attr(crate::xml::view_attrs(attrs@), name@) {
            Some(v) => r matches Some(x) && x@ == v,
            None => r is None,
        },
{
    let ghost a = crate::xml::view_attrs(attrs@);
    let key: &[u8] = name.as_bytes();
    let mut i: usize = 0;
    proof {
        assert(a.subrange(0, a.len() as int) =~= a);
    }
    while i < attrs.len()
        invariant
            i <= attrs@.len(),
            a == crate::xml::view_attrs(attrs@),
            key@ == vstd::utf8::encode_utf8(name@),
            rdo_attr(a, name@) == rdo_attr(a.subrange(i as int, a.len() as int), name@),
        decreases attrs.len() - i,
    {
        let ghost t = a.subrange(i as int, a.len() as int);
        proof {
            assert(t[0] == (attrs@[i as int].0@, attrs@[i as int].1@));
            assert(t.subrange(1, t.len() as int) =~= a.subrange(i + 1, a.len() as int));
        }
        if same_bytes(attrs[i].0.as_slice(), key) {
            let text: String = lossy_string(attrs[i].1.as_slice());
            return Some(unescape(text.as_str()));
        }
        i += 1;
    }
    None
}

fn u64_value(v: &Option<String>) -> (r: u64)
    ensures
        r == u64_or_zero(match v {
            Some(t) => Some(t@),
            None => None,
        }),
{
    match v {
        Some(t) => match parse_u64(t.as_str()) {
            Some(n) => n,
            None => 0,
        },
        None => 0,
    }
}

fn u32_value(v: &Option<String>) -> (r: u32)
    ensures
        r == u32_or_zero(match v {
            Some(t) => Some(t@),
            None => None,
        }),
{
    match v {
        Some(t) => match parse_u32(t.as_str()) {
            Some(n) => n,
            None => 0,
        },
        None => 0,
    }
}

fn scalar_type_of(t: &str) -> (r: ScalarType)
    ensures
        r == scalar_type_named(t@),
{
    if str_eq(t, "Float") {
        ScalarType::Float
    } else if str_eq(t, "Int32") {
        ScalarType::Int32
    } else if str_eq(t, "UInt32") {
        ScalarType::UInt32
    } else if str_eq(t, "Int64") {
        ScalarType::Int64
    } else if str_eq(t, "UInt8") {
        ScalarType::UInt8
    } else {
        ScalarType::UInt64
    }
}

fn scalar_bits_of<F: Fn(&str) -> Option<u32>>(t: ScalarType, text: &str, parse_float: &F, strict: bool) -> (r: u64)
    requires
        forall|s: &str| #[trigger] parse_float.requires((s,)),
    ensures
        forall|g: spec_fn(Seq<char>) -> Option<u32>|
            reads_floats_as(*parse_float, g) ==> r == #[trigger] scalar_bits(t, text@, g, strict),
{
    match t {
        ScalarType::Float => {
            let o: Option<u32> = parse_float(text);
            let r: u64 = match o {
                Some(b) => b as u64,
                None => 0,
            };
            proof {
                assert forall|g: spec_fn(Seq<char>) -> Option<u32>|
                    reads_floats_as(*parse_float, g) implies r == #[trigger] scalar_bits(t, text@, g, strict) by {
                    assert(o == g(text@));
                }
            }
            r
        },
        ScalarType::Int32 => match parse_i32(text) {
            Some(v) => (v as u32) as u64,
            None => 0,
        },
        ScalarType::Int64 if strict => match parse_i64(text) {
            Some(v) => v as u64,
            None => 0,
        },
        _ => match parse_u64(text) {
            Some(v) => v,
            None => if strict {
                0
            } else {
                match parse_i64(text) {
                    Some(v) => v as u64,
                    None => 0,
                }
            },
        },
    }
}

fn parsed_value_of<F: Fn(&str) -> Option<u32>>(
    t: &str,
    value: String,
    attrs: &Vec<(Vec<u8>, Vec<u8>)>,
    parse_float: &F,
    strict: bool,
) -> (r: RdoValue)
    requires
        forall|s: &str| #[trigger] parse_float.requires((s,)),
    ensures
        forall|g: spec_fn(Seq<char>) -> Option<u32>|
            reads_floats_as(*parse_float, g) ==> view_rdo_value(r) == #[trigger] parsed_value(
                t@,
                value@,
                crate::xml::view_attrs(attrs@),
                g,
                strict,
            ),
{
    if str_eq(t, "Bool") {
        RdoValue::Bool(true_text(value.as_str()))
    } else if str_eq(t, "String") {
        RdoValue::String(value)
    } else if str_eq(t, "Bytes") {
        let count: u32 = u32_value(&rdo_attr_of(attrs, "Count"));
        RdoValue::Bytes { count, data: hex_decode(value.as_str()) }
    } else {
        let ty: ScalarType = scalar_type_of(t);
        let bits: u64 = scalar_bits_of(ty, value.as_str(), parse_float, strict);
        RdoValue::Scalar { xml_type: ty, bits }
    }
}

// ---------------------------------------------------------------------------
// The document
// ---------------------------------------------------------------------------
/// The reader's state: the objects so far, the open `<DataObject>`s (as
/// object indices), the open object-valued properties (object index,
/// property index), and whether a `<DataValue>` is open.
pub struct RdoReadState {
    pub objects: Seq<SpecRdoObject>,
    pub stack: Seq<int>,
    pub open: Seq<(int, int)>,
    pub in_value: bool,
    pub strict: bool,
}

pub open spec fn tag_is(n: Seq<u8>, name: Seq<char>) -> bool {
    n == vstd::utf8::encode_utf8(name)
}

/// `o` with one more property.
pub open spec fn with_prop(o: SpecRdoObject, p: (Seq<char>, SpecRdoValue)) -> SpecRdoObject {
    SpecRdoObject { id: o.id, ty_name: o.ty_name, owner_id: o.owner_id, props: o.props.push(p) }
}

pub open spec fn start_object(st: RdoReadState, a: Seq<(Seq<u8>, Seq<u8>)>) -> RdoReadState {
    RdoReadState {
        objects: st.objects.push(
            SpecRdoObject {
                id: u64_or_zero(rdo_attr(a, "Id"@)),
                ty_name: text_or_empty(rdo_attr(a, "Type"@)),
                owner_id: u64_or_zero(rdo_attr(a, "OwnerId"@)),
                props: Seq::empty(),
            },
        ),
        stack: st.stack.push(st.objects.len() as int),
        open: st.open,
        in_value: st.in_value,
        strict: st.strict,
    }
}

/// An opening `Object` property of the innermost open object starts an
/// empty list of children.
pub open spec fn start_property(st: RdoReadState, a: Seq<(Seq<u8>, Seq<u8>)>) -> RdoReadState {
    if rdo_attr(a, "Type"@) == Some("Object"@) && st.stack.len() > 0 && rdo_attr(a, "Name"@) is Some && 0
        <= st.stack.last() < st.objects.len() {
        let cur = st.stack.last();
        let o = st.objects[cur];
        RdoReadState {
            objects: st.objects.update(
                cur,
                with_prop(o, (rdo_attr(a, "Name"@)->Some_0, SpecRdoValue::Children(Seq::empty()))),
            ),
            stack: st.stack,
            open: st.open.push((cur, o.props.len() as int)),
            in_value: st.in_value,
            strict: st.strict,
        }
    } else {
        st
    }
}

/// Text inside a `<DataValue>` that reads as a `u64` adds a child id to the
/// innermost open object-valued property.
pub open spec fn value_text(st: RdoReadState, raw: Seq<u8>) -> RdoReadState {
    if st.in_value && st.open.len() > 0 {
        let (o, p) = st.open.last();
        match spec_parse_int(trimmed(utf8_text(raw)), 0, u64::MAX as int) {
            Some(id) => if 0 <= o < st.objects.len() && 0 <= p < st.objects[o].props.len()
                && st.objects[o].props[p].1 is Children {
                let obj = st.objects[o];
                let (name, v) = obj.props[p];
                RdoReadState {
                    objects: st.objects.update(
                        o,
                        SpecRdoObject {
                            id: obj.id,
                            ty_name: obj.ty_name,
                            owner_id: obj.owner_id,
                            props: obj.props.update(p, (name, SpecRdoValue::Children(v->Children_0.push(id as u64)))),
                        },
                    ),
                    stack: st.stack,
                    open: st.open,
                    in_value: st.in_value,
                    strict: st.strict,
                }
            } else {
                st
            },
            None => st,
        }
    } else {
        st
    }
}

/// A self-closing property of the innermost open object: an empty object
/// property, or a value read by its `Type`.
pub open spec fn empty_property(
    st: RdoReadState,
    a: Seq<(Seq<u8>, Seq<u8>)>,
    g: spec_fn(Seq<char>) -> Option<u32>,
) -> RdoReadState {
    let t = text_or_empty(rdo_attr(a, "Type"@));
    if st.stack.len() == 0 || !(0 <= st.stack.last() < st.objects.len()) {
        st
    } else {
        let cur = st.stack.last();
        match rdo_attr(a, "Name"@) {
            None => st,
            Some(name) => if t == "Object"@ {
                RdoReadState {
                    objects: st.objects.update(cur, with_prop(st.objects[cur], (name, SpecRdoValue::Children(Seq::empty())))),
                    ..st
                }
            } else {
                match rdo_attr(a, "Value"@) {
                    None => st,
                    Some(value) => RdoReadState {
                        objects: st.objects.update(cur, with_prop(st.objects[cur], (name, parsed_value(t, value, a, g, st.strict)))),
                        ..st
                    },
                }
            },
        }
    }
}

pub open spec fn rdo_step(st: RdoReadState, ev: SpecXmlEvent, g: spec_fn(Seq<char>) -> Option<u32>) -> RdoReadState {
    match ev {
        SpecXmlEvent::Start(n, a) => if tag_is(n, "DataObject"@) {
            start_object(st, a)
        } else if tag_is(n, "DataProperty"@) {
            start_property(st, a)
        } else if tag_is(n, "DataValue"@) {
            RdoReadState { in_value: true, ..st }
        } else {
            st
        },
        SpecXmlEvent::Text(raw) => value_text(st, raw),
        SpecXmlEvent::End(n) => if tag_is(n, "DataValue"@) {
            RdoReadState { in_value: false, ..st }
        } else if tag_is(n, "DataObject"@) {
            if st.stack.len() > 0 {
                RdoReadState { stack: st.stack.drop_last(), ..st }
            } else {
                st
            }
        } else if tag_is(n, "DataProperty"@) {
            if st.open.len() > 0 {
                RdoReadState { open: st.open.drop_last(), ..st }
            } else {
                st
            }
        } else {
            st
        },
        SpecXmlEvent::Empty(n, a) => if tag_is(n, "DataProperty"@) {
            empty_property(st, a, g)
        } else {
            st
        },
        SpecXmlEvent::Other => st,
    }
}

pub open spec fn rdo_run(evs: Seq<SpecXmlEvent>, g: spec_fn(Seq<char>) -> Option<u32>, strict: bool) -> RdoReadState
    decreases evs.len(),
{
    if evs.len() == 0 {
        RdoReadState { objects: Seq::empty(), stack: Seq::empty(), open: Seq::empty(), in_value: false, strict }
    } else {
        rdo_step(rdo_run(evs.drop_last(), g, strict), evs.last(), g)
    }
}

/// Why an `.rdo` document could not be read.
#[derive(Debug, Clone, Copy, PartialEq, Eq)]
pub enum RdoError {
    /// The XML itself could not be read.
    Xml,
}

/// The objects of an `.rdo` document, floats read by `g`.
pub open spec fn spec_parse_rdo(xml: Seq<char>, g: spec_fn(Seq<char>) -> Option<u32>) -> Result<
    Seq<SpecRdoObject>,
    RdoError,
> {
    match xml_events(xml) {
        None => Err(RdoError::Xml),
        Some(evs) => Ok(rdo_run(evs, g, false).objects),
    }
}

/// The objects of an `.rdo` document as the compiler reads it: scalars
/// read strictly (see `scalar_bits`), floats read by `g`.
pub open spec fn spec_compile_rdo(xml: Seq<char>, g: spec_fn(Seq<char>) -> Option<u32>) -> Result<
    Seq<SpecRdoObject>,
    RdoError,
> {
    match xml_events(xml) {
        None => Err(RdoError::Xml),
        Some(evs) => Ok(rdo_run(evs, g, true).objects),
    }
}

struct Reader {
    objects: Vec<RdoObject>,
    stack: Vec<usize>,
    open: Vec<(usize, usize)>,
    in_value: bool,
    strict: bool,
}

spec fn view_stack(s: Seq<usize>) -> Seq<int> {
    s.map_values(|x: usize| x as int)
}

spec fn view_open(s: Seq<(usize, usize)>) -> Seq<(int, int)> {
    s.map_values(|x: (usize, usize)| (x.0 as int, x.1 as int))
}

spec fn view_reader(r: Reader) -> RdoReadState {
    RdoReadState {
        objects: view_rdo_objects(r.objects@),
        stack: view_stack(r.stack@),
        open: view_open(r.open@),
        in_value: r.in_value,
        strict: r.strict,
    }
}

proof fn lemma_objects_update(s: Seq<RdoObject>, i: int, o: RdoObject)
    requires
        0 <= i < s.len(),
    ensures
        view_rdo_objects(s.update(i, o)) == view_rdo_objects(s).update(i, view_rdo_object(o)),
{
    assert(view_rdo_objects(s.update(i, o)) =~= view_rdo_objects(s).update(i, view_rdo_object(o)));
}

impl Reader {
    fn push_prop(&mut self, cur: usize, name: String, v: RdoValue)
        requires
            cur < old(self).objects@.len(),
        ensures
            view_reader(*final(self)) == (RdoReadState {
                objects: view_reader(*old(self)).objects.update(
                    cur as int,
                    with_prop(view_reader(*old(self)).objects[cur as int], (name@, view_rdo_value(v))),
                ),
                ..view_reader(*old(self))
            }),
            final(self).objects@[cur as int].props@.len() == old(self).objects@[cur as int].props@.len() + 1,
            final(self).objects@.len() == old(self).objects@.len(),
    {
        let ghost before = self.objects@;
        let ghost o = before[cur as int];
        self.objects[cur].props.push((name, v));
        proof {
            let n = self.objects@[cur as int];
            assert(self.objects@ =~= before.update(cur as int, n));
            assert(view_props(n.props@) =~= view_props(o.props@).push((name@, view_rdo_value(v))));
            lemma_objects_update(before, cur as int, n);
            assert(view_reader(*self).objects =~= view_reader(*old(self)).objects.update(
                cur as int,
                with_prop(view_reader(*old(self)).objects[cur as int], (name@, view_rdo_value(v))),
            ));
        }
    }

    fn start_object(&mut self, attrs: &Vec<(Vec<u8>, Vec<u8>)>)
        ensures
            view_reader(*final(self)) == start_object(view_reader(*old(self)), crate::xml::view_attrs(attrs@)),
    {
        let ghost a = crate::xml::view_attrs(attrs@);
        let id_text: Option<String> = rdo_attr_of(attrs, "Id");
        let id: u64 = u64_value(&id_text);
        assert(id == u64_or_zero(rdo_attr(a, "Id"@)));
        let ty: String = match rdo_attr_of(attrs, "Type") {
            Some(t) => t,
            None => {
                proof {
                    reveal_strlit("");
                    assert(""@ =~= Seq::<char>::empty());
                }
                String::from_str("")
            },
        };
        assert(ty@ == text_or_empty(rdo_attr(a, "Type"@)));
        let owner_text: Option<String> = rdo_attr_of(attrs, "OwnerId");
        let owner: u64 = u64_value(&owner_text);
        assert(owner == u64_or_zero(rdo_attr(a, "OwnerId"@)));
        let idx: usize = self.objects.len();
        let o = RdoObject { id, ty_name: ty, owner_id: owner, props: Vec::new() };
        let ghost before = *self;
        self.objects.push(o);
        self.stack.push(idx);
        proof {
            assert(view_props(o.props@) =~= Seq::<(Seq<char>, SpecRdoValue)>::empty());
            assert(view_rdo_objects(self.objects@) =~= view_rdo_objects(before.objects@).push(view_rdo_object(o)));
            assert(view_stack(self.stack@) =~= view_stack(before.stack@).push(idx as int));
            let want = start_object(view_reader(before), a);
            assert(view_rdo_object(o) == (SpecRdoObject {
                id: u64_or_zero(rdo_attr(a, "Id"@)),
                ty_name: text_or_empty(rdo_attr(a, "Type"@)),
                owner_id: u64_or_zero(rdo_attr(a, "OwnerId"@)),
                props: Seq::empty(),
            }));
            assert(view_reader(*self).objects =~= want.objects);
            assert(view_reader(*self).stack =~= want.stack);
            assert(view_reader(*self).open =~= want.open);
        }
    }

    fn start_property(&mut self, attrs: &Vec<(Vec<u8>, Vec<u8>)>)
        ensures
            view_reader(*final(self)) == start_property(view_reader(*old(self)), crate::xml::view_attrs(attrs@)),
    {
        let ghost a = crate::xml::view_attrs(attrs@);
        let ghost st = view_reader(*self);
        let ty: Option<String> = rdo_attr_of(attrs, "Type");
        let is_object: bool = match &ty {
            Some(t) => str_eq(t.as_str(), "Object"),
            None => false,
        };
        if !is_object || self.stack.len() == 0 {
            return;
        }
        let cur: usize = self.stack[self.stack.len() - 1];
        proof {
            assert(st.stack.last() == cur as int);
        }
        let name: String = match rdo_attr_of(attrs, "Name") {
            Some(n) => n,
            None => {
                return;
            },
        };
        if cur >= self.objects.len() {
            return;
        }
        let count: usize = self.objects[cur].props.len();
        let ghost mid = view_reader(*self);
        let empty: Vec<u64> = Vec::new();
        proof {
            assert(empty@ =~= Seq::<u64>::empty());
        }
        self.push_prop(cur, name, RdoValue::Children(empty));
        let ghost mid2 = *self;
        self.open.push((cur, count));
        proof {
            assert(view_open(self.open@) =~= view_open(mid2.open@).push((cur as int, count as int)));
            assert(st.objects[cur as int].props.len() == count);
        }
    }

    fn value_text(&mut self, raw: &Vec<u8>)
        ensures
            view_reader(*final(self)) == value_text(view_reader(*old(self)), raw@),
    {
        let ghost st = view_reader(*self);
        if !self.in_value || self.open.len() == 0 {
            return;
        }
        let (o, p) = self.open[self.open.len() - 1];
        proof {
            assert(st.open.last() == (o as int, p as int));
        }
        let text: String = lossy_string(raw.as_slice());
        let n: usize = text.as_str().unicode_len();
        let (lo, hi) = trim_range(text.as_str(), 0, n);
        proof {
            assert(text@.subrange(0, n as int) =~= text@);
        }
        let id: u64 = match parse_u64(text.as_str().substring_char(lo, hi)) {
            Some(v) => v,
            None => {
                return;
            },
        };
        if o >= self.objects.len() || p >= self.objects[o].props.len() {
            return;
        }
        let ghost before = self.objects@;
        let ghost obj = before[o as int];
        let is_children: bool = match &self.objects[o].props[p].1 {
            RdoValue::Children(_) => true,
            _ => false,
        };
        if !is_children {
            proof {
                assert(!(view_rdo_value(obj.props@[p as int].1) is Children));
            }
            return;
        }
        match &mut self.objects[o].props[p].1 {
            RdoValue::Children(ids) => {
                ids.push(id);
            },
            _ => {},
        }
        proof {
            let n2 = self.objects@[o as int];
            assert(self.objects@ =~= before.update(o as int, n2));
            lemma_objects_update(before, o as int, n2);
            let (name, v) = st.objects[o as int].props[p as int];
            assert(view_props(n2.props@) =~= view_props(obj.props@).update(
                p as int,
                (name, SpecRdoValue::Children(v->Children_0.push(id))),
            ));
            assert(view_reader(*self).objects =~= value_text(st, raw@).objects);
        }
    }

    fn empty_property<F: Fn(&str) -> Option<u32>>(&mut self, attrs: &Vec<(Vec<u8>, Vec<u8>)>, parse_float: &F)
        requires
            forall|s: &str| #[trigger] parse_float.requires((s,)),
        ensures
            forall|g: spec_fn(Seq<char>) -> Option<u32>|
                reads_floats_as(*parse_float, g) ==> view_reader(*final(self)) == #[trigger] empty_property(
                    view_reader(*old(self)),
                    crate::xml::view_attrs(attrs@),
                    g,
                ),
    {
        let ghost st = view_reader(*self);
        let t: String = match rdo_attr_of(attrs, "Type") {
            Some(t) => t,
            None => {
                proof {
                    reveal_strlit("");
                    assert(""@ =~= Seq::<char>::empty());
                }
                String::from_str("")
            },
        };
        assert(t@ == text_or_empty(rdo_attr(crate::xml::view_attrs(attrs@), "Type"@)));
        if self.stack.len() == 0 {
            proof {
                assert forall|g: spec_fn(Seq<char>) -> Option<u32>|
                    reads_floats_as(*parse_float, g) implies view_reader(*self) == #[trigger] empty_property(
                    st,
                    crate::xml::view_attrs(attrs@),
                    g,
                ) by {
                    assert(st.stack.len() == 0);
                }
            }
            return;
        }
        let cur: usize = self.stack[self.stack.len() - 1];
        proof {
            assert(st.stack.last() == cur as int);
        }
        if cur >= self.objects.len() {
            proof {
                assert forall|g: spec_fn(Seq<char>) -> Option<u32>|
                    reads_floats_as(*parse_float, g) implies view_reader(*self) == #[trigger] empty_property(
                    st,
                    crate::xml::view_attrs(attrs@),
                    g,
                ) by {
                    assert(!(0 <= st.stack.last() < st.objects.len()));
                }
            }
            return;
        }
        let name: String = match rdo_attr_of(attrs, "Name") {
            Some(n) => n,
            None => {
                return;
            },
        };
        if str_eq(t.as_str(), "Object") {
            let empty: Vec<u64> = Vec::new();
            proof {
                assert(empty@ =~= Seq::<u64>::empty());
            }
            let ghost nm = name@;
            self.push_prop(cur, name, RdoValue::Children(empty));
            proof {
                assert forall|g: spec_fn(Seq<char>) -> Option<u32>|
                    reads_floats_as(*parse_float, g) implies view_reader(*self) == #[trigger] empty_property(
                    st,
                    crate::xml::view_attrs(attrs@),
                    g,
                ) by {
                    assert(rdo_attr(crate::xml::view_attrs(attrs@), "Name"@) == Some(nm));
                    assert(t@ == "Object"@);
                    assert(view_rdo_value(RdoValue::Children(empty)) == SpecRdoValue::Children(Seq::empty()));
                }
            }
            return;
        }
        let value: String = match rdo_attr_of(attrs, "Value") {
            Some(v) => v,
            None => {
                proof {
                    assert forall|g: spec_fn(Seq<char>) -> Option<u32>|
                        reads_floats_as(*parse_float, g) implies view_reader(*self) == #[trigger] empty_property(
                        st,
                        crate::xml::view_attrs(attrs@),
                        g,
                    ) by {
                        assert(t@ != "Object"@);
                        assert(rdo_attr(crate::xml::view_attrs(attrs@), "Value"@) is None);
                    }
                }
                return;
            },
        };
        let ghost vtext = value@;
        let v: RdoValue = parsed_value_of(t.as_str(), value, attrs, parse_float, self.strict);
        self.push_prop(cur, name, v);
        proof {
            assert forall|g: spec_fn(Seq<char>) -> Option<u32>|
                reads_floats_as(*parse_float, g) implies view_reader(*self) == #[trigger] empty_property(
                st,
                crate::xml::view_attrs(attrs@),
                g,
            ) by {
                assert(view_rdo_value(v) == parsed_value(t@, vtext, crate::xml::view_attrs(attrs@), g, st.strict));
            }
        }
    }
}

fn name_is(n: &Vec<u8>, name: &str) -> (r: bool)
    ensures
        r == tag_is(n@, name@),
{
    same_bytes(n.as_slice(), name.as_bytes())
}

impl Reader {
    fn step<F: Fn(&str) -> Option<u32>>(&mut self, ev: &XmlEvent, parse_float: &F)
        requires
            forall|s: &str| #[trigger] parse_float.requires((s,)),
        ensures
            forall|g: spec_fn(Seq<char>) -> Option<u32>|
                reads_floats_as(*parse_float, g) ==> view_reader(*final(self)) == #[trigger] rdo_step(
                    view_reader(*old(self)),
                    crate::xml::view_event(*ev),
                    g,
                ),
    {
        let ghost st = view_reader(*self);
        match ev {
            XmlEvent::Start(n, a) => {
                if name_is(n, "DataObject") {
                    self.start_object(a);
                } else if name_is(n, "DataProperty") {
                    self.start_property(a);
                } else if name_is(n, "DataValue") {
                    self.in_value = true;
                }
            },
            XmlEvent::Text(raw) => {
                self.value_text(raw);
            },
            XmlEvent::End(n) => {
                if name_is(n, "DataValue") {
                    self.in_value = false;
                } else if name_is(n, "DataObject") {
                    let ghost before = self.stack@;
                    if self.stack.len() > 0 {
                        self.stack.pop();
                        proof {
                            assert(view_stack(self.stack@) =~= view_stack(before).drop_last());
                        }
                    }
                } else if name_is(n, "DataProperty") {
                    let ghost before = self.open@;
                    if self.open.len() > 0 {
                        self.open.pop();
                        proof {
                            assert(view_open(self.open@) =~= view_open(before).drop_last());
                        }
                    }
                }
            },
            XmlEvent::Empty(n, a) => {
                if name_is(n, "DataProperty") {
                    self.empty_property(a, parse_float);
                }
            },
            XmlEvent::Other => {},
        }
    }
}

/// Reads an `.rdo` document into its object graph: every `<DataObject>` in
/// document order with its properties; `parse_float` reads the text of a
/// `Float` value as the bits of an `f32`, `None` when it is no number (which
/// reads as 0).
pub fn parse_rdo<F: Fn(&str) -> Option<u32>>(xml: &str, parse_float: F) -> (r: Result<RdoGraph, RdoError>)
    requires
        forall|s: &str| #[trigger] parse_float.requires((s,)),
    ensures
        forall|g: spec_fn(Seq<char>) -> Option<u32>|
            reads_floats_as(parse_float, g) ==> match #[trigger] spec_parse_rdo(xml@, g) {
                Err(e) => r == Err::<RdoGraph, RdoError>(e),
                Ok(objs) => r matches Ok(graph) && view_rdo_objects(graph.objects@) == objs,
            },
{
    read_rdo(xml, parse_float, false)
}

/// Reads an `.rdo` document as the compiler does: as `parse_rdo`, with
/// scalars read strictly (see `scalar_bits`).
pub fn parse_rdo_for_compile<F: Fn(&str) -> Option<u32>>(xml: &str, parse_float: F) -> (r: Result<RdoGraph, RdoError>)
    requires
        forall|s: &str| #[trigger] parse_float.requires((s,)),
    ensures
        forall|g: spec_fn(Seq<char>) -> Option<u32>|
            reads_floats_as(parse_float, g) ==> match #[trigger] spec_compile_rdo(xml@, g) {
                Err(e) => r == Err::<RdoGraph, RdoError>(e),
                Ok(objs) => r matches Ok(graph) && view_rdo_objects(graph.objects@) == objs,
            },
{
    read_rdo(xml, parse_float, true)
}

fn read_rdo<F: Fn(&str) -> Option<u32>>(xml: &str, parse_float: F, strict: bool) -> (r: Result<RdoGraph, RdoError>)
    requires
        forall|s: &str| #[trigger] parse_float.requires((s,)),
    ensures
        xml_events(xml@) is None ==> r == Err::<RdoGraph, RdoError>(RdoError::Xml),
        forall|g: spec_fn(Seq<char>) -> Option<u32>|
            #[trigger] reads_floats_as(parse_float, g) && xml_events(xml@) is Some ==> (r matches Ok(graph)
                && view_rdo_objects(graph.objects@) == rdo_run(xml_events(xml@)->Some_0, g, strict).objects),
{
    let events: Vec<XmlEvent> = match read_xml_events(xml) {
        Some(v) => v,
        None => {
            return Err(RdoError::Xml);
        },
    };
    Ok(rdo_from_events(&events, parse_float, strict))
}

/// Builds the object graph from the XML events of an `.rdo` document: each
/// event is one step of the reader (see `rdo_run`); `strict` selects the
/// compiler's strict reading of scalars.
pub fn rdo_from_events<F: Fn(&str) -> Option<u32>>(events: &Vec<XmlEvent>, parse_float: F, strict: bool) -> (r: RdoGraph)
    requires
        forall|s: &str| #[trigger] parse_float.requires((s,)),
    ensures
        forall|g: spec_fn(Seq<char>) -> Option<u32>|
            #[trigger] reads_floats_as(parse_float, g) ==> view_rdo_objects(r.objects@) == rdo_run(
                view_events(events@),
                g,
                strict,
            ).objects,
{
    let ghost evs = view_events(events@);
    let mut reader = Reader { objects: Vec::new(), stack: Vec::new(), open: Vec::new(), in_value: false, strict };
    let mut i: usize = 0;
    proof {
        assert(evs.subrange(0, 0) =~= Seq::<SpecXmlEvent>::empty());
        assert(view_rdo_objects(reader.objects@) =~= Seq::<SpecRdoObject>::empty());
        assert(view_stack(reader.stack@) =~= Seq::<int>::empty());
        assert(view_open(reader.open@) =~= Seq::<(int, int)>::empty());
    }
    while i < events.len()
        invariant
            i <= events@.len(),
            evs == view_events(events@),
            forall|s: &str| #[trigger] parse_float.requires((s,)),
            forall|g: spec_fn(Seq<char>) -> Option<u32>|
                reads_floats_as(parse_float, g) ==> view_reader(reader) == #[trigger] rdo_run(
                    evs.subrange(0, i as int),
                    g,
                    strict,
                ),
        decreases events.len() - i,
    {
        let ghost before = reader;
        reader.step(&events[i], &parse_float);
        proof {
            let t = evs.subrange(0, i + 1);
            assert(t.drop_last() =~= evs.subrange(0, i as int));
            assert(t.last() == crate::xml::view_event(events@[i as int]));
            assert forall|g: spec_fn(Seq<char>) -> Option<u32>|
                reads_floats_as(parse_float, g) implies view_reader(reader) == #[trigger] rdo_run(t, g, strict) by {
                assert(view_reader(before) == rdo_run(evs.subrange(0, i as int), g, strict));
            }
        }
        i += 1;
    }
    proof {
        assert(evs.subrange(0, i as int) =~= evs);
    }
    RdoGraph { objects: reader.objects }
}

} // verus!
