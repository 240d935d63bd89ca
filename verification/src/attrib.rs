//! Compiles attribute-editor XML into Relic game data (`.rgd`): the root
//! `<mod>` file (mod metadata) and `<instance>` files (attribute instances).
//!
//! Element to node rules:
//! - `<group>` / `<enum_table>` give a List (type 100)
//! - `<list>` gives a List2 (type 101)
//! - `<template_reference value=T>` gives a List `{$REF=T, ...children}`
//! - `<instance_reference value="a\b\name">` gives a List2
//!   `{$PBGNAME=name, $PBGMAP=a\b}`
//! - `<locstring value=V mod=G>` gives a LocString `$G:V`; without `mod`, Int(V)
//! - `<float>` / `<int>` / `<bool>` give scalars; `<file>` a CString;
//!   `<uniqueid>` an Int
//!
//! Any other element, and a number that does not parse, is refused.
use vstd::prelude::*;

use vstd::string::{StrSliceExecFns, StringExecFns};

use crate::container::chunky_bytes;
use crate::le::same_bytes;
use crate::rgd::{view_game_nodes, GameNode, GameValue, SpecGameNode, SpecGameValue};
use crate::rgd_write::{rgd_container, write_rgd};
use crate::text::{lossy_string, utf8_text};
use crate::xml::{
    read_xml_events, spec_parse_int, view_attrs, view_events, xml_events, xml_unescaped, unescape_attr,
    parse_i32, SpecXmlEvent, XmlEvent,
};

verus! {

// ---------------------------------------------------------------------------
// The element tree
// ---------------------------------------------------------------------------
/// An XML element: its tag, its attributes in document order, its child
/// elements.
#[derive(Debug)]
pub struct Elem {
    pub tag: String,
    pub attrs: Vec<(String, String)>,
    pub children: Vec<Elem>,
}

pub struct SpecElem {
    pub tag: Seq<char>,
    pub attrs: Seq<(Seq<char>, Seq<char>)>,
    pub children: Seq<SpecElem>,
}

pub open spec fn view_pairs(a: Seq<(String, String)>) -> Seq<(Seq<char>, Seq<char>)> {
    a.map_values(|p: (String, String)| (p.0@, p.1@))
}

pub open spec fn view_elem(e: Elem) -> SpecElem
    decreases e,
{
    SpecElem { tag: e.tag@, attrs: view_pairs(e.attrs@), children: view_elems(e.children@) }
}

pub open spec fn view_elems(s: Seq<Elem>) -> Seq<SpecElem>
    decreases s,
{
    if s.len() == 0 {
        Seq::empty()
    } else {
        view_elems(s.subrange(0, s.len() - 1)).push(view_elem(s[s.len() - 1]))
    }
}

proof fn lemma_view_elems_push(s: Seq<Elem>, e: Elem)
    ensures
        view_elems(s.push(e)) == view_elems(s).push(view_elem(e)),
{
    assert(s.push(e).subrange(0, s.len() as int) =~= s);
}

proof fn lemma_view_elems_len(s: Seq<Elem>)
    ensures
        view_elems(s).len() == s.len(),
    decreases s.len(),
{
    if s.len() > 0 {
        lemma_view_elems_len(s.subrange(0, s.len() - 1));
    }
}

proof fn lemma_view_elems_index(s: Seq<Elem>, i: int)
    requires
        0 <= i < s.len(),
    ensures
        view_elems(s).len() == s.len(),
        view_elems(s)[i] == view_elem(s[i]),
    decreases s.len(),
{
    lemma_view_elems_len(s);
    if i < s.len() - 1 {
        lemma_view_elems_index(s.subrange(0, s.len() - 1), i);
    }
}

/// An attribute's value: the text with its entities resolved, or, where that
/// fails, the raw bytes decoded.
pub open spec fn attr_text(raw: Seq<u8>) -> Seq<char> {
    match xml_unescaped(raw) {
        Some(s) => s,
        None => utf8_text(raw),
    }
}

pub open spec fn text_attrs(a: Seq<(Seq<u8>, Seq<u8>)>) -> Seq<(Seq<char>, Seq<char>)> {
    a.map_values(|p: (Seq<u8>, Seq<u8>)| (utf8_text(p.0), attr_text(p.1)))
}

/// The element a tag opens, with no children yet.
pub open spec fn tag_elem(name: Seq<u8>, attrs: Seq<(Seq<u8>, Seq<u8>)>) -> SpecElem {
    SpecElem { tag: utf8_text(name), attrs: text_attrs(attrs), children: Seq::empty() }
}

/// Why attribute XML could not be compiled.
#[derive(Debug)]
pub enum AttribError {
    /// The XML itself could not be read.
    Xml,
    /// A closing tag with no element open.
    Unbalanced,
    /// No element at all.
    Empty,
    /// The root element is neither `<mod>` nor `<instance>`.
    UnexpectedRoot(String),
    /// An element with no game-data meaning.
    UnknownElement(String),
    /// A number that does not parse: the element's tag and the value.
    BadValue(String, String),
}

pub enum SpecAttribError {
    Xml,
    Unbalanced,
    Empty,
    UnexpectedRoot(Seq<char>),
    UnknownElement(Seq<char>),
    BadValue(Seq<char>, Seq<char>),
}

pub open spec fn view_error(e: AttribError) -> SpecAttribError {
    match e {
        AttribError::Xml => SpecAttribError::Xml,
        AttribError::Unbalanced => SpecAttribError::Unbalanced,
        AttribError::Empty => SpecAttribError::Empty,
        AttribError::UnexpectedRoot(t) => SpecAttribError::UnexpectedRoot(t@),
        AttribError::UnknownElement(t) => SpecAttribError::UnknownElement(t@),
        AttribError::BadValue(t, v) => SpecAttribError::BadValue(t@, v@),
    }
}

/// The elements still open, innermost last, and the last top-level element
/// closed so far.
pub struct TreeState {
    pub open: Seq<SpecElem>,
    pub root: Option<SpecElem>,
}

/// A finished element becomes the last child of the innermost open one, or,
/// when none is open, the root.
pub open spec fn attach(st: TreeState, e: SpecElem) -> TreeState {
    if st.open.len() == 0 {
        TreeState { open: st.open, root: Some(e) }
    } else {
        let top = st.open.last();
        TreeState {
            open: st.open.drop_last().push(SpecElem { tag: top.tag, attrs: top.attrs, children: top.children.push(e) }),
            root: st.root,
        }
    }
}

pub open spec fn tree_step(st: TreeState, ev: SpecXmlEvent) -> Option<TreeState> {
    match ev {
        SpecXmlEvent::Start(n, a) => Some(TreeState { open: st.open.push(tag_elem(n, a)), root: st.root }),
        SpecXmlEvent::Empty(n, a) => Some(attach(st, tag_elem(n, a))),
        SpecXmlEvent::End(_) => if st.open.len() == 0 {
            None
        } else {
            Some(attach(TreeState { open: st.open.drop_last(), root: st.root }, st.open.last()))
        },
        _ => Some(st),
    }
}

/// The state after the events; `None` once a closing tag finds nothing open.
pub open spec fn tree_run(evs: Seq<SpecXmlEvent>) -> Option<TreeState>
    decreases evs.len(),
{
    if evs.len() == 0 {
        Some(TreeState { open: Seq::empty(), root: None })
    } else {
        match tree_run(evs.drop_last()) {
            None => None,
            Some(st) => tree_step(st, evs.last()),
        }
    }
}

/// The element tree of a document.
pub open spec fn spec_parse_tree(xml: Seq<char>) -> Result<SpecElem, SpecAttribError> {
    match xml_events(xml) {
        None => Err(SpecAttribError::Xml),
        Some(evs) => spec_tree_of_events(evs),
    }
}

/// The element tree that a run of XML events builds: the last top-level
/// element closed; a closing tag with nothing open, or no element at all,
/// is refused.
pub open spec fn spec_tree_of_events(evs: Seq<SpecXmlEvent>) -> Result<SpecElem, SpecAttribError> {
    match tree_run(evs) {
        None => Err(SpecAttribError::Unbalanced),
        Some(st) => match st.root {
            None => Err(SpecAttribError::Empty),
            Some(r) => Ok(r),
        },
    }
}

fn text_of(raw: &Vec<u8>) -> (s: String)
    ensures
        s@ == attr_text(raw@),
{
    match unescape_attr(raw.as_slice()) {
        Some(s) => s,
        None => lossy_string(raw.as_slice()),
    }
}

fn new_elem(name: &Vec<u8>, attrs: &Vec<(Vec<u8>, Vec<u8>)>) -> (e: Elem)
    ensures
        view_elem(e) == tag_elem(name@, view_attrs(attrs@)),
{
    let mut out: Vec<(String, String)> = Vec::new();
    let mut i: usize = 0;
    while i < attrs.len()
        invariant
            i <= attrs@.len(),
            view_pairs(out@) == text_attrs(view_attrs(attrs@)).subrange(0, i as int),
        decreases attrs.len() - i,
    {
        let key: String = lossy_string(attrs[i].0.as_slice());
        let value: String = text_of(&attrs[i].1);
        let ghost before = out@;
        out.push((key, value));
        proof {
            assert(view_pairs(out@) =~= view_pairs(before).push((key@, value@)));
            assert(text_attrs(view_attrs(attrs@)).subrange(0, i + 1) =~= text_attrs(view_attrs(attrs@)).subrange(
                0,
                i as int,
            ).push((key@, value@)));
        }
        i += 1;
    }
    let e = Elem { tag: lossy_string(name.as_slice()), attrs: out, children: Vec::new() };
    proof {
        assert(text_attrs(view_attrs(attrs@)).subrange(0, i as int) =~= text_attrs(view_attrs(attrs@)));
        assert(view_elems(e.children@) =~= Seq::<SpecElem>::empty());
    }
    e
}

pub open spec fn view_state(open: Seq<Elem>, root: Option<Elem>) -> TreeState {
    TreeState {
        open: view_elems(open),
        root: match root {
            Some(r) => Some(view_elem(r)),
            None => None,
        },
    }
}

fn attach_elem(open: &mut Vec<Elem>, root: &mut Option<Elem>, e: Elem)
    ensures
        view_state(final(open)@, *final(root)) == attach(view_state(old(open)@, *old(root)), view_elem(e)),
{
    let ghost before = view_state(open@, *root);
    proof {
        lemma_view_elems_len(open@);
    }
    match open.pop() {
        None => {
            *root = Some(e);
        },
        Some(mut top) => {
            let ghost rest = open@;
            let ghost old_top = top;
            proof {
                lemma_view_elems_push(rest, top);
                assert(old(open)@ =~= rest.push(top));
            }
            top.children.push(e);
            proof {
                lemma_view_elems_push(old_top.children@, e);
                assert(view_elem(top) == (SpecElem {
                    tag: view_elem(old_top).tag,
                    attrs: view_elem(old_top).attrs,
                    children: view_elem(old_top).children.push(view_elem(e)),
                }));
            }
            open.push(top);
            proof {
                lemma_view_elems_push(rest, top);
                assert(before.open.drop_last() =~= view_elems(rest));
                assert(before.open.last() == view_elem(old_top));
            }
        },
    }
}

/// The element tree of attribute XML: the last top-level element closed.
pub fn parse_tree(xml: &str) -> (r: Result<Elem, AttribError>)
    ensures
        match spec_parse_tree(xml@) {
            Ok(e) => r matches Ok(x) && view_elem(x) == e,
            Err(e) => r matches Err(x) && view_error(x) == e,
        },
{
    let events: Vec<XmlEvent> = match read_xml_events(xml) {
        Some(v) => v,
        None => {
            return Err(AttribError::Xml);
        },
    };
    tree_from_events(&events)
}

/// The element tree that the XML events build (see `spec_tree_of_events`).
pub fn tree_from_events(events: &Vec<XmlEvent>) -> (r: Result<Elem, AttribError>)
    ensures
        match spec_tree_of_events(view_events(events@)) {
            Ok(e) => r matches Ok(x) && view_elem(x) == e,
            Err(e) => r matches Err(x) && view_error(x) == e,
        },
{
    let ghost evs = view_events(events@);
    let mut open: Vec<Elem> = Vec::new();
    let mut root: Option<Elem> = None;
    let mut i: usize = 0;
    proof {
        assert(evs.subrange(0, 0) =~= Seq::<SpecXmlEvent>::empty());
        assert(view_elems(open@) =~= Seq::<SpecElem>::empty());
    }
    while i < events.len()
        invariant
            i <= events@.len(),
            evs == view_events(events@),
            tree_run(evs.subrange(0, i as int)) == Some(view_state(open@, root)),
        decreases events.len() - i,
    {
        let ghost st = view_state(open@, root);
        proof {
            let t = evs.subrange(0, i + 1);
            assert(t.drop_last() =~= evs.subrange(0, i as int));
            assert(t.last() == crate::xml::view_event(events@[i as int]));
        }
        match &events[i] {
            XmlEvent::Start(name, attrs) => {
                let e = new_elem(name, attrs);
                proof {
                    lemma_view_elems_push(open@, e);
                }
                open.push(e);
            },
            XmlEvent::Empty(name, attrs) => {
                let e = new_elem(name, attrs);
                attach_elem(&mut open, &mut root, e);
            },
            XmlEvent::End(_) => {
                match open.pop() {
                    None => {
                        proof {
                            lemma_view_elems_len(open@);
                            lemma_run_fails(evs, i as int + 1);
                        }
                        return Err(AttribError::Unbalanced);
                    },
                    Some(e) => {
                        proof {
                            lemma_view_elems_push(open@, e);
                            assert(st.open.drop_last() =~= view_elems(open@));
                            assert(st.open.last() == view_elem(e));
                        }
                        attach_elem(&mut open, &mut root, e);
                    },
                }
            },
            _ => {},
        }
        i += 1;
    }
    proof {
        assert(evs.subrange(0, i as int) =~= evs);
    }
    match root {
        Some(r) => Ok(r),
        None => Err(AttribError::Empty),
    }
}

/// Once a closing tag finds nothing open, the run fails for good.
proof fn lemma_run_fails(evs: Seq<SpecXmlEvent>, j: int)
    requires
        0 <= j <= evs.len(),
        tree_run(evs.subrange(0, j)) is None,
    ensures
        tree_run(evs) is None,
    decreases evs.len() - j,
{
    if j < evs.len() {
        let t = evs.subrange(0, j + 1);
        assert(t.drop_last() =~= evs.subrange(0, j));
        lemma_run_fails(evs, j + 1);
    } else {
        assert(evs.subrange(0, j) =~= evs);
    }
}

// ---------------------------------------------------------------------------
// Elements to game data
// ---------------------------------------------------------------------------
/// The value of the last attribute called `name`.
pub open spec fn attr_of(attrs: Seq<(Seq<char>, Seq<char>)>, name: Seq<char>) -> Option<Seq<char>>
    decreases attrs.len(),
{
    if attrs.len() == 0 {
        None
    } else if attrs.last().0 == name {
        Some(attrs.last().1)
    } else {
        attr_of(attrs.drop_last(), name)
    }
}

/// The value of the attribute called `name`, empty when there is none.
pub open spec fn attr_or_empty(attrs: Seq<(Seq<char>, Seq<char>)>, name: Seq<char>) -> Seq<char> {
    match attr_of(attrs, name) {
        Some(v) => v,
        None => Seq::empty(),
    }
}

/// `true` in any mix of upper and lower case.
pub open spec fn is_true_text(s: Seq<char>) -> bool {
    &&& s.len() == 4
    &&& (s[0] == 't' || s[0] == 'T')
    &&& (s[1] == 'r' || s[1] == 'R')
    &&& (s[2] == 'u' || s[2] == 'U')
    &&& (s[3] == 'e' || s[3] == 'E')
}

/// The position of the last backslash.
pub open spec fn last_backslash(s: Seq<char>) -> Option<int>
    decreases s.len(),
{
    if s.len() == 0 {
        None
    } else if s.last() == '\\' {
        Some(s.len() - 1)
    } else {
        last_backslash(s.drop_last())
    }
}

/// An instance path split at its last backslash into the map and the name;
/// without a backslash, the map is empty.
pub open spec fn split_reference(v: Seq<char>) -> (Seq<char>, Seq<char>) {
    match last_backslash(v) {
        Some(i) => (v.subrange(0, i), v.subrange(i + 1, v.len() as int)),
        None => (Seq::empty(), v),
    }
}

pub open spec fn node(key: Seq<char>, value: SpecGameValue) -> SpecGameNode {
    SpecGameNode { key, value }
}

/// An `Int` from a decimal `i32`, refused when the text is no such number.
pub open spec fn int_node(tag: Seq<char>, key: Seq<char>, value: Seq<char>) -> Result<SpecGameNode, SpecAttribError> {
    match spec_parse_int(value, i32::MIN as int, i32::MAX as int) {
        Some(n) => Ok(node(key, SpecGameValue::Int(n as i32))),
        None => Err(SpecAttribError::BadValue(tag, value)),
    }
}

/// Elements whose children become a list.
pub open spec fn list_tag(t: Seq<char>) -> bool {
    t == "group"@ || t == "enum_table"@ || t == "list"@ || t == "template_reference"@
}

/// The node of a list element, from its key, its value and its children's
/// nodes.
pub open spec fn list_result(
    t: Seq<char>,
    key: Seq<char>,
    value: Seq<char>,
    children: Result<Seq<SpecGameNode>, SpecAttribError>,
) -> Result<SpecGameNode, SpecAttribError> {
    match children {
        Err(x) => Err(x),
        Ok(ns) => if t == "list"@ {
            Ok(node(key, SpecGameValue::List2(ns)))
        } else if t == "template_reference"@ {
            Ok(node(key, SpecGameValue::List(seq![node("$REF"@, SpecGameValue::CString(value))] + ns)))
        } else {
            Ok(node(key, SpecGameValue::List(ns)))
        },
    }
}

/// The node of a `<float>` element whose value reads as `bits`.
pub open spec fn float_result(t: Seq<char>, key: Seq<char>, value: Seq<char>, bits: Option<u32>) -> Result<
    SpecGameNode,
    SpecAttribError,
> {
    match bits {
        Some(b) => Ok(node(key, SpecGameValue::Float(b))),
        None => Err(SpecAttribError::BadValue(t, value)),
    }
}

/// The node of an element that is neither a list nor a float.
pub open spec fn plain_result(e: SpecElem) -> Result<SpecGameNode, SpecAttribError> {
    let key = attr_or_empty(e.attrs, "name"@);
    let value = attr_or_empty(e.attrs, "value"@);
    let t = e.tag;
    if t == "instance_reference"@ {
        let (m, n) = split_reference(value);
        Ok(
            node(
                key,
                SpecGameValue::List2(
                    seq![node("$PBGNAME"@, SpecGameValue::CString(n)), node("$PBGMAP"@, SpecGameValue::CString(m))],
                ),
            ),
        )
    } else if t == "int"@ || t == "uniqueid"@ {
        int_node(t, key, value)
    } else if t == "bool"@ {
        Ok(node(key, SpecGameValue::Boolean(is_true_text(value))))
    } else if t == "file"@ {
        Ok(node(key, SpecGameValue::CString(value)))
    } else if t == "locstring"@ {
        match attr_of(e.attrs, "mod"@) {
            Some(m) => Ok(node(key, SpecGameValue::LocString("$"@ + m + ":"@ + value))),
            None => int_node(t, key, value),
        }
    } else {
        Err(SpecAttribError::UnknownElement(t))
    }
}

/// The game-data node of an element, floats read by `g`.
pub open spec fn spec_transform(e: SpecElem, g: spec_fn(Seq<char>) -> Option<u32>) -> Result<
    SpecGameNode,
    SpecAttribError,
>
    decreases e, 1int,
{
    let key = attr_or_empty(e.attrs, "name"@);
    let value = attr_or_empty(e.attrs, "value"@);
    if list_tag(e.tag) {
        list_result(e.tag, key, value, spec_children(e.children, g))
    } else if e.tag == "float"@ {
        float_result(e.tag, key, value, g(value))
    } else {
        plain_result(e)
    }
}

/// The nodes of child elements, in order; the first refusal wins.
pub open spec fn spec_children(cs: Seq<SpecElem>, g: spec_fn(Seq<char>) -> Option<u32>) -> Result<
    Seq<SpecGameNode>,
    SpecAttribError,
>
    decreases cs, 0int,
{
    if cs.len() == 0 {
        Ok(Seq::empty())
    } else {
        match spec_children(cs.subrange(0, cs.len() - 1), g) {
            Err(x) => Err(x),
            Ok(ns) => match spec_transform(cs[cs.len() - 1], g) {
                Err(x) => Err(x),
                Ok(n) => Ok(ns.push(n)),
            },
        }
    }
}

/// `f` reads each float text `s` as `g(s)`.
pub open spec fn parses_floats_as<F: Fn(&str) -> Option<u32>>(f: F, g: spec_fn(Seq<char>) -> Option<u32>) -> bool {
    forall|s: &str, o: Option<u32>| #[trigger] f.ensures((s,), o) ==> o == g(s@)
}

pub open spec fn view_node_result(r: Result<GameNode, AttribError>) -> Result<SpecGameNode, SpecAttribError> {
    match r {
        Ok(n) => Ok(crate::rgd::view_game_node(n)),
        Err(e) => Err(view_error(e)),
    }
}

pub open spec fn view_nodes_result(r: Result<Vec<GameNode>, AttribError>) -> Result<Seq<SpecGameNode>, SpecAttribError> {
    match r {
        Ok(v) => Ok(view_game_nodes(v@)),
        Err(e) => Err(view_error(e)),
    }
}

/// Whether two texts are the same.
pub(crate) fn str_eq(a: &str, b: &str) -> (r: bool)
    ensures
        r == (a@ == b@),
{
    let r: bool = same_bytes(a.as_bytes(), b.as_bytes());
    proof {
        vstd::utf8::encode_utf8_decode_utf8(a@);
        vstd::utf8::encode_utf8_decode_utf8(b@);
    }
    r
}

fn attr_value(attrs: &Vec<(String, String)>, name: &str) -> (r: Option<String>)
    ensures
        match attr_of(view_pairs(attrs@), name@) {
            Some(v) => r matches Some(x) && x@ == v,
            None => r is None,
        },
{
    let ghost a = view_pairs(attrs@);
    let mut i: usize = attrs.len();
    proof {
        assert(a.subrange(0, a.len() as int) =~= a);
    }
    while i > 0
        invariant
            i <= attrs@.len(),
            a == view_pairs(attrs@),
            attr_of(a, name@) == attr_of(a.subrange(0, i as int), name@),
        decreases i,
    {
        let ghost t = a.subrange(0, i as int);
        proof {
            assert(t.drop_last() =~= a.subrange(0, i - 1));
            assert(t.last() == (attrs@[i - 1].0@, attrs@[i - 1].1@));
        }
        if str_eq(attrs[i - 1].0.as_str(), name) {
            return Some(attrs[i - 1].1.clone());
        }
        i -= 1;
    }
    None
}

fn attr_or_blank(attrs: &Vec<(String, String)>, name: &str) -> (r: String)
    ensures
        r@ == attr_or_empty(view_pairs(attrs@), name@),
{
    match attr_value(attrs, name) {
        Some(v) => v,
        None => {
            proof {
                reveal_strlit("");
            }
            String::from_str("")
        },
    }
}

pub(crate) fn true_text(s: &str) -> (r: bool)
    ensures
        r == is_true_text(s@),
{
    if s.unicode_len() != 4 {
        return false;
    }
    let a: char = s.get_char(0);
    let b: char = s.get_char(1);
    let c: char = s.get_char(2);
    let d: char = s.get_char(3);
    (a == 't' || a == 'T') && (b == 'r' || b == 'R') && (c == 'u' || c == 'U') && (d == 'e' || d == 'E')
}

fn split_at_backslash(v: &str) -> (r: (String, String))
    ensures
        r.0@ == split_reference(v@).0,
        r.1@ == split_reference(v@).1,
{
    let n: usize = v.unicode_len();
    let mut i: usize = n;
    proof {
        assert(v@.subrange(0, n as int) =~= v@);
    }
    while i > 0
        invariant
            i <= n,
            n == v@.len(),
            last_backslash(v@) == last_backslash(v@.subrange(0, i as int)),
        decreases i,
    {
        let ghost t = v@.subrange(0, i as int);
        proof {
            assert(t.drop_last() =~= v@.subrange(0, i - 1));
        }
        if v.get_char(i - 1) == '\\' {
            return (String::from_str(v.substring_char(0, i - 1)), String::from_str(v.substring_char(i, n)));
        }
        i -= 1;
    }
    proof {
        assert(v@.subrange(0, 0) =~= Seq::<char>::empty());
        reveal_strlit("");
    }
    (String::from_str(""), String::from_str(v))
}

fn int_value(tag: &String, key: String, value: String) -> (r: Result<GameNode, AttribError>)
    ensures
        view_node_result(r) == int_node(tag@, key@, value@),
{
    match parse_i32(value.as_str()) {
        Some(n) => Ok(GameNode { key, value: GameValue::Int(n) }),
        None => Err(AttribError::BadValue(tag.clone(), value)),
    }
}

fn list_node(t: &String, key: String, value: String, children: Result<Vec<GameNode>, AttribError>) -> (r: Result<
    GameNode,
    AttribError,
>)
    requires
        list_tag(t@),
    ensures
        view_node_result(r) == list_result(t@, key@, value@, view_nodes_result(children)),
{
    let children: Vec<GameNode> = match children {
        Ok(c) => c,
        Err(x) => {
            return Err(x);
        },
    };
    if str_eq(t.as_str(), "list") {
        return Ok(GameNode { key, value: GameValue::List2(children) });
    }
    if str_eq(t.as_str(), "template_reference") {
        let mut items: Vec<GameNode> = Vec::new();
        items.push(GameNode { key: String::from_str("$REF"), value: GameValue::CString(value) });
        let ghost head = items@;
        let mut rest = children;
        let ghost tail = rest@;
        items.append(&mut rest);
        proof {
            crate::rgd_write::lemma_game_nodes_concat(head, tail);
            crate::rgd_write::lemma_game_nodes_push(Seq::empty(), head[0]);
            assert(head =~= Seq::<GameNode>::empty().push(head[0]));
            assert(view_game_nodes(Seq::<GameNode>::empty()) =~= Seq::<SpecGameNode>::empty());
        }
        return Ok(GameNode { key, value: GameValue::List(items) });
    }
    Ok(GameNode { key, value: GameValue::List(children) })
}

fn float_node(t: &String, key: String, value: String, bits: Option<u32>) -> (r: Result<GameNode, AttribError>)
    ensures
        view_node_result(r) == float_result(t@, key@, value@, bits),
{
    match bits {
        Some(b) => Ok(GameNode { key, value: GameValue::Float(b) }),
        None => Err(AttribError::BadValue(t.clone(), value)),
    }
}

fn plain_node(e: &Elem) -> (r: Result<GameNode, AttribError>)
    ensures
        view_node_result(r) == plain_result(view_elem(*e)),
{
    let key: String = attr_or_blank(&e.attrs, "name");
    let value: String = attr_or_blank(&e.attrs, "value");
    let t: &str = e.tag.as_str();
    if str_eq(t, "instance_reference") {
        let (m, n) = split_at_backslash(value.as_str());
        let mut items: Vec<GameNode> = Vec::new();
        items.push(GameNode { key: String::from_str("$PBGNAME"), value: GameValue::CString(n) });
        let ghost one = items@;
        items.push(GameNode { key: String::from_str("$PBGMAP"), value: GameValue::CString(m) });
        proof {
            crate::rgd_write::lemma_game_nodes_push(Seq::empty(), one[0]);
            assert(one =~= Seq::<GameNode>::empty().push(one[0]));
            assert(view_game_nodes(Seq::<GameNode>::empty()) =~= Seq::<SpecGameNode>::empty());
            crate::rgd_write::lemma_game_nodes_push(one, items@[1]);
            assert(items@ =~= one.push(items@[1]));
            assert(view_game_nodes(items@) =~= seq![
                crate::rgd::view_game_node(one[0]),
                crate::rgd::view_game_node(items@[1]),
            ]);
            assert(crate::rgd::view_game_node(one[0]) == node("$PBGNAME"@, SpecGameValue::CString(split_reference(value@).1)));
            assert(crate::rgd::view_game_node(items@[1]) == node("$PBGMAP"@, SpecGameValue::CString(split_reference(value@).0)));
        }
        return Ok(GameNode { key, value: GameValue::List2(items) });
    }
    if str_eq(t, "int") || str_eq(t, "uniqueid") {
        return int_value(&e.tag, key, value);
    }
    if str_eq(t, "bool") {
        return Ok(GameNode { key, value: GameValue::Boolean(true_text(value.as_str())) });
    }
    if str_eq(t, "file") {
        return Ok(GameNode { key, value: GameValue::CString(value) });
    }
    if str_eq(t, "locstring") {
        return match attr_value(&e.attrs, "mod") {
            Some(m) => {
                let mut text: String = String::from_str("$");
                text.append(m.as_str());
                text.append(":");
                text.append(value.as_str());
                Ok(GameNode { key, value: GameValue::LocString(text) })
            },
            None => int_value(&e.tag, key, value),
        };
    }
    Err(AttribError::UnknownElement(e.tag.clone()))
}

fn transform<F: Fn(&str) -> Option<u32>>(e: &Elem, parse_float: &F) -> (r: Result<GameNode, AttribError>)
    requires
        forall|s: &str| #[trigger] parse_float.requires((s,)),
    ensures
        forall|g: spec_fn(Seq<char>) -> Option<u32>|
            parses_floats_as(*parse_float, g) ==> view_node_result(r) == #[trigger] spec_transform(view_elem(*e), g),
    decreases *e,
{
    let t: &str = e.tag.as_str();
    let is_list: bool = str_eq(t, "group") || str_eq(t, "enum_table") || str_eq(t, "list") || str_eq(
        t,
        "template_reference",
    );
    if is_list {
        proof {
            assert(decreases_to!(*e => e.children));
        }
        let key: String = attr_or_blank(&e.attrs, "name");
        let value: String = attr_or_blank(&e.attrs, "value");
        let all = transform_all(&e.children, parse_float);
        let ghost v_all = view_nodes_result(all);
        let r = list_node(&e.tag, key, value, all);
        proof {
            assert forall|g: spec_fn(Seq<char>) -> Option<u32>|
                parses_floats_as(*parse_float, g) implies view_node_result(r) == #[trigger] spec_transform(
                view_elem(*e),
                g,
            ) by {
                assert(v_all == spec_children(view_elems(e.children@), g));
            }
        }
        return r;
    }
    if str_eq(t, "float") {
        let key: String = attr_or_blank(&e.attrs, "name");
        let value: String = attr_or_blank(&e.attrs, "value");
        let bits: Option<u32> = parse_float(value.as_str());
        let ghost text = value@;
        let r = float_node(&e.tag, key, value, bits);
        proof {
            assert forall|g: spec_fn(Seq<char>) -> Option<u32>|
                parses_floats_as(*parse_float, g) implies view_node_result(r) == #[trigger] spec_transform(
                view_elem(*e),
                g,
            ) by {
                assert(bits == g(text));
            }
        }
        return r;
    }
    plain_node(e)
}

fn transform_all<F: Fn(&str) -> Option<u32>>(children: &Vec<Elem>, parse_float: &F) -> (r: Result<
    Vec<GameNode>,
    AttribError,
>)
    requires
        forall|s: &str| #[trigger] parse_float.requires((s,)),
    ensures
        forall|g: spec_fn(Seq<char>) -> Option<u32>|
            parses_floats_as(*parse_float, g) ==> view_nodes_result(r) == #[trigger] spec_children(
                view_elems(children@),
                g,
            ),
    decreases children@,
{
    let mut out: Vec<GameNode> = Vec::new();
    let mut i: usize = 0;
    proof {
        assert(children@.subrange(0, 0) =~= Seq::<Elem>::empty());
        assert(view_game_nodes(out@) =~= Seq::<SpecGameNode>::empty());
    }
    while i < children.len()
        invariant
            i <= children@.len(),
            forall|s: &str| #[trigger] parse_float.requires((s,)),
            forall|g: spec_fn(Seq<char>) -> Option<u32>|
                parses_floats_as(*parse_float, g) ==> #[trigger] spec_children(
                    view_elems(children@.subrange(0, i as int)),
                    g,
                ) == Ok::<Seq<SpecGameNode>, SpecAttribError>(view_game_nodes(out@)),
        decreases children.len() - i,
    {
        proof {
            assert(decreases_to!(children@ => children@[i as int]));
        }
        let node: GameNode = match transform(&children[i], parse_float) {
            Ok(n) => n,
            Err(x) => {
                proof {
                    assert forall|g: spec_fn(Seq<char>) -> Option<u32>|
                        parses_floats_as(*parse_float, g) implies view_nodes_result(
                        Err::<Vec<GameNode>, AttribError>(x),
                    ) == #[trigger] spec_children(view_elems(children@), g) by {
                        lemma_children_step(children@, i as int, g);
                        lemma_children_err(children@, i as int + 1, g);
                    }
                }
                return Err(x);
            },
        };
        let ghost before = out@;
        out.push(node);
        proof {
            assert forall|g: spec_fn(Seq<char>) -> Option<u32>|
                parses_floats_as(*parse_float, g) implies #[trigger] spec_children(
                view_elems(children@.subrange(0, i + 1)),
                g,
            ) == Ok::<Seq<SpecGameNode>, SpecAttribError>(view_game_nodes(out@)) by {
                lemma_children_step(children@, i as int, g);
                crate::rgd_write::lemma_game_nodes_push(before, node);
            }
        }
        i += 1;
    }
    proof {
        assert(children@.subrange(0, i as int) =~= children@);
    }
    Ok(out)
}

proof fn lemma_children_step(cs: Seq<Elem>, i: int, g: spec_fn(Seq<char>) -> Option<u32>)
    requires
        0 <= i < cs.len(),
    ensures
        spec_children(view_elems(cs.subrange(0, i + 1)), g) == match spec_children(view_elems(cs.subrange(0, i)), g) {
            Err(x) => Err(x),
            Ok(ns) => match spec_transform(view_elem(cs[i]), g) {
                Err(x) => Err(x),
                Ok(n) => Ok(ns.push(n)),
            },
        },
{
    let t = cs.subrange(0, i + 1);
    lemma_view_elems_push(cs.subrange(0, i), cs[i]);
    assert(cs.subrange(0, i).push(cs[i]) =~= t);
    let v = view_elems(t);
    lemma_view_elems_len(t);
    assert(v.subrange(0, v.len() - 1) =~= view_elems(cs.subrange(0, i)));
}

/// A refusal among the first `j` children is the refusal of all of them.
proof fn lemma_children_err(cs: Seq<Elem>, j: int, g: spec_fn(Seq<char>) -> Option<u32>)
    requires
        0 <= j <= cs.len(),
        spec_children(view_elems(cs.subrange(0, j)), g) is Err,
    ensures
        spec_children(view_elems(cs), g) == spec_children(view_elems(cs.subrange(0, j)), g),
    decreases cs.len() - j,
{
    if j < cs.len() {
        lemma_children_step(cs, j, g);
        lemma_children_err(cs, j + 1, g);
    } else {
        assert(cs.subrange(0, j) =~= cs);
    }
}

// ---------------------------------------------------------------------------
// Compiling a document
// ---------------------------------------------------------------------------
/// The top-level nodes of a document: `<mod guid=G override_instances=B>`
/// gives `{override_instances: B, id: G}`; `<instance>` gives
/// `{default: List(children), instance_version: 2}`.
pub open spec fn spec_root_nodes(root: SpecElem, g: spec_fn(Seq<char>) -> Option<u32>) -> Result<
    Seq<SpecGameNode>,
    SpecAttribError,
> {
    if root.tag == "mod"@ {
        Ok(
            seq![
                node(
                    "override_instances"@,
                    SpecGameValue::Boolean(is_true_text(attr_or_empty(root.attrs, "override_instances"@))),
                ),
                node("id"@, SpecGameValue::CString(attr_or_empty(root.attrs, "guid"@))),
            ],
        )
    } else if root.tag == "instance"@ {
        match spec_children(root.children, g) {
            Err(x) => Err(x),
            Ok(ns) => Ok(seq![node("default"@, SpecGameValue::List(ns)), node("instance_version"@, SpecGameValue::Int(2))]),
        }
    } else {
        Err(SpecAttribError::UnexpectedRoot(root.tag))
    }
}

/// The `.rgd` bytes of an attribute document, floats read by `g`.
pub open spec fn spec_compile_attrib(xml: Seq<char>, g: spec_fn(Seq<char>) -> Option<u32>) -> Result<
    Seq<u8>,
    SpecAttribError,
> {
    match spec_parse_tree(xml) {
        Err(x) => Err(x),
        Ok(root) => match spec_root_nodes(root, g) {
            Err(x) => Err(x),
            Ok(ns) => Ok(chunky_bytes(rgd_container(ns))),
        },
    }
}

pub open spec fn view_bytes_result(r: Result<Vec<u8>, AttribError>) -> Result<Seq<u8>, SpecAttribError> {
    match r {
        Ok(v) => Ok(v@),
        Err(e) => Err(view_error(e)),
    }
}

fn two_nodes(a: GameNode, b: GameNode) -> (r: Vec<GameNode>)
    ensures
        view_game_nodes(r@) == seq![crate::rgd::view_game_node(a), crate::rgd::view_game_node(b)],
{
    let mut out: Vec<GameNode> = Vec::new();
    out.push(a);
    let ghost one = out@;
    out.push(b);
    proof {
        crate::rgd_write::lemma_game_nodes_push(Seq::empty(), one[0]);
        assert(one =~= Seq::<GameNode>::empty().push(one[0]));
        assert(view_game_nodes(Seq::<GameNode>::empty()) =~= Seq::<SpecGameNode>::empty());
        crate::rgd_write::lemma_game_nodes_push(one, out@[1]);
        assert(out@ =~= one.push(out@[1]));
        assert(view_game_nodes(out@) =~= seq![crate::rgd::view_game_node(a), crate::rgd::view_game_node(b)]);
    }
    out
}

/// Compiles attribute XML (a `<mod>` or an `<instance>` document) into
/// `.rgd` bytes; `parse_float` reads the text of each `<float>` value as the
/// bits of an `f32`, `None` when it is no number.
pub fn compile_attrib<F: Fn(&str) -> Option<u32>>(xml: &str, parse_float: F) -> (r: Result<Vec<u8>, AttribError>)
    requires
        forall|s: &str| #[trigger] parse_float.requires((s,)),
    ensures
        forall|g: spec_fn(Seq<char>) -> Option<u32>|
            parses_floats_as(parse_float, g) ==> view_bytes_result(r) == #[trigger] spec_compile_attrib(xml@, g),
{
    let root: Elem = match parse_tree(xml) {
        Ok(e) => e,
        Err(x) => {
            return Err(x);
        },
    };
    let t: &str = root.tag.as_str();
    if str_eq(t, "mod") {
        let flag: String = attr_or_blank(&root.attrs, "override_instances");
        let a = GameNode {
            key: String::from_str("override_instances"),
            value: GameValue::Boolean(true_text(flag.as_str())),
        };
        let b = GameNode { key: String::from_str("id"), value: GameValue::CString(attr_or_blank(&root.attrs, "guid")) };
        let nodes: Vec<GameNode> = two_nodes(a, b);
        return Ok(write_rgd(nodes.as_slice()));
    }
    if str_eq(t, "instance") {
        let all = transform_all(&root.children, &parse_float);
        let ghost v_all = view_nodes_result(all);
        let children: Vec<GameNode> = match all {
            Ok(c) => c,
            Err(x) => {
                proof {
                    assert forall|g: spec_fn(Seq<char>) -> Option<u32>|
                        parses_floats_as(parse_float, g) implies view_bytes_result(
                        Err::<Vec<u8>, AttribError>(x),
                    ) == #[trigger] spec_compile_attrib(xml@, g) by {
                        assert(v_all == spec_children(view_elems(root.children@), g));
                    }
                }
                return Err(x);
            },
        };
        let a = GameNode { key: String::from_str("default"), value: GameValue::List(children) };
        let b = GameNode { key: String::from_str("instance_version"), value: GameValue::Int(2) };
        let nodes: Vec<GameNode> = two_nodes(a, b);
        let bytes: Vec<u8> = write_rgd(nodes.as_slice());
        proof {
            assert forall|g: spec_fn(Seq<char>) -> Option<u32>|
                parses_floats_as(parse_float, g) implies view_bytes_result(
                Ok::<Vec<u8>, AttribError>(bytes),
            ) == #[trigger] spec_compile_attrib(xml@, g) by {
                assert(v_all == spec_children(view_elems(root.children@), g));
            }
        }
        return Ok(bytes);
    }
    Err(AttribError::UnexpectedRoot(root.tag.clone()))
}

} // verus!
