//! Game data as an XML document: a `Root` element holding one `RGDNode`
//! element per node, with its key, its type and, for a value that is not a
//! list, its value; list children nested in order. The events are built
//! here; `quick_xml`'s indenting writer turns them into text.
use vstd::prelude::*;

use quick_xml::events::{BytesDecl, BytesEnd, BytesStart, Event};
use quick_xml::Writer;

use crate::rdo_xml::{formats_floats_as, signed_decimal, signed_text};
use crate::rgd::{view_game_node, view_game_nodes, GameNode, GameValue, SpecGameNode, SpecGameValue};

verus! {

/// One event of the document.
pub enum GameXmlEvent {
    /// The `<?xml version="1.0" encoding="utf-8"?>` declaration.
    Decl,
    /// An opening tag with its attributes.
    Start(String, Vec<(String, String)>),
    /// A closing tag.
    End(String),
    /// A self-closing tag with its attributes.
    Empty(String, Vec<(String, String)>),
}

pub enum SpecGameXmlEvent {
    Decl,
    Start(Seq<char>, Seq<(Seq<char>, Seq<char>)>),
    End(Seq<char>),
    Empty(Seq<char>, Seq<(Seq<char>, Seq<char>)>),
}

pub open spec fn view_xml_attrs(a: Seq<(String, String)>) -> Seq<(Seq<char>, Seq<char>)> {
    a.map_values(|p: (String, String)| (p.0@, p.1@))
}

pub open spec fn view_game_event(e: GameXmlEvent) -> SpecGameXmlEvent {
    match e {
        GameXmlEvent::Decl => SpecGameXmlEvent::Decl,
        GameXmlEvent::Start(n, a) => SpecGameXmlEvent::Start(n@, view_xml_attrs(a@)),
        GameXmlEvent::End(n) => SpecGameXmlEvent::End(n@),
        GameXmlEvent::Empty(n, a) => SpecGameXmlEvent::Empty(n@, view_xml_attrs(a@)),
    }
}

pub open spec fn view_game_events(s: Seq<GameXmlEvent>) -> Seq<SpecGameXmlEvent> {
    s.map_values(|e: GameXmlEvent| view_game_event(e))
}

/// The name a value's type goes by in the document; both list types are
/// `List`.
pub open spec fn type_text(v: SpecGameValue) -> Seq<char> {
    match v {
        SpecGameValue::Float(_) => "Float"@,
        SpecGameValue::Int(_) => "Int"@,
        SpecGameValue::Boolean(_) => "Boolean"@,
        SpecGameValue::CString(_) => "CString"@,
        SpecGameValue::LocString(_) => "LocString"@,
        SpecGameValue::List(_) => "List"@,
        SpecGameValue::List2(_) => "List"@,
    }
}

/// The `Value` text of a value that is not a list: a float as `h` writes
/// its bits, an integer in decimal, a flag as `true` or `false`, a string
/// as it is.
pub open spec fn value_text(v: SpecGameValue, h: spec_fn(u32) -> Seq<char>) -> Seq<char> {
    match v {
        SpecGameValue::Float(b) => h(b),
        SpecGameValue::Int(i) => signed_decimal(i as int),
        SpecGameValue::Boolean(b) => if b {
            "true"@
        } else {
            "false"@
        },
        SpecGameValue::CString(s) => s,
        SpecGameValue::LocString(s) => s,
        _ => Seq::empty(),
    }
}

/// The events of one node: a list opens an `RGDNode` element holding its
/// children; any other value is one self-closing element with its value.
pub open spec fn node_events(n: SpecGameNode, h: spec_fn(u32) -> Seq<char>) -> Seq<SpecGameXmlEvent>
    decreases n,
{
    let attrs = seq![("Key"@, n.key), ("Type"@, type_text(n.value))];
    match n.value {
        SpecGameValue::List(ch) => seq![SpecGameXmlEvent::Start("RGDNode"@, attrs)] + nodes_events(ch, h) + seq![
            SpecGameXmlEvent::End("RGDNode"@),
        ],
        SpecGameValue::List2(ch) => seq![SpecGameXmlEvent::Start("RGDNode"@, attrs)] + nodes_events(ch, h) + seq![
            SpecGameXmlEvent::End("RGDNode"@),
        ],
        _ => seq![SpecGameXmlEvent::Empty("RGDNode"@, attrs.push(("Value"@, value_text(n.value, h))))],
    }
}

/// The events of nodes one after another.
pub open spec fn nodes_events(ns: Seq<SpecGameNode>, h: spec_fn(u32) -> Seq<char>) -> Seq<SpecGameXmlEvent>
    decreases ns,
{
    if ns.len() == 0 {
        Seq::empty()
    } else {
        nodes_events(ns.subrange(0, ns.len() - 1), h) + node_events(ns[ns.len() - 1], h)
    }
}

/// The events of the document: the declaration, then the nodes inside
/// `Root`.
pub open spec fn spec_game_data_events(ns: Seq<SpecGameNode>, h: spec_fn(u32) -> Seq<char>) -> Seq<
    SpecGameXmlEvent,
> {
    seq![SpecGameXmlEvent::Decl, SpecGameXmlEvent::Start("Root"@, Seq::empty())] + nodes_events(ns, h) + seq![
        SpecGameXmlEvent::End("Root"@),
    ]
}

proof fn lemma_nodes_events_push(ns: Seq<SpecGameNode>, n: SpecGameNode, h: spec_fn(u32) -> Seq<char>)
    ensures
        nodes_events(ns.push(n), h) == nodes_events(ns, h) + node_events(n, h),
{
    assert(ns.push(n).subrange(0, ns.len() as int) =~= ns);
}

proof fn lemma_view_nodes_prefix(s: Seq<GameNode>, i: int)
    requires
        0 <= i < s.len(),
    ensures
        view_game_nodes(s.subrange(0, i + 1)) == view_game_nodes(s.subrange(0, i)).push(view_game_node(s[i])),
{
    let t = s.subrange(0, i + 1);
    assert(t.subrange(0, t.len() - 1) =~= s.subrange(0, i));
}

fn push_event(out: &mut Vec<GameXmlEvent>, e: GameXmlEvent)
    ensures
        view_game_events(final(out)@) == view_game_events(old(out)@).push(view_game_event(e)),
{
    out.push(e);
    proof {
        assert(view_game_events(out@) =~= view_game_events(old(out)@).push(view_game_event(e)));
    }
}

fn text(s: &str) -> (r: String)
    ensures
        r@ == s@,
{
    String::from_str(s)
}

/// The `Value` text of a value that is not a list.
fn value_text_of<F: Fn(u32) -> String>(v: &GameValue, format_float: &F) -> (r: String)
    requires
        forall|b: u32| #[trigger] format_float.requires((b,)),
    ensures
        forall|h: spec_fn(u32) -> Seq<char>|
            formats_floats_as(*format_float, h) ==> r@ == #[trigger] value_text(crate::rgd::view_game_value(*v), h),
{
    match v {
        GameValue::Float(b) => {
            let s: String = format_float(*b);
            proof {
                assert forall|h: spec_fn(u32) -> Seq<char>|
                    formats_floats_as(*format_float, h) implies s@ == #[trigger] value_text(
                    crate::rgd::view_game_value(*v),
                    h,
                ) by {
                    assert(s@ == h(*b));
                }
            }
            s
        },
        GameValue::Int(i) => signed_text(*i as i64),
        GameValue::Boolean(b) => if *b {
            text("true")
        } else {
            text("false")
        },
        GameValue::CString(s) => s.clone(),
        GameValue::LocString(s) => s.clone(),
        GameValue::List(_) => String::new(),
        GameValue::List2(_) => String::new(),
    }
}

fn type_text_of(v: &GameValue) -> (r: String)
    ensures
        r@ == type_text(crate::rgd::view_game_value(*v)),
{
    match v {
        GameValue::Float(_) => text("Float"),
        GameValue::Int(_) => text("Int"),
        GameValue::Boolean(_) => text("Boolean"),
        GameValue::CString(_) => text("CString"),
        GameValue::LocString(_) => text("LocString"),
        GameValue::List(_) => text("List"),
        GameValue::List2(_) => text("List"),
    }
}

/// Appends the events of one node.
fn push_node_events<F: Fn(u32) -> String>(n: &GameNode, out: &mut Vec<GameXmlEvent>, format_float: &F)
    requires
        forall|b: u32| #[trigger] format_float.requires((b,)),
    ensures
        forall|h: spec_fn(u32) -> Seq<char>|
            formats_floats_as(*format_float, h) ==> view_game_events(final(out)@) == view_game_events(old(out)@)
                + #[trigger] node_events(view_game_node(*n), h),
    decreases n,
{
    let ghost start = view_game_events(out@);
    let mut attrs: Vec<(String, String)> = Vec::new();
    attrs.push((text("Key"), n.key.clone()));
    attrs.push((text("Type"), type_text_of(&n.value)));
    let ghost a2 = view_xml_attrs(attrs@);
    proof {
        assert(a2 =~= seq![("Key"@, n.key@), ("Type"@, type_text(crate::rgd::view_game_value(n.value)))]);
    }
    match &n.value {
        GameValue::List(ch) | GameValue::List2(ch) => {
            let open_name: String = text("RGDNode");
            let open = GameXmlEvent::Start(open_name, attrs);
            assert(view_game_event(open) == SpecGameXmlEvent::Start("RGDNode"@, a2));
            push_event(out, open);
            let ghost mid = view_game_events(out@);
            assert(mid == start.push(SpecGameXmlEvent::Start("RGDNode"@, a2)));
            let mut i: usize = 0;
            proof {
                assert(ch@.subrange(0, 0) =~= Seq::<GameNode>::empty());
                assert forall|h: spec_fn(u32) -> Seq<char>|
                    formats_floats_as(*format_float, h) implies view_game_events(out@) == mid + #[trigger] nodes_events(
                    view_game_nodes(ch@.subrange(0, 0)),
                    h,
                ) by {
                    assert(view_game_events(out@) =~= mid + Seq::<SpecGameXmlEvent>::empty());
                }
            }
            while i < ch.len()
                invariant
                    i <= ch@.len(),
                    (n.value is List && n.value->List_0 == *ch) || (n.value is List2 && n.value->List2_0 == *ch),
                    forall|b: u32| #[trigger] format_float.requires((b,)),
                    forall|h: spec_fn(u32) -> Seq<char>|
                        formats_floats_as(*format_float, h) ==> view_game_events(out@) == mid + #[trigger] nodes_events(
                            view_game_nodes(ch@.subrange(0, i as int)),
                            h,
                        ),
                decreases ch.len() - i,
            {
                proof {
                    assert(decreases_to!(*n => n.value));
                    if n.value is List {
                        assert(*ch == n.value->List_0);
                        assert(decreases_to!(n.value => n.value->List_0));
                    } else {
                        assert(*ch == n.value->List2_0);
                        assert(decreases_to!(n.value => n.value->List2_0));
                    }
                    assert(decreases_to!(*ch => ch@));
                    assert(decreases_to!(ch@ => ch@[i as int]));
                }
                let ghost before = view_game_events(out@);
                push_node_events(&ch[i], out, format_float);
                proof {
                    lemma_view_nodes_prefix(ch@, i as int);
                    assert forall|h: spec_fn(u32) -> Seq<char>|
                        formats_floats_as(*format_float, h) implies view_game_events(out@) == mid + #[trigger] nodes_events(
                        view_game_nodes(ch@.subrange(0, i + 1)),
                        h,
                    ) by {
                        lemma_nodes_events_push(
                            view_game_nodes(ch@.subrange(0, i as int)),
                            view_game_node(ch@[i as int]),
                            h,
                        );
                        assert(before == mid + nodes_events(view_game_nodes(ch@.subrange(0, i as int)), h));
                        assert(view_game_events(out@) == before + node_events(view_game_node(ch@[i as int]), h));
                    }
                }
                i += 1;
            }
            let ghost after = view_game_events(out@);
            let close_name: String = text("RGDNode");
            let close = GameXmlEvent::End(close_name);
            assert(view_game_event(close) == SpecGameXmlEvent::End("RGDNode"@));
            push_event(out, close);
            proof {
                assert(ch@.subrange(0, i as int) =~= ch@);
                assert forall|h: spec_fn(u32) -> Seq<char>|
                    formats_floats_as(*format_float, h) implies view_game_events(out@) == start + #[trigger] node_events(
                    view_game_node(*n),
                    h,
                ) by {
                    let c = view_game_nodes(ch@);
                    assert(c == match crate::rgd::view_game_value(n.value) {
                        SpecGameValue::List(c) => c,
                        SpecGameValue::List2(c) => c,
                        _ => Seq::empty(),
                    });
                    assert(after == mid + nodes_events(c, h));
                    assert(view_game_events(out@) == after.push(SpecGameXmlEvent::End("RGDNode"@)));
                    assert(node_events(view_game_node(*n), h) == seq![SpecGameXmlEvent::Start("RGDNode"@, a2)]
                        + nodes_events(c, h) + seq![SpecGameXmlEvent::End("RGDNode"@)]);
                    assert(view_game_events(out@) =~= start + node_events(view_game_node(*n), h));
                }
            }
        },
        _ => {
            let value: String = value_text_of(&n.value, format_float);
            let mut full = attrs;
            full.push((text("Value"), value));
            let tag_name: String = text("RGDNode");
            let ghost fv = view_xml_attrs(full@);
            let ev = GameXmlEvent::Empty(tag_name, full);
            assert(view_game_event(ev) == SpecGameXmlEvent::Empty("RGDNode"@, fv));
            push_event(out, ev);
            proof {
                assert forall|h: spec_fn(u32) -> Seq<char>|
                    formats_floats_as(*format_float, h) implies view_game_events(out@) == start + #[trigger] node_events(
                    view_game_node(*n),
                    h,
                ) by {
                    let vv = crate::rgd::view_game_value(n.value);
                    assert(view_game_node(*n) == SpecGameNode { key: n.key@, value: vv });
                    assert(!(vv is List) && !(vv is List2));
                    assert(fv =~= a2.push(("Value"@, value_text(vv, h))));
                    assert(node_events(view_game_node(*n), h) == seq![
                        SpecGameXmlEvent::Empty("RGDNode"@, a2.push(("Value"@, value_text(vv, h)))),
                    ]);
                    let e2 = SpecGameXmlEvent::Empty("RGDNode"@, a2.push(("Value"@, value_text(vv, h))));
                    assert(view_game_events(out@) == start.push(SpecGameXmlEvent::Empty("RGDNode"@, fv)));
                    assert(SpecGameXmlEvent::Empty("RGDNode"@, fv) == e2);
                    assert(start + seq![e2] =~= start.push(e2));
                    assert(view_game_events(out@) == start + node_events(view_game_node(*n), h));
                }
            }
        },
    }
}

/// The events of the document of `nodes`: the declaration, then the nodes
/// inside `Root`; `format_float` writes a float's text from its bits.
pub fn game_data_events<F: Fn(u32) -> String>(nodes: &[GameNode], format_float: F) -> (r: Vec<GameXmlEvent>)
    requires
        forall|b: u32| #[trigger] format_float.requires((b,)),
    ensures
        forall|h: spec_fn(u32) -> Seq<char>|
            formats_floats_as(format_float, h) ==> view_game_events(r@) == #[trigger] spec_game_data_events(
                view_game_nodes(nodes@),
                h,
            ),
{
    let mut out: Vec<GameXmlEvent> = Vec::new();
    push_event(&mut out, GameXmlEvent::Decl);
    push_event(&mut out, GameXmlEvent::Start(text("Root"), Vec::new()));
    let ghost head = view_game_events(out@);
    proof {
        assert(view_xml_attrs(Seq::<(String, String)>::empty()) =~= Seq::<(Seq<char>, Seq<char>)>::empty());
        assert(nodes@.subrange(0, 0) =~= Seq::<GameNode>::empty());
        assert forall|h: spec_fn(u32) -> Seq<char>|
            formats_floats_as(format_float, h) implies view_game_events(out@) == head + #[trigger] nodes_events(
            view_game_nodes(nodes@.subrange(0, 0)),
            h,
        ) by {
            assert(view_game_events(out@) =~= head + Seq::<SpecGameXmlEvent>::empty());
        }
    }
    let mut i: usize = 0;
    while i < nodes.len()
        invariant
            i <= nodes@.len(),
            forall|b: u32| #[trigger] format_float.requires((b,)),
            forall|h: spec_fn(u32) -> Seq<char>|
                formats_floats_as(format_float, h) ==> view_game_events(out@) == head + #[trigger] nodes_events(
                    view_game_nodes(nodes@.subrange(0, i as int)),
                    h,
                ),
        decreases nodes.len() - i,
    {
        let ghost before = view_game_events(out@);
        push_node_events(&nodes[i], &mut out, &format_float);
        proof {
            lemma_view_nodes_prefix(nodes@, i as int);
            assert forall|h: spec_fn(u32) -> Seq<char>|
                formats_floats_as(format_float, h) implies view_game_events(out@) == head + #[trigger] nodes_events(
                view_game_nodes(nodes@.subrange(0, i + 1)),
                h,
            ) by {
                lemma_nodes_events_push(view_game_nodes(nodes@.subrange(0, i as int)), view_game_node(nodes@[i as int]), h);
                assert(before == head + nodes_events(view_game_nodes(nodes@.subrange(0, i as int)), h));
            }
        }
        i += 1;
    }
    push_event(&mut out, GameXmlEvent::End(text("Root")));
    proof {
        assert(nodes@.subrange(0, i as int) =~= nodes@);
        assert forall|h: spec_fn(u32) -> Seq<char>|
            formats_floats_as(format_float, h) implies view_game_events(out@) == #[trigger] spec_game_data_events(
            view_game_nodes(nodes@),
            h,
        ) by {
            assert(view_game_events(out@) =~= spec_game_data_events(view_game_nodes(nodes@), h));
        }
    }
    out
}

/// What `quick_xml`'s indenting writer (`Writer::new_with_indent` with two
/// spaces) makes of the events: the document text, or `None` where it
/// reports an error or the bytes are no UTF-8.
pub uninterp spec fn xml_written(events: Seq<SpecGameXmlEvent>) -> Option<Seq<char>>;

/// Writes the events with `quick_xml::Writer::new_with_indent(Vec::new(),
/// b' ', 2)` (`write_event` each, attributes pushed as text, which the
/// writer escapes), then reads the bytes as UTF-8.
#[verifier::external_body]
fn write_indented(events: &[GameXmlEvent]) -> (r: Option<String>)
    ensures
        match r {
            Some(s) => xml_written(view_game_events(events@)) == Some(s@),
            None => xml_written(view_game_events(events@)) is None,
        },
{
    let mut w = Writer::new_with_indent(Vec::new(), b' ', 2);
    let tag = |n: &String, a: &[(String, String)]| BytesStart::new(n.clone()).with_attributes(a.iter().map(|(k, v)| (k.as_str(), v.as_str())));
    for e in events {
        w.write_event(match e {
            GameXmlEvent::Decl => Event::Decl(BytesDecl::new("1.0", Some("utf-8"), None)),
            GameXmlEvent::Start(n, a) => Event::Start(tag(n, a)),
            GameXmlEvent::End(n) => Event::End(BytesEnd::new(n)),
            GameXmlEvent::Empty(n, a) => Event::Empty(tag(n, a)),
        }).ok()?;
    }
    String::from_utf8(w.into_inner()).ok()
}

/// Game data as an indented XML document (see `spec_game_data_events`);
/// `format_float` writes a float's text from its bits. `None` where the
/// writer reports an error.
pub fn game_data_to_xml<F: Fn(u32) -> String>(nodes: &[GameNode], format_float: F) -> (r: Option<String>)
    requires
        forall|b: u32| #[trigger] format_float.requires((b,)),
    ensures
        forall|h: spec_fn(u32) -> Seq<char>|
            formats_floats_as(format_float, h) ==> match #[trigger] xml_written(spec_game_data_events(view_game_nodes(nodes@), h)) {
                Some(s) => r matches Some(x) && x@ == s,
                None => r is None,
            },
{
    let events: Vec<GameXmlEvent> = game_data_events(nodes, format_float);
    write_indented(events.as_slice())
}

} // verus!
