//! What the `.rdo` writer promises of every graph: each object is written at
//! most once, whatever ids its children name (cycles, repeats, missing
//! objects), and a graph without a root is the empty document.
use vstd::prelude::*;

use crate::rdo::{first_where, is_root, root_test, RdoObject, RdoValue};
use crate::rdo_xml::{
    object_with_id, root_text, spec_emit_children, spec_emit_object, spec_emit_prop, spec_emit_props, spec_to_xml,
};

verus! {

proof fn lemma_object_grows(
    g: Seq<RdoObject>,
    o: RdoObject,
    depth: nat,
    em: Set<u64>,
    fuel: nat,
    h: spec_fn(u32) -> Seq<char>,
)
    ensures
        em.subset_of(spec_emit_object(g, o, depth, em, fuel, h).0),
        !em.contains(o.id) && fuel > 0 ==> spec_emit_object(g, o, depth, em, fuel, h).0.contains(o.id),
    decreases fuel, 3int, 0int,
{
    if !(em.contains(o.id) || fuel == 0) {
        lemma_props_grows(g, o.props@, depth + 1, em.insert(o.id), fuel, h);
    }
}

proof fn lemma_props_grows(
    g: Seq<RdoObject>,
    props: Seq<(String, RdoValue)>,
    depth: nat,
    em: Set<u64>,
    fuel: nat,
    h: spec_fn(u32) -> Seq<char>,
)
    ensures
        em.subset_of(spec_emit_props(g, props, depth, em, fuel, h).0),
    decreases fuel, 2int, props.len(),
{
    if props.len() > 0 {
        lemma_props_grows(g, props.drop_last(), depth, em, fuel, h);
        let em1 = spec_emit_props(g, props.drop_last(), depth, em, fuel, h).0;
        lemma_prop_grows(g, props.last().0@, props.last().1, depth, em1, fuel, h);
    }
}

proof fn lemma_prop_grows(
    g: Seq<RdoObject>,
    name: Seq<char>,
    v: RdoValue,
    depth: nat,
    em: Set<u64>,
    fuel: nat,
    h: spec_fn(u32) -> Seq<char>,
)
    ensures
        em.subset_of(spec_emit_prop(g, name, v, depth, em, fuel, h).0),
    decreases fuel, 1int, 0int,
{
    match v {
        RdoValue::Children(ids) => {
            if ids@.len() > 0 {
                lemma_children_grows(g, ids@, depth + 1, em, fuel, h);
            }
        },
        _ => {},
    }
}

proof fn lemma_children_grows(
    g: Seq<RdoObject>,
    ids: Seq<u64>,
    depth: nat,
    em: Set<u64>,
    fuel: nat,
    h: spec_fn(u32) -> Seq<char>,
)
    ensures
        em.subset_of(spec_emit_children(g, ids, depth, em, fuel, h).0),
    decreases fuel, 0int, ids.len(),
{
    if ids.len() > 0 && fuel > 0 {
        lemma_children_grows(g, ids.drop_last(), depth, em, fuel, h);
        let em1 = spec_emit_children(g, ids.drop_last(), depth, em, fuel, h).0;
        match object_with_id(g, ids.last()) {
            Some(c) => {
                lemma_object_grows(g, c, depth, em1, (fuel - 1) as nat, h);
            },
            None => {},
        }
    }
}

/// The writer writes each object at most once: the set of ids it has
/// written only grows, an object it writes (with nesting left) joins it,
/// and an object whose id is already there is written as nothing.
pub proof fn law_each_object_written_once(
    g: Seq<RdoObject>,
    o: RdoObject,
    depth: nat,
    em: Set<u64>,
    fuel: nat,
    h: spec_fn(u32) -> Seq<char>,
)
    ensures
        em.subset_of(spec_emit_object(g, o, depth, em, fuel, h).0),
        !em.contains(o.id) && fuel > 0 ==> spec_emit_object(g, o, depth, em, fuel, h).0.contains(o.id),
        em.contains(o.id) ==> spec_emit_object(g, o, depth, em, fuel, h) == (em, Seq::<char>::empty()),
{
    lemma_object_grows(g, o, depth, em, fuel, h);
}

/// The document of any graph is wrapped in `<DataWarehouse>` lines, and it
/// is exactly those two lines when and only when no object is a root
/// (owner id 0).
pub proof fn law_document_shape(g: Seq<RdoObject>, h: spec_fn(u32) -> Seq<char>)
    ensures
        spec_to_xml(g, h) == "<DataWarehouse>\r\n"@ + root_text(g, h) + "</DataWarehouse>\r\n"@,
        (spec_to_xml(g, h) == "<DataWarehouse>\r\n"@ + "</DataWarehouse>\r\n"@) <==> (forall|i: int|
            0 <= i < g.len() ==> !is_root(#[trigger] g[i])),
{
    reveal_strlit("\t<!--");
    let empty = "<DataWarehouse>\r\n"@ + "</DataWarehouse>\r\n"@;
    if exists|i: int| 0 <= i < g.len() && is_root(#[trigger] g[i]) {
        let i = choose|i: int| 0 <= i < g.len() && is_root(#[trigger] g[i]);
        assert(root_test()(g[i]));
        assert(first_where(g, root_test()) is Some);
        assert(root_text(g, h).len() > 0);
        assert(spec_to_xml(g, h).len() > empty.len());
    } else {
        assert forall|i: int| 0 <= i < g.len() implies !root_test()(#[trigger] g[i]) by {
            assert(!is_root(g[i]));
        }
        assert(first_where(g, root_test()) is None);
        assert(root_text(g, h) =~= Seq::<char>::empty());
        assert(spec_to_xml(g, h) =~= empty);
    }
}

} // verus!
