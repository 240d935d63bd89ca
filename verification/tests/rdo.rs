use relic_chunky::rdo::{RdoGraph, RdoObject, RdoValue, ScalarType};
use relic_chunky::rdo_parse::rdo_from_events;
use relic_chunky::xml::XmlEvent;

fn object() -> RdoObject {
    RdoObject {
        id: 5,
        ty_name: "Mod".to_string(),
        owner_id: 0,
        props: vec![
            ("m_count".to_string(), RdoValue::Scalar { xml_type: ScalarType::Int32, bits: 3 }),
            ("m_on".to_string(), RdoValue::Bool(true)),
            ("m_name".to_string(), RdoValue::String("x".to_string())),
            ("m_raw".to_string(), RdoValue::Bytes { count: 2, data: vec![1, 2] }),
            ("m_kids".to_string(), RdoValue::Children(vec![6, 7])),
            ("m_count".to_string(), RdoValue::Scalar { xml_type: ScalarType::Int32, bits: 99 }),
        ],
    }
}

#[test]
fn property_getters_take_the_first_of_a_name() {
    let o = object();
    assert_eq!(o.scalar("m_count"), Some(3));
    assert_eq!(o.bool("m_on"), Some(true));
    assert_eq!(o.string("m_name"), Some("x"));
    assert_eq!(o.raw("m_raw"), Some((2, &[1u8, 2][..])));
    assert_eq!(o.child_ids("m_kids"), vec![6, 7]);
    assert_eq!(o.scalar("m_on"), None);
    assert_eq!(o.child_ids("missing"), Vec::<u64>::new());
    assert_eq!(ScalarType::UInt64.as_str(), "UInt64");
}

#[test]
fn graph_root_and_lookup() {
    let mut child = object();
    child.id = 6;
    child.owner_id = 5;
    let graph = RdoGraph { objects: vec![child, object()] };
    assert_eq!(graph.root().unwrap().id, 5);
    assert_eq!(graph.by_id(6).unwrap().owner_id, 5);
    assert!(graph.by_id(8).is_none());
    assert!(RdoGraph::default().root().is_none());
}

fn float_text(bits: u32) -> String {
    f32::from_bits(bits).to_string()
}

#[test]
fn cyclic_graphs_write_each_object_once() {
    let mut root = object();
    root.props = vec![("m_kids".to_string(), RdoValue::Children(vec![6, 6, 5, 42]))];
    let mut child = object();
    child.id = 6;
    child.owner_id = 5;
    child.props = vec![("m_back".to_string(), RdoValue::Children(vec![5, 6]))];
    let xml = RdoGraph { objects: vec![root, child] }.to_xml(float_text);
    assert!(xml.starts_with("<DataWarehouse>\r\n"));
    assert!(xml.ends_with("</DataWarehouse>\r\n"));
    assert_eq!(xml.matches("<DataObject ").count(), 2);
    assert_eq!(xml.matches(" Id=\"5\"").count(), 1);
    assert_eq!(xml.matches(" Id=\"6\"").count(), 1);
}

#[test]
fn a_graph_without_a_root_is_the_empty_document() {
    let mut owned = object();
    owned.owner_id = 9;
    assert_eq!(
        RdoGraph { objects: vec![owned] }.to_xml(float_text),
        "<DataWarehouse>\r\n</DataWarehouse>\r\n"
    );
    assert_eq!(RdoGraph::default().to_xml(float_text), "<DataWarehouse>\r\n</DataWarehouse>\r\n");
}

fn attr(k: &str, v: &str) -> (Vec<u8>, Vec<u8>) {
    (k.as_bytes().to_vec(), v.as_bytes().to_vec())
}

#[test]
fn events_build_objects_and_nest_children() {
    let events = vec![
        XmlEvent::Start(b"DataWarehouse".to_vec(), vec![]),
        XmlEvent::Start(b"DataObject".to_vec(), vec![attr("Id", "1"), attr("Type", "Mod"), attr("OwnerId", "0")]),
        XmlEvent::Empty(b"DataProperty".to_vec(), vec![attr("Name", "m_on"), attr("Type", "Bool"), attr("Value", "true")]),
        XmlEvent::Start(b"DataObject".to_vec(), vec![attr("Id", "2"), attr("Type", "Part"), attr("OwnerId", "1")]),
        XmlEvent::End(b"DataObject".to_vec()),
        XmlEvent::End(b"DataObject".to_vec()),
        XmlEvent::End(b"DataWarehouse".to_vec()),
    ];
    let g = rdo_from_events(&events, |_s: &str| None, false);
    assert_eq!(g.objects.len(), 2);
    assert_eq!(g.objects[0].id, 1);
    assert_eq!(g.objects[0].ty_name, "Mod");
    assert_eq!(g.objects[1].id, 2);
    assert_eq!(g.objects[1].owner_id, 1);
    assert_eq!(g.objects[1].ty_name, "Part");
}
