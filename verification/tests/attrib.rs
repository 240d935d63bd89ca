use relic_chunky::attrib::{compile_attrib, tree_from_events, AttribError};
use relic_chunky::xml::XmlEvent;
use relic_chunky::container::Chunky;
use relic_chunky::rgd::{GameNode, GameValue, RelicGameData};

fn float_bits(s: &str) -> Option<u32> {
    s.parse::<f32>().ok().map(f32::to_bits)
}

fn find<'a>(nodes: &'a [GameNode], key: &str) -> &'a GameValue {
    &nodes.iter().find(|n| n.key == key).unwrap_or_else(|| panic!("missing key {key}")).value
}

#[test]
fn instance_xml_round_trips_through_rgd() {
    let xml = r#"<instance>
        <group name="stats">
            <float name="radius" value="2.5"/>
            <int name="count" value="7"/>
            <bool name="enabled" value="True"/>
            <file name="icon" value="icons\thing"/>
            <locstring name="title" value="11190330"/>
        </group>
        <list name="entries">
            <instance_reference name="target" value="sbps\races\core\unit"/>
        </list>
    </instance>"#;

    let rgd = compile_attrib(xml, float_bits).unwrap();
    let chunky = Chunky::read(&rgd).unwrap();
    let nodes = RelicGameData::parse(&chunky).unwrap();

    assert_eq!(find(&nodes, "instance_version"), &GameValue::Int(2));
    let GameValue::List(default) = find(&nodes, "default") else {
        panic!("default is not a List");
    };
    let GameValue::List(stats) = find(default, "stats") else {
        panic!("stats is not a List");
    };
    assert_eq!(find(stats, "radius"), &GameValue::Float(2.5f32.to_bits()));
    assert_eq!(find(stats, "count"), &GameValue::Int(7));
    assert_eq!(find(stats, "enabled"), &GameValue::Boolean(true));
    assert_eq!(find(stats, "icon"), &GameValue::CString("icons\\thing".into()));
    assert_eq!(find(stats, "title"), &GameValue::Int(11190330));

    let GameValue::List2(entries) = find(default, "entries") else {
        panic!("entries is not a List2");
    };
    let GameValue::List2(target) = find(entries, "target") else {
        panic!("target is not a List2");
    };
    assert_eq!(find(target, "$PBGNAME"), &GameValue::CString("unit".into()));
    assert_eq!(find(target, "$PBGMAP"), &GameValue::CString("sbps\\races\\core".into()));
}

#[test]
fn mod_xml_compiles() {
    let xml = r#"<mod guid="50bdc4b41a3f4794936d8c6d0b2898a0" override_instances="False"/>"#;
    let rgd = compile_attrib(xml, float_bits).unwrap();
    let chunky = Chunky::read(&rgd).unwrap();
    let nodes = RelicGameData::parse(&chunky).unwrap();
    assert_eq!(find(&nodes, "override_instances"), &GameValue::Boolean(false));
    assert_eq!(find(&nodes, "id"), &GameValue::CString("50bdc4b41a3f4794936d8c6d0b2898a0".into()));
}

#[test]
fn unknown_elements_and_bad_values_are_errors() {
    let unknown = r#"<instance><group name="g"><widget name="x" value="1"/></group></instance>"#;
    assert!(compile_attrib(unknown, float_bits).is_err(), "unknown tag must not be dropped silently");

    let bad_float = r#"<instance><float name="r" value="fast"/></instance>"#;
    assert!(compile_attrib(bad_float, float_bits).is_err(), "unparseable float must error");
}

#[test]
fn unbalanced_empty_and_foreign_documents_are_errors() {
    assert!(compile_attrib("<instance>", float_bits).is_err());
    assert!(compile_attrib("", float_bits).is_err());
    assert!(compile_attrib("<other/>", float_bits).is_err());
}

#[test]
fn events_build_the_element_tree() {
    let events = vec![
        XmlEvent::Start(b"instance".to_vec(), vec![(b"template".to_vec(), b"t".to_vec())]),
        XmlEvent::Empty(b"float".to_vec(), vec![(b"name".to_vec(), b"speed".to_vec())]),
        XmlEvent::End(b"instance".to_vec()),
    ];
    let root = tree_from_events(&events).unwrap();
    assert_eq!(root.tag, "instance");
    assert_eq!(root.attrs, vec![("template".to_string(), "t".to_string())]);
    assert_eq!(root.children.len(), 1);
    assert_eq!(root.children[0].tag, "float");
    assert!(matches!(tree_from_events(&vec![XmlEvent::End(b"x".to_vec())]), Err(AttribError::Unbalanced)));
    assert!(matches!(tree_from_events(&vec![]), Err(AttribError::Empty)));
}
