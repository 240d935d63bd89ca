use relic_chunky::rgd::{GameNode, GameValue};
use relic_chunky::rgd_xml::game_data_to_xml;

fn float_text(bits: u32) -> String {
    f32::from_bits(bits).to_string()
}

fn node(key: &str, value: GameValue) -> GameNode {
    GameNode { key: key.to_string(), value }
}

#[test]
fn xml_escapes_special_characters() {
    let nodes = vec![node("a&b<c>", GameValue::CString("quote\"".to_string()))];

    let xml = game_data_to_xml(&nodes, float_text).unwrap();
    assert!(xml.contains("a&amp;b&lt;c&gt;"), "{xml}");
    assert!(xml.contains("&quot;"), "{xml}");
}

#[test]
fn xml_nests_lists_and_types_each_value() {
    let nodes = vec![
        node(
            "default",
            GameValue::List(vec![
                node("weapon_class", GameValue::CString("cdn_2h_spear".to_string())),
                node("speed", GameValue::Float(1.5f32.to_bits())),
                node("count", GameValue::Int(-3)),
                node("on", GameValue::Boolean(true)),
                node("title", GameValue::LocString("$1".to_string())),
                node("entries", GameValue::List2(vec![])),
            ]),
        ),
        node("instance_version", GameValue::Int(2)),
    ];
    let xml = game_data_to_xml(&nodes, float_text).unwrap();
    assert!(xml.starts_with("<?xml version=\"1.0\" encoding=\"utf-8\"?>"));
    assert!(xml.ends_with("</Root>"));
    assert!(xml.contains("<RGDNode Key=\"weapon_class\" Type=\"CString\" Value=\"cdn_2h_spear\"/>"), "{xml}");
    assert!(xml.contains("<RGDNode Key=\"speed\" Type=\"Float\" Value=\"1.5\"/>"), "{xml}");
    assert!(xml.contains("<RGDNode Key=\"count\" Type=\"Int\" Value=\"-3\"/>"), "{xml}");
    assert!(xml.contains("<RGDNode Key=\"on\" Type=\"Boolean\" Value=\"true\"/>"), "{xml}");
    assert!(xml.contains("<RGDNode Key=\"title\" Type=\"LocString\" Value=\"$1\"/>"), "{xml}");
    assert!(xml.contains("<RGDNode Key=\"default\" Type=\"List\">"), "{xml}");
    assert!(xml.contains("<RGDNode Key=\"entries\" Type=\"List\">"), "{xml}");
    assert!(xml.find("Key=\"default\"").unwrap() < xml.find("Key=\"weapon_class\"").unwrap());
    assert!(xml.find("</RGDNode>").unwrap() < xml.find("Key=\"instance_version\"").unwrap());
}
