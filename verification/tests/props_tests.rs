use component_inliner::dom::{Attribute, Document, Node};
use component_inliner::props::{get_component_props, replace_props, Prop, Props};

fn el(tag: &str, attributes: Vec<(&str, &str)>, children: Vec<Node>) -> Node {
    Node::Element {
        tag: tag.to_string(),
        attributes: attributes
            .into_iter()
            .map(|(name, value)| Attribute { name: name.to_string(), value: value.to_string() })
            .collect(),
        children,
    }
}

fn text(s: &str) -> Node {
    Node::Text(s.to_string())
}

fn props(entries: Vec<(&str, &str)>) -> Props {
    let mut props = Props::new();
    for (name, value) in entries {
        props.insert(name.to_string(), value.to_string());
    }
    props
}

fn entries(props: &Props) -> Vec<(String, String)> {
    let mut out = Vec::new();
    let mut i = 0;
    while i < props.len() {
        let Prop { name, value } = props.get(i);
        out.push((name.clone(), value.clone()));
        i += 1;
    }
    out
}

fn pairs(entries: Vec<(&str, &str)>) -> Vec<(String, String)> {
    entries.into_iter().map(|(n, v)| (n.to_string(), v.to_string())).collect()
}

#[test]
fn prop_substitution_round_trip() {
    let mut html = Document { children: vec![text("Hello {name}!"), text("Hello {missing}!")] };
    replace_props(&mut html, &props(vec![("name", "World")]));
    assert_eq!(html, Document { children: vec![text("Hello World!"), text("Hello {missing}!")] });
}

#[test]
fn a_new_map_is_empty() {
    let props = Props::new();
    assert_eq!(props.len(), 0);
    assert_eq!(entries(&props), vec![]);
}

#[test]
fn props_are_kept_in_the_order_of_their_names() {
    let props = props(vec![("title", "T"), ("alt", "A"), ("zeta", "Z"), ("href", "H")]);
    assert_eq!(props.len(), 4);
    assert_eq!(
        entries(&props),
        pairs(vec![("alt", "A"), ("href", "H"), ("title", "T"), ("zeta", "Z")])
    );
}

#[test]
fn a_name_that_is_inserted_again_gets_the_new_value() {
    let props = props(vec![("b", "1"), ("a", "2"), ("b", "3"), ("c", "4"), ("a", "5")]);
    assert_eq!(entries(&props), pairs(vec![("a", "5"), ("b", "3"), ("c", "4")]));
}

#[test]
fn props_agree_with_a_btree_map() {
    let inserts = vec![
        ("m", "1"), ("", "2"), ("ma", "3"), ("M", "4"), ("é", "5"), ("m", "6"), ("a b", "7"),
        ("ab", "8"), ("a", "9"), ("", "10"), ("zz", "11"), ("z", "12"),
    ];
    let mut map = std::collections::BTreeMap::new();
    for (name, value) in &inserts {
        map.insert(name.to_string(), value.to_string());
    }
    let expected: Vec<(String, String)> = map.into_iter().collect();
    assert_eq!(entries(&props(inserts)), expected);
}

#[test]
fn every_attribute_of_a_usage_is_a_prop() {
    let usage = el("card", vec![("title", "Hi"), ("class", "big"), ("data-x", "")], vec![text("t")]);
    let mut props = Props::new();
    get_component_props(&usage, &mut props);
    assert_eq!(entries(&props), pairs(vec![("class", "big"), ("data-x", ""), ("title", "Hi")]));
}

#[test]
fn props_of_a_usage_are_added_to_those_that_are_there() {
    let usage = el("card", vec![("b", "new"), ("c", "3")], vec![]);
    let mut props = props(vec![("a", "1"), ("b", "old")]);
    get_component_props(&usage, &mut props);
    assert_eq!(entries(&props), pairs(vec![("a", "1"), ("b", "new"), ("c", "3")]));
}

#[test]
fn a_node_that_is_no_element_has_no_props() {
    let mut props = props(vec![("a", "1")]);
    get_component_props(&text("{a}"), &mut props);
    get_component_props(&Node::Comment("x".to_string()), &mut props);
    get_component_props(&Node::Doctype("html".to_string()), &mut props);
    assert_eq!(entries(&props), pairs(vec![("a", "1")]));
    let mut none = Props::new();
    get_component_props(&el("card", vec![], vec![]), &mut none);
    assert_eq!(none.len(), 0);
}

#[test]
fn props_are_filled_into_attribute_values_and_texts_at_any_depth() {
    let mut html = Document {
        children: vec![
            el(
                "a",
                vec![("href", "/{page}.html"), ("{page}", "name stays"), ("title", "{title}")],
                vec![
                    text("{title}: {page}"),
                    el("{page}", vec![], vec![el("b", vec![("x", "{page}{page}")], vec![text("{page}")])]),
                    Node::Comment("{page}".to_string()),
                ],
            ),
            Node::Doctype("{page}".to_string()),
        ],
    };
    replace_props(&mut html, &props(vec![("page", "home"), ("title", "Home")]));
    let expected = Document {
        children: vec![
            el(
                "a",
                vec![("href", "/home.html"), ("{page}", "name stays"), ("title", "Home")],
                vec![
                    text("Home: home"),
                    el("{page}", vec![], vec![el("b", vec![("x", "homehome")], vec![text("home")])]),
                    Node::Comment("{page}".to_string()),
                ],
            ),
            Node::Doctype("{page}".to_string()),
        ],
    };
    assert_eq!(html, expected);
}

#[test]
fn without_props_nothing_changes() {
    let mut html = Document { children: vec![el("p", vec![("a", "{b}")], vec![text("{c}")])] };
    replace_props(&mut html, &Props::new());
    assert_eq!(html, Document { children: vec![el("p", vec![("a", "{b}")], vec![text("{c}")])] });
}

#[test]
fn a_placeholder_that_a_value_brings_is_not_filled() {
    let mut html = Document { children: vec![el("p", vec![("title", "{a}")], vec![text("{a}")])] };
    replace_props(&mut html, &props(vec![("a", "{b}"), ("b", "X")]));
    assert_eq!(html, Document { children: vec![el("p", vec![("title", "{b}")], vec![text("{b}")])] });
    let mut both = Document { children: vec![text("{a} {b}")] };
    replace_props(&mut both, &props(vec![("b", "[{a}]"), ("a", "<{b}>")]));
    assert_eq!(both, Document { children: vec![text("<{b}> [{a}]")] });
    let mut own = Document { children: vec![text("{a}{a}")] };
    replace_props(&mut own, &props(vec![("a", "{a}{a}")]));
    assert_eq!(own, Document { children: vec![text("{a}{a}{a}{a}")] });
}

#[test]
fn the_scan_goes_on_behind_a_placeholder() {
    let mut html = Document { children: vec![text("{{a}} {a{a}} {a}{b}{a} {a")] };
    replace_props(&mut html, &props(vec![("a", "1"), ("b", "")]));
    assert_eq!(html, Document { children: vec![text("{1} {a1} 11 {a")] });
}

#[test]
fn of_two_placeholders_at_one_place_the_first_prop_is_taken() {
    let mut html = Document { children: vec![text("{a}}")] };
    replace_props(&mut html, &props(vec![("a}", "long"), ("a", "short")]));
    assert_eq!(html, Document { children: vec![text("short}")] });
}

#[test]
fn with_one_prop_filling_is_substring_replacement() {
    let texts = ["", "{x}", "a{x}b{x}", "{{x}}", "{x", "x}", "{x}{y}", "日本語{x}語"];
    let values = ["", "v", "{x}", "{x}{x}", "}"];
    for t in texts {
        for value in values {
            let mut html = Document { children: vec![text(t)] };
            replace_props(&mut html, &props(vec![("x", value)]));
            assert_eq!(html, Document { children: vec![text(&t.replace("{x}", value))] });
        }
    }
}

#[test]
fn only_the_exact_placeholder_is_filled() {
    let mut html =
        Document { children: vec![text("{ name } {Name} {name {name}} name {{name}} {}")] };
    replace_props(&mut html, &props(vec![("name", "x")]));
    assert_eq!(html, Document { children: vec![text("{ name } {Name} {name x} name {x} {}")] });
    let mut empty = Document { children: vec![text("{} {a}")] };
    replace_props(&mut empty, &props(vec![("", "none")]));
    assert_eq!(empty, Document { children: vec![text("none {a}")] });
}
