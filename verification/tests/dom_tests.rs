use component_inliner::dom::{
    clone_attributes, clone_node, clone_nodes, create_and_insert_element, create_element,
    get_node_text, push_clones, select_nodes, select_tagged, Attribute, Document, Node,
};

fn attr(name: &str, value: &str) -> Attribute {
    Attribute { name: name.to_string(), value: value.to_string() }
}

fn el(tag: &str, attributes: Vec<(&str, &str)>, children: Vec<Node>) -> Node {
    Node::Element {
        tag: tag.to_string(),
        attributes: attributes.into_iter().map(|(n, v)| attr(n, v)).collect(),
        children,
    }
}

fn text(s: &str) -> Node {
    Node::Text(s.to_string())
}

fn sample() -> Vec<Node> {
    vec![
        Node::Doctype("html".to_string()),
        el(
            "html",
            vec![],
            vec![
                el("head", vec![], vec![el("title", vec![], vec![text("t")])]),
                el(
                    "body",
                    vec![("class", "main")],
                    vec![
                        el("p", vec![("id", "1")], vec![text("a"), el("p", vec![("id", "2")], vec![])]),
                        Node::Comment("c".to_string()),
                        el("div", vec![], vec![el("p", vec![("id", "3")], vec![text("b")])]),
                        el("head", vec![("id", "late")], vec![]),
                    ],
                ),
            ],
        ),
    ]
}

fn ids(found: Vec<&Node>) -> Vec<String> {
    found
        .into_iter()
        .map(|node| match node {
            Node::Element { attributes, .. } => {
                attributes.iter().map(|a| a.value.clone()).collect::<Vec<_>>().join(",")
            }
            _ => panic!("no element"),
        })
        .collect()
}

#[test]
fn select_finds_elements_in_document_order() {
    let nodes = sample();
    assert_eq!(ids(select_nodes(&nodes, "p")), vec!["1", "2", "3"]);
    assert_eq!(ids(select_nodes(&nodes, "head")), vec!["", "late"]);
    assert_eq!(select_nodes(&nodes, "body").len(), 1);
}

#[test]
fn select_of_an_unknown_tag_is_empty() {
    let nodes = sample();
    assert!(select_nodes(&nodes, "card").is_empty());
    assert!(select_nodes(&nodes, "").is_empty());
    assert!(select_nodes(&nodes, "p.x").is_empty());
    assert!(select_nodes(&vec![], "p").is_empty());
}

#[test]
fn select_takes_the_name_in_lower_case() {
    let nodes = sample();
    assert_eq!(ids(select_nodes(&nodes, "P")), vec!["1", "2", "3"]);
    assert_eq!(ids(select_nodes(&nodes, "HeAd")), vec!["", "late"]);
    let upper = vec![el("Card", vec![("id", "upper")], vec![]), el("card", vec![("id", "lower")], vec![])];
    assert_eq!(ids(select_nodes(&upper, "Card")), vec!["lower"]);
    assert_eq!(ids(select_nodes(&upper, "card")), vec!["lower"]);
}

#[test]
fn select_tagged_takes_the_tag_as_it_stands() {
    let nodes = sample();
    assert_eq!(ids(select_tagged(&nodes, "p")), vec!["1", "2", "3"]);
    assert!(select_tagged(&nodes, "P").is_empty());
    let upper = vec![el("Card", vec![("id", "upper")], vec![]), el("card", vec![("id", "lower")], vec![])];
    assert_eq!(ids(select_tagged(&upper, "Card")), vec!["upper"]);
}

#[test]
fn select_hands_out_the_nodes_themselves() {
    let nodes = sample();
    let found = select_nodes(&nodes, "div");
    assert_eq!(found.len(), 1);
    assert_eq!(*found[0], el("div", vec![], vec![el("p", vec![("id", "3")], vec![text("b")])]));
}

#[test]
fn copies_are_equal_to_what_they_copy() {
    let nodes = sample();
    assert_eq!(clone_nodes(&nodes), sample());
    assert_eq!(clone_node(&nodes[1]), sample().remove(1));
    let attributes = vec![attr("a", "1"), attr("b", "2")];
    assert_eq!(clone_attributes(&attributes), vec![attr("a", "1"), attr("b", "2")]);
    let mut out = vec![text("x")];
    push_clones(&mut out, &vec![text("a"), text("b"), text("c")], 1);
    assert_eq!(out, vec![text("x"), text("b"), text("c")]);
}

#[test]
fn get_node_text_gives_the_text_of_a_text_node() {
    assert_eq!(get_node_text(&text("a{b}")), "a{b}");
    assert_eq!(get_node_text(&text("")), "");
}

#[test]
fn get_node_text_of_another_node_is_empty() {
    assert_eq!(get_node_text(&Node::Comment("c".to_string())), "");
    assert_eq!(get_node_text(&el("p", vec![], vec![text("inner")])), "");
    assert_eq!(get_node_text(&Node::Doctype("html".to_string())), "");
}

#[test]
fn create_element_has_no_attributes_and_no_children() {
    assert_eq!(create_element("link"), el("link", vec![], vec![]));
}

#[test]
fn create_and_insert_element_appends_to_the_first_match() {
    let mut html = Document { children: sample() };
    create_and_insert_element(
        &mut html,
        "head",
        "link",
        vec![attr("href", "./index.css"), attr("rel", "stylesheet")],
    );
    let mut expected = sample();
    match &mut expected[1] {
        Node::Element { children, .. } => match &mut children[0] {
            Node::Element { children, .. } => {
                children.push(el("link", vec![("href", "./index.css"), ("rel", "stylesheet")], vec![]))
            }
            _ => panic!("no element"),
        },
        _ => panic!("no element"),
    }
    assert_eq!(html, Document { children: expected });
}

#[test]
fn create_and_insert_element_goes_by_document_order_not_by_depth() {
    let mut html = Document {
        children: vec![
            el("a", vec![], vec![el("b", vec![], vec![el("x", vec![("n", "deep")], vec![])])]),
            el("x", vec![("n", "shallow")], vec![]),
        ],
    };
    create_and_insert_element(&mut html, "x", "y", vec![]);
    let expected = Document {
        children: vec![
            el(
                "a",
                vec![],
                vec![el(
                    "b",
                    vec![],
                    vec![el("x", vec![("n", "deep")], vec![el("y", vec![], vec![])])],
                )],
            ),
            el("x", vec![("n", "shallow")], vec![]),
        ],
    };
    assert_eq!(html, expected);
}

#[test]
fn create_and_insert_element_does_not_look_inside_the_match() {
    let mut html =
        Document { children: vec![el("x", vec![], vec![el("x", vec![], vec![]), text("t")])] };
    create_and_insert_element(&mut html, "x", "y", vec![]);
    let expected = Document {
        children: vec![el(
            "x",
            vec![],
            vec![el("x", vec![], vec![]), text("t"), el("y", vec![], vec![])],
        )],
    };
    assert_eq!(html, expected);
}

#[test]
fn create_and_insert_element_takes_the_selector_in_lower_case() {
    let mut html = Document { children: vec![el("head", vec![], vec![])] };
    create_and_insert_element(&mut html, "HEAD", "Link", vec![]);
    assert_eq!(
        html,
        Document { children: vec![el("head", vec![], vec![el("Link", vec![], vec![])])] }
    );
}

#[test]
fn create_and_insert_element_without_a_match_changes_nothing() {
    let mut html = Document { children: sample() };
    create_and_insert_element(&mut html, "nav", "link", vec![]);
    assert_eq!(html, Document { children: sample() });
}
