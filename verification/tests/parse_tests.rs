use component_inliner::dom::{Attribute, Document, Node};
use component_inliner::parse::{build_document, can_parse, parse, Entry, Item};

fn el(tag: &str, attributes: Vec<(&str, &str)>, children: Vec<Node>) -> Node {
    Node::Element {
        tag: tag.to_string(),
        attributes: attributes
            .into_iter()
            .map(|(name, value)| Attribute { name: name.to_string(), value: value.to_string() })
            .collect(),
        children,
    }
}

fn text(s: &str) -> Node {
    Node::Text(s.to_string())
}

fn entry(depth: usize, item: Item) -> Entry {
    (depth, item)
}

fn open(tag: &str) -> Item {
    Item::Element { tag: tag.to_string(), attributes: vec![] }
}

#[test]
fn parses_a_fragment_into_a_full_document() {
    let document = parse("<p class=\"x\">hi</p>");
    let expected = Document {
        children: vec![el(
            "html",
            vec![],
            vec![
                el("head", vec![], vec![]),
                el("body", vec![], vec![el("p", vec![("class", "x")], vec![text("hi")])]),
            ],
        )],
    };
    assert_eq!(document, expected);
}

#[test]
fn parse_keeps_doctype_and_comments_in_order() {
    let document = parse("<!DOCTYPE html><!-- note --><html><head></head><body>a<b>c</b></body></html>");
    let expected = Document {
        children: vec![
            Node::Doctype("html".to_string()),
            Node::Comment(" note ".to_string()),
            el(
                "html",
                vec![],
                vec![
                    el("head", vec![], vec![]),
                    el("body", vec![], vec![text("a"), el("b", vec![], vec![text("c")])]),
                ],
            ),
        ],
    };
    assert_eq!(document, expected);
}

#[test]
fn parse_hands_out_attributes_in_the_order_of_their_names() {
    let document = parse("<body><a zeta=\"1\" alpha=\"2\" href=\"3\"></a></body>");
    let expected = Document {
        children: vec![el(
            "html",
            vec![],
            vec![
                el("head", vec![], vec![]),
                el(
                    "body",
                    vec![],
                    vec![el("a", vec![("alpha", "2"), ("href", "3"), ("zeta", "1")], vec![])],
                ),
            ],
        )],
    };
    assert_eq!(document, expected);
}

#[test]
fn parse_keeps_the_text_of_style_and_script_as_one_child() {
    let document = parse("<head><style>.a > .b{}</style><script>if (a < b) {}</script></head>");
    let expected = Document {
        children: vec![el(
            "html",
            vec![],
            vec![
                el(
                    "head",
                    vec![],
                    vec![
                        el("style", vec![], vec![text(".a > .b{}")]),
                        el("script", vec![], vec![text("if (a < b) {}")]),
                    ],
                ),
                el("body", vec![], vec![]),
            ],
        )],
    };
    assert_eq!(document, expected);
}

#[test]
fn build_document_nests_by_depth() {
    let outline = vec![
        entry(1, open("html")),
        entry(2, open("head")),
        entry(2, open("body")),
        entry(3, open("p")),
        entry(4, Item::Text("hi".to_string())),
        entry(3, Item::Comment("c".to_string())),
        entry(1, Item::Doctype("late".to_string())),
    ];
    let expected = Document {
        children: vec![
            el(
                "html",
                vec![],
                vec![
                    el("head", vec![], vec![]),
                    el(
                        "body",
                        vec![],
                        vec![el("p", vec![], vec![text("hi")]), Node::Comment("c".to_string())],
                    ),
                ],
            ),
            Node::Doctype("late".to_string()),
        ],
    };
    assert_eq!(build_document(&outline), expected);
}

#[test]
fn build_document_of_nothing_is_empty() {
    assert_eq!(build_document(&vec![]), Document { children: vec![] });
}

#[test]
fn build_document_leaves_out_other_nodes_and_all_below_them() {
    let outline = vec![
        entry(1, open("a")),
        entry(2, Item::Other),
        entry(3, open("lost")),
        entry(2, open("b")),
        entry(1, Item::Text("t".to_string())),
        entry(2, open("under-text")),
        entry(1, open("c")),
    ];
    let expected = Document {
        children: vec![
            el("a", vec![], vec![el("b", vec![], vec![])]),
            text("t"),
            el("c", vec![], vec![]),
        ],
    };
    assert_eq!(build_document(&outline), expected);
}

#[test]
fn build_document_takes_a_jump_in_depth_as_one_level() {
    let outline = vec![entry(1, open("a")), entry(5, open("b")), entry(3, open("c"))];
    let expected = Document {
        children: vec![el("a", vec![], vec![el("b", vec![], vec![]), el("c", vec![], vec![])])],
    };
    assert_eq!(build_document(&outline), expected);
}

#[test]
fn ordinary_texts_can_be_parsed() {
    assert!(can_parse(""));
    assert!(can_parse("<p>hi</p>"));
    assert!(can_parse(&"é".repeat(100_000)));
}

#[test]
fn the_longest_text_for_the_parser_has_two_to_the_twenty_eight_characters() {
    let mut text = " ".repeat(0x1000_0000);
    assert!(can_parse(&text));
    text.push(' ');
    assert!(!can_parse(&text));
}
