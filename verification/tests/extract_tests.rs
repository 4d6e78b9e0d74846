use component_inliner::dom::{Attribute, Document, Node};
use component_inliner::extract::extract_blocks;

fn el(tag: &str, attributes: Vec<(&str, &str)>, children: Vec<Node>) -> Node {
    Node::Element {
        tag: tag.to_string(),
        attributes: attributes
            .into_iter()
            .map(|(name, value)| Attribute { name: name.to_string(), value: value.to_string() })
            .collect(),
        children,
    }
}

fn text(s: &str) -> Node {
    Node::Text(s.to_string())
}

#[test]
fn blocks_come_out_in_document_order() {
    let mut html = Document {
        children: vec![
            el("style", vec![], vec![text("a{}")]),
            el(
                "div",
                vec![("id", "x")],
                vec![text("keep"), el("style", vec![], vec![text("b{}")]), el("p", vec![], vec![])],
            ),
            el("style", vec![("media", "print")], vec![text("c{}")]),
            el("script", vec![], vec![text("js()")]),
        ],
    };
    let css = extract_blocks(&mut html, "style");
    assert_eq!(css, "a{}b{}c{}");
    let expected = Document {
        children: vec![
            el("div", vec![("id", "x")], vec![text("keep"), el("p", vec![], vec![])]),
            el("script", vec![], vec![text("js()")]),
        ],
    };
    assert_eq!(html, expected);
}

#[test]
fn a_second_extraction_finds_nothing() {
    let mut html = Document {
        children: vec![el("p", vec![], vec![el("script", vec![], vec![text("a()")])])],
    };
    assert_eq!(extract_blocks(&mut html, "script"), "a()");
    let once = Document { children: vec![el("p", vec![], vec![])] };
    assert_eq!(html, once);
    assert_eq!(extract_blocks(&mut html, "script"), "");
    assert_eq!(html, once);
}

#[test]
fn without_blocks_nothing_changes() {
    let mut html =
        Document { children: vec![el("p", vec![], vec![text("x")]), Node::Comment("c".to_string())] };
    assert_eq!(extract_blocks(&mut html, "style"), "");
    assert_eq!(
        html,
        Document { children: vec![el("p", vec![], vec![text("x")]), Node::Comment("c".to_string())] }
    );
}

#[test]
fn an_empty_block_contributes_nothing_and_leaves() {
    let mut html = Document {
        children: vec![
            el("script", vec![("src", "x.js")], vec![]),
            el("script", vec![], vec![text("a()")]),
        ],
    };
    assert_eq!(extract_blocks(&mut html, "script"), "a()");
    assert_eq!(html, Document { children: vec![] });
}

#[test]
fn only_the_first_child_is_read_and_only_if_it_is_text() {
    let mut html = Document {
        children: vec![
            el("style", vec![], vec![text("a"), text("b")]),
            el("style", vec![], vec![el("b", vec![], vec![text("inner")]), text("c")]),
            el("style", vec![], vec![Node::Comment("d".to_string())]),
        ],
    };
    assert_eq!(extract_blocks(&mut html, "style"), "a");
    assert_eq!(html, Document { children: vec![] });
}

#[test]
fn a_block_inside_a_block_is_read_after_it() {
    let mut html = Document {
        children: vec![
            el(
                "style",
                vec![],
                vec![text("outer"), el("style", vec![], vec![text("inner")])],
            ),
            el("style", vec![], vec![text("last")]),
        ],
    };
    assert_eq!(extract_blocks(&mut html, "style"), "outerinnerlast");
    assert_eq!(html, Document { children: vec![] });
}

#[test]
fn the_tag_name_is_taken_in_lower_case() {
    let mut html = Document {
        children: vec![el("style", vec![], vec![text("a{}")]), el("Style", vec![], vec![text("b{}")])],
    };
    assert_eq!(extract_blocks(&mut html, "STYLE"), "a{}");
    assert_eq!(html, Document { children: vec![el("Style", vec![], vec![text("b{}")])] });
}
