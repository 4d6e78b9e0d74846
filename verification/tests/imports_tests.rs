use component_inliner::dom::{Attribute, Document, Node};
use component_inliner::imports::{get_imported_component_paths, Import, ImportError};

fn el(tag: &str, attributes: Vec<(&str, &str)>, children: Vec<Node>) -> Node {
    Node::Element {
        tag: tag.to_string(),
        attributes: attributes
            .into_iter()
            .map(|(name, value)| Attribute { name: name.to_string(), value: value.to_string() })
            .collect(),
        children,
    }
}

fn comment(s: &str) -> Node {
    Node::Comment(s.to_string())
}

fn import(tag: &str, path: &str) -> Import {
    Import { tag_name: tag.to_string(), source_path: path.to_string() }
}

fn malformed(line: &str) -> Result<(), ImportError> {
    Err(ImportError { line: line.to_string() })
}

fn read(children: Vec<Node>, base: &str) -> (Result<(), ImportError>, Document, Vec<Import>) {
    let mut html = Document { children };
    let mut imports = Vec::new();
    let result = get_imported_component_paths(&mut html, &mut imports, base);
    (result, html, imports)
}

#[test]
fn an_import_is_read_and_its_comment_leaves() {
    let (result, html, imports) = read(
        vec![comment(" import 'widgets/button.html' "), el("button", vec![], vec![])],
        "/site",
    );
    assert_eq!(result, Ok(()));
    assert_eq!(imports, vec![import("button", "/site/widgets/button.html")]);
    assert_eq!(html, Document { children: vec![el("button", vec![], vec![])] });
}

#[test]
fn import_paths_are_seen_from_the_base_and_normalized() {
    let (result, _, imports) = read(
        vec![comment("import '../shared/card.html'\nimport './a/./b/../nav.bar.html'")],
        "/project/pages/home",
    );
    assert_eq!(result, Ok(()));
    assert_eq!(
        imports,
        vec![
            import("card", "/project/pages/shared/card.html"),
            import("nav.bar", "/project/pages/home/a/nav.bar.html"),
        ]
    );
}

#[test]
fn comments_are_read_in_document_order_at_any_depth() {
    let (result, html, imports) = read(
        vec![
            comment("import 'a.html'"),
            el(
                "div",
                vec![],
                vec![
                    comment("import 'b.html'"),
                    el("p", vec![], vec![comment("import 'c.html'")]),
                    comment("plain"),
                ],
            ),
            comment("import 'd.html'"),
        ],
        "/s",
    );
    assert_eq!(result, Ok(()));
    assert_eq!(
        imports,
        vec![
            import("a", "/s/a.html"),
            import("b", "/s/b.html"),
            import("c", "/s/c.html"),
            import("d", "/s/d.html"),
        ]
    );
    assert_eq!(
        html,
        Document { children: vec![el("div", vec![], vec![el("p", vec![], vec![]), comment("plain")])] }
    );
}

#[test]
fn whitespace_in_a_declaration_does_not_count() {
    let (result, _, imports) =
        read(vec![comment("\r\n\t  import   ' my card . html '  \r\n")], "/s");
    assert_eq!(result, Ok(()));
    assert_eq!(imports, vec![import("mycard", "/s/mycard.html")]);
    // The word is looked for before the whitespace is removed.
    let (result, html, imports) = read(vec![comment("i m p o r t 'a.html'")], "/s");
    assert_eq!(result, Ok(()));
    assert_eq!(imports, vec![]);
    assert_eq!(html, Document { children: vec![comment("i m p o r t 'a.html'")] });
}

#[test]
fn lines_without_the_word_are_passed_over() {
    let (result, html, imports) = read(
        vec![comment("Components used here:\n\n  import 'a.html'\n  (the card)\n  import 'b.html'\n")],
        "/s",
    );
    assert_eq!(result, Ok(()));
    assert_eq!(imports, vec![import("a", "/s/a.html"), import("b", "/s/b.html")]);
    assert_eq!(html, Document { children: vec![] });
}

#[test]
fn the_last_import_under_a_tag_wins_and_keeps_the_place_of_the_first() {
    let (result, _, imports) = read(
        vec![comment("import 'one/card.html'\nimport 'nav.html'\nimport 'two/card.html'")],
        "/s",
    );
    assert_eq!(result, Ok(()));
    assert_eq!(imports, vec![import("card", "/s/two/card.html"), import("nav", "/s/nav.html")]);
}

#[test]
fn imports_are_recorded_on_top_of_those_given() {
    let mut html = Document { children: vec![comment("import 'b.html'\nimport 'new/a.html'")] };
    let mut imports = vec![import("a", "/old/a.html"), import("z", "/old/z.html")];
    let result = get_imported_component_paths(&mut html, &mut imports, "/s");
    assert_eq!(result, Ok(()));
    assert_eq!(
        imports,
        vec![import("a", "/s/new/a.html"), import("z", "/old/z.html"), import("b", "/s/b.html")]
    );
}

#[test]
fn without_import_comments_nothing_changes() {
    let (result, html, imports) =
        read(vec![comment("just a note"), el("p", vec![], vec![comment("Import")])], "/s");
    assert_eq!(result, Ok(()));
    assert_eq!(imports, vec![]);
    assert_eq!(
        html,
        Document {
            children: vec![comment("just a note"), el("p", vec![], vec![comment("Import")])]
        }
    );
}

#[test]
fn a_line_with_the_word_that_declares_nothing_is_the_error() {
    assert_eq!(read(vec![comment("import card.html")], "/s").0, malformed("import card.html"));
    assert_eq!(read(vec![comment("import \"card.html\"")], "/s").0, malformed("import \"card.html\""));
    assert_eq!(read(vec![comment("import 'card.html';")], "/s").0, malformed("import 'card.html';"));
    assert_eq!(read(vec![comment("import ''")], "/s").0, malformed("import ''"));
    assert_eq!(read(vec![comment("import 'a''b'")], "/s").0, malformed("import 'a''b'"));
    assert_eq!(read(vec![comment("import 'card.html")], "/s").0, malformed("import 'card.html"));
    assert_eq!(read(vec![comment("import")], "/s").0, malformed("import"));
    assert_eq!(read(vec![comment("see: import 'a.html'")], "/s").0, malformed("see: import 'a.html'"));
    assert_eq!(read(vec![comment("important")], "/s").0, malformed("important"));
}

#[test]
fn a_path_without_file_name_declares_nothing() {
    assert_eq!(read(vec![comment("import '..'")], "/s").0, malformed("import '..'"));
    assert_eq!(read(vec![comment("import './'")], "/").0, malformed("import './'"));
    assert_eq!(read(vec![comment("import 'a/..'")], "").0, malformed("import 'a/..'"));
}

#[test]
fn the_first_malformed_line_is_returned_and_the_comments_leave_all_the_same() {
    let mut html = Document {
        children: vec![
            comment("import 'a.html'"),
            el("p", vec![], vec![comment("x\n import b \nimport c"), comment("plain")]),
            comment("import 'd.html'"),
        ],
    };
    let mut imports = vec![import("old", "/old.html")];
    let result = get_imported_component_paths(&mut html, &mut imports, "/s");
    assert_eq!(result, malformed(" import b "));
    assert_eq!(html, Document { children: vec![el("p", vec![], vec![comment("plain")])] });
    assert_eq!(imports, vec![import("old", "/old.html")]);
}

#[test]
fn a_comment_whose_path_has_no_file_name_leaves_too() {
    let (result, html, imports) =
        read(vec![comment("import '..'"), el("p", vec![], vec![])], "/s");
    assert_eq!(result, malformed("import '..'"));
    assert_eq!(html, Document { children: vec![el("p", vec![], vec![])] });
    assert_eq!(imports, vec![]);
}
