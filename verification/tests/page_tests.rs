use component_inliner::compile::Output;
use component_inliner::dom::{Attribute, Document, Node};
use component_inliner::page::{build_page, locate_page, PageTarget};

fn el(tag: &str, attributes: Vec<(&str, &str)>, children: Vec<Node>) -> Node {
    Node::Element {
        tag: tag.to_string(),
        attributes: attributes
            .into_iter()
            .map(|(name, value)| Attribute { name: name.to_string(), value: value.to_string() })
            .collect(),
        children,
    }
}

fn page(head: Vec<Node>) -> Document {
    Document {
        children: vec![el(
            "html",
            vec![],
            vec![el("head", vec![], head), el("body", vec![], vec![])],
        )],
    }
}

fn output(css: &str, js: &str) -> Output {
    Output {
        html: page(vec![el("title", vec![], vec![])]),
        css: css.to_string(),
        js: js.to_string(),
    }
}

fn target(build_dir: &str, file_name: &str, assets_path: &str) -> Option<PageTarget> {
    Some(PageTarget {
        build_dir: build_dir.to_string(),
        file_name: file_name.to_string(),
        assets_path: assets_path.to_string(),
    })
}

#[test]
fn a_page_with_style_and_script_refers_to_both() {
    let built = build_page(output("a{}", "b()"), "index");
    let expected = page(vec![
        el("title", vec![], vec![]),
        el("link", vec![("href", "./index.css"), ("rel", "stylesheet")], vec![]),
        el("script", vec![("src", "./index.js"), ("type", "module")], vec![]),
    ]);
    assert_eq!(built.html, expected);
    assert_eq!(built.css, "a{}");
    assert_eq!(built.js, "b()");
}

#[test]
fn a_page_without_style_or_script_refers_to_neither() {
    let built = build_page(output("", ""), "index");
    assert_eq!(built, output("", ""));
}

#[test]
fn a_page_refers_only_to_the_text_it_has() {
    let styled = build_page(output("a{}", ""), "about");
    assert_eq!(
        styled.html,
        page(vec![
            el("title", vec![], vec![]),
            el("link", vec![("href", "./about.css"), ("rel", "stylesheet")], vec![]),
        ])
    );
    let scripted = build_page(output("", " "), "about");
    assert_eq!(
        scripted.html,
        page(vec![
            el("title", vec![], vec![]),
            el("script", vec![("src", "./about.js"), ("type", "module")], vec![]),
        ])
    );
    assert_eq!(scripted.js, " ");
}

#[test]
fn a_page_without_head_gets_no_reference() {
    let bare = Output {
        html: Document { children: vec![el("p", vec![], vec![])] },
        css: "a{}".to_string(),
        js: "b()".to_string(),
    };
    let built = build_page(bare, "index");
    assert_eq!(built.html, Document { children: vec![el("p", vec![], vec![])] });
    assert_eq!(built.css, "a{}");
    assert_eq!(built.js, "b()");
}

#[test]
fn a_page_directly_under_pages_goes_to_the_build_directory() {
    assert_eq!(
        locate_page("build", "src/pages", "src/pages/about/index.html"),
        target("build", "about", "src/pages/about/assets")
    );
}

#[test]
fn a_page_deeper_under_pages_goes_to_a_directory_of_that_depth() {
    assert_eq!(
        locate_page("/out/build", "/site/src/pages", "/site/src/pages/blog/2024/post/index.html"),
        target("/out/build/blog/2024", "post", "/site/src/pages/blog/2024/post/assets")
    );
}

#[test]
fn a_path_that_is_no_page_has_no_target() {
    assert_eq!(locate_page("build", "src/pages", "src/pages/index.html"), None);
    assert_eq!(locate_page("build", "src/pages", "src/other/about/index.html"), None);
    assert_eq!(locate_page("build", "src/pages", "src/pages/about/main.html"), None);
    assert_eq!(locate_page("build", "src/pages", "src/pages/about"), None);
    assert_eq!(locate_page("build", "src/pages", ""), None);
}

#[test]
fn an_empty_segment_gives_an_empty_file_name() {
    assert_eq!(
        locate_page("build", "src/pages", "src/pages//index.html"),
        target("build", "", "src/pages//assets")
    );
}
