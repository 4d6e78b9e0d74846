//! What a compiled page needs before it is written: the references to its
//! style sheet and script in its head, and the place it is written to.

use crate::compile::{Output, OutputView};
use crate::dom::{
    attributes_view, create_and_insert_element, with_child, Attribute, AttributeView, NodeView,
};
use crate::path::last_index;
use crate::text::{from_chars, lowered, matches_at, occurs_at, push_range, to_chars};
use vstd::prelude::*;
use vstd::string::StringExecFns;

verus! {

/// Where a page is written, and where its assets lie.
#[derive(Debug, PartialEq, Eq)]
pub struct PageTarget {
    /// The directory that the page is written to.
    pub build_dir: String,
    /// The name of its files, without extension.
    pub file_name: String,
    /// The directory that holds its assets.
    pub assets_path: String,
}

/// What a [`PageTarget`] stands for.
pub struct PageTargetView {
    pub build_dir: Seq<char>,
    pub file_name: Seq<char>,
    pub assets_path: Seq<char>,
}

impl View for PageTarget {
    type V = PageTargetView;

    open spec fn view(&self) -> PageTargetView {
        PageTargetView {
            build_dir: self.build_dir@,
            file_name: self.file_name@,
            assets_path: self.assets_path@,
        }
    }
}

/// The element that refers to the style sheet `./<file_name>.css`.
pub open spec fn stylesheet_link(file_name: Seq<char>) -> NodeView {
    NodeView::Element {
        tag: "link"@,
        attributes: seq![
            AttributeView { name: "href"@, value: "./"@ + file_name + ".css"@ },
            AttributeView { name: "rel"@, value: "stylesheet"@ },
        ],
        children: Seq::empty(),
    }
}

/// The element that refers to the module script `./<file_name>.js`.
pub open spec fn module_script(file_name: Seq<char>) -> NodeView {
    NodeView::Element {
        tag: "script"@,
        attributes: seq![
            AttributeView { name: "src"@, value: "./"@ + file_name + ".js"@ },
            AttributeView { name: "type"@, value: "module"@ },
        ],
        children: Seq::empty(),
    }
}

/// The document of `output` with the references that its texts call for
/// appended to its first `head` element: one to the style sheet where there
/// is style text, then one to the script where there is script text.
pub open spec fn page_html(output: OutputView, file_name: Seq<char>) -> Seq<NodeView> {
    let styled = if output.css.len() > 0 {
        with_child(output.html, "head"@, stylesheet_link(file_name))
    } else {
        output.html
    };
    if output.js.len() > 0 {
        with_child(styled, "head"@, module_script(file_name))
    } else {
        styled
    }
}

/// The last segment of the page path under `pages_dir` names the files of
/// a page, and what stands before it the directory below `build_dir` that
/// they go to. A path that is not `<pages_dir>/<segments>/index.html` has no
/// target.
pub open spec fn page_target(
    build_dir: Seq<char>,
    pages_dir: Seq<char>,
    page_path: Seq<char>,
) -> Option<PageTargetView> {
    let prefix = pages_dir + "/"@;
    let suffix = "/index.html"@;
    let end = page_path.len() - suffix.len();
    if prefix.len() + suffix.len() <= page_path.len() && occurs_at(page_path, prefix, 0)
        && occurs_at(page_path, suffix, end) {
        let whole = build_dir + "/"@ + page_path.subrange(prefix.len() as int, end);
        let cut = last_index(whole, '/');
        Some(
            PageTargetView {
                build_dir: whole.take(cut),
                file_name: whole.skip(cut + 1),
                assets_path: page_path.take(end) + "/assets"@,
            },
        )
    } else {
        None
    }
}

/// One attribute.
fn attribute(name: &str, value: String) -> (a: Attribute)
    ensures
        a@ == (AttributeView { name: name@, value: value@ }),
{
    Attribute { name: name.to_owned(), value }
}

/// `./<file_name><extension>`.
fn reference(file_name: &str, extension: &str) -> (href: String)
    ensures
        href@ == "./"@ + file_name@ + extension@,
{
    let mut href = String::from_str("./");
    href.append(file_name);
    href.append(extension);
    href
}

/// Appends to the first `head` element of the document the references that
/// the texts of `output` call for: a `link` to the style sheet
/// `./<file_name>.css` where the style text is not empty, then a `script`
/// that loads `./<file_name>.js` as a module where the script text is not
/// empty. The texts stay as they are.
pub fn build_page(output: Output, file_name: &str) -> (page: Output)
    ensures
        page@.html == page_html(output@, file_name@),
        page@.css == output@.css,
        page@.js == output@.js,
{
    let mut page = output;
    proof {
        reveal_strlit("head");
        assert(lowered("head"@) =~= "head"@);
    }
    if !page.css.as_str().is_empty() {
        let mut attrs: Vec<Attribute> = Vec::new();
        attrs.push(attribute("href", reference(file_name, ".css")));
        attrs.push(attribute("rel", String::from_str("stylesheet")));
        assert(attributes_view(attrs@) =~= seq![
            AttributeView { name: "href"@, value: "./"@ + file_name@ + ".css"@ },
            AttributeView { name: "rel"@, value: "stylesheet"@ },
        ]);
        create_and_insert_element(&mut page.html, "head", "link", attrs);
    }
    if !page.js.as_str().is_empty() {
        let mut attrs: Vec<Attribute> = Vec::new();
        attrs.push(attribute("src", reference(file_name, ".js")));
        attrs.push(attribute("type", String::from_str("module")));
        assert(attributes_view(attrs@) =~= seq![
            AttributeView { name: "src"@, value: "./"@ + file_name@ + ".js"@ },
            AttributeView { name: "type"@, value: "module"@ },
        ]);
        create_and_insert_element(&mut page.html, "head", "script", attrs);
    }
    page
}

/// Where the page at `page_path`, found under `pages_dir`, is written
/// below `build_dir`: see [`page_target`].
pub fn locate_page(build_dir: &str, pages_dir: &str, page_path: &str) -> (target: Option<
    PageTarget,
>)
    ensures
        match target {
            Some(t) => page_target(build_dir@, pages_dir@, page_path@) == Some(t@),
            None => page_target(build_dir@, pages_dir@, page_path@) is None,
        },
{
    let path = to_chars(page_path);
    let mut prefix = to_chars(pages_dir);
    prefix.push('/');
    let suffix = to_chars("/index.html");
    proof {
        reveal_strlit("/");
        reveal_strlit("/assets");
        assert(prefix@ =~= pages_dir@ + "/"@);
    }
    if prefix.len() > path.len() || suffix.len() > path.len() - prefix.len() {
        return None;
    }
    let end: usize = path.len() - suffix.len();
    if !matches_at(&path, &prefix, 0) || !matches_at(&path, &suffix, end) {
        return None;
    }
    let mut whole = to_chars(build_dir);
    whole.push('/');
    push_range(&mut whole, &path, prefix.len(), end);
    assert(whole@ =~= build_dir@ + "/"@ + path@.subrange(prefix@.len() as int, end as int));
    let mut cut: usize = whole.len();
    while cut > 0 && whole[cut - 1] != '/'
        invariant
            cut <= whole.len(),
            forall|k: int| cut <= k < whole.len() ==> whole@[k] != '/',
        decreases cut,
    {
        cut -= 1;
    }
    assert(cut > 0) by {
        assert(whole@[build_dir@.len() as int] == '/');
    }
    proof {
        crate::path::lemma_last_index_is(whole@, '/', cut - 1);
    }
    let mut assets: Vec<char> = Vec::new();
    push_range(&mut assets, &path, 0, end);
    let tail = to_chars("/assets");
    push_range(&mut assets, &tail, 0, tail.len());
    assert(assets@ =~= path@.take(end as int) + "/assets"@);
    let mut dir: Vec<char> = Vec::new();
    push_range(&mut dir, &whole, 0, cut - 1);
    let mut name: Vec<char> = Vec::new();
    push_range(&mut name, &whole, cut, whole.len());
    Some(
        PageTarget {
            build_dir: from_chars(&dir),
            file_name: from_chars(&name),
            assets_path: from_chars(&assets),
        },
    )
}

} // verus!
