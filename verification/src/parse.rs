//! Markup text to document tree.

use crate::dom::{
    clone_attributes, lemma_nodes_view_push, nodes_view, Attribute, AttributeView, Node, NodeView,
};
use kuchiki::parse_html;
use kuchiki::traits::TendrilSink;
use kuchiki::NodeData::{
    Comment, Doctype, Document, DocumentFragment, Element, ProcessingInstruction, Text,
};
use vstd::prelude::*;
use vstd::string::StrSliceExecFns;

verus! {

/// What one node of a parsed document holds, without its children. `Other`
/// stands for a node that is none of the four kinds a document tree has.
#[derive(Debug, PartialEq, Eq)]
pub enum Item {
    Element { tag: String, attributes: Vec<Attribute> },
    Text(String),
    Comment(String),
    Doctype(String),
    Other,
}

/// One node of a document in document order: the number of its ancestors,
/// and what it holds.
pub type Entry = (usize, Item);

/// What an [`Item`] stands for.
pub enum ItemView {
    Element { tag: Seq<char>, attributes: Seq<AttributeView> },
    Text(Seq<char>),
    Comment(Seq<char>),
    Doctype(Seq<char>),
    Other,
}

/// What an [`Entry`] stands for.
pub struct EntryView {
    pub depth: nat,
    pub item: ItemView,
}

impl View for Item {
    type V = ItemView;

    open spec fn view(&self) -> ItemView {
        match *self {
            Item::Element { tag, attributes } => ItemView::Element {
                tag: tag@,
                attributes: crate::dom::attributes_view(attributes@),
            },
            Item::Text(text) => ItemView::Text(text@),
            Item::Comment(text) => ItemView::Comment(text@),
            Item::Doctype(name) => ItemView::Doctype(name@),
            Item::Other => ItemView::Other,
        }
    }
}

/// The views of a sequence of entries.
pub open spec fn outline_view(outline: Seq<Entry>) -> Seq<EntryView> {
    Seq::new(outline.len(), |i: int| EntryView { depth: outline[i].0 as nat, item: outline[i].1@ })
}

/// The number of leading entries that lie deeper than `depth`.
pub open spec fn run_len(entries: Seq<EntryView>, depth: nat) -> nat
    decreases entries.len(),
{
    if entries.len() == 0 || entries[0].depth <= depth {
        0
    } else {
        1 + run_len(entries.skip(1), depth)
    }
}

/// The nodes that `entries` list in document order. The entries that follow
/// an entry and lie deeper than it are what stands below it: the children of
/// an element, with what is below them. Such entries after any other node,
/// and an entry that is none of the four kinds of node with all below it,
/// are left out.
pub open spec fn forest(entries: Seq<EntryView>) -> Seq<NodeView>
    decreases entries.len(),
{
    if entries.len() == 0 {
        Seq::empty()
    } else {
        let n = run_len(entries.skip(1), entries[0].depth) as int;
        proof {
            lemma_run_len_bound(entries.skip(1), entries[0].depth);
        }
        let rest = forest(entries.skip(1 + n));
        match entries[0].item {
            ItemView::Element { tag, attributes } => seq![
                NodeView::Element {
                    tag,
                    attributes,
                    children: forest(entries.subrange(1, 1 + n)),
                },
            ] + rest,
            ItemView::Text(text) => seq![NodeView::Text(text)] + rest,
            ItemView::Comment(text) => seq![NodeView::Comment(text)] + rest,
            ItemView::Doctype(name) => seq![NodeView::Doctype(name)] + rest,
            ItemView::Other => rest,
        }
    }
}

/// The document that an outline lists.
pub open spec fn document_of(outline: Seq<EntryView>) -> Seq<NodeView> {
    forest(outline)
}

/// A run is no longer than the entries it is taken from.
pub proof fn lemma_run_len_bound(entries: Seq<EntryView>, depth: nat)
    ensures
        run_len(entries, depth) <= entries.len(),
    decreases entries.len(),
{
    if entries.len() > 0 && entries[0].depth > depth {
        lemma_run_len_bound(entries.skip(1), depth);
    }
}

/// A run ends at the first entry that is not deeper, or at the end.
pub proof fn lemma_run_len_is(entries: Seq<EntryView>, depth: nat, n: int)
    requires
        0 <= n <= entries.len(),
        forall|k: int| 0 <= k < n ==> (#[trigger] entries[k]).depth > depth,
        n < entries.len() ==> entries[n].depth <= depth,
    ensures
        run_len(entries, depth) == n,
    decreases n,
{
    if n > 0 {
        let rest = entries.skip(1);
        assert(entries[0].depth > depth);
        assert forall|k: int| 0 <= k < n - 1 implies (#[trigger] rest[k]).depth > depth by {
            assert(rest[k] == entries[k + 1]);
        }
        lemma_run_len_is(rest, depth, n - 1);
    }
}

/// Whether a text is short enough for the parser. The parser fills its
/// buffers character by character and writes at most four bytes for a
/// character read; it rounds the capacity of a buffer up to a power of two,
/// holds it in a 32-bit number, and gives up where none fits. With at most
/// 2^28 characters no buffer holds more than 2^30 bytes, a capacity that is
/// a power of two itself and that the allocator of a 32-bit machine still
/// takes.
pub open spec fn parsable(html: Seq<char>) -> bool {
    html.len() <= 0x1000_0000
}

/// The nodes below the root of the document that `kuchiki::parse_html`
/// builds from `html`, in document order, each with the number of its
/// ancestors.
pub uninterp spec fn parsed_outline(html: Seq<char>) -> Seq<EntryView>;

/// `kuchiki::parse_html`, then `NodeRef::descendants`: the nodes of the
/// parsed document in document order. Each is handed out as the length of
/// `NodeRef::ancestors` and its data; of an element the local name and, of
/// each attribute in the order of the map, the local name and the value; a
/// processing instruction, a document and a document fragment as `Other`.
/// The contract claims that this list depends on `html` alone. A text that
/// is not [`parsable`] is left out: on a buffer too long the parser panics.
#[verifier::external_body]
fn html_outline(html: &str) -> (outline: Vec<Entry>)
    requires
        parsable(html@),
    ensures
        outline_view(outline@) == parsed_outline(html@),
{
    parse_html().one(html).descendants().map(|n| (n.ancestors().count(), match n.data() {
        Element(e) => Item::Element {
            tag: e.name.local.to_string(),
            attributes: e.attributes.borrow().map.iter().map(
                |(k, a)| Attribute { name: k.local.to_string(), value: a.value.clone() }
            ).collect()
        },
        Text(t) => Item::Text(t.borrow().clone()),
        Comment(t) => Item::Comment(t.borrow().clone()),
        Doctype(d) => Item::Doctype(d.name.clone()),
        ProcessingInstruction(_) => Item::Other,
        Document(_) => Item::Other,
        DocumentFragment => Item::Other
    })).collect()
}

/// The nodes that `outline[from..to]` lists.
fn grow(outline: &Vec<Entry>, from: usize, to: usize) -> (out: Vec<Node>)
    requires
        from <= to <= outline.len(),
    ensures
        nodes_view(out@) == forest(outline_view(outline@).subrange(from as int, to as int)),
    decreases to - from,
{
    let ghost all = outline_view(outline@);
    let ghost goal = forest(all.subrange(from as int, to as int));
    let mut out: Vec<Node> = Vec::new();
    let mut i: usize = from;
    proof {
        assert(nodes_view(out@) + goal == goal);
    }
    while i < to
        invariant
            from <= i <= to <= outline.len(),
            all == outline_view(outline@),
            nodes_view(out@) + forest(all.subrange(i as int, to as int)) == goal,
        decreases to - i,
    {
        let ghost part = all.subrange(i as int, to as int);
        let ghost before = nodes_view(out@);
        let depth: usize = outline[i].0;
        let mut j: usize = i + 1;
        while j < to && outline[j].0 > depth
            invariant
                i < j <= to <= outline.len(),
                all == outline_view(outline@),
                forall|k: int| i < k < j ==> (#[trigger] all[k]).depth > depth,
            decreases to - j,
        {
            j += 1;
        }
        proof {
            let tail = part.skip(1);
            assert(part[0] == all[i as int]);
            assert(tail == all.subrange(i + 1, to as int));
            assert forall|k: int| 0 <= k < j - i - 1 implies (#[trigger] tail[k]).depth
                > depth by {
                assert(tail[k] == all[i + 1 + k]);
            }
            if j < to {
                assert(tail[j - i - 1] == all[j as int]);
            }
            lemma_run_len_is(tail, depth as nat, j - i - 1);
            assert(part.subrange(1, j - i) == all.subrange(i + 1, j as int));
            assert(part.skip(j - i) == all.subrange(j as int, to as int));
        }
        let kept: Option<Node> = match &outline[i].1 {
            Item::Element { tag, attributes } => Some(
                Node::Element {
                    tag: tag.clone(),
                    attributes: clone_attributes(attributes),
                    children: grow(outline, i + 1, j),
                },
            ),
            Item::Text(text) => Some(Node::Text(text.clone())),
            Item::Comment(text) => Some(Node::Comment(text.clone())),
            Item::Doctype(name) => Some(Node::Doctype(name.clone())),
            Item::Other => None,
        };
        match kept {
            Some(one) => {
                proof {
                    lemma_nodes_view_push(out@, one);
                    assert(before.push(one@) + forest(all.subrange(j as int, to as int))
                        == before + (seq![one@] + forest(part.skip(j - i))));
                }
                out.push(one);
            },
            None => {},
        }
        i = j;
    }
    proof {
        assert(nodes_view(out@) + Seq::<NodeView>::empty() == nodes_view(out@));
    }
    out
}

/// The document that `outline` lists: see [`forest`].
pub fn build_document(outline: &Vec<Entry>) -> (document: crate::dom::Document)
    ensures
        document@ == document_of(outline_view(outline@)),
{
    let children = grow(outline, 0, outline.len());
    assert(outline_view(outline@).subrange(0, outline@.len() as int) == outline_view(outline@));
    crate::dom::Document { children }
}

/// Whether `html` is short enough for [`parse`].
pub fn can_parse(html: &str) -> (fits: bool)
    ensures
        fits == parsable(html@),
{
    html.unicode_len() <= 0x1000_0000
}

/// Parses `html` as an HTML document. Parsing never fails: what is no
/// well-formed markup is mended as the HTML standard says. The text must be
/// short enough for the parser: see [`can_parse`].
pub fn parse(html: &str) -> (document: crate::dom::Document)
    requires
        parsable(html@),
    ensures
        document@ == document_of(parsed_outline(html@)),
{
    let outline = html_outline(html);
    build_document(&outline)
}

} // verus!
