//! Pulling inline `style` and `script` blocks out of a document.

use crate::dom::{
    clone_attributes, clone_node, first_text, get_node_text, lemma_nodes_view,
    lemma_nodes_view_push, lemma_select_add, node_view, nodes_view, select, select_tagged,
    Document, Node, NodeView,
};
use crate::text::{lowered, same_text, to_lower};
use vstd::prelude::*;
use vstd::string::StringExecFns;

verus! {

/// The text of the first child of each of `elements`, one after another.
pub open spec fn texts_of(elements: Seq<NodeView>) -> Seq<char>
    decreases elements.len(),
{
    if elements.len() == 0 {
        Seq::empty()
    } else {
        first_text(elements[0]) + texts_of(elements.skip(1))
    }
}

/// What the elements with the tag `tag` contribute, in document order: of
/// each the text of its first child, where that is a text node.
pub open spec fn block_text(nodes: Seq<NodeView>, tag: Seq<char>) -> Seq<char> {
    texts_of(select(nodes, tag))
}

/// `nodes` without the elements that have the tag `tag`, at any depth.
pub open spec fn without_tag(nodes: Seq<NodeView>, tag: Seq<char>) -> Seq<NodeView>
    decreases nodes,
{
    if nodes.len() == 0 {
        Seq::empty()
    } else {
        let rest = without_tag(nodes.skip(1), tag);
        match nodes[0] {
            NodeView::Element { tag: t, attributes, children } => {
                if t == tag {
                    rest
                } else {
                    seq![
                        NodeView::Element {
                            tag: t,
                            attributes,
                            children: without_tag(children, tag),
                        },
                    ] + rest
                }
            },
            _ => seq![nodes[0]] + rest,
        }
    }
}

/// After the extraction no element with the tag is left.
pub proof fn lemma_nothing_left(nodes: Seq<NodeView>, tag: Seq<char>)
    ensures
        select(without_tag(nodes, tag), tag).len() == 0,
    decreases nodes,
{
    if nodes.len() > 0 {
        let rest = without_tag(nodes.skip(1), tag);
        lemma_nothing_left(nodes.skip(1), tag);
        match nodes[0] {
            NodeView::Element { tag: t, attributes, children } => {
                if t != tag {
                    lemma_nothing_left(children, tag);
                    let kept = NodeView::Element {
                        tag: t,
                        attributes,
                        children: without_tag(children, tag),
                    };
                    let one = seq![kept];
                    lemma_select_add(one, rest, tag);
                    assert(one.skip(1) == Seq::<NodeView>::empty());
                    assert(one[0] == kept);
                    assert(select(one.skip(1), tag).len() == 0);
                    assert(select(one, tag).len() == 0);
                }
            },
            _ => {
                let one = seq![nodes[0]];
                lemma_select_add(one, rest, tag);
                assert(one.skip(1) == Seq::<NodeView>::empty());
                assert(select(one.skip(1), tag).len() == 0);
                assert(select(one, tag).len() == 0);
            },
        }
    }
}

/// Where nothing has the tag, nothing is taken out and nothing is read.
pub proof fn lemma_nothing_to_extract(nodes: Seq<NodeView>, tag: Seq<char>)
    requires
        select(nodes, tag).len() == 0,
    ensures
        without_tag(nodes, tag) == nodes,
        block_text(nodes, tag) == Seq::<char>::empty(),
    decreases nodes,
{
    if nodes.len() > 0 {
        let rest = nodes.skip(1);
        match nodes[0] {
            NodeView::Element { tag: t, attributes, children } => {
                lemma_nothing_to_extract(children, tag);
            },
            _ => {},
        }
        lemma_nothing_to_extract(rest, tag);
        assert(seq![nodes[0]] + rest == nodes);
    }
}

/// `nodes` without the elements named `tag`.
fn strip_tag(nodes: &Vec<Node>, tag: &str) -> (out: Vec<Node>)
    ensures
        nodes_view(out@) == without_tag(nodes_view(nodes@), tag@),
    decreases nodes,
{
    let mut out: Vec<Node> = Vec::new();
    let ghost src = nodes_view(nodes@);
    let mut i: usize = 0;
    proof {
        lemma_nodes_view(nodes@);
        assert(src.skip(0) == src);
        assert(nodes_view(out@) + without_tag(src, tag@) == without_tag(src, tag@));
    }
    while i < nodes.len()
        invariant
            i <= nodes.len(),
            src == nodes_view(nodes@),
            src.len() == nodes.len(),
            nodes_view(out@) + without_tag(src.skip(i as int), tag@) == without_tag(src, tag@),
        decreases nodes.len() - i,
    {
        let ghost rest = src.skip(i as int);
        let ghost before = nodes_view(out@);
        proof {
            lemma_nodes_view(nodes@);
            assert(rest[0] == node_view(nodes@[i as int]));
            assert(rest.skip(1) == src.skip(i + 1));
        }
        match &nodes[i] {
            Node::Element { tag: t, attributes, children } => {
                if !same_text(t.as_str(), tag) {
                    let one = Node::Element {
                        tag: t.clone(),
                        attributes: clone_attributes(attributes),
                        children: strip_tag(children, tag),
                    };
                    proof {
                        lemma_nodes_view_push(out@, one);
                        assert(before.push(one@) + without_tag(src.skip(i + 1), tag@) == before
                            + (seq![one@] + without_tag(rest.skip(1), tag@)));
                    }
                    out.push(one);
                }
            },
            _ => {
                let one = clone_node(&nodes[i]);
                proof {
                    lemma_nodes_view_push(out@, one);
                    assert(before.push(one@) + without_tag(src.skip(i + 1), tag@) == before + (
                    seq![rest[0]] + without_tag(rest.skip(1), tag@)));
                }
                out.push(one);
            },
        }
        i += 1;
    }
    proof {
        assert(nodes_view(out@) + Seq::<NodeView>::empty() == nodes_view(out@));
    }
    out
}

/// Takes every element that the tag name `tag_name` selects out of `html`
/// and returns what they held: of each, in document order, the text of its
/// first child. An element without a text there contributes nothing and
/// leaves all the same. Tag names are matched as in an HTML document:
/// `tag_name` is taken in ASCII lower case.
pub fn extract_blocks(html: &mut Document, tag_name: &str) -> (text: String)
    ensures
        text@ == block_text(old(html)@, lowered(tag_name@)),
        final(html)@ == without_tag(old(html)@, lowered(tag_name@)),
{
    let tag = to_lower(tag_name);
    let mut text = String::new();
    let found = select_tagged(&html.children, tag.as_str());
    let ghost all = select(nodes_view(html.children@), tag@);
    let mut i: usize = 0;
    assert(all.skip(0) == all);
    assert(text@ + texts_of(all) == texts_of(all));
    while i < found.len()
        invariant
            i <= found.len(),
            found@.len() == all.len(),
            forall|k: int| 0 <= k < found@.len() ==> (*#[trigger] found@[k])@ == all[k],
            text@ + texts_of(all.skip(i as int)) == texts_of(all),
        decreases found.len() - i,
    {
        let ghost rest = all.skip(i as int);
        let ghost before = text@;
        proof {
            assert(rest[0] == (*found@[i as int])@);
            assert(rest.skip(1) == all.skip(i + 1));
        }
        match found[i] {
            Node::Element { tag, attributes, children } => {
                proof {
                    lemma_nodes_view(children@);
                }
                if children.len() > 0 {
                    let first = get_node_text(&children[0]);
                    text.append(first.as_str());
                    proof {
                        assert(before + first@ + texts_of(all.skip(i + 1)) == before + (first@
                            + texts_of(all.skip(i + 1))));
                    }
                } else {
                    assert(Seq::<char>::empty() + texts_of(all.skip(i + 1)) == texts_of(
                        all.skip(i + 1),
                    ));
                }
            },
            _ => {
                assert(Seq::<char>::empty() + texts_of(all.skip(i + 1)) == texts_of(
                    all.skip(i + 1),
                ));
            },
        }
        i += 1;
    }
    assert(text@ + Seq::<char>::empty() == text@);
    let children = strip_tag(&html.children, tag.as_str());
    html.children = children;
    text
}

} // verus!
