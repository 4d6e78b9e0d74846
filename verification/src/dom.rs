//! The document tree, its mathematical view, and the tree operations that
//! the rest of the library is built from.

use crate::text::{lowered, same_text, to_lower};
use vstd::prelude::*;

verus! {

/// One attribute of an element.
#[derive(Debug, PartialEq, Eq)]
pub struct Attribute {
    pub name: String,
    pub value: String,
}

/// A node of a document tree.
#[derive(Debug, PartialEq, Eq)]
pub enum Node {
    Element { tag: String, attributes: Vec<Attribute>, children: Vec<Node> },
    Text(String),
    Comment(String),
    Doctype(String),
}

/// A document: the nodes below its root, in order.
#[derive(Debug, PartialEq, Eq)]
pub struct Document {
    pub children: Vec<Node>,
}

/// What an [`Attribute`] stands for.
pub struct AttributeView {
    pub name: Seq<char>,
    pub value: Seq<char>,
}

/// What a [`Node`] stands for.
pub enum NodeView {
    Element { tag: Seq<char>, attributes: Seq<AttributeView>, children: Seq<NodeView> },
    Text(Seq<char>),
    Comment(Seq<char>),
    Doctype(Seq<char>),
}

impl View for Attribute {
    type V = AttributeView;

    open spec fn view(&self) -> AttributeView {
        AttributeView { name: self.name@, value: self.value@ }
    }
}

/// The views of a sequence of attributes.
pub open spec fn attributes_view(attributes: Seq<Attribute>) -> Seq<AttributeView> {
    Seq::new(attributes.len(), |i: int| attributes[i]@)
}

/// The view of a node.
pub open spec fn node_view(node: Node) -> NodeView
    decreases node,
{
    match node {
        Node::Element { tag, attributes, children } => NodeView::Element {
            tag: tag@,
            attributes: attributes_view(attributes@),
            children: nodes_view(children@),
        },
        Node::Text(text) => NodeView::Text(text@),
        Node::Comment(text) => NodeView::Comment(text@),
        Node::Doctype(name) => NodeView::Doctype(name@),
    }
}

/// The views of a sequence of nodes.
pub open spec fn nodes_view(nodes: Seq<Node>) -> Seq<NodeView>
    decreases nodes,
{
    if nodes.len() == 0 {
        Seq::empty()
    } else {
        nodes_view(nodes.drop_last()).push(node_view(nodes.last()))
    }
}

impl View for Node {
    type V = NodeView;

    open spec fn view(&self) -> NodeView {
        node_view(*self)
    }
}

impl View for Document {
    type V = Seq<NodeView>;

    open spec fn view(&self) -> Seq<NodeView> {
        nodes_view(self.children@)
    }
}

/// `nodes_view` works element by element.
pub proof fn lemma_nodes_view(nodes: Seq<Node>)
    ensures
        nodes_view(nodes).len() == nodes.len(),
        forall|i: int|
            0 <= i < nodes.len() ==> nodes_view(nodes)[i] == node_view(#[trigger] nodes[i]),
    decreases nodes.len(),
{
    if nodes.len() > 0 {
        let init = nodes.drop_last();
        lemma_nodes_view(init);
        assert forall|i: int| 0 <= i < nodes.len() implies nodes_view(nodes)[i] == node_view(
            #[trigger] nodes[i],
        ) by {
            if i < init.len() {
                assert(init[i] == nodes[i]);
            }
        }
    }
}

/// The view of a sequence with one more node.
pub proof fn lemma_nodes_view_push(nodes: Seq<Node>, node: Node)
    ensures
        nodes_view(nodes.push(node)) == nodes_view(nodes).push(node_view(node)),
{
    assert(nodes.push(node).drop_last() == nodes);
}

/// The elements of `nodes` and below with the tag `tag`, in document order.
pub open spec fn select(nodes: Seq<NodeView>, tag: Seq<char>) -> Seq<NodeView>
    decreases nodes,
{
    if nodes.len() == 0 {
        Seq::empty()
    } else {
        let rest = select(nodes.skip(1), tag);
        match nodes[0] {
            NodeView::Element { tag: t, attributes, children } => {
                let below = select(children, tag);
                if t == tag {
                    seq![nodes[0]] + below + rest
                } else {
                    below + rest
                }
            },
            _ => rest,
        }
    }
}

/// The text of a text node; no text for any other node.
pub open spec fn node_text(node: NodeView) -> Seq<char> {
    match node {
        NodeView::Text(text) => text,
        _ => Seq::empty(),
    }
}

/// The text of the first child of an element.
pub open spec fn first_text(node: NodeView) -> Seq<char> {
    match node {
        NodeView::Element { tag, attributes, children } => if children.len() > 0 {
            node_text(children[0])
        } else {
            Seq::empty()
        },
        _ => Seq::empty(),
    }
}

/// An element without attributes or children.
pub open spec fn empty_element(tag: Seq<char>) -> NodeView {
    NodeView::Element { tag, attributes: Seq::empty(), children: Seq::empty() }
}

/// `nodes` with `child` appended to the first element, in document order,
/// that has the tag `tag`; `nodes` themselves where there is none.
pub open spec fn with_child(nodes: Seq<NodeView>, tag: Seq<char>, child: NodeView) -> Seq<NodeView>
    decreases nodes,
{
    if nodes.len() == 0 {
        nodes
    } else {
        match nodes[0] {
            NodeView::Element { tag: t, attributes, children } => {
                if t == tag {
                    seq![NodeView::Element { tag: t, attributes, children: children.push(child) }]
                        + nodes.skip(1)
                } else if select(children, tag).len() > 0 {
                    seq![
                        NodeView::Element {
                            tag: t,
                            attributes,
                            children: with_child(children, tag, child),
                        },
                    ] + nodes.skip(1)
                } else {
                    seq![nodes[0]] + with_child(nodes.skip(1), tag, child)
                }
            },
            _ => seq![nodes[0]] + with_child(nodes.skip(1), tag, child),
        }
    }
}

/// The nodes that `path` leads to from `nodes`: `nodes` themselves for the
/// empty path, and else what the rest of the path leads to from the children
/// of the element at the index `path[0]`. A path that leaves the tree leads
/// to nothing.
pub open spec fn children_at(nodes: Seq<NodeView>, path: Seq<int>) -> Seq<NodeView>
    decreases path.len(),
{
    if path.len() == 0 {
        nodes
    } else if 0 <= path[0] < nodes.len() {
        match nodes[path[0]] {
            NodeView::Element { tag, attributes, children } => children_at(children, path.skip(1)),
            _ => Seq::empty(),
        }
    } else {
        Seq::empty()
    }
}

/// `nodes` with `kids` in the place of the nodes that `path` leads to, and
/// all else as it was.
pub open spec fn with_children_at(
    nodes: Seq<NodeView>,
    path: Seq<int>,
    kids: Seq<NodeView>,
) -> Seq<NodeView>
    decreases path.len(),
{
    if path.len() == 0 {
        kids
    } else if 0 <= path[0] < nodes.len() {
        match nodes[path[0]] {
            NodeView::Element { tag, attributes, children } => nodes.update(
                path[0],
                NodeView::Element {
                    tag,
                    attributes,
                    children: with_children_at(children, path.skip(1), kids),
                },
            ),
            _ => nodes,
        }
    } else {
        nodes
    }
}

/// Selecting from two sequences, one after the other.
pub proof fn lemma_select_add(a: Seq<NodeView>, b: Seq<NodeView>, tag: Seq<char>)
    ensures
        select(a + b, tag) == select(a, tag) + select(b, tag),
    decreases a.len(),
{
    if a.len() == 0 {
        assert(a + b == b);
        assert(select(a, tag) + select(b, tag) == select(b, tag));
    } else {
        assert((a + b).skip(1) == a.skip(1) + b);
        lemma_select_add(a.skip(1), b, tag);
        let rest = select(a.skip(1), tag);
        match a[0] {
            NodeView::Element { tag: t, attributes, children } => {
                let below = select(children, tag);
                if t == tag {
                    assert(seq![a[0]] + below + (rest + select(b, tag)) == seq![a[0]] + below
                        + rest + select(b, tag));
                } else {
                    assert(below + (rest + select(b, tag)) == below + rest + select(b, tag));
                }
            },
            _ => {},
        }
    }
}

/// One element, selected from.
pub proof fn lemma_select_one(node: NodeView, tag: Seq<char>)
    ensures
        select(seq![node], tag) == (match node {
            NodeView::Element { tag: t, attributes, children } => if t == tag {
                seq![node] + select(children, tag)
            } else {
                select(children, tag)
            },
            _ => Seq::empty(),
        }),
{
    let one = seq![node];
    assert(one[0] == node);
    assert(one.skip(1) == Seq::<NodeView>::empty());
    assert(select(one.skip(1), tag) == Seq::<NodeView>::empty());
    match node {
        NodeView::Element { tag: t, attributes, children } => {
            let below = select(children, tag);
            assert(below + Seq::<NodeView>::empty() == below);
            assert(seq![node] + below + Seq::<NodeView>::empty() == seq![node] + below);
        },
        _ => {},
    }
}

/// No element of `nodes` or below has the tag `tag`.
pub open spec fn lacks(nodes: Seq<NodeView>, tag: Seq<char>) -> bool {
    select(nodes, tag).len() == 0
}

/// Where no element has the tag, the first node does not have it, nothing
/// below the first node has it, and nothing after it.
pub proof fn lemma_lacks_parts(nodes: Seq<NodeView>, tag: Seq<char>)
    requires
        nodes.len() > 0,
        lacks(nodes, tag),
    ensures
        lacks(nodes.skip(1), tag),
        nodes[0] matches NodeView::Element { tag: t, attributes, children } ==> t != tag && lacks(
            children,
            tag,
        ),
{
}

/// A node that lacks the tag, before nodes that lack it.
pub proof fn lemma_lacks_cons(node: NodeView, rest: Seq<NodeView>, tag: Seq<char>)
    requires
        lacks(rest, tag),
        node matches NodeView::Element { tag: t, attributes, children } ==> t != tag && lacks(
            children,
            tag,
        ),
    ensures
        lacks(seq![node] + rest, tag),
{
    lemma_select_add(seq![node], rest, tag);
    lemma_select_one(node, tag);
}

/// Nodes that lack the tag, one sequence after the other.
pub proof fn lemma_lacks_add(a: Seq<NodeView>, b: Seq<NodeView>, tag: Seq<char>)
    requires
        lacks(a, tag),
        lacks(b, tag),
    ensures
        lacks(a + b, tag),
{
    lemma_select_add(a, b, tag);
}

/// Where no element has the tag `tag`, none below the first element with
/// the tag `other` has it.
pub proof fn lemma_first_selected_lacks(nodes: Seq<NodeView>, other: Seq<char>, tag: Seq<char>)
    requires
        lacks(nodes, tag),
        select(nodes, other).len() > 0,
    ensures
        select(nodes, other)[0] matches NodeView::Element { tag: t, attributes, children }
            && lacks(children, tag),
    decreases nodes,
{
    lemma_lacks_parts(nodes, tag);
    let rest = select(nodes.skip(1), other);
    match nodes[0] {
        NodeView::Element { tag: t, attributes, children } => {
            let below = select(children, other);
            if t == other {
                assert(select(nodes, other)[0] == nodes[0]);
            } else if below.len() > 0 {
                lemma_first_selected_lacks(children, other, tag);
                assert(select(nodes, other)[0] == below[0]);
            } else {
                lemma_first_selected_lacks(nodes.skip(1), other, tag);
                assert(select(nodes, other)[0] == rest[0]);
            }
        },
        _ => {
            lemma_first_selected_lacks(nodes.skip(1), other, tag);
        },
    }
}

/// A usage that a path leads to is among the usages of the document.
pub proof fn lemma_usage_at_depth_is_selected(
    nodes: Seq<NodeView>,
    path: Seq<int>,
    before: Seq<NodeView>,
    usage: NodeView,
    after: Seq<NodeView>,
    tag: Seq<char>,
)
    requires
        children_at(nodes, path) == before + seq![usage] + after,
        usage matches NodeView::Element { tag: t, .. } && t == tag,
    ensures
        select(nodes, tag).len() >= 1,
    decreases path.len(),
{
    if path.len() == 0 {
        lemma_select_add(before + seq![usage], after, tag);
        lemma_select_add(before, seq![usage], tag);
        lemma_select_one(usage, tag);
    } else {
        let i = path[0];
        assert((before + seq![usage] + after).len() > 0);
        let e = nodes[i];
        let pre = nodes.take(i);
        let post = nodes.skip(i + 1);
        assert(nodes == pre + seq![e] + post);
        lemma_select_add(pre + seq![e], post, tag);
        lemma_select_add(pre, seq![e], tag);
        lemma_select_one(e, tag);
        lemma_usage_at_depth_is_selected(e->children, path.skip(1), before, usage, after, tag);
    }
}

/// Whether `path` leads to the first element with the tag `tag` and no
/// further: at each step no node before the one stepped into holds the tag,
/// and the element stepped into does not have it.
pub open spec fn leads_first(nodes: Seq<NodeView>, path: Seq<int>, tag: Seq<char>) -> bool
    decreases path.len(),
{
    if path.len() == 0 {
        true
    } else {
        &&& 0 <= path[0] < nodes.len()
        &&& select(nodes.take(path[0]), tag).len() == 0
        &&& nodes[path[0]] matches NodeView::Element { tag: t, attributes, children }
        &&& t != tag
        &&& leads_first(children, path.skip(1), tag)
    }
}

/// Appending to the first element with the tag, in two sequences one
/// after the other: it is looked for in the first, and in the second only
/// where the first holds none.
pub proof fn lemma_with_child_add(
    a: Seq<NodeView>,
    b: Seq<NodeView>,
    tag: Seq<char>,
    child: NodeView,
)
    ensures
        with_child(a + b, tag, child) == if select(a, tag).len() > 0 {
            with_child(a, tag, child) + b
        } else {
            a + with_child(b, tag, child)
        },
    decreases a.len(),
{
    if a.len() == 0 {
        assert(a + b == b);
    } else {
        let tail = a.skip(1);
        assert((a + b).skip(1) == tail + b);
        assert((a + b)[0] == a[0]);
        lemma_with_child_add(tail, b, tag, child);
        lemma_select_add(seq![a[0]], tail, tag);
        lemma_select_one(a[0], tag);
        assert(seq![a[0]] + tail == a);
        let found = match a[0] {
            NodeView::Element { tag: t, attributes, children } => t == tag || select(
                children,
                tag,
            ).len() > 0,
            _ => false,
        };
        if found {
            let grown = with_child(a, tag, child)[0];
            assert(with_child(a, tag, child) == seq![grown] + tail);
            assert(seq![grown] + (tail + b) == seq![grown] + tail + b);
        } else {
            let x = with_child(tail, tag, child);
            let y = with_child(b, tag, child);
            if select(tail, tag).len() > 0 {
                assert(seq![a[0]] + (x + b) == seq![a[0]] + x + b);
            } else {
                assert(seq![a[0]] + (tail + y) == seq![a[0]] + tail + y);
            }
        }
    }
}

/// The first element with the tag, at any depth: where `path` leads to the
/// children of its parent, and it is the first with the tag on the way and
/// among them, the child is appended to it and nothing else in the document
/// changes.
pub proof fn lemma_with_child_at_depth(
    nodes: Seq<NodeView>,
    path: Seq<int>,
    before: Seq<NodeView>,
    target: NodeView,
    after: Seq<NodeView>,
    tag: Seq<char>,
    child: NodeView,
)
    requires
        leads_first(nodes, path, tag),
        children_at(nodes, path) == before + seq![target] + after,
        target matches NodeView::Element { tag: t, .. } && t == tag,
        select(before, tag).len() == 0,
    ensures
        with_child(nodes, tag, child) == with_children_at(
            nodes,
            path,
            before + seq![
                NodeView::Element {
                    tag: target->tag,
                    attributes: target->attributes,
                    children: target->children.push(child),
                },
            ] + after,
        ),
    decreases path.len(),
{
    if path.len() == 0 {
        let one = seq![target];
        let grown = NodeView::Element {
            tag: target->tag,
            attributes: target->attributes,
            children: target->children.push(child),
        };
        assert(before + one + after == before + (one + after));
        lemma_with_child_add(before, one + after, tag, child);
        assert((one + after)[0] == target);
        assert((one + after).skip(1) == after);
        assert(before + (seq![grown] + after) == before + seq![grown] + after);
    } else {
        let i = path[0];
        let e = nodes[i];
        let pre = nodes.take(i);
        let post = nodes.skip(i + 1);
        let one = seq![e];
        assert(nodes == pre + (one + post));
        lemma_with_child_add(pre, one + post, tag, child);
        lemma_usage_at_depth_is_selected(e->children, path.skip(1), before, target, after, tag);
        lemma_with_child_at_depth(e->children, path.skip(1), before, target, after, tag, child);
        let grown = NodeView::Element {
            tag: e->tag,
            attributes: e->attributes,
            children: with_child(e->children, tag, child),
        };
        assert((one + post)[0] == e);
        assert((one + post).skip(1) == post);
        assert(pre + (seq![grown] + post) == nodes.update(i, grown));
    }
}

/// A copy of `attributes`.
pub fn clone_attributes(attributes: &Vec<Attribute>) -> (copy: Vec<Attribute>)
    ensures
        attributes_view(copy@) == attributes_view(attributes@),
{
    let mut copy: Vec<Attribute> = Vec::new();
    let mut i: usize = 0;
    while i < attributes.len()
        invariant
            i <= attributes.len(),
            copy@.len() == i,
            forall|k: int| 0 <= k < i ==> copy@[k]@ == attributes@[k]@,
        decreases attributes.len() - i,
    {
        let a = &attributes[i];
        copy.push(Attribute { name: a.name.clone(), value: a.value.clone() });
        i += 1;
    }
    assert(attributes_view(copy@) =~= attributes_view(attributes@));
    copy
}

/// A copy of `node`.
pub fn clone_node(node: &Node) -> (copy: Node)
    ensures
        copy@ == node@,
    decreases node,
{
    match node {
        Node::Element { tag, attributes, children } => Node::Element {
            tag: tag.clone(),
            attributes: clone_attributes(attributes),
            children: clone_nodes(children),
        },
        Node::Text(text) => Node::Text(text.clone()),
        Node::Comment(text) => Node::Comment(text.clone()),
        Node::Doctype(name) => Node::Doctype(name.clone()),
    }
}

/// A copy of `nodes`.
pub fn clone_nodes(nodes: &Vec<Node>) -> (copy: Vec<Node>)
    ensures
        nodes_view(copy@) == nodes_view(nodes@),
    decreases nodes,
{
    let mut copy: Vec<Node> = Vec::new();
    let mut i: usize = 0;
    while i < nodes.len()
        invariant
            i <= nodes.len(),
            nodes_view(copy@) == nodes_view(nodes@.take(i as int)),
        decreases nodes.len() - i,
    {
        let one = clone_node(&nodes[i]);
        proof {
            lemma_nodes_view_push(copy@, one);
            lemma_nodes_view_push(nodes@.take(i as int), nodes@[i as int]);
            assert(nodes@.take(i + 1) == nodes@.take(i as int).push(nodes@[i as int]));
        }
        copy.push(one);
        i += 1;
    }
    assert(nodes@.take(nodes@.len() as int) == nodes@);
    copy
}

/// Appends copies of `nodes[from..]` to `out`.
pub fn push_clones(out: &mut Vec<Node>, nodes: &Vec<Node>, from: usize)
    requires
        from <= nodes.len(),
    ensures
        nodes_view(final(out)@) == nodes_view(old(out)@) + nodes_view(nodes@).skip(from as int),
{
    let mut i: usize = from;
    proof {
        lemma_nodes_view(nodes@);
        assert(nodes_view(out@) + nodes_view(nodes@).subrange(from as int, from as int)
            == nodes_view(out@));
    }
    while i < nodes.len()
        invariant
            from <= i <= nodes.len(),
            nodes_view(out@) == nodes_view(old(out)@) + nodes_view(nodes@).subrange(
                from as int,
                i as int,
            ),
        decreases nodes.len() - i,
    {
        let one = clone_node(&nodes[i]);
        proof {
            lemma_nodes_view(nodes@);
            lemma_nodes_view_push(out@, one);
            assert(nodes_view(nodes@).subrange(from as int, i + 1) == nodes_view(
                nodes@,
            ).subrange(from as int, i as int).push(one@));
        }
        out.push(one);
        i += 1;
    }
    proof {
        lemma_nodes_view(nodes@);
        assert(nodes_view(nodes@).subrange(from as int, nodes@.len() as int) == nodes_view(
            nodes@,
        ).skip(from as int));
    }
}

/// The elements whose tag is `tag`, in document order.
pub fn select_tagged<'a>(nodes: &'a Vec<Node>, tag: &str) -> (found: Vec<&'a Node>)
    ensures
        found@.len() == select(nodes_view(nodes@), tag@).len(),
        forall|k: int|
            0 <= k < found@.len() ==> (*#[trigger] found@[k])@ == select(
                nodes_view(nodes@),
                tag@,
            )[k],
    decreases nodes,
{
    let mut found: Vec<&'a Node> = Vec::new();
    let ghost src = nodes_view(nodes@);
    let ghost mut done: Seq<NodeView> = Seq::empty();
    let mut i: usize = 0;
    proof {
        lemma_nodes_view(nodes@);
        assert(src.skip(0) == src);
    }
    while i < nodes.len()
        invariant
            i <= nodes.len(),
            src == nodes_view(nodes@),
            src.len() == nodes.len(),
            found@.len() == done.len(),
            forall|k: int| 0 <= k < found@.len() ==> (*#[trigger] found@[k])@ == done[k],
            done + select(src.skip(i as int), tag@) == select(src, tag@),
        decreases nodes.len() - i,
    {
        let ghost rest = src.skip(i as int);
        let ghost before = done;
        proof {
            lemma_nodes_view(nodes@);
            assert(rest[0] == node_view(nodes@[i as int]));
            assert(rest.skip(1) == src.skip(i + 1));
        }
        match &nodes[i] {
            Node::Element { tag: t, attributes, children } => {
                let mut below = select_tagged(children, tag);
                if same_text(t.as_str(), tag) {
                    found.push(&nodes[i]);
                    proof {
                        done = done.push(rest[0]);
                    }
                }
                found.append(&mut below);
                proof {
                    done = done + select(nodes_view(children@), tag@);
                    assert(done + select(src.skip(i + 1), tag@) == before + select(rest, tag@));
                }
            },
            _ => {},
        }
        i += 1;
    }
    proof {
        assert(done + Seq::<NodeView>::empty() == done);
    }
    found
}

/// The elements that the tag name `selector` selects, in document order.
/// Tag names are matched as in an HTML document: an element is selected
/// when its tag is `selector` in ASCII lower case. A name that selects
/// nothing gives an empty list.
pub fn select_nodes<'a>(nodes: &'a Vec<Node>, selector: &str) -> (found: Vec<&'a Node>)
    ensures
        found@.len() == select(nodes_view(nodes@), lowered(selector@)).len(),
        forall|k: int|
            0 <= k < found@.len() ==> (*#[trigger] found@[k])@ == select(
                nodes_view(nodes@),
                lowered(selector@),
            )[k],
{
    let tag = to_lower(selector);
    select_tagged(nodes, tag.as_str())
}

/// The text of `node` where it is a text node, and no text otherwise.
pub fn get_node_text(node: &Node) -> (text: String)
    ensures
        text@ == node_text(node@),
{
    match node {
        Node::Text(text) => text.clone(),
        _ => String::new(),
    }
}

/// An element named `name`, without attributes or children.
pub fn create_element(name: &str) -> (element: Node)
    ensures
        element@ == empty_element(name@),
{
    let attributes: Vec<Attribute> = Vec::new();
    let children: Vec<Node> = Vec::new();
    assert(attributes_view(attributes@) =~= Seq::<AttributeView>::empty());
    assert(nodes_view(children@) =~= Seq::<NodeView>::empty());
    Node::Element { tag: name.to_owned(), attributes, children }
}

/// `nodes` with `child` appended to the first element with the tag `tag`,
/// and whether there is such an element.
fn append_to_first(nodes: &Vec<Node>, tag: &str, child: &Node) -> (out: (Vec<Node>, bool))
    ensures
        nodes_view(out.0@) == with_child(nodes_view(nodes@), tag@, child@),
        out.1 == (select(nodes_view(nodes@), tag@).len() > 0),
    decreases nodes,
{
    let mut out: Vec<Node> = Vec::new();
    let ghost src = nodes_view(nodes@);
    let mut i: usize = 0;
    proof {
        lemma_nodes_view(nodes@);
        assert(src.skip(0) == src);
        assert(nodes_view(out@) + with_child(src, tag@, child@) == with_child(src, tag@, child@));
    }
    while i < nodes.len()
        invariant
            i <= nodes.len(),
            src == nodes_view(nodes@),
            src.len() == nodes.len(),
            nodes_view(out@) + with_child(src.skip(i as int), tag@, child@) == with_child(
                src,
                tag@,
                child@,
            ),
            select(src.skip(i as int), tag@) == select(src, tag@),
        decreases nodes.len() - i,
    {
        let ghost rest = src.skip(i as int);
        let ghost before = nodes_view(out@);
        proof {
            lemma_nodes_view(nodes@);
            assert(rest[0] == node_view(nodes@[i as int]));
            assert(rest.skip(1) == src.skip(i + 1));
        }
        match &nodes[i] {
            Node::Element { tag: t, attributes, children } => {
                if same_text(t.as_str(), tag) {
                    let mut grown = clone_nodes(children);
                    let copy = clone_node(child);
                    proof {
                        lemma_nodes_view_push(grown@, copy);
                    }
                    grown.push(copy);
                    let one = Node::Element {
                        tag: t.clone(),
                        attributes: clone_attributes(attributes),
                        children: grown,
                    };
                    proof {
                        lemma_nodes_view_push(out@, one);
                    }
                    out.push(one);
                    push_clones(&mut out, nodes, i + 1);
                    proof {
                        assert(before.push(one@) + src.skip(i + 1) == before + (seq![one@]
                            + rest.skip(1)));
                    }
                    return (out, true);
                }
                let (below, placed) = append_to_first(children, tag, child);
                if placed {
                    let one = Node::Element {
                        tag: t.clone(),
                        attributes: clone_attributes(attributes),
                        children: below,
                    };
                    proof {
                        lemma_nodes_view_push(out@, one);
                    }
                    out.push(one);
                    push_clones(&mut out, nodes, i + 1);
                    proof {
                        assert(before.push(one@) + src.skip(i + 1) == before + (seq![one@]
                            + rest.skip(1)));
                    }
                    return (out, true);
                }
                proof {
                    assert(Seq::<NodeView>::empty() + select(rest.skip(1), tag@) == select(
                        rest.skip(1),
                        tag@,
                    ));
                }
            },
            _ => {},
        }
        let one = clone_node(&nodes[i]);
        proof {
            lemma_nodes_view_push(out@, one);
            assert(before.push(one@) + with_child(src.skip(i + 1), tag@, child@) == before
                + (seq![rest[0]] + with_child(rest.skip(1), tag@, child@)));
        }
        out.push(one);
        i += 1;
    }
    proof {
        assert(nodes_view(out@) + Seq::<NodeView>::empty() == nodes_view(out@));
    }
    (out, false)
}

/// Appends a new element named `new_element_name`, with the attributes
/// `new_element_attrs`, to the first element of `html`, in document order,
/// that the tag name `selector` selects: see [`select_nodes`]. Where it
/// selects nothing, `html` stays as it is.
pub fn create_and_insert_element(
    html: &mut Document,
    selector: &str,
    new_element_name: &str,
    new_element_attrs: Vec<Attribute>,
)
    ensures
        final(html)@ == with_child(
            old(html)@,
            lowered(selector@),
            (NodeView::Element {
                tag: new_element_name@,
                attributes: attributes_view(new_element_attrs@),
                children: Seq::empty(),
            }),
        ),
{
    let new_node = match create_element(new_element_name) {
        Node::Element { tag, attributes, children } => Node::Element {
            tag,
            attributes: new_element_attrs,
            children,
        },
        other => other,
    };
    let tag = to_lower(selector);
    let (children, _) = append_to_first(&html.children, tag.as_str(), &new_node);
    html.children = children;
}

} // verus!
