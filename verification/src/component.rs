//! Inlining: putting what a component compiles to in the place of each of
//! its usages.

use crate::dom::{
    children_at, clone_attributes, clone_node, clone_nodes, lemma_nodes_view,
    lemma_nodes_view_push, lemma_select_add, lemma_select_one, lemma_usage_at_depth_is_selected,
    node_view, nodes_view, push_clones, select, with_children_at, Document, Node, NodeView,
};
use crate::text::{contains, has_substring, lowered, same_text, to_lower};
use vstd::prelude::*;
use vstd::string::StringExecFns;

verus! {

/// What takes the place of one usage of a component: the nodes to splice
/// in, and the style and script text that came with them.
#[derive(Debug, PartialEq, Eq)]
pub struct Replacement {
    pub nodes: Vec<Node>,
    pub css: String,
    pub js: String,
}

/// What a [`Replacement`] stands for.
pub struct ReplacementView {
    pub nodes: Seq<NodeView>,
    pub css: Seq<char>,
    pub js: Seq<char>,
}

impl View for Replacement {
    type V = ReplacementView;

    open spec fn view(&self) -> ReplacementView {
        ReplacementView { nodes: nodes_view(self.nodes@), css: self.css@, js: self.js@ }
    }
}

/// The views of a sequence of replacements.
pub open spec fn replacements_view(replacements: Seq<Replacement>) -> Seq<ReplacementView> {
    Seq::new(replacements.len(), |i: int| replacements[i]@)
}

/// `nodes` after the usages of `tag` are replaced. The usages are counted
/// in document order, those inside another usage too, and `first` is the
/// number of the first one in `nodes`. The usage with the number `k` gives
/// way to the nodes of `replacements[k]`; one without a replacement stays.
/// What stands inside a usage leaves with it.
pub open spec fn spliced(
    nodes: Seq<NodeView>,
    tag: Seq<char>,
    replacements: Seq<ReplacementView>,
    first: nat,
) -> Seq<NodeView>
    decreases nodes,
{
    if nodes.len() == 0 {
        Seq::empty()
    } else {
        match nodes[0] {
            NodeView::Element { tag: t, attributes, children } => {
                let inner = select(children, tag).len();
                if t == tag {
                    let rest = spliced(nodes.skip(1), tag, replacements, first + 1 + inner);
                    if first < replacements.len() {
                        replacements[first as int].nodes + rest
                    } else {
                        seq![nodes[0]] + rest
                    }
                } else {
                    seq![
                        NodeView::Element {
                            tag: t,
                            attributes,
                            children: spliced(children, tag, replacements, first),
                        },
                    ] + spliced(nodes.skip(1), tag, replacements, first + inner)
                }
            },
            _ => seq![nodes[0]] + spliced(nodes.skip(1), tag, replacements, first),
        }
    }
}

/// `total` with `text` appended, unless `text` already stands in it.
pub open spec fn merged(total: Seq<char>, text: Seq<char>) -> Seq<char> {
    if has_substring(total, text) {
        total
    } else {
        total + text
    }
}

/// `total` after the style text of each replacement is merged into it, in
/// order.
pub open spec fn merged_css(total: Seq<char>, replacements: Seq<ReplacementView>) -> Seq<char>
    decreases replacements.len(),
{
    if replacements.len() == 0 {
        total
    } else {
        merged_css(merged(total, replacements[0].css), replacements.skip(1))
    }
}

/// `total` after the script text of each replacement is merged into it, in
/// order.
pub open spec fn merged_js(total: Seq<char>, replacements: Seq<ReplacementView>) -> Seq<char>
    decreases replacements.len(),
{
    if replacements.len() == 0 {
        total
    } else {
        merged_js(merged(total, replacements[0].js), replacements.skip(1))
    }
}

/// The replacements that meet a usage: as many of the first ones as there
/// are usages of `tag` in `nodes`.
pub open spec fn used(
    nodes: Seq<NodeView>,
    tag: Seq<char>,
    replacements: Seq<ReplacementView>,
) -> Seq<ReplacementView> {
    let n = select(nodes, tag).len();
    if n < replacements.len() {
        replacements.take(n as int)
    } else {
        replacements
    }
}

/// The smaller of two numbers.
pub open spec fn lower(a: int, b: int) -> int {
    if a < b {
        a
    } else {
        b
    }
}

/// Usages numbered past the last replacement all stay.
pub proof fn lemma_spliced_past_end(
    nodes: Seq<NodeView>,
    tag: Seq<char>,
    replacements: Seq<ReplacementView>,
    first: nat,
)
    requires
        first >= replacements.len(),
    ensures
        spliced(nodes, tag, replacements, first) == nodes,
    decreases nodes,
{
    if nodes.len() > 0 {
        match nodes[0] {
            NodeView::Element { tag: t, attributes, children } => {
                let inner = select(children, tag).len();
                if t == tag {
                    lemma_spliced_past_end(nodes.skip(1), tag, replacements, first + 1 + inner);
                } else {
                    lemma_spliced_past_end(children, tag, replacements, first);
                    lemma_spliced_past_end(nodes.skip(1), tag, replacements, first + inner);
                }
            },
            _ => {
                lemma_spliced_past_end(nodes.skip(1), tag, replacements, first);
            },
        }
        assert(seq![nodes[0]] + nodes.skip(1) == nodes);
    }
}

/// Where there is no usage, nothing changes.
pub proof fn lemma_spliced_without_usage(
    nodes: Seq<NodeView>,
    tag: Seq<char>,
    replacements: Seq<ReplacementView>,
    first: nat,
)
    requires
        select(nodes, tag).len() == 0,
    ensures
        spliced(nodes, tag, replacements, first) == nodes,
    decreases nodes,
{
    if nodes.len() > 0 {
        match nodes[0] {
            NodeView::Element { tag: t, attributes, children } => {
                lemma_spliced_without_usage(children, tag, replacements, first);
                lemma_spliced_without_usage(nodes.skip(1), tag, replacements, first);
            },
            _ => {
                lemma_spliced_without_usage(nodes.skip(1), tag, replacements, first);
            },
        }
        assert(seq![nodes[0]] + nodes.skip(1) == nodes);
    }
}

/// Splicing two sequences, one after the other: the count goes on.
pub proof fn lemma_spliced_add(
    a: Seq<NodeView>,
    b: Seq<NodeView>,
    tag: Seq<char>,
    replacements: Seq<ReplacementView>,
    first: nat,
)
    ensures
        spliced(a + b, tag, replacements, first) == spliced(a, tag, replacements, first) + spliced(
            b,
            tag,
            replacements,
            first + select(a, tag).len(),
        ),
    decreases a.len(),
{
    if a.len() == 0 {
        assert(a + b == b);
        assert(Seq::<NodeView>::empty() + spliced(b, tag, replacements, first) == spliced(
            b,
            tag,
            replacements,
            first,
        ));
    } else {
        assert((a + b).skip(1) == a.skip(1) + b);
        assert((a + b)[0] == a[0]);
        let tail = a.skip(1);
        match a[0] {
            NodeView::Element { tag: t, attributes, children } => {
                let inner = select(children, tag).len();
                if t == tag {
                    let next = first + 1 + inner;
                    lemma_spliced_add(tail, b, tag, replacements, next);
                    let x = spliced(tail, tag, replacements, next);
                    let y = spliced(b, tag, replacements, next + select(tail, tag).len());
                    if first < replacements.len() {
                        let r = replacements[first as int].nodes;
                        assert(r + (x + y) == r + x + y);
                    } else {
                        assert(seq![a[0]] + (x + y) == seq![a[0]] + x + y);
                    }
                } else {
                    let next = first + inner;
                    lemma_spliced_add(tail, b, tag, replacements, next);
                    let x = spliced(tail, tag, replacements, next);
                    let y = spliced(b, tag, replacements, next + select(tail, tag).len());
                    let one = NodeView::Element {
                        tag: t,
                        attributes,
                        children: spliced(children, tag, replacements, first),
                    };
                    assert(seq![one] + (x + y) == seq![one] + x + y);
                }
            },
            _ => {
                lemma_spliced_add(tail, b, tag, replacements, first);
                let x = spliced(tail, tag, replacements, first);
                let y = spliced(b, tag, replacements, first + select(tail, tag).len());
                assert(seq![a[0]] + (x + y) == seq![a[0]] + x + y);
            },
        }
    }
}

/// A usage between nodes that hold none gives way to the nodes of its
/// replacement, in their order and in its place.
pub proof fn lemma_spliced_in_place(
    before: Seq<NodeView>,
    usage: NodeView,
    after: Seq<NodeView>,
    tag: Seq<char>,
    replacements: Seq<ReplacementView>,
    first: nat,
)
    requires
        usage matches NodeView::Element { tag: t, .. } && t == tag,
        select(before, tag).len() == 0,
        select(after, tag).len() == 0,
        first < replacements.len(),
    ensures
        spliced(before + seq![usage] + after, tag, replacements, first) == before
            + replacements[first as int].nodes + after,
{
    let one = seq![usage];
    let given = replacements[first as int].nodes;
    lemma_spliced_add(before + one, after, tag, replacements, first);
    lemma_spliced_add(before, one, tag, replacements, first);
    lemma_spliced_without_usage(before, tag, replacements, first);
    lemma_select_add(before, one, tag);
    lemma_spliced_without_usage(
        after,
        tag,
        replacements,
        (first + select(before + one, tag).len()) as nat,
    );
    assert(one.skip(1) == Seq::<NodeView>::empty());
    assert(one[0] == usage);
    assert(given + Seq::<NodeView>::empty() == given);
    let inner = select(usage->children, tag).len();
    assert(spliced(one.skip(1), tag, replacements, first + 1 + inner) == Seq::<NodeView>::empty());
    assert(spliced(one, tag, replacements, first) == given);
}

/// The only usage of a component, at any depth: where `path` leads to the
/// children of its parent, and it stands among them between `before` and
/// `after`, the nodes of its replacement come to stand between `before` and
/// `after`, in their own order, and nothing else in the document changes.
pub proof fn lemma_spliced_at_depth(
    nodes: Seq<NodeView>,
    path: Seq<int>,
    before: Seq<NodeView>,
    usage: NodeView,
    after: Seq<NodeView>,
    tag: Seq<char>,
    replacements: Seq<ReplacementView>,
    first: nat,
)
    requires
        children_at(nodes, path) == before + seq![usage] + after,
        usage matches NodeView::Element { tag: t, .. } && t == tag,
        select(nodes, tag).len() == 1,
        first < replacements.len(),
    ensures
        spliced(nodes, tag, replacements, first) == with_children_at(
            nodes,
            path,
            before + replacements[first as int].nodes + after,
        ),
    decreases path.len(),
{
    if path.len() == 0 {
        lemma_select_add(before + seq![usage], after, tag);
        lemma_select_add(before, seq![usage], tag);
        lemma_select_one(usage, tag);
        lemma_spliced_in_place(before, usage, after, tag, replacements, first);
    } else {
        let i = path[0];
        assert((before + seq![usage] + after).len() > 0);
        let e = nodes[i];
        let pre = nodes.take(i);
        let post = nodes.skip(i + 1);
        let one = seq![e];
        assert(nodes == pre + one + post);
        lemma_select_add(pre + one, post, tag);
        lemma_select_add(pre, one, tag);
        lemma_select_one(e, tag);
        lemma_usage_at_depth_is_selected(e->children, path.skip(1), before, usage, after, tag);
        lemma_spliced_at_depth(
            e->children,
            path.skip(1),
            before,
            usage,
            after,
            tag,
            replacements,
            first,
        );
        lemma_spliced_add(pre + one, post, tag, replacements, first);
        lemma_spliced_add(pre, one, tag, replacements, first);
        lemma_spliced_without_usage(pre, tag, replacements, first);
        lemma_spliced_without_usage(
            post,
            tag,
            replacements,
            (first + select(pre + one, tag).len()) as nat,
        );
        let grown = NodeView::Element {
            tag: e->tag,
            attributes: e->attributes,
            children: spliced(e->children, tag, replacements, first),
        };
        assert(one[0] == e);
        assert(one.skip(1) == Seq::<NodeView>::empty());
        let inner = select(e->children, tag).len();
        assert(spliced(one.skip(1), tag, replacements, first + inner) == Seq::<NodeView>::empty());
        assert(spliced(one, tag, replacements, first) == seq![grown]) by {
            assert(seq![grown] + Seq::<NodeView>::empty() == seq![grown]);
        }
        assert(pre + seq![grown] + post == nodes.update(i, grown));
    }
}

/// Merging a text that was merged before changes nothing: a text that
/// comes twice is kept once.
pub proof fn lemma_merged_twice(total: Seq<char>, text: Seq<char>)
    ensures
        merged(merged(total, text), text) == merged(total, text),
{
    if !has_substring(total, text) {
        crate::text::lemma_suffix_is_substring(total, text);
    }
}

/// Replacements that all bring the same style text add it once at most:
/// once it stands in the total, the total stays as it is.
pub proof fn lemma_same_style_once(
    total: Seq<char>,
    text: Seq<char>,
    replacements: Seq<ReplacementView>,
)
    requires
        has_substring(total, text),
        forall|i: int| 0 <= i < replacements.len() ==> (#[trigger] replacements[i]).css == text,
    ensures
        merged_css(total, replacements) == total,
    decreases replacements.len(),
{
    if replacements.len() > 0 {
        let rest = replacements.skip(1);
        assert(replacements[0].css == text);
        assert forall|i: int| 0 <= i < rest.len() implies (#[trigger] rest[i]).css == text by {
            assert(rest[i] == replacements[i + 1]);
        }
        lemma_same_style_once(total, text, rest);
    }
}

/// Usages that all bring the same style text bring it exactly once.
pub proof fn lemma_equal_styles_merge_to_one(text: Seq<char>, replacements: Seq<ReplacementView>)
    requires
        replacements.len() > 0,
        forall|i: int| 0 <= i < replacements.len() ==> (#[trigger] replacements[i]).css == text,
    ensures
        merged_css(Seq::empty(), replacements) == text,
{
    let none = Seq::<char>::empty();
    let rest = replacements.skip(1);
    assert(replacements[0].css == text);
    assert forall|i: int| 0 <= i < rest.len() implies (#[trigger] rest[i]).css == text by {
        assert(rest[i] == replacements[i + 1]);
    }
    if has_substring(none, text) {
        let at = choose|at: int| crate::text::occurs_at(none, text, at);
        assert(text.len() == 0);
        assert(text =~= none);
    } else {
        assert(none + text == text);
        crate::text::lemma_suffix_is_substring(none, text);
    }
    lemma_same_style_once(merged(none, text), text, rest);
}

/// The number that the count of usages has reached after `nodes`, held at
/// `limit`.
fn advance(nodes: &Vec<Node>, tag: &str, first: usize, limit: usize) -> (next: usize)
    requires
        first <= limit,
    ensures
        next == lower(first + select(nodes_view(nodes@), tag@).len(), limit as int),
    decreases nodes,
{
    let ghost src = nodes_view(nodes@);
    let mut next: usize = first;
    let mut i: usize = 0;
    proof {
        lemma_nodes_view(nodes@);
        assert(src.skip(0) == src);
    }
    while i < nodes.len()
        invariant
            i <= nodes.len(),
            first <= limit,
            next <= limit,
            src == nodes_view(nodes@),
            src.len() == nodes.len(),
            lower(next + select(src.skip(i as int), tag@).len(), limit as int) == lower(
                first + select(src, tag@).len(),
                limit as int,
            ),
        decreases nodes.len() - i,
    {
        proof {
            lemma_nodes_view(nodes@);
            assert(src.skip(i as int)[0] == node_view(nodes@[i as int]));
            assert(src.skip(i as int).skip(1) == src.skip(i + 1));
        }
        match &nodes[i] {
            Node::Element { tag: t, attributes, children } => {
                if same_text(t.as_str(), tag) && next < limit {
                    next += 1;
                }
                next = advance(children, tag, next, limit);
            },
            _ => {},
        }
        i += 1;
    }
    next
}

/// `nodes` after the usages of `tag` are replaced, and the number that the
/// count of usages has then reached, held at the number of replacements.
fn splice(nodes: &Vec<Node>, tag: &str, replacements: &Vec<Replacement>, first: usize) -> (out: (
    Vec<Node>,
    usize,
))
    requires
        first <= replacements.len(),
    ensures
        nodes_view(out.0@) == spliced(
            nodes_view(nodes@),
            tag@,
            replacements_view(replacements@),
            first as nat,
        ),
        out.1 == lower(
            first + select(nodes_view(nodes@), tag@).len(),
            replacements.len() as int,
        ),
    decreases nodes,
{
    let ghost src = nodes_view(nodes@);
    let ghost reps = replacements_view(replacements@);
    let limit: usize = replacements.len();
    if first == limit {
        proof {
            lemma_spliced_past_end(src, tag@, reps, first as nat);
        }
        return (clone_nodes(nodes), limit);
    }
    let mut out: Vec<Node> = Vec::new();
    let mut next: usize = first;
    let ghost mut count: nat = first as nat;
    let mut i: usize = 0;
    proof {
        lemma_nodes_view(nodes@);
        assert(src.skip(0) == src);
        assert(nodes_view(out@) + spliced(src, tag@, reps, count) == spliced(
            src,
            tag@,
            reps,
            count,
        ));
    }
    while i < nodes.len()
        invariant
            i <= nodes.len(),
            limit == replacements.len(),
            reps == replacements_view(replacements@),
            src == nodes_view(nodes@),
            src.len() == nodes.len(),
            next == lower(count as int, limit as int),
            count + select(src.skip(i as int), tag@).len() == first + select(src, tag@).len(),
            nodes_view(out@) + spliced(src.skip(i as int), tag@, reps, count) == spliced(
                src,
                tag@,
                reps,
                first as nat,
            ),
        decreases nodes.len() - i,
    {
        let ghost rest = src.skip(i as int);
        let ghost before = nodes_view(out@);
        proof {
            lemma_nodes_view(nodes@);
            assert(rest[0] == node_view(nodes@[i as int]));
            assert(rest.skip(1) == src.skip(i + 1));
        }
        match &nodes[i] {
            Node::Element { tag: t, attributes, children } => {
                let ghost inner = select(nodes_view(children@), tag@).len();
                if same_text(t.as_str(), tag) {
                    if next < limit {
                        let ghost given = reps[next as int].nodes;
                        assert(given == nodes_view(replacements@[next as int].nodes@));
                        push_clones(&mut out, &replacements[next].nodes, 0);
                        proof {
                            assert(given.skip(0) == given);
                            assert(before + given + spliced(
                                src.skip(i + 1),
                                tag@,
                                reps,
                                count + 1 + inner,
                            ) == before + (given + spliced(
                                rest.skip(1),
                                tag@,
                                reps,
                                count + 1 + inner,
                            )));
                        }
                        next = advance(children, tag, next + 1, limit);
                    } else {
                        let one = clone_node(&nodes[i]);
                        proof {
                            lemma_nodes_view_push(out@, one);
                            assert(before.push(one@) + spliced(
                                src.skip(i + 1),
                                tag@,
                                reps,
                                count + 1 + inner,
                            ) == before + (seq![rest[0]] + spliced(
                                rest.skip(1),
                                tag@,
                                reps,
                                count + 1 + inner,
                            )));
                        }
                        out.push(one);
                    }
                    proof {
                        count = count + 1 + inner;
                    }
                } else {
                    proof {
                        if next == limit {
                            lemma_spliced_past_end(nodes_view(children@), tag@, reps, count);
                            lemma_spliced_past_end(
                                nodes_view(children@),
                                tag@,
                                reps,
                                next as nat,
                            );
                        }
                    }
                    let (below, reached) = splice(children, tag, replacements, next);
                    let one = Node::Element {
                        tag: t.clone(),
                        attributes: clone_attributes(attributes),
                        children: below,
                    };
                    proof {
                        lemma_nodes_view_push(out@, one);
                        assert(before.push(one@) + spliced(
                            src.skip(i + 1),
                            tag@,
                            reps,
                            count + inner,
                        ) == before + (seq![one@] + spliced(
                            rest.skip(1),
                            tag@,
                            reps,
                            count + inner,
                        )));
                        count = count + inner;
                    }
                    out.push(one);
                    next = reached;
                }
            },
            _ => {
                let one = clone_node(&nodes[i]);
                proof {
                    lemma_nodes_view_push(out@, one);
                    assert(before.push(one@) + spliced(src.skip(i + 1), tag@, reps, count)
                        == before + (seq![rest[0]] + spliced(rest.skip(1), tag@, reps, count)));
                }
                out.push(one);
            },
        }
        i += 1;
    }
    proof {
        assert(nodes_view(out@) + Seq::<NodeView>::empty() == nodes_view(out@));
    }
    (out, next)
}

/// Replaces the usages of the component `component_name` in `html`, and
/// returns the style text and the script text that the replacements
/// brought.
///
/// The usages are the elements that the tag name `component_name` selects,
/// as they stand before anything is replaced, counted in document order.
/// Tag names are matched as in an HTML document: `component_name` is taken
/// in ASCII lower case. The usage with the number `k` gives way to the nodes
/// of `replacements[k]`, which come to stand in its place in their own
/// order; a usage inside another usage leaves with it; a usage without a
/// replacement stays.
///
/// Of each replacement that meets a usage, in order, the style text is
/// appended to the style text so far unless it already stands in it as a
/// substring; the script text likewise.
pub fn replace_component(
    component_name: &str,
    html: &mut Document,
    replacements: &Vec<Replacement>,
) -> (out: (String, String))
    ensures
        final(html)@ == spliced(
            old(html)@,
            lowered(component_name@),
            replacements_view(replacements@),
            0,
        ),
        out.0@ == merged_css(
            Seq::empty(),
            used(old(html)@, lowered(component_name@), replacements_view(replacements@)),
        ),
        out.1@ == merged_js(
            Seq::empty(),
            used(old(html)@, lowered(component_name@), replacements_view(replacements@)),
        ),
{
    let tag = to_lower(component_name);
    let ghost reps = replacements_view(replacements@);
    let ghost met = used(html@, tag@, reps);
    let (children, n) = splice(&html.children, tag.as_str(), replacements, 0);
    html.children = children;
    let mut css = String::new();
    let mut js = String::new();
    let mut i: usize = 0;
    proof {
        assert(met.skip(0) == met);
        assert(met.len() == n);
    }
    while i < n
        invariant
            i <= n <= replacements.len(),
            reps == replacements_view(replacements@),
            met.len() == n,
            forall|k: int| 0 <= k < n ==> met[k] == reps[k],
            merged_css(css@, met.skip(i as int)) == merged_css(Seq::empty(), met),
            merged_js(js@, met.skip(i as int)) == merged_js(Seq::empty(), met),
        decreases n - i,
    {
        proof {
            assert(met.skip(i as int).skip(1) == met.skip(i + 1));
            assert(met.skip(i as int)[0] == replacements@[i as int]@);
        }
        let r = &replacements[i];
        if !contains(css.as_str(), r.css.as_str()) {
            css.append(r.css.as_str());
        }
        if !contains(js.as_str(), r.js.as_str()) {
            js.append(r.js.as_str());
        }
        i += 1;
    }
    (css, js)
}

} // verus!
