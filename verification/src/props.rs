//! Props: the named values that a usage hands to a component, and their
//! substitution for `{name}` placeholders.

use crate::dom::{
    attributes_view, clone_node, lemma_nodes_view, lemma_nodes_view_push, node_view, nodes_view,
    Attribute, AttributeView, Document, Node, NodeView,
};
use crate::text::{
    chars_lt, from_chars, has_substring, lemma_occurs_shift, matches_at, occurs_at, push_range,
    replaced, text_lt, to_chars,
};
use vstd::prelude::*;

verus! {

/// One named value.
#[derive(Debug, PartialEq, Eq)]
pub struct Prop {
    pub name: String,
    pub value: String,
}

/// What a [`Prop`] stands for.
pub struct PropView {
    pub name: Seq<char>,
    pub value: Seq<char>,
}

impl View for Prop {
    type V = PropView;

    open spec fn view(&self) -> PropView {
        PropView { name: self.name@, value: self.value@ }
    }
}

/// A map from names to values that is walked in the order of its names.
#[derive(Debug, PartialEq, Eq)]
pub struct Props {
    entries: Vec<Prop>,
}

impl View for Props {
    type V = Seq<PropView>;

    closed spec fn view(&self) -> Seq<PropView> {
        Seq::new(self.entries@.len(), |i: int| self.entries@[i]@)
    }
}

/// Each name comes strictly before the next.
pub open spec fn increasing(entries: Seq<PropView>) -> bool {
    forall|i: int, j: int|
        0 <= i < j < entries.len() ==> text_lt(
            (#[trigger] entries[i]).name,
            (#[trigger] entries[j]).name,
        )
}

/// The number of leading entries whose names come before `name`.
pub open spec fn slot(entries: Seq<PropView>, name: Seq<char>) -> nat
    decreases entries.len(),
{
    if entries.len() == 0 || !text_lt(entries[0].name, name) {
        0
    } else {
        1 + slot(entries.skip(1), name)
    }
}

/// `entries` with `entry` put in: in the place of the entry of that name
/// where there is one, and else before the first one that does not come
/// before it.
pub open spec fn inserted(entries: Seq<PropView>, entry: PropView) -> Seq<PropView> {
    let k = slot(entries, entry.name) as int;
    if k < entries.len() && entries[k].name == entry.name {
        entries.update(k, entry)
    } else {
        entries.insert(k, entry)
    }
}

/// `props` after each of `attributes` is put in, from the left.
pub open spec fn with_attributes(props: Seq<PropView>, attributes: Seq<AttributeView>) -> Seq<
    PropView,
>
    decreases attributes.len(),
{
    if attributes.len() == 0 {
        props
    } else {
        with_attributes(
            inserted(props, PropView { name: attributes[0].name, value: attributes[0].value }),
            attributes.skip(1),
        )
    }
}

/// `props` with what a usage node hands on: each attribute of an element
/// as one prop, and nothing for any other node.
pub open spec fn component_props(component: NodeView, props: Seq<PropView>) -> Seq<PropView> {
    match component {
        NodeView::Element { tag, attributes, children } => with_attributes(props, attributes),
        _ => props,
    }
}

/// The placeholder for the prop `name`.
pub open spec fn token(name: Seq<char>) -> Seq<char> {
    seq!['{'] + name + seq!['}']
}

/// The number of leading props whose placeholder does not stand at the
/// start of `text`: the index of the first prop whose placeholder does, or
/// the number of props.
pub open spec fn met(text: Seq<char>, props: Seq<PropView>) -> nat
    decreases props.len(),
{
    if props.len() == 0 || occurs_at(text, token(props[0].name), 0) {
        0
    } else {
        1 + met(text, props.skip(1))
    }
}

/// `text` after one scan from the left. Where the placeholder of a prop
/// stands at the place reached, the value of the prop is written and the scan
/// goes on behind the placeholder; of several such props the first one is
/// taken. Elsewhere the character is written as it is. Nothing that was
/// written is read again: a placeholder in a value stays.
pub open spec fn filled(text: Seq<char>, props: Seq<PropView>) -> Seq<char>
    decreases text.len(),
{
    if text.len() == 0 {
        text
    } else {
        let k = met(text, props) as int;
        if k < props.len() {
            proof {
                lemma_met(text, props);
            }
            props[k].value + filled(text.skip(token(props[k].name).len() as int), props)
        } else {
            seq![text[0]] + filled(text.skip(1), props)
        }
    }
}

/// `attributes` with each value filled.
pub open spec fn filled_attributes(attributes: Seq<AttributeView>, props: Seq<PropView>) -> Seq<
    AttributeView,
> {
    Seq::new(
        attributes.len(),
        |i: int|
            AttributeView { name: attributes[i].name, value: filled(attributes[i].value, props) },
    )
}

/// `nodes` with the values of all attributes and the texts of all text
/// nodes filled, at any depth.
pub open spec fn with_props(nodes: Seq<NodeView>, props: Seq<PropView>) -> Seq<NodeView>
    decreases nodes,
{
    if nodes.len() == 0 {
        Seq::empty()
    } else {
        let rest = with_props(nodes.skip(1), props);
        match nodes[0] {
            NodeView::Element { tag, attributes, children } => seq![
                NodeView::Element {
                    tag,
                    attributes: filled_attributes(attributes, props),
                    children: with_props(children, props),
                },
            ] + rest,
            NodeView::Text(text) => seq![NodeView::Text(filled(text, props))] + rest,
            _ => seq![nodes[0]] + rest,
        }
    }
}

/// No text comes before itself.
pub proof fn lemma_lt_irreflexive(a: Seq<char>)
    ensures
        !text_lt(a, a),
    decreases a.len(),
{
    if a.len() > 0 {
        lemma_lt_irreflexive(a.skip(1));
    }
}

/// The order of texts is transitive.
pub proof fn lemma_lt_transitive(a: Seq<char>, b: Seq<char>, c: Seq<char>)
    requires
        text_lt(a, b),
        text_lt(b, c),
    ensures
        text_lt(a, c),
    decreases a.len(),
{
    if a.len() > 0 && a[0] == b[0] && b[0] == c[0] {
        lemma_lt_transitive(a.skip(1), b.skip(1), c.skip(1));
    }
}

/// Of two different texts one comes before the other.
pub proof fn lemma_lt_total(a: Seq<char>, b: Seq<char>)
    requires
        a != b,
    ensures
        text_lt(a, b) || text_lt(b, a),
    decreases a.len(),
{
    if a.len() == 0 || b.len() == 0 {
        if a.len() == 0 && b.len() == 0 {
            assert(a =~= b);
        }
    } else if a[0] == b[0] {
        if a.skip(1) == b.skip(1) {
            assert(a =~= seq![a[0]] + a.skip(1));
            assert(b =~= seq![b[0]] + b.skip(1));
        } else {
            lemma_lt_total(a.skip(1), b.skip(1));
        }
    } else {
        vstd::utf8::char_u32_cast(a[0], a[0] as u32);
        vstd::utf8::char_u32_cast(b[0], b[0] as u32);
    }
}

/// Where `slot` points.
pub proof fn lemma_slot(entries: Seq<PropView>, name: Seq<char>)
    ensures
        slot(entries, name) <= entries.len(),
        forall|j: int| 0 <= j < slot(entries, name) ==> text_lt((#[trigger] entries[j]).name, name),
        slot(entries, name) < entries.len() ==> !text_lt(
            entries[slot(entries, name) as int].name,
            name,
        ),
    decreases entries.len(),
{
    if entries.len() > 0 && text_lt(entries[0].name, name) {
        let rest = entries.skip(1);
        lemma_slot(rest, name);
        assert forall|j: int| 0 <= j < slot(entries, name) implies text_lt(
            (#[trigger] entries[j]).name,
            name,
        ) by {
            if j > 0 {
                assert(entries[j] == rest[j - 1]);
            }
        }
    }
}

/// The first index whose entry does not come before `name` is the slot.
pub proof fn lemma_slot_is(entries: Seq<PropView>, name: Seq<char>, k: int)
    requires
        0 <= k <= entries.len(),
        forall|j: int| 0 <= j < k ==> text_lt((#[trigger] entries[j]).name, name),
        k < entries.len() ==> !text_lt(entries[k].name, name),
    ensures
        slot(entries, name) == k,
    decreases k,
{
    if k > 0 {
        let rest = entries.skip(1);
        assert(text_lt(entries[0].name, name));
        assert forall|j: int| 0 <= j < k - 1 implies text_lt((#[trigger] rest[j]).name, name) by {
            assert(rest[j] == entries[j + 1]);
        }
        lemma_slot_is(rest, name, k - 1);
    }
}

/// Putting an entry into a map whose names increase leaves them
/// increasing: the map holds no name twice.
pub proof fn lemma_inserted_increasing(entries: Seq<PropView>, entry: PropView)
    requires
        increasing(entries),
    ensures
        increasing(inserted(entries, entry)),
{
    let k = slot(entries, entry.name) as int;
    let after = inserted(entries, entry);
    lemma_slot(entries, entry.name);
    if k < entries.len() && entries[k].name == entry.name {
        assert forall|i: int, j: int| 0 <= i < j < after.len() implies text_lt(
            (#[trigger] after[i]).name,
            (#[trigger] after[j]).name,
        ) by {
            assert(after[i].name == entries[i].name);
            assert(after[j].name == entries[j].name);
        }
    } else {
        if k < entries.len() {
            lemma_lt_total(entries[k].name, entry.name);
        }
        assert forall|i: int, j: int| 0 <= i < j < after.len() implies text_lt(
            (#[trigger] after[i]).name,
            (#[trigger] after[j]).name,
        ) by {
            if j < k {
                assert(after[i] == entries[i] && after[j] == entries[j]);
            } else if j == k {
                assert(after[i] == entries[i]);
            } else if i < k {
                assert(after[i] == entries[i] && after[j] == entries[j - 1]);
            } else if i == k {
                assert(after[j] == entries[j - 1]);
                if j - 1 > k {
                    assert(text_lt(entries[k].name, entries[j - 1].name));
                    lemma_lt_transitive(entry.name, entries[k].name, entries[j - 1].name);
                }
            } else {
                assert(after[i] == entries[i - 1] && after[j] == entries[j - 1]);
            }
        }
    }
}

/// A map whose names increase holds no name twice.
pub proof fn lemma_names_distinct(entries: Seq<PropView>, i: int, j: int)
    requires
        increasing(entries),
        0 <= i < entries.len(),
        0 <= j < entries.len(),
        i != j,
    ensures
        entries[i].name != entries[j].name,
{
    lemma_lt_irreflexive(entries[i].name);
    if i < j {
        assert(text_lt(entries[i].name, entries[j].name));
    } else {
        assert(text_lt(entries[j].name, entries[i].name));
    }
}

/// What `met` finds.
pub proof fn lemma_met(text: Seq<char>, props: Seq<PropView>)
    ensures
        met(text, props) <= props.len(),
        forall|j: int|
            0 <= j < met(text, props) ==> !occurs_at(text, token((#[trigger] props[j]).name), 0),
        met(text, props) < props.len() ==> occurs_at(
            text,
            token(props[met(text, props) as int].name),
            0,
        ),
    decreases props.len(),
{
    if props.len() > 0 && !occurs_at(text, token(props[0].name), 0) {
        let rest = props.skip(1);
        lemma_met(text, rest);
        assert forall|j: int| 0 <= j < met(text, props) implies !occurs_at(
            text,
            token((#[trigger] props[j]).name),
            0,
        ) by {
            if j > 0 {
                assert(props[j] == rest[j - 1]);
            }
        }
    }
}

/// The first prop whose placeholder stands at the start of `text` is the
/// one that `met` finds.
pub proof fn lemma_met_is(text: Seq<char>, props: Seq<PropView>, k: int)
    requires
        0 <= k <= props.len(),
        forall|j: int| 0 <= j < k ==> !occurs_at(text, token((#[trigger] props[j]).name), 0),
        k < props.len() ==> occurs_at(text, token(props[k].name), 0),
    ensures
        met(text, props) == k,
    decreases k,
{
    if k > 0 {
        let rest = props.skip(1);
        assert(!occurs_at(text, token(props[0].name), 0));
        assert forall|j: int| 0 <= j < k - 1 implies !occurs_at(
            text,
            token((#[trigger] rest[j]).name),
            0,
        ) by {
            assert(rest[j] == props[j + 1]);
        }
        lemma_met_is(text, rest, k - 1);
    }
}

/// A text in which no placeholder of `props` stands is left as it is.
pub proof fn lemma_filled_without_placeholder(text: Seq<char>, props: Seq<PropView>)
    requires
        forall|i: int|
            0 <= i < props.len() ==> !has_substring(text, token((#[trigger] props[i]).name)),
    ensures
        filled(text, props) == text,
    decreases text.len(),
{
    if text.len() > 0 {
        let rest = text.skip(1);
        assert forall|i: int| 0 <= i < props.len() implies !occurs_at(
            text,
            token((#[trigger] props[i]).name),
            0,
        ) && !has_substring(rest, token(props[i].name)) by {
            let t = token(props[i].name);
            assert(!has_substring(text, t));
            assert forall|at: int| !occurs_at(rest, t, at) by {
                if occurs_at(rest, t, at) {
                    lemma_occurs_shift(rest, t, at);
                    lemma_occurs_shift(text, t, at + 1);
                    assert(rest.skip(at) == text.skip(at + 1));
                    assert(occurs_at(text, t, at + 1));
                }
            }
        }
        lemma_met_is(text, props, props.len() as int);
        lemma_filled_without_placeholder(rest, props);
        assert(seq![text[0]] + rest == text);
    }
}

/// With one prop, filling is plain substring replacement: every occurrence
/// of its placeholder, from the left, gives way to its value.
pub proof fn lemma_filled_one_prop(text: Seq<char>, prop: PropView)
    ensures
        filled(text, seq![prop]) == replaced(text, token(prop.name), prop.value),
    decreases text.len(),
{
    let props = seq![prop];
    let t = token(prop.name);
    assert(t.len() == prop.name.len() + 2);
    if text.len() > 0 {
        assert(props[0] == prop);
        if occurs_at(text, t, 0) {
            lemma_met_is(text, props, 0);
            lemma_filled_one_prop(text.skip(t.len() as int), prop);
        } else {
            lemma_met_is(text, props, 1);
            lemma_filled_one_prop(text.skip(1), prop);
        }
    }
}

/// Without props nothing changes.
pub proof fn lemma_with_no_props(nodes: Seq<NodeView>)
    ensures
        with_props(nodes, Seq::empty()) == nodes,
    decreases nodes,
{
    if nodes.len() > 0 {
        let none = Seq::<PropView>::empty();
        lemma_with_no_props(nodes.skip(1));
        match nodes[0] {
            NodeView::Element { tag, attributes, children } => {
                lemma_with_no_props(children);
                assert forall|i: int| 0 <= i < attributes.len() implies filled(
                    #[trigger] attributes[i].value,
                    none,
                ) == attributes[i].value by {
                    lemma_filled_without_placeholder(attributes[i].value, none);
                }
                assert(filled_attributes(attributes, none) =~= attributes);
            },
            NodeView::Text(text) => {
                lemma_filled_without_placeholder(text, none);
            },
            _ => {},
        }
        assert(seq![nodes[0]] + nodes.skip(1) == nodes);
    }
}

impl Props {
    /// Whether the names increase, as they do in every map that was made
    /// by `new` and `insert`.
    pub open spec fn wf(&self) -> bool {
        increasing(self@)
    }

    /// The empty map.
    pub fn new() -> (props: Props)
        ensures
            props@ == Seq::<PropView>::empty(),
            props.wf(),
    {
        let props = Props { entries: Vec::new() };
        assert(props@ =~= Seq::<PropView>::empty());
        props
    }

    /// The number of entries.
    pub fn len(&self) -> (n: usize)
        ensures
            n == self@.len(),
    {
        self.entries.len()
    }

    /// The entry at `index`, in the order of the names.
    pub fn get(&self, index: usize) -> (prop: &Prop)
        requires
            index < self@.len(),
        ensures
            prop@ == self@[index as int],
    {
        &self.entries[index]
    }

    /// Gives `name` the value `value`, whether or not it had one.
    pub fn insert(&mut self, name: String, value: String)
        ensures
            final(self)@ == inserted(old(self)@, (PropView { name: name@, value: value@ })),
            old(self).wf() ==> final(self).wf(),
    {
        let ghost before = self@;
        let ghost entry = PropView { name: name@, value: value@ };
        let key = to_chars(name.as_str());
        let mut k: usize = 0;
        let mut same: bool = false;
        while k < self.entries.len()
            invariant_except_break
                !same,
            invariant
                k <= self.entries.len(),
                self@ == before,
                key@ == name@,
                forall|j: int| 0 <= j < k ==> text_lt((#[trigger] before[j]).name, name@),
            ensures
                k <= self.entries.len(),
                self@ == before,
                forall|j: int| 0 <= j < k ==> text_lt((#[trigger] before[j]).name, name@),
                k < self.entries.len() ==> !text_lt(before[k as int].name, name@),
                same == (k < self.entries.len() && before[k as int].name == name@),
            decreases self.entries.len() - k,
        {
            let other = to_chars(self.entries[k].name.as_str());
            if !chars_lt(&other, &key) {
                same = self.entries[k].name == name;
                break ;
            }
            k += 1;
        }
        proof {
            lemma_slot_is(before, name@, k as int);
            if before.len() == self.entries@.len() && increasing(before) {
                lemma_inserted_increasing(before, entry);
            }
        }
        if same {
            self.entries.remove(k);
        }
        self.entries.insert(k, Prop { name, value });
        assert(self@ =~= inserted(before, entry));
    }
}

/// Adds to `props_list` what `component` hands on as a usage node: each of
/// its attributes as one prop, name and value as they stand. A node that is
/// no element hands on nothing.
pub fn get_component_props(component: &Node, props_list: &mut Props)
    ensures
        final(props_list)@ == component_props(component@, old(props_list)@),
        old(props_list).wf() ==> final(props_list).wf(),
{
    match component {
        Node::Element { tag, attributes, children } => {
            let ghost all = attributes_view(attributes@);
            let mut i: usize = 0;
            assert(all.skip(0) == all);
            while i < attributes.len()
                invariant
                    i <= attributes.len(),
                    all == attributes_view(attributes@),
                    with_attributes(props_list@, all.skip(i as int)) == with_attributes(
                        old(props_list)@,
                        all,
                    ),
                    old(props_list).wf() ==> props_list.wf(),
                decreases attributes.len() - i,
            {
                proof {
                    assert(all.skip(i as int).skip(1) == all.skip(i + 1));
                    assert(all.skip(i as int)[0] == attributes@[i as int]@);
                }
                let a = &attributes[i];
                props_list.insert(a.name.clone(), a.value.clone());
                i += 1;
            }
        },
        _ => {},
    }
}

/// The placeholder and the value of each prop, as characters.
struct Filler {
    token: Vec<char>,
    value: Vec<char>,
}

/// Whether `fillers` hold the placeholders and values of `props`.
spec fn fills(fillers: Seq<Filler>, props: Seq<PropView>) -> bool {
    &&& fillers.len() == props.len()
    &&& forall|i: int|
        0 <= i < fillers.len() ==> (#[trigger] fillers[i]).token@ == token(props[i].name)
            && fillers[i].value@ == props[i].value
}

/// The placeholders and values of `props`.
fn fillers_of(props: &Props) -> (fillers: Vec<Filler>)
    ensures
        fills(fillers@, props@),
{
    let mut fillers: Vec<Filler> = Vec::new();
    let mut i: usize = 0;
    while i < props.len()
        invariant
            i <= props@.len(),
            fillers@.len() == i,
            forall|k: int|
                0 <= k < i ==> (#[trigger] fillers@[k]).token@ == token(props@[k].name)
                    && fillers@[k].value@ == props@[k].value,
        decreases props@.len() - i,
    {
        let prop = props.get(i);
        let name = to_chars(prop.name.as_str());
        let mut token: Vec<char> = Vec::new();
        token.push('{');
        crate::text::push_range(&mut token, &name, 0, name.len());
        token.push('}');
        proof {
            assert(name@.subrange(0, name@.len() as int) == name@);
            assert(token@ =~= crate::props::token(prop.name@));
        }
        fillers.push(Filler { token, value: to_chars(prop.value.as_str()) });
        i += 1;
    }
    fillers
}

/// `text`, filled.
fn fill(text: &String, fillers: &Vec<Filler>, Ghost(props): Ghost<Seq<PropView>>) -> (out: String)
    requires
        fills(fillers@, props),
    ensures
        out@ == filled(text@, props),
{
    let t = to_chars(text.as_str());
    let mut out: Vec<char> = Vec::new();
    let mut i: usize = 0;
    assert(out@ + filled(t@.skip(0), props) == filled(t@, props)) by {
        assert(t@.skip(0) == t@);
    }
    while i < t.len()
        invariant
            i <= t.len(),
            fills(fillers@, props),
            out@ + filled(t@.skip(i as int), props) == filled(t@, props),
        decreases t.len() - i,
    {
        let ghost rest = t@.skip(i as int);
        let ghost before = out@;
        let mut k: usize = 0;
        while k < fillers.len()
            invariant
                k <= fillers.len(),
                i < t.len(),
                rest == t@.skip(i as int),
                fills(fillers@, props),
                forall|j: int|
                    0 <= j < k ==> !occurs_at(rest, token((#[trigger] props[j]).name), 0),
            ensures
                k <= fillers.len(),
                forall|j: int|
                    0 <= j < k ==> !occurs_at(rest, token((#[trigger] props[j]).name), 0),
                k < fillers.len() ==> occurs_at(t@, fillers@[k as int].token@, i as int),
            decreases fillers.len() - k,
        {
            proof {
                lemma_occurs_shift(t@, fillers@[k as int].token@, i as int);
            }
            if matches_at(&t, &fillers[k].token, i) {
                break ;
            }
            k += 1;
        }
        proof {
            if k < fillers.len() {
                lemma_occurs_shift(t@, fillers@[k as int].token@, i as int);
            }
            lemma_met_is(rest, props, k as int);
        }
        if k < fillers.len() {
            let filler = &fillers[k];
            push_range(&mut out, &filler.value, 0, filler.value.len());
            i += filler.token.len();
            proof {
                let v = props[k as int].value;
                assert(filler.value@.subrange(0, filler.value@.len() as int) == v);
                assert(rest.skip(filler.token@.len() as int) == t@.skip(i as int));
                assert(before + v + filled(t@.skip(i as int), props) == before + (v + filled(
                    t@.skip(i as int),
                    props,
                )));
            }
        } else {
            out.push(t[i]);
            i += 1;
            proof {
                assert(rest.skip(1) == t@.skip(i as int));
                assert(before.push(rest[0]) + filled(t@.skip(i as int), props) == before
                    + (seq![rest[0]] + filled(t@.skip(i as int), props)));
            }
        }
    }
    assert(out@ + Seq::<char>::empty() == out@);
    from_chars(&out)
}

/// `attributes`, each value filled.
fn fill_attributes(
    attributes: &Vec<Attribute>,
    fillers: &Vec<Filler>,
    Ghost(props): Ghost<Seq<PropView>>,
) -> (out: Vec<Attribute>)
    requires
        fills(fillers@, props),
    ensures
        attributes_view(out@) == filled_attributes(attributes_view(attributes@), props),
{
    let mut out: Vec<Attribute> = Vec::new();
    let mut i: usize = 0;
    while i < attributes.len()
        invariant
            i <= attributes.len(),
            fills(fillers@, props),
            out@.len() == i,
            forall|k: int|
                0 <= k < i ==> (#[trigger] out@[k])@ == (AttributeView {
                    name: attributes@[k].name@,
                    value: filled(attributes@[k].value@, props),
                }),
        decreases attributes.len() - i,
    {
        let a = &attributes[i];
        out.push(Attribute { name: a.name.clone(), value: fill(&a.value, fillers, Ghost(props)) });
        i += 1;
    }
    assert(attributes_view(out@) =~= filled_attributes(attributes_view(attributes@), props));
    out
}

/// `nodes`, filled at every depth.
fn fill_nodes(nodes: &Vec<Node>, fillers: &Vec<Filler>, Ghost(props): Ghost<Seq<PropView>>) -> (out:
    Vec<Node>)
    requires
        fills(fillers@, props),
    ensures
        nodes_view(out@) == with_props(nodes_view(nodes@), props),
    decreases nodes,
{
    let mut out: Vec<Node> = Vec::new();
    let ghost src = nodes_view(nodes@);
    let mut i: usize = 0;
    proof {
        lemma_nodes_view(nodes@);
        assert(src.skip(0) == src);
        assert(nodes_view(out@) + with_props(src, props) == with_props(src, props));
    }
    while i < nodes.len()
        invariant
            i <= nodes.len(),
            fills(fillers@, props),
            src == nodes_view(nodes@),
            src.len() == nodes.len(),
            nodes_view(out@) + with_props(src.skip(i as int), props) == with_props(src, props),
        decreases nodes.len() - i,
    {
        let ghost rest = src.skip(i as int);
        let ghost before = nodes_view(out@);
        proof {
            lemma_nodes_view(nodes@);
            assert(rest[0] == node_view(nodes@[i as int]));
            assert(rest.skip(1) == src.skip(i + 1));
        }
        let one = match &nodes[i] {
            Node::Element { tag, attributes, children } => Node::Element {
                tag: tag.clone(),
                attributes: fill_attributes(attributes, fillers, Ghost(props)),
                children: fill_nodes(children, fillers, Ghost(props)),
            },
            Node::Text(text) => Node::Text(fill(text, fillers, Ghost(props))),
            _ => clone_node(&nodes[i]),
        };
        proof {
            lemma_nodes_view_push(out@, one);
            assert(before.push(one@) + with_props(src.skip(i + 1), props) == before + (seq![one@]
                + with_props(rest.skip(1), props)));
        }
        out.push(one);
        i += 1;
    }
    proof {
        assert(nodes_view(out@) + Seq::<NodeView>::empty() == nodes_view(out@));
    }
    out
}

/// Replaces, in the value of every attribute and in every text node of
/// `html`, the placeholder `{name}` of each prop by its value. Each text is
/// scanned once from the left: where a placeholder stands, the value is
/// written and the scan goes on behind the placeholder, so that a
/// placeholder which a value brings is not filled in its turn. A placeholder
/// of no prop stays as it is.
pub fn replace_props(html: &mut Document, component_props: &Props)
    ensures
        final(html)@ == with_props(old(html)@, component_props@),
{
    let fillers = fillers_of(component_props);
    let children = fill_nodes(&html.children, &fillers, Ghost(component_props@));
    html.children = children;
}

} // verus!
