//! Import declarations: comments that name the component files a document
//! uses.

use crate::dom::{
    clone_attributes, clone_node, lemma_nodes_view, lemma_nodes_view_push, node_view, nodes_view,
    Document, Node, NodeView,
};
use crate::path::{resolve_chars, resolved, stem, stem_chars};
use crate::text::{
    contains_chars, has_substring, lines, matches_at, occurs_at, push_range, split_chars,
    strip_whitespace, from_chars, to_chars, without_whitespace,
};
use vstd::prelude::*;

verus! {

/// One import: the tag that stands for a component, and the file that
/// holds it.
#[derive(Debug, PartialEq, Eq)]
pub struct Import {
    pub tag_name: String,
    pub source_path: String,
}

/// What an [`Import`] stands for.
pub struct ImportView {
    pub tag_name: Seq<char>,
    pub source_path: Seq<char>,
}

impl View for Import {
    type V = ImportView;

    open spec fn view(&self) -> ImportView {
        ImportView { tag_name: self.tag_name@, source_path: self.source_path@ }
    }
}

/// A line that holds the word `import` and is no import declaration.
#[derive(Debug, PartialEq, Eq)]
pub struct ImportError {
    pub line: String,
}

/// The views of a sequence of imports.
pub open spec fn imports_view(imports: Seq<Import>) -> Seq<ImportView> {
    Seq::new(imports.len(), |i: int| imports[i]@)
}

/// The word that marks a declaration.
pub open spec fn import_word() -> Seq<char> {
    seq!['i', 'm', 'p', 'o', 'r', 't']
}

/// How a declaration starts once its whitespace is gone.
pub open spec fn import_head() -> Seq<char> {
    seq!['i', 'm', 'p', 'o', 'r', 't', '\'']
}

/// The texts of the comments, in document order, that hold the word
/// `import`.
pub open spec fn import_comments(nodes: Seq<NodeView>) -> Seq<Seq<char>>
    decreases nodes,
{
    if nodes.len() == 0 {
        Seq::empty()
    } else {
        let rest = import_comments(nodes.skip(1));
        match nodes[0] {
            NodeView::Element { tag, attributes, children } => import_comments(children) + rest,
            NodeView::Comment(text) => if has_substring(text, import_word()) {
                seq![text] + rest
            } else {
                rest
            },
            _ => rest,
        }
    }
}

/// `nodes` without the comments that hold the word `import`, at any depth.
pub open spec fn without_import_comments(nodes: Seq<NodeView>) -> Seq<NodeView>
    decreases nodes,
{
    if nodes.len() == 0 {
        Seq::empty()
    } else {
        let rest = without_import_comments(nodes.skip(1));
        match nodes[0] {
            NodeView::Element { tag, attributes, children } => seq![
                NodeView::Element {
                    tag,
                    attributes,
                    children: without_import_comments(children),
                },
            ] + rest,
            NodeView::Comment(text) => if has_substring(text, import_word()) {
                rest
            } else {
                seq![nodes[0]] + rest
            },
            _ => seq![nodes[0]] + rest,
        }
    }
}

/// Those of `pieces` that hold the word `import`.
pub open spec fn with_import(pieces: Seq<Seq<char>>) -> Seq<Seq<char>>
    decreases pieces.len(),
{
    if pieces.len() == 0 {
        Seq::empty()
    } else if has_substring(pieces[0], import_word()) {
        seq![pieces[0]] + with_import(pieces.skip(1))
    } else {
        with_import(pieces.skip(1))
    }
}

/// The lines of `comments`, in order, that hold the word `import`.
pub open spec fn declaration_lines(comments: Seq<Seq<char>>) -> Seq<Seq<char>>
    decreases comments.len(),
{
    if comments.len() == 0 {
        Seq::empty()
    } else {
        with_import(lines(comments[0])) + declaration_lines(comments.skip(1))
    }
}

/// The path that `line` declares: once the whitespace of the line is gone
/// it must read `import'<path>'`, with a path that is not empty and holds
/// no quote.
pub open spec fn declared_path(line: Seq<char>) -> Option<Seq<char>> {
    let s = without_whitespace(line);
    if s.len() >= 9 && occurs_at(s, import_head(), 0) && s.last() == '\'' && !s.subrange(
        7,
        s.len() - 1,
    ).contains('\'') {
        Some(s.subrange(7, s.len() - 1))
    } else {
        None
    }
}

/// The import that `line` declares in a file of the directory `base`: the
/// declared path seen from `base` and normalized, under the stem of its file
/// name. A path without a file name declares nothing.
pub open spec fn declaration(line: Seq<char>, base: Seq<char>) -> Option<ImportView> {
    match declared_path(line) {
        None => None,
        Some(relative) => {
            let path = resolved(base, relative);
            match stem(path) {
                None => None,
                Some(tag) => Some(ImportView { tag_name: tag, source_path: path }),
            }
        },
    }
}

/// The index of the first import under `tag`, or the number of imports.
pub open spec fn position(imports: Seq<ImportView>, tag: Seq<char>) -> nat
    decreases imports.len(),
{
    if imports.len() == 0 || imports[0].tag_name == tag {
        0
    } else {
        1 + position(imports.skip(1), tag)
    }
}

/// `imports` with `entry` recorded: in the place of the import under the
/// same tag where there is one, and else at the end.
pub open spec fn recorded(imports: Seq<ImportView>, entry: ImportView) -> Seq<ImportView> {
    let k = position(imports, entry.tag_name) as int;
    if k < imports.len() {
        imports.update(k, entry)
    } else {
        imports.push(entry)
    }
}

/// `imports` after the declarations in `lines` are recorded in order, or
/// the first of `lines` that declares nothing.
pub open spec fn declared(lines: Seq<Seq<char>>, base: Seq<char>, imports: Seq<ImportView>) -> Result<
    Seq<ImportView>,
    Seq<char>,
>
    decreases lines.len(),
{
    if lines.len() == 0 {
        Ok(imports)
    } else {
        match declaration(lines[0], base) {
            None => Err(lines[0]),
            Some(entry) => declared(lines.skip(1), base, recorded(imports, entry)),
        }
    }
}

/// What the import comments of `nodes` declare, seen from `base`, on top
/// of `imports`.
pub open spec fn resolved_imports(
    nodes: Seq<NodeView>,
    base: Seq<char>,
    imports: Seq<ImportView>,
) -> Result<Seq<ImportView>, Seq<char>> {
    declared(declaration_lines(import_comments(nodes)), base, imports)
}

/// Where `position` points.
pub proof fn lemma_position_is(imports: Seq<ImportView>, tag: Seq<char>, k: int)
    requires
        0 <= k <= imports.len(),
        forall|j: int| 0 <= j < k ==> (#[trigger] imports[j]).tag_name != tag,
        k < imports.len() ==> imports[k].tag_name == tag,
    ensures
        position(imports, tag) == k,
    decreases k,
{
    if k > 0 {
        let rest = imports.skip(1);
        assert(imports[0].tag_name != tag);
        assert forall|j: int| 0 <= j < k - 1 implies (#[trigger] rest[j]).tag_name != tag by {
            assert(rest[j] == imports[j + 1]);
        }
        lemma_position_is(rest, tag, k - 1);
    }
}

/// No tag stands for two imports.
pub open spec fn distinct_tags(imports: Seq<ImportView>) -> bool {
    forall|i: int, j: int|
        #![trigger imports[i], imports[j]]
        0 <= i < j < imports.len() ==> imports[i].tag_name != imports[j].tag_name
}

/// What `position` finds.
pub proof fn lemma_position(imports: Seq<ImportView>, tag: Seq<char>)
    ensures
        position(imports, tag) <= imports.len(),
        forall|j: int|
            0 <= j < position(imports, tag) ==> (#[trigger] imports[j]).tag_name != tag,
        position(imports, tag) < imports.len() ==> imports[position(imports, tag) as int].tag_name
            == tag,
    decreases imports.len(),
{
    if imports.len() > 0 && imports[0].tag_name != tag {
        let rest = imports.skip(1);
        lemma_position(rest, tag);
        assert forall|j: int| 0 <= j < position(imports, tag) implies #[trigger] imports[j].tag_name
            != tag by {
            if j > 0 {
                assert(imports[j] == rest[j - 1]);
            }
        }
    }
}

/// Recording an import leaves every tag with one import, and that of the
/// recorded tag is the recorded one: the last import under a tag wins.
pub proof fn lemma_recorded(imports: Seq<ImportView>, entry: ImportView)
    requires
        distinct_tags(imports),
    ensures
        distinct_tags(recorded(imports, entry)),
        position(imports, entry.tag_name) < recorded(imports, entry).len(),
        recorded(imports, entry)[position(imports, entry.tag_name) as int] == entry,
{
    let k = position(imports, entry.tag_name) as int;
    let after = recorded(imports, entry);
    lemma_position(imports, entry.tag_name);
    assert forall|i: int, j: int|
        #![trigger after[i], after[j]]
        0 <= i < j < after.len() implies after[i].tag_name != after[j].tag_name by {
        if k < imports.len() {
            assert(after[i].tag_name == imports[i].tag_name);
            assert(after[j].tag_name == imports[j].tag_name);
        } else if j < k {
            assert(after[i] == imports[i] && after[j] == imports[j]);
        } else {
            assert(after[i] == imports[i]);
        }
    }
}

/// The imports that a file declares hold no tag twice.
pub proof fn lemma_declared_distinct(
    lines: Seq<Seq<char>>,
    base: Seq<char>,
    imports: Seq<ImportView>,
)
    requires
        distinct_tags(imports),
    ensures
        declared(lines, base, imports) matches Ok(all) ==> distinct_tags(all),
    decreases lines.len(),
{
    if lines.len() > 0 {
        match declaration(lines[0], base) {
            None => {},
            Some(entry) => {
                lemma_recorded(imports, entry);
                lemma_declared_distinct(lines.skip(1), base, recorded(imports, entry));
            },
        }
    }
}

/// The import comments of two sequences of nodes, one after the other.
pub proof fn lemma_import_comments_add(a: Seq<NodeView>, b: Seq<NodeView>)
    ensures
        import_comments(a + b) == import_comments(a) + import_comments(b),
    decreases a.len(),
{
    if a.len() == 0 {
        assert(a + b == b);
        assert(import_comments(a) + import_comments(b) == import_comments(b));
    } else {
        assert((a + b).skip(1) == a.skip(1) + b);
        assert((a + b)[0] == a[0]);
        lemma_import_comments_add(a.skip(1), b);
        let x = import_comments(a.skip(1));
        let y = import_comments(b);
        match a[0] {
            NodeView::Element { tag, attributes, children } => {
                let below = import_comments(children);
                assert(below + (x + y) == below + x + y);
            },
            NodeView::Comment(text) => {
                assert(seq![text] + (x + y) == seq![text] + x + y);
            },
            _ => {},
        }
    }
}

/// No comment that holds the word is left.
pub proof fn lemma_no_import_comment_left(nodes: Seq<NodeView>)
    ensures
        import_comments(without_import_comments(nodes)).len() == 0,
    decreases nodes,
{
    if nodes.len() > 0 {
        let rest = without_import_comments(nodes.skip(1));
        lemma_no_import_comment_left(nodes.skip(1));
        let kept = match nodes[0] {
            NodeView::Element { tag, attributes, children } => NodeView::Element {
                tag,
                attributes,
                children: without_import_comments(children),
            },
            _ => nodes[0],
        };
        match nodes[0] {
            NodeView::Element { tag, attributes, children } => {
                lemma_no_import_comment_left(children);
            },
            _ => {},
        }
        let one = seq![kept];
        assert(one[0] == kept);
        assert(one.skip(1) == Seq::<NodeView>::empty());
        assert(import_comments(one.skip(1)).len() == 0);
        lemma_import_comments_add(one, rest);
    }
}

/// Where no comment holds the word, none is taken out and none is read.
pub proof fn lemma_no_import_comments(nodes: Seq<NodeView>)
    requires
        import_comments(nodes).len() == 0,
    ensures
        without_import_comments(nodes) == nodes,
    decreases nodes,
{
    if nodes.len() > 0 {
        match nodes[0] {
            NodeView::Element { tag, attributes, children } => {
                lemma_no_import_comments(children);
            },
            _ => {},
        }
        lemma_no_import_comments(nodes.skip(1));
        assert(seq![nodes[0]] + nodes.skip(1) == nodes);
    }
}

/// The word `import`, as characters.
fn word() -> (w: Vec<char>)
    ensures
        w@ == import_word(),
{
    let w: Vec<char> = vec!['i', 'm', 'p', 'o', 'r', 't'];
    assert(w@ =~= import_word());
    w
}

/// The texts of the comments below `nodes` that hold the word `import`.
fn collect_comments(nodes: &Vec<Node>, w: &Vec<char>, out: &mut Vec<Vec<char>>)
    requires
        w@ == import_word(),
    ensures
        final(out)@.len() == old(out)@.len() + import_comments(nodes_view(nodes@)).len(),
        forall|k: int| 0 <= k < old(out)@.len() ==> final(out)@[k] == old(out)@[k],
        forall|k: int|
            0 <= k < import_comments(nodes_view(nodes@)).len() ==> (#[trigger] final(out)@[old(
                out,
            )@.len() + k])@ == import_comments(nodes_view(nodes@))[k],
    decreases nodes,
{
    let ghost src = nodes_view(nodes@);
    let ghost start = out@.len();
    let ghost mut done: Seq<Seq<char>> = Seq::empty();
    let mut i: usize = 0;
    proof {
        lemma_nodes_view(nodes@);
        assert(src.skip(0) == src);
        assert(done + import_comments(src) == import_comments(src));
    }
    while i < nodes.len()
        invariant
            i <= nodes.len(),
            w@ == import_word(),
            src == nodes_view(nodes@),
            src.len() == nodes.len(),
            start == old(out)@.len(),
            out@.len() == start + done.len(),
            forall|k: int| 0 <= k < start ==> out@[k] == old(out)@[k],
            forall|k: int| 0 <= k < done.len() ==> (#[trigger] out@[start + k])@ == done[k],
            done + import_comments(src.skip(i as int)) == import_comments(src),
        decreases nodes.len() - i,
    {
        let ghost rest = src.skip(i as int);
        let ghost before = done;
        proof {
            lemma_nodes_view(nodes@);
            assert(rest[0] == node_view(nodes@[i as int]));
            assert(rest.skip(1) == src.skip(i + 1));
        }
        match &nodes[i] {
            Node::Element { tag, attributes, children } => {
                collect_comments(children, w, out);
                proof {
                    let below = import_comments(nodes_view(children@));
                    done = done + below;
                    assert(done + import_comments(src.skip(i + 1)) == before + (below
                        + import_comments(rest.skip(1))));
                    assert forall|k: int| 0 <= k < done.len() implies (#[trigger] out@[start
                        + k])@ == done[k] by {
                        if k >= before.len() {
                            assert(out@[start + before.len() + (k - before.len())]@ == below[k
                                - before.len()]);
                        }
                    }
                }
            },
            Node::Comment(text) => {
                let t = to_chars(text.as_str());
                if contains_chars(&t, w) {
                    out.push(t);
                    proof {
                        done = done.push(text@);
                        assert(done + import_comments(src.skip(i + 1)) == before + (seq![text@]
                            + import_comments(rest.skip(1))));
                    }
                }
            },
            _ => {},
        }
        i += 1;
    }
    proof {
        assert(done + Seq::<Seq<char>>::empty() == done);
    }
}

/// `nodes` without the comments that hold the word `import`.
fn strip_comments(nodes: &Vec<Node>, w: &Vec<char>) -> (out: Vec<Node>)
    requires
        w@ == import_word(),
    ensures
        nodes_view(out@) == without_import_comments(nodes_view(nodes@)),
    decreases nodes,
{
    let mut out: Vec<Node> = Vec::new();
    let ghost src = nodes_view(nodes@);
    let mut i: usize = 0;
    proof {
        lemma_nodes_view(nodes@);
        assert(src.skip(0) == src);
        assert(nodes_view(out@) + without_import_comments(src) == without_import_comments(src));
    }
    while i < nodes.len()
        invariant
            i <= nodes.len(),
            w@ == import_word(),
            src == nodes_view(nodes@),
            src.len() == nodes.len(),
            nodes_view(out@) + without_import_comments(src.skip(i as int))
                == without_import_comments(src),
        decreases nodes.len() - i,
    {
        let ghost rest = src.skip(i as int);
        let ghost before = nodes_view(out@);
        proof {
            lemma_nodes_view(nodes@);
            assert(rest[0] == node_view(nodes@[i as int]));
            assert(rest.skip(1) == src.skip(i + 1));
        }
        let kept: Option<Node> = match &nodes[i] {
            Node::Element { tag, attributes, children } => Some(
                Node::Element {
                    tag: tag.clone(),
                    attributes: clone_attributes(attributes),
                    children: strip_comments(children, w),
                },
            ),
            Node::Comment(text) => {
                let t = to_chars(text.as_str());
                if contains_chars(&t, w) {
                    None
                } else {
                    Some(clone_node(&nodes[i]))
                }
            },
            _ => Some(clone_node(&nodes[i])),
        };
        match kept {
            Some(one) => {
                proof {
                    lemma_nodes_view_push(out@, one);
                    assert(before.push(one@) + without_import_comments(src.skip(i + 1)) == before
                        + (seq![one@] + without_import_comments(rest.skip(1))));
                }
                out.push(one);
            },
            None => {},
        }
        i += 1;
    }
    proof {
        assert(nodes_view(out@) + Seq::<NodeView>::empty() == nodes_view(out@));
    }
    out
}

/// The path that `line` declares.
fn path_of(line: &Vec<char>) -> (path: Option<Vec<char>>)
    ensures
        match path {
            Some(p) => declared_path(line@) == Some(p@),
            None => declared_path(line@) is None,
        },
{
    let s = strip_whitespace(line);
    let head: Vec<char> = vec!['i', 'm', 'p', 'o', 'r', 't', '\''];
    assert(head@ =~= import_head());
    if s.len() < 9 || !matches_at(&s, &head, 0) || s[s.len() - 1] != '\'' {
        return None;
    }
    let end: usize = s.len() - 1;
    let ghost inner = s@.subrange(7, end as int);
    let mut i: usize = 7;
    while i < end
        invariant
            7 <= i <= end,
            end == s.len() - 1,
            s@ == without_whitespace(line@),
            inner == s@.subrange(7, end as int),
            forall|k: int| 0 <= k < i - 7 ==> inner[k] != '\'',
        decreases end - i,
    {
        if s[i] == '\'' {
            assert(inner[i - 7] == '\'');
            assert(inner.contains('\''));
            return None;
        }
        i += 1;
    }
    let mut path: Vec<char> = Vec::new();
    push_range(&mut path, &s, 7, end);
    Some(path)
}

/// The import that `line` declares in a file of the directory `base`.
fn declaration_of(line: &Vec<char>, base: &Vec<char>) -> (entry: Option<Import>)
    ensures
        match entry {
            Some(e) => declaration(line@, base@) == Some(e@),
            None => declaration(line@, base@) is None,
        },
{
    match path_of(line) {
        None => None,
        Some(relative) => {
            let path = resolve_chars(base, &relative);
            match stem_chars(&path) {
                None => None,
                Some(tag) => Some(
                    Import { tag_name: from_chars(&tag), source_path: from_chars(&path) },
                ),
            }
        },
    }
}

/// Records `entry` in `imports`.
fn record(imports: &mut Vec<Import>, entry: Import)
    ensures
        imports_view(final(imports)@) == recorded(imports_view(old(imports)@), entry@),
{
    let ghost before = imports_view(imports@);
    let mut k: usize = 0;
    while k < imports.len() && imports[k].tag_name != entry.tag_name
        invariant
            k <= imports.len(),
            imports_view(imports@) == before,
            before.len() == imports.len(),
            forall|j: int| 0 <= j < k ==> (#[trigger] before[j]).tag_name != entry.tag_name@,
        decreases imports.len() - k,
    {
        assert(before[k as int] == imports@[k as int]@);
        k += 1;
    }
    proof {
        if k < imports.len() {
            assert(before[k as int] == imports@[k as int]@);
        }
        lemma_position_is(before, entry.tag_name@, k as int);
    }
    if k < imports.len() {
        imports.remove(k);
        imports.insert(k, entry);
    } else {
        imports.push(entry);
    }
    assert(imports_view(imports@) =~= recorded(before, entry@));
}

/// A copy of `imports`.
fn clone_imports(imports: &Vec<Import>) -> (copy: Vec<Import>)
    ensures
        imports_view(copy@) == imports_view(imports@),
{
    let mut copy: Vec<Import> = Vec::new();
    let mut i: usize = 0;
    while i < imports.len()
        invariant
            i <= imports.len(),
            copy@.len() == i,
            forall|k: int| 0 <= k < i ==> copy@[k]@ == imports@[k]@,
        decreases imports.len() - i,
    {
        let e = &imports[i];
        copy.push(Import { tag_name: e.tag_name.clone(), source_path: e.source_path.clone() });
        i += 1;
    }
    assert(imports_view(copy@) =~= imports_view(imports@));
    copy
}

/// Reads the import declarations of `html`, seen from the directory
/// `component_base_path`, into `imported_components`, and takes every
/// comment that holds the word `import` out of `html`, whether or not its
/// lines declare anything.
///
/// The comments are read in document order, each line by line. A line that
/// holds the word must read `import '<path>'`, whitespace aside, with a path
/// that is not empty, holds no quote and ends in a file name; its import
/// takes the place of an earlier one under the same tag, or goes to the end.
/// The first line that holds the word and declares nothing is returned as
/// the error, and then `imported_components` stays as it was.
pub fn get_imported_component_paths(
    html: &mut Document,
    imported_components: &mut Vec<Import>,
    component_base_path: &str,
) -> (result: Result<(), ImportError>)
    ensures
        final(html)@ == without_import_comments(old(html)@),
        match result {
            Ok(_) => resolved_imports(
                old(html)@,
                component_base_path@,
                imports_view(old(imported_components)@),
            ) == Ok::<Seq<ImportView>, Seq<char>>(imports_view(final(imported_components)@)),
            Err(e) => {
                &&& resolved_imports(
                    old(html)@,
                    component_base_path@,
                    imports_view(old(imported_components)@),
                ) == Err::<Seq<ImportView>, Seq<char>>(e.line@)
                &&& *final(imported_components) == *old(imported_components)
            },
        },
{
    let w = word();
    let base = to_chars(component_base_path);
    let mut comments: Vec<Vec<char>> = Vec::new();
    collect_comments(&html.children, &w, &mut comments);
    let ghost texts = import_comments(html@);
    let ghost goal = resolved_imports(html@, base@, imports_view(imported_components@));
    let mut pending = clone_imports(imported_components);
    let mut c: usize = 0;
    proof {
        assert(texts.skip(0) == texts);
        assert forall|k: int| 0 <= k < texts.len() implies (#[trigger] comments@[k])@
            == texts[k] by {
            assert(comments@[0 + k]@ == texts[k]);
        }
    }
    while c < comments.len()
        invariant
            c <= comments.len(),
            *html == *old(html),
            *imported_components == *old(imported_components),
            goal == resolved_imports(
                old(html)@,
                component_base_path@,
                imports_view(old(imported_components)@),
            ),
            w@ == import_word(),
            comments@.len() == texts.len(),
            forall|k: int| 0 <= k < texts.len() ==> (#[trigger] comments@[k])@ == texts[k],
            declared(declaration_lines(texts.skip(c as int)), base@, imports_view(pending@))
                == goal,
        decreases comments.len() - c,
    {
        let pieces = split_chars(&comments[c], '\n');
        let ghost all = lines(comments@[c as int]@);
        let ghost after = declaration_lines(texts.skip(c + 1));
        proof {
            assert(texts.skip(c as int).skip(1) == texts.skip(c + 1));
            assert(texts.skip(c as int)[0] == comments@[c as int]@);
            assert(all.skip(0) == all);
        }
        let mut p: usize = 0;
        while p < pieces.len()
            invariant
                p <= pieces.len(),
                *html == *old(html),
                *imported_components == *old(imported_components),
                goal == resolved_imports(
                    old(html)@,
                    component_base_path@,
                    imports_view(old(imported_components)@),
                ),
                w@ == import_word(),
                pieces@.len() == all.len(),
                forall|k: int| 0 <= k < all.len() ==> (#[trigger] pieces@[k])@ == all[k],
                declared(with_import(all.skip(p as int)) + after, base@, imports_view(pending@))
                    == goal,
            decreases pieces.len() - p,
        {
            let ghost rest = all.skip(p as int);
            proof {
                assert(rest.skip(1) == all.skip(p + 1));
                assert(rest[0] == pieces@[p as int]@);
            }
            if contains_chars(&pieces[p], &w) {
                let ghost ahead = with_import(rest) + after;
                proof {
                    assert(ahead[0] == rest[0]);
                    assert(ahead.skip(1) == with_import(all.skip(p + 1)) + after);
                }
                match declaration_of(&pieces[p], &base) {
                    None => {
                        let line = from_chars(&pieces[p]);
                        let children = strip_comments(&html.children, &w);
                        html.children = children;
                        return Err(ImportError { line });
                    },
                    Some(entry) => {
                        record(&mut pending, entry);
                    },
                }
            }
            p += 1;
        }
        proof {
            assert(with_import(all.skip(all.len() as int)) + after == after);
        }
        c += 1;
    }
    let children = strip_comments(&html.children, &w);
    html.children = children;
    *imported_components = pending;
    Ok(())
}

} // verus!
