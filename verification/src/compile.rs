//! The compiler: from an entry file and the components it imports to one
//! flat document with its style and script text.

use crate::component::{
    merged_css, merged_js, replace_component, replacements_view, spliced, used, Replacement,
    ReplacementView,
};
use crate::dom::{
    clone_nodes, lacks, lemma_first_selected_lacks, lemma_lacks_add, lemma_lacks_cons,
    lemma_lacks_parts, nodes_view, select, select_nodes, Document, Node, NodeView,
};
use crate::extract::{
    block_text, extract_blocks, lemma_nothing_left, lemma_nothing_to_extract, without_tag,
};
use crate::imports::{
    get_imported_component_paths, import_comments, imports_view, lemma_import_comments_add,
    lemma_no_import_comments, resolved_imports, without_import_comments, Import, ImportView,
};
use crate::parse::{can_parse, document_of, parsable, parse, parsed_outline};
use crate::path::{directory, parent_dir};
use crate::props::{
    component_props, filled, filled_attributes, get_component_props, lemma_with_no_props,
    replace_props, with_props, PropView, Props,
};
use crate::text::{lowered, same_text};
use vstd::prelude::*;
use vstd::string::StringExecFns;

verus! {

/// A file as it was read: its path and its text.
#[derive(Debug, PartialEq, Eq)]
pub struct Source {
    pub path: String,
    pub html: String,
}

/// A parsed file: its path and its document.
#[derive(Debug, PartialEq, Eq)]
pub struct Component {
    pub path: String,
    pub document: Document,
}

/// What a file compiles to.
#[derive(Debug, PartialEq, Eq)]
pub struct Output {
    pub html: Document,
    pub css: String,
    pub js: String,
}

/// Why a file does not compile. Each error names the file at fault.
#[derive(Debug, PartialEq, Eq)]
pub enum CompileError {
    /// No file is known under the path.
    NotFound { path: String },
    /// A line of the file holds the word `import` and declares nothing.
    MalformedImport { path: String, line: String },
    /// The file is used as a component and compiles to a document without
    /// a `body` element.
    MissingBody { path: String },
    /// The file is used, directly or through others, inside itself.
    Cycle { path: String },
    /// The text of the file is too long for the parser.
    TooLong { path: String },
}

/// What a [`Source`] stands for.
pub struct SourceView {
    pub path: Seq<char>,
    pub html: Seq<char>,
}

/// What a [`Component`] stands for.
pub struct ComponentView {
    pub path: Seq<char>,
    pub document: Seq<NodeView>,
}

/// What an [`Output`] stands for.
pub struct OutputView {
    pub html: Seq<NodeView>,
    pub css: Seq<char>,
    pub js: Seq<char>,
}

/// What a [`CompileError`] stands for.
pub enum CompileErrorView {
    NotFound { path: Seq<char> },
    MalformedImport { path: Seq<char>, line: Seq<char> },
    MissingBody { path: Seq<char> },
    Cycle { path: Seq<char> },
    TooLong { path: Seq<char> },
}

impl View for Source {
    type V = SourceView;

    open spec fn view(&self) -> SourceView {
        SourceView { path: self.path@, html: self.html@ }
    }
}

impl View for Component {
    type V = ComponentView;

    open spec fn view(&self) -> ComponentView {
        ComponentView { path: self.path@, document: self.document@ }
    }
}

impl View for Output {
    type V = OutputView;

    open spec fn view(&self) -> OutputView {
        OutputView { html: self.html@, css: self.css@, js: self.js@ }
    }
}

impl View for CompileError {
    type V = CompileErrorView;

    open spec fn view(&self) -> CompileErrorView {
        match *self {
            CompileError::NotFound { path } => CompileErrorView::NotFound { path: path@ },
            CompileError::MalformedImport { path, line } => CompileErrorView::MalformedImport {
                path: path@,
                line: line@,
            },
            CompileError::MissingBody { path } => CompileErrorView::MissingBody { path: path@ },
            CompileError::Cycle { path } => CompileErrorView::Cycle { path: path@ },
            CompileError::TooLong { path } => CompileErrorView::TooLong { path: path@ },
        }
    }
}

/// Why the file at fault does not compile, in words.
pub open spec fn cause_of(error: CompileErrorView) -> Seq<char> {
    match error {
        CompileErrorView::NotFound { path } => "No such file or directory"@,
        CompileErrorView::MalformedImport { path, line } => "Not an import declaration: "@ + line,
        CompileErrorView::MissingBody { path } => "The component has no body element"@,
        CompileErrorView::Cycle { path } => "The component is used inside itself"@,
        CompileErrorView::TooLong { path } => "The file is too long to parse"@,
    }
}

/// The file at fault.
pub open spec fn path_of(error: CompileErrorView) -> Seq<char> {
    match error {
        CompileErrorView::NotFound { path } => path,
        CompileErrorView::MalformedImport { path, line } => path,
        CompileErrorView::MissingBody { path } => path,
        CompileErrorView::Cycle { path } => path,
        CompileErrorView::TooLong { path } => path,
    }
}

impl CompileError {
    /// The path of the file at fault.
    pub fn path(&self) -> (path: &String)
        ensures
            path@ == path_of(self@),
    {
        match self {
            CompileError::NotFound { path } => path,
            CompileError::MalformedImport { path, line } => path,
            CompileError::MissingBody { path } => path,
            CompileError::Cycle { path } => path,
            CompileError::TooLong { path } => path,
        }
    }

    /// What went wrong, in words.
    pub fn cause(&self) -> (cause: String)
        ensures
            cause@ == cause_of(self@),
    {
        match self {
            CompileError::NotFound { path } => String::from_str("No such file or directory"),
            CompileError::MalformedImport { path, line } => {
                let mut cause = String::from_str("Not an import declaration: ");
                cause.append(line.as_str());
                cause
            },
            CompileError::MissingBody { path } => String::from_str(
                "The component has no body element",
            ),
            CompileError::Cycle { path } => String::from_str("The component is used inside itself"),
            CompileError::TooLong { path } => String::from_str("The file is too long to parse"),
        }
    }
}

/// The views of a sequence of components.
pub open spec fn components_view(components: Seq<Component>) -> Seq<ComponentView> {
    Seq::new(components.len(), |i: int| components[i]@)
}

/// The views of a sequence of sources.
pub open spec fn sources_view(sources: Seq<Source>) -> Seq<SourceView> {
    Seq::new(sources.len(), |i: int| sources[i]@)
}

/// The texts that `paths` hold.
pub open spec fn paths_view(paths: Seq<String>) -> Seq<Seq<char>> {
    Seq::new(paths.len(), |i: int| paths[i]@)
}

/// The view of a result of compiling.
pub open spec fn result_view(result: Result<Output, CompileError>) -> Result<
    OutputView,
    CompileErrorView,
> {
    match result {
        Ok(output) => Ok(output@),
        Err(error) => Err(error@),
    }
}

/// The tag of the elements that hold style text.
pub open spec fn style_word() -> Seq<char> {
    seq!['s', 't', 'y', 'l', 'e']
}

/// The tag of the elements that hold script text.
pub open spec fn script_word() -> Seq<char> {
    seq!['s', 'c', 'r', 'i', 'p', 't']
}

/// The tag of the element whose children a component hands to its usages.
pub open spec fn body_word() -> Seq<char> {
    seq!['b', 'o', 'd', 'y']
}

/// The document of the first component under `path`.
pub open spec fn lookup(components: Seq<ComponentView>, path: Seq<char>) -> Option<Seq<NodeView>>
    decreases components.len(),
{
    if components.len() == 0 {
        None
    } else if components[0].path == path {
        Some(components[0].document)
    } else {
        lookup(components.skip(1), path)
    }
}

/// The number of components whose path is not among `active`.
pub open spec fn unvisited(components: Seq<ComponentView>, active: Seq<Seq<char>>) -> nat
    decreases components.len(),
{
    if components.len() == 0 {
        0
    } else if active.contains(components[0].path) {
        unvisited(components.skip(1), active)
    } else {
        1 + unvisited(components.skip(1), active)
    }
}

/// The children of the first `body` element of `nodes`.
pub open spec fn body_children(nodes: Seq<NodeView>) -> Option<Seq<NodeView>> {
    let found = select(nodes, body_word());
    if found.len() > 0 {
        match found[0] {
            NodeView::Element { tag, attributes, children } => Some(children),
            _ => None,
        }
    } else {
        None
    }
}

/// The path of the first of `sources` whose text is too long for the
/// parser.
pub open spec fn first_too_long(sources: Seq<SourceView>) -> Option<Seq<char>>
    decreases sources.len(),
{
    if sources.len() == 0 {
        None
    } else if !parsable(sources[0].html) {
        Some(sources[0].path)
    } else {
        first_too_long(sources.skip(1))
    }
}

/// What compiling from `sources` gives: `TooLong` for the first source
/// whose text the parser cannot take, and else what the parsed files compile
/// to.
pub open spec fn compiled(
    sources: Seq<SourceView>,
    path: Seq<char>,
    props: Seq<PropView>,
) -> Result<OutputView, CompileErrorView> {
    match first_too_long(sources) {
        Some(long) => Err(CompileErrorView::TooLong { path: long }),
        None => built(parsed(sources), path, props, Seq::empty()),
    }
}

/// The components that `sources` parse to.
pub open spec fn parsed(sources: Seq<SourceView>) -> Seq<ComponentView> {
    Seq::new(
        sources.len(),
        |i: int|
            ComponentView {
                path: sources[i].path,
                document: document_of(parsed_outline(sources[i].html)),
            },
    )
}

/// Entering a known file that is not active leaves fewer files unvisited.
pub proof fn lemma_unvisited_decreases(
    components: Seq<ComponentView>,
    path: Seq<char>,
    active: Seq<Seq<char>>,
)
    ensures
        unvisited(components, active.push(path)) <= unvisited(components, active),
        lookup(components, path) is Some && !active.contains(path) ==> unvisited(
            components,
            active.push(path),
        ) < unvisited(components, active),
    decreases components.len(),
{
    if components.len() > 0 {
        lemma_unvisited_decreases(components.skip(1), path, active);
        let deeper = active.push(path);
        let p = components[0].path;
        if active.contains(p) {
            let k = choose|k: int| 0 <= k < active.len() && active[k] == p;
            assert(deeper[k] == p);
        }
        if p == path {
            assert(deeper[active.len() as int] == p);
        }
    }
}

/// What the file under `path` compiles to with the props `props`, while
/// the files `active` are being compiled around it.
///
/// The style blocks and then the script blocks are taken out of the
/// document of the file; the props are filled in; the import declarations
/// are read, seen from the directory of the file, and their comments taken
/// out; then the imports are inlined one after another.
pub open spec fn built(
    components: Seq<ComponentView>,
    path: Seq<char>,
    props: Seq<PropView>,
    active: Seq<Seq<char>>,
) -> Result<OutputView, CompileErrorView>
    decreases unvisited(components, active), 0nat, 0nat,
{
    if active.contains(path) {
        Err(CompileErrorView::Cycle { path })
    } else {
        match lookup(components, path) {
            None => Err(CompileErrorView::NotFound { path }),
            Some(document) => {
                let css = block_text(document, style_word());
                let styled = without_tag(document, style_word());
                let js = block_text(styled, script_word());
                let plain = without_tag(styled, script_word());
                let filled = with_props(plain, props);
                match resolved_imports(filled, directory(path), Seq::empty()) {
                    Err(line) => Err(CompileErrorView::MalformedImport { path, line }),
                    Ok(imports) => {
                        proof {
                            lemma_unvisited_decreases(components, path, active);
                        }
                        inlined(
                            components,
                            OutputView { html: without_import_comments(filled), css, js },
                            imports,
                            active.push(path),
                        )
                    },
                }
            },
        }
    }
}

/// `output` after the usages of each of `imports` are replaced, one import
/// after another, by what its file compiles to. The usages of an import are
/// the elements whose tag is its tag name in ASCII lower case, in the
/// document as the imports before it left it; what they bring as style and
/// script text is appended.
pub open spec fn inlined(
    components: Seq<ComponentView>,
    output: OutputView,
    imports: Seq<ImportView>,
    active: Seq<Seq<char>>,
) -> Result<OutputView, CompileErrorView>
    decreases unvisited(components, active), 2nat, imports.len(),
{
    if imports.len() == 0 {
        Ok(output)
    } else {
        let tag = lowered(imports[0].tag_name);
        let usages = select(output.html, tag);
        match replacements_for(components, usages, imports[0].source_path, active) {
            Err(error) => Err(error),
            Ok(replacements) => inlined(
                components,
                OutputView {
                    html: spliced(output.html, tag, replacements, 0),
                    css: output.css + merged_css(Seq::empty(), replacements),
                    js: output.js + merged_js(Seq::empty(), replacements),
                },
                imports.skip(1),
                active,
            ),
        }
    }
}

/// One replacement for each of `usages`, in order: the file under `path`
/// compiled with the attributes of the usage as props, and of that the
/// children of its `body` element.
pub open spec fn replacements_for(
    components: Seq<ComponentView>,
    usages: Seq<NodeView>,
    path: Seq<char>,
    active: Seq<Seq<char>>,
) -> Result<Seq<ReplacementView>, CompileErrorView>
    decreases unvisited(components, active), 1nat, usages.len(),
{
    if usages.len() == 0 {
        Ok(Seq::empty())
    } else {
        match built(components, path, component_props(usages[0], Seq::empty()), active) {
            Err(error) => Err(error),
            Ok(output) => match body_children(output.html) {
                None => Err(CompileErrorView::MissingBody { path }),
                Some(nodes) => match replacements_for(components, usages.skip(1), path, active) {
                    Err(error) => Err(error),
                    Ok(rest) => Ok(
                        seq![ReplacementView { nodes, css: output.css, js: output.js }] + rest,
                    ),
                },
            },
        }
    }
}

/// The replacement for one usage, where the component compiles for it and
/// has a `body` element.
pub open spec fn replacement_for(
    components: Seq<ComponentView>,
    usage: NodeView,
    path: Seq<char>,
    active: Seq<Seq<char>>,
) -> Option<ReplacementView> {
    match built(components, path, component_props(usage, Seq::empty()), active) {
        Err(error) => None,
        Ok(output) => match body_children(output.html) {
            None => None,
            Some(nodes) => Some(ReplacementView { nodes, css: output.css, js: output.js }),
        },
    }
}

/// There is one replacement for each usage.
pub proof fn lemma_replacements_len(
    components: Seq<ComponentView>,
    usages: Seq<NodeView>,
    path: Seq<char>,
    active: Seq<Seq<char>>,
)
    ensures
        replacements_for(components, usages, path, active) matches Ok(r) ==> r.len()
            == usages.len(),
    decreases usages.len(),
{
    if usages.len() > 0 {
        lemma_replacements_len(components, usages.skip(1), path, active);
    }
}

/// Whether `path` is among `active`.
fn is_active(active: &Vec<String>, path: &str) -> (found: bool)
    ensures
        found == paths_view(active@).contains(path@),
{
    let ghost all = paths_view(active@);
    let mut i: usize = 0;
    while i < active.len()
        invariant
            i <= active.len(),
            all == paths_view(active@),
            forall|k: int| 0 <= k < i ==> all[k] != path@,
        decreases active.len() - i,
    {
        if same_text(active[i].as_str(), path) {
            assert(all[i as int] == path@);
            return true;
        }
        i += 1;
    }
    false
}

/// The first component under `path`.
fn find<'a>(components: &'a Vec<Component>, path: &str) -> (found: Option<&'a Component>)
    ensures
        match found {
            Some(c) => lookup(components_view(components@), path@) == Some(c.document@),
            None => lookup(components_view(components@), path@) is None,
        },
{
    let ghost all = components_view(components@);
    let mut i: usize = 0;
    assert(all.skip(0) == all);
    while i < components.len()
        invariant
            i <= components.len(),
            all == components_view(components@),
            lookup(all.skip(i as int), path@) == lookup(all, path@),
        decreases components.len() - i,
    {
        proof {
            assert(all.skip(i as int).skip(1) == all.skip(i + 1));
            assert(all.skip(i as int)[0] == components@[i as int]@);
        }
        if same_text(components[i].path.as_str(), path) {
            return Some(&components[i]);
        }
        i += 1;
    }
    None
}

/// The children of the first `body` element of `nodes`.
fn body_of(nodes: &Vec<Node>) -> (body: Option<Vec<Node>>)
    ensures
        match body {
            Some(b) => body_children(nodes_view(nodes@)) == Some(nodes_view(b@)),
            None => body_children(nodes_view(nodes@)) is None,
        },
{
    proof {
        reveal_strlit("body");
        assert(lowered("body"@) =~= body_word());
    }
    let found = select_nodes(nodes, "body");
    if found.len() == 0 {
        return None;
    }
    match found[0] {
        Node::Element { tag, attributes, children } => Some(clone_nodes(children)),
        _ => None,
    }
}

/// What the file under `path` compiles to.
fn build(components: &Vec<Component>, path: &str, props: &Props, active: &Vec<String>) -> (result:
    Result<Output, CompileError>)
    ensures
        result_view(result) == built(
            components_view(components@),
            path@,
            props@,
            paths_view(active@),
        ),
    decreases unvisited(components_view(components@), paths_view(active@)), 0nat, 0nat,
{
    if is_active(active, path) {
        return Err(CompileError::Cycle { path: path.to_owned() });
    }
    let component = match find(components, path) {
        None => {
            return Err(CompileError::NotFound { path: path.to_owned() });
        },
        Some(c) => c,
    };
    proof {
        reveal_strlit("style");
        reveal_strlit("script");
        assert(lowered("style"@) =~= style_word());
        assert(lowered("script"@) =~= script_word());
    }
    let mut html = Document { children: clone_nodes(&component.document.children) };
    let css = extract_blocks(&mut html, "style");
    let js = extract_blocks(&mut html, "script");
    replace_props(&mut html, props);
    let base = parent_dir(path);
    let mut imports: Vec<Import> = Vec::new();
    assert(imports_view(imports@) =~= Seq::<ImportView>::empty());
    match get_imported_component_paths(&mut html, &mut imports, base.as_str()) {
        Err(e) => {
            return Err(CompileError::MalformedImport { path: path.to_owned(), line: e.line });
        },
        Ok(_) => {},
    }
    let mut deeper: Vec<String> = Vec::new();
    let mut i: usize = 0;
    while i < active.len()
        invariant
            i <= active.len(),
            deeper@.len() == i,
            forall|k: int| 0 <= k < i ==> deeper@[k]@ == active@[k]@,
        decreases active.len() - i,
    {
        deeper.push(active[i].clone());
        i += 1;
    }
    deeper.push(path.to_owned());
    proof {
        assert(paths_view(deeper@) =~= paths_view(active@).push(path@));
        lemma_unvisited_decreases(components_view(components@), path@, paths_view(active@));
    }
    inline(components, Output { html, css, js }, &imports, &deeper)
}

/// `output` after the usages of each of `imports` are replaced.
fn inline(
    components: &Vec<Component>,
    output: Output,
    imports: &Vec<Import>,
    active: &Vec<String>,
) -> (result: Result<Output, CompileError>)
    ensures
        result_view(result) == inlined(
            components_view(components@),
            output@,
            imports_view(imports@),
            paths_view(active@),
        ),
    decreases unvisited(components_view(components@), paths_view(active@)), 2nat, imports.len(),
{
    let ghost all = imports_view(imports@);
    let ghost cs = components_view(components@);
    let ghost stack = paths_view(active@);
    let ghost goal = inlined(cs, output@, all, stack);
    let mut current = output;
    let mut i: usize = 0;
    assert(all.skip(0) == all);
    while i < imports.len()
        invariant
            i <= imports.len(),
            all == imports_view(imports@),
            cs == components_view(components@),
            stack == paths_view(active@),
            goal == inlined(cs, output@, all, stack),
            inlined(cs, current@, all.skip(i as int), stack) == goal,
        decreases imports.len() - i,
    {
        let import = &imports[i];
        let ghost before = current@;
        let ghost tag = lowered(import.tag_name@);
        let ghost usages_view = select(before.html, tag);
        proof {
            assert(all.skip(i as int).skip(1) == all.skip(i + 1));
            assert(all.skip(i as int)[0] == import@);
        }
        let usages = select_nodes(&current.html.children, import.tag_name.as_str());
        let replacements = match replacements_of(
            components,
            &usages,
            import.source_path.as_str(),
            active,
            Ghost(usages_view),
        ) {
            Err(e) => {
                assert(inlined(cs, before, all.skip(i as int), stack) == Err::<
                    OutputView,
                    CompileErrorView,
                >(e@));
                return Err(e);
            },
            Ok(r) => r,
        };
        proof {
            lemma_replacements_len(cs, usages_view, import.source_path@, stack);
            assert(used(before.html, tag, replacements_view(replacements@)) == replacements_view(
                replacements@,
            ));
        }
        let (css, js) = replace_component(
            import.tag_name.as_str(),
            &mut current.html,
            &replacements,
        );
        current.css.append(css.as_str());
        current.js.append(js.as_str());
        i += 1;
    }
    Ok(current)
}

/// One replacement for each of `usages`.
fn replacements_of(
    components: &Vec<Component>,
    usages: &Vec<&Node>,
    path: &str,
    active: &Vec<String>,
    Ghost(views): Ghost<Seq<NodeView>>,
) -> (result: Result<Vec<Replacement>, CompileError>)
    requires
        usages@.len() == views.len(),
        forall|k: int| 0 <= k < usages@.len() ==> (*#[trigger] usages@[k])@ == views[k],
    ensures
        match result {
            Ok(r) => replacements_for(
                components_view(components@),
                views,
                path@,
                paths_view(active@),
            ) == Ok::<Seq<ReplacementView>, CompileErrorView>(replacements_view(r@)),
            Err(e) => replacements_for(
                components_view(components@),
                views,
                path@,
                paths_view(active@),
            ) == Err::<Seq<ReplacementView>, CompileErrorView>(e@),
        },
    decreases unvisited(components_view(components@), paths_view(active@)), 1nat, usages.len(),
{
    let ghost cs = components_view(components@);
    let ghost stack = paths_view(active@);
    let mut replacements: Vec<Replacement> = Vec::new();
    let mut k: usize = 0;
    while k < usages.len()
        invariant
            k <= usages.len(),
            cs == components_view(components@),
            stack == paths_view(active@),
            usages@.len() == views.len(),
            forall|j: int| 0 <= j < usages@.len() ==> (*#[trigger] usages@[j])@ == views[j],
            replacements@.len() == k,
            forall|j: int|
                0 <= j < k ==> replacement_for(cs, views[j], path@, stack) == Some(
                    (#[trigger] replacements@[j])@,
                ),
            forall|j: int|
                0 <= j < k ==> replacement_for(cs, #[trigger] views[j], path@, stack) is Some,
        decreases usages.len() - k,
    {
        let mut props = Props::new();
        get_component_props(usages[k], &mut props);
        let output = match build(components, path, &props, active) {
            Err(e) => {
                proof {
                    lemma_first_failure(cs, views, path@, stack, k as int);
                }
                return Err(e);
            },
            Ok(o) => o,
        };
        let nodes = match body_of(&output.html.children) {
            None => {
                proof {
                    lemma_first_failure(cs, views, path@, stack, k as int);
                }
                return Err(CompileError::MissingBody { path: path.to_owned() });
            },
            Some(nodes) => nodes,
        };
        replacements.push(Replacement { nodes, css: output.css, js: output.js });
        k += 1;
    }
    proof {
        assert forall|j: int| 0 <= j < views.len() implies replacement_for(
            cs,
            views[j],
            path@,
            stack,
        ) == Some(#[trigger] replacements_view(replacements@)[j]) by {
            assert(replacements_view(replacements@)[j] == replacements@[j]@);
        }
        lemma_all_built(cs, views, path@, stack, replacements_view(replacements@));
    }
    Ok(replacements)
}

/// What `replacements_for` gives where the first `k` usages have a
/// replacement and the next one has none.
pub proof fn lemma_first_failure(
    components: Seq<ComponentView>,
    usages: Seq<NodeView>,
    path: Seq<char>,
    active: Seq<Seq<char>>,
    k: int,
)
    requires
        0 <= k < usages.len(),
        forall|j: int|
            0 <= j < k ==> replacement_for(components, #[trigger] usages[j], path, active) is Some,
        replacement_for(components, usages[k], path, active) is None,
    ensures
        replacements_for(components, usages, path, active) == (match built(
            components,
            path,
            component_props(usages[k], Seq::empty()),
            active,
        ) {
            Err(e) => Err::<Seq<ReplacementView>, CompileErrorView>(e),
            Ok(o) => Err(CompileErrorView::MissingBody { path }),
        }),
    decreases k,
{
    if k > 0 {
        let rest = usages.skip(1);
        assert(replacement_for(components, usages[0], path, active) is Some);
        assert forall|j: int| 0 <= j < k - 1 implies replacement_for(
            components,
            #[trigger] rest[j],
            path,
            active,
        ) is Some by {
            assert(rest[j] == usages[j + 1]);
        }
        assert(rest[k - 1] == usages[k]);
        lemma_first_failure(components, rest, path, active, k - 1);
    }
}

/// What `replacements_for` gives where every usage has a replacement.
pub proof fn lemma_all_built(
    components: Seq<ComponentView>,
    usages: Seq<NodeView>,
    path: Seq<char>,
    active: Seq<Seq<char>>,
    replacements: Seq<ReplacementView>,
)
    requires
        replacements.len() == usages.len(),
        forall|j: int|
            0 <= j < usages.len() ==> replacement_for(components, usages[j], path, active) == Some(
                #[trigger] replacements[j],
            ),
    ensures
        replacements_for(components, usages, path, active) == Ok::<
            Seq<ReplacementView>,
            CompileErrorView,
        >(replacements),
    decreases usages.len(),
{
    if usages.len() == 0 {
        assert(replacements =~= Seq::<ReplacementView>::empty());
    } else {
        let rest = usages.skip(1);
        let tail = replacements.skip(1);
        assert(replacement_for(components, usages[0], path, active) == Some(replacements[0]));
        assert forall|j: int| 0 <= j < rest.len() implies replacement_for(
            components,
            rest[j],
            path,
            active,
        ) == Some(#[trigger] tail[j]) by {
            assert(rest[j] == usages[j + 1]);
            assert(tail[j] == replacements[j + 1]);
        }
        lemma_all_built(components, rest, path, active, tail);
        assert(seq![replacements[0]] + tail =~= replacements);
    }
}

/// Filling in props changes no comment.
pub proof fn lemma_props_keep_comments(nodes: Seq<NodeView>, props: Seq<PropView>)
    ensures
        import_comments(with_props(nodes, props)) == import_comments(nodes),
    decreases nodes,
{
    if nodes.len() > 0 {
        let rest = with_props(nodes.skip(1), props);
        let none = Seq::<Seq<char>>::empty();
        lemma_props_keep_comments(nodes.skip(1), props);
        let one = match nodes[0] {
            NodeView::Element { tag, attributes, children } => NodeView::Element {
                tag,
                attributes: filled_attributes(attributes, props),
                children: with_props(children, props),
            },
            NodeView::Text(text) => NodeView::Text(filled(text, props)),
            _ => nodes[0],
        };
        match nodes[0] {
            NodeView::Element { tag, attributes, children } => {
                lemma_props_keep_comments(children, props);
            },
            _ => {},
        }
        let single = seq![one];
        assert(single[0] == one);
        assert(single.skip(1) == Seq::<NodeView>::empty());
        assert(import_comments(single.skip(1)) == none);
        lemma_import_comments_add(single, rest);
        match nodes[0] {
            NodeView::Element { tag, attributes, children } => {
                assert(import_comments(children) + none == import_comments(children));
            },
            NodeView::Comment(text) => {
                assert(seq![text] + none == seq![text]);
            },
            _ => {
                assert(none + import_comments(nodes.skip(1)) == import_comments(nodes.skip(1)));
            },
        }
    }
}

/// A file without `style` and `script` elements and without import
/// comments compiles to its own document, with the props filled in, and to
/// no style and no script text. Without props the document is unchanged.
pub proof fn lemma_plain_file(
    components: Seq<ComponentView>,
    path: Seq<char>,
    props: Seq<PropView>,
    document: Seq<NodeView>,
)
    requires
        lookup(components, path) == Some(document),
        select(document, style_word()).len() == 0,
        select(document, script_word()).len() == 0,
        import_comments(document).len() == 0,
    ensures
        built(components, path, props, Seq::empty()) == Ok::<OutputView, CompileErrorView>(
            OutputView {
                html: with_props(document, props),
                css: Seq::empty(),
                js: Seq::empty(),
            },
        ),
        props.len() == 0 ==> with_props(document, props) == document,
{
    let active = Seq::<Seq<char>>::empty();
    lemma_nothing_to_extract(document, style_word());
    lemma_nothing_to_extract(document, script_word());
    let filled = with_props(document, props);
    lemma_props_keep_comments(document, props);
    lemma_no_import_comments(filled);
    assert(import_comments(filled) =~= Seq::<Seq<char>>::empty());
    assert(resolved_imports(filled, directory(path), Seq::empty()) == Ok::<
        Seq<ImportView>,
        Seq<char>,
    >(Seq::empty()));
    let output = OutputView { html: filled, css: Seq::empty(), js: Seq::empty() };
    assert(inlined(components, output, Seq::empty(), active.push(path)) == Ok::<
        OutputView,
        CompileErrorView,
    >(output));
    if props.len() == 0 {
        assert(props =~= Seq::<PropView>::empty());
        lemma_with_no_props(document);
    }
}

/// Taking elements out brings no element in.
pub proof fn lemma_without_tag_lacks(nodes: Seq<NodeView>, removed: Seq<char>, tag: Seq<char>)
    requires
        lacks(nodes, tag),
    ensures
        lacks(without_tag(nodes, removed), tag),
    decreases nodes,
{
    if nodes.len() > 0 {
        lemma_lacks_parts(nodes, tag);
        let rest = without_tag(nodes.skip(1), removed);
        lemma_without_tag_lacks(nodes.skip(1), removed, tag);
        match nodes[0] {
            NodeView::Element { tag: t, attributes, children } => {
                if t != removed {
                    lemma_without_tag_lacks(children, removed, tag);
                    let kept = NodeView::Element {
                        tag: t,
                        attributes,
                        children: without_tag(children, removed),
                    };
                    lemma_lacks_cons(kept, rest, tag);
                }
            },
            _ => {
                lemma_lacks_cons(nodes[0], rest, tag);
            },
        }
    }
}

/// Filling in props brings no element in.
pub proof fn lemma_with_props_lacks(nodes: Seq<NodeView>, props: Seq<PropView>, tag: Seq<char>)
    requires
        lacks(nodes, tag),
    ensures
        lacks(with_props(nodes, props), tag),
    decreases nodes,
{
    if nodes.len() > 0 {
        lemma_lacks_parts(nodes, tag);
        let rest = with_props(nodes.skip(1), props);
        lemma_with_props_lacks(nodes.skip(1), props, tag);
        match nodes[0] {
            NodeView::Element { tag: t, attributes, children } => {
                lemma_with_props_lacks(children, props, tag);
                let kept = NodeView::Element {
                    tag: t,
                    attributes: filled_attributes(attributes, props),
                    children: with_props(children, props),
                };
                lemma_lacks_cons(kept, rest, tag);
            },
            NodeView::Text(text) => {
                lemma_lacks_cons(NodeView::Text(filled(text, props)), rest, tag);
            },
            _ => {
                lemma_lacks_cons(nodes[0], rest, tag);
            },
        }
    }
}

/// Taking import comments out brings no element in.
pub proof fn lemma_without_import_comments_lacks(nodes: Seq<NodeView>, tag: Seq<char>)
    requires
        lacks(nodes, tag),
    ensures
        lacks(without_import_comments(nodes), tag),
    decreases nodes,
{
    if nodes.len() > 0 {
        lemma_lacks_parts(nodes, tag);
        let rest = without_import_comments(nodes.skip(1));
        lemma_without_import_comments_lacks(nodes.skip(1), tag);
        match nodes[0] {
            NodeView::Element { tag: t, attributes, children } => {
                lemma_without_import_comments_lacks(children, tag);
                let kept = NodeView::Element {
                    tag: t,
                    attributes,
                    children: without_import_comments(children),
                };
                lemma_lacks_cons(kept, rest, tag);
            },
            _ => {
                lemma_lacks_cons(nodes[0], rest, tag);
            },
        }
    }
}

/// Replacing usages by nodes that lack a tag, in a document that lacks it,
/// gives a document that lacks it.
pub proof fn lemma_spliced_lacks(
    nodes: Seq<NodeView>,
    usage: Seq<char>,
    replacements: Seq<ReplacementView>,
    first: nat,
    tag: Seq<char>,
)
    requires
        lacks(nodes, tag),
        forall|k: int| 0 <= k < replacements.len() ==> lacks((#[trigger] replacements[k]).nodes, tag),
    ensures
        lacks(spliced(nodes, usage, replacements, first), tag),
    decreases nodes,
{
    if nodes.len() > 0 {
        lemma_lacks_parts(nodes, tag);
        match nodes[0] {
            NodeView::Element { tag: t, attributes, children } => {
                let inner = select(children, usage).len();
                if t == usage {
                    let rest = spliced(nodes.skip(1), usage, replacements, first + 1 + inner);
                    lemma_spliced_lacks(nodes.skip(1), usage, replacements, first + 1 + inner, tag);
                    if first < replacements.len() {
                        lemma_lacks_add(replacements[first as int].nodes, rest, tag);
                    } else {
                        lemma_lacks_cons(nodes[0], rest, tag);
                    }
                } else {
                    let rest = spliced(nodes.skip(1), usage, replacements, first + inner);
                    lemma_spliced_lacks(nodes.skip(1), usage, replacements, first + inner, tag);
                    lemma_spliced_lacks(children, usage, replacements, first, tag);
                    let kept = NodeView::Element {
                        tag: t,
                        attributes,
                        children: spliced(children, usage, replacements, first),
                    };
                    lemma_lacks_cons(kept, rest, tag);
                }
            },
            _ => {
                let rest = spliced(nodes.skip(1), usage, replacements, first);
                lemma_spliced_lacks(nodes.skip(1), usage, replacements, first, tag);
                lemma_lacks_cons(nodes[0], rest, tag);
            },
        }
    }
}

/// What a file compiles to holds no `style` and no `script` element,
/// whatever its components bring.
pub proof fn lemma_built_lacks_blocks(
    components: Seq<ComponentView>,
    path: Seq<char>,
    props: Seq<PropView>,
    active: Seq<Seq<char>>,
)
    ensures
        built(components, path, props, active) matches Ok(output) ==> lacks(
            output.html,
            style_word(),
        ) && lacks(output.html, script_word()),
    decreases unvisited(components, active), 0nat, 0nat,
{
    if !active.contains(path) {
        match lookup(components, path) {
            None => {},
            Some(document) => {
                let style = style_word();
                let script = script_word();
                let styled = without_tag(document, style);
                let plain = without_tag(styled, script);
                let filled = with_props(plain, props);
                let html = without_import_comments(filled);
                lemma_nothing_left(document, style);
                lemma_without_tag_lacks(styled, script, style);
                lemma_nothing_left(styled, script);
                lemma_with_props_lacks(plain, props, style);
                lemma_with_props_lacks(plain, props, script);
                lemma_without_import_comments_lacks(filled, style);
                lemma_without_import_comments_lacks(filled, script);
                match resolved_imports(filled, directory(path), Seq::empty()) {
                    Err(line) => {},
                    Ok(imports) => {
                        lemma_unvisited_decreases(components, path, active);
                        lemma_inlined_lacks_blocks(
                            components,
                            OutputView {
                                html,
                                css: block_text(document, style),
                                js: block_text(styled, script),
                            },
                            imports,
                            active.push(path),
                        );
                    },
                }
            },
        }
    }
}

/// Inlining into a document without `style` and `script` elements leaves
/// it without them.
pub proof fn lemma_inlined_lacks_blocks(
    components: Seq<ComponentView>,
    output: OutputView,
    imports: Seq<ImportView>,
    active: Seq<Seq<char>>,
)
    requires
        lacks(output.html, style_word()),
        lacks(output.html, script_word()),
    ensures
        inlined(components, output, imports, active) matches Ok(after) ==> lacks(
            after.html,
            style_word(),
        ) && lacks(after.html, script_word()),
    decreases unvisited(components, active), 2nat, imports.len(),
{
    if imports.len() > 0 {
        let tag = lowered(imports[0].tag_name);
        let usages = select(output.html, tag);
        lemma_replacements_lack_blocks(components, usages, imports[0].source_path, active);
        match replacements_for(components, usages, imports[0].source_path, active) {
            Err(error) => {},
            Ok(replacements) => {
                lemma_spliced_lacks(output.html, tag, replacements, 0, style_word());
                lemma_spliced_lacks(output.html, tag, replacements, 0, script_word());
                lemma_inlined_lacks_blocks(
                    components,
                    OutputView {
                        html: spliced(output.html, tag, replacements, 0),
                        css: output.css + merged_css(Seq::empty(), replacements),
                        js: output.js + merged_js(Seq::empty(), replacements),
                    },
                    imports.skip(1),
                    active,
                );
            },
        }
    }
}

/// The nodes that replace the usages of a component hold no `style` and
/// no `script` element.
pub proof fn lemma_replacements_lack_blocks(
    components: Seq<ComponentView>,
    usages: Seq<NodeView>,
    path: Seq<char>,
    active: Seq<Seq<char>>,
)
    ensures
        replacements_for(components, usages, path, active) matches Ok(replacements) ==> forall|
            k: int,
        |
            0 <= k < replacements.len() ==> lacks(
                (#[trigger] replacements[k]).nodes,
                style_word(),
            ) && lacks(replacements[k].nodes, script_word()),
    decreases unvisited(components, active), 1nat, usages.len(),
{
    if usages.len() > 0 {
        let props = component_props(usages[0], Seq::empty());
        lemma_built_lacks_blocks(components, path, props, active);
        match built(components, path, props, active) {
            Err(error) => {},
            Ok(output) => match body_children(output.html) {
                None => {},
                Some(nodes) => {
                    lemma_first_selected_lacks(output.html, body_word(), style_word());
                    lemma_first_selected_lacks(output.html, body_word(), script_word());
                    lemma_replacements_lack_blocks(components, usages.skip(1), path, active);
                    match replacements_for(components, usages.skip(1), path, active) {
                        Err(error) => {},
                        Ok(rest) => {
                            let one = ReplacementView { nodes, css: output.css, js: output.js };
                            let all = seq![one] + rest;
                            assert forall|k: int| 0 <= k < all.len() implies lacks(
                                (#[trigger] all[k]).nodes,
                                style_word(),
                            ) && lacks(all[k].nodes, script_word()) by {
                                if k > 0 {
                                    assert(all[k] == rest[k - 1]);
                                }
                            }
                        },
                    }
                },
            },
        }
    }
}

/// What compiling from sources gives holds no `style` and no `script`
/// element.
pub proof fn lemma_compiled_lacks_blocks(
    sources: Seq<SourceView>,
    path: Seq<char>,
    props: Seq<PropView>,
)
    ensures
        compiled(sources, path, props) matches Ok(output) ==> lacks(output.html, style_word())
            && lacks(output.html, script_word()),
{
    lemma_built_lacks_blocks(parsed(sources), path, props, Seq::empty());
}

/// Compiles the file under `path` with the props `props`, from the parsed
/// files `components`.
///
/// The result is the document of the file with its `style` and `script`
/// elements and its import comments taken out, the props filled in, and
/// every usage of an imported component replaced by the children of the
/// `body` element of what that component compiles to with the attributes of
/// the usage as props; with it come the style text and the script text of
/// the file, followed by what the usages of each import brought.
///
/// The first thing that goes wrong, in the order of the work, is the error:
/// `NotFound` for a path that no component has, `MalformedImport` for a line
/// that holds the word `import` and declares nothing, `MissingBody` for a
/// component that compiles to a document without a `body` element, `Cycle`
/// for a file that is used inside itself.
pub fn build_output(components: &Vec<Component>, path: &str, props: &Props) -> (result: Result<
    Output,
    CompileError,
>)
    ensures
        result_view(result) == built(components_view(components@), path@, props@, Seq::empty()),
{
    let active: Vec<String> = Vec::new();
    assert(paths_view(active@) =~= Seq::<Seq<char>>::empty());
    build(components, path, props, &active)
}

/// Parses each of `sources`, then compiles the file under `path` with the
/// props `props` as [`build_output`] does. A source whose text is too long
/// for the parser is the error `TooLong`, whether or not the file is used.
pub fn compile(sources: &Vec<Source>, path: &str, props: &Props) -> (result: Result<
    Output,
    CompileError,
>)
    ensures
        result_view(result) == compiled(sources_view(sources@), path@, props@),
{
    let ghost all = sources_view(sources@);
    let mut components: Vec<Component> = Vec::new();
    let mut i: usize = 0;
    assert(all.skip(0) == all);
    while i < sources.len()
        invariant
            i <= sources.len(),
            all == sources_view(sources@),
            first_too_long(all.skip(i as int)) == first_too_long(all),
            components@.len() == i,
            forall|k: int|
                0 <= k < i ==> (#[trigger] components@[k])@ == (ComponentView {
                    path: sources@[k].path@,
                    document: document_of(parsed_outline(sources@[k].html@)),
                }),
        decreases sources.len() - i,
    {
        let source = &sources[i];
        proof {
            assert(all.skip(i as int).skip(1) == all.skip(i + 1));
            assert(all.skip(i as int)[0] == source@);
        }
        if !can_parse(source.html.as_str()) {
            return Err(CompileError::TooLong { path: source.path.clone() });
        }
        components.push(
            Component { path: source.path.clone(), document: parse(source.html.as_str()) },
        );
        i += 1;
    }
    assert(components_view(components@) =~= parsed(all));
    build_output(&components, path, props)
}

} // verus!
