use vstd::hash_set::StringHashSet;
use vstd::prelude::*;

use crate::environment::{EnvView, Environment};
use crate::kinds::{Field, NodeKind};
use crate::parse_code::{texts, DocView, ParsedCode};
use crate::response_item::{item_views, param_views, Item, ItemKind, ItemView, Param, ParamView};
use crate::syntax::{text_of, SyntaxTree, Tree};

verus! {

/// How the names of one file become visible in another.
#[derive(Clone, Copy, Debug, PartialEq, Eq, Hash, Structural)]
pub enum DependencyKind {
    /// As if the file stood in place of the statement.
    Include,
    /// Only what can be called.
    Use,
}

impl DependencyKind {
    /// How the names of a file are visible that is reached by `nested` from a file that is
    /// itself reached by `self`: not at all if both are `use`, else as narrow as the narrower.
    pub open spec fn nested(self, nested: DependencyKind) -> Option<DependencyKind> {
        match (self, nested) {
            (DependencyKind::Use, DependencyKind::Use) => None,
            (DependencyKind::Include, DependencyKind::Include) => Some(DependencyKind::Include),
            _ => Some(DependencyKind::Use),
        }
    }

    /// How the names of a file are visible that is reached in two steps.
    pub fn nested_visibility(self, nested: DependencyKind) -> (visibility: Option<DependencyKind>)
        ensures
            visibility == self.nested(nested),
    {
        match (self, nested) {
            (DependencyKind::Include, DependencyKind::Include) => Some(DependencyKind::Include),
            (DependencyKind::Include, DependencyKind::Use) => Some(DependencyKind::Use),
            (DependencyKind::Use, DependencyKind::Include) => Some(DependencyKind::Use),
            (DependencyKind::Use, DependencyKind::Use) => None,
        }
    }

    /// Whether only modules and functions are visible.
    pub fn exports_only_callables(self) -> (r: bool)
        ensures
            r == (self is Use),
    {
        match self {
            DependencyKind::Use => true,
            DependencyKind::Include => false,
        }
    }
}

/// A file together with the way in which it is reached.
pub type FileKey = (Seq<char>, DependencyKind);

/// The files that a search has been to.
pub struct Visited {
    included: StringHashSet,
    used: StringHashSet,
}

impl View for Visited {
    type V = Set<FileKey>;

    closed spec fn view(&self) -> Set<FileKey> {
        Set::new(
            |key: FileKey|
                match key.1 {
                    DependencyKind::Include => self.included@.contains(key.0),
                    DependencyKind::Use => self.used@.contains(key.0),
                },
        )
    }
}

impl Visited {
    /// No files.
    pub fn new() -> (visited: Visited)
        ensures
            visited@ == Set::<FileKey>::empty(),
    {
        let visited = Visited { included: StringHashSet::new(), used: StringHashSet::new() };
        assert(visited@ =~= Set::<FileKey>::empty());
        visited
    }

    /// Whether a file was reached in a way.
    pub fn contains(&self, url: &str, kind: DependencyKind) -> (r: bool)
        ensures
            r == self@.contains((url@, kind)),
    {
        match kind {
            DependencyKind::Include => self.included.contains(url),
            DependencyKind::Use => self.used.contains(url),
        }
    }

    /// Adds a file.
    pub fn insert(&mut self, url: &str, kind: DependencyKind)
        ensures
            final(self)@ == old(self)@.insert((url@, kind)),
    {
        match kind {
            DependencyKind::Include => {
                self.included.insert(url.to_owned());
            },
            DependencyKind::Use => {
                self.used.insert(url.to_owned());
            },
        }
        assert(self@ =~= old(self)@.insert((url@, kind)));
    }
}

/// Which names a search looks for.
#[derive(Debug)]
pub enum NameFilter {
    Any,
    Named(String),
}

/// The model of a [`NameFilter`].
pub enum FilterView {
    Any,
    Named(Seq<char>),
}

impl View for NameFilter {
    type V = FilterView;

    open spec fn view(&self) -> FilterView {
        match self {
            NameFilter::Any => FilterView::Any,
            NameFilter::Named(name) => FilterView::Named(name@),
        }
    }
}

impl FilterView {
    /// Whether a name is looked for.
    pub open spec fn accepts(self, name: Seq<char>) -> bool {
        match self {
            FilterView::Any => true,
            FilterView::Named(n) => n == name,
        }
    }
}

impl NameFilter {
    /// Whether a name is looked for.
    pub fn accepts(&self, name: &String) -> (r: bool)
        ensures
            r == self@.accepts(name@),
    {
        match self {
            NameFilter::Any => true,
            NameFilter::Named(n) => *n == *name,
        }
    }
}

/// A file to search next.
#[derive(Debug)]
pub struct DependencyEdge {
    pub url: String,
    pub visibility: DependencyKind,
}

impl View for DependencyEdge {
    type V = FileKey;

    open spec fn view(&self) -> FileKey {
        (self.url@, self.visibility)
    }
}

/// The models of a list of edges.
pub open spec fn edge_views(edges: Seq<DependencyEdge>) -> Seq<FileKey> {
    edges.map_values(|e: DependencyEdge| e@)
}

/// A parameter whose default value is being looked at: its name, and the bytes of the module or
/// function that has it.
#[verifier::ext_equal]
pub struct DefaultContext {
    pub name: Seq<char>,
    pub owner_start: int,
    pub owner_end: int,
}

/// Whether a node lies within another.
pub open spec fn within(tree: Tree, inner: int, outer: int) -> bool {
    tree.nodes[outer].start_byte <= tree.nodes[inner].start_byte && tree.nodes[inner].end_byte
        <= tree.nodes[outer].end_byte
}

/// Whether a node lies in the value of an assignment.
pub open spec fn in_value(tree: Tree, node: int, assignment: int) -> bool {
    match tree.child_by_field(assignment, Field::Value) {
        Some(value) => within(tree, node, value),
        None => false,
    }
}

/// What an assignment says about the parameter that it gives a default to, if it does.
pub open spec fn parameter_owner(doc: DocView, assignment: int) -> Option<DefaultContext> {
    let tree = doc.tree;
    match tree.parent(assignment) {
        None => None,
        Some(parameter) => if !(tree.kind(parameter) is Parameter) {
            None
        } else {
            match tree.parent(parameter) {
                None => None,
                Some(parameters) => if !(tree.kind(parameters) is Parameters) {
                    None
                } else {
                    match tree.parent(parameters) {
                        None => None,
                        Some(owner) => if !(tree.kind(owner) is ModuleItem) && !(tree.kind(
                            owner,
                        ) is FunctionItem) {
                            None
                        } else {
                            match tree.child_by_field(assignment, Field::Name) {
                                None => None,
                                Some(name) => if !(tree.kind(name) is Identifier) {
                                    None
                                } else {
                                    Some(
                                        DefaultContext {
                                            name: tree.node_text(doc.code, name),
                                            owner_start: tree.nodes[owner].start_byte,
                                            owner_end: tree.nodes[owner].end_byte,
                                        },
                                    )
                                },
                            }
                        },
                    }
                },
            }
        },
    }
}

/// The parameter in whose default value a node lies: what counts is the innermost assignment in
/// whose value the node is.
pub open spec fn default_context(doc: DocView, node: int) -> Option<DefaultContext>
    decreases node,
{
    match doc.tree.parent(node) {
        None => None,
        Some(parent) => if doc.tree.kind(parent) is Assignment && in_value(doc.tree, node, parent) {
            parameter_owner(doc, parent)
        } else if 0 <= parent < node {
            default_context(doc, parent)
        } else {
            None
        },
    }
}

/// A call and the name of one of its arguments.
#[verifier::ext_equal]
pub struct NamedArgument {
    pub call: int,
    pub name: Seq<char>,
}

/// The call in which an identifier names an argument.
pub open spec fn named_argument(doc: DocView, node: int) -> Option<NamedArgument> {
    let tree = doc.tree;
    if !(tree.kind(node) is Identifier) {
        None
    } else {
        match tree.parent(node) {
            None => None,
            Some(assignment) => if !(tree.kind(assignment) is Assignment) || tree.child_by_field(
                assignment,
                Field::Name,
            ) != Some(node) {
                None
            } else {
                match tree.parent(assignment) {
                    None => None,
                    Some(arguments) => if !(tree.kind(arguments) is Arguments) {
                        None
                    } else {
                        match tree.parent(arguments) {
                            None => None,
                            Some(call) => if !tree.kind(call).call() {
                                None
                            } else {
                                Some(NamedArgument { call, name: tree.node_text(doc.code, node) })
                            },
                        }
                    },
                }
            },
        }
    }
}

/// Whether a node stands at the top level.
pub open spec fn at_top_level(tree: Tree, node: int) -> bool {
    match tree.parent(node) {
        Some(parent) => tree.parent(parent) is None,
        None => true,
    }
}

/// The nodes whose declarations a node sees, from the inside out: itself, what comes before it on
/// its own level, then its parent, and so on up to the top level, where only the ancestor itself
/// counts.
pub open spec fn lexical_path(tree: Tree, node: int) -> Seq<int>
    decreases node,
{
    match tree.parent(node) {
        None => Seq::empty(),
        Some(parent) => if node <= 0 {
            Seq::empty()
        } else if at_top_level(tree, node) {
            seq![node]
        } else {
            let next = match tree.prev_sibling(node) {
                Some(sibling) => sibling,
                None => parent,
            };
            if 0 <= next < node {
                seq![node] + lexical_path(tree, next)
            } else {
                seq![node]
            }
        },
    }
}

/// The parameters of a list that are looked for, as variables.
pub open spec fn param_matches(
    params: Seq<ParamView>,
    filter: FilterView,
    skip: Option<Seq<char>>,
    url: Seq<char>,
) -> Seq<ItemView>
    decreases params.len(),
{
    if params.len() == 0 {
        Seq::empty()
    } else {
        let earlier = param_matches(params.drop_last(), filter, skip, url);
        let last = params.last();
        if skip != Some(last.name) && filter.accepts(last.name) {
            earlier.push(ItemView::of_param(last, Some(url), false))
        } else {
            earlier
        }
    }
}

/// The name of the parameter that is not seen from its own default value.
pub open spec fn skipped_param(
    doc: DocView,
    node: int,
    context: Option<DefaultContext>,
) -> Option<Seq<char>> {
    match context {
        Some(c) => if doc.tree.nodes[node].start_byte == c.owner_start
            && doc.tree.nodes[node].end_byte == c.owner_end {
            Some(c.name)
        } else {
            None
        },
        None => None,
    }
}

/// What a node of the lexical path declares that is looked for: the parameters of a module or a
/// function, and the thing itself where it is local.
pub open spec fn node_matches(
    doc: DocView,
    filter: FilterView,
    visibility: DependencyKind,
    context: Option<DefaultContext>,
    node: int,
) -> Seq<ItemView> {
    match ItemView::parse(doc.code, doc.tree, node) {
        None => Seq::empty(),
        Some(item) => {
            let params = match item.kind.params() {
                Some(params) => param_matches(
                    params,
                    filter,
                    skipped_param(doc, node, context),
                    doc.url,
                ),
                None => Seq::empty(),
            };
            if visibility is Include && !at_top_level(doc.tree, node) && filter.accepts(item.name) {
                params.push(ItemView { url: Some(doc.url), ..item })
            } else {
                params
            }
        },
    }
}

/// What the first `k` nodes of a path declare that is looked for.
pub open spec fn path_matches(
    doc: DocView,
    filter: FilterView,
    visibility: DependencyKind,
    context: Option<DefaultContext>,
    path: Seq<int>,
) -> Seq<ItemView>
    decreases path.len(),
{
    if path.len() == 0 {
        Seq::empty()
    } else {
        path_matches(doc, filter, visibility, context, path.drop_last()) + node_matches(
            doc,
            filter,
            visibility,
            context,
            path.last(),
        )
    }
}

/// The way in which a statement brings a file in.
pub open spec fn statement_kind(kind: NodeKind) -> DependencyKind {
    if kind is IncludeStatement {
        DependencyKind::Include
    } else {
        DependencyKind::Use
    }
}

/// The files that the nodes of a path bring in.
pub open spec fn path_edges(
    doc: DocView,
    env: EnvView,
    visibility: DependencyKind,
    path: Seq<int>,
) -> Seq<FileKey>
    decreases path.len(),
{
    if path.len() == 0 {
        Seq::empty()
    } else {
        let earlier = path_edges(doc, env, visibility, path.drop_last());
        let node = path.last();
        let kind = doc.tree.kind(node);
        if !kind.dependency_statement() {
            earlier
        } else {
            match (doc.include_url(node, env), visibility.nested(statement_kind(kind))) {
                (Some(url), Some(nested)) => earlier.push((url, nested)),
                _ => earlier,
            }
        }
    }
}

/// The files of a list that were not visited in the way in which they would be reached.
pub open spec fn unvisited(
    urls: Seq<Seq<char>>,
    kind: Option<DependencyKind>,
    visited: Set<FileKey>,
) -> Seq<FileKey>
    decreases urls.len(),
{
    if urls.len() == 0 {
        Seq::empty()
    } else {
        let earlier = unvisited(urls.drop_last(), kind, visited);
        match kind {
            Some(k) => if visited.contains((urls.last(), k)) {
                earlier
            } else {
                earlier.push((urls.last(), k))
            },
            None => earlier,
        }
    }
}

/// The names at the top level of a file that are looked for and visible.
pub open spec fn root_matches(
    items: Seq<ItemView>,
    filter: FilterView,
    visibility: DependencyKind,
) -> Seq<ItemView> {
    items.filter(
        |item: ItemView|
            (visibility is Include || item.kind.callable()) && filter.accepts(item.name),
    )
}

/// The elements of an optional list.
pub open spec fn listed<A>(list: Option<Seq<A>>) -> Seq<A> {
    match list {
        Some(list) => list,
        None => Seq::empty(),
    }
}

/// What a search finds in one file, and where it goes on.
#[verifier::ext_equal]
pub struct ScanView {
    pub items: Seq<ItemView>,
    pub edges: Seq<FileKey>,
}

/// What is searched for in one file, and how.
pub struct ScanQuery {
    pub filter: FilterView,
    pub findall: bool,
    pub visibility: DependencyKind,
    pub include_builtin: bool,
    pub builtin_url: Seq<char>,
}

/// What a search finds in one file from a node on, and where it goes on. The names that are
/// nearer come first; what the language itself knows is searched before other files.
pub open spec fn scanned(
    doc: DocView,
    env: EnvView,
    query: ScanQuery,
    visited: Set<FileKey>,
    start: int,
) -> ScanView {
    let context = if query.findall {
        None
    } else {
        default_context(doc, start)
    };
    let path = lexical_path(doc.tree, start);
    let builtin = if query.include_builtin && !visited.contains(
        (query.builtin_url, DependencyKind::Include),
    ) {
        seq![(query.builtin_url, DependencyKind::Include)]
    } else {
        Seq::empty()
    };
    ScanView {
        items: path_matches(doc, query.filter, query.visibility, context, path) + root_matches(
            listed(doc.root_items),
            query.filter,
            query.visibility,
        ),
        edges: builtin + unvisited(
            listed(doc.includes),
            query.visibility.nested(DependencyKind::Include),
            visited,
        ) + unvisited(
            listed(doc.uses),
            query.visibility.nested(DependencyKind::Use),
            visited,
        ) + path_edges(doc, env, query.visibility, path),
    }
}

/// A [`DefaultContext`] with its name.
pub struct ParameterDefault {
    pub name: String,
    pub owner_start: usize,
    pub owner_end: usize,
}

impl View for ParameterDefault {
    type V = DefaultContext;

    open spec fn view(&self) -> DefaultContext {
        DefaultContext {
            name: self.name@,
            owner_start: self.owner_start as int,
            owner_end: self.owner_end as int,
        }
    }
}

/// The model of an optional context.
pub open spec fn context_view(context: Option<ParameterDefault>) -> Option<DefaultContext> {
    match context {
        Some(c) => Some(c@),
        None => None,
    }
}

/// What an assignment says about the parameter that it gives a default to.
fn owner_of_parameter(doc: &ParsedCode, assignment: usize) -> (context: Option<ParameterDefault>)
    requires
        doc@.tree.wf(),
        doc@.tree.has(assignment as int),
    ensures
        context_view(context) == parameter_owner(doc@, assignment as int),
{
    let tree = &doc.tree;
    let parameter: usize = match tree.parent(assignment) {
        Some(p) => p,
        None => {
            return None;
        },
    };
    if tree.kind(parameter) != NodeKind::Parameter {
        return None;
    }
    let parameters: usize = match tree.parent(parameter) {
        Some(p) => p,
        None => {
            return None;
        },
    };
    if tree.kind(parameters) != NodeKind::Parameters {
        return None;
    }
    let owner: usize = match tree.parent(parameters) {
        Some(p) => p,
        None => {
            return None;
        },
    };
    if tree.kind(owner) != NodeKind::ModuleItem && tree.kind(owner) != NodeKind::FunctionItem {
        return None;
    }
    let name: usize = match tree.child_by_field(assignment, Field::Name) {
        Some(n) => n,
        None => {
            return None;
        },
    };
    if tree.kind(name) != NodeKind::Identifier {
        return None;
    }
    Some(
        ParameterDefault {
            name: tree.node_text(doc.code.as_str(), name),
            owner_start: tree.node(owner).start_byte,
            owner_end: tree.node(owner).end_byte,
        },
    )
}

/// Whether a node lies in the value of an assignment.
fn is_in_value(tree: &SyntaxTree, node: usize, assignment: usize) -> (r: bool)
    requires
        tree@.wf(),
        tree@.has(node as int),
        tree@.has(assignment as int),
    ensures
        r == in_value(tree@, node as int, assignment as int),
{
    match tree.child_by_field(assignment, Field::Value) {
        Some(value) => tree.node(value).start_byte <= tree.node(node).start_byte && tree.node(
            node,
        ).end_byte <= tree.node(value).end_byte,
        None => false,
    }
}

/// The parameter in whose default value a node lies.
pub fn parameter_default_context(doc: &ParsedCode, start: usize) -> (context: Option<
    ParameterDefault,
>)
    requires
        doc@.tree.wf(),
        doc@.tree.has(start as int),
    ensures
        context_view(context) == default_context(doc@, start as int),
{
    let mut node: usize = start;
    loop
        invariant
            doc@.tree.wf(),
            doc@.tree.has(node as int),
            default_context(doc@, start as int) == default_context(doc@, node as int),
        decreases node,
    {
        let parent: usize = match doc.tree.parent(node) {
            Some(p) => p,
            None => {
                return None;
            },
        };
        if doc.tree.kind(parent) == NodeKind::Assignment && is_in_value(&doc.tree, node, parent) {
            return owner_of_parameter(doc, parent);
        }
        node = parent;
    }
}

/// The call in which an identifier names an argument, and the name.
pub fn named_argument_parameter_context(doc: &ParsedCode, node: usize) -> (context: Option<
    (usize, String),
>)
    requires
        doc@.tree.wf(),
        doc@.tree.has(node as int),
    ensures
        match context {
            Some((call, name)) => named_argument(doc@, node as int) == Some(
                NamedArgument { call: call as int, name: name@ },
            ) && call < node,
            None => named_argument(doc@, node as int) is None,
        },
{
    let tree = &doc.tree;
    if tree.kind(node) != NodeKind::Identifier {
        return None;
    }
    let assignment: usize = match tree.parent(node) {
        Some(p) => p,
        None => {
            return None;
        },
    };
    if tree.kind(assignment) != NodeKind::Assignment {
        return None;
    }
    match tree.child_by_field(assignment, Field::Name) {
        Some(name) => if name != node {
            return None;
        },
        None => {
            return None;
        },
    }
    let arguments: usize = match tree.parent(assignment) {
        Some(p) => p,
        None => {
            return None;
        },
    };
    if tree.kind(arguments) != NodeKind::Arguments {
        return None;
    }
    let call: usize = match tree.parent(arguments) {
        Some(p) => p,
        None => {
            return None;
        },
    };
    if !tree.kind(call).is_call() {
        return None;
    }
    Some((call, tree.node_text(doc.code.as_str(), node)))
}

/// Whether a node stands at the top level.
fn is_at_top_level(tree: &SyntaxTree, node: usize) -> (r: bool)
    requires
        tree@.wf(),
        tree@.has(node as int),
    ensures
        r == at_top_level(tree@, node as int),
{
    match tree.parent(node) {
        Some(parent) => tree.parent(parent).is_none(),
        None => true,
    }
}

/// The nodes whose declarations a node sees, from the inside out.
fn path_of(tree: &SyntaxTree, start: usize) -> (path: Vec<usize>)
    requires
        tree@.wf(),
        tree@.has(start as int),
    ensures
        path@.map_values(|i: usize| i as int) == lexical_path(tree@, start as int),
        forall|k: int| 0 <= k < path@.len() ==> tree@.has(#[trigger] path@[k] as int),
{
    let mut path: Vec<usize> = Vec::new();
    let mut node: usize = start;
    let ghost goal = lexical_path(tree@, start as int);
    assert(path@.map_values(|i: usize| i as int) + lexical_path(tree@, node as int) =~= goal);
    loop
        invariant
            tree@.wf(),
            tree@.has(node as int),
            goal == lexical_path(tree@, start as int),
            goal == path@.map_values(|i: usize| i as int) + lexical_path(tree@, node as int),
            forall|k: int| 0 <= k < path@.len() ==> tree@.has(#[trigger] path@[k] as int),
        decreases node,
    {
        let ghost before = path@;
        let parent: usize = match tree.parent(node) {
            Some(p) => p,
            None => {
                assert(path@.map_values(|i: usize| i as int) =~= goal);
                return path;
            },
        };
        path.push(node);
        proof {
            assert(path@.map_values(|i: usize| i as int) =~= before.map_values(|i: usize| i as int)
                + seq![node as int]);
        }
        if is_at_top_level(tree, node) {
            assert(path@.map_values(|i: usize| i as int) =~= goal);
            return path;
        }
        let next: usize = match tree.prev_sibling(node) {
            Some(sibling) => sibling,
            None => parent,
        };
        proof {
            assert(goal =~= path@.map_values(|i: usize| i as int) + lexical_path(
                tree@,
                next as int,
            ));
        }
        node = next;
    }
}

/// Adds the parameters of a list that are looked for.
fn add_param_matches(
    params: &Vec<Param>,
    filter: &NameFilter,
    skip: &Option<String>,
    url: &String,
    found: &mut Vec<Item>,
)
    ensures
        item_views(final(found)@) == item_views(old(found)@) + param_matches(
            param_views(params@),
            filter@,
            text_of(*skip),
            url@,
        ),
{
    let ghost all = param_views(params@);
    let ghost start = item_views(found@);
    assert(all.take(0) =~= Seq::<ParamView>::empty());
    assert(start =~= start + param_matches(all.take(0), filter@, text_of(*skip), url@));
    let mut i: usize = 0;
    while i < params.len()
        invariant
            i <= params@.len(),
            all == param_views(params@),
            item_views(found@) == start + param_matches(
                all.take(i as int),
                filter@,
                text_of(*skip),
                url@,
            ),
        decreases params@.len() - i,
    {
        let param = &params[i];
        let ghost before = item_views(found@);
        proof {
            assert(all.take(i + 1).drop_last() =~= all.take(i as int));
            assert(all.take(i + 1).last() == param@);
        }
        let skipped: bool = match skip {
            Some(name) => *name == param.name,
            None => false,
        };
        if !skipped && filter.accepts(&param.name) {
            let item = Item::of_param(param, Some(url.clone()), false);
            found.push(item);
            proof {
                assert(item_views(found@) =~= before.push(item@));
                assert(item_views(found@) =~= start + param_matches(
                    all.take(i + 1),
                    filter@,
                    text_of(*skip),
                    url@,
                ));
            }
        }
        i += 1;
    }
    assert(all.take(params@.len() as int) =~= all);
}

/// Adds what a node of the lexical path declares that is looked for.
fn add_node_matches(
    doc: &ParsedCode,
    filter: &NameFilter,
    visibility: DependencyKind,
    context: &Option<ParameterDefault>,
    node: usize,
    found: &mut Vec<Item>,
)
    requires
        doc@.tree.wf(),
        doc@.tree.has(node as int),
    ensures
        item_views(final(found)@) == item_views(old(found)@) + node_matches(
            doc@,
            filter@,
            visibility,
            context_view(*context),
            node as int,
        ),
{
    let ghost start = item_views(found@);
    let mut item: Item = match Item::parse(doc.code.as_str(), &doc.tree, node) {
        Some(item) => item,
        None => {
            assert(start =~= start + Seq::<ItemView>::empty());
            return;
        },
    };
    let skip: Option<String> = match context {
        Some(c) => if doc.tree.node(node).start_byte == c.owner_start && doc.tree.node(
            node,
        ).end_byte == c.owner_end {
            Some(c.name.clone())
        } else {
            None
        },
        None => None,
    };
    assert(text_of(skip) == skipped_param(doc@, node as int, context_view(*context)));
    assert(start =~= start + Seq::<ItemView>::empty());
    match &item.kind {
        ItemKind::Module { params } => add_param_matches(params, filter, &skip, &doc.url, found),
        ItemKind::Function { params } => add_param_matches(params, filter, &skip, &doc.url, found),
        _ => {},
    }
    let ghost with_params = item_views(found@);
    if visibility == DependencyKind::Include && !is_at_top_level(&doc.tree, node)
        && filter.accepts(&item.name) {
        item.url = Some(doc.url.clone());
        let ghost pushed = item@;
        found.push(item);
        assert(item_views(found@) =~= with_params.push(pushed));
    }
    assert(item_views(found@) =~= start + node_matches(
        doc@,
        filter@,
        visibility,
        context_view(*context),
        node as int,
    ));
}

/// Adds the files of a list that were not visited in the way in which they would be reached.
fn add_unvisited(
    urls: &Option<Vec<String>>,
    kind: Option<DependencyKind>,
    visited: &Visited,
    edges: &mut Vec<DependencyEdge>,
)
    ensures
        edge_views(final(edges)@) == edge_views(old(edges)@) + unvisited(
            listed(crate::parse_code::optional_texts(*urls)),
            kind,
            visited@,
        ),
{
    let ghost start = edge_views(edges@);
    assert(start =~= start + Seq::<FileKey>::empty());
    match urls {
        Some(urls) => {
            let ghost all = texts(urls@);
            assert(all.take(0) =~= Seq::<Seq<char>>::empty());
            assert(unvisited(all.take(0), kind, visited@) =~= Seq::<FileKey>::empty());
            let mut i: usize = 0;
            while i < urls.len()
                invariant
                    i <= urls@.len(),
                    all == texts(urls@),
                    edge_views(edges@) == start + unvisited(all.take(i as int), kind, visited@),
                decreases urls@.len() - i,
            {
                let ghost before = edge_views(edges@);
                proof {
                    assert(all.take(i + 1).drop_last() =~= all.take(i as int));
                    assert(all.take(i + 1).last() == urls@[i as int]@);
                }
                match kind {
                    Some(k) => if !visited.contains(urls[i].as_str(), k) {
                        let edge = DependencyEdge { url: urls[i].clone(), visibility: k };
                        edges.push(edge);
                        proof {
                            assert(edge_views(edges@) =~= before.push(edge@));
                            assert(edge_views(edges@) =~= start + unvisited(
                                all.take(i + 1),
                                kind,
                                visited@,
                            ));
                        }
                    },
                    None => {},
                }
                i += 1;
            }
            assert(all.take(urls@.len() as int) =~= all);
        },
        None => {},
    }
}

/// Adds the file that a node of the lexical path brings in.
fn add_path_edge(
    doc: &ParsedCode,
    env: &Environment,
    visibility: DependencyKind,
    node: usize,
    edges: &mut Vec<DependencyEdge>,
    Ghost(path): Ghost<Seq<int>>,
)
    requires
        doc@.tree.wf(),
        doc@.tree.has(node as int),
        path.len() > 0,
        path.last() == node,
    ensures
        edge_views(final(edges)@) == edge_views(old(edges)@) + path_edges(
            doc@,
            env@,
            visibility,
            path,
        ).skip(path_edges(doc@, env@, visibility, path.drop_last()).len() as int),
        path_edges(doc@, env@, visibility, path).take(
            path_edges(doc@, env@, visibility, path.drop_last()).len() as int,
        ) == path_edges(doc@, env@, visibility, path.drop_last()),
        path_edges(doc@, env@, visibility, path.drop_last()).len() <= path_edges(
            doc@,
            env@,
            visibility,
            path,
        ).len(),
{
    let ghost start = edge_views(edges@);
    let ghost earlier = path_edges(doc@, env@, visibility, path.drop_last());
    let ghost all = path_edges(doc@, env@, visibility, path);
    let kind = doc.tree.kind(node);
    if kind.is_dependency_statement() {
        let way: DependencyKind = if kind == NodeKind::IncludeStatement {
            DependencyKind::Include
        } else {
            DependencyKind::Use
        };
        let url = doc.get_include_url(node, env);
        let nested = visibility.nested_visibility(way);
        match (url, nested) {
            (Some(url), Some(nested)) => {
                let edge = DependencyEdge { url, visibility: nested };
                edges.push(edge);
                proof {
                    assert(all == earlier.push(edge@));
                    assert(edge_views(edges@) =~= start.push(edge@));
                    assert(all.skip(earlier.len() as int) =~= seq![edge@]);
                    assert(all.take(earlier.len() as int) =~= earlier);
                    assert(edge_views(edges@) =~= start + all.skip(earlier.len() as int));
                }
                return;
            },
            _ => {},
        }
    }
    assert(all == earlier);
    assert(all.take(earlier.len() as int) =~= earlier);
    assert(edge_views(edges@) =~= start + all.skip(earlier.len() as int));
}

/// What a search finds in one file, and where it goes on.
pub struct Scan {
    pub items: Vec<Item>,
    pub edges: Vec<DependencyEdge>,
}

impl View for Scan {
    type V = ScanView;

    open spec fn view(&self) -> ScanView {
        ScanView { items: item_views(self.items@), edges: edge_views(self.edges@) }
    }
}

/// Adds the names at the top level of a file that are looked for and visible.
fn add_root_matches(
    items: &Option<Vec<Item>>,
    filter: &NameFilter,
    visibility: DependencyKind,
    found: &mut Vec<Item>,
    Ghost(views): Ghost<Seq<ItemView>>,
)
    requires
        views == listed(match *items {
            Some(items) => Some(item_views(items@)),
            None => None,
        }),
    ensures
        item_views(final(found)@) == item_views(old(found)@) + root_matches(
            views,
            filter@,
            visibility,
        ),
{
    let ghost start = item_views(found@);
    let ghost pred = |item: ItemView|
        (visibility is Include || item.kind.callable()) && filter@.accepts(item.name);
    proof {
        reveal(Seq::filter);
        assert(start =~= start + Seq::<ItemView>::empty());
    }
    match items {
        Some(items) => {
            assert(views.take(0) =~= Seq::<ItemView>::empty());
            assert(views.take(0).filter(pred) =~= Seq::<ItemView>::empty());
            let mut i: usize = 0;
            while i < items.len()
                invariant
                    i <= items@.len(),
                    views == item_views(items@),
                    pred == (|item: ItemView|
                        (visibility is Include || item.kind.callable()) && filter@.accepts(
                            item.name,
                        )),
                    item_views(found@) == start + views.take(i as int).filter(pred),
                decreases items@.len() - i,
            {
                let item = &items[i];
                let ghost before = item_views(found@);
                proof {
                    reveal(Seq::filter);
                    assert(views.take(i + 1).drop_last() =~= views.take(i as int));
                    assert(views.take(i + 1).last() == item@);
                }
                if !(visibility.exports_only_callables() && !item.kind.is_callable())
                    && filter.accepts(&item.name) {
                    let copy = item.clone();
                    found.push(copy);
                    proof {
                        assert(item_views(found@) =~= before.push(item@));
                        assert(item_views(found@) =~= start + views.take(i + 1).filter(pred));
                    }
                }
                i += 1;
            }
            assert(views.take(items@.len() as int) =~= views);
        },
        None => {},
    }
}

/// Searches one file from a node on.
pub fn scan_document(
    doc: &ParsedCode,
    env: &Environment,
    filter: &NameFilter,
    findall: bool,
    visibility: DependencyKind,
    include_builtin: bool,
    builtin_url: &String,
    visited: &Visited,
    start: usize,
) -> (scan: Scan)
    requires
        doc@.tree.wf(),
        doc@.tree.has(start as int),
    ensures
        scan@ == scanned(
            doc@,
            env@,
            ScanQuery {
                filter: filter@,
                findall,
                visibility,
                include_builtin,
                builtin_url: builtin_url@,
            },
            visited@,
            start as int,
        ),
{
    let context: Option<ParameterDefault> = if findall {
        None
    } else {
        parameter_default_context(doc, start)
    };
    let mut items: Vec<Item> = Vec::new();
    let mut edges: Vec<DependencyEdge> = Vec::new();
    assert(edge_views(edges@) =~= Seq::<FileKey>::empty());
    assert(item_views(items@) =~= Seq::<ItemView>::empty());
    if include_builtin && !visited.contains(builtin_url.as_str(), DependencyKind::Include) {
        let edge = DependencyEdge {
            url: builtin_url.clone(),
            visibility: DependencyKind::Include,
        };
        edges.push(edge);
        assert(edge_views(edges@) =~= seq![(builtin_url@, DependencyKind::Include)]);
    }
    add_unvisited(
        &doc.includes,
        visibility.nested_visibility(DependencyKind::Include),
        visited,
        &mut edges,
    );
    add_unvisited(
        &doc.uses,
        visibility.nested_visibility(DependencyKind::Use),
        visited,
        &mut edges,
    );
    let path: Vec<usize> = path_of(&doc.tree, start);
    let ghost nodes = path@.map_values(|i: usize| i as int);
    let ghost known = edge_views(edges@);
    let ghost seen = context_view(context);
    proof {
        assert(nodes.take(0) =~= Seq::<int>::empty());
        assert(known =~= known + Seq::<FileKey>::empty());
    }
    let mut k: usize = 0;
    while k < path.len()
        invariant
            k <= path@.len(),
            doc@.tree.wf(),
            nodes == path@.map_values(|i: usize| i as int),
            seen == context_view(context),
            forall|j: int| 0 <= j < path@.len() ==> doc@.tree.has(#[trigger] path@[j] as int),
            item_views(items@) == path_matches(
                doc@,
                filter@,
                visibility,
                seen,
                nodes.take(k as int),
            ),
            edge_views(edges@) == known + path_edges(doc@, env@, visibility, nodes.take(k as int)),
        decreases path@.len() - k,
    {
        let node: usize = path[k];
        let ghost longer = nodes.take(k + 1);
        let ghost edges0 = path_edges(doc@, env@, visibility, nodes.take(k as int));
        proof {
            assert(longer.drop_last() =~= nodes.take(k as int));
            assert(longer.last() == node);
        }
        add_path_edge(doc, env, visibility, node, &mut edges, Ghost(longer));
        add_node_matches(doc, filter, visibility, &context, node, &mut items);
        proof {
            let all = path_edges(doc@, env@, visibility, longer);
            assert(all.take(edges0.len() as int) + all.skip(edges0.len() as int) =~= all);
            assert(edge_views(edges@) =~= known + all);
        }
        k += 1;
    }
    proof {
        assert(nodes.take(path@.len() as int) =~= nodes);
    }
    add_root_matches(&doc.root_items, filter, visibility, &mut items, Ghost(listed(doc@.root_items)));
    let scan = Scan { items, edges };
    assert(scan@ =~= scanned(
        doc@,
        env@,
        ScanQuery { filter: filter@, findall, visibility, include_builtin, builtin_url: builtin_url@ },
        visited@,
        start as int,
    ));
    scan
}

} // verus!
