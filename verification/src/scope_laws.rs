use vstd::prelude::*;

use crate::completion_laws::called_with;
use crate::cursor::lemma_filter_from;
use crate::environment::EnvView;
use crate::kinds::Field;
use crate::lists::lemma_filter_keeps;
use crate::parse_code::DocView;
use crate::position::Range;
use crate::resolve::{
    depth_limit, first_scan, identities, local_result, named_argument_search, next_depth,
    param_named, param_of_items, released, search_files, search_from, still_borrowed, SearchQuery, SearchView,
    SettingsView,
};
use crate::response_item::{param_of, params_of, ItemView, ParamView};
use crate::scan::{
    at_top_level, default_context, lexical_path, listed, named_argument, node_matches,
    param_matches, path_edges, path_matches, root_matches, scanned, skipped_param, unvisited,
    DefaultContext, DependencyKind, FileKey, FilterView, ScanQuery,
};
use crate::search_laws::{
    law_a_scan_finds_what_is_looked_for, lemma_params_accepted, lemma_skipped_param,
};
use crate::store::{find, lookup, with_generated, with_loaded, StoreView};
use crate::syntax::Tree;
use crate::text::trimmed;

verus! {

/// Whether a node is another or lies in it.
pub open spec fn lies_in(tree: Tree, node: int, outer: int) -> bool
    decreases node,
{
    node == outer || match tree.parent(node) {
        Some(parent) => 0 <= parent < node && lies_in(tree, parent, outer),
        None => false,
    }
}

/// Whether a node is a child of the root.
pub open spec fn below_root(tree: Tree, node: int) -> bool {
    tree.parent(node) matches Some(parent) && tree.parent(parent) is None
}

/// Whether what one node declares is seen from another: it is one that the other lies in, or it
/// comes before one on the same level, other than the top level.
pub open spec fn sees(tree: Tree, node: int, declaration: int) -> bool {
    exists|outer: int| #[trigger] seen_beside(tree, node, declaration, outer)
}

/// Whether a node lies in another beside which a declaration stands, at or before it.
pub open spec fn seen_beside(tree: Tree, node: int, declaration: int, outer: int) -> bool {
    &&& tree.has(outer)
    &&& tree.has(declaration)
    &&& lies_in(tree, node, outer)
    &&& tree.parent(outer) is Some
    &&& tree.parent(declaration) == tree.parent(outer)
    &&& tree.nodes[declaration].slot <= tree.nodes[outer].slot
    &&& declaration == outer || !below_root(tree, outer)
}

/// A node lies in a node of its tree.
pub(crate) proof fn lemma_lies_in(tree: Tree, node: int, outer: int)
    requires
        tree.wf(),
        tree.has(node),
        lies_in(tree, node, outer),
    ensures
        tree.has(outer),
        outer <= node,
    decreases node,
{
    if node != outer {
        assert(tree.node_wf(node));
        lemma_lies_in(tree, tree.parent(node)->0, outer);
    }
}

/// The nodes of the lexical path are those that are seen.
pub proof fn law_a_node_sees_what_is_around_and_before_it(
    tree: Tree,
    node: int,
    declaration: int,
)
    requires
        tree.wf(),
        tree.has(node),
    ensures
        lexical_path(tree, node).contains(declaration) == sees(tree, node, declaration),
    decreases node,
{
    let path = lexical_path(tree, node);
    assert(tree.node_wf(node));
    match tree.parent(node) {
        None => {
            if sees(tree, node, declaration) {
                let outer = choose|outer: int| #[trigger]
                    seen_beside(tree, node, declaration, outer);
                assert(outer == node);
            }
        },
        Some(parent) => {
            assert(tree.node_wf(parent));
            assert(at_top_level(tree, node) == below_root(tree, node));
            if below_root(tree, node) {
                assert(path =~= seq![node]);
                if sees(tree, node, declaration) {
                    let outer = choose|outer: int| #[trigger]
                        seen_beside(tree, node, declaration, outer);
                    if outer != node {
                        assert(lies_in(tree, parent, outer));
                        assert(outer == parent);
                    }
                    assert(path[0] == declaration);
                }
                if path.contains(declaration) {
                    assert(declaration == node);
                    assert(seen_beside(tree, node, node, node));
                }
            } else {
                let slot = tree.nodes[node].slot;
                let next = match tree.prev_sibling(node) {
                    Some(sibling) => sibling,
                    None => parent,
                };
                if slot > 0 {
                    assert(tree.children(parent)[slot - 1] < tree.children(parent)[slot]);
                    assert(tree.node_wf(next));
                }
                assert(0 <= next < node);
                law_a_node_sees_what_is_around_and_before_it(tree, next, declaration);
                let rest = lexical_path(tree, next);
                assert(path == seq![node] + rest);
                if sees(tree, node, declaration) {
                    if declaration == node {
                        assert(path[0] == declaration);
                    } else {
                        lemma_seen_from_next(tree, node, next, declaration);
                        let k = choose|k: int| 0 <= k < rest.len() && rest[k] == declaration;
                        assert(path[k + 1] == declaration);
                    }
                }
                if path.contains(declaration) {
                    let k = choose|k: int| 0 <= k < path.len() && path[k] == declaration;
                    if k == 0 {
                        assert(seen_beside(tree, node, node, node));
                    } else {
                        assert(rest[k - 1] == declaration);
                        assert(rest.contains(declaration));
                        lemma_seen_by_node(tree, node, next, declaration);
                    }
                }
            }
        },
    }
}

/// What a node sees, other than itself, the node before it sees too.
proof fn lemma_seen_from_next(tree: Tree, node: int, next: int, declaration: int)
    requires
        tree.wf(),
        tree.has(node),
        tree.has(next),
        tree.parent(node) is Some,
        !below_root(tree, node),
        next == (match tree.prev_sibling(node) {
            Some(sibling) => sibling,
            None => tree.parent(node)->0,
        }),
        sees(tree, node, declaration),
        declaration != node,
    ensures
        sees(tree, next, declaration),
{
    let parent = tree.parent(node)->0;
    assert(tree.node_wf(node));
    assert(tree.node_wf(parent));
    let outer = choose|outer: int| #[trigger] seen_beside(tree, node, declaration, outer);
    let slot = tree.nodes[node].slot;
    if outer == node {
        assert(tree.node_wf(declaration));
        assert(tree.nodes[declaration].slot != slot);
        assert(seen_beside(tree, next, declaration, next));
    } else {
        assert(lies_in(tree, parent, outer));
        assert(lies_in(tree, next, outer));
        assert(seen_beside(tree, next, declaration, outer));
    }
}

/// What the node before a node sees, the node sees.
proof fn lemma_seen_by_node(tree: Tree, node: int, next: int, declaration: int)
    requires
        tree.wf(),
        tree.has(node),
        tree.has(next),
        tree.parent(node) is Some,
        !below_root(tree, node),
        next == (match tree.prev_sibling(node) {
            Some(sibling) => sibling,
            None => tree.parent(node)->0,
        }),
        sees(tree, next, declaration),
    ensures
        sees(tree, node, declaration),
{
    let parent = tree.parent(node)->0;
    assert(tree.node_wf(node));
    assert(tree.node_wf(parent));
    let outer = choose|outer: int| #[trigger] seen_beside(tree, next, declaration, outer);
    if next == parent {
        assert(lies_in(tree, node, outer));
        assert(seen_beside(tree, node, declaration, outer));
    } else if outer == next {
        assert(seen_beside(tree, node, declaration, node));
    } else {
        assert(lies_in(tree, parent, outer));
        assert(lies_in(tree, node, outer));
        assert(seen_beside(tree, node, declaration, outer));
    }
}

/// What comes later on the lexical path stands earlier in the document: the nearest comes first.
pub proof fn law_the_nearest_comes_first(tree: Tree, node: int, i: int, j: int)
    requires
        0 <= i < j < lexical_path(tree, node).len(),
    ensures
        lexical_path(tree, node)[i] > lexical_path(tree, node)[j],
        lexical_path(tree, node)[i] <= node,
    decreases node,
{
    let next = match tree.prev_sibling(node) {
        Some(sibling) => sibling,
        None => tree.parent(node)->0,
    };
    let rest = lexical_path(tree, next);
    assert(lexical_path(tree, node) == seq![node] + rest);
    if i > 0 {
        law_the_nearest_comes_first(tree, next, i - 1, j - 1);
    } else if j == 1 {
        lemma_path_start(tree, next);
    } else {
        law_the_nearest_comes_first(tree, next, 0, j - 1);
        lemma_path_start(tree, next);
    }
}

/// The lexical path of a node starts with the node.
proof fn lemma_path_start(tree: Tree, node: int)
    ensures
        lexical_path(tree, node).len() > 0 ==> lexical_path(tree, node)[0] == node,
{
}

/// Whether a child of a list of parameters declares one by an identifier.
pub open spec fn parameter_named(tree: Tree, list: int, name: int) -> bool {
    exists|k: int| #[trigger] parameter_at(tree, list, k, name)
}

/// Whether the child of a list of parameters at a place declares one by an identifier: alone, or in
/// front of a default value.
pub open spec fn parameter_at(tree: Tree, list: int, k: int, name: int) -> bool {
    &&& 0 <= k < tree.children(list).len()
    &&& {
        let parameter = tree.children(list)[k];
        &&& tree.kind(parameter) is Parameter
        &&& match tree.child(parameter, 0) {
            Some(child) => (child == name && tree.kind(child) is Identifier) || (tree.kind(
                child,
            ) is Assignment && tree.child_by_field(child, Field::Name) == Some(name)
                && tree.child_by_field(child, Field::Value) is Some),
            None => false,
        }
    }
}

/// Whether the parameters that a list of nodes declares hold the one of a node.
proof fn lemma_param_listed(code: Seq<char>, tree: Tree, nodes: Seq<int>, k: int)
    requires
        0 <= k < nodes.len(),
        param_of(code, tree, nodes[k]) is Some,
    ensures
        params_of(code, tree, nodes).contains(param_of(code, tree, nodes[k])->0),
    decreases nodes.len(),
{
    let rest = nodes.drop_last();
    let all = params_of(code, tree, nodes);
    let earlier = params_of(code, tree, rest);
    let param = param_of(code, tree, nodes[k])->0;
    if k < rest.len() {
        lemma_param_listed(code, tree, rest, k);
        let j = choose|j: int| 0 <= j < earlier.len() && earlier[j] == param;
        assert(all[j] == param);
    } else {
        assert(all[all.len() - 1] == param);
    }
}

/// Each parameter of a list comes from one of its nodes.
proof fn lemma_param_from(code: Seq<char>, tree: Tree, nodes: Seq<int>, j: int)
    requires
        0 <= j < params_of(code, tree, nodes).len(),
    ensures
        exists|k: int|
            0 <= k < nodes.len() && param_of(code, tree, #[trigger] nodes[k]) == Some(
                params_of(code, tree, nodes)[j],
            ),
    decreases nodes.len(),
{
    let rest = nodes.drop_last();
    let earlier = params_of(code, tree, rest);
    if j < earlier.len() {
        lemma_param_from(code, tree, rest, j);
        let k = choose|k: int|
            0 <= k < rest.len() && param_of(code, tree, #[trigger] rest[k]) == Some(earlier[j]);
        assert(nodes[k] == rest[k]);
    } else {
        assert(nodes[nodes.len() - 1] == nodes.last());
    }
}

/// Whether a module or a function has a parameter of a name, whose identifier has a range.
pub open spec fn has_parameter(
    code: Seq<char>,
    tree: Tree,
    callable: int,
    name: int,
) -> bool {
    &&& tree.kind(callable) is ModuleItem || tree.kind(callable) is FunctionItem
    &&& tree.child_by_field(callable, Field::Name) is Some
    &&& tree.child_by_field(callable, Field::Parameters) matches Some(list) && parameter_named(
        tree,
        list,
        name,
    )
}

/// What a module or a function is read as: its name is the text of its identifier, its range is
/// its own, and it has a parameter for each that is declared, under the text and the range of the
/// identifier, and no other.
pub proof fn law_callables_are_read_with_their_parameters(
    code: Seq<char>,
    tree: Tree,
    callable: int,
)
    requires
        tree.kind(callable) is ModuleItem || tree.kind(callable) is FunctionItem,
    ensures
        match tree.child_by_field(callable, Field::Name) {
            None => ItemView::parse(code, tree, callable) is None,
            Some(name) => ItemView::parse(code, tree, callable) matches Some(item) && {
                &&& item.name == tree.node_text(code, name)
                &&& item.range == tree.range(callable)
                &&& (item.kind is Module) == (tree.kind(callable) is ModuleItem)
                &&& (item.kind is Function) == (tree.kind(callable) is FunctionItem)
                &&& item.kind.params() matches Some(params) && {
                    &&& forall|n: int| #[trigger]
                        has_parameter(code, tree, callable, n) ==> has_param(
                            params,
                            tree.node_text(code, n),
                            tree.range(n),
                        )
                    &&& forall|j: int|
                        0 <= j < params.len() ==> param_declared(
                            code,
                            tree,
                            callable,
                            #[trigger] params[j],
                        )
                }
            },
        },
{
    if let Some(name) = tree.child_by_field(callable, Field::Name) {
        let item = ItemView::parse(code, tree, callable)->0;
        let params = item.kind.params()->0;
        assert(params == ItemView::declared_params(code, tree, callable));
        if let Some(list) = tree.child_by_field(callable, Field::Parameters) {
            let nodes = tree.children(list);
            assert forall|n: int| #[trigger] has_parameter(code, tree, callable, n) implies has_param(
                params,
                tree.node_text(code, n),
                tree.range(n),
            ) by {
                let k = choose|k: int| #[trigger] parameter_at(tree, list, k, n);
                lemma_param_listed(code, tree, nodes, k);
                let param = param_of(code, tree, nodes[k])->0;
                let j = choose|j: int| 0 <= j < params.len() && params[j] == param;
                assert(params[j].name == tree.node_text(code, n));
            }
            assert forall|j: int| 0 <= j < params.len() implies param_declared(
                code,
                tree,
                callable,
                #[trigger] params[j],
            ) by {
                lemma_param_from(code, tree, nodes, j);
                let k = choose|k: int|
                    0 <= k < nodes.len() && param_of(code, tree, #[trigger] nodes[k]) == Some(
                        params[j],
                    );
                let child = tree.child(nodes[k], 0)->0;
                let n = if tree.kind(child) is Identifier {
                    child
                } else {
                    tree.child_by_field(child, Field::Name)->0
                };
                assert(parameter_at(tree, list, k, n));
                assert(has_parameter(code, tree, callable, n));
            }
        }
    }
}

/// Whether a list of parameters has one of a name and a range.
pub open spec fn has_param(
    params: Seq<ParamView>,
    name: Seq<char>,
    range: Range,
) -> bool {
    exists|j: int|
        0 <= j < params.len() && (#[trigger] params[j]).name == name && params[j].range == range
}

/// Whether a parameter is one that a module or a function declares.
pub open spec fn param_declared(
    code: Seq<char>,
    tree: Tree,
    callable: int,
    param: ParamView,
) -> bool {
    exists|n: int| #[trigger]
        has_parameter(code, tree, callable, n) && param.name == tree.node_text(code, n)
            && param.range == tree.range(n)
}

/// What the declaration of a variable is read as: a variable under the text of its identifier, with
/// the range of its assignment. Nothing but modules, functions and variables is read as a
/// declaration.
pub proof fn law_variables_are_read(code: Seq<char>, tree: Tree, node: int)
    ensures
        tree.kind(node) is VarDeclaration ==> match tree.first_named_child(node) {
            Some(assignment) => match tree.child_by_field(assignment, Field::Name) {
                Some(name) => ItemView::parse(code, tree, node) matches Some(item) && item.name
                    == tree.node_text(code, name) && item.kind is Variable && item.range
                    == tree.range(assignment),
                None => ItemView::parse(code, tree, node) is None,
            },
            None => ItemView::parse(code, tree, node) is None,
        },
        !(tree.kind(node) is VarDeclaration) && !(tree.kind(node) is ModuleItem) && !(tree.kind(
            node,
        ) is FunctionItem) ==> ItemView::parse(code, tree, node) is None,
{
}

/// The text of the identifier by which a node declares something.
pub open spec fn declared_text(code: Seq<char>, tree: Tree, node: int) -> Option<Seq<char>> {
    let name = if tree.kind(node) is ModuleItem || tree.kind(node) is FunctionItem {
        tree.child_by_field(node, Field::Name)
    } else if tree.kind(node) is VarDeclaration {
        match tree.first_named_child(node) {
            Some(assignment) => tree.child_by_field(assignment, Field::Name),
            None => None,
        }
    } else {
        None
    };
    match name {
        Some(name) => Some(tree.node_text(code, name)),
        None => None,
    }
}

/// Whether a node declares a name for what follows it or lies in it: it declares something of that
/// name that is not at the top level, or has a parameter of that name.
pub open spec fn declares_locally(code: Seq<char>, tree: Tree, node: int, name: Seq<char>) -> bool {
    ||| !below_root(tree, node) && declared_text(code, tree, node) == Some(name)
    ||| exists|n: int| #[trigger]
        has_parameter(code, tree, node, n) && tree.node_text(code, n) == name
}

/// Whether a node lies in the default value of a parameter.
pub open spec fn in_a_default(tree: Tree, node: int) -> bool
    decreases node,
{
    match tree.parent(node) {
        Some(parent) => {
            ||| tree.kind(parent) is Assignment && match tree.parent(parent) {
                Some(owner) => tree.kind(owner) is Parameter,
                None => false,
            }
            ||| 0 <= parent < node && in_a_default(tree, parent)
        },
        None => false,
    }
}

/// Outside of default values no parameter is hidden.
proof fn lemma_no_default(doc: DocView, node: int)
    requires
        !in_a_default(doc.tree, node),
    ensures
        default_context(doc, node) is None,
    decreases node,
{
    if let Some(parent) = doc.tree.parent(node) {
        if 0 <= parent < node {
            lemma_no_default(doc, parent);
        }
    }
}

/// Whether an identifier is the name of an argument in a call.
pub open spec fn names_an_argument(tree: Tree, node: int) -> bool {
    &&& tree.kind(node) is Identifier
    &&& tree.parent(node) matches Some(assignment) && {
        &&& tree.kind(assignment) is Assignment
        &&& tree.child_by_field(assignment, Field::Name) == Some(node)
        &&& tree.parent(assignment) matches Some(list) && tree.kind(list) is Arguments
    }
}

/// A parameter that is looked for is among those that match.
proof fn lemma_param_matches(
    params: Seq<ParamView>,
    filter: FilterView,
    skip: Option<Seq<char>>,
    url: Seq<char>,
    j: int,
)
    requires
        0 <= j < params.len(),
        filter.accepts(params[j].name),
        skip != Some(params[j].name),
    ensures
        param_matches(params, filter, skip, url).contains(
            ItemView::of_param(params[j], Some(url), false),
        ),
    decreases params.len(),
{
    let rest = params.drop_last();
    let earlier = param_matches(rest, filter, skip, url);
    let all = param_matches(params, filter, skip, url);
    let item = ItemView::of_param(params[j], Some(url), false);
    if j < rest.len() {
        lemma_param_matches(rest, filter, skip, url, j);
        let k = choose|k: int| 0 <= k < earlier.len() && earlier[k] == item;
        assert(all[k] == item);
    } else {
        assert(all[all.len() - 1] == item);
    }
}

/// Whether a node declares something of a name, other than a parameter, that is not at the top
/// level.
pub open spec fn declares_itself(code: Seq<char>, tree: Tree, node: int, name: Seq<char>) -> bool {
    !below_root(tree, node) && declared_text(code, tree, node) == Some(name)
}

/// A node that declares a name matches a search for it. A parameter does where none is hidden.
proof fn lemma_node_matches(
    doc: DocView,
    filter: FilterView,
    context: Option<DefaultContext>,
    node: int,
    name: Seq<char>,
)
    requires
        doc.tree.parent(node) is Some,
        declares_itself(doc.code, doc.tree, node, name) || ((context is None || context->0.name
            != name) && declares_locally(doc.code, doc.tree, node, name)),
        filter.accepts(name),
    ensures
        has_named(node_matches(doc, filter, DependencyKind::Include, context, node), name),
{
    let (code, tree) = (doc.code, doc.tree);
    let all = node_matches(doc, filter, DependencyKind::Include, context, node);
    let item = ItemView::parse(code, tree, node)->0;
    assert(at_top_level(tree, node) == below_root(tree, node));
    if declares_itself(code, tree, node, name) {
        law_variables_are_read(code, tree, node);
        assert(item.name == name);
        assert(all[all.len() - 1].name == name);
    } else {
        let n = choose|n: int| #[trigger]
            has_parameter(code, tree, node, n) && tree.node_text(code, n) == name;
        law_callables_are_read_with_their_parameters(code, tree, node);
        let params = item.kind.params()->0;
        assert(has_param(params, name, tree.range(n)));
        let j = choose|j: int|
            0 <= j < params.len() && (#[trigger] params[j]).name == name && params[j].range
                == tree.range(n);
        let skip = skipped_param(doc, node, context);
        lemma_param_matches(params, filter, skip, doc.url, j);
        let found = ItemView::of_param(params[j], Some(doc.url), false);
        let matched = param_matches(params, filter, skip, doc.url);
        let k = choose|k: int| 0 <= k < matched.len() && matched[k] == found;
        assert(all[k].name == name);
    }
}

/// Whether one of a list of items has a name and belongs to the document.
pub open spec fn has_named(items: Seq<ItemView>, name: Seq<char>) -> bool {
    exists|k: int| 0 <= k < items.len() && (#[trigger] items[k]).name == name
}

/// What the nodes of a path declare holds what each of them declares; the first that is found
/// comes from the first that declares anything.
proof fn lemma_path_matches(
    doc: DocView,
    filter: FilterView,
    context: Option<DefaultContext>,
    path: Seq<int>,
    k: int,
    i: int,
)
    requires
        0 <= k < path.len(),
        0 <= i < node_matches(doc, filter, DependencyKind::Include, context, path[k]).len(),
    ensures
        ({
            let all = path_matches(doc, filter, DependencyKind::Include, context, path);
            let found = node_matches(doc, filter, DependencyKind::Include, context, path[k]);
            &&& all.contains(found[i])
            &&& first_from(doc, filter, context, path, k, all[0])
            &&& all.len() > 0
        }),
    decreases path.len(),
{
    let vis = DependencyKind::Include;
    let rest = path.drop_last();
    let earlier = path_matches(doc, filter, vis, context, rest);
    let last = node_matches(doc, filter, vis, context, path.last());
    let all = path_matches(doc, filter, vis, context, path);
    let found = node_matches(doc, filter, vis, context, path[k]);
    assert(all == earlier + last);
    if k < rest.len() {
        lemma_path_matches(doc, filter, context, rest, k, i);
        let j = choose|j: int| 0 <= j < earlier.len() && earlier[j] == found[i];
        assert(all[j] == found[i]);
        let m = choose|m: int|
            0 <= m <= k && node_matches(doc, filter, vis, context, #[trigger] rest[m]).contains(
                earlier[0],
            );
        assert(path[m] == rest[m]);
        assert(all[0] == earlier[0]);
    } else {
        assert(all[earlier.len() + i] == found[i]);
        if earlier.len() == 0 {
            assert(all[0] == last[0]);
            assert(last.contains(last[0]));
            assert(path[k] == path.last());
        } else {
            lemma_first_match(doc, filter, context, rest);
            let m = choose|m: int|
                0 <= m < rest.len() && node_matches(
                    doc,
                    filter,
                    vis,
                    context,
                    #[trigger] rest[m],
                ).contains(earlier[0]);
            assert(path[m] == rest[m]);
        }
    }
}

/// The first that the nodes of a path declare comes from one of them.
proof fn lemma_first_match(
    doc: DocView,
    filter: FilterView,
    context: Option<DefaultContext>,
    path: Seq<int>,
)
    requires
        path_matches(doc, filter, DependencyKind::Include, context, path).len() > 0,
    ensures
        exists|m: int|
            0 <= m < path.len() && node_matches(
                doc,
                filter,
                DependencyKind::Include,
                context,
                #[trigger] path[m],
            ).contains(path_matches(doc, filter, DependencyKind::Include, context, path)[0]),
    decreases path.len(),
{
    let vis = DependencyKind::Include;
    let rest = path.drop_last();
    let earlier = path_matches(doc, filter, vis, context, rest);
    let last = node_matches(doc, filter, vis, context, path.last());
    let all = path_matches(doc, filter, vis, context, path);
    if earlier.len() > 0 {
        lemma_first_match(doc, filter, context, rest);
        let m = choose|m: int|
            0 <= m < rest.len() && node_matches(
                doc,
                filter,
                vis,
                context,
                #[trigger] rest[m],
            ).contains(earlier[0]);
        assert(path[m] == rest[m]);
    } else {
        assert(all[0] == last[0]);
        assert(last.contains(last[0]));
        assert(path[path.len() - 1] == path.last());
    }
}

/// Whether an item is what one of the first nodes of a path declares.
spec fn first_from(
    doc: DocView,
    filter: FilterView,
    context: Option<DefaultContext>,
    path: Seq<int>,
    k: int,
    item: ItemView,
) -> bool {
    exists|m: int|
        0 <= m <= k && node_matches(
            doc,
            filter,
            DependencyKind::Include,
            context,
            #[trigger] path[m],
        ).contains(item)
}

/// Whether an item is what a node of a document declares, or one of its parameters.
pub open spec fn declared_by(doc: DocView, node: int, item: ItemView) -> bool {
    let (code, tree) = (doc.code, doc.tree);
    &&& item.url == Some(doc.url)
    &&& {
        ||| declared_text(code, tree, node) == Some(item.name) && item.range == (if tree.kind(
            node,
        ) is VarDeclaration {
            tree.range(tree.first_named_child(node)->0)
        } else {
            tree.range(node)
        })
        ||| item.kind is Variable && exists|n: int| #[trigger]
            has_parameter(code, tree, node, n) && item.name == tree.node_text(code, n)
                && item.range == tree.range(n)
    }
}

/// Each parameter that matches is one of the list.
proof fn lemma_param_match_from(
    params: Seq<ParamView>,
    filter: FilterView,
    skip: Option<Seq<char>>,
    url: Seq<char>,
    k: int,
)
    requires
        0 <= k < param_matches(params, filter, skip, url).len(),
    ensures
        exists|j: int|
            0 <= j < params.len() && param_matches(params, filter, skip, url)[k]
                == ItemView::of_param(#[trigger] params[j], Some(url), false),
    decreases params.len(),
{
    let rest = params.drop_last();
    let earlier = param_matches(rest, filter, skip, url);
    if k < earlier.len() {
        lemma_param_match_from(rest, filter, skip, url, k);
        let j = choose|j: int|
            0 <= j < rest.len() && earlier[k] == ItemView::of_param(
                #[trigger] rest[j],
                Some(url),
                false,
            );
        assert(params[j] == rest[j]);
    } else {
        assert(params[params.len() - 1] == params.last());
    }
}

/// What matches at a node is what the node declares.
proof fn lemma_match_declared(
    doc: DocView,
    filter: FilterView,
    visibility: DependencyKind,
    context: Option<DefaultContext>,
    node: int,
    k: int,
)
    requires
        0 <= k < node_matches(doc, filter, visibility, context, node).len(),
    ensures
        declared_by(doc, node, node_matches(doc, filter, visibility, context, node)[k]),
{
    let (code, tree) = (doc.code, doc.tree);
    let all = node_matches(doc, filter, visibility, context, node);
    let item = ItemView::parse(code, tree, node)->0;
    law_variables_are_read(code, tree, node);
    if let Some(params) = item.kind.params() {
        law_callables_are_read_with_their_parameters(code, tree, node);
        let skip = skipped_param(doc, node, context);
        let matched = param_matches(params, filter, skip, doc.url);
        if k < matched.len() {
            assert(all[k] == matched[k]);
            lemma_param_match_from(params, filter, skip, doc.url, k);
            let j = choose|j: int|
                0 <= j < params.len() && matched[k] == ItemView::of_param(
                    #[trigger] params[j],
                    Some(doc.url),
                    false,
                );
            assert(param_declared(code, tree, node, params[j]));
            let n = choose|n: int| #[trigger]
                has_parameter(code, tree, node, n) && params[j].name == tree.node_text(code, n)
                    && params[j].range == tree.range(n);
            assert(has_parameter(code, tree, node, n));
        }
    }
}

/// Whether an item is declared by a node that is seen from another, at or behind a third.
pub open spec fn declared_near(doc: DocView, start: int, least: int, item: ItemView) -> bool {
    exists|d: int| #[trigger] sees(doc.tree, start, d) && d >= least && declared_by(doc, d, item)
}

/// A name of a search that is no name of an argument is looked for from where it stands alone.
proof fn lemma_plain_search(
    query: SearchQuery,
    store: StoreView,
    borrowed: Seq<Seq<char>>,
    doc: DocView,
    start: int,
    depth: Option<int>,
)
    requires
        !names_an_argument(doc.tree, start),
    ensures
        named_argument_search(query, store, borrowed, doc, start, depth) == (
            store,
            borrowed,
            Seq::<ItemView>::empty(),
        ),
{
    assert(named_argument(doc, start) is None);
}

/// A name stands for the nearest declaration of it that is seen: where one is seen from a node,
/// the search for the name from there finds one thing, of that name, in the document. It is
/// declared there, or nearer; and no other file is looked at. From a default value, that is so of
/// parameters of other names than the one that has the value.
pub proof fn law_a_visible_declaration_is_found(
    query: SearchQuery,
    store: StoreView,
    cache: Map<FileKey, Seq<ItemView>>,
    borrowed: Seq<Seq<char>>,
    doc: DocView,
    start: int,
    depth: Option<int>,
    declaration: int,
    name: Seq<char>,
)
    requires
        doc.tree.wf(),
        doc.tree.has(start),
        sees(doc.tree, start, declaration),
        declares_itself(doc.code, doc.tree, declaration, name) || ((!in_a_default(doc.tree, start)
            || in_default_of_another(doc, start, name)) && declares_locally(
            doc.code,
            doc.tree,
            declaration,
            name,
        )),
        !names_an_argument(doc.tree, start),
        query.filter == FilterView::Named(name),
        !query.findall,
    ensures
        ({
            let (after, found) = identities(query, store, cache, borrowed, doc, start, depth);
            &&& after.store == store
            &&& after.cache == cache
            &&& found.len() == 1
            &&& found[0].name == name
            &&& declared_near(doc, start, declaration, found[0])
        }),
{
    let (filter, vis) = (query.filter, DependencyKind::Include);
    let path = lexical_path(doc.tree, start);
    lemma_plain_search(query, store, borrowed, doc, start, depth);
    let context = default_context(doc, start);
    if !in_a_default(doc.tree, start) {
        lemma_no_default(doc, start);
    } else if in_default_of_another(doc, start, name) {
        let (value, owner, other) = choose|value: int, owner: int, other: int| #[trigger]
            is_default_of(doc.tree, value, owner, other) && lies_directly_in(
                doc.tree,
                start,
                value,
            ) && doc.tree.node_text(doc.code, other) != name;
        lemma_default_context(doc, start, value, owner, other);
    }
    law_a_node_sees_what_is_around_and_before_it(doc.tree, start, declaration);
    let k = choose|k: int| 0 <= k < path.len() && path[k] == declaration;
    lemma_node_matches(doc, filter, context, declaration, name);
    let here = node_matches(doc, filter, vis, context, declaration);
    let i = choose|i: int| 0 <= i < here.len() && (#[trigger] here[i]).name == name;
    lemma_path_matches(doc, filter, context, path, k, i);
    let local = path_matches(doc, filter, vis, context, path);
    let scan = first_scan(query, doc, start);
    let roots = root_matches(listed(doc.root_items), filter, vis);
    assert(scan.items == local + roots);
    let result = local_result(false, Seq::empty(), scan.items);
    assert(result =~= seq![local[0]]);
    let (after, found) = identities(query, store, cache, borrowed, doc, start, depth);
    assert(found == result);
    let m = choose|m: int|
        0 <= m <= k && node_matches(doc, filter, vis, context, #[trigger] path[m]).contains(local[0]);
    let near = node_matches(doc, filter, vis, context, path[m]);
    let j = choose|j: int| 0 <= j < near.len() && near[j] == local[0];
    lemma_match_declared(doc, filter, vis, context, path[m], j);
    assert(path.contains(path[m]));
    law_a_node_sees_what_is_around_and_before_it(doc.tree, start, path[m]);
    if m < k {
        law_the_nearest_comes_first(doc.tree, start, m, k);
    }
    assert(sees(doc.tree, start, path[m]));
    lemma_scan_names(doc, query, start);
}

/// What a search finds in the document in which it starts has the name that is looked for.
proof fn lemma_scan_names(doc: DocView, query: SearchQuery, start: int)
    ensures
        forall|k: int|
            0 <= k < first_scan(query, doc, start).items.len() ==> query.filter.accepts(
                (#[trigger] first_scan(query, doc, start).items[k]).name,
            ),
{
    law_a_scan_finds_what_is_looked_for(
        doc,
        query.env,
        query.scan_query(DependencyKind::Include, true),
        Set::<FileKey>::empty().insert((doc.url, DependencyKind::Include)),
        start,
    );
}

/// A name that is declared at the top level of a document is found there, unless it is declared
/// nearer: the search for it finds one thing of that name, which is the first of the top level or
/// declared by something that is seen.
pub proof fn law_a_top_level_declaration_is_found(
    query: SearchQuery,
    store: StoreView,
    cache: Map<FileKey, Seq<ItemView>>,
    borrowed: Seq<Seq<char>>,
    doc: DocView,
    start: int,
    depth: Option<int>,
    k: int,
)
    requires
        doc.tree.wf(),
        doc.tree.has(start),
        !names_an_argument(doc.tree, start),
        0 <= k < listed(doc.root_items).len(),
        query.filter == FilterView::Named(listed(doc.root_items)[k].name),
        forall|j: int|
            0 <= j < k ==> (#[trigger] listed(doc.root_items)[j]).name != listed(
                doc.root_items,
            )[k].name,
        !query.findall,
    ensures
        ({
            let (after, found) = identities(query, store, cache, borrowed, doc, start, depth);
            &&& after.store == store
            &&& found.len() == 1
            &&& found[0] == listed(doc.root_items)[k] || declared_near(doc, start, 0, found[0])
        }),
{
    let (filter, vis) = (query.filter, DependencyKind::Include);
    let path = lexical_path(doc.tree, start);
    let items = listed(doc.root_items);
    lemma_plain_search(query, store, borrowed, doc, start, depth);
    let context = default_context(doc, start);
    let local = path_matches(doc, filter, vis, context, path);
    let roots = root_matches(items, filter, vis);
    let scan = first_scan(query, doc, start);
    assert(scan.items == local + roots);
    lemma_first_root(items, filter, k);
    let result = local_result(false, Seq::empty(), scan.items);
    assert(result =~= seq![scan.items[0]]);
    if local.len() > 0 {
        lemma_first_match(doc, filter, context, path);
        let m = choose|m: int|
            0 <= m < path.len() && node_matches(doc, filter, vis, context, #[trigger] path[m]).contains(
                local[0],
            );
        let near = node_matches(doc, filter, vis, context, path[m]);
        let j = choose|j: int| 0 <= j < near.len() && near[j] == local[0];
        lemma_match_declared(doc, filter, vis, context, path[m], j);
        assert(path.contains(path[m]));
        law_a_node_sees_what_is_around_and_before_it(doc.tree, start, path[m]);
        let outer = choose|outer: int| #[trigger] seen_beside(doc.tree, start, path[m], outer);
        assert(path[m] >= 0);
        assert(sees(doc.tree, start, path[m]));
    } else {
        assert(scan.items[0] == roots[0]);
    }
}

/// The first item of a list that is looked for comes first among those that match.
proof fn lemma_first_root(items: Seq<ItemView>, filter: FilterView, k: int)
    requires
        0 <= k < items.len(),
        filter == FilterView::Named(items[k].name),
        forall|j: int| 0 <= j < k ==> (#[trigger] items[j]).name != items[k].name,
    ensures
        root_matches(items, filter, DependencyKind::Include).len() > 0,
        root_matches(items, filter, DependencyKind::Include)[0] == items[k],
    decreases items.len(),
{
    reveal(Seq::filter);
    let rest = items.drop_last();
    if k < rest.len() {
        lemma_first_root(rest, filter, k);
    } else {
        let pred = |item: ItemView|
            (DependencyKind::Include is Include || item.kind.callable()) && filter.accepts(
                item.name,
            );
        assert(rest.filter(pred) =~= Seq::empty()) by {
            if rest.filter(pred).len() > 0 {
                let x = rest.filter(pred)[0];
                assert(rest.filter(pred).contains(x));
                lemma_filter_from(rest, pred, x);
                let j = choose|j: int| 0 <= j < rest.len() && rest[j] == x;
                assert(items[j].name != items[k].name);
            }
        }
    }
}

/// What a search through files has found before stays in front.
pub proof fn law_a_search_keeps_what_it_found(
    query: SearchQuery,
    state: SearchView,
    edges: Seq<FileKey>,
    k: int,
    depth: Option<int>,
    level: int,
    found: Seq<ItemView>,
)
    ensures
        found.is_prefix_of(search_files(query, state, edges, k, depth, level, found).1),
    decreases usize::MAX - level, edges.len() - k,
{
    if 0 <= k < edges.len() {
        let key = edges[k];
        if state.visited.contains(key) || depth == Some(0int) {
            law_a_search_keeps_what_it_found(query, state, edges, k + 1, depth, level, found);
        } else if query.uses_cache() && state.cache.contains_key(key) {
            let now = SearchView { visited: state.visited.insert(key), ..state };
            let all = found + state.cache[key];
            if all.len() == 0 {
                law_a_search_keeps_what_it_found(query, now, edges, k + 1, depth, level, all);
            }
        } else {
            let loaded = with_loaded(state.store, key.0, query.env);
            let borrowed = still_borrowed(state.borrowed, state.store, loaded, key.0);
            if find(loaded, key.0) is None {
            } else if borrowed.contains(key.0) || level >= usize::MAX {
                let now = SearchView { store: loaded, borrowed, ..state };
                law_a_search_keeps_what_it_found(query, now, edges, k + 1, depth, level, found);
            } else {
                let (now, nested) = file_step(query, state, key, depth, level);
                law_a_search_keeps_what_it_found(
                    query,
                    now,
                    edges,
                    k + 1,
                    depth,
                    level,
                    found + nested,
                );
            }
        }
    }
}

/// What a search through one file gives, and how far it has come then.
spec fn file_step(
    query: SearchQuery,
    state: SearchView,
    key: FileKey,
    depth: Option<int>,
    level: int,
) -> (SearchView, Seq<ItemView>) {
    let loaded = with_loaded(state.store, key.0, query.env);
    let borrowed = still_borrowed(state.borrowed, state.store, loaded, key.0);
    let generated = with_generated(loaded, key.0, query.env);
    let doc = lookup(generated, key.0)->0;
    let inside = SearchView {
        store: generated,
        visited: state.visited.insert(key),
        borrowed: borrowed.push(key.0),
        ..state
    };
    let scan = scanned(doc, query.env, query.scan_query(key.1, false), inside.visited, 0);
    let local = local_result(query.findall, Seq::empty(), scan.items);
    let (after, nested) = if local.len() > 0 && !query.findall {
        (inside, local)
    } else {
        search_files(query, inside, scan.edges, 0, next_depth(depth), level + 1, local)
    };
    let left = SearchView { borrowed: released(after.borrowed, key.0), ..after };
    (
        if query.uses_cache() {
            SearchView { cache: left.cache.insert(key, nested), ..left }
        } else {
            left
        },
        nested,
    )
}

/// A search for all things of a name, or for all names, that comes to a file which can be read and
/// is not being searched already finds everything at the top level of that file that is looked for
/// and visible: all of it in a file that is included, what can be called in one that is used.
pub proof fn law_the_names_of_a_file_are_found(
    query: SearchQuery,
    state: SearchView,
    edges: Seq<FileKey>,
    k: int,
    depth: Option<int>,
    level: int,
    found: Seq<ItemView>,
    i: int,
)
    requires
        0 <= k < edges.len(),
        query.findall,
        !state.visited.contains(edges[k]),
        depth != Some(0int),
        0 <= level < usize::MAX,
        ({
            let url = edges[k].0;
            let loaded = with_loaded(state.store, url, query.env);
            let doc = lookup(with_generated(loaded, url, query.env), url);
            &&& find(loaded, url) is Some
            &&& !still_borrowed(state.borrowed, state.store, loaded, url).contains(url)
            &&& doc is Some
            &&& 0 <= i < listed(doc->0.root_items).len()
            &&& query.filter.accepts(listed(doc->0.root_items)[i].name)
            &&& edges[k].1 is Include || listed(doc->0.root_items)[i].kind is Module || listed(
                doc->0.root_items,
            )[i].kind is Function
        }),
    ensures
        ({
            let url = edges[k].0;
            let loaded = with_loaded(state.store, url, query.env);
            let doc = lookup(with_generated(loaded, url, query.env), url)->0;
            search_files(query, state, edges, k, depth, level, found).1.contains(
                listed(doc.root_items)[i],
            )
        }),
{
    let key = edges[k];
    let loaded = with_loaded(state.store, key.0, query.env);
    let borrowed = still_borrowed(state.borrowed, state.store, loaded, key.0);
    let generated = with_generated(loaded, key.0, query.env);
    let doc = lookup(generated, key.0)->0;
    let item = listed(doc.root_items)[i];
    let inside = SearchView {
        store: generated,
        visited: state.visited.insert(key),
        borrowed: borrowed.push(key.0),
        ..state
    };
    let inner = query.scan_query(key.1, false);
    let scan = scanned(doc, query.env, inner, inside.visited, 0);
    let local = local_result(query.findall, Seq::empty(), scan.items);
    assert(local =~= scan.items);
    let pred = |item: ItemView|
        (key.1 is Include || item.kind.callable()) && query.filter.accepts(item.name);
    let roots = root_matches(listed(doc.root_items), query.filter, key.1);
    assert(roots == listed(doc.root_items).filter(pred));
    lemma_filter_keeps(listed(doc.root_items), pred, i);
    let j = choose|j: int| 0 <= j < roots.len() && roots[j] == item;
    let path = path_matches(doc, query.filter, key.1, None, lexical_path(doc.tree, 0));
    assert(scan.items == path + roots);
    assert(local[path.len() + j] == item);
    let (now, nested) = file_step(query, state, key, depth, level);
    law_a_search_keeps_what_it_found(
        query,
        inside,
        scan.edges,
        0,
        next_depth(depth),
        level + 1,
        local,
    );
    assert(nested[path.len() + j] == item);
    let all = found + nested;
    assert(all[found.len() + path.len() + j] == item);
    law_a_search_keeps_what_it_found(query, now, edges, k + 1, depth, level, all);
    let result = search_files(query, state, edges, k, depth, level, found).1;
    assert(result == search_files(query, now, edges, k + 1, depth, level, all).1);
    assert(result[found.len() + path.len() + j] == item);
}

/// A search for all things of a name, or for all names, finds everything at the top level of the
/// document in which it starts, and everything that is declared where it is seen from there.
pub proof fn law_all_visible_names_are_found(
    query: SearchQuery,
    store: StoreView,
    cache: Map<FileKey, Seq<ItemView>>,
    borrowed: Seq<Seq<char>>,
    doc: DocView,
    start: int,
    depth: Option<int>,
)
    requires
        doc.tree.wf(),
        doc.tree.has(start),
        query.findall,
    ensures
        ({
            let found = identities(query, store, cache, borrowed, doc, start, depth).1;
            &&& forall|k: int|
                0 <= k < listed(doc.root_items).len() && query.filter.accepts(
                    (#[trigger] listed(doc.root_items)[k]).name,
                ) ==> found.contains(listed(doc.root_items)[k])
            &&& forall|d: int, name: Seq<char>|
                #![trigger sees(doc.tree, start, d), query.filter.accepts(name)]
                sees(doc.tree, start, d) && query.filter.accepts(name) && declares_locally(
                    doc.code,
                    doc.tree,
                    d,
                    name,
                ) ==> found_declared(doc, found, d, name)
        }),
{
    let (filter, vis) = (query.filter, DependencyKind::Include);
    let path = lexical_path(doc.tree, start);
    let items = listed(doc.root_items);
    let local = path_matches(doc, filter, vis, None, path);
    let roots = root_matches(items, filter, vis);
    let (held, left, named) = named_argument_search(query, store, borrowed, doc, start, depth);
    let scan = first_scan(query, doc, start);
    assert(scan.items == local + roots);
    let first = local_result(true, named, scan.items);
    assert(first == named + scan.items);
    let state = SearchView {
        store: held,
        visited: Set::<FileKey>::empty().insert((doc.url, DependencyKind::Include)),
        cache,
        borrowed: left,
    };
    let found = identities(query, store, cache, borrowed, doc, start, depth).1;
    assert(found == search_files(query, state, scan.edges, 0, depth, 1, first).1);
    law_a_search_keeps_what_it_found(query, state, scan.edges, 0, depth, 1, first);
    let n = named.len() as int;
    assert forall|k: int| 0 <= k < items.len() && filter.accepts(
        (#[trigger] items[k]).name,
    ) implies found.contains(items[k]) by {
        let pred = |item: ItemView|
            (vis is Include || item.kind.callable()) && filter.accepts(item.name);
        assert(roots == items.filter(pred));
        lemma_filter_keeps(items, pred, k);
        let j = choose|j: int| 0 <= j < roots.len() && roots[j] == items[k];
        assert(first[n + local.len() + j] == items[k]);
        assert(found[n + local.len() + j] == items[k]);
    }
    assert forall|d: int, name: Seq<char>|
        #![trigger sees(doc.tree, start, d), filter.accepts(name)]
        sees(doc.tree, start, d) && filter.accepts(name) && declares_locally(
            doc.code,
            doc.tree,
            d,
            name,
        ) implies found_declared(doc, found, d, name) by {
        law_a_node_sees_what_is_around_and_before_it(doc.tree, start, d);
        let k = choose|k: int| 0 <= k < path.len() && path[k] == d;
        lemma_node_matches(doc, filter, None, d, name);
        let here = node_matches(doc, filter, vis, None, d);
        let i = choose|i: int| 0 <= i < here.len() && (#[trigger] here[i]).name == name;
        lemma_path_matches(doc, filter, None, path, k, i);
        lemma_match_declared(doc, filter, vis, None, d, i);
        let j = choose|j: int| 0 <= j < local.len() && local[j] == here[i];
        assert(first[n + j] == here[i]);
        assert(found[n + j] == here[i]);
    }
}

/// Whether something of a name that a node declares is among what was found.
pub open spec fn found_declared(
    doc: DocView,
    found: Seq<ItemView>,
    node: int,
    name: Seq<char>,
) -> bool {
    exists|k: int|
        0 <= k < found.len() && (#[trigger] found[k]).name == name && declared_by(
            doc,
            node,
            found[k],
        )
}

/// The files that a search goes on to from a document that is reached by an `include`, or in which
/// it starts: each file that the document includes, as one that is included, and each that it
/// uses, as one that is used, unless the search has been there in that way. From a document that
/// is reached by a `use` it goes on to what that includes, as files that are used, and not to what
/// that uses.
pub proof fn law_a_search_goes_on_to_other_files(
    doc: DocView,
    env: EnvView,
    query: ScanQuery,
    visited: Set<FileKey>,
    start: int,
    url: Seq<char>,
)
    ensures
        ({
            let edges = scanned(doc, env, query, visited, start).edges;
            let (all, callable) = (DependencyKind::Include, DependencyKind::Use);
            &&& query.visibility is Include && listed(doc.includes).contains(url)
                && !visited.contains((url, all)) ==> edges.contains((url, all))
            &&& query.visibility is Include && listed(doc.uses).contains(url) && !visited.contains(
                (url, callable),
            ) ==> edges.contains((url, callable))
            &&& query.visibility is Use && listed(doc.includes).contains(url) && !visited.contains(
                (url, callable),
            ) ==> edges.contains((url, callable))
            &&& query.include_builtin && !visited.contains((query.builtin_url, all))
                ==> edges.len() > 0 && edges[0] == (query.builtin_url, all)
        }),
{
    let vis = query.visibility;
    let path = path_edges(doc, env, vis, lexical_path(doc.tree, start));
    let first = unvisited(listed(doc.includes), vis.nested(DependencyKind::Include), visited);
    let second = unvisited(listed(doc.uses), vis.nested(DependencyKind::Use), visited);
    let builtin = if query.include_builtin && !visited.contains(
        (query.builtin_url, DependencyKind::Include),
    ) {
        seq![(query.builtin_url, DependencyKind::Include)]
    } else {
        Seq::empty()
    };
    let edges = scanned(doc, env, query, visited, start).edges;
    assert(edges == builtin + first + second + path);
    let n = builtin.len() as int;
    if let Some(kind) = vis.nested(DependencyKind::Include) {
        if listed(doc.includes).contains(url) && !visited.contains((url, kind)) {
            lemma_unvisited_listed(listed(doc.includes), kind, visited, url);
            let j = choose|j: int| 0 <= j < first.len() && first[j] == (url, kind);
            assert(edges[n + j] == (url, kind));
        }
    }
    if let Some(kind) = vis.nested(DependencyKind::Use) {
        if listed(doc.uses).contains(url) && !visited.contains((url, kind)) {
            lemma_unvisited_listed(listed(doc.uses), kind, visited, url);
            let j = choose|j: int| 0 <= j < second.len() && second[j] == (url, kind);
            assert(edges[n + first.len() + j] == (url, kind));
        }
    }
}

/// A file of a list that was not visited is among those that were not.
proof fn lemma_unvisited_listed(
    urls: Seq<Seq<char>>,
    kind: DependencyKind,
    visited: Set<FileKey>,
    url: Seq<char>,
)
    requires
        urls.contains(url),
        !visited.contains((url, kind)),
    ensures
        unvisited(urls, Some(kind), visited).contains((url, kind)),
    decreases urls.len(),
{
    let rest = urls.drop_last();
    let earlier = unvisited(rest, Some(kind), visited);
    let all = unvisited(urls, Some(kind), visited);
    let k = choose|k: int| 0 <= k < urls.len() && urls[k] == url;
    if urls.last() == url {
        assert(all[all.len() - 1] == (url, kind));
    } else {
        assert(rest[k] == url);
        lemma_unvisited_listed(rest, kind, visited, url);
        let j = choose|j: int| 0 <= j < earlier.len() && earlier[j] == (url, kind);
        assert(all[j] == (url, kind));
    }
}

/// Whether an item is a parameter of a name of one of a list of modules and functions.
pub open spec fn parameter_of_items(
    items: Seq<ItemView>,
    name: Seq<char>,
    found: ItemView,
) -> bool {
    exists|i: int, params: Seq<ParamView>, p: int|
        0 <= i < items.len() && #[trigger] called_with(items[i], params) && 0 <= p < params.len()
            && (#[trigger] params[p]).name == name && found.name == name && found.range
            == params[p].range && found.url == items[i].url && found.kind is Variable
}

/// The first parameter of a name is found.
proof fn lemma_param_named(params: Seq<ParamView>, name: Seq<char>, k: int)
    requires
        0 <= k,
    ensures
        match param_named(params, name, k) {
            Some(p) => k <= p < params.len() && params[p].name == name,
            None => forall|p: int| k <= p < params.len() ==> (#[trigger] params[p]).name != name,
        },
    decreases params.len() - k,
{
    if k < params.len() && params[k].name != name {
        lemma_param_named(params, name, k + 1);
    }
}

/// The parameter of a name is found where one of the items has one.
proof fn lemma_param_of_items(items: Seq<ItemView>, name: Seq<char>, k: int)
    requires
        0 <= k,
    ensures
        ({
            let found = param_of_items(items, name, k);
            &&& found.len() <= 1
            &&& found.len() == 1 ==> parameter_of_items(items, name, found[0])
            &&& found.len() == 0 ==> forall|i: int, params: Seq<ParamView>, p: int|
                k <= i < items.len() && #[trigger] called_with(items[i], params) && 0 <= p
                    < params.len() ==> (#[trigger] params[p]).name != name
        }),
    decreases items.len() - k,
{
    if k < items.len() {
        let found = param_of_items(items, name, k);
        lemma_param_of_items(items, name, k + 1);
        match items[k].kind.params() {
            Some(own) => {
                assert(called_with(items[k], own));
                lemma_param_named(own, name, 0);
                if let Some(p) = param_named(own, name, 0) {
                    assert(own[p].name == name);
                    assert(parameter_of_items(items, name, found[0]));
                } else {
                    assert forall|i: int, params: Seq<ParamView>, p: int|
                        found.len() == 0 && k <= i < items.len() && #[trigger] called_with(
                            items[i],
                            params,
                        ) && 0 <= p < params.len() implies (#[trigger] params[p]).name != name by {
                        if i == k {
                            assert(params == own);
                        }
                    }
                }
            },
            None => {
                assert forall|i: int, params: Seq<ParamView>, p: int|
                    found.len() == 0 && k <= i < items.len() && #[trigger] called_with(
                        items[i],
                        params,
                    ) && 0 <= p < params.len() implies (#[trigger] params[p]).name != name by {
                    assert(i != k);
                }
            },
        }
    }
}

/// The name of an argument stands for the parameter of that name of what is called: where a search
/// for the name of the call finds a module or a function with such a parameter, the search for the
/// name of the argument finds the parameter, and nothing else.
pub proof fn law_an_argument_name_stands_for_its_parameter(
    query: SearchQuery,
    store: StoreView,
    cache: Map<FileKey, Seq<ItemView>>,
    borrowed: Seq<Seq<char>>,
    doc: DocView,
    start: int,
    depth: Option<int>,
    call: int,
    callee: int,
)
    requires
        !query.findall,
        query.filter == FilterView::Named(doc.tree.node_text(doc.code, start)),
        names_an_argument(doc.tree, start),
        ({
            let list = doc.tree.parent(doc.tree.parent(start)->0)->0;
            doc.tree.parent(list) == Some(call)
        }),
        doc.tree.kind(call) is ModuleCall || doc.tree.kind(call) is FunctionCall,
        doc.tree.child_by_field(call, Field::Name) == Some(callee),
    ensures
        ({
            let name = doc.tree.node_text(doc.code, start);
            let items = search_from(
                SearchQuery {
                    filter: FilterView::Named(doc.tree.node_text(doc.code, callee)),
                    findall: true,
                    cached: false,
                    ..query
                },
                store,
                Map::empty(),
                borrowed,
                doc,
                call,
                depth,
                Seq::empty(),
            ).1;
            let found = identities(query, store, cache, borrowed, doc, start, depth).1;
            (exists|i: int, params: Seq<ParamView>, p: int|
                0 <= i < items.len() && #[trigger] called_with(items[i], params) && 0 <= p
                    < params.len() && (#[trigger] params[p]).name == name) ==> found.len() == 1
                && parameter_of_items(items, name, found[0])
        }),
{
    let name = doc.tree.node_text(doc.code, start);
    let items = search_from(
        SearchQuery {
            filter: FilterView::Named(doc.tree.node_text(doc.code, callee)),
            findall: true,
            cached: false,
            ..query
        },
        store,
        Map::empty(),
        borrowed,
        doc,
        call,
        depth,
        Seq::empty(),
    ).1;
    lemma_param_of_items(items, name, 0);
    let argument = named_argument(doc, start);
    assert(argument is Some);
    assert(argument->0.call == call && argument->0.name == name);
    let (held, left, named) = named_argument_search(query, store, borrowed, doc, start, depth);
    assert(named == param_of_items(items, name, 0));
    if named.len() > 0 {
        let found = identities(query, store, cache, borrowed, doc, start, depth).1;
        assert(found == named);
    }
}

/// A parameter with a default value is read with the text of that value.
pub proof fn law_defaults_are_read(code: Seq<char>, tree: Tree, parameter: int)
    requires
        tree.kind(parameter) is Parameter,
        tree.child(parameter, 0) is Some,
    ensures
        ({
            let child = tree.child(parameter, 0)->0;
            match (
                tree.child_by_field(child, Field::Name),
                tree.child_by_field(child, Field::Value),
            ) {
                (Some(name), Some(value)) => tree.kind(child) is Assignment ==> (param_of(
                    code,
                    tree,
                    parameter,
                ) matches Some(param) && param.name == tree.node_text(code, name) && param.range
                    == tree.range(name) && param.default == Some(
                    trimmed(tree.node_text(code, value)),
                )),
                _ => true,
            }
        }),
        tree.kind(tree.child(parameter, 0)->0) is Identifier ==> (param_of(
            code,
            tree,
            parameter,
        ) matches Some(param) && param.default is None),
{
}

/// Whether a search comes to a file and goes through it: it was not there in that way, is not too
/// far away, nothing is kept of it, and the file can be read and is not being searched.
pub open spec fn goes_through(
    query: SearchQuery,
    state: SearchView,
    key: FileKey,
    depth: Option<int>,
    level: int,
) -> bool {
    let loaded = with_loaded(state.store, key.0, query.env);
    &&& !state.visited.contains(key)
    &&& depth != Some(0int)
    &&& 0 <= level < usize::MAX
    &&& query.findall || !query.cached || !state.cache.contains_key(key)
    &&& find(loaded, key.0) is Some
    &&& !still_borrowed(state.borrowed, state.store, loaded, key.0).contains(key.0)
}

/// How far a search has come when it starts with a file.
pub open spec fn inside_file(query: SearchQuery, state: SearchView, key: FileKey) -> SearchView {
    let loaded = with_loaded(state.store, key.0, query.env);
    SearchView {
        store: with_generated(loaded, key.0, query.env),
        visited: state.visited.insert(key),
        borrowed: still_borrowed(state.borrowed, state.store, loaded, key.0).push(key.0),
        ..state
    }
}

/// A search for all things of a name, or for all names, goes through the files that a file brings
/// in: with one step less left, if steps are limited at all. All that it finds there is found.
pub proof fn law_a_search_goes_deeper(
    query: SearchQuery,
    state: SearchView,
    edges: Seq<FileKey>,
    k: int,
    depth: Option<int>,
    level: int,
    found: Seq<ItemView>,
    i: int,
)
    requires
        0 <= k < edges.len(),
        query.findall,
        goes_through(query, state, edges[k], depth, level),
        ({
            let inside = inside_file(query, state, edges[k]);
            let doc = lookup(inside.store, edges[k].0)->0;
            let scan = scanned(
                doc,
                query.env,
                query.scan_query(edges[k].1, false),
                inside.visited,
                0,
            );
            let left = match depth {
                Some(steps) => Some(steps - 1),
                None => None,
            };
            0 <= i < search_files(
                query,
                inside,
                scan.edges,
                0,
                left,
                level + 1,
                scan.items,
            ).1.len()
        }),
    ensures
        ({
            let inside = inside_file(query, state, edges[k]);
            let doc = lookup(inside.store, edges[k].0)->0;
            let scan = scanned(
                doc,
                query.env,
                query.scan_query(edges[k].1, false),
                inside.visited,
                0,
            );
            let left = match depth {
                Some(steps) => Some(steps - 1),
                None => None,
            };
            search_files(query, state, edges, k, depth, level, found).1.contains(
                search_files(query, inside, scan.edges, 0, left, level + 1, scan.items).1[i],
            )
        }),
{
    let key = edges[k];
    let inside = inside_file(query, state, key);
    let doc = lookup(inside.store, key.0)->0;
    let scan = scanned(doc, query.env, query.scan_query(key.1, false), inside.visited, 0);
    let local = local_result(query.findall, Seq::empty(), scan.items);
    assert(local =~= scan.items);
    let (now, nested) = file_step(query, state, key, depth, level);
    let deeper = search_files(
        query,
        inside,
        scan.edges,
        0,
        next_depth(depth),
        level + 1,
        scan.items,
    ).1;
    assert(nested == deeper);
    let all = found + nested;
    assert(all[found.len() + i] == deeper[i]);
    law_a_search_keeps_what_it_found(query, now, edges, k + 1, depth, level, all);
    let result = search_files(query, state, edges, k, depth, level, found).1;
    if all.len() > 0 && !query.findall {
    } else {
        assert(result == search_files(query, now, edges, k + 1, depth, level, all).1);
    }
    assert(result[found.len() + i] == deeper[i]);
}

/// A search for one thing of a name that comes to a file which declares one at its top level that
/// is visible ends there, with the first of them.
pub proof fn law_a_search_ends_where_it_finds_something(
    query: SearchQuery,
    state: SearchView,
    edges: Seq<FileKey>,
    k: int,
    depth: Option<int>,
    level: int,
    i: int,
)
    requires
        0 <= k < edges.len(),
        !query.findall,
        goes_through(query, state, edges[k], depth, level),
        ({
            let doc = lookup(inside_file(query, state, edges[k]).store, edges[k].0)->0;
            let items = listed(doc.root_items);
            let visible = |item: ItemView|
                query.filter.accepts(item.name) && (edges[k].1 is Include || item.kind is Module
                    || item.kind is Function);
            &&& doc.tree.parent(0) is None
            &&& 0 <= i < items.len()
            &&& visible(items[i])
            &&& forall|j: int| 0 <= j < i ==> !visible(#[trigger] items[j])
        }),
    ensures
        ({
            let doc = lookup(inside_file(query, state, edges[k]).store, edges[k].0)->0;
            search_files(query, state, edges, k, depth, level, Seq::empty()).1 == seq![
                listed(doc.root_items)[i],
            ]
        }),
{
    let key = edges[k];
    let inside = inside_file(query, state, key);
    let doc = lookup(inside.store, key.0)->0;
    let items = listed(doc.root_items);
    let scan = scanned(doc, query.env, query.scan_query(key.1, false), inside.visited, 0);
    let path = lexical_path(doc.tree, 0);
    assert(path =~= Seq::empty());
    let roots = root_matches(items, query.filter, key.1);
    assert(path_matches(
        doc,
        query.filter,
        key.1,
        default_context(doc, 0),
        path,
    ) =~= Seq::empty());
    assert(scan.items =~= roots);
    lemma_first_visible(items, query.filter, key.1, i);
    let local = local_result(query.findall, Seq::empty(), scan.items);
    assert(local =~= seq![items[i]]);
    let none = Seq::<ItemView>::empty();
    assert(none + local =~= local);
}

/// The first item of a list that is visible and looked for comes first among those that match.
proof fn lemma_first_visible(
    items: Seq<ItemView>,
    filter: FilterView,
    visibility: DependencyKind,
    k: int,
)
    requires
        0 <= k < items.len(),
        filter.accepts(items[k].name) && (visibility is Include || items[k].kind is Module
            || items[k].kind is Function),
        forall|j: int|
            0 <= j < k ==> !(filter.accepts((#[trigger] items[j]).name) && (visibility is Include
                || items[j].kind is Module || items[j].kind is Function)),
    ensures
        root_matches(items, filter, visibility).len() > 0,
        root_matches(items, filter, visibility)[0] == items[k],
    decreases items.len(),
{
    reveal(Seq::filter);
    let rest = items.drop_last();
    if k < rest.len() {
        lemma_first_visible(rest, filter, visibility, k);
    } else {
        let pred = |item: ItemView|
            (visibility is Include || item.kind.callable()) && filter.accepts(item.name);
        assert(rest.filter(pred) =~= Seq::empty()) by {
            if rest.filter(pred).len() > 0 {
                let x = rest.filter(pred)[0];
                assert(rest.filter(pred).contains(x));
                lemma_filter_from(rest, pred, x);
                let j = choose|j: int| 0 <= j < rest.len() && rest[j] == x;
                assert(items[j] == x);
            }
        }
    }
}

/// A limit of zero steps stands for no limit, and any other for itself.
pub proof fn law_no_steps_are_no_limit(setting: usize)
    ensures
        setting == 0 ==> depth_limit(setting) is None,
        setting > 0 ==> depth_limit(setting) == Some(setting as int),
{
}

/// A search under the settings of a server is one that keeps nothing, goes as far as the setting
/// says, and starts with the document itself being searched.
pub proof fn law_settings_are_obeyed(
    settings: SettingsView,
    env: EnvView,
    store: StoreView,
    doc: DocView,
    filter: FilterView,
    start: int,
    findall: bool,
)
    ensures
        ({
            let query = SearchQuery {
                filter,
                findall,
                builtin_url: settings.builtin_url,
                env,
                cached: false,
            };
            let depth = if settings.depth == 0 {
                None
            } else {
                Some(settings.depth as int)
            };
            let (after, found) = identities(
                query,
                store,
                Map::empty(),
                seq![doc.url],
                doc,
                start,
                depth,
            );
            settings.find(env, store, doc, filter, start, findall) == (after.store, found)
        }),
{
}

/// What an earlier search kept of a file is found again when a search for one thing comes to the
/// file: it ends with it, unless that was nothing. The file is not looked at.
pub proof fn law_what_is_kept_is_found_again(
    query: SearchQuery,
    state: SearchView,
    edges: Seq<FileKey>,
    k: int,
    depth: Option<int>,
    level: int,
)
    requires
        0 <= k < edges.len(),
        query.cached,
        !query.findall,
        !state.visited.contains(edges[k]),
        depth != Some(0int),
        state.cache.contains_key(edges[k]),
        state.cache[edges[k]].len() > 0,
    ensures
        ({
            let (after, found) = search_files(
                query,
                state,
                edges,
                k,
                depth,
                level,
                Seq::empty(),
            );
            found == state.cache[edges[k]] && after.store == state.store && after.cache
                == state.cache
        }),
{
    let none = Seq::<ItemView>::empty();
    assert(none + state.cache[edges[k]] =~= state.cache[edges[k]]);
}

/// What a search for one thing finds from a file on is kept under that file, if it keeps anything.
pub proof fn law_what_is_found_is_kept(
    query: SearchQuery,
    state: SearchView,
    edges: Seq<FileKey>,
    k: int,
    depth: Option<int>,
    level: int,
)
    requires
        0 <= k < edges.len(),
        query.cached,
        !query.findall,
        goes_through(query, state, edges[k], depth, level),
        search_files(query, state, edges.take(k + 1), k, depth, level, Seq::empty()).1.len() > 0,
    ensures
        ({
            let (after, found) = search_files(
                query,
                state,
                edges.take(k + 1),
                k,
                depth,
                level,
                Seq::empty(),
            );
            after.cache.contains_key(edges[k]) && after.cache[edges[k]] == found
        }),
{
    let only = edges.take(k + 1);
    assert(only[k] == edges[k]);
    let none = Seq::<ItemView>::empty();
    let (now, nested) = file_step(query, state, edges[k], depth, level);
    assert(none + nested =~= nested);
    reveal_with_fuel(search_files, 2);
}

/// Whether a node is the default value of a parameter of a module or a function, which an
/// identifier names.
pub open spec fn is_default_of(tree: Tree, value: int, owner: int, name: int) -> bool {
    &&& tree.kind(owner) is ModuleItem || tree.kind(owner) is FunctionItem
    &&& tree.kind(name) is Identifier
    &&& tree.parent(value) matches Some(assignment) && {
        &&& tree.kind(assignment) is Assignment
        &&& tree.child_by_field(assignment, Field::Name) == Some(name)
        &&& tree.child_by_field(assignment, Field::Value) == Some(value)
        &&& tree.parent(assignment) matches Some(parameter) && {
            &&& tree.kind(parameter) is Parameter
            &&& tree.parent(parameter) matches Some(list) && tree.kind(list) is Parameters
                && tree.parent(list) == Some(owner)
        }
    }
}

/// Whether a node lies in another, and not in an assignment inside of that.
pub open spec fn lies_directly_in(tree: Tree, node: int, outer: int) -> bool {
    &&& lies_in(tree, node, outer)
    &&& forall|b: int| #[trigger]
        lies_in(tree, node, b) && b > outer ==> !(tree.parent(b) matches Some(parent)
            && tree.kind(parent) is Assignment)
}

/// Whether a node lies in the default value of a parameter that has another name.
pub open spec fn in_default_of_another(doc: DocView, node: int, name: Seq<char>) -> bool {
    exists|value: int, owner: int, other: int| #[trigger]
        is_default_of(doc.tree, value, owner, other) && lies_directly_in(doc.tree, node, value)
            && doc.tree.node_text(doc.code, other) != name
}

/// A node in a default value belongs to the parameter that has the value.
proof fn lemma_default_context(doc: DocView, node: int, value: int, owner: int, name: int)
    requires
        doc.tree.wf(),
        doc.tree.has(node),
        is_default_of(doc.tree, value, owner, name),
        lies_directly_in(doc.tree, node, value),
    ensures
        default_context(doc, node) matches Some(context) && context.name == doc.tree.node_text(
            doc.code,
            name,
        ) && context.owner_start == doc.tree.nodes[owner].start_byte && context.owner_end
            == doc.tree.nodes[owner].end_byte,
    decreases node,
{
    let tree = doc.tree;
    assert(tree.node_wf(node));
    if node != value {
        let parent = tree.parent(node)->0;
        lemma_lies_in(tree, parent, value);
        assert(lies_in(tree, node, node));
        assert forall|b: int| #[trigger] lies_in(tree, parent, b) && b > value implies !(tree.parent(
            b,
        ) matches Some(outer) && tree.kind(outer) is Assignment) by {
            assert(lies_in(tree, node, b));
        }
        lemma_default_context(doc, parent, value, owner, name);
    }
}

/// What matches at a node by its name is declared there.
proof fn lemma_match_local(
    doc: DocView,
    filter: FilterView,
    visibility: DependencyKind,
    context: Option<DefaultContext>,
    node: int,
    k: int,
)
    requires
        doc.tree.parent(node) is Some,
        0 <= k < node_matches(doc, filter, visibility, context, node).len(),
    ensures
        declares_locally(
            doc.code,
            doc.tree,
            node,
            node_matches(doc, filter, visibility, context, node)[k].name,
        ),
{
    let (code, tree) = (doc.code, doc.tree);
    let all = node_matches(doc, filter, visibility, context, node);
    let item = ItemView::parse(code, tree, node)->0;
    law_variables_are_read(code, tree, node);
    lemma_match_declared(doc, filter, visibility, context, node, k);
    assert(at_top_level(tree, node) == below_root(tree, node));
    let params = match item.kind.params() {
        Some(params) => param_matches(
            params,
            filter,
            skipped_param(doc, node, context),
            doc.url,
        ),
        None => Seq::empty(),
    };
    if k < params.len() {
        let own = item.kind.params()->0;
        law_callables_are_read_with_their_parameters(code, tree, node);
        lemma_param_match_from(own, filter, skipped_param(doc, node, context), doc.url, k);
        let j = choose|j: int|
            0 <= j < own.len() && params[k] == ItemView::of_param(
                #[trigger] own[j],
                Some(doc.url),
                false,
            );
        assert(param_declared(code, tree, node, own[j]));
        let n = choose|n: int| #[trigger]
            has_parameter(code, tree, node, n) && own[j].name == tree.node_text(code, n)
                && own[j].range == tree.range(n);
        assert(has_parameter(code, tree, node, n));
    }
}

/// Where no node of a path matches, the path does not.
proof fn lemma_no_match(
    doc: DocView,
    filter: FilterView,
    visibility: DependencyKind,
    context: Option<DefaultContext>,
    path: Seq<int>,
)
    requires
        forall|k: int|
            0 <= k < path.len() ==> node_matches(
                doc,
                filter,
                visibility,
                context,
                #[trigger] path[k],
            ).len() == 0,
    ensures
        path_matches(doc, filter, visibility, context, path).len() == 0,
    decreases path.len(),
{
    if path.len() > 0 {
        let rest = path.drop_last();
        assert forall|k: int| 0 <= k < rest.len() implies node_matches(
            doc,
            filter,
            visibility,
            context,
            #[trigger] rest[k],
        ).len() == 0 by {
            assert(rest[k] == path[k]);
        }
        lemma_no_match(doc, filter, visibility, context, rest);
        assert(node_matches(doc, filter, visibility, context, path[path.len() - 1]).len() == 0);
    }
}

/// The default value of a parameter does not see the parameter: a search for the name of the
/// parameter from its own default value finds nothing in the document where only the parameter has
/// that name there, so that in `p = p` the name on the right stands for something further out.
pub proof fn law_a_default_looks_past_its_parameter(
    query: SearchQuery,
    doc: DocView,
    node: int,
    value: int,
    owner: int,
    name: int,
)
    requires
        doc.tree.wf(),
        doc.tree.has(node),
        is_default_of(doc.tree, value, owner, name),
        lies_directly_in(doc.tree, node, value),
        !query.findall,
        query.filter == FilterView::Named(doc.tree.node_text(doc.code, name)),
        declared_text(doc.code, doc.tree, owner) != Some(doc.tree.node_text(doc.code, name)),
        forall|d: int| #[trigger]
            sees(doc.tree, node, d) && d != owner ==> !declares_locally(
                doc.code,
                doc.tree,
                d,
                doc.tree.node_text(doc.code, name),
            ),
        forall|k: int|
            0 <= k < listed(doc.root_items).len() ==> (#[trigger] listed(doc.root_items)[k]).name
                != doc.tree.node_text(doc.code, name),
    ensures
        first_scan(query, doc, node).items.len() == 0,
{
    let (filter, vis) = (query.filter, DependencyKind::Include);
    let tree = doc.tree;
    let text = tree.node_text(doc.code, name);
    let path = lexical_path(tree, node);
    let context = default_context(doc, node);
    lemma_default_context(doc, node, value, owner, name);
    lemma_scan_names(doc, query, node);
    let scan = first_scan(query, doc, node);
    let local = path_matches(doc, filter, vis, context, path);
    let roots = root_matches(listed(doc.root_items), filter, vis);
    assert(scan.items == local + roots);
    assert forall|k: int| 0 <= k < path.len() implies node_matches(
        doc,
        filter,
        vis,
        context,
        #[trigger] path[k],
    ).len() == 0 by {
        let d = path[k];
        let matched = node_matches(doc, filter, vis, context, d);
        assert(path.contains(d));
        law_a_node_sees_what_is_around_and_before_it(tree, node, d);
        let outer = choose|outer: int| #[trigger] seen_beside(tree, node, d, outer);
        if matched.len() > 0 {
            lemma_node_accepted(doc, filter, vis, context, d, 0);
            lemma_match_local(doc, filter, vis, context, d, 0);
            if d == owner {
                let item = ItemView::parse(doc.code, tree, owner)->0;
                law_callables_are_read_with_their_parameters(doc.code, tree, owner);
                law_variables_are_read(doc.code, tree, owner);
                if let Some(params) = item.kind.params() {
                    lemma_skipped_param(params, filter, text, doc.url);
                    let picked = param_matches(params, filter, Some(text), doc.url);
                    if picked.len() > 0 {
                        assert(matched[0] == picked[0]);
                    }
                }
            }
        }
    }
    lemma_no_match(doc, filter, vis, context, path);
    let pred = |item: ItemView| (vis is Include || item.kind.callable()) && filter.accepts(item.name);
    if roots.len() > 0 {
        assert(roots == listed(doc.root_items).filter(pred));
        assert(roots.contains(roots[0]));
        lemma_filter_from(listed(doc.root_items), pred, roots[0]);
        let j = choose|j: int|
            0 <= j < listed(doc.root_items).len() && listed(doc.root_items)[j] == roots[0];
        assert(listed(doc.root_items)[j].name != text);
    }
}

/// What matches at a node is looked for.
proof fn lemma_node_accepted(
    doc: DocView,
    filter: FilterView,
    visibility: DependencyKind,
    context: Option<DefaultContext>,
    node: int,
    k: int,
)
    requires
        0 <= k < node_matches(doc, filter, visibility, context, node).len(),
    ensures
        filter.accepts(node_matches(doc, filter, visibility, context, node)[k].name),
{
    let item = ItemView::parse(doc.code, doc.tree, node)->0;
    if let Some(params) = item.kind.params() {
        lemma_params_accepted(params, filter, skipped_param(doc, node, context), doc.url);
    }
}

} // verus!
