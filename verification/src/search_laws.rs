use vstd::prelude::*;

use crate::cursor::lemma_filter_from;
use crate::environment::EnvView;
use crate::kinds::Field;
use crate::parse_code::DocView;
use crate::resolve::{
    first_scan, identities, local_result, named_argument_search, next_depth, param_named,
    param_of_items, released, search_files, search_from, still_borrowed, SearchQuery, SearchView,
};
use crate::response_item::{ItemView, ParamView};
use crate::scan::{
    lexical_path, listed, named_argument, node_matches, param_matches, path_matches, root_matches,
    scanned, unvisited, DefaultContext, DependencyKind, FileKey, FilterView, ScanQuery,
};
use crate::store::{find, lookup, with_generated, with_loaded, StoreView};
use crate::syntax::Tree;

verus! {

/// Whether the names of all items of a list are looked for.
pub open spec fn all_accepted(filter: FilterView, items: Seq<ItemView>) -> bool {
    forall|k: int| 0 <= k < items.len() ==> filter.accepts((#[trigger] items[k]).name)
}

/// Whether a list is what a search may find: all names are looked for, and it is at most one
/// unless all were asked for.
pub open spec fn fitting(filter: FilterView, findall: bool, items: Seq<ItemView>) -> bool {
    all_accepted(filter, items) && (!findall ==> items.len() <= 1)
}

/// Whether all that was kept of earlier searches is what a search may find.
pub open spec fn fitting_cache(filter: FilterView, cache: Map<FileKey, Seq<ItemView>>) -> bool {
    forall|key: FileKey| #[trigger] cache.contains_key(key) ==> fitting(filter, false, cache[key])
}

/// The parameters that a search picks are looked for.
pub(crate) proof fn lemma_params_accepted(
    params: Seq<ParamView>,
    filter: FilterView,
    skip: Option<Seq<char>>,
    url: Seq<char>,
)
    ensures
        all_accepted(filter, param_matches(params, filter, skip, url)),
    decreases params.len(),
{
    if params.len() > 0 {
        lemma_params_accepted(params.drop_last(), filter, skip, url);
    }
}

/// What a search picks on the way up from a node is looked for.
proof fn lemma_path_accepted(
    doc: DocView,
    filter: FilterView,
    visibility: DependencyKind,
    context: Option<DefaultContext>,
    path: Seq<int>,
)
    ensures
        all_accepted(filter, path_matches(doc, filter, visibility, context, path)),
    decreases path.len(),
{
    if path.len() > 0 {
        let earlier = path_matches(doc, filter, visibility, context, path.drop_last());
        let here = node_matches(doc, filter, visibility, context, path.last());
        lemma_path_accepted(doc, filter, visibility, context, path.drop_last());
        assert(all_accepted(filter, here)) by {
            if let Some(item) = ItemView::parse(doc.code, doc.tree, path.last()) {
                if let Some(params) = item.kind.params() {
                    lemma_params_accepted(
                        params,
                        filter,
                        crate::scan::skipped_param(doc, path.last(), context),
                        doc.url,
                    );
                }
            }
        }
        let all = earlier + here;
        assert forall|k: int| 0 <= k < all.len() implies filter.accepts((#[trigger] all[k]).name) by {
            if k < earlier.len() {
                assert(all[k] == earlier[k]);
            } else {
                assert(all[k] == here[k - earlier.len()]);
            }
        }
    }
}

/// What a search picks at the top level is looked for, and visible.
proof fn lemma_root_accepted(items: Seq<ItemView>, filter: FilterView, visibility: DependencyKind, k: int)
    requires
        0 <= k < root_matches(items, filter, visibility).len(),
    ensures
        filter.accepts(root_matches(items, filter, visibility)[k].name),
        visibility is Use ==> root_matches(items, filter, visibility)[k].kind.callable(),
        items.contains(root_matches(items, filter, visibility)[k]),
{
    let pred = |item: ItemView|
        (visibility is Include || item.kind.callable()) && filter.accepts(item.name);
    let kept = items.filter(pred);
    assert(kept.contains(kept[k]));
    lemma_filter_from(items, pred, kept[k]);
}

/// What a search finds in one file is looked for.
pub proof fn law_a_scan_finds_what_is_looked_for(
    doc: DocView,
    env: EnvView,
    query: ScanQuery,
    visited: Set<FileKey>,
    start: int,
)
    ensures
        all_accepted(query.filter, scanned(doc, env, query, visited, start).items),
{
    let context = if query.findall {
        None
    } else {
        crate::scan::default_context(doc, start)
    };
    let path = lexical_path(doc.tree, start);
    let first = path_matches(doc, query.filter, query.visibility, context, path);
    let second = root_matches(listed(doc.root_items), query.filter, query.visibility);
    lemma_path_accepted(doc, query.filter, query.visibility, context, path);
    let all = first + second;
    assert forall|k: int| 0 <= k < all.len() implies query.filter.accepts(
        (#[trigger] all[k]).name,
    ) by {
        if k < first.len() {
            assert(all[k] == first[k]);
        } else {
            lemma_root_accepted(
                listed(doc.root_items),
                query.filter,
                query.visibility,
                k - first.len(),
            );
        }
    }
}

/// What a search through files finds is what it may find, and so is what it keeps.
proof fn lemma_files_fitting(
    query: SearchQuery,
    state: SearchView,
    edges: Seq<FileKey>,
    k: int,
    depth: Option<int>,
    level: int,
    found: Seq<ItemView>,
)
    requires
        fitting_cache(query.filter, state.cache),
        all_accepted(query.filter, found),
        !query.findall ==> found.len() == 0,
    ensures
        ({
            let (after, items) = search_files(query, state, edges, k, depth, level, found);
            fitting(query.filter, query.findall, items) && fitting_cache(query.filter, after.cache)
        }),
    decreases usize::MAX - level, edges.len() - k,
{
    if 0 <= k < edges.len() {
        let key = edges[k];
        if state.visited.contains(key) || depth == Some(0int) {
            lemma_files_fitting(query, state, edges, k + 1, depth, level, found);
        } else if query.uses_cache() && state.cache.contains_key(key) {
            let now = SearchView { visited: state.visited.insert(key), ..state };
            let all = found + state.cache[key];
            assert(all =~= state.cache[key]);
            if all.len() == 0 {
                lemma_files_fitting(query, now, edges, k + 1, depth, level, all);
            }
        } else {
            let loaded = with_loaded(state.store, key.0, query.env);
            let borrowed = still_borrowed(state.borrowed, state.store, loaded, key.0);
            if find(loaded, key.0) is None {
            } else if borrowed.contains(key.0) || level >= usize::MAX {
                let now = SearchView { store: loaded, borrowed, ..state };
                if !(found.len() > 0 && !query.findall) {
                    lemma_files_fitting(query, now, edges, k + 1, depth, level, found);
                }
            } else {
                let generated = with_generated(loaded, key.0, query.env);
                let doc = lookup(generated, key.0)->0;
                let inside = SearchView {
                    store: generated,
                    visited: state.visited.insert(key),
                    borrowed: borrowed.push(key.0),
                    ..state
                };
                let scan = scanned(
                    doc,
                    query.env,
                    query.scan_query(key.1, false),
                    inside.visited,
                    0,
                );
                law_a_scan_finds_what_is_looked_for(
                    doc,
                    query.env,
                    query.scan_query(key.1, false),
                    inside.visited,
                    0,
                );
                let local = local_result(query.findall, Seq::empty(), scan.items);
                if query.findall {
                    assert(local =~= scan.items);
                }
                assert(fitting(query.filter, query.findall, local));
                let (after, nested) = if local.len() > 0 && !query.findall {
                    (inside, local)
                } else {
                    search_files(
                        query,
                        inside,
                        scan.edges,
                        0,
                        next_depth(depth),
                        level + 1,
                        local,
                    )
                };
                if !(local.len() > 0 && !query.findall) {
                    lemma_files_fitting(
                        query,
                        inside,
                        scan.edges,
                        0,
                        next_depth(depth),
                        level + 1,
                        local,
                    );
                }
                let left = SearchView { borrowed: released(after.borrowed, key.0), ..after };
                let now = if query.uses_cache() {
                    SearchView { cache: left.cache.insert(key, nested), ..left }
                } else {
                    left
                };
                assert(fitting_cache(query.filter, now.cache));
                let all = found + nested;
                assert(all_accepted(query.filter, all));
                if !query.findall {
                    assert(all =~= nested);
                }
                if !(all.len() > 0 && !query.findall) {
                    lemma_files_fitting(query, now, edges, k + 1, depth, level, all);
                }
            }
        }
    }
}

/// The parameter that an argument names has the name of the argument, and there is at most one.
proof fn lemma_param_of_items(items: Seq<ItemView>, name: Seq<char>, k: int)
    ensures
        param_of_items(items, name, k).len() <= 1,
        forall|j: int|
            0 <= j < param_of_items(items, name, k).len() ==> (#[trigger] param_of_items(
                items,
                name,
                k,
            )[j]).name == name,
    decreases items.len() - k,
{
    if 0 <= k < items.len() {
        if let Some(params) = items[k].kind.params() {
            lemma_param_named(params, name, 0);
        }
        lemma_param_of_items(items, name, k + 1);
    }
}

/// What [`param_named`] finds has the name.
proof fn lemma_param_named(params: Seq<ParamView>, name: Seq<char>, k: int)
    ensures
        param_named(params, name, k) matches Some(p) ==> 0 <= p < params.len() && params[p].name
            == name,
    decreases params.len() - k,
{
    if 0 <= k < params.len() && params[k].name != name {
        lemma_param_named(params, name, k + 1);
    }
}

/// A search finds nothing but what it looks for, and one thing at most unless all were asked for,
/// however many files it goes through and whatever was kept of such searches before.
pub proof fn law_a_search_finds_what_is_looked_for(
    query: SearchQuery,
    store: StoreView,
    cache: Map<FileKey, Seq<ItemView>>,
    borrowed: Seq<Seq<char>>,
    doc: DocView,
    start: int,
    depth: Option<int>,
)
    requires
        fitting_cache(query.filter, cache),
    ensures
        ({
            let (after, items) = identities(query, store, cache, borrowed, doc, start, depth);
            fitting(query.filter, query.findall, items) && fitting_cache(query.filter, after.cache)
        }),
{
    let (held, left, named) = named_argument_search(query, store, borrowed, doc, start, depth);
    assert(fitting(query.filter, false, named)) by {
        if let Some(argument) = named_argument(doc, start) {
            if query.filter.accepts(argument.name) {
                if let Some(name) = doc.tree.child_by_field(argument.call, Field::Name) {
                    let (after, items) = search_from(
                        SearchQuery {
                            filter: FilterView::Named(doc.tree.node_text(doc.code, name)),
                            findall: true,
                            cached: false,
                            ..query
                        },
                        store,
                        Map::empty(),
                        borrowed,
                        doc,
                        argument.call,
                        depth,
                        Seq::empty(),
                    );
                    lemma_param_of_items(items, argument.name, 0);
                }
            }
        }
    }
    let scan = first_scan(query, doc, start);
    let visited = Set::<FileKey>::empty().insert((doc.url, DependencyKind::Include));
    law_a_scan_finds_what_is_looked_for(
        doc,
        query.env,
        query.scan_query(DependencyKind::Include, true),
        visited,
        start,
    );
    let local = local_result(query.findall, named, scan.items);
    assert(fitting(query.filter, query.findall, local));
    if !(local.len() > 0 && !query.findall) {
        lemma_files_fitting(
            query,
            SearchView { store: held, visited, cache, borrowed: left },
            scan.edges,
            0,
            depth,
            1,
            local,
        );
    }
}

/// Whether all items of a list can be called.
pub open spec fn all_callable(items: Seq<ItemView>) -> bool {
    forall|k: int| 0 <= k < items.len() ==> (#[trigger] items[k]).kind.callable()
}

/// Whether all that was kept of files that were reached by `use` can be called.
pub open spec fn callable_cache(cache: Map<FileKey, Seq<ItemView>>) -> bool {
    forall|key: FileKey| #[trigger]
        cache.contains_key(key) && key.1 is Use ==> all_callable(cache[key])
}

/// Whether all files of a list are reached by `use`.
pub open spec fn all_used(edges: Seq<FileKey>) -> bool {
    forall|k: int| 0 <= k < edges.len() ==> (#[trigger] edges[k]).1 is Use
}

/// The root sees nothing above it.
proof fn lemma_root_path(tree: Tree)
    ensures
        lexical_path(tree, 0) == Seq::<int>::empty(),
{
}

/// The files of a list that were not visited are reached as they would be.
proof fn lemma_unvisited_kind(
    urls: Seq<Seq<char>>,
    kind: Option<DependencyKind>,
    visited: Set<FileKey>,
)
    ensures
        kind is None ==> unvisited(urls, kind, visited).len() == 0,
        forall|k: int|
            0 <= k < unvisited(urls, kind, visited).len() ==> Some(
                (#[trigger] unvisited(urls, kind, visited)[k]).1,
            ) == kind && urls.contains(unvisited(urls, kind, visited)[k].0),
    decreases urls.len(),
{
    if urls.len() > 0 {
        let rest = urls.drop_last();
        let earlier = unvisited(rest, kind, visited);
        let now = unvisited(urls, kind, visited);
        lemma_unvisited_kind(rest, kind, visited);
        assert forall|k: int| 0 <= k < now.len() implies Some((#[trigger] now[k]).1) == kind
            && urls.contains(now[k].0) by {
            if k < earlier.len() {
                assert(now[k] == earlier[k]);
                let j = choose|j: int| 0 <= j < rest.len() && rest[j] == earlier[k].0;
                assert(urls[j] == now[k].0);
            } else {
                assert(urls[urls.len() - 1] == now[k].0);
            }
        }
    }
}

/// A file that is reached by `use` shows nothing but what can be called, and leads on to nothing
/// but the files that it includes: a `use` in it goes no further.
pub proof fn law_use_shows_callables_alone(
    doc: DocView,
    env: EnvView,
    query: ScanQuery,
    visited: Set<FileKey>,
)
    requires
        query.visibility is Use,
        !query.include_builtin,
    ensures
        all_callable(scanned(doc, env, query, visited, 0).items),
        all_used(scanned(doc, env, query, visited, 0).edges),
        forall|k: int|
            0 <= k < scanned(doc, env, query, visited, 0).edges.len() ==> listed(
                doc.includes,
            ).contains((#[trigger] scanned(doc, env, query, visited, 0).edges[k]).0),
{
    lemma_root_path(doc.tree);
    let scan = scanned(doc, env, query, visited, 0);
    let items = root_matches(listed(doc.root_items), query.filter, query.visibility);
    assert(scan.items =~= items);
    assert forall|k: int| 0 <= k < items.len() implies (#[trigger] items[k]).kind.callable() by {
        lemma_root_accepted(listed(doc.root_items), query.filter, query.visibility, k);
    }
    lemma_unvisited_kind(listed(doc.includes), Some(DependencyKind::Use), visited);
    lemma_unvisited_kind(listed(doc.uses), None, visited);
    assert(scan.edges =~= unvisited(listed(doc.includes), Some(DependencyKind::Use), visited));
}

/// All that a search finds beyond files that are reached by `use` can be called: their variables
/// are not visible, nor is what they in turn `use`.
pub proof fn law_use_exports_callables_alone(
    query: SearchQuery,
    state: SearchView,
    edges: Seq<FileKey>,
    k: int,
    depth: Option<int>,
    level: int,
    found: Seq<ItemView>,
)
    requires
        all_used(edges),
        all_callable(found),
        callable_cache(state.cache),
    ensures
        ({
            let (after, items) = search_files(query, state, edges, k, depth, level, found);
            all_callable(items) && callable_cache(after.cache)
        }),
    decreases usize::MAX - level, edges.len() - k,
{
    if 0 <= k < edges.len() {
        let key = edges[k];
        assert(edges[k].1 is Use);
        if state.visited.contains(key) || depth == Some(0int) {
            law_use_exports_callables_alone(query, state, edges, k + 1, depth, level, found);
        } else if query.uses_cache() && state.cache.contains_key(key) {
            let now = SearchView { visited: state.visited.insert(key), ..state };
            let all = found + state.cache[key];
            lemma_callable_concat(found, state.cache[key]);
            if all.len() == 0 {
                law_use_exports_callables_alone(query, now, edges, k + 1, depth, level, all);
            }
        } else {
            let loaded = with_loaded(state.store, key.0, query.env);
            let borrowed = still_borrowed(state.borrowed, state.store, loaded, key.0);
            if find(loaded, key.0) is None {
            } else if borrowed.contains(key.0) || level >= usize::MAX {
                let now = SearchView { store: loaded, borrowed, ..state };
                if !(found.len() > 0 && !query.findall) {
                    law_use_exports_callables_alone(query, now, edges, k + 1, depth, level, found);
                }
            } else {
                let generated = with_generated(loaded, key.0, query.env);
                let doc = lookup(generated, key.0)->0;
                let inside = SearchView {
                    store: generated,
                    visited: state.visited.insert(key),
                    borrowed: borrowed.push(key.0),
                    ..state
                };
                let scan = scanned(
                    doc,
                    query.env,
                    query.scan_query(key.1, false),
                    inside.visited,
                    0,
                );
                law_use_shows_callables_alone(
                    doc,
                    query.env,
                    query.scan_query(key.1, false),
                    inside.visited,
                );
                let local = local_result(query.findall, Seq::empty(), scan.items);
                if query.findall {
                    assert(local =~= scan.items);
                }
                assert(all_callable(local));
                let (after, nested) = if local.len() > 0 && !query.findall {
                    (inside, local)
                } else {
                    search_files(
                        query,
                        inside,
                        scan.edges,
                        0,
                        next_depth(depth),
                        level + 1,
                        local,
                    )
                };
                if !(local.len() > 0 && !query.findall) {
                    law_use_exports_callables_alone(
                        query,
                        inside,
                        scan.edges,
                        0,
                        next_depth(depth),
                        level + 1,
                        local,
                    );
                }
                let left = SearchView { borrowed: released(after.borrowed, key.0), ..after };
                let now = if query.uses_cache() {
                    SearchView { cache: left.cache.insert(key, nested), ..left }
                } else {
                    left
                };
                assert(callable_cache(now.cache));
                let all = found + nested;
                lemma_callable_concat(found, nested);
                if !(all.len() > 0 && !query.findall) {
                    law_use_exports_callables_alone(query, now, edges, k + 1, depth, level, all);
                }
            }
        }
    }
}

/// Two lists of what can be called make one.
proof fn lemma_callable_concat(a: Seq<ItemView>, b: Seq<ItemView>)
    requires
        all_callable(a),
        all_callable(b),
    ensures
        all_callable(a + b),
{
    let all = a + b;
    assert forall|k: int| 0 <= k < all.len() implies (#[trigger] all[k]).kind.callable() by {
        if k < a.len() {
            assert(all[k] == a[k]);
        } else {
            assert(all[k] == b[k - a.len()]);
        }
    }
}

/// A parameter that is passed over is not among those that a search picks.
pub(crate) proof fn lemma_skipped_param(
    params: Seq<ParamView>,
    filter: FilterView,
    name: Seq<char>,
    url: Seq<char>,
)
    ensures
        forall|k: int|
            0 <= k < param_matches(params, filter, Some(name), url).len() ==> (
            #[trigger] param_matches(params, filter, Some(name), url)[k]).name != name,
    decreases params.len(),
{
    if params.len() > 0 {
        lemma_skipped_param(params.drop_last(), filter, name, url);
    }
}

/// The default value of a parameter does not see the parameter: where a search from it comes to
/// the module or function that has the parameter, it passes the parameter over, so that in
/// `p = p` the name on the right stands for something further out.
pub proof fn law_a_default_does_not_see_its_parameter(
    doc: DocView,
    filter: FilterView,
    visibility: DependencyKind,
    context: DefaultContext,
    node: int,
    k: int,
)
    requires
        doc.tree.nodes[node].start_byte == context.owner_start,
        doc.tree.nodes[node].end_byte == context.owner_end,
        ItemView::parse(doc.code, doc.tree, node) is Some,
        ItemView::parse(doc.code, doc.tree, node)->0.kind.callable(),
        0 <= k < node_matches(doc, filter, visibility, Some(context), node).len(),
    ensures
        node_matches(doc, filter, visibility, Some(context), node)[k].name == context.name
            ==> node_matches(doc, filter, visibility, Some(context), node)[k].kind.callable(),
{
    let item = ItemView::parse(doc.code, doc.tree, node)->0;
    let params = item.kind.params()->0;
    lemma_skipped_param(params, filter, context.name, doc.url);
    let picked = param_matches(params, filter, Some(context.name), doc.url);
    if k < picked.len() {
        assert(node_matches(doc, filter, visibility, Some(context), node)[k] == picked[k]);
    }
}

/// A search that has gone as many steps as it may goes to no further file.
pub proof fn law_a_limit_ends_a_search(
    query: SearchQuery,
    state: SearchView,
    edges: Seq<FileKey>,
    k: int,
    level: int,
    found: Seq<ItemView>,
)
    ensures
        search_files(query, state, edges, k, Some(0int), level, found) == (state, found),
    decreases edges.len() - k,
{
    if 0 <= k < edges.len() {
        law_a_limit_ends_a_search(query, state, edges, k + 1, level, found);
    }
}

/// Whether all that is kept of earlier searches was found in files that this one visited.
spec fn cache_visited(state: SearchView) -> bool {
    forall|key: FileKey| #[trigger] state.cache.contains_key(key) ==> state.visited.contains(key)
}

/// Whether two searches have come equally far, but for what they keep.
pub open spec fn same_but_cache(a: SearchView, b: SearchView) -> bool {
    a.store == b.store && a.visited == b.visited && a.borrowed == b.borrowed
}

/// A search that has kept nothing but what it found itself goes on as one that keeps nothing.
proof fn lemma_cache_idle(
    query: SearchQuery,
    plain: SearchQuery,
    state: SearchView,
    other: SearchView,
    edges: Seq<FileKey>,
    k: int,
    depth: Option<int>,
    level: int,
    found: Seq<ItemView>,
)
    requires
        plain == (SearchQuery { cached: false, ..query }),
        cache_visited(state),
        same_but_cache(state, other),
    ensures
        ({
            let (a, items) = search_files(query, state, edges, k, depth, level, found);
            let (b, same) = search_files(plain, other, edges, k, depth, level, found);
            &&& items == same
            &&& same_but_cache(a, b)
            &&& cache_visited(a)
            &&& state.visited.subset_of(a.visited)
        }),
    decreases usize::MAX - level, edges.len() - k,
{
    if 0 <= k < edges.len() {
        let key = edges[k];
        if state.visited.contains(key) || depth == Some(0int) {
            lemma_cache_idle(query, plain, state, other, edges, k + 1, depth, level, found);
        } else {
            assert(!state.cache.contains_key(key));
            let loaded = with_loaded(state.store, key.0, query.env);
            let borrowed = still_borrowed(state.borrowed, state.store, loaded, key.0);
            if find(loaded, key.0) is None {
            } else if borrowed.contains(key.0) || level >= usize::MAX {
                let now = SearchView { store: loaded, borrowed, ..state };
                let now2 = SearchView { store: loaded, borrowed, ..other };
                if !(found.len() > 0 && !query.findall) {
                    lemma_cache_idle(query, plain, now, now2, edges, k + 1, depth, level, found);
                }
            } else {
                let generated = with_generated(loaded, key.0, query.env);
                let doc = lookup(generated, key.0)->0;
                let inside = SearchView {
                    store: generated,
                    visited: state.visited.insert(key),
                    borrowed: borrowed.push(key.0),
                    ..state
                };
                let inside2 = SearchView {
                    store: generated,
                    visited: other.visited.insert(key),
                    borrowed: borrowed.push(key.0),
                    ..other
                };
                let inner = query.scan_query(key.1, false);
                assert(inner == plain.scan_query(key.1, false));
                let scan = scanned(doc, query.env, inner, inside.visited, 0);
                let local = local_result(query.findall, Seq::empty(), scan.items);
                let next = next_depth(depth);
                let done = local.len() > 0 && !query.findall;
                let (after, nested) = if done {
                    (inside, local)
                } else {
                    search_files(query, inside, scan.edges, 0, next, level + 1, local)
                };
                let (after2, nested2) = if done {
                    (inside2, local)
                } else {
                    search_files(plain, inside2, scan.edges, 0, next, level + 1, local)
                };
                if !done {
                    lemma_cache_idle(
                        query,
                        plain,
                        inside,
                        inside2,
                        scan.edges,
                        0,
                        next,
                        level + 1,
                        local,
                    );
                }
                assert(after.visited.contains(key));
                let left = SearchView { borrowed: released(after.borrowed, key.0), ..after };
                let left2 = SearchView { borrowed: released(after2.borrowed, key.0), ..after2 };
                let now = if query.uses_cache() {
                    SearchView { cache: left.cache.insert(key, nested), ..left }
                } else {
                    left
                };
                assert(cache_visited(now));
                assert(state.visited.subset_of(now.visited));
                let all = found + nested;
                if !(all.len() > 0 && !query.findall) {
                    lemma_cache_idle(query, plain, now, left2, edges, k + 1, depth, level, all);
                }
            }
        }
    }
}

/// A search that may use what earlier ones found, where nothing is kept of these, finds what a
/// search finds that keeps nothing, and leaves the same documents held.
pub proof fn law_an_empty_cache_changes_nothing(
    query: SearchQuery,
    store: StoreView,
    borrowed: Seq<Seq<char>>,
    doc: DocView,
    start: int,
    depth: Option<int>,
)
    ensures
        ({
            let plain = SearchQuery { cached: false, ..query };
            let (a, items) = identities(query, store, Map::empty(), borrowed, doc, start, depth);
            let (b, same) = identities(plain, store, Map::empty(), borrowed, doc, start, depth);
            items == same && same_but_cache(a, b)
        }),
{
    let plain = SearchQuery { cached: false, ..query };
    let (held, left, named) = named_argument_search(query, store, borrowed, doc, start, depth);
    assert(named_argument_search(plain, store, borrowed, doc, start, depth) == (held, left, named));
    let scan = first_scan(query, doc, start);
    assert(first_scan(plain, doc, start) == scan);
    let state = SearchView {
        store: held,
        visited: Set::<FileKey>::empty().insert((doc.url, DependencyKind::Include)),
        cache: Map::empty(),
        borrowed: left,
    };
    let local = local_result(query.findall, named, scan.items);
    if !(local.len() > 0 && !query.findall) {
        lemma_cache_idle(query, plain, state, state, scan.edges, 0, depth, 1, local);
    }
}

} // verus!
