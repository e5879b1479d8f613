use vstd::prelude::*;
use vstd::set_lib::*;

use crate::addresses::joined_url;
use crate::analysis::{opened, with_opened};
use crate::environment::EnvView;
use crate::gather::{
    around_path, bare_path, below, complete, lemma_same_paths, link_candidates, paths_in, without_end,
    without_start, GatheringView,
};
use crate::indexing::held_urls;
use crate::kinds::Field;
use crate::parse_code::{push_optional, DocView};
use crate::resolve::{
    first_scan, identities, local_result, named_argument_search, next_depth, released,
    search_files, search_from, still_borrowed, SearchQuery, SearchView,
};
use crate::response_item::ItemView;
use crate::scan::{
    at_top_level, lexical_path, listed, named_argument, path_edges, scanned, unvisited,
    DependencyKind, FileKey, FilterView, ScanQuery,
};
use crate::server::{followed, held_sources, needed_files, ServerView};
use crate::store::{
    find, lemma_find, lemma_find_same_keys, lemma_store_with_code, lemma_store_with_document,
    lookup, store_wf, trimmed_store, with_code, with_document, with_generated, with_loaded, without,
    StoreView, CACHE_LIMIT,
};
use crate::syntax::Tree;

verus! {

/// Whether one environment knows all that another does, and the same of it.
pub open spec fn knows_all_of(more: EnvView, env: EnvView) -> bool {
    &&& forall|url: Seq<char>| #[trigger]
        env.files.contains_key(url) ==> more.files.contains_key(url) && more.files[url]
            == env.files[url]
    &&& forall|url: Seq<char>, path: Seq<char>| #[trigger]
        env.link_from(url, path, 0) is Some ==> more.link(url, path) == env.link(url, path)
}

impl GatheringView {
    /// Whether nothing is left to be looked up.
    pub open spec fn done(self) -> bool {
        complete(self.env, self.held, self.sources, self.wanted)
    }

    /// Whether a file is held or known.
    pub open spec fn at_hand(self, url: Seq<char>) -> bool {
        self.held.contains(url) || self.env.files.contains_key(url)
    }

    /// Whether the paths of a document are followed, and the files that it was found to lead to
    /// are at hand.
    pub open spec fn doc_ready(self, doc: DocView) -> bool {
        &&& doc.wf()
        &&& self.sources.contains((doc.url, doc.code))
        &&& forall|url: Seq<char>| #[trigger]
            listed(doc.includes).contains(url) ==> self.at_hand(url)
        &&& forall|url: Seq<char>| #[trigger] listed(doc.uses).contains(url) ==> self.at_hand(url)
    }

    /// Whether all documents of a store are ready and, but for one that may be new, at hand; and
    /// those that were held are still in the store, or known.
    pub open spec fn store_ready(self, new: Seq<char>, store: StoreView) -> bool {
        &&& store_wf(store)
        &&& forall|i: int| 0 <= i < store.len() ==> self.doc_ready((#[trigger] store[i]).1)
        &&& forall|i: int|
            0 <= i < store.len() ==> (#[trigger] store[i]).0 == new || self.at_hand(store[i].0)
        &&& forall|url: Seq<char>| #[trigger]
            self.held.contains(url) ==> find(store, url) is Some || self.env.files.contains_key(
                url,
            )
    }
}

/// The path of an `include` or `use` among the first `k` nodes is among the paths of these.
proof fn lemma_path_listed(doc: DocView, node: int, k: int)
    requires
        0 <= node < k,
        doc.tree.kind(node).dependency_statement(),
        doc.include_path(node) is Some,
    ensures
        doc.link_paths(k).contains(doc.include_path(node)->0),
    decreases k,
{
    let path = doc.include_path(node)->0;
    let earlier = doc.link_paths(k - 1);
    let all = doc.link_paths(k);
    if node < k - 1 {
        lemma_path_listed(doc, node, k - 1);
        let j = choose|j: int| 0 <= j < earlier.len() && earlier[j] == path;
        assert(all[j] == path);
    } else {
        assert(all == push_optional(earlier, Some(path)));
        assert(all[earlier.len() as int] == path);
    }
}

/// The place of a link is one of the list.
proof fn lemma_link_place(env: EnvView, url: Seq<char>, path: Seq<char>, k: int)
    requires
        0 <= k,
    ensures
        env.link_from(url, path, k) matches Some(j) ==> k <= j < env.links.len(),
    decreases env.links.len() - k,
{
    if k < env.links.len() {
        lemma_link_place(env, url, path, k + 1);
    }
}

/// Where an `include` or `use` of a document that is ready leads is known, and at hand.
proof fn lemma_include_url(all: GatheringView, more: EnvView, doc: DocView, node: int)
    requires
        all.done(),
        knows_all_of(more, all.env),
        all.doc_ready(doc),
        doc.tree.has(node),
        doc.tree.kind(node).dependency_statement(),
    ensures
        doc.include_url(node, more) == doc.include_url(node, all.env),
        doc.include_url(node, all.env) matches Some(url) ==> all.at_hand(url),
{
    if let Some(path) = doc.include_path(node) {
        lemma_path_listed(doc, node, doc.tree.len());
        lemma_same_paths(doc);
        let i = choose|i: int|
            0 <= i < all.sources.len() && all.sources[i] == (doc.url, doc.code);
        assert(paths_in(all.sources[i].1).contains(path));
        assert(all.env.link_from(all.sources[i].0, path, 0) is Some);
        lemma_link_place(all.env, doc.url, path, 0);
        let k = all.env.link_from(doc.url, path, 0)->0;
        assert(all.env.links[k].target is Some ==> all.at_hand(all.env.links[k].target->0));
    }
}

/// An element of a list with an optional one behind it is one of the list, or that one.
proof fn lemma_pushed(list: Seq<Seq<char>>, element: Option<Seq<char>>, url: Seq<char>)
    requires
        push_optional(list, element).contains(url),
    ensures
        list.contains(url) || element == Some(url),
{
    let all = push_optional(list, element);
    let j = choose|j: int| 0 <= j < all.len() && all[j] == url;
    if j < list.len() {
        assert(list[j] == url);
    }
}

/// What is found among the children of the root of a document that is ready is known, and the
/// files that it leads to are at hand.
proof fn lemma_top_level(all: GatheringView, more: EnvView, doc: DocView, k: int)
    requires
        all.done(),
        knows_all_of(more, all.env),
        all.doc_ready(doc),
        k <= doc.tree.children(0).len(),
    ensures
        doc.top_level(more, k) == doc.top_level(all.env, k),
        forall|url: Seq<char>| #[trigger]
            doc.top_level(all.env, k).includes.contains(url) ==> all.at_hand(url),
        forall|url: Seq<char>| #[trigger]
            doc.top_level(all.env, k).uses.contains(url) ==> all.at_hand(url),
    decreases k,
{
    if k > 0 {
        lemma_top_level(all, more, doc, k - 1);
        let found = doc.top_level(all.env, k - 1);
        let now = doc.top_level(all.env, k);
        assert(doc.tree.node_wf(0));
        let node = doc.tree.children(0)[k - 1];
        assert(doc.tree.has(node));
        if doc.tree.kind(node).dependency_statement() {
            lemma_include_url(all, more, doc, node);
        }
        assert forall|url: Seq<char>| #[trigger] now.includes.contains(url) implies all.at_hand(
            url,
        ) by {
            if !found.includes.contains(url) {
                lemma_pushed(found.includes, doc.include_url(node, all.env), url);
            }
        }
        assert forall|url: Seq<char>| #[trigger] now.uses.contains(url) implies all.at_hand(
            url,
        ) by {
            if !found.uses.contains(url) {
                lemma_pushed(found.uses, doc.include_url(node, all.env), url);
            }
        }
    }
}

/// Bringing a document that is ready up to date asks for nothing else, and leaves it ready.
proof fn lemma_generated(all: GatheringView, more: EnvView, doc: DocView)
    requires
        all.done(),
        knows_all_of(more, all.env),
        all.doc_ready(doc),
    ensures
        doc.generated(more) == doc.generated(all.env),
        all.doc_ready(doc.generated(all.env)),
{
    lemma_top_level(all, more, doc, doc.tree.children(0).len() as int);
}

/// The nodes that a node sees are nodes of its tree.
proof fn lemma_path_nodes(tree: Tree, node: int)
    requires
        tree.wf(),
        tree.has(node),
    ensures
        forall|k: int|
            0 <= k < lexical_path(tree, node).len() ==> tree.has(
                #[trigger] lexical_path(tree, node)[k],
            ),
    decreases node,
{
    if node > 0 && !at_top_level(tree, node) {
        if let Some(parent) = tree.parent(node) {
            let next = match tree.prev_sibling(node) {
                Some(sibling) => sibling,
                None => parent,
            };
            if 0 <= next < node {
                lemma_path_nodes(tree, next);
                let rest = lexical_path(tree, next);
                let path = lexical_path(tree, node);
                assert(path == seq![node] + rest);
                assert forall|k: int| 0 <= k < path.len() implies tree.has(#[trigger] path[k]) by {
                    if k > 0 {
                        assert(path[k] == rest[k - 1]);
                    }
                }
            }
        }
    }
}

/// The files that the nodes of a path bring in are known, and at hand.
proof fn lemma_path_edges(
    all: GatheringView,
    more: EnvView,
    doc: DocView,
    visibility: DependencyKind,
    path: Seq<int>,
)
    requires
        all.done(),
        knows_all_of(more, all.env),
        all.doc_ready(doc),
        forall|k: int| 0 <= k < path.len() ==> doc.tree.has(#[trigger] path[k]),
    ensures
        path_edges(doc, more, visibility, path) == path_edges(doc, all.env, visibility, path),
        forall|k: int|
            0 <= k < path_edges(doc, all.env, visibility, path).len() ==> all.at_hand(
                (#[trigger] path_edges(doc, all.env, visibility, path)[k]).0,
            ),
    decreases path.len(),
{
    if path.len() > 0 {
        let rest = path.drop_last();
        let node = path.last();
        assert(doc.tree.has(path[path.len() - 1]));
        assert forall|k: int| 0 <= k < rest.len() implies doc.tree.has(#[trigger] rest[k]) by {
            assert(rest[k] == path[k]);
        }
        lemma_path_edges(all, more, doc, visibility, rest);
        if doc.tree.kind(node).dependency_statement() {
            lemma_include_url(all, more, doc, node);
        }
        let earlier = path_edges(doc, all.env, visibility, rest);
        let now = path_edges(doc, all.env, visibility, path);
        assert forall|k: int| 0 <= k < now.len() implies all.at_hand((#[trigger] now[k]).0) by {
            if k < earlier.len() {
                assert(now[k] == earlier[k]);
            }
        }
    }
}

/// The files that were not visited are of the list.
proof fn lemma_unvisited(
    all: GatheringView,
    urls: Seq<Seq<char>>,
    kind: Option<DependencyKind>,
    visited: Set<FileKey>,
)
    requires
        forall|url: Seq<char>| #[trigger] urls.contains(url) ==> all.at_hand(url),
    ensures
        forall|k: int|
            0 <= k < unvisited(urls, kind, visited).len() ==> all.at_hand(
                (#[trigger] unvisited(urls, kind, visited)[k]).0,
            ),
    decreases urls.len(),
{
    if urls.len() > 0 {
        let rest = urls.drop_last();
        assert(urls.contains(urls.last()));
        assert forall|url: Seq<char>| #[trigger] rest.contains(url) implies all.at_hand(url) by {
            let j = choose|j: int| 0 <= j < rest.len() && rest[j] == url;
            assert(urls[j] == url);
            assert(urls.contains(url));
        }
        lemma_unvisited(all, rest, kind, visited);
        let earlier = unvisited(rest, kind, visited);
        let now = unvisited(urls, kind, visited);
        assert forall|k: int| 0 <= k < now.len() implies all.at_hand((#[trigger] now[k]).0) by {
            if k < earlier.len() {
                assert(now[k] == earlier[k]);
            }
        }
    }
}

/// Whether all files that a search goes on to are at hand.
pub open spec fn edges_ready(all: GatheringView, edges: Seq<FileKey>) -> bool {
    forall|k: int| 0 <= k < edges.len() ==> all.at_hand((#[trigger] edges[k]).0)
}

/// The files of two lists are at hand where those of each are.
proof fn lemma_edges_concat(all: GatheringView, a: Seq<FileKey>, b: Seq<FileKey>)
    requires
        edges_ready(all, a),
        edges_ready(all, b),
    ensures
        edges_ready(all, a + b),
{
    assert forall|k: int| 0 <= k < (a + b).len() implies all.at_hand((#[trigger] (a + b)[k]).0) by {
        if k < a.len() {
            assert((a + b)[k] == a[k]);
        } else {
            assert((a + b)[k] == b[k - a.len()]);
        }
    }
}

/// A look through a document that is ready asks for nothing else, and goes on to files at hand.
proof fn lemma_scanned(
    all: GatheringView,
    more: EnvView,
    doc: DocView,
    query: ScanQuery,
    visited: Set<FileKey>,
    start: int,
)
    requires
        all.done(),
        knows_all_of(more, all.env),
        all.doc_ready(doc),
        doc.tree.has(start),
        query.include_builtin ==> all.at_hand(query.builtin_url),
    ensures
        scanned(doc, more, query, visited, start) == scanned(doc, all.env, query, visited, start),
        edges_ready(all, scanned(doc, all.env, query, visited, start).edges),
{
    let path = lexical_path(doc.tree, start);
    lemma_path_nodes(doc.tree, start);
    lemma_path_edges(all, more, doc, query.visibility, path);
    let includes = query.visibility.nested(DependencyKind::Include);
    let uses = query.visibility.nested(DependencyKind::Use);
    lemma_unvisited(all, listed(doc.includes), includes, visited);
    lemma_unvisited(all, listed(doc.uses), uses, visited);
    let builtin = if query.include_builtin && !visited.contains(
        (query.builtin_url, DependencyKind::Include),
    ) {
        seq![(query.builtin_url, DependencyKind::Include)]
    } else {
        Seq::empty()
    };
    let first = unvisited(listed(doc.includes), includes, visited);
    let second = unvisited(listed(doc.uses), uses, visited);
    let third = path_edges(doc, all.env, query.visibility, path);
    lemma_edges_concat(all, builtin, first);
    lemma_edges_concat(all, builtin + first, second);
    lemma_edges_concat(all, builtin + first + second, third);
}

/// A store that is ready has room for a document that is at hand and not in it, or the documents
/// that are dropped for it are known.
proof fn lemma_room(all: GatheringView, new: Seq<char>, store: StoreView, url: Seq<char>)
    requires
        all.done(),
        all.store_ready(new, store),
        all.at_hand(url),
        find(store, url) is None,
    ensures
        store.len() <= CACHE_LIMIT || forall|u: Seq<char>| #[trigger]
            all.held.contains(u) ==> all.env.files.contains_key(u),
{
    let files = all.env.files.dom();
    if all.held.len() + files.len() <= CACHE_LIMIT {
        let keys = held_urls(store);
        lemma_find(store, url);
        let both = all.held.union(files);
        let rest = both.remove(url).insert(new);
        lemma_len_union(all.held, files);
        assert(both.contains(url));
        assert(rest.len() <= both.len());
        assert(keys.no_duplicates()) by {
            assert forall|i: int, j: int| 0 <= i < keys.len() && 0 <= j < keys.len() && i != j implies
                keys[i] != keys[j] by {
                assert(store[i].0 == keys[i] && store[j].0 == keys[j]);
            }
        }
        keys.unique_seq_to_set();
        assert(keys.to_set().subset_of(rest)) by {
            assert forall|u: Seq<char>| keys.to_set().contains(u) implies rest.contains(u) by {
                let i = choose|i: int| 0 <= i < keys.len() && keys[i] == u;
                assert(store[i].0 == u);
            }
        }
        lemma_len_subset(keys.to_set(), rest);
    }
}

/// Asking for a document that is at hand asks for nothing else, and leaves the store ready.
proof fn lemma_loaded(
    all: GatheringView,
    more: EnvView,
    new: Seq<char>,
    store: StoreView,
    url: Seq<char>,
)
    requires
        all.done(),
        knows_all_of(more, all.env),
        all.store_ready(new, store),
        all.at_hand(url),
    ensures
        with_loaded(store, url, more) == with_loaded(store, url, all.env),
        all.store_ready(new, with_loaded(store, url, all.env)),
{
    if find(store, url) is None {
        assert(all.env.files.contains_key(url));
        if let Some(code) = all.env.read(url) {
            assert(all.sources.contains((url, code)));
            let i = choose|i: int| 0 <= i < all.sources.len() && all.sources[i] == (url, code);
            assert(Tree::parse(all.sources[i].1).wf());
            let doc = DocView::fresh(code, url);
            lemma_store_with_code(store, url, code);
            lemma_room(all, new, store, url);
            let kept = trimmed_store(store);
            let rest = without(kept, url);
            let now = with_code(store, url, code);
            let d = store.len() - kept.len();
            assert forall|i: int| 0 <= i < now.len() implies all.doc_ready((#[trigger] now[i]).1)
                && (now[i].0 == new || all.at_hand(now[i].0)) by {
                if i < rest.len() {
                    assert(now[i] == rest[i]);
                    lemma_find(kept, url);
                    let j = if find(kept, url) is Some && i >= find(kept, url)->0 {
                        i + 1
                    } else {
                        i
                    };
                    assert(rest[i] == kept[j]);
                    assert(kept[j] == store[j + d]);
                } else {
                    assert(now[i] == (url, doc));
                }
            }
            assert forall|u: Seq<char>| #[trigger] all.held.contains(u) implies find(now, u) is Some
                || all.env.files.contains_key(u) by {
                if !all.env.files.contains_key(u) {
                    assert(kept == store);
                    lemma_find(store, u);
                    let j = find(store, u)->0;
                    assert(rest == store);
                    assert(now[j].0 == u);
                    lemma_find(now, u);
                }
            }
        }
    }
}

/// Bringing a document of a store that is ready up to date asks for nothing else, and leaves the
/// store ready, with the document in it.
proof fn lemma_store_generated(
    all: GatheringView,
    more: EnvView,
    new: Seq<char>,
    store: StoreView,
    url: Seq<char>,
)
    requires
        all.done(),
        knows_all_of(more, all.env),
        all.store_ready(new, store),
        find(store, url) is Some,
    ensures
        with_generated(store, url, more) == with_generated(store, url, all.env),
        all.store_ready(new, with_generated(store, url, all.env)),
        lookup(with_generated(store, url, all.env), url) is Some,
        all.doc_ready(lookup(with_generated(store, url, all.env), url)->0),
{
    lemma_find(store, url);
    let k = find(store, url)->0;
    let doc = store[k].1;
    assert(all.doc_ready(store[k].1));
    lemma_generated(all, more, doc);
    let fresh = doc.generated(all.env);
    lemma_store_with_document(store, url, fresh);
    let now = with_document(store, url, fresh);
    assert forall|i: int| 0 <= i < now.len() implies all.doc_ready((#[trigger] now[i]).1) && (
    now[i].0 == new || all.at_hand(now[i].0)) by {
        assert(now[i].0 == store[i].0);
        assert(all.doc_ready(store[i].1));
    }
    assert forall|u: Seq<char>| #[trigger] all.held.contains(u) implies find(now, u) is Some
        || all.env.files.contains_key(u) by {
        lemma_find_same_keys(store, now, u);
    }
    lemma_find_same_keys(store, now, url);
}

/// Once nothing is left to be looked up, opening a document that is at hand asks for nothing else:
/// with any environment that knows more, the same document comes out. It is ready for a search.
pub proof fn law_opening_asks_for_what_is_at_hand(
    all: GatheringView,
    more: EnvView,
    new: Seq<char>,
    store: StoreView,
    url: Seq<char>,
)
    requires
        all.done(),
        knows_all_of(more, all.env),
        all.store_ready(new, store),
        all.at_hand(url),
    ensures
        with_opened(store, url, more) == with_opened(store, url, all.env),
        opened(store, url, more) == opened(store, url, all.env),
        all.store_ready(new, with_opened(store, url, all.env)),
        opened(store, url, all.env) matches Some(doc) ==> all.doc_ready(doc),
{
    lemma_loaded(all, more, new, store, url);
    let loaded = with_loaded(store, url, all.env);
    if find(loaded, url) is Some {
        lemma_store_generated(all, more, new, loaded, url);
    }
}

/// The files that documents were found to lead to are among those that are followed.
proof fn lemma_followed(store: StoreView, i: int, k: int, url: Seq<char>)
    requires
        0 <= i < k <= store.len(),
        listed(store[i].1.includes).contains(url) || listed(store[i].1.uses).contains(url),
    ensures
        followed(store, k).contains(url),
    decreases k,
{
    let doc = store[k - 1].1;
    let earlier = followed(store, k - 1);
    let (first, second) = (listed(doc.includes), listed(doc.uses));
    let files = followed(store, k);
    assert(files == earlier + first + second);
    if i < k - 1 {
        lemma_followed(store, i, k - 1, url);
        let j = choose|j: int| 0 <= j < earlier.len() && earlier[j] == url;
        assert(files[j] == url);
    } else if first.contains(url) {
        let j = choose|j: int| 0 <= j < first.len() && first[j] == url;
        assert(files[earlier.len() + j] == url);
    } else {
        let j = choose|j: int| 0 <= j < second.len() && second[j] == url;
        assert(files[earlier.len() + first.len() + j] == url);
    }
}

/// What is needed and not held is known once nothing is left to be looked up.
proof fn lemma_needed(all: GatheringView, files: Seq<Seq<char>>, url: Seq<char>)
    requires
        all.done(),
        files.to_set().difference(all.held).subset_of(all.wanted),
        files.contains(url),
    ensures
        all.at_hand(url),
{
    if !all.held.contains(url) {
        assert(files.to_set().difference(all.held).contains(url));
        assert(all.wanted.contains(url));
    }
}

/// Where the documents that are held, the files that they lead to and those that a request needs
/// were gathered, and nothing is left to be looked up, the store is ready for a search; and what
/// the request needs is at hand, and so is what the language itself knows.
pub proof fn law_what_is_gathered_is_ready(
    server: ServerView,
    all: GatheringView,
    needed: Seq<Seq<char>>,
    new: Seq<char>,
)
    requires
        store_wf(server.known.store),
        all.done(),
        all.held == held_urls(server.known.store).to_set(),
        held_sources(server.known.store).is_prefix_of(all.sources),
        needed_files(server, needed).to_set().difference(all.held).subset_of(all.wanted),
    ensures
        all.store_ready(new, server.known.store),
        all.at_hand(server.settings.builtin_url),
        forall|url: Seq<char>| #[trigger] needed.contains(url) ==> all.at_hand(url),
{
    let store = server.known.store;
    let n = store.len() as int;
    let files = needed_files(server, needed);
    let led = followed(store, n);
    assert(files == (needed + led).push(server.settings.builtin_url));
    assert(files[files.len() - 1] == server.settings.builtin_url);
    lemma_needed(all, files, server.settings.builtin_url);
    assert forall|url: Seq<char>| #[trigger] needed.contains(url) implies all.at_hand(url) by {
        let j = choose|j: int| 0 <= j < needed.len() && needed[j] == url;
        assert(files[j] == url);
        lemma_needed(all, files, url);
    }
    assert forall|url: Seq<char>| led.contains(url) implies all.at_hand(url) by {
        let j = choose|j: int| 0 <= j < led.len() && led[j] == url;
        assert(files[needed.len() + j] == url);
        lemma_needed(all, files, url);
    }
    let keys = held_urls(store);
    let sources = held_sources(store);
    assert forall|i: int| 0 <= i < n implies all.doc_ready((#[trigger] store[i]).1) && all.at_hand(
        store[i].0,
    ) by {
        let doc = store[i].1;
        assert(keys[i] == store[i].0);
        assert(keys.to_set().contains(store[i].0));
        assert(sources[i] == (doc.url, doc.code));
        assert(all.sources[i] == sources[i]);
        assert forall|url: Seq<char>| #[trigger] listed(doc.includes).contains(url) implies
            all.at_hand(url) by {
            lemma_followed(store, i, n, url);
        }
        assert forall|url: Seq<char>| #[trigger] listed(doc.uses).contains(url) implies all.at_hand(
            url,
        ) by {
            lemma_followed(store, i, n, url);
        }
    }
    assert forall|url: Seq<char>| #[trigger] all.held.contains(url) implies find(store, url) is Some by {
        let j = choose|j: int| 0 <= j < keys.len() && keys[j] == url;
        assert(store[j].0 == url);
        lemma_find(store, url);
    }
}

/// A search through files at hand asks for nothing else, and leaves the store ready.
proof fn lemma_files_gathered(
    all: GatheringView,
    new: Seq<char>,
    query: SearchQuery,
    wider: SearchQuery,
    state: SearchView,
    edges: Seq<FileKey>,
    k: int,
    depth: Option<int>,
    level: int,
    found: Seq<ItemView>,
)
    requires
        all.done(),
        query.env == all.env,
        knows_all_of(wider.env, all.env),
        wider == (SearchQuery { env: wider.env, ..query }),
        all.store_ready(new, state.store),
        edges_ready(all, edges),
    ensures
        search_files(wider, state, edges, k, depth, level, found) == search_files(
            query,
            state,
            edges,
            k,
            depth,
            level,
            found,
        ),
        all.store_ready(
            new,
            search_files(query, state, edges, k, depth, level, found).0.store,
        ),
    decreases usize::MAX - level, edges.len() - k,
{
    let more = wider.env;
    if 0 <= k < edges.len() {
        let key = edges[k];
        assert(all.at_hand(edges[k].0));
        if state.visited.contains(key) || depth == Some(0int) {
            lemma_files_gathered(all, new, query, wider, state, edges, k + 1, depth, level, found);
        } else if query.uses_cache() && state.cache.contains_key(key) {
            let now = SearchView { visited: state.visited.insert(key), ..state };
            let items = found + state.cache[key];
            if items.len() == 0 {
                lemma_files_gathered(
                    all,
                    new,
                    query,
                    wider,
                    now,
                    edges,
                    k + 1,
                    depth,
                    level,
                    items,
                );
            }
        } else {
            lemma_loaded(all, more, new, state.store, key.0);
            let loaded = with_loaded(state.store, key.0, query.env);
            let borrowed = still_borrowed(state.borrowed, state.store, loaded, key.0);
            if find(loaded, key.0) is None {
            } else if borrowed.contains(key.0) || level >= usize::MAX {
                let now = SearchView { store: loaded, borrowed, ..state };
                if !(found.len() > 0 && !query.findall) {
                    lemma_files_gathered(
                        all,
                        new,
                        query,
                        wider,
                        now,
                        edges,
                        k + 1,
                        depth,
                        level,
                        found,
                    );
                }
            } else {
                lemma_store_generated(all, more, new, loaded, key.0);
                let generated = with_generated(loaded, key.0, query.env);
                let doc = lookup(generated, key.0)->0;
                let inside = SearchView {
                    store: generated,
                    visited: state.visited.insert(key),
                    borrowed: borrowed.push(key.0),
                    ..state
                };
                let inner = query.scan_query(key.1, false);
                assert(inner == wider.scan_query(key.1, false));
                assert(doc.tree.has(0));
                lemma_scanned(all, more, doc, inner, inside.visited, 0);
                let scan = scanned(doc, query.env, inner, inside.visited, 0);
                let local = local_result(query.findall, Seq::empty(), scan.items);
                let (after, nested) = if local.len() > 0 && !query.findall {
                    (inside, local)
                } else {
                    search_files(
                        query,
                        inside,
                        scan.edges,
                        0,
                        next_depth(depth),
                        level + 1,
                        local,
                    )
                };
                if !(local.len() > 0 && !query.findall) {
                    lemma_files_gathered(
                        all,
                        new,
                        query,
                        wider,
                        inside,
                        scan.edges,
                        0,
                        next_depth(depth),
                        level + 1,
                        local,
                    );
                }
                let left = SearchView { borrowed: released(after.borrowed, key.0), ..after };
                let now = if query.uses_cache() {
                    SearchView { cache: left.cache.insert(key, nested), ..left }
                } else {
                    left
                };
                let items = found + nested;
                if !(items.len() > 0 && !query.findall) {
                    lemma_files_gathered(
                        all,
                        new,
                        query,
                        wider,
                        now,
                        edges,
                        k + 1,
                        depth,
                        level,
                        items,
                    );
                }
            }
        }
    }
}

/// A search from a node of a document that is ready asks for nothing but what is at hand.
proof fn lemma_search_gathered(
    all: GatheringView,
    query: SearchQuery,
    wider: SearchQuery,
    store: StoreView,
    cache: Map<FileKey, Seq<ItemView>>,
    borrowed: Seq<Seq<char>>,
    doc: DocView,
    start: int,
    depth: Option<int>,
    named: Seq<ItemView>,
)
    requires
        all.done(),
        query.env == all.env,
        knows_all_of(wider.env, all.env),
        wider == (SearchQuery { env: wider.env, ..query }),
        all.store_ready(doc.url, store),
        all.doc_ready(doc),
        doc.tree.has(start),
        all.at_hand(query.builtin_url),
    ensures
        search_from(wider, store, cache, borrowed, doc, start, depth, named) == search_from(
            query,
            store,
            cache,
            borrowed,
            doc,
            start,
            depth,
            named,
        ),
        all.store_ready(
            doc.url,
            search_from(query, store, cache, borrowed, doc, start, depth, named).0.store,
        ),
{
    let visited = Set::<FileKey>::empty().insert((doc.url, DependencyKind::Include));
    lemma_scanned(
        all,
        wider.env,
        doc,
        query.scan_query(DependencyKind::Include, true),
        visited,
        start,
    );
    let scan = first_scan(query, doc, start);
    assert(first_scan(wider, doc, start) == scan);
    let state = SearchView { store, visited, cache, borrowed };
    let local = local_result(query.findall, named, scan.items);
    if !(local.len() > 0 && !query.findall) {
        lemma_files_gathered(
            all,
            doc.url,
            query,
            wider,
            state,
            scan.edges,
            0,
            depth,
            1,
            local,
        );
    }
}

/// The call in which an identifier names an argument is a node of its tree.
proof fn lemma_named_call(doc: DocView, node: int)
    requires
        doc.tree.wf(),
        doc.tree.has(node),
    ensures
        named_argument(doc, node) matches Some(argument) ==> doc.tree.has(argument.call),
{
    let tree = doc.tree;
    assert(tree.node_wf(node));
    if let Some(assignment) = tree.parent(node) {
        assert(tree.node_wf(assignment));
        if let Some(arguments) = tree.parent(assignment) {
            assert(tree.node_wf(arguments));
        }
    }
}

/// Once nothing is left to be looked up, a search asks for no file that is neither held nor known,
/// and for no path of which it is not known where it leads: with any environment that knows more,
/// it finds the same, keeps the same, and leaves the same documents held.
pub proof fn law_a_search_asks_for_what_is_at_hand(
    all: GatheringView,
    query: SearchQuery,
    more: EnvView,
    store: StoreView,
    cache: Map<FileKey, Seq<ItemView>>,
    borrowed: Seq<Seq<char>>,
    doc: DocView,
    start: int,
    depth: Option<int>,
)
    requires
        all.done(),
        query.env == all.env,
        knows_all_of(more, all.env),
        all.store_ready(doc.url, store),
        all.doc_ready(doc),
        doc.tree.has(start),
        all.at_hand(query.builtin_url),
    ensures
        identities(
            SearchQuery { env: more, ..query },
            store,
            cache,
            borrowed,
            doc,
            start,
            depth,
        ) == identities(query, store, cache, borrowed, doc, start, depth),
        all.store_ready(
            doc.url,
            identities(query, store, cache, borrowed, doc, start, depth).0.store,
        ),
{
    let wider = SearchQuery { env: more, ..query };
    if let Some(argument) = named_argument(doc, start) {
        if query.filter.accepts(argument.name) {
            if let Some(name) = doc.tree.child_by_field(argument.call, Field::Name) {
                let first = SearchQuery {
                    filter: FilterView::Named(doc.tree.node_text(doc.code, name)),
                    findall: true,
                    cached: false,
                    ..query
                };
                let second = SearchQuery { env: more, ..first };
                lemma_named_call(doc, start);
                lemma_search_gathered(
                    all,
                    first,
                    second,
                    store,
                    Map::empty(),
                    borrowed,
                    doc,
                    argument.call,
                    depth,
                    Seq::empty(),
                );
            }
        }
    }
    let (held, left, named) = named_argument_search(query, store, borrowed, doc, start, depth);
    lemma_search_gathered(all, query, wider, held, cache, left, doc, start, depth, named);
}

/// Whether a path is another without brackets and line ends around it.
pub open spec fn is_bare(path: Seq<char>, bare: Seq<char>) -> bool {
    exists|from: int| #[trigger] stands_bare(path, bare, from)
}

/// Whether a path stands in another from a place on, with only brackets and line ends around it,
/// and none at its ends.
pub open spec fn stands_bare(path: Seq<char>, bare: Seq<char>, from: int) -> bool {
    let around = |c: char| c == '<' || c == '>' || c == '\n';
    let to = from + bare.len();
    &&& 0 <= from <= to <= path.len()
    &&& path.subrange(from, to) == bare
    &&& forall|k: int| 0 <= k < from ==> around(#[trigger] path[k])
    &&& forall|k: int| to <= k < path.len() ==> around(#[trigger] path[k])
    &&& bare.len() > 0 ==> !around(bare[0]) && !around(bare.last())
}

/// A path is looked for without the brackets and line ends around it.
pub proof fn law_paths_are_looked_for_bare(path: Seq<char>)
    ensures
        is_bare(path, bare_path(path)),
{
    let head = without_start(path);
    lemma_without_start(path);
    let from = path.len() - head.len();
    lemma_without_end(head);
    let bare = bare_path(path);
    let to = from + bare.len();
    assert(path.subrange(from, to) =~= bare);
    assert forall|k: int| to <= k < path.len() implies around_path(#[trigger] path[k]) by {
        assert(path[k] == head[k - from]);
    }
    if bare.len() > 0 {
        assert(bare[0] == head[0]);
    }
    assert(stands_bare(path, bare, from));
}

/// What is taken off at the start are brackets and line ends.
proof fn lemma_without_start(path: Seq<char>)
    ensures
        ({
            let rest = without_start(path);
            let n = path.len() - rest.len();
            &&& rest.len() <= path.len()
            &&& rest == path.skip(n)
            &&& forall|k: int| 0 <= k < n ==> around_path(#[trigger] path[k])
            &&& rest.len() > 0 ==> !around_path(rest[0])
        }),
    decreases path.len(),
{
    let rest = without_start(path);
    if path.len() > 0 && around_path(path[0]) {
        let tail = path.drop_first();
        lemma_without_start(tail);
        let n = path.len() - rest.len();
        assert(rest =~= path.skip(n));
        assert forall|k: int| 0 <= k < n implies around_path(#[trigger] path[k]) by {
            if k > 0 {
                assert(path[k] == tail[k - 1]);
            }
        }
    } else {
        assert(path.skip(0) =~= path);
    }
}

/// What is taken off at the end are brackets and line ends.
proof fn lemma_without_end(path: Seq<char>)
    ensures
        ({
            let rest = without_end(path);
            &&& rest.len() <= path.len()
            &&& rest == path.take(rest.len() as int)
            &&& forall|k: int| rest.len() <= k < path.len() ==> around_path(#[trigger] path[k])
            &&& rest.len() > 0 ==> !around_path(rest.last())
        }),
    decreases path.len(),
{
    let rest = without_end(path);
    if path.len() > 0 && around_path(path.last()) {
        let head = path.drop_last();
        lemma_without_end(head);
        assert(rest =~= path.take(rest.len() as int));
        assert forall|k: int| rest.len() <= k < path.len() implies around_path(
            #[trigger] path[k],
        ) by {
            if k < head.len() {
                assert(path[k] == head[k]);
            }
        }
    } else {
        assert(path.take(path.len() as int) =~= path);
    }
}

/// Each base below which a name has an address gives one, and there is no other; those of earlier
/// bases come first.
proof fn lemma_below(bases: Seq<Seq<char>>, name: Seq<char>)
    ensures
        forall|k: int|
            0 <= k < bases.len() && joined_url(#[trigger] bases[k], name) is Some ==> below(
                bases,
                name,
            ).contains(joined_url(bases[k], name)->0),
        forall|j: int| 0 <= j < below(bases, name).len() ==> base_of(
            bases,
            name,
            #[trigger] below(bases, name)[j],
        ),
        bases.len() > 0 && joined_url(bases[0], name) is Some ==> below(bases, name).len() > 0
            && below(bases, name)[0] == joined_url(bases[0], name)->0,
    decreases bases.len(),
{
    if bases.len() > 0 {
        let rest = bases.drop_last();
        lemma_below(rest, name);
        let earlier = below(rest, name);
        let all = below(bases, name);
        assert forall|k: int|
            0 <= k < bases.len() && joined_url(#[trigger] bases[k], name) is Some implies all.contains(
            joined_url(bases[k], name)->0,
        ) by {
            let url = joined_url(bases[k], name)->0;
            if k < rest.len() {
                assert(rest[k] == bases[k]);
                let j = choose|j: int| 0 <= j < earlier.len() && earlier[j] == url;
                assert(all[j] == url);
            } else {
                assert(all[all.len() - 1] == url);
            }
        }
        assert forall|j: int| 0 <= j < all.len() implies base_of(bases, name, #[trigger] all[j]) by {
            if j < earlier.len() {
                assert(all[j] == earlier[j]);
                let k = choose|k: int|
                    0 <= k < rest.len() && joined_url(#[trigger] rest[k], name) == Some(earlier[j]);
                assert(bases[k] == rest[k]);
            } else {
                assert(joined_url(bases[bases.len() - 1], name) == Some(all[j]));
            }
        }
    }
}

/// Whether an address is that of a name below one of some bases.
pub open spec fn base_of(bases: Seq<Seq<char>>, name: Seq<char>, url: Seq<char>) -> bool {
    exists|k: int| 0 <= k < bases.len() && joined_url(#[trigger] bases[k], name) == Some(url)
}

/// The addresses that a path may lead to are those of its bare form, read from the document or
/// from one of the libraries: all of them, and no other, that of the document first.
pub proof fn law_paths_are_looked_for_everywhere(
    url: Seq<char>,
    path: Seq<char>,
    libraries: Seq<Seq<char>>,
)
    ensures
        ({
            let name = bare_path(path);
            let candidates = link_candidates(url, path, libraries);
            &&& joined_url(url, name) matches Some(target) ==> candidates.len() > 0 && candidates[0]
                == target
            &&& forall|k: int|
                0 <= k < libraries.len() && joined_url(#[trigger] libraries[k], name) is Some
                    ==> candidates.contains(joined_url(libraries[k], name)->0)
            &&& forall|j: int|
                0 <= j < candidates.len() ==> base_of(
                    seq![url] + libraries,
                    name,
                    #[trigger] candidates[j],
                )
        }),
{
    let name = bare_path(path);
    let bases = seq![url] + libraries;
    lemma_below(bases, name);
    assert forall|k: int|
        0 <= k < libraries.len() && joined_url(#[trigger] libraries[k], name) is Some implies
        link_candidates(url, path, libraries).contains(joined_url(libraries[k], name)->0) by {
        assert(bases[k + 1] == libraries[k]);
    }
}

} // verus!
