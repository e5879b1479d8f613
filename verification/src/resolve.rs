use vstd::hash_map::StringHashMap;
use vstd::prelude::*;

use crate::cursor::node_index;
use crate::environment::{EnvView, Environment};
use crate::kinds::Field;
use crate::parse_code::{texts, DocView, ParsedCode};
use crate::response_item::{
    clone_items, item_views, param_views, Item, ItemKind, ItemView, Param, ParamView,
};
use crate::scan::{
    edge_views, named_argument, named_argument_parameter_context, scan_document, scanned,
    DependencyEdge, DependencyKind, FileKey, FilterView, NameFilter, Scan, ScanQuery, ScanView,
    Visited,
};
use crate::store::{find, lemma_find, lookup, with_generated, with_loaded, CodeStore, StoreView};
use crate::text::same_text;

verus! {

/// What earlier searches for a name found in other files.
pub struct IdentityCache {
    included: StringHashMap<Vec<Item>>,
    used: StringHashMap<Vec<Item>>,
}

impl View for IdentityCache {
    type V = Map<FileKey, Seq<ItemView>>;

    closed spec fn view(&self) -> Map<FileKey, Seq<ItemView>> {
        Map::new(
            |key: FileKey|
                match key.1 {
                    DependencyKind::Include => self.included@.contains_key(key.0),
                    DependencyKind::Use => self.used@.contains_key(key.0),
                },
            |key: FileKey|
                match key.1 {
                    DependencyKind::Include => item_views(self.included@[key.0]@),
                    DependencyKind::Use => item_views(self.used@[key.0]@),
                },
        )
    }
}

impl IdentityCache {
    /// Nothing was searched for yet.
    pub fn new() -> (cache: IdentityCache)
        ensures
            cache@ == Map::<FileKey, Seq<ItemView>>::empty(),
    {
        let cache = IdentityCache { included: StringHashMap::new(), used: StringHashMap::new() };
        assert(cache@ =~= Map::<FileKey, Seq<ItemView>>::empty());
        cache
    }

    /// What was found in a file.
    pub fn get(&self, url: &str, kind: DependencyKind) -> (items: Option<Vec<Item>>)
        ensures
            match items {
                Some(items) => self@.contains_key((url@, kind)) && item_views(items@) == self@[(
                    url@,
                    kind,
                )],
                None => !self@.contains_key((url@, kind)),
            },
    {
        let found: Option<&Vec<Item>> = match kind {
            DependencyKind::Include => self.included.get(url),
            DependencyKind::Use => self.used.get(url),
        };
        match found {
            Some(items) => Some(clone_items(items)),
            None => None,
        }
    }

    /// Keeps what was found in a file.
    pub fn insert(&mut self, url: &str, kind: DependencyKind, items: Vec<Item>)
        ensures
            final(self)@ == old(self)@.insert((url@, kind), item_views(items@)),
    {
        match kind {
            DependencyKind::Include => {
                self.included.insert(url.to_owned(), items);
            },
            DependencyKind::Use => {
                self.used.insert(url.to_owned(), items);
            },
        }
        assert(self@ =~= old(self)@.insert((url@, kind), item_views(items@)));
    }
}

/// What a search through files knows.
#[verifier::ext_equal]
pub struct SearchView {
    pub store: StoreView,
    pub visited: Set<FileKey>,
    pub cache: Map<FileKey, Seq<ItemView>>,
    /// The documents that are held and being searched.
    pub borrowed: Seq<Seq<char>>,
}

/// The documents that are held and being searched once another was asked for: one that was read
/// anew is not the one that is being searched, nor is one that was dropped for it held any more.
pub open spec fn still_borrowed(
    borrowed: Seq<Seq<char>>,
    before: StoreView,
    after: StoreView,
    url: Seq<char>,
) -> Seq<Seq<char>> {
    if find(before, url) is Some {
        borrowed
    } else {
        borrowed.filter(|u: Seq<char>| u != url && find(after, u) is Some)
    }
}

/// The documents that are being searched but for one.
pub open spec fn released(borrowed: Seq<Seq<char>>, url: Seq<char>) -> Seq<Seq<char>> {
    borrowed.filter(|u: Seq<char>| u != url)
}

/// What a search through files looks for, and how.
pub struct SearchQuery {
    pub filter: FilterView,
    pub findall: bool,
    pub builtin_url: Seq<char>,
    pub env: EnvView,
    /// Whether what was found before is used and kept.
    pub cached: bool,
}

impl SearchQuery {
    /// What is searched for in one file.
    pub open spec fn scan_query(self, visibility: DependencyKind, include_builtin: bool) -> ScanQuery {
        ScanQuery {
            filter: self.filter,
            findall: self.findall,
            visibility,
            include_builtin,
            builtin_url: self.builtin_url,
        }
    }

    /// Whether what was found before is used and kept: a search for all names does not.
    pub open spec fn uses_cache(self) -> bool {
        self.cached && !self.findall
    }
}

/// The steps that are left behind one step.
pub open spec fn next_depth(depth: Option<int>) -> Option<int> {
    match depth {
        Some(d) => Some(d - 1),
        None => None,
    }
}

/// What a search has found before it goes to other files: one match is enough unless all are
/// asked for.
pub open spec fn local_result(findall: bool, named: Seq<ItemView>, local: Seq<ItemView>) -> Seq<
    ItemView,
> {
    if findall {
        named + local
    } else if named.len() > 0 {
        named
    } else {
        local.take(if local.len() > 0 {
            1
        } else {
            0
        })
    }
}

/// A search through the files of a list from place `k` on, with what it had found before.
///
/// A file that was visited, or is too many steps away, is passed over. What was found in a file
/// by an earlier search may be used again. A file that cannot be read ends the search. A file
/// that is being searched already, further out, is not searched again while it is held; the files
/// that are being searched at one time are at most as many as a machine word can count.
pub open spec fn search_files(
    query: SearchQuery,
    state: SearchView,
    edges: Seq<FileKey>,
    k: int,
    depth: Option<int>,
    level: int,
    found: Seq<ItemView>,
) -> (SearchView, Seq<ItemView>)
    decreases usize::MAX - level, edges.len() - k,
{
    if k < 0 || k >= edges.len() {
        (state, found)
    } else {
        let key = edges[k];
        if state.visited.contains(key) || depth == Some(0int) {
            search_files(query, state, edges, k + 1, depth, level, found)
        } else if query.uses_cache() && state.cache.contains_key(key) {
            let now = SearchView { visited: state.visited.insert(key), ..state };
            let all = found + state.cache[key];
            if all.len() > 0 {
                (now, all)
            } else {
                search_files(query, now, edges, k + 1, depth, level, all)
            }
        } else {
            let loaded = with_loaded(state.store, key.0, query.env);
            let borrowed = still_borrowed(state.borrowed, state.store, loaded, key.0);
            if find(loaded, key.0) is None {
                (SearchView { store: loaded, borrowed, ..state }, found)
            } else if borrowed.contains(key.0) || level >= usize::MAX {
                let now = SearchView { store: loaded, borrowed, ..state };
                if found.len() > 0 && !query.findall {
                    (now, found)
                } else {
                    search_files(query, now, edges, k + 1, depth, level, found)
                }
            } else {
                let generated = with_generated(loaded, key.0, query.env);
                let doc = lookup(generated, key.0)->0;
                let inside = SearchView {
                    store: generated,
                    visited: state.visited.insert(key),
                    borrowed: borrowed.push(key.0),
                    ..state
                };
                let scan = scanned(
                    doc,
                    query.env,
                    query.scan_query(key.1, false),
                    inside.visited,
                    0,
                );
                let local = local_result(query.findall, Seq::empty(), scan.items);
                let (after, nested) = if local.len() > 0 && !query.findall {
                    (inside, local)
                } else {
                    search_files(
                        query,
                        inside,
                        scan.edges,
                        0,
                        next_depth(depth),
                        level + 1,
                        local,
                    )
                };
                let left = SearchView { borrowed: released(after.borrowed, key.0), ..after };
                let now = if query.uses_cache() {
                    SearchView { cache: left.cache.insert(key, nested), ..left }
                } else {
                    left
                };
                let all = found + nested;
                if all.len() > 0 && !query.findall {
                    (now, all)
                } else {
                    search_files(query, now, edges, k + 1, depth, level, all)
                }
            }
        }
    }
}

/// What a search finds in the file in which it starts, and where it goes on.
pub open spec fn first_scan(query: SearchQuery, doc: DocView, start: int) -> ScanView {
    scanned(
        doc,
        query.env,
        query.scan_query(DependencyKind::Include, true),
        Set::<FileKey>::empty().insert((doc.url, DependencyKind::Include)),
        start,
    )
}

/// A search that has been through the file in which it starts.
pub open spec fn search_beyond(
    query: SearchQuery,
    store: StoreView,
    cache: Map<FileKey, Seq<ItemView>>,
    borrowed: Seq<Seq<char>>,
    url: Seq<char>,
    scan: ScanView,
    depth: Option<int>,
    named: Seq<ItemView>,
) -> (SearchView, Seq<ItemView>) {
    let visited = Set::<FileKey>::empty().insert((url, DependencyKind::Include));
    let state = SearchView { store, visited, cache, borrowed };
    let local = local_result(query.findall, named, scan.items);
    if local.len() > 0 && !query.findall {
        (state, local)
    } else {
        search_files(query, state, scan.edges, 0, depth, 1, local)
    }
}

/// A search from a node of a document on, given what the node's role as the name of an argument
/// already found.
pub open spec fn search_from(
    query: SearchQuery,
    store: StoreView,
    cache: Map<FileKey, Seq<ItemView>>,
    borrowed: Seq<Seq<char>>,
    doc: DocView,
    start: int,
    depth: Option<int>,
    named: Seq<ItemView>,
) -> (SearchView, Seq<ItemView>) {
    search_beyond(
        query,
        store,
        cache,
        borrowed,
        doc.url,
        first_scan(query, doc, start),
        depth,
        named,
    )
}

/// The place of the first parameter of a name from place `k` on.
pub open spec fn param_named(params: Seq<ParamView>, name: Seq<char>, k: int) -> Option<int>
    decreases params.len() - k,
{
    if k < 0 || k >= params.len() {
        None
    } else if params[k].name == name {
        Some(k)
    } else {
        param_named(params, name, k + 1)
    }
}

/// The parameter of a name of the first item from place `k` on that has one.
pub open spec fn param_of_items(items: Seq<ItemView>, name: Seq<char>, k: int) -> Seq<ItemView>
    decreases items.len() - k,
{
    if k < 0 || k >= items.len() {
        Seq::empty()
    } else {
        let item = items[k];
        match item.kind.params() {
            Some(params) => match param_named(params, name, 0) {
                Some(p) => seq![ItemView::of_param(params[p], item.url, item.is_builtin)],
                None => param_of_items(items, name, k + 1),
            },
            None => param_of_items(items, name, k + 1),
        }
    }
}

/// The limit on steps that a setting stands for: none for zero.
pub open spec fn depth_limit(setting: usize) -> Option<int> {
    if setting == 0 {
        None
    } else {
        Some(setting as int)
    }
}

/// The parameter that an identifier names in a call, if it does: the call's name is searched for
/// from the call on, and the first thing of that name that has such a parameter counts.
pub open spec fn named_argument_search(
    query: SearchQuery,
    store: StoreView,
    borrowed: Seq<Seq<char>>,
    doc: DocView,
    start: int,
    depth: Option<int>,
) -> (StoreView, Seq<Seq<char>>, Seq<ItemView>) {
    match named_argument(doc, start) {
        None => (store, borrowed, Seq::empty()),
        Some(argument) => if !query.filter.accepts(argument.name) {
            (store, borrowed, Seq::empty())
        } else {
            match doc.tree.child_by_field(argument.call, Field::Name) {
                None => (store, borrowed, Seq::empty()),
                Some(name) => {
                    let (after, items) = search_from(
                        SearchQuery {
                            filter: FilterView::Named(doc.tree.node_text(doc.code, name)),
                            findall: true,
                            cached: false,
                            ..query
                        },
                        store,
                        Map::empty(),
                        borrowed,
                        doc,
                        argument.call,
                        depth,
                        Seq::empty(),
                    );
                    (after.store, after.borrowed, param_of_items(items, argument.name, 0))
                },
            }
        },
    }
}

/// The whole search for a name from a node of a document on, given the documents that are held and
/// being searched: the documents that are held then, what is kept of it, and what it found.
pub open spec fn identities(
    query: SearchQuery,
    store: StoreView,
    cache: Map<FileKey, Seq<ItemView>>,
    borrowed: Seq<Seq<char>>,
    doc: DocView,
    start: int,
    depth: Option<int>,
) -> (SearchView, Seq<ItemView>) {
    let (held, left, named) = named_argument_search(query, store, borrowed, doc, start, depth);
    search_from(query, held, cache, left, doc, start, depth, named)
}

/// What all searches have in common.
#[derive(Debug)]
pub struct SearchSettings {
    /// The document of what the language itself knows.
    pub builtin_url: String,
    /// The number of files that a name may be away; zero for any number.
    pub depth: usize,
}

/// The model of [`SearchSettings`].
#[verifier::ext_equal]
pub struct SettingsView {
    pub builtin_url: Seq<char>,
    pub depth: usize,
}

impl View for SearchSettings {
    type V = SettingsView;

    open spec fn view(&self) -> SettingsView {
        SettingsView { builtin_url: self.builtin_url@, depth: self.depth }
    }
}

impl SettingsView {
    /// A search under the settings.
    pub open spec fn query(
        self,
        env: EnvView,
        filter: FilterView,
        findall: bool,
        cached: bool,
    ) -> SearchQuery {
        SearchQuery { filter, findall, builtin_url: self.builtin_url, env, cached }
    }

    /// What a search from a document that is held finds, and the documents that are held then.
    pub open spec fn find(
        self,
        env: EnvView,
        store: StoreView,
        doc: DocView,
        filter: FilterView,
        start: int,
        findall: bool,
    ) -> (StoreView, Seq<ItemView>) {
        let (after, found) = identities(
            self.query(env, filter, findall, false),
            store,
            Map::empty(),
            seq![doc.url],
            doc,
            start,
            depth_limit(self.depth),
        );
        (after.store, found)
    }
}

/// Moves a list of items behind another.
fn append_items(all: &mut Vec<Item>, more: Vec<Item>)
    ensures
        item_views(final(all)@) == item_views(old(all)@) + item_views(more@),
{
    let mut rest = more;
    all.append(&mut rest);
    assert(item_views(all@) =~= item_views(old(all)@) + item_views(more@));
}

/// The first of a list, as a list.
fn first_item(items: Vec<Item>) -> (first: Vec<Item>)
    ensures
        item_views(first@) == item_views(items@).take(if items@.len() > 0 {
            1
        } else {
            0
        }),
{
    let mut items = items;
    let ghost all = items@;
    items.truncate(1);
    assert(item_views(items@) =~= item_views(all).take(if all.len() > 0 {
        1
    } else {
        0
    }));
    items
}

/// Whether a list holds a text.
pub fn holds_text(list: &Vec<String>, text: &str) -> (r: bool)
    ensures
        r == texts(list@).contains(text@),
{
    let ghost all = texts(list@);
    let mut i: usize = 0;
    while i < list.len()
        invariant
            i <= list@.len(),
            all == texts(list@),
            forall|j: int| 0 <= j < i ==> #[trigger] all[j] != text@,
        decreases list@.len() - i,
    {
        assert(all[i as int] == list@[i as int]@);
        if same_text(list[i].as_str(), text) {
            return true;
        }
        i += 1;
    }
    false
}

/// Takes a document out of those that are being searched.
fn release(borrowed: &mut Vec<String>, url: &str)
    ensures
        texts(final(borrowed)@) == released(texts(old(borrowed)@), url@),
{
    let ghost all = texts(borrowed@);
    let ghost other = |u: Seq<char>| u != url@;
    let mut rest: Vec<String> = Vec::new();
    proof {
        reveal(Seq::filter);
        assert(all.take(0) =~= Seq::empty());
        assert(texts(rest@) =~= all.take(0).filter(other));
    }
    let mut i: usize = 0;
    while i < borrowed.len()
        invariant
            i <= borrowed@.len(),
            *borrowed == *old(borrowed),
            all == texts(borrowed@),
            other == (|u: Seq<char>| u != url@),
            texts(rest@) == all.take(i as int).filter(other),
        decreases borrowed@.len() - i,
    {
        let ghost before = texts(rest@);
        proof {
            reveal(Seq::filter);
            assert(all.take(i + 1).drop_last() =~= all.take(i as int));
            assert(all.take(i + 1).last() == borrowed@[i as int]@);
        }
        if !same_text(borrowed[i].as_str(), url) {
            rest.push(borrowed[i].clone());
            assert(texts(rest@) =~= before.push(borrowed@[i as int]@));
        }
        i += 1;
    }
    assert(all.take(borrowed@.len() as int) =~= all);
    *borrowed = rest;
}

/// Takes the documents that are not held any more, and one that was read anew, out of those that
/// are being searched.
fn drop_evicted(borrowed: &mut Vec<String>, store: &CodeStore, url: &str)
    requires
        store.wf(),
    ensures
        texts(final(borrowed)@) == texts(old(borrowed)@).filter(
            |u: Seq<char>| u != url@ && find(store@, u) is Some,
        ),
{
    let ghost all = texts(borrowed@);
    let ghost kept = |u: Seq<char>| u != url@ && find(store@, u) is Some;
    let mut rest: Vec<String> = Vec::new();
    proof {
        reveal(Seq::filter);
        assert(all.take(0) =~= Seq::empty());
        assert(texts(rest@) =~= all.take(0).filter(kept));
    }
    let mut i: usize = 0;
    while i < borrowed.len()
        invariant
            i <= borrowed@.len(),
            store.wf(),
            *borrowed == *old(borrowed),
            all == texts(borrowed@),
            kept == (|u: Seq<char>| u != url@ && find(store@, u) is Some),
            texts(rest@) == all.take(i as int).filter(kept),
        decreases borrowed@.len() - i,
    {
        let ghost before = texts(rest@);
        proof {
            reveal(Seq::filter);
            assert(all.take(i + 1).drop_last() =~= all.take(i as int));
            assert(all.take(i + 1).last() == borrowed@[i as int]@);
        }
        if !same_text(borrowed[i].as_str(), url) && store.contains(borrowed[i].as_str()) {
            rest.push(borrowed[i].clone());
            assert(texts(rest@) =~= before.push(borrowed@[i as int]@));
        }
        i += 1;
    }
    assert(all.take(borrowed@.len() as int) =~= all);
    *borrowed = rest;
}

/// Searches through the files of a list from place `k` on.
fn find_in_files(
    store: &mut CodeStore,
    settings: &SearchSettings,
    env: &Environment,
    filter: &NameFilter,
    findall: bool,
    cached: bool,
    visited: &mut Visited,
    cache: &mut IdentityCache,
    edges: &Vec<DependencyEdge>,
    depth: Option<usize>,
    borrowed: &mut Vec<String>,
    level: usize,
    found: Vec<Item>,
) -> (items: Vec<Item>)
    requires
        old(store).wf(),
    ensures
        final(store).wf(),
        search_files(
            SearchQuery {
                filter: filter@,
                findall,
                builtin_url: settings.builtin_url@,
                env: env@,
                cached,
            },
            SearchView { store: old(store)@, visited: old(visited)@, cache: old(cache)@, borrowed: texts(old(borrowed)@) },
            edge_views(edges@),
            0,
            node_index(depth),
            level as int,
            item_views(found@),
        ) == (
            SearchView { store: final(store)@, visited: final(visited)@, cache: final(cache)@, borrowed: texts(final(borrowed)@) },
            item_views(items@),
        ),
    decreases usize::MAX - level,
{
    let ghost query = SearchQuery {
        filter: filter@,
        findall,
        builtin_url: settings.builtin_url@,
        env: env@,
        cached,
    };
    let ghost keys = edge_views(edges@);
    let ghost steps = node_index(depth);
    let ghost goal = search_files(
        query,
        SearchView { store: store@, visited: visited@, cache: cache@, borrowed: texts(borrowed@) },
        keys,
        0,
        steps,
        level as int,
        item_views(found@),
    );
    let mut all = found;
    let mut k: usize = 0;
    while k < edges.len()
        invariant
            k <= edges@.len(),
            store.wf(),
            keys == edge_views(edges@),
            steps == node_index(depth),
            query == (SearchQuery {
                filter: filter@,
                findall,
                builtin_url: settings.builtin_url@,
                env: env@,
                cached,
            }),
            goal == search_files(
                query,
                SearchView { store: store@, visited: visited@, cache: cache@, borrowed: texts(borrowed@) },
                keys,
                k as int,
                steps,
                level as int,
                item_views(all@),
            ),
            goal == search_files(
                query,
                SearchView { store: old(store)@, visited: old(visited)@, cache: old(cache)@, borrowed: texts(old(borrowed)@) },
                keys,
                0,
                steps,
                level as int,
                item_views(found@),
            ),
        decreases edges@.len() - k,
    {
        let edge = &edges[k];
        let ghost key = keys[k as int];
        assert(key == edge@);
        let exhausted: bool = match depth {
            Some(d) => d == 0,
            None => false,
        };
        if visited.contains(edge.url.as_str(), edge.visibility) || exhausted {
            k += 1;
            continue;
        }
        if cached && !findall {
            match cache.get(edge.url.as_str(), edge.visibility) {
                Some(items) => {
                    visited.insert(edge.url.as_str(), edge.visibility);
                    append_items(&mut all, items);
                    if all.len() > 0 {
                        return all;
                    }
                    k += 1;
                    continue;
                },
                None => {},
            }
        }
        let was_held: bool = store.contains(edge.url.as_str());
        let is_held: bool = store.load(edge.url.as_str(), env);
        if !was_held {
            drop_evicted(borrowed, store, edge.url.as_str());
        }
        if !is_held {
            return all;
        }
        if holds_text(borrowed, edge.url.as_str()) || level == usize::MAX {
            if all.len() > 0 && !findall {
                return all;
            }
            k += 1;
            continue;
        }
        let ghost loaded = store@;
        store.generate(edge.url.as_str(), env);
        visited.insert(edge.url.as_str(), edge.visibility);
        proof {
            lemma_generated_found(loaded, key.0, env@);
        }
        let scan: Scan = match store.get(edge.url.as_str()) {
            Some(doc) => scan_document(
                doc,
                env,
                filter,
                findall,
                edge.visibility,
                false,
                &settings.builtin_url,
                visited,
                0,
            ),
            None => Scan { items: Vec::new(), edges: Vec::new() },
        };
        let local: Vec<Item> = if findall {
            scan.items
        } else {
            first_item(scan.items)
        };
        assert(item_views(local@) =~= local_result(
            findall,
            Seq::empty(),
            item_views(scan.items@),
        ));
        let ghost outer = texts(borrowed@);
        borrowed.push(edge.url.clone());
        assert(texts(borrowed@) =~= outer.push(key.0));
        let nested: Vec<Item> = if local.len() > 0 && !findall {
            local
        } else {
            let next: Option<usize> = match depth {
                Some(d) => Some(d - 1),
                None => None,
            };
            let items = find_in_files(
                store,
                settings,
                env,
                filter,
                findall,
                cached,
                visited,
                cache,
                &scan.edges,
                next,
                borrowed,
                level + 1,
                local,
            );
            items
        };
        release(borrowed, edge.url.as_str());
        if cached && !findall {
            let copy = clone_items(&nested);
            cache.insert(edge.url.as_str(), edge.visibility, copy);
        }
        append_items(&mut all, nested);
        if all.len() > 0 && !findall {
            return all;
        }
        k += 1;
    }
    all
}

/// A search that has been through the file in which it starts.
fn find_beyond(
    store: &mut CodeStore,
    settings: &SearchSettings,
    env: &Environment,
    filter: &NameFilter,
    findall: bool,
    cached: bool,
    cache: &mut IdentityCache,
    borrowed: &mut Vec<String>,
    url: &str,
    scan: Scan,
    named: Vec<Item>,
) -> (items: Vec<Item>)
    requires
        old(store).wf(),
    ensures
        final(store).wf(),
        ({
            let (after, found) = search_beyond(
                SearchQuery {
                    filter: filter@,
                    findall,
                    builtin_url: settings.builtin_url@,
                    env: env@,
                    cached,
                },
                old(store)@,
                old(cache)@,
                texts(old(borrowed)@),
                url@,
                scan@,
                depth_limit(settings.depth),
                item_views(named@),
            );
            &&& after.store == final(store)@
            &&& after.cache == final(cache)@
            &&& after.borrowed == texts(final(borrowed)@)
            &&& found == item_views(items@)
        }),
{
    let mut visited = Visited::new();
    visited.insert(url, DependencyKind::Include);
    let ghost local_views = local_result(findall, item_views(named@), item_views(scan.items@));
    let local: Vec<Item> = if findall {
        let mut all = named;
        append_items(&mut all, scan.items);
        all
    } else if named.len() > 0 {
        named
    } else {
        first_item(scan.items)
    };
    assert(item_views(local@) =~= local_views);
    if local.len() > 0 && !findall {
        return local;
    }
    let depth: Option<usize> = if settings.depth == 0 {
        None
    } else {
        Some(settings.depth)
    };
    find_in_files(
        store,
        settings,
        env,
        filter,
        findall,
        cached,
        &mut visited,
        cache,
        &scan.edges,
        depth,
        borrowed,
        1,
        local,
    )
}

/// The parameter of a name of the first item of a list that has one.
fn find_param(items: &Vec<Item>, name: &String) -> (found: Vec<Item>)
    ensures
        item_views(found@) == param_of_items(item_views(items@), name@, 0),
{
    let ghost views = item_views(items@);
    let mut i: usize = 0;
    while i < items.len()
        invariant
            i <= items@.len(),
            views == item_views(items@),
            param_of_items(views, name@, 0) == param_of_items(views, name@, i as int),
        decreases items@.len() - i,
    {
        let item = &items[i];
        assert(views[i as int] == item@);
        let place: Option<(&Vec<Param>, usize)> = match &item.kind {
            ItemKind::Module { params } => match position_of_param(params, name) {
                Some(p) => Some((params, p)),
                None => None,
            },
            ItemKind::Function { params } => match position_of_param(params, name) {
                Some(p) => Some((params, p)),
                None => None,
            },
            _ => None,
        };
        match place {
            Some((params, p)) => {
                let url: Option<String> = match &item.url {
                    Some(url) => Some(url.clone()),
                    None => None,
                };
                let mut found: Vec<Item> = Vec::new();
                found.push(Item::of_param(&params[p], url, item.is_builtin));
                assert(item_views(found@) =~= param_of_items(views, name@, i as int));
                return found;
            },
            None => {},
        }
        i += 1;
    }
    let found: Vec<Item> = Vec::new();
    assert(item_views(found@) =~= Seq::<ItemView>::empty());
    found
}

/// The place of the first parameter of a name.
fn position_of_param(params: &Vec<Param>, name: &String) -> (place: Option<usize>)
    ensures
        node_index(place) == param_named(param_views(params@), name@, 0),
        place is Some ==> place->0 < params@.len(),
{
    let ghost views = param_views(params@);
    let mut k: usize = 0;
    while k < params.len()
        invariant
            k <= params@.len(),
            views == param_views(params@),
            param_named(views, name@, 0) == param_named(views, name@, k as int),
        decreases params@.len() - k,
    {
        assert(views[k as int] == params@[k as int]@);
        if params[k].name == *name {
            return Some(k);
        }
        k += 1;
    }
    None
}

/// The whole search for names from a node of a document on.
fn find_from_node(
    store: &mut CodeStore,
    settings: &SearchSettings,
    env: &Environment,
    doc: &ParsedCode,
    filter: &NameFilter,
    start: usize,
    findall: bool,
    cached: bool,
    cache: &mut IdentityCache,
    borrowed: &mut Vec<String>,
) -> (items: Vec<Item>)
    requires
        old(store).wf(),
        doc@.tree.wf(),
        doc@.tree.has(start as int),
    ensures
        final(store).wf(),
        ({
            let (after, found) = identities(
                SearchQuery {
                    filter: filter@,
                    findall,
                    builtin_url: settings.builtin_url@,
                    env: env@,
                    cached,
                },
                old(store)@,
                old(cache)@,
                texts(old(borrowed)@),
                doc@,
                start as int,
                depth_limit(settings.depth),
            );
            &&& after.store == final(store)@
            &&& after.cache == final(cache)@
            &&& after.borrowed == texts(final(borrowed)@)
            &&& found == item_views(items@)
        }),
{
    let ghost before = store@;
    let ghost query = SearchQuery {
        filter: filter@,
        findall,
        builtin_url: settings.builtin_url@,
        env: env@,
        cached,
    };
    let mut visited = Visited::new();
    visited.insert(doc.url.as_str(), DependencyKind::Include);
    let mut lookup_call: Option<(NameFilter, String, Scan)> = None;
    let scan = scan_document(
        doc,
        env,
        filter,
        findall,
        DependencyKind::Include,
        true,
        &settings.builtin_url,
        &visited,
        start,
    );
    match named_argument_parameter_context(doc, start) {
        Some((call, name)) => {
            if filter.accepts(&name) {
                match doc.tree.child_by_field(call, Field::Name) {
                    Some(callee) => {
                        let callee_filter = NameFilter::Named(
                            doc.tree.node_text(doc.code.as_str(), callee),
                        );
                        let call_scan = scan_document(
                            doc,
                            env,
                            &callee_filter,
                            true,
                            DependencyKind::Include,
                            true,
                            &settings.builtin_url,
                            &visited,
                            call,
                        );
                        lookup_call = Some((callee_filter, name, call_scan));
                    },
                    None => {},
                }
            }
        },
        None => {},
    }
    let named: Vec<Item> = match lookup_call {
        Some((callee_filter, name, call_scan)) => {
            let mut fresh = IdentityCache::new();
            let none: Vec<Item> = Vec::new();
            assert(item_views(none@) =~= Seq::<ItemView>::empty());
            let callees = find_beyond(
                store,
                settings,
                env,
                &callee_filter,
                true,
                false,
                &mut fresh,
                borrowed,
                doc.url.as_str(),
                call_scan,
                none,
            );
            find_param(&callees, &name)
        },
        None => Vec::new(),
    };
    proof {
        let (held, left, found) = named_argument_search(
            query,
            before,
            texts(old(borrowed)@),
            doc@,
            start as int,
            depth_limit(settings.depth),
        );
        assert(item_views(named@) =~= found);
        assert(held == store@);
        assert(left == texts(borrowed@));
    }
    find_beyond(
        store,
        settings,
        env,
        filter,
        findall,
        cached,
        cache,
        borrowed,
        doc.url.as_str(),
        scan,
        named,
    )
}

/// Searches for names from a node of a document on that is held.
pub fn find_identities(
    store: &mut CodeStore,
    settings: &SearchSettings,
    env: &Environment,
    doc: &ParsedCode,
    filter: &NameFilter,
    start: usize,
    findall: bool,
) -> (items: Vec<Item>)
    requires
        old(store).wf(),
        doc@.tree.wf(),
        doc@.tree.has(start as int),
    ensures
        final(store).wf(),
        settings@.find(env@, old(store)@, doc@, filter@, start as int, findall) == (
            final(store)@,
            item_views(items@),
        ),
{
    let mut cache = IdentityCache::new();
    let mut borrowed: Vec<String> = Vec::new();
    borrowed.push(doc.url.clone());
    assert(texts(borrowed@) =~= seq![doc@.url]);
    find_from_node(
        store,
        settings,
        env,
        doc,
        filter,
        start,
        findall,
        false,
        &mut cache,
        &mut borrowed,
    )
}

/// Searches for names from a node of a document on, with what was found before, given the
/// documents that are held and being searched.
pub fn find_identities_with_cache(
    store: &mut CodeStore,
    settings: &SearchSettings,
    env: &Environment,
    doc: &ParsedCode,
    filter: &NameFilter,
    start: usize,
    findall: bool,
    cache: &mut IdentityCache,
    borrowed: &mut Vec<String>,
) -> (items: Vec<Item>)
    requires
        old(store).wf(),
        doc@.tree.wf(),
        doc@.tree.has(start as int),
    ensures
        final(store).wf(),
        ({
            let (after, found) = identities(
                settings@.query(env@, filter@, findall, true),
                old(store)@,
                old(cache)@,
                texts(old(borrowed)@),
                doc@,
                start as int,
                depth_limit(settings.depth),
            );
            &&& after.store == final(store)@
            &&& after.cache == final(cache)@
            &&& after.borrowed == texts(final(borrowed)@)
            &&& found == item_views(items@)
        }),
{
    find_from_node(store, settings, env, doc, filter, start, findall, true, cache, borrowed)
}

/// A document that is held is still held once it is brought up to date.
proof fn lemma_generated_found(store: StoreView, url: Seq<char>, env: EnvView)
    requires
        find(store, url) is Some,
    ensures
        find(with_generated(store, url, env), url) is Some,
        lookup(with_generated(store, url, env), url) is Some,
{
    lemma_find(store, url);
    let now = with_generated(store, url, env);
    lemma_find(now, url);
    let k = find(store, url)->0;
    if find(now, url) is None {
        assert(now[k].0 != url);
    }
}

} // verus!
