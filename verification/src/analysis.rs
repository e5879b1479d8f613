use vstd::prelude::*;

use crate::environment::{EnvView, Environment};
use crate::index_laws::{
    consistent, law_inserting_keeps_consistent, law_removing_keeps_consistent, own_places,
};
use crate::kinds::NodeKind;
use crate::parse_code::{clone_texts, texts, DocView, ParsedCode};
use crate::resolve::{
    depth_limit, find_identities_with_cache, identities, IdentityCache, SearchSettings,
    SettingsView,
};
use crate::response_item::{item_views, Item, ItemView};
use crate::scan::{listed, FileKey, FilterView, NameFilter};
use crate::sorting::{sort_texts, sorted_texts};
use crate::store::{lookup, with_generated, with_loaded, CodeStore, StoreView};
use crate::symbols::{
    resolved_symbol_from_item, symbol_of, Occurrence, OccurrenceView, RangeKey, ResolvedSymbol,
    ResolvedView, SymbolKey, SymbolView,
};
use crate::table::Table;
use crate::workspace_index::{
    resolved_views, AnalysisView, FileAnalysis, IndexView, OccurrenceMap, WorkspaceIndex,
};

verus! {

/// The documents that are held once one was asked for and is up to date.
pub open spec fn with_opened(store: StoreView, url: Seq<char>, env: EnvView) -> StoreView {
    with_generated(with_loaded(store, url, env), url, env)
}

/// A document that was asked for and is up to date.
pub open spec fn opened(store: StoreView, url: Seq<char>, env: EnvView) -> Option<DocView> {
    lookup(with_opened(store, url, env), url)
}

/// Asks for a document and brings it up to date.
pub fn open_document(store: &mut CodeStore, url: &str, env: &Environment) -> (doc: Option<ParsedCode>)
    requires
        old(store).wf(),
    ensures
        final(store).wf(),
        final(store)@ == with_opened(old(store)@, url@, env@),
        match doc {
            Some(doc) => opened(old(store)@, url@, env@) == Some(doc@) && doc@.wf() && doc@.url
                == url@,
            None => opened(old(store)@, url@, env@) is None,
        },
{
    store.load(url, env);
    store.generate(url, env);
    match store.get(url) {
        Some(doc) => Some(doc.copy()),
        None => None,
    }
}

/// How far the look at the identifiers of a file has come.
#[verifier::ext_equal]
pub struct PassView {
    pub store: StoreView,
    /// What was found in other files, for each name.
    pub caches: Map<Seq<char>, Map<FileKey, Seq<ItemView>>>,
    pub occurrences: Map<RangeKey, ResolvedView>,
    pub resolved: Seq<(SymbolView, OccurrenceView)>,
    /// The file, as long as it is held.
    pub borrowed: Seq<Seq<char>>,
}

/// A look at one node: an identifier that stands for something is recorded.
pub open spec fn pass_step(
    settings: SettingsView,
    env: EnvView,
    doc: DocView,
    pass: PassView,
    node: int,
) -> PassView {
    if !(doc.tree.kind(node) is Identifier) {
        pass
    } else {
        let name = doc.tree.node_text(doc.code, node);
        let cache = if pass.caches.contains_key(name) {
            pass.caches[name]
        } else {
            Map::empty()
        };
        let (after, found) = identities(
            settings.query(env, FilterView::Named(name), false, true),
            pass.store,
            cache,
            pass.borrowed,
            doc,
            node,
            depth_limit(settings.depth),
        );
        let range = doc.tree.range(node);
        PassView {
            borrowed: after.borrowed,
            store: after.store,
            caches: pass.caches.insert(name, after.cache),
            occurrences: if found.len() > 0 {
                pass.occurrences.insert(RangeKey::of(range), symbol_of(found[0]))
            } else {
                pass.occurrences
            },
            resolved: if found.len() > 0 {
                match symbol_of(found[0]) {
                    ResolvedView::Workspace(symbol) => pass.resolved.push(
                        (symbol, OccurrenceView { url: doc.url, range }),
                    ),
                    ResolvedView::Builtin { .. } => pass.resolved,
                }
            } else {
                pass.resolved
            },
        }
    }
}

/// A look at the first `k` nodes.
pub open spec fn passed(
    settings: SettingsView,
    env: EnvView,
    doc: DocView,
    store: StoreView,
    k: int,
) -> PassView
    decreases k,
{
    if k <= 0 {
        PassView {
            store,
            caches: Map::empty(),
            occurrences: Map::empty(),
            resolved: Seq::empty(),
            borrowed: seq![doc.url],
        }
    } else {
        pass_step(settings, env, doc, passed(settings, env, doc, store, k - 1), k - 1)
    }
}

/// The files that a document depends on.
pub open spec fn dependencies_of(doc: DocView) -> Seq<Seq<char>> {
    sorted_texts(listed(doc.includes) + listed(doc.uses))
}

/// What is found in a file, if it can be read, and the documents that are held then.
pub open spec fn analyzed(
    settings: SettingsView,
    env: EnvView,
    store: StoreView,
    url: Seq<char>,
) -> (StoreView, Option<AnalysisView>) {
    let held = with_opened(store, url, env);
    match opened(store, url, env) {
        None => (held, None),
        Some(doc) => {
            let pass = passed(settings, env, doc, held, doc.tree.len());
            (
                pass.store,
                Some(
                    AnalysisView {
                        dependencies: dependencies_of(doc),
                        occurrences: pass.occurrences,
                        resolved: pass.resolved,
                    },
                ),
            )
        },
    }
}

/// The files that a document depends on.
fn find_dependencies(doc: &ParsedCode) -> (dependencies: Vec<String>)
    ensures
        texts(dependencies@) == dependencies_of(doc@),
{
    let mut all: Vec<String> = match &doc.includes {
        Some(includes) => clone_texts(includes),
        None => Vec::new(),
    };
    let mut uses: Vec<String> = match &doc.uses {
        Some(uses) => clone_texts(uses),
        None => Vec::new(),
    };
    let ghost first = all@;
    let ghost second = uses@;
    all.append(&mut uses);
    proof {
        assert(texts(first) =~= listed(doc@.includes));
        assert(texts(second) =~= listed(doc@.uses));
        assert(texts(all@) =~= listed(doc@.includes) + listed(doc@.uses));
    }
    sort_texts(all)
}

/// The models of what was found in other files, for each name.
spec fn cache_views(caches: Map<Seq<char>, IdentityCache>) -> Map<
    Seq<char>,
    Map<FileKey, Seq<ItemView>>,
> {
    caches.map_values(|c: IdentityCache| c@)
}

/// Looks at an identifier.
fn look_at(
    store: &mut CodeStore,
    settings: &SearchSettings,
    env: &Environment,
    doc: &ParsedCode,
    node: usize,
    caches: &mut Table<IdentityCache>,
    occurrence_map: &mut OccurrenceMap,
    resolved: &mut Vec<(SymbolKey, Occurrence)>,
    borrowed: &mut Vec<String>,
)
    requires
        old(store).wf(),
        old(caches).wf(),
        doc@.tree.wf(),
        doc@.tree.has(node as int),
    ensures
        final(store).wf(),
        final(caches).wf(),
        pass_step(
            settings@,
            env@,
            doc@,
            PassView {
                store: old(store)@,
                caches: cache_views(old(caches)@),
                occurrences: old(occurrence_map)@,
                resolved: resolved_views(old(resolved)@),
                borrowed: texts(old(borrowed)@),
            },
            node as int,
        ) == (PassView {
            store: final(store)@,
            caches: cache_views(final(caches)@),
            occurrences: final(occurrence_map)@,
            resolved: resolved_views(final(resolved)@),
            borrowed: texts(final(borrowed)@),
        }),
{
    if doc.tree.kind(node) != NodeKind::Identifier {
        return;
    }
    let name: String = doc.tree.node_text(doc.code.as_str(), node);
    let mut cache: IdentityCache = match caches.take(name.as_str()) {
        Some(cache) => cache,
        None => IdentityCache::new(),
    };
    let filter = NameFilter::Named(name.clone());
    let found: Vec<Item> = find_identities_with_cache(
        store,
        settings,
        env,
        doc,
        &filter,
        node,
        false,
        &mut cache,
        borrowed,
    );
    let ghost cache_view = cache@;
    caches.insert(name.as_str(), cache);
    proof {
        assert(cache_views(caches@) =~= cache_views(old(caches)@).insert(name@, cache_view));
    }
    if found.len() > 0 {
        let range = doc.tree.range(node);
        let symbol = resolved_symbol_from_item(&found[0]);
        let copy = symbol.copy();
        assert(item_views(found@)[0] == found@[0]@);
        occurrence_map.insert(&RangeKey::from(range), copy);
        match symbol {
            ResolvedSymbol::Workspace(key) => {
                let place = Occurrence { url: doc.url.clone(), range };
                let ghost before = resolved_views(resolved@);
                resolved.push((key, place));
                assert(resolved_views(resolved@) =~= before.push((key@, place@)));
            },
            ResolvedSymbol::Builtin { .. } => {},
        }
    }
}

/// What is found in a file, if it can be read.
pub fn analyze_file(
    store: &mut CodeStore,
    settings: &SearchSettings,
    env: &Environment,
    url: &str,
) -> (analysis: Option<FileAnalysis>)
    requires
        old(store).wf(),
    ensures
        final(store).wf(),
        final(store)@ == analyzed(settings@, env@, old(store)@, url@).0,
        match analysis {
            Some(analysis) => analyzed(settings@, env@, old(store)@, url@).1 == Some(analysis@),
            None => analyzed(settings@, env@, old(store)@, url@).1 is None,
        },
        analysis is Some ==> own_places(url@, analysis->0@),
{
    let doc: ParsedCode = match open_document(store, url, env) {
        Some(doc) => doc,
        None => {
            return None;
        },
    };
    let ghost held = store@;
    let dependencies = find_dependencies(&doc);
    let mut caches: Table<IdentityCache> = Table::new();
    let mut occurrence_map = OccurrenceMap::new();
    let mut resolved: Vec<(SymbolKey, Occurrence)> = Vec::new();
    let mut borrowed: Vec<String> = Vec::new();
    borrowed.push(doc.url.clone());
    proof {
        assert(texts(borrowed@) =~= seq![doc@.url]);
        assert(cache_views(caches@) =~= Map::empty());
        assert(resolved_views(resolved@) =~= Seq::empty());
    }
    let mut k: usize = 0;
    while k < doc.tree.len()
        invariant
            k <= doc@.tree.len(),
            doc@.wf(),
            store.wf(),
            caches.wf(),
            passed(settings@, env@, doc@, held, k as int) == (PassView {
                store: store@,
                caches: cache_views(caches@),
                occurrences: occurrence_map@,
                resolved: resolved_views(resolved@),
                borrowed: texts(borrowed@),
            }),
        decreases doc@.tree.len() - k,
    {
        look_at(
            store,
            settings,
            env,
            &doc,
            k,
            &mut caches,
            &mut occurrence_map,
            &mut resolved,
            &mut borrowed,
        );
        k += 1;
    }
    let analysis = FileAnalysis {
        dependencies,
        occurrence_map,
        resolved_occurrences: resolved,
    };
    proof {
        lemma_passed_places(settings@, env@, doc@, held, doc@.tree.len());
    }
    Some(analysis)
}

/// The places that a look at a file records are places of that file.
pub(crate) proof fn lemma_passed_places(
    settings: SettingsView,
    env: EnvView,
    doc: DocView,
    store: StoreView,
    k: int,
)
    ensures
        forall|j: int|
            0 <= j < passed(settings, env, doc, store, k).resolved.len() ==> (#[trigger] passed(
                settings,
                env,
                doc,
                store,
                k,
            ).resolved[j]).1.url == doc.url,
    decreases k,
{
    if k > 0 {
        lemma_passed_places(settings, env, doc, store, k - 1);
        let before = passed(settings, env, doc, store, k - 1).resolved;
        let now = passed(settings, env, doc, store, k).resolved;
        assert forall|j: int| 0 <= j < now.len() implies (#[trigger] now[j]).1.url == doc.url by {
            if j < before.len() {
                assert(now[j] == before[j]);
            }
        }
    }
}

/// The documents that are held and what is known of the files of the workspace.
#[verifier::ext_equal]
pub struct KnowledgeView {
    pub store: StoreView,
    pub index: IndexView,
}

/// What is known after the first `k` files of a list were looked at again.
pub open spec fn reindexed(
    settings: SettingsView,
    env: EnvView,
    known: KnowledgeView,
    urls: Seq<Seq<char>>,
    k: int,
) -> KnowledgeView
    decreases k,
{
    if k <= 0 {
        known
    } else {
        let before = reindexed(settings, env, known, urls, k - 1);
        let url = urls[k - 1];
        let (store, analysis) = analyzed(settings, env, before.store, url);
        let index = before.index.without_file(url);
        KnowledgeView {
            store,
            index: match analysis {
                Some(analysis) => index.with_file(url, analysis),
                None => index,
            },
        }
    }
}

/// Looks at the files of a list again, each once and in ascending order.
pub fn reindex_urls(
    store: &mut CodeStore,
    index: &mut WorkspaceIndex,
    settings: &SearchSettings,
    env: &Environment,
    urls: Vec<String>,
)
    requires
        old(store).wf(),
        old(index).wf(),
    ensures
        final(store).wf(),
        final(index).wf(),
        reindexed(
            settings@,
            env@,
            KnowledgeView { store: old(store)@, index: old(index)@ },
            sorted_texts(texts(urls@)),
            sorted_texts(texts(urls@)).len() as int,
        ) == (KnowledgeView { store: final(store)@, index: final(index)@ }),
        consistent(old(index)@) ==> consistent(final(index)@),
{
    let ghost known = KnowledgeView { store: store@, index: index@ };
    let pending = sort_texts(urls);
    let ghost all = texts(pending@);
    let ghost was_consistent = consistent(index@);
    let mut k: usize = 0;
    while k < pending.len()
        invariant
            k <= pending@.len(),
            all == texts(pending@),
            store.wf(),
            index.wf(),
            reindexed(settings@, env@, known, all, k as int) == (KnowledgeView {
                store: store@,
                index: index@,
            }),
            was_consistent ==> consistent(index@),
        decreases pending@.len() - k,
    {
        let url: &str = pending[k].as_str();
        assert(all[k as int] == url@);
        let analysis = analyze_file(store, settings, env, url);
        proof {
            if was_consistent {
                law_removing_keeps_consistent(index@, url@);
            }
        }
        index.remove_file(url);
        match analysis {
            Some(analysis) => {
                proof {
                    if was_consistent {
                        law_inserting_keeps_consistent(index@, url@, analysis@);
                    }
                }
                index.insert_file(url, analysis);
            },
            None => {},
        }
        k += 1;
    }
}

} // verus!
