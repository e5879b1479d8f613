use vstd::prelude::*;

use crate::analysis::{analyzed, lemma_passed_places, opened, passed, with_opened};
use crate::environment::EnvView;
use crate::index_laws::{consistent, law_references_are_what_was_found};
use crate::parse_code::DocView;
use crate::position::Range;
use crate::resolve::{depth_limit, identities, SettingsView};
use crate::response_item::ItemView;
use crate::scan::FilterView;
use crate::store::StoreView;
use crate::symbols::{OccurrenceView, RangeKey, ResolvedView, SymbolKindTag, SymbolView};
use crate::syntax::Tree;
use crate::workspace_index::{AnalysisView, IndexView};

verus! {

/// Whether no two identifiers of a tree have the same range.
pub open spec fn distinct_identifiers(tree: Tree) -> bool {
    forall|i: int, j: int|
        0 <= i < j < tree.len() && tree.kind(i) is Identifier && tree.kind(j) is Identifier
            ==> #[trigger] tree.range(i) != #[trigger] tree.range(j)
}

/// Whether each place that was found for a symbol stands for it.
pub open spec fn places_stand_for_symbols(analysis: AnalysisView) -> bool {
    forall|j: int|
        0 <= j < analysis.resolved.len() ==> {
            let (symbol, place) = #[trigger] analysis.resolved[j];
            analysis.occurrences.contains_key(RangeKey::of(place.range))
                && analysis.occurrences[RangeKey::of(place.range)] == ResolvedView::Workspace(
                symbol,
            )
        }
}

/// Whether each identifier that stands for a symbol was found as a place of it.
pub open spec fn symbols_have_places(url: Seq<char>, analysis: AnalysisView) -> bool {
    forall|range: Range, symbol: SymbolView|
        analysis.occurrences.contains_key(RangeKey::of(range)) && analysis.occurrences[RangeKey::of(
            range,
        )] == ResolvedView::Workspace(symbol) ==> #[trigger] analysis.resolved.contains(
            (symbol, OccurrenceView { url, range }),
        )
}

/// What a look at the first `k` nodes found.
pub open spec fn found_so_far(
    settings: SettingsView,
    env: EnvView,
    doc: DocView,
    store: StoreView,
    k: int,
) -> AnalysisView {
    let pass = passed(settings, env, doc, store, k);
    AnalysisView {
        dependencies: Seq::empty(),
        occurrences: pass.occurrences,
        resolved: pass.resolved,
    }
}

/// Whether a range is that of an identifier among the first `k` nodes.
pub open spec fn identifier_range(tree: Tree, k: int, range: Range) -> bool {
    exists|n: int| 0 <= n < k && tree.kind(n) is Identifier && #[trigger] tree.range(n) == range
}

/// Each place that a look at the first `k` nodes found is that of one of them, and stands for its
/// symbol.
proof fn lemma_places_agree(
    settings: SettingsView,
    env: EnvView,
    doc: DocView,
    store: StoreView,
    k: int,
)
    requires
        distinct_identifiers(doc.tree),
        0 <= k <= doc.tree.len(),
    ensures
        places_stand_for_symbols(found_so_far(settings, env, doc, store, k)),
        forall|j: int|
            0 <= j < passed(settings, env, doc, store, k).resolved.len() ==> identifier_range(
                doc.tree,
                k,
                (#[trigger] passed(settings, env, doc, store, k).resolved[j]).1.range,
            ),
    decreases k,
{
    if k > 0 {
        lemma_places_agree(settings, env, doc, store, k - 1);
        let before = passed(settings, env, doc, store, k - 1);
        let now = passed(settings, env, doc, store, k);
        let node = k - 1;
        let range = doc.tree.range(node);
        let earlier = found_so_far(settings, env, doc, store, k - 1);
        let later = found_so_far(settings, env, doc, store, k);
        assert forall|j: int| 0 <= j < now.resolved.len() implies identifier_range(
            doc.tree,
            k,
            (#[trigger] now.resolved[j]).1.range,
        ) by {
            if j < before.resolved.len() {
                assert(now.resolved[j] == before.resolved[j]);
                let n = choose|n: int|
                    0 <= n < k - 1 && doc.tree.kind(n) is Identifier && #[trigger] doc.tree.range(n)
                        == before.resolved[j].1.range;
                assert(doc.tree.range(n) == now.resolved[j].1.range);
            } else {
                assert(doc.tree.range(node) == now.resolved[j].1.range);
            }
        }
        assert forall|j: int| 0 <= j < later.resolved.len() implies ({
            let (symbol, place) = #[trigger] later.resolved[j];
            later.occurrences.contains_key(RangeKey::of(place.range))
                && later.occurrences[RangeKey::of(place.range)] == ResolvedView::Workspace(symbol)
        }) by {
            if j < before.resolved.len() {
                assert(later.resolved[j] == earlier.resolved[j]);
                let place = earlier.resolved[j].1;
                assert(identifier_range(doc.tree, k - 1, before.resolved[j].1.range));
                let n = choose|n: int|
                    0 <= n < k - 1 && doc.tree.kind(n) is Identifier && #[trigger] doc.tree.range(n)
                        == before.resolved[j].1.range;
                if doc.tree.kind(node) is Identifier {
                    assert(doc.tree.range(n) != doc.tree.range(node));
                    if RangeKey::of(place.range) == RangeKey::of(range) {
                        RangeKey::law_range_keys_differ(place.range, range);
                    }
                }
            }
        }
    }
}

/// Each identifier among the first `k` nodes that stands for a symbol was found as a place of it.
proof fn lemma_symbols_agree(
    settings: SettingsView,
    env: EnvView,
    doc: DocView,
    store: StoreView,
    k: int,
)
    ensures
        symbols_have_places(doc.url, found_so_far(settings, env, doc, store, k)),
    decreases k,
{
    if k > 0 {
        lemma_symbols_agree(settings, env, doc, store, k - 1);
        let before = found_so_far(settings, env, doc, store, k - 1);
        let now = found_so_far(settings, env, doc, store, k);
        let here = doc.tree.range(k - 1);
        assert forall|range: Range, symbol: SymbolView|
            now.occurrences.contains_key(RangeKey::of(range)) && now.occurrences[RangeKey::of(range)]
                == ResolvedView::Workspace(symbol) implies #[trigger] now.resolved.contains(
            (symbol, OccurrenceView { url: doc.url, range }),
        ) by {
            let place = (symbol, OccurrenceView { url: doc.url, range });
            if range == here && now.resolved.len() > before.resolved.len() {
                assert(now.resolved[before.resolved.len() as int] == place);
            } else {
                if RangeKey::of(range) == RangeKey::of(here) {
                    RangeKey::law_range_keys_differ(range, here);
                }
                assert(before.resolved.contains(place));
                let j = choose|j: int| 0 <= j < before.resolved.len() && before.resolved[j] == place;
                assert(now.resolved[j] == place);
            }
        }
    }
}

/// What is found in a file agrees with itself: an identifier stands for a symbol exactly if it was
/// found as a place of that symbol.
pub proof fn law_places_and_symbols_agree(
    settings: SettingsView,
    env: EnvView,
    store: StoreView,
    url: Seq<char>,
)
    requires
        opened(store, url, env) is Some,
        opened(store, url, env)->0.url == url,
        distinct_identifiers(opened(store, url, env)->0.tree),
    ensures
        analyzed(settings, env, store, url).1 is Some,
        places_stand_for_symbols(analyzed(settings, env, store, url).1->0),
        symbols_have_places(url, analyzed(settings, env, store, url).1->0),
{
    let doc = opened(store, url, env)->0;
    let held = with_opened(store, url, env);
    let analysis = analyzed(settings, env, store, url).1->0;
    let found = found_so_far(settings, env, doc, held, doc.tree.len());
    lemma_places_agree(settings, env, doc, held, doc.tree.len());
    lemma_symbols_agree(settings, env, doc, held, doc.tree.len());
    assert(found.occurrences == analysis.occurrences);
    assert(found.resolved == analysis.resolved);
    assert forall|j: int| 0 <= j < analysis.resolved.len() implies ({
        let (symbol, place) = #[trigger] analysis.resolved[j];
        analysis.occurrences.contains_key(RangeKey::of(place.range))
            && analysis.occurrences[RangeKey::of(place.range)] == ResolvedView::Workspace(symbol)
    }) by {
        assert(found.resolved[j] == analysis.resolved[j]);
    }
    assert forall|range: Range, symbol: SymbolView|
        analysis.occurrences.contains_key(RangeKey::of(range))
            && analysis.occurrences[RangeKey::of(range)] == ResolvedView::Workspace(
            symbol,
        ) implies #[trigger] analysis.resolved.contains((symbol, OccurrenceView { url, range })) by {
        assert(found.resolved.contains((symbol, OccurrenceView { url, range })));
    }
}

/// In a consistent index, the places of a symbol are exactly the identifiers that stand for it: a
/// place is listed for the symbol if and only if asking what stands there gives the symbol.
pub proof fn law_references_stand_for_their_symbol(
    index: IndexView,
    symbol: SymbolView,
    place: OccurrenceView,
)
    requires
        consistent(index),
        index.files.contains_key(place.url) ==> places_stand_for_symbols(index.files[place.url])
            && symbols_have_places(place.url, index.files[place.url]),
    ensures
        (index.refs)(symbol).contains(place) == (index.symbol_at(place.url, place.range) == Some(
            ResolvedView::Workspace(symbol),
        )),
{
    law_references_are_what_was_found(index, symbol, place);
    if index.files.contains_key(place.url) {
        let analysis = index.files[place.url];
        if analysis.resolved.contains((symbol, place)) {
            let j = choose|j: int|
                0 <= j < analysis.resolved.len() && analysis.resolved[j] == (symbol, place);
            assert(analysis.resolved[j] == (symbol, place));
        }
        if index.symbol_at(place.url, place.range) == Some(ResolvedView::Workspace(symbol)) {
            assert(analysis.resolved.contains(
                (symbol, OccurrenceView { url: place.url, range: place.range }),
            ));
        }
    }
}

/// Whether a symbol is what an item of a file declares.
pub open spec fn symbol_declared(symbol: SymbolView, item: ItemView) -> bool {
    &&& item.url == Some(symbol.url)
    &&& symbol.name == item.name
    &&& symbol.range == RangeKey::of(item.range)
    &&& symbol.is_top_level == item.is_top_level
    &&& (symbol.kind == SymbolKindTag::Variable) == (item.kind is Variable)
    &&& (symbol.kind == SymbolKindTag::Function) == (item.kind is Function)
    &&& (symbol.kind == SymbolKindTag::Module) == (item.kind is Module)
    &&& (symbol.kind == SymbolKindTag::Keyword) == (item.kind is Keyword)
}

/// What a search for the text of a node finds from there, at the point at which the look at a file
/// comes to it.
pub open spec fn found_at(
    settings: SettingsView,
    env: EnvView,
    doc: DocView,
    store: StoreView,
    node: int,
) -> Seq<ItemView> {
    let before = passed(settings, env, doc, store, node);
    let name = doc.tree.node_text(doc.code, node);
    identities(
        settings.query(env, FilterView::Named(name), false, true),
        before.store,
        if before.caches.contains_key(name) {
            before.caches[name]
        } else {
            Map::empty()
        },
        before.borrowed,
        doc,
        node,
        depth_limit(settings.depth),
    ).1
}

/// Whether what was found in a file says of an identifier what a search for it finds: it is a
/// place of the symbol of the first thing that is found, if that belongs to a file; it stands for
/// something of the language itself, if not; and it stands for nothing where nothing is found.
pub open spec fn identifier_recorded(
    url: Seq<char>,
    analysis: AnalysisView,
    range: Range,
    found: Seq<ItemView>,
) -> bool {
    let place = OccurrenceView { url, range };
    let key = RangeKey::of(range);
    if found.len() == 0 {
        &&& !analysis.occurrences.contains_key(key)
        &&& forall|symbol: SymbolView| !#[trigger] analysis.resolved.contains((symbol, place))
    } else if found[0].url is Some {
        &&& forall|symbol: SymbolView| #[trigger]
            analysis.resolved.contains((symbol, place)) == symbol_declared(symbol, found[0])
        &&& analysis.occurrences.contains_key(key)
        &&& analysis.occurrences[key] matches ResolvedView::Workspace(symbol) && symbol_declared(
            symbol,
            found[0],
        )
    } else {
        &&& analysis.occurrences.contains_key(key)
        &&& analysis.occurrences[key] is Builtin
        &&& forall|symbol: SymbolView| !#[trigger] analysis.resolved.contains((symbol, place))
    }
}

/// A look at the first `k` nodes says of each identifier among them what a search for it finds.
proof fn lemma_identifiers_recorded(
    settings: SettingsView,
    env: EnvView,
    doc: DocView,
    store: StoreView,
    k: int,
)
    requires
        distinct_identifiers(doc.tree),
        0 <= k <= doc.tree.len(),
    ensures
        forall|n: int|
            0 <= n < k && (#[trigger] doc.tree.kind(n)) is Identifier ==> identifier_recorded(
                doc.url,
                found_so_far(settings, env, doc, store, k),
                doc.tree.range(n),
                found_at(settings, env, doc, store, n),
            ),
        forall|j: int|
            0 <= j < passed(settings, env, doc, store, k).resolved.len() ==> identifier_range(
                doc.tree,
                k,
                (#[trigger] passed(settings, env, doc, store, k).resolved[j]).1.range,
            ),
        forall|range: Range| #[trigger]
            passed(settings, env, doc, store, k).occurrences.contains_key(RangeKey::of(range))
                ==> identifier_range(doc.tree, k, range),
    decreases k,
{
    let tree = doc.tree;
    if k > 0 {
        lemma_identifiers_recorded(settings, env, doc, store, k - 1);
        let before = found_so_far(settings, env, doc, store, k - 1);
        let now = found_so_far(settings, env, doc, store, k);
        let m = k - 1;
        let here = tree.range(m);
        let found = found_at(settings, env, doc, store, m);
        if tree.kind(m) is Identifier {
            assert forall|n: int| 0 <= n < m && tree.kind(n) is Identifier implies RangeKey::of(
                #[trigger] tree.range(n),
            ) != RangeKey::of(here) by {
                if RangeKey::of(tree.range(n)) == RangeKey::of(here) {
                    RangeKey::law_range_keys_differ(tree.range(n), here);
                }
            }
        }
        if now.resolved != before.resolved {
            assert(now.resolved.drop_last() =~= before.resolved);
            assert(now.resolved.last().1.range == here);
        }
        assert forall|j: int| 0 <= j < now.resolved.len() implies identifier_range(
            tree,
            k,
            (#[trigger] now.resolved[j]).1.range,
        ) by {
            if j < before.resolved.len() {
                assert(now.resolved[j] == before.resolved[j]);
                assert(identifier_range(tree, k - 1, before.resolved[j].1.range));
                let n = choose|n: int|
                    0 <= n < k - 1 && tree.kind(n) is Identifier && #[trigger] tree.range(n)
                        == before.resolved[j].1.range;
                assert(tree.range(n) == now.resolved[j].1.range);
            } else {
                assert(tree.range(m) == now.resolved[j].1.range);
            }
        }
        assert forall|range: Range| #[trigger]
            now.occurrences.contains_key(RangeKey::of(range)) implies identifier_range(
            tree,
            k,
            range,
        ) by {
            if before.occurrences.contains_key(RangeKey::of(range)) {
                assert(identifier_range(tree, k - 1, range));
                let n = choose|n: int|
                    0 <= n < k - 1 && tree.kind(n) is Identifier && #[trigger] tree.range(n)
                        == range;
                assert(tree.range(n) == range);
            } else {
                RangeKey::law_range_keys_differ(range, here);
                assert(tree.range(m) == range);
            }
        }
        assert forall|n: int| 0 <= n < k && (#[trigger] tree.kind(n)) is Identifier implies
            identifier_recorded(
            doc.url,
            now,
            tree.range(n),
            found_at(settings, env, doc, store, n),
        ) by {
            let place = OccurrenceView { url: doc.url, range: tree.range(n) };
            if n < m {
                assert(identifier_recorded(
                    doc.url,
                    before,
                    tree.range(n),
                    found_at(settings, env, doc, store, n),
                ));
                assert(tree.kind(m) is Identifier ==> tree.range(n) != tree.range(m));
                assert forall|symbol: SymbolView| #[trigger]
                    now.resolved.contains((symbol, place)) == before.resolved.contains(
                        (symbol, place),
                    ) by {
                    lemma_same_elsewhere(before.resolved, now.resolved, (symbol, place));
                }
            } else {
                assert forall|symbol: SymbolView| !#[trigger] before.resolved.contains(
                    (symbol, place),
                ) by {
                    if before.resolved.contains((symbol, place)) {
                        let j = choose|j: int|
                            0 <= j < before.resolved.len() && before.resolved[j] == (symbol, place);
                        let other = passed(settings, env, doc, store, k - 1);
                        assert(other.resolved[j].1.range == here);
                        assert(identifier_range(tree, k - 1, here));
                        let i = choose|i: int|
                            0 <= i < k - 1 && tree.kind(i) is Identifier && #[trigger] tree.range(i)
                                == here;
                        assert(tree.range(i) != tree.range(m));
                    }
                }
                assert(!before.occurrences.contains_key(RangeKey::of(here))) by {
                    let other = passed(settings, env, doc, store, k - 1);
                    if other.occurrences.contains_key(RangeKey::of(here)) {
                        assert(identifier_range(tree, k - 1, here));
                        let i = choose|i: int|
                            0 <= i < k - 1 && tree.kind(i) is Identifier && #[trigger] tree.range(i)
                                == here;
                        assert(tree.range(i) != tree.range(m));
                    }
                }
                assert forall|symbol: SymbolView| #[trigger]
                    now.resolved.contains((symbol, place)) == (now.resolved.len()
                        > before.resolved.len() && now.resolved.last() == (symbol, place)) by {
                    lemma_last_added(before.resolved, now.resolved, (symbol, place));
                }
            }
        }
    }
}

/// A list with at most one more element at its end holds the others as before.
proof fn lemma_same_elsewhere<A>(before: Seq<A>, now: Seq<A>, x: A)
    requires
        now == before || (now.len() == before.len() + 1 && now.drop_last() == before && now.last()
            != x),
    ensures
        now.contains(x) == before.contains(x),
{
    if now.contains(x) {
        let j = choose|j: int| 0 <= j < now.len() && now[j] == x;
        if now != before {
            assert(before[j] == now.drop_last()[j]);
        }
    }
    if before.contains(x) {
        let j = choose|j: int| 0 <= j < before.len() && before[j] == x;
        if now != before {
            assert(now[j] == now.drop_last()[j]);
        }
        assert(now[j] == x);
    }
}

/// A list with at most one more element at its end holds something new only there.
proof fn lemma_last_added<A>(before: Seq<A>, now: Seq<A>, x: A)
    requires
        now == before || (now.len() == before.len() + 1 && now.drop_last() == before),
        !before.contains(x),
    ensures
        now.contains(x) == (now.len() > before.len() && now.last() == x),
{
    if now.contains(x) {
        let j = choose|j: int| 0 <= j < now.len() && now[j] == x;
        if j < before.len() {
            if now != before {
                assert(before[j] == now.drop_last()[j]);
            }
            assert(before.contains(x));
        }
    }
    if now.len() > before.len() && now.last() == x {
        assert(now[now.len() - 1] == x);
    }
}

/// What is found in a file is complete: each identifier of the tree, wherever it stands, is
/// recorded as what a search for its text finds from there. And it holds nothing else: each place
/// is that of an identifier of the file.
pub proof fn law_each_identifier_is_recorded(
    settings: SettingsView,
    env: EnvView,
    store: StoreView,
    url: Seq<char>,
)
    requires
        opened(store, url, env) is Some,
        opened(store, url, env)->0.url == url,
        distinct_identifiers(opened(store, url, env)->0.tree),
    ensures
        ({
            let doc = opened(store, url, env)->0;
            let held = with_opened(store, url, env);
            analyzed(settings, env, store, url).1 matches Some(analysis) && {
                &&& forall|n: int|
                    0 <= n < doc.tree.len() && (#[trigger] doc.tree.kind(n)) is Identifier
                        ==> identifier_recorded(
                        url,
                        analysis,
                        doc.tree.range(n),
                        found_at(settings, env, doc, held, n),
                    )
                &&& forall|j: int|
                    0 <= j < analysis.resolved.len() ==> (#[trigger] analysis.resolved[j]).1.url
                        == url && identifier_range(
                        doc.tree,
                        doc.tree.len(),
                        analysis.resolved[j].1.range,
                    )
                &&& forall|range: Range| #[trigger]
                    analysis.occurrences.contains_key(RangeKey::of(range)) ==> identifier_range(
                        doc.tree,
                        doc.tree.len(),
                        range,
                    )
            }
        }),
{
    let doc = opened(store, url, env)->0;
    let held = with_opened(store, url, env);
    let analysis = analyzed(settings, env, store, url).1->0;
    let n = doc.tree.len();
    let found = found_so_far(settings, env, doc, held, n);
    lemma_identifiers_recorded(settings, env, doc, held, n);
    lemma_passed_places(settings, env, doc, held, n);
    assert(found.occurrences == analysis.occurrences);
    assert(found.resolved == analysis.resolved);
    assert forall|k: int| 0 <= k < n && (#[trigger] doc.tree.kind(k)) is Identifier implies
        identifier_recorded(
        url,
        analysis,
        doc.tree.range(k),
        found_at(settings, env, doc, held, k),
    ) by {
        assert(identifier_recorded(
            url,
            found,
            doc.tree.range(k),
            found_at(settings, env, doc, held, k),
        ));
        assert forall|symbol: SymbolView| #[trigger]
            analysis.resolved.contains(
                (symbol, OccurrenceView { url, range: doc.tree.range(k) }),
            ) == found.resolved.contains(
                (symbol, OccurrenceView { url, range: doc.tree.range(k) }),
            ) by {}
    }
}

/// What a look at more nodes finds goes on from what a look at fewer finds.
proof fn lemma_found_grows(
    settings: SettingsView,
    env: EnvView,
    doc: DocView,
    store: StoreView,
    j: int,
    k: int,
)
    requires
        0 <= j <= k,
    ensures
        passed(settings, env, doc, store, j).resolved.is_prefix_of(
            passed(settings, env, doc, store, k).resolved,
        ),
    decreases k,
{
    if j < k {
        lemma_found_grows(settings, env, doc, store, j, k - 1);
        let before = passed(settings, env, doc, store, k - 1).resolved;
        let now = passed(settings, env, doc, store, k).resolved;
        assert(before.is_prefix_of(now));
    }
}

/// Whether a place is listed for the symbol that an item declares.
pub open spec fn place_listed(analysis: AnalysisView, place: OccurrenceView, item: ItemView) -> bool {
    exists|symbol: SymbolView| #[trigger]
        symbol_declared(symbol, item) && analysis.resolved.contains((symbol, place))
}

/// No identifier is left out, whatever else stands in the file: where a search for its text finds
/// something that belongs to a file, its range is listed as a place of that.
pub proof fn law_no_identifier_is_left_out(
    settings: SettingsView,
    env: EnvView,
    store: StoreView,
    url: Seq<char>,
    node: int,
)
    requires
        opened(store, url, env) is Some,
        opened(store, url, env)->0.tree.has(node),
        opened(store, url, env)->0.tree.kind(node) is Identifier,
        ({
            let doc = opened(store, url, env)->0;
            let found = found_at(settings, env, doc, with_opened(store, url, env), node);
            found.len() > 0 && found[0].url is Some
        }),
    ensures
        ({
            let doc = opened(store, url, env)->0;
            let found = found_at(settings, env, doc, with_opened(store, url, env), node);
            analyzed(settings, env, store, url).1 matches Some(analysis) && place_listed(
                analysis,
                OccurrenceView { url: doc.url, range: doc.tree.range(node) },
                found[0],
            )
        }),
{
    let doc = opened(store, url, env)->0;
    let held = with_opened(store, url, env);
    let found = found_at(settings, env, doc, held, node);
    let before = passed(settings, env, doc, held, node).resolved;
    let now = passed(settings, env, doc, held, node + 1).resolved;
    let all = passed(settings, env, doc, held, doc.tree.len()).resolved;
    lemma_found_grows(settings, env, doc, held, node + 1, doc.tree.len());
    let (symbol, place) = now[before.len() as int];
    assert(all[before.len() as int] == (symbol, place));
    assert(symbol_declared(symbol, found[0]));
}

} // verus!
