use vstd::prelude::*;

use crate::cursor::lemma_filter_from;
use crate::lists::{
    lemma_filter_all, lemma_filter_concat, lemma_filter_keeps, lemma_filter_none,
    lemma_filter_twice,
};
use crate::position::Range;
use crate::symbols::{OccurrenceView, RangeKey, SymbolView};
use crate::workspace_index::{occurrences_of, AnalysisView, IndexView};

verus! {

/// Whether all places that were found in a file are places of that file.
pub open spec fn own_places(url: Seq<char>, analysis: AnalysisView) -> bool {
    forall|k: int|
        0 <= k < analysis.resolved.len() ==> (#[trigger] analysis.resolved[k]).1.url == url
}

/// The places of a list that lie in a file.
pub open spec fn places_in(list: Seq<OccurrenceView>, url: Seq<char>) -> Seq<OccurrenceView> {
    list.filter(|o: OccurrenceView| o.url == url)
}

/// Whether an index says of its files exactly what was found in them: a file depends on what
/// was found that it depends on, and the places of a symbol in a file are those that were found
/// there, in order.
pub open spec fn consistent(index: IndexView) -> bool {
    &&& forall|url: Seq<char>| #[trigger]
        index.files.contains_key(url) ==> own_places(url, index.files[url])
    &&& forall|dependency: Seq<char>, url: Seq<char>| #[trigger]
        (index.dependents)(dependency).contains(url) == (index.files.contains_key(url)
            && index.files[url].dependencies.contains(dependency))
    &&& forall|symbol: SymbolView, url: Seq<char>| #[trigger]
        places_in((index.refs)(symbol), url) == (if index.files.contains_key(url) {
            occurrences_of(index.files[url].resolved, symbol)
        } else {
            Seq::empty()
        })
}

/// A place of a symbol in a list was listed with it.
proof fn lemma_occurrence_listed(
    list: Seq<(SymbolView, OccurrenceView)>,
    symbol: SymbolView,
    k: int,
)
    requires
        0 <= k < occurrences_of(list, symbol).len(),
    ensures
        list.contains((symbol, occurrences_of(list, symbol)[k])),
    decreases list.len(),
{
    let rest = list.drop_last();
    let earlier = occurrences_of(rest, symbol);
    if k < earlier.len() {
        lemma_occurrence_listed(rest, symbol, k);
        let j = choose|j: int| 0 <= j < rest.len() && rest[j] == (symbol, earlier[k]);
        assert(list[j] == (symbol, occurrences_of(list, symbol)[k]));
    } else {
        assert(list[list.len() - 1] == (symbol, occurrences_of(list, symbol)[k]));
    }
}

/// The places of a symbol that were found in a file are places of that file.
proof fn lemma_occurrence_place(url: Seq<char>, analysis: AnalysisView, symbol: SymbolView, k: int)
    requires
        own_places(url, analysis),
        0 <= k < occurrences_of(analysis.resolved, symbol).len(),
    ensures
        occurrences_of(analysis.resolved, symbol)[k].url == url,
        analysis.resolved.contains((symbol, occurrences_of(analysis.resolved, symbol)[k])),
{
    lemma_occurrence_listed(analysis.resolved, symbol, k);
    let place = occurrences_of(analysis.resolved, symbol)[k];
    let j = choose|j: int|
        0 <= j < analysis.resolved.len() && analysis.resolved[j] == (symbol, place);
    assert(analysis.resolved[j].1.url == url);
}

/// An index of no files is consistent.
pub proof fn law_empty_index_is_consistent()
    ensures
        consistent(IndexView::empty()),
{
    let index = IndexView::empty();
    assert forall|symbol: SymbolView, url: Seq<char>| #[trigger]
        places_in((index.refs)(symbol), url) == Seq::<OccurrenceView>::empty() by {
        lemma_filter_none((index.refs)(symbol), |o: OccurrenceView| o.url == url);
    }
}

/// Adding what was found in a file that the index does not have keeps the index consistent.
pub proof fn law_inserting_keeps_consistent(
    index: IndexView,
    url: Seq<char>,
    analysis: AnalysisView,
)
    requires
        consistent(index),
        !index.files.contains_key(url),
        own_places(url, analysis),
    ensures
        consistent(index.with_file(url, analysis)),
{
    let now = index.with_file(url, analysis);
    assert forall|symbol: SymbolView, u: Seq<char>| #[trigger]
        places_in((now.refs)(symbol), u) == (if now.files.contains_key(u) {
            occurrences_of(now.files[u].resolved, symbol)
        } else {
            Seq::empty()
        }) by {
        let p = |o: OccurrenceView| o.url == u;
        let before = (index.refs)(symbol);
        let added = occurrences_of(analysis.resolved, symbol);
        lemma_filter_concat(before, added, p);
        assert(places_in(before, u) == before.filter(p));
        if u == url {
            assert forall|k: int| 0 <= k < added.len() implies p(#[trigger] added[k]) by {
                lemma_occurrence_place(url, analysis, symbol, k);
            }
            lemma_filter_all(added, p);
            assert(Seq::<OccurrenceView>::empty() + added =~= added);
        } else {
            assert forall|k: int| 0 <= k < added.len() implies !p(#[trigger] added[k]) by {
                lemma_occurrence_place(url, analysis, symbol, k);
            }
            lemma_filter_none(added, p);
            assert(before.filter(p) + Seq::<OccurrenceView>::empty() =~= before.filter(p));
        }
    }
    assert forall|u: Seq<char>| #[trigger] now.files.contains_key(u) implies own_places(
        u,
        now.files[u],
    ) by {
        if u != url {
            assert(index.files.contains_key(u));
        }
    }
    assert forall|dependency: Seq<char>, u: Seq<char>| #[trigger]
        (now.dependents)(dependency).contains(u) == (now.files.contains_key(u)
            && now.files[u].dependencies.contains(dependency)) by {
        assert((index.dependents)(dependency).contains(u) == (index.files.contains_key(u)
            && index.files[u].dependencies.contains(dependency)));
    }
}

/// Taking a file out keeps the index consistent.
pub proof fn law_removing_keeps_consistent(index: IndexView, url: Seq<char>)
    requires
        consistent(index),
    ensures
        consistent(index.without_file(url)),
        !index.without_file(url).files.contains_key(url),
{
    if index.files.contains_key(url) {
        let now = index.without_file(url);
        let analysis = index.files[url];
        assert(own_places(url, analysis));
        assert forall|symbol: SymbolView, u: Seq<char>| #[trigger]
            places_in((now.refs)(symbol), u) == (if now.files.contains_key(u) {
                occurrences_of(now.files[u].resolved, symbol)
            } else {
                Seq::empty()
            }) by {
            let before = (index.refs)(symbol);
            let kept = |o: OccurrenceView| !analysis.resolved.contains((symbol, o));
            let here = |o: OccurrenceView| o.url == u;
            let both = |o: OccurrenceView| kept(o) && here(o);
            lemma_filter_twice(before, kept, here);
            assert(places_in(before, u) == before.filter(here));
            if u == url {
                assert forall|k: int| 0 <= k < before.len() implies !both(#[trigger] before[k]) by {
                    if here(before[k]) {
                        lemma_filter_keeps(before, here, k);
                        let found = occurrences_of(analysis.resolved, symbol);
                        let j = choose|j: int| 0 <= j < found.len() && found[j] == before[k];
                        lemma_occurrence_place(url, analysis, symbol, j);
                    }
                }
                lemma_filter_none(before, both);
            } else {
                assert forall|o: OccurrenceView| #[trigger] both(o) == here(o) by {
                    if here(o) && !kept(o) {
                        let j = choose|j: int|
                            0 <= j < analysis.resolved.len() && analysis.resolved[j] == (symbol, o);
                        assert(analysis.resolved[j].1.url == url);
                    }
                }
                assert(both =~= here);
            }
        }
        assert forall|u: Seq<char>| #[trigger] now.files.contains_key(u) implies own_places(
            u,
            now.files[u],
        ) by {
            assert(index.files.contains_key(u));
        }
        assert forall|dependency: Seq<char>, u: Seq<char>| #[trigger]
            (now.dependents)(dependency).contains(u) == (now.files.contains_key(u)
                && now.files[u].dependencies.contains(dependency)) by {
            assert((index.dependents)(dependency).contains(u) == (index.files.contains_key(u)
                && index.files[u].dependencies.contains(dependency)));
        }
    }
}

/// Whether an index knows nothing of a file: it has no analysis of it, lists no place in it, and
/// does not take it for a dependent of another.
pub open spec fn unknown_to(index: IndexView, url: Seq<char>) -> bool {
    &&& !index.files.contains_key(url)
    &&& forall|symbol: SymbolView| #[trigger]
        places_in((index.refs)(symbol), url) == Seq::<OccurrenceView>::empty()
    &&& forall|dependency: Seq<char>| !(#[trigger] (index.dependents)(dependency)).contains(url)
}

/// A consistent index knows nothing of a file that it has no analysis of.
pub proof fn law_a_consistent_index_lists_its_files_alone(index: IndexView, url: Seq<char>)
    requires
        consistent(index),
        !index.files.contains_key(url),
    ensures
        unknown_to(index, url),
{
    assert forall|dependency: Seq<char>| !(
    #[trigger] (index.dependents)(dependency)).contains(url) by {
        assert((index.dependents)(dependency).contains(url) == (index.files.contains_key(url)
            && index.files[url].dependencies.contains(dependency)));
    }
}

/// Taking out what was just added leaves the index as it was.
pub proof fn law_removing_undoes_inserting(index: IndexView, url: Seq<char>, analysis: AnalysisView)
    requires
        unknown_to(index, url),
        own_places(url, analysis),
    ensures
        index.with_file(url, analysis).without_file(url) == index,
{
    let added = index.with_file(url, analysis);
    let back = added.without_file(url);
    assert forall|symbol: SymbolView| #[trigger] (back.refs)(symbol) == (index.refs)(symbol) by {
        let kept = |o: OccurrenceView| !analysis.resolved.contains((symbol, o));
        let before = (index.refs)(symbol);
        let more = occurrences_of(analysis.resolved, symbol);
        lemma_filter_concat(before, more, kept);
        assert forall|k: int| 0 <= k < before.len() implies kept(#[trigger] before[k]) by {
            if !kept(before[k]) {
                let j = choose|j: int|
                    0 <= j < analysis.resolved.len() && analysis.resolved[j] == (symbol, before[k]);
                assert(analysis.resolved[j].1.url == url);
                let here = |o: OccurrenceView| o.url == url;
                lemma_filter_keeps(before, here, k);
                assert(places_in(before, url) == Seq::<OccurrenceView>::empty());
                assert(before.filter(here) == places_in(before, url));
            }
        }
        lemma_filter_all(before, kept);
        assert forall|k: int| 0 <= k < more.len() implies !kept(#[trigger] more[k]) by {
            lemma_occurrence_place(url, analysis, symbol, k);
        }
        lemma_filter_none(more, kept);
        assert(before + Seq::<OccurrenceView>::empty() =~= before);
    }
    assert(back.refs =~= index.refs);
    assert forall|d: Seq<char>| #[trigger] (back.dependents)(d) == (index.dependents)(d) by {
        assert((back.dependents)(d) =~= (index.dependents)(d));
    }
    assert(back.dependents =~= index.dependents);
    assert(back.files =~= index.files);
}

/// In a consistent index a place is listed for a symbol exactly if it was found in the file it
/// lies in.
pub proof fn law_references_are_what_was_found(
    index: IndexView,
    symbol: SymbolView,
    place: OccurrenceView,
)
    requires
        consistent(index),
    ensures
        (index.refs)(symbol).contains(place) == (index.files.contains_key(place.url)
            && index.files[place.url].resolved.contains((symbol, place))),
{
    let all = (index.refs)(symbol);
    let here = |o: OccurrenceView| o.url == place.url;
    assert(places_in(all, place.url) == all.filter(here));
    if all.contains(place) {
        let k = choose|k: int| 0 <= k < all.len() && all[k] == place;
        lemma_filter_keeps(all, here, k);
        let found = occurrences_of(index.files[place.url].resolved, symbol);
        let j = choose|j: int| 0 <= j < found.len() && found[j] == place;
        lemma_occurrence_listed(index.files[place.url].resolved, symbol, j);
    }
    if index.files.contains_key(place.url) && index.files[place.url].resolved.contains(
        (symbol, place),
    ) {
        let resolved = index.files[place.url].resolved;
        let k = choose|k: int| 0 <= k < resolved.len() && resolved[k] == (symbol, place);
        lemma_listed_occurs(resolved, symbol, k);
        lemma_filter_from(all, here, place);
    }
}

/// What is listed with a symbol is a place of it.
proof fn lemma_listed_occurs(list: Seq<(SymbolView, OccurrenceView)>, symbol: SymbolView, k: int)
    requires
        0 <= k < list.len(),
        list[k].0 == symbol,
    ensures
        occurrences_of(list, symbol).contains(list[k].1),
    decreases list.len(),
{
    let rest = list.drop_last();
    let all = occurrences_of(list, symbol);
    let earlier = occurrences_of(rest, symbol);
    if k == list.len() - 1 {
        assert(all[all.len() - 1] == list[k].1);
    } else {
        assert(rest[k] == list[k]);
        lemma_listed_occurs(rest, symbol, k);
        let j = choose|j: int| 0 <= j < earlier.len() && earlier[j] == rest[k].1;
        assert(all[j] == list[k].1);
    }
}

/// The index says of the identifiers of a file what was found of them when the file was added, and
/// nothing of a file that was taken out; of other files it says what it said before.
pub proof fn law_the_index_says_what_was_found(
    index: IndexView,
    url: Seq<char>,
    analysis: AnalysisView,
    other: Seq<char>,
    range: Range,
)
    requires
        other != url,
    ensures
        index.with_file(url, analysis).symbol_at(url, range) == (
        if analysis.occurrences.contains_key(RangeKey::of(range)) {
            Some(analysis.occurrences[RangeKey::of(range)])
        } else {
            None
        }),
        index.with_file(url, analysis).symbol_at(other, range) == index.symbol_at(other, range),
        index.without_file(url).symbol_at(url, range) is None,
        index.without_file(url).symbol_at(other, range) == index.symbol_at(other, range),
{
}

} // verus!
