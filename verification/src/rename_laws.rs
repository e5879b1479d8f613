use vstd::prelude::*;

use crate::cursor::lemma_filter_from;
use crate::index_laws::{consistent, law_references_are_what_was_found, places_in};
use crate::lists::lemma_filter_keeps;
use crate::navigation::TextEditView;
use crate::position::Range;
use crate::rename::{
    files_of, in_order, prepare_reply, range_before, ranges_in, rename_edits, rename_reply,
    sorted_ranges, with_range, FileEditsView, LookupView, ReplyView,
};
use crate::symbols::{OccurrenceView, SymbolView};
use crate::workspace_index::{occurrences_of, IndexView};

verus! {

/// Putting a range in its place keeps a list in order and adds nothing else.
proof fn lemma_with_range(list: Seq<Range>, range: Range)
    requires
        in_order(list),
    ensures
        in_order(with_range(list, range)),
        with_range(list, range).to_multiset() == list.to_multiset().insert(range),
    decreases list.len(),
{
    broadcast use vstd::seq_lib::group_to_multiset_ensures;

    let now = with_range(list, range);
    if list.len() == 0 || !range_before(range, list.last()) {
        assert forall|i: int, j: int| 0 <= i < j < now.len() implies !range_before(
            #[trigger] now[j],
            #[trigger] now[i],
        ) by {
            if j == list.len() {
                if i < list.len() - 1 {
                    assert(!range_before(list[list.len() - 1], list[i]));
                }
            } else {
                assert(!range_before(list[j], list[i]));
            }
        }
    } else {
        let rest = list.drop_last();
        let last = list.last();
        let earlier = with_range(rest, range);
        assert forall|i: int, j: int| 0 <= i < j < rest.len() implies !range_before(
            #[trigger] rest[j],
            #[trigger] rest[i],
        ) by {
            assert(!range_before(list[j], list[i]));
        }
        lemma_with_range(rest, range);
        assert(rest.push(last) =~= list);
        assert(rest.to_multiset().insert(range).insert(last) =~= rest.to_multiset().insert(
            last,
        ).insert(range));
        assert forall|i: int, j: int| 0 <= i < j < now.len() implies !range_before(
            #[trigger] now[j],
            #[trigger] now[i],
        ) by {
            if j < earlier.len() {
                assert(!range_before(earlier[j], earlier[i]));
            } else {
                assert(earlier.to_multiset().count(earlier[i]) > 0);
                if earlier[i] != range {
                    assert(rest.to_multiset().count(earlier[i]) > 0);
                    assert(rest.contains(earlier[i]));
                    let k = choose|k: int| 0 <= k < rest.len() && rest[k] == earlier[i];
                    assert(!range_before(list[list.len() - 1], list[k]));
                }
            }
        }
    }
}

/// Sorting ranges puts them in order, and leaves each as often as it was there.
pub proof fn law_sorting_ranges(list: Seq<Range>)
    ensures
        in_order(sorted_ranges(list)),
        sorted_ranges(list).to_multiset() == list.to_multiset(),
    decreases list.len(),
{
    broadcast use vstd::seq_lib::group_to_multiset_ensures;

    if list.len() == 0 {
        assert(sorted_ranges(list) =~= list);
    } else {
        let rest = list.drop_last();
        law_sorting_ranges(rest);
        lemma_with_range(sorted_ranges(rest), list.last());
        assert(rest.push(list.last()) =~= list);
    }
}

/// The files of a list of places are those in which a place lies, each once.
proof fn lemma_files_of(places: Seq<OccurrenceView>)
    ensures
        files_of(places).no_duplicates(),
        forall|k: int|
            0 <= k < places.len() ==> files_of(places).contains((#[trigger] places[k]).url),
        forall|i: int|
            0 <= i < files_of(places).len() ==> exists|k: int|
                0 <= k < places.len() && (#[trigger] places[k]).url == #[trigger] files_of(places)[i],
    decreases places.len(),
{
    if places.len() > 0 {
        let rest = places.drop_last();
        let earlier = files_of(rest);
        let now = files_of(places);
        lemma_files_of(rest);
        assert forall|k: int| 0 <= k < places.len() implies now.contains(
            (#[trigger] places[k]).url,
        ) by {
            if k < rest.len() {
                assert(rest[k] == places[k]);
                let j = choose|j: int| 0 <= j < earlier.len() && earlier[j] == rest[k].url;
                assert(now[j] == places[k].url);
            } else if !earlier.contains(places.last().url) {
                assert(now[earlier.len() as int] == places[k].url);
            }
        }
        assert forall|i: int| 0 <= i < now.len() implies exists|k: int|
            0 <= k < places.len() && (#[trigger] places[k]).url == #[trigger] now[i] by {
            if i < earlier.len() {
                assert(now[i] == earlier[i]);
                let k = choose|k: int|
                    0 <= k < rest.len() && (#[trigger] rest[k]).url == earlier[i];
                assert(places[k].url == now[i]);
            } else {
                assert(places[places.len() - 1].url == now[i]);
            }
        }
    }
}

/// Renaming edits each file once: every file in which a place lies, and no other. In a file it puts the new
/// name at each of the places that lie there, as often as it is listed, and at no other, in order.
pub proof fn law_renaming_edits_each_place(places: Seq<OccurrenceView>, new_name: Seq<char>)
    requires
        places.len() > 0,
    ensures
        rename_edits(places, new_name) is Some,
        ({
            let files = rename_edits(places, new_name)->0;
            &&& forall|i: int, j: int|
                0 <= i < j < files.len() ==> (#[trigger] files[i]).url != (#[trigger] files[j]).url
            &&& forall|k: int|
                0 <= k < places.len() ==> exists|i: int|
                    0 <= i < files.len() && (#[trigger] files[i]).url == (#[trigger] places[k]).url
            &&& forall|i: int|
                0 <= i < files.len() ==> exists|k: int|
                    0 <= k < places.len() && (#[trigger] places[k]).url == (#[trigger] files[i]).url
            &&& forall|i: int, j: int|
                0 <= i < files.len() && 0 <= j < files[i].edits.len()
                    ==> (#[trigger] files[i].edits[j]).new_text == new_name
            &&& forall|i: int|
                #![trigger files[i]]
                0 <= i < files.len() ==> {
                    let ranges = files[i].edits.map_values(|e: TextEditView| e.range);
                    in_order(ranges) && ranges.to_multiset() == ranges_in(
                        places,
                        files[i].url,
                    ).to_multiset()
                }
        }),
{
    let urls = files_of(places);
    let files = rename_edits(places, new_name)->0;
    lemma_files_of(places);
    assert forall|i: int, j: int| 0 <= i < j < files.len() implies (#[trigger] files[i]).url != (
    #[trigger] files[j]).url by {
        assert(urls[i] != urls[j]);
    }
    assert forall|k: int| 0 <= k < places.len() implies exists|i: int|
        0 <= i < files.len() && (#[trigger] files[i]).url == (#[trigger] places[k]).url by {
        let i = choose|i: int| 0 <= i < urls.len() && urls[i] == places[k].url;
        assert(files[i].url == places[k].url);
    }
    assert forall|i: int| 0 <= i < files.len() implies exists|k: int|
        0 <= k < places.len() && (#[trigger] places[k]).url == (#[trigger] files[i]).url by {
        assert(files[i].url == urls[i]);
        let k = choose|k: int| 0 <= k < places.len() && (#[trigger] places[k]).url == urls[i];
        assert(places[k].url == files[i].url);
    }
    assert forall|i: int| #![trigger files[i]] 0 <= i < files.len() implies ({
        let ranges = files[i].edits.map_values(|e: TextEditView| e.range);
        in_order(ranges) && ranges.to_multiset() == ranges_in(places, files[i].url).to_multiset()
    }) by {
        let sorted = sorted_ranges(ranges_in(places, urls[i]));
        law_sorting_ranges(ranges_in(places, urls[i]));
        assert(files[i].edits.map_values(|e: TextEditView| e.range) =~= sorted);
    }
}

/// In a consistent index the places of a symbol that are renamed in a file are those at which it
/// was found to be named there.
pub proof fn law_renaming_is_complete(index: IndexView, symbol: SymbolView, url: Seq<char>)
    requires
        consistent(index),
    ensures
        ranges_in((index.refs)(symbol), url) == (if index.files.contains_key(url) {
            occurrences_of(index.files[url].resolved, symbol).map_values(
                |o: OccurrenceView| o.range,
            )
        } else {
            Seq::empty()
        }),
{
    assert(places_in((index.refs)(symbol), url) == (if index.files.contains_key(url) {
        occurrences_of(index.files[url].resolved, symbol)
    } else {
        Seq::empty()
    }));
    assert(ranges_in((index.refs)(symbol), url) =~= (if index.files.contains_key(url) {
        occurrences_of(index.files[url].resolved, symbol).map_values(|o: OccurrenceView| o.range)
    } else {
        Seq::empty()
    }));
}

/// Whether edits put a text at a place.
pub open spec fn edit_at(
    files: Seq<FileEditsView>,
    place: OccurrenceView,
    new_name: Seq<char>,
) -> bool {
    exists|i: int, j: int|
        0 <= i < files.len() && 0 <= j < files[i].edits.len() && files[i].url == place.url && (
        #[trigger] files[i].edits[j]).range == place.range && files[i].edits[j].new_text == new_name
}

/// The request to rename a symbol of a file is answered by edits that put the new name at a place
/// exactly if the symbol was found to be named there, in any file that the index knows.
pub proof fn law_a_rename_reaches_every_place(
    index: IndexView,
    range: Range,
    symbol: SymbolView,
    new_name: Seq<char>,
    place: OccurrenceView,
)
    requires
        consistent(index),
        (index.refs)(symbol).len() > 0,
    ensures
        rename_reply(
            LookupView::Workspace { range, symbol },
            index.refs,
            new_name,
        ) matches ReplyView::Edits(files) && edit_at(files, place, new_name) == (
        index.files.contains_key(place.url) && index.files[place.url].resolved.contains(
            (symbol, place),
        )),
{
    let places = (index.refs)(symbol);
    law_references_are_what_was_found(index, symbol, place);
    law_renaming_edits_each_place(places, new_name);
    let files = rename_edits(places, new_name)->0;
    let here = |o: OccurrenceView| o.url == place.url;
    let own = ranges_in(places, place.url);
    if places.contains(place) {
        let k = choose|k: int| 0 <= k < places.len() && places[k] == place;
        let i = choose|i: int|
            0 <= i < files.len() && (#[trigger] files[i]).url == (#[trigger] places[k]).url;
        let ranges = files[i].edits.map_values(|e: TextEditView| e.range);
        lemma_filter_keeps(places, here, k);
        let p = choose|p: int|
            0 <= p < places_in(places, place.url).len() && places_in(places, place.url)[p] == place;
        assert(own[p] == place.range);
        assert(own.contains(place.range));
        lemma_same_elements(ranges, own, place.range);
        let j = choose|j: int| 0 <= j < ranges.len() && ranges[j] == place.range;
        assert(files[i].edits[j].range == place.range);
    }
    if edit_at(files, place, new_name) {
        let (i, j) = choose|i: int, j: int|
            0 <= i < files.len() && 0 <= j < files[i].edits.len() && files[i].url == place.url && (
            #[trigger] files[i].edits[j]).range == place.range && files[i].edits[j].new_text
                == new_name;
        let ranges = files[i].edits.map_values(|e: TextEditView| e.range);
        assert(ranges[j] == place.range);
        assert(ranges.contains(place.range));
        lemma_same_elements(own, ranges, place.range);
        let p = choose|p: int| 0 <= p < own.len() && own[p] == place.range;
        let listed = places_in(places, place.url);
        assert(listed.contains(listed[p]));
        lemma_filter_from(places, here, listed[p]);
        assert(listed[p] == place);
    }
}

/// Lists with the same elements, as often, hold the same.
proof fn lemma_same_elements(a: Seq<Range>, b: Seq<Range>, x: Range)
    requires
        a.to_multiset() == b.to_multiset(),
        b.contains(x),
    ensures
        a.contains(x),
{
    broadcast use vstd::seq_lib::group_to_multiset_ensures;

    assert(b.to_multiset().count(x) > 0);
    assert(a.to_multiset().count(x) > 0);
}

/// What cannot be renamed is refused: nothing is edited where no identifier stands, where nothing
/// is found for it, or where it belongs to the language itself. Asked beforehand, the range of the
/// identifier is given exactly where it can be renamed.
pub proof fn law_only_symbols_of_files_are_renamed(
    lookup: LookupView,
    refs: spec_fn(SymbolView) -> Seq<OccurrenceView>,
    new_name: Seq<char>,
)
    ensures
        (rename_reply(lookup, refs, new_name) is Edits) == (lookup matches LookupView::Workspace {
            symbol,
            ..
        } && refs(symbol).len() > 0),
        !(rename_reply(lookup, refs, new_name) is Edits) ==> rename_reply(
            lookup,
            refs,
            new_name,
        ) is Failure,
        match lookup {
            LookupView::Workspace { range, .. } => prepare_reply(lookup) == ReplyView::Target(range),
            LookupView::Builtin => prepare_reply(lookup) is Failure,
            _ => prepare_reply(lookup) == ReplyView::Nothing,
        },
{
}

} // verus!
