use vstd::prelude::*;

use crate::analysis::{open_document, opened, with_opened, KnowledgeView};
use crate::environment::{EnvView, Environment};
use crate::index_laws::{consistent, places_in};
use crate::indexing::{
    ensure_workspace_index, ensured, refresh_workspace_index_for_url, refreshed_for,
};
use crate::kinds::NodeKind;
use crate::navigation::{ErrorView, ResponseError, TextEdit, TextEditView, INVALID_REQUEST};
use crate::parse_code::{texts, ParsedCode};
use crate::position::{Position, Range};
use crate::resolve::{find_identities, holds_text, SearchSettings, SettingsView};
use crate::response_item::{item_views, ItemView};
use crate::scan::{FilterView, NameFilter};
use crate::store::CodeStore;
use crate::symbols::{
    occurrence_views, resolved_symbol_from_item, symbol_of, Occurrence, OccurrenceView,
    ResolvedSymbol, ResolvedView, SymbolKey, SymbolView,
};
use crate::text::same_text;
use crate::workspace_index::WorkspaceIndex;

verus! {

/// What a request to rename finds at a position.
#[derive(Debug)]
pub enum RenameLookup {
    NonIdentifier,
    Unresolved,
    Builtin,
    Workspace { range: Range, symbol: SymbolKey },
}

/// The model of a [`RenameLookup`].
#[verifier::ext_equal]
pub enum LookupView {
    NonIdentifier,
    Unresolved,
    Builtin,
    Workspace { range: Range, symbol: SymbolView },
}

impl View for RenameLookup {
    type V = LookupView;

    open spec fn view(&self) -> LookupView {
        match self {
            RenameLookup::NonIdentifier => LookupView::NonIdentifier,
            RenameLookup::Unresolved => LookupView::Unresolved,
            RenameLookup::Builtin => LookupView::Builtin,
            RenameLookup::Workspace { range, symbol } => LookupView::Workspace {
                range: *range,
                symbol: symbol@,
            },
        }
    }
}

/// What an identifier stands for, as far as a request to rename goes.
pub open spec fn lookup_of(symbol: Option<ResolvedView>, range: Range) -> LookupView {
    match symbol {
        Some(ResolvedView::Workspace(symbol)) => LookupView::Workspace { range, symbol },
        Some(ResolvedView::Builtin { .. }) => LookupView::Builtin,
        None => LookupView::Unresolved,
    }
}

/// What the first of a list of items stands for.
pub open spec fn first_symbol(items: Seq<ItemView>) -> Option<ResolvedView> {
    if items.len() > 0 {
        Some(symbol_of(items[0]))
    } else {
        None
    }
}

/// What a request to rename finds at a position, and what is known then: what the index says of
/// the identifier, if need be after the file was looked at again, and else what a search finds.
/// Nothing is found where the document cannot be read.
pub open spec fn rename_lookup(
    settings: SettingsView,
    env: EnvView,
    known: KnowledgeView,
    url: Seq<char>,
    position: Position,
    scanned: Seq<Seq<char>>,
) -> (KnowledgeView, Option<LookupView>) {
    let held = KnowledgeView { store: with_opened(known.store, url, env), ..known };
    match opened(known.store, url, env) {
        None => (held, None),
        Some(doc) => {
            let node = doc.tree.node_at(position);
            if !(doc.tree.kind(node) is Identifier) {
                (held, Some(LookupView::NonIdentifier))
            } else {
                let range = doc.tree.range(node);
                let (store, items) = settings.find(
                    env,
                    held.store,
                    doc,
                    FilterView::Named(doc.tree.node_text(doc.code, node)),
                    node,
                    false,
                );
                let indexed = ensured(settings, env, KnowledgeView { store, ..held }, scanned);
                match indexed.index.symbol_at(url, range) {
                    Some(symbol) => (indexed, Some(lookup_of(Some(symbol), range))),
                    None => {
                        let again = refreshed_for(settings, env, indexed, url);
                        let symbol = again.index.symbol_at(url, range);
                        (
                            again,
                            Some(
                                lookup_of(
                                    if symbol is Some {
                                        symbol
                                    } else {
                                        first_symbol(items)
                                    },
                                    range,
                                ),
                            ),
                        )
                    },
                }
            }
        },
    }
}

/// The order of ranges: by where they start, then by where they end.
pub open spec fn range_before(a: Range, b: Range) -> bool {
    a.start.before(b.start) || (a.start == b.start && a.end.before(b.end))
}

/// Whether no range of a list comes before one in front of it.
pub open spec fn in_order(list: Seq<Range>) -> bool {
    forall|i: int, j: int|
        0 <= i < j < list.len() ==> !range_before(#[trigger] list[j], #[trigger] list[i])
}

/// A list of ranges in order with another one put in its place.
pub open spec fn with_range(list: Seq<Range>, range: Range) -> Seq<Range>
    decreases list.len(),
{
    if list.len() == 0 || !range_before(range, list.last()) {
        list.push(range)
    } else {
        with_range(list.drop_last(), range).push(list.last())
    }
}

/// The ranges of a list in order.
pub open spec fn sorted_ranges(list: Seq<Range>) -> Seq<Range>
    decreases list.len(),
{
    if list.len() == 0 {
        Seq::empty()
    } else {
        with_range(sorted_ranges(list.drop_last()), list.last())
    }
}

/// The files in which the places of a list lie, each once, in the order in which they appear.
pub open spec fn files_of(places: Seq<OccurrenceView>) -> Seq<Seq<char>>
    decreases places.len(),
{
    if places.len() == 0 {
        Seq::empty()
    } else {
        let earlier = files_of(places.drop_last());
        if earlier.contains(places.last().url) {
            earlier
        } else {
            earlier.push(places.last().url)
        }
    }
}

/// The edits of a file.
#[derive(Debug)]
pub struct FileEdits {
    pub url: String,
    pub edits: Vec<TextEdit>,
}

/// The model of [`FileEdits`].
#[verifier::ext_equal]
pub struct FileEditsView {
    pub url: Seq<char>,
    pub edits: Seq<TextEditView>,
}

/// The models of a list of edits.
pub open spec fn edit_views(edits: Seq<TextEdit>) -> Seq<TextEditView> {
    edits.map_values(|e: TextEdit| e@)
}

impl View for FileEdits {
    type V = FileEditsView;

    open spec fn view(&self) -> FileEditsView {
        FileEditsView { url: self.url@, edits: edit_views(self.edits@) }
    }
}

/// The models of a list of edits of files.
pub open spec fn file_edit_views(list: Seq<FileEdits>) -> Seq<FileEditsView> {
    list.map_values(|f: FileEdits| f@)
}

/// The ranges of the places of a list that lie in a file.
pub open spec fn ranges_in(places: Seq<OccurrenceView>, url: Seq<char>) -> Seq<Range> {
    places_in(places, url).map_values(|o: OccurrenceView| o.range)
}

/// The edits that rename the places of a list in a file: the new name at each, in order.
pub open spec fn edits_in(places: Seq<OccurrenceView>, url: Seq<char>, new_name: Seq<char>) -> FileEditsView {
    FileEditsView {
        url,
        edits: sorted_ranges(ranges_in(places, url)).map_values(
            |r: Range| TextEditView { range: r, new_text: new_name },
        ),
    }
}

/// The edits that rename the places of a list, if there are any.
pub open spec fn rename_edits(places: Seq<OccurrenceView>, new_name: Seq<char>) -> Option<
    Seq<FileEditsView>,
> {
    if places.len() == 0 {
        None
    } else {
        Some(files_of(places).map_values(|url: Seq<char>| edits_in(places, url, new_name)))
    }
}

/// What a request to rename at a position finds.
pub fn lookup_rename_symbol(
    store: &mut CodeStore,
    index: &mut WorkspaceIndex,
    settings: &SearchSettings,
    env: &Environment,
    url: &str,
    position: Position,
    scanned: Vec<String>,
) -> (found: Option<RenameLookup>)
    requires
        old(store).wf(),
        old(index).wf(),
    ensures
        final(store).wf(),
        final(index).wf(),
        consistent(old(index)@) ==> consistent(final(index)@),
        ({
            let (after, lookup) = rename_lookup(
                settings@,
                env@,
                KnowledgeView { store: old(store)@, index: old(index)@ },
                url@,
                position,
                texts(scanned@),
            );
            after == (KnowledgeView { store: final(store)@, index: final(index)@ }) && match found {
                Some(found) => lookup == Some(found@),
                None => lookup is None,
            }
        }),
{
    let doc: ParsedCode = match open_document(store, url, env) {
        Some(doc) => doc,
        None => {
            return None;
        },
    };
    let node: usize = doc.tree.node_at(position);
    if doc.tree.kind(node) != NodeKind::Identifier {
        return Some(RenameLookup::NonIdentifier);
    }
    let range = doc.tree.range(node);
    let filter = NameFilter::Named(doc.tree.node_text(doc.code.as_str(), node));
    let items = find_identities(store, settings, env, &doc, &filter, node, false);
    let fallback: Option<ResolvedSymbol> = if items.len() > 0 {
        assert(item_views(items@)[0] == items@[0]@);
        Some(resolved_symbol_from_item(&items[0]))
    } else {
        None
    };
    ensure_workspace_index(store, index, settings, env, scanned);
    let mut symbol = index.symbol_at(url, &range);
    if symbol.is_none() {
        refresh_workspace_index_for_url(store, index, settings, env, url);
        symbol = index.symbol_at(url, &range);
        if symbol.is_none() {
            symbol = fallback;
        }
    }
    match symbol {
        Some(ResolvedSymbol::Workspace(symbol)) => Some(RenameLookup::Workspace { range, symbol }),
        Some(ResolvedSymbol::Builtin { .. }) => Some(RenameLookup::Builtin),
        None => Some(RenameLookup::Unresolved),
    }
}

/// Whether a range comes before another.
fn is_range_before(a: &Range, b: &Range) -> (r: bool)
    ensures
        r == range_before(*a, *b),
{
    a.start.is_before(&b.start) || (a.start == b.start && a.end.is_before(&b.end))
}

/// Puts a range in its place in a list in order.
fn insert_range(list: &mut Vec<Range>, range: Range)
    ensures
        final(list)@ == with_range(old(list)@, range),
{
    let ghost all = list@;
    let mut i: usize = list.len();
    assert(all.take(all.len() as int) =~= all);
    assert(with_range(all, range) + all.skip(all.len() as int) =~= with_range(all, range));
    while i > 0 && is_range_before(&range, &list[i - 1])
        invariant
            i <= list@.len(),
            list@ == all,
            *list == *old(list),
            with_range(all, range) == with_range(all.take(i as int), range) + all.skip(i as int),
        decreases i,
    {
        i -= 1;
        proof {
            let shorter = all.take(i as int);
            assert(all.take(i + 1).drop_last() =~= shorter);
            assert(all.take(i + 1).last() == all[i as int]);
            assert(with_range(shorter, range).push(all[i as int]) + all.skip(i + 1) =~= with_range(
                shorter,
                range,
            ) + all.skip(i as int));
        }
    }
    proof {
        if i > 0 {
            assert(all.take(i as int).last() == all[i - 1]);
        }
        assert(with_range(all.take(i as int), range) == all.take(i as int).push(range));
    }
    list.insert(i, range);
    assert(list@ =~= all.take(i as int).push(range) + all.skip(i as int));
}

/// The ranges, in order, of the places of a list that lie in a file.
fn sort_ranges_in(places: &Vec<Occurrence>, url: &str) -> (ranges: Vec<Range>)
    ensures
        ranges@ == sorted_ranges(ranges_in(occurrence_views(places@), url@)),
{
    let ghost all = occurrence_views(places@);
    let ghost here = |o: OccurrenceView| o.url == url@;
    let ghost range = |o: OccurrenceView| o.range;
    let mut ranges: Vec<Range> = Vec::new();
    proof {
        reveal(Seq::filter);
        assert(all.take(0) =~= Seq::empty());
        assert(ranges_in(all.take(0), url@) =~= Seq::empty());
    }
    let mut k: usize = 0;
    while k < places.len()
        invariant
            k <= places@.len(),
            all == occurrence_views(places@),
            ranges@ == sorted_ranges(ranges_in(all.take(k as int), url@)),
        decreases places@.len() - k,
    {
        let ghost before = ranges_in(all.take(k as int), url@);
        proof {
            reveal(Seq::filter);
            assert(all.take(k + 1).drop_last() =~= all.take(k as int));
            assert(all.take(k + 1).last() == places@[k as int]@);
        }
        if same_text(places[k].url.as_str(), url) {
            insert_range(&mut ranges, places[k].range);
            proof {
                let now = ranges_in(all.take(k + 1), url@);
                assert(now =~= before.push(places@[k as int].range));
                assert(now.drop_last() =~= before);
            }
        } else {
            assert(ranges_in(all.take(k + 1), url@) =~= before);
        }
        k += 1;
    }
    assert(all.take(places@.len() as int) =~= all);
    ranges
}

/// The files in which the places of a list lie, each once, in the order in which they appear.
fn list_files(places: &Vec<Occurrence>) -> (urls: Vec<String>)
    ensures
        texts(urls@) == files_of(occurrence_views(places@)),
{
    let ghost all = occurrence_views(places@);
    let mut urls: Vec<String> = Vec::new();
    assert(all.take(0) =~= Seq::empty());
    assert(texts(urls@) =~= files_of(all.take(0)));
    let mut k: usize = 0;
    while k < places.len()
        invariant
            k <= places@.len(),
            all == occurrence_views(places@),
            texts(urls@) == files_of(all.take(k as int)),
        decreases places@.len() - k,
    {
        let ghost before = texts(urls@);
        proof {
            assert(all.take(k + 1).drop_last() =~= all.take(k as int));
            assert(all.take(k + 1).last() == places@[k as int]@);
        }
        if !holds_text(&urls, places[k].url.as_str()) {
            urls.push(places[k].url.clone());
            assert(texts(urls@) =~= before.push(places@[k as int].url@));
        }
        k += 1;
    }
    assert(all.take(places@.len() as int) =~= all);
    urls
}

/// The edits that rename the places of a list in a file.
fn make_edits(places: &Vec<Occurrence>, url: &str, new_name: &str) -> (edits: FileEdits)
    ensures
        edits@ == edits_in(occurrence_views(places@), url@, new_name@),
{
    let ranges = sort_ranges_in(places, url);
    let mut edits: Vec<TextEdit> = Vec::new();
    let mut k: usize = 0;
    while k < ranges.len()
        invariant
            k <= ranges@.len(),
            edits@.len() == k,
            forall|j: int|
                0 <= j < k ==> (#[trigger] edits@[j])@ == (TextEditView {
                    range: ranges@[j],
                    new_text: new_name@,
                }),
        decreases ranges@.len() - k,
    {
        edits.push(TextEdit { range: ranges[k], new_text: new_name.to_owned() });
        k += 1;
    }
    let result = FileEdits { url: url.to_owned(), edits };
    assert(result@.edits =~= edits_in(occurrence_views(places@), url@, new_name@).edits);
    result
}

/// The edits that give a symbol another name everywhere; none where it is named nowhere.
pub fn build_rename_workspace_edit(index: &WorkspaceIndex, symbol: &SymbolKey, new_name: &str) -> (
edits: Option<Vec<FileEdits>>)
    requires
        index.wf(),
    ensures
        match edits {
            Some(edits) => rename_edits((index@.refs)(symbol@), new_name@) == Some(
                file_edit_views(edits@),
            ),
            None => rename_edits((index@.refs)(symbol@), new_name@) is None,
        },
{
    let places = index.references_for(symbol);
    if places.len() == 0 {
        assert(occurrence_views(places@).len() == 0);
        return None;
    }
    let ghost all = occurrence_views(places@);
    assert(all.len() == places@.len());
    let urls = list_files(&places);
    let ghost files = texts(urls@);
    let mut result: Vec<FileEdits> = Vec::new();
    let mut k: usize = 0;
    while k < urls.len()
        invariant
            k <= urls@.len(),
            files == texts(urls@),
            all == occurrence_views(places@),
            result@.len() == k,
            forall|j: int|
                0 <= j < k ==> (#[trigger] result@[j])@ == edits_in(all, files[j], new_name@),
        decreases urls@.len() - k,
    {
        assert(files[k as int] == urls@[k as int]@);
        result.push(make_edits(&places, urls[k].as_str(), new_name));
        k += 1;
    }
    assert(file_edit_views(result@) =~= files.map_values(
        |url: Seq<char>| edits_in(all, url, new_name@),
    ));
    Some(result)
}

/// The answer to a request to rename.
#[derive(Debug)]
pub enum RenameReply {
    /// What is to be renamed.
    Target(Range),
    Edits(Vec<FileEdits>),
    Nothing,
    Failure(ResponseError),
}

/// The model of a [`RenameReply`].
#[verifier::ext_equal]
pub enum ReplyView {
    Target(Range),
    Edits(Seq<FileEditsView>),
    Nothing,
    Failure(ErrorView),
}

impl View for RenameReply {
    type V = ReplyView;

    open spec fn view(&self) -> ReplyView {
        match self {
            RenameReply::Target(range) => ReplyView::Target(*range),
            RenameReply::Edits(edits) => ReplyView::Edits(file_edit_views(edits@)),
            RenameReply::Nothing => ReplyView::Nothing,
            RenameReply::Failure(error) => ReplyView::Failure(error@),
        }
    }
}

/// The answer to the question whether something can be renamed.
pub open spec fn prepare_reply(lookup: LookupView) -> ReplyView {
    match lookup {
        LookupView::Workspace { range, .. } => ReplyView::Target(range),
        LookupView::Builtin => ReplyView::Failure(
            ErrorView { code: 0, message: "Cannot rename builtin"@ },
        ),
        LookupView::NonIdentifier => ReplyView::Nothing,
        LookupView::Unresolved => ReplyView::Nothing,
    }
}

/// The answer to a request to rename, given the places at which symbols are named.
pub open spec fn rename_reply(
    lookup: LookupView,
    refs: spec_fn(SymbolView) -> Seq<OccurrenceView>,
    new_name: Seq<char>,
) -> ReplyView {
    match lookup {
        LookupView::Workspace { symbol, .. } => match rename_edits(refs(symbol), new_name) {
            Some(edits) => ReplyView::Edits(edits),
            None => ReplyView::Failure(
                ErrorView {
                    code: 0,
                    message: "No renamable references found for this symbol"@,
                },
            ),
        },
        LookupView::Builtin => ReplyView::Failure(
            ErrorView { code: 0, message: "Cannot rename builtin"@ },
        ),
        LookupView::Unresolved => ReplyView::Failure(
            ErrorView { code: 0, message: "No definition found for this identifier"@ },
        ),
        LookupView::NonIdentifier => ReplyView::Failure(
            ErrorView { code: INVALID_REQUEST, message: "No identifier at given position"@ },
        ),
    }
}

/// A reply that reports a failure.
fn failure(code: i32, message: &str) -> (reply: RenameReply)
    ensures
        reply@ == ReplyView::Failure(ErrorView { code, message: message@ }),
{
    RenameReply::Failure(ResponseError { code, message: message.to_owned() })
}

/// Answers the question whether what stands at a position can be renamed; no answer where the
/// document cannot be read.
pub fn handle_prepare_rename(
    store: &mut CodeStore,
    index: &mut WorkspaceIndex,
    settings: &SearchSettings,
    env: &Environment,
    url: &str,
    position: Position,
    scanned: Vec<String>,
) -> (reply: Option<RenameReply>)
    requires
        old(store).wf(),
        old(index).wf(),
    ensures
        final(store).wf(),
        final(index).wf(),
        consistent(old(index)@) ==> consistent(final(index)@),
        ({
            let (after, lookup) = rename_lookup(
                settings@,
                env@,
                KnowledgeView { store: old(store)@, index: old(index)@ },
                url@,
                position,
                texts(scanned@),
            );
            after == (KnowledgeView { store: final(store)@, index: final(index)@ }) && match (
                reply,
                lookup,
            ) {
                (Some(reply), Some(lookup)) => reply@ == prepare_reply(lookup),
                (None, None) => true,
                _ => false,
            }
        }),
{
    match lookup_rename_symbol(store, index, settings, env, url, position, scanned) {
        Some(RenameLookup::Workspace { range, .. }) => Some(RenameReply::Target(range)),
        Some(RenameLookup::Builtin) => Some(failure(0, "Cannot rename builtin")),
        Some(RenameLookup::NonIdentifier) => Some(RenameReply::Nothing),
        Some(RenameLookup::Unresolved) => Some(RenameReply::Nothing),
        None => None,
    }
}

/// Renames what stands at a position; no answer where the document cannot be read.
pub fn handle_rename(
    store: &mut CodeStore,
    index: &mut WorkspaceIndex,
    settings: &SearchSettings,
    env: &Environment,
    url: &str,
    position: Position,
    new_name: &str,
    scanned: Vec<String>,
) -> (reply: Option<RenameReply>)
    requires
        old(store).wf(),
        old(index).wf(),
    ensures
        final(store).wf(),
        final(index).wf(),
        consistent(old(index)@) ==> consistent(final(index)@),
        ({
            let (after, lookup) = rename_lookup(
                settings@,
                env@,
                KnowledgeView { store: old(store)@, index: old(index)@ },
                url@,
                position,
                texts(scanned@),
            );
            after == (KnowledgeView { store: final(store)@, index: final(index)@ }) && match (
                reply,
                lookup,
            ) {
                (Some(reply), Some(lookup)) => reply@ == rename_reply(
                    lookup,
                    after.index.refs,
                    new_name@,
                ),
                (None, None) => true,
                _ => false,
            }
        }),
{
    match lookup_rename_symbol(store, index, settings, env, url, position, scanned) {
        Some(RenameLookup::Workspace { symbol, .. }) => match build_rename_workspace_edit(
            index,
            &symbol,
            new_name,
        ) {
            Some(edits) => Some(RenameReply::Edits(edits)),
            None => Some(failure(0, "No renamable references found for this symbol")),
        },
        Some(RenameLookup::Builtin) => Some(failure(0, "Cannot rename builtin")),
        Some(RenameLookup::Unresolved) => Some(
            failure(0, "No definition found for this identifier"),
        ),
        Some(RenameLookup::NonIdentifier) => Some(
            failure(INVALID_REQUEST, "No identifier at given position"),
        ),
        None => None,
    }
}

} // verus!
