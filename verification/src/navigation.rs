use vstd::prelude::*;

use crate::analysis::{open_document, opened, with_opened};
use crate::environment::{EnvView, Environment};
use crate::kinds::NodeKind;
use crate::parse_code::{DocView, ParsedCode};
use crate::position::{Position, Range};
use crate::resolve::{find_identities, SearchSettings, SettingsView};
use crate::response_item::{item_views, Item, ItemView, SymbolKind};
use crate::scan::{FilterView, NameFilter};
use crate::store::{CodeStore, StoreView};
use crate::syntax::text_of;

verus! {

/// What an identifier at a position stands for, and the documents that are held then; nothing
/// where there is none.
pub open spec fn named_at(
    settings: SettingsView,
    env: EnvView,
    store: StoreView,
    doc: DocView,
    position: Position,
) -> (StoreView, Seq<ItemView>) {
    let node = doc.tree.node_at(position);
    if doc.tree.kind(node) is Identifier {
        settings.find(
            env,
            store,
            doc,
            FilterView::Named(doc.tree.node_text(doc.code, node)),
            node,
            false,
        )
    } else {
        (store, Seq::empty())
    }
}

/// What is shown of the identifier at a position of a document, if the document can be read.
pub open spec fn hovered(
    settings: SettingsView,
    env: EnvView,
    store: StoreView,
    url: Seq<char>,
    position: Position,
) -> (StoreView, Option<Option<Seq<char>>>) {
    let held = with_opened(store, url, env);
    match opened(store, url, env) {
        None => (held, None),
        Some(doc) => {
            let (after, items) = named_at(settings, env, held, doc, position);
            (
                after,
                Some(
                    if items.len() > 0 {
                        Some(items[0].shown_hover())
                    } else {
                        None
                    },
                ),
            )
        },
    }
}

/// A place in a file.
#[derive(Debug)]
pub struct Location {
    pub url: String,
    pub range: Range,
}

/// The model of a [`Location`].
#[verifier::ext_equal]
pub struct LocationView {
    pub url: Seq<char>,
    pub range: Range,
}

impl View for Location {
    type V = LocationView;

    open spec fn view(&self) -> LocationView {
        LocationView { url: self.url@, range: self.range }
    }
}

/// The models of a list of places.
pub open spec fn location_views(list: Seq<Location>) -> Seq<LocationView> {
    list.map_values(|l: Location| l@)
}

/// The places of the items of a list that have a name and belong to a file.
pub open spec fn places_of(items: Seq<ItemView>, name: Seq<char>) -> Seq<LocationView>
    decreases items.len(),
{
    if items.len() == 0 {
        Seq::empty()
    } else {
        let earlier = places_of(items.drop_last(), name);
        match items.last().url {
            Some(url) => if items.last().name == name {
                earlier.push(LocationView { url, range: items.last().range })
            } else {
                earlier
            },
            None => earlier,
        }
    }
}

/// Where what stands at a position of a document is defined, if the document can be read: the
/// declaration of an identifier, or the file of a path.
pub open spec fn defined(
    settings: SettingsView,
    env: EnvView,
    store: StoreView,
    url: Seq<char>,
    position: Position,
) -> (StoreView, Option<Option<Seq<LocationView>>>) {
    let held = with_opened(store, url, env);
    match opened(store, url, env) {
        None => (held, None),
        Some(doc) => {
            let node = doc.tree.node_at(position);
            let kind = doc.tree.kind(node);
            if kind is Identifier {
                let (after, items) = named_at(settings, env, held, doc, position);
                (after, Some(Some(places_of(items, doc.tree.node_text(doc.code, node)))))
            } else if kind is IncludePath {
                let target = match doc.tree.parent(node) {
                    Some(parent) => doc.include_url(parent, env),
                    None => None,
                };
                (
                    held,
                    Some(
                        match target {
                            Some(url) => Some(
                                seq![LocationView { url, range: Range::origin() }],
                            ),
                            None => None,
                        },
                    ),
                )
            } else {
                (held, Some(None))
            }
        },
    }
}

/// Something that a document declares.
#[derive(Debug)]
pub struct SymbolInformation {
    pub name: String,
    pub kind: SymbolKind,
    pub location: Location,
}

/// The model of a [`SymbolInformation`].
#[verifier::ext_equal]
pub struct SymbolInformationView {
    pub name: Seq<char>,
    pub kind: SymbolKind,
    pub location: LocationView,
}

impl View for SymbolInformation {
    type V = SymbolInformationView;

    open spec fn view(&self) -> SymbolInformationView {
        SymbolInformationView { name: self.name@, kind: self.kind, location: self.location@ }
    }
}

/// The models of a list of declarations.
pub open spec fn symbol_views(list: Seq<SymbolInformation>) -> Seq<SymbolInformationView> {
    list.map_values(|s: SymbolInformation| s@)
}

/// The items of a list that belong to a file, as declarations.
pub open spec fn symbols_of(items: Seq<ItemView>) -> Seq<SymbolInformationView>
    decreases items.len(),
{
    if items.len() == 0 {
        Seq::empty()
    } else {
        let earlier = symbols_of(items.drop_last());
        let item = items.last();
        match item.url {
            Some(url) => earlier.push(
                SymbolInformationView {
                    name: item.name,
                    kind: item.kind.symbol(),
                    location: LocationView { url, range: item.range },
                },
            ),
            None => earlier,
        }
    }
}

/// What a document declares at its top level, if it can be read.
pub open spec fn document_symbols(env: EnvView, store: StoreView, url: Seq<char>) -> Option<
    Seq<SymbolInformationView>,
> {
    match opened(store, url, env) {
        Some(doc) => match doc.root_items {
            Some(items) => Some(symbols_of(items)),
            None => None,
        },
        None => None,
    }
}

/// What an identifier at a position stands for; nothing where there is none.
fn find_named_at(
    store: &mut CodeStore,
    settings: &SearchSettings,
    env: &Environment,
    doc: &ParsedCode,
    position: Position,
) -> (items: Vec<Item>)
    requires
        old(store).wf(),
        doc@.tree.wf(),
    ensures
        final(store).wf(),
        named_at(settings@, env@, old(store)@, doc@, position) == (
            final(store)@,
            item_views(items@),
        ),
{
    let node: usize = doc.tree.node_at(position);
    if doc.tree.kind(node) != NodeKind::Identifier {
        let none: Vec<Item> = Vec::new();
        assert(item_views(none@) =~= Seq::empty());
        return none;
    }
    let filter = NameFilter::Named(doc.tree.node_text(doc.code.as_str(), node));
    find_identities(store, settings, env, doc, &filter, node, false)
}

/// What is shown of the identifier at a position of a document; no answer where the document
/// cannot be read.
pub fn handle_hover(
    store: &mut CodeStore,
    settings: &SearchSettings,
    env: &Environment,
    url: &str,
    position: Position,
) -> (answer: Option<Option<String>>)
    requires
        old(store).wf(),
    ensures
        final(store).wf(),
        ({
            let (after, shown) = hovered(settings@, env@, old(store)@, url@, position);
            after == final(store)@ && match answer {
                Some(answer) => shown == Some(text_of(answer)),
                None => shown is None,
            }
        }),
{
    let doc: ParsedCode = match open_document(store, url, env) {
        Some(doc) => doc,
        None => {
            return None;
        },
    };
    let items = find_named_at(store, settings, env, &doc, position);
    if items.len() > 0 {
        assert(item_views(items@)[0] == items@[0]@);
        let mut first: Item = items[0].clone();
        Some(Some(first.get_hover()))
    } else {
        Some(None)
    }
}

/// The places of the items of a list that have a name and belong to a file.
fn list_places(items: &Vec<Item>, name: &String) -> (places: Vec<Location>)
    ensures
        location_views(places@) == places_of(item_views(items@), name@),
{
    let ghost views = item_views(items@);
    let mut places: Vec<Location> = Vec::new();
    assert(views.take(0) =~= Seq::empty());
    assert(location_views(places@) =~= places_of(views.take(0), name@));
    let mut k: usize = 0;
    while k < items.len()
        invariant
            k <= items@.len(),
            views == item_views(items@),
            location_views(places@) == places_of(views.take(k as int), name@),
        decreases items@.len() - k,
    {
        let item = &items[k];
        let ghost before = location_views(places@);
        proof {
            assert(views.take(k + 1).drop_last() =~= views.take(k as int));
            assert(views.take(k + 1).last() == item@);
        }
        match &item.url {
            Some(url) => if item.name == *name {
                let place = Location { url: url.clone(), range: item.range };
                places.push(place);
                assert(location_views(places@) =~= before.push(place@));
            },
            None => {},
        }
        k += 1;
    }
    assert(views.take(items@.len() as int) =~= views);
    places
}

/// Where what stands at a position of a document is defined; no answer where the document cannot
/// be read.
pub fn handle_definition(
    store: &mut CodeStore,
    settings: &SearchSettings,
    env: &Environment,
    url: &str,
    position: Position,
) -> (answer: Option<Option<Vec<Location>>>)
    requires
        old(store).wf(),
    ensures
        final(store).wf(),
        ({
            let (after, places) = defined(settings@, env@, old(store)@, url@, position);
            after == final(store)@ && match answer {
                Some(Some(answer)) => places == Some(Some(location_views(answer@))),
                Some(None) => places == Some(None::<Seq<LocationView>>),
                None => places is None,
            }
        }),
{
    let doc: ParsedCode = match open_document(store, url, env) {
        Some(doc) => doc,
        None => {
            return None;
        },
    };
    let node: usize = doc.tree.node_at(position);
    let kind = doc.tree.kind(node);
    if kind == NodeKind::Identifier {
        let items = find_named_at(store, settings, env, &doc, position);
        let name = doc.tree.node_text(doc.code.as_str(), node);
        Some(Some(list_places(&items, &name)))
    } else if kind == NodeKind::IncludePath {
        let target: Option<String> = match doc.tree.parent(node) {
            Some(parent) => doc.get_include_url(parent, env),
            None => None,
        };
        match target {
            Some(target) => {
                let mut places: Vec<Location> = Vec::new();
                let place = Location { url: target, range: Range::at_origin() };
                places.push(place);
                assert(location_views(places@) =~= seq![place@]);
                Some(Some(places))
            },
            None => Some(None),
        }
    } else {
        Some(None)
    }
}

/// What a document declares at its top level; no answer where it cannot be read.
pub fn handle_document_symbols(store: &mut CodeStore, env: &Environment, url: &str) -> (answer:
    Option<Vec<SymbolInformation>>)
    requires
        old(store).wf(),
    ensures
        final(store).wf(),
        final(store)@ == with_opened(old(store)@, url@, env@),
        match answer {
            Some(answer) => document_symbols(env@, old(store)@, url@) == Some(
                symbol_views(answer@),
            ),
            None => document_symbols(env@, old(store)@, url@) is None,
        },
{
    let doc: ParsedCode = match open_document(store, url, env) {
        Some(doc) => doc,
        None => {
            return None;
        },
    };
    let items: &Vec<Item> = match &doc.root_items {
        Some(items) => items,
        None => {
            return None;
        },
    };
    let ghost views = item_views(items@);
    let mut symbols: Vec<SymbolInformation> = Vec::new();
    assert(views.take(0) =~= Seq::empty());
    assert(symbol_views(symbols@) =~= symbols_of(views.take(0)));
    let mut k: usize = 0;
    while k < items.len()
        invariant
            k <= items@.len(),
            views == item_views(items@),
            symbol_views(symbols@) == symbols_of(views.take(k as int)),
        decreases items@.len() - k,
    {
        let item = &items[k];
        let ghost before = symbol_views(symbols@);
        proof {
            assert(views.take(k + 1).drop_last() =~= views.take(k as int));
            assert(views.take(k + 1).last() == item@);
        }
        match &item.url {
            Some(url) => {
                let symbol = SymbolInformation {
                    name: item.name.clone(),
                    kind: item.get_symbol_kind(),
                    location: Location { url: url.clone(), range: item.range },
                };
                symbols.push(symbol);
                assert(symbol_views(symbols@) =~= before.push(symbol@));
            },
            None => {},
        }
        k += 1;
    }
    assert(views.take(items@.len() as int) =~= views);
    Some(symbols)
}

/// New text for a range.
#[derive(Debug)]
pub struct TextEdit {
    pub range: Range,
    pub new_text: String,
}

/// The model of a [`TextEdit`].
#[verifier::ext_equal]
pub struct TextEditView {
    pub range: Range,
    pub new_text: Seq<char>,
}

impl View for TextEdit {
    type V = TextEditView;

    open spec fn view(&self) -> TextEditView {
        TextEditView { range: self.range, new_text: self.new_text@ }
    }
}

/// The code of a failure inside the server.
pub const INTERNAL_ERROR: i32 = -32603;

/// The code of a request that makes no sense.
pub const INVALID_REQUEST: i32 = -32600;

/// A failure that is reported in place of a result.
#[derive(Debug)]
pub struct ResponseError {
    pub code: i32,
    pub message: String,
}

/// The model of a [`ResponseError`].
#[verifier::ext_equal]
pub struct ErrorView {
    pub code: i32,
    pub message: Seq<char>,
}

impl View for ResponseError {
    type V = ErrorView;

    open spec fn view(&self) -> ErrorView {
        ErrorView { code: self.code, message: self.message@ }
    }
}

/// The answer to a request to lay a document out anew, given what the formatter made of its
/// text: the whole document is replaced.
pub fn formatting_answer(doc: &ParsedCode, formatted: Result<String, String>) -> (answer: Result<
    TextEdit,
    ResponseError,
>)
    requires
        doc@.wf(),
    ensures
        match (answer, formatted) {
            (Ok(edit), Ok(text)) => edit@ == (TextEditView {
                range: doc@.tree.range(0),
                new_text: text@,
            }),
            (Err(error), Err(reason)) => error@ == (ErrorView {
                code: INTERNAL_ERROR,
                message: "topiary: "@ + reason@,
            }),
            _ => false,
        },
{
    match formatted {
        Ok(text) => Ok(TextEdit { range: doc.tree.range(0), new_text: text }),
        Err(reason) => {
            let mut message = "topiary: ".to_owned();
            message.append(reason.as_str());
            Err(ResponseError { code: INTERNAL_ERROR, message })
        },
    }
}

} // verus!
