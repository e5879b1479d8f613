use vstd::prelude::*;

use crate::analysis::{opened, with_opened};
use crate::completion_laws::called_with;
use crate::cursor::lemma_filter_from;
use crate::environment::EnvView;
use crate::lists::lemma_filter_keeps;
use crate::navigation::{
    defined, document_symbols, hovered, places_of, symbols_of, LocationView, SymbolInformationView,
};
use crate::position::{Position, Range};
use crate::resolve::SettingsView;
use crate::response_item::{
    param_text, param_texts, params_text, ItemKindView, ItemView, ParamView, SymbolKind,
};
use crate::scan::FilterView;
use crate::store::StoreView;
use crate::text::joined;

verus! {

/// The items of a list that have a name and belong to a file.
pub open spec fn items_in_files(items: Seq<ItemView>, name: Seq<char>) -> Seq<ItemView> {
    items.filter(|item: ItemView| item.name == name && item.url is Some)
}

/// Each item of a name that belongs to a file gives one place: its own. They come in the order of
/// the items, whatever these are.
proof fn lemma_places(items: Seq<ItemView>, name: Seq<char>)
    ensures
        places_of(items, name).len() == items_in_files(items, name).len(),
        forall|k: int|
            0 <= k < items_in_files(items, name).len() ==> (#[trigger] places_of(items, name)[k])
                == (LocationView {
                url: items_in_files(items, name)[k].url->0,
                range: items_in_files(items, name)[k].range,
            }),
    decreases items.len(),
{
    reveal(Seq::filter);
    if items.len() > 0 {
        lemma_places(items.drop_last(), name);
    }
}

/// Whether a place is that of an item.
pub open spec fn place_of_item(place: LocationView, item: ItemView) -> bool {
    item.url == Some(place.url) && item.range == place.range
}

/// The definition of an identifier is where a search for its name, from where it stands, finds
/// something: the answer has one place for each item of that name that belongs to a file, whatever
/// its kind and its scope, in the order in which they are found, and no other place.
pub proof fn law_definitions_are_what_a_search_finds(
    settings: SettingsView,
    env: EnvView,
    store: StoreView,
    url: Seq<char>,
    position: Position,
)
    requires
        opened(store, url, env) is Some,
        ({
            let tree = opened(store, url, env)->0.tree;
            tree.kind(tree.node_at(position)) is Identifier
        }),
    ensures
        ({
            let doc = opened(store, url, env)->0;
            let node = doc.tree.node_at(position);
            let name = doc.tree.node_text(doc.code, node);
            let (after, items) = settings.find(
                env,
                with_opened(store, url, env),
                doc,
                FilterView::Named(name),
                node,
                false,
            );
            let (held, answer) = defined(settings, env, store, url, position);
            &&& held == after
            &&& answer matches Some(Some(places)) && {
                &&& places.len() == items_in_files(items, name).len()
                &&& forall|k: int|
                    0 <= k < places.len() ==> place_of_item(
                        #[trigger] places[k],
                        items_in_files(items, name)[k],
                    )
                &&& forall|k: int|
                    0 <= k < items.len() && (#[trigger] items[k]).name == name && items[k].url is Some
                        ==> places.contains(
                        LocationView { url: items[k].url->0, range: items[k].range },
                    )
            }
        }),
{
    let doc = opened(store, url, env)->0;
    let node = doc.tree.node_at(position);
    let name = doc.tree.node_text(doc.code, node);
    let (after, items) = settings.find(
        env,
        with_opened(store, url, env),
        doc,
        FilterView::Named(name),
        node,
        false,
    );
    let keep = |item: ItemView| item.name == name && item.url is Some;
    let kept = items_in_files(items, name);
    let places = places_of(items, name);
    assert(kept == items.filter(keep));
    lemma_places(items, name);
    assert forall|k: int| 0 <= k < places.len() implies place_of_item(
        #[trigger] places[k],
        kept[k],
    ) by {
        assert(kept.contains(kept[k]));
        lemma_filter_from(items, keep, kept[k]);
    }
    assert forall|k: int|
        0 <= k < items.len() && (#[trigger] items[k]).name == name
            && items[k].url is Some implies places.contains(
        LocationView { url: items[k].url->0, range: items[k].range },
    ) by {
        lemma_filter_keeps(items, keep, k);
        let j = choose|j: int| 0 <= j < kept.len() && kept[j] == items[k];
        assert(places[j] == (LocationView { url: items[k].url->0, range: items[k].range }));
    }
}

/// The definition of the path of an `include` or `use` is the start of the file that it leads to,
/// if it leads to one. Nothing else that is no identifier has a definition, and neither has
/// anything in a document that cannot be read.
pub proof fn law_paths_lead_to_their_files(
    settings: SettingsView,
    env: EnvView,
    store: StoreView,
    url: Seq<char>,
    position: Position,
)
    ensures
        match opened(store, url, env) {
            None => defined(settings, env, store, url, position).1 is None,
            Some(doc) => {
                let node = doc.tree.node_at(position);
                let answer = defined(settings, env, store, url, position).1;
                let origin = Position { line: 0, character: 0 };
                if doc.tree.kind(node) is IncludePath {
                    match doc.tree.parent(node) {
                        Some(statement) => match doc.tree.child(statement, 1) {
                            Some(path) => match env.link(
                                doc.url,
                                doc.tree.node_text(doc.code, path),
                            ) {
                                Some(target) => answer == Some(
                                    Some(
                                        seq![
                                            LocationView {
                                                url: target,
                                                range: Range { start: origin, end: origin },
                                            },
                                        ],
                                    ),
                                ),
                                None => answer == Some(None::<Seq<LocationView>>),
                            },
                            None => answer == Some(None::<Seq<LocationView>>),
                        },
                        None => answer == Some(None::<Seq<LocationView>>),
                    }
                } else {
                    doc.tree.kind(node) is Identifier || answer == Some(None::<Seq<LocationView>>)
                }
            },
        },
{
}

/// What is shown of an identifier is the documentation of the first thing that a search for its
/// name, from where it stands, finds; nothing is shown where nothing is found, or of what is no
/// identifier.
pub proof fn law_hovers_show_what_a_search_finds(
    settings: SettingsView,
    env: EnvView,
    store: StoreView,
    url: Seq<char>,
    position: Position,
)
    ensures
        match opened(store, url, env) {
            None => hovered(settings, env, store, url, position).1 is None,
            Some(doc) => {
                let node = doc.tree.node_at(position);
                let found = settings.find(
                    env,
                    with_opened(store, url, env),
                    doc,
                    FilterView::Named(doc.tree.node_text(doc.code, node)),
                    node,
                    false,
                ).1;
                let answer = hovered(settings, env, store, url, position).1;
                if doc.tree.kind(node) is Identifier && found.len() > 0 {
                    answer == Some(Some(found[0].shown_hover()))
                } else {
                    answer == Some(None::<Seq<char>>)
                }
            },
        },
{
}

/// Whether a text holds another.
pub open spec fn holds(text: Seq<char>, part: Seq<char>) -> bool {
    exists|k: int|
        0 <= k <= text.len() - part.len() && #[trigger] text.subrange(k, k + part.len()) == part
}

/// A text with others in front of it and behind it holds it.
proof fn lemma_holds(before: Seq<char>, part: Seq<char>, after: Seq<char>)
    ensures
        holds(before + part + after, part),
{
    let k = before.len() as int;
    assert((before + part + after).subrange(k, k + part.len()) =~= part);
}

/// What holds a part of a text holds it with more behind it.
proof fn lemma_holds_more(text: Seq<char>, part: Seq<char>, after: Seq<char>)
    requires
        holds(text, part),
    ensures
        holds(text + after, part),
{
    let k = choose|k: int|
        0 <= k <= text.len() - part.len() && #[trigger] text.subrange(k, k + part.len()) == part;
    assert((text + after).subrange(k, k + part.len()) =~= part);
}

/// The documentation that is shown of an item, where none was made before, holds how the item is
/// written, and what is said of it in the comments in front of it. That of a module says that it
/// is one, and so does that of a function.
pub proof fn law_documentation_holds_signature_and_comments(item: ItemView)
    requires
        item.hover is None,
        item.label is None,
    ensures
        holds(item.shown_hover(), item.made_label()),
        item.kind is Module ==> holds(item.shown_hover(), "module "@ + item.made_label()),
        item.kind is Function ==> holds(item.shown_hover(), "function "@ + item.made_label()),
        item.doc matches Some(doc) ==> holds(item.shown_hover(), doc),
        item.name.is_prefix_of(item.made_label()),
{
    let label = item.made_label();
    let start = match item.kind {
        ItemKindView::Function { .. } => "```scad\nfunction "@,
        ItemKindView::Module { .. } => "```scad\nmodule "@,
        _ => "```scad\n"@,
    };
    let head = start + label + "\n```"@;
    lemma_holds(start, label, "\n```"@);
    reveal_strlit("module ");
    reveal_strlit("function ");
    reveal_strlit("```scad\n");
    reveal_strlit("```scad\nfunction ");
    reveal_strlit("```scad\nmodule ");
    if item.kind is Module {
        assert("```scad\n"@ + ("module "@ + label) + "\n```"@ =~= head);
        lemma_holds("```scad\n"@, "module "@ + label, "\n```"@);
    }
    if item.kind is Function {
        assert("```scad\n"@ + ("function "@ + label) + "\n```"@ =~= head);
        lemma_holds("```scad\n"@, "function "@ + label, "\n```"@);
    }
    if let Some(doc) = item.doc {
        let (middle, end) = if item.is_builtin {
            ("\n---\n\n"@, "\n"@)
        } else {
            ("\n---\n\n<pre>\n"@, "\n</pre>\n"@)
        };
        let shown = item.shown_hover();
        assert(shown == head + middle + doc + end);
        lemma_holds(head + middle, doc, end);
        let rest = middle + doc + end;
        assert(shown =~= head + rest);
        lemma_holds_more(head, label, rest);
        if item.kind is Module {
            lemma_holds_more(head, "module "@ + label, rest);
        }
        if item.kind is Function {
            lemma_holds_more(head, "function "@ + label, rest);
        }
    } else {
        assert(item.shown_hover() == head);
    }
}

/// The items of a list that belong to a file.
pub open spec fn filed(items: Seq<ItemView>) -> Seq<ItemView> {
    items.filter(|item: ItemView| item.url is Some)
}

/// Whether a symbol is the declaration of an item, under the kind that it is.
pub open spec fn symbol_of_item(symbol: SymbolInformationView, item: ItemView) -> bool {
    &&& symbol.name == item.name
    &&& item.url == Some(symbol.location.url)
    &&& symbol.location.range == item.range
    &&& (symbol.kind == SymbolKind::Function) == (item.kind is Function)
    &&& (symbol.kind == SymbolKind::Module) == (item.kind is Module)
    &&& (symbol.kind == SymbolKind::Variable) == (item.kind is Variable)
}

/// Each item that belongs to a file gives one symbol, in order.
proof fn lemma_symbols(items: Seq<ItemView>)
    ensures
        symbols_of(items).len() == filed(items).len(),
        forall|k: int|
            0 <= k < filed(items).len() ==> symbol_of_item(
                #[trigger] symbols_of(items)[k],
                filed(items)[k],
            ),
    decreases items.len(),
{
    reveal(Seq::filter);
    if items.len() > 0 {
        lemma_symbols(items.drop_last());
    }
}

/// The symbols of a document are the declarations at its top level that belong to a file, each
/// once, in order, and of their own kind; there are none of a document that cannot be read.
pub proof fn law_symbols_are_the_declarations(env: EnvView, store: StoreView, url: Seq<char>)
    ensures
        match opened(store, url, env) {
            None => document_symbols(env, store, url) is None,
            Some(doc) => match doc.root_items {
                None => document_symbols(env, store, url) is None,
                Some(items) => document_symbols(env, store, url) matches Some(symbols) && {
                    &&& symbols.len() == filed(items).len()
                    &&& forall|k: int|
                        0 <= k < symbols.len() ==> symbol_of_item(
                            #[trigger] symbols[k],
                            filed(items)[k],
                        )
                },
            },
        },
{
    if let Some(doc) = opened(store, url, env) {
        if let Some(items) = doc.root_items {
            lemma_symbols(items);
        }
    }
}

/// Texts that are joined hold each of them.
proof fn lemma_joined_holds(parts: Seq<Seq<char>>, separator: Seq<char>, k: int)
    requires
        0 <= k < parts.len(),
    ensures
        holds(joined(parts, separator), parts[k]),
    decreases parts.len(),
{
    let none = Seq::<char>::empty();
    if parts.len() == 1 {
        lemma_holds(none, parts[0], none);
        assert(none + parts[0] + none =~= parts[0]);
    } else {
        let rest = parts.drop_last();
        let head = joined(rest, separator);
        if k < rest.len() {
            lemma_joined_holds(rest, separator, k);
            lemma_holds_more(head, parts[k], separator + parts.last());
            assert(head + (separator + parts.last()) =~= joined(parts, separator));
        } else {
            lemma_holds(head + separator, parts.last(), none);
            assert(head + separator + parts.last() + none =~= joined(parts, separator));
        }
    }
}

/// What holds a part of a text holds what that part holds.
proof fn lemma_holds_trans(text: Seq<char>, middle: Seq<char>, part: Seq<char>)
    requires
        holds(text, middle),
        holds(middle, part),
    ensures
        holds(text, part),
{
    let a = choose|a: int|
        0 <= a <= text.len() - middle.len() && #[trigger] text.subrange(a, a + middle.len())
            == middle;
    let b = choose|b: int|
        0 <= b <= middle.len() - part.len() && #[trigger] middle.subrange(b, b + part.len())
            == part;
    assert(text.subrange(a + b, a + b + part.len()) =~= middle.subrange(b, b + part.len()));
}

/// A module or a function is written with all its parameters, those with a default value together
/// with it; its signature is that, or its name alone where default values are not shown. What
/// cannot be called is written as its name and has no signature.
pub proof fn law_signatures_list_parameters(item: ItemView, params: Seq<ParamView>)
    ensures
        called_with(item, params) ==> {
            &&& item.made_signature(true) == Some(item.made_label())
            &&& item.made_signature(false) == Some(item.name)
            &&& item.name.is_prefix_of(item.made_label())
            &&& forall|k: int|
                0 <= k < params.len() ==> holds(item.made_label(), (#[trigger] params[k]).name) && (
                params[k].default matches Some(default) ==> holds(
                    item.made_label(),
                    params[k].name + "="@ + default,
                ))
        },
        item.kind is Variable || item.kind is Keyword ==> item.made_label() == item.name
            && item.made_signature(true) is None && item.made_signature(false) is None,
{
    if called_with(item, params) {
        let texts = param_texts(params, true);
        let inside = params_text(params, true);
        let label = item.made_label();
        assert(label == item.name + "("@ + inside + ")"@);
        lemma_holds(item.name + "("@, inside, ")"@);
        assert forall|k: int| 0 <= k < params.len() implies holds(
            label,
            (#[trigger] params[k]).name,
        ) && (params[k].default matches Some(default) ==> holds(
            label,
            params[k].name + "="@ + default,
        )) by {
            lemma_joined_holds(texts, ","@, k);
            assert(texts[k] == param_text(params[k], true));
            lemma_holds_trans(label, inside, texts[k]);
            let rest = match params[k].default {
                Some(default) => "="@ + default,
                None => Seq::empty(),
            };
            assert(texts[k] =~= params[k].name + rest);
            let none = Seq::<char>::empty();
            lemma_holds(none, params[k].name, rest);
            assert(none + params[k].name + rest =~= texts[k]);
            lemma_holds_trans(label, texts[k], params[k].name);
        }
    }
}

} // verus!
