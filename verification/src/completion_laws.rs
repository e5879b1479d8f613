use vstd::prelude::*;

use crate::addresses::{last_component, lemma_last_component};
use crate::analysis::{opened, with_opened};
use crate::arguments::{name_context, NameContextView};
use crate::completion::{
    alike, completed, completed_path, completion_node, completion_offset, directory_part,
    law_each_is_offered, law_offers_are_items, offered_entry, offered_items, offered_params, shown,
    stands_for, with_params, without_doubles, CompletionItemView, CompletionView,
};
use crate::environment::EnvView;
use crate::gather::bare_path;
use crate::kinds::Field;
use crate::position::Position;
use crate::resolve::SettingsView;
use crate::response_item::{CompletionKind, ItemKindView, ItemView, ParamView};
use crate::scan::{listed, FilterView};
use crate::store::StoreView;
use crate::text::{trim_end, trim_start, trimmed, white_space};

verus! {

/// Whether an item is a module or a function with some parameters.
pub open spec fn called_with(item: ItemView, params: Seq<ParamView>) -> bool {
    item.kind == (ItemKindView::Module { params }) || item.kind == (ItemKindView::Function {
        params,
    })
}

/// Whether the parameter at a place can still be named in a call: it is not taken by an argument
/// without a name, no argument has its name, and its name goes on from what was typed.
pub open spec fn can_be_named(context: NameContextView, params: Seq<ParamView>, p: int) -> bool {
    &&& context.positional <= p < params.len()
    &&& context.prefix.is_prefix_of(params[p].name)
    &&& !context.used.contains(params[p].name)
}

/// Whether a name is offered.
pub open spec fn name_offered(items: Seq<ItemView>, name: Seq<char>) -> bool {
    exists|j: int| 0 <= j < items.len() && (#[trigger] items[j]).name == name
}

/// What is offered stays offered, and so does each parameter that can be named.
proof fn lemma_params_offered(
    context: NameContextView,
    so_far: Seq<ItemView>,
    item: ItemView,
    params: Seq<ParamView>,
    k: int,
)
    requires
        0 <= k <= params.len(),
    ensures
        so_far.is_prefix_of(with_params(context, so_far, item, params, k)),
        forall|p: int|
            0 <= p < k && #[trigger] can_be_named(context, params, p) ==> name_offered(
                with_params(context, so_far, item, params, k),
                params[p].name,
            ),
    decreases k,
{
    if k > 0 {
        lemma_params_offered(context, so_far, item, params, k - 1);
        let earlier = with_params(context, so_far, item, params, k - 1);
        let now = with_params(context, so_far, item, params, k);
        assert(earlier.is_prefix_of(now));
        assert forall|p: int| 0 <= p < k && #[trigger] can_be_named(
            context,
            params,
            p,
        ) implies name_offered(now, params[p].name) by {
            if p < k - 1 {
                let j = choose|j: int|
                    0 <= j < earlier.len() && (#[trigger] earlier[j]).name == params[p].name;
                assert(now[j].name == params[p].name);
            } else if now.len() > earlier.len() {
                assert(now[earlier.len() as int].name == params[p].name);
            } else {
                let j = choose|j: int|
                    0 <= j < earlier.len() && (#[trigger] earlier[j]).name == params[p].name;
                assert(now[j].name == params[p].name);
            }
        }
    }
}

/// Each parameter of a module or a function among the first `k` items that can be named is
/// offered.
proof fn lemma_all_offered(
    context: NameContextView,
    items: Seq<ItemView>,
    k: int,
    i: int,
    params: Seq<ParamView>,
    p: int,
)
    requires
        0 <= i < k <= items.len(),
        called_with(items[i], params),
        can_be_named(context, params, p),
    ensures
        name_offered(offered_params(context, items, k), params[p].name),
    decreases k,
{
    let earlier = offered_params(context, items, k - 1);
    let now = offered_params(context, items, k);
    if i == k - 1 {
        lemma_params_offered(context, earlier, items[i], params, params.len() as int);
    } else {
        lemma_all_offered(context, items, k - 1, i, params, p);
        let j = choose|j: int| 0 <= j < earlier.len() && (#[trigger] earlier[j]).name
            == params[p].name;
        if let Some(others) = items[k - 1].kind.params() {
            lemma_params_offered(context, earlier, items[k - 1], others, others.len() as int);
        }
        assert(now[j].name == params[p].name);
    }
}

/// Whether an offer is the parameter of a module or a function that can be named.
pub open spec fn offer_explained(
    context: NameContextView,
    items: Seq<ItemView>,
    name: Seq<char>,
) -> bool {
    exists|i: int, params: Seq<ParamView>, p: int|
        0 <= i < items.len() && #[trigger] called_with(items[i], params) && #[trigger] can_be_named(
            context,
            params,
            p,
        ) && params[p].name == name
}

/// The offers that the parameters of an item add are explained.
proof fn lemma_params_explained(
    context: NameContextView,
    items: Seq<ItemView>,
    so_far: Seq<ItemView>,
    i: int,
    params: Seq<ParamView>,
    k: int,
)
    requires
        0 <= i < items.len(),
        called_with(items[i], params),
        0 <= k <= params.len(),
        forall|j: int|
            0 <= j < so_far.len() ==> offer_explained(context, items, (#[trigger] so_far[j]).name),
    ensures
        forall|j: int|
            0 <= j < with_params(context, so_far, items[i], params, k).len() ==> offer_explained(
                context,
                items,
                (#[trigger] with_params(context, so_far, items[i], params, k)[j]).name,
            ),
    decreases k,
{
    if k > 0 {
        lemma_params_explained(context, items, so_far, i, params, k - 1);
        let earlier = with_params(context, so_far, items[i], params, k - 1);
        let now = with_params(context, so_far, items[i], params, k);
        assert forall|j: int| 0 <= j < now.len() implies offer_explained(
            context,
            items,
            (#[trigger] now[j]).name,
        ) by {
            if j < earlier.len() {
                assert(now[j] == earlier[j]);
            } else {
                assert(can_be_named(context, params, k - 1));
            }
        }
    }
}

/// All offers are explained.
proof fn lemma_explained(context: NameContextView, items: Seq<ItemView>, k: int)
    requires
        0 <= k <= items.len(),
    ensures
        forall|j: int|
            0 <= j < offered_params(context, items, k).len() ==> offer_explained(
                context,
                items,
                (#[trigger] offered_params(context, items, k)[j]).name,
            ),
    decreases k,
{
    if k > 0 {
        lemma_explained(context, items, k - 1);
        if let Some(params) = items[k - 1].kind.params() {
            assert(called_with(items[k - 1], params));
            lemma_params_explained(
                context,
                items,
                offered_params(context, items, k - 1),
                k - 1,
                params,
                params.len() as int,
            );
        }
    }
}

/// Whether a completion offers a label.
pub open spec fn offers_label(answer: Option<CompletionView>, label: Seq<char>) -> bool {
    answer matches Some(CompletionView::Items(list)) && exists|j: int|
        0 <= j < list.len() && (#[trigger] list[j]).label == label && list[j].insert_text == label
}

/// What stands for an item in a list without doubles is shown under its name.
proof fn lemma_label_shown(items: Seq<ItemView>, k: int, include_defaults: bool)
    requires
        0 <= k < items.len(),
    ensures
        offers_label(
            Some(
                CompletionView::Items(
                    without_doubles(items).map_values(
                        |item: ItemView| shown(item, include_defaults),
                    ),
                ),
            ),
            items[k].name,
        ),
{
    law_each_is_offered(items, k);
    let kept = without_doubles(items);
    let i = choose|i: int| stands_for(kept, items[k], i);
    let list = kept.map_values(|item: ItemView| shown(item, include_defaults));
    assert(list[i].label == items[k].name);
}

/// Where the name of an argument is being typed, the labels that are offered are exactly the names
/// of those parameters that can still be named, of all modules and functions that a search finds
/// under the name of the call.
pub proof fn law_argument_names_are_offered(
    settings: SettingsView,
    env: EnvView,
    store: StoreView,
    url: Seq<char>,
    position: Position,
    include_defaults: bool,
    label: Seq<char>,
)
    requires
        opened(store, url, env) is Some,
        ({
            let doc = opened(store, url, env)->0;
            let node = completion_node(doc.tree, position);
            let context = name_context(
                doc.code,
                doc.tree,
                node,
                completion_offset(doc.code, position),
            );
            &&& completed_path(doc.tree, node) is None
            &&& context is Some
            &&& doc.tree.child_by_field(context->0.call, Field::Name) is Some
        }),
    ensures
        ({
            let doc = opened(store, url, env)->0;
            let node = completion_node(doc.tree, position);
            let context = name_context(
                doc.code,
                doc.tree,
                node,
                completion_offset(doc.code, position),
            )->0;
            let name = doc.tree.child_by_field(context.call, Field::Name)->0;
            let items = settings.find(
                env,
                with_opened(store, url, env),
                doc,
                FilterView::Named(doc.tree.node_text(doc.code, name)),
                context.call,
                true,
            ).1;
            offers_label(
                completed(settings, env, store, url, position, include_defaults).1,
                label,
            ) == offer_explained(context, items, label)
        }),
{
    let doc = opened(store, url, env)->0;
    let held = with_opened(store, url, env);
    let node = completion_node(doc.tree, position);
    let context = name_context(doc.code, doc.tree, node, completion_offset(doc.code, position))->0;
    let name = doc.tree.child_by_field(context.call, Field::Name)->0;
    let items = settings.find(
        env,
        held,
        doc,
        FilterView::Named(doc.tree.node_text(doc.code, name)),
        context.call,
        true,
    ).1;
    let offers = offered_params(context, items, items.len() as int);
    let kept = without_doubles(offers);
    let answer = completed(settings, env, store, url, position, include_defaults).1;
    let list = kept.map_values(|item: ItemView| shown(item, include_defaults));
    assert(offered_items(settings, env, held, doc, position).1 == kept);
    assert(answer == Some(CompletionView::Items(list)));
    if offer_explained(context, items, label) {
        let (i, params, p) = choose|i: int, params: Seq<ParamView>, p: int|
            0 <= i < items.len() && #[trigger] called_with(items[i], params)
                && #[trigger] can_be_named(context, params, p) && params[p].name == label;
        lemma_all_offered(context, items, items.len() as int, i, params, p);
        let j = choose|j: int| 0 <= j < offers.len() && (#[trigger] offers[j]).name == label;
        lemma_label_shown(offers, j, include_defaults);
    }
    if offers_label(answer, label) {
        let j = choose|j: int|
            0 <= j < list.len() && (#[trigger] list[j]).label == label && list[j].insert_text
                == label;
        assert(kept[j].name == label);
        law_offers_are_items(offers, j);
        let i = choose|i: int| 0 <= i < offers.len() && offers[i] == kept[j];
        lemma_explained(context, items, items.len() as int);
        assert(offer_explained(context, items, offers[i].name));
    }
}

/// Whether a completion offers an item: under its name and as what it is.
pub open spec fn offers_item(answer: Option<CompletionView>, item: ItemView) -> bool {
    answer matches Some(CompletionView::Items(list)) && exists|j: int|
        0 <= j < list.len() && (#[trigger] list[j]).label == item.name && list[j].insert_text
            == item.name && shown_as(list[j].kind, item.kind)
}

/// Whether an icon is that of a kind of item.
pub open spec fn shown_as(icon: CompletionKind, kind: ItemKindView) -> bool {
    &&& (icon == CompletionKind::Variable) == (kind is Variable)
    &&& (icon == CompletionKind::Function) == (kind is Function)
    &&& (icon == CompletionKind::Keyword) == (kind is Keyword)
    &&& (icon == CompletionKind::Module) == (kind is Module)
    &&& icon != CompletionKind::File
}

/// Each item of a list is offered where the list without doubles is shown, and nothing else is.
proof fn lemma_items_offered(items: Seq<ItemView>, include_defaults: bool)
    ensures
        ({
            let list = without_doubles(items).map_values(
                |item: ItemView| shown(item, include_defaults),
            );
            &&& forall|k: int|
                0 <= k < items.len() ==> offers_item(
                    Some(CompletionView::Items(list)),
                    #[trigger] items[k],
                )
            &&& forall|j: int|
                0 <= j < list.len() ==> offer_of(items, #[trigger] list[j])
        }),
{
    let kept = without_doubles(items);
    let list = kept.map_values(|item: ItemView| shown(item, include_defaults));
    assert forall|k: int| 0 <= k < items.len() implies offers_item(
        Some(CompletionView::Items(list)),
        #[trigger] items[k],
    ) by {
        law_each_is_offered(items, k);
        let i = choose|i: int| stands_for(kept, items[k], i);
        assert(alike(kept[i], items[k]));
        assert(list[i].label == items[k].name);
        assert(shown_as(list[i].kind, items[k].kind));
    }
    assert forall|j: int| 0 <= j < list.len() implies offer_of(items, #[trigger] list[j]) by {
        law_offers_are_items(items, j);
        let i = choose|i: int| 0 <= i < items.len() && items[i] == kept[j];
        assert(items[i].name == list[j].label);
    }
}

/// Whether an offer is one of a list of items.
pub open spec fn offer_of(items: Seq<ItemView>, offer: CompletionItemView) -> bool {
    exists|i: int|
        0 <= i < items.len() && (#[trigger] items[i]).name == offer.label && shown_as(
            offer.kind,
            items[i].kind,
        )
}

/// Where no name of an argument is being typed and no path, everything that a search for all names
/// finds is offered, under its name and as what it is. Where the search found nothing that belongs
/// to the language itself, so is all that the language knows. Nothing else is offered.
pub proof fn law_visible_names_are_offered(
    settings: SettingsView,
    env: EnvView,
    store: StoreView,
    url: Seq<char>,
    position: Position,
    include_defaults: bool,
)
    requires
        opened(store, url, env) is Some,
        ({
            let doc = opened(store, url, env)->0;
            let node = completion_node(doc.tree, position);
            &&& completed_path(doc.tree, node) is None
            &&& name_context(
                doc.code,
                doc.tree,
                node,
                completion_offset(doc.code, position),
            ) is None
        }),
    ensures
        ({
            let doc = opened(store, url, env)->0;
            let node = completion_node(doc.tree, position);
            let (after, items) = settings.find(
                env,
                with_opened(store, url, env),
                doc,
                FilterView::Any,
                node,
                true,
            );
            let answer = completed(settings, env, store, url, position, include_defaults).1;
            let known = match opened(after, settings.builtin_url, env) {
                Some(builtin) => listed(builtin.root_items),
                None => Seq::empty(),
            };
            let none_known = forall|k: int|
                0 <= k < items.len() ==> !(#[trigger] items[k]).is_builtin;
            &&& forall|k: int|
                0 <= k < items.len() ==> offers_item(answer, #[trigger] items[k])
            &&& none_known ==> forall|k: int|
                0 <= k < known.len() ==> offers_item(answer, #[trigger] known[k])
            &&& answer matches Some(CompletionView::Items(list)) && forall|j: int|
                0 <= j < list.len() ==> offer_of(items + known, #[trigger] list[j])
        }),
{
    let doc = opened(store, url, env)->0;
    let held = with_opened(store, url, env);
    let node = completion_node(doc.tree, position);
    let (after, items) = settings.find(env, held, doc, FilterView::Any, node, true);
    let known = match opened(after, settings.builtin_url, env) {
        Some(builtin) => listed(builtin.root_items),
        None => Seq::empty(),
    };
    let offered = offered_items(settings, env, held, doc, position).1;
    let list = offered.map_values(|item: ItemView| shown(item, include_defaults));
    let answer = completed(settings, env, store, url, position, include_defaults).1;
    assert(answer == Some(CompletionView::Items(list)));
    let both = items + known;
    assert forall|k: int| 0 <= k < items.len() implies both[k] == items[k] by {}
    assert forall|k: int| 0 <= k < known.len() implies both[items.len() + k] == known[k] by {}
    if exists|k: int| 0 <= k < items.len() && (#[trigger] items[k]).is_builtin {
        assert(offered == without_doubles(items));
        lemma_items_offered(items, include_defaults);
        assert forall|j: int| 0 <= j < list.len() implies offer_of(both, #[trigger] list[j]) by {
            assert(offer_of(items, list[j]));
            let i = choose|i: int|
                0 <= i < items.len() && (#[trigger] items[i]).name == list[j].label && shown_as(
                    list[j].kind,
                    items[i].kind,
                );
            assert(both[i].name == list[j].label);
        }
    } else {
        assert(offered == without_doubles(both));
        lemma_items_offered(both, include_defaults);
        assert forall|k: int| 0 <= k < items.len() implies offers_item(
            answer,
            #[trigger] items[k],
        ) by {
            assert(offers_item(answer, both[k]));
        }
        assert forall|k: int| 0 <= k < known.len() implies offers_item(
            answer,
            #[trigger] known[k],
        ) by {
            assert(offers_item(answer, both[items.len() + k]));
        }
    }
}

/// What is offered carries its signature, if it can be called, and its documentation, unless that
/// is blank.
pub proof fn law_offers_carry_their_documentation(item: ItemView, include_defaults: bool)
    ensures
        ({
            let offer = shown(item, include_defaults);
            &&& offer.label == item.name && offer.insert_text == item.name && offer.filter_text
                == item.name
            &&& (offer.detail is Some) == (item.kind is Module || item.kind is Function)
            &&& offer.detail == item.made_signature(include_defaults)
            &&& offer.documentation matches Some(text) ==> text == item.shown_hover()
            &&& offer.documentation is None ==> forall|k: int|
                0 <= k < item.shown_hover().len() ==> white_space(
                    #[trigger] item.shown_hover()[k],
                )
        }),
{
    lemma_trimmed_away(item.shown_hover());
}

/// A text of which nothing is left without the white space at its ends is white space.
proof fn lemma_trimmed_away(text: Seq<char>)
    ensures
        trimmed(text).len() == 0 ==> forall|k: int|
            0 <= k < text.len() ==> white_space(#[trigger] text[k]),
{
    let head = trim_start(text);
    lemma_trim_start(text);
    lemma_trim_end(head);
    if trimmed(text).len() == 0 && head.len() > 0 {
        assert(white_space(head[0]));
    }
}

/// What is taken off at the start is white space.
proof fn lemma_trim_start(text: Seq<char>)
    ensures
        trim_start(text).len() == 0 ==> forall|k: int|
            0 <= k < text.len() ==> white_space(#[trigger] text[k]),
        trim_start(text).len() > 0 ==> !white_space(trim_start(text)[0]),
    decreases text.len(),
{
    if text.len() > 0 && white_space(text[0]) {
        let rest = text.drop_first();
        lemma_trim_start(rest);
        if trim_start(text).len() == 0 {
            assert forall|k: int| 0 <= k < text.len() implies white_space(#[trigger] text[k]) by {
                if k > 0 {
                    assert(text[k] == rest[k - 1]);
                }
            }
        }
    }
}

/// What is taken off at the end is white space.
proof fn lemma_trim_end(text: Seq<char>)
    ensures
        trim_end(text).len() == 0 ==> forall|k: int|
            0 <= k < text.len() ==> white_space(#[trigger] text[k]),
    decreases text.len(),
{
    if text.len() > 0 && white_space(text.last()) {
        let rest = text.drop_last();
        lemma_trim_end(rest);
        if trim_end(text).len() == 0 {
            assert forall|k: int| 0 <= k < text.len() implies white_space(#[trigger] text[k]) by {
                if k < rest.len() {
                    assert(text[k] == rest[k]);
                }
            }
        }
    }
}

/// A path that is being typed is its directory and a last name without a slash; the directory is
/// empty or ends in a slash.
pub proof fn law_a_typed_path_has_a_directory(include_path: Seq<char>)
    ensures
        ({
            let typed = bare_path(include_path);
            let directory = directory_part(include_path);
            &&& directory.is_prefix_of(typed)
            &&& directory.len() == 0 || directory.last() == '/'
            &&& forall|k: int| directory.len() <= k < typed.len() ==> (#[trigger] typed[k]) != '/'
        }),
{
    let typed = bare_path(include_path);
    lemma_last_component(typed);
    lemma_component_end(typed);
    let directory = directory_part(include_path);
    assert(directory == typed.take(typed.len() - last_component(typed).len()));
}

/// The last component of a path starts behind the last slash.
proof fn lemma_component_end(path: Seq<char>)
    ensures
        ({
            let n = path.len() - last_component(path).len();
            &&& 0 <= n <= path.len()
            &&& n == 0 || path[n - 1] == '/'
            &&& forall|k: int| n <= k < path.len() ==> (#[trigger] path[k]) != '/'
        }),
    decreases path.len(),
{
    if path.len() > 0 && path.last() != '/' {
        let rest = path.drop_last();
        lemma_component_end(rest);
        let n = path.len() - last_component(path).len();
        assert forall|k: int| n <= k < path.len() implies (#[trigger] path[k]) != '/' by {
            if k < rest.len() {
                assert(path[k] == rest[k]);
            }
        }
        if n > 0 {
            assert(path[n - 1] == rest[n - 1]);
        }
    }
}

/// Of the entries of a directory, directories are offered with a slash behind them, files of the
/// language as they are, and nothing else is; each behind the directory that was typed.
pub proof fn law_entries_are_offered(directory: Seq<char>, name: Seq<char>, is_directory: bool)
    ensures
        match offered_entry(directory, name, is_directory) {
            Some(offer) => {
                &&& directory.is_prefix_of(offer)
                &&& offer.len() == directory.len() + name.len() + (if is_directory {
                    1int
                } else {
                    0
                })
                &&& name.is_prefix_of(offer.skip(directory.len() as int))
                &&& is_directory ==> offer.last() == '/'
                &&& is_directory || ".scad"@.is_suffix_of(name)
            },
            None => !is_directory && !".scad"@.is_suffix_of(name),
        },
{
    reveal_strlit("/");
    if let Some(offer) = offered_entry(directory, name, is_directory) {
        assert(offer.skip(directory.len() as int).take(name.len() as int) =~= name);
    }
}

} // verus!
