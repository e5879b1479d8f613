use vstd::prelude::*;
use vstd::string::*;
use vstd::utf8::*;

use crate::addresses::{last_component, last_part, lemma_last_component};
use crate::analysis::{open_document, opened, with_opened};
use crate::arguments::{
    argument_name_completion_context, name_context, ArgumentNameContext, NameContextView,
};
use crate::cursor::node_index;
use crate::environment::{EnvView, Environment};
use crate::gather::{bare_path, below, find_below, strip_path};
use crate::kinds::{Field, NodeKind};
use crate::parse_code::{find_offset, position_offset, texts, DocView, ParsedCode};
use crate::position::Position;
use crate::resolve::{find_identities, holds_text, SearchSettings, SettingsView};
use crate::response_item::{
    clone_items, clone_text, item_views, param_views, CompletionKind, Item, ItemKind,
    ItemKindView, ItemView, Param, ParamView,
};
use crate::scan::{listed, FilterView, NameFilter};
use crate::store::{CodeStore, StoreView};
use crate::syntax::{text_of, SyntaxTree, Tree};
use crate::text::{same_text, trim, trimmed};

verus! {

/// Whether a text starts with another.
pub open spec fn starts_with(text: Seq<char>, prefix: Seq<char>) -> bool {
    prefix.is_prefix_of(text)
}

/// Whether one of a list of items has a name.
pub open spec fn has_name(items: Seq<ItemView>, name: Seq<char>) -> bool {
    exists|k: int| 0 <= k < items.len() && (#[trigger] items[k]).name == name
}

/// Whether a parameter is offered as the name of an argument.
pub open spec fn offered(context: NameContextView, param: ParamView) -> bool {
    starts_with(param.name, context.prefix) && !context.used.contains(param.name)
}

/// The items that are offered so far, and those of the first `k` parameters of an item that can
/// still be named and have not been offered.
pub open spec fn with_params(
    context: NameContextView,
    so_far: Seq<ItemView>,
    item: ItemView,
    params: Seq<ParamView>,
    k: int,
) -> Seq<ItemView>
    decreases k,
{
    if k <= 0 {
        so_far
    } else {
        let earlier = with_params(context, so_far, item, params, k - 1);
        let param = params[k - 1];
        if k - 1 >= context.positional && offered(context, param) && !has_name(
            earlier,
            param.name,
        ) {
            earlier.push(ItemView::of_param(param, item.url, item.is_builtin))
        } else {
            earlier
        }
    }
}

/// The parameters of the first `k` of a list of items that are offered as names of arguments.
pub open spec fn offered_params(context: NameContextView, items: Seq<ItemView>, k: int) -> Seq<
    ItemView,
>
    decreases k,
{
    if k <= 0 {
        Seq::empty()
    } else {
        let earlier = offered_params(context, items, k - 1);
        match items[k - 1].kind.params() {
            Some(params) => with_params(
                context,
                earlier,
                items[k - 1],
                params,
                params.len() as int,
            ),
            None => earlier,
        }
    }
}

/// What is offered as the name of an argument, and the documents that are held then.
pub open spec fn argument_names(
    settings: SettingsView,
    env: EnvView,
    store: StoreView,
    doc: DocView,
    context: NameContextView,
) -> (StoreView, Seq<ItemView>) {
    match doc.tree.child_by_field(context.call, Field::Name) {
        None => (store, Seq::empty()),
        Some(name) => {
            let (after, items) = settings.find(
                env,
                store,
                doc,
                FilterView::Named(doc.tree.node_text(doc.code, name)),
                context.call,
                true,
            );
            (after, offered_params(context, items, items.len() as int))
        },
    }
}

/// Whether two items would be shown alike: they have the same name and are of the same kind.
pub open spec fn alike(a: ItemView, b: ItemView) -> bool {
    a.name == b.name && same_kind(a.kind, b.kind)
}

/// Whether two kinds are the same, whatever the parameters.
pub open spec fn same_kind(a: ItemKindView, b: ItemKindView) -> bool {
    match a {
        ItemKindView::Variable => b is Variable,
        ItemKindView::Function { .. } => b is Function,
        ItemKindView::Keyword => b is Keyword,
        ItemKindView::Module { .. } => b is Module,
    }
}

/// The place of the first item from place `k` on that is like another.
pub open spec fn place_alike(items: Seq<ItemView>, item: ItemView, k: int) -> Option<int>
    decreases items.len() - k,
{
    if k < 0 || k >= items.len() {
        None
    } else if alike(items[k], item) {
        Some(k)
    } else {
        place_alike(items, item, k + 1)
    }
}

/// A list with each kind of item of a name once: the first that does not belong to the language
/// itself, or the first.
pub open spec fn without_doubles(items: Seq<ItemView>) -> Seq<ItemView>
    decreases items.len(),
{
    if items.len() == 0 {
        Seq::empty()
    } else {
        let earlier = without_doubles(items.drop_last());
        let item = items.last();
        match place_alike(earlier, item, 0) {
            Some(k) => if earlier[k].is_builtin && !item.is_builtin {
                earlier.update(k, item)
            } else {
                earlier
            },
            None => earlier.push(item),
        }
    }
}

/// The node that a completion at a position is about: the one at the position, or the one just
/// before it where there is nothing but the document at the position.
pub open spec fn completion_node(tree: Tree, position: Position) -> int {
    let node = tree.node_at(position);
    if tree.kind(node) is SourceFile && position.character > 0 {
        tree.node_at(
            Position { line: position.line, character: (position.character - 1) as u32 },
        )
    } else {
        node
    }
}

/// The offset that a completion at a position is about: the end where there is no such line.
pub open spec fn completion_offset(code: Seq<char>, position: Position) -> int {
    match position_offset(code, position) {
        Some(offset) => offset,
        None => encode_utf8(code).len() as int,
    }
}

/// Whether one of a list of items belongs to the language itself.
pub open spec fn has_builtin(items: Seq<ItemView>) -> bool {
    exists|k: int| 0 <= k < items.len() && (#[trigger] items[k]).is_builtin
}

/// The items that are offered at a position, and the documents that are held then.
pub open spec fn offered_items(
    settings: SettingsView,
    env: EnvView,
    store: StoreView,
    doc: DocView,
    position: Position,
) -> (StoreView, Seq<ItemView>) {
    let node = completion_node(doc.tree, position);
    match name_context(doc.code, doc.tree, node, completion_offset(doc.code, position)) {
        Some(context) => {
            let (after, items) = argument_names(settings, env, store, doc, context);
            (after, without_doubles(items))
        },
        None => {
            let (after, items) = settings.find(env, store, doc, FilterView::Any, node, true);
            if has_builtin(items) {
                (after, without_doubles(items))
            } else {
                let more = match opened(after, settings.builtin_url, env) {
                    Some(builtin) => listed(builtin.root_items),
                    None => Seq::empty(),
                };
                (
                    with_opened(after, settings.builtin_url, env),
                    without_doubles(items + more),
                )
            }
        },
    }
}

/// The path of the first `include` or `use` above a node.
pub open spec fn path_above(tree: Tree, node: int) -> Option<int>
    decreases node,
{
    match tree.parent(node) {
        None => None,
        Some(parent) => if tree.kind(parent).dependency_statement() {
            tree.child(parent, 1)
        } else if 0 <= parent < node {
            path_above(tree, parent)
        } else {
            None
        },
    }
}

/// The path of an `include` or `use` that a completion is about, if it is about one.
pub open spec fn completed_path(tree: Tree, node: int) -> Option<int> {
    if tree.kind(node) is IncludePath {
        Some(node)
    } else {
        path_above(tree, node)
    }
}

/// Something to offer.
#[derive(Debug)]
pub struct CompletionItem {
    pub label: String,
    pub kind: CompletionKind,
    pub insert_text: String,
    pub filter_text: String,
    pub detail: Option<String>,
    pub documentation: Option<String>,
}

/// The model of a [`CompletionItem`].
#[verifier::ext_equal]
pub struct CompletionItemView {
    pub label: Seq<char>,
    pub kind: CompletionKind,
    pub insert_text: Seq<char>,
    pub filter_text: Seq<char>,
    pub detail: Option<Seq<char>>,
    pub documentation: Option<Seq<char>>,
}

impl View for CompletionItem {
    type V = CompletionItemView;

    open spec fn view(&self) -> CompletionItemView {
        CompletionItemView {
            label: self.label@,
            kind: self.kind,
            insert_text: self.insert_text@,
            filter_text: self.filter_text@,
            detail: text_of(self.detail),
            documentation: text_of(self.documentation),
        }
    }
}

/// How an item is offered.
pub open spec fn shown(item: ItemView, include_defaults: bool) -> CompletionItemView {
    CompletionItemView {
        label: item.name,
        kind: item.kind.completion(),
        insert_text: item.name,
        filter_text: item.name,
        detail: item.made_signature(include_defaults),
        documentation: if trimmed(item.shown_hover()).len() == 0 {
            None
        } else {
            Some(item.shown_hover())
        },
    }
}

/// What a completion offers.
#[derive(Debug)]
pub enum Completion {
    /// The files that go on from the path that was typed.
    Files { include_path: String },
    Items(Vec<CompletionItem>),
}

/// The model of a [`Completion`].
#[verifier::ext_equal]
pub enum CompletionView {
    Files { include_path: Seq<char> },
    Items(Seq<CompletionItemView>),
}

/// The models of a list of things to offer.
pub open spec fn completion_item_views(items: Seq<CompletionItem>) -> Seq<CompletionItemView> {
    items.map_values(|i: CompletionItem| i@)
}

impl View for Completion {
    type V = CompletionView;

    open spec fn view(&self) -> CompletionView {
        match self {
            Completion::Files { include_path } => CompletionView::Files {
                include_path: include_path@,
            },
            Completion::Items(items) => CompletionView::Items(completion_item_views(items@)),
        }
    }
}

/// What is offered at a position of a document, if it can be read, and the documents that are
/// held then.
pub open spec fn completed(
    settings: SettingsView,
    env: EnvView,
    store: StoreView,
    url: Seq<char>,
    position: Position,
    include_defaults: bool,
) -> (StoreView, Option<CompletionView>) {
    let held = with_opened(store, url, env);
    match opened(store, url, env) {
        None => (held, None),
        Some(doc) => {
            let (after, items) = offered_items(settings, env, held, doc, position);
            let node = completion_node(doc.tree, position);
            (
                after,
                Some(
                    match completed_path(doc.tree, node) {
                        Some(path) => CompletionView::Files {
                            include_path: doc.tree.node_text(doc.code, path),
                        },
                        None => CompletionView::Items(
                            items.map_values(|item: ItemView| shown(item, include_defaults)),
                        ),
                    },
                ),
            )
        },
    }
}

/// Whether a text starts with another.
pub fn text_starts_with(text: &str, prefix: &str) -> (r: bool)
    ensures
        r == starts_with(text@, prefix@),
{
    let n: usize = prefix.unicode_len();
    if text.unicode_len() < n {
        return false;
    }
    let head: &str = text.substring_char(0, n);
    let r: bool = same_text(head, prefix);
    proof {
        assert(head@ =~= text@.take(n as int));
        if r {
            assert(prefix@.is_prefix_of(text@));
        } else if prefix@.is_prefix_of(text@) {
            assert(head@ =~= prefix@);
        }
    }
    r
}

/// Whether one of a list of items has a name.
fn names_contain(items: &Vec<Item>, name: &String) -> (r: bool)
    ensures
        r == has_name(item_views(items@), name@),
{
    let ghost views = item_views(items@);
    let mut k: usize = 0;
    while k < items.len()
        invariant
            k <= items@.len(),
            views == item_views(items@),
            forall|j: int| 0 <= j < k ==> (#[trigger] views[j]).name != name@,
        decreases items@.len() - k,
    {
        assert(views[k as int] == items@[k as int]@);
        if items[k].name == *name {
            return true;
        }
        k += 1;
    }
    false
}

/// Adds the parameters of an item that can still be named and have not been offered.
fn add_params(
    context: &ArgumentNameContext,
    item: &Item,
    params: &Vec<Param>,
    found: &mut Vec<Item>,
)
    ensures
        item_views(final(found)@) == with_params(
            context@,
            item_views(old(found)@),
            item@,
            param_views(params@),
            params@.len() as int,
        ),
{
    let ghost start = item_views(found@);
    let ghost views = param_views(params@);
    let mut k: usize = 0;
    while k < params.len()
        invariant
            k <= params@.len(),
            views == param_views(params@),
            item_views(found@) == with_params(context@, start, item@, views, k as int),
        decreases params@.len() - k,
    {
        let param = &params[k];
        assert(views[k as int] == param@);
        if k >= context.positional_count && text_starts_with(
            param.name.as_str(),
            context.prefix.as_str(),
        ) && !holds_text(&context.used_named_args, param.name.as_str()) && !names_contain(
            found,
            &param.name,
        ) {
            let ghost before = item_views(found@);
            let offer = Item::of_param(param, clone_text(&item.url), item.is_builtin);
            found.push(offer);
            assert(item_views(found@) =~= before.push(offer@));
        }
        k += 1;
    }
}

/// What is offered as the name of an argument.
fn argument_name_completion_items(
    store: &mut CodeStore,
    settings: &SearchSettings,
    env: &Environment,
    doc: &ParsedCode,
    context: &ArgumentNameContext,
) -> (offers: Vec<Item>)
    requires
        old(store).wf(),
        doc@.tree.wf(),
        doc@.tree.has(context.call as int),
    ensures
        final(store).wf(),
        argument_names(settings@, env@, old(store)@, doc@, context@) == (
            final(store)@,
            item_views(offers@),
        ),
{
    let mut offers: Vec<Item> = Vec::new();
    assert(item_views(offers@) =~= Seq::empty());
    let name: usize = match doc.tree.child_by_field(context.call, Field::Name) {
        Some(name) => name,
        None => {
            return offers;
        },
    };
    let filter = NameFilter::Named(doc.tree.node_text(doc.code.as_str(), name));
    let items = find_identities(store, settings, env, doc, &filter, context.call, true);
    let ghost views = item_views(items@);
    let mut k: usize = 0;
    while k < items.len()
        invariant
            k <= items@.len(),
            views == item_views(items@),
            item_views(offers@) == offered_params(context@, views, k as int),
        decreases items@.len() - k,
    {
        let item = &items[k];
        assert(views[k as int] == item@);
        match &item.kind {
            ItemKind::Module { params } => add_params(context, item, params, &mut offers),
            ItemKind::Function { params } => add_params(context, item, params, &mut offers),
            _ => {},
        }
        k += 1;
    }
    offers
}

/// Whether two items would be shown alike.
fn are_alike(a: &Item, b: &Item) -> (r: bool)
    ensures
        r == alike(a@, b@),
{
    let same: bool = match (&a.kind, &b.kind) {
        (ItemKind::Variable, ItemKind::Variable) => true,
        (ItemKind::Function { .. }, ItemKind::Function { .. }) => true,
        (ItemKind::Keyword, ItemKind::Keyword) => true,
        (ItemKind::Module { .. }, ItemKind::Module { .. }) => true,
        _ => false,
    };
    same && a.name == b.name
}

/// A list with each kind of item of a name once.
fn remove_doubles(items: Vec<Item>) -> (unique: Vec<Item>)
    ensures
        item_views(unique@) == without_doubles(item_views(items@)),
{
    let ghost views = item_views(items@);
    let mut unique: Vec<Item> = Vec::new();
    assert(views.take(0) =~= Seq::empty());
    assert(item_views(unique@) =~= without_doubles(views.take(0)));
    let mut i: usize = 0;
    while i < items.len()
        invariant
            i <= items@.len(),
            views == item_views(items@),
            item_views(unique@) == without_doubles(views.take(i as int)),
        decreases items@.len() - i,
    {
        let item = &items[i];
        let ghost earlier = item_views(unique@);
        proof {
            assert(views.take(i + 1).drop_last() =~= views.take(i as int));
            assert(views.take(i + 1).last() == item@);
        }
        let mut k: usize = 0;
        while k < unique.len() && !are_alike(&unique[k], item)
            invariant
                k <= unique@.len(),
                earlier == item_views(unique@),
                place_alike(earlier, item@, 0) == place_alike(earlier, item@, k as int),
            decreases unique@.len() - k,
        {
            assert(earlier[k as int] == unique@[k as int]@);
            k += 1;
        }
        if k < unique.len() {
            assert(earlier[k as int] == unique@[k as int]@);
            if unique[k].is_builtin && !item.is_builtin {
                let copy = item.clone();
                unique.set(k, copy);
                assert(item_views(unique@) =~= earlier.update(k as int, item@));
            }
        } else {
            let copy = item.clone();
            unique.push(copy);
            assert(item_views(unique@) =~= earlier.push(item@));
        }
        i += 1;
    }
    assert(views.take(items@.len() as int) =~= views);
    unique
}

/// Whether one of a list of items belongs to the language itself.
fn contains_builtin(items: &Vec<Item>) -> (r: bool)
    ensures
        r == has_builtin(item_views(items@)),
{
    let ghost views = item_views(items@);
    let mut k: usize = 0;
    while k < items.len()
        invariant
            k <= items@.len(),
            views == item_views(items@),
            forall|j: int| 0 <= j < k ==> !(#[trigger] views[j]).is_builtin,
        decreases items@.len() - k,
    {
        assert(views[k as int] == items@[k as int]@);
        if items[k].is_builtin {
            return true;
        }
        k += 1;
    }
    false
}

/// The path of an `include` or `use` that a completion is about, if it is about one.
fn find_completed_path(tree: &SyntaxTree, start: usize) -> (path: Option<usize>)
    requires
        tree@.wf(),
        tree@.has(start as int),
    ensures
        node_index(path) == completed_path(tree@, start as int),
        path is Some ==> tree@.has(path->0 as int),
{
    if tree.kind(start) == NodeKind::IncludePath {
        return Some(start);
    }
    let mut node: usize = start;
    loop
        invariant
            tree@.wf(),
            tree@.has(node as int),
            !(tree@.kind(start as int) is IncludePath),
            path_above(tree@, start as int) == path_above(tree@, node as int),
        decreases node,
    {
        match tree.parent(node) {
            Some(parent) => {
                if tree.kind(parent).is_dependency_statement() {
                    return tree.child(parent, 1);
                }
                node = parent;
            },
            None => {
                return None;
            },
        }
    }
}

/// How items are offered.
fn show_items(items: Vec<Item>, include_defaults: bool) -> (offers: Vec<CompletionItem>)
    ensures
        completion_item_views(offers@) == item_views(items@).map_values(
            |item: ItemView| shown(item, include_defaults),
        ),
{
    let ghost views = item_views(items@);
    let mut items = items;
    let mut offers: Vec<CompletionItem> = Vec::new();
    let mut k: usize = 0;
    while k < items.len()
        invariant
            k <= items@.len(),
            views == item_views(items@),
            offers@.len() == k,
            forall|j: int|
                0 <= j < k ==> (#[trigger] offers@[j])@ == shown(views[j], include_defaults),
        decreases items@.len() - k,
    {
        let mut item: Item = items[k].clone();
        assert(views[k as int] == item@);
        let label = item.name.clone();
        let insert_text = item.completion_text();
        let kind = item.kind.completion_kind();
        let filter_text = item.name.clone();
        let detail = item.signature(include_defaults);
        let hover = item.get_hover();
        let documentation: Option<String> = if trim(hover.as_str()).unicode_len() == 0 {
            None
        } else {
            Some(hover)
        };
        let offer = CompletionItem { label, kind, insert_text, filter_text, detail, documentation };
        assert(offer@ =~= shown(views[k as int], include_defaults));
        offers.push(offer);
        k += 1;
    }
    assert(completion_item_views(offers@) =~= views.map_values(
        |item: ItemView| shown(item, include_defaults),
    ));
    offers
}

/// The directory part of the path of a file that is being typed: all up to its last slash.
pub open spec fn directory_part(include_path: Seq<char>) -> Seq<char> {
    let typed = bare_path(include_path);
    typed.take(typed.len() - last_component(typed).len())
}

/// The directory part of the path of a file that is being typed.
pub fn typed_directory(include_path: &str) -> (directory: String)
    ensures
        directory@ == directory_part(include_path@),
{
    let typed = strip_path(include_path);
    let name = last_part(typed);
    proof {
        lemma_last_component(typed@);
    }
    let end: usize = typed.unicode_len() - name.unicode_len();
    assert(typed@.subrange(0, end as int) =~= typed@.take(end as int));
    typed.substring_char(0, end).to_owned()
}

/// The addresses of the directories that a path that is being typed leads to so far: beside the
/// document, and in the libraries.
pub open spec fn directory_places(
    url: Seq<char>,
    libraries: Seq<Seq<char>>,
    directory: Seq<char>,
) -> Seq<Seq<char>> {
    below(
        seq![url] + libraries,
        if directory.len() == 0 {
            "."@
        } else {
            directory
        },
    )
}

/// The addresses of the directories that a path that is being typed leads to so far.
pub fn find_directories(url: &str, libraries: &Vec<String>, directory: &str) -> (places: Vec<String>)
    ensures
        texts(places@) == directory_places(url@, texts(libraries@), directory@),
{
    if directory.unicode_len() == 0 {
        find_below(url, ".", libraries)
    } else {
        find_below(url, directory, libraries)
    }
}

/// What is offered for an entry of the directory of a path that is being typed: a directory with a
/// slash behind it, a file of the language as it is, and no other file.
pub open spec fn offered_entry(
    directory: Seq<char>,
    name: Seq<char>,
    is_directory: bool,
) -> Option<Seq<char>> {
    if is_directory {
        Some(directory + name + "/"@)
    } else if ".scad"@.is_suffix_of(name) {
        Some(directory + name)
    } else {
        None
    }
}

/// What is offered for an entry of the directory of a path that is being typed.
pub fn entry_offer(directory: &str, name: &str, is_directory: bool) -> (offer: Option<String>)
    ensures
        text_of(offer) == offered_entry(directory@, name@, is_directory),
{
    let mut offer: String = directory.to_owned();
    offer.append(name);
    if is_directory {
        offer.append("/");
        return Some(offer);
    }
    let n: usize = name.unicode_len();
    proof {
        reveal_strlit(".scad");
    }
    if n < 5 {
        return None;
    }
    let end = name.substring_char(n - 5, n);
    let r: bool = same_text(end, ".scad");
    proof {
        if r {
            assert(".scad"@.is_suffix_of(name@));
        } else if ".scad"@.is_suffix_of(name@) {
            assert(end@ =~= ".scad"@);
        }
    }
    if r {
        Some(offer)
    } else {
        None
    }
}

/// How a file is offered that goes on from the path that was typed.
pub open spec fn shown_file(name: Seq<char>, include_path: Seq<char>) -> CompletionItemView {
    CompletionItemView {
        label: name,
        kind: CompletionKind::File,
        insert_text: name,
        filter_text: include_path,
        detail: None,
        documentation: None,
    }
}

/// How files are offered that go on from the path that was typed.
pub fn show_files(names: Vec<String>, include_path: &str) -> (offers: Vec<CompletionItem>)
    ensures
        completion_item_views(offers@) == texts(names@).map_values(
            |name: Seq<char>| shown_file(name, include_path@),
        ),
{
    let ghost views = texts(names@);
    let mut offers: Vec<CompletionItem> = Vec::new();
    let mut k: usize = 0;
    while k < names.len()
        invariant
            k <= names@.len(),
            views == texts(names@),
            offers@.len() == k,
            forall|j: int|
                0 <= j < k ==> (#[trigger] offers@[j])@ == shown_file(views[j], include_path@),
        decreases names@.len() - k,
    {
        let offer = CompletionItem {
            label: names[k].clone(),
            kind: CompletionKind::File,
            insert_text: names[k].clone(),
            filter_text: include_path.to_owned(),
            detail: None,
            documentation: None,
        };
        assert(offer@ =~= shown_file(views[k as int], include_path@));
        offers.push(offer);
        k += 1;
    }
    assert(completion_item_views(offers@) =~= views.map_values(
        |name: Seq<char>| shown_file(name, include_path@),
    ));
    offers
}

/// The items that are offered at a position.
fn find_offers(
    store: &mut CodeStore,
    settings: &SearchSettings,
    env: &Environment,
    doc: &ParsedCode,
    node: usize,
    position: Position,
) -> (items: Vec<Item>)
    requires
        old(store).wf(),
        doc@.tree.wf(),
        doc@.tree.has(node as int),
        node == completion_node(doc@.tree, position),
    ensures
        final(store).wf(),
        offered_items(settings@, env@, old(store)@, doc@, position) == (
            final(store)@,
            item_views(items@),
        ),
{
    let offset: usize = match find_offset(doc.code.as_str(), position) {
        Some(offset) => offset,
        None => doc.code.as_str().as_bytes().len(),
    };
    match argument_name_completion_context(doc.code.as_str(), &doc.tree, node, offset) {
        Some(context) => {
            let items = argument_name_completion_items(store, settings, env, doc, &context);
            remove_doubles(items)
        },
        None => {
            let mut items = find_identities(
                store,
                settings,
                env,
                doc,
                &NameFilter::Any,
                node,
                true,
            );
            if !contains_builtin(&items) {
                let ghost before = item_views(items@);
                let ghost held = store@;
                let mut more: Vec<Item> = match open_document(
                    store,
                    settings.builtin_url.as_str(),
                    env,
                ) {
                    Some(builtin) => match &builtin.root_items {
                        Some(items) => clone_items(items),
                        None => Vec::new(),
                    },
                    None => Vec::new(),
                };
                let ghost added = item_views(more@);
                proof {
                    assert(added =~= (match opened(held, settings.builtin_url@, env@) {
                        Some(builtin) => listed(builtin.root_items),
                        None => Seq::empty(),
                    }));
                }
                items.append(&mut more);
                assert(item_views(items@) =~= before + added);
            }
            remove_doubles(items)
        },
    }
}

/// What is offered at a position of a document; nothing where the document cannot be read.
pub fn handle_completion(
    store: &mut CodeStore,
    settings: &SearchSettings,
    env: &Environment,
    url: &str,
    position: Position,
    include_defaults: bool,
) -> (completion: Option<Completion>)
    requires
        old(store).wf(),
    ensures
        final(store).wf(),
        ({
            let (after, offered) = completed(
                settings@,
                env@,
                old(store)@,
                url@,
                position,
                include_defaults,
            );
            after == final(store)@ && match completion {
                Some(completion) => offered == Some(completion@),
                None => offered is None,
            }
        }),
{
    let doc: ParsedCode = match open_document(store, url, env) {
        Some(doc) => doc,
        None => {
            return None;
        },
    };
    let mut node: usize = doc.tree.node_at(position);
    if doc.tree.kind(node) == NodeKind::SourceFile && position.character > 0 {
        node =
        doc.tree.node_at(Position { line: position.line, character: position.character - 1 });
    }
    let items = find_offers(store, settings, env, &doc, node, position);
    match find_completed_path(&doc.tree, node) {
        Some(path) => Some(
            Completion::Files { include_path: doc.tree.node_text(doc.code.as_str(), path) },
        ),
        None => Some(Completion::Items(show_items(items, include_defaults))),
    }
}

/// What [`place_alike`] finds is the first item that is like another.
proof fn lemma_place_alike(items: Seq<ItemView>, item: ItemView, k: int)
    requires
        0 <= k,
    ensures
        match place_alike(items, item, k) {
            Some(i) => k <= i < items.len() && alike(items[i], item),
            None => forall|j: int| k <= j < items.len() ==> !alike(#[trigger] items[j], item),
        },
    decreases items.len() - k,
{
    if k < items.len() && !alike(items[k], item) {
        lemma_place_alike(items, item, k + 1);
    }
}

/// A list without doubles holds no two items that are alike.
pub proof fn law_no_two_alike(items: Seq<ItemView>)
    ensures
        forall|i: int, j: int|
            0 <= i < j < without_doubles(items).len() ==> !alike(
                #[trigger] without_doubles(items)[i],
                #[trigger] without_doubles(items)[j],
            ),
    decreases items.len(),
{
    if items.len() > 0 {
        let earlier = without_doubles(items.drop_last());
        let now = without_doubles(items);
        let item = items.last();
        law_no_two_alike(items.drop_last());
        lemma_place_alike(earlier, item, 0);
        assert forall|i: int, j: int| 0 <= i < j < now.len() implies !alike(
            #[trigger] now[i],
            #[trigger] now[j],
        ) by {
            match place_alike(earlier, item, 0) {
                Some(k) => {
                    assert(!alike(earlier[i], earlier[j]));
                },
                None => {
                    if j < earlier.len() {
                        assert(!alike(earlier[i], earlier[j]));
                    } else {
                        assert(!alike(earlier[i], item));
                    }
                },
            }
        }
    }
}

/// Whether the item at a place of a list is like another one, and belongs to the language itself
/// only where that does too.
pub open spec fn stands_for(list: Seq<ItemView>, item: ItemView, i: int) -> bool {
    0 <= i < list.len() && alike(list[i], item) && (list[i].is_builtin ==> item.is_builtin)
}

/// A list without doubles holds items of the list alone.
pub proof fn law_offers_are_items(items: Seq<ItemView>, i: int)
    requires
        0 <= i < without_doubles(items).len(),
    ensures
        items.contains(without_doubles(items)[i]),
    decreases items.len(),
{
    if items.len() > 0 {
        let rest = items.drop_last();
        let earlier = without_doubles(rest);
        let now = without_doubles(items);
        lemma_place_alike(earlier, items.last(), 0);
        assert(items[items.len() - 1] == items.last());
        if now[i] != items.last() {
            law_offers_are_items(rest, i);
            let j = choose|j: int| 0 <= j < rest.len() && rest[j] == earlier[i];
            assert(items[j] == now[i]);
        }
    }
}

/// A list without doubles holds for each item of the list one that is like it; what belongs to the
/// language itself stands for another only where that does too.
pub proof fn law_each_is_offered(items: Seq<ItemView>, k: int)
    requires
        0 <= k < items.len(),
    ensures
        exists|i: int| stands_for(without_doubles(items), items[k], i),
    decreases items.len(),
{
    let rest = items.drop_last();
    let earlier = without_doubles(rest);
    let now = without_doubles(items);
    let item = items.last();
    lemma_place_alike(earlier, item, 0);
    if k < rest.len() {
        law_each_is_offered(rest, k);
        assert(rest[k] == items[k]);
        let i = choose|i: int| stands_for(earlier, items[k], i);
        assert(stands_for(now, items[k], i));
    } else {
        match place_alike(earlier, item, 0) {
            Some(i) => {
                assert(stands_for(now, items[k], i));
            },
            None => {
                assert(stands_for(now, items[k], earlier.len() as int));
            },
        }
    }
}

/// The names of arguments that are offered go on from what was typed, are not used yet, and come
/// once each.
pub proof fn law_offered_names(context: NameContextView, items: Seq<ItemView>, k: int)
    requires
        k <= items.len(),
    ensures
        forall|i: int|
            0 <= i < offered_params(context, items, k).len() ==> starts_with(
                (#[trigger] offered_params(context, items, k)[i]).name,
                context.prefix,
            ) && !context.used.contains(offered_params(context, items, k)[i].name),
        forall|i: int, j: int|
            0 <= i < j < offered_params(context, items, k).len() ==> (#[trigger] offered_params(
                context,
                items,
                k,
            )[i]).name != (#[trigger] offered_params(context, items, k)[j]).name,
    decreases k,
{
    if k > 0 {
        law_offered_names(context, items, k - 1);
        match items[k - 1].kind.params() {
            Some(params) => {
                lemma_offered_names(
                    context,
                    offered_params(context, items, k - 1),
                    items[k - 1],
                    params,
                    params.len() as int,
                );
            },
            None => {},
        }
    }
}

/// Adding the parameters of an item keeps what holds of names that are offered.
proof fn lemma_offered_names(
    context: NameContextView,
    so_far: Seq<ItemView>,
    item: ItemView,
    params: Seq<ParamView>,
    k: int,
)
    requires
        k <= params.len(),
        forall|i: int|
            0 <= i < so_far.len() ==> starts_with((#[trigger] so_far[i]).name, context.prefix)
                && !context.used.contains(so_far[i].name),
        forall|i: int, j: int|
            0 <= i < j < so_far.len() ==> (#[trigger] so_far[i]).name != (#[trigger] so_far[j]).name,
    ensures
        forall|i: int|
            0 <= i < with_params(context, so_far, item, params, k).len() ==> starts_with(
                (#[trigger] with_params(context, so_far, item, params, k)[i]).name,
                context.prefix,
            ) && !context.used.contains(with_params(context, so_far, item, params, k)[i].name),
        forall|i: int, j: int|
            0 <= i < j < with_params(context, so_far, item, params, k).len() ==> (
            #[trigger] with_params(context, so_far, item, params, k)[i]).name != (
            #[trigger] with_params(context, so_far, item, params, k)[j]).name,
    decreases k,
{
    if k > 0 {
        lemma_offered_names(context, so_far, item, params, k - 1);
        let earlier = with_params(context, so_far, item, params, k - 1);
        let now = with_params(context, so_far, item, params, k);
        if now.len() > earlier.len() {
            assert forall|i: int, j: int| 0 <= i < j < now.len() implies (#[trigger] now[i]).name != (
            #[trigger] now[j]).name by {
                if j == earlier.len() {
                    assert(earlier[i].name != params[k - 1].name);
                } else {
                    assert(earlier[i].name != earlier[j].name);
                }
            }
            assert forall|i: int| 0 <= i < now.len() implies starts_with(
                (#[trigger] now[i]).name,
                context.prefix,
            ) && !context.used.contains(now[i].name) by {
                if i < earlier.len() {
                    assert(now[i] == earlier[i]);
                }
            }
        }
    }
}

} // verus!
