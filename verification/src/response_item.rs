use vstd::prelude::*;
use vstd::string::*;

use crate::kinds::{Field, NodeKind};
use crate::position::Range;
use crate::syntax::{text_of, SyntaxTree, Tree};
use crate::text::{joined, trim, trimmed};

verus! {

/// A parameter of a module or a function.
#[derive(Debug)]
pub struct Param {
    pub name: String,
    pub default: Option<String>,
    pub range: Range,
}

/// The model of a [`Param`].
#[verifier::ext_equal]
pub struct ParamView {
    pub name: Seq<char>,
    pub default: Option<Seq<char>>,
    pub range: Range,
}

impl View for Param {
    type V = ParamView;

    open spec fn view(&self) -> ParamView {
        ParamView { name: self.name@, default: text_of(self.default), range: self.range }
    }
}

/// The models of a list of parameters.
pub open spec fn param_views(params: Seq<Param>) -> Seq<ParamView> {
    params.map_values(|p: Param| p@)
}

/// The parameter that a `parameter` node declares, if any: a plain name, or a name with a
/// default value.
pub open spec fn param_of(code: Seq<char>, tree: Tree, node: int) -> Option<ParamView> {
    if !(tree.kind(node) is Parameter) {
        None
    } else {
        match tree.child(node, 0) {
            None => None,
            Some(child) => if tree.kind(child) is Identifier {
                Some(
                    ParamView {
                        name: tree.node_text(code, child),
                        default: None,
                        range: tree.range(child),
                    },
                )
            } else if tree.kind(child) is Assignment {
                match (
                    tree.child_by_field(child, Field::Name),
                    tree.child_by_field(child, Field::Value),
                ) {
                    (Some(left), Some(right)) => Some(
                        ParamView {
                            name: tree.node_text(code, left),
                            default: Some(trimmed(tree.node_text(code, right))),
                            range: tree.range(left),
                        },
                    ),
                    _ => None,
                }
            } else {
                None
            },
        }
    }
}

/// The parameters that a list of nodes declares.
pub open spec fn params_of(code: Seq<char>, tree: Tree, nodes: Seq<int>) -> Seq<ParamView>
    decreases nodes.len(),
{
    if nodes.len() == 0 {
        Seq::empty()
    } else {
        let earlier = params_of(code, tree, nodes.drop_last());
        match param_of(code, tree, nodes.last()) {
            Some(param) => earlier.push(param),
            None => earlier,
        }
    }
}

/// The text that a parameter list shows for a parameter.
pub open spec fn param_text(param: ParamView, include_defaults: bool) -> Seq<char> {
    match param.default {
        Some(default) => if include_defaults {
            param.name + "="@ + default
        } else {
            param.name
        },
        None => param.name,
    }
}

/// The texts that a parameter list shows for its parameters.
pub open spec fn param_texts(params: Seq<ParamView>, include_defaults: bool) -> Seq<Seq<char>> {
    params.map_values(|p: ParamView| param_text(p, include_defaults))
}

/// The text of a parameter list.
pub open spec fn params_text(params: Seq<ParamView>, include_defaults: bool) -> Seq<char> {
    joined(param_texts(params, include_defaults), ","@)
}

impl Clone for Param {
    fn clone(&self) -> (copy: Self)
        ensures
            copy@ == self@,
    {
        Param {
            name: self.name.clone(),
            default: clone_text(&self.default),
            range: self.range,
        }
    }
}

/// A copy of an optional text.
pub fn clone_text(text: &Option<String>) -> (copy: Option<String>)
    ensures
        text_of(copy) == text_of(*text),
{
    match text {
        Some(t) => Some(t.clone()),
        None => None,
    }
}

/// A copy of a list of parameters.
pub fn clone_params(params: &Vec<Param>) -> (copy: Vec<Param>)
    ensures
        param_views(copy@) == param_views(params@),
{
    let mut copy: Vec<Param> = Vec::new();
    let mut i: usize = 0;
    while i < params.len()
        invariant
            i <= params@.len(),
            copy@.len() == i,
            forall|j: int| 0 <= j < i ==> (#[trigger] copy@[j])@ == params@[j]@,
        decreases params@.len() - i,
    {
        copy.push(params[i].clone());
        i += 1;
    }
    assert(param_views(copy@) =~= param_views(params@));
    copy
}

impl Param {
    /// The parameter that a node declares, if any.
    fn parse_parameter(code: &str, tree: &SyntaxTree, node: usize) -> (param: Option<Param>)
        requires
            tree@.wf(),
            tree@.has(node as int),
        ensures
            match param {
                Some(p) => param_of(code@, tree@, node as int) == Some(p@),
                None => param_of(code@, tree@, node as int) is None,
            },
    {
        if tree.kind(node) != NodeKind::Parameter {
            return None;
        }
        let child: usize = match tree.child(node, 0) {
            Some(child) => child,
            None => {
                return None;
            },
        };
        match tree.kind(child) {
            NodeKind::Identifier => Some(
                Param {
                    name: tree.node_text(code, child),
                    default: None,
                    range: tree.range(child),
                },
            ),
            NodeKind::Assignment => {
                let left = tree.child_by_field(child, Field::Name);
                let right = tree.child_by_field(child, Field::Value);
                match (left, right) {
                    (Some(left), Some(right)) => Some(
                        Param {
                            name: tree.node_text(code, left),
                            default: Some(trim(tree.node_text(code, right).as_str()).to_owned()),
                            range: tree.range(left),
                        },
                    ),
                    _ => None,
                }
            },
            _ => None,
        }
    }

    /// The parameters that the children of a node declare, in order. A `parameter` node without
    /// children declares none.
    pub fn parse_declaration(code: &str, tree: &SyntaxTree, node: usize) -> (params: Vec<Param>)
        requires
            tree@.wf(),
            tree@.has(node as int),
        ensures
            param_views(params@) == params_of(code@, tree@, tree@.children(node as int)),
    {
        let mut params: Vec<Param> = Vec::new();
        let ghost all = tree@.children(node as int);
        let count: usize = tree.node(node).children.len();
        assert(all.take(0) =~= Seq::<int>::empty());
        assert(param_views(params@) =~= Seq::<ParamView>::empty());
        let mut k: usize = 0;
        while k < count
            invariant
                k <= count,
                count == all.len(),
                tree@.wf(),
                tree@.has(node as int),
                all == tree@.children(node as int),
                param_views(params@) == params_of(code@, tree@, all.take(k as int)),
            decreases count - k,
        {
            let child: usize = tree.node(node).children[k];
            let ghost before = params@;
            proof {
                tree@.lemma_child(node as int, k as int);
                assert(all[k as int] == child);
                assert(all.take(k + 1).drop_last() =~= all.take(k as int));
            }
            match Param::parse_parameter(code, tree, child) {
                Some(param) => {
                    params.push(param);
                    assert(param_views(params@) =~= param_views(before).push(param@));
                },
                None => {},
            }
            k += 1;
        }
        assert(all.take(count as int) =~= all);
        params
    }

    /// The text of one parameter in a parameter list.
    fn format_param(&self, include_defaults: bool) -> (text: String)
        ensures
            text@ == param_text(self@, include_defaults),
    {
        let mut text = self.name.clone();
        if include_defaults {
            match &self.default {
                Some(default) => {
                    text.append("=");
                    text.append(default.as_str());
                },
                None => {},
            }
        }
        text
    }

    /// The text of a parameter list: the parameters, with their defaults if asked for, separated
    /// by commas.
    pub fn format_params(params: &Vec<Param>, include_defaults: bool) -> (text: String)
        ensures
            text@ == params_text(param_views(params@), include_defaults),
    {
        let mut text = String::new();
        let ghost parts = param_texts(param_views(params@), include_defaults);
        assert(parts.take(0) =~= Seq::<Seq<char>>::empty());
        let mut i: usize = 0;
        while i < params.len()
            invariant
                i <= params@.len(),
                parts == param_texts(param_views(params@), include_defaults),
                text@ == joined(parts.take(i as int), ","@),
            decreases params@.len() - i,
        {
            let part = params[i].format_param(include_defaults);
            proof {
                assert(parts[i as int] == part@);
                assert(parts.take(i + 1).drop_last() =~= parts.take(i as int));
                assert(parts.take(i + 1).last() == part@);
            }
            if i > 0 {
                text.append(",");
                text.append(part.as_str());
            } else {
                text = part;
            }
            i += 1;
        }
        assert(parts.take(params@.len() as int) =~= parts);
        text
    }
}

/// What a name stands for.
#[derive(Debug)]
pub enum ItemKind {
    Variable,
    Function { params: Vec<Param> },
    Keyword,
    Module { params: Vec<Param> },
}

/// The model of an [`ItemKind`].
#[verifier::ext_equal]
pub enum ItemKindView {
    Variable,
    Function { params: Seq<ParamView> },
    Keyword,
    Module { params: Seq<ParamView> },
}

impl View for ItemKind {
    type V = ItemKindView;

    open spec fn view(&self) -> ItemKindView {
        match self {
            ItemKind::Variable => ItemKindView::Variable,
            ItemKind::Function { params } => ItemKindView::Function { params: param_views(params@) },
            ItemKind::Keyword => ItemKindView::Keyword,
            ItemKind::Module { params } => ItemKindView::Module { params: param_views(params@) },
        }
    }
}

impl ItemKindView {
    /// Whether items of this kind can be called.
    pub open spec fn callable(self) -> bool {
        self is Function || self is Module
    }

    /// The kind under which an item of this kind is offered.
    pub open spec fn completion(self) -> CompletionKind {
        match self {
            ItemKindView::Variable => CompletionKind::Variable,
            ItemKindView::Function { .. } => CompletionKind::Function,
            ItemKindView::Keyword => CompletionKind::Keyword,
            ItemKindView::Module { .. } => CompletionKind::Module,
        }
    }

    /// The kind under which an item of this kind is listed.
    pub open spec fn symbol(self) -> SymbolKind {
        match self {
            ItemKindView::Function { .. } => SymbolKind::Function,
            ItemKindView::Module { .. } => SymbolKind::Module,
            ItemKindView::Variable => SymbolKind::Variable,
            ItemKindView::Keyword => SymbolKind::Key,
        }
    }

    /// The parameters of what can be called.
    pub open spec fn params(self) -> Option<Seq<ParamView>> {
        match self {
            ItemKindView::Function { params } => Some(params),
            ItemKindView::Module { params } => Some(params),
            _ => None,
        }
    }
}

/// The icon of an entry in a completion list.
#[derive(Clone, Copy, Debug, PartialEq, Eq, Structural)]
pub enum CompletionKind {
    Variable,
    Function,
    Keyword,
    Module,
    File,
}

/// The icon of an entry in a symbol list.
#[derive(Clone, Copy, Debug, PartialEq, Eq, Structural)]
pub enum SymbolKind {
    Function,
    Module,
    Variable,
    Key,
}

impl Clone for ItemKind {
    fn clone(&self) -> (copy: Self)
        ensures
            copy@ == self@,
    {
        match self {
            ItemKind::Variable => ItemKind::Variable,
            ItemKind::Function { params } => ItemKind::Function { params: clone_params(params) },
            ItemKind::Keyword => ItemKind::Keyword,
            ItemKind::Module { params } => ItemKind::Module { params: clone_params(params) },
        }
    }
}

impl ItemKind {
    /// The icon of items of this kind in a completion list.
    pub fn completion_kind(&self) -> (kind: CompletionKind)
        ensures
            kind == self@.completion(),
    {
        match self {
            ItemKind::Variable => CompletionKind::Variable,
            ItemKind::Function { .. } => CompletionKind::Function,
            ItemKind::Keyword => CompletionKind::Keyword,
            ItemKind::Module { .. } => CompletionKind::Module,
        }
    }

    /// Whether items of this kind can be called.
    pub fn is_callable(&self) -> (r: bool)
        ensures
            r == self@.callable(),
    {
        match self {
            ItemKind::Function { .. } | ItemKind::Module { .. } => true,
            _ => false,
        }
    }
}

/// A named thing that a document declares or the language knows.
#[derive(Debug)]
pub struct Item {
    pub name: String,
    pub kind: ItemKind,
    pub range: Range,
    /// The document that declares the item; what the language knows has none.
    pub url: Option<String>,
    pub is_builtin: bool,
    pub is_top_level: bool,
    pub doc: Option<String>,
    pub hover: Option<String>,
    pub label: Option<String>,
}

/// The model of an [`Item`].
#[verifier::ext_equal]
pub struct ItemView {
    pub name: Seq<char>,
    pub kind: ItemKindView,
    pub range: Range,
    pub url: Option<Seq<char>>,
    pub is_builtin: bool,
    pub is_top_level: bool,
    pub doc: Option<Seq<char>>,
    pub hover: Option<Seq<char>>,
    pub label: Option<Seq<char>>,
}

impl View for Item {
    type V = ItemView;

    open spec fn view(&self) -> ItemView {
        ItemView {
            name: self.name@,
            kind: self.kind@,
            range: self.range,
            url: text_of(self.url),
            is_builtin: self.is_builtin,
            is_top_level: self.is_top_level,
            doc: text_of(self.doc),
            hover: text_of(self.hover),
            label: text_of(self.label),
        }
    }
}

/// The models of a list of items.
pub open spec fn item_views(items: Seq<Item>) -> Seq<ItemView> {
    items.map_values(|i: Item| i@)
}

impl ItemView {
    /// An item of which only the name, the kind and the range are known.
    pub open spec fn bare(name: Seq<char>, kind: ItemKindView, range: Range) -> ItemView {
        ItemView {
            name,
            kind,
            range,
            url: None,
            is_builtin: false,
            is_top_level: false,
            doc: None,
            hover: None,
            label: None,
        }
    }

    /// The variable that a parameter is inside its module or function.
    pub open spec fn of_param(param: ParamView, url: Option<Seq<char>>, is_builtin: bool) -> ItemView {
        ItemView {
            url,
            is_builtin,
            ..ItemView::bare(param.name, ItemKindView::Variable, param.range)
        }
    }

    /// The parameters that the `parameters` child of a declaration lists.
    pub open spec fn declared_params(code: Seq<char>, tree: Tree, node: int) -> Seq<ParamView> {
        match tree.child_by_field(node, Field::Parameters) {
            Some(params) => params_of(code, tree, tree.children(params)),
            None => Seq::empty(),
        }
    }

    /// The item that a node declares, if any.
    pub open spec fn parse(code: Seq<char>, tree: Tree, node: int) -> Option<ItemView> {
        match tree.kind(node) {
            NodeKind::ModuleItem => match tree.child_by_field(node, Field::Name) {
                Some(name) => Some(
                    ItemView::bare(
                        tree.node_text(code, name),
                        ItemKindView::Module {
                            params: ItemView::declared_params(code, tree, node),
                        },
                        tree.range(node),
                    ),
                ),
                None => None,
            },
            NodeKind::FunctionItem => match tree.child_by_field(node, Field::Name) {
                Some(name) => Some(
                    ItemView::bare(
                        tree.node_text(code, name),
                        ItemKindView::Function {
                            params: ItemView::declared_params(code, tree, node),
                        },
                        tree.range(node),
                    ),
                ),
                None => None,
            },
            NodeKind::VarDeclaration => match tree.first_named_child(node) {
                Some(assignment) => match tree.child_by_field(assignment, Field::Name) {
                    Some(name) => Some(
                        ItemView::bare(
                            tree.node_text(code, name),
                            ItemKindView::Variable,
                            tree.range(assignment),
                        ),
                    ),
                    None => None,
                },
                None => None,
            },
            _ => None,
        }
    }

    /// How an item is written: its name, and its parameters if it can be called.
    pub open spec fn made_label(self) -> Seq<char> {
        match self.kind.params() {
            Some(params) => self.name + "("@ + params_text(params, true) + ")"@,
            None => self.name,
        }
    }

    /// The documentation of an item: how it is written, then what is said of it.
    pub open spec fn made_hover(self) -> Seq<char> {
        let label = match self.label {
            Some(label) => label,
            None => self.made_label(),
        };
        let head = match self.kind {
            ItemKindView::Function { .. } => "```scad\nfunction "@ + label + "\n```"@,
            ItemKindView::Module { .. } => "```scad\nmodule "@ + label + "\n```"@,
            _ => "```scad\n"@ + label + "\n```"@,
        };
        match self.doc {
            Some(doc) => if self.is_builtin {
                head + "\n---\n\n"@ + doc + "\n"@
            } else {
                head + "\n---\n\n<pre>\n"@ + doc + "\n</pre>\n"@
            },
            None => head,
        }
    }

    /// The documentation that is shown: the one that was made before, if any.
    pub open spec fn shown_hover(self) -> Seq<char> {
        match self.hover {
            Some(hover) => hover,
            None => self.made_hover(),
        }
    }

    /// The signature of what can be called.
    pub open spec fn made_signature(self, include_defaults: bool) -> Option<Seq<char>> {
        match self.kind.params() {
            Some(params) => if include_defaults {
                Some(self.name + "("@ + params_text(params, true) + ")"@)
            } else {
                Some(self.name)
            },
            None => None,
        }
    }
}

impl Clone for Item {
    fn clone(&self) -> (copy: Self)
        ensures
            copy@ == self@,
    {
        Item {
            name: self.name.clone(),
            kind: self.kind.clone(),
            range: self.range,
            url: clone_text(&self.url),
            is_builtin: self.is_builtin,
            is_top_level: self.is_top_level,
            doc: clone_text(&self.doc),
            hover: clone_text(&self.hover),
            label: clone_text(&self.label),
        }
    }
}

/// A copy of a list of items.
pub fn clone_items(items: &Vec<Item>) -> (copy: Vec<Item>)
    ensures
        item_views(copy@) == item_views(items@),
{
    let mut copy: Vec<Item> = Vec::new();
    let mut i: usize = 0;
    while i < items.len()
        invariant
            i <= items@.len(),
            copy@.len() == i,
            forall|j: int| 0 <= j < i ==> (#[trigger] copy@[j])@ == items@[j]@,
        decreases items@.len() - i,
    {
        copy.push(items[i].clone());
        i += 1;
    }
    assert(item_views(copy@) =~= item_views(items@));
    copy
}

impl Item {
    /// An item of which only the name, the kind and the range are known.
    pub fn bare(name: String, kind: ItemKind, range: Range) -> (item: Item)
        ensures
            item@ == ItemView::bare(name@, kind@, range),
    {
        Item {
            name,
            kind,
            range,
            url: None,
            is_builtin: false,
            is_top_level: false,
            doc: None,
            hover: None,
            label: None,
        }
    }

    /// The variable that a parameter is inside its module or function.
    pub fn of_param(param: &Param, url: Option<String>, is_builtin: bool) -> (item: Item)
        ensures
            item@ == ItemView::of_param(param@, text_of(url), is_builtin),
    {
        Item {
            url,
            is_builtin,
            ..Item::bare(param.name.clone(), ItemKind::Variable, param.range)
        }
    }

    /// The parameters that the `parameters` child of a declaration lists.
    fn declared_params(code: &str, tree: &SyntaxTree, node: usize) -> (params: Vec<Param>)
        requires
            tree@.wf(),
            tree@.has(node as int),
        ensures
            param_views(params@) == ItemView::declared_params(code@, tree@, node as int),
    {
        match tree.child_by_field(node, Field::Parameters) {
            Some(params) => Param::parse_declaration(code, tree, params),
            None => {
                let params: Vec<Param> = Vec::new();
                assert(param_views(params@) =~= Seq::<ParamView>::empty());
                params
            },
        }
    }

    /// The item that a node declares: a module, a function or a variable.
    pub fn parse(code: &str, tree: &SyntaxTree, node: usize) -> (item: Option<Item>)
        requires
            tree@.wf(),
            tree@.has(node as int),
        ensures
            match item {
                Some(i) => ItemView::parse(code@, tree@, node as int) == Some(i@),
                None => ItemView::parse(code@, tree@, node as int) is None,
            },
    {
        match tree.kind(node) {
            NodeKind::ModuleItem => match tree.child_by_field(node, Field::Name) {
                Some(name) => Some(
                    Item::bare(
                        tree.node_text(code, name),
                        ItemKind::Module { params: Item::declared_params(code, tree, node) },
                        tree.range(node),
                    ),
                ),
                None => None,
            },
            NodeKind::FunctionItem => match tree.child_by_field(node, Field::Name) {
                Some(name) => Some(
                    Item::bare(
                        tree.node_text(code, name),
                        ItemKind::Function { params: Item::declared_params(code, tree, node) },
                        tree.range(node),
                    ),
                ),
                None => None,
            },
            NodeKind::VarDeclaration => match tree.first_named_child(node) {
                Some(assignment) => match tree.child_by_field(assignment, Field::Name) {
                    Some(name) => Some(
                        Item::bare(
                            tree.node_text(code, name),
                            ItemKind::Variable,
                            tree.range(assignment),
                        ),
                    ),
                    None => None,
                },
                None => None,
            },
            _ => None,
        }
    }

    /// The documentation of the item, which is made once and then kept.
    pub fn get_hover(&mut self) -> (hover: String)
        ensures
            hover@ == old(self)@.shown_hover(),
            final(self)@ == (ItemView { hover: Some(hover@), ..old(self)@ }),
    {
        match &self.hover {
            Some(hover) => {
                return hover.clone();
            },
            None => {},
        }
        let hover = self.make_hover();
        self.hover = Some(hover.clone());
        hover
    }

    /// The text that a completion inserts.
    pub fn completion_text(&self) -> (text: String)
        ensures
            text@ == self@.name,
    {
        self.name.clone()
    }

    /// Makes the documentation of the item.
    pub fn make_hover(&self) -> (hover: String)
        ensures
            hover@ == self@.made_hover(),
    {
        let label = match &self.label {
            Some(label) => label.clone(),
            None => self.make_label(),
        };
        let mut hover = match &self.kind {
            ItemKind::Function { .. } => "```scad\nfunction ".to_owned(),
            ItemKind::Module { .. } => "```scad\nmodule ".to_owned(),
            _ => "```scad\n".to_owned(),
        };
        hover.append(label.as_str());
        hover.append("\n```");
        match &self.doc {
            Some(doc) => if self.is_builtin {
                hover.append("\n---\n\n");
                hover.append(doc.as_str());
                hover.append("\n");
            } else {
                hover.append("\n---\n\n<pre>\n");
                hover.append(doc.as_str());
                hover.append("\n</pre>\n");
            },
            None => {},
        }
        hover
    }

    /// Writes the item's name with the parameters of what can be called.
    fn written_call(&self, params: &Vec<Param>) -> (text: String)
        ensures
            text@ == self@.name + "("@ + params_text(param_views(params@), true) + ")"@,
    {
        let mut text = self.name.clone();
        text.append("(");
        text.append(Param::format_params(params, true).as_str());
        text.append(")");
        text
    }

    /// How the item is written.
    pub fn make_label(&self) -> (label: String)
        ensures
            label@ == self@.made_label(),
    {
        match &self.kind {
            ItemKind::Variable => self.name.clone(),
            ItemKind::Function { params } => self.written_call(params),
            ItemKind::Keyword => self.name.clone(),
            ItemKind::Module { params } => self.written_call(params),
        }
    }

    /// The signature of the item, if it can be called.
    pub fn signature(&self, include_defaults: bool) -> (signature: Option<String>)
        ensures
            text_of(signature) == self@.made_signature(include_defaults),
    {
        match &self.kind {
            ItemKind::Function { params } => if include_defaults {
                Some(self.written_call(params))
            } else {
                Some(self.name.clone())
            },
            ItemKind::Module { params } => if include_defaults {
                Some(self.written_call(params))
            } else {
                Some(self.name.clone())
            },
            _ => None,
        }
    }

    /// The icon of the item in a symbol list.
    pub fn get_symbol_kind(&self) -> (kind: SymbolKind)
        ensures
            kind == self@.kind.symbol(),
    {
        match &self.kind {
            ItemKind::Function { .. } => SymbolKind::Function,
            ItemKind::Module { .. } => SymbolKind::Module,
            ItemKind::Variable => SymbolKind::Variable,
            ItemKind::Keyword => SymbolKind::Key,
        }
    }
}

} // verus!
