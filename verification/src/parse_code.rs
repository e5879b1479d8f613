use vstd::prelude::*;
use vstd::string::*;
use vstd::utf8::*;

use crate::environment::{EnvView, Environment};
use crate::kinds::NodeKind;
use crate::position::{Position, Range};
use crate::response_item::{clone_items, item_views, Item, ItemView};
use crate::syntax::{text_of, SyntaxTree, Tree};
use crate::text::{get_slice, joined, slice_text};

verus! {

/// The characters of a list of texts.
pub open spec fn texts(list: Seq<String>) -> Seq<Seq<char>> {
    list.map_values(|s: String| s@)
}

/// The characters of an optional list of texts.
pub open spec fn optional_texts(list: Option<Vec<String>>) -> Option<Seq<Seq<char>>> {
    match list {
        Some(list) => Some(texts(list@)),
        None => None,
    }
}

/// A copy of a list of texts.
pub fn clone_texts(list: &Vec<String>) -> (copy: Vec<String>)
    ensures
        texts(copy@) == texts(list@),
{
    let mut copy: Vec<String> = Vec::new();
    let mut i: usize = 0;
    while i < list.len()
        invariant
            i <= list@.len(),
            copy@.len() == i,
            forall|j: int| 0 <= j < i ==> (#[trigger] copy@[j])@ == list@[j]@,
        decreases list@.len() - i,
    {
        copy.push(list[i].clone());
        i += 1;
    }
    assert(texts(copy@) =~= texts(list@));
    copy
}

/// Adds the texts of a list behind those of another.
pub fn append_texts(list: &mut Vec<String>, more: &Vec<String>)
    ensures
        texts(final(list)@) == texts(old(list)@) + texts(more@),
{
    let ghost start = texts(list@);
    let ghost all = texts(more@);
    assert(texts(list@) =~= start + all.take(0));
    let mut k: usize = 0;
    while k < more.len()
        invariant
            k <= more@.len(),
            all == texts(more@),
            texts(list@) == start + all.take(k as int),
        decreases more@.len() - k,
    {
        let ghost before = texts(list@);
        list.push(more[k].clone());
        assert(texts(list@) =~= before.push(all[k as int]));
        assert(all.take(k + 1) =~= all.take(k as int).push(all[k as int]));
        assert(texts(list@) =~= start + all.take(k + 1));
        k += 1;
    }
    assert(all.take(more@.len() as int) =~= all);
}

/// A document: its text, its syntax tree, and what was found at its top level.
#[derive(Debug)]
pub struct ParsedCode {
    pub code: String,
    pub url: String,
    pub tree: SyntaxTree,
    pub root_items: Option<Vec<Item>>,
    pub includes: Option<Vec<String>>,
    pub uses: Option<Vec<String>>,
    pub is_builtin: bool,
    pub external_builtin: bool,
    /// Whether what was found at the top level is out of date.
    pub changed: bool,
}

/// The model of a [`ParsedCode`].
#[verifier::ext_equal]
pub struct DocView {
    pub code: Seq<char>,
    pub url: Seq<char>,
    pub tree: Tree,
    pub root_items: Option<Seq<ItemView>>,
    pub includes: Option<Seq<Seq<char>>>,
    pub uses: Option<Seq<Seq<char>>>,
    pub is_builtin: bool,
    pub external_builtin: bool,
    pub changed: bool,
}

impl View for ParsedCode {
    type V = DocView;

    open spec fn view(&self) -> DocView {
        DocView {
            code: self.code@,
            url: self.url@,
            tree: self.tree@,
            root_items: match self.root_items {
                Some(items) => Some(item_views(items@)),
                None => None,
            },
            includes: optional_texts(self.includes),
            uses: optional_texts(self.uses),
            is_builtin: self.is_builtin,
            external_builtin: self.external_builtin,
            changed: self.changed,
        }
    }
}

/// What was found among the first children of the root.
#[verifier::ext_equal]
pub struct TopLevel {
    pub items: Seq<ItemView>,
    pub includes: Seq<Seq<char>>,
    pub uses: Seq<Seq<char>>,
    /// The comments just before the next child.
    pub comments: Seq<Seq<char>>,
}

/// The documentation that a run of comments is.
pub open spec fn comment_doc(comments: Seq<Seq<char>>) -> Option<Seq<char>> {
    if comments.len() == 0 {
        None
    } else {
        Some(joined(comments, "\n"@))
    }
}

/// A list with an optional element at its end.
pub open spec fn push_optional(list: Seq<Seq<char>>, element: Option<Seq<char>>) -> Seq<Seq<char>> {
    match element {
        Some(e) => list.push(e),
        None => list,
    }
}

impl DocView {
    /// A document of which nothing but the text is known yet.
    pub open spec fn fresh(code: Seq<char>, url: Seq<char>) -> DocView {
        DocView {
            code,
            url,
            tree: Tree::parse(code),
            root_items: None,
            includes: None,
            uses: None,
            is_builtin: false,
            external_builtin: false,
            changed: true,
        }
    }

    /// The tree of a document is that of its text.
    pub open spec fn wf(self) -> bool {
        self.tree == Tree::parse(self.code) && self.tree.wf()
    }

    /// The path that an `include` or `use` writes.
    pub open spec fn include_path(self, node: int) -> Option<Seq<char>> {
        match self.tree.child(node, 1) {
            Some(path) => Some(self.tree.node_text(self.code, path)),
            None => None,
        }
    }

    /// The document that an `include` or `use` leads to.
    pub open spec fn include_url(self, node: int, env: EnvView) -> Option<Seq<char>> {
        match self.include_path(node) {
            Some(path) => env.link(self.url, path),
            None => None,
        }
    }

    /// The document that the items of this one are said to come from: what the language itself
    /// knows comes from none.
    pub open spec fn item_url(self) -> Option<Seq<char>> {
        if self.is_builtin && !self.external_builtin {
            None
        } else {
            Some(self.url)
        }
    }

    /// The item that a child of the root declares.
    pub open spec fn top_item(self, node: int, doc: Option<Seq<char>>) -> Option<ItemView> {
        match ItemView::parse(self.code, self.tree, node) {
            Some(item) => Some(
                ItemView {
                    url: self.item_url(),
                    is_builtin: self.is_builtin,
                    is_top_level: true,
                    doc,
                    ..item
                },
            ),
            None => None,
        }
    }

    /// What is found among the first `k` children of the root.
    pub open spec fn top_level(self, env: EnvView, k: int) -> TopLevel
        decreases k,
    {
        if k <= 0 {
            TopLevel {
                items: Seq::empty(),
                includes: Seq::empty(),
                uses: Seq::empty(),
                comments: Seq::empty(),
            }
        } else {
            let found = self.top_level(env, k - 1);
            let node = self.tree.children(0)[k - 1];
            let kind = self.tree.kind(node);
            if kind.comment() {
                TopLevel {
                    comments: found.comments.push(self.tree.node_text(self.code, node)),
                    ..found
                }
            } else {
                TopLevel {
                    items: match self.top_item(node, comment_doc(found.comments)) {
                        Some(item) => found.items.push(item),
                        None => found.items,
                    },
                    includes: if kind is IncludeStatement {
                        push_optional(found.includes, self.include_url(node, env))
                    } else {
                        found.includes
                    },
                    uses: if kind is UseStatement {
                        push_optional(found.uses, self.include_url(node, env))
                    } else {
                        found.uses
                    },
                    comments: Seq::empty(),
                }
            }
        }
    }

    /// The document with what is at its top level up to date.
    pub open spec fn generated(self, env: EnvView) -> DocView {
        if self.root_items is Some && !self.changed {
            self
        } else {
            let found = self.top_level(env, self.tree.children(0).len() as int);
            DocView {
                root_items: Some(found.items),
                includes: Some(found.includes),
                uses: Some(found.uses),
                changed: false,
                ..self
            }
        }
    }

    /// The paths that the `include`s and `use`s among the first `k` nodes write.
    pub open spec fn link_paths(self, k: int) -> Seq<Seq<char>>
        decreases k,
    {
        if k <= 0 {
            Seq::empty()
        } else {
            let earlier = self.link_paths(k - 1);
            if self.tree.kind(k - 1).dependency_statement() {
                push_optional(earlier, self.include_path(k - 1))
            } else {
                earlier
            }
        }
    }

    /// The document with another text.
    pub open spec fn with_code(self, code: Seq<char>) -> DocView {
        DocView { code, tree: Tree::parse(code), changed: true, ..self }
    }
}

/// A change of a document: new text for a range, or for all of it.
#[derive(Debug)]
pub struct TextChange {
    pub range: Option<Range>,
    pub text: String,
}

/// The offset at which a line starts, if the text has that many lines.
pub open spec fn line_start(bytes: Seq<u8>, line: int, from: int) -> Option<int>
    decreases bytes.len() - from,
{
    if line <= 0 {
        Some(from)
    } else if from < 0 || from >= bytes.len() {
        None
    } else if bytes[from] == 10 {
        line_start(bytes, line - 1, from + 1)
    } else {
        line_start(bytes, line, from + 1)
    }
}

/// The offset of a position: as many bytes behind the start of its line as it has columns.
pub open spec fn position_offset(code: Seq<char>, position: Position) -> Option<int> {
    match line_start(encode_utf8(code), position.line as int, 0) {
        Some(start) => Some(
            if start + position.character <= usize::MAX {
                start + position.character
            } else {
                usize::MAX as int
            },
        ),
        None => None,
    }
}

/// The offset of a position: as many bytes behind the start of its line as it has columns.
pub fn find_offset(code: &str, position: Position) -> (offset: Option<usize>)
    ensures
        match offset {
            Some(o) => position_offset(code@, position) == Some(o as int),
            None => position_offset(code@, position) is None,
        },
{
    let bytes: &[u8] = code.as_bytes();
    let mut line: u32 = position.line;
    let mut from: usize = 0;
    while line > 0
        invariant
            bytes@ == encode_utf8(code@),
            from <= bytes@.len(),
            line_start(bytes@, position.line as int, 0) == line_start(
                bytes@,
                line as int,
                from as int,
            ),
        decreases bytes@.len() - from,
    {
        if from >= bytes.len() {
            return None;
        }
        if bytes[from] == 10 {
            line = line - 1;
        }
        from += 1;
    }
    Some(from.saturating_add(position.character as usize))
}

/// A text after a change. A change whose range is not one of the text does nothing.
pub open spec fn changed_code(code: Seq<char>, range: Option<Range>, text: Seq<char>) -> Seq<char> {
    match range {
        None => text,
        Some(range) => match (
            position_offset(code, range.start),
            position_offset(code, range.end),
        ) {
            (Some(from), Some(to)) => if from > to {
                code
            } else {
                match (
                    slice_text(code, 0, from),
                    slice_text(code, to, encode_utf8(code).len() as int),
                ) {
                    (Some(before), Some(after)) => before + text + after,
                    _ => code,
                }
            },
            _ => code,
        },
    }
}

/// A text after the first `k` of a list of changes.
pub open spec fn edited_code(code: Seq<char>, changes: Seq<TextChange>, k: int) -> Seq<char>
    decreases k,
{
    if k <= 0 {
        code
    } else {
        changed_code(edited_code(code, changes, k - 1), changes[k - 1].range, changes[k - 1].text@)
    }
}

/// A text after a change.
fn change_code(code: &str, change: &TextChange) -> (result: String)
    ensures
        result@ == changed_code(code@, change.range, change.text@),
{
    let range: Range = match change.range {
        Some(range) => range,
        None => {
            return change.text.clone();
        },
    };
    let from = find_offset(code, range.start);
    let to = find_offset(code, range.end);
    match (from, to) {
        (Some(from), Some(to)) => {
            if from > to {
                return code.to_owned();
            }
            let before = get_slice(code, 0, from);
            let after = get_slice(code, to, code.as_bytes().len());
            match (before, after) {
                (Some(before), Some(after)) => {
                    let mut result = before.to_owned();
                    result.append(change.text.as_str());
                    result.append(after);
                    result
                },
                _ => code.to_owned(),
            }
        },
        _ => code.to_owned(),
    }
}

impl ParsedCode {
    /// A document of which nothing but the text is known yet.
    pub fn new(code: String, url: String) -> (doc: ParsedCode)
        ensures
            doc@ == DocView::fresh(code@, url@),
            doc@.wf(),
    {
        let tree = SyntaxTree::parse(code.as_str());
        ParsedCode {
            code,
            url,
            tree,
            root_items: None,
            includes: None,
            uses: None,
            is_builtin: false,
            external_builtin: false,
            changed: true,
        }
    }

    /// A copy.
    pub fn copy(&self) -> (copy: ParsedCode)
        ensures
            copy@ == self@,
    {
        let root_items: Option<Vec<Item>> = match &self.root_items {
            Some(items) => Some(clone_items(items)),
            None => None,
        };
        let includes: Option<Vec<String>> = match &self.includes {
            Some(list) => Some(clone_texts(list)),
            None => None,
        };
        let uses: Option<Vec<String>> = match &self.uses {
            Some(list) => Some(clone_texts(list)),
            None => None,
        };
        ParsedCode {
            code: self.code.clone(),
            url: self.url.clone(),
            tree: self.tree.copy(),
            root_items,
            includes,
            uses,
            is_builtin: self.is_builtin,
            external_builtin: self.external_builtin,
            changed: self.changed,
        }
    }

    /// The path that an `include` or `use` writes.
    pub fn include_path(&self, node: usize) -> (path: Option<String>)
        requires
            self@.tree.wf(),
            self@.tree.has(node as int),
        ensures
            text_of(path) == self@.include_path(node as int),
    {
        match self.tree.child(node, 1) {
            Some(path) => Some(self.tree.node_text(self.code.as_str(), path)),
            None => None,
        }
    }

    /// The paths that the `include`s and `use`s of the document write.
    pub fn links(&self) -> (paths: Vec<String>)
        requires
            self@.tree.wf(),
        ensures
            texts(paths@) == self@.link_paths(self@.tree.len()),
    {
        let mut paths: Vec<String> = Vec::new();
        assert(texts(paths@) =~= Seq::empty());
        let mut k: usize = 0;
        while k < self.tree.len()
            invariant
                k <= self@.tree.len(),
                self@.tree.wf(),
                texts(paths@) == self@.link_paths(k as int),
            decreases self@.tree.len() - k,
        {
            if self.tree.kind(k).is_dependency_statement() {
                match self.include_path(k) {
                    Some(path) => {
                        let ghost before = texts(paths@);
                        paths.push(path);
                        assert(texts(paths@) =~= before.push(path@));
                    },
                    None => {},
                }
            }
            k += 1;
        }
        paths
    }

    /// The document that an `include` or `use` leads to.
    pub fn get_include_url(&self, node: usize, env: &Environment) -> (url: Option<String>)
        requires
            self@.tree.wf(),
            self@.tree.has(node as int),
        ensures
            text_of(url) == self@.include_url(node as int, env@),
    {
        match self.include_path(node) {
            Some(path) => env.link(self.url.as_str(), path.as_str()),
            None => None,
        }
    }

    /// The item that a child of the root declares.
    fn top_item(&self, node: usize, doc: Option<String>) -> (item: Option<Item>)
        requires
            self@.tree.wf(),
            self@.tree.has(node as int),
        ensures
            match item {
                Some(i) => self@.top_item(node as int, text_of(doc)) == Some(i@),
                None => self@.top_item(node as int, text_of(doc)) is None,
            },
    {
        match Item::parse(self.code.as_str(), &self.tree, node) {
            Some(item) => {
                let url: Option<String> = if self.is_builtin && !self.external_builtin {
                    None
                } else {
                    Some(self.url.clone())
                };
                Some(
                    Item { url, is_builtin: self.is_builtin, is_top_level: true, doc, ..item },
                )
            },
            None => None,
        }
    }

    /// Brings what is at the top level of the document up to date.
    pub fn gen_top_level_items_if_needed(&mut self, env: &Environment)
        requires
            old(self)@.wf(),
        ensures
            final(self)@ == old(self)@.generated(env@),
            final(self)@.wf(),
    {
        if self.root_items.is_some() && !self.changed {
            return;
        }
        let ghost doc = self@;
        let ghost all = self@.tree.children(0);
        let mut items: Vec<Item> = Vec::new();
        let mut includes: Vec<String> = Vec::new();
        let mut uses: Vec<String> = Vec::new();
        let mut comments: Vec<String> = Vec::new();
        let count: usize = self.tree.node(0).children.len();
        proof {
            assert(item_views(items@) =~= Seq::<ItemView>::empty());
            assert(texts(includes@) =~= Seq::<Seq<char>>::empty());
        }
        let mut k: usize = 0;
        while k < count
            invariant
                k <= count,
                *self == *old(self),
                doc == self@,
                doc.wf(),
                all == doc.tree.children(0),
                count == all.len(),
                doc.top_level(env@, k as int) == (TopLevel {
                    items: item_views(items@),
                    includes: texts(includes@),
                    uses: texts(uses@),
                    comments: texts(comments@),
                }),
            decreases count - k,
        {
            let ghost found = doc.top_level(env@, k as int);
            let ghost (items0, includes0, uses0, comments0) = (
                items@,
                includes@,
                uses@,
                comments@,
            );
            let node: usize = self.tree.node(0).children[k];
            proof {
                doc.tree.lemma_child(0, k as int);
                assert(all[k as int] == node);
            }
            let kind = self.tree.kind(node);
            if kind.is_comment() {
                let text = self.tree.node_text(self.code.as_str(), node);
                comments.push(text);
                assert(texts(comments@) =~= texts(comments0).push(text@));
            } else {
                let doc_text: Option<String> = if comments.len() == 0 {
                    None
                } else {
                    Some(join_texts(&comments, "\n"))
                };
                match self.top_item(node, doc_text) {
                    Some(item) => {
                        items.push(item);
                        assert(item_views(items@) =~= item_views(items0).push(item@));
                    },
                    None => {},
                }
                if kind == NodeKind::IncludeStatement {
                    match self.get_include_url(node, env) {
                        Some(url) => {
                            includes.push(url);
                            assert(texts(includes@) =~= texts(includes0).push(url@));
                        },
                        None => {},
                    }
                } else if kind == NodeKind::UseStatement {
                    match self.get_include_url(node, env) {
                        Some(url) => {
                            uses.push(url);
                            assert(texts(uses@) =~= texts(uses0).push(url@));
                        },
                        None => {},
                    }
                }
                comments = Vec::new();
                assert(texts(comments@) =~= Seq::<Seq<char>>::empty());
            }
            k += 1;
        }
        self.root_items = Some(items);
        self.includes = Some(includes);
        self.uses = Some(uses);
        self.changed = false;
    }

    /// Applies changes to the document.
    pub fn edit(&mut self, changes: &Vec<TextChange>)
        requires
            old(self)@.wf(),
        ensures
            final(self)@ == old(self)@.with_code(
                edited_code(old(self)@.code, changes@, changes@.len() as int),
            ),
            final(self)@.wf(),
    {
        let mut code = self.code.clone();
        let mut k: usize = 0;
        while k < changes.len()
            invariant
                k <= changes@.len(),
                code@ == edited_code(old(self)@.code, changes@, k as int),
            decreases changes@.len() - k,
        {
            code = change_code(code.as_str(), &changes[k]);
            k += 1;
        }
        self.tree = SyntaxTree::parse(code.as_str());
        self.code = code;
        self.changed = true;
    }
}

/// Texts put together with a separator in between.
pub fn join_texts(list: &Vec<String>, separator: &str) -> (text: String)
    ensures
        text@ == joined(texts(list@), separator@),
{
    let mut text = String::new();
    let ghost parts = texts(list@);
    assert(parts.take(0) =~= Seq::<Seq<char>>::empty());
    let mut i: usize = 0;
    while i < list.len()
        invariant
            i <= list@.len(),
            parts == texts(list@),
            text@ == joined(parts.take(i as int), separator@),
        decreases list@.len() - i,
    {
        proof {
            assert(parts.take(i + 1).drop_last() =~= parts.take(i as int));
            assert(parts.take(i + 1).last() == list@[i as int]@);
        }
        if i > 0 {
            text.append(separator);
            text.append(list[i].as_str());
        } else {
            text = list[i].clone();
        }
        i += 1;
    }
    assert(parts.take(list@.len() as int) =~= parts);
    text
}

} // verus!
