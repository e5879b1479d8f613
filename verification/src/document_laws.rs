use vstd::prelude::*;

use crate::checks::{
    dead_link, dead_links, dead_links_below, document_findings, edit_findings, faults, inner_range,
    statement_at,
};
use crate::context_laws::{earlier, lemma_first_behind};
use crate::diagnostic::{DiagnosticView, Severity};
use crate::environment::EnvView;
use crate::kinds::NodeKind;
use crate::lists::lemma_filter_keeps;
use crate::parse_code::{push_optional, DocView, TextChange};
use crate::position::Range;
use crate::response_item::ItemView;
use crate::scope_laws::{declared_text, law_variables_are_read};
use crate::syntax::Tree;
use crate::text::joined;
use crate::unused::unused_locals;

verus! {

/// Whether a node is a comment.
pub open spec fn is_remark(tree: Tree, node: int) -> bool {
    tree.kind(node) == NodeKind::LineComment || tree.kind(node) == NodeKind::BlockComment
}

/// The texts of the comments that stand directly in front of a child of the root, one after the
/// other.
pub open spec fn remarks_before(doc: DocView, k: int) -> Seq<Seq<char>>
    decreases k,
{
    if k > 0 && is_remark(doc.tree, doc.tree.children(0)[k - 1]) {
        remarks_before(doc, k - 1).push(doc.tree.node_text(doc.code, doc.tree.children(0)[k - 1]))
    } else {
        Seq::empty()
    }
}

/// The places of those children of the root, among the first `k`, that declare something.
pub open spec fn declaring_places(doc: DocView, k: int) -> Seq<int>
    decreases k,
{
    if k <= 0 {
        Seq::empty()
    } else if declared_text(doc.code, doc.tree, doc.tree.children(0)[k - 1]) is Some {
        declaring_places(doc, k - 1).push(k - 1)
    } else {
        declaring_places(doc, k - 1)
    }
}

/// Whether an item is what the child of the root at a place declares: under its name, as one of
/// the top level, with what the comments in front of it say.
pub open spec fn item_at(doc: DocView, place: int, item: ItemView) -> bool {
    let node = doc.tree.children(0)[place];
    let remarks = remarks_before(doc, place);
    &&& declared_text(doc.code, doc.tree, node) == Some(item.name)
    &&& item.is_top_level
    &&& item.is_builtin == doc.is_builtin
    &&& item.url == (if doc.is_builtin && !doc.external_builtin {
        None
    } else {
        Some(doc.url)
    })
    &&& item.range == (if doc.tree.kind(node) is VarDeclaration {
        doc.tree.range(doc.tree.first_named_child(node)->0)
    } else {
        doc.tree.range(node)
    })
    &&& (item.kind is Module) == (doc.tree.kind(node) is ModuleItem)
    &&& (item.kind is Function) == (doc.tree.kind(node) is FunctionItem)
    &&& (item.kind is Variable) == (doc.tree.kind(node) is VarDeclaration)
    &&& remarks.len() == 0 ==> item.doc is None
    &&& remarks.len() == 1 ==> item.doc == Some(remarks[0])
    &&& remarks.len() > 0 ==> item.doc == Some(joined(remarks, "\n"@))
}

/// Where the statement at a place of the root leads, if it brings a file in.
pub open spec fn target_at(doc: DocView, env: EnvView, node: int) -> Option<Seq<char>> {
    match doc.tree.child(node, 1) {
        Some(path) => env.link(doc.url, doc.tree.node_text(doc.code, path)),
        None => None,
    }
}

/// Whether one of the first `k` children of the root is a statement of a kind that leads to a file.
pub open spec fn brings_in(
    doc: DocView,
    env: EnvView,
    kind: NodeKind,
    k: int,
    url: Seq<char>,
) -> bool {
    exists|j: int|
        0 <= j < k && doc.tree.kind(#[trigger] doc.tree.children(0)[j]) == kind && target_at(
            doc,
            env,
            doc.tree.children(0)[j],
        ) == Some(url)
}

/// A look at the first `k` children of the root finds what they declare, in order, and where they
/// lead.
proof fn lemma_top_level_read(doc: DocView, env: EnvView, k: int)
    requires
        0 <= k <= doc.tree.children(0).len(),
    ensures
        ({
            let found = doc.top_level(env, k);
            let places = declaring_places(doc, k);
            &&& found.comments == remarks_before(doc, k)
            &&& found.items.len() == places.len()
            &&& forall|j: int|
                0 <= j < places.len() ==> 0 <= #[trigger] places[j] < k && item_at(
                    doc,
                    places[j],
                    found.items[j],
                )
            &&& forall|url: Seq<char>| #[trigger]
                found.includes.contains(url) == brings_in(
                    doc,
                    env,
                    NodeKind::IncludeStatement,
                    k,
                    url,
                )
            &&& forall|url: Seq<char>| #[trigger]
                found.uses.contains(url) == brings_in(doc, env, NodeKind::UseStatement, k, url)
        }),
    decreases k,
{
    if k > 0 {
        lemma_top_level_read(doc, env, k - 1);
        let node = doc.tree.children(0)[k - 1];
        let before = doc.top_level(env, k - 1);
        let found = doc.top_level(env, k);
        law_variables_are_read(doc.code, doc.tree, node);
        assert(doc.include_url(node, env) == target_at(doc, env, node));
        assert forall|url: Seq<char>| #[trigger] found.includes.contains(url) == brings_in(
            doc,
            env,
            NodeKind::IncludeStatement,
            k,
            url,
        ) by {
            lemma_brought_in(
                doc,
                env,
                NodeKind::IncludeStatement,
                k,
                url,
                before.includes,
                found.includes,
            );
        }
        assert forall|url: Seq<char>| #[trigger] found.uses.contains(url) == brings_in(
            doc,
            env,
            NodeKind::UseStatement,
            k,
            url,
        ) by {
            lemma_brought_in(
                doc,
                env,
                NodeKind::UseStatement,
                k,
                url,
                before.uses,
                found.uses,
            );
        }
    } else {
        let found = doc.top_level(env, k);
        assert forall|url: Seq<char>| !#[trigger] found.includes.contains(url) by {}
    }
}

/// One more statement adds the file that it leads to.
proof fn lemma_brought_in(
    doc: DocView,
    env: EnvView,
    kind: NodeKind,
    k: int,
    url: Seq<char>,
    before: Seq<Seq<char>>,
    now: Seq<Seq<char>>,
)
    requires
        0 < k <= doc.tree.children(0).len(),
        before.contains(url) == brings_in(doc, env, kind, k - 1, url),
        now == (if doc.tree.kind(doc.tree.children(0)[k - 1]) == kind {
            push_optional(before, target_at(doc, env, doc.tree.children(0)[k - 1]))
        } else {
            before
        }),
    ensures
        now.contains(url) == brings_in(doc, env, kind, k, url),
{
    let node = doc.tree.children(0)[k - 1];
    if now.contains(url) {
        let j = choose|j: int| 0 <= j < now.len() && now[j] == url;
        if j < before.len() {
            assert(before[j] == url);
            assert(before.contains(url));
            let i = choose|i: int|
                0 <= i < k - 1 && doc.tree.kind(#[trigger] doc.tree.children(0)[i]) == kind
                    && target_at(doc, env, doc.tree.children(0)[i]) == Some(url);
            assert(0 <= i < k && doc.tree.kind(doc.tree.children(0)[i]) == kind);
        } else {
            assert(doc.tree.kind(doc.tree.children(0)[k - 1]) == kind);
        }
    }
    if brings_in(doc, env, kind, k, url) {
        let i = choose|i: int|
            0 <= i < k && doc.tree.kind(#[trigger] doc.tree.children(0)[i]) == kind && target_at(
                doc,
                env,
                doc.tree.children(0)[i],
            ) == Some(url);
        if i < k - 1 {
            assert(0 <= i < k - 1 && doc.tree.kind(doc.tree.children(0)[i]) == kind);
            assert(brings_in(doc, env, kind, k - 1, url));
            let j = choose|j: int| 0 <= j < before.len() && before[j] == url;
            assert(now[j] == url);
        } else {
            assert(now[now.len() - 1] == url);
        }
    }
}

/// A document that is brought up to date knows all that it declares at its top level, in order,
/// and nothing else: each under its name and its kind, with what the comments directly in front of
/// it say. It knows the files that it includes and those that it uses, and no other.
pub proof fn law_the_top_level_is_read(doc: DocView, env: EnvView)
    requires
        doc.changed || doc.root_items is None,
    ensures
        ({
            let now = doc.generated(env);
            let n = doc.tree.children(0).len() as int;
            let places = declaring_places(doc, n);
            &&& !now.changed
            &&& now.code == doc.code && now.url == doc.url && now.tree == doc.tree
            &&& now.root_items matches Some(items) && items.len() == places.len() && forall|j: int|
                0 <= j < places.len() ==> 0 <= #[trigger] places[j] < n && item_at(
                    doc,
                    places[j],
                    items[j],
                )
            &&& now.includes matches Some(urls) && forall|url: Seq<char>| #[trigger]
                urls.contains(url) == brings_in(doc, env, NodeKind::IncludeStatement, n, url)
            &&& now.uses matches Some(urls) && forall|url: Seq<char>| #[trigger]
                urls.contains(url) == brings_in(doc, env, NodeKind::UseStatement, n, url)
        }),
{
    lemma_top_level_read(doc, env, doc.tree.children(0).len() as int);
}

/// A document that is up to date stays as it is.
pub proof fn law_what_is_up_to_date_stays(doc: DocView, env: EnvView)
    ensures
        doc.generated(env).generated(env) == doc.generated(env),
        doc.root_items is Some && !doc.changed ==> doc.generated(env) == doc,
{
}

/// Whether something is said of a range as an error.
pub open spec fn error_at(found: Seq<DiagnosticView>, range: Range) -> bool {
    exists|j: int|
        0 <= j < found.len() && (#[trigger] found[j]).range == range && found[j].severity
            == Severity::Error
}

/// Whether the parser could not make sense of a node: it is an error, or missing.
pub open spec fn is_broken(tree: Tree, node: int) -> bool {
    tree.kind(node) == NodeKind::Error || tree.nodes[node].missing
}

/// Each broken node among the first `k` is reported, and no other.
proof fn lemma_faults(tree: Tree, k: int)
    ensures
        forall|n: int| 0 <= n < k && #[trigger] is_broken(tree, n) ==> error_at(
            faults(tree, k),
            tree.range(n),
        ),
        forall|j: int|
            0 <= j < faults(tree, k).len() ==> fault_of(tree, k, #[trigger] faults(tree, k)[j]),
    decreases k,
{
    if k > 0 {
        lemma_faults(tree, k - 1);
        let before = faults(tree, k - 1);
        let now = faults(tree, k);
        assert forall|n: int| 0 <= n < k && #[trigger] is_broken(tree, n) implies error_at(
            now,
            tree.range(n),
        ) by {
            if n < k - 1 {
                let j = choose|j: int|
                    0 <= j < before.len() && (#[trigger] before[j]).range == tree.range(n)
                        && before[j].severity == Severity::Error;
                assert(now[j] == before[j]);
            } else {
                assert(now[before.len() as int].range == tree.range(n));
            }
        }
        assert forall|j: int| 0 <= j < now.len() implies fault_of(tree, k, #[trigger] now[j]) by {
            if j < before.len() {
                assert(now[j] == before[j]);
                assert(fault_of(tree, k - 1, before[j]));
                let n = choose|n: int|
                    0 <= n < k - 1 && #[trigger] is_broken(tree, n) && tree.range(n)
                        == before[j].range;
                assert(is_broken(tree, n));
            } else {
                assert(is_broken(tree, k - 1));
            }
        }
    }
}

/// Whether something is said of a broken node among the first `k`.
pub open spec fn fault_of(tree: Tree, k: int, found: DiagnosticView) -> bool {
    exists|n: int| 0 <= n < k && #[trigger] is_broken(tree, n) && tree.range(n) == found.range
}

/// Whether a node is another, or is reached from it through children that carry a name in the
/// grammar.
pub open spec fn named_below(tree: Tree, node: int, outer: int) -> bool
    decreases node,
{
    node == outer || match tree.parent(node) {
        Some(parent) => 0 <= outer <= parent < node && tree.nodes[node].named && named_below(
            tree,
            parent,
            outer,
        ),
        None => false,
    }
}

/// Whether a node brings a file in that cannot be found.
pub open spec fn leads_nowhere(doc: DocView, env: EnvView, node: int) -> bool {
    &&& doc.tree.kind(node) == NodeKind::IncludeStatement || doc.tree.kind(node)
        == NodeKind::UseStatement
    &&& doc.tree.child(node, 1) matches Some(path) && env.link(
        doc.url,
        doc.tree.node_text(doc.code, path),
    ) is None
}

/// Each link below a node that leads nowhere is reported.
proof fn lemma_dead_links(doc: DocView, env: EnvView, outer: int, node: int)
    requires
        doc.tree.wf(),
        doc.tree.has(outer),
        doc.tree.has(node),
        named_below(doc.tree, node, outer),
        leads_nowhere(doc, env, node),
    ensures
        error_at(
            dead_links(doc, env, outer),
            inner_range(doc.tree.range(doc.tree.child(node, 1)->0)),
        ),
    decreases doc.tree.len() - outer,
{
    let tree = doc.tree;
    let range = inner_range(tree.range(tree.child(node, 1)->0));
    let own = dead_link(doc, env, outer);
    let rest = dead_links_below(doc, env, outer, 0);
    if node == outer {
        assert(own[0].range == range);
        assert(dead_links(doc, env, outer)[0] == own[0]);
    } else {
        let child = child_towards(tree, node, outer);
        lemma_child_towards(tree, node, outer);
        assert(tree.node_wf(child));
        let named = |c: int| tree.nodes[c].named;
        lemma_filter_keeps(tree.children(outer), named, tree.nodes[child].slot);
        let children = tree.named_children(outer);
        let i = choose|i: int| 0 <= i < children.len() && children[i] == child;
        lemma_dead_links(doc, env, child, node);
        lemma_dead_links_below(doc, env, outer, 0, i, range);
        let j = choose|j: int|
            0 <= j < rest.len() && (#[trigger] rest[j]).range == range && rest[j].severity
                == Severity::Error;
        assert(dead_links(doc, env, outer)[own.len() + j] == rest[j]);
    }
}

/// What is reported below a child is reported below the children from an earlier one on.
proof fn lemma_dead_links_below(
    doc: DocView,
    env: EnvView,
    outer: int,
    k: int,
    i: int,
    range: Range,
)
    requires
        doc.tree.wf(),
        doc.tree.has(outer),
        0 <= k <= i < doc.tree.named_children(outer).len(),
        error_at(dead_links(doc, env, doc.tree.named_children(outer)[i]), range),
    ensures
        error_at(dead_links_below(doc, env, outer, k), range),
    decreases i - k,
{
    let children = doc.tree.named_children(outer);
    let all = dead_links_below(doc, env, outer, k);
    doc.tree.lemma_named_child(outer, k);
    let first = dead_links(doc, env, children[k]);
    let rest = dead_links_below(doc, env, outer, k + 1);
    assert(all == first + rest);
    if k == i {
        let j = choose|j: int|
            0 <= j < first.len() && (#[trigger] first[j]).range == range && first[j].severity
                == Severity::Error;
        assert(all[j] == first[j]);
    } else {
        lemma_dead_links_below(doc, env, outer, k + 1, i, range);
        let j = choose|j: int|
            0 <= j < rest.len() && (#[trigger] rest[j]).range == range && rest[j].severity
                == Severity::Error;
        assert(all[first.len() + j] == rest[j]);
    }
}

/// The child of a node in which another lies.
spec fn child_towards(tree: Tree, node: int, outer: int) -> int
    decreases node,
{
    match tree.parent(node) {
        Some(parent) => if parent == outer || !(0 <= parent < node) {
            node
        } else {
            child_towards(tree, parent, outer)
        },
        None => node,
    }
}

/// What is reached from a node through named children is reached from one of them.
proof fn lemma_child_towards(tree: Tree, node: int, outer: int)
    requires
        tree.wf(),
        tree.has(node),
        named_below(tree, node, outer),
        node != outer,
    ensures
        ({
            let child = child_towards(tree, node, outer);
            &&& tree.has(child)
            &&& outer < child <= node
            &&& tree.parent(child) == Some(outer)
            &&& tree.nodes[child].named
            &&& named_below(tree, node, child)
        }),
    decreases node,
{
    let parent = tree.parent(node)->0;
    if parent != outer {
        lemma_child_towards(tree, parent, outer);
    }
}

/// All that is wrong with a document is said: each node that the parser could not make sense of,
/// each `include` and `use` that leads nowhere, and, at the end, each local variable that nothing
/// uses.
pub proof fn law_all_that_is_wrong_is_said(doc: DocView, env: EnvView)
    requires
        doc.tree.wf(),
    ensures
        forall|n: int| doc.tree.has(n) && #[trigger] is_broken(doc.tree, n) ==> error_at(
            document_findings(doc, env),
            doc.tree.range(n),
        ),
        forall|n: int|
            doc.tree.has(n) && named_below(doc.tree, n, 0) && #[trigger] leads_nowhere(doc, env, n)
                ==> error_at(
                document_findings(doc, env),
                inner_range(doc.tree.range(doc.tree.child(n, 1)->0)),
            ),
        unused_locals(doc.code, doc.tree).is_suffix_of(document_findings(doc, env)),
{
    let first = faults(doc.tree, doc.tree.len());
    let second = dead_links(doc, env, 0);
    let third = unused_locals(doc.code, doc.tree);
    let all = document_findings(doc, env);
    assert(all == first + second + third);
    lemma_faults(doc.tree, doc.tree.len());
    assert forall|n: int| doc.tree.has(n) && #[trigger] is_broken(doc.tree, n) implies error_at(
        all,
        doc.tree.range(n),
    ) by {
        let j = choose|j: int|
            0 <= j < first.len() && (#[trigger] first[j]).range == doc.tree.range(n)
                && first[j].severity == Severity::Error;
        assert(all[j] == first[j]);
    }
    assert forall|n: int|
        doc.tree.has(n) && named_below(doc.tree, n, 0) && #[trigger] leads_nowhere(
            doc,
            env,
            n,
        ) implies error_at(all, inner_range(doc.tree.range(doc.tree.child(n, 1)->0))) by {
        lemma_dead_links(doc, env, 0, n);
        let range = inner_range(doc.tree.range(doc.tree.child(n, 1)->0));
        let j = choose|j: int|
            0 <= j < second.len() && (#[trigger] second[j]).range == range && second[j].severity
                == Severity::Error;
        assert(all[first.len() + j] == second[j]);
    }
    assert(all.subrange(all.len() - third.len(), all.len() as int) =~= third);
}

/// After an edit, each node that the parser could not make sense of is reported; so is, after a
/// single change of a range, the statement at its start if that leads nowhere.
pub proof fn law_edits_report_what_is_broken(
    doc: DocView,
    env: EnvView,
    changes: Seq<TextChange>,
)
    requires
        doc.tree.wf(),
    ensures
        forall|n: int| doc.tree.has(n) && #[trigger] is_broken(doc.tree, n) ==> error_at(
            edit_findings(doc, env, changes),
            doc.tree.range(n),
        ),
{
    let first = faults(doc.tree, doc.tree.len());
    let all = edit_findings(doc, env, changes);
    lemma_faults(doc.tree, doc.tree.len());
    assert(first.is_prefix_of(all));
    assert forall|n: int| doc.tree.has(n) && #[trigger] is_broken(doc.tree, n) implies error_at(
        all,
        doc.tree.range(n),
    ) by {
        let j = choose|j: int|
            0 <= j < first.len() && (#[trigger] first[j]).range == doc.tree.range(n)
                && first[j].severity == Severity::Error;
        assert(all[j] == first[j]);
    }
}

/// After a single change of a range, the first statement of the document that ends behind the start
/// of the range is reported if it brings in a file that cannot be found.
pub proof fn law_edits_report_the_link_that_they_touch(
    doc: DocView,
    env: EnvView,
    changes: Seq<TextChange>,
    k: int,
)
    requires
        changes.len() == 1,
        changes[0].range is Some,
        0 <= k < doc.tree.children(0).len(),
        earlier(changes[0].range->0.start, doc.tree.nodes[doc.tree.children(0)[k]].end),
        forall|j: int|
            0 <= j < k ==> !earlier(
                changes[0].range->0.start,
                doc.tree.nodes[#[trigger] doc.tree.children(0)[j]].end,
            ),
        leads_nowhere(doc, env, doc.tree.children(0)[k]),
    ensures
        error_at(
            edit_findings(doc, env, changes),
            inner_range(doc.tree.range(doc.tree.child(doc.tree.children(0)[k], 1)->0)),
        ),
{
    let tree = doc.tree;
    let point = changes[0].range->0.start;
    let node = tree.children(0)[k];
    lemma_first_behind(tree, 0, point, 0);
    let found = statement_at(tree, point);
    if tree.child_ending_after(0, point, 0) is Some {
        let j = choose|j: int|
            0 <= j < tree.children(0).len() && found == #[trigger] tree.children(0)[j] && earlier(
                point,
                tree.nodes[found].end,
            ) && forall|i: int|
                0 <= i < j ==> !earlier(point, tree.nodes[#[trigger] tree.children(0)[i]].end);
        if j < k {
            assert(!earlier(point, tree.nodes[tree.children(0)[j]].end));
        } else if k < j {
            assert(!earlier(point, tree.nodes[tree.children(0)[k]].end));
        }
    }
    assert(found == node);
    let first = faults(tree, tree.len());
    let link = dead_link(doc, env, node);
    let range = inner_range(tree.range(tree.child(node, 1)->0));
    assert(link[0].range == range);
    let all = edit_findings(doc, env, changes);
    assert(all[first.len() as int] == link[0]);
}

} // verus!
