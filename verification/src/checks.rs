use vstd::prelude::*;
use vstd::string::*;

use crate::diagnostic::{diagnostic_views, Diagnostic, DiagnosticView, Severity};
use crate::environment::{EnvView, Environment};
use crate::kinds::NodeKind;
use crate::parse_code::{DocView, ParsedCode, TextChange};
use crate::position::{Position, Range};
use crate::syntax::{SyntaxTree, Tree};
use crate::unused::{unused_locals, UnusedLocalAnalyzer};

verus! {

/// Whether the parser could not make sense of the text at a node.
pub open spec fn faulty(tree: Tree, node: int) -> bool {
    tree.kind(node) is Error || tree.nodes[node].missing
}

/// What is said of a node that the parser could not make sense of.
pub open spec fn fault(tree: Tree, node: int) -> DiagnosticView {
    DiagnosticView {
        range: tree.range(node),
        severity: Severity::Error,
        source: None,
        message: if tree.nodes[node].missing {
            "missing "@ + tree.nodes[node].kind_name
        } else {
            "syntax error"@
        },
    }
}

/// The faults among the first `k` nodes.
pub open spec fn faults(tree: Tree, k: int) -> Seq<DiagnosticView>
    decreases k,
{
    if k <= 0 {
        Seq::empty()
    } else if faulty(tree, k - 1) {
        faults(tree, k - 1).push(fault(tree, k - 1))
    } else {
        faults(tree, k - 1)
    }
}

/// A range without its first and its last column.
pub open spec fn inner_range(range: Range) -> Range {
    Range {
        start: Position {
            line: range.start.line,
            character: if range.start.character < u32::MAX {
                (range.start.character + 1) as u32
            } else {
                u32::MAX
            },
        },
        end: Position {
            line: range.end.line,
            character: if range.end.character > 0 {
                (range.end.character - 1) as u32
            } else {
                0
            },
        },
    }
}

/// What is said of an `include` or `use` that leads nowhere; nothing of other nodes.
pub open spec fn dead_link(doc: DocView, env: EnvView, node: int) -> Seq<DiagnosticView> {
    if doc.tree.kind(node).dependency_statement() && doc.include_url(node, env) is None {
        match doc.tree.child(node, 1) {
            Some(path) => seq![
                DiagnosticView {
                    range: inner_range(doc.tree.range(path)),
                    severity: Severity::Error,
                    source: None,
                    message: "file not found!"@,
                },
            ],
            None => Seq::empty(),
        }
    } else {
        Seq::empty()
    }
}

/// What is said of the dead links at and below a node.
pub open spec fn dead_links(doc: DocView, env: EnvView, node: int) -> Seq<DiagnosticView>
    decreases doc.tree.len() - node, 1int, 0int,
{
    dead_link(doc, env, node) + dead_links_below(doc, env, node, 0)
}

/// What is said of the dead links in the named children of a node from place `k` on.
pub open spec fn dead_links_below(doc: DocView, env: EnvView, node: int, k: int) -> Seq<
    DiagnosticView,
>
    decreases doc.tree.len() - node, 0int, doc.tree.named_children(node).len() - k,
{
    let children = doc.tree.named_children(node);
    if k < 0 || k >= children.len() {
        Seq::empty()
    } else if node < children[k] < doc.tree.len() {
        dead_links(doc, env, children[k]) + dead_links_below(doc, env, node, k + 1)
    } else {
        dead_links_below(doc, env, node, k + 1)
    }
}

/// All that is said of a document: what the parser could not make sense of, links that lead
/// nowhere, and local variables that nothing uses.
pub open spec fn document_findings(doc: DocView, env: EnvView) -> Seq<DiagnosticView> {
    faults(doc.tree, doc.tree.len()) + dead_links(doc, env, 0) + unused_locals(doc.code, doc.tree)
}

/// The statement at a position: the first child of the root that ends behind it, or the root.
pub open spec fn statement_at(tree: Tree, point: Position) -> int {
    match tree.child_ending_after(0, point, 0) {
        Some(node) => node,
        None => 0,
    }
}

/// What is said of a document that was just changed: what the parser could not make sense of,
/// and the link that a single change touched if it leads nowhere.
pub open spec fn edit_findings(doc: DocView, env: EnvView, changes: Seq<TextChange>) -> Seq<
    DiagnosticView,
> {
    let all = faults(doc.tree, doc.tree.len());
    if changes.len() == 1 {
        match changes[0].range {
            Some(range) => all + dead_link(doc, env, statement_at(doc.tree, range.start)),
            None => all,
        }
    } else {
        all
    }
}

/// The faults of a tree.
fn error_nodes(tree: &SyntaxTree) -> (found: Vec<Diagnostic>)
    ensures
        diagnostic_views(found@) == faults(tree@, tree@.len()),
{
    let mut found: Vec<Diagnostic> = Vec::new();
    assert(diagnostic_views(found@) =~= Seq::<DiagnosticView>::empty());
    let mut k: usize = 0;
    while k < tree.len()
        invariant
            k <= tree@.len(),
            diagnostic_views(found@) == faults(tree@, k as int),
        decreases tree@.len() - k,
    {
        let ghost before = found@;
        let node = tree.node(k);
        if tree.kind(k) == NodeKind::Error || node.missing {
            let message: String = if node.missing {
                let mut text = "missing ".to_owned();
                text.append(node.kind_name.as_str());
                text
            } else {
                "syntax error".to_owned()
            };
            let diagnostic = Diagnostic {
                range: tree.range(k),
                severity: Severity::Error,
                source: None,
                message,
            };
            found.push(diagnostic);
            proof {
                assert(diagnostic@ =~= fault(tree@, k as int));
                assert(diagnostic_views(found@) =~= diagnostic_views(before).push(diagnostic@));
            }
        }
        k += 1;
    }
    found
}

/// Adds what is said of an `include` or `use` that leads nowhere.
fn add_dead_link(doc: &ParsedCode, env: &Environment, node: usize, found: &mut Vec<Diagnostic>)
    requires
        doc@.tree.wf(),
        doc@.tree.has(node as int),
    ensures
        diagnostic_views(final(found)@) == diagnostic_views(old(found)@) + dead_link(
            doc@,
            env@,
            node as int,
        ),
{
    if doc.tree.kind(node).is_dependency_statement() && doc.get_include_url(node, env).is_none() {
        match doc.tree.child(node, 1) {
            Some(path) => {
                let range = doc.tree.range(path);
                let diagnostic = Diagnostic {
                    range: Range {
                        start: Position {
                            line: range.start.line,
                            character: range.start.character.saturating_add(1),
                        },
                        end: Position {
                            line: range.end.line,
                            character: range.end.character.saturating_sub(1),
                        },
                    },
                    severity: Severity::Error,
                    source: None,
                    message: "file not found!".to_owned(),
                };
                found.push(diagnostic);
                proof {
                    assert(seq![diagnostic@] =~= dead_link(doc@, env@, node as int));
                    assert(diagnostic_views(found@) =~= diagnostic_views(old(found)@) + seq![
                        diagnostic@,
                    ]);
                }
                return;
            },
            None => {},
        }
    }
    assert(diagnostic_views(found@) =~= diagnostic_views(old(found)@) + dead_link(
        doc@,
        env@,
        node as int,
    ));
}

/// Adds what is said of the dead links at and below a node.
fn collect_missing_dependency_diagnostics(
    doc: &ParsedCode,
    env: &Environment,
    node: usize,
    found: &mut Vec<Diagnostic>,
)
    requires
        doc@.tree.wf(),
        doc@.tree.has(node as int),
    ensures
        diagnostic_views(final(found)@) == diagnostic_views(old(found)@) + dead_links(
            doc@,
            env@,
            node as int,
        ),
    decreases doc@.tree.len() - node,
{
    let ghost start = diagnostic_views(found@);
    let ghost goal = start + dead_links(doc@, env@, node as int);
    add_dead_link(doc, env, node, found);
    let children: Vec<usize> = doc.tree.named_children(node);
    let ghost nodes = doc@.tree.named_children(node as int);
    assert(children@.len() == nodes.len()) by {
        assert(crate::cursor::node_indices(children@).len() == children@.len());
    }
    assert(diagnostic_views(found@) + dead_links_below(doc@, env@, node as int, 0) =~= goal);
    let mut k: usize = 0;
    while k < children.len()
        invariant
            k <= children@.len(),
            doc@.tree.wf(),
            doc@.tree.has(node as int),
            nodes == doc@.tree.named_children(node as int),
            children@.len() == nodes.len(),
            forall|j: int|
                0 <= j < children@.len() ==> node < #[trigger] children@[j] < doc@.tree.len()
                    && children@[j] == nodes[j],
            diagnostic_views(found@) + dead_links_below(doc@, env@, node as int, k as int) == goal,
        decreases children@.len() - k,
    {
        let child: usize = children[k];
        let ghost before = diagnostic_views(found@);
        collect_missing_dependency_diagnostics(doc, env, child, found);
        proof {
            let here = dead_links(doc@, env@, child as int);
            let rest = dead_links_below(doc@, env@, node as int, k + 1);
            assert(dead_links_below(doc@, env@, node as int, k as int) == here + rest);
            assert(before + (here + rest) =~= (before + here) + rest);
        }
        k += 1;
    }
    assert(dead_links_below(doc@, env@, node as int, k as int) =~= Seq::<DiagnosticView>::empty());
    assert(diagnostic_views(found@) =~= goal);
}

/// All that is said of a document.
pub fn document_diagnostics(doc: &ParsedCode, env: &Environment) -> (found: Vec<Diagnostic>)
    requires
        doc@.wf(),
    ensures
        diagnostic_views(found@) == document_findings(doc@, env@),
{
    let mut found = error_nodes(&doc.tree);
    collect_missing_dependency_diagnostics(doc, env, 0, &mut found);
    let ghost before = found@;
    let mut unused = UnusedLocalAnalyzer::new(doc.code.as_str(), &doc.tree).finish();
    let ghost added = unused@;
    found.append(&mut unused);
    assert(diagnostic_views(found@) =~= diagnostic_views(before) + diagnostic_views(added));
    found
}

/// What is said of a document that was just changed.
pub fn edit_diagnostics(doc: &ParsedCode, env: &Environment, changes: &Vec<TextChange>) -> (found:
    Vec<Diagnostic>)
    requires
        doc@.wf(),
    ensures
        diagnostic_views(found@) == edit_findings(doc@, env@, changes@),
{
    let mut found = error_nodes(&doc.tree);
    if changes.len() == 1 {
        match changes[0].range {
            Some(range) => {
                let node: usize = match doc.tree.first_child_ending_after(0, range.start) {
                    Some(child) => child,
                    None => 0,
                };
                add_dead_link(doc, env, node, &mut found);
            },
            None => {},
        }
    }
    found
}

} // verus!
