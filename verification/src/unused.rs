use vstd::prelude::*;
use vstd::string::*;

use crate::cursor::node_index;
use crate::diagnostic::{Diagnostic, DiagnosticView, Severity};
use crate::kinds::{Field, NodeKind};
use crate::position::Range;
use crate::syntax::{SyntaxTree, Tree};
use crate::unused_laws::{law_visiting_a_node_keeps_what_is_known, walk_kept};

verus! {

/// A variable that is in scope, and whether it was used yet.
#[derive(Debug)]
pub struct LocalDeclaration {
    pub name: String,
    pub range: Range,
    pub used: bool,
    pub report_unused: bool,
}

/// The model of a [`LocalDeclaration`].
#[verifier::ext_equal]
pub struct LocalView {
    pub name: Seq<char>,
    pub range: Range,
    pub used: bool,
    pub report_unused: bool,
}

impl View for LocalDeclaration {
    type V = LocalView;

    open spec fn view(&self) -> LocalView {
        LocalView {
            name: self.name@,
            range: self.range,
            used: self.used,
            report_unused: self.report_unused,
        }
    }
}

/// The variables of one scope, in the order in which they are declared.
#[derive(Debug)]
pub struct Scope {
    pub declarations: Vec<LocalDeclaration>,
}

impl View for Scope {
    type V = Seq<LocalView>;

    open spec fn view(&self) -> Seq<LocalView> {
        self.declarations@.map_values(|d: LocalDeclaration| d@)
    }
}

/// What a walk through a document meets, as far as local variables are concerned.
pub enum Event {
    /// The start of a module or a function.
    Enter,
    /// The end of a module or a function.
    Leave,
    /// The start of a scope.
    Open,
    /// The end of a scope.
    Close,
    /// A variable is declared.
    Declare { name: Seq<char>, range: Range, report: bool },
    /// A variable is used.
    Use { name: Seq<char> },
}

/// What is known at some point of a walk.
#[verifier::ext_equal]
pub struct WalkView {
    pub scopes: Seq<Seq<LocalView>>,
    /// The number of modules and functions around this point.
    pub depth: int,
    pub diagnostics: Seq<DiagnosticView>,
}

/// The warning about a variable.
pub open spec fn unused_warning(name: Seq<char>, range: Range) -> DiagnosticView {
    DiagnosticView {
        range,
        severity: Severity::Warning,
        source: Some("openscad-lsp"@),
        message: "unused local variable `"@ + name + "`"@,
    }
}

/// The warnings about the variables of a scope that ends.
pub open spec fn scope_warnings(scope: Seq<LocalView>) -> Seq<DiagnosticView>
    decreases scope.len(),
{
    if scope.len() == 0 {
        Seq::empty()
    } else {
        let earlier = scope_warnings(scope.drop_last());
        let last = scope.last();
        if last.report_unused && !last.used {
            earlier.push(unused_warning(last.name, last.range))
        } else {
            earlier
        }
    }
}

/// The last variable of a name among the first `k` of a scope.
pub open spec fn last_named(scope: Seq<LocalView>, name: Seq<char>, k: int) -> Option<int>
    decreases k,
{
    if k <= 0 || k > scope.len() {
        None
    } else if scope[k - 1].name == name {
        Some(k - 1)
    } else {
        last_named(scope, name, k - 1)
    }
}

/// A scope with one of its variables marked as used.
pub open spec fn scope_with_used(scope: Seq<LocalView>, k: int) -> Seq<LocalView> {
    scope.update(k, LocalView { used: true, ..scope[k] })
}

/// The scopes once a name was used: the innermost, latest variable of that name is marked.
pub open spec fn with_used(scopes: Seq<Seq<LocalView>>, name: Seq<char>) -> Seq<Seq<LocalView>>
    decreases scopes.len(),
{
    if scopes.len() == 0 {
        scopes
    } else {
        match last_named(scopes.last(), name, scopes.last().len() as int) {
            Some(k) => scopes.drop_last().push(scope_with_used(scopes.last(), k)),
            None => with_used(scopes.drop_last(), name).push(scopes.last()),
        }
    }
}

/// Whether the unused variables of a name are reported: an underscore at its start says that
/// the variable is meant to be unused.
pub open spec fn reportable_name(name: Seq<char>) -> bool {
    name.len() == 0 || name[0] != '_'
}

/// What is known behind an event.
pub open spec fn step(walk: WalkView, event: Event) -> WalkView {
    match event {
        Event::Enter => WalkView { depth: walk.depth + 1, ..walk },
        Event::Leave => WalkView { depth: walk.depth - 1, ..walk },
        Event::Open => WalkView { scopes: walk.scopes.push(Seq::empty()), ..walk },
        Event::Close => if walk.scopes.len() == 0 {
            walk
        } else {
            WalkView {
                scopes: walk.scopes.drop_last(),
                diagnostics: walk.diagnostics + scope_warnings(walk.scopes.last()),
                ..walk
            }
        },
        Event::Declare { name, range, report } => if walk.scopes.len() == 0 {
            walk
        } else {
            let local = LocalView {
                name,
                range,
                used: false,
                report_unused: report && walk.depth > 0 && reportable_name(name),
            };
            WalkView {
                scopes: walk.scopes.drop_last().push(walk.scopes.last().push(local)),
                ..walk
            }
        },
        Event::Use { name } => WalkView { scopes: with_used(walk.scopes, name), ..walk },
    }
}

/// What is known behind a list of events.
pub open spec fn run(walk: WalkView, events: Seq<Event>) -> WalkView
    decreases events.len(),
{
    if events.len() == 0 {
        walk
    } else {
        step(run(walk, events.drop_last()), events.last())
    }
}

/// Running one list of events after another is running both.
pub proof fn lemma_run_concat(walk: WalkView, first: Seq<Event>, second: Seq<Event>)
    ensures
        run(walk, first + second) == run(run(walk, first), second),
    decreases second.len(),
{
    if second.len() == 0 {
        assert(first + second =~= first);
    } else {
        assert((first + second).drop_last() =~= first + second.drop_last());
        lemma_run_concat(walk, first, second.drop_last());
    }
}

/// Running a single event is one step.
pub proof fn lemma_run_one(walk: WalkView, event: Event)
    ensures
        run(walk, seq![event]) == step(walk, event),
{
    assert(seq![event].drop_last() =~= Seq::<Event>::empty());
    reveal_with_fuel(run, 2);
}

/// The ways in which a walk goes through the children of a node.
#[derive(Clone, Copy, PartialEq, Eq, Structural)]
pub enum Mode {
    /// Each child for itself.
    Children,
    /// The body of a module or a function.
    Callable,
    /// A list of parameters.
    Parameters,
    /// A construct that declares variables for its own body.
    AssignmentScope,
    /// The `let` in front of a list comprehension.
    LetPrefix,
    /// The start or the step of a counting loop.
    Declaring,
    /// The step of a counting loop.
    Updating,
    /// A list of declarations.
    Assignments,
    /// The arguments of a call.
    Arguments,
}

/// Whether an identifier uses a variable: it does not where it names what its parent declares or
/// calls, selects a component, or is a parameter.
pub open spec fn variable_reference(tree: Tree, node: int) -> bool {
    match tree.parent(node) {
        None => true,
        Some(parent) => {
            let kind = tree.kind(parent);
            if tree.child_by_field(parent, Field::Name) == Some(node) && (kind is Assignment
                || kind is ModuleItem || kind is FunctionItem || kind is ModuleCall) {
                false
            } else if tree.child_by_field(parent, Field::Index) == Some(node)
                && kind is DotIndexExpression {
                false
            } else {
                !(kind is Parameter)
            }
        },
    }
}

/// The declaration of the variable that a node names.
pub open spec fn declare_events(code: Seq<char>, tree: Tree, node: Option<int>, report: bool) -> Seq<
    Event,
> {
    match node {
        Some(n) => if tree.kind(n) is Identifier {
            seq![
                Event::Declare { name: tree.node_text(code, n), range: tree.range(n), report },
            ]
        } else {
            Seq::empty()
        },
        None => Seq::empty(),
    }
}

/// The events of the child of `node` that has a role.
pub open spec fn field_events(code: Seq<char>, tree: Tree, node: int, field: Field) -> Seq<Event>
    decreases tree.len() - node, 1int, 0int,
{
    match tree.child_by_field(node, field) {
        Some(c) => if node < c < tree.len() {
            node_events(code, tree, c)
        } else {
            Seq::empty()
        },
        None => Seq::empty(),
    }
}

/// The events of the children of the child of `node` that has a role.
pub open spec fn field_list_events(
    code: Seq<char>,
    tree: Tree,
    node: int,
    field: Field,
    mode: Mode,
) -> Seq<Event>
    decreases tree.len() - node, 1int, 0int,
{
    match tree.child_by_field(node, field) {
        Some(c) => if node < c < tree.len() {
            list_events(code, tree, c, mode, 0)
        } else {
            Seq::empty()
        },
        None => Seq::empty(),
    }
}

/// The events of a declaration `name = value`: the value does not see the name yet.
pub open spec fn declaration_events(code: Seq<char>, tree: Tree, node: int, report: bool) -> Seq<
    Event,
>
    decreases tree.len() - node, 2int, 0int,
{
    field_events(code, tree, node, Field::Value) + declare_events(
        code,
        tree,
        tree.child_by_field(node, Field::Name),
        report,
    )
}

/// The events of an assignment that declares nothing.
pub open spec fn update_events(code: Seq<char>, tree: Tree, node: int) -> Seq<Event>
    decreases tree.len() - node, 2int, 0int,
{
    field_events(code, tree, node, Field::Name) + field_events(code, tree, node, Field::Value)
}

/// The events of a parameter.
pub open spec fn parameter_events(code: Seq<char>, tree: Tree, node: int) -> Seq<Event>
    decreases tree.len() - node, 2int, 0int,
{
    match tree.first_named_child(node) {
        Some(child) => if !(node < child < tree.len()) {
            Seq::empty()
        } else if tree.kind(child) is Identifier {
            declare_events(code, tree, Some(child), false)
        } else if tree.kind(child) is Assignment {
            declaration_events(code, tree, child, false)
        } else {
            Seq::empty()
        },
        None => Seq::empty(),
    }
}

/// The events of the head of a counting loop.
pub open spec fn condition_events(code: Seq<char>, tree: Tree, node: int) -> Seq<Event>
    decreases tree.len() - node, 2int, 0int,
{
    field_list_events(code, tree, node, Field::Initializer, Mode::Declaring) + field_events(
        code,
        tree,
        node,
        Field::Condition,
    ) + field_list_events(code, tree, node, Field::Update, Mode::Updating)
}

/// The events of one child.
pub open spec fn child_events(code: Seq<char>, tree: Tree, node: int, mode: Mode, child: int) -> Seq<
    Event,
>
    decreases tree.len() - node, 0int, 0int,
{
    if !(node < child < tree.len()) {
        Seq::empty()
    } else {
        match mode {
            Mode::Children => node_events(code, tree, child),
            Mode::Callable => if tree.child_by_field(node, Field::Name) == Some(child)
                || tree.child_by_field(node, Field::Parameters) == Some(child) {
                Seq::empty()
            } else {
                node_events(code, tree, child)
            },
            Mode::Parameters => if tree.kind(child) is Parameter {
                parameter_events(code, tree, child)
            } else {
                Seq::empty()
            },
            Mode::AssignmentScope => match tree.kind(child) {
                NodeKind::Assignments => list_events(code, tree, child, Mode::Assignments, 0),
                NodeKind::LetPrefix => list_events(code, tree, child, Mode::LetPrefix, 0),
                NodeKind::ConditionUpdateClause => condition_events(code, tree, child),
                _ => node_events(code, tree, child),
            },
            Mode::LetPrefix => if tree.kind(child) is Assignments {
                list_events(code, tree, child, Mode::Assignments, 0)
            } else {
                node_events(code, tree, child)
            },
            Mode::Declaring => if tree.kind(child) is Assignment {
                declaration_events(code, tree, child, true)
            } else {
                node_events(code, tree, child)
            },
            Mode::Updating => if tree.kind(child) is Assignment {
                update_events(code, tree, child)
            } else {
                node_events(code, tree, child)
            },
            Mode::Assignments => if tree.kind(child) is Assignment {
                declaration_events(code, tree, child, true)
            } else {
                Seq::empty()
            },
            Mode::Arguments => if tree.kind(child) is Assignment {
                field_events(code, tree, child, Field::Value)
            } else {
                node_events(code, tree, child)
            },
        }
    }
}

/// The events of the named children of a node from place `k` on.
pub open spec fn list_events(code: Seq<char>, tree: Tree, node: int, mode: Mode, k: int) -> Seq<Event>
    decreases tree.len() - node, 1int, tree.named_children(node).len() - k,
{
    if k < 0 || k >= tree.named_children(node).len() {
        Seq::empty()
    } else {
        child_events(code, tree, node, mode, tree.named_children(node)[k]) + list_events(
            code,
            tree,
            node,
            mode,
            k + 1,
        )
    }
}

/// The events of a module or a function.
pub open spec fn callable_events(code: Seq<char>, tree: Tree, node: int) -> Seq<Event>
    decreases tree.len() - node, 2int, 0int,
{
    seq![Event::Enter, Event::Open] + field_list_events(
        code,
        tree,
        node,
        Field::Parameters,
        Mode::Parameters,
    ) + list_events(code, tree, node, Mode::Callable, 0) + seq![Event::Close, Event::Leave]
}

/// The events of a node.
pub open spec fn node_events(code: Seq<char>, tree: Tree, node: int) -> Seq<Event>
    decreases tree.len() - node, 3int, 0int,
{
    match tree.kind(node) {
        NodeKind::ModuleItem | NodeKind::FunctionItem | NodeKind::FunctionLit => callable_events(
            code,
            tree,
            node,
        ),
        NodeKind::VarDeclaration => match tree.first_named_child(node) {
            Some(assignment) => if node < assignment < tree.len() {
                declaration_events(code, tree, assignment, true)
            } else {
                Seq::empty()
            },
            None => Seq::empty(),
        },
        NodeKind::LetExpression
        | NodeKind::LetBlock
        | NodeKind::AssignBlock
        | NodeKind::ForBlock
        | NodeKind::IntersectionForBlock
        | NodeKind::ForClause
        | NodeKind::IfClause
        | NodeKind::Each => seq![Event::Open] + list_events(
            code,
            tree,
            node,
            Mode::AssignmentScope,
            0,
        ) + seq![Event::Close],
        NodeKind::LetPrefix => list_events(code, tree, node, Mode::LetPrefix, 0),
        NodeKind::Arguments => list_events(code, tree, node, Mode::Arguments, 0),
        NodeKind::ModuleCall => field_events(code, tree, node, Field::Arguments),
        NodeKind::FunctionCall => field_events(code, tree, node, Field::Name) + field_events(
            code,
            tree,
            node,
            Field::Arguments,
        ),
        NodeKind::DotIndexExpression => field_events(code, tree, node, Field::Value),
        NodeKind::Assignment => update_events(code, tree, node),
        NodeKind::Identifier => if variable_reference(tree, node) {
            seq![Event::Use { name: tree.node_text(code, node) }]
        } else {
            Seq::empty()
        },
        _ => list_events(code, tree, node, Mode::Children, 0),
    }
}

/// The walk before it meets anything.
pub open spec fn fresh_walk() -> WalkView {
    WalkView { scopes: Seq::empty(), depth: 0, diagnostics: Seq::empty() }
}

/// The warnings about the unused local variables of a document.
pub open spec fn unused_locals(code: Seq<char>, tree: Tree) -> Seq<DiagnosticView> {
    run(fresh_walk(), list_events(code, tree, 0, Mode::Children, 0)).diagnostics
}

/// A walk through a document that looks for local variables that nothing uses.
pub struct UnusedLocalAnalyzer<'a> {
    code: &'a str,
    tree: &'a SyntaxTree,
    diagnostics: Vec<Diagnostic>,
    scopes: Vec<Scope>,
    callable_depth: usize,
}

impl<'a> View for UnusedLocalAnalyzer<'a> {
    type V = WalkView;

    closed spec fn view(&self) -> WalkView {
        WalkView {
            scopes: self.scopes@.map_values(|s: Scope| s@),
            depth: self.callable_depth as int,
            diagnostics: self.diagnostics@.map_values(|d: Diagnostic| d@),
        }
    }
}

impl<'a> UnusedLocalAnalyzer<'a> {
    /// The text of the document.
    pub closed spec fn source(self) -> Seq<char> {
        self.code@
    }

    /// The tree of the document.
    pub closed spec fn syntax(self) -> Tree {
        self.tree@
    }

    /// The document stays the same.
    pub closed spec fn same_document(self, other: UnusedLocalAnalyzer<'a>) -> bool {
        self.code == other.code && self.tree == other.tree
    }

    /// Starts a walk through a document.
    pub fn new(code: &'a str, tree: &'a SyntaxTree) -> (analyzer: UnusedLocalAnalyzer<'a>)
        ensures
            analyzer.source() == code@,
            analyzer.syntax() == tree@,
            analyzer@ == fresh_walk(),
    {
        let analyzer = UnusedLocalAnalyzer {
            code,
            tree,
            diagnostics: Vec::new(),
            scopes: Vec::new(),
            callable_depth: 0,
        };
        assert(analyzer@ =~= fresh_walk());
        analyzer
    }

    /// Walks through the whole document and returns what was found.
    pub fn finish(self) -> (diagnostics: Vec<Diagnostic>)
        requires
            self.syntax().wf(),
            self@ == fresh_walk(),
        ensures
            diagnostics@.map_values(|d: Diagnostic| d@) == unused_locals(
                self.source(),
                self.syntax(),
            ),
    {
        let mut walk = self;
        walk.visit_list(0, Mode::Children);
        walk.diagnostics
    }

    fn push_scope(&mut self)
        ensures
            final(self)@ == step(old(self)@, Event::Open),
            final(self).same_document(*old(self)),
            final(self).callable_depth == old(self).callable_depth,
    {
        self.scopes.push(Scope { declarations: Vec::new() });
        assert(self@ =~= step(old(self)@, Event::Open)) by {
            assert(self@.scopes.last() =~= Seq::<LocalView>::empty());
            assert(self@.scopes =~= old(self)@.scopes.push(Seq::empty()));
        }
    }

    fn pop_scope(&mut self)
        ensures
            final(self)@ == step(old(self)@, Event::Close),
            final(self).same_document(*old(self)),
            final(self).callable_depth == old(self).callable_depth,
    {
        let scope: Scope = match self.scopes.pop() {
            Some(scope) => scope,
            None => {
                assert(self@ =~= old(self)@);
                return;
            },
        };
        let ghost before = old(self)@;
        let ghost closed = scope@;
        assert(before.scopes.last() == closed);
        assert(self@.scopes =~= before.scopes.drop_last());
        assert(closed.take(0) =~= Seq::<LocalView>::empty());
        assert(self@.diagnostics =~= before.diagnostics + scope_warnings(closed.take(0)));
        let mut i: usize = 0;
        while i < scope.declarations.len()
            invariant
                i <= scope.declarations@.len(),
                closed == scope@,
                self@.scopes == before.scopes.drop_last(),
                self@.depth == before.depth,
                self.callable_depth == old(self).callable_depth,
                self.same_document(*old(self)),
                self@.diagnostics == before.diagnostics + scope_warnings(closed.take(i as int)),
            decreases scope.declarations@.len() - i,
        {
            let declaration = &scope.declarations[i];
            let ghost reported = self@.diagnostics;
            proof {
                assert(closed.take(i + 1).drop_last() =~= closed.take(i as int));
                assert(closed.take(i + 1).last() == declaration@);
            }
            if declaration.report_unused && !declaration.used {
                let mut message = "unused local variable `".to_owned();
                message.append(declaration.name.as_str());
                message.append("`");
                let warning = Diagnostic {
                    range: declaration.range,
                    severity: Severity::Warning,
                    source: Some("openscad-lsp".to_owned()),
                    message,
                };
                assert(warning@ == unused_warning(declaration@.name, declaration@.range));
                self.diagnostics.push(warning);
                assert(self@.diagnostics =~= reported.push(warning@));
                assert(self@.diagnostics =~= before.diagnostics + scope_warnings(
                    closed.take(i + 1),
                ));
            }
            i += 1;
        }
        assert(closed.take(closed.len() as int) =~= closed);
    }

    fn declare(&mut self, node: Option<usize>, report_unused: bool)
        requires
            node matches Some(n) ==> old(self).syntax().has(n as int),
        ensures
            final(self)@ == run(
                old(self)@,
                declare_events(
                    old(self).source(),
                    old(self).syntax(),
                    node_index(node),
                    report_unused,
                ),
            ),
            final(self).same_document(*old(self)),
            final(self).callable_depth == old(self).callable_depth,
    {
        let node: usize = match node {
            Some(node) => node,
            None => {
                return;
            },
        };
        if self.tree.kind(node) != NodeKind::Identifier {
            return;
        }
        let name = self.tree.node_text(self.code, node);
        let range = self.tree.range(node);
        proof {
            lemma_run_one(
                old(self)@,
                Event::Declare { name: name@, range, report: report_unused },
            );
        }
        if self.scopes.len() == 0 {
            return;
        }
        let reportable: bool = name.as_str().is_empty() || name.as_str().get_char(0) != '_';
        let local = LocalDeclaration {
            name,
            range,
            used: false,
            report_unused: report_unused && self.callable_depth > 0 && reportable,
        };
        let ghost before = self@.scopes;
        let last: usize = self.scopes.len() - 1;
        let ghost inner = self.scopes@[last as int]@;
        self.scopes[last].declarations.push(local);
        proof {
            assert(self.scopes@[last as int]@ =~= inner.push(local@));
            assert(self@.scopes =~= before.drop_last().push(before.last().push(local@)));
        }
    }

    /// Marks the innermost, latest variable of a name as used.
    fn mark_used(&mut self, name: &String)
        ensures
            final(self)@ == step(old(self)@, Event::Use { name: name@ }),
            final(self).same_document(*old(self)),
            final(self).callable_depth == old(self).callable_depth,
    {
        let ghost before = self@.scopes;
        let mut s: usize = self.scopes.len();
        assert(before.take(before.len() as int) =~= before);
        assert(before.skip(before.len() as int) =~= Seq::<Seq<LocalView>>::empty());
        assert(with_used(before.take(s as int), name@) + before.skip(s as int) =~= with_used(
            before,
            name@,
        ));
        while s > 0
            invariant
                s <= before.len(),
                before == self@.scopes,
                before.len() == self.scopes@.len(),
                *self == *old(self),
                with_used(before, name@) == with_used(before.take(s as int), name@) + before.skip(
                    s as int,
                ),
            decreases s,
        {
            let ghost scope = before[s - 1];
            let mut d: usize = self.scopes[s - 1].declarations.len();
            proof {
                assert(before.take(s as int).drop_last() =~= before.take(s - 1));
                assert(before.take(s as int).last() == scope);
            }
            while d > 0
                invariant
                    0 < s <= before.len(),
                    d <= scope.len(),
                    before == self@.scopes,
                    before.len() == self.scopes@.len(),
                    *self == *old(self),
                    scope == before[s - 1],
                    scope.len() == self.scopes@[s - 1].declarations@.len(),
                    before.take(s as int).drop_last() == before.take(s - 1),
                    before.take(s as int).last() == scope,
                    with_used(before, name@) == with_used(before.take(s as int), name@)
                        + before.skip(s as int),
                    last_named(scope, name@, scope.len() as int) == last_named(
                        scope,
                        name@,
                        d as int,
                    ),
                decreases d,
            {
                assert(scope[d - 1] == self.scopes@[s - 1].declarations@[d - 1]@);
                if self.scopes[s - 1].declarations[d - 1].name == *name {
                    self.scopes[s - 1].declarations[d - 1].used = true;
                    proof {
                        assert(self.scopes@[s - 1]@ =~= scope_with_used(scope, d - 1));
                        assert(self@.scopes =~= before.update(
                            s - 1,
                            scope_with_used(scope, d - 1),
                        ));
                        assert(self@.scopes =~= with_used(before, name@));
                    }
                    return;
                }
                d -= 1;
            }
            proof {
                assert(with_used(before.take(s as int), name@) == with_used(
                    before.take(s - 1),
                    name@,
                ).push(scope));
                assert(with_used(before.take(s as int), name@) + before.skip(s as int)
                    =~= with_used(before.take(s - 1), name@) + before.skip(s - 1));
            }
            s -= 1;
        }
        proof {
            assert(before.take(0) =~= Seq::<Seq<LocalView>>::empty());
            assert(with_used(before, name@) =~= before);
        }
    }

    /// Whether an identifier uses a variable.
    fn is_variable_reference(&self, node: usize) -> (r: bool)
        requires
            self.syntax().wf(),
            self.syntax().has(node as int),
        ensures
            r == variable_reference(self.syntax(), node as int),
    {
        let parent: usize = match self.tree.parent(node) {
            Some(parent) => parent,
            None => {
                return true;
            },
        };
        let kind = self.tree.kind(parent);
        let named: bool = match self.tree.child_by_field(parent, Field::Name) {
            Some(name) => name == node,
            None => false,
        };
        if named && (kind == NodeKind::Assignment || kind == NodeKind::ModuleItem || kind
            == NodeKind::FunctionItem || kind == NodeKind::ModuleCall) {
            return false;
        }
        let indexed: bool = match self.tree.child_by_field(parent, Field::Index) {
            Some(index) => index == node,
            None => false,
        };
        if indexed && kind == NodeKind::DotIndexExpression {
            return false;
        }
        kind != NodeKind::Parameter
    }

    /// Goes through the named children of a node.
    fn visit_list(&mut self, node: usize, mode: Mode)
        requires
            old(self).syntax().wf(),
            old(self).syntax().has(node as int),
            old(self).callable_depth <= node + 1,
        ensures
            final(self)@ == run(
                old(self)@,
                list_events(old(self).source(), old(self).syntax(), node as int, mode, 0),
            ),
            final(self).same_document(*old(self)),
            final(self).callable_depth == old(self).callable_depth,
        decreases old(self).syntax().len() - node, 1int,
    {
        let children = self.tree.named_children(node);
        let ghost code = self.source();
        let ghost tree = self.syntax();
        let ghost start = self@;
        let mut k: usize = 0;
        while k < children.len()
            invariant
                k <= children@.len(),
                code == self.source(),
                tree == self.syntax(),
                tree.wf(),
                tree.has(node as int),
                children@.len() == tree.named_children(node as int).len(),
                forall|j: int|
                    0 <= j < children@.len() ==> node < #[trigger] children@[j] < tree.len()
                        && children@[j] == tree.named_children(node as int)[j],
                self.callable_depth <= node + 1,
                self.callable_depth == old(self).callable_depth,
                self.same_document(*old(self)),
                tree == old(self).syntax(),
                start == old(self)@,
                code == old(self).source(),
                run(start, list_events(code, tree, node as int, mode, 0)) == run(
                    self@,
                    list_events(code, tree, node as int, mode, k as int),
                ),
            decreases children@.len() - k,
        {
            let child: usize = children[k];
            let ghost here = self@;
            self.visit_child(node, mode, child);
            proof {
                lemma_run_concat(
                    here,
                    child_events(code, tree, node as int, mode, child as int),
                    list_events(code, tree, node as int, mode, k + 1),
                );
            }
            k += 1;
        }
    }

    /// Visits one child.
    fn visit_child(&mut self, node: usize, mode: Mode, child: usize)
        requires
            old(self).syntax().wf(),
            node < child < old(self).syntax().len(),
            old(self).callable_depth <= node + 1,
        ensures
            final(self)@ == run(
                old(self)@,
                child_events(
                    old(self).source(),
                    old(self).syntax(),
                    node as int,
                    mode,
                    child as int,
                ),
            ),
            final(self).same_document(*old(self)),
            final(self).callable_depth == old(self).callable_depth,
        decreases old(self).syntax().len() - node, 0int,
    {
        let kind = self.tree.kind(child);
        match mode {
            Mode::Children => self.visit_node(child),
            Mode::Callable => {
                let is_name: bool = match self.tree.child_by_field(node, Field::Name) {
                    Some(name) => name == child,
                    None => false,
                };
                let is_parameters: bool = match self.tree.child_by_field(node, Field::Parameters) {
                    Some(parameters) => parameters == child,
                    None => false,
                };
                if !is_name && !is_parameters {
                    self.visit_node(child);
                }
            },
            Mode::Parameters => {
                if kind == NodeKind::Parameter {
                    self.visit_parameter(child);
                }
            },
            Mode::AssignmentScope => match kind {
                NodeKind::Assignments => self.visit_list(child, Mode::Assignments),
                NodeKind::LetPrefix => self.visit_list(child, Mode::LetPrefix),
                NodeKind::ConditionUpdateClause => self.visit_condition_update_clause(child),
                _ => self.visit_node(child),
            },
            Mode::LetPrefix => {
                if kind == NodeKind::Assignments {
                    self.visit_list(child, Mode::Assignments);
                } else {
                    self.visit_node(child);
                }
            },
            Mode::Declaring => {
                if kind == NodeKind::Assignment {
                    self.visit_declaration_assignment(child, true);
                } else {
                    self.visit_node(child);
                }
            },
            Mode::Updating => {
                if kind == NodeKind::Assignment {
                    self.visit_update_assignment(child);
                } else {
                    self.visit_node(child);
                }
            },
            Mode::Assignments => {
                if kind == NodeKind::Assignment {
                    self.visit_declaration_assignment(child, true);
                }
            },
            Mode::Arguments => {
                if kind == NodeKind::Assignment {
                    self.visit_field(child, Field::Value);
                } else {
                    self.visit_node(child);
                }
            },
        }
    }

    /// Visits the child that has a role.
    fn visit_field(&mut self, node: usize, field: Field)
        requires
            old(self).syntax().wf(),
            old(self).syntax().has(node as int),
            old(self).callable_depth <= node + 1,
        ensures
            final(self)@ == run(
                old(self)@,
                field_events(old(self).source(), old(self).syntax(), node as int, field),
            ),
            final(self).same_document(*old(self)),
            final(self).callable_depth == old(self).callable_depth,
        decreases old(self).syntax().len() - node, 1int,
    {
        match self.tree.child_by_field(node, field) {
            Some(child) => self.visit_node(child),
            None => {},
        }
    }

    /// Goes through the children of the child that has a role.
    fn visit_field_list(&mut self, node: usize, field: Field, mode: Mode)
        requires
            old(self).syntax().wf(),
            old(self).syntax().has(node as int),
            old(self).callable_depth <= node + 1,
        ensures
            final(self)@ == run(
                old(self)@,
                field_list_events(old(self).source(), old(self).syntax(), node as int, field, mode),
            ),
            final(self).same_document(*old(self)),
            final(self).callable_depth == old(self).callable_depth,
        decreases old(self).syntax().len() - node, 1int,
    {
        match self.tree.child_by_field(node, field) {
            Some(child) => self.visit_list(child, mode),
            None => {},
        }
    }

    /// Visits a parameter.
    fn visit_parameter(&mut self, node: usize)
        requires
            old(self).syntax().wf(),
            old(self).syntax().has(node as int),
            old(self).callable_depth <= node + 1,
        ensures
            final(self)@ == run(
                old(self)@,
                parameter_events(old(self).source(), old(self).syntax(), node as int),
            ),
            final(self).same_document(*old(self)),
            final(self).callable_depth == old(self).callable_depth,
        decreases old(self).syntax().len() - node, 2int,
    {
        match self.tree.first_named_child(node) {
            Some(child) => match self.tree.kind(child) {
                NodeKind::Identifier => self.declare(Some(child), false),
                NodeKind::Assignment => self.visit_declaration_assignment(child, false),
                _ => {},
            },
            None => {},
        }
    }

    /// Visits the head of a counting loop.
    fn visit_condition_update_clause(&mut self, node: usize)
        requires
            old(self).syntax().wf(),
            old(self).syntax().has(node as int),
            old(self).callable_depth <= node + 1,
        ensures
            final(self)@ == run(
                old(self)@,
                condition_events(old(self).source(), old(self).syntax(), node as int),
            ),
            final(self).same_document(*old(self)),
            final(self).callable_depth == old(self).callable_depth,
        decreases old(self).syntax().len() - node, 2int,
    {
        let ghost code = self.source();
        let ghost tree = self.syntax();
        let ghost n = node as int;
        self.visit_field_list(node, Field::Initializer, Mode::Declaring);
        self.visit_field(node, Field::Condition);
        self.visit_field_list(node, Field::Update, Mode::Updating);
        proof {
            let first = field_list_events(code, tree, n, Field::Initializer, Mode::Declaring);
            let second = field_events(code, tree, n, Field::Condition);
            let third = field_list_events(code, tree, n, Field::Update, Mode::Updating);
            lemma_run_concat(old(self)@, first, second);
            lemma_run_concat(old(self)@, first + second, third);
        }
    }

    /// Visits a declaration: first its value, then its name.
    fn visit_declaration_assignment(&mut self, node: usize, report_unused: bool)
        requires
            old(self).syntax().wf(),
            old(self).syntax().has(node as int),
            old(self).callable_depth <= node + 1,
        ensures
            final(self)@ == run(
                old(self)@,
                declaration_events(
                    old(self).source(),
                    old(self).syntax(),
                    node as int,
                    report_unused,
                ),
            ),
            final(self).same_document(*old(self)),
            final(self).callable_depth == old(self).callable_depth,
        decreases old(self).syntax().len() - node, 2int,
    {
        let ghost code = self.source();
        let ghost tree = self.syntax();
        self.visit_field(node, Field::Value);
        let name: Option<usize> = self.tree.child_by_field(node, Field::Name);
        self.declare(name, report_unused);
        proof {
            lemma_run_concat(
                old(self)@,
                field_events(code, tree, node as int, Field::Value),
                declare_events(code, tree, node_index(name), report_unused),
            );
        }
    }

    /// Visits an assignment that declares nothing.
    fn visit_update_assignment(&mut self, node: usize)
        requires
            old(self).syntax().wf(),
            old(self).syntax().has(node as int),
            old(self).callable_depth <= node + 1,
        ensures
            final(self)@ == run(
                old(self)@,
                update_events(old(self).source(), old(self).syntax(), node as int),
            ),
            final(self).same_document(*old(self)),
            final(self).callable_depth == old(self).callable_depth,
        decreases old(self).syntax().len() - node, 2int,
    {
        let ghost code = self.source();
        let ghost tree = self.syntax();
        self.visit_field(node, Field::Name);
        self.visit_field(node, Field::Value);
        proof {
            lemma_run_concat(
                old(self)@,
                field_events(code, tree, node as int, Field::Name),
                field_events(code, tree, node as int, Field::Value),
            );
        }
    }

    /// Visits a module or a function.
    fn visit_callable(&mut self, node: usize)
        requires
            old(self).syntax().wf(),
            old(self).syntax().has(node as int),
            old(self).callable_depth <= node,
        ensures
            final(self)@ == run(
                old(self)@,
                callable_events(old(self).source(), old(self).syntax(), node as int),
            ),
            final(self).same_document(*old(self)),
            final(self).callable_depth == old(self).callable_depth,
        decreases old(self).syntax().len() - node, 2int,
    {
        let ghost code = self.source();
        let ghost tree = self.syntax();
        let ghost n = node as int;
        let ghost start = self@;
        self.callable_depth += 1;
        assert(self@ =~= step(start, Event::Enter));
        let ghost entered = self@;
        self.push_scope();
        proof {
            lemma_run_one(start, Event::Enter);
            lemma_run_one(entered, Event::Open);
            lemma_run_concat(start, seq![Event::Enter], seq![Event::Open]);
            assert(seq![Event::Enter] + seq![Event::Open] =~= seq![Event::Enter, Event::Open]);
        }
        self.visit_field_list(node, Field::Parameters, Mode::Parameters);
        self.visit_list(node, Mode::Callable);
        let ghost inside = self@;
        self.pop_scope();
        let ghost left = self@;
        self.callable_depth -= 1;
        assert(self@ =~= step(left, Event::Leave));
        proof {
            let first = seq![Event::Enter, Event::Open];
            let second = field_list_events(code, tree, n, Field::Parameters, Mode::Parameters);
            let third = list_events(code, tree, n, Mode::Callable, 0);
            let fourth = seq![Event::Close, Event::Leave];
            lemma_run_concat(start, first, second);
            lemma_run_concat(start, first + second, third);
            lemma_run_one(inside, Event::Close);
            lemma_run_one(left, Event::Leave);
            lemma_run_concat(inside, seq![Event::Close], seq![Event::Leave]);
            assert(seq![Event::Close] + seq![Event::Leave] =~= fourth);
            lemma_run_concat(start, first + second + third, fourth);
        }
    }

    /// Visits a construct that declares variables for its own body.
    fn visit_assignment_scope(&mut self, node: usize)
        requires
            old(self).syntax().wf(),
            old(self).syntax().has(node as int),
            old(self).callable_depth <= node + 1,
        ensures
            final(self)@ == run(
                old(self)@,
                seq![Event::Open] + list_events(
                    old(self).source(),
                    old(self).syntax(),
                    node as int,
                    Mode::AssignmentScope,
                    0,
                ) + seq![Event::Close],
            ),
            final(self).same_document(*old(self)),
            final(self).callable_depth == old(self).callable_depth,
        decreases old(self).syntax().len() - node, 2int,
    {
        let ghost code = self.source();
        let ghost tree = self.syntax();
        let ghost start = self@;
        self.push_scope();
        self.visit_list(node, Mode::AssignmentScope);
        let ghost inside = self@;
        self.pop_scope();
        proof {
            let middle = list_events(code, tree, node as int, Mode::AssignmentScope, 0);
            lemma_run_one(start, Event::Open);
            lemma_run_concat(start, seq![Event::Open], middle);
            lemma_run_one(inside, Event::Close);
            lemma_run_concat(start, seq![Event::Open] + middle, seq![Event::Close]);
        }
    }

    /// Visits a node. What was known before still is: the scopes and their variables, the warnings,
    /// and how many modules and functions are around.
    pub fn visit_node(&mut self, node: usize)
        requires
            old(self).syntax().wf(),
            old(self).syntax().has(node as int),
            old(self)@.depth <= node,
        ensures
            final(self)@.scopes.len() == old(self)@.scopes.len(),
            final(self)@.depth == old(self)@.depth,
            walk_kept(old(self)@, final(self)@),
            final(self).source() == old(self).source(),
            final(self).syntax() == old(self).syntax(),
            final(self)@ == run(
                old(self)@,
                node_events(old(self).source(), old(self).syntax(), node as int),
            ),
            final(self).same_document(*old(self)),
        decreases old(self).syntax().len() - node, 3int,
    {
        let ghost code = self.source();
        let ghost tree = self.syntax();
        proof {
            law_visiting_a_node_keeps_what_is_known(self@, code, tree, node as int);
        }
        match self.tree.kind(node) {
            NodeKind::ModuleItem | NodeKind::FunctionItem | NodeKind::FunctionLit => {
                self.visit_callable(node);
            },
            NodeKind::VarDeclaration => match self.tree.first_named_child(node) {
                Some(assignment) => self.visit_declaration_assignment(assignment, true),
                None => {},
            },
            NodeKind::LetExpression
            | NodeKind::LetBlock
            | NodeKind::AssignBlock
            | NodeKind::ForBlock
            | NodeKind::IntersectionForBlock
            | NodeKind::ForClause
            | NodeKind::IfClause
            | NodeKind::Each => {
                self.visit_assignment_scope(node);
            },
            NodeKind::LetPrefix => self.visit_list(node, Mode::LetPrefix),
            NodeKind::Arguments => self.visit_list(node, Mode::Arguments),
            NodeKind::ModuleCall => self.visit_field(node, Field::Arguments),
            NodeKind::FunctionCall => {
                self.visit_field(node, Field::Name);
                self.visit_field(node, Field::Arguments);
                proof {
                    lemma_run_concat(
                        old(self)@,
                        field_events(code, tree, node as int, Field::Name),
                        field_events(code, tree, node as int, Field::Arguments),
                    );
                }
            },
            NodeKind::DotIndexExpression => self.visit_field(node, Field::Value),
            NodeKind::Assignment => self.visit_update_assignment(node),
            NodeKind::Identifier => {
                if self.is_variable_reference(node) {
                    let name = self.tree.node_text(self.code, node);
                    proof {
                        lemma_run_one(self@, Event::Use { name: name@ });
                    }
                    self.mark_used(&name);
                }
            },
            _ => self.visit_list(node, Mode::Children),
        }
    }
}

} // verus!
