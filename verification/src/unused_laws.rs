use vstd::prelude::*;

use crate::diagnostic::DiagnosticView;
use crate::kinds::{Field, NodeKind};
use crate::position::Range;
use crate::syntax::Tree;
use crate::unused::{
    callable_events, child_events, condition_events, declaration_events, declare_events,
    field_events, field_list_events, fresh_walk, last_named, list_events, node_events,
    parameter_events, reportable_name, run, scope_warnings, scope_with_used, step, unused_locals,
    unused_warning, update_events, with_used, Event, LocalView, Mode, WalkView,
};

verus! {

/// How many more scopes are open behind the first `k` events than before.
pub open spec fn height(events: Seq<Event>, k: int) -> int
    decreases k,
{
    if k <= 0 {
        0
    } else {
        height(events, k - 1) + match events[k - 1] {
            Event::Open => 1int,
            Event::Close => -1int,
            _ => 0int,
        }
    }
}

/// How many more modules and functions are around behind the first `k` events than before.
pub open spec fn nesting(events: Seq<Event>, k: int) -> int
    decreases k,
{
    if k <= 0 {
        0
    } else {
        nesting(events, k - 1) + match events[k - 1] {
            Event::Enter => 1int,
            Event::Leave => -1int,
            _ => 0int,
        }
    }
}

/// Whether events end each scope, module and function that they start, and no other.
pub open spec fn balanced(events: Seq<Event>) -> bool {
    &&& height(events, events.len() as int) == 0
    &&& nesting(events, events.len() as int) == 0
    &&& forall|k: int| 0 <= k <= events.len() ==> #[trigger] height(events, k) >= 0
    &&& forall|k: int| 0 <= k <= events.len() ==> #[trigger] nesting(events, k) >= 0
}

/// How high events go depends on those alone that came before.
proof fn lemma_height_prefix(a: Seq<Event>, b: Seq<Event>, k: int)
    requires
        k <= a.len(),
    ensures
        height(a + b, k) == height(a, k),
        nesting(a + b, k) == nesting(a, k),
    decreases k,
{
    if k > 0 {
        lemma_height_prefix(a, b, k - 1);
        assert((a + b)[k - 1] == a[k - 1]);
    }
}

/// Events behind others go on from where those end.
proof fn lemma_height_suffix(a: Seq<Event>, b: Seq<Event>, k: int)
    requires
        0 <= k <= b.len(),
    ensures
        height(a + b, a.len() + k) == height(a, a.len() as int) + height(b, k),
        nesting(a + b, a.len() + k) == nesting(a, a.len() as int) + nesting(b, k),
    decreases k,
{
    if k > 0 {
        lemma_height_suffix(a, b, k - 1);
        assert((a + b)[a.len() + k - 1] == b[k - 1]);
    } else {
        lemma_height_prefix(a, b, a.len() as int);
    }
}

/// Balanced events one after the other are balanced.
pub(crate) proof fn lemma_balanced_concat(a: Seq<Event>, b: Seq<Event>)
    requires
        balanced(a),
        balanced(b),
    ensures
        balanced(a + b),
{
    let all = a + b;
    assert forall|k: int| 0 <= k <= all.len() implies #[trigger] height(all, k) >= 0 && nesting(
        all,
        k,
    ) >= 0 by {
        lemma_part_height(a, b, k);
    }
    assert forall|k: int| 0 <= k <= all.len() implies #[trigger] nesting(all, k) >= 0 by {
        lemma_part_height(a, b, k);
    }
    lemma_height_suffix(a, b, b.len() as int);
}

/// Balanced events one after the other never end more than they started.
proof fn lemma_part_height(a: Seq<Event>, b: Seq<Event>, k: int)
    requires
        balanced(a),
        balanced(b),
        0 <= k <= a.len() + b.len(),
    ensures
        height(a + b, k) >= 0,
        nesting(a + b, k) >= 0,
{
    if k <= a.len() {
        lemma_height_prefix(a, b, k);
    } else {
        lemma_height_suffix(a, b, k - a.len());
    }
}

/// Balanced events inside a scope are balanced with the scope around them.
proof fn lemma_balanced_scope(inner: Seq<Event>)
    requires
        balanced(inner),
    ensures
        balanced(seq![Event::Open] + inner + seq![Event::Close]),
{
    let open = seq![Event::Open];
    let close = seq![Event::Close];
    let head = open + inner;
    let all = head + close;
    reveal_with_fuel(height, 2);
    reveal_with_fuel(nesting, 2);
    assert forall|k: int| 0 <= k <= all.len() implies #[trigger] height(all, k) >= 0 && nesting(
        all,
        k,
    ) >= 0 by {
        lemma_framed_height(open, inner, close, k);
    }
    assert forall|k: int| 0 <= k <= all.len() implies #[trigger] nesting(all, k) >= 0 by {
        lemma_framed_height(open, inner, close, k);
    }
    lemma_height_suffix(open, inner, inner.len() as int);
    lemma_height_suffix(head, close, 1);
}

/// Balanced events between the start and the end of something never end more than was started.
proof fn lemma_framed_height(open: Seq<Event>, inner: Seq<Event>, close: Seq<Event>, k: int)
    requires
        open.len() == 1,
        close.len() == 1,
        (open[0] is Open && close[0] is Close) || (open[0] is Enter && close[0] is Leave),
        balanced(inner),
        0 <= k <= inner.len() + 2,
    ensures
        height(open + inner + close, k) >= 0,
        nesting(open + inner + close, k) >= 0,
{
    reveal_with_fuel(height, 2);
    reveal_with_fuel(nesting, 2);
    let head = open + inner;
    if k <= 1 {
        lemma_height_prefix(head, close, k);
        lemma_height_prefix(open, inner, k);
    } else if k <= inner.len() + 1 {
        lemma_height_prefix(head, close, k);
        lemma_height_suffix(open, inner, k - 1);
    } else {
        lemma_height_suffix(open, inner, inner.len() as int);
        lemma_height_suffix(head, close, 1);
    }
}

/// Balanced events inside a module or a function are balanced with it around them.
proof fn lemma_balanced_callable(inner: Seq<Event>)
    requires
        balanced(inner),
    ensures
        balanced(seq![Event::Enter] + inner + seq![Event::Leave]),
{
    let open = seq![Event::Enter];
    let close = seq![Event::Leave];
    let head = open + inner;
    let all = head + close;
    reveal_with_fuel(height, 2);
    reveal_with_fuel(nesting, 2);
    assert forall|k: int| 0 <= k <= all.len() implies #[trigger] height(all, k) >= 0 && nesting(
        all,
        k,
    ) >= 0 by {
        lemma_framed_height(open, inner, close, k);
    }
    assert forall|k: int| 0 <= k <= all.len() implies #[trigger] nesting(all, k) >= 0 by {
        lemma_framed_height(open, inner, close, k);
    }
    lemma_height_suffix(open, inner, inner.len() as int);
    lemma_height_suffix(head, close, 1);
}

/// No events are balanced.
proof fn lemma_balanced_empty()
    ensures
        balanced(Seq::<Event>::empty()),
{
}

/// The declaration or the use of a variable is balanced.
proof fn lemma_balanced_one(event: Event)
    requires
        event is Declare || event is Use,
    ensures
        balanced(seq![event]),
{
    reveal_with_fuel(height, 2);
    reveal_with_fuel(nesting, 2);
}

/// The declaration of the variable that a node names is balanced.
proof fn lemma_balanced_declare(code: Seq<char>, tree: Tree, node: Option<int>, report: bool)
    ensures
        balanced(declare_events(code, tree, node, report)),
{
    lemma_balanced_empty();
    if let Some(n) = node {
        lemma_balanced_one(
            Event::Declare { name: tree.node_text(code, n), range: tree.range(n), report },
        );
    }
}

/// The events of the child that has a role are balanced.
pub(crate) proof fn lemma_balanced_field(code: Seq<char>, tree: Tree, node: int, field: Field)
    ensures
        balanced(field_events(code, tree, node, field)),
    decreases tree.len() - node, 1int, 0int,
{
    lemma_balanced_empty();
    if let Some(c) = tree.child_by_field(node, field) {
        if node < c < tree.len() {
            lemma_balanced_node(code, tree, c);
        }
    }
}

/// The events of the children of the child that has a role are balanced.
pub(crate) proof fn lemma_balanced_field_list(code: Seq<char>, tree: Tree, node: int, field: Field, mode: Mode)
    ensures
        balanced(field_list_events(code, tree, node, field, mode)),
    decreases tree.len() - node, 1int, 0int,
{
    lemma_balanced_empty();
    if let Some(c) = tree.child_by_field(node, field) {
        if node < c < tree.len() {
            lemma_balanced_list(code, tree, c, mode, 0);
        }
    }
}

/// The events of a declaration are balanced.
proof fn lemma_balanced_declaration(code: Seq<char>, tree: Tree, node: int, report: bool)
    ensures
        balanced(declaration_events(code, tree, node, report)),
    decreases tree.len() - node, 2int, 0int,
{
    lemma_balanced_field(code, tree, node, Field::Value);
    lemma_balanced_declare(code, tree, tree.child_by_field(node, Field::Name), report);
    lemma_balanced_concat(
        field_events(code, tree, node, Field::Value),
        declare_events(code, tree, tree.child_by_field(node, Field::Name), report),
    );
}

/// The events of an assignment that declares nothing are balanced.
proof fn lemma_balanced_update(code: Seq<char>, tree: Tree, node: int)
    ensures
        balanced(update_events(code, tree, node)),
    decreases tree.len() - node, 2int, 0int,
{
    lemma_balanced_field(code, tree, node, Field::Name);
    lemma_balanced_field(code, tree, node, Field::Value);
    lemma_balanced_concat(
        field_events(code, tree, node, Field::Name),
        field_events(code, tree, node, Field::Value),
    );
}

/// The events of a parameter are balanced.
proof fn lemma_balanced_parameter(code: Seq<char>, tree: Tree, node: int)
    ensures
        balanced(parameter_events(code, tree, node)),
    decreases tree.len() - node, 2int, 0int,
{
    lemma_balanced_empty();
    if let Some(child) = tree.first_named_child(node) {
        if node < child < tree.len() {
            lemma_balanced_declare(code, tree, Some(child), false);
            lemma_balanced_declaration(code, tree, child, false);
        }
    }
}

/// The events of the head of a counting loop are balanced.
proof fn lemma_balanced_condition(code: Seq<char>, tree: Tree, node: int)
    ensures
        balanced(condition_events(code, tree, node)),
    decreases tree.len() - node, 2int, 0int,
{
    let a = field_list_events(code, tree, node, Field::Initializer, Mode::Declaring);
    let b = field_events(code, tree, node, Field::Condition);
    let c = field_list_events(code, tree, node, Field::Update, Mode::Updating);
    lemma_balanced_field_list(code, tree, node, Field::Initializer, Mode::Declaring);
    lemma_balanced_field(code, tree, node, Field::Condition);
    lemma_balanced_field_list(code, tree, node, Field::Update, Mode::Updating);
    lemma_balanced_concat(a, b);
    lemma_balanced_concat(a + b, c);
}

/// The events of one child are balanced.
proof fn lemma_balanced_child(code: Seq<char>, tree: Tree, node: int, mode: Mode, child: int)
    ensures
        balanced(child_events(code, tree, node, mode, child)),
    decreases tree.len() - node, 0int, 0int,
{
    lemma_balanced_empty();
    if node < child < tree.len() {
        lemma_balanced_node(code, tree, child);
        lemma_balanced_parameter(code, tree, child);
        lemma_balanced_list(code, tree, child, Mode::Assignments, 0);
        lemma_balanced_list(code, tree, child, Mode::LetPrefix, 0);
        lemma_balanced_condition(code, tree, child);
        lemma_balanced_declaration(code, tree, child, true);
        lemma_balanced_update(code, tree, child);
        lemma_balanced_field(code, tree, child, Field::Value);
    }
}

/// The events of the named children of a node are balanced.
pub(crate) proof fn lemma_balanced_list(code: Seq<char>, tree: Tree, node: int, mode: Mode, k: int)
    ensures
        balanced(list_events(code, tree, node, mode, k)),
    decreases tree.len() - node, 1int, tree.named_children(node).len() - k,
{
    lemma_balanced_empty();
    if 0 <= k < tree.named_children(node).len() {
        let child = tree.named_children(node)[k];
        lemma_balanced_child(code, tree, node, mode, child);
        lemma_balanced_list(code, tree, node, mode, k + 1);
        lemma_balanced_concat(
            child_events(code, tree, node, mode, child),
            list_events(code, tree, node, mode, k + 1),
        );
    }
}

/// The events of a module or a function are balanced.
proof fn lemma_balanced_of_callable(code: Seq<char>, tree: Tree, node: int)
    ensures
        balanced(callable_events(code, tree, node)),
    decreases tree.len() - node, 2int, 0int,
{
    let params = field_list_events(code, tree, node, Field::Parameters, Mode::Parameters);
    let body = list_events(code, tree, node, Mode::Callable, 0);
    lemma_balanced_field_list(code, tree, node, Field::Parameters, Mode::Parameters);
    lemma_balanced_list(code, tree, node, Mode::Callable, 0);
    lemma_balanced_concat(params, body);
    lemma_balanced_scope(params + body);
    let scope = seq![Event::Open] + (params + body) + seq![Event::Close];
    lemma_balanced_callable(scope);
    assert(seq![Event::Enter] + scope + seq![Event::Leave] =~= callable_events(code, tree, node));
}

/// The events of a node are balanced.
proof fn lemma_balanced_node(code: Seq<char>, tree: Tree, node: int)
    ensures
        balanced(node_events(code, tree, node)),
    decreases tree.len() - node, 3int, 0int,
{
    lemma_balanced_empty();
    match tree.kind(node) {
        NodeKind::ModuleItem | NodeKind::FunctionItem | NodeKind::FunctionLit => {
            lemma_balanced_of_callable(code, tree, node);
        },
        NodeKind::VarDeclaration => {
            if let Some(assignment) = tree.first_named_child(node) {
                if node < assignment < tree.len() {
                    lemma_balanced_declaration(code, tree, assignment, true);
                }
            }
        },
        NodeKind::LetExpression
        | NodeKind::LetBlock
        | NodeKind::AssignBlock
        | NodeKind::ForBlock
        | NodeKind::IntersectionForBlock
        | NodeKind::ForClause
        | NodeKind::IfClause
        | NodeKind::Each => {
            lemma_balanced_list(code, tree, node, Mode::AssignmentScope, 0);
            lemma_balanced_scope(list_events(code, tree, node, Mode::AssignmentScope, 0));
        },
        NodeKind::LetPrefix => {
            lemma_balanced_list(code, tree, node, Mode::LetPrefix, 0);
        },
        NodeKind::Arguments => {
            lemma_balanced_list(code, tree, node, Mode::Arguments, 0);
        },
        NodeKind::ModuleCall => {
            lemma_balanced_field(code, tree, node, Field::Arguments);
        },
        NodeKind::FunctionCall => {
            lemma_balanced_field(code, tree, node, Field::Name);
            lemma_balanced_field(code, tree, node, Field::Arguments);
            lemma_balanced_concat(
                field_events(code, tree, node, Field::Name),
                field_events(code, tree, node, Field::Arguments),
            );
        },
        NodeKind::DotIndexExpression => {
            lemma_balanced_field(code, tree, node, Field::Value);
        },
        NodeKind::Assignment => {
            lemma_balanced_update(code, tree, node);
        },
        NodeKind::Identifier => {
            lemma_balanced_one(Event::Use { name: tree.node_text(code, node) });
        },
        _ => {
            lemma_balanced_list(code, tree, node, Mode::Children, 0);
        },
    }
}

/// As long as no more scopes end than started, the number of scopes is what the events say.
pub(crate) proof fn lemma_run_height(walk: WalkView, events: Seq<Event>, k: int)
    requires
        0 <= k <= events.len(),
        forall|j: int| 0 <= j <= events.len() ==> walk.scopes.len() + #[trigger] height(events, j) >= 0,
    ensures
        run(walk, events.take(k)).scopes.len() == walk.scopes.len() + height(events, k),
        run(walk, events.take(k)).depth == walk.depth + nesting(events, k),
    decreases k,
{
    if k > 0 {
        lemma_run_height(walk, events, k - 1);
        let before = run(walk, events.take(k - 1));
        assert(events.take(k).drop_last() =~= events.take(k - 1));
        assert(events.take(k).last() == events[k - 1]);
        assert(walk.scopes.len() + height(events, k) >= 0);
        if let Event::Use { name } = events[k - 1] {
            lemma_with_used_shape(before.scopes, name);
        }
    } else {
        assert(events.take(0) =~= Seq::empty());
    }
}

/// Each scope, module and function that a walk through a document starts, it also ends.
pub proof fn law_walks_end_what_they_start(code: Seq<char>, tree: Tree)
    ensures
        balanced(list_events(code, tree, 0, Mode::Children, 0)),
        run(fresh_walk(), list_events(code, tree, 0, Mode::Children, 0)).scopes.len() == 0,
        run(fresh_walk(), list_events(code, tree, 0, Mode::Children, 0)).depth == 0,
{
    let events = list_events(code, tree, 0, Mode::Children, 0);
    lemma_balanced_list(code, tree, 0, Mode::Children, 0);
    lemma_run_height(fresh_walk(), events, events.len() as int);
    assert(events.take(events.len() as int) =~= events);
}

/// Whether two variables are the same but for whether they were used.
pub open spec fn same_local(a: LocalView, b: LocalView) -> bool {
    a.name == b.name && a.range == b.range && a.report_unused == b.report_unused
}

/// The variable that a name stands for: the scope it is in and its place there.
pub open spec fn visible(scopes: Seq<Seq<LocalView>>, name: Seq<char>) -> Option<(int, int)>
    decreases scopes.len(),
{
    if scopes.len() == 0 {
        None
    } else {
        match last_named(scopes.last(), name, scopes.last().len() as int) {
            Some(k) => Some((scopes.len() - 1, k)),
            None => visible(scopes.drop_last(), name),
        }
    }
}

/// What [`last_named`] finds has the name, and nothing behind it has.
pub(crate) proof fn lemma_last_named(scope: Seq<LocalView>, name: Seq<char>, k: int)
    requires
        k <= scope.len(),
    ensures
        match last_named(scope, name, k) {
            Some(i) => 0 <= i < k && scope[i].name == name,
            None => true,
        },
    decreases k,
{
    if k > 0 && scope[k - 1].name != name {
        lemma_last_named(scope, name, k - 1);
    }
}

/// The use of a name marks the variable that it stands for, and no other.
pub(crate) proof fn lemma_with_used_shape(scopes: Seq<Seq<LocalView>>, name: Seq<char>)
    ensures
        with_used(scopes, name).len() == scopes.len(),
        forall|i: int|
            0 <= i < scopes.len() ==> (#[trigger] with_used(scopes, name)[i]).len()
                == scopes[i].len(),
        forall|i: int, k: int|
            0 <= i < scopes.len() && 0 <= k < scopes[i].len() ==> same_local(
                #[trigger] with_used(scopes, name)[i][k],
                scopes[i][k],
            ) && with_used(scopes, name)[i][k].used == (scopes[i][k].used || visible(
                scopes,
                name,
            ) == Some((i, k))),
    decreases scopes.len(),
{
    if scopes.len() > 0 {
        let last = scopes.last();
        let rest = scopes.drop_last();
        lemma_last_named(last, name, last.len() as int);
        lemma_with_used_shape(rest, name);
        lemma_visible(rest, name);
        let now = with_used(scopes, name);
        match last_named(last, name, last.len() as int) {
            Some(p) => {
                assert(now =~= rest.push(scope_with_used(last, p)));
                assert forall|i: int, k: int|
                    0 <= i < scopes.len() && 0 <= k < scopes[i].len() implies same_local(
                    #[trigger] now[i][k],
                    scopes[i][k],
                ) && now[i][k].used == (scopes[i][k].used || visible(scopes, name) == Some((i, k))) by {
                    if i < rest.len() {
                        assert(now[i] == scopes[i]);
                    }
                }
            },
            None => {
                let deeper = with_used(rest, name);
                assert(now == deeper.push(last));
                assert forall|i: int, k: int|
                    0 <= i < scopes.len() && 0 <= k < scopes[i].len() implies same_local(
                    #[trigger] now[i][k],
                    scopes[i][k],
                ) && now[i][k].used == (scopes[i][k].used || visible(scopes, name) == Some((i, k))) by {
                    if i < rest.len() {
                        assert(now[i] == deeper[i]);
                        assert(scopes[i] == rest[i]);
                        assert(same_local(deeper[i][k], rest[i][k]));
                    }
                }
                assert forall|i: int| 0 <= i < scopes.len() implies (#[trigger] now[i]).len()
                    == scopes[i].len() by {
                    if i < rest.len() {
                        assert(now[i] == deeper[i]);
                    }
                }
            },
        }
    }
}

/// The variable that a name stands for is one of the scopes.
pub(crate) proof fn lemma_visible(scopes: Seq<Seq<LocalView>>, name: Seq<char>)
    ensures
        match visible(scopes, name) {
            Some((i, k)) => 0 <= i < scopes.len() && 0 <= k < scopes[i].len()
                && scopes[i][k].name == name,
            None => true,
        },
    decreases scopes.len(),
{
    if scopes.len() > 0 {
        lemma_last_named(scopes.last(), name, scopes.last().len() as int);
        lemma_visible(scopes.drop_last(), name);
    }
}

/// Whether a scope still has the variables that it had, in order, each used if it was used before.
pub open spec fn scope_kept(before: Seq<LocalView>, after: Seq<LocalView>) -> bool {
    &&& before.len() <= after.len()
    &&& forall|k: int|
        0 <= k < before.len() ==> same_local(#[trigger] after[k], before[k]) && (before[k].used
            ==> after[k].used)
}

/// Whether what was known at a point of a walk still is at another: the warnings are still there,
/// in front of others, and the scopes that were open are kept. Of these only the innermost has
/// more variables.
pub open spec fn walk_kept(before: WalkView, after: WalkView) -> bool {
    &&& before.scopes.len() <= after.scopes.len()
    &&& before.diagnostics.is_prefix_of(after.diagnostics)
    &&& forall|i: int|
        0 <= i < before.scopes.len() ==> scope_kept(before.scopes[i], #[trigger] after.scopes[i])
    &&& forall|i: int|
        0 <= i < before.scopes.len() - 1 ==> (#[trigger] after.scopes[i]).len()
            == before.scopes[i].len()
}

/// As long as no more scopes end than started, what was known is kept.
pub(crate) proof fn lemma_run_kept(walk: WalkView, events: Seq<Event>, k: int)
    requires
        0 <= k <= events.len(),
        forall|j: int| 0 <= j <= events.len() ==> #[trigger] height(events, j) >= 0,
    ensures
        walk_kept(walk, run(walk, events.take(k))),
    decreases k,
{
    if k > 0 {
        lemma_run_kept(walk, events, k - 1);
        lemma_run_height(walk, events, k - 1);
        let before = run(walk, events.take(k - 1));
        let after = run(walk, events.take(k));
        assert(events.take(k).drop_last() =~= events.take(k - 1));
        assert(events.take(k).last() == events[k - 1]);
        assert(after == step(before, events[k - 1]));
        assert(height(events, k) >= 0);
        if let Event::Use { name } = events[k - 1] {
            lemma_with_used_shape(before.scopes, name);
        }
        assert(walk.diagnostics.is_prefix_of(after.diagnostics));
        assert forall|i: int| 0 <= i < walk.scopes.len() implies scope_kept(
            walk.scopes[i],
            #[trigger] after.scopes[i],
        ) && (i < walk.scopes.len() - 1 ==> after.scopes[i].len() == walk.scopes[i].len()) by {
            assert(scope_kept(walk.scopes[i], before.scopes[i]));
            assert forall|p: int| 0 <= p < walk.scopes[i].len() implies same_local(
                #[trigger] after.scopes[i][p],
                walk.scopes[i][p],
            ) && (walk.scopes[i][p].used ==> after.scopes[i][p].used) by {
                assert(same_local(before.scopes[i][p], walk.scopes[i][p]));
            }
        }
    } else {
        assert(events.take(0) =~= Seq::empty());
    }
}

/// A visit of any node, at any point of a walk, leaves as many scopes open as there were, and as
/// many modules and functions around. The warnings so far stay in front. The variables of the
/// scopes stay what they are, in order, and none that was used becomes unused. Only the innermost
/// scope may get more of them.
pub proof fn law_visiting_a_node_keeps_what_is_known(
    walk: WalkView,
    code: Seq<char>,
    tree: Tree,
    node: int,
)
    ensures
        run(walk, node_events(code, tree, node)).scopes.len() == walk.scopes.len(),
        run(walk, node_events(code, tree, node)).depth == walk.depth,
        walk_kept(walk, run(walk, node_events(code, tree, node))),
{
    let events = node_events(code, tree, node);
    lemma_balanced_node(code, tree, node);
    lemma_run_height(walk, events, events.len() as int);
    lemma_run_kept(walk, events, events.len() as int);
    assert(events.take(events.len() as int) =~= events);
}

/// Whether one of the first `m` events is a use of a variable: of its name, at a point at which
/// the name stands for it.
pub open spec fn used_within(walk: WalkView, events: Seq<Event>, scope: int, place: int, m: int) -> bool {
    exists|j: int|
        0 <= j < m && is_use_of(walk, events, scope, place, j)
}

/// Whether an event is a use of a variable.
pub open spec fn is_use_of(walk: WalkView, events: Seq<Event>, scope: int, place: int, j: int) -> bool {
    match events[j] {
        Event::Use { name } => visible(run(walk, events.take(j)).scopes, name) == Some(
            (scope, place),
        ),
        _ => false,
    }
}

/// While the scope of a variable is open, the variable stays what it is, and it counts as used
/// exactly if it did so before or one of the events is a use of it.
pub(crate) proof fn lemma_variable_kept(walk: WalkView, events: Seq<Event>, scope: int, place: int, m: int)
    requires
        0 <= scope < walk.scopes.len(),
        0 <= place < walk.scopes[scope].len(),
        0 <= m <= events.len(),
        forall|j: int|
            0 <= j <= events.len() ==> walk.scopes.len() + #[trigger] height(events, j) > scope,
    ensures
        ({
            let now = run(walk, events.take(m)).scopes;
            &&& scope < now.len()
            &&& place < now[scope].len()
            &&& same_local(now[scope][place], walk.scopes[scope][place])
            &&& now[scope][place].used == (walk.scopes[scope][place].used || used_within(
                walk,
                events,
                scope,
                place,
                m,
            ))
        }),
    decreases m,
{
    if m == 0 {
        assert(events.take(0) =~= Seq::empty());
    } else {
        lemma_variable_kept(walk, events, scope, place, m - 1);
        let before = run(walk, events.take(m - 1));
        let event = events[m - 1];
        assert(events.take(m).drop_last() =~= events.take(m - 1));
        assert(events.take(m).last() == event);
        assert forall|j: int| 0 <= j <= events.len() implies walk.scopes.len() + #[trigger] height(
            events,
            j,
        ) >= 0 by {}
        lemma_run_height(walk, events, m - 1);
        lemma_run_height(walk, events, m);
        assert(walk.scopes.len() + height(events, m) > scope);
        let used_before = used_within(walk, events, scope, place, m - 1);
        let used_now = used_within(walk, events, scope, place, m);
        let here = is_use_of(walk, events, scope, place, m - 1);
        assert(used_now == (used_before || here)) by {
            if used_now && !here {
                let j = choose|j: int| 0 <= j < m && is_use_of(walk, events, scope, place, j);
                assert(0 <= j < m - 1 && is_use_of(walk, events, scope, place, j));
            }
            if used_before {
                let j = choose|j: int| 0 <= j < m - 1 && is_use_of(walk, events, scope, place, j);
                assert(0 <= j < m && is_use_of(walk, events, scope, place, j));
            }
        }
        match event {
            Event::Use { name } => {
                lemma_with_used_shape(before.scopes, name);
                let now = with_used(before.scopes, name);
                assert(same_local(now[scope][place], before.scopes[scope][place]));
            },
            Event::Declare { .. } => {},
            _ => {},
        }
    }
}

/// The warnings of a scope, with those of one of its variables apart.
proof fn lemma_warnings_split(scope: Seq<LocalView>, k: int)
    requires
        0 <= k < scope.len(),
    ensures
        scope_warnings(scope) == scope_warnings(scope.take(k)) + (if scope[k].report_unused
            && !scope[k].used {
            seq![unused_warning(scope[k].name, scope[k].range)]
        } else {
            Seq::empty()
        }) + scope_warnings(scope.skip(k + 1)),
    decreases scope.len(),
{
    let rest = scope.drop_last();
    if k == scope.len() - 1 {
        assert(scope.take(k) =~= rest);
        assert(scope.skip(k + 1) =~= Seq::empty());
        assert(scope_warnings(scope.skip(k + 1)) =~= Seq::empty());
        let w = scope_warnings(rest);
        assert(w.push(unused_warning(scope[k].name, scope[k].range)) =~= w + seq![
            unused_warning(scope[k].name, scope[k].range),
        ] + Seq::empty());
        assert(w =~= w + Seq::empty() + Seq::empty());
    } else {
        lemma_warnings_split(rest, k);
        assert(rest.take(k) =~= scope.take(k));
        assert(scope.skip(k + 1).drop_last() =~= rest.skip(k + 1));
        assert(scope.skip(k + 1).last() == scope.last());
        let own = if scope[k].report_unused && !scope[k].used {
            seq![unused_warning(scope[k].name, scope[k].range)]
        } else {
            Seq::empty()
        };
        let a = scope_warnings(scope.take(k)) + own;
        let b = scope_warnings(rest.skip(k + 1));
        let last = unused_warning(scope.last().name, scope.last().range);
        assert((a + b).push(last) =~= a + b.push(last));
    }
}

/// A variable that is declared in a module or a function, under a name without an underscore at
/// its start, is warned about when its scope ends exactly if none of the events in between is a
/// use of it.
pub proof fn law_unused_variables_are_reported(
    walk: WalkView,
    name: Seq<char>,
    range: Range,
    body: Seq<Event>,
)
    requires
        walk.scopes.len() > 0,
        walk.depth > 0,
        reportable_name(name),
        height(body, body.len() as int) == 0,
        forall|k: int| 0 <= k <= body.len() ==> #[trigger] height(body, k) >= 0,
    ensures
        ({
            let declared = step(walk, Event::Declare { name, range, report: true });
            let scope = walk.scopes.len() - 1;
            let place = walk.scopes.last().len() as int;
            let before = run(declared, body);
            let after = step(before, Event::Close);
            let locals = before.scopes.last();
            let unused = !used_within(declared, body, scope, place, body.len() as int);
            &&& place < locals.len()
            &&& after.diagnostics == before.diagnostics + scope_warnings(locals.take(place)) + (
            if unused {
                seq![unused_warning(name, range)]
            } else {
                Seq::empty()
            }) + scope_warnings(locals.skip(place + 1))
        }),
{
    let declared = step(walk, Event::Declare { name, range, report: true });
    let scope = walk.scopes.len() - 1;
    let place = walk.scopes.last().len() as int;
    assert forall|j: int| 0 <= j <= body.len() implies declared.scopes.len() + #[trigger] height(
        body,
        j,
    ) > scope by {}
    assert forall|j: int| 0 <= j <= body.len() implies declared.scopes.len() + #[trigger] height(
        body,
        j,
    ) >= 0 by {}
    lemma_variable_kept(declared, body, scope, place, body.len() as int);
    lemma_run_height(declared, body, body.len() as int);
    assert(body.take(body.len() as int) =~= body);
    let before = run(declared, body);
    let locals = before.scopes.last();
    assert(locals == before.scopes[scope]);
    lemma_warnings_split(locals, place);
    let own = if !locals[place].used {
        seq![unused_warning(name, range)]
    } else {
        Seq::empty()
    };
    let a = scope_warnings(locals.take(place));
    let c = scope_warnings(locals.skip(place + 1));
    assert(before.diagnostics + (a + own + c) =~= before.diagnostics + a + own + c);
}

/// Whether an event declares a variable that may be warned about.
pub open spec fn declares_reportable(event: Event, name: Seq<char>, range: Range) -> bool {
    event == (Event::Declare { name, range, report: true }) && reportable_name(name)
}

/// Whether a warning is about a variable that one of the events declares as one that may be
/// warned about, inside a module or a function.
pub open spec fn explained(events: Seq<Event>, warning: DiagnosticView) -> bool {
    exists|k: int, name: Seq<char>, range: Range|
        0 <= k < events.len() && #[trigger] declares_reportable(events[k], name, range) && nesting(
            events,
            k,
        ) > 0 && warning == unused_warning(name, range)
}

/// Whether all variables that may be warned about are declared by one of the events.
spec fn locals_explained(events: Seq<Event>, scopes: Seq<Seq<LocalView>>) -> bool {
    forall|i: int, k: int|
        0 <= i < scopes.len() && 0 <= k < scopes[i].len() && (#[trigger] scopes[i][k]).report_unused
            ==> exists|j: int|
            0 <= j < events.len() && declares_reportable(
                #[trigger] events[j],
                scopes[i][k].name,
                scopes[i][k].range,
            ) && nesting(events, j) > 0
}

/// What explains a warning still does among more events.
proof fn lemma_explained_push(events: Seq<Event>, event: Event, warning: DiagnosticView)
    requires
        explained(events, warning),
    ensures
        explained(events.push(event), warning),
{
    let (k, name, range) = choose|k: int, name: Seq<char>, range: Range|
        0 <= k < events.len() && #[trigger] declares_reportable(events[k], name, range) && nesting(
            events,
            k,
        ) > 0 && warning == unused_warning(name, range);
    assert(events.push(event)[k] == events[k]);
    assert(events.push(event) =~= events + seq![event]);
    lemma_height_prefix(events, seq![event], k);
    assert(declares_reportable(events.push(event)[k], name, range));
}

/// The warnings of a scope are explained where its variables are.
proof fn lemma_scope_explained(events: Seq<Event>, scopes: Seq<Seq<LocalView>>, i: int, m: int)
    requires
        locals_explained(events, scopes),
        0 <= i < scopes.len(),
        0 <= m <= scopes[i].len(),
    ensures
        forall|w: int|
            0 <= w < scope_warnings(scopes[i].take(m)).len() ==> explained(
                events,
                #[trigger] scope_warnings(scopes[i].take(m))[w],
            ),
    decreases m,
{
    if m > 0 {
        let scope = scopes[i];
        lemma_scope_explained(events, scopes, i, m - 1);
        assert(scope.take(m).drop_last() =~= scope.take(m - 1));
        assert(scope.take(m).last() == scope[m - 1]);
        let earlier = scope_warnings(scope.take(m - 1));
        let now = scope_warnings(scope.take(m));
        assert forall|w: int| 0 <= w < now.len() implies explained(events, #[trigger] now[w]) by {
            if w < earlier.len() {
                assert(now[w] == earlier[w]);
            } else {
                assert(scopes[i][m - 1].report_unused);
                let j = choose|j: int|
                    0 <= j < events.len() && declares_reportable(
                        #[trigger] events[j],
                        scopes[i][m - 1].name,
                        scopes[i][m - 1].range,
                    ) && nesting(events, j) > 0;
                assert(declares_reportable(events[j], scope[m - 1].name, scope[m - 1].range));
            }
        }
    }
}

/// The number of modules and functions around is what the events say.
proof fn lemma_run_depth(walk: WalkView, events: Seq<Event>)
    ensures
        run(walk, events).depth == walk.depth + nesting(events, events.len() as int),
    decreases events.len(),
{
    if events.len() > 0 {
        let rest = events.drop_last();
        lemma_run_depth(walk, rest);
        assert(events =~= rest + seq![events.last()]);
        lemma_height_prefix(rest, seq![events.last()], rest.len() as int);
    }
}

/// Behind events that start from nothing, warnings and variables are explained by the events.
proof fn lemma_run_explained(events: Seq<Event>)
    ensures
        locals_explained(events, run(fresh_walk(), events).scopes),
        forall|w: int|
            0 <= w < run(fresh_walk(), events).diagnostics.len() ==> explained(
                events,
                #[trigger] run(fresh_walk(), events).diagnostics[w],
            ),
    decreases events.len(),
{
    if events.len() > 0 {
        let rest = events.drop_last();
        let event = events.last();
        lemma_run_explained(rest);
        assert(rest.push(event) =~= events);
        let before = run(fresh_walk(), rest);
        let now = run(fresh_walk(), events);
        assert forall|w: int| 0 <= w < now.diagnostics.len() implies explained(
            events,
            #[trigger] now.diagnostics[w],
        ) by {
            if w < before.diagnostics.len() {
                assert(now.diagnostics[w] == before.diagnostics[w]);
                lemma_explained_push(rest, event, before.diagnostics[w]);
            } else {
                let i = before.scopes.len() - 1;
                let scope = before.scopes[i];
                lemma_scope_explained(rest, before.scopes, i, scope.len() as int);
                assert(scope.take(scope.len() as int) =~= scope);
                let warnings = scope_warnings(scope);
                assert(now.diagnostics[w] == warnings[w - before.diagnostics.len()]);
                lemma_explained_push(rest, event, warnings[w - before.diagnostics.len()]);
            }
        }
        if let Event::Use { name } = event {
            lemma_with_used_shape(before.scopes, name);
        }
        assert forall|i: int, k: int|
            0 <= i < now.scopes.len() && 0 <= k < now.scopes[i].len() && (
            #[trigger] now.scopes[i][k]).report_unused implies exists|j: int|
            0 <= j < events.len() && declares_reportable(
                #[trigger] events[j],
                now.scopes[i][k].name,
                now.scopes[i][k].range,
            ) && nesting(events, j) > 0 by {
            let local = now.scopes[i][k];
            if i < before.scopes.len() && k < before.scopes[i].len() {
                assert(same_local(local, before.scopes[i][k]));
                assert(before.scopes[i][k].report_unused);
                let j = choose|j: int|
                    0 <= j < rest.len() && declares_reportable(
                        #[trigger] rest[j],
                        local.name,
                        local.range,
                    ) && nesting(rest, j) > 0;
                assert(events[j] == rest[j]);
                assert(events =~= rest + seq![event]);
                lemma_height_prefix(rest, seq![event], j);
            } else {
                lemma_run_depth(fresh_walk(), rest);
                assert(events =~= rest + seq![event]);
                lemma_height_prefix(rest, seq![event], rest.len() as int);
                assert(declares_reportable(events[rest.len() as int], local.name, local.range));
            }
        }
    }
}

/// Every warning about an unused variable is about one that the document declares inside a module
/// or a function, not as a parameter, and whose name has no underscore at its start.
pub proof fn law_only_declared_variables_are_reported(code: Seq<char>, tree: Tree, w: int)
    requires
        0 <= w < unused_locals(code, tree).len(),
    ensures
        explained(list_events(code, tree, 0, Mode::Children, 0), unused_locals(code, tree)[w]),
{
    lemma_run_explained(list_events(code, tree, 0, Mode::Children, 0));
}

} // verus!
