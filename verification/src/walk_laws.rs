use vstd::prelude::*;

use crate::cursor::lemma_filter_from;
use crate::kinds::{Field, NodeKind};
use crate::lists::lemma_filter_keeps;
use crate::position::Range;
use crate::syntax::Tree;
use crate::unused::{
    callable_events, child_events, condition_events, declaration_events, declare_events,
    field_events, field_list_events, fresh_walk, last_named, lemma_run_concat, lemma_run_one,
    list_events, node_events, parameter_events, run, scope_warnings, step, unused_locals,
    unused_warning, update_events, Event, LocalView, Mode, WalkView,
};
use crate::unused_laws::{
    balanced, height, is_use_of, law_unused_variables_are_reported, lemma_balanced_concat,
    lemma_balanced_field, lemma_balanced_field_list, lemma_balanced_list, lemma_run_height,
    lemma_variable_kept, lemma_visible, lemma_with_used_shape, nesting, same_local, used_within,
    visible,
};

verus! {

/// Whether an identifier refers to a variable: it is not the name of what its parent declares,
/// gives an argument for or calls as a module, no component, and no parameter.
pub open spec fn refers_to_variable(tree: Tree, node: int) -> bool {
    &&& tree.kind(node) is Identifier
    &&& match tree.parent(node) {
        None => true,
        Some(parent) => {
            let named = tree.child_by_field(parent, Field::Name) == Some(node);
            &&& !(named && tree.kind(parent) is Assignment)
            &&& !(named && tree.kind(parent) is ModuleItem)
            &&& !(named && tree.kind(parent) is FunctionItem)
            &&& !(named && tree.kind(parent) is ModuleCall)
            &&& !(tree.kind(parent) is DotIndexExpression && tree.child_by_field(
                parent,
                Field::Index,
            ) == Some(node))
            &&& !(tree.kind(parent) is Parameter)
        },
    }
}

/// Whether a child is part of what its parent computes: not the name of a declaration, of a module
/// that is called or of a component, nor a remark in between. All parts of expressions are.
pub open spec fn is_part(tree: Tree, parent: int, child: int) -> bool {
    let role = |field: Field| tree.child_by_field(parent, field) == Some(child);
    &&& tree.has(child)
    &&& tree.parent(child) == Some(parent)
    &&& tree.nodes[child].named
    &&& match tree.kind(parent) {
        NodeKind::ModuleItem | NodeKind::FunctionItem | NodeKind::FunctionLit => !role(Field::Name)
            && (role(Field::Parameters) ==> tree.kind(child) is Parameters),
        NodeKind::Parameters => tree.kind(child) is Parameter,
        NodeKind::Parameter => tree.kind(child) is Assignment && tree.first_named_child(parent)
            == Some(child),
        NodeKind::VarDeclaration => tree.kind(child) is Assignment && tree.first_named_child(parent)
            == Some(child),
        NodeKind::Assignment => role(Field::Value),
        NodeKind::Assignments => tree.kind(child) is Assignment,
        NodeKind::ModuleCall => role(Field::Arguments),
        NodeKind::FunctionCall => role(Field::Name) || role(Field::Arguments),
        NodeKind::DotIndexExpression => role(Field::Value),
        NodeKind::Identifier => false,
        NodeKind::ConditionUpdateClause => role(Field::Condition) || (tree.kind(
            child,
        ) is Assignments && (role(Field::Initializer) || role(Field::Update))),
        _ => true,
    }
}

/// Whether a node is another, or a part of it, or a part of a part, and so on.
pub open spec fn part_of(tree: Tree, node: int, whole: int) -> bool
    decreases node,
{
    node == whole || match tree.parent(node) {
        Some(parent) => 0 <= whole <= parent < node && is_part(tree, parent, node) && part_of(
            tree,
            parent,
            whole,
        ),
        None => false,
    }
}

/// The part of a node in which a part of it lies.
spec fn part_towards(tree: Tree, node: int, whole: int) -> int
    decreases node,
{
    match tree.parent(node) {
        Some(parent) => if parent == whole || !(0 <= parent < node) {
            node
        } else {
            part_towards(tree, parent, whole)
        },
        None => node,
    }
}

/// A part of a node lies in one of its children that are parts.
proof fn lemma_part_towards(tree: Tree, node: int, whole: int)
    requires
        0 <= whole,
        part_of(tree, node, whole),
        node != whole,
    ensures
        is_part(tree, whole, part_towards(tree, node, whole)),
        part_of(tree, node, part_towards(tree, node, whole)),
        whole < part_towards(tree, node, whole) <= node,
    decreases node,
{
    let parent = tree.parent(node)->0;
    if parent != whole {
        lemma_part_towards(tree, parent, whole);
    }
}

/// Whether a list of events stands in another, without anything in between.
pub open spec fn embeds(all: Seq<Event>, part: Seq<Event>) -> bool {
    exists|k: int|
        0 <= k <= all.len() - part.len() && #[trigger] all.subrange(k, k + part.len()) == part
}

/// A list stands in itself.
proof fn lemma_embeds_self(all: Seq<Event>)
    ensures
        embeds(all, all),
{
    assert(all.subrange(0int, 0int + all.len()) =~= all);
}

/// What stands in a list stands in what the list stands in.
proof fn lemma_embeds_more(before: Seq<Event>, middle: Seq<Event>, after: Seq<Event>, part: Seq<Event>)
    requires
        embeds(middle, part),
    ensures
        embeds(before + middle + after, part),
{
    let k = choose|k: int|
        0 <= k <= middle.len() - part.len() && #[trigger] middle.subrange(k, k + part.len())
            == part;
    let j = before.len() + k;
    assert((before + middle + after).subrange(j, j + part.len()) =~= middle.subrange(
        k,
        k + part.len(),
    ));
}

/// What stands in the first of two lists stands in both.
proof fn lemma_embeds_first(first: Seq<Event>, second: Seq<Event>, part: Seq<Event>)
    requires
        embeds(first, part),
    ensures
        embeds(first + second, part),
{
    lemma_embeds_more(Seq::empty(), first, second, part);
    assert(Seq::<Event>::empty() + first + second =~= first + second);
}

/// What stands in the second of two lists stands in both.
proof fn lemma_embeds_second(first: Seq<Event>, second: Seq<Event>, part: Seq<Event>)
    requires
        embeds(second, part),
    ensures
        embeds(first + second, part),
{
    lemma_embeds_more(first, second, Seq::empty(), part);
    assert(first + second + Seq::<Event>::empty() =~= first + second);
}

/// The events of a child stand in those of the list of children.
proof fn lemma_child_in_list(
    code: Seq<char>,
    tree: Tree,
    node: int,
    mode: Mode,
    k: int,
    i: int,
    part: Seq<Event>,
)
    requires
        0 <= k <= i < tree.named_children(node).len(),
        embeds(child_events(code, tree, node, mode, tree.named_children(node)[i]), part),
    ensures
        embeds(list_events(code, tree, node, mode, k), part),
    decreases i - k,
{
    let first = child_events(code, tree, node, mode, tree.named_children(node)[k]);
    let rest = list_events(code, tree, node, mode, k + 1);
    if k == i {
        lemma_embeds_first(first, rest, part);
    } else {
        lemma_child_in_list(code, tree, node, mode, k + 1, i, part);
        lemma_embeds_second(first, rest, part);
    }
}

/// Whether the walk deals with a node for itself, and not as a part of its parent.
pub open spec fn met_for_itself(kind: NodeKind) -> bool {
    match kind {
        NodeKind::Assignment
        | NodeKind::Assignments
        | NodeKind::LetPrefix
        | NodeKind::ConditionUpdateClause
        | NodeKind::Parameters
        | NodeKind::Parameter => false,
        _ => true,
    }
}

/// The events of a part of a node stand in those of the node.
proof fn lemma_part_met(code: Seq<char>, tree: Tree, whole: int, node: int)
    requires
        tree.wf(),
        tree.has(whole),
        tree.has(node),
        part_of(tree, node, whole),
        met_for_itself(tree.kind(node)),
    ensures
        embeds(node_events(code, tree, whole), node_events(code, tree, node)),
    decreases tree.len() - whole, 3int,
{
    let part = node_events(code, tree, node);
    if node == whole {
        lemma_embeds_self(part);
    } else {
        lemma_part_towards(tree, node, whole);
        let child = part_towards(tree, node, whole);
        match tree.kind(whole) {
            NodeKind::ModuleItem | NodeKind::FunctionItem | NodeKind::FunctionLit => {
                let start = seq![Event::Enter, Event::Open];
                let params = field_list_events(
                    code,
                    tree,
                    whole,
                    Field::Parameters,
                    Mode::Parameters,
                );
                let body = list_events(code, tree, whole, Mode::Callable, 0);
                let end = seq![Event::Close, Event::Leave];
                assert(callable_events(code, tree, whole) == start + params + body + end);
                if tree.child_by_field(whole, Field::Parameters) == Some(child) {
                    lemma_list_met(code, tree, child, Mode::Parameters, node);
                    assert(params == list_events(code, tree, child, Mode::Parameters, 0));
                    lemma_embeds_second(start, params, part);
                    lemma_embeds_first(start + params, body, part);
                } else {
                    lemma_list_met(code, tree, whole, Mode::Callable, node);
                    lemma_embeds_second(start + params, body, part);
                }
                lemma_embeds_first(start + params + body, end, part);
            },
            NodeKind::VarDeclaration => {
                lemma_declaration_met(code, tree, child, true, node);
            },
            NodeKind::LetExpression
            | NodeKind::LetBlock
            | NodeKind::AssignBlock
            | NodeKind::ForBlock
            | NodeKind::IntersectionForBlock
            | NodeKind::ForClause
            | NodeKind::IfClause
            | NodeKind::Each => {
                let inner = list_events(code, tree, whole, Mode::AssignmentScope, 0);
                lemma_list_met(code, tree, whole, Mode::AssignmentScope, node);
                lemma_embeds_more(seq![Event::Open], inner, seq![Event::Close], part);
            },
            NodeKind::LetPrefix => {
                lemma_list_met(code, tree, whole, Mode::LetPrefix, node);
            },
            NodeKind::Arguments => {
                lemma_list_met(code, tree, whole, Mode::Arguments, node);
            },
            NodeKind::ModuleCall => {
                lemma_part_met(code, tree, child, node);
            },
            NodeKind::FunctionCall => {
                let name = field_events(code, tree, whole, Field::Name);
                let arguments = field_events(code, tree, whole, Field::Arguments);
                lemma_part_met(code, tree, child, node);
                if tree.child_by_field(whole, Field::Name) == Some(child) {
                    lemma_embeds_first(name, arguments, part);
                } else {
                    lemma_embeds_second(name, arguments, part);
                }
            },
            NodeKind::DotIndexExpression => {
                lemma_part_met(code, tree, child, node);
            },
            NodeKind::Assignment => {
                lemma_part_met(code, tree, child, node);
                lemma_embeds_second(
                    field_events(code, tree, whole, Field::Name),
                    field_events(code, tree, whole, Field::Value),
                    part,
                );
            },
            _ => {
                lemma_list_met(code, tree, whole, Mode::Children, node);
            },
        }
    }
}

/// The events of a part of the value stand in those of a declaration.
proof fn lemma_declaration_met(code: Seq<char>, tree: Tree, assignment: int, report: bool, node: int)
    requires
        tree.wf(),
        tree.has(assignment),
        tree.has(node),
        tree.kind(assignment) is Assignment,
        part_of(tree, node, assignment),
        node != assignment,
        met_for_itself(tree.kind(node)),
    ensures
        embeds(
            declaration_events(code, tree, assignment, report),
            node_events(code, tree, node),
        ),
    decreases tree.len() - assignment, 2int,
{
    lemma_part_towards(tree, node, assignment);
    let child = part_towards(tree, node, assignment);
    lemma_part_met(code, tree, child, node);
    lemma_embeds_first(
        field_events(code, tree, assignment, Field::Value),
        declare_events(
            code,
            tree,
            tree.child_by_field(assignment, Field::Name),
            report,
        ),
        node_events(code, tree, node),
    );
}

/// Whether a way to go through the children of a node fits the node.
spec fn mode_fits(tree: Tree, node: int, mode: Mode, child: int) -> bool {
    match mode {
        Mode::Callable => tree.child_by_field(node, Field::Name) != Some(child)
            && tree.child_by_field(node, Field::Parameters) != Some(child),
        Mode::Parameters => tree.kind(node) is Parameters,
        Mode::Assignments => tree.kind(node) is Assignments,
        _ => true,
    }
}

/// The events of a part of a node stand in those of the child in which it lies.
proof fn lemma_child_met(code: Seq<char>, tree: Tree, whole: int, mode: Mode, node: int)
    requires
        tree.wf(),
        tree.has(whole),
        tree.has(node),
        part_of(tree, node, whole),
        node != whole,
        met_for_itself(tree.kind(node)),
        mode_fits(tree, whole, mode, part_towards(tree, node, whole)),
    ensures
        embeds(
            child_events(code, tree, whole, mode, part_towards(tree, node, whole)),
            node_events(code, tree, node),
        ),
    decreases tree.len() - whole, 0int,
{
    lemma_part_towards(tree, node, whole);
    let child = part_towards(tree, node, whole);
    match mode {
        Mode::Parameters => {
            lemma_part_towards(tree, node, child);
            let inner = part_towards(tree, node, child);
            lemma_declaration_met(code, tree, inner, false, node);
            assert(parameter_events(code, tree, child) == declaration_events(
                code,
                tree,
                inner,
                false,
            ));
        },
        Mode::AssignmentScope => match tree.kind(child) {
            NodeKind::Assignments => {
                lemma_list_met(code, tree, child, Mode::Assignments, node);
            },
            NodeKind::LetPrefix => {
                lemma_list_met(code, tree, child, Mode::LetPrefix, node);
            },
            NodeKind::ConditionUpdateClause => {
                lemma_condition_met(code, tree, child, node);
            },
            _ => {
                lemma_part_met(code, tree, child, node);
            },
        },
        Mode::LetPrefix => if tree.kind(child) is Assignments {
            lemma_list_met(code, tree, child, Mode::Assignments, node);
        } else {
            lemma_part_met(code, tree, child, node);
        },
        Mode::Declaring => if tree.kind(child) is Assignment {
            lemma_declaration_met(code, tree, child, true, node);
        } else {
            lemma_part_met(code, tree, child, node);
        },
        Mode::Assignments => {
            lemma_declaration_met(code, tree, child, true, node);
        },
        Mode::Arguments => if tree.kind(child) is Assignment {
            lemma_part_towards(tree, node, child);
            lemma_part_met(code, tree, part_towards(tree, node, child), node);
        } else {
            lemma_part_met(code, tree, child, node);
        },
        _ => {
            lemma_part_met(code, tree, child, node);
        },
    }
}

/// A part of a node lies in one of its named children.
proof fn lemma_part_listed(tree: Tree, node: int, whole: int)
    requires
        tree.wf(),
        tree.has(whole),
        part_of(tree, node, whole),
        node != whole,
    ensures
        tree.named_children(whole).contains(part_towards(tree, node, whole)),
{
    lemma_part_towards(tree, node, whole);
    let child = part_towards(tree, node, whole);
    assert(tree.node_wf(child));
    let named = |c: int| tree.nodes[c].named;
    lemma_filter_keeps(tree.children(whole), named, tree.nodes[child].slot);
}

/// The events of a part of a node stand in those of its children.
proof fn lemma_list_met(code: Seq<char>, tree: Tree, whole: int, mode: Mode, node: int)
    requires
        tree.wf(),
        tree.has(whole),
        tree.has(node),
        part_of(tree, node, whole),
        node != whole,
        met_for_itself(tree.kind(node)),
        mode_fits(tree, whole, mode, part_towards(tree, node, whole)),
    ensures
        embeds(list_events(code, tree, whole, mode, 0), node_events(code, tree, node)),
    decreases tree.len() - whole, 1int,
{
    let child = part_towards(tree, node, whole);
    lemma_part_listed(tree, node, whole);
    lemma_child_met(code, tree, whole, mode, node);
    let i = choose|i: int|
        0 <= i < tree.named_children(whole).len() && tree.named_children(whole)[i] == child;
    lemma_child_in_list(code, tree, whole, mode, 0, i, node_events(code, tree, node));
}

/// The events of a part of the head of a counting loop stand in those of the head.
proof fn lemma_condition_met(code: Seq<char>, tree: Tree, whole: int, node: int)
    requires
        tree.wf(),
        tree.has(whole),
        tree.has(node),
        tree.kind(whole) is ConditionUpdateClause,
        part_of(tree, node, whole),
        node != whole,
        met_for_itself(tree.kind(node)),
    ensures
        embeds(condition_events(code, tree, whole), node_events(code, tree, node)),
    decreases tree.len() - whole, 2int,
{
    lemma_part_towards(tree, node, whole);
    let child = part_towards(tree, node, whole);
    let part = node_events(code, tree, node);
    let first = field_list_events(code, tree, whole, Field::Initializer, Mode::Declaring);
    let second = field_events(code, tree, whole, Field::Condition);
    let third = field_list_events(code, tree, whole, Field::Update, Mode::Updating);
    if tree.child_by_field(whole, Field::Condition) == Some(child) {
        lemma_part_met(code, tree, child, node);
        lemma_embeds_second(first, second, part);
        lemma_embeds_first(first + second, third, part);
    } else if tree.child_by_field(whole, Field::Initializer) == Some(child) {
        lemma_list_met(code, tree, child, Mode::Declaring, node);
        lemma_embeds_first(first, second, part);
        lemma_embeds_first(first + second, third, part);
    } else {
        lemma_list_met(code, tree, child, Mode::Updating, node);
        lemma_embeds_second(first + second, third, part);
    }
}

/// Every identifier that refers to a variable, however deep it is nested in expressions, calls and
/// blocks, is met as a use of its name among what is met in each node that it is a part of.
pub proof fn law_each_reference_is_met(code: Seq<char>, tree: Tree, whole: int, node: int)
    requires
        tree.wf(),
        tree.has(whole),
        tree.has(node),
        part_of(tree, node, whole),
        refers_to_variable(tree, node),
    ensures
        embeds(
            node_events(code, tree, whole),
            seq![Event::Use { name: tree.node_text(code, node) }],
        ),
{
    lemma_part_met(code, tree, whole, node);
}

/// Every identifier of a document that refers to a variable is met as a use of its name.
pub proof fn law_each_reference_of_a_document_is_met(code: Seq<char>, tree: Tree, node: int)
    requires
        tree.wf(),
        tree.has(node),
        node != 0,
        part_of(tree, node, 0),
        refers_to_variable(tree, node),
    ensures
        embeds(
            list_events(code, tree, 0, Mode::Children, 0),
            seq![Event::Use { name: tree.node_text(code, node) }],
        ),
{
    lemma_list_met(code, tree, 0, Mode::Children, node);
}

/// The identifier that a declaration of a variable names.
pub open spec fn declared_name(tree: Tree, declaration: int) -> Option<int> {
    match tree.first_named_child(declaration) {
        Some(assignment) => tree.child_by_field(assignment, Field::Name),
        None => None,
    }
}

/// Every declaration of a variable is met as one, under the name and the range of its identifier,
/// among what is met in each node that it is a part of; and it is met as one that may be warned
/// about.
pub proof fn law_each_declaration_is_met(code: Seq<char>, tree: Tree, whole: int, node: int)
    requires
        tree.wf(),
        tree.has(whole),
        tree.has(node),
        part_of(tree, node, whole),
        tree.kind(node) is VarDeclaration,
        declared_name(tree, node) is Some,
        tree.kind(declared_name(tree, node)->0) is Identifier,
    ensures
        ({
            let name = declared_name(tree, node)->0;
            embeds(
                node_events(code, tree, whole),
                seq![
                    Event::Declare {
                        name: tree.node_text(code, name),
                        range: tree.range(name),
                        report: true,
                    },
                ],
            )
        }),
{
    let assignment = tree.first_named_child(node)->0;
    let name = declared_name(tree, node)->0;
    tree.lemma_named_child(node, 0);
    let event = seq![
        Event::Declare { name: tree.node_text(code, name), range: tree.range(name), report: true },
    ];
    lemma_embeds_self(event);
    lemma_embeds_second(field_events(code, tree, assignment, Field::Value), event, event);
    assert(node_events(code, tree, node) == field_events(code, tree, assignment, Field::Value)
        + event);
    lemma_part_met(code, tree, whole, node);
    lemma_embeds_trans(node_events(code, tree, whole), node_events(code, tree, node), event);
}

/// What stands in a list stands where the list stands.
proof fn lemma_embeds_trans(all: Seq<Event>, middle: Seq<Event>, part: Seq<Event>)
    requires
        embeds(all, middle),
        embeds(middle, part),
    ensures
        embeds(all, part),
{
    let k = choose|k: int|
        0 <= k <= all.len() - middle.len() && #[trigger] all.subrange(k, k + middle.len())
            == middle;
    let before = all.take(k);
    let after = all.skip(k + middle.len());
    assert(before + middle + after =~= all);
    lemma_embeds_more(before, middle, after, part);
}

/// Every variable that a `let`, a loop or the like declares for its body is met as a declaration,
/// and as one that may be warned about.
pub proof fn law_each_local_assignment_is_met(
    code: Seq<char>,
    tree: Tree,
    scope: int,
    list: int,
    assignment: int,
)
    requires
        tree.wf(),
        tree.has(scope),
        match tree.kind(scope) {
            NodeKind::LetExpression
            | NodeKind::LetBlock
            | NodeKind::AssignBlock
            | NodeKind::ForBlock
            | NodeKind::IntersectionForBlock
            | NodeKind::ForClause
            | NodeKind::IfClause
            | NodeKind::Each => true,
            _ => false,
        },
        tree.named_children(scope).contains(list),
        tree.kind(list) is Assignments,
        tree.named_children(list).contains(assignment),
        tree.kind(assignment) is Assignment,
        tree.child_by_field(assignment, Field::Name) is Some,
        tree.kind(tree.child_by_field(assignment, Field::Name)->0) is Identifier,
    ensures
        ({
            let name = tree.child_by_field(assignment, Field::Name)->0;
            embeds(
                node_events(code, tree, scope),
                seq![
                    Event::Declare {
                        name: tree.node_text(code, name),
                        range: tree.range(name),
                        report: true,
                    },
                ],
            )
        }),
{
    let name = tree.child_by_field(assignment, Field::Name)->0;
    let i = choose|i: int|
        0 <= i < tree.named_children(scope).len() && tree.named_children(scope)[i] == list;
    let j = choose|j: int|
        0 <= j < tree.named_children(list).len() && tree.named_children(list)[j] == assignment;
    tree.lemma_named_child(scope, i);
    tree.lemma_named_child(list, j);
    let event = seq![
        Event::Declare { name: tree.node_text(code, name), range: tree.range(name), report: true },
    ];
    lemma_embeds_self(event);
    lemma_embeds_second(field_events(code, tree, assignment, Field::Value), event, event);
    lemma_child_in_list(code, tree, list, Mode::Assignments, 0, j, event);
    lemma_child_in_list(code, tree, scope, Mode::AssignmentScope, 0, i, event);
    lemma_embeds_more(
        seq![Event::Open],
        list_events(code, tree, scope, Mode::AssignmentScope, 0),
        seq![Event::Close],
        event,
    );
}

/// Every parameter of a module or a function is met as a declaration, though as one that is not
/// warned about.
pub proof fn law_each_parameter_is_met(
    code: Seq<char>,
    tree: Tree,
    callable: int,
    parameter: int,
    name: int,
)
    requires
        tree.wf(),
        tree.has(callable),
        match tree.kind(callable) {
            NodeKind::ModuleItem | NodeKind::FunctionItem | NodeKind::FunctionLit => true,
            _ => false,
        },
        tree.child_by_field(callable, Field::Parameters) is Some,
        ({
            let list = tree.child_by_field(callable, Field::Parameters)->0;
            let child = tree.first_named_child(parameter);
            &&& tree.named_children(list).contains(parameter)
            &&& tree.kind(parameter) is Parameter
            &&& child == Some(name) || (child is Some && tree.kind(child->0) is Assignment
                && tree.child_by_field(child->0, Field::Name) == Some(name))
            &&& tree.kind(name) is Identifier
        }),
    ensures
        embeds(
            node_events(code, tree, callable),
            seq![
                Event::Declare {
                    name: tree.node_text(code, name),
                    range: tree.range(name),
                    report: false,
                },
            ],
        ),
{
    let list = tree.child_by_field(callable, Field::Parameters)->0;
    tree.lemma_field(callable, Field::Parameters);
    let j = choose|j: int|
        0 <= j < tree.named_children(list).len() && tree.named_children(list)[j] == parameter;
    tree.lemma_named_child(list, j);
    tree.lemma_named_child(parameter, 0);
    let child = tree.first_named_child(parameter)->0;
    let event = seq![
        Event::Declare { name: tree.node_text(code, name), range: tree.range(name), report: false },
    ];
    lemma_embeds_self(event);
    if tree.kind(child) is Assignment {
        tree.lemma_field(child, Field::Name);
        lemma_embeds_second(field_events(code, tree, child, Field::Value), event, event);
        assert(declare_events(code, tree, Some(name), false) =~= event);
        assert(declaration_events(code, tree, child, false) == field_events(
            code,
            tree,
            child,
            Field::Value,
        ) + event);
    }
    assert(child_events(code, tree, list, Mode::Parameters, parameter) == parameter_events(
        code,
        tree,
        parameter,
    ));
    lemma_child_in_list(code, tree, list, Mode::Parameters, 0, j, event);
    let start = seq![Event::Enter, Event::Open];
    let params = field_list_events(code, tree, callable, Field::Parameters, Mode::Parameters);
    let body = list_events(code, tree, callable, Mode::Callable, 0);
    let end = seq![Event::Close, Event::Leave];
    assert(params == list_events(code, tree, list, Mode::Parameters, 0));
    lemma_embeds_second(start, params, event);
    lemma_embeds_first(start + params, body, event);
    lemma_embeds_first(start + params + body, end, event);
}

/// Whether an identifier names a variable that an assignment or a parameter declares.
pub open spec fn names_variable(tree: Tree, node: int) -> bool {
    &&& tree.kind(node) is Identifier
    &&& match tree.parent(node) {
        Some(parent) => tree.kind(parent) is Parameter || (tree.kind(parent) is Assignment
            && tree.child_by_field(parent, Field::Name) == Some(node)),
        None => false,
    }
}

/// Whether the declarations of variables of a tree hold assignments.
pub open spec fn declarations_fit(tree: Tree) -> bool {
    forall|d: int|
        tree.has(d) && tree.kind(d) is VarDeclaration && (#[trigger] tree.first_named_child(
            d,
        )) is Some ==> tree.kind(tree.first_named_child(d)->0) is Assignment
}

/// Whether an identifier from a place on refers to a variable of a name.
pub open spec fn referred_from(code: Seq<char>, tree: Tree, from: int, name: Seq<char>) -> bool {
    exists|m: int|
        from <= m < tree.len() && refers_to_variable(tree, m) && #[trigger] tree.node_text(code, m)
            == name
}

/// Whether an identifier from a place on names a variable.
pub open spec fn named_from(code: Seq<char>, tree: Tree, from: int, name: Seq<char>) -> bool {
    exists|m: int|
        from <= m < tree.len() && names_variable(tree, m) && #[trigger] tree.node_text(code, m)
            == name
}

/// Whether an event comes from an identifier from a place on.
spec fn event_from(code: Seq<char>, tree: Tree, from: int, event: Event) -> bool {
    match event {
        Event::Use { name } => referred_from(code, tree, from, name),
        Event::Declare { name, .. } => named_from(code, tree, from, name),
        _ => true,
    }
}

/// Whether all events come from identifiers from a place on.
spec fn events_from(code: Seq<char>, tree: Tree, from: int, events: Seq<Event>) -> bool {
    forall|k: int| 0 <= k < events.len() ==> event_from(code, tree, from, #[trigger] events[k])
}

/// What comes from a place on comes from an earlier one on, and so do two lists together.
proof fn lemma_events_from(
    code: Seq<char>,
    tree: Tree,
    from: int,
    a: Seq<Event>,
    x: int,
    b: Seq<Event>,
    y: int,
)
    requires
        from <= x,
        from <= y,
        events_from(code, tree, x, a),
        events_from(code, tree, y, b),
    ensures
        events_from(code, tree, from, a + b),
{
    let all = a + b;
    assert forall|k: int| 0 <= k < all.len() implies event_from(
        code,
        tree,
        from,
        #[trigger] all[k],
    ) by {
        let (event, low) = if k < a.len() {
            (a[k], x)
        } else {
            (b[k - a.len()], y)
        };
        assert(all[k] == event && event_from(code, tree, low, event));
        match event {
            Event::Use { name } => {
                let m = choose|m: int|
                    low <= m < tree.len() && refers_to_variable(tree, m)
                        && #[trigger] tree.node_text(code, m) == name;
                assert(tree.node_text(code, m) == name);
            },
            Event::Declare { name, .. } => {
                let m = choose|m: int|
                    low <= m < tree.len() && names_variable(tree, m) && #[trigger] tree.node_text(
                        code,
                        m,
                    ) == name;
                assert(tree.node_text(code, m) == name);
            },
            _ => {},
        }
    }
}

/// No events come from anywhere.
proof fn lemma_none_from(code: Seq<char>, tree: Tree, from: int, x: int, a: Seq<Event>)
    requires
        from <= x,
        events_from(code, tree, x, a),
    ensures
        events_from(code, tree, from, a),
{
    let none = Seq::<Event>::empty();
    assert(a + none =~= a);
    lemma_events_from(code, tree, from, a, x, none, x);
}

/// The events of the child that has a role come from identifiers in it.
proof fn lemma_field_from(code: Seq<char>, tree: Tree, node: int, field: Field)
    requires
        tree.wf(),
        tree.has(node),
        declarations_fit(tree),
    ensures
        events_from(code, tree, node, field_events(code, tree, node, field)),
    decreases tree.len() - node, 1int, 0int,
{
    tree.lemma_field(node, field);
    if let Some(c) = tree.child_by_field(node, field) {
        lemma_node_from(code, tree, c);
        lemma_none_from(code, tree, node, c, node_events(code, tree, c));
    }
}

/// The events of the children of the child that has a role come from identifiers in it.
proof fn lemma_field_list_from(code: Seq<char>, tree: Tree, node: int, field: Field, mode: Mode)
    requires
        tree.wf(),
        tree.has(node),
        declarations_fit(tree),
    ensures
        events_from(code, tree, node, field_list_events(code, tree, node, field, mode)),
    decreases tree.len() - node, 1int, 0int,
{
    tree.lemma_field(node, field);
    if let Some(c) = tree.child_by_field(node, field) {
        lemma_list_from(code, tree, c, mode, 0);
        lemma_none_from(code, tree, node, c, list_events(code, tree, c, mode, 0));
    }
}

/// The events of a declaration come from identifiers in it.
proof fn lemma_declaration_from(code: Seq<char>, tree: Tree, node: int, report: bool)
    requires
        tree.wf(),
        tree.has(node),
        declarations_fit(tree),
        tree.kind(node) is Assignment,
    ensures
        events_from(code, tree, node, declaration_events(code, tree, node, report)),
    decreases tree.len() - node, 2int, 0int,
{
    lemma_field_from(code, tree, node, Field::Value);
    tree.lemma_field(node, Field::Name);
    let name = tree.child_by_field(node, Field::Name);
    let declared = declare_events(code, tree, name, report);
    assert(events_from(code, tree, node, declared)) by {
        if let Some(n) = name {
            assert(tree.node_text(code, n) == tree.node_text(code, n));
            if tree.kind(n) is Identifier {
                assert(names_variable(tree, n));
                assert(named_from(code, tree, node, tree.node_text(code, n)));
            }
        }
    }
    lemma_events_from(
        code,
        tree,
        node,
        field_events(code, tree, node, Field::Value),
        node,
        declared,
        node,
    );
}

/// The events of a child come from identifiers in it.
proof fn lemma_child_from(code: Seq<char>, tree: Tree, node: int, mode: Mode, k: int)
    requires
        tree.wf(),
        tree.has(node),
        declarations_fit(tree),
        0 <= k < tree.named_children(node).len(),
    ensures
        events_from(
            code,
            tree,
            tree.named_children(node)[k],
            child_events(code, tree, node, mode, tree.named_children(node)[k]),
        ),
    decreases tree.len() - node, 0int, 0int,
{
    let child = tree.named_children(node)[k];
    tree.lemma_named_child(node, k);
    lemma_node_from(code, tree, child);
    match mode {
        Mode::Parameters => if tree.kind(child) is Parameter {
            if let Some(inner) = tree.first_named_child(child) {
                tree.lemma_named_child(child, 0);
                if tree.kind(inner) is Identifier {
                    assert(names_variable(tree, inner));
                    assert(named_from(code, tree, child, tree.node_text(code, inner)));
                } else if tree.kind(inner) is Assignment {
                    lemma_declaration_from(code, tree, inner, false);
                    lemma_none_from(
                        code,
                        tree,
                        child,
                        inner,
                        declaration_events(code, tree, inner, false),
                    );
                }
            }
        },
        Mode::AssignmentScope => match tree.kind(child) {
            NodeKind::Assignments => {
                lemma_list_from(code, tree, child, Mode::Assignments, 0);
            },
            NodeKind::LetPrefix => {
                lemma_list_from(code, tree, child, Mode::LetPrefix, 0);
            },
            NodeKind::ConditionUpdateClause => {
                let first = field_list_events(
                    code,
                    tree,
                    child,
                    Field::Initializer,
                    Mode::Declaring,
                );
                let second = field_events(code, tree, child, Field::Condition);
                let third = field_list_events(code, tree, child, Field::Update, Mode::Updating);
                lemma_field_list_from(code, tree, child, Field::Initializer, Mode::Declaring);
                lemma_field_from(code, tree, child, Field::Condition);
                lemma_field_list_from(code, tree, child, Field::Update, Mode::Updating);
                lemma_events_from(code, tree, child, first, child, second, child);
                lemma_events_from(code, tree, child, first + second, child, third, child);
            },
            _ => {},
        },
        Mode::LetPrefix => if tree.kind(child) is Assignments {
            lemma_list_from(code, tree, child, Mode::Assignments, 0);
        },
        Mode::Declaring => if tree.kind(child) is Assignment {
            lemma_declaration_from(code, tree, child, true);
        },
        Mode::Updating => if tree.kind(child) is Assignment {
            lemma_update_from(code, tree, child);
        },
        Mode::Assignments => if tree.kind(child) is Assignment {
            lemma_declaration_from(code, tree, child, true);
        },
        Mode::Arguments => if tree.kind(child) is Assignment {
            lemma_field_from(code, tree, child, Field::Value);
        },
        _ => {},
    }
}

/// The events of an assignment that declares nothing come from identifiers in it.
proof fn lemma_update_from(code: Seq<char>, tree: Tree, node: int)
    requires
        tree.wf(),
        tree.has(node),
        declarations_fit(tree),
    ensures
        events_from(code, tree, node, update_events(code, tree, node)),
    decreases tree.len() - node, 2int, 0int,
{
    lemma_field_from(code, tree, node, Field::Name);
    lemma_field_from(code, tree, node, Field::Value);
    lemma_events_from(
        code,
        tree,
        node,
        field_events(code, tree, node, Field::Name),
        node,
        field_events(code, tree, node, Field::Value),
        node,
    );
}

/// Named children come in order.
proof fn lemma_named_ascending(tree: Tree, node: int, list: Seq<int>, i: int, j: int)
    requires
        forall|k: int, l: int| 0 <= k < l < list.len() ==> #[trigger] list[k] < #[trigger] list[l],
        0 <= i < j < list.filter(|c: int| tree.nodes[c].named).len(),
    ensures
        list.filter(|c: int| tree.nodes[c].named)[i] < list.filter(|c: int| tree.nodes[c].named)[j],
    decreases list.len(),
{
    reveal(Seq::filter);
    let named = |c: int| tree.nodes[c].named;
    let rest = list.drop_last();
    let kept = rest.filter(named);
    let all = list.filter(named);
    assert forall|k: int, l: int| 0 <= k < l < rest.len() implies #[trigger] rest[k]
        < #[trigger] rest[l] by {
        assert(list[k] < list[l]);
    }
    if j < kept.len() {
        lemma_named_ascending(tree, node, rest, i, j);
    } else {
        assert(all[j] == list.last());
        assert(kept.contains(kept[i]));
        lemma_filter_from(rest, named, kept[i]);
        let k = choose|k: int| 0 <= k < rest.len() && rest[k] == kept[i];
        assert(list[k] < list[list.len() - 1]);
    }
}

/// The events of the children of a node from a place on come from identifiers from there on.
proof fn lemma_list_from(code: Seq<char>, tree: Tree, node: int, mode: Mode, k: int)
    requires
        tree.wf(),
        tree.has(node),
        declarations_fit(tree),
        0 <= k,
    ensures
        events_from(code, tree, node, list_events(code, tree, node, mode, k)),
        k < tree.named_children(node).len() ==> events_from(
            code,
            tree,
            tree.named_children(node)[k],
            list_events(code, tree, node, mode, k),
        ),
    decreases tree.len() - node, 1int, tree.named_children(node).len() - k,
{
    if k < tree.named_children(node).len() {
        let child = tree.named_children(node)[k];
        let first = child_events(code, tree, node, mode, child);
        let rest = list_events(code, tree, node, mode, k + 1);
        tree.lemma_named_child(node, k);
        lemma_child_from(code, tree, node, mode, k);
        lemma_list_from(code, tree, node, mode, k + 1);
        lemma_events_from(code, tree, node, first, child, rest, node);
        if k + 1 < tree.named_children(node).len() {
            assert(tree.node_wf(node));
            lemma_named_ascending(tree, node, tree.children(node), k, k + 1);
            lemma_events_from(
                code,
                tree,
                child,
                first,
                child,
                rest,
                tree.named_children(node)[k + 1],
            );
        } else {
            assert(rest =~= Seq::empty());
            assert(first + rest =~= first);
        }
    }
}

/// The events of a node come from identifiers in it.
proof fn lemma_node_from(code: Seq<char>, tree: Tree, node: int)
    requires
        tree.wf(),
        tree.has(node),
        declarations_fit(tree),
    ensures
        events_from(code, tree, node, node_events(code, tree, node)),
    decreases tree.len() - node, 3int, 0int,
{
    match tree.kind(node) {
        NodeKind::ModuleItem | NodeKind::FunctionItem | NodeKind::FunctionLit => {
            let start = seq![Event::Enter, Event::Open];
            let params = field_list_events(code, tree, node, Field::Parameters, Mode::Parameters);
            let body = list_events(code, tree, node, Mode::Callable, 0);
            let end = seq![Event::Close, Event::Leave];
            lemma_field_list_from(code, tree, node, Field::Parameters, Mode::Parameters);
            lemma_list_from(code, tree, node, Mode::Callable, 0);
            lemma_events_from(code, tree, node, start, node, params, node);
            lemma_events_from(code, tree, node, start + params, node, body, node);
            lemma_events_from(code, tree, node, start + params + body, node, end, node);
        },
        NodeKind::VarDeclaration => {
            if let Some(assignment) = tree.first_named_child(node) {
                tree.lemma_named_child(node, 0);
                lemma_declaration_from(code, tree, assignment, true);
                lemma_none_from(
                    code,
                    tree,
                    node,
                    assignment,
                    declaration_events(code, tree, assignment, true),
                );
            }
        },
        NodeKind::LetExpression
        | NodeKind::LetBlock
        | NodeKind::AssignBlock
        | NodeKind::ForBlock
        | NodeKind::IntersectionForBlock
        | NodeKind::ForClause
        | NodeKind::IfClause
        | NodeKind::Each => {
            let inner = list_events(code, tree, node, Mode::AssignmentScope, 0);
            let start = seq![Event::Open];
            lemma_list_from(code, tree, node, Mode::AssignmentScope, 0);
            lemma_events_from(code, tree, node, start, node, inner, node);
            lemma_events_from(code, tree, node, start + inner, node, seq![Event::Close], node);
        },
        NodeKind::LetPrefix => {
            lemma_list_from(code, tree, node, Mode::LetPrefix, 0);
        },
        NodeKind::Arguments => {
            lemma_list_from(code, tree, node, Mode::Arguments, 0);
        },
        NodeKind::ModuleCall => {
            lemma_field_from(code, tree, node, Field::Arguments);
        },
        NodeKind::FunctionCall => {
            lemma_field_from(code, tree, node, Field::Name);
            lemma_field_from(code, tree, node, Field::Arguments);
            lemma_events_from(
                code,
                tree,
                node,
                field_events(code, tree, node, Field::Name),
                node,
                field_events(code, tree, node, Field::Arguments),
                node,
            );
        },
        NodeKind::DotIndexExpression => {
            lemma_field_from(code, tree, node, Field::Value);
        },
        NodeKind::Assignment => {
            lemma_update_from(code, tree, node);
        },
        NodeKind::Identifier => {
            if refers_to_variable(tree, node) {
                assert(referred_from(code, tree, node, tree.node_text(code, node)));
            }
        },
        _ => {
            lemma_list_from(code, tree, node, Mode::Children, 0);
        },
    }
}

/// Whatever is met as a use in a node comes from an identifier in it, or behind its start, that
/// refers to a variable of that name; and what is met as a declaration comes from one that names
/// the variable of an assignment or a parameter.
pub proof fn law_what_is_met_stands_in_the_text(code: Seq<char>, tree: Tree, node: int, k: int)
    requires
        tree.wf(),
        tree.has(node),
        declarations_fit(tree),
        0 <= k < node_events(code, tree, node).len(),
    ensures
        match node_events(code, tree, node)[k] {
            Event::Use { name } => referred_from(code, tree, node, name),
            Event::Declare { name, .. } => named_from(code, tree, node, name),
            _ => true,
        },
{
    lemma_node_from(code, tree, node);
    assert(event_from(code, tree, node, node_events(code, tree, node)[k]));
}

/// Where what follows a child of a node starts.
pub open spec fn behind(tree: Tree, block: int, i: int) -> int {
    if i + 1 < tree.named_children(block).len() {
        tree.named_children(block)[i + 1]
    } else {
        tree.len()
    }
}

/// Whether a child of a block declares a variable by an identifier. The block is a document, a
/// body, or what a `let`, a loop or the like holds.
pub open spec fn declares_in_block(tree: Tree, block: int, mode: Mode, i: int, name: int) -> bool {
    &&& tree.wf()
    &&& declarations_fit(tree)
    &&& tree.has(block)
    &&& mode == Mode::Children || mode == Mode::Callable || mode == Mode::AssignmentScope
    &&& 0 <= i < tree.named_children(block).len()
    &&& {
        let declaration = tree.named_children(block)[i];
        &&& tree.kind(declaration) is VarDeclaration
        &&& declared_name(tree, declaration) == Some(name)
        &&& tree.child_by_field(block, Field::Name) != Some(declaration)
        &&& tree.child_by_field(block, Field::Parameters) != Some(declaration)
    }
    &&& tree.kind(name) is Identifier
}

/// What is known just before the variable is declared: the value is met first.
pub open spec fn before_declaration(
    walk: WalkView,
    code: Seq<char>,
    tree: Tree,
    block: int,
    i: int,
) -> WalkView {
    let assignment = tree.first_named_child(tree.named_children(block)[i])->0;
    run(walk, field_events(code, tree, assignment, Field::Value))
}

/// A block from the declaration of a variable on: the value, the declaration, and what follows.
proof fn lemma_block(
    walk: WalkView,
    code: Seq<char>,
    tree: Tree,
    block: int,
    mode: Mode,
    i: int,
    name: int,
)
    requires
        declares_in_block(tree, block, mode, i, name),
    ensures
        ({
            let start = before_declaration(walk, code, tree, block, i);
            let rest = list_events(code, tree, block, mode, i + 1);
            let declared = step(
                start,
                Event::Declare {
                    name: tree.node_text(code, name),
                    range: tree.range(name),
                    report: true,
                },
            );
            &&& run(walk, list_events(code, tree, block, mode, i)) == run(declared, rest)
            &&& start.scopes.len() == walk.scopes.len()
            &&& start.depth == walk.depth
            &&& balanced(rest)
            &&& events_from(code, tree, behind(tree, block, i), rest)
        }),
{
    let declaration = tree.named_children(block)[i];
    let assignment = tree.first_named_child(declaration)->0;
    tree.lemma_named_child(block, i);
    tree.lemma_named_child(declaration, 0);
    let value = field_events(code, tree, assignment, Field::Value);
    let event = Event::Declare {
        name: tree.node_text(code, name),
        range: tree.range(name),
        report: true,
    };
    let rest = list_events(code, tree, block, mode, i + 1);
    let first = child_events(code, tree, block, mode, declaration);
    assert(first == node_events(code, tree, declaration));
    assert(declare_events(code, tree, Some(name), true) =~= seq![event]);
    assert(first == value + seq![event]);
    lemma_run_concat(walk, first, rest);
    lemma_run_concat(walk, value, seq![event]);
    lemma_run_one(run(walk, value), event);
    lemma_balanced_field(code, tree, assignment, Field::Value);
    lemma_run_height(walk, value, value.len() as int);
    assert(value.take(value.len() as int) =~= value);
    lemma_balanced_list(code, tree, block, mode, i + 1);
    lemma_list_from(code, tree, block, mode, i + 1);
    if i + 1 >= tree.named_children(block).len() {
        assert(rest =~= Seq::empty());
    }
}

/// A variable of a module or a function that nothing behind its declaration refers to is warned
/// about when its scope ends, unless its name starts with an underscore.
pub proof fn law_a_variable_that_nothing_reads_is_reported(
    walk: WalkView,
    code: Seq<char>,
    tree: Tree,
    block: int,
    mode: Mode,
    i: int,
    name: int,
)
    requires
        declares_in_block(tree, block, mode, i, name),
        walk.scopes.len() > 0,
        walk.depth > 0,
        tree.node_text(code, name).len() == 0 || tree.node_text(code, name)[0] != '_',
        !referred_from(code, tree, behind(tree, block, i), tree.node_text(code, name)),
    ensures
        step(run(walk, list_events(code, tree, block, mode, i)), Event::Close).diagnostics.contains(
            unused_warning(tree.node_text(code, name), tree.range(name)),
        ),
{
    let start = before_declaration(walk, code, tree, block, i);
    let rest = list_events(code, tree, block, mode, i + 1);
    let (text, range) = (tree.node_text(code, name), tree.range(name));
    let declared = step(start, Event::Declare { name: text, range, report: true });
    lemma_block(walk, code, tree, block, mode, i, name);
    law_unused_variables_are_reported(start, text, range, rest);
    let scope = start.scopes.len() - 1;
    let place = start.scopes.last().len() as int;
    assert(!used_within(declared, rest, scope, place, rest.len() as int)) by {
        if used_within(declared, rest, scope, place, rest.len() as int) {
            let j = choose|j: int|
                0 <= j < rest.len() && is_use_of(declared, rest, scope, place, j);
            assert(event_from(code, tree, behind(tree, block, i), rest[j]));
            assert forall|m: int| 0 <= m <= rest.len() implies declared.scopes.len()
                + #[trigger] height(rest, m) > scope by {}
            lemma_variable_kept(declared, rest, scope, place, j);
            lemma_visible(run(declared, rest.take(j)).scopes, rest[j]->Use_name);
        }
    }
    let before = run(declared, rest);
    let locals = before.scopes.last();
    let all = step(before, Event::Close).diagnostics;
    let at = (before.diagnostics + scope_warnings(locals.take(place))).len() as int;
    assert(all[at] == unused_warning(text, range));
}

/// Whether a variable is the latest of its name from a scope on.
spec fn is_latest(scopes: Seq<Seq<LocalView>>, scope: int, place: int, name: Seq<char>) -> bool {
    &&& 0 <= scope < scopes.len()
    &&& 0 <= place < scopes[scope].len()
    &&& scopes[scope][place].name == name
    &&& forall|k: int|
        place < k < scopes[scope].len() ==> (#[trigger] scopes[scope][k]).name != name
    &&& forall|i: int, k: int|
        scope < i < scopes.len() && 0 <= k < scopes[i].len() ==> (#[trigger] scopes[i][k]).name
            != name
}

/// The last variable of a name is the one behind which there is none.
proof fn lemma_last_place(scope: Seq<LocalView>, name: Seq<char>, k: int)
    requires
        0 <= k <= scope.len(),
    ensures
        match last_named(scope, name, k) {
            Some(p) => 0 <= p < k && scope[p].name == name && forall|j: int|
                p < j < k ==> (#[trigger] scope[j]).name != name,
            None => forall|j: int| 0 <= j < k ==> (#[trigger] scope[j]).name != name,
        },
    decreases k,
{
    if k > 0 && scope[k - 1].name != name {
        lemma_last_place(scope, name, k - 1);
    }
}

/// A name stands for the latest variable of that name.
proof fn lemma_latest_visible(
    scopes: Seq<Seq<LocalView>>,
    scope: int,
    place: int,
    name: Seq<char>,
)
    requires
        is_latest(scopes, scope, place, name),
    ensures
        visible(scopes, name) == Some((scope, place)),
    decreases scopes.len(),
{
    let last = scopes.len() - 1;
    lemma_last_place(scopes.last(), name, scopes.last().len() as int);
    if scope == last {
        match last_named(scopes.last(), name, scopes.last().len() as int) {
            Some(p) => {
                if p > place {
                    assert(scopes[scope][p].name != name);
                } else if p < place {
                    assert(scopes.last()[place].name != name);
                }
            },
            None => {
                assert(scopes.last()[place].name != name);
            },
        }
    } else {
        match last_named(scopes.last(), name, scopes.last().len() as int) {
            Some(p) => {
                assert(scopes[last][p].name != name);
            },
            None => {},
        }
        let rest = scopes.drop_last();
        assert forall|i: int, k: int| scope < i < rest.len() && 0 <= k < rest[i].len() implies (
        #[trigger] rest[i][k]).name != name by {
            assert(scopes[i][k].name != name);
        }
        assert forall|k: int| place < k < rest[scope].len() implies (
        #[trigger] rest[scope][k]).name != name by {
            assert(scopes[scope][k].name != name);
        }
        lemma_latest_visible(rest, scope, place, name);
    }
}

/// The latest variable of a name stays the latest as long as none is declared under that name and
/// its scope does not end.
proof fn lemma_latest_stays(
    walk: WalkView,
    events: Seq<Event>,
    scope: int,
    place: int,
    name: Seq<char>,
    m: int,
)
    requires
        is_latest(walk.scopes, scope, place, name),
        scope == walk.scopes.len() - 1,
        0 <= m <= events.len(),
        forall|j: int| 0 <= j <= events.len() ==> #[trigger] height(events, j) >= 0,
        forall|j: int|
            0 <= j < events.len() ==> !((#[trigger] events[j]) matches Event::Declare { name: n, .. }
                && n == name),
    ensures
        is_latest(run(walk, events.take(m)).scopes, scope, place, name),
    decreases m,
{
    if m == 0 {
        assert(events.take(0) =~= Seq::empty());
    } else {
        lemma_latest_stays(walk, events, scope, place, name, m - 1);
        let before = run(walk, events.take(m - 1));
        let now = run(walk, events.take(m));
        let event = events[m - 1];
        assert(events.take(m).drop_last() =~= events.take(m - 1));
        assert(events.take(m).last() == event);
        assert(now == step(before, event));
        lemma_run_height(walk, events, m - 1);
        lemma_run_height(walk, events, m);
        assert(height(events, m) >= 0);
        match event {
            Event::Use { name: used } => {
                lemma_with_used_shape(before.scopes, used);
                let after = now.scopes;
                assert forall|i: int, k: int| 0 <= i < after.len() && 0 <= k < after[i].len() implies (
                #[trigger] after[i][k]).name == before.scopes[i][k].name by {
                    assert(same_local(after[i][k], before.scopes[i][k]));
                }
            },
            Event::Declare { name: other, .. } => {
                let after = now.scopes;
                let last = before.scopes.len() - 1;
                assert forall|i: int, k: int|
                    scope < i < after.len() && 0 <= k < after[i].len() implies (
                #[trigger] after[i][k]).name != name by {
                    if i == last && k == before.scopes[last].len() {
                        assert(after[i][k].name == other);
                    } else {
                        assert(before.scopes[i][k].name != name);
                    }
                }
                assert forall|k: int| place < k < after[scope].len() implies (
                #[trigger] after[scope][k]).name != name by {
                    if scope == last && k == before.scopes[last].len() {
                        assert(after[scope][k].name == other);
                    } else {
                        assert(before.scopes[scope][k].name != name);
                    }
                }
            },
            _ => {
                let after = now.scopes;
                assert forall|i: int, k: int|
                    scope < i < after.len() && 0 <= k < after[i].len() implies (
                #[trigger] after[i][k]).name != name by {
                    if i < before.scopes.len() {
                        assert(before.scopes[i][k].name != name);
                    }
                }
                assert(after[scope] == before.scopes[scope]);
            },
        }
    }
}

/// A part of a child that is a part is a part of the node, in that child.
proof fn lemma_part_of_child(tree: Tree, node: int, child: int, whole: int)
    requires
        0 <= whole < child,
        is_part(tree, whole, child),
        part_of(tree, node, child),
    ensures
        part_of(tree, node, whole),
        part_towards(tree, node, whole) == child,
        whole < node,
    decreases node,
{
    assert(part_of(tree, whole, whole));
    if node != child {
        let parent = tree.parent(node)->0;
        lemma_part_of_child(tree, parent, child, whole);
    }
}

/// A use of the latest variable of a name marks it, and it stays marked.
proof fn lemma_use_marks(
    walk: WalkView,
    events: Seq<Event>,
    scope: int,
    place: int,
    name: Seq<char>,
    q: int,
)
    requires
        is_latest(walk.scopes, scope, place, name),
        scope == walk.scopes.len() - 1,
        balanced(events),
        forall|j: int|
            0 <= j < events.len() ==> !((#[trigger] events[j]) matches Event::Declare { name: n, .. }
                && n == name),
        0 <= q < events.len(),
        events[q] == (Event::Use { name }),
    ensures
        ({
            let after = run(walk, events);
            &&& after.scopes.len() == walk.scopes.len()
            &&& place < after.scopes[scope].len()
            &&& same_local(after.scopes[scope][place], walk.scopes[scope][place])
            &&& after.scopes[scope][place].used
        }),
{
    lemma_latest_stays(walk, events, scope, place, name, q);
    lemma_latest_visible(run(walk, events.take(q)).scopes, scope, place, name);
    assert(is_use_of(walk, events, scope, place, q));
    assert forall|m: int| 0 <= m <= events.len() implies walk.scopes.len() + #[trigger] height(
        events,
        m,
    ) > scope by {}
    assert forall|m: int| 0 <= m <= events.len() implies walk.scopes.len() + #[trigger] height(
        events,
        m,
    ) >= 0 by {}
    lemma_variable_kept(walk, events, scope, place, events.len() as int);
    lemma_run_height(walk, events, events.len() as int);
    assert(events.take(events.len() as int) =~= events);
}

/// A variable that was just declared is the latest of its name.
proof fn lemma_just_declared(walk: WalkView, name: Seq<char>, range: Range)
    requires
        walk.scopes.len() > 0,
    ensures
        ({
            let now = step(walk, Event::Declare { name, range, report: true }).scopes;
            let scope = walk.scopes.len() - 1;
            let place = walk.scopes.last().len() as int;
            &&& now.len() == walk.scopes.len()
            &&& is_latest(now, scope, place, name)
            &&& now[scope][place].range == range
        }),
{
}

/// Where no identifier from a place on names a variable of a name, none of the events that come
/// from there declares one.
proof fn lemma_no_declaration(
    code: Seq<char>,
    tree: Tree,
    from: int,
    events: Seq<Event>,
    name: Seq<char>,
)
    requires
        events_from(code, tree, from, events),
        !named_from(code, tree, from, name),
    ensures
        forall|k: int|
            0 <= k < events.len() ==> !((#[trigger] events[k]) matches Event::Declare { name: n, .. }
                && n == name),
{
    assert forall|k: int| 0 <= k < events.len() implies !((
    #[trigger] events[k]) matches Event::Declare { name: n, .. } && n == name) by {
        assert(event_from(code, tree, from, events[k]));
    }
}

/// Whether a use of a name is among some events.
pub open spec fn use_met(events: Seq<Event>, name: Seq<char>) -> bool {
    exists|q: int| 0 <= q < events.len() && (#[trigger] events[q]) == (Event::Use { name })
}

/// A reference in a later child of a block is met behind the declaration.
proof fn lemma_reference_follows(
    code: Seq<char>,
    tree: Tree,
    block: int,
    mode: Mode,
    i: int,
    j: int,
    node: int,
)
    requires
        tree.wf(),
        tree.has(block),
        0 <= i < j < tree.named_children(block).len(),
        is_part(tree, block, tree.named_children(block)[j]),
        mode_fits(tree, block, mode, tree.named_children(block)[j]),
        tree.has(node),
        part_of(tree, node, tree.named_children(block)[j]),
        refers_to_variable(tree, node),
    ensures
        use_met(list_events(code, tree, block, mode, i + 1), tree.node_text(code, node)),
{
    let child = tree.named_children(block)[j];
    let rest = list_events(code, tree, block, mode, i + 1);
    let met = seq![Event::Use { name: tree.node_text(code, node) }];
    tree.lemma_named_child(block, j);
    lemma_part_of_child(tree, node, child, block);
    lemma_child_met(code, tree, block, mode, node);
    assert(node_events(code, tree, node) == met);
    lemma_child_in_list(code, tree, block, mode, i + 1, j, met);
    let q = choose|q: int|
        0 <= q <= rest.len() - met.len() && #[trigger] rest.subrange(q, q + met.len()) == met;
    assert(rest[q] == rest.subrange(q, q + met.len())[0]);
}

/// Where a use of the name of a variable is met behind its declaration in a block, and no other
/// variable of that name is declared there, the variable counts as used when the block ends.
proof fn lemma_block_read(
    walk: WalkView,
    code: Seq<char>,
    tree: Tree,
    block: int,
    mode: Mode,
    i: int,
    name: int,
)
    requires
        declares_in_block(tree, block, mode, i, name),
        walk.scopes.len() > 0,
        !named_from(code, tree, behind(tree, block, i), tree.node_text(code, name)),
        use_met(list_events(code, tree, block, mode, i + 1), tree.node_text(code, name)),
    ensures
        ({
            let start = before_declaration(walk, code, tree, block, i);
            let after = run(walk, list_events(code, tree, block, mode, i));
            let scope = walk.scopes.len() - 1;
            let place = start.scopes.last().len() as int;
            &&& after.scopes.len() == walk.scopes.len()
            &&& place < after.scopes[scope].len()
            &&& after.scopes[scope][place].name == tree.node_text(code, name)
            &&& after.scopes[scope][place].range == tree.range(name)
            &&& after.scopes[scope][place].used
        }),
{
    let start = before_declaration(walk, code, tree, block, i);
    let rest = list_events(code, tree, block, mode, i + 1);
    let (text, range) = (tree.node_text(code, name), tree.range(name));
    let q = choose|q: int|
        0 <= q < rest.len() && (#[trigger] rest[q]) == (Event::Use { name: text });
    lemma_block(walk, code, tree, block, mode, i, name);
    lemma_no_declaration(code, tree, behind(tree, block, i), rest, text);
    lemma_declared_and_used(start, rest, text, range, q);
}

/// A variable that is declared and then used, while no other of its name is declared, counts as
/// used.
proof fn lemma_declared_and_used(
    start: WalkView,
    rest: Seq<Event>,
    name: Seq<char>,
    range: Range,
    q: int,
)
    requires
        start.scopes.len() > 0,
        balanced(rest),
        forall|j: int|
            0 <= j < rest.len() ==> !((#[trigger] rest[j]) matches Event::Declare { name: n, .. }
                && n == name),
        0 <= q < rest.len(),
        rest[q] == (Event::Use { name }),
    ensures
        ({
            let after = run(step(start, Event::Declare { name, range, report: true }), rest);
            let scope = start.scopes.len() - 1;
            let place = start.scopes.last().len() as int;
            &&& after.scopes.len() == start.scopes.len()
            &&& place < after.scopes[scope].len()
            &&& after.scopes[scope][place].name == name
            &&& after.scopes[scope][place].range == range
            &&& after.scopes[scope][place].used
        }),
{
    let declared = step(start, Event::Declare { name, range, report: true });
    let scope = start.scopes.len() - 1;
    let place = start.scopes.last().len() as int;
    lemma_just_declared(start, name, range);
    lemma_use_marks(declared, rest, scope, place, name, q);
}

/// A variable that an identifier in a later part of its block refers to, however deep it is nested
/// there, counts as used when the block ends, as long as no other variable of that name is
/// declared behind it; so it is not warned about.
pub proof fn law_a_variable_that_is_read_counts_as_used(
    walk: WalkView,
    code: Seq<char>,
    tree: Tree,
    block: int,
    mode: Mode,
    i: int,
    name: int,
    j: int,
    node: int,
)
    requires
        declares_in_block(tree, block, mode, i, name),
        walk.scopes.len() > 0,
        i < j < tree.named_children(block).len(),
        is_part(tree, block, tree.named_children(block)[j]),
        mode == Mode::Callable ==> tree.child_by_field(block, Field::Parameters) != Some(
            tree.named_children(block)[j],
        ) && tree.child_by_field(block, Field::Name) != Some(tree.named_children(block)[j]),
        tree.has(node),
        part_of(tree, node, tree.named_children(block)[j]),
        refers_to_variable(tree, node),
        tree.node_text(code, node) == tree.node_text(code, name),
        !named_from(code, tree, behind(tree, block, i), tree.node_text(code, name)),
    ensures
        ({
            let start = before_declaration(walk, code, tree, block, i);
            let after = run(walk, list_events(code, tree, block, mode, i));
            let scope = walk.scopes.len() - 1;
            let place = start.scopes.last().len() as int;
            &&& after.scopes.len() == walk.scopes.len()
            &&& place < after.scopes[scope].len()
            &&& after.scopes[scope][place].name == tree.node_text(code, name)
            &&& after.scopes[scope][place].range == tree.range(name)
            &&& after.scopes[scope][place].used
        }),
{
    assert(use_met(
        list_events(code, tree, block, mode, i + 1),
        tree.node_text(code, name),
    )) by {
        lemma_reference_follows(code, tree, block, mode, i, j, node);
    }
    lemma_block_read(walk, code, tree, block, mode, i, name);
}

/// A `let`, a loop and the like open a scope before anything in them is met, and close it behind
/// all of it; a module or a function is entered before that, and left behind it. Nothing else
/// opens or closes a scope by itself.
pub proof fn law_blocks_have_their_own_scope(code: Seq<char>, tree: Tree, node: int)
    ensures
        ({
            let events = node_events(code, tree, node);
            let n = events.len() as int;
            match tree.kind(node) {
                NodeKind::ModuleItem | NodeKind::FunctionItem | NodeKind::FunctionLit => {
                    &&& n >= 4
                    &&& events[0] == Event::Enter && events[1] == Event::Open
                    &&& events[n - 2] == Event::Close && events[n - 1] == Event::Leave
                    &&& balanced(events.subrange(2, n - 2))
                },
                NodeKind::LetExpression
                | NodeKind::LetBlock
                | NodeKind::AssignBlock
                | NodeKind::ForBlock
                | NodeKind::IntersectionForBlock
                | NodeKind::ForClause
                | NodeKind::IfClause
                | NodeKind::Each => {
                    &&& n >= 2
                    &&& events[0] == Event::Open
                    &&& events[n - 1] == Event::Close
                    &&& balanced(events.subrange(1, n - 1))
                },
                _ => true,
            }
        }),
{
    let events = node_events(code, tree, node);
    let n = events.len() as int;
    match tree.kind(node) {
        NodeKind::ModuleItem | NodeKind::FunctionItem | NodeKind::FunctionLit => {
            let params = field_list_events(code, tree, node, Field::Parameters, Mode::Parameters);
            let body = list_events(code, tree, node, Mode::Callable, 0);
            lemma_balanced_field_list(code, tree, node, Field::Parameters, Mode::Parameters);
            lemma_balanced_list(code, tree, node, Mode::Callable, 0);
            lemma_balanced_concat(params, body);
            assert(events.subrange(2, n - 2) =~= params + body);
        },
        NodeKind::LetExpression
        | NodeKind::LetBlock
        | NodeKind::AssignBlock
        | NodeKind::ForBlock
        | NodeKind::IntersectionForBlock
        | NodeKind::ForClause
        | NodeKind::IfClause
        | NodeKind::Each => {
            let inner = list_events(code, tree, node, Mode::AssignmentScope, 0);
            lemma_balanced_list(code, tree, node, Mode::AssignmentScope, 0);
            assert(events.subrange(1, n - 1) =~= inner);
        },
        _ => {},
    }
}

/// The value of a variable does not see the variable: all that is met in the value comes first,
/// and the declaration last.
pub proof fn law_a_value_does_not_see_its_name(code: Seq<char>, tree: Tree, node: int)
    requires
        tree.wf(),
        tree.has(node),
        tree.kind(node) is VarDeclaration,
        declared_name(tree, node) is Some,
        tree.kind(declared_name(tree, node)->0) is Identifier,
    ensures
        ({
            let events = node_events(code, tree, node);
            let assignment = tree.first_named_child(node)->0;
            let name = declared_name(tree, node)->0;
            &&& events.len() > 0
            &&& events.last() == (Event::Declare {
                name: tree.node_text(code, name),
                range: tree.range(name),
                report: true,
            })
            &&& match tree.child_by_field(assignment, Field::Value) {
                Some(value) => events.drop_last() == node_events(code, tree, value),
                None => events.drop_last().len() == 0,
            }
        }),
{
    let assignment = tree.first_named_child(node)->0;
    tree.lemma_named_child(node, 0);
    tree.lemma_field(assignment, Field::Value);
    let events = node_events(code, tree, node);
    let value = field_events(code, tree, assignment, Field::Value);
    assert(events.drop_last() =~= value);
}

/// A variable that may be warned about and is not used is warned about once its scope has ended,
/// as long as no use of its name is met.
proof fn lemma_never_used(
    walk: WalkView,
    events: Seq<Event>,
    scope: int,
    place: int,
    name: Seq<char>,
    range: Range,
)
    requires
        0 <= scope < walk.scopes.len(),
        0 <= place < walk.scopes[scope].len(),
        walk.scopes[scope][place].name == name,
        walk.scopes[scope][place].range == range,
        walk.scopes[scope][place].report_unused,
        !walk.scopes[scope][place].used,
        !use_met(events, name),
        forall|j: int|
            0 <= j <= events.len() ==> walk.scopes.len() + #[trigger] height(events, j) >= 0,
        walk.scopes.len() + height(events, events.len() as int) <= scope,
    ensures
        run(walk, events).diagnostics.contains(unused_warning(name, range)),
    decreases events.len(),
{
    let n = events.len() as int;
    let first = events[0];
    let rest = events.drop_first();
    let now = step(walk, first);
    assert(height(events, 0) == 0);
    assert(events =~= seq![first] + rest);
    lemma_run_concat(walk, seq![first], rest);
    lemma_run_one(walk, first);
    lemma_height_first(events);
    assert forall|j: int| 0 <= j <= rest.len() implies now.scopes.len() + #[trigger] height(rest, j)
        >= 0 by {
        assert(walk.scopes.len() + height(events, j + 1) >= 0);
        lemma_step_height(walk, events, j);
    }
    lemma_step_height(walk, events, rest.len() as int);
    assert(!use_met(rest, name)) by {
        if use_met(rest, name) {
            let q = choose|q: int|
                0 <= q < rest.len() && (#[trigger] rest[q]) == (Event::Use { name });
            assert(events[q + 1] == rest[q]);
        }
    }
    if first is Close && walk.scopes.len() - 1 == scope {
        let locals = walk.scopes.last();
        lemma_warned(locals, place);
        let w = choose|w: int|
            0 <= w < scope_warnings(locals).len() && scope_warnings(locals)[w] == unused_warning(
                name,
                range,
            );
        assert(now.diagnostics[walk.diagnostics.len() + w] == unused_warning(name, range));
        lemma_diagnostics_grow(now, rest);
        assert(run(now, rest).diagnostics[walk.diagnostics.len() + w] == unused_warning(
            name,
            range,
        ));
    } else {
        if let Event::Use { name: other } = first {
            lemma_with_used_shape(walk.scopes, other);
            lemma_visible(walk.scopes, other);
            assert(events[0] == (Event::Use { name: other }));
            assert(same_local(now.scopes[scope][place], walk.scopes[scope][place]));
        }
        lemma_never_used(now, rest, scope, place, name, range);
    }
}

/// How high events go from the second on.
proof fn lemma_height_first(events: Seq<Event>)
    requires
        events.len() > 0,
    ensures
        forall|j: int|
            0 <= j < events.len() ==> #[trigger] height(events.drop_first(), j) == height(
                events,
                j + 1,
            ) - height(events, 1),
{
    assert forall|j: int| 0 <= j < events.len() implies #[trigger] height(events.drop_first(), j)
        == height(events, j + 1) - height(events, 1) by {
        lemma_height_shift(events, j);
    }
}

/// How high events go from the second on, up to a place.
proof fn lemma_height_shift(events: Seq<Event>, j: int)
    requires
        0 <= j < events.len(),
    ensures
        height(events.drop_first(), j) == height(events, j + 1) - height(events, 1),
    decreases j,
{
    if j > 0 {
        lemma_height_shift(events, j - 1);
        assert(events.drop_first()[j - 1] == events[j]);
    }
}

/// A step leaves as many scopes as the event says.
proof fn lemma_step_height(walk: WalkView, events: Seq<Event>, j: int)
    requires
        events.len() > 0,
        0 <= j < events.len(),
        forall|i: int|
            0 <= i <= events.len() ==> walk.scopes.len() + #[trigger] height(events, i) >= 0,
    ensures
        step(walk, events[0]).scopes.len() + height(events.drop_first(), j) == walk.scopes.len()
            + height(events, j + 1),
{
    lemma_height_shift(events, j);
    assert(height(events, 0) == 0);
    assert(walk.scopes.len() + height(events, 1) >= 0);
    if let Event::Use { name } = events[0] {
        lemma_with_used_shape(walk.scopes, name);
    }
}

/// A variable of a scope that may be warned about and is not used is warned about.
proof fn lemma_warned(scope: Seq<LocalView>, k: int)
    requires
        0 <= k < scope.len(),
        scope[k].report_unused,
        !scope[k].used,
    ensures
        exists|w: int|
            0 <= w < scope_warnings(scope).len() && scope_warnings(scope)[w] == unused_warning(
                scope[k].name,
                scope[k].range,
            ),
    decreases scope.len(),
{
    let rest = scope.drop_last();
    let earlier = scope_warnings(rest);
    let all = scope_warnings(scope);
    if k < rest.len() {
        lemma_warned(rest, k);
        let w = choose|w: int|
            0 <= w < earlier.len() && earlier[w] == unused_warning(scope[k].name, scope[k].range);
        assert(all[w] == earlier[w]);
    } else {
        assert(all[all.len() - 1] == unused_warning(scope[k].name, scope[k].range));
    }
}

/// Warnings stay.
proof fn lemma_diagnostics_grow(walk: WalkView, events: Seq<Event>)
    ensures
        walk.diagnostics.is_prefix_of(run(walk, events).diagnostics),
    decreases events.len(),
{
    if events.len() > 0 {
        lemma_diagnostics_grow(walk, events.drop_last());
    }
}

/// A variable of a module or a function that no identifier of the document refers to is warned
/// about, wherever in the module or function it is declared, unless its name starts with an
/// underscore.
pub proof fn law_a_variable_that_no_one_reads_is_reported(
    code: Seq<char>,
    tree: Tree,
    callable: int,
    node: int,
    name: int,
)
    requires
        tree.wf(),
        declarations_fit(tree),
        tree.has(callable),
        callable != 0,
        part_of(tree, callable, 0),
        match tree.kind(callable) {
            NodeKind::ModuleItem | NodeKind::FunctionItem | NodeKind::FunctionLit => true,
            _ => false,
        },
        tree.has(node),
        part_of(tree, node, callable),
        tree.kind(node) is VarDeclaration,
        declared_name(tree, node) == Some(name),
        tree.kind(name) is Identifier,
        tree.node_text(code, name).len() == 0 || tree.node_text(code, name)[0] != '_',
        !referred_from(code, tree, 0, tree.node_text(code, name)),
    ensures
        unused_locals(code, tree).contains(
            unused_warning(tree.node_text(code, name), tree.range(name)),
        ),
{
    let all = list_events(code, tree, 0, Mode::Children, 0);
    let own = node_events(code, tree, callable);
    let (text, range) = (tree.node_text(code, name), tree.range(name));
    let event = Event::Declare { name: text, range, report: true };
    lemma_list_met(code, tree, 0, Mode::Children, callable);
    law_each_declaration_is_met(code, tree, callable, node);
    let p = choose|p: int|
        0 <= p <= all.len() - own.len() && #[trigger] all.subrange(p, p + own.len()) == own;
    let met = seq![event];
    let q = choose|q: int|
        0 <= q <= own.len() - met.len() && #[trigger] own.subrange(q, q + met.len()) == met;
    assert(own[q] == own.subrange(q, q + met.len())[0]);
    assert(all[p + q] == all.subrange(p, p + own.len())[q]);
    law_blocks_have_their_own_scope(code, tree, callable);
    lemma_balanced_list(code, tree, 0, Mode::Children, 0);
    lemma_inside(all, p, own, q);
    let k = p + q;
    let before = run(fresh_walk(), all.take(k));
    let declared = step(before, event);
    let rest = all.skip(k + 1);
    assert forall|j: int| 0 <= j <= all.len() implies fresh_walk().scopes.len() + #[trigger] height(
        all,
        j,
    ) >= 0 by {}
    lemma_run_height(fresh_walk(), all, k);
    assert(all =~= all.take(k) + (seq![event] + rest));
    lemma_run_concat(fresh_walk(), all.take(k), seq![event] + rest);
    lemma_run_concat(before, seq![event], rest);
    lemma_run_one(before, event);
    lemma_list_from(code, tree, 0, Mode::Children, 0);
    assert(!use_met(rest, text)) by {
        if use_met(rest, text) {
            let u = choose|u: int|
                0 <= u < rest.len() && (#[trigger] rest[u]) == (Event::Use { name: text });
            assert(all[k + 1 + u] == rest[u]);
            assert(event_from(code, tree, 0, all[k + 1 + u]));
        }
    }
    let scope = before.scopes.len() - 1;
    let place = before.scopes.last().len() as int;
    lemma_just_declared(before, text, range);
    lemma_heights_behind(all, k);
    assert(declared.scopes.len() == height(all, k + 1));
    assert forall|j: int| 0 <= j <= rest.len() implies declared.scopes.len() + #[trigger] height(
        rest,
        j,
    ) >= 0 by {
        assert(height(all, k + 1 + j) >= 0);
    }
    lemma_never_used(declared, rest, scope, place, text, range);
}

/// How high events go behind a place.
proof fn lemma_heights_behind(all: Seq<Event>, k: int)
    requires
        0 <= k < all.len(),
        all[k] is Declare,
    ensures
        height(all, k + 1) == height(all, k),
        forall|j: int|
            0 <= j <= all.len() - k - 1 ==> #[trigger] height(all.skip(k + 1), j) == height(
                all,
                k + 1 + j,
            ) - height(all, k + 1),
{
    assert forall|j: int| 0 <= j <= all.len() - k - 1 implies #[trigger] height(all.skip(k + 1), j)
        == height(all, k + 1 + j) - height(all, k + 1) by {
        lemma_height_behind(all, k + 1, j);
    }
}

/// How high events go behind a place, up to another.
proof fn lemma_height_behind(all: Seq<Event>, k: int, j: int)
    requires
        0 <= k,
        0 <= j <= all.len() - k,
    ensures
        height(all.skip(k), j) == height(all, k + j) - height(all, k),
        nesting(all.skip(k), j) == nesting(all, k + j) - nesting(all, k),
    decreases j,
{
    if j > 0 {
        lemma_height_behind(all, k, j - 1);
        assert(all.skip(k)[j - 1] == all[k + j - 1]);
    }
}

/// A declaration among the events of a module or a function stands in its scope, and inside of it.
proof fn lemma_inside(all: Seq<Event>, p: int, own: Seq<Event>, q: int)
    requires
        balanced(all),
        0 <= p <= all.len() - own.len(),
        all.subrange(p, p + own.len()) == own,
        own.len() >= 4,
        own[0] == Event::Enter,
        own[1] == Event::Open,
        own[own.len() - 2] == Event::Close,
        own[own.len() - 1] == Event::Leave,
        balanced(own.subrange(2, own.len() - 2)),
        0 <= q < own.len(),
        own[q] is Declare,
    ensures
        height(all, p + q) > 0,
        nesting(all, p + q) > 0,
{
    let n = own.len() as int;
    let body = own.subrange(2, n - 2);
    assert(2 <= q < n - 2);
    lemma_same_heights(all, p, own, q);
    lemma_height_behind(own, 2, q - 2);
    let tail = own.skip(2);
    lemma_same_prefix(tail, body, q - 2);
    assert(height(own, 0) == 0 && nesting(own, 0) == 0);
    assert(height(own, 1) == 0 && nesting(own, 1) == 1);
    assert(height(own, 2) == 1 && nesting(own, 2) == 1);
    assert(height(body, q - 2) >= 0 && nesting(body, q - 2) >= 0);
    assert(height(all, p) >= 0 && nesting(all, p) >= 0);
}

/// Events that stand in others go as high from there as by themselves.
proof fn lemma_same_heights(all: Seq<Event>, p: int, own: Seq<Event>, q: int)
    requires
        0 <= p <= all.len() - own.len(),
        all.subrange(p, p + own.len()) == own,
        0 <= q <= own.len(),
    ensures
        height(all, p + q) == height(all, p) + height(own, q),
        nesting(all, p + q) == nesting(all, p) + nesting(own, q),
    decreases q,
{
    if q > 0 {
        lemma_same_heights(all, p, own, q - 1);
        assert(all[p + q - 1] == all.subrange(p, p + own.len())[q - 1]);
    }
}

/// Events with the same start go equally high there.
proof fn lemma_same_prefix(a: Seq<Event>, b: Seq<Event>, k: int)
    requires
        0 <= k <= b.len() <= a.len(),
        b == a.take(b.len() as int) || forall|j: int| 0 <= j < b.len() ==> a[j] == #[trigger] b[j],
    ensures
        height(a, k) == height(b, k),
        nesting(a, k) == nesting(b, k),
    decreases k,
{
    if k > 0 {
        lemma_same_prefix(a, b, k - 1);
        assert(a[k - 1] == b[k - 1]);
    }
}

} // verus!
