use vstd::prelude::*;
use vstd::utf8::*;

use crate::analysis::opened;
use crate::arguments::{
    argument_at, argument_start, assignment_around, call_around, first_containing, has_equals,
    last_other, last_separator, name_byte, name_context, name_prefix, positional_before, used_names,
};
use crate::completion::{completed, completion_node, path_above, CompletionView};
use crate::environment::EnvView;
use crate::kinds::{Field, NodeKind};
use crate::position::Position;
use crate::resolve::SettingsView;
use crate::scope_laws::{lemma_lies_in, lies_in};
use crate::store::StoreView;
use crate::syntax::{children_below, nearest_enclosing, parent_of, RawNodeView, Tree};

verus! {

broadcast use {
    vstd::utf8::encode_utf8_valid_utf8,
    vstd::utf8::encode_utf8_decode_utf8,
    vstd::utf8::decode_utf8_encode_utf8,
};

/// Whether one position comes before another.
pub open spec fn earlier(a: Position, b: Position) -> bool {
    a.line < b.line || (a.line == b.line && a.character < b.character)
}

/// Whether a node is the first of its parent's children that ends behind a position.
pub open spec fn first_behind(tree: Tree, point: Position, node: int) -> bool {
    &&& earlier(point, tree.nodes[node].end)
    &&& tree.parent(node) matches Some(parent) ==> forall|k: int|
        0 <= k < tree.nodes[node].slot ==> !earlier(
            point,
            tree.nodes[#[trigger] tree.children(parent)[k]].end,
        )
}

/// The first child that ends behind a position is found.
pub(crate) proof fn lemma_first_behind(tree: Tree, node: int, point: Position, k: int)
    requires
        0 <= k,
    ensures
        match tree.child_ending_after(node, point, k) {
            Some(c) => exists|j: int|
                k <= j < tree.children(node).len() && c == #[trigger] tree.children(node)[j]
                    && earlier(point, tree.nodes[c].end) && forall|i: int|
                    k <= i < j ==> !earlier(
                        point,
                        tree.nodes[#[trigger] tree.children(node)[i]].end,
                    ),
            None => forall|i: int|
                k <= i < tree.children(node).len() ==> !earlier(
                    point,
                    tree.nodes[#[trigger] tree.children(node)[i]].end,
                ),
        },
    decreases tree.children(node).len() - k,
{
    if k < tree.children(node).len() {
        let c = tree.children(node)[k];
        if !point.before(tree.nodes[c].end) {
            lemma_first_behind(tree, node, point, k + 1);
        }
    }
}

/// The node that is reached from another at a position lies in it; each node on the way is the
/// first of its siblings that ends behind the position, and no child of it ends behind it.
proof fn lemma_descend(tree: Tree, from: int, point: Position)
    requires
        tree.wf(),
        tree.has(from),
    ensures
        ({
            let node = tree.descend(from, point);
            &&& tree.has(node)
            &&& from <= node
            &&& lies_in(tree, node, from)
            &&& forall|c: int| #[trigger]
                lies_in(tree, node, c) && c > from ==> first_behind(tree, point, c)
            &&& forall|k: int|
                0 <= k < tree.children(node).len() ==> !earlier(
                    point,
                    tree.nodes[#[trigger] tree.children(node)[k]].end,
                )
        }),
    decreases tree.len() - from,
{
    lemma_first_behind(tree, from, point, 0);
    assert(tree.node_wf(from));
    let node = tree.descend(from, point);
    match tree.child_ending_after(from, point, 0) {
        Some(c) => {
            let j = choose|j: int|
                0 <= j < tree.children(from).len() && c == #[trigger] tree.children(from)[j]
                    && earlier(point, tree.nodes[c].end) && forall|i: int|
                    0 <= i < j ==> !earlier(
                        point,
                        tree.nodes[#[trigger] tree.children(from)[i]].end,
                    );
            lemma_descend(tree, c, point);
            lemma_lies_up(tree, node, c);
            assert forall|d: int| #[trigger]
                lies_in(tree, node, d) && d > from implies first_behind(tree, point, d) by {
                if d <= c {
                    lemma_chain(tree, node, c, d);
                    assert(d == c);
                }
            }
        },
        None => {
            assert forall|d: int| #[trigger] lies_in(tree, node, d) && d > from implies first_behind(
                tree,
                point,
                d,
            ) by {
                lemma_lies_in(tree, node, d);
            }
        },
    }
}

/// What lies in a node lies in its parent.
proof fn lemma_lies_up(tree: Tree, node: int, outer: int)
    requires
        tree.wf(),
        tree.has(node),
        lies_in(tree, node, outer),
        tree.parent(outer) is Some,
    ensures
        lies_in(tree, node, tree.parent(outer)->0),
    decreases node,
{
    assert(tree.node_wf(node));
    if node == outer {
        let parent = tree.parent(outer)->0;
        assert(lies_in(tree, parent, parent));
    } else {
        lemma_lies_up(tree, tree.parent(node)->0, outer);
    }
}

/// Of two nodes that a node lies in, the earlier is the later or the later lies in it.
proof fn lemma_chain(tree: Tree, node: int, inner: int, outer: int)
    requires
        tree.wf(),
        tree.has(node),
        lies_in(tree, node, inner),
        lies_in(tree, node, outer),
        outer <= inner,
    ensures
        lies_in(tree, inner, outer),
        tree.parent(inner) matches Some(parent) ==> outer == inner || outer <= parent,
    decreases node,
{
    assert(tree.node_wf(node));
    if node == inner {
        if outer != inner {
            lemma_lies_in(tree, tree.parent(node)->0, outer);
        }
    } else {
        lemma_lies_in(tree, node, inner);
        if node == outer {
        } else {
            lemma_chain(tree, tree.parent(node)->0, inner, outer);
        }
    }
}

/// The node at a position: it and each node around it, but for the root, is the first of its
/// siblings that ends behind the position, and none of its own children does.
pub proof fn law_the_node_at_a_position(tree: Tree, point: Position)
    requires
        tree.wf(),
    ensures
        ({
            let node = tree.node_at(point);
            &&& tree.has(node)
            &&& forall|c: int| #[trigger]
                lies_in(tree, node, c) && c > 0 ==> first_behind(tree, point, c)
            &&& forall|k: int|
                0 <= k < tree.children(node).len() ==> !earlier(
                    point,
                    tree.nodes[#[trigger] tree.children(node)[k]].end,
                )
        }),
{
    lemma_descend(tree, 0, point);
}

/// Whether a node is the list of the arguments of a call.
pub open spec fn is_argument_list(tree: Tree, node: int) -> bool {
    &&& tree.kind(node) is Arguments
    &&& tree.parent(node) matches Some(call) && (tree.kind(call) is ModuleCall || tree.kind(
        call,
    ) is FunctionCall)
}

/// Whether a node is a call in whose arguments an offset lies.
pub open spec fn is_call_at(tree: Tree, node: int, offset: int) -> bool {
    &&& tree.kind(node) is ModuleCall || tree.kind(node) is FunctionCall
    &&& tree.child_by_field(node, Field::Arguments) matches Some(list)
        && tree.nodes[list].start_byte <= offset <= tree.nodes[list].end_byte
}

/// The call around a node is the innermost in whose arguments the node lies, or in whose arguments
/// the offset does: one is found where there is one, and there is none inside of it.
pub proof fn law_the_innermost_call_counts(tree: Tree, node: int, offset: int)
    requires
        tree.wf(),
        tree.has(node),
    ensures
        forall|b: int| #[trigger]
            lies_in(tree, node, b) && (is_argument_list(tree, b) || is_call_at(tree, b, offset))
                ==> (call_around(tree, node, offset) matches Some(found) && b <= found.arguments),
        call_around(tree, node, offset) matches Some(found) ==> {
            &&& tree.has(found.call)
            &&& tree.has(found.arguments)
            &&& tree.parent(found.arguments) == Some(found.call)
            &&& lies_in(tree, node, found.call)
            &&& (is_argument_list(tree, found.arguments) && lies_in(tree, node, found.arguments))
                || (is_call_at(tree, found.call, offset) && tree.child_by_field(
                found.call,
                Field::Arguments,
            ) == Some(found.arguments))
        },
    decreases node,
{
    assert(tree.node_wf(node));
    tree.lemma_field(node, Field::Arguments);
    assert(lies_in(tree, node, node));
    if is_argument_list(tree, node) {
        assert(lies_in(tree, tree.parent(node)->0, tree.parent(node)->0));
        assert forall|b: int| #[trigger] lies_in(tree, node, b) implies b <= node by {
            lemma_lies_in(tree, node, b);
        }
    } else if is_call_at(tree, node, offset) {
        assert forall|b: int| #[trigger] lies_in(tree, node, b) implies b <= node by {
            lemma_lies_in(tree, node, b);
        }
    } else if let Some(parent) = tree.parent(node) {
        law_the_innermost_call_counts(tree, parent, offset);
        assert(call_around(tree, node, offset) == call_around(tree, parent, offset));
        assert forall|b: int| #[trigger]
            lies_in(tree, node, b) && (is_argument_list(tree, b) || is_call_at(
                tree,
                b,
                offset,
            )) implies (call_around(tree, node, offset) matches Some(found) && b
            <= found.arguments) by {
            assert(b != node);
            assert(lies_in(tree, parent, b));
        }
    }
}

/// The argument with a name that a node is part of is the one that it lies in.
proof fn lemma_assignment_around(tree: Tree, node: int, arguments: int)
    requires
        tree.wf(),
        tree.has(node),
        tree.has(arguments),
        lies_in(tree, node, arguments),
    ensures
        forall|a: int|
            tree.has(a) && tree.parent(a) == Some(arguments) && (#[trigger] tree.kind(a)) is Assignment
                && lies_in(tree, node, a) ==> assignment_around(tree, node, arguments) == Some(a),
        assignment_around(tree, node, arguments) matches Some(a) ==> tree.has(a) && tree.parent(a)
            == Some(arguments) && tree.kind(a) is Assignment && lies_in(tree, node, a),
    decreases node,
{
    assert(tree.node_wf(node));
    lemma_lies_in(tree, node, arguments);
    if node == arguments {
        assert forall|a: int|
            tree.has(a) && tree.parent(a) == Some(arguments) && (#[trigger] tree.kind(a)) is Assignment
                && lies_in(tree, node, a) implies assignment_around(tree, node, arguments) == Some(
            a,
        ) by {
            assert(tree.node_wf(a));
            lemma_lies_in(tree, node, a);
        }
    } else {
        let parent = tree.parent(node)->0;
        lemma_assignment_around(tree, parent, arguments);
        assert forall|a: int|
            tree.has(a) && tree.parent(a) == Some(arguments) && (#[trigger] tree.kind(a)) is Assignment
                && lies_in(tree, node, a) implies assignment_around(tree, node, arguments) == Some(
            a,
        ) by {
            if tree.kind(node) is Assignment && tree.parent(node) == Some(arguments) {
                if a != node {
                    assert(lies_in(tree, parent, a));
                    lemma_lies_in(tree, parent, a);
                    assert(tree.node_wf(a));
                }
            } else {
                assert(a != node);
                assert(lies_in(tree, parent, a));
            }
        }
    }
}

/// Whether one of a list of arguments has a name, in a text, and is not the one that is typed.
pub open spec fn name_taken(
    code: Seq<char>,
    tree: Tree,
    list: Seq<int>,
    current: Option<int>,
    name: Seq<char>,
) -> bool {
    exists|k: int| #[trigger] named_so(code, tree, list, current, k, name)
}

/// Whether the argument at a place has a name, in a text, and is not the one that is typed.
pub open spec fn named_so(
    code: Seq<char>,
    tree: Tree,
    list: Seq<int>,
    current: Option<int>,
    k: int,
    name: Seq<char>,
) -> bool {
    &&& 0 <= k < list.len()
    &&& tree.kind(list[k]) is Assignment
    &&& current != Some(list[k])
    &&& tree.child_by_field(list[k], Field::Name) matches Some(n) && tree.node_text(code, n)
        == name
}

/// The names that are taken are those of the other arguments.
proof fn lemma_used_names(
    code: Seq<char>,
    tree: Tree,
    list: Seq<int>,
    current: Option<int>,
    k: int,
    name: Seq<char>,
)
    requires
        0 <= k <= list.len(),
    ensures
        used_names(code, tree, list, current, k).contains(name) == (exists|j: int|
            j < k && #[trigger] named_so(code, tree, list, current, j, name)),
    decreases k,
{
    if k > 0 {
        lemma_used_names(code, tree, list, current, k - 1, name);
        let before = used_names(code, tree, list, current, k - 1);
        let now = used_names(code, tree, list, current, k);
        if now.contains(name) {
            let i = choose|i: int| 0 <= i < now.len() && now[i] == name;
            if i < before.len() {
                assert(before[i] == name);
                assert(before.contains(name));
            } else {
                assert(named_so(code, tree, list, current, k - 1, name));
            }
        }
        if exists|j: int| j < k && #[trigger] named_so(code, tree, list, current, j, name) {
            let j = choose|j: int| j < k && #[trigger] named_so(code, tree, list, current, j, name);
            if j < k - 1 {
                let i = choose|i: int| 0 <= i < before.len() && before[i] == name;
                assert(now[i] == name);
            } else {
                assert(now[now.len() - 1] == name);
            }
        }
    }
}

/// The arguments without a name that end at or before an offset, other than the one that is typed.
pub open spec fn taken_by_place(
    tree: Tree,
    list: Seq<int>,
    current: Option<int>,
    offset: int,
) -> Seq<int> {
    list.filter(
        |a: int|
            current != Some(a) && !(tree.kind(a) is Assignment) && tree.nodes[a].end_byte <= offset,
    )
}

/// As many arguments are taken by place as there are.
proof fn lemma_positional(
    tree: Tree,
    list: Seq<int>,
    current: Option<int>,
    offset: int,
    k: int,
)
    requires
        0 <= k <= list.len(),
    ensures
        positional_before(tree, list, current, offset, k) == taken_by_place(
            tree,
            list.take(k),
            current,
            offset,
        ).len(),
    decreases k,
{
    reveal(Seq::filter);
    if k > 0 {
        lemma_positional(tree, list, current, offset, k - 1);
        assert(list.take(k).drop_last() =~= list.take(k - 1));
        assert(list.take(k).last() == list[k - 1]);
    }
}

/// Where the name of an argument is being typed, it is one of the innermost call. The names that
/// are taken are exactly those of its other arguments, and as many parameters are taken by place
/// as arguments without a name end before the one that is typed.
pub proof fn law_what_is_taken_in_a_call(
    code: Seq<char>,
    tree: Tree,
    node: int,
    offset: int,
)
    requires
        tree.wf(),
        tree.has(node),
        name_context(code, tree, node, offset) is Some,
    ensures
        ({
            let context = name_context(code, tree, node, offset)->0;
            call_around(tree, node, offset) matches Some(found) && {
                let list = tree.named_children(found.arguments);
                let current = assignment_around(tree, node, found.arguments);
                let start = match argument_at(tree, found.arguments, offset) {
                    Some(argument) => tree.nodes[argument].start_byte,
                    None => offset,
                };
                &&& context.call == found.call
                &&& forall|name: Seq<char>| #[trigger]
                    context.used.contains(name) == name_taken(code, tree, list, current, name)
                &&& context.positional == taken_by_place(tree, list, current, start).len()
                &&& lies_in(tree, node, found.arguments) ==> forall|a: int|
                    tree.has(a) && tree.parent(a) == Some(found.arguments) && (
                    #[trigger] tree.kind(a)) is Assignment ==> (current == Some(a)) == lies_in(
                        tree,
                        node,
                        a,
                    )
            }
        }),
{
    let context = name_context(code, tree, node, offset)->0;
    let found = call_around(tree, node, offset)->0;
    let list = tree.named_children(found.arguments);
    let current = assignment_around(tree, node, found.arguments);
    law_the_innermost_call_counts(tree, node, offset);
    assert forall|name: Seq<char>| #[trigger] context.used.contains(name) == name_taken(
        code,
        tree,
        list,
        current,
        name,
    ) by {
        lemma_used_names(code, tree, list, current, list.len() as int, name);
        if name_taken(code, tree, list, current, name) {
            let k = choose|k: int| #[trigger] named_so(code, tree, list, current, k, name);
            assert(k < list.len());
        }
    }
    lemma_positional(
        tree,
        list,
        current,
        argument_start(tree, found.arguments, offset),
        list.len() as int,
    );
    assert(list.take(list.len() as int) =~= list);
    if lies_in(tree, node, found.arguments) {
        lemma_assignment_around(tree, node, found.arguments);
    }
}

/// The argument at an offset is the first in which it lies.
proof fn lemma_first_containing(tree: Tree, list: Seq<int>, offset: int, k: int)
    requires
        0 <= k,
    ensures
        match first_containing(tree, list, offset, k) {
            Some(a) => list.contains(a) && tree.nodes[a].start_byte <= offset
                <= tree.nodes[a].end_byte,
            None => forall|i: int|
                k <= i < list.len() ==> !(tree.nodes[#[trigger] list[i]].start_byte <= offset
                    <= tree.nodes[list[i]].end_byte),
        },
    decreases list.len() - k,
{
    if k < list.len() && !tree.contains_byte(list[k], offset) {
        lemma_first_containing(tree, list, offset, k + 1);
    } else if k < list.len() {
        assert(list.contains(list[k]));
    }
}

/// The name of an argument is being typed in the arguments of a call as long as no equals sign
/// stands between their start and the offset, and what stands at the offset, if anything, is a
/// plain name or starts there.
pub proof fn law_names_can_be_typed_in_a_call(
    code: Seq<char>,
    tree: Tree,
    node: int,
    offset: int,
)
    requires
        tree.wf(),
        tree.has(node),
        call_around(tree, node, offset) is Some,
        ({
            let list = call_around(tree, node, offset)->0.arguments;
            let bytes = encode_utf8(code);
            &&& lies_in(tree, node, list)
            &&& forall|a: int|
                tree.has(a) && tree.parent(a) == Some(list) && (#[trigger] tree.kind(a)) is Assignment
                    ==> !lies_in(tree, node, a)
            &&& 0 <= tree.nodes[list].start_byte <= offset <= bytes.len()
            &&& !bytes.subrange(tree.nodes[list].start_byte, offset).contains(61u8)
            &&& forall|k: int|
                0 <= k < tree.named_children(list).len() ==> {
                    let a = #[trigger] tree.named_children(list)[k];
                    tree.nodes[a].start_byte <= offset <= tree.nodes[a].end_byte ==> tree.kind(
                        a,
                    ) is Identifier || tree.nodes[a].start_byte == offset
                }
        }),
    ensures
        name_context(code, tree, node, offset) is Some,
{
    let list = call_around(tree, node, offset)->0.arguments;
    let bytes = encode_utf8(code);
    law_the_innermost_call_counts(tree, node, offset);
    lemma_assignment_around(tree, node, list);
    assert(assignment_around(tree, node, list) is None) by {
        if let Some(a) = assignment_around(tree, node, list) {
            assert(tree.kind(a) is Assignment);
        }
    }
    let from = tree.nodes[list].start_byte;
    let start = match last_separator(bytes, offset) {
        Some(place) => if place + 1 > from {
            place + 1
        } else {
            from
        },
        None => from,
    };
    lemma_last_separator(bytes, offset);
    assert(!has_equals(code, start, offset)) by {
        let part = bytes.subrange(start, offset);
        if start <= offset && part.contains(61u8) {
            let k = choose|k: int| 0 <= k < part.len() && part[k] == 61u8;
            let whole = bytes.subrange(from, offset);
            assert(whole[start - from + k] == 61u8);
            assert(whole.contains(61u8));
        }
    }
    lemma_first_containing(tree, tree.named_children(list), offset, 0);
    if let Some(a) = argument_at(tree, list, offset) {
        let k = choose|k: int|
            0 <= k < tree.named_children(list).len() && tree.named_children(list)[k] == a;
        assert(tree.named_children(list)[k] == a);
    }
}

/// The last separator before a place is before it.
proof fn lemma_last_separator(bytes: Seq<u8>, n: int)
    ensures
        last_separator(bytes, n) matches Some(place) ==> 0 <= place < n,
    decreases n,
{
    if n > 0 && n <= bytes.len() {
        lemma_last_separator(bytes, n - 1);
    }
}

/// The nearest byte that cannot be part of a name is found.
proof fn lemma_last_other(bytes: Seq<u8>, from: int, n: int)
    requires
        0 < from <= n <= bytes.len(),
        bytes[from - 1] < 0x80,
        !name_byte(bytes[from - 1]),
        forall|k: int| from <= k < n ==> name_byte(#[trigger] bytes[k]),
    ensures
        last_other(bytes, n) == Some(from - 1),
    decreases n,
{
    if n > from {
        lemma_last_other(bytes, from, n - 1);
    }
}

/// What was typed of a name is what stands between the nearest character in front of the offset
/// that cannot be part of a name, and the offset; where the offset lies in an argument that is a
/// plain name, it is the part of the name in front of the offset.
pub proof fn law_what_was_typed_of_a_name(
    code: Seq<char>,
    tree: Tree,
    node: int,
    arguments: int,
    offset: int,
    from: int,
)
    requires
        ({
            let bytes = encode_utf8(code);
            &&& 0 <= from <= offset <= bytes.len()
            &&& is_char_boundary(bytes, from)
            &&& is_char_boundary(bytes, offset)
            &&& match argument_at(tree, arguments, offset) {
                Some(a) => tree.kind(a) is Identifier && from == tree.nodes[a].start_byte,
                None => {
                    &&& tree.nodes[arguments].start_byte < from
                    &&& bytes[from - 1] < 0x80
                    &&& !name_byte(bytes[from - 1])
                    &&& forall|k: int| from <= k < offset ==> name_byte(#[trigger] bytes[k])
                },
            }
        }),
        argument_at(tree, arguments, offset) is None ==> 0 <= tree.nodes[arguments].start_byte,
    ensures
        encode_utf8(name_prefix(code, tree, node, arguments, offset)) == encode_utf8(
            code,
        ).subrange(from, offset),
{
    let bytes = encode_utf8(code);
    lemma_first_containing(tree, tree.named_children(arguments), offset, 0);
    if argument_at(tree, arguments, offset) is None {
        lemma_last_other(bytes, from, offset);
    }
    lemma_valid_slice(bytes, from, offset);
}

/// A part of a text between two boundaries is a text.
proof fn lemma_valid_slice(bytes: Seq<u8>, from: int, to: int)
    requires
        valid_utf8(bytes),
        0 <= from <= to <= bytes.len(),
        is_char_boundary(bytes, from),
        is_char_boundary(bytes, to),
    ensures
        valid_utf8(bytes.subrange(from, to)),
{
    let tail = bytes.subrange(from, bytes.len() as int);
    valid_utf8_split(bytes, from);
    is_char_boundary_start_end_of_seq(tail);
    if to < bytes.len() {
        is_char_boundary_iff_not_is_continuation_byte(bytes, to);
        is_char_boundary_iff_not_is_continuation_byte(tail, to - from);
        assert(tail[to - from] == bytes[to]);
    }
    valid_utf8_split(tail, to - from);
    assert(tail.subrange(0, to - from) =~= bytes.subrange(from, to));
}

/// Whether a node brings a file in.
pub open spec fn is_dependency(tree: Tree, node: int) -> bool {
    tree.kind(node) == NodeKind::IncludeStatement || tree.kind(node) == NodeKind::UseStatement
}

/// Below a statement that brings a file in, with no other in between, its path is found.
proof fn lemma_path_above(tree: Tree, node: int, statement: int)
    requires
        tree.wf(),
        tree.has(node),
        lies_in(tree, node, statement),
        node != statement,
        is_dependency(tree, statement),
        forall|b: int| #[trigger]
            lies_in(tree, node, b) && statement < b < node ==> !is_dependency(tree, b),
    ensures
        path_above(tree, node) == tree.child(statement, 1),
    decreases node,
{
    assert(tree.node_wf(node));
    let parent = tree.parent(node)->0;
    assert(lies_in(tree, parent, statement));
    lemma_lies_in(tree, parent, statement);
    if parent != statement {
        assert(lies_in(tree, parent, parent));
        assert(lies_in(tree, node, parent));
        assert forall|b: int| #[trigger]
            lies_in(tree, parent, b) && statement < b < parent implies !is_dependency(tree, b) by {
            assert(lies_in(tree, node, b));
        }
        lemma_path_above(tree, parent, statement);
    }
}

/// Outside of statements that bring files in no path is found.
proof fn lemma_no_path_above(tree: Tree, node: int)
    requires
        tree.wf(),
        tree.has(node),
        forall|b: int| #[trigger] lies_in(tree, node, b) && b != node ==> !is_dependency(tree, b),
    ensures
        path_above(tree, node) is None,
    decreases node,
{
    assert(tree.node_wf(node));
    if let Some(parent) = tree.parent(node) {
        assert(lies_in(tree, parent, parent));
        assert(lies_in(tree, node, parent));
        assert forall|b: int| #[trigger] lies_in(tree, parent, b) && b != parent implies
            !is_dependency(tree, b) by {
            assert(lies_in(tree, node, b));
            lemma_lies_in(tree, parent, b);
        }
        lemma_no_path_above(tree, parent);
    }
}

/// Files are offered where a path is being typed, which is in the path of an `include` or `use` or
/// elsewhere in one: those that go on from the path of that statement. Elsewhere names are
/// offered.
pub proof fn law_files_are_offered_in_paths(
    settings: SettingsView,
    env: EnvView,
    store: StoreView,
    url: Seq<char>,
    position: Position,
    include_defaults: bool,
    statement: int,
)
    requires
        opened(store, url, env) is Some,
        opened(store, url, env)->0.tree.wf(),
        opened(store, url, env)->0.tree.has(
            completion_node(opened(store, url, env)->0.tree, position),
        ),
    ensures
        ({
            let doc = opened(store, url, env)->0;
            let tree = doc.tree;
            let node = completion_node(tree, position);
            let answer = completed(settings, env, store, url, position, include_defaults).1;
            let innermost = lies_in(tree, node, statement) && node != statement && is_dependency(
                tree,
                statement,
            ) && forall|b: int| #[trigger]
                lies_in(tree, node, b) && statement < b < node ==> !is_dependency(tree, b);
            let outside = forall|b: int| #[trigger]
                lies_in(tree, node, b) && b != node ==> !is_dependency(tree, b);
            &&& tree.kind(node) is IncludePath ==> answer == Some(
                CompletionView::Files { include_path: tree.node_text(doc.code, node) },
            )
            &&& !(tree.kind(node) is IncludePath) && innermost && tree.child(statement, 1) is Some
                ==> answer == Some(
                CompletionView::Files {
                    include_path: tree.node_text(doc.code, tree.child(statement, 1)->0),
                },
            )
            &&& !(tree.kind(node) is IncludePath) && outside ==> answer matches Some(
                CompletionView::Items(_),
            )
        }),
{
    let tree = opened(store, url, env)->0.tree;
    let node = completion_node(tree, position);
    if lies_in(tree, node, statement) && node != statement && is_dependency(tree, statement)
        && forall|b: int| #[trigger]
        lies_in(tree, node, b) && statement < b < node ==> !is_dependency(tree, b) {
        lemma_path_above(tree, node, statement);
    }
    if forall|b: int| #[trigger] lies_in(tree, node, b) && b != node ==> !is_dependency(tree, b) {
        lemma_no_path_above(tree, node);
    }
}

/// A completion is about the node at the position; where that is the whole document, about the
/// node one column before.
pub proof fn law_completions_are_about_the_node_at_hand(tree: Tree, position: Position)
    ensures
        !(tree.kind(tree.node_at(position)) is SourceFile) ==> completion_node(tree, position)
            == tree.node_at(position),
        tree.kind(tree.node_at(position)) is SourceFile && position.character > 0
            ==> completion_node(tree, position) == tree.node_at(
            Position { line: position.line, character: (position.character - 1) as u32 },
        ),
{
}

/// The child that has a role in a node is the first of its children that has it, if there is one.
pub proof fn law_roles_are_found(tree: Tree, node: int, field: Field)
    ensures
        match tree.child_by_field(node, field) {
            Some(child) => exists|k: int|
                0 <= k < tree.children(node).len() && child == #[trigger] tree.children(node)[k]
                    && tree.nodes[child].field == Some(field) && forall|j: int|
                    0 <= j < k ==> tree.nodes[#[trigger] tree.children(node)[j]].field != Some(
                        field,
                    ),
            None => forall|k: int|
                0 <= k < tree.children(node).len() ==> tree.nodes[#[trigger] tree.children(
                    node,
                )[k]].field != Some(field),
        },
{
    lemma_role_from(tree, node, field, 0);
}

/// The first child from a place on that has a role is found.
proof fn lemma_role_from(tree: Tree, node: int, field: Field, k: int)
    requires
        0 <= k,
    ensures
        match tree.field_from(node, field, k) {
            Some(child) => exists|i: int|
                k <= i < tree.children(node).len() && child == #[trigger] tree.children(node)[i]
                    && tree.nodes[child].field == Some(field) && forall|j: int|
                    k <= j < i ==> tree.nodes[#[trigger] tree.children(node)[j]].field != Some(
                        field,
                    ),
            None => forall|i: int|
                k <= i < tree.children(node).len() ==> tree.nodes[#[trigger] tree.children(
                    node,
                )[i]].field != Some(field),
        },
    decreases tree.children(node).len() - k,
{
    if k < tree.children(node).len() {
        let child = tree.children(node)[k];
        if tree.nodes[child].field != Some(field) {
            lemma_role_from(tree, node, field, k + 1);
        }
    }
}

/// The parent of a node is the nearest node before it whose subtree reaches it, or the root; so
/// none in between does.
pub proof fn law_the_parent_is_the_nearest_around(raw: Seq<RawNodeView>, node: int)
    requires
        0 < node < raw.len(),
    ensures
        Tree::of(raw).parent(node) matches Some(parent) && {
            &&& 0 <= parent < node
            &&& parent == 0 || raw[parent].descendant_count > node - parent
            &&& forall|j: int|
                parent < j < node ==> (#[trigger] raw[j]).descendant_count <= node - j
        },
{
    lemma_nearest(raw, node, node - 1);
}

/// The nearest node around is found.
proof fn lemma_nearest(raw: Seq<RawNodeView>, node: int, j: int)
    requires
        0 <= j < node,
    ensures
        ({
            let found = nearest_enclosing(raw, node, j);
            &&& 0 <= found <= j
            &&& found == 0 || raw[found].descendant_count > node - found
            &&& forall|i: int| found < i <= j ==> (#[trigger] raw[i]).descendant_count <= node - i
        }),
    decreases j,
{
    if j > 0 && raw[j].descendant_count <= node - j {
        lemma_nearest(raw, node, j - 1);
    }
}

/// The children of a node are those that have it for their parent, in order.
pub proof fn law_children_know_their_parent(raw: Seq<RawNodeView>, node: int, child: int)
    requires
        0 <= node < raw.len(),
    ensures
        Tree::of(raw).children(node).contains(child) == (0 < child < raw.len() && Tree::of(
            raw,
        ).parent(child) == Some(node)),
{
    lemma_children(raw, node, raw.len() as int, child);
}

/// The children of a node below a bound are found.
proof fn lemma_children(raw: Seq<RawNodeView>, node: int, bound: int, child: int)
    requires
        0 <= bound,
    ensures
        children_below(raw, node, bound).contains(child) == (0 < child < bound && parent_of(
            raw,
            child,
        ) == Some(node)),
    decreases bound,
{
    if bound > 0 {
        lemma_children(raw, node, bound - 1, child);
        let before = children_below(raw, node, bound - 1);
        let now = children_below(raw, node, bound);
        if now.contains(child) {
            let k = choose|k: int| 0 <= k < now.len() && now[k] == child;
            if k < before.len() {
                assert(before[k] == child);
                assert(before.contains(child));
            }
        }
        if before.contains(child) {
            let k = choose|k: int| 0 <= k < before.len() && before[k] == child;
            assert(now[k] == child);
        }
        if child == bound - 1 && parent_of(raw, child) == Some(node) {
            assert(now[now.len() - 1] == child);
        }
    }
}

/// The text of a node is what stands between its offsets, where these are ones of the text.
pub proof fn law_the_text_of_a_node(code: Seq<char>, tree: Tree, node: int)
    requires
        ({
            let bytes = encode_utf8(code);
            let (from, to) = (tree.nodes[node].start_byte, tree.nodes[node].end_byte);
            &&& 0 <= from <= to <= bytes.len()
            &&& is_char_boundary(bytes, from)
            &&& is_char_boundary(bytes, to)
        }),
    ensures
        encode_utf8(tree.node_text(code, node)) == encode_utf8(code).subrange(
            tree.nodes[node].start_byte,
            tree.nodes[node].end_byte,
        ),
{
    lemma_valid_slice(
        encode_utf8(code),
        tree.nodes[node].start_byte,
        tree.nodes[node].end_byte,
    );
}

} // verus!
