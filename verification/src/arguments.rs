use vstd::prelude::*;
use vstd::string::*;
use vstd::utf8::*;

use crate::cursor::{node_index, node_indices};
use crate::kinds::{Field, NodeKind};
use crate::parse_code::texts;
use crate::syntax::{SyntaxTree, Tree};
use crate::text::{get_slice, slice_text};

verus! {

/// A call and the list of its arguments.
pub struct CallArguments {
    pub call: int,
    pub arguments: int,
}

/// The innermost call around a node in whose arguments an offset lies.
pub open spec fn call_around(tree: Tree, node: int, offset: int) -> Option<CallArguments>
    decreases node,
{
    let parent = tree.parent(node);
    if tree.kind(node) is Arguments && parent is None {
        None
    } else if tree.kind(node) is Arguments && tree.kind(parent->0).call() {
        Some(CallArguments { call: parent->0, arguments: node })
    } else if tree.kind(node).call() && tree.child_by_field(node, Field::Arguments) is Some
        && tree.contains_byte(tree.child_by_field(node, Field::Arguments)->0, offset) {
        Some(
            CallArguments {
                call: node,
                arguments: tree.child_by_field(node, Field::Arguments)->0,
            },
        )
    } else {
        match parent {
            Some(p) => if 0 <= p < node {
                call_around(tree, p, offset)
            } else {
                None
            },
            None => None,
        }
    }
}

/// The first of a list of nodes from place `k` on in which an offset lies.
pub open spec fn first_containing(tree: Tree, nodes: Seq<int>, offset: int, k: int) -> Option<int>
    decreases nodes.len() - k,
{
    if k < 0 || k >= nodes.len() {
        None
    } else if tree.contains_byte(nodes[k], offset) {
        Some(nodes[k])
    } else {
        first_containing(tree, nodes, offset, k + 1)
    }
}

/// The argument at an offset.
pub open spec fn argument_at(tree: Tree, arguments: int, offset: int) -> Option<int> {
    first_containing(tree, tree.named_children(arguments), offset, 0)
}

/// The named argument that a node is part of.
pub open spec fn assignment_around(tree: Tree, node: int, arguments: int) -> Option<int>
    decreases node,
{
    if node == arguments {
        None
    } else if tree.kind(node) is Assignment && tree.parent(node) == Some(arguments) {
        Some(node)
    } else {
        match tree.parent(node) {
            Some(p) => if 0 <= p < node {
                assignment_around(tree, p, arguments)
            } else {
                None
            },
            None => None,
        }
    }
}

/// The lesser of two numbers.
pub open spec fn lesser(a: int, b: int) -> int {
    if a < b {
        a
    } else {
        b
    }
}

/// The greater of two numbers.
pub open spec fn greater(a: int, b: int) -> int {
    if a > b {
        a
    } else {
        b
    }
}

/// Whether the text between two offsets is one and holds an equals sign.
pub open spec fn has_equals(code: Seq<char>, from: int, to: int) -> bool {
    slice_text(code, from, to) is Some && encode_utf8(code).subrange(from, to).contains(61u8)
}

/// The last place before `n` that holds a comma or an opening bracket.
pub open spec fn last_separator(bytes: Seq<u8>, n: int) -> Option<int>
    decreases n,
{
    if n <= 0 || n > bytes.len() {
        None
    } else if bytes[n - 1] == 44 || bytes[n - 1] == 40 {
        Some(n - 1)
    } else {
        last_separator(bytes, n - 1)
    }
}

/// Whether an offset stands where the value of an argument goes: behind the equals sign of a
/// named argument, or behind one in text that does not parse as an argument yet.
pub open spec fn value_expected(
    code: Seq<char>,
    tree: Tree,
    node: int,
    arguments: int,
    offset: int,
) -> bool {
    let bytes = encode_utf8(code);
    match assignment_around(tree, node, arguments) {
        Some(assignment) => {
            let value = tree.child_by_field(assignment, Field::Value);
            if value is Some && offset >= tree.nodes[value->0].start_byte {
                true
            } else {
                match tree.child_by_field(assignment, Field::Name) {
                    None => false,
                    Some(name) => offset > tree.nodes[name].end_byte && has_equals(
                        code,
                        tree.nodes[name].end_byte,
                        lesser(
                            lesser(offset, tree.nodes[assignment].end_byte),
                            bytes.len() as int,
                        ),
                    ),
                }
            }
        },
        None => {
            let end = lesser(offset, bytes.len() as int);
            let start = match last_separator(bytes, end) {
                Some(place) => greater(place + 1, tree.nodes[arguments].start_byte),
                None => tree.nodes[arguments].start_byte,
            };
            has_equals(code, start, end)
        },
    }
}

/// The text between two offsets, or none where that is not a text.
pub open spec fn slice_or_empty(code: Seq<char>, from: int, to: int) -> Seq<char> {
    match slice_text(code, from, to) {
        Some(text) => text,
        None => Seq::empty(),
    }
}

/// Whether a byte can be part of a name: a letter, a digit, an underscore or a dollar sign.
pub open spec fn name_byte(b: u8) -> bool {
    48 <= b <= 57 || 65 <= b <= 90 || 97 <= b <= 122 || b == 95 || b == 36
}

/// The first byte of the character that a byte belongs to.
pub open spec fn character_start(bytes: Seq<u8>, k: int) -> int
    decreases k,
{
    if k > 0 && 0x80 <= bytes[k] < 0xc0 {
        character_start(bytes, k - 1)
    } else {
        k
    }
}

/// The start of the last character before `n` that cannot be part of a name.
pub open spec fn last_other(bytes: Seq<u8>, n: int) -> Option<int>
    decreases n,
{
    if n <= 0 || n > bytes.len() {
        None
    } else if !name_byte(bytes[n - 1]) {
        Some(character_start(bytes, n - 1))
    } else {
        last_other(bytes, n - 1)
    }
}

/// The part of an identifier that stands before an offset.
pub open spec fn typed_part(code: Seq<char>, tree: Tree, node: int, offset: int) -> Seq<char> {
    slice_or_empty(
        code,
        tree.nodes[node].start_byte,
        lesser(lesser(offset, tree.nodes[node].end_byte), encode_utf8(code).len() as int),
    )
}

/// The part before an offset of the identifier that a node is or is part of, below a list of
/// arguments.
pub open spec fn identifier_part(
    code: Seq<char>,
    tree: Tree,
    node: int,
    arguments: int,
    offset: int,
) -> Seq<char>
    decreases node,
{
    if node == arguments {
        Seq::empty()
    } else if tree.kind(node) is Identifier && tree.contains_byte(node, offset) {
        typed_part(code, tree, node, offset)
    } else {
        match tree.parent(node) {
            Some(p) => if 0 <= p < node {
                identifier_part(code, tree, p, arguments, offset)
            } else {
                Seq::empty()
            },
            None => Seq::empty(),
        }
    }
}

/// What was typed of the name of an argument.
pub open spec fn name_prefix(
    code: Seq<char>,
    tree: Tree,
    node: int,
    arguments: int,
    offset: int,
) -> Seq<char> {
    let bytes = encode_utf8(code);
    match argument_at(tree, arguments, offset) {
        None => {
            let end = lesser(offset, bytes.len() as int);
            let start = match last_other(bytes, end) {
                Some(place) => greater(place + 1, tree.nodes[arguments].start_byte),
                None => tree.nodes[arguments].start_byte,
            };
            slice_or_empty(code, start, end)
        },
        Some(argument) => if tree.kind(argument) is Identifier {
            typed_part(code, tree, argument, offset)
        } else {
            identifier_part(code, tree, node, arguments, offset)
        },
    }
}

/// The names of the named arguments among the first `k` of a list, but for one of them.
pub open spec fn used_names(
    code: Seq<char>,
    tree: Tree,
    arguments: Seq<int>,
    current: Option<int>,
    k: int,
) -> Seq<Seq<char>>
    decreases k,
{
    if k <= 0 {
        Seq::empty()
    } else {
        let earlier = used_names(code, tree, arguments, current, k - 1);
        let argument = arguments[k - 1];
        let name = tree.child_by_field(argument, Field::Name);
        if current != Some(argument) && tree.kind(argument) is Assignment && name is Some {
            earlier.push(tree.node_text(code, name->0))
        } else {
            earlier
        }
    }
}

/// The number of arguments without a name among the first `k` of a list that end at or before an
/// offset.
pub open spec fn positional_before(
    tree: Tree,
    arguments: Seq<int>,
    current: Option<int>,
    offset: int,
    k: int,
) -> nat
    decreases k,
{
    if k <= 0 {
        0
    } else {
        let earlier = positional_before(tree, arguments, current, offset, k - 1);
        let argument = arguments[k - 1];
        if current != Some(argument) && !(tree.kind(argument) is Assignment)
            && tree.nodes[argument].end_byte <= offset {
            earlier + 1
        } else {
            earlier
        }
    }
}

/// The start of the argument at an offset, or the offset where there is none.
pub open spec fn argument_start(tree: Tree, arguments: int, offset: int) -> int {
    match argument_at(tree, arguments, offset) {
        Some(argument) => tree.nodes[argument].start_byte,
        None => offset,
    }
}

/// The name of an argument of a call that is being typed.
#[verifier::ext_equal]
pub struct NameContextView {
    pub call: int,
    /// What was typed of the name.
    pub prefix: Seq<char>,
    /// The number of arguments without a name before this one.
    pub positional: nat,
    /// The names of the other arguments.
    pub used: Seq<Seq<char>>,
}

/// The name of an argument that is being typed at an offset, if one is.
pub open spec fn name_context(code: Seq<char>, tree: Tree, node: int, offset: int) -> Option<
    NameContextView,
> {
    match call_around(tree, node, offset) {
        None => None,
        Some(around) => {
            let arguments = around.arguments;
            let direct = argument_at(tree, arguments, offset);
            let current = assignment_around(tree, node, arguments);
            let all = tree.named_children(arguments);
            if value_expected(code, tree, node, arguments, offset) {
                None
            } else if direct is Some && !(tree.kind(direct->0) is Assignment) && !(tree.kind(
                direct->0,
            ) is Identifier) && tree.nodes[direct->0].start_byte < offset {
                None
            } else {
                Some(
                    NameContextView {
                        call: around.call,
                        prefix: name_prefix(code, tree, node, arguments, offset),
                        positional: positional_before(
                            tree,
                            all,
                            current,
                            argument_start(tree, arguments, offset),
                            all.len() as int,
                        ),
                        used: used_names(code, tree, all, current, all.len() as int),
                    },
                )
            }
        },
    }
}

/// The innermost call around a node in whose arguments an offset lies, and the arguments.
fn argument_call_context(tree: &SyntaxTree, start: usize, offset: usize) -> (found: Option<
    (usize, usize),
>)
    requires
        tree@.wf(),
        tree@.has(start as int),
    ensures
        match found {
            Some((call, arguments)) => call_around(tree@, start as int, offset as int) == Some(
                CallArguments { call: call as int, arguments: arguments as int },
            ) && tree@.has(call as int) && tree@.has(arguments as int),
            None => call_around(tree@, start as int, offset as int) is None,
        },
{
    let mut node: usize = start;
    loop
        invariant
            tree@.wf(),
            tree@.has(node as int),
            call_around(tree@, start as int, offset as int) == call_around(
                tree@,
                node as int,
                offset as int,
            ),
        decreases node,
    {
        let parent = tree.parent(node);
        if tree.kind(node) == NodeKind::Arguments {
            match parent {
                Some(call) => if tree.kind(call).is_call() {
                    return Some((call, node));
                },
                None => {
                    return None;
                },
            }
        }
        if tree.kind(node).is_call() {
            match tree.child_by_field(node, Field::Arguments) {
                Some(arguments) => if tree.contains_byte(arguments, offset) {
                    return Some((node, arguments));
                },
                None => {},
            }
        }
        match parent {
            Some(p) => {
                node = p;
            },
            None => {
                return None;
            },
        }
    }
}

/// The argument at an offset.
fn direct_argument_at(tree: &SyntaxTree, arguments: usize, offset: usize) -> (found: Option<usize>)
    requires
        tree@.wf(),
        tree@.has(arguments as int),
    ensures
        node_index(found) == argument_at(tree@, arguments as int, offset as int),
        found is Some ==> tree@.has(found->0 as int),
{
    let children = tree.named_children(arguments);
    let ghost nodes = tree@.named_children(arguments as int);
    assert(nodes.len() == children@.len()) by {
        assert(node_indices(children@).len() == children@.len());
    }
    let mut k: usize = 0;
    while k < children.len()
        invariant
            k <= children@.len(),
            nodes == tree@.named_children(arguments as int),
            nodes.len() == children@.len(),
            forall|j: int|
                0 <= j < children@.len() ==> arguments < #[trigger] children@[j] < tree@.len()
                    && children@[j] == nodes[j],
            argument_at(tree@, arguments as int, offset as int) == first_containing(
                tree@,
                nodes,
                offset as int,
                k as int,
            ),
        decreases children@.len() - k,
    {
        if tree.contains_byte(children[k], offset) {
            return Some(children[k]);
        }
        k += 1;
    }
    None
}

/// The named argument that a node is part of.
fn argument_assignment_ancestor(tree: &SyntaxTree, start: usize, arguments: usize) -> (found: Option<
    usize,
>)
    requires
        tree@.wf(),
        tree@.has(start as int),
    ensures
        node_index(found) == assignment_around(tree@, start as int, arguments as int),
        found is Some ==> tree@.has(found->0 as int),
{
    let mut node: usize = start;
    loop
        invariant
            tree@.wf(),
            tree@.has(node as int),
            assignment_around(tree@, start as int, arguments as int) == assignment_around(
                tree@,
                node as int,
                arguments as int,
            ),
        decreases node,
    {
        if node == arguments {
            return None;
        }
        match tree.parent(node) {
            Some(p) => {
                if tree.kind(node) == NodeKind::Assignment && p == arguments {
                    return Some(node);
                }
                node = p;
            },
            None => {
                return None;
            },
        }
    }
}

/// The lesser of two numbers.
fn min(a: usize, b: usize) -> (r: usize)
    ensures
        r == lesser(a as int, b as int),
{
    if a < b {
        a
    } else {
        b
    }
}

/// The greater of two numbers.
fn max(a: usize, b: usize) -> (r: usize)
    ensures
        r == greater(a as int, b as int),
{
    if a > b {
        a
    } else {
        b
    }
}

/// Whether the text between two offsets is one and holds an equals sign.
fn contains_equals(code: &str, from: usize, to: usize) -> (r: bool)
    ensures
        r == has_equals(code@, from as int, to as int),
{
    if get_slice(code, from, to).is_none() {
        return false;
    }
    let bytes: &[u8] = code.as_bytes();
    let ghost part = bytes@.subrange(from as int, to as int);
    let mut k: usize = from;
    while k < to
        invariant
            from <= k <= to <= bytes@.len(),
            bytes@ == encode_utf8(code@),
            part == bytes@.subrange(from as int, to as int),
            slice_text(code@, from as int, to as int) is Some,
            forall|j: int| 0 <= j < k - from ==> #[trigger] part[j] != 61,
        decreases to - k,
    {
        assert(part[k - from] == bytes@[k as int]);
        if bytes[k] == 61 {
            assert(part.contains(61u8));
            return true;
        }
        k += 1;
    }
    assert(!part.contains(61u8));
    false
}

/// The last place before `n` that holds a comma or an opening bracket.
fn find_last_separator(bytes: &[u8], n: usize) -> (place: Option<usize>)
    requires
        n <= bytes@.len(),
    ensures
        node_index(place) == last_separator(bytes@, n as int),
        place is Some ==> place->0 < n,
{
    let mut k: usize = n;
    while k > 0
        invariant
            k <= n <= bytes@.len(),
            last_separator(bytes@, n as int) == last_separator(bytes@, k as int),
        decreases k,
    {
        if bytes[k - 1] == 44 || bytes[k - 1] == 40 {
            return Some(k - 1);
        }
        k -= 1;
    }
    None
}

/// Whether an offset stands where the value of an argument goes.
fn is_argument_value_context(
    code: &str,
    tree: &SyntaxTree,
    node: usize,
    arguments: usize,
    offset: usize,
) -> (r: bool)
    requires
        tree@.wf(),
        tree@.has(node as int),
        tree@.has(arguments as int),
    ensures
        r == value_expected(code@, tree@, node as int, arguments as int, offset as int),
{
    let bytes: &[u8] = code.as_bytes();
    match argument_assignment_ancestor(tree, node, arguments) {
        Some(assignment) => {
            match tree.child_by_field(assignment, Field::Value) {
                Some(value) => if offset >= tree.node(value).start_byte {
                    return true;
                },
                None => {},
            }
            match tree.child_by_field(assignment, Field::Name) {
                Some(name) => {
                    let from: usize = tree.node(name).end_byte;
                    if offset <= from {
                        return false;
                    }
                    let to: usize = min(min(offset, tree.node(assignment).end_byte), bytes.len());
                    contains_equals(code, from, to)
                },
                None => false,
            }
        },
        None => {
            let end: usize = min(offset, bytes.len());
            let start: usize = match find_last_separator(bytes, end) {
                Some(place) => max(place + 1, tree.node(arguments).start_byte),
                None => tree.node(arguments).start_byte,
            };
            contains_equals(code, start, end)
        },
    }
}

/// The text between two offsets, or none where that is not a text.
fn get_or_empty(code: &str, from: usize, to: usize) -> (text: String)
    ensures
        text@ == slice_or_empty(code@, from as int, to as int),
{
    match get_slice(code, from, to) {
        Some(text) => text.to_owned(),
        None => String::new(),
    }
}

/// The start of the last character before `n` that cannot be part of a name.
fn find_last_other(bytes: &[u8], n: usize) -> (place: Option<usize>)
    requires
        n <= bytes@.len(),
    ensures
        node_index(place) == last_other(bytes@, n as int),
        place is Some ==> place->0 < n,
{
    let mut k: usize = n;
    while k > 0
        invariant
            k <= n <= bytes@.len(),
            last_other(bytes@, n as int) == last_other(bytes@, k as int),
        decreases k,
    {
        let b: u8 = bytes[k - 1];
        let name: bool = (48 <= b && b <= 57) || (65 <= b && b <= 90) || (97 <= b && b <= 122) || b
            == 95 || b == 36;
        if !name {
            let mut place: usize = k - 1;
            while place > 0 && 0x80 <= bytes[place] && bytes[place] < 0xc0
                invariant
                    place < k <= n <= bytes@.len(),
                    character_start(bytes@, k - 1) == character_start(bytes@, place as int),
                decreases place,
            {
                place -= 1;
            }
            return Some(place);
        }
        k -= 1;
    }
    None
}

/// The part of an identifier that stands before an offset.
fn typed_text(code: &str, tree: &SyntaxTree, node: usize, offset: usize) -> (text: String)
    requires
        tree@.has(node as int),
    ensures
        text@ == typed_part(code@, tree@, node as int, offset as int),
{
    let to: usize = min(min(offset, tree.node(node).end_byte), code.as_bytes().len());
    get_or_empty(code, tree.node(node).start_byte, to)
}

/// What was typed of the name of an argument.
fn argument_name_prefix(
    code: &str,
    tree: &SyntaxTree,
    start: usize,
    arguments: usize,
    offset: usize,
) -> (prefix: String)
    requires
        tree@.wf(),
        tree@.has(start as int),
        tree@.has(arguments as int),
    ensures
        prefix@ == name_prefix(code@, tree@, start as int, arguments as int, offset as int),
{
    let argument: usize = match direct_argument_at(tree, arguments, offset) {
        Some(argument) => argument,
        None => {
            let bytes: &[u8] = code.as_bytes();
            let end: usize = min(offset, bytes.len());
            let from: usize = match find_last_other(bytes, end) {
                Some(place) => max(place + 1, tree.node(arguments).start_byte),
                None => tree.node(arguments).start_byte,
            };
            return get_or_empty(code, from, end);
        },
    };
    if tree.kind(argument) == NodeKind::Identifier {
        return typed_text(code, tree, argument, offset);
    }
    let mut node: usize = start;
    loop
        invariant
            tree@.wf(),
            tree@.has(node as int),
            argument_at(tree@, arguments as int, offset as int) == Some(argument as int),
            !(tree@.kind(argument as int) is Identifier),
            identifier_part(code@, tree@, start as int, arguments as int, offset as int)
                == identifier_part(code@, tree@, node as int, arguments as int, offset as int),
        decreases node,
    {
        if node == arguments {
            return String::new();
        }
        if tree.kind(node) == NodeKind::Identifier && tree.contains_byte(node, offset) {
            return typed_text(code, tree, node, offset);
        }
        match tree.parent(node) {
            Some(p) => {
                node = p;
            },
            None => {
                return String::new();
            },
        }
    }
}

/// The name of an argument of a call that is being typed.
pub struct ArgumentNameContext {
    pub call: usize,
    pub prefix: String,
    pub positional_count: usize,
    pub used_named_args: Vec<String>,
}

impl View for ArgumentNameContext {
    type V = NameContextView;

    open spec fn view(&self) -> NameContextView {
        NameContextView {
            call: self.call as int,
            prefix: self.prefix@,
            positional: self.positional_count as nat,
            used: texts(self.used_named_args@),
        }
    }
}

/// The name of an argument that is being typed at an offset, if one is.
pub fn argument_name_completion_context(
    code: &str,
    tree: &SyntaxTree,
    node: usize,
    offset: usize,
) -> (context: Option<ArgumentNameContext>)
    requires
        tree@.wf(),
        tree@.has(node as int),
    ensures
        match context {
            Some(context) => name_context(code@, tree@, node as int, offset as int) == Some(
                context@,
            ) && tree@.has(context.call as int),
            None => name_context(code@, tree@, node as int, offset as int) is None,
        },
{
    let (call, arguments): (usize, usize) = match argument_call_context(tree, node, offset) {
        Some(found) => found,
        None => {
            return None;
        },
    };
    if is_argument_value_context(code, tree, node, arguments, offset) {
        return None;
    }
    let mut start: usize = offset;
    match direct_argument_at(tree, arguments, offset) {
        Some(argument) => {
            if tree.kind(argument) != NodeKind::Assignment && tree.kind(argument)
                != NodeKind::Identifier && tree.node(argument).start_byte < offset {
                return None;
            }
            start = tree.node(argument).start_byte;
        },
        None => {},
    }
    let current = argument_assignment_ancestor(tree, node, arguments);
    let children = tree.named_children(arguments);
    let ghost all = tree@.named_children(arguments as int);
    assert(all.len() == children@.len()) by {
        assert(node_indices(children@).len() == children@.len());
    }
    let mut positional: usize = 0;
    let mut used: Vec<String> = Vec::new();
    assert(texts(used@) =~= Seq::empty());
    let mut k: usize = 0;
    while k < children.len()
        invariant
            k <= children@.len(),
            tree@.wf(),
            tree@.has(arguments as int),
            all.len() == children@.len(),
            forall|j: int|
                0 <= j < children@.len() ==> arguments < #[trigger] children@[j] < tree@.len()
                    && children@[j] == all[j],
            positional <= k,
            positional == positional_before(
                tree@,
                all,
                node_index(current),
                start as int,
                k as int,
            ),
            texts(used@) == used_names(code@, tree@, all, node_index(current), k as int),
        decreases children@.len() - k,
    {
        let argument: usize = children[k];
        assert(all[k as int] == argument);
        let is_current: bool = match current {
            Some(assignment) => assignment == argument,
            None => false,
        };
        if !is_current {
            if tree.kind(argument) == NodeKind::Assignment {
                match tree.child_by_field(argument, Field::Name) {
                    Some(name) => {
                        let ghost before = texts(used@);
                        let text = tree.node_text(code, name);
                        used.push(text);
                        assert(texts(used@) =~= before.push(text@));
                    },
                    None => {},
                }
            } else if tree.node(argument).end_byte <= start {
                positional += 1;
            }
        }
        k += 1;
    }
    Some(
        ArgumentNameContext {
            call,
            prefix: argument_name_prefix(code, tree, node, arguments, offset),
            positional_count: positional,
            used_named_args: used,
        },
    )
}

} // verus!
