use tree_sitter::{Parser, Point};
use tree_sitter_openscad::LANGUAGE;
use tree_sitter_traversal2::{traverse, Order};
use vstd::prelude::*;

use crate::kinds::{Field, NodeKind};
use crate::position::Position;

verus! {

/// What the parser reports of one node: the nodes of a document come in the order in
/// which they start, parents before children.
#[derive(Debug)]
pub struct RawNode {
    pub kind: &'static str,
    /// The role of each child, in the order of the children.
    pub child_fields: Vec<Option<&'static str>>,
    /// The number of nodes in the tree below and including this one.
    pub descendant_count: usize,
    pub named: bool,
    pub missing: bool,
    pub start_byte: usize,
    pub end_byte: usize,
    /// The row and the column of the start.
    pub start: (usize, usize),
    /// The row and the column of the end.
    pub end: (usize, usize),
}

/// The model of a [`RawNode`].
pub struct RawNodeView {
    pub kind: Seq<char>,
    pub child_fields: Seq<Option<Seq<char>>>,
    pub descendant_count: int,
    pub named: bool,
    pub missing: bool,
    pub start_byte: int,
    pub end_byte: int,
    pub start: (usize, usize),
    pub end: (usize, usize),
}

/// The characters of an optional text.
pub open spec fn text_of(text: Option<String>) -> Option<Seq<char>> {
    match text {
        Some(t) => Some(t@),
        None => None,
    }
}

/// The characters of an optional name.
pub open spec fn name_of(name: Option<&'static str>) -> Option<Seq<char>> {
    match name {
        Some(n) => Some(n@),
        None => None,
    }
}

/// The position of a row and a column.
pub open spec fn point_position(point: (usize, usize)) -> Position {
    Position { line: point.0 as u32, character: point.1 as u32 }
}

impl View for RawNode {
    type V = RawNodeView;

    open spec fn view(&self) -> RawNodeView {
        RawNodeView {
            kind: self.kind@,
            child_fields: self.child_fields@.map_values(|f: Option<&'static str>| name_of(f)),
            descendant_count: self.descendant_count as int,
            named: self.named,
            missing: self.missing,
            start_byte: self.start_byte as int,
            end_byte: self.end_byte as int,
            start: self.start,
            end: self.end,
        }
    }
}

/// The models of a list of parser nodes.
pub open spec fn raw_views(nodes: Seq<RawNode>) -> Seq<RawNodeView> {
    nodes.map_values(|n: RawNode| n@)
}

/// The nodes that the OpenSCAD grammar finds in a text.
pub uninterp spec fn parsed_nodes(code: Seq<char>) -> Seq<RawNodeView>;

/// Parses a text with `tree_sitter::Parser::parse` under the OpenSCAD grammar and lists the
/// nodes of the tree with `tree_sitter_traversal2::traverse`, parents first.
///
/// Believed of the parser: what it finds is a function of the text alone, and there is always
/// a root. Nothing is claimed of how the nodes fit together; the tree is built from what they
/// say of themselves.
#[verifier::external_body]
fn parse_nodes(code: &str) -> (nodes: Vec<RawNode>)
    ensures
        raw_views(nodes@) == parsed_nodes(code@),
        nodes@.len() >= 1,
{
    let mut parser = Parser::new();
    parser.set_language(&LANGUAGE.into()).unwrap();
    let tree = parser.parse(code, None).unwrap();
    let point = |p: Point| (p.row, p.column);
    traverse(tree.walk(), Order::Pre).map(|n| RawNode {
        kind: n.kind(),
        child_fields: (0..n.child_count() as u32).map(|i| n.field_name_for_child(i)).collect(),
        descendant_count: n.descendant_count(), named: n.is_named(), missing: n.is_missing(),
        start_byte: n.start_byte(), end_byte: n.end_byte(),
        start: point(n.start_position()), end: point(n.end_position()),
    }).collect()
}

/// A node of a [`SyntaxTree`]. Nodes refer to each other by their place in the tree's list.
#[derive(Debug)]
pub struct SyntaxNode {
    pub kind: NodeKind,
    pub kind_name: String,
    /// The node's role in its parent.
    pub field: Option<Field>,
    pub named: bool,
    pub missing: bool,
    pub start_byte: usize,
    pub end_byte: usize,
    pub start: Position,
    pub end: Position,
    pub parent: Option<usize>,
    /// The node's place among the children of its parent.
    pub slot: usize,
    pub children: Vec<usize>,
}

/// The model of a [`SyntaxNode`].
#[verifier::ext_equal]
pub struct NodeView {
    pub kind: NodeKind,
    pub kind_name: Seq<char>,
    pub field: Option<Field>,
    pub named: bool,
    pub missing: bool,
    pub start_byte: int,
    pub end_byte: int,
    pub start: Position,
    pub end: Position,
    pub parent: Option<int>,
    pub slot: int,
    pub children: Seq<int>,
}

impl View for SyntaxNode {
    type V = NodeView;

    open spec fn view(&self) -> NodeView {
        NodeView {
            kind: self.kind,
            kind_name: self.kind_name@,
            field: self.field,
            named: self.named,
            missing: self.missing,
            start_byte: self.start_byte as int,
            end_byte: self.end_byte as int,
            start: self.start,
            end: self.end,
            parent: match self.parent {
                Some(p) => Some(p as int),
                None => None,
            },
            slot: self.slot as int,
            children: self.children@.map_values(|c: usize| c as int),
        }
    }
}

/// The syntax tree of a document: its nodes in the order in which they start, the root first.
#[derive(Debug)]
pub struct SyntaxTree {
    pub nodes: Vec<SyntaxNode>,
}

/// The model of a [`SyntaxTree`].
#[verifier::ext_equal]
pub struct Tree {
    pub nodes: Seq<NodeView>,
}

impl View for SyntaxTree {
    type V = Tree;

    open spec fn view(&self) -> Tree {
        Tree { nodes: self.nodes@.map_values(|n: SyntaxNode| n@) }
    }
}

/// The last node before `j + 1` whose subtree reaches `i`, or the root.
pub open spec fn nearest_enclosing(raw: Seq<RawNodeView>, i: int, j: int) -> int
    decreases j,
{
    if j <= 0 {
        0
    } else if raw[j].descendant_count > i - j {
        j
    } else {
        nearest_enclosing(raw, i, j - 1)
    }
}

/// The parent of the node at `i`: the nearest node before it whose subtree reaches it.
pub open spec fn parent_of(raw: Seq<RawNodeView>, i: int) -> Option<int> {
    if i <= 0 {
        None
    } else {
        Some(nearest_enclosing(raw, i, i - 1))
    }
}

/// The children of `p` that come before `bound`, in order.
pub open spec fn children_below(raw: Seq<RawNodeView>, p: int, bound: int) -> Seq<int>
    decreases bound,
{
    if bound <= 0 {
        Seq::empty()
    } else {
        let earlier = children_below(raw, p, bound - 1);
        if parent_of(raw, bound - 1) == Some(p) {
            earlier.push(bound - 1)
        } else {
            earlier
        }
    }
}

/// The place of the node at `i` among the children of its parent.
pub open spec fn slot_of(raw: Seq<RawNodeView>, i: int) -> int {
    match parent_of(raw, i) {
        Some(p) => children_below(raw, p, i).len() as int,
        None => 0,
    }
}

/// The role of the node at `i` in its parent.
pub open spec fn field_of(raw: Seq<RawNodeView>, i: int) -> Option<Field> {
    match parent_of(raw, i) {
        Some(p) => {
            let fields = raw[p].child_fields;
            let slot = slot_of(raw, i);
            if slot < fields.len() {
                match fields[slot] {
                    Some(name) => Some(Field::of(name)),
                    None => None,
                }
            } else {
                None
            }
        },
        None => None,
    }
}

/// The node at `i`, with those of its children that come before `bound`.
pub open spec fn node_of(raw: Seq<RawNodeView>, i: int, bound: int) -> NodeView {
    NodeView {
        kind: NodeKind::of(raw[i].kind),
        kind_name: raw[i].kind,
        field: field_of(raw, i),
        named: raw[i].named,
        missing: raw[i].missing,
        start_byte: raw[i].start_byte,
        end_byte: raw[i].end_byte,
        start: point_position(raw[i].start),
        end: point_position(raw[i].end),
        parent: parent_of(raw, i),
        slot: slot_of(raw, i),
        children: children_below(raw, i, bound),
    }
}

impl Tree {
    /// The tree that a list of parser nodes describes.
    pub open spec fn of(raw: Seq<RawNodeView>) -> Tree {
        Tree { nodes: Seq::new(raw.len(), |i: int| node_of(raw, i, raw.len() as int)) }
    }

    /// The tree of a text.
    pub open spec fn parse(code: Seq<char>) -> Tree {
        Tree::of(parsed_nodes(code))
    }

    pub open spec fn len(self) -> int {
        self.nodes.len() as int
    }

    pub open spec fn has(self, i: int) -> bool {
        0 <= i < self.nodes.len()
    }

    pub open spec fn kind(self, i: int) -> NodeKind {
        self.nodes[i].kind
    }

    pub open spec fn parent(self, i: int) -> Option<int> {
        self.nodes[i].parent
    }

    pub open spec fn children(self, i: int) -> Seq<int> {
        self.nodes[i].children
    }

    /// The children of a node that carry a name in the grammar.
    pub open spec fn named_children(self, i: int) -> Seq<int> {
        self.children(i).filter(|c: int| self.nodes[c].named)
    }

    /// The first child of `i` at or behind place `k` that has a role.
    pub open spec fn field_from(self, i: int, field: Field, k: int) -> Option<int>
        decreases self.children(i).len() - k,
    {
        if k < 0 || k >= self.children(i).len() {
            None
        } else if self.nodes[self.children(i)[k]].field == Some(field) {
            Some(self.children(i)[k])
        } else {
            self.field_from(i, field, k + 1)
        }
    }

    /// The first child of `i` that has a role.
    pub open spec fn child_by_field(self, i: int, field: Field) -> Option<int> {
        self.field_from(i, field, 0)
    }

    /// The child of `i` at place `k`.
    pub open spec fn child(self, i: int, k: int) -> Option<int> {
        if 0 <= k < self.children(i).len() {
            Some(self.children(i)[k])
        } else {
            None
        }
    }

    /// The first child of `i` that carries a name in the grammar.
    pub open spec fn first_named_child(self, i: int) -> Option<int> {
        if self.named_children(i).len() > 0 {
            Some(self.named_children(i)[0])
        } else {
            None
        }
    }

    /// The sibling just before `i`.
    pub open spec fn prev_sibling(self, i: int) -> Option<int> {
        match self.nodes[i].parent {
            Some(p) => if self.nodes[i].slot > 0 {
                Some(self.children(p)[self.nodes[i].slot - 1])
            } else {
                None
            },
            None => None,
        }
    }

    /// The links of the node at `i` fit those of its neighbours.
    pub open spec fn node_wf(self, i: int) -> bool {
        &&& self.nodes[i].parent is None <==> i == 0
        &&& self.nodes[i].parent matches Some(p) ==> {
            &&& 0 <= p < i
            &&& 0 <= self.nodes[i].slot < self.children(p).len()
            &&& self.children(p)[self.nodes[i].slot] == i
        }
        &&& forall|k: int| 0 <= k < self.children(i).len() ==> {
            let c = #[trigger] self.children(i)[k];
            i < c < self.nodes.len() && self.nodes[c].parent == Some(i) && self.nodes[c].slot == k
        }
        &&& forall|k: int, l: int|
            0 <= k < l < self.children(i).len() ==> #[trigger] self.children(i)[k]
                < #[trigger] self.children(i)[l]
    }

    /// A tree has a root, and the links between its nodes fit.
    pub open spec fn wf(self) -> bool {
        &&& self.nodes.len() >= 1
        &&& self.nodes.len() <= usize::MAX
        &&& forall|i: int| self.has(i) ==> #[trigger] self.node_wf(i)
    }
}

/// A node comes behind the node that [`nearest_enclosing`] finds for it.
proof fn lemma_nearest_below(raw: Seq<RawNodeView>, i: int, j: int)
    requires
        0 <= j,
    ensures
        0 <= nearest_enclosing(raw, i, j) <= j,
    decreases j,
{
    if j > 0 {
        lemma_nearest_below(raw, i, j - 1);
    }
}

/// The children below a bound are in order, below the bound, and know their parent and place.
proof fn lemma_children_below(raw: Seq<RawNodeView>, p: int, bound: int)
    requires
        0 <= bound,
    ensures
        forall|k: int|
            0 <= k < children_below(raw, p, bound).len() ==> {
                let c = #[trigger] children_below(raw, p, bound)[k];
                0 <= p < c < bound && parent_of(raw, c) == Some(p) && slot_of(raw, c) == k
            },
        forall|k: int, l: int|
            0 <= k < l < children_below(raw, p, bound).len() ==> #[trigger] children_below(
                raw,
                p,
                bound,
            )[k] < #[trigger] children_below(raw, p, bound)[l],
    decreases bound,
{
    if bound > 0 {
        lemma_children_below(raw, p, bound - 1);
        if bound > 1 {
            lemma_nearest_below(raw, bound - 1, bound - 2);
        }
    }
}

/// A child stays in its place as the bound grows.
proof fn lemma_child_present(raw: Seq<RawNodeView>, p: int, c: int, bound: int)
    requires
        0 <= c < bound,
        parent_of(raw, c) == Some(p),
    ensures
        slot_of(raw, c) < children_below(raw, p, bound).len(),
        children_below(raw, p, bound)[slot_of(raw, c)] == c,
    decreases bound,
{
    if bound - 1 != c {
        lemma_child_present(raw, p, c, bound - 1);
    }
}

/// Every non-empty list of parser nodes describes a tree whose links fit.
pub proof fn lemma_tree_wf(raw: Seq<RawNodeView>)
    requires
        1 <= raw.len() <= usize::MAX,
    ensures
        Tree::of(raw).wf(),
{
    let tree = Tree::of(raw);
    assert forall|i: int| tree.has(i) implies #[trigger] tree.node_wf(i) by {
        lemma_children_below(raw, i, raw.len() as int);
        if i > 0 {
            lemma_nearest_below(raw, i, i - 1);
            let p = parent_of(raw, i)->0;
            lemma_child_present(raw, p, i, raw.len() as int);
        }
    }
}

/// The nodes on the path from the root to the node before `i`: whatever is not among them does
/// not reach `i`.
spec fn open_path(raw: Seq<RawNodeView>, open: Seq<usize>, i: int) -> bool {
    &&& i == 0 ==> open.len() == 0
    &&& i > 0 ==> open.len() > 0 && open[0] == 0
    &&& forall|k: int| 0 <= k < open.len() ==> #[trigger] open[k] < i
    &&& forall|k: int, l: int| 0 <= k < l < open.len() ==> open[k] < open[l]
    &&& forall|j: int|
        0 < j < i && !open.contains(j as usize) ==> #[trigger] raw[j].descendant_count <= i - j
}

/// The path stays one when a last node that does not reach `i` is taken off.
proof fn lemma_open_path_pop(raw: Seq<RawNodeView>, open: Seq<usize>, i: int)
    requires
        open_path(raw, open, i),
        open.len() > 1,
        raw[open.last() as int].descendant_count <= i - open.last(),
        i <= usize::MAX,
    ensures
        open_path(raw, open.drop_last(), i),
{
    let shorter = open.drop_last();
    assert forall|j: int| 0 < j < i && !shorter.contains(j as usize) implies
        #[trigger] raw[j].descendant_count <= i - j by {
        if open.contains(j as usize) {
            let k = choose|k: int| 0 <= k < open.len() && open[k] == j as usize;
            if k < open.len() - 1 {
                assert(shorter[k] == j as usize);
            }
        }
    }
}

/// The last node of a path that reaches `i` is the parent of `i`.
proof fn lemma_open_path_parent(raw: Seq<RawNodeView>, open: Seq<usize>, i: int)
    requires
        open_path(raw, open, i),
        0 < i <= usize::MAX,
        open.len() > 1 ==> raw[open.last() as int].descendant_count > i - open.last(),
    ensures
        parent_of(raw, i) == Some(open.last() as int),
{
    let top = open.last() as int;
    assert forall|j: int| top < j <= i - 1 implies #[trigger] raw[j].descendant_count <= i - j by {
        if open.contains(j as usize) {
            let k = choose|k: int| 0 <= k < open.len() && open[k] == j as usize;
            assert(open[k] <= top);
        }
    }
    assert(top <= i - 1);
    lemma_nearest_is(raw, i, i - 1, top);
}

/// The path grows by the node at `i`.
proof fn lemma_open_path_push(raw: Seq<RawNodeView>, open: Seq<usize>, i: usize)
    requires
        open_path(raw, open, i as int),
    ensures
        open_path(raw, open.push(i), i + 1),
{
    let longer = open.push(i);
    assert forall|j: int| 0 < j < i + 1 && !longer.contains(j as usize) implies
        #[trigger] raw[j].descendant_count <= i + 1 - j by {
        if j == i {
            assert(longer[longer.len() - 1] == i);
        } else if open.contains(j as usize) {
            let k = choose|k: int| 0 <= k < open.len() && open[k] == j as usize;
            assert(longer[k] == j as usize);
        }
    }
}

/// Takes the nodes that do not reach `i` off the path and returns the parent of `i`.
fn close_nodes(raw: &Vec<RawNode>, open: &mut Vec<usize>, i: usize) -> (parent: Option<usize>)
    requires
        i < raw@.len(),
        open_path(raw_views(raw@), old(open)@, i as int),
    ensures
        open_path(raw_views(raw@), final(open)@, i as int),
        match parent {
            Some(p) => parent_of(raw_views(raw@), i as int) == Some(p as int) && p < i,
            None => parent_of(raw_views(raw@), i as int) is None,
        },
{
    let ghost views = raw_views(raw@);
    loop
        invariant
            i < raw@.len(),
            views == raw_views(raw@),
            open_path(views, open@, i as int),
        ensures
            open_path(views, open@, i as int),
            open@.len() > 1 ==> views[open@.last() as int].descendant_count > i - open@.last(),
        decreases open@.len(),
    {
        if open.len() <= 1 {
            break;
        }
        let top: usize = open[open.len() - 1];
        assert(views[top as int].descendant_count == raw@[top as int].descendant_count);
        if raw[top].descendant_count > i - top {
            break;
        }
        proof {
            lemma_open_path_pop(views, open@, i as int);
            assert(open@.drop_last() =~= open@.subrange(0, open@.len() - 1));
        }
        open.pop();
    }
    if open.len() == 0 {
        None
    } else {
        proof {
            lemma_open_path_parent(views, open@, i as int);
        }
        Some(open[open.len() - 1])
    }
}

/// The node at `i`, before its children are known.
fn new_node(raw: &RawNode, siblings: &Vec<Option<&'static str>>, parent: Option<usize>, slot: usize) -> (node:
    SyntaxNode)
    ensures
        node@.kind == NodeKind::of(raw@.kind),
        node@.kind_name == raw@.kind,
        node@.field == (if parent is Some && slot < siblings@.len() {
            match siblings@[slot as int] {
                Some(name) => Some(Field::of(name@)),
                None => None,
            }
        } else {
            None
        }),
        node@.named == raw@.named,
        node@.missing == raw@.missing,
        node@.start_byte == raw@.start_byte,
        node@.end_byte == raw@.end_byte,
        node@.start == point_position(raw@.start),
        node@.end == point_position(raw@.end),
        node.parent == parent,
        node@.slot == slot,
        node.children@.len() == 0,
{
    let field: Option<Field> = if parent.is_some() && slot < siblings.len() {
        match &siblings[slot] {
            Some(name) => Some(Field::from_name(name)),
            None => None,
        }
    } else {
        None
    };
    SyntaxNode {
        kind: NodeKind::from_name(raw.kind),
        kind_name: raw.kind.to_owned(),
        field,
        named: raw.named,
        missing: raw.missing,
        start_byte: raw.start_byte,
        end_byte: raw.end_byte,
        start: Position { line: raw.start.0 as u32, character: raw.start.1 as u32 },
        end: Position { line: raw.end.0 as u32, character: raw.end.1 as u32 },
        parent,
        slot,
        children: Vec::new(),
    }
}

impl SyntaxTree {
    /// Builds the tree that a list of parser nodes describes.
    pub fn from_nodes(raw: Vec<RawNode>) -> (tree: SyntaxTree)
        requires
            raw@.len() >= 1,
        ensures
            tree@ == Tree::of(raw_views(raw@)),
            tree@.wf(),
    {
        let ghost views = raw_views(raw@);
        let mut nodes: Vec<SyntaxNode> = Vec::new();
        let mut open: Vec<usize> = Vec::new();
        let no_fields: Vec<Option<&'static str>> = Vec::new();
        let mut i: usize = 0;
        while i < raw.len()
            invariant
                i <= raw.len(),
                views == raw_views(raw@),
                nodes@.len() == i,
                no_fields@.len() == 0,
                forall|j: int| 0 <= j < i ==> (#[trigger] nodes@[j])@ == node_of(views, j, i as int),
                open_path(views, open@, i as int),
            decreases raw.len() - i,
        {
            let parent: Option<usize> = close_nodes(&raw, &mut open, i);
            let ghost earlier = nodes@;
            assert(raw@[i as int]@ == views[i as int]);
            let slot: usize;
            let node: SyntaxNode;
            match parent {
                Some(p) => {
                    assert(earlier[p as int]@.children == children_below(views, p as int, i as int));
                    assert(earlier[p as int]@.children.len() == earlier[p as int].children@.len());
                    slot = nodes[p].children.len();
                    assert(raw@[p as int]@ == views[p as int]);
                    node = new_node(&raw[i], &raw[p].child_fields, parent, slot);
                    nodes[p].children.push(i);
                },
                None => {
                    slot = 0;
                    node = new_node(&raw[i], &no_fields, parent, slot);
                },
            }
            let ghost linked = nodes@;
            nodes.push(node);
            proof {
                lemma_open_path_push(views, open@, i);
            }
            open.push(i);
            proof {
                assert forall|j: int| 0 <= j < i + 1 implies (#[trigger] nodes@[j])@ == node_of(
                    views,
                    j,
                    i + 1,
                ) by {
                    if j < i {
                        assert(earlier[j]@ == node_of(views, j, i as int));
                        assert(nodes@[j]@.children =~= children_below(views, j, i + 1));
                    } else {
                        lemma_no_children_yet(views, j, i + 1);
                        assert(nodes@[j]@.children =~= Seq::<int>::empty());
                        assert(children_below(views, j, i + 1) =~= Seq::<int>::empty());
                    }
                    assert(nodes@[j]@ =~= node_of(views, j, i + 1));
                }
            }
            i += 1;
        }
        proof {
            lemma_tree_wf(views);
        }
        let tree = SyntaxTree { nodes };
        assert(tree@.nodes =~= Tree::of(views).nodes);
        tree
    }

    /// Parses a text.
    pub fn parse(code: &str) -> (tree: SyntaxTree)
        ensures
            tree@ == Tree::parse(code@),
            tree@.wf(),
    {
        let nodes = parse_nodes(code);
        SyntaxTree::from_nodes(nodes)
    }
}

/// A node that reaches `i` with none in between that does is the nearest one.
proof fn lemma_nearest_is(raw: Seq<RawNodeView>, i: int, j: int, top: int)
    requires
        0 <= top <= j,
        top == 0 || raw[top].descendant_count > i - top,
        forall|k: int| top < k <= j ==> #[trigger] raw[k].descendant_count <= i - k,
    ensures
        nearest_enclosing(raw, i, j) == top,
    decreases j,
{
    if j > top {
        lemma_nearest_is(raw, i, j - 1, top);
    }
}

/// A node has no children among the nodes before it.
proof fn lemma_no_children_yet(raw: Seq<RawNodeView>, p: int, bound: int)
    requires
        0 <= bound <= p + 1,
    ensures
        children_below(raw, p, bound).len() == 0,
{
    lemma_children_below(raw, p, bound);
    if children_below(raw, p, bound).len() > 0 {
        let c = children_below(raw, p, bound)[0];
        assert(p < c < bound);
    }
}

impl SyntaxNode {
    /// A copy.
    pub fn copy(&self) -> (copy: SyntaxNode)
        ensures
            copy@ == self@,
    {
        let mut children: Vec<usize> = Vec::new();
        let mut k: usize = 0;
        while k < self.children.len()
            invariant
                k <= self.children@.len(),
                children@ == self.children@.take(k as int),
            decreases self.children@.len() - k,
        {
            children.push(self.children[k]);
            assert(children@ =~= self.children@.take(k + 1));
            k += 1;
        }
        assert(children@ =~= self.children@);
        SyntaxNode {
            kind: self.kind,
            kind_name: self.kind_name.clone(),
            field: self.field,
            named: self.named,
            missing: self.missing,
            start_byte: self.start_byte,
            end_byte: self.end_byte,
            start: self.start,
            end: self.end,
            parent: self.parent,
            slot: self.slot,
            children,
        }
    }
}

impl SyntaxTree {
    /// A copy.
    pub fn copy(&self) -> (copy: SyntaxTree)
        ensures
            copy@ == self@,
    {
        let mut nodes: Vec<SyntaxNode> = Vec::new();
        let mut k: usize = 0;
        while k < self.nodes.len()
            invariant
                k <= self.nodes@.len(),
                nodes@.len() == k,
                forall|j: int| 0 <= j < k ==> (#[trigger] nodes@[j])@ == self.nodes@[j]@,
            decreases self.nodes@.len() - k,
        {
            nodes.push(self.nodes[k].copy());
            k += 1;
        }
        let copy = SyntaxTree { nodes };
        assert(copy@.nodes =~= self@.nodes);
        copy
    }
}

} // verus!
