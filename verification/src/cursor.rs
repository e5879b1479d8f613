use vstd::prelude::*;

use crate::kinds::{Field, NodeKind};
use crate::position::{Position, Range};
use crate::syntax::{SyntaxNode, SyntaxTree, Tree};
use crate::text::{get_slice, slice_text};

verus! {

/// The node that an index stands for.
pub open spec fn node_index(node: Option<usize>) -> Option<int> {
    match node {
        Some(i) => Some(i as int),
        None => None,
    }
}

/// The nodes that a list of indices stands for.
pub open spec fn node_indices(nodes: Seq<usize>) -> Seq<int> {
    nodes.map_values(|i: usize| i as int)
}

impl Tree {
    /// The text of a node; empty where the node's offsets are not ones of the text.
    pub open spec fn node_text(self, code: Seq<char>, i: int) -> Seq<char> {
        match slice_text(code, self.nodes[i].start_byte, self.nodes[i].end_byte) {
            Some(text) => text,
            None => Seq::empty(),
        }
    }

    /// The range of a node.
    pub open spec fn range(self, i: int) -> Range {
        Range { start: self.nodes[i].start, end: self.nodes[i].end }
    }

    /// The first child of `i` at or behind place `k` that ends behind a position.
    pub open spec fn child_ending_after(self, i: int, point: Position, k: int) -> Option<int>
        decreases self.children(i).len() - k,
    {
        if k < 0 || k >= self.children(i).len() {
            None
        } else if point.before(self.nodes[self.children(i)[k]].end) {
            Some(self.children(i)[k])
        } else {
            self.child_ending_after(i, point, k + 1)
        }
    }

    /// The node that is reached from `i` by going to the first child that ends behind a
    /// position, as long as there is one.
    pub open spec fn descend(self, i: int, point: Position) -> int
        decreases self.len() - i,
    {
        match self.child_ending_after(i, point, 0) {
            Some(c) => if i < c < self.len() {
                self.descend(c, point)
            } else {
                i
            },
            None => i,
        }
    }

    /// The node at a position.
    pub open spec fn node_at(self, point: Position) -> int {
        self.descend(0, point)
    }

    /// Whether an offset lies in a node or at one of its ends.
    pub open spec fn contains_byte(self, i: int, offset: int) -> bool {
        self.nodes[i].start_byte <= offset <= self.nodes[i].end_byte
    }

    /// A child is a node behind its parent, and knows its parent.
    pub proof fn lemma_child(self, i: int, k: int)
        requires
            self.wf(),
            self.has(i),
            0 <= k < self.children(i).len(),
        ensures
            i < self.children(i)[k] < self.len(),
            self.parent(self.children(i)[k]) == Some(i),
    {
        assert(self.node_wf(i));
    }

    /// A named child is one of the children.
    pub proof fn lemma_named_child(self, i: int, k: int)
        requires
            self.wf(),
            self.has(i),
            0 <= k < self.named_children(i).len(),
        ensures
            i < self.named_children(i)[k] < self.len(),
            self.parent(self.named_children(i)[k]) == Some(i),
            self.children(i).contains(self.named_children(i)[k]),
    {
        let pred = |c: int| self.nodes[c].named;
        let c = self.named_children(i)[k];
        assert(self.children(i).contains(c)) by {
            lemma_filter_from(self.children(i), pred, c);
        }
        let j = choose|j: int| 0 <= j < self.children(i).len() && self.children(i)[j] == c;
        self.lemma_child(i, j);
    }

    /// What plays a role in a node is a child of it.
    pub proof fn lemma_field_from(self, i: int, field: Field, k: int)
        requires
            self.wf(),
            self.has(i),
            0 <= k,
        ensures
            self.field_from(i, field, k) matches Some(c) ==> i < c < self.len() && self.parent(c)
                == Some(i),
        decreases self.children(i).len() - k,
    {
        if k < self.children(i).len() {
            self.lemma_child(i, k);
            self.lemma_field_from(i, field, k + 1);
        }
    }

    /// What plays a role in a node is a child of it.
    pub proof fn lemma_field(self, i: int, field: Field)
        requires
            self.wf(),
            self.has(i),
        ensures
            self.child_by_field(i, field) matches Some(c) ==> i < c < self.len() && self.parent(c)
                == Some(i),
    {
        self.lemma_field_from(i, field, 0);
    }

    /// The first child that ends behind a position is a child.
    proof fn lemma_child_ending_after(self, i: int, point: Position, k: int)
        requires
            self.wf(),
            self.has(i),
            0 <= k,
        ensures
            self.child_ending_after(i, point, k) matches Some(c) ==> i < c < self.len(),
        decreases self.children(i).len() - k,
    {
        if k < self.children(i).len() {
            self.lemma_child(i, k);
            self.lemma_child_ending_after(i, point, k + 1);
        }
    }
}

/// What a filter keeps was there before.
pub proof fn lemma_filter_from<A>(s: Seq<A>, pred: spec_fn(A) -> bool, x: A)
    requires
        s.filter(pred).contains(x),
    ensures
        s.contains(x),
        pred(x),
    decreases s.len(),
{
    reveal(Seq::filter);
    if s.len() > 0 {
        let rest = s.drop_last().filter(pred);
        let k = choose|k: int| 0 <= k < s.filter(pred).len() && s.filter(pred)[k] == x;
        if k < rest.len() {
            assert(rest[k] == x);
            lemma_filter_from(s.drop_last(), pred, x);
            let j = choose|j: int| 0 <= j < s.drop_last().len() && s.drop_last()[j] == x;
            assert(s[j] == x);
        } else {
            assert(s[s.len() - 1] == x);
        }
    }
}

impl SyntaxTree {
    /// The number of nodes.
    pub fn len(&self) -> (n: usize)
        ensures
            n == self@.len(),
    {
        self.nodes.len()
    }

    /// The node at an index.
    pub fn node(&self, i: usize) -> (node: &SyntaxNode)
        requires
            self@.has(i as int),
        ensures
            node@ == self@.nodes[i as int],
            *node == self.nodes@[i as int],
    {
        &self.nodes[i]
    }

    /// The kind of a node.
    pub fn kind(&self, i: usize) -> (kind: NodeKind)
        requires
            self@.has(i as int),
        ensures
            kind == self@.kind(i as int),
    {
        self.nodes[i].kind
    }

    /// The parent of a node.
    pub fn parent(&self, i: usize) -> (parent: Option<usize>)
        requires
            self@.has(i as int),
        ensures
            node_index(parent) == self@.parent(i as int),
            self@.wf() ==> (parent matches Some(p) ==> p < i),
    {
        proof {
            if self@.wf() {
                assert(self@.node_wf(i as int));
            }
        }
        self.nodes[i].parent
    }

    /// The range of a node.
    pub fn range(&self, i: usize) -> (range: Range)
        requires
            self@.has(i as int),
        ensures
            range == self@.range(i as int),
    {
        Range { start: self.nodes[i].start, end: self.nodes[i].end }
    }

    /// The text of a node.
    pub fn node_text(&self, code: &str, i: usize) -> (text: String)
        requires
            self@.has(i as int),
        ensures
            text@ == self@.node_text(code@, i as int),
    {
        match get_slice(code, self.nodes[i].start_byte, self.nodes[i].end_byte) {
            Some(text) => text.to_owned(),
            None => String::new(),
        }
    }

    /// The children of a node that carry a name in the grammar.
    pub fn named_children(&self, i: usize) -> (children: Vec<usize>)
        requires
            self@.wf(),
            self@.has(i as int),
        ensures
            node_indices(children@) == self@.named_children(i as int),
            forall|k: int|
                0 <= k < children@.len() ==> i < #[trigger] children@[k] < self@.len()
                    && children@[k] == self@.named_children(i as int)[k],
    {
        let mut named: Vec<usize> = Vec::new();
        let children = &self.nodes[i].children;
        let ghost all = self@.children(i as int);
        let ghost pred = |c: int| self@.nodes[c].named;
        let mut k: usize = 0;
        while k < children.len()
            invariant
                k <= children.len(),
                self@.wf(),
                self@.has(i as int),
                *children == self.nodes@[i as int].children,
                all == self@.children(i as int),
                all.len() == children@.len(),
                pred == (|c: int| self@.nodes[c].named),
                node_indices(named@) == all.take(k as int).filter(pred),
            decreases children.len() - k,
        {
            let c: usize = children[k];
            let ghost before = named@;
            proof {
                self@.lemma_child(i as int, k as int);
                assert(all[k as int] == c);
                assert(all.take(k + 1).drop_last() =~= all.take(k as int));
                reveal(Seq::filter);
            }
            if self.nodes[c].named {
                named.push(c);
                assert(node_indices(named@) =~= node_indices(before).push(c as int));
            }
            k += 1;
        }
        proof {
            assert(all.take(all.len() as int) =~= all);
            assert forall|k: int| 0 <= k < named@.len() implies i < #[trigger] named@[k]
                < self@.len() && named@[k] == self@.named_children(i as int)[k] by {
                assert(node_indices(named@)[k] == named@[k] as int);
                self@.lemma_named_child(i as int, k);
            }
        }
        named
    }

    /// The first child of a node that has a role.
    pub fn child_by_field(&self, i: usize, field: Field) -> (child: Option<usize>)
        requires
            self@.wf(),
            self@.has(i as int),
        ensures
            node_index(child) == self@.child_by_field(i as int, field),
            child matches Some(c) ==> i < c < self@.len() && self@.parent(c as int) == Some(i as int),
    {
        let children = &self.nodes[i].children;
        let mut k: usize = 0;
        proof {
            self@.lemma_field(i as int, field);
        }
        while k < children.len()
            invariant
                k <= children.len(),
                self@.wf(),
                self@.has(i as int),
                *children == self.nodes@[i as int].children,
                self@.children(i as int).len() == children@.len(),
                self@.child_by_field(i as int, field) == self@.field_from(i as int, field, k as int),
                self@.child_by_field(i as int, field) matches Some(c) ==> i < c < self@.len()
                    && self@.parent(c) == Some(i as int),
            decreases children.len() - k,
        {
            let c: usize = children[k];
            proof {
                self@.lemma_child(i as int, k as int);
                assert(self@.children(i as int)[k as int] == c);
            }
            match self.nodes[c].field {
                Some(f) => if f == field {
                    return Some(c);
                },
                None => {},
            }
            k += 1;
        }
        None
    }

    /// The child of a node at a place.
    pub fn child(&self, i: usize, k: usize) -> (child: Option<usize>)
        requires
            self@.wf(),
            self@.has(i as int),
        ensures
            node_index(child) == self@.child(i as int, k as int),
            child matches Some(c) ==> i < c < self@.len() && self@.parent(c as int) == Some(i as int),
    {
        let children = &self.nodes[i].children;
        if k < children.len() {
            proof {
                self@.lemma_child(i as int, k as int);
            }
            Some(children[k])
        } else {
            None
        }
    }

    /// The first child of a node that carries a name in the grammar.
    pub fn first_named_child(&self, i: usize) -> (child: Option<usize>)
        requires
            self@.wf(),
            self@.has(i as int),
        ensures
            node_index(child) == self@.first_named_child(i as int),
            child matches Some(c) ==> i < c < self@.len() && self@.parent(c as int) == Some(i as int),
    {
        let named = self.named_children(i);
        if named.len() > 0 {
            proof {
                self@.lemma_named_child(i as int, 0);
            }
            Some(named[0])
        } else {
            None
        }
    }

    /// The sibling just before a node.
    pub fn prev_sibling(&self, i: usize) -> (sibling: Option<usize>)
        requires
            self@.wf(),
            self@.has(i as int),
        ensures
            node_index(sibling) == self@.prev_sibling(i as int),
            sibling matches Some(s) ==> s < i && self@.parent(s as int) == self@.parent(i as int),
    {
        let node = &self.nodes[i];
        proof {
            assert(self@.node_wf(i as int));
        }
        match node.parent {
            Some(p) => if node.slot > 0 {
                proof {
                    assert(self@.node_wf(p as int));
                    let before = self@.children(p as int)[node.slot - 1];
                    assert(self@.nodes[before].slot == node.slot - 1);
                }
                Some(self.nodes[p].children[node.slot - 1])
            } else {
                None
            },
            None => None,
        }
    }

    /// The node at a position: from the root down, the first child that ends behind it.
    pub fn node_at(&self, point: Position) -> (found: usize)
        requires
            self@.wf(),
        ensures
            found == self@.node_at(point),
            found < self@.len(),
    {
        let mut i: usize = 0;
        loop
            invariant
                self@.wf(),
                self@.has(i as int),
                self@.node_at(point) == self@.descend(i as int, point),
            ensures
                i == self@.node_at(point),
                self@.has(i as int),
            decreases self@.len() - i,
        {
            let next: Option<usize> = self.first_child_ending_after(i, point);
            match next {
                Some(c) => {
                    i = c;
                },
                None => {
                    break;
                },
            }
        }
        i
    }

    /// The first child of a node that ends behind a position.
    pub fn first_child_ending_after(&self, i: usize, point: Position) -> (child: Option<usize>)
        requires
            self@.wf(),
            self@.has(i as int),
        ensures
            node_index(child) == self@.child_ending_after(i as int, point, 0),
            child matches Some(c) ==> i < c < self@.len(),
    {
        let children = &self.nodes[i].children;
        let mut k: usize = 0;
        proof {
            self@.lemma_child_ending_after(i as int, point, 0);
        }
        while k < children.len()
            invariant
                k <= children.len(),
                self@.wf(),
                self@.has(i as int),
                *children == self.nodes@[i as int].children,
                self@.children(i as int).len() == children@.len(),
                self@.child_ending_after(i as int, point, 0) == self@.child_ending_after(
                    i as int,
                    point,
                    k as int,
                ),
                self@.child_ending_after(i as int, point, 0) matches Some(c) ==> i < c
                    < self@.len(),
            decreases children.len() - k,
        {
            let c: usize = children[k];
            proof {
                self@.lemma_child(i as int, k as int);
                assert(self@.children(i as int)[k as int] == c);
            }
            if point.is_before(&self.nodes[c].end) {
                return Some(c);
            }
            k += 1;
        }
        None
    }

    /// Whether an offset lies in a node or at one of its ends.
    pub fn contains_byte(&self, i: usize, offset: usize) -> (r: bool)
        requires
            self@.has(i as int),
        ensures
            r == self@.contains_byte(i as int, offset as int),
    {
        self.nodes[i].start_byte <= offset && offset <= self.nodes[i].end_byte
    }
}

} // verus!
