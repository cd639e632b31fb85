//! The arena model of a parsed syntax tree.
//!
//! Nodes are stored in one vector, addressed by index, in pre-order: a
//! parent's index is always smaller than the indices of its children.
//! That ordering makes the parent relation visibly acyclic, so walks
//! toward the root and recursion over children both terminate.

use vstd::prelude::*;

verus! {

/// Kind tag of a node: the closed set of scope kinds the search cares
/// about.  A named scope is a class-like or function-like construct.
#[derive(Clone, Copy, PartialEq, Eq, Structural, Debug)]
pub enum NodeKind {
    /// A class-like construct that may declare a name.
    ClassDef,
    /// A function-like construct that may declare a name.
    FunctionDef,
    /// Any other node kind.
    Other,
}

/// One node of the tree: kind tag, half-open byte span `[start, end)`
/// into the source buffer, parent and children as arena indices, and the
/// optional index of the child that carries the node's declared name.
pub struct Node {
    pub kind: NodeKind,
    pub start: usize,
    pub end: usize,
    pub parent: Option<usize>,
    pub children: Vec<usize>,
    pub name_child: Option<usize>,
}

/// A whole tree: the node arena plus the source text it is built over.
/// The root is the node at index 0.
pub struct Tree {
    pub nodes: Vec<Node>,
    pub source: Vec<u8>,
}

impl Tree {
    /// Number of nodes in the arena.
    pub open spec fn node_count(self) -> nat {
        self.nodes@.len()
    }

    /// Is `i` a valid node index?
    pub open spec fn valid(self, i: int) -> bool {
        0 <= i < self.nodes@.len()
    }

    /// The byte span of node `i`, as a sequence of source bytes.
    pub open spec fn span_bytes(self, i: int) -> Seq<u8> {
        self.source@.subrange(self.nodes@[i].start as int, self.nodes@[i].end as int)
    }

    /// Does node `i` have no children?
    pub open spec fn is_leaf(self, i: int) -> bool {
        self.nodes@[i].children@.len() == 0
    }

    /// Well-formedness of a single node `i`:
    /// - its span lies inside the source buffer;
    /// - node 0 is the root (no parent) and no other node lacks a parent;
    /// - a parent's index precedes the node's, and the node appears in the
    ///   parent's child list (the parent and child relations are mutual
    ///   inverses);
    /// - every child records `i` as its parent, lies after `i` in the
    ///   arena, and child spans are contained in `i`'s span, in order and
    ///   non-overlapping;
    /// - the child list holds no index twice;
    /// - the name child, when present, is a node whose parent is `i`.
    pub open spec fn node_wf(self, i: int) -> bool {
        let nd = self.nodes@[i];
        &&& nd.start <= nd.end <= self.source@.len()
        &&& match nd.parent {
            None => i == 0,
            Some(p) => p < i && self.valid(p as int)
                && self.nodes@[p as int].children@.contains(i as usize),
        }
        &&& (i == 0 ==> nd.parent is None)
        &&& forall|k1: int, k2: int| 0 <= k1 < k2 < nd.children@.len()
            ==> #[trigger] nd.children@[k1] != #[trigger] nd.children@[k2]
        &&& forall|k: int| 0 <= k < nd.children@.len() ==> {
            let c = #[trigger] nd.children@[k];
            &&& i < c < self.nodes@.len()
            &&& self.nodes@[c as int].parent == Some(i as usize)
            &&& nd.start <= self.nodes@[c as int].start
            &&& self.nodes@[c as int].end <= nd.end
        }
        &&& forall|k: int| 0 <= k < nd.children@.len() - 1
            ==> #[trigger] self.nodes@[nd.children@[k] as int].end
                <= self.nodes@[nd.children@[k + 1] as int].start
        &&& match nd.name_child {
            None => true,
            Some(nc) => self.valid(nc as int)
                && self.nodes@[nc as int].parent == Some(i as usize),
        }
    }

    /// Well-formedness of the whole tree: it is non-empty and every node
    /// is well formed.
    pub open spec fn wf(self) -> bool {
        &&& self.nodes@.len() > 0
        &&& forall|i: int| 0 <= i < self.nodes@.len() ==> self.node_wf(i)
    }

    /// Runtime check of `wf`, so that an unverified caller that built a
    /// tree by hand can reject a malformed one before searching it.
    pub fn wf_check(&self) -> (b: bool)
        ensures
            b == self.wf(),
    {
        let n = self.nodes.len();
        if n == 0 {
            return false;
        }
        let mut i: usize = 0;
        while i < n
            invariant
                n == self.nodes@.len(),
                0 <= i <= n,
                forall|j: int| 0 <= j < i ==> self.node_wf(j),
            decreases n - i,
        {
            if !self.node_wf_check(i) {
                return false;
            }
            i = i + 1;
        }
        true
    }

    /// Runtime check of `node_wf` for one node.
    fn node_wf_check(&self, i: usize) -> (b: bool)
        requires
            i < self.nodes@.len(),
        ensures
            b == self.node_wf(i as int),
    {
        let n = self.nodes.len();
        if !(self.nodes[i].start <= self.nodes[i].end && self.nodes[i].end <= self.source.len()) {
            return false;
        }
        match self.nodes[i].parent {
            None => {
                if i != 0 {
                    return false;
                }
            },
            Some(p) => {
                if i == 0 {
                    return false;
                }
                if !(p < i) {
                    return false;
                }
                if !self.child_list_contains(p, i) {
                    return false;
                }
            },
        }
        let m = self.nodes[i].children.len();
        let mut k: usize = 0;
        while k < m
            invariant
                i < self.nodes@.len(),
                n == self.nodes@.len(),
                m == self.nodes@[i as int].children@.len(),
                0 <= k <= m,
                forall|j: int| 0 <= j < k ==> {
                    let c = #[trigger] self.nodes@[i as int].children@[j];
                    &&& i < c < self.nodes@.len()
                    &&& self.nodes@[c as int].parent == Some(i)
                    &&& self.nodes@[i as int].start <= self.nodes@[c as int].start
                    &&& self.nodes@[c as int].end <= self.nodes@[i as int].end
                },
                forall|j: int| 0 <= j < k - 1
                    ==> #[trigger] self.nodes@[self.nodes@[i as int].children@[j] as int].end
                        <= self.nodes@[self.nodes@[i as int].children@[j + 1] as int].start,
                forall|j1: int, j2: int| 0 <= j1 < j2 < k
                    ==> #[trigger] self.nodes@[i as int].children@[j1]
                        != #[trigger] self.nodes@[i as int].children@[j2],
            decreases m - k,
        {
            let c = self.nodes[i].children[k];
            if !(i < c && c < n) {
                return false;
            }
            let mut j: usize = 0;
            while j < k
                invariant
                    i < self.nodes@.len(),
                    k < self.nodes@[i as int].children@.len(),
                    c == self.nodes@[i as int].children@[k as int],
                    0 <= j <= k,
                    forall|jj: int| 0 <= jj < j
                        ==> #[trigger] self.nodes@[i as int].children@[jj] != c,
                decreases k - j,
            {
                if self.nodes[i].children[j] == c {
                    return false;
                }
                j = j + 1;
            }
            let parent_ok = match self.nodes[c].parent {
                Some(pp) => pp == i,
                None => false,
            };
            if !parent_ok {
                return false;
            }
            if !(self.nodes[i].start <= self.nodes[c].start && self.nodes[c].end <= self.nodes[i].end) {
                return false;
            }
            if k > 0 {
                let prev = self.nodes[i].children[k - 1];
                if !(self.nodes[prev].end <= self.nodes[c].start) {
                    return false;
                }
            }
            k = k + 1;
        }
        match self.nodes[i].name_child {
            None => true,
            Some(nc) => {
                if !(nc < n) {
                    return false;
                }
                match self.nodes[nc].parent {
                    Some(pp) => pp == i,
                    None => false,
                }
            },
        }
    }

    /// Copy out the span text of node `n` from the source buffer.
    pub fn span_text(&self, n: usize) -> (r: Vec<u8>)
        requires
            self.wf(),
            self.valid(n as int),
        ensures
            r@ == self.span_bytes(n as int),
    {
        proof {
            assert(self.node_wf(n as int));
        }
        let sl = vstd::slice::slice_subrange(
            self.source.as_slice(),
            self.nodes[n].start,
            self.nodes[n].end,
        );
        vstd::slice::slice_to_vec(sl)
    }

    /// Does the child list of node `p` contain the index `c`?
    fn child_list_contains(&self, p: usize, c: usize) -> (b: bool)
        requires
            p < self.nodes@.len(),
        ensures
            b == self.nodes@[p as int].children@.contains(c),
    {
        let m = self.nodes[p].children.len();
        let mut k: usize = 0;
        while k < m
            invariant
                p < self.nodes@.len(),
                m == self.nodes@[p as int].children@.len(),
                0 <= k <= m,
                forall|j: int| 0 <= j < k ==> self.nodes@[p as int].children@[j] != c,
            decreases m - k,
        {
            if self.nodes[p].children[k] == c {
                assert(self.nodes@[p as int].children@.contains(c));
                return true;
            }
            k = k + 1;
        }
        assert(!self.nodes@[p as int].children@.contains(c));
        false
    }
}

} // verus!
