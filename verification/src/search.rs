//! Leaf matching, scope hierarchy, scope naming, and block extraction.

use vstd::prelude::*;
use crate::tree::{NodeKind, Tree};
use crate::text::{contains_seq, is_utf8, flatten_bytes, contains_bytes, validate_utf8,
    format_multiline};

verus! {

/// The error for a file whose leaf spans are not all valid UTF-8 text.
#[derive(Debug, PartialEq, Eq, Structural, Clone, Copy)]
pub struct DecodeError;

/// The leaves of the subtree rooted at `n` whose span text contains the
/// query `q`, in pre-order (source order).
pub open spec fn subtree_matches(t: Tree, n: usize, q: Seq<u8>) -> Seq<usize>
    decreases t.node_count() - n, 1nat, 0nat
        when t.wf() && t.valid(n as int)
        via subtree_matches_dec
{
    if t.is_leaf(n as int) {
        if contains_seq(t.span_bytes(n as int), q) {
            seq![n]
        } else {
            Seq::empty()
        }
    } else {
        children_matches(t, n, 0, q)
    }
}

/// The matching leaves under the children of `n` from child position
/// `k` on, concatenated left to right.
pub open spec fn children_matches(t: Tree, n: usize, k: int, q: Seq<u8>) -> Seq<usize>
    decreases t.node_count() - n, 0nat, t.nodes@[n as int].children@.len() - k
        when t.wf() && t.valid(n as int) && 0 <= k <= t.nodes@[n as int].children@.len()
        via children_matches_dec
{
    if k == t.nodes@[n as int].children@.len() {
        Seq::empty()
    } else {
        subtree_matches(t, t.nodes@[n as int].children@[k], q) + children_matches(t, n, k + 1, q)
    }
}

#[via_fn]
proof fn subtree_matches_dec(t: Tree, n: usize, q: Seq<u8>) {
    assert(t.node_wf(n as int));
}

#[via_fn]
proof fn children_matches_dec(t: Tree, n: usize, k: int, q: Seq<u8>) {
    assert(t.node_wf(n as int));
}

/// Do all leaves of the subtree rooted at `n` carry valid UTF-8 text?
pub open spec fn subtree_decodes(t: Tree, n: usize) -> bool
    decreases t.node_count() - n, 1nat, 0nat
        when t.wf() && t.valid(n as int)
        via subtree_decodes_dec
{
    if t.is_leaf(n as int) {
        is_utf8(t.span_bytes(n as int))
    } else {
        children_decode(t, n, 0)
    }
}

/// Do all leaves under the children of `n` from position `k` on decode?
pub open spec fn children_decode(t: Tree, n: usize, k: int) -> bool
    decreases t.node_count() - n, 0nat, t.nodes@[n as int].children@.len() - k
        when t.wf() && t.valid(n as int) && 0 <= k <= t.nodes@[n as int].children@.len()
        via children_decode_dec
{
    if k == t.nodes@[n as int].children@.len() {
        true
    } else {
        subtree_decodes(t, t.nodes@[n as int].children@[k]) && children_decode(t, n, k + 1)
    }
}

#[via_fn]
proof fn subtree_decodes_dec(t: Tree, n: usize) {
    assert(t.node_wf(n as int));
}

#[via_fn]
proof fn children_decode_dec(t: Tree, n: usize, k: int) {
    assert(t.node_wf(n as int));
}

/// Is `x` a node of the subtree rooted at `n`?
pub open spec fn in_subtree(t: Tree, n: usize, x: usize) -> bool
    decreases t.node_count() - n, 1nat, 0nat
        when t.wf() && t.valid(n as int)
        via in_subtree_dec
{
    x == n || in_children(t, n, 0, x)
}

/// Is `x` in one of the subtrees under the children of `n` from
/// position `k` on?
pub open spec fn in_children(t: Tree, n: usize, k: int, x: usize) -> bool
    decreases t.node_count() - n, 0nat, t.nodes@[n as int].children@.len() - k
        when t.wf() && t.valid(n as int) && 0 <= k <= t.nodes@[n as int].children@.len()
        via in_children_dec
{
    if k == t.nodes@[n as int].children@.len() {
        false
    } else {
        in_subtree(t, t.nodes@[n as int].children@[k], x) || in_children(t, n, k + 1, x)
    }
}

#[via_fn]
proof fn in_subtree_dec(t: Tree, n: usize, x: usize) {
    assert(t.node_wf(n as int));
}

#[via_fn]
proof fn in_children_dec(t: Tree, n: usize, k: int, x: usize) {
    assert(t.node_wf(n as int));
}

/// The chain of nodes from the root down to `n`, inclusive.
pub open spec fn chain(t: Tree, n: usize) -> Seq<usize>
    decreases n
        when t.wf() && t.valid(n as int)
        via chain_dec
{
    match t.nodes@[n as int].parent {
        None => seq![n],
        Some(p) => chain(t, p).push(n),
    }
}

#[via_fn]
proof fn chain_dec(t: Tree, n: usize) {
    assert(t.node_wf(n as int));
}

/// The depth of `n`: the number of edges from the root to `n`.
pub open spec fn depth(t: Tree, n: usize) -> nat
    decreases n
        when t.wf() && t.valid(n as int)
        via depth_dec
{
    match t.nodes@[n as int].parent {
        None => 0,
        Some(p) => depth(t, p) + 1,
    }
}

#[via_fn]
proof fn depth_dec(t: Tree, n: usize) {
    assert(t.node_wf(n as int));
}

/// The declared name of node `i`: the span text of its name child, but
/// only when the node's kind is a named-scope kind, the name child is
/// present, and its text is valid UTF-8.  Nothing is ever synthesized.
pub open spec fn node_name(t: Tree, i: int) -> Option<Seq<u8>> {
    let nd = t.nodes@[i];
    if (nd.kind == NodeKind::ClassDef || nd.kind == NodeKind::FunctionDef) && nd.name_child is Some
        && is_utf8(t.span_bytes(nd.name_child->Some_0 as int)) {
        Some(t.span_bytes(nd.name_child->Some_0 as int))
    } else {
        None
    }
}

/// The nodes of `h` that resolve to a name, in order.
pub open spec fn named_of(t: Tree, h: Seq<usize>) -> Seq<usize>
    decreases h.len(),
{
    if h.len() == 0 {
        Seq::empty()
    } else if node_name(t, h[0] as int) is Some {
        seq![h[0]] + named_of(t, h.skip(1))
    } else {
        named_of(t, h.skip(1))
    }
}

/// The node whose span is reported for a match at `n` under the
/// innermost named scope `a`: the ancestor of `n` whose grandparent is
/// `a`, or the outermost ancestor reached before the parent chain runs
/// out.  Climbing compares the grandparent, not the parent, so that the
/// selected node sits at statement level inside the scope's body, one
/// level below the body node that wraps it.
pub open spec fn block_anchor(t: Tree, n: usize, a: usize) -> usize
    decreases n
        when t.wf() && t.valid(n as int)
        via block_anchor_dec
{
    match t.nodes@[n as int].parent {
        None => n,
        Some(p) => match t.nodes@[p as int].parent {
            None => n,
            Some(gp) => if gp == a {
                n
            } else {
                block_anchor(t, p, a)
            },
        },
    }
}

#[via_fn]
proof fn block_anchor_dec(t: Tree, n: usize, a: usize) {
    assert(t.node_wf(n as int));
}

/// Every entry of `chain(t, n)` is a valid node index.
pub proof fn lemma_chain_valid(t: Tree, n: usize)
    requires
        t.wf(),
        t.valid(n as int),
    ensures
        chain(t, n).len() >= 1,
        forall|j: int| 0 <= j < chain(t, n).len() ==> t.valid(#[trigger] chain(t, n)[j] as int),
    decreases n,
{
    assert(t.node_wf(n as int));
    match t.nodes@[n as int].parent {
        None => {},
        Some(p) => {
            lemma_chain_valid(t, p);
        },
    }
}

/// The hierarchy law: `chain(t, n)` always starts at the root, ends at
/// `n` itself, and its length is exactly `depth(t, n) + 1`.
pub proof fn lemma_chain_shape(t: Tree, n: usize)
    requires
        t.wf(),
        t.valid(n as int),
    ensures
        chain(t, n).len() == depth(t, n) + 1,
        chain(t, n)[0] == 0usize,
        chain(t, n).last() == n,
    decreases n,
{
    assert(t.node_wf(n as int));
    match t.nodes@[n as int].parent {
        None => {},
        Some(p) => {
            lemma_chain_shape(t, p);
        },
    }
}

/// Each chain entry after the first is a child of the one before it,
/// so the chain ascends strictly in arena order.
pub proof fn lemma_chain_parents(t: Tree, x: usize)
    requires
        t.wf(),
        t.valid(x as int),
    ensures
        forall|idx: int| 1 <= idx < chain(t, x).len() ==> {
            &&& t.nodes@[#[trigger] chain(t, x)[idx] as int].parent == Some(chain(t, x)[idx - 1])
            &&& chain(t, x)[idx - 1] < chain(t, x)[idx]
        },
    decreases x,
{
    assert(t.node_wf(x as int));
    match t.nodes@[x as int].parent {
        None => {},
        Some(p) => {
            lemma_chain_parents(t, p);
            lemma_chain_shape(t, p);
            assert forall|idx: int| 1 <= idx < chain(t, x).len() implies {
                &&& t.nodes@[#[trigger] chain(t, x)[idx] as int].parent == Some(
                    chain(t, x)[idx - 1],
                )
                &&& chain(t, x)[idx - 1] < chain(t, x)[idx]
            } by {
                if idx < chain(t, x).len() - 1 {
                    assert(chain(t, x)[idx] == chain(t, p)[idx]);
                    assert(chain(t, x)[idx - 1] == chain(t, p)[idx - 1]);
                } else {
                    assert(chain(t, x)[idx] == x);
                    assert(chain(t, x)[idx - 1] == chain(t, p).last());
                }
            }
        },
    }
}

/// The chain ascends strictly between any two positions.
proof fn lemma_chain_increasing(t: Tree, x: usize, i: int, j: int)
    requires
        t.wf(),
        t.valid(x as int),
        0 <= i < j < chain(t, x).len(),
    ensures
        chain(t, x)[i] < chain(t, x)[j],
    decreases j - i,
{
    lemma_chain_parents(t, x);
    if i < j - 1 {
        lemma_chain_increasing(t, x, i, j - 1);
    }
}

/// Two chain entries with the same parent are one and the same entry:
/// the chain is a single ancestor path, so it passes each generation
/// exactly once.
proof fn lemma_chain_same_parent(t: Tree, x: usize, ia: int, ib: int)
    requires
        t.wf(),
        t.valid(x as int),
        0 <= ia <= ib < chain(t, x).len(),
        t.nodes@[chain(t, x)[ia] as int].parent == t.nodes@[chain(t, x)[ib] as int].parent,
    ensures
        ia == ib,
{
    lemma_chain_valid(t, x);
    lemma_chain_parents(t, x);
    if ia < ib {
        let a = chain(t, x)[ia];
        let b = chain(t, x)[ib];
        assert(t.node_wf(a as int));
        assert(t.node_wf(b as int));
        assert(t.nodes@[b as int].parent == Some(chain(t, x)[ib - 1]));
        let p = chain(t, x)[ib - 1];
        assert(t.nodes@[a as int].parent == Some(p));
        assert(p < a);
        if ia == ib - 1 {
            assert(p == a);
        } else {
            lemma_chain_increasing(t, x, ia, ib - 1);
            assert(a < p);
        }
    }
}

/// A node of the subtree at `c` has `c` on its own root-to-node chain.
proof fn lemma_in_subtree_chain(t: Tree, c: usize, x: usize)
    requires
        t.wf(),
        t.valid(c as int),
        in_subtree(t, c, x),
    ensures
        t.valid(x as int),
        chain(t, x).contains(c),
    decreases t.node_count() - c,
{
    assert(t.node_wf(c as int));
    if x == c {
        lemma_chain_shape(t, x);
        assert(chain(t, x)[chain(t, x).len() - 1] == c);
    } else {
        lemma_in_children_witness(t, c, 0, x);
        let j = choose|j: int|
            0 <= j < t.nodes@[c as int].children@.len() && in_subtree(
                t,
                #[trigger] t.nodes@[c as int].children@[j],
                x,
            );
        let d = t.nodes@[c as int].children@[j];
        lemma_in_subtree_chain(t, d, x);
        lemma_chain_shape(t, x);
        lemma_chain_parents(t, x);
        let idx = choose|idx: int| 0 <= idx < chain(t, x).len() && chain(t, x)[idx] == d;
        assert(t.node_wf(d as int));
        assert(idx >= 1);
        assert(chain(t, x)[idx - 1] == c);
    }
}

/// The anchor-selection law: block extraction is idempotent.  The node
/// that `block_anchor` selects already satisfies one of the three stop
/// conditions, so selecting again from it, with the same innermost
/// named scope, returns it unchanged.
pub proof fn lemma_block_anchor_idempotent(t: Tree, n: usize, a: usize)
    requires
        t.wf(),
        t.valid(n as int),
    ensures
        t.valid(block_anchor(t, n, a) as int),
        block_anchor(t, block_anchor(t, n, a), a) == block_anchor(t, n, a),
    decreases n,
{
    assert(t.node_wf(n as int));
    match t.nodes@[n as int].parent {
        None => {},
        Some(p) => {
            assert(t.node_wf(p as int));
            match t.nodes@[p as int].parent {
                None => {},
                Some(gp) => {
                    if gp != a {
                        lemma_block_anchor_idempotent(t, p, a);
                    }
                },
            }
        },
    }
}

/// The selected block always satisfies one of the three stop
/// conditions: its parent chain ran out at one or two levels, or its
/// grandparent is exactly the innermost named scope `a` (so the block
/// sits at statement level directly inside `a`'s body node).
pub proof fn lemma_block_anchor_stop(t: Tree, n: usize, a: usize)
    requires
        t.wf(),
        t.valid(n as int),
    ensures
        ({
            let r = block_anchor(t, n, a);
            match t.nodes@[r as int].parent {
                None => true,
                Some(p) => match t.nodes@[p as int].parent {
                    None => true,
                    Some(gp) => gp == a,
                },
            }
        }),
    decreases n,
{
    assert(t.node_wf(n as int));
    match t.nodes@[n as int].parent {
        None => {},
        Some(p) => {
            assert(t.node_wf(p as int));
            match t.nodes@[p as int].parent {
                None => {},
                Some(gp) => {
                    if gp != a {
                        lemma_block_anchor_stop(t, p, a);
                    }
                },
            }
        },
    }
}

/// The selected block is the match itself or one of its ancestors: it
/// always lies on the match's root-to-leaf chain.
pub proof fn lemma_block_anchor_on_chain(t: Tree, n: usize, a: usize)
    requires
        t.wf(),
        t.valid(n as int),
    ensures
        chain(t, n).contains(block_anchor(t, n, a)),
    decreases n,
{
    assert(t.node_wf(n as int));
    let r = block_anchor(t, n, a);
    match t.nodes@[n as int].parent {
        None => {
            assert(chain(t, n)[0] == n);
        },
        Some(p) => {
            assert(t.node_wf(p as int));
            let stops = match t.nodes@[p as int].parent {
                None => true,
                Some(gp) => gp == a,
            };
            if stops {
                assert(chain(t, n).last() == n);
            } else {
                lemma_block_anchor_on_chain(t, p, a);
                let i = choose|i: int| 0 <= i < chain(t, p).len() && chain(t, p)[i] == r;
                assert(chain(t, n)[i] == r);
            }
        },
    }
}

/// The matching law: a node is collected by the leaf matcher for the
/// subtree at `n` iff it lies in that subtree, has zero children, and
/// its span text contains the query.
pub proof fn lemma_leaf_match_iff(t: Tree, n: usize, q: Seq<u8>, x: usize)
    requires
        t.wf(),
        t.valid(n as int),
    ensures
        subtree_matches(t, n, q).contains(x) <==> (in_subtree(t, n, x) && t.is_leaf(x as int)
            && contains_seq(t.span_bytes(x as int), q)),
    decreases t.node_count() - n, 1nat, 0nat,
{
    assert(t.node_wf(n as int));
    if t.is_leaf(n as int) {
        if contains_seq(t.span_bytes(n as int), q) {
            assert(subtree_matches(t, n, q) == seq![n]);
            assert(subtree_matches(t, n, q).contains(x) <==> x == n) by {
                if x == n {
                    assert(seq![n][0] == x);
                }
            }
        } else {
            assert(subtree_matches(t, n, q) =~= Seq::<usize>::empty());
            assert(!subtree_matches(t, n, q).contains(x));
        }
    } else {
        lemma_children_match_iff(t, n, 0, q, x);
    }
}

/// The matching law over the children of `n` from position `k` on.
proof fn lemma_children_match_iff(t: Tree, n: usize, k: int, q: Seq<u8>, x: usize)
    requires
        t.wf(),
        t.valid(n as int),
        0 <= k <= t.nodes@[n as int].children@.len(),
    ensures
        children_matches(t, n, k, q).contains(x) <==> (in_children(t, n, k, x) && t.is_leaf(
            x as int,
        ) && contains_seq(t.span_bytes(x as int), q)),
    decreases t.node_count() - n, 0nat, t.nodes@[n as int].children@.len() - k,
{
    assert(t.node_wf(n as int));
    if k == t.nodes@[n as int].children@.len() {
        assert(!children_matches(t, n, k, q).contains(x));
    } else {
        let c = t.nodes@[n as int].children@[k];
        lemma_leaf_match_iff(t, c, q, x);
        lemma_children_match_iff(t, n, k + 1, q, x);
        let left = subtree_matches(t, c, q);
        let right = children_matches(t, n, k + 1, q);
        assert(children_matches(t, n, k, q) == left + right);
        assert((left + right).contains(x) <==> left.contains(x) || right.contains(x)) by {
            if (left + right).contains(x) {
                let i = choose|i: int| 0 <= i < (left + right).len() && (left + right)[i] == x;
                if i < left.len() {
                    assert(left[i] == x);
                } else {
                    assert(right[i - left.len()] == x);
                }
            }
            if left.contains(x) {
                let i = choose|i: int| 0 <= i < left.len() && left[i] == x;
                assert((left + right)[i] == x);
            }
            if right.contains(x) {
                let i = choose|i: int| 0 <= i < right.len() && right[i] == x;
                assert((left + right)[left.len() + i] == x);
            }
        }
    }
}

/// The decode law for a subtree: all leaves decode iff every childless
/// node of the subtree carries valid UTF-8 text.
pub proof fn lemma_subtree_decodes_iff(t: Tree, n: usize)
    requires
        t.wf(),
        t.valid(n as int),
    ensures
        subtree_decodes(t, n) <==> (forall|x: usize|
            #[trigger] in_subtree(t, n, x) && t.is_leaf(x as int) ==> is_utf8(
                t.span_bytes(x as int),
            )),
    decreases t.node_count() - n, 1nat, 0nat,
{
    assert(t.node_wf(n as int));
    if t.is_leaf(n as int) {
        if subtree_decodes(t, n) {
            assert forall|x: usize|
                #[trigger] in_subtree(t, n, x) && t.is_leaf(x as int) implies is_utf8(
                t.span_bytes(x as int),
            ) by {
                assert(!in_children(t, n, 0, x));
                assert(x == n);
            }
        } else {
            assert(in_subtree(t, n, n));
            assert(!is_utf8(t.span_bytes(n as int)));
        }
    } else {
        lemma_children_decode_iff(t, n, 0);
        if children_decode(t, n, 0) {
            assert forall|x: usize|
                #[trigger] in_subtree(t, n, x) && t.is_leaf(x as int) implies is_utf8(
                t.span_bytes(x as int),
            ) by {
                if x != n {
                    assert(in_children(t, n, 0, x));
                }
            }
        } else {
            let x = choose|x: usize|
                #[trigger] in_children(t, n, 0, x) && t.is_leaf(x as int) && !is_utf8(
                    t.span_bytes(x as int),
                );
            assert(in_subtree(t, n, x));
        }
    }
}

/// The decode law over the children of `n` from position `k` on.
proof fn lemma_children_decode_iff(t: Tree, n: usize, k: int)
    requires
        t.wf(),
        t.valid(n as int),
        0 <= k <= t.nodes@[n as int].children@.len(),
    ensures
        children_decode(t, n, k) <==> (forall|x: usize|
            #[trigger] in_children(t, n, k, x) && t.is_leaf(x as int) ==> is_utf8(
                t.span_bytes(x as int),
            )),
    decreases t.node_count() - n, 0nat, t.nodes@[n as int].children@.len() - k,
{
    assert(t.node_wf(n as int));
    if k < t.nodes@[n as int].children@.len() {
        let c = t.nodes@[n as int].children@[k];
        lemma_subtree_decodes_iff(t, c);
        lemma_children_decode_iff(t, n, k + 1);
        if children_decode(t, n, k) {
            assert forall|x: usize|
                #[trigger] in_children(t, n, k, x) && t.is_leaf(x as int) implies is_utf8(
                t.span_bytes(x as int),
            ) by {
                assert(in_subtree(t, c, x) || in_children(t, n, k + 1, x));
            }
        } else {
            if !subtree_decodes(t, c) {
                let x = choose|x: usize|
                    #[trigger] in_subtree(t, c, x) && t.is_leaf(x as int) && !is_utf8(
                        t.span_bytes(x as int),
                    );
                assert(in_children(t, n, k, x));
            } else {
                let x = choose|x: usize|
                    #[trigger] in_children(t, n, k + 1, x) && t.is_leaf(x as int) && !is_utf8(
                        t.span_bytes(x as int),
                    );
                assert(in_children(t, n, k, x));
            }
        }
    }
}

/// The decode law for the whole tree, in the form the error policy
/// uses: the search of a file fails with a decode error exactly when
/// some childless node of its tree has a span that is not valid
/// UTF-8 -- and then the file contributes no report lines.  One file's
/// failure says nothing about any other tree: the condition speaks of
/// this tree alone.
pub proof fn lemma_root_decodes_iff(t: Tree)
    requires
        t.wf(),
    ensures
        subtree_decodes(t, 0) <==> (forall|x: usize|
            t.valid(x as int) && #[trigger] t.is_leaf(x as int) ==> is_utf8(
                t.span_bytes(x as int),
            )),
{
    lemma_subtree_decodes_iff(t, 0);
    if subtree_decodes(t, 0) {
        assert forall|x: usize|
            t.valid(x as int) && #[trigger] t.is_leaf(x as int) implies is_utf8(
            t.span_bytes(x as int),
        ) by {
            lemma_all_in_root_subtree(t, x);
        }
    } else {
        let x = choose|x: usize|
            #[trigger] in_subtree(t, 0, x) && t.is_leaf(x as int) && !is_utf8(
                t.span_bytes(x as int),
            );
        lemma_in_subtree_chain(t, 0, x);
        assert(t.valid(x as int));
    }
}

/// If the subtree under the child at position `k` of `n` holds `x`,
/// then so does the child range starting at any position `j <= k`.
proof fn lemma_in_children_from(t: Tree, n: usize, j: int, k: int, x: usize)
    requires
        t.wf(),
        t.valid(n as int),
        0 <= j <= k < t.nodes@[n as int].children@.len(),
        in_subtree(t, t.nodes@[n as int].children@[k], x),
    ensures
        in_children(t, n, j, x),
    decreases k - j,
{
    assert(t.node_wf(n as int));
    if j < k {
        lemma_in_children_from(t, n, j + 1, k, x);
    }
}

/// If the child range of `n` from position `k` holds `p`, some single
/// child's subtree from that position holds `p`.
proof fn lemma_in_children_witness(t: Tree, n: usize, k: int, p: usize)
    requires
        t.wf(),
        t.valid(n as int),
        0 <= k <= t.nodes@[n as int].children@.len(),
        in_children(t, n, k, p),
    ensures
        exists|j: int|
            k <= j < t.nodes@[n as int].children@.len() && in_subtree(
                t,
                #[trigger] t.nodes@[n as int].children@[j],
                p,
            ),
    decreases t.nodes@[n as int].children@.len() - k,
{
    assert(t.node_wf(n as int));
    if !in_subtree(t, t.nodes@[n as int].children@[k], p) {
        lemma_in_children_witness(t, n, k + 1, p);
    }
}

/// Subtree membership extends across one child edge: when `p` lies in
/// the subtree at `a` and `x` is a child of `p`, then `x` lies in the
/// subtree at `a` too.
proof fn lemma_in_subtree_child(t: Tree, a: usize, p: usize, x: usize)
    requires
        t.wf(),
        t.valid(a as int),
        t.valid(p as int),
        in_subtree(t, a, p),
        t.nodes@[p as int].children@.contains(x),
    ensures
        in_subtree(t, a, x),
    decreases t.node_count() - a,
{
    assert(t.node_wf(a as int));
    assert(t.node_wf(p as int));
    let k = choose|k: int|
        0 <= k < t.nodes@[p as int].children@.len() && t.nodes@[p as int].children@[k] == x;
    if p == a {
        assert(in_subtree(t, x, x));
        lemma_in_children_from(t, a, 0, k, x);
    } else {
        lemma_in_children_witness(t, a, 0, p);
        let j = choose|j: int|
            0 <= j < t.nodes@[a as int].children@.len() && in_subtree(
                t,
                #[trigger] t.nodes@[a as int].children@[j],
                p,
            );
        let c = t.nodes@[a as int].children@[j];
        lemma_in_subtree_child(t, c, p, x);
        lemma_in_children_from(t, a, 0, j, x);
    }
}

/// Every valid node lies in the root's subtree: parent links always
/// lead to the root, and the parent and child relations are mutual
/// inverses.
pub proof fn lemma_all_in_root_subtree(t: Tree, x: usize)
    requires
        t.wf(),
        t.valid(x as int),
    ensures
        in_subtree(t, 0, x),
    decreases x,
{
    assert(t.node_wf(x as int));
    match t.nodes@[x as int].parent {
        None => {},
        Some(p) => {
            lemma_all_in_root_subtree(t, p);
            lemma_in_subtree_child(t, 0, p, x);
        },
    }
}

/// The matching law over the whole tree: a node is collected for the
/// root iff it is a childless node whose span text contains the query.
pub proof fn lemma_root_leaf_match_iff(t: Tree, q: Seq<u8>, x: usize)
    requires
        t.wf(),
        t.valid(x as int),
    ensures
        subtree_matches(t, 0, q).contains(x) <==> (t.is_leaf(x as int) && contains_seq(
            t.span_bytes(x as int),
            q,
        )),
{
    lemma_all_in_root_subtree(t, x);
    lemma_leaf_match_iff(t, 0, q, x);
}

/// The uniqueness law: the collected matches of a subtree hold no
/// node twice.  Sibling subtrees are disjoint -- a node's chain passes
/// each generation once -- so the concatenation over the children
/// repeats nothing.
pub proof fn lemma_subtree_matches_distinct(t: Tree, n: usize, q: Seq<u8>)
    requires
        t.wf(),
        t.valid(n as int),
    ensures
        forall|i: int, j: int| 0 <= i < j < subtree_matches(t, n, q).len()
            ==> #[trigger] subtree_matches(t, n, q)[i] != #[trigger] subtree_matches(t, n, q)[j],
    decreases t.node_count() - n, 1nat, 0nat,
{
    assert(t.node_wf(n as int));
    if !t.is_leaf(n as int) {
        lemma_children_matches_distinct(t, n, 0, q);
        assert forall|i: int, j: int| 0 <= i < j < subtree_matches(t, n, q).len() implies #[trigger] subtree_matches(
            t,
            n,
            q,
        )[i] != #[trigger] subtree_matches(t, n, q)[j] by {
            assert(subtree_matches(t, n, q)[i] == children_matches(t, n, 0, q)[i]);
            assert(subtree_matches(t, n, q)[j] == children_matches(t, n, 0, q)[j]);
        }
    }
}

/// The uniqueness law over the children of `n` from position `k` on.
proof fn lemma_children_matches_distinct(t: Tree, n: usize, k: int, q: Seq<u8>)
    requires
        t.wf(),
        t.valid(n as int),
        0 <= k <= t.nodes@[n as int].children@.len(),
    ensures
        forall|i: int, j: int| 0 <= i < j < children_matches(t, n, k, q).len()
            ==> #[trigger] children_matches(t, n, k, q)[i] != #[trigger] children_matches(
                t,
                n,
                k,
                q,
            )[j],
    decreases t.node_count() - n, 0nat, t.nodes@[n as int].children@.len() - k,
{
    assert(t.node_wf(n as int));
    if k < t.nodes@[n as int].children@.len() {
        let c = t.nodes@[n as int].children@[k];
        lemma_subtree_matches_distinct(t, c, q);
        lemma_children_matches_distinct(t, n, k + 1, q);
        let left = subtree_matches(t, c, q);
        let right = children_matches(t, n, k + 1, q);
        let cat = children_matches(t, n, k, q);
        assert(cat == left + right);
        assert forall|i: int, j: int| 0 <= i < j < cat.len() implies #[trigger] cat[i]
            != #[trigger] cat[j] by {
            if j < left.len() {
                assert(cat[i] == left[i] && cat[j] == left[j]);
            } else if i >= left.len() {
                assert(cat[i] == right[i - left.len()] && cat[j] == right[j - left.len()]);
            } else {
                assert(cat[i] == left[i] && cat[j] == right[j - left.len()]);
                if cat[i] == cat[j] {
                    let x = left[i];
                    assert(left.contains(x));
                    assert(right.contains(x));
                    lemma_leaf_match_iff(t, c, q, x);
                    lemma_children_match_iff(t, n, k + 1, q, x);
                    lemma_in_children_witness(t, n, k + 1, x);
                    let j2 = choose|j2: int|
                        k + 1 <= j2 < t.nodes@[n as int].children@.len() && in_subtree(
                            t,
                            #[trigger] t.nodes@[n as int].children@[j2],
                            x,
                        );
                    let c2 = t.nodes@[n as int].children@[j2];
                    assert(c2 != c);
                    lemma_in_subtree_chain(t, c, x);
                    lemma_in_subtree_chain(t, c2, x);
                    let ia = choose|ia: int|
                        0 <= ia < chain(t, x).len() && chain(t, x)[ia] == c;
                    let ib = choose|ib: int|
                        0 <= ib < chain(t, x).len() && chain(t, x)[ib] == c2;
                    assert(t.nodes@[c as int].parent == Some(n));
                    assert(t.nodes@[c2 as int].parent == Some(n));
                    if ia <= ib {
                        lemma_chain_same_parent(t, x, ia, ib);
                    } else {
                        lemma_chain_same_parent(t, x, ib, ia);
                    }
                }
            }
        }
    }
}

/// Collect every leaf of the subtree rooted at `n` whose span text
/// contains `query`, in pre-order.  Fails with a decode error exactly
/// when some leaf span of the subtree is not valid UTF-8.
pub fn find_leaf_nodes_with_text(t: &Tree, n: usize, query: &[u8]) -> (r: Result<
    Vec<usize>,
    DecodeError,
>)
    requires
        t.wf(),
        t.valid(n as int),
    ensures
        r is Ok ==> r->Ok_0@ == subtree_matches(*t, n, query@),
        (r is Ok) == subtree_decodes(*t, n),
    decreases t.nodes@.len() - n,
{
    proof {
        assert(t.node_wf(n as int));
    }
    let mut matches: Vec<usize> = Vec::new();
    if t.nodes[n].children.len() == 0 {
        let text = t.span_text(n);
        if !validate_utf8(text.as_slice()) {
            return Err(DecodeError);
        }
        if contains_bytes(text.as_slice(), query) {
            matches.push(n);
            assert(matches@ =~= subtree_matches(*t, n, query@));
        } else {
            assert(matches@ =~= subtree_matches(*t, n, query@));
        }
        Ok(matches)
    } else {
        let m = t.nodes[n].children.len();
        let mut k: usize = 0;
        proof {
            assert(matches@ + children_matches(*t, n, 0, query@) =~= children_matches(
                *t,
                n,
                0,
                query@,
            ));
        }
        while k < m
            invariant
                t.wf(),
                t.valid(n as int),
                !t.is_leaf(n as int),
                m == t.nodes@[n as int].children@.len(),
                0 <= k <= m,
                children_matches(*t, n, 0, query@) == matches@ + children_matches(
                    *t,
                    n,
                    k as int,
                    query@,
                ),
                children_decode(*t, n, 0) == children_decode(*t, n, k as int),
            decreases m - k,
        {
            proof {
                assert(t.node_wf(n as int));
            }
            let c = t.nodes[n].children[k];
            assert(n < c && t.valid(c as int));
            match find_leaf_nodes_with_text(t, c, query) {
                Err(e) => {
                    return Err(e);
                },
                Ok(v) => {
                    let ghost pre = matches@;
                    let vlen = v.len();
                    let mut vi: usize = 0;
                    while vi < vlen
                        invariant
                            vlen == v@.len(),
                            0 <= vi <= vlen,
                            matches@ == pre + v@.take(vi as int),
                        decreases vlen - vi,
                    {
                        let x = v[vi];
                        matches.push(x);
                        proof {
                            assert(pre + v@.take(vi + 1) =~= (pre + v@.take(vi as int)).push(x));
                        }
                        vi = vi + 1;
                    }
                    proof {
                        assert(v@.take(vlen as int) =~= v@);
                        assert(children_matches(*t, n, 0, query@) =~= matches@ + children_matches(
                            *t,
                            n,
                            k + 1,
                            query@,
                        ));
                    }
                },
            }
            k = k + 1;
        }
        proof {
            assert(children_matches(*t, n, m as int, query@) =~= Seq::<usize>::empty());
            assert(matches@ =~= children_matches(*t, n, 0, query@));
        }
        Ok(matches)
    }
}

/// Walk the parent links from `n` to the root and return the chain in
/// root-first order, ending at `n` itself.
pub fn collect_parent_hierarchy(t: &Tree, n: usize) -> (r: Vec<usize>)
    requires
        t.wf(),
        t.valid(n as int),
    ensures
        r@ == chain(*t, n),
    decreases n,
{
    proof {
        assert(t.node_wf(n as int));
    }
    match t.nodes[n].parent {
        None => {
            let mut v: Vec<usize> = Vec::new();
            v.push(n);
            proof {
                assert(v@ =~= chain(*t, n));
            }
            v
        },
        Some(p) => {
            let mut v = collect_parent_hierarchy(t, p);
            v.push(n);
            proof {
                assert(v@ =~= chain(*t, n));
            }
            v
        },
    }
}

/// Resolve the declared name of node `n`, or `None` when its kind is
/// not a named-scope kind, it has no name child, or the name text is
/// not valid UTF-8.
pub fn get_node_name(t: &Tree, n: usize) -> (r: Option<Vec<u8>>)
    requires
        t.wf(),
        t.valid(n as int),
    ensures
        match r {
            Some(v) => node_name(*t, n as int) == Some(v@),
            None => node_name(*t, n as int) is None,
        },
{
    proof {
        assert(t.node_wf(n as int));
    }
    let is_named_kind = match t.nodes[n].kind {
        NodeKind::ClassDef => true,
        NodeKind::FunctionDef => true,
        NodeKind::Other => false,
    };
    if !is_named_kind {
        return None;
    }
    match t.nodes[n].name_child {
        None => None,
        Some(nc) => {
            let text = t.span_text(nc);
            if validate_utf8(text.as_slice()) {
                Some(text)
            } else {
                None
            }
        },
    }
}

/// Keep the nodes of `hierarchy` that resolve to a name, in order.
pub fn named_projection(t: &Tree, hierarchy: &Vec<usize>) -> (r: Vec<usize>)
    requires
        t.wf(),
        forall|j: int| 0 <= j < hierarchy@.len() ==> t.valid(#[trigger] hierarchy@[j] as int),
    ensures
        r@ == named_of(*t, hierarchy@),
{
    let len = hierarchy.len();
    let mut r: Vec<usize> = Vec::new();
    let mut i: usize = 0;
    proof {
        assert(r@ + named_of(*t, hierarchy@.skip(0)) =~= named_of(*t, hierarchy@.skip(0)));
        assert(hierarchy@.skip(0) =~= hierarchy@);
    }
    while i < len
        invariant
            t.wf(),
            len == hierarchy@.len(),
            forall|j: int| 0 <= j < hierarchy@.len() ==> t.valid(#[trigger] hierarchy@[j] as int),
            0 <= i <= len,
            named_of(*t, hierarchy@) == r@ + named_of(*t, hierarchy@.skip(i as int)),
        decreases len - i,
    {
        let ghost pre = hierarchy@.skip(i as int);
        let x = hierarchy[i];
        proof {
            assert(pre[0] == hierarchy@[i as int]);
            assert(pre.skip(1) =~= hierarchy@.skip(i + 1));
        }
        match get_node_name(t, x) {
            Some(_) => {
                r.push(x);
                proof {
                    assert(named_of(*t, pre) =~= seq![x] + named_of(*t, hierarchy@.skip(i + 1)));
                    assert(named_of(*t, hierarchy@) =~= r@ + named_of(*t, hierarchy@.skip(i + 1)));
                }
            },
            None => {
                proof {
                    assert(named_of(*t, pre) =~= named_of(*t, hierarchy@.skip(i + 1)));
                }
            },
        }
        i = i + 1;
    }
    proof {
        assert(named_of(*t, hierarchy@.skip(len as int)) =~= Seq::<usize>::empty());
        assert(named_of(*t, hierarchy@) =~= r@);
    }
    r
}

/// Extract the reported block for a match at `n` under the innermost
/// named scope `a`: climb to the block anchor, take its span text, and
/// flatten it to one display line.
pub fn matched_block(t: &Tree, n: usize, a: usize) -> (r: Vec<u8>)
    requires
        t.wf(),
        t.valid(n as int),
    ensures
        r@ == flatten_bytes(t.span_bytes(block_anchor(*t, n, a) as int)),
{
    let mut cand: usize = n;
    loop
        invariant
            t.wf(),
            t.valid(cand as int),
            block_anchor(*t, cand, a) == block_anchor(*t, n, a),
        ensures
            t.valid(cand as int),
            cand == block_anchor(*t, n, a),
        decreases cand,
    {
        proof {
            assert(t.node_wf(cand as int));
        }
        match t.nodes[cand].parent {
            None => {
                break;
            },
            Some(p) => {
                proof {
                    assert(t.node_wf(p as int));
                }
                match t.nodes[p].parent {
                    None => {
                        break;
                    },
                    Some(gp) => {
                        if gp == a {
                            break;
                        }
                        cand = p;
                    },
                }
            },
        }
    }
    let text = t.span_text(cand);
    format_multiline(text.as_slice())
}

} // verus!
