//! Assembling the report lines for one file's matches.

use vstd::prelude::*;
use crate::tree::Tree;
use crate::text::flatten_bytes;
use crate::search::{DecodeError, subtree_matches, subtree_decodes, children_matches, chain,
    named_of, node_name, block_anchor, find_leaf_nodes_with_text, collect_parent_hierarchy,
    named_projection, matched_block, get_node_name, lemma_chain_valid};

verus! {

/// The separator between scope names in the displayed chain.
pub open spec fn sep() -> Seq<u8> {
    seq![45u8, 62u8]
}

/// The resolved name of node `n` (meaningful only where `node_name`
/// is `Some`).
pub open spec fn name_of(t: Tree, n: usize) -> Seq<u8> {
    node_name(t, n as int)->Some_0
}

/// The names of `proj` from position `k` on, each preceded by the
/// separator.
pub open spec fn joined_from(t: Tree, proj: Seq<usize>, k: int) -> Seq<u8>
    decreases proj.len() - k
        when 0 <= k <= proj.len()
{
    if k == proj.len() {
        Seq::empty()
    } else {
        sep() + name_of(t, proj[k]) + joined_from(t, proj, k + 1)
    }
}

/// The display string of a named projection: its names joined with the
/// separator, root-first; empty when the projection is empty.
pub open spec fn joined_names(t: Tree, proj: Seq<usize>) -> Seq<u8> {
    if proj.len() == 0 {
        Seq::empty()
    } else {
        name_of(t, proj[0]) + joined_from(t, proj, 1)
    }
}

/// One assembled report line: `<file> <scope-chain>: <block>`.
pub open spec fn report_line_spec(fname: Seq<u8>, chain_str: Seq<u8>, block: Seq<u8>) -> Seq<u8> {
    fname + seq![32u8] + chain_str + seq![58u8, 32u8] + block
}

/// The full report line owed to the match at leaf `m`: the scope chain
/// comes from the named projection of `m`'s hierarchy; the block is the
/// flattened span of the block anchor under the innermost named scope,
/// or under the root when no scope in the hierarchy is named.
pub open spec fn match_report(t: Tree, fname: Seq<u8>, q: Seq<u8>, m: usize) -> Seq<u8> {
    let proj = named_of(t, chain(t, m));
    let anchor: usize = if proj.len() == 0 {
        0usize
    } else {
        proj.last()
    };
    report_line_spec(
        fname,
        joined_names(t, proj),
        flatten_bytes(t.span_bytes(block_anchor(t, m, anchor) as int)),
    )
}

/// Append all of `v` to `out`.
fn append_bytes(out: &mut Vec<u8>, v: &[u8])
    ensures
        final(out)@ == old(out)@ + v@,
{
    let ghost orig = out@;
    let len = v.len();
    let mut i: usize = 0;
    proof {
        assert(orig + v@.take(0) =~= orig);
    }
    while i < len
        invariant
            len == v@.len(),
            0 <= i <= len,
            out@ == orig + v@.take(i as int),
        decreases len - i,
    {
        let b = v[i];
        out.push(b);
        proof {
            assert(orig + v@.take(i + 1) =~= (orig + v@.take(i as int)).push(b));
        }
        i = i + 1;
    }
    proof {
        assert(v@.take(len as int) =~= v@);
    }
}

/// Join the names of the projection `proj` with the separator,
/// root-first.
pub fn join_names(t: &Tree, proj: &Vec<usize>) -> (r: Vec<u8>)
    requires
        t.wf(),
        forall|j: int| 0 <= j < proj@.len() ==> t.valid(#[trigger] proj@[j] as int),
        forall|j: int| 0 <= j < proj@.len() ==> node_name(*t, #[trigger] proj@[j] as int) is Some,
    ensures
        r@ == joined_names(*t, proj@),
{
    let mut out: Vec<u8> = Vec::new();
    let len = proj.len();
    if len == 0 {
        return out;
    }
    let first = proj[0];
    match get_node_name(t, first) {
        Some(v) => {
            append_bytes(&mut out, v.as_slice());
        },
        None => {
            proof {
                assert(false);
            }
        },
    }
    let mut k: usize = 1;
    proof {
        assert(Seq::<u8>::empty() + name_of(*t, first) =~= name_of(*t, first));
    }
    while k < len
        invariant
            t.wf(),
            len == proj@.len(),
            len >= 1,
            forall|j: int| 0 <= j < proj@.len() ==> t.valid(#[trigger] proj@[j] as int),
            forall|j: int| 0 <= j < proj@.len() ==> node_name(*t, #[trigger] proj@[j] as int)
                is Some,
            1 <= k <= len,
            out@ + joined_from(*t, proj@, k as int) == joined_names(*t, proj@),
        decreases len - k,
    {
        out.push(45u8);
        out.push(62u8);
        let x = proj[k];
        match get_node_name(t, x) {
            Some(v) => {
                append_bytes(&mut out, v.as_slice());
            },
            None => {
                proof {
                    assert(false);
                }
            },
        }
        proof {
            assert(out@ + joined_from(*t, proj@, k + 1) =~= joined_names(*t, proj@));
        }
        k = k + 1;
    }
    proof {
        assert(joined_from(*t, proj@, len as int) =~= Seq::<u8>::empty());
        assert(out@ =~= joined_names(*t, proj@));
    }
    out
}

/// Assemble one report line from its three parts.
pub fn format_report_line(fname: &[u8], chain_str: &[u8], block: &[u8]) -> (r: Vec<u8>)
    ensures
        r@ == report_line_spec(fname@, chain_str@, block@),
{
    let mut out: Vec<u8> = Vec::new();
    append_bytes(&mut out, fname);
    out.push(32u8);
    append_bytes(&mut out, chain_str);
    out.push(58u8);
    out.push(32u8);
    append_bytes(&mut out, block);
    proof {
        assert(out@ =~= report_line_spec(fname@, chain_str@, block@));
    }
    out
}

/// Every element of `subtree_matches(t, n, q)` is a valid node index.
pub proof fn lemma_subtree_matches_valid(t: Tree, n: usize, q: Seq<u8>)
    requires
        t.wf(),
        t.valid(n as int),
    ensures
        forall|i: int| 0 <= i < subtree_matches(t, n, q).len() ==> t.valid(
            #[trigger] subtree_matches(t, n, q)[i] as int,
        ),
    decreases t.node_count() - n, 1nat, 0nat,
{
    assert(t.node_wf(n as int));
    if t.is_leaf(n as int) {
        assert forall|i: int| 0 <= i < subtree_matches(t, n, q).len() implies t.valid(
            #[trigger] subtree_matches(t, n, q)[i] as int,
        ) by {
            assert(subtree_matches(t, n, q)[i] == n);
        }
    } else {
        lemma_children_matches_valid(t, n, 0, q);
        assert forall|i: int| 0 <= i < subtree_matches(t, n, q).len() implies t.valid(
            #[trigger] subtree_matches(t, n, q)[i] as int,
        ) by {
            assert(subtree_matches(t, n, q)[i] == children_matches(t, n, 0, q)[i]);
        }
    }
}

/// Every element of `children_matches(t, n, k, q)` is a valid index.
proof fn lemma_children_matches_valid(t: Tree, n: usize, k: int, q: Seq<u8>)
    requires
        t.wf(),
        t.valid(n as int),
        0 <= k <= t.nodes@[n as int].children@.len(),
    ensures
        forall|i: int| 0 <= i < children_matches(t, n, k, q).len() ==> t.valid(
            #[trigger] children_matches(t, n, k, q)[i] as int,
        ),
    decreases t.node_count() - n, 0nat, t.nodes@[n as int].children@.len() - k,
{
    assert(t.node_wf(n as int));
    if k < t.nodes@[n as int].children@.len() {
        let c = t.nodes@[n as int].children@[k];
        lemma_subtree_matches_valid(t, c, q);
        lemma_children_matches_valid(t, n, k + 1, q);
        let left = subtree_matches(t, c, q);
        let right = children_matches(t, n, k + 1, q);
        assert forall|i: int| 0 <= i < children_matches(t, n, k, q).len() implies t.valid(
            #[trigger] children_matches(t, n, k, q)[i] as int,
        ) by {
            if i < left.len() {
                assert(children_matches(t, n, k, q)[i] == left[i]);
            } else {
                assert(children_matches(t, n, k, q)[i] == right[i - left.len()]);
            }
        }
    }
}

/// Every element of `named_of(t, h)` comes from `h`, is a valid index,
/// and resolves to a name.
pub proof fn lemma_named_of_named(t: Tree, h: Seq<usize>)
    requires
        forall|j: int| 0 <= j < h.len() ==> t.valid(#[trigger] h[j] as int),
    ensures
        forall|j: int| 0 <= j < named_of(t, h).len() ==> {
            &&& t.valid(#[trigger] named_of(t, h)[j] as int)
            &&& node_name(t, named_of(t, h)[j] as int) is Some
            &&& h.contains(named_of(t, h)[j])
        },
    decreases h.len(),
{
    if h.len() > 0 {
        assert(forall|j: int| 0 <= j < h.skip(1).len() ==> #[trigger] h.skip(1)[j] == h[j + 1]);
        lemma_named_of_named(t, h.skip(1));
        assert forall|j: int| 0 <= j < named_of(t, h).len() implies {
            &&& t.valid(#[trigger] named_of(t, h)[j] as int)
            &&& node_name(t, named_of(t, h)[j] as int) is Some
            &&& h.contains(named_of(t, h)[j])
        } by {
            if node_name(t, h[0] as int) is Some {
                if j == 0 {
                    assert(h[0] == named_of(t, h)[0]);
                    assert(h.contains(h[0]));
                } else {
                    let x = named_of(t, h)[j];
                    assert(x == named_of(t, h.skip(1))[j - 1]);
                    assert(h.skip(1).contains(x));
                    let w = choose|w: int| 0 <= w < h.skip(1).len() && h.skip(1)[w] == x;
                    assert(h[w + 1] == x);
                    assert(h.contains(x));
                }
            } else {
                let x = named_of(t, h)[j];
                assert(x == named_of(t, h.skip(1))[j]);
                assert(h.skip(1).contains(x));
                let w = choose|w: int| 0 <= w < h.skip(1).len() && h.skip(1)[w] == x;
                assert(h[w + 1] == x);
                assert(h.contains(x));
            }
        }
    }
}

/// Search one file's tree and assemble its report lines: one line per
/// matching leaf, in pre-order.  Fails with a decode error exactly when
/// some leaf span of the tree is not valid UTF-8, and then reports
/// nothing for the file.
pub fn process_file(t: &Tree, fname: &[u8], query: &[u8]) -> (r: Result<
    Vec<Vec<u8>>,
    DecodeError,
>)
    requires
        t.wf(),
    ensures
        (r is Ok) == subtree_decodes(*t, 0),
        r is Ok ==> {
            &&& r->Ok_0@.len() == subtree_matches(*t, 0, query@).len()
            &&& forall|i: int| 0 <= i < r->Ok_0@.len() ==> (#[trigger] r->Ok_0@[i])@
                == match_report(*t, fname@, query@, subtree_matches(*t, 0, query@)[i])
        },
{
    let matched = match find_leaf_nodes_with_text(t, 0, query) {
        Err(e) => {
            return Err(e);
        },
        Ok(v) => v,
    };
    proof {
        lemma_subtree_matches_valid(*t, 0, query@);
    }
    let mut lines: Vec<Vec<u8>> = Vec::new();
    let mlen = matched.len();
    let mut i: usize = 0;
    while i < mlen
        invariant
            t.wf(),
            matched@ == subtree_matches(*t, 0, query@),
            mlen == matched@.len(),
            0 <= i <= mlen,
            forall|j: int| 0 <= j < matched@.len() ==> t.valid(#[trigger] matched@[j] as int),
            lines@.len() == i,
            forall|j: int| 0 <= j < i ==> (#[trigger] lines@[j])@ == match_report(
                *t,
                fname@,
                query@,
                matched@[j],
            ),
        decreases mlen - i,
    {
        let m = matched[i];
        let hierarchy = collect_parent_hierarchy(t, m);
        proof {
            lemma_chain_valid(*t, m);
            lemma_named_of_named(*t, hierarchy@);
        }
        let proj = named_projection(t, &hierarchy);
        let anchor: usize = if proj.len() == 0 {
            0
        } else {
            proj[proj.len() - 1]
        };
        let chain_str = join_names(t, &proj);
        let block = matched_block(t, m, anchor);
        let line = format_report_line(fname, chain_str.as_slice(), block.as_slice());
        lines.push(line);
        i = i + 1;
    }
    Ok(lines)
}

} // verus!
