//! Helpers over the syntax model used across the engine and the rules.

use vstd::prelude::*;
use vstd::string::StringSliceAdditionalSpecFns;
use vstd::utf8::*;

use crate::engine::syntax::{
    lemma_significant_from, node_ok, node_text_of, significant_children, significant_from, NodeKind,
    SyntaxNode, SyntaxTree,
};
use crate::text::sub_str;

verus! {

broadcast use vstd::utf8::encode_utf8_valid_utf8;

/// The source text that `node` spans (empty when its span is not a range of
/// whole characters of `source`).
pub fn node_text<'a>(tree: &SyntaxTree, node: usize, source: &'a str) -> (r: &'a str)
    requires
        node < tree.nodes@.len(),
    ensures
        r@ == node_text_of(tree.nodes@, source.spec_bytes(), node as int),
{
    let n = tree.nodes[node];
    if n.start_byte <= n.end_byte && source.is_char_boundary(n.start_byte)
        && source.is_char_boundary(n.end_byte) {
        sub_str(source, n.start_byte, n.end_byte)
    } else {
        let e = "";
        proof {
            reveal_strlit("");
        }
        e
    }
}

/// The subtree of `root` in pre-order: the indices from `root` up to the end of
/// its subtree.
pub open spec fn preorder(ns: Seq<SyntaxNode>, root: int) -> Seq<int> {
    Seq::new((ns[root].end - root) as nat, |k: int| root + k)
}

/// The nodes of the subtree of `root` (`root` included), in pre-order.
pub fn walk_preorder(tree: &SyntaxTree, root: usize) -> (r: Vec<usize>)
    requires
        tree.wf(),
        root < tree.nodes@.len(),
    ensures
        r@.len() == preorder(tree.nodes@, root as int).len(),
        forall|k: int| 0 <= k < r@.len() ==> r@[k] == #[trigger] preorder(tree.nodes@, root as int)[k],
        forall|k: int| 0 <= k < r@.len() ==> #[trigger] r@[k] < tree.nodes@.len(),
        forall|k: int| 0 <= k < r@.len() ==> #[trigger] r@[k] == root + k,
        r@.len() == tree.nodes@[root as int].end - root,
        tree.nodes@[root as int].end <= tree.nodes@.len(),
{
    assert(node_ok(tree.nodes@, root as int));
    let end = tree.nodes[root].end;
    let mut out: Vec<usize> = Vec::new();
    let mut j = root;
    while j < end
        invariant
            root <= j <= end,
            end == tree.nodes@[root as int].end,
            end <= tree.nodes@.len(),
            out@.len() == j - root,
            forall|k: int| 0 <= k < out@.len() ==> #[trigger] out@[k] == root + k,
        decreases end - j,
    {
        out.push(j);
        j += 1;
    }
    out
}

/// The named children of `node`, comments skipped, in order.
pub fn significant_named_children(tree: &SyntaxTree, node: usize) -> (r: Vec<usize>)
    requires
        tree.wf(),
        node < tree.nodes@.len(),
    ensures
        r@.len() == significant_children(tree.nodes@, node as int).len(),
        forall|k: int|
            0 <= k < r@.len() ==> r@[k] == #[trigger] significant_children(
                tree.nodes@,
                node as int,
            )[k],
        forall|k: int| 0 <= k < r@.len() ==> node < #[trigger] r@[k] < tree.nodes@.len(),
{
    let ghost ns = tree.nodes@;
    assert(node_ok(ns, node as int));
    let end = tree.nodes[node].end;
    let depth = tree.nodes[node].depth;
    let mut out: Vec<usize> = Vec::new();
    let mut j = node + 1;
    proof {
        lemma_significant_from(ns, node as int, node + 1);
    }
    while j < end
        invariant
            ns == tree.nodes@,
            node < j <= end,
            end == ns[node as int].end,
            end <= ns.len(),
            depth == ns[node as int].depth,
            out@.len() + significant_from(ns, node as int, j as int).len() == significant_children(
                ns,
                node as int,
            ).len(),
            forall|k: int|
                0 <= k < out@.len() ==> out@[k] == #[trigger] significant_children(ns, node as int)[k],
            forall|k: int|
                0 <= k < significant_from(ns, node as int, j as int).len() ==> significant_children(
                    ns,
                    node as int,
                )[out@.len() + k] == #[trigger] significant_from(ns, node as int, j as int)[k],
            forall|k: int| 0 <= k < out@.len() ==> node < #[trigger] out@[k] < end,
        decreases end - j,
    {
        let n = tree.nodes[j];
        let ghost before = significant_from(ns, node as int, j as int);
        if n.depth > 0 && n.depth - 1 == depth && n.is_named && n.kind != NodeKind::Comment {
            assert(before == seq![j as int] + significant_from(ns, node as int, j + 1));
            assert(before[0] == j);
            out.push(j);
            proof {
                assert forall|k: int|
                    0 <= k < significant_from(ns, node as int, j + 1).len() implies significant_children(
                    ns,
                    node as int,
                )[out@.len() + k] == #[trigger] significant_from(ns, node as int, j + 1)[k] by {
                    assert(before[k + 1] == significant_from(ns, node as int, j + 1)[k]);
                }
            }
        }
        j += 1;
    }
    out
}

} // verus!
