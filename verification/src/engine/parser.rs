//! Parsing Python with `tree-sitter`, and reading the resulting tree into the
//! plain [`SyntaxTree`] model that the analysis works on.

use vstd::prelude::*;

use tree_sitter::Parser;

use crate::engine::syntax::{classify_field, classify_kind, field_of, kind_of, node_ok, SyntaxNode, SyntaxTree};

verus! {

/// One node of a `tree-sitter` tree as its accessors report it, read in
/// pre-order from the root.
#[derive(Clone, Copy, Debug)]
pub struct RawNode {
    /// `Node::kind`.
    pub kind: &'static str,
    /// `Node::is_named`.
    pub is_named: bool,
    /// `TreeCursor::field_name` at the node.
    pub field: Option<&'static str>,
    /// `TreeCursor::depth` at the node, below the root.
    pub depth: u32,
    /// `Node::start_byte` and `Node::end_byte`.
    pub start_byte: usize,
    pub end_byte: usize,
    /// `Node::start_position` and `Node::end_position`, as (row, column).
    pub start: (usize, usize),
    pub end: (usize, usize),
}

/// The nodes, in pre-order, of the tree that `tree-sitter`'s Python grammar
/// gives for `source`.
pub uninterp spec fn python_nodes(source: Seq<char>) -> Seq<RawNode>;

/// Parses `source` with a new `tree_sitter::Parser` set to the Python grammar
/// (`Parser::new`, `Parser::set_language`, `Parser::parse` with no earlier
/// tree), then reads each of the root's `Node::descendant_count` nodes in
/// pre-order through a `TreeCursor` (`Tree::walk`,
/// `TreeCursor::goto_descendant`) and the accessors named on [`RawNode`]'s
/// fields. Claimed: a
/// tree always comes back (the grammar's ABI version is one the library
/// accepts, and the parser has no timeout and no cancellation flag), and its
/// nodes are the named result for `source`.
#[verifier::external_body]
fn parse_python(source: &str) -> (r: Option<Vec<RawNode>>)
    ensures
        r is Some,
        r is Some ==> r->0@ == python_nodes(source@),
{
    let mut parser = Parser::new();
    parser.set_language(&tree_sitter_python::LANGUAGE.into()).ok()?;
    let tree = parser.parse(source, None)?;
    let mut cursor = tree.walk();
    let mut nodes = vec![];
    for i in 0..tree.root_node().descendant_count() {
        cursor.goto_descendant(i);
        let n = cursor.node();
        let (s, e) = (n.start_position(), n.end_position());
        nodes.push(RawNode {
            kind: n.kind(), is_named: n.is_named(), field: cursor.field_name(), depth: cursor.depth(),
            start_byte: n.start_byte(), end_byte: n.end_byte(),
            start: (s.row, s.column), end: (e.row, e.column) });
    }
    Some(nodes)
}

/// A 0-based row or column that can be made 1-based without overflow.
pub open spec fn bounded(x: usize) -> usize {
    if x == usize::MAX {
        (x - 1) as usize
    } else {
        x
    }
}

/// The first node from `j` on that is no deeper than node `i`, or the end of
/// `raw`: in pre-order, node `i`'s subtree runs up to it.
pub open spec fn subtree_end_from(raw: Seq<RawNode>, i: int, j: int) -> int
    decreases raw.len() - j,
{
    if j >= raw.len() {
        raw.len() as int
    } else if raw[j].depth <= raw[i].depth {
        j
    } else {
        subtree_end_from(raw, i, j + 1)
    }
}

/// The index just past the subtree of raw node `i`: the root spans every
/// node; any other node's subtree ends at the next node no deeper than it.
pub open spec fn subtree_end(raw: Seq<RawNode>, i: int) -> int {
    if i == 0 {
        raw.len() as int
    } else {
        subtree_end_from(raw, i, i + 1)
    }
}

proof fn lemma_subtree_end_from(raw: Seq<RawNode>, i: int, j: int)
    requires
        j <= raw.len(),
    ensures
        j <= subtree_end_from(raw, i, j) <= raw.len(),
    decreases raw.len() - j,
{
    if j < raw.len() {
        lemma_subtree_end_from(raw, i, j + 1);
    }
}

/// The model of raw node `i` of `raw`.
pub open spec fn model_node(raw: Seq<RawNode>, i: int) -> SyntaxNode {
    let r = raw[i];
    SyntaxNode {
        kind: kind_of(r.kind@),
        is_named: r.is_named,
        field: field_of(
            match r.field {
                Some(f) => Some(f@),
                None => None,
            },
        ),
        depth: r.depth as usize,
        end: subtree_end(raw, i) as usize,
        start_byte: r.start_byte,
        end_byte: r.end_byte,
        start_row: bounded(r.start.0),
        start_column: bounded(r.start.1),
        end_row: bounded(r.end.0),
        end_column: bounded(r.end.1),
    }
}

/// The model of the raw nodes `raw`, one for one.
pub open spec fn model_nodes(raw: Seq<RawNode>) -> Seq<SyntaxNode> {
    Seq::new(raw.len(), |i: int| model_node(raw, i))
}

/// The model of the tree that the Python grammar gives for `source`.
pub open spec fn python_tree(source: Seq<char>) -> Seq<SyntaxNode> {
    model_nodes(python_nodes(source))
}

fn position_bound(x: usize) -> (r: usize)
    ensures
        r == bounded(x),
{
    if x == usize::MAX {
        x - 1
    } else {
        x
    }
}

impl SyntaxTree {
    /// The model of raw nodes read from a `tree-sitter` tree, one for one.
    pub fn from_raw(raw: &Vec<RawNode>) -> (t: SyntaxTree)
        ensures
            t.nodes@ == model_nodes(raw@),
            t.wf(),
    {
        let count = raw.len();
        let mut nodes: Vec<SyntaxNode> = Vec::new();
        let mut i: usize = 0;
        while i < count
            invariant
                count == raw@.len(),
                nodes@.len() == i,
                i <= count,
                forall|k: int| 0 <= k < i ==> #[trigger] nodes@[k] == model_node(raw@, k),
            decreases count - i,
        {
            let r = raw[i];
            let field = classify_field(r.field);
            let end = if i == 0 {
                count
            } else {
                let mut j: usize = i + 1;
                while j < count && raw[j].depth > r.depth
                    invariant
                        count == raw@.len(),
                        0 < i < count,
                        r == raw@[i as int],
                        i + 1 <= j <= count,
                        subtree_end_from(raw@, i as int, i + 1) == subtree_end_from(raw@, i as int, j as int),
                    decreases count - j,
                {
                    j += 1;
                }
                j
            };
            proof {
                if i > 0 {
                    lemma_subtree_end_from(raw@, i as int, i + 1);
                }
            }
            let node = SyntaxNode {
                kind: classify_kind(r.kind),
                is_named: r.is_named,
                field,
                depth: r.depth as usize,
                end,
                start_byte: r.start_byte,
                end_byte: r.end_byte,
                start_row: position_bound(r.start.0),
                start_column: position_bound(r.start.1),
                end_row: position_bound(r.end.0),
                end_column: position_bound(r.end.1),
            };
            assert(node == model_node(raw@, i as int));
            nodes.push(node);
            i += 1;
        }
        let t = SyntaxTree { nodes };
        assert(t.nodes@ =~= model_nodes(raw@));
        assert forall|k: int| 0 <= k < t.nodes@.len() implies #[trigger] node_ok(t.nodes@, k) by {
            assert(t.nodes@[k] == model_node(raw@, k));
            if k > 0 {
                lemma_subtree_end_from(raw@, k, k + 1);
            }
        }
        t
    }
}

/// Parse Python source into the syntax model. `tree-sitter` recovers from
/// errors, so every source, malformed Python included, yields a tree.
pub fn parse(source: &str) -> (r: Option<SyntaxTree>)
    ensures
        r matches Some(t) && t.nodes@ == python_tree(source@) && t.wf(),
{
    match parse_python(source) {
        Some(raw) => Some(SyntaxTree::from_raw(&raw)),
        None => None,
    }
}

} // verus!
