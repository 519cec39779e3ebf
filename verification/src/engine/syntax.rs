//! A plain model of a Python syntax tree: its nodes in pre-order, each with
//! its kind, the field it fills in its parent, its depth, the index just past
//! its subtree, and its source span.

use vstd::prelude::*;
use vstd::utf8::*;

use crate::text::str_eq;

verus! {

/// The node kinds of the Python grammar that the analysis looks at.
#[derive(Clone, Copy, Debug, PartialEq, Eq, Structural)]
pub enum NodeKind {
    Identifier,
    ParenthesizedExpression,
    Call,
    Attribute,
    Subscript,
    Assignment,
    Comment,
    ForStatement,
    IfStatement,
    Other,
}

/// The field names of the Python grammar that the analysis looks at.
#[derive(Clone, Copy, Debug, PartialEq, Eq, Structural)]
pub enum FieldName {
    Function,
    Arguments,
    Attribute,
    Object,
    Value,
    Left,
    Right,
    Body,
    Condition,
    Consequence,
    Other,
    /// The node fills no field of its parent.
    Absent,
}

/// The kind that the grammar's kind name `k` stands for.
pub open spec fn kind_of(k: Seq<char>) -> NodeKind {
    if k == "identifier"@ {
        NodeKind::Identifier
    } else if k == "parenthesized_expression"@ {
        NodeKind::ParenthesizedExpression
    } else if k == "call"@ {
        NodeKind::Call
    } else if k == "attribute"@ {
        NodeKind::Attribute
    } else if k == "subscript"@ {
        NodeKind::Subscript
    } else if k == "assignment"@ {
        NodeKind::Assignment
    } else if k == "comment"@ {
        NodeKind::Comment
    } else if k == "for_statement"@ {
        NodeKind::ForStatement
    } else if k == "if_statement"@ {
        NodeKind::IfStatement
    } else {
        NodeKind::Other
    }
}

/// Classify a grammar kind name.
pub fn classify_kind(k: &str) -> (r: NodeKind)
    ensures
        r == kind_of(k@),
{
    if str_eq(k, "identifier") {
        NodeKind::Identifier
    } else if str_eq(k, "parenthesized_expression") {
        NodeKind::ParenthesizedExpression
    } else if str_eq(k, "call") {
        NodeKind::Call
    } else if str_eq(k, "attribute") {
        NodeKind::Attribute
    } else if str_eq(k, "subscript") {
        NodeKind::Subscript
    } else if str_eq(k, "assignment") {
        NodeKind::Assignment
    } else if str_eq(k, "comment") {
        NodeKind::Comment
    } else if str_eq(k, "for_statement") {
        NodeKind::ForStatement
    } else if str_eq(k, "if_statement") {
        NodeKind::IfStatement
    } else {
        NodeKind::Other
    }
}

/// The field that the grammar's field name `f` stands for.
pub open spec fn field_of(f: Option<Seq<char>>) -> FieldName {
    match f {
        None => FieldName::Absent,
        Some(f) => if f == "function"@ {
            FieldName::Function
        } else if f == "arguments"@ {
            FieldName::Arguments
        } else if f == "attribute"@ {
            FieldName::Attribute
        } else if f == "object"@ {
            FieldName::Object
        } else if f == "value"@ {
            FieldName::Value
        } else if f == "left"@ {
            FieldName::Left
        } else if f == "right"@ {
            FieldName::Right
        } else if f == "body"@ {
            FieldName::Body
        } else if f == "condition"@ {
            FieldName::Condition
        } else if f == "consequence"@ {
            FieldName::Consequence
        } else {
            FieldName::Other
        },
    }
}

/// Classify a grammar field name.
pub fn classify_field(f: Option<&str>) -> (r: FieldName)
    ensures
        r == field_of(
            match f {
                Some(s) => Some(s@),
                None => None,
            },
        ),
{
    match f {
        None => FieldName::Absent,
        Some(f) => if str_eq(f, "function") {
            FieldName::Function
        } else if str_eq(f, "arguments") {
            FieldName::Arguments
        } else if str_eq(f, "attribute") {
            FieldName::Attribute
        } else if str_eq(f, "object") {
            FieldName::Object
        } else if str_eq(f, "value") {
            FieldName::Value
        } else if str_eq(f, "left") {
            FieldName::Left
        } else if str_eq(f, "right") {
            FieldName::Right
        } else if str_eq(f, "body") {
            FieldName::Body
        } else if str_eq(f, "condition") {
            FieldName::Condition
        } else if str_eq(f, "consequence") {
            FieldName::Consequence
        } else {
            FieldName::Other
        },
    }
}

/// One node of the tree.
#[derive(Clone, Copy, Debug, PartialEq, Eq, Structural)]
pub struct SyntaxNode {
    pub kind: NodeKind,
    pub is_named: bool,
    /// The field of its parent that the node fills.
    pub field: FieldName,
    /// Distance from the root (0 for the root).
    pub depth: usize,
    /// Index just past the node's subtree in pre-order.
    pub end: usize,
    pub start_byte: usize,
    pub end_byte: usize,
    /// 0-based row and column of the span's start and end.
    pub start_row: usize,
    pub start_column: usize,
    pub end_row: usize,
    pub end_column: usize,
}

/// A syntax tree: its nodes in pre-order, the root first.
pub struct SyntaxTree {
    pub nodes: Vec<SyntaxNode>,
}

/// Node `i` of `ns` is well formed: its subtree lies within `ns` after it, and
/// its 0-based positions can be made 1-based.
pub open spec fn node_ok(ns: Seq<SyntaxNode>, i: int) -> bool {
    &&& i < ns[i].end <= ns.len()
    &&& ns[i].start_row < usize::MAX
    &&& ns[i].start_column < usize::MAX
    &&& ns[i].end_row < usize::MAX
    &&& ns[i].end_column < usize::MAX
}

/// Every node of `ns` is well formed.
pub open spec fn nodes_wf(ns: Seq<SyntaxNode>) -> bool {
    forall|i: int| 0 <= i < ns.len() ==> #[trigger] node_ok(ns, i)
}

/// `j` is a child of `i`: inside `i`'s subtree, one level deeper.
pub open spec fn is_child(ns: Seq<SyntaxNode>, i: int, j: int) -> bool {
    i < j < ns[i].end && ns[j].depth == ns[i].depth + 1
}

/// The first child of `i` at index `j` or later that fills field `f`.
pub open spec fn field_child_from(ns: Seq<SyntaxNode>, i: int, f: FieldName, j: int) -> Option<int>
    decreases ns[i].end - j,
{
    if j >= ns[i].end {
        None
    } else if ns[j].depth == ns[i].depth + 1 && ns[j].field == f {
        Some(j)
    } else {
        field_child_from(ns, i, f, j + 1)
    }
}

/// The first child of `i` that fills field `f` (`Node::child_by_field_name`).
pub open spec fn field_child(ns: Seq<SyntaxNode>, i: int, f: FieldName) -> Option<int> {
    field_child_from(ns, i, f, i + 1)
}

/// The first named child of `i` at index `j` or later.
pub open spec fn named_child_from(ns: Seq<SyntaxNode>, i: int, j: int) -> Option<int>
    decreases ns[i].end - j,
{
    if j >= ns[i].end {
        None
    } else if ns[j].depth == ns[i].depth + 1 && ns[j].is_named {
        Some(j)
    } else {
        named_child_from(ns, i, j + 1)
    }
}

/// The first named child of `i` (`Node::named_child(0)`).
pub open spec fn first_named_child(ns: Seq<SyntaxNode>, i: int) -> Option<int> {
    named_child_from(ns, i, i + 1)
}

/// The named children of `i` other than comments, at index `j` or later, in order.
pub open spec fn significant_from(ns: Seq<SyntaxNode>, i: int, j: int) -> Seq<int>
    decreases ns[i].end - j,
{
    if j >= ns[i].end {
        seq![]
    } else if ns[j].depth == ns[i].depth + 1 && ns[j].is_named && ns[j].kind != NodeKind::Comment {
        seq![j] + significant_from(ns, i, j + 1)
    } else {
        significant_from(ns, i, j + 1)
    }
}

/// The named children of `i` other than comments, in order.
pub open spec fn significant_children(ns: Seq<SyntaxNode>, i: int) -> Seq<int> {
    significant_from(ns, i, i + 1)
}

/// The text that the byte range `start..end` of `src` holds, or the empty text
/// when the range is not one of whole characters (`str::get` then `unwrap_or("")`).
pub open spec fn text_of(src: Seq<u8>, start: int, end: int) -> Seq<char> {
    if start <= end && is_char_boundary(src, start) && is_char_boundary(src, end) {
        decode_utf8(src.subrange(start, end))
    } else {
        Seq::empty()
    }
}

/// The source text of node `i`.
pub open spec fn node_text_of(ns: Seq<SyntaxNode>, src: Seq<u8>, i: int) -> Seq<char> {
    text_of(src, ns[i].start_byte as int, ns[i].end_byte as int)
}

pub proof fn lemma_field_child_from(ns: Seq<SyntaxNode>, i: int, f: FieldName, j: int)
    requires
        0 <= i < j,
    ensures
        field_child_from(ns, i, f, j) matches Some(c) ==> j <= c < ns[i].end && is_child(ns, i, c)
            && ns[c].field == f,
    decreases ns[i].end - j,
{
    if j < ns[i].end {
        lemma_field_child_from(ns, i, f, j + 1);
    }
}

pub proof fn lemma_named_child_from(ns: Seq<SyntaxNode>, i: int, j: int)
    requires
        0 <= i < j,
    ensures
        named_child_from(ns, i, j) matches Some(c) ==> j <= c < ns[i].end && is_child(ns, i, c)
            && ns[c].is_named,
    decreases ns[i].end - j,
{
    if j < ns[i].end {
        lemma_named_child_from(ns, i, j + 1);
    }
}

pub proof fn lemma_significant_from(ns: Seq<SyntaxNode>, i: int, j: int)
    ensures
        forall|k: int|
            0 <= k < significant_from(ns, i, j).len() ==> j <= #[trigger] significant_from(
                ns,
                i,
                j,
            )[k] < ns[i].end,
    decreases ns[i].end - j,
{
    if j < ns[i].end {
        lemma_significant_from(ns, i, j + 1);
        let rest = significant_from(ns, i, j + 1);
        let all = significant_from(ns, i, j);
        assert forall|k: int| 0 <= k < all.len() implies j <= #[trigger] all[k] < ns[i].end by {
            if all != rest {
                assert(all == seq![j] + rest);
                if k > 0 {
                    assert(all[k] == rest[k - 1]);
                }
            }
        }
    }
}

impl SyntaxTree {
    /// Every node is well formed.
    pub open spec fn wf(&self) -> bool {
        nodes_wf(self.nodes@)
    }

    /// Number of nodes.
    pub fn len(&self) -> (r: usize)
        ensures
            r == self.nodes@.len(),
    {
        self.nodes.len()
    }

    /// The first child of `node` that fills `field`.
    pub fn child_by_field_name(&self, node: usize, field: FieldName) -> (r: Option<usize>)
        requires
            self.wf(),
            node < self.nodes@.len(),
        ensures
            match r {
                Some(c) => field_child(self.nodes@, node as int, field) == Some(c as int),
                None => field_child(self.nodes@, node as int, field) is None,
            },
            r matches Some(c) ==> node < c < self.nodes@.len(),
    {
        let ghost ns = self.nodes@;
        assert(node_ok(ns, node as int));
        let end = self.nodes[node].end;
        let depth = self.nodes[node].depth;
        let mut j = node + 1;
        while j < end
            invariant
                ns == self.nodes@,
                nodes_wf(ns),
                node < j <= end,
                end == ns[node as int].end,
                end <= ns.len(),
                depth == ns[node as int].depth,
                field_child_from(ns, node as int, field, j as int) == field_child(
                    ns,
                    node as int,
                    field,
                ),
            decreases end - j,
        {
            let n = self.nodes[j];
            if n.depth > 0 && n.depth - 1 == depth && n.field == field {
                return Some(j);
            }
            j += 1;
        }
        None
    }

    /// The first named child of `node` (`Node::named_child(0)`).
    pub fn named_child(&self, node: usize) -> (r: Option<usize>)
        requires
            self.wf(),
            node < self.nodes@.len(),
        ensures
            match r {
                Some(c) => first_named_child(self.nodes@, node as int) == Some(c as int),
                None => first_named_child(self.nodes@, node as int) is None,
            },
            r matches Some(c) ==> node < c < self.nodes@.len(),
    {
        let ghost ns = self.nodes@;
        assert(node_ok(ns, node as int));
        let end = self.nodes[node].end;
        let depth = self.nodes[node].depth;
        let mut j = node + 1;
        while j < end
            invariant
                ns == self.nodes@,
                nodes_wf(ns),
                node < j <= end,
                end == ns[node as int].end,
                end <= ns.len(),
                depth == ns[node as int].depth,
                named_child_from(ns, node as int, j as int) == first_named_child(ns, node as int),
            decreases end - j,
        {
            let n = self.nodes[j];
            if n.depth > 0 && n.depth - 1 == depth && n.is_named {
                return Some(j);
            }
            j += 1;
        }
        None
    }
}

} // verus!
