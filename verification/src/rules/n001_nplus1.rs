//! N001 — N+1 query anti-pattern.
//!
//! Detects iterating a QuerySet and then, inside the loop body, reaching
//! across a relation on the loop variable (`item.author.name`). Without
//! `select_related`/`prefetch_related` each iteration issues an extra query.
//! Only a two-level attribute access rooted at the loop variable counts
//! (`item.<relation>.<...>`): a one-level access reads a plain column.

use vstd::prelude::*;
use vstd::string::{StringExecFns, StringSliceAdditionalSpecFns};
use vstd::utf8::encode_utf8;

use crate::diagnostic::{diag_views, diagnostic_at, Diagnostic, DiagnosticView, Severity};
use crate::engine::queryset::{
    eager_loaded, eagerly_bound, expr_is_queryset, has_eager_loading, is_eagerly_bound, is_queryset_expr,
    module_assignment_list, module_assignments,
};
use crate::engine::syntax::{field_child, node_text_of, FieldName, NodeKind, SyntaxNode, SyntaxTree};
use crate::engine::util::{node_text, walk_preorder};
use crate::engine::FileUnit;
use crate::rules::{concat_range, lemma_concat_range_holds, scan_end, Rule};
use crate::text::{bytes_contain, join3, join5, str_eq};

verus! {

pub const CODE: &'static str = "N001";

pub const NAME: &'static str = "n-plus-one";

pub const DESCRIPTION: &'static str =
    "Iterating a QuerySet and accessing related objects per row causes N+1 queries.";

pub const LABEL: &'static str = "related lookup runs every iteration";

/// The message of an N001 finding on the related access `access`.
pub open spec fn n001_message(access: Seq<char>) -> Seq<char> {
    "`"@ + access + "` follows a relation inside a loop, issuing one query per iteration (N+1)"@
}

/// The help of an N001 finding on a loop over `iter`.
pub open spec fn n001_help(iter: Seq<char>) -> Seq<char> {
    "Eager-load the relation on the QuerySet, e.g. `"@ + iter
        + ".select_related(\"…\")` for ForeignKey/OneToOne or `"@ + iter
        + ".prefetch_related(\"…\")` for ManyToMany / reverse FK."@
}

/// When node `n` is `<base>.<a>.<b>` with `<base>` the name `var`, the node of
/// `<base>.<a>`: the access that reaches across a relation.
pub open spec fn related_access(ns: Seq<SyntaxNode>, src: Seq<u8>, n: int, var: Seq<char>) -> Option<
    int,
> {
    if ns[n].kind != NodeKind::Attribute {
        None
    } else {
        match field_child(ns, n, FieldName::Object) {
            None => None,
            Some(inner) => if ns[inner].kind != NodeKind::Attribute {
                None
            } else {
                match field_child(ns, inner, FieldName::Object) {
                    None => None,
                    Some(base) => if ns[base].kind == NodeKind::Identifier && node_text_of(
                        ns,
                        src,
                        base,
                    ) == var {
                        Some(inner)
                    } else {
                        None
                    },
                }
            },
        }
    }
}

/// The findings of a walk of a loop body from `b` up to `m`, with the start
/// offsets of the accesses already reported: an access is reported once.
pub open spec fn n001_walk(
    ns: Seq<SyntaxNode>,
    src: Seq<u8>,
    var: Seq<char>,
    iter: Seq<char>,
    b: int,
    m: int,
) -> (Seq<DiagnosticView>, Seq<usize>)
    decreases m - b,
{
    if m <= b {
        (seq![], seq![])
    } else {
        let prev = n001_walk(ns, src, var, iter, b, m - 1);
        match related_access(ns, src, m - 1, var) {
            Some(acc) => if prev.1.contains(ns[acc].start_byte) {
                prev
            } else {
                (
                    prev.0.push(
                        diagnostic_at(
                            CODE@,
                            NAME@,
                            Severity::Warning,
                            ns,
                            acc,
                            n001_message(node_text_of(ns, src, acc)),
                            LABEL@,
                            Some(n001_help(iter)),
                        ),
                    ),
                    prev.1.push(ns[acc].start_byte),
                )
            },
            None => prev,
        }
    }
}

/// The iterable node `it` is eager-loaded: its own text holds a hint, or it
/// is a name that the module binds to QuerySet expressions, each holding one.
pub open spec fn iterable_eager(ns: Seq<SyntaxNode>, src: Seq<u8>, vars: Set<Seq<char>>, it: int) -> bool {
    eager_loaded(ns, src, it) || (ns[it].kind == NodeKind::Identifier && eagerly_bound(
        ns,
        src,
        vars,
        node_text_of(ns, src, it),
    ))
}

/// The N001 findings of node `i`: for a `for` loop with a plain loop variable
/// (not `_`) over a QuerySet without eager loading, each distinct related
/// access on the loop variable in its body.
pub open spec fn n001_at(
    ns: Seq<SyntaxNode>,
    src: Seq<u8>,
    vars: Set<Seq<char>>,
    i: int,
) -> Seq<DiagnosticView> {
    if ns[i].kind != NodeKind::ForStatement {
        seq![]
    } else {
        match (
            field_child(ns, i, FieldName::Left),
            field_child(ns, i, FieldName::Right),
            field_child(ns, i, FieldName::Body),
        ) {
            (Some(t), Some(it), Some(b)) => {
                let var = node_text_of(ns, src, t);
                if ns[t].kind != NodeKind::Identifier || var == "_"@ || !is_queryset_expr(
                    ns,
                    src,
                    vars,
                    it,
                ) || iterable_eager(ns, src, vars, it) {
                    seq![]
                } else {
                    n001_walk(ns, src, var, node_text_of(ns, src, it), b, ns[b].end as int).0
                }
            },
            _ => seq![],
        }
    }
}

/// [`n001_at`] as a function of the node.
pub open spec fn n001_fn(ns: Seq<SyntaxNode>, src: Seq<u8>, vars: Set<Seq<char>>) -> spec_fn(
    int,
) -> Seq<DiagnosticView> {
    |i: int| n001_at(ns, src, vars, i)
}

/// All N001 findings of a module, in pre-order of the loops.
pub open spec fn n001_findings(
    ns: Seq<SyntaxNode>,
    src: Seq<u8>,
    vars: Set<Seq<char>>,
) -> Seq<DiagnosticView> {
    concat_range(n001_fn(ns, src, vars), 0, scan_end(ns))
}

/// Every finding of a loop-body walk carries the code N001.
pub proof fn lemma_n001_walk_code(
    ns: Seq<SyntaxNode>,
    src: Seq<u8>,
    var: Seq<char>,
    iter: Seq<char>,
    b: int,
    m: int,
)
    ensures
        forall|k: int|
            0 <= k < n001_walk(ns, src, var, iter, b, m).0.len() ==> (#[trigger] n001_walk(
                ns,
                src,
                var,
                iter,
                b,
                m,
            ).0[k]).code == CODE@,
    decreases m - b,
{
    if m > b {
        lemma_n001_walk_code(ns, src, var, iter, b, m - 1);
        let prev = n001_walk(ns, src, var, iter, b, m - 1);
        let cur = n001_walk(ns, src, var, iter, b, m);
        assert forall|k: int| 0 <= k < cur.0.len() implies (#[trigger] cur.0[k]).code == CODE@ by {
            if k < prev.0.len() {
                assert(cur.0[k] == prev.0[k]);
            }
        }
    }
}

/// A walk reports each related access once: the findings of a loop body have
/// pairwise distinct start offsets, exactly the offsets it records as seen.
pub proof fn law_n001_walk_reports_once(
    ns: Seq<SyntaxNode>,
    src: Seq<u8>,
    var: Seq<char>,
    iter: Seq<char>,
    b: int,
    m: int,
)
    ensures
        n001_walk(ns, src, var, iter, b, m).0.len() == n001_walk(ns, src, var, iter, b, m).1.len(),
        forall|k: int|
            0 <= k < n001_walk(ns, src, var, iter, b, m).0.len() ==> (#[trigger] n001_walk(
                ns,
                src,
                var,
                iter,
                b,
                m,
            ).0[k]).start_byte == n001_walk(ns, src, var, iter, b, m).1[k] as int,
        n001_walk(ns, src, var, iter, b, m).1.no_duplicates(),
    decreases m - b,
{
    if m > b {
        law_n001_walk_reports_once(ns, src, var, iter, b, m - 1);
        let prev = n001_walk(ns, src, var, iter, b, m - 1);
        let cur = n001_walk(ns, src, var, iter, b, m);
        if let Some(acc) = related_access(ns, src, m - 1, var) {
            if !prev.1.contains(ns[acc].start_byte) {
                assert forall|k: int| 0 <= k < cur.0.len() implies (#[trigger] cur.0[k]).start_byte
                    == cur.1[k] as int by {
                    if k < prev.0.len() {
                        assert(cur.0[k] == prev.0[k]);
                        assert(cur.1[k] == prev.1[k]);
                    }
                }
                assert forall|i: int, j: int|
                    0 <= i < cur.1.len() && 0 <= j < cur.1.len() && i != j implies cur.1[i]
                    != cur.1[j] by {
                    if i == prev.1.len() as int {
                        assert(prev.1[j] == cur.1[j]);
                    } else if j == prev.1.len() as int {
                        assert(prev.1[i] == cur.1[i]);
                    } else {
                        assert(prev.1[i] == cur.1[i]);
                        assert(prev.1[j] == cur.1[j]);
                    }
                }
            }
        }
    }
}

proof fn lemma_n001_walk_sees(
    ns: Seq<SyntaxNode>,
    src: Seq<u8>,
    var: Seq<char>,
    iter: Seq<char>,
    b: int,
    m: int,
    n: int,
    acc: int,
)
    requires
        b <= n < m,
        related_access(ns, src, n, var) == Some(acc),
    ensures
        n001_walk(ns, src, var, iter, b, m).1.contains(ns[acc].start_byte),
    decreases m - b,
{
    let prev = n001_walk(ns, src, var, iter, b, m - 1);
    let cur = n001_walk(ns, src, var, iter, b, m);
    if n < m - 1 {
        lemma_n001_walk_sees(ns, src, var, iter, b, m - 1, n, acc);
        let w = choose|w: int| 0 <= w < prev.1.len() && prev.1[w] == ns[acc].start_byte;
        if let Some(a2) = related_access(ns, src, m - 1, var) {
            if !prev.1.contains(ns[a2].start_byte) {
                assert(cur.1[w] == prev.1[w]);
            }
        }
    } else {
        if !prev.1.contains(ns[acc].start_byte) {
            assert(cur.1[prev.1.len() as int] == ns[acc].start_byte);
        }
    }
}

/// N001 reports every related access in the body of a loop that it checks:
/// in a `for` loop whose target is a plain name `v` (not `_`) and whose
/// iterable is a QuerySet without eager loading, each attribute node
/// `v.a.b` anywhere in the body (whatever it stands in, a call's callee
/// included) gives an N001 finding that starts where `v.a` starts.
pub proof fn law_n001_reports_related_access(
    ns: Seq<SyntaxNode>,
    src: Seq<u8>,
    vars: Set<Seq<char>>,
    i: int,
    target: int,
    iterable: int,
    body: int,
    n: int,
    inner: int,
    base: int,
)
    requires
        0 <= i < ns.len(),
        ns[i].kind == NodeKind::ForStatement,
        field_child(ns, i, FieldName::Left) == Some(target),
        field_child(ns, i, FieldName::Right) == Some(iterable),
        field_child(ns, i, FieldName::Body) == Some(body),
        ns[target].kind == NodeKind::Identifier,
        node_text_of(ns, src, target) != "_"@,
        is_queryset_expr(ns, src, vars, iterable),
        !eager_loaded(ns, src, iterable),
        !(ns[iterable].kind == NodeKind::Identifier && eagerly_bound(
            ns,
            src,
            vars,
            node_text_of(ns, src, iterable),
        )),
        body <= n < ns[body].end,
        ns[n].kind == NodeKind::Attribute,
        field_child(ns, n, FieldName::Object) == Some(inner),
        ns[inner].kind == NodeKind::Attribute,
        field_child(ns, inner, FieldName::Object) == Some(base),
        ns[base].kind == NodeKind::Identifier,
        node_text_of(ns, src, base) == node_text_of(ns, src, target),
    ensures
        exists|k: int|
            0 <= k < n001_at(ns, src, vars, i).len() && (#[trigger] n001_at(ns, src, vars, i)[k]).code
                == "N001"@ && n001_at(ns, src, vars, i)[k].start_byte == ns[inner].start_byte,
        i < scan_end(ns) ==> exists|q: int|
            0 <= q < n001_findings(ns, src, vars).len() && (#[trigger] n001_findings(ns, src, vars)[q]).code
                == "N001"@ && n001_findings(ns, src, vars)[q].start_byte == ns[inner].start_byte,
{
    let var = node_text_of(ns, src, target);
    let iter = node_text_of(ns, src, iterable);
    let m = ns[body].end as int;
    assert(related_access(ns, src, n, var) == Some(inner));
    lemma_n001_walk_sees(ns, src, var, iter, body, m, n, inner);
    law_n001_walk_reports_once(ns, src, var, iter, body, m);
    lemma_n001_walk_code(ns, src, var, iter, body, m);
    let w = n001_walk(ns, src, var, iter, body, m);
    let k = choose|k: int| 0 <= k < w.1.len() && w.1[k] == ns[inner].start_byte;
    assert(n001_at(ns, src, vars, i) == w.0);
    assert(w.0[k].start_byte == w.1[k] as int);
    assert(w.0[k].code == CODE@);
    if i < scan_end(ns) {
        assert(n001_fn(ns, src, vars)(i) == n001_at(ns, src, vars, i));
        lemma_concat_range_holds(n001_fn(ns, src, vars), 0, scan_end(ns), i, k);
        let all = concat_range(n001_fn(ns, src, vars), 0, scan_end(ns));
        assert(n001_findings(ns, src, vars) == all);
        let q = choose|q: int| 0 <= q < all.len() && #[trigger] all[q] == n001_fn(ns, src, vars)(i)[k];
        assert(n001_findings(ns, src, vars)[q] == w.0[k]);
    }
}

/// Node `n` is an attribute `v.a.b` on the name `var`, and `inner` its `v.a`.
pub open spec fn is_access_through(ns: Seq<SyntaxNode>, src: Seq<u8>, n: int, var: Seq<char>, inner: int) -> bool {
    &&& ns[n].kind == NodeKind::Attribute
    &&& field_child(ns, n, FieldName::Object) == Some(inner)
    &&& ns[inner].kind == NodeKind::Attribute
    &&& match field_child(ns, inner, FieldName::Object) {
        Some(base) => ns[base].kind == NodeKind::Identifier && node_text_of(ns, src, base) == var,
        None => false,
    }
}

/// Some attribute `v.a.b` on the name `var` among the nodes from `lo` up to
/// `hi` has its `v.a` start at byte `start`.
pub open spec fn access_starts_at(
    ns: Seq<SyntaxNode>,
    src: Seq<u8>,
    var: Seq<char>,
    lo: int,
    hi: int,
    start: int,
) -> bool {
    exists|n: int|
        lo <= n < hi && match #[trigger] field_child(ns, n, FieldName::Object) {
            Some(inner) => is_access_through(ns, src, n, var, inner) && start == ns[inner].start_byte,
            None => false,
        }
}

proof fn lemma_n001_walk_from(
    ns: Seq<SyntaxNode>,
    src: Seq<u8>,
    var: Seq<char>,
    iter: Seq<char>,
    b: int,
    m: int,
)
    ensures
        forall|k: int|
            0 <= k < n001_walk(ns, src, var, iter, b, m).0.len() ==> access_starts_at(
                ns,
                src,
                var,
                b,
                m,
                (#[trigger] n001_walk(ns, src, var, iter, b, m).0[k]).start_byte,
            ),
    decreases m - b,
{
    if m > b {
        lemma_n001_walk_from(ns, src, var, iter, b, m - 1);
        let prev = n001_walk(ns, src, var, iter, b, m - 1);
        let cur = n001_walk(ns, src, var, iter, b, m);
        assert forall|k: int| 0 <= k < cur.0.len() implies access_starts_at(
            ns,
            src,
            var,
            b,
            m,
            (#[trigger] cur.0[k]).start_byte,
        ) by {
            if k < prev.0.len() {
                assert(cur.0[k] == prev.0[k]) by {
                    if let Some(acc) = related_access(ns, src, m - 1, var) {
                        if !prev.1.contains(ns[acc].start_byte) {
                            assert(cur.0 == prev.0.push(cur.0[prev.0.len() as int]));
                        }
                    }
                }
                assert(access_starts_at(ns, src, var, b, m - 1, prev.0[k].start_byte));
                let n = choose|n: int|
                    b <= n < m - 1 && match #[trigger] field_child(ns, n, FieldName::Object) {
                        Some(inner) => is_access_through(ns, src, n, var, inner) && prev.0[k].start_byte
                            == ns[inner].start_byte,
                        None => false,
                    };
                assert(b <= n < m);
            } else {
                let acc = related_access(ns, src, m - 1, var).unwrap();
                assert(is_access_through(ns, src, m - 1, var, acc));
                assert(field_child(ns, m - 1, FieldName::Object) == Some(acc));
            }
        }
    }
}

/// N001 reports nothing else: each N001 finding of a node comes from a
/// `for` loop with a plain loop variable `v` (not `_`) over a QuerySet
/// without eager loading, and starts where `v.a` starts for some attribute
/// `v.a.b` in the loop body.
pub proof fn law_n001_reports_only_related_accesses(
    ns: Seq<SyntaxNode>,
    src: Seq<u8>,
    vars: Set<Seq<char>>,
    i: int,
    k: int,
)
    requires
        0 <= k < n001_at(ns, src, vars, i).len(),
    ensures
        ns[i].kind == NodeKind::ForStatement,
        match (
            field_child(ns, i, FieldName::Left),
            field_child(ns, i, FieldName::Right),
            field_child(ns, i, FieldName::Body),
        ) {
            (Some(target), Some(iterable), Some(body)) => {
                &&& ns[target].kind == NodeKind::Identifier
                &&& node_text_of(ns, src, target) != "_"@
                &&& is_queryset_expr(ns, src, vars, iterable)
                &&& !eager_loaded(ns, src, iterable)
                &&& !(ns[iterable].kind == NodeKind::Identifier && eagerly_bound(
                    ns,
                    src,
                    vars,
                    node_text_of(ns, src, iterable),
                ))
                &&& access_starts_at(
                    ns,
                    src,
                    node_text_of(ns, src, target),
                    body as int,
                    ns[body].end as int,
                    n001_at(ns, src, vars, i)[k].start_byte,
                )
            },
            _ => false,
        },
{
    let target = field_child(ns, i, FieldName::Left).unwrap();
    let iterable = field_child(ns, i, FieldName::Right).unwrap();
    let body = field_child(ns, i, FieldName::Body).unwrap();
    let var = node_text_of(ns, src, target);
    lemma_n001_walk_from(ns, src, var, node_text_of(ns, src, iterable), body, ns[body].end as int);
}

/// Every N001 finding at a node carries the code N001.
pub proof fn lemma_n001_at_code(ns: Seq<SyntaxNode>, src: Seq<u8>, vars: Set<Seq<char>>, i: int)
    ensures
        forall|k: int|
            0 <= k < n001_at(ns, src, vars, i).len() ==> (#[trigger] n001_at(ns, src, vars, i)[k]).code
                == CODE@,
{
    if ns[i].kind == NodeKind::ForStatement {
        match (
            field_child(ns, i, FieldName::Left),
            field_child(ns, i, FieldName::Right),
            field_child(ns, i, FieldName::Body),
        ) {
            (Some(t), Some(it), Some(b)) => {
                lemma_n001_walk_code(
                    ns,
                    src,
                    node_text_of(ns, src, t),
                    node_text_of(ns, src, it),
                    b,
                    ns[b].end as int,
                );
            },
            _ => {},
        }
    }
}

/// The related access that node `n` makes on the loop variable `loop_var`.
fn find_related_access(tree: &SyntaxTree, n: usize, loop_var: &str, source: &str) -> (r: Option<
    usize,
>)
    requires
        tree.wf(),
        n < tree.nodes@.len(),
    ensures
        match r {
            Some(a) => related_access(tree.nodes@, source.spec_bytes(), n as int, loop_var@) == Some(
                a as int,
            ),
            None => related_access(tree.nodes@, source.spec_bytes(), n as int, loop_var@) is None,
        },
        r matches Some(a) ==> a < tree.nodes@.len(),
{
    if tree.nodes[n].kind != NodeKind::Attribute {
        return None;
    }
    let inner = match tree.child_by_field_name(n, FieldName::Object) {
        Some(i) => i,
        None => return None,
    };
    if tree.nodes[inner].kind != NodeKind::Attribute {
        return None;
    }
    let base = match tree.child_by_field_name(inner, FieldName::Object) {
        Some(b) => b,
        None => return None,
    };
    if tree.nodes[base].kind == NodeKind::Identifier && str_eq(
        node_text(tree, base, source),
        loop_var,
    ) {
        Some(inner)
    } else {
        None
    }
}

/// Whether `x` is one of `v`.
fn contains_offset(v: &Vec<usize>, x: usize) -> (r: bool)
    ensures
        r == v@.contains(x),
{
    let mut i: usize = 0;
    while i < v.len()
        invariant
            0 <= i <= v@.len(),
            forall|k: int| 0 <= k < i ==> v@[k] != x,
        decreases v.len() - i,
    {
        if v[i] == x {
            assert(v@[i as int] == x);
            return true;
        }
        i += 1;
    }
    false
}

/// The N001 rule.
pub struct NPlusOne;

impl NPlusOne {
    pub fn new() -> Self {
        NPlusOne
    }
}

/// The N001 findings of node `i`.
fn findings_at(unit: &FileUnit, assignments: &Vec<(&str, usize)>, i: usize) -> (r: Vec<Diagnostic>)
    requires
        unit.tree.wf(),
        i < unit.tree.nodes@.len(),
        assignments@.len() == module_assignments(unit.tree.nodes@, unit.source.spec_bytes()).len(),
        forall|k: int|
            0 <= k < assignments@.len() ==> (#[trigger] assignments@[k]).0@ == module_assignments(
                unit.tree.nodes@,
                unit.source.spec_bytes(),
            )[k].0 && assignments@[k].1 == module_assignments(
                unit.tree.nodes@,
                unit.source.spec_bytes(),
            )[k].1,
        forall|k: int|
            0 <= k < assignments@.len() ==> 0 <= #[trigger] module_assignments(
                unit.tree.nodes@,
                unit.source.spec_bytes(),
            )[k].1 < unit.tree.nodes@.len(),
    ensures
        diag_views(r@) == n001_at(unit.tree.nodes@, unit.source.spec_bytes(), unit.bindings@, i as int),
{
    let tree = unit.tree;
    let ghost ns = tree.nodes@;
    let ghost src = unit.source.spec_bytes();
    let mut out: Vec<Diagnostic> = Vec::new();
    if tree.nodes[i].kind != NodeKind::ForStatement {
        assert(diag_views(out@) =~= Seq::<DiagnosticView>::empty());
        return out;
    }
    let (target, iter, body) = match (
        tree.child_by_field_name(i, FieldName::Left),
        tree.child_by_field_name(i, FieldName::Right),
        tree.child_by_field_name(i, FieldName::Body),
    ) {
        (Some(t), Some(it), Some(b)) => (t, it, b),
        _ => {
            assert(diag_views(out@) =~= Seq::<DiagnosticView>::empty());
            return out;
        },
    };
    // Only simple `for item in qs:` loops (no tuple unpacking).
    let loop_var = node_text(tree, target, unit.source);
    if tree.nodes[target].kind != NodeKind::Identifier || str_eq(loop_var, "_") {
        assert(diag_views(out@) =~= Seq::<DiagnosticView>::empty());
        return out;
    }
    // The iterable must be a QuerySet that hasn't been eager-loaded, either
    // in its own text or where the name it reads was bound.
    if !expr_is_queryset(tree, iter, unit.source, unit.bindings) || has_eager_loading(
        tree,
        iter,
        unit.source,
    ) || (tree.nodes[iter].kind == NodeKind::Identifier && is_eagerly_bound(
        tree,
        unit.source,
        unit.bindings,
        assignments,
        node_text(tree, iter, unit.source),
    )) {
        assert(diag_views(out@) =~= Seq::<DiagnosticView>::empty());
        return out;
    }
    let iter_text = node_text(tree, iter, unit.source);
    let order = walk_preorder(tree, body);
    let mut seen: Vec<usize> = Vec::new();
    let mut k: usize = 0;
    while k < order.len()
        invariant
            ns == tree.nodes@,
            src == unit.source.spec_bytes(),
            tree.wf(),
            body < ns.len(),
            order@.len() == ns[body as int].end - body,
            forall|q: int| 0 <= q < order@.len() ==> #[trigger] order@[q] == body + q,
            forall|q: int| 0 <= q < order@.len() ==> #[trigger] order@[q] < ns.len(),
            0 <= k <= order@.len(),
            diag_views(out@) == n001_walk(ns, src, loop_var@, iter_text@, body as int, body + k).0,
            seen@ == n001_walk(ns, src, loop_var@, iter_text@, body as int, body + k).1,
        decreases order@.len() - k,
    {
        let n = order[k];
        let ghost before = out@;
        match find_related_access(tree, n, loop_var, unit.source) {
            Some(access) => {
                // Repeated `item.author.x` / `item.author.y` are reported once.
                if !contains_offset(&seen, tree.nodes[access].start_byte) {
                    seen.push(tree.nodes[access].start_byte);
                    let access_text = node_text(tree, access, unit.source);
                    let d = Diagnostic::from_node(
                        CODE,
                        NAME,
                        Severity::Warning,
                        tree,
                        access,
                        join3(
                            "`",
                            access_text,
                            "` follows a relation inside a loop, issuing one query per iteration (N+1)",
                        ),
                        String::from_str(LABEL),
                        Some(
                            join5(
                                "Eager-load the relation on the QuerySet, e.g. `",
                                iter_text,
                                ".select_related(\"…\")` for ForeignKey/OneToOne or `",
                                iter_text,
                                ".prefetch_related(\"…\")` for ManyToMany / reverse FK.",
                            ),
                        ),
                    );
                    out.push(d);
                    assert(diag_views(out@) =~= diag_views(before).push(d@));
                }
            },
            None => {},
        }
        k += 1;
    }
    out
}

impl Rule for NPlusOne {
    open spec fn spec_code(&self) -> Seq<char> {
        CODE@
    }

    open spec fn spec_name(&self) -> Seq<char> {
        NAME@
    }

    open spec fn spec_description(&self) -> Seq<char> {
        DESCRIPTION@
    }

    open spec fn spec_findings(
        &self,
        ns: Seq<SyntaxNode>,
        src: Seq<u8>,
        vars: Set<Seq<char>>,
    ) -> Seq<DiagnosticView> {
        n001_findings(ns, src, vars)
    }

    fn code(&self) -> (r: &'static str) {
        CODE
    }

    fn name(&self) -> (r: &'static str) {
        NAME
    }

    fn description(&self) -> (r: &'static str) {
        DESCRIPTION
    }

    fn check(&self, unit: &FileUnit) -> (r: Vec<Diagnostic>) {
        let ghost ns = unit.tree.nodes@;
        let ghost src = unit.source.spec_bytes();
        let ghost vars = unit.bindings@;
        let mut out: Vec<Diagnostic> = Vec::new();
        if unit.tree.len() == 0 {
            assert(diag_views(out@) =~= n001_findings(ns, src, vars));
            return out;
        }
        let assignments = module_assignment_list(unit.tree, unit.source);
        let order = walk_preorder(unit.tree, 0);
        let mut k: usize = 0;
        while k < order.len()
            invariant
                assignments@.len() == module_assignments(ns, src).len(),
                forall|q: int|
                    0 <= q < assignments@.len() ==> (#[trigger] assignments@[q]).0@ == module_assignments(
                        ns,
                        src,
                    )[q].0 && assignments@[q].1 == module_assignments(ns, src)[q].1,
                forall|q: int|
                    0 <= q < assignments@.len() ==> 0 <= #[trigger] module_assignments(ns, src)[q].1
                        < ns.len(),
                ns == unit.tree.nodes@,
                src == unit.source.spec_bytes(),
                vars == unit.bindings@,
                unit.tree.wf(),
                ns.len() > 0,
                order@.len() == scan_end(ns),
                scan_end(ns) <= ns.len(),
                forall|q: int| 0 <= q < order@.len() ==> #[trigger] order@[q] == q,
                0 <= k <= order@.len(),
                diag_views(out@) == concat_range(n001_fn(ns, src, vars), 0, k as int),
            decreases order@.len() - k,
        {
            let i = order[k];
            let ghost before = out@;
            let mut found = findings_at(unit, &assignments, i);
            let ghost added = found@;
            out.append(&mut found);
            assert(diag_views(out@) =~= diag_views(before) + diag_views(added));
            k += 1;
        }
        out
    }
}

} // verus!
