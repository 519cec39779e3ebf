//! P002 — Redundant QuerySet truthiness check.
//!
//! `if queryset:` evaluates and caches the entire result set just to find out
//! whether any rows exist. When the QuerySet is not used again inside the
//! block, `if queryset.exists():` is much cheaper (`SELECT 1 ... LIMIT 1`).

use vstd::prelude::*;
use vstd::string::{StringExecFns, StringSliceAdditionalSpecFns};

use crate::diagnostic::{diag_views, diagnostic_at, Diagnostic, DiagnosticView, Severity};
use crate::engine::queryset::{expr_is_queryset, is_queryset_expr};
use crate::engine::syntax::{field_child, node_text_of, FieldName, NodeKind, SyntaxNode, SyntaxTree};
use crate::engine::util::{node_text, walk_preorder};
use crate::engine::FileUnit;
use crate::rules::{concat_range, lemma_concat_range_holds, scan_end, Rule};
use crate::text::{join3, str_eq};

verus! {

pub const CODE: &'static str = "P002";

pub const NAME: &'static str = "redundant-truthiness";

pub const DESCRIPTION: &'static str =
    "Testing a QuerySet for truthiness loads every row; use .exists() instead.";

pub const LABEL: &'static str = "truthiness test loads every row";

/// The message of a P002 finding on `if qs:`.
pub open spec fn p002_message(qs: Seq<char>) -> Seq<char> {
    "`if "@ + qs + ":` evaluates the full QuerySet just to test for rows"@
}

/// The help of a P002 finding on `if qs:`.
pub open spec fn p002_help(qs: Seq<char>) -> Seq<char> {
    "Use `if "@ + qs
        + ".exists():` — it issues a cheap `SELECT 1 … LIMIT 1` instead of fetching and caching the whole result set."@
}

/// Some identifier in the subtree of `block` reads `name`.
pub open spec fn identifier_used(ns: Seq<SyntaxNode>, src: Seq<u8>, block: int, name: Seq<char>) -> bool {
    exists|n: int|
        block <= n < ns[block].end && ns[n].kind == NodeKind::Identifier && #[trigger] node_text_of(
            ns,
            src,
            n,
        ) == name
}

/// The P002 finding at node `i`, if any: an `if` whose condition is a
/// QuerySet, unless the condition is a plain name that the `if` body reads.
pub open spec fn p002_at(
    ns: Seq<SyntaxNode>,
    src: Seq<u8>,
    vars: Set<Seq<char>>,
    i: int,
) -> Seq<DiagnosticView> {
    if ns[i].kind != NodeKind::IfStatement {
        seq![]
    } else {
        match field_child(ns, i, FieldName::Condition) {
            None => seq![],
            Some(c) => if !is_queryset_expr(ns, src, vars, c) {
                seq![]
            } else if ns[c].kind == NodeKind::Identifier && match field_child(
                ns,
                i,
                FieldName::Consequence,
            ) {
                Some(b) => identifier_used(ns, src, b, node_text_of(ns, src, c)),
                None => false,
            } {
                seq![]
            } else {
                let qs = node_text_of(ns, src, c);
                seq![
                    diagnostic_at(
                        CODE@,
                        NAME@,
                        Severity::Warning,
                        ns,
                        c,
                        p002_message(qs),
                        LABEL@,
                        Some(p002_help(qs)),
                    ),
                ]
            },
        }
    }
}

/// [`p002_at`] as a function of the node.
pub open spec fn p002_fn(ns: Seq<SyntaxNode>, src: Seq<u8>, vars: Set<Seq<char>>) -> spec_fn(
    int,
) -> Seq<DiagnosticView> {
    |i: int| p002_at(ns, src, vars, i)
}

/// All P002 findings of a module, in pre-order of the `if` nodes.
pub open spec fn p002_findings(
    ns: Seq<SyntaxNode>,
    src: Seq<u8>,
    vars: Set<Seq<char>>,
) -> Seq<DiagnosticView> {
    concat_range(p002_fn(ns, src, vars), 0, scan_end(ns))
}

/// P002 reports every `if` that tests a QuerySet for truthiness: when the
/// condition of an `if` statement denotes a QuerySet and is not a plain name
/// that an identifier in the `if` body reads, the statement gives exactly
/// one P002 finding, on the condition, whatever other clauses (`elif`,
/// `else`) it has; and the module's P002 findings hold it.
pub proof fn law_p002_reports_truthiness_test(
    ns: Seq<SyntaxNode>,
    src: Seq<u8>,
    vars: Set<Seq<char>>,
    i: int,
    cond: int,
)
    requires
        0 <= i < scan_end(ns),
        ns[i].kind == NodeKind::IfStatement,
        field_child(ns, i, FieldName::Condition) == Some(cond),
        is_queryset_expr(ns, src, vars, cond),
        ns[cond].kind != NodeKind::Identifier || match field_child(ns, i, FieldName::Consequence) {
            None => true,
            Some(body) => forall|n: int|
                body <= n < ns[body].end && ns[n].kind == NodeKind::Identifier ==> #[trigger] node_text_of(
                    ns,
                    src,
                    n,
                ) != node_text_of(ns, src, cond),
        },
    ensures
        p002_at(ns, src, vars, i).len() == 1,
        p002_at(ns, src, vars, i)[0].code == "P002"@,
        p002_at(ns, src, vars, i)[0].start_byte == ns[cond].start_byte,
        p002_at(ns, src, vars, i)[0].line == ns[cond].start_row + 1,
        p002_at(ns, src, vars, i)[0].column == ns[cond].start_column + 1,
        exists|q: int|
            0 <= q < p002_findings(ns, src, vars).len() && #[trigger] p002_findings(ns, src, vars)[q]
                == p002_at(ns, src, vars, i)[0],
{
    if ns[cond].kind == NodeKind::Identifier {
        if let Some(body) = field_child(ns, i, FieldName::Consequence) {
            if identifier_used(ns, src, body, node_text_of(ns, src, cond)) {
                let n = choose|n: int|
                    body <= n < ns[body].end && ns[n].kind == NodeKind::Identifier && #[trigger] node_text_of(
                        ns,
                        src,
                        n,
                    ) == node_text_of(ns, src, cond);
                assert(false);
            }
        }
    }
    assert(p002_fn(ns, src, vars)(i) == p002_at(ns, src, vars, i));
    lemma_concat_range_holds(p002_fn(ns, src, vars), 0, scan_end(ns), i, 0);
    let all = concat_range(p002_fn(ns, src, vars), 0, scan_end(ns));
    assert(p002_findings(ns, src, vars) == all);
    let q = choose|q: int| 0 <= q < all.len() && #[trigger] all[q] == p002_fn(ns, src, vars)(i)[0];
    assert(p002_findings(ns, src, vars)[q] == p002_at(ns, src, vars, i)[0]);
}

/// P002 reports nothing else: a node gives at most one P002 finding, and
/// only an `if` statement whose condition denotes a QuerySet gives one, on
/// the condition.
pub proof fn law_p002_reports_only_truthiness_tests(
    ns: Seq<SyntaxNode>,
    src: Seq<u8>,
    vars: Set<Seq<char>>,
    i: int,
)
    ensures
        p002_at(ns, src, vars, i).len() <= 1,
        p002_at(ns, src, vars, i).len() == 1 ==> {
            &&& ns[i].kind == NodeKind::IfStatement
            &&& match field_child(ns, i, FieldName::Condition) {
                Some(cond) => {
                    &&& is_queryset_expr(ns, src, vars, cond)
                    &&& p002_at(ns, src, vars, i)[0].start_byte == ns[cond].start_byte
                    &&& ns[cond].kind == NodeKind::Identifier ==> match field_child(
                        ns,
                        i,
                        FieldName::Consequence,
                    ) {
                        None => true,
                        Some(body) => forall|n: int|
                            body <= n < ns[body].end && ns[n].kind == NodeKind::Identifier
                                ==> #[trigger] node_text_of(ns, src, n) != node_text_of(ns, src, cond),
                    }
                },
                None => false,
            }
        },
{
}

/// Is `name` read by an identifier anywhere inside `block`?
fn identifier_used_in(tree: &SyntaxTree, block: usize, name: &str, source: &str) -> (r: bool)
    requires
        tree.wf(),
        block < tree.nodes@.len(),
    ensures
        r == identifier_used(tree.nodes@, source.spec_bytes(), block as int, name@),
{
    let order = walk_preorder(tree, block);
    let mut used = false;
    let mut k: usize = 0;
    while k < order.len()
        invariant
            0 <= k <= order@.len(),
            order@.len() == tree.nodes@[block as int].end - block,
            forall|q: int| 0 <= q < order@.len() ==> #[trigger] order@[q] == block + q,
            forall|q: int| 0 <= q < order@.len() ==> #[trigger] order@[q] < tree.nodes@.len(),
            used == exists|n: int|
                block <= n < block + k && tree.nodes@[n].kind == NodeKind::Identifier
                    && #[trigger] node_text_of(tree.nodes@, source.spec_bytes(), n) == name@,
        decreases order@.len() - k,
    {
        let n = order[k];
        if tree.nodes[n].kind == NodeKind::Identifier && str_eq(node_text(tree, n, source), name) {
            used = true;
        }
        proof {
            if used {
                if !(exists|m: int|
                    block <= m < block + k && tree.nodes@[m].kind == NodeKind::Identifier
                        && #[trigger] node_text_of(tree.nodes@, source.spec_bytes(), m) == name@) {
                    assert(node_text_of(tree.nodes@, source.spec_bytes(), n as int) == name@);
                }
            }
        }
        k += 1;
    }
    used
}

/// The P002 rule.
pub struct RedundantTruthiness;

impl RedundantTruthiness {
    pub fn new() -> Self {
        RedundantTruthiness
    }
}

/// The P002 finding at node `i`.
fn finding_at(unit: &FileUnit, i: usize) -> (r: Option<Diagnostic>)
    requires
        unit.tree.wf(),
        i < unit.tree.nodes@.len(),
    ensures
        match r {
            Some(d) => p002_at(unit.tree.nodes@, unit.source.spec_bytes(), unit.bindings@, i as int)
                == seq![d@],
            None => p002_at(unit.tree.nodes@, unit.source.spec_bytes(), unit.bindings@, i as int)
                == Seq::<DiagnosticView>::empty(),
        },
{
    let tree = unit.tree;
    if tree.nodes[i].kind != NodeKind::IfStatement {
        return None;
    }
    let cond = match tree.child_by_field_name(i, FieldName::Condition) {
        Some(c) => c,
        None => return None,
    };
    // The condition itself must be a bare QuerySet expression; anything that
    // already ends in `.exists()`/`.count()`, a comparison, `not`, ... is not.
    if !expr_is_queryset(tree, cond, unit.source, unit.bindings) {
        return None;
    }
    // A plain name reused in the body exploits the QuerySet cache: not flagged.
    if tree.nodes[cond].kind == NodeKind::Identifier {
        let name = node_text(tree, cond, unit.source);
        match tree.child_by_field_name(i, FieldName::Consequence) {
            Some(body) => {
                if identifier_used_in(tree, body, name, unit.source) {
                    return None;
                }
            },
            None => {},
        }
    }
    let qs_text = node_text(tree, cond, unit.source);
    Some(
        Diagnostic::from_node(
            CODE,
            NAME,
            Severity::Warning,
            tree,
            cond,
            join3("`if ", qs_text, ":` evaluates the full QuerySet just to test for rows"),
            String::from_str(LABEL),
            Some(
                join3(
                    "Use `if ",
                    qs_text,
                    ".exists():` — it issues a cheap `SELECT 1 … LIMIT 1` instead of fetching and caching the whole result set.",
                ),
            ),
        ),
    )
}

impl Rule for RedundantTruthiness {
    open spec fn spec_code(&self) -> Seq<char> {
        CODE@
    }

    open spec fn spec_name(&self) -> Seq<char> {
        NAME@
    }

    open spec fn spec_description(&self) -> Seq<char> {
        DESCRIPTION@
    }

    open spec fn spec_findings(
        &self,
        ns: Seq<SyntaxNode>,
        src: Seq<u8>,
        vars: Set<Seq<char>>,
    ) -> Seq<DiagnosticView> {
        p002_findings(ns, src, vars)
    }

    fn code(&self) -> (r: &'static str) {
        CODE
    }

    fn name(&self) -> (r: &'static str) {
        NAME
    }

    fn description(&self) -> (r: &'static str) {
        DESCRIPTION
    }

    fn check(&self, unit: &FileUnit) -> (r: Vec<Diagnostic>) {
        let ghost ns = unit.tree.nodes@;
        let ghost src = unit.source.spec_bytes();
        let ghost vars = unit.bindings@;
        let mut out: Vec<Diagnostic> = Vec::new();
        if unit.tree.len() == 0 {
            assert(diag_views(out@) =~= p002_findings(ns, src, vars));
            return out;
        }
        let order = walk_preorder(unit.tree, 0);
        let mut k: usize = 0;
        while k < order.len()
            invariant
                ns == unit.tree.nodes@,
                src == unit.source.spec_bytes(),
                vars == unit.bindings@,
                unit.tree.wf(),
                ns.len() > 0,
                order@.len() == scan_end(ns),
                scan_end(ns) <= ns.len(),
                forall|q: int| 0 <= q < order@.len() ==> #[trigger] order@[q] == q,
                0 <= k <= order@.len(),
                diag_views(out@) == concat_range(p002_fn(ns, src, vars), 0, k as int),
            decreases order@.len() - k,
        {
            let i = order[k];
            let ghost before = out@;
            match finding_at(unit, i) {
                Some(d) => {
                    out.push(d);
                },
                None => {},
            }
            assert(diag_views(out@) =~= diag_views(before) + p002_at(ns, src, vars, k as int));
            k += 1;
        }
        out
    }
}

} // verus!
