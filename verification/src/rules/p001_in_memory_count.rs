//! P001 — In-memory counting / materialisation.
//!
//! Flags `len(queryset)` and `list(queryset)`. Both pull every row into
//! Python memory; `.count()` (or `.exists()`) pushes the work to the database.

use vstd::prelude::*;
use vstd::string::{StringExecFns, StringSliceAdditionalSpecFns};

use crate::diagnostic::{diag_views, diagnostic_at, Diagnostic, DiagnosticView, Severity};
use crate::engine::queryset::{expr_is_queryset, is_queryset_expr};
use crate::engine::syntax::{
    field_child, node_text_of, significant_children, FieldName, NodeKind, SyntaxNode,
};
use crate::engine::util::{node_text, significant_named_children, walk_preorder};
use crate::engine::FileUnit;
use crate::rules::{concat_range, lemma_concat_range_holds, scan_end, Rule};
use crate::text::{join3, join5, str_eq};

verus! {

pub const CODE: &'static str = "P001";

pub const NAME: &'static str = "in-memory-counting";

pub const DESCRIPTION: &'static str =
    "Counting a QuerySet with len()/list() evaluates every row in Python; use .count() or .exists().";

pub const LABEL: &'static str = "evaluates the entire QuerySet here";

/// The message of a P001 finding on `len(qs)` (or else `list(qs)`).
pub open spec fn p001_message(is_len: bool, qs: Seq<char>) -> Seq<char> {
    if is_len {
        "`len("@ + qs + ")` loads the whole QuerySet into memory to count rows"@
    } else {
        "`list("@ + qs + ")` materialises the entire QuerySet in memory"@
    }
}

/// The help of a P001 finding on `len(qs)` (or else `list(qs)`).
pub open spec fn p001_help(is_len: bool, qs: Seq<char>) -> Seq<char> {
    if is_len {
        "Use `"@ + qs + ".count()` so the database performs the count, or `"@ + qs
            + ".exists()` if you only need to know whether rows exist."@
    } else {
        "If you only need the row count use `"@ + qs
            + ".count()`; otherwise iterate the QuerySet lazily instead of building a list."@
    }
}

/// The P001 finding at node `i`, if any: a call of `len` or `list` with
/// exactly one argument (comments aside), that argument a QuerySet.
pub open spec fn p001_at(
    ns: Seq<SyntaxNode>,
    src: Seq<u8>,
    vars: Set<Seq<char>>,
    i: int,
) -> Seq<DiagnosticView> {
    if ns[i].kind != NodeKind::Call {
        seq![]
    } else {
        match field_child(ns, i, FieldName::Function) {
            None => seq![],
            Some(f) => {
                let builtin = node_text_of(ns, src, f);
                if builtin != "len"@ && builtin != "list"@ {
                    seq![]
                } else {
                    match field_child(ns, i, FieldName::Arguments) {
                        None => seq![],
                        Some(a) => {
                            let args = significant_children(ns, a);
                            if args.len() != 1 || !is_queryset_expr(ns, src, vars, args[0]) {
                                seq![]
                            } else {
                                let qs = node_text_of(ns, src, args[0]);
                                let is_len = builtin == "len"@;
                                seq![
                                    diagnostic_at(
                                        CODE@,
                                        NAME@,
                                        Severity::Warning,
                                        ns,
                                        i,
                                        p001_message(is_len, qs),
                                        LABEL@,
                                        Some(p001_help(is_len, qs)),
                                    ),
                                ]
                            }
                        },
                    }
                }
            },
        }
    }
}

/// [`p001_at`] as a function of the node.
pub open spec fn p001_fn(ns: Seq<SyntaxNode>, src: Seq<u8>, vars: Set<Seq<char>>) -> spec_fn(
    int,
) -> Seq<DiagnosticView> {
    |i: int| p001_at(ns, src, vars, i)
}

/// All P001 findings of a module, in pre-order of the nodes.
pub open spec fn p001_findings(
    ns: Seq<SyntaxNode>,
    src: Seq<u8>,
    vars: Set<Seq<char>>,
) -> Seq<DiagnosticView> {
    concat_range(p001_fn(ns, src, vars), 0, scan_end(ns))
}

/// P001 reports every in-memory count: a call whose callee reads `len` or
/// `list` and whose only argument (comments aside) denotes a QuerySet gives
/// exactly one P001 finding, on the call, wherever the call stands (an
/// argument, a returned value, an operand); and the module's P001 findings
/// hold it.
pub proof fn law_p001_reports_in_memory_count(
    ns: Seq<SyntaxNode>,
    src: Seq<u8>,
    vars: Set<Seq<char>>,
    i: int,
    callee: int,
    args: int,
    arg: int,
)
    requires
        0 <= i < scan_end(ns),
        ns[i].kind == NodeKind::Call,
        field_child(ns, i, FieldName::Function) == Some(callee),
        node_text_of(ns, src, callee) == "len"@ || node_text_of(ns, src, callee) == "list"@,
        field_child(ns, i, FieldName::Arguments) == Some(args),
        significant_children(ns, args) == seq![arg],
        is_queryset_expr(ns, src, vars, arg),
    ensures
        p001_at(ns, src, vars, i).len() == 1,
        p001_at(ns, src, vars, i)[0].code == "P001"@,
        p001_at(ns, src, vars, i)[0].start_byte == ns[i].start_byte,
        p001_at(ns, src, vars, i)[0].line == ns[i].start_row + 1,
        p001_at(ns, src, vars, i)[0].column == ns[i].start_column + 1,
        exists|q: int|
            0 <= q < p001_findings(ns, src, vars).len() && #[trigger] p001_findings(ns, src, vars)[q]
                == p001_at(ns, src, vars, i)[0],
{
    assert(significant_children(ns, args)[0] == arg);
    assert(p001_fn(ns, src, vars)(i) == p001_at(ns, src, vars, i));
    lemma_concat_range_holds(p001_fn(ns, src, vars), 0, scan_end(ns), i, 0);
    let all = concat_range(p001_fn(ns, src, vars), 0, scan_end(ns));
    assert(p001_findings(ns, src, vars) == all);
    let q = choose|q: int| 0 <= q < all.len() && #[trigger] all[q] == p001_fn(ns, src, vars)(i)[0];
    assert(p001_findings(ns, src, vars)[q] == p001_at(ns, src, vars, i)[0]);
}

/// P001 reports nothing else: a node gives at most one P001 finding, and
/// only a call whose callee reads `len` or `list` and whose only argument
/// (comments aside) denotes a QuerySet gives one, on the call.
pub proof fn law_p001_reports_only_in_memory_counts(
    ns: Seq<SyntaxNode>,
    src: Seq<u8>,
    vars: Set<Seq<char>>,
    i: int,
)
    ensures
        p001_at(ns, src, vars, i).len() <= 1,
        p001_at(ns, src, vars, i).len() == 1 ==> {
            &&& ns[i].kind == NodeKind::Call
            &&& p001_at(ns, src, vars, i)[0].start_byte == ns[i].start_byte
            &&& match (field_child(ns, i, FieldName::Function), field_child(ns, i, FieldName::Arguments)) {
                (Some(callee), Some(args)) => {
                    &&& (node_text_of(ns, src, callee) == "len"@ || node_text_of(ns, src, callee)
                        == "list"@)
                    &&& significant_children(ns, args).len() == 1
                    &&& is_queryset_expr(ns, src, vars, significant_children(ns, args)[0])
                },
                _ => false,
            }
        },
{
}

/// The P001 rule.
pub struct InMemoryCount;

impl InMemoryCount {
    pub fn new() -> Self {
        InMemoryCount
    }
}

/// The P001 finding at node `i`.
fn finding_at(unit: &FileUnit, i: usize) -> (r: Option<Diagnostic>)
    requires
        unit.tree.wf(),
        i < unit.tree.nodes@.len(),
    ensures
        match r {
            Some(d) => p001_at(unit.tree.nodes@, unit.source.spec_bytes(), unit.bindings@, i as int)
                == seq![d@],
            None => p001_at(unit.tree.nodes@, unit.source.spec_bytes(), unit.bindings@, i as int)
                == Seq::<DiagnosticView>::empty(),
        },
{
    let tree = unit.tree;
    if tree.nodes[i].kind != NodeKind::Call {
        return None;
    }
    let func = match tree.child_by_field_name(i, FieldName::Function) {
        Some(f) => f,
        None => return None,
    };
    let builtin = node_text(tree, func, unit.source);
    let is_len = str_eq(builtin, "len");
    if !is_len && !str_eq(builtin, "list") {
        return None;
    }
    let args = match tree.child_by_field_name(i, FieldName::Arguments) {
        Some(a) => a,
        None => return None,
    };
    let arguments = significant_named_children(tree, args);
    if arguments.len() != 1 {
        return None;
    }
    let arg = arguments[0];
    if !expr_is_queryset(tree, arg, unit.source, unit.bindings) {
        return None;
    }
    let qs_text = node_text(tree, arg, unit.source);
    let (message, help) = if is_len {
        (
            join3("`len(", qs_text, ")` loads the whole QuerySet into memory to count rows"),
            join5(
                "Use `",
                qs_text,
                ".count()` so the database performs the count, or `",
                qs_text,
                ".exists()` if you only need to know whether rows exist.",
            ),
        )
    } else {
        (
            join3("`list(", qs_text, ")` materialises the entire QuerySet in memory"),
            join3(
                "If you only need the row count use `",
                qs_text,
                ".count()`; otherwise iterate the QuerySet lazily instead of building a list.",
            ),
        )
    };
    Some(
        Diagnostic::from_node(
            CODE,
            NAME,
            Severity::Warning,
            tree,
            i,
            message,
            String::from_str(LABEL),
            Some(help),
        ),
    )
}

impl Rule for InMemoryCount {
    open spec fn spec_code(&self) -> Seq<char> {
        CODE@
    }

    open spec fn spec_name(&self) -> Seq<char> {
        NAME@
    }

    open spec fn spec_description(&self) -> Seq<char> {
        DESCRIPTION@
    }

    open spec fn spec_findings(
        &self,
        ns: Seq<SyntaxNode>,
        src: Seq<u8>,
        vars: Set<Seq<char>>,
    ) -> Seq<DiagnosticView> {
        p001_findings(ns, src, vars)
    }

    fn code(&self) -> (r: &'static str) {
        CODE
    }

    fn name(&self) -> (r: &'static str) {
        NAME
    }

    fn description(&self) -> (r: &'static str) {
        DESCRIPTION
    }

    fn check(&self, unit: &FileUnit) -> (r: Vec<Diagnostic>) {
        let ghost ns = unit.tree.nodes@;
        let ghost src = unit.source.spec_bytes();
        let ghost vars = unit.bindings@;
        let mut out: Vec<Diagnostic> = Vec::new();
        if unit.tree.len() == 0 {
            assert(diag_views(out@) =~= p001_findings(ns, src, vars));
            return out;
        }
        let order = walk_preorder(unit.tree, 0);
        let mut k: usize = 0;
        while k < order.len()
            invariant
                ns == unit.tree.nodes@,
                src == unit.source.spec_bytes(),
                vars == unit.bindings@,
                unit.tree.wf(),
                ns.len() > 0,
                order@.len() == scan_end(ns),
                scan_end(ns) <= ns.len(),
                forall|q: int| 0 <= q < order@.len() ==> #[trigger] order@[q] == q,
                0 <= k <= order@.len(),
                diag_views(out@) == concat_range(p001_fn(ns, src, vars), 0, k as int),
            decreases order@.len() - k,
        {
            let i = order[k];
            let ghost before = out@;
            match finding_at(unit, i) {
                Some(d) => {
                    out.push(d);
                },
                None => {},
            }
            assert(diag_views(out@) =~= diag_views(before) + p001_at(ns, src, vars, k as int));
            k += 1;
        }
        out
    }
}

} // verus!
