//! The analysis engine: the syntax model, parsing, the QuerySet data-flow
//! model, suppression directives, and the per-file driver.

pub mod parser;
pub mod queryset;
pub mod suppress;
pub mod syntax;
pub mod util;
pub mod walker;

use vstd::prelude::*;
use vstd::string::{StringExecFns, StringSliceAdditionalSpecFns};
use vstd::utf8::encode_utf8;

use crate::diagnostic::{diag_views, Diagnostic, DiagnosticView, FileReport};
use crate::engine::queryset::{collect_bindings, least_bindings, Bindings};
use crate::engine::suppress::{directive_map, lemma_directive_map, source_directives, suppresses, Suppressions};
use crate::engine::parser::python_tree;
use crate::engine::syntax::{nodes_wf, SyntaxNode, SyntaxTree};
use crate::rules::{
    enabled_builtins, lemma_enabled_builtins, lemma_findings_have_code, rule_enabled, BuiltinRule, Rule,
};
use crate::text::{bytes_lt, lemma_bytes_lt_total};

verus! {

/// Everything a rule needs to analyse one file, borrowed.
pub struct FileUnit<'a> {
    /// Path of the file under analysis, as text. Exposed for path-aware rules;
    /// not used by the current built-ins.
    pub path: &'a str,
    pub source: &'a str,
    pub tree: &'a SyntaxTree,
    pub bindings: &'a Bindings,
}


/// Diagnostics are ordered by line, then column, then code.
pub open spec fn key_lt(a: DiagnosticView, b: DiagnosticView) -> bool {
    a.line < b.line || (a.line == b.line && (a.column < b.column || (a.column == b.column
        && bytes_lt(encode_utf8(a.code), encode_utf8(b.code)))))
}

/// Where `d` goes among the first `m` entries of sorted `s`: after every entry
/// that it does not precede, so that equal keys keep their order.
pub open spec fn insert_pos(s: Seq<DiagnosticView>, d: DiagnosticView, m: int) -> int
    decreases m,
{
    if m <= 0 {
        0
    } else if key_lt(d, s[m - 1]) {
        insert_pos(s, d, m - 1)
    } else {
        m
    }
}

/// `s` with `d` inserted at its place.
pub open spec fn insert_sorted(s: Seq<DiagnosticView>, d: DiagnosticView) -> Seq<DiagnosticView> {
    s.insert(insert_pos(s, d, s.len() as int), d)
}

/// `s` sorted by (line, column, code), equal keys in their input order
/// (`slice::sort_by_key`, a stable sort).
pub open spec fn sort_by_key(s: Seq<DiagnosticView>) -> Seq<DiagnosticView>
    decreases s.len(),
{
    if s.len() == 0 {
        s
    } else {
        insert_sorted(sort_by_key(s.drop_last()), s.last())
    }
}

/// The findings of the first `m` rules, rule after rule.
pub open spec fn rules_findings(
    rules: Seq<BuiltinRule>,
    ns: Seq<SyntaxNode>,
    src: Seq<u8>,
    vars: Set<Seq<char>>,
    m: int,
) -> Seq<DiagnosticView>
    decreases m,
{
    if m <= 0 {
        seq![]
    } else {
        rules_findings(rules, ns, src, vars, m - 1) + rules[m - 1].spec_findings(ns, src, vars)
    }
}

/// The first `m` findings of `raw` that the line directives `dirs` do not suppress.
pub open spec fn unsuppressed(
    raw: Seq<DiagnosticView>,
    dirs: Seq<Option<crate::engine::suppress::Directive>>,
    m: int,
) -> Seq<DiagnosticView>
    decreases m,
{
    if m <= 0 {
        seq![]
    } else {
        let prev = unsuppressed(raw, dirs, m - 1);
        if suppresses(dirs, raw[m - 1].line, raw[m - 1].code) {
            prev
        } else {
            prev.push(raw[m - 1])
        }
    }
}

/// The findings that the rules report on a module with tree `ns` and source
/// `source`: every rule's findings, those on suppressed lines dropped, sorted
/// by (line, column, code).
pub open spec fn file_findings(
    rules: Seq<BuiltinRule>,
    ns: Seq<SyntaxNode>,
    source: Seq<char>,
) -> Seq<DiagnosticView> {
    let src = encode_utf8(source);
    let raw = rules_findings(rules, ns, src, least_bindings(ns, src), rules.len() as int);
    sort_by_key(unsuppressed(raw, source_directives(source), raw.len() as int))
}

/// Whether `a` precedes `b` in the order of `str`.
pub fn code_lt(a: &str, b: &str) -> (r: bool)
    ensures
        r == bytes_lt(a.spec_bytes(), b.spec_bytes()),
{
    let x = a.as_bytes();
    let y = b.as_bytes();
    let mut i: usize = 0;
    assert(x@.skip(0) =~= x@);
    assert(y@.skip(0) =~= y@);
    while i < x.len() && i < y.len()
        invariant
            x@ == a.spec_bytes(),
            y@ == b.spec_bytes(),
            0 <= i <= x.len(),
            i <= y.len(),
            bytes_lt(x@, y@) == bytes_lt(x@.skip(i as int), y@.skip(i as int)),
        decreases x.len() - i,
    {
        if x[i] != y[i] {
            assert(x@.skip(i as int)[0] == x@[i as int]);
            assert(y@.skip(i as int)[0] == y@[i as int]);
            return x[i] < y[i];
        }
        assert(x@.skip(i as int).drop_first() =~= x@.skip(i + 1));
        assert(y@.skip(i as int).drop_first() =~= y@.skip(i + 1));
        i += 1;
    }
    i < y.len()
}

/// Whether diagnostic `a` sorts before `b`.
fn diag_lt(a: &Diagnostic, b: &Diagnostic) -> (r: bool)
    ensures
        r == key_lt(a@, b@),
{
    a.line < b.line || (a.line == b.line && (a.column < b.column || (a.column == b.column
        && code_lt(a.code, b.code))))
}

/// Where `d` goes in the sorted `out`: after every entry it does not precede.
fn find_insert_pos(out: &Vec<Diagnostic>, d: &Diagnostic) -> (r: usize)
    ensures
        r == insert_pos(diag_views(out@), d@, out@.len() as int),
        r <= out@.len(),
{
    let ghost s = diag_views(out@);
    let mut pos = out.len();
    while pos > 0 && diag_lt(d, &out[pos - 1])
        invariant
            s == diag_views(out@),
            pos <= out@.len(),
            insert_pos(s, d@, out@.len() as int) == insert_pos(s, d@, pos as int),
        decreases pos,
    {
        assert(s[pos - 1] == out@[pos - 1]@);
        pos -= 1;
    }
    if pos > 0 {
        assert(s[pos - 1] == out@[pos - 1]@);
    }
    pos
}

/// Sort `items` by (line, column, code), stably.
fn sort_diagnostics(items: Vec<Diagnostic>) -> (r: Vec<Diagnostic>)
    ensures
        diag_views(r@) == sort_by_key(diag_views(items@)),
{
    let ghost all = diag_views(items@);
    let mut rest = items;
    let mut out: Vec<Diagnostic> = Vec::new();
    assert(all.take(0) =~= Seq::<DiagnosticView>::empty());
    while rest.len() > 0
        invariant
            all.len() == out@.len() + rest@.len(),
            diag_views(rest@) == all.skip(out@.len() as int),
            diag_views(out@) == sort_by_key(all.take(out@.len() as int)),
        decreases rest@.len(),
    {
        let ghost k = out@.len() as int;
        let ghost old_rest = rest@;
        let d = rest.remove(0);
        assert(all[k] == d@) by {
            assert(all.skip(k)[0] == all[k]);
            assert(diag_views(old_rest)[0] == old_rest[0]@);
        }
        assert forall|j: int| 0 <= j < rest@.len() implies #[trigger] diag_views(rest@)[j] == all.skip(k + 1)[j] by {
            assert(rest@[j] == old_rest[j + 1]);
            assert(diag_views(old_rest)[j + 1] == all.skip(k)[j + 1]);
        }
        assert(diag_views(rest@) =~= all.skip(k + 1));
        let pos = find_insert_pos(&out, &d);
        let ghost before = diag_views(out@);
        out.insert(pos, d);
        proof {
            let t = all.take(k + 1);
            assert(t.drop_last() =~= all.take(k));
            assert(t.last() == d@);
            assert(diag_views(out@) =~= before.insert(pos as int, d@));
        }
    }
    assert(all.take(all.len() as int) =~= all);
    out
}

/// Analyse one parsed file: run every rule, drop the findings on suppressed
/// lines, sort the rest by (line, column, code). `None` when nothing remains.
pub fn analyze_tree(path: &str, source: &str, tree: &SyntaxTree, rules: &[BuiltinRule]) -> (r:
    Option<FileReport>)
    requires
        tree.wf(),
    ensures
        match r {
            None => file_findings(rules@, tree.nodes@, source@).len() == 0,
            Some(rep) => {
                &&& rep.path@ == path@
                &&& rep.source@ == source@
                &&& rep.diagnostics@.len() > 0
                &&& diag_views(rep.diagnostics@) == file_findings(rules@, tree.nodes@, source@)
            },
        },
{
    let ghost ns = tree.nodes@;
    let ghost src = source.spec_bytes();
    let bindings = collect_bindings(tree, source);
    let suppressions = Suppressions::parse(source);
    let unit = FileUnit { path, source, tree, bindings: &bindings };
    let ghost vars = bindings@;
    let mut raw: Vec<Diagnostic> = Vec::new();
    let mut k: usize = 0;
    while k < rules.len()
        invariant
            ns == tree.nodes@,
            tree.wf(),
            unit.tree == tree,
            unit.source == source,
            src == source.spec_bytes(),
            vars == unit.bindings@,
            0 <= k <= rules@.len(),
            diag_views(raw@) == rules_findings(rules@, ns, src, vars, k as int),
        decreases rules.len() - k,
    {
        let ghost before = diag_views(raw@);
        let mut found = rules[k].check(&unit);
        let ghost added = diag_views(found@);
        raw.append(&mut found);
        assert(diag_views(raw@) =~= before + added);
        k += 1;
    }
    let ghost all = diag_views(raw@);
    let ghost dirs = source_directives(source@);
    let mut rest = raw;
    let mut kept: Vec<Diagnostic> = Vec::new();
    let mut p: usize = 0;
    assert(all.skip(0) =~= all);
    let n = rest.len();
    assert(all.len() == n);
    while rest.len() > 0
        invariant
            suppressions@ == directive_map(dirs),
            dirs == source_directives(source@),
            p + rest@.len() == all.len(),
            all.len() <= usize::MAX,
            diag_views(rest@) == all.skip(p as int),
            diag_views(kept@) == unsuppressed(all, dirs, p as int),
        decreases rest@.len(),
    {
        let ghost old_rest = rest@;
        let d = rest.remove(0);
        assert(all[p as int] == d@) by {
            assert(all.skip(p as int)[0] == all[p as int]);
            assert(diag_views(old_rest)[0] == old_rest[0]@);
        }
        assert forall|j: int| 0 <= j < rest@.len() implies #[trigger] diag_views(rest@)[j] == all.skip(
            p + 1,
        )[j] by {
            assert(rest@[j] == old_rest[j + 1]);
            assert(diag_views(old_rest)[j + 1] == all.skip(p as int)[j + 1]);
        }
        assert(diag_views(rest@) =~= all.skip(p + 1));
        let ghost before = diag_views(kept@);
        proof {
            lemma_directive_map(dirs, d.line, d.code@);
        }
        if !suppressions.is_suppressed(d.line, d.code) {
            kept.push(d);
            assert(diag_views(kept@) =~= before.push(d@));
        }
        p += 1;
    }
    let diagnostics = sort_diagnostics(kept);
    if diagnostics.len() == 0 {
        return None;
    }
    Some(
        FileReport {
            path: String::from_str(path),
            source: String::from_str(source),
            diagnostics,
        },
    )
}

/// Analyse the source text of one file: parse it, then analyse its tree.
/// `None` when the file yields no finding. Malformed Python still parses:
/// `tree-sitter` recovers from errors.
pub fn analyze_source(path: &str, source: &str, rules: &[BuiltinRule]) -> (r: Option<FileReport>)
    ensures
        r is None <==> file_findings(rules@, python_tree(source@), source@).len() == 0,
        r matches Some(rep) ==> {
            &&& rep.path@ == path@
            &&& rep.source@ == source@
            &&& diag_views(rep.diagnostics@) == file_findings(rules@, python_tree(source@), source@)
        },
{
    match parser::parse(source) {
        Some(tree) => analyze_tree(path, source, &tree, rules),
        None => None,
    }
}

/// No two neighbours of `s` are out of (line, column, code) order.
pub open spec fn sorted_by_key(s: Seq<DiagnosticView>) -> bool {
    forall|i: int| 0 <= i < s.len() - 1 ==> !key_lt(#[trigger] s[i + 1], s[i])
}

/// The order of diagnostics is strict.
pub proof fn lemma_key_lt_asymmetric(a: DiagnosticView, b: DiagnosticView)
    ensures
        key_lt(a, b) ==> !key_lt(b, a),
{
    lemma_bytes_lt_total(encode_utf8(a.code), encode_utf8(b.code));
}

proof fn lemma_insert_pos(s: Seq<DiagnosticView>, d: DiagnosticView, m: int)
    requires
        0 <= m <= s.len(),
    ensures
        0 <= insert_pos(s, d, m) <= m,
        insert_pos(s, d, m) > 0 ==> !key_lt(d, s[insert_pos(s, d, m) - 1]),
        forall|q: int| insert_pos(s, d, m) <= q < m ==> key_lt(d, #[trigger] s[q]),
    decreases m,
{
    if m > 0 {
        lemma_insert_pos(s, d, m - 1);
    }
}

proof fn lemma_insert_sorted(s: Seq<DiagnosticView>, d: DiagnosticView)
    requires
        sorted_by_key(s),
    ensures
        sorted_by_key(insert_sorted(s, d)),
        insert_sorted(s, d).to_multiset() == s.to_multiset().insert(d),
        insert_sorted(s, d).len() == s.len() + 1,
{
    let p = insert_pos(s, d, s.len() as int);
    lemma_insert_pos(s, d, s.len() as int);
    let t = insert_sorted(s, d);
    vstd::seq_lib::to_multiset_insert(s, p, d);
    assert forall|i: int| 0 <= i < t.len() - 1 implies !key_lt(#[trigger] t[i + 1], t[i]) by {
        if i + 1 < p {
            assert(t[i] == s[i] && t[i + 1] == s[i + 1]);
            assert(!key_lt(s[i + 1], s[i]));
        } else if i + 1 == p {
            assert(t[i] == s[i] && t[i + 1] == d);
        } else if i == p {
            assert(t[i] == d && t[i + 1] == s[i]);
            lemma_key_lt_asymmetric(d, s[i]);
        } else {
            assert(t[i] == s[i - 1] && t[i + 1] == s[i]);
            assert(!key_lt(s[(i - 1) + 1], s[i - 1]));
        }
    }
}

/// Sorting orders the findings and keeps exactly the same findings.
pub proof fn lemma_sort_by_key(s: Seq<DiagnosticView>)
    ensures
        sorted_by_key(sort_by_key(s)),
        sort_by_key(s).to_multiset() == s.to_multiset(),
        sort_by_key(s).len() == s.len(),
    decreases s.len(),
{
    broadcast use vstd::seq_lib::group_to_multiset_ensures;

    if s.len() > 0 {
        lemma_sort_by_key(s.drop_last());
        lemma_insert_sorted(sort_by_key(s.drop_last()), s.last());
        assert(s.drop_last().push(s.last()) =~= s);
    }
}

/// Every finding kept by [`unsuppressed`] is a finding of `raw` on a line
/// that the directives do not suppress.
pub proof fn lemma_unsuppressed(
    raw: Seq<DiagnosticView>,
    dirs: Seq<Option<crate::engine::suppress::Directive>>,
    m: int,
)
    requires
        m <= raw.len(),
    ensures
        forall|k: int|
            0 <= k < unsuppressed(raw, dirs, m).len() ==> !suppresses(
                dirs,
                (#[trigger] unsuppressed(raw, dirs, m)[k]).line,
                unsuppressed(raw, dirs, m)[k].code,
            ) && raw.take(m).contains(unsuppressed(raw, dirs, m)[k]),
    decreases m,
{
    if m > 0 {
        lemma_unsuppressed(raw, dirs, m - 1);
        let prev = unsuppressed(raw, dirs, m - 1);
        let cur = unsuppressed(raw, dirs, m);
        assert forall|k: int| 0 <= k < cur.len() implies !suppresses(
            dirs,
            (#[trigger] cur[k]).line,
            cur[k].code,
        ) && raw.take(m).contains(cur[k]) by {
            if k < prev.len() {
                assert(cur[k] == prev[k]);
                let w = choose|w: int| 0 <= w < raw.take(m - 1).len() && #[trigger] raw.take(m - 1)[w] == prev[k];
                assert(raw.take(m)[w] == prev[k]);
            } else {
                assert(cur[k] == raw[m - 1]);
                assert(raw.take(m)[m - 1] == raw[m - 1]);
            }
        }
    }
}

proof fn lemma_unsuppressed_count(
    raw: Seq<DiagnosticView>,
    dirs: Seq<Option<crate::engine::suppress::Directive>>,
    m: int,
    d: DiagnosticView,
)
    requires
        0 <= m <= raw.len(),
    ensures
        unsuppressed(raw, dirs, m).to_multiset().count(d) == if suppresses(dirs, d.line, d.code) {
            0
        } else {
            raw.take(m).to_multiset().count(d)
        },
    decreases m,
{
    broadcast use vstd::seq_lib::group_to_multiset_ensures;

    if m == 0 {
        assert(raw.take(0) =~= Seq::<DiagnosticView>::empty());
    } else {
        lemma_unsuppressed_count(raw, dirs, m - 1, d);
        assert(raw.take(m) =~= raw.take(m - 1).push(raw[m - 1]));
    }
}

/// Suppression acts on a finding's own line alone: each finding that the
/// rules report appears in the file's findings exactly as often as the rules
/// report it when the directives of its own line do not suppress its code,
/// and not at all when they do.
pub proof fn law_findings_kept_unless_suppressed_on_own_line(
    rules: Seq<BuiltinRule>,
    ns: Seq<SyntaxNode>,
    source: Seq<char>,
    d: DiagnosticView,
)
    ensures
        ({
            let src = encode_utf8(source);
            let raw = rules_findings(rules, ns, src, least_bindings(ns, src), rules.len() as int);
            file_findings(rules, ns, source).to_multiset().count(d) == if suppresses(
                source_directives(source),
                d.line,
                d.code,
            ) {
                0
            } else {
                raw.to_multiset().count(d)
            }
        }),
{
    let src = encode_utf8(source);
    let raw = rules_findings(rules, ns, src, least_bindings(ns, src), rules.len() as int);
    law_file_findings(rules, ns, source);
    lemma_unsuppressed_count(raw, source_directives(source), raw.len() as int, d);
    assert(raw.take(raw.len() as int) =~= raw);
}

/// The findings reported for a file are sorted by (line, column, code), none
/// lies on a line whose directives suppress its code, and they are exactly the
/// rules' findings on unsuppressed lines, each as often as the rules report it.
pub proof fn law_file_findings(rules: Seq<BuiltinRule>, ns: Seq<SyntaxNode>, source: Seq<char>)
    ensures
        sorted_by_key(file_findings(rules, ns, source)),
        forall|k: int|
            0 <= k < file_findings(rules, ns, source).len() ==> !suppresses(
                source_directives(source),
                (#[trigger] file_findings(rules, ns, source)[k]).line,
                file_findings(rules, ns, source)[k].code,
            ),
        ({
            let src = encode_utf8(source);
            let raw = rules_findings(rules, ns, src, least_bindings(ns, src), rules.len() as int);
            file_findings(rules, ns, source).to_multiset() == unsuppressed(
                raw,
                source_directives(source),
                raw.len() as int,
            ).to_multiset()
        }),
{
    broadcast use vstd::seq_lib::group_to_multiset_ensures;

    let src = encode_utf8(source);
    let raw = rules_findings(rules, ns, src, least_bindings(ns, src), rules.len() as int);
    let dirs = source_directives(source);
    let kept = unsuppressed(raw, dirs, raw.len() as int);
    lemma_sort_by_key(kept);
    lemma_unsuppressed(raw, dirs, raw.len() as int);
    let out = file_findings(rules, ns, source);
    assert forall|k: int| 0 <= k < out.len() implies !suppresses(
        dirs,
        (#[trigger] out[k]).line,
        out[k].code,
    ) by {
        assert(out.to_multiset().count(out[k]) > 0);
        assert(kept.to_multiset().count(out[k]) > 0);
        assert(kept.contains(out[k]));
        let w = choose|w: int| 0 <= w < kept.len() && #[trigger] kept[w] == out[k];
        assert(!suppresses(dirs, kept[w].line, kept[w].code));
    }
}

/// Every finding of the first `m` rules carries the code of one of them.
pub proof fn lemma_rules_findings_codes(
    rules: Seq<BuiltinRule>,
    ns: Seq<SyntaxNode>,
    src: Seq<u8>,
    vars: Set<Seq<char>>,
    m: int,
)
    requires
        m <= rules.len(),
    ensures
        forall|k: int|
            0 <= k < rules_findings(rules, ns, src, vars, m).len() ==> exists|j: int|
                0 <= j < m && (#[trigger] rules_findings(rules, ns, src, vars, m)[k]).code
                    == rules[j].spec_code(),
    decreases m,
{
    if m > 0 {
        lemma_rules_findings_codes(rules, ns, src, vars, m - 1);
        lemma_findings_have_code(rules[m - 1], ns, src, vars);
        let prev = rules_findings(rules, ns, src, vars, m - 1);
        let last = rules[m - 1].spec_findings(ns, src, vars);
        let cur = rules_findings(rules, ns, src, vars, m);
        assert forall|k: int| 0 <= k < cur.len() implies exists|j: int|
            0 <= j < m && (#[trigger] cur[k]).code == rules[j].spec_code() by {
            if k < prev.len() {
                assert(cur[k] == prev[k]);
                let j = choose|j: int| 0 <= j < m - 1 && (#[trigger] prev[k]).code == rules[j].spec_code();
            } else {
                assert(cur[k] == last[k - prev.len()]);
                assert(cur[k].code == rules[m - 1].spec_code());
            }
        }
    }
}

/// A rule disabled by the configuration reports nothing: every finding of the
/// rule set built from `disabled` carries the code of a rule left enabled.
pub proof fn law_disabled_rules_report_nothing(
    disabled: Seq<String>,
    ns: Seq<SyntaxNode>,
    source: Seq<char>,
)
    ensures
        forall|k: int|
            0 <= k < file_findings(enabled_builtins(disabled), ns, source).len() ==> rule_enabled(
                disabled,
                (#[trigger] file_findings(enabled_builtins(disabled), ns, source)[k]).code,
            ),
{
    broadcast use vstd::seq_lib::group_to_multiset_ensures;

    let rules = enabled_builtins(disabled);
    let src = encode_utf8(source);
    let vars = least_bindings(ns, src);
    let raw = rules_findings(rules, ns, src, vars, rules.len() as int);
    let dirs = source_directives(source);
    let kept = unsuppressed(raw, dirs, raw.len() as int);
    let out = file_findings(rules, ns, source);
    law_file_findings(rules, ns, source);
    lemma_unsuppressed(raw, dirs, raw.len() as int);
    lemma_rules_findings_codes(rules, ns, src, vars, rules.len() as int);
    lemma_enabled_builtins(disabled);
    assert forall|k: int| 0 <= k < out.len() implies rule_enabled(disabled, (#[trigger] out[k]).code) by {
        assert(out.to_multiset().count(out[k]) > 0);
        assert(kept.to_multiset().count(out[k]) > 0);
        assert(kept.contains(out[k]));
        let w = choose|w: int| 0 <= w < kept.len() && #[trigger] kept[w] == out[k];
        assert(raw.take(raw.len() as int).contains(kept[w]));
        assert(raw.take(raw.len() as int) =~= raw);
        let v = choose|v: int| 0 <= v < raw.len() && #[trigger] raw[v] == kept[w];
        let j = choose|j: int| 0 <= j < rules.len() && (#[trigger] raw[v]).code == rules[j].spec_code();
        assert(rule_enabled(disabled, rules[j].spec_code()));
    }
}

} // verus!
