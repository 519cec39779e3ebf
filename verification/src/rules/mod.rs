//! Rule engine: the [`Rule`] trait, the built-in rules, and the registry that
//! instantiates them (honouring the `disabled` configuration list).

pub mod n001_nplus1;
pub mod p001_in_memory_count;
pub mod p002_redundant_truthiness;

use vstd::prelude::*;

use crate::config::Config;
use crate::diagnostic::{diag_views, Diagnostic, DiagnosticView};
use crate::engine::suppress::{to_uppercase, upper_case};
use crate::rules::n001_nplus1::NPlusOne;
use crate::rules::p001_in_memory_count::InMemoryCount;
use crate::rules::p002_redundant_truthiness::RedundantTruthiness;
use crate::text::str_eq;
use crate::engine::syntax::SyntaxNode;
use crate::engine::FileUnit;
use vstd::string::StringSliceAdditionalSpecFns;

verus! {

/// A single lint rule.
pub trait Rule {
    /// The rule's code.
    spec fn spec_code(&self) -> Seq<char>;

    /// The rule's name.
    spec fn spec_name(&self) -> Seq<char>;

    /// The rule's one-line description.
    spec fn spec_description(&self) -> Seq<char>;

    /// The findings of the rule on a module with nodes `ns`, source bytes
    /// `src`, and QuerySet names `vars`.
    spec fn spec_findings(
        &self,
        ns: Seq<SyntaxNode>,
        src: Seq<u8>,
        vars: Set<Seq<char>>,
    ) -> Seq<DiagnosticView>;

    /// Stable identifier, e.g. `"P001"`.
    fn code(&self) -> (r: &'static str)
        ensures
            r@ == self.spec_code(),
    ;

    /// Short machine-friendly name, e.g. `"in-memory-counting"`.
    fn name(&self) -> (r: &'static str)
        ensures
            r@ == self.spec_name(),
    ;

    /// One-line human description (used in SARIF rule metadata).
    fn description(&self) -> (r: &'static str)
        ensures
            r@ == self.spec_description(),
    ;

    /// Analyse one file and return its findings.
    fn check(&self, unit: &FileUnit) -> (r: Vec<Diagnostic>)
        requires
            unit.tree.wf(),
        ensures
            diag_views(r@) == self.spec_findings(
                unit.tree.nodes@,
                unit.source.spec_bytes(),
                unit.bindings@,
            ),
    ;
}

/// The findings that `f` gives for the nodes from `j` up to `stop`, in order.
pub open spec fn concat_range(
    f: spec_fn(int) -> Seq<DiagnosticView>,
    j: int,
    stop: int,
) -> Seq<DiagnosticView>
    decreases stop - j,
{
    if j >= stop {
        seq![]
    } else {
        concat_range(f, j, stop - 1) + f(stop - 1)
    }
}

/// Every finding that `f` gives at a node from `j` up to `stop` is among the
/// findings of the range.
pub proof fn lemma_concat_range_holds(
    f: spec_fn(int) -> Seq<DiagnosticView>,
    j: int,
    stop: int,
    i: int,
    k: int,
)
    requires
        j <= i < stop,
        0 <= k < f(i).len(),
    ensures
        exists|q: int| 0 <= q < concat_range(f, j, stop).len() && #[trigger] concat_range(f, j, stop)[q] == f(i)[k],
    decreases stop - j,
{
    let before = concat_range(f, j, stop - 1);
    assert(concat_range(f, j, stop) == before + f(stop - 1));
    if i == stop - 1 {
        assert(concat_range(f, j, stop)[before.len() + k] == f(i)[k]);
    } else {
        lemma_concat_range_holds(f, j, stop - 1, i, k);
        let q = choose|q: int| 0 <= q < before.len() && #[trigger] before[q] == f(i)[k];
        assert(concat_range(f, j, stop)[q] == f(i)[k]);
    }
}

/// The number of nodes that a rule scans: the root's subtree.
pub open spec fn scan_end(ns: Seq<SyntaxNode>) -> int {
    if ns.len() == 0 {
        0
    } else {
        ns[0].end as int
    }
}


/// One of the built-in rules.
pub enum BuiltinRule {
    NPlusOne(NPlusOne),
    InMemoryCount(InMemoryCount),
    RedundantTruthiness(RedundantTruthiness),
}

impl Rule for BuiltinRule {
    open spec fn spec_code(&self) -> Seq<char> {
        match self {
            BuiltinRule::NPlusOne(r) => r.spec_code(),
            BuiltinRule::InMemoryCount(r) => r.spec_code(),
            BuiltinRule::RedundantTruthiness(r) => r.spec_code(),
        }
    }

    open spec fn spec_name(&self) -> Seq<char> {
        match self {
            BuiltinRule::NPlusOne(r) => r.spec_name(),
            BuiltinRule::InMemoryCount(r) => r.spec_name(),
            BuiltinRule::RedundantTruthiness(r) => r.spec_name(),
        }
    }

    open spec fn spec_description(&self) -> Seq<char> {
        match self {
            BuiltinRule::NPlusOne(r) => r.spec_description(),
            BuiltinRule::InMemoryCount(r) => r.spec_description(),
            BuiltinRule::RedundantTruthiness(r) => r.spec_description(),
        }
    }

    open spec fn spec_findings(
        &self,
        ns: Seq<SyntaxNode>,
        src: Seq<u8>,
        vars: Set<Seq<char>>,
    ) -> Seq<DiagnosticView> {
        match self {
            BuiltinRule::NPlusOne(r) => r.spec_findings(ns, src, vars),
            BuiltinRule::InMemoryCount(r) => r.spec_findings(ns, src, vars),
            BuiltinRule::RedundantTruthiness(r) => r.spec_findings(ns, src, vars),
        }
    }

    fn code(&self) -> (r: &'static str) {
        match self {
            BuiltinRule::NPlusOne(r) => r.code(),
            BuiltinRule::InMemoryCount(r) => r.code(),
            BuiltinRule::RedundantTruthiness(r) => r.code(),
        }
    }

    fn name(&self) -> (r: &'static str) {
        match self {
            BuiltinRule::NPlusOne(r) => r.name(),
            BuiltinRule::InMemoryCount(r) => r.name(),
            BuiltinRule::RedundantTruthiness(r) => r.name(),
        }
    }

    fn description(&self) -> (r: &'static str) {
        match self {
            BuiltinRule::NPlusOne(r) => r.description(),
            BuiltinRule::InMemoryCount(r) => r.description(),
            BuiltinRule::RedundantTruthiness(r) => r.description(),
        }
    }

    fn check(&self, unit: &FileUnit) -> (r: Vec<Diagnostic>) {
        match self {
            BuiltinRule::NPlusOne(r) => r.check(unit),
            BuiltinRule::InMemoryCount(r) => r.check(unit),
            BuiltinRule::RedundantTruthiness(r) => r.check(unit),
        }
    }
}

/// A rule with code `code` stays enabled: no entry of `disabled`, uppercased,
/// is that code.
pub open spec fn rule_enabled(disabled: Seq<String>, code: Seq<char>) -> bool {
    !exists|k: int| 0 <= k < disabled.len() && #[trigger] upper_case(disabled[k]@) == code
}

/// `rule` alone when it stays enabled, nothing otherwise.
pub open spec fn keep_enabled(disabled: Seq<String>, rule: BuiltinRule) -> Seq<BuiltinRule> {
    if rule_enabled(disabled, rule.spec_code()) {
        seq![rule]
    } else {
        seq![]
    }
}

/// The built-in rules in registry order (N001, P001, P002), those disabled left out.
pub open spec fn enabled_builtins(disabled: Seq<String>) -> Seq<BuiltinRule> {
    keep_enabled(disabled, BuiltinRule::NPlusOne(NPlusOne))
        + keep_enabled(disabled, BuiltinRule::InMemoryCount(InMemoryCount))
        + keep_enabled(disabled, BuiltinRule::RedundantTruthiness(RedundantTruthiness))
}

/// Whether a rule with code `code` stays enabled under the uppercased
/// `disabled` list.
fn is_enabled(disabled_upper: &Vec<String>, code: &str) -> (r: bool)
    ensures
        r == !exists|k: int| 0 <= k < disabled_upper@.len() && #[trigger] disabled_upper@[k]@ == code@,
{
    let mut k: usize = 0;
    while k < disabled_upper.len()
        invariant
            0 <= k <= disabled_upper@.len(),
            forall|q: int| 0 <= q < k ==> disabled_upper@[q]@ != code@,
        decreases disabled_upper.len() - k,
    {
        if str_eq(disabled_upper[k].as_str(), code) {
            assert(disabled_upper@[k as int]@ == code@);
            return false;
        }
        k += 1;
    }
    true
}

/// Build the active rule set, dropping anything listed in `config.rules.disabled`.
pub fn build_rules(config: &Config) -> (r: Vec<BuiltinRule>)
    ensures
        r@ == enabled_builtins(config.rules.disabled@),
{
    let disabled = &config.rules.disabled;
    let mut upper: Vec<String> = Vec::new();
    let mut k: usize = 0;
    while k < disabled.len()
        invariant
            0 <= k <= disabled@.len(),
            upper@.len() == k,
            forall|q: int| 0 <= q < k ==> #[trigger] upper@[q]@ == upper_case(disabled@[q]@),
        decreases disabled.len() - k,
    {
        upper.push(to_uppercase(disabled[k].as_str()));
        k += 1;
    }
    let all = vec![
        BuiltinRule::NPlusOne(NPlusOne::new()),
        BuiltinRule::InMemoryCount(InMemoryCount::new()),
        BuiltinRule::RedundantTruthiness(RedundantTruthiness::new()),
    ];
    let mut out: Vec<BuiltinRule> = Vec::new();
    let mut i: usize = 0;
    while i < all.len()
        invariant
            all@ == seq![
                BuiltinRule::NPlusOne(NPlusOne),
                BuiltinRule::InMemoryCount(InMemoryCount),
                BuiltinRule::RedundantTruthiness(RedundantTruthiness),
            ],
            upper@.len() == disabled@.len(),
            forall|q: int| 0 <= q < disabled@.len() ==> #[trigger] upper@[q]@ == upper_case(disabled@[q]@),
            0 <= i <= 3,
            out@ == (if i >= 1 { keep_enabled(disabled@, all@[0]) } else { seq![] }) + (if i >= 2 {
                keep_enabled(disabled@, all@[1])
            } else {
                seq![]
            }) + (if i >= 3 { keep_enabled(disabled@, all@[2]) } else { seq![] }),
        decreases 3 - i,
    {
        let rule = match i {
            0 => BuiltinRule::NPlusOne(NPlusOne::new()),
            1 => BuiltinRule::InMemoryCount(InMemoryCount::new()),
            _ => BuiltinRule::RedundantTruthiness(RedundantTruthiness::new()),
        };
        assert(rule == all@[i as int]);
        let enabled = is_enabled(&upper, rule.code());
        proof {
            assert(enabled == rule_enabled(disabled@, rule.spec_code())) by {
                if !enabled {
                    let q = choose|q: int| 0 <= q < upper@.len() && #[trigger] upper@[q]@ == rule.spec_code();
                    assert(upper_case(disabled@[q]@) == rule.spec_code());
                }
                if !rule_enabled(disabled@, rule.spec_code()) {
                    let q = choose|q: int| 0 <= q < disabled@.len() && #[trigger] upper_case(disabled@[q]@) == rule.spec_code();
                    assert(upper@[q]@ == rule.spec_code());
                }
            }
        }
        let ghost before = out@;
        if enabled {
            out.push(rule);
        }
        assert(out@ =~= before + keep_enabled(disabled@, all@[i as int]));
        i += 1;
    }
    assert(out@ =~= enabled_builtins(disabled@));
    out
}

/// The (code, name, description) of every built-in rule, in registry order.
pub open spec fn builtin_metadata() -> Seq<(Seq<char>, Seq<char>, Seq<char>)> {
    seq![
        (
            crate::rules::n001_nplus1::CODE@,
            crate::rules::n001_nplus1::NAME@,
            crate::rules::n001_nplus1::DESCRIPTION@,
        ),
        (
            crate::rules::p001_in_memory_count::CODE@,
            crate::rules::p001_in_memory_count::NAME@,
            crate::rules::p001_in_memory_count::DESCRIPTION@,
        ),
        (
            crate::rules::p002_redundant_truthiness::CODE@,
            crate::rules::p002_redundant_truthiness::NAME@,
            crate::rules::p002_redundant_truthiness::DESCRIPTION@,
        ),
    ]
}

/// Return the metadata of every built-in rule (for `--list-rules` / SARIF).
pub fn all_rule_metadata() -> (r: Vec<(&'static str, &'static str, &'static str)>)
    ensures
        r@.len() == builtin_metadata().len(),
        forall|k: int|
            0 <= k < r@.len() ==> (#[trigger] r@[k]).0@ == builtin_metadata()[k].0 && r@[k].1@
                == builtin_metadata()[k].1 && r@[k].2@ == builtin_metadata()[k].2,
{
    let rules = build_rules(&Config::default());
    assert(rules@ =~= seq![
        BuiltinRule::NPlusOne(NPlusOne),
        BuiltinRule::InMemoryCount(InMemoryCount),
        BuiltinRule::RedundantTruthiness(RedundantTruthiness),
    ]);
    let mut out: Vec<(&'static str, &'static str, &'static str)> = Vec::new();
    let mut k: usize = 0;
    while k < rules.len()
        invariant
            rules@ == seq![
                BuiltinRule::NPlusOne(NPlusOne),
                BuiltinRule::InMemoryCount(InMemoryCount),
                BuiltinRule::RedundantTruthiness(RedundantTruthiness),
            ],
            0 <= k <= 3,
            out@.len() == k,
            forall|q: int|
                0 <= q < k ==> (#[trigger] out@[q]).0@ == builtin_metadata()[q].0 && out@[q].1@
                    == builtin_metadata()[q].1 && out@[q].2@ == builtin_metadata()[q].2,
        decreases 3 - k,
    {
        let r = &rules[k];
        out.push((r.code(), r.name(), r.description()));
        k += 1;
    }
    out
}

/// Every finding of `s` carries the code `c`.
pub open spec fn all_with_code(s: Seq<DiagnosticView>, c: Seq<char>) -> bool {
    forall|k: int| 0 <= k < s.len() ==> (#[trigger] s[k]).code == c
}

pub proof fn lemma_concat_range_code(
    f: spec_fn(int) -> Seq<DiagnosticView>,
    j: int,
    stop: int,
    c: Seq<char>,
)
    requires
        forall|i: int| j <= i < stop ==> all_with_code(#[trigger] f(i), c),
    ensures
        all_with_code(concat_range(f, j, stop), c),
    decreases stop - j,
{
    if j < stop {
        lemma_concat_range_code(f, j, stop - 1, c);
        let prev = concat_range(f, j, stop - 1);
        let last = f(stop - 1);
        assert forall|k: int| 0 <= k < prev.len() + last.len() implies (#[trigger] (prev + last)[k]).code
            == c by {
            if k < prev.len() {
                assert((prev + last)[k] == prev[k]);
            } else {
                assert((prev + last)[k] == last[k - prev.len()]);
            }
        }
    }
}

/// Every finding of a built-in rule carries that rule's code.
pub proof fn lemma_findings_have_code(
    rule: BuiltinRule,
    ns: Seq<SyntaxNode>,
    src: Seq<u8>,
    vars: Set<Seq<char>>,
)
    ensures
        all_with_code(rule.spec_findings(ns, src, vars), rule.spec_code()),
{
    match rule {
        BuiltinRule::NPlusOne(r) => {
            let f = crate::rules::n001_nplus1::n001_fn(ns, src, vars);
            assert forall|i: int| 0 <= i < scan_end(ns) implies all_with_code(
                #[trigger] f(i),
                r.spec_code(),
            ) by {
                crate::rules::n001_nplus1::lemma_n001_at_code(ns, src, vars, i);
            }
            lemma_concat_range_code(f, 0, scan_end(ns), r.spec_code());
        },
        BuiltinRule::InMemoryCount(r) => {
            let f = crate::rules::p001_in_memory_count::p001_fn(ns, src, vars);
            assert forall|i: int| 0 <= i < scan_end(ns) implies all_with_code(
                #[trigger] f(i),
                r.spec_code(),
            ) by {}
            lemma_concat_range_code(f, 0, scan_end(ns), r.spec_code());
        },
        BuiltinRule::RedundantTruthiness(r) => {
            let f = crate::rules::p002_redundant_truthiness::p002_fn(ns, src, vars);
            assert forall|i: int| 0 <= i < scan_end(ns) implies all_with_code(
                #[trigger] f(i),
                r.spec_code(),
            ) by {}
            lemma_concat_range_code(f, 0, scan_end(ns), r.spec_code());
        },
    }
}

/// Every rule of the enabled set is one that `disabled` leaves enabled.
pub proof fn lemma_enabled_builtins(disabled: Seq<String>)
    ensures
        forall|j: int|
            0 <= j < enabled_builtins(disabled).len() ==> rule_enabled(
                disabled,
                (#[trigger] enabled_builtins(disabled)[j]).spec_code(),
            ),
{
    let a = keep_enabled(disabled, BuiltinRule::NPlusOne(NPlusOne));
    let b = keep_enabled(disabled, BuiltinRule::InMemoryCount(InMemoryCount));
    let c = keep_enabled(disabled, BuiltinRule::RedundantTruthiness(RedundantTruthiness));
    let all = enabled_builtins(disabled);
    assert forall|j: int| 0 <= j < all.len() implies rule_enabled(
        disabled,
        (#[trigger] all[j]).spec_code(),
    ) by {
        if j < a.len() {
            assert(all[j] == a[j]);
        } else if j < a.len() + b.len() {
            assert(all[j] == b[j - a.len()]);
        } else {
            assert(all[j] == c[j - a.len() - b.len()]);
        }
    }
}

} // verus!
