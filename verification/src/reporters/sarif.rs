//! SARIF 2.1.0 report records: the rule descriptors of `tool.driver.rules`
//! and one result per finding. SARIF regions use 1-based lines and columns.

use vstd::prelude::*;
use vstd::string::StringExecFns;

use crate::diagnostic::{sarif_level_text, FileReport};
use crate::rules::{all_rule_metadata, builtin_metadata};

verus! {

/// The link under which a rule's documentation lives, before the rule's anchor.
pub const HELP_URI_BASE: &'static str = "https://github.com/ak4code/djqlint#";

/// The lowercase form of `s` (`str::to_lowercase`).
pub uninterp spec fn lower_case(s: Seq<char>) -> Seq<char>;

/// `str::to_lowercase`. The contract says only that the result is
/// [`lower_case`] of `s`.
#[verifier::external_body]
fn to_lowercase(s: &str) -> (r: String)
    ensures
        r@ == lower_case(s@),
{
    s.to_lowercase()
}

/// `s` with every `\` replaced by `/`.
pub open spec fn forward_slashes(s: Seq<char>) -> Seq<char> {
    s.map_values(|c: char| if c == '\\' { '/' } else { c })
}

/// `str::replace('\\', "/")`: every backslash of `s` becomes a slash, as the
/// documentation of `replace` states for a character pattern.
#[verifier::external_body]
fn replace_backslashes(s: &str) -> (r: String)
    ensures
        r@ == forward_slashes(s@),
{
    s.replace('\\', "/")
}

/// A rule descriptor of `tool.driver.rules`.
pub struct SarifRule {
    pub id: &'static str,
    pub name: &'static str,
    /// Both the short and the full description.
    pub description: &'static str,
    pub help_uri: String,
}

/// One SARIF `result`.
pub struct SarifResult {
    pub rule_id: &'static str,
    pub level: &'static str,
    pub message: String,
    pub uri: String,
    pub start_line: usize,
    pub start_column: usize,
    pub end_line: usize,
    pub end_column: usize,
}

/// The descriptors of every built-in rule, in registry order.
pub fn rule_descriptors() -> (r: Vec<SarifRule>)
    ensures
        r@.len() == builtin_metadata().len(),
        forall|k: int|
            0 <= k < r@.len() ==> {
                &&& (#[trigger] r@[k]).id@ == builtin_metadata()[k].0
                &&& r@[k].name@ == builtin_metadata()[k].1
                &&& r@[k].description@ == builtin_metadata()[k].2
                &&& r@[k].help_uri@ == HELP_URI_BASE@ + lower_case(builtin_metadata()[k].0)
            },
{
    let meta = all_rule_metadata();
    let mut out: Vec<SarifRule> = Vec::new();
    let mut k: usize = 0;
    while k < meta.len()
        invariant
            meta@.len() == builtin_metadata().len(),
            forall|q: int|
                0 <= q < meta@.len() ==> (#[trigger] meta@[q]).0@ == builtin_metadata()[q].0
                    && meta@[q].1@ == builtin_metadata()[q].1 && meta@[q].2@
                    == builtin_metadata()[q].2,
            0 <= k <= meta@.len(),
            out@.len() == k,
            forall|q: int|
                0 <= q < k ==> {
                    &&& (#[trigger] out@[q]).id@ == builtin_metadata()[q].0
                    &&& out@[q].name@ == builtin_metadata()[q].1
                    &&& out@[q].description@ == builtin_metadata()[q].2
                    &&& out@[q].help_uri@ == HELP_URI_BASE@ + lower_case(builtin_metadata()[q].0)
                },
        decreases meta.len() - k,
    {
        let (code, name, description) = meta[k];
        let lower = to_lowercase(code);
        let mut help_uri = String::from_str(HELP_URI_BASE);
        help_uri.append(lower.as_str());
        out.push(SarifRule { id: code, name, description, help_uri });
        k += 1;
    }
    out
}

/// The SARIF results of one file, one per finding, in order.
pub fn result_value(file: &FileReport) -> (r: Vec<SarifResult>)
    ensures
        r@.len() == file.diagnostics@.len(),
        forall|k: int|
            0 <= k < r@.len() ==> {
                let d = file.diagnostics@[k];
                &&& (#[trigger] r@[k]).rule_id@ == d.code@
                &&& r@[k].level@ == sarif_level_text(d.severity)
                &&& r@[k].message@ == d.message@
                &&& r@[k].uri@ == forward_slashes(file.path@)
                &&& r@[k].start_line == d.line
                &&& r@[k].start_column == d.column
                &&& r@[k].end_line == d.end_line
                &&& r@[k].end_column == d.end_column
            },
{
    let uri = replace_backslashes(file.path.as_str());
    let diags = &file.diagnostics;
    let mut out: Vec<SarifResult> = Vec::new();
    let mut k: usize = 0;
    while k < diags.len()
        invariant
            diags@ == file.diagnostics@,
            uri@ == forward_slashes(file.path@),
            0 <= k <= diags@.len(),
            out@.len() == k,
            forall|q: int|
                0 <= q < k ==> {
                    let d = diags@[q];
                    &&& (#[trigger] out@[q]).rule_id@ == d.code@
                    &&& out@[q].level@ == sarif_level_text(d.severity)
                    &&& out@[q].message@ == d.message@
                    &&& out@[q].uri@ == forward_slashes(file.path@)
                    &&& out@[q].start_line == d.line
                    &&& out@[q].start_column == d.column
                    &&& out@[q].end_line == d.end_line
                    &&& out@[q].end_column == d.end_column
                },
        decreases diags.len() - k,
    {
        let d = &diags[k];
        out.push(
            SarifResult {
                rule_id: d.code,
                level: d.severity.sarif_level(),
                message: d.message.clone(),
                uri: uri.clone(),
                start_line: d.line,
                start_column: d.column,
                end_line: d.end_line,
                end_column: d.end_column,
            },
        );
        k += 1;
    }
    out
}

} // verus!
