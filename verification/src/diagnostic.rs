//! Core diagnostic types shared by the engine, the rules and the reports.

use vstd::prelude::*;

use crate::engine::syntax::{node_ok, SyntaxNode, SyntaxTree};

verus! {

/// Severity of a finding; maps onto the SARIF `level`.
#[derive(Clone, Copy, Debug, PartialEq, Eq, Structural)]
pub enum Severity {
    Error,
    Warning,
    Note,
}

/// The SARIF 2.1.0 `level` text of a severity.
pub open spec fn sarif_level_text(s: Severity) -> Seq<char> {
    match s {
        Severity::Error => "error"@,
        Severity::Warning => "warning"@,
        Severity::Note => "note"@,
    }
}

impl Severity {
    /// SARIF 2.1.0 `level` string.
    pub fn sarif_level(self) -> (r: &'static str)
        ensures
            r@ == sarif_level_text(self),
    {
        match self {
            Severity::Error => "error",
            Severity::Warning => "warning",
            Severity::Note => "note",
        }
    }
}

/// A single finding produced by a rule. Byte offsets serve span-accurate
/// rendering; the 1-based line/column pairs serve text and JSON output.
#[derive(Debug, Clone)]
pub struct Diagnostic {
    /// Stable rule identifier, e.g. `"P001"`.
    pub code: &'static str,
    /// Human readable rule name, e.g. `"in-memory-counting"`.
    pub rule_name: &'static str,
    pub severity: Severity,
    /// Primary message shown to the user.
    pub message: String,
    /// Short text rendered on the underline arrow.
    pub label: String,
    /// Optional remediation advice.
    pub help: Option<String>,
    pub start_byte: usize,
    pub end_byte: usize,
    /// 1-based line of the span start.
    pub line: usize,
    /// 1-based column of the span start.
    pub column: usize,
    pub end_line: usize,
    pub end_column: usize,
}

/// The content of a [`Diagnostic`], texts as character sequences.
pub ghost struct DiagnosticView {
    pub code: Seq<char>,
    pub rule_name: Seq<char>,
    pub severity: Severity,
    pub message: Seq<char>,
    pub label: Seq<char>,
    pub help: Option<Seq<char>>,
    pub start_byte: int,
    pub end_byte: int,
    pub line: int,
    pub column: int,
    pub end_line: int,
    pub end_column: int,
}

impl View for Diagnostic {
    type V = DiagnosticView;

    open spec fn view(&self) -> DiagnosticView {
        DiagnosticView {
            code: self.code@,
            rule_name: self.rule_name@,
            severity: self.severity,
            message: self.message@,
            label: self.label@,
            help: match self.help {
                Some(h) => Some(h@),
                None => None,
            },
            start_byte: self.start_byte as int,
            end_byte: self.end_byte as int,
            line: self.line as int,
            column: self.column as int,
            end_line: self.end_line as int,
            end_column: self.end_column as int,
        }
    }
}

/// The views of a sequence of diagnostics.
pub open spec fn diag_views(v: Seq<Diagnostic>) -> Seq<DiagnosticView> {
    v.map_values(|d: Diagnostic| d@)
}

/// The diagnostic whose span is that of node `i`, with the given texts.
pub open spec fn diagnostic_at(
    code: Seq<char>,
    rule_name: Seq<char>,
    severity: Severity,
    ns: Seq<SyntaxNode>,
    i: int,
    message: Seq<char>,
    label: Seq<char>,
    help: Option<Seq<char>>,
) -> DiagnosticView {
    DiagnosticView {
        code,
        rule_name,
        severity,
        message,
        label,
        help,
        start_byte: ns[i].start_byte as int,
        end_byte: ns[i].end_byte as int,
        line: ns[i].start_row + 1,
        column: ns[i].start_column + 1,
        end_line: ns[i].end_row + 1,
        end_column: ns[i].end_column + 1,
    }
}

/// The length the highlighted span is drawn with: its byte length, at least 1.
pub open spec fn span_length(d: DiagnosticView) -> int {
    if d.end_byte - d.start_byte >= 1 {
        d.end_byte - d.start_byte
    } else {
        1
    }
}

impl Diagnostic {
    /// Build a diagnostic whose span is taken verbatim from `node`.
    pub fn from_node(
        code: &'static str,
        rule_name: &'static str,
        severity: Severity,
        tree: &SyntaxTree,
        node: usize,
        message: String,
        label: String,
        help: Option<String>,
    ) -> (d: Diagnostic)
        requires
            tree.wf(),
            node < tree.nodes@.len(),
        ensures
            d@ == diagnostic_at(
                code@,
                rule_name@,
                severity,
                tree.nodes@,
                node as int,
                message@,
                label@,
                match help {
                    Some(h) => Some(h@),
                    None => None,
                },
            ),
    {
        assert(node_ok(tree.nodes@, node as int));
        let n = tree.nodes[node];
        Diagnostic {
            code,
            rule_name,
            severity,
            message,
            label,
            help,
            start_byte: n.start_byte,
            end_byte: n.end_byte,
            line: n.start_row + 1,
            column: n.start_column + 1,
            end_line: n.end_row + 1,
            end_column: n.end_column + 1,
        }
    }

    /// Byte length of the highlighted span (at least 1, so a marker is always drawn).
    pub fn span_len(&self) -> (r: usize)
        ensures
            r == span_length(self@),
    {
        let len = self.end_byte.saturating_sub(self.start_byte);
        if len > 1 {
            len
        } else {
            1
        }
    }
}

/// All findings for one source file, with the source text that snippets are
/// drawn from.
#[derive(Debug, Clone)]
pub struct FileReport {
    /// The file's path, as text.
    pub path: String,
    pub source: String,
    pub diagnostics: Vec<Diagnostic>,
}

} // verus!
