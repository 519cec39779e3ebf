//! Tests of the library's parts on concrete values: suppression directives,
//! the QuerySet model, rule messages and spans, ordering, the rule registry,
//! the summary, the SARIF records, the file filters and the run decisions.

use djqlint::cli::{default_log_level, Cli, OutputFormat};
use djqlint::config::{default_true, Config, FilesConfig, RulesConfig};
use djqlint::diagnostic::{Diagnostic, FileReport, Severity};
use djqlint::engine::parser::parse;
use djqlint::engine::queryset::{collect_bindings, expr_is_queryset, has_eager_loading};
use djqlint::engine::suppress::{LineRule, Suppressions};
use djqlint::engine::syntax::NodeKind;
use djqlint::engine::util::{node_text, significant_named_children, walk_preorder};
use djqlint::engine::walker::{eq_ignore_ascii_case, is_excluded, is_python_file, path_less, sort_dedup_paths};
use djqlint::engine::analyze_source;
use djqlint::reporters::sarif::{result_value, rule_descriptors};
use djqlint::reporters::Summary;
use djqlint::rules::{all_rule_metadata, build_rules, Rule};
use djqlint::text::{lines_of, split_codes, str_contains};

fn report_for(src: &str) -> Option<FileReport> {
    let rules = build_rules(&Config::default());
    analyze_source("app/views.py", src, &rules)
}

fn codes_for(src: &str) -> Vec<String> {
    match report_for(src) {
        Some(r) => r.diagnostics.iter().map(|d| d.code.to_string()).collect(),
        None => Vec::new(),
    }
}

fn diag(code: &'static str, line: usize, column: usize) -> Diagnostic {
    Diagnostic {
        code,
        rule_name: "rule",
        severity: Severity::Warning,
        message: String::new(),
        label: String::new(),
        help: None,
        start_byte: 0,
        end_byte: 0,
        line,
        column,
        end_line: line,
        end_column: column,
    }
}

// --- suppression directives -------------------------------------------------

#[test]
fn bare_noqa_suppresses_every_code_on_its_line_only() {
    let s = Suppressions::parse("a = 1  # noqa\nb = 2\n");
    assert!(s.is_suppressed(1, "P001"));
    assert!(s.is_suppressed(1, "N001"));
    assert!(!s.is_suppressed(2, "P001"));
}

#[test]
fn noqa_with_codes_suppresses_only_those_codes() {
    let s = Suppressions::parse("x  # noqa: P001, djqlint-N001\n");
    assert!(s.is_suppressed(1, "P001"));
    assert!(s.is_suppressed(1, "N001"));
    assert!(!s.is_suppressed(1, "P002"));
}

#[test]
fn noqa_codes_are_case_insensitive() {
    let s = Suppressions::parse("x  # NOQA: djqlint-p002\n");
    assert!(s.is_suppressed(1, "P002"));
    assert!(s.is_suppressed(1, "p002"));
    assert!(!s.is_suppressed(1, "P001"));
}

#[test]
fn noqa_codes_are_trimmed() {
    let s = Suppressions::parse("x  # noqa:\tP001\n");
    assert!(s.is_suppressed(1, "P001"));
}

#[test]
fn djqlint_disable_with_codes() {
    let s = Suppressions::parse("x  # djqlint: disable=P001,N001\n");
    assert!(s.is_suppressed(1, "P001"));
    assert!(s.is_suppressed(1, "N001"));
    assert!(!s.is_suppressed(1, "P002"));
}

#[test]
fn djqlint_disable_without_codes_suppresses_all() {
    let s = Suppressions::parse("x  # djqlint: disable\n");
    assert!(s.is_suppressed(1, "P001"));
    assert!(s.is_suppressed(1, "ANY"));
}

#[test]
fn disable_and_noqa_codes_are_joined() {
    let s = Suppressions::parse("x  # djqlint: disable=P001  # noqa: N001\n");
    assert!(s.is_suppressed(1, "P001"));
    assert!(s.is_suppressed(1, "N001"));
    assert!(!s.is_suppressed(1, "P002"));
}

#[test]
fn lines_without_directives_and_out_of_range_lines_are_not_suppressed() {
    let s = Suppressions::parse("# a plain comment\nx = 1\n");
    assert!(!s.is_suppressed(1, "P001"));
    assert!(!s.is_suppressed(2, "P001"));
    assert!(!s.is_suppressed(0, "P001"));
    assert!(!s.is_suppressed(3, "P001"));
}

#[test]
fn crlf_lines_are_numbered_like_lf_lines() {
    let s = Suppressions::parse("a = 1\r\nb = 2  # noqa\r\n");
    assert!(!s.is_suppressed(1, "P001"));
    assert!(s.is_suppressed(2, "P001"));
}

#[test]
fn suppression_applies_to_findings_of_its_line() {
    let src = "n = len(User.objects.all())  # noqa: N001\nm = len(User.objects.all())  # noqa: P001\n";
    let report = report_for(src).expect("one finding left");
    assert_eq!(report.diagnostics.len(), 1);
    assert_eq!(report.diagnostics[0].line, 1);
    assert_eq!(report.diagnostics[0].code, "P001");
}

// --- QuerySet model -----------------------------------------------------------

#[test]
fn parsed_tree_is_rooted_at_first_node() {
    let src = "x = 1\nif x:\n    y = x\n";
    let tree = parse(src).expect("tree");
    assert!(tree.nodes.len() > 1);
    assert_eq!(tree.nodes[0].end, tree.nodes.len());
    assert_eq!(tree.nodes[0].start_byte, 0);
    assert_eq!(tree.nodes[0].end_byte, src.len());
    for (i, n) in tree.nodes.iter().enumerate() {
        assert!(i < n.end && n.end <= tree.nodes.len());
    }
}

#[test]
fn bindings_follow_chains_of_assignments() {
    let src = "n = len(qs2)\nqs2 = qs.filter(a=1)\nqs = User.objects.all()\n";
    let tree = parse(src).expect("tree");
    let b = collect_bindings(&tree, src);
    assert!(b.is_queryset_var("qs"));
    assert!(b.is_queryset_var("qs2"));
    assert!(!b.is_queryset_var("n"));
    assert_eq!(codes_for(src), vec!["P001"]);
}

#[test]
fn bindings_ignore_plain_values() {
    let src = "items = [1, 2]\nname = user.name\n";
    let tree = parse(src).expect("tree");
    let b = collect_bindings(&tree, src);
    assert!(!b.is_queryset_var("items"));
    assert!(!b.is_queryset_var("name"));
}

#[test]
fn queryset_shapes_are_recognised() {
    let src = "a = (User.objects.all())\nb = User.objects.all()[:5]\nc = User.objects.count()\nd = obj.filter(x=1)\n";
    let tree = parse(src).expect("tree");
    let b = collect_bindings(&tree, src);
    assert!(b.is_queryset_var("a"));
    assert!(b.is_queryset_var("b"));
    assert!(!b.is_queryset_var("c"));
    assert!(!b.is_queryset_var("d"));
    let order = walk_preorder(&tree, 0);
    let mut found = 0;
    for i in order {
        if tree.nodes[i].kind == NodeKind::Call && node_text(&tree, i, src) == "User.objects.all()" {
            assert!(expr_is_queryset(&tree, i, src, &b));
            assert!(!has_eager_loading(&tree, i, src));
            found += 1;
        }
    }
    assert_eq!(found, 2);
}

#[test]
fn eager_loading_is_seen_in_the_text() {
    let src = "x = Book.objects.prefetch_related('tags')\n";
    let tree = parse(src).expect("tree");
    let mut seen = false;
    for i in walk_preorder(&tree, 0) {
        if tree.nodes[i].kind == NodeKind::Call {
            seen = seen || has_eager_loading(&tree, i, src);
        }
    }
    assert!(seen);
}

#[test]
fn node_text_and_children() {
    let src = "len(qs, # c\n  other)\n";
    let tree = parse(src).expect("tree");
    let order = walk_preorder(&tree, 0);
    assert_eq!(order.len(), tree.nodes.len());
    let call = order
        .iter()
        .copied()
        .find(|&i| tree.nodes[i].kind == NodeKind::Call)
        .expect("call");
    let args = tree
        .child_by_field_name(call, djqlint::engine::syntax::FieldName::Arguments)
        .expect("arguments");
    let kids = significant_named_children(&tree, args);
    let texts: Vec<&str> = kids.iter().map(|&k| node_text(&tree, k, src)).collect();
    assert_eq!(texts, vec!["qs", "other"]);
}

// --- rules --------------------------------------------------------------------

#[test]
fn p001_message_help_and_span() {
    let report = report_for("n = len(User.objects.all())\n").expect("finding");
    let d = &report.diagnostics[0];
    assert_eq!(d.code, "P001");
    assert_eq!(d.rule_name, "in-memory-counting");
    assert_eq!(d.severity, Severity::Warning);
    assert_eq!(
        d.message,
        "`len(User.objects.all())` loads the whole QuerySet into memory to count rows"
    );
    assert_eq!(d.label, "evaluates the entire QuerySet here");
    assert_eq!(
        d.help.as_deref(),
        Some("Use `User.objects.all().count()` so the database performs the count, or `User.objects.all().exists()` if you only need to know whether rows exist.")
    );
    assert_eq!((d.line, d.column, d.end_line, d.end_column), (1, 5, 1, 28));
    assert_eq!((d.start_byte, d.end_byte), (4, 27));
    assert_eq!(d.span_len(), 23);
    assert_eq!(report.path, "app/views.py");
}

#[test]
fn p001_list_message() {
    let report = report_for("rows = list(Book.objects.all())\n").expect("finding");
    let d = &report.diagnostics[0];
    assert_eq!(d.message, "`list(Book.objects.all())` materialises the entire QuerySet in memory");
    assert_eq!(
        d.help.as_deref(),
        Some("If you only need the row count use `Book.objects.all().count()`; otherwise iterate the QuerySet lazily instead of building a list.")
    );
}

#[test]
fn p001_needs_exactly_one_queryset_argument() {
    assert!(codes_for("n = len(User.objects.all(), 2)\n").is_empty());
    assert!(codes_for("n = len(x=User.objects.all())\n").is_empty());
    assert!(codes_for("n = size(User.objects.all())\n").is_empty());
    assert_eq!(codes_for("n = len(User.objects.all()  # rows\n)\n"), vec!["P001"]);
}

#[test]
fn p002_message_and_span_on_the_condition() {
    let src = "qs = User.objects.all()\nif qs:\n    notify()\n";
    let report = report_for(src).expect("finding");
    let d = &report.diagnostics[0];
    assert_eq!(d.code, "P002");
    assert_eq!(d.message, "`if qs:` evaluates the full QuerySet just to test for rows");
    assert_eq!(d.label, "truthiness test loads every row");
    assert_eq!(
        d.help.as_deref(),
        Some("Use `if qs.exists():` — it issues a cheap `SELECT 1 … LIMIT 1` instead of fetching and caching the whole result set.")
    );
    assert_eq!((d.line, d.column), (2, 4));
}

#[test]
fn p002_flags_a_chain_used_in_the_body() {
    // Only a plain name that the body reads exploits the cache.
    let src = "if User.objects.all():\n    x = User.objects.all()\n";
    assert_eq!(codes_for(src), vec!["P002"]);
}

#[test]
fn n001_message_help_and_span() {
    let src = "for b in Book.objects.all():\n    print(b.author.name)\n";
    let report = report_for(src).expect("finding");
    let d = &report.diagnostics[0];
    assert_eq!(d.code, "N001");
    assert_eq!(d.rule_name, "n-plus-one");
    assert_eq!(
        d.message,
        "`b.author` follows a relation inside a loop, issuing one query per iteration (N+1)"
    );
    assert_eq!(d.label, "related lookup runs every iteration");
    assert_eq!(
        d.help.as_deref(),
        Some("Eager-load the relation on the QuerySet, e.g. `Book.objects.all().select_related(\"…\")` for ForeignKey/OneToOne or `Book.objects.all().prefetch_related(\"…\")` for ManyToMany / reverse FK.")
    );
    assert_eq!((d.line, d.column), (2, 11));
}

#[test]
fn n001_reports_each_access_once_per_loop() {
    let src = "for b in Book.objects.all():\n    print(b.author.name)\n    print(b.author.email)\n    print(b.publisher.name)\n";
    let report = report_for(src).expect("findings");
    let messages: Vec<&str> = report.diagnostics.iter().map(|d| d.message.as_str()).collect();
    assert_eq!(report.diagnostics.len(), 3);
    assert!(messages[0].starts_with("`b.author`"));
    assert!(messages[1].starts_with("`b.author`"));
    assert!(messages[2].starts_with("`b.publisher`"));
}

#[test]
fn n001_same_access_reported_once() {
    let src = "for b in Book.objects.all():\n    x = b.author.name + b.author.name\n";
    assert_eq!(codes_for(src).len(), 2);
    let src2 = "for b in Book.objects.all():\n    x = b.author.name\n";
    assert_eq!(codes_for(src2), vec!["N001"]);
}

#[test]
fn n001_skips_underscore_tuples_and_prefetch() {
    assert!(codes_for("for _ in Book.objects.all():\n    print(_.author.name)\n").is_empty());
    assert!(codes_for("for a, b in Book.objects.all():\n    print(b.author.name)\n").is_empty());
    assert!(codes_for("for b in Book.objects.prefetch_related('tags'):\n    print(b.tags.all)\n").is_empty());
    assert!(codes_for("for b in books:\n    print(b.author.name)\n").is_empty());
}

#[test]
fn findings_are_sorted_by_line_then_column_then_code() {
    let src = "for b in Book.objects.all():\n    n = len(User.objects.all()) + b.author.x\nm = list(Book.objects.all())\n";
    let report = report_for(src).expect("findings");
    let keys: Vec<(usize, usize, &str)> = report
        .diagnostics
        .iter()
        .map(|d| (d.line, d.column, d.code))
        .collect();
    assert_eq!(keys, vec![(2, 9, "P001"), (2, 35, "N001"), (3, 5, "P001")]);
}

#[test]
fn clean_source_gives_no_report() {
    assert!(report_for("x = 1\n").is_none());
    assert!(report_for("").is_none());
}

// --- registry -----------------------------------------------------------------

#[test]
fn registry_lists_the_three_rules() {
    let meta = all_rule_metadata();
    assert_eq!(meta.len(), 3);
    assert_eq!((meta[0].0, meta[0].1), ("N001", "n-plus-one"));
    assert_eq!((meta[1].0, meta[1].1), ("P001", "in-memory-counting"));
    assert_eq!((meta[2].0, meta[2].1), ("P002", "redundant-truthiness"));
    assert_eq!(
        meta[1].2,
        "Counting a QuerySet with len()/list() evaluates every row in Python; use .count() or .exists()."
    );
}

#[test]
fn disabled_rules_are_dropped_in_any_case() {
    let config = Config {
        rules: RulesConfig {
            disabled: vec!["p001".to_string(), "N001".to_string()],
        },
        files: FilesConfig::default(),
    };
    let rules = build_rules(&config);
    let codes: Vec<&str> = rules.iter().map(|r| r.code()).collect();
    assert_eq!(codes, vec!["P002"]);
    assert!(analyze_source("a.py", "n = len(User.objects.all())\n", &rules).is_none());
}

// --- summary and SARIF ----------------------------------------------------------

fn sample_reports() -> Vec<FileReport> {
    vec![
        FileReport {
            path: "a\\b.py".to_string(),
            source: String::new(),
            diagnostics: vec![diag("P001", 1, 1), diag("N001", 2, 1), diag("P001", 3, 1)],
        },
        FileReport {
            path: "c.py".to_string(),
            source: String::new(),
            diagnostics: vec![diag("P002", 1, 1)],
        },
    ]
}

#[test]
fn summary_counts_files_findings_and_codes() {
    let s = Summary::from_reports(&sample_reports());
    assert_eq!(s.files_with_findings, 2);
    assert_eq!(s.total_findings, 4);
    assert_eq!(
        s.by_code,
        vec![
            ("N001".to_string(), 1),
            ("P001".to_string(), 2),
            ("P002".to_string(), 1)
        ]
    );
    let sum: usize = s.by_code.iter().map(|e| e.1).sum();
    assert_eq!(sum, s.total_findings);
}

#[test]
fn summary_of_nothing() {
    let s = Summary::from_reports(&[]);
    assert_eq!((s.files_with_findings, s.total_findings), (0, 0));
    assert!(s.by_code.is_empty());
}

#[test]
fn sarif_results_use_forward_slashes() {
    let reports = sample_reports();
    let results = result_value(&reports[0]);
    assert_eq!(results.len(), 3);
    assert_eq!(results[0].uri, "a/b.py");
    assert_eq!(results[0].rule_id, "P001");
    assert_eq!(results[0].level, "warning");
    assert_eq!((results[1].start_line, results[1].start_column), (2, 1));
}

#[test]
fn sarif_rule_descriptors_link_lowercase_anchors() {
    let rules = rule_descriptors();
    assert_eq!(rules.len(), 3);
    assert_eq!(rules[0].help_uri, "https://github.com/ak4code/djqlint#n001");
    assert_eq!(rules[2].help_uri, "https://github.com/ak4code/djqlint#p002");
    assert_eq!(rules[2].name, "redundant-truthiness");
}

#[test]
fn severities_map_to_sarif_levels() {
    assert_eq!(Severity::Error.sarif_level(), "error");
    assert_eq!(Severity::Warning.sarif_level(), "warning");
    assert_eq!(Severity::Note.sarif_level(), "note");
}

#[test]
fn span_len_is_at_least_one() {
    let mut d = diag("P001", 1, 1);
    d.start_byte = 7;
    d.end_byte = 7;
    assert_eq!(d.span_len(), 1);
    d.end_byte = 3;
    assert_eq!(d.span_len(), 1);
    d.end_byte = 12;
    assert_eq!(d.span_len(), 5);
}

// --- file filters and run decisions -------------------------------------------

#[test]
fn python_files_by_extension() {
    assert!(is_python_file(true, Some("py")));
    assert!(is_python_file(true, Some("PY")));
    assert!(is_python_file(true, Some("Pyi")));
    assert!(!is_python_file(true, Some("pyc")));
    assert!(!is_python_file(true, None));
    assert!(!is_python_file(false, Some("py")));
    assert!(eq_ignore_ascii_case("AbC", "aBc"));
    assert!(!eq_ignore_ascii_case("ab", "abc"));
}

#[test]
fn excludes_match_fragments() {
    let ex = vec!["/migrations/".to_string(), String::new()];
    assert!(is_excluded("app/migrations/0001.py", &ex));
    assert!(!is_excluded("app/views.py", &ex));
    assert!(!is_excluded("app/views.py", &[String::new()]));
    assert!(!is_excluded("app/views.py", &[]));
}

fn cli(no_gitignore: bool, exit_zero: bool) -> Cli {
    Cli {
        paths: vec![".".to_string()],
        format: OutputFormat::Console,
        config: None,
        output: None,
        no_gitignore,
        list_rules: false,
        exit_zero,
        verbose: 0,
    }
}

#[test]
fn run_decisions() {
    let config = Config::default();
    assert!(config.files.respect_gitignore);
    assert!(config.rules.disabled.is_empty());
    assert!(default_true());
    assert!(cli(false, false).respect_gitignore(&config));
    assert!(!cli(true, false).respect_gitignore(&config));
    let with = Summary::from_reports(&sample_reports());
    let without = Summary::from_reports(&[]);
    assert!(cli(false, false).fails(&with));
    assert!(!cli(false, true).fails(&with));
    assert!(!cli(false, false).fails(&without));
    assert_eq!(default_log_level(0), "warn");
    assert_eq!(default_log_level(1), "info");
    assert_eq!(default_log_level(5), "debug");
}

// --- text helpers -------------------------------------------------------------

#[test]
fn text_helpers() {
    assert_eq!(lines_of("a\r\nb\n\nc"), vec!["a", "b", "", "c"]);
    assert_eq!(lines_of("a\rb\n"), vec!["a\rb"]);
    assert!(lines_of("").is_empty());
    assert_eq!(split_codes("P001, N001"), vec!["P001", "", "N001"]);
    assert_eq!(split_codes(""), vec![""]);
    assert!(str_contains("select_related('a')", "related"));
    assert!(!str_contains("abc", "abd"));
    assert!(str_contains("abc", ""));
}

#[test]
fn n001_skips_loop_over_name_bound_with_select_related() {
    let src = "qs = Book.objects.select_related(\"author\")\nfor b in qs:\n    print(b.author.name)\n";
    assert!(codes_for(src).is_empty());
}

#[test]
fn n001_skips_loop_over_name_bound_with_prefetch_related() {
    let src = "qs = Book.objects.prefetch_related(\"tags\").all()\nfor b in qs:\n    print(b.tags.first)\n";
    assert!(codes_for(src).is_empty());
}

#[test]
fn n001_flags_loop_over_name_bound_without_hint() {
    let src = "qs = Book.objects.filter(x=1)\nfor b in qs:\n    print(b.author.name)\n";
    assert_eq!(codes_for(src), vec!["N001"]);
}

#[test]
fn paths_sort_with_separator_first_and_lose_duplicates() {
    let paths: Vec<Vec<u8>> = vec![
        b"src/b.py".to_vec(),
        b"src/a.py".to_vec(),
        b"src.py".to_vec(),
        b"src/a.py".to_vec(),
        b"src/a/x.py".to_vec(),
    ];
    let sorted = sort_dedup_paths(paths);
    // As `Path` orders them, component by component: `a` comes before `a.py`.
    let expected: Vec<Vec<u8>> = vec![
        b"src/a/x.py".to_vec(),
        b"src/a.py".to_vec(),
        b"src/b.py".to_vec(),
        b"src.py".to_vec(),
    ];
    assert_eq!(sorted, expected);
    assert!(path_less(b"a/b", b"a.b"));
    assert!(!path_less(b"a.b", b"a/b"));
    assert!(path_less(b"a", b"a/b"));
    assert!(!path_less(b"a", b"a"));
}

#[test]
fn paths_compare_and_dedup_by_components() {
    let paths: Vec<Vec<u8>> = vec![
        b"src//x.py".to_vec(),
        b"a".to_vec(),
        b"src/x.py".to_vec(),
        b"./a".to_vec(),
        b"a/".to_vec(),
        b"src/./x.py".to_vec(),
        b"/x".to_vec(),
        b"../b".to_vec(),
    ];
    let sorted = sort_dedup_paths(paths);
    let expected: Vec<Vec<u8>> = vec![
        b"/x".to_vec(),
        b"./a".to_vec(),
        b"../b".to_vec(),
        b"a".to_vec(),
        b"src//x.py".to_vec(),
    ];
    assert_eq!(sorted, expected);
    assert!(!path_less(b"a/./b", b"a/b") && !path_less(b"a/b", b"a/./b"));
    assert!(path_less(b"..", b"a"));
}

#[test]
fn n001_flags_name_also_bound_without_eager_loading() {
    let src = "qs = Book.objects.select_related(\"author\")\nqs = Book.objects.all()\nfor b in qs:\n    print(b.author.name)\n";
    assert_eq!(codes_for(src), vec!["N001"]);
}

#[test]
fn paths_of_nothing() {
    assert!(sort_dedup_paths(Vec::new()).is_empty());
}

#[test]
fn summary_of_concatenated_reports_adds_up() {
    let reports = sample_reports();
    let (a, b) = reports.split_at(1);
    let s1 = Summary::from_reports(a);
    let s2 = Summary::from_reports(b);
    let s = Summary::from_reports(&reports);
    assert_eq!(s.files_with_findings, s1.files_with_findings + s2.files_with_findings);
    assert_eq!(s.total_findings, s1.total_findings + s2.total_findings);
    let count = |v: &Vec<(String, usize)>, c: &str| v.iter().find(|e| e.0 == c).map(|e| e.1).unwrap_or(0);
    for c in ["N001", "P001", "P002", "X999"] {
        assert_eq!(count(&s.by_code, c), count(&s1.by_code, c) + count(&s2.by_code, c));
    }
}

#[test]
fn suppressions_are_keyed_by_line_number() {
    let s = Suppressions::parse("a\nb  # noqa: P001\nc\n");
    assert!(!s.is_suppressed(0, "P001"));
    assert!(!s.is_suppressed(1, "P001"));
    assert!(s.is_suppressed(2, "P001"));
    assert!(s.is_suppressed(2, "p001"));
    assert!(!s.is_suppressed(2, "N001"));
    assert!(!s.is_suppressed(3, "P001"));
    assert!(!s.is_suppressed(99, "P001"));
}

fn codes_of(rule: Option<LineRule>) -> Option<Vec<String>> {
    match rule {
        Some(LineRule::Codes(v)) => Some(v),
        _ => None,
    }
}

#[test]
fn captures_give_line_rules() {
    assert!(Suppressions::rule_from_captures(None, None).is_none());
    assert!(matches!(Suppressions::rule_from_captures(Some(None), Some(Some("P001".to_string()))), Some(LineRule::All)));
    assert!(matches!(Suppressions::rule_from_captures(None, Some(None)), Some(LineRule::All)));
    assert!(matches!(
        Suppressions::rule_from_captures(Some(Some("P001".to_string())), Some(None)),
        Some(LineRule::All)
    ));
    assert_eq!(
        codes_of(Suppressions::rule_from_captures(None, Some(Some("P001, djqlint-n001".to_string())))),
        Some(vec!["P001".to_string(), "N001".to_string()])
    );
    assert_eq!(
        codes_of(Suppressions::rule_from_captures(
            Some(Some("djqlint:p002".to_string())),
            Some(Some("N001".to_string()))
        )),
        Some(vec!["P002".to_string(), "N001".to_string()])
    );
}

#[test]
fn codes_are_trimmed_of_unicode_whitespace() {
    assert_eq!(
        codes_of(Suppressions::rule_from_captures(None, Some(Some("\u{3000}p001\u{a0}".to_string())))),
        Some(vec!["P001".to_string()])
    );
}
