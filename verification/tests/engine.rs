use fastmdlint::config::{Config, ConfigValue, interpret_value, is_falsy, remove_trailing_commas, strip_jsonc};
use fastmdlint::fix::{apply_fix, apply_fixes, fix_content, normalize, preferred_line_ending};
use fastmdlint::linter::{
    LintError, clear_html_comment_text, configure_file_params, lint_config, remove_front_matter,
    split_lines,
};
use fastmdlint::md::emphasis::emphasis_spans;
use fastmdlint::md::kind::Kind;
use fastmdlint::rules::md029::parse_i64;
use fastmdlint::md::parser::Parser;
use fastmdlint::output::{FileReport, json_order, render_text, text_less};
use fastmdlint::rules::helpers::{ellipsify, trim};
use fastmdlint::rules::options::{Number, OptValue, Options, Scalar};
use fastmdlint::rules::registry::all_rules;
use fastmdlint::rules::{FixInfo, Severity, decimal, int_text, usize_text};
use fastmdlint::text::{lowercase, uppercase};

fn chars(s: &str) -> Vec<char> {
    s.chars().collect()
}

fn text(v: &[char]) -> String {
    v.iter().collect()
}

fn num(i: i64) -> Scalar {
    Scalar::Num(Number { int: Some(i), trunc: i, zero: i == 0 })
}

fn config(entries: Vec<(&str, ConfigValue)>) -> Config {
    Config { entries: entries.into_iter().map(|(k, v)| (chars(k), v)).collect() }
}

fn names(errs: &[LintError]) -> Vec<&'static str> {
    let mut v: Vec<&'static str> = errs.iter().map(|e| e.rule_names[0]).collect();
    v.sort();
    v.dedup();
    v
}

#[test]
fn falsy_values() {
    assert!(is_falsy(&Scalar::Bool(false)));
    assert!(is_falsy(&Scalar::Null));
    assert!(is_falsy(&num(0)));
    assert!(is_falsy(&Scalar::Str(Vec::new())));
    assert!(!is_falsy(&Scalar::Bool(true)));
    assert!(!is_falsy(&num(2)));
    assert!(!is_falsy(&Scalar::Other));
}

#[test]
fn interpret_config_values() {
    let (on, sev, _) = interpret_value(&ConfigValue::One(Scalar::Bool(false)));
    assert!(!on);
    assert_eq!(sev, Severity::Error);
    let (on, sev, _) = interpret_value(&ConfigValue::One(Scalar::Str(chars("warning"))));
    assert!(on);
    assert_eq!(sev, Severity::Warning);
    let (on, sev, _) = interpret_value(&ConfigValue::Object(Options::empty()));
    assert!(on);
    assert_eq!(sev, Severity::Error);
}

#[test]
fn config_default_false_disables_all() {
    let cfg = config(vec![("default", ConfigValue::One(Scalar::Bool(false)))]);
    let errs = lint_config("text   \n", &cfg, &Vec::new());
    assert!(errs.is_empty());
    let cfg = config(vec![
        ("default", ConfigValue::One(Scalar::Bool(false))),
        ("MD009", ConfigValue::One(Scalar::Bool(true))),
    ]);
    let errs = lint_config("text   \n", &cfg, &Vec::new());
    assert_eq!(names(&errs), vec!["MD009"]);
}

#[test]
fn config_disable_by_alias_and_tag() {
    let cfg = config(vec![("no-trailing-spaces", ConfigValue::One(Scalar::Bool(false)))]);
    let errs = lint_config("# A\n\ntext   \n", &cfg, &Vec::new());
    assert!(names(&errs).is_empty());
    let cfg = config(vec![("headings", ConfigValue::One(Scalar::Bool(false)))]);
    let errs = lint_config("#A\n", &cfg, &Vec::new());
    assert!(!names(&errs).contains(&"MD018"));
}

#[test]
fn config_rule_options() {
    let opts = Options { entries: vec![(chars("line_length"), OptValue::One(num(10)))] };
    let cfg = config(vec![("MD013", ConfigValue::Object(opts))]);
    let errs = lint_config("# A\n\nsome text here and there\n", &cfg, &Vec::new());
    let md013: Vec<&LintError> = errs.iter().filter(|e| e.rule_names[0] == "MD013").collect();
    assert_eq!(md013.len(), 1);
    assert_eq!(md013[0].line_number, 3);
    assert_eq!(text(md013[0].error_detail.as_ref().unwrap()), "Expected: 10; Actual: 24");
}

#[test]
fn config_warning_severity() {
    let cfg = config(vec![("MD009", ConfigValue::One(Scalar::Str(chars("warning"))))]);
    let errs = lint_config("# A\n\ntext   \n", &cfg, &Vec::new());
    assert_eq!(errs.len(), 1);
    assert_eq!(errs[0].severity, Severity::Warning);
}

#[test]
fn enable_disable_overrides() {
    let mut cfg = config(vec![("MD009", ConfigValue::One(Scalar::Bool(false)))]);
    cfg.apply_enable_disable(&vec![chars("MD009")], &vec![chars("MD047")]);
    let errs = lint_config("# A\n\ntext   ", &cfg, &Vec::new());
    assert_eq!(names(&errs), vec!["MD009"]);
}

#[test]
fn resolve_gives_one_setting_per_rule() {
    let cfg = config(vec![("MD001", ConfigValue::One(Scalar::Bool(false)))]);
    let r = cfg.resolve();
    assert_eq!(r.rules.len(), all_rules().len());
    assert!(!r.get(0).unwrap().enabled);
    assert!(r.get(1).unwrap().enabled);
    assert!(r.get(r.rules.len()).is_none());
}

#[test]
fn resolve_keeps_options_of_last_entry() {
    let md013 = all_rules().iter().position(|r| r.names()[0] == "MD013").unwrap();
    let opts = Options {
        entries: vec![
            (chars("enabled"), OptValue::One(Scalar::Bool(true))),
            (chars("line_length"), OptValue::One(num(10))),
            (chars("severity"), OptValue::One(Scalar::Str(chars("warning")))),
        ],
    };
    let (on, sev, kept) = interpret_value(&ConfigValue::Object(opts.clone()));
    assert!(on);
    assert_eq!(sev, Severity::Warning);
    assert_eq!(kept.entries.len(), 1);
    assert_eq!(text(&kept.entries[0].0), "line_length");
    let cfg = config(vec![("MD013", ConfigValue::Object(opts.clone()))]);
    let r = cfg.resolve();
    let rc = r.get(md013).unwrap();
    assert_eq!(rc.options.entries.len(), 1);
    assert_eq!(text(&rc.options.entries[0].0), "line_length");
    assert!(r.get(0).unwrap().options.entries.is_empty());
    let cfg = config(vec![
        ("MD013", ConfigValue::Object(opts)),
        ("line_length", ConfigValue::One(Scalar::Bool(true))),
    ]);
    let r = cfg.resolve();
    assert!(r.get(md013).unwrap().options.entries.is_empty());
    assert!(r.get(md013).unwrap().enabled);
}

#[test]
fn jsonc_comments_and_commas() {
    let src = chars("{\n  // comment\n  \"a\": \"//x\", /* b */\n  \"c\": [1, 2,],\n}");
    assert_eq!(text(&strip_jsonc(&src)), "{\n  \n  \"a\": \"//x\", \n  \"c\": [1, 2]\n}");
    assert_eq!(text(&remove_trailing_commas(&chars("[1, ]"))), "[1 ]");
    assert_eq!(text(&remove_trailing_commas(&chars("[1, 2]"))), "[1, 2]");
}

#[test]
fn configure_file_comment_params() {
    let p = configure_file_params("# A\n\n<!-- markdownlint-configure-file { \"MD009\": false } -->\n");
    assert_eq!(p.len(), 1);
    assert_eq!(text(&p[0]), "{ \"MD009\": false }");
}

#[test]
fn configure_file_directive_applies() {
    let doc = "# A\n\n<!-- markdownlint-configure-file { \"MD009\": false } -->\ntext   \n";
    let over = config(vec![("MD009", ConfigValue::One(Scalar::Bool(false)))]);
    let errs = lint_config(doc, &Config::empty(), &vec![Some(over)]);
    assert!(!names(&errs).contains(&"MD009"));
    let errs = lint_config(doc, &Config::empty(), &vec![None]);
    assert!(names(&errs).contains(&"MD009"));
}

#[test]
fn split_lines_all_endings() {
    let v = split_lines(&chars("a\r\nb\rc\nd"));
    let t: Vec<String> = v.iter().map(|l| text(l)).collect();
    assert_eq!(t, vec!["a", "b", "c", "d"]);
    assert_eq!(split_lines(&chars("")).len(), 1);
}

#[test]
fn front_matter_removed() {
    let (rest, fm) = remove_front_matter(&chars("---\na: 1\n---\nbody\n"));
    assert_eq!(text(&rest), "body\n");
    assert_eq!(fm.len(), 3);
    let (rest, fm) = remove_front_matter(&chars("body\n"));
    assert_eq!(text(&rest), "body\n");
    assert_eq!(fm.len(), 0);
}

#[test]
fn comments_cleared_keep_lines() {
    let src = chars("a <!-- x\ny --> b\n");
    let r = clear_html_comment_text(&src);
    assert_eq!(r.len(), src.len());
    assert_eq!(text(&r), "a <!-- .\n. --> b\n");
}

#[test]
fn html_comments_cleared_only_when_valid() {
    assert_eq!(text(&clear_html_comment_text(&chars("<!-- ab  \ncd -->"))), "<!-- ....\n.. -->");
    assert_eq!(text(&clear_html_comment_text(&chars("x <!-- a--b --> y"))), "x <!-- a--b --> y");
    assert_eq!(text(&clear_html_comment_text(&chars("x <!--> a --> y"))), "x <!--> a --> y");
    assert_eq!(text(&clear_html_comment_text(&chars("<!-- a--b -->"))), "<!-- .... -->");
    assert_eq!(
        text(&clear_html_comment_text(&chars("<!-- a --> <!-- b -->"))),
        "<!-- . --> <!-- . -->"
    );
    assert_eq!(text(&clear_html_comment_text(&chars("a <!-- b"))), "a <!-- b");
}

#[test]
fn line_ending_preference() {
    assert_eq!(text(&preferred_line_ending(&chars("a\r\nb\r\nc\n"))), "\r\n");
    assert_eq!(text(&preferred_line_ending(&chars("a\nb"))), "\n");
    assert_eq!(text(&preferred_line_ending(&chars("a"))), "\n");
    assert_eq!(text(&preferred_line_ending(&chars("a\rb\r"))), "\r");
}

#[test]
fn single_fix_application() {
    let n = normalize(&FixInfo::delete(2, 3), 1);
    assert_eq!(apply_fix(&chars("abcdef"), &n, &chars("\n")).map(|v| text(&v)), Some("aef".to_string()));
    let n = normalize(&FixInfo::delete_line(), 1);
    assert_eq!(apply_fix(&chars("abc"), &n, &chars("\n")), None);
    let n = normalize(&FixInfo::insert(4, chars("X")), 1);
    assert_eq!(apply_fix(&chars("abc"), &n, &chars("\n")).map(|v| text(&v)), Some("abcX".to_string()));
}

#[test]
fn fixes_apply_in_order() {
    let src = "a  \nb\n\n\n\nc";
    let fixes = vec![
        (1usize, FixInfo::delete(2, 2)),
        (4usize, FixInfo::delete_line()),
        (5usize, FixInfo::delete_line()),
    ];
    assert_eq!(text(&apply_fixes(src, &fixes)), "a\nb\n\nc");
    assert_eq!(text(&apply_fixes("x\r\ny  \r\n", &vec![(2usize, FixInfo::delete(2, 2))])), "x\r\ny\r\n");
}

#[test]
fn no_fixes_keep_text() {
    assert_eq!(text(&apply_fixes("a\nb\n", &Vec::new())), "a\nb\n");
}

#[test]
fn fix_document() {
    let r = fix_content("#Title\n\ntext   \n", &Config::empty(), &Vec::new());
    assert!(r.changed);
    assert_eq!(text(&r.fixed), "# Title\n\ntext\n");
    let r = fix_content("# Title\n\ntext\n", &Config::empty(), &Vec::new());
    assert!(!r.changed);
    assert_eq!(text(&r.fixed), "# Title\n\ntext\n");
}

#[test]
fn fix_final_newline() {
    let r = fix_content("# Title", &Config::empty(), &Vec::new());
    assert_eq!(text(&r.fixed), "# Title\n");
}

#[test]
fn text_output_format() {
    let errs = lint_config("#A\n\ntext   \n", &Config::empty(), &Vec::new());
    let reports = vec![FileReport { file: "doc.md", errors: &errs }];
    let out = text(&render_text(&reports));
    let lines: Vec<&str> = out.lines().collect();
    assert_eq!(lines[0], "doc.md:1:1 error MD018/no-missing-space-atx No space after hash on atx style heading [Context: \"#A\"]");
    assert!(lines.iter().any(|l| l.starts_with("doc.md:3:5 error MD009/no-trailing-spaces Trailing spaces")));
    let none: Vec<LintError> = Vec::new();
    assert_eq!(render_text(&vec![FileReport { file: "x.md", errors: &none }]).len(), 0);
}

#[test]
fn json_entries_sorted() {
    let e1 = lint_config("text   \n", &Config::empty(), &Vec::new());
    let e2 = lint_config("# A\n\ntext   \n", &Config::empty(), &Vec::new());
    let reports = vec![FileReport { file: "b.md", errors: &e1 }, FileReport { file: "a.md", errors: &e2 }];
    let order = json_order(&reports);
    assert_eq!(order.len(), e1.len() + e2.len());
    assert_eq!(order[0].0, 1);
    assert_eq!(reports[order.last().unwrap().0].file, "b.md");
}

#[test]
fn lexical_order() {
    assert!(text_less(&chars("a"), &chars("b")));
    assert!(text_less(&chars("a"), &chars("ab")));
    assert!(!text_less(&chars("ab"), &chars("ab")));
    assert!(!text_less(&chars("b"), &chars("a")));
}

#[test]
fn number_texts() {
    assert_eq!(text(&decimal(0)), "0");
    assert_eq!(text(&decimal(1234567)), "1234567");
    assert_eq!(text(&usize_text(42)), "42");
    assert_eq!(text(&int_text(-17)), "-17");
    assert_eq!(text(&int_text(i64::MIN)), "-9223372036854775808");
}

#[test]
fn case_mapping() {
    assert_eq!(text(&lowercase(&chars("ÄBc"))), "äbc");
    assert_eq!(text(&uppercase(&chars("straße"))), "STRASSE");
}

#[test]
fn trimming() {
    assert_eq!(text(&trim(&chars("  a b \t"))), "a b");
    assert_eq!(text(&trim(&chars("   "))), "");
}

#[test]
fn ellipsis_rules() {
    let s = chars(&"x".repeat(40));
    assert_eq!(ellipsify(&s, false, false).len(), 33);
    assert_eq!(ellipsify(&chars("abc"), true, true).len(), 3);
}

#[test]
fn tree_lists_and_headings() {
    let t = Parser::parse("# One\n\n* a\n* b\n\n## Two ##\n\nThree\n=====\n");
    let hs = t.filter_idx(&[Kind::AtxHeading, Kind::SetextHeading]);
    assert_eq!(hs.len(), 3);
    assert_eq!(t.heading_level(hs[1]), 2);
    assert_eq!(t.heading_level(hs[2]), 1);
    assert_eq!(text(&t.heading_text(hs[1])), "Two");
    assert_eq!(text(&t.heading_text(hs[2])), "Three");
    assert_eq!(t.heading_style(hs[1]).as_str(), "atx_closed");
    assert_eq!(t.heading_style(hs[2]).as_str(), "setext");
    let lists = t.filter_idx(&[Kind::ListUnordered]);
    assert_eq!(lists.len(), 1);
    assert_eq!(t.children_of(lists[0], &[Kind::ListItemPrefix]).len(), 2);
}

#[test]
fn merge_shallow_replaces_and_appends() {
    let mut base = config(vec![("MD013", ConfigValue::One(Scalar::Bool(false))), ("MD001", ConfigValue::One(Scalar::Bool(true)))]);
    let over = config(vec![("MD001", ConfigValue::One(Scalar::Bool(false))), ("MD041", ConfigValue::One(Scalar::Bool(false)))]);
    base.merge_shallow(&over);
    let keys: Vec<String> = base.entries.iter().map(|(k, _)| text(k)).collect();
    assert_eq!(keys, vec!["MD013", "MD001", "MD041"]);
    assert!(matches!(base.entries[1].1, ConfigValue::One(Scalar::Bool(false))));
    assert!(matches!(base.entries[2].1, ConfigValue::One(Scalar::Bool(false))));
}

#[test]
fn parse_numbers_like_str_parse() {
    assert_eq!(parse_i64(&chars("42")), 42);
    assert_eq!(parse_i64(&chars("-7")), -7);
    assert_eq!(parse_i64(&chars("+3")), 3);
    assert_eq!(parse_i64(&chars("+")), 0);
    assert_eq!(parse_i64(&chars("1a")), 0);
    assert_eq!(parse_i64(&chars("9223372036854775807")), i64::MAX);
    assert_eq!(parse_i64(&chars("9223372036854775808")), 0);
    assert_eq!(parse_i64(&chars("-9223372036854775808")), i64::MIN);
}

#[test]
fn emphasis_spans_pair_closers_with_nearest_openers() {
    let spans = emphasis_spans(&chars("*a* **b**"), &[]);
    let got: Vec<(usize, usize, usize, usize, char)> =
        spans.iter().map(|s| (s.open_start, s.open_len, s.close_start, s.close_len, s.ch)).collect();
    assert_eq!(got, vec![(0, 1, 2, 1, '*'), (4, 2, 7, 2, '*')]);
    assert!(emphasis_spans(&chars("snake_case_name"), &[]).is_empty());
    assert!(emphasis_spans(&chars("*a*"), &[(0, 3)]).is_empty());
    assert!(emphasis_spans(&chars("\\*a*"), &[]).is_empty());
}

#[test]
fn parse_blank_and_first_block() {
    let t = Parser::parse("\n \n");
    assert_eq!(t.tokens.len(), 2);
    assert!(t.tokens.iter().all(|x| x.kind == Kind::LineEndingBlank && x.parent.is_none()));
    let t = Parser::parse("\n\n`a` *b*\n");
    assert!(t.tokens.iter().any(|x| x.start_line == 3 && x.parent.is_none() && x.kind == Kind::Content));
}

#[test]
fn emphasis_spans_use_each_marker_once() {
    let spans = emphasis_spans(&chars("*a***b**"), &[]);
    let mut got: Vec<(usize, usize, usize, usize, char)> =
        spans.iter().map(|s| (s.open_start, s.open_len, s.close_start, s.close_len, s.ch)).collect();
    got.sort();
    assert_eq!(got, vec![(0, 1, 2, 1, '*'), (3, 2, 6, 2, '*')]);
}

#[test]
fn jsonc_strings_keep_their_text() {
    assert_eq!(text(&strip_jsonc(&chars("{\"u\": \"http://x\", // c\n}"))), "{\"u\": \"http://x\" \n}");
    assert_eq!(text(&strip_jsonc(&chars("{\"k\": \"a,]\"}"))), "{\"k\": \"a,]\"}");
    assert_eq!(text(&remove_trailing_commas(&chars("[\"a\\\",]\", ]"))), "[\"a\\\",]\" ]");
}

#[test]
fn fix_positions_wrap_like_as_casts() {
    let fi = FixInfo { line_number: Some(usize::MAX), edit_column: None, delete_count: None, insert_text: None };
    let n = normalize(&fi, 1);
    assert_eq!(n.line_number, usize::MAX as i64);
    assert_eq!(n.edit_column, 1);
}

#[test]
fn unified_diff_lists_changes_with_context() {
    let d: String = fastmdlint::fix::unified_diff(&chars("f.md"), &chars("a\nb\nc\n"), &chars("a\nB\nc\n"))
        .iter()
        .collect();
    assert_eq!(d, "--- f.md\n+++ f.md\n a\n-b\n+B\n c\n");
    let same: String = fastmdlint::fix::unified_diff(&chars("f.md"), &chars("a\n"), &chars("a\n")).iter().collect();
    assert_eq!(same, "--- f.md\n+++ f.md\n");
    let no_nl: String = fastmdlint::fix::unified_diff(&chars("g"), &chars("x"), &chars("y")).iter().collect();
    assert_eq!(no_nl, "--- g\n+++ g\n-x\n+y\n");
}
