use fastmdlint::config::Config;
use fastmdlint::linter::{LintError, lint_config};

fn lint(s: &str) -> Vec<LintError> {
    lint_config(s, &Config::empty(), &Vec::new())
}

/// (line, rule name) of every problem, sorted.
fn found(s: &str) -> Vec<(usize, &'static str)> {
    let mut v: Vec<(usize, &'static str)> =
        lint(s).iter().map(|e| (e.line_number, e.rule_names[0])).collect();
    v.sort();
    v
}

fn detail(s: &str, rule: &str) -> Option<String> {
    lint(s)
        .into_iter()
        .find(|e| e.rule_names[0] == rule)
        .and_then(|e| e.error_detail.map(|d| d.iter().collect()))
}

#[test]
fn clean_document_has_no_problems() {
    assert_eq!(found("# Title\n\nSome text.\n"), vec![]);
}

#[test]
fn md001_heading_increment() {
    assert_eq!(found("# A\n\n### B\n"), vec![(3, "MD001")]);
    assert_eq!(detail("# A\n\n### B\n", "MD001").unwrap(), "Expected: h2; Actual: h3");
}

#[test]
fn md003_heading_style() {
    let v = found("# A\n\nB\n==\n");
    assert!(v.contains(&(3, "MD003")));
}

#[test]
fn md004_list_style() {
    let v = found("# A\n\n* a\n- b\n");
    assert!(v.contains(&(4, "MD004")));
}

#[test]
fn md007_list_indent() {
    let v = found("# A\n\n* a\n   * b\n");
    assert!(v.contains(&(4, "MD007")));
}

#[test]
fn md010_hard_tabs() {
    let errs = lint("# A\n\na\tb\n");
    let e: Vec<&LintError> = errs.iter().filter(|e| e.rule_names[0] == "MD010").collect();
    assert_eq!(e.len(), 1);
    assert_eq!(e[0].line_number, 3);
    assert_eq!(e[0].error_range, Some((2, 1)));
}

#[test]
fn md011_reversed_link() {
    assert!(found("# A\n\n(text)[https://example.com]\n").contains(&(3, "MD011")));
}

#[test]
fn md012_multiple_blanks() {
    assert_eq!(found("# A\n\na\n\n\nb\n"), vec![(5, "MD012")]);
    assert_eq!(detail("# A\n\na\n\n\nb\n", "MD012").unwrap(), "Expected: 1; Actual: 2");
}

#[test]
fn md013_line_length() {
    let long = format!("# A\n\n{}\n", "a ".repeat(45));
    assert!(found(&long).contains(&(3, "MD013")));
    assert_eq!(detail(&long, "MD013").unwrap(), "Expected: 80; Actual: 90");
}

#[test]
fn md014_dollar_signs() {
    assert!(found("# A\n\n```sh\n$ ls\n```\n").contains(&(4, "MD014")));
}

#[test]
fn md018_no_space_after_hash() {
    assert!(found("#Heading\n").contains(&(1, "MD018")));
}

#[test]
fn md019_multiple_spaces_after_hash() {
    assert!(found("#  Heading\n").contains(&(1, "MD019")));
}

#[test]
fn md020_closed_heading_without_space() {
    assert!(found("#Heading#\n").contains(&(1, "MD020")));
}

#[test]
fn md021_closed_heading_multiple_spaces() {
    assert!(found("#  Heading  #\n").contains(&(1, "MD021")));
}

#[test]
fn md022_blanks_around_headings() {
    assert!(found("# A\ntext\n").contains(&(1, "MD022")));
}

#[test]
fn md024_duplicate_heading() {
    assert_eq!(found("# A\n\n## B\n\n## B\n"), vec![(5, "MD024")]);
}

#[test]
fn md025_single_title() {
    assert_eq!(found("# A\n\n# B\n"), vec![(3, "MD025")]);
}

#[test]
fn md026_trailing_punctuation() {
    assert_eq!(found("# A.\n"), vec![(1, "MD026")]);
    assert_eq!(detail("# A.\n", "MD026").unwrap(), "Punctuation: '.'");
}

#[test]
fn md027_multiple_spaces_in_block_quote() {
    assert!(found("# A\n\n>  a\n").contains(&(3, "MD027")));
}

#[test]
fn md028_blank_line_in_block_quote() {
    assert!(found("# A\n\n> a\n\n> b\n").contains(&(4, "MD028")));
}

#[test]
fn md029_ordered_list_prefix() {
    assert!(found("# A\n\n1. a\n3. b\n").contains(&(4, "MD029")));
}

#[test]
fn md030_spaces_after_marker() {
    assert!(found("# A\n\n*  a\n").contains(&(3, "MD030")));
}

#[test]
fn md031_blanks_around_fences() {
    assert!(found("# A\n\ntext\n```text\ncode\n```\n").contains(&(4, "MD031")));
}

#[test]
fn md032_blanks_around_lists() {
    assert!(found("# A\n\ntext\n* item\n").contains(&(4, "MD032")));
}

#[test]
fn md033_inline_html() {
    assert_eq!(found("# A\n\n<div>x</div>\n"), vec![(3, "MD033")]);
    assert_eq!(detail("# A\n\n<div>x</div>\n", "MD033").unwrap(), "Element: div");
}

#[test]
fn md034_bare_url() {
    assert_eq!(found("# A\n\nsee https://example.com now\n"), vec![(3, "MD034")]);
}

#[test]
fn md035_hr_style() {
    assert!(found("# A\n\n---\n\n***\n").contains(&(5, "MD035")));
}

#[test]
fn md036_emphasis_as_heading() {
    assert!(found("# A\n\n**Emphasis**\n").contains(&(3, "MD036")));
}

#[test]
fn md038_spaces_in_code() {
    assert!(found("# A\n\ntext ` code` text\n").contains(&(3, "MD038")));
}

#[test]
fn md039_spaces_in_link_text() {
    assert!(found("# A\n\n[ link ](https://example.com)\n").contains(&(3, "MD039")));
}

#[test]
fn md040_fenced_language() {
    assert_eq!(found("# A\n\n```\ncode\n```\n"), vec![(3, "MD040")]);
}

#[test]
fn md041_first_line_heading() {
    assert_eq!(found("text\n"), vec![(1, "MD041")]);
}

#[test]
fn md042_empty_link() {
    assert!(found("# A\n\n[link]()\n").contains(&(3, "MD042")));
}

#[test]
fn md045_image_alt_text() {
    assert!(found("# A\n\n![](image.png)\n").contains(&(3, "MD045")));
}

#[test]
fn md047_final_newline() {
    assert_eq!(found("# A"), vec![(1, "MD047")]);
}

#[test]
fn md048_fence_style() {
    assert!(found("# A\n\n```text\na\n```\n\n~~~text\nb\n~~~\n").contains(&(7, "MD048")));
}

#[test]
fn md049_emphasis_style() {
    assert!(found("# A\n\n*a* _b_\n").contains(&(3, "MD049")));
}

#[test]
fn md050_strong_style() {
    assert!(found("# A\n\n**a** __b__\n").contains(&(3, "MD050")));
}

#[test]
fn md051_link_fragments() {
    assert_eq!(found("# A\n\n[a](#missing)\n"), vec![(3, "MD051")]);
    assert_eq!(found("# A\n\n[a](#a)\n"), vec![]);
}

#[test]
fn md051_case_mismatch_repeats_and_anchors() {
    assert_eq!(
        detail("# Title\n\n## Sub\n\n[y](#Sub)\n", "MD051").unwrap(),
        "Expected: #sub; Actual: #Sub"
    );
    let fixed: Vec<LintError> = lint("# Title\n\n## Sub\n\n[y](#Sub)\n")
        .into_iter()
        .filter(|e| e.rule_names[0] == "MD051")
        .collect();
    let fix = fixed[0].fix_info.clone().unwrap();
    assert_eq!(fix.insert_text.unwrap().iter().collect::<String>(), "#sub");
    assert!(!found("# T\n\n## S\n\n## S\n\n[x](#s-1)\n").iter().any(|f| f.1 == "MD051"));
    assert!(found("# T\n\n## S\n\n[x](#s-1)\n").contains(&(5, "MD051")));
    assert!(!found("# T\n\n<a name=\"here\"></a>\n\n[x](#here)\n").iter().any(|f| f.1 == "MD051"));
    assert!(!found("# T\n\n[x](#L12)\n").iter().any(|f| f.1 == "MD051"));
}

#[test]
fn md056_table_column_count() {
    assert!(found("# A\n\n| a | b |\n| - | - |\n| c |\n").contains(&(5, "MD056")));
}

#[test]
fn md059_descriptive_link_text() {
    assert!(found("# A\n\n[click here](https://example.com)\n").contains(&(3, "MD059")));
}

#[test]
fn inline_disable_comment() {
    assert_eq!(found("# A\n\n<!-- markdownlint-disable MD009 -->\nText   \n"), vec![]);
    assert_eq!(found("# A\n\nText   <!-- markdownlint-disable-line -->\n"), vec![]);
}

#[test]
fn front_matter_offsets_lines() {
    assert_eq!(found("---\nauthor: x\n---\n# A\n\nText   \n"), vec![(6, "MD009")]);
    assert!(found("---\ntitle: x\n---\n# A\n").contains(&(4, "MD025")));
}

#[test]
fn front_matter_title_satisfies_first_heading() {
    assert_eq!(found("---\ntitle: x\n---\ntext\n"), vec![]);
}
