use fastmdlint::config::Config;
use fastmdlint::fix::apply_fixes;
use fastmdlint::linter::{clear_html_comment_text, lint_config};
use fastmdlint::md::parser::Parser;
use fastmdlint::rules::helpers::{ellipsify, is_blank_line};
use fastmdlint::rules::FixInfo;

fn chars(s: &str) -> Vec<char> {
    s.chars().collect()
}

fn text(v: &[char]) -> String {
    v.iter().collect()
}

#[test]
fn parse_heading_tree() {
    let t = Parser::parse("# Title\n\nSome text\n");
    let hs = t.filter_idx(&[fastmdlint::md::kind::Kind::AtxHeading]);
    assert_eq!(hs.len(), 1);
    assert_eq!(t.heading_level(hs[0]), 1);
    assert_eq!(text(&t.heading_text(hs[0])), "Title");
}

#[test]
fn ellipsify_long_text() {
    let s = chars("abcdefghijklmnopqrstuvwxyz0123456789");
    assert_eq!(text(&ellipsify(&s, false, false)), "abcdefghijklmnopqrstuvwxyz0123...");
    assert_eq!(text(&ellipsify(&s, true, true)), "abcdefghijklmno...vwxyz0123456789");
    assert_eq!(text(&ellipsify(&s, false, true)), "...ghijklmnopqrstuvwxyz0123456789");
    assert_eq!(text(&ellipsify(&chars("short"), true, true)), "short");
}

#[test]
fn blank_lines() {
    assert!(is_blank_line(&chars("   ")));
    assert!(is_blank_line(&chars("> <!-- c -->")));
    assert!(!is_blank_line(&chars("> text")));
}

#[test]
fn clear_comment() {
    let r = clear_html_comment_text(&chars("<!-- ab -->\nx"));
    assert_eq!(text(&r), "<!-- .. -->\nx");
}

#[test]
fn lint_trailing_spaces_and_fix() {
    let cfg = Config::empty();
    let errs = lint_config("# Title\n\nText   \n", &cfg, &Vec::new());
    let md009: Vec<_> = errs.iter().filter(|e| e.rule_names[0] == "MD009").collect();
    assert_eq!(md009.len(), 1);
    assert_eq!(md009[0].line_number, 3);
    assert_eq!(md009[0].error_range, Some((5, 3)));
    let fixes = vec![(3usize, md009[0].fix_info.clone().unwrap())];
    assert_eq!(text(&apply_fixes("# Title\n\nText   \n", &fixes)), "# Title\n\nText\n");
}

#[test]
fn apply_insert_fix() {
    let fixes = vec![(1usize, FixInfo::insert(2, chars(" ")))];
    assert_eq!(text(&apply_fixes("#Title\n", &fixes)), "# Title\n");
}
