use fastmdlint::config::{Config, ConfigValue};
use fastmdlint::rules::options::Scalar;
use fastmdlint::fix::{apply_fix, apply_fixes, normalize};
use fastmdlint::linter::{clear_html_comment_text, lint_config};
use fastmdlint::md::kind::Kind;
use fastmdlint::md::parser::Parser;
use fastmdlint::rules::FixInfo;
use fastmdlint::rules::helpers::ellipsify;

fn chars(s: &str) -> Vec<char> {
    s.chars().collect()
}

fn text(v: &[char]) -> String {
    v.iter().collect()
}

#[test]
fn ellipsified_context_is_bounded() {
    for n in [0usize, 1, 29, 30, 31, 45, 100] {
        let s = chars(&"y".repeat(n));
        for (a, b) in [(false, false), (true, false), (false, true), (true, true)] {
            let r = ellipsify(&s, a, b);
            assert!(r.len() <= 33);
            if n <= 30 {
                assert_eq!(r, s);
            }
        }
    }
}

#[test]
fn empty_fix_keeps_its_line() {
    let fi = FixInfo { line_number: None, edit_column: Some(3), delete_count: None, insert_text: None };
    let n = normalize(&fi, 1);
    assert_eq!(apply_fix(&chars("abcdef"), &n, &chars("\n")).map(|v| text(&v)), Some("abcdef".to_string()));
}

#[test]
fn delete_line_fix_ignores_the_rest() {
    let fi = FixInfo {
        line_number: None,
        edit_column: Some(2),
        delete_count: Some(-1),
        insert_text: Some(chars("zz")),
    };
    let n = normalize(&fi, 1);
    assert_eq!(apply_fix(&chars("abcdef"), &n, &chars("\n")), None);
}

#[test]
fn reported_lines_lie_in_the_document() {
    let doc = "#A\n\ntext   \n\n\n* a\n- b\n<div>\n";
    let errs = lint_config(doc, &Config::empty(), &Vec::new());
    assert!(!errs.is_empty());
    let n = doc.split('\n').count();
    assert!(errs.iter().all(|e| 1 <= e.line_number && e.line_number <= n));
}

#[test]
fn selected_tokens_come_in_document_order() {
    let t = Parser::parse("# A\n\ntext *em* and `code`\n\n## B\n\n> quote\n");
    let ids = t.filter_idx(&[Kind::AtxHeading, Kind::Emphasis, Kind::CodeText, Kind::BlockQuote]);
    assert_eq!(ids.len(), 5);
    assert!(ids.windows(2).all(|w| w[0] < w[1]));
}

#[test]
fn lf_document_is_fixed_with_lf() {
    let out = apply_fixes("a  \nb\n", &vec![(1usize, FixInfo::insert(1, chars("x\ny")))]);
    assert_eq!(text(&out), "x\nya  \nb\n");
    assert!(!out.contains(&'\r'));
}

#[test]
fn clearing_comments_twice_keeps_breaks() {
    let src = chars("a <!-- x\r\ny --> b\n<!-- c -->\n");
    let once = clear_html_comment_text(&src);
    let twice = clear_html_comment_text(&once);
    assert_eq!(twice.len(), src.len());
    for k in 0..src.len() {
        let brk = |c: char| c == '\n' || c == '\r';
        assert_eq!(brk(src[k]), brk(twice[k]));
        if brk(src[k]) {
            assert_eq!(src[k], twice[k]);
        }
    }
}

#[test]
fn set_then_read_gives_the_value() {
    let mut c = Config::empty();
    c.set(&chars("MD013"), ConfigValue::One(Scalar::Bool(true)));
    c.set(&chars("MD001"), ConfigValue::One(Scalar::Bool(true)));
    c.set(&chars("MD013"), ConfigValue::One(Scalar::Bool(false)));
    let i = c.find(&chars("MD013")).unwrap();
    assert!(matches!(c.entries[i].1, ConfigValue::One(Scalar::Bool(false))));
    let j = c.find(&chars("MD001")).unwrap();
    assert!(matches!(c.entries[j].1, ConfigValue::One(Scalar::Bool(true))));
}

#[test]
fn disabled_names_read_false() {
    let mut c = Config::empty();
    c.set(&chars("MD009"), ConfigValue::One(Scalar::Bool(true)));
    c.apply_enable_disable(&vec![chars("MD009"), chars("MD010")], &vec![chars("MD009"), chars("MD041")]);
    for name in ["MD009", "MD041"] {
        let i = c.find(&chars(name)).unwrap();
        assert!(matches!(c.entries[i].1, ConfigValue::One(Scalar::Bool(false))));
    }
}
