//! MD049 — emphasis-style, and MD050 — strong-style.

use vstd::prelude::*;

use crate::md::kind::Kind;
use crate::md::tokens::{Token, filter_idx_upto, filter_kinds};
use crate::text::char_is_alphanumeric;
use super::md003::{is_text, opt_text_or, opt_text_or_spec};
use super::options::OptValue;
use super::{
    Emit, FixInfo, FixV, Params, Report, RuleError, appended, lemma_appended_refl, lemma_reported_start,
    lemma_reported_step, params_ok, picked, report_of, reported_as,
};

verus! {

/// A word character: alphanumeric or `_`.
pub open spec fn spec_is_word(c: Option<char>) -> bool {
    match c {
        Some(x) => char_is_alphanumeric(x) || x == '_',
        None => false,
    }
}

/// Character `col` (0-based) of line `line` (1-based), if any.
pub open spec fn spec_char_at(lines: Seq<Vec<char>>, line: int, col: int) -> Option<char> {
    if 1 <= line <= lines.len() && 0 <= col < lines[line - 1]@.len() {
        Some(lines[line - 1]@[col])
    } else {
        None
    }
}

/// The tokens of `kind` (emphasis or strong).
pub open spec fn emph_ids(tokens: Seq<Token>, kind: Kind) -> Seq<usize> {
    filter_idx_upto(tokens, seq![kind], tokens.len() as int)
}

/// The marker sequences of the `c`-th token of `kind`.
pub open spec fn emph_seqs(tokens: Seq<Token>, kind: Kind, seq_kind: Kind, c: int) -> Seq<usize> {
    let t = emph_ids(tokens, kind)[c] as int;
    filter_kinds(tokens, tokens[t].children@, seq![seq_kind], tokens[t].children@.len() as int)
}

/// The style of a marker sequence: `asterisk` or `underscore`.
pub open spec fn markup_style(t: Token) -> Seq<char> {
    if t.text@.len() > 0 && t.text@[0] == '*' {
        "asterisk"@
    } else {
        "underscore"@
    }
}

/// The configured style (`consistent` when empty or unset).
pub open spec fn style_setting(cfg: Seq<(Vec<char>, OptValue)>) -> Seq<char> {
    let c = opt_text_or_spec(cfg, "style"@, "consistent"@);
    if c.len() == 0 {
        "consistent"@
    } else {
        c
    }
}

/// The style the `c`-th token is held against: the setting; while that is
/// `consistent`, the first marked token's style becomes it.
pub open spec fn emph_style(
    tokens: Seq<Token>,
    cfg: Seq<(Vec<char>, OptValue)>,
    kind: Kind,
    seq_kind: Kind,
    c: int,
) -> Seq<char>
    decreases c + 1,
{
    let before = if c <= 0 {
        style_setting(cfg)
    } else {
        emph_style(tokens, cfg, kind, seq_kind, c - 1)
    };
    let seqs = emph_seqs(tokens, kind, seq_kind, c);
    if seqs.len() > 0 && before == "consistent"@ {
        markup_style(tokens[seqs[0] as int])
    } else {
        before
    }
}

/// Whether the `c`-th token is of the wrong style (and, for underscores
/// expected, not inside a word).
pub open spec fn emph_wrong(
    tokens: Seq<Token>,
    lines: Seq<Vec<char>>,
    cfg: Seq<(Vec<char>, OptValue)>,
    kind: Kind,
    seq_kind: Kind,
    c: int,
) -> bool {
    let seqs = emph_seqs(tokens, kind, seq_kind, c);
    let style = emph_style(tokens, cfg, kind, seq_kind, c);
    let s = tokens[seqs[0] as int];
    let e = tokens[seqs.last() as int];
    let before = if s.start_column >= 2 {
        spec_char_at(lines, s.start_line as int, s.start_column - 2)
    } else {
        None
    };
    let after = if e.end_column >= 1 {
        spec_char_at(lines, e.end_line as int, e.end_column - 1)
    } else {
        None
    };
    &&& seqs.len() > 0
    &&& style != markup_style(s)
    &&& !(style == "underscore"@ && (spec_is_word(before) || spec_is_word(after)))
}

/// The marker sequence at position `q`: `2c` for the opening one of the
/// `c`-th token, `2c + 1` for the closing one.
pub open spec fn emph_marker(tokens: Seq<Token>, kind: Kind, seq_kind: Kind, q: int) -> Token {
    let seqs = emph_seqs(tokens, kind, seq_kind, q / 2);
    if q % 2 == 0 {
        tokens[seqs[0] as int]
    } else {
        tokens[seqs.last() as int]
    }
}

/// Whether position `q` is reported.
pub open spec fn emph_reports(
    tokens: Seq<Token>,
    lines: Seq<Vec<char>>,
    cfg: Seq<(Vec<char>, OptValue)>,
    kind: Kind,
    seq_kind: Kind,
    q: int,
) -> bool {
    &&& emph_wrong(tokens, lines, cfg, kind, seq_kind, q / 2)
    &&& 1 <= emph_marker(tokens, kind, seq_kind, q).start_line <= lines.len()
}

/// The problem at position `q`: expected and actual style as detail, the
/// marker as range, and a fix writing the expected marker.
pub open spec fn emph_report(
    tokens: Seq<Token>,
    cfg: Seq<(Vec<char>, OptValue)>,
    kind: Kind,
    seq_kind: Kind,
    asterisk: Seq<char>,
    underline: Seq<char>,
    q: int,
) -> Report {
    let style = emph_style(tokens, cfg, kind, seq_kind, q / 2);
    let seqs = emph_seqs(tokens, kind, seq_kind, q / 2);
    let m = emph_marker(tokens, kind, seq_kind, q);
    Report {
        line: m.start_line,
        detail: Some("Expected: "@ + style + "; Actual: "@ + markup_style(tokens[seqs[0] as int])),
        context: None,
        range: Some((m.start_column, m.text@.len() as usize)),
        fix: Some(
            FixV {
                line_number: None,
                edit_column: Some(m.start_column),
                delete_count: Some(m.text@.len() as i64),
                insert_text: Some(if style == "asterisk"@ { asterisk } else { underline }),
            },
        ),
    }
}

pub open spec fn emph_f(
    tokens: Seq<Token>,
    lines: Seq<Vec<char>>,
    cfg: Seq<(Vec<char>, OptValue)>,
    kind: Kind,
    seq_kind: Kind,
) -> spec_fn(int) -> bool {
    |q: int| emph_reports(tokens, lines, cfg, kind, seq_kind, q)
}

pub open spec fn emph_e(
    tokens: Seq<Token>,
    cfg: Seq<(Vec<char>, OptValue)>,
    kind: Kind,
    seq_kind: Kind,
    asterisk: Seq<char>,
    underline: Seq<char>,
) -> spec_fn(RuleError, int) -> bool {
    |e: RuleError, q: int| report_of(e) == emph_report(tokens, cfg, kind, seq_kind, asterisk, underline, q)
}

/// A word character: alphanumeric or `_`.
fn is_word(c: Option<char>) -> (r: bool)
    ensures
        r == spec_is_word(c),
{
    match c {
        Some(x) => crate::text::is_alphanumeric(x) || x == '_',
        None => false,
    }
}

/// Character `col` (0-based) of line `line` (1-based), if any.
fn char_at(p: &Params, line: usize, col: usize) -> (r: Option<char>)
    ensures
        r == spec_char_at(p.lines@, line as int, col as int),
{
    if line >= 1 && line <= p.lines.len() && col < p.lines[line - 1].len() {
        Some(p.lines[line - 1][col])
    } else {
        None
    }
}

/// Report emphasis (or strong) markers of the other style than the
/// configured one (the first one's, for `consistent`): `asterisk` or
/// `underscore`; intraword underscores are left alone. The fix writes the
/// expected markers.
fn impl_rule(p: &Params, emit: &mut Emit, kind: Kind, seq_kind: Kind, asterisk: &str, underline: &str)
    requires
        params_ok(p),
    ensures
        appended(old(emit).errors@, final(emit).errors@, p.lines@.len() as int),
        reported_as(
            old(emit).errors@,
            final(emit).errors@,
            picked(
                emph_f(p.tree.tokens@, p.lines@, p.config.entries@, kind, seq_kind),
                2 * emph_ids(p.tree.tokens@, kind).len() as int,
            ),
            emph_e(p.tree.tokens@, p.config.entries@, kind, seq_kind, asterisk@, underline@),
        ),
{
    let configured = opt_text_or(p.config, "style", "consistent");
    let mut style = if configured.len() == 0 {
        super::lit("consistent")
    } else {
        configured
    };
    let tree = p.tree;
    let n = p.lines.len();
    let kinds: [Kind; 1] = [kind];
    let skinds: [Kind; 1] = [seq_kind];
    proof {
        assert(kinds@ =~= seq![kind]);
        assert(skinds@ =~= seq![seq_kind]);
        reveal_strlit("consistent");
    }
    let toks = tree.filter_idx(&kinds);
    let ghost tk = tree.tokens@;
    let ghost cfg = p.config.entries@;
    let ghost lines = p.lines@;
    let ghost f = emph_f(tk, lines, cfg, kind, seq_kind);
    let ghost err = emph_e(tk, cfg, kind, seq_kind, asterisk@, underline@);
    let ghost e0 = emit.errors@;
    proof {
        lemma_appended_refl(e0, n as int);
        lemma_reported_start(e0, f, err);
    }
    let mut c: usize = 0;
    while c < toks.len()
        invariant
            c <= toks@.len(),
            params_ok(p),
            tree == p.tree,
            tk == tree.tokens@,
            cfg == p.config.entries@,
            lines == p.lines@,
            n == p.lines@.len(),
            toks@ == emph_ids(tk, kind),
            skinds@ == seq![seq_kind],
            c == 0 ==> style@ == style_setting(cfg),
            c > 0 ==> style@ == emph_style(tk, cfg, kind, seq_kind, c - 1),
            f == emph_f(tk, lines, cfg, kind, seq_kind),
            err == emph_e(tk, cfg, kind, seq_kind, asterisk@, underline@),
            forall|k: int| 0 <= k < toks@.len() ==> #[trigger] toks@[k] < tree.tokens@.len(),
            appended(e0, emit.errors@, n as int),
            reported_as(e0, emit.errors@, picked(f, 2 * c), err),
        decreases toks@.len() - c,
    {
        let token = toks[c];
        let ghost mid = emit.errors@;
        let seqs = tree.children_of(token, &skinds);
        proof {
            assert(seqs@ == emph_seqs(tk, kind, seq_kind, c as int));
            assert((2 * c) / 2 == c);
            assert((2 * c + 1) / 2 == c);
            assert((2 * c) % 2 == 0);
            assert((2 * c + 1) % 2 == 1);
        }
        if seqs.len() == 0 {
            proof {
                assert(style@ == emph_style(tk, cfg, kind, seq_kind, c as int));
                lemma_reported_step(e0, mid, mid, f, err, 2 * c);
                lemma_reported_step(e0, mid, mid, f, err, 2 * c + 1);
            }
            c += 1;
            continue;
        }
        let start = seqs[0];
        let end = seqs[seqs.len() - 1];
        let st = tree.get(start);
        let markup = if st.text.len() > 0 && st.text[0] == '*' {
            super::lit("asterisk")
        } else {
            super::lit("underscore")
        };
        if is_text(&style, "consistent") {
            style = crate::text::slice_vec(&markup, 0, markup.len());
            proof {
                assert(style@ =~= markup@);
            }
        }
        proof {
            assert(style@ == emph_style(tk, cfg, kind, seq_kind, c as int));
            assert(markup@ == markup_style(*st));
        }
        let mut wrong = false;
        if !super::slice_eq(&style, &markup) {
            let intraword = is_text(&style, "underscore") && {
                let s = tree.get(start);
                let e = tree.get(end);
                let before = if s.start_column >= 2 {
                    char_at(p, s.start_line, s.start_column - 2)
                } else {
                    None
                };
                let after = if e.end_column >= 1 {
                    char_at(p, e.end_line, e.end_column - 1)
                } else {
                    None
                };
                is_word(before) || is_word(after)
            };
            wrong = !intraword;
        }
        proof {
            assert(wrong == emph_wrong(tk, lines, cfg, kind, seq_kind, c as int));
        }
        if wrong {
            let mut detail = super::lit("Expected: ");
            super::concat(&mut detail, &style);
            super::concat(&mut detail, &super::lit("; Actual: "));
            super::concat(&mut detail, &markup);
            let mut w: usize = 0;
            while w < 2
                invariant
                    w <= 2,
                    params_ok(p),
                    tree == p.tree,
                    tk == tree.tokens@,
                    lines == p.lines@,
                    n == p.lines@.len(),
                    start < tree.tokens@.len(),
                    end < tree.tokens@.len(),
                    seqs@ == emph_seqs(tk, kind, seq_kind, c as int),
                    seqs@.len() > 0,
                    start == seqs@[0],
                    end == seqs@.last(),
                    style@ == emph_style(tk, cfg, kind, seq_kind, c as int),
                    detail@ == "Expected: "@ + style@ + "; Actual: "@ + markup_style(tk[seqs@[0] as int]),
                    wrong == emph_wrong(tk, lines, cfg, kind, seq_kind, c as int),
                    wrong,
                    f == emph_f(tk, lines, cfg, kind, seq_kind),
                    err == emph_e(tk, cfg, kind, seq_kind, asterisk@, underline@),
                    (2 * c) / 2 == c,
                    (2 * c + 1) / 2 == c,
                    (2 * c) % 2 == 0,
                    (2 * c + 1) % 2 == 1,
                    appended(e0, emit.errors@, n as int),
                    reported_as(e0, emit.errors@, picked(f, 2 * c + w), err),
                decreases 2 - w,
            {
                let ghost m2 = emit.errors@;
                let seq = if w == 0 {
                    start
                } else {
                    end
                };
                let s = tree.get(seq);
                let len = s.text.len();
                let ins = if is_text(&style, "asterisk") {
                    super::lit(asterisk)
                } else {
                    super::lit(underline)
                };
                emit.add_checked(
                    n,
                    s.start_line,
                    Some(crate::text::slice_vec(&detail, 0, detail.len())),
                    None,
                    Some((s.start_column, len)),
                    Some(
                        FixInfo {
                            line_number: None,
                            edit_column: Some(s.start_column),
                            delete_count: Some(len as i64),
                            insert_text: Some(ins),
                        },
                    ),
                );
                proof {
                    let q = 2 * c + w;
                    assert(emph_marker(tk, kind, seq_kind, q) == *s);
                    assert(f(q) == emph_reports(tk, lines, cfg, kind, seq_kind, q));
                    if f(q) {
                        assert(detail@.subrange(0, detail@.len() as int) =~= detail@);
                        assert(err(emit.errors@.last(), q) == (report_of(emit.errors@.last()) == emph_report(tk, cfg, kind, seq_kind, asterisk@, underline@, q)));
                    }
                    lemma_reported_step(e0, m2, emit.errors@, f, err, q);
                }
                w += 1;
            }
        } else {
            proof {
                lemma_reported_step(e0, mid, mid, f, err, 2 * c);
                lemma_reported_step(e0, mid, mid, f, err, 2 * c + 1);
            }
        }
        c += 1;
    }
}

/// What `md049` reports: the problems it appends to `old_errors`.
pub open spec fn md049_reported(p: &Params, old_errors: Seq<RuleError>, new_errors: Seq<RuleError>) -> bool {
    reported_as(
        old_errors,
        new_errors,
        picked(
            emph_f(p.tree.tokens@, p.lines@, p.config.entries@, Kind::Emphasis, Kind::EmphasisSequence),
            2 * emph_ids(p.tree.tokens@, Kind::Emphasis).len() as int,
        ),
        emph_e(p.tree.tokens@, p.config.entries@, Kind::Emphasis, Kind::EmphasisSequence, "*"@, "_"@),
    )
}

/// Emphasis marker style (`*` or `_`).
pub fn md049(p: &Params, emit: &mut Emit)
    requires
        params_ok(p),
    ensures
        appended(old(emit).errors@, final(emit).errors@, p.lines@.len() as int),
        md049_reported(p, old(emit).errors@, final(emit).errors@),
{
    impl_rule(p, emit, Kind::Emphasis, Kind::EmphasisSequence, "*", "_")
}

/// What `md050` reports: the problems it appends to `old_errors`.
pub open spec fn md050_reported(p: &Params, old_errors: Seq<RuleError>, new_errors: Seq<RuleError>) -> bool {
    reported_as(
        old_errors,
        new_errors,
        picked(
            emph_f(p.tree.tokens@, p.lines@, p.config.entries@, Kind::Strong, Kind::StrongSequence),
            2 * emph_ids(p.tree.tokens@, Kind::Strong).len() as int,
        ),
        emph_e(p.tree.tokens@, p.config.entries@, Kind::Strong, Kind::StrongSequence, "**"@, "__"@),
    )
}

/// Strong marker style (`**` or `__`).
pub fn md050(p: &Params, emit: &mut Emit)
    requires
        params_ok(p),
    ensures
        appended(old(emit).errors@, final(emit).errors@, p.lines@.len() as int),
        md050_reported(p, old(emit).errors@, final(emit).errors@),
{
    impl_rule(p, emit, Kind::Strong, Kind::StrongSequence, "**", "__")
}

} // verus!
