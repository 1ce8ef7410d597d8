//! MD039 — no-space-in-links.

use vstd::prelude::*;

use super::RuleError;

use crate::md::kind::Kind;
use crate::md::tokens::{Token, Tree, filter_idx_upto, filter_kinds};
use crate::re::{re_find, regex_find};
use crate::text::spec_is_whitespace;
use super::helpers::{replace_all_space, spec_ellipsify, spec_replace_space, trim_end_at, trim_end_len};
use super::{
    Emit, FixInfo, FixV, Params, Report, appended, lemma_appended_refl, lemma_reports_concat, lemma_reports_push,
    lemma_reports_start, params_ok, report_of, reports_are,
};

verus! {

/// The pattern of the spaces at the start or the end of a text.
pub open spec fn edge_space_pattern(is_start: bool) -> Seq<char> {
    if is_start {
        "^[^\\S\\r\\n]+"@
    } else {
        "[^\\S\\r\\n]+$"@
    }
}

/// The range of the spaces at the start or the end of a label text.
pub open spec fn edge_range(t: Token, is_start: bool) -> Option<(usize, usize)> {
    match regex_find(edge_space_pattern(is_start), t.text@) {
        Some((a, b)) => {
            let len = b - a;
            if is_start {
                Some((t.start_column, len as usize))
            } else if t.end_column >= len {
                Some(((t.end_column - len) as usize, len as usize))
            } else {
                None
            }
        },
        None => None,
    }
}

/// The line reported for the spaces at the start or the end of a label
/// text: its first or last line, or the line after or before it when the
/// spaces are line breaks.
pub open spec fn edge_line(t: Token, is_start: bool) -> usize {
    let found = regex_find(edge_space_pattern(is_start), t.text@) is Some;
    if is_start {
        if found {
            t.start_line
        } else if t.start_line < usize::MAX {
            (t.start_line + 1) as usize
        } else {
            t.start_line
        }
    } else {
        if found {
            t.end_line
        } else if t.end_line > 0 {
            (t.end_line - 1) as usize
        } else {
            0
        }
    }
}

/// The problem for the spaces at the start or the end of a label text:
/// the link's label (whitespace runs as one space) as context, and a fix
/// deleting the spaces when their range is known.
pub open spec fn md039_report(tokens: Seq<Token>, label: int, lt: int, is_start: bool) -> Report {
    let t = tokens[lt];
    let range = edge_range(t, is_start);
    Report {
        line: edge_line(t, is_start),
        detail: None,
        context: Some(spec_ellipsify(spec_replace_space("\\s+"@, tokens[label].text@), is_start, !is_start)),
        range,
        fix: match range {
            Some((col, l)) => Some(
                FixV { line_number: None, edit_column: Some(col), delete_count: Some(l as i64), insert_text: None },
            ),
            None => None,
        },
    }
}

/// The report for one side of a label text, when that side has spaces
/// and the line is in the document.
pub open spec fn md039_side(tokens: Seq<Token>, n: int, label: int, lt: int, is_start: bool) -> Seq<Report> {
    let text = tokens[lt].text@;
    let has = if is_start {
        text.len() > 0 && spec_is_whitespace(text[0])
    } else {
        trim_end_at(text, text.len() as int) != text.len()
    };
    let r = md039_report(tokens, label, lt, is_start);
    if has && 1 <= r.line <= n {
        seq![r]
    } else {
        Seq::empty()
    }
}

/// The problems for the first `k` label texts `texts` of `label`.
pub open spec fn md039_texts(tokens: Seq<Token>, n: int, label: int, texts: Seq<usize>, k: int) -> Seq<Report>
    decreases k,
{
    if k <= 0 {
        Seq::empty()
    } else {
        let lt = texts[k - 1] as int;
        md039_texts(tokens, n, label, texts, k - 1) + md039_side(tokens, n, label, lt, true) + md039_side(
            tokens,
            n,
            label,
            lt,
            false,
        )
    }
}

/// The labels.
pub open spec fn label_ids(tokens: Seq<Token>) -> Seq<usize> {
    filter_idx_upto(tokens, seq![Kind::Label], tokens.len() as int)
}

/// The problems for the `c`-th label: none unless it is a link's.
pub open spec fn md039_label(tokens: Seq<Token>, n: int, c: int) -> Seq<Report> {
    let label = label_ids(tokens)[c] as int;
    let t = tokens[label];
    let is_link = match t.parent {
        Some(q) => tokens[q as int].kind == Kind::Link,
        None => false,
    };
    let texts = filter_kinds(tokens, t.children@, seq![Kind::LabelText], t.children@.len() as int);
    if is_link {
        md039_texts(tokens, n, label, texts, texts.len() as int)
    } else {
        Seq::empty()
    }
}

/// The problems for the first `c` labels.
pub open spec fn md039_upto(tokens: Seq<Token>, n: int, c: int) -> Seq<Report>
    decreases c,
{
    if c <= 0 {
        Seq::empty()
    } else {
        md039_upto(tokens, n, c - 1) + md039_label(tokens, n, c - 1)
    }
}

/// Report the space at the start (`is_start`) or end of a link's text;
/// the fix deletes it.
fn add_label_space_error(p: &Params, emit: &mut Emit, label: usize, label_text: usize, is_start: bool)
    requires
        params_ok(p),
        label < p.tree.tokens@.len(),
        label_text < p.tree.tokens@.len(),
    ensures
        super::keeps_appended(old(emit).errors@, final(emit).errors@, p.lines@.len() as int),
        ({
            let r = md039_report(p.tree.tokens@, label as int, label_text as int, is_start);
            if 1 <= r.line <= p.lines@.len() {
                &&& final(emit).errors@ == old(emit).errors@.push(final(emit).errors@.last())
                &&& report_of(final(emit).errors@.last()) == r
            } else {
                final(emit).errors@ == old(emit).errors@
            }
        }),
{
    let tree = p.tree;
    let n = p.lines.len();
    let lt = tree.get(label_text);
    let m = if is_start {
        re_find("^[^\\S\\r\\n]+", &lt.text)
    } else {
        re_find("[^\\S\\r\\n]+$", &lt.text)
    };
    let range: Option<(usize, usize)> = match m {
        Some((a, b)) => {
            let len = b - a;
            if is_start {
                Some((lt.start_column, len))
            } else if lt.end_column >= len {
                Some((lt.end_column - len, len))
            } else {
                None
            }
        },
        None => None,
    };
    let line = if is_start {
        if m.is_some() {
            lt.start_line
        } else if lt.start_line < usize::MAX {
            lt.start_line + 1
        } else {
            lt.start_line
        }
    } else {
        if m.is_some() {
            lt.end_line
        } else if lt.end_line > 0 {
            lt.end_line - 1
        } else {
            0
        }
    };
    let ctx = replace_all_space("\\s+", &tree.get(label).text);
    let fix = match range {
        Some((col, l)) => Some(FixInfo::delete(col, l as i64)),
        None => None,
    };
    proof {
        assert(range == edge_range(*lt, is_start));
        assert(line == edge_line(*lt, is_start));
    }
    emit.add_context_checked(n, line, &ctx, is_start, !is_start, range, fix);
}

/// What `md039` reports: the problems it appends to `old_errors`.
pub open spec fn md039_reported(p: &Params, old_errors: Seq<RuleError>, new_errors: Seq<RuleError>) -> bool {
    reports_are(
        old_errors,
        new_errors,
        md039_upto(p.tree.tokens@, p.lines@.len() as int, label_ids(p.tree.tokens@).len() as int),
    )
}

/// Report link texts that start or end with spaces.
pub fn md039(p: &Params, emit: &mut Emit)
    requires
        params_ok(p),
    ensures
        appended(old(emit).errors@, final(emit).errors@, p.lines@.len() as int),
        md039_reported(p, old(emit).errors@, final(emit).errors@),
{
    let tree = p.tree;
    let n = p.lines.len();
    let kinds: [Kind; 1] = [Kind::Label];
    let tkinds: [Kind; 1] = [Kind::LabelText];
    proof {
        assert(kinds@ =~= seq![Kind::Label]);
        assert(tkinds@ =~= seq![Kind::LabelText]);
    }
    let labels = tree.filter_idx(&kinds);
    let ghost toks = tree.tokens@;
    let ghost e0 = emit.errors@;
    proof {
        lemma_appended_refl(e0, n as int);
        lemma_reports_start(e0);
    }
    let mut c: usize = 0;
    while c < labels.len()
        invariant
            c <= labels@.len(),
            params_ok(p),
            tree == p.tree,
            toks == tree.tokens@,
            n == p.lines@.len(),
            labels@ == label_ids(toks),
            tkinds@ == seq![Kind::LabelText],
            forall|k: int| 0 <= k < labels@.len() ==> #[trigger] labels@[k] < tree.tokens@.len(),
            appended(e0, emit.errors@, n as int),
            reports_are(e0, emit.errors@, md039_upto(toks, n as int, c as int)),
        decreases labels@.len() - c,
    {
        let label = labels[c];
        let ghost mid = emit.errors@;
        proof {
            tree.lemma_node(label as int);
            lemma_reports_start(mid);
        }
        let is_link = match tree.get(label).parent {
            Some(q) => tree.get(q).kind == Kind::Link,
            None => false,
        };
        if is_link {
            let texts = tree.children_of(label, &tkinds);
            let mut k: usize = 0;
            while k < texts.len()
                invariant
                    k <= texts@.len(),
                    params_ok(p),
                    tree == p.tree,
                    toks == tree.tokens@,
                    label < tree.tokens@.len(),
                    n == p.lines@.len(),
                    forall|q: int| 0 <= q < texts@.len() ==> #[trigger] texts@[q] < tree.tokens@.len(),
                    appended(e0, emit.errors@, n as int),
                    reports_are(mid, emit.errors@, md039_texts(toks, n as int, label as int, texts@, k as int)),
                decreases texts@.len() - k,
            {
                let lt = texts[k];
                let text = &tree.get(lt).text;
                let starts_ws = text.len() > 0 && crate::text::is_whitespace(text[0]);
                let ends_ws = trim_end_len(text) != text.len();
                let ghost before = md039_texts(toks, n as int, label as int, texts@, k as int);
                let ghost m1 = emit.errors@;
                if starts_ws {
                    add_label_space_error(p, emit, label, lt, true);
                    proof {
                        if emit.errors@ != m1 {
                            lemma_reports_push(mid, m1, before, emit.errors@.last());
                        }
                    }
                }
                proof {
                    assert(before + md039_side(toks, n as int, label as int, lt as int, true) =~= (if emit.errors@
                        == m1 {
                        before
                    } else {
                        before.push(report_of(emit.errors@.last()))
                    }));
                }
                let ghost b2 = before + md039_side(toks, n as int, label as int, lt as int, true);
                let ghost m2 = emit.errors@;
                if ends_ws {
                    add_label_space_error(p, emit, label, lt, false);
                    proof {
                        if emit.errors@ != m2 {
                            lemma_reports_push(mid, m2, b2, emit.errors@.last());
                        }
                    }
                }
                proof {
                    assert(b2 + md039_side(toks, n as int, label as int, lt as int, false) =~= (if emit.errors@
                        == m2 {
                        b2
                    } else {
                        b2.push(report_of(emit.errors@.last()))
                    }));
                }
                k += 1;
            }
        }
        proof {
            lemma_reports_concat(e0, mid, emit.errors@, md039_upto(toks, n as int, c as int), md039_label(toks, n as int, c as int));
        }
        c += 1;
    }
}

} // verus!
