//! MD011 — no-reversed-links: `(text)[link]`.

use vstd::prelude::*;

use super::RuleError;

use crate::md::kind::Kind;
use crate::md::tokens::{Token, filter_idx_upto};
use crate::re::{groups_view, re_captures, regex_captures, span_view};
use super::{
    Emit, FixInfo, FixV, Params, Report, Span, appended, kind_line_marks, lemma_appended_refl,
    lemma_reports_concat, lemma_reports_push, lemma_reports_start, marked, on_kind_line, params_ok, report_of,
    reports_are,
};

verus! {

/// A span on one line, columns inclusive.
#[derive(Clone, Copy)]
pub struct LineSpan {
    pub line: usize,
    pub scol: usize,
    pub ecol: usize,
}

pub open spec fn spec_span_overlaps(a: LineSpan, b: LineSpan) -> bool {
    a.line == b.line && a.scol <= b.ecol && b.scol <= a.ecol
}

fn span_overlaps(a: &LineSpan, b: &LineSpan) -> (r: bool)
    ensures
        r == spec_span_overlaps(*a, *b),
{
    a.line == b.line && a.scol <= b.ecol && b.scol <= a.ecol
}

/// The code and math texts.
pub open spec fn md011_text_ids(tokens: Seq<Token>) -> Seq<usize> {
    filter_idx_upto(tokens, seq![Kind::CodeText, Kind::MathText], tokens.len() as int)
}

/// The spans of the code and math texts.
pub open spec fn md011_spans(tokens: Seq<Token>) -> Seq<LineSpan> {
    md011_text_ids(tokens).map_values(
        |i: usize| LineSpan { line: tokens[i as int].start_line, scol: tokens[i as int].start_column, ecol: tokens[i as int].end_column },
    )
}

/// The kinds whose lines are not checked.
pub open spec fn md011_ignored_kinds() -> Seq<Kind> {
    seq![Kind::CodeFenced, Kind::CodeIndented, Kind::MathFlow]
}

/// The pattern of reversed link syntax.
pub open spec fn reversed_pattern() -> Seq<char> {
    "(^|[^\\\\])\\(([^()]+)\\)\\[([^\\]^][^\\]]*)\\]"@
}

/// Capture group `k` when present and within `len`.
pub open spec fn spec_group(g: Seq<Option<(int, int)>>, k: int, len: int) -> Option<(int, int)> {
    if 0 <= k < g.len() {
        match g[k] {
            Some((a, b)) => if 0 <= a <= b <= len {
                Some((a, b))
            } else {
                None
            },
            None => None,
        }
    } else {
        None
    }
}

/// The problems of line `ln` (text `s`) from `search` on: each reversed
/// link found that is not escaped, not followed by `(`, and not in code;
/// the search goes on after the match.
pub open spec fn md011_line(s: Seq<char>, ln: usize, spans: Seq<LineSpan>, search: int) -> Seq<Report>
    decreases s.len() - search,
{
    if search < 0 || search >= s.len() {
        Seq::empty()
    } else {
        let rest = s.subrange(search, s.len() as int);
        let rl = rest.len() as int;
        match regex_captures(reversed_pattern(), rest) {
            None => Seq::empty(),
            Some(g) => match (spec_group(g, 0, rl), spec_group(g, 2, rl), spec_group(g, 3, rl)) {
                (Some((m0, m1)), Some((ta, tb)), Some((da, db))) => {
                    let pre_len = match spec_group(g, 1, rl) {
                        Some((a, b)) => b - a,
                        None => 0,
                    };
                    let after = search + m1;
                    let ok = !(after < s.len() && s[after] == '(') && !(tb > ta && rest[tb - 1] == '\\') && !(db > da
                        && rest[db - 1] == '\\') && m1 - m0 >= pre_len;
                    let column = search + m0 + pre_len + 1;
                    let length = m1 - m0 - pre_len;
                    let last = if length > 0 { column + length - 1 } else { column - 1 };
                    let range = LineSpan { line: ln, scol: column as usize, ecol: last as usize };
                    let hit = exists|k: int| 0 <= k < spans.len() && spec_span_overlaps(#[trigger] spans[k], range);
                    let next = if after <= search { search + 1 } else { after };
                    let tail = md011_line(s, ln, spans, next);
                    if ok && !hit {
                        seq![
                            Report {
                                line: ln,
                                detail: Some(rest.subrange(m0 + pre_len, m1)),
                                context: None,
                                range: Some((column as usize, length as usize)),
                                fix: Some(
                                    FixV {
                                        line_number: None,
                                        edit_column: Some(column as usize),
                                        delete_count: Some(length as i64),
                                        insert_text: Some("["@ + rest.subrange(ta, tb) + "]("@ + rest.subrange(da, db) + ")"@),
                                    },
                                ),
                            },
                        ] + tail
                    } else {
                        tail
                    }
                },
                _ => Seq::empty(),
            },
        }
    }
}

/// The problems of the first `k` lines.
pub open spec fn md011_upto(lines: Seq<Vec<char>>, tokens: Seq<Token>, k: int) -> Seq<Report>
    decreases k,
{
    if k <= 0 {
        Seq::empty()
    } else {
        let prev = md011_upto(lines, tokens, k - 1);
        if on_kind_line(tokens, md011_ignored_kinds(), Span::Whole, k) {
            prev
        } else {
            prev + md011_line(lines[k - 1]@, k as usize, md011_spans(tokens), 0)
        }
    }
}

/// Span `(a, b)` of capture group `k`, when present and within `len`.
fn group(g: &Vec<Option<(usize, usize)>>, k: usize, len: usize) -> (r: Option<(usize, usize)>)
    ensures
        r matches Some((a, b)) ==> a <= b <= len,
        span_view(r) == spec_group(groups_view(g@), k as int, len as int),
{
    if k < g.len() {
        proof {
            assert(groups_view(g@)[k as int] == span_view(g@[k as int]));
        }
        match g[k] {
            Some((a, b)) => if a <= b && b <= len {
                Some((a, b))
            } else {
                None
            },
            None => None,
        }
    } else {
        None
    }
}

/// What `md011` reports: the problems it appends to `old_errors`.
pub open spec fn md011_reported(p: &Params, old_errors: Seq<RuleError>, new_errors: Seq<RuleError>) -> bool {
    reports_are(old_errors, new_errors, md011_upto(p.lines@, p.tree.tokens@, p.lines@.len() as int))
}

/// Report reversed link syntax `(text)[link]` outside code; the fix
/// writes `[text](link)`.
pub fn md011(p: &Params, emit: &mut Emit)
    requires
        params_ok(p),
    ensures
        appended(old(emit).errors@, final(emit).errors@, p.lines@.len() as int),
        md011_reported(p, old(emit).errors@, final(emit).errors@),
{
    let tree = p.tree;
    let n = p.lines.len();
    let ik: [Kind; 3] = [Kind::CodeFenced, Kind::CodeIndented, Kind::MathFlow];
    let tk: [Kind; 2] = [Kind::CodeText, Kind::MathText];
    proof {
        assert(ik@ =~= md011_ignored_kinds());
        assert(tk@ =~= seq![Kind::CodeText, Kind::MathText]);
    }
    let ignore = kind_line_marks(tree, &ik, Span::Whole, n);
    let texts = tree.filter_idx(&tk);
    let ghost toks = tree.tokens@;
    let ghost lines = p.lines@;
    let mut ignore_texts: Vec<LineSpan> = Vec::new();
    let mut c: usize = 0;
    while c < texts.len()
        invariant
            c <= texts@.len(),
            toks == tree.tokens@,
            texts@ == md011_text_ids(toks),
            ignore_texts@ == md011_spans(toks).take(c as int),
            forall|k: int| 0 <= k < texts@.len() ==> #[trigger] texts@[k] < tree.tokens@.len(),
        decreases texts@.len() - c,
    {
        let t = tree.get(texts[c]);
        ignore_texts.push(LineSpan { line: t.start_line, scol: t.start_column, ecol: t.end_column });
        c += 1;
        proof {
            assert(ignore_texts@ =~= md011_spans(toks).take(c as int));
        }
    }
    let ghost spans = ignore_texts@;
    proof {
        assert(spans =~= md011_spans(toks));
    }
    let ghost e0 = emit.errors@;
    proof {
        lemma_appended_refl(e0, n as int);
        lemma_reports_start(e0);
    }
    let mut li: usize = 0;
    while li < n
        invariant
            li <= n,
            n == p.lines@.len(),
            lines == p.lines@,
            toks == tree.tokens@,
            tree == p.tree,
            params_ok(p),
            spans == ignore_texts@,
            spans == md011_spans(toks),
            ignore@.len() == n + 1,
            forall|l: int| 0 <= l <= n ==> #[trigger] ignore@[l] == on_kind_line(toks, md011_ignored_kinds(), Span::Whole, l),
            appended(e0, emit.errors@, n as int),
            reports_are(e0, emit.errors@, md011_upto(lines, toks, li as int)),
        decreases n - li,
    {
        let line_number = li + 1;
        let line = &p.lines[li];
        let ghost s = line@;
        let ghost mid = emit.errors@;
        proof {
            lemma_reports_start(mid);
            assert(ignore@[line_number as int] == on_kind_line(toks, md011_ignored_kinds(), Span::Whole, line_number as int));
        }
        if marked(&ignore, line_number) {
            proof {
                assert(md011_upto(lines, toks, li + 1) == md011_upto(lines, toks, li as int));
            }
            li += 1;
            continue;
        }
        let len = line.len();
        let ghost mut acc: Seq<Report> = Seq::empty();
        proof {
            assert(md011_line(s, line_number, spans, 0) =~= acc + md011_line(s, line_number, spans, 0));
        }
        let mut search: usize = 0;
        let mut stop = false;
        while search < len && !stop
            invariant
                search <= len,
                len == line@.len(),
                s == line@,
                len < usize::MAX / 4,
                n == p.lines@.len(),
                1 <= line_number <= n,
                spans == ignore_texts@,
                appended(e0, emit.errors@, n as int),
                reports_are(mid, emit.errors@, acc),
                !stop ==> md011_line(s, line_number, spans, 0) == acc + md011_line(s, line_number, spans, search as int),
                stop ==> md011_line(s, line_number, spans, 0) == acc,
            decreases len - search + (if stop { 0int } else { 1int }),
        {
            let rest = crate::text::slice_vec(line, search, len);
            let ghost rv = rest@;
            let ghost gs = regex_captures(reversed_pattern(), rv);
            let captured = re_captures("(^|[^\\\\])\\(([^()]+)\\)\\[([^\\]^][^\\]]*)\\]", &rest);
            let rl = rest.len();
            let g = match captured {
                Some(g) => g,
                None => {
                    proof {
                        assert(acc + Seq::<Report>::empty() =~= acc);
                    }
                    stop = true;
                    continue;
                },
            };
            let o0 = group(&g, 0, rl);
            let o2 = group(&g, 2, rl);
            let o3 = group(&g, 3, rl);
            if o0.is_none() || o2.is_none() || o3.is_none() {
                proof {
                    assert(acc + Seq::<Report>::empty() =~= acc);
                }
                stop = true;
                continue;
            }
            let (m0, m1) = o0.unwrap();
            let (ta, tb) = o2.unwrap();
            let (da, db) = o3.unwrap();
            let pre_len = match group(&g, 1, rl) {
                Some((a, b)) => b - a,
                None => 0,
            };
            let after = search + m1;
            let lookahead_ok = !(after < len && line[after] == '(');
            let text_ends_bs = tb > ta && rest[tb - 1] == '\\';
            let dest_ends_bs = db > da && rest[db - 1] == '\\';
            let new_search = if after <= search {
                search + 1
            } else {
                after
            };
            let ghost tail = md011_line(s, line_number, spans, new_search as int);
            let ghost m2 = emit.errors@;
            let mut reported = false;
            if lookahead_ok && !text_ends_bs && !dest_ends_bs && m1 - m0 >= pre_len {
                let column = search + m0 + pre_len + 1;
                let length = m1 - m0 - pre_len;
                let last = if length > 0 {
                    column + length - 1
                } else {
                    column - 1
                };
                let range = LineSpan { line: line_number, scol: column, ecol: last };
                let mut hit = false;
                let mut k: usize = 0;
                while k < ignore_texts.len() && !hit
                    invariant
                        k <= ignore_texts@.len(),
                        !hit ==> forall|q: int| 0 <= q < k ==> !spec_span_overlaps(#[trigger] ignore_texts@[q], range),
                        hit ==> exists|q: int| 0 <= q < ignore_texts@.len() && spec_span_overlaps(#[trigger] ignore_texts@[q], range),
                    decreases ignore_texts@.len() - k + (if hit { 0int } else { 1int }),
                {
                    if span_overlaps(&ignore_texts[k], &range) {
                        hit = true;
                    } else {
                        k += 1;
                    }
                }
                if !hit {
                    let reversed = crate::text::slice_vec(&rest, m0 + pre_len, m1);
                    let mut ins = super::lit("[");
                    super::concat(&mut ins, &crate::text::slice_vec(&rest, ta, tb));
                    super::concat(&mut ins, &super::lit("]("));
                    super::concat(&mut ins, &crate::text::slice_vec(&rest, da, db));
                    super::concat(&mut ins, &super::lit(")"));
                    emit.add_checked(
                        n,
                        line_number,
                        Some(reversed),
                        None,
                        Some((column, length)),
                        Some(FixInfo {
                            line_number: None,
                            edit_column: Some(column),
                            delete_count: Some(length as i64),
                            insert_text: Some(ins),
                        }),
                    );
                    reported = true;
                }
            }
            proof {
                if reported {
                    lemma_reports_push(mid, m2, acc, emit.errors@.last());
                    assert(md011_line(s, line_number, spans, search as int) == seq![report_of(emit.errors@.last())] + tail);
                    assert(acc + md011_line(s, line_number, spans, search as int) =~= acc.push(report_of(emit.errors@.last())) + tail);
                    acc = acc.push(report_of(emit.errors@.last()));
                } else {
                    assert(md011_line(s, line_number, spans, search as int) == tail);
                }
            }
            search = new_search;
        }
        proof {
            if !stop {
                assert(acc + md011_line(s, line_number, spans, search as int) =~= acc);
            }
            lemma_reports_concat(e0, mid, emit.errors@, md011_upto(lines, toks, li as int), acc);
        }
        li += 1;
    }
}

} // verus!
