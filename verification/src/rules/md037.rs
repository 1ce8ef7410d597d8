//! MD037 — no-space-in-emphasis.

use vstd::prelude::*;

use super::RuleError;

use crate::md::kind::Kind;
use crate::md::tokens::Token;
use crate::re::{re_find, regex_find};
use super::md030::children_kind;
use super::{
    Emit, FixInfo, FixV, Params, Report, appended, lemma_appended_refl, lemma_reports_concat, lemma_reports_push,
    lemma_reports_start, params_ok, report_of, reports_are, slice_eq,
};

verus! {

/// The `k`-th emphasis marker that can stand as unmatched text.
pub open spec fn spec_marker(k: int) -> Seq<char> {
    if k == 0 {
        "_"@
    } else if k == 1 {
        "__"@
    } else if k == 2 {
        "___"@
    } else if k == 3 {
        "*"@
    } else if k == 4 {
        "**"@
    } else {
        "***"@
    }
}

/// The data children of token `token` that are the `mk`-th marker as
/// text, among the first `d` of `datas`.
pub open spec fn marker_texts(tokens: Seq<Token>, datas: Seq<usize>, mk: int, d: int) -> Seq<usize>
    decreases d,
{
    if d <= 0 {
        Seq::empty()
    } else {
        let prev = marker_texts(tokens, datas, mk, d - 1);
        let ct = tokens[datas[d - 1] as int];
        if ct.text@.len() <= 3 && !ct.in_html_flow && ct.text@ == spec_marker(mk) {
            prev.push(datas[d - 1])
        } else {
            prev
        }
    }
}

/// The problem for spaces after an opening marker `start`, if any.
pub open spec fn md037_start(lines: Seq<Vec<char>>, start: Token, m: Seq<char>) -> Seq<Report> {
    if 1 <= start.start_line <= lines.len() && start.end_column >= 1 {
        let line = lines[start.start_line - 1]@;
        let from = if start.end_column - 1 <= line.len() { start.end_column - 1 } else { line.len() as int };
        let slice = line.subrange(from, line.len() as int);
        match regex_find("^\\s+\\S"@, slice) {
            Some((a, b)) => if b - a >= 1 {
                let count = b - a - 1;
                seq![
                    Report {
                        line: start.start_line,
                        detail: None,
                        context: Some(m + slice.subrange(a, b)),
                        range: Some((start.end_column, count as usize)),
                        fix: Some(FixV { line_number: None, edit_column: Some(start.end_column), delete_count: Some(count as i64), insert_text: None }),
                    },
                ]
            } else {
                Seq::empty()
            },
            None => Seq::empty(),
        }
    } else {
        Seq::empty()
    }
}

/// The problem for spaces before a closing marker `end`, if any.
pub open spec fn md037_end(lines: Seq<Vec<char>>, end: Token, m: Seq<char>) -> Seq<Report> {
    if 1 <= end.start_line <= lines.len() && end.start_column >= 1 {
        let line = lines[end.start_line - 1]@;
        let upto = if end.start_column - 1 <= line.len() { end.start_column - 1 } else { line.len() as int };
        let slice = line.subrange(0, upto);
        match regex_find("\\S\\s+$"@, slice) {
            Some((a, b)) => if b - a >= 1 && end.start_column >= b - a - 1 {
                let count = b - a - 1;
                let column = end.start_column - count;
                seq![
                    Report {
                        line: end.start_line,
                        detail: None,
                        context: Some(slice.subrange(a, b) + m),
                        range: Some((column as usize, count as usize)),
                        fix: Some(FixV { line_number: None, edit_column: Some(column as usize), delete_count: Some(count as i64), insert_text: None }),
                    },
                ]
            } else {
                Seq::empty()
            },
            None => Seq::empty(),
        }
    } else {
        Seq::empty()
    }
}

/// The problems for the first `j` pairs of markers `toks` (the `2j`-th
/// opening, the next closing).
pub open spec fn md037_pairs(tokens: Seq<Token>, lines: Seq<Vec<char>>, toks: Seq<usize>, m: Seq<char>, j: int) -> Seq<
    Report,
>
    decreases j,
{
    if j <= 0 {
        Seq::empty()
    } else {
        md037_pairs(tokens, lines, toks, m, j - 1) + md037_start(lines, tokens[toks[2 * (j - 1)] as int], m) + md037_end(
            lines,
            tokens[toks[2 * (j - 1) + 1] as int],
            m,
        )
    }
}

/// The problems for the first `mk` markers among the data `datas` of a
/// token.
pub open spec fn md037_markers(tokens: Seq<Token>, lines: Seq<Vec<char>>, datas: Seq<usize>, mk: int) -> Seq<Report>
    decreases mk,
{
    if mk <= 0 {
        Seq::empty()
    } else {
        let toks = marker_texts(tokens, datas, mk - 1, datas.len() as int);
        md037_markers(tokens, lines, datas, mk - 1) + md037_pairs(tokens, lines, toks, spec_marker(mk - 1), (toks.len() / 2) as int)
    }
}

/// The problems for the first `t` tokens.
pub open spec fn md037_upto(tokens: Seq<Token>, lines: Seq<Vec<char>>, t: int) -> Seq<Report>
    decreases t,
{
    if t <= 0 {
        Seq::empty()
    } else {
        let datas = children_kind(tokens, t - 1, Kind::Data);
        md037_upto(tokens, lines, t - 1) + md037_markers(tokens, lines, datas, 6)
    }
}

/// The emphasis markers that can stand as unmatched text.
fn marker(k: usize) -> (r: Vec<char>)
    ensures
        r@ == spec_marker(k as int),
{
    if k == 0 {
        super::lit("_")
    } else if k == 1 {
        super::lit("__")
    } else if k == 2 {
        super::lit("___")
    } else if k == 3 {
        super::lit("*")
    } else if k == 4 {
        super::lit("**")
    } else {
        super::lit("***")
    }
}

/// What `md037` reports: the problems it appends to `old_errors`.
pub open spec fn md037_reported(p: &Params, old_errors: Seq<RuleError>, new_errors: Seq<RuleError>) -> bool {
    reports_are(old_errors, new_errors, md037_upto(p.tree.tokens@, p.lines@, p.tree.tokens@.len() as int))
}

/// Report spaces inside would-be emphasis: a marker left as text, followed
/// (or, for the closing one, preceded) by spaces. The fix deletes them.
pub fn md037(p: &Params, emit: &mut Emit)
    requires
        params_ok(p),
    ensures
        appended(old(emit).errors@, final(emit).errors@, p.lines@.len() as int),
        md037_reported(p, old(emit).errors@, final(emit).errors@),
{
    let tree = p.tree;
    let n = p.lines.len();
    let ghost tk = tree.tokens@;
    let ghost lines = p.lines@;
    let dk: [Kind; 1] = [Kind::Data];
    proof {
        assert(dk@ =~= seq![Kind::Data]);
    }
    let ghost e0 = emit.errors@;
    proof {
        lemma_appended_refl(e0, n as int);
        lemma_reports_start(e0);
    }
    let mut token: usize = 0;
    while token < tree.tokens.len()
        invariant
            token <= tree.tokens@.len(),
            params_ok(p),
            tree == p.tree,
            tk == tree.tokens@,
            lines == p.lines@,
            n == p.lines@.len(),
            dk@ == seq![Kind::Data],
            appended(e0, emit.errors@, n as int),
            reports_are(e0, emit.errors@, md037_upto(tk, lines, token as int)),
        decreases tree.tokens@.len() - token,
    {
        let ghost mid = emit.errors@;
        proof {
            lemma_reports_start(mid);
        }
        let datas = tree.children_of(token, &dk);
        proof {
            assert(datas@ == children_kind(tk, token as int, Kind::Data));
        }
        let mut mk: usize = 0;
        while mk < 6
            invariant
                mk <= 6,
                params_ok(p),
                tree == p.tree,
                tk == tree.tokens@,
                lines == p.lines@,
                n == p.lines@.len(),
                forall|q: int| 0 <= q < datas@.len() ==> #[trigger] datas@[q] < tree.tokens@.len(),
                appended(e0, emit.errors@, n as int),
                reports_are(mid, emit.errors@, md037_markers(tk, lines, datas@, mk as int)),
            decreases 6 - mk,
        {
            let ghost m2 = emit.errors@;
            proof {
                lemma_reports_start(m2);
            }
            let m = marker(mk);
            let mut toks: Vec<usize> = Vec::new();
            let mut d: usize = 0;
            while d < datas.len()
                invariant
                    d <= datas@.len(),
                    tk == tree.tokens@,
                    m@ == spec_marker(mk as int),
                    toks@ == marker_texts(tk, datas@, mk as int, d as int),
                    forall|q: int| 0 <= q < datas@.len() ==> #[trigger] datas@[q] < tree.tokens@.len(),
                    forall|q: int| 0 <= q < toks@.len() ==> #[trigger] toks@[q] < tree.tokens@.len(),
                decreases datas@.len() - d,
            {
                let ct = tree.get(datas[d]);
                if ct.text.len() <= 3 && !ct.in_html_flow && slice_eq(&ct.text, &m) {
                    toks.push(datas[d]);
                }
                d += 1;
            }
            let mut i: usize = 0;
            while toks.len() > 0 && i < toks.len() - 1
                invariant
                    params_ok(p),
                    tree == p.tree,
                    tk == tree.tokens@,
                    lines == p.lines@,
                    n == p.lines@.len(),
                    m@ == spec_marker(mk as int),
                    i % 2 == 0,
                    i <= toks@.len() + 1,
                    i < toks@.len() || i == 0 || toks@.len() <= i <= toks@.len() + 1,
                    i / 2 <= toks@.len() / 2,
                    forall|q: int| 0 <= q < toks@.len() ==> #[trigger] toks@[q] < tree.tokens@.len(),
                    appended(e0, emit.errors@, n as int),
                    reports_are(m2, emit.errors@, md037_pairs(tk, lines, toks@, m@, (i / 2) as int)),
                decreases toks@.len() + 2 - i,
            {
                let ghost m3 = emit.errors@;
                let ghost j: int = (i / 2) as int;
                let start = tree.get(toks[i]);
                if start.start_line >= 1 && start.start_line <= n && start.end_column >= 1 {
                    let line = &p.lines[start.start_line - 1];
                    let from = if start.end_column - 1 <= line.len() {
                        start.end_column - 1
                    } else {
                        line.len()
                    };
                    let slice = crate::text::slice_vec(line, from, line.len());
                    match re_find("^\\s+\\S", &slice) {
                        Some((a, b)) => {
                            if b - a >= 1 {
                                let space = crate::text::slice_vec(&slice, a, b);
                                let count = b - a - 1;
                                let mut ctx = crate::text::slice_vec(&m, 0, m.len());
                                super::concat(&mut ctx, &space);
                                proof {
                                    assert(ctx@ =~= m@ + slice@.subrange(a as int, b as int));
                                }
                                emit.add_checked(
                                    n,
                                    start.start_line,
                                    None,
                                    Some(ctx),
                                    Some((start.end_column, count)),
                                    Some(FixInfo::delete(start.end_column, count as i64)),
                                );
                            }
                        },
                        None => {},
                    }
                }
                let ghost rs = md037_start(lines, *start, m@);
                proof {
                    if emit.errors@ != m3 {
                        lemma_reports_push(m2, m3, md037_pairs(tk, lines, toks@, m@, j), emit.errors@.last());
                        assert(rs == seq![report_of(emit.errors@.last())]);
                        assert(md037_pairs(tk, lines, toks@, m@, j) + rs =~= md037_pairs(tk, lines, toks@, m@, j).push(report_of(emit.errors@.last())));
                    } else {
                        assert(rs =~= Seq::<Report>::empty());
                        assert(md037_pairs(tk, lines, toks@, m@, j) + rs =~= md037_pairs(tk, lines, toks@, m@, j));
                    }
                }
                let ghost m4 = emit.errors@;
                let ghost acc = md037_pairs(tk, lines, toks@, m@, j) + rs;
                let end = tree.get(toks[i + 1]);
                if end.start_line >= 1 && end.start_line <= n && end.start_column >= 1 {
                    let line = &p.lines[end.start_line - 1];
                    let upto = if end.start_column - 1 <= line.len() {
                        end.start_column - 1
                    } else {
                        line.len()
                    };
                    let slice = crate::text::slice_vec(line, 0, upto);
                    match re_find("\\S\\s+$", &slice) {
                        Some((a, b)) => {
                            if b - a >= 1 && end.start_column >= b - a - 1 {
                                let space = crate::text::slice_vec(&slice, a, b);
                                let count = b - a - 1;
                                let column = end.start_column - count;
                                let mut ctx = space;
                                super::concat(&mut ctx, &m);
                                emit.add_checked(
                                    n,
                                    end.start_line,
                                    None,
                                    Some(ctx),
                                    Some((column, count)),
                                    Some(FixInfo::delete(column, count as i64)),
                                );
                            }
                        },
                        None => {},
                    }
                }
                let ghost re = md037_end(lines, *end, m@);
                proof {
                    if emit.errors@ != m4 {
                        lemma_reports_push(m2, m4, acc, emit.errors@.last());
                        assert(re == seq![report_of(emit.errors@.last())]);
                        assert(acc + re =~= acc.push(report_of(emit.errors@.last())));
                    } else {
                        assert(re =~= Seq::<Report>::empty());
                        assert(acc + re =~= acc);
                    }
                    assert((i + 2) / 2 == j + 1);
                    assert(2 * j == i);
                    assert(md037_pairs(tk, lines, toks@, m@, j + 1) == acc + re);
                }
                i += 2;
            }
            proof {
                assert(i / 2 == toks@.len() / 2);
                lemma_reports_concat(mid, m2, emit.errors@, md037_markers(tk, lines, datas@, mk as int), md037_pairs(tk, lines, toks@, m@, (toks@.len() / 2) as int));
            }
            mk += 1;
        }
        proof {
            lemma_reports_concat(e0, mid, emit.errors@, md037_upto(tk, lines, token as int), md037_markers(tk, lines, datas@, 6));
        }
        token += 1;
    }
}

} // verus!
