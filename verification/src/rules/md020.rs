//! MD020 — no-missing-space-closed-atx.

use vstd::prelude::*;

use crate::md::kind::Kind;
use crate::re::{groups_view, re_captures, regex_captures};
use super::helpers::{spec_ellipsify, spec_trim, trim};
use super::md018::md018_ignored_kinds;
use super::{
    Emit, FixInfo, FixV, Params, Report, RuleError, Span, appended, kind_line_marks, lemma_appended_refl,
    lemma_reported_start, lemma_reported_step, marked, on_kind_line, params_ok, picked, report_of, reported_as,
};

verus! {

/// The pattern of a closed ATX heading line.
pub open spec fn closed_atx_pattern() -> Seq<char> {
    "^(#+)([ \\t]*)([^# \\t\\\\]|[^# \\t][^#]*?[^# \\t\\\\])([ \\t]*)((?:\\\\#)?)(#+)(\\s*)$"@
}

/// The span of capture group `k`, when it took part and lies in the line.
pub open spec fn gspan(line: Seq<char>, g: Seq<Option<(int, int)>>, k: int) -> Option<(int, int)> {
    if 0 <= k < g.len() {
        match g[k] {
            Some((a, b)) => if 0 <= a <= b <= line.len() {
                Some((a, b))
            } else {
                None
            },
            None => None,
        }
    } else {
        None
    }
}

/// Length of capture group `k` (0 when it did not take part).
pub open spec fn spec_glen(line: Seq<char>, g: Seq<Option<(int, int)>>, k: int) -> int {
    match gspan(line, g, k) {
        Some((a, b)) => b - a,
        None => 0,
    }
}

/// Text of capture group `k` (empty when it did not take part).
pub open spec fn spec_gtext(line: Seq<char>, g: Seq<Option<(int, int)>>, k: int) -> Seq<char> {
    match gspan(line, g, k) {
        Some((a, b)) => line.subrange(a, b),
        None => Seq::empty(),
    }
}

/// The groups of a closed ATX heading line, if it is one.
pub open spec fn closed_groups(line: Seq<char>) -> Option<Seq<Option<(int, int)>>> {
    regex_captures(closed_atx_pattern(), line)
}

/// Whether the line of index `i` is reported: a closed ATX heading
/// outside code and HTML, without a space after the opening hashes or
/// before the closing ones (or with an escaped closing hash).
pub open spec fn md020_reports(lines: Seq<Vec<char>>, tokens: Seq<crate::md::tokens::Token>, i: int) -> bool {
    let line = lines[i]@;
    match closed_groups(line) {
        Some(g) => {
            &&& !on_kind_line(tokens, md018_ignored_kinds(), Span::Whole, i + 1)
            &&& spec_glen(line, g, 2) == 0 || spec_glen(line, g, 4) == 0 || spec_gtext(line, g, 5).len() > 0
        },
        None => false,
    }
}

/// The problem for the line of index `i`: the side(s) missing a space,
/// and a fix rewriting the line with the spaces.
pub open spec fn md020_report(lines: Seq<Vec<char>>, i: int) -> Report {
    let line = lines[i]@;
    let g = closed_groups(line)->0;
    let lh = spec_gtext(line, g, 1);
    let content = spec_gtext(line, g, 3);
    let esc = spec_gtext(line, g, 5);
    let rh = spec_gtext(line, g, 6);
    let trail = spec_glen(line, g, 7);
    let left = spec_glen(line, g, 2) == 0;
    let right = spec_glen(line, g, 4) == 0 || esc.len() > 0;
    let range: (usize, usize) = if left {
        (1, (lh.len() + 1) as usize)
    } else if line.len() >= trail + rh.len() {
        ((line.len() - trail - rh.len()) as usize, (rh.len() + 1) as usize)
    } else {
        (0, (rh.len() + 1) as usize)
    };
    let ins = lh + seq![' '] + content + seq![' '] + (if esc.len() > 0 { esc + seq![' '] } else { Seq::empty() }) + rh;
    Report {
        line: (i + 1) as usize,
        detail: None,
        context: Some(spec_ellipsify(spec_trim(line), left, right)),
        range: Some(range),
        fix: Some(FixV { line_number: None, edit_column: Some(1), delete_count: Some(line.len() as i64), insert_text: Some(ins) }),
    }
}

pub open spec fn md020_f(lines: Seq<Vec<char>>, tokens: Seq<crate::md::tokens::Token>) -> spec_fn(int) -> bool {
    |i: int| md020_reports(lines, tokens, i)
}

pub open spec fn md020_e(lines: Seq<Vec<char>>) -> spec_fn(RuleError, int) -> bool {
    |e: RuleError, i: int| report_of(e) == md020_report(lines, i)
}

/// Length of capture group `k` (0 when it did not take part).
fn glen(line: &[char], g: &Vec<Option<(usize, usize)>>, k: usize) -> (r: usize)
    ensures
        r <= line@.len(),
        r == spec_glen(line@, groups_view(g@), k as int),
{
    if k < g.len() {
        proof {
            assert(groups_view(g@)[k as int] == crate::re::span_view(g@[k as int]));
        }
        match g[k] {
            Some((a, b)) => if a <= b && b <= line.len() {
                b - a
            } else {
                0
            },
            None => 0,
        }
    } else {
        0
    }
}

/// Text of capture group `k` of `line` (empty when it did not take part).
fn gtext(line: &[char], g: &Vec<Option<(usize, usize)>>, k: usize) -> (r: Vec<char>)
    ensures
        r@.len() <= line@.len(),
        r@ == spec_gtext(line@, groups_view(g@), k as int),
{
    if k < g.len() {
        proof {
            assert(groups_view(g@)[k as int] == crate::re::span_view(g@[k as int]));
        }
        match g[k] {
            Some((a, b)) => if a <= b && b <= line.len() {
                crate::text::slice_vec(line, a, b)
            } else {
                Vec::new()
            },
            None => Vec::new(),
        }
    } else {
        Vec::new()
    }
}

/// What `md020` reports: the problems it appends to `old_errors`.
pub open spec fn md020_reported(p: &Params, old_errors: Seq<RuleError>, new_errors: Seq<RuleError>) -> bool {
    reported_as(
        old_errors,
        new_errors,
        picked(md020_f(p.lines@, p.tree.tokens@), p.lines@.len() as int),
        md020_e(p.lines@),
    )
}

/// Report closed ATX headings (`#text#`) without a space inside the
/// opening or the closing hashes; the fix rewrites the line with the
/// spaces.
pub fn md020(p: &Params, emit: &mut Emit)
    requires
        params_ok(p),
    ensures
        appended(old(emit).errors@, final(emit).errors@, p.lines@.len() as int),
        md020_reported(p, old(emit).errors@, final(emit).errors@),
{
    let n = p.lines.len();
    let kinds: [Kind; 3] = [Kind::CodeFenced, Kind::CodeIndented, Kind::HtmlFlow];
    proof {
        assert(kinds@ =~= md018_ignored_kinds());
    }
    let ignore = kind_line_marks(p.tree, &kinds, Span::Whole, n);
    let ghost lines = p.lines@;
    let ghost toks = p.tree.tokens@;
    let ghost f = md020_f(lines, toks);
    let ghost err = md020_e(lines);
    let ghost e0 = emit.errors@;
    proof {
        lemma_appended_refl(e0, n as int);
        lemma_reported_start(e0, f, err);
    }
    let mut li: usize = 0;
    while li < n
        invariant
            li <= n,
            n == p.lines@.len(),
            lines == p.lines@,
            toks == p.tree.tokens@,
            params_ok(p),
            ignore@.len() == n + 1,
            forall|l: int| 0 <= l <= n ==> #[trigger] ignore@[l] == on_kind_line(toks, md018_ignored_kinds(), Span::Whole, l),
            f == md020_f(lines, toks),
            err == md020_e(lines),
            appended(e0, emit.errors@, n as int),
            reported_as(e0, emit.errors@, picked(f, li as int), err),
        decreases n - li,
    {
        let line_number = li + 1;
        let line = &p.lines[li];
        let ghost mid = emit.errors@;
        let ghost i = li as int;
        proof {
            assert(ignore@[line_number as int] == on_kind_line(toks, md018_ignored_kinds(), Span::Whole, i + 1));
        }
        if !marked(&ignore, line_number) {
            match re_captures(
                "^(#+)([ \\t]*)([^# \\t\\\\]|[^# \\t][^#]*?[^# \\t\\\\])([ \\t]*)((?:\\\\#)?)(#+)(\\s*)$",
                line,
            ) {
                Some(g) => {
                    let left_hash = gtext(line, &g, 1);
                    let left_space_len = glen(line, &g, 2);
                    let content = gtext(line, &g, 3);
                    let right_space_len = glen(line, &g, 4);
                    let right_escape = gtext(line, &g, 5);
                    let right_hash = gtext(line, &g, 6);
                    let trail_space_len = glen(line, &g, 7);
                    let left = left_space_len == 0;
                    let right = right_space_len == 0 || right_escape.len() > 0;
                    if left || right {
                        let line_len = line.len();
                        let rh = right_hash.len();
                        let range = if left {
                            (1usize, left_hash.len() + 1)
                        } else if line_len >= trail_space_len + rh {
                            (line_len - trail_space_len - rh, rh + 1)
                        } else {
                            (0usize, rh + 1)
                        };
                        let mut ins: Vec<char> = crate::text::slice_vec(&left_hash, 0, left_hash.len());
                        ins.push(' ');
                        super::concat(&mut ins, &content);
                        ins.push(' ');
                        if right_escape.len() > 0 {
                            super::concat(&mut ins, &right_escape);
                            ins.push(' ');
                        }
                        super::concat(&mut ins, &right_hash);
                        proof {
                            let esc = right_escape@;
                            assert(ins@ =~= left_hash@ + seq![' '] + content@ + seq![' '] + (if esc.len() > 0 {
                                esc + seq![' ']
                            } else {
                                Seq::empty()
                            }) + right_hash@);
                        }
                        emit.add_context_checked(
                            n,
                            line_number,
                            &trim(line),
                            left,
                            right,
                            Some(range),
                            Some(
                                crate::rules::FixInfo {
                                    line_number: None,
                                    edit_column: Some(1),
                                    delete_count: Some(line_len as i64),
                                    insert_text: Some(ins),
                                },
                            ),
                        );
                    }
                },
                None => {},
            }
        }
        proof {
            assert(f(i) == md020_reports(lines, toks, i));
            if f(i) {
                assert(err(emit.errors@.last(), i) == (report_of(emit.errors@.last()) == md020_report(lines, i)));
            }
            lemma_reported_step(e0, mid, emit.errors@, f, err, i);
        }
        li += 1;
    }
}

} // verus!
