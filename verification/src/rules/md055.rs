//! MD055 — table-pipe-style.

use vstd::prelude::*;

use crate::md::kind::Kind;
use crate::md::tokens::{Token, Tree, filter_idx_upto};
use super::md003::{is_text, opt_text_or, opt_text_or_spec};
use super::options::OptValue;
use super::{
    Emit, Params, RuleError, appended, detail_text, error_is, lemma_appended_refl, lemma_reported_start,
    lemma_reported_step, params_ok, picked, reported_as,
};

verus! {

/// From the `k`-th child of `ch` on (counted from the end when not
/// `first`): whether the first that is neither a line prefix nor
/// whitespace is a cell divider.
pub open spec fn edge_div(tokens: Seq<Token>, ch: Seq<usize>, first: bool, k: int) -> bool
    decreases ch.len() - k,
{
    if k < 0 || k >= ch.len() {
        false
    } else {
        let j = if first {
            k
        } else {
            ch.len() - 1 - k
        };
        let t = tokens[ch[j] as int];
        if t.kind != Kind::LinePrefix && t.kind != Kind::Whitespace {
            t.kind == Kind::TableCellDivider
        } else {
            edge_div(tokens, ch, first, k + 1)
        }
    }
}

/// The table rows.
pub open spec fn row_ids(tokens: Seq<Token>) -> Seq<usize> {
    filter_idx_upto(tokens, seq![Kind::TableDelimiterRow, Kind::TableRow], tokens.len() as int)
}

/// The cells of the `c`-th row.
pub open spec fn row_cells(tokens: Seq<Token>, c: int) -> Seq<usize> {
    tokens[row_ids(tokens)[c] as int].children@
}

/// Whether the `c`-th row has a leading pipe.
pub open spec fn row_leading(tokens: Seq<Token>, c: int) -> bool {
    edge_div(tokens, tokens[row_cells(tokens, c)[0] as int].children@, true, 0)
}

/// Whether the `c`-th row has a trailing pipe.
pub open spec fn row_trailing(tokens: Seq<Token>, c: int) -> bool {
    edge_div(tokens, tokens[row_cells(tokens, c).last() as int].children@, false, 0)
}

/// The name of a row's pipe style.
pub open spec fn pipe_style(leading: bool, trailing: bool) -> Seq<char> {
    if leading {
        if trailing {
            "leading_and_trailing"@
        } else {
            "leading_only"@
        }
    } else if trailing {
        "trailing_only"@
    } else {
        "no_leading_or_trailing"@
    }
}

/// The expected style and pipes.
pub struct PipeSt {
    pub style: Seq<char>,
    pub leading: bool,
    pub trailing: bool,
}

/// The expectation from the setting.
pub open spec fn pipe_setting(cfg: Seq<(Vec<char>, OptValue)>) -> PipeSt {
    let s = opt_text_or_spec(cfg, "style"@, "consistent"@);
    PipeSt {
        style: s,
        leading: s != "no_leading_or_trailing"@ && s != "trailing_only"@,
        trailing: s != "no_leading_or_trailing"@ && s != "leading_only"@,
    }
}

/// The expectation the `c`-th row is held against: the setting; while it
/// is `consistent`, the first row with cells sets it.
pub open spec fn pipe_expected(tokens: Seq<Token>, cfg: Seq<(Vec<char>, OptValue)>, c: int) -> PipeSt
    decreases c + 1,
{
    let before = if c <= 0 {
        pipe_setting(cfg)
    } else {
        pipe_expected(tokens, cfg, c - 1)
    };
    if row_cells(tokens, c).len() > 0 && before.style == "consistent"@ {
        let l = row_leading(tokens, c);
        let t = row_trailing(tokens, c);
        PipeSt { style: pipe_style(l, t), leading: l, trailing: t }
    } else {
        before
    }
}

/// `(start, end - start + 1)`, or an empty range when `end < start`.
pub open spec fn spec_make_range(start: int, end: int) -> (usize, usize) {
    if end >= start && end - start < usize::MAX {
        (start as usize, (end - start + 1) as usize)
    } else {
        (start as usize, 0)
    }
}

/// Whether position `q` is reported: `2c` for the leading pipe of the
/// `c`-th row, `2c + 1` for its trailing pipe.
pub open spec fn pipe_reports(tokens: Seq<Token>, cfg: Seq<(Vec<char>, OptValue)>, n: int, q: int) -> bool {
    let c = q / 2;
    let cells = row_cells(tokens, c);
    let ex = pipe_expected(tokens, cfg, c);
    let l = row_leading(tokens, c);
    let t = row_trailing(tokens, c);
    &&& cells.len() > 0
    &&& ex.style != pipe_style(l, t)
    &&& if q % 2 == 0 {
        l != ex.leading && 1 <= tokens[cells[0] as int].start_line <= n
    } else {
        t != ex.trailing && 1 <= tokens[cells.last() as int].end_line <= n
    }
}

/// The problem at position `q`: expected and actual style, with the pipe
/// missing or unexpected as detail.
pub open spec fn pipe_error(e: RuleError, tokens: Seq<Token>, cfg: Seq<(Vec<char>, OptValue)>, q: int) -> bool {
    let c = q / 2;
    let cells = row_cells(tokens, c);
    let ex = pipe_expected(tokens, cfg, c);
    let actual = pipe_style(row_leading(tokens, c), row_trailing(tokens, c));
    let rt = tokens[row_ids(tokens)[c] as int];
    if q % 2 == 0 {
        let fc = tokens[cells[0] as int];
        let d = (if ex.leading { "Missing"@ } else { "Unexpected"@ }) + " leading pipe"@;
        error_is(
            e,
            fc.start_line,
            Some(detail_text(ex.style, actual, Some(d))),
            None,
            Some(spec_make_range(rt.start_column as int, fc.start_column as int)),
            None,
        )
    } else {
        let lc = tokens[cells.last() as int];
        let d = (if ex.trailing { "Missing"@ } else { "Unexpected"@ }) + " trailing pipe"@;
        let a = if lc.end_column > 0 { lc.end_column - 1 } else { 0 };
        let b = if rt.end_column > 0 { rt.end_column - 1 } else { 0 };
        error_is(e, lc.end_line, Some(detail_text(ex.style, actual, Some(d))), None, Some(spec_make_range(a, b)), None)
    }
}

pub open spec fn pipe_f(tokens: Seq<Token>, cfg: Seq<(Vec<char>, OptValue)>, n: int) -> spec_fn(int) -> bool {
    |q: int| pipe_reports(tokens, cfg, n, q)
}

pub open spec fn pipe_e(tokens: Seq<Token>, cfg: Seq<(Vec<char>, OptValue)>) -> spec_fn(RuleError, int) -> bool {
    |e: RuleError, q: int| pipe_error(e, tokens, cfg, q)
}

/// Whether the first (`first`) or last child of `idx` that is neither a
/// line prefix nor whitespace is a cell divider `|`.
fn edge_is_divider(tree: &Tree, idx: usize, first: bool) -> (r: bool)
    requires
        tree.wf(),
        idx < tree.tokens@.len(),
    ensures
        r == edge_div(tree.tokens@, tree.tokens@[idx as int].children@, first, 0),
{
    let ch = &tree.tokens[idx].children;
    let len = ch.len();
    let mut k: usize = 0;
    while k < len
        invariant
            tree.wf(),
            idx < tree.tokens@.len(),
            ch@ == tree.tokens@[idx as int].children@,
            len == ch@.len(),
            k <= len,
            edge_div(tree.tokens@, ch@, first, k as int) == edge_div(tree.tokens@, ch@, first, 0),
        decreases len - k,
    {
        let j = if first {
            k
        } else {
            len - 1 - k
        };
        proof {
            tree.lemma_child(idx as int, j as int);
        }
        let t = tree.get(ch[j]);
        if t.kind != Kind::LinePrefix && t.kind != Kind::Whitespace {
            return t.kind == Kind::TableCellDivider;
        }
        k += 1;
    }
    false
}

/// `(start, end - start + 1)`, or an empty range when `end < start`.
fn make_range(start: usize, end: usize) -> (r: (usize, usize))
    ensures
        r == spec_make_range(start as int, end as int),
{
    if end >= start && end - start < usize::MAX {
        (start, end - start + 1)
    } else {
        (start, 0)
    }
}

/// What `md055` reports: the problems it appends to `old_errors`.
pub open spec fn md055_reported(p: &Params, old_errors: Seq<RuleError>, new_errors: Seq<RuleError>) -> bool {
    reported_as(
        old_errors,
        new_errors,
        picked(pipe_f(p.tree.tokens@, p.config.entries@, p.lines@.len() as int), 2 * row_ids(p.tree.tokens@).len() as int),
        pipe_e(p.tree.tokens@, p.config.entries@),
    )
}

/// Report table rows whose leading or trailing pipes differ from the
/// configured style (the first row's, for `consistent`).
pub fn md055(p: &Params, emit: &mut Emit)
    requires
        params_ok(p),
    ensures
        appended(old(emit).errors@, final(emit).errors@, p.lines@.len() as int),
        md055_reported(p, old(emit).errors@, final(emit).errors@),
{
    let style = opt_text_or(p.config, "style", "consistent");
    let mut expected_style = crate::text::slice_vec(&style, 0, style.len());
    let mut expected_leading = !is_text(&style, "no_leading_or_trailing") && !is_text(&style, "trailing_only");
    let mut expected_trailing = !is_text(&style, "no_leading_or_trailing") && !is_text(&style, "leading_only");
    let tree = p.tree;
    let n = p.lines.len();
    let kinds: [Kind; 2] = [Kind::TableDelimiterRow, Kind::TableRow];
    proof {
        assert(kinds@ =~= seq![Kind::TableDelimiterRow, Kind::TableRow]);
        assert(expected_style@ =~= style@);
    }
    let rows = tree.filter_idx(&kinds);
    let ghost tk = tree.tokens@;
    let ghost cfg = p.config.entries@;
    let ghost f = pipe_f(tk, cfg, n as int);
    let ghost err = pipe_e(tk, cfg);
    let ghost e0 = emit.errors@;
    proof {
        lemma_appended_refl(e0, n as int);
        lemma_reported_start(e0, f, err);
    }
    let mut c: usize = 0;
    while c < rows.len()
        invariant
            c <= rows@.len(),
            params_ok(p),
            tree == p.tree,
            tk == tree.tokens@,
            cfg == p.config.entries@,
            n == p.lines@.len(),
            rows@ == row_ids(tk),
            c == 0 ==> pipe_setting(cfg) == (PipeSt { style: expected_style@, leading: expected_leading, trailing: expected_trailing }),
            c > 0 ==> pipe_expected(tk, cfg, c - 1) == (PipeSt { style: expected_style@, leading: expected_leading, trailing: expected_trailing }),
            f == pipe_f(tk, cfg, n as int),
            err == pipe_e(tk, cfg),
            forall|k: int| 0 <= k < rows@.len() ==> #[trigger] rows@[k] < tree.tokens@.len(),
            appended(e0, emit.errors@, n as int),
            reported_as(e0, emit.errors@, picked(f, 2 * c), err),
        decreases rows@.len() - c,
    {
        let row = rows[c];
        let ghost mid = emit.errors@;
        let cells = &tree.tokens[row].children;
        proof {
            assert(cells@ == row_cells(tk, c as int));
            assert((2 * c) / 2 == c);
            assert((2 * c + 1) / 2 == c);
            assert((2 * c) % 2 == 0);
            assert((2 * c + 1) % 2 == 1);
        }
        if cells.len() == 0 {
            proof {
                lemma_reported_step(e0, mid, mid, f, err, 2 * c);
                lemma_reported_step(e0, mid, mid, f, err, 2 * c + 1);
            }
            c += 1;
            continue;
        }
        proof {
            tree.lemma_child(row as int, 0);
            tree.lemma_child(row as int, cells@.len() - 1);
        }
        let first_cell = cells[0];
        let last_cell = cells[cells.len() - 1];
        let actual_leading = edge_is_divider(tree, first_cell, true);
        let actual_trailing = edge_is_divider(tree, last_cell, false);
        let actual_style = if actual_leading {
            if actual_trailing {
                super::lit("leading_and_trailing")
            } else {
                super::lit("leading_only")
            }
        } else if actual_trailing {
            super::lit("trailing_only")
        } else {
            super::lit("no_leading_or_trailing")
        };
        if is_text(&expected_style, "consistent") {
            expected_style = crate::text::slice_vec(&actual_style, 0, actual_style.len());
            expected_leading = actual_leading;
            expected_trailing = actual_trailing;
            proof {
                assert(expected_style@ =~= actual_style@);
            }
        }
        proof {
            assert(pipe_expected(tk, cfg, c as int) == (PipeSt { style: expected_style@, leading: expected_leading, trailing: expected_trailing }));
            assert(actual_style@ == pipe_style(row_leading(tk, c as int), row_trailing(tk, c as int)));
        }
        let rt = tree.get(row);
        if actual_leading != expected_leading {
            let mut detail = if expected_leading {
                super::lit("Missing")
            } else {
                super::lit("Unexpected")
            };
            super::concat(&mut detail, &super::lit(" leading pipe"));
            let fc = tree.get(first_cell);
            emit.add_detail_if_checked(
                n,
                fc.start_line,
                &expected_style,
                &actual_style,
                Some(detail.as_slice()),
                None,
                Some(make_range(rt.start_column, fc.start_column)),
                None,
            );
        }
        proof {
            assert(f(2 * c) == pipe_reports(tk, cfg, n as int, 2 * c));
            if f(2 * c) {
                assert(err(emit.errors@.last(), 2 * c) == pipe_error(emit.errors@.last(), tk, cfg, 2 * c));
            }
            lemma_reported_step(e0, mid, emit.errors@, f, err, 2 * c);
        }
        let ghost mid2 = emit.errors@;
        if actual_trailing != expected_trailing {
            let mut detail = if expected_trailing {
                super::lit("Missing")
            } else {
                super::lit("Unexpected")
            };
            super::concat(&mut detail, &super::lit(" trailing pipe"));
            let lc = tree.get(last_cell);
            let a = if lc.end_column > 0 {
                lc.end_column - 1
            } else {
                0
            };
            let b = if rt.end_column > 0 {
                rt.end_column - 1
            } else {
                0
            };
            emit.add_detail_if_checked(
                n,
                lc.end_line,
                &expected_style,
                &actual_style,
                Some(detail.as_slice()),
                None,
                Some(make_range(a, b)),
                None,
            );
        }
        proof {
            assert(f(2 * c + 1) == pipe_reports(tk, cfg, n as int, 2 * c + 1));
            if f(2 * c + 1) {
                assert(err(emit.errors@.last(), 2 * c + 1) == pipe_error(emit.errors@.last(), tk, cfg, 2 * c + 1));
            }
            lemma_reported_step(e0, mid2, emit.errors@, f, err, 2 * c + 1);
        }
        c += 1;
    }
}

} // verus!
