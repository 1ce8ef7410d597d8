//! MD038 — no-space-in-code.

use vstd::prelude::*;

use crate::md::kind::Kind;
use crate::md::tokens::{Token, filter_idx_upto, walk_path};
use crate::re::{re_captures, regex_captures, span_view};
use super::helpers::spec_ellipsify;
use super::{
    Emit, FixInfo, Params, RuleError, appended, error_is, is_delete, lemma_appended_refl,
    lemma_reported_start, lemma_reported_step, params_ok, picked, reported_as,
};

verus! {

/// The length of a capture group (0 when it did not take part).
pub open spec fn grp_len(g: Option<(int, int)>) -> int {
    match g {
        Some((a, b)) => b - a,
        None => 0,
    }
}

/// Whether a capture group is the single character `c`.
pub open spec fn grp_is(text: Seq<char>, g: Option<(int, int)>, c: char) -> bool {
    match g {
        Some((a, b)) => b - a == 1 && text[a] == c,
        None => false,
    }
}

/// The leading whitespace of a code span's first text, and whether a
/// backtick follows it.
pub open spec fn lead_ws(text: Seq<char>) -> (int, bool) {
    match regex_captures("^(\\s+)(\\S)"@, text) {
        Some(g) => if g.len() >= 3 {
            (grp_len(g[1]), grp_is(text, g[2], '`'))
        } else {
            (0, false)
        },
        None => (0, false),
    }
}

/// The trailing whitespace of a code span's last text, and whether a
/// backtick precedes it.
pub open spec fn trail_ws(text: Seq<char>) -> (int, bool) {
    match regex_captures("(\\S)(\\s+)$"@, text) {
        Some(g) => if g.len() >= 3 {
            (grp_len(g[2]), grp_is(text, g[1], '`'))
        } else {
            (0, false)
        },
        None => (0, false),
    }
}

/// Whitespace beyond the one space of padding next to a backtick.
pub open spec fn excess(w: (int, bool)) -> int {
    if w.1 {
        if w.0 > 0 {
            w.0 - 1
        } else {
            0
        }
    } else {
        w.0
    }
}

/// The code texts.
pub open spec fn code_text_ids(tokens: Seq<Token>) -> Seq<usize> {
    filter_idx_upto(tokens, seq![Kind::CodeText], tokens.len() as int)
}

/// The data tokens of the `c`-th code text.
pub open spec fn code_datas(tokens: Seq<Token>, c: int) -> Seq<usize> {
    walk_path(tokens, seq![code_text_ids(tokens)[c]], seq![seq![Kind::CodeTextData]], 1)
}

/// Whether position `q` is reported: `2c` for the start of the `c`-th
/// code text, `2c + 1` for its end.
pub open spec fn md038_reports(tokens: Seq<Token>, n: int, q: int) -> bool {
    let c = q / 2;
    let ds = code_datas(tokens, c);
    if ds.len() == 0 {
        false
    } else if q % 2 == 0 {
        let sd = tokens[ds[0] as int];
        excess(lead_ws(sd.text@)) > 0 && 1 <= sd.start_line <= n
    } else {
        let ed = tokens[ds.last() as int];
        let cnt = excess(trail_ws(ed.text@));
        cnt > 0 && ed.end_column >= cnt && 1 <= ed.end_line <= n
    }
}

/// The problem reported at position `q`: the excess whitespace as range,
/// deleted by the fix, and the code span as context.
pub open spec fn md038_error(e: RuleError, tokens: Seq<Token>, q: int) -> bool {
    let c = q / 2;
    let ds = code_datas(tokens, c);
    let ctx = tokens[code_text_ids(tokens)[c] as int].text@;
    if q % 2 == 0 {
        let sd = tokens[ds[0] as int];
        let cnt = excess(lead_ws(sd.text@));
        &&& error_is(e, sd.start_line, None, Some(spec_ellipsify(ctx, true, false)), Some((sd.start_column, cnt as usize)), e.fix_info)
        &&& is_delete(e.fix_info, sd.start_column as int, cnt)
    } else {
        let ed = tokens[ds.last() as int];
        let cnt = excess(trail_ws(ed.text@));
        let col = ed.end_column - cnt;
        &&& error_is(e, ed.end_line, None, Some(spec_ellipsify(ctx, false, true)), Some((col as usize, cnt as usize)), e.fix_info)
        &&& is_delete(e.fix_info, col, cnt)
    }
}

pub open spec fn md038_f(tokens: Seq<Token>, n: int) -> spec_fn(int) -> bool {
    |q: int| md038_reports(tokens, n, q)
}

pub open spec fn md038_e(tokens: Seq<Token>) -> spec_fn(RuleError, int) -> bool {
    |e: RuleError, q: int| md038_error(e, tokens, q)
}

/// Length of a capture group, and whether it is the single character `c`.
fn group_info(text: &[char], g: Option<(usize, usize)>, c: char) -> (r: (usize, bool))
    requires
        g matches Some((a, b)) ==> a <= b <= text@.len(),
    ensures
        r.0 == grp_len(span_view(g)),
        r.1 == grp_is(text@, span_view(g), c),
{
    match g {
        Some((a, b)) => (b - a, b - a == 1 && text[a] == c),
        None => (0, false),
    }
}

/// What `md038` reports: the problems it appends to `old_errors`.
pub open spec fn md038_reported(p: &Params, old_errors: Seq<RuleError>, new_errors: Seq<RuleError>) -> bool {
    reported_as(
        old_errors,
        new_errors,
        picked(md038_f(p.tree.tokens@, p.lines@.len() as int), 2 * code_text_ids(p.tree.tokens@).len() as int),
        md038_e(p.tree.tokens@),
    )
}

/// Report spaces inside a code span's backticks (beyond the single space
/// of padding next to a backtick); the fix deletes them.
pub fn md038(p: &Params, emit: &mut Emit)
    requires
        params_ok(p),
    ensures
        appended(old(emit).errors@, final(emit).errors@, p.lines@.len() as int),
        md038_reported(p, old(emit).errors@, final(emit).errors@),
{
    let tree = p.tree;
    let n = p.lines.len();
    let kinds: [Kind; 1] = [Kind::CodeText];
    let dkinds: [Kind; 1] = [Kind::CodeTextData];
    let path: [&[Kind]; 1] = [&dkinds];
    proof {
        assert(kinds@ =~= seq![Kind::CodeText]);
        assert(dkinds@ =~= seq![Kind::CodeTextData]);
        assert(crate::md::tokens::kind_path(path@) =~= seq![seq![Kind::CodeTextData]]);
    }
    let cts = tree.filter_idx(&kinds);
    let ghost toks = tree.tokens@;
    let ghost f = md038_f(toks, n as int);
    let ghost err = md038_e(toks);
    let ghost e0 = emit.errors@;
    proof {
        lemma_appended_refl(e0, n as int);
        lemma_reported_start(e0, f, err);
    }
    let mut c: usize = 0;
    while c < cts.len()
        invariant
            c <= cts@.len(),
            params_ok(p),
            tree == p.tree,
            toks == tree.tokens@,
            n == p.lines@.len(),
            cts@ == code_text_ids(toks),
            path@.len() == 1,
            crate::md::tokens::kind_path(path@) == seq![seq![Kind::CodeTextData]],
            f == md038_f(toks, n as int),
            err == md038_e(toks),
            forall|k: int| 0 <= k < cts@.len() ==> #[trigger] cts@[k] < tree.tokens@.len(),
            appended(e0, emit.errors@, n as int),
            reported_as(e0, emit.errors@, picked(f, 2 * c), err),
        decreases cts@.len() - c,
    {
        let ct = cts[c];
        let ghost mid = emit.errors@;
        let datas = tree.descendants_by_type(ct, &path);
        proof {
            assert(datas@ == code_datas(toks, c as int));
            assert((2 * c) / 2 == c);
            assert((2 * c + 1) / 2 == c);
            assert((2 * c) % 2 == 0);
            assert((2 * c + 1) % 2 == 1);
        }
        if datas.len() == 0 {
            proof {
                lemma_reported_step(e0, mid, mid, f, err, 2 * c);
                lemma_reported_step(e0, mid, mid, f, err, 2 * c + 1);
            }
            c += 1;
            continue;
        }
        let start_data = tree.get(datas[0]);
        let end_data = tree.get(datas[datas.len() - 1]);
        let context = &tree.get(ct).text;
        let (start_ws, start_backtick) = match re_captures("^(\\s+)(\\S)", &start_data.text) {
            Some(g) => if g.len() >= 3 {
                proof {
                    assert(crate::re::groups_in(g@, start_data.text@.len() as int));
                    assert(g@[1] == g[1]);
                    assert(g@[2] == g[2]);
                    assert(crate::re::groups_view(g@)[1] == span_view(g@[1]));
                    assert(crate::re::groups_view(g@)[2] == span_view(g@[2]));
                }
                let (l1, _) = group_info(&start_data.text, g[1], '`');
                let (_, bt) = group_info(&start_data.text, g[2], '`');
                (l1, bt)
            } else {
                (0, false)
            },
            None => (0, false),
        };
        proof {
            assert((start_ws as int, start_backtick) == lead_ws(start_data.text@));
        }
        let start_count = if start_backtick {
            if start_ws > 0 {
                start_ws - 1
            } else {
                0
            }
        } else {
            start_ws
        };
        let (end_ws, end_backtick) = match re_captures("(\\S)(\\s+)$", &end_data.text) {
            Some(g) => if g.len() >= 3 {
                proof {
                    assert(crate::re::groups_in(g@, end_data.text@.len() as int));
                    assert(g@[1] == g[1]);
                    assert(g@[2] == g[2]);
                    assert(crate::re::groups_view(g@)[1] == span_view(g@[1]));
                    assert(crate::re::groups_view(g@)[2] == span_view(g@[2]));
                }
                let (_, bt) = group_info(&end_data.text, g[1], '`');
                let (l2, _) = group_info(&end_data.text, g[2], '`');
                (l2, bt)
            } else {
                (0, false)
            },
            None => (0, false),
        };
        proof {
            assert((end_ws as int, end_backtick) == trail_ws(end_data.text@));
        }
        let end_count = if end_backtick {
            if end_ws > 0 {
                end_ws - 1
            } else {
                0
            }
        } else {
            end_ws
        };
        if start_count > 0 {
            let col = start_data.start_column;
            emit.add_context_checked(
                n,
                start_data.start_line,
                context,
                true,
                false,
                Some((col, start_count)),
                Some(FixInfo::delete(col, start_count as i64)),
            );
        }
        proof {
            assert(f(2 * c) == md038_reports(toks, n as int, 2 * c));
            if f(2 * c) {
                assert(err(emit.errors@.last(), 2 * c) == md038_error(emit.errors@.last(), toks, 2 * c));
            }
            lemma_reported_step(e0, mid, emit.errors@, f, err, 2 * c);
        }
        let ghost mid2 = emit.errors@;
        if end_count > 0 && end_data.end_column >= end_count {
            let col = end_data.end_column - end_count;
            emit.add_context_checked(
                n,
                end_data.end_line,
                context,
                false,
                true,
                Some((col, end_count)),
                Some(FixInfo::delete(col, end_count as i64)),
            );
        }
        proof {
            assert(f(2 * c + 1) == md038_reports(toks, n as int, 2 * c + 1));
            if f(2 * c + 1) {
                assert(err(emit.errors@.last(), 2 * c + 1) == md038_error(emit.errors@.last(), toks, 2 * c + 1));
            }
            lemma_reported_step(e0, mid2, emit.errors@, f, err, 2 * c + 1);
        }
        c += 1;
    }
}

} // verus!
