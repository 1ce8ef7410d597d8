//! MD023 — heading-start-left: headings must start at the beginning of the
//! line.

use vstd::prelude::*;

use crate::md::kind::Kind;
use crate::md::tokens::{Token, filter_idx_upto};
use super::helpers::spec_ellipsify;
use super::{
    Emit, FixInfo, Params, RuleError, appended, error_is, lemma_appended_refl, lemma_appended_step,
    params_ok,
};

verus! {

/// Headings and line prefixes, in document order.
pub open spec fn md023_ids(tokens: Seq<Token>) -> Seq<usize> {
    filter_idx_upto(tokens, seq![Kind::AtxHeading, Kind::LinePrefix, Kind::SetextHeading], tokens.len() as int)
}

/// Whether the `i`-th of them is reported: a line prefix directly followed
/// by a heading on the same line, within the document.
pub open spec fn md023_reports(tokens: Seq<Token>, n: int, i: int) -> bool {
    let ids = md023_ids(tokens);
    let a = tokens[ids[i] as int];
    let b = tokens[ids[i + 1] as int];
    &&& i + 1 < ids.len()
    &&& a.kind == Kind::LinePrefix
    &&& b.kind != Kind::LinePrefix
    &&& a.start_line == b.start_line
    &&& a.end_column >= a.start_column
    &&& 1 <= a.start_line <= n
}

/// The positions of the first `i` reported.
pub open spec fn md023_list(tokens: Seq<Token>, n: int, i: int) -> Seq<int>
    decreases i,
{
    if i <= 0 {
        Seq::empty()
    } else {
        let prev = md023_list(tokens, n, i - 1);
        if md023_reports(tokens, n, i - 1) {
            prev.push(i - 1)
        } else {
            prev
        }
    }
}

/// The problem reported for the `i`-th: the line as context, the prefix as
/// range, and a fix that deletes it.
pub open spec fn md023_error(e: RuleError, lines: Seq<Vec<char>>, tokens: Seq<Token>, i: int) -> bool {
    let a = tokens[md023_ids(tokens)[i] as int];
    let length = a.end_column - a.start_column;
    error_is(
        e,
        a.start_line,
        None,
        Some(spec_ellipsify(lines[a.start_line - 1]@, true, false)),
        Some((a.start_column, length as usize)),
        Some(
            FixInfo {
                line_number: None,
                edit_column: Some(a.start_column),
                delete_count: Some(length as i64),
                insert_text: None,
            },
        ),
    )
}

/// What `md023` reports: the problems it appends to `old_errors`.
pub open spec fn md023_reported(p: &Params, old_errors: Seq<RuleError>, new_errors: Seq<RuleError>) -> bool {
    ({
        let toks = p.tree.tokens@;
        let ids = md023_ids(toks);
        let reported = md023_list(toks, p.lines@.len() as int, if ids.len() > 0 { ids.len() - 1 } else { 0 });
        let base = old_errors.len();
        &&& new_errors.len() == base + reported.len()
        &&& forall|j: int|
            0 <= j < reported.len() ==> md023_error(#[trigger] new_errors[base + j], p.lines@, toks, reported[j])
    })
}

/// Report a `linePrefix` directly followed (in document order) by a
/// heading on the same line; the fix deletes the indentation.
pub fn md023(p: &Params, emit: &mut Emit)
    requires
        params_ok(p),
    ensures
        appended(old(emit).errors@, final(emit).errors@, p.lines@.len() as int),
        md023_reported(p, old(emit).errors@, final(emit).errors@),
{
    let tree = p.tree;
    let n = p.lines.len();
    let kinds: [Kind; 3] = [Kind::AtxHeading, Kind::LinePrefix, Kind::SetextHeading];
    proof {
        assert(kinds@ =~= seq![Kind::AtxHeading, Kind::LinePrefix, Kind::SetextHeading]);
    }
    let hs = tree.filter_idx(&kinds);
    let ghost toks = tree.tokens@;
    let ghost lines = p.lines@;
    let ghost e0 = emit.errors@;
    proof {
        lemma_appended_refl(e0, n as int);
    }
    let mut i: usize = 0;
    while hs.len() > 0 && i < hs.len() - 1
        invariant
            n == p.lines@.len(),
            lines == p.lines@,
            params_ok(p),
            tree == p.tree,
            toks == tree.tokens@,
            hs@ == md023_ids(toks),
            hs.len() > 0 ==> i <= hs.len() - 1,
            hs.len() == 0 ==> i == 0,
            forall|k: int| 0 <= k < hs@.len() ==> #[trigger] hs@[k] < tree.tokens@.len(),
            appended(e0, emit.errors@, n as int),
            emit.errors@.len() == e0.len() + md023_list(toks, n as int, i as int).len(),
            forall|j: int|
                0 <= j < md023_list(toks, n as int, i as int).len() ==> md023_error(
                    #[trigger] emit.errors@[e0.len() + j],
                    lines,
                    toks,
                    md023_list(toks, n as int, i as int)[j],
                ),
        decreases hs@.len() - i,
    {
        let a = tree.get(hs[i]);
        let b = tree.get(hs[i + 1]);
        let ghost prev = md023_list(toks, n as int, i as int);
        let ghost mid = emit.errors@;
        if a.kind == Kind::LinePrefix && b.kind != Kind::LinePrefix && a.start_line == b.start_line
            && a.end_column >= a.start_column && a.start_line >= 1 && a.start_line <= n {
            let length = a.end_column - a.start_column;
            emit.add_context(
                a.start_line,
                &p.lines[a.start_line - 1],
                true,
                false,
                Some((a.start_column, length)),
                Some(FixInfo::delete(a.start_column, length as i64)),
            );
            proof {
                lemma_appended_step(e0, mid, emit.errors@, n as int, a.start_line);
            }
        }
        proof {
            let cur = md023_list(toks, n as int, i + 1);
            if md023_reports(toks, n as int, i as int) {
                assert(cur == prev.push(i as int));
                assert forall|j: int| 0 <= j < cur.len() implies md023_error(
                    #[trigger] emit.errors@[e0.len() + j],
                    lines,
                    toks,
                    cur[j],
                ) by {
                    if j < prev.len() {
                        assert(emit.errors@[e0.len() + j] == mid[e0.len() + j]);
                    }
                }
            } else {
                assert(cur == prev);
                assert(emit.errors@ == mid);
            }
        }
        i += 1;
    }
}

} // verus!
