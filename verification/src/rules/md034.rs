//! MD034 — no-bare-urls.

use vstd::prelude::*;

use crate::md::kind::Kind;
use crate::md::tokens::{Token, filter_idx_upto};
use super::helpers::spec_ellipsify;
use super::{Emit, FixInfo, Params, RuleError, appended, fix_is, lemma_appended_refl, opt_seq, params_ok};

verus! {

/// The literal autolinks (bare URLs and emails), in document order.
pub open spec fn bare_url_ids(tokens: Seq<Token>) -> Seq<usize> {
    filter_idx_upto(tokens, seq![Kind::LiteralAutolink], tokens.len() as int)
}

/// Whether the `c`-th is reported: its columns are in order and its line
/// is a line of the document.
pub open spec fn md034_reports(tokens: Seq<Token>, n: int, c: int) -> bool {
    let t = tokens[bare_url_ids(tokens)[c] as int];
    t.end_column >= t.start_column && 1 <= t.start_line <= n
}

/// The positions of the first `c` reported.
pub open spec fn md034_list(tokens: Seq<Token>, n: int, c: int) -> Seq<int>
    decreases c,
{
    if c <= 0 {
        Seq::empty()
    } else {
        let prev = md034_list(tokens, n, c - 1);
        if md034_reports(tokens, n, c - 1) {
            prev.push(c - 1)
        } else {
            prev
        }
    }
}

/// The problem reported for the `c`-th: the URL as context and range, and
/// a fix that encloses it in `<` `>`.
pub open spec fn md034_error(e: RuleError, tokens: Seq<Token>, c: int) -> bool {
    let t = tokens[bare_url_ids(tokens)[c] as int];
    let len = t.end_column - t.start_column;
    &&& e.line_number == t.start_line
    &&& e.detail is None
    &&& opt_seq(e.context) == Some(spec_ellipsify(t.text@, false, false))
    &&& e.range == Some((t.start_column, len as usize))
    &&& fix_is(e.fix_info, None, Some(t.start_column), Some(len as i64), Some("<"@ + t.text@ + ">"@))
}

/// What `md034` reports: the problems it appends to `old_errors`.
pub open spec fn md034_reported(p: &Params, old_errors: Seq<RuleError>, new_errors: Seq<RuleError>) -> bool {
    ({
        let toks = p.tree.tokens@;
        let reported = md034_list(toks, p.lines@.len() as int, bare_url_ids(toks).len() as int);
        let base = old_errors.len();
        &&& new_errors.len() == base + reported.len()
        &&& forall|j: int|
            0 <= j < reported.len() ==> md034_error(#[trigger] new_errors[base + j], toks, reported[j])
    })
}

/// Report bare URLs and email addresses (literal autolinks); the fix
/// encloses them in `<` `>`.
pub fn md034(p: &Params, emit: &mut Emit)
    requires
        params_ok(p),
    ensures
        appended(old(emit).errors@, final(emit).errors@, p.lines@.len() as int),
        md034_reported(p, old(emit).errors@, final(emit).errors@),
{
    let tree = p.tree;
    let n = p.lines.len();
    let kinds: [Kind; 1] = [Kind::LiteralAutolink];
    proof {
        assert(kinds@ =~= seq![Kind::LiteralAutolink]);
        reveal_strlit("<");
        reveal_strlit(">");
    }
    let ts = tree.filter_idx(&kinds);
    let ghost toks = tree.tokens@;
    let ghost e0 = emit.errors@;
    proof {
        lemma_appended_refl(e0, n as int);
    }
    let mut c: usize = 0;
    while c < ts.len()
        invariant
            c <= ts@.len(),
            params_ok(p),
            tree == p.tree,
            toks == tree.tokens@,
            ts@ == bare_url_ids(toks),
            n == p.lines@.len(),
            forall|k: int| 0 <= k < ts@.len() ==> #[trigger] ts@[k] < tree.tokens@.len(),
            appended(e0, emit.errors@, n as int),
            emit.errors@.len() == e0.len() + md034_list(toks, n as int, c as int).len(),
            forall|j: int|
                0 <= j < md034_list(toks, n as int, c as int).len() ==> md034_error(
                    #[trigger] emit.errors@[e0.len() + j],
                    toks,
                    md034_list(toks, n as int, c as int)[j],
                ),
        decreases ts@.len() - c,
    {
        let tok = tree.get(ts[c]);
        let ghost prev = md034_list(toks, n as int, c as int);
        let ghost mid = emit.errors@;
        if tok.end_column >= tok.start_column {
            let len = tok.end_column - tok.start_column;
            let mut ins = super::lit("<");
            super::concat(&mut ins, &tok.text);
            super::concat(&mut ins, &super::lit(">"));
            emit.add_context_checked(
                n,
                tok.start_line,
                &tok.text,
                false,
                false,
                Some((tok.start_column, len)),
                Some(
                    FixInfo {
                        line_number: None,
                        edit_column: Some(tok.start_column),
                        delete_count: Some(len as i64),
                        insert_text: Some(ins),
                    },
                ),
            );
        }
        proof {
            let cur = md034_list(toks, n as int, c + 1);
            if md034_reports(toks, n as int, c as int) {
                assert(cur == prev.push(c as int));
                assert forall|j: int| 0 <= j < cur.len() implies md034_error(
                    #[trigger] emit.errors@[e0.len() + j],
                    toks,
                    cur[j],
                ) by {
                    if j < prev.len() {
                        assert(emit.errors@[e0.len() + j] == mid[e0.len() + j]);
                    }
                }
            } else {
                assert(cur == prev);
                assert(emit.errors@ == mid);
            }
            assert(appended(e0, emit.errors@, n as int));
        }
        c += 1;
    }
}

} // verus!
