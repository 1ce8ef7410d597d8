//! MD035 — hr-style.

use vstd::prelude::*;

use crate::md::kind::Kind;
use crate::md::tokens::{Token, filter_idx_upto};
use super::helpers::{spec_trim, trim};
use super::md003::{is_text, opt_text_or, opt_text_or_spec};
use super::options::OptValue;
use super::{Emit, Params, RuleError, appended, detail_text, error_is, lemma_appended_refl, params_ok};

verus! {

/// The thematic breaks, in document order.
pub open spec fn break_ids(tokens: Seq<Token>) -> Seq<usize> {
    filter_idx_upto(tokens, seq![Kind::ThematicBreak], tokens.len() as int)
}

/// The style the `c`-th break is held against: the configured `style`
/// (trimmed); while that is `consistent`, each break's own text becomes
/// the style (in practice the first break's).
pub open spec fn md035_style(tokens: Seq<Token>, cfg: Seq<(Vec<char>, OptValue)>, c: int) -> Seq<char>
    decreases c + 1,
{
    let before = if c <= 0 {
        spec_trim(opt_text_or_spec(cfg, "style"@, "consistent"@))
    } else {
        md035_style(tokens, cfg, c - 1)
    };
    if before == "consistent"@ {
        tokens[break_ids(tokens)[c] as int].text@
    } else {
        before
    }
}

/// Whether the `c`-th break is reported: its text differs from the style,
/// and it is on a line of the document.
pub open spec fn md035_reports(tokens: Seq<Token>, cfg: Seq<(Vec<char>, OptValue)>, n: int, c: int) -> bool {
    let t = tokens[break_ids(tokens)[c] as int];
    md035_style(tokens, cfg, c) != t.text@ && 1 <= t.start_line <= n
}

/// The positions (among the breaks) of the first `c` breaks reported.
pub open spec fn md035_list(tokens: Seq<Token>, cfg: Seq<(Vec<char>, OptValue)>, n: int, c: int) -> Seq<int>
    decreases c,
{
    if c <= 0 {
        Seq::empty()
    } else {
        let prev = md035_list(tokens, cfg, n, c - 1);
        if md035_reports(tokens, cfg, n, c - 1) {
            prev.push(c - 1)
        } else {
            prev
        }
    }
}

/// The problem reported for the `c`-th break: the style against its text.
pub open spec fn md035_error(e: RuleError, tokens: Seq<Token>, cfg: Seq<(Vec<char>, OptValue)>, c: int) -> bool {
    let t = tokens[break_ids(tokens)[c] as int];
    error_is(e, t.start_line, Some(detail_text(md035_style(tokens, cfg, c), t.text@, None)), None, None, None)
}

/// What `md035` reports: the problems it appends to `old_errors`.
pub open spec fn md035_reported(p: &Params, old_errors: Seq<RuleError>, new_errors: Seq<RuleError>) -> bool {
    ({
        let toks = p.tree.tokens@;
        let reported = md035_list(toks, p.config.entries@, p.lines@.len() as int, break_ids(toks).len() as int);
        let base = old_errors.len();
        &&& new_errors.len() == base + reported.len()
        &&& forall|j: int|
            0 <= j < reported.len() ==> md035_error(
                #[trigger] new_errors[base + j],
                toks,
                p.config.entries@,
                reported[j],
            )
    })
}

/// Report thematic breaks written otherwise than the configured style (or
/// than the first one, for `consistent`).
pub fn md035(p: &Params, emit: &mut Emit)
    requires
        params_ok(p),
    ensures
        appended(old(emit).errors@, final(emit).errors@, p.lines@.len() as int),
        md035_reported(p, old(emit).errors@, final(emit).errors@),
{
    let raw = opt_text_or(p.config, "style", "consistent");
    let mut style = trim(&raw);
    let tree = p.tree;
    let n = p.lines.len();
    let kinds: [Kind; 1] = [Kind::ThematicBreak];
    proof {
        assert(kinds@ =~= seq![Kind::ThematicBreak]);
    }
    let ts = tree.filter_idx(&kinds);
    let ghost toks = tree.tokens@;
    let ghost cfg = p.config.entries@;
    let ghost configured = style@;
    let ghost e0 = emit.errors@;
    proof {
        lemma_appended_refl(e0, n as int);
        reveal_strlit("consistent");
    }
    let mut c: usize = 0;
    while c < ts.len()
        invariant
            c <= ts@.len(),
            params_ok(p),
            tree == p.tree,
            toks == tree.tokens@,
            cfg == p.config.entries@,
            ts@ == break_ids(toks),
            n == p.lines@.len(),
            configured == spec_trim(opt_text_or_spec(cfg, "style"@, "consistent"@)),
            c == 0 ==> style@ == configured,
            c > 0 ==> style@ == md035_style(toks, cfg, c - 1),
            forall|k: int| 0 <= k < ts@.len() ==> #[trigger] ts@[k] < tree.tokens@.len(),
            appended(e0, emit.errors@, n as int),
            emit.errors@.len() == e0.len() + md035_list(toks, cfg, n as int, c as int).len(),
            forall|j: int|
                0 <= j < md035_list(toks, cfg, n as int, c as int).len() ==> md035_error(
                    #[trigger] emit.errors@[e0.len() + j],
                    toks,
                    cfg,
                    md035_list(toks, cfg, n as int, c as int)[j],
                ),
        decreases ts@.len() - c,
    {
        let tok = tree.get(ts[c]);
        if is_text(&style, "consistent") {
            style = crate::text::slice_vec(&tok.text, 0, tok.text.len());
        }
        proof {
            assert(style@ == md035_style(toks, cfg, c as int));
        }
        let ghost prev = md035_list(toks, cfg, n as int, c as int);
        let ghost mid = emit.errors@;
        emit.add_detail_if_checked(n, tok.start_line, &style, &tok.text, None, None, None, None);
        proof {
            let cur = md035_list(toks, cfg, n as int, c + 1);
            if md035_reports(toks, cfg, n as int, c as int) {
                assert(cur == prev.push(c as int));
                assert forall|j: int| 0 <= j < cur.len() implies md035_error(
                    #[trigger] emit.errors@[e0.len() + j],
                    toks,
                    cfg,
                    cur[j],
                ) by {
                    if j < prev.len() {
                        assert(emit.errors@[e0.len() + j] == mid[e0.len() + j]);
                    }
                }
            } else {
                assert(cur == prev);
                assert(emit.errors@ == mid);
            }
            assert(appended(e0, emit.errors@, n as int));
        }
        c += 1;
    }
}

} // verus!
