//! MD046 — code-block-style.

use vstd::prelude::*;

use crate::md::kind::Kind;
use crate::md::tokens::{Token, filter_idx_upto};
use super::md003::{is_text, opt_text_or, opt_text_or_spec};
use super::options::OptValue;
use super::{Emit, Params, RuleError, appended, detail_text, error_is, lemma_appended_refl, params_ok};

verus! {

/// The code blocks, in document order.
pub open spec fn code_block_ids(tokens: Seq<Token>) -> Seq<usize> {
    filter_idx_upto(tokens, seq![Kind::CodeFenced, Kind::CodeIndented], tokens.len() as int)
}

/// The style of the `c`-th code block: `fenced` or `indented`.
pub open spec fn block_style(tokens: Seq<Token>, c: int) -> Seq<char> {
    if tokens[code_block_ids(tokens)[c] as int].kind == Kind::CodeFenced {
        "fenced"@
    } else {
        "indented"@
    }
}

/// The style the `c`-th block is held against: the configured `style`;
/// while that is `consistent`, each block's own style becomes it (in
/// practice the first block's).
pub open spec fn md046_expected(tokens: Seq<Token>, cfg: Seq<(Vec<char>, OptValue)>, c: int) -> Seq<char>
    decreases c + 1,
{
    let before = if c <= 0 {
        opt_text_or_spec(cfg, "style"@, "consistent"@)
    } else {
        md046_expected(tokens, cfg, c - 1)
    };
    if before == "consistent"@ {
        block_style(tokens, c)
    } else {
        before
    }
}

/// Whether the `c`-th block is reported.
pub open spec fn md046_reports(tokens: Seq<Token>, cfg: Seq<(Vec<char>, OptValue)>, n: int, c: int) -> bool {
    let t = tokens[code_block_ids(tokens)[c] as int];
    md046_expected(tokens, cfg, c) != block_style(tokens, c) && 1 <= t.start_line <= n
}

/// The positions (among the code blocks) of the first `c` reported.
pub open spec fn md046_list(tokens: Seq<Token>, cfg: Seq<(Vec<char>, OptValue)>, n: int, c: int) -> Seq<int>
    decreases c,
{
    if c <= 0 {
        Seq::empty()
    } else {
        let prev = md046_list(tokens, cfg, n, c - 1);
        if md046_reports(tokens, cfg, n, c - 1) {
            prev.push(c - 1)
        } else {
            prev
        }
    }
}

/// The problem reported for the `c`-th block.
pub open spec fn md046_error(e: RuleError, tokens: Seq<Token>, cfg: Seq<(Vec<char>, OptValue)>, c: int) -> bool {
    let t = tokens[code_block_ids(tokens)[c] as int];
    error_is(
        e,
        t.start_line,
        Some(detail_text(md046_expected(tokens, cfg, c), block_style(tokens, c), None)),
        None,
        None,
        None,
    )
}

/// What `md046` reports: the problems it appends to `old_errors`.
pub open spec fn md046_reported(p: &Params, old_errors: Seq<RuleError>, new_errors: Seq<RuleError>) -> bool {
    ({
        let toks = p.tree.tokens@;
        let reported = md046_list(toks, p.config.entries@, p.lines@.len() as int, code_block_ids(toks).len() as int);
        let base = old_errors.len();
        &&& new_errors.len() == base + reported.len()
        &&& forall|j: int|
            0 <= j < reported.len() ==> md046_error(
                #[trigger] new_errors[base + j],
                toks,
                p.config.entries@,
                reported[j],
            )
    })
}

/// Report code blocks of the other style than the configured one (or than
/// the first block's, for `consistent`): `fenced` or `indented`.
pub fn md046(p: &Params, emit: &mut Emit)
    requires
        params_ok(p),
    ensures
        appended(old(emit).errors@, final(emit).errors@, p.lines@.len() as int),
        md046_reported(p, old(emit).errors@, final(emit).errors@),
{
    let mut expected = opt_text_or(p.config, "style", "consistent");
    let tree = p.tree;
    let n = p.lines.len();
    let kinds: [Kind; 2] = [Kind::CodeFenced, Kind::CodeIndented];
    proof {
        assert(kinds@ =~= seq![Kind::CodeFenced, Kind::CodeIndented]);
        reveal_strlit("consistent");
    }
    let cs = tree.filter_idx(&kinds);
    let ghost toks = tree.tokens@;
    let ghost cfg = p.config.entries@;
    let ghost e0 = emit.errors@;
    proof {
        lemma_appended_refl(e0, n as int);
    }
    let mut c: usize = 0;
    while c < cs.len()
        invariant
            c <= cs@.len(),
            params_ok(p),
            tree == p.tree,
            toks == tree.tokens@,
            cfg == p.config.entries@,
            cs@ == code_block_ids(toks),
            n == p.lines@.len(),
            c == 0 ==> expected@ == opt_text_or_spec(cfg, "style"@, "consistent"@),
            c > 0 ==> expected@ == md046_expected(toks, cfg, c - 1),
            forall|k: int| 0 <= k < cs@.len() ==> #[trigger] cs@[k] < tree.tokens@.len(),
            appended(e0, emit.errors@, n as int),
            emit.errors@.len() == e0.len() + md046_list(toks, cfg, n as int, c as int).len(),
            forall|j: int|
                0 <= j < md046_list(toks, cfg, n as int, c as int).len() ==> md046_error(
                    #[trigger] emit.errors@[e0.len() + j],
                    toks,
                    cfg,
                    md046_list(toks, cfg, n as int, c as int)[j],
                ),
        decreases cs@.len() - c,
    {
        let tok = tree.get(cs[c]);
        let st = if tok.kind == Kind::CodeFenced {
            super::lit("fenced")
        } else {
            super::lit("indented")
        };
        if is_text(&expected, "consistent") {
            expected = crate::text::slice_vec(&st, 0, st.len());
        }
        proof {
            assert(st@ == block_style(toks, c as int));
            assert(expected@ == md046_expected(toks, cfg, c as int));
        }
        let ghost prev = md046_list(toks, cfg, n as int, c as int);
        let ghost mid = emit.errors@;
        emit.add_detail_if_checked(n, tok.start_line, &expected, &st, None, None, None, None);
        proof {
            let cur = md046_list(toks, cfg, n as int, c + 1);
            if md046_reports(toks, cfg, n as int, c as int) {
                assert(cur == prev.push(c as int));
                assert forall|j: int| 0 <= j < cur.len() implies md046_error(
                    #[trigger] emit.errors@[e0.len() + j],
                    toks,
                    cfg,
                    cur[j],
                ) by {
                    if j < prev.len() {
                        assert(emit.errors@[e0.len() + j] == mid[e0.len() + j]);
                    }
                }
            } else {
                assert(cur == prev);
                assert(emit.errors@ == mid);
            }
            assert(appended(e0, emit.errors@, n as int));
        }
        c += 1;
    }
}

} // verus!
