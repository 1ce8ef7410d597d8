//! MD048 — code-fence-style.

use vstd::prelude::*;

use crate::md::kind::Kind;
use crate::md::tokens::{Token, kind_path, walk_path};
use super::md003::{is_text, opt_text_or, opt_text_or_spec};
use super::md040::fenced_ids;
use super::options::OptValue;
use super::{Emit, Params, RuleError, appended, detail_text, error_is, lemma_appended_refl, params_ok};

verus! {

/// The opening fence sequences of the `c`-th fenced code block.
pub open spec fn fence_sequences(tokens: Seq<Token>, c: int) -> Seq<usize> {
    walk_path(
        tokens,
        seq![fenced_ids(tokens)[c]],
        seq![seq![Kind::CodeFencedFence], seq![Kind::CodeFencedFenceSequence]],
        2,
    )
}

/// The style of a fence sequence: `tilde` or `backtick`.
pub open spec fn fence_style(t: Token) -> Seq<char> {
    if t.text@.len() > 0 && t.text@[0] == '~' {
        "tilde"@
    } else {
        "backtick"@
    }
}

/// The style the `c`-th fenced block is held against: the configured
/// `style`; while that is `consistent`, each block's own style becomes it
/// (blocks without a fence sequence are passed over).
pub open spec fn md048_expected(tokens: Seq<Token>, cfg: Seq<(Vec<char>, OptValue)>, c: int) -> Seq<char>
    decreases c + 1,
{
    let before = if c <= 0 {
        opt_text_or_spec(cfg, "style"@, "consistent"@)
    } else {
        md048_expected(tokens, cfg, c - 1)
    };
    let seqs = fence_sequences(tokens, c);
    if seqs.len() > 0 && before == "consistent"@ {
        fence_style(tokens[seqs[0] as int])
    } else {
        before
    }
}

/// Whether the `c`-th fenced block is reported.
pub open spec fn md048_reports(tokens: Seq<Token>, cfg: Seq<(Vec<char>, OptValue)>, n: int, c: int) -> bool {
    let seqs = fence_sequences(tokens, c);
    &&& seqs.len() > 0
    &&& md048_expected(tokens, cfg, c) != fence_style(tokens[seqs[0] as int])
    &&& 1 <= tokens[seqs[0] as int].start_line <= n
}

/// The positions (among the fenced blocks) of the first `c` reported.
pub open spec fn md048_list(tokens: Seq<Token>, cfg: Seq<(Vec<char>, OptValue)>, n: int, c: int) -> Seq<int>
    decreases c,
{
    if c <= 0 {
        Seq::empty()
    } else {
        let prev = md048_list(tokens, cfg, n, c - 1);
        if md048_reports(tokens, cfg, n, c - 1) {
            prev.push(c - 1)
        } else {
            prev
        }
    }
}

/// The problem reported for the `c`-th fenced block.
pub open spec fn md048_error(e: RuleError, tokens: Seq<Token>, cfg: Seq<(Vec<char>, OptValue)>, c: int) -> bool {
    let t = tokens[fence_sequences(tokens, c)[0] as int];
    error_is(e, t.start_line, Some(detail_text(md048_expected(tokens, cfg, c), fence_style(t), None)), None, None, None)
}

/// What `md048` reports: the problems it appends to `old_errors`.
pub open spec fn md048_reported(p: &Params, old_errors: Seq<RuleError>, new_errors: Seq<RuleError>) -> bool {
    ({
        let toks = p.tree.tokens@;
        let reported = md048_list(toks, p.config.entries@, p.lines@.len() as int, fenced_ids(toks).len() as int);
        let base = old_errors.len();
        &&& new_errors.len() == base + reported.len()
        &&& forall|j: int|
            0 <= j < reported.len() ==> md048_error(
                #[trigger] new_errors[base + j],
                toks,
                p.config.entries@,
                reported[j],
            )
    })
}

/// Report code fences of the other style than the configured one (or than
/// the first fence's, for `consistent`): `tilde` or `backtick`.
pub fn md048(p: &Params, emit: &mut Emit)
    requires
        params_ok(p),
    ensures
        appended(old(emit).errors@, final(emit).errors@, p.lines@.len() as int),
        md048_reported(p, old(emit).errors@, final(emit).errors@),
{
    let mut expected = opt_text_or(p.config, "style", "consistent");
    let tree = p.tree;
    let n = p.lines.len();
    let kinds: [Kind; 1] = [Kind::CodeFenced];
    let fence_kinds: [Kind; 1] = [Kind::CodeFencedFence];
    let seq_kinds: [Kind; 1] = [Kind::CodeFencedFenceSequence];
    let path: [&[Kind]; 2] = [&fence_kinds, &seq_kinds];
    proof {
        assert(kinds@ =~= seq![Kind::CodeFenced]);
        assert(fence_kinds@ =~= seq![Kind::CodeFencedFence]);
        assert(seq_kinds@ =~= seq![Kind::CodeFencedFenceSequence]);
        assert(kind_path(path@) =~= seq![seq![Kind::CodeFencedFence], seq![Kind::CodeFencedFenceSequence]]);
        reveal_strlit("consistent");
    }
    let cfs = tree.filter_idx(&kinds);
    let ghost toks = tree.tokens@;
    let ghost cfg = p.config.entries@;
    let ghost e0 = emit.errors@;
    proof {
        lemma_appended_refl(e0, n as int);
    }
    let mut c: usize = 0;
    while c < cfs.len()
        invariant
            c <= cfs@.len(),
            params_ok(p),
            tree == p.tree,
            toks == tree.tokens@,
            cfg == p.config.entries@,
            cfs@ == fenced_ids(toks),
            n == p.lines@.len(),
            path@.len() == 2,
            kind_path(path@) == seq![seq![Kind::CodeFencedFence], seq![Kind::CodeFencedFenceSequence]],
            c == 0 ==> expected@ == opt_text_or_spec(cfg, "style"@, "consistent"@),
            c > 0 ==> expected@ == md048_expected(toks, cfg, c - 1),
            forall|k: int| 0 <= k < cfs@.len() ==> #[trigger] cfs@[k] < tree.tokens@.len(),
            appended(e0, emit.errors@, n as int),
            emit.errors@.len() == e0.len() + md048_list(toks, cfg, n as int, c as int).len(),
            forall|j: int|
                0 <= j < md048_list(toks, cfg, n as int, c as int).len() ==> md048_error(
                    #[trigger] emit.errors@[e0.len() + j],
                    toks,
                    cfg,
                    md048_list(toks, cfg, n as int, c as int)[j],
                ),
        decreases cfs@.len() - c,
    {
        let cf = cfs[c];
        let ghost prev = md048_list(toks, cfg, n as int, c as int);
        let ghost mid = emit.errors@;
        let seqs = tree.descendants_by_type(cf, &path);
        if seqs.len() == 0 {
            proof {
                assert(md048_list(toks, cfg, n as int, c + 1) == prev);
                assert(md048_expected(toks, cfg, c as int) == expected@);
            }
            c += 1;
            continue;
        }
        let tok = tree.get(seqs[0]);
        let st = if tok.text.len() > 0 && tok.text[0] == '~' {
            super::lit("tilde")
        } else {
            super::lit("backtick")
        };
        if is_text(&expected, "consistent") {
            expected = crate::text::slice_vec(&st, 0, st.len());
        }
        proof {
            assert(st@ == fence_style(*tok));
            assert(expected@ == md048_expected(toks, cfg, c as int));
        }
        emit.add_detail_if_checked(n, tok.start_line, &expected, &st, None, None, None, None);
        proof {
            let cur = md048_list(toks, cfg, n as int, c + 1);
            if md048_reports(toks, cfg, n as int, c as int) {
                assert(cur == prev.push(c as int));
                assert forall|j: int| 0 <= j < cur.len() implies md048_error(
                    #[trigger] emit.errors@[e0.len() + j],
                    toks,
                    cfg,
                    cur[j],
                ) by {
                    if j < prev.len() {
                        assert(emit.errors@[e0.len() + j] == mid[e0.len() + j]);
                    }
                }
            } else {
                assert(cur == prev);
                assert(emit.errors@ == mid);
            }
            assert(appended(e0, emit.errors@, n as int));
        }
        c += 1;
    }
}

} // verus!
