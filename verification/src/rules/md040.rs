//! MD040 — fenced-code-language.

use vstd::prelude::*;

use crate::md::kind::Kind;
use crate::md::tokens::{Token, filter_idx_upto, kind_path, walk_path};
use super::helpers::spec_ellipsify;
use super::md024::contains_text;
use super::options::{OptValue, lookup, spec_opt_bool, strings_of};
use super::{Emit, Params, RuleError, appended, error_is, lemma_appended_refl, params_ok};

verus! {

/// The children of `t` of kind `k`.
pub open spec fn children_of_kind(tokens: Seq<Token>, t: usize, k: Kind) -> Seq<usize> {
    walk_path(tokens, seq![t], seq![seq![k]], 1)
}

/// The fenced code blocks, in document order.
pub open spec fn fenced_ids(tokens: Seq<Token>) -> Seq<usize> {
    filter_idx_upto(tokens, seq![Kind::CodeFenced], tokens.len() as int)
}

/// The `allowed_languages` option: its strings, none when absent.
pub open spec fn allowed_languages(cfg: Seq<(Vec<char>, OptValue)>) -> Seq<Seq<char>> {
    match lookup(cfg, "allowed_languages"@) {
        Some(OptValue::List(items)) => strings_of(items@),
        _ => Seq::empty(),
    }
}

/// What is reported for the `c`-th fenced code block, in order: `0` for a
/// missing info string, `1` for a language that is not allowed, `2` for an
/// info string holding more than the language (with `language_only`).
/// Nothing is reported for a block without an opening fence, or whose fence
/// is not on a line of the document.
pub open spec fn md040_events(tokens: Seq<Token>, cfg: Seq<(Vec<char>, OptValue)>, n: int, c: int) -> Seq<int> {
    let fences = children_of_kind(tokens, fenced_ids(tokens)[c], Kind::CodeFencedFence);
    if fences.len() == 0 {
        Seq::empty()
    } else {
        let f = fences[0];
        let line = tokens[f as int].start_line;
        let infos = children_of_kind(tokens, f, Kind::CodeFencedFenceInfo);
        let allowed = allowed_languages(cfg);
        let first = if !(1 <= line <= n) {
            Seq::empty()
        } else if infos.len() == 0 {
            seq![0int]
        } else if allowed.len() > 0 && !allowed.contains(tokens[infos[0] as int].text@) {
            seq![1int]
        } else {
            Seq::empty()
        };
        let second = if 1 <= line <= n && spec_opt_bool(lookup(cfg, "language_only"@), false)
            && children_of_kind(tokens, f, Kind::CodeFencedFenceMeta).len() > 0 {
            seq![2int]
        } else {
            Seq::empty()
        };
        first + second
    }
}

/// The problems of the first `c` fenced code blocks: (block, what) pairs.
pub open spec fn md040_list(tokens: Seq<Token>, cfg: Seq<(Vec<char>, OptValue)>, n: int, c: int) -> Seq<
    (int, int),
>
    decreases c,
{
    if c <= 0 {
        Seq::empty()
    } else {
        md040_list(tokens, cfg, n, c - 1) + md040_events(tokens, cfg, n, c - 1).map_values(
            |w: int| (c - 1, w),
        )
    }
}

/// The problem reported for event `ev` = (block, what).
pub open spec fn md040_error(e: RuleError, tokens: Seq<Token>, ev: (int, int)) -> bool {
    let f = children_of_kind(tokens, fenced_ids(tokens)[ev.0], Kind::CodeFencedFence)[0];
    let ft = tokens[f as int];
    if ev.1 == 0 {
        error_is(e, ft.start_line, None, Some(spec_ellipsify(ft.text@, false, false)), None, None)
    } else if ev.1 == 1 {
        let info = tokens[children_of_kind(tokens, f, Kind::CodeFencedFenceInfo)[0] as int].text@;
        error_is(e, ft.start_line, Some("\""@ + info + "\" is not allowed"@), None, None, None)
    } else {
        error_is(
            e,
            ft.start_line,
            Some("Info string contains more than language: \""@ + ft.text@ + "\""@),
            None,
            None,
            None,
        )
    }
}

/// What `md040` reports: the problems it appends to `old_errors`.
pub open spec fn md040_reported(p: &Params, old_errors: Seq<RuleError>, new_errors: Seq<RuleError>) -> bool {
    ({
        let toks = p.tree.tokens@;
        let reported = md040_list(toks, p.config.entries@, p.lines@.len() as int, fenced_ids(toks).len() as int);
        let base = old_errors.len();
        &&& new_errors.len() == base + reported.len()
        &&& forall|j: int|
            0 <= j < reported.len() ==> md040_error(#[trigger] new_errors[base + j], toks, reported[j])
    })
}

/// Report fenced code without an info string; with `allowed_languages`, a
/// language not in the list; with `language_only`, an info string holding
/// more than the language.
pub fn md040(p: &Params, emit: &mut Emit)
    requires
        params_ok(p),
    ensures
        appended(old(emit).errors@, final(emit).errors@, p.lines@.len() as int),
        md040_reported(p, old(emit).errors@, final(emit).errors@),
{
    let allowed = match p.config.opt_strings("allowed_languages") {
        Some(v) => v,
        None => Vec::new(),
    };
    let language_only = p.config.opt_bool("language_only", false);
    let tree = p.tree;
    let n = p.lines.len();
    let ghost toks = tree.tokens@;
    let ghost cfg = p.config.entries@;
    proof {
        assert(allowed@.map_values(|v: Vec<char>| v@) == allowed_languages(cfg));
    }
    let fenced_kinds: [Kind; 1] = [Kind::CodeFenced];
    let fence_kinds: [Kind; 1] = [Kind::CodeFencedFence];
    let info_kinds: [Kind; 1] = [Kind::CodeFencedFenceInfo];
    let meta_kinds: [Kind; 1] = [Kind::CodeFencedFenceMeta];
    let fence_path: [&[Kind]; 1] = [&fence_kinds];
    let info_path: [&[Kind]; 1] = [&info_kinds];
    let meta_path: [&[Kind]; 1] = [&meta_kinds];
    proof {
        assert(fenced_kinds@ =~= seq![Kind::CodeFenced]);
        assert(fence_kinds@ =~= seq![Kind::CodeFencedFence]);
        assert(info_kinds@ =~= seq![Kind::CodeFencedFenceInfo]);
        assert(meta_kinds@ =~= seq![Kind::CodeFencedFenceMeta]);
        assert(kind_path(fence_path@) =~= seq![seq![Kind::CodeFencedFence]]);
        assert(kind_path(info_path@) =~= seq![seq![Kind::CodeFencedFenceInfo]]);
        assert(kind_path(meta_path@) =~= seq![seq![Kind::CodeFencedFenceMeta]]);
        reveal_strlit("\"");
        reveal_strlit("\" is not allowed");
        reveal_strlit("Info string contains more than language: \"");
    }
    let fcs = tree.filter_idx(&fenced_kinds);
    let ghost e0 = emit.errors@;
    proof {
        lemma_appended_refl(e0, n as int);
    }
    let mut c: usize = 0;
    while c < fcs.len()
        invariant
            c <= fcs@.len(),
            params_ok(p),
            tree == p.tree,
            toks == tree.tokens@,
            cfg == p.config.entries@,
            fcs@ == fenced_ids(toks),
            n == p.lines@.len(),
            allowed@.map_values(|v: Vec<char>| v@) == allowed_languages(cfg),
            language_only == spec_opt_bool(lookup(cfg, "language_only"@), false),
            kind_path(fence_path@) == seq![seq![Kind::CodeFencedFence]],
            kind_path(info_path@) == seq![seq![Kind::CodeFencedFenceInfo]],
            kind_path(meta_path@) == seq![seq![Kind::CodeFencedFenceMeta]],
            fence_path@.len() == 1,
            info_path@.len() == 1,
            meta_path@.len() == 1,
            forall|k: int| 0 <= k < fcs@.len() ==> #[trigger] fcs@[k] < tree.tokens@.len(),
            appended(e0, emit.errors@, n as int),
            emit.errors@.len() == e0.len() + md040_list(toks, cfg, n as int, c as int).len(),
            forall|j: int|
                0 <= j < md040_list(toks, cfg, n as int, c as int).len() ==> md040_error(
                    #[trigger] emit.errors@[e0.len() + j],
                    toks,
                    md040_list(toks, cfg, n as int, c as int)[j],
                ),
        decreases fcs@.len() - c,
    {
        let fc = fcs[c];
        let ghost prev = md040_list(toks, cfg, n as int, c as int);
        let ghost mid = emit.errors@;
        let ghost ev = md040_events(toks, cfg, n as int, c as int);
        let ghost cur = md040_list(toks, cfg, n as int, c + 1);
        proof {
            assert(cur == prev + ev.map_values(|w: int| (c as int, w)));
        }
        let fences = tree.descendants_by_type(fc, &fence_path);
        if fences.len() == 0 {
            proof {
                assert(cur =~= prev);
            }
            c += 1;
            continue;
        }
        let fence = fences[0];
        let ftok = tree.get(fence);
        let start_line = ftok.start_line;
        let infos = tree.descendants_by_type(fence, &info_path);
        if infos.len() == 0 {
            emit.add_context_checked(n, start_line, &ftok.text, false, false, None, None);
        } else {
            let info = &tree.get(infos[0]).text;
            let ok = contains_text(&allowed, info);
            proof {
                let av = allowed@.map_values(|v: Vec<char>| v@);
                if ok {
                    let k = choose|k: int| 0 <= k < allowed@.len() && (#[trigger] allowed@[k])@ == info@;
                    assert(av[k] == info@);
                }
                if av.contains(info@) {
                    let k = choose|k: int| 0 <= k < av.len() && av[k] == info@;
                    assert(allowed@[k]@ == info@);
                }
            }
            if allowed.len() > 0 && !ok {
                let mut d = super::lit("\"");
                super::concat(&mut d, info);
                super::concat(&mut d, &super::lit("\" is not allowed"));
                emit.add_checked(n, start_line, Some(d), None, None, None);
            }
        }
        let ghost mid2 = emit.errors@;
        proof {
            assert(appended(e0, emit.errors@, n as int));
        }
        if language_only && tree.descendants_by_type(fence, &meta_path).len() > 0 {
            let mut d = super::lit("Info string contains more than language: \"");
            super::concat(&mut d, &ftok.text);
            super::concat(&mut d, &super::lit("\""));
            emit.add_checked(n, start_line, Some(d), None, None, None);
        }
        proof {
            assert(appended(e0, emit.errors@, n as int));
            assert(emit.errors@.len() == e0.len() + cur.len());
            assert forall|j: int| 0 <= j < cur.len() implies md040_error(
                #[trigger] emit.errors@[e0.len() + j],
                toks,
                cur[j],
            ) by {
                if j < prev.len() {
                    assert(emit.errors@[e0.len() + j] == mid[e0.len() + j]);
                } else {
                    assert(cur[j] == (c as int, ev[j - prev.len()]));
                }
            }
        }
        c += 1;
    }
}

} // verus!
