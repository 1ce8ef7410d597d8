//! MD025 — single-title / single-h1.

use vstd::prelude::*;

use crate::md::kind::{Kind, is_non_content, spec_is_non_content};
use crate::md::tokens::{Token, filter_idx_upto, spec_heading_level, spec_heading_text};
use crate::re::regex_find;
use super::helpers::{
    front_matter_has_title, is_html_flow_comment, spec_ellipsify, spec_is_html_flow_comment, title_pattern,
};
use super::md028::index_from;
use super::options::{OptValue, lookup, spec_opt_i64, spec_opt_str};
use super::{
    Emit, Params, RuleError, appended, error_is, lemma_appended_refl, lemma_reported_start,
    lemma_reported_step, params_ok, picked, reported_as,
};

verus! {

/// The headings.
pub open spec fn heading_ids(tokens: Seq<Token>) -> Seq<usize> {
    filter_idx_upto(tokens, seq![Kind::AtxHeading, Kind::SetextHeading], tokens.len() as int)
}

/// The first `c` headings whose level is `level`.
pub open spec fn md025_matching(tokens: Seq<Token>, level: i64, c: int) -> Seq<usize>
    decreases c,
{
    if c <= 0 {
        Seq::empty()
    } else {
        let prev = md025_matching(tokens, level, c - 1);
        let h = heading_ids(tokens)[c - 1];
        if spec_heading_level(tokens, h as int) as int == level as int {
            prev.push(h)
        } else {
            prev
        }
    }
}

/// The headings of the configured level (1 by default).
pub open spec fn md025_all(tokens: Seq<Token>, cfg: Seq<(Vec<char>, OptValue)>) -> Seq<usize> {
    md025_matching(tokens, spec_opt_i64(lookup(cfg, "level"@), 1), heading_ids(tokens).len() as int)
}

/// Some front-matter line matches the title pattern.
pub open spec fn fm_title(fm: Seq<Vec<char>>, pattern: Option<Seq<char>>) -> bool {
    exists|k: int| 0 <= k < fm.len() && (#[trigger] regex_find(title_pattern(pattern), fm[k]@)) is Some
}

/// Where the look for content before the first heading stops: at the
/// heading among the top-level tokens, else before the last of them.
pub open spec fn md025_stop(roots: Seq<usize>, first: usize) -> int {
    let i = index_from(roots, first, 0);
    if i < roots.len() {
        i
    } else if roots.len() > 0 {
        roots.len() - 1
    } else {
        0
    }
}

/// No content before the first heading: every top-level token before it
/// is a prefix, line ending or HTML comment.
pub open spec fn md025_top(tokens: Seq<Token>, roots: Seq<usize>, first: usize) -> bool {
    forall|r: int|
        0 <= r < md025_stop(roots, first) ==> spec_is_non_content(tokens[#[trigger] roots[r] as int].kind)
            || spec_is_html_flow_comment(tokens[roots[r] as int].kind, tokens[roots[r] as int].text@)
}

/// Whether the `k`-th heading of the level is reported: the document has
/// a title (front matter, or the first such heading before any content),
/// and the heading is not that first one (unless the title is in front
/// matter).
pub open spec fn md025_reports(
    tokens: Seq<Token>,
    roots: Seq<usize>,
    cfg: Seq<(Vec<char>, OptValue)>,
    fm: bool,
    n: int,
    k: int,
) -> bool {
    let m = md025_all(tokens, cfg);
    &&& m.len() > 0
    &&& fm || md025_top(tokens, roots, m[0])
    &&& fm || k >= 1
    &&& 1 <= tokens[m[k] as int].start_line <= n
}

/// The problem reported for the `k`-th heading of the level: its text as
/// context.
pub open spec fn md025_error(e: RuleError, tokens: Seq<Token>, cfg: Seq<(Vec<char>, OptValue)>, k: int) -> bool {
    let h = md025_all(tokens, cfg)[k];
    error_is(
        e,
        tokens[h as int].start_line,
        None,
        Some(spec_ellipsify(spec_heading_text(tokens, h as int), false, false)),
        None,
        None,
    )
}

pub open spec fn md025_f(
    tokens: Seq<Token>,
    roots: Seq<usize>,
    cfg: Seq<(Vec<char>, OptValue)>,
    fm: bool,
    n: int,
) -> spec_fn(int) -> bool {
    |k: int| md025_reports(tokens, roots, cfg, fm, n, k)
}

pub open spec fn md025_e(tokens: Seq<Token>, cfg: Seq<(Vec<char>, OptValue)>) -> spec_fn(RuleError, int) -> bool {
    |e: RuleError, k: int| md025_error(e, tokens, cfg, k)
}

/// What `md025` reports: the problems it appends to `old_errors`.
pub open spec fn md025_reported(p: &Params, old_errors: Seq<RuleError>, new_errors: Seq<RuleError>) -> bool {
    ({
        let toks = p.tree.tokens@;
        let cfg = p.config.entries@;
        let fm = fm_title(p.front_matter_lines@, spec_opt_str(lookup(cfg, "front_matter_title"@)));
        reported_as(
            old_errors,
            new_errors,
            picked(
                md025_f(toks, p.tree.roots@, cfg, fm, p.lines@.len() as int),
                md025_all(toks, cfg).len() as int,
            ),
            md025_e(toks, cfg),
        )
    })
}

/// Report every top-level heading (of `level`) after the first one, when
/// the document has a title: the first such heading comes before any
/// content, or the front matter has a title (then all are reported).
pub fn md025(p: &Params, emit: &mut Emit)
    requires
        params_ok(p),
    ensures
        appended(old(emit).errors@, final(emit).errors@, p.lines@.len() as int),
        md025_reported(p, old(emit).errors@, final(emit).errors@),
{
    let level = p.config.opt_i64("level", 1);
    let tree = p.tree;
    let n = p.lines.len();
    let ghost toks = tree.tokens@;
    let ghost roots = tree.roots@;
    let ghost cfg = p.config.entries@;
    let ghost e0 = emit.errors@;
    proof {
        lemma_appended_refl(e0, n as int);
    }
    let kinds: [Kind; 2] = [Kind::AtxHeading, Kind::SetextHeading];
    proof {
        assert(kinds@ =~= seq![Kind::AtxHeading, Kind::SetextHeading]);
    }
    let hs = tree.filter_idx(&kinds);
    let mut matching: Vec<usize> = Vec::new();
    let mut c: usize = 0;
    while c < hs.len()
        invariant
            c <= hs@.len(),
            tree.wf(),
            toks == tree.tokens@,
            hs@ == heading_ids(toks),
            matching@ == md025_matching(toks, level, c as int),
            forall|k: int| 0 <= k < hs@.len() ==> #[trigger] hs@[k] < tree.tokens@.len(),
            forall|k: int| 0 <= k < matching@.len() ==> #[trigger] matching@[k] < tree.tokens@.len(),
        decreases hs@.len() - c,
    {
        if tree.heading_level(hs[c]) as i64 == level {
            matching.push(hs[c]);
        }
        c += 1;
    }
    let ghost m = matching@;
    let title_opt = p.config.opt_str("front_matter_title");
    let found_front_matter = match title_opt {
        Some(t) => front_matter_has_title(p.front_matter_lines, Some(t.as_slice())),
        None => front_matter_has_title(p.front_matter_lines, None),
    };
    let ghost fm = fm_title(p.front_matter_lines@, spec_opt_str(lookup(cfg, "front_matter_title"@)));
    proof {
        assert(found_front_matter == fm);
    }
    let ghost f = md025_f(toks, roots, cfg, fm, n as int);
    let ghost err = md025_e(toks, cfg);
    proof {
        lemma_reported_start(e0, f, err);
    }
    if matching.len() == 0 {
        return;
    }
    let mut has_top_level = found_front_matter;
    if !has_top_level {
        let first = matching[0];
        let nroots = tree.roots.len();
        let mut stop: usize = 0;
        while stop < nroots && tree.roots[stop] != first
            invariant
                stop <= nroots,
                nroots == tree.roots@.len(),
                index_from(tree.roots@, first, stop as int) == index_from(tree.roots@, first, 0),
            decreases nroots - stop,
        {
            stop += 1;
        }
        if stop == nroots {
            stop = if nroots > 0 {
                nroots - 1
            } else {
                0
            };
        }
        proof {
            assert(stop == md025_stop(roots, first));
        }
        let mut all = true;
        let mut r: usize = 0;
        while r < stop && all
            invariant
                r <= stop <= nroots,
                stop == md025_stop(roots, first),
                nroots == tree.roots@.len(),
                roots == tree.roots@,
                toks == tree.tokens@,
                tree.wf(),
                all ==> forall|q: int|
                    0 <= q < r ==> spec_is_non_content(toks[#[trigger] roots[q] as int].kind)
                        || spec_is_html_flow_comment(toks[roots[q] as int].kind, toks[roots[q] as int].text@),
                !all ==> !md025_top(toks, roots, first),
            decreases stop - r + (if all { 1int } else { 0int }),
        {
            proof {
                tree.lemma_root(r as int);
            }
            let t = tree.roots[r];
            if !is_non_content(tree.get(t).kind) && !is_html_flow_comment(tree, t) {
                all = false;
            } else {
                r += 1;
            }
        }
        has_top_level = all;
        proof {
            assert(has_top_level == md025_top(toks, roots, first));
        }
    }
    proof {
        assert(has_top_level == (fm || md025_top(toks, roots, m[0])));
    }
    let skip: usize = if found_front_matter {
        0
    } else {
        1
    };
    if has_top_level {
        let mut k: usize = 0;
        while k < matching.len()
            invariant
                k <= matching@.len(),
                params_ok(p),
                tree == p.tree,
                toks == tree.tokens@,
                n == p.lines@.len(),
                m == matching@,
                m == md025_all(toks, cfg),
                has_top_level == (fm || md025_top(toks, roots, m[0])),
                has_top_level,
                skip == (if fm { 0usize } else { 1usize }),
                f == md025_f(toks, roots, cfg, fm, n as int),
                err == md025_e(toks, cfg),
                forall|q: int| 0 <= q < matching@.len() ==> #[trigger] matching@[q] < tree.tokens@.len(),
                appended(e0, emit.errors@, n as int),
                reported_as(e0, emit.errors@, picked(f, k as int), err),
            decreases matching@.len() - k,
        {
            let ghost mid = emit.errors@;
            if k >= skip {
                let h = matching[k];
                let text = tree.heading_text(h);
                emit.add_context_checked(n, tree.get(h).start_line, &text, false, false, None, None);
            }
            proof {
                assert(f(k as int) == md025_reports(toks, roots, cfg, fm, n as int, k as int));
                if f(k as int) {
                    assert(err(emit.errors@.last(), k as int) == md025_error(emit.errors@.last(), toks, cfg, k as int));
                }
                lemma_reported_step(e0, mid, emit.errors@, f, err, k as int);
            }
            k += 1;
        }
    } else {
        let mut k: usize = 0;
        while k < matching.len()
            invariant
                k <= matching@.len(),
                m == matching@,
                m == md025_all(toks, cfg),
                !(fm || md025_top(toks, roots, m[0])),
                f == md025_f(toks, roots, cfg, fm, n as int),
                picked(f, k as int) == Seq::<int>::empty(),
            decreases matching@.len() - k,
        {
            proof {
                assert(!f(k as int));
            }
            k += 1;
        }
    }
}

} // verus!
