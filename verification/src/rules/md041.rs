//! MD041 — first-line-heading / first-line-h1.

use vstd::prelude::*;

use super::RuleError;

use crate::md::kind::{Kind, is_non_content, spec_is_non_content};
use crate::md::tokens::{Token, Tree, html_tag_info, spec_heading_level, spec_html_tag_info};
use crate::text::{lowercase, str_to_lowercase};
use super::helpers::{front_matter_has_title, is_html_flow_comment, spec_ellipsify, spec_is_html_flow_comment};
use super::md025::fm_title;
use super::md036_support::{dfs, push_children, rev_children, walk_below};
use super::options::{OptValue, lookup, spec_opt_bool, spec_opt_i64, spec_opt_str};
use super::{
    Emit, Params, Report, appended, lemma_appended_refl, lemma_reports_push, lemma_reports_start, params_ok,
    report_of, reports_are, spec_int_text,
};

verus! {

/// The first token of `visited` of kind `k`.
pub open spec fn first_of_kind(tokens: Seq<Token>, visited: Seq<usize>, k: Kind) -> Option<usize>
    decreases visited.len(),
{
    if visited.len() == 0 {
        None
    } else if tokens[visited[0] as int].kind == k {
        Some(visited[0])
    } else {
        first_of_kind(tokens, visited.drop_first(), k)
    }
}

proof fn lemma_first_of_kind_skip(tokens: Seq<Token>, a: Seq<usize>, b: Seq<usize>, k: Kind)
    requires
        forall|q: int| 0 <= q < a.len() ==> tokens[#[trigger] a[q] as int].kind != k,
    ensures
        first_of_kind(tokens, a + b, k) == first_of_kind(tokens, b, k),
    decreases a.len(),
{
    if a.len() > 0 {
        assert((a + b).drop_first() =~= a.drop_first() + b);
        assert(tokens[a[0] as int].kind != k);
        lemma_first_of_kind_skip(tokens, a.drop_first(), b, k);
    } else {
        assert(a + b =~= b);
    }
}

/// The lowercased name of the first tag of an HTML block (its first
/// inline HTML met walking below it).
pub open spec fn spec_html_flow_tag(tokens: Seq<Token>, idx: int) -> Option<Seq<char>> {
    if tokens[idx].kind != Kind::HtmlFlow {
        None
    } else {
        match first_of_kind(tokens, walk_below(tokens, idx), Kind::HtmlText) {
            None => None,
            Some(ht) => match spec_html_tag_info(tokens[ht as int].text@) {
                None => None,
                Some((_, name)) => Some(str_to_lowercase(name)),
            },
        }
    }
}

/// A heading tag name: `h` and a digit 1 to 6.
pub open spec fn is_heading_tag(tag: Seq<char>) -> bool {
    tag.len() == 2 && tag[0] == 'h' && '1' <= tag[1] && tag[1] <= '6'
}

/// The line reported for the top-level tokens from `r` on (0: none): the
/// first content is a heading (or an HTML heading tag) of another level,
/// or, without `allow_preamble`, not a heading.
pub open spec fn md041_scan(tokens: Seq<Token>, roots: Seq<usize>, level: i64, preamble: bool, r: int) -> usize
    decreases roots.len() - r,
{
    if r < 0 || r >= roots.len() {
        0
    } else {
        let ri = roots[r] as int;
        let t = tokens[ri];
        if spec_is_non_content(t.kind) || spec_is_html_flow_comment(t.kind, t.text@) {
            md041_scan(tokens, roots, level, preamble, r + 1)
        } else if t.kind == Kind::AtxHeading || t.kind == Kind::SetextHeading {
            if spec_heading_level(tokens, ri) as int != level as int {
                t.start_line
            } else {
                0
            }
        } else {
            match spec_html_flow_tag(tokens, ri) {
                Some(tag) if is_heading_tag(tag) => if tag != "h"@ + spec_int_text(level as int) {
                    t.start_line
                } else {
                    0
                },
                _ => if !preamble {
                    t.start_line
                } else {
                    md041_scan(tokens, roots, level, preamble, r + 1)
                },
            }
        }
    }
}

/// What MD041 reports: nothing when the front matter has a title; else
/// the line found, with its text as context.
pub open spec fn md041_reports(
    tokens: Seq<Token>,
    roots: Seq<usize>,
    cfg: Seq<(Vec<char>, OptValue)>,
    fm: Seq<Vec<char>>,
    lines: Seq<Vec<char>>,
) -> Seq<Report> {
    if fm_title(fm, spec_opt_str(lookup(cfg, "front_matter_title"@))) {
        Seq::empty()
    } else {
        let l = md041_scan(
            tokens,
            roots,
            spec_opt_i64(lookup(cfg, "level"@), 1),
            spec_opt_bool(lookup(cfg, "allow_preamble"@), false),
            0,
        );
        if l > 0 && l <= lines.len() {
            seq![
                Report {
                    line: l,
                    detail: None,
                    context: Some(spec_ellipsify(lines[l - 1]@, false, false)),
                    range: None,
                    fix: None,
                },
            ]
        } else {
            Seq::empty()
        }
    }
}

/// The first `htmlText` among the descendants of `idx`, depth first.
fn find_html_text(tree: &Tree, idx: usize) -> (r: Option<usize>)
    requires
        tree.wf(),
        idx < tree.tokens@.len(),
    ensures
        r matches Some(k) ==> k < tree.tokens@.len(),
        r == first_of_kind(tree.tokens@, walk_below(tree.tokens@, idx as int), Kind::HtmlText),
{
    let ghost tk = tree.tokens@;
    let ghost w = walk_below(tk, idx as int);
    let mut stack: Vec<usize> = Vec::new();
    super::md036_support::push_children(tree, idx, &mut stack);
    proof {
        assert(stack@ =~= rev_children(tk, idx as int));
    }
    let mut budget = tree.tokens.len();
    let ghost mut taken: Seq<usize> = Seq::empty();
    proof {
        assert(w =~= taken + dfs(tk, stack@, budget as nat));
    }
    while stack.len() > 0 && budget > 0
        invariant
            tree.wf(),
            tk == tree.tokens@,
            w == walk_below(tk, idx as int),
            w == taken + dfs(tk, stack@, budget as nat),
            forall|q: int| 0 <= q < taken.len() ==> tk[#[trigger] taken[q] as int].kind != Kind::HtmlText,
            forall|k: int| 0 <= k < stack@.len() ==> #[trigger] stack@[k] < tree.tokens@.len(),
        decreases budget,
    {
        let ghost st = stack@;
        let ghost bud = budget as nat;
        budget -= 1;
        let c = stack.pop().unwrap();
        proof {
            assert(c == st.last());
            assert(dfs(tk, st, bud) == seq![c] + dfs(tk, stack@ + rev_children(tk, c as int), budget as nat));
        }
        if tree.get(c).kind == Kind::HtmlText {
            proof {
                let rest = dfs(tk, st, bud);
                lemma_first_of_kind_skip(tk, taken, rest, Kind::HtmlText);
                assert(rest.len() >= 1);
                assert(rest[0] == c);
                assert(tk[c as int].kind == Kind::HtmlText);
                assert(first_of_kind(tk, rest, Kind::HtmlText) == Some(c));
                assert(w == taken + rest);
            }
            return Some(c);
        }
        super::md036_support::push_children(tree, c, &mut stack);
        proof {
            let t2 = taken.push(c);
            assert(w =~= t2 + dfs(tk, stack@, budget as nat));
            assert forall|q: int| 0 <= q < t2.len() implies tk[#[trigger] t2[q] as int].kind != Kind::HtmlText by {
                if q < taken.len() {
                    assert(t2[q] == taken[q]);
                }
            }
            taken = t2;
        }
    }
    proof {
        assert(dfs(tk, stack@, budget as nat) =~= Seq::<usize>::empty());
        lemma_first_of_kind_skip(tk, taken, Seq::<usize>::empty(), Kind::HtmlText);
        assert(taken + Seq::<usize>::empty() =~= taken);
    }
    None
}

/// The lowercased tag name of an HTML block's first tag.
fn html_flow_tag_name(tree: &Tree, idx: usize) -> (r: Option<Vec<char>>)
    requires
        tree.wf(),
        idx < tree.tokens@.len(),
    ensures
        crate::rules::opt_seq(r) == spec_html_flow_tag(tree.tokens@, idx as int),
{
    if tree.get(idx).kind != Kind::HtmlFlow {
        return None;
    }
    let ht = match find_html_text(tree, idx) {
        Some(x) => x,
        None => return None,
    };
    let info = match html_tag_info(&tree.get(ht).text) {
        Some(x) => x,
        None => return None,
    };
    Some(lowercase(&info.name))
}

/// What `md041` reports: the problems it appends to `old_errors`.
pub open spec fn md041_reported(p: &Params, old_errors: Seq<RuleError>, new_errors: Seq<RuleError>) -> bool {
    reports_are(
        old_errors,
        new_errors,
        md041_reports(p.tree.tokens@, p.tree.roots@, p.config.entries@, p.front_matter_lines@, p.lines@),
    )
}

/// Report the first content of the document when it is not a heading of
/// `level` (an HTML `<hN>` tag counts); with `allow_preamble`, text may
/// come before the first heading. Nothing is reported when the front
/// matter has a title.
pub fn md041(p: &Params, emit: &mut Emit)
    requires
        params_ok(p),
    ensures
        appended(old(emit).errors@, final(emit).errors@, p.lines@.len() as int),
        md041_reported(p, old(emit).errors@, final(emit).errors@),
{
    let allow_preamble = p.config.opt_bool("allow_preamble", false);
    let level = p.config.opt_i64("level", 1);
    let tree = p.tree;
    let n = p.lines.len();
    let ghost tk = tree.tokens@;
    let ghost roots = tree.roots@;
    let ghost e0 = emit.errors@;
    proof {
        lemma_appended_refl(e0, n as int);
        lemma_reports_start(e0);
    }
    let title_opt = p.config.opt_str("front_matter_title");
    let has_title = match title_opt {
        Some(t) => front_matter_has_title(p.front_matter_lines, Some(t.as_slice())),
        None => front_matter_has_title(p.front_matter_lines, None),
    };
    if has_title {
        return;
    }
    let mut error_line: usize = 0;
    let mut r: usize = 0;
    let mut done = false;
    while r < tree.roots.len() && !done
        invariant
            r <= tree.roots@.len(),
            tree.wf(),
            tk == tree.tokens@,
            roots == tree.roots@,
            !done ==> error_line == 0 && md041_scan(tk, roots, level, allow_preamble, r as int) == md041_scan(tk, roots, level, allow_preamble, 0),
            done ==> error_line == md041_scan(tk, roots, level, allow_preamble, 0),
        decreases tree.roots@.len() - r + (if done { 0int } else { 1int }),
    {
        proof {
            tree.lemma_root(r as int);
        }
        let ri = tree.roots[r];
        let t = tree.get(ri);
        if is_non_content(t.kind) || is_html_flow_comment(tree, ri) {
            r += 1;
        } else if t.kind == Kind::AtxHeading || t.kind == Kind::SetextHeading {
            if tree.heading_level(ri) as i64 != level {
                error_line = t.start_line;
            }
            done = true;
        } else {
            let tag_o = html_flow_tag_name(tree, ri);
            let mut decided = false;
            match tag_o {
                Some(tag) => {
                    let is_heading_tag = tag.len() == 2 && tag[0] == 'h' && '1' <= tag[1] && tag[1] <= '6';
                    if is_heading_tag {
                        let mut want = super::lit("h");
                        super::concat(&mut want, &super::int_text(level));
                        if !super::slice_eq(&tag, &want) {
                            error_line = t.start_line;
                        }
                        decided = true;
                        done = true;
                    }
                },
                None => {},
            }
            if !decided {
                if !allow_preamble {
                    error_line = t.start_line;
                    done = true;
                } else {
                    r += 1;
                }
            }
        }
    }
    let ghost m0 = emit.errors@;
    if error_line > 0 && error_line <= n {
        emit.add_context_checked(n, error_line, &p.lines[error_line - 1], false, false, None, None);
    }
    proof {
        if error_line > 0 && error_line <= n {
            lemma_reports_push(e0, e0, Seq::empty(), emit.errors@.last());
            assert(Seq::<Report>::empty().push(report_of(emit.errors@.last())) =~= md041_reports(
                tk,
                roots,
                p.config.entries@,
                p.front_matter_lines@,
                p.lines@,
            ));
        }
    }
}

} // verus!
