//! MD001 — heading-increment: heading levels go up one at a time.

use vstd::prelude::*;

use crate::md::kind::Kind;
use crate::md::tokens::{Token, filter_idx_upto, spec_heading_level};
use crate::re::regex_find;
use super::helpers::{front_matter_has_title, title_pattern};
use super::options::{OptValue, lookup, spec_opt_str};
use super::{
    Emit, Params, RuleError, appended, detail_text, error_is, int_text, lemma_appended_refl,
    params_ok, spec_int_text,
};

verus! {

/// `h` followed by a level.
fn h_level(level: i64) -> (r: Vec<char>)
    ensures
        r@ == "h"@ + spec_int_text(level as int),
{
    let mut v = super::lit("h");
    super::concat(&mut v, &int_text(level));
    v
}

/// The front matter has a title, by the `front_matter_title` pattern.
pub open spec fn has_front_matter_title(fm: Seq<Vec<char>>, cfg: Seq<(Vec<char>, OptValue)>) -> bool {
    exists|k: int|
        0 <= k < fm.len() && (#[trigger] regex_find(
            title_pattern(spec_opt_str(lookup(cfg, "front_matter_title"@))),
            fm[k]@,
        )) is Some
}

/// The headings, in document order.
pub open spec fn heading_ids(tokens: Seq<Token>) -> Seq<usize> {
    filter_idx_upto(tokens, seq![Kind::AtxHeading, Kind::SetextHeading], tokens.len() as int)
}

/// The level a heading is held against: the previous heading's, or 1 for a
/// front-matter title, or none for the first heading.
pub open spec fn md001_prev(tokens: Seq<Token>, has_title: bool, c: int) -> int {
    if c <= 0 {
        if has_title {
            1
        } else {
            i64::MAX as int
        }
    } else {
        spec_heading_level(tokens, heading_ids(tokens)[c - 1] as int) as int
    }
}

/// Whether the `c`-th heading is reported: it is more than one level
/// deeper than the one it is held against, and on a line of the document.
pub open spec fn md001_reports(tokens: Seq<Token>, has_title: bool, n: int, c: int) -> bool {
    let h = heading_ids(tokens)[c] as int;
    let level = spec_heading_level(tokens, h) as int;
    let prev = md001_prev(tokens, has_title, c);
    &&& level > prev
    &&& "h"@ + spec_int_text(prev + 1) != "h"@ + spec_int_text(level)
    &&& 1 <= tokens[h].start_line <= n
}

/// The positions (among the headings) of the first `c` headings reported.
pub open spec fn md001_list(tokens: Seq<Token>, has_title: bool, n: int, c: int) -> Seq<int>
    decreases c,
{
    if c <= 0 {
        Seq::empty()
    } else {
        let prev = md001_list(tokens, has_title, n, c - 1);
        if md001_reports(tokens, has_title, n, c - 1) {
            prev.push(c - 1)
        } else {
            prev
        }
    }
}

/// The problem reported for the `c`-th heading.
pub open spec fn md001_error(e: RuleError, tokens: Seq<Token>, has_title: bool, c: int) -> bool {
    let h = heading_ids(tokens)[c] as int;
    let prev = md001_prev(tokens, has_title, c);
    error_is(
        e,
        tokens[h].start_line,
        Some(
            detail_text(
                "h"@ + spec_int_text(prev + 1),
                "h"@ + spec_int_text(spec_heading_level(tokens, h) as int),
                None,
            ),
        ),
        None,
        None,
        None,
    )
}

/// What `md001` reports: the problems it appends to `old_errors`.
pub open spec fn md001_reported(p: &Params, old_errors: Seq<RuleError>, new_errors: Seq<RuleError>) -> bool {
    ({
        let has_title = has_front_matter_title(p.front_matter_lines@, p.config.entries@);
        let toks = p.tree.tokens@;
        let n = p.lines@.len() as int;
        let reported = md001_list(toks, has_title, n, heading_ids(toks).len() as int);
        let base = old_errors.len();
        &&& new_errors.len() == base + reported.len()
        &&& forall|j: int|
            0 <= j < reported.len() ==> md001_error(
                #[trigger] new_errors[base + j],
                toks,
                has_title,
                reported[j],
            )
    })
}

/// Report a heading more than one level deeper than the one before it (a
/// front-matter title counts as a level-1 heading before the first).
pub fn md001(p: &Params, emit: &mut Emit)
    requires
        params_ok(p),
    ensures
        appended(old(emit).errors@, final(emit).errors@, p.lines@.len() as int),
        md001_reported(p, old(emit).errors@, final(emit).errors@),
{
    let title_opt = p.config.opt_str("front_matter_title");
    let has_title = match title_opt {
        Some(t) => front_matter_has_title(p.front_matter_lines, Some(t.as_slice())),
        None => front_matter_has_title(p.front_matter_lines, None),
    };
    let ghost toks = p.tree.tokens@;
    let ghost ht = has_front_matter_title(p.front_matter_lines@, p.config.entries@);
    proof {
        assert(has_title == ht);
    }
    let tree = p.tree;
    let n = p.lines.len();
    let mut prev_level: i64 = if has_title {
        1
    } else {
        i64::MAX
    };
    let kinds: [Kind; 2] = [Kind::AtxHeading, Kind::SetextHeading];
    proof {
        assert(kinds@ =~= seq![Kind::AtxHeading, Kind::SetextHeading]);
    }
    let hs = tree.filter_idx(&kinds);
    let ghost e0 = emit.errors@;
    proof {
        lemma_appended_refl(e0, n as int);
    }
    let mut c: usize = 0;
    while c < hs.len()
        invariant
            c <= hs@.len(),
            params_ok(p),
            tree == p.tree,
            toks == tree.tokens@,
            hs@ == heading_ids(toks),
            n == p.lines@.len(),
            prev_level == md001_prev(toks, ht, c as int),
            forall|k: int| 0 <= k < hs@.len() ==> #[trigger] hs@[k] < tree.tokens@.len(),
            appended(e0, emit.errors@, n as int),
            emit.errors@.len() == e0.len() + md001_list(toks, ht, n as int, c as int).len(),
            forall|j: int|
                0 <= j < md001_list(toks, ht, n as int, c as int).len() ==> md001_error(
                    #[trigger] emit.errors@[e0.len() + j],
                    toks,
                    ht,
                    md001_list(toks, ht, n as int, c as int)[j],
                ),
        decreases hs@.len() - c,
    {
        let h = hs[c];
        let level = tree.heading_level(h) as i64;
        let ghost prev = md001_list(toks, ht, n as int, c as int);
        let ghost mid = emit.errors@;
        if level > prev_level {
            emit.add_detail_if_checked(
                n,
                tree.get(h).start_line,
                &h_level(prev_level + 1),
                &h_level(level),
                None,
                None,
                None,
                None,
            );
            proof {
                assert(appended(e0, emit.errors@, n as int));
            }
        }
        proof {
            let cur = md001_list(toks, ht, n as int, c + 1);
            if md001_reports(toks, ht, n as int, c as int) {
                assert(cur == prev.push(c as int));
                assert forall|j: int| 0 <= j < cur.len() implies md001_error(
                    #[trigger] emit.errors@[e0.len() + j],
                    toks,
                    ht,
                    cur[j],
                ) by {
                    if j < prev.len() {
                        assert(emit.errors@[e0.len() + j] == mid[e0.len() + j]);
                    }
                }
            } else {
                assert(cur == prev);
                assert(emit.errors@ == mid);
            }
        }
        prev_level = level;
        c += 1;
    }
}

} // verus!
