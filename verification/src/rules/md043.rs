//! MD043 — required-headings.

use vstd::prelude::*;

use crate::config::names_view;
use crate::md::kind::Kind;
use crate::md::tokens::{Token, spec_heading_level, spec_heading_text};
use crate::text::{lowercase, str_to_lowercase};
use super::helpers::spec_ellipsify;
use super::md003::is_text;
use super::md025::heading_ids;
use super::options::{OptValue, lookup, spec_opt_bool, strings_of};
use super::{Emit, Params, RuleError, appended, detail_text, error_is, lemma_appended_refl, params_ok, slice_eq};

verus! {

/// The `i`-th required heading; `[None]` past the end or when empty.
pub open spec fn md043_expected(req: Seq<Seq<char>>, i: int) -> Seq<char> {
    if 0 <= i < req.len() && req[i].len() > 0 {
        req[i]
    } else {
        "[None]"@
    }
}

/// Equal in the configured case sensitivity.
pub open spec fn md043_same(a: Seq<char>, b: Seq<char>, match_case: bool) -> bool {
    if match_case {
        a == b
    } else {
        str_to_lowercase(a) == str_to_lowercase(b)
    }
}

/// A heading as the structure states it: `#` once per level, a space and
/// its text.
pub open spec fn md043_actual(tokens: Seq<Token>, h: int) -> Seq<char> {
    Seq::new(spec_heading_level(tokens, h) as nat, |k: int| '#') + " "@ + spec_heading_text(tokens, h)
}

pub open spec fn sat_add(i: int) -> int {
    if i < usize::MAX {
        i + 1
    } else {
        i
    }
}

pub open spec fn sat_sub(i: int) -> int {
    if i > 0 {
        i - 1
    } else {
        0
    }
}

/// Where the match of the headings against the structure stands: the
/// position in the structure, whether any headings may come, and whether
/// a heading failed.
pub struct Md043St {
    pub i: int,
    pub match_any: bool,
    pub failed: bool,
}

/// One heading matched against the structure.
pub open spec fn md043_step(st: Md043St, req: Seq<Seq<char>>, mc: bool, actual: Seq<char>) -> Md043St {
    let expected = md043_expected(req, st.i);
    let i1 = sat_add(st.i);
    if expected == "*"@ {
        let i2 = sat_add(i1);
        if !md043_same(md043_expected(req, i1), actual, mc) {
            Md043St { i: sat_sub(i2), match_any: true, failed: false }
        } else {
            Md043St { i: i2, match_any: st.match_any, failed: false }
        }
    } else if expected == "+"@ {
        Md043St { i: i1, match_any: true, failed: false }
    } else if expected == "?"@ {
        Md043St { i: i1, match_any: st.match_any, failed: false }
    } else if md043_same(expected, actual, mc) {
        Md043St { i: i1, match_any: false, failed: false }
    } else if st.match_any {
        Md043St { i: sat_sub(i1), match_any: true, failed: false }
    } else {
        Md043St { i: i1, match_any: st.match_any, failed: true }
    }
}

/// The state before the `c`-th heading (unchanged once a heading failed).
pub open spec fn md043_before(tokens: Seq<Token>, req: Seq<Seq<char>>, mc: bool, c: int) -> Md043St
    decreases c,
{
    if c <= 0 {
        Md043St { i: 0, match_any: false, failed: false }
    } else {
        let st = md043_before(tokens, req, mc, c - 1);
        if st.failed {
            st
        } else {
            md043_step(st, req, mc, md043_actual(tokens, heading_ids(tokens)[c - 1] as int))
        }
    }
}

/// The heading that failed, if one did.
pub open spec fn md043_failed_at(tokens: Seq<Token>, req: Seq<Seq<char>>, mc: bool, c: int) -> Option<int>
    decreases c,
{
    if c <= 0 {
        None
    } else {
        let before = md043_before(tokens, req, mc, c - 1);
        if !before.failed && md043_before(tokens, req, mc, c).failed {
            Some(c - 1)
        } else {
            md043_failed_at(tokens, req, mc, c - 1)
        }
    }
}

/// The required headings, when `headings` is an array.
pub open spec fn md043_required(cfg: Seq<(Vec<char>, OptValue)>) -> Option<Seq<Seq<char>>> {
    match lookup(cfg, "headings"@) {
        Some(OptValue::List(items)) => Some(strings_of(items@)),
        _ => None,
    }
}

/// Whether a required heading is missing at the end: more than one entry
/// is left, or one that is not `*`; and there were headings or some entry
/// is not `*`.
pub open spec fn md043_missing(req: Seq<Seq<char>>, i: int, any_headings: bool) -> bool {
    let len = req.len() as int;
    &&& len > i
    &&& len - i > 1 || req[i] != "*"@
    &&& any_headings || exists|k: int| 0 <= k < len && req[k] != "*"@
    &&& 0 <= i
}

/// What MD043 reports: nothing without a structure; the first heading out
/// of it (expected and actual heading as detail); or a required heading
/// missing at the end (on the last line, the heading as context).
pub open spec fn md043_result(
    old: Seq<RuleError>,
    new: Seq<RuleError>,
    tokens: Seq<Token>,
    cfg: Seq<(Vec<char>, OptValue)>,
    n: int,
) -> bool {
    match md043_required(cfg) {
        None => new == old,
        Some(req) => {
            let mc = spec_opt_bool(lookup(cfg, "match_case"@), false);
            let m = heading_ids(tokens).len() as int;
            let fin = md043_before(tokens, req, mc, m);
            match md043_failed_at(tokens, req, mc, m) {
                Some(c) => {
                    let h = heading_ids(tokens)[c] as int;
                    let line = tokens[h].start_line;
                    if 1 <= line <= n {
                        &&& new.len() == old.len() + 1
                        &&& new.drop_last() == old
                        &&& error_is(
                            new.last(),
                            line,
                            Some(
                                detail_text(
                                    md043_expected(req, md043_before(tokens, req, mc, c).i),
                                    md043_actual(tokens, h),
                                    None,
                                ),
                            ),
                            None,
                            None,
                            None,
                        )
                    } else {
                        new == old
                    }
                },
                None => if md043_missing(req, fin.i, m > 0) && 1 <= n {
                    &&& new.len() == old.len() + 1
                    &&& new.drop_last() == old
                    &&& error_is(new.last(), n as usize, None, Some(spec_ellipsify(req[fin.i], false, false)), None, None)
                } else {
                    new == old
                },
            }
        },
    }
}

/// The `i`-th required heading, `[None]` past the end or when empty.
fn expected_at(required: &Vec<Vec<char>>, i: usize) -> (r: Vec<char>)
    ensures
        r@ == md043_expected(names_view(required@), i as int),
{
    if i < required.len() && required[i].len() > 0 {
        let r = crate::text::slice_vec(&required[i], 0, required[i].len());
        proof {
            assert(r@ =~= required@[i as int]@);
            assert(names_view(required@)[i as int] == required@[i as int]@);
        }
        r
    } else {
        proof {
            if i < required.len() {
                assert(names_view(required@)[i as int] == required@[i as int]@);
            }
        }
        super::lit("[None]")
    }
}

/// Compare in the configured case sensitivity.
fn same(a: &[char], b: &[char], match_case: bool) -> (r: bool)
    ensures
        r == md043_same(a@, b@, match_case),
{
    if match_case {
        slice_eq(a, b)
    } else {
        slice_eq(&lowercase(a), &lowercase(b))
    }
}

proof fn lemma_failed_at_none(tokens: Seq<Token>, req: Seq<Seq<char>>, mc: bool, c: int)
    requires
        !md043_before(tokens, req, mc, c).failed,
    ensures
        md043_failed_at(tokens, req, mc, c) is None,
    decreases c,
{
    if c > 0 {
        let st = md043_before(tokens, req, mc, c - 1);
        if st.failed {
            assert(md043_before(tokens, req, mc, c) == st);
        }
        lemma_failed_at_none(tokens, req, mc, c - 1);
    }
}

proof fn lemma_failed_stays(tokens: Seq<Token>, req: Seq<Seq<char>>, mc: bool, c: int, d: int)
    requires
        0 < c <= d,
        !md043_before(tokens, req, mc, c - 1).failed,
        md043_before(tokens, req, mc, c).failed,
    ensures
        md043_before(tokens, req, mc, d) == md043_before(tokens, req, mc, c),
        md043_failed_at(tokens, req, mc, d) == Some(c - 1),
    decreases d - c,
{
    if d > c {
        lemma_failed_stays(tokens, req, mc, c, d - 1);
    } else {
        lemma_failed_at_none(tokens, req, mc, c - 1);
    }
}

/// What `md043` reports: the problems it appends to `old_errors`.
pub open spec fn md043_reported(p: &Params, old_errors: Seq<RuleError>, new_errors: Seq<RuleError>) -> bool {
    md043_result(old_errors, new_errors, p.tree.tokens@, p.config.entries@, p.lines@.len() as int)
}

/// Report the first heading out of the required structure (`headings`:
/// `# Text` entries, `*` for any number of headings, `+` for at least
/// one, `?` for exactly one), or, at the end, a required heading missing.
pub fn md043(p: &Params, emit: &mut Emit)
    requires
        params_ok(p),
    ensures
        appended(old(emit).errors@, final(emit).errors@, p.lines@.len() as int),
        md043_reported(p, old(emit).errors@, final(emit).errors@),
{
    let tree = p.tree;
    let n = p.lines.len();
    let ghost e0 = emit.errors@;
    let ghost toks = tree.tokens@;
    let ghost cfg = p.config.entries@;
    proof {
        lemma_appended_refl(e0, n as int);
    }
    let required = match p.config.opt_strings("headings") {
        Some(v) => v,
        None => return,
    };
    match p.config.get("headings") {
        Some(OptValue::List(_)) => {},
        _ => return,
    }
    let ghost req = names_view(required@);
    proof {
        assert(req =~= required@.map_values(|v: Vec<char>| v@));
        assert(md043_required(cfg) == Some(req));
    }
    let match_case = p.config.opt_bool("match_case", false);
    let ghost mc = match_case;
    let mut i: usize = 0;
    let mut match_any = false;
    let mut has_error = false;
    let kinds: [Kind; 2] = [Kind::AtxHeading, Kind::SetextHeading];
    proof {
        assert(kinds@ =~= seq![Kind::AtxHeading, Kind::SetextHeading]);
    }
    let hs = tree.filter_idx(&kinds);
    let ghost m = hs@.len() as int;
    let mut c: usize = 0;
    while c < hs.len() && !has_error
        invariant
            c <= hs@.len(),
            params_ok(p),
            tree == p.tree,
            toks == tree.tokens@,
            n == p.lines@.len(),
            hs@ == heading_ids(toks),
            req == names_view(required@),
            mc == match_case,
            !has_error ==> md043_before(toks, req, mc, c as int) == (Md043St { i: i as int, match_any, failed: false }),
            has_error ==> 0 < c && !md043_before(toks, req, mc, c - 1).failed && md043_before(toks, req, mc, c as int).failed,
            has_error ==> md043_before(toks, req, mc, c as int).i == i,
            forall|k: int| 0 <= k < hs@.len() ==> #[trigger] hs@[k] < tree.tokens@.len(),
            appended(e0, emit.errors@, n as int),
            !has_error ==> emit.errors@ == e0,
            has_error ==> ({
                let h = heading_ids(toks)[c - 1] as int;
                let line = toks[h].start_line;
                if 1 <= line <= n {
                    &&& emit.errors@.len() == e0.len() + 1
                    &&& emit.errors@.drop_last() == e0
                    &&& error_is(
                        emit.errors@.last(),
                        line,
                        Some(detail_text(md043_expected(req, md043_before(toks, req, mc, c - 1).i), md043_actual(toks, h), None)),
                        None,
                        None,
                        None,
                    )
                } else {
                    emit.errors@ == e0
                }
            }),
        decreases hs@.len() - c,
    {
        let h = hs[c];
        let heading_text = tree.heading_text(h);
        let level = tree.heading_level(h);
        let mut actual: Vec<char> = Vec::new();
        let mut l: usize = 0;
        while l < level
            invariant
                l <= level,
                actual@ == Seq::new(l as nat, |k: int| '#'),
            decreases level - l,
        {
            actual.push('#');
            l += 1;
            proof {
                assert(actual@ =~= Seq::new(l as nat, |k: int| '#'));
            }
        }
        actual.push(' ');
        super::concat(&mut actual, &heading_text);
        proof {
            reveal_strlit(" ");
            assert(actual@ =~= md043_actual(toks, h as int));
        }
        let ghost st = Md043St { i: i as int, match_any, failed: false };
        let expected = expected_at(&required, i);
        i = i.saturating_add(1);
        if is_text(&expected, "*") {
            let next_expected = expected_at(&required, i);
            i = i.saturating_add(1);
            if !same(&next_expected, &actual, match_case) {
                match_any = true;
                i = i.saturating_sub(1);
            }
        } else if is_text(&expected, "+") {
            match_any = true;
        } else if is_text(&expected, "?") {
        } else if same(&expected, &actual, match_case) {
            match_any = false;
        } else if match_any {
            i = i.saturating_sub(1);
        } else {
            emit.add_detail_if_checked(n, tree.get(h).start_line, &expected, &actual, None, None, None, None);
            has_error = true;
            proof {
                if match_case {
                    assert(expected@ != actual@);
                } else {
                    assert(expected@ != actual@);
                }
            }
        }
        proof {
            assert(md043_step(st, req, mc, actual@) == md043_before(toks, req, mc, c + 1));
        }
        c += 1;
    }
    let len = required.len();
    if has_error {
        proof {
            lemma_failed_stays(toks, req, mc, c as int, m);
        }
        return;
    }
    proof {
        lemma_failed_at_none(toks, req, mc, m);
    }
    let extra_gt1 = len > i && len - i > 1;
    let extra_eq1 = len > i && len - i == 1;
    let next_not_star = i < len && !is_text(&required[i], "*");
    proof {
        if i < len {
            assert(req[i as int] == required@[i as int]@);
        }
    }
    let mut all_star = true;
    let mut k: usize = 0;
    while k < len
        invariant
            k <= len,
            len == required@.len(),
            req == names_view(required@),
            all_star == forall|q: int| 0 <= q < k ==> req[q] == "*"@,
        decreases len - k,
    {
        proof {
            assert(req[k as int] == required@[k as int]@);
        }
        if !is_text(&required[k], "*") {
            all_star = false;
        }
        k += 1;
    }
    let any_headings = hs.len() > 0;
    if (extra_gt1 || (extra_eq1 && next_not_star)) && (any_headings || !all_star) {
        if i < len && n >= 1 {
            proof {
                assert(req[i as int] == required@[i as int]@);
            }
            emit.add_context_checked(n, n, &required[i], false, false, None, None);
        }
    }
    proof {
        assert(md043_before(toks, req, mc, m).i == i);
    }
}

} // verus!
