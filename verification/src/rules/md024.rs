//! MD024 — no-duplicate-heading.

use vstd::prelude::*;

use crate::config::names_view;
use crate::md::kind::Kind;
use crate::md::tokens::{Token, spec_heading_level, spec_heading_text};
use super::helpers::{spec_ellipsify, spec_trim, trim};
use super::md025::heading_ids;
use super::md033::lemma_contains_views;
use super::options::{lookup, spec_opt_bool};
use super::{
    Emit, Params, RuleError, appended, error_is, lemma_appended_refl, lemma_reported_start,
    lemma_reported_step, params_ok, picked, reported_as, slice_eq,
};

verus! {

/// Whether `v` holds `x`.
pub fn contains_text(v: &Vec<Vec<char>>, x: &[char]) -> (r: bool)
    ensures
        r == exists|k: int| 0 <= k < v@.len() && (#[trigger] v@[k])@ == x@,
{
    let mut k: usize = 0;
    while k < v.len()
        invariant
            k <= v@.len(),
            forall|q: int| 0 <= q < k ==> (#[trigger] v@[q])@ != x@,
        decreases v@.len() - k,
    {
        if slice_eq(&v[k], x) {
            return true;
        }
        k += 1;
    }
    false
}

/// What MD024 remembers: the heading texts seen, by level (all at index 1
/// unless `siblings_only`), and the level of the last heading.
pub struct Md024State {
    pub known: Seq<Seq<Seq<char>>>,
    pub last: int,
}

/// `known` with the levels in `(lo, hi]` forgotten.
pub open spec fn forget_levels(known: Seq<Seq<Seq<char>>>, lo: int, hi: int) -> Seq<Seq<Seq<char>>> {
    Seq::new(known.len(), |l: int| if lo < l <= hi { Seq::empty() } else { known[l] })
}

/// The texts seen, by their characters.
pub open spec fn known_view(k: Seq<Vec<Vec<char>>>) -> Seq<Seq<Seq<char>>> {
    k.map_values(|row: Vec<Vec<char>>| names_view(row@))
}

/// The `c`-th heading.
pub open spec fn md024_heading(tokens: Seq<Token>, c: int) -> int {
    heading_ids(tokens)[c] as int
}

/// The state once the `c`-th heading's level is taken into account: with
/// `siblings_only`, the levels between the last heading's and this one's
/// are forgotten.
pub open spec fn md024_cleared(st: Md024State, tokens: Seq<Token>, so: bool, c: int) -> Md024State {
    if so {
        let lvl = spec_heading_level(tokens, md024_heading(tokens, c)) as int;
        let lo = if st.last < lvl { st.last } else { lvl };
        let hi = if st.last < lvl { lvl } else { st.last };
        Md024State { known: forget_levels(st.known, lo, hi), last: lvl }
    } else {
        st
    }
}

/// Where the `c`-th heading's text is looked for.
pub open spec fn md024_idx(tokens: Seq<Token>, so: bool, c: int) -> int {
    if so {
        spec_heading_level(tokens, md024_heading(tokens, c)) as int
    } else {
        1
    }
}

/// The state before the `c`-th heading.
pub open spec fn md024_before(tokens: Seq<Token>, so: bool, c: int) -> Md024State
    decreases c,
{
    if c <= 0 {
        Md024State { known: Seq::new(8, |l: int| Seq::empty()), last: 1 }
    } else {
        let st = md024_cleared(md024_before(tokens, so, c - 1), tokens, so, c - 1);
        let idx = md024_idx(tokens, so, c - 1);
        let text = spec_heading_text(tokens, md024_heading(tokens, c - 1));
        if st.known[idx].contains(text) {
            st
        } else {
            Md024State { known: st.known.update(idx, st.known[idx].push(text)), last: st.last }
        }
    }
}

/// Whether the `c`-th heading repeats a text seen where it is looked for.
pub open spec fn md024_reports(tokens: Seq<Token>, so: bool, n: int, c: int) -> bool {
    let st = md024_cleared(md024_before(tokens, so, c), tokens, so, c);
    &&& st.known[md024_idx(tokens, so, c)].contains(spec_heading_text(tokens, md024_heading(tokens, c)))
    &&& 1 <= tokens[md024_heading(tokens, c)].start_line <= n
}

/// The problem reported for the `c`-th heading: its trimmed text as
/// context.
pub open spec fn md024_error(e: RuleError, tokens: Seq<Token>, c: int) -> bool {
    let h = md024_heading(tokens, c);
    error_is(e, tokens[h].start_line, None, Some(spec_ellipsify(spec_trim(spec_heading_text(tokens, h)), false, false)), None, None)
}

pub open spec fn md024_f(tokens: Seq<Token>, so: bool, n: int) -> spec_fn(int) -> bool {
    |c: int| md024_reports(tokens, so, n, c)
}

pub open spec fn md024_e(tokens: Seq<Token>) -> spec_fn(RuleError, int) -> bool {
    |e: RuleError, c: int| md024_error(e, tokens, c)
}

/// What `md024` reports: the problems it appends to `old_errors`.
pub open spec fn md024_reported(p: &Params, old_errors: Seq<RuleError>, new_errors: Seq<RuleError>) -> bool {
    reported_as(
        old_errors,
        new_errors,
        picked(
            md024_f(
                p.tree.tokens@,
                spec_opt_bool(lookup(p.config.entries@, "siblings_only"@), false),
                p.lines@.len() as int,
            ),
            heading_ids(p.tree.tokens@).len() as int,
        ),
        md024_e(p.tree.tokens@),
    )
}

/// Report a heading whose text repeats an earlier heading's; with
/// `siblings_only`, only among headings under the same parent heading.
pub fn md024(p: &Params, emit: &mut Emit)
    requires
        params_ok(p),
    ensures
        appended(old(emit).errors@, final(emit).errors@, p.lines@.len() as int),
        md024_reported(p, old(emit).errors@, final(emit).errors@),
{
    let siblings_only = p.config.opt_bool("siblings_only", false);
    let tree = p.tree;
    let n = p.lines.len();
    let ghost toks = tree.tokens@;
    let ghost so = siblings_only;
    // known[level]: texts seen at that level (index 1 when not by level).
    let mut known: Vec<Vec<Vec<char>>> = Vec::new();
    let mut q: usize = 0;
    while q < 8
        invariant
            q <= 8,
            known@.len() == q,
            forall|l: int| 0 <= l < q ==> (#[trigger] known@[l])@.len() == 0,
        decreases 8 - q,
    {
        known.push(Vec::new());
        q += 1;
    }
    proof {
        assert forall|l: int| 0 <= l < 8 implies #[trigger] known_view(known@)[l] == md024_before(toks, so, 0).known[l] by {
            assert(known_view(known@)[l] == names_view(known@[l]@));
            assert(names_view(known@[l]@) =~= Seq::<Seq<char>>::empty());
        }
        assert(known_view(known@) =~= md024_before(toks, so, 0).known);
    }
    let mut last_level: usize = 1;
    let kinds: [Kind; 2] = [Kind::AtxHeading, Kind::SetextHeading];
    proof {
        assert(kinds@ =~= seq![Kind::AtxHeading, Kind::SetextHeading]);
    }
    let hs = tree.filter_idx(&kinds);
    let ghost f = md024_f(toks, so, n as int);
    let ghost err = md024_e(toks);
    let ghost e0 = emit.errors@;
    proof {
        lemma_appended_refl(e0, n as int);
        lemma_reported_start(e0, f, err);
    }
    let mut c: usize = 0;
    while c < hs.len()
        invariant
            c <= hs@.len(),
            params_ok(p),
            tree == p.tree,
            toks == tree.tokens@,
            so == siblings_only,
            n == p.lines@.len(),
            hs@ == heading_ids(toks),
            known@.len() == 8,
            1 <= last_level <= 6,
            known_view(known@) == md024_before(toks, so, c as int).known,
            last_level == md024_before(toks, so, c as int).last,
            f == md024_f(toks, so, n as int),
            err == md024_e(toks),
            forall|k: int| 0 <= k < hs@.len() ==> #[trigger] hs@[k] < tree.tokens@.len(),
            appended(e0, emit.errors@, n as int),
            reported_as(e0, emit.errors@, picked(f, c as int), err),
        decreases hs@.len() - c,
    {
        let h = hs[c];
        let ghost mid = emit.errors@;
        let ghost st = md024_before(toks, so, c as int);
        let text = tree.heading_text(h);
        let idx = if siblings_only {
            let new_level = tree.heading_level(h);
            let ghost k0 = known_view(known@);
            let ghost l0 = last_level as int;
            if last_level < new_level {
                while last_level < new_level
                    invariant
                        known@.len() == 8,
                        l0 <= last_level <= new_level <= 6,
                        1 <= l0,
                        known_view(known@) == forget_levels(k0, l0, last_level as int),
                        k0.len() == 8,
                    decreases 6 - last_level,
                {
                    last_level += 1;
                    let ghost before = known_view(known@);
                    known.set(last_level, Vec::new());
                    proof {
                        assert forall|l: int| 0 <= l < 8 implies #[trigger] known_view(known@)[l] == forget_levels(
                            k0,
                            l0,
                            last_level as int,
                        )[l] by {
                            assert(known_view(known@)[l] == names_view(known@[l]@));
                            if l == last_level {
                                assert(names_view(known@[l]@) =~= Seq::<Seq<char>>::empty());
                            } else {
                                assert(before[l] == names_view(known@[l]@));
                            }
                        }
                        assert(known_view(known@) =~= forget_levels(k0, l0, last_level as int));
                    }
                }
            } else {
                proof {
                    assert(known_view(known@) =~= forget_levels(k0, l0, l0));
                }
                while last_level > new_level
                    invariant
                        known@.len() == 8,
                        1 <= new_level <= last_level <= l0 <= 6,
                        known_view(known@) == forget_levels(k0, last_level as int, l0),
                        k0.len() == 8,
                    decreases last_level,
                {
                    let ghost before = known_view(known@);
                    known.set(last_level, Vec::new());
                    last_level -= 1;
                    proof {
                        assert forall|l: int| 0 <= l < 8 implies #[trigger] known_view(known@)[l] == forget_levels(
                            k0,
                            last_level as int,
                            l0,
                        )[l] by {
                            assert(known_view(known@)[l] == names_view(known@[l]@));
                            if l == last_level + 1 {
                                assert(names_view(known@[l]@) =~= Seq::<Seq<char>>::empty());
                            } else {
                                assert(before[l] == names_view(known@[l]@));
                            }
                        }
                        assert(known_view(known@) =~= forget_levels(k0, last_level as int, l0));
                    }
                }
            }
            proof {
                if l0 >= new_level {
                    assert(last_level == new_level);
                }
            }
            new_level
        } else {
            1
        };
        proof {
            assert(known_view(known@) == md024_cleared(st, toks, so, c as int).known);
            assert(idx == md024_idx(toks, so, c as int));
        }
        let ghost kv = known_view(known@);
        let found = contains_text(&known[idx], &text);
        proof {
            lemma_contains_views(known@[idx as int]@, text@);
            assert(kv[idx as int] == names_view(known@[idx as int]@));
        }
        if found {
            emit.add_context_checked(n, tree.get(h).start_line, &trim(&text), false, false, None, None);
        } else {
            let mut row = known.remove(idx);
            let ghost rv = row@;
            row.push(text);
            known.insert(idx, row);
            proof {
                assert(names_view(row@) =~= names_view(rv).push(text@));
                assert(known_view(known@) =~= kv.update(idx as int, kv[idx as int].push(text@)));
            }
        }
        proof {
            assert(f(c as int) == md024_reports(toks, so, n as int, c as int));
            if f(c as int) {
                assert(err(emit.errors@.last(), c as int) == md024_error(emit.errors@.last(), toks, c as int));
            }
            lemma_reported_step(e0, mid, emit.errors@, f, err, c as int);
        }
        c += 1;
    }
}

} // verus!
