//! MD033 — no-inline-html.

use vstd::prelude::*;

use crate::config::names_view;
use crate::md::kind::Kind;
use crate::md::tokens::{Token, ancestor_of_type, filter_html_upto, html_tag_info, spec_html_tag_info};
use crate::text::{lowercase, str_to_lowercase};
use super::helpers::{first_break, first_line_len};
use super::md024::contains_text;
use super::options::{OptValue, lookup, strings_of};
use super::{
    Emit, Params, RuleError, appended, error_is, lemma_appended_refl, lemma_reported_start,
    lemma_reported_step, params_ok, picked, reported_as,
};

verus! {

/// The lowercased strings of the array option `key` (none when it is not
/// an array).
pub open spec fn lower_list_spec(cfg: Seq<(Vec<char>, OptValue)>, key: Seq<char>) -> Seq<Seq<char>> {
    match lookup(cfg, key) {
        Some(OptValue::List(items)) => lower_all(strings_of(items@)),
        _ => Seq::empty(),
    }
}

/// Each string lowercased.
pub open spec fn lower_all(v: Seq<Seq<char>>) -> Seq<Seq<char>> {
    v.map_values(|s: Seq<char>| str_to_lowercase(s))
}

/// The elements allowed in tables: `table_allowed_elements` when set,
/// else `allowed_elements`.
pub open spec fn table_allowed_spec(cfg: Seq<(Vec<char>, OptValue)>) -> Seq<Seq<char>> {
    if lookup(cfg, "table_allowed_elements"@) is Some {
        lower_list_spec(cfg, "table_allowed_elements"@)
    } else {
        lower_list_spec(cfg, "allowed_elements"@)
    }
}

/// The inline HTML tokens.
pub open spec fn html_text_ids(tokens: Seq<Token>) -> Seq<usize> {
    filter_html_upto(tokens, seq![Kind::HtmlText], tokens.len() as int)
}

/// Whether the `c`-th inline HTML token is reported: an opening tag whose
/// lowercased name is not allowed where it stands, on a line of the
/// document.
pub open spec fn md033_reports(tokens: Seq<Token>, cfg: Seq<(Vec<char>, OptValue)>, n: int, c: int) -> bool {
    let ti = html_text_ids(tokens)[c];
    let t = tokens[ti as int];
    match spec_html_tag_info(t.text@) {
        Some((close, name)) => {
            let lname = str_to_lowercase(name);
            let in_table = ancestor_of_type(tokens, ti as int, seq![Kind::Table]) is Some;
            &&& !close
            &&& in_table || !lower_list_spec(cfg, "allowed_elements"@).contains(lname)
            &&& !in_table || !table_allowed_spec(cfg).contains(lname)
            &&& 1 <= t.start_line <= n
        },
        None => false,
    }
}

/// The problem reported for the `c`-th inline HTML token: `Element: `
/// and the tag's name, over the tag's first line.
pub open spec fn md033_error(e: RuleError, tokens: Seq<Token>, c: int) -> bool {
    let t = tokens[html_text_ids(tokens)[c] as int];
    match spec_html_tag_info(t.text@) {
        Some((close, name)) => error_is(
            e,
            t.start_line,
            Some("Element: "@ + name),
            None,
            Some((t.start_column, first_break(t.text@, 0) as usize)),
            None,
        ),
        None => false,
    }
}

pub open spec fn md033_f(tokens: Seq<Token>, cfg: Seq<(Vec<char>, OptValue)>, n: int) -> spec_fn(int) -> bool {
    |c: int| md033_reports(tokens, cfg, n, c)
}

pub open spec fn md033_e(tokens: Seq<Token>) -> spec_fn(RuleError, int) -> bool {
    |e: RuleError, c: int| md033_error(e, tokens, c)
}

/// The lowercased strings of the array option `key`.
pub fn lower_list(p: &Params, key: &str) -> (r: Vec<Vec<char>>)
    ensures
        names_view(r@) == lower_list_spec(p.config.entries@, key@),
{
    let mut out: Vec<Vec<char>> = Vec::new();
    match p.config.opt_strings(key) {
        Some(items) => {
            let ghost want = lower_list_spec(p.config.entries@, key@);
            let ghost iv = names_view(items@);
            proof {
                assert(iv =~= items@.map_values(|v: Vec<char>| v@));
            }
            let mut i: usize = 0;
            while i < items.len()
                invariant
                    i <= items@.len(),
                    iv == names_view(items@),
                    want == lower_all(iv),
                    names_view(out@) == want.take(i as int),
                decreases items@.len() - i,
            {
                let l = lowercase(&items[i]);
                let ghost before = out@;
                out.push(l);
                proof {
                    assert(want.len() == iv.len());
                    assert(iv.len() == items@.len());
                    assert(names_view(before).len() == before.len());
                    assert(before.len() == i);
                    assert(iv[i as int] == items@[i as int]@);
                    assert(want[i as int] == str_to_lowercase(iv[i as int]));
                    let ov = names_view(out@);
                    assert forall|q: int| 0 <= q < i + 1 implies #[trigger] ov[q] == want.take(i + 1)[q] by {
                        if q < i {
                            assert(out@[q] == before[q]);
                            assert(names_view(before)[q] == want.take(i as int)[q]);
                        }
                    }
                    assert(names_view(out@) =~= want.take(i + 1));
                }
                i += 1;
            }
            proof {
                assert(want.take(i as int) =~= want);
            }
        },
        None => {
            proof {
                assert(names_view(out@) =~= Seq::<Seq<char>>::empty());
            }
        },
    }
    out
}

/// Whether `v` holds `x`, by views.
pub proof fn lemma_contains_views(v: Seq<Vec<char>>, x: Seq<char>)
    ensures
        (exists|k: int| 0 <= k < v.len() && (#[trigger] v[k])@ == x) == names_view(v).contains(x),
{
    let m = names_view(v);
    if exists|k: int| 0 <= k < v.len() && (#[trigger] v[k])@ == x {
        let k = choose|k: int| 0 <= k < v.len() && (#[trigger] v[k])@ == x;
        assert(m[k] == x);
    }
    if m.contains(x) {
        let k = choose|k: int| 0 <= k < m.len() && m[k] == x;
        assert(v[k]@ == x);
    }
}

/// What `md033` reports: the problems it appends to `old_errors`.
pub open spec fn md033_reported(p: &Params, old_errors: Seq<RuleError>, new_errors: Seq<RuleError>) -> bool {
    reported_as(
        old_errors,
        new_errors,
        picked(
            md033_f(p.tree.tokens@, p.config.entries@, p.lines@.len() as int),
            html_text_ids(p.tree.tokens@).len() as int,
        ),
        md033_e(p.tree.tokens@),
    )
}

/// Report HTML opening tags but those allowed (`allowed_elements`, or in
/// tables `table_allowed_elements`).
pub fn md033(p: &Params, emit: &mut Emit)
    requires
        params_ok(p),
    ensures
        appended(old(emit).errors@, final(emit).errors@, p.lines@.len() as int),
        md033_reported(p, old(emit).errors@, final(emit).errors@),
{
    let allowed = lower_list(p, "allowed_elements");
    let table_allowed = if p.config.get("table_allowed_elements").is_some() {
        lower_list(p, "table_allowed_elements")
    } else {
        lower_list(p, "allowed_elements")
    };
    let tree = p.tree;
    let n = p.lines.len();
    let kinds: [Kind; 1] = [Kind::HtmlText];
    let tkinds: [Kind; 1] = [Kind::Table];
    proof {
        assert(kinds@ =~= seq![Kind::HtmlText]);
        assert(tkinds@ =~= seq![Kind::Table]);
    }
    let hts = tree.filter_idx_html(&kinds);
    let ghost toks = tree.tokens@;
    let ghost cfg = p.config.entries@;
    let ghost f = md033_f(toks, cfg, n as int);
    let ghost err = md033_e(toks);
    let ghost e0 = emit.errors@;
    proof {
        lemma_appended_refl(e0, n as int);
        lemma_reported_start(e0, f, err);
    }
    let mut c: usize = 0;
    while c < hts.len()
        invariant
            c <= hts@.len(),
            params_ok(p),
            tree == p.tree,
            toks == tree.tokens@,
            cfg == p.config.entries@,
            n == p.lines@.len(),
            hts@ == html_text_ids(toks),
            tkinds@ == seq![Kind::Table],
            f == md033_f(toks, cfg, n as int),
            err == md033_e(toks),
            names_view(allowed@) == lower_list_spec(cfg, "allowed_elements"@),
            names_view(table_allowed@) == table_allowed_spec(cfg),
            forall|k: int| 0 <= k < hts@.len() ==> #[trigger] hts@[k] < tree.tokens@.len(),
            appended(e0, emit.errors@, n as int),
            reported_as(e0, emit.errors@, picked(f, c as int), err),
        decreases hts@.len() - c,
    {
        let ti = hts[c];
        let tok = tree.get(ti);
        let ghost mid = emit.errors@;
        match html_tag_info(&tok.text) {
            Some(info) => {
                if !info.close {
                    let name = lowercase(&info.name);
                    let in_table = tree.parent_of_type(ti, &tkinds).is_some();
                    let a1 = contains_text(&allowed, &name);
                    let a2 = contains_text(&table_allowed, &name);
                    proof {
                        lemma_contains_views(allowed@, name@);
                        lemma_contains_views(table_allowed@, name@);
                    }
                    if (in_table || !a1) && (!in_table || !a2) {
                        let len = first_line_len(&tok.text);
                        let mut d = super::lit("Element: ");
                        super::concat(&mut d, &info.name);
                        emit.add_checked(n, tok.start_line, Some(d), None, Some((tok.start_column, len)), None);
                    }
                }
            },
            None => {},
        }
        proof {
            assert(f(c as int) == md033_reports(toks, cfg, n as int, c as int));
            if f(c as int) {
                assert(err(emit.errors@.last(), c as int) == md033_error(emit.errors@.last(), toks, c as int));
            }
            lemma_reported_step(e0, mid, emit.errors@, f, err, c as int);
        }
        c += 1;
    }
}

} // verus!
