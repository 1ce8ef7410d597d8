//! MD030 — list-marker-space.

use vstd::prelude::*;

use super::RuleError;

use crate::md::kind::Kind;
use crate::md::tokens::{Token, filter_idx_upto, filter_kinds};
use super::md005::{spaces, spec_spaces};
use super::options::{OptValue, lookup, spec_opt_i64};
use super::{
    Emit, FixInfo, FixV, Params, Report, appended, detail_text, int_text, lemma_appended_refl,
    lemma_reports_concat, lemma_reports_push, lemma_reports_start, params_ok, report_of, reports_are,
    spec_int_text, usize_text,
};

verus! {

/// The lists.
pub open spec fn list_ids(tokens: Seq<Token>) -> Seq<usize> {
    filter_idx_upto(tokens, seq![Kind::ListOrdered, Kind::ListUnordered], tokens.len() as int)
}

/// The direct children of token `i` of kind `k`.
pub open spec fn children_kind(tokens: Seq<Token>, i: int, k: Kind) -> Seq<usize> {
    filter_kinds(tokens, tokens[i].children@, seq![k], tokens[i].children@.len() as int)
}

/// The spaces expected after the markers of list `l`: the `single`
/// setting when it has one line per item, else the `multi` one.
pub open spec fn md030_expected(tokens: Seq<Token>, cfg: Seq<(Vec<char>, OptValue)>, l: int) -> i64 {
    let lt = tokens[l];
    let single = lt.end_line >= lt.start_line && lt.end_line - lt.start_line < usize::MAX && lt.end_line
        - lt.start_line + 1 == children_kind(tokens, l, Kind::ListItemPrefix).len();
    if lt.kind == Kind::ListOrdered {
        if single {
            spec_opt_i64(lookup(cfg, "ol_single"@), 1)
        } else {
            spec_opt_i64(lookup(cfg, "ol_multi"@), 1)
        }
    } else if single {
        spec_opt_i64(lookup(cfg, "ul_single"@), 1)
    } else {
        spec_opt_i64(lookup(cfg, "ul_multi"@), 1)
    }
}

/// The problem for a marker's whitespace `wt` of another width than
/// `expected`: the marker as range, and a fix writing the expected
/// spaces.
pub open spec fn md030_report(wt: Token, pt: Token, expected: i64) -> Report {
    let actual = (wt.end_column - wt.start_column) as usize;
    let count: usize = if expected < 0 {
        0
    } else {
        expected as usize
    };
    Report {
        line: wt.start_line,
        detail: Some(detail_text(spec_int_text(expected as int), spec_int_text(actual as int), None)),
        context: None,
        range: Some(
            (pt.start_column, if pt.end_column >= pt.start_column {
                (pt.end_column - pt.start_column) as usize
            } else {
                0
            }),
        ),
        fix: Some(
            FixV {
                line_number: None,
                edit_column: Some(wt.start_column),
                delete_count: Some(actual as i64),
                insert_text: Some(spec_spaces(count as nat)),
            },
        ),
    }
}

/// The problems for the first `w` whitespaces `ws` of prefix `pt`.
pub open spec fn md030_ws(tokens: Seq<Token>, n: int, pt: Token, ws: Seq<usize>, expected: i64, w: int) -> Seq<Report>
    decreases w,
{
    if w <= 0 {
        Seq::empty()
    } else {
        let prev = md030_ws(tokens, n, pt, ws, expected, w - 1);
        let wt = tokens[ws[w - 1] as int];
        if wt.end_column >= wt.start_column && 1 <= wt.start_line <= n && spec_int_text(expected as int)
            != spec_int_text(wt.end_column - wt.start_column) {
            prev.push(md030_report(wt, pt, expected))
        } else {
            prev
        }
    }
}

/// The problems for the first `k` prefixes `ps` of a list.
pub open spec fn md030_prefixes(tokens: Seq<Token>, n: int, ps: Seq<usize>, expected: i64, k: int) -> Seq<Report>
    decreases k,
{
    if k <= 0 {
        Seq::empty()
    } else {
        let p = ps[k - 1] as int;
        let ws = children_kind(tokens, p, Kind::ListItemPrefixWhitespace);
        md030_prefixes(tokens, n, ps, expected, k - 1) + md030_ws(tokens, n, tokens[p], ws, expected, ws.len() as int)
    }
}

/// The problems for the first `c` lists.
pub open spec fn md030_upto(tokens: Seq<Token>, cfg: Seq<(Vec<char>, OptValue)>, n: int, c: int) -> Seq<Report>
    decreases c,
{
    if c <= 0 {
        Seq::empty()
    } else {
        let l = list_ids(tokens)[c - 1] as int;
        let ps = children_kind(tokens, l, Kind::ListItemPrefix);
        md030_upto(tokens, cfg, n, c - 1) + md030_prefixes(tokens, n, ps, md030_expected(tokens, cfg, l), ps.len() as int)
    }
}

/// What `md030` reports: the problems it appends to `old_errors`.
pub open spec fn md030_reported(p: &Params, old_errors: Seq<RuleError>, new_errors: Seq<RuleError>) -> bool {
    reports_are(
        old_errors,
        new_errors,
        md030_upto(p.tree.tokens@, p.config.entries@, p.lines@.len() as int, list_ids(p.tree.tokens@).len() as int),
    )
}

/// Report list markers followed by another number of spaces than
/// configured: `ul_single`/`ol_single` when every item of the list is one
/// line, else `ul_multi`/`ol_multi`. The fix writes the expected spaces.
pub fn md030(p: &Params, emit: &mut Emit)
    requires
        params_ok(p),
    ensures
        appended(old(emit).errors@, final(emit).errors@, p.lines@.len() as int),
        md030_reported(p, old(emit).errors@, final(emit).errors@),
{
    let ul_single = p.config.opt_i64("ul_single", 1);
    let ol_single = p.config.opt_i64("ol_single", 1);
    let ul_multi = p.config.opt_i64("ul_multi", 1);
    let ol_multi = p.config.opt_i64("ol_multi", 1);
    let tree = p.tree;
    let n = p.lines.len();
    let kinds: [Kind; 2] = [Kind::ListOrdered, Kind::ListUnordered];
    let pkinds: [Kind; 1] = [Kind::ListItemPrefix];
    let wkinds: [Kind; 1] = [Kind::ListItemPrefixWhitespace];
    proof {
        assert(kinds@ =~= seq![Kind::ListOrdered, Kind::ListUnordered]);
        assert(pkinds@ =~= seq![Kind::ListItemPrefix]);
        assert(wkinds@ =~= seq![Kind::ListItemPrefixWhitespace]);
    }
    let lists = tree.filter_idx(&kinds);
    let ghost toks = tree.tokens@;
    let ghost cfg = p.config.entries@;
    let ghost e0 = emit.errors@;
    proof {
        lemma_appended_refl(e0, n as int);
        lemma_reports_start(e0);
    }
    let mut c: usize = 0;
    while c < lists.len()
        invariant
            c <= lists@.len(),
            params_ok(p),
            tree == p.tree,
            toks == tree.tokens@,
            cfg == p.config.entries@,
            n == p.lines@.len(),
            lists@ == list_ids(toks),
            pkinds@ == seq![Kind::ListItemPrefix],
            wkinds@ == seq![Kind::ListItemPrefixWhitespace],
            ul_single == spec_opt_i64(lookup(cfg, "ul_single"@), 1),
            ol_single == spec_opt_i64(lookup(cfg, "ol_single"@), 1),
            ul_multi == spec_opt_i64(lookup(cfg, "ul_multi"@), 1),
            ol_multi == spec_opt_i64(lookup(cfg, "ol_multi"@), 1),
            forall|k: int| 0 <= k < lists@.len() ==> #[trigger] lists@[k] < tree.tokens@.len(),
            appended(e0, emit.errors@, n as int),
            reports_are(e0, emit.errors@, md030_upto(toks, cfg, n as int, c as int)),
        decreases lists@.len() - c,
    {
        let list = lists[c];
        let ghost mid = emit.errors@;
        proof {
            lemma_reports_start(mid);
        }
        let lt = tree.get(list);
        let ordered = lt.kind == Kind::ListOrdered;
        let prefixes = tree.children_of(list, &pkinds);
        proof {
            tree.lemma_node(list as int);
        }
        let all_single = lt.end_line >= lt.start_line && lt.end_line - lt.start_line < usize::MAX
            && lt.end_line - lt.start_line + 1 == prefixes.len();
        let expected = if ordered {
            if all_single {
                ol_single
            } else {
                ol_multi
            }
        } else if all_single {
            ul_single
        } else {
            ul_multi
        };
        proof {
            assert(prefixes@ == children_kind(toks, list as int, Kind::ListItemPrefix));
            assert(expected == md030_expected(toks, cfg, list as int));
        }
        let mut k: usize = 0;
        while k < prefixes.len()
            invariant
                k <= prefixes@.len(),
                params_ok(p),
                tree == p.tree,
                toks == tree.tokens@,
                n == p.lines@.len(),
                wkinds@ == seq![Kind::ListItemPrefixWhitespace],
                forall|q: int| 0 <= q < prefixes@.len() ==> #[trigger] prefixes@[q] < tree.tokens@.len(),
                appended(e0, emit.errors@, n as int),
                reports_are(mid, emit.errors@, md030_prefixes(toks, n as int, prefixes@, expected, k as int)),
            decreases prefixes@.len() - k,
        {
            let prefix = prefixes[k];
            let ghost m2 = emit.errors@;
            proof {
                lemma_reports_start(m2);
            }
            let pt = tree.get(prefix);
            let range_len = if pt.end_column >= pt.start_column {
                pt.end_column - pt.start_column
            } else {
                0
            };
            let range = (pt.start_column, range_len);
            let ws = tree.children_of(prefix, &wkinds);
            proof {
                tree.lemma_node(prefix as int);
                assert(ws@ == children_kind(toks, prefix as int, Kind::ListItemPrefixWhitespace));
            }
            let mut w: usize = 0;
            while w < ws.len()
                invariant
                    w <= ws@.len(),
                    params_ok(p),
                    tree == p.tree,
                    toks == tree.tokens@,
                    n == p.lines@.len(),
                    prefix < tree.tokens@.len(),
                    pt == &toks[prefix as int],
                    range == (pt.start_column, range_len),
                    range_len == (if pt.end_column >= pt.start_column {
                        (pt.end_column - pt.start_column) as usize
                    } else {
                        0
                    }),
                    forall|q: int| 0 <= q < ws@.len() ==> #[trigger] ws@[q] < tree.tokens@.len(),
                    appended(e0, emit.errors@, n as int),
                    reports_are(m2, emit.errors@, md030_ws(toks, n as int, *pt, ws@, expected, w as int)),
                decreases ws@.len() - w,
            {
                let wt = tree.get(ws[w]);
                let ghost m3 = emit.errors@;
                if wt.end_column >= wt.start_column {
                    let actual = wt.end_column - wt.start_column;
                    let count: usize = if expected < 0 {
                        0
                    } else {
                        expected as usize
                    };
                    let et = int_text(expected);
                    let at = usize_text(actual);
                    let sp = spaces(count);
                    emit.add_detail_if_checked(
                        n,
                        wt.start_line,
                        &et,
                        &at,
                        None,
                        None,
                        Some(range),
                        Some(
                            FixInfo {
                                line_number: None,
                                edit_column: Some(wt.start_column),
                                delete_count: Some(actual as i64),
                                insert_text: Some(sp),
                            },
                        ),
                    );
                    proof {
                        if emit.errors@ != m3 {
                            lemma_reports_push(m2, m3, md030_ws(toks, n as int, *pt, ws@, expected, w as int), emit.errors@.last());
                            assert(report_of(emit.errors@.last()) == md030_report(*wt, *pt, expected));
                        }
                    }
                }
                w += 1;
            }
            proof {
                lemma_reports_concat(mid, m2, emit.errors@, md030_prefixes(toks, n as int, prefixes@, expected, k as int), md030_ws(toks, n as int, *pt, ws@, expected, ws@.len() as int));
            }
            k += 1;
        }
        proof {
            lemma_reports_concat(e0, mid, emit.errors@, md030_upto(toks, cfg, n as int, c as int), md030_prefixes(toks, n as int, prefixes@, expected, prefixes@.len() as int));
        }
        c += 1;
    }
}

} // verus!
