//! MD005 — list-indent: items at one level are indented alike.

use vstd::prelude::*;

use super::RuleError;

use crate::md::kind::Kind;
use crate::md::tokens::{Token, filter_idx_upto};
use super::helpers::{spec_trim, trim};
use super::{
    Emit, FixInfo, FixV, Params, Report, appended, detail_text, lemma_appended_refl, lemma_reports_concat,
    lemma_reports_push, lemma_reports_start, params_ok, report_of, reports_are, spec_int_text, wide_text,
};

verus! {

/// `n` spaces.
pub open spec fn spec_spaces(n: nat) -> Seq<char> {
    Seq::new(n, |k: int| ' ')
}

/// `n` spaces.
pub fn spaces(n: usize) -> (r: Vec<char>)
    ensures
        r@ == spec_spaces(n as nat),
{
    let mut v: Vec<char> = Vec::new();
    let mut i: usize = 0;
    while i < n
        invariant
            i <= n,
            v@ == spec_spaces(i as nat),
        decreases n - i,
    {
        v.push(' ');
        i += 1;
        proof {
            assert(v@ =~= spec_spaces(i as nat));
        }
    }
    v
}

/// The lists.
pub open spec fn md005_lists(tokens: Seq<Token>) -> Seq<usize> {
    filter_idx_upto(tokens, seq![Kind::ListOrdered, Kind::ListUnordered], tokens.len() as int)
}

/// Where the check of an ordered list stands after its first `j`
/// children: the column the markers end at (0 before the first item), and
/// whether items are aligned on that end.
pub open spec fn md005_state(tokens: Seq<Token>, list: int, j: int) -> (int, bool)
    decreases j,
{
    if j <= 0 {
        (0, false)
    } else {
        let (ee, em) = md005_state(tokens, list, j - 1);
        let pt = tokens[tokens[list].children@[j - 1] as int];
        if pt.kind != Kind::ListItemPrefix || tokens[list].kind == Kind::ListUnordered {
            (ee, em)
        } else {
            let ai = pt.start_column - 1;
            let actual_end = pt.start_column + spec_trim(pt.text@).len() - 1;
            let ee2 = if ee == 0 { actual_end } else { ee };
            if (tokens[list].start_column - 1 != ai || em) && ee2 == actual_end {
                (ee2, true)
            } else {
                (ee2, em)
            }
        }
    }
}

/// The problem for the `j`-th child of a list (a list item prefix), if it
/// is reported.
pub open spec fn md005_item(tokens: Seq<Token>, n: int, list: int, j: int) -> Option<Report> {
    let lt = tokens[list];
    let pt = tokens[lt.children@[j] as int];
    let ei = lt.start_column - 1;
    let ai = pt.start_column - 1;
    let range: (usize, usize) = (1, if pt.end_column > 0 { (pt.end_column - 1) as usize } else { 0 });
    if pt.kind != Kind::ListItemPrefix || !(1 <= pt.start_line <= n) {
        None
    } else if lt.kind == Kind::ListUnordered {
        if spec_int_text(ei) != spec_int_text(ai) {
            Some(Report { line: pt.start_line, detail: Some(detail_text(spec_int_text(ei), spec_int_text(ai), None)), context: None, range: Some(range), fix: None })
        } else {
            None
        }
    } else {
        let (ee, em) = md005_state(tokens, list, j);
        let ml = spec_trim(pt.text@).len() as int;
        let actual_end = pt.start_column + ml - 1;
        let ee2 = if ee == 0 { actual_end } else { ee };
        if (ei != ai || em) && ee2 != actual_end {
            let detail = if em {
                "Expected: "@ + "("@ + spec_int_text(ee2) + "); Actual: ("@ + spec_int_text(actual_end) + ")"@
            } else {
                "Expected: "@ + spec_int_text(ei) + "; Actual: "@ + spec_int_text(ai)
            };
            let expected = if em { ee2 - ml } else { ei };
            let actual = if em { actual_end - ml } else { ai };
            let low = if actual < expected { actual } else { expected };
            let del = if actual > expected { actual - expected } else { 0 };
            let ins = if expected > actual { expected - actual } else { 0 };
            if low >= -1 && low < usize::MAX && del <= i64::MAX && ins <= usize::MAX {
                Some(
                    Report {
                        line: pt.start_line,
                        detail: Some(detail),
                        context: None,
                        range: Some(range),
                        fix: Some(
                            FixV {
                                line_number: None,
                                edit_column: Some((low + 1) as usize),
                                delete_count: Some(del as i64),
                                insert_text: Some(spec_spaces(ins as nat)),
                            },
                        ),
                    },
                )
            } else {
                None
            }
        } else {
            None
        }
    }
}

/// The problems for the first `j` children of a list.
pub open spec fn md005_items(tokens: Seq<Token>, n: int, list: int, j: int) -> Seq<Report>
    decreases j,
{
    if j <= 0 {
        Seq::empty()
    } else {
        let prev = md005_items(tokens, n, list, j - 1);
        match md005_item(tokens, n, list, j - 1) {
            Some(r) => prev.push(r),
            None => prev,
        }
    }
}

/// The problems for the first `c` lists.
pub open spec fn md005_upto(tokens: Seq<Token>, n: int, c: int) -> Seq<Report>
    decreases c,
{
    if c <= 0 {
        Seq::empty()
    } else {
        let l = md005_lists(tokens)[c - 1] as int;
        md005_upto(tokens, n, c - 1) + md005_items(tokens, n, l, tokens[l].children@.len() as int)
    }
}

/// What `md005` reports: the problems it appends to `old_errors`.
pub open spec fn md005_reported(p: &Params, old_errors: Seq<RuleError>, new_errors: Seq<RuleError>) -> bool {
    reports_are(
        old_errors,
        new_errors,
        md005_upto(p.tree.tokens@, p.lines@.len() as int, md005_lists(p.tree.tokens@).len() as int),
    )
}

/// Report list items indented otherwise than the list's first item. In an
/// ordered list, items may instead be aligned on the end of their
/// markers. The fix (for ordered lists) moves the marker.
pub fn md005(p: &Params, emit: &mut Emit)
    requires
        params_ok(p),
    ensures
        appended(old(emit).errors@, final(emit).errors@, p.lines@.len() as int),
        md005_reported(p, old(emit).errors@, final(emit).errors@),
{
    let tree = p.tree;
    let n = p.lines.len();
    let kinds: [Kind; 2] = [Kind::ListOrdered, Kind::ListUnordered];
    proof {
        assert(kinds@ =~= seq![Kind::ListOrdered, Kind::ListUnordered]);
    }
    let lists = tree.filter_idx(&kinds);
    let ghost toks = tree.tokens@;
    let ghost e0 = emit.errors@;
    proof {
        lemma_appended_refl(e0, n as int);
        lemma_reports_start(e0);
    }
    let mut c: usize = 0;
    while c < lists.len()
        invariant
            c <= lists@.len(),
            params_ok(p),
            tree == p.tree,
            toks == tree.tokens@,
            n == p.lines@.len(),
            lists@ == md005_lists(toks),
            forall|k: int| 0 <= k < lists@.len() ==> #[trigger] lists@[k] < tree.tokens@.len(),
            appended(e0, emit.errors@, n as int),
            reports_are(e0, emit.errors@, md005_upto(toks, n as int, c as int)),
        decreases lists@.len() - c,
    {
        let list = lists[c];
        let ghost mid = emit.errors@;
        proof {
            lemma_reports_start(mid);
        }
        let lt = tree.get(list);
        let expected_indent: i128 = lt.start_column as i128 - 1;
        let unordered = lt.kind == Kind::ListUnordered;
        let mut expected_end: i128 = 0;
        let mut end_matching = false;
        let children = &lt.children;
        let mut j: usize = 0;
        while j < children.len()
            invariant
                j <= children@.len(),
                params_ok(p),
                tree == p.tree,
                toks == tree.tokens@,
                list < tree.tokens@.len(),
                lt == &toks[list as int],
                children@ == tree.tokens@[list as int].children@,
                n == p.lines@.len(),
                expected_indent == lt.start_column - 1,
                unordered == (lt.kind == Kind::ListUnordered),
                -1 <= expected_indent <= usize::MAX,
                -(usize::MAX as int) - 1 <= expected_end <= 2 * (usize::MAX as int),
                !unordered ==> (expected_end as int, end_matching) == md005_state(toks, list as int, j as int),
                appended(e0, emit.errors@, n as int),
                reports_are(mid, emit.errors@, md005_items(toks, n as int, list as int, j as int)),
            decreases children@.len() - j,
        {
            proof {
                tree.lemma_child(list as int, j as int);
            }
            let ghost m2 = emit.errors@;
            let ghost jj = j as int;
            let pt = tree.get(children[j]);
            j += 1;
            if pt.kind != Kind::ListItemPrefix {
                proof {
                    assert(md005_item(toks, n as int, list as int, jj) is None);
                }
                continue;
            }
            let line_number = pt.start_line;
            let actual_indent: i128 = pt.start_column as i128 - 1;
            let range_end = if pt.end_column > 0 {
                pt.end_column - 1
            } else {
                0
            };
            let range = (1usize, range_end);
            if unordered {
                let et = wide_text(expected_indent);
                let at = wide_text(actual_indent);
                emit.add_detail_if_checked(
                    n,
                    line_number,
                    &et,
                    &at,
                    None,
                    None,
                    Some(range),
                    None,
                );
                proof {
                    if emit.errors@ != m2 {
                        lemma_reports_push(mid, m2, md005_items(toks, n as int, list as int, jj), emit.errors@.last());
                        assert(report_of(emit.errors@.last()) == md005_item(toks, n as int, list as int, jj)->0);
                    } else {
                        assert(md005_item(toks, n as int, list as int, jj) is None);
                    }
                }
            } else {
                let trimmed = trim(&pt.text);
                let marker_len: i128 = trimmed.len() as i128;
                let actual_end: i128 = pt.start_column as i128 + marker_len - 1;
                if expected_end == 0 {
                    expected_end = actual_end;
                }
                let mut reported = false;
                if expected_indent != actual_indent || end_matching {
                    if expected_end == actual_end {
                        end_matching = true;
                    } else {
                        let mut detail = super::lit("Expected: ");
                        if end_matching {
                            super::concat(&mut detail, &super::lit("("));
                            super::concat(&mut detail, &wide_text(expected_end));
                            super::concat(&mut detail, &super::lit("); Actual: ("));
                            super::concat(&mut detail, &wide_text(actual_end));
                            super::concat(&mut detail, &super::lit(")"));
                        } else {
                            super::concat(&mut detail, &wide_text(expected_indent));
                            super::concat(&mut detail, &super::lit("; Actual: "));
                            super::concat(&mut detail, &wide_text(actual_indent));
                        }
                        let expected: i128 = if end_matching {
                            expected_end - marker_len
                        } else {
                            expected_indent
                        };
                        let actual: i128 = if end_matching {
                            actual_end - marker_len
                        } else {
                            actual_indent
                        };
                        let low = if actual < expected {
                            actual
                        } else {
                            expected
                        };
                        let del = if actual > expected {
                            actual - expected
                        } else {
                            0
                        };
                        let ins = if expected > actual {
                            expected - actual
                        } else {
                            0
                        };
                        if low >= -1 && low < usize::MAX as i128 && del <= i64::MAX as i128 && ins
                            <= usize::MAX as i128 {
                            let sp = spaces(ins as usize);
                            emit.add_checked(
                                n,
                                line_number,
                                Some(detail),
                                None,
                                Some(range),
                                Some(
                                    FixInfo {
                                        line_number: None,
                                        edit_column: Some((low + 1) as usize),
                                        delete_count: Some(del as i64),
                                        insert_text: Some(sp),
                                    },
                                ),
                            );
                            reported = true;
                        }
                    }
                }
                proof {
                    if emit.errors@ != m2 {
                        lemma_reports_push(mid, m2, md005_items(toks, n as int, list as int, jj), emit.errors@.last());
                        assert(report_of(emit.errors@.last()) == md005_item(toks, n as int, list as int, jj)->0);
                    } else {
                        assert(md005_item(toks, n as int, list as int, jj) is None);
                    }
                }
            }
        }
        proof {
            lemma_reports_concat(e0, mid, emit.errors@, md005_upto(toks, n as int, c as int), md005_items(toks, n as int, list as int, children@.len() as int));
        }
        c += 1;
    }
}

} // verus!
