//! MD007 — ul-indent: unordered list indentation.

use vstd::prelude::*;

use super::RuleError;

use crate::md::kind::Kind;
use crate::md::tokens::{Token, ancestor_of_type, filter_idx_upto, lemma_ancestor_before};
use super::md005::{spaces, spec_spaces};
use super::options::{OptValue, lookup, spec_opt_bool, spec_opt_i64};
use super::{
    Emit, FixInfo, FixV, Params, Report, appended, detail_text, lemma_appended_refl, lemma_reports_push,
    lemma_reports_start, params_ok, report_of, reports_are, spec_int_text, wide_text,
};

verus! {

/// The kinds a list's nesting is counted through.
pub open spec fn nest_kinds() -> Seq<Kind> {
    seq![Kind::BlockQuote, Kind::ListOrdered, Kind::ListUnordered]
}

/// From token `cur` up: how many unordered lists enclose it before a
/// block quote or the top, and whether an ordered list comes first.
pub open spec fn ul_climb(tokens: Seq<Token>, cur: int) -> (nat, bool)
    decreases cur,
{
    match ancestor_of_type(tokens, cur, nest_kinds()) {
        Some(q) => {
            proof {
                lemma_ancestor_before(tokens, cur, nest_kinds());
            }
            if cur > q && tokens[q as int].kind == Kind::ListUnordered {
                let r = ul_climb(tokens, q as int);
                (r.0 + 1, r.1)
            } else if tokens[q as int].kind == Kind::ListOrdered {
                (0, true)
            } else {
                (0, false)
            }
        },
        None => (0, false),
    }
}

/// The tokens MD007 goes through.
pub open spec fn md007_ids(tokens: Seq<Token>) -> Seq<usize> {
    filter_idx_upto(
        tokens,
        seq![Kind::BlockQuotePrefix, Kind::ListItemPrefix, Kind::ListUnordered],
        tokens.len() as int,
    )
}

/// What MD007 knows after its first `c` tokens: the nesting of each
/// unordered list not inside an ordered one, and the last block-quote
/// prefix.
pub open spec fn md007_state(tokens: Seq<Token>, c: int) -> (Seq<Option<usize>>, Option<usize>)
    decreases c,
{
    if c <= 0 {
        (Seq::new(tokens.len(), |k: int| None), None)
    } else {
        let (nest, bq) = md007_state(tokens, c - 1);
        let tok = md007_ids(tokens)[c - 1];
        let t = tokens[tok as int];
        if t.kind == Kind::BlockQuotePrefix {
            (nest, Some(tok))
        } else if t.kind == Kind::ListUnordered {
            let r = ul_climb(tokens, tok as int);
            if !r.1 {
                (nest.update(tok as int, Some(r.0 as usize)), bq)
            } else {
                (nest, bq)
            }
        } else {
            (nest, bq)
        }
    }
}

/// The settings: spaces per level, whether the top level is indented,
/// and by how much.
pub open spec fn md007_indent(cfg: Seq<(Vec<char>, OptValue)>) -> i64 {
    spec_opt_i64(lookup(cfg, "indent"@), 2)
}

pub open spec fn md007_base(cfg: Seq<(Vec<char>, OptValue)>) -> int {
    if spec_opt_bool(lookup(cfg, "start_indented"@), false) {
        spec_opt_i64(lookup(cfg, "start_indent"@), md007_indent(cfg)) as int
    } else {
        0
    }
}

pub open spec fn in_i128(x: int) -> bool {
    i128::MIN <= x <= i128::MAX
}

/// The problem for the `c`-th token, when a list item prefix of a checked
/// list indented otherwise than its nesting asks (block-quote prefixes on
/// its line discounted), when everything is computable.
pub open spec fn md007_item(tokens: Seq<Token>, cfg: Seq<(Vec<char>, OptValue)>, n: int, c: int) -> Option<Report> {
    let (nest, bq) = md007_state(tokens, c);
    let t = tokens[md007_ids(tokens)[c] as int];
    if t.kind == Kind::BlockQuotePrefix || t.kind == Kind::ListUnordered || t.parent is None {
        None
    } else {
        let parent = t.parent->0 as int;
        if parent >= nest.len() || nest[parent] is None {
            None
        } else {
            let nesting = nest[parent]->0 as int;
            let m = nesting * md007_indent(cfg);
            let expected = md007_base(cfg) + m;
            let adj = match bq {
                Some(b) => if tokens[b as int].end_line == t.start_line {
                    tokens[b as int].end_column - 1
                } else {
                    0
                },
                None => 0,
            };
            let actual = t.start_column - 1 - adj;
            let col = t.start_column - actual;
            let del = if actual > expected { actual - expected } else { 0 };
            let ins = if expected > actual { expected - actual } else { 0 };
            if in_i128(m) && in_i128(expected) && in_i128(del) && in_i128(ins) && 0 <= col <= usize::MAX && del
                <= i64::MAX && ins <= usize::MAX && expected > i128::MIN && actual > i128::MIN && 1 <= t.start_line
                <= n && spec_int_text(expected) != spec_int_text(actual) {
                Some(
                    Report {
                        line: t.start_line,
                        detail: Some(detail_text(spec_int_text(expected), spec_int_text(actual), None)),
                        context: None,
                        range: Some((1, if t.end_column > 0 { (t.end_column - 1) as usize } else { 0 })),
                        fix: Some(
                            FixV {
                                line_number: None,
                                edit_column: Some(col as usize),
                                delete_count: Some(del as i64),
                                insert_text: Some(spec_spaces(ins as nat)),
                            },
                        ),
                    },
                )
            } else {
                None
            }
        }
    }
}

/// The problems for the first `c` tokens.
pub open spec fn md007_upto(tokens: Seq<Token>, cfg: Seq<(Vec<char>, OptValue)>, n: int, c: int) -> Seq<Report>
    decreases c,
{
    if c <= 0 {
        Seq::empty()
    } else {
        let prev = md007_upto(tokens, cfg, n, c - 1);
        match md007_item(tokens, cfg, n, c - 1) {
            Some(r) => prev.push(r),
            None => prev,
        }
    }
}

/// What `md007` reports: the problems it appends to `old_errors`.
pub open spec fn md007_reported(p: &Params, old_errors: Seq<RuleError>, new_errors: Seq<RuleError>) -> bool {
    reports_are(
        old_errors,
        new_errors,
        md007_upto(p.tree.tokens@, p.config.entries@, p.lines@.len() as int, md007_ids(p.tree.tokens@).len() as int),
    )
}

/// Report unordered list items not indented `indent` spaces per level
/// (plus `start_indent` with `start_indented`), block-quote prefixes on
/// the line discounted. Lists inside ordered lists are not checked. The
/// fix re-indents the item.
#[verifier::rlimit(40)]
pub fn md007(p: &Params, emit: &mut Emit)
    requires
        params_ok(p),
    ensures
        appended(old(emit).errors@, final(emit).errors@, p.lines@.len() as int),
        md007_reported(p, old(emit).errors@, final(emit).errors@),
{
    let indent = p.config.opt_i64("indent", 2);
    let start_indented = p.config.opt_bool("start_indented", false);
    let start_indent = p.config.opt_i64("start_indent", indent);
    let tree = p.tree;
    let n = p.lines.len();
    let ghost tk = tree.tokens@;
    let ghost cfg = p.config.entries@;
    // Nesting of each unordered list (by token index); -1: not checked.
    let mut nesting_of: Vec<Option<usize>> = Vec::new();
    let mut q: usize = 0;
    while q < tree.tokens.len()
        invariant
            q <= tree.tokens@.len(),
            nesting_of@.len() == q,
            forall|k: int| 0 <= k < q ==> (#[trigger] nesting_of@[k]) is None,
        decreases tree.tokens@.len() - q,
    {
        nesting_of.push(None);
        q += 1;
    }
    let mut last_bq_prefix: Option<usize> = None;
    let nk: [Kind; 3] = [Kind::BlockQuote, Kind::ListOrdered, Kind::ListUnordered];
    let kinds: [Kind; 3] = [Kind::BlockQuotePrefix, Kind::ListItemPrefix, Kind::ListUnordered];
    proof {
        assert(nk@ =~= nest_kinds());
        assert(kinds@ =~= seq![Kind::BlockQuotePrefix, Kind::ListItemPrefix, Kind::ListUnordered]);
        assert(nesting_of@ =~= md007_state(tk, 0).0);
    }
    let toks = tree.filter_idx(&kinds);
    let ghost e0 = emit.errors@;
    proof {
        lemma_appended_refl(e0, n as int);
        lemma_reports_start(e0);
    }
    let mut c: usize = 0;
    while c < toks.len()
        invariant
            c <= toks@.len(),
            params_ok(p),
            tree == p.tree,
            tk == tree.tokens@,
            cfg == p.config.entries@,
            n == p.lines@.len(),
            toks@ == md007_ids(tk),
            nk@ == nest_kinds(),
            indent == md007_indent(cfg),
            (if start_indented { start_indent as int } else { 0int }) == md007_base(cfg),
            nesting_of@.len() == tree.tokens@.len(),
            (nesting_of@, last_bq_prefix) == md007_state(tk, c as int),
            last_bq_prefix matches Some(b) ==> b < tree.tokens@.len(),
            forall|k: int| 0 <= k < toks@.len() ==> #[trigger] toks@[k] < tree.tokens@.len(),
            appended(e0, emit.errors@, n as int),
            reports_are(e0, emit.errors@, md007_upto(tk, cfg, n as int, c as int)),
        decreases toks@.len() - c,
    {
        let token = toks[c];
        let ghost cc = c as int;
        let ghost mid = emit.errors@;
        c += 1;
        let t = tree.get(token);
        if t.kind == Kind::BlockQuotePrefix {
            last_bq_prefix = Some(token);
            proof {
                assert(md007_item(tk, cfg, n as int, cc) is None);
            }
        } else if t.kind == Kind::ListUnordered {
            let total = tree.tokens.len();
            let mut nesting: usize = 0;
            let mut in_ordered = false;
            let mut current = token;
            let mut done = false;
            while !done
                invariant
                    tree.wf(),
                    tk == tree.tokens@,
                    nk@ == nest_kinds(),
                    current < tree.tokens@.len(),
                    nesting + current + 1 <= tree.tokens@.len(),
                    nesting_of@.len() == tree.tokens@.len(),
                    !done ==> ({
                        let r = ul_climb(tk, current as int);
                        ul_climb(tk, token as int) == ((nesting + r.0) as nat, r.1)
                    }),
                    done ==> ul_climb(tk, token as int) == (nesting as nat, in_ordered),
                    !done ==> !in_ordered,
                    total == tree.tokens@.len(),
                decreases current + (if done { 0int } else { 1int }),
            {
                let anc = tree.parent_of_type(current, &nk);
                proof {
                    lemma_ancestor_before(tk, current as int, nest_kinds());
                }
                let ghost cur0 = current as int;
                proof {
                    assert(anc == ancestor_of_type(tk, cur0, nest_kinds()));
                }
                match anc {
                    Some(q) => {
                        let k = tree.get(q).kind;
                        if k == Kind::ListUnordered {
                            proof {
                                assert(ul_climb(tk, cur0) == ((ul_climb(tk, q as int).0 + 1) as nat, ul_climb(tk, q as int).1));
                                assert(nesting + 1 <= total);
                            }
                            nesting += 1;
                            current = q;
                        } else if k == Kind::ListOrdered {
                            proof {
                                assert(ul_climb(tk, cur0) == (0nat, true));
                            }
                            in_ordered = true;
                            done = true;
                        } else {
                            proof {
                                assert(ul_climb(tk, cur0) == (0nat, false));
                            }
                            done = true;
                        }
                    },
                    None => {
                        proof {
                            assert(ul_climb(tk, cur0) == (0nat, false));
                        }
                        done = true;
                    },
                }
            }
            if !in_ordered {
                nesting_of.set(token, Some(nesting));
            }
            proof {
                assert(md007_item(tk, cfg, n as int, cc) is None);
            }
        } else {
            let ghost before = emit.errors@;
            if let Some(parent) = t.parent {
                if parent < nesting_of.len() {
                    if let Some(nx) = nesting_of[parent] {
                        let nesting: i128 = nx as i128;
                        let base: i128 = if start_indented {
                            start_indent as i128
                        } else {
                            0
                        };
                        // Indentations too large to compute are not checked.
                        if let Some(m) = nesting.checked_mul(indent as i128) {
                            if let Some(expected_indent) = base.checked_add(m) {
                                let bq_adjustment: i128 = match last_bq_prefix {
                                    Some(bq) => {
                                        let b = tree.get(bq);
                                        if b.end_line == t.start_line {
                                            b.end_column as i128 - 1
                                        } else {
                                            0
                                        }
                                    },
                                    None => 0,
                                };
                                let actual_indent: i128 = t.start_column as i128 - 1 - bq_adjustment;
                                let range_end = if t.end_column > 0 {
                                    t.end_column - 1
                                } else {
                                    0
                                };
                                let col: i128 = t.start_column as i128 - actual_indent;
                                let del_o: Option<i128> = if actual_indent > expected_indent {
                                    actual_indent.checked_sub(expected_indent)
                                } else {
                                    Some(0)
                                };
                                let ins_o: Option<i128> = if expected_indent > actual_indent {
                                    expected_indent.checked_sub(actual_indent)
                                } else {
                                    Some(0)
                                };
                                if let (Some(del), Some(ins)) = (del_o, ins_o) {
                                    if col >= 0 && col <= usize::MAX as i128 && del <= i64::MAX as i128 && ins
                                        <= usize::MAX as i128 && expected_indent > i128::MIN && actual_indent
                                        > i128::MIN {
                                        let et = wide_text(expected_indent);
                                        let at = wide_text(actual_indent);
                                        let sp = spaces(ins as usize);
                                        emit.add_detail_if_checked(
                                            n,
                                            t.start_line,
                                            &et,
                                            &at,
                                            None,
                                            None,
                                            Some((1, range_end)),
                                            Some(
                                                FixInfo {
                                                    line_number: None,
                                                    edit_column: Some(col as usize),
                                                    delete_count: Some(del as i64),
                                                    insert_text: Some(sp),
                                                },
                                            ),
                                        );
                                    }
                                }
                            }
                        }
                    }
                }
            }
            proof {
                if emit.errors@ != before {
                    lemma_reports_push(e0, mid, md007_upto(tk, cfg, n as int, cc), emit.errors@.last());
                    let r = md007_item(tk, cfg, n as int, cc)->0;
                    let e = report_of(emit.errors@.last());
                    assert(e.line == r.line);
                    assert(e.detail == r.detail);
                    assert(e.range == r.range);
                    assert(e.fix == r.fix);
                    assert(e == r);
                } else {
                    assert(md007_item(tk, cfg, n as int, cc) is None);
                }
            }
        }
    }
}

} // verus!
