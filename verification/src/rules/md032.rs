//! MD032 — blanks-around-lists.

use vstd::prelude::*;

use super::RuleError;

use crate::md::kind::{Kind, is_non_content, spec_is_non_content};
use crate::md::tokens::{Token, Tree, ancestor_of_type, filter_idx_upto};
use super::helpers::{bq_prefix_line, is_blank_line, spec_bq_prefix_line, spec_ellipsify, spec_is_blank_line, spec_trim, trim};
use super::md030::list_ids;
use super::md031::line_or_empty;
use super::md058::line_at;
use super::{
    Emit, FixInfo, FixV, Params, Report, appended, lemma_appended_refl, lemma_reports_concat, lemma_reports_push,
    lemma_reports_start, params_ok, report_of, reports_are,
};

verus! {

/// The content children of `ch` from `j` on (line endings, prefixes and
/// the like left out).
pub open spec fn kids_from(tokens: Seq<Token>, ch: Seq<usize>, j: int) -> Seq<usize>
    decreases ch.len() - j,
{
    if j < 0 || j >= ch.len() {
        Seq::empty()
    } else {
        let rest = kids_from(tokens, ch, j + 1);
        if spec_is_non_content(tokens[ch[j] as int].kind) {
            rest
        } else {
            seq![ch[j]] + rest
        }
    }
}

/// The content children of `node`.
pub open spec fn content_kids(tokens: Seq<Token>, node: int) -> Seq<usize> {
    kids_from(tokens, tokens[node].children@, 0)
}

/// A depth-first walk over content tokens from `stack` (top last), at
/// most `budget` steps: the nodes taken, in order.
pub open spec fn content_walk(tokens: Seq<Token>, stack: Seq<usize>, budget: nat) -> Seq<usize>
    decreases budget,
{
    if budget == 0 || stack.len() == 0 {
        Seq::empty()
    } else {
        let node = stack.last();
        seq![node] + content_walk(
            tokens,
            stack.drop_last() + content_kids(tokens, node as int).reverse(),
            (budget - 1) as nat,
        )
    }
}

/// The greatest end line among `ids` and `base`.
pub open spec fn max_end(tokens: Seq<Token>, ids: Seq<usize>, base: usize) -> usize
    decreases ids.len(),
{
    if ids.len() == 0 {
        base
    } else {
        let m = max_end(tokens, ids.drop_last(), base);
        let e = tokens[ids.last() as int].end_line;
        if e > m {
            e
        } else {
            m
        }
    }
}

/// The greatest end line of the content children of the nodes `visited`,
/// and `base`.
pub open spec fn max_end_kids(tokens: Seq<Token>, visited: Seq<usize>, base: usize) -> usize
    decreases visited.len(),
{
    if visited.len() == 0 {
        base
    } else {
        max_end(
            tokens,
            content_kids(tokens, visited.last() as int).reverse(),
            max_end_kids(tokens, visited.drop_last(), base),
        )
    }
}

/// The last line of a list: the greatest end line of the list and its
/// content descendants.
pub open spec fn spec_visual_end(tokens: Seq<Token>, list: int) -> usize {
    max_end_kids(tokens, content_walk(tokens, seq![list as usize], tokens.len()), tokens[list].end_line)
}

/// The last line of a list: the greatest end line of the list and its
/// content descendants (non-content tokens, such as line endings, left
/// out).
fn visual_end(tree: &Tree, list: usize) -> (r: usize)
    requires
        tree.wf(),
        list < tree.tokens@.len(),
    ensures
        r == spec_visual_end(tree.tokens@, list as int),
{
    let ghost tk = tree.tokens@;
    let ghost w = content_walk(tk, seq![list], tk.len());
    let mut last = tree.get(list).end_line;
    // Depth-first over content descendants with an explicit stack.
    let mut stack: Vec<usize> = Vec::new();
    stack.push(list);
    let mut budget = tree.tokens.len();
    let ghost mut taken: Seq<usize> = Seq::empty();
    proof {
        assert(stack@ =~= seq![list]);
        assert(w =~= taken + content_walk(tk, stack@, budget as nat));
    }
    while stack.len() > 0 && budget > 0
        invariant
            tree.wf(),
            tk == tree.tokens@,
            list < tk.len(),
            w == taken + content_walk(tk, stack@, budget as nat),
            last == max_end_kids(tk, taken, tk[list as int].end_line),
            forall|k: int| 0 <= k < stack@.len() ==> #[trigger] stack@[k] < tree.tokens@.len(),
        decreases budget,
    {
        let ghost st = stack@;
        let ghost bud = budget as nat;
        budget -= 1;
        let node = stack.pop().unwrap();
        let ghost base = stack@;
        let ghost last0 = last;
        let ch = &tree.tokens[node].children;
        let mut j = ch.len();
        proof {
            assert(kids_from(tk, ch@, j as int) =~= Seq::<usize>::empty());
            assert(stack@ =~= base + kids_from(tk, ch@, j as int).reverse());
        }
        while j > 0
            invariant
                tree.wf(),
                tk == tree.tokens@,
                node < tree.tokens@.len(),
                ch@ == tree.tokens@[node as int].children@,
                j <= ch@.len(),
                stack@ == base + kids_from(tk, ch@, j as int).reverse(),
                last == max_end(tk, kids_from(tk, ch@, j as int).reverse(), last0),
                forall|k: int| 0 <= k < stack@.len() ==> #[trigger] stack@[k] < tree.tokens@.len(),
            decreases j,
        {
            j -= 1;
            proof {
                tree.lemma_child(node as int, j as int);
            }
            let c = ch[j];
            let t = tree.get(c);
            let ghost before = kids_from(tk, ch@, j + 1);
            if !is_non_content(t.kind) {
                if t.end_line > last {
                    last = t.end_line;
                }
                stack.push(c);
                proof {
                    assert(kids_from(tk, ch@, j as int) == seq![c] + before);
                    assert((seq![c] + before).reverse() =~= before.reverse().push(c));
                    assert(before.reverse().push(c).drop_last() =~= before.reverse());
                }
            } else {
                proof {
                    assert(kids_from(tk, ch@, j as int) == before);
                }
            }
        }
        proof {
            let kids = content_kids(tk, node as int);
            assert(kids == kids_from(tk, ch@, 0));
            assert(content_walk(tk, st, bud) == seq![node] + content_walk(tk, stack@, budget as nat));
            let t2 = taken.push(node);
            assert(t2.drop_last() =~= taken);
            assert(w =~= t2 + content_walk(tk, stack@, budget as nat));
            taken = t2;
        }
    }
    proof {
        assert(content_walk(tk, stack@, budget as nat) =~= Seq::<usize>::empty());
        assert(w =~= taken);
    }
    last
}

/// What MD032 reports for the `c`-th list, when it is at the top: its
/// first line without a blank line above, its last line without one
/// below.
pub open spec fn md032_list(tokens: Seq<Token>, lines: Seq<Vec<char>>, prefixes: Seq<usize>, c: int) -> Seq<Report> {
    let list = list_ids(tokens)[c] as int;
    let n = lines.len() as int;
    if ancestor_of_type(tokens, list, seq![Kind::ListOrdered, Kind::ListUnordered]) is Some {
        Seq::empty()
    } else {
        let first = tokens[list].start_line as int;
        let above = if first >= 2 && first <= n && !spec_is_blank_line(line_at(lines, first - 2)) {
            seq![
                Report {
                    line: first as usize,
                    detail: None,
                    context: Some(spec_ellipsify(spec_trim(lines[first - 1]@), false, false)),
                    range: None,
                    fix: Some(FixV { line_number: None, edit_column: None, delete_count: None, insert_text: Some(spec_bq_prefix_line(tokens, prefixes, first)) }),
                },
            ]
        } else {
            Seq::empty()
        };
        let end = spec_visual_end(tokens, list) as int;
        let below = if !spec_is_blank_line(line_at(lines, end)) && 1 <= end <= n {
            seq![
                Report {
                    line: end as usize,
                    detail: None,
                    context: Some(spec_ellipsify(spec_trim(lines[end - 1]@), false, false)),
                    range: None,
                    fix: Some(FixV { line_number: Some((end + 1) as usize), edit_column: None, delete_count: None, insert_text: Some(spec_bq_prefix_line(tokens, prefixes, end)) }),
                },
            ]
        } else {
            Seq::empty()
        };
        above + below
    }
}

/// The problems for the first `c` lists.
pub open spec fn md032_upto(tokens: Seq<Token>, lines: Seq<Vec<char>>, prefixes: Seq<usize>, c: int) -> Seq<Report>
    decreases c,
{
    if c <= 0 {
        Seq::empty()
    } else {
        md032_upto(tokens, lines, prefixes, c - 1) + md032_list(tokens, lines, prefixes, c - 1)
    }
}

/// The block-quote prefixes and line prefixes.
pub open spec fn md032_prefixes(tokens: Seq<Token>) -> Seq<usize> {
    filter_idx_upto(tokens, seq![Kind::BlockQuotePrefix, Kind::LinePrefix], tokens.len() as int)
}

/// What `md032` reports: the problems it appends to `old_errors`.
pub open spec fn md032_reported(p: &Params, old_errors: Seq<RuleError>, new_errors: Seq<RuleError>) -> bool {
    reports_are(
        old_errors,
        new_errors,
        md032_upto(p.tree.tokens@, p.lines@, md032_prefixes(p.tree.tokens@), list_ids(p.tree.tokens@).len() as int),
    )
}

/// Report top-level lists without a blank line above their first line or
/// below their last content line; the fix inserts one.
pub fn md032(p: &Params, emit: &mut Emit)
    requires
        params_ok(p),
    ensures
        appended(old(emit).errors@, final(emit).errors@, p.lines@.len() as int),
        md032_reported(p, old(emit).errors@, final(emit).errors@),
{
    let tree = p.tree;
    let n = p.lines.len();
    let pk: [Kind; 2] = [Kind::BlockQuotePrefix, Kind::LinePrefix];
    let lk: [Kind; 2] = [Kind::ListOrdered, Kind::ListUnordered];
    proof {
        assert(pk@ =~= seq![Kind::BlockQuotePrefix, Kind::LinePrefix]);
        assert(lk@ =~= seq![Kind::ListOrdered, Kind::ListUnordered]);
    }
    let prefixes = tree.filter_idx(&pk);
    let lists = tree.filter_idx(&lk);
    let ghost tk = tree.tokens@;
    let ghost lines = p.lines@;
    let ghost e0 = emit.errors@;
    proof {
        lemma_appended_refl(e0, n as int);
        lemma_reports_start(e0);
    }
    let mut c: usize = 0;
    while c < lists.len()
        invariant
            c <= lists@.len(),
            params_ok(p),
            tree == p.tree,
            tk == tree.tokens@,
            lines == p.lines@,
            n == p.lines@.len(),
            lists@ == list_ids(tk),
            prefixes@ == md032_prefixes(tk),
            lk@ == seq![Kind::ListOrdered, Kind::ListUnordered],
            forall|k: int| 0 <= k < lists@.len() ==> #[trigger] lists@[k] < tree.tokens@.len(),
            forall|k: int| 0 <= k < prefixes@.len() ==> #[trigger] prefixes@[k] < tree.tokens@.len(),
            appended(e0, emit.errors@, n as int),
            reports_are(e0, emit.errors@, md032_upto(tk, lines, prefixes@, c as int)),
        decreases lists@.len() - c,
    {
        let list = lists[c];
        let ghost cc = c as int;
        let ghost mid = emit.errors@;
        c += 1;
        if tree.parent_of_type(list, &lk).is_some() {
            proof {
                assert(md032_upto(tk, lines, prefixes@, cc + 1) =~= md032_upto(tk, lines, prefixes@, cc));
            }
            continue;
        }
        let first = tree.get(list).start_line;
        let ghost m1 = emit.errors@;
        if first >= 2 && first <= n && !is_blank_line(&line_or_empty(p.lines, first - 2)) {
            let ins = bq_prefix_line(tree, &prefixes, first);
            emit.add_context_checked(
                n,
                first,
                &trim(&p.lines[first - 1]),
                false,
                false,
                None,
                Some(FixInfo { line_number: None, edit_column: None, delete_count: None, insert_text: Some(ins) }),
            );
            proof {
                lemma_reports_push(e0, m1, md032_upto(tk, lines, prefixes@, cc), emit.errors@.last());
            }
        }
        let ghost acc1 = if emit.errors@ != m1 {
            md032_upto(tk, lines, prefixes@, cc).push(report_of(emit.errors@.last()))
        } else {
            md032_upto(tk, lines, prefixes@, cc)
        };
        let ghost m2 = emit.errors@;
        let end = visual_end(tree, list);
        if !is_blank_line(&line_or_empty(p.lines, end)) && end >= 1 && end <= n {
            let ins = bq_prefix_line(tree, &prefixes, end);
            emit.add_context_checked(
                n,
                end,
                &trim(&p.lines[end - 1]),
                false,
                false,
                None,
                Some(
                    FixInfo {
                        line_number: Some(end + 1),
                        edit_column: None,
                        delete_count: None,
                        insert_text: Some(ins),
                    },
                ),
            );
            proof {
                lemma_reports_push(e0, m2, acc1, emit.errors@.last());
            }
        }
        proof {
            let l = md032_list(tk, lines, prefixes@, cc);
            if emit.errors@ != m2 {
                assert(md032_upto(tk, lines, prefixes@, cc + 1) =~= acc1.push(report_of(emit.errors@.last())));
            } else {
                assert(md032_upto(tk, lines, prefixes@, cc + 1) =~= acc1);
            }
        }
    }
}

} // verus!
