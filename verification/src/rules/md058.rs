//! MD058 — blanks-around-tables.

use vstd::prelude::*;

use crate::md::kind::Kind;
use crate::md::tokens::{Token, filter_idx_upto};
use super::helpers::{
    bq_prefix_line, is_blank_line, spec_bq_prefix_line, spec_ellipsify, spec_is_blank_line, spec_trim, trim,
};
use super::md031::line_or_empty;
use super::{Emit, FixInfo, Params, RuleError, appended, fix_is, lemma_appended_refl, opt_seq, params_ok};

verus! {

/// The tables, in document order.
pub open spec fn table_ids(tokens: Seq<Token>) -> Seq<usize> {
    filter_idx_upto(tokens, seq![Kind::Table], tokens.len() as int)
}

/// The block-quote and line prefixes, in document order.
pub open spec fn prefix_ids(tokens: Seq<Token>) -> Seq<usize> {
    filter_idx_upto(tokens, seq![Kind::BlockQuotePrefix, Kind::LinePrefix], tokens.len() as int)
}

/// The line of index `i`, or an empty line past the end.
pub open spec fn line_at(lines: Seq<Vec<char>>, i: int) -> Seq<char> {
    if 0 <= i < lines.len() {
        lines[i]@
    } else {
        Seq::empty()
    }
}

/// What is reported for the `c`-th table, in order: `0` when the line
/// above its first line is not blank, `1` when the line below its last
/// line is not blank.
pub open spec fn md058_events(lines: Seq<Vec<char>>, tokens: Seq<Token>, c: int) -> Seq<int> {
    let t = tokens[table_ids(tokens)[c] as int];
    let n = lines.len();
    let above = if 2 <= t.start_line <= n && !spec_is_blank_line(line_at(lines, t.start_line - 2)) {
        seq![0int]
    } else {
        Seq::empty()
    };
    let below = if 1 <= t.end_line <= n && !spec_is_blank_line(line_at(lines, t.end_line as int)) {
        seq![1int]
    } else {
        Seq::empty()
    };
    above + below
}

/// The problems of the first `c` tables: (table, which side) pairs.
pub open spec fn md058_list(lines: Seq<Vec<char>>, tokens: Seq<Token>, c: int) -> Seq<(int, int)>
    decreases c,
{
    if c <= 0 {
        Seq::empty()
    } else {
        md058_list(lines, tokens, c - 1) + md058_events(lines, tokens, c - 1).map_values(|w: int| (c - 1, w))
    }
}

/// The problem reported for event `ev`: the line (trimmed) as context,
/// and a fix inserting a blank line (with the block-quote prefixes) above
/// the first line or below the last.
pub open spec fn md058_error(e: RuleError, lines: Seq<Vec<char>>, tokens: Seq<Token>, ev: (int, int)) -> bool {
    let t = tokens[table_ids(tokens)[ev.0] as int];
    let line = if ev.1 == 0 {
        t.start_line
    } else {
        t.end_line
    };
    &&& e.line_number == line
    &&& e.detail is None
    &&& opt_seq(e.context) == Some(spec_ellipsify(spec_trim(lines[line - 1]@), false, false))
    &&& e.range is None
    &&& fix_is(
        e.fix_info,
        if ev.1 == 0 {
            None
        } else {
            Some((line + 1) as usize)
        },
        None,
        None,
        Some(spec_bq_prefix_line(tokens, prefix_ids(tokens), line as int)),
    )
}

/// What `md058` reports: the problems it appends to `old_errors`.
pub open spec fn md058_reported(p: &Params, old_errors: Seq<RuleError>, new_errors: Seq<RuleError>) -> bool {
    ({
        let toks = p.tree.tokens@;
        let reported = md058_list(p.lines@, toks, table_ids(toks).len() as int);
        let base = old_errors.len();
        &&& new_errors.len() == base + reported.len()
        &&& forall|j: int|
            0 <= j < reported.len() ==> md058_error(
                #[trigger] new_errors[base + j],
                p.lines@,
                toks,
                reported[j],
            )
    })
}

/// Report tables without a blank line above their first or below their
/// last line; the fix inserts one (keeping block-quote prefixes).
pub fn md058(p: &Params, emit: &mut Emit)
    requires
        params_ok(p),
    ensures
        appended(old(emit).errors@, final(emit).errors@, p.lines@.len() as int),
        md058_reported(p, old(emit).errors@, final(emit).errors@),
{
    let tree = p.tree;
    let n = p.lines.len();
    let prefix_kinds: [Kind; 2] = [Kind::BlockQuotePrefix, Kind::LinePrefix];
    let table_kinds: [Kind; 1] = [Kind::Table];
    proof {
        assert(prefix_kinds@ =~= seq![Kind::BlockQuotePrefix, Kind::LinePrefix]);
        assert(table_kinds@ =~= seq![Kind::Table]);
    }
    let prefixes = tree.filter_idx(&prefix_kinds);
    let tables = tree.filter_idx(&table_kinds);
    let ghost toks = tree.tokens@;
    let ghost lines = p.lines@;
    let ghost e0 = emit.errors@;
    proof {
        lemma_appended_refl(e0, n as int);
    }
    let mut c: usize = 0;
    while c < tables.len()
        invariant
            c <= tables@.len(),
            params_ok(p),
            tree == p.tree,
            toks == tree.tokens@,
            lines == p.lines@,
            tables@ == table_ids(toks),
            prefixes@ == prefix_ids(toks),
            n == p.lines@.len(),
            forall|k: int| 0 <= k < tables@.len() ==> #[trigger] tables@[k] < tree.tokens@.len(),
            forall|k: int| 0 <= k < prefixes@.len() ==> #[trigger] prefixes@[k] < tree.tokens@.len(),
            appended(e0, emit.errors@, n as int),
            emit.errors@.len() == e0.len() + md058_list(lines, toks, c as int).len(),
            forall|j: int|
                0 <= j < md058_list(lines, toks, c as int).len() ==> md058_error(
                    #[trigger] emit.errors@[e0.len() + j],
                    lines,
                    toks,
                    md058_list(lines, toks, c as int)[j],
                ),
        decreases tables@.len() - c,
    {
        let table = tables[c];
        let ghost prev = md058_list(lines, toks, c as int);
        let ghost mid = emit.errors@;
        let ghost ev = md058_events(lines, toks, c as int);
        let ghost cur = md058_list(lines, toks, c + 1);
        proof {
            assert(cur == prev + ev.map_values(|w: int| (c as int, w)));
        }
        let first = tree.get(table).start_line;
        if first >= 2 && first <= n {
            let above = line_or_empty(p.lines, first - 2);
            proof {
                assert(above@ == line_at(lines, first - 2));
            }
            if !is_blank_line(&above) {
                let ins = bq_prefix_line(tree, &prefixes, first);
                emit.add_context_checked(
                    n,
                    first,
                    &trim(&p.lines[first - 1]),
                    false,
                    false,
                    None,
                    Some(FixInfo { line_number: None, edit_column: None, delete_count: None, insert_text: Some(ins) }),
                );
            }
        }
        proof {
            assert(appended(e0, emit.errors@, n as int));
        }
        let last = tree.get(table).end_line;
        if last >= 1 && last <= n {
            let below = line_or_empty(p.lines, last);
            proof {
                assert(below@ == line_at(lines, last as int));
            }
            if !is_blank_line(&below) {
                let ins = bq_prefix_line(tree, &prefixes, last);
                emit.add_context_checked(
                    n,
                    last,
                    &trim(&p.lines[last - 1]),
                    false,
                    false,
                    None,
                    Some(
                        FixInfo {
                            line_number: Some(last + 1),
                            edit_column: None,
                            delete_count: None,
                            insert_text: Some(ins),
                        },
                    ),
                );
            }
        }
        proof {
            assert(appended(e0, emit.errors@, n as int));
            assert(emit.errors@.len() == e0.len() + cur.len());
            assert forall|j: int| 0 <= j < cur.len() implies md058_error(
                #[trigger] emit.errors@[e0.len() + j],
                lines,
                toks,
                cur[j],
            ) by {
                if j < prev.len() {
                    assert(emit.errors@[e0.len() + j] == mid[e0.len() + j]);
                } else {
                    assert(cur[j] == (c as int, ev[j - prev.len()]));
                }
            }
        }
        c += 1;
    }
}

} // verus!
