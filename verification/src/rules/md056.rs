//! MD056 — table-column-count.

use vstd::prelude::*;

use crate::md::kind::Kind;
use crate::md::tokens::{Token, ancestor_of_type, filter_idx_upto, filter_kinds};
use super::{
    Emit, Params, RuleError, appended, detail_text, error_is, lemma_appended_refl, params_ok,
    spec_int_text, usize_text,
};

verus! {

/// The table rows (the delimiter row included), in document order.
pub open spec fn row_ids(tokens: Seq<Token>) -> Seq<usize> {
    filter_idx_upto(tokens, seq![Kind::TableDelimiterRow, Kind::TableRow], tokens.len() as int)
}

/// The cells of a row.
pub open spec fn row_cells(tokens: Seq<Token>, row: usize) -> Seq<usize> {
    let ch = tokens[row as int].children@;
    filter_kinds(tokens, ch, seq![Kind::TableData, Kind::TableDelimiter, Kind::TableHeader], ch.len() as int)
}

/// The table of the `c`-th row.
pub open spec fn row_table(tokens: Seq<Token>, c: int) -> Option<usize> {
    ancestor_of_type(tokens, row_ids(tokens)[c] as int, seq![Kind::Table])
}

/// The number of cells the `c`-th row is held against: that of the first
/// row of its table with cells (0 while there is none).
pub open spec fn expected_cells(tokens: Seq<Token>, c: int) -> int
    decreases c + 1,
{
    let before = if c <= 0 || row_table(tokens, c - 1) != row_table(tokens, c) {
        0
    } else {
        expected_cells(tokens, c - 1)
    };
    if before == 0 {
        row_cells(tokens, row_ids(tokens)[c]).len() as int
    } else {
        before
    }
}

/// Whether the `c`-th row is reported: its number of cells differs, and
/// its last line is a line of the document.
pub open spec fn md056_reports(tokens: Seq<Token>, n: int, c: int) -> bool {
    let t = tokens[row_ids(tokens)[c] as int];
    let actual = row_cells(tokens, row_ids(tokens)[c]).len() as int;
    spec_int_text(expected_cells(tokens, c)) != spec_int_text(actual) && 1 <= t.end_line <= n
}

/// The positions of the first `c` rows reported.
pub open spec fn md056_list(tokens: Seq<Token>, n: int, c: int) -> Seq<int>
    decreases c,
{
    if c <= 0 {
        Seq::empty()
    } else {
        let prev = md056_list(tokens, n, c - 1);
        if md056_reports(tokens, n, c - 1) {
            prev.push(c - 1)
        } else {
            prev
        }
    }
}

/// The problem reported for the `c`-th row: the counts, whether cells are
/// missing or extra, and the place: the row's end, or the extra cells.
pub open spec fn md056_error(e: RuleError, tokens: Seq<Token>, c: int) -> bool {
    let row = row_ids(tokens)[c];
    let t = tokens[row as int];
    let cells = row_cells(tokens, row);
    let actual = cells.len() as int;
    let expected = expected_cells(tokens, c);
    let row_end = if t.end_column > 0 {
        t.end_column - 1
    } else {
        0
    };
    let (detail, range) = if actual < expected {
        (Some("Too few cells, row will be missing data"@), Some((row_end as usize, 1usize)))
    } else if expected < actual {
        let start = tokens[cells[expected] as int].start_column;
        let len = if row_end >= start && row_end - start < usize::MAX {
            row_end - start + 1
        } else {
            0
        };
        (Some("Too many cells, extra data will be missing"@), Some((start, len as usize)))
    } else {
        (None, None)
    };
    error_is(
        e,
        t.end_line,
        Some(detail_text(spec_int_text(expected), spec_int_text(actual), detail)),
        None,
        range,
        None,
    )
}

/// What `md056` reports: the problems it appends to `old_errors`.
pub open spec fn md056_reported(p: &Params, old_errors: Seq<RuleError>, new_errors: Seq<RuleError>) -> bool {
    ({
        let toks = p.tree.tokens@;
        let reported = md056_list(toks, p.lines@.len() as int, row_ids(toks).len() as int);
        let base = old_errors.len();
        &&& new_errors.len() == base + reported.len()
        &&& forall|j: int|
            0 <= j < reported.len() ==> md056_error(#[trigger] new_errors[base + j], toks, reported[j])
    })
}

/// Report table rows with another number of cells than the table's header
/// row.
pub fn md056(p: &Params, emit: &mut Emit)
    requires
        params_ok(p),
    ensures
        appended(old(emit).errors@, final(emit).errors@, p.lines@.len() as int),
        md056_reported(p, old(emit).errors@, final(emit).errors@),
{
    let tree = p.tree;
    let n = p.lines.len();
    let mut expected: usize = 0;
    let mut current_table: Option<usize> = None;
    let row_kinds: [Kind; 2] = [Kind::TableDelimiterRow, Kind::TableRow];
    let table_kinds: [Kind; 1] = [Kind::Table];
    let cell_kinds: [Kind; 3] = [Kind::TableData, Kind::TableDelimiter, Kind::TableHeader];
    proof {
        assert(row_kinds@ =~= seq![Kind::TableDelimiterRow, Kind::TableRow]);
        assert(table_kinds@ =~= seq![Kind::Table]);
        assert(cell_kinds@ =~= seq![Kind::TableData, Kind::TableDelimiter, Kind::TableHeader]);
        reveal_strlit("Too few cells, row will be missing data");
        reveal_strlit("Too many cells, extra data will be missing");
    }
    let rows = tree.filter_idx(&row_kinds);
    let ghost toks = tree.tokens@;
    let ghost e0 = emit.errors@;
    proof {
        lemma_appended_refl(e0, n as int);
    }
    let mut c: usize = 0;
    while c < rows.len()
        invariant
            c <= rows@.len(),
            params_ok(p),
            tree == p.tree,
            toks == tree.tokens@,
            rows@ == row_ids(toks),
            table_kinds@ == seq![Kind::Table],
            cell_kinds@ == seq![Kind::TableData, Kind::TableDelimiter, Kind::TableHeader],
            n == p.lines@.len(),
            c > 0 ==> current_table == row_table(toks, c - 1) && expected == expected_cells(toks, c - 1),
            c == 0 ==> current_table is None && expected == 0,
            forall|k: int| 0 <= k < rows@.len() ==> #[trigger] rows@[k] < tree.tokens@.len(),
            appended(e0, emit.errors@, n as int),
            emit.errors@.len() == e0.len() + md056_list(toks, n as int, c as int).len(),
            forall|j: int|
                0 <= j < md056_list(toks, n as int, c as int).len() ==> md056_error(
                    #[trigger] emit.errors@[e0.len() + j],
                    toks,
                    md056_list(toks, n as int, c as int)[j],
                ),
        decreases rows@.len() - c,
    {
        let row = rows[c];
        let ghost prev = md056_list(toks, n as int, c as int);
        let ghost mid = emit.errors@;
        let table = tree.parent_of_type(row, &table_kinds);
        if current_table != table {
            expected = 0;
            current_table = table;
        }
        let cells = tree.children_of(row, &cell_kinds);
        let actual = cells.len();
        if expected == 0 {
            expected = actual;
        }
        proof {
            assert(row == row_ids(toks)[c as int]);
            assert(cells@ == row_cells(toks, row));
            assert(table == row_table(toks, c as int));
            assert(expected == expected_cells(toks, c as int));
        }
        let rt = tree.get(row);
        let row_end = if rt.end_column > 0 {
            rt.end_column - 1
        } else {
            0
        };
        let (detail, range) = if actual < expected {
            (Some(super::lit("Too few cells, row will be missing data")), Some((row_end, 1usize)))
        } else if expected < actual {
            proof {
                tree.lemma_node(row as int);
            }
            let start = tree.get(cells[expected]).start_column;
            let len = if row_end >= start && row_end - start < usize::MAX {
                row_end - start + 1
            } else {
                0
            };
            (Some(super::lit("Too many cells, extra data will be missing")), Some((start, len)))
        } else {
            (None, None)
        };
        let d: Option<&[char]> = match &detail {
            Some(x) => Some(x.as_slice()),
            None => None,
        };
        emit.add_detail_if_checked(
            n,
            rt.end_line,
            &usize_text(expected),
            &usize_text(actual),
            d,
            None,
            range,
            None,
        );
        proof {
            let cur = md056_list(toks, n as int, c + 1);
            if md056_reports(toks, n as int, c as int) {
                assert(cur == prev.push(c as int));
                assert forall|j: int| 0 <= j < cur.len() implies md056_error(
                    #[trigger] emit.errors@[e0.len() + j],
                    toks,
                    cur[j],
                ) by {
                    if j < prev.len() {
                        assert(emit.errors@[e0.len() + j] == mid[e0.len() + j]);
                    }
                }
            } else {
                assert(cur == prev);
                assert(emit.errors@ == mid);
            }
            assert(appended(e0, emit.errors@, n as int));
        }
        c += 1;
    }
}

} // verus!
