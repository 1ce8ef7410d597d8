//! MD012 — no-multiple-blanks: at most `maximum` consecutive blank lines
//! outside code blocks.

use vstd::prelude::*;

use crate::md::kind::Kind;
use crate::text::{is_whitespace, spec_is_whitespace};
use crate::md::tokens::Token;
use super::options::{lookup, spec_opt_i64};
use super::{
    Emit, FixInfo, Params, RuleError, appended, detail_text, error_is, int_text, kind_line_marks,
    Span, lemma_appended_refl, lemma_appended_step, marked, on_kind_line, params_ok, spec_int_text,
};

verus! {

/// Whether a line holds only whitespace.
pub fn all_whitespace(s: &[char]) -> (r: bool)
    ensures
        r == (forall|k: int| 0 <= k < s@.len() ==> spec_is_whitespace(s@[k])),
{
    let mut i: usize = 0;
    while i < s.len()
        invariant
            i <= s@.len(),
            forall|k: int| 0 <= k < i ==> spec_is_whitespace(s@[k]),
        decreases s@.len() - i,
    {
        if !is_whitespace(s[i]) {
            return false;
        }
        i += 1;
    }
    true
}

/// The kinds of code blocks, whose lines are not counted.
pub open spec fn code_block_kinds() -> Seq<Kind> {
    seq![Kind::CodeFenced, Kind::CodeIndented]
}

/// A line of whitespace only.
pub open spec fn spec_all_whitespace(s: Seq<char>) -> bool {
    forall|k: int| 0 <= k < s.len() ==> spec_is_whitespace(s[k])
}

/// The number of consecutive blank lines outside code blocks that end with
/// the line of index `i` (0 when that line is not one).
pub open spec fn blank_run(lines: Seq<Vec<char>>, tokens: Seq<Token>, i: int) -> int
    decreases i + 1,
{
    if i < 0 {
        0
    } else if on_kind_line(tokens, code_block_kinds(), Span::Whole, i + 1) || !spec_all_whitespace(lines[i]@) {
        0
    } else {
        blank_run(lines, tokens, i - 1) + 1
    }
}

/// The indices below `n` of the lines that end a run longer than `maximum`.
pub open spec fn excess_blank_lines(lines: Seq<Vec<char>>, tokens: Seq<Token>, maximum: int, n: int) -> Seq<
    int,
>
    decreases n,
{
    if n <= 0 {
        Seq::empty()
    } else {
        let prev = excess_blank_lines(lines, tokens, maximum, n - 1);
        if maximum < blank_run(lines, tokens, n - 1) {
            prev.push(n - 1)
        } else {
            prev
        }
    }
}

/// The problem reported for the line of index `i`: its run length against
/// the maximum, fixed by deleting the line.
pub open spec fn md012_error(e: RuleError, lines: Seq<Vec<char>>, tokens: Seq<Token>, maximum: int, i: int) -> bool {
    error_is(
        e,
        (i + 1) as usize,
        Some(detail_text(spec_int_text(maximum), spec_int_text(blank_run(lines, tokens, i)), None)),
        None,
        None,
        Some(FixInfo { line_number: None, edit_column: None, delete_count: Some(-1i64), insert_text: None }),
    )
}

/// What `md012` reports: the problems it appends to `old_errors`.
pub open spec fn md012_reported(p: &Params, old_errors: Seq<RuleError>, new_errors: Seq<RuleError>) -> bool {
    ({
        let maximum = spec_opt_i64(lookup(p.config.entries@, "maximum"@), 1) as int;
        let lines = excess_blank_lines(p.lines@, p.tree.tokens@, maximum, p.lines@.len() as int);
        let base = old_errors.len();
        &&& new_errors.len() == base + lines.len()
        &&& forall|j: int|
            0 <= j < lines.len() ==> md012_error(
                #[trigger] new_errors[base + j],
                p.lines@,
                p.tree.tokens@,
                maximum,
                lines[j],
            )
    })
}

/// Report each blank line past the `maximum`-th of a run of blank lines
/// outside fenced and indented code; the fix deletes the line.
pub fn md012(p: &Params, emit: &mut Emit)
    requires
        params_ok(p),
    ensures
        appended(old(emit).errors@, final(emit).errors@, p.lines@.len() as int),
        md012_reported(p, old(emit).errors@, final(emit).errors@),
{
    let maximum = p.config.opt_i64("maximum", 1);
    let tree = p.tree;
    let n = p.lines.len();
    let kinds: [Kind; 2] = [Kind::CodeFenced, Kind::CodeIndented];
    proof {
        assert(kinds@ =~= code_block_kinds());
    }
    let code = kind_line_marks(tree, &kinds, Span::Whole, n);
    let ghost e0 = emit.errors@;
    let ghost lines = p.lines@;
    let ghost toks = tree.tokens@;
    proof {
        lemma_appended_refl(e0, n as int);
        reveal_strlit("Expected: ");
        reveal_strlit("; Actual: ");
    }
    let mut count: i64 = 0;
    let mut i: usize = 0;
    while i < n
        invariant
            i <= n,
            n == p.lines@.len(),
            lines == p.lines@,
            toks == tree.tokens@,
            tree == p.tree,
            n < usize::MAX / 4,
            code@.len() == n + 1,
            forall|l: int| 0 <= l <= n ==> #[trigger] code@[l] == on_kind_line(toks, code_block_kinds(), Span::Whole, l),
            0 <= count <= i,
            count == blank_run(lines, toks, i - 1),
            appended(e0, emit.errors@, n as int),
            emit.errors@.len() == e0.len() + excess_blank_lines(lines, toks, maximum as int, i as int).len(),
            forall|j: int|
                0 <= j < excess_blank_lines(lines, toks, maximum as int, i as int).len() ==> md012_error(
                    #[trigger] emit.errors@[e0.len() + j],
                    lines,
                    toks,
                    maximum as int,
                    excess_blank_lines(lines, toks, maximum as int, i as int)[j],
                ),
        decreases n - i,
    {
        let in_code = marked(&code, i + 1);
        count = if in_code || !all_whitespace(&p.lines[i]) {
            0
        } else {
            count + 1
        };
        let ghost prev = excess_blank_lines(lines, toks, maximum as int, i as int);
        proof {
            assert(count == blank_run(lines, toks, i as int));
        }
        if maximum < count {
            let mut d = super::lit("Expected: ");
            super::concat(&mut d, &int_text(maximum));
            super::concat(&mut d, &super::lit("; Actual: "));
            super::concat(&mut d, &int_text(count));
            let ghost mid = emit.errors@;
            emit.add(i + 1, Some(d), None, None, Some(FixInfo::delete_line()));
            proof {
                lemma_appended_step(e0, mid, emit.errors@, n as int, (i + 1) as usize);
                let cur = excess_blank_lines(lines, toks, maximum as int, i + 1);
                assert(cur == prev.push(i as int));
                assert forall|j: int| 0 <= j < cur.len() implies md012_error(
                    #[trigger] emit.errors@[e0.len() + j],
                    lines,
                    toks,
                    maximum as int,
                    cur[j],
                ) by {
                    if j < prev.len() {
                        assert(emit.errors@[e0.len() + j] == mid[e0.len() + j]);
                    } else {
                        assert(d@ =~= detail_text(spec_int_text(maximum as int), spec_int_text(count as int), None));
                    }
                }
            }
        }
        i += 1;
    }
}

} // verus!
