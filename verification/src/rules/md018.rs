//! MD018 — no-missing-space-atx: `#Heading` without a space.

use vstd::prelude::*;

use crate::md::kind::Kind;
use crate::md::tokens::{Token, Tree};
use super::helpers::{spec_ellipsify, spec_trim, trim, trim_end_at, trim_end_len};
use super::{
    Emit, FixInfo, Params, RuleError, Span, appended, is_insert, kind_line_marks, lemma_appended_refl,
    lemma_appended_step, mark_range, marked, on_kind_line, opt_seq, params_ok,
};

verus! {

/// Mark the lines of every token of `kinds`.
pub fn mark_lines_of(tree: &Tree, kinds: &[Kind], marks: &mut Vec<bool>)
    ensures
        final(marks)@.len() == old(marks)@.len(),
        forall|k: int|
            0 <= k < final(marks)@.len() ==> #[trigger] final(marks)@[k] == (old(marks)@[k] || on_kind_line(
                tree.tokens@,
                kinds@,
                Span::Whole,
                k,
            )),
{
    let idx = tree.filter_idx(kinds);
    let mut c: usize = 0;
    while c < idx.len()
        invariant
            c <= idx@.len(),
            marks@.len() == old(marks)@.len(),
            forall|k: int| 0 <= k < idx@.len() ==> #[trigger] idx@[k] < tree.tokens@.len(),
            forall|k: int|
                0 <= k < marks@.len() ==> #[trigger] marks@[k] == (old(marks)@[k] || exists|j: int|
                    #![trigger idx@[j]]
                    0 <= j < c && super::in_span(tree.tokens@[idx@[j] as int], Span::Whole, k)),
        decreases idx@.len() - c,
    {
        let t = tree.get(idx[c]);
        let ghost before = marks@;
        mark_range(marks, t.start_line, t.end_line);
        proof {
            assert forall|k: int| 0 <= k < marks@.len() implies #[trigger] marks@[k] == (old(marks)@[k] || exists|j: int|
                #![trigger idx@[j]]
                0 <= j < c + 1 && super::in_span(tree.tokens@[idx@[j] as int], Span::Whole, k)) by {
                if super::in_span(tree.tokens@[idx@[c as int] as int], Span::Whole, k) {
                    assert(idx@[c as int] == idx@[c as int]);
                }
                if exists|j: int| #![trigger idx@[j]] 0 <= j < c + 1 && super::in_span(tree.tokens@[idx@[j] as int], Span::Whole, k) {
                    let j = choose|j: int| #![trigger idx@[j]] 0 <= j < c + 1 && super::in_span(tree.tokens@[idx@[j] as int], Span::Whole, k);
                    if j < c {
                        assert(before[k]);
                    }
                }
            }
        }
        c += 1;
    }
}

/// The number of `#` that start `s[i..]`.
pub open spec fn hashes_from(s: Seq<char>, i: int) -> int
    decreases s.len() - i,
{
    if i < 0 || i >= s.len() || s[i] != '#' {
        0
    } else {
        1 + hashes_from(s, i + 1)
    }
}

/// The line ends with `#` followed only by whitespace.
pub open spec fn spec_ends_hash_ws(s: Seq<char>) -> bool {
    let e = trim_end_at(s, s.len() as int);
    e > 0 && s[e - 1] == '#'
}

/// The line ends with `#` followed only by whitespace.
fn ends_hash_ws(chars: &[char]) -> (r: bool)
    ensures
        r == spec_ends_hash_ws(chars@),
{
    let e = trim_end_len(chars);
    e > 0 && chars[e - 1] == '#'
}

/// The kinds whose lines are not checked for headings.
pub open spec fn md018_ignored_kinds() -> Seq<Kind> {
    seq![Kind::CodeFenced, Kind::CodeIndented, Kind::HtmlFlow]
}

/// Whether the line of index `i` is reported: outside code and HTML, it
/// starts with hashes followed by something other than space or tab, does
/// not end with `#`, and does not start with the keycap emoji.
pub open spec fn md018_reports(lines: Seq<Vec<char>>, tokens: Seq<Token>, i: int) -> bool {
    let s = lines[i]@;
    let h = hashes_from(s, 0);
    &&& !on_kind_line(tokens, md018_ignored_kinds(), Span::Whole, i + 1)
    &&& 0 < h < s.len()
    &&& s[h] != ' ' && s[h] != '\t'
    &&& !spec_ends_hash_ws(s)
    &&& !(s.len() >= 3 && s[0] == '#' && s[1] == '\u{fe0f}' && s[2] == '\u{20e3}')
}

/// The indices below `n` of the lines reported.
pub open spec fn md018_lines(lines: Seq<Vec<char>>, tokens: Seq<Token>, n: int) -> Seq<int>
    decreases n,
{
    if n <= 0 {
        Seq::empty()
    } else {
        let prev = md018_lines(lines, tokens, n - 1);
        if md018_reports(lines, tokens, n - 1) {
            prev.push(n - 1)
        } else {
            prev
        }
    }
}

/// The problem reported for the line of index `i`: the trimmed line as
/// context, the hashes and the next character as range, and a fix that
/// inserts a space after the hashes.
pub open spec fn md018_error(e: RuleError, lines: Seq<Vec<char>>, i: int) -> bool {
    let s = lines[i]@;
    let h = hashes_from(s, 0);
    &&& e.line_number == i + 1
    &&& e.detail is None
    &&& opt_seq(e.context) == Some(spec_ellipsify(spec_trim(s), false, false))
    &&& e.range == Some((1usize, (h + 1) as usize))
    &&& is_insert(e.fix_info, h + 1, seq![' '])
}

proof fn lemma_hashes(s: Seq<char>, i: int, h: int)
    requires
        0 <= i <= h <= s.len(),
        forall|k: int| i <= k < h ==> s[k] == '#',
        h == s.len() || s[h] != '#',
    ensures
        hashes_from(s, i) == h - i,
    decreases h - i,
{
    if i < h {
        lemma_hashes(s, i + 1, h);
    }
}

/// What `md018` reports: the problems it appends to `old_errors`.
pub open spec fn md018_reported(p: &Params, old_errors: Seq<RuleError>, new_errors: Seq<RuleError>) -> bool {
    ({
        let reported = md018_lines(p.lines@, p.tree.tokens@, p.lines@.len() as int);
        let base = old_errors.len();
        &&& new_errors.len() == base + reported.len()
        &&& forall|j: int|
            0 <= j < reported.len() ==> md018_error(#[trigger] new_errors[base + j], p.lines@, reported[j])
    })
}

/// Report `#text` lines (outside code and HTML) whose hashes are followed
/// by neither space, tab nor another `#`, unless the line ends with `#`
/// (a closed heading) or starts with the keycap emoji `#️⃣`. The fix
/// inserts a space after the hashes.
pub fn md018(p: &Params, emit: &mut Emit)
    requires
        params_ok(p),
    ensures
        appended(old(emit).errors@, final(emit).errors@, p.lines@.len() as int),
        md018_reported(p, old(emit).errors@, final(emit).errors@),
{
    let n = p.lines.len();
    let kinds: [Kind; 3] = [Kind::CodeFenced, Kind::CodeIndented, Kind::HtmlFlow];
    proof {
        assert(kinds@ =~= md018_ignored_kinds());
    }
    let ignore = kind_line_marks(p.tree, &kinds, Span::Whole, n);
    let ghost e0 = emit.errors@;
    let ghost lines = p.lines@;
    let ghost toks = p.tree.tokens@;
    proof {
        lemma_appended_refl(e0, n as int);
    }
    let mut li: usize = 0;
    while li < n
        invariant
            li <= n,
            n == p.lines@.len(),
            lines == p.lines@,
            toks == p.tree.tokens@,
            params_ok(p),
            ignore@.len() == n + 1,
            forall|l: int| 0 <= l <= n ==> #[trigger] ignore@[l] == on_kind_line(toks, md018_ignored_kinds(), Span::Whole, l),
            appended(e0, emit.errors@, n as int),
            emit.errors@.len() == e0.len() + md018_lines(lines, toks, li as int).len(),
            forall|j: int|
                0 <= j < md018_lines(lines, toks, li as int).len() ==> md018_error(
                    #[trigger] emit.errors@[e0.len() + j],
                    lines,
                    md018_lines(lines, toks, li as int)[j],
                ),
        decreases n - li,
    {
        let line_number = li + 1;
        let chars = &p.lines[li];
        let len = chars.len();
        let ghost prev = md018_lines(lines, toks, li as int);
        let ghost mid = emit.errors@;
        if !marked(&ignore, line_number) {
            let mut h: usize = 0;
            while h < len && chars[h] == '#'
                invariant
                    h <= len,
                    len == chars@.len(),
                    forall|k: int| 0 <= k < h ==> chars@[k] == '#',
                decreases len - h,
            {
                h += 1;
            }
            proof {
                lemma_hashes(chars@, 0, h as int);
            }
            if h > 0 && h < len {
                let after = chars[h];
                let keycap = len >= 3 && chars[0] == '#' && chars[1] == '\u{fe0f}' && chars[2]
                    == '\u{20e3}';
                if after != '#' && after != ' ' && after != '\t' && !ends_hash_ws(chars) && !keycap {
                    let mut sp: Vec<char> = Vec::new();
                    sp.push(' ');
                    proof {
                        assert(sp@ =~= seq![' ']);
                    }
                    emit.add_context(
                        line_number,
                        &trim(chars),
                        false,
                        false,
                        Some((1, h + 1)),
                        Some(FixInfo::insert(h + 1, sp)),
                    );
                    proof {
                        lemma_appended_step(e0, mid, emit.errors@, n as int, line_number);
                    }
                }
            }
        }
        proof {
            let cur = md018_lines(lines, toks, li + 1);
            if md018_reports(lines, toks, li as int) {
                assert(cur == prev.push(li as int));
                assert forall|j: int| 0 <= j < cur.len() implies md018_error(
                    #[trigger] emit.errors@[e0.len() + j],
                    lines,
                    cur[j],
                ) by {
                    if j < prev.len() {
                        assert(emit.errors@[e0.len() + j] == mid[e0.len() + j]);
                    }
                }
            } else {
                assert(cur == prev);
                assert(emit.errors@ == mid);
            }
        }
        li += 1;
    }
}

} // verus!
