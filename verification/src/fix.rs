//! Applying fixes, after markdownlint's `applyFixes`.

use vstd::prelude::*;

use crate::config::Config;
use crate::linter::{LintError, lint_config, split_lines};
use crate::rules::{FixInfo, opt_seq};
use crate::text::{chars_of, slice_vec};

verus! {

/// A fix with its defaults filled in: the line (1-based), the column
/// (1-based), how many characters to delete (`-1`: the whole line) and
/// what to insert.
#[derive(Debug)]
pub struct Norm {
    pub line_number: i64,
    pub edit_column: i64,
    pub delete_count: i64,
    pub insert_text: Vec<char>,
}

/// A normalized fix by value.
pub struct NormV {
    pub line_number: int,
    pub edit_column: int,
    pub delete_count: int,
    pub insert_text: Seq<char>,
}

/// A normalized fix's value.
pub open spec fn nview(n: Norm) -> NormV {
    NormV {
        line_number: n.line_number as int,
        edit_column: n.edit_column as int,
        delete_count: n.delete_count as int,
        insert_text: n.insert_text@,
    }
}

/// The values of a sequence of normalized fixes.
pub open spec fn nviews(s: Seq<Norm>) -> Seq<NormV> {
    s.map_values(|n: Norm| nview(n))
}

/// A fix with its defaults filled in (as `normalize` does).
pub open spec fn spec_normalize(fi: FixInfo, line_number: int) -> NormV {
    NormV {
        line_number: wrap_i64(or_default(fi.line_number, line_number)),
        edit_column: wrap_i64(or_default(fi.edit_column, 1)),
        delete_count: match fi.delete_count {
            Some(d) => d as int,
            None => 0,
        },
        insert_text: match opt_seq(fi.insert_text) {
            Some(t) => t,
            None => Seq::empty(),
        },
    }
}

/// A line number or column as a fix holds it: absent and zero both mean
/// the default.
pub open spec fn or_default(v: Option<usize>, d: int) -> int {
    match v {
        Some(x) => if x == 0 {
            d
        } else {
            x as int
        },
        None => d,
    }
}

/// A value of a fix as an `i64`: wrapped, as `as i64` converts.
pub open spec fn wrap_i64(x: int) -> int {
    (x as i64) as int
}

fn usize_to_i64(x: usize) -> (r: i64)
    ensures
        r == wrap_i64(x as int),
{
    #[verifier::truncate]
    (x as i64)
}

/// Fill in a fix's defaults: its line is the problem's line, its column 1,
/// no deletion, nothing inserted.
pub fn normalize(fi: &FixInfo, line_number: usize) -> (r: Norm)
    ensures
        nview(r) == spec_normalize(*fi, line_number as int),
        r.line_number == wrap_i64(or_default(fi.line_number, line_number as int)),
        r.edit_column == wrap_i64(or_default(fi.edit_column, 1)),
        r.delete_count == match fi.delete_count {
            Some(d) => d,
            None => 0,
        },
        r.insert_text@ == match opt_seq(fi.insert_text) {
            Some(t) => t,
            None => Seq::empty(),
        },
{
    let ln = match fi.line_number {
        Some(v) => if v == 0 {
            line_number
        } else {
            v
        },
        None => line_number,
    };
    let ec = match fi.edit_column {
        Some(v) => if v == 0 {
            1
        } else {
            v
        },
        None => 1,
    };
    let dc = match fi.delete_count {
        Some(d) => d,
        None => 0,
    };
    let it = match &fi.insert_text {
        Some(t) => {
            let c = slice_vec(t, 0, t.len());
            proof {
                assert(c@ =~= t@);
            }
            c
        },
        None => Vec::new(),
    };
    Norm { line_number: usize_to_i64(ln), edit_column: usize_to_i64(ec), delete_count: dc, insert_text: it }
}

/// Counts of `\r` alone, `\n` alone and `\r\n` in `s[i..]`.
pub open spec fn ending_counts(s: Seq<char>, i: int) -> (int, int, int)
    decreases s.len() - i,
{
    if i < 0 || i >= s.len() {
        (0, 0, 0)
    } else if s[i] == '\r' && i + 1 < s.len() && s[i + 1] == '\n' {
        let c = ending_counts(s, i + 2);
        (c.0, c.1, c.2 + 1)
    } else if s[i] == '\r' {
        let c = ending_counts(s, i + 1);
        (c.0 + 1, c.1, c.2)
    } else if s[i] == '\n' {
        let c = ending_counts(s, i + 1);
        (c.0, c.1 + 1, c.2)
    } else {
        ending_counts(s, i + 1)
    }
}

/// The line ending a document mostly uses: `\n` when it has none or `\n`
/// is at least as frequent as each other; else `\r\n` when at least as
/// frequent as `\r`; else `\r`.
pub open spec fn spec_preferred_line_ending(s: Seq<char>) -> Seq<char> {
    let (cr, lf, crlf) = ending_counts(s, 0);
    if cr == 0 && lf == 0 && crlf == 0 {
        seq!['\n']
    } else if lf >= crlf && lf >= cr {
        seq!['\n']
    } else if crlf >= cr {
        seq!['\r', '\n']
    } else {
        seq!['\r']
    }
}

pub proof fn lemma_ending_counts_bound(s: Seq<char>, i: int)
    requires
        0 <= i,
    ensures
        ({
            let c = ending_counts(s, i);
            0 <= c.0 && 0 <= c.1 && 0 <= c.2 && c.0 + c.1 + c.2 <= if i <= s.len() {
                s.len() - i
            } else {
                0
            }
        }),
    decreases s.len() - i,
{
    if i < s.len() {
        if s[i] == '\r' && i + 1 < s.len() && s[i + 1] == '\n' {
            lemma_ending_counts_bound(s, i + 2);
        } else {
            lemma_ending_counts_bound(s, i + 1);
        }
    }
}

/// The preferred line ending of `input`.
pub fn preferred_line_ending(input: &[char]) -> (r: Vec<char>)
    ensures
        r@ == spec_preferred_line_ending(input@),
{
    let n = input.len();
    let mut cr: usize = 0;
    let mut lf: usize = 0;
    let mut crlf: usize = 0;
    let mut i: usize = 0;
    proof {
        lemma_ending_counts_bound(input@, 0);
    }
    while i < n
        invariant
            i <= n + 1,
            n == input@.len(),
            ({
                let c = ending_counts(input@, i as int);
                let t = ending_counts(input@, 0);
                &&& t.0 == cr + c.0
                &&& t.1 == lf + c.1
                &&& t.2 == crlf + c.2
                &&& cr + lf + crlf <= i
            }),
        decreases n + 1 - i,
    {
        proof {
            lemma_ending_counts_bound(input@, i as int);
        }
        if input[i] == '\r' {
            if i + 1 < n && input[i + 1] == '\n' {
                crlf += 1;
                i += 2;
                continue;
            }
            cr += 1;
        } else if input[i] == '\n' {
            lf += 1;
        }
        i += 1;
    }
    let mut r: Vec<char> = Vec::new();
    if cr == 0 && lf == 0 && crlf == 0 {
        r.push('\n');
    } else if lf >= crlf && lf >= cr {
        r.push('\n');
    } else if crlf >= cr {
        r.push('\r');
        r.push('\n');
    } else {
        r.push('\r');
    }
    proof {
        assert(r@ =~= spec_preferred_line_ending(input@));
    }
    r
}

/// `text` with each `\n` replaced by `ending`.
pub open spec fn replace_newlines(text: Seq<char>, ending: Seq<char>) -> Seq<char>
    decreases text.len(),
{
    if text.len() == 0 {
        Seq::empty()
    } else {
        let rest = replace_newlines(text.drop_last(), ending);
        if text.last() == '\n' {
            rest + ending
        } else {
            rest.push(text.last())
        }
    }
}

/// A line after one fix: `None` when the fix deletes the line; else the
/// characters before the edit column, the inserted text (its `\n` made the
/// document's line ending), and the characters after the deleted ones.
pub open spec fn spec_apply_fix(line: Seq<char>, fi: Norm, ending: Seq<char>) -> Option<Seq<char>> {
    spec_apply_fix_v(line, nview(fi), ending)
}

/// `spec_apply_fix` on a fix by value.
pub open spec fn spec_apply_fix_v(line: Seq<char>, fi: NormV, ending: Seq<char>) -> Option<Seq<char>> {
    if fi.delete_count == -1 {
        None
    } else {
        let edit = if fi.edit_column - 1 > 0 {
            fi.edit_column - 1
        } else {
            0
        };
        let head_end = if edit < line.len() {
            edit
        } else {
            line.len() as int
        };
        let del = if fi.delete_count > 0 {
            fi.delete_count
        } else {
            0
        };
        let tail_start = if edit + del < line.len() {
            edit + del
        } else {
            line.len() as int
        };
        Some(line.take(head_end) + replace_newlines(fi.insert_text, ending) + line.skip(tail_start))
    }
}

fn push_from(out: &mut Vec<char>, s: &[char], from: usize, to: usize)
    requires
        from <= to <= s@.len(),
    ensures
        final(out)@ == old(out)@ + s@.subrange(from as int, to as int),
{
    crate::rules::helpers::push_all(out, s, from, to)
}

/// Apply one fix to a line.
pub fn apply_fix(line: &[char], fi: &Norm, line_ending: &[char]) -> (r: Option<Vec<char>>)
    ensures
        match r {
            Some(v) => spec_apply_fix(line@, *fi, line_ending@) == Some(v@),
            None => spec_apply_fix(line@, *fi, line_ending@) is None,
        },
{
    if fi.delete_count == -1 {
        return None;
    }
    let n = line.len();
    let edit: u64 = if fi.edit_column > 1 {
        (fi.edit_column - 1) as u64
    } else {
        0
    };
    let head_end: usize = if edit < n as u64 {
        edit as usize
    } else {
        n
    };
    let del: u64 = if fi.delete_count > 0 {
        fi.delete_count as u64
    } else {
        0
    };
    let tail_start: usize = if edit < n as u64 && del < (n as u64) - edit {
        (edit + del) as usize
    } else {
        n
    };
    let mut out = slice_vec(line, 0, head_end);
    let mut k: usize = 0;
    let ghost ins = fi.insert_text@;
    while k < fi.insert_text.len()
        invariant
            k <= ins.len(),
            ins == fi.insert_text@,
            out@ == line@.take(head_end as int) + replace_newlines(ins.take(k as int), line_ending@),
        decreases ins.len() - k,
    {
        proof {
            assert(ins.take(k + 1).drop_last() =~= ins.take(k as int));
        }
        if fi.insert_text[k] == '\n' {
            push_from(&mut out, line_ending, 0, line_ending.len());
            proof {
                assert(line_ending@.subrange(0, line_ending@.len() as int) =~= line_ending@);
            }
        } else {
            out.push(fi.insert_text[k]);
        }
        k += 1;
    }
    proof {
        assert(ins.take(ins.len() as int) =~= ins);
        assert(line@.subrange(0, head_end as int) =~= line@.take(head_end as int));
    }
    push_from(&mut out, line, tail_start, n);
    proof {
        assert(line@.subrange(tail_start as int, n as int) =~= line@.skip(tail_start as int));
    }
    Some(out)
}

/// Which of two fixes comes first when applying: lower in the document
/// first, then line deletions last, then further right first, then longer
/// insertions first.
pub enum Order {
    Before,
    Same,
    After,
}

/// The order of `a` and `b` (markdownlint's sort of the fixes).
pub open spec fn spec_order(a: NormV, b: NormV) -> Order {
    if a.line_number != b.line_number {
        if a.line_number > b.line_number {
            Order::Before
        } else {
            Order::After
        }
    } else if a.delete_count == -1 {
        Order::After
    } else if b.delete_count == -1 {
        Order::Before
    } else if a.edit_column != b.edit_column {
        if a.edit_column > b.edit_column {
            Order::Before
        } else {
            Order::After
        }
    } else if a.insert_text.len() != b.insert_text.len() {
        if a.insert_text.len() > b.insert_text.len() {
            Order::Before
        } else {
            Order::After
        }
    } else {
        Order::Same
    }
}

#[verifier::rlimit(30)]
fn order(a: &Norm, b: &Norm) -> (r: Order)
    ensures
        r == spec_order(nview(*a), nview(*b)),
{
    if a.line_number != b.line_number {
        if a.line_number > b.line_number {
            Order::Before
        } else {
            Order::After
        }
    } else if a.delete_count == -1 {
        Order::After
    } else if b.delete_count == -1 {
        Order::Before
    } else if a.edit_column != b.edit_column {
        if a.edit_column > b.edit_column {
            Order::Before
        } else {
            Order::After
        }
    } else if a.insert_text.len() != b.insert_text.len() {
        if a.insert_text.len() > b.insert_text.len() {
            Order::Before
        } else {
            Order::After
        }
    } else {
        Order::Same
    }
}

/// Where `x` is inserted in `s`, from `p` on: before the first fix it comes
/// before, or at the end.
pub open spec fn insert_pos(s: Seq<NormV>, x: NormV, p: int) -> int
    decreases s.len() - p,
{
    if p < 0 || p >= s.len() || spec_order(x, s[p]) is Before {
        p
    } else {
        insert_pos(s, x, p + 1)
    }
}

/// The first `k` fixes normalized and sorted, in insertion order
/// (markdownlint's sort, stable).
pub open spec fn sorted_fixes(fixes: Seq<(usize, FixInfo)>, k: int) -> Seq<NormV>
    decreases k,
{
    if k <= 0 {
        Seq::empty()
    } else {
        let s = sorted_fixes(fixes, k - 1);
        let x = spec_normalize(fixes[k - 1].1, fixes[k - 1].0 as int);
        s.insert(insert_pos(s, x, 0), x)
    }
}

/// The first `k` of `s` without repeats of the fix just before.
pub open spec fn dedup_upto(s: Seq<NormV>, k: int) -> Seq<NormV>
    decreases k,
{
    if k <= 0 {
        Seq::empty()
    } else {
        let d = dedup_upto(s, k - 1);
        if d.len() > 0 && d.last() == s[k - 1] {
            d
        } else {
            d.push(s[k - 1])
        }
    }
}

/// An insertion followed by a deletion at the same place, merged into one
/// replacement at position `i` (the insertion's place left as a no-op).
pub open spec fn merge_step(d: Seq<NormV>, i: int) -> Seq<NormV> {
    let last = d[i - 1];
    let cur = d[i];
    if cur.line_number == last.line_number && cur.edit_column == last.edit_column && cur.insert_text.len()
        == 0 && cur.delete_count > 0 && last.insert_text.len() > 0 && last.delete_count == 0 {
        d.update(
            i,
            NormV {
                line_number: cur.line_number,
                edit_column: cur.edit_column,
                delete_count: cur.delete_count,
                insert_text: last.insert_text,
            },
        ).update(
            i - 1,
            NormV {
                line_number: 0,
                edit_column: last.edit_column,
                delete_count: last.delete_count,
                insert_text: Seq::empty(),
            },
        )
    } else {
        d
    }
}

/// `d` once the merges at positions `1..i` are made, in order.
pub open spec fn merged_upto(d: Seq<NormV>, i: int) -> Seq<NormV>
    decreases i,
{
    if i <= 1 {
        d
    } else {
        merge_step(merged_upto(d, i - 1), i - 1)
    }
}

/// The lines while fixes are applied, and the line and column of the last
/// fix applied or passed over.
pub struct ApplyState {
    pub lines: Seq<Option<Seq<char>>>,
    pub last_line: int,
    pub last_edit: int,
}

/// One fix applied: a fix of line 0 (a merged insertion) is passed over;
/// otherwise it is applied to its line unless it overlaps the fix before
/// it on the same line, or its line is gone or out of range.
pub open spec fn apply_step(st: ApplyState, fi: NormV, ending: Seq<char>) -> ApplyState {
    if fi.line_number == 0 {
        st
    } else {
        let li = fi.line_number - 1;
        let ei = fi.edit_column - 1;
        let back: int = if fi.delete_count > 0 {
            0
        } else {
            1
        };
        let lines = if (li != st.last_line || fi.delete_count == -1 || ei + fi.delete_count <= st.last_edit - back)
            && 0 <= li < st.lines.len() {
            match st.lines[li] {
                Some(cur) => st.lines.update(li, spec_apply_fix_v(cur, fi, ending)),
                None => st.lines,
            }
        } else {
            st.lines
        };
        ApplyState { lines, last_line: li, last_edit: ei }
    }
}

/// The state after the first `k` fixes of `fs`.
pub open spec fn apply_upto(st: ApplyState, fs: Seq<NormV>, ending: Seq<char>, k: int) -> ApplyState
    decreases k,
{
    if k <= 0 {
        st
    } else {
        apply_step(apply_upto(st, fs, ending, k - 1), fs[k - 1], ending)
    }
}

/// What applying `fixes` to `input` gives: the fixes normalized, sorted,
/// without repeats and with insertions merged into deletions, applied to
/// the lines in order, and the lines joined with the preferred line
/// ending.
pub open spec fn spec_apply_fixes(input: Seq<char>, fixes: Seq<(usize, FixInfo)>) -> Seq<char> {
    let ending = spec_preferred_line_ending(input);
    let lines = crate::re::regex_split("\\r\\n|\\r|\\n"@, input).map_values(|l: Seq<char>| Some(l));
    let sorted = sorted_fixes(fixes, fixes.len() as int);
    let deduped = dedup_upto(sorted, sorted.len() as int);
    let merged = merged_upto(deduped, deduped.len() as int);
    let done = apply_upto(ApplyState { lines, last_line: -1, last_edit: -1 }, merged, ending, merged.len() as int);
    spec_join(done.lines, ending)
}

/// Two fixes are the same fix.
fn same_fix(a: &Norm, b: &Norm) -> (r: bool)
    ensures
        r == (a.line_number == b.line_number && a.edit_column == b.edit_column && a.delete_count
            == b.delete_count && a.insert_text@ == b.insert_text@),
{
    a.line_number == b.line_number && a.edit_column == b.edit_column && a.delete_count
        == b.delete_count && crate::rules::slice_eq(&a.insert_text, &b.insert_text)
}

/// The lines joined with `sep`, deleted lines (`None`) left out.
pub open spec fn spec_join(lines: Seq<Option<Seq<char>>>, sep: Seq<char>) -> Seq<char>
    decreases lines.len(),
{
    if lines.len() == 0 {
        Seq::empty()
    } else {
        let rest = spec_join(lines.drop_last(), sep);
        match lines.last() {
            Some(l) => if spec_any_line(lines.drop_last()) {
                rest + sep + l
            } else {
                l
            },
            None => rest,
        }
    }
}

/// Some line is kept.
pub open spec fn spec_any_line(lines: Seq<Option<Seq<char>>>) -> bool {
    exists|k: int| 0 <= k < lines.len() && (#[trigger] lines[k]) is Some
}

/// The view of optional lines.
pub open spec fn opt_lines(lines: Seq<Option<Vec<char>>>) -> Seq<Option<Seq<char>>> {
    lines.map_values(|o: Option<Vec<char>>| opt_seq(o))
}

proof fn lemma_join_none(lines: Seq<Option<Seq<char>>>, sep: Seq<char>)
    requires
        !spec_any_line(lines),
    ensures
        spec_join(lines, sep) == Seq::<char>::empty(),
    decreases lines.len(),
{
    if lines.len() > 0 {
        let pre = lines.drop_last();
        assert(!spec_any_line(pre)) by {
            assert forall|w: int| 0 <= w < pre.len() implies !(#[trigger] pre[w] is Some) by {
                assert(pre[w] == lines[w]);
            }
        }
        lemma_join_none(pre, sep);
        assert(!(lines[lines.len() - 1] is Some));
    }
}

/// Join the kept lines with `sep`.
fn join_lines(lines: &Vec<Option<Vec<char>>>, sep: &[char]) -> (r: Vec<char>)
    ensures
        r@ == spec_join(opt_lines(lines@), sep@),
{
    let mut out: Vec<char> = Vec::new();
    let mut any = false;
    let mut k: usize = 0;
    while k < lines.len()
        invariant
            k <= lines@.len(),
            out@ == spec_join(opt_lines(lines@.take(k as int)), sep@),
            any == spec_any_line(opt_lines(lines@.take(k as int))),
        decreases lines@.len() - k,
    {
        let ghost pre = opt_lines(lines@.take(k as int));
        let ghost cur = opt_lines(lines@.take(k + 1));
        proof {
            assert(cur.drop_last() =~= pre);
            assert(cur.last() == opt_seq(lines@[k as int]));
        }
        match &lines[k] {
            Some(l) => {
                if any {
                    push_from(&mut out, sep, 0, sep.len());
                    proof {
                        assert(sep@.subrange(0, sep@.len() as int) =~= sep@);
                    }
                }
                push_from(&mut out, l, 0, l.len());
                proof {
                    assert(l@.subrange(0, l@.len() as int) =~= l@);
                    if !any {
                        lemma_join_none(pre, sep@);
                        assert(out@ =~= l@);
                    }
                    assert(cur[k as int] is Some);
                }
                any = true;
            },
            None => {
                proof {
                    if any {
                        let w = choose|w: int| 0 <= w < pre.len() && (#[trigger] pre[w]) is Some;
                        assert(cur[w] == pre[w]);
                    } else {
                        assert forall|w: int| 0 <= w < cur.len() implies !(#[trigger] cur[w] is Some) by {
                            if w < pre.len() {
                                assert(cur[w] == pre[w]);
                            }
                        }
                    }
                }
            },
        }
        k += 1;
    }
    proof {
        assert(lines@.take(lines@.len() as int) =~= lines@);
    }
    out
}

/// The lines of a text as kept lines.
fn kept(lines: Vec<Vec<char>>) -> (r: Vec<Option<Vec<char>>>)
    ensures
        r@.len() == lines@.len(),
        forall|k: int| 0 <= k < r@.len() ==> #[trigger] r@[k] == Some(lines@[k]),
{
    let mut out: Vec<Option<Vec<char>>> = Vec::new();
    let mut src = lines;
    let ghost orig = src@;
    let mut rev: Vec<Vec<char>> = Vec::new();
    while src.len() > 0
        invariant
            src@.len() + rev@.len() == orig.len(),
            forall|k: int| 0 <= k < src@.len() ==> #[trigger] src@[k] == orig[k],
            forall|k: int| 0 <= k < rev@.len() ==> #[trigger] rev@[k] == orig[orig.len() - 1 - k],
        decreases src@.len(),
    {
        let x = src.pop().unwrap();
        rev.push(x);
    }
    while rev.len() > 0
        invariant
            out@.len() + rev@.len() == orig.len(),
            forall|k: int| 0 <= k < rev@.len() ==> #[trigger] rev@[k] == orig[orig.len() - 1 - k],
            forall|k: int| 0 <= k < out@.len() ==> #[trigger] out@[k] == Some(orig[k]),
        decreases rev@.len(),
    {
        let x = rev.pop().unwrap();
        out.push(Some(x));
    }
    out
}

/// Apply the fixes reported on `input` (each with the line of its
/// problem), as markdownlint's `applyFixes` does: fixes are applied bottom
/// to top and right to left, duplicates once, an insertion and a deletion
/// at the same place merged into a replacement, and a fix that overlaps
/// the previous one on its line skipped. The lines are joined with the
/// document's preferred line ending.
#[verifier::rlimit(30)]
pub fn apply_fixes(input: &str, fixes: &Vec<(usize, FixInfo)>) -> (r: Vec<char>)
    ensures
        r@ == spec_apply_fixes(input@, fixes@),
        fixes@.len() == 0 ==> r@ == spec_join(
            crate::re::regex_split("\\r\\n|\\r|\\n"@, input@).map_values(|l: Seq<char>| Some(l)),
            spec_preferred_line_ending(input@),
        ),
{
    let chars = chars_of(input);
    let line_ending = preferred_line_ending(&chars);
    let split = split_lines(&chars);
    let ghost split_view = split@.map_values(|v: Vec<char>| v@);
    let mut lines = kept(split);
    proof {
        let target = crate::re::regex_split("\\r\\n|\\r|\\n"@, input@).map_values(
            |l: Seq<char>| Some(l),
        );
        assert(split_view == crate::re::regex_split("\\r\\n|\\r|\\n"@, input@));
        assert forall|k: int| 0 <= k < lines@.len() implies #[trigger] opt_lines(lines@)[k] == target[k] by {
            assert(lines@[k] is Some);
            assert(opt_seq(lines@[k]) == Some(split_view[k]));
        }
        assert(opt_lines(lines@) =~= target);
    }
    if fixes.len() == 0 {
        return join_lines(&lines, &line_ending);
    }
    // Normalize, then sort (stable insertion).
    let ghost fv = fixes@;
    let mut sorted: Vec<Norm> = Vec::new();
    let mut f: usize = 0;
    while f < fixes.len()
        invariant
            f <= fixes@.len(),
            fv == fixes@,
            nviews(sorted@) == sorted_fixes(fv, f as int),
        decreases fixes@.len() - f,
    {
        let x = normalize(&fixes[f].1, fixes[f].0);
        let ghost s0 = nviews(sorted@);
        let mut pos: usize = 0;
        let mut found = false;
        while pos < sorted.len() && !found
            invariant
                pos <= sorted@.len(),
                s0 == nviews(sorted@),
                insert_pos(s0, nview(x), pos as int) == insert_pos(s0, nview(x), 0),
                found ==> pos < sorted@.len() && spec_order(nview(x), s0[pos as int]) is Before,
            decreases sorted@.len() - pos + (if found { 0int } else { 1int }),
        {
            match order(&x, &sorted[pos]) {
                Order::Before => {
                    found = true;
                },
                _ => {
                    pos += 1;
                },
            }
        }
        proof {
            assert(insert_pos(s0, nview(x), pos as int) == pos);
        }
        let ghost xv = nview(x);
        sorted.insert(pos, x);
        proof {
            assert(nviews(sorted@) =~= s0.insert(pos as int, xv));
        }
        f += 1;
    }
    // Remove duplicates.
    let ghost all = nviews(sorted@);
    let ghost mut taken: int = 0;
    let mut deduped: Vec<Norm> = Vec::new();
    while sorted.len() > 0
        invariant
            0 <= taken <= all.len(),
            taken + sorted@.len() == all.len(),
            nviews(sorted@) == all.skip(taken),
            nviews(deduped@) == dedup_upto(all, taken),
        decreases sorted@.len(),
    {
        let ghost before = sorted@;
        let x = sorted.remove(0);
        proof {
            assert(nviews(before)[0] == nview(before[0]));
            assert(all.skip(taken)[0] == all[taken]);
            assert(nview(x) == all[taken]);
        }
        let dup = deduped.len() > 0 && same_fix(&deduped[deduped.len() - 1], &x);
        let ghost d0 = nviews(deduped@);
        if !dup {
            deduped.push(x);
            proof {
                assert(nviews(deduped@) =~= d0.push(all[taken]));
            }
        }
        proof {
            assert(sorted@ =~= before.subrange(1, before.len() as int));
            assert forall|j: int| 0 <= j < sorted@.len() implies #[trigger] nviews(sorted@)[j] == all[
                taken + 1 + j] by {
                assert(nviews(before)[j + 1] == nview(before[j + 1]));
                assert(all.skip(taken)[j + 1] == all[taken + 1 + j]);
            }
            taken = taken + 1;
            assert(nviews(sorted@) =~= all.skip(taken));
        }
    }
    // Merge an insertion followed by a deletion at the same place.
    let ghost dd = nviews(deduped@);
    let mut i: usize = 1;
    while i < deduped.len()
        invariant
            1 <= i,
            i <= deduped@.len() || i == 1,
            deduped@.len() == dd.len(),
            nviews(deduped@) == merged_upto(dd, i as int),
        decreases deduped@.len() - i,
    {
        let ghost m0 = nviews(deduped@);
        let merge = {
            let last = &deduped[i - 1];
            let cur = &deduped[i];
            cur.line_number == last.line_number && cur.edit_column == last.edit_column
                && cur.insert_text.len() == 0 && cur.delete_count > 0 && last.insert_text.len() > 0
                && last.delete_count == 0
        };
        if merge {
            let text = slice_vec(&deduped[i - 1].insert_text, 0, deduped[i - 1].insert_text.len());
            proof {
                assert(text@ =~= m0[i - 1].insert_text);
            }
            let cur = Norm {
                line_number: deduped[i].line_number,
                edit_column: deduped[i].edit_column,
                delete_count: deduped[i].delete_count,
                insert_text: text,
            };
            deduped.set(i, cur);
            let prev = Norm {
                line_number: 0,
                edit_column: deduped[i - 1].edit_column,
                delete_count: deduped[i - 1].delete_count,
                insert_text: Vec::new(),
            };
            deduped.set(i - 1, prev);
            proof {
                assert(nviews(deduped@) =~= merge_step(m0, i as int));
            }
        } else {
            proof {
                assert(merge_step(m0, i as int) == m0);
            }
        }
        i += 1;
    }
    let ghost merged = nviews(deduped@);
    proof {
        assert(merged == merged_upto(dd, dd.len() as int));
    }
    // Apply.
    let ghost st0 = ApplyState { lines: opt_lines(lines@), last_line: -1, last_edit: -1 };
    let ghost n_lines = lines@.len();
    let mut last_line_index: i128 = -1;
    let mut last_edit_index: i128 = -1;
    let mut k: usize = 0;
    while k < deduped.len()
        invariant
            k <= deduped@.len(),
            merged == nviews(deduped@),
            lines@.len() == n_lines,
            line_ending@ == spec_preferred_line_ending(input@),
            opt_lines(lines@) == apply_upto(st0, merged, line_ending@, k as int).lines,
            last_line_index == apply_upto(st0, merged, line_ending@, k as int).last_line,
            last_edit_index == apply_upto(st0, merged, line_ending@, k as int).last_edit,
            i64::MIN - 1 <= last_line_index <= i64::MAX,
            i64::MIN - 1 <= last_edit_index <= i64::MAX,
        decreases deduped@.len() - k,
    {
        let fi = &deduped[k];
        let ghost fv = merged[k as int];
        let ghost lv0 = opt_lines(lines@);
        proof {
            assert(nview(*fi) == fv);
        }
        k += 1;
        if fi.line_number == 0 {
            continue;
        }
        let line_index: i128 = fi.line_number as i128 - 1;
        let edit_index: i128 = fi.edit_column as i128 - 1;
        let del: i128 = fi.delete_count as i128;
        let back: i128 = if fi.delete_count > 0 {
            0
        } else {
            1
        };
        if (line_index != last_line_index || fi.delete_count == -1 || edit_index + del
            <= last_edit_index - back) && line_index >= 0 && line_index < lines.len() as i128 {
            let idx = line_index as usize;
            let updated = match &lines[idx] {
                Some(cur) => Some(apply_fix(cur, fi, &line_ending)),
                None => None,
            };
            match updated {
                Some(u) => {
                    lines.set(idx, u);
                    proof {
                        assert(opt_lines(lines@) =~= lv0.update(idx as int, opt_seq(u)));
                    }
                },
                None => {},
            }
        }
        last_line_index = line_index;
        last_edit_index = edit_index;
    }
    join_lines(&lines, &line_ending)
}

/// What fixing a document gives.
pub struct FixResult {
    pub fixed: Vec<char>,
    pub changed: bool,
}

/// The fixes of `errors`, in order, each with the line of its problem.
pub open spec fn fixes_of(errors: Seq<LintError>) -> Seq<(usize, FixInfo)>
    decreases errors.len(),
{
    if errors.len() == 0 {
        Seq::empty()
    } else {
        let rest = fixes_of(errors.drop_last());
        match errors.last().fix_info {
            Some(fi) => rest.push((errors.last().line_number, fi)),
            None => rest,
        }
    }
}

/// What fixing `content` with the fixes of `errors` gives: `content`
/// itself when none has a fix, else the fixes applied.
pub open spec fn spec_fixed(content: Seq<char>, errors: Seq<LintError>) -> Seq<char> {
    if fixes_of(errors).len() == 0 {
        content
    } else {
        spec_apply_fixes(content, fixes_of(errors))
    }
}

/// Apply the fixes of the problems reported on `content`, once; `changed`
/// says whether the text differs from `content`.
#[verifier::rlimit(30)]
pub fn fix_reported(content: &str, errors: Vec<LintError>) -> (r: FixResult)
    ensures
        r.fixed@ == spec_fixed(content@, errors@),
        r.changed == (r.fixed@ != content@),
{
    let ghost orig = errors@;
    let mut rest = errors;
    let mut fixes: Vec<(usize, FixInfo)> = Vec::new();
    let ghost mut t: int = 0;
    while rest.len() > 0
        invariant
            0 <= t <= orig.len(),
            rest@ == orig.skip(t),
            fixes@ == fixes_of(orig.take(t)),
        decreases rest@.len(),
    {
        let le = rest.remove(0);
        proof {
            assert(orig.skip(t)[0] == orig[t]);
            assert(orig.take(t + 1).drop_last() =~= orig.take(t));
        }
        match le.fix_info {
            Some(fi) => fixes.push((le.line_number, fi)),
            None => {},
        }
        proof {
            t = t + 1;
            assert(rest@ =~= orig.skip(t));
        }
    }
    proof {
        assert(orig.take(orig.len() as int) =~= orig);
    }
    let original = chars_of(content);
    if fixes.len() == 0 {
        return FixResult { fixed: original, changed: false };
    }
    let fixed = apply_fixes(content, &fixes);
    let changed = !crate::rules::slice_eq(&fixed, &original);
    FixResult { fixed, changed }
}

/// Lint `content`, then apply every fix reported, once (`markdownlint
/// --fix`); `directive_configs` as for `lint_config`.
pub fn fix_content(content: &str, cfg: &Config, directive_configs: &Vec<Option<Config>>) -> (r: FixResult)
    requires
        content@.len() < usize::MAX / 8,
    ensures
        exists|errors: Seq<LintError>|
            #![trigger spec_fixed(content@, errors)]
            (forall|k: int| 0 <= k < errors.len() ==> 1 <= (#[trigger] errors[k]).line_number)
                && crate::linter::lint_config_result(content@, *cfg, directive_configs@, crate::linter::lint_errors_v(errors))
                && r.fixed@ == spec_fixed(content@, errors),
        r.changed == (r.fixed@ != content@),
{
    let errors = lint_config(content, cfg, directive_configs);
    let ghost ev = errors@;
    let r = fix_reported(content, errors);
    proof {
        assert(r.fixed@ == spec_fixed(content@, ev));
    }
    r
}

/// The changes of a line diff of `before` and `after`, as
/// `similar::TextDiff::from_lines` gives them in the groups of
/// `grouped_ops(context)`: each change's tag (0 deleted, 1 inserted, 2
/// unchanged) and its line, line break included.
pub uninterp spec fn similar_line_changes(before: Seq<char>, after: Seq<char>, context: int) -> Seq<(u8, Seq<char>)>;

/// `similar::TextDiff::from_lines` over the two texts, its grouped
/// operations with three lines of context, and each change of each group:
/// the changes are named by `similar_line_changes`, not described.
#[verifier::external_body]
fn diff_changes(before: &[char], after: &[char]) -> (r: Vec<(u8, Vec<char>)>)
    ensures
        r@.map_values(|x: (u8, Vec<char>)| (x.0, x.1@)) == similar_line_changes(before@, after@, 3),
{
    let (b, a): (String, String) = (before.iter().collect(), after.iter().collect());
    let diff = similar::TextDiff::from_lines(&b, &a);
    let mut out = Vec::new();
    for op in diff.grouped_ops(3).iter().flatten() {
        for c in diff.iter_changes(op) {
            let tag: u8 = match c.tag() {
                similar::ChangeTag::Delete => 0,
                similar::ChangeTag::Insert => 1,
                similar::ChangeTag::Equal => 2,
            };
            out.push((tag, c.value().chars().collect()));
        }
    }
    out
}

/// The sign a unified diff puts before a change of tag `t`.
pub open spec fn diff_sign(t: u8) -> char {
    if t == 0 {
        '-'
    } else if t == 1 {
        '+'
    } else {
        ' '
    }
}

/// The first `k` changes rendered: each line after its sign, with a line
/// break added where it has none.
pub open spec fn render_changes(cs: Seq<(u8, Seq<char>)>, k: int) -> Seq<char>
    decreases k,
{
    if k <= 0 {
        Seq::empty()
    } else {
        let (t, v) = cs[k - 1];
        render_changes(cs, k - 1) + seq![diff_sign(t)] + v + if v.len() > 0 && v.last() == '\n' {
            Seq::empty()
        } else {
            seq!['\n']
        }
    }
}

/// The header of a unified diff of `path`.
pub open spec fn diff_header(path: Seq<char>) -> Seq<char> {
    "--- "@ + path + "\n+++ "@ + path + "\n"@
}

/// A unified diff of `before` and `after` (for `--dry-run`): the header,
/// then every change of the line diff with three lines of context.
pub fn unified_diff(path: &[char], before: &[char], after: &[char]) -> (r: Vec<char>)
    ensures
        ({
            let cs = similar_line_changes(before@, after@, 3);
            r@ == diff_header(path@) + render_changes(cs, cs.len() as int)
        }),
{
    let changes = diff_changes(before, after);
    let ghost cs = similar_line_changes(before@, after@, 3);
    let mut out = chars_of("--- ");
    crate::rules::concat(&mut out, path);
    crate::rules::concat(&mut out, &chars_of("\n+++ "));
    crate::rules::concat(&mut out, path);
    crate::rules::concat(&mut out, &chars_of("\n"));
    let ghost head = out@;
    proof {
        assert(head =~= diff_header(path@));
        assert(head + render_changes(cs, 0) =~= head);
    }
    let mut k: usize = 0;
    while k < changes.len()
        invariant
            k <= changes@.len(),
            cs.len() == changes@.len(),
            forall|j: int| 0 <= j < changes@.len() ==> #[trigger] cs[j] == (changes@[j].0, changes@[j].1@),
            out@ == head + render_changes(cs, k as int),
        decreases changes@.len() - k,
    {
        let (t, v) = (changes[k].0, &changes[k].1);
        proof {
            assert(cs[k as int] == (changes@[k as int].0, changes@[k as int].1@));
        }
        let sign = if t == 0 {
            '-'
        } else if t == 1 {
            '+'
        } else {
            ' '
        };
        let ghost before_out = out@;
        out.push(sign);
        crate::rules::concat(&mut out, v);
        if !(v.len() > 0 && v[v.len() - 1] == '\n') {
            out.push('\n');
        }
        proof {
            assert(out@ =~= head + render_changes(cs, k + 1));
        }
        k += 1;
    }
    out
}

} // verus!
