//! Emphasis and strong resolution: a pragmatic version of the CommonMark
//! delimiter-run algorithm over one line of inline text.

use vstd::prelude::*;

use crate::text::{is_whitespace, is_ascii_punct, spec_is_ascii_punct};

verus! {

/// A resolved emphasis/strong span (marker character positions).
#[derive(Clone, Copy)]
pub struct EmphSpan {
    pub open_start: usize,
    pub open_len: usize,
    pub close_start: usize,
    pub close_len: usize,
    pub ch: char,
}

/// A run of `*` or `_` delimiters: where it starts, its length, how many
/// of its markers are still unmatched (its first `consumed_start` already
/// closed spans), and whether it can open or close emphasis.
#[derive(Clone, Copy)]
pub struct DelimRun {
    pub start: usize,
    pub orig: usize,
    pub remaining: usize,
    pub consumed_start: usize,
    pub ch: char,
    pub can_open: bool,
    pub can_close: bool,
}

/// Markdown punctuation for flanking rules: ASCII punctuation.
pub fn is_md_punct(c: char) -> (r: bool)
    ensures
        r == spec_is_ascii_punct(c),
{
    is_ascii_punct(c)
}

/// All of `s[a..b]` equal `c`.
pub open spec fn all_eq(s: Seq<char>, a: int, b: int, c: char) -> bool {
    forall|k: int| a <= k < b ==> #[trigger] s[k] == c
}

/// A span is well placed in `s`: the opening run precedes the closing run,
/// both lie in `s`, have the same length (one for emphasis, two for strong)
/// and consist of the span's marker character, `*` or `_`.
pub open spec fn span_ok(sp: EmphSpan, s: Seq<char>) -> bool {
    &&& sp.open_len == sp.close_len
    &&& (sp.open_len == 1 || sp.open_len == 2)
    &&& sp.open_start + sp.open_len <= sp.close_start
    &&& sp.close_start + sp.close_len <= s.len()
    &&& (sp.ch == '*' || sp.ch == '_')
    &&& all_eq(s, sp.open_start as int, sp.open_start + sp.open_len, sp.ch)
    &&& all_eq(s, sp.close_start as int, sp.close_start + sp.close_len, sp.ch)
}

/// The intervals `[s1, s1 + l1)` and `[s2, s2 + l2)` share no index.
pub open spec fn iv_apart(s1: int, l1: int, s2: int, l2: int) -> bool {
    l1 <= 0 || l2 <= 0 || s1 + l1 <= s2 || s2 + l2 <= s1
}

/// Two spans use no marker in common.
pub open spec fn spans_apart(a: EmphSpan, b: EmphSpan) -> bool {
    &&& iv_apart(a.open_start as int, a.open_len as int, b.open_start as int, b.open_len as int)
    &&& iv_apart(a.open_start as int, a.open_len as int, b.close_start as int, b.close_len as int)
    &&& iv_apart(a.close_start as int, a.close_len as int, b.open_start as int, b.open_len as int)
    &&& iv_apart(a.close_start as int, a.close_len as int, b.close_start as int, b.close_len as int)
}

/// A span uses none of the markers run `r` has left.
spec fn span_off_run(sp: EmphSpan, r: DelimRun) -> bool {
    let ls = r.start + r.consumed_start;
    &&& iv_apart(sp.open_start as int, sp.open_len as int, ls, r.remaining as int)
    &&& iv_apart(sp.close_start as int, sp.close_len as int, ls, r.remaining as int)
}

/// The spans found so far use each marker once, and none the runs still
/// hold.
spec fn markers_fresh(runs: Seq<DelimRun>, spans: Seq<EmphSpan>) -> bool {
    &&& forall|a: int, b: int| 0 <= a < b < spans.len() ==> spans_apart(#[trigger] spans[a], #[trigger] spans[b])
    &&& forall|k: int, x: int| 0 <= k < spans.len() && 0 <= x < runs.len() ==> span_off_run(#[trigger] spans[k], #[trigger] runs[x])
}

spec fn run_ok(r: DelimRun, s: Seq<char>) -> bool {
    &&& r.orig >= 1
    &&& r.start + r.orig <= s.len()
    &&& r.consumed_start + r.remaining <= r.orig
    &&& (r.ch == '*' || r.ch == '_')
    &&& all_eq(s, r.start as int, r.start + r.orig, r.ch)
}

spec fn runs_ok(runs: Seq<DelimRun>, s: Seq<char>) -> bool {
    &&& forall|k: int| 0 <= k < runs.len() ==> run_ok(#[trigger] runs[k], s)
    &&& forall|a: int, b: int|
        0 <= a < b < runs.len() ==> #[trigger] runs[a].start + runs[a].orig <= #[trigger] runs[b].start
}

/// Position `i` lies in one of the masked ranges.
pub open spec fn masked_at(masked: Seq<(usize, usize)>, i: int) -> bool {
    exists|k: int| 0 <= k < masked.len() && (#[trigger] masked[k]).0 <= i < masked[k].1
}

/// The end of the run of `ch` (outside the masked ranges) from `i`.
pub open spec fn run_end(s: Seq<char>, masked: Seq<(usize, usize)>, ch: char, i: int) -> int
    decreases s.len() - i,
{
    if 0 <= i < s.len() && s[i] == ch && !masked_at(masked, i) {
        run_end(s, masked, ch, i + 1)
    } else {
        i
    }
}

pub proof fn lemma_run_end(s: Seq<char>, masked: Seq<(usize, usize)>, ch: char, i: int)
    ensures
        run_end(s, masked, ch, i) >= i,
        0 <= i ==> run_end(s, masked, ch, i) <= s.len() || run_end(s, masked, ch, i) == i,
        all_eq(s, i, run_end(s, masked, ch, i), ch),
    decreases s.len() - i,
{
    if 0 <= i < s.len() && s[i] == ch && !masked_at(masked, i) {
        lemma_run_end(s, masked, ch, i + 1);
    }
}

/// The delimiter run starting at `start`, with its flanking: a run can
/// open when left-flanking, close when right-flanking (for `_`, also not
/// inside a word).
pub open spec fn delim_run(s: Seq<char>, masked: Seq<(usize, usize)>, start: int) -> DelimRun {
    let ch = s[start];
    let end = run_end(s, masked, ch, start);
    let before = if start == 0 { ' ' } else { s[start - 1] };
    let after = if end >= s.len() { ' ' } else { s[end] };
    let bw = crate::text::spec_is_whitespace(before);
    let aw = crate::text::spec_is_whitespace(after);
    let bp = spec_is_ascii_punct(before);
    let ap = spec_is_ascii_punct(after);
    let lf = !aw && (!ap || bw || bp);
    let rf = !bw && (!bp || aw || ap);
    DelimRun {
        start: start as usize,
        orig: (end - start) as usize,
        remaining: (end - start) as usize,
        consumed_start: 0,
        ch,
        can_open: if ch == '_' { lf && (!rf || bp) } else { lf },
        can_close: if ch == '_' { rf && (!lf || ap) } else { rf },
    }
}

/// The delimiter runs of `s` from `i` on; a backslash escapes the next
/// character.
pub open spec fn scan_runs(s: Seq<char>, masked: Seq<(usize, usize)>, i: int) -> Seq<DelimRun>
    decreases s.len() + 2 - i,
{
    if i < 0 || i >= s.len() {
        Seq::empty()
    } else if s[i] == '\\' {
        scan_runs(s, masked, i + 2)
    } else if (s[i] == '*' || s[i] == '_') && !masked_at(masked, i) {
        let end = run_end(s, masked, s[i], i + 1);
        proof {
            lemma_run_end(s, masked, s[i], i + 1);
        }
        seq![delim_run(s, masked, i)] + scan_runs(s, masked, end)
    } else {
        scan_runs(s, masked, i + 1)
    }
}

/// Whether the rule of three keeps opener `rk` from closing with `rc`:
/// one of them can both open and close, and their lengths add up to a
/// multiple of three without both being one.
pub open spec fn blocked(rk: DelimRun, rc: DelimRun) -> bool {
    (rc.can_open || rk.can_close) && (rk.orig % 3 + rc.orig % 3) % 3 == 0 && !(rk.orig % 3 == 0
        && rc.orig % 3 == 0)
}

/// The nearest opener for run `c` among the runs before `k`: same marker,
/// markers left, not blocked.
pub open spec fn find_opener(runs: Seq<DelimRun>, c: int, k: int) -> Option<int>
    decreases k,
{
    if k <= 0 {
        None
    } else {
        let rk = runs[k - 1];
        let rc = runs[c];
        if rk.can_open && rk.ch == rc.ch && rk.remaining > 0 && !blocked(rk, rc) {
            Some(k - 1)
        } else {
            find_opener(runs, c, k - 1)
        }
    }
}

pub proof fn lemma_find_opener(runs: Seq<DelimRun>, c: int, k: int)
    ensures
        find_opener(runs, c, k) matches Some(o) ==> 0 <= o < k,
    decreases k,
{
    if k > 0 {
        lemma_find_opener(runs, c, k - 1);
    }
}

/// Run `c` closes spans with the nearest openers while it has markers
/// left and an opener is found; two markers at a time when both runs
/// have two left. The runs after, and the spans found appended to `spans`.
pub open spec fn close_run(runs: Seq<DelimRun>, spans: Seq<EmphSpan>, c: int) -> (Seq<DelimRun>, Seq<EmphSpan>)
    decreases runs[c].remaining,
{
    if !(0 <= c < runs.len()) || runs[c].remaining == 0 {
        (runs, spans)
    } else {
        match find_opener(runs, c, c) {
            None => (runs, spans),
            Some(o) => {
                proof {
                    lemma_find_opener(runs, c, c);
                }
                let ro = runs[o];
                let rc = runs[c];
                let use_len: usize = if ro.remaining >= 2 && rc.remaining >= 2 { 2 } else { 1 };
                let sp = EmphSpan {
                    open_start: (ro.start + ro.consumed_start + ro.remaining - use_len) as usize,
                    open_len: use_len,
                    close_start: (rc.start + rc.consumed_start) as usize,
                    close_len: use_len,
                    ch: rc.ch,
                };
                let new_o = DelimRun { remaining: (ro.remaining - use_len) as usize, ..ro };
                let new_c = DelimRun {
                    remaining: (rc.remaining - use_len) as usize,
                    consumed_start: (rc.consumed_start + use_len) as usize,
                    ..rc
                };
                close_run(runs.update(o, new_o).update(c, new_c), spans.push(sp), c)
            },
        }
    }
}

/// The spans found by the closing runs from `c` on.
pub open spec fn spans_from(runs: Seq<DelimRun>, spans: Seq<EmphSpan>, c: int, n: int) -> Seq<EmphSpan>
    decreases n - c,
{
    if c < 0 || c >= n {
        spans
    } else if !runs[c].can_close {
        spans_from(runs, spans, c + 1, n)
    } else {
        let (r2, s2) = close_run(runs, spans, c);
        spans_from(r2, s2, c + 1, n)
    }
}

/// The emphasis and strong spans of `s`, closers taken left to right.
pub open spec fn spec_emphasis_spans(s: Seq<char>, masked: Seq<(usize, usize)>) -> Seq<EmphSpan> {
    let runs = scan_runs(s, masked, 0);
    spans_from(runs, Seq::empty(), 0, runs.len() as int)
}

fn in_masked(masked: &[(usize, usize)], i: usize) -> (r: bool)
    ensures
        r == exists|k: int| 0 <= k < masked@.len() && (#[trigger] masked@[k]).0 <= i < masked@[k].1,
{
    let mut k: usize = 0;
    while k < masked.len()
        invariant
            k <= masked@.len(),
            forall|j: int| 0 <= j < k ==> !((#[trigger] masked@[j]).0 <= i < masked@[j].1),
        decreases masked@.len() - k,
    {
        let (a, b) = masked[k];
        if i >= a && i < b {
            return true;
        }
        k += 1;
    }
    false
}

/// Resolve emphasis/strong spans over `chars`, ignoring delimiters inside
/// the given masked (construct) ranges: closers are processed left to right,
/// each matched with the nearest compatible opener (rule of three applied),
/// using two markers when both runs have two left, else one.
#[verifier::rlimit(60)]
pub fn emphasis_spans(chars: &[char], masked: &[(usize, usize)]) -> (r: Vec<EmphSpan>)
    requires
        chars@.len() < usize::MAX / 8,
    ensures
        forall|k: int| 0 <= k < r@.len() ==> span_ok(#[trigger] r@[k], chars@),
        forall|a: int, b: int| 0 <= a < b < r@.len() ==> spans_apart(#[trigger] r@[a], #[trigger] r@[b]),
        r@ == spec_emphasis_spans(chars@, masked@),
{
    let ghost all_runs = scan_runs(chars@, masked@, 0);
    let mut runs: Vec<DelimRun> = Vec::new();
    let mut i: usize = 0;
    proof {
        assert(runs@ + scan_runs(chars@, masked@, 0) =~= all_runs);
    }
    while i < chars.len()
        invariant
            chars@.len() < usize::MAX / 8,
            i <= chars@.len() + 1,
            runs_ok(runs@, chars@),
            forall|k: int| 0 <= k < runs@.len() ==> #[trigger] runs@[k].start + runs@[k].orig <= i,
            runs@ + scan_runs(chars@, masked@, i as int) == all_runs,
        decreases chars@.len() + 1 - i,
    {
        if chars[i] == '\\' {
            i += 2;
            continue;
        }
        if (chars[i] == '*' || chars[i] == '_') && !in_masked(masked, i) {
            let ch = chars[i];
            let start = i;
            let ghost end = run_end(chars@, masked@, ch, start as int);
            let mut n: usize = 0;
            while i < chars.len() && chars[i] == ch && !in_masked(masked, i)
                invariant
                    chars@.len() < usize::MAX / 8,
                    start <= i <= chars@.len(),
                    n == i - start,
                    all_eq(chars@, start as int, i as int, ch),
                    run_end(chars@, masked@, ch, i as int) == end,
                decreases chars@.len() - i,
            {
                n += 1;
                i += 1;
            }
            proof {
                assert(i == end);
            }
            let before = if start == 0 {
                ' '
            } else {
                chars[start - 1]
            };
            let after = if i >= chars.len() {
                ' '
            } else {
                chars[i]
            };
            let before_ws = is_whitespace(before);
            let after_ws = is_whitespace(after);
            let before_punct = is_md_punct(before);
            let after_punct = is_md_punct(after);
            let left_flanking = !after_ws && (!after_punct || before_ws || before_punct);
            let right_flanking = !before_ws && (!before_punct || after_ws || after_punct);
            let (can_open, can_close) = if ch == '_' {
                (
                    left_flanking && (!right_flanking || before_punct),
                    right_flanking && (!left_flanking || after_punct),
                )
            } else {
                (left_flanking, right_flanking)
            };
            let run = DelimRun {
                start,
                orig: n,
                remaining: n,
                consumed_start: 0,
                ch,
                can_open,
                can_close,
            };
            proof {
                assert(n >= 1);
                assert(run == delim_run(chars@, masked@, start as int));
                let ghost before = runs@;
                assert(before.push(run) + scan_runs(chars@, masked@, i as int) =~= before + scan_runs(
                    chars@,
                    masked@,
                    start as int,
                ));
            }
            runs.push(run);
            continue;
        }
        i += 1;
    }
    proof {
        assert(runs@ =~= all_runs);
    }
    let mut spans: Vec<EmphSpan> = Vec::new();
    let mut c: usize = 0;
    let ghost n_runs = runs@.len();
    let ghost target = spec_emphasis_spans(chars@, masked@);
    while c < runs.len()
        invariant
            chars@.len() < usize::MAX / 8,
            runs@.len() == n_runs,
            runs_ok(runs@, chars@),
            c <= runs@.len(),
            forall|k: int| 0 <= k < spans@.len() ==> span_ok(#[trigger] spans@[k], chars@),
            markers_fresh(runs@, spans@),
            spans_from(runs@, spans@, c as int, n_runs as int) == target,
        decreases runs@.len() - c,
    {
        if !runs[c].can_close {
            c += 1;
            continue;
        }
        let ghost goal = close_run(runs@, spans@, c as int);
        loop
            invariant
                chars@.len() < usize::MAX / 8,
                runs@.len() == n_runs,
                runs_ok(runs@, chars@),
                c < runs@.len(),
                forall|k: int| 0 <= k < spans@.len() ==> span_ok(#[trigger] spans@[k], chars@),
                markers_fresh(runs@, spans@),
                close_run(runs@, spans@, c as int) == goal,
            ensures
                runs@.len() == n_runs,
                runs_ok(runs@, chars@),
                forall|k: int| 0 <= k < spans@.len() ==> span_ok(#[trigger] spans@[k], chars@),
                markers_fresh(runs@, spans@),
                (runs@, spans@) == goal,
            decreases runs@[c as int].remaining,
        {
            if runs[c].remaining == 0 {
                break;
            }
            let mut o: Option<usize> = None;
            let mut k: usize = c;
            while k > 0
                invariant_except_break
                    o is None,
                    find_opener(runs@, c as int, c as int) == find_opener(runs@, c as int, k as int),
                invariant
                    k <= c < runs@.len(),
                    o matches Some(x) ==> x < c && runs@[x as int].remaining > 0
                        && runs@[x as int].ch == runs@[c as int].ch,
                ensures
                    match o {
                        Some(x) => find_opener(runs@, c as int, c as int) == Some(x as int),
                        None => find_opener(runs@, c as int, c as int) is None,
                    },
                decreases k,
            {
                k -= 1;
                let rk = runs[k];
                let rc = runs[c];
                if rk.can_open && rk.ch == rc.ch && rk.remaining > 0 {
                    let both_multiple_of_3 = rk.orig % 3 == 0 && rc.orig % 3 == 0;
                    let sum_multiple_of_3 = (rk.orig % 3 + rc.orig % 3) % 3 == 0;
                    let blocked = (rc.can_open || rk.can_close) && sum_multiple_of_3
                        && !both_multiple_of_3;
                    if !blocked {
                        o = Some(k);
                        break;
                    }
                }
            }
            let o = match o {
                Some(o) => o,
                None => break,
            };
            let ghost r0 = runs@;
            let ghost s0 = spans@;
            let ro = runs[o];
            let rc = runs[c];
            proof {
                assert(run_ok(runs@[o as int], chars@));
                assert(run_ok(runs@[c as int], chars@));
            }
            let use_len: usize = if ro.remaining >= 2 && rc.remaining >= 2 {
                2
            } else {
                1
            };
            let open_start = ro.start + ro.consumed_start + ro.remaining - use_len;
            let close_start = rc.start + rc.consumed_start;
            let sp = EmphSpan {
                open_start,
                open_len: use_len,
                close_start,
                close_len: use_len,
                ch: rc.ch,
            };
            proof {
                assert(run_ok(runs@[o as int], chars@));
                assert(run_ok(runs@[c as int], chars@));
                assert(runs@[o as int].start + runs@[o as int].orig <= runs@[c as int].start);
                assert forall|q: int|
                    sp.open_start <= q < sp.open_start + sp.open_len implies #[trigger] chars@[q]
                    == sp.ch by {
                    assert(ro.start <= q < ro.start + ro.orig);
                }
                assert forall|q: int|
                    sp.close_start <= q < sp.close_start + sp.close_len implies #[trigger] chars@[q]
                    == sp.ch by {
                    assert(rc.start <= q < rc.start + rc.orig);
                }
            }
            spans.push(sp);
            let mut new_o = ro;
            new_o.remaining = ro.remaining - use_len;
            runs.set(o, new_o);
            let mut new_c = rc;
            new_c.remaining = rc.remaining - use_len;
            new_c.consumed_start = rc.consumed_start + use_len;
            runs.set(c, new_c);
            proof {
                assert(close_run(r0, s0, c as int) == close_run(runs@, spans@, c as int));
                assert forall|q: int| 0 <= q < runs@.len() implies run_ok(#[trigger] runs@[q], chars@) by {
                }
                assert forall|a: int, b: int| 0 <= a < b < runs@.len() implies #[trigger] runs@[a].start
                    + runs@[a].orig <= #[trigger] runs@[b].start by {
                }
                assert forall|a: int, b: int| 0 <= a < b < spans@.len() implies spans_apart(
                    #[trigger] spans@[a],
                    #[trigger] spans@[b],
                ) by {
                    if b == spans@.len() - 1 {
                        assert(span_off_run(s0[a], r0[o as int]));
                        assert(span_off_run(s0[a], r0[c as int]));
                    } else {
                        assert(spans_apart(s0[a], s0[b]));
                    }
                }
                assert forall|k: int, x: int| 0 <= k < spans@.len() && 0 <= x < runs@.len() implies span_off_run(
                    #[trigger] spans@[k],
                    #[trigger] runs@[x],
                ) by {
                    assert(run_ok(r0[x], chars@));
                    if k < spans@.len() - 1 {
                        assert(span_off_run(s0[k], r0[x]));
                    } else {
                        if x < o {
                            assert(r0[x].start + r0[x].orig <= r0[o as int].start);
                        } else if x > o && x < c {
                            assert(r0[o as int].start + r0[o as int].orig <= r0[x].start);
                            assert(r0[x].start + r0[x].orig <= r0[c as int].start);
                        } else if x > c {
                            assert(r0[c as int].start + r0[c as int].orig <= r0[x].start);
                            assert(r0[o as int].start + r0[o as int].orig <= r0[c as int].start);
                        }
                    }
                }
            }
        }
        c += 1;
    }
    spans
}

} // verus!
