//! Line splitting and the line classifiers the block parser uses to decide
//! which construct a line starts.

use vstd::prelude::*;

use crate::re::{re_find, re_captures, regex_find, regex_captures, groups_in};
use crate::text::{
    is_sp_tab, spec_is_whitespace, is_whitespace, skip_sp_tab, skip_char, lemma_skip_sp_tab,
    lemma_skip_char, skip_run, skip_ws_from, spec_is_ascii_digit, is_ascii_digit,
    spec_is_ascii_alpha, is_ascii_alpha, spec_leading, leading_spaces, spec_is_blank, is_blank,
    char_to_lowercase, lowercase_char, slice_vec, char_is_alphanumeric, is_alphanumeric,
};

verus! {

/// A logical input line (without its terminator) and whether a terminator
/// followed it.
pub struct Line {
    pub chars: Vec<char>,
    pub has_newline: bool,
}

pub open spec fn line_view(l: Line) -> (Seq<char>, bool) {
    (l.chars@, l.has_newline)
}

pub open spec fn lines_view(ls: Seq<Line>) -> Seq<(Seq<char>, bool)> {
    ls.map_values(|l: Line| line_view(l))
}

/// Index of the first `\r` or `\n` at or after `i` (the length if none).
pub open spec fn first_break(s: Seq<char>, i: int) -> int
    decreases s.len() - i,
{
    if 0 <= i < s.len() && s[i] != '\n' && s[i] != '\r' {
        first_break(s, i + 1)
    } else {
        i
    }
}

pub proof fn lemma_first_break(s: Seq<char>, i: int)
    requires
        0 <= i <= s.len(),
    ensures
        i <= first_break(s, i) <= s.len(),
        first_break(s, i) < s.len() ==> (s[first_break(s, i)] == '\n' || s[first_break(s, i)]
            == '\r'),
        forall|k: int| i <= k < first_break(s, i) ==> #[trigger] s[k] != '\n' && s[k] != '\r',
    decreases s.len() - i,
{
    if i < s.len() && s[i] != '\n' && s[i] != '\r' {
        lemma_first_break(s, i + 1);
    }
}

pub proof fn lemma_first_break_skip(s: Seq<char>, a: int, j: int)
    requires
        0 <= a <= s.len(),
        0 <= j <= s.len() - a,
    ensures
        first_break(s.skip(a), j) == first_break(s, a + j) - a,
    decreases s.len() - a - j,
{
    if j < s.len() - a {
        assert(s.skip(a)[j] == s[a + j]);
        lemma_first_break_skip(s, a, j + 1);
    }
}

/// Length of the line terminator at `t`: two for `\r\n`, else one.
pub open spec fn break_len(s: Seq<char>, t: int) -> int {
    if s[t] == '\r' && t + 1 < s.len() && s[t + 1] == '\n' {
        2
    } else {
        1
    }
}

/// Lines of `s`: split at `\n`, `\r\n` and `\r`; a final segment without
/// terminator is a line only when it is not empty.
pub open spec fn spec_split_lines(s: Seq<char>) -> Seq<(Seq<char>, bool)>
    decreases s.len(),
{
    let t = first_break(s, 0);
    if t < 0 || t >= s.len() {
        if s.len() == 0 {
            Seq::empty()
        } else {
            seq![(s, false)]
        }
    } else {
        seq![(s.take(t), true)] + spec_split_lines(s.skip(t + break_len(s, t)))
    }
}

/// Split content into lines at `\n`, `\r\n` and `\r`.
pub fn split_lines(content: &[char]) -> (lines: Vec<Line>)
    ensures
        lines_view(lines@) == spec_split_lines(content@),
{
    let ghost s = content@;
    let mut lines: Vec<Line> = Vec::new();
    let mut cur: Vec<char> = Vec::new();
    let mut start: usize = 0;
    let mut i: usize = 0;
    proof {
        assert(s.skip(0) =~= s);
        assert(lines_view(lines@) =~= Seq::<(Seq<char>, bool)>::empty());
    }
    while i < content.len()
        invariant
            s == content@,
            start <= i <= s.len(),
            cur@ == s.subrange(start as int, i as int),
            forall|k: int| start <= k < i ==> #[trigger] s[k] != '\n' && s[k] != '\r',
            lines_view(lines@) + spec_split_lines(s.skip(start as int)) == spec_split_lines(s),
        decreases s.len() - i,
    {
        let c = content[i];
        if c == '\n' || c == '\r' {
            let ghost rest = s.skip(start as int);
            let ghost old_view = lines_view(lines@);
            let ghost t = i - start;
            let ghost bl = if c == '\r' && i + 1 < s.len() && s[i + 1] == '\n' {
                2int
            } else {
                1int
            };
            proof {
                lemma_first_break(s, i as int);
                lemma_first_break_eq(s, start as int, i as int);
                lemma_first_break_skip(s, start as int, 0);
                assert(first_break(rest, 0) == t);
                assert(rest.take(t) =~= cur@);
                assert(break_len(rest, t) == bl);
                assert(rest.skip(t + bl) =~= s.skip(i + bl));
                assert(spec_split_lines(rest) == seq![(rest.take(t), true)] + spec_split_lines(
                    rest.skip(t + bl),
                ));
            }
            let ghost cur_view = cur@;
            let line = Line { chars: cur, has_newline: true };
            lines.push(line);
            cur = Vec::new();
            if c == '\r' && i + 1 < content.len() && content[i + 1] == '\n' {
                i += 2;
            } else {
                i += 1;
            }
            start = i;
            proof {
                assert(lines_view(lines@) =~= old_view.push((cur_view, true)));
                assert(lines_view(lines@) + spec_split_lines(s.skip(start as int)) =~= old_view
                    + spec_split_lines(rest));
            }
        } else {
            cur.push(c);
            i += 1;
        }
    }
    proof {
        lemma_first_break(s, start as int);
        lemma_first_break_eq(s, start as int, i as int);
        lemma_first_break_skip(s, start as int, 0);
        assert(s.skip(start as int) =~= cur@);
    }
    if cur.len() > 0 {
        lines.push(Line { chars: cur, has_newline: false });
    }
    proof {
        assert(lines_view(lines@) =~= spec_split_lines(s));
    }
    lines
}

proof fn lemma_first_break_eq(s: Seq<char>, a: int, b: int)
    requires
        0 <= a <= b <= s.len(),
        forall|k: int| a <= k < b ==> #[trigger] s[k] != '\n' && s[k] != '\r',
    ensures
        first_break(s, a) == first_break(s, b),
    decreases b - a,
{
    if a < b {
        lemma_first_break_eq(s, a + 1, b);
    }
}

/// `^#{1,6}` followed by a space, a tab or the end: the heading level.
pub open spec fn spec_atx_level(s: Seq<char>) -> Option<usize> {
    let n = skip_char(s, 0, '#');
    if n == 0 || n > 6 {
        None
    } else if n == s.len() || is_sp_tab(s[n]) {
        Some(n as usize)
    } else {
        None
    }
}

/// Level of an ATX heading opener at the start of `trimmed`.
pub fn atx_level(trimmed: &[char]) -> (r: Option<usize>)
    ensures
        r == spec_atx_level(trimmed@),
        r matches Some(n) ==> 1 <= n <= 6 && n <= trimmed@.len(),
{
    let n = skip_run(trimmed, 0, '#');
    if n == 0 || n > 6 {
        return None;
    }
    if n == trimmed.len() || trimmed[n] == ' ' || trimmed[n] == '\t' {
        Some(n)
    } else {
        None
    }
}

/// A fence: three or more backticks or tildes; a backtick fence's rest holds
/// no backtick. Returns the fence character and the run length.
pub open spec fn spec_fenced_fence(s: Seq<char>) -> Option<(char, usize)> {
    if s.len() == 0 || (s[0] != '`' && s[0] != '~') {
        None
    } else {
        let n = skip_char(s, 0, s[0]);
        if n < 3 {
            None
        } else if s[0] == '`' && s.skip(n).contains('`') {
            None
        } else {
            Some((s[0], n as usize))
        }
    }
}

/// `(fence_char, fence_len)` if the line opens or closes a fenced code block.
pub fn fenced_fence(trimmed: &[char]) -> (r: Option<(char, usize)>)
    ensures
        r == spec_fenced_fence(trimmed@),
        r matches Some((c, n)) ==> 3 <= n <= trimmed@.len() && (c == '`' || c == '~'),
{
    if trimmed.len() == 0 {
        return None;
    }
    let first = trimmed[0];
    if first != '`' && first != '~' {
        return None;
    }
    let n = skip_run(trimmed, 0, first);
    if n < 3 {
        return None;
    }
    if first == '`' {
        let mut k: usize = n;
        while k < trimmed.len()
            invariant
                n <= k <= trimmed@.len(),
                n >= 3,
                first == '`',
                first == trimmed@[0],
                n == skip_char(trimmed@, 0, first),
                forall|j: int| n <= j < k ==> trimmed@[j] != '`',
            decreases trimmed@.len() - k,
        {
            if trimmed[k] == '`' {
                proof {
                    assert(trimmed@.skip(n as int)[k - n] == '`');
                    assert(trimmed@.skip(n as int).contains('`'));
                }
                return None;
            }
            k += 1;
        }
        proof {
            assert forall|j: int| 0 <= j < trimmed@.skip(n as int).len() implies trimmed@.skip(
                n as int,
            )[j] != '`' by {
                assert(trimmed@.skip(n as int)[j] == trimmed@[n + j]);
            }
        }
    }
    Some((first, n))
}

pub open spec fn spec_only_fence(s: Seq<char>, c: char) -> bool {
    forall|k: int| 0 <= k < s.len() ==> #[trigger] s[k] == c || is_sp_tab(s[k])
}

/// Whether the line holds only the fence character, spaces and tabs.
pub fn only_fence(trimmed: &[char], fence_char: char) -> (r: bool)
    ensures
        r == spec_only_fence(trimmed@, fence_char),
{
    let mut k: usize = 0;
    while k < trimmed.len()
        invariant
            k <= trimmed@.len(),
            forall|j: int| 0 <= j < k ==> #[trigger] trimmed@[j] == fence_char || is_sp_tab(trimmed@[j]),
        decreases trimmed@.len() - k,
    {
        let c = trimmed[k];
        if !(c == fence_char || c == ' ' || c == '\t') {
            return false;
        }
        k += 1;
    }
    true
}

/// Number of non-whitespace characters among the first `n`.
pub open spec fn count_non_ws(s: Seq<char>, n: int) -> int
    decreases n,
{
    if n <= 0 {
        0
    } else {
        count_non_ws(s, n - 1) + if !spec_is_whitespace(s[n - 1]) {
            1int
        } else {
            0int
        }
    }
}

/// Index of the first non-whitespace character at or after `i`.
pub open spec fn first_non_ws(s: Seq<char>, i: int) -> int
    decreases s.len() - i,
{
    if 0 <= i < s.len() && spec_is_whitespace(s[i]) {
        first_non_ws(s, i + 1)
    } else {
        i
    }
}

proof fn lemma_first_non_ws(s: Seq<char>, i: int)
    requires
        0 <= i <= s.len(),
    ensures
        i <= first_non_ws(s, i) <= s.len(),
        forall|k: int| i <= k < first_non_ws(s, i) ==> spec_is_whitespace(#[trigger] s[k]),
        first_non_ws(s, i) < s.len() ==> !spec_is_whitespace(s[first_non_ws(s, i)]),
    decreases s.len() - i,
{
    if i < s.len() && spec_is_whitespace(s[i]) {
        lemma_first_non_ws(s, i + 1);
    }
}

/// Three or more of one of `-`, `*`, `_`, whitespace ignored.
pub open spec fn spec_is_thematic_break(s: Seq<char>) -> bool {
    let f = first_non_ws(s, 0);
    &&& count_non_ws(s, s.len() as int) >= 3
    &&& (s[f] == '-' || s[f] == '*' || s[f] == '_')
    &&& forall|k: int| 0 <= k < s.len() && !spec_is_whitespace(s[k]) ==> #[trigger] s[k] == s[f]
}

/// Whether the line is a thematic break (`***`, `- - -`, `___`).
pub fn is_thematic_break(trimmed: &[char]) -> (r: bool)
    requires
        trimmed@.len() < usize::MAX / 8,
    ensures
        r == spec_is_thematic_break(trimmed@),
{
    let ghost s = trimmed@;
    let mut f: usize = 0;
    while f < trimmed.len() && is_whitespace(trimmed[f])
        invariant
            f <= s.len(),
            s == trimmed@,
            first_non_ws(s, f as int) == first_non_ws(s, 0),
        decreases s.len() - f,
    {
        f += 1;
    }
    proof {
        lemma_first_non_ws(s, 0);
    }
    if f >= trimmed.len() {
        proof {
            lemma_count_non_ws_zero(s, s.len() as int);
        }
        return false;
    }
    let first = trimmed[f];
    let mut count: usize = 0;
    let mut all_same = true;
    let mut k: usize = 0;
    while k < trimmed.len()
        invariant
            k <= s.len(),
            s == trimmed@,
            s.len() < usize::MAX / 8,
            f < s.len(),
            f == first_non_ws(s, 0),
            first == s[f as int],
            count == count_non_ws(s, k as int),
            0 <= count <= k,
            all_same == forall|j: int|
                0 <= j < k && !spec_is_whitespace(s[j]) ==> #[trigger] s[j] == first,
        decreases s.len() - k,
    {
        let c = trimmed[k];
        if !is_whitespace(c) {
            count += 1;
            if c != first {
                all_same = false;
            }
        }
        k += 1;
    }
    count >= 3 && (first == '-' || first == '*' || first == '_') && all_same
}

proof fn lemma_count_non_ws_zero(s: Seq<char>, n: int)
    requires
        0 <= n <= s.len(),
        forall|k: int| 0 <= k < n ==> spec_is_whitespace(#[trigger] s[k]),
    ensures
        count_non_ws(s, n) == 0,
    decreases n,
{
    if n > 0 {
        lemma_count_non_ws_zero(s, n - 1);
    }
}

/// Length left after removing trailing whitespace from the first `e`.
pub open spec fn rtrim_ws(s: Seq<char>, e: int) -> int
    decreases e,
{
    if e > 0 && spec_is_whitespace(s[e - 1]) {
        rtrim_ws(s, e - 1)
    } else {
        e
    }
}

/// After trailing whitespace is removed: a non-empty run of `=` or `-`.
pub open spec fn spec_is_setext_underline(s: Seq<char>) -> bool {
    let e = rtrim_ws(s, s.len() as int);
    &&& e > 0
    &&& (s[0] == '=' || s[0] == '-')
    &&& forall|k: int| 0 <= k < e ==> #[trigger] s[k] == s[0]
}

/// Whether the line is a setext heading underline.
pub fn is_setext_underline(trimmed: &[char]) -> (r: bool)
    ensures
        r == spec_is_setext_underline(trimmed@),
{
    let mut e: usize = trimmed.len();
    while e > 0 && is_whitespace(trimmed[e - 1])
        invariant
            e <= trimmed@.len(),
            rtrim_ws(trimmed@, e as int) == rtrim_ws(trimmed@, trimmed@.len() as int),
        decreases e,
    {
        e -= 1;
    }
    if e == 0 {
        return false;
    }
    let first = trimmed[0];
    if first != '=' && first != '-' {
        return false;
    }
    let mut k: usize = 0;
    while k < e
        invariant
            k <= e <= trimmed@.len(),
            e == rtrim_ws(trimmed@, trimmed@.len() as int),
            first == trimmed@[0],
            forall|j: int| 0 <= j < k ==> #[trigger] trimmed@[j] == first,
        decreases e - k,
    {
        if trimmed[k] != first {
            return false;
        }
        k += 1;
    }
    true
}

/// Index of the first non-digit at or after `i`.
pub open spec fn skip_digits(s: Seq<char>, i: int) -> int
    decreases s.len() - i,
{
    if 0 <= i < s.len() && spec_is_ascii_digit(s[i]) {
        skip_digits(s, i + 1)
    } else {
        i
    }
}

pub proof fn lemma_skip_digits(s: Seq<char>, i: int)
    requires
        0 <= i <= s.len(),
    ensures
        i <= skip_digits(s, i) <= s.len(),
        forall|k: int| i <= k < skip_digits(s, i) ==> spec_is_ascii_digit(#[trigger] s[k]),
        skip_digits(s, i) < s.len() ==> !spec_is_ascii_digit(s[skip_digits(s, i)]),
    decreases s.len() - i,
{
    if i < s.len() && spec_is_ascii_digit(s[i]) {
        lemma_skip_digits(s, i + 1);
    }
}

/// Advance from `i` over ASCII digits.
pub fn skip_digit_run(s: &[char], i: usize) -> (n: usize)
    requires
        i <= s@.len(),
    ensures
        n == skip_digits(s@, i as int),
        i <= n <= s@.len(),
{
    let mut j = i;
    while j < s.len() && is_ascii_digit(s[j])
        invariant
            i <= j <= s@.len(),
            skip_digits(s@, j as int) == skip_digits(s@, i as int),
        decreases s@.len() - j,
    {
        j += 1;
    }
    j
}

/// A list item marker at the start of `s`: `-`, `+` or `*` followed by a
/// space, a tab or the end (and not a thematic break), or one to nine digits
/// then `.` or `)` followed by a space, a tab or the end. Gives whether the
/// list is ordered, the marker character and the marker length.
pub open spec fn spec_list_marker(s: Seq<char>) -> Option<(bool, char, usize)> {
    if s.len() == 0 {
        None
    } else if s[0] == '-' || s[0] == '+' || s[0] == '*' {
        if s.len() == 1 || is_sp_tab(s[1]) {
            if spec_is_thematic_break(s) {
                None
            } else {
                Some((false, s[0], 1))
            }
        } else {
            None
        }
    } else if spec_is_ascii_digit(s[0]) {
        let n = skip_digits(s, 0);
        if n > 9 {
            None
        } else if n < s.len() && (s[n] == '.' || s[n] == ')') && (n + 1 == s.len() || is_sp_tab(
            s[n + 1],
        )) {
            Some((true, s[n], (n + 1) as usize))
        } else {
            None
        }
    } else {
        None
    }
}

/// `(ordered, marker_char, marker_len)` if the line starts a list item.
pub fn list_marker(trimmed: &[char]) -> (r: Option<(bool, char, usize)>)
    requires
        trimmed@.len() < usize::MAX / 8,
    ensures
        r == spec_list_marker(trimmed@),
        r matches Some((_, _, m)) ==> 1 <= m <= trimmed@.len(),
{
    if trimmed.len() == 0 {
        return None;
    }
    let first = trimmed[0];
    if first == '-' || first == '+' || first == '*' {
        if trimmed.len() == 1 || trimmed[1] == ' ' || trimmed[1] == '\t' {
            if is_thematic_break(trimmed) {
                return None;
            }
            return Some((false, first, 1));
        }
        return None;
    }
    if is_ascii_digit(first) {
        let n = skip_digit_run(trimmed, 0);
        if n > 9 {
            return None;
        }
        if n < trimmed.len() && (trimmed[n] == '.' || trimmed[n] == ')') && (n + 1
            == trimmed.len() || trimmed[n + 1] == ' ' || trimmed[n + 1] == '\t') {
            return Some((true, trimmed[n], n + 1));
        }
    }
    None
}

/// A list item that can interrupt a paragraph: it has content after the
/// marker, and an ordered one starts at exactly `1`.
pub open spec fn spec_interrupts_paragraph_list(s: Seq<char>) -> bool {
    match spec_list_marker(s) {
        Some((ordered, _c, mlen)) => {
            let i = skip_sp_tab(s, mlen as int);
            if i >= s.len() {
                false
            } else if ordered {
                skip_digits(s, 0) == 1 && s[0] == '1'
            } else {
                true
            }
        },
        None => false,
    }
}

/// Whether a list marker here may interrupt a paragraph.
pub fn interrupts_paragraph_list(trimmed: &[char]) -> (r: bool)
    requires
        trimmed@.len() < usize::MAX / 8,
    ensures
        r == spec_interrupts_paragraph_list(trimmed@),
{
    match list_marker(trimmed) {
        Some((ordered, _c, mlen)) => {
            let i = skip_ws_from(trimmed, mlen);
            if i >= trimmed.len() {
                return false;
            }
            if ordered {
                let d = skip_digit_run(trimmed, 0);
                return d == 1 && trimmed[0] == '1';
            }
            true
        },
        None => false,
    }
}

/// `<` followed by `!`, `?`, `/` or an ASCII letter.
pub open spec fn spec_is_html_block_start(s: Seq<char>) -> bool {
    s.len() >= 2 && s[0] == '<' && (s[1] == '!' || s[1] == '?' || s[1] == '/'
        || spec_is_ascii_alpha(s[1]))
}

/// Whether the line starts an HTML block.
pub fn is_html_block_start(trimmed: &[char]) -> (r: bool)
    ensures
        r == spec_is_html_block_start(trimmed@),
{
    trimmed.len() >= 2 && trimmed[0] == '<' && (trimmed[1] == '!' || trimmed[1] == '?'
        || trimmed[1] == '/' || is_ascii_alpha(trimmed[1]))
}

/// Positions of unescaped `|` at or after `i` (a backslash escapes the next
/// character).
pub open spec fn dividers_from(s: Seq<char>, i: int) -> Seq<usize>
    decreases s.len() + 1 - i,
{
    if i < 0 || i >= s.len() {
        Seq::empty()
    } else if s[i] == '\\' {
        dividers_from(s, i + 2)
    } else if s[i] == '|' {
        seq![i as usize] + dividers_from(s, i + 1)
    } else {
        dividers_from(s, i + 1)
    }
}

pub proof fn lemma_dividers_from(s: Seq<char>, i: int)
    requires
        0 <= i,
        s.len() < usize::MAX,
    ensures
        forall|k: int|
            0 <= k < dividers_from(s, i).len() ==> i <= #[trigger] dividers_from(s, i)[k] < s.len()
                && s[dividers_from(s, i)[k] as int] == '|',
        strictly_increasing_usize(dividers_from(s, i)),
    decreases s.len() + 1 - i,
{
    if i < s.len() {
        if s[i] == '\\' {
            lemma_dividers_from(s, i + 2);
        } else if s[i] == '|' {
            lemma_dividers_from(s, i + 1);
            let d = dividers_from(s, i);
            let t = dividers_from(s, i + 1);
            assert forall|k: int| 0 <= k < d.len() implies i <= #[trigger] d[k] < s.len()
                && s[d[k] as int] == '|' by {
                if k > 0 {
                    assert(d[k] == t[k - 1]);
                } else {
                    assert(d[0] == i as usize);
                }
            }
            assert forall|a: int, b: int| 0 <= a < b < d.len() implies d[a] < d[b] by {
                assert(d[b] == t[b - 1]);
                if a > 0 {
                    assert(d[a] == t[a - 1]);
                }
            }
        } else {
            lemma_dividers_from(s, i + 1);
        }
    }
}

pub open spec fn strictly_increasing_usize(s: Seq<usize>) -> bool {
    forall|a: int, b: int| 0 <= a < b < s.len() ==> s[a] < s[b]
}

/// Unescaped `|` positions in `lc` starting from `lead`.
pub fn dividers(lc: &[char], lead: usize) -> (r: Vec<usize>)
    requires
        lc@.len() < usize::MAX / 8,
        lead <= lc@.len(),
    ensures
        r@ == dividers_from(lc@, lead as int),
{
    let mut out: Vec<usize> = Vec::new();
    let mut i = lead;
    while i < lc.len()
        invariant
            lc@.len() < usize::MAX / 8,
            lead <= i <= lc@.len() + 1,
            out@ + dividers_from(lc@, i as int) == dividers_from(lc@, lead as int),
        decreases lc@.len() + 2 - i,
    {
        if lc[i] == '\\' {
            i += 2;
            continue;
        }
        if lc[i] == '|' {
            proof {
                assert(out@.push(i) + dividers_from(lc@, i + 1) =~= out@ + dividers_from(
                    lc@,
                    i as int,
                ));
            }
            out.push(i);
        }
        i += 1;
    }
    proof {
        assert(out@ + dividers_from(lc@, i as int) =~= out@);
    }
    out
}

/// All spaces or tabs in `s[a..b]`.
pub open spec fn all_sp_tab(s: Seq<char>, a: int, b: int) -> bool {
    forall|k: int| a <= k < b ==> is_sp_tab(#[trigger] s[k])
}

fn all_ws(lc: &[char], a: usize, b: usize) -> (r: bool)
    requires
        a <= b <= lc@.len(),
    ensures
        r == all_sp_tab(lc@, a as int, b as int),
{
    let mut k = a;
    while k < b
        invariant
            a <= k <= b <= lc@.len(),
            all_sp_tab(lc@, a as int, k as int),
        decreases b - k,
    {
        if !(lc[k] == ' ' || lc[k] == '\t') {
            return false;
        }
        k += 1;
    }
    true
}

/// Start positions of the cells of a row: `lead` unless only whitespace
/// precedes the first divider, then each divider except a last one followed
/// only by whitespace.
pub open spec fn cell_starts(s: Seq<char>, lead: int) -> Seq<usize> {
    let d = dividers_from(s, lead);
    let leading = all_sp_tab(s, lead, d[0] as int);
    let trailing = all_sp_tab(s, d.last() + 1, s.len() as int);
    let kept = if trailing {
        d.drop_last()
    } else {
        d
    };
    if leading {
        kept
    } else {
        seq![lead as usize] + kept
    }
}

/// Cell spans (char index ranges) of a table row, honouring optional
/// leading and trailing pipes.
pub open spec fn spec_compute_cells(s: Seq<char>, lead: int) -> Seq<(usize, usize)> {
    if dividers_from(s, lead).len() == 0 {
        seq![(lead as usize, s.len() as usize)]
    } else {
        let st = cell_starts(s, lead);
        Seq::new(
            st.len(),
            |i: int|
                (st[i], if i + 1 < st.len() {
                    st[i + 1]
                } else {
                    s.len() as usize
                }),
        )
    }
}

proof fn lemma_cell_starts(s: Seq<char>, lead: int)
    requires
        0 <= lead <= s.len(),
        s.len() < usize::MAX,
        dividers_from(s, lead).len() > 0,
    ensures
        forall|a: int| 0 <= a < cell_starts(s, lead).len() ==> lead <= #[trigger] cell_starts(s, lead)[a] < s.len(),
        strictly_increasing_usize(cell_starts(s, lead)),
{
    lemma_dividers_from(s, lead);
    let d = dividers_from(s, lead);
    let leading = all_sp_tab(s, lead, d[0] as int);
    let trailing = all_sp_tab(s, d.last() + 1, s.len() as int);
    let kept = if trailing {
        d.drop_last()
    } else {
        d
    };
    let st = cell_starts(s, lead);
    assert forall|a: int| 0 <= a < st.len() implies lead <= #[trigger] st[a] < s.len() by {
        if !leading && a == 0 {
        } else {
            let j = if leading { a } else { a - 1 };
            assert(st[a] == kept[j]);
            assert(kept[j] == d[j]);
        }
    }
    assert forall|a: int, b: int| 0 <= a < b < st.len() implies st[a] < st[b] by {
        let jb = if leading { b } else { b - 1 };
        assert(st[b] == kept[jb]);
        assert(kept[jb] == d[jb]);
        if !leading && a == 0 {
        } else {
            let ja = if leading { a } else { a - 1 };
            assert(st[a] == kept[ja]);
            assert(kept[ja] == d[ja]);
        }
    }
}

/// Cell spans of a table row starting at `lead`.
#[verifier::rlimit(40)]
pub fn compute_cells(lc: &[char], lead: usize) -> (r: Vec<(usize, usize)>)
    requires
        lc@.len() < usize::MAX / 8,
        lead <= lc@.len(),
    ensures
        r@ == spec_compute_cells(lc@, lead as int),
        forall|k: int|
            0 <= k < r@.len() ==> lead <= (#[trigger] r@[k]).0 <= r@[k].1 <= lc@.len(),
{
    let positions = dividers(lc, lead);
    proof {
        lemma_dividers_from(lc@, lead as int);
    }
    if positions.len() == 0 {
        let mut v: Vec<(usize, usize)> = Vec::new();
        v.push((lead, lc.len()));
        proof {
            assert(v@ =~= seq![(lead, lc@.len() as usize)]);
        }
        return v;
    }
    let leading = all_ws(lc, lead, positions[0]);
    let last = positions[positions.len() - 1];
    let trailing = all_ws(lc, last + 1, lc.len());
    let mut starts: Vec<usize> = Vec::new();
    if !leading {
        starts.push(lead);
    }
    let mut idx: usize = 0;
    let ghost base = starts@;
    while idx < positions.len()
        invariant
            idx <= positions@.len(),
            positions@ == dividers_from(lc@, lead as int),
            positions@.len() > 0,
            starts@ == base + (if trailing {
                positions@.drop_last()
            } else {
                positions@
            }).take(if trailing && idx == positions@.len() {
                idx - 1
            } else {
                idx as int
            }),
        decreases positions@.len() - idx,
    {
        if trailing && idx == positions.len() - 1 {
            idx += 1;
            continue;
        }
        let p = positions[idx];
        proof {
            let kept = if trailing {
                positions@.drop_last()
            } else {
                positions@
            };
            assert(kept.take(idx + 1) =~= kept.take(idx as int).push(p));
        }
        starts.push(p);
        idx += 1;
    }
    proof {
        let kept = if trailing {
            positions@.drop_last()
        } else {
            positions@
        };
        assert(kept.take(kept.len() as int) =~= kept);
        assert(starts@ =~= cell_starts(lc@, lead as int));
        lemma_cell_starts(lc@, lead as int);
    }
    let mut cells: Vec<(usize, usize)> = Vec::new();
    let mut i: usize = 0;
    while i < starts.len()
        invariant
            i <= starts@.len(),
            forall|a: int| 0 <= a < starts@.len() ==> lead <= #[trigger] starts@[a] < lc@.len(),
            forall|a: int, b: int| 0 <= a < b < starts@.len() ==> starts@[a] < starts@[b],
            cells@.len() == i,
            forall|k: int|
                0 <= k < i ==> #[trigger] cells@[k] == (starts@[k], if k + 1 < starts@.len() {
                    starts@[k + 1]
                } else {
                    lc@.len() as usize
                }),
        decreases starts@.len() - i,
    {
        let cs = starts[i];
        let ce = if i + 1 < starts.len() {
            starts[i + 1]
        } else {
            lc.len()
        };
        cells.push((cs, ce));
        i += 1;
    }
    proof {
        let st = starts@;
        let spec_cells = Seq::new(
            st.len(),
            |i: int|
                (st[i], if i + 1 < st.len() {
                    st[i + 1]
                } else {
                    lc@.len() as usize
                }),
        );
        assert(cells@ =~= spec_cells);
    }
    cells
}

/// Number of cells of a table row.
pub fn count_cells(lc: &[char]) -> (r: usize)
    requires
        lc@.len() < usize::MAX / 8,
    ensures
        r == spec_compute_cells(lc@, spec_leading(lc@)).len(),
{
    let lead = leading_spaces(lc);
    compute_cells(lc, lead).len()
}

/// End after removing spaces and tabs from `s[lo..e]`'s end.
pub open spec fn rtrim_sp_tab(s: Seq<char>, lo: int, e: int) -> int
    decreases e - lo,
{
    if e > lo && is_sp_tab(s[e - 1]) {
        rtrim_sp_tab(s, lo, e - 1)
    } else {
        e
    }
}

/// Start after removing spaces and tabs from `s[p..e]`'s start.
pub open spec fn ltrim_sp_tab(s: Seq<char>, p: int, e: int) -> int
    decreases e - p,
{
    if p < e && is_sp_tab(s[p]) {
        ltrim_sp_tab(s, p + 1, e)
    } else {
        p
    }
}

proof fn lemma_rtrim(s: Seq<char>, lo: int, e: int)
    requires
        lo <= e,
    ensures
        lo <= rtrim_sp_tab(s, lo, e) <= e,
    decreases e - lo,
{
    if e > lo && is_sp_tab(s[e - 1]) {
        lemma_rtrim(s, lo, e - 1);
    }
}

proof fn lemma_ltrim(s: Seq<char>, p: int, e: int)
    requires
        p <= e,
    ensures
        p <= ltrim_sp_tab(s, p, e) <= e,
    decreases e - p,
{
    if p < e && is_sp_tab(s[p]) {
        lemma_ltrim(s, p + 1, e);
    }
}

/// Trimmed inner content of the cell `s[cs..ce]`: a leading pipe, a trailing
/// pipe and surrounding spaces and tabs removed.
pub open spec fn spec_cell_content(s: Seq<char>, cs: int, ce: int) -> Seq<char> {
    let p0 = if cs < ce && s[cs] == '|' {
        cs + 1
    } else {
        cs
    };
    let e1 = rtrim_sp_tab(s, p0, ce);
    let e2 = if e1 > p0 && s[e1 - 1] == '|' {
        e1 - 1
    } else {
        e1
    };
    let e3 = rtrim_sp_tab(s, p0, e2);
    let p = ltrim_sp_tab(s, p0, e3);
    s.subrange(p, e3)
}

pub fn rtrim_from(lc: &[char], lo: usize, e: usize) -> (r: usize)
    requires
        lo <= e <= lc@.len(),
    ensures
        r == rtrim_sp_tab(lc@, lo as int, e as int),
        lo <= r <= e,
{
    let mut k = e;
    while k > lo && (lc[k - 1] == ' ' || lc[k - 1] == '\t')
        invariant
            lo <= k <= e <= lc@.len(),
            rtrim_sp_tab(lc@, lo as int, k as int) == rtrim_sp_tab(lc@, lo as int, e as int),
        decreases k,
    {
        k -= 1;
    }
    k
}

/// Content of the cell `lc[cs..ce]` without pipes and padding.
pub fn cell_content(lc: &[char], cs: usize, ce: usize) -> (r: Vec<char>)
    requires
        cs <= ce <= lc@.len(),
    ensures
        r@ == spec_cell_content(lc@, cs as int, ce as int),
{
    let p0 = if cs < ce && lc[cs] == '|' {
        cs + 1
    } else {
        cs
    };
    let e1 = rtrim_from(lc, p0, ce);
    let e2 = if e1 > p0 && lc[e1 - 1] == '|' {
        e1 - 1
    } else {
        e1
    };
    let e3 = rtrim_from(lc, p0, e2);
    let mut p = p0;
    while p < e3 && (lc[p] == ' ' || lc[p] == '\t')
        invariant
            p0 <= p <= e3 <= lc@.len(),
            ltrim_sp_tab(lc@, p as int, e3 as int) == ltrim_sp_tab(lc@, p0 as int, e3 as int),
        decreases e3 - p,
    {
        p += 1;
    }
    slice_vec(lc, p, e3)
}

/// A GFM table delimiter row cell: `^:?-+:?$`.
pub open spec fn delimiter_cell_ok(content: Seq<char>) -> bool {
    regex_find("^:?-+:?$"@, content) is Some
}

/// If `s` is a GFM table delimiter row, its number of columns.
pub open spec fn spec_delimiter_row_cells(s: Seq<char>) -> Option<usize> {
    let lead = spec_leading(s);
    let cells = spec_compute_cells(s, lead);
    if lead >= 4 || spec_is_blank(s) {
        None
    } else if forall|k: int|
        0 <= k < cells.len() ==> delimiter_cell_ok(
            spec_cell_content(s, #[trigger] cells[k].0 as int, cells[k].1 as int),
        ) {
        Some(cells.len() as usize)
    } else {
        None
    }
}

/// Number of columns when `lc` is a valid table delimiter row.
pub fn delimiter_row_cells(lc: &[char]) -> (r: Option<usize>)
    requires
        lc@.len() < usize::MAX / 8,
    ensures
        r == spec_delimiter_row_cells(lc@),
{
    let lead = leading_spaces(lc);
    if lead >= 4 {
        return None;
    }
    if is_blank(lc) {
        return None;
    }
    let cells = compute_cells(lc, lead);
    let mut k: usize = 0;
    while k < cells.len()
        invariant
            k <= cells@.len(),
            lead == spec_leading(lc@),
            cells@ == spec_compute_cells(lc@, lead as int),
            forall|j: int|
                0 <= j < cells@.len() ==> lead <= (#[trigger] cells@[j]).0 <= cells@[j].1
                    <= lc@.len(),
            forall|j: int|
                0 <= j < k ==> delimiter_cell_ok(
                    spec_cell_content(lc@, #[trigger] cells@[j].0 as int, cells@[j].1 as int),
                ),
        decreases cells@.len() - k,
    {
        let (cs, ce) = cells[k];
        let content = cell_content(lc, cs, ce);
        if re_find("^:?-+:?$", &content).is_none() {
            return None;
        }
        k += 1;
    }
    Some(cells.len())
}

/// Width of a block-quote prefix (`>` plus one optional space, after up to
/// three spaces of indentation), or `None` when the line has no `>` prefix.
pub open spec fn bq_width(l: Seq<char>) -> Option<usize> {
    let lead = spec_leading(l);
    if lead >= 4 || lead >= l.len() || l[lead] != '>' {
        None
    } else if lead + 1 < l.len() && l[lead + 1] == ' ' {
        Some((lead + 2) as usize)
    } else {
        Some((lead + 1) as usize)
    }
}

/// Prefix width (marker plus optional single space) of every line of
/// `lines[start..=end]`, or `None` if any line lacks a `>` prefix.
pub fn uniform_bq_prefixes(lines: &[Line], start: usize, end: usize) -> (r: Option<Vec<usize>>)
    requires
        start <= end < lines@.len(),
        forall|k: int| 0 <= k < lines@.len() ==> (#[trigger] lines@[k]).chars@.len() < usize::MAX / 8,
    ensures
        r is Some <==> forall|k: int| start <= k <= end ==> bq_width(#[trigger] lines@[k].chars@) is Some,
        r matches Some(w) ==> {
            &&& w@.len() == end - start + 1
            &&& forall|j: int|
                0 <= j < w@.len() ==> Some(#[trigger] w@[j]) == bq_width(lines@[start + j].chars@)
        },
{
    let mut widths: Vec<usize> = Vec::new();
    let mut k = start;
    while k <= end
        invariant
            start <= k <= end + 1,
            end < lines@.len(),
            forall|q: int| 0 <= q < lines@.len() ==> (#[trigger] lines@[q]).chars@.len() < usize::MAX / 8,
            widths@.len() == k - start,
            forall|q: int| start <= q < k ==> bq_width(#[trigger] lines@[q].chars@) is Some,
            forall|j: int|
                0 <= j < widths@.len() ==> Some(#[trigger] widths@[j]) == bq_width(
                    lines@[start + j].chars@,
                ),
        decreases end + 1 - k,
    {
        let lc = &lines[k].chars;
        let lead = leading_spaces(lc);
        if lead >= 4 || lead >= lc.len() || lc[lead] != '>' {
            return None;
        }
        let mut w = lead + 1;
        if w < lc.len() && lc[w] == ' ' {
            w += 1;
        }
        widths.push(w);
        k += 1;
    }
    Some(widths)
}

/// Left-to-right fold of label normalization over the first `n` chars:
/// whitespace runs become one space, other chars are lowercased.
pub open spec fn norm_fold(t: Seq<char>, n: int) -> (Seq<char>, bool)
    decreases n,
{
    if n <= 0 {
        (Seq::empty(), false)
    } else {
        let (out, prev) = norm_fold(t, n - 1);
        let c = t[n - 1];
        if spec_is_whitespace(c) {
            if !prev {
                (out.push(' '), true)
            } else {
                (out, true)
            }
        } else {
            (out + char_to_lowercase(c), false)
        }
    }
}

/// Reference label normalization: trim, collapse internal whitespace to one
/// space, lowercase.
pub open spec fn spec_normalize_label(s: Seq<char>) -> Seq<char> {
    let a = first_non_ws(s, 0);
    let e = rtrim_ws(s, s.len() as int);
    if a >= e {
        Seq::empty()
    } else {
        norm_fold(s.subrange(a, e), e - a).0
    }
}

proof fn lemma_rtrim_ws(s: Seq<char>, e: int)
    requires
        0 <= e <= s.len(),
    ensures
        0 <= rtrim_ws(s, e) <= e,
        forall|k: int| rtrim_ws(s, e) <= k < e ==> spec_is_whitespace(#[trigger] s[k]),
        rtrim_ws(s, e) > 0 ==> !spec_is_whitespace(s[rtrim_ws(s, e) - 1]),
    decreases e,
{
    if e > 0 && spec_is_whitespace(s[e - 1]) {
        lemma_rtrim_ws(s, e - 1);
    }
}

/// Normalize a reference label (trimmed, whitespace collapsed, lowercase).
pub fn normalize_label(s: &[char]) -> (r: Vec<char>)
    ensures
        r@ == spec_normalize_label(s@),
{
    let mut a: usize = 0;
    while a < s.len() && is_whitespace(s[a])
        invariant
            a <= s@.len(),
            first_non_ws(s@, a as int) == first_non_ws(s@, 0),
        decreases s@.len() - a,
    {
        a += 1;
    }
    let mut e: usize = s.len();
    while e > 0 && is_whitespace(s[e - 1])
        invariant
            e <= s@.len(),
            rtrim_ws(s@, e as int) == rtrim_ws(s@, s@.len() as int),
        decreases e,
    {
        e -= 1;
    }
    let mut out: Vec<char> = Vec::new();
    if a >= e {
        return out;
    }
    let ghost t = s@.subrange(a as int, e as int);
    let mut prev_ws = false;
    let mut k = a;
    while k < e
        invariant
            a <= k <= e <= s@.len(),
            t == s@.subrange(a as int, e as int),
            norm_fold(t, k - a) == (out@, prev_ws),
        decreases e - k,
    {
        let c = s[k];
        proof {
            assert(t[k - a] == c);
        }
        if is_whitespace(c) {
            if !prev_ws {
                out.push(' ');
            }
            prev_ws = true;
        } else {
            let lc = lowercase_char(c);
            let mut j: usize = 0;
            let ghost base = out@;
            while j < lc.len()
                invariant
                    j <= lc@.len(),
                    out@ == base + lc@.take(j as int),
                decreases lc@.len() - j,
            {
                out.push(lc[j]);
                j += 1;
                proof {
                    assert(lc@.take(j as int) =~= lc@.take(j - 1).push(lc@[j - 1]));
                }
            }
            proof {
                assert(lc@.take(lc@.len() as int) =~= lc@);
            }
            prev_ws = false;
        }
        k += 1;
    }
    out
}

/// The labels of all reference definitions (`[label]: destination` lines
/// with at most three spaces of indentation) among the first `n` lines,
/// normalized, in order.
pub open spec fn spec_definition_labels(ls: Seq<Seq<char>>, n: int) -> Seq<Seq<char>>
    decreases n,
{
    if n <= 0 {
        Seq::empty()
    } else {
        let prev = spec_definition_labels(ls, n - 1);
        let l = ls[n - 1];
        match regex_captures("^ {0,3}\\[([^\\]]+)\\]:\\s*\\S"@, l) {
            Some(g) => if g.len() > 1 {
                match g[1] {
                    Some((a, b)) => prev.push(spec_normalize_label(l.subrange(a, b))),
                    None => prev,
                }
            } else {
                prev
            },
            None => prev,
        }
    }
}

pub open spec fn line_texts(ls: Seq<Line>) -> Seq<Seq<char>> {
    ls.map_values(|l: Line| l.chars@)
}

/// Normalized labels of all reference definitions in the document.
pub fn collect_definition_labels(lines: &[Line]) -> (r: Vec<Vec<char>>)
    ensures
        r@.map_values(|v: Vec<char>| v@) == spec_definition_labels(
            line_texts(lines@),
            lines@.len() as int,
        ),
{
    let mut out: Vec<Vec<char>> = Vec::new();
    let mut k: usize = 0;
    while k < lines.len()
        invariant
            k <= lines@.len(),
            out@.map_values(|v: Vec<char>| v@) == spec_definition_labels(
                line_texts(lines@),
                k as int,
            ),
        decreases lines@.len() - k,
    {
        let l = &lines[k].chars;
        proof {
            assert(line_texts(lines@)[k as int] == l@);
        }
        match re_captures("^ {0,3}\\[([^\\]]+)\\]:\\s*\\S", l) {
            Some(g) => {
                if g.len() > 1 {
                    match g[1] {
                        Some((a, b)) => {
                            proof {
                                assert(groups_in(g@, l@.len() as int));
                                assert(g@[1] == Some((a, b)));
                            }
                            let label = slice_vec(l, a, b);
                            let norm = normalize_label(&label);
                            let ghost before = out@;
                            out.push(norm);
                            proof {
                                assert(out@.map_values(|v: Vec<char>| v@) =~= before.map_values(
                                    |v: Vec<char>| v@,
                                ).push(norm@));
                            }
                        },
                        None => {},
                    }
                }
            },
            None => {},
        }
        k += 1;
    }
    out
}

/// A link reference definition line: `[label]: destination`.
pub open spec fn spec_is_definition_line(s: Seq<char>) -> bool {
    regex_find("^\\[[^\\]]+\\]:\\s*\\S"@, s) is Some
}

/// Whether the (trimmed) line is a link reference definition.
pub fn is_definition_line(trimmed: &[char]) -> (r: bool)
    ensures
        r == spec_is_definition_line(trimmed@),
{
    re_find("^\\[[^\\]]+\\]:\\s*\\S", trimmed).is_some()
}

/// The index of the `close` that balances the `open`s from `j` on at nesting
/// `depth`, honouring backslash escapes.
pub open spec fn balance_from(s: Seq<char>, j: int, depth: int, open: char, close: char) -> Option<usize>
    decreases s.len() + 1 - j,
{
    if j < 0 || j >= s.len() {
        None
    } else if s[j] == '\\' {
        balance_from(s, j + 2, depth, open, close)
    } else if s[j] == open {
        balance_from(s, j + 1, depth + 1, open, close)
    } else if s[j] == close {
        if depth - 1 == 0 {
            Some(j as usize)
        } else {
            balance_from(s, j + 1, depth - 1, open, close)
        }
    } else {
        balance_from(s, j + 1, depth, open, close)
    }
}

pub proof fn lemma_balance_from(s: Seq<char>, j: int, depth: int, open: char, close: char)
    requires
        0 <= j,
        s.len() < usize::MAX,
    ensures
        balance_from(s, j, depth, open, close) matches Some(k) ==> j <= k < s.len() && s[k as int] == close,
    decreases s.len() + 1 - j,
{
    if j < s.len() {
        if s[j] == '\\' {
            lemma_balance_from(s, j + 2, depth, open, close);
        } else if s[j] == open {
            lemma_balance_from(s, j + 1, depth + 1, open, close);
        } else if s[j] == close {
            if depth - 1 != 0 {
                lemma_balance_from(s, j + 1, depth - 1, open, close);
            }
        } else {
            lemma_balance_from(s, j + 1, depth, open, close);
        }
    }
}

/// Matching `close` for the `open` expected at index `start`.
pub fn balance(chars: &[char], start: usize, open: char, close: char) -> (r: Option<usize>)
    requires
        chars@.len() < usize::MAX / 8,
        start <= chars@.len(),
    ensures
        r == balance_from(chars@, start as int, 0, open, close),
        r matches Some(k) ==> start <= k < chars@.len(),
{
    proof {
        lemma_balance_from(chars@, start as int, 0, open, close);
    }
    let mut depth: i64 = 0;
    let mut j = start;
    while j < chars.len()
        invariant
            chars@.len() < usize::MAX / 8,
            start <= j <= chars@.len() + 1,
            -(j as int) <= depth <= j,
            balance_from(chars@, j as int, depth as int, open, close) == balance_from(
                chars@,
                start as int,
                0,
                open,
                close,
            ),
        decreases chars@.len() + 1 - j,
    {
        let c = chars[j];
        if c == '\\' {
            j += 2;
            continue;
        }
        if c == open {
            depth += 1;
        } else if c == close {
            depth -= 1;
            if depth == 0 {
                return Some(j);
            }
        }
        j += 1;
    }
    None
}

/// Find the `)` closing the `(` at index `open`, honouring nesting and escapes.
pub fn find_paren_close(chars: &[char], open: usize) -> (r: Option<usize>)
    requires
        chars@.len() < usize::MAX / 8,
        open <= chars@.len(),
    ensures
        r == balance_from(chars@, open as int, 0, '(', ')'),
        r matches Some(k) ==> open <= k < chars@.len(),
{
    balance(chars, open, '(', ')')
}

/// Occurrences of `c` in `s`.
pub open spec fn count_char(s: Seq<char>, c: char) -> int
    decreases s.len(),
{
    if s.len() == 0 {
        0
    } else {
        count_char(s.drop_last(), c) + if s.last() == c {
            1int
        } else {
            0int
        }
    }
}

pub open spec fn is_trailing_punct(c: char) -> bool {
    c == '?' || c == '!' || c == '.' || c == ',' || c == ':' || c == '*' || c == '_' || c == '~'
        || c == ';' || c == '\'' || c == '"'
}

/// GFM trailing-punctuation trimming of a literal autolink: drop trailing
/// punctuation, and a trailing `)` while `)` outnumber `(`.
pub open spec fn spec_trim_url(s: Seq<char>) -> Seq<char>
    decreases s.len(),
{
    if s.len() == 0 {
        s
    } else if is_trailing_punct(s.last()) {
        spec_trim_url(s.drop_last())
    } else if s.last() == ')' && count_char(s, ')') > count_char(s, '(') {
        spec_trim_url(s.drop_last())
    } else {
        s
    }
}

fn count_of(s: &Vec<char>, c: char) -> (r: usize)
    ensures
        r == count_char(s@, c),
{
    let mut n: usize = 0;
    let mut k: usize = 0;
    while k < s.len()
        invariant
            k <= s@.len(),
            n == count_char(s@.take(k as int), c),
            n <= k,
        decreases s@.len() - k,
    {
        proof {
            assert(s@.take(k + 1).drop_last() =~= s@.take(k as int));
        }
        if s[k] == c {
            n += 1;
        }
        k += 1;
    }
    proof {
        assert(s@.take(s@.len() as int) =~= s@);
    }
    n
}

/// GFM trailing-punctuation trimming for literal autolinks.
pub fn trim_url_trailing(matched: &mut Vec<char>)
    ensures
        final(matched)@ == spec_trim_url(old(matched)@),
{
    loop
        invariant
            spec_trim_url(matched@) == spec_trim_url(old(matched)@),
        decreases matched@.len(),
    {
        if matched.len() == 0 {
            return;
        }
        let last = matched[matched.len() - 1];
        if last == '?' || last == '!' || last == '.' || last == ',' || last == ':' || last == '*'
            || last == '_' || last == '~' || last == ';' || last == '\'' || last == '"' {
            matched.pop();
            continue;
        }
        if last == ')' {
            let opens = count_of(matched, '(');
            let closes = count_of(matched, ')');
            if closes > opens {
                matched.pop();
                continue;
            }
        }
        return;
    }
}

/// Whether a literal autolink may start at `i`: at the start, or after a
/// character that is not alphanumeric, `/`, `:` or `.`.
pub open spec fn spec_is_url_boundary(s: Seq<char>, i: int) -> bool {
    i == 0 || {
        let p = s[i - 1];
        !(char_is_alphanumeric(p) || p == '/' || p == ':' || p == '.')
    }
}

/// Whether a literal autolink may start at `i`.
pub fn is_url_boundary(chars: &[char], i: usize) -> (r: bool)
    requires
        i <= chars@.len(),
    ensures
        r == spec_is_url_boundary(chars@, i as int),
{
    if i == 0 {
        return true;
    }
    let p = chars[i - 1];
    !(is_alphanumeric(p) || p == '/' || p == ':' || p == '.')
}

/// End of an autolink body scanned from `j`: the first `>`, `<` or
/// whitespace.
pub open spec fn autolink_body_end(s: Seq<char>, j: int) -> int
    decreases s.len() - j,
{
    if 0 <= j < s.len() && s[j] != '>' && s[j] != '<' && !spec_is_whitespace(s[j]) {
        autolink_body_end(s, j + 1)
    } else {
        j
    }
}

pub proof fn lemma_autolink_body_end(s: Seq<char>, j: int)
    requires
        0 <= j <= s.len(),
    ensures
        j <= autolink_body_end(s, j) <= s.len(),
    decreases s.len() - j,
{
    if j < s.len() && s[j] != '>' && s[j] != '<' && !spec_is_whitespace(s[j]) {
        lemma_autolink_body_end(s, j + 1);
    }
}

pub open spec fn uri_scheme_pattern() -> Seq<char> {
    "^[A-Za-z][A-Za-z0-9+.\\-]{1,31}:"@
}

pub open spec fn email_pattern() -> Seq<char> {
    "^[A-Za-z0-9.!#$%&'*+/=?^_`{|}~-]+@[A-Za-z0-9](?:[A-Za-z0-9-]{0,61}[A-Za-z0-9])?(?:\\.[A-Za-z0-9](?:[A-Za-z0-9-]{0,61}[A-Za-z0-9])?)*$"@
}

pub open spec fn html_tag_pattern() -> Seq<char> {
    "^</?[A-Za-z][A-Za-z0-9-]*(?:\\s+[^<>]*?)?/?>"@
}

pub open spec fn literal_url_pattern() -> Seq<char> {
    "^(?i)(?:https?://|www\\.)[^\\s<]*"@
}

pub open spec fn literal_email_pattern() -> Seq<char> {
    "^[A-Za-z0-9._%+-]+@[A-Za-z0-9](?:[A-Za-z0-9-]*[A-Za-z0-9])?(?:\\.[A-Za-z0-9](?:[A-Za-z0-9-]*[A-Za-z0-9])?)+"@
}

/// `<body>` at `i` where the body (no `<`, `>` or whitespace) is a URI
/// with a scheme or an email address: the index after `>`.
pub open spec fn spec_detect_autolink(s: Seq<char>, i: int) -> Option<usize> {
    let j = autolink_body_end(s, i + 1);
    let inner = s.subrange(i + 1, j);
    if j >= s.len() || s[j] != '>' || inner.len() == 0 {
        None
    } else if regex_find(uri_scheme_pattern(), inner) is Some || regex_find(email_pattern(), inner) is Some {
        Some((j + 1) as usize)
    } else {
        None
    }
}

/// End of an autolink starting at `i`, if any.
pub fn detect_autolink(chars: &[char], i: usize) -> (r: Option<usize>)
    requires
        i < chars@.len(),
        chars@.len() < usize::MAX / 8,
    ensures
        r == spec_detect_autolink(chars@, i as int),
        r matches Some(e) ==> i < e <= chars@.len(),
{
    proof {
        lemma_autolink_body_end(chars@, i + 1);
    }
    let mut j = i + 1;
    while j < chars.len() && chars[j] != '>' && chars[j] != '<' && !is_whitespace(chars[j])
        invariant
            i + 1 <= j <= chars@.len(),
            autolink_body_end(chars@, j as int) == autolink_body_end(chars@, i + 1),
        decreases chars@.len() - j,
    {
        j += 1;
    }
    if j >= chars.len() || chars[j] != '>' || j == i + 1 {
        return None;
    }
    let inner = slice_vec(chars, i + 1, j);
    if re_find("^[A-Za-z][A-Za-z0-9+.\\-]{1,31}:", &inner).is_some() || re_find(
        "^[A-Za-z0-9.!#$%&'*+/=?^_`{|}~-]+@[A-Za-z0-9](?:[A-Za-z0-9-]{0,61}[A-Za-z0-9])?(?:\\.[A-Za-z0-9](?:[A-Za-z0-9-]{0,61}[A-Za-z0-9])?)*$",
        &inner,
    ).is_some() {
        Some(j + 1)
    } else {
        None
    }
}

/// First index `k >= j` where `-->` starts.
pub open spec fn find_comment_end(s: Seq<char>, j: int) -> Option<int>
    decreases s.len() - j,
{
    if j < 0 || j + 3 > s.len() {
        None
    } else if s[j] == '-' && s[j + 1] == '-' && s[j + 2] == '>' {
        Some(j)
    } else {
        find_comment_end(s, j + 1)
    }
}

proof fn lemma_find_comment_end(s: Seq<char>, j: int)
    requires
        0 <= j,
    ensures
        find_comment_end(s, j) matches Some(k) ==> j <= k && k + 3 <= s.len(),
    decreases s.len() - j,
{
    if j + 3 <= s.len() && !(s[j] == '-' && s[j + 1] == '-' && s[j + 2] == '>') {
        lemma_find_comment_end(s, j + 1);
    }
}

/// Index of the first `-->` at or after `j`.
pub fn comment_end(chars: &[char], j: usize) -> (r: Option<usize>)
    requires
        chars@.len() < usize::MAX / 8,
        j <= chars@.len(),
    ensures
        span_int(r) == find_comment_end(chars@, j as int),
        r matches Some(k) ==> j <= k && k + 3 <= chars@.len(),
{
    proof {
        lemma_find_comment_end(chars@, j as int);
    }
    let mut k = j;
    while k + 3 <= chars.len()
        invariant
            chars@.len() < usize::MAX / 8,
            j <= k <= chars@.len(),
            find_comment_end(chars@, k as int) == find_comment_end(chars@, j as int),
        decreases chars@.len() - k,
    {
        if chars[k] == '-' && chars[k + 1] == '-' && chars[k + 2] == '>' {
            return Some(k);
        }
        k += 1;
    }
    None
}

pub open spec fn span_int(r: Option<usize>) -> Option<int> {
    match r {
        Some(k) => Some(k as int),
        None => None,
    }
}

pub open spec fn starts_comment(s: Seq<char>) -> bool {
    s.len() >= 4 && s[0] == '<' && s[1] == '!' && s[2] == '-' && s[3] == '-'
}

/// Raw HTML at `i`: a comment through its first `-->`, or an open/close tag
/// as `html_tag_pattern` matches it. Gives the end index.
pub open spec fn spec_detect_html(s: Seq<char>, i: int) -> Option<usize> {
    let rest = s.skip(i);
    if starts_comment(rest) {
        match find_comment_end(rest, 0) {
            Some(p) => Some((i + p + 3) as usize),
            None => None,
        }
    } else {
        match regex_find(html_tag_pattern(), rest) {
            Some((a, e)) => if a == 0 && e > 0 {
                Some((i + e) as usize)
            } else {
                None
            },
            None => None,
        }
    }
}

/// End of raw HTML starting at `i`, if any.
pub fn detect_html(chars: &[char], i: usize) -> (r: Option<usize>)
    requires
        i < chars@.len(),
        chars@.len() < usize::MAX / 8,
    ensures
        r == spec_detect_html(chars@, i as int),
        r matches Some(e) ==> i < e <= chars@.len(),
{
    let rest = slice_vec(chars, i, chars.len());
    proof {
        assert(rest@ =~= chars@.skip(i as int));
    }
    if rest.len() >= 4 && rest[0] == '<' && rest[1] == '!' && rest[2] == '-' && rest[3] == '-' {
        match comment_end(&rest, 0) {
            Some(p) => Some(i + p + 3),
            None => None,
        }
    } else {
        match re_find("^</?[A-Za-z][A-Za-z0-9-]*(?:\\s+[^<>]*?)?/?>", &rest) {
            Some((a, e)) => if a == 0 && e > 0 {
                Some(i + e)
            } else {
                None
            },
            None => None,
        }
    }
}

/// The first index `>= k` holding `]`, backslash escapes skipped.
pub open spec fn ref_close_from(s: Seq<char>, k: int) -> int
    decreases s.len() + 1 - k,
{
    if k < 0 || k >= s.len() || s[k] == ']' {
        k
    } else if s[k] == '\\' {
        ref_close_from(s, k + 2)
    } else {
        ref_close_from(s, k + 1)
    }
}

proof fn lemma_ref_close_from(s: Seq<char>, k: int)
    requires
        0 <= k <= s.len() + 1,
    ensures
        k <= ref_close_from(s, k),
        ref_close_from(s, k) < s.len() ==> s[ref_close_from(s, k)] == ']',
        ref_close_from(s, k) <= s.len() + 1,
    decreases s.len() + 1 - k,
{
    if k < s.len() && s[k] != ']' {
        if s[k] == '\\' {
            lemma_ref_close_from(s, k + 2);
        } else {
            lemma_ref_close_from(s, k + 1);
        }
    }
}

/// Close of a `[...]` reference label scanned from `k`.
pub fn ref_close(chars: &[char], k: usize) -> (r: usize)
    requires
        chars@.len() < usize::MAX / 8,
        k <= chars@.len(),
    ensures
        r == ref_close_from(chars@, k as int),
        k <= r <= chars@.len() + 1,
        r < chars@.len() ==> chars@[r as int] == ']',
{
    proof {
        lemma_ref_close_from(chars@, k as int);
    }
    let mut j = k;
    while j < chars.len() && chars[j] != ']'
        invariant
            chars@.len() < usize::MAX / 8,
            k <= j <= chars@.len() + 1,
            ref_close_from(chars@, j as int) == ref_close_from(chars@, k as int),
        decreases chars@.len() + 1 - j,
    {
        if chars[j] == '\\' {
            j += 1;
        }
        j += 1;
    }
    j
}

/// End of a link or image (`[..](..)` or `[..][..]`) starting at `i`.
pub open spec fn spec_detect_link(s: Seq<char>, i: int) -> Option<usize> {
    let br_open = if s[i] == '!' {
        i + 1
    } else {
        i
    };
    match balance_from(s, br_open, 0, '[', ']') {
        None => None,
        Some(rb) => {
            let after = rb + 1;
            if after < s.len() && s[after] == '(' {
                match balance_from(s, after, 0, '(', ')') {
                    Some(c) => Some((c + 1) as usize),
                    None => None,
                }
            } else if after < s.len() && s[after] == '[' {
                let k = ref_close_from(s, after + 1);
                if k >= s.len() {
                    None
                } else {
                    Some((k + 1) as usize)
                }
            } else {
                None
            }
        },
    }
}

/// End of a link or image starting at `i`, if any.
pub fn detect_link(chars: &[char], i: usize) -> (r: Option<usize>)
    requires
        i < chars@.len(),
        chars@.len() < usize::MAX / 8,
    ensures
        r == spec_detect_link(chars@, i as int),
        r matches Some(e) ==> i < e <= chars@.len(),
{
    let br_open = if chars[i] == '!' {
        i + 1
    } else {
        i
    };
    let rb = match balance(chars, br_open, '[', ']') {
        Some(rb) => rb,
        None => return None,
    };
    let after = rb + 1;
    if after < chars.len() && chars[after] == '(' {
        match find_paren_close(chars, after) {
            Some(c) => Some(c + 1),
            None => None,
        }
    } else if after < chars.len() && chars[after] == '[' {
        let k = ref_close(chars, after + 1);
        if k >= chars.len() {
            None
        } else {
            Some(k + 1)
        }
    } else {
        None
    }
}

/// A literal autolink (`http://`, `https://`, `www.`, trailing punctuation
/// trimmed) or a literal email address at `i`: its end index.
pub open spec fn spec_detect_literal(s: Seq<char>, i: int) -> Option<usize> {
    let rest = s.skip(i);
    let url = match regex_find(literal_url_pattern(), rest) {
        Some((a, e)) => if a == 0 {
            let m = spec_trim_url(rest.take(e));
            if m.len() > 0 {
                Some((i + m.len()) as usize)
            } else {
                None
            }
        } else {
            None
        },
        None => None,
    };
    if url is Some {
        url
    } else {
        match regex_find(literal_email_pattern(), rest) {
            Some((a, e)) => if a == 0 && e > 0 {
                Some((i + e) as usize)
            } else {
                None
            },
            None => None,
        }
    }
}

pub proof fn lemma_trim_url_len(s: Seq<char>)
    ensures
        spec_trim_url(s).len() <= s.len(),
        spec_trim_url(s) == s.subrange(0, spec_trim_url(s).len() as int),
    decreases s.len(),
{
    if s.len() > 0 {
        lemma_trim_url_len(s.drop_last());
        let t = spec_trim_url(s.drop_last());
        assert(s.drop_last().subrange(0, t.len() as int) =~= s.subrange(0, t.len() as int));
        assert(s.subrange(0, s.len() as int) =~= s);
    }
}

/// End of a literal autolink or email starting at `i`, if any.
pub fn detect_literal(chars: &[char], i: usize) -> (r: Option<usize>)
    requires
        i <= chars@.len(),
        chars@.len() < usize::MAX / 8,
    ensures
        r == spec_detect_literal(chars@, i as int),
        r matches Some(e) ==> i < e <= chars@.len(),
{
    let rest = slice_vec(chars, i, chars.len());
    proof {
        assert(rest@ =~= chars@.skip(i as int));
    }
    match re_find("^(?i)(?:https?://|www\\.)[^\\s<]*", &rest) {
        Some((a, e)) => {
            if a == 0 {
                let mut matched = slice_vec(&rest, 0, e);
                proof {
                    assert(matched@ =~= rest@.take(e as int));
                    lemma_trim_url_len(matched@);
                }
                trim_url_trailing(&mut matched);
                if matched.len() > 0 {
                    return Some(i + matched.len());
                }
            }
        },
        None => {},
    }
    match re_find(
        "^[A-Za-z0-9._%+-]+@[A-Za-z0-9](?:[A-Za-z0-9-]*[A-Za-z0-9])?(?:\\.[A-Za-z0-9](?:[A-Za-z0-9-]*[A-Za-z0-9])?)+",
        &rest,
    ) {
        Some((a, e)) => if a == 0 && e > 0 {
            Some(i + e)
        } else {
            None
        },
        None => None,
    }
}

} // verus!
