//! Small text utilities shared by the rules, after markdownlint's helpers.

use vstd::prelude::*;

use crate::md::kind::Kind;
use crate::md::tokens::{Token, Tree};
use crate::re::{re_find, regex_find};
use crate::text::{is_whitespace, spec_is_whitespace, chars_of, slice_vec};

verus! {

/// `text` shortened to 30 characters: with `start` and `end` the first and
/// last 15 around `...`; with `end` only the last 30 after `...`; else the
/// first 30 before `...`.
pub open spec fn spec_ellipsify(t: Seq<char>, start: bool, end: bool) -> Seq<char> {
    if t.len() <= 30 {
        t
    } else if start && end {
        t.take(15) + "..."@ + t.skip(t.len() - 15)
    } else if end {
        "..."@ + t.skip(t.len() - 30)
    } else {
        t.take(30) + "..."@
    }
}

pub fn push_all(out: &mut Vec<char>, s: &[char], from: usize, to: usize)
    requires
        from <= to <= s@.len(),
    ensures
        final(out)@ == old(out)@ + s@.subrange(from as int, to as int),
{
    let mut i = from;
    while i < to
        invariant
            from <= i <= to <= s@.len(),
            out@ == old(out)@ + s@.subrange(from as int, i as int),
        decreases to - i,
    {
        out.push(s[i]);
        i += 1;
        proof {
            assert(s@.subrange(from as int, i as int) =~= s@.subrange(from as int, i - 1).push(s@[i - 1]));
        }
    }
}

fn three_dots(out: &mut Vec<char>)
    ensures
        final(out)@ == old(out)@ + "..."@,
{
    proof {
        reveal_strlit("...");
    }
    out.push('.');
    out.push('.');
    out.push('.');
    proof {
        assert(out@ =~= old(out)@ + "..."@);
    }
}

/// Shorten a context text to 30 characters (markdownlint's `ellipsify`).
pub fn ellipsify(text: &[char], start: bool, end: bool) -> (r: Vec<char>)
    ensures
        r@ == spec_ellipsify(text@, start, end),
{
    let n = text.len();
    let mut out: Vec<char> = Vec::new();
    if n <= 30 {
        push_all(&mut out, text, 0, n);
        proof {
            assert(out@ =~= text@);
        }
    } else if start && end {
        push_all(&mut out, text, 0, 15);
        three_dots(&mut out);
        push_all(&mut out, text, n - 15, n);
        proof {
            assert(text@.subrange(0, 15) =~= text@.take(15));
            assert(text@.subrange(n - 15, n as int) =~= text@.skip(n - 15));
        }
    } else if end {
        three_dots(&mut out);
        push_all(&mut out, text, n - 30, n);
        proof {
            assert(text@.subrange(n - 30, n as int) =~= text@.skip(n - 30));
            assert(out@ =~= "..."@ + text@.skip(n - 30));
        }
    } else {
        push_all(&mut out, text, 0, 30);
        three_dots(&mut out);
        proof {
            assert(text@.subrange(0, 30) =~= text@.take(30));
        }
    }
    out
}

/// Index just past the last non-whitespace character of `s[..e]`.
pub open spec fn trim_end_at(s: Seq<char>, e: int) -> int
    decreases e,
{
    if e <= 0 {
        0
    } else if spec_is_whitespace(s[e - 1]) {
        trim_end_at(s, e - 1)
    } else {
        e
    }
}

/// Index of the first non-whitespace character of `s[i..e]` (or `e`).
pub open spec fn trim_start_at(s: Seq<char>, i: int, e: int) -> int
    decreases e - i,
{
    if i >= e {
        e
    } else if spec_is_whitespace(s[i]) {
        trim_start_at(s, i + 1, e)
    } else {
        i
    }
}

/// `s` with leading and trailing whitespace removed (`str::trim`).
pub open spec fn spec_trim(s: Seq<char>) -> Seq<char> {
    let e = trim_end_at(s, s.len() as int);
    s.subrange(trim_start_at(s, 0, e), e)
}

pub proof fn lemma_trim_end_at(s: Seq<char>, e: int)
    requires
        0 <= e <= s.len(),
    ensures
        0 <= trim_end_at(s, e) <= e,
    decreases e,
{
    if e > 0 && spec_is_whitespace(s[e - 1]) {
        lemma_trim_end_at(s, e - 1);
    }
}

pub proof fn lemma_trim_start_at(s: Seq<char>, i: int, e: int)
    requires
        0 <= i <= e,
    ensures
        i <= trim_start_at(s, i, e) <= e,
    decreases e - i,
{
    if i < e && spec_is_whitespace(s[i]) {
        lemma_trim_start_at(s, i + 1, e);
    }
}

/// End of `s` once trailing whitespace is trimmed.
pub fn trim_end_len(s: &[char]) -> (r: usize)
    ensures
        r == trim_end_at(s@, s@.len() as int),
        r <= s@.len(),
{
    proof {
        lemma_trim_end_at(s@, s@.len() as int);
    }
    let mut e = s.len();
    while e > 0 && is_whitespace(s[e - 1])
        invariant
            e <= s@.len(),
            trim_end_at(s@, e as int) == trim_end_at(s@, s@.len() as int),
        decreases e,
    {
        e -= 1;
    }
    e
}

/// `s` trimmed of surrounding whitespace.
pub fn trim(s: &[char]) -> (r: Vec<char>)
    ensures
        r@ == spec_trim(s@),
{
    let e = trim_end_len(s);
    proof {
        lemma_trim_start_at(s@, 0, e as int);
    }
    let mut b: usize = 0;
    while b < e && is_whitespace(s[b])
        invariant
            b <= e <= s@.len(),
            trim_start_at(s@, b as int, e as int) == trim_start_at(s@, 0, e as int),
        decreases e - b,
    {
        b += 1;
    }
    slice_vec(s, b, e)
}

/// The texts of the first `k` tokens of `ids` that start on line `line`,
/// joined.
pub open spec fn joined_on_line(tokens: Seq<Token>, ids: Seq<usize>, line: int, k: int) -> Seq<char>
    decreases k,
{
    if k <= 0 {
        Seq::empty()
    } else {
        let prev = joined_on_line(tokens, ids, line, k - 1);
        let t = tokens[ids[k - 1] as int];
        if t.start_line == line {
            prev + t.text@
        } else {
            prev
        }
    }
}

/// The prefix a blank line inserted at `line` starts with: the texts of the
/// prefix tokens `ids` on that line, joined, trailing whitespace trimmed,
/// then a newline.
pub open spec fn spec_bq_prefix_line(tokens: Seq<Token>, ids: Seq<usize>, line: int) -> Seq<char> {
    let j = joined_on_line(tokens, ids, line, ids.len() as int);
    j.subrange(0, trim_end_at(j, j.len() as int)).push('\n')
}

/// The texts of the given prefix tokens on `line_number`, joined, trailing
/// whitespace trimmed, then a newline: what a blank line inserted there
/// must start with to stay inside the enclosing block quotes.
pub fn bq_prefix_line(tree: &Tree, prefixes: &Vec<usize>, line_number: usize) -> (r: Vec<char>)
    requires
        forall|k: int| 0 <= k < prefixes@.len() ==> #[trigger] prefixes@[k] < tree.tokens@.len(),
    ensures
        r@ == spec_bq_prefix_line(tree.tokens@, prefixes@, line_number as int),
{
    let mut joined: Vec<char> = Vec::new();
    let mut k: usize = 0;
    while k < prefixes.len()
        invariant
            k <= prefixes@.len(),
            forall|q: int| 0 <= q < prefixes@.len() ==> #[trigger] prefixes@[q] < tree.tokens@.len(),
            joined@ == joined_on_line(tree.tokens@, prefixes@, line_number as int, k as int),
        decreases prefixes@.len() - k,
    {
        let t = tree.get(prefixes[k]);
        if t.start_line == line_number {
            push_all(&mut joined, &t.text, 0, t.text.len());
            proof {
                assert(t.text@.subrange(0, t.text@.len() as int) =~= t.text@);
            }
        }
        k += 1;
    }
    let e = trim_end_len(&joined);
    let mut out = slice_vec(&joined, 0, e);
    out.push('\n');
    out
}

/// The first index `>= i` at which `p` occurs in `s`.
pub open spec fn find_from(s: Seq<char>, p: Seq<char>, i: int) -> Option<int>
    decreases s.len() + 1 - i,
{
    if i < 0 || i + p.len() > s.len() {
        None
    } else if s.subrange(i, i + p.len()) == p {
        Some(i)
    } else {
        find_from(s, p, i + 1)
    }
}

pub proof fn lemma_find_from(s: Seq<char>, p: Seq<char>, i: int)
    requires
        0 <= i,
    ensures
        find_from(s, p, i) matches Some(k) ==> i <= k && k + p.len() <= s.len() && s.subrange(k, k
            + p.len()) == p,
    decreases s.len() + 1 - i,
{
    if i + p.len() <= s.len() && s.subrange(i, i + p.len()) != p {
        lemma_find_from(s, p, i + 1);
    }
}

/// Whether `p` occurs in `s` at `i`.
fn occurs_at(s: &[char], p: &[char], i: usize) -> (r: bool)
    requires
        i + p@.len() <= s@.len(),
        s@.len() < usize::MAX,
    ensures
        r == (s@.subrange(i as int, i + p@.len()) == p@),
{
    let mut k: usize = 0;
    while k < p.len()
        invariant
            k <= p@.len(),
            i + p@.len() <= s@.len(),
            s@.len() < usize::MAX,
            forall|q: int| 0 <= q < k ==> s@[i + q] == p@[q],
        decreases p@.len() - k,
    {
        if s[i + k] != p[k] {
            proof {
                assert(s@.subrange(i as int, i + p@.len())[k as int] != p@[k as int]);
            }
            return false;
        }
        k += 1;
    }
    proof {
        assert(s@.subrange(i as int, i + p@.len()) =~= p@);
    }
    true
}

/// The first index `>= i` at which `p` occurs in `s`.
pub fn find_text(s: &[char], p: &[char], i: usize) -> (r: Option<usize>)
    requires
        s@.len() < usize::MAX / 2,
        p@.len() < usize::MAX / 2,
        i <= s@.len(),
    ensures
        match r {
            Some(k) => find_from(s@, p@, i as int) == Some(k as int),
            None => find_from(s@, p@, i as int) is None,
        },
{
    let mut k = i;
    while k + p.len() <= s.len()
        invariant
            s@.len() < usize::MAX / 2,
            p@.len() < usize::MAX / 2,
            i <= k <= s@.len() + 1,
            find_from(s@, p@, k as int) == find_from(s@, p@, i as int),
        decreases s@.len() + 1 - k,
    {
        if occurs_at(s, p, k) {
            return Some(k);
        }
        k += 1;
    }
    None
}

/// `s` with its HTML comments removed, as markdownlint's `removeComments`
/// does it: a `-->` before any `<!--` drops everything up to it; a
/// `<!--` ... `-->` pair is cut out; an unclosed `<!--` drops the rest.
pub open spec fn spec_remove_comments(s: Seq<char>) -> Seq<char>
    decreases s.len(),
{
    let st = find_from(s, "<!--"@, 0);
    let en = find_from(s, "-->"@, 0);
    match en {
        Some(e) => {
            if 0 <= e && e + 3 <= s.len() {
                match st {
                    Some(b) => if e < b {
                        spec_remove_comments(s.skip(e + 3))
                    } else if 0 <= b <= e {
                        spec_remove_comments(s.take(b) + s.skip(e + 3))
                    } else {
                        s
                    },
                    None => spec_remove_comments(s.skip(e + 3)),
                }
            } else {
                s
            }
        },
        None => match st {
            Some(b) => if 0 <= b < s.len() {
                spec_remove_comments(s.take(b))
            } else {
                s
            },
            None => s,
        },
    }
}

fn remove_comments(input: &[char]) -> (r: Vec<char>)
    requires
        input@.len() < usize::MAX / 2,
    ensures
        r@ == spec_remove_comments(input@),
{
    let open = chars_of("<!--");
    let close = chars_of("-->");
    proof {
        reveal_strlit("<!--");
        reveal_strlit("-->");
    }
    let mut s = slice_vec(input, 0, input.len());
    proof {
        assert(s@ =~= input@);
        assert(open@.len() == 4);
        assert(close@.len() == 3);
    }
    loop
        invariant
            s@.len() <= input@.len(),
            input@.len() < usize::MAX / 2,
            open@ == "<!--"@,
            close@ == "-->"@,
            open@.len() == 4,
            close@.len() == 3,
            spec_remove_comments(s@) == spec_remove_comments(input@),
        decreases s@.len(),
    {
        let st = find_text(&s, &open, 0);
        let en = find_text(&s, &close, 0);
        proof {
            lemma_find_from(s@, open@, 0);
            lemma_find_from(s@, close@, 0);
        }
        match en {
            Some(e) => {
                let cut_from = match st {
                    Some(b) => if e < b {
                        0
                    } else {
                        b
                    },
                    None => 0,
                };
                let mut t = slice_vec(&s, 0, cut_from);
                push_all(&mut t, &s, e + 3, s.len());
                proof {
                    if cut_from == 0 {
                        assert(t@ =~= s@.skip(e + 3));
                    } else {
                        assert(t@ =~= s@.take(cut_from as int) + s@.skip(e + 3));
                    }
                }
                s = t;
            },
            None => {
                match st {
                    Some(b) => {
                        s = slice_vec(&s, 0, b);
                        proof {
                            assert(s@ =~= s@.take(b as int));
                        }
                    },
                    None => {
                        return s;
                    },
                }
            },
        }
    }
}

/// Whitespace or `>` only.
pub open spec fn only_ws_or_gt(s: Seq<char>) -> bool {
    forall|k: int| 0 <= k < s.len() ==> spec_is_whitespace(s[k]) || s[k] == '>'
}

/// A blank line (markdownlint's `isBlankLine`): whitespace only, or only
/// whitespace and `>` once HTML comments are removed.
pub open spec fn spec_is_blank_line(line: Seq<char>) -> bool {
    (forall|k: int| 0 <= k < line.len() ==> spec_is_whitespace(line[k])) || only_ws_or_gt(
        spec_remove_comments(line),
    )
}

/// Whether `line` is blank in markdownlint's sense.
pub fn is_blank_line(line: &[char]) -> (r: bool)
    requires
        line@.len() < usize::MAX / 2,
    ensures
        r == spec_is_blank_line(line@),
{
    let mut all_ws = true;
    let mut i: usize = 0;
    while i < line.len()
        invariant
            i <= line@.len(),
            all_ws == (forall|k: int| 0 <= k < i ==> spec_is_whitespace(line@[k])),
        decreases line@.len() - i,
    {
        if !is_whitespace(line[i]) {
            all_ws = false;
        }
        i += 1;
    }
    if all_ws {
        return true;
    }
    assert(!(forall|q: int| 0 <= q < line@.len() ==> spec_is_whitespace(line@[q])));
    let rc = remove_comments(line);
    let mut k: usize = 0;
    while k < rc.len()
        invariant
            k <= rc@.len(),
            rc@ == spec_remove_comments(line@),
            !(forall|q: int| 0 <= q < line@.len() ==> spec_is_whitespace(line@[q])),
            forall|q: int| 0 <= q < k ==> spec_is_whitespace(rc@[q]) || rc@[q] == '>',
        decreases rc@.len() - k,
    {
        if !is_whitespace(rc[k]) && rc[k] != '>' {
            proof {
                assert(!only_ws_or_gt(rc@)) by {
                    assert(!(spec_is_whitespace(rc@[k as int]) || rc@[k as int] == '>'));
                }
            }
            return false;
        }
        k += 1;
    }
    true
}

/// An HTML-flow token holding just a comment `<!--...-->` whose inside
/// does not start with `>` or `->` nor end with `-` (markdownlint's
/// `isHtmlFlowComment`).
pub open spec fn spec_is_html_flow_comment(kind: Kind, text: Seq<char>) -> bool {
    let n = text.len();
    &&& kind == Kind::HtmlFlow
    &&& n >= 7
    &&& text[0] == '<' && text[1] == '!' && text[2] == '-' && text[3] == '-'
    &&& text[n - 3] == '-' && text[n - 2] == '-' && text[n - 1] == '>'
    &&& text[4] != '>'
    &&& !(text[4] == '-' && text[5] == '>')
    &&& text[n - 4] != '-'
}

/// Whether token `idx` is an HTML comment block.
pub fn is_html_flow_comment(tree: &Tree, idx: usize) -> (r: bool)
    requires
        idx < tree.tokens@.len(),
    ensures
        r == spec_is_html_flow_comment(tree.tokens@[idx as int].kind, tree.tokens@[idx as int].text@),
{
    let t = tree.get(idx);
    let text = &t.text;
    let n = text.len();
    if t.kind != Kind::HtmlFlow || n < 7 {
        return false;
    }
    let starts = text[0] == '<' && text[1] == '!' && text[2] == '-' && text[3] == '-';
    let ends = text[n - 3] == '-' && text[n - 2] == '-' && text[n - 1] == '>';
    if !starts || !ends {
        return false;
    }
    text[4] != '>' && !(text[4] == '-' && text[5] == '>') && text[n - 4] != '-'
}

/// The pattern a front-matter title line is matched against: `pattern`
/// made case-insensitive, or by default `"title":` / `title =` forms.
pub open spec fn title_pattern(pattern: Option<Seq<char>>) -> Seq<char> {
    match pattern {
        Some(p) => "(?i)"@ + p,
        None => "(?i)^\\s*\"?title\"?\\s*[:=]"@,
    }
}

/// Whether a front-matter line matches the title pattern
/// (markdownlint's `frontMatterHasTitle`). A pattern that does not compile
/// matches nothing.
pub fn front_matter_has_title(front_matter_lines: &Vec<Vec<char>>, pattern: Option<&[char]>) -> (r: bool)
    ensures
        r == exists|k: int|
            0 <= k < front_matter_lines@.len() && (#[trigger] regex_find(
                title_pattern(crate::rules::opt_view(pattern)),
                front_matter_lines@[k]@,
            )) is Some,
{
    let pat: Vec<char> = match pattern {
        Some(p) => {
            let mut v = chars_of("(?i)");
            push_all(&mut v, p, 0, p.len());
            proof {
                assert(p@.subrange(0, p@.len() as int) =~= p@);
            }
            v
        },
        None => chars_of("(?i)^\\s*\"?title\"?\\s*[:=]"),
    };
    let ps = crate::text::string_of(&pat);
    let mut k: usize = 0;
    while k < front_matter_lines.len()
        invariant
            k <= front_matter_lines@.len(),
            ps@ == title_pattern(crate::rules::opt_view(pattern)),
            forall|q: int|
                0 <= q < k ==> (#[trigger] regex_find(ps@, front_matter_lines@[q]@)) is None,
        decreases front_matter_lines@.len() - k,
    {
        if re_find(ps.as_str(), &front_matter_lines[k]).is_some() {
            return true;
        }
        k += 1;
    }
    false
}

/// The end of the first line of `s` from `i` on: the first `\r` or `\n`,
/// or the end.
pub open spec fn first_break(s: Seq<char>, i: int) -> int
    decreases s.len() - i,
{
    if i < 0 || i >= s.len() || s[i] == '\r' || s[i] == '\n' {
        i
    } else {
        first_break(s, i + 1)
    }
}

/// How many characters the first line of `s` has.
pub fn first_line_len(s: &[char]) -> (r: usize)
    ensures
        r == first_break(s@, 0),
        r <= s@.len(),
{
    let mut len: usize = 0;
    while len < s.len() && s[len] != '\r' && s[len] != '\n'
        invariant
            len <= s@.len(),
            first_break(s@, len as int) == first_break(s@, 0),
        decreases s@.len() - len,
    {
        len += 1;
    }
    len
}

/// The output so far and the position reached after the first `m` matches
/// of a replacement by one space: a match that starts before the position
/// (an overlap) is passed over.
pub open spec fn space_acc(s: Seq<char>, ms: Seq<Seq<Option<(int, int)>>>, m: int) -> (Seq<char>, int)
    decreases m,
{
    if m <= 0 {
        (Seq::empty(), 0)
    } else {
        let (o, p) = space_acc(s, ms, m - 1);
        match ms[m - 1][0] {
            Some((a, b)) => if a >= p {
                (o + s.subrange(p, a) + seq![' '], b)
            } else {
                (o, p)
            },
            None => (o, p),
        }
    }
}

/// `s` with each match of `pattern` replaced by one space (`Regex::replace_all`).
pub open spec fn spec_replace_space(pattern: Seq<char>, s: Seq<char>) -> Seq<char> {
    let ms = crate::re::regex_captures_all(pattern, s);
    let (o, p) = space_acc(s, ms, ms.len() as int);
    o + s.subrange(p, s.len() as int)
}

/// Each match of `pattern` in `s` replaced by one space.
pub fn replace_all_space(pattern: &str, s: &[char]) -> (r: Vec<char>)
    ensures
        r@ == spec_replace_space(pattern@, s@),
{
    let matches = crate::re::re_captures_all(pattern, s);
    let ghost ms = crate::re::regex_captures_all(pattern@, s@);
    let mut out: Vec<char> = Vec::new();
    let mut pos: usize = 0;
    let mut m: usize = 0;
    while m < matches.len()
        invariant
            m <= matches@.len(),
            pos <= s@.len(),
            ms.len() == matches@.len(),
            forall|k: int| 0 <= k < matches@.len() ==> #[trigger] ms[k] == crate::re::groups_view(matches@[k]@),
            forall|k: int| 0 <= k < matches@.len() ==> {
                &&& (#[trigger] matches@[k])@.len() >= 1
                &&& matches@[k]@[0] is Some
                &&& crate::re::groups_in(matches@[k]@, s@.len() as int)
            },
            space_acc(s@, ms, m as int) == (out@, pos as int),
        decreases matches@.len() - m,
    {
        proof {
            assert(crate::re::groups_in(matches@[m as int]@, s@.len() as int));
            assert(ms[m as int] == crate::re::groups_view(matches@[m as int]@));
            assert(ms[m as int][0] == crate::re::span_view(matches@[m as int]@[0]));
        }
        match matches[m][0] {
            Some((a, b)) => {
                proof {
                    assert(matches@[m as int]@[0] == Some((a, b)));
                }
                if a >= pos {
                    push_all(&mut out, s, pos, a);
                    out.push(' ');
                    pos = b;
                }
            },
            None => {},
        }
        m += 1;
    }
    let ghost o = out@;
    push_all(&mut out, s, pos, s.len());
    proof {
        assert(out@ == o + s@.subrange(pos as int, s@.len() as int));
    }
    out
}

} // verus!
