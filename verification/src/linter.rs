//! The linting pipeline, after markdownlint's `lintContent`: byte-order
//! mark and front matter removal, inline configuration comments, parsing,
//! running the rules and offsetting their line numbers.

use vstd::prelude::*;

use crate::config::{cfg_deep, names_view};

use crate::config::{Config, ResolvedConfig};
use crate::md::parser::Parser;
use crate::md::tokens::Tree;
use crate::re::{re_captures_all, re_find, re_split, regex_captures_all, regex_find, regex_split};
use crate::rules::{Emit, FixInfo, FixV, Params, RuleError, Severity, fix_view, opt_seq, params_ok, slice_eq};
use crate::rules::helpers::{find_from, find_text, trim};
use crate::rules::md003::is_text;
use crate::rules::options::Options;
use crate::rules::registry::{RuleId, all_rules, rule_count, spec_all_rules, spec_rule_names};
use crate::config::{spec_rule_matches, upper_ascii};
use crate::rules::helpers::spec_trim;
use crate::text::str_to_uppercase;
use crate::text::{chars_of, is_whitespace, slice_vec, spec_is_whitespace, uppercase};

verus! {

/// A problem, ready for output.
#[derive(Debug)]
pub struct LintError {
    pub line_number: usize,
    pub rule_names: Vec<&'static str>,
    pub rule_description: &'static str,
    pub rule_information: Vec<char>,
    pub error_detail: Option<Vec<char>>,
    pub error_context: Option<Vec<char>>,
    pub error_range: Option<(usize, usize)>,
    pub fix_info: Option<FixInfo>,
    pub severity: Severity,
}

/// Equal wherever either is a line break character.
pub open spec fn brk_eq(a: char, b: char) -> bool {
    (a == '\n' || a == '\r' || b == '\n' || b == '\r') ==> a == b
}

/// Line breaks are where they were: the same length, and every `\r` or
/// `\n` of either text is the same character in the other.
pub open spec fn same_breaks(a: Seq<char>, b: Seq<char>) -> bool {
    &&& a.len() == b.len()
    &&& forall|k: int| 0 <= k < a.len() ==> brk_eq(#[trigger] a[k], b[k])
}

/// Split on `\r\n`, `\r` or `\n`, as markdownlint's `newLineRe` does.
pub fn split_lines(content: &[char]) -> (r: Vec<Vec<char>>)
    ensures
        r@.map_values(|v: Vec<char>| v@) == regex_split("\\r\\n|\\r|\\n"@, content@),
        r@.len() <= content@.len() + 2,
        forall|k: int| 0 <= k < r@.len() ==> (#[trigger] r@[k])@.len() <= content@.len(),
{
    re_split("\\r\\n|\\r|\\n", content)
}

/// A comment's character as first cleared: space and line breaks stay,
/// anything else becomes `.`.
pub open spec fn dot_char(c: char) -> char {
    if c == ' ' || c == '\r' || c == '\n' {
        c
    } else {
        '.'
    }
}

/// A line break character.
pub open spec fn is_brk(c: char) -> bool {
    c == '\r' || c == '\n'
}

/// `s` after the first `m` of the matches `ms`: the characters of each
/// match but line breaks become `.`.
pub open spec fn dots_over(s: Seq<char>, ms: Seq<Seq<Option<(int, int)>>>, m: int) -> Seq<char>
    decreases m,
{
    if m <= 0 {
        s
    } else {
        let p = dots_over(s, ms, m - 1);
        match ms[m - 1][0] {
            Some((a, b)) => Seq::new(p.len(), |k: int| if a <= k < b && !is_brk(p[k]) { '.' } else { p[k] }),
            None => p,
        }
    }
}

/// The text of a comment cleared: every character but space, `\r` and
/// `\n` becomes `.`, and so do the spaces of each run right before a line
/// break.
pub open spec fn spec_clear_content(content: Seq<char>) -> Seq<char> {
    let d = content.map_values(|c: char| dot_char(c));
    let ms = regex_captures_all(" +[\\r\\n]"@, d);
    dots_over(d, ms, ms.len() as int)
}

/// The text of a comment cleared.
fn clear_content(content: &[char]) -> (r: Vec<char>)
    ensures
        same_breaks(content@, r@),
        r@ == spec_clear_content(content@),
{
    let n = content.len();
    let mut step: Vec<char> = Vec::new();
    let mut i: usize = 0;
    while i < n
        invariant
            i <= n,
            n == content@.len(),
            step@.len() == i,
            forall|k: int| 0 <= k < i ==> brk_eq(#[trigger] content@[k], step@[k]),
            forall|k: int| 0 <= k < i ==> #[trigger] step@[k] == dot_char(content@[k]),
        decreases n - i,
    {
        let c = content[i];
        step.push(if c == ' ' || c == '\r' || c == '\n' {
            c
        } else {
            '.'
        });
        i += 1;
    }
    let ghost d = content@.map_values(|c: char| dot_char(c));
    proof {
        assert(step@ =~= d);
    }
    let matches = re_captures_all(" +[\\r\\n]", &step);
    let ghost ms = regex_captures_all(" +[\\r\\n]"@, d);
    proof {
        assert(dots_over(d, ms, 0) == step@);
    }
    let mut m: usize = 0;
    while m < matches.len()
        invariant
            m <= matches@.len(),
            step@.len() == n,
            n == content@.len(),
            d.len() == n,
            ms.len() == matches@.len(),
            forall|k: int| 0 <= k < matches@.len() ==> #[trigger] ms[k] == crate::re::groups_view(matches@[k]@),
            forall|k: int| 0 <= k < matches@.len() ==> {
                &&& (#[trigger] matches@[k])@.len() >= 1
                &&& matches@[k]@[0] is Some
                &&& crate::re::groups_in(matches@[k]@, n as int)
            },
            forall|k: int| 0 <= k < n ==> brk_eq(#[trigger] content@[k], step@[k]),
            step@ == dots_over(d, ms, m as int),
        decreases matches@.len() - m,
    {
        proof {
            assert(ms[m as int] == crate::re::groups_view(matches@[m as int]@));
            assert(ms[m as int][0] == crate::re::span_view(matches@[m as int]@[0]));
        }
        match matches[m][0] {
            Some((a, b)) => {
                proof {
                    assert(crate::re::groups_in(matches@[m as int]@, n as int));
                    assert(matches@[m as int]@[0] == Some((a, b)));
                }
                let ghost p = step@;
                let mut q = a;
                while q < b
                    invariant
                        a <= q <= b <= n,
                        step@.len() == n,
                        p.len() == n,
                        n == content@.len(),
                        forall|k: int| 0 <= k < n ==> brk_eq(#[trigger] content@[k], step@[k]),
                        forall|k: int| 0 <= k < n ==> #[trigger] step@[k] == (if a <= k < q && !is_brk(p[k]) {
                            '.'
                        } else {
                            p[k]
                        }),
                    decreases b - q,
                {
                    if step[q] != '\r' && step[q] != '\n' {
                        step.set(q, '.');
                    }
                    q += 1;
                }
                proof {
                    assert(step@ =~= dots_over(d, ms, m + 1));
                }
            },
            None => {},
        }
        m += 1;
    }
    step
}

/// Whether `s` is only whitespace.
fn all_ws(s: &[char]) -> (r: bool)
    ensures
        r == (forall|k: int| 0 <= k < s@.len() ==> spec_is_whitespace(#[trigger] s@[k])),
{
    let mut i: usize = 0;
    while i < s.len()
        invariant
            i <= s@.len(),
            forall|k: int| 0 <= k < i ==> spec_is_whitespace(#[trigger] s@[k]),
        decreases s@.len() - i,
    {
        if !is_whitespace(s[i]) {
            return false;
        }
        i += 1;
    }
    true
}

/// Just after the last `\n` before `q`; 0 when there is none.
pub open spec fn line_start_before(s: Seq<char>, q: int) -> int
    decreases q,
{
    if q <= 0 {
        0
    } else if s[q - 1] == '\n' {
        q
    } else {
        line_start_before(s, q - 1)
    }
}

/// Whether the comment whose `<!--` is at `i` and whose `-->` is at `j`
/// is cleared: it stands alone on its line (only whitespace before it), or
/// its text does not start with `>` or `->`, end with `-`, hold `--`, nor
/// span lines after a `|` that could start a table row.
pub open spec fn comment_clearable(s: Seq<char>, i: int, j: int) -> bool {
    let content = s.subrange(i + 4, j);
    let pre_text = s.subrange(line_start_before(s, i), i);
    let is_block = forall|k: int| 0 <= k < pre_text.len() ==> spec_is_whitespace(#[trigger] pre_text[k]);
    let spans_table_cells = regex_find("^ *\\|"@, pre_text) is Some && content.contains('\n');
    let cl = content.len();
    let starts_gt = cl > 0 && content[0] == '>';
    let starts_arrow = cl > 1 && content[0] == '-' && content[1] == '>';
    let ends_dash = cl > 0 && content[cl - 1] == '-';
    let has_dd = find_from(content, "--"@, 0) is Some;
    is_block || !(spans_table_cells || starts_gt || starts_arrow || ends_dash || has_dd)
}

/// The comments of `s` from position `from` on cleared, one after the
/// other: each `<!--` with the first `-->` after it.
pub open spec fn clear_comments_from(s: Seq<char>, from: int, n: int) -> Seq<char>
    decreases n + 1 - from,
{
    if from < 0 || from > n {
        s
    } else {
        match find_from(s, "<!--"@, from) {
            None => s,
            Some(i) => match find_from(s, "-->"@, i + 2) {
                None => s,
                Some(j) => {
                    proof {
                        crate::rules::helpers::lemma_find_from(s, "<!--"@, from);
                        crate::rules::helpers::lemma_find_from(s, "-->"@, i + 2);
                    }
                    let s2 = if j > i + 4 && comment_clearable(s, i, j) {
                        s.subrange(0, i + 4) + spec_clear_content(s.subrange(i + 4, j)) + s.subrange(j, s.len() as int)
                    } else {
                        s
                    };
                    if j + 3 > n {
                        s2
                    } else {
                        clear_comments_from(s2, j + 3, n)
                    }
                },
            },
        }
    }
}

/// A document with its HTML comments cleared.
pub open spec fn spec_clear_html_comments(text: Seq<char>) -> Seq<char> {
    clear_comments_from(text, 0, text.len() as int)
}

/// markdownlint's `clearHtmlCommentText`: the text of each valid HTML
/// comment is replaced by dots (line breaks kept), so that rules do not
/// see it. A comment is valid when it stands alone on its line, or when it
/// does not start with `>` or `->`, end with `-`, contain `--`, nor span
/// lines after a `|` that could start a table row.
#[verifier::rlimit(30)]
pub fn clear_html_comment_text(text: &[char]) -> (r: Vec<char>)
    requires
        text@.len() < usize::MAX / 4,
    ensures
        same_breaks(text@, r@),
        r@ == spec_clear_html_comments(text@),
{
    let begin = chars_of("<!--");
    let end = chars_of("-->");
    proof {
        reveal_strlit("<!--");
        reveal_strlit("-->");
    }
    let n = text.len();
    let mut bytes = slice_vec(text, 0, n);
    proof {
        assert(bytes@ =~= text@);
    }
    let ghost goal = spec_clear_html_comments(text@);
    let mut search_from: usize = 0;
    while search_from <= n
        invariant_except_break
            clear_comments_from(bytes@, search_from as int, n as int) == goal,
        invariant
            n == text@.len(),
            n < usize::MAX / 4,
            begin@ == "<!--"@,
            end@ == "-->"@,
            begin@.len() == 4,
            end@.len() == 3,
            same_breaks(text@, bytes@),
        ensures
            bytes@ == goal,
        decreases n + 1 - search_from,
    {
        let ghost b0 = bytes@;
        let i = match find_text(&bytes, &begin, search_from) {
            Some(i) => i,
            None => break,
        };
        proof {
            crate::rules::helpers::lemma_find_from(bytes@, begin@, search_from as int);
        }
        let j = match find_text(&bytes, &end, i + 2) {
            Some(j) => j,
            None => break,
        };
        proof {
            crate::rules::helpers::lemma_find_from(bytes@, end@, i + 2);
        }
        if j > i + 4 {
            let content = slice_vec(&bytes, i + 4, j);
            proof {
                assert(content@ == b0.subrange(i + 4, j as int));
            }
            let mut last_lf: usize = 0;
            let mut q: usize = i;
            while q > 0
                invariant_except_break
                    last_lf == 0,
                    line_start_before(bytes@, i as int) == line_start_before(bytes@, q as int),
                invariant
                    q <= i,
                    i < bytes@.len(),
                ensures
                    last_lf == line_start_before(bytes@, i as int),
                    last_lf <= i,
                decreases q,
            {
                if bytes[q - 1] == '\n' {
                    last_lf = q;
                    break;
                }
                q -= 1;
            }
            let pre_text = if last_lf <= i {
                slice_vec(&bytes, last_lf, i)
            } else {
                Vec::new()
            };
            let is_block = all_ws(&pre_text);
            let could_be_table = re_find("^ *\\|", &pre_text).is_some();
            let has_newline = crate::text::contains_char(&content, '\n');
            let spans_table_cells = could_be_table && has_newline;
            let cl = content.len();
            let starts_gt = cl > 0 && content[0] == '>';
            let starts_arrow = cl > 1 && content[0] == '-' && content[1] == '>';
            let ends_dash = cl > 0 && content[cl - 1] == '-';
            let dd = chars_of("--");
            proof {
                reveal_strlit("--");
            }
            let has_dd = find_text(&content, &dd, 0).is_some();
            let is_valid = is_block || !(spans_table_cells || starts_gt || starts_arrow || ends_dash
                || has_dd);
            proof {
                assert(pre_text@ == b0.subrange(line_start_before(b0, i as int), i as int));
                assert(is_valid == comment_clearable(b0, i as int, j as int));
            }
            if is_valid {
                let cleared = clear_content(&content);
                proof {
                    assert forall|x: int| 0 <= x < content@.len() implies brk_eq(
                        text@[i + 4 + x],
                        #[trigger] content@[x],
                    ) by {
                        assert(content@[x] == bytes@[i + 4 + x]);
                        assert(brk_eq(text@[i + 4 + x], bytes@[i + 4 + x]));
                    }
                }
                let mut k: usize = 0;
                while k < cleared.len()
                    invariant
                        k <= cleared@.len(),
                        cleared@.len() == content@.len(),
                        content@.len() == j - (i + 4),
                        i + 4 < j <= n,
                        bytes@.len() == n,
                        n == text@.len(),
                        same_breaks(content@, cleared@),
                        forall|x: int| 0 <= x < content@.len() ==> brk_eq(
                            text@[i + 4 + x],
                            #[trigger] content@[x],
                        ),
                        same_breaks(text@, bytes@),
                        b0.len() == n,
                        bytes@ == b0.subrange(0, i + 4) + cleared@.take(k as int) + b0.subrange(i + 4 + k, n as int),
                    decreases cleared@.len() - k,
                {
                    proof {
                        assert(brk_eq(content@[k as int], cleared@[k as int]));
                        assert(brk_eq(text@[i + 4 + k], content@[k as int]));
                    }
                    bytes.set(i + 4 + k, cleared[k]);
                    k += 1;
                    proof {
                        assert(bytes@ =~= b0.subrange(0, i + 4) + cleared@.take(k as int) + b0.subrange(
                            i + 4 + k,
                            n as int,
                        ));
                    }
                }
                proof {
                    assert(cleared@.take(k as int) =~= cleared@);
                    assert(bytes@ =~= b0.subrange(0, i + 4) + spec_clear_content(b0.subrange(i + 4, j as int))
                        + b0.subrange(j as int, b0.len() as int));
                }
            }
        }
        if j + 3 > n {
            break;
        }
        search_from = j + 3;
    }
    bytes
}

/// The front matter pattern: YAML (`---`), TOML (`+++`) or JSON (`{`)
/// front matter at the start of the document.
pub open spec fn front_matter_pattern() -> Seq<char> {
    "(?m)^(?:(?:---[^\\S\\r\\n\\u{2028}\\u{2029}]*$[\\s\\S]+?^---\\s*)|(?:\\+\\+\\+[^\\S\\r\\n\\u{2028}\\u{2029}]*$[\\s\\S]+?^(?:\\+\\+\\+|\\.\\.\\.)\\s*)|(?:\\{[^\\S\\r\\n\\u{2028}\\u{2029}]*$[\\s\\S]+?^\\}\\s*))(?:\\r\\n|\\r|\\n|$)"@
}

/// Front matter removed: the text after it, and its lines (without an
/// empty last one); the text itself and no lines when it does not start
/// with front matter.
pub open spec fn spec_front_matter(c: Seq<char>) -> (Seq<char>, Seq<Seq<char>>) {
    match regex_find(front_matter_pattern(), c) {
        Some((a, e)) => if a == 0 {
            let pieces = regex_split("\\r\\n|\\r|\\n"@, c.take(e));
            (
                c.skip(e),
                if pieces.len() > 0 && pieces.last().len() == 0 {
                    pieces.drop_last()
                } else {
                    pieces
                },
            )
        } else {
            (c, Seq::empty())
        },
        None => (c, Seq::empty()),
    }
}

/// Remove front matter: the content after it, and its lines (a last empty
/// line dropped). Without front matter, the content and no lines.
pub fn remove_front_matter(content: &[char]) -> (r: (Vec<char>, Vec<Vec<char>>))
    ensures
        r.0@.len() <= content@.len(),
        r.1@.len() <= content@.len() + 2,
        forall|k: int| 0 <= k < r.1@.len() ==> (#[trigger] r.1@[k])@.len() <= content@.len(),
        (r.0@, r.1@.map_values(|v: Vec<char>| v@)) == spec_front_matter(content@),
{
    match re_find(
        "(?m)^(?:(?:---[^\\S\\r\\n\\u{2028}\\u{2029}]*$[\\s\\S]+?^---\\s*)|(?:\\+\\+\\+[^\\S\\r\\n\\u{2028}\\u{2029}]*$[\\s\\S]+?^(?:\\+\\+\\+|\\.\\.\\.)\\s*)|(?:\\{[^\\S\\r\\n\\u{2028}\\u{2029}]*$[\\s\\S]+?^\\}\\s*))(?:\\r\\n|\\r|\\n|$)",
        content,
    ) {
        Some((a, e)) => {
            if a == 0 {
                let matched = slice_vec(content, 0, e);
                let stripped = slice_vec(content, e, content.len());
                proof {
                    assert(stripped@ =~= content@.skip(e as int));
                }
                let mut fm = split_lines(&matched);
                let ghost pieces = fm@.map_values(|v: Vec<char>| v@);
                proof {
                    assert(matched@ =~= content@.take(e as int));
                }
                let l = fm.len();
                if l > 0 && fm[l - 1].len() == 0 {
                    fm.pop();
                    proof {
                        assert(fm@.map_values(|v: Vec<char>| v@) =~= pieces.drop_last());
                    }
                }
                return (stripped, fm);
            }
            let c = slice_vec(content, 0, content.len());
            proof {
                assert(c@ =~= content@);
            }
            (c, Vec::new())
        },
        None => {
            let c = slice_vec(content, 0, content.len());
            proof {
                assert(c@ =~= content@);
            }
            (c, Vec::new())
        },
    }
}

/// The inline configuration comment pattern.
pub open spec fn inline_comment_pattern() -> Seq<char> {
    "(?i)(<!--\\s*markdownlint-(disable|enable|capture|restore|disable-file|enable-file|disable-line|disable-next-line|configure-file))(?:\\s|-->)"@
}

/// The pattern of an inline configuration comment: group 1 runs from
/// `<!--` to the end of the keyword, group 2 is the keyword.
pub open spec fn inline_pattern() -> Seq<char> {
    "(?i)(<!--\\s*markdownlint-(disable|enable|capture|restore|disable-file|enable-file|disable-line|disable-next-line|configure-file))(?:\\s|-->)"@
}

/// The (action, parameter) of one match of the pattern: the keyword, and
/// the text between it and the next `-->`; none without a `-->`.
pub open spec fn directive_of(line: Seq<char>, g: Seq<Option<(int, int)>>) -> Option<(Seq<char>, Seq<char>)> {
    if g.len() >= 3 {
        match (g[1], g[2]) {
            (Some((_a1, b1)), Some((a2, b2))) => match find_from(line, "-->"@, b1) {
                Some(e) => Some((line.subrange(a2, b2), line.subrange(b1, e))),
                None => None,
            },
            _ => None,
        }
    } else {
        None
    }
}

/// The directives of the first `m` matches, in order.
pub open spec fn directives_upto(line: Seq<char>, caps: Seq<Seq<Option<(int, int)>>>, m: int) -> Seq<
    (Seq<char>, Seq<char>),
>
    decreases m,
{
    if m <= 0 {
        Seq::empty()
    } else {
        let prev = directives_upto(line, caps, m - 1);
        match directive_of(line, caps[m - 1]) {
            Some(d) => prev.push(d),
            None => prev,
        }
    }
}

/// The inline configuration directives of a line, in order.
pub open spec fn spec_scan_inline(line: Seq<char>) -> Seq<(Seq<char>, Seq<char>)> {
    let caps = regex_captures_all(inline_pattern(), line);
    directives_upto(line, caps, caps.len() as int)
}

/// The `markdownlint-...` comments of a line: (action, parameter), the
/// parameter being the text up to the next `-->` (a comment without one is
/// skipped).
pub fn scan_inline(line: &[char]) -> (r: Vec<(Vec<char>, Vec<char>)>)
    requires
        line@.len() < usize::MAX / 4,
    ensures
        r@.map_values(|d: (Vec<char>, Vec<char>)| (d.0@, d.1@)) == spec_scan_inline(line@),
{
    let close = chars_of("-->");
    proof {
        reveal_strlit("-->");
    }
    let caps = re_captures_all(
        "(?i)(<!--\\s*markdownlint-(disable|enable|capture|restore|disable-file|enable-file|disable-line|disable-next-line|configure-file))(?:\\s|-->)",
        line,
    );
    let ghost cv = caps@.map_values(|g: Vec<Option<(usize, usize)>>| crate::re::groups_view(g@));
    let mut out: Vec<(Vec<char>, Vec<char>)> = Vec::new();
    let mut m: usize = 0;
    while m < caps.len()
        invariant
            m <= caps@.len(),
            line@.len() < usize::MAX / 4,
            close@.len() == 3,
            forall|k: int| 0 <= k < caps@.len() ==> {
                &&& (#[trigger] caps@[k])@.len() >= 1
                &&& caps@[k]@[0] is Some
                &&& crate::re::groups_in(caps@[k]@, line@.len() as int)
            },
            close@ == "-->"@,
            cv == caps@.map_values(|g: Vec<Option<(usize, usize)>>| crate::re::groups_view(g@)),
            cv == regex_captures_all(inline_pattern(), line@),
            out@.map_values(|d: (Vec<char>, Vec<char>)| (d.0@, d.1@)) == directives_upto(line@, cv, m as int),
        decreases caps@.len() - m,
    {
        let g = &caps[m];
        let ghost before = out@.map_values(|d: (Vec<char>, Vec<char>)| (d.0@, d.1@));
        proof {
            assert(crate::re::groups_in(caps@[m as int]@, line@.len() as int));
            assert(cv[m as int] == crate::re::groups_view(g@));
        }
        if g.len() >= 3 {
            match (g[1], g[2]) {
                (Some((_a1, b1)), Some((a2, b2))) => {
                    proof {
                        assert(g@[1] == Some((_a1, b1)));
                        assert(g@[2] == Some((a2, b2)));
                    }
                    let action = slice_vec(line, a2, b2);
                    match find_text(line, &close, b1) {
                        Some(e) => {
                            proof {
                                crate::rules::helpers::lemma_find_from(line@, close@, b1 as int);
                            }
                            out.push((action, slice_vec(line, b1, e)));
                        },
                        None => {},
                    }
                },
                _ => {},
            }
        }
        proof {
            let gv = cv[m as int];
            let after = out@.map_values(|d: (Vec<char>, Vec<char>)| (d.0@, d.1@));
            match directive_of(line@, gv) {
                Some(d) => {
                    assert(after =~= before.push(d));
                },
                None => {
                    assert(after =~= before);
                },
            }
        }
        m += 1;
    }
    out
}

/// The index of the first whitespace character of `s` at or after `i`
/// (the end when there is none).
pub open spec fn word_end(s: Seq<char>, i: int) -> int
    decreases s.len() - i,
{
    if i < 0 || i >= s.len() || spec_is_whitespace(s[i]) {
        i
    } else {
        word_end(s, i + 1)
    }
}

/// The words of `s[i..]`: its maximal runs of non-whitespace characters.
pub open spec fn words_from(s: Seq<char>, i: int) -> Seq<Seq<char>>
    decreases s.len() - i,
{
    if i < 0 || i >= s.len() {
        Seq::empty()
    } else if spec_is_whitespace(s[i]) {
        words_from(s, i + 1)
    } else {
        proof {
            lemma_word_end(s, i);
        }
        seq![s.subrange(i, word_end(s, i))] + words_from(s, word_end(s, i))
    }
}

pub proof fn lemma_word_end(s: Seq<char>, i: int)
    requires
        0 <= i <= s.len(),
    ensures
        i <= word_end(s, i) <= s.len(),
        i < s.len() && !spec_is_whitespace(s[i]) ==> i < word_end(s, i),
    decreases s.len() - i,
{
    if i < s.len() && !spec_is_whitespace(s[i]) {
        lemma_word_end(s, i + 1);
    }
}

/// Split on whitespace into non-empty words.
pub fn split_whitespace(s: &[char]) -> (r: Vec<Vec<char>>)
    ensures
        r@.map_values(|w: Vec<char>| w@) == words_from(s@, 0),
{
    let n = s.len();
    let mut out: Vec<Vec<char>> = Vec::new();
    let mut i: usize = 0;
    while i < n
        invariant
            i <= n,
            n == s@.len(),
            out@.map_values(|w: Vec<char>| w@) + words_from(s@, i as int) == words_from(s@, 0),
        decreases n - i,
    {
        let ghost before = out@.map_values(|w: Vec<char>| w@);
        if is_whitespace(s[i]) {
            i += 1;
        } else {
            let st = i;
            proof {
                lemma_word_end(s@, st as int);
            }
            while i < n && !is_whitespace(s[i])
                invariant
                    st <= i <= n,
                    n == s@.len(),
                    word_end(s@, i as int) == word_end(s@, st as int),
                decreases n - i,
            {
                i += 1;
            }
            let w = slice_vec(s, st, i);
            out.push(w);
            proof {
                assert(out@.map_values(|w: Vec<char>| w@) =~= before.push(s@.subrange(st as int, i as int)));
                assert(words_from(s@, st as int) == seq![s@.subrange(st as int, i as int)] + words_from(s@, i as int));
                assert(before.push(s@.subrange(st as int, i as int)) + words_from(s@, i as int) =~= before + (
                seq![s@.subrange(st as int, i as int)] + words_from(s@, i as int)));
            }
        }
    }
    proof {
        assert(out@.map_values(|w: Vec<char>| w@) + words_from(s@, n as int) =~= out@.map_values(|w: Vec<char>| w@));
    }
    out
}

/// The upper-cased words a directive's parameter names; every rule's id
/// when it is blank.
pub open spec fn directive_items(parameter: Seq<char>) -> Seq<Seq<char>> {
    let t = spec_trim(parameter);
    if t.len() == 0 {
        Seq::new(rule_count(), |r: int| upper_ascii(spec_rule_names(spec_all_rules()[r])[0]))
    } else {
        words_from(str_to_uppercase(t), 0)
    }
}

/// Rule `r` is named (by name, alias or tag) by one of `items`.
pub open spec fn named_by(items: Seq<Seq<char>>, r: RuleId) -> bool {
    exists|k: int| 0 <= k < items.len() && #[trigger] spec_rule_matches(r, items[k])
}

/// The action enables (it starts with `ENABLE`).
pub open spec fn action_enables(a: Seq<char>) -> bool {
    a.len() >= 6 && a[0] == 'E' && a[1] == 'N' && a[2] == 'A' && a[3] == 'B' && a[4] == 'L' && a[5] == 'E'
}

/// Apply an `enable`/`disable`-style action to the rules named (by name,
/// alias or tag) in `parameter`; every rule when it is empty.
pub fn apply_enable_disable(state: &mut Vec<bool>, action: &[char], parameter: &[char])
    requires
        old(state)@.len() == rule_count(),
    ensures
        final(state)@.len() == rule_count(),
        forall|r: int|
            0 <= r < rule_count() ==> #[trigger] final(state)@[r] == if named_by(
                directive_items(parameter@),
                spec_all_rules()[r],
            ) {
                action_enables(action@)
            } else {
                old(state)@[r]
            },
{
    let enabled = action.len() >= 6 && action[0] == 'E' && action[1] == 'N' && action[2] == 'A'
        && action[3] == 'B' && action[4] == 'L' && action[5] == 'E';
    let ids = all_rules();
    let trimmed = trim(parameter);
    let items: Vec<Vec<char>> = if trimmed.len() == 0 {
        let mut v: Vec<Vec<char>> = Vec::new();
        let mut r: usize = 0;
        while r < ids.len()
            invariant
                r <= ids@.len(),
                ids@ == spec_all_rules(),
                ids@.len() == rule_count(),
                v@.len() == r,
                forall|q: int| 0 <= q < r ==> (#[trigger] v@[q])@ == upper_ascii(spec_rule_names(spec_all_rules()[q])[0]),
            decreases ids@.len() - r,
        {
            let names = ids[r].names();
            proof {
                assert(names@.map_values(|x: &'static str| x@)[0] == names@[0]@);
            }
            let u = crate::text::ascii_uppercase(&chars_of(names[0]));
            proof {
                assert(u@ =~= upper_ascii(spec_rule_names(spec_all_rules()[r as int])[0]));
            }
            v.push(u);
            r += 1;
        }
        v
    } else {
        split_whitespace(&uppercase(&trimmed))
    };
    let ghost iv = items@.map_values(|w: Vec<char>| w@);
    proof {
        assert(iv =~= directive_items(parameter@));
    }
    let ghost st0 = state@;
    let mut k: usize = 0;
    while k < items.len()
        invariant
            k <= items@.len(),
            iv == items@.map_values(|w: Vec<char>| w@),
            state@.len() == rule_count(),
            ids@ == spec_all_rules(),
            ids@.len() == rule_count(),
            forall|r: int|
                0 <= r < rule_count() ==> #[trigger] state@[r] == if named_by(iv.take(k as int), ids@[r]) {
                    enabled
                } else {
                    st0[r]
                },
        decreases items@.len() - k,
    {
        let ghost before = state@;
        let mut r: usize = 0;
        while r < ids.len()
            invariant
                r <= ids@.len(),
                k < items@.len(),
                iv == items@.map_values(|w: Vec<char>| w@),
                state@.len() == rule_count(),
                before.len() == rule_count(),
                ids@.len() == rule_count(),
                forall|q: int|
                    0 <= q < r ==> #[trigger] state@[q] == if spec_rule_matches(ids@[q], iv[k as int]) {
                        enabled
                    } else {
                        before[q]
                    },
                forall|q: int| r <= q < rule_count() ==> #[trigger] state@[q] == before[q],
            decreases ids@.len() - r,
        {
            if crate::config::rule_matches(ids[r], &items[k]) {
                state.set(r, enabled);
            }
            r += 1;
        }
        proof {
            assert forall|q: int| 0 <= q < rule_count() implies #[trigger] state@[q] == if named_by(
                iv.take(k + 1),
                ids@[q],
            ) {
                enabled
            } else {
                st0[q]
            } by {
                let pre = iv.take(k as int);
                let post = iv.take(k + 1);
                if named_by(post, ids@[q]) {
                    let j = choose|j: int| 0 <= j < post.len() && #[trigger] spec_rule_matches(ids@[q], post[j]);
                    if j < k {
                        assert(pre[j] == post[j]);
                    }
                }
                if named_by(pre, ids@[q]) {
                    let j = choose|j: int| 0 <= j < pre.len() && #[trigger] spec_rule_matches(ids@[q], pre[j]);
                    assert(pre[j] == post[j]);
                }
                if spec_rule_matches(ids@[q], iv[k as int]) {
                    assert(post[k as int] == iv[k as int]);
                }
            }
        }
        k += 1;
    }
    proof {
        assert(iv.take(items@.len() as int) =~= iv);
    }
}

/// Whether `a` (already upper-cased) is the action `b`.
fn action_is(a: &[char], b: &str) -> (r: bool)
    ensures
        r == (a@ == b@),
{
    is_text(a, b)
}

/// A copy of a rule-state vector.
fn copy_state(s: &Vec<bool>) -> (r: Vec<bool>)
    ensures
        r@ == s@,
{
    let mut r: Vec<bool> = Vec::new();
    let mut i: usize = 0;
    while i < s.len()
        invariant
            i <= s@.len(),
            r@ == s@.take(i as int),
        decreases s@.len() - i,
    {
        r.push(s[i]);
        i += 1;
        proof {
            assert(r@ =~= s@.take(i as int));
        }
    }
    proof {
        assert(s@.take(s@.len() as int) =~= s@);
    }
    r
}

/// `state` after an `enable`/`disable`-style action on the rules that
/// `parameter` names.
pub open spec fn toggled(state: Seq<bool>, action: Seq<char>, parameter: Seq<char>) -> Seq<bool> {
    Seq::new(
        state.len(),
        |r: int|
            if named_by(directive_items(parameter), spec_all_rules()[r]) {
                action_enables(action)
            } else {
                state[r]
            },
    )
}

/// One directive of the file-wide pass: `enable-file` and `disable-file`
/// act, the others are passed over.
pub open spec fn file_step(state: Seq<bool>, d: (Seq<char>, Seq<char>)) -> Seq<bool> {
    let au = str_to_uppercase(d.0);
    if au == "ENABLE-FILE"@ || au == "DISABLE-FILE"@ {
        toggled(state, au, d.1)
    } else {
        state
    }
}

/// `state` after the first `k` directives `ds` of the file-wide pass.
pub open spec fn fold_file(state: Seq<bool>, ds: Seq<(Seq<char>, Seq<char>)>, k: int) -> Seq<bool>
    decreases k,
{
    if k <= 0 {
        state
    } else {
        file_step(fold_file(state, ds, k - 1), ds[k - 1])
    }
}

/// The state after the file-wide directives of the first `k` lines.
pub open spec fn file_state(base: Seq<bool>, lines: Seq<Seq<char>>, k: int) -> Seq<bool>
    decreases k,
{
    if k <= 0 {
        base
    } else {
        let ds = spec_scan_inline(lines[k - 1]);
        fold_file(file_state(base, lines, k - 1), ds, ds.len() as int)
    }
}

/// One directive of the line-by-line pass on (enabled, captured):
/// `capture` saves, `restore` brings back, `enable`/`disable` act.
pub open spec fn line_step(st: (Seq<bool>, Seq<bool>), d: (Seq<char>, Seq<char>)) -> (Seq<bool>, Seq<bool>) {
    let au = str_to_uppercase(d.0);
    if au == "CAPTURE"@ {
        (st.0, st.0)
    } else if au == "RESTORE"@ {
        (st.1, st.1)
    } else if au == "ENABLE"@ || au == "DISABLE"@ {
        (toggled(st.0, au, d.1), st.1)
    } else {
        st
    }
}

/// (enabled, captured) after the first `k` directives `ds`.
pub open spec fn fold_line(st: (Seq<bool>, Seq<bool>), ds: Seq<(Seq<char>, Seq<char>)>, k: int) -> (
    Seq<bool>,
    Seq<bool>,
)
    decreases k,
{
    if k <= 0 {
        st
    } else {
        line_step(fold_line(st, ds, k - 1), ds[k - 1])
    }
}

/// (enabled, captured) after the directives of the first `k` lines.
pub open spec fn line_states(start: (Seq<bool>, Seq<bool>), lines: Seq<Seq<char>>, k: int) -> (
    Seq<bool>,
    Seq<bool>,
)
    decreases k,
{
    if k <= 0 {
        start
    } else {
        let ds = spec_scan_inline(lines[k - 1]);
        fold_line(line_states(start, lines, k - 1), ds, ds.len() as int)
    }
}

/// The rules enabled by the configuration.
pub open spec fn configured_enabled(cfg: ResolvedConfig) -> Seq<bool> {
    Seq::new(rule_count(), |r: int| cfg.rules@[r].enabled)
}

/// The state of each line before `disable-line` and `disable-next-line`:
/// nothing for index 0 and the front matter; for a line of the document,
/// the enabled rules once its own directives are applied.
pub open spec fn pass2_states(cfg: ResolvedConfig, lines: Seq<Seq<char>>, fm: int) -> Seq<Seq<bool>> {
    let fs = file_state(configured_enabled(cfg), lines, lines.len() as int);
    Seq::new(
        (fm + 1 + lines.len()) as nat,
        |x: int|
            if x <= fm {
                Seq::new(rule_count(), |r: int| false)
            } else {
                line_states((fs, fs), lines, x - fm).0
            },
    )
}

/// One `disable-line` (on the line of index `li`) or `disable-next-line`
/// directive applied to the states.
pub open spec fn pass3_step(pl: Seq<Seq<bool>>, d: (Seq<char>, Seq<char>), fm: int, li: int) -> Seq<Seq<bool>> {
    let au = str_to_uppercase(d.0);
    if au == "DISABLE-LINE"@ || au == "DISABLE-NEXT-LINE"@ {
        let next = fm + li + 1 + if au == "DISABLE-NEXT-LINE"@ {
            1int
        } else {
            0int
        };
        if next < pl.len() {
            pl.update(next, toggled(pl[next], au, d.1))
        } else {
            pl
        }
    } else {
        pl
    }
}

/// The states after the first `k` directives `ds` of the line of index `li`.
pub open spec fn fold_pass3(pl: Seq<Seq<bool>>, ds: Seq<(Seq<char>, Seq<char>)>, fm: int, li: int, k: int) -> Seq<
    Seq<bool>,
>
    decreases k,
{
    if k <= 0 {
        pl
    } else {
        pass3_step(fold_pass3(pl, ds, fm, li, k - 1), ds[k - 1], fm, li)
    }
}

/// The states after the line-scoped directives of the first `k` lines.
pub open spec fn pass3_states(pl: Seq<Seq<bool>>, lines: Seq<Seq<char>>, fm: int, k: int) -> Seq<Seq<bool>>
    decreases k,
{
    if k <= 0 {
        pl
    } else {
        let ds = spec_scan_inline(lines[k - 1]);
        fold_pass3(pass3_states(pl, lines, fm, k - 1), ds, fm, k - 1, ds.len() as int)
    }
}

/// Which rules are enabled on each line of the document (indexed by line
/// number, front matter included).
pub open spec fn spec_enabled_per_line(cfg: ResolvedConfig, lines: Seq<Seq<char>>, fm: int) -> Seq<Seq<bool>> {
    pass3_states(pass2_states(cfg, lines, fm), lines, fm, lines.len() as int)
}

/// `toggled` as the exec function computes it.
proof fn lemma_toggled(old_state: Seq<bool>, new_state: Seq<bool>, action: Seq<char>, parameter: Seq<char>)
    requires
        old_state.len() == rule_count(),
        new_state.len() == rule_count(),
        forall|r: int|
            0 <= r < rule_count() ==> #[trigger] new_state[r] == if named_by(
                directive_items(parameter),
                spec_all_rules()[r],
            ) {
                action_enables(action)
            } else {
                old_state[r]
            },
    ensures
        new_state == toggled(old_state, action, parameter),
{
    assert(new_state =~= toggled(old_state, action, parameter));
}

/// For each rule, whether some line enables it.
fn rules_on_some_line(per_line: &Vec<Vec<bool>>) -> (any: Vec<bool>)
    requires
        forall|k: int| 0 <= k < per_line@.len() ==> (#[trigger] per_line@[k])@.len() == rule_count(),
    ensures
        any@.len() == rule_count(),
        forall|q: int|
            0 <= q < rule_count() ==> #[trigger] any@[q] == rule_runs(per_line@.map_values(|v: Vec<bool>| v@), q),
{
    let ghost pl = per_line@.map_values(|v: Vec<bool>| v@);
    let nr: usize = 52;
    let mut any: Vec<bool> = Vec::new();
    let mut r: usize = 0;
    while r < nr
        invariant
            r <= nr,
            nr == rule_count(),
            any@.len() == r,
            forall|k: int| 0 <= k < per_line@.len() ==> (#[trigger] per_line@[k])@.len() == rule_count(),
            pl == per_line@.map_values(|v: Vec<bool>| v@),
            forall|q: int| 0 <= q < r ==> #[trigger] any@[q] == rule_runs(pl, q),
        decreases nr - r,
    {
        let mut found = false;
        let mut k: usize = 0;
        while k < per_line.len() && !found
            invariant
                k <= per_line@.len(),
                r < nr,
                nr == rule_count(),
                forall|q: int| 0 <= q < per_line@.len() ==> (#[trigger] per_line@[q])@.len() == rule_count(),
                found ==> k >= 1 && per_line@[k - 1]@[r as int],
                !found ==> forall|q: int| 0 <= q < k ==> !(#[trigger] per_line@[q])@[r as int],
            decreases per_line@.len() - k,
        {
            if per_line[k][r] {
                found = true;
            }
            k += 1;
        }
        any.push(found);
        proof {
            if found {
                assert(pl[k - 1] == per_line@[k - 1]@);
                assert(pl[k - 1][r as int]);
            } else {
                assert forall|q: int| 0 <= q < pl.len() implies !(#[trigger] pl[q])[r as int] by {
                    assert(pl[q] == per_line@[q]@);
                }
            }
        }
        r += 1;
    }
    any
}

/// Which rules are enabled on each line: indexed by the line number in the
/// whole document (front matter lines, and index 0, enable nothing), then
/// by rule. Also, which rules are enabled on some line.
#[verifier::rlimit(30)]
#[verifier::spinoff_prover]
pub fn enabled_per_line(cfg: &ResolvedConfig, uncleared: &Vec<Vec<char>>, fm_len: usize) -> (r: (
    Vec<Vec<bool>>,
    Vec<bool>,
))
    requires
        cfg.rules@.len() == rule_count(),
        fm_len < usize::MAX / 4,
        uncleared@.len() < usize::MAX / 4,
        forall|k: int| 0 <= k < uncleared@.len() ==> (#[trigger] uncleared@[k])@.len() < usize::MAX / 4,
    ensures
        r.0@.len() == fm_len + 1 + uncleared@.len(),
        forall|k: int| 0 <= k < r.0@.len() ==> (#[trigger] r.0@[k])@.len() == rule_count(),
        r.1@.len() == rule_count(),
        r.0@.map_values(|v: Vec<bool>| v@) == spec_enabled_per_line(
            *cfg,
            uncleared@.map_values(|v: Vec<char>| v@),
            fm_len as int,
        ),
        forall|q: int|
            0 <= q < rule_count() ==> #[trigger] r.1@[q] == rule_runs(r.0@.map_values(|v: Vec<bool>| v@), q),
{
    let nr = cfg.rules.len();
    let ghost lines = uncleared@.map_values(|v: Vec<char>| v@);
    let ghost fm = fm_len as int;
    let mut enabled: Vec<bool> = Vec::new();
    let mut r: usize = 0;
    while r < nr
        invariant
            r <= nr,
            nr == cfg.rules@.len(),
            enabled@.len() == r,
            forall|q: int| 0 <= q < r ==> #[trigger] enabled@[q] == cfg.rules@[q].enabled,
        decreases nr - r,
    {
        enabled.push(cfg.rules[r].enabled);
        r += 1;
    }
    proof {
        assert(enabled@ =~= configured_enabled(*cfg));
        reveal_strlit("ENABLE-FILE");
        reveal_strlit("DISABLE-FILE");
        reveal_strlit("CAPTURE");
        reveal_strlit("RESTORE");
        reveal_strlit("ENABLE");
        reveal_strlit("DISABLE");
        reveal_strlit("DISABLE-LINE");
        reveal_strlit("DISABLE-NEXT-LINE");
    }
    let n = uncleared.len();
    // Pass 1: enable-file / disable-file.
    let mut li: usize = 0;
    while li < n
        invariant
            li <= n,
            n == uncleared@.len(),
            lines == uncleared@.map_values(|v: Vec<char>| v@),
            enabled@.len() == rule_count(),
            enabled@ == file_state(configured_enabled(*cfg), lines, li as int),
            forall|k: int| 0 <= k < uncleared@.len() ==> (#[trigger] uncleared@[k])@.len() < usize::MAX / 4,
        decreases n - li,
    {
        let acts = scan_inline(&uncleared[li]);
        let ghost ds = spec_scan_inline(lines[li as int]);
        let ghost start = enabled@;
        let mut a: usize = 0;
        while a < acts.len()
            invariant
                a <= acts@.len(),
                enabled@.len() == rule_count(),
                acts@.map_values(|d: (Vec<char>, Vec<char>)| (d.0@, d.1@)) == ds,
                enabled@ == fold_file(start, ds, a as int),
            decreases acts@.len() - a,
        {
            let au = uppercase(&acts[a].0);
            proof {
                assert(ds[a as int] == (acts@[a as int].0@, acts@[a as int].1@));
            }
            let ghost before = enabled@;
            if action_is(&au, "ENABLE-FILE") || action_is(&au, "DISABLE-FILE") {
                apply_enable_disable(&mut enabled, &au, &acts[a].1);
                proof {
                    lemma_toggled(before, enabled@, au@, acts@[a as int].1@);
                }
            }
            a += 1;
        }
        li += 1;
    }
    let ghost fs = enabled@;
    // Pass 2: capture / restore / enable / disable, one state per line.
    let mut per_line: Vec<Vec<bool>> = Vec::new();
    let mut h: usize = 0;
    while h <= fm_len
        invariant
            nr == rule_count(),
            h <= fm_len + 1,
            per_line@.len() == h,
            fm_len < usize::MAX / 4,
            forall|k: int| 0 <= k < per_line@.len() ==> (#[trigger] per_line@[k])@.len() == rule_count(),
            forall|k: int| 0 <= k < per_line@.len() ==> (#[trigger] per_line@[k])@ == Seq::new(rule_count(), |r: int| false),
        decreases fm_len + 1 - h,
    {
        let mut none: Vec<bool> = Vec::new();
        let mut r: usize = 0;
        while r < nr
            invariant
                r <= nr,
                nr == rule_count(),
                none@.len() == r,
                forall|q: int| 0 <= q < r ==> !(#[trigger] none@[q]),
            decreases nr - r,
        {
            none.push(false);
            r += 1;
        }
        proof {
            assert(none@ =~= Seq::new(rule_count(), |r: int| false));
        }
        per_line.push(none);
        h += 1;
    }
    let mut captured = copy_state(&enabled);
    let mut li: usize = 0;
    while li < n
        invariant
            li <= n,
            n == uncleared@.len(),
            lines == uncleared@.map_values(|v: Vec<char>| v@),
            fm == fm_len,
            fm_len < usize::MAX / 4,
            fs == file_state(configured_enabled(*cfg), lines, lines.len() as int),
            enabled@.len() == rule_count(),
            captured@.len() == rule_count(),
            (enabled@, captured@) == line_states((fs, fs), lines, li as int),
            per_line@.len() == fm_len + 1 + li,
            forall|k: int| 0 <= k < per_line@.len() ==> (#[trigger] per_line@[k])@.len() == rule_count(),
            forall|k: int|
                0 <= k < per_line@.len() ==> (#[trigger] per_line@[k])@ == pass2_states(*cfg, lines, fm)[k],
            forall|k: int| 0 <= k < uncleared@.len() ==> (#[trigger] uncleared@[k])@.len() < usize::MAX / 4,
        decreases n - li,
    {
        let acts = scan_inline(&uncleared[li]);
        let ghost ds = spec_scan_inline(lines[li as int]);
        let ghost start = (enabled@, captured@);
        let mut a: usize = 0;
        while a < acts.len()
            invariant
                a <= acts@.len(),
                enabled@.len() == rule_count(),
                captured@.len() == rule_count(),
                acts@.map_values(|d: (Vec<char>, Vec<char>)| (d.0@, d.1@)) == ds,
                (enabled@, captured@) == fold_line(start, ds, a as int),
            decreases acts@.len() - a,
        {
            let au = uppercase(&acts[a].0);
            proof {
                assert(ds[a as int] == (acts@[a as int].0@, acts@[a as int].1@));
            }
            let ghost before = enabled@;
            if action_is(&au, "CAPTURE") {
                captured = copy_state(&enabled);
            } else if action_is(&au, "RESTORE") {
                enabled = copy_state(&captured);
            } else if action_is(&au, "ENABLE") || action_is(&au, "DISABLE") {
                apply_enable_disable(&mut enabled, &au, &acts[a].1);
                proof {
                    lemma_toggled(before, enabled@, au@, acts@[a as int].1@);
                }
            }
            a += 1;
        }
        per_line.push(copy_state(&enabled));
        proof {
            assert(pass2_states(*cfg, lines, fm)[fm + 1 + li] == line_states((fs, fs), lines, li + 1).0);
        }
        li += 1;
    }
    let ghost p2 = pass2_states(*cfg, lines, fm);
    proof {
        assert(per_line@.map_values(|v: Vec<bool>| v@) =~= p2);
    }
    // Pass 3: disable-line / disable-next-line.
    let mut li: usize = 0;
    while li < n
        invariant
            li <= n,
            n == uncleared@.len(),
            lines == uncleared@.map_values(|v: Vec<char>| v@),
            fm == fm_len,
            fm_len < usize::MAX / 4,
            n < usize::MAX / 4,
            per_line@.len() == fm_len + 1 + n,
            forall|k: int| 0 <= k < per_line@.len() ==> (#[trigger] per_line@[k])@.len() == rule_count(),
            per_line@.map_values(|v: Vec<bool>| v@) == pass3_states(p2, lines, fm, li as int),
            forall|k: int| 0 <= k < uncleared@.len() ==> (#[trigger] uncleared@[k])@.len() < usize::MAX / 4,
        decreases n - li,
    {
        let acts = scan_inline(&uncleared[li]);
        let ghost ds = spec_scan_inline(lines[li as int]);
        let ghost start = per_line@.map_values(|v: Vec<bool>| v@);
        let mut a: usize = 0;
        while a < acts.len()
            invariant
                a <= acts@.len(),
                li < n,
                fm == fm_len,
                fm_len < usize::MAX / 4,
                n < usize::MAX / 4,
                per_line@.len() == fm_len + 1 + n,
                forall|k: int| 0 <= k < per_line@.len() ==> (#[trigger] per_line@[k])@.len() == rule_count(),
                acts@.map_values(|d: (Vec<char>, Vec<char>)| (d.0@, d.1@)) == ds,
                per_line@.map_values(|v: Vec<bool>| v@) == fold_pass3(start, ds, fm, li as int, a as int),
            decreases acts@.len() - a,
        {
            let au = uppercase(&acts[a].0);
            proof {
                assert(ds[a as int] == (acts@[a as int].0@, acts@[a as int].1@));
            }
            let ghost before = per_line@.map_values(|v: Vec<bool>| v@);
            let next_line = action_is(&au, "DISABLE-NEXT-LINE");
            if action_is(&au, "DISABLE-LINE") || next_line {
                let next = fm_len + (li + 1) + if next_line {
                    1
                } else {
                    0
                };
                if next < per_line.len() {
                    let mut st = copy_state(&per_line[next]);
                    let ghost st0 = st@;
                    apply_enable_disable(&mut st, &au, &acts[a].1);
                    proof {
                        lemma_toggled(st0, st@, au@, acts@[a as int].1@);
                    }
                    per_line.set(next, st);
                    proof {
                        assert(per_line@.map_values(|v: Vec<bool>| v@) =~= before.update(
                            next as int,
                            toggled(before[next as int], au@, acts@[a as int].1@),
                        ));
                    }
                }
            }
            a += 1;
        }
        li += 1;
    }
    let any = rules_on_some_line(&per_line);
    (per_line, any)
}

/// Copy of an optional text with `\r` and `\n` replaced by spaces.
/// Line breaks made spaces.
pub open spec fn spec_flatten(s: Seq<char>) -> Seq<char> {
    s.map_values(|c: char| if c == '\r' || c == '\n' { ' ' } else { c })
}

fn flatten_breaks(o: &Option<Vec<char>>) -> (r: Option<Vec<char>>)
    ensures
        o is None <==> r is None,
        r matches Some(v) ==> v@ == spec_flatten(o->0@),
{
    match o {
        Some(v) => {
            let mut out: Vec<char> = Vec::new();
            let mut i: usize = 0;
            while i < v.len()
                invariant
                    i <= v@.len(),
                    out@ == spec_flatten(v@.take(i as int)),
                decreases v@.len() - i,
            {
                let c = v[i];
                out.push(if c == '\r' || c == '\n' {
                    ' '
                } else {
                    c
                });
                i += 1;
                proof {
                    assert(out@ =~= spec_flatten(v@.take(i as int)));
                }
            }
            proof {
                assert(v@.take(i as int) =~= v@);
            }
            Some(out)
        },
        None => None,
    }
}

/// The fix of a problem, its line moved down by `offset` lines.
/// A fix moved down by `offset` lines (a line number that would overflow
/// stays).
pub open spec fn offset_fix_v(f: Option<FixV>, offset: usize) -> Option<FixV> {
    match f {
        Some(fv) => Some(
            FixV {
                line_number: match fv.line_number {
                    Some(l) => Some(if l <= usize::MAX - offset { (l + offset) as usize } else { l }),
                    None => None,
                },
                ..fv
            },
        ),
        None => None,
    }
}

fn offset_fix(f: &Option<FixInfo>, offset: usize) -> (r: Option<FixInfo>)
    ensures
        fix_view(r) == offset_fix_v(fix_view(*f), offset),
{
    match f {
        Some(fi) => {
            let line_number = match fi.line_number {
                Some(l) => if l <= usize::MAX - offset {
                    Some(l + offset)
                } else {
                    Some(l)
                },
                None => None,
            };
            let insert_text = match &fi.insert_text {
                Some(t) => Some(slice_vec(t, 0, t.len())),
                None => None,
            };
            proof {
                if fi.insert_text is Some {
                    let t = fi.insert_text->0;
                    assert(t@.subrange(0, t@.len() as int) =~= t@);
                }
            }
            Some(
                FixInfo {
                    line_number,
                    edit_column: fi.edit_column,
                    delete_count: fi.delete_count,
                    insert_text,
                },
            )
        },
        None => None,
    }
}

/// The address of a rule's documentation.
pub fn rule_information(r: RuleId) -> (v: Vec<char>)
    ensures
        v@ == "https://github.com/DavidAnson/markdownlint/blob/main/doc/"@ + crate::text::str_to_lowercase(
            crate::rules::registry::spec_rule_names(r)[0],
        ) + ".md"@,
{
    let names = r.names();
    let mut v = chars_of("https://github.com/DavidAnson/markdownlint/blob/main/doc/");
    let id = crate::text::lowercase(&chars_of(names[0]));
    proof {
        assert(names@.map_values(|x: &'static str| x@)[0] == names@[0]@);
    }
    crate::rules::helpers::push_all(&mut v, &id, 0, id.len());
    let ext = chars_of(".md");
    crate::rules::helpers::push_all(&mut v, &ext, 0, ext.len());
    proof {
        assert(id@.subrange(0, id@.len() as int) =~= id@);
        assert(ext@.subrange(0, ext@.len() as int) =~= ext@);
    }
    v
}

/// The content without a leading byte-order mark.
/// The text without a leading byte-order mark.
pub open spec fn spec_strip_bom(s: Seq<char>) -> Seq<char> {
    if s.len() > 0 && s[0] == '\u{feff}' {
        s.skip(1)
    } else {
        s
    }
}

fn strip_bom(content: &str) -> (r: Vec<char>)
    ensures
        r@.len() <= content@.len(),
        r@ == spec_strip_bom(content@),
{
    let chars = chars_of(content);
    if chars.len() > 0 && chars[0] == '\u{feff}' {
        slice_vec(&chars, 1, chars.len())
    } else {
        chars
    }
}

/// The pattern of an inline directive comment.
pub open spec fn directive_comment_pattern() -> Seq<char> {
    "(?i)(<!--\\s*markdownlint-(disable|enable|capture|restore|disable-file|enable-file|disable-line|disable-next-line|configure-file))(?:\\s|-->)"@
}

/// The parameter of a directive match `g` in `s`, when it is a
/// `configure-file` directive closed by `-->`.
pub open spec fn configure_param(s: Seq<char>, g: Seq<Option<(int, int)>>) -> Option<Seq<char>> {
    if g.len() >= 3 {
        match (g[1], g[2]) {
            (Some((_a1, b1)), Some((a2, b2))) => {
                let action = s.subrange(a2, b2).map_values(|c: char| crate::text::ascii_upper(c));
                if action == "CONFIGURE-FILE"@ {
                    match crate::rules::helpers::find_from(s, "-->"@, b1) {
                        Some(e) => Some(crate::rules::helpers::spec_trim(s.subrange(b1, e))),
                        None => None,
                    }
                } else {
                    None
                }
            },
            _ => None,
        }
    } else {
        None
    }
}

/// The parameters of the first `m` directive matches `caps` of `s`.
pub open spec fn configure_params_upto(s: Seq<char>, caps: Seq<Seq<Option<(int, int)>>>, m: int) -> Seq<Seq<char>>
    decreases m,
{
    if m <= 0 {
        Seq::empty()
    } else {
        let prev = configure_params_upto(s, caps, m - 1);
        match configure_param(s, caps[m - 1]) {
            Some(p) => prev.push(p),
            None => prev,
        }
    }
}

/// The parameters of the `markdownlint-configure-file` comments of a
/// document.
pub open spec fn spec_configure_file_params(content: Seq<char>) -> Seq<Seq<char>> {
    let s = spec_front_matter(spec_strip_bom(content)).0;
    let caps = regex_captures_all(directive_comment_pattern(), s);
    configure_params_upto(s, caps, caps.len() as int)
}

/// The parameters of the `markdownlint-configure-file` comments of a
/// document (after its front matter), in order: the text between the
/// comment's keyword and the next `-->`, trimmed.
#[verifier::rlimit(30)]
pub fn configure_file_params(content: &str) -> (r: Vec<Vec<char>>)
    requires
        content@.len() < usize::MAX / 8,
    ensures
        names_view(r@) == spec_configure_file_params(content@),
{
    let chars = strip_bom(content);
    let (stripped, _fm) = remove_front_matter(&chars);
    let close = chars_of("-->");
    proof {
        reveal_strlit("-->");
    }
    let caps = re_captures_all(
        "(?i)(<!--\\s*markdownlint-(disable|enable|capture|restore|disable-file|enable-file|disable-line|disable-next-line|configure-file))(?:\\s|-->)",
        &stripped,
    );
    let ghost sv = stripped@;
    let ghost cs = regex_captures_all(directive_comment_pattern(), sv);
    proof {
        reveal_strlit("-->");
        assert(close@ =~= "-->"@);
    }
    let mut out: Vec<Vec<char>> = Vec::new();
    let mut m: usize = 0;
    proof {
        assert(names_view(out@) =~= configure_params_upto(sv, cs, 0));
    }
    while m < caps.len()
        invariant
            m <= caps@.len(),
            sv == stripped@,
            stripped@.len() < usize::MAX / 8,
            close@.len() == 3,
            close@ == "-->"@,
            cs.len() == caps@.len(),
            forall|k: int| 0 <= k < caps@.len() ==> #[trigger] cs[k] == crate::re::groups_view(caps@[k]@),
            names_view(out@) == configure_params_upto(sv, cs, m as int),
            forall|k: int| 0 <= k < caps@.len() ==> {
                &&& (#[trigger] caps@[k])@.len() >= 1
                &&& caps@[k]@[0] is Some
                &&& crate::re::groups_in(caps@[k]@, stripped@.len() as int)
            },
        decreases caps@.len() - m,
    {
        let g = &caps[m];
        let ghost gv = cs[m as int];
        let ghost o0 = out@;
        proof {
            assert(crate::re::groups_in(caps@[m as int]@, stripped@.len() as int));
            assert(gv == crate::re::groups_view(g@));
        }
        if g.len() >= 3 {
            proof {
                assert(gv[1] == crate::re::span_view(g@[1]));
                assert(gv[2] == crate::re::span_view(g@[2]));
            }
            match (g[1], g[2]) {
                (Some((_a1, b1)), Some((a2, b2))) => {
                    proof {
                        assert(g@[1] == Some((_a1, b1)));
                        assert(g@[2] == Some((a2, b2)));
                    }
                    let sub = slice_vec(&stripped, a2, b2);
                    let action = crate::text::ascii_uppercase(&sub);
                    proof {
                        assert(action@ =~= sv.subrange(a2 as int, b2 as int).map_values(|c: char| crate::text::ascii_upper(c)));
                    }
                    if is_text(&action, "CONFIGURE-FILE") {
                        match find_text(&stripped, &close, b1) {
                            Some(e) => {
                                proof {
                                    crate::rules::helpers::lemma_find_from(stripped@, close@, b1 as int);
                                }
                                out.push(trim(&slice_vec(&stripped, b1, e)));
                            },
                            None => {},
                        }
                    }
                },
                _ => {},
            }
        }
        proof {
            let want = configure_params_upto(sv, cs, m + 1);
            match configure_param(sv, gv) {
                Some(pp) => {
                    assert(out@.len() == o0.len() + 1);
                    assert(names_view(out@) =~= names_view(o0).push(pp)) by {
                        assert forall|q: int| 0 <= q < out@.len() implies #[trigger] names_view(out@)[q] == names_view(o0).push(pp)[q] by {
                            if q < o0.len() {
                                assert(out@[q] == o0[q]);
                            }
                        }
                    }
                },
                None => {
                    assert(out@ == o0);
                },
            }
        }
        m += 1;
    }
    out
}

/// A copy of a configuration.
fn copy_config(c: &Config) -> (r: Config)
    ensures
        cfg_deep(r.entries@) == cfg_deep(c.entries@),
{
    let mut entries: Vec<(Vec<char>, crate::config::ConfigValue)> = Vec::new();
    let mut i: usize = 0;
    while i < c.entries.len()
        invariant
            i <= c.entries@.len(),
            cfg_deep(entries@) == cfg_deep(c.entries@).take(i as int),
        decreases c.entries@.len() - i,
    {
        let k = &c.entries[i].0;
        let kc = slice_vec(k, 0, k.len());
        let vc = crate::config::clone_config_value(&c.entries[i].1);
        let ghost before = entries@;
        entries.push((kc, vc));
        proof {
            assert(kc@ =~= k@);
            assert(cfg_deep(entries@) =~= cfg_deep(before).push((k@, crate::config::value_v(c.entries@[i as int].1))));
            assert(cfg_deep(entries@) =~= cfg_deep(c.entries@).take(i + 1));
        }
        i += 1;
    }
    proof {
        assert(cfg_deep(c.entries@).take(i as int) =~= cfg_deep(c.entries@));
    }
    Config { entries }
}

/// The configuration `base` with the objects among `ds[..d]` merged over
/// it in turn, by value.
pub open spec fn merge_directives(
    base: Seq<(Seq<char>, crate::config::ValueV)>,
    ds: Seq<Option<Config>>,
    d: int,
) -> Seq<(Seq<char>, crate::config::ValueV)>
    decreases d,
{
    if d <= 0 {
        base
    } else {
        let prev = merge_directives(base, ds, d - 1);
        match ds[d - 1] {
            Some(c) => crate::config::merge_deep(prev, cfg_deep(c.entries@), c.entries@.len() as int),
            None => prev,
        }
    }
}

/// `results` is what linting `content` with `raw` and the directive
/// configurations `ds` gives.
pub open spec fn lint_config_result(content: Seq<char>, raw: Config, ds: Seq<Option<Config>>, results: Seq<LintErrorV>) -> bool {
    exists|
        merged: Config,
        rc: ResolvedConfig,
        tree: Tree,
        lines: Vec<Vec<char>>,
        fm: Vec<Vec<char>>,
        outs: Seq<Seq<RuleError>>,
    | #[trigger] config_outcome(content, raw, ds, merged, rc, tree, lines, fm, outs, results)
}

/// `rc` is what `Config::resolve` gives for `entries`.
pub open spec fn resolved_from(rc: ResolvedConfig, entries: Seq<(Vec<char>, crate::config::ConfigValue)>) -> bool {
    &&& rc.rules@.len() == rule_count()
    &&& forall|k: int|
        0 <= k < rule_count() ==> ((#[trigger] rc.rules@[k]).enabled, rc.rules@[k].severity)
            == crate::config::rule_setting(crate::config::cfg_view(entries), spec_all_rules()[k], entries.len() as int)
    &&& forall|k: int|
        0 <= k < rule_count() ==> crate::config::entries_v((#[trigger] rc.rules@[k]).options.entries@)
            == crate::config::rule_options(crate::config::cfg_view(entries), spec_all_rules()[k], entries.len() as int)
}

/// What linting `content` with `raw` and the directive configurations
/// gives: the merged configuration, resolved, then linted.
pub open spec fn config_outcome(
    content: Seq<char>,
    raw: Config,
    ds: Seq<Option<Config>>,
    merged: Config,
    rc: ResolvedConfig,
    tree: Tree,
    lines: Vec<Vec<char>>,
    fm: Vec<Vec<char>>,
    outs: Seq<Seq<RuleError>>,
    results: Seq<LintErrorV>,
) -> bool {
    &&& cfg_deep(merged.entries@) == merge_directives(cfg_deep(raw.entries@), ds, ds.len() as int)
    &&& resolved_from(rc, merged.entries@)
    &&& lint_outcome(content, rc, tree, lines, fm, outs, results)
}

/// Lint `content` with the configuration `raw`, overlaid with the
/// configurations of its `markdownlint-configure-file` comments:
/// `directive_configs[k]` is what the `k`-th parameter of
/// `configure_file_params` parses to (`None` when it is not an object).
/// Problems are returned rule by rule, with lines counted in the whole
/// document.
pub fn lint_config(content: &str, raw: &Config, directive_configs: &Vec<Option<Config>>) -> (r: Vec<
    LintError,
>)
    requires
        content@.len() < usize::MAX / 8,
    ensures
        forall|k: int| 0 <= k < r@.len() ==> 1 <= (#[trigger] r@[k]).line_number,
        lint_config_result(content@, *raw, directive_configs@, lint_errors_v(r@)),
{
    let mut merged = copy_config(raw);
    let mut d: usize = 0;
    while d < directive_configs.len()
        invariant
            d <= directive_configs@.len(),
            cfg_deep(merged.entries@) == merge_directives(cfg_deep(raw.entries@), directive_configs@, d as int),
        decreases directive_configs@.len() - d,
    {
        match &directive_configs[d] {
            Some(c) => merged.merge_shallow(c),
            None => {},
        }
        d += 1;
    }
    let cfg = merged.resolve();
    let r = lint(content, &cfg);
    proof {
        let (tree, lines, fm, outs) = choose|tree: Tree, lines: Vec<Vec<char>>, fm: Vec<Vec<char>>, outs: Seq<Seq<RuleError>>|
            #[trigger] lint_outcome(content@, cfg, tree, lines, fm, outs, lint_errors_v(r@));
        assert(config_outcome(content@, *raw, directive_configs@, merged, cfg, tree, lines, fm, outs, lint_errors_v(r@)));
        assert(lint_config_result(content@, *raw, directive_configs@, lint_errors_v(r@)));
    }
    r
}

/// A problem by value.
pub struct LintErrorV {
    pub line: usize,
    pub names: Seq<Seq<char>>,
    pub description: Seq<char>,
    pub information: Seq<char>,
    pub detail: Option<Seq<char>>,
    pub context: Option<Seq<char>>,
    pub range: Option<(usize, usize)>,
    pub fix: Option<FixV>,
    pub severity: Severity,
}

/// The problem `e` by value.
pub open spec fn lint_error_v(e: LintError) -> LintErrorV {
    LintErrorV {
        line: e.line_number,
        names: e.rule_names@.map_values(|x: &'static str| x@),
        description: e.rule_description@,
        information: e.rule_information@,
        detail: opt_seq(e.error_detail),
        context: opt_seq(e.error_context),
        range: e.error_range,
        fix: fix_view(e.fix_info),
        severity: e.severity,
    }
}

/// Problems by value.
pub open spec fn lint_errors_v(r: Seq<LintError>) -> Seq<LintErrorV> {
    r.map_values(|e: LintError| lint_error_v(e))
}

/// A text with its line breaks made spaces.
pub open spec fn flat_opt(o: Option<Seq<char>>) -> Option<Seq<char>> {
    match o {
        Some(s) => Some(spec_flatten(s)),
        None => None,
    }
}

/// What a problem that rule `ri` reported becomes: its line counted in
/// the whole document, the rule's names, description, address and
/// severity, breaks in its texts made spaces, its fix moved with it.
pub open spec fn rule_problem(e: RuleError, ri: int, fm_len: usize, cfg: ResolvedConfig) -> LintErrorV {
    let id = spec_all_rules()[ri];
    LintErrorV {
        line: (e.line_number + fm_len) as usize,
        names: spec_rule_names(id),
        description: crate::rules::registry::spec_rule_description(id),
        information: "https://github.com/DavidAnson/markdownlint/blob/main/doc/"@
            + crate::text::str_to_lowercase(spec_rule_names(id)[0]) + ".md"@,
        detail: flat_opt(opt_seq(e.detail)),
        context: flat_opt(opt_seq(e.context)),
        range: e.range,
        fix: offset_fix_v(fix_view(e.fix_info), fm_len),
        severity: cfg.rules@[ri].severity,
    }
}

/// A problem of rule `ri` is kept: it is on one of the `n_lines` lines,
/// and the rule is enabled on that line.
pub open spec fn problem_kept(e: RuleError, ri: int, n_lines: int, fm_len: int, pl: Seq<Seq<bool>>) -> bool {
    &&& 1 <= e.line_number <= n_lines
    &&& e.line_number + fm_len < pl.len()
    &&& pl[e.line_number + fm_len][ri]
}

/// The kept problems among the first `k` of `errs`, by value.
pub open spec fn kept_problems(
    errs: Seq<RuleError>,
    k: int,
    ri: int,
    n_lines: int,
    fm_len: usize,
    pl: Seq<Seq<bool>>,
    cfg: ResolvedConfig,
) -> Seq<LintErrorV>
    decreases k,
{
    if k <= 0 {
        Seq::empty()
    } else {
        let prev = kept_problems(errs, k - 1, ri, n_lines, fm_len, pl, cfg);
        if problem_kept(errs[k - 1], ri, n_lines, fm_len as int, pl) {
            prev.push(rule_problem(errs[k - 1], ri, fm_len, cfg))
        } else {
            prev
        }
    }
}

/// Rule `ri` is enabled on some line.
pub open spec fn rule_runs(pl: Seq<Seq<bool>>, ri: int) -> bool {
    exists|k: int| 0 <= k < pl.len() && (#[trigger] pl[k])[ri]
}

/// The problems kept of the first `r` rules, rule by rule.
pub open spec fn lint_upto(
    outs: Seq<Seq<RuleError>>,
    r: int,
    n_lines: int,
    fm_len: usize,
    pl: Seq<Seq<bool>>,
    cfg: ResolvedConfig,
) -> Seq<LintErrorV>
    decreases r,
{
    if r <= 0 {
        Seq::empty()
    } else {
        let prev = lint_upto(outs, r - 1, n_lines, fm_len, pl, cfg);
        if rule_runs(pl, r - 1) {
            prev + kept_problems(outs[r - 1], outs[r - 1].len() as int, r - 1, n_lines, fm_len, pl, cfg)
        } else {
            prev
        }
    }
}

proof fn lemma_lint_upto_prefix(
    o1: Seq<Seq<RuleError>>,
    o2: Seq<Seq<RuleError>>,
    r: int,
    n_lines: int,
    fm_len: usize,
    pl: Seq<Seq<bool>>,
    cfg: ResolvedConfig,
)
    requires
        forall|i: int| 0 <= i < r ==> #[trigger] o1[i] == o2[i],
    ensures
        lint_upto(o1, r, n_lines, fm_len, pl, cfg) == lint_upto(o2, r, n_lines, fm_len, pl, cfg),
    decreases r,
{
    if r > 0 {
        lemma_lint_upto_prefix(o1, o2, r - 1, n_lines, fm_len, pl, cfg);
        assert(o1[r - 1] == o2[r - 1]);
    }
}

/// What linting `content` gives: for the document's cleared lines, its
/// front matter lines and a well-formed token tree, the problems `outs[ri]`
/// that each rule enabled somewhere reports, kept where the rule is
/// enabled, rule by rule.
pub open spec fn lint_outcome(
    content: Seq<char>,
    cfg: ResolvedConfig,
    tree: Tree,
    lines: Vec<Vec<char>>,
    fm: Vec<Vec<char>>,
    outs: Seq<Seq<RuleError>>,
    results: Seq<LintErrorV>,
) -> bool {
    let (stripped, fmv) = spec_front_matter(spec_strip_bom(content));
    let pl = spec_enabled_per_line(cfg, regex_split("\\r\\n|\\r|\\n"@, stripped), fmv.len() as int);
    &&& tree.wf()
    &&& lines@.map_values(|v: Vec<char>| v@) == regex_split("\\r\\n|\\r|\\n"@, spec_clear_html_comments(stripped))
    &&& fm@.map_values(|v: Vec<char>| v@) == fmv
    &&& outs.len() == rule_count()
    &&& forall|ri: int|
        0 <= ri < rule_count() && rule_runs(pl, ri) ==> crate::rules::registry::rule_reported(
            spec_all_rules()[ri],
            &Params { lines: &lines, front_matter_lines: &fm, tree: &tree, config: &cfg.rules@[ri].options },
            Seq::empty(),
            #[trigger] outs[ri],
        )
    &&& results == lint_upto(outs, rule_count() as int, lines@.len() as int, fm@.len() as usize, pl, cfg)
    &&& (exists|ri: int| 0 <= ri < rule_count() && #[trigger] rule_runs(pl, ri) && rule_reads_tree(spec_all_rules()[ri]))
        ==> crate::md::parser::parsed_lines(crate::md::scan::spec_split_lines(stripped), tree.tokens@)
}

/// Rule `r` reads the token tree (as `RuleId::uses_tree` says).
pub open spec fn rule_reads_tree(r: RuleId) -> bool {
    !(r is Md047 || r is Md052 || r is Md053)
}

/// A problem is reported where its rule is on: it is one rule's (by its
/// names), with that rule's severity, on a line (counted in the whole
/// document) where the configuration and the inline directives enable the
/// rule.
pub open spec fn reported_where_enabled(e: LintError, cfg: ResolvedConfig, content: Seq<char>) -> bool {
    let (stripped, fm) = spec_front_matter(spec_strip_bom(content));
    let pl = spec_enabled_per_line(cfg, regex_split("\\r\\n|\\r|\\n"@, stripped), fm.len() as int);
    exists|ri: int|
        0 <= ri < rule_count() && e.rule_names@.map_values(|x: &'static str| x@) == spec_rule_names(
            spec_all_rules()[ri],
        ) && e.severity == cfg.rules@[ri].severity && e.line_number < pl.len() && pl[e.line_number as int][ri]
}

/// Lint `content` with the effective configuration `cfg` (one setting per
/// rule, in the order of `all_rules`). Problems are returned rule by rule,
/// with lines counted in the whole document.
#[verifier::rlimit(30)]
pub fn lint(content: &str, cfg: &ResolvedConfig) -> (r: Vec<LintError>)
    requires
        content@.len() < usize::MAX / 8,
        cfg.rules@.len() == rule_count(),
    ensures
        forall|k: int| 0 <= k < r@.len() ==> 1 <= (#[trigger] r@[k]).line_number,
        forall|k: int|
            0 <= k < r@.len() ==> reported_where_enabled(#[trigger] r@[k], *cfg, content@),
        exists|tree: Tree, lines: Vec<Vec<char>>, fm: Vec<Vec<char>>, outs: Seq<Seq<RuleError>>|
            #[trigger] lint_outcome(content@, *cfg, tree, lines, fm, outs, lint_errors_v(r@)),
{
    let chars = strip_bom(content);
    let (stripped, fm) = remove_front_matter(&chars);
    let fm_len = fm.len();
    let uncleared = split_lines(&stripped);
    let (per_line, any) = enabled_per_line(&cfg, &uncleared, fm_len);
    let ghost pl = per_line@.map_values(|v: Vec<bool>| v@);
    proof {
        assert(fm_len == spec_front_matter(spec_strip_bom(content@)).1.len());
        assert(pl == spec_enabled_per_line(
            *cfg,
            regex_split("\\r\\n|\\r|\\n"@, spec_front_matter(spec_strip_bom(content@)).0),
            fm_len as int,
        ));

    }
    let ids = all_rules();
    let mut need_tokens = false;
    let mut r: usize = 0;
    while r < ids.len()
        invariant
            r <= ids@.len(),
            ids@.len() == rule_count(),
            ids@ == spec_all_rules(),
            any@.len() == rule_count(),
            need_tokens == exists|q: int| 0 <= q < r && #[trigger] any@[q] && rule_reads_tree(ids@[q]),
        decreases ids@.len() - r,
    {
        if any[r] && ids[r].uses_tree() {
            need_tokens = true;
        }
        r += 1;
    }
    proof {
        if exists|ri: int| 0 <= ri < rule_count() && #[trigger] rule_runs(pl, ri) && rule_reads_tree(spec_all_rules()[ri]) {
            let ri = choose|ri: int| 0 <= ri < rule_count() && #[trigger] rule_runs(pl, ri) && rule_reads_tree(spec_all_rules()[ri]);
            assert(any@[ri]);
            assert(need_tokens);
        }
    }
    let tree = if need_tokens {
        Parser::parse_chars(&stripped)
    } else {
        Tree::new()
    };
    let cleared = clear_html_comment_text(&stripped);
    let lines = split_lines(&cleared);
    let ghost n_lines = lines@.len() as int;
    let ghost mut outs: Seq<Seq<RuleError>> = Seq::new(rule_count() as nat, |i: int| Seq::<RuleError>::empty());
    let mut results: Vec<LintError> = Vec::new();
    proof {
        assert(lint_errors_v(results@) =~= lint_upto(outs, 0, n_lines, fm_len, pl, *cfg));
    }
    let mut r: usize = 0;
    while r < ids.len()
        invariant
            r <= ids@.len(),
            ids@.len() == rule_count(),
            any@.len() == rule_count(),
            cfg.rules@.len() == rule_count(),
            tree.wf(),
            lines@.len() < usize::MAX / 4,
            n_lines == lines@.len(),
            forall|k: int| 0 <= k < lines@.len() ==> (#[trigger] lines@[k])@.len() < usize::MAX / 4,
            forall|k: int| 0 <= k < fm@.len() ==> (#[trigger] fm@[k])@.len() < usize::MAX / 4,
            fm_len < usize::MAX / 4,
            fm_len == fm@.len(),
            forall|k: int| 0 <= k < per_line@.len() ==> (#[trigger] per_line@[k])@.len() == rule_count(),
            forall|k: int| 0 <= k < results@.len() ==> 1 <= (#[trigger] results@[k]).line_number,
            ids@ == spec_all_rules(),
            pl == per_line@.map_values(|v: Vec<bool>| v@),
            fm_len == spec_front_matter(spec_strip_bom(content@)).1.len(),
            pl == spec_enabled_per_line(
                *cfg,
                regex_split("\\r\\n|\\r|\\n"@, spec_front_matter(spec_strip_bom(content@)).0),
                fm_len as int,
            ),
            forall|k: int| 0 <= k < results@.len() ==> reported_where_enabled(#[trigger] results@[k], *cfg, content@),
            forall|q: int| 0 <= q < rule_count() ==> #[trigger] any@[q] == rule_runs(pl, q),
            outs.len() == rule_count(),
            forall|ri: int|
                0 <= ri < r && rule_runs(pl, ri) ==> crate::rules::registry::rule_reported(
                    spec_all_rules()[ri],
                    &Params { lines: &lines, front_matter_lines: &fm, tree: &tree, config: &cfg.rules@[ri].options },
                    Seq::empty(),
                    #[trigger] outs[ri],
                ),
            lint_errors_v(results@) == lint_upto(outs, r as int, n_lines, fm_len, pl, *cfg),
        decreases ids@.len() - r,
    {
        if !any[r] {
            proof {
                assert(!rule_runs(pl, r as int));
            }
            r += 1;
            continue;
        }
        let rc = &cfg.rules[r];
        let p = Params { lines: &lines, front_matter_lines: &fm, tree: &tree, config: &rc.options };
        let mut emit = Emit::new();
        let ghost e_before = emit.errors@;
        ids[r].run(&p, &mut emit);
        let ghost old_outs = outs;
        proof {
            assert(e_before =~= Seq::<RuleError>::empty());
            assert(p == Params { lines: &lines, front_matter_lines: &fm, tree: &tree, config: &cfg.rules@[r as int].options });
            assert(crate::rules::registry::rule_reported(spec_all_rules()[r as int], &p, Seq::empty(), emit.errors@));
            outs = outs.update(r as int, emit.errors@);
            assert forall|ri: int|
                0 <= ri < r + 1 && rule_runs(pl, ri) implies crate::rules::registry::rule_reported(
                    spec_all_rules()[ri],
                    &Params { lines: &lines, front_matter_lines: &fm, tree: &tree, config: &cfg.rules@[ri].options },
                    Seq::empty(),
                    #[trigger] outs[ri],
                ) by {
                if ri < r {
                    assert(outs[ri] == old_outs[ri]);
                }
            }
            lemma_lint_upto_prefix(old_outs, outs, r as int, n_lines, fm_len, pl, *cfg);
            assert(rule_runs(pl, r as int));
        }
        let ghost base = lint_errors_v(results@);
        let mut e: usize = 0;
        while e < emit.errors.len()
            invariant
                e <= emit.errors@.len(),
                r < ids@.len(),
                ids@.len() == rule_count(),
                fm_len < usize::MAX / 4,
                lines@.len() < usize::MAX / 4,
                n_lines == lines@.len(),
                forall|k: int| 0 <= k < per_line@.len() ==> (#[trigger] per_line@[k])@.len() == rule_count(),
                forall|k: int| 0 <= k < results@.len() ==> 1 <= (#[trigger] results@[k]).line_number,
                ids@ == spec_all_rules(),
                cfg.rules@.len() == rule_count(),
                *rc == cfg.rules@[r as int],
                pl == per_line@.map_values(|v: Vec<bool>| v@),
                fm_len == spec_front_matter(spec_strip_bom(content@)).1.len(),
                pl == spec_enabled_per_line(
                    *cfg,
                    regex_split("\\r\\n|\\r|\\n"@, spec_front_matter(spec_strip_bom(content@)).0),
                    fm_len as int,
                ),
                forall|k: int| 0 <= k < results@.len() ==> reported_where_enabled(#[trigger] results@[k], *cfg, content@),
                base == lint_upto(outs, r as int, n_lines, fm_len, pl, *cfg),
                outs[r as int] == emit.errors@,
                lint_errors_v(results@) == base + kept_problems(
                    emit.errors@,
                    e as int,
                    r as int,
                    n_lines,
                    fm_len,
                    pl,
                    *cfg,
                ),
                forall|ri: int|
                    0 <= ri < r + 1 && rule_runs(pl, ri) ==> crate::rules::registry::rule_reported(
                        spec_all_rules()[ri],
                        &Params { lines: &lines, front_matter_lines: &fm, tree: &tree, config: &cfg.rules@[ri].options },
                        Seq::empty(),
                        #[trigger] outs[ri],
                    ),
            decreases emit.errors@.len() - e,
        {
            let err = &emit.errors[e];
            let ghost before = results@;
            let ghost bv = lint_errors_v(before);
            if err.line_number >= 1 && err.line_number <= lines.len() && err.line_number + fm_len < per_line.len()
                && per_line[err.line_number + fm_len][r] {
                let final_line = err.line_number + fm_len;
                let names = ids[r].names();
                proof {
                    assert(pl[final_line as int] == per_line@[final_line as int]@);
                    assert(problem_kept(*err, r as int, n_lines, fm_len as int, pl));
                }
                let le = LintError {
                    line_number: final_line,
                    rule_names: names,
                    rule_description: ids[r].description(),
                    rule_information: rule_information(ids[r]),
                    error_detail: flatten_breaks(&err.detail),
                    error_context: flatten_breaks(&err.context),
                    error_range: err.range,
                    fix_info: offset_fix(&err.fix_info, fm_len),
                    severity: rc.severity,
                };
                proof {
                    assert(lint_error_v(le) == rule_problem(*err, r as int, fm_len, *cfg));
                }
                results.push(le);
                proof {
                    let e_new = results@.last();
                    assert(e_new.rule_names@.map_values(|x: &'static str| x@) == spec_rule_names(spec_all_rules()[r as int]));
                    assert(e_new.severity == cfg.rules@[r as int].severity);
                    assert(pl[e_new.line_number as int][r as int]);
                    assert(reported_where_enabled(results@.last(), *cfg, content@));
                    assert forall|k: int| 0 <= k < results@.len() implies reported_where_enabled(
                        #[trigger] results@[k],
                        *cfg,
                        content@,
                    ) by {
                        if k < before.len() {
                            assert(results@[k] == before[k]);
                        }
                    }
                    assert(lint_errors_v(results@) =~= bv.push(lint_error_v(le)));
                }
            } else {
                proof {
                    if err.line_number >= 1 && err.line_number <= lines.len() && err.line_number + fm_len < per_line.len() {
                        assert(pl[err.line_number + fm_len] == per_line@[err.line_number + fm_len]@);
                    }
                    assert(!problem_kept(*err, r as int, n_lines, fm_len as int, pl));
                }
            }
            e += 1;
        }
        proof {
            assert(emit.errors@.len() == outs[r as int].len());
        }
        r += 1;
    }
    proof {
        assert(lint_outcome(content@, *cfg, tree, lines, fm, outs, lint_errors_v(results@)));
    }
    results
}

} // verus!
