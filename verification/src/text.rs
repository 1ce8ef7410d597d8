//! Character classes and small text scanners shared by the parser, the
//! rules and the linter. Text is handled as sequences of `char`, which is
//! how every column in the token tree is counted.

use vstd::prelude::*;

verus! {

/// Space or horizontal tab.
pub open spec fn is_sp_tab(c: char) -> bool {
    c == ' ' || c == '\t'
}

/// The Unicode `White_Space` property, as `char::is_whitespace` documents it.
pub open spec fn spec_is_whitespace(c: char) -> bool {
    ||| ('\u{9}' <= c && c <= '\u{d}')
    ||| c == ' '
    ||| c == '\u{85}'
    ||| c == '\u{a0}'
    ||| c == '\u{1680}'
    ||| ('\u{2000}' <= c && c <= '\u{200a}')
    ||| c == '\u{2028}'
    ||| c == '\u{2029}'
    ||| c == '\u{202f}'
    ||| c == '\u{205f}'
    ||| c == '\u{3000}'
}

pub open spec fn spec_is_ascii_digit(c: char) -> bool {
    '0' <= c && c <= '9'
}

pub open spec fn spec_is_ascii_alpha(c: char) -> bool {
    ('a' <= c && c <= 'z') || ('A' <= c && c <= 'Z')
}

pub open spec fn spec_is_ascii_alnum(c: char) -> bool {
    spec_is_ascii_digit(c) || spec_is_ascii_alpha(c)
}

/// ASCII punctuation: `!`..`/`, `:`..`@`, `[`..`` ` ``, `{`..`~`.
pub open spec fn spec_is_ascii_punct(c: char) -> bool {
    ||| ('!' <= c && c <= '/')
    ||| (':' <= c && c <= '@')
    ||| ('[' <= c && c <= '`')
    ||| ('{' <= c && c <= '~')
}

/// Whitespace test with the meaning of `char::is_whitespace`.
pub fn is_whitespace(c: char) -> (r: bool)
    ensures
        r == spec_is_whitespace(c),
{
    ('\u{9}' <= c && c <= '\u{d}') || c == ' ' || c == '\u{85}' || c == '\u{a0}' || c
        == '\u{1680}' || ('\u{2000}' <= c && c <= '\u{200a}') || c == '\u{2028}' || c
        == '\u{2029}' || c == '\u{202f}' || c == '\u{205f}' || c == '\u{3000}'
}

pub fn is_ascii_digit(c: char) -> (r: bool)
    ensures
        r == spec_is_ascii_digit(c),
{
    '0' <= c && c <= '9'
}

pub fn is_ascii_alpha(c: char) -> (r: bool)
    ensures
        r == spec_is_ascii_alpha(c),
{
    ('a' <= c && c <= 'z') || ('A' <= c && c <= 'Z')
}

pub fn is_ascii_alnum(c: char) -> (r: bool)
    ensures
        r == spec_is_ascii_alnum(c),
{
    is_ascii_digit(c) || is_ascii_alpha(c)
}

pub fn is_ascii_punct(c: char) -> (r: bool)
    ensures
        r == spec_is_ascii_punct(c),
{
    ('!' <= c && c <= '/') || (':' <= c && c <= '@') || ('[' <= c && c <= '`') || ('{' <= c
        && c <= '~')
}

/// Index of the first character at or after `i` that is not a space or tab
/// (the length when there is none).
pub open spec fn skip_sp_tab(s: Seq<char>, i: int) -> int
    decreases s.len() - i,
{
    if 0 <= i < s.len() && is_sp_tab(s[i]) {
        skip_sp_tab(s, i + 1)
    } else {
        i
    }
}

/// Index of the first character at or after `i` that differs from `c`.
pub open spec fn skip_char(s: Seq<char>, i: int, c: char) -> int
    decreases s.len() - i,
{
    if 0 <= i < s.len() && s[i] == c {
        skip_char(s, i + 1, c)
    } else {
        i
    }
}

/// Number of leading spaces and tabs.
pub open spec fn spec_leading(s: Seq<char>) -> int {
    skip_sp_tab(s, 0)
}

pub proof fn lemma_skip_sp_tab(s: Seq<char>, i: int)
    requires
        0 <= i <= s.len(),
    ensures
        i <= skip_sp_tab(s, i) <= s.len(),
        forall|k: int| i <= k < skip_sp_tab(s, i) ==> is_sp_tab(#[trigger] s[k]),
        skip_sp_tab(s, i) < s.len() ==> !is_sp_tab(s[skip_sp_tab(s, i)]),
    decreases s.len() - i,
{
    if i < s.len() && is_sp_tab(s[i]) {
        lemma_skip_sp_tab(s, i + 1);
    }
}

pub proof fn lemma_skip_char(s: Seq<char>, i: int, c: char)
    requires
        0 <= i <= s.len(),
    ensures
        i <= skip_char(s, i, c) <= s.len(),
        forall|k: int| i <= k < skip_char(s, i, c) ==> #[trigger] s[k] == c,
        skip_char(s, i, c) < s.len() ==> s[skip_char(s, i, c)] != c,
    decreases s.len() - i,
{
    if i < s.len() && s[i] == c {
        lemma_skip_char(s, i + 1, c);
    }
}

/// Count of leading spaces and tabs (each counts one column).
pub fn leading_spaces(chars: &[char]) -> (n: usize)
    ensures
        n == spec_leading(chars@),
        n <= chars@.len(),
{
    let mut i: usize = 0;
    while i < chars.len() && (chars[i] == ' ' || chars[i] == '\t')
        invariant
            i <= chars@.len(),
            skip_sp_tab(chars@, i as int) == skip_sp_tab(chars@, 0),
        decreases chars@.len() - i,
    {
        i += 1;
    }
    i
}

/// Advance from `i` over spaces and tabs.
pub fn skip_ws_from(chars: &[char], i: usize) -> (n: usize)
    requires
        i <= chars@.len(),
    ensures
        n == skip_sp_tab(chars@, i as int),
        i <= n <= chars@.len(),
{
    let mut j: usize = i;
    while j < chars.len() && (chars[j] == ' ' || chars[j] == '\t')
        invariant
            i <= j <= chars@.len(),
            skip_sp_tab(chars@, j as int) == skip_sp_tab(chars@, i as int),
        decreases chars@.len() - j,
    {
        j += 1;
    }
    j
}

/// Advance from `i` over a run of `c`.
pub fn skip_run(chars: &[char], i: usize, c: char) -> (n: usize)
    requires
        i <= chars@.len(),
    ensures
        n == skip_char(chars@, i as int, c),
        i <= n <= chars@.len(),
{
    let mut j: usize = i;
    while j < chars.len() && chars[j] == c
        invariant
            i <= j <= chars@.len(),
            skip_char(chars@, j as int, c) == skip_char(chars@, i as int, c),
        decreases chars@.len() - j,
    {
        j += 1;
    }
    j
}

/// Visual width of the first `k` characters of an all-space/tab prefix,
/// with tab stops every four columns.
pub open spec fn indent_width(s: Seq<char>, k: int) -> int
    decreases k,
{
    if k <= 0 {
        0
    } else {
        let w = indent_width(s, k - 1);
        if s[k - 1] == '\t' {
            w + 4 - (w % 4)
        } else {
            w + 1
        }
    }
}

pub proof fn lemma_indent_width_bound(s: Seq<char>, k: int)
    requires
        0 <= k,
    ensures
        0 <= indent_width(s, k) <= 4 * k,
    decreases k,
{
    if k > 0 {
        lemma_indent_width_bound(s, k - 1);
    }
}

/// Leading indentation width, tabs advancing to the next multiple of four.
pub open spec fn spec_count_indent(s: Seq<char>) -> int {
    indent_width(s, spec_leading(s))
}

/// Leading indentation in columns (tabs advance to the next tab stop).
pub fn count_indent(chars: &[char]) -> (n: usize)
    requires
        chars@.len() < usize::MAX / 8,
    ensures
        n == spec_count_indent(chars@),
{
    let lead = leading_spaces(chars);
    proof {
        lemma_skip_sp_tab(chars@, 0);
    }
    let mut n: usize = 0;
    let mut k: usize = 0;
    while k < lead
        invariant
            k <= lead,
            lead == spec_leading(chars@),
            lead <= chars@.len(),
            chars@.len() < usize::MAX / 8,
            n == indent_width(chars@, k as int),
        decreases lead - k,
    {
        proof {
            lemma_indent_width_bound(chars@, k as int);
        }
        if chars[k] == '\t' {
            n = n + 4 - (n % 4);
        } else {
            n = n + 1;
        }
        k += 1;
    }
    n
}

/// Whether every character is a space or a tab.
pub open spec fn spec_is_blank(s: Seq<char>) -> bool {
    forall|k: int| 0 <= k < s.len() ==> is_sp_tab(#[trigger] s[k])
}

/// True when the line holds only spaces and tabs.
pub fn is_blank(chars: &[char]) -> (r: bool)
    ensures
        r == spec_is_blank(chars@),
{
    let n = leading_spaces(chars);
    proof {
        lemma_skip_sp_tab(chars@, 0);
    }
    n == chars.len()
}

/// Whether `s` contains the character `c`.
pub fn contains_char(s: &[char], c: char) -> (r: bool)
    ensures
        r == s@.contains(c),
{
    let mut i: usize = 0;
    while i < s.len()
        invariant
            i <= s@.len(),
            forall|k: int| 0 <= k < i ==> s@[k] != c,
        decreases s@.len() - i,
    {
        if s[i] == c {
            return true;
        }
        i += 1;
    }
    false
}

/// Copy of `s[from..to]`.
pub fn slice_vec(s: &[char], from: usize, to: usize) -> (r: Vec<char>)
    requires
        from <= to <= s@.len(),
    ensures
        r@ == s@.subrange(from as int, to as int),
{
    let mut r: Vec<char> = Vec::new();
    let mut i: usize = from;
    while i < to
        invariant
            from <= i <= to <= s@.len(),
            r@ == s@.subrange(from as int, i as int),
        decreases to - i,
    {
        r.push(s[i]);
        i += 1;
    }
    r
}

/// Whether `c` has the Unicode `Alphabetic` or `Numeric` property, as
/// `char::is_alphanumeric` reports it.
pub uninterp spec fn char_is_alphanumeric(c: char) -> bool;

/// The lowercase mapping of `c`, as `char::to_lowercase` yields it.
pub uninterp spec fn char_to_lowercase(c: char) -> Seq<char>;

/// The lowercase form of a string, as `str::to_lowercase` returns it.
pub uninterp spec fn str_to_lowercase(s: Seq<char>) -> Seq<char>;

/// The uppercase form of a string, as `str::to_uppercase` returns it.
pub uninterp spec fn str_to_uppercase(s: Seq<char>) -> Seq<char>;

/// `str::to_uppercase` on the string made of `s`.
#[verifier::external_body]
pub fn uppercase(s: &[char]) -> (r: Vec<char>)
    ensures
        r@ == str_to_uppercase(s@),
{
    s.iter().collect::<String>().to_uppercase().chars().collect()
}

/// ASCII letters in upper case, other characters unchanged.
pub open spec fn ascii_upper(c: char) -> char {
    if 'a' <= c && c <= 'z' {
        (((c as u32) - 32) as u8) as char
    } else {
        c
    }
}

/// `s` with ASCII letters in upper case.
pub fn ascii_uppercase(s: &[char]) -> (r: Vec<char>)
    ensures
        r@.len() == s@.len(),
        forall|k: int| 0 <= k < s@.len() ==> #[trigger] r@[k] == ascii_upper(s@[k]),
{
    let mut r: Vec<char> = Vec::new();
    let mut i: usize = 0;
    while i < s.len()
        invariant
            i <= s@.len(),
            r@.len() == i,
            forall|k: int| 0 <= k < i ==> #[trigger] r@[k] == ascii_upper(s@[k]),
        decreases s@.len() - i,
    {
        let c = s[i];
        let u = if 'a' <= c && c <= 'z' {
            (((c as u32) - 32) as u8) as char
        } else {
            c
        };
        r.push(u);
        i += 1;
    }
    r
}

/// `char::is_alphanumeric`.
#[verifier::external_body]
pub fn is_alphanumeric(c: char) -> (r: bool)
    ensures
        r == char_is_alphanumeric(c),
{
    c.is_alphanumeric()
}

/// `char::to_lowercase`, collected.
#[verifier::external_body]
pub fn lowercase_char(c: char) -> (r: Vec<char>)
    ensures
        r@ == char_to_lowercase(c),
{
    c.to_lowercase().collect()
}

/// `str::to_lowercase` on the string made of `s`.
#[verifier::external_body]
pub fn lowercase(s: &[char]) -> (r: Vec<char>)
    ensures
        r@ == str_to_lowercase(s@),
{
    s.iter().collect::<String>().to_lowercase().chars().collect()
}

/// The string made of the characters `v`.
#[verifier::external_body]
pub fn string_of(v: &[char]) -> (s: String)
    ensures
        s@ == v@,
{
    v.iter().collect()
}

/// The characters of a string slice.
pub fn chars_of(s: &str) -> (r: Vec<char>)
    ensures
        r@ == s@,
{
    let mut r: Vec<char> = Vec::new();
    for c in it: s.chars()
        invariant
            r@ == it.seq().take(it.index() as int),
            it.seq() == s@,
    {
        r.push(c);
    }
    r
}

} // verus!
