//! MD026 — no-trailing-punctuation in headings.

use vstd::prelude::*;

use crate::md::kind::Kind;
use crate::md::tokens::{Token, filter_idx_upto};
use crate::re::{re_find, regex_find};
use super::md003::{opt_text_or, opt_text_or_spec};
use super::md036::{regex_escape, spec_regex_escape};
use super::options::OptValue;
use super::{Emit, FixInfo, Params, RuleError, appended, lemma_appended_refl, opt_seq, params_ok};

verus! {

/// The heading texts, in document order.
pub open spec fn heading_text_ids(tokens: Seq<Token>) -> Seq<usize> {
    filter_idx_upto(tokens, seq![Kind::AtxHeadingText, Kind::SetextHeadingText], tokens.len() as int)
}

/// The pattern of trailing punctuation: the `punctuation` characters,
/// escaped, repeated at the end after optional whitespace.
pub open spec fn punctuation_pattern(cfg: Seq<(Vec<char>, OptValue)>) -> Seq<char> {
    "\\s*["@ + spec_regex_escape(opt_text_or_spec(cfg, "punctuation"@, ".,;:!。，；：！"@)) + "]+$"@
}

/// Whether the `c`-th heading text is reported: it ends with punctuation,
/// not as part of an HTML entity or an emoji shortcode, and its line is a
/// line of the document.
pub open spec fn md026_reports(tokens: Seq<Token>, cfg: Seq<(Vec<char>, OptValue)>, n: int, c: int) -> bool {
    let t = tokens[heading_text_ids(tokens)[c] as int];
    match regex_find(punctuation_pattern(cfg), t.text@) {
        Some((a, b)) => {
            &&& regex_find("&(?:#\\d+|#[xX][\\da-fA-F]+|[a-zA-Z]{2,31}|blk\\d{2}|emsp1[34]|frac\\d{2}|sup\\d|there4);$"@, t.text@) is None
            &&& regex_find("(?x):(?:[abmovx]|[-+]1|100|1234|(?:1st|2nd|3rd)_place_medal|8ball|clock\\d{1,4}|e-mail|non-potable_water|o2|t-rex|u5272|u5408|u55b6|u6307|u6708|u6709|u6e80|u7121|u7533|u7981|u7a7a|[a-z]{2,15}2?|[a-z]{1,14}(?:_[a-z\\d]{1,16})+):$"@, t.text@) is None
            &&& t.end_column >= b - a
            &&& 1 <= t.end_line <= n
        },
        None => false,
    }
}

/// The positions (among the heading texts) of the first `c` reported.
pub open spec fn md026_list(tokens: Seq<Token>, cfg: Seq<(Vec<char>, OptValue)>, n: int, c: int) -> Seq<int>
    decreases c,
{
    if c <= 0 {
        Seq::empty()
    } else {
        let prev = md026_list(tokens, cfg, n, c - 1);
        if md026_reports(tokens, cfg, n, c - 1) {
            prev.push(c - 1)
        } else {
            prev
        }
    }
}

/// The problem reported for the `c`-th heading text: the punctuation, its
/// range at the end of the text, and a fix that deletes it.
pub open spec fn md026_error(e: RuleError, tokens: Seq<Token>, cfg: Seq<(Vec<char>, OptValue)>, c: int) -> bool {
    let t = tokens[heading_text_ids(tokens)[c] as int];
    let (a, b) = regex_find(punctuation_pattern(cfg), t.text@)->0;
    let column = t.end_column - (b - a);
    &&& e.line_number == t.end_line
    &&& opt_seq(e.detail) == Some("Punctuation: '"@ + t.text@.subrange(a, b) + "'"@)
    &&& e.context is None
    &&& e.range == Some((column as usize, (b - a) as usize))
    &&& e.fix_info == Some(FixInfo { line_number: None, edit_column: Some(column as usize), delete_count: Some((b - a) as i64), insert_text: None })
}

/// What `md026` reports: the problems it appends to `old_errors`.
pub open spec fn md026_reported(p: &Params, old_errors: Seq<RuleError>, new_errors: Seq<RuleError>) -> bool {
    ({
        let toks = p.tree.tokens@;
        let reported = md026_list(toks, p.config.entries@, p.lines@.len() as int, heading_text_ids(toks).len() as int);
        let base = old_errors.len();
        &&& new_errors.len() == base + reported.len()
        &&& forall|j: int|
            0 <= j < reported.len() ==> md026_error(
                #[trigger] new_errors[base + j],
                toks,
                p.config.entries@,
                reported[j],
            )
    })
}

/// Report punctuation at the end of a heading's text (HTML entities and
/// emoji shortcodes such as `&copy;` and `:smile:` excepted); the fix
/// deletes it.
pub fn md026(p: &Params, emit: &mut Emit)
    requires
        params_ok(p),
    ensures
        appended(old(emit).errors@, final(emit).errors@, p.lines@.len() as int),
        md026_reported(p, old(emit).errors@, final(emit).errors@),
{
    let punctuation = opt_text_or(p.config, "punctuation", ".,;:!。，；：！");
    let mut pattern = super::lit("\\s*[");
    super::concat(&mut pattern, &regex_escape(&punctuation));
    super::concat(&mut pattern, &super::lit("]+$"));
    let pat = crate::text::string_of(&pattern);
    let tree = p.tree;
    let n = p.lines.len();
    let kinds: [Kind; 2] = [Kind::AtxHeadingText, Kind::SetextHeadingText];
    proof {
        assert(kinds@ =~= seq![Kind::AtxHeadingText, Kind::SetextHeadingText]);
        reveal_strlit("\\s*[");
        reveal_strlit("]+$");
        reveal_strlit("Punctuation: '");
        reveal_strlit("'");
        assert(pat@ == punctuation_pattern(p.config.entries@));
    }
    let hs = tree.filter_idx(&kinds);
    let ghost toks = tree.tokens@;
    let ghost cfg = p.config.entries@;
    let ghost e0 = emit.errors@;
    proof {
        lemma_appended_refl(e0, n as int);
    }
    let mut c: usize = 0;
    while c < hs.len()
        invariant
            c <= hs@.len(),
            params_ok(p),
            tree == p.tree,
            toks == tree.tokens@,
            cfg == p.config.entries@,
            hs@ == heading_text_ids(toks),
            pat@ == punctuation_pattern(cfg),
            n == p.lines@.len(),
            forall|k: int| 0 <= k < hs@.len() ==> #[trigger] hs@[k] < tree.tokens@.len(),
            appended(e0, emit.errors@, n as int),
            emit.errors@.len() == e0.len() + md026_list(toks, cfg, n as int, c as int).len(),
            forall|j: int|
                0 <= j < md026_list(toks, cfg, n as int, c as int).len() ==> md026_error(
                    #[trigger] emit.errors@[e0.len() + j],
                    toks,
                    cfg,
                    md026_list(toks, cfg, n as int, c as int)[j],
                ),
        decreases hs@.len() - c,
    {
        let t = tree.get(hs[c]);
        let ghost prev = md026_list(toks, cfg, n as int, c as int);
        let ghost mid = emit.errors@;
        let text = &t.text;
        match re_find(pat.as_str(), text) {
            Some((a, b)) => {
                let entity = re_find(
                    "&(?:#\\d+|#[xX][\\da-fA-F]+|[a-zA-Z]{2,31}|blk\\d{2}|emsp1[34]|frac\\d{2}|sup\\d|there4);$",
                    text,
                ).is_some();
                let gemoji = re_find(
                    "(?x):(?:[abmovx]|[-+]1|100|1234|(?:1st|2nd|3rd)_place_medal|8ball|clock\\d{1,4}|e-mail|non-potable_water|o2|t-rex|u5272|u5408|u55b6|u6307|u6708|u6709|u6e80|u7121|u7533|u7981|u7a7a|[a-z]{2,15}2?|[a-z]{1,14}(?:_[a-z\\d]{1,16})+):$",
                    text,
                ).is_some();
                if !entity && !gemoji && t.end_column >= b - a {
                    let full = crate::text::slice_vec(text, a, b);
                    let length = b - a;
                    let column = t.end_column - length;
                    let mut detail = super::lit("Punctuation: '");
                    super::concat(&mut detail, &full);
                    super::concat(&mut detail, &super::lit("'"));
                    emit.add_checked(
                        n,
                        t.end_line,
                        Some(detail),
                        None,
                        Some((column, length)),
                        Some(FixInfo::delete(column, length as i64)),
                    );
                }
            },
            None => {},
        }
        proof {
            let cur = md026_list(toks, cfg, n as int, c + 1);
            if md026_reports(toks, cfg, n as int, c as int) {
                assert(cur == prev.push(c as int));
                assert forall|j: int| 0 <= j < cur.len() implies md026_error(
                    #[trigger] emit.errors@[e0.len() + j],
                    toks,
                    cfg,
                    cur[j],
                ) by {
                    if j < prev.len() {
                        assert(emit.errors@[e0.len() + j] == mid[e0.len() + j]);
                    }
                }
            } else {
                assert(cur == prev);
                assert(emit.errors@ == mid);
            }
        }
        c += 1;
    }
}

} // verus!
