//! MD045 — no-alt-text.

use vstd::prelude::*;

use crate::md::kind::Kind;
use crate::md::tokens::{Token, filter_idx_upto, html_tag_info, spec_html_tag_info, walk_path};
use crate::re::{re_captures, re_find, regex_captures, regex_find};
use crate::text::{lowercase, str_to_lowercase};
use super::helpers::{first_break, first_line_len};
use super::md003::is_text;
use super::md033::html_text_ids;
use super::{
    Emit, Params, RuleError, appended, error_is, lemma_appended_refl, lemma_reported_start,
    lemma_reported_step, params_ok, picked, reported_as,
};

verus! {

/// The images.
pub open spec fn image_ids(tokens: Seq<Token>) -> Seq<usize> {
    filter_idx_upto(tokens, seq![Kind::Image], tokens.len() as int)
}

/// The label texts of the `c`-th image.
pub open spec fn image_label_texts(tokens: Seq<Token>, c: int) -> Seq<usize> {
    walk_path(tokens, seq![image_ids(tokens)[c]], seq![seq![Kind::Label], seq![Kind::LabelText]], 2)
}

/// Whether the `c`-th image is reported: one of its label texts is
/// empty.
pub open spec fn md045_image_reports(tokens: Seq<Token>, n: int, c: int) -> bool {
    let lts = image_label_texts(tokens, c);
    &&& exists|q: int| 0 <= q < lts.len() && (#[trigger] tokens[lts[q] as int]).text@.len() == 0
    &&& 1 <= tokens[image_ids(tokens)[c] as int].start_line <= n
}

/// The range of a one-line token: its start column and length.
pub open spec fn one_line_range(t: Token) -> Option<(usize, usize)> {
    if t.start_line == t.end_line && t.end_column >= t.start_column {
        Some((t.start_column, (t.end_column - t.start_column) as usize))
    } else {
        None
    }
}

/// The problem reported for the `c`-th image.
pub open spec fn md045_image_error(e: RuleError, tokens: Seq<Token>, c: int) -> bool {
    let t = tokens[image_ids(tokens)[c] as int];
    error_is(e, t.start_line, None, None, one_line_range(t), None)
}

/// The pattern of an `alt` attribute.
pub open spec fn alt_pattern() -> Seq<char> {
    "(?i)\\salt\\s*=\\s*['\"]?([^'\"\\s>]*)"@
}

/// The pattern of an `aria-hidden` attribute.
pub open spec fn aria_pattern() -> Seq<char> {
    "(?i)\\saria-hidden\\s*=\\s*['\"]?([^'\"\\s>]*)"@
}

/// Whether a tag is hidden: its `aria-hidden` value is `true` in any case.
pub open spec fn aria_hidden(text: Seq<char>) -> bool {
    match regex_captures(aria_pattern(), text) {
        Some(g) => g.len() >= 2 && match g[1] {
            Some((a, b)) => str_to_lowercase(text.subrange(a, b)) == "true"@,
            None => false,
        },
        None => false,
    }
}

/// Whether the `c`-th inline HTML token is reported: an `<img>` opening
/// tag with neither `alt` nor a true `aria-hidden`.
pub open spec fn md045_html_reports(tokens: Seq<Token>, n: int, c: int) -> bool {
    let t = tokens[html_text_ids(tokens)[c] as int];
    match spec_html_tag_info(t.text@) {
        Some((close, name)) => {
            &&& !close
            &&& str_to_lowercase(name) == "img"@
            &&& regex_find(alt_pattern(), t.text@) is None
            &&& !aria_hidden(t.text@)
            &&& 1 <= t.start_line <= n
        },
        None => false,
    }
}

/// The problem reported for the `c`-th inline HTML token: over its first
/// line.
pub open spec fn md045_html_error(e: RuleError, tokens: Seq<Token>, c: int) -> bool {
    let t = tokens[html_text_ids(tokens)[c] as int];
    error_is(e, t.start_line, None, None, Some((t.start_column, first_break(t.text@, 0) as usize)), None)
}

pub open spec fn md045_f1(tokens: Seq<Token>, n: int) -> spec_fn(int) -> bool {
    |c: int| md045_image_reports(tokens, n, c)
}

pub open spec fn md045_e1(tokens: Seq<Token>) -> spec_fn(RuleError, int) -> bool {
    |e: RuleError, c: int| md045_image_error(e, tokens, c)
}

pub open spec fn md045_f2(tokens: Seq<Token>, n: int) -> spec_fn(int) -> bool {
    |c: int| md045_html_reports(tokens, n, c)
}

pub open spec fn md045_e2(tokens: Seq<Token>) -> spec_fn(RuleError, int) -> bool {
    |e: RuleError, c: int| md045_html_error(e, tokens, c)
}

/// What `md045` reports: the problems it appends to `old_errors`.
pub open spec fn md045_reported(p: &Params, old_errors: Seq<RuleError>, new_errors: Seq<RuleError>) -> bool {
    ({
        let toks = p.tree.tokens@;
        let n = p.lines@.len() as int;
        let images = picked(md045_f1(toks, n), image_ids(toks).len() as int);
        let mid = new_errors.take((old_errors.len() + images.len()) as int);
        &&& reported_as(old_errors, mid, images, md045_e1(toks))
        &&& reported_as(
            mid,
            new_errors,
            picked(md045_f2(toks, n), html_text_ids(toks).len() as int),
            md045_e2(toks),
        )
    })
}

/// Report images without alternate text: Markdown images with an empty
/// label, and HTML `<img>` tags with neither `alt` nor
/// `aria-hidden="true"`. The images come first, then the tags.
pub fn md045(p: &Params, emit: &mut Emit)
    requires
        params_ok(p),
    ensures
        appended(old(emit).errors@, final(emit).errors@, p.lines@.len() as int),
        md045_reported(p, old(emit).errors@, final(emit).errors@),
{
    let tree = p.tree;
    let n = p.lines.len();
    let ikinds: [Kind; 1] = [Kind::Image];
    let lkinds: [Kind; 1] = [Kind::Label];
    let ltkinds: [Kind; 1] = [Kind::LabelText];
    let hkinds: [Kind; 1] = [Kind::HtmlText];
    let path: [&[Kind]; 2] = [&lkinds, &ltkinds];
    proof {
        assert(ikinds@ =~= seq![Kind::Image]);
        assert(hkinds@ =~= seq![Kind::HtmlText]);
        assert(lkinds@ =~= seq![Kind::Label]);
        assert(ltkinds@ =~= seq![Kind::LabelText]);
        assert(crate::md::tokens::kind_path(path@) =~= seq![seq![Kind::Label], seq![Kind::LabelText]]);
    }
    let images = tree.filter_idx(&ikinds);
    let ghost toks = tree.tokens@;
    let ghost f1 = md045_f1(toks, n as int);
    let ghost err1 = md045_e1(toks);
    let ghost e0 = emit.errors@;
    proof {
        lemma_appended_refl(e0, n as int);
        lemma_reported_start(e0, f1, err1);
    }
    let mut c: usize = 0;
    while c < images.len()
        invariant
            c <= images@.len(),
            params_ok(p),
            tree == p.tree,
            toks == tree.tokens@,
            n == p.lines@.len(),
            images@ == image_ids(toks),
            path@.len() == 2,
            crate::md::tokens::kind_path(path@) == seq![seq![Kind::Label], seq![Kind::LabelText]],
            f1 == md045_f1(toks, n as int),
            err1 == md045_e1(toks),
            forall|k: int| 0 <= k < images@.len() ==> #[trigger] images@[k] < tree.tokens@.len(),
            appended(e0, emit.errors@, n as int),
            reported_as(e0, emit.errors@, picked(f1, c as int), err1),
        decreases images@.len() - c,
    {
        let image = images[c];
        let ghost mid = emit.errors@;
        let lts = tree.descendants_by_type(image, &path);
        let mut has_empty = false;
        let mut k: usize = 0;
        while k < lts.len()
            invariant
                k <= lts@.len(),
                forall|q: int| 0 <= q < lts@.len() ==> #[trigger] lts@[q] < tree.tokens@.len(),
                has_empty == exists|q: int| 0 <= q < k && (#[trigger] tree.tokens@[lts@[q] as int]).text@.len() == 0,
            decreases lts@.len() - k,
        {
            if tree.get(lts[k]).text.len() == 0 {
                has_empty = true;
            }
            k += 1;
        }
        if has_empty {
            let t = tree.get(image);
            let range = if t.start_line == t.end_line && t.end_column >= t.start_column {
                Some((t.start_column, t.end_column - t.start_column))
            } else {
                None
            };
            emit.add_checked(n, t.start_line, None, None, range, None);
        }
        proof {
            assert(lts@ == image_label_texts(toks, c as int));
            assert(f1(c as int) == md045_image_reports(toks, n as int, c as int));
            if f1(c as int) {
                assert(err1(emit.errors@.last(), c as int) == md045_image_error(emit.errors@.last(), toks, c as int));
            }
            lemma_reported_step(e0, mid, emit.errors@, f1, err1, c as int);
        }
        c += 1;
    }
    let ghost e1 = emit.errors@;
    let ghost f2 = md045_f2(toks, n as int);
    let ghost err2 = md045_e2(toks);
    proof {
        lemma_reported_start(e1, f2, err2);
    }
    let hts = tree.filter_idx_html(&hkinds);
    let mut c: usize = 0;
    while c < hts.len()
        invariant
            c <= hts@.len(),
            params_ok(p),
            tree == p.tree,
            toks == tree.tokens@,
            n == p.lines@.len(),
            hts@ == html_text_ids(toks),
            f2 == md045_f2(toks, n as int),
            err2 == md045_e2(toks),
            forall|k: int| 0 <= k < hts@.len() ==> #[trigger] hts@[k] < tree.tokens@.len(),
            appended(e0, emit.errors@, n as int),
            reported_as(e1, emit.errors@, picked(f2, c as int), err2),
        decreases hts@.len() - c,
    {
        let tok = tree.get(hts[c]);
        let ghost mid = emit.errors@;
        match html_tag_info(&tok.text) {
            Some(info) => {
                if !info.close && is_text(&lowercase(&info.name), "img") {
                    let has_alt = re_find("(?i)\\salt\\s*=\\s*['\"]?([^'\"\\s>]*)", &tok.text).is_some();
                    let aria = match re_captures("(?i)\\saria-hidden\\s*=\\s*['\"]?([^'\"\\s>]*)", &tok.text) {
                        Some(g) => {
                            if g.len() >= 2 {
                                proof {
                                    assert(crate::re::groups_in(g@, tok.text@.len() as int));
                                    assert(g@[1] == g[1]);
                                    assert(crate::re::groups_view(g@)[1] == crate::re::span_view(g@[1]));
                                }
                                match g[1] {
                                    Some((a, b)) => {
                                        let sub = crate::text::slice_vec(&tok.text, a, b);
                                        is_text(&lowercase(&sub), "true")
                                    },
                                    None => false,
                                }
                            } else {
                                false
                            }
                        },
                        None => false,
                    };
                    proof {
                        assert(aria == aria_hidden(tok.text@));
                    }
                    if !has_alt && !aria {
                        let len = first_line_len(&tok.text);
                        emit.add_checked(n, tok.start_line, None, None, Some((tok.start_column, len)), None);
                    }
                }
            },
            None => {},
        }
        proof {
            assert(f2(c as int) == md045_html_reports(toks, n as int, c as int));
            if f2(c as int) {
                assert(err2(emit.errors@.last(), c as int) == md045_html_error(emit.errors@.last(), toks, c as int));
            }
            lemma_reported_step(e1, mid, emit.errors@, f2, err2, c as int);
        }
        c += 1;
    }
    proof {
        let images_p = picked(f1, image_ids(toks).len() as int);
        assert(emit.errors@.take((e0.len() + images_p.len()) as int) =~= e1) by {
            assert(emit.errors@.take(e1.len() as int) == e1);
        }
    }
}

} // verus!
