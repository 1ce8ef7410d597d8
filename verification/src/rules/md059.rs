//! MD059 — descriptive-link-text.

use vstd::prelude::*;

use super::RuleError;

use crate::config::names_view;
use crate::md::kind::Kind;
use crate::md::tokens::{Token, filter_idx_upto, filter_kinds, walk_path};
use crate::text::{lowercase, str_to_lowercase};
use super::helpers::{replace_all_space, spec_ellipsify, spec_replace_space, spec_trim, trim};
use super::md024::contains_text;
use super::md033::lemma_contains_views;
use super::md045::one_line_range;
use super::options::{OptValue, lookup, strings_of};
use super::{
    Emit, Params, Report, appended, lemma_appended_refl, lemma_reports_concat, lemma_reports_push,
    lemma_reports_start, params_ok, reports_are,
};

verus! {

/// Link text reduced to words: runs of non-word characters become one
/// space, then lower case, trimmed.
pub open spec fn spec_normalize_words(s: Seq<char>) -> Seq<char> {
    spec_trim(str_to_lowercase(spec_replace_space("\\s+"@, spec_replace_space("[\\W_]+"@, s))))
}

/// Each text reduced to words.
pub open spec fn normalize_all(v: Seq<Seq<char>>) -> Seq<Seq<char>> {
    v.map_values(|s: Seq<char>| spec_normalize_words(s))
}

/// The prohibited link texts, reduced to words: `prohibited_texts` when it
/// is an array, else "click here", "here", "link" and "more".
pub open spec fn md059_prohibited(cfg: Seq<(Vec<char>, OptValue)>) -> Seq<Seq<char>> {
    match lookup(cfg, "prohibited_texts"@) {
        Some(OptValue::List(items)) => normalize_all(strings_of(items@)),
        _ => seq![
            spec_normalize_words("click here"@),
            spec_normalize_words("here"@),
            spec_normalize_words("link"@),
            spec_normalize_words("more"@),
        ],
    }
}

/// The links.
pub open spec fn link_ids(tokens: Seq<Token>) -> Seq<usize> {
    filter_idx_upto(tokens, seq![Kind::Link], tokens.len() as int)
}

/// The label texts of the `c`-th link.
pub open spec fn link_label_texts(tokens: Seq<Token>, c: int) -> Seq<usize> {
    walk_path(tokens, seq![link_ids(tokens)[c]], seq![seq![Kind::Label], seq![Kind::LabelText]], 2)
}

/// Whether a label text is reported: it has no code or HTML inside and
/// its words are prohibited.
pub open spec fn md059_bad(tokens: Seq<Token>, proh: Seq<Seq<char>>, lt: int) -> bool {
    let t = tokens[lt];
    &&& filter_kinds(tokens, t.children@, seq![Kind::CodeText, Kind::HtmlText], t.children@.len() as int).len() == 0
    &&& proh.contains(spec_normalize_words(t.text@))
}

/// The problem for a label text: the link's text as context, the label
/// text's range when on one line.
pub open spec fn md059_report(tokens: Seq<Token>, lt: int) -> Report {
    let t = tokens[lt];
    let ctx = match t.parent {
        Some(q) => tokens[q as int].text@,
        None => Seq::empty(),
    };
    Report {
        line: t.start_line,
        detail: None,
        context: Some(spec_ellipsify(ctx, false, false)),
        range: one_line_range(t),
        fix: None,
    }
}

/// The problems for the first `k` label texts `lts`.
pub open spec fn md059_texts(tokens: Seq<Token>, proh: Seq<Seq<char>>, n: int, lts: Seq<usize>, k: int) -> Seq<
    Report,
>
    decreases k,
{
    if k <= 0 {
        Seq::empty()
    } else {
        let prev = md059_texts(tokens, proh, n, lts, k - 1);
        let lt = lts[k - 1] as int;
        if md059_bad(tokens, proh, lt) && 1 <= tokens[lt].start_line <= n {
            prev.push(md059_report(tokens, lt))
        } else {
            prev
        }
    }
}

/// The problems for the first `c` links.
pub open spec fn md059_upto(tokens: Seq<Token>, proh: Seq<Seq<char>>, n: int, c: int) -> Seq<Report>
    decreases c,
{
    if c <= 0 {
        Seq::empty()
    } else {
        let lts = link_label_texts(tokens, c - 1);
        md059_upto(tokens, proh, n, c - 1) + md059_texts(tokens, proh, n, lts, lts.len() as int)
    }
}

/// Link text reduced to words.
fn normalize(s: &[char]) -> (r: Vec<char>)
    ensures
        r@ == spec_normalize_words(s@),
{
    let step1 = replace_all_space("[\\W_]+", s);
    let step2 = replace_all_space("\\s+", &step1);
    trim(&lowercase(&step2))
}

/// What `md059` reports: the problems it appends to `old_errors`.
pub open spec fn md059_reported(p: &Params, old_errors: Seq<RuleError>, new_errors: Seq<RuleError>) -> bool {
    ({
        let proh = md059_prohibited(p.config.entries@);
        let toks = p.tree.tokens@;
        if proh.len() == 0 {
            new_errors == old_errors
        } else {
            reports_are(
                old_errors,
                new_errors,
                md059_upto(toks, proh, p.lines@.len() as int, link_ids(toks).len() as int),
            )
        }
    })
}

/// Report links whose text is one of the `prohibited_texts` (by default
/// "click here", "here", "link", "more").
pub fn md059(p: &Params, emit: &mut Emit)
    requires
        params_ok(p),
    ensures
        appended(old(emit).errors@, final(emit).errors@, p.lines@.len() as int),
        md059_reported(p, old(emit).errors@, final(emit).errors@),
{
    let tree = p.tree;
    let n = p.lines.len();
    let ghost toks = tree.tokens@;
    let ghost cfg = p.config.entries@;
    let ghost e0 = emit.errors@;
    proof {
        lemma_appended_refl(e0, n as int);
        lemma_reports_start(e0);
    }
    let mut prohibited: Vec<Vec<char>> = Vec::new();
    match p.config.opt_strings("prohibited_texts") {
        Some(items) => {
            let ghost want = md059_prohibited(cfg);
            let ghost iv = names_view(items@);
            proof {
                assert(iv =~= items@.map_values(|v: Vec<char>| v@));
            }
            let mut i: usize = 0;
            while i < items.len()
                invariant
                    i <= items@.len(),
                    iv == names_view(items@),
                    want == normalize_all(iv),
                    names_view(prohibited@) == want.take(i as int),
                decreases items@.len() - i,
            {
                let w = normalize(&items[i]);
                let ghost before = prohibited@;
                prohibited.push(w);
                proof {
                    assert(want.len() == iv.len());
                    assert(iv.len() == items@.len());
                    assert(names_view(before).len() == before.len());
                    assert(iv[i as int] == items@[i as int]@);
                    let ov = names_view(prohibited@);
                    assert forall|q: int| 0 <= q < i + 1 implies #[trigger] ov[q] == want.take(i + 1)[q] by {
                        if q < i {
                            assert(prohibited@[q] == before[q]);
                            assert(names_view(before)[q] == want.take(i as int)[q]);
                        }
                    }
                    assert(names_view(prohibited@) =~= want.take(i + 1));
                }
                i += 1;
            }
            proof {
                assert(want.take(i as int) =~= want);
            }
        },
        None => {
            prohibited.push(normalize(&super::lit("click here")));
            prohibited.push(normalize(&super::lit("here")));
            prohibited.push(normalize(&super::lit("link")));
            prohibited.push(normalize(&super::lit("more")));
            proof {
                assert(names_view(prohibited@) =~= md059_prohibited(cfg));
            }
        },
    }
    let ghost proh = names_view(prohibited@);
    if prohibited.len() == 0 {
        return;
    }
    let kinds: [Kind; 1] = [Kind::Link];
    let lkinds: [Kind; 1] = [Kind::Label];
    let ltkinds: [Kind; 1] = [Kind::LabelText];
    let ckinds: [Kind; 2] = [Kind::CodeText, Kind::HtmlText];
    let path: [&[Kind]; 2] = [&lkinds, &ltkinds];
    proof {
        assert(kinds@ =~= seq![Kind::Link]);
        assert(lkinds@ =~= seq![Kind::Label]);
        assert(ltkinds@ =~= seq![Kind::LabelText]);
        assert(ckinds@ =~= seq![Kind::CodeText, Kind::HtmlText]);
        assert(crate::md::tokens::kind_path(path@) =~= seq![seq![Kind::Label], seq![Kind::LabelText]]);
    }
    let links = tree.filter_idx(&kinds);
    let mut c: usize = 0;
    while c < links.len()
        invariant
            c <= links@.len(),
            params_ok(p),
            tree == p.tree,
            toks == tree.tokens@,
            n == p.lines@.len(),
            links@ == link_ids(toks),
            proh == names_view(prohibited@),
            proh == md059_prohibited(cfg),
            cfg == p.config.entries@,
            path@.len() == 2,
            crate::md::tokens::kind_path(path@) == seq![seq![Kind::Label], seq![Kind::LabelText]],
            ckinds@ == seq![Kind::CodeText, Kind::HtmlText],
            forall|k: int| 0 <= k < links@.len() ==> #[trigger] links@[k] < tree.tokens@.len(),
            appended(e0, emit.errors@, n as int),
            reports_are(e0, emit.errors@, md059_upto(toks, proh, n as int, c as int)),
        decreases links@.len() - c,
    {
        let link = links[c];
        let ghost mid = emit.errors@;
        proof {
            lemma_reports_start(mid);
        }
        let lts = tree.descendants_by_type(link, &path);
        proof {
            assert(lts@ == link_label_texts(toks, c as int));
        }
        let mut k: usize = 0;
        while k < lts.len()
            invariant
                k <= lts@.len(),
                params_ok(p),
                tree == p.tree,
                toks == tree.tokens@,
                n == p.lines@.len(),
                proh == names_view(prohibited@),
                ckinds@ == seq![Kind::CodeText, Kind::HtmlText],
                forall|q: int| 0 <= q < lts@.len() ==> #[trigger] lts@[q] < tree.tokens@.len(),
                appended(e0, emit.errors@, n as int),
                reports_are(mid, emit.errors@, md059_texts(toks, proh, n as int, lts@, k as int)),
            decreases lts@.len() - k,
        {
            let lt = lts[k];
            let ghost m2 = emit.errors@;
            let t = tree.get(lt);
            let allowed_child = tree.children_of(lt, &ckinds).len() > 0;
            let words = normalize(&t.text);
            let found = contains_text(&prohibited, &words);
            proof {
                lemma_contains_views(prohibited@, words@);
            }
            if !allowed_child && found {
                proof {
                    tree.lemma_node(lt as int);
                }
                let parent_text = match t.parent {
                    Some(q) => crate::text::slice_vec(&tree.get(q).text, 0, tree.get(q).text.len()),
                    None => Vec::new(),
                };
                proof {
                    match t.parent {
                        Some(q) => assert(parent_text@ =~= toks[q as int].text@),
                        None => assert(parent_text@ =~= Seq::<char>::empty()),
                    }
                }
                let range = if t.start_line == t.end_line && t.end_column >= t.start_column {
                    Some((t.start_column, t.end_column - t.start_column))
                } else {
                    None
                };
                emit.add_context_checked(n, t.start_line, &parent_text, false, false, range, None);
                proof {
                    if 1 <= t.start_line <= n {
                        lemma_reports_push(mid, m2, md059_texts(toks, proh, n as int, lts@, k as int), emit.errors@.last());
                        assert(super::report_of(emit.errors@.last()) == md059_report(toks, lt as int));
                    }
                }
            }
            k += 1;
        }
        proof {
            lemma_reports_concat(e0, mid, emit.errors@, md059_upto(toks, proh, n as int, c as int), md059_texts(toks, proh, n as int, lts@, lts@.len() as int));
        }
        c += 1;
    }
}

} // verus!
