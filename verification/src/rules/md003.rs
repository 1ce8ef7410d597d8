//! MD003 — heading-style.

use vstd::prelude::*;

use crate::md::kind::Kind;
use crate::md::tokens::{Token, spec_heading_level, spec_heading_style, spec_style_name};
use super::md001::heading_ids as md001_heading_ids;
use super::{Emit, Params, RuleError, appended, detail_text, error_is, lemma_appended_refl, params_ok, slice_eq};
use super::options::{OptValue, Options};

verus! {

/// The characters of a string option, or of `default` when absent.
pub fn opt_text_or(o: &Options, key: &str, default: &str) -> (r: Vec<char>)
    ensures
        r@ == opt_text_or_spec(o.entries@, key@, default@),
{
    match o.opt_str(key) {
        Some(s) => {
            let r = crate::text::slice_vec(s, 0, s.len());
            proof {
                assert(r@ =~= s@);
            }
            r
        },
        None => super::lit(default),
    }
}

/// A string option's characters, or `default` when absent.
pub open spec fn opt_text_or_spec(
    entries: Seq<(Vec<char>, super::options::OptValue)>,
    key: Seq<char>,
    default: Seq<char>,
) -> Seq<char> {
    match super::options::spec_opt_str(super::options::lookup(entries, key)) {
        Some(s) => s,
        None => default,
    }
}

/// Whether `s` spells the string `t`.
pub fn is_text(s: &[char], t: &str) -> (r: bool)
    ensures
        r == (s@ == t@),
{
    slice_eq(s, &super::lit(t))
}

/// The style name of the `c`-th heading.
pub open spec fn heading_style_name(tokens: Seq<Token>, c: int) -> Seq<char> {
    spec_style_name(spec_heading_style(tokens, md001_heading_ids(tokens)[c] as int))
}

/// The style the `c`-th heading is held against: the configured `style`;
/// while that is `consistent`, each heading's own style becomes it (in
/// practice the first heading's).
pub open spec fn md003_style(tokens: Seq<Token>, cfg: Seq<(Vec<char>, OptValue)>, c: int) -> Seq<char>
    decreases c + 1,
{
    let before = if c <= 0 {
        opt_text_or_spec(cfg, "style"@, "consistent"@)
    } else {
        md003_style(tokens, cfg, c - 1)
    };
    if before == "consistent"@ {
        heading_style_name(tokens, c)
    } else {
        before
    }
}

/// The style expected of the `c`-th heading: for `setext_with_atx` and
/// `setext_with_atx_closed`, setext for levels 1-2 and the ATX form
/// otherwise; else the style itself.
pub open spec fn md003_expected(tokens: Seq<Token>, cfg: Seq<(Vec<char>, OptValue)>, c: int) -> Seq<char> {
    let style = md003_style(tokens, cfg, c);
    let h12 = spec_heading_level(tokens, md001_heading_ids(tokens)[c] as int) <= 2;
    if style == "setext_with_atx"@ {
        if h12 {
            "setext"@
        } else {
            "atx"@
        }
    } else if style == "setext_with_atx_closed"@ {
        if h12 {
            "setext"@
        } else {
            "atx_closed"@
        }
    } else {
        style
    }
}

/// Whether the `c`-th heading is reported: its style is not the one
/// expected, and it is on a line of the document.
pub open spec fn md003_reports(tokens: Seq<Token>, cfg: Seq<(Vec<char>, OptValue)>, n: int, c: int) -> bool {
    let st = heading_style_name(tokens, c);
    let t = tokens[md001_heading_ids(tokens)[c] as int];
    st != md003_style(tokens, cfg, c) && md003_expected(tokens, cfg, c) != st && 1 <= t.start_line <= n
}

/// The positions of the first `c` headings reported.
pub open spec fn md003_list(tokens: Seq<Token>, cfg: Seq<(Vec<char>, OptValue)>, n: int, c: int) -> Seq<int>
    decreases c,
{
    if c <= 0 {
        Seq::empty()
    } else {
        let prev = md003_list(tokens, cfg, n, c - 1);
        if md003_reports(tokens, cfg, n, c - 1) {
            prev.push(c - 1)
        } else {
            prev
        }
    }
}

/// The problem reported for the `c`-th heading: the expected style
/// against its own.
pub open spec fn md003_error(e: RuleError, tokens: Seq<Token>, cfg: Seq<(Vec<char>, OptValue)>, c: int) -> bool {
    let t = tokens[md001_heading_ids(tokens)[c] as int];
    error_is(
        e,
        t.start_line,
        Some(detail_text(md003_expected(tokens, cfg, c), heading_style_name(tokens, c), None)),
        None,
        None,
        None,
    )
}

/// What `md003` reports: the problems it appends to `old_errors`.
pub open spec fn md003_reported(p: &Params, old_errors: Seq<RuleError>, new_errors: Seq<RuleError>) -> bool {
    ({
        let toks = p.tree.tokens@;
        let reported = md003_list(toks, p.config.entries@, p.lines@.len() as int, md001_heading_ids(toks).len() as int);
        let base = old_errors.len();
        &&& new_errors.len() == base + reported.len()
        &&& forall|j: int|
            0 <= j < reported.len() ==> md003_error(
                #[trigger] new_errors[base + j],
                toks,
                p.config.entries@,
                reported[j],
            )
    })
}

/// Report headings whose style differs from the configured one (or from the
/// first heading's, for `consistent`). `setext_with_atx` and
/// `setext_with_atx_closed` want setext for levels 1-2 and the ATX form
/// for deeper ones.
pub fn md003(p: &Params, emit: &mut Emit)
    requires
        params_ok(p),
    ensures
        appended(old(emit).errors@, final(emit).errors@, p.lines@.len() as int),
        md003_reported(p, old(emit).errors@, final(emit).errors@),
{
    let mut style = opt_text_or(p.config, "style", "consistent");
    let tree = p.tree;
    let n = p.lines.len();
    let kinds: [Kind; 2] = [Kind::AtxHeading, Kind::SetextHeading];
    proof {
        assert(kinds@ =~= seq![Kind::AtxHeading, Kind::SetextHeading]);
        reveal_strlit("consistent");
        reveal_strlit("setext_with_atx");
        reveal_strlit("setext_with_atx_closed");
        reveal_strlit("setext");
        reveal_strlit("atx");
        reveal_strlit("atx_closed");
    }
    let hs = tree.filter_idx(&kinds);
    let ghost toks = tree.tokens@;
    let ghost cfg = p.config.entries@;
    let ghost e0 = emit.errors@;
    proof {
        lemma_appended_refl(e0, n as int);
    }
    let mut c: usize = 0;
    while c < hs.len()
        invariant
            c <= hs@.len(),
            params_ok(p),
            tree == p.tree,
            toks == tree.tokens@,
            cfg == p.config.entries@,
            hs@ == md001_heading_ids(toks),
            n == p.lines@.len(),
            c == 0 ==> style@ == opt_text_or_spec(cfg, "style"@, "consistent"@),
            c > 0 ==> style@ == md003_style(toks, cfg, c - 1),
            forall|k: int| 0 <= k < hs@.len() ==> #[trigger] hs@[k] < tree.tokens@.len(),
            appended(e0, emit.errors@, n as int),
            emit.errors@.len() == e0.len() + md003_list(toks, cfg, n as int, c as int).len(),
            forall|j: int|
                0 <= j < md003_list(toks, cfg, n as int, c as int).len() ==> md003_error(
                    #[trigger] emit.errors@[e0.len() + j],
                    toks,
                    cfg,
                    md003_list(toks, cfg, n as int, c as int)[j],
                ),
        decreases hs@.len() - c,
    {
        let h = hs[c];
        let ghost prev = md003_list(toks, cfg, n as int, c as int);
        let ghost mid = emit.errors@;
        let st = super::lit(tree.heading_style(h).as_str());
        if is_text(&style, "consistent") {
            style = crate::text::slice_vec(&st, 0, st.len());
        }
        proof {
            assert(st@ == heading_style_name(toks, c as int));
            assert(style@ == md003_style(toks, cfg, c as int));
        }
        if !slice_eq(&st, &style) {
            let h12 = tree.heading_level(h) <= 2;
            let with_atx = is_text(&style, "setext_with_atx");
            let with_closed = is_text(&style, "setext_with_atx_closed");
            let setext_with_atx = with_atx && ((h12 && is_text(&st, "setext")) || (!h12 && is_text(
                &st,
                "atx",
            )));
            let setext_with_atx_closed = with_closed && ((h12 && is_text(&st, "setext")) || (!h12
                && is_text(&st, "atx_closed")));
            if !setext_with_atx && !setext_with_atx_closed {
                let expected = if with_atx {
                    if h12 {
                        super::lit("setext")
                    } else {
                        super::lit("atx")
                    }
                } else if with_closed {
                    if h12 {
                        super::lit("setext")
                    } else {
                        super::lit("atx_closed")
                    }
                } else {
                    crate::text::slice_vec(&style, 0, style.len())
                };
                proof {
                    assert(expected@ == md003_expected(toks, cfg, c as int));
                }
                emit.add_detail_if_checked(n, tree.get(h).start_line, &expected, &st, None, None, None, None);
            } else {
                proof {
                    reveal_strlit("setext_with_atx");
                    reveal_strlit("setext_with_atx_closed");
                    assert(h12 == (spec_heading_level(toks, md001_heading_ids(toks)[c as int] as int) <= 2));
                    assert(with_atx == (style@ == "setext_with_atx"@));
                    assert(with_closed == (style@ == "setext_with_atx_closed"@));
                    assert(md003_expected(toks, cfg, c as int) == st@);
                }
            }
        }
        proof {
            let cur = md003_list(toks, cfg, n as int, c + 1);
            if md003_reports(toks, cfg, n as int, c as int) {
                assert(cur == prev.push(c as int));
                assert forall|j: int| 0 <= j < cur.len() implies md003_error(
                    #[trigger] emit.errors@[e0.len() + j],
                    toks,
                    cfg,
                    cur[j],
                ) by {
                    if j < prev.len() {
                        assert(emit.errors@[e0.len() + j] == mid[e0.len() + j]);
                    }
                }
            } else {
                assert(cur == prev);
                assert(emit.errors@ == mid);
            }
            assert(appended(e0, emit.errors@, n as int));
        }
        c += 1;
    }
}

} // verus!
