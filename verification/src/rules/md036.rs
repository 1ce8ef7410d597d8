//! MD036 — no-emphasis-as-heading.

use vstd::prelude::*;

use super::RuleError;

use crate::md::kind::Kind;
use crate::md::tokens::{Token, Tree, filter_html_upto};
use crate::re::{re_find, regex_find};
use super::helpers::{spec_ellipsify, spec_trim, trim};
use super::md003::{opt_text_or, opt_text_or_spec};
use super::md030::children_kind;
use super::options::OptValue;
use super::{
    Emit, Params, Report, appended, lemma_appended_refl, lemma_reports_concat, lemma_reports_push,
    lemma_reports_start, params_ok, reports_are,
};
use super::md036_support::{dfs, push_children, rev_children, walk_below};

verus! {

/// A regex meta character, as `regex::escape` escapes it.
pub open spec fn is_meta_character(c: char) -> bool {
    c == '\\' || c == '.' || c == '+' || c == '*' || c == '?' || c == '(' || c == ')' || c == '|'
        || c == '[' || c == ']' || c == '{' || c == '}' || c == '^' || c == '$' || c == '#' || c
        == '&' || c == '-' || c == '~'
}

/// `s` with a backslash before each meta character (`regex::escape`).
pub open spec fn spec_regex_escape(s: Seq<char>) -> Seq<char>
    decreases s.len(),
{
    if s.len() == 0 {
        Seq::empty()
    } else {
        let rest = spec_regex_escape(s.drop_last());
        if is_meta_character(s.last()) {
            rest.push('\\').push(s.last())
        } else {
            rest.push(s.last())
        }
    }
}

/// Escape the regex meta characters of `s`.
pub fn regex_escape(s: &[char]) -> (r: Vec<char>)
    ensures
        r@ == spec_regex_escape(s@),
{
    let mut out: Vec<char> = Vec::new();
    let mut i: usize = 0;
    while i < s.len()
        invariant
            i <= s@.len(),
            out@ == spec_regex_escape(s@.take(i as int)),
        decreases s@.len() - i,
    {
        proof {
            assert(s@.take(i + 1).drop_last() =~= s@.take(i as int));
        }
        let c = s[i];
        if c == '\\' || c == '.' || c == '+' || c == '*' || c == '?' || c == '(' || c == ')' || c
            == '|' || c == '[' || c == ']' || c == '{' || c == '}' || c == '^' || c == '$' || c
            == '#' || c == '&' || c == '-' || c == '~' {
            out.push('\\');
        }
        out.push(c);
        i += 1;
    }
    proof {
        assert(s@.take(s@.len() as int) =~= s@);
    }
    out
}

/// A child that counts as content of a paragraph: not raw HTML, not
/// whitespace-only text.
pub open spec fn spec_meaningful(t: Token) -> bool {
    !(t.kind == Kind::HtmlText || (t.kind == Kind::Data && spec_trim(t.text@).len() == 0))
}

/// How many of the first `j` of `ch` count as content.
pub open spec fn count_meaningful(tokens: Seq<Token>, ch: Seq<usize>, j: int) -> int
    decreases j,
{
    if j <= 0 {
        0
    } else {
        count_meaningful(tokens, ch, j - 1) + if spec_meaningful(tokens[ch[j - 1] as int]) {
            1int
        } else {
            0
        }
    }
}

/// The `b` children of the tokens of `visited` that are of kind `a`, in
/// order.
pub open spec fn dpath(tokens: Seq<Token>, visited: Seq<usize>, a: Kind, b: Kind) -> Seq<usize>
    decreases visited.len(),
{
    if visited.len() == 0 {
        Seq::empty()
    } else {
        let prev = dpath(tokens, visited.drop_last(), a, b);
        let v = visited.last() as int;
        if tokens[v].kind == a {
            prev + children_kind(tokens, v, b)
        } else {
            prev
        }
    }
}

/// The `b` children of the `a` tokens met walking below `root`.
pub open spec fn spec_descendants_path(tokens: Seq<Token>, root: int, a: Kind, b: Kind) -> Seq<usize> {
    dpath(tokens, walk_below(tokens, root), a, b)
}

/// A child that counts as content of a paragraph: not raw HTML, not
/// whitespace-only text.
fn meaningful(tree: &Tree, c: usize) -> (r: bool)
    requires
        c < tree.tokens@.len(),
    ensures
        r == spec_meaningful(tree.tokens@[c as int]),
{
    let t = tree.get(c);
    !(t.kind == Kind::HtmlText || (t.kind == Kind::Data && trim(&t.text).len() == 0))
}

/// The `b` children of the `a` descendants of `root`, in document order.
fn descendants_path(tree: &Tree, root: usize, a: Kind, b: Kind) -> (r: Vec<usize>)
    requires
        tree.wf(),
        root < tree.tokens@.len(),
    ensures
        forall|k: int| 0 <= k < r@.len() ==> #[trigger] r@[k] < tree.tokens@.len(),
        r@ == spec_descendants_path(tree.tokens@, root as int, a, b),
{
    let ghost tk = tree.tokens@;
    let ghost w = walk_below(tk, root as int);
    let mut out: Vec<usize> = Vec::new();
    let mut stack: Vec<usize> = Vec::new();
    push_children(tree, root, &mut stack);
    let bk: [Kind; 1] = [b];
    proof {
        assert(stack@ =~= rev_children(tk, root as int));
        assert(bk@ =~= seq![b]);
    }
    let mut budget = tree.tokens.len();
    let ghost mut taken: Seq<usize> = Seq::empty();
    proof {
        assert(w =~= taken + dfs(tk, stack@, budget as nat));
    }
    while stack.len() > 0 && budget > 0
        invariant
            tree.wf(),
            tk == tree.tokens@,
            bk@ == seq![b],
            w == taken + dfs(tk, stack@, budget as nat),
            out@ == dpath(tk, taken, a, b),
            forall|k: int| 0 <= k < stack@.len() ==> #[trigger] stack@[k] < tree.tokens@.len(),
            forall|k: int| 0 <= k < out@.len() ==> #[trigger] out@[k] < tree.tokens@.len(),
        decreases budget,
    {
        let ghost st = stack@;
        let ghost bud = budget as nat;
        budget -= 1;
        let c = stack.pop().unwrap();
        proof {
            assert(c == st.last());
            assert(stack@ == st.drop_last());
        }
        let ghost out0 = out@;
        if tree.get(c).kind == a {
            let d = tree.children_of(c, &bk);
            proof {
                assert(d@ == children_kind(tk, c as int, b));
            }
            let mut q: usize = 0;
            while q < d.len()
                invariant
                    q <= d@.len(),
                    out@ == out0 + d@.take(q as int),
                    forall|k: int| 0 <= k < d@.len() ==> #[trigger] d@[k] < tree.tokens@.len(),
                    forall|k: int| 0 <= k < out@.len() ==> #[trigger] out@[k] < tree.tokens@.len(),
                decreases d@.len() - q,
            {
                out.push(d[q]);
                q += 1;
                proof {
                    assert(out@ =~= out0 + d@.take(q as int));
                }
            }
            proof {
                assert(d@.take(d@.len() as int) =~= d@);
            }
        }
        push_children(tree, c, &mut stack);
        proof {
            let t2 = taken.push(c);
            assert(t2.drop_last() =~= taken);
            assert(t2[t2.len() - 1] == c);
            assert(dfs(tk, st, bud) == seq![c] + dfs(tk, stack@, budget as nat));
            assert(w =~= t2 + dfs(tk, stack@, budget as nat));
            taken = t2;
        }
    }
    proof {
        assert(dfs(tk, stack@, budget as nat) =~= Seq::<usize>::empty());
        assert(w =~= taken);
    }
    out
}

/// The pattern a heading-like text must not match: one of the
/// punctuation characters at the end.
pub open spec fn punct_pattern(punct: Seq<char>) -> Seq<char> {
    "["@ + spec_regex_escape(punct) + "]$"@
}

/// The paragraphs.
pub open spec fn para_ids(tokens: Seq<Token>) -> Seq<usize> {
    filter_html_upto(tokens, seq![Kind::Paragraph], tokens.len() as int)
}

/// Whether the `c`-th paragraph stands alone at the top (inside content,
/// itself at the top or in a top-level HTML block) and has one piece of
/// content.
pub open spec fn md036_para_ok(tokens: Seq<Token>, c: int) -> bool {
    let para = para_ids(tokens)[c] as int;
    let t = tokens[para];
    match t.parent {
        Some(q) => {
            &&& tokens[q as int].kind == Kind::Content
            &&& match tokens[q as int].parent {
                None => true,
                Some(g) => tokens[g as int].kind == Kind::HtmlFlow && tokens[g as int].parent is None,
            }
            &&& count_meaningful(tokens, t.children@, t.children@.len() as int) == 1
        },
        None => false,
    }
}

/// The problems for the first `k` of the emphasis (or strong) texts
/// `texts`: one whose only child is text not ending in punctuation.
pub open spec fn md036_texts(tokens: Seq<Token>, pat: Seq<char>, n: int, texts: Seq<usize>, k: int) -> Seq<Report>
    decreases k,
{
    if k <= 0 {
        Seq::empty()
    } else {
        let prev = md036_texts(tokens, pat, n, texts, k - 1);
        let t = tokens[texts[k - 1] as int];
        if t.children@.len() == 1 && tokens[t.children@[0] as int].kind == Kind::Data && regex_find(pat, t.text@) is None
            && 1 <= t.start_line <= n {
            prev.push(
                Report { line: t.start_line, detail: None, context: Some(spec_ellipsify(t.text@, false, false)), range: None, fix: None },
            )
        } else {
            prev
        }
    }
}

/// The problems for the `c`-th paragraph.
pub open spec fn md036_para(tokens: Seq<Token>, pat: Seq<char>, n: int, c: int) -> Seq<Report> {
    if md036_para_ok(tokens, c) {
        let para = para_ids(tokens)[c] as int;
        let e = spec_descendants_path(tokens, para, Kind::Emphasis, Kind::EmphasisText);
        let s = spec_descendants_path(tokens, para, Kind::Strong, Kind::StrongText);
        md036_texts(tokens, pat, n, e, e.len() as int) + md036_texts(tokens, pat, n, s, s.len() as int)
    } else {
        Seq::empty()
    }
}

/// The problems for the first `c` paragraphs.
pub open spec fn md036_upto(tokens: Seq<Token>, pat: Seq<char>, n: int, c: int) -> Seq<Report>
    decreases c,
{
    if c <= 0 {
        Seq::empty()
    } else {
        md036_upto(tokens, pat, n, c - 1) + md036_para(tokens, pat, n, c - 1)
    }
}

/// The configured punctuation.
pub open spec fn md036_punct(cfg: Seq<(Vec<char>, OptValue)>) -> Seq<char> {
    opt_text_or_spec(cfg, "punctuation"@, ".,;:!?。，；：！？"@)
}

/// What `md036` reports: the problems it appends to `old_errors`.
pub open spec fn md036_reported(p: &Params, old_errors: Seq<RuleError>, new_errors: Seq<RuleError>) -> bool {
    ({
        let punct = md036_punct(p.config.entries@);
        if punct.len() == 0 {
            new_errors == old_errors
        } else {
            reports_are(
                old_errors,
                new_errors,
                md036_upto(p.tree.tokens@, punct_pattern(punct), p.lines@.len() as int, para_ids(p.tree.tokens@).len() as int),
            )
        }
    })
}

/// Report a paragraph made of a single emphasis or strong span (not ending
/// in punctuation): it stands for a heading.
pub fn md036(p: &Params, emit: &mut Emit)
    requires
        params_ok(p),
    ensures
        appended(old(emit).errors@, final(emit).errors@, p.lines@.len() as int),
        md036_reported(p, old(emit).errors@, final(emit).errors@),
{
    let punctuation = opt_text_or(p.config, "punctuation", ".,;:!?。，；：！？");
    let ghost e0 = emit.errors@;
    proof {
        lemma_appended_refl(e0, p.lines@.len() as int);
        lemma_reports_start(e0);
    }
    // An empty class does not compile: nothing is reported.
    if punctuation.len() == 0 {
        return;
    }
    let mut pattern = super::lit("[");
    super::concat(&mut pattern, &regex_escape(&punctuation));
    super::concat(&mut pattern, &super::lit("]$"));
    let pat = crate::text::string_of(&pattern);
    let ghost pv = pat@;
    proof {
        assert(pv == punct_pattern(punctuation@));
    }
    let tree = p.tree;
    let n = p.lines.len();
    let ghost tk = tree.tokens@;
    let pk: [Kind; 1] = [Kind::Paragraph];
    proof {
        assert(pk@ =~= seq![Kind::Paragraph]);
    }
    let paras = tree.filter_idx_html(&pk);
    let mut c: usize = 0;
    while c < paras.len()
        invariant
            c <= paras@.len(),
            params_ok(p),
            tree == p.tree,
            tk == tree.tokens@,
            n == p.lines@.len(),
            pv == pat@,
            paras@ == para_ids(tk),
            forall|k: int| 0 <= k < paras@.len() ==> #[trigger] paras@[k] < tree.tokens@.len(),
            appended(e0, emit.errors@, n as int),
            reports_are(e0, emit.errors@, md036_upto(tk, pv, n as int, c as int)),
        decreases paras@.len() - c,
    {
        let para = paras[c];
        let ghost cc = c as int;
        let ghost mid = emit.errors@;
        proof {
            lemma_reports_start(mid);
        }
        c += 1;
        proof {
            tree.lemma_node(para as int);
        }
        let parent = match tree.get(para).parent {
            Some(q) => q,
            None => {
                proof {
                    assert(md036_upto(tk, pv, n as int, cc + 1) =~= md036_upto(tk, pv, n as int, cc));
                }
                continue;
            },
        };
        if tree.get(parent).kind != Kind::Content {
            proof {
                assert(md036_upto(tk, pv, n as int, cc + 1) =~= md036_upto(tk, pv, n as int, cc));
            }
            continue;
        }
        proof {
            tree.lemma_node(parent as int);
        }
        let grand_ok = match tree.get(parent).parent {
            None => true,
            Some(g) => tree.get(g).kind == Kind::HtmlFlow && tree.get(g).parent.is_none(),
        };
        if !grand_ok {
            proof {
                assert(md036_upto(tk, pv, n as int, cc + 1) =~= md036_upto(tk, pv, n as int, cc));
            }
            continue;
        }
        let ch = &tree.tokens[para].children;
        let mut count: usize = 0;
        let mut j: usize = 0;
        while j < ch.len()
            invariant
                tree.wf(),
                tk == tree.tokens@,
                para < tree.tokens@.len(),
                ch@ == tree.tokens@[para as int].children@,
                j <= ch@.len(),
                count <= j,
                count == count_meaningful(tk, ch@, j as int),
            decreases ch@.len() - j,
        {
            proof {
                tree.lemma_child(para as int, j as int);
            }
            if meaningful(tree, ch[j]) {
                count += 1;
            }
            j += 1;
        }
        if count != 1 {
            proof {
                assert(md036_upto(tk, pv, n as int, cc + 1) =~= md036_upto(tk, pv, n as int, cc));
            }
            continue;
        }
        proof {
            assert(md036_para_ok(tk, cc));
        }
        let mut pair: usize = 0;
        let ghost mut acc: Seq<Report> = Seq::empty();
        while pair < 2
            invariant
                pair <= 2,
                params_ok(p),
                tree == p.tree,
                tk == tree.tokens@,
                n == p.lines@.len(),
                pv == pat@,
                para < tree.tokens@.len(),
                appended(e0, emit.errors@, n as int),
                reports_are(mid, emit.errors@, acc),
                pair == 0 ==> acc == Seq::<Report>::empty(),
                pair == 1 ==> acc == md036_texts(tk, pv, n as int, spec_descendants_path(tk, para as int, Kind::Emphasis, Kind::EmphasisText), spec_descendants_path(tk, para as int, Kind::Emphasis, Kind::EmphasisText).len() as int),
                pair == 2 ==> acc == md036_texts(tk, pv, n as int, spec_descendants_path(tk, para as int, Kind::Emphasis, Kind::EmphasisText), spec_descendants_path(tk, para as int, Kind::Emphasis, Kind::EmphasisText).len() as int) + md036_texts(tk, pv, n as int, spec_descendants_path(tk, para as int, Kind::Strong, Kind::StrongText), spec_descendants_path(tk, para as int, Kind::Strong, Kind::StrongText).len() as int),
            decreases 2 - pair,
        {
            let (a, b) = if pair == 0 {
                (Kind::Emphasis, Kind::EmphasisText)
            } else {
                (Kind::Strong, Kind::StrongText)
            };
            let ghost m2 = emit.errors@;
            proof {
                lemma_reports_start(m2);
            }
            let texts = descendants_path(tree, para, a, b);
            let mut k: usize = 0;
            while k < texts.len()
                invariant
                    k <= texts@.len(),
                    params_ok(p),
                    tree == p.tree,
                    tk == tree.tokens@,
                    n == p.lines@.len(),
                    pv == pat@,
                    forall|q: int| 0 <= q < texts@.len() ==> #[trigger] texts@[q] < tree.tokens@.len(),
                    appended(e0, emit.errors@, n as int),
                    reports_are(m2, emit.errors@, md036_texts(tk, pv, n as int, texts@, k as int)),
                decreases texts@.len() - k,
            {
                let ti = texts[k];
                let ghost m3 = emit.errors@;
                let t = tree.get(ti);
                proof {
                    tree.lemma_node(ti as int);
                }
                if t.children.len() == 1 {
                    proof {
                        tree.lemma_child(ti as int, 0);
                    }
                    if tree.get(t.children[0]).kind == Kind::Data && re_find(pat.as_str(), &t.text).is_none() {
                        emit.add_context_checked(n, t.start_line, &t.text, false, false, None, None);
                    }
                }
                proof {
                    if emit.errors@ != m3 {
                        lemma_reports_push(m2, m3, md036_texts(tk, pv, n as int, texts@, k as int), emit.errors@.last());
                    }
                }
                k += 1;
            }
            proof {
                lemma_reports_concat(mid, m2, emit.errors@, acc, md036_texts(tk, pv, n as int, texts@, texts@.len() as int));
                acc = acc + md036_texts(tk, pv, n as int, texts@, texts@.len() as int);
                if pair == 0 {
                    assert(Seq::<Report>::empty() + md036_texts(tk, pv, n as int, texts@, texts@.len() as int) =~= md036_texts(tk, pv, n as int, texts@, texts@.len() as int));
                }
            }
            pair += 1;
        }
        proof {
            lemma_reports_concat(e0, mid, emit.errors@, md036_upto(tk, pv, n as int, cc), acc);
        }
    }
}

} // verus!
