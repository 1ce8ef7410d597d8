//! MD044 — proper-names.

use vstd::prelude::*;

use super::RuleError;

use crate::config::names_view;
use crate::md::kind::Kind;
use crate::md::tokens::{Token, Tree};
use crate::output::{lex_less, text_less};
use crate::re::{groups_view, re_captures_all, regex_captures_all};
use crate::text::char_is_alphanumeric;
use super::md024::contains_text;
use super::md033::lemma_contains_views;
use super::md036::{regex_escape, spec_regex_escape};
use super::options::{OptValue, lookup, spec_opt_bool, strings_of};
use super::{
    Emit, FixInfo, FixV, Params, Report, appended, detail_text, lemma_appended_refl, lemma_reports_push,
    lemma_reports_start, params_ok, report_of, reports_are,
};

verus! {

/// Bytes of `c` in UTF-8.
pub open spec fn utf8_width(c: char) -> nat {
    if (c as u32) < 0x80 {
        1
    } else if (c as u32) < 0x800 {
        2
    } else if (c as u32) < 0x10000 {
        3
    } else {
        4
    }
}

/// Length of `s` in UTF-8 bytes (what `str::len` gives).
pub open spec fn utf8_len(s: Seq<char>) -> nat
    decreases s.len(),
{
    if s.len() == 0 {
        0
    } else {
        utf8_len(s.drop_last()) + utf8_width(s.last())
    }
}

/// The UTF-8 length of `s`.
pub fn byte_len(s: &[char]) -> (r: usize)
    requires
        s@.len() < usize::MAX / 4,
    ensures
        r == utf8_len(s@),
{
    let mut t: usize = 0;
    let mut i: usize = 0;
    while i < s.len()
        invariant
            i <= s@.len(),
            s@.len() < usize::MAX / 4,
            t == utf8_len(s@.take(i as int)),
            t <= 4 * i,
        decreases s@.len() - i,
    {
        proof {
            assert(s@.take(i + 1).drop_last() =~= s@.take(i as int));
        }
        let c = s[i] as u32;
        t = t + if c < 0x80 {
            1
        } else if c < 0x800 {
            2
        } else if c < 0x10000 {
            3
        } else {
            4
        };
        i += 1;
    }
    proof {
        assert(s@.take(s@.len() as int) =~= s@);
    }
    t
}

/// A word character (`\w` boundary side): alphanumeric or `_`.
pub open spec fn spec_is_word_char(c: char) -> bool {
    char_is_alphanumeric(c) || c == '_'
}

/// A word character (`\w` boundary side): alphanumeric or `_`.
fn is_word_char(c: char) -> (r: bool)
    ensures
        r == spec_is_word_char(c),
{
    crate::text::is_alphanumeric(c) || c == '_'
}

/// A token the walk for names goes into: not a fence, definition,
/// reference or resource.
pub open spec fn walk_kept(t: Token) -> bool {
    t.kind != Kind::CodeFencedFence && t.kind != Kind::Definition && t.kind != Kind::Reference && t.kind
        != Kind::Resource
}

/// The children of `ch` from `j` on that the walk goes into.
pub open spec fn kept_from(tokens: Seq<Token>, ch: Seq<usize>, j: int) -> Seq<usize>
    decreases ch.len() - j,
{
    if j < 0 || j >= ch.len() {
        Seq::empty()
    } else {
        let rest = kept_from(tokens, ch, j + 1);
        if walk_kept(tokens[ch[j] as int]) {
            seq![ch[j]] + rest
        } else {
            rest
        }
    }
}

/// A depth-first walk from `stack` (top last), not going into fences,
/// definitions, references and resources, of at most `budget` steps.
pub open spec fn kept_walk(tokens: Seq<Token>, stack: Seq<usize>, budget: nat) -> Seq<usize>
    decreases budget,
{
    if budget == 0 || stack.len() == 0 {
        Seq::empty()
    } else {
        let node = stack.last();
        seq![node] + kept_walk(
            tokens,
            stack.drop_last() + kept_from(tokens, tokens[node as int].children@, 0).reverse(),
            (budget - 1) as nat,
        )
    }
}

/// The tokens of `visited` of one of `kinds`, in order.
pub open spec fn of_kinds(tokens: Seq<Token>, visited: Seq<usize>, kinds: Seq<Kind>) -> Seq<usize>
    decreases visited.len(),
{
    if visited.len() == 0 {
        Seq::empty()
    } else {
        let prev = of_kinds(tokens, visited.drop_last(), kinds);
        if kinds.contains(tokens[visited.last() as int].kind) {
            prev.push(visited.last())
        } else {
            prev
        }
    }
}

/// The tokens of `kinds`, in the order of the walk from the top.
pub open spec fn spec_collect(tokens: Seq<Token>, roots: Seq<usize>, kinds: Seq<Kind>) -> Seq<usize> {
    of_kinds(tokens, kept_walk(tokens, roots.reverse(), tokens.len()), kinds)
}

/// The tokens of `kinds`, in document order, not looking inside fences,
/// definitions, references and resources.
fn collect(tree: &Tree, kinds: &[Kind]) -> (r: Vec<usize>)
    requires
        tree.wf(),
    ensures
        forall|k: int| 0 <= k < r@.len() ==> #[trigger] r@[k] < tree.tokens@.len(),
        r@ == spec_collect(tree.tokens@, tree.roots@, kinds@),
{
    let ghost tk = tree.tokens@;
    let ghost w = kept_walk(tk, tree.roots@.reverse(), tk.len());
    let mut out: Vec<usize> = Vec::new();
    let mut stack: Vec<usize> = Vec::new();
    let mut j = tree.roots.len();
    while j > 0
        invariant
            tree.wf(),
            j <= tree.roots@.len(),
            stack@ == tree.roots@.subrange(j as int, tree.roots@.len() as int).reverse(),
            forall|k: int| 0 <= k < stack@.len() ==> #[trigger] stack@[k] < tree.tokens@.len(),
        decreases j,
    {
        j -= 1;
        proof {
            tree.lemma_root(j as int);
        }
        stack.push(tree.roots[j]);
        proof {
            let r = tree.roots@;
            assert(r.subrange(j as int, r.len() as int).reverse() =~= r.subrange(j + 1, r.len() as int).reverse().push(r[j as int]));
        }
    }
    proof {
        assert(tree.roots@.subrange(0, tree.roots@.len() as int) =~= tree.roots@);
    }
    let mut budget = tree.tokens.len();
    let ghost mut taken: Seq<usize> = Seq::empty();
    proof {
        assert(w =~= taken + kept_walk(tk, stack@, budget as nat));
    }
    while stack.len() > 0 && budget > 0
        invariant
            tree.wf(),
            tk == tree.tokens@,
            w == taken + kept_walk(tk, stack@, budget as nat),
            out@ == of_kinds(tk, taken, kinds@),
            forall|k: int| 0 <= k < stack@.len() ==> #[trigger] stack@[k] < tree.tokens@.len(),
            forall|k: int| 0 <= k < out@.len() ==> #[trigger] out@[k] < tree.tokens@.len(),
        decreases budget,
    {
        let ghost st = stack@;
        let ghost bud = budget as nat;
        budget -= 1;
        let node = stack.pop().unwrap();
        let ghost base = stack@;
        if crate::md::kind::kind_in(tree.get(node).kind, kinds) {
            out.push(node);
        }
        let ch = &tree.tokens[node].children;
        let mut j = ch.len();
        proof {
            assert(kept_from(tk, ch@, j as int) =~= Seq::<usize>::empty());
            assert(stack@ =~= base + kept_from(tk, ch@, j as int).reverse());
        }
        while j > 0
            invariant
                tree.wf(),
                tk == tree.tokens@,
                node < tree.tokens@.len(),
                ch@ == tree.tokens@[node as int].children@,
                j <= ch@.len(),
                stack@ == base + kept_from(tk, ch@, j as int).reverse(),
                forall|k: int| 0 <= k < stack@.len() ==> #[trigger] stack@[k] < tree.tokens@.len(),
            decreases j,
        {
            j -= 1;
            proof {
                tree.lemma_child(node as int, j as int);
            }
            let c = ch[j];
            let k = tree.get(c).kind;
            let ghost before = kept_from(tk, ch@, j + 1);
            if k != Kind::CodeFencedFence && k != Kind::Definition && k != Kind::Reference && k
                != Kind::Resource {
                stack.push(c);
                proof {
                    assert(kept_from(tk, ch@, j as int) == seq![c] + before);
                    assert((seq![c] + before).reverse() =~= before.reverse().push(c));
                }
            } else {
                proof {
                    assert(kept_from(tk, ch@, j as int) == before);
                }
            }
        }
        proof {
            assert(kept_walk(tk, st, bud) == seq![node] + kept_walk(tk, stack@, budget as nat));
            let t2 = taken.push(node);
            assert(t2.drop_last() =~= taken);
            assert(w =~= t2 + kept_walk(tk, stack@, budget as nat));
            taken = t2;
        }
    }
    proof {
        assert(kept_walk(tk, stack@, budget as nat) =~= Seq::<usize>::empty());
        assert(w =~= taken);
    }
    out
}

/// `a` sorts before `b`: longer (in bytes) first, then in text order.
pub open spec fn spec_name_before(a: Seq<char>, b: Seq<char>) -> bool {
    if utf8_len(a) != utf8_len(b) {
        utf8_len(a) > utf8_len(b)
    } else {
        lex_less(a, b)
    }
}

/// `a` sorts before `b`: longer (in bytes) first, then in text order.
fn name_before(a: &[char], b: &[char]) -> (r: bool)
    requires
        a@.len() < usize::MAX / 4,
        b@.len() < usize::MAX / 4,
    ensures
        r == spec_name_before(a@, b@),
{
    let la = byte_len(a);
    let lb = byte_len(b);
    if la != lb {
        return la > lb;
    }
    text_less(a, b)
}

/// Where `x` goes among `names`, looking down from position `pos`: after
/// the names it does not sort before.
pub open spec fn insert_at(names: Seq<Seq<char>>, x: Seq<char>, pos: int) -> int
    decreases pos,
{
    if pos <= 0 || !spec_name_before(x, names[pos - 1]) {
        pos
    } else {
        insert_at(names, x, pos - 1)
    }
}

/// The first `g` names sorted, longest first (a name too long to measure
/// left out).
pub open spec fn sorted_names(given: Seq<Seq<char>>, g: int) -> Seq<Seq<char>>
    decreases g,
{
    if g <= 0 {
        Seq::empty()
    } else {
        let s = sorted_names(given, g - 1);
        let x = given[g - 1];
        if x.len() >= usize::MAX / 4 {
            s
        } else {
            s.insert(insert_at(s, x, s.len() as int), x)
        }
    }
}

/// The configured names, sorted.
pub open spec fn md044_names(cfg: Seq<(Vec<char>, OptValue)>) -> Seq<Seq<char>> {
    let given = match lookup(cfg, "names"@) {
        Some(OptValue::List(items)) => strings_of(items@),
        _ => Seq::empty(),
    };
    sorted_names(given, given.len() as int)
}

/// The pattern a name is searched with: case-insensitive, on word
/// boundaries where the name starts or ends with a word character.
pub open spec fn md044_pattern(name: Seq<char>) -> Seq<char> {
    let start_pat = if name.len() > 0 && !spec_is_word_char(name[0]) {
        Seq::empty()
    } else {
        "\\b_*"@
    };
    let end_pat = if name.len() > 0 && !spec_is_word_char(name.last()) {
        Seq::empty()
    } else {
        "_*\\b"@
    };
    "(?i)("@ + start_pat + ")("@ + spec_regex_escape(name) + ")"@ + end_pat
}

/// What MD044 has done so far: the spans matched (line, first and last
/// column), and the problems reported.
pub struct Md044St {
    pub excl: Seq<(usize, usize, usize)>,
    pub reps: Seq<Report>,
}

/// One match `g` of `name` in token `t`: unless it is one of the names
/// as written, its span is noted, and it is reported (with a fix writing
/// the name) when it differs from the name and no earlier match covers
/// it.
pub open spec fn md044_match(
    st: Md044St,
    t: Token,
    name: Seq<char>,
    names: Seq<Seq<char>>,
    g: Seq<Option<(int, int)>>,
    n: int,
) -> Md044St {
    if g.len() < 3 {
        st
    } else {
        match (g[0], g[2]) {
            (Some((m_start, _)), Some((na, nb))) => {
                let left = match g[1] {
                    Some((a, b)) => b - a,
                    None => 0,
                };
                let nm = t.text@.subrange(na, nb);
                let length = nb - na;
                let column = t.start_column + m_start + left;
                let last = if length > 0 { column + length - 1 } else if column >= 1 { column - 1 } else { 0 };
                let line = t.start_line;
                if names.contains(nm) || t.start_column + m_start > usize::MAX || column > usize::MAX || last
                    > usize::MAX {
                    st
                } else {
                    let overlaps = exists|x: int|
                        0 <= x < st.excl.len() && (#[trigger] st.excl[x]).0 == line && st.excl[x].1 <= last
                            && column <= st.excl[x].2;
                    let reps = if !overlaps && 1 <= line <= n && name != nm {
                        st.reps.push(
                            Report {
                                line,
                                detail: Some(detail_text(name, nm, None)),
                                context: None,
                                range: Some((column as usize, length as usize)),
                                fix: Some(
                                    FixV {
                                        line_number: None,
                                        edit_column: Some(column as usize),
                                        delete_count: Some(length as i64),
                                        insert_text: Some(name),
                                    },
                                ),
                            },
                        )
                    } else {
                        st.reps
                    };
                    Md044St { excl: st.excl.push((line, column as usize, last as usize)), reps }
                }
            },
            _ => st,
        }
    }
}

/// The first `m` matches `caps` of `name` in token `t`.
pub open spec fn md044_matches(
    st: Md044St,
    t: Token,
    name: Seq<char>,
    names: Seq<Seq<char>>,
    caps: Seq<Seq<Option<(int, int)>>>,
    n: int,
    m: int,
) -> Md044St
    decreases m,
{
    if m <= 0 {
        st
    } else {
        md044_match(md044_matches(st, t, name, names, caps, n, m - 1), t, name, names, caps[m - 1], n)
    }
}

/// `name` searched in the first `ti` of the tokens `toks`.
pub open spec fn md044_tokens(
    st: Md044St,
    tokens: Seq<Token>,
    toks: Seq<usize>,
    name: Seq<char>,
    names: Seq<Seq<char>>,
    n: int,
    ti: int,
) -> Md044St
    decreases ti,
{
    if ti <= 0 {
        st
    } else {
        let prev = md044_tokens(st, tokens, toks, name, names, n, ti - 1);
        let t = tokens[toks[ti - 1] as int];
        let caps = regex_captures_all(md044_pattern(name), t.text@);
        md044_matches(prev, t, name, names, caps, n, caps.len() as int)
    }
}

/// The first `ni` names searched in the tokens `toks`.
pub open spec fn md044_all(tokens: Seq<Token>, toks: Seq<usize>, names: Seq<Seq<char>>, n: int, ni: int) -> Md044St
    decreases ni,
{
    if ni <= 0 {
        Md044St { excl: Seq::empty(), reps: Seq::empty() }
    } else {
        md044_tokens(md044_all(tokens, toks, names, n, ni - 1), tokens, toks, names[ni - 1], names, n, toks.len() as int)
    }
}

/// The tokens searched: text, and code too with `code_blocks`.
pub open spec fn md044_kinds(cfg: Seq<(Vec<char>, OptValue)>) -> Seq<Kind> {
    if spec_opt_bool(lookup(cfg, "code_blocks"@), true) {
        seq![Kind::Data, Kind::CodeFlowValue, Kind::CodeTextData]
    } else {
        seq![Kind::Data]
    }
}

/// The problems MD044 reports.
pub open spec fn md044_reports(tokens: Seq<Token>, roots: Seq<usize>, cfg: Seq<(Vec<char>, OptValue)>, n: int) -> Seq<Report> {
    let names = md044_names(cfg);
    md044_all(tokens, spec_collect(tokens, roots, md044_kinds(cfg)), names, n, names.len() as int).reps
}

/// What `md044` reports: the problems it appends to `old_errors`.
pub open spec fn md044_reported(p: &Params, old_errors: Seq<RuleError>, new_errors: Seq<RuleError>) -> bool {
    reports_are(
        old_errors,
        new_errors,
        md044_reports(p.tree.tokens@, p.tree.roots@, p.config.entries@, p.lines@.len() as int),
    )
}

/// Report proper names (`names`) written with another capitalization;
/// the fix writes the configured spelling.
pub fn md044(p: &Params, emit: &mut Emit)
    requires
        params_ok(p),
    ensures
        appended(old(emit).errors@, final(emit).errors@, p.lines@.len() as int),
        md044_reported(p, old(emit).errors@, final(emit).errors@),
{
    let tree = p.tree;
    let n = p.lines.len();
    let ghost tk = tree.tokens@;
    let ghost cfg = p.config.entries@;
    let ghost e0 = emit.errors@;
    proof {
        lemma_appended_refl(e0, n as int);
        lemma_reports_start(e0);
    }
    let given = match p.config.opt_strings("names") {
        Some(v) => v,
        None => Vec::new(),
    };
    let ghost gv = names_view(given@);
    proof {
        match lookup(cfg, "names"@) {
            Some(OptValue::List(items)) => {
                assert(gv =~= given@.map_values(|v: Vec<char>| v@));
            },
            _ => {
                assert(gv =~= Seq::<Seq<char>>::empty());
            },
        }
    }
    // Stable insertion sort; names too long to measure are left out.
    let mut names: Vec<Vec<char>> = Vec::new();
    let mut g: usize = 0;
    proof {
        assert(names_view(names@) =~= sorted_names(gv, 0));
    }
    while g < given.len()
        invariant
            g <= given@.len(),
            gv == names_view(given@),
            names_view(names@) == sorted_names(gv, g as int),
            forall|k: int| 0 <= k < names@.len() ==> (#[trigger] names@[k])@.len() < usize::MAX / 4,
        decreases given@.len() - g,
    {
        let x = crate::text::slice_vec(&given[g], 0, given[g].len());
        proof {
            assert(x@ =~= gv[g as int]);
        }
        g += 1;
        if x.len() >= usize::MAX / 4 {
            continue;
        }
        let ghost nv = names_view(names@);
        let mut pos = names.len();
        while pos > 0 && name_before(&x, &names[pos - 1])
            invariant
                pos <= names@.len(),
                nv == names_view(names@),
                x@.len() < usize::MAX / 4,
                insert_at(nv, x@, pos as int) == insert_at(nv, x@, nv.len() as int),
                forall|k: int| 0 <= k < names@.len() ==> (#[trigger] names@[k])@.len() < usize::MAX / 4,
            decreases pos,
        {
            proof {
                assert(nv[pos - 1] == names@[pos - 1]@);
            }
            pos -= 1;
        }
        proof {
            if pos > 0 {
                assert(nv[pos - 1] == names@[pos - 1]@);
            }
            assert(insert_at(nv, x@, pos as int) == pos);
        }
        let ghost xv = x@;
        names.insert(pos, x);
        proof {
            assert(names_view(names@) =~= nv.insert(pos as int, xv));
            assert forall|k: int| 0 <= k < names@.len() implies (#[trigger] names@[k])@.len() < usize::MAX / 4 by {
                if k != pos as int {
                }
            }
        }
    }
    let ghost nms = names_view(names@);
    proof {
        assert(nms == md044_names(cfg));
    }
    if names.len() == 0 {
        return;
    }
    let include_code = p.config.opt_bool("code_blocks", true);
    let k3: [Kind; 3] = [Kind::Data, Kind::CodeFlowValue, Kind::CodeTextData];
    let k1: [Kind; 1] = [Kind::Data];
    proof {
        assert(k3@ =~= seq![Kind::Data, Kind::CodeFlowValue, Kind::CodeTextData]);
        assert(k1@ =~= seq![Kind::Data]);
    }
    let tokens = if include_code {
        collect(tree, &k3)
    } else {
        collect(tree, &k1)
    };
    let ghost toks = tokens@;
    proof {
        assert(toks == spec_collect(tk, tree.roots@, md044_kinds(cfg)));
    }
    let mut exclusions: Vec<(usize, usize, usize)> = Vec::new();
    let ghost mut st = Md044St { excl: Seq::empty(), reps: Seq::empty() };
    let mut ni: usize = 0;
    while ni < names.len()
        invariant
            ni <= names@.len(),
            params_ok(p),
            tree == p.tree,
            tk == tree.tokens@,
            n == p.lines@.len(),
            nms == names_view(names@),
            toks == tokens@,
            forall|k: int| 0 <= k < names@.len() ==> (#[trigger] names@[k])@.len() < usize::MAX / 4,
            forall|k: int| 0 <= k < tokens@.len() ==> #[trigger] tokens@[k] < tree.tokens@.len(),
            st == md044_all(tk, toks, nms, n as int, ni as int),
            exclusions@ == st.excl,
            appended(e0, emit.errors@, n as int),
            reports_are(e0, emit.errors@, st.reps),
        decreases names@.len() - ni,
    {
        let name = &names[ni];
        let ghost nm = name@;
        let ghost st0 = st;
        proof {
            assert(nms[ni as int] == nm);
        }
        let start_pat = if name.len() > 0 && !is_word_char(name[0]) {
            Vec::new()
        } else {
            super::lit("\\b_*")
        };
        let end_pat = if name.len() > 0 && !is_word_char(name[name.len() - 1]) {
            Vec::new()
        } else {
            super::lit("_*\\b")
        };
        let mut pattern = super::lit("(?i)(");
        super::concat(&mut pattern, &start_pat);
        super::concat(&mut pattern, &super::lit(")("));
        super::concat(&mut pattern, &regex_escape(name));
        super::concat(&mut pattern, &super::lit(")"));
        super::concat(&mut pattern, &end_pat);
        let pat = crate::text::string_of(&pattern);
        proof {
            assert(pat@ =~= md044_pattern(nm));
        }
        let mut ti: usize = 0;
        while ti < tokens.len()
            invariant
                ti <= tokens@.len(),
                params_ok(p),
                tree == p.tree,
                tk == tree.tokens@,
                n == p.lines@.len(),
                nms == names_view(names@),
                toks == tokens@,
                nm == name@,
                pat@ == md044_pattern(nm),
                forall|k: int| 0 <= k < tokens@.len() ==> #[trigger] tokens@[k] < tree.tokens@.len(),
                st == md044_tokens(st0, tk, toks, nm, nms, n as int, ti as int),
                exclusions@ == st.excl,
                appended(e0, emit.errors@, n as int),
                reports_are(e0, emit.errors@, st.reps),
            decreases tokens@.len() - ti,
        {
            let t = tree.get(tokens[ti]);
            let ghost st1 = st;
            let caps = re_captures_all(pat.as_str(), &t.text);
            let ghost cs = regex_captures_all(md044_pattern(nm), t.text@);
            proof {
                assert(cs.len() == caps@.len());
            }
            let mut m: usize = 0;
            while m < caps.len()
                invariant
                    m <= caps@.len(),
                    params_ok(p),
                    tree == p.tree,
                    tk == tree.tokens@,
                    n == p.lines@.len(),
                    nms == names_view(names@),
                    nm == name@,
                    cs.len() == caps@.len(),
                    forall|k: int| 0 <= k < caps@.len() ==> #[trigger] cs[k] == groups_view(caps@[k]@),
                    forall|k: int| 0 <= k < caps@.len() ==> {
                        &&& (#[trigger] caps@[k])@.len() >= 1
                        &&& caps@[k]@[0] is Some
                        &&& crate::re::groups_in(caps@[k]@, t.text@.len() as int)
                    },
                    st == md044_matches(st1, *t, nm, nms, cs, n as int, m as int),
                    exclusions@ == st.excl,
                    appended(e0, emit.errors@, n as int),
                    reports_are(e0, emit.errors@, st.reps),
                decreases caps@.len() - m,
            {
                let gr = &caps[m];
                let ghost gv2 = cs[m as int];
                let ghost mid = emit.errors@;
                proof {
                    assert(crate::re::groups_in(gr@, t.text@.len() as int));
                    assert(gv2 == groups_view(gr@));
                }
                let mut noted = false;
                let mut entry: (usize, usize, usize) = (0, 0, 0);
                if gr.len() >= 3 {
                    proof {
                        assert(gv2[0] == crate::re::span_view(gr@[0]));
                        assert(gv2[1] == crate::re::span_view(gr@[1]));
                        assert(gv2[2] == crate::re::span_view(gr@[2]));
                    }
                    match (gr[0], gr[2]) {
                        (Some((m_start, _)), Some((na, nb))) => {
                            proof {
                                assert(gr@[2] == Some((na, nb)));
                            }
                            let left = match gr[1] {
                                Some((a, b)) => {
                                    proof {
                                        assert(gr@[1] == Some((a, b)));
                                    }
                                    b - a
                                },
                                None => 0,
                            };
                            let name_match = crate::text::slice_vec(&t.text, na, nb);
                            let known = contains_text(&names, &name_match);
                            proof {
                                lemma_contains_views(names@, name_match@);
                            }
                            if !known {
                                let length = nb - na;
                                // Columns past `usize` are out of any line: not reported.
                                if let Some(x) = t.start_column.checked_add(m_start) {
                                    if let Some(column) = x.checked_add(left) {
                                        let line = t.start_line;
                                        let last_o = if length > 0 {
                                            column.checked_add(length - 1)
                                        } else {
                                            Some(column.saturating_sub(1))
                                        };
                                        if let Some(last) = last_o {
                                            let mut overlaps = false;
                                            let mut xi: usize = 0;
                                            while xi < exclusions.len()
                                                invariant
                                                    xi <= exclusions@.len(),
                                                    overlaps == exists|q: int|
                                                        0 <= q < xi && (#[trigger] exclusions@[q]).0 == line
                                                            && exclusions@[q].1 <= last && column <= exclusions@[q].2,
                                                decreases exclusions@.len() - xi,
                                            {
                                                let (l, s, e) = exclusions[xi];
                                                if l == line && s <= last && column <= e {
                                                    overlaps = true;
                                                }
                                                xi += 1;
                                            }
                                            if !overlaps {
                                                let fix_text = crate::text::slice_vec(name, 0, name.len());
                                                proof {
                                                    assert(fix_text@ =~= nm);
                                                }
                                                emit.add_detail_if_checked(
                                                    n,
                                                    line,
                                                    name,
                                                    &name_match,
                                                    None,
                                                    None,
                                                    Some((column, length)),
                                                    Some(
                                                        FixInfo {
                                                            line_number: None,
                                                            edit_column: Some(column),
                                                            delete_count: Some(length as i64),
                                                            insert_text: Some(fix_text),
                                                        },
                                                    ),
                                                );
                                            }
                                            entry = (line, column, last);
                                            noted = true;
                                        }
                                    }
                                }
                            }
                        },
                        _ => {},
                    }
                }
                if noted {
                    exclusions.push(entry);
                }
                proof {
                    let nst = md044_match(st, *t, nm, nms, gv2, n as int);
                    if emit.errors@ != mid {
                        lemma_reports_push(e0, mid, st.reps, emit.errors@.last());
                    }
                    assert(nst.reps == (if emit.errors@ != mid { st.reps.push(report_of(emit.errors@.last())) } else { st.reps }));
                    assert(exclusions@ == nst.excl);
                    st = nst;
                }
                m += 1;
            }
            proof {
                assert(st == md044_tokens(st0, tk, toks, nm, nms, n as int, ti + 1));
            }
            ti += 1;
        }
        ni += 1;
    }
}

} // verus!
