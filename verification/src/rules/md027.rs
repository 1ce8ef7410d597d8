//! MD027 — no-multiple-space-blockquote.

use vstd::prelude::*;

use crate::md::kind::Kind;
use crate::md::tokens::{Token, ancestor_of_type, filter_idx_upto};
use super::helpers::spec_ellipsify;
use super::options::{OptValue, lookup, spec_opt_bool};
use super::{
    Emit, FixInfo, Params, RuleError, appended, error_is, lemma_appended_refl, lemma_appended_step, params_ok,
};

verus! {

fn is_list(k: Kind) -> (r: bool)
    ensures
        r == (k == Kind::ListOrdered || k == Kind::ListUnordered),
{
    k == Kind::ListOrdered || k == Kind::ListUnordered
}

/// The line prefixes, in document order.
pub open spec fn line_prefix_ids(tokens: Seq<Token>) -> Seq<usize> {
    filter_idx_upto(tokens, seq![Kind::LinePrefix], tokens.len() as int)
}

/// The index of the first `x` in `s[i..]` (the length when absent).
pub open spec fn index_from(s: Seq<usize>, x: usize, i: int) -> int
    decreases s.len() - i,
{
    if i < 0 || i >= s.len() || s[i] == x {
        i
    } else {
        index_from(s, x, i + 1)
    }
}

/// Whether the `c`-th line prefix is reported: it follows a block-quote
/// prefix among its siblings (outside indented code), and, unless
/// `list_items`, no list follows or encloses it; its line is in the
/// document.
pub open spec fn md027_reports(tokens: Seq<Token>, roots: Seq<usize>, cfg: Seq<(Vec<char>, OptValue)>, n: int, c: int) -> bool {
    let token = line_prefix_ids(tokens)[c];
    let t = tokens[token as int];
    let in_code = match t.parent {
        Some(q) => tokens[q as int].kind == Kind::CodeIndented,
        None => false,
    };
    let sibs = match t.parent {
        Some(q) => tokens[q as int].children@,
        None => roots,
    };
    let pos = index_from(sibs, token, 0);
    let next_is_list = pos + 1 < sibs.len() && sibs[pos + 1] < tokens.len() && (tokens[sibs[pos + 1] as int].kind
        == Kind::ListOrdered || tokens[sibs[pos + 1] as int].kind == Kind::ListUnordered);
    let in_list = ancestor_of_type(tokens, token as int, seq![Kind::ListOrdered, Kind::ListUnordered]) is Some;
    &&& !in_code
    &&& pos < sibs.len() && pos != 0
    &&& sibs[pos - 1] < tokens.len() && tokens[sibs[pos - 1] as int].kind == Kind::BlockQuotePrefix
    &&& (spec_opt_bool(lookup(cfg, "list_items"@), true) || (!next_is_list && !in_list))
    &&& 1 <= t.start_line <= n
}

/// The positions of the first `c` line prefixes reported.
pub open spec fn md027_list(tokens: Seq<Token>, roots: Seq<usize>, cfg: Seq<(Vec<char>, OptValue)>, n: int, c: int) -> Seq<int>
    decreases c,
{
    if c <= 0 {
        Seq::empty()
    } else {
        let prev = md027_list(tokens, roots, cfg, n, c - 1);
        if md027_reports(tokens, roots, cfg, n, c - 1) {
            prev.push(c - 1)
        } else {
            prev
        }
    }
}

/// The problem reported for the `c`-th line prefix: the line as context,
/// the extra spaces as range, and a fix that deletes them.
pub open spec fn md027_error(e: RuleError, lines: Seq<Vec<char>>, tokens: Seq<Token>, c: int) -> bool {
    let t = tokens[line_prefix_ids(tokens)[c] as int];
    let length = t.text@.len();
    error_is(
        e,
        t.start_line,
        None,
        Some(spec_ellipsify(lines[t.start_line - 1]@, false, false)),
        Some((t.start_column, length as usize)),
        Some(FixInfo { line_number: None, edit_column: Some(t.start_column), delete_count: Some(length as i64), insert_text: None }),
    )
}

/// What `md027` reports: the problems it appends to `old_errors`.
pub open spec fn md027_reported(p: &Params, old_errors: Seq<RuleError>, new_errors: Seq<RuleError>) -> bool {
    ({
        let toks = p.tree.tokens@;
        let reported = md027_list(toks, p.tree.roots@, p.config.entries@, p.lines@.len() as int, line_prefix_ids(toks).len() as int);
        let base = old_errors.len();
        &&& new_errors.len() == base + reported.len()
        &&& forall|j: int|
            0 <= j < reported.len() ==> md027_error(#[trigger] new_errors[base + j], p.lines@, toks, reported[j])
    })
}

/// Report a `linePrefix` right after a `blockQuotePrefix` (extra spaces
/// after `>`), outside indented code; with `list_items` false, not where a
/// list follows or encloses it. The fix deletes the extra spaces.
pub fn md027(p: &Params, emit: &mut Emit)
    requires
        params_ok(p),
    ensures
        appended(old(emit).errors@, final(emit).errors@, p.lines@.len() as int),
        md027_reported(p, old(emit).errors@, final(emit).errors@),
{
    let include_list_items = p.config.opt_bool("list_items", true);
    let tree = p.tree;
    let n = p.lines.len();
    let lp_kinds: [Kind; 1] = [Kind::LinePrefix];
    let list_kinds: [Kind; 2] = [Kind::ListOrdered, Kind::ListUnordered];
    proof {
        assert(lp_kinds@ =~= seq![Kind::LinePrefix]);
        assert(list_kinds@ =~= seq![Kind::ListOrdered, Kind::ListUnordered]);
    }
    let prefixes = tree.filter_idx(&lp_kinds);
    let ghost toks = tree.tokens@;
    let ghost lines = p.lines@;
    let ghost cfg = p.config.entries@;
    let ghost roots = tree.roots@;
    let ghost e0 = emit.errors@;
    proof {
        lemma_appended_refl(e0, n as int);
    }
    let mut c: usize = 0;
    while c < prefixes.len()
        invariant
            c <= prefixes@.len(),
            n == p.lines@.len(),
            params_ok(p),
            tree == p.tree,
            toks == tree.tokens@,
            lines == p.lines@,
            cfg == p.config.entries@,
            roots == tree.roots@,
            prefixes@ == line_prefix_ids(toks),
            list_kinds@ == seq![Kind::ListOrdered, Kind::ListUnordered],
            include_list_items == spec_opt_bool(lookup(cfg, "list_items"@), true),
            forall|k: int| 0 <= k < prefixes@.len() ==> #[trigger] prefixes@[k] < tree.tokens@.len(),
            appended(e0, emit.errors@, n as int),
            emit.errors@.len() == e0.len() + md027_list(toks, roots, cfg, n as int, c as int).len(),
            forall|j: int|
                0 <= j < md027_list(toks, roots, cfg, n as int, c as int).len() ==> md027_error(
                    #[trigger] emit.errors@[e0.len() + j],
                    lines,
                    toks,
                    md027_list(toks, roots, cfg, n as int, c as int)[j],
                ),
        decreases prefixes@.len() - c,
    {
        let token = prefixes[c];
        let ghost prev_list = md027_list(toks, roots, cfg, n as int, c as int);
        let ghost mid = emit.errors@;
        let ghost cur = md027_list(toks, roots, cfg, n as int, c + 1);
        let ghost rep = md027_reports(toks, roots, cfg, n as int, c as int);
        proof {
            if rep {
                assert(cur == prev_list.push(c as int));
            } else {
                assert(cur == prev_list);
            }
        }
        let parent = tree.get(token).parent;
        proof {
            tree.lemma_node(token as int);
        }
        let siblings: &Vec<usize> = match parent {
            Some(q) => {
                if tree.get(q).kind == Kind::CodeIndented {
                    c += 1;
                    continue;
                }
                &tree.tokens[q].children
            },
            None => &tree.roots,
        };
        let mut pos: usize = 0;
        while pos < siblings.len() && siblings[pos] != token
            invariant
                pos <= siblings@.len(),
                index_from(siblings@, token, pos as int) == index_from(siblings@, token, 0),
            decreases siblings@.len() - pos,
        {
            pos += 1;
        }
        if pos == siblings.len() || pos == 0 {
            c += 1;
            continue;
        }
        let prev = siblings[pos - 1];
        if prev >= tree.tokens.len() || tree.get(prev).kind != Kind::BlockQuotePrefix {
            c += 1;
            continue;
        }
        let next_is_list = pos + 1 < siblings.len() && siblings[pos + 1] < tree.tokens.len()
            && is_list(tree.get(siblings[pos + 1]).kind);
        let in_list = tree.parent_of_type(token, &list_kinds).is_some();
        if include_list_items || (!next_is_list && !in_list) {
            let t = tree.get(token);
            let length = t.text.len();
            if t.start_line >= 1 && t.start_line <= n {
                emit.add_context(
                    t.start_line,
                    &p.lines[t.start_line - 1],
                    false,
                    false,
                    Some((t.start_column, length)),
                    Some(FixInfo::delete(t.start_column, length as i64)),
                );
                proof {
                    lemma_appended_step(e0, mid, emit.errors@, n as int, t.start_line);
                }
            }
        }
        proof {
            assert forall|j: int| 0 <= j < cur.len() implies md027_error(
                #[trigger] emit.errors@[e0.len() + j],
                lines,
                toks,
                cur[j],
            ) by {
                if j < prev_list.len() {
                    assert(emit.errors@[e0.len() + j] == mid[e0.len() + j]);
                }
            }
        }
        c += 1;
    }
}

} // verus!
