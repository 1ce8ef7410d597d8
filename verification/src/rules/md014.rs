//! MD014 — commands-show-output: `$` before commands without output.

use vstd::prelude::*;

use crate::md::kind::Kind;
use crate::md::tokens::{Token, filter_idx_upto, filter_kinds};
use crate::re::{re_captures, regex_captures};
use super::helpers::spec_ellipsify;
use super::{Emit, FixInfo, Params, RuleError, appended, error_is, lemma_appended_refl, params_ok};

verus! {

/// The `$ ` prompt of a code line: (column offset of the `$`, length of the
/// `$` and the whitespace after it), as `^(\s*)(\$\s+)` captures it.
pub open spec fn spec_dollar_prompt(text: Seq<char>) -> Option<(int, int)> {
    match regex_captures("^(\\s*)(\\$\\s+)"@, text) {
        Some(g) => if g.len() < 3 {
            None
        } else {
            match (g[1], g[2]) {
                (Some((a1, b1)), Some((a2, b2))) => Some((b1 - a1, b2 - a2)),
                _ => None,
            }
        },
        None => None,
    }
}

/// The `$ ` prompt of a code line.
fn dollar_prompt(text: &[char]) -> (r: Option<(usize, usize)>)
    ensures
        match r {
            Some((g1, g2)) => spec_dollar_prompt(text@) == Some((g1 as int, g2 as int)),
            None => spec_dollar_prompt(text@) is None,
        },
{
    proof {
        reveal_strlit("^(\\s*)(\\$\\s+)");
    }
    match re_captures("^(\\s*)(\\$\\s+)", text) {
        Some(g) => {
            if g.len() < 3 {
                return None;
            }
            proof {
                assert(crate::re::groups_in(g@, text@.len() as int));
                assert(g@[1] == g[1]);
                assert(g@[2] == g[2]);
                assert(crate::re::groups_view(g@)[1] == crate::re::span_view(g[1]));
                assert(crate::re::groups_view(g@)[2] == crate::re::span_view(g[2]));
            }
            match (g[1], g[2]) {
                (Some((a1, b1)), Some((a2, b2))) => Some((b1 - a1, b2 - a2)),
                _ => None,
            }
        },
        None => None,
    }
}

/// The code blocks, in document order.
pub open spec fn md014_block_ids(tokens: Seq<Token>) -> Seq<usize> {
    filter_idx_upto(tokens, seq![Kind::CodeFenced, Kind::CodeIndented], tokens.len() as int)
}

/// The code lines of the `c`-th code block.
pub open spec fn block_values(tokens: Seq<Token>, c: int) -> Seq<usize> {
    let ch = tokens[md014_block_ids(tokens)[c] as int].children@;
    filter_kinds(tokens, ch, seq![Kind::CodeFlowValue], ch.len() as int)
}

/// Every code line of the `c`-th block starts with a `$` prompt (and there
/// is one).
pub open spec fn all_prompted(tokens: Seq<Token>, c: int) -> bool {
    let vs = block_values(tokens, c);
    vs.len() > 0 && forall|k: int| 0 <= k < vs.len() ==> #[trigger] spec_dollar_prompt(tokens[vs[k] as int].text@) is Some
}

/// Whether the `k`-th code line of the `c`-th block is reported: every line
/// of the block has a prompt, and its column and line are in range.
pub open spec fn md014_reports(tokens: Seq<Token>, n: int, c: int, k: int) -> bool {
    let t = tokens[block_values(tokens, c)[k] as int];
    let (g1, g2) = spec_dollar_prompt(t.text@)->0;
    all_prompted(tokens, c) && t.start_column <= usize::MAX - g1 && 1 <= t.start_line <= n
}

/// The reported code lines among the first `k` of the `c`-th block.
pub open spec fn md014_block_list(tokens: Seq<Token>, n: int, c: int, k: int) -> Seq<int>
    decreases k,
{
    if k <= 0 {
        Seq::empty()
    } else {
        let prev = md014_block_list(tokens, n, c, k - 1);
        if md014_reports(tokens, n, c, k - 1) {
            prev.push(k - 1)
        } else {
            prev
        }
    }
}

/// The problems of the first `c` blocks: (block, code line) pairs.
pub open spec fn md014_list(tokens: Seq<Token>, n: int, c: int) -> Seq<(int, int)>
    decreases c,
{
    if c <= 0 {
        Seq::empty()
    } else {
        md014_list(tokens, n, c - 1) + md014_block_list(tokens, n, c - 1, block_values(tokens, c - 1).len() as int).map_values(
            |k: int| (c - 1, k),
        )
    }
}

/// The problem reported for event `ev`: the code line as context, the
/// prompt as range, and a fix that deletes it.
pub open spec fn md014_error(e: RuleError, tokens: Seq<Token>, ev: (int, int)) -> bool {
    let t = tokens[block_values(tokens, ev.0)[ev.1] as int];
    let (g1, g2) = spec_dollar_prompt(t.text@)->0;
    let column = t.start_column + g1;
    error_is(
        e,
        t.start_line,
        None,
        Some(spec_ellipsify(t.text@, false, false)),
        Some((column as usize, g2 as usize)),
        Some(FixInfo { line_number: None, edit_column: Some(column as usize), delete_count: Some(g2 as i64), insert_text: None }),
    )
}

/// What `md014` reports: the problems it appends to `old_errors`.
pub open spec fn md014_reported(p: &Params, old_errors: Seq<RuleError>, new_errors: Seq<RuleError>) -> bool {
    ({
        let toks = p.tree.tokens@;
        let reported = md014_list(toks, p.lines@.len() as int, md014_block_ids(toks).len() as int);
        let base = old_errors.len();
        &&& new_errors.len() == base + reported.len()
        &&& forall|j: int|
            0 <= j < reported.len() ==> md014_error(#[trigger] new_errors[base + j], toks, reported[j])
    })
}

/// Report the `$` prompts of a code block whose every line starts with
/// one (no output shown); the fix deletes the prompt.
pub fn md014(p: &Params, emit: &mut Emit)
    requires
        params_ok(p),
    ensures
        appended(old(emit).errors@, final(emit).errors@, p.lines@.len() as int),
        md014_reported(p, old(emit).errors@, final(emit).errors@),
{
    let tree = p.tree;
    let n = p.lines.len();
    let kinds: [Kind; 2] = [Kind::CodeFenced, Kind::CodeIndented];
    proof {
        assert(kinds@ =~= seq![Kind::CodeFenced, Kind::CodeIndented]);
    }
    let cbs = tree.filter_idx(&kinds);
    let ghost toks = tree.tokens@;
    let ghost e0 = emit.errors@;
    proof {
        lemma_appended_refl(e0, n as int);
    }
    let mut c: usize = 0;
    while c < cbs.len()
        invariant
            c <= cbs@.len(),
            params_ok(p),
            tree == p.tree,
            toks == tree.tokens@,
            cbs@ == md014_block_ids(toks),
            n == p.lines@.len(),
            forall|k: int| 0 <= k < cbs@.len() ==> #[trigger] cbs@[k] < tree.tokens@.len(),
            appended(e0, emit.errors@, n as int),
            emit.errors@.len() == e0.len() + md014_list(toks, n as int, c as int).len(),
            forall|j: int|
                0 <= j < md014_list(toks, n as int, c as int).len() ==> md014_error(
                    #[trigger] emit.errors@[e0.len() + j],
                    toks,
                    md014_list(toks, n as int, c as int)[j],
                ),
        decreases cbs@.len() - c,
    {
        let cb = cbs[c];
        let ghost prev = md014_list(toks, n as int, c as int);
        let ghost mid = emit.errors@;
        let ghost vs = block_values(toks, c as int);
        let children = &tree.tokens[cb].children;
        let mut values: usize = 0;
        let mut found: Vec<(usize, usize, usize)> = Vec::new();
        let mut j: usize = 0;
        while j < children.len()
            invariant
                j <= children@.len(),
                values <= j,
                tree.wf(),
                toks == tree.tokens@,
                cb < tree.tokens@.len(),
                children@ == tree.tokens@[cb as int].children@,
                values == filter_kinds(toks, children@, seq![Kind::CodeFlowValue], j as int).len(),
                found@.len() <= values,
                forall|k: int|
                    0 <= k < found@.len() ==> spec_dollar_prompt(toks[(#[trigger] found@[k]).0 as int].text@) == Some(
                        (found@[k].1 as int, found@[k].2 as int),
                    ),
                found@.len() == values ==> forall|k: int|
                    0 <= k < found@.len() ==> (#[trigger] found@[k]).0 == filter_kinds(
                        toks,
                        children@,
                        seq![Kind::CodeFlowValue],
                        j as int,
                    )[k],
                found@.len() < values ==> exists|k: int|
                    0 <= k < values && #[trigger] spec_dollar_prompt(
                        toks[filter_kinds(toks, children@, seq![Kind::CodeFlowValue], j as int)[k] as int].text@,
                    ) is None,
                forall|k: int| 0 <= k < found@.len() ==> #[trigger] found@[k].0 < tree.tokens@.len(),
            decreases children@.len() - j,
        {
            proof {
                tree.lemma_child(cb as int, j as int);
            }
            let v = children[j];
            let t = tree.get(v);
            let ghost fk = filter_kinds(toks, children@, seq![Kind::CodeFlowValue], j as int);
            let ghost fk2 = filter_kinds(toks, children@, seq![Kind::CodeFlowValue], j + 1);
            let ghost found0 = found@;
            proof {
                let kk = seq![Kind::CodeFlowValue];
                assert(kk[0] == Kind::CodeFlowValue);
                if t.kind == Kind::CodeFlowValue {
                    assert(kk.contains(t.kind));
                    assert(fk2 == fk.push(v));
                } else {
                    assert(!kk.contains(t.kind));
                    assert(fk2 == fk);
                }
            }
            if t.kind == Kind::CodeFlowValue {
                values = values + 1;
                match dollar_prompt(&t.text) {
                    Some((g1, g2)) => found.push((v, g1, g2)),
                    None => {},
                }
                proof {
                    if found0.len() < fk.len() {
                        let w = choose|k: int|
                            0 <= k < fk.len() && #[trigger] spec_dollar_prompt(toks[fk[k] as int].text@) is None;
                        assert(fk2[w] == fk[w]);
                    }
                    if found@.len() < values && found0.len() == fk.len() {
                        assert(spec_dollar_prompt(toks[fk2[fk.len() as int] as int].text@) is None);
                    }
                    if found@.len() == values {
                        assert forall|k: int| 0 <= k < found@.len() implies (#[trigger] found@[k]).0 == fk2[k] by {
                            if k < found0.len() {
                                assert(found@[k] == found0[k]);
                                assert(fk2[k] == fk[k]);
                            }
                        }
                    }
                }
            }
            j += 1;
        }
        proof {
            assert(vs == filter_kinds(toks, children@, seq![Kind::CodeFlowValue], children@.len() as int));
        }
        if values > 0 && found.len() == values {
            proof {
                assert forall|k: int| 0 <= k < vs.len() implies #[trigger] spec_dollar_prompt(toks[vs[k] as int].text@) is Some by {
                    assert(found@[k].0 == vs[k]);
                }
                assert(all_prompted(toks, c as int));
            }
            let mut k: usize = 0;
            while k < found.len()
                invariant
                    k <= found@.len(),
                    found@.len() == vs.len(),
                    vs == block_values(toks, c as int),
                    all_prompted(toks, c as int),
                    params_ok(p),
                    tree == p.tree,
                    toks == tree.tokens@,
                    n == p.lines@.len(),
                    forall|q: int|
                        0 <= q < found@.len() ==> {
                            &&& (#[trigger] found@[q]).0 == vs[q]
                            &&& spec_dollar_prompt(toks[found@[q].0 as int].text@) == Some((found@[q].1 as int, found@[q].2 as int))
                        },
                    forall|q: int| 0 <= q < found@.len() ==> #[trigger] found@[q].0 < tree.tokens@.len(),
                    appended(e0, emit.errors@, n as int),
                    emit.errors@.len() == mid.len() + md014_block_list(toks, n as int, c as int, k as int).len(),
                    mid.len() == e0.len() + prev.len(),
                    forall|j: int| 0 <= j < mid.len() - e0.len() ==> #[trigger] emit.errors@[e0.len() + j] == mid[e0.len() + j],
                    forall|j: int|
                        0 <= j < md014_block_list(toks, n as int, c as int, k as int).len() ==> md014_error(
                            #[trigger] emit.errors@[mid.len() + j],
                            toks,
                            (c as int, md014_block_list(toks, n as int, c as int, k as int)[j]),
                        ),
                decreases found@.len() - k,
            {
                let (v, g1, g2) = found[k];
                let t = tree.get(v);
                let ghost before = emit.errors@;
                proof {
                    assert(found@[k as int] == (v, g1, g2));
                    assert(v == vs[k as int]);
                    assert(spec_dollar_prompt(t.text@) == Some((g1 as int, g2 as int)));
                    assert(toks[vs[k as int] as int] == *t);
                    assert(md014_reports(toks, n as int, c as int, k as int) == (t.start_column <= usize::MAX - g1
                        && 1 <= t.start_line <= n));
                }
                if t.start_column <= usize::MAX - g1 {
                    let column = t.start_column + g1;
                    emit.add_context_checked(
                        n,
                        t.start_line,
                        &t.text,
                        false,
                        false,
                        Some((column, g2)),
                        Some(FixInfo::delete(column, g2 as i64)),
                    );
                }
                proof {
                    let bl = md014_block_list(toks, n as int, c as int, k as int);
                    let bl2 = md014_block_list(toks, n as int, c as int, k + 1);
                    if md014_reports(toks, n as int, c as int, k as int) {
                        assert(bl2 == bl.push(k as int));
                    } else {
                        assert(bl2 == bl);
                        assert(emit.errors@ == before);
                    }
                    assert forall|j: int| 0 <= j < bl2.len() implies md014_error(
                        #[trigger] emit.errors@[mid.len() + j],
                        toks,
                        (c as int, bl2[j]),
                    ) by {
                        if j < bl.len() {
                            assert(emit.errors@[mid.len() + j] == before[mid.len() + j]);
                        }
                    }
                    assert forall|j: int| 0 <= j < mid.len() - e0.len() implies #[trigger] emit.errors@[e0.len() + j] == mid[e0.len() + j] by {
                        assert(emit.errors@[e0.len() + j] == before[e0.len() + j]);
                    }
                }
                k += 1;
            }
        } else {
            proof {
                if values > 0 {
                    let w = choose|k: int|
                        0 <= k < vs.len() && #[trigger] spec_dollar_prompt(toks[vs[k] as int].text@) is None;
                    assert(spec_dollar_prompt(toks[vs[w] as int].text@) is None);
                }
                assert(!all_prompted(toks, c as int));
                assert(md014_block_list(toks, n as int, c as int, vs.len() as int) =~= Seq::<int>::empty()) by {
                    lemma_block_list_empty(toks, n as int, c as int, vs.len() as int);
                }
            }
        }
        proof {
            let bl = md014_block_list(toks, n as int, c as int, vs.len() as int);
            let cur = md014_list(toks, n as int, c + 1);
            assert(cur == prev + bl.map_values(|k: int| (c as int, k)));
            assert forall|j: int| 0 <= j < cur.len() implies md014_error(
                #[trigger] emit.errors@[e0.len() + j],
                toks,
                cur[j],
            ) by {
                if j < prev.len() {
                    assert(emit.errors@[e0.len() + j] == mid[e0.len() + j]);
                } else {
                    assert(cur[j] == (c as int, bl[j - prev.len()]));
                    assert(emit.errors@[e0.len() + j] == emit.errors@[mid.len() + (j - prev.len())]);
                }
            }
        }
        c += 1;
    }
}

/// A block whose lines do not all have a prompt reports nothing.
proof fn lemma_block_list_empty(tokens: Seq<Token>, n: int, c: int, k: int)
    requires
        !all_prompted(tokens, c),
    ensures
        md014_block_list(tokens, n, c, k) == Seq::<int>::empty(),
    decreases k,
{
    if k > 0 {
        lemma_block_list_empty(tokens, n, c, k - 1);
    }
}

} // verus!
