//! MD028 — no-blanks-blockquote.

use vstd::prelude::*;

use super::RuleError;

use crate::md::kind::Kind;
use crate::md::tokens::{Token, filter_idx_upto};
use super::{
    Emit, Params, appended, in_range, lemma_appended_refl, lemma_lines_concat, lemma_lines_push,
    lemma_lines_start, lines_reported, params_ok,
};

verus! {

/// The block quotes.
pub open spec fn block_quote_ids(tokens: Seq<Token>) -> Seq<usize> {
    filter_idx_upto(tokens, seq![Kind::BlockQuote], tokens.len() as int)
}

/// The tokens beside token `i`: its parent's children, or the top-level
/// tokens.
pub open spec fn siblings_spec(tokens: Seq<Token>, roots: Seq<usize>, i: int) -> Seq<usize> {
    match tokens[i].parent {
        Some(q) => tokens[q as int].children@,
        None => roots,
    }
}

/// The first position from `i` on where `s` holds `x`, or `s.len()`.
pub open spec fn index_from(s: Seq<usize>, x: usize, i: int) -> int
    decreases s.len() - i,
{
    if i < 0 || i >= s.len() {
        s.len() as int
    } else if s[i] == x {
        i
    } else {
        index_from(s, x, i + 1)
    }
}

/// From sibling `j` on: the lines of the blank lines met, and whether a
/// block quote follows them with only line endings, indents and prefixes
/// between.
pub open spec fn md028_scan(tokens: Seq<Token>, sibs: Seq<usize>, j: int) -> (Seq<usize>, bool)
    decreases sibs.len() - j,
{
    if j < 0 || j >= sibs.len() || sibs[j] >= tokens.len() {
        (Seq::empty(), false)
    } else {
        let t = tokens[sibs[j] as int];
        if t.kind == Kind::LineEndingBlank {
            let r = md028_scan(tokens, sibs, j + 1);
            (seq![t.start_line] + r.0, r.1)
        } else if t.kind == Kind::LineEnding || t.kind == Kind::ListItemIndent || t.kind == Kind::LinePrefix {
            md028_scan(tokens, sibs, j + 1)
        } else {
            (Seq::empty(), t.kind == Kind::BlockQuote)
        }
    }
}

/// The lines reported after the `c`-th block quote: the blank lines
/// between it and a following block quote.
pub open spec fn md028_bq(tokens: Seq<Token>, roots: Seq<usize>, n: int, c: int) -> Seq<usize> {
    let bq = block_quote_ids(tokens)[c];
    let sibs = siblings_spec(tokens, roots, bq as int);
    let pos = index_from(sibs, bq, 0);
    let r = md028_scan(tokens, sibs, pos + 1);
    if pos < sibs.len() && r.1 {
        in_range(r.0, n)
    } else {
        Seq::empty()
    }
}

/// The lines reported after the first `c` block quotes.
pub open spec fn md028_upto(tokens: Seq<Token>, roots: Seq<usize>, n: int, c: int) -> Seq<usize>
    decreases c,
{
    if c <= 0 {
        Seq::empty()
    } else {
        md028_upto(tokens, roots, n, c - 1) + md028_bq(tokens, roots, n, c - 1)
    }
}

/// What `md028` reports: the problems it appends to `old_errors`.
pub open spec fn md028_reported(p: &Params, old_errors: Seq<RuleError>, new_errors: Seq<RuleError>) -> bool {
    lines_reported(
        old_errors,
        new_errors,
        md028_upto(
            p.tree.tokens@,
            p.tree.roots@,
            p.lines@.len() as int,
            block_quote_ids(p.tree.tokens@).len() as int,
        ),
    )
}

/// Report the blank lines between two block quotes that only blank lines
/// and line prefixes separate.
pub fn md028(p: &Params, emit: &mut Emit)
    requires
        params_ok(p),
    ensures
        appended(old(emit).errors@, final(emit).errors@, p.lines@.len() as int),
        md028_reported(p, old(emit).errors@, final(emit).errors@),
{
    let tree = p.tree;
    let n = p.lines.len();
    let kinds: [Kind; 1] = [Kind::BlockQuote];
    proof {
        assert(kinds@ =~= seq![Kind::BlockQuote]);
    }
    let bqs = tree.filter_idx(&kinds);
    let ghost toks = tree.tokens@;
    let ghost roots = tree.roots@;
    let ghost e0 = emit.errors@;
    proof {
        lemma_appended_refl(e0, n as int);
        lemma_lines_start(e0);
    }
    let mut c: usize = 0;
    while c < bqs.len()
        invariant
            c <= bqs@.len(),
            params_ok(p),
            tree == p.tree,
            toks == tree.tokens@,
            roots == tree.roots@,
            n == p.lines@.len(),
            bqs@ == block_quote_ids(toks),
            forall|k: int| 0 <= k < bqs@.len() ==> #[trigger] bqs@[k] < tree.tokens@.len(),
            appended(e0, emit.errors@, n as int),
            lines_reported(e0, emit.errors@, md028_upto(toks, roots, n as int, c as int)),
        decreases bqs@.len() - c,
    {
        let bq = bqs[c];
        let ghost mid = emit.errors@;
        proof {
            lemma_lines_start(mid);
        }
        let siblings: &Vec<usize> = match tree.get(bq).parent {
            Some(q) => {
                proof {
                    tree.lemma_node(bq as int);
                }
                &tree.tokens[q].children
            },
            None => &tree.roots,
        };
        let ghost sibs = siblings@;
        proof {
            assert(sibs == siblings_spec(toks, roots, bq as int));
        }
        let mut pos: usize = 0;
        while pos < siblings.len() && siblings[pos] != bq
            invariant
                pos <= siblings@.len(),
                index_from(siblings@, bq, pos as int) == index_from(siblings@, bq, 0),
            decreases siblings@.len() - pos,
        {
            pos += 1;
        }
        proof {
            assert(index_from(sibs, bq, pos as int) == pos);
        }
        if pos < siblings.len() {
            let mut error_lines: Vec<usize> = Vec::new();
            let mut j = pos + 1;
            let mut closed = false;
            let mut done = false;
            while j < siblings.len() && !done
                invariant
                    pos < j <= siblings@.len(),
                    sibs == siblings@,
                    tree == p.tree,
                    toks == tree.tokens@,
                    !done ==> md028_scan(toks, sibs, pos + 1) == (
                    error_lines@ + md028_scan(toks, sibs, j as int).0, md028_scan(toks, sibs, j as int).1),
                    done ==> md028_scan(toks, sibs, pos + 1) == (error_lines@, closed),
                    !done ==> !closed,
                decreases siblings@.len() - j + (if done { 0int } else { 1int }),
            {
                let sib = siblings[j];
                if sib >= tree.tokens.len() {
                    done = true;
                } else {
                    let t = tree.get(sib);
                    if t.kind == Kind::LineEndingBlank {
                        let ghost before = error_lines@;
                        error_lines.push(t.start_line);
                        proof {
                            let r = md028_scan(toks, sibs, j + 1);
                            assert(before + (seq![t.start_line] + r.0) =~= error_lines@ + r.0);
                        }
                        j += 1;
                    } else if t.kind == Kind::LineEnding || t.kind == Kind::ListItemIndent || t.kind
                        == Kind::LinePrefix {
                        j += 1;
                    } else {
                        closed = t.kind == Kind::BlockQuote;
                        done = true;
                        proof {
                            assert(error_lines@ + Seq::<usize>::empty() =~= error_lines@);
                        }
                    }
                }
                if done {
                    proof {
                        assert(error_lines@ + Seq::<usize>::empty() =~= error_lines@);
                    }
                }
            }
            if !done {
                proof {
                    assert(error_lines@ + Seq::<usize>::empty() =~= error_lines@);
                }
            }
            proof {
                assert(md028_scan(toks, sibs, pos + 1) == (error_lines@, closed));
            }
            if closed {
                let mut e: usize = 0;
                while e < error_lines.len()
                    invariant
                        e <= error_lines@.len(),
                        n == p.lines@.len(),
                        appended(e0, emit.errors@, n as int),
                        lines_reported(mid, emit.errors@, in_range(error_lines@.take(e as int), n as int)),
                    decreases error_lines@.len() - e,
                {
                    let ghost m2 = emit.errors@;
                    let ghost before = in_range(error_lines@.take(e as int), n as int);
                    proof {
                        assert(error_lines@.take(e + 1).drop_last() =~= error_lines@.take(e as int));
                    }
                    emit.add_checked(n, error_lines[e], None, None, None, None);
                    proof {
                        if 1 <= error_lines@[e as int] <= n {
                            lemma_lines_push(mid, m2, before, emit.errors@.last());
                        }
                    }
                    e += 1;
                }
                proof {
                    assert(error_lines@.take(error_lines@.len() as int) =~= error_lines@);
                }
            }
        }
        proof {
            let b = md028_bq(toks, roots, n as int, c as int);
            lemma_lines_concat(e0, mid, emit.errors@, md028_upto(toks, roots, n as int, c as int), b);
        }
        c += 1;
    }
}

} // verus!
