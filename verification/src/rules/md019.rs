//! MD019 — no-multiple-space-atx, and MD021 —
//! no-multiple-space-closed-atx.

use vstd::prelude::*;

use crate::md::kind::Kind;
use crate::md::tokens::{HeadingStyle, Token, filter_idx_upto, spec_heading_style};
use super::helpers::{spec_ellipsify, spec_trim, trim};
use super::{Emit, FixInfo, Params, RuleError, appended, error_is, lemma_appended_refl, params_ok};

verus! {

/// Scanning the children `ch` from the start (or from the end), from the
/// `k`-th on: the position of the first hash sequence met.
pub open spec fn sequence_pos(tokens: Seq<Token>, ch: Seq<usize>, from_end: bool, k: int) -> Option<int>
    decreases ch.len() - k,
{
    if k < 0 || k >= ch.len() {
        None
    } else {
        let i = if from_end {
            ch.len() - 1 - k
        } else {
            k
        };
        if tokens[ch[i] as int].kind == Kind::AtxHeadingSequence {
            Some(i)
        } else {
            sequence_pos(tokens, ch, from_end, k + 1)
        }
    }
}

/// The whitespace token checked for heading `h`: the child next to the
/// opening hashes (or before the closing ones, `from_end`), with the
/// column and length of what a fix deletes; none when it is not more than
/// one space.
pub open spec fn extra_space(tokens: Seq<Token>, h: usize, from_end: bool) -> Option<(Token, int, int)> {
    let ch = tokens[h as int].children@;
    match sequence_pos(tokens, ch, from_end, 0) {
        Some(index) => {
            let ok = if from_end {
                index != 0
            } else {
                index + 1 < ch.len()
            };
            let ws_i = if from_end {
                index - 1
            } else {
                index + 1
            };
            let w = tokens[ch[ws_i] as int];
            if ok && w.kind == Kind::Whitespace && w.text@.len() > 1 && w.start_column < usize::MAX
                && w.end_column >= w.start_column + 1 {
                Some((w, w.start_column + 1, w.end_column - (w.start_column + 1)))
            } else {
                None
            }
        },
        None => None,
    }
}

/// Whether heading `h` is reported on the chosen side: it has extra space
/// there and is on a line of the document.
pub open spec fn side_reports(tokens: Seq<Token>, n: int, h: usize, from_end: bool) -> bool {
    extra_space(tokens, h, from_end) is Some && 1 <= tokens[h as int].start_line <= n
}

/// The problem reported for heading `h` on the chosen side: the heading
/// as context, the extra spaces as range, and a fix deleting all but one.
pub open spec fn side_error(e: RuleError, tokens: Seq<Token>, h: usize, from_end: bool) -> bool {
    let t = tokens[h as int];
    let (_w, column, length) = extra_space(tokens, h, from_end)->0;
    error_is(
        e,
        t.start_line,
        None,
        Some(spec_ellipsify(spec_trim(t.text@), !from_end, from_end)),
        Some((column as usize, length as usize)),
        Some(FixInfo { line_number: None, edit_column: Some(column as usize), delete_count: Some(length as i64), insert_text: None }),
    )
}

/// Report more than one space between the heading's opening (`from_end`
/// false) or closing (`from_end` true) hashes and its text; the fix deletes
/// all but one.
fn validate(p: &Params, emit: &mut Emit, heading: usize, from_end: bool)
    requires
        params_ok(p),
        heading < p.tree.tokens@.len(),
    ensures
        side_reports(p.tree.tokens@, p.lines@.len() as int, heading, from_end) ==> final(emit).errors@ == old(
            emit,
        ).errors@.push(final(emit).errors@.last()) && side_error(final(emit).errors@.last(), p.tree.tokens@, heading, from_end),
        !side_reports(p.tree.tokens@, p.lines@.len() as int, heading, from_end) ==> final(emit).errors@ == old(
            emit,
        ).errors@,
        appended(old(emit).errors@, final(emit).errors@, p.lines@.len() as int),
{
    let tree = p.tree;
    let n = p.lines.len();
    let h = tree.get(heading);
    let children = &h.children;
    let len = children.len();
    let ghost toks = tree.tokens@;
    proof {
        tree.lemma_node(heading as int);
        super::lemma_appended_refl(emit.errors@, n as int);
    }
    // Position of the first hash sequence from the chosen end.
    let mut k: usize = 0;
    let mut found = false;
    let mut index: usize = 0;
    while k < len && !found
        invariant
            k <= len,
            len == children@.len(),
            tree.wf(),
            toks == tree.tokens@,
            heading < tree.tokens@.len(),
            children@ == tree.tokens@[heading as int].children@,
            found ==> index < len && sequence_pos(toks, children@, from_end, 0) == Some(index as int),
            !found ==> sequence_pos(toks, children@, from_end, 0) == sequence_pos(toks, children@, from_end, k as int),
        decreases len - k + (if found { 0int } else { 1int }),
    {
        let i = if from_end {
            len - 1 - k
        } else {
            k
        };
        proof {
            tree.lemma_child(heading as int, i as int);
        }
        if tree.get(children[i]).kind == Kind::AtxHeadingSequence {
            found = true;
            index = i;
        } else {
            k += 1;
        }
    }
    if !found {
        return;
    }
    let ws_i = if from_end {
        if index == 0 {
            return;
        }
        index - 1
    } else {
        if index + 1 >= len {
            return;
        }
        index + 1
    };
    proof {
        tree.lemma_child(heading as int, ws_i as int);
    }
    let wtok = tree.get(children[ws_i]);
    if wtok.kind == Kind::Whitespace && wtok.text.len() > 1 && wtok.start_column < usize::MAX
        && wtok.end_column >= wtok.start_column + 1 {
        let column = wtok.start_column + 1;
        let length = wtok.end_column - column;
        let ghost before = emit.errors@;
        emit.add_context_checked(
            n,
            h.start_line,
            &trim(&h.text),
            !from_end,
            from_end,
            Some((column, length)),
            Some(FixInfo::delete(column, length as i64)),
        );
        proof {
            if 1 <= h.start_line <= n {
                super::lemma_appended_step(before, before, emit.errors@, n as int, h.start_line);
            }
        }
    }
}

/// The ATX headings, in document order.
pub open spec fn atx_ids(tokens: Seq<Token>) -> Seq<usize> {
    filter_idx_upto(tokens, seq![Kind::AtxHeading], tokens.len() as int)
}

/// What is reported for the `c`-th ATX heading of `style`: the opening side
/// (`false`), then for closed headings the closing side (`true`).
pub open spec fn style_events(tokens: Seq<Token>, n: int, style: HeadingStyle, c: int) -> Seq<bool> {
    let h = atx_ids(tokens)[c];
    if spec_heading_style(tokens, h as int) == style {
        (if side_reports(tokens, n, h, false) {
            seq![false]
        } else {
            Seq::empty()
        }) + (if style == HeadingStyle::AtxClosed && side_reports(tokens, n, h, true) {
            seq![true]
        } else {
            Seq::empty()
        })
    } else {
        Seq::empty()
    }
}

/// The problems of the first `c` ATX headings: (heading, side) pairs.
pub open spec fn style_list(tokens: Seq<Token>, n: int, style: HeadingStyle, c: int) -> Seq<(int, bool)>
    decreases c,
{
    if c <= 0 {
        Seq::empty()
    } else {
        style_list(tokens, n, style, c - 1) + style_events(tokens, n, style, c - 1).map_values(|b: bool| (c - 1, b))
    }
}

/// The ensures shared by MD019 and MD021.
pub open spec fn style_reported(tokens: Seq<Token>, n: int, style: HeadingStyle, old_errors: Seq<RuleError>, new_errors: Seq<RuleError>) -> bool {
    let reported = style_list(tokens, n, style, atx_ids(tokens).len() as int);
    &&& new_errors.len() == old_errors.len() + reported.len()
    &&& forall|j: int|
        0 <= j < reported.len() ==> side_error(
            #[trigger] new_errors[old_errors.len() + j],
            tokens,
            atx_ids(tokens)[reported[j].0],
            reported[j].1,
        )
}

/// Headings of one ATX style: validated after the opening hashes, and for
/// closed headings also before the closing hashes.
fn run_for(p: &Params, emit: &mut Emit, style: HeadingStyle)
    requires
        params_ok(p),
    ensures
        appended(old(emit).errors@, final(emit).errors@, p.lines@.len() as int),
        style_reported(p.tree.tokens@, p.lines@.len() as int, style, old(emit).errors@, final(emit).errors@),
{
    let tree = p.tree;
    let n = p.lines.len();
    let kinds: [Kind; 1] = [Kind::AtxHeading];
    proof {
        assert(kinds@ =~= seq![Kind::AtxHeading]);
    }
    let hs = tree.filter_idx(&kinds);
    let ghost toks = tree.tokens@;
    let ghost e0 = emit.errors@;
    proof {
        lemma_appended_refl(e0, n as int);
    }
    let mut c: usize = 0;
    while c < hs.len()
        invariant
            c <= hs@.len(),
            params_ok(p),
            tree == p.tree,
            toks == tree.tokens@,
            hs@ == atx_ids(toks),
            n == p.lines@.len(),
            forall|k: int| 0 <= k < hs@.len() ==> #[trigger] hs@[k] < tree.tokens@.len(),
            appended(e0, emit.errors@, n as int),
            emit.errors@.len() == e0.len() + style_list(toks, n as int, style, c as int).len(),
            forall|j: int|
                0 <= j < style_list(toks, n as int, style, c as int).len() ==> side_error(
                    #[trigger] emit.errors@[e0.len() + j],
                    toks,
                    atx_ids(toks)[style_list(toks, n as int, style, c as int)[j].0],
                    style_list(toks, n as int, style, c as int)[j].1,
                ),
        decreases hs@.len() - c,
    {
        let h = hs[c];
        let ghost prev = style_list(toks, n as int, style, c as int);
        let ghost mid = emit.errors@;
        let ghost ev = style_events(toks, n as int, style, c as int);
        let ghost cur = style_list(toks, n as int, style, c + 1);
        proof {
            assert(cur == prev + ev.map_values(|b: bool| (c as int, b)));
        }
        let hst = tree.heading_style(h);
        let same = match (hst, style) {
            (HeadingStyle::Atx, HeadingStyle::Atx) => true,
            (HeadingStyle::AtxClosed, HeadingStyle::AtxClosed) => true,
            (HeadingStyle::Setext, HeadingStyle::Setext) => true,
            _ => false,
        };
        let closed = match style {
            HeadingStyle::AtxClosed => true,
            _ => false,
        };
        let ghost mid2 = emit.errors@;
        if same {
            validate(p, emit, h, false);
            proof {
                assert(appended(e0, emit.errors@, n as int)) by {
                    crate::laws::law_appended_trans(e0, mid, emit.errors@, n as int);
                }
            }
            let ghost mid3 = emit.errors@;
            if closed {
                validate(p, emit, h, true);
                proof {
                    assert(appended(e0, emit.errors@, n as int)) by {
                        crate::laws::law_appended_trans(e0, mid3, emit.errors@, n as int);
                    }
                }
            }
            proof {
                assert(emit.errors@.len() == e0.len() + cur.len());
                assert forall|j: int| 0 <= j < cur.len() implies side_error(
                    #[trigger] emit.errors@[e0.len() + j],
                    toks,
                    atx_ids(toks)[cur[j].0],
                    cur[j].1,
                ) by {
                    if j < prev.len() {
                        assert(emit.errors@[e0.len() + j] == mid[e0.len() + j]);
                        assert(mid3[e0.len() + j] == mid[e0.len() + j]);
                    } else {
                        assert(cur[j] == (c as int, ev[j - prev.len()]));
                        if e0.len() + j < mid3.len() {
                            assert(emit.errors@[e0.len() + j] == mid3[e0.len() + j]);
                        }
                    }
                }
            }
        } else {
            proof {
                assert(cur =~= prev);
            }
        }
        c += 1;
    }
}

/// What `md019` reports: the problems it appends to `old_errors`.
pub open spec fn md019_reported(p: &Params, old_errors: Seq<RuleError>, new_errors: Seq<RuleError>) -> bool {
    style_reported(p.tree.tokens@, p.lines@.len() as int, HeadingStyle::Atx, old_errors, new_errors)
}

/// Report more than one space after the hashes of an ATX heading.
pub fn md019(p: &Params, emit: &mut Emit)
    requires
        params_ok(p),
    ensures
        appended(old(emit).errors@, final(emit).errors@, p.lines@.len() as int),
        md019_reported(p, old(emit).errors@, final(emit).errors@),
{
    run_for(p, emit, HeadingStyle::Atx)
}

/// What `md021` reports: the problems it appends to `old_errors`.
pub open spec fn md021_reported(p: &Params, old_errors: Seq<RuleError>, new_errors: Seq<RuleError>) -> bool {
    style_reported(p.tree.tokens@, p.lines@.len() as int, HeadingStyle::AtxClosed, old_errors, new_errors)
}

/// Report more than one space inside the hashes of a closed ATX heading.
pub fn md021(p: &Params, emit: &mut Emit)
    requires
        params_ok(p),
    ensures
        appended(old(emit).errors@, final(emit).errors@, p.lines@.len() as int),
        md021_reported(p, old(emit).errors@, final(emit).errors@),
{
    run_for(p, emit, HeadingStyle::AtxClosed)
}

} // verus!
