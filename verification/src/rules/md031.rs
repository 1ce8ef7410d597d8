//! MD031 — blanks-around-fences.

use vstd::prelude::*;

use crate::md::kind::Kind;
use crate::md::tokens::{Token, ancestor_of_type, filter_idx_upto};
use crate::re::{re_captures, regex_captures};
use super::helpers::{is_blank_line, spec_ellipsify, spec_is_blank_line, spec_trim, trim, trim_end_at, trim_end_len};
use super::md058::line_at;
use super::options::{OptValue, lookup, spec_opt_bool};
use super::{Emit, FixInfo, Params, RuleError, appended, fix_is, lemma_appended_refl, opt_seq, params_ok};

verus! {

/// Line `idx` (0-based) of `lines`, or empty when out of range.
pub fn line_or_empty(lines: &Vec<Vec<char>>, idx: usize) -> (r: Vec<char>)
    ensures
        idx < lines@.len() ==> r@ == lines@[idx as int]@,
        idx >= lines@.len() ==> r@.len() == 0,
{
    if idx < lines.len() {
        crate::text::slice_vec(&lines[idx], 0, lines[idx].len())
    } else {
        Vec::new()
    }
}

/// The characters of `line[a..b]` with `>` kept and every other one a
/// space.
pub open spec fn quote_marks(line: Seq<char>, a: int, b: int) -> Seq<char> {
    Seq::new(
        (b - a) as nat,
        |k: int|
            if line[a + k] == '>' {
                '>'
            } else {
                ' '
            },
    )
}

/// The fix for a fence on `line_number` (`top` for an opening fence): a
/// blank line keeping the `>` of the text before the fence, inserted above
/// the line or below it; none when the line has no fence character.
pub open spec fn fence_fix(line: Seq<char>, line_number: int, top: bool) -> Option<(int, Seq<char>)> {
    match regex_captures("^(.*?)[`~]"@, line) {
        Some(g) => if g.len() >= 2 {
            match g[1] {
                Some((a, b)) => {
                    let m = quote_marks(line, a, b);
                    Some(
                        (
                            if top {
                                line_number
                            } else {
                                line_number + 1
                            },
                            m.subrange(0, trim_end_at(m, m.len() as int)).push('\n'),
                        ),
                    )
                },
                None => None,
            }
        } else {
            None
        },
        None => None,
    }
}

/// The problem reported for a fence on `line_number`.
pub open spec fn fence_error(e: RuleError, lines: Seq<Vec<char>>, line_number: int, top: bool) -> bool {
    let line = lines[line_number - 1]@;
    &&& e.line_number == line_number
    &&& e.detail is None
    &&& opt_seq(e.context) == Some(spec_ellipsify(spec_trim(line), false, false))
    &&& e.range is None
    &&& match fence_fix(line, line_number, top) {
        Some((target, text)) => fix_is(e.fix_info, Some(target as usize), None, None, Some(text)),
        None => e.fix_info is None,
    }
}

/// Report line `line_number`, next to a fence, with a fix inserting a blank
/// line (keeping any `>` of the text before the fence) above it (`top`) or
/// below it.
fn add_fence_error(p: &Params, emit: &mut Emit, line_number: usize, top: bool)
    requires
        params_ok(p),
        1 <= line_number <= p.lines@.len(),
    ensures
        final(emit).errors@ == old(emit).errors@.push(final(emit).errors@.last()),
        fence_error(final(emit).errors@.last(), p.lines@, line_number as int, top),
{
    let n = p.lines.len();
    let line = &p.lines[line_number - 1];
    let fix = match re_captures("^(.*?)[`~]", line) {
        Some(g) => {
            if g.len() >= 2 {
                proof {
                    assert(crate::re::groups_in(g@, line@.len() as int));
                    assert(g@[1] == g[1]);
                }
                match g[1] {
                    Some((a, b)) => {
                        proof {
                            assert(crate::re::groups_view(g@)[1] == Some((a as int, b as int)));
                        }
                        let mut ins: Vec<char> = Vec::new();
                        let mut q = a;
                        while q < b
                            invariant
                                a <= q <= b <= line@.len(),
                                ins@ == quote_marks(line@, a as int, b as int).take(q - a),
                            decreases b - q,
                        {
                            ins.push(if line[q] == '>' {
                                '>'
                            } else {
                                ' '
                            });
                            q += 1;
                            proof {
                                assert(ins@ =~= quote_marks(line@, a as int, b as int).take(q - a));
                            }
                        }
                        proof {
                            assert(ins@ =~= quote_marks(line@, a as int, b as int));
                        }
                        let e = trim_end_len(&ins);
                        let mut text = crate::text::slice_vec(&ins, 0, e);
                        text.push('\n');
                        let target = if top {
                            line_number
                        } else {
                            line_number + 1
                        };
                        Some(
                            FixInfo {
                                line_number: Some(target),
                                edit_column: None,
                                delete_count: None,
                                insert_text: Some(text),
                            },
                        )
                    },
                    None => {
                        proof {
                            assert(crate::re::groups_view(g@)[1] is None);
                        }
                        None
                    },
                }
            } else {
                None
            }
        },
        None => None,
    };
    proof {
        reveal_strlit("^(.*?)[`~]");
    }
    emit.add_context_checked(n, line_number, &trim(line), false, false, None, fix);
}

/// The fenced code blocks, in document order.
pub open spec fn fence_ids(tokens: Seq<Token>) -> Seq<usize> {
    filter_idx_upto(tokens, seq![Kind::CodeFenced], tokens.len() as int)
}

/// What is reported for the `c`-th fenced block, in order: `0` for its
/// opening fence without a blank line above, `1` for its closing fence
/// without a blank line below. Blocks inside lists are passed over when
/// `list_items` is false.
pub open spec fn md031_events(lines: Seq<Vec<char>>, tokens: Seq<Token>, cfg: Seq<(Vec<char>, OptValue)>, c: int) -> Seq<int> {
    let cb = fence_ids(tokens)[c];
    let t = tokens[cb as int];
    let n = lines.len();
    let in_list = ancestor_of_type(tokens, cb as int, seq![Kind::ListOrdered, Kind::ListUnordered]) is Some;
    if spec_opt_bool(lookup(cfg, "list_items"@), true) || !in_list {
        let above = if t.start_line >= 2 {
            line_at(lines, t.start_line - 2)
        } else {
            Seq::empty()
        };
        let at_end = if t.end_line >= 1 {
            line_at(lines, t.end_line - 1)
        } else {
            Seq::empty()
        };
        let top = if !spec_is_blank_line(above) && 1 <= t.start_line <= n {
            seq![0int]
        } else {
            Seq::empty()
        };
        let bottom = if !spec_is_blank_line(line_at(lines, t.end_line as int)) && !spec_is_blank_line(at_end)
            && 1 <= t.end_line <= n {
            seq![1int]
        } else {
            Seq::empty()
        };
        top + bottom
    } else {
        Seq::empty()
    }
}

/// The problems of the first `c` fenced blocks: (block, which fence) pairs.
pub open spec fn md031_list(lines: Seq<Vec<char>>, tokens: Seq<Token>, cfg: Seq<(Vec<char>, OptValue)>, c: int) -> Seq<(int, int)>
    decreases c,
{
    if c <= 0 {
        Seq::empty()
    } else {
        md031_list(lines, tokens, cfg, c - 1) + md031_events(lines, tokens, cfg, c - 1).map_values(|w: int| (c - 1, w))
    }
}

/// The problem reported for event `ev`.
pub open spec fn md031_error(e: RuleError, lines: Seq<Vec<char>>, tokens: Seq<Token>, ev: (int, int)) -> bool {
    let t = tokens[fence_ids(tokens)[ev.0] as int];
    if ev.1 == 0 {
        fence_error(e, lines, t.start_line as int, true)
    } else {
        fence_error(e, lines, t.end_line as int, false)
    }
}

/// What `md031` reports: the problems it appends to `old_errors`.
pub open spec fn md031_reported(p: &Params, old_errors: Seq<RuleError>, new_errors: Seq<RuleError>) -> bool {
    ({
        let toks = p.tree.tokens@;
        let reported = md031_list(p.lines@, toks, p.config.entries@, fence_ids(toks).len() as int);
        let base = old_errors.len();
        &&& new_errors.len() == base + reported.len()
        &&& forall|j: int|
            0 <= j < reported.len() ==> md031_error(
                #[trigger] new_errors[base + j],
                p.lines@,
                toks,
                reported[j],
            )
    })
}

/// Report fenced code blocks (inside lists too, unless `list_items` is
/// false) without a blank line before the opening or after the closing
/// fence.
pub fn md031(p: &Params, emit: &mut Emit)
    requires
        params_ok(p),
    ensures
        appended(old(emit).errors@, final(emit).errors@, p.lines@.len() as int),
        md031_reported(p, old(emit).errors@, final(emit).errors@),
{
    let include_list_items = p.config.opt_bool("list_items", true);
    let tree = p.tree;
    let n = p.lines.len();
    let fence_kinds: [Kind; 1] = [Kind::CodeFenced];
    let list_kinds: [Kind; 2] = [Kind::ListOrdered, Kind::ListUnordered];
    proof {
        assert(fence_kinds@ =~= seq![Kind::CodeFenced]);
        assert(list_kinds@ =~= seq![Kind::ListOrdered, Kind::ListUnordered]);
    }
    let cbs = tree.filter_idx(&fence_kinds);
    let ghost toks = tree.tokens@;
    let ghost lines = p.lines@;
    let ghost cfg = p.config.entries@;
    let ghost e0 = emit.errors@;
    proof {
        lemma_appended_refl(e0, n as int);
    }
    let mut c: usize = 0;
    while c < cbs.len()
        invariant
            c <= cbs@.len(),
            params_ok(p),
            tree == p.tree,
            toks == tree.tokens@,
            lines == p.lines@,
            cfg == p.config.entries@,
            cbs@ == fence_ids(toks),
            list_kinds@ == seq![Kind::ListOrdered, Kind::ListUnordered],
            include_list_items == spec_opt_bool(lookup(cfg, "list_items"@), true),
            n == p.lines@.len(),
            forall|k: int| 0 <= k < cbs@.len() ==> #[trigger] cbs@[k] < tree.tokens@.len(),
            appended(e0, emit.errors@, n as int),
            emit.errors@.len() == e0.len() + md031_list(lines, toks, cfg, c as int).len(),
            forall|j: int|
                0 <= j < md031_list(lines, toks, cfg, c as int).len() ==> md031_error(
                    #[trigger] emit.errors@[e0.len() + j],
                    lines,
                    toks,
                    md031_list(lines, toks, cfg, c as int)[j],
                ),
        decreases cbs@.len() - c,
    {
        let cb = cbs[c];
        let ghost prev = md031_list(lines, toks, cfg, c as int);
        let ghost mid = emit.errors@;
        let ghost ev = md031_events(lines, toks, cfg, c as int);
        let ghost cur = md031_list(lines, toks, cfg, c + 1);
        proof {
            assert(cur == prev + ev.map_values(|w: int| (c as int, w)));
        }
        let in_list = tree.parent_of_type(cb, &list_kinds).is_some();
        if include_list_items || !in_list {
            let start = tree.get(cb).start_line;
            let end = tree.get(cb).end_line;
            let above = if start >= 2 {
                line_or_empty(p.lines, start - 2)
            } else {
                Vec::new()
            };
            proof {
                if start >= 2 {
                    assert(above@ == line_at(lines, start - 2));
                }
            }
            if !is_blank_line(&above) && start >= 1 && start <= n {
                add_fence_error(p, emit, start, true);
                proof {
                    super::lemma_appended_step(e0, mid, emit.errors@, n as int, start);
                }
            }
            let ghost mid2 = emit.errors@;
            let below = line_or_empty(p.lines, end);
            let at_end = if end >= 1 {
                line_or_empty(p.lines, end - 1)
            } else {
                Vec::new()
            };
            proof {
                assert(below@ == line_at(lines, end as int));
                if end >= 1 {
                    assert(at_end@ == line_at(lines, end - 1));
                }
            }
            if !is_blank_line(&below) && !is_blank_line(&at_end) && end >= 1 && end <= n {
                add_fence_error(p, emit, end, false);
                proof {
                    super::lemma_appended_step(e0, mid2, emit.errors@, n as int, end);
                }
            }
        }
        proof {
            assert(emit.errors@.len() == e0.len() + cur.len());
            assert forall|j: int| 0 <= j < cur.len() implies md031_error(
                #[trigger] emit.errors@[e0.len() + j],
                lines,
                toks,
                cur[j],
            ) by {
                if j < prev.len() {
                    assert(emit.errors@[e0.len() + j] == mid[e0.len() + j]);
                } else {
                    assert(cur[j] == (c as int, ev[j - prev.len()]));
                }
            }
        }
        c += 1;
    }
}

} // verus!
