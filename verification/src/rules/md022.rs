//! MD022 — blanks-around-headings.

use vstd::prelude::*;

use crate::md::kind::Kind;
use crate::md::tokens::{Token, Tree, filter_idx_upto, spec_heading_level};
use super::helpers::{bq_prefix_line, is_blank_line, spec_bq_prefix_line, spec_is_blank_line, spec_trim, trim};
use super::options::{Number, OptValue, Scalar, lookup, spec_opt_bool};
use super::{
    Emit, FixInfo, Params, RuleError, appended, detail_text, fix_is, int_text, lemma_appended_refl, opt_seq,
    params_ok, spec_int_text,
};

verus! {

/// The number of blank lines wanted for a heading of `level`: one number
/// for all levels, or an array with one per level (1 where missing or not
/// a whole number); 1 by default.
pub open spec fn spec_lines_for(v: Option<OptValue>, level: int) -> int {
    match v {
        Some(OptValue::List(items)) => if level - 1 < items@.len() {
            match items@[level - 1] {
                Scalar::Num(x) => match x.int {
                    Some(i) => i as int,
                    None => 1,
                },
                _ => 1,
            }
        } else {
            1
        },
        Some(OptValue::One(Scalar::Num(x))) => match x.int {
            Some(i) => i as int,
            None => x.trunc as int,
        },
        Some(_) => 1,
        None => 1,
    }
}

/// An option's value unless it is absent or null.
pub open spec fn present(v: Option<OptValue>) -> Option<OptValue> {
    match v {
        Some(OptValue::One(Scalar::Null)) => None,
        _ => v,
    }
}

/// Line `index` of the document (0-based); a negative index reaches into
/// the front matter when `include_front_matter`; empty when out of range.
pub open spec fn spec_get_line(lines: Seq<Vec<char>>, fm: Seq<Vec<char>>, index: int, include_front_matter: bool) -> Seq<char> {
    if 0 <= index < lines.len() {
        lines[index]@
    } else if include_front_matter && fm.len() > 0 && index < 0 && index >= -fm.len() {
        fm[fm.len() + index]@
    } else {
        Seq::empty()
    }
}

/// `count` copies of `s` (none when `count <= 0`).
pub open spec fn repeated(s: Seq<char>, count: int) -> Seq<char>
    decreases count,
{
    if count <= 0 {
        Seq::empty()
    } else {
        repeated(s, count - 1) + s
    }
}

/// The number of blank lines (up to `want`) directly above the line of
/// number `start`, from the `k`-th on.
pub open spec fn blanks_above(lines: Seq<Vec<char>>, fm: Seq<Vec<char>>, start: int, want: int, inc: bool, k: int) -> int
    decreases want - k,
{
    if k >= want || !spec_is_blank_line(spec_get_line(lines, fm, start - 2 - k, inc)) {
        k
    } else {
        blanks_above(lines, fm, start, want, inc, k + 1)
    }
}

/// The number of blank lines (up to `want`) directly below the line of
/// number `end`, from the `k`-th on.
pub open spec fn blanks_below(lines: Seq<Vec<char>>, end: int, want: int, k: int) -> int
    decreases want - k,
{
    if k >= want || !spec_is_blank_line(spec_get_line(lines, Seq::empty(), end + k, false)) {
        k
    } else {
        blanks_below(lines, end, want, k + 1)
    }
}

/// The headings, in document order.
pub open spec fn md022_heading_ids(tokens: Seq<Token>) -> Seq<usize> {
    filter_idx_upto(tokens, seq![Kind::AtxHeading, Kind::SetextHeading], tokens.len() as int)
}

/// The settings of MD022 for the `c`-th heading: (lines wanted above,
/// found above, wanted below, found below).
pub open spec fn md022_counts(lines: Seq<Vec<char>>, fm: Seq<Vec<char>>, tokens: Seq<Token>, cfg: Seq<(Vec<char>, OptValue)>, c: int) -> (int, int, int, int) {
    let h = md022_heading_ids(tokens)[c] as int;
    let t = tokens[h];
    let level = spec_heading_level(tokens, h) as int;
    let above = spec_lines_for(present(lookup(cfg, "lines_above"@)), level);
    let below = spec_lines_for(present(lookup(cfg, "lines_below"@)), level);
    let inc = spec_opt_bool(lookup(cfg, "include_front_matter"@), false);
    (above, blanks_above(lines, fm, t.start_line as int, above, inc, 0), below, blanks_below(lines, t.end_line as int, below, 0))
}

/// What is reported for the `c`-th heading, in order: `0` for too few
/// blank lines above, `1` for too few below.
pub open spec fn md022_events(lines: Seq<Vec<char>>, fm: Seq<Vec<char>>, tokens: Seq<Token>, cfg: Seq<(Vec<char>, OptValue)>, c: int) -> Seq<int> {
    let t = tokens[md022_heading_ids(tokens)[c] as int];
    let (above, found_above, below, found_below) = md022_counts(lines, fm, tokens, cfg, c);
    if 1 <= t.start_line <= lines.len() {
        (if above >= 0 && spec_int_text(above) != spec_int_text(found_above) {
            seq![0int]
        } else {
            Seq::empty()
        }) + (if below >= 0 && spec_int_text(below) != spec_int_text(found_below) {
            seq![1int]
        } else {
            Seq::empty()
        })
    } else {
        Seq::empty()
    }
}

/// The problems of the first `c` headings: (heading, side) pairs.
pub open spec fn md022_list(lines: Seq<Vec<char>>, fm: Seq<Vec<char>>, tokens: Seq<Token>, cfg: Seq<(Vec<char>, OptValue)>, c: int) -> Seq<(int, int)>
    decreases c,
{
    if c <= 0 {
        Seq::empty()
    } else {
        md022_list(lines, fm, tokens, cfg, c - 1) + md022_events(lines, fm, tokens, cfg, c - 1).map_values(
            |w: int| (c - 1, w),
        )
    }
}

/// The problem reported for event `ev`: the counts, the side, the heading
/// line as context, and a fix inserting the missing blank lines (with the
/// block-quote prefixes) above the heading or below it.
pub open spec fn md022_error(e: RuleError, lines: Seq<Vec<char>>, fm: Seq<Vec<char>>, tokens: Seq<Token>, cfg: Seq<(Vec<char>, OptValue)>, ev: (int, int)) -> bool {
    let t = tokens[md022_heading_ids(tokens)[ev.0] as int];
    let (above, found_above, below, found_below) = md022_counts(lines, fm, tokens, cfg, ev.0);
    let prefixes = filter_idx_upto(tokens, seq![Kind::BlockQuotePrefix, Kind::LinePrefix], tokens.len() as int);
    let context = spec_trim(lines[t.start_line - 1]@);
    &&& e.line_number == t.start_line
    &&& opt_seq(e.context) == Some(context)
    &&& e.range is None
    &&& if ev.1 == 0 {
        &&& opt_seq(e.detail) == Some(detail_text(spec_int_text(above), spec_int_text(found_above), Some("Above"@)))
        &&& fix_is(
            e.fix_info,
            None,
            None,
            None,
            Some(repeated(spec_bq_prefix_line(tokens, prefixes, t.start_line - 1), above - found_above)),
        )
    } else {
        let target = if t.end_line < usize::MAX {
            t.end_line + 1
        } else {
            t.end_line as int
        };
        &&& opt_seq(e.detail) == Some(detail_text(spec_int_text(below), spec_int_text(found_below), Some("Below"@)))
        &&& fix_is(
            e.fix_info,
            Some(target as usize),
            None,
            None,
            Some(repeated(spec_bq_prefix_line(tokens, prefixes, target), below - found_below)),
        )
    }
}

/// The number of blank lines wanted for a heading of `level` (1-6): one
/// number for all levels, or an array with one per level (1 where missing
/// or not a whole number); 1 by default.
fn lines_for(v: Option<&OptValue>, level: usize) -> (r: i64)
    requires
        1 <= level <= 6,
    ensures
        r == spec_lines_for(
            match v {
                Some(x) => Some(*x),
                None => None,
            },
            level as int,
        ),
{
    match v {
        Some(OptValue::List(items)) => {
            if level - 1 < items.len() {
                match &items[level - 1] {
                    Scalar::Num(x) => match x.int {
                        Some(i) => i,
                        None => 1,
                    },
                    _ => 1,
                }
            } else {
                1
            }
        },
        Some(OptValue::One(Scalar::Num(x))) => match x.int {
            Some(i) => i,
            None => x.trunc,
        },
        Some(_) => 1,
        None => 1,
    }
}

/// Line `index` (0-based, may be negative) of the document; a negative
/// index reaches into the front matter when `include_front_matter`; empty
/// when out of range.
fn get_line(p: &Params, index: i128, include_front_matter: bool) -> (r: Vec<char>)
    requires
        params_ok(p),
    ensures
        r@.len() < usize::MAX / 4,
        r@ == spec_get_line(p.lines@, p.front_matter_lines@, index as int, include_front_matter),
{
    if index >= 0 && index < p.lines.len() as i128 {
        let l = &p.lines[index as usize];
        return crate::text::slice_vec(l, 0, l.len());
    }
    let fm = p.front_matter_lines;
    if include_front_matter && fm.len() > 0 && index < 0 && index >= -(fm.len() as i128) {
        let k = fm.len() as i128 + index;
        if k >= 0 && k < fm.len() as i128 {
            let l = &fm[k as usize];
            return crate::text::slice_vec(l, 0, l.len());
        }
    }
    Vec::new()
}

/// `count` copies of a prefix line (none when `count <= 0`).
fn repeat_line(line: &Vec<char>, count: i64) -> (r: Vec<char>)
    ensures
        r@ == repeated(line@, count as int),
{
    let mut out: Vec<char> = Vec::new();
    if count <= 0 {
        return out;
    }
    let mut k: i64 = 0;
    while k < count
        invariant
            0 <= k <= count,
            out@ == repeated(line@, k as int),
        decreases count - k,
    {
        super::concat(&mut out, line);
        k += 1;
    }
    out
}

/// What `md022` reports: the problems it appends to `old_errors`.
pub open spec fn md022_reported(p: &Params, old_errors: Seq<RuleError>, new_errors: Seq<RuleError>) -> bool {
    ({
        let toks = p.tree.tokens@;
        let reported = md022_list(p.lines@, p.front_matter_lines@, toks, p.config.entries@, md022_heading_ids(toks).len() as int);
        let base = old_errors.len();
        &&& new_errors.len() == base + reported.len()
        &&& forall|j: int|
            0 <= j < reported.len() ==> md022_error(
                #[trigger] new_errors[base + j],
                p.lines@,
                p.front_matter_lines@,
                toks,
                p.config.entries@,
                reported[j],
            )
    })
}

/// Report headings with fewer blank lines above (`lines_above`) or below
/// (`lines_below`) than configured; the fix inserts the missing ones.
pub fn md022(p: &Params, emit: &mut Emit)
    requires
        params_ok(p),
    ensures
        appended(old(emit).errors@, final(emit).errors@, p.lines@.len() as int),
        md022_reported(p, old(emit).errors@, final(emit).errors@),
{
    let above_cfg = p.config.opt("lines_above");
    let below_cfg = p.config.opt("lines_below");
    let include_front_matter = p.config.opt_bool("include_front_matter", false);
    let tree = p.tree;
    let n = p.lines.len();
    let prefix_kinds: [Kind; 2] = [Kind::BlockQuotePrefix, Kind::LinePrefix];
    let heading_kinds: [Kind; 2] = [Kind::AtxHeading, Kind::SetextHeading];
    proof {
        assert(prefix_kinds@ =~= seq![Kind::BlockQuotePrefix, Kind::LinePrefix]);
        assert(heading_kinds@ =~= seq![Kind::AtxHeading, Kind::SetextHeading]);
        reveal_strlit("Above");
        reveal_strlit("Below");
    }
    let prefixes = tree.filter_idx(&prefix_kinds);
    let hs = tree.filter_idx(&heading_kinds);
    let ghost toks = tree.tokens@;
    let ghost lines = p.lines@;
    let ghost fm = p.front_matter_lines@;
    let ghost cfg = p.config.entries@;
    let ghost above_v = match above_cfg {
        Some(x) => Some(*x),
        None => None,
    };
    let ghost below_v = match below_cfg {
        Some(x) => Some(*x),
        None => None,
    };
    proof {
        assert(above_v == present(lookup(cfg, "lines_above"@)));
        assert(below_v == present(lookup(cfg, "lines_below"@)));
    }
    let ghost e0 = emit.errors@;
    proof {
        lemma_appended_refl(e0, n as int);
    }
    let mut c: usize = 0;
    while c < hs.len()
        invariant
            c <= hs@.len(),
            params_ok(p),
            tree == p.tree,
            toks == tree.tokens@,
            lines == p.lines@,
            fm == p.front_matter_lines@,
            cfg == p.config.entries@,
            hs@ == md022_heading_ids(toks),
            prefixes@ == filter_idx_upto(toks, seq![Kind::BlockQuotePrefix, Kind::LinePrefix], toks.len() as int),
            above_v == present(lookup(cfg, "lines_above"@)),
            below_v == present(lookup(cfg, "lines_below"@)),
            above_v == match above_cfg {
                Some(x) => Some(*x),
                None => None,
            },
            below_v == match below_cfg {
                Some(x) => Some(*x),
                None => None,
            },
            include_front_matter == spec_opt_bool(lookup(cfg, "include_front_matter"@), false),
            n == p.lines@.len(),
            forall|k: int| 0 <= k < hs@.len() ==> #[trigger] hs@[k] < tree.tokens@.len(),
            forall|k: int| 0 <= k < prefixes@.len() ==> #[trigger] prefixes@[k] < tree.tokens@.len(),
            appended(e0, emit.errors@, n as int),
            emit.errors@.len() == e0.len() + md022_list(lines, fm, toks, cfg, c as int).len(),
            forall|j: int|
                0 <= j < md022_list(lines, fm, toks, cfg, c as int).len() ==> md022_error(
                    #[trigger] emit.errors@[e0.len() + j],
                    lines,
                    fm,
                    toks,
                    cfg,
                    md022_list(lines, fm, toks, cfg, c as int)[j],
                ),
        decreases hs@.len() - c,
    {
        let h = hs[c];
        let ghost prev = md022_list(lines, fm, toks, cfg, c as int);
        let ghost mid = emit.errors@;
        let ghost ev = md022_events(lines, fm, toks, cfg, c as int);
        let ghost cur = md022_list(lines, fm, toks, cfg, c + 1);
        let ghost counts = md022_counts(lines, fm, toks, cfg, c as int);
        proof {
            assert(cur == prev + ev.map_values(|w: int| (c as int, w)));
        }
        let start_line = tree.get(h).start_line;
        let end_line = tree.get(h).end_line;
        let level = tree.heading_level(h);
        if start_line < 1 || start_line > n {
            proof {
                assert(ev =~= Seq::<int>::empty());
                assert(cur =~= prev);
            }
            c += 1;
            continue;
        }
        let line = trim(&p.lines[start_line - 1]);
        let lines_above = lines_for(above_cfg, level);
        if lines_above >= 0 {
            let mut actual: i64 = 0;
            while actual < lines_above && is_blank_line(
                &get_line(p, start_line as i128 - 2 - actual as i128, include_front_matter),
            )
                invariant
                    0 <= actual <= lines_above,
                    params_ok(p),
                    lines == p.lines@,
                    fm == p.front_matter_lines@,
                    blanks_above(lines, fm, start_line as int, lines_above as int, include_front_matter, actual as int)
                        == blanks_above(lines, fm, start_line as int, lines_above as int, include_front_matter, 0),
                decreases lines_above - actual,
            {
                actual += 1;
            }
            proof {
                assert(actual == counts.1);
            }
            let ins = repeat_line(&bq_prefix_line(tree, &prefixes, start_line - 1), lines_above - actual);
            emit.add_detail_if_checked(
                n,
                start_line,
                &int_text(lines_above),
                &int_text(actual),
                Some(super::lit("Above").as_slice()),
                Some(crate::text::slice_vec(&line, 0, line.len())),
                None,
                Some(FixInfo { line_number: None, edit_column: None, delete_count: None, insert_text: Some(ins) }),
            );
            proof {
                assert(appended(e0, emit.errors@, n as int));
                if emit.errors@.len() > mid.len() {
                    let e = emit.errors@.last();
                    let t = toks[md022_heading_ids(toks)[c as int] as int];
                    assert(e.line_number == t.start_line);
                    assert(lines_above == counts.0);
                    assert(opt_seq(e.context) == Some(spec_trim(lines[t.start_line - 1]@)));
                    assert(e.range is None);
                    assert(opt_seq(e.detail) == Some(detail_text(spec_int_text(counts.0), spec_int_text(counts.1), Some("Above"@))));
                    assert(md022_error(emit.errors@.last(), lines, fm, toks, cfg, (c as int, 0int)));
                }
            }
        }
        let ghost mid2 = emit.errors@;
        let lines_below = lines_for(below_cfg, level);
        if lines_below >= 0 {
            let mut actual: i64 = 0;
            while actual < lines_below && is_blank_line(&get_line(p, end_line as i128 + actual as i128, false))
                invariant
                    0 <= actual <= lines_below,
                    params_ok(p),
                    lines == p.lines@,
                    blanks_below(lines, end_line as int, lines_below as int, actual as int) == blanks_below(
                        lines,
                        end_line as int,
                        lines_below as int,
                        0,
                    ),
                decreases lines_below - actual,
            {
                proof {
                    assert(spec_get_line(lines, p.front_matter_lines@, end_line + actual, false) == spec_get_line(
                        lines,
                        Seq::empty(),
                        end_line + actual,
                        false,
                    ));
                }
                actual += 1;
            }
            proof {
                assert(spec_get_line(lines, p.front_matter_lines@, end_line + actual, false) == spec_get_line(
                    lines,
                    Seq::empty(),
                    end_line + actual,
                    false,
                ));
                assert(actual == counts.3);
            }
            let target = if end_line < usize::MAX {
                end_line + 1
            } else {
                end_line
            };
            let ins = repeat_line(&bq_prefix_line(tree, &prefixes, target), lines_below - actual);
            emit.add_detail_if_checked(
                n,
                start_line,
                &int_text(lines_below),
                &int_text(actual),
                Some(super::lit("Below").as_slice()),
                Some(crate::text::slice_vec(&line, 0, line.len())),
                None,
                Some(FixInfo { line_number: Some(target), edit_column: None, delete_count: None, insert_text: Some(ins) }),
            );
            proof {
                assert(appended(e0, emit.errors@, n as int));
                if emit.errors@.len() > mid2.len() {
                    let e = emit.errors@.last();
                    let t = toks[md022_heading_ids(toks)[c as int] as int];
                    assert(e.line_number == t.start_line);
                    assert(lines_below == counts.2);
                    assert(opt_seq(e.context) == Some(spec_trim(lines[t.start_line - 1]@)));
                    assert(e.range is None);
                    assert(opt_seq(e.detail) == Some(detail_text(spec_int_text(counts.2), spec_int_text(counts.3), Some("Below"@))));
                    assert(md022_error(emit.errors@.last(), lines, fm, toks, cfg, (c as int, 1int)));
                }
            }
        }
        proof {
            assert(emit.errors@.len() == e0.len() + cur.len());
            assert forall|j: int| 0 <= j < cur.len() implies md022_error(
                #[trigger] emit.errors@[e0.len() + j],
                lines,
                fm,
                toks,
                cfg,
                cur[j],
            ) by {
                if j < prev.len() {
                    assert(emit.errors@[e0.len() + j] == mid[e0.len() + j]);
                    assert(emit.errors@[e0.len() + j] == mid2[e0.len() + j]);
                } else {
                    assert(cur[j] == (c as int, ev[j - prev.len()]));
                    if e0.len() + j < mid2.len() {
                        assert(emit.errors@[e0.len() + j] == mid2[e0.len() + j]);
                    }
                }
            }
        }
        c += 1;
    }
}

} // verus!
