//! MD013 — line-length.

use vstd::prelude::*;

use crate::md::kind::Kind;
use crate::md::tokens::{Token, Tree, filter_idx_upto, walk_path};
use crate::re::{re_find, regex_find};
use super::options::{OptValue, lookup, spec_opt_bool, spec_opt_i64};
use super::{
    Emit, Params, RuleError, Span, appended, detail_text, error_is, int_text, kind_line_marks,
    lemma_appended_refl, lemma_appended_step, mark_range, marked, new_marks, on_kind_line, params_ok,
    spec_int_text, usize_text,
};

verus! {

/// The `data` children of paragraph `p`.
pub open spec fn para_data(tokens: Seq<Token>, p: usize) -> Seq<usize> {
    walk_path(tokens, seq![p], seq![seq![Kind::Data]], 1)
}

/// Line `l` holds text of a paragraph: a `data` child of a paragraph spans
/// it.
pub open spec fn in_para_data(tokens: Seq<Token>, l: int) -> bool {
    let ps = filter_idx_upto(tokens, seq![Kind::Paragraph], tokens.len() as int);
    exists|c: int, d: int|
        #![trigger para_data(tokens, ps[c])[d]]
        0 <= c < ps.len() && 0 <= d < para_data(tokens, ps[c]).len() && tokens[para_data(
            tokens,
            ps[c],
        )[d] as int].start_line <= l && l <= tokens[para_data(tokens, ps[c])[d] as int].end_line
}

/// Marks of the lines that hold paragraph text, per line number `0..=n`.
fn para_data_marks(tree: &Tree, n: usize) -> (r: Vec<bool>)
    requires
        tree.wf(),
        n < usize::MAX,
    ensures
        r@.len() == n + 1,
        forall|l: int| 0 <= l <= n ==> #[trigger] r@[l] == in_para_data(tree.tokens@, l),
{
    let ghost toks = tree.tokens@;
    let mut marks = new_marks(n);
    let para_kinds: [Kind; 1] = [Kind::Paragraph];
    proof {
        assert(para_kinds@ =~= seq![Kind::Paragraph]);
    }
    let paras = tree.filter_idx(&para_kinds);
    let ghost ps = paras@;
    let data_kinds: [Kind; 1] = [Kind::Data];
    let path: [&[Kind]; 1] = [&data_kinds];
    proof {
        assert(data_kinds@ =~= seq![Kind::Data]);
        assert(crate::md::tokens::kind_path(path@) =~= seq![seq![Kind::Data]]);
    }
    let mut c: usize = 0;
    while c < paras.len()
        invariant
            c <= paras@.len(),
            tree.wf(),
            toks == tree.tokens@,
            ps == paras@,
            ps == filter_idx_upto(toks, seq![Kind::Paragraph], toks.len() as int),
            crate::md::tokens::kind_path(path@) == seq![seq![Kind::Data]],
            path@.len() == 1,
            marks@.len() == n + 1,
            forall|k: int| 0 <= k < paras@.len() ==> #[trigger] paras@[k] < tree.tokens@.len(),
            forall|l: int|
                0 <= l <= n ==> #[trigger] marks@[l] == exists|c2: int, d: int|
                    #![trigger para_data(toks, ps[c2])[d]]
                    0 <= c2 < c && 0 <= d < para_data(toks, ps[c2]).len() && toks[para_data(
                        toks,
                        ps[c2],
                    )[d] as int].start_line <= l && l <= toks[para_data(toks, ps[c2])[d] as int].end_line,
        decreases paras@.len() - c,
    {
        let ds = tree.descendants_by_type(paras[c], &path);
        let ghost before = marks@;
        let mut d: usize = 0;
        while d < ds.len()
            invariant
                d <= ds@.len(),
                c < ps.len(),
                toks == tree.tokens@,
                ds@ == para_data(toks, ps[c as int]),
                marks@.len() == n + 1,
                forall|k: int| 0 <= k < ds@.len() ==> #[trigger] ds@[k] < tree.tokens@.len(),
                forall|l: int|
                    0 <= l <= n ==> #[trigger] marks@[l] == (before[l] || exists|d2: int|
                        #![trigger ds@[d2]]
                        0 <= d2 < d && toks[ds@[d2] as int].start_line <= l && l <= toks[ds@[d2] as int].end_line),
            decreases ds@.len() - d,
        {
            let t = tree.get(ds[d]);
            let ghost m0 = marks@;
            mark_range(&mut marks, t.start_line, t.end_line);
            proof {
                assert forall|l: int| 0 <= l <= n implies #[trigger] marks@[l] == (before[l] || exists|d2: int|
                    #![trigger ds@[d2]]
                    0 <= d2 < d + 1 && toks[ds@[d2] as int].start_line <= l && l <= toks[ds@[d2] as int].end_line) by {
                    if t.start_line <= l <= t.end_line {
                        assert(toks[ds@[d as int] as int] == *t);
                    }
                }
            }
            d += 1;
        }
        proof {
            assert forall|l: int| 0 <= l <= n implies #[trigger] marks@[l] == exists|c2: int, d2: int|
                #![trigger para_data(toks, ps[c2])[d2]]
                0 <= c2 < c + 1 && 0 <= d2 < para_data(toks, ps[c2]).len() && toks[para_data(
                    toks,
                    ps[c2],
                )[d2] as int].start_line <= l && l <= toks[para_data(toks, ps[c2])[d2] as int].end_line by {
                if marks@[l] && !before[l] {
                    let d2 = choose|d2: int|
                        #![trigger ds@[d2]]
                        0 <= d2 < ds@.len() && toks[ds@[d2] as int].start_line <= l && l <= toks[ds@[d2] as int].end_line;
                    assert(para_data(toks, ps[c as int])[d2] == ds@[d2]);
                }
                if exists|c2: int, d2: int|
                    #![trigger para_data(toks, ps[c2])[d2]]
                    0 <= c2 < c + 1 && 0 <= d2 < para_data(toks, ps[c2]).len() && toks[para_data(
                        toks,
                        ps[c2],
                    )[d2] as int].start_line <= l && l <= toks[para_data(toks, ps[c2])[d2] as int].end_line {
                    let (c2, d2) = choose|c2: int, d2: int|
                        #![trigger para_data(toks, ps[c2])[d2]]
                        0 <= c2 < c + 1 && 0 <= d2 < para_data(toks, ps[c2]).len() && toks[para_data(
                            toks,
                            ps[c2],
                        )[d2] as int].start_line <= l && l <= toks[para_data(toks, ps[c2])[d2] as int].end_line;
                    if c2 == c {
                        assert(ds@[d2] == para_data(toks, ps[c2])[d2]);
                    }
                }
            }
        }
        c += 1;
    }
    marks
}

/// The options of MD013, as the rule reads them.
pub open spec fn md013_limit(cfg: Seq<(Vec<char>, OptValue)>, in_code: bool, is_heading: bool) -> int {
    let line_length = spec_opt_i64(lookup(cfg, "line_length"@), 80);
    if in_code {
        spec_opt_i64(lookup(cfg, "code_block_line_length"@), line_length) as int
    } else if is_heading {
        spec_opt_i64(lookup(cfg, "heading_line_length"@), line_length) as int
    } else {
        line_length as int
    }
}

/// The length the limit is held against: the whole line when `strict` or
/// `stern`; otherwise up to the first character of its last word.
pub open spec fn md013_text_len(cfg: Seq<(Vec<char>, OptValue)>, line: Seq<char>) -> int {
    if spec_opt_bool(lookup(cfg, "strict"@), false) || spec_opt_bool(lookup(cfg, "stern"@), false) {
        line.len() as int
    } else {
        match regex_find("\\S*$"@, line) {
            Some((a, b)) => line.len() - (b - a) + 1,
            None => line.len() as int,
        }
    }
}

/// Whether the line of index `i` is reported: its length exceeds its limit
/// (code, heading or other), it is not a reference definition nor left out
/// by the options, and, unless `strict`, it is neither a link-only line nor
/// (with `stern`) a single word.
pub open spec fn md013_reports(lines: Seq<Vec<char>>, tokens: Seq<Token>, cfg: Seq<(Vec<char>, OptValue)>, i: int) -> bool {
    let l = i + 1;
    let line = lines[i]@;
    let is_heading = on_kind_line(tokens, seq![Kind::AtxHeading, Kind::SetextHeading], Span::Whole, l);
    let in_code = on_kind_line(tokens, seq![Kind::CodeFenced, Kind::CodeIndented], Span::Whole, l);
    let in_table = on_kind_line(tokens, seq![Kind::Table], Span::Whole, l);
    let link_only = on_kind_line(
        tokens,
        seq![Kind::Autolink, Kind::Image, Kind::Link, Kind::LiteralAutolink],
        Span::Whole,
        l,
    ) && !in_para_data(tokens, l);
    let max = md013_limit(cfg, in_code, is_heading);
    let strict = spec_opt_bool(lookup(cfg, "strict"@), false);
    let stern = spec_opt_bool(lookup(cfg, "stern"@), false);
    let not_wrappable = stern && regex_find("^(?:[#>\\s]*\\s)?\\S*$"@, line) is Some;
    &&& max > 0
    &&& (spec_opt_bool(lookup(cfg, "code_blocks"@), true) || !in_code)
    &&& (spec_opt_bool(lookup(cfg, "tables"@), true) || !in_table)
    &&& (spec_opt_bool(lookup(cfg, "headings"@), true) || !is_heading)
    &&& regex_find("^ {0,3}\\[[^\\]]+\\]:"@, line) is None
    &&& (strict || (!not_wrappable && !link_only))
    &&& md013_text_len(cfg, line) > max
    &&& spec_int_text(max) != spec_int_text(line.len() as int)
}

/// The indices below `n` of the lines reported.
pub open spec fn md013_lines(lines: Seq<Vec<char>>, tokens: Seq<Token>, cfg: Seq<(Vec<char>, OptValue)>, n: int) -> Seq<int>
    decreases n,
{
    if n <= 0 {
        Seq::empty()
    } else {
        let prev = md013_lines(lines, tokens, cfg, n - 1);
        if md013_reports(lines, tokens, cfg, n - 1) {
            prev.push(n - 1)
        } else {
            prev
        }
    }
}

/// The problem reported for the line of index `i`: the limit against the
/// line's length, and the range past the limit.
pub open spec fn md013_error(e: RuleError, lines: Seq<Vec<char>>, tokens: Seq<Token>, cfg: Seq<(Vec<char>, OptValue)>, i: int) -> bool {
    let l = i + 1;
    let line = lines[i]@;
    let is_heading = on_kind_line(tokens, seq![Kind::AtxHeading, Kind::SetextHeading], Span::Whole, l);
    let in_code = on_kind_line(tokens, seq![Kind::CodeFenced, Kind::CodeIndented], Span::Whole, l);
    let max = md013_limit(cfg, in_code, is_heading);
    error_is(
        e,
        l as usize,
        Some(detail_text(spec_int_text(max), spec_int_text(line.len() as int), None)),
        None,
        Some(((max + 1) as usize, (line.len() - max) as usize)),
        None,
    )
}

/// What `md013` reports: the problems it appends to `old_errors`.
pub open spec fn md013_reported(p: &Params, old_errors: Seq<RuleError>, new_errors: Seq<RuleError>) -> bool {
    ({
        let reported = md013_lines(p.lines@, p.tree.tokens@, p.config.entries@, p.lines@.len() as int);
        let base = old_errors.len();
        &&& new_errors.len() == base + reported.len()
        &&& forall|j: int|
            0 <= j < reported.len() ==> md013_error(
                #[trigger] new_errors[base + j],
                p.lines@,
                p.tree.tokens@,
                p.config.entries@,
                reported[j],
            )
    })
}

/// Report lines longer than `line_length` (`heading_line_length` for
/// headings, `code_block_line_length` in code). Unless `strict` or `stern`,
/// the last word may cross the limit; link-only lines and reference
/// definitions are exempt; code, tables and headings can be left out.
pub fn md013(p: &Params, emit: &mut Emit)
    requires
        params_ok(p),
    ensures
        appended(old(emit).errors@, final(emit).errors@, p.lines@.len() as int),
        md013_reported(p, old(emit).errors@, final(emit).errors@),
{
    let line_length = p.config.opt_i64("line_length", 80);
    let heading_line_length = p.config.opt_i64("heading_line_length", line_length);
    let code_line_length = p.config.opt_i64("code_block_line_length", line_length);
    let strict = p.config.opt_bool("strict", false);
    let stern = p.config.opt_bool("stern", false);
    let include_code = p.config.opt_bool("code_blocks", true);
    let include_tables = p.config.opt_bool("tables", true);
    let include_headings = p.config.opt_bool("headings", true);
    let tree = p.tree;
    let n = p.lines.len();
    let heading_kinds: [Kind; 2] = [Kind::AtxHeading, Kind::SetextHeading];
    let code_kinds: [Kind; 2] = [Kind::CodeFenced, Kind::CodeIndented];
    let table_kinds: [Kind; 1] = [Kind::Table];
    let link_kinds: [Kind; 4] = [Kind::Autolink, Kind::Image, Kind::Link, Kind::LiteralAutolink];
    proof {
        assert(heading_kinds@ =~= seq![Kind::AtxHeading, Kind::SetextHeading]);
        assert(code_kinds@ =~= seq![Kind::CodeFenced, Kind::CodeIndented]);
        assert(table_kinds@ =~= seq![Kind::Table]);
        assert(link_kinds@ =~= seq![Kind::Autolink, Kind::Image, Kind::Link, Kind::LiteralAutolink]);
    }
    let heading_lines = kind_line_marks(tree, &heading_kinds, Span::Whole, n);
    let code_lines = kind_line_marks(tree, &code_kinds, Span::Whole, n);
    let table_lines = kind_line_marks(tree, &table_kinds, Span::Whole, n);
    let link_lines = kind_line_marks(tree, &link_kinds, Span::Whole, n);
    let para_data_lines = para_data_marks(tree, n);
    let ghost e0 = emit.errors@;
    let ghost lines = p.lines@;
    let ghost toks = tree.tokens@;
    let ghost cfg = p.config.entries@;
    proof {
        lemma_appended_refl(e0, n as int);
    }
    let mut li: usize = 0;
    while li < n
        invariant
            li <= n,
            n == p.lines@.len(),
            lines == p.lines@,
            toks == p.tree.tokens@,
            cfg == p.config.entries@,
            params_ok(p),
            line_length == spec_opt_i64(lookup(cfg, "line_length"@), 80),
            heading_line_length == spec_opt_i64(lookup(cfg, "heading_line_length"@), line_length),
            code_line_length == spec_opt_i64(lookup(cfg, "code_block_line_length"@), line_length),
            strict == spec_opt_bool(lookup(cfg, "strict"@), false),
            stern == spec_opt_bool(lookup(cfg, "stern"@), false),
            include_code == spec_opt_bool(lookup(cfg, "code_blocks"@), true),
            include_tables == spec_opt_bool(lookup(cfg, "tables"@), true),
            include_headings == spec_opt_bool(lookup(cfg, "headings"@), true),
            heading_lines@.len() == n + 1,
            code_lines@.len() == n + 1,
            table_lines@.len() == n + 1,
            link_lines@.len() == n + 1,
            para_data_lines@.len() == n + 1,
            forall|l: int|
                0 <= l <= n ==> #[trigger] heading_lines@[l] == on_kind_line(
                    toks,
                    seq![Kind::AtxHeading, Kind::SetextHeading],
                    Span::Whole,
                    l,
                ),
            forall|l: int|
                0 <= l <= n ==> #[trigger] code_lines@[l] == on_kind_line(
                    toks,
                    seq![Kind::CodeFenced, Kind::CodeIndented],
                    Span::Whole,
                    l,
                ),
            forall|l: int|
                0 <= l <= n ==> #[trigger] table_lines@[l] == on_kind_line(toks, seq![Kind::Table], Span::Whole, l),
            forall|l: int|
                0 <= l <= n ==> #[trigger] link_lines@[l] == on_kind_line(
                    toks,
                    seq![Kind::Autolink, Kind::Image, Kind::Link, Kind::LiteralAutolink],
                    Span::Whole,
                    l,
                ),
            forall|l: int| 0 <= l <= n ==> #[trigger] para_data_lines@[l] == in_para_data(toks, l),
            appended(e0, emit.errors@, n as int),
            emit.errors@.len() == e0.len() + md013_lines(lines, toks, cfg, li as int).len(),
            forall|j: int|
                0 <= j < md013_lines(lines, toks, cfg, li as int).len() ==> md013_error(
                    #[trigger] emit.errors@[e0.len() + j],
                    lines,
                    toks,
                    cfg,
                    md013_lines(lines, toks, cfg, li as int)[j],
                ),
        decreases n - li,
    {
        let line_number = li + 1;
        let line = &p.lines[li];
        let is_heading = marked(&heading_lines, line_number);
        let in_code = marked(&code_lines, line_number);
        let in_table = marked(&table_lines, line_number);
        let link_only = marked(&link_lines, line_number) && !marked(&para_data_lines, line_number);
        let max_length = if in_code {
            code_line_length
        } else if is_heading {
            heading_line_length
        } else {
            line_length
        };
        let is_definition = re_find("^ {0,3}\\[[^\\]]+\\]:", line).is_some();
        let line_len = line.len();
        let text_len: usize = if strict || stern {
            line_len
        } else {
            match re_find("\\S*$", line) {
                Some((a, b)) => line_len - (b - a) + 1,
                None => line_len,
            }
        };
        let not_wrappable = stern && re_find("^(?:[#>\\s]*\\s)?\\S*$", line).is_some();
        let ghost prev = md013_lines(lines, toks, cfg, li as int);
        let ghost mid = emit.errors@;
        if max_length > 0 && (include_code || !in_code) && (include_tables || !in_table) && (
        include_headings || !is_heading) && !is_definition && (strict || (!not_wrappable
            && !link_only)) && (text_len as i64) > max_length {
            let col = (max_length as usize) + 1;
            let over = ((line_len as i64) - max_length) as usize;
            let expected = int_text(max_length);
            let actual = usize_text(line_len);
            emit.add_detail_if(line_number, &expected, &actual, None, None, Some((col, over)), None);
            proof {
                lemma_appended_step(e0, mid, emit.errors@, n as int, line_number);
            }
        }
        proof {
            let cur = md013_lines(lines, toks, cfg, li + 1);
            if md013_reports(lines, toks, cfg, li as int) {
                assert(cur == prev.push(li as int));
                assert forall|j: int| 0 <= j < cur.len() implies md013_error(
                    #[trigger] emit.errors@[e0.len() + j],
                    lines,
                    toks,
                    cfg,
                    cur[j],
                ) by {
                    if j < prev.len() {
                        assert(emit.errors@[e0.len() + j] == mid[e0.len() + j]);
                    }
                }
            } else {
                assert(cur == prev);
                assert(emit.errors@ == mid);
            }
        }
        li += 1;
    }
}

} // verus!
