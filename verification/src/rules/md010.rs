//! MD010 — no-hard-tabs.

use vstd::prelude::*;

use super::RuleError;

use crate::config::names_view;
use crate::md::kind::Kind;
use crate::md::tokens::{Token, Tree, filter_idx_upto, walk_path};
use crate::text::{lowercase, str_to_lowercase};
use super::md005::{spaces, spec_spaces};
use super::md024::contains_text;
use super::md033::{lemma_contains_views, lower_list, lower_list_spec};
use super::{
    Emit, FixInfo, FixV, Params, Report, appended, lemma_appended_refl, lemma_appended_step, lemma_reports_concat,
    lemma_reports_push, lemma_reports_start, params_ok, report_of, reports_are, spec_int_text, usize_text,
};
use super::options::{OptValue, Scalar, lookup, spec_opt_bool};

verus! {

/// A span of text from (line, column) to (line, column), both inclusive.
#[derive(Clone, Copy)]
pub struct Range {
    pub start_line: usize,
    pub start_col: usize,
    pub end_line: usize,
    pub end_col: usize,
}

/// (al, ac) is at or before (bl, bc).
pub open spec fn spec_pos_le(al: usize, ac: usize, bl: usize, bc: usize) -> bool {
    al < bl || (al == bl && ac <= bc)
}

/// Two spans overlap: the later-starting one starts before the other ends.
pub open spec fn spec_overlaps(a: Range, b: Range) -> bool {
    if spec_pos_le(a.start_line, a.start_col, b.start_line, b.start_col) {
        spec_pos_le(b.start_line, b.start_col, a.end_line, a.end_col)
    } else {
        spec_pos_le(a.start_line, a.start_col, b.end_line, b.end_col)
    }
}

fn pos_le(al: usize, ac: usize, bl: usize, bc: usize) -> (r: bool)
    ensures
        r == spec_pos_le(al, ac, bl, bc),
{
    al < bl || (al == bl && ac <= bc)
}

/// Whether two spans overlap.
pub fn overlaps(a: &Range, b: &Range) -> (r: bool)
    ensures
        r == spec_overlaps(*a, *b),
{
    if pos_le(a.start_line, a.start_col, b.start_line, b.start_col) {
        pos_le(b.start_line, b.start_col, a.end_line, a.end_col)
    } else {
        pos_le(a.start_line, a.start_col, b.end_line, b.end_col)
    }
}

/// The number of spaces a tab becomes in a fix: `spaces_per_tab` when an
/// integer (negative as 0), else 1.
pub open spec fn md010_mult(cfg: Seq<(Vec<char>, OptValue)>) -> usize {
    match lookup(cfg, "spaces_per_tab"@) {
        Some(OptValue::One(Scalar::Num(x))) => match x.int {
            Some(v) => if v < 0 {
                0
            } else {
                v as usize
            },
            None => 1,
        },
        _ => 1,
    }
}

/// The kinds of code excluded: all code without `code_blocks`, else the
/// fenced blocks when languages are ignored.
pub open spec fn md010_exclusion(include_code: bool, ignore: Seq<Seq<char>>) -> Seq<Kind> {
    if include_code {
        if ignore.len() > 0 {
            seq![Kind::CodeFenced]
        } else {
            Seq::empty()
        }
    } else {
        seq![Kind::CodeFenced, Kind::CodeIndented, Kind::CodeText]
    }
}

/// Every info string of the fenced block `tok` is an ignored language,
/// and there is one.
pub open spec fn spec_all_infos_ignored(tokens: Seq<Token>, tok: usize, ignore: Seq<Seq<char>>) -> bool {
    let infos = walk_path(
        tokens,
        seq![tok],
        seq![seq![Kind::CodeFencedFence], seq![Kind::CodeFencedFenceInfo]],
        2,
    );
    &&& infos.len() > 0
    &&& forall|q: int| 0 <= q < infos.len() ==> ignore.contains(str_to_lowercase(#[trigger] tokens[infos[q] as int].text@))
}

/// The excluded spans from the first `c` excluded tokens `idx`: a fenced
/// block's inside lines (unless one of its languages is not ignored),
/// other code as it stands.
pub open spec fn md010_ranges(tokens: Seq<Token>, idx: Seq<usize>, ignore: Seq<Seq<char>>, c: int) -> Seq<Range>
    decreases c,
{
    if c <= 0 {
        Seq::empty()
    } else {
        let prev = md010_ranges(tokens, idx, ignore, c - 1);
        let tok = idx[c - 1];
        let t = tokens[tok as int];
        let cf = t.kind == Kind::CodeFenced;
        if cf && ignore.len() > 0 && !spec_all_infos_ignored(tokens, tok, ignore) {
            prev
        } else if cf {
            if t.start_line < usize::MAX && t.end_line > 0 {
                prev.push(
                    Range {
                        start_line: (t.start_line + 1) as usize,
                        start_col: 0,
                        end_line: (t.end_line - 1) as usize,
                        end_col: usize::MAX,
                    },
                )
            } else {
                prev
            }
        } else {
            prev.push(Range { start_line: t.start_line, start_col: t.start_column, end_line: t.end_line, end_col: t.end_column })
        }
    }
}

/// The excluded spans of the document.
pub open spec fn md010_code(tokens: Seq<Token>, cfg: Seq<(Vec<char>, OptValue)>) -> Seq<Range> {
    let ignore = lower_list_spec(cfg, "ignore_code_languages"@);
    let excl = md010_exclusion(spec_opt_bool(lookup(cfg, "code_blocks"@), true), ignore);
    if excl.len() > 0 {
        let idx = filter_idx_upto(tokens, excl, tokens.len() as int);
        md010_ranges(tokens, idx, ignore, idx.len() as int)
    } else {
        Seq::empty()
    }
}

/// The end of the run of tabs from `i`.
pub open spec fn tab_end(s: Seq<char>, i: int) -> int
    decreases s.len() - i,
{
    if 0 <= i < s.len() && s[i] == '\t' {
        tab_end(s, i + 1)
    } else {
        i
    }
}

/// The problem for a run of `length` tabs at `column` of line `ln`: the
/// column as detail, and (when the count fits) a fix writing
/// `length * mult` spaces.
pub open spec fn md010_report(ln: usize, column: int, length: int, mult: usize) -> Report {
    Report {
        line: ln,
        detail: Some("Column: "@ + spec_int_text(column)),
        context: None,
        range: Some((column as usize, length as usize)),
        fix: if length * mult <= usize::MAX {
            Some(
                FixV {
                    line_number: None,
                    edit_column: Some(column as usize),
                    delete_count: Some(length as i64),
                    insert_text: Some(spec_spaces((length * mult) as nat)),
                },
            )
        } else {
            None
        },
    }
}

/// The problems for the runs of tabs of line `ln` (text `s`) from `i` on
/// that overlap no excluded span.
pub open spec fn md010_line(s: Seq<char>, ln: usize, code: Seq<Range>, mult: usize, i: int) -> Seq<Report>
    decreases s.len() - i,
{
    if i < 0 || i >= s.len() {
        Seq::empty()
    } else if s[i] == '\t' {
        let e = tab_end(s, i + 1);
        proof {
            lemma_tab_end_ge(s, i + 1);
        }
        let column = i + 1;
        let length = e - i;
        let run = Range { start_line: ln, start_col: column as usize, end_line: ln, end_col: (column + length - 1) as usize };
        let rest = md010_line(s, ln, code, mult, e);
        if exists|r: int| 0 <= r < code.len() && spec_overlaps(#[trigger] code[r], run) {
            rest
        } else {
            seq![md010_report(ln, column, length, mult)] + rest
        }
    } else {
        md010_line(s, ln, code, mult, i + 1)
    }
}

/// The problems for the first `k` lines.
pub open spec fn md010_upto(lines: Seq<Vec<char>>, code: Seq<Range>, mult: usize, k: int) -> Seq<Report>
    decreases k,
{
    if k <= 0 {
        Seq::empty()
    } else {
        md010_upto(lines, code, mult, k - 1) + md010_line(lines[k - 1]@, k as usize, code, mult, 0)
    }
}

pub proof fn lemma_tab_end_ge(s: Seq<char>, i: int)
    ensures
        i <= tab_end(s, i),
        i <= s.len() ==> tab_end(s, i) <= s.len(),
    decreases s.len() - i,
{
    if 0 <= i < s.len() && s[i] == '\t' {
        lemma_tab_end_ge(s, i + 1);
    }
}

proof fn lemma_tab_end(s: Seq<char>, i: int, j: int)
    requires
        0 <= i <= j <= s.len(),
        forall|k: int| i <= k < j ==> s[k] == '\t',
        j == s.len() || s[j] != '\t',
    ensures
        tab_end(s, i) == j,
    decreases j - i,
{
    if i < j {
        lemma_tab_end(s, i + 1, j);
    }
}

/// Whether every info string of the fenced code block `tok` is one of the
/// ignored languages (and there is at least one).
fn all_infos_ignored(tree: &Tree, tok: usize, ignore: &Vec<Vec<char>>) -> (r: bool)
    requires
        tree.wf(),
        tok < tree.tokens@.len(),
    ensures
        r == spec_all_infos_ignored(tree.tokens@, tok, names_view(ignore@)),
{
    let fk: [Kind; 1] = [Kind::CodeFencedFence];
    let ik: [Kind; 1] = [Kind::CodeFencedFenceInfo];
    let path: [&[Kind]; 2] = [&fk, &ik];
    proof {
        assert(fk@ =~= seq![Kind::CodeFencedFence]);
        assert(ik@ =~= seq![Kind::CodeFencedFenceInfo]);
        assert(crate::md::tokens::kind_path(path@) =~= seq![seq![Kind::CodeFencedFence], seq![Kind::CodeFencedFenceInfo]]);
    }
    let infos = tree.descendants_by_type(tok, &path);
    proof {
        assert(path@.len() == 2);
        assert(infos@ == walk_path(
            tree.tokens@,
            seq![tok],
            seq![seq![Kind::CodeFencedFence], seq![Kind::CodeFencedFenceInfo]],
            2,
        ));
    }
    if infos.len() == 0 {
        return false;
    }
    let ghost iv = names_view(ignore@);
    let mut k: usize = 0;
    while k < infos.len()
        invariant
            k <= infos@.len(),
            tree.wf(),
            iv == names_view(ignore@),
            infos@ == walk_path(
                tree.tokens@,
                seq![tok],
                seq![seq![Kind::CodeFencedFence], seq![Kind::CodeFencedFenceInfo]],
                2,
            ),
            infos@.len() > 0,
            forall|q: int| 0 <= q < infos@.len() ==> #[trigger] infos@[q] < tree.tokens@.len(),
            forall|q: int| 0 <= q < k ==> iv.contains(str_to_lowercase(#[trigger] tree.tokens@[infos@[q] as int].text@)),
        decreases infos@.len() - k,
    {
        let t = tree.get(infos[k]);
        let low = lowercase(&t.text);
        let found = contains_text(ignore, &low);
        proof {
            lemma_contains_views(ignore@, low@);
        }
        if !found {
            proof {
                assert(!iv.contains(str_to_lowercase(tree.tokens@[infos@[k as int] as int].text@)));
            }
            return false;
        }
        k += 1;
    }
    true
}

/// What `md010` reports: the problems it appends to `old_errors`.
pub open spec fn md010_reported(p: &Params, old_errors: Seq<RuleError>, new_errors: Seq<RuleError>) -> bool {
    reports_are(
        old_errors,
        new_errors,
        md010_upto(
            p.lines@,
            md010_code(p.tree.tokens@, p.config.entries@),
            md010_mult(p.config.entries@),
            p.lines@.len() as int,
        ),
    )
}

/// Report each run of hard tabs outside the excluded code: all code when
/// `code_blocks` is false, fenced code in an ignored language otherwise.
/// The fix replaces the run with `spaces_per_tab` spaces per tab.
pub fn md010(p: &Params, emit: &mut Emit)
    requires
        params_ok(p),
    ensures
        appended(old(emit).errors@, final(emit).errors@, p.lines@.len() as int),
        md010_reported(p, old(emit).errors@, final(emit).errors@),
{
    let include_code = p.config.opt_bool("code_blocks", true);
    let ignore_langs = lower_list(p, "ignore_code_languages");
    let ghost cfg = p.config.entries@;
    let ghost ignore = names_view(ignore_langs@);
    let multiplier: usize = match p.config.opt("spaces_per_tab") {
        Some(OptValue::One(Scalar::Num(x))) => match x.int {
            Some(v) => if v < 0 {
                0
            } else {
                v as usize
            },
            None => 1,
        },
        Some(_) => 1,
        None => 1,
    };
    proof {
        assert(multiplier == md010_mult(cfg));
    }
    let tree = p.tree;
    let ghost toks = tree.tokens@;
    let mut exclusion: Vec<Kind> = Vec::new();
    if include_code {
        if ignore_langs.len() > 0 {
            exclusion.push(Kind::CodeFenced);
        }
    } else {
        exclusion.push(Kind::CodeFenced);
        exclusion.push(Kind::CodeIndented);
        exclusion.push(Kind::CodeText);
    }
    proof {
        assert(exclusion@ =~= md010_exclusion(include_code, ignore));
    }
    let mut code_ranges: Vec<Range> = Vec::new();
    if exclusion.len() > 0 {
        let idx = tree.filter_idx(exclusion.as_slice());
        let mut c: usize = 0;
        while c < idx.len()
            invariant
                c <= idx@.len(),
                params_ok(p),
                tree == p.tree,
                toks == tree.tokens@,
                ignore == names_view(ignore_langs@),
                idx@ == filter_idx_upto(toks, exclusion@, toks.len() as int),
                code_ranges@ == md010_ranges(toks, idx@, ignore, c as int),
                forall|k: int| 0 <= k < idx@.len() ==> #[trigger] idx@[k] < tree.tokens@.len(),
            decreases idx@.len() - c,
        {
            let tok = idx[c];
            let t = tree.get(tok);
            let code_fenced = t.kind == Kind::CodeFenced;
            if code_fenced && ignore_langs.len() > 0 && !all_infos_ignored(tree, tok, &ignore_langs) {
                c += 1;
                continue;
            }
            if code_fenced {
                if t.start_line < usize::MAX && t.end_line > 0 {
                    code_ranges.push(
                        Range {
                            start_line: t.start_line + 1,
                            start_col: 0,
                            end_line: t.end_line - 1,
                            end_col: usize::MAX,
                        },
                    );
                }
            } else {
                code_ranges.push(
                    Range {
                        start_line: t.start_line,
                        start_col: t.start_column,
                        end_line: t.end_line,
                        end_col: t.end_column,
                    },
                );
            }
            c += 1;
        }
    }
    let ghost code = code_ranges@;
    proof {
        assert(code == md010_code(toks, cfg));
    }
    let n = p.lines.len();
    let ghost lines = p.lines@;
    let ghost e0 = emit.errors@;
    proof {
        lemma_appended_refl(e0, n as int);
        lemma_reports_start(e0);
    }
    let mut li: usize = 0;
    while li < n
        invariant
            li <= n,
            n == p.lines@.len(),
            lines == p.lines@,
            params_ok(p),
            code == code_ranges@,
            multiplier == md010_mult(cfg),
            appended(e0, emit.errors@, n as int),
            reports_are(e0, emit.errors@, md010_upto(lines, code, multiplier, li as int)),
        decreases n - li,
    {
        let line = &p.lines[li];
        let line_number = li + 1;
        let len = line.len();
        let ghost s = line@;
        let ghost mid = emit.errors@;
        let ghost mut acc: Seq<Report> = Seq::empty();
        proof {
            lemma_reports_start(mid);
            assert(md010_line(s, line_number, code, multiplier, 0) == acc + md010_line(s, line_number, code, multiplier, 0));
        }
        let mut i: usize = 0;
        while i < len
            invariant
                i <= len,
                len == line@.len(),
                s == line@,
                len < usize::MAX / 4,
                li < n,
                line_number == li + 1,
                n == p.lines@.len(),
                code == code_ranges@,
                appended(e0, emit.errors@, n as int),
                reports_are(mid, emit.errors@, acc),
                md010_line(s, line_number, code, multiplier, 0) == acc + md010_line(s, line_number, code, multiplier, i as int),
            decreases len - i,
        {
            if line[i] == '\t' {
                let start = i;
                i += 1;
                while i < len && line[i] == '\t'
                    invariant
                        start < i <= len,
                        len == line@.len(),
                        forall|k: int| start < k < i ==> line@[k] == '\t',
                    decreases len - i,
                {
                    i += 1;
                }
                proof {
                    lemma_tab_end(s, start + 1, i as int);
                }
                let column = start + 1;
                let length = i - start;
                let range = Range {
                    start_line: line_number,
                    start_col: column,
                    end_line: line_number,
                    end_col: column + length - 1,
                };
                let mut hit = false;
                let mut r: usize = 0;
                while r < code_ranges.len() && !hit
                    invariant
                        r <= code_ranges@.len(),
                        !hit ==> forall|q: int| 0 <= q < r ==> !spec_overlaps(#[trigger] code_ranges@[q], range),
                        hit ==> exists|q: int| 0 <= q < code_ranges@.len() && spec_overlaps(#[trigger] code_ranges@[q], range),
                    decreases code_ranges@.len() - r + (if hit { 0int } else { 1int }),
                {
                    if overlaps(&code_ranges[r], &range) {
                        hit = true;
                    } else {
                        r += 1;
                    }
                }
                let ghost rest = md010_line(s, line_number, code, multiplier, i as int);
                if !hit {
                    // A replacement too long to count has no fix.
                    let fix = match length.checked_mul(multiplier) {
                        Some(total) => {
                            let sp = spaces(total);
                            Some(
                                FixInfo {
                                    line_number: None,
                                    edit_column: Some(column),
                                    delete_count: Some(length as i64),
                                    insert_text: Some(sp),
                                },
                            )
                        },
                        None => None,
                    };
                    let mut d = super::lit("Column: ");
                    super::concat(&mut d, &usize_text(column));
                    let ghost m2 = emit.errors@;
                    emit.add(
                        line_number,
                        Some(d),
                        None,
                        Some((column, length)),
                        fix,
                    );
                    proof {
                        lemma_appended_step(e0, m2, emit.errors@, n as int, line_number);
                        lemma_reports_push(mid, m2, acc, emit.errors@.last());
                        assert(report_of(emit.errors@.last()) == md010_report(line_number, column as int, length as int, multiplier));
                        assert(md010_line(s, line_number, code, multiplier, start as int) == seq![md010_report(line_number, column as int, length as int, multiplier)] + rest);
                        assert(acc + md010_line(s, line_number, code, multiplier, start as int) =~= acc.push(report_of(emit.errors@.last())) + rest);
                        acc = acc.push(report_of(emit.errors@.last()));
                    }
                } else {
                    proof {
                        assert(md010_line(s, line_number, code, multiplier, start as int) == rest);
                    }
                }
            } else {
                i += 1;
            }
        }
        proof {
            assert(acc + md010_line(s, line_number, code, multiplier, i as int) =~= acc);
            lemma_reports_concat(e0, mid, emit.errors@, md010_upto(lines, code, multiplier, li as int), acc);
        }
        li += 1;
    }
}

} // verus!
