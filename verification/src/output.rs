//! Output: markdownlint-cli's text format, and the order of the entries of
//! its JSON format.

use vstd::prelude::*;

use crate::linter::LintError;
use crate::rules::helpers::push_all;
use crate::rules::{spec_int_text, usize_text};
use crate::rules::Severity;
use crate::text::chars_of;

verus! {

/// One file's problems.
pub struct FileReport<'a> {
    pub file: &'a str,
    pub errors: &'a Vec<LintError>,
}

/// The output formats.
#[derive(Clone, Copy, Debug, PartialEq, Eq, Structural)]
pub enum OutputFormat {
    Text,
    Json,
}

/// `a` sorts strictly before `b`, character by character.
pub open spec fn lex_less(a: Seq<char>, b: Seq<char>) -> bool
    decreases a.len(),
{
    if b.len() == 0 {
        false
    } else if a.len() == 0 {
        true
    } else if a[0] != b[0] {
        (a[0] as u32) < (b[0] as u32)
    } else {
        lex_less(a.skip(1), b.skip(1))
    }
}

/// Whether `a` sorts strictly before `b`.
pub fn text_less(a: &[char], b: &[char]) -> (r: bool)
    ensures
        r == lex_less(a@, b@),
{
    let mut i: usize = 0;
    proof {
        assert(a@.skip(0) =~= a@);
        assert(b@.skip(0) =~= b@);
    }
    while i < a.len() && i < b.len() && a[i] == b[i]
        invariant
            i <= a@.len(),
            i <= b@.len(),
            lex_less(a@.skip(i as int), b@.skip(i as int)) == lex_less(a@, b@),
        decreases a@.len() - i,
    {
        proof {
            assert(a@.skip(i as int).skip(1) =~= a@.skip(i + 1));
            assert(b@.skip(i as int).skip(1) =~= b@.skip(i + 1));
        }
        i += 1;
    }
    if i == b.len() {
        false
    } else if i == a.len() {
        true
    } else {
        (a[i] as u32) < (b[i] as u32)
    }
}

/// The first `k` rule names joined with `/`.
pub open spec fn joined_names(names: Seq<&'static str>, k: int) -> Seq<char>
    decreases k,
{
    if k <= 0 {
        Seq::empty()
    } else if k == 1 {
        names[0]@
    } else {
        joined_names(names, k - 1) + seq!['/'] + names[k - 1]@
    }
}

/// The rule names of a problem joined with `/`.
pub open spec fn spec_names(err: LintError) -> Seq<char> {
    joined_names(err.rule_names@, err.rule_names@.len() as int)
}

/// The description, then ` [detail]` and ` [Context: "context"]` when
/// present.
pub open spec fn spec_description(err: LintError) -> Seq<char> {
    let d = err.rule_description@;
    let with_detail = match err.error_detail {
        Some(x) => d + " ["@ + x@ + seq![']'],
        None => d,
    };
    match err.error_context {
        Some(x) => with_detail + " [Context: \""@ + x@ + "\"]"@,
        None => with_detail,
    }
}

/// The rule names joined with `/`.
pub fn names(err: &LintError) -> (r: Vec<char>)
    ensures
        r@ == spec_names(*err),
{
    let mut out: Vec<char> = Vec::new();
    let mut k: usize = 0;
    while k < err.rule_names.len()
        invariant
            k <= err.rule_names@.len(),
            out@ == joined_names(err.rule_names@, k as int),
        decreases err.rule_names@.len() - k,
    {
        if k > 0 {
            out.push('/');
        }
        let c = chars_of(err.rule_names[k]);
        push_all(&mut out, &c, 0, c.len());
        proof {
            assert(c@.subrange(0, c@.len() as int) =~= c@);
            if k == 0 {
                assert(out@ =~= joined_names(err.rule_names@, 1));
            } else {
                assert(out@ =~= joined_names(err.rule_names@, k + 1));
            }
        }
        k += 1;
    }
    out
}

/// The description, then ` [detail]` and ` [Context: "context"]` when
/// present.
pub fn description(err: &LintError) -> (r: Vec<char>)
    ensures
        r@ == spec_description(*err),
{
    let mut d = chars_of(err.rule_description);
    match &err.error_detail {
        Some(x) => {
            let a = chars_of(" [");
            push_all(&mut d, &a, 0, a.len());
            push_all(&mut d, x, 0, x.len());
            d.push(']');
            proof {
                assert(a@.subrange(0, a@.len() as int) =~= a@);
                assert(x@.subrange(0, x@.len() as int) =~= x@);
            }
        },
        None => {},
    }
    let ghost d1 = d@;
    match &err.error_context {
        Some(x) => {
            let a = chars_of(" [Context: \"");
            push_all(&mut d, &a, 0, a.len());
            push_all(&mut d, x, 0, x.len());
            let b = chars_of("\"]");
            push_all(&mut d, &b, 0, b.len());
            proof {
                assert(a@.subrange(0, a@.len() as int) =~= a@);
                assert(x@.subrange(0, x@.len() as int) =~= x@);
                assert(b@.subrange(0, b@.len() as int) =~= b@);
                assert(d@ =~= d1 + a@ + x@ + b@);
            }
        },
        None => {},
    }
    d
}

/// A problem with its file, and the keys it is sorted by.
struct Flat {
    report: usize,
    error: usize,
    file: Vec<char>,
    line: usize,
    names: Vec<char>,
    desc: Vec<char>,
}

/// A problem with its file and sort keys, by value.
pub struct FlatV {
    pub report: int,
    pub error: int,
    pub file: Seq<char>,
    pub line: usize,
    pub names: Seq<char>,
    pub desc: Seq<char>,
}

spec fn flat_view(f: Flat) -> FlatV {
    FlatV { report: f.report as int, error: f.error as int, file: f.file@, line: f.line, names: f.names@, desc: f.desc@ }
}

/// `a` sorts before `b`: by file, line, then names and description.
pub open spec fn spec_flat_less(a: FlatV, b: FlatV) -> bool {
    if lex_less(a.file, b.file) {
        true
    } else if lex_less(b.file, a.file) {
        false
    } else if a.line != b.line {
        a.line < b.line
    } else if lex_less(a.names, b.names) {
        true
    } else if lex_less(b.names, a.names) {
        false
    } else {
        lex_less(a.desc, b.desc)
    }
}

/// Problem `e` of report `r` with its keys: for text, the names and the
/// full description; for JSON, no names and the rule description.
pub open spec fn flat_of(reports: Seq<FileReport>, r: int, e: int, for_text: bool) -> FlatV {
    let err = reports[r].errors@[e];
    FlatV {
        report: r,
        error: e,
        file: reports[r].file@,
        line: err.line_number,
        names: if for_text { spec_names(err) } else { Seq::empty() },
        desc: if for_text { spec_description(err) } else { err.rule_description@ },
    }
}

/// Where `x` goes in `s`, looking down from `pos`: after the entries it
/// does not sort before.
pub open spec fn flat_insert_at(s: Seq<FlatV>, x: FlatV, pos: int) -> int
    decreases pos,
{
    if pos <= 0 || !spec_flat_less(x, s[pos - 1]) {
        pos
    } else {
        flat_insert_at(s, x, pos - 1)
    }
}

/// The first `e` problems of report `r` inserted, in order, into `s`.
pub open spec fn sort_errors(s: Seq<FlatV>, reports: Seq<FileReport>, r: int, e: int, for_text: bool) -> Seq<FlatV>
    decreases e,
{
    if e <= 0 {
        s
    } else {
        let prev = sort_errors(s, reports, r, e - 1, for_text);
        let x = flat_of(reports, r, e - 1, for_text);
        prev.insert(flat_insert_at(prev, x, prev.len() as int), x)
    }
}

/// The problems of the first `r` reports, stably sorted.
pub open spec fn sorted_flat(reports: Seq<FileReport>, r: int, for_text: bool) -> Seq<FlatV>
    decreases r,
{
    if r <= 0 {
        Seq::empty()
    } else {
        sort_errors(sorted_flat(reports, r - 1, for_text), reports, r - 1, reports[r - 1].errors@.len() as int, for_text)
    }
}

/// `a` sorts before `b`: by file, line, then (for text) names and
/// description, or (for JSON) the rule description alone.
fn flat_less(a: &Flat, b: &Flat) -> (r: bool)
    ensures
        r == spec_flat_less(flat_view(*a), flat_view(*b)),
{
    if text_less(&a.file, &b.file) {
        return true;
    }
    if text_less(&b.file, &a.file) {
        return false;
    }
    if a.line != b.line {
        return a.line < b.line;
    }
    if text_less(&a.names, &b.names) {
        return true;
    }
    if text_less(&b.names, &a.names) {
        return false;
    }
    text_less(&a.desc, &b.desc)
}

spec fn flat_views(s: Seq<Flat>) -> Seq<FlatV> {
    s.map_values(|f: Flat| flat_view(f))
}

/// Every problem of every report, stably sorted.
#[verifier::rlimit(30)]
fn collect_sorted(reports: &Vec<FileReport>, for_text: bool) -> (r: Vec<Flat>)
    ensures
        flat_views(r@) == sorted_flat(reports@, reports@.len() as int, for_text),
{
    let mut flat: Vec<Flat> = Vec::new();
    let mut r: usize = 0;
    proof {
        assert(flat_views(flat@) =~= sorted_flat(reports@, 0, for_text));
    }
    while r < reports.len()
        invariant
            r <= reports@.len(),
            flat_views(flat@) == sorted_flat(reports@, r as int, for_text),
        decreases reports@.len() - r,
    {
        let rep = &reports[r];
        let ghost s0 = flat_views(flat@);
        let mut e: usize = 0;
        while e < rep.errors.len()
            invariant
                e <= rep.errors@.len(),
                r < reports@.len(),
                *rep == reports@[r as int],
                flat_views(flat@) == sort_errors(s0, reports@, r as int, e as int, for_text),
            decreases rep.errors@.len() - e,
        {
            let err = &rep.errors[e];
            let x = Flat {
                report: r,
                error: e,
                file: chars_of(rep.file),
                line: err.line_number,
                names: if for_text {
                    names(err)
                } else {
                    Vec::new()
                },
                desc: if for_text {
                    description(err)
                } else {
                    chars_of(err.rule_description)
                },
            };
            let ghost xv = flat_view(x);
            let ghost sv = flat_views(flat@);
            proof {
                assert(xv == flat_of(reports@, r as int, e as int, for_text));
            }
            let mut pos = flat.len();
            while pos > 0 && flat_less(&x, &flat[pos - 1])
                invariant
                    pos <= flat@.len(),
                    sv == flat_views(flat@),
                    xv == flat_view(x),
                    flat_insert_at(sv, xv, pos as int) == flat_insert_at(sv, xv, sv.len() as int),
                decreases pos,
            {
                proof {
                    assert(sv[pos - 1] == flat_view(flat@[pos - 1]));
                }
                pos -= 1;
            }
            proof {
                if pos > 0 {
                    assert(sv[pos - 1] == flat_view(flat@[pos - 1]));
                }
                assert(flat_insert_at(sv, xv, pos as int) == pos);
            }
            flat.insert(pos, x);
            proof {
                assert(flat_views(flat@) =~= sv.insert(pos as int, xv));
            }
            e += 1;
        }
        r += 1;
    }
    flat
}

/// The line of one problem in the text format:
/// `file:line[:column] severity names description`.
pub open spec fn text_line(err: LintError, f: FlatV) -> Seq<char> {
    let col = match err.error_range {
        Some((column, _)) => if column != 0 {
            seq![':'] + spec_int_text(column as int)
        } else {
            Seq::empty()
        },
        None => Seq::empty(),
    };
    let sev = if err.severity is Error {
        "error"@
    } else {
        "warning"@
    };
    f.file + seq![':'] + spec_int_text(err.line_number as int) + col + seq![' '] + sev + seq![' '] + f.names + seq![' ']
        + f.desc
}

/// The text format of the first `k` sorted problems `flat`, a newline
/// before each but the first.
pub open spec fn text_upto(reports: Seq<FileReport>, flat: Seq<FlatV>, k: int) -> Seq<char>
    decreases k,
{
    if k <= 0 {
        Seq::empty()
    } else {
        let prev = text_upto(reports, flat, k - 1);
        let f = flat[k - 1];
        if 0 <= f.report < reports.len() && 0 <= f.error < reports[f.report].errors@.len() {
            prev + (if k > 1 { seq!['\n'] } else { Seq::empty() }) + text_line(reports[f.report].errors@[f.error], f)
        } else {
            prev
        }
    }
}

/// One problem's line of the text format.
fn format_line(err: &LintError, file: &[char], names: &[char], desc: &[char]) -> (r: Vec<char>)
    ensures
        r@ == text_line(*err, FlatV { report: 0, error: 0, file: file@, line: 0, names: names@, desc: desc@ }),
{
    let mut out: Vec<char> = Vec::new();
    push_all(&mut out, file, 0, file.len());
    out.push(':');
    let ln = usize_text(err.line_number);
    push_all(&mut out, &ln, 0, ln.len());
    let ghost o2 = out@;
    match err.error_range {
        Some((column, _)) => {
            if column != 0 {
                out.push(':');
                let c = usize_text(column);
                push_all(&mut out, &c, 0, c.len());
                proof {
                    assert(c@.subrange(0, c@.len() as int) =~= c@);
                }
            }
        },
        None => {},
    }
    out.push(' ');
    let sev = chars_of(err.severity.as_str());
    push_all(&mut out, &sev, 0, sev.len());
    out.push(' ');
    push_all(&mut out, names, 0, names.len());
    out.push(' ');
    push_all(&mut out, desc, 0, desc.len());
    proof {
        reveal_strlit("error");
        reveal_strlit("warning");
        assert(file@.subrange(0, file@.len() as int) =~= file@);
        assert(ln@.subrange(0, ln@.len() as int) =~= ln@);
        assert(sev@.subrange(0, sev@.len() as int) =~= sev@);
        assert(names@.subrange(0, names@.len() as int) =~= names@);
        assert(desc@.subrange(0, desc@.len() as int) =~= desc@);
        assert(out@ =~= text_line(*err, FlatV { report: 0, error: 0, file: file@, line: 0, names: names@, desc: desc@ }));
    }
    out
}

/// The problems in markdownlint-cli's text format, one per line:
/// `file:line[:column] severity names description`, sorted by file, line,
/// names and description.
#[verifier::rlimit(30)]
pub fn render_text(reports: &Vec<FileReport>) -> (r: Vec<char>)
    ensures
        ({
            let flat = sorted_flat(reports@, reports@.len() as int, true);
            r@ == text_upto(reports@, flat, flat.len() as int)
        }),
{
    let flat = collect_sorted(reports, true);
    let ghost fv = flat_views(flat@);
    let mut out: Vec<char> = Vec::new();
    let mut k: usize = 0;
    while k < flat.len()
        invariant
            k <= flat@.len(),
            fv == flat_views(flat@),
            out@ == text_upto(reports@, fv, k as int),
        decreases flat@.len() - k,
    {
        let f = &flat[k];
        proof {
            assert(fv[k as int] == flat_view(*f));
        }
        if f.report < reports.len() && f.error < reports[f.report].errors.len() {
            let err = &reports[f.report].errors[f.error];
            let ghost o0 = out@;
            if k > 0 {
                out.push('\n');
            }
            let ghost o1 = out@;
            let line = format_line(err, &f.file, &f.names, &f.desc);
            push_all(&mut out, &line, 0, line.len());
            proof {
                assert(line@.subrange(0, line@.len() as int) =~= line@);
                assert(text_line(*err, FlatV { report: 0, error: 0, file: f.file@, line: 0, names: f.names@, desc: f.desc@ })
                    == text_line(*err, flat_view(*f)));
                assert(o1 =~= o0 + (if k > 0 { seq!['\n'] } else { Seq::empty() }));
            }
        }
        k += 1;
    }
    out
}

/// The order of the JSON format's entries: (report, problem) pairs sorted
/// by file, line and rule description.
pub fn json_order(reports: &Vec<FileReport>) -> (r: Vec<(usize, usize)>)
    ensures
        ({
            let flat = sorted_flat(reports@, reports@.len() as int, false);
            &&& r@.len() == flat.len()
            &&& forall|k: int| 0 <= k < r@.len() ==> #[trigger] r@[k].0 == flat[k].report && r@[k].1 == flat[k].error
        }),
{
    let flat = collect_sorted(reports, false);
    let ghost fv = flat_views(flat@);
    let mut out: Vec<(usize, usize)> = Vec::new();
    let mut k: usize = 0;
    while k < flat.len()
        invariant
            k <= flat@.len(),
            fv == flat_views(flat@),
            out@.len() == k,
            forall|q: int| 0 <= q < k ==> #[trigger] out@[q].0 == fv[q].report && out@[q].1 == fv[q].error,
        decreases flat@.len() - k,
    {
        proof {
            assert(fv[k as int] == flat_view(flat@[k as int]));
        }
        out.push((flat[k].report, flat[k].error));
        k += 1;
    }
    out
}

} // verus!
