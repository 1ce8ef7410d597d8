//! The rules: what a rule reports (`RuleError`, collected by `Emit`), what
//! it is given (`Params`), its options (`Options`), and the registry of
//! rules (`RuleId`).

pub mod helpers;
pub mod md001;
pub mod md003;
pub mod md004;
pub mod md005;
pub mod md007;
pub mod md009;
pub mod md010;
pub mod md011;
pub mod md012;
pub mod md018;
pub mod md019;
pub mod md020;
pub mod md022;
pub mod md023;
pub mod md024;
pub mod md025;
pub mod md026;
pub mod md027;
pub mod md013;
pub mod md014;
pub mod md028;
pub mod md029;
pub mod md030;
pub mod md031;
pub mod md032;
pub mod md033;
pub mod md034;
pub mod md035;
pub mod md036;
pub mod md036_support;
pub mod md037;
pub mod md038;
pub mod md039;
pub mod md040;
pub mod md041;
pub mod md042;
pub mod md043;
pub mod md044;
pub mod md045;
pub mod md046;
pub mod md048;
pub mod md049;
pub mod md051;
pub mod md055;
pub mod md056;
pub mod md058;
pub mod md059;
pub mod md047;
pub mod options;
pub mod registry;

use vstd::prelude::*;

use crate::md::kind::Kind;
use crate::md::tokens::{Token, Tree, filter_idx_upto};
use self::helpers::{ellipsify, spec_ellipsify};
use self::options::Options;

verus! {

/// Severity of a reported problem.
#[derive(Clone, Copy, Debug, PartialEq, Eq, Structural)]
pub enum Severity {
    Error,
    Warning,
}

impl Severity {
    /// The word used for the severity in the output.
    pub fn as_str(&self) -> (r: &'static str)
        ensures
            *self is Error ==> r@ == "error"@,
            *self is Warning ==> r@ == "warning"@,
    {
        proof {
            reveal_strlit("error");
            reveal_strlit("warning");
        }
        match self {
            Severity::Error => "error",
            Severity::Warning => "warning",
        }
    }
}

/// An edit that fixes a problem: on line `line_number` (the problem's own
/// line when absent), at 1-based `edit_column` (1 when absent), delete
/// `delete_count` characters (`-1` deletes the line) and insert
/// `insert_text`.
#[derive(Clone, Debug)]
pub struct FixInfo {
    pub line_number: Option<usize>,
    pub edit_column: Option<usize>,
    pub delete_count: Option<i64>,
    pub insert_text: Option<Vec<char>>,
}

impl FixInfo {
    /// A fix that deletes `count` characters at `column`.
    pub fn delete(column: usize, count: i64) -> (f: FixInfo)
        ensures
            f.line_number is None,
            f.edit_column == Some(column),
            f.delete_count == Some(count),
            f.insert_text is None,
    {
        FixInfo { line_number: None, edit_column: Some(column), delete_count: Some(count), insert_text: None }
    }

    /// A fix that deletes its whole line.
    pub fn delete_line() -> (f: FixInfo)
        ensures
            f.line_number is None,
            f.edit_column is None,
            f.delete_count == Some(-1i64),
            f.insert_text is None,
    {
        FixInfo { line_number: None, edit_column: None, delete_count: Some(-1), insert_text: None }
    }

    /// A fix that inserts `text` at `column`.
    pub fn insert(column: usize, text: Vec<char>) -> (f: FixInfo)
        ensures
            f.line_number is None,
            f.edit_column == Some(column),
            f.delete_count is None,
            f.insert_text == Some(text),
    {
        FixInfo { line_number: None, edit_column: Some(column), delete_count: None, insert_text: Some(text) }
    }
}

/// A problem as a rule reports it: a 1-based line of the linted lines, an
/// optional detail and context, a `(column, length)` range and a fix.
#[derive(Clone, Debug)]
pub struct RuleError {
    pub line_number: usize,
    pub detail: Option<Vec<char>>,
    pub context: Option<Vec<char>>,
    pub range: Option<(usize, usize)>,
    pub fix_info: Option<FixInfo>,
}

/// What a rule sees: the lines of the document (HTML comments cleared),
/// the front matter's lines, the token tree and the rule's options.
pub struct Params<'a> {
    pub lines: &'a Vec<Vec<char>>,
    pub front_matter_lines: &'a Vec<Vec<char>>,
    pub tree: &'a Tree,
    pub config: &'a Options,
}

/// The problems a rule has reported so far.
pub struct Emit {
    pub errors: Vec<RuleError>,
}

/// The text of an optional `&[char]` argument.
pub open spec fn opt_view(o: Option<&[char]>) -> Option<Seq<char>> {
    match o {
        Some(s) => Some(s@),
        None => None,
    }
}

/// The view of an optional text.
pub open spec fn opt_seq(o: Option<Vec<char>>) -> Option<Seq<char>> {
    match o {
        Some(s) => Some(s@),
        None => None,
    }
}

/// `Expected: <expected>; Actual: <actual>`, then `; <detail>` when a
/// non-empty detail is given.
pub open spec fn detail_text(expected: Seq<char>, actual: Seq<char>, detail: Option<Seq<char>>) -> Seq<
    char,
> {
    let base = "Expected: "@ + expected + "; Actual: "@ + actual;
    match detail {
        Some(d) => if d.len() > 0 {
            base + "; "@ + d
        } else {
            base
        },
        None => base,
    }
}

/// A fix inserting `text` at `column`.
pub open spec fn is_insert(f: Option<FixInfo>, column: int, text: Seq<char>) -> bool {
    match f {
        Some(fi) => {
            &&& fi.line_number is None
            &&& fi.edit_column == Some(column as usize)
            &&& fi.delete_count is None
            &&& opt_seq(fi.insert_text) == Some(text)
        },
        None => false,
    }
}

/// A fix deleting `count` characters at `column`.
pub open spec fn is_delete(f: Option<FixInfo>, column: int, count: int) -> bool {
    match f {
        Some(fi) => {
            &&& fi.line_number is None
            &&& fi.edit_column == Some(column as usize)
            &&& fi.delete_count == Some(count as i64)
            &&& fi.insert_text is None
        },
        None => false,
    }
}

/// A fix with the given fields, its text by its characters.
pub open spec fn fix_is(
    f: Option<FixInfo>,
    line_number: Option<usize>,
    edit_column: Option<usize>,
    delete_count: Option<i64>,
    insert_text: Option<Seq<char>>,
) -> bool {
    match f {
        Some(fi) => {
            &&& fi.line_number == line_number
            &&& fi.edit_column == edit_column
            &&& fi.delete_count == delete_count
            &&& opt_seq(fi.insert_text) == insert_text
        },
        None => false,
    }
}

/// A reported problem's fields, by their views.
pub open spec fn error_is(
    e: RuleError,
    line: usize,
    detail: Option<Seq<char>>,
    context: Option<Seq<char>>,
    range: Option<(usize, usize)>,
    fix: Option<FixInfo>,
) -> bool {
    &&& e.line_number == line
    &&& opt_seq(e.detail) == detail
    &&& opt_seq(e.context) == context
    &&& e.range == range
    &&& e.fix_info == fix
}

/// `a` followed by `b`.
pub(crate) fn concat(a: &mut Vec<char>, b: &[char])
    ensures
        final(a)@ == old(a)@ + b@,
{
    let mut i: usize = 0;
    while i < b.len()
        invariant
            i <= b@.len(),
            a@ == old(a)@ + b@.take(i as int),
        decreases b@.len() - i,
    {
        a.push(b[i]);
        i += 1;
        proof {
            assert(b@.take(i as int) =~= b@.take(i - 1).push(b@[i - 1]));
        }
    }
    proof {
        assert(b@.take(b@.len() as int) =~= b@);
    }
}

/// The characters of a string literal.
pub(crate) fn lit(s: &str) -> (r: Vec<char>)
    ensures
        r@ == s@,
{
    crate::text::chars_of(s)
}

impl Emit {
    pub fn new() -> (e: Emit)
        ensures
            e.errors@.len() == 0,
    {
        Emit { errors: Vec::new() }
    }

    /// Report a problem (markdownlint's `addError`).
    pub fn add(
        &mut self,
        line_number: usize,
        detail: Option<Vec<char>>,
        context: Option<Vec<char>>,
        range: Option<(usize, usize)>,
        fix_info: Option<FixInfo>,
    )
        ensures
            final(self).errors@ == old(self).errors@.push(
                RuleError { line_number, detail, context, range, fix_info },
            ),
    {
        self.errors.push(RuleError { line_number, detail, context, range, fix_info });
    }

    /// Report `Expected: ..; Actual: ..` when `expected` and `actual`
    /// differ (markdownlint's `addErrorDetailIf`).
    pub fn add_detail_if(
        &mut self,
        line_number: usize,
        expected: &[char],
        actual: &[char],
        detail: Option<&[char]>,
        context: Option<Vec<char>>,
        range: Option<(usize, usize)>,
        fix_info: Option<FixInfo>,
    )
        ensures
            expected@ == actual@ ==> final(self).errors@ == old(self).errors@,
            expected@ != actual@ ==> final(self).errors@ == old(self).errors@.push(
                final(self).errors@.last(),
            ) && error_is(
                final(self).errors@.last(),
                line_number,
                Some(detail_text(expected@, actual@, opt_view(detail))),
                opt_seq(context),
                range,
                fix_info,
            ),
    {
        if slice_eq(expected, actual) {
            return;
        }
        let mut d = lit("Expected: ");
        concat(&mut d, expected);
        concat(&mut d, &lit("; Actual: "));
        concat(&mut d, actual);
        match detail {
            Some(x) => {
                if x.len() > 0 {
                    concat(&mut d, &lit("; "));
                    concat(&mut d, x);
                }
            },
            None => {},
        }
        self.add(line_number, Some(d), context, range, fix_info);
    }

    /// Report a problem with `context` shortened to 30 characters
    /// (markdownlint's `addErrorContext`).
    pub fn add_context(
        &mut self,
        line_number: usize,
        context: &[char],
        start: bool,
        end: bool,
        range: Option<(usize, usize)>,
        fix_info: Option<FixInfo>,
    )
        ensures
            final(self).errors@ == old(self).errors@.push(
                final(self).errors@.last(),
            ),
            error_is(
                final(self).errors@.last(),
                line_number,
                None,
                Some(spec_ellipsify(context@, start, end)),
                range,
                fix_info,
            ),
    {
        let c = ellipsify(context, start, end);
        self.add(line_number, None, Some(c), range, fix_info);
    }
}

/// `new` extends `old`: the problems reported before are kept, and every
/// problem added is on a line `1..=n_lines`.
pub open spec fn appended(old: Seq<RuleError>, new: Seq<RuleError>, n_lines: int) -> bool {
    &&& old.len() <= new.len()
    &&& new.take(old.len() as int) == old
    &&& forall|k: int| old.len() <= k < new.len() ==> 1 <= #[trigger] new[k].line_number <= n_lines
}

/// Adding one problem on a line in range keeps `appended`.
pub proof fn lemma_appended_push(old: Seq<RuleError>, mid: Seq<RuleError>, e: RuleError, n_lines: int)
    requires
        appended(old, mid, n_lines),
        1 <= e.line_number <= n_lines,
    ensures
        appended(old, mid.push(e), n_lines),
{
    assert(mid.push(e).take(old.len() as int) =~= mid.take(old.len() as int));
    assert forall|k: int| old.len() <= k < mid.push(e).len() implies 1 <= #[trigger] mid.push(
        e,
    )[k].line_number <= n_lines by {
        if k < mid.len() {
            assert(mid.push(e)[k] == mid[k]);
        }
    }
}

/// One step of a rule: nothing added, or one problem on `line`.
pub proof fn lemma_appended_step(
    old: Seq<RuleError>,
    mid: Seq<RuleError>,
    new: Seq<RuleError>,
    n_lines: int,
    line: usize,
)
    requires
        appended(old, mid, n_lines),
        new == mid || (new == mid.push(new.last()) && new.last().line_number == line),
        1 <= line <= n_lines,
    ensures
        appended(old, new, n_lines),
{
    if new != mid {
        lemma_appended_push(old, mid, new.last(), n_lines);
    }
}

/// Nothing added yet.
pub proof fn lemma_appended_refl(s: Seq<RuleError>, n_lines: int)
    ensures
        appended(s, s, n_lines),
{
    assert(s.take(s.len() as int) =~= s);
}

/// The positions `c < m` at which `f` holds, in order.
pub open spec fn picked(f: spec_fn(int) -> bool, m: int) -> Seq<int>
    decreases m,
{
    if m <= 0 {
        Seq::empty()
    } else if f(m - 1) {
        picked(f, m - 1).push(m - 1)
    } else {
        picked(f, m - 1)
    }
}

/// `new` is `old` followed by one problem for each position of `pos`, in
/// order, each as `err` describes it.
pub open spec fn reported_as(
    old: Seq<RuleError>,
    new: Seq<RuleError>,
    pos: Seq<int>,
    err: spec_fn(RuleError, int) -> bool,
) -> bool {
    &&& new.len() == old.len() + pos.len()
    &&& new.take(old.len() as int) == old
    &&& forall|j: int| 0 <= j < pos.len() ==> #[trigger] err(new[old.len() + j], pos[j])
}

/// Nothing reported yet.
pub proof fn lemma_reported_start(
    old: Seq<RuleError>,
    f: spec_fn(int) -> bool,
    err: spec_fn(RuleError, int) -> bool,
)
    ensures
        reported_as(old, old, picked(f, 0), err),
{
    assert(old.take(old.len() as int) =~= old);
}

/// One position looked at: reported as `err` says when `f` holds there,
/// nothing added otherwise.
pub proof fn lemma_reported_step(
    old: Seq<RuleError>,
    mid: Seq<RuleError>,
    new: Seq<RuleError>,
    f: spec_fn(int) -> bool,
    err: spec_fn(RuleError, int) -> bool,
    c: int,
)
    requires
        0 <= c,
        reported_as(old, mid, picked(f, c), err),
        f(c) ==> new == mid.push(new.last()) && err(new.last(), c),
        !f(c) ==> new == mid,
    ensures
        reported_as(old, new, picked(f, c + 1), err),
{
    if f(c) {
        let pos = picked(f, c + 1);
        assert(pos == picked(f, c).push(c));
        assert(new.take(old.len() as int) =~= mid.take(old.len() as int));
        assert forall|j: int| 0 <= j < pos.len() implies #[trigger] err(new[old.len() + j], pos[j]) by {
            if j < picked(f, c).len() {
                assert(new[old.len() + j] == mid[old.len() + j]);
            } else {
                assert(new[old.len() + j] == new.last());
            }
        }
    }
}

/// `new` is `old` followed by one bare problem (no detail, context, range
/// or fix) on each line of `lines`, in order.
pub open spec fn lines_reported(old: Seq<RuleError>, new: Seq<RuleError>, lines: Seq<usize>) -> bool {
    &&& new.len() == old.len() + lines.len()
    &&& new.take(old.len() as int) == old
    &&& forall|j: int|
        0 <= j < lines.len() ==> #[trigger] error_is(new[old.len() + j], lines[j], None, None, None, None)
}

/// The lines of `lines` in `1..=n`, in order.
pub open spec fn in_range(lines: Seq<usize>, n: int) -> Seq<usize>
    decreases lines.len(),
{
    if lines.len() == 0 {
        Seq::empty()
    } else {
        let rest = in_range(lines.drop_last(), n);
        if 1 <= lines.last() <= n {
            rest.push(lines.last())
        } else {
            rest
        }
    }
}

/// Nothing reported.
pub proof fn lemma_lines_start(old: Seq<RuleError>)
    ensures
        lines_reported(old, old, Seq::empty()),
{
    assert(old.take(old.len() as int) =~= old);
}

/// One more bare problem reported.
pub proof fn lemma_lines_push(old: Seq<RuleError>, mid: Seq<RuleError>, lines: Seq<usize>, e: RuleError)
    requires
        lines_reported(old, mid, lines),
        error_is(e, e.line_number, None, None, None, None),
    ensures
        lines_reported(old, mid.push(e), lines.push(e.line_number)),
{
    let new = mid.push(e);
    let ls = lines.push(e.line_number);
    assert(new.take(old.len() as int) =~= mid.take(old.len() as int));
    assert forall|j: int| 0 <= j < ls.len() implies #[trigger] error_is(new[old.len() + j], ls[j], None, None, None, None) by {
        if j < lines.len() {
            assert(new[old.len() + j] == mid[old.len() + j]);
        }
    }
}

/// Reports in two steps.
pub proof fn lemma_lines_concat(
    old: Seq<RuleError>,
    mid: Seq<RuleError>,
    new: Seq<RuleError>,
    a: Seq<usize>,
    b: Seq<usize>,
)
    requires
        lines_reported(old, mid, a),
        lines_reported(mid, new, b),
    ensures
        lines_reported(old, new, a + b),
{
    let ab = a + b;
    assert(new.take(old.len() as int) =~= mid.take(old.len() as int)) by {
        assert forall|k: int| 0 <= k < old.len() implies new[k] == mid[k] by {
            assert(new.take(mid.len() as int)[k] == mid[k]);
        }
    }
    assert forall|j: int| 0 <= j < ab.len() implies #[trigger] error_is(new[old.len() + j], ab[j], None, None, None, None) by {
        if j < a.len() {
            assert(new.take(mid.len() as int)[old.len() + j] == mid[old.len() + j]);
            assert(error_is(mid[old.len() + j], a[j], None, None, None, None));
        } else {
            assert(error_is(new[mid.len() + (j - a.len())], b[j - a.len()], None, None, None, None));
        }
    }
}

/// A fix by value: its text by its characters.
pub struct FixV {
    pub line_number: Option<usize>,
    pub edit_column: Option<usize>,
    pub delete_count: Option<i64>,
    pub insert_text: Option<Seq<char>>,
}

/// A fix's value.
pub open spec fn fix_view(f: Option<FixInfo>) -> Option<FixV> {
    match f {
        Some(fi) => Some(
            FixV {
                line_number: fi.line_number,
                edit_column: fi.edit_column,
                delete_count: fi.delete_count,
                insert_text: opt_seq(fi.insert_text),
            },
        ),
        None => None,
    }
}

/// A problem as a rule's contract describes it.
pub struct Report {
    pub line: usize,
    pub detail: Option<Seq<char>>,
    pub context: Option<Seq<char>>,
    pub range: Option<(usize, usize)>,
    pub fix: Option<FixV>,
}

/// The problem `e` by value.
pub open spec fn report_of(e: RuleError) -> Report {
    Report {
        line: e.line_number,
        detail: opt_seq(e.detail),
        context: opt_seq(e.context),
        range: e.range,
        fix: fix_view(e.fix_info),
    }
}

/// `new` is `old` followed by the problems `reports`, in order.
pub open spec fn reports_are(old: Seq<RuleError>, new: Seq<RuleError>, reports: Seq<Report>) -> bool {
    &&& new.len() == old.len() + reports.len()
    &&& new.take(old.len() as int) == old
    &&& forall|j: int| 0 <= j < reports.len() ==> #[trigger] report_of(new[old.len() + j]) == reports[j]
}

/// Nothing reported.
pub proof fn lemma_reports_start(old: Seq<RuleError>)
    ensures
        reports_are(old, old, Seq::empty()),
{
    assert(old.take(old.len() as int) =~= old);
}

/// One more problem reported.
pub proof fn lemma_reports_push(old: Seq<RuleError>, mid: Seq<RuleError>, reports: Seq<Report>, e: RuleError)
    requires
        reports_are(old, mid, reports),
    ensures
        reports_are(old, mid.push(e), reports.push(report_of(e))),
{
    let new = mid.push(e);
    let rs = reports.push(report_of(e));
    assert(new.take(old.len() as int) =~= mid.take(old.len() as int));
    assert forall|j: int| 0 <= j < rs.len() implies #[trigger] report_of(new[old.len() + j]) == rs[j] by {
        if j < reports.len() {
            assert(new[old.len() + j] == mid[old.len() + j]);
        }
    }
}

/// Problems reported in two steps.
pub proof fn lemma_reports_concat(
    old: Seq<RuleError>,
    mid: Seq<RuleError>,
    new: Seq<RuleError>,
    a: Seq<Report>,
    b: Seq<Report>,
)
    requires
        reports_are(old, mid, a),
        reports_are(mid, new, b),
    ensures
        reports_are(old, new, a + b),
{
    let ab = a + b;
    assert(new.take(old.len() as int) =~= mid.take(old.len() as int)) by {
        assert forall|k: int| 0 <= k < old.len() implies new[k] == mid[k] by {
            assert(new.take(mid.len() as int)[k] == mid[k]);
        }
    }
    assert forall|j: int| 0 <= j < ab.len() implies #[trigger] report_of(new[old.len() + j]) == ab[j] by {
        if j < a.len() {
            assert(new.take(mid.len() as int)[old.len() + j] == mid[old.len() + j]);
            assert(report_of(mid[old.len() + j]) == a[j]);
        } else {
            assert(report_of(new[mid.len() + (j - a.len())]) == b[j - a.len()]);
        }
    }
}

/// What the rules assume of their input: a well-formed tree, and lines and
/// front matter whose sizes leave room for column arithmetic.
pub open spec fn params_ok(p: &Params) -> bool {
    &&& p.tree.wf()
    &&& p.lines@.len() < usize::MAX / 4
    &&& forall|k: int| 0 <= k < p.lines@.len() ==> (#[trigger] p.lines@[k])@.len() < usize::MAX / 4
    &&& forall|k: int|
        0 <= k < p.front_matter_lines@.len() ==> (#[trigger] p.front_matter_lines@[k])@.len() < usize::MAX
            / 4
}

/// `n + 1` unset marks, one per line number `0..=n`.
pub fn new_marks(n: usize) -> (r: Vec<bool>)
    ensures
        r@.len() == n + 1,
        forall|k: int| 0 <= k < r@.len() ==> !#[trigger] r@[k],
{
    let mut r: Vec<bool> = Vec::new();
    r.push(false);
    let mut i: usize = 0;
    while i < n
        invariant
            i <= n,
            r@.len() == i + 1,
            forall|k: int| 0 <= k < r@.len() ==> !#[trigger] r@[k],
        decreases n - i,
    {
        r.push(false);
        i += 1;
    }
    r
}

/// Set the marks of lines `from..=to` (those that exist).
pub fn mark_range(marks: &mut Vec<bool>, from: usize, to: usize)
    ensures
        final(marks)@.len() == old(marks)@.len(),
        forall|k: int|
            0 <= k < final(marks)@.len() ==> #[trigger] final(marks)@[k] == (old(marks)@[k] || (from
                <= k <= to)),
{
    let n = marks.len();
    let mut i = from;
    while i < n && i <= to
        invariant
            n == marks@.len(),
            n == old(marks)@.len(),
            from <= i,
            forall|k: int|
                0 <= k < n ==> #[trigger] marks@[k] == (old(marks)@[k] || (from <= k < i && k <= to)),
        decreases n - i,
    {
        marks.set(i, true);
        i += 1;
    }
}

/// Whether line `k` is marked (lines past the marks are not).
pub fn marked(marks: &Vec<bool>, k: usize) -> (r: bool)
    ensures
        r == (k < marks@.len() && marks@[k as int]),
{
    k < marks.len() && marks[k]
}

/// Which lines of a token count: all of them, those strictly between its
/// first and last, or all but the last (at least the first).
#[derive(Clone, Copy, PartialEq, Eq, Structural)]
pub enum Span {
    Whole,
    Inner,
    ButLast,
}

/// The last line that `Span::ButLast` counts.
pub open spec fn span_last(t: Token) -> int {
    if t.end_line > 0 && t.end_line - 1 > t.start_line {
        t.end_line - 1
    } else {
        t.start_line as int
    }
}

/// Line `l` counts for token `t`.
pub open spec fn in_span(t: Token, s: Span, l: int) -> bool {
    match s {
        Span::Whole => t.start_line <= l <= t.end_line,
        Span::Inner => t.start_line < l < t.end_line,
        Span::ButLast => t.start_line <= l <= span_last(t),
    }
}

/// Line `l` counts for some token among `ids`.
pub open spec fn covers(tokens: Seq<Token>, ids: Seq<usize>, s: Span, l: int) -> bool {
    exists|j: int| #![trigger ids[j]] 0 <= j < ids.len() && in_span(tokens[ids[j] as int], s, l)
}

/// Line `l` counts for a token of one of `kinds`.
pub open spec fn on_kind_line(tokens: Seq<Token>, kinds: Seq<Kind>, s: Span, l: int) -> bool {
    covers(tokens, filter_idx_upto(tokens, kinds, tokens.len() as int), s, l)
}

/// One mark per line number `0..=n`: whether the line counts for a token
/// of one of `kinds`.
pub fn kind_line_marks(tree: &Tree, kinds: &[Kind], s: Span, n: usize) -> (r: Vec<bool>)
    requires
        n < usize::MAX,
    ensures
        r@.len() == n + 1,
        forall|l: int| 0 <= l <= n ==> #[trigger] r@[l] == on_kind_line(tree.tokens@, kinds@, s, l),
{
    let mut marks = new_marks(n);
    let idx = tree.filter_idx(kinds);
    let mut c: usize = 0;
    while c < idx.len()
        invariant
            c <= idx@.len(),
            n < usize::MAX,
            marks@.len() == n + 1,
            forall|k: int| 0 <= k < idx@.len() ==> #[trigger] idx@[k] < tree.tokens@.len(),
            forall|l: int| 0 <= l <= n ==> #[trigger] marks@[l] == covers(tree.tokens@, idx@.take(c as int), s, l),
        decreases idx@.len() - c,
    {
        let t = tree.get(idx[c]);
        let ghost before = marks@;
        match s {
            Span::Whole => mark_range(&mut marks, t.start_line, t.end_line),
            Span::Inner => {
                if t.start_line < usize::MAX - 1 && t.end_line >= t.start_line + 2 {
                    mark_range(&mut marks, t.start_line + 1, t.end_line - 1);
                }
            },
            Span::ButLast => {
                let last = if t.end_line > 0 && t.end_line - 1 > t.start_line {
                    t.end_line - 1
                } else {
                    t.start_line
                };
                mark_range(&mut marks, t.start_line, last);
            },
        }
        proof {
            let toks = tree.tokens@;
            let pre = idx@.take(c as int);
            let post = idx@.take(c + 1);
            assert forall|l: int| 0 <= l <= n implies #[trigger] marks@[l] == (before[l] || in_span(*t, s, l)) by {}
            assert forall|l: int| 0 <= l <= n implies #[trigger] marks@[l] == covers(toks, post, s, l) by {
                if covers(toks, post, s, l) {
                    let j = choose|j: int| #![trigger post[j]] 0 <= j < post.len() && in_span(toks[post[j] as int], s, l);
                    if j < c {
                        assert(pre[j] == post[j]);
                    } else {
                        assert(post[j] == idx@[c as int]);
                    }
                }
                if covers(toks, pre, s, l) {
                    let j = choose|j: int| #![trigger pre[j]] 0 <= j < pre.len() && in_span(toks[pre[j] as int], s, l);
                    assert(pre[j] == post[j]);
                }
                if in_span(*t, s, l) {
                    assert(post[c as int] == idx@[c as int]);
                }
            }
        }
        c += 1;
    }
    proof {
        assert(idx@.take(idx@.len() as int) =~= idx@);
    }
    marks
}

/// `new` follows `old` as one checked report may: any history that was
/// `appended` before still is.
pub open spec fn keeps_appended(old: Seq<RuleError>, new: Seq<RuleError>, n_lines: int) -> bool {
    forall|e0: Seq<RuleError>| #[trigger] appended(e0, old, n_lines) ==> appended(e0, new, n_lines)
}

impl Emit {
    /// `add`, for a problem on line `1..=n_lines`; a line outside that range
    /// (which the linter would drop) is not reported.
    pub fn add_checked(
        &mut self,
        n_lines: usize,
        line_number: usize,
        detail: Option<Vec<char>>,
        context: Option<Vec<char>>,
        range: Option<(usize, usize)>,
        fix_info: Option<FixInfo>,
    )
        ensures
            keeps_appended(old(self).errors@, final(self).errors@, n_lines as int),
            1 <= line_number <= n_lines ==> final(self).errors@ == old(self).errors@.push(
                RuleError { line_number, detail, context, range, fix_info },
            ),
            !(1 <= line_number <= n_lines) ==> final(self).errors@ == old(self).errors@,
    {
        if line_number >= 1 && line_number <= n_lines {
            let ghost mid = self.errors@;
            self.add(line_number, detail, context, range, fix_info);
            proof {
                assert forall|e0: Seq<RuleError>| #[trigger] appended(e0, mid, n_lines as int) implies appended(
                    e0,
                    self.errors@,
                    n_lines as int,
                ) by {
                    lemma_appended_step(e0, mid, self.errors@, n_lines as int, line_number);
                }
            }
        }
    }

    /// `add_detail_if`, for a problem on line `1..=n_lines`.
    pub fn add_detail_if_checked(
        &mut self,
        n_lines: usize,
        line_number: usize,
        expected: &[char],
        actual: &[char],
        detail: Option<&[char]>,
        context: Option<Vec<char>>,
        range: Option<(usize, usize)>,
        fix_info: Option<FixInfo>,
    )
        ensures
            keeps_appended(old(self).errors@, final(self).errors@, n_lines as int),
            (1 <= line_number <= n_lines && expected@ != actual@) ==> final(self).errors@
                == old(self).errors@.push(final(self).errors@.last()) && error_is(
                final(self).errors@.last(),
                line_number,
                Some(detail_text(expected@, actual@, opt_view(detail))),
                opt_seq(context),
                range,
                fix_info,
            ),
            !(1 <= line_number <= n_lines && expected@ != actual@) ==> final(self).errors@ == old(
                self,
            ).errors@,
    {
        if line_number >= 1 && line_number <= n_lines {
            let ghost mid = self.errors@;
            self.add_detail_if(line_number, expected, actual, detail, context, range, fix_info);
            proof {
                assert forall|e0: Seq<RuleError>| #[trigger] appended(e0, mid, n_lines as int) implies appended(
                    e0,
                    self.errors@,
                    n_lines as int,
                ) by {
                    lemma_appended_step(e0, mid, self.errors@, n_lines as int, line_number);
                }
            }
        }
    }

    /// `add_context`, for a problem on line `1..=n_lines`.
    pub fn add_context_checked(
        &mut self,
        n_lines: usize,
        line_number: usize,
        context: &[char],
        start: bool,
        end: bool,
        range: Option<(usize, usize)>,
        fix_info: Option<FixInfo>,
    )
        ensures
            keeps_appended(old(self).errors@, final(self).errors@, n_lines as int),
            1 <= line_number <= n_lines ==> final(self).errors@ == old(self).errors@.push(
                final(self).errors@.last(),
            ) && error_is(
                final(self).errors@.last(),
                line_number,
                None,
                Some(spec_ellipsify(context@, start, end)),
                range,
                fix_info,
            ),
            !(1 <= line_number <= n_lines) ==> final(self).errors@ == old(self).errors@,
    {
        if line_number >= 1 && line_number <= n_lines {
            let ghost mid = self.errors@;
            self.add_context(line_number, context, start, end, range, fix_info);
            proof {
                assert forall|e0: Seq<RuleError>| #[trigger] appended(e0, mid, n_lines as int) implies appended(
                    e0,
                    self.errors@,
                    n_lines as int,
                ) by {
                    lemma_appended_step(e0, mid, self.errors@, n_lines as int, line_number);
                }
            }
        }
    }
}

/// Whether two texts are equal.
pub fn slice_eq(a: &[char], b: &[char]) -> (r: bool)
    ensures
        r == (a@ == b@),
{
    if a.len() != b.len() {
        return false;
    }
    let mut i: usize = 0;
    while i < a.len()
        invariant
            i <= a@.len(),
            a@.len() == b@.len(),
            forall|k: int| 0 <= k < i ==> a@[k] == b@[k],
        decreases a@.len() - i,
    {
        if a[i] != b[i] {
            return false;
        }
        i += 1;
    }
    proof {
        assert(a@ =~= b@);
    }
    true
}

/// The decimal digit of `d < 10`.
pub open spec fn digit(d: nat) -> char {
    if d == 0 {
        '0'
    } else if d == 1 {
        '1'
    } else if d == 2 {
        '2'
    } else if d == 3 {
        '3'
    } else if d == 4 {
        '4'
    } else if d == 5 {
        '5'
    } else if d == 6 {
        '6'
    } else if d == 7 {
        '7'
    } else if d == 8 {
        '8'
    } else {
        '9'
    }
}

/// Decimal notation of `n`, without leading zeros.
pub open spec fn spec_decimal(n: nat) -> Seq<char>
    decreases n,
{
    if n < 10 {
        seq![digit(n)]
    } else {
        spec_decimal(n / 10) + seq![digit(n % 10)]
    }
}

/// Decimal notation of an integer, with `-` before a negative one.
pub open spec fn spec_int_text(n: int) -> Seq<char> {
    if n < 0 {
        seq!['-'] + spec_decimal((-n) as nat)
    } else {
        spec_decimal(n as nat)
    }
}

fn digit_char(d: u128) -> (c: char)
    requires
        d < 10,
    ensures
        c == digit(d as nat),
{
    if d == 0 {
        '0'
    } else if d == 1 {
        '1'
    } else if d == 2 {
        '2'
    } else if d == 3 {
        '3'
    } else if d == 4 {
        '4'
    } else if d == 5 {
        '5'
    } else if d == 6 {
        '6'
    } else if d == 7 {
        '7'
    } else if d == 8 {
        '8'
    } else {
        '9'
    }
}

/// Decimal notation of `n`.
pub fn decimal(n: u128) -> (r: Vec<char>)
    ensures
        r@ == spec_decimal(n as nat),
    decreases n,
{
    if n < 10 {
        let mut v: Vec<char> = Vec::new();
        v.push(digit_char(n));
        v
    } else {
        let mut v = decimal(n / 10);
        v.push(digit_char(n % 10));
        v
    }
}

/// Decimal notation of a `usize`.
pub fn usize_text(n: usize) -> (r: Vec<char>)
    ensures
        r@ == spec_int_text(n as int),
{
    decimal(n as u128)
}

/// Decimal notation of an `i64`, `-` first when negative.
pub fn int_text(n: i64) -> (r: Vec<char>)
    ensures
        r@ == spec_int_text(n as int),
{
    wide_text(n as i128)
}

/// Decimal notation of an `i128` above its minimum, `-` first when
/// negative.
pub fn wide_text(n: i128) -> (r: Vec<char>)
    requires
        n > i128::MIN,
    ensures
        r@ == spec_int_text(n as int),
{
    if n < 0 {
        let m: u128 = (-n) as u128;
        let mut v: Vec<char> = Vec::new();
        v.push('-');
        let d = decimal(m);
        concat(&mut v, &d);
        v
    } else {
        decimal(n as u128)
    }
}

} // verus!
