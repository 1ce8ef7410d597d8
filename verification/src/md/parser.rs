//! A line-oriented Markdown block parser that produces a token tree closely
//! matching markdownlint's micromark token tree for the constructs the rules
//! consume: ATX/setext headings, fenced/indented code, thematic breaks,
//! tables, blockquotes, ordered/unordered lists, HTML blocks, paragraphs,
//! and inline code spans/links/emphasis within text.
//!
//! Positions are 1-based. `end_column` is one past the last character
//! (matching micromark). Between blocks, `lineEnding` and `lineEndingBlank`
//! tokens are emitted as micromark does, because whitespace and blank-line
//! rules depend on them.

use vstd::prelude::*;

use super::emphasis::{EmphSpan, emphasis_spans, span_ok};
use super::kind::Kind;
use super::scan::{
    Line, lines_view, spec_split_lines, split_lines, first_break, lemma_first_break, break_len,
    fenced_fence, is_thematic_break, atx_level, list_marker, is_html_block_start,
    is_definition_line, delimiter_row_cells, count_cells, collect_definition_labels, only_fence,
    rtrim_from, compute_cells, is_setext_underline, interrupts_paragraph_list,
    uniform_bq_prefixes, normalize_label, trim_url_trailing, is_url_boundary, detect_autolink,
    detect_html, detect_link, detect_literal, find_paren_close, comment_end, ref_close,
    spec_list_marker,
};
use super::tokens::{Token, Tree};
use crate::re::re_find;
use crate::text::{
    leading_spaces, spec_leading, count_indent, is_blank, spec_is_blank, skip_run, skip_ws_from,
    slice_vec, is_ascii_digit, is_whitespace, chars_of, contains_char, lemma_skip_sp_tab,
};

verus! {

/// Lines are bounded so that every column and line number computed from
/// them fits in a `usize`: a `Vec<char>` holds at most `isize::MAX / 4`
/// characters.
pub open spec fn fits(n: int) -> bool {
    n < usize::MAX / 8
}

/// Sum over the lines of their length plus one.
pub open spec fn lines_size(ls: Seq<Line>) -> nat
    decreases ls.len(),
{
    if ls.len() == 0 {
        0
    } else {
        lines_size(ls.drop_last()) + ls.last().chars@.len() + 1
    }
}

/// The block parser's state: the input lines and the tree built so far.
pub struct Parser {
    lines: Vec<Line>,
    tree: Tree,
    in_html_flow: bool,
    /// Normalized labels of reference definitions in the document, used to
    /// decide whether `[text]` is a (shortcut) reference link or literal text.
    defined_labels: Vec<Vec<char>>,
}

impl Parser {
    /// The tree is well formed and every line (and the line count) is
    /// bounded.
    pub closed spec fn inv(&self) -> bool {
        &&& self.tree.wf()
        &&& fits(self.lines@.len() as int)
        &&& lines_size(self.lines@) <= usize::MAX / 8
        &&& forall|k: int| 0 <= k < self.lines@.len() ==> fits((#[trigger] self.lines@[k]).chars@.len() as int)
    }

    /// `self` follows `old`: invariant kept, input unchanged, tokens only
    /// added.
    pub closed spec fn steady(&self, old: Parser) -> bool {
        &&& self.inv()
        &&& self.lines@ == old.lines@
        &&& self.in_html_flow == old.in_html_flow
        &&& self.defined_labels@ == old.defined_labels@
        &&& self.tree.tokens@.len() >= old.tree.tokens@.len()
        &&& forall|k: int| 0 <= k < old.tree.tokens@.len() ==> #[trigger] self.head(k) == old.head(k)
    }

    /// Token `k` by kind, start and parent (what later tokens never change).
    pub closed spec fn head(&self, k: int) -> (Kind, usize, usize, Option<usize>) {
        let t = self.tree.tokens@[k];
        (t.kind, t.start_line, t.start_column, t.parent)
    }

    /// The first token added since `old` starts at line `line` under
    /// `parent`.
    pub closed spec fn opens_at(&self, old: Parser, line: int, parent: Option<usize>) -> bool {
        &&& self.ntok() > old.ntok()
        &&& self.head(old.ntok()).1 == line
        &&& self.head(old.ntok()).3 == parent
    }

    /// Every token of `old` keeps its end and text (its kind, start and
    /// parent are kept by `steady`).
    pub closed spec fn keeps(&self, old: Parser) -> bool {
        forall|k: int|
            0 <= k < old.tree.tokens@.len() ==> {
                &&& (#[trigger] self.tree.tokens@[k]).end_line == old.tree.tokens@[k].end_line
                &&& self.tree.tokens@[k].end_column == old.tree.tokens@[k].end_column
                &&& self.tree.tokens@[k].text@ == old.tree.tokens@[k].text@
            }
    }

    /// Token `j` lies on line `line_no`, inside the text `chars` placed from
    /// column `start_col`, and its text is what it covers there.
    pub closed spec fn inline_tok(&self, j: int, chars: Seq<char>, line_no: int, start_col: int) -> bool {
        let t = self.tree.tokens@[j];
        &&& t.start_line == line_no && t.end_line == line_no
        &&& start_col <= t.start_column <= t.end_column <= start_col + chars.len()
        &&& t.text@ == chars.subrange(t.start_column - start_col, t.end_column - start_col)
    }

    /// The tokens from `n0` on all lie within `chars` on line `line_no`
    /// (as `inline_tok` says), each under `parent` or under an earlier one
    /// of them: they are `parent`'s new descendants.
    pub closed spec fn inline_from(&self, n0: int, chars: Seq<char>, line_no: int, start_col: int, parent: usize) -> bool {
        forall|j: int|
            #![trigger self.tree.tokens@[j]]
            n0 <= j < self.tree.tokens@.len() ==> self.inline_tok(j, chars, line_no, start_col) && (
            self.tree.tokens@[j].parent == Some(parent) || (self.tree.tokens@[j].parent matches Some(q) && n0
                <= q < j))
    }

    /// Token `j` has kind `kind`, starts at line `line`, column `col`, and
    /// hangs under `parent` (is a root for `None`).
    pub closed spec fn tok_is(&self, j: int, kind: Kind, line: int, col: int, parent: Option<usize>) -> bool {
        &&& 0 <= j < self.tree.tokens@.len()
        &&& self.head(j) == (kind, line as usize, col as usize, parent)
        &&& line == line as usize && col == col as usize
    }

    pub closed spec fn ntok(&self) -> int {
        self.tree.tokens@.len() as int
    }

    pub closed spec fn nlines(&self) -> int {
        self.lines@.len() as int
    }

    pub closed spec fn line(&self, i: int) -> Seq<char> {
        self.lines@[i].chars@
    }

    proof fn lemma_line_fits(&self, i: int)
        requires
            self.inv(),
            0 <= i < self.lines@.len(),
        ensures
            fits(self.lines@[i].chars@.len() as int),
    {
    }

    /// Parse `content` into a token tree.
    pub fn parse(content: &str) -> (t: Tree)
        requires
            fits(content@.len() as int),
        ensures
            t.wf(),
            parsed_lines(spec_split_lines(content@), t.tokens@),
    {
        let chars = chars_of(content);
        Self::parse_chars(&chars)
    }

    /// Parse the characters of a document into a token tree.
    pub fn parse_chars(content: &[char]) -> (t: Tree)
        requires
            fits(content@.len() as int),
        ensures
            t.wf(),
            parsed_lines(spec_split_lines(content@), t.tokens@),
        decreases content@.len() + 1, 4int,
    {
        let lines = split_lines(content);
        proof {
            lemma_split_lines_bounds(content@);
            lemma_lines_size_split(content@);
            assert(lines_view(lines@) == spec_split_lines(content@));
            assert forall|k: int| 0 <= k < lines@.len() implies fits((#[trigger] lines@[k]).chars@.len() as int) by {
                assert(lines_view(lines@)[k] == (lines@[k].chars@, lines@[k].has_newline));
            }
            assert(lines@.len() == spec_split_lines(content@).len());
            lemma_lines_size_view(lines@);
        }
        let defined_labels = collect_definition_labels(&lines);
        let mut p = Parser { lines, tree: Tree::new(), in_html_flow: false, defined_labels };
        let ghost p0 = p;
        p.run();
        proof {
            let v = spec_split_lines(content@);
            assert(p0.ntok() == 0);
            if first_nonblank(v, v.len() as int) == -1 {
                assert forall|j: int| 0 <= j < p.tree.tokens@.len() implies (#[trigger] p.tree.tokens@[j]).kind
                    == Kind::LineEndingBlank && p.tree.tokens@[j].parent is None by {
                    assert(p.head(j).0 == Kind::LineEndingBlank);
                }
            } else {
                let j = choose|j: int|
                    p0.ntok() <= j < p.ntok() && (#[trigger] p.head(j)).1 == first_nonblank(v, v.len() as int) + 1
                        && p.head(j).3 is None && block_kind_ok(v, first_nonblank(v, v.len() as int), p.head(j).0);
                assert(p.tree.tokens@[j].start_line == first_nonblank(v, v.len() as int) + 1);
            }
        }
        p.tree
    }

    fn run(&mut self)
        requires
            old(self).inv(),
        ensures
            final(self).steady(*old(self)),
            ({
                let v = lines_view(old(self).lines@);
                let f = first_nonblank(v, v.len() as int);
                &&& f == -1 ==> final(self).ntok() == old(self).ntok() + newlines_upto(v, v.len() as int)
                    && forall|j: int|
                    old(self).ntok() <= j < final(self).ntok() ==> (#[trigger] final(self).head(j)).0
                        == Kind::LineEndingBlank && final(self).head(j).3 is None
                &&& f >= 0 ==> exists|j: int|
                    old(self).ntok() <= j < final(self).ntok() && (#[trigger] final(self).head(j)).1 == f + 1
                        && final(self).head(j).3 is None && block_kind_ok(v, f, final(self).head(j).0)
            }),
        decreases lines_size(old(self).lines@), 3int,
    {
        let n = self.lines.len();
        let ghost v = lines_view(self.lines@);
        let ghost mut fj: int = 0;
        let mut i: usize = 0;
        while i < n
            invariant
                self.steady(*old(self)),
                n == self.lines@.len(),
                i <= n,
                v == lines_view(self.lines@),
                first_nonblank(v, i as int) == -1 ==> self.ntok() == old(self).ntok() + newlines_upto(v, i as int)
                    && forall|j: int|
                    old(self).ntok() <= j < self.ntok() ==> (#[trigger] self.head(j)).0 == Kind::LineEndingBlank
                        && self.head(j).3 is None,
                first_nonblank(v, i as int) >= 0 ==> old(self).ntok() <= fj < self.ntok() && self.head(fj).1
                    == first_nonblank(v, i as int) + 1 && self.head(fj).3 is None && block_kind_ok(
                    v,
                    first_nonblank(v, i as int),
                    self.head(fj).0,
                ),
            decreases n - i,
        {
            let chars = self.line_chars(i);
            proof {
                assert(v[i as int].0 == chars@);
                assert(v[i as int].1 == self.lines@[i as int].has_newline);
            }
            if is_blank(&chars) {
                self.emit_blank(i);
                proof {
                    if first_nonblank(v, i as int) >= 0 {
                        lemma_first_nonblank_stays(v, i as int, i + 1);
                    }
                }
                i += 1;
                continue;
            }
            let ghost b0 = *self;
            proof {
                if first_nonblank(v, i as int) == -1 {
                    fj = self.ntok();
                }
                assert(first_nonblank(v, i + 1) == (if first_nonblank(v, i as int) >= 0 { first_nonblank(v, i as int) } else { i as int }));
            }
            let next = self.parse_block(i);
            proof {
                lemma_first_nonblank_stays(v, i + 1, next as int);
            }
            i = next;
        }
    }

    /// Parse the top-level block that starts on the non-blank line `i`;
    /// the line after it.
    fn parse_block(&mut self, i: usize) -> (next: usize)
        requires
            old(self).inv(),
            i < old(self).nlines(),
            !spec_is_blank(old(self).line(i as int)),
        ensures
            final(self).steady(*old(self)),
            i < next <= old(self).nlines(),
            final(self).opens_at(*old(self), i + 1, None),
            block_kind_ok(lines_view(old(self).lines@), i as int, final(self).head(old(self).ntok()).0),
        decreases lines_size(old(self).lines@), 2int,
    {
        let chars = self.line_chars(i);
        let indent = count_indent(&chars);
        if indent >= 4 {
            return self.parse_indented_code(i, None);
        }
        let lead = leading_spaces(&chars);
        let trimmed = slice_vec(&chars, lead, chars.len());
        match fenced_fence(&trimmed) {
            Some((fc, fl)) => {
                return self.parse_fenced_code(i, None, fc, fl);
            },
            None => {},
        }
        if is_thematic_break(&trimmed) {
            self.parse_thematic_break(i, None);
            return i + 1;
        }
        if atx_level(&trimmed).is_some() {
            self.parse_atx_heading(i, None);
            return i + 1;
        }
        if trimmed.len() > 0 && trimmed[0] == '>' {
            return self.parse_block_quote(i);
        }
        if list_marker(&trimmed).is_some() {
            return self.parse_list(i, None, 0);
        }
        if is_html_block_start(&trimmed) {
            return self.parse_html_block(i, None);
        }
        if is_definition_line(&trimmed) {
            self.parse_definition(i);
            return i + 1;
        }
        if i + 1 < self.lines.len() && contains_char(&chars, '|') {
            let next = self.line_chars(i + 1);
            match delimiter_row_cells(&next) {
                Some(dcount) => {
                    if count_cells(&chars) == dcount && dcount > 0 {
                        return self.parse_table(i);
                    }
                },
                None => {},
            }
        }
        self.parse_paragraph(i, None)
    }

    // --- token construction helpers ---

    /// The characters of line `i`.
    fn line_chars(&self, i: usize) -> (r: Vec<char>)
        requires
            self.inv(),
            i < self.lines@.len(),
        ensures
            r@ == self.lines@[i as int].chars@,
            fits(r@.len() as int),
    {
        let l = &self.lines[i].chars;
        slice_vec(l, 0, l.len())
    }

    /// Append `tok` under `parent` (or as a root); returns its index.
    fn push(&mut self, tok: Token, parent: Option<usize>) -> (idx: usize)
        requires
            old(self).inv(),
            tok.children@.len() == 0,
            parent matches Some(p) ==> p < old(self).tree.tokens@.len(),
        ensures
            final(self).steady(*old(self)),
            idx == old(self).tree.tokens@.len(),
            final(self).tree.tokens@.len() == idx + 1,
            final(self).head(idx as int) == (tok.kind, tok.start_line, tok.start_column, parent),
            final(self).keeps(*old(self)),
            final(self).tree.tokens@[idx as int].end_line == tok.end_line,
            final(self).tree.tokens@[idx as int].end_column == tok.end_column,
            final(self).tree.tokens@[idx as int].text@ == tok.text@,
            parent is Some ==> final(self).tree.roots@ == old(self).tree.roots@,
    {
        self.tree.push(tok, parent)
    }

    /// Append `tok`, a token within `chars` on line `line_no`, under `p`,
    /// which is `root` or one of the tokens added since `n0`.
    fn push_in(
        &mut self,
        tok: Token,
        p: usize,
        Ghost(chars): Ghost<Seq<char>>,
        line_no: usize,
        start_col: usize,
        Ghost(n0): Ghost<int>,
        Ghost(root): Ghost<usize>,
    ) -> (idx: usize)
        requires
            old(self).inv(),
            tok.children@.len() == 0,
            p < old(self).ntok(),
            p == root || n0 <= p,
            0 <= n0 <= old(self).ntok(),
            old(self).inline_from(n0, chars, line_no as int, start_col as int, root),
            tok.start_line == line_no && tok.end_line == line_no,
            start_col <= tok.start_column <= tok.end_column <= start_col + chars.len(),
            tok.text@ == chars.subrange(tok.start_column - start_col, tok.end_column - start_col),
        ensures
            final(self).steady(*old(self)),
            final(self).keeps(*old(self)),
            idx == old(self).ntok(),
            final(self).ntok() == idx + 1,
            final(self).head(idx as int) == (tok.kind, tok.start_line, tok.start_column, Some(p)),
            final(self).tree.roots@ == old(self).tree.roots@,
            final(self).inline_from(n0, chars, line_no as int, start_col as int, root),
    {
        let idx = self.push(tok, Some(p));
        proof {
            assert forall|j: int| #![trigger self.tree.tokens@[j]] n0 <= j < self.tree.tokens@.len() implies self.inline_tok(
                j,
                chars,
                line_no as int,
                start_col as int,
            ) && (self.tree.tokens@[j].parent == Some(root) || (self.tree.tokens@[j].parent matches Some(q) && n0
                <= q < j)) by {
                if j < idx {
                    assert(old(self).tree.tokens@[j] == old(self).tree.tokens@[j]);
                    assert(self.head(j) == old(self).head(j));
                    assert(old(self).inline_tok(j, chars, line_no as int, start_col as int));
                    assert(self.tree.tokens@[j].end_line == old(self).tree.tokens@[j].end_line);
                } else {
                    assert(j == idx);
                    assert(self.head(j).1 == line_no);
                    assert(self.tree.tokens@[j].end_line == line_no);
                    assert(self.tree.tokens@[j].text@ == tok.text@);
                }
            }
        }
        idx
    }

    /// A token of `kind` at the given position, flagged as inside an HTML
    /// flow when the parser is in one.
    fn tok(&self, kind: Kind, sl: usize, sc: usize, el: usize, ec: usize, text: Vec<char>) -> (t: Token)
        ensures
            t.kind == kind,
            t.start_line == sl,
            t.start_column == sc,
            t.end_line == el,
            t.end_column == ec,
            t.text@ == text@,
            t.children@.len() == 0,
            t.parent is None,
            t.in_html_flow == self.in_html_flow,
    {
        Token::new(kind, sl, sc, el, ec, text, self.in_html_flow)
    }

    /// Emit a `lineEnding` for the end of line `i` (0-based) at column `col`
    /// when the line has a terminator.
    fn emit_line_ending(&mut self, i: usize, col: usize, parent: Option<usize>)
        requires
            old(self).inv(),
            i < old(self).lines@.len(),
            parent matches Some(p) ==> p < old(self).tree.tokens@.len(),
        ensures
            final(self).steady(*old(self)),
            old(self).lines@[i as int].has_newline ==> final(self).ntok() == old(self).ntok() + 1
                && final(self).tok_is(old(self).ntok(), Kind::LineEnding, i + 1, col as int, parent),
            !old(self).lines@[i as int].has_newline ==> final(self).ntok() == old(self).ntok(),
    {
        if self.lines[i].has_newline {
            let mut nl: Vec<char> = Vec::new();
            nl.push('\n');
            let t = self.tok(Kind::LineEnding, i + 1, col, i + 2, 1, nl);
            self.push(t, parent);
        }
    }

    /// A blank line at top level: a `lineEndingBlank` spanning its newline.
    fn emit_blank(&mut self, i: usize)
        requires
            old(self).inv(),
            i < old(self).lines@.len(),
        ensures
            final(self).steady(*old(self)),
            old(self).lines@[i as int].has_newline ==> final(self).ntok() == old(self).ntok() + 1
                && final(self).tok_is(
                old(self).ntok(),
                Kind::LineEndingBlank,
                i + 1,
                old(self).line(i as int).len() + 1 as int,
                None,
            ),
            !old(self).lines@[i as int].has_newline ==> final(self).ntok() == old(self).ntok(),
    {
        let len = self.line_len(i);
        if self.lines[i].has_newline {
            let mut nl: Vec<char> = Vec::new();
            nl.push('\n');
            let t = self.tok(Kind::LineEndingBlank, i + 1, len + 1, i + 2, 1, nl);
            self.push(t, None);
        }
    }

    /// Text of line `i`.
    fn line_text(&self, i: usize) -> (r: Vec<char>)
        requires
            self.inv(),
            i < self.lines@.len(),
        ensures
            r@ == self.lines@[i as int].chars@,
    {
        self.line_chars(i)
    }

    /// Length of line `i`.
    fn line_len(&self, i: usize) -> (r: usize)
        requires
            self.inv(),
            i < self.lines@.len(),
        ensures
            r == self.lines@[i as int].chars@.len(),
            fits(r as int),
    {
        self.lines[i].chars.len()
    }
}


/// The column where a list item's content starts on line `l`: after the
/// marker and the spaces or tabs that follow it (the indent when `l` holds
/// no marker).
pub open spec fn spec_content_col(l: Seq<char>) -> int {
    let lead = spec_leading(l);
    match spec_list_marker(l.subrange(lead, l.len() as int)) {
        Some((_o, _m, mlen)) => crate::text::skip_sp_tab(l, lead + mlen),
        None => lead,
    }
}

/// Line `l` holds a block-quote marker: a `>` after fewer than four
/// spaces or tabs.
pub open spec fn bq_marker_at(l: Seq<char>) -> bool {
    let lead = spec_leading(l);
    lead < 4 && lead < l.len() && l[lead] == '>'
}

/// The end of the block-quote prefix of `l`: its `>` and one space after
/// it, if there is one.
pub open spec fn bq_prefix_end(l: Seq<char>) -> int {
    let m = spec_leading(l);
    if m + 1 < l.len() && l[m + 1] == ' ' {
        m + 2
    } else {
        m + 1
    }
}

/// The characters of line `line` (1-based) that a token spanning from line
/// `sl`, column `sc`, to line `el`, column `ec` (exclusive) covers.
pub open spec fn span_piece(lc: Seq<char>, line: int, sl: int, sc: int, el: int, ec: int) -> Seq<char> {
    let from = if line == sl { sc - 1 } else { 0 };
    let to = if line == el {
        if ec - 1 < lc.len() { ec - 1 } else { lc.len() as int }
    } else {
        lc.len() as int
    };
    if from <= lc.len() {
        lc.subrange(from, if to < from { from } else { to })
    } else {
        Seq::empty()
    }
}

/// The text such a token covers on lines `sl` to `line - 1`, lines joined
/// with `\n`.
pub open spec fn span_text(ls: Seq<Line>, sl: int, sc: int, el: int, ec: int, line: int) -> Seq<char>
    decreases line - sl,
{
    if line <= sl {
        Seq::empty()
    } else {
        let prev = span_text(ls, sl, sc, el, ec, line - 1);
        (if line - 1 > sl { prev.push('\n') } else { prev }) + span_piece(ls[line - 2].chars@, line - 1, sl, sc, el, ec)
    }
}

/// The column shift of a sub-parse line `l` (1-based): what `wmap` gives
/// for it, 0 outside it.
pub open spec fn shift_of(wmap: Seq<usize>, l: usize) -> usize {
    if l >= 1 && l - 1 < wmap.len() {
        wmap[l - 1]
    } else {
        0
    }
}

/// Moving token `st` of a sub-parse by `start` lines and its line's shift
/// stays within `usize`.
pub open spec fn reemit_fits(st: Token, wmap: Seq<usize>, start: usize) -> bool {
    !(st.start_line > usize::MAX - start || st.start_column > usize::MAX - shift_of(wmap, st.start_line)
        || st.end_line > usize::MAX - start || st.end_column > usize::MAX - shift_of(wmap, st.end_line))
}

/// The de-prefixed text of lines `start` to `k - 1`: each line from its
/// `wmap` column on, lines joined with `\n`.
pub open spec fn bq_stripped(ls: Seq<Line>, wmap: Seq<usize>, start: int, k: int) -> Seq<char>
    decreases k - start,
{
    if k <= start {
        Seq::empty()
    } else {
        let prev = bq_stripped(ls, wmap, start, k - 1);
        let lc = ls[k - 1].chars@;
        let w = wmap[k - 1 - start] as int;
        (if k - 1 > start { prev.push('\n') } else { prev }) + (if w <= lc.len() {
            lc.subrange(w, lc.len() as int)
        } else {
            Seq::empty()
        })
    }
}

/// The first of the lines `v[..k]` that is not blank; -1 when all are.
pub open spec fn first_nonblank(v: Seq<(Seq<char>, bool)>, k: int) -> int
    decreases k,
{
    if k <= 0 {
        -1
    } else {
        let p = first_nonblank(v, k - 1);
        if p >= 0 {
            p
        } else if !spec_is_blank(v[k - 1].0) {
            k - 1
        } else {
            -1
        }
    }
}

/// How many of the lines `v[..k]` end with a line break.
pub open spec fn newlines_upto(v: Seq<(Seq<char>, bool)>, k: int) -> int
    decreases k,
{
    if k <= 0 {
        0
    } else {
        newlines_upto(v, k - 1) + if v[k - 1].1 { 1int } else { 0int }
    }
}

proof fn lemma_first_nonblank_stays(v: Seq<(Seq<char>, bool)>, a: int, b: int)
    requires
        first_nonblank(v, a) >= 0,
        a <= b,
    ensures
        first_nonblank(v, b) == first_nonblank(v, a),
    decreases b - a,
{
    if a < b {
        lemma_first_nonblank_stays(v, a, b - 1);
    }
}

/// The marker of a list item line `l` is an ordered one.
pub open spec fn list_ordered(l: Seq<char>) -> bool {
    let lead = spec_leading(l);
    spec_list_marker(l.subrange(lead, l.len() as int)) matches Some((o, _m, _n)) && o
}

/// Line `i` of `v` with the next one starts a table: it has a `|`, the next
/// line is a delimiter row, and both have the same number of cells.
pub open spec fn table_at(v: Seq<(Seq<char>, bool)>, i: int) -> bool {
    let l = v[i].0;
    &&& i + 1 < v.len()
    &&& l.contains('|')
    &&& super::scan::spec_delimiter_row_cells(v[i + 1].0) matches Some(d)
    &&& d > 0
    &&& super::scan::spec_compute_cells(l, spec_leading(l)).len() == d
}

/// `k` is the kind of the top-level block that starts on the non-blank line
/// `i` of `v`: indented code, fenced code, a thematic break, an ATX heading,
/// a block quote, a list, HTML, a definition, a table, or else a paragraph
/// (`content`) or setext heading.
pub open spec fn block_kind_ok(v: Seq<(Seq<char>, bool)>, i: int, k: Kind) -> bool {
    let l = v[i].0;
    let t = l.subrange(spec_leading(l), l.len() as int);
    if crate::text::spec_count_indent(l) >= 4 {
        k == Kind::CodeIndented
    } else if super::scan::spec_fenced_fence(t) is Some {
        k == Kind::CodeFenced
    } else if super::scan::spec_is_thematic_break(t) {
        k == Kind::ThematicBreak
    } else if super::scan::spec_atx_level(t) is Some {
        k == Kind::AtxHeading
    } else if t.len() > 0 && t[0] == '>' {
        k == Kind::BlockQuote
    } else if spec_list_marker(t) is Some {
        k == (if list_ordered(l) { Kind::ListOrdered } else { Kind::ListUnordered })
    } else if super::scan::spec_is_html_block_start(t) {
        k == Kind::HtmlFlow
    } else if super::scan::spec_is_definition_line(t) {
        k == Kind::Definition
    } else if table_at(v, i) {
        k == Kind::Table
    } else {
        k == Kind::Content || k == Kind::SetextHeading
    }
}

/// What parsing the lines `v` gives, as far as the tokens `toks` show it:
/// a document of blank lines gives one root `lineEndingBlank` per line
/// break; otherwise a root token starts on the first line that is not
/// blank.
pub open spec fn parsed_lines(v: Seq<(Seq<char>, bool)>, toks: Seq<Token>) -> bool {
    let f = first_nonblank(v, v.len() as int);
    &&& f == -1 ==> toks.len() == newlines_upto(v, v.len() as int) && forall|j: int|
        0 <= j < toks.len() ==> (#[trigger] toks[j]).kind == Kind::LineEndingBlank && toks[j].parent is None
    &&& f >= 0 ==> exists|j: int|
        0 <= j < toks.len() && (#[trigger] toks[j]).start_line == f + 1 && toks[j].parent is None
            && block_kind_ok(v, f, toks[j].kind)
}

/// Pre-condition shared by the line-level parse methods.
pub open spec fn at_line(p: Parser, i: usize, parent: Option<usize>) -> bool {
    &&& p.inv()
    &&& i < p.nlines()
    &&& parent matches Some(q) ==> q < p.ntok()
}

/// Index of the first `#` of a trailing run of `#` in `chars[lo..e]`.
fn rskip_hash(chars: &[char], lo: usize, e: usize) -> (r: usize)
    requires
        lo <= e <= chars@.len(),
    ensures
        lo <= r <= e,
        forall|k: int| r <= k < e ==> #[trigger] chars@[k] == '#',
        r > lo ==> chars@[r - 1] != '#',
{
    let mut h = e;
    while h > lo && chars[h - 1] == '#'
        invariant
            lo <= h <= e <= chars@.len(),
            forall|k: int| h <= k < e ==> #[trigger] chars@[k] == '#',
        decreases h,
    {
        h -= 1;
    }
    h
}

fn newline() -> (r: Vec<char>)
    ensures
        r@ == seq!['\n'],
{
    let mut v: Vec<char> = Vec::new();
    v.push('\n');
    v
}

fn one_char(c: char) -> (r: Vec<char>)
    ensures
        r@ == seq![c],
{
    let mut v: Vec<char> = Vec::new();
    v.push(c);
    v
}

impl Parser {
    // --- ATX heading ---
    fn parse_atx_heading(&mut self, i: usize, parent: Option<usize>)
        requires
            at_line(*old(self), i, parent),
        ensures
            final(self).steady(*old(self)),
            final(self).tok_is(
                old(self).ntok(),
                Kind::AtxHeading,
                i + 1,
                spec_leading(old(self).line(i as int)) + 1 as int,
                parent,
            ),
            final(self).tok_is(
                old(self).ntok() + 1,
                Kind::AtxHeadingSequence,
                i + 1,
                spec_leading(old(self).line(i as int)) + 1 as int,
                Some(old(self).ntok() as usize),
            ),
    {
        let chars = self.line_chars(i);
        let len = chars.len();
        let lead = leading_spaces(&chars);
        let line_no = i + 1;
        let heading = self.tok(
            Kind::AtxHeading,
            line_no,
            lead + 1,
            line_no,
            len + 1,
            slice_vec(&chars, lead, len),
        );
        let hidx = self.push(heading, parent);
        let mut pos = skip_run(&chars, lead, '#');
        let open_seq = self.tok(
            Kind::AtxHeadingSequence,
            line_no,
            lead + 1,
            line_no,
            pos + 1,
            slice_vec(&chars, lead, pos),
        );
        self.push(open_seq, Some(hidx));
        let ws_start = pos;
        pos = skip_ws_from(&chars, pos);
        if pos > ws_start {
            let ws = self.tok(
                Kind::Whitespace,
                line_no,
                ws_start + 1,
                line_no,
                pos + 1,
                slice_vec(&chars, ws_start, pos),
            );
            self.push(ws, Some(hidx));
        }
        let te = rtrim_from(&chars, pos, len);
        let hs = rskip_hash(&chars, pos, te);
        let has_closing = hs < te && (hs == pos || chars[hs - 1] == ' ' || chars[hs - 1] == '\t');
        let text_end;
        let mut close: Option<(usize, usize)> = None;
        if has_closing {
            text_end = rtrim_from(&chars, pos, hs);
            close = Some((hs, te));
        } else {
            text_end = rtrim_from(&chars, pos, len);
        }
        if text_end > pos {
            let text_tok = self.tok(
                Kind::AtxHeadingText,
                line_no,
                pos + 1,
                line_no,
                text_end + 1,
                slice_vec(&chars, pos, text_end),
            );
            let tidx = self.push(text_tok, Some(hidx));
            let content = slice_vec(&chars, pos, text_end);
            self.parse_inline(&content, line_no, pos + 1, tidx);
        }
        match close {
            Some((cs, ce)) => {
                if cs > text_end {
                    let ws = self.tok(
                        Kind::Whitespace,
                        line_no,
                        text_end + 1,
                        line_no,
                        cs + 1,
                        slice_vec(&chars, text_end, cs),
                    );
                    self.push(ws, Some(hidx));
                }
                let cseq = self.tok(
                    Kind::AtxHeadingSequence,
                    line_no,
                    cs + 1,
                    line_no,
                    ce + 1,
                    slice_vec(&chars, cs, ce),
                );
                self.push(cseq, Some(hidx));
            },
            None => {},
        }
        self.emit_line_ending(i, len + 1, parent);
    }

    // --- thematic break ---
    fn parse_thematic_break(&mut self, i: usize, parent: Option<usize>)
        requires
            at_line(*old(self), i, parent),
        ensures
            final(self).steady(*old(self)),
            final(self).tok_is(
                old(self).ntok(),
                Kind::ThematicBreak,
                i + 1,
                spec_leading(old(self).line(i as int)) + 1 as int,
                parent,
            ),
            final(self).tok_is(
                old(self).ntok() + 1,
                Kind::ThematicBreakSequence,
                i + 1,
                spec_leading(old(self).line(i as int)) + 1 as int,
                Some(old(self).ntok() as usize),
            ),
    {
        let chars = self.line_chars(i);
        let len = chars.len();
        let lead = leading_spaces(&chars);
        let line_no = i + 1;
        let tb = self.tok(
            Kind::ThematicBreak,
            line_no,
            lead + 1,
            line_no,
            len + 1,
            slice_vec(&chars, lead, len),
        );
        let tbidx = self.push(tb, parent);
        let seq = self.tok(
            Kind::ThematicBreakSequence,
            line_no,
            lead + 1,
            line_no,
            len + 1,
            slice_vec(&chars, lead, len),
        );
        self.push(seq, Some(tbidx));
        self.emit_line_ending(i, len + 1, parent);
    }

    // --- fenced code ---
    fn parse_fenced_code(
        &mut self,
        start: usize,
        parent: Option<usize>,
        fence_char: char,
        fence_len: usize,
    ) -> (next: usize)
        requires
            at_line(*old(self), start, parent),
        ensures
            final(self).steady(*old(self)),
            start < next <= old(self).nlines(),
            final(self).opens_at(*old(self), start + 1, parent),
            final(self).tok_is(old(self).ntok(), Kind::CodeFenced, start + 1, spec_leading(old(self).line(start as int)) + 1 as int, parent),
    {
        let n = self.lines.len();
        let chars = self.line_chars(start);
        let lead = leading_spaces(&chars);
        let sl = start + 1;
        let mut closed_at: Option<usize> = None;
        let mut j = start + 1;
        while j < n
            invariant
                self.inv(),
                n == self.nlines(),
                start < j <= n,
                closed_at matches Some(c) ==> start < c < n,
            decreases n - j,
        {
            let lc = self.line_chars(j);
            let jl = leading_spaces(&lc);
            let jt = slice_vec(&lc, jl, lc.len());
            if jl < 4 {
                match fenced_fence(&jt) {
                    Some((c, l)) => {
                        if c == fence_char && l >= fence_len && only_fence(&jt, fence_char) {
                            closed_at = Some(j);
                            break;
                        }
                    },
                    None => {},
                }
            }
            j += 1;
        }
        let end_line = match closed_at {
            Some(c) => c,
            None => n - 1,
        };
        let last_len = self.line_len(end_line);
        let cf = self.tok(Kind::CodeFenced, sl, lead + 1, end_line + 1, last_len + 1, Vec::new());
        let cfidx = self.push(cf, parent);
        let ghost s1 = *self;
        self.emit_fence_line(start, cfidx, fence_char, true);
        let start_len = self.line_len(start);
        self.emit_line_ending(start, start_len + 1, Some(cfidx));
        let content_end = match closed_at {
            Some(c) => c,
            None => n,
        };
        let mut k = start + 1;
        while k < content_end
            invariant
                self.steady(*old(self)),
                self.steady(s1),
                n == self.nlines(),
                content_end <= n,
                cfidx < self.ntok(),
                start < k,
            decreases content_end - k,
        {
            let klen = self.line_len(k);
            if klen > 0 {
                let cv = self.tok(Kind::CodeFlowValue, k + 1, 1, k + 1, klen + 1, self.line_text(k));
                self.push(cv, Some(cfidx));
            }
            self.emit_line_ending(k, klen + 1, Some(cfidx));
            k += 1;
        }
        match closed_at {
            Some(cl) => {
                self.emit_fence_line(cl, cfidx, fence_char, false);
                let cl_len = self.line_len(cl);
                self.emit_line_ending(cl, cl_len + 1, parent);
                self.fix_text(cfidx);
                cl + 1
            },
            None => {
                self.fix_text(cfidx);
                n
            },
        }
    }

    fn emit_fence_line(&mut self, i: usize, cfidx: usize, fence_char: char, opening: bool)
        requires
            at_line(*old(self), i, Some(cfidx)),
        ensures
            final(self).steady(*old(self)),
            final(self).tok_is(
                old(self).ntok(),
                Kind::CodeFencedFence,
                i + 1,
                spec_leading(old(self).line(i as int)) + 1 as int,
                Some(cfidx),
            ),
            final(self).tok_is(
                old(self).ntok() + 1,
                Kind::CodeFencedFenceSequence,
                i + 1,
                spec_leading(old(self).line(i as int)) + 1 as int,
                Some(old(self).ntok() as usize),
            ),
    {
        let chars = self.line_chars(i);
        let len = chars.len();
        let lead = leading_spaces(&chars);
        let line_no = i + 1;
        let pos = skip_run(&chars, lead, fence_char);
        let fence = self.tok(
            Kind::CodeFencedFence,
            line_no,
            lead + 1,
            line_no,
            len + 1,
            slice_vec(&chars, lead, len),
        );
        let fidx = self.push(fence, Some(cfidx));
        let seq = self.tok(
            Kind::CodeFencedFenceSequence,
            line_no,
            lead + 1,
            line_no,
            pos + 1,
            slice_vec(&chars, lead, pos),
        );
        self.push(seq, Some(fidx));
        if opening {
            let ws = skip_ws_from(&chars, pos);
            if ws < len {
                let info = self.tok(
                    Kind::CodeFencedFenceInfo,
                    line_no,
                    ws + 1,
                    line_no,
                    len + 1,
                    slice_vec(&chars, ws, len),
                );
                let iidx = self.push(info, Some(fidx));
                let data = self.tok(
                    Kind::Data,
                    line_no,
                    ws + 1,
                    line_no,
                    len + 1,
                    slice_vec(&chars, ws, len),
                );
                self.push(data, Some(iidx));
            }
        }
    }

    // --- indented code ---
    fn parse_indented_code(&mut self, start: usize, parent: Option<usize>) -> (next: usize)
        requires
            at_line(*old(self), start, parent),
        ensures
            final(self).steady(*old(self)),
            start < next <= old(self).nlines(),
            final(self).opens_at(*old(self), start + 1, parent),
            final(self).tok_is(old(self).ntok(), Kind::CodeIndented, start + 1, 1, parent),
    {
        let n = self.lines.len();
        let sl = start + 1;
        let mut j = start;
        let mut last = start;
        while j < n
            invariant
                self.inv(),
                n == self.nlines(),
                start <= last < n,
                start <= j <= n,
            decreases n - j,
        {
            let lc = self.line_chars(j);
            if is_blank(&lc) {
                let mut k = j + 1;
                let mut more = false;
                while k < n
                    invariant
                        self.inv(),
                        n == self.nlines(),
                        j < k <= n,
                    decreases n - k,
                {
                    let kc = self.line_chars(k);
                    if is_blank(&kc) {
                        k += 1;
                        continue;
                    }
                    if count_indent(&kc) >= 4 {
                        more = true;
                    }
                    break;
                }
                if more {
                    j = k;
                    continue;
                } else {
                    break;
                }
            }
            if count_indent(&lc) >= 4 {
                last = j;
                j += 1;
            } else {
                break;
            }
        }
        let last_len = self.line_len(last);
        let ci = self.tok(Kind::CodeIndented, sl, 1, last + 1, last_len + 1, Vec::new());
        let ciidx = self.push(ci, parent);
        let ghost s1 = *self;
        let mut k = start;
        while k <= last
            invariant
                self.steady(*old(self)),
                self.steady(s1),
                n == self.nlines(),
                last < n,
                ciidx < self.ntok(),
                start <= k <= last + 1,
            decreases last + 1 - k,
        {
            let lc = self.line_chars(k);
            let klen = lc.len();
            if is_blank(&lc) {
                self.emit_line_ending(k, klen + 1, Some(ciidx));
                k += 1;
                continue;
            }
            let line_no = k + 1;
            let mut cut: usize = 0;
            let mut col: usize = 0;
            while cut < klen && col < 4
                invariant
                    cut <= klen,
                    col <= 4 * cut,
                    klen == lc@.len(),
                    col < 4 || cut <= klen,
                decreases klen - cut,
            {
                if lc[cut] == '\t' {
                    col = col + 4 - (col % 4);
                } else {
                    col += 1;
                }
                cut += 1;
            }
            let lp = self.tok(Kind::LinePrefix, line_no, 1, line_no, cut + 1, slice_vec(&lc, 0, cut));
            self.push(lp, Some(ciidx));
            if cut < klen {
                let cv = self.tok(
                    Kind::CodeFlowValue,
                    line_no,
                    cut + 1,
                    line_no,
                    klen + 1,
                    slice_vec(&lc, cut, klen),
                );
                self.push(cv, Some(ciidx));
            }
            self.emit_line_ending(k, klen + 1, Some(ciidx));
            k += 1;
        }
        self.fix_text(ciidx);
        last + 1
    }

    /// Recompute a container token's `text` from its start/end using the raw
    /// source lines (joins the source lines in the span).
    fn fix_text(&mut self, idx: usize)
        requires
            old(self).inv(),
            idx < old(self).ntok(),
        ensures
            final(self).steady(*old(self)),
            ({
                let t = old(self).tree.tokens@[idx as int];
                if t.start_line == 0 || t.start_column == 0 || t.end_column == 0 || t.end_line > old(self).nlines()
                    || t.start_line > t.end_line {
                    *final(self) == *old(self)
                } else {
                    &&& final(self).tree.tokens@[idx as int].text@ == span_text(
                        old(self).lines@,
                        t.start_line as int,
                        t.start_column as int,
                        t.end_line as int,
                        t.end_column as int,
                        t.end_line + 1,
                    )
                    &&& final(self).ntok() == old(self).ntok()
                }
            }),
    {
        let sl = self.tree.tokens[idx].start_line;
        let sc = self.tree.tokens[idx].start_column;
        let el = self.tree.tokens[idx].end_line;
        let ec = self.tree.tokens[idx].end_column;
        if sl == 0 || sc == 0 || ec == 0 || el > self.lines.len() || sl > el {
            return;
        }
        let mut text: Vec<char> = Vec::new();
        let mut line = sl;
        while line <= el
            invariant
                self.inv(),
                1 <= sl <= line <= el + 1,
                el <= self.nlines(),
                sc >= 1,
                ec >= 1,
                text@ == span_text(self.lines@, sl as int, sc as int, el as int, ec as int, line as int),
            decreases el + 1 - line,
        {
            let lc = self.line_chars(line - 1);
            let from = if line == sl {
                sc - 1
            } else {
                0
            };
            let to = if line == el {
                if ec - 1 < lc.len() {
                    ec - 1
                } else {
                    lc.len()
                }
            } else {
                lc.len()
            };
            if line > sl {
                text.push('\n');
            }
            if from <= lc.len() {
                let to2 = if to < from {
                    from
                } else {
                    to
                };
                let ghost t0 = text@;
                let mut q = from;
                while q < to2
                    invariant
                        from <= q <= to2 <= lc@.len(),
                        text@ == t0 + lc@.subrange(from as int, q as int),
                    decreases to2 - q,
                {
                    text.push(lc[q]);
                    q += 1;
                    proof {
                        assert(text@ =~= t0 + lc@.subrange(from as int, q as int));
                    }
                }
            }
            proof {
                assert(text@ =~= span_text(self.lines@, sl as int, sc as int, el as int, ec as int, line + 1));
            }
            line += 1;
        }
        self.tree.set_text(idx, text);
    }

    // --- link reference definition (opaque) ---
    fn parse_definition(&mut self, i: usize)
        requires
            at_line(*old(self), i, None),
        ensures
            final(self).steady(*old(self)),
            final(self).tok_is(old(self).ntok(), Kind::Definition, i + 1, 1, None),
    {
        let chars = self.line_chars(i);
        let len = chars.len();
        let line_no = i + 1;
        let def = self.tok(Kind::Definition, line_no, 1, line_no, len + 1, slice_vec(&chars, 0, len));
        self.push(def, None);
        self.emit_line_ending(i, len + 1, None);
    }
}

impl Parser {
    // --- GFM table ---
    fn parse_table(&mut self, start: usize) -> (next: usize)
        requires
            old(self).inv(),
            start + 1 < old(self).nlines(),
        ensures
            final(self).steady(*old(self)),
            start < next <= old(self).nlines(),
            final(self).tok_is(old(self).ntok(), Kind::Table, start + 1, 1, None),
    {
        let n = self.lines.len();
        let mut end = start + 1;
        let mut k = start + 2;
        while k < n
            invariant
                self.inv(),
                n == self.nlines(),
                start + 1 <= end < n,
                end < k <= n || k == start + 2,
                start + 2 <= k,
            decreases n - k,
        {
            let lc = self.line_chars(k);
            if is_blank(&lc) {
                break;
            }
            let lead = leading_spaces(&lc);
            let t = slice_vec(&lc, lead, lc.len());
            if lead < 4 && (atx_level(&t).is_some() || fenced_fence(&t).is_some()
                || is_thematic_break(&t) || (t.len() > 0 && t[0] == '>') || is_html_block_start(
                &t,
            )) {
                break;
            }
            end = k;
            k += 1;
        }
        let last_len = self.line_len(end);
        let table = self.tok(Kind::Table, start + 1, 1, end + 1, last_len + 1, Vec::new());
        let tidx = self.push(table, None);
        let ghost s1 = *self;
        let head_last_len = self.line_len(start + 1);
        let head = self.tok(Kind::TableHead, start + 1, 1, start + 2, head_last_len + 1, Vec::new());
        let hidx = self.push(head, Some(tidx));
        self.emit_table_row(start, hidx, Kind::TableHeader);
        let start_len = self.line_len(start);
        self.emit_line_ending(start, start_len + 1, Some(hidx));
        self.emit_table_row(start + 1, hidx, Kind::TableDelimiter);
        self.emit_line_ending(start + 1, head_last_len + 1, Some(tidx));
        if end >= start + 2 {
            let body = self.tok(Kind::TableBody, start + 3, 1, end + 1, last_len + 1, Vec::new());
            let bidx = self.push(body, Some(tidx));
            let mut row = start + 2;
            while row <= end
                invariant
                    self.steady(*old(self)),
                    self.steady(s1),
                    n == self.nlines(),
                    end < n,
                    bidx < self.ntok(),
                    start + 2 <= row <= end + 1,
                decreases end + 1 - row,
            {
                self.emit_table_row(row, bidx, Kind::TableData);
                if row < end {
                    let rl = self.line_len(row);
                    self.emit_line_ending(row, rl + 1, Some(bidx));
                }
                row += 1;
            }
        }
        self.emit_line_ending(end, last_len + 1, None);
        end + 1
    }

    fn emit_table_row(&mut self, k: usize, parent: usize, cell_kind: Kind)
        requires
            at_line(*old(self), k, Some(parent)),
        ensures
            final(self).steady(*old(self)),
            final(self).tok_is(
                old(self).ntok(),
                if cell_kind == Kind::TableDelimiter { Kind::TableDelimiterRow } else { Kind::TableRow },
                k + 1,
                spec_leading(old(self).line(k as int)) + 1 as int,
                Some(parent),
            ),
    {
        let lc = self.line_chars(k);
        let len = lc.len();
        let line_no = k + 1;
        let lead = leading_spaces(&lc);
        let cells = compute_cells(&lc, lead);
        let is_delim = cell_kind == Kind::TableDelimiter;
        let row_kind = if is_delim {
            Kind::TableDelimiterRow
        } else {
            Kind::TableRow
        };
        let row = self.tok(row_kind, line_no, lead + 1, line_no, len + 1, slice_vec(&lc, 0, len));
        let ridx = self.push(row, Some(parent));
        let ghost s1 = *self;
        let mut ci: usize = 0;
        while ci < cells.len()
            invariant
                self.steady(*old(self)),
                self.steady(s1),
                k < self.nlines(),
                line_no == k + 1,
                len == lc@.len(),
                fits(len as int),
                ridx < self.ntok(),
                ci <= cells@.len(),
                forall|q: int|
                    0 <= q < cells@.len() ==> lead <= (#[trigger] cells@[q]).0 <= cells@[q].1 <= len,
            decreases cells@.len() - ci,
        {
            let (cs, ce) = cells[ci];
            let cell = self.tok(cell_kind, line_no, cs + 1, line_no, ce + 1, slice_vec(&lc, cs, ce));
            let cidx = self.push(cell, Some(ridx));
            let mut p = cs;
            if p < ce && lc[p] == '|' {
                let d = self.tok(Kind::TableCellDivider, line_no, p + 1, line_no, p + 2, one_char('|'));
                self.push(d, Some(cidx));
                p += 1;
            }
            let mut q = p;
            while q < ce && (lc[q] == ' ' || lc[q] == '\t')
                invariant
                    p <= q <= ce <= lc@.len(),
                decreases ce - q,
            {
                q += 1;
            }
            if q > p {
                let w = self.tok(Kind::Whitespace, line_no, p + 1, line_no, q + 1, slice_vec(&lc, p, q));
                self.push(w, Some(cidx));
            }
            p = q;
            let t = rtrim_from(&lc, p, ce);
            let (content_end, trailing_div) = if t > p && lc[t - 1] == '|' {
                (t - 1, Some(t - 1))
            } else {
                (ce, None)
            };
            let c_end = rtrim_from(&lc, p, content_end);
            if c_end > p {
                let content = self.tok(
                    Kind::TableContent,
                    line_no,
                    p + 1,
                    line_no,
                    c_end + 1,
                    slice_vec(&lc, p, c_end),
                );
                let coidx = self.push(content, Some(cidx));
                let child_kind = if is_delim {
                    Kind::TableDelimiterFiller
                } else {
                    Kind::Data
                };
                let child = self.tok(child_kind, line_no, p + 1, line_no, c_end + 1, slice_vec(&lc, p, c_end));
                self.push(child, Some(coidx));
            }
            let ws_end = content_end;
            if ws_end > c_end {
                let w = self.tok(
                    Kind::Whitespace,
                    line_no,
                    c_end + 1,
                    line_no,
                    ws_end + 1,
                    slice_vec(&lc, c_end, ws_end),
                );
                self.push(w, Some(cidx));
            }
            match trailing_div {
                Some(dp) => {
                    let d = self.tok(Kind::TableCellDivider, line_no, dp + 1, line_no, dp + 2, one_char('|'));
                    self.push(d, Some(cidx));
                    if ce > dp + 1 {
                        let w = self.tok(
                            Kind::Whitespace,
                            line_no,
                            dp + 2,
                            line_no,
                            ce + 1,
                            slice_vec(&lc, dp + 1, ce),
                        );
                        self.push(w, Some(cidx));
                    }
                },
                None => {},
            }
            ci += 1;
        }
    }

    // --- HTML block (coarse) ---
    fn parse_html_block(&mut self, start: usize, parent: Option<usize>) -> (next: usize)
        requires
            at_line(*old(self), start, parent),
        ensures
            final(self).steady(*old(self)),
            start < next <= old(self).nlines(),
            final(self).tok_is(old(self).ntok(), Kind::HtmlFlow, start + 1, 1, parent),
    {
        let n = self.lines.len();
        // The first line holds the tag that opened the block.
        let mut j = start + 1;
        while j < n
            invariant
                self.inv(),
                n == self.nlines(),
                start < j <= n,
            decreases n - j,
        {
            let lc = self.line_chars(j);
            if is_blank(&lc) {
                break;
            }
            j += 1;
        }
        let end = j - 1;
        let sl = start + 1;
        let last_len = self.line_len(end);
        let mut text: Vec<char> = Vec::new();
        let mut k = start;
        while k <= end
            invariant
                self.inv(),
                n == self.nlines(),
                end < n,
                start <= k <= end + 1,
            decreases end + 1 - k,
        {
            if k > start {
                text.push('\n');
            }
            let lc = self.line_chars(k);
            let mut q: usize = 0;
            while q < lc.len()
                invariant
                    q <= lc@.len(),
                decreases lc@.len() - q,
            {
                text.push(lc[q]);
                q += 1;
            }
            k += 1;
        }
        let hf = self.tok(Kind::HtmlFlow, sl, 1, end + 1, last_len + 1, slice_vec(&text, 0, text.len()));
        let hidx = self.push(hf, parent);
        let ghost s1 = *self;
        let ts = leading_ws_chars(&text);
        let is_comment = ts < text.len() && text.len() - ts >= 4 && text[ts] == '<' && text[ts + 1] == '!' && text[ts
            + 2] == '-' && text[ts + 3] == '-';
        if !is_comment {
            let was = self.in_html_flow;
            self.in_html_flow = true;
            let content = self.tok(Kind::Content, sl, 1, end + 1, last_len + 1, slice_vec(&text, 0, text.len()));
            let cidx = self.push(content, Some(hidx));
            let para = self.tok(Kind::Paragraph, sl, 1, end + 1, last_len + 1, slice_vec(&text, 0, text.len()));
            let pidx = self.push(para, Some(cidx));
            proof {
                assert forall|q: int| 0 <= q < s1.ntok() implies #[trigger] self.head(q) == s1.head(q) by {}
            }
            let mut k = start;
            while k <= end
                invariant
                    self.inv(),
                    self.lines@ == old(self).lines@,
                    self.defined_labels@ == old(self).defined_labels@,
                    self.ntok() >= old(self).ntok(),
                    forall|q: int| 0 <= q < s1.ntok() ==> #[trigger] self.head(q) == s1.head(q),
                    s1.ntok() >= old(self).ntok(),
                    self.ntok() >= s1.ntok(),
                    forall|q: int| 0 <= q < old(self).ntok() ==> #[trigger] s1.head(q) == old(self).head(q),
                    was == old(self).in_html_flow,
                    self.in_html_flow,
                    n == self.nlines(),
                    end < n,
                    pidx < self.ntok(),
                    start <= k <= end + 1,
                decreases end + 1 - k,
            {
                let lc = self.line_chars(k);
                self.parse_inline(&lc, k + 1, 1, pidx);
                if k < end {
                    let kl = self.line_len(k);
                    let t = self.tok(Kind::LineEnding, k + 1, kl + 1, k + 2, 1, newline());
                    self.push(t, Some(pidx));
                }
                k += 1;
            }
            let ghost s2 = *self;
            self.in_html_flow = was;
            proof {
                assert forall|q: int| 0 <= q < s1.ntok() implies #[trigger] self.head(q) == s1.head(q) by {
                    assert(self.head(q) == s2.head(q));
                }
            }
        }
        let mut k = start;
        while k <= end
            invariant
                self.steady(*old(self)),
                self.steady(s1),
                n == self.nlines(),
                end < n,
                start <= k <= end + 1,
                parent matches Some(q) ==> q < self.ntok(),
            decreases end + 1 - k,
        {
            let kl = self.line_len(k);
            self.emit_line_ending(k, kl + 1, parent);
            k += 1;
        }
        end + 1
    }
}


impl Parser {
    // --- block quote ---
    fn parse_block_quote(&mut self, start: usize) -> (next: usize)
        requires
            at_line(*old(self), start, None),
        ensures
            final(self).steady(*old(self)),
            start < next <= old(self).nlines(),
            final(self).tok_is(old(self).ntok(), Kind::BlockQuote, start + 1, 1, None),
        decreases lines_size(old(self).lines@), 1int,
    {
        let n = self.lines.len();
        // The first line holds the `>` that opened the block quote.
        let mut j = start + 1;
        while j < n
            invariant
                self.inv(),
                n == self.nlines(),
                start < j <= n,
            decreases n - j,
        {
            let lc = self.line_chars(j);
            let lead = leading_spaces(&lc);
            if lead < 4 && lead < lc.len() && lc[lead] == '>' {
                j += 1;
            } else if !is_blank(&lc) && j > start {
                let t = slice_vec(&lc, lead, lc.len());
                if list_marker(&t).is_none() && atx_level(&t).is_none() && fenced_fence(&t).is_none()
                    && !is_thematic_break(&t) {
                    j += 1;
                } else {
                    break;
                }
            } else {
                break;
            }
        }
        let end = j - 1;
        let sl = start + 1;
        let last_len = self.line_len(end);
        let bq = self.tok(Kind::BlockQuote, sl, 1, end + 1, last_len + 1, Vec::new());
        let bqidx = self.push(bq, None);
        let ghost s1 = *self;
        match uniform_bq_prefixes(&self.lines, start, end) {
            Some(wmap) => {
                let lc = self.line_chars(start);
                let w0 = wmap[0];
                proof {
                    assert(w0 <= lc@.len()) by {
                        assert(Some(wmap@[0]) == super::scan::bq_width(self.lines@[start as int].chars@));
                        lemma_skip_sp_tab(lc@, 0);
                    }
                }
                let first = slice_vec(&lc, w0, lc.len());
                if list_marker(&first).is_some() {
                    self.emit_bq_list(start, end, bqidx, &wmap);
                    self.emit_line_ending(end, last_len + 1, None);
                    return end + 1;
                }
            },
            None => {},
        }
        let first_content_col = self.emit_bq_prefix(start, bqidx);
        let content = self.tok(Kind::Content, sl, first_content_col + 1, end + 1, last_len + 1, Vec::new());
        let cidx = self.push(content, Some(bqidx));
        let para = self.tok(Kind::Paragraph, sl, first_content_col + 1, end + 1, last_len + 1, Vec::new());
        let pidx = self.push(para, Some(cidx));
        let mut k = start;
        while k <= end
            invariant
                self.steady(*old(self)),
                self.steady(s1),
                n == self.nlines(),
                end < n,
                pidx < self.ntok(),
                start <= k <= end + 1,
                first_content_col <= self.line(start as int).len(),
            decreases end + 1 - k,
        {
            let content_col = if k == start {
                first_content_col
            } else {
                let pl = self.line_len(k - 1);
                let t = self.tok(Kind::LineEnding, k, pl + 1, k + 1, 1, newline());
                self.push(t, Some(pidx));
                self.emit_bq_prefix(k, pidx)
            };
            let lc = self.line_chars(k);
            if content_col < lc.len() {
                let rest = slice_vec(&lc, content_col, lc.len());
                self.parse_inline(&rest, k + 1, content_col + 1, pidx);
            }
            k += 1;
        }
        self.emit_line_ending(end, last_len + 1, None);
        end + 1
    }

    /// Emit the blockquote prefix (and any extra-space `linePrefix`) for line
    /// `k` under `parent`; returns the 0-based content column.
    fn emit_bq_prefix(&mut self, k: usize, parent: usize) -> (col: usize)
        requires
            at_line(*old(self), k, Some(parent)),
        ensures
            final(self).steady(*old(self)),
            col <= old(self).line(k as int).len(),
            !bq_marker_at(old(self).line(k as int)) ==> col == spec_leading(old(self).line(k as int))
                && *final(self) == *old(self),
            bq_marker_at(old(self).line(k as int)) ==> {
                let l = old(self).line(k as int);
                &&& col == crate::text::skip_char(l, bq_prefix_end(l), ' ')
                &&& final(self).tok_is(
                    old(self).ntok() + if spec_leading(l) > 0 { 1int } else { 0int },
                    Kind::BlockQuotePrefix,
                    k + 1,
                    spec_leading(l) + 1,
                    Some(parent),
                )
            },
    {
        let lc = self.line_chars(k);
        let len = lc.len();
        let line_no = k + 1;
        let lead = leading_spaces(&lc);
        if lead >= 4 || lead >= len || lc[lead] != '>' {
            return lead;
        }
        if lead > 0 {
            let lp = self.tok(Kind::LinePrefix, line_no, 1, line_no, lead + 1, slice_vec(&lc, 0, lead));
            self.push(lp, Some(parent));
        }
        let marker_col = lead;
        let has_space = marker_col + 1 < len && lc[marker_col + 1] == ' ';
        let pe = if has_space {
            marker_col + 2
        } else {
            marker_col + 1
        };
        let prefix = self.tok(
            Kind::BlockQuotePrefix,
            line_no,
            marker_col + 1,
            line_no,
            pe + 1,
            slice_vec(&lc, marker_col, pe),
        );
        let pidx = self.push(prefix, Some(parent));
        let marker = self.tok(Kind::BlockQuoteMarker, line_no, marker_col + 1, line_no, marker_col + 2, one_char('>'));
        self.push(marker, Some(pidx));
        if has_space {
            let w = self.tok(
                Kind::BlockQuotePrefixWhitespace,
                line_no,
                marker_col + 2,
                line_no,
                pe + 1,
                one_char(' '),
            );
            self.push(w, Some(pidx));
        }
        let ee = skip_run(&lc, pe, ' ');
        if ee > pe {
            let lp = self.tok(Kind::LinePrefix, line_no, pe + 1, line_no, ee + 1, slice_vec(&lc, pe, ee));
            self.push(lp, Some(parent));
        }
        ee
    }

    /// Emit just the `blockQuotePrefix` (marker + optional single space) for
    /// line `k` under `parent`.
    fn emit_bq_prefix_marker(&mut self, k: usize, parent: usize)
        requires
            at_line(*old(self), k, Some(parent)),
        ensures
            final(self).steady(*old(self)),
            !bq_marker_at(old(self).line(k as int)) ==> *final(self) == *old(self),
            bq_marker_at(old(self).line(k as int)) ==> {
                let l = old(self).line(k as int);
                &&& final(self).tok_is(old(self).ntok(), Kind::BlockQuotePrefix, k + 1, spec_leading(l) + 1, Some(parent))
                &&& final(self).tok_is(
                    old(self).ntok() + 1,
                    Kind::BlockQuoteMarker,
                    k + 1,
                    spec_leading(l) + 1,
                    Some(old(self).ntok() as usize),
                )
            },
    {
        let lc = self.line_chars(k);
        let len = lc.len();
        let line_no = k + 1;
        let lead = leading_spaces(&lc);
        if lead >= 4 || lead >= len || lc[lead] != '>' {
            return;
        }
        let marker_col = lead;
        let has_space = marker_col + 1 < len && lc[marker_col + 1] == ' ';
        let pe = if has_space {
            marker_col + 2
        } else {
            marker_col + 1
        };
        let prefix = self.tok(
            Kind::BlockQuotePrefix,
            line_no,
            marker_col + 1,
            line_no,
            pe + 1,
            slice_vec(&lc, marker_col, pe),
        );
        let pidx = self.push(prefix, Some(parent));
        let marker = self.tok(Kind::BlockQuoteMarker, line_no, marker_col + 1, line_no, marker_col + 2, one_char('>'));
        self.push(marker, Some(pidx));
        if has_space {
            let w = self.tok(
                Kind::BlockQuotePrefixWhitespace,
                line_no,
                marker_col + 2,
                line_no,
                pe + 1,
                one_char(' '),
            );
            self.push(w, Some(pidx));
        }
    }

    /// Total of line lengths plus line count.
    fn total_size(&self) -> (r: usize)
        requires
            self.inv(),
        ensures
            r == lines_size(self.lines@),
    {
        let mut t: usize = 0;
        let mut k: usize = 0;
        while k < self.lines.len()
            invariant
                self.inv(),
                k <= self.nlines(),
                t == lines_size(self.lines@.take(k as int)),
            decreases self.nlines() - k,
        {
            proof {
                assert(self.lines@.take(k + 1).drop_last() =~= self.lines@.take(k as int));
                assert(lines_size(self.lines@) <= usize::MAX / 8);
                lemma_lines_size_prefix(self.lines@, k + 1);
            }
            t = t + self.lines[k].chars.len() + 1;
            k += 1;
        }
        proof {
            assert(self.lines@.take(k as int) =~= self.lines@);
        }
        t
    }

    /// Parse a blockquote whose content is a list: sub-parse the de-prefixed
    /// content and re-emit it under the blockquote with column offsets and
    /// interleaved `blockQuotePrefix` tokens.
    fn emit_bq_list(&mut self, start: usize, end: usize, bqidx: usize, wmap: &Vec<usize>)
        requires
            old(self).inv(),
            start <= end < old(self).nlines(),
            bqidx < old(self).ntok(),
            wmap@.len() == end - start + 1,
        ensures
            final(self).steady(*old(self)),
            bq_stripped(old(self).lines@, wmap@, start as int, end + 1).len() + 1 < lines_size(old(self).lines@)
                && bq_marker_at(old(self).line(start as int)) ==> final(self).tok_is(
                old(self).ntok(),
                Kind::BlockQuotePrefix,
                start + 1,
                spec_leading(old(self).line(start as int)) + 1,
                Some(bqidx),
            ),
        decreases lines_size(old(self).lines@), 0int,
    {
        let mut stripped: Vec<char> = Vec::new();
        let mut k = start;
        while k <= end
            invariant
                self.inv(),
                start <= k <= end + 1,
                end < self.nlines(),
                wmap@.len() == end - start + 1,
                stripped@ == bq_stripped(self.lines@, wmap@, start as int, k as int),
            decreases end + 1 - k,
        {
            if k > start {
                stripped.push('\n');
            }
            let lc = self.line_chars(k);
            let w = wmap[k - start];
            let ghost t0 = stripped@;
            let mut q = w;
            while q < lc.len()
                invariant
                    q <= lc@.len() || w > lc@.len(),
                    w <= q,
                    w <= lc@.len() ==> w <= q && stripped@ == t0 + lc@.subrange(w as int, q as int),
                    w > lc@.len() ==> stripped@ == t0,
                decreases lc@.len() - q,
            {
                stripped.push(lc[q]);
                q += 1;
                proof {
                    if w <= lc@.len() {
                        assert(stripped@ =~= t0 + lc@.subrange(w as int, q as int));
                    }
                }
            }
            proof {
                assert(stripped@ =~= bq_stripped(self.lines@, wmap@, start as int, k + 1));
            }
            k += 1;
        }
        let total = self.total_size();
        // The de-prefixed content is shorter than the document (every line
        // loses at least its `>`), so this never returns early.
        if total == 0 || stripped.len() >= total - 1 {
            return;
        }
        let sub = Parser::parse_chars(&stripped);
        self.emit_bq_prefix_marker(start, bqidx);
        let ghost s1 = *self;
        let mut r: usize = 0;
        while r < sub.roots.len()
            invariant
                self.steady(*old(self)),
                self.steady(s1),
                sub.wf(),
                start <= end < self.nlines(),
                bqidx < self.ntok(),
                r <= sub.roots@.len(),
            decreases sub.roots@.len() - r,
        {
            proof {
                sub.lemma_root(r as int);
            }
            self.reemit_bq(&sub, sub.roots[r], bqidx, wmap, start, end);
            r += 1;
        }
    }

    fn reemit_bq(
        &mut self,
        sub: &Tree,
        sidx: usize,
        new_parent: usize,
        wmap: &Vec<usize>,
        start: usize,
        end: usize,
    )
        requires
            old(self).inv(),
            sub.wf(),
            sidx < sub.tokens@.len(),
            new_parent < old(self).ntok(),
            start <= end < old(self).nlines(),
        ensures
            final(self).steady(*old(self)),
            !reemit_fits(sub.tokens@[sidx as int], wmap@, start) ==> *final(self) == *old(self),
            reemit_fits(sub.tokens@[sidx as int], wmap@, start) ==> {
                let st = sub.tokens@[sidx as int];
                final(self).tok_is(
                    old(self).ntok(),
                    st.kind,
                    start + st.start_line,
                    st.start_column + shift_of(wmap@, st.start_line),
                    Some(new_parent),
                )
            },
        decreases sub.tokens@.len() - sidx,
    {
        let s = &sub.tokens[sidx];
        let kind = s.kind;
        let ssl = s.start_line;
        let ssc = s.start_column;
        let sel = s.end_line;
        let sec = s.end_column;
        let text = slice_vec(&s.text, 0, s.text.len());
        let wstart = if ssl >= 1 && ssl - 1 < wmap.len() {
            wmap[ssl - 1]
        } else {
            0
        };
        let wend = if sel >= 1 && sel - 1 < wmap.len() {
            wmap[sel - 1]
        } else {
            0
        };
        // Positions from a sub-parse are bounded by its input; the checks
        // below only keep the sums within `usize`.
        if ssl > usize::MAX - start || ssc > usize::MAX - wstart || sel > usize::MAX - start || sec
            > usize::MAX - wend {
            return;
        }
        let tok = self.tok(kind, start + ssl, ssc + wstart, start + sel, sec + wend, text);
        let nidx = self.push(tok, Some(new_parent));
        let ghost s1 = *self;
        let nch = s.children.len();
        let mut j: usize = 0;
        while j < nch
            invariant
                self.steady(*old(self)),
                self.steady(s1),
                sub.wf(),
                sidx < sub.tokens@.len(),
                nch == sub.tokens@[sidx as int].children@.len(),
                nidx < self.ntok(),
                start <= end < self.nlines(),
                j <= nch,
            decreases nch - j,
        {
            proof {
                sub.lemma_child(sidx as int, j as int);
            }
            let c = sub.tokens[sidx].children[j];
            self.reemit_bq(sub, c, nidx, wmap, start, end);
            j += 1;
        }
        if kind == Kind::LineEnding && ssl <= usize::MAX - start {
            let next0 = start + ssl;
            if next0 <= end {
                self.emit_bq_prefix_marker(next0, new_parent);
            }
        }
    }
}

proof fn lemma_lines_size_prefix(ls: Seq<Line>, k: int)
    requires
        0 <= k <= ls.len(),
    ensures
        lines_size(ls.take(k)) <= lines_size(ls),
    decreases ls.len() - k,
{
    if k < ls.len() {
        lemma_lines_size_prefix(ls, k + 1);
        assert(ls.take(k + 1).drop_last() =~= ls.take(k));
    } else {
        assert(ls.take(k) =~= ls);
    }
}


/// The line, after its leading spaces and tabs, starts a list item.
pub open spec fn starts_list_item(l: Seq<char>) -> bool {
    spec_list_marker(l.subrange(spec_leading(l), l.len() as int)) is Some
}

proof fn lemma_blank_not_item(l: Seq<char>)
    requires
        spec_is_blank(l),
    ensures
        !starts_list_item(l),
{
    lemma_skip_sp_tab(l, 0);
    if spec_leading(l) < l.len() {
        assert(crate::text::is_sp_tab(l[spec_leading(l)]));
    }
    assert(l.subrange(spec_leading(l), l.len() as int).len() == 0);
}

/// Same list signature: ordered flag and marker character.
fn same_sig(a: Option<(bool, char, usize)>, ordered: bool, marker: char) -> (r: bool)
    ensures
        r == (a matches Some((o, m, _)) && o == ordered && m == marker),
{
    match a {
        Some((o, m, _)) => o == ordered && m == marker,
        None => false,
    }
}

impl Parser {
    // --- list ---
    //
    // `min_indent` is the lowest column (0-based) at which a marker still
    // belongs to this list: 0 for a top-level list; for a nested list the
    // content column of the parent item. A marker at indent >= the current
    // item's content column begins a nested list.
    fn parse_list(&mut self, start: usize, parent: Option<usize>, min_indent: usize) -> (next: usize)
        requires
            at_line(*old(self), start, parent),
            starts_list_item(old(self).line(start as int)),
        ensures
            final(self).steady(*old(self)),
            start < next <= old(self).nlines(),
            final(self).opens_at(*old(self), start + 1, parent),
            final(self).head(old(self).ntok()).0 == (if list_ordered(old(self).line(start as int)) {
                Kind::ListOrdered
            } else {
                Kind::ListUnordered
            }),
        decreases old(self).nlines() - start,
    {
        let n = self.lines.len();
        let first_chars = self.line_chars(start);
        let lead = leading_spaces(&first_chars);
        let ft = slice_vec(&first_chars, lead, first_chars.len());
        let (ordered, first_marker) = match list_marker(&ft) {
            Some((o, m, _)) => (o, m),
            None => {
                proof {
                    assert(false);
                }
                (false, '-')
            },
        };
        let kind = if ordered {
            Kind::ListOrdered
        } else {
            Kind::ListUnordered
        };
        let list = self.tok(kind, start + 1, lead + 1, start + 1, 1, Vec::new());
        let lidx = self.push(list, parent);
        let ghost s1 = *self;
        let mut cur_content_col = self.content_col(start);
        let mut last_line = start;
        let mut k = start;
        let mut first = true;
        while k < n
            invariant
                self.steady(*old(self)),
                self.steady(s1),
                n == self.nlines(),
                start <= last_line < n,
                start <= k <= n,
                lidx < self.ntok(),
                first ==> k == start,
                !first ==> k > start,
                starts_list_item(self.line(start as int)),
            decreases n - k,
        {
            let lc = self.line_chars(k);
            let klen = lc.len();
            if is_blank(&lc) {
                proof {
                    if first {
                        lemma_blank_not_item(lc@);
                    }
                }
                let mut kk = k + 1;
                while kk < n
                    invariant
                        self.inv(),
                        n == self.nlines(),
                        k < kk <= n,
                    decreases n - kk,
                {
                    let kc = self.line_chars(kk);
                    if !is_blank(&kc) {
                        break;
                    }
                    kk += 1;
                }
                let cont = if kk < n {
                    let kc = self.line_chars(kk);
                    let ki = leading_spaces(&kc);
                    let kt = slice_vec(&kc, ki, kc.len());
                    let ss = same_sig(list_marker(&kt), ordered, first_marker);
                    ki >= cur_content_col || (ki >= min_indent && ss)
                } else {
                    false
                };
                if cont {
                    self.emit_line_ending(k, klen + 1, Some(lidx));
                    k += 1;
                    continue;
                }
                break;
            }
            let i = leading_spaces(&lc);
            let t = slice_vec(&lc, i, klen);
            let line_no = k + 1;
            if first {
                cur_content_col = self.emit_item(k, lidx);
                last_line = k;
                self.emit_line_ending(k, klen + 1, Some(lidx));
                first = false;
                k += 1;
                continue;
            }
            let marker = list_marker(&t);
            if i >= cur_content_col && marker.is_some() {
                let next = self.parse_list(k, Some(lidx), cur_content_col);
                last_line = next - 1;
                k = next;
                continue;
            }
            if i < min_indent {
                break;
            }
            if i < cur_content_col {
                match marker {
                    Some((o, m, _)) => {
                        if o == ordered && m == first_marker {
                            cur_content_col = self.emit_item(k, lidx);
                            last_line = k;
                            self.emit_line_ending(k, klen + 1, Some(lidx));
                            k += 1;
                            continue;
                        } else {
                            break;
                        }
                    },
                    None => {
                        if fenced_fence(&t).is_some() || atx_level(&t).is_some()
                            || is_thematic_break(&t) || (t.len() > 0 && t[0] == '>')
                            || is_html_block_start(&t) {
                            break;
                        }
                        if i > 0 {
                            let ind = self.tok(Kind::ListItemIndent, line_no, 1, line_no, i + 1, slice_vec(&lc, 0, i));
                            self.push(ind, Some(lidx));
                        }
                        last_line = k;
                        self.emit_line_ending(k, klen + 1, Some(lidx));
                        k += 1;
                        continue;
                    },
                }
            }
            let ind = self.tok(Kind::ListItemIndent, line_no, 1, line_no, i + 1, slice_vec(&lc, 0, i));
            self.push(ind, Some(lidx));
            last_line = k;
            self.emit_line_ending(k, klen + 1, Some(lidx));
            k += 1;
        }
        let last_len = self.line_len(last_line);
        let ghost before = *self;
        self.tree.set_end(lidx, last_line + 1, last_len + 1);
        proof {
            assert forall|q: int| 0 <= q < before.ntok() implies #[trigger] self.head(q) == before.head(q) by {
                if q != lidx {
                    assert(self.tree.tokens@[q] == before.tree.tokens@[q]);
                }
            }
        }
        last_line + 1
    }

    /// Content column (0-based index of the first content char) of a
    /// list-item marker line.
    fn content_col(&self, k: usize) -> (r: usize)
        requires
            self.inv(),
            k < self.nlines(),
        ensures
            r <= self.line(k as int).len(),
            r == spec_content_col(self.line(k as int)),
    {
        let lc = self.line_chars(k);
        let klead = leading_spaces(&lc);
        let kt = slice_vec(&lc, klead, lc.len());
        match list_marker(&kt) {
            Some((_o, _m, mlen)) => skip_ws_from(&lc, klead + mlen),
            None => klead,
        }
    }

    /// Emit a `listItemPrefix` (with marker/value/whitespace) and the item's
    /// first-line `content`/`paragraph`. Returns the content column.
    fn emit_item(&mut self, k: usize, lidx: usize) -> (col: usize)
        requires
            at_line(*old(self), k, Some(lidx)),
            starts_list_item(old(self).line(k as int)),
        ensures
            final(self).steady(*old(self)),
            col == spec_content_col(old(self).line(k as int)),
            final(self).tok_is(
                old(self).ntok(),
                Kind::ListItemPrefix,
                k + 1,
                spec_leading(old(self).line(k as int)) + 1 as int,
                Some(lidx),
            ),
    {
        let lc = self.line_chars(k);
        let len = lc.len();
        let klead = leading_spaces(&lc);
        let kt = slice_vec(&lc, klead, len);
        let (ord, mlen) = match list_marker(&kt) {
            Some((o, _m, l)) => (o, l),
            None => {
                proof {
                    assert(false);
                }
                (false, 0)
            },
        };
        let line_no = k + 1;
        let ws_after = skip_ws_from(&lc, klead + mlen);
        let prefix_end = ws_after;
        let prefix = self.tok(
            Kind::ListItemPrefix,
            line_no,
            klead + 1,
            line_no,
            prefix_end + 1,
            slice_vec(&lc, klead, prefix_end),
        );
        let pidx = self.push(prefix, Some(lidx));
        let after;
        if ord {
            let d = super::scan::skip_digit_run(&lc, klead);
            let val = self.tok(Kind::ListItemValue, line_no, klead + 1, line_no, d + 1, slice_vec(&lc, klead, d));
            self.push(val, Some(pidx));
            if d < len {
                let marker = self.tok(Kind::ListItemMarker, line_no, d + 1, line_no, d + 2, slice_vec(&lc, d, d + 1));
                self.push(marker, Some(pidx));
            }
            after = d + 1;
        } else {
            if klead < len {
                let marker = self.tok(
                    Kind::ListItemMarker,
                    line_no,
                    klead + 1,
                    line_no,
                    klead + 2,
                    slice_vec(&lc, klead, klead + 1),
                );
                self.push(marker, Some(pidx));
            }
            after = klead + 1;
        }
        if ws_after > after {
            let wsw = self.tok(
                Kind::ListItemPrefixWhitespace,
                line_no,
                after + 1,
                line_no,
                ws_after + 1,
                slice_vec(&lc, after, ws_after),
            );
            self.push(wsw, Some(pidx));
        }
        if prefix_end < len {
            let content = self.tok(Kind::Content, line_no, prefix_end + 1, line_no, len + 1, slice_vec(&lc, prefix_end, len));
            let cidx = self.push(content, Some(lidx));
            let para = self.tok(Kind::Paragraph, line_no, prefix_end + 1, line_no, len + 1, slice_vec(&lc, prefix_end, len));
            let paidx = self.push(para, Some(cidx));
            let rest = slice_vec(&lc, prefix_end, len);
            self.parse_inline(&rest, line_no, prefix_end + 1, paidx);
        }
        prefix_end
    }

    // --- paragraph / setext ---
    fn parse_paragraph(&mut self, start: usize, parent: Option<usize>) -> (next: usize)
        requires
            at_line(*old(self), start, parent),
        ensures
            final(self).steady(*old(self)),
            start < next <= old(self).nlines(),
            final(self).opens_at(*old(self), start + 1, parent),
            final(self).head(old(self).ntok()).0 == Kind::Content || final(self).head(old(self).ntok()).0
                == Kind::SetextHeading,
    {
        let n = self.lines.len();
        // The first line is the paragraph's own (not blank, not a new block).
        let mut j = start + 1;
        let mut setext_line: Option<usize> = None;
        while j < n
            invariant
                self.inv(),
                n == self.nlines(),
                start < j <= n,
                setext_line matches Some(u) ==> start < u < n,
            decreases n - j,
        {
            let lc = self.line_chars(j);
            if is_blank(&lc) {
                break;
            }
            let lead = leading_spaces(&lc);
            let t = slice_vec(&lc, lead, lc.len());
            {
                if lead < 4 && is_setext_underline(&t) {
                    setext_line = Some(j);
                    break;
                }
                if lead < 4 && (atx_level(&t).is_some() || fenced_fence(&t).is_some()
                    || is_thematic_break(&t) || (t.len() > 0 && t[0] == '>') || is_html_block_start(
                    &t,
                ) || interrupts_paragraph_list(&t)) {
                    break;
                }
                if j + 1 < n && contains_char(&lc, '|') {
                    let next = self.line_chars(j + 1);
                    match delimiter_row_cells(&next) {
                        Some(dc) => {
                            if count_cells(&lc) == dc && dc > 0 {
                                break;
                            }
                        },
                        None => {},
                    }
                }
            }
            j += 1;
        }
        let end = j - 1;
        match setext_line {
            Some(sl_line) => {
                if sl_line == end + 1 {
                    self.emit_setext(start, end, sl_line, parent);
                    return sl_line + 1;
                }
            },
            None => {},
        }
        self.emit_paragraph(start, end, parent);
        end + 1
    }

    fn emit_paragraph(&mut self, start: usize, end: usize, parent: Option<usize>)
        requires
            at_line(*old(self), start, parent),
            start <= end < old(self).nlines(),
        ensures
            final(self).steady(*old(self)),
            final(self).tok_is(
                old(self).ntok(),
                Kind::Content,
                start + 1,
                spec_leading(old(self).line(start as int)) + 1 as int,
                parent,
            ),
            final(self).tok_is(
                old(self).ntok() + 1,
                Kind::Paragraph,
                start + 1,
                spec_leading(old(self).line(start as int)) + 1 as int,
                Some(old(self).ntok() as usize),
            ),
    {
        let sl = start + 1;
        let first_chars = self.line_chars(start);
        let first_lead = leading_spaces(&first_chars);
        let last_len = self.line_len(end);
        let content = self.tok(Kind::Content, sl, first_lead + 1, end + 1, last_len + 1, Vec::new());
        let cidx = self.push(content, parent);
        let para = self.tok(Kind::Paragraph, sl, first_lead + 1, end + 1, last_len + 1, Vec::new());
        let pidx = self.push(para, Some(cidx));
        let ghost s1 = *self;
        let mut k = start;
        while k <= end
            invariant
                self.steady(*old(self)),
                self.steady(s1),
                end < self.nlines(),
                pidx < self.ntok(),
                start <= k <= end + 1,
            decreases end + 1 - k,
        {
            let lc = self.line_chars(k);
            let lead = leading_spaces(&lc);
            let line_no = k + 1;
            let rest = slice_vec(&lc, lead, lc.len());
            self.parse_inline(&rest, line_no, lead + 1, pidx);
            if k < end {
                let t = self.tok(Kind::LineEnding, line_no, lc.len() + 1, line_no + 1, 1, newline());
                self.push(t, Some(pidx));
            }
            k += 1;
        }
        self.emit_line_ending(end, last_len + 1, parent);
    }

    fn emit_setext(&mut self, start: usize, end: usize, underline: usize, parent: Option<usize>)
        requires
            at_line(*old(self), start, parent),
            start <= end < underline < old(self).nlines(),
        ensures
            final(self).steady(*old(self)),
            final(self).tok_is(old(self).ntok(), Kind::SetextHeading, start + 1, 1, parent),
            final(self).tok_is(
                old(self).ntok() + 1,
                Kind::SetextHeadingText,
                start + 1,
                spec_leading(old(self).line(start as int)) + 1 as int,
                Some(old(self).ntok() as usize),
            ),
    {
        let sl = start + 1;
        let ul = underline;
        let ul_chars = self.line_chars(ul);
        let ul_lead = leading_spaces(&ul_chars);
        let ul_len = ul_chars.len();
        let sh = self.tok(Kind::SetextHeading, sl, 1, ul + 1, ul_len + 1, Vec::new());
        let shidx = self.push(sh, parent);
        let first_chars = self.line_chars(start);
        let first_lead = leading_spaces(&first_chars);
        let text_last_len = self.line_len(end);
        let text = self.tok(Kind::SetextHeadingText, sl, first_lead + 1, end + 1, text_last_len + 1, Vec::new());
        let tidx = self.push(text, Some(shidx));
        let ghost s1 = *self;
        let mut k = start;
        while k <= end
            invariant
                self.steady(*old(self)),
                self.steady(s1),
                end < self.nlines(),
                tidx < self.ntok(),
                shidx < self.ntok(),
                start <= k <= end + 1,
            decreases end + 1 - k,
        {
            let lc = self.line_chars(k);
            let lead = leading_spaces(&lc);
            let line_no = k + 1;
            let rest = slice_vec(&lc, lead, lc.len());
            self.parse_inline(&rest, line_no, lead + 1, tidx);
            if k < end {
                let t = self.tok(Kind::LineEnding, line_no, lc.len() + 1, line_no + 1, 1, newline());
                self.push(t, Some(tidx));
            }
            k += 1;
        }
        let te = self.tok(Kind::LineEnding, end + 1, text_last_len + 1, end + 2, 1, newline());
        self.push(te, Some(shidx));
        let uline = self.tok(
            Kind::SetextHeadingLine,
            ul + 1,
            ul_lead + 1,
            ul + 1,
            ul_len + 1,
            slice_vec(&ul_chars, ul_lead, ul_len),
        );
        let ulidx = self.push(uline, Some(shidx));
        let useq = self.tok(
            Kind::SetextHeadingLineSequence,
            ul + 1,
            ul_lead + 1,
            ul + 1,
            ul_len + 1,
            slice_vec(&ul_chars, ul_lead, ul_len),
        );
        self.push(useq, Some(ulidx));
        self.emit_line_ending(ul, ul_len + 1, parent);
    }
}


/// The end of the construct starting at `i` that hides its characters
/// from emphasis: a code span, an autolink or inline HTML, a link or
/// image, or a literal link.
pub open spec fn construct_end(s: Seq<char>, i: int) -> Option<int> {
    let c = s[i];
    if c == '`' && spec_code_span_close(s, i) is Some {
        let (m, cl) = spec_code_span_close(s, i)->0;
        Some(cl + m)
    } else if c == '<' && (super::scan::spec_detect_autolink(s, i) is Some || super::scan::spec_detect_html(s, i) is Some) {
        if super::scan::spec_detect_autolink(s, i) is Some {
            Some(super::scan::spec_detect_autolink(s, i)->0 as int)
        } else {
            Some(super::scan::spec_detect_html(s, i)->0 as int)
        }
    } else if (c == '[' || (c == '!' && i + 1 < s.len() && s[i + 1] == '[')) && super::scan::spec_detect_link(s, i) is Some {
        Some(super::scan::spec_detect_link(s, i)->0 as int)
    } else if super::scan::spec_is_url_boundary(s, i) && super::scan::spec_detect_literal(s, i) is Some {
        Some(super::scan::spec_detect_literal(s, i)->0 as int)
    } else {
        None
    }
}

/// The constructs of `s` from `i` on, left to right, each as its start and
/// end; a backslash escapes the next character.
pub open spec fn ranges_from(s: Seq<char>, i: int) -> Seq<(usize, usize)>
    decreases s.len() + 2 - i,
{
    if i < 0 || i >= s.len() {
        Seq::empty()
    } else if s[i] == '\\' {
        ranges_from(s, i + 2)
    } else {
        match construct_end(s, i) {
            Some(e) => if i < e <= s.len() {
                seq![(i as usize, e as usize)] + ranges_from(s, e)
            } else {
                ranges_from(s, i + 1)
            },
            None => ranges_from(s, i + 1),
        }
    }
}

/// Requirements shared by the inline scanners: a bounded text whose
/// columns start at `start_col` on line `line_no`.
pub open spec fn inline_ok(p: Parser, chars: Seq<char>, line_no: usize, start_col: usize, parent: usize) -> bool {
    &&& p.inv()
    &&& parent < p.ntok()
    &&& fits(chars.len() as int)
    &&& start_col <= usize::MAX / 8
    &&& line_no <= usize::MAX / 8
}

/// The start of the first backtick run of exactly `n` backticks from `j`
/// on, runs taken whole.
pub open spec fn code_close_from(s: Seq<char>, n: int, j: int) -> Option<int>
    decreases s.len() - j,
{
    if j < 0 || j >= s.len() {
        None
    } else if s[j] == '`' {
        let m = crate::text::skip_char(s, j, '`') - j;
        if m == n {
            Some(j)
        } else if m <= 0 {
            None
        } else {
            proof {
                crate::text::lemma_skip_char(s, j, '`');
            }
            code_close_from(s, n, j + m)
        }
    } else {
        code_close_from(s, n, j + 1)
    }
}

/// The code span opening at `i`: the length of its backtick run and the
/// start of the closing run of the same length.
pub open spec fn spec_code_span_close(s: Seq<char>, i: int) -> Option<(int, int)> {
    let n = crate::text::skip_char(s, i, '`') - i;
    match code_close_from(s, n, i + n) {
        Some(j) => Some((n, j)),
        None => None,
    }
}

/// A code span opening at `i`: the length `n` of its backtick run and the
/// start of the matching closing run of exactly `n` backticks.
fn code_span_close(chars: &[char], i: usize) -> (r: Option<(usize, usize)>)
    requires
        i < chars@.len(),
        chars@[i as int] == '`',
    ensures
        r matches Some((n, close)) ==> 1 <= n && i + n <= close && close + n <= chars@.len(),
        match r {
            Some((n, close)) => spec_code_span_close(chars@, i as int) == Some((n as int, close as int)),
            None => spec_code_span_close(chars@, i as int) is None,
        },
{
    let len = chars.len();
    let n = skip_run(chars, i, '`') - i;
    proof {
        crate::text::lemma_skip_char(chars@, i as int, '`');
    }
    let mut j = i + n;
    while j < len
        invariant
            len == chars@.len(),
            i + n <= j <= len,
            n >= 1,
            n == crate::text::skip_char(chars@, i as int, '`') - i,
            code_close_from(chars@, n as int, (i + n) as int) == code_close_from(chars@, n as int, j as int),
        decreases len - j,
    {
        if chars[j] == '`' {
            let m = skip_run(chars, j, '`') - j;
            proof {
                crate::text::lemma_skip_char(chars@, j as int, '`');
            }
            if m == n {
                return Some((n, j));
            }
            j += m;
        } else {
            j += 1;
        }
    }
    None
}

/// Whether `labels` holds `l`.
fn contains_label(labels: &Vec<Vec<char>>, l: &Vec<char>) -> (r: bool)
    ensures
        r == exists|k: int| 0 <= k < labels@.len() && (#[trigger] labels@[k])@ == l@,
{
    let mut k: usize = 0;
    while k < labels.len()
        invariant
            k <= labels@.len(),
            forall|q: int| 0 <= q < k ==> (#[trigger] labels@[q])@ != l@,
        decreases labels@.len() - k,
    {
        let c = &labels[k];
        if c.len() == l.len() {
            let mut q: usize = 0;
            let mut same = true;
            while q < c.len()
                invariant
                    q <= c@.len(),
                    c@.len() == l@.len(),
                    same == (forall|x: int| 0 <= x < q ==> c@[x] == l@[x]),
                decreases c@.len() - q,
            {
                if c[q] != l[q] {
                    same = false;
                }
                q += 1;
            }
            if same {
                proof {
                    assert(c@ =~= l@);
                }
                return true;
            }
        }
        k += 1;
    }
    false
}

/// Spans ordered by opening position, outer (longer) spans first.
fn sort_spans(spans: &Vec<EmphSpan>, Ghost(s): Ghost<Seq<char>>) -> (r: Vec<EmphSpan>)
    requires
        fits(s.len() as int),
        forall|k: int| 0 <= k < spans@.len() ==> span_ok(#[trigger] spans@[k], s),
    ensures
        r@.len() == spans@.len(),
        forall|k: int| 0 <= k < r@.len() ==> span_ok(#[trigger] r@[k], s),
{
    let mut out: Vec<EmphSpan> = Vec::new();
    let mut k: usize = 0;
    while k < spans.len()
        invariant
            k <= spans@.len(),
            out@.len() == k,
            fits(s.len() as int),
            forall|q: int| 0 <= q < spans@.len() ==> span_ok(#[trigger] spans@[q], s),
            forall|q: int| 0 <= q < out@.len() ==> span_ok(#[trigger] out@[q], s),
        decreases spans@.len() - k,
    {
        let x = spans[k];
        proof {
            assert(span_ok(spans@[k as int], s));
        }
        let xe = x.close_start + x.close_len;
        let mut pos: usize = 0;
        while pos < out.len()
            invariant
                pos <= out@.len(),
                fits(s.len() as int),
                forall|q: int| 0 <= q < out@.len() ==> span_ok(#[trigger] out@[q], s),
            decreases out@.len() - pos,
        {
            let y = out[pos];
            proof {
                assert(span_ok(out@[pos as int], s));
            }
            let ye = y.close_start + y.close_len;
            if y.open_start > x.open_start || (y.open_start == x.open_start && ye < xe) {
                break;
            }
            pos += 1;
        }
        proof {
            assert(span_ok(spans@[k as int], s));
        }
        out.insert(pos, x);
        proof {
            assert forall|q: int| 0 <= q < out@.len() implies span_ok(#[trigger] out@[q], s) by {
                if q < pos {
                } else if q > pos {
                }
            }
        }
        k += 1;
    }
    out
}

/// An open emphasis/strong token and how it closes.
struct Frame {
    emph_idx: usize,
    text_idx: usize,
    close_start: usize,
    close_len: usize,
    close_kind: Kind,
}

impl Parser {
    /// Character ranges of inline constructs (code, autolinks, HTML,
    /// links/images, literal autolinks), used to mask emphasis delimiters.
    fn construct_ranges(&self, chars: &[char]) -> (r: Vec<(usize, usize)>)
        requires
            fits(chars@.len() as int),
        ensures
            r@ == ranges_from(chars@, 0),
    {
        let n = chars.len();
        let mut ranges: Vec<(usize, usize)> = Vec::new();
        let mut i: usize = 0;
        proof {
            assert(ranges@ + ranges_from(chars@, 0) =~= ranges_from(chars@, 0));
        }
        while i < n
            invariant
                n == chars@.len(),
                fits(n as int),
                i <= n + 1,
                ranges@ + ranges_from(chars@, i as int) == ranges_from(chars@, 0),
            decreases n + 2 - i,
        {
            let c = chars[i];
            if c == '\\' {
                i += 2;
                continue;
            }
            if c == '`' {
                match code_span_close(chars, i) {
                    Some((m, close)) => {
                        let end = close + m;
                        proof {
                            assert(ranges@.push((i, end)) + ranges_from(chars@, end as int) =~= ranges@ + ranges_from(
                                chars@,
                                i as int,
                            ));
                        }
                        ranges.push((i, end));
                        i = end;
                        continue;
                    },
                    None => {},
                }
            }
            if c == '<' {
                let e = match detect_autolink(chars, i) {
                    Some(e) => Some(e),
                    None => detect_html(chars, i),
                };
                match e {
                    Some(end) => {
                        proof {
                            assert(ranges@.push((i, end)) + ranges_from(chars@, end as int) =~= ranges@ + ranges_from(
                                chars@,
                                i as int,
                            ));
                        }
                        ranges.push((i, end));
                        i = end;
                        continue;
                    },
                    None => {},
                }
            }
            if c == '[' || (c == '!' && i + 1 < n && chars[i + 1] == '[') {
                match detect_link(chars, i) {
                    Some(end) => {
                        proof {
                            assert(ranges@.push((i, end)) + ranges_from(chars@, end as int) =~= ranges@ + ranges_from(
                                chars@,
                                i as int,
                            ));
                        }
                        ranges.push((i, end));
                        i = end;
                        continue;
                    },
                    None => {},
                }
            }
            if is_url_boundary(chars, i) {
                match detect_literal(chars, i) {
                    Some(end) => {
                        proof {
                            assert(ranges@.push((i, end)) + ranges_from(chars@, end as int) =~= ranges@ + ranges_from(
                                chars@,
                                i as int,
                            ));
                        }
                        ranges.push((i, end));
                        i = end;
                        continue;
                    },
                    None => {},
                }
            }
            i += 1;
        }
        ranges
    }

    /// Parse one line of inline content into tokens under `parent`.
    #[verifier::rlimit(80)]
    fn parse_inline(&mut self, chars: &[char], line_no: usize, start_col: usize, parent: usize)
        requires
            inline_ok(*old(self), chars@, line_no, start_col, parent),
        ensures
            final(self).steady(*old(self)),
            chars@.len() == 0 ==> *final(self) == *old(self),
            chars@.len() > 0 ==> final(self).opens_at(*old(self), line_no as int, Some(parent)) && final(self).head(
                old(self).ntok(),
            ).2 == start_col,
            final(self).keeps(*old(self)),
            final(self).tree.roots@ == old(self).tree.roots@,
            final(self).inline_from(old(self).ntok(), chars@, line_no as int, start_col as int, parent),
    {
        let ghost n0 = self.ntok();
        let ghost root = parent;
        let n = chars.len();
        let masked = self.construct_ranges(chars);
        let spans = emphasis_spans(chars, &masked);
        let opens = sort_spans(&spans, Ghost(chars@));
        let mut consumed: Vec<bool> = Vec::new();
        let mut q: usize = 0;
        while q < n
            invariant
                q <= n,
                consumed@.len() == q,
            decreases n - q,
        {
            consumed.push(false);
            q += 1;
        }
        let mut si: usize = 0;
        while si < spans.len()
            invariant
                consumed@.len() == n,
                n == chars@.len(),
                forall|k: int| 0 <= k < spans@.len() ==> span_ok(#[trigger] spans@[k], chars@),
            decreases spans@.len() - si,
        {
            let sp = spans[si];
            proof {
                assert(span_ok(spans@[si as int], chars@));
            }
            let mut p = sp.open_start;
            while p < sp.open_start + sp.open_len
                invariant
                    consumed@.len() == n,
                    sp.open_start + sp.open_len <= n,
                decreases sp.open_start + sp.open_len - p,
            {
                consumed.set(p, true);
                p += 1;
            }
            let mut p = sp.close_start;
            while p < sp.close_start + sp.close_len
                invariant
                    consumed@.len() == n,
                    sp.close_start + sp.close_len <= n,
                decreases sp.close_start + sp.close_len - p,
            {
                consumed.set(p, true);
                p += 1;
            }
            si += 1;
        }
        let mut op: usize = 0;
        let mut frames: Vec<Frame> = Vec::new();
        let mut cur = parent;
        let mut i: usize = 0;
        let mut data_start: usize = 0;
        let mut suppressed_link_at: Option<usize> = None;
        while i < n
            invariant
                self.steady(*old(self)),
                self.keeps(*old(self)),
                self.tree.roots@ == old(self).tree.roots@,
                self.inline_from(n0, chars@, line_no as int, start_col as int, root),
                n0 == old(self).ntok(),
                root == parent,
                cur == root || n0 <= cur,
                forall|k: int| 0 <= k < frames@.len() ==> n0 <= (#[trigger] frames@[k]).emph_idx && n0 <= frames@[k].text_idx,
                inline_ok(*self, chars@, line_no, start_col, parent),
                self.ntok() == old(self).ntok() ==> data_start == 0 && cur == parent && frames@.len() == 0,
                self.ntok() > old(self).ntok() ==> self.head(old(self).ntok()).1 == line_no && self.head(
                    old(self).ntok(),
                ).2 == start_col && self.head(old(self).ntok()).3 == Some(parent),
                n == 0 ==> *self == *old(self),
                n == chars@.len(),
                consumed@.len() == n,
                i <= n + 1,
                data_start <= n,
                data_start <= i,
                cur < self.ntok(),
                forall|k: int| 0 <= k < opens@.len() ==> span_ok(#[trigger] opens@[k], chars@),
                forall|k: int|
                    0 <= k < frames@.len() ==> {
                        &&& (#[trigger] frames@[k]).emph_idx < self.ntok()
                        &&& frames@[k].text_idx < self.ntok()
                        &&& frames@[k].close_start + frames@[k].close_len <= n
                    },
                op <= opens@.len(),
            decreases n + 2 - i,
        {
            let ghost i0 = i;
            loop
                invariant
                    i0 <= i,
                    op <= opens@.len(),
                    self.steady(*old(self)),
                    self.keeps(*old(self)),
                    self.tree.roots@ == old(self).tree.roots@,
                    self.inline_from(n0, chars@, line_no as int, start_col as int, root),
                    n0 == old(self).ntok(),
                    root == parent,
                    cur == root || n0 <= cur,
                    forall|k: int| 0 <= k < frames@.len() ==> n0 <= (#[trigger] frames@[k]).emph_idx && n0 <= frames@[k].text_idx,
                    self.ntok() == old(self).ntok() ==> data_start == 0 && cur == parent && frames@.len() == 0,
                    self.ntok() > old(self).ntok() ==> self.head(old(self).ntok()).1 == line_no && self.head(
                        old(self).ntok(),
                    ).2 == start_col && self.head(old(self).ntok()).3 == Some(parent),
                    inline_ok(*self, chars@, line_no, start_col, parent),
                    n == chars@.len(),
                    i <= n,
                    data_start <= i,
                    cur < self.ntok(),
                    forall|k: int| 0 <= k < opens@.len() ==> span_ok(#[trigger] opens@[k], chars@),
                    forall|k: int|
                        0 <= k < frames@.len() ==> {
                            &&& (#[trigger] frames@[k]).emph_idx < self.ntok()
                            &&& frames@[k].text_idx < self.ntok()
                            &&& frames@[k].close_start + frames@[k].close_len <= n
                        },
                decreases n - i,
            {
                if frames.len() > 0 && frames[frames.len() - 1].close_start == i && frames[frames.len()
                    - 1].close_len > 0 {
                    self.flush_data(data_start, i, chars, line_no, start_col, cur, Ghost(n0), Ghost(root));
                    let f = frames.pop().unwrap();
                    let seq = self.tok(
                        f.close_kind,
                        line_no,
                        start_col + i,
                        line_no,
                        start_col + i + f.close_len,
                        slice_vec(chars, i, i + f.close_len),
                    );
                    self.push_in(seq, f.emph_idx, Ghost(chars@), line_no, start_col, Ghost(n0), Ghost(root));
                    i += f.close_len;
                    data_start = i;
                    cur = if frames.len() > 0 {
                        frames[frames.len() - 1].text_idx
                    } else {
                        parent
                    };
                    continue;
                }
                while op < opens.len() && opens[op].open_start < i
                    invariant
                        op <= opens@.len(),
                    decreases opens@.len() - op,
                {
                    op += 1;
                }
                if op < opens.len() && opens[op].open_start == i {
                    let span = opens[op];
                    proof {
                        assert(span_ok(opens@[op as int], chars@));
                    }
                    op += 1;
                    self.flush_data(data_start, i, chars, line_no, start_col, cur, Ghost(n0), Ghost(root));
                    let strong = span.open_len == 2;
                    let (kind, seq_kind, text_kind) = if strong {
                        (Kind::Strong, Kind::StrongSequence, Kind::StrongText)
                    } else {
                        (Kind::Emphasis, Kind::EmphasisSequence, Kind::EmphasisText)
                    };
                    let close_end = span.close_start + span.close_len;
                    let emph = self.tok(
                        kind,
                        line_no,
                        start_col + i,
                        line_no,
                        start_col + close_end,
                        slice_vec(chars, i, close_end),
                    );
                    let eidx = self.push_in(emph, cur, Ghost(chars@), line_no, start_col, Ghost(n0), Ghost(root));
                    let oseq = self.tok(
                        seq_kind,
                        line_no,
                        start_col + i,
                        line_no,
                        start_col + i + span.open_len,
                        slice_vec(chars, i, i + span.open_len),
                    );
                    self.push_in(oseq, eidx, Ghost(chars@), line_no, start_col, Ghost(n0), Ghost(root));
                    let text = self.tok(
                        text_kind,
                        line_no,
                        start_col + i + span.open_len,
                        line_no,
                        start_col + span.close_start,
                        slice_vec(chars, i + span.open_len, span.close_start),
                    );
                    let tidx = self.push_in(text, eidx, Ghost(chars@), line_no, start_col, Ghost(n0), Ghost(root));
                    frames.push(
                        Frame {
                            emph_idx: eidx,
                            text_idx: tidx,
                            close_start: span.close_start,
                            close_len: span.close_len,
                            close_kind: seq_kind,
                        },
                    );
                    cur = tidx;
                    i += span.open_len;
                    data_start = i;
                    continue;
                }
                break;
            }
            if i >= n {
                break;
            }
            let c = chars[i];
            if c == '\\' {
                i += 2;
                continue;
            }
            if (c == '*' || c == '_') && !consumed[i] {
                let mut run_end = i;
                while run_end < n && chars[run_end] == c && !consumed[run_end]
                    invariant
                        i <= run_end <= n,
                        consumed@.len() == n,
                        n == chars@.len(),
                    decreases n - run_end,
                {
                    run_end += 1;
                }
                self.flush_data(data_start, i, chars, line_no, start_col, cur, Ghost(n0), Ghost(root));
                let d = self.tok(
                    Kind::Data,
                    line_no,
                    start_col + i,
                    line_no,
                    start_col + run_end,
                    slice_vec(chars, i, run_end),
                );
                self.push_in(d, cur, Ghost(chars@), line_no, start_col, Ghost(n0), Ghost(root));
                data_start = run_end;
                i = run_end;
                continue;
            }
            if c == '`' {
                match self.try_code_span(chars, i, line_no, start_col, cur, &mut data_start, Ghost(n0), Ghost(root)) {
                    Some(end) => {
                        i = end;
                        continue;
                    },
                    None => {},
                }
            }
            if c == '<' {
                match self.try_autolink(chars, i, line_no, start_col, cur, &mut data_start, Ghost(n0), Ghost(root)) {
                    Some(end) => {
                        i = end;
                        continue;
                    },
                    None => {},
                }
                match self.try_html_text(chars, i, line_no, start_col, cur, &mut data_start, Ghost(n0), Ghost(root)) {
                    Some(end) => {
                        i = end;
                        continue;
                    },
                    None => {},
                }
            }
            if (c == '[' && suppressed_link_at != Some(i)) || (c == '!' && i + 1 < n && chars[i + 1]
                == '[') {
                match self.try_link_image(chars, i, line_no, start_col, cur, &mut data_start, Ghost(n0), Ghost(root)) {
                    Some(end) => {
                        i = end;
                        continue;
                    },
                    None => {},
                }
                if c == '!' {
                    suppressed_link_at = Some(i + 1);
                }
            }
            if (c == 'h' || c == 'H' || c == 'w' || c == 'W') && is_url_boundary(chars, i) {
                match self.try_literal_autolink(chars, i, line_no, start_col, cur, &mut data_start, Ghost(n0), Ghost(root)) {
                    Some(end) => {
                        i = end;
                        continue;
                    },
                    None => {},
                }
            }
            if (crate::text::is_ascii_alnum(c) || c == '.' || c == '_' || c == '%' || c == '+' || c
                == '-') && is_url_boundary(chars, i) {
                match self.try_literal_email(chars, i, line_no, start_col, cur, &mut data_start, Ghost(n0), Ghost(root)) {
                    Some(end) => {
                        i = end;
                        continue;
                    },
                    None => {},
                }
            }
            i += 1;
        }
        self.flush_data(data_start, n, chars, line_no, start_col, cur, Ghost(n0), Ghost(root));
    }

    fn flush_data(
        &mut self,
        from: usize,
        to: usize,
        chars: &[char],
        line_no: usize,
        start_col: usize,
        parent: usize,
        Ghost(n0): Ghost<int>,
        Ghost(root): Ghost<usize>,
    )
        requires
            inline_ok(*old(self), chars@, line_no, start_col, parent),
            from <= to <= chars@.len(),
            old(self).inline_from(n0, chars@, line_no as int, start_col as int, root),
            0 <= n0 <= old(self).ntok(),
            parent == root || n0 <= parent,
        ensures
            final(self).steady(*old(self)),
            to > from ==> final(self).ntok() == old(self).ntok() + 1 && final(self).tok_is(
                old(self).ntok(),
                Kind::Data,
                line_no as int,
                start_col + from,
                Some(parent),
            ),
            to <= from ==> *final(self) == *old(self),
            final(self).keeps(*old(self)),
            final(self).tree.roots@ == old(self).tree.roots@,
            final(self).inline_from(n0, chars@, line_no as int, start_col as int, root),
    {
        if to > from {
            let t = self.tok(
                Kind::Data,
                line_no,
                start_col + from,
                line_no,
                start_col + to,
                slice_vec(chars, from, to),
            );
            self.push_in(t, parent, Ghost(chars@), line_no, start_col, Ghost(n0), Ghost(root));
        }
    }
}
/// Number of leading (Unicode) whitespace characters.
fn leading_ws_chars(s: &[char]) -> (r: usize)
    ensures
        r <= s@.len(),
        forall|k: int| 0 <= k < r ==> crate::text::spec_is_whitespace(#[trigger] s@[k]),
        r < s@.len() ==> !crate::text::spec_is_whitespace(s@[r as int]),
{
    let mut i: usize = 0;
    while i < s.len() && is_whitespace(s[i])
        invariant
            i <= s@.len(),
            forall|k: int| 0 <= k < i ==> crate::text::spec_is_whitespace(#[trigger] s@[k]),
        decreases s@.len() - i,
    {
        i += 1;
    }
    i
}
proof fn lemma_split_lines_bounds(s: Seq<char>)
    ensures
        forall|k: int|
            0 <= k < spec_split_lines(s).len() ==> (#[trigger] spec_split_lines(s)[k]).0.len()
                <= s.len(),
        spec_split_lines(s).len() <= s.len(),
    decreases s.len(),
{
    let t = first_break(s, 0);
    lemma_first_break(s, 0);
    if t < s.len() {
        let rest = s.skip(t + break_len(s, t));
        lemma_split_lines_bounds(rest);
        let r = spec_split_lines(s);
        assert forall|k: int| 0 <= k < r.len() implies (#[trigger] r[k]).0.len() <= s.len() by {
            if k > 0 {
                assert(r[k] == spec_split_lines(rest)[k - 1]);
            }
        }
    }
}

proof fn lemma_lines_size_split(s: Seq<char>)
    ensures
        lines_view_size(spec_split_lines(s)) <= s.len() + 1,
    decreases s.len(),
{
    let t = first_break(s, 0);
    lemma_first_break(s, 0);
    if t < s.len() {
        let rest = s.skip(t + break_len(s, t));
        lemma_lines_size_split(rest);
        let head = seq![(s.take(t), true)];
        lemma_view_size_concat(head, spec_split_lines(rest));
        assert(lines_view_size(head) == t + 1) by {
            let e = Seq::<(Seq<char>, bool)>::empty();
            assert(head.drop_last() =~= e);
            assert(lines_view_size(e) == 0);
            assert(head.last().0.len() == t);
        }
        assert(spec_split_lines(s) == head + spec_split_lines(rest));
        assert(rest.len() == s.len() - t - break_len(s, t));
    } else if s.len() > 0 {
        let v = seq![(s, false)];
        let e = Seq::<(Seq<char>, bool)>::empty();
        assert(v.drop_last() =~= e);
        assert(lines_view_size(e) == 0);
        assert(spec_split_lines(s) == v);
    } else {
        assert(lines_view_size(spec_split_lines(s)) == 0);
    }
}

/// Sum over viewed lines of their length plus one.
pub open spec fn lines_view_size(ls: Seq<(Seq<char>, bool)>) -> nat
    decreases ls.len(),
{
    if ls.len() == 0 {
        0
    } else {
        lines_view_size(ls.drop_last()) + ls.last().0.len() + 1
    }
}

proof fn lemma_view_size_concat(a: Seq<(Seq<char>, bool)>, b: Seq<(Seq<char>, bool)>)
    ensures
        lines_view_size(a + b) == lines_view_size(a) + lines_view_size(b),
    decreases b.len(),
{
    if b.len() > 0 {
        assert((a + b).drop_last() =~= a + b.drop_last());
        lemma_view_size_concat(a, b.drop_last());
    } else {
        assert(a + b =~= a);
    }
}

proof fn lemma_lines_size_view(ls: Seq<Line>)
    ensures
        lines_size(ls) == lines_view_size(lines_view(ls)),
    decreases ls.len(),
{
    if ls.len() > 0 {
        assert(lines_view(ls).drop_last() =~= lines_view(ls.drop_last()));
        lemma_lines_size_view(ls.drop_last());
    }
}


/// Whether `chars[a..b]` is all spaces.
fn all_spaces(chars: &[char], a: usize, b: usize) -> (r: bool)
    requires
        a <= b <= chars@.len(),
    ensures
        r == (forall|k: int| a <= k < b ==> chars@[k] == ' '),
{
    let mut k = a;
    while k < b
        invariant
            a <= k <= b <= chars@.len(),
            forall|q: int| a <= q < k ==> chars@[q] == ' ',
        decreases b - k,
    {
        if chars[k] != ' ' {
            return false;
        }
        k += 1;
    }
    true
}

/// Whether `s` is empty once Unicode whitespace is trimmed.
fn all_whitespace(s: &[char]) -> (r: bool)
    ensures
        r == (forall|k: int| 0 <= k < s@.len() ==> crate::text::spec_is_whitespace(s@[k])),
{
    let mut k: usize = 0;
    while k < s.len()
        invariant
            k <= s@.len(),
            forall|q: int| 0 <= q < k ==> crate::text::spec_is_whitespace(s@[q]),
        decreases s@.len() - k,
    {
        if !is_whitespace(s[k]) {
            return false;
        }
        k += 1;
    }
    true
}

/// Ensures shared by the inline constructs tried at `i`: on `Some(e)` the
/// construct ends at `e` and the pending data starts there; on `None`
/// nothing about the pending data changed.
/// Where a scanner that succeeds at `i` puts its first token: after the
/// pending text, when there is some.
pub open spec fn after_pending(ds_old: usize, i: usize) -> int {
    if ds_old < i {
        1
    } else {
        0
    }
}

/// The pattern of a literal `http(s)://` or `www.` link.
pub open spec fn literal_autolink_pattern() -> Seq<char> {
    "^(?i)(?:https?://|www\\.)[^\\s<]*"@
}

/// The end of the literal link at `i`: the pattern's match there, trailing
/// punctuation trimmed; none when nothing is left, or a `www.` link has
/// no dot.
pub open spec fn spec_literal_autolink(s: Seq<char>, i: int) -> Option<int> {
    let rest = s.subrange(i, s.len() as int);
    match crate::re::regex_find(literal_autolink_pattern(), rest) {
        Some((a, e)) => if a == 0 {
            let m = super::scan::spec_trim_url(rest.subrange(0, e));
            if m.len() == 0 || ((m[0] == 'w' || m[0] == 'W') && !m.contains('.')) {
                None
            } else {
                Some(i + m.len())
            }
        } else {
            None
        },
        None => None,
    }
}

/// The pattern of a literal email address.
pub open spec fn literal_email_pattern() -> Seq<char> {
    "^[A-Za-z0-9._%+-]+@[A-Za-z0-9](?:[A-Za-z0-9-]*[A-Za-z0-9])?(?:\\.[A-Za-z0-9](?:[A-Za-z0-9-]*[A-Za-z0-9])?)+"@
}

/// The end of the literal email address at `i`: the pattern's non-empty
/// match there, not followed by a word character, `@` or `-`.
pub open spec fn spec_literal_email(s: Seq<char>, i: int) -> Option<int> {
    let rest = s.subrange(i, s.len() as int);
    match crate::re::regex_find(literal_email_pattern(), rest) {
        Some((a, e)) => if a == 0 && e > 0 {
            let end = i + e;
            if end < s.len() && (crate::text::char_is_alphanumeric(s[end]) || s[end] == '@' || s[end] == '-') {
                None
            } else {
                Some(end)
            }
        } else {
            None
        },
        None => None,
    }
}

/// The end of the link or image at `i`: its label's closing bracket
/// followed by an inline `(...)` or a `[...]` reference, or, alone, a label
/// that is defined.
pub open spec fn spec_link_image(s: Seq<char>, i: int, labels: Seq<Vec<char>>) -> Option<int> {
    let bo = if s[i] == '!' { i + 1 } else { i };
    match super::scan::balance_from(s, bo, 0, '[', ']') {
        None => None,
        Some(rb) => {
            let after = rb + 1;
            if after < s.len() && s[after] == '(' {
                match super::scan::balance_from(s, after, 0, '(', ')') {
                    Some(c) => Some(c + 1),
                    None => None,
                }
            } else if after < s.len() && s[after] == '[' {
                let k = super::scan::ref_close_from(s, after + 1);
                if k >= s.len() {
                    None
                } else {
                    Some(k + 1)
                }
            } else if exists|k: int|
                0 <= k < labels.len() && (#[trigger] labels[k])@ == super::scan::spec_normalize_label(
                    s.subrange(bo + 1, rb as int),
                ) {
                Some(rb + 1)
            } else {
                None
            }
        },
    }
}

pub open spec fn tried(r: Option<usize>, i: usize, len: int, ds_old: usize, ds_new: usize) -> bool {
    &&& r matches Some(e) ==> i < e <= len && ds_new == e
    &&& r is None ==> ds_new == ds_old
}

impl Parser {
    /// A code span at `i`: `codeText` with its sequences and its padding or
    /// data.
    fn try_code_span(
        &mut self,
        chars: &[char],
        i: usize,
        line_no: usize,
        start_col: usize,
        parent: usize,
        data_start: &mut usize,
        Ghost(n0): Ghost<int>,
        Ghost(root): Ghost<usize>,
    ) -> (r: Option<usize>)
        requires
            inline_ok(*old(self), chars@, line_no, start_col, parent),
            i < chars@.len(),
            chars@[i as int] == '`',
            *old(data_start) <= i,
            old(self).inline_from(n0, chars@, line_no as int, start_col as int, root),
            0 <= n0 <= old(self).ntok(),
            parent == root || n0 <= parent,
        ensures
            final(self).keeps(*old(self)),
            final(self).tree.roots@ == old(self).tree.roots@,
            final(self).inline_from(n0, chars@, line_no as int, start_col as int, root),
            final(self).steady(*old(self)),
            tried(r, i, chars@.len() as int, *old(data_start), *final(data_start)),
            match r {
                Some(e) => spec_code_span_close(chars@, i as int) matches Some((n, c)) && e == c + n,
                None => spec_code_span_close(chars@, i as int) is None,
            },
            r is None ==> *final(self) == *old(self),
            r is Some ==> final(self).tok_is(
                old(self).ntok() + after_pending(*old(data_start), i),
                Kind::CodeText,
                line_no as int,
                start_col + i,
                Some(parent),
            ),
            r is Some && *old(data_start) < i ==> final(self).tok_is(
                old(self).ntok(),
                Kind::Data,
                line_no as int,
                start_col + *old(data_start),
                Some(parent),
            ),
    {
        let (n, close) = match code_span_close(chars, i) {
            Some(x) => x,
            None => return None,
        };
        self.flush_data(*data_start, i, chars, line_no, start_col, parent, Ghost(n0), Ghost(root));
        let end = close + n;
        let ct = self.tok(Kind::CodeText, line_no, start_col + i, line_no, start_col + end, slice_vec(chars, i, end));
        let ctidx = self.push_in(ct, parent, Ghost(chars@), line_no, start_col, Ghost(n0), Ghost(root));
        let s1 = self.tok(
            Kind::CodeTextSequence,
            line_no,
            start_col + i,
            line_no,
            start_col + i + n,
            slice_vec(chars, i, i + n),
        );
        self.push_in(s1, ctidx, Ghost(chars@), line_no, start_col, Ghost(n0), Ghost(root));
        if close > i + n {
            let cs = i + n;
            let has_pad = close - cs >= 2 && chars[cs] == ' ' && chars[close - 1] == ' ' && !all_spaces(
                chars,
                cs,
                close,
            );
            if has_pad {
                let p1 = self.tok(Kind::CodeTextPadding, line_no, start_col + cs, line_no, start_col + cs + 1, slice_vec(chars, cs, cs + 1));
                self.push_in(p1, ctidx, Ghost(chars@), line_no, start_col, Ghost(n0), Ghost(root));
                if close - 1 > cs + 1 {
                    let d = self.tok(
                        Kind::CodeTextData,
                        line_no,
                        start_col + cs + 1,
                        line_no,
                        start_col + close - 1,
                        slice_vec(chars, cs + 1, close - 1),
                    );
                    self.push_in(d, ctidx, Ghost(chars@), line_no, start_col, Ghost(n0), Ghost(root));
                }
                let p2 = self.tok(
                    Kind::CodeTextPadding,
                    line_no,
                    start_col + close - 1,
                    line_no,
                    start_col + close,
                    slice_vec(chars, close - 1, close - 1 + 1),
                );
                self.push_in(p2, ctidx, Ghost(chars@), line_no, start_col, Ghost(n0), Ghost(root));
            } else {
                let d = self.tok(
                    Kind::CodeTextData,
                    line_no,
                    start_col + cs,
                    line_no,
                    start_col + close,
                    slice_vec(chars, cs, close),
                );
                self.push_in(d, ctidx, Ghost(chars@), line_no, start_col, Ghost(n0), Ghost(root));
            }
        }
        let s2 = self.tok(
            Kind::CodeTextSequence,
            line_no,
            start_col + close,
            line_no,
            start_col + end,
            slice_vec(chars, close, end),
        );
        self.push_in(s2, ctidx, Ghost(chars@), line_no, start_col, Ghost(n0), Ghost(root));
        *data_start = end;
        Some(end)
    }

    /// An autolink `<scheme:...>` or `<email>` at `i`.
    fn try_autolink(
        &mut self,
        chars: &[char],
        i: usize,
        line_no: usize,
        start_col: usize,
        parent: usize,
        data_start: &mut usize,
        Ghost(n0): Ghost<int>,
        Ghost(root): Ghost<usize>,
    ) -> (r: Option<usize>)
        requires
            inline_ok(*old(self), chars@, line_no, start_col, parent),
            i < chars@.len(),
            *old(data_start) <= i,
            old(self).inline_from(n0, chars@, line_no as int, start_col as int, root),
            0 <= n0 <= old(self).ntok(),
            parent == root || n0 <= parent,
        ensures
            final(self).keeps(*old(self)),
            final(self).tree.roots@ == old(self).tree.roots@,
            final(self).inline_from(n0, chars@, line_no as int, start_col as int, root),
            final(self).steady(*old(self)),
            tried(r, i, chars@.len() as int, *old(data_start), *final(data_start)),
            r == super::scan::spec_detect_autolink(chars@, i as int),
            r is None ==> *final(self) == *old(self),
            r is Some ==> final(self).tok_is(
                old(self).ntok() + after_pending(*old(data_start), i),
                Kind::Autolink,
                line_no as int,
                start_col + i,
                Some(parent),
            ),
            r is Some && *old(data_start) < i ==> final(self).tok_is(
                old(self).ntok(),
                Kind::Data,
                line_no as int,
                start_col + *old(data_start),
                Some(parent),
            ),
    {
        let end = match detect_autolink(chars, i) {
            Some(e) => e,
            None => return None,
        };
        proof {
            super::scan::lemma_autolink_body_end(chars@, i + 1);
        }
        let j = end - 1;
        let inner = slice_vec(chars, i + 1, j);
        let is_uri = re_find("^[A-Za-z][A-Za-z0-9+.\\-]{1,31}:", &inner).is_some();
        self.flush_data(*data_start, i, chars, line_no, start_col, parent, Ghost(n0), Ghost(root));
        let al = self.tok(Kind::Autolink, line_no, start_col + i, line_no, start_col + end, slice_vec(chars, i, end));
        let alidx = self.push_in(al, parent, Ghost(chars@), line_no, start_col, Ghost(n0), Ghost(root));
        let m1 = self.tok(Kind::AutolinkMarker, line_no, start_col + i, line_no, start_col + i + 1, slice_vec(chars, i, i + 1));
        self.push_in(m1, alidx, Ghost(chars@), line_no, start_col, Ghost(n0), Ghost(root));
        let proto_kind = if is_uri {
            Kind::AutolinkProtocol
        } else {
            Kind::AutolinkEmail
        };
        let proto = self.tok(proto_kind, line_no, start_col + i + 1, line_no, start_col + j, inner);
        self.push_in(proto, alidx, Ghost(chars@), line_no, start_col, Ghost(n0), Ghost(root));
        let m2 = self.tok(Kind::AutolinkMarker, line_no, start_col + j, line_no, start_col + end, slice_vec(chars, j, j + 1));
        self.push_in(m2, alidx, Ghost(chars@), line_no, start_col, Ghost(n0), Ghost(root));
        *data_start = end;
        Some(end)
    }

    /// Raw inline HTML (a comment or a tag) at `i`.
    fn try_html_text(
        &mut self,
        chars: &[char],
        i: usize,
        line_no: usize,
        start_col: usize,
        parent: usize,
        data_start: &mut usize,
        Ghost(n0): Ghost<int>,
        Ghost(root): Ghost<usize>,
    ) -> (r: Option<usize>)
        requires
            inline_ok(*old(self), chars@, line_no, start_col, parent),
            i < chars@.len(),
            *old(data_start) <= i,
            old(self).inline_from(n0, chars@, line_no as int, start_col as int, root),
            0 <= n0 <= old(self).ntok(),
            parent == root || n0 <= parent,
        ensures
            final(self).keeps(*old(self)),
            final(self).tree.roots@ == old(self).tree.roots@,
            final(self).inline_from(n0, chars@, line_no as int, start_col as int, root),
            final(self).steady(*old(self)),
            tried(r, i, chars@.len() as int, *old(data_start), *final(data_start)),
            r == super::scan::spec_detect_html(chars@, i as int),
            r is None ==> *final(self) == *old(self),
            r is Some ==> final(self).tok_is(
                old(self).ntok() + after_pending(*old(data_start), i),
                Kind::HtmlText,
                line_no as int,
                start_col + i,
                Some(parent),
            ),
            r is Some && *old(data_start) < i ==> final(self).tok_is(
                old(self).ntok(),
                Kind::Data,
                line_no as int,
                start_col + *old(data_start),
                Some(parent),
            ),
    {
        let end = match detect_html(chars, i) {
            Some(e) => e,
            None => return None,
        };
        self.flush_data(*data_start, i, chars, line_no, start_col, parent, Ghost(n0), Ghost(root));
        let t = self.tok(Kind::HtmlText, line_no, start_col + i, line_no, start_col + end, slice_vec(chars, i, end));
        self.push_in(t, parent, Ghost(chars@), line_no, start_col, Ghost(n0), Ghost(root));
        *data_start = end;
        Some(end)
    }

    /// A literal `http(s)://` or `www.` autolink at `i`, trailing
    /// punctuation trimmed.
    fn try_literal_autolink(
        &mut self,
        chars: &[char],
        i: usize,
        line_no: usize,
        start_col: usize,
        parent: usize,
        data_start: &mut usize,
        Ghost(n0): Ghost<int>,
        Ghost(root): Ghost<usize>,
    ) -> (r: Option<usize>)
        requires
            inline_ok(*old(self), chars@, line_no, start_col, parent),
            i < chars@.len(),
            *old(data_start) <= i,
            old(self).inline_from(n0, chars@, line_no as int, start_col as int, root),
            0 <= n0 <= old(self).ntok(),
            parent == root || n0 <= parent,
        ensures
            final(self).keeps(*old(self)),
            final(self).tree.roots@ == old(self).tree.roots@,
            final(self).inline_from(n0, chars@, line_no as int, start_col as int, root),
            final(self).steady(*old(self)),
            tried(r, i, chars@.len() as int, *old(data_start), *final(data_start)),
            match r {
                Some(e) => spec_literal_autolink(chars@, i as int) == Some(e as int),
                None => spec_literal_autolink(chars@, i as int) is None,
            },
            r is None ==> *final(self) == *old(self),
            r is Some ==> final(self).tok_is(
                old(self).ntok() + after_pending(*old(data_start), i),
                Kind::LiteralAutolink,
                line_no as int,
                start_col + i,
                Some(parent),
            ),
            r is Some && *old(data_start) < i ==> final(self).tok_is(
                old(self).ntok(),
                Kind::Data,
                line_no as int,
                start_col + *old(data_start),
                Some(parent),
            ),
    {
        let rest = slice_vec(chars, i, chars.len());
        let e = match re_find("^(?i)(?:https?://|www\\.)[^\\s<]*", &rest) {
            Some((a, e)) => if a == 0 {
                e
            } else {
                return None;
            },
            None => return None,
        };
        let mut matched = slice_vec(&rest, 0, e);
        let ghost m0 = matched@;
        proof {
            super::scan::lemma_trim_url_len(matched@);
        }
        trim_url_trailing(&mut matched);
        proof {
            assert(matched@ =~= chars@.subrange(i as int, i + matched@.len()));
            assert(matched@.subrange(0, matched@.len() as int) =~= matched@);
        }
        if matched.len() == 0 {
            return None;
        }
        let www = matched[0] == 'w' || matched[0] == 'W';
        if www && !contains_char(&matched, '.') {
            return None;
        }
        self.flush_data(*data_start, i, chars, line_no, start_col, parent, Ghost(n0), Ghost(root));
        let end = i + matched.len();
        let la = self.tok(
            Kind::LiteralAutolink,
            line_no,
            start_col + i,
            line_no,
            start_col + end,
            slice_vec(&matched, 0, matched.len()),
        );
        let laidx = self.push_in(la, parent, Ghost(chars@), line_no, start_col, Ghost(n0), Ghost(root));
        let kind = if www {
            Kind::LiteralAutolinkWww
        } else {
            Kind::LiteralAutolinkHttp
        };
        let child = self.tok(kind, line_no, start_col + i, line_no, start_col + end, matched);
        self.push_in(child, laidx, Ghost(chars@), line_no, start_col, Ghost(n0), Ghost(root));
        *data_start = end;
        Some(end)
    }

    /// A literal email address at `i`, not followed by a word character,
    /// `@` or `-`.
    fn try_literal_email(
        &mut self,
        chars: &[char],
        i: usize,
        line_no: usize,
        start_col: usize,
        parent: usize,
        data_start: &mut usize,
        Ghost(n0): Ghost<int>,
        Ghost(root): Ghost<usize>,
    ) -> (r: Option<usize>)
        requires
            inline_ok(*old(self), chars@, line_no, start_col, parent),
            i < chars@.len(),
            *old(data_start) <= i,
            old(self).inline_from(n0, chars@, line_no as int, start_col as int, root),
            0 <= n0 <= old(self).ntok(),
            parent == root || n0 <= parent,
        ensures
            final(self).keeps(*old(self)),
            final(self).tree.roots@ == old(self).tree.roots@,
            final(self).inline_from(n0, chars@, line_no as int, start_col as int, root),
            final(self).steady(*old(self)),
            tried(r, i, chars@.len() as int, *old(data_start), *final(data_start)),
            match r {
                Some(e) => spec_literal_email(chars@, i as int) == Some(e as int),
                None => spec_literal_email(chars@, i as int) is None,
            },
            r is None ==> *final(self) == *old(self),
            r is Some ==> final(self).tok_is(
                old(self).ntok() + after_pending(*old(data_start), i),
                Kind::LiteralAutolink,
                line_no as int,
                start_col + i,
                Some(parent),
            ),
            r is Some && *old(data_start) < i ==> final(self).tok_is(
                old(self).ntok(),
                Kind::Data,
                line_no as int,
                start_col + *old(data_start),
                Some(parent),
            ),
    {
        let rest = slice_vec(chars, i, chars.len());
        let e = match re_find(
            "^[A-Za-z0-9._%+-]+@[A-Za-z0-9](?:[A-Za-z0-9-]*[A-Za-z0-9])?(?:\\.[A-Za-z0-9](?:[A-Za-z0-9-]*[A-Za-z0-9])?)+",
            &rest,
        ) {
            Some((a, e)) => if a == 0 && e > 0 {
                e
            } else {
                return None;
            },
            None => return None,
        };
        let end = i + e;
        if end < chars.len() {
            let a = chars[end];
            if crate::text::is_alphanumeric(a) || a == '@' || a == '-' {
                return None;
            }
        }
        self.flush_data(*data_start, i, chars, line_no, start_col, parent, Ghost(n0), Ghost(root));
        let la = self.tok(Kind::LiteralAutolink, line_no, start_col + i, line_no, start_col + end, slice_vec(chars, i, end));
        let laidx = self.push_in(la, parent, Ghost(chars@), line_no, start_col, Ghost(n0), Ghost(root));
        let child = self.tok(
            Kind::LiteralAutolinkEmail,
            line_no,
            start_col + i,
            line_no,
            start_col + end,
            slice_vec(chars, i, end),
        );
        self.push_in(child, laidx, Ghost(chars@), line_no, start_col, Ghost(n0), Ghost(root));
        *data_start = end;
        Some(end)
    }
}

/// What follows the closing bracket of a link or image label.
enum Follow {
    Inline,
    Reference(usize, usize),
    Shortcut,
}

impl Parser {
    /// A link or image at `i`: `[text](dest)`, `[text][ref]`, or `[text]`
    /// where `text` is a defined label. An undefined `[text]` is recorded as
    /// an undefined shortcut and left as text.
    #[verifier::rlimit(80)]
    fn try_link_image(
        &mut self,
        chars: &[char],
        i: usize,
        line_no: usize,
        start_col: usize,
        parent: usize,
        data_start: &mut usize,
        Ghost(n0): Ghost<int>,
        Ghost(root): Ghost<usize>,
    ) -> (r: Option<usize>)
        requires
            inline_ok(*old(self), chars@, line_no, start_col, parent),
            i < chars@.len(),
            chars@[i as int] == '[' || (chars@[i as int] == '!' && i + 1 < chars@.len() && chars@[i + 1]
                == '['),
            *old(data_start) <= i,
            old(self).inline_from(n0, chars@, line_no as int, start_col as int, root),
            0 <= n0 <= old(self).ntok(),
            parent == root || n0 <= parent,
        ensures
            final(self).keeps(*old(self)),
            final(self).tree.roots@ == old(self).tree.roots@,
            final(self).inline_from(n0, chars@, line_no as int, start_col as int, root),
            final(self).steady(*old(self)),
            tried(r, i, chars@.len() as int, *old(data_start), *final(data_start)),
            match r {
                Some(e) => spec_link_image(chars@, i as int, old(self).defined_labels@) == Some(e as int),
                None => spec_link_image(chars@, i as int, old(self).defined_labels@) is None,
            },
            r is None ==> final(self).tree.tokens@ == old(self).tree.tokens@,
            r is Some ==> final(self).tok_is(
                old(self).ntok() + after_pending(*old(data_start), i),
                if chars@[i as int] == '!' { Kind::Image } else { Kind::Link },
                line_no as int,
                start_col + i,
                Some(parent),
            ),
            r is Some && *old(data_start) < i ==> final(self).tok_is(
                old(self).ntok(),
                Kind::Data,
                line_no as int,
                start_col + *old(data_start),
                Some(parent),
            ),
    {
        let len = chars.len();
        let image = chars[i] == '!';
        let br_open = if image {
            i + 1
        } else {
            i
        };
        let rb = match super::scan::balance(chars, br_open, '[', ']') {
            Some(rb) => rb,
            None => return None,
        };
        proof {
            assert(super::scan::balance_from(chars@, br_open as int, 0, '[', ']')
                == super::scan::balance_from(chars@, br_open + 1, 1, '[', ']'));
            super::scan::lemma_balance_from(chars@, br_open + 1, 1, '[', ']');
        }
        let after = rb + 1;
        let (end, follow) = if after < len && chars[after] == '(' {
            proof {
                assert(super::scan::balance_from(chars@, after as int, 0, '(', ')')
                    == super::scan::balance_from(chars@, after + 1, 1, '(', ')'));
                super::scan::lemma_balance_from(chars@, after + 1, 1, '(', ')');
            }
            match find_paren_close(chars, after) {
                Some(close) => (close + 1, Follow::Inline),
                None => return None,
            }
        } else if after < len && chars[after] == '[' {
            let k = ref_close(chars, after + 1);
            if k >= len {
                return None;
            }
            (k + 1, Follow::Reference(after, k))
        } else {
            let label = slice_vec(chars, br_open + 1, rb);
            let norm = normalize_label(&label);
            if !contains_label(&self.defined_labels, &norm) {
                if !all_whitespace(&label) && !contains_char(&label, ']') {
                    let u = super::tokens::UndefinedShortcut {
                        label,
                        line: line_no,
                        column: start_col + i,
                        length: rb + 1 - i,
                    };
                    self.tree.add_undefined_shortcut(u);
                }
                return None;
            }
            (rb + 1, Follow::Shortcut)
        };
        self.flush_data(*data_start, i, chars, line_no, start_col, parent, Ghost(n0), Ghost(root));
        let node_kind = if image {
            Kind::Image
        } else {
            Kind::Link
        };
        let node = self.tok(node_kind, line_no, start_col + i, line_no, start_col + end, slice_vec(chars, i, end));
        let nidx = self.push_in(node, parent, Ghost(chars@), line_no, start_col, Ghost(n0), Ghost(root));
        self.emit_label(chars, i, br_open, rb, image, line_no, start_col, nidx, Ghost(n0), Ghost(root));
        match follow {
            Follow::Reference(ref_open, ref_end) => {
                self.emit_reference(chars, ref_open, ref_end, line_no, start_col, nidx, Ghost(n0), Ghost(root));
            },
            Follow::Inline => {
                self.emit_resource(chars, after, end - 1, line_no, start_col, nidx, Ghost(n0), Ghost(root));
            },
            Follow::Shortcut => {},
        }
        *data_start = end;
        Some(end)
    }

    /// The label `[text]` (after `!` for an image) of the link or image
    /// token `nidx`: its markers, its text and the text's data.
    fn emit_label(
        &mut self,
        chars: &[char],
        i: usize,
        br_open: usize,
        rb: usize,
        image: bool,
        line_no: usize,
        start_col: usize,
        nidx: usize,
        Ghost(n0): Ghost<int>,
        Ghost(root): Ghost<usize>,
    )
        requires
            inline_ok(*old(self), chars@, line_no, start_col, nidx),
            i <= br_open < rb < chars@.len(),
            image ==> br_open == i + 1,
            old(self).inline_from(n0, chars@, line_no as int, start_col as int, root),
            0 <= n0 <= nidx,
        ensures
            final(self).steady(*old(self)),
            final(self).keeps(*old(self)),
            final(self).tree.roots@ == old(self).tree.roots@,
            final(self).inline_from(n0, chars@, line_no as int, start_col as int, root),
            final(self).tok_is(old(self).ntok(), Kind::Label, line_no as int, start_col + i, Some(nidx)),
    {
        let label = self.tok(Kind::Label, line_no, start_col + i, line_no, start_col + rb + 1, slice_vec(chars, i, rb + 1));
        let lidx = self.push_in(label, nidx, Ghost(chars@), line_no, start_col, Ghost(n0), Ghost(root));
        if image {
            let im = self.tok(Kind::LabelImageMarker, line_no, start_col + i, line_no, start_col + i + 1, slice_vec(chars, i, i + 1));
            self.push_in(im, lidx, Ghost(chars@), line_no, start_col, Ghost(n0), Ghost(root));
        }
        let lm1 = self.tok(
            Kind::LabelMarker,
            line_no,
            start_col + br_open,
            line_no,
            start_col + br_open + 1,
            slice_vec(chars, br_open, br_open + 1),
        );
        self.push_in(lm1, lidx, Ghost(chars@), line_no, start_col, Ghost(n0), Ghost(root));
        let text_from = br_open + 1;
        let lt = self.tok(Kind::LabelText, line_no, start_col + text_from, line_no, start_col + rb, slice_vec(chars, text_from, rb));
        let ltidx = self.push_in(lt, lidx, Ghost(chars@), line_no, start_col, Ghost(n0), Ghost(root));
        if rb > text_from {
            let d = self.tok(Kind::Data, line_no, start_col + text_from, line_no, start_col + rb, slice_vec(chars, text_from, rb));
            self.push_in(d, ltidx, Ghost(chars@), line_no, start_col, Ghost(n0), Ghost(root));
        }
        let lm2 = self.tok(Kind::LabelMarker, line_no, start_col + rb, line_no, start_col + rb + 1, slice_vec(chars, rb, rb + 1));
        self.push_in(lm2, lidx, Ghost(chars@), line_no, start_col, Ghost(n0), Ghost(root));
    }

    /// The `[ref]` part of a full reference link.
    fn emit_reference(
        &mut self,
        chars: &[char],
        ref_open: usize,
        ref_end: usize,
        line_no: usize,
        start_col: usize,
        parent: usize,
        Ghost(n0): Ghost<int>,
        Ghost(root): Ghost<usize>,
    )
        requires
            inline_ok(*old(self), chars@, line_no, start_col, parent),
            ref_open < ref_end < chars@.len(),
            chars@[ref_open as int] == '[',
            chars@[ref_end as int] == ']',
            old(self).inline_from(n0, chars@, line_no as int, start_col as int, root),
            0 <= n0 <= old(self).ntok(),
            parent == root || n0 <= parent,
        ensures
            final(self).steady(*old(self)),
            final(self).tok_is(old(self).ntok(), Kind::Reference, line_no as int, start_col + ref_open, Some(parent)),
            final(self).tok_is(
                old(self).ntok() + 1,
                Kind::ReferenceMarker,
                line_no as int,
                start_col + ref_open,
                Some(old(self).ntok() as usize),
            ),
            final(self).keeps(*old(self)),
            final(self).tree.roots@ == old(self).tree.roots@,
            final(self).inline_from(n0, chars@, line_no as int, start_col as int, root),
    {
        let reference = self.tok(
            Kind::Reference,
            line_no,
            start_col + ref_open,
            line_no,
            start_col + ref_end + 1,
            slice_vec(chars, ref_open, ref_end + 1),
        );
        let ridx = self.push_in(reference, parent, Ghost(chars@), line_no, start_col, Ghost(n0), Ghost(root));
        let rm1 = self.tok(
            Kind::ReferenceMarker,
            line_no,
            start_col + ref_open,
            line_no,
            start_col + ref_open + 1,
            slice_vec(chars, ref_open, ref_open + 1),
        );
        self.push_in(rm1, ridx, Ghost(chars@), line_no, start_col, Ghost(n0), Ghost(root));
        if ref_end > ref_open + 1 {
            let rs = self.tok(
                Kind::ReferenceString,
                line_no,
                start_col + ref_open + 1,
                line_no,
                start_col + ref_end,
                slice_vec(chars, ref_open + 1, ref_end),
            );
            let rsidx = self.push_in(rs, ridx, Ghost(chars@), line_no, start_col, Ghost(n0), Ghost(root));
            let d = self.tok(
                Kind::Data,
                line_no,
                start_col + ref_open + 1,
                line_no,
                start_col + ref_end,
                slice_vec(chars, ref_open + 1, ref_end),
            );
            self.push_in(d, rsidx, Ghost(chars@), line_no, start_col, Ghost(n0), Ghost(root));
        }
        let rm2 = self.tok(
            Kind::ReferenceMarker,
            line_no,
            start_col + ref_end,
            line_no,
            start_col + ref_end + 1,
            slice_vec(chars, ref_end, ref_end + 1),
        );
        self.push_in(rm2, ridx, Ghost(chars@), line_no, start_col, Ghost(n0), Ghost(root));
    }

    /// The `(dest ...)` part of an inline link or image.
    fn emit_resource(
        &mut self,
        chars: &[char],
        open: usize,
        close: usize,
        line_no: usize,
        start_col: usize,
        parent: usize,
        Ghost(n0): Ghost<int>,
        Ghost(root): Ghost<usize>,
    )
        requires
            inline_ok(*old(self), chars@, line_no, start_col, parent),
            open < close < chars@.len(),
            chars@[open as int] == '(',
            chars@[close as int] == ')',
            old(self).inline_from(n0, chars@, line_no as int, start_col as int, root),
            0 <= n0 <= old(self).ntok(),
            parent == root || n0 <= parent,
        ensures
            final(self).steady(*old(self)),
            final(self).tok_is(old(self).ntok(), Kind::Resource, line_no as int, start_col + open, Some(parent)),
            final(self).tok_is(
                old(self).ntok() + 1,
                Kind::ResourceMarker,
                line_no as int,
                start_col + open,
                Some(old(self).ntok() as usize),
            ),
            final(self).keeps(*old(self)),
            final(self).tree.roots@ == old(self).tree.roots@,
            final(self).inline_from(n0, chars@, line_no as int, start_col as int, root),
    {
        let resource = self.tok(
            Kind::Resource,
            line_no,
            start_col + open,
            line_no,
            start_col + close + 1,
            slice_vec(chars, open, close + 1),
        );
        let residx = self.push_in(resource, parent, Ghost(chars@), line_no, start_col, Ghost(n0), Ghost(root));
        let m1 = self.tok(Kind::ResourceMarker, line_no, start_col + open, line_no, start_col + open + 1, slice_vec(chars, open, open + 1));
        self.push_in(m1, residx, Ghost(chars@), line_no, start_col, Ghost(n0), Ghost(root));
        let mut p = open + 1;
        while p < close && (chars[p] == ' ' || chars[p] == '\t')
            invariant
                open < p <= close < chars@.len(),
            decreases close - p,
        {
            p += 1;
        }
        let dest_start;
        let mut q;
        if p < close && chars[p] == '<' {
            dest_start = p + 1;
            q = dest_start;
            while q < close && chars[q] != '>'
                invariant
                    dest_start <= q <= close < chars@.len(),
                decreases close - q,
            {
                q += 1;
            }
        } else {
            dest_start = p;
            q = p;
            while q < close && !is_whitespace(chars[q])
                invariant
                    dest_start <= q <= close < chars@.len(),
                decreases close - q,
            {
                q += 1;
            }
        }
        let dest_end = q;
        if dest_end > dest_start {
            let dest = self.tok(
                Kind::ResourceDestination,
                line_no,
                start_col + dest_start,
                line_no,
                start_col + dest_end,
                slice_vec(chars, dest_start, dest_end),
            );
            let didx = self.push_in(dest, residx, Ghost(chars@), line_no, start_col, Ghost(n0), Ghost(root));
            let raw = self.tok(
                Kind::ResourceDestinationRaw,
                line_no,
                start_col + dest_start,
                line_no,
                start_col + dest_end,
                slice_vec(chars, dest_start, dest_end),
            );
            let ridx = self.push_in(raw, didx, Ghost(chars@), line_no, start_col, Ghost(n0), Ghost(root));
            let s = self.tok(
                Kind::ResourceDestinationString,
                line_no,
                start_col + dest_start,
                line_no,
                start_col + dest_end,
                slice_vec(chars, dest_start, dest_end),
            );
            let sidx = self.push_in(s, ridx, Ghost(chars@), line_no, start_col, Ghost(n0), Ghost(root));
            let d = self.tok(
                Kind::Data,
                line_no,
                start_col + dest_start,
                line_no,
                start_col + dest_end,
                slice_vec(chars, dest_start, dest_end),
            );
            self.push_in(d, sidx, Ghost(chars@), line_no, start_col, Ghost(n0), Ghost(root));
        }
        let m2 = self.tok(Kind::ResourceMarker, line_no, start_col + close, line_no, start_col + close + 1, slice_vec(chars, close, close + 1));
        self.push_in(m2, residx, Ghost(chars@), line_no, start_col, Ghost(n0), Ghost(root));
    }
}

} // verus!
