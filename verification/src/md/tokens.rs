//! Token tree model, mirroring the shape of markdownlint's micromark token
//! tree closely enough for the rules that consume it.
//!
//! Tokens are stored in an arena (`Vec<Token>`) in pre-order (document
//! order): a token's parent always precedes it, and each token's children
//! are listed in increasing arena order. Positions are 1-based lines and
//! columns, matching markdownlint's `startLine`/`startColumn`/`endLine`/
//! `endColumn`.

use vstd::prelude::*;

use super::kind::{Kind, kind_in};
use crate::text::{spec_is_whitespace, is_whitespace};

verus! {

/// A single token in the tree.
pub struct Token {
    pub kind: Kind,
    pub start_line: usize,
    pub start_column: usize,
    pub end_line: usize,
    pub end_column: usize,
    pub text: Vec<char>,
    pub children: Vec<usize>,
    pub parent: Option<usize>,
    pub in_html_flow: bool,
}

/// A `[label]` that was not a defined reference: recorded where micromark
/// would report an undefined shortcut reference.
pub struct UndefinedShortcut {
    pub label: Vec<char>,
    pub line: usize,
    pub column: usize,
    pub length: usize,
}

/// The parsed token tree.
pub struct Tree {
    /// Arena of tokens in document (pre-order) order.
    pub tokens: Vec<Token>,
    /// Indices of the top-level tokens.
    pub roots: Vec<usize>,
    /// Undefined shortcut references met while parsing inline content.
    pub undefined_shortcuts: Vec<UndefinedShortcut>,
}

/// Strictly increasing sequence of indices.
pub open spec fn strictly_increasing(s: Seq<usize>) -> bool {
    forall|a: int, b: int| 0 <= a < b < s.len() ==> s[a] < s[b]
}

impl Token {
    /// A token with the given kind, position and text and no relations.
    pub fn new(
        kind: Kind,
        start_line: usize,
        start_column: usize,
        end_line: usize,
        end_column: usize,
        text: Vec<char>,
        in_html_flow: bool,
    ) -> (t: Token)
        ensures
            t.kind == kind,
            t.start_line == start_line,
            t.start_column == start_column,
            t.end_line == end_line,
            t.end_column == end_column,
            t.text@ == text@,
            t.children@.len() == 0,
            t.parent is None,
            t.in_html_flow == in_html_flow,
    {
        Token {
            kind,
            start_line,
            start_column,
            end_line,
            end_column,
            text,
            children: Vec::new(),
            parent: None,
            in_html_flow,
        }
    }
}

impl Tree {
    /// Token `i` and its parent agree: the parent precedes it and lists it
    /// as a child; a token without parent is a root.
    pub open spec fn parent_link_ok(&self, i: int) -> bool {
        match self.tokens@[i].parent {
            Some(p) => p < i && self.tokens@[p as int].children@.contains(i as usize),
            None => self.roots@.contains(i as usize),
        }
    }

    /// Token `i`'s children follow it, point back to it, and are listed in
    /// increasing order.
    pub open spec fn children_ok(&self, i: int) -> bool {
        &&& strictly_increasing(self.tokens@[i].children@)
        &&& forall|j: int|
            #![trigger self.tokens@[i].children@[j]]
            0 <= j < self.tokens@[i].children@.len() ==> {
                let c = self.tokens@[i].children@[j];
                &&& i < c < self.tokens@.len()
                &&& self.tokens@[c as int].parent == Some(i as usize)
            }
    }

    pub open spec fn node_ok(&self, i: int) -> bool {
        self.parent_link_ok(i) && self.children_ok(i)
    }

    pub open spec fn root_ok(&self, j: int) -> bool {
        &&& self.roots@[j] < self.tokens@.len()
        &&& self.tokens@[self.roots@[j] as int].parent is None
    }

    /// Well-formedness: parents precede their children, every child list is
    /// strictly increasing and agrees with the children's `parent` links, and
    /// the roots are exactly the tokens without a parent, in order.
    #[verifier::opaque]
    pub open spec fn wf(&self) -> bool {
        &&& forall|i: int| 0 <= i < self.tokens@.len() ==> #[trigger] self.node_ok(i)
        &&& forall|j: int| 0 <= j < self.roots@.len() ==> #[trigger] self.root_ok(j)
        &&& strictly_increasing(self.roots@)
    }

    /// An empty tree.
    pub fn new() -> (t: Tree)
        ensures
            t.wf(),
            t.tokens@.len() == 0,
            t.roots@.len() == 0,
            t.undefined_shortcuts@.len() == 0,
    {
        let t = Tree { tokens: Vec::new(), roots: Vec::new(), undefined_shortcuts: Vec::new() };
        proof {
            reveal(Tree::wf);
        }
        t
    }

    /// Append `tok` under `parent` (or as a new root); returns its index.
    pub fn push(&mut self, tok: Token, parent: Option<usize>) -> (idx: usize)
        requires
            old(self).wf(),
            tok.children@.len() == 0,
            parent matches Some(p) ==> p < old(self).tokens@.len(),
        ensures
            final(self).wf(),
            idx == old(self).tokens@.len(),
            final(self).tokens@.len() == old(self).tokens@.len() + 1,
            final(self).tokens@[idx as int].kind == tok.kind,
            final(self).tokens@[idx as int].start_line == tok.start_line,
            final(self).tokens@[idx as int].start_column == tok.start_column,
            final(self).tokens@[idx as int].end_line == tok.end_line,
            final(self).tokens@[idx as int].end_column == tok.end_column,
            final(self).tokens@[idx as int].text@ == tok.text@,
            final(self).tokens@[idx as int].in_html_flow == tok.in_html_flow,
            final(self).tokens@[idx as int].children@.len() == 0,
            final(self).tokens@[idx as int].parent == parent,
            forall|i: int|
                0 <= i < old(self).tokens@.len() && parent != Some(i as usize)
                    ==> #[trigger] final(self).tokens@[i] == old(self).tokens@[i],
            parent matches Some(p) ==> {
                let a = old(self).tokens@[p as int];
                let b = final(self).tokens@[p as int];
                &&& b.children@ == a.children@.push(idx)
                &&& b.kind == a.kind
                &&& b.start_line == a.start_line
                &&& b.start_column == a.start_column
                &&& b.end_line == a.end_line
                &&& b.end_column == a.end_column
                &&& b.text@ == a.text@
                &&& b.parent == a.parent
                &&& b.in_html_flow == a.in_html_flow
            },
            parent is None ==> final(self).roots@ == old(self).roots@.push(idx),
            parent is Some ==> final(self).roots@ == old(self).roots@,
            final(self).undefined_shortcuts@ == old(self).undefined_shortcuts@,
    {
        let ghost old_tree = *self;
        let mut tok = tok;
        tok.parent = parent;
        let idx = self.tokens.len();
        self.tokens.push(tok);
        match parent {
            Some(p) => {
                let mut t = Token::new(Kind::Data, 0, 0, 0, 0, Vec::new(), false);
                self.tokens.set_and_swap(p, &mut t);
                t.children.push(idx);
                self.tokens.set_and_swap(p, &mut t);
            },
            None => {
                self.roots.push(idx);
            },
        }
        proof {
            lemma_push_wf(old_tree, *self, idx, parent);
        }
        idx
    }

    /// Set the end position of token `idx`.
    /// Record a `[text]` that is neither a link nor a defined label.
    pub fn add_undefined_shortcut(&mut self, u: UndefinedShortcut)
        requires
            old(self).wf(),
        ensures
            final(self).wf(),
            final(self).tokens@ == old(self).tokens@,
            final(self).roots@ == old(self).roots@,
            final(self).undefined_shortcuts@ == old(self).undefined_shortcuts@.push(u),
    {
        self.undefined_shortcuts.push(u);
        proof {
            reveal(Tree::wf);
            assert forall|i: int| 0 <= i < self.tokens@.len() implies #[trigger] self.node_ok(i) by {
                assert(old(self).node_ok(i));
            }
            assert forall|j: int| 0 <= j < self.roots@.len() implies #[trigger] self.root_ok(j) by {
                assert(old(self).root_ok(j));
            }
        }
    }

    pub fn set_end(&mut self, idx: usize, end_line: usize, end_column: usize)
        requires
            old(self).wf(),
            idx < old(self).tokens@.len(),
        ensures
            final(self).wf(),
            final(self).tokens@.len() == old(self).tokens@.len(),
            final(self).tokens@[idx as int].end_line == end_line,
            final(self).tokens@[idx as int].end_column == end_column,
            final(self).tokens@[idx as int].kind == old(self).tokens@[idx as int].kind,
            final(self).tokens@[idx as int].start_line == old(self).tokens@[idx as int].start_line,
            final(self).tokens@[idx as int].start_column == old(self).tokens@[idx as int].start_column,
            final(self).tokens@[idx as int].parent == old(self).tokens@[idx as int].parent,
            forall|i: int|
                0 <= i < old(self).tokens@.len() && i != idx ==> #[trigger] final(self).tokens@[i] == old(self).tokens@[i],
    {
        let ghost old_tree = *self;
        let mut t = Token::new(Kind::Data, 0, 0, 0, 0, Vec::new(), false);
        self.tokens.set_and_swap(idx, &mut t);
        t.end_line = end_line;
        t.end_column = end_column;
        self.tokens.set_and_swap(idx, &mut t);
        proof {
            lemma_same_shape(old_tree, *self);
        }
    }

    /// Replace the text of token `idx`.
    pub fn set_text(&mut self, idx: usize, text: Vec<char>)
        requires
            old(self).wf(),
            idx < old(self).tokens@.len(),
        ensures
            final(self).wf(),
            final(self).tokens@.len() == old(self).tokens@.len(),
            final(self).tokens@[idx as int].text@ == text@,
            final(self).tokens@[idx as int].kind == old(self).tokens@[idx as int].kind,
            final(self).tokens@[idx as int].start_line == old(self).tokens@[idx as int].start_line,
            final(self).tokens@[idx as int].start_column == old(self).tokens@[idx as int].start_column,
            final(self).tokens@[idx as int].parent == old(self).tokens@[idx as int].parent,
            forall|i: int|
                0 <= i < old(self).tokens@.len() && i != idx ==> #[trigger] final(self).tokens@[i] == old(self).tokens@[i],
    {
        let ghost old_tree = *self;
        let mut t = Token::new(Kind::Data, 0, 0, 0, 0, Vec::new(), false);
        self.tokens.set_and_swap(idx, &mut t);
        t.text = text;
        self.tokens.set_and_swap(idx, &mut t);
        proof {
            lemma_same_shape(old_tree, *self);
        }
    }

    /// The token at `idx`.
    pub fn get(&self, idx: usize) -> (t: &Token)
        requires
            idx < self.tokens@.len(),
        ensures
            *t == self.tokens@[idx as int],
    {
        &self.tokens[idx]
    }
    pub proof fn lemma_node(&self, i: int)
        requires
            self.wf(),
            0 <= i < self.tokens@.len(),
        ensures
            self.node_ok(i),
    {
        reveal(Tree::wf);
    }

    pub proof fn lemma_root(&self, j: int)
        requires
            self.wf(),
            0 <= j < self.roots@.len(),
        ensures
            self.root_ok(j),
    {
        reveal(Tree::wf);
    }

    /// Child `j` of token `i` lies in the arena and has `i` as parent.
    pub proof fn lemma_child(&self, i: int, j: int)
        requires
            self.wf(),
            0 <= i < self.tokens@.len(),
            0 <= j < self.tokens@[i].children@.len(),
        ensures
            i < self.tokens@[i].children@[j] < self.tokens@.len(),
            self.tokens@[self.tokens@[i].children@[j] as int].parent == Some(i as usize),
    {
        reveal(Tree::wf);
        assert(self.node_ok(i));
    }

    /// Arena indices of all tokens of any of the given kinds, in document
    /// order, excluding tokens inside an `htmlFlow` block.
    pub fn filter_idx(&self, kinds: &[Kind]) -> (r: Vec<usize>)
        ensures
            r@ == filter_idx_upto(self.tokens@, kinds@, self.tokens@.len() as int),
            forall|k: int| 0 <= k < r@.len() ==> #[trigger] r@[k] < self.tokens@.len(),
    {
        proof {
            lemma_filter_idx_bounds(self.tokens@, kinds@, self.tokens@.len() as int);
        }
        let mut r: Vec<usize> = Vec::new();
        let mut i: usize = 0;
        while i < self.tokens.len()
            invariant
                i <= self.tokens@.len(),
                r@ == filter_idx_upto(self.tokens@, kinds@, i as int),
            decreases self.tokens@.len() - i,
        {
            let t = &self.tokens[i];
            if kind_in(t.kind, kinds) && !t.in_html_flow {
                r.push(i);
            }
            i += 1;
        }
        r
    }

    /// Arena indices of all tokens of any of the given kinds, in document
    /// order, tokens inside an `htmlFlow` block included.
    pub fn filter_idx_html(&self, kinds: &[Kind]) -> (r: Vec<usize>)
        ensures
            r@ == filter_html_upto(self.tokens@, kinds@, self.tokens@.len() as int),
            forall|k: int| 0 <= k < r@.len() ==> #[trigger] r@[k] < self.tokens@.len() && kinds@.contains(
                self.tokens@[r@[k] as int].kind,
            ),
    {
        let mut r: Vec<usize> = Vec::new();
        let mut i: usize = 0;
        while i < self.tokens.len()
            invariant
                i <= self.tokens@.len(),
                r@ == filter_html_upto(self.tokens@, kinds@, i as int),
                forall|k: int| 0 <= k < r@.len() ==> #[trigger] r@[k] < self.tokens@.len() && kinds@.contains(
                    self.tokens@[r@[k] as int].kind,
                ),
            decreases self.tokens@.len() - i,
        {
            if kind_in(self.tokens[i].kind, kinds) {
                r.push(i);
            }
            i += 1;
        }
        r
    }

    /// All tokens of any of the given kinds, in document order, excluding
    /// tokens inside an `htmlFlow` block.
    pub fn filter(&self, kinds: &[Kind]) -> (r: Vec<&Token>)
        ensures
            r@.len() == filter_idx_upto(self.tokens@, kinds@, self.tokens@.len() as int).len(),
            forall|j: int|
                0 <= j < r@.len() ==> *#[trigger] r@[j] == self.tokens@[filter_idx_upto(
                    self.tokens@,
                    kinds@,
                    self.tokens@.len() as int,
                )[j] as int],
    {
        let idx = self.filter_idx(kinds);
        proof {
            lemma_filter_idx_bounds(self.tokens@, kinds@, self.tokens@.len() as int);
        }
        let mut r: Vec<&Token> = Vec::new();
        let mut j: usize = 0;
        while j < idx.len()
            invariant
                j <= idx@.len(),
                idx@ == filter_idx_upto(self.tokens@, kinds@, self.tokens@.len() as int),
                forall|k: int| 0 <= k < idx@.len() ==> #[trigger] idx@[k] < self.tokens@.len(),
                r@.len() == j,
                forall|k: int| 0 <= k < j ==> *#[trigger] r@[k] == self.tokens@[idx@[k] as int],
            decreases idx@.len() - j,
        {
            r.push(&self.tokens[idx[j]]);
            j += 1;
        }
        r
    }

    /// Direct children of a token whose kind is one of `kinds`, in order.
    pub fn children_of(&self, idx: usize, kinds: &[Kind]) -> (r: Vec<usize>)
        requires
            self.wf(),
            idx < self.tokens@.len(),
        ensures
            r@ == filter_kinds(
                self.tokens@,
                self.tokens@[idx as int].children@,
                kinds@,
                self.tokens@[idx as int].children@.len() as int,
            ),
            forall|k: int| 0 <= k < r@.len() ==> #[trigger] r@[k] < self.tokens@.len(),
    {
        let ch = &self.tokens[idx].children;
        let mut r: Vec<usize> = Vec::new();
        let mut j: usize = 0;
        while j < ch.len()
            invariant
                self.wf(),
                idx < self.tokens@.len(),
                *ch == self.tokens@[idx as int].children,
                j <= ch@.len(),
                r@ == filter_kinds(self.tokens@, ch@, kinds@, j as int),
                forall|k: int| 0 <= k < r@.len() ==> #[trigger] r@[k] < self.tokens@.len(),
            decreases ch@.len() - j,
        {
            proof {
                self.lemma_child(idx as int, j as int);
            }
            let c = ch[j];
            if kind_in(self.tokens[c].kind, kinds) {
                r.push(c);
            }
            j += 1;
        }
        r
    }

    /// First direct child whose kind is one of `kinds`.
    pub fn first_child(&self, idx: usize, kinds: &[Kind]) -> (r: Option<usize>)
        requires
            self.wf(),
            idx < self.tokens@.len(),
        ensures
            r == first_kind_from(self.tokens@, self.tokens@[idx as int].children@, kinds@, 0),
            r matches Some(c) ==> c < self.tokens@.len(),
    {
        let ch = &self.tokens[idx].children;
        let mut j: usize = 0;
        while j < ch.len()
            invariant
                self.wf(),
                idx < self.tokens@.len(),
                *ch == self.tokens@[idx as int].children,
                j <= ch@.len(),
                first_kind_from(self.tokens@, ch@, kinds@, j as int) == first_kind_from(
                    self.tokens@,
                    ch@,
                    kinds@,
                    0,
                ),
            decreases ch@.len() - j,
        {
            proof {
                self.lemma_child(idx as int, j as int);
            }
            let c = ch[j];
            if kind_in(self.tokens[c].kind, kinds) {
                return Some(c);
            }
            j += 1;
        }
        None
    }

    /// Nearest ancestor whose kind is one of `kinds`.
    pub fn parent_of_type(&self, idx: usize, kinds: &[Kind]) -> (r: Option<usize>)
        requires
            self.wf(),
            idx < self.tokens@.len(),
        ensures
            r == ancestor_of_type(self.tokens@, idx as int, kinds@),
            r matches Some(p) ==> p < idx,
    {
        let mut cur = idx;
        proof {
            self.lemma_node(idx as int);
        }
        loop
            invariant
                self.wf(),
                cur <= idx < self.tokens@.len(),
                ancestor_of_type(self.tokens@, cur as int, kinds@) == ancestor_of_type(
                    self.tokens@,
                    idx as int,
                    kinds@,
                ),
            decreases cur,
        {
            proof {
                self.lemma_node(cur as int);
            }
            match self.tokens[cur].parent {
                None => {
                    return None;
                },
                Some(p) => {
                    if kind_in(self.tokens[p].kind, kinds) {
                        return Some(p);
                    }
                    cur = p;
                },
            }
        }
    }

    /// Descendants reached by walking a type path, as in
    /// `getDescendantsByType`: each step keeps the children of the current
    /// tokens whose kind is in that step's set.
    pub fn descendants_by_type(&self, root: usize, path: &[&[Kind]]) -> (r: Vec<usize>)
        requires
            self.wf(),
            root < self.tokens@.len(),
        ensures
            r@ == walk_path(self.tokens@, seq![root], kind_path(path@), path@.len() as int),
            forall|k: int| 0 <= k < r@.len() ==> #[trigger] r@[k] < self.tokens@.len(),
    {
        let mut current: Vec<usize> = Vec::new();
        current.push(root);
        let mut s: usize = 0;
        while s < path.len()
            invariant
                self.wf(),
                s <= path@.len(),
                current@ == walk_path(self.tokens@, seq![root], kind_path(path@), s as int),
                forall|k: int| 0 <= k < current@.len() ==> #[trigger] current@[k] < self.tokens@.len(),
            decreases path@.len() - s,
        {
            let step: &[Kind] = path[s];
            let mut next: Vec<usize> = Vec::new();
            let mut t: usize = 0;
            while t < current.len()
                invariant
                    self.wf(),
                    t <= current@.len(),
                    forall|k: int| 0 <= k < current@.len() ==> #[trigger] current@[k] < self.tokens@.len(),
                    next@ == step_all(self.tokens@, current@.take(t as int), step@),
                    forall|k: int| 0 <= k < next@.len() ==> #[trigger] next@[k] < self.tokens@.len(),
                decreases current@.len() - t,
            {
                let ti = current[t];
                let ch = &self.tokens[ti].children;
                let mut j: usize = 0;
                let ghost base = next@;
                while j < ch.len()
                    invariant
                        self.wf(),
                        ti < self.tokens@.len(),
                        *ch == self.tokens@[ti as int].children,
                        j <= ch@.len(),
                        next@ == base + filter_kinds(self.tokens@, ch@, step@, j as int),
                        forall|k: int| 0 <= k < next@.len() ==> #[trigger] next@[k] < self.tokens@.len(),
                    decreases ch@.len() - j,
                {
                    proof {
                        self.lemma_child(ti as int, j as int);
                    }
                    let c = ch[j];
                    if kind_in(self.tokens[c].kind, step) {
                        next.push(c);
                    }
                    j += 1;
                }
                proof {
                    assert(current@.take(t + 1).drop_last() =~= current@.take(t as int));
                    assert(current@.take(t + 1).last() == ti);
                }
                t += 1;
            }
            proof {
                assert(current@.take(current@.len() as int) =~= current@);
                assert(kind_path(path@)[s as int] == step@);
            }
            current = next;
            s += 1;
        }
        current
    }

    /// Heading level of an `atxHeading`/`setextHeading` token.
    pub fn heading_level(&self, heading: usize) -> (r: usize)
        requires
            self.wf(),
            heading < self.tokens@.len(),
        ensures
            r == spec_heading_level(self.tokens@, heading as int),
            1 <= r <= 6,
    {
        let kinds: [Kind; 2] = [Kind::AtxHeadingSequence, Kind::SetextHeadingLine];
        let seq = self.first_child(heading, &kinds);
        proof {
            assert(kinds@ =~= heading_marker_kinds());
        }
        match seq {
            None => 1,
            Some(s) => {
                let text = &self.tokens[s].text;
                if text.len() > 0 && text[0] == '#' {
                    if text.len() < 6 {
                        text.len()
                    } else {
                        6
                    }
                } else if text.len() > 0 && text[0] == '-' {
                    2
                } else {
                    1
                }
            },
        }
    }

    /// Heading style of an `atxHeading`/`setextHeading` token.
    pub fn heading_style(&self, heading: usize) -> (r: HeadingStyle)
        requires
            self.wf(),
            heading < self.tokens@.len(),
        ensures
            r == spec_heading_style(self.tokens@, heading as int),
    {
        if self.tokens[heading].kind == Kind::SetextHeading {
            return HeadingStyle::Setext;
        }
        let ch = &self.tokens[heading].children;
        let mut count: usize = 0;
        let mut j: usize = 0;
        while j < ch.len()
            invariant
                self.wf(),
                heading < self.tokens@.len(),
                *ch == self.tokens@[heading as int].children,
                j <= ch@.len(),
                count == count_kind(self.tokens@, ch@, Kind::AtxHeadingSequence, j as int),
                count <= j,
            decreases ch@.len() - j,
        {
            proof {
                self.lemma_child(heading as int, j as int);
            }
            if self.tokens[ch[j]].kind == Kind::AtxHeadingSequence {
                count += 1;
            }
            j += 1;
        }
        if count == 1 {
            HeadingStyle::Atx
        } else {
            HeadingStyle::AtxClosed
        }
    }

    /// Heading text: the texts of the heading's `atxHeadingText` /
    /// `setextHeadingText` children, `htmlText` left out, line breaks as
    /// spaces.
    pub fn heading_text(&self, heading: usize) -> (r: Vec<char>)
        requires
            self.wf(),
            heading < self.tokens@.len(),
        ensures
            r@ == spec_heading_text(self.tokens@, heading as int),
    {
        let step: [Kind; 2] = [Kind::AtxHeadingText, Kind::SetextHeadingText];
        let path: [&[Kind]; 1] = [&step];
        let texts = self.descendants_by_type(heading, &path);
        proof {
            assert(kind_path(path@) =~= seq![heading_text_kinds()]);
            assert(step@ =~= heading_text_kinds());
        }
        let mut out: Vec<char> = Vec::new();
        let mut t: usize = 0;
        while t < texts.len()
            invariant
                self.wf(),
                t <= texts@.len(),
                forall|k: int| 0 <= k < texts@.len() ==> #[trigger] texts@[k] < self.tokens@.len(),
                out@ == concat_text_tokens(self.tokens@, texts@.take(t as int)),
            decreases texts@.len() - t,
        {
            let ti = texts[t];
            let ch = &self.tokens[ti].children;
            let ghost base = out@;
            let mut j: usize = 0;
            while j < ch.len()
                invariant
                    self.wf(),
                    ti < self.tokens@.len(),
                    *ch == self.tokens@[ti as int].children,
                    j <= ch@.len(),
                    out@ == base + concat_non_html(self.tokens@, ch@.take(j as int)),
                decreases ch@.len() - j,
            {
                proof {
                    self.lemma_child(ti as int, j as int);
                }
                let c = &self.tokens[ch[j]];
                let ghost before = out@;
                if c.kind != Kind::HtmlText {
                    let mut k: usize = 0;
                    while k < c.text.len()
                        invariant
                            k <= c.text@.len(),
                            out@ == before + c.text@.take(k as int),
                        decreases c.text@.len() - k,
                    {
                        out.push(c.text[k]);
                        k += 1;
                        proof {
                            assert(c.text@.take(k as int) =~= c.text@.take(k - 1).push(c.text@[k - 1]));
                        }
                    }
                    proof {
                        assert(c.text@.take(c.text@.len() as int) =~= c.text@);
                    }
                }
                proof {
                    assert(ch@.take(j + 1).drop_last() =~= ch@.take(j as int));
                    assert(ch@.take(j + 1).last() == ch@[j as int]);
                    assert(out@ =~= base + concat_non_html(self.tokens@, ch@.take(j + 1)));
                }
                j += 1;
            }
            proof {
                assert(ch@.take(ch@.len() as int) =~= ch@);
                assert(texts@.take(t + 1).drop_last() =~= texts@.take(t as int));
                assert(texts@.take(t + 1).last() == ti);
            }
            t += 1;
        }
        proof {
            assert(texts@.take(texts@.len() as int) =~= texts@);
        }
        let mut r: Vec<char> = Vec::new();
        let mut i: usize = 0;
        while i < out.len()
            invariant
                i <= out@.len(),
                r@ == out@.take(i as int).map_values(|c: char| line_break_to_space(c)),
            decreases out@.len() - i,
        {
            let c = out[i];
            r.push(if c == '\r' || c == '\n' { ' ' } else { c });
            proof {
                assert(out@.take(i + 1) =~= out@.take(i as int).push(c));
            }
            i += 1;
        }
        proof {
            assert(out@.take(out@.len() as int) =~= out@);
        }
        r
    }

}


/// Heading styles: ATX (`# h`), closed ATX (`# h #`) and setext.
#[derive(Clone, Copy, Debug, PartialEq, Eq, Structural)]
pub enum HeadingStyle {
    Atx,
    AtxClosed,
    Setext,
}

/// The name of a heading style.
pub open spec fn spec_style_name(s: HeadingStyle) -> Seq<char> {
    match s {
        HeadingStyle::Atx => "atx"@,
        HeadingStyle::AtxClosed => "atx_closed"@,
        HeadingStyle::Setext => "setext"@,
    }
}

impl HeadingStyle {
    /// The style's name in configuration: "atx", "atx_closed", "setext".
    pub fn as_str(&self) -> (r: &'static str)
        ensures
            r@ == spec_style_name(*self),
    {
        proof {
            reveal_strlit("atx");
            reveal_strlit("atx_closed");
            reveal_strlit("setext");
        }
        match self {
            HeadingStyle::Atx => "atx",
            HeadingStyle::AtxClosed => "atx_closed",
            HeadingStyle::Setext => "setext",
        }
    }
}

pub open spec fn selected(t: Token, kinds: Seq<Kind>) -> bool {
    kinds.contains(t.kind) && !t.in_html_flow
}

/// Indices below `n` of tokens selected by `kinds`, in order.
pub open spec fn filter_idx_upto(tokens: Seq<Token>, kinds: Seq<Kind>, n: int) -> Seq<usize>
    decreases n,
{
    if n <= 0 {
        Seq::empty()
    } else {
        let prev = filter_idx_upto(tokens, kinds, n - 1);
        if selected(tokens[n - 1], kinds) {
            prev.push((n - 1) as usize)
        } else {
            prev
        }
    }
}

/// Indices below `n` of tokens of the given kinds, in order, those inside
/// HTML blocks included.
pub open spec fn filter_html_upto(tokens: Seq<Token>, kinds: Seq<Kind>, n: int) -> Seq<usize>
    decreases n,
{
    if n <= 0 {
        Seq::empty()
    } else {
        let prev = filter_html_upto(tokens, kinds, n - 1);
        if kinds.contains(tokens[n - 1].kind) {
            prev.push((n - 1) as usize)
        } else {
            prev
        }
    }
}

pub proof fn lemma_filter_idx_bounds(tokens: Seq<Token>, kinds: Seq<Kind>, n: int)
    requires
        0 <= n <= tokens.len(),
    ensures
        forall|k: int|
            0 <= k < filter_idx_upto(tokens, kinds, n).len() ==> #[trigger] filter_idx_upto(
                tokens,
                kinds,
                n,
            )[k] < n,
    decreases n,
{
    if n > 0 {
        lemma_filter_idx_bounds(tokens, kinds, n - 1);
        let prev = filter_idx_upto(tokens, kinds, n - 1);
        let cur = filter_idx_upto(tokens, kinds, n);
        assert forall|k: int| 0 <= k < cur.len() implies #[trigger] cur[k] < n by {
            if k < prev.len() {
                assert(cur[k] == prev[k]);
            }
        }
    }
}

/// The first `n` of the indices `ch` whose token kind is in `kinds`.
pub open spec fn filter_kinds(tokens: Seq<Token>, ch: Seq<usize>, kinds: Seq<Kind>, n: int) -> Seq<
    usize,
>
    decreases n,
{
    if n <= 0 {
        Seq::empty()
    } else {
        let prev = filter_kinds(tokens, ch, kinds, n - 1);
        if kinds.contains(tokens[ch[n - 1] as int].kind) {
            prev.push(ch[n - 1])
        } else {
            prev
        }
    }
}

/// The first of `ch[j..]` whose token kind is in `kinds`.
pub open spec fn first_kind_from(tokens: Seq<Token>, ch: Seq<usize>, kinds: Seq<Kind>, j: int) -> Option<
    usize,
>
    decreases ch.len() - j,
{
    if j < 0 || j >= ch.len() {
        None
    } else if kinds.contains(tokens[ch[j] as int].kind) {
        Some(ch[j])
    } else {
        first_kind_from(tokens, ch, kinds, j + 1)
    }
}

/// The nearest strict ancestor of token `idx` whose kind is in `kinds`.
pub open spec fn ancestor_of_type(tokens: Seq<Token>, idx: int, kinds: Seq<Kind>) -> Option<usize>
    decreases idx,
{
    match tokens[idx].parent {
        None => None,
        Some(p) => if p < idx && idx > 0 {
            if kinds.contains(tokens[p as int].kind) {
                Some(p)
            } else {
                ancestor_of_type(tokens, p as int, kinds)
            }
        } else {
            None
        },
    }
}

/// The ancestor found comes before the token.
pub proof fn lemma_ancestor_before(tokens: Seq<Token>, idx: int, kinds: Seq<Kind>)
    ensures
        ancestor_of_type(tokens, idx, kinds) matches Some(p) ==> 0 <= p < idx,
    decreases idx,
{
    match tokens[idx].parent {
        None => {},
        Some(p) => if p < idx && idx > 0 {
            if !kinds.contains(tokens[p as int].kind) {
                lemma_ancestor_before(tokens, p as int, kinds);
            }
        },
    }
}

/// One step of a type path: the children of each of `cur` whose kind is in
/// `kinds`, in order.
pub open spec fn step_all(tokens: Seq<Token>, cur: Seq<usize>, kinds: Seq<Kind>) -> Seq<usize>
    decreases cur.len(),
{
    if cur.len() == 0 {
        Seq::empty()
    } else {
        let ch = tokens[cur.last() as int].children@;
        step_all(tokens, cur.drop_last(), kinds) + filter_kinds(tokens, ch, kinds, ch.len() as int)
    }
}

/// The kind sets of a path of steps.
pub open spec fn kind_path(path: Seq<&[Kind]>) -> Seq<Seq<Kind>> {
    path.map_values(|s: &[Kind]| s@)
}

/// The tokens reached from `start` by the first `k` steps of `path`.
pub open spec fn walk_path(tokens: Seq<Token>, start: Seq<usize>, path: Seq<Seq<Kind>>, k: int) -> Seq<
    usize,
>
    decreases k,
{
    if k <= 0 {
        start
    } else {
        step_all(tokens, walk_path(tokens, start, path, k - 1), path[k - 1])
    }
}

pub open spec fn heading_marker_kinds() -> Seq<Kind> {
    seq![Kind::AtxHeadingSequence, Kind::SetextHeadingLine]
}

pub open spec fn heading_text_kinds() -> Seq<Kind> {
    seq![Kind::AtxHeadingText, Kind::SetextHeadingText]
}

/// Level of a heading: the number of `#` of its opening sequence (at most
/// six), 2 for a `-` setext underline, 1 otherwise.
pub open spec fn spec_heading_level(tokens: Seq<Token>, h: int) -> usize {
    match first_kind_from(tokens, tokens[h].children@, heading_marker_kinds(), 0) {
        None => 1,
        Some(s) => {
            let t = tokens[s as int].text@;
            if t.len() > 0 && t[0] == '#' {
                if t.len() < 6 {
                    t.len() as usize
                } else {
                    6
                }
            } else if t.len() > 0 && t[0] == '-' {
                2
            } else {
                1
            }
        },
    }
}

/// Number of the first `n` of `ch` whose token has kind `k`.
pub open spec fn count_kind(tokens: Seq<Token>, ch: Seq<usize>, k: Kind, n: int) -> int
    decreases n,
{
    if n <= 0 {
        0
    } else {
        count_kind(tokens, ch, k, n - 1) + if tokens[ch[n - 1] as int].kind == k {
            1int
        } else {
            0int
        }
    }
}

pub open spec fn spec_heading_style(tokens: Seq<Token>, h: int) -> HeadingStyle {
    if tokens[h].kind == Kind::SetextHeading {
        HeadingStyle::Setext
    } else if count_kind(
        tokens,
        tokens[h].children@,
        Kind::AtxHeadingSequence,
        tokens[h].children@.len() as int,
    ) == 1 {
        HeadingStyle::Atx
    } else {
        HeadingStyle::AtxClosed
    }
}

/// Concatenated texts of the tokens `ch`, `htmlText` tokens left out.
pub open spec fn concat_non_html(tokens: Seq<Token>, ch: Seq<usize>) -> Seq<char>
    decreases ch.len(),
{
    if ch.len() == 0 {
        Seq::empty()
    } else {
        let t = tokens[ch.last() as int];
        concat_non_html(tokens, ch.drop_last()) + if t.kind != Kind::HtmlText {
            t.text@
        } else {
            Seq::empty()
        }
    }
}

/// For each token of `ids`, the concatenated non-HTML texts of its children.
pub open spec fn concat_text_tokens(tokens: Seq<Token>, ids: Seq<usize>) -> Seq<char>
    decreases ids.len(),
{
    if ids.len() == 0 {
        Seq::empty()
    } else {
        concat_text_tokens(tokens, ids.drop_last()) + concat_non_html(
            tokens,
            tokens[ids.last() as int].children@,
        )
    }
}

pub open spec fn line_break_to_space(c: char) -> char {
    if c == '\r' || c == '\n' {
        ' '
    } else {
        c
    }
}

pub open spec fn spec_heading_text(tokens: Seq<Token>, h: int) -> Seq<char> {
    let texts = walk_path(tokens, seq![h as usize], seq![heading_text_kinds()], 1);
    concat_text_tokens(tokens, texts).map_values(|c: char| line_break_to_space(c))
}

/// Parsed HTML tag info from an `htmlText` token.
pub struct HtmlTagInfo {
    pub close: bool,
    pub name: Vec<char>,
}

/// End of a tag name starting at `i`: the first `/`, whitespace or `>`.
pub open spec fn tag_name_end(s: Seq<char>, i: int) -> int
    decreases s.len() - i,
{
    if 0 <= i < s.len() && s[i] != '/' && !spec_is_whitespace(s[i]) && s[i] != '>' {
        tag_name_end(s, i + 1)
    } else {
        i
    }
}

/// `getHtmlTagInfo`: for text matching `^<([^!>][^/\s>]*)`, whether the tag
/// is a closing tag (name starting with `/`) and its name without that `/`.
pub open spec fn spec_html_tag_info(s: Seq<char>) -> Option<(bool, Seq<char>)> {
    if s.len() < 2 || s[0] != '<' || s[1] == '!' || s[1] == '>' {
        None
    } else {
        let name = s.subrange(1, tag_name_end(s, 2));
        let close = name[0] == '/';
        Some((close, if close { name.drop_first() } else { name }))
    }
}

proof fn lemma_tag_name_end(s: Seq<char>, i: int)
    requires
        0 <= i <= s.len(),
    ensures
        i <= tag_name_end(s, i) <= s.len(),
    decreases s.len() - i,
{
    if i < s.len() && s[i] != '/' && !spec_is_whitespace(s[i]) && s[i] != '>' {
        lemma_tag_name_end(s, i + 1);
    }
}

/// Tag info of an HTML tag text, as markdownlint's `getHtmlTagInfo`.
pub fn html_tag_info(text: &[char]) -> (r: Option<HtmlTagInfo>)
    ensures
        match r {
            None => spec_html_tag_info(text@) is None,
            Some(info) => spec_html_tag_info(text@) == Some((info.close, info.name@)),
        },
{
    if text.len() < 2 || text[0] != '<' {
        return None;
    }
    let first = text[1];
    if first == '!' || first == '>' {
        return None;
    }
    let mut i: usize = 2;
    while i < text.len() && text[i] != '/' && !is_whitespace(text[i]) && text[i] != '>'
        invariant
            2 <= i <= text@.len(),
            tag_name_end(text@, i as int) == tag_name_end(text@, 2),
        decreases text@.len() - i,
    {
        i += 1;
    }
    let close = first == '/';
    let from: usize = if close { 2 } else { 1 };
    let mut name: Vec<char> = Vec::new();
    let mut k: usize = from;
    while k < i
        invariant
            from <= k <= i <= text@.len(),
            name@ == text@.subrange(from as int, k as int),
        decreases i - k,
    {
        name.push(text[k]);
        k += 1;
    }
    proof {
        let full = text@.subrange(1, i as int);
        if close {
            assert(full.drop_first() =~= text@.subrange(2, i as int));
        }
    }
    Some(HtmlTagInfo { close, name })
}

/// The relation between a tree and the tree after one `push`.
pub open spec fn pushed(old_tree: Tree, new_tree: Tree, idx: usize, parent: Option<usize>) -> bool {
    &&& idx == old_tree.tokens@.len()
    &&& new_tree.tokens@.len() == idx + 1
    &&& new_tree.tokens@[idx as int].parent == parent
    &&& new_tree.tokens@[idx as int].children@.len() == 0
    &&& parent matches Some(p) ==> p < idx
    &&& forall|i: int|
        0 <= i < idx && parent != Some(i as usize)
            ==> #[trigger] new_tree.tokens@[i] == old_tree.tokens@[i]
    &&& parent matches Some(p) ==> {
        let a = old_tree.tokens@[p as int];
        let b = new_tree.tokens@[p as int];
        &&& b.children@ == a.children@.push(idx)
        &&& b.parent == a.parent
    }
    &&& parent is None ==> new_tree.roots@ == old_tree.roots@.push(idx)
    &&& parent is Some ==> new_tree.roots@ == old_tree.roots@
}

proof fn lemma_push_node(old_tree: Tree, new_tree: Tree, idx: usize, parent: Option<usize>, i: int)
    requires
        old_tree.wf(),
        pushed(old_tree, new_tree, idx, parent),
        0 <= i < new_tree.tokens@.len(),
    ensures
        new_tree.node_ok(i),
{
    reveal(Tree::wf);
    if i < idx {
        assert(old_tree.node_ok(i));
        let ot = old_tree.tokens@[i];
        let nt = new_tree.tokens@[i];
        if parent != Some(i as usize) {
            assert(nt == ot);
        }
        match ot.parent {
            Some(q) => {
                assert(old_tree.tokens@[q as int].children@.contains(i as usize));
                let k = choose|k: int|
                    0 <= k < old_tree.tokens@[q as int].children@.len()
                        && old_tree.tokens@[q as int].children@[k] == i as usize;
                if parent == Some(q) {
                    assert(new_tree.tokens@[q as int].children@[k] == i as usize);
                } else {
                    assert(new_tree.tokens@[q as int] == old_tree.tokens@[q as int]);
                }
                assert(new_tree.parent_link_ok(i));
            },
            None => {
                assert(old_tree.roots@.contains(i as usize));
                let k = choose|k: int|
                    0 <= k < old_tree.roots@.len() && old_tree.roots@[k] == i as usize;
                assert(new_tree.roots@[k] == i as usize);
                assert(new_tree.parent_link_ok(i));
            },
        }
        let ch = nt.children@;
        assert forall|j: int| 0 <= j < ch.len() implies {
            let c = #[trigger] ch[j];
            &&& i < c < new_tree.tokens@.len()
            &&& new_tree.tokens@[c as int].parent == Some(i as usize)
        } by {
            if j < ot.children@.len() {
                assert(ch[j] == ot.children@[j]);
                let c = ot.children@[j];
                assert(c < idx);
                if parent != Some(c) {
                    assert(new_tree.tokens@[c as int] == old_tree.tokens@[c as int]);
                } else {
                    assert(new_tree.tokens@[c as int].parent == old_tree.tokens@[c as int].parent);
                }
            }
        }
        assert forall|a: int, b: int| 0 <= a < b < ch.len() implies ch[a] < ch[b] by {
            assert(ch[a] == ot.children@[a]);
            if b < ot.children@.len() {
                assert(ch[b] == ot.children@[b]);
            } else {
                assert(ot.children@[a] < idx);
            }
        }
    } else {
        match parent {
            Some(q) => {
                let l = new_tree.tokens@[q as int].children@.len() - 1;
                assert(new_tree.tokens@[q as int].children@[l] == i as usize);
            },
            None => {
                let l = new_tree.roots@.len() - 1;
                assert(new_tree.roots@[l] == i as usize);
            },
        }
    }
}

proof fn lemma_push_roots(old_tree: Tree, new_tree: Tree, idx: usize, parent: Option<usize>)
    requires
        old_tree.wf(),
        pushed(old_tree, new_tree, idx, parent),
    ensures
        forall|j: int| 0 <= j < new_tree.roots@.len() ==> #[trigger] new_tree.root_ok(j),
        strictly_increasing(new_tree.roots@),
{
    reveal(Tree::wf);
    assert forall|j: int| 0 <= j < new_tree.roots@.len() implies #[trigger] new_tree.root_ok(j) by {
        if j < old_tree.roots@.len() {
            assert(old_tree.root_ok(j));
            assert(new_tree.roots@[j] == old_tree.roots@[j]);
            let r = old_tree.roots@[j];
            if parent != Some(r) {
                assert(new_tree.tokens@[r as int] == old_tree.tokens@[r as int]);
            }
        }
    }
    assert forall|a: int, b: int| 0 <= a < b < new_tree.roots@.len() implies new_tree.roots@[a]
        < new_tree.roots@[b] by {
        assert(new_tree.roots@[a] == old_tree.roots@[a]);
        assert(old_tree.root_ok(a));
        if b < old_tree.roots@.len() {
            assert(new_tree.roots@[b] == old_tree.roots@[b]);
        }
    }
}

/// Trees with the same roots and the same parent and children of every
/// token are equally well formed.
proof fn lemma_same_shape(a: Tree, b: Tree)
    requires
        a.wf(),
        a.tokens@.len() == b.tokens@.len(),
        a.roots@ == b.roots@,
        forall|i: int|
            0 <= i < a.tokens@.len() ==> (#[trigger] b.tokens@[i]).parent == a.tokens@[i].parent
                && b.tokens@[i].children@ == a.tokens@[i].children@,
    ensures
        b.wf(),
{
    reveal(Tree::wf);
    assert forall|i: int| 0 <= i < b.tokens@.len() implies #[trigger] b.node_ok(i) by {
        assert(a.node_ok(i));
        assert(b.tokens@[i].parent == a.tokens@[i].parent);
        match a.tokens@[i].parent {
            Some(p) => {
                assert(b.tokens@[p as int].children@ == a.tokens@[p as int].children@);
            },
            None => {},
        }
        let ch = b.tokens@[i].children@;
        assert(ch == a.tokens@[i].children@);
        assert forall|j: int| 0 <= j < ch.len() implies {
            let c = #[trigger] ch[j];
            &&& i < c < b.tokens@.len()
            &&& b.tokens@[c as int].parent == Some(i as usize)
        } by {
            let c = ch[j];
            assert(a.tokens@[i].children@[j] == c);
            assert(b.tokens@[c as int].parent == a.tokens@[c as int].parent);
        }
    }
    assert forall|j: int| 0 <= j < b.roots@.len() implies #[trigger] b.root_ok(j) by {
        assert(a.root_ok(j));
        let r = a.roots@[j];
        assert(b.tokens@[r as int].parent == a.tokens@[r as int].parent);
    }
}

proof fn lemma_push_wf(old_tree: Tree, new_tree: Tree, idx: usize, parent: Option<usize>)
    requires
        old_tree.wf(),
        pushed(old_tree, new_tree, idx, parent),
    ensures
        new_tree.wf(),
{
    assert forall|i: int| 0 <= i < new_tree.tokens@.len() implies #[trigger] new_tree.node_ok(i) by {
        lemma_push_node(old_tree, new_tree, idx, parent, i);
    }
    lemma_push_roots(old_tree, new_tree, idx, parent);
    reveal(Tree::wf);
}

} // verus!
