//! MD009 — no-trailing-spaces.

use vstd::prelude::*;

use crate::md::kind::Kind;
use crate::md::tokens::{Token, Tree, filter_idx_upto};
use super::helpers::{trim_end_at, trim_end_len};
use super::options::{lookup, spec_opt_bool, spec_opt_i64};
use super::{
    Emit, FixInfo, Params, RuleError, Span, appended, error_is, int_text, kind_line_marks,
    lemma_appended_refl, lemma_appended_step, mark_range, marked, new_marks, on_kind_line,
    params_ok, spec_int_text, usize_text,
};

verus! {

/// Scanning the children `ch[j..]` of a list from the last one back: still
/// in the trailing part of an item (no content met since the last item
/// prefix) once the child at `j` is passed.
pub open spec fn scan_state(tokens: Seq<Token>, ch: Seq<usize>, j: int) -> bool
    decreases ch.len() - j,
{
    if j < 0 || j >= ch.len() {
        true
    } else {
        let k = tokens[ch[j] as int].kind;
        if k == Kind::Content {
            false
        } else if k == Kind::ListItemPrefix {
            true
        } else {
            scan_state(tokens, ch, j + 1)
        }
    }
}

/// Line `l` is the line of a `listItemIndent` among `ch[j..]` that comes in
/// the trailing part of its item.
pub open spec fn removed_from(tokens: Seq<Token>, ch: Seq<usize>, j: int, l: int) -> bool {
    exists|q: int|
        #![trigger ch[q]]
        j <= q < ch.len() && tokens[ch[q] as int].kind == Kind::ListItemIndent && scan_state(
            tokens,
            ch,
            q + 1,
        ) && tokens[ch[q] as int].start_line == l
}

/// Whether line `l` is a list line once the first `k` lists of `lists` are
/// taken in order: each list adds its lines and takes away its trailing
/// indent lines.
pub open spec fn list_line(tokens: Seq<Token>, lists: Seq<usize>, k: int, l: int) -> bool
    decreases k,
{
    if k <= 0 {
        false
    } else {
        let t = tokens[lists[k - 1] as int];
        if removed_from(tokens, t.children@, 0, l) {
            false
        } else if t.start_line <= l <= t.end_line {
            true
        } else {
            list_line(tokens, lists, k - 1, l)
        }
    }
}

pub open spec fn list_kinds() -> Seq<Kind> {
    seq![Kind::ListOrdered, Kind::ListUnordered]
}

/// Line `l` is a line of a list, other than a trailing indent line.
pub open spec fn in_list_lines(tokens: Seq<Token>, l: int) -> bool {
    let ids = filter_idx_upto(tokens, list_kinds(), tokens.len() as int);
    list_line(tokens, ids, ids.len() as int, l)
}

/// Marks of the list lines, per line number `0..=n`.
fn list_line_marks(tree: &Tree, n: usize) -> (r: Vec<bool>)
    requires
        tree.wf(),
        n < usize::MAX,
    ensures
        r@.len() == n + 1,
        forall|l: int| 0 <= l <= n ==> #[trigger] r@[l] == in_list_lines(tree.tokens@, l),
{
    let mut marks = new_marks(n);
    let kinds: [Kind; 2] = [Kind::ListOrdered, Kind::ListUnordered];
    proof {
        assert(kinds@ =~= list_kinds());
    }
    let lists = tree.filter_idx(&kinds);
    let ghost toks = tree.tokens@;
    let mut c: usize = 0;
    while c < lists.len()
        invariant
            tree.wf(),
            toks == tree.tokens@,
            c <= lists@.len(),
            lists@ == filter_idx_upto(toks, list_kinds(), toks.len() as int),
            forall|k: int| 0 <= k < lists@.len() ==> #[trigger] lists@[k] < toks.len(),
            marks@.len() == n + 1,
            forall|l: int| 0 <= l <= n ==> #[trigger] marks@[l] == list_line(toks, lists@, c as int, l),
        decreases lists@.len() - c,
    {
        let li = lists[c];
        let lt = tree.get(li);
        let ghost prev = marks@;
        let ghost ch = lt.children@;
        mark_range(&mut marks, lt.start_line, lt.end_line);
        let mut trailing_indent = true;
        let mut j = lt.children.len();
        while j > 0
            invariant
                tree.wf(),
                toks == tree.tokens@,
                li < toks.len(),
                *lt == toks[li as int],
                ch == lt.children@,
                j <= ch.len(),
                trailing_indent == scan_state(toks, ch, j as int),
                marks@.len() == n + 1,
                forall|l: int|
                    0 <= l <= n ==> #[trigger] marks@[l] == (!removed_from(toks, ch, j as int, l) && (prev[l]
                        || (lt.start_line <= l <= lt.end_line))),
            decreases j,
        {
            j -= 1;
            proof {
                tree.lemma_child(li as int, j as int);
            }
            let child = tree.get(lt.children[j]);
            let ghost before = marks@;
            let ghost state = trailing_indent;
            if child.kind == Kind::Content {
                trailing_indent = false;
            } else if child.kind == Kind::ListItemIndent {
                if trailing_indent && child.start_line < marks.len() {
                    marks.set(child.start_line, false);
                }
            } else if child.kind == Kind::ListItemPrefix {
                trailing_indent = true;
            }
            proof {
                assert forall|l: int| 0 <= l <= n implies #[trigger] marks@[l] == (!removed_from(
                    toks,
                    ch,
                    j as int,
                    l,
                ) && (prev[l] || (lt.start_line <= l <= lt.end_line))) by {
                    if removed_from(toks, ch, j as int, l) {
                        let q = choose|q: int|
                            #![trigger ch[q]]
                            j <= q < ch.len() && toks[ch[q] as int].kind == Kind::ListItemIndent
                                && scan_state(toks, ch, q + 1) && toks[ch[q] as int].start_line == l;
                        if q > j {
                            assert(removed_from(toks, ch, j + 1, l));
                        }
                    }
                    if removed_from(toks, ch, j + 1, l) {
                        let q = choose|q: int|
                            #![trigger ch[q]]
                            j + 1 <= q < ch.len() && toks[ch[q] as int].kind == Kind::ListItemIndent
                                && scan_state(toks, ch, q + 1) && toks[ch[q] as int].start_line == l;
                        assert(removed_from(toks, ch, j as int, l));
                    }
                    if child.kind == Kind::ListItemIndent && state && child.start_line == l {
                        assert(ch[j as int] == lt.children@[j as int]);
                        assert(removed_from(toks, ch, j as int, l));
                    }
                }
            }
        }
        proof {
            assert forall|l: int| 0 <= l <= n implies #[trigger] marks@[l] == list_line(
                toks,
                lists@,
                c + 1,
                l,
            ) by {}
        }
        c += 1;
    }
    marks
}

/// The trailing whitespace a line may have: `br_spaces` (a hard break),
/// or none when that is below 2.
pub open spec fn md009_expected(cfg: Seq<(Vec<char>, super::options::OptValue)>) -> int {
    let br = spec_opt_i64(lookup(cfg, "br_spaces"@), 2);
    if br < 2 {
        0
    } else {
        br as int
    }
}

/// The number of whitespace characters that end `s`.
pub open spec fn trailing_ws(s: Seq<char>) -> int {
    s.len() - trim_end_at(s, s.len() as int)
}

/// Whether the line of index `i` is reported: it ends with whitespace, is
/// not in code (unless `code_blocks`) nor an empty list-item line (with
/// `list_item_empty_lines`), and its trailing whitespace is not the
/// expected hard break, or (`strict`) the break is not inside a paragraph
/// or is inside a code span.
pub open spec fn md009_reports(
    lines: Seq<Vec<char>>,
    tokens: Seq<Token>,
    cfg: Seq<(Vec<char>, super::options::OptValue)>,
    i: int,
) -> bool {
    let l = i + 1;
    let t = trailing_ws(lines[i]@);
    let code = !spec_opt_bool(lookup(cfg, "code_blocks"@), false) && (on_kind_line(
        tokens,
        seq![Kind::CodeFenced],
        Span::Inner,
        l,
    ) || on_kind_line(tokens, seq![Kind::CodeIndented], Span::Whole, l));
    let list = spec_opt_bool(lookup(cfg, "list_item_empty_lines"@), false) && in_list_lines(tokens, l);
    let strict = spec_opt_bool(lookup(cfg, "strict"@), false);
    &&& t != 0
    &&& !code
    &&& !list
    &&& (md009_expected(cfg) != t || (strict && (!on_kind_line(tokens, seq![Kind::Paragraph], Span::ButLast, l)
        || on_kind_line(tokens, seq![Kind::CodeText], Span::ButLast, l))))
}

/// The indices below `n` of the lines reported.
pub open spec fn md009_lines(
    lines: Seq<Vec<char>>,
    tokens: Seq<Token>,
    cfg: Seq<(Vec<char>, super::options::OptValue)>,
    n: int,
) -> Seq<int>
    decreases n,
{
    if n <= 0 {
        Seq::empty()
    } else {
        let prev = md009_lines(lines, tokens, cfg, n - 1);
        if md009_reports(lines, tokens, cfg, n - 1) {
            prev.push(n - 1)
        } else {
            prev
        }
    }
}

/// The problem reported for the line of index `i`: the trailing
/// whitespace's length against what is allowed, its range, and a fix that
/// deletes it.
pub open spec fn md009_error(
    e: RuleError,
    lines: Seq<Vec<char>>,
    cfg: Seq<(Vec<char>, super::options::OptValue)>,
    i: int,
) -> bool {
    let t = trailing_ws(lines[i]@);
    let column = lines[i]@.len() - t + 1;
    let expected = md009_expected(cfg);
    let allowed = if expected == 0 {
        "0"@
    } else {
        "0 or "@ + spec_int_text(expected)
    };
    error_is(
        e,
        (i + 1) as usize,
        Some("Expected: "@ + allowed + "; Actual: "@ + spec_int_text(t)),
        None,
        Some((column as usize, t as usize)),
        Some(
            FixInfo {
                line_number: None,
                edit_column: Some(column as usize),
                delete_count: Some(t as i64),
                insert_text: None,
            },
        ),
    )
}

/// What `md009` reports: the problems it appends to `old_errors`.
pub open spec fn md009_reported(p: &Params, old_errors: Seq<RuleError>, new_errors: Seq<RuleError>) -> bool {
    ({
        let reported = md009_lines(p.lines@, p.tree.tokens@, p.config.entries@, p.lines@.len() as int);
        let base = old_errors.len();
        &&& new_errors.len() == base + reported.len()
        &&& forall|j: int|
            0 <= j < reported.len() ==> md009_error(
                #[trigger] new_errors[base + j],
                p.lines@,
                p.config.entries@,
                reported[j],
            )
    })
}

/// Report trailing whitespace, unless it is exactly `br_spaces` (a hard
/// break; in `strict` mode only inside paragraphs and outside code spans),
/// or it is in a code block (unless `code_blocks`) or an empty list-item
/// line (with `list_item_empty_lines`). The fix deletes it.
pub fn md009(p: &Params, emit: &mut Emit)
    requires
        params_ok(p),
    ensures
        appended(old(emit).errors@, final(emit).errors@, p.lines@.len() as int),
        md009_reported(p, old(emit).errors@, final(emit).errors@),
{
    let br_spaces = p.config.opt_i64("br_spaces", 2);
    let include_code = p.config.opt_bool("code_blocks", false);
    let list_item_empty_lines = p.config.opt_bool("list_item_empty_lines", false);
    let strict = p.config.opt_bool("strict", false);
    let tree = p.tree;
    let n = p.lines.len();
    let fenced_kinds: [Kind; 1] = [Kind::CodeFenced];
    let indented_kinds: [Kind; 1] = [Kind::CodeIndented];
    let paragraph_kinds: [Kind; 1] = [Kind::Paragraph];
    let code_text_kinds: [Kind; 1] = [Kind::CodeText];
    proof {
        assert(fenced_kinds@ =~= seq![Kind::CodeFenced]);
        assert(indented_kinds@ =~= seq![Kind::CodeIndented]);
        assert(paragraph_kinds@ =~= seq![Kind::Paragraph]);
        assert(code_text_kinds@ =~= seq![Kind::CodeText]);
    }
    let fenced_lines = kind_line_marks(tree, &fenced_kinds, Span::Inner, n);
    let indented_lines = kind_line_marks(tree, &indented_kinds, Span::Whole, n);
    let list_lines = list_line_marks(tree, n);
    let paragraph_lines = kind_line_marks(tree, &paragraph_kinds, Span::ButLast, n);
    let code_inline_lines = kind_line_marks(tree, &code_text_kinds, Span::ButLast, n);
    let expected: i64 = if br_spaces < 2 {
        0
    } else {
        br_spaces
    };
    let ghost e0 = emit.errors@;
    let ghost lines = p.lines@;
    let ghost toks = tree.tokens@;
    let ghost cfg = p.config.entries@;
    proof {
        lemma_appended_refl(e0, n as int);
        reveal_strlit("Expected: ");
        reveal_strlit("0");
        reveal_strlit("0 or ");
        reveal_strlit("; Actual: ");
    }
    let mut i: usize = 0;
    while i < n
        invariant
            i <= n,
            n == p.lines@.len(),
            lines == p.lines@,
            toks == p.tree.tokens@,
            cfg == p.config.entries@,
            params_ok(p),
            expected == md009_expected(cfg),
            include_code == spec_opt_bool(lookup(cfg, "code_blocks"@), false),
            list_item_empty_lines == spec_opt_bool(lookup(cfg, "list_item_empty_lines"@), false),
            strict == spec_opt_bool(lookup(cfg, "strict"@), false),
            fenced_lines@.len() == n + 1,
            indented_lines@.len() == n + 1,
            list_lines@.len() == n + 1,
            paragraph_lines@.len() == n + 1,
            code_inline_lines@.len() == n + 1,
            forall|l: int|
                0 <= l <= n ==> #[trigger] fenced_lines@[l] == on_kind_line(
                    toks,
                    seq![Kind::CodeFenced],
                    Span::Inner,
                    l,
                ),
            forall|l: int|
                0 <= l <= n ==> #[trigger] indented_lines@[l] == on_kind_line(
                    toks,
                    seq![Kind::CodeIndented],
                    Span::Whole,
                    l,
                ),
            forall|l: int| 0 <= l <= n ==> #[trigger] list_lines@[l] == in_list_lines(toks, l),
            forall|l: int|
                0 <= l <= n ==> #[trigger] paragraph_lines@[l] == on_kind_line(
                    toks,
                    seq![Kind::Paragraph],
                    Span::ButLast,
                    l,
                ),
            forall|l: int|
                0 <= l <= n ==> #[trigger] code_inline_lines@[l] == on_kind_line(
                    toks,
                    seq![Kind::CodeText],
                    Span::ButLast,
                    l,
                ),
            appended(e0, emit.errors@, n as int),
            emit.errors@.len() == e0.len() + md009_lines(lines, toks, cfg, i as int).len(),
            forall|j: int|
                0 <= j < md009_lines(lines, toks, cfg, i as int).len() ==> md009_error(
                    #[trigger] emit.errors@[e0.len() + j],
                    lines,
                    cfg,
                    md009_lines(lines, toks, cfg, i as int)[j],
                ),
        decreases n - i,
    {
        let line = &p.lines[i];
        let line_number = i + 1;
        let len = line.len();
        let trailing = len - trim_end_len(line);
        let trailing_i = trailing as i64;
        let in_code = !include_code && (marked(&fenced_lines, line_number) || marked(
            &indented_lines,
            line_number,
        ));
        let in_list = list_item_empty_lines && marked(&list_lines, line_number);
        let ghost prev = md009_lines(lines, toks, cfg, i as int);
        if trailing != 0 && !in_code && !in_list && (expected != trailing_i || (strict && (!marked(
            &paragraph_lines,
            line_number,
        ) || marked(&code_inline_lines, line_number)))) {
            let column = len - trailing + 1;
            let mut d = super::lit("Expected: ");
            if expected == 0 {
                super::concat(&mut d, &super::lit("0"));
            } else {
                super::concat(&mut d, &super::lit("0 or "));
                super::concat(&mut d, &int_text(expected));
            }
            super::concat(&mut d, &super::lit("; Actual: "));
            super::concat(&mut d, &usize_text(trailing));
            let ghost mid = emit.errors@;
            emit.add(
                line_number,
                Some(d),
                None,
                Some((column, trailing)),
                Some(FixInfo::delete(column, trailing_i)),
            );
            proof {
                lemma_appended_step(e0, mid, emit.errors@, n as int, line_number);
                assert(md009_reports(lines, toks, cfg, i as int));
                let cur = md009_lines(lines, toks, cfg, i + 1);
                assert(cur == prev.push(i as int));
                assert forall|j: int| 0 <= j < cur.len() implies md009_error(
                    #[trigger] emit.errors@[e0.len() + j],
                    lines,
                    cfg,
                    cur[j],
                ) by {
                    if j < prev.len() {
                        assert(emit.errors@[e0.len() + j] == mid[e0.len() + j]);
                    } else {
                        let allowed = if expected == 0 {
                            "0"@
                        } else {
                            "0 or "@ + spec_int_text(expected as int)
                        };
                        assert(d@ =~= "Expected: "@ + allowed + "; Actual: "@ + spec_int_text(trailing as int));
                    }
                }
            }
        } else {
            proof {
                assert(!md009_reports(lines, toks, cfg, i as int));
            }
        }
        i += 1;
    }
}

} // verus!
