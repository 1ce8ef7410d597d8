//! Properties of the library that relate several operations or hold of
//! all inputs.

use vstd::prelude::*;

use crate::config::{ConfigValue, ResolvedConfig, disable_all, first_key, first_key_from, lemma_first_key_found, spec_set};
use crate::fix::{
    ApplyState, Norm, NormV, apply_upto, ending_counts, insert_pos, replace_newlines, sorted_fixes, spec_apply_fix,
    spec_apply_fix_v, spec_normalize, spec_order, spec_preferred_line_ending,
};
use crate::linter::{
    action_enables, brk_eq, configured_enabled, directive_items, file_state, fold_file, fold_line, fold_pass3,
    line_states, named_by, pass2_states, pass3_states, pass3_step, same_breaks, spec_enabled_per_line, spec_scan_inline,
    toggled,
};
use crate::md::kind::Kind;
use crate::md::tokens::{
    Token, filter_idx_upto, filter_kinds, first_kind_from, heading_marker_kinds, selected, spec_heading_level, step_all,
    strictly_increasing, walk_path,
};
use crate::rules::helpers::spec_ellipsify;
use crate::rules::md009::{md009_lines, md009_reports};
use crate::rules::md025::{fm_title, md025_all, md025_e, md025_error, md025_f, md025_reported, md025_top};
use crate::rules::options::{OptValue, Scalar, lookup, spec_opt_bool, spec_opt_str};
use crate::rules::registry::{rule_count, spec_all_rules};
use crate::rules::{FixInfo, Params, RuleError, Span, appended, in_span, on_kind_line, picked};
use crate::text::str_to_uppercase;

verus! {

/// A shortened context never exceeds 33 characters (30 and an ellipsis),
/// and a text of at most 30 characters is kept as it is.
pub proof fn law_ellipsify_bounds(t: Seq<char>, start: bool, end: bool)
    ensures
        spec_ellipsify(t, start, end).len() <= 33,
        t.len() <= 30 ==> spec_ellipsify(t, start, end) == t,
{
    if t.len() > 30 {
        reveal_strlit("...");
    }
}

/// A fix that deletes nothing and inserts nothing leaves its line as it
/// is.
pub proof fn law_empty_fix_keeps_line(line: Seq<char>, fi: Norm, ending: Seq<char>)
    requires
        fi.delete_count == 0,
        fi.insert_text@.len() == 0,
    ensures
        spec_apply_fix(line, fi, ending) == Some(line),
{
    let edit = if fi.edit_column - 1 > 0 {
        fi.edit_column - 1
    } else {
        0
    };
    let h = if edit < line.len() {
        edit
    } else {
        line.len() as int
    };
    assert(replace_newlines(fi.insert_text@, ending) =~= Seq::<char>::empty());
    assert(line.take(h) + Seq::<char>::empty() + line.skip(h) =~= line);
}

/// A fix with delete count `-1` deletes its line, whatever else it says.
pub proof fn law_delete_line_fix(line: Seq<char>, fi: Norm, ending: Seq<char>)
    requires
        fi.delete_count == -1,
    ensures
        spec_apply_fix(line, fi, ending) is None,
{
}

/// Reporting is cumulative: what one rule appended to what another had
/// appended was appended to the first list.
pub proof fn law_appended_trans(a: Seq<RuleError>, b: Seq<RuleError>, c: Seq<RuleError>, n: int)
    requires
        appended(a, b, n),
        appended(b, c, n),
    ensures
        appended(a, c, n),
{
    assert(c.take(b.len() as int) == b);
    assert(c.take(a.len() as int) =~= c.take(b.len() as int).take(a.len() as int));
    assert(b.take(a.len() as int) == a);
    assert forall|k: int| a.len() <= k < c.len() implies 1 <= #[trigger] c[k].line_number <= n by {
        if k < b.len() {
            assert(c.take(b.len() as int)[k] == c[k]);
            assert(b[k] == c[k]);
        }
    }
}

/// Tokens selected by kind come in document order: their indices
/// strictly increase.
pub proof fn law_filter_idx_in_order(tokens: Seq<Token>, kinds: Seq<Kind>, n: int)
    requires
        0 <= n <= tokens.len(),
        tokens.len() <= usize::MAX,
    ensures
        strictly_increasing(filter_idx_upto(tokens, kinds, n)),
        forall|k: int|
            0 <= k < filter_idx_upto(tokens, kinds, n).len() ==> #[trigger] filter_idx_upto(
                tokens,
                kinds,
                n,
            )[k] < n,
    decreases n,
{
    if n > 0 {
        law_filter_idx_in_order(tokens, kinds, n - 1);
        let prev = filter_idx_upto(tokens, kinds, n - 1);
        let cur = filter_idx_upto(tokens, kinds, n);
        assert forall|k: int| 0 <= k < cur.len() implies #[trigger] cur[k] < n by {
            if k < prev.len() {
                assert(cur[k] == prev[k]);
            }
        }
        if crate::md::tokens::selected(tokens[n - 1], kinds) {
            assert(cur == prev.push((n - 1) as usize));
        } else {
            assert(cur == prev);
        }
        assert forall|i: int, j: int| 0 <= i < j < cur.len() implies cur[i] < cur[j] by {
            if j < prev.len() {
                assert(cur[i] == prev[i]);
                assert(cur[j] == prev[j]);
                assert(prev[i] < prev[j]);
            } else {
                assert(cur[i] == prev[i]);
                assert(prev[i] < n - 1);
                assert(cur[j] == (n - 1) as usize);
            }
        }
    }
}

proof fn lemma_counts_no_cr(s: Seq<char>, i: int)
    requires
        0 <= i,
        forall|k: int| 0 <= k < s.len() ==> s[k] != '\r',
    ensures
        ending_counts(s, i).0 == 0,
        ending_counts(s, i).2 == 0,
    decreases s.len() - i,
{
    if i < s.len() {
        lemma_counts_no_cr(s, i + 1);
    }
}

/// A document without carriage returns is fixed with `\n` line endings.
pub proof fn law_lf_documents_keep_lf(s: Seq<char>)
    requires
        forall|k: int| 0 <= k < s.len() ==> s[k] != '\r',
    ensures
        spec_preferred_line_ending(s) == seq!['\n'],
{
    lemma_counts_no_cr(s, 0);
    crate::fix::lemma_ending_counts_bound(s, 0);
}

/// Keeping line breaks in place is transitive: clearing comments in a text
/// already cleared keeps the original line structure.
pub proof fn law_same_breaks_trans(a: Seq<char>, b: Seq<char>, c: Seq<char>)
    requires
        same_breaks(a, b),
        same_breaks(b, c),
    ensures
        same_breaks(a, c),
{
    assert forall|k: int| 0 <= k < a.len() implies brk_eq(#[trigger] a[k], c[k]) by {
        assert(brk_eq(a[k], b[k]));
        assert(brk_eq(b[k], c[k]));
    }
}

/// Setting a configuration key is read back: the first entry of that key
/// holds the value set, and every other key reads as before.
pub proof fn law_set_then_read(v: Seq<(Seq<char>, ConfigValue)>, key: Seq<char>, value: ConfigValue)
    ensures
        ({
            let w = spec_set(v, key, value);
            &&& first_key(w, key) matches Some(i) && w[i] == (key, value)
            &&& forall|k: Seq<char>|
                k != key ==> (#[trigger] first_key(w, k)) == first_key(v, k) && (first_key(v, k) matches Some(
                    i,
                ) ==> w[i] == v[i])
        }),
{
    lemma_first_key_found(v, key, 0);
    let w = spec_set(v, key, value);
    match first_key(v, key) {
        Some(i) => {
            assert forall|t: int| 0 <= t < v.len() implies #[trigger] v[t].0 == w[t].0 by {}
            lemma_first_key_same_keys(v, w, key, 0);
            assert forall|k: Seq<char>|
                k != key implies (#[trigger] first_key(w, k)) == first_key(v, k) && (first_key(v, k) matches Some(
                    j,
                ) ==> w[j] == v[j]) by {
                lemma_first_key_same_keys(v, w, k, 0);
                lemma_first_key_found(v, k, 0);
            }
        },
        None => {
            lemma_first_key_push(v, key, value, key, 0);
            assert forall|k: Seq<char>|
                k != key implies (#[trigger] first_key(w, k)) == first_key(v, k) && (first_key(v, k) matches Some(
                    j,
                ) ==> w[j] == v[j]) by {
                lemma_first_key_push(v, key, value, k, 0);
                lemma_first_key_found(v, k, 0);
            }
        },
    }
}

/// Every name given to `--disable` reads as `false` afterwards.
pub proof fn law_disabled_names_read_false(v: Seq<(Seq<char>, ConfigValue)>, names: Seq<Seq<char>>, j: int)
    requires
        0 <= j < names.len(),
    ensures
        ({
            let w = disable_all(v, names, names.len() as int);
            first_key(w, names[j]) matches Some(i) && w[i].1 == ConfigValue::One(Scalar::Bool(false))
        }),
{
    lemma_disable_all_false(v, names, names.len() as int, j);
}

proof fn lemma_disable_all_false(v: Seq<(Seq<char>, ConfigValue)>, names: Seq<Seq<char>>, k: int, j: int)
    requires
        0 <= j < k <= names.len(),
    ensures
        ({
            let w = disable_all(v, names, k);
            first_key(w, names[j]) matches Some(i) && w[i].1 == ConfigValue::One(Scalar::Bool(false))
        }),
    decreases k,
{
    let prev = disable_all(v, names, k - 1);
    law_set_then_read(prev, names[k - 1], ConfigValue::One(Scalar::Bool(false)));
    if j < k - 1 {
        lemma_disable_all_false(v, names, k - 1, j);
    }
}

/// Two entry lists with the same keys from `from` on have the same first
/// matches from there.
proof fn lemma_first_key_same_keys(v: Seq<(Seq<char>, ConfigValue)>, w: Seq<(Seq<char>, ConfigValue)>, k: Seq<char>, from: int)
    requires
        0 <= from,
        v.len() == w.len(),
        forall|t: int| from <= t < v.len() ==> #[trigger] v[t].0 == w[t].0,
    ensures
        first_key_from(w, k, from) == first_key_from(v, k, from),
    decreases v.len() - from,
{
    if from < v.len() {
        lemma_first_key_same_keys(v, w, k, from + 1);
    }
}

/// Appending a new key: it is found at the end, and the first matches of
/// the others are kept.
proof fn lemma_first_key_push(v: Seq<(Seq<char>, ConfigValue)>, key: Seq<char>, value: ConfigValue, k: Seq<char>, from: int)
    requires
        0 <= from <= v.len(),
        first_key_from(v, key, from) is None,
    ensures
        k == key ==> first_key_from(v.push((key, value)), k, from) == Some(v.len() as int),
        k != key ==> first_key_from(v.push((key, value)), k, from) == first_key_from(v, k, from),
    decreases v.len() - from,
{
    let w = v.push((key, value));
    if from < v.len() {
        assert(w[from] == v[from]);
        lemma_first_key_push(v, key, value, k, from + 1);
    } else {
        assert(w[from] == (key, value));
        assert(first_key_from(w, k, from + 1) is None);
    }
}

/// Following a path one step further: the tokens reached are, for each
/// token the path reached, in order, its children of the next step's kinds
/// (what `Tree::children_of` gives for it).
pub proof fn law_descendants_step(tokens: Seq<Token>, start: Seq<usize>, path: Seq<Seq<Kind>>, kinds: Seq<Kind>)
    ensures
        walk_path(tokens, start, path.push(kinds), path.len() + 1int) == step_all(
            tokens,
            walk_path(tokens, start, path, path.len() as int),
            kinds,
        ),
        forall|cur: Seq<usize>, c: usize|
            #[trigger] step_all(tokens, cur.push(c), kinds) == step_all(tokens, cur, kinds) + filter_kinds(
                tokens,
                tokens[c as int].children@,
                kinds,
                tokens[c as int].children@.len() as int,
            ),
{
    lemma_walk_path_prefix(tokens, start, path, kinds, path.len() as int);
    assert forall|cur: Seq<usize>, c: usize|
        #[trigger] step_all(tokens, cur.push(c), kinds) == step_all(tokens, cur, kinds) + filter_kinds(
            tokens,
            tokens[c as int].children@,
            kinds,
            tokens[c as int].children@.len() as int,
        ) by {
        assert(cur.push(c).drop_last() =~= cur);
    }
}

proof fn lemma_walk_path_prefix(tokens: Seq<Token>, start: Seq<usize>, path: Seq<Seq<Kind>>, kinds: Seq<Kind>, k: int)
    requires
        0 <= k <= path.len(),
    ensures
        walk_path(tokens, start, path.push(kinds), k) == walk_path(tokens, start, path, k),
    decreases k,
{
    if k > 0 {
        lemma_walk_path_prefix(tokens, start, path, kinds, k - 1);
        assert(path.push(kinds)[k - 1] == path[k - 1]);
    }
}

/// `first_kind_from` finds, from `i` on, the first child whose kind is in
/// `kinds`.
proof fn lemma_first_kind_at(tokens: Seq<Token>, ch: Seq<usize>, kinds: Seq<Kind>, i: int, j: int)
    requires
        0 <= i <= j < ch.len(),
        kinds.contains(tokens[ch[j] as int].kind),
        forall|q: int| i <= q < j ==> !kinds.contains(#[trigger] tokens[ch[q] as int].kind),
    ensures
        first_kind_from(tokens, ch, kinds, i) == Some(ch[j]),
    decreases j - i,
{
    if i < j {
        lemma_first_kind_at(tokens, ch, kinds, i + 1, j);
    }
}

/// Heading levels: a setext heading underlined with `-` has level 2, one
/// underlined with `=` has level 1, and an ATX heading's level is the
/// number of `#` of its opening sequence (six at most). The underline or
/// opening sequence is the heading's first child of those two kinds.
pub proof fn law_heading_level(tokens: Seq<Token>, h: int, j: int)
    requires
        0 <= h < tokens.len(),
        0 <= j < tokens[h].children@.len(),
        forall|q: int|
            0 <= q < j ==> {
                let k = #[trigger] tokens[tokens[h].children@[q] as int].kind;
                k != Kind::AtxHeadingSequence && k != Kind::SetextHeadingLine
            },
    ensures
        ({
            let c = tokens[h].children@[j] as int;
            let t = tokens[c].text@;
            &&& tokens[c].kind == Kind::SetextHeadingLine && t.len() > 0 && t[0] == '-'
                ==> spec_heading_level(tokens, h) == 2
            &&& tokens[c].kind == Kind::SetextHeadingLine && t.len() > 0 && t[0] == '='
                ==> spec_heading_level(tokens, h) == 1
            &&& tokens[c].kind == Kind::AtxHeadingSequence && t.len() > 0 && (forall|q: int|
                0 <= q < t.len() ==> t[q] == '#') ==> spec_heading_level(tokens, h) == if t.len() < 6 {
                t.len()
            } else {
                6
            }
        }),
{
    let ch = tokens[h].children@;
    let kinds = heading_marker_kinds();
    let c = ch[j] as int;
    assert(kinds[0] == Kind::AtxHeadingSequence && kinds[1] == Kind::SetextHeadingLine);
    assert forall|q: int| 0 <= q < j implies !kinds.contains(#[trigger] tokens[ch[q] as int].kind) by {
        let k = tokens[ch[q] as int].kind;
        if kinds.contains(k) {
            let w = choose|w: int| 0 <= w < kinds.len() && kinds[w] == k;
            assert(w == 0 || w == 1);
        }
    }
    if tokens[c].kind == Kind::SetextHeadingLine || tokens[c].kind == Kind::AtxHeadingSequence {
        if tokens[c].kind == Kind::SetextHeadingLine {
            assert(kinds.contains(tokens[c].kind));
        } else {
            assert(kinds.contains(tokens[c].kind));
        }
        lemma_first_kind_at(tokens, ch, kinds, 0, j);
    }
}

/// Indices below `n` selected by `kinds` include each selected token.
proof fn lemma_filter_idx_has(tokens: Seq<Token>, kinds: Seq<Kind>, n: int, t: int) -> (j: int)
    requires
        0 <= t < n <= tokens.len(),
        n <= usize::MAX,
        selected(tokens[t], kinds),
    ensures
        0 <= j < filter_idx_upto(tokens, kinds, n).len(),
        filter_idx_upto(tokens, kinds, n)[j] == t,
    decreases n,
{
    if n == t + 1 {
        filter_idx_upto(tokens, kinds, n - 1).len() as int
    } else {
        let j = lemma_filter_idx_has(tokens, kinds, n - 1, t);
        let prev = filter_idx_upto(tokens, kinds, n - 1);
        assert(prev.push((n - 1) as usize)[j] == prev[j]);
        j
    }
}

/// A line among the first `n` reported by MD009 is one that MD009 reports.
proof fn lemma_md009_lines_reported(
    lines: Seq<Vec<char>>,
    tokens: Seq<Token>,
    cfg: Seq<(Vec<char>, OptValue)>,
    n: int,
    i: int,
)
    requires
        md009_lines(lines, tokens, cfg, n).contains(i),
    ensures
        md009_reports(lines, tokens, cfg, i),
    decreases n,
{
    if n > 0 {
        let prev = md009_lines(lines, tokens, cfg, n - 1);
        if md009_reports(lines, tokens, cfg, n - 1) {
            if i != n - 1 {
                let s2 = prev.push(n - 1);
                let w = choose|w: int| 0 <= w < s2.len() && #[trigger] s2[w] == i;
                assert(prev[w] == i);
                lemma_md009_lines_reported(lines, tokens, cfg, n - 1, i);
            }
        } else {
            lemma_md009_lines_reported(lines, tokens, cfg, n - 1, i);
        }
    }
}

/// With `code_blocks` off (the default), MD009 reports no line strictly
/// inside a fenced code block, nor any line of an indented code block.
pub proof fn law_md009_skips_code(
    lines: Seq<Vec<char>>,
    tokens: Seq<Token>,
    cfg: Seq<(Vec<char>, OptValue)>,
    t: int,
    i: int,
)
    requires
        !spec_opt_bool(lookup(cfg, "code_blocks"@), false),
        0 <= t < tokens.len() <= usize::MAX,
        !tokens[t].in_html_flow,
        (tokens[t].kind == Kind::CodeFenced && tokens[t].start_line < i + 1 < tokens[t].end_line) || (
        tokens[t].kind == Kind::CodeIndented && tokens[t].start_line <= i + 1 <= tokens[t].end_line),
    ensures
        !md009_reports(lines, tokens, cfg, i),
        !md009_lines(lines, tokens, cfg, lines.len() as int).contains(i),
{
    let l = i + 1;
    if tokens[t].kind == Kind::CodeFenced {
        let kinds = seq![Kind::CodeFenced];
        assert(kinds[0] == Kind::CodeFenced);
        assert(selected(tokens[t], kinds));
        let ids = filter_idx_upto(tokens, kinds, tokens.len() as int);
        let j = lemma_filter_idx_has(tokens, kinds, tokens.len() as int, t);
        assert(in_span(tokens[ids[j] as int], Span::Inner, l));
        assert(on_kind_line(tokens, kinds, Span::Inner, l));
    } else {
        let kinds = seq![Kind::CodeIndented];
        assert(kinds[0] == Kind::CodeIndented);
        assert(selected(tokens[t], kinds));
        let ids = filter_idx_upto(tokens, kinds, tokens.len() as int);
        let j = lemma_filter_idx_has(tokens, kinds, tokens.len() as int, t);
        assert(in_span(tokens[ids[j] as int], Span::Whole, l));
        assert(on_kind_line(tokens, kinds, Span::Whole, l));
    }
    if md009_lines(lines, tokens, cfg, lines.len() as int).contains(i) {
        lemma_md009_lines_reported(lines, tokens, cfg, lines.len() as int, i);
    }
}

/// The positions below `m` that `f` picks are exactly those where `f` holds.
proof fn lemma_picked_has(f: spec_fn(int) -> bool, m: int, k: int) -> (j: int)
    requires
        0 <= k < m,
        f(k),
    ensures
        0 <= j < picked(f, m).len(),
        picked(f, m)[j] == k,
    decreases m,
{
    if m == k + 1 {
        picked(f, m - 1).len() as int
    } else if f(m - 1) {
        lemma_picked_has(f, m - 1, k)
    } else {
        lemma_picked_has(f, m - 1, k)
    }
}

/// The positions below `m` that `f` picks hold `f`.
proof fn lemma_picked_holds(f: spec_fn(int) -> bool, m: int, j: int)
    requires
        0 <= j < picked(f, m).len(),
    ensures
        0 <= picked(f, m)[j] < m,
        f(picked(f, m)[j]),
    decreases m,
{
    if m > 0 {
        let prev = picked(f, m - 1);
        if f(m - 1) {
            if j < prev.len() {
                assert(picked(f, m)[j] == prev[j]);
                lemma_picked_holds(f, m - 1, j);
            }
        } else {
            lemma_picked_holds(f, m - 1, j);
        }
    }
}

/// MD025 reports nothing without a title, and never the title heading
/// itself when it is not in the front matter: each problem it adds is
/// for a heading of the configured level, on a line of the document,
/// other than that first one.
pub proof fn law_md025_spares_title(p: &Params, old_errors: Seq<RuleError>, new_errors: Seq<RuleError>, j: int)
    requires
        md025_reported(p, old_errors, new_errors),
        old_errors.len() <= j < new_errors.len(),
    ensures
        exists|k: int|
            #![trigger md025_error(new_errors[j], p.tree.tokens@, p.config.entries@, k)]
            {
                let toks = p.tree.tokens@;
                let cfg = p.config.entries@;
                let m = md025_all(toks, cfg);
                let fm = fm_title(p.front_matter_lines@, spec_opt_str(lookup(cfg, "front_matter_title"@)));
                &&& 0 <= k < m.len()
                &&& fm || md025_top(toks, p.tree.roots@, m[0])
                &&& fm || k != 0
                &&& 1 <= toks[m[k] as int].start_line <= p.lines@.len()
                &&& md025_error(new_errors[j], toks, cfg, k)
            },
{
    let toks = p.tree.tokens@;
    let cfg = p.config.entries@;
    let fm = fm_title(p.front_matter_lines@, spec_opt_str(lookup(cfg, "front_matter_title"@)));
    let f = md025_f(toks, p.tree.roots@, cfg, fm, p.lines@.len() as int);
    let m = md025_all(toks, cfg);
    let pos = picked(f, m.len() as int);
    let i = j - old_errors.len();
    lemma_picked_holds(f, m.len() as int, i);
    assert(md025_e(toks, cfg)(new_errors[old_errors.len() + i], pos[i]));
    let k = pos[i];
    assert(md025_error(new_errors[j], toks, cfg, k));
}

/// When the document has a title (in the front matter, or the first
/// heading of the configured level comes before any content), MD025
/// reports each heading of that level on a line of the document other
/// than the title heading (every one of them when the title is in the
/// front matter), whatever its position: a problem on its line with its
/// text as context.
pub proof fn law_md025_reports_all_but_title(p: &Params, old_errors: Seq<RuleError>, new_errors: Seq<RuleError>, k: int)
    requires
        md025_reported(p, old_errors, new_errors),
        ({
            let toks = p.tree.tokens@;
            let cfg = p.config.entries@;
            let m = md025_all(toks, cfg);
            let fm = fm_title(p.front_matter_lines@, spec_opt_str(lookup(cfg, "front_matter_title"@)));
            &&& 0 <= k < m.len()
            &&& fm || md025_top(toks, p.tree.roots@, m[0])
            &&& fm || k != 0
            &&& 1 <= toks[m[k] as int].start_line <= p.lines@.len()
        }),
    ensures
        exists|j: int|
            old_errors.len() <= j < new_errors.len() && #[trigger] md025_error(
                new_errors[j],
                p.tree.tokens@,
                p.config.entries@,
                k,
            ),
{
    let toks = p.tree.tokens@;
    let cfg = p.config.entries@;
    let fm = fm_title(p.front_matter_lines@, spec_opt_str(lookup(cfg, "front_matter_title"@)));
    let f = md025_f(toks, p.tree.roots@, cfg, fm, p.lines@.len() as int);
    let m = md025_all(toks, cfg);
    assert(f(k));
    let j = lemma_picked_has(f, m.len() as int, k);
    let pos = picked(f, m.len() as int);
    assert(md025_e(toks, cfg)(new_errors[old_errors.len() + j], pos[j]));
    assert(md025_error(new_errors[old_errors.len() + j], toks, cfg, k));
}

/// `b` has as many lines as `a`, as many rules on each line, and keeps off
/// every rule that `a` has off.
spec fn stays_off(a: Seq<Seq<bool>>, b: Seq<Seq<bool>>) -> bool {
    &&& a.len() == b.len()
    &&& forall|x: int| 0 <= x < a.len() ==> #[trigger] b[x].len() == a[x].len()
    &&& forall|x: int, q: int| 0 <= x < a.len() && 0 <= q < a[x].len() && !a[x][q] ==> !#[trigger] b[x][q]
}

proof fn lemma_stays_off_trans(a: Seq<Seq<bool>>, b: Seq<Seq<bool>>, c: Seq<Seq<bool>>)
    requires
        stays_off(a, b),
        stays_off(b, c),
    ensures
        stays_off(a, c),
{
    assert forall|x: int| 0 <= x < a.len() implies #[trigger] c[x].len() == a[x].len() by {
        assert(b[x].len() == a[x].len());
    }
    assert forall|x: int, q: int| 0 <= x < a.len() && 0 <= q < a[x].len() && !a[x][q] implies !#[trigger] c[x][q] by {
        assert(!b[x][q]);
        assert(b[x].len() == a[x].len());
    }
}

/// The line-scoped pass only turns rules off.
proof fn lemma_pass3_step_off(pl: Seq<Seq<bool>>, d: (Seq<char>, Seq<char>), fm: int, li: int)
    requires
        0 <= fm,
        0 <= li,
    ensures
        stays_off(pl, pass3_step(pl, d, fm, li)),
{
    reveal_strlit("DISABLE-LINE");
    reveal_strlit("DISABLE-NEXT-LINE");
    let r = pass3_step(pl, d, fm, li);
    let au = str_to_uppercase(d.0);
    if au == "DISABLE-LINE"@ || au == "DISABLE-NEXT-LINE"@ {
        assert(!action_enables(au));
        let next = fm + li + 1 + if au == "DISABLE-NEXT-LINE"@ {
            1int
        } else {
            0int
        };
        if next < pl.len() {
            let t = toggled(pl[next], au, d.1);
            assert(r == pl.update(next, t));
            assert forall|x: int, q: int| 0 <= x < pl.len() && 0 <= q < pl[x].len() && !pl[x][q] implies !#[trigger] r[x][q] by {
                if x == next {
                    assert(r[x] == t);
                    assert(r[x][q] == t[q]);
                    assert(!t[q]);
                }
            }
            assert forall|x: int| 0 <= x < pl.len() implies #[trigger] r[x].len() == pl[x].len() by {
                if x == next {
                    assert(r[x] == t);
                }
            }
        }
    }
}

proof fn lemma_fold_pass3_off(pl: Seq<Seq<bool>>, ds: Seq<(Seq<char>, Seq<char>)>, fm: int, li: int, j: int, k: int)
    requires
        0 <= fm,
        0 <= li,
        0 <= j <= k,
    ensures
        stays_off(fold_pass3(pl, ds, fm, li, j), fold_pass3(pl, ds, fm, li, k)),
    decreases k,
{
    if j == k {
    } else {
        lemma_fold_pass3_off(pl, ds, fm, li, j, k - 1);
        lemma_pass3_step_off(fold_pass3(pl, ds, fm, li, k - 1), ds[k - 1], fm, li);
        lemma_stays_off_trans(
            fold_pass3(pl, ds, fm, li, j),
            fold_pass3(pl, ds, fm, li, k - 1),
            fold_pass3(pl, ds, fm, li, k),
        );
    }
}

proof fn lemma_pass3_states_off(pl: Seq<Seq<bool>>, lines: Seq<Seq<char>>, fm: int, j: int, k: int)
    requires
        0 <= fm,
        0 <= j <= k,
    ensures
        stays_off(pass3_states(pl, lines, fm, j), pass3_states(pl, lines, fm, k)),
    decreases k,
{
    if j == k {
    } else {
        lemma_pass3_states_off(pl, lines, fm, j, k - 1);
        let prev = pass3_states(pl, lines, fm, k - 1);
        let ds = spec_scan_inline(lines[k - 1]);
        lemma_fold_pass3_off(prev, ds, fm, k - 1, 0, ds.len() as int);
        lemma_stays_off_trans(pass3_states(pl, lines, fm, j), prev, pass3_states(pl, lines, fm, k));
    }
}

proof fn lemma_fold_file_len(state: Seq<bool>, ds: Seq<(Seq<char>, Seq<char>)>, k: int)
    ensures
        fold_file(state, ds, k).len() == state.len(),
    decreases k,
{
    if k > 0 {
        lemma_fold_file_len(state, ds, k - 1);
    }
}

proof fn lemma_file_state_len(base: Seq<bool>, lines: Seq<Seq<char>>, k: int)
    ensures
        file_state(base, lines, k).len() == base.len(),
    decreases k,
{
    if k > 0 {
        lemma_file_state_len(base, lines, k - 1);
        let ds = spec_scan_inline(lines[k - 1]);
        lemma_fold_file_len(file_state(base, lines, k - 1), ds, ds.len() as int);
    }
}

proof fn lemma_fold_line_len(st: (Seq<bool>, Seq<bool>), ds: Seq<(Seq<char>, Seq<char>)>, k: int)
    requires
        st.0.len() == st.1.len(),
    ensures
        fold_line(st, ds, k).0.len() == st.0.len(),
        fold_line(st, ds, k).1.len() == st.0.len(),
    decreases k,
{
    if k > 0 {
        lemma_fold_line_len(st, ds, k - 1);
    }
}

proof fn lemma_line_states_len(start: (Seq<bool>, Seq<bool>), lines: Seq<Seq<char>>, k: int)
    requires
        start.0.len() == start.1.len(),
    ensures
        line_states(start, lines, k).0.len() == start.0.len(),
        line_states(start, lines, k).1.len() == start.0.len(),
    decreases k,
{
    if k > 0 {
        lemma_line_states_len(start, lines, k - 1);
        let ds = spec_scan_inline(lines[k - 1]);
        lemma_fold_line_len(line_states(start, lines, k - 1), ds, ds.len() as int);
    }
}

/// Every line's state before the line-scoped pass has one entry per rule.
proof fn lemma_pass2_lens(cfg: ResolvedConfig, lines: Seq<Seq<char>>, fm: int, x: int)
    requires
        0 <= x < pass2_states(cfg, lines, fm).len(),
    ensures
        pass2_states(cfg, lines, fm)[x].len() == rule_count(),
{
    let fs = file_state(configured_enabled(cfg), lines, lines.len() as int);
    lemma_file_state_len(configured_enabled(cfg), lines, lines.len() as int);
    if x > fm {
        lemma_line_states_len((fs, fs), lines, x - fm);
    }
}

/// What one line-scoped directive on the line of index `li` does to the
/// states, indexed by line number (the front matter's `fm` lines and an
/// unused index 0 first, so that line `li` has state `fm + li + 1`):
/// `disable-next-line` turns the rules it names off on the next line and
/// leaves its own line as it was; `disable-line` turns them off on its own
/// line and leaves the next one as it was. No other state changes.
pub proof fn law_disable_line_targets(pl: Seq<Seq<bool>>, d: (Seq<char>, Seq<char>), fm: int, li: int)
    requires
        0 <= fm,
        0 <= li,
        fm + li + 1 < pl.len(),
    ensures
        ({
            let r = pass3_step(pl, d, fm, li);
            let au = str_to_uppercase(d.0);
            let own = fm + li + 1;
            let next = fm + li + 2;
            &&& r.len() == pl.len()
            &&& forall|x: int| 0 <= x < pl.len() && x != own && x != next ==> #[trigger] r[x] == pl[x]
            &&& au == "DISABLE-NEXT-LINE"@ ==> {
                &&& r[own] == pl[own]
                &&& next < pl.len() ==> r[next].len() == pl[next].len()
                &&& next < pl.len() ==> forall|q: int|
                    0 <= q < pl[next].len() ==> #[trigger] r[next][q] == (pl[next][q] && !named_by(
                        directive_items(d.1),
                        spec_all_rules()[q],
                    ))
            }
            &&& au == "DISABLE-LINE"@ ==> {
                &&& next < pl.len() ==> r[next] == pl[next]
                &&& r[own].len() == pl[own].len()
                &&& forall|q: int|
                    0 <= q < pl[own].len() ==> #[trigger] r[own][q] == (pl[own][q] && !named_by(
                        directive_items(d.1),
                        spec_all_rules()[q],
                    ))
            }
        }),
{
    reveal_strlit("DISABLE-LINE");
    reveal_strlit("DISABLE-NEXT-LINE");
    let au = str_to_uppercase(d.0);
    let r = pass3_step(pl, d, fm, li);
    assert("DISABLE-LINE"@.len() != "DISABLE-NEXT-LINE"@.len());
    if au == "DISABLE-NEXT-LINE"@ {
        assert(au != "DISABLE-LINE"@);
        assert(!action_enables(au));
        let next = fm + li + 2;
        if next < pl.len() {
            let t = toggled(pl[next], au, d.1);
            assert(r == pl.update(next, t));
            assert(r[next] == t);
        } else {
            assert(r == pl);
        }
    } else if au == "DISABLE-LINE"@ {
        assert(!action_enables(au));
        let own = fm + li + 1;
        let t = toggled(pl[own], au, d.1);
        assert(r == pl.update(own, t));
        assert(r[own] == t);
    } else {
        assert(r == pl);
    }
}

/// In the enabled state of the document's lines, a rule named by a
/// `disable-next-line` directive is off on the line after the directive's
/// line, and one named by a `disable-line` directive is off on the
/// directive's own line, whatever the other directives of the document.
pub proof fn law_disable_line_document(cfg: ResolvedConfig, lines: Seq<Seq<char>>, fm: int, li: int, j: int, q: int)
    requires
        0 <= fm,
        0 <= li < lines.len(),
        0 <= j < spec_scan_inline(lines[li]).len(),
        0 <= q < rule_count(),
        named_by(directive_items(spec_scan_inline(lines[li])[j].1), spec_all_rules()[q]),
    ensures
        str_to_uppercase(spec_scan_inline(lines[li])[j].0) == "DISABLE-NEXT-LINE"@ && li + 1 < lines.len()
            ==> !spec_enabled_per_line(cfg, lines, fm)[fm + li + 2][q],
        str_to_uppercase(spec_scan_inline(lines[li])[j].0) == "DISABLE-LINE"@
            ==> !spec_enabled_per_line(cfg, lines, fm)[fm + li + 1][q],
{
    let pl0 = pass2_states(cfg, lines, fm);
    let ds = spec_scan_inline(lines[li]);
    let d = ds[j];
    let au = str_to_uppercase(d.0);
    let a = pass3_states(pl0, lines, fm, li);
    let b = fold_pass3(a, ds, fm, li, j);
    let c = fold_pass3(a, ds, fm, li, j + 1);
    let dd = pass3_states(pl0, lines, fm, li + 1);
    let e = spec_enabled_per_line(cfg, lines, fm);
    reveal_strlit("DISABLE-LINE");
    reveal_strlit("DISABLE-NEXT-LINE");
    assert("DISABLE-LINE"@.len() != "DISABLE-NEXT-LINE"@.len());
    assert(pl0.len() == fm + 1 + lines.len());
    lemma_pass3_states_off(pl0, lines, fm, 0, li);
    lemma_fold_pass3_off(a, ds, fm, li, 0, j);
    lemma_stays_off_trans(pl0, a, b);
    lemma_fold_pass3_off(a, ds, fm, li, j + 1, ds.len() as int);
    lemma_pass3_states_off(pl0, lines, fm, li + 1, lines.len() as int);
    lemma_stays_off_trans(c, dd, e);
    let x = if au == "DISABLE-NEXT-LINE"@ {
        fm + li + 2
    } else {
        fm + li + 1
    };
    if (au == "DISABLE-NEXT-LINE"@ && li + 1 < lines.len()) || au == "DISABLE-LINE"@ {
        lemma_pass2_lens(cfg, lines, fm, x);
        assert(b[x].len() == rule_count());
        law_disable_line_targets(b, d, fm, li);
        assert(!c[x][q]);
        assert(!e[x][q]);
    }
}

/// No fix of `s` comes (by the order of applying) before one that
/// precedes it.
spec fn apply_ordered(s: Seq<NormV>) -> bool {
    forall|i: int, j: int| 0 <= i < j < s.len() ==> !(spec_order(#[trigger] s[j], #[trigger] s[i]) is Before)
}

proof fn lemma_order_strict(a: NormV, b: NormV, c: NormV)
    ensures
        !(spec_order(a, a) is Before),
        spec_order(a, b) is Before && spec_order(b, c) is Before ==> spec_order(a, c) is Before,
{
}

/// Where `insert_pos` puts `x`: after every fix that `x` does not come
/// before, and before the fix there.
proof fn lemma_insert_pos(s: Seq<NormV>, x: NormV, p: int)
    requires
        0 <= p <= s.len(),
        forall|i: int| 0 <= i < p ==> !(spec_order(x, #[trigger] s[i]) is Before),
    ensures
        p <= insert_pos(s, x, p) <= s.len(),
        forall|i: int| 0 <= i < insert_pos(s, x, p) ==> !(spec_order(x, #[trigger] s[i]) is Before),
        insert_pos(s, x, p) < s.len() ==> spec_order(x, s[insert_pos(s, x, p)]) is Before,
    decreases s.len() - p,
{
    if p < s.len() && !(spec_order(x, s[p]) is Before) {
        lemma_insert_pos(s, x, p + 1);
    }
}

proof fn lemma_sorted_fixes_ordered(fixes: Seq<(usize, FixInfo)>, k: int)
    ensures
        apply_ordered(sorted_fixes(fixes, k)),
    decreases k,
{
    if k > 0 {
        lemma_sorted_fixes_ordered(fixes, k - 1);
        let s = sorted_fixes(fixes, k - 1);
        let x = spec_normalize(fixes[k - 1].1, fixes[k - 1].0 as int);
        lemma_insert_pos(s, x, 0);
        let p = insert_pos(s, x, 0);
        s.insert_ensures(p, x);
        let t = s.insert(p, x);
        assert forall|i: int, j: int| 0 <= i < j < t.len() implies !(spec_order(#[trigger] t[j], #[trigger] t[i]) is Before) by {
            if j < p {
                assert(t[i] == s[i] && t[j] == s[j]);
            } else if j == p {
                assert(t[i] == s[i]);
            } else if i > p {
                assert(t[i] == s[i - 1] && t[j] == s[j - 1]);
            } else if i == p {
                assert(t[j] == s[j - 1]);
                lemma_order_strict(s[j - 1], x, s[p]);
                if j - 1 > p {
                    assert(!(spec_order(s[j - 1], s[p]) is Before));
                } else {
                    lemma_order_strict(s[p], x, s[p]);
                }
            } else {
                assert(t[i] == s[i] && t[j] == s[j - 1]);
            }
        }
    }
}

/// Fixes on one line are applied from the rightmost column to the
/// leftmost: a fix of a line (not one that deletes the line) comes before
/// another of the same line exactly when its column is further right, or,
/// at the same column, when it inserts more.
pub proof fn law_fix_order_right_to_left(a: NormV, b: NormV)
    requires
        a.line_number == b.line_number,
        a.delete_count != -1,
        b.delete_count != -1,
    ensures
        a.edit_column > b.edit_column ==> spec_order(a, b) is Before,
        a.edit_column < b.edit_column ==> spec_order(a, b) is After,
        a.edit_column == b.edit_column && a.insert_text.len() > b.insert_text.len() ==> spec_order(a, b) is Before,
{
}

/// Once sorted for applying, the fixes come from the last line of the
/// document to the first, and on one line from the rightmost column to the
/// leftmost, a deletion of the whole line after the line's other fixes.
pub proof fn law_sorted_fixes_right_to_left(fixes: Seq<(usize, FixInfo)>, i: int, j: int)
    requires
        0 <= i < j < sorted_fixes(fixes, fixes.len() as int).len(),
    ensures
        ({
            let s = sorted_fixes(fixes, fixes.len() as int);
            &&& s[i].line_number >= s[j].line_number
            &&& s[i].line_number == s[j].line_number && s[i].delete_count != -1 && s[j].delete_count != -1
                ==> s[i].edit_column >= s[j].edit_column
            &&& s[i].line_number == s[j].line_number && s[i].delete_count == -1 ==> s[j].delete_count == -1
        }),
{
    lemma_sorted_fixes_ordered(fixes, fixes.len() as int);
    let s = sorted_fixes(fixes, fixes.len() as int);
    assert(!(spec_order(s[j], s[i]) is Before));
}

/// A line after the first `k` fixes of `fs`, each applied in turn.
pub open spec fn applied_each(line: Option<Seq<char>>, fs: Seq<NormV>, ending: Seq<char>, k: int) -> Option<Seq<char>>
    decreases k,
{
    if k <= 0 {
        line
    } else {
        match applied_each(line, fs, ending, k - 1) {
            Some(cur) => spec_apply_fix_v(cur, fs[k - 1], ending),
            None => None,
        }
    }
}

/// Fixes of one line taken from the rightmost to the leftmost, none
/// reaching into the one before it, are all applied: the line becomes what
/// applying them one by one gives, and no other line changes.
pub proof fn law_fixes_on_one_line_all_applied(st: ApplyState, fs: Seq<NormV>, ending: Seq<char>, l: int, k: int)
    requires
        0 <= l < st.lines.len(),
        st.lines[l] is Some,
        st.last_line != l,
        0 <= k <= fs.len(),
        forall|i: int| 0 <= i < k ==> (#[trigger] fs[i]).line_number == l + 1 && fs[i].delete_count >= 0,
        forall|i: int|
            1 <= i < k ==> (#[trigger] fs[i]).edit_column - 1 + fs[i].delete_count <= fs[i - 1].edit_column - 1 - if fs[i].delete_count
                > 0 {
                0int
            } else {
                1int
            },
    ensures
        apply_upto(st, fs, ending, k).lines == st.lines.update(l, applied_each(st.lines[l], fs, ending, k)),
        applied_each(st.lines[l], fs, ending, k) is Some,
        k > 0 ==> apply_upto(st, fs, ending, k).last_line == l,
        k > 0 ==> apply_upto(st, fs, ending, k).last_edit == fs[k - 1].edit_column - 1,
    decreases k,
{
    if k == 0 {
        assert(st.lines.update(l, st.lines[l]) =~= st.lines);
    } else {
        law_fixes_on_one_line_all_applied(st, fs, ending, l, k - 1);
        let prev = apply_upto(st, fs, ending, k - 1);
        let fi = fs[k - 1];
        assert(fi.line_number == l + 1 && fi.delete_count >= 0);
        if k > 1 {
            assert(fs[k - 1].edit_column - 1 + fs[k - 1].delete_count <= fs[k - 2].edit_column - 1 - if fs[k - 1].delete_count > 0 {
                0int
            } else {
                1int
            });
        }
        assert(prev.lines[l] == applied_each(st.lines[l], fs, ending, k - 1));
        assert(apply_upto(st, fs, ending, k).lines =~= st.lines.update(l, applied_each(st.lines[l], fs, ending, k)));
    }
}

} // verus!
