//! MD004 — ul-style: unordered list marker style.

use vstd::prelude::*;

use super::RuleError;

use crate::config::names_view;
use crate::md::kind::Kind;
use crate::md::tokens::{Token, ancestor_of_type, filter_idx_upto, lemma_ancestor_before, walk_path};
use super::md003::{is_text, opt_text_or, opt_text_or_spec};
use super::options::OptValue;
use super::{
    Emit, FixInfo, FixV, Params, Report, appended, detail_text, lemma_appended_refl, lemma_reports_concat,
    lemma_reports_push, lemma_reports_start, params_ok, report_of, reports_are,
};

verus! {

/// The style of a list marker: `dash`, `plus` or `asterisk`.
pub open spec fn spec_marker_style(m: Seq<char>) -> Seq<char> {
    if m.len() == 1 && m[0] == '-' {
        "dash"@
    } else if m.len() == 1 && m[0] == '+' {
        "plus"@
    } else {
        "asterisk"@
    }
}

/// The marker of a style.
pub open spec fn spec_style_marker(s: Seq<char>) -> Seq<char> {
    if s == "dash"@ {
        "-"@
    } else if s == "plus"@ {
        "+"@
    } else {
        "*"@
    }
}

/// Another style than `s`, for alternating sublists.
pub open spec fn spec_other_style(s: Seq<char>) -> Seq<char> {
    if s == "dash"@ {
        "plus"@
    } else if s == "plus"@ {
        "asterisk"@
    } else {
        "dash"@
    }
}

/// The number of lists around token `cur`.
pub open spec fn list_depth(tokens: Seq<Token>, cur: int) -> nat
    decreases cur,
{
    match ancestor_of_type(tokens, cur, seq![Kind::ListOrdered, Kind::ListUnordered]) {
        Some(q) => {
            proof {
                lemma_ancestor_before(tokens, cur, seq![Kind::ListOrdered, Kind::ListUnordered]);
            }
            if cur > q {
                list_depth(tokens, q as int) + 1
            } else {
                0
            }
        },
        None => 0,
    }
}

/// The unordered lists.
pub open spec fn ul_ids(tokens: Seq<Token>) -> Seq<usize> {
    filter_idx_upto(tokens, seq![Kind::ListUnordered], tokens.len() as int)
}

/// The markers of the `c`-th unordered list.
pub open spec fn ul_markers(tokens: Seq<Token>, c: int) -> Seq<usize> {
    walk_path(tokens, seq![ul_ids(tokens)[c]], seq![seq![Kind::ListItemPrefix], seq![Kind::ListItemMarker]], 2)
}

/// The configured style, `dash` when it is not one MD004 knows.
pub open spec fn md004_setting(cfg: Seq<(Vec<char>, OptValue)>) -> Seq<char> {
    let s = opt_text_or_spec(cfg, "style"@, "consistent"@);
    if s == "asterisk"@ || s == "consistent"@ || s == "dash"@ || s == "plus"@ || s == "sublist"@ {
        s
    } else {
        "dash"@
    }
}

/// What MD004 remembers: the style expected, and (for `sublist`) the
/// style of each nesting level met.
pub struct Md004St {
    pub expected: Seq<char>,
    pub styles: Seq<Seq<char>>,
}

/// `styles` long enough to have level `nesting`.
pub open spec fn styles_to(styles: Seq<Seq<char>>, nesting: int) -> Seq<Seq<char>> {
    if styles.len() <= nesting {
        styles + Seq::new((nesting + 1 - styles.len()) as nat, |i: int| Seq::<char>::empty())
    } else {
        styles
    }
}

/// One marker of a list at `nesting` met.
pub open spec fn md004_step(st: Md004St, sublist: bool, nesting: int, item: Seq<char>) -> Md004St {
    if sublist {
        let empty_here = nesting >= st.styles.len() || st.styles[nesting].len() == 0;
        let styles = if empty_here {
            let prev = if nesting > 0 && nesting - 1 < st.styles.len() {
                st.styles[nesting - 1]
            } else {
                Seq::empty()
            };
            let val = if item == prev {
                spec_other_style(item)
            } else {
                item
            };
            styles_to(st.styles, nesting).update(nesting, val)
        } else {
            st.styles
        };
        Md004St { expected: if nesting < styles.len() { styles[nesting] } else { st.expected }, styles }
    } else if st.expected == "consistent"@ {
        Md004St { expected: item, styles: st.styles }
    } else {
        st
    }
}

/// The state before the `c`-th unordered list.
pub open spec fn md004_before(tokens: Seq<Token>, cfg: Seq<(Vec<char>, OptValue)>, c: int) -> Md004St
    decreases c, 0int,
{
    if c <= 0 {
        Md004St { expected: md004_setting(cfg), styles: Seq::empty() }
    } else {
        md004_after(tokens, cfg, c - 1, ul_markers(tokens, c - 1).len() as int)
    }
}

/// The state after the first `k` markers of the `c`-th unordered list.
pub open spec fn md004_after(tokens: Seq<Token>, cfg: Seq<(Vec<char>, OptValue)>, c: int, k: int) -> Md004St
    decreases c, (if k <= 0 { 1int } else { k + 1 }),
{
    if k <= 0 {
        md004_before(tokens, cfg, c)
    } else {
        let st = md004_after(tokens, cfg, c, k - 1);
        let sublist = opt_text_or_spec(cfg, "style"@, "consistent"@) == "sublist"@;
        let nesting = if sublist {
            list_depth(tokens, ul_ids(tokens)[c] as int) as int
        } else {
            0
        };
        let m = tokens[ul_markers(tokens, c)[k - 1] as int];
        md004_step(st, sublist, nesting, spec_marker_style(m.text@))
    }
}

/// The problem for the `k`-th marker of the `c`-th unordered list, if any.
pub open spec fn md004_item(tokens: Seq<Token>, cfg: Seq<(Vec<char>, OptValue)>, n: int, c: int, k: int) -> Option<
    Report,
> {
    let m = tokens[ul_markers(tokens, c)[k] as int];
    let expected = md004_after(tokens, cfg, c, k + 1).expected;
    let item = spec_marker_style(m.text@);
    if m.end_column >= m.start_column && 1 <= m.start_line <= n && expected != item {
        Some(
            Report {
                line: m.start_line,
                detail: Some(detail_text(expected, item, None)),
                context: None,
                range: Some((m.start_column, (m.end_column - m.start_column) as usize)),
                fix: Some(
                    FixV {
                        line_number: None,
                        edit_column: Some(m.start_column),
                        delete_count: Some((m.end_column - m.start_column) as i64),
                        insert_text: Some(spec_style_marker(expected)),
                    },
                ),
            },
        )
    } else {
        None
    }
}

/// The problems for the first `k` markers of the `c`-th unordered list.
pub open spec fn md004_items(tokens: Seq<Token>, cfg: Seq<(Vec<char>, OptValue)>, n: int, c: int, k: int) -> Seq<
    Report,
>
    decreases k,
{
    if k <= 0 {
        Seq::empty()
    } else {
        let prev = md004_items(tokens, cfg, n, c, k - 1);
        match md004_item(tokens, cfg, n, c, k - 1) {
            Some(r) => prev.push(r),
            None => prev,
        }
    }
}

/// The problems for the first `c` unordered lists.
pub open spec fn md004_upto(tokens: Seq<Token>, cfg: Seq<(Vec<char>, OptValue)>, n: int, c: int) -> Seq<Report>
    decreases c,
{
    if c <= 0 {
        Seq::empty()
    } else {
        md004_upto(tokens, cfg, n, c - 1) + md004_items(tokens, cfg, n, c - 1, ul_markers(tokens, c - 1).len() as int)
    }
}

/// The style of a list marker: `dash`, `plus` or `asterisk`.
fn marker_to_style(marker: &[char]) -> (r: Vec<char>)
    ensures
        r@ == spec_marker_style(marker@),
{
    if marker.len() == 1 && marker[0] == '-' {
        super::lit("dash")
    } else if marker.len() == 1 && marker[0] == '+' {
        super::lit("plus")
    } else {
        super::lit("asterisk")
    }
}

/// The marker of a style.
fn style_to_marker(style: &[char]) -> (r: Vec<char>)
    ensures
        r@ == spec_style_marker(style@),
{
    if is_text(style, "dash") {
        super::lit("-")
    } else if is_text(style, "plus") {
        super::lit("+")
    } else {
        super::lit("*")
    }
}

/// Another style than `style`, for alternating sublists.
fn different_item_style(style: &[char]) -> (r: Vec<char>)
    ensures
        r@ == spec_other_style(style@),
{
    if is_text(style, "dash") {
        super::lit("plus")
    } else if is_text(style, "plus") {
        super::lit("asterisk")
    } else {
        super::lit("dash")
    }
}

fn copy(v: &[char]) -> (r: Vec<char>)
    ensures
        r@ == v@,
{
    let r = crate::text::slice_vec(v, 0, v.len());
    proof {
        assert(r@ =~= v@);
    }
    r
}

/// What `md004` reports: the problems it appends to `old_errors`.
pub open spec fn md004_reported(p: &Params, old_errors: Seq<RuleError>, new_errors: Seq<RuleError>) -> bool {
    reports_are(
        old_errors,
        new_errors,
        md004_upto(p.tree.tokens@, p.config.entries@, p.lines@.len() as int, ul_ids(p.tree.tokens@).len() as int),
    )
}

/// Report list markers of another style than the configured one (the
/// first one's for `consistent`; for `sublist`, each nesting level
/// differs from its parent). The fix writes the expected marker.
pub fn md004(p: &Params, emit: &mut Emit)
    requires
        params_ok(p),
    ensures
        appended(old(emit).errors@, final(emit).errors@, p.lines@.len() as int),
        md004_reported(p, old(emit).errors@, final(emit).errors@),
{
    let style = opt_text_or(p.config, "style", "consistent");
    let sublist = is_text(&style, "sublist");
    let valid = is_text(&style, "asterisk") || is_text(&style, "consistent") || is_text(&style, "dash")
        || is_text(&style, "plus") || sublist;
    let mut expected_style = if valid {
        copy(&style)
    } else {
        super::lit("dash")
    };
    let tree = p.tree;
    let n = p.lines.len();
    let ghost tk = tree.tokens@;
    let ghost cfg = p.config.entries@;
    let mut nesting_styles: Vec<Vec<char>> = Vec::new();
    let kinds: [Kind; 1] = [Kind::ListUnordered];
    let lk: [Kind; 2] = [Kind::ListOrdered, Kind::ListUnordered];
    let pk: [Kind; 1] = [Kind::ListItemPrefix];
    let mk: [Kind; 1] = [Kind::ListItemMarker];
    let path: [&[Kind]; 2] = [&pk, &mk];
    proof {
        assert(kinds@ =~= seq![Kind::ListUnordered]);
        assert(lk@ =~= seq![Kind::ListOrdered, Kind::ListUnordered]);
        assert(pk@ =~= seq![Kind::ListItemPrefix]);
        assert(mk@ =~= seq![Kind::ListItemMarker]);
        assert(crate::md::tokens::kind_path(path@) =~= seq![seq![Kind::ListItemPrefix], seq![Kind::ListItemMarker]]);
        assert(names_view(nesting_styles@) =~= Seq::<Seq<char>>::empty());
    }
    let lists = tree.filter_idx(&kinds);
    let ghost e0 = emit.errors@;
    proof {
        lemma_appended_refl(e0, n as int);
        lemma_reports_start(e0);
    }
    let mut c: usize = 0;
    while c < lists.len()
        invariant
            c <= lists@.len(),
            params_ok(p),
            tree == p.tree,
            tk == tree.tokens@,
            cfg == p.config.entries@,
            n == p.lines@.len(),
            lists@ == ul_ids(tk),
            sublist == (opt_text_or_spec(cfg, "style"@, "consistent"@) == "sublist"@),
            lk@ == seq![Kind::ListOrdered, Kind::ListUnordered],
            path@.len() == 2,
            crate::md::tokens::kind_path(path@) == seq![seq![Kind::ListItemPrefix], seq![Kind::ListItemMarker]],
            (Md004St { expected: expected_style@, styles: names_view(nesting_styles@) }) == md004_before(tk, cfg, c as int),
            forall|k: int| 0 <= k < lists@.len() ==> #[trigger] lists@[k] < tree.tokens@.len(),
            appended(e0, emit.errors@, n as int),
            reports_are(e0, emit.errors@, md004_upto(tk, cfg, n as int, c as int)),
        decreases lists@.len() - c,
    {
        let list = lists[c];
        let ghost mid = emit.errors@;
        proof {
            lemma_reports_start(mid);
        }
        let total = tree.tokens.len();
        let mut nesting: usize = 0;
        if sublist {
            let mut cur = list;
            let mut done = false;
            while !done
                invariant
                    tree.wf(),
                    tk == tree.tokens@,
                    lk@ == seq![Kind::ListOrdered, Kind::ListUnordered],
                    cur < tree.tokens@.len(),
                    total == tree.tokens@.len(),
                    nesting + cur + 1 <= total,
                    !done ==> list_depth(tk, list as int) == nesting + list_depth(tk, cur as int),
                    done ==> list_depth(tk, list as int) == nesting,
                decreases cur + (if done { 0int } else { 1int }),
            {
                let anc = tree.parent_of_type(cur, &lk);
                let ghost cur0 = cur as int;
                proof {
                    lemma_ancestor_before(tk, cur0, seq![Kind::ListOrdered, Kind::ListUnordered]);
                }
                match anc {
                    Some(q) => {
                        proof {
                            assert(list_depth(tk, cur0) == list_depth(tk, q as int) + 1);
                        }
                        nesting += 1;
                        cur = q;
                    },
                    None => {
                        proof {
                            assert(list_depth(tk, cur0) == 0);
                        }
                        done = true;
                    },
                }
            }
        }
        let ghost nest = if sublist { list_depth(tk, list as int) as int } else { 0int };
        let markers = tree.descendants_by_type(list, &path);
        proof {
            assert(markers@ == ul_markers(tk, c as int));
        }
        let mut k: usize = 0;
        while k < markers.len()
            invariant
                k <= markers@.len(),
                params_ok(p),
                tree == p.tree,
                tk == tree.tokens@,
                cfg == p.config.entries@,
                n == p.lines@.len(),
                markers@ == ul_markers(tk, c as int),
                sublist == (opt_text_or_spec(cfg, "style"@, "consistent"@) == "sublist"@),
                nest == nesting as int,
                nest == (if sublist { list_depth(tk, ul_ids(tk)[c as int] as int) as int } else { 0int }),
                lists@ == ul_ids(tk),
                c < lists@.len(),
                nesting < total,
                total == tree.tokens@.len(),
                (Md004St { expected: expected_style@, styles: names_view(nesting_styles@) }) == md004_after(tk, cfg, c as int, k as int),
                forall|q: int| 0 <= q < markers@.len() ==> #[trigger] markers@[q] < tree.tokens@.len(),
                appended(e0, emit.errors@, n as int),
                reports_are(mid, emit.errors@, md004_items(tk, cfg, n as int, c as int, k as int)),
            decreases markers@.len() - k,
        {
            let mtok = tree.get(markers[k]);
            let ghost m2 = emit.errors@;
            let ghost st = Md004St { expected: expected_style@, styles: names_view(nesting_styles@) };
            let item_style = marker_to_style(&mtok.text);
            if sublist {
                let empty_here = nesting >= nesting_styles.len() || nesting_styles[nesting].len() == 0;
                if empty_here {
                    let prev = if nesting > 0 && nesting - 1 < nesting_styles.len() {
                        copy(&nesting_styles[nesting - 1])
                    } else {
                        Vec::new()
                    };
                    let val = if super::slice_eq(&item_style, &prev) {
                        different_item_style(&item_style)
                    } else {
                        copy(&item_style)
                    };
                    let ghost s0 = names_view(nesting_styles@);
                    while nesting_styles.len() <= nesting
                        invariant
                            nesting < total,
                            s0.len() <= names_view(nesting_styles@).len(),
                            names_view(nesting_styles@).len() <= nesting + 1 || names_view(nesting_styles@) == s0,
                            names_view(nesting_styles@) == s0 + Seq::new(
                                (names_view(nesting_styles@).len() - s0.len()) as nat,
                                |i: int| Seq::<char>::empty(),
                            ),
                        decreases nesting + 1 - nesting_styles@.len(),
                    {
                        let ghost before = names_view(nesting_styles@);
                        nesting_styles.push(Vec::new());
                        proof {
                            let now = names_view(nesting_styles@);
                            let want = s0 + Seq::new((now.len() - s0.len()) as nat, |i: int| Seq::<char>::empty());
                            assert(now.len() == before.len() + 1);
                            assert forall|q: int| 0 <= q < now.len() implies #[trigger] now[q] == want[q] by {
                                if q < before.len() {
                                    assert(now[q] == nesting_styles@[q]@);
                                    assert(before[q] == now[q]);
                                } else {
                                    assert(now[q] == nesting_styles@[q]@);
                                    assert(now[q] =~= Seq::<char>::empty());
                                }
                            }
                            assert(now =~= want);
                        }
                    }
                    proof {
                        assert(names_view(nesting_styles@) =~= styles_to(s0, nesting as int));
                    }
                    let ghost s1 = names_view(nesting_styles@);
                    nesting_styles.set(nesting, val);
                    proof {
                        assert(names_view(nesting_styles@) =~= s1.update(nesting as int, val@));
                    }
                }
                if nesting < nesting_styles.len() {
                    expected_style = copy(&nesting_styles[nesting]);
                    proof {
                        assert(names_view(nesting_styles@)[nesting as int] == nesting_styles@[nesting as int]@);
                    }
                }
            } else if is_text(&expected_style, "consistent") {
                expected_style = copy(&item_style);
            }
            proof {
                assert(md004_step(st, sublist, nest, item_style@) == md004_after(tk, cfg, c as int, k + 1));
                assert((Md004St { expected: expected_style@, styles: names_view(nesting_styles@) }) == md004_after(tk, cfg, c as int, k + 1));
            }
            if mtok.end_column >= mtok.start_column {
                let column = mtok.start_column;
                let length = mtok.end_column - mtok.start_column;
                let ins = style_to_marker(&expected_style);
                emit.add_detail_if_checked(
                    n,
                    mtok.start_line,
                    &expected_style,
                    &item_style,
                    None,
                    None,
                    Some((column, length)),
                    Some(
                        FixInfo {
                            line_number: None,
                            edit_column: Some(column),
                            delete_count: Some(length as i64),
                            insert_text: Some(ins),
                        },
                    ),
                );
            }
            proof {
                if emit.errors@ != m2 {
                    lemma_reports_push(mid, m2, md004_items(tk, cfg, n as int, c as int, k as int), emit.errors@.last());
                    assert(report_of(emit.errors@.last()) == md004_item(tk, cfg, n as int, c as int, k as int)->0);
                } else {
                    assert(md004_item(tk, cfg, n as int, c as int, k as int) is None);
                }
            }
            k += 1;
        }
        proof {
            lemma_reports_concat(e0, mid, emit.errors@, md004_upto(tk, cfg, n as int, c as int), md004_items(tk, cfg, n as int, c as int, markers@.len() as int));
        }
        c += 1;
    }
}

} // verus!
