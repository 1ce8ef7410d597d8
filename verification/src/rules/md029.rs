//! MD029 — ol-prefix: ordered list item numbering.

use vstd::prelude::*;

use super::RuleError;

use crate::md::kind::Kind;
use crate::md::tokens::{Token, Tree, filter_idx_upto, walk_path};
use super::md003::{is_text, opt_text_or, opt_text_or_spec};
use super::md030::children_kind;
use super::options::OptValue;
use super::{
    Emit, FixInfo, FixV, Params, Report, appended, detail_text, int_text, lemma_appended_refl,
    lemma_reports_concat, lemma_reports_push, lemma_reports_start, params_ok, report_of, reports_are,
    spec_int_text,
};

verus! {

/// The digits of `s` from `i` on, read onto `v` (negatively when `neg`);
/// `None` at a non-digit or once the value leaves `i64`.
pub open spec fn read_digits(s: Seq<char>, neg: bool, i: int, v: int) -> Option<int>
    decreases s.len() - i,
{
    if i < 0 || i >= s.len() {
        Some(v)
    } else if !('0' <= s[i] && s[i] <= '9') {
        None
    } else {
        let d = s[i] as int - '0' as int;
        let x = if neg {
            v * 10 - d
        } else {
            v * 10 + d
        };
        if x < i64::MIN || x > i64::MAX {
            None
        } else {
            read_digits(s, neg, i + 1, x)
        }
    }
}

/// The value of a decimal numeral with an optional sign, as
/// `str::parse::<i64>` reads it; 0 when it is not one or does not fit.
pub open spec fn spec_parse_i64(s: Seq<char>) -> int {
    if s.len() == 0 {
        0
    } else {
        let start = if s[0] == '-' || s[0] == '+' {
            1int
        } else {
            0
        };
        if start == s.len() {
            0
        } else {
            match read_digits(s, s[0] == '-', start, 0) {
                Some(v) => v,
                None => 0,
            }
        }
    }
}

/// The value of a decimal numeral of optional sign and digits, as
/// `str::parse::<i64>` reads it; 0 when it is not one or does not fit.
pub fn parse_i64(s: &[char]) -> (r: i64)
    ensures
        r as int == spec_parse_i64(s@),
{
    let n = s.len();
    if n == 0 {
        return 0;
    }
    let neg = s[0] == '-';
    let start: usize = if s[0] == '-' || s[0] == '+' {
        1
    } else {
        0
    };
    if start == n {
        return 0;
    }
    let mut v: i64 = 0;
    let mut i = start;
    while i < n
        invariant
            start <= i <= n,
            n == s@.len(),
            neg == (s@[0] == '-'),
            start < n,
            start as int == (if s@[0] == '-' || s@[0] == '+' {
                1int
            } else {
                0
            }),
            read_digits(s@, neg, i as int, v as int) == read_digits(s@, neg, start as int, 0),
            neg ==> v <= 0,
            !neg ==> v >= 0,
        decreases n - i,
    {
        let c = s[i];
        if !('0' <= c && c <= '9') {
            proof {
                assert(read_digits(s@, neg, i as int, v as int) is None);
            }
            return 0;
        }
        let d = (c as u32 - '0' as u32) as i64;
        proof {
            assert(d as int == s@[i as int] as int - '0' as int);
        }
        let next = match v.checked_mul(10) {
            Some(m) => if neg {
                m.checked_sub(d)
            } else {
                m.checked_add(d)
            },
            None => None,
        };
        match next {
            Some(x) => v = x,
            None => {
                proof {
                    let x = if neg {
                        v * 10 - d
                    } else {
                        v * 10 + d
                    };
                    assert(x < i64::MIN || x > i64::MAX);
                    assert(read_digits(s@, neg, i as int, v as int) is None);
                }
                return 0;
            },
        }
        i += 1;
    }
    v
}

/// The column and value of a list item's number (the item's own column and
/// 0 when it has none).
pub open spec fn spec_item_value(tokens: Seq<Token>, prefix: int) -> (usize, int) {
    let v = walk_path(tokens, seq![prefix as usize], seq![seq![Kind::ListItemValue]], 1);
    if v.len() > 0 {
        (tokens[v[0] as int].start_column, spec_parse_i64(tokens[v[0] as int].text@))
    } else {
        (tokens[prefix].start_column, 0)
    }
}

/// The ordered lists.
pub open spec fn ordered_list_ids(tokens: Seq<Token>) -> Seq<usize> {
    filter_idx_upto(tokens, seq![Kind::ListOrdered], tokens.len() as int)
}

/// The configured style, when it is `one`, `ordered` or `zero`.
pub open spec fn md029_valid(style: Seq<char>) -> bool {
    style == "one"@ || style == "ordered"@ || style == "zero"@
}

/// Whether the first two items of a list (prefixes `ps`) suggest
/// incrementing numbers: the second is not 1, or the first is 0.
pub open spec fn md029_incrementing(tokens: Seq<Token>, ps: Seq<usize>) -> bool {
    ps.len() >= 2 && (spec_item_value(tokens, ps[1] as int).1 != 1 || spec_item_value(tokens, ps[0] as int).1 == 0)
}

/// The style of a list: the configured one, else `ordered` or `one` as
/// its first items suggest.
pub open spec fn md029_list_style(tokens: Seq<Token>, style: Seq<char>, ps: Seq<usize>) -> Seq<char> {
    if md029_valid(style) {
        style
    } else if md029_incrementing(tokens, ps) {
        "ordered"@
    } else {
        "one"@
    }
}

/// The number of the first item: 0 for `zero`, 1 for `one`; else 0 when
/// the list counts up from 0, or 1.
pub open spec fn md029_first(tokens: Seq<Token>, style: Seq<char>, ps: Seq<usize>) -> int {
    let ls = md029_list_style(tokens, style, ps);
    if ls == "zero"@ {
        0
    } else if ls == "one"@ {
        1
    } else if md029_incrementing(tokens, ps) && spec_item_value(tokens, ps[0] as int).1 == 0 {
        0
    } else {
        1
    }
}

/// The number expected of the `k`-th item.
pub open spec fn md029_expected(tokens: Seq<Token>, style: Seq<char>, ps: Seq<usize>, k: int) -> int {
    let e0 = md029_first(tokens, style, ps);
    if md029_list_style(tokens, style, ps) == "ordered"@ {
        if e0 + k > i64::MAX {
            i64::MAX as int
        } else {
            e0 + k
        }
    } else {
        e0
    }
}

/// The example shown for a list style.
pub open spec fn md029_example(ls: Seq<char>) -> Seq<char> {
    if ls == "one"@ {
        "1/1/1"@
    } else if ls == "ordered"@ {
        "1/2/3"@
    } else if ls == "zero"@ {
        "0/0/0"@
    } else {
        Seq::empty()
    }
}

/// The problem for the `k`-th item of a list, numbered otherwise than
/// expected.
pub open spec fn md029_report(tokens: Seq<Token>, style: Seq<char>, ps: Seq<usize>, k: int) -> Report {
    let pt = tokens[ps[k] as int];
    let (column, actual) = spec_item_value(tokens, ps[k] as int);
    let expected = md029_expected(tokens, style, ps, k);
    Report {
        line: pt.start_line,
        detail: Some(
            detail_text(
                spec_int_text(expected),
                spec_int_text(actual),
                Some("Style: "@ + md029_example(md029_list_style(tokens, style, ps))),
            ),
        ),
        context: None,
        range: Some(
            (pt.start_column, if pt.end_column >= pt.start_column {
                (pt.end_column - pt.start_column) as usize
            } else {
                0
            }),
        ),
        fix: Some(
            FixV {
                line_number: None,
                edit_column: Some(column),
                delete_count: Some(spec_int_text(actual).len() as i64),
                insert_text: Some(spec_int_text(expected)),
            },
        ),
    }
}

/// The problems for the first `k` items (prefixes `ps`) of a list.
pub open spec fn md029_items(tokens: Seq<Token>, style: Seq<char>, n: int, ps: Seq<usize>, k: int) -> Seq<Report>
    decreases k,
{
    if k <= 0 {
        Seq::empty()
    } else {
        let prev = md029_items(tokens, style, n, ps, k - 1);
        let pt = tokens[ps[k - 1] as int];
        if 1 <= pt.start_line <= n && spec_int_text(md029_expected(tokens, style, ps, k - 1)) != spec_int_text(
            spec_item_value(tokens, ps[k - 1] as int).1,
        ) {
            prev.push(md029_report(tokens, style, ps, k - 1))
        } else {
            prev
        }
    }
}

/// The problems for the first `c` ordered lists.
pub open spec fn md029_upto(tokens: Seq<Token>, style: Seq<char>, n: int, c: int) -> Seq<Report>
    decreases c,
{
    if c <= 0 {
        Seq::empty()
    } else {
        let ps = children_kind(tokens, ordered_list_ids(tokens)[c - 1] as int, Kind::ListItemPrefix);
        md029_upto(tokens, style, n, c - 1) + md029_items(tokens, style, n, ps, ps.len() as int)
    }
}

/// The column and value of a list item's number (the item's own column and
/// 0 when it has none).
fn item_value(tree: &Tree, prefix: usize) -> (r: (usize, i64))
    requires
        tree.wf(),
        prefix < tree.tokens@.len(),
    ensures
        (r.0, r.1 as int) == spec_item_value(tree.tokens@, prefix as int),
{
    let vk: [Kind; 1] = [Kind::ListItemValue];
    let path: [&[Kind]; 1] = [&vk];
    proof {
        assert(vk@ =~= seq![Kind::ListItemValue]);
        assert(crate::md::tokens::kind_path(path@) =~= seq![seq![Kind::ListItemValue]]);
    }
    let v = tree.descendants_by_type(prefix, &path);
    if v.len() > 0 {
        let vt = tree.get(v[0]);
        (vt.start_column, parse_i64(&vt.text))
    } else {
        (tree.get(prefix).start_column, 0)
    }
}

/// What `md029` reports: the problems it appends to `old_errors`.
pub open spec fn md029_reported(p: &Params, old_errors: Seq<RuleError>, new_errors: Seq<RuleError>) -> bool {
    reports_are(
        old_errors,
        new_errors,
        md029_upto(
            p.tree.tokens@,
            opt_text_or_spec(p.config.entries@, "style"@, ""@),
            p.lines@.len() as int,
            ordered_list_ids(p.tree.tokens@).len() as int,
        ),
    )
}

/// Report ordered list items numbered against the style: `one` (all 1),
/// `zero` (all 0), `ordered` (incrementing), or, for `one_or_ordered`,
/// whichever the first two items suggest. The fix writes the expected
/// number.
pub fn md029(p: &Params, emit: &mut Emit)
    requires
        params_ok(p),
    ensures
        appended(old(emit).errors@, final(emit).errors@, p.lines@.len() as int),
        md029_reported(p, old(emit).errors@, final(emit).errors@),
{
    let style = opt_text_or(p.config, "style", "");
    let valid = is_text(&style, "one") || is_text(&style, "ordered") || is_text(&style, "zero");
    let tree = p.tree;
    let n = p.lines.len();
    let kinds: [Kind; 1] = [Kind::ListOrdered];
    let pkinds: [Kind; 1] = [Kind::ListItemPrefix];
    proof {
        assert(kinds@ =~= seq![Kind::ListOrdered]);
        assert(pkinds@ =~= seq![Kind::ListItemPrefix]);
    }
    let lists = tree.filter_idx(&kinds);
    let ghost toks = tree.tokens@;
    let ghost st = style@;
    let ghost e0 = emit.errors@;
    proof {
        lemma_appended_refl(e0, n as int);
        lemma_reports_start(e0);
    }
    let mut c: usize = 0;
    while c < lists.len()
        invariant
            c <= lists@.len(),
            params_ok(p),
            tree == p.tree,
            toks == tree.tokens@,
            st == style@,
            valid == md029_valid(st),
            n == p.lines@.len(),
            lists@ == ordered_list_ids(toks),
            pkinds@ == seq![Kind::ListItemPrefix],
            forall|k: int| 0 <= k < lists@.len() ==> #[trigger] lists@[k] < tree.tokens@.len(),
            appended(e0, emit.errors@, n as int),
            reports_are(e0, emit.errors@, md029_upto(toks, st, n as int, c as int)),
        decreases lists@.len() - c,
    {
        let list = lists[c];
        let ghost mid = emit.errors@;
        proof {
            lemma_reports_start(mid);
        }
        let prefixes = tree.children_of(list, &pkinds);
        proof {
            tree.lemma_node(list as int);
            assert(prefixes@ == children_kind(toks, list as int, Kind::ListItemPrefix));
        }
        let ghost ps = prefixes@;
        let mut expected: i64 = 1;
        let mut incrementing = false;
        if prefixes.len() >= 2 {
            let (_, first) = item_value(tree, prefixes[0]);
            let (_, second) = item_value(tree, prefixes[1]);
            if second != 1 || first == 0 {
                incrementing = true;
                if first == 0 {
                    expected = 0;
                }
            }
        }
        proof {
            assert(incrementing == md029_incrementing(toks, ps));
        }
        let list_style = if valid {
            crate::text::slice_vec(&style, 0, style.len())
        } else if incrementing {
            super::lit("ordered")
        } else {
            super::lit("one")
        };
        proof {
            assert(list_style@ == md029_list_style(toks, st, ps));
        }
        let ordered = is_text(&list_style, "ordered");
        if is_text(&list_style, "zero") {
            expected = 0;
        } else if is_text(&list_style, "one") {
            expected = 1;
        }
        proof {
            assert(expected as int == md029_first(toks, st, ps));
        }
        let example = if is_text(&list_style, "one") {
            super::lit("1/1/1")
        } else if ordered {
            super::lit("1/2/3")
        } else if is_text(&list_style, "zero") {
            super::lit("0/0/0")
        } else {
            Vec::new()
        };
        let mut detail = super::lit("Style: ");
        super::concat(&mut detail, &example);
        proof {
            assert(example@ == md029_example(list_style@));
        }
        let mut k: usize = 0;
        while k < prefixes.len()
            invariant
                k <= prefixes@.len(),
                params_ok(p),
                tree == p.tree,
                toks == tree.tokens@,
                n == p.lines@.len(),
                ps == prefixes@,
                ordered == (md029_list_style(toks, st, ps) == "ordered"@),
                expected as int == md029_expected(toks, st, ps, k as int),
                detail@ == "Style: "@ + md029_example(md029_list_style(toks, st, ps)),
                forall|q: int| 0 <= q < prefixes@.len() ==> #[trigger] prefixes@[q] < tree.tokens@.len(),
                appended(e0, emit.errors@, n as int),
                reports_are(mid, emit.errors@, md029_items(toks, st, n as int, ps, k as int)),
            decreases prefixes@.len() - k,
        {
            let prefix = prefixes[k];
            let ghost m2 = emit.errors@;
            let (column, actual) = item_value(tree, prefix);
            let pt = tree.get(prefix);
            let actual_text = int_text(actual);
            let range_len = if pt.end_column >= pt.start_column {
                pt.end_column - pt.start_column
            } else {
                0
            };
            let et = int_text(expected);
            let et2 = int_text(expected);
            emit.add_detail_if_checked(
                n,
                pt.start_line,
                &et,
                &actual_text,
                Some(detail.as_slice()),
                None,
                Some((pt.start_column, range_len)),
                Some(
                    FixInfo {
                        line_number: None,
                        edit_column: Some(column),
                        delete_count: Some(actual_text.len() as i64),
                        insert_text: Some(et2),
                    },
                ),
            );
            proof {
                if emit.errors@ != m2 {
                    lemma_reports_push(mid, m2, md029_items(toks, st, n as int, ps, k as int), emit.errors@.last());
                    assert(report_of(emit.errors@.last()) == md029_report(toks, st, ps, k as int));
                }
            }
            if ordered && expected < i64::MAX {
                expected += 1;
            }
            k += 1;
        }
        proof {
            lemma_reports_concat(e0, mid, emit.errors@, md029_upto(toks, st, n as int, c as int), md029_items(toks, st, n as int, ps, ps.len() as int));
        }
        c += 1;
    }
}

} // verus!
