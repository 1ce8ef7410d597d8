//! MD042 — no-empty-links.

use vstd::prelude::*;

use crate::md::kind::Kind;
use crate::md::tokens::{Token, filter_idx_upto, kind_path, walk_path};
use super::helpers::{spec_ellipsify, spec_trim, trim};
use super::md003::is_text;
use super::{Emit, Params, RuleError, appended, error_is, lemma_appended_refl, params_ok};

verus! {

/// The links, in document order.
pub open spec fn link_ids(tokens: Seq<Token>) -> Seq<usize> {
    filter_idx_upto(tokens, seq![Kind::Link], tokens.len() as int)
}

/// The destination strings of a resource.
pub open spec fn destination_path() -> Seq<Seq<Kind>> {
    seq![
        seq![Kind::ResourceDestination],
        seq![Kind::ResourceDestinationLiteral, Kind::ResourceDestinationRaw],
        seq![Kind::ResourceDestinationString],
    ]
}

/// Whether the `c`-th link has no destination: neither a reference label
/// nor a resource destination other than `#` (a link with label text and
/// no reference or resource, or a collapsed reference, has one).
pub open spec fn md042_empty(tokens: Seq<Token>, c: int) -> bool {
    let link = link_ids(tokens)[c];
    let label_text = walk_path(tokens, seq![link], seq![seq![Kind::Label], seq![Kind::LabelText]], 2);
    let reference = walk_path(tokens, seq![link], seq![seq![Kind::Reference]], 1);
    let resource = walk_path(tokens, seq![link], seq![seq![Kind::Resource]], 1);
    let reference_string = if reference.len() > 0 {
        walk_path(tokens, seq![reference[0]], seq![seq![Kind::ReferenceString]], 1)
    } else {
        Seq::empty()
    };
    let dest = if resource.len() > 0 {
        walk_path(tokens, seq![resource[0]], destination_path(), 3)
    } else {
        Seq::empty()
    };
    if label_text.len() > 0 && ((reference.len() == 0 && resource.len() == 0) || (reference.len() > 0
        && reference_string.len() == 0)) {
        false
    } else if reference_string.len() > 0 && dest.len() == 0 {
        false
    } else if reference_string.len() == 0 && dest.len() > 0 {
        spec_trim(tokens[dest[0] as int].text@) == "#"@
    } else {
        reference_string.len() == 0 && dest.len() == 0
    }
}

/// Whether the `c`-th link is reported: it is empty and on a line of the
/// document.
pub open spec fn md042_reports(tokens: Seq<Token>, n: int, c: int) -> bool {
    md042_empty(tokens, c) && 1 <= tokens[link_ids(tokens)[c] as int].start_line <= n
}

/// The positions of the first `c` links reported.
pub open spec fn md042_list(tokens: Seq<Token>, n: int, c: int) -> Seq<int>
    decreases c,
{
    if c <= 0 {
        Seq::empty()
    } else {
        let prev = md042_list(tokens, n, c - 1);
        if md042_reports(tokens, n, c - 1) {
            prev.push(c - 1)
        } else {
            prev
        }
    }
}

/// The problem reported for the `c`-th link: its text and range.
pub open spec fn md042_error(e: RuleError, tokens: Seq<Token>, c: int) -> bool {
    let t = tokens[link_ids(tokens)[c] as int];
    let len = if t.end_column >= t.start_column {
        t.end_column - t.start_column
    } else {
        0
    };
    error_is(e, t.start_line, None, Some(spec_ellipsify(t.text@, false, false)), Some((t.start_column, len as usize)), None)
}

/// What `md042` reports: the problems it appends to `old_errors`.
pub open spec fn md042_reported(p: &Params, old_errors: Seq<RuleError>, new_errors: Seq<RuleError>) -> bool {
    ({
        let toks = p.tree.tokens@;
        let reported = md042_list(toks, p.lines@.len() as int, link_ids(toks).len() as int);
        let base = old_errors.len();
        &&& new_errors.len() == base + reported.len()
        &&& forall|j: int|
            0 <= j < reported.len() ==> md042_error(#[trigger] new_errors[base + j], toks, reported[j])
    })
}

/// Report links with no destination: an empty `()` or just `#`.
pub fn md042(p: &Params, emit: &mut Emit)
    requires
        params_ok(p),
    ensures
        appended(old(emit).errors@, final(emit).errors@, p.lines@.len() as int),
        md042_reported(p, old(emit).errors@, final(emit).errors@),
{
    let tree = p.tree;
    let n = p.lines.len();
    let link_kinds: [Kind; 1] = [Kind::Link];
    let label_kinds: [Kind; 1] = [Kind::Label];
    let label_text_kinds: [Kind; 1] = [Kind::LabelText];
    let ref_kinds: [Kind; 1] = [Kind::Reference];
    let res_kinds: [Kind; 1] = [Kind::Resource];
    let rs_kinds: [Kind; 1] = [Kind::ReferenceString];
    let d1: [Kind; 1] = [Kind::ResourceDestination];
    let d2: [Kind; 2] = [Kind::ResourceDestinationLiteral, Kind::ResourceDestinationRaw];
    let d3: [Kind; 1] = [Kind::ResourceDestinationString];
    let lt_path: [&[Kind]; 2] = [&label_kinds, &label_text_kinds];
    let ref_path: [&[Kind]; 1] = [&ref_kinds];
    let res_path: [&[Kind]; 1] = [&res_kinds];
    let rs_path: [&[Kind]; 1] = [&rs_kinds];
    let dest_path: [&[Kind]; 3] = [&d1, &d2, &d3];
    proof {
        assert(link_kinds@ =~= seq![Kind::Link]);
        assert(label_kinds@ =~= seq![Kind::Label]);
        assert(label_text_kinds@ =~= seq![Kind::LabelText]);
        assert(ref_kinds@ =~= seq![Kind::Reference]);
        assert(res_kinds@ =~= seq![Kind::Resource]);
        assert(rs_kinds@ =~= seq![Kind::ReferenceString]);
        assert(d1@ =~= seq![Kind::ResourceDestination]);
        assert(d2@ =~= seq![Kind::ResourceDestinationLiteral, Kind::ResourceDestinationRaw]);
        assert(d3@ =~= seq![Kind::ResourceDestinationString]);
        assert(kind_path(lt_path@) =~= seq![seq![Kind::Label], seq![Kind::LabelText]]);
        assert(kind_path(ref_path@) =~= seq![seq![Kind::Reference]]);
        assert(kind_path(res_path@) =~= seq![seq![Kind::Resource]]);
        assert(kind_path(rs_path@) =~= seq![seq![Kind::ReferenceString]]);
        assert(kind_path(dest_path@) =~= destination_path());
        reveal_strlit("#");
    }
    let links = tree.filter_idx(&link_kinds);
    let ghost toks = tree.tokens@;
    let ghost e0 = emit.errors@;
    proof {
        lemma_appended_refl(e0, n as int);
    }
    let mut c: usize = 0;
    while c < links.len()
        invariant
            c <= links@.len(),
            params_ok(p),
            tree == p.tree,
            toks == tree.tokens@,
            links@ == link_ids(toks),
            n == p.lines@.len(),
            lt_path@.len() == 2,
            ref_path@.len() == 1,
            res_path@.len() == 1,
            rs_path@.len() == 1,
            dest_path@.len() == 3,
            kind_path(lt_path@) == seq![seq![Kind::Label], seq![Kind::LabelText]],
            kind_path(ref_path@) == seq![seq![Kind::Reference]],
            kind_path(res_path@) == seq![seq![Kind::Resource]],
            kind_path(rs_path@) == seq![seq![Kind::ReferenceString]],
            kind_path(dest_path@) == destination_path(),
            forall|k: int| 0 <= k < links@.len() ==> #[trigger] links@[k] < tree.tokens@.len(),
            appended(e0, emit.errors@, n as int),
            emit.errors@.len() == e0.len() + md042_list(toks, n as int, c as int).len(),
            forall|j: int|
                0 <= j < md042_list(toks, n as int, c as int).len() ==> md042_error(
                    #[trigger] emit.errors@[e0.len() + j],
                    toks,
                    md042_list(toks, n as int, c as int)[j],
                ),
        decreases links@.len() - c,
    {
        let link = links[c];
        let ghost prev = md042_list(toks, n as int, c as int);
        let ghost mid = emit.errors@;
        let label_text = tree.descendants_by_type(link, &lt_path);
        let reference = tree.descendants_by_type(link, &ref_path);
        let resource = tree.descendants_by_type(link, &res_path);
        let reference_string = if reference.len() > 0 {
            tree.descendants_by_type(reference[0], &rs_path)
        } else {
            Vec::new()
        };
        let dest = if resource.len() > 0 {
            tree.descendants_by_type(resource[0], &dest_path)
        } else {
            Vec::new()
        };
        let has_label_text = label_text.len() > 0;
        let has_reference = reference.len() > 0;
        let has_resource = resource.len() > 0;
        let has_reference_string = reference_string.len() > 0;
        let has_dest = dest.len() > 0;
        let error = if has_label_text && ((!has_reference && !has_resource) || (has_reference
            && !has_reference_string)) {
            false
        } else if has_reference_string && !has_dest {
            false
        } else if !has_reference_string && has_dest {
            is_text(&trim(&tree.get(dest[0]).text), "#")
        } else {
            !has_reference_string && !has_dest
        };
        proof {
            assert(error == md042_empty(toks, c as int));
        }
        if error {
            let t = tree.get(link);
            let len = if t.end_column >= t.start_column {
                t.end_column - t.start_column
            } else {
                0
            };
            emit.add_context_checked(n, t.start_line, &t.text, false, false, Some((t.start_column, len)), None);
        }
        proof {
            let cur = md042_list(toks, n as int, c + 1);
            if md042_reports(toks, n as int, c as int) {
                assert(cur == prev.push(c as int));
                assert forall|j: int| 0 <= j < cur.len() implies md042_error(
                    #[trigger] emit.errors@[e0.len() + j],
                    toks,
                    cur[j],
                ) by {
                    if j < prev.len() {
                        assert(emit.errors@[e0.len() + j] == mid[e0.len() + j]);
                    }
                }
            } else {
                assert(cur == prev);
                assert(emit.errors@ == mid);
            }
            assert(appended(e0, emit.errors@, n as int));
        }
        c += 1;
    }
}

} // verus!
