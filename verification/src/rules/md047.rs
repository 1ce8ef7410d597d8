//! MD047 — single-trailing-newline: the file ends with a newline.

use vstd::prelude::*;

use super::RuleError;

use super::helpers::{is_blank_line, spec_is_blank_line};
use super::{Emit, FixInfo, Params, appended, is_insert, params_ok};

verus! {

/// What `md047` reports: the problems it appends to `old_errors`.
pub open spec fn md047_reported(p: &Params, old_errors: Seq<RuleError>, new_errors: Seq<RuleError>) -> bool {
    ({
        let n = p.lines@.len();
        if n > 0 && !spec_is_blank_line(p.lines@[n - 1]@) {
            new_errors.len() == old_errors.len() + 1 && {
                let e = new_errors.last();
                &&& e.line_number == n
                &&& e.detail is None
                &&& e.context is None
                &&& e.range == Some((p.lines@[n - 1]@.len() as usize, 1usize))
                &&& is_insert(e.fix_info, p.lines@[n - 1]@.len() + 1int, seq!['\n'])
            }
        } else {
            new_errors == old_errors
        }
    })
}

/// Report a last line that is not blank: the document does not end with a
/// newline.
pub fn md047(p: &Params, emit: &mut Emit)
    requires
        params_ok(p),
    ensures
        appended(old(emit).errors@, final(emit).errors@, p.lines@.len() as int),
        md047_reported(p, old(emit).errors@, final(emit).errors@),
{
    let n = p.lines.len();
    proof {
        super::lemma_appended_refl(emit.errors@, n as int);
    }
    if n == 0 {
        return;
    }
    let last = &p.lines[n - 1];
    if !is_blank_line(last) {
        let len = last.len();
        let mut nl: Vec<char> = Vec::new();
        nl.push('\n');
        let ghost before = emit.errors@;
        emit.add(n, None, None, Some((len, 1)), Some(FixInfo::insert(len + 1, nl)));
        proof {
            super::lemma_appended_push(before, before, emit.errors@.last(), n as int);
            assert(emit.errors@ == before.push(emit.errors@.last()));
        }
    }
}

} // verus!
