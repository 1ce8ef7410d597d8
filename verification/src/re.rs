//! Regular-expression matching through the `regex` crate.
//!
//! Each function compiles `pattern` with `regex::Regex::new` and runs one
//! search over `text`. What a search returns is named, not restated: the
//! names below are functions of the pattern and the text alone. Offsets are
//! converted from the crate's byte offsets to `char` offsets.

use vstd::prelude::*;

verus! {

/// Char offsets `(start, end)` of the leftmost-first match of `pattern` in
/// `text`, as `regex::Regex::find` reports it; `None` when there is no match
/// or the pattern does not compile.
pub uninterp spec fn regex_find(pattern: Seq<char>, text: Seq<char>) -> Option<(int, int)>;

/// The capture groups of the leftmost-first match of `pattern` in `text`,
/// as `regex::Regex::captures` reports them (group 0 is the whole match);
/// `None` when there is no match or the pattern does not compile.
pub uninterp spec fn regex_captures(pattern: Seq<char>, text: Seq<char>) -> Option<
    Seq<Option<(int, int)>>,
>;

/// The capture groups of each successive non-overlapping match of `pattern`
/// in `text`, as `regex::Regex::captures_iter` yields them.
pub uninterp spec fn regex_captures_all(pattern: Seq<char>, text: Seq<char>) -> Seq<
    Seq<Option<(int, int)>>,
>;

/// The pieces of `text` between matches of `pattern`, as
/// `regex::Regex::split` yields them (the whole text as one piece when the
/// pattern does not compile).
pub uninterp spec fn regex_split(pattern: Seq<char>, text: Seq<char>) -> Seq<Seq<char>>;

pub open spec fn span_view(g: Option<(usize, usize)>) -> Option<(int, int)> {
    match g {
        Some((a, b)) => Some((a as int, b as int)),
        None => None,
    }
}

pub open spec fn groups_view(g: Seq<Option<(usize, usize)>>) -> Seq<Option<(int, int)>> {
    g.map_values(|x: Option<(usize, usize)>| span_view(x))
}

/// Every group lies within the text, in order.
pub open spec fn groups_in(g: Seq<Option<(usize, usize)>>, n: int) -> bool {
    forall|k: int|
        0 <= k < g.len() ==> match #[trigger] g[k] {
            Some((a, b)) => a <= b <= n,
            None => true,
        }
}

/// `regex::Regex::find`: the first match, in char offsets. A match is a
/// span of the text.
#[verifier::external_body]
pub(crate) fn re_find(pattern: &str, text: &[char]) -> (r: Option<(usize, usize)>)
    ensures
        span_view(r) == regex_find(pattern@, text@),
        r matches Some((a, b)) ==> a <= b <= text@.len(),
{
    let hay: String = text.iter().collect();
    let m = regex::Regex::new(pattern).ok()?.find(&hay)?;
    Some((hay[..m.start()].chars().count(), hay[..m.end()].chars().count()))
}

/// `regex::Regex::captures`: the groups of the first match, in char offsets.
/// Group 0, the whole match, is always present.
#[verifier::external_body]
pub(crate) fn re_captures(pattern: &str, text: &[char]) -> (r: Option<Vec<Option<(usize, usize)>>>)
    ensures
        match r {
            None => regex_captures(pattern@, text@) is None,
            Some(g) => {
                &&& regex_captures(pattern@, text@) == Some(groups_view(g@))
                &&& g@.len() >= 1
                &&& g@[0] is Some
                &&& groups_in(g@, text@.len() as int)
            },
        },
{
    let hay: String = text.iter().collect();
    let caps = regex::Regex::new(pattern).ok()?.captures(&hay)?;
    let pos = |b: usize| hay[..b].chars().count();
    Some(caps.iter().map(|g| g.map(|m| (pos(m.start()), pos(m.end())))).collect())
}

/// `regex::Regex::captures_iter`: the groups of every successive match.
#[verifier::external_body]
pub(crate) fn re_captures_all(pattern: &str, text: &[char]) -> (r: Vec<Vec<Option<(usize, usize)>>>)
    ensures
        r@.map_values(|g: Vec<Option<(usize, usize)>>| groups_view(g@)) == regex_captures_all(
            pattern@,
            text@,
        ),
        forall|k: int|
            0 <= k < r@.len() ==> {
                &&& (#[trigger] r@[k])@.len() >= 1
                &&& r@[k]@[0] is Some
                &&& groups_in(r@[k]@, text@.len() as int)
            },
{
    let hay: String = text.iter().collect();
    let pos = |b: usize| hay[..b].chars().count();
    match regex::Regex::new(pattern) {
        Ok(re) => re.captures_iter(&hay).map(|caps| {
            caps.iter().map(|g| g.map(|m| (pos(m.start()), pos(m.end())))).collect()
        }).collect(),
        Err(_) => Vec::new(),
    }
}

/// `regex::Regex::split`: the pieces between matches. Each piece is a
/// substring of the text; a text of `n` characters has at most `n + 1`
/// match positions, so at most `n + 2` pieces.
#[verifier::external_body]
pub(crate) fn re_split(pattern: &str, text: &[char]) -> (r: Vec<Vec<char>>)
    ensures
        r@.map_values(|v: Vec<char>| v@) == regex_split(pattern@, text@),
        r@.len() <= text@.len() + 2,
        forall|k: int| 0 <= k < r@.len() ==> (#[trigger] r@[k])@.len() <= text@.len(),
{
    let hay: String = text.iter().collect();
    match regex::Regex::new(pattern) {
        Ok(re) => re.split(&hay).map(|p| p.chars().collect()).collect(),
        Err(_) => vec![text.to_vec()],
    }
}

} // verus!
