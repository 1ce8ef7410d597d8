//! MD051 — link-fragments: `#fragment` links name a heading or anchor.

use vstd::prelude::*;

use crate::md::kind::Kind;
use crate::md::tokens::{Token, Tree, html_tag_info};
use crate::re::{re_captures, re_captures_all, re_find};
use crate::text::{lowercase, str_to_lowercase};
use super::md003::{is_text, opt_text_or};
use super::md036_support::{push_children, rev_children};
use super::{Emit, FixInfo, Params, RuleError, appended, lemma_appended_refl, params_ok, slice_eq};

verus! {

/// The UTF-8 bytes of `c`.
pub open spec fn spec_utf8_bytes(c: char) -> Seq<u8> {
    let x = c as u32;
    if x < 0x80 {
        seq![x as u8]
    } else if x < 0x800 {
        seq![(0xC0 | (x >> 6)) as u8, (0x80 | (x & 0x3F)) as u8]
    } else if x < 0x10000 {
        seq![(0xE0 | (x >> 12)) as u8, (0x80 | ((x >> 6) & 0x3F)) as u8, (0x80 | (x & 0x3F)) as u8]
    } else {
        seq![
            (0xF0 | (x >> 18)) as u8,
            (0x80 | ((x >> 12) & 0x3F)) as u8,
            (0x80 | ((x >> 6) & 0x3F)) as u8,
            (0x80 | (x & 0x3F)) as u8,
        ]
    }
}

/// The UTF-8 bytes of `c`.
pub fn utf8_bytes(c: char) -> (r: Vec<u8>)
    ensures
        1 <= r@.len() <= 4,
        r@ == spec_utf8_bytes(c),
{
    let x = c as u32;
    let mut v: Vec<u8> = Vec::new();
    if x < 0x80 {
        v.push(x as u8);
    } else if x < 0x800 {
        v.push((0xC0 | (x >> 6)) as u8);
        v.push((0x80 | (x & 0x3F)) as u8);
    } else if x < 0x10000 {
        v.push((0xE0 | (x >> 12)) as u8);
        v.push((0x80 | ((x >> 6) & 0x3F)) as u8);
        v.push((0x80 | (x & 0x3F)) as u8);
    } else {
        v.push((0xF0 | (x >> 18)) as u8);
        v.push((0x80 | ((x >> 12) & 0x3F)) as u8);
        v.push((0x80 | ((x >> 6) & 0x3F)) as u8);
        v.push((0x80 | (x & 0x3F)) as u8);
    }
    proof {
        assert(v@ =~= spec_utf8_bytes(c));
    }
    v
}

/// The upper-case hexadecimal digit of `d`.
pub open spec fn spec_hex_digit(d: u8) -> char {
    if d < 10 {
        ('0' as u8 + d) as char
    } else {
        ('A' as u8 + (d - 10)) as char
    }
}

fn hex_digit(d: u8) -> (r: char)
    requires
        d < 16,
    ensures
        r == spec_hex_digit(d),
{
    if d < 10 {
        ('0' as u8 + d) as char
    } else {
        ('A' as u8 + (d - 10)) as char
    }
}

/// A byte `encodeURIComponent` keeps as it is.
pub open spec fn uri_unreserved(b: u8) -> bool {
    let c = b as char;
    (b < 0x80 && crate::text::spec_is_ascii_alnum(c)) || c == '-' || c == '_' || c == '.' || c == '!' || c == '~'
        || c == '*' || c == '\'' || c == '(' || c == ')'
}

/// The encoding of the first `k` bytes of `bytes`.
pub open spec fn encode_bytes(bytes: Seq<u8>, k: int) -> Seq<char>
    decreases k,
{
    if k <= 0 {
        Seq::empty()
    } else {
        let b = bytes[k - 1];
        encode_bytes(bytes, k - 1) + if uri_unreserved(b) {
            seq![b as char]
        } else {
            seq!['%', spec_hex_digit(b / 16), spec_hex_digit(b % 16)]
        }
    }
}

/// `encodeURIComponent` of the first `i` characters of `s`.
pub open spec fn spec_encode_uri(s: Seq<char>, i: int) -> Seq<char>
    decreases i,
{
    if i <= 0 {
        Seq::empty()
    } else {
        let bytes = spec_utf8_bytes(s[i - 1]);
        spec_encode_uri(s, i - 1) + encode_bytes(bytes, bytes.len() as int)
    }
}

/// JavaScript's `encodeURIComponent`: every UTF-8 byte percent-encoded
/// but ASCII letters, digits and `-_.!~*'()`.
#[verifier::rlimit(30)]
pub fn encode_uri_component(s: &[char]) -> (r: Vec<char>)
    ensures
        r@ == spec_encode_uri(s@, s@.len() as int),
{
    let mut out: Vec<char> = Vec::new();
    let mut i: usize = 0;
    while i < s.len()
        invariant
            i <= s@.len(),
            out@ == spec_encode_uri(s@, i as int),
        decreases s@.len() - i,
    {
        let bytes = utf8_bytes(s[i]);
        let ghost o0 = out@;
        let mut k: usize = 0;
        while k < bytes.len()
            invariant
                k <= bytes@.len(),
                out@ == o0 + encode_bytes(bytes@, k as int),
            decreases bytes@.len() - k,
        {
            let b = bytes[k];
            let c = b as char;
            if (b < 0x80 && crate::text::is_ascii_alnum(c)) || c == '-' || c == '_' || c == '.' || c
                == '!' || c == '~' || c == '*' || c == '\'' || c == '(' || c == ')' {
                out.push(c);
            } else {
                out.push('%');
                out.push(hex_digit(b / 16));
                out.push(hex_digit(b % 16));
            }
            proof {
                assert(out@ =~= o0 + encode_bytes(bytes@, k + 1));
            }
            k += 1;
        }
        i += 1;
    }
    out
}

/// A token the heading text walk goes into: not an image, reference or
/// resource.
pub open spec fn included(t: Token) -> bool {
    t.kind != Kind::Image && t.kind != Kind::Reference && t.kind != Kind::Resource
}

/// The children of `ch` from `j` on that the walk goes into.
pub open spec fn included_from(tokens: Seq<Token>, ch: Seq<usize>, j: int) -> Seq<usize>
    decreases ch.len() - j,
{
    if j < 0 || j >= ch.len() {
        Seq::empty()
    } else {
        let rest = included_from(tokens, ch, j + 1);
        if included(tokens[ch[j] as int]) {
            seq![ch[j]] + rest
        } else {
            rest
        }
    }
}

/// A depth-first walk from `stack` (top last) not going into images,
/// references and resources, of at most `budget` steps.
pub open spec fn included_walk(tokens: Seq<Token>, stack: Seq<usize>, budget: nat) -> Seq<usize>
    decreases budget,
{
    if budget == 0 || stack.len() == 0 {
        Seq::empty()
    } else {
        let node = stack.last();
        seq![node] + included_walk(
            tokens,
            stack.drop_last() + included_from(tokens, tokens[node as int].children@, 0).reverse(),
            (budget - 1) as nat,
        )
    }
}

/// A token whose text is part of a heading's text.
pub open spec fn text_kind(k: Kind) -> bool {
    k == Kind::CharacterEscapeValue || k == Kind::CodeTextData || k == Kind::Data || k == Kind::MathTextData
}

/// The texts of the text tokens of `visited`, joined.
pub open spec fn texts_of(tokens: Seq<Token>, visited: Seq<usize>) -> Seq<char>
    decreases visited.len(),
{
    if visited.len() == 0 {
        Seq::empty()
    } else {
        let prev = texts_of(tokens, visited.drop_last());
        let t = tokens[visited.last() as int];
        if text_kind(t.kind) {
            prev + t.text@
        } else {
            prev
        }
    }
}

/// The text of a heading's inline content.
pub open spec fn spec_inline_text(tokens: Seq<Token>, ht: int) -> Seq<char> {
    texts_of(tokens, included_walk(tokens, rev_children(tokens, ht), tokens.len()))
}

/// Push the children of `node` but images, references and resources on
/// `stack`, last first.
fn push_included_children(tree: &Tree, node: usize, stack: &mut Vec<usize>)
    requires
        tree.wf(),
        node < tree.tokens@.len(),
        forall|k: int| 0 <= k < old(stack)@.len() ==> #[trigger] old(stack)@[k] < tree.tokens@.len(),
    ensures
        forall|k: int| 0 <= k < final(stack)@.len() ==> #[trigger] final(stack)@[k] < tree.tokens@.len(),
        final(stack)@ == old(stack)@ + included_from(tree.tokens@, tree.tokens@[node as int].children@, 0).reverse(),
{
    let ghost tk = tree.tokens@;
    let ghost base = stack@;
    let ch = &tree.tokens[node].children;
    let mut j = ch.len();
    proof {
        assert(included_from(tk, ch@, j as int) =~= Seq::<usize>::empty());
        assert(stack@ =~= base + included_from(tk, ch@, j as int).reverse());
    }
    while j > 0
        invariant
            tree.wf(),
            tk == tree.tokens@,
            node < tree.tokens@.len(),
            ch@ == tree.tokens@[node as int].children@,
            j <= ch@.len(),
            stack@ == base + included_from(tk, ch@, j as int).reverse(),
            forall|k: int| 0 <= k < stack@.len() ==> #[trigger] stack@[k] < tree.tokens@.len(),
        decreases j,
    {
        j -= 1;
        proof {
            tree.lemma_child(node as int, j as int);
        }
        let ghost before = included_from(tk, ch@, j + 1);
        let k = tree.get(ch[j]).kind;
        if k != Kind::Image && k != Kind::Reference && k != Kind::Resource {
            stack.push(ch[j]);
            proof {
                assert((seq![ch@[j as int]] + before).reverse() =~= before.reverse().push(ch@[j as int]));
            }
        }
    }
}

/// The text of a heading's inline content: data, code and escapes, in
/// document order; what is inside images, references and resources (below
/// the heading's own children) left out.
#[verifier::rlimit(30)]
fn inline_text(tree: &Tree, heading_text: usize) -> (r: Vec<char>)
    requires
        tree.wf(),
        heading_text < tree.tokens@.len(),
    ensures
        r@ == spec_inline_text(tree.tokens@, heading_text as int),
{
    let ghost tk = tree.tokens@;
    let ghost w = included_walk(tk, rev_children(tk, heading_text as int), tk.len());
    let mut out: Vec<char> = Vec::new();
    let mut stack: Vec<usize> = Vec::new();
    push_children(tree, heading_text, &mut stack);
    proof {
        assert(stack@ =~= rev_children(tk, heading_text as int));
    }
    let mut budget = tree.tokens.len();
    let ghost mut taken: Seq<usize> = Seq::empty();
    proof {
        assert(w =~= taken + included_walk(tk, stack@, budget as nat));
    }
    while stack.len() > 0 && budget > 0
        invariant
            tree.wf(),
            tk == tree.tokens@,
            w == taken + included_walk(tk, stack@, budget as nat),
            out@ == texts_of(tk, taken),
            forall|k: int| 0 <= k < stack@.len() ==> #[trigger] stack@[k] < tree.tokens@.len(),
        decreases budget,
    {
        let ghost st = stack@;
        let ghost bud = budget as nat;
        budget -= 1;
        let nd = stack.pop().unwrap();
        let t = tree.get(nd);
        if t.kind == Kind::CharacterEscapeValue || t.kind == Kind::CodeTextData || t.kind
            == Kind::Data || t.kind == Kind::MathTextData {
            super::concat(&mut out, &t.text);
        }
        push_included_children(tree, nd, &mut stack);
        proof {
            assert(included_walk(tk, st, bud) == seq![nd] + included_walk(tk, stack@, budget as nat));
            let t2 = taken.push(nd);
            assert(t2.drop_last() =~= taken);
            assert(w =~= t2 + included_walk(tk, stack@, budget as nat));
            taken = t2;
        }
    }
    proof {
        assert(included_walk(tk, stack@, budget as nat) =~= Seq::<usize>::empty());
        assert(w =~= taken);
    }
    out
}

/// The text kept and position reached after the first `m` matches of a
/// removal: a match starting before the position is passed over.
pub open spec fn remove_acc(s: Seq<char>, ms: Seq<Seq<Option<(int, int)>>>, m: int) -> (Seq<char>, int)
    decreases m,
{
    if m <= 0 {
        (Seq::empty(), 0)
    } else {
        let (o, p) = remove_acc(s, ms, m - 1);
        match ms[m - 1][0] {
            Some((a, b)) => if a >= p {
                (o + s.subrange(p, a), b)
            } else {
                (o, p)
            },
            None => (o, p),
        }
    }
}

/// `s` without the matches of `pattern` (`Regex::replace_all` with "").
pub open spec fn spec_remove_all(pattern: Seq<char>, s: Seq<char>) -> Seq<char> {
    let ms = crate::re::regex_captures_all(pattern, s);
    let (o, p) = remove_acc(s, ms, ms.len() as int);
    o + s.subrange(p, s.len() as int)
}

/// `s` without the matches of `pattern`.
#[verifier::rlimit(30)]
fn remove_all(pattern: &str, s: &[char]) -> (r: Vec<char>)
    ensures
        r@ == spec_remove_all(pattern@, s@),
{
    let matches = re_captures_all(pattern, s);
    let ghost ms = crate::re::regex_captures_all(pattern@, s@);
    let mut out: Vec<char> = Vec::new();
    let mut pos: usize = 0;
    let mut m: usize = 0;
    while m < matches.len()
        invariant
            m <= matches@.len(),
            pos <= s@.len(),
            ms.len() == matches@.len(),
            forall|k: int| 0 <= k < matches@.len() ==> #[trigger] ms[k] == crate::re::groups_view(matches@[k]@),
            forall|k: int| 0 <= k < matches@.len() ==> {
                &&& (#[trigger] matches@[k])@.len() >= 1
                &&& matches@[k]@[0] is Some
                &&& crate::re::groups_in(matches@[k]@, s@.len() as int)
            },
            remove_acc(s@, ms, m as int) == (out@, pos as int),
        decreases matches@.len() - m,
    {
        proof {
            assert(crate::re::groups_in(matches@[m as int]@, s@.len() as int));
            assert(ms[m as int] == crate::re::groups_view(matches@[m as int]@));
            assert(ms[m as int][0] == crate::re::span_view(matches@[m as int]@[0]));
        }
        match matches[m][0] {
            Some((a, b)) => {
                proof {
                    assert(matches@[m as int]@[0] == Some((a, b)));
                }
                if a >= pos {
                    super::helpers::push_all(&mut out, s, pos, a);
                    pos = b;
                }
            },
            None => {},
        }
        m += 1;
    }
    super::helpers::push_all(&mut out, s, pos, s.len());
    out
}

/// Spaces made `-`.
pub open spec fn dashed(s: Seq<char>) -> Seq<char> {
    s.map_values(|c: char| if c == ' ' { '-' } else { c })
}

/// The pattern of the characters a fragment drops.
pub open spec fn fragment_drop_pattern() -> Seq<char> {
    "[^\\p{L}\\p{M}\\p{N}\\p{Pc}\\- ]"@
}

/// The fragment a heading gets.
pub open spec fn spec_fragment(tokens: Seq<Token>, ht: int) -> Seq<char> {
    let d = dashed(spec_remove_all(fragment_drop_pattern(), str_to_lowercase(spec_inline_text(tokens, ht))));
    seq!['#'] + spec_encode_uri(d, d.len() as int)
}

/// The fragment a heading gets: its text lowercased, characters other
/// than letters, marks, digits, connector punctuation, `-` and space
/// dropped, spaces made `-`, then URI-encoded, after `#`.
#[verifier::rlimit(30)]
fn heading_to_fragment(tree: &Tree, heading_text: usize) -> (r: Vec<char>)
    requires
        tree.wf(),
        heading_text < tree.tokens@.len(),
    ensures
        r@ == spec_fragment(tree.tokens@, heading_text as int),
{
    let text = lowercase(&inline_text(tree, heading_text));
    let cleaned = remove_all("[^\\p{L}\\p{M}\\p{N}\\p{Pc}\\- ]", &text);
    let mut dashed_v: Vec<char> = Vec::new();
    let mut i: usize = 0;
    while i < cleaned.len()
        invariant
            i <= cleaned@.len(),
            dashed_v@ == dashed(cleaned@.take(i as int)),
        decreases cleaned@.len() - i,
    {
        dashed_v.push(if cleaned[i] == ' ' {
            '-'
        } else {
            cleaned[i]
        });
        i += 1;
        proof {
            assert(dashed_v@ =~= dashed(cleaned@.take(i as int)));
        }
    }
    proof {
        assert(cleaned@.take(i as int) =~= cleaned@);
    }
    let mut out = super::lit("#");
    super::concat(&mut out, &encode_uri_component(&dashed_v));
    proof {
        reveal_strlit("#");
    }
    out
}

/// Each fragment with its count, in the order first set.
pub open spec fn fr_index(f: Seq<(Seq<char>, usize)>, k: Seq<char>) -> Option<int>
    decreases f.len(),
{
    if f.len() == 0 {
        None
    } else {
        match fr_index(f.drop_last(), k) {
            Some(i) => Some(i),
            None => if f.last().0 == k {
                Some(f.len() - 1)
            } else {
                None
            },
        }
    }
}

/// The count of fragment `k` (0 when absent).
pub open spec fn fr_get(f: Seq<(Seq<char>, usize)>, k: Seq<char>) -> usize {
    match fr_index(f, k) {
        Some(i) => f[i].1,
        None => 0,
    }
}

/// `f` with the count of `k` set to `v`; a new key comes last.
pub open spec fn fr_set(f: Seq<(Seq<char>, usize)>, k: Seq<char>, v: usize) -> Seq<(Seq<char>, usize)> {
    match fr_index(f, k) {
        Some(i) => f.update(i, (k, v)),
        None => f.push((k, v)),
    }
}

/// `fr_index` finds the first occurrence.
pub proof fn lemma_fr_index(f: Seq<(Seq<char>, usize)>, k: Seq<char>)
    ensures
        match fr_index(f, k) {
            Some(i) => 0 <= i < f.len() && f[i].0 == k && forall|j: int| 0 <= j < i ==> #[trigger] f[j].0 != k,
            None => forall|j: int| 0 <= j < f.len() ==> #[trigger] f[j].0 != k,
        },
    decreases f.len(),
{
    if f.len() > 0 {
        lemma_fr_index(f.drop_last(), k);
        assert forall|j: int| 0 <= j < f.len() - 1 implies #[trigger] f[j] == f.drop_last()[j] by {}
    }
}

/// The first fragment whose lowercase form is `lower`.
pub open spec fn lower_index(f: Seq<(Seq<char>, usize)>, lower: Seq<char>) -> Option<int>
    decreases f.len(),
{
    if f.len() == 0 {
        None
    } else {
        match lower_index(f.drop_last(), lower) {
            Some(i) => Some(i),
            None => if str_to_lowercase(f.last().0) == lower {
                Some(f.len() - 1)
            } else {
                None
            },
        }
    }
}

/// The anchor pattern of a heading's text: `{#name}`.
pub open spec fn anchor_pattern() -> Seq<char> {
    "\\{(#[a-z\\d]+(?:[-_][a-z\\d]+)*)\\}"@
}

/// The table after the first `m` anchors of a heading: each anchor not
/// yet known is set to 1.
pub open spec fn anchors_upto(
    f: Seq<(Seq<char>, usize)>,
    text: Seq<char>,
    caps: Seq<Seq<Option<(int, int)>>>,
    m: int,
) -> Seq<(Seq<char>, usize)>
    decreases m,
{
    if m <= 0 {
        f
    } else {
        let f0 = anchors_upto(f, text, caps, m - 1);
        let g = caps[m - 1];
        if g.len() >= 2 {
            match g[1] {
                Some((a, b)) => {
                    let anchor = text.subrange(a, b);
                    if fr_index(f0, anchor) is None {
                        fr_set(f0, anchor, 1)
                    } else {
                        f0
                    }
                },
                None => f0,
            }
        } else {
            f0
        }
    }
}

/// The table after one more heading: its fragment counted (a repeat
/// also named with `-count`), then its anchors.
pub open spec fn heading_frags(tokens: Seq<Token>, f: Seq<(Seq<char>, usize)>, ht: int) -> Seq<(Seq<char>, usize)> {
    let fragment = spec_fragment(tokens, ht);
    if fragment == "#"@ {
        f
    } else {
        let count = fr_get(f, fragment);
        let f1 = if count > 0 {
            fr_set(f, fragment.push('-') + super::spec_int_text(count as int), 0)
        } else {
            f
        };
        let f2 = fr_set(f1, fragment, if count < usize::MAX { (count + 1) as usize } else { count });
        let text = tokens[ht].text@;
        let caps = crate::re::regex_captures_all(anchor_pattern(), text);
        anchors_upto(f2, text, caps, caps.len() as int)
    }
}

/// The heading texts of a document.
pub open spec fn heading_text_ids(tokens: Seq<Token>) -> Seq<usize> {
    crate::md::tokens::filter_idx_upto(
        tokens,
        seq![Kind::AtxHeadingText, Kind::SetextHeadingText],
        tokens.len() as int,
    )
}

/// The table after the first `c` headings.
pub open spec fn headings_upto(tokens: Seq<Token>, hts: Seq<usize>, c: int) -> Seq<(Seq<char>, usize)>
    decreases c,
{
    if c <= 0 {
        seq![("#top"@, 0usize)]
    } else {
        heading_frags(tokens, headings_upto(tokens, hts, c - 1), hts[c - 1] as int)
    }
}

/// The pattern of an HTML attribute `name`.
pub open spec fn attr_pattern(name: Seq<char>) -> Seq<char> {
    "(?i)\\s"@ + name + "\\s*=\\s*['\"]?([^'\"\\s>]*)"@
}

/// The value of attribute `name` in an HTML tag.
pub open spec fn spec_attr_value(text: Seq<char>, name: Seq<char>) -> Option<Seq<char>> {
    match crate::re::regex_captures(attr_pattern(name), text) {
        Some(g) => if g.len() >= 2 {
            match g[1] {
                Some((a, b)) => Some(text.subrange(a, b)),
                None => None,
            }
        } else {
            None
        },
        None => None,
    }
}

/// The anchor an opening HTML tag names: its `id`, or the `name` of an
/// `<a>`.
pub open spec fn html_anchor(text: Seq<char>) -> Option<Seq<char>> {
    match crate::md::tokens::spec_html_tag_info(text) {
        Some((close, name)) => if close {
            None
        } else {
            match spec_attr_value(text, "id"@) {
                Some(v) => Some(v),
                None => if str_to_lowercase(name) == "a"@ {
                    spec_attr_value(text, "name"@)
                } else {
                    None
                },
            }
        },
        None => None,
    }
}

/// The inline HTML of a document.
pub open spec fn html_ids(tokens: Seq<Token>) -> Seq<usize> {
    crate::md::tokens::filter_html_upto(tokens, seq![Kind::HtmlText], tokens.len() as int)
}

/// The table after the first `c` HTML tags.
pub open spec fn html_upto(tokens: Seq<Token>, f: Seq<(Seq<char>, usize)>, hs: Seq<usize>, c: int) -> Seq<
    (Seq<char>, usize),
>
    decreases c,
{
    if c <= 0 {
        f
    } else {
        let f0 = html_upto(tokens, f, hs, c - 1);
        match html_anchor(tokens[hs[c - 1] as int].text@) {
            Some(v) => fr_set(f0, seq!['#'] + v, 0),
            None => f0,
        }
    }
}

/// Every fragment a document defines.
pub open spec fn all_fragments(tokens: Seq<Token>) -> Seq<(Seq<char>, usize)> {
    let hts = heading_text_ids(tokens);
    let hs = html_ids(tokens);
    html_upto(tokens, headings_upto(tokens, hts, hts.len() as int), hs, hs.len() as int)
}

/// Fragments with a count, in insertion order; setting a present key
/// keeps its place.
struct Fragments {
    keys: Vec<Vec<char>>,
    counts: Vec<usize>,
}

impl Fragments {
    spec fn wf(&self) -> bool {
        self.keys@.len() == self.counts@.len()
    }

    spec fn v(&self) -> Seq<(Seq<char>, usize)> {
        Seq::new(self.keys@.len(), |i: int| (self.keys@[i]@, self.counts@[i]))
    }

    fn find(&self, k: &[char]) -> (r: Option<usize>)
        requires
            self.wf(),
        ensures
            r matches Some(i) ==> i < self.keys@.len(),
            match r {
                Some(i) => fr_index(self.v(), k@) == Some(i as int),
                None => fr_index(self.v(), k@) is None,
            },
    {
        proof {
            lemma_fr_index(self.v(), k@);
        }
        let mut i: usize = 0;
        while i < self.keys.len()
            invariant
                self.wf(),
                i <= self.keys@.len(),
                forall|j: int| 0 <= j < i ==> #[trigger] self.v()[j].0 != k@,
            decreases self.keys@.len() - i,
        {
            assert(self.v()[i as int].0 == self.keys@[i as int]@);
            if slice_eq(&self.keys[i], k) {
                proof {
                    lemma_fr_index(self.v(), k@);
                    match fr_index(self.v(), k@) {
                        Some(j) => {
                            if j < i {
                                assert(self.v()[j].0 != k@);
                            } else if j > i {
                                assert(self.v()[i as int].0 != k@);
                            }
                        },
                        None => {
                            assert(self.v()[i as int].0 != k@);
                        },
                    }
                }
                return Some(i);
            }
            i += 1;
        }
        None
    }

    fn get(&self, k: &[char]) -> (r: usize)
        requires
            self.wf(),
        ensures
            r == fr_get(self.v(), k@),
    {
        match self.find(k) {
            Some(i) => self.counts[i],
            None => 0,
        }
    }

    fn insert(&mut self, k: Vec<char>, v: usize)
        requires
            old(self).wf(),
        ensures
            final(self).wf(),
            final(self).v() == fr_set(old(self).v(), k@, v),
    {
        let ghost f = self.v();
        proof {
            lemma_fr_index(f, k@);
        }
        match self.find(&k) {
            Some(i) => {
                self.counts.set(i, v);
                proof {
                    assert(self.v() =~= f.update(i as int, (k@, v)));
                }
            },
            None => {
                self.keys.push(k);
                self.counts.push(v);
                proof {
                    assert(self.v() =~= f.push((k@, v)));
                }
            },
        }
    }
}

/// The value of attribute `name` of an HTML tag (`\sname=value`).
fn attr_value(text: &[char], name: &str) -> (r: Option<Vec<char>>)
    ensures
        match r {
            Some(v) => spec_attr_value(text@, name@) == Some(v@),
            None => spec_attr_value(text@, name@) is None,
        },
{
    let mut pat = super::lit("(?i)\\s");
    super::concat(&mut pat, &super::lit(name));
    super::concat(&mut pat, &super::lit("\\s*=\\s*['\"]?([^'\"\\s>]*)"));
    let ps = crate::text::string_of(&pat);
    proof {
        assert(ps@ == attr_pattern(name@));
    }
    match re_captures(ps.as_str(), text) {
        Some(g) => {
            if g.len() >= 2 {
                proof {
                    assert(crate::re::groups_in(g@, text@.len() as int));
                    assert(g@[1] == g[1]);
                    assert(crate::re::groups_view(g@)[1] == crate::re::span_view(g@[1]));
                }
                match g[1] {
                    Some((a, b)) => Some(crate::text::slice_vec(text, a, b)),
                    None => None,
                }
            } else {
                None
            }
        },
        None => None,
    }
}

/// The fragments a document defines: `#top`, each heading's (numbered
/// when repeated), `{#anchor}`s in headings, and HTML `id`s and `<a name>`s.
#[verifier::rlimit(30)]
fn collect_fragments(tree: &Tree) -> (r: Fragments)
    requires
        tree.wf(),
    ensures
        r.wf(),
        r.v() == all_fragments(tree.tokens@),
{
    let ghost tk = tree.tokens@;
    let mut fragments = Fragments { keys: Vec::new(), counts: Vec::new() };
    fragments.insert(super::lit("#top"), 0);
    proof {
        reveal_strlit("#top");
        assert(fragments.v() =~= headings_upto(tk, heading_text_ids(tk), 0));
    }
    let hkinds: [Kind; 2] = [Kind::AtxHeadingText, Kind::SetextHeadingText];
    proof {
        assert(hkinds@ =~= seq![Kind::AtxHeadingText, Kind::SetextHeadingText]);
    }
    let hts = tree.filter_idx(&hkinds);
    let mut c: usize = 0;
    while c < hts.len()
        invariant
            c <= hts@.len(),
            tree.wf(),
            tk == tree.tokens@,
            hts@ == heading_text_ids(tk),
            forall|k: int| 0 <= k < hts@.len() ==> #[trigger] hts@[k] < tree.tokens@.len(),
            fragments.wf(),
            fragments.v() == headings_upto(tk, hts@, c as int),
        decreases hts@.len() - c,
    {
        let ht = hts[c];
        c += 1;
        let fragment = heading_to_fragment(tree, ht);
        if !is_text(&fragment, "#") {
            let count = fragments.get(&fragment);
            if count > 0 {
                let mut k = crate::text::slice_vec(&fragment, 0, fragment.len());
                k.push('-');
                super::concat(&mut k, &super::usize_text(count));
                fragments.insert(k, 0);
            }
            let next = if count < usize::MAX {
                count + 1
            } else {
                count
            };
            fragments.insert(crate::text::slice_vec(&fragment, 0, fragment.len()), next);
            let text = &tree.get(ht).text;
            let caps = re_captures_all("\\{(#[a-z\\d]+(?:[-_][a-z\\d]+)*)\\}", text);
            let ghost capsv = crate::re::regex_captures_all(anchor_pattern(), text@);
            let ghost f2 = fragments.v();
            proof {
                assert(fragment@.subrange(0, fragment@.len() as int) =~= fragment@);
            }
            let mut m: usize = 0;
            while m < caps.len()
                invariant
                    m <= caps@.len(),
                    capsv.len() == caps@.len(),
                    forall|k: int| 0 <= k < caps@.len() ==> #[trigger] capsv[k] == crate::re::groups_view(caps@[k]@),
                    forall|k: int| 0 <= k < caps@.len() ==> {
                        &&& (#[trigger] caps@[k])@.len() >= 1
                        &&& caps@[k]@[0] is Some
                        &&& crate::re::groups_in(caps@[k]@, text@.len() as int)
                    },
                    fragments.wf(),
                    fragments.v() == anchors_upto(f2, text@, capsv, m as int),
                decreases caps@.len() - m,
            {
                let g = &caps[m];
                proof {
                    assert(crate::re::groups_in(g@, text@.len() as int));
                    assert(capsv[m as int] == crate::re::groups_view(g@));
                }
                if g.len() >= 2 {
                    proof {
                        assert(capsv[m as int][1] == crate::re::span_view(g@[1]));
                    }
                    match g[1] {
                        Some((a, b)) => {
                            proof {
                                assert(g@[1] == Some((a, b)));
                            }
                            let anchor = crate::text::slice_vec(text, a, b);
                            if fragments.find(&anchor).is_none() {
                                fragments.insert(anchor, 1);
                            }
                        },
                        None => {},
                    }
                }
                m += 1;
            }
            proof {
                reveal_strlit("#");
            }
        } else {
            proof {
                reveal_strlit("#");
            }
        }
    }
    let ghost fh = fragments.v();
    let xkinds: [Kind; 1] = [Kind::HtmlText];
    proof {
        assert(xkinds@ =~= seq![Kind::HtmlText]);
        assert(fh == html_upto(tk, fh, html_ids(tk), 0));
    }
    let htmls = tree.filter_idx_html(&xkinds);
    let mut c: usize = 0;
    while c < htmls.len()
        invariant
            c <= htmls@.len(),
            tk == tree.tokens@,
            htmls@ == html_ids(tk),
            forall|k: int| 0 <= k < htmls@.len() ==> #[trigger] htmls@[k] < tree.tokens@.len(),
            fragments.wf(),
            fragments.v() == html_upto(tk, fh, htmls@, c as int),
        decreases htmls@.len() - c,
    {
        let tok = tree.get(htmls[c]);
        c += 1;
        proof {
            reveal_strlit("id");
            reveal_strlit("name");
            reveal_strlit("a");
        }
        match html_tag_info(&tok.text) {
            Some(info) => {
                if !info.close {
                    let v = match attr_value(&tok.text, "id") {
                        Some(v) => Some(v),
                        None => if is_text(&lowercase(&info.name), "a") {
                            attr_value(&tok.text, "name")
                        } else {
                            None
                        },
                    };
                    match v {
                        Some(v) => {
                            let mut k = super::lit("#");
                            super::concat(&mut k, &v);
                            proof {
                                reveal_strlit("#");
                                assert(k@ =~= seq!['#'] + v@);
                            }
                            fragments.insert(k, 0);
                        },
                        None => {},
                    }
                }
            },
            None => {},
        }
    }
    fragments
}

/// The pattern of a line-number fragment (`#L12`, `#L1C2-L3C4`).
pub open spec fn line_fragment_pattern() -> Seq<char> {
    "^#(?:L\\d+(?:C\\d+)?-L\\d+(?:C\\d+)?|L\\d+)$"@
}

/// Whether fragments differing only in case are accepted.
pub open spec fn md051_ignore_case(entries: Seq<(Vec<char>, super::options::OptValue)>) -> bool {
    super::options::spec_opt_bool(super::options::lookup(entries, "ignore_case"@), false)
}

/// The pattern of the fragments that are never reported.
pub open spec fn ignored_source(entries: Seq<(Vec<char>, super::options::OptValue)>) -> Seq<char> {
    let ip = super::md003::opt_text_or_spec(entries, "ignored_pattern"@, ""@);
    if ip.len() == 0 {
        "^$"@
    } else {
        ip
    }
}

/// The problem with destination `d` of link `link`, given the fragments
/// `fr`: none for a destination that is not a fragment, a known one, a
/// line-number one or an ignored one; with the expected spelling (and a
/// fix, on a one-line link) when a fragment differs only in case.
pub open spec fn dest_report(
    tokens: Seq<Token>,
    fr: Seq<(Seq<char>, usize)>,
    ignore_case: bool,
    ignored: Seq<char>,
    link: int,
    d: int,
) -> Option<super::Report> {
    let dt = tokens[d];
    let text = dt.text@;
    if text.len() <= 1 || text[0] != '#' {
        None
    } else {
        let slice_one = text.subrange(1, text.len() as int);
        let encoded = seq!['#'] + spec_encode_uri(slice_one, slice_one.len() as int);
        if fr_index(fr, encoded) is Some || crate::re::regex_find(line_fragment_pattern(), encoded) is Some
            || crate::re::regex_find(ignored, slice_one) is Some {
            None
        } else {
            let lt = tokens[link];
            let single = lt.start_line == lt.end_line && lt.end_column >= lt.start_column;
            let context = if single { Some(lt.text@) } else { None };
            let range = if single { Some((lt.start_column, (lt.end_column - lt.start_column) as usize)) } else { None };
            match lower_index(fr, str_to_lowercase(text)) {
                Some(i) => {
                    let key = fr[i].0;
                    if !ignore_case && key != text {
                        let fix = if single && dt.end_column >= dt.start_column {
                            Some(
                                super::FixV {
                                    line_number: None,
                                    edit_column: Some(dt.start_column),
                                    delete_count: Some((dt.end_column - dt.start_column) as i64),
                                    insert_text: Some(key),
                                },
                            )
                        } else {
                            None
                        };
                        Some(
                            super::Report {
                                line: lt.start_line,
                                detail: Some("Expected: "@ + key + "; Actual: "@ + text),
                                context,
                                range,
                                fix,
                            },
                        )
                    } else {
                        None
                    }
                },
                None => Some(super::Report { line: lt.start_line, detail: None, context, range, fix: None }),
            }
        }
    }
}

/// The problems with the first `k` destinations `ds` of link `link` that
/// fall on a line of the document.
pub open spec fn dests_reports(
    tokens: Seq<Token>,
    fr: Seq<(Seq<char>, usize)>,
    ignore_case: bool,
    ignored: Seq<char>,
    n: int,
    link: int,
    ds: Seq<usize>,
    k: int,
) -> Seq<super::Report>
    decreases k,
{
    if k <= 0 {
        Seq::empty()
    } else {
        let prev = dests_reports(tokens, fr, ignore_case, ignored, n, link, ds, k - 1);
        match dest_report(tokens, fr, ignore_case, ignored, link, ds[k - 1] as int) {
            Some(r) => if 1 <= r.line <= n {
                prev.push(r)
            } else {
                prev
            },
            None => prev,
        }
    }
}

/// The path from a link to its destinations.
pub open spec fn dest_path() -> Seq<Seq<Kind>> {
    seq![
        seq![Kind::Resource],
        seq![Kind::ResourceDestination],
        seq![Kind::ResourceDestinationRaw],
        seq![Kind::ResourceDestinationString],
    ]
}

/// The problems with the first `c` links.
pub open spec fn links_reports(
    tokens: Seq<Token>,
    fr: Seq<(Seq<char>, usize)>,
    ignore_case: bool,
    ignored: Seq<char>,
    n: int,
    links: Seq<usize>,
    c: int,
) -> Seq<super::Report>
    decreases c,
{
    if c <= 0 {
        Seq::empty()
    } else {
        let l = links[c - 1];
        let ds = crate::md::tokens::walk_path(tokens, seq![l], dest_path(), 4);
        links_reports(tokens, fr, ignore_case, ignored, n, links, c - 1) + dests_reports(
            tokens,
            fr,
            ignore_case,
            ignored,
            n,
            l as int,
            ds,
            ds.len() as int,
        )
    }
}

/// What MD051 reports on a document, link by link.
pub open spec fn md051_reports(
    tokens: Seq<Token>,
    entries: Seq<(Vec<char>, super::options::OptValue)>,
    n: int,
) -> Seq<super::Report> {
    let links = crate::md::tokens::filter_idx_upto(tokens, seq![Kind::Link], tokens.len() as int);
    links_reports(
        tokens,
        all_fragments(tokens),
        md051_ignore_case(entries),
        ignored_source(entries),
        n,
        links,
        links.len() as int,
    )
}

/// The problem with destination `d` of link `link`, if any.
#[verifier::rlimit(40)]
fn dest_problem(
    tree: &Tree,
    fragments: &Fragments,
    ignore_case: bool,
    ignored_src: &str,
    link: usize,
    d: usize,
) -> (r: Option<RuleError>)
    requires
        tree.wf(),
        fragments.wf(),
        link < tree.tokens@.len(),
        d < tree.tokens@.len(),
    ensures
        match r {
            Some(e) => dest_report(tree.tokens@, fragments.v(), ignore_case, ignored_src@, link as int, d as int)
                == Some(super::report_of(e)),
            None => dest_report(tree.tokens@, fragments.v(), ignore_case, ignored_src@, link as int, d as int) is None,
        },
{
    let ghost fv = fragments.v();
    let dt = tree.get(d);
    let text = &dt.text;
    if text.len() <= 1 || text[0] != '#' {
        return None;
    }
    let slice_one = crate::text::slice_vec(text, 1, text.len());
    let mut encoded = super::lit("#");
    super::concat(&mut encoded, &encode_uri_component(&slice_one));
    proof {
        reveal_strlit("#");
        assert(encoded@ =~= seq!['#'] + spec_encode_uri(slice_one@, slice_one@.len() as int));
    }
    let ignored = re_find(ignored_src, &slice_one).is_some();
    let line_fragment = re_find("^#(?:L\\d+(?:C\\d+)?-L\\d+(?:C\\d+)?|L\\d+)$", &encoded).is_some();
    if fragments.find(&encoded).is_some() || line_fragment || ignored {
        return None;
    }
    let lt = tree.get(link);
    let single = lt.start_line == lt.end_line && lt.end_column >= lt.start_column;
    let context = if single {
        Some(crate::text::slice_vec(&lt.text, 0, lt.text.len()))
    } else {
        None
    };
    proof {
        assert(lt.text@.subrange(0, lt.text@.len() as int) =~= lt.text@);
    }
    let range = if single {
        Some((lt.start_column, lt.end_column - lt.start_column))
    } else {
        None
    };
    let text_lower = lowercase(text);
    let mut mixed: Option<usize> = None;
    let mut q: usize = 0;
    while q < fragments.keys.len()
        invariant
            fragments.wf(),
            fv == fragments.v(),
            q <= fragments.keys@.len(),
            text_lower@ == str_to_lowercase(text@),
            mixed matches Some(i) ==> i < fragments.keys@.len(),
            match mixed {
                Some(i) => lower_index(fv.take(q as int), text_lower@) == Some(i as int),
                None => lower_index(fv.take(q as int), text_lower@) is None,
            },
        decreases fragments.keys@.len() - q,
    {
        proof {
            assert(fv.take(q + 1).drop_last() =~= fv.take(q as int));
            assert(fv.take(q + 1).last() == fv[q as int]);
        }
        if mixed.is_none() && slice_eq(&lowercase(&fragments.keys[q]), &text_lower) {
            mixed = Some(q);
        }
        q += 1;
    }
    proof {
        assert(fv.take(q as int) =~= fv);
    }
    match mixed {
        Some(i) => {
            let key = &fragments.keys[i];
            if !ignore_case && !slice_eq(key, text) {
                let fix = if single && dt.end_column >= dt.start_column {
                    Some(
                        FixInfo {
                            line_number: None,
                            edit_column: Some(dt.start_column),
                            delete_count: Some((dt.end_column - dt.start_column) as i64),
                            insert_text: Some(crate::text::slice_vec(key, 0, key.len())),
                        },
                    )
                } else {
                    None
                };
                proof {
                    assert(key@.subrange(0, key@.len() as int) =~= key@);
                }
                let mut detail = super::lit("Expected: ");
                super::concat(&mut detail, key);
                super::concat(&mut detail, &super::lit("; Actual: "));
                super::concat(&mut detail, text);
                Some(RuleError { line_number: lt.start_line, detail: Some(detail), context, range, fix_info: fix })
            } else {
                None
            }
        },
        None => Some(RuleError { line_number: lt.start_line, detail: None, context, range, fix_info: None }),
    }
}

/// What `md051` reports: the problems it appends to `old_errors`.
pub open spec fn md051_reported(p: &Params, old_errors: Seq<RuleError>, new_errors: Seq<RuleError>) -> bool {
    super::reports_are(
        old_errors,
        new_errors,
        md051_reports(p.tree.tokens@, p.config.entries@, p.lines@.len() as int),
    )
}

/// Report links to `#fragment`s that no heading (nor `{#anchor}`, HTML
/// `id`, or `<a name>`) defines; a fragment that differs only in case is
/// reported with a fix (unless `ignore_case`).
#[verifier::rlimit(30)]
pub fn md051(p: &Params, emit: &mut Emit)
    requires
        params_ok(p),
    ensures
        appended(old(emit).errors@, final(emit).errors@, p.lines@.len() as int),
        md051_reported(p, old(emit).errors@, final(emit).errors@),
{
    let ignore_case = p.config.opt_bool("ignore_case", false);
    let ignored_pattern = opt_text_or(p.config, "ignored_pattern", "");
    let ignored_src = if ignored_pattern.len() == 0 {
        crate::text::string_of(&super::lit("^$"))
    } else {
        crate::text::string_of(&ignored_pattern)
    };
    let tree = p.tree;
    let n = p.lines.len();
    let ghost tk = tree.tokens@;
    let ghost e0 = emit.errors@;
    proof {
        lemma_appended_refl(e0, n as int);
        super::lemma_reports_start(e0);
    }
    let fragments = collect_fragments(tree);
    let ghost fv = fragments.v();
    let ghost ic = md051_ignore_case(p.config.entries@);
    let ghost ig = ignored_source(p.config.entries@);
    proof {
        assert(ignore_case == ic);
        assert(ignored_src@ == ig);
    }
    let lkinds: [Kind; 1] = [Kind::Link];
    let rk: [Kind; 1] = [Kind::Resource];
    let rdk: [Kind; 1] = [Kind::ResourceDestination];
    let rrk: [Kind; 1] = [Kind::ResourceDestinationRaw];
    let rsk: [Kind; 1] = [Kind::ResourceDestinationString];
    let path: [&[Kind]; 4] = [&rk, &rdk, &rrk, &rsk];
    proof {
        assert(lkinds@ =~= seq![Kind::Link]);
        assert(rk@ =~= seq![Kind::Resource]);
        assert(rdk@ =~= seq![Kind::ResourceDestination]);
        assert(rrk@ =~= seq![Kind::ResourceDestinationRaw]);
        assert(rsk@ =~= seq![Kind::ResourceDestinationString]);
        assert(crate::md::tokens::kind_path(path@) =~= dest_path());
    }
    let links = tree.filter_idx(&lkinds);
    let mut c: usize = 0;
    while c < links.len()
        invariant
            c <= links@.len(),
            params_ok(p),
            tree == p.tree,
            tk == tree.tokens@,
            n == p.lines@.len(),
            fragments.wf(),
            fv == fragments.v(),
            fv == all_fragments(tk),
            ignore_case == ic,
            ignored_src@ == ig,
            path@.len() == 4,
            crate::md::tokens::kind_path(path@) == dest_path(),
            links@ == crate::md::tokens::filter_idx_upto(tk, seq![Kind::Link], tk.len() as int),
            forall|k: int| 0 <= k < links@.len() ==> #[trigger] links@[k] < tree.tokens@.len(),
            appended(e0, emit.errors@, n as int),
            super::reports_are(e0, emit.errors@, links_reports(tk, fv, ic, ig, n as int, links@, c as int)),
        decreases links@.len() - c,
    {
        let link = links[c];
        let ghost mid = emit.errors@;
        proof {
            super::lemma_reports_start(mid);
        }
        let dests = tree.descendants_by_type(link, &path);
        let mut d: usize = 0;
        while d < dests.len()
            invariant
                d <= dests@.len(),
                params_ok(p),
                tree == p.tree,
                tk == tree.tokens@,
                n == p.lines@.len(),
                fragments.wf(),
                fv == fragments.v(),
                ignore_case == ic,
                ignored_src@ == ig,
                link < tree.tokens@.len(),
                forall|k: int| 0 <= k < dests@.len() ==> #[trigger] dests@[k] < tree.tokens@.len(),
                appended(e0, emit.errors@, n as int),
                super::reports_are(mid, emit.errors@, dests_reports(tk, fv, ic, ig, n as int, link as int, dests@, d as int)),
            decreases dests@.len() - d,
        {
            let ghost m2 = emit.errors@;
            let ghost prev = dests_reports(tk, fv, ic, ig, n as int, link as int, dests@, d as int);
            let ghost next = dests_reports(tk, fv, ic, ig, n as int, link as int, dests@, d + 1);
            let ghost rep = dest_report(tk, fv, ic, ig, link as int, dests@[d as int] as int);
            proof {
                assert(next == match rep {
                    Some(r) => if 1 <= r.line <= n { prev.push(r) } else { prev },
                    None => prev,
                });
            }
            let ig_str = ignored_src.as_str();
            let dd = dests[d];
            proof {
                assert(ig_str@ == ig);
                assert(dd == dests@[d as int]);
            }
            let pr = dest_problem(tree, &fragments, ignore_case, ig_str, link, dd);
            match pr {
                Some(e) => {
                    let ghost ee = e;
                    emit.add_checked(n, e.line_number, e.detail, e.context, e.range, e.fix_info);
                    proof {
                        assert(rep == Some(super::report_of(ee)));
                        if 1 <= ee.line_number <= n {
                            assert(emit.errors@ == m2.push(ee));
                            super::lemma_reports_push(mid, m2, prev, ee);
                        }
                    }
                },
                None => {},
            }
            d += 1;
        }
        proof {
            super::lemma_reports_concat(
                e0,
                mid,
                emit.errors@,
                links_reports(tk, fv, ic, ig, n as int, links@, c as int),
                dests_reports(tk, fv, ic, ig, n as int, link as int, dests@, dests@.len() as int),
            );
        }
        c += 1;
    }
}

} // verus!
