//! Depth-first walks over the token tree.

use vstd::prelude::*;

use crate::md::tokens::{Token, Tree};

verus! {

/// The children of `node`, last first, as a stack receives them.
pub open spec fn rev_children(tokens: Seq<Token>, node: int) -> Seq<usize> {
    tokens[node].children@.reverse()
}

/// A depth-first walk from `stack` (its top last) of at most `budget`
/// steps: the nodes taken, in order; each node taken has its children
/// pushed.
pub open spec fn dfs(tokens: Seq<Token>, stack: Seq<usize>, budget: nat) -> Seq<usize>
    decreases budget,
{
    if budget == 0 || stack.len() == 0 {
        Seq::empty()
    } else {
        let node = stack.last();
        seq![node] + dfs(tokens, stack.drop_last() + rev_children(tokens, node as int), (budget - 1) as nat)
    }
}

/// The walk below `root`, within the arena's size.
pub open spec fn walk_below(tokens: Seq<Token>, root: int) -> Seq<usize> {
    dfs(tokens, rev_children(tokens, root), tokens.len())
}

/// Push the children of `node` on `stack`, last first.
pub fn push_children(tree: &Tree, node: usize, stack: &mut Vec<usize>)
    requires
        tree.wf(),
        node < tree.tokens@.len(),
        forall|k: int| 0 <= k < old(stack)@.len() ==> #[trigger] old(stack)@[k] < tree.tokens@.len(),
    ensures
        forall|k: int| 0 <= k < final(stack)@.len() ==> #[trigger] final(stack)@[k] < tree.tokens@.len(),
        final(stack)@ == old(stack)@ + rev_children(tree.tokens@, node as int),
{
    let ch = &tree.tokens[node].children;
    let ghost s0 = stack@;
    let ghost cv = ch@;
    let mut j = ch.len();
    while j > 0
        invariant
            tree.wf(),
            node < tree.tokens@.len(),
            ch@ == tree.tokens@[node as int].children@,
            cv == ch@,
            j <= ch@.len(),
            stack@ == s0 + cv.subrange(j as int, cv.len() as int).reverse(),
            forall|k: int| 0 <= k < stack@.len() ==> #[trigger] stack@[k] < tree.tokens@.len(),
        decreases j,
    {
        j -= 1;
        proof {
            tree.lemma_child(node as int, j as int);
        }
        stack.push(ch[j]);
        proof {
            assert(cv.subrange(j as int, cv.len() as int).reverse() =~= cv.subrange(j + 1, cv.len() as int).reverse().push(cv[j as int]));
        }
    }
    proof {
        assert(cv.subrange(0, cv.len() as int) =~= cv);
    }
}

} // verus!
