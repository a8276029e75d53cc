use vstd::prelude::*;
use vstd::multiset::Multiset;

verus! {

/// What a node holds: a symbol (a leaf) or nothing (a joint of two subtrees).
#[derive(PartialEq, Eq, Structural, Debug, Clone, Copy)]
pub enum NodeType {
    Character(u32),
    Joint,
}

/// A node of a Huffman tree; a well-formed leaf has no children, a
/// well-formed joint has both.
#[derive(Debug)]
pub struct Node {
    pub value: NodeType,
    pub frequency: u64,
    pub left: Option<Box<Node>>,
    pub right: Option<Box<Node>>,
}

impl Node {
    /// A node with the given value and frequency and no children.
    pub fn new(value: NodeType, frequency: u64) -> (r: Node)
        ensures
            r.value == value,
            r.frequency == frequency,
            r.left is None,
            r.right is None,
    {
        Node { value, frequency, left: None, right: None }
    }
}

/// Is `n` a leaf: a symbol and no children.
pub open spec fn is_leaf(n: Node) -> bool {
    n.value is Character && n.left is None && n.right is None
}

/// The symbol of a leaf.
pub open spec fn symbol(n: Node) -> u32 {
    n.value->Character_0
}

/// Every node of `n` is either a leaf or a joint with both children.
pub open spec fn wf(n: Node) -> bool
    decreases n,
{
    if is_leaf(n) {
        true
    } else {
        &&& n.value is Joint
        &&& n.left is Some
        &&& n.right is Some
        &&& wf(*n.left->Some_0)
        &&& wf(*n.right->Some_0)
    }
}

/// The left child of a joint.
pub open spec fn left_of(n: Node) -> Node {
    *n.left->Some_0
}

/// The right child of a joint.
pub open spec fn right_of(n: Node) -> Node {
    *n.right->Some_0
}

/// The joint of two subtrees; its frequency is the sum of theirs.
pub open spec fn joint(a: Node, b: Node) -> Node {
    Node {
        value: NodeType::Joint,
        frequency: (a.frequency + b.frequency) as u64,
        left: Some(Box::new(a)),
        right: Some(Box::new(b)),
    }
}

/// A leaf for symbol `s` with frequency `f`.
pub open spec fn leaf(s: u32, f: u64) -> Node {
    Node { value: NodeType::Character(s), frequency: f, left: None, right: None }
}

/// The symbols at the leaves of `n`, counted with repetition.
pub open spec fn leaf_symbols(n: Node) -> Multiset<u32>
    decreases n,
{
    if is_leaf(n) {
        Multiset::singleton(symbol(n))
    } else if n.left is Some && n.right is Some {
        leaf_symbols(*n.left->Some_0).add(leaf_symbols(*n.right->Some_0))
    } else {
        Multiset::empty()
    }
}

/// Prepends bit `b` to every code of `t`.
pub open spec fn under(t: Seq<(u32, Seq<bool>)>, b: bool) -> Seq<(u32, Seq<bool>)> {
    t.map_values(|e: (u32, Seq<bool>)| (e.0, seq![b] + e.1))
}

/// Each leaf of `n`, left to right, with its path from `n`: `false` for a
/// step to the left child, `true` for a step to the right.
pub open spec fn paths(n: Node) -> Seq<(u32, Seq<bool>)>
    decreases n,
{
    if is_leaf(n) {
        seq![(symbol(n), Seq::<bool>::empty())]
    } else if n.left is Some && n.right is Some {
        under(paths(*n.left->Some_0), false) + under(paths(*n.right->Some_0), true)
    } else {
        Seq::empty()
    }
}

/// The code table of a tree rooted at `root`: the leaf paths, except that a
/// lone leaf gets the one-bit code `0` so that every symbol costs a bit.
pub open spec fn codes(root: Node) -> Seq<(u32, Seq<bool>)> {
    if is_leaf(root) {
        seq![(symbol(root), seq![false])]
    } else {
        paths(root)
    }
}

/// Is `p` a prefix of `q`.
pub open spec fn is_prefix(p: Seq<bool>, q: Seq<bool>) -> bool {
    p.len() <= q.len() && q.subrange(0, p.len() as int) == p
}

/// No code of `t` is a prefix of another entry's code.
pub open spec fn prefix_free(t: Seq<(u32, Seq<bool>)>) -> bool {
    forall|i: int, j: int|
        0 <= i < t.len() && 0 <= j < t.len() && i != j ==> !is_prefix(#[trigger] t[i].1, #[trigger] t[j].1)
}

/// The leaf paths of a well-formed tree form a prefix-free code.
pub proof fn lemma_paths_prefix_free(n: Node)
    requires
        wf(n),
    ensures
        prefix_free(paths(n)),
        forall|i: int| 0 <= i < paths(n).len() && !is_leaf(n) ==> #[trigger] paths(n)[i].1.len() >= 1,
    decreases n,
{
    if !is_leaf(n) {
        let l = left_of(n);
        let r = right_of(n);
        lemma_paths_prefix_free(l);
        lemma_paths_prefix_free(r);
        let pl = under(paths(l), false);
        let pr = under(paths(r), true);
        let t = paths(n);
        assert(t == pl + pr);
        assert forall|i: int, j: int|
            0 <= i < t.len() && 0 <= j < t.len() && i != j implies !is_prefix(
            #[trigger] t[i].1,
            #[trigger] t[j].1,
        ) by {
            if i < pl.len() && j < pl.len() {
                let a = paths(l)[i].1;
                let b = paths(l)[j].1;
                assert(t[i].1 == seq![false] + a);
                assert(t[j].1 == seq![false] + b);
                if is_prefix(t[i].1, t[j].1) {
                    let k = a.len() as int;
                    assert(b.subrange(0, k) =~= (seq![false] + b).subrange(0, k + 1).subrange(
                        1,
                        k + 1,
                    ));
                    assert(a =~= (seq![false] + a).subrange(1, k + 1));
                    assert(is_prefix(paths(l)[i].1, paths(l)[j].1));
                }
            } else if i >= pl.len() && j >= pl.len() {
                let ii = i - pl.len();
                let jj = j - pl.len();
                let a = paths(r)[ii].1;
                let b = paths(r)[jj].1;
                assert(t[i].1 == seq![true] + a);
                assert(t[j].1 == seq![true] + b);
                if is_prefix(t[i].1, t[j].1) {
                    let k = a.len() as int;
                    assert(b.subrange(0, k) =~= (seq![true] + b).subrange(0, k + 1).subrange(
                        1,
                        k + 1,
                    ));
                    assert(a =~= (seq![true] + a).subrange(1, k + 1));
                    assert(is_prefix(paths(r)[ii].1, paths(r)[jj].1));
                }
            } else {
                let x = t[i].1;
                let y = t[j].1;
                assert(x[0] != y[0]);
                if is_prefix(x, y) {
                    assert(y.subrange(0, x.len() as int)[0] == y[0]);
                }
            }
        }
    }
}

/// The code table of a well-formed tree is prefix-free.
pub proof fn lemma_codes_prefix_free(root: Node)
    requires
        wf(root),
    ensures
        prefix_free(codes(root)),
{
    if !is_leaf(root) {
        lemma_paths_prefix_free(root);
    }
}

} // verus!
