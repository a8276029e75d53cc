use vstd::prelude::*;
use vstd::multiset::Multiset;

use crate::freq::total;
use crate::node::{
    codes, is_leaf, joint, leaf, leaf_symbols, left_of, paths, right_of, symbol, under, wf, Node,
    NodeType,
};

verus! {

/// One leaf per entry of a frequency table, in table order.
pub open spec fn leaves(t: Seq<(u32, u64)>) -> Seq<Node> {
    t.map_values(|e: (u32, u64)| leaf(e.0, e.1))
}

/// Position of the first node of lowest frequency in `q`.
pub open spec fn first_min(q: Seq<Node>) -> int
    decreases q.len(),
{
    if q.len() <= 1 {
        0
    } else {
        let m = first_min(q.drop_last());
        if q.last().frequency < q[m].frequency {
            q.len() - 1
        } else {
            m
        }
    }
}

/// One merge: take out the first node of lowest frequency, then the first
/// of lowest frequency among the rest, and append their joint.
pub open spec fn merge_step(q: Seq<Node>) -> Seq<Node> {
    let i = first_min(q);
    let q1 = q.remove(i);
    let j = first_min(q1);
    q1.remove(j).push(joint(q[i], q1[j]))
}

/// Merges until one node is left.
pub open spec fn merged(q: Seq<Node>) -> Node
    decreases q.len(),
{
    if q.len() <= 1 {
        q[0]
    } else {
        proof {
            lemma_first_min(q);
            lemma_first_min(q.remove(first_min(q)));
        }
        merged(merge_step(q))
    }
}

/// The Huffman tree of a frequency table.
pub open spec fn huffman(t: Seq<(u32, u64)>) -> Node {
    merged(leaves(t))
}

/// Sum of the frequencies of the nodes of `q`.
pub open spec fn weight(q: Seq<Node>) -> nat
    decreases q.len(),
{
    if q.len() == 0 {
        0
    } else {
        weight(q.drop_last()) + q.last().frequency as nat
    }
}

/// The leaf symbols of all the nodes of `q`.
pub open spec fn queue_symbols(q: Seq<Node>) -> Multiset<u32>
    decreases q.len(),
{
    if q.len() == 0 {
        Multiset::empty()
    } else {
        queue_symbols(q.drop_last()).add(leaf_symbols(q.last()))
    }
}

/// The symbols of a frequency table.
pub open spec fn table_symbols(t: Seq<(u32, u64)>) -> Multiset<u32> {
    t.map_values(|e: (u32, u64)| e.0).to_multiset()
}

pub proof fn lemma_first_min(q: Seq<Node>)
    requires
        q.len() >= 1,
    ensures
        0 <= first_min(q) < q.len(),
    decreases q.len(),
{
    if q.len() > 1 {
        lemma_first_min(q.drop_last());
    }
}

proof fn lemma_remove(q: Seq<Node>, i: int)
    requires
        0 <= i < q.len(),
    ensures
        weight(q) == weight(q.remove(i)) + q[i].frequency,
        queue_symbols(q) == queue_symbols(q.remove(i)).add(leaf_symbols(q[i])),
    decreases q.len(),
{
    let r = q.remove(i);
    if i == q.len() - 1 {
        assert(r =~= q.drop_last());
    } else {
        assert(r.drop_last() =~= q.drop_last().remove(i));
        assert(r.last() == q.last());
        lemma_remove(q.drop_last(), i);
        assert(queue_symbols(q) =~= queue_symbols(r).add(leaf_symbols(q[i])));
    }
}

proof fn lemma_push(q: Seq<Node>, n: Node)
    ensures
        weight(q.push(n)) == weight(q) + n.frequency,
        queue_symbols(q.push(n)) == queue_symbols(q).add(leaf_symbols(n)),
{
    assert(q.push(n).drop_last() =~= q);
}

proof fn lemma_weight_bound(q: Seq<Node>, i: int)
    requires
        0 <= i < q.len(),
    ensures
        q[i].frequency <= weight(q),
    decreases q.len(),
{
    if i < q.len() - 1 {
        lemma_weight_bound(q.drop_last(), i);
    }
}

/// A merge keeps the total weight, the leaf symbols and well-formedness,
/// and shortens the queue by one.
proof fn lemma_merge_step(q: Seq<Node>)
    requires
        q.len() >= 2,
        weight(q) <= u64::MAX,
        forall|k: int| 0 <= k < q.len() ==> wf(#[trigger] q[k]),
    ensures
        merge_step(q).len() == q.len() - 1,
        weight(merge_step(q)) == weight(q),
        queue_symbols(merge_step(q)) == queue_symbols(q),
        forall|k: int| 0 <= k < merge_step(q).len() ==> wf(#[trigger] merge_step(q)[k]),
{
    let i = first_min(q);
    lemma_first_min(q);
    let q1 = q.remove(i);
    lemma_first_min(q1);
    let j = first_min(q1);
    let q2 = q1.remove(j);
    let a = q[i];
    let b = q1[j];
    lemma_remove(q, i);
    lemma_remove(q1, j);
    lemma_push(q2, joint(a, b));
    assert(leaf_symbols(joint(a, b)) == leaf_symbols(a).add(leaf_symbols(b)));
    assert(queue_symbols(merge_step(q)) =~= queue_symbols(q));
    assert forall|k: int| 0 <= k < q1.len() implies wf(#[trigger] q1[k]) by {
        if k >= i {
            assert(q1[k] == q[k + 1]);
        }
    }
    assert forall|k: int| 0 <= k < q2.len() implies wf(#[trigger] q2[k]) by {
        if k >= j {
            assert(q2[k] == q1[k + 1]);
        }
    }
    assert(wf(joint(a, b)));
    assert forall|k: int| 0 <= k < merge_step(q).len() implies wf(#[trigger] merge_step(q)[k]) by {
        if k < q2.len() {
            assert(merge_step(q)[k] == q2[k]);
        }
    }
}

/// Merging a non-empty queue gives a well-formed tree with the queue's leaf
/// symbols and total weight.
pub proof fn lemma_merged(q: Seq<Node>)
    requires
        q.len() >= 1,
        weight(q) <= u64::MAX,
        forall|k: int| 0 <= k < q.len() ==> wf(#[trigger] q[k]),
    ensures
        wf(merged(q)),
        leaf_symbols(merged(q)) == queue_symbols(q),
        merged(q).frequency == weight(q),
    decreases q.len(),
{
    if q.len() == 1 {
        assert(q.drop_last().len() == 0);
        assert(queue_symbols(q.drop_last()) == Multiset::<u32>::empty());
        assert(weight(q.drop_last()) == 0);
        assert(queue_symbols(q) =~= leaf_symbols(q[0]));
    } else {
        lemma_merge_step(q);
        lemma_merged(merge_step(q));
    }
}

proof fn lemma_leaves(t: Seq<(u32, u64)>)
    ensures
        weight(leaves(t)) == total(t),
        queue_symbols(leaves(t)) == table_symbols(t),
        forall|k: int| 0 <= k < leaves(t).len() ==> wf(#[trigger] leaves(t)[k]),
    decreases t.len(),
{
    if t.len() > 0 {
        lemma_leaves(t.drop_last());
        assert(leaves(t).drop_last() =~= leaves(t.drop_last()));
        let keys = t.map_values(|e: (u32, u64)| e.0);
        assert(keys.drop_last() =~= t.drop_last().map_values(|e: (u32, u64)| e.0));
        assert(keys =~= keys.drop_last().push(keys.last()));
        keys.drop_last().to_multiset_ensures();
        let l = leaf(t.last().0, t.last().1);
        assert(leaves(t).last() == l);
        assert(is_leaf(l));
        assert(leaf_symbols(l) == Multiset::singleton(t.last().0));
        assert(table_symbols(t) =~= table_symbols(t.drop_last()).add(
            Multiset::singleton(t.last().0),
        ));
    } else {
        let keys = t.map_values(|e: (u32, u64)| e.0);
        keys.to_multiset_ensures();
        vstd::multiset::lemma_multiset_empty_len(keys.to_multiset());
        assert(table_symbols(t) =~= Multiset::empty());
    }
}

/// The Huffman tree of a non-empty table is well formed, has exactly the
/// table's symbols at its leaves, and has the table's total as frequency.
pub proof fn lemma_huffman(t: Seq<(u32, u64)>)
    requires
        t.len() >= 1,
        total(t) <= u64::MAX,
    ensures
        wf(huffman(t)),
        leaf_symbols(huffman(t)) == table_symbols(t),
        huffman(t).frequency == total(t),
{
    lemma_leaves(t);
    lemma_merged(leaves(t));
}

/// A Huffman tree.
pub struct HuffmanTree {
    root: Node,
}

fn first_min_index(q: &Vec<Node>) -> (r: usize)
    requires
        q@.len() >= 1,
    ensures
        r == first_min(q@),
{
    let mut m: usize = 0;
    let mut i: usize = 1;
    while i < q.len()
        invariant
            1 <= i <= q@.len(),
            m == first_min(q@.subrange(0, i as int)),
        decreases q@.len() - i,
    {
        proof {
            let s = q@.subrange(0, i + 1);
            assert(s.drop_last() =~= q@.subrange(0, i as int));
            lemma_first_min(q@.subrange(0, i as int));
            assert(s[m as int] == q@[m as int]);
        }
        if q[i].frequency < q[m].frequency {
            m = i;
        }
        i = i + 1;
    }
    assert(q@.subrange(0, i as int) =~= q@);
    m
}

impl HuffmanTree {
    /// Builds the Huffman tree of a frequency table: one leaf per entry,
    /// then, while more than one node is queued, the two of lowest frequency
    /// are joined, the first queued going left; among equal frequencies the
    /// earlier queued goes first, and joints queue behind the rest.
    pub fn new(freq_map: &Vec<(u32, u64)>) -> (r: HuffmanTree)
        requires
            freq_map@.len() >= 1,
            total(freq_map@) <= u64::MAX,
        ensures
            r.root() == huffman(freq_map@),
            r.wf(),
    {
        let mut queue: Vec<Node> = Vec::new();
        let mut k: usize = 0;
        while k < freq_map.len()
            invariant
                k <= freq_map@.len(),
                queue@ == leaves(freq_map@.subrange(0, k as int)),
            decreases freq_map@.len() - k,
        {
            let (ch, freq) = freq_map[k];
            queue.push(Node::new(NodeType::Character(ch), freq));
            k = k + 1;
            assert(queue@ =~= leaves(freq_map@.subrange(0, k as int)));
        }
        assert(freq_map@.subrange(0, k as int) =~= freq_map@);
        proof {
            lemma_leaves(freq_map@);
        }
        while queue.len() >= 2
            invariant
                queue@.len() >= 1,
                merged(queue@) == huffman(freq_map@),
                weight(queue@) <= u64::MAX,
                forall|k: int| 0 <= k < queue@.len() ==> wf(#[trigger] queue@[k]),
            decreases queue@.len(),
        {
            let ghost q = queue@;
            proof {
                lemma_merge_step(q);
                lemma_first_min(q);
            }
            let i = first_min_index(&queue);
            let left_node = queue.remove(i);
            proof {
                lemma_first_min(queue@);
                lemma_remove(q, i as int);
                lemma_weight_bound(q, i as int);
                lemma_weight_bound(queue@, first_min(queue@));
                lemma_remove(queue@, first_min(queue@));
            }
            let j = first_min_index(&queue);
            let right_node = queue.remove(j);
            let sum = left_node.frequency + right_node.frequency;
            let mut joint_node = Node::new(NodeType::Joint, sum);
            joint_node.left = Some(Box::new(left_node));
            joint_node.right = Some(Box::new(right_node));
            queue.push(joint_node);
            assert(queue@ =~= merge_step(q));
        }
        proof {
            lemma_huffman(freq_map@);
        }
        let root = queue.remove(0);
        HuffmanTree { root }
    }

    /// The tree is well formed.
    pub open spec fn wf(&self) -> bool {
        wf(self.root())
    }

    /// The root node.
    pub closed spec fn root(&self) -> Node {
        self.root
    }

    /// The root node.
    pub fn get_root(&self) -> (r: &Node)
        ensures
            *r == self.root(),
    {
        &self.root
    }
}

} // verus!
