use vstd::prelude::*;

use crate::node::{is_leaf, left_of, right_of, symbol, wf, Node, NodeType};

verus! {

/// A serialized node: the symbol of a leaf (`None` for a joint, whose two
/// subtrees follow it, left first) and the node's frequency.
pub type Entry = (Option<u32>, u64);

/// The `k` low bytes of `x`, least significant first.
pub open spec fn le_bytes(x: nat, k: nat) -> Seq<u8>
    decreases k,
{
    if k == 0 {
        Seq::empty()
    } else {
        seq![(x % 256) as u8] + le_bytes(x / 256, (k - 1) as nat)
    }
}

/// One entry in bincode's default encoding: a tag byte for the option (`0`
/// none, `1` some, then the symbol in four little-endian bytes) and the
/// frequency in eight little-endian bytes.
pub open spec fn entry_bytes(e: Entry) -> Seq<u8> {
    match e.0 {
        None => seq![0u8] + le_bytes(e.1 as nat, 8),
        Some(s) => seq![1u8] + le_bytes(s as nat, 4) + le_bytes(e.1 as nat, 8),
    }
}

/// The encodings of the entries of `v`, one after another.
pub open spec fn entries_bytes(v: Seq<Entry>) -> Seq<u8>
    decreases v.len(),
{
    if v.len() == 0 {
        Seq::empty()
    } else {
        entries_bytes(v.drop_last()) + entry_bytes(v.last())
    }
}

/// A list of entries in bincode's default encoding: the length in eight
/// little-endian bytes, then each entry.
pub open spec fn bincode_of(v: Seq<(Option<u32>, u64)>) -> Seq<u8> {
    le_bytes(v.len(), 8) + entries_bytes(v)
}

/// The tree that `b` stores: the one whose preorder entries have `b` as
/// their encoding, if there is such a list and it is one tree.
pub open spec fn stored_tree(b: Seq<u8>) -> Option<Node> {
    if exists|e: Seq<Entry>| bincode_of(e) == b {
        tree_of_entries(choose|e: Seq<Entry>| bincode_of(e) == b)
    } else {
        None
    }
}

#[verifier::external_type_specification]
#[verifier::external_body]
pub struct ExBincodeErrorKind(bincode::ErrorKind);

/// Relies on bincode::serialize: with its default options (fixed-width
/// integers, no size limit) a list of entries, whose length the `Vec` gives,
/// always serializes into a `Vec<u8>`, and its bytes are the encoding above.
#[verifier::external_body]
fn serialize_entries(v: &Vec<(Option<u32>, u64)>) -> (r: Result<Vec<u8>, Box<bincode::ErrorKind>>)
    ensures
        r is Ok,
        r matches Ok(b) ==> b@ == bincode_of(v@),
{
    bincode::serialize(v)
}

/// Relies on bincode::deserialize reading back what bincode::serialize
/// wrote: the encoding of a list of entries decodes to that list.
#[verifier::external_body]
fn deserialize_entries(b: &Vec<u8>) -> (r: Result<Vec<(Option<u32>, u64)>, Box<bincode::ErrorKind>>)
    ensures
        forall|v: Seq<(Option<u32>, u64)>|
            #[trigger] bincode_of(v) == b@ ==> r is Ok && r->Ok_0@ == v,
{
    bincode::deserialize(b)
}

/// The nodes of `n` in preorder.
pub open spec fn entries(n: Node) -> Seq<Entry>
    decreases n,
{
    if is_leaf(n) {
        seq![(Some(symbol(n)), n.frequency)]
    } else if n.left is Some && n.right is Some {
        seq![(None::<u32>, n.frequency)] + entries(*n.left->Some_0) + entries(*n.right->Some_0)
    } else {
        Seq::empty()
    }
}

/// A joint with the given children and frequency.
pub open spec fn branch(l: Node, r: Node, f: u64) -> Node {
    Node { value: NodeType::Joint, frequency: f, left: Some(Box::new(l)), right: Some(Box::new(r)) }
}

/// The subtree whose preorder starts at entry `pos` of `e`, and the position
/// after it; `None` where `e` ends first.
pub open spec fn parsed_at(e: Seq<Entry>, pos: int) -> Option<(Node, int)>
    decreases e.len() - pos,
{
    if pos < 0 || pos >= e.len() {
        None
    } else {
        match e[pos].0 {
            Some(s) => Some(
                (Node { value: NodeType::Character(s), frequency: e[pos].1, left: None, right: None }, pos + 1),
            ),
            None => match parsed_at(e, pos + 1) {
                None => None,
                Some((l, after_left)) => if after_left <= pos || after_left > e.len() {
                    None
                } else {
                    match parsed_at(e, after_left) {
                        None => None,
                        Some((r, after_right)) => Some((branch(l, r, e[pos].1), after_right)),
                    }
                },
            },
        }
    }
}

/// The tree that `e` is the preorder of, where it is exactly one tree.
pub open spec fn tree_of_entries(e: Seq<Entry>) -> Option<Node> {
    match parsed_at(e, 0) {
        Some((n, p)) => if p == e.len() {
            Some(n)
        } else {
            None
        },
        None => None,
    }
}

proof fn lemma_parsed_at(e: Seq<Entry>, pos: int)
    ensures
        parsed_at(e, pos) matches Some((n, p)) ==> wf(n) && pos < p <= e.len(),
    decreases e.len() - pos,
{
    if 0 <= pos < e.len() && e[pos].0 is None {
        lemma_parsed_at(e, pos + 1);
        if let Some((l, after_left)) = parsed_at(e, pos + 1) {
            if after_left > pos {
                lemma_parsed_at(e, after_left);
            }
        }
    }
}

proof fn lemma_parse_entries(n: Node, pre: Seq<Entry>, post: Seq<Entry>)
    requires
        wf(n),
    ensures
        parsed_at(pre + entries(n) + post, pre.len() as int) == Some(
            (n, (pre.len() + entries(n).len()) as int),
        ),
    decreases n,
{
    let e = pre + entries(n) + post;
    if is_leaf(n) {
        assert(e[pre.len() as int] == entries(n)[0]);
    } else {
        let l = left_of(n);
        let r = right_of(n);
        let head = seq![(None::<u32>, n.frequency)];
        assert(entries(n) == head + entries(l) + entries(r));
        assert(e[pre.len() as int] == entries(n)[0]);
        assert(e =~= (pre + head) + entries(l) + (entries(r) + post));
        lemma_parse_entries(l, pre + head, entries(r) + post);
        assert(e =~= (pre + head + entries(l)) + entries(r) + post);
        lemma_parse_entries(r, pre + head + entries(l), post);
        assert(branch(l, r, n.frequency) == n);
    }
}

/// A well-formed tree is read back from its preorder.
pub proof fn lemma_tree_of_entries(n: Node)
    requires
        wf(n),
    ensures
        tree_of_entries(entries(n)) == Some(n),
{
    lemma_parse_entries(n, Seq::empty(), Seq::empty());
    assert(Seq::<Entry>::empty() + entries(n) + Seq::<Entry>::empty() =~= entries(n));
}

fn push_entries(out: &mut Vec<Entry>, node: &Node)
    requires
        wf(*node),
    ensures
        final(out)@ == old(out)@ + entries(*node),
    decreases node,
{
    match (&node.left, &node.right) {
        (Some(l), Some(r)) => {
            out.push((None, node.frequency));
            push_entries(out, &**l);
            push_entries(out, &**r);
            assert(final(out)@ =~= old(out)@ + entries(*node));
        },
        _ => {
            match node.value {
                NodeType::Character(c) => {
                    out.push((Some(c), node.frequency));
                    assert(final(out)@ =~= old(out)@ + entries(*node));
                },
                NodeType::Joint => {},
            }
        },
    }
}

/// The preorder entries of a well-formed tree.
pub fn tree_entries(root: &Node) -> (r: Vec<Entry>)
    requires
        wf(*root),
    ensures
        r@ == entries(*root),
{
    let mut r: Vec<Entry> = Vec::new();
    push_entries(&mut r, root);
    assert(r@ =~= entries(*root));
    r
}

fn parse_at(e: &Vec<Entry>, pos: usize) -> (r: Option<(Node, usize)>)
    ensures
        match r {
            Some((n, p)) => parsed_at(e@, pos as int) == Some((n, p as int)),
            None => parsed_at(e@, pos as int) is None,
        },
    decreases e@.len() - pos,
{
    if pos >= e.len() {
        return None;
    }
    let (sym, freq) = e[pos];
    match sym {
        Some(s) => Some((Node::new(NodeType::Character(s), freq), pos + 1)),
        None => {
            proof {
                lemma_parsed_at(e@, pos + 1);
            }
            match parse_at(e, pos + 1) {
                None => None,
                Some((l, after_left)) => {
                    proof {
                        lemma_parsed_at(e@, after_left as int);
                    }
                    match parse_at(e, after_left) {
                        None => None,
                        Some((r, after_right)) => {
                            let mut n = Node::new(NodeType::Joint, freq);
                            n.left = Some(Box::new(l));
                            n.right = Some(Box::new(r));
                            Some((n, after_right))
                        },
                    }
                },
            }
        },
    }
}

/// Rebuilds a tree from its preorder entries; `None` where the entries end
/// inside the tree or go on after it.
pub fn parse_tree(e: &Vec<Entry>) -> (r: Option<Node>)
    ensures
        match r {
            Some(n) => tree_of_entries(e@) == Some(n) && wf(n),
            None => tree_of_entries(e@) is None,
        },
{
    proof {
        lemma_parsed_at(e@, 0);
    }
    match parse_at(e, 0) {
        Some((n, p)) => if p == e.len() {
            Some(n)
        } else {
            None
        },
        None => None,
    }
}

/// The bincode encoding of the preorder entries of a well-formed tree.
pub fn tree_bytes(root: &Node) -> (r: Vec<u8>)
    requires
        wf(*root),
    ensures
        r@ == bincode_of(entries(*root)),
{
    let e = tree_entries(root);
    match serialize_entries(&e) {
        Ok(b) => b,
        Err(_) => {
            proof {
                assert(false);
            }
            Vec::new()
        },
    }
}

fn same_bytes(a: &Vec<u8>, b: &Vec<u8>) -> (r: bool)
    ensures
        r == (a@ == b@),
{
    if a.len() != b.len() {
        return false;
    }
    let mut i: usize = 0;
    while i < a.len()
        invariant
            i <= a@.len(),
            a@.len() == b@.len(),
            forall|k: int| 0 <= k < i ==> a@[k] == b@[k],
        decreases a@.len() - i,
    {
        if a[i] != b[i] {
            return false;
        }
        i = i + 1;
    }
    assert(a@ =~= b@);
    true
}

/// Reads a tree back from its bytes: `None` where they are not exactly the
/// bincode encoding of a list of entries (trailing bytes included), or the
/// entries are not one tree. The bytes of a well-formed tree give that tree.
pub fn tree_from_bytes(b: &Vec<u8>) -> (r: Option<Node>)
    ensures
        r == stored_tree(b@),
        r matches Some(n) ==> wf(n),
        forall|n: Node| wf(n) && b@ == bincode_of(entries(n)) ==> r == Some(n),
{
    proof {
        assert forall|n: Node| wf(n) implies #[trigger] tree_of_entries(entries(n)) == Some(n) by {
            lemma_tree_of_entries(n);
        }
    }
    match deserialize_entries(b) {
        Ok(e) => {
            let again = match serialize_entries(&e) {
                Ok(x) => x,
                Err(_) => {
                    proof {
                        assert(false);
                    }
                    Vec::new()
                },
            };
            if same_bytes(&again, b) {
                proof {
                    let c = choose|x: Seq<Entry>| bincode_of(x) == b@;
                    assert(bincode_of(c) == b@);
                }
                parse_tree(&e)
            } else {
                proof {
                    if exists|x: Seq<Entry>| bincode_of(x) == b@ {
                        let c = choose|x: Seq<Entry>| bincode_of(x) == b@;
                        assert(bincode_of(c) == b@);
                    }
                }
                None
            }
        },
        Err(_) => {
            proof {
                if exists|x: Seq<Entry>| bincode_of(x) == b@ {
                    let c = choose|x: Seq<Entry>| bincode_of(x) == b@;
                    assert(bincode_of(c) == b@);
                }
            }
            None
        },
    }
}

} // verus!
