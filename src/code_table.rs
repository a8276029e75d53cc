use vstd::prelude::*;
use vstd::multiset::Multiset;

use crate::huffman_tree::HuffmanTree;
use crate::node::{
    codes, is_leaf, leaf_symbols, left_of, paths, right_of, symbol, under, wf, Node, NodeType,
};

verus! {

/// The mathematical content of an executable code table.
pub open spec fn table_view(t: Seq<(u32, Vec<bool>)>) -> Seq<(u32, Seq<bool>)> {
    t.map_values(|e: (u32, Vec<bool>)| (e.0, e.1@))
}

/// Puts `p` in front of every code of `t`.
pub open spec fn prefixed(t: Seq<(u32, Seq<bool>)>, p: Seq<bool>) -> Seq<(u32, Seq<bool>)> {
    t.map_values(|e: (u32, Seq<bool>)| (e.0, p + e.1))
}

/// Index of the first entry of `t` for symbol `c`.
pub open spec fn code_index(t: Seq<(u32, Seq<bool>)>, c: u32) -> Option<int>
    decreases t.len(),
{
    if t.len() == 0 {
        None
    } else if t[0].0 == c {
        Some(0)
    } else {
        match code_index(t.drop_first(), c) {
            Some(i) => Some(i + 1),
            None => None,
        }
    }
}

/// The code of `c` in `t`: that of its first entry, empty where it has none.
pub open spec fn lookup(t: Seq<(u32, Seq<bool>)>, c: u32) -> Seq<bool> {
    match code_index(t, c) {
        Some(i) => t[i].1,
        None => Seq::empty(),
    }
}

/// The codes of the symbols of `s`, one after another.
pub open spec fn encoded(s: Seq<u32>, t: Seq<(u32, Seq<bool>)>) -> Seq<bool>
    decreases s.len(),
{
    if s.len() == 0 {
        Seq::empty()
    } else {
        encoded(s.drop_last(), t) + lookup(t, s.last())
    }
}

/// `o` with `c` put in front, if it is a sequence.
pub open spec fn prepend(o: Option<Seq<u32>>, c: u32) -> Option<Seq<u32>> {
    match o {
        Some(s) => Some(seq![c] + s),
        None => None,
    }
}

/// Decoding `bits` from node `cur` of the tree rooted at `root`; `at_root`
/// tells that no bit of the current code has been read. Each bit steps to
/// the left (`false`) or right (`true`) child; a leaf emits its symbol and
/// decoding goes on from the root. A lone-leaf root takes one bit per
/// symbol. `None` where the bits end inside a code.
pub open spec fn decoded(root: Node, cur: Node, at_root: bool, bits: Seq<bool>) -> Option<Seq<u32>>
    decreases bits.len(),
{
    if bits.len() == 0 {
        if at_root {
            Some(Seq::empty())
        } else {
            None
        }
    } else {
        let next = if is_leaf(cur) {
            cur
        } else if bits[0] {
            right_of(cur)
        } else {
            left_of(cur)
        };
        if is_leaf(next) {
            prepend(decoded(root, root, true, bits.drop_first()), symbol(next))
        } else {
            decoded(root, next, false, bits.drop_first())
        }
    }
}

/// The symbols that `bits` decode to in the tree rooted at `root`.
pub open spec fn decode(root: Node, bits: Seq<bool>) -> Option<Seq<u32>> {
    decoded(root, root, true, bits)
}

pub proof fn lemma_code_index(t: Seq<(u32, Seq<bool>)>, c: u32)
    ensures
        match code_index(t, c) {
            Some(i) => 0 <= i < t.len() && t[i].0 == c && forall|k: int|
                0 <= k < i ==> t[k].0 != c,
            None => forall|k: int| 0 <= k < t.len() ==> t[k].0 != c,
        },
    decreases t.len(),
{
    if t.len() > 0 {
        lemma_code_index(t.drop_first(), c);
        assert forall|k: int| 0 < k < t.len() implies #[trigger] t[k] == t.drop_first()[k - 1] by {}
    }
}

proof fn lemma_prefixed_under(t: Seq<(u32, Seq<bool>)>, b: bool, p: Seq<bool>)
    ensures
        prefixed(under(t, b), p) == prefixed(t, p.push(b)),
{
    assert forall|i: int| 0 <= i < t.len() implies #[trigger] prefixed(under(t, b), p)[i]
        == prefixed(t, p.push(b))[i] by {
        assert(p + (seq![b] + t[i].1) =~= p.push(b) + t[i].1);
    }
    assert(prefixed(under(t, b), p) =~= prefixed(t, p.push(b)));
}

fn copy_bits(v: &Vec<bool>) -> (r: Vec<bool>)
    ensures
        r@ == v@,
{
    let mut r: Vec<bool> = Vec::new();
    let mut i: usize = 0;
    while i < v.len()
        invariant
            i <= v@.len(),
            r@ == v@.subrange(0, i as int),
        decreases v@.len() - i,
    {
        r.push(v[i]);
        i = i + 1;
        assert(r@ =~= v@.subrange(0, i as int));
    }
    assert(r@ =~= v@);
    r
}

/// The code table of the subtree at `node`, every code led by `mask`: a
/// fresh table, so no earlier entry can shadow its codes.
fn fill_code_table_recursive(node: &Node, mask: Vec<bool>) -> (r: Vec<(u32, Vec<bool>)>)
    requires
        wf(*node),
    ensures
        table_view(r@) == prefixed(paths(*node), mask@),
    decreases node,
{
    match (&node.left, &node.right) {
        (Some(l), Some(r)) => {
            let mut lmask = copy_bits(&mask);
            lmask.push(false);
            let mut table = fill_code_table_recursive(&**l, lmask);
            let ghost lt = table@;
            let mut rmask = mask;
            rmask.push(true);
            let mut rest = fill_code_table_recursive(&**r, rmask);
            let ghost rt = rest@;
            table.append(&mut rest);
            proof {
                lemma_prefixed_under(paths(**l), false, mask@);
                lemma_prefixed_under(paths(**r), true, mask@);
                let pl = under(paths(**l), false);
                let pr = under(paths(**r), true);
                assert(prefixed(pl + pr, mask@) =~= prefixed(pl, mask@) + prefixed(pr, mask@));
                assert(table_view(lt + rt) =~= table_view(lt) + table_view(rt));
                assert(table_view(table@) =~= prefixed(paths(*node), mask@));
            }
            table
        },
        _ => {
            let mut table: Vec<(u32, Vec<bool>)> = Vec::new();
            match node.value {
                NodeType::Character(c) => {
                    let ghost m = mask@;
                    table.push((c, mask));
                    proof {
                        assert(m + Seq::<bool>::empty() =~= m);
                        assert(table_view(table@) =~= prefixed(paths(*node), m));
                    }
                },
                NodeType::Joint => {},
            }
            table
        },
    }
}

/// The entries of `old` for symbols that have no code in `new`, in order.
pub open spec fn kept(old: Seq<(u32, Seq<bool>)>, new: Seq<(u32, Seq<bool>)>) -> Seq<
    (u32, Seq<bool>),
>
    decreases old.len(),
{
    if old.len() == 0 {
        Seq::empty()
    } else if code_index(new, old.last().0) is Some {
        kept(old.drop_last(), new)
    } else {
        kept(old.drop_last(), new).push(old.last())
    }
}

proof fn lemma_kept(old: Seq<(u32, Seq<bool>)>, new: Seq<(u32, Seq<bool>)>)
    ensures
        forall|k: int|
            0 <= k < kept(old, new).len() ==> code_index(new, #[trigger] kept(old, new)[k].0) is None,
    decreases old.len(),
{
    if old.len() > 0 {
        lemma_kept(old.drop_last(), new);
    }
}

/// No two entries of `t` are for the same symbol.
pub open spec fn distinct_symbols(t: Seq<(u32, Seq<bool>)>) -> bool {
    forall|i: int, j: int| 0 <= i < j < t.len() ==> #[trigger] t[i].0 != #[trigger] t[j].0
}

proof fn lemma_kept_from(old: Seq<(u32, Seq<bool>)>, new: Seq<(u32, Seq<bool>)>)
    ensures
        forall|k: int|
            0 <= k < kept(old, new).len() ==> exists|i: int|
                0 <= i < old.len() && #[trigger] kept(old, new)[k] == old[i],
        distinct_symbols(old) ==> distinct_symbols(kept(old, new)),
    decreases old.len(),
{
    if old.len() > 0 {
        let p = old.drop_last();
        lemma_kept_from(p, new);
        let kp = kept(p, new);
        let k = kept(old, new);
        assert forall|m: int| 0 <= m < k.len() implies exists|i: int|
            0 <= i < old.len() && #[trigger] k[m] == old[i] by {
            if m < kp.len() {
                assert(k[m] == kp[m]);
                let i = choose|i: int| 0 <= i < p.len() && kp[m] == p[i];
                assert(old[i] == p[i]);
            } else {
                assert(k[m] == old[old.len() - 1]);
            }
        }
        if distinct_symbols(old) {
            assert forall|a: int, b: int| 0 <= a < b < k.len() implies #[trigger] k[a].0
                != #[trigger] k[b].0 by {
                if b < kp.len() {
                    assert(k[a] == kp[a] && k[b] == kp[b]);
                } else {
                    assert(k[a] == kp[a]);
                    let i = choose|i: int| 0 <= i < p.len() && kp[a] == p[i];
                    assert(old[i] == p[i]);
                    assert(k[b] == old[old.len() - 1]);
                }
            }
        }
    }
}

/// Replacing keeps symbols distinct: where `old` and `new` each have
/// distinct symbols, so has `kept(old, new) + new`.
pub proof fn lemma_replaced_distinct(old: Seq<(u32, Seq<bool>)>, new: Seq<(u32, Seq<bool>)>)
    requires
        distinct_symbols(old),
        distinct_symbols(new),
    ensures
        distinct_symbols(kept(old, new) + new),
{
    let k = kept(old, new);
    let t = k + new;
    lemma_kept_from(old, new);
    lemma_kept(old, new);
    assert forall|a: int, b: int| 0 <= a < b < t.len() implies #[trigger] t[a].0
        != #[trigger] t[b].0 by {
        if b < k.len() {
            assert(t[a] == k[a] && t[b] == k[b]);
        } else if a >= k.len() {
            assert(t[a] == new[a - k.len()] && t[b] == new[b - k.len()]);
        } else {
            assert(t[a] == k[a]);
            assert(t[b] == new[b - k.len()]);
            lemma_code_index(new, k[a].0);
        }
    }
}

/// The code of a symbol that `new` codes is its code in `kept(old, new) + new`.
proof fn lemma_lookup_replaced(old: Seq<(u32, Seq<bool>)>, new: Seq<(u32, Seq<bool>)>, c: u32)
    requires
        code_index(new, c) is Some,
    ensures
        lookup(kept(old, new) + new, c) == lookup(new, c),
{
    let k = kept(old, new);
    let t = k + new;
    lemma_kept(old, new);
    lemma_code_index(new, c);
    lemma_code_index(t, c);
    let j = code_index(new, c)->Some_0;
    assert(t[k.len() + j] == new[j]);
    match code_index(t, c) {
        Some(i) => {
            if i < k.len() {
                assert(t[i] == k[i]);
            } else if i < k.len() + j {
                assert(t[i] == new[i - k.len()]);
            }
        },
        None => {},
    }
}

fn fresh_codes(tree: &HuffmanTree) -> (r: Vec<(u32, Vec<bool>)>)
    requires
        tree.wf(),
    ensures
        table_view(r@) == codes(tree.root()),
{
    let mut code_table: Vec<(u32, Vec<bool>)> = Vec::new();
    let root = tree.get_root();
    match (&root.left, &root.right, root.value) {
        (None, None, NodeType::Character(c)) => {
            let mut code: Vec<bool> = Vec::new();
            code.push(false);
            code_table.push((c, code));
            proof {
                assert(table_view(code_table@) =~= codes(tree.root()));
            }
        },
        _ => {
            code_table = fill_code_table_recursive(root, Vec::new());
            proof {
                assert(prefixed(paths(*root), Seq::empty()) =~= paths(*root)) by {
                    assert forall|i: int| 0 <= i < paths(*root).len() implies #[trigger] prefixed(
                        paths(*root),
                        Seq::empty(),
                    )[i] == paths(*root)[i] by {
                        assert(Seq::<bool>::empty() + paths(*root)[i].1 =~= paths(*root)[i].1);
                    }
                }
                assert(table_view(code_table@) =~= codes(tree.root()));
            }
        },
    }
    code_table
}

/// Puts the code table of `tree` into `code_table`: each leaf, left to
/// right, with its path from the root; a tree that is a lone leaf gives its
/// symbol the code `0`. Entries for symbols that the tree codes are
/// replaced; the others stay, in order, before the new codes.
pub fn fill_code_table(code_table: &mut Vec<(u32, Vec<bool>)>, tree: &HuffmanTree)
    requires
        tree.wf(),
    ensures
        table_view(final(code_table)@) == kept(table_view(old(code_table)@), codes(tree.root()))
            + codes(tree.root()),
        forall|c: u32|
            #[trigger] code_index(codes(tree.root()), c) is Some ==> lookup(
                table_view(final(code_table)@),
                c,
            ) == lookup(codes(tree.root()), c),
        distinct_symbols(table_view(old(code_table)@)) && distinct_symbols(codes(tree.root()))
            ==> distinct_symbols(table_view(final(code_table)@)),
{
    let fresh = fresh_codes(tree);
    let ghost new = codes(tree.root());
    let ghost old_view = table_view(code_table@);
    let mut out: Vec<(u32, Vec<bool>)> = Vec::new();
    let mut i: usize = 0;
    while i < code_table.len()
        invariant
            i <= code_table@.len(),
            old_view == table_view(code_table@),
            new == table_view(fresh@),
            table_view(out@) == kept(old_view.take(i as int), new),
        decreases code_table@.len() - i,
    {
        proof {
            assert(old_view.take(i + 1).drop_last() =~= old_view.take(i as int));
            assert(old_view[i as int] == (code_table@[i as int].0, code_table@[i as int].1@));
        }
        let sym = code_table[i].0;
        match code_of(&fresh, sym) {
            Some(_) => {},
            None => {
                let code = copy_bits(&code_table[i].1);
                out.push((sym, code));
                proof {
                    assert(table_view(out@) =~= kept(old_view.take(i + 1), new));
                }
            },
        }
        i = i + 1;
    }
    assert(old_view.take(i as int) =~= old_view);
    let ghost k = table_view(out@);
    let mut j: usize = 0;
    while j < fresh.len()
        invariant
            j <= fresh@.len(),
            new == table_view(fresh@),
            table_view(out@) == k + new.take(j as int),
        decreases fresh@.len() - j,
    {
        proof {
            assert(new[j as int] == (fresh@[j as int].0, fresh@[j as int].1@));
        }
        let code = copy_bits(&fresh[j].1);
        let sym = fresh[j].0;
        let ghost before = out@;
        out.push((sym, code));
        proof {
            assert(table_view(out@) =~= table_view(before).push(new[j as int]));
            assert(new.take(j + 1) =~= new.take(j as int).push(new[j as int]));
        }
        j = j + 1;
        proof {
            assert(table_view(out@) =~= k + new.take(j as int));
        }
    }
    assert(new.take(j as int) =~= new);
    *code_table = out;
    proof {
        assert forall|c: u32| #[trigger] code_index(new, c) is Some implies lookup(
            table_view(code_table@),
            c,
        ) == lookup(new, c) by {
            lemma_lookup_replaced(old_view, new, c);
        }
        if distinct_symbols(old_view) && distinct_symbols(new) {
            lemma_replaced_distinct(old_view, new);
        }
    }
}

fn code_of(table: &Vec<(u32, Vec<bool>)>, c: u32) -> (r: Option<usize>)
    ensures
        match r {
            Some(i) => code_index(table_view(table@), c) == Some(i as int),
            None => code_index(table_view(table@), c) is None,
        },
{
    proof {
        lemma_code_index(table_view(table@), c);
    }
    let mut i: usize = 0;
    while i < table.len()
        invariant
            i <= table@.len(),
            forall|k: int| 0 <= k < i ==> table_view(table@)[k].0 != c,
            match code_index(table_view(table@), c) {
                Some(m) => 0 <= m < table@.len() && table_view(table@)[m].0 == c && forall|k: int|
                    0 <= k < m ==> table_view(table@)[k].0 != c,
                None => forall|k: int| 0 <= k < table@.len() ==> table_view(table@)[k].0 != c,
            },
        decreases table@.len() - i,
    {
        assert(table_view(table@)[i as int] == (table@[i as int].0, table@[i as int].1@));
        if table[i].0 == c {
            return Some(i);
        }
        i = i + 1;
    }
    None
}

/// The bits of `symbols` under `table`: the code of each symbol in turn.
pub fn encode(symbols: &Vec<u32>, table: &Vec<(u32, Vec<bool>)>) -> (r: Vec<bool>)
    ensures
        r@ == encoded(symbols@, table_view(table@)),
{
    let ghost t = table_view(table@);
    let mut bits: Vec<bool> = Vec::new();
    let mut j: usize = 0;
    while j < symbols.len()
        invariant
            j <= symbols@.len(),
            t == table_view(table@),
            bits@ == encoded(symbols@.take(j as int), t),
        decreases symbols@.len() - j,
    {
        let c = symbols[j];
        let ghost before = bits@;
        proof {
            assert(symbols@.take(j + 1).drop_last() =~= symbols@.take(j as int));
        }
        proof {
            lemma_code_index(t, c);
        }
        match code_of(table, c) {
            Some(i) => {
                assert(t[i as int] == (table@[i as int].0, table@[i as int].1@));
                let code = &table[i].1;
                assert(code@ == lookup(t, c));
                let mut k: usize = 0;
                while k < code.len()
                    invariant
                        k <= code@.len(),
                        bits@ == before + code@.subrange(0, k as int),
                    decreases code@.len() - k,
                {
                    bits.push(code[k]);
                    k = k + 1;
                    assert(bits@ =~= before + code@.subrange(0, k as int));
                }
                assert(code@.subrange(0, k as int) =~= code@);
            },
            None => {
                assert(before + lookup(t, c) =~= before);
            },
        }
        j = j + 1;
    }
    assert(symbols@.take(j as int) =~= symbols@);
    bits
}

/// Decodes `bits` in the tree rooted at `root`; `None` where they end
/// inside a code.
pub fn decode_bits(root: &Node, bits: &Vec<bool>) -> (r: Option<Vec<u32>>)
    requires
        wf(*root),
    ensures
        match r {
            Some(s) => decode(*root, bits@) == Some(s@),
            None => decode(*root, bits@) is None,
        },
{
    let mut out: Vec<u32> = Vec::new();
    let mut cur: &Node = root;
    let mut at_root: bool = true;
    let mut i: usize = 0;
    proof {
        assert(bits@.subrange(0, bits@.len() as int) =~= bits@);
        match decode(*root, bits@) {
            Some(x) => {
                assert(out@ + x =~= x);
            },
            None => {},
        }
    }
    while i < bits.len()
        invariant
            i <= bits@.len(),
            wf(*root),
            wf(*cur),
            decode(*root, bits@) == (match decoded(
                *root,
                *cur,
                at_root,
                bits@.subrange(i as int, bits@.len() as int),
            ) {
                Some(rest) => Some(out@ + rest),
                None => None,
            }),
        decreases bits@.len() - i,
    {
        let ghost rest = bits@.subrange(i as int, bits@.len() as int);
        proof {
            assert(rest.drop_first() =~= bits@.subrange(i + 1, bits@.len() as int));
        }
        let b = bits[i];
        let next: &Node = match (&cur.left, &cur.right) {
            (Some(l), Some(r)) => if b {
                &**r
            } else {
                &**l
            },
            _ => cur,
        };
        match (&next.left, &next.right, next.value) {
            (None, None, NodeType::Character(c)) => {
                proof {
                    match decoded(*root, *root, true, rest.drop_first()) {
                        Some(x) => {
                            assert(out@.push(c) + x =~= out@ + (seq![c] + x));
                        },
                        None => {},
                    }
                }
                out.push(c);
                cur = root;
                at_root = true;
            },
            _ => {
                cur = next;
                at_root = false;
            },
        }
        i = i + 1;
    }
    proof {
        assert(bits@.subrange(i as int, bits@.len() as int).len() == 0);
        assert(out@ + Seq::<u32>::empty() =~= out@);
    }
    if at_root {
        Some(out)
    } else {
        None
    }
}

proof fn lemma_decode_paths(root: Node, n: Node, f: bool, k: int, rest: Seq<bool>)
    requires
        wf(n),
        !is_leaf(n),
        0 <= k < paths(n).len(),
    ensures
        decoded(root, n, f, paths(n)[k].1 + rest) == prepend(
            decoded(root, root, true, rest),
            paths(n)[k].0,
        ),
    decreases n,
{
    let l = left_of(n);
    let r = right_of(n);
    let pl = under(paths(l), false);
    let pr = under(paths(r), true);
    assert(paths(n) == pl + pr);
    if k < pl.len() {
        let c = paths(l)[k].1;
        let bits = paths(n)[k].1 + rest;
        assert(paths(n)[k] == pl[k]);
        assert(bits =~= seq![false] + (c + rest));
        assert(bits.drop_first() =~= c + rest);
        if is_leaf(l) {
            assert(c =~= Seq::<bool>::empty());
            assert(c + rest =~= rest);
        } else {
            lemma_decode_paths(root, l, false, k, rest);
        }
    } else {
        let kk = k - pl.len();
        let c = paths(r)[kk].1;
        let bits = paths(n)[k].1 + rest;
        assert(paths(n)[k] == pr[kk]);
        assert(bits =~= seq![true] + (c + rest));
        assert(bits.drop_first() =~= c + rest);
        if is_leaf(r) {
            assert(c =~= Seq::<bool>::empty());
            assert(c + rest =~= rest);
        } else {
            lemma_decode_paths(root, r, false, kk, rest);
        }
    }
}

/// Decoding the code of a table entry, then more bits, emits the entry's
/// symbol and then what the further bits decode to.
pub proof fn lemma_decode_code(root: Node, k: int, rest: Seq<bool>)
    requires
        wf(root),
        0 <= k < codes(root).len(),
    ensures
        decode(root, codes(root)[k].1 + rest) == prepend(decode(root, rest), codes(root)[k].0),
{
    if is_leaf(root) {
        let bits = codes(root)[k].1 + rest;
        assert(bits.drop_first() =~= rest);
    } else {
        lemma_decode_paths(root, root, true, k, rest);
    }
}

proof fn lemma_encoded_front(s: Seq<u32>, t: Seq<(u32, Seq<bool>)>)
    requires
        s.len() > 0,
    ensures
        encoded(s, t) == lookup(t, s[0]) + encoded(s.drop_first(), t),
    decreases s.len(),
{
    if s.len() == 1 {
        assert(s.drop_last().len() == 0);
        assert(s.drop_first().len() == 0);
        assert(encoded(s.drop_last(), t) == Seq::<bool>::empty());
        assert(encoded(s.drop_first(), t) == Seq::<bool>::empty());
        assert(encoded(s, t) =~= lookup(t, s[0]) + encoded(s.drop_first(), t));
    } else {
        lemma_encoded_front(s.drop_last(), t);
        assert(s.drop_last().drop_first() =~= s.drop_first().drop_last());
        assert(encoded(s, t) =~= lookup(t, s[0]) + encoded(s.drop_first(), t));
    }
}

/// Where every symbol of `s` has a code in the tree's table, decoding the
/// encoded symbols gives `s` back.
pub proof fn lemma_decode_encoded(root: Node, s: Seq<u32>)
    requires
        wf(root),
        forall|j: int| 0 <= j < s.len() ==> #[trigger] code_index(codes(root), s[j]) is Some,
    ensures
        decode(root, encoded(s, codes(root))) == Some(s),
    decreases s.len(),
{
    let t = codes(root);
    if s.len() == 0 {
        assert(decode(root, encoded(s, t)) == Some(Seq::<u32>::empty()));
        assert(s =~= Seq::<u32>::empty());
    } else {
        lemma_encoded_front(s, t);
        assert(code_index(t, s[0]) is Some);
        lemma_code_index(t, s[0]);
        let k = code_index(t, s[0])->Some_0;
        assert forall|j: int| 0 <= j < s.drop_first().len() implies #[trigger] code_index(
            t,
            s.drop_first()[j],
        ) is Some by {
            assert(s.drop_first()[j] == s[j + 1]);
        }
        lemma_decode_encoded(root, s.drop_first());
        lemma_decode_code(root, k, encoded(s.drop_first(), t));
        assert(seq![s[0]] + s.drop_first() =~= s);
    }
}

proof fn lemma_paths_cover(n: Node, c: u32)
    requires
        wf(n),
        leaf_symbols(n).count(c) > 0,
    ensures
        exists|k: int| 0 <= k < paths(n).len() && #[trigger] paths(n)[k].0 == c,
    decreases n,
{
    if is_leaf(n) {
        assert(leaf_symbols(n) == Multiset::singleton(symbol(n)));
        assert(paths(n)[0].0 == c);
    } else {
        let l = left_of(n);
        let r = right_of(n);
        let pl = under(paths(l), false);
        let pr = under(paths(r), true);
        assert(paths(n) == pl + pr);
        assert(leaf_symbols(n) == leaf_symbols(l).add(leaf_symbols(r)));
        if leaf_symbols(l).count(c) > 0 {
            lemma_paths_cover(l, c);
            let k = choose|k: int| 0 <= k < paths(l).len() && #[trigger] paths(l)[k].0 == c;
            assert(paths(n)[k] == pl[k]);
            assert(pl[k].0 == c);
            assert(paths(n)[k].0 == c);
        } else {
            assert(leaf_symbols(r).count(c) > 0);
            lemma_paths_cover(r, c);
            let k = choose|k: int| 0 <= k < paths(r).len() && #[trigger] paths(r)[k].0 == c;
            assert(paths(n)[k + pl.len()] == pr[k]);
            assert(pr[k].0 == c);
            assert(paths(n)[k + pl.len()].0 == c);
        }
    }
}

/// Every leaf symbol of a well-formed tree has a code in its table.
pub proof fn lemma_codes_cover(root: Node, c: u32)
    requires
        wf(root),
        leaf_symbols(root).count(c) > 0,
    ensures
        code_index(codes(root), c) is Some,
{
    lemma_code_index(codes(root), c);
    if is_leaf(root) {
        assert(leaf_symbols(root) == Multiset::singleton(symbol(root)));
        assert(codes(root)[0].0 == c);
    } else {
        lemma_paths_cover(root, c);
    }
}

proof fn lemma_paths_symbols(n: Node)
    requires
        wf(n),
    ensures
        forall|k: int| 0 <= k < paths(n).len() ==> leaf_symbols(n).count(#[trigger] paths(n)[k].0) > 0,
    decreases n,
{
    if is_leaf(n) {
        assert(leaf_symbols(n) == Multiset::singleton(symbol(n)));
    } else {
        let l = left_of(n);
        let r = right_of(n);
        lemma_paths_symbols(l);
        lemma_paths_symbols(r);
        let pl = under(paths(l), false);
        let pr = under(paths(r), true);
        assert(paths(n) == pl + pr);
        assert(leaf_symbols(n) == leaf_symbols(l).add(leaf_symbols(r)));
        assert forall|k: int| 0 <= k < paths(n).len() implies leaf_symbols(n).count(
            #[trigger] paths(n)[k].0,
        ) > 0 by {
            if k < pl.len() {
                assert(paths(n)[k] == pl[k]);
                assert(pl[k].0 == paths(l)[k].0);
            } else {
                assert(paths(n)[k] == pr[k - pl.len()]);
                assert(pr[k - pl.len()].0 == paths(r)[k - pl.len()].0);
            }
        }
    }
}

proof fn lemma_paths_distinct(n: Node)
    requires
        wf(n),
        forall|c: u32| #[trigger] leaf_symbols(n).count(c) <= 1,
    ensures
        distinct_symbols(paths(n)),
    decreases n,
{
    if !is_leaf(n) {
        let l = left_of(n);
        let r = right_of(n);
        assert(leaf_symbols(n) == leaf_symbols(l).add(leaf_symbols(r)));
        assert forall|c: u32| #[trigger] leaf_symbols(l).count(c) <= 1 by {
            assert(leaf_symbols(n).count(c) <= 1);
        }
        assert forall|c: u32| #[trigger] leaf_symbols(r).count(c) <= 1 by {
            assert(leaf_symbols(n).count(c) <= 1);
        }
        lemma_paths_distinct(l);
        lemma_paths_distinct(r);
        lemma_paths_symbols(l);
        lemma_paths_symbols(r);
        let pl = under(paths(l), false);
        let pr = under(paths(r), true);
        let t = paths(n);
        assert(t == pl + pr);
        assert forall|a: int, b: int| 0 <= a < b < t.len() implies #[trigger] t[a].0
            != #[trigger] t[b].0 by {
            if b < pl.len() {
                assert(t[a] == pl[a] && t[b] == pl[b]);
                assert(pl[a].0 == paths(l)[a].0 && pl[b].0 == paths(l)[b].0);
            } else if a >= pl.len() {
                let aa = a - pl.len();
                let bb = b - pl.len();
                assert(t[a] == pr[aa] && t[b] == pr[bb]);
                assert(pr[aa].0 == paths(r)[aa].0 && pr[bb].0 == paths(r)[bb].0);
            } else {
                let bb = b - pl.len();
                assert(t[a] == pl[a] && t[b] == pr[bb]);
                assert(pl[a].0 == paths(l)[a].0 && pr[bb].0 == paths(r)[bb].0);
                let c = t[a].0;
                if c == t[b].0 {
                    assert(leaf_symbols(l).count(c) > 0);
                    assert(leaf_symbols(r).count(c) > 0);
                    assert(leaf_symbols(n).count(c) <= 1);
                }
            }
        }
    }
}

/// A tree with no leaf symbol twice has a code table with distinct symbols.
pub proof fn lemma_codes_distinct(root: Node)
    requires
        wf(root),
        forall|c: u32| #[trigger] leaf_symbols(root).count(c) <= 1,
    ensures
        distinct_symbols(codes(root)),
{
    if !is_leaf(root) {
        lemma_paths_distinct(root);
    }
}

} // verus!
