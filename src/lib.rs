use vstd::prelude::*;

pub mod bits;
pub mod code_table;
pub mod config;
pub mod container;
pub mod errors;
pub mod freq;
pub mod huffman_tree;
pub mod node;
pub mod tree_codec;

pub use crate::code_table::fill_code_table;
pub use crate::config::Config;
pub use crate::errors::{FormatError, HuffError, InputError};
pub use crate::freq::char_freq;
pub use crate::huffman_tree::HuffmanTree;
pub use crate::node::{Node, NodeType};

use crate::bits::{byte_len, lemma_unpack_pack, pack_bits, packed, unpack_bits, unpacked};
use crate::code_table::{
    decode, decoded, decode_bits, encode, encoded, lemma_codes_cover, lookup,
    lemma_decode_encoded, table_view,
};
use crate::container::{frame, framed, lemma_unframe_frame, unframe, unframed};
use crate::freq::{find, freq_table, lemma_find, lemma_freq_table, symbols, symbols_of};
use crate::huffman_tree::{huffman, lemma_huffman};
use crate::node::{codes, wf};
use crate::tree_codec::{bincode_of, entries, stored_tree, tree_bytes, tree_from_bytes};

verus! {

/// Is `u` a Unicode scalar value.
pub open spec fn is_scalar(u: u32) -> bool {
    u <= 0x10FFFF && !(0xD800 <= u && u <= 0xDFFF)
}

/// Relies on char::from_u32: `Some` exactly for Unicode scalar values,
/// holding the char of that value.
#[verifier::external_body]
fn char_of(u: u32) -> (r: Option<char>)
    ensures
        r is Some <==> is_scalar(u),
        r matches Some(c) ==> c as u32 == u,
{
    char::from_u32(u)
}

/// Relies on collecting chars into a `String` (`FromIterator<&char>`): the
/// string holds the chars in order.
#[verifier::external_body]
fn string_of(v: &Vec<char>) -> (r: String)
    ensures
        r@ == v@,
{
    v.iter().collect()
}

/// Every leaf symbol of `n` is a Unicode scalar value.
pub open spec fn leaves_scalar(n: Node) -> bool
    decreases n,
{
    if crate::node::is_leaf(n) {
        is_scalar(crate::node::symbol(n))
    } else if n.left is Some && n.right is Some {
        leaves_scalar(*n.left->Some_0) && leaves_scalar(*n.right->Some_0)
    } else {
        true
    }
}

fn check_leaves(n: &Node) -> (r: bool)
    requires
        wf(*n),
    ensures
        r == leaves_scalar(*n),
    decreases n,
{
    match (&n.left, &n.right) {
        (Some(l), Some(r)) => check_leaves(&**l) && check_leaves(&**r),
        _ => match n.value {
            NodeType::Character(u) => u <= 0x10FFFF && !(0xD800 <= u && u <= 0xDFFF),
            NodeType::Joint => true,
        },
    }
}

proof fn lemma_leaves_scalar(n: Node)
    requires
        wf(n),
        forall|c: u32| crate::node::leaf_symbols(n).count(c) > 0 ==> #[trigger] is_scalar(c),
    ensures
        leaves_scalar(n),
    decreases n,
{
    if crate::node::is_leaf(n) {
        assert(crate::node::leaf_symbols(n).count(crate::node::symbol(n)) > 0);
    } else {
        let l = crate::node::left_of(n);
        let r = crate::node::right_of(n);
        assert(crate::node::leaf_symbols(n) == crate::node::leaf_symbols(l).add(
            crate::node::leaf_symbols(r),
        ));
        lemma_leaves_scalar(l);
        lemma_leaves_scalar(r);
    }
}

/// Decoding in a tree whose leaf symbols are Unicode scalar values emits
/// only such values.
pub proof fn lemma_decoded_scalar(root: Node, cur: Node, at_root: bool, bits: Seq<bool>)
    requires
        wf(root),
        wf(cur),
        leaves_scalar(root),
        leaves_scalar(cur),
    ensures
        decoded(root, cur, at_root, bits) matches Some(v) ==> all_scalar(v),
    decreases bits.len(),
{
    if bits.len() > 0 {
        let next = if crate::node::is_leaf(cur) {
            cur
        } else if bits[0] {
            crate::node::right_of(cur)
        } else {
            crate::node::left_of(cur)
        };
        assert(leaves_scalar(next));
        if crate::node::is_leaf(next) {
            assert(is_scalar(crate::node::symbol(next)));
            lemma_decoded_scalar(root, root, true, bits.drop_first());
            if let Some(w) = decoded(root, root, true, bits.drop_first()) {
                let v = seq![crate::node::symbol(next)] + w;
                assert forall|j: int| 0 <= j < v.len() implies is_scalar(#[trigger] v[j]) by {
                    if j > 0 {
                        assert(v[j] == w[j - 1]);
                    }
                }
            }
        } else {
            lemma_decoded_scalar(root, next, false, bits.drop_first());
        }
    }
}

/// The Huffman tree of a text.
pub open spec fn tree_for(text: Seq<char>) -> Node {
    huffman(freq_table(symbols(text)))
}

/// The encoded bits of a text.
pub open spec fn bits_for(text: Seq<char>) -> Seq<bool> {
    encoded(symbols(text), codes(tree_for(text)))
}

/// The container of a text.
pub open spec fn compressed(text: Seq<char>) -> Seq<u8> {
    framed(
        bincode_of(entries(tree_for(text))),
        bits_for(text).len() as u64,
        packed(bits_for(text)),
    )
}

} // verus!

verus! {

/// The length of a text and the number of its encoded bits fit a `usize`
/// (and so the 64-bit fields of the container).
pub open spec fn representable(text: Seq<char>) -> bool {
    text.len() <= usize::MAX && bits_for(text).len() <= usize::MAX
}

/// Every symbol of a non-empty text has a code in the text's tree, and the
/// tree is well formed.
proof fn lemma_tree_for(text: Seq<char>)
    requires
        text.len() > 0,
        text.len() <= u64::MAX,
    ensures
        wf(tree_for(text)),
        leaves_scalar(tree_for(text)),
        forall|j: int|
            0 <= j < symbols(text).len() ==> #[trigger] crate::code_table::code_index(
                codes(tree_for(text)),
                symbols(text)[j],
            ) is Some,
{
    let s = symbols(text);
    let t = freq_table(s);
    lemma_freq_table(s);
    lemma_huffman(t);
    let keys = t.map_values(|e: (u32, u64)| e.0);
    keys.to_multiset_ensures();
    assert forall|j: int| 0 <= j < s.len() implies #[trigger] crate::code_table::code_index(
        codes(tree_for(text)),
        s[j],
    ) is Some by {
        lemma_find(t, s[j]);
        let i = find(t, s[j])->Some_0;
        assert(keys[i] == s[j]);
        assert(keys.contains(s[j]));
        lemma_codes_cover(tree_for(text), s[j]);
    }
    s.to_multiset_ensures();
    assert forall|c: u32| crate::node::leaf_symbols(tree_for(text)).count(c) > 0 implies #[trigger] is_scalar(c) by {
        assert(keys.contains(c));
        let k = choose|k: int| 0 <= k < keys.len() && keys[k] == c;
        assert(t[k].0 == c);
        assert(1 <= t[k].1);
        assert(t[k].1 == s.to_multiset().count(t[k].0));
        assert(s.to_multiset().count(c) >= 1);
        assert(s.contains(c));
        let m = choose|m: int| 0 <= m < s.len() && s[m] == c;
        assert(s[m] == text[m] as u32);
        lemma_chars(text[m], text[m]);
    }
    lemma_leaves_scalar(tree_for(text));
}

/// The parts of the container of a text read back as written, and its
/// payload decodes to the text's symbols: no padding bit is decoded.
pub proof fn lemma_round_trip(text: Seq<char>)
    requires
        text.len() > 0,
        representable(text),
        compressed(text).len() <= u64::MAX,
    ensures
        wf(tree_for(text)),
        leaves_scalar(tree_for(text)),
        unframed(compressed(text)) == Some(
            (bincode_of(entries(tree_for(text))), bits_for(text).len() as u64, packed(bits_for(text))),
        ),
        decode(tree_for(text), unpacked(packed(bits_for(text)), bits_for(text).len())) == Some(
            symbols(text),
        ),
{
    lemma_tree_for(text);
    lemma_decode_encoded(tree_for(text), symbols(text));
    lemma_unpack_pack(bits_for(text));
    lemma_unframe_frame(
        bincode_of(entries(tree_for(text))),
        bits_for(text).len() as u64,
        packed(bits_for(text)),
    );
}

proof fn lemma_chars(a: char, b: char)
    ensures
        is_scalar(a as u32),
        a as u32 == b as u32 ==> a == b,
{
}

/// The text whose symbols are `v`; `None` where one is not a Unicode scalar
/// value.
pub fn text_of_symbols(v: &Vec<u32>) -> (r: Option<String>)
    ensures
        r is Some <==> forall|j: int| 0 <= j < v@.len() ==> is_scalar(#[trigger] v@[j]),
        r matches Some(s) ==> symbols(s@) == v@,
{
    let mut out: Vec<char> = Vec::new();
    let mut j: usize = 0;
    while j < v.len()
        invariant
            j <= v@.len(),
            out@.len() == j,
            symbols(out@) == v@.subrange(0, j as int),
            forall|k: int| 0 <= k < j ==> is_scalar(#[trigger] v@[k]),
        decreases v@.len() - j,
    {
        match char_of(v[j]) {
            Some(c) => {
                out.push(c);
                j = j + 1;
                assert(symbols(out@) =~= v@.subrange(0, j as int));
            },
            None => {
                return None;
            },
        }
    }
    assert(v@.subrange(0, j as int) =~= v@);
    Some(string_of(&out))
}

/// The description carried by the error for an empty input.
pub open spec fn empty_input_message() -> Seq<char> {
    "File must not be empty"@
}

fn empty_input_error() -> (r: InputError)
    ensures
        r.0@ == empty_input_message(),
{
    proof {
        reveal_strlit("File must not be empty");
    }
    InputError("File must not be empty".to_owned())
}

/// Compresses a text into a container: the serialized Huffman tree of its
/// symbol frequencies, the number of encoded bits, and the bits packed.
/// An empty text is an input error; a non-empty text gives its container,
/// `compressed(contents@)`.
pub fn compress(contents: &str) -> (r: Result<Vec<u8>, HuffError>)
    ensures
        contents@.len() == 0 ==> (r matches Err(HuffError::Input(e)) && e.0@
            == empty_input_message()),
        contents@.len() > 0 ==> (r matches Ok(c) && c@ == compressed(contents@)),
        contents@.len() > 0 ==> representable(contents@),
{
    let syms = symbols_of(contents);
    if syms.len() == 0 {
        return Err(HuffError::Input(empty_input_error()));
    }
    let freq_map = char_freq(contents);
    proof {
        lemma_freq_table(syms@);
        lemma_tree_for(contents@);
    }
    let tree = HuffmanTree::new(&freq_map);
    let mut code_table: Vec<(u32, Vec<bool>)> = Vec::new();
    fill_code_table(&mut code_table, &tree);
    assert(table_view(code_table@) =~= codes(tree_for(contents@)));
    let bits = encode(&syms, &code_table);
    let tb = tree_bytes(tree.get_root());
    let payload = pack_bits(&bits);
    Ok(frame(&tb, bits.len() as u64, &payload))
}

/// A text is determined by its symbols.
proof fn lemma_symbols_injective(a: Seq<char>, b: Seq<char>)
    requires
        symbols(a) == symbols(b),
    ensures
        a == b,
{
    assert(a.len() == symbols(a).len());
    assert forall|i: int| 0 <= i < a.len() implies a[i] == b[i] by {
        assert(symbols(a)[i] == symbols(b)[i]);
        assert(symbols(a)[i] == a[i] as u32);
        assert(symbols(b)[i] == b[i] as u32);
        lemma_chars(a[i], b[i]);
    }
    assert(a =~= b);
}

/// Are all of `v` Unicode scalar values.
pub open spec fn all_scalar(v: Seq<u32>) -> bool {
    forall|j: int| 0 <= j < v.len() ==> is_scalar(#[trigger] v[j])
}

/// What the parts of a container decode to: the symbols of the text, or
/// the first thing wrong. The bit count must fit a `usize`; the tree bytes
/// must be exactly the encoding of one tree; every leaf symbol of that tree must be a Unicode scalar value; the first
/// `n` bits of the payload must decode in it without ending inside a code.
pub open spec fn decoded_parts(tb: Seq<u8>, n: u64, p: Seq<u8>) -> Result<Seq<u32>, FormatError> {
    if n > usize::MAX {
        Err(FormatError::Container)
    } else {
        match stored_tree(tb) {
            None => Err(FormatError::Tree),
            Some(t) => if !leaves_scalar(t) {
                Err(FormatError::Tree)
            } else {
                match decode(t, unpacked(p, n as nat)) {
                    None => Err(FormatError::Bits),
                    Some(v) => Ok(v),
                }
            },
        }
    }
}

/// What a non-empty buffer decompresses to: a container error where its
/// length fields do not fit it, else what its parts decode to.
pub open spec fn decompressed(b: Seq<u8>) -> Result<Seq<u32>, FormatError> {
    match unframed(b) {
        None => Err(FormatError::Container),
        Some((tb, n, p)) => decoded_parts(tb, n, p),
    }
}

/// Reads the tree from its bytes, unpacks exactly `n` bits of the payload
/// and decodes them in the tree.
fn decode_parts(tb: &Vec<u8>, n: u64, payload: &Vec<u8>) -> (r: Result<String, FormatError>)
    requires
        payload@.len() == byte_len(n as nat),
    ensures
        match decoded_parts(tb@, n, payload@) {
            Ok(v) => r matches Ok(s) && symbols(s@) == v,
            Err(f) => r == Err::<String, FormatError>(f),
        },
        forall|text: Seq<char>|
            wf(#[trigger] tree_for(text)) && leaves_scalar(tree_for(text)) && n <= usize::MAX && tb@ == bincode_of(
                entries(tree_for(text)),
            ) && decode(tree_for(text), unpacked(payload@, n as nat)) == Some(symbols(text))
                ==> (r matches Ok(s) && s@ == text),
{
    if n > usize::MAX as u64 {
        return Err(FormatError::Container);
    }
    let root = match tree_from_bytes(tb) {
        Some(t) => t,
        None => {
            return Err(FormatError::Tree);
        },
    };
    if !check_leaves(&root) {
        return Err(FormatError::Tree);
    }
    let bits = unpack_bits(payload, n as usize);
    let syms = match decode_bits(&root, &bits) {
        Some(v) => v,
        None => {
            return Err(FormatError::Bits);
        },
    };
    proof {
        lemma_decoded_scalar(root, root, true, bits@);
    }
    match text_of_symbols(&syms) {
        Some(s) => {
            proof {
                assert forall|text: Seq<char>|
                    wf(#[trigger] tree_for(text)) && leaves_scalar(tree_for(text)) && tb@
                        == bincode_of(entries(tree_for(text))) && decode(
                        tree_for(text),
                        unpacked(payload@, n as nat),
                    ) == Some(symbols(text)) implies s@ == text by {
                    lemma_symbols_injective(s@, text);
                }
            }
            Ok(s)
        },
        None => {
            proof {
                assert(false);
            }
            Err(FormatError::Bits)
        },
    }
}

/// Decompresses a container back into its text. An empty buffer is an input
/// error; any other buffer gives what `decompressed` says: the text whose
/// symbols it holds, or the format error found first. The container of every
/// non-empty text decompresses to that text.
pub fn decompress(encoded: &Vec<u8>) -> (r: Result<String, HuffError>)
    ensures
        encoded@.len() == 0 ==> (r matches Err(HuffError::Input(e)) && e.0@
            == empty_input_message()),
        encoded@.len() > 0 ==> match decompressed(encoded@) {
            Ok(v) => r matches Ok(s) && symbols(s@) == v,
            Err(f) => r == Err::<String, HuffError>(HuffError::Format(f)),
        },
        forall|text: Seq<char>|
            text.len() > 0 && representable(text) && #[trigger] compressed(text) == encoded@
                ==> (r matches Ok(s) && s@ == text),
{
    let len = encoded.len();
    if len == 0 {
        return Err(HuffError::Input(empty_input_error()));
    }
    match unframe(encoded) {
        None => {
            proof {
                assert forall|text: Seq<char>|
                    text.len() > 0 && representable(text) && #[trigger] compressed(text)
                        == encoded@ implies false by {
                    lemma_round_trip(text);
                }
            }
            Err(HuffError::Format(FormatError::Container))
        },
        Some((tb, n, payload)) => {
            let r = decode_parts(&tb, n, &payload);
            proof {
                assert forall|text: Seq<char>|
                    text.len() > 0 && representable(text) && #[trigger] compressed(text)
                        == encoded@ implies (r matches Ok(s) && s@ == text) by {
                    lemma_round_trip(text);
                }
            }
            match r {
                Ok(s) => Ok(s),
                Err(e) => Err(HuffError::Format(e)),
            }
        },
    }
}

/// Does a file name end in the `.huff` extension, after a non-empty stem.
pub open spec fn has_huff_extension(name: Seq<char>) -> bool {
    &&& name.len() > 5
    &&& name.subrange(name.len() - 5, name.len() as int) == seq!['.', 'h', 'u', 'f', 'f']
    &&& name[name.len() - 6] != '/'
}

/// Accepts a file name to decompress only if it has the `.huff` extension.
pub fn check_extension(filename: &str) -> (r: Result<(), InputError>)
    ensures
        r is Ok <==> has_huff_extension(filename@),
{
    let v = symbols_of(filename);
    let n = v.len();
    proof {
        assert forall|i: int| 0 <= i < n implies v@[i] == #[trigger] filename@[i] as u32 by {}
        if n > 5 {
            lemma_chars(filename@[n - 5], '.');
            lemma_chars(filename@[n - 4], 'h');
            lemma_chars(filename@[n - 3], 'u');
            lemma_chars(filename@[n - 2], 'f');
            lemma_chars(filename@[n - 1], 'f');
            lemma_chars(filename@[n - 6], '/');
        }
    }
    if n > 5 && v[n - 5] == '.' as u32 && v[n - 4] == 'h' as u32 && v[n - 3] == 'u' as u32 && v[n
        - 2] == 'f' as u32 && v[n - 1] == 'f' as u32 && v[n - 6] != '/' as u32 {
        proof {
            assert(filename@.subrange(n - 5, n as int) =~= seq!['.', 'h', 'u', 'f', 'f']);
        }
        Ok(())
    } else {
        proof {
            if has_huff_extension(filename@) {
                let tail = filename@.subrange(n - 5, n as int);
                assert(tail[0] == filename@[n - 5]);
                assert(tail[1] == filename@[n - 4]);
                assert(tail[2] == filename@[n - 3]);
                assert(tail[3] == filename@[n - 2]);
                assert(tail[4] == filename@[n - 1]);
            }
        }
        Err(InputError("File must have the \"huff\" extension".to_owned()))
    }
}

/// A container cut short before the end of its tree bytes is not a
/// container.
pub proof fn lemma_truncated_tree(text: Seq<char>, k: int)
    requires
        0 <= k < 8 + bincode_of(entries(tree_for(text))).len(),
        compressed(text).len() <= u64::MAX,
    ensures
        unframed(compressed(text).take(k)) is None,
{
    let tb = bincode_of(entries(tree_for(text)));
    let c = compressed(text);
    if k >= 8 {
        let tl = tb.len() as u64;
        crate::container::lemma_be_round_trip(tl);
        assert(c.take(k).subrange(0, 8) =~= crate::container::be_bytes(tl));
    }
}

/// The code table of every tree that the builder makes is prefix-free, and
/// has a code for every symbol of the table it was built from.
pub proof fn lemma_built_codes(t: Seq<(u32, u64)>)
    requires
        t.len() >= 1,
        crate::freq::total(t) <= u64::MAX,
    ensures
        crate::node::prefix_free(codes(huffman(t))),
        forall|i: int|
            0 <= i < t.len() ==> #[trigger] crate::code_table::code_index(codes(huffman(t)), t[i].0)
                is Some,
        (forall|i: int, j: int| 0 <= i < j < t.len() ==> #[trigger] t[i].0 != #[trigger] t[j].0)
            ==> crate::code_table::distinct_symbols(codes(huffman(t))),
{
    lemma_huffman(t);
    crate::node::lemma_codes_prefix_free(huffman(t));
    let keys = t.map_values(|e: (u32, u64)| e.0);
    keys.to_multiset_ensures();
    assert forall|i: int| 0 <= i < t.len() implies #[trigger] crate::code_table::code_index(
        codes(huffman(t)),
        t[i].0,
    ) is Some by {
        assert(keys[i] == t[i].0);
        assert(keys.contains(t[i].0));
        lemma_codes_cover(huffman(t), t[i].0);
    }
    if forall|i: int, j: int| 0 <= i < j < t.len() ==> #[trigger] t[i].0 != #[trigger] t[j].0 {
        assert(keys.no_duplicates()) by {
            assert forall|i: int, j: int|
                0 <= i < keys.len() && 0 <= j < keys.len() && i != j implies keys[i] != keys[j] by {
                if i < j {
                    assert(t[i].0 != t[j].0);
                } else {
                    assert(t[j].0 != t[i].0);
                }
            }
        }
        keys.lemma_multiset_has_no_duplicates();
        assert forall|c: u32| #[trigger] crate::node::leaf_symbols(huffman(t)).count(c) <= 1 by {
            if keys.to_multiset().count(c) > 0 {
                assert(keys.to_multiset().contains(c));
            }
        }
        crate::code_table::lemma_codes_distinct(huffman(t));
    }
}

proof fn lemma_encoded_constant(s: Seq<u32>, t: Seq<(u32, Seq<bool>)>, c: u32)
    requires
        forall|i: int| 0 <= i < s.len() ==> s[i] == c,
        lookup(t, c) == seq![false],
    ensures
        encoded(s, t) == Seq::new(s.len(), |i: int| false),
    decreases s.len(),
{
    if s.len() > 0 {
        lemma_encoded_constant(s.drop_last(), t, c);
        assert(encoded(s, t) =~= Seq::new(s.len(), |i: int| false));
    } else {
        assert(encoded(s, t) =~= Seq::new(s.len(), |i: int| false));
    }
}

/// A text of one repeated symbol gets a tree that is a lone leaf; the
/// symbol's code is the single bit `0`, so the text encodes to one zero bit
/// per character.
pub proof fn lemma_single_symbol(text: Seq<char>, c: char)
    requires
        text.len() > 0,
        text.len() <= u64::MAX,
        forall|i: int| 0 <= i < text.len() ==> text[i] == c,
    ensures
        crate::node::is_leaf(tree_for(text)),
        codes(tree_for(text)) == seq![(c as u32, seq![false])],
        bits_for(text) == Seq::new(text.len(), |i: int| false),
{
    let s = symbols(text);
    let t = freq_table(s);
    lemma_freq_table(s);
    s.to_multiset_ensures();
    assert forall|k: int| 0 <= k < t.len() implies #[trigger] t[k].0 == c as u32 by {
        assert(s.to_multiset().count(t[k].0) >= 1);
        assert(s.contains(t[k].0));
        let m = choose|m: int| 0 <= m < s.len() && s[m] == t[k].0;
        assert(s[m] == text[m] as u32);
    }
    if t.len() > 1 {
        assert(t[0].0 == t[1].0);
    }
    assert(t.len() == 1);
    assert(crate::huffman_tree::leaves(t).len() == 1);
    assert(tree_for(text) == crate::huffman_tree::leaves(t)[0]);
    let cs = codes(tree_for(text));
    assert(cs == seq![(c as u32, seq![false])]);
    assert(crate::code_table::code_index(cs, c as u32) == Some(0int));
    assert forall|i: int| 0 <= i < s.len() implies s[i] == c as u32 by {
        assert(s[i] == text[i] as u32);
    }
    lemma_encoded_constant(s, cs, c as u32);
}

/// Only the first `n` bits of the payload count: payloads that agree on
/// them, padding bits aside, decode alike.
pub proof fn lemma_padding_ignored(tb: Seq<u8>, n: u64, p: Seq<u8>, q: Seq<u8>)
    requires
        unpacked(p, n as nat) == unpacked(q, n as nat),
    ensures
        decoded_parts(tb, n, p) == decoded_parts(tb, n, q),
{
}

} // verus!
