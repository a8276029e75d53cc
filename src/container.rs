use vstd::prelude::*;

use crate::bits::byte_len;

verus! {

/// The eight big-endian bytes of `x`.
pub open spec fn be_bytes(x: u64) -> Seq<u8> {
    seq![
        (x >> 56u64) as u8,
        (x >> 48u64) as u8,
        (x >> 40u64) as u8,
        (x >> 32u64) as u8,
        (x >> 24u64) as u8,
        (x >> 16u64) as u8,
        (x >> 8u64) as u8,
        x as u8,
    ]
}

/// The number that eight big-endian bytes stand for.
pub open spec fn be_value(b: Seq<u8>) -> u64 {
    ((b[0] as u64) << 56u64) | ((b[1] as u64) << 48u64) | ((b[2] as u64) << 40u64) | ((
    b[3] as u64) << 32u64) | ((b[4] as u64) << 24u64) | ((b[5] as u64) << 16u64) | ((
    b[6] as u64) << 8u64) | (b[7] as u64)
}

/// Reading back the eight big-endian bytes of a number gives the number.
pub proof fn lemma_be_round_trip(x: u64)
    ensures
        be_value(be_bytes(x)) == x,
{
    let b = be_bytes(x);
    assert(((((x >> 56u64) as u8) as u64) << 56u64) | ((((x >> 48u64) as u8) as u64) << 48u64)
        | ((((x >> 40u64) as u8) as u64) << 40u64) | ((((x >> 32u64) as u8) as u64) << 32u64) | (
    (((x >> 24u64) as u8) as u64) << 24u64) | ((((x >> 16u64) as u8) as u64) << 16u64) | ((((x
        >> 8u64) as u8) as u64) << 8u64) | ((x as u8) as u64) == x) by (bit_vector);
}

/// The container: tree length, tree bytes, bit count, packed payload.
pub open spec fn framed(tree: Seq<u8>, bit_count: u64, payload: Seq<u8>) -> Seq<u8> {
    be_bytes(tree.len() as u64) + tree + be_bytes(bit_count) + payload
}

/// The parts of a container, if `b` is one: the declared tree length fits in
/// the buffer, a bit count follows the tree, and the payload holds exactly
/// the bytes that the bit count needs.
pub open spec fn unframed(b: Seq<u8>) -> Option<(Seq<u8>, u64, Seq<u8>)> {
    if b.len() < 8 {
        None
    } else {
        let tl = be_value(b.subrange(0, 8));
        if tl > b.len() - 16 {
            None
        } else {
            let count = be_value(b.subrange(8 + tl, 16 + tl));
            let payload = b.subrange(16 + tl, b.len() as int);
            if payload.len() != byte_len(count as nat) {
                None
            } else {
                Some((b.subrange(8, 8 + tl), count, payload))
            }
        }
    }
}

/// A framed container parses back into its parts.
pub proof fn lemma_unframe_frame(tree: Seq<u8>, bit_count: u64, payload: Seq<u8>)
    requires
        tree.len() <= u64::MAX,
        payload.len() == byte_len(bit_count as nat),
    ensures
        unframed(framed(tree, bit_count, payload)) == Some((tree, bit_count, payload)),
{
    let b = framed(tree, bit_count, payload);
    let tl = tree.len() as u64;
    lemma_be_round_trip(tl);
    lemma_be_round_trip(bit_count);
    assert(b.subrange(0, 8) =~= be_bytes(tl));
    assert(b.subrange(8, 8 + tl) =~= tree);
    assert(b.subrange(8 + tl, 16 + tl) =~= be_bytes(bit_count));
    assert(b.subrange(16 + tl, b.len() as int) =~= payload);
}

fn push_be(out: &mut Vec<u8>, x: u64)
    ensures
        final(out)@ == old(out)@ + be_bytes(x),
{
    out.push((x >> 56u64) as u8);
    out.push((x >> 48u64) as u8);
    out.push((x >> 40u64) as u8);
    out.push((x >> 32u64) as u8);
    out.push((x >> 24u64) as u8);
    out.push((x >> 16u64) as u8);
    out.push((x >> 8u64) as u8);
    out.push(x as u8);
    assert(final(out)@ =~= old(out)@ + be_bytes(x));
}

fn read_be(b: &Vec<u8>, at: usize) -> (r: u64)
    requires
        at + 8 <= b.len(),
    ensures
        r == be_value(b@.subrange(at as int, at + 8)),
{
    ((b[at] as u64) << 56u64) | ((b[at + 1] as u64) << 48u64) | ((b[at + 2] as u64) << 40u64) | ((
    b[at + 3] as u64) << 32u64) | ((b[at + 4] as u64) << 24u64) | ((b[at + 5] as u64) << 16u64)
        | ((b[at + 6] as u64) << 8u64) | (b[at + 7] as u64)
}

fn append_bytes(out: &mut Vec<u8>, b: &Vec<u8>)
    ensures
        final(out)@ == old(out)@ + b@,
{
    let mut i: usize = 0;
    while i < b.len()
        invariant
            i <= b@.len(),
            out@ == old(out)@ + b@.subrange(0, i as int),
        decreases b@.len() - i,
    {
        out.push(b[i]);
        i = i + 1;
        assert(out@ =~= old(out)@ + b@.subrange(0, i as int));
    }
    assert(b@.subrange(0, i as int) =~= b@);
}

fn copy_range(b: &Vec<u8>, from: usize, to: usize) -> (r: Vec<u8>)
    requires
        from <= to <= b@.len(),
    ensures
        r@ == b@.subrange(from as int, to as int),
{
    let mut r: Vec<u8> = Vec::new();
    let mut i: usize = from;
    while i < to
        invariant
            from <= i <= to <= b@.len(),
            r@ == b@.subrange(from as int, i as int),
        decreases to - i,
    {
        r.push(b[i]);
        i = i + 1;
        assert(r@ =~= b@.subrange(from as int, i as int));
    }
    r
}

/// Assembles a container from the serialized tree, the exact number of
/// encoded bits and the packed payload.
pub fn frame(tree: &Vec<u8>, bit_count: u64, payload: &Vec<u8>) -> (r: Vec<u8>)
    ensures
        r@ == framed(tree@, bit_count, payload@),
{
    let mut r: Vec<u8> = Vec::new();
    push_be(&mut r, tree.len() as u64);
    append_bytes(&mut r, tree);
    push_be(&mut r, bit_count);
    append_bytes(&mut r, payload);
    assert(r@ =~= framed(tree@, bit_count, payload@));
    r
}

/// Splits a container into serialized tree, bit count and payload; `None`
/// where the buffer is too short for what its length fields declare, or the
/// payload is not exactly the size that the bit count needs.
pub fn unframe(b: &Vec<u8>) -> (r: Option<(Vec<u8>, u64, Vec<u8>)>)
    ensures
        match r {
            Some((t, n, p)) => unframed(b@) == Some((t@, n, p@)),
            None => unframed(b@) is None,
        },
{
    if b.len() < 8 {
        return None;
    }
    let tl = read_be(b, 0);
    if b.len() < 16 || tl > (b.len() - 16) as u64 {
        return None;
    }
    let tl = tl as usize;
    let count = read_be(b, 8 + tl);
    let plen = b.len() - (16 + tl);
    let need: u64 = count / 8 + if count % 8 == 0 { 0 } else { 1 };
    if need != plen as u64 {
        return None;
    }
    let t = copy_range(b, 8, 8 + tl);
    let p = copy_range(b, 16 + tl, b.len());
    Some((t, count, p))
}

} // verus!
