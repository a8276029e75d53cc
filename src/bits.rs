use vstd::prelude::*;

verus! {

/// Bit `i` of a byte buffer, most significant bit of each byte first.
pub open spec fn bit_at(bytes: Seq<u8>, i: int) -> bool {
    (bytes[i / 8] >> ((7 - i % 8) as u8)) & 1u8 == 1u8
}

/// The first `n` bits of `bytes`, most significant bit of each byte first.
pub open spec fn unpacked(bytes: Seq<u8>, n: nat) -> Seq<bool> {
    Seq::new(n, |i: int| bit_at(bytes, i))
}

/// Bit `i` of `bits`, or a padding zero beyond its end.
pub open spec fn padded_bit(bits: Seq<bool>, i: int) -> u8 {
    if 0 <= i < bits.len() && bits[i] {
        1u8
    } else {
        0u8
    }
}

/// Byte `j` of the packed form of `bits`: bits `8j .. 8j+8`, first bit highest.
pub open spec fn packed_byte(bits: Seq<bool>, j: int) -> u8 {
    (padded_bit(bits, 8 * j) << 7u8) | (padded_bit(bits, 8 * j + 1) << 6u8) | (padded_bit(
        bits,
        8 * j + 2,
    ) << 5u8) | (padded_bit(bits, 8 * j + 3) << 4u8) | (padded_bit(bits, 8 * j + 4) << 3u8) | (
    padded_bit(bits, 8 * j + 5) << 2u8) | (padded_bit(bits, 8 * j + 6) << 1u8) | padded_bit(
        bits,
        8 * j + 7,
    )
}

/// Number of bytes that hold `n` bits.
pub open spec fn byte_len(n: nat) -> nat {
    (n + 7) / 8
}

/// `bits` packed into bytes, most significant bit first, the last byte zero-padded.
pub open spec fn packed(bits: Seq<bool>) -> Seq<u8> {
    Seq::new(byte_len(bits.len()), |j: int| packed_byte(bits, j))
}

proof fn lemma_byte_bits(b0: u8, b1: u8, b2: u8, b3: u8, b4: u8, b5: u8, b6: u8, b7: u8)
    requires
        b0 < 2 && b1 < 2 && b2 < 2 && b3 < 2 && b4 < 2 && b5 < 2 && b6 < 2 && b7 < 2,
    ensures
        ({
            let x = (b0 << 7u8) | (b1 << 6u8) | (b2 << 5u8) | (b3 << 4u8) | (b4 << 3u8) | (b5
                << 2u8) | (b6 << 1u8) | b7;
            &&& (x >> 7u8) & 1u8 == b0
            &&& (x >> 6u8) & 1u8 == b1
            &&& (x >> 5u8) & 1u8 == b2
            &&& (x >> 4u8) & 1u8 == b3
            &&& (x >> 3u8) & 1u8 == b4
            &&& (x >> 2u8) & 1u8 == b5
            &&& (x >> 1u8) & 1u8 == b6
            &&& (x >> 0u8) & 1u8 == b7
        }),
{
    assert(((b0 << 7u8) | (b1 << 6u8) | (b2 << 5u8) | (b3 << 4u8) | (b4 << 3u8) | (b5 << 2u8) | (b6
        << 1u8) | b7) >> 7u8 & 1u8 == b0) by (bit_vector)
        requires
            b0 < 2 && b1 < 2 && b2 < 2 && b3 < 2 && b4 < 2 && b5 < 2 && b6 < 2 && b7 < 2,
    ;
    assert(((b0 << 7u8) | (b1 << 6u8) | (b2 << 5u8) | (b3 << 4u8) | (b4 << 3u8) | (b5 << 2u8) | (b6
        << 1u8) | b7) >> 6u8 & 1u8 == b1) by (bit_vector)
        requires
            b0 < 2 && b1 < 2 && b2 < 2 && b3 < 2 && b4 < 2 && b5 < 2 && b6 < 2 && b7 < 2,
    ;
    assert(((b0 << 7u8) | (b1 << 6u8) | (b2 << 5u8) | (b3 << 4u8) | (b4 << 3u8) | (b5 << 2u8) | (b6
        << 1u8) | b7) >> 5u8 & 1u8 == b2) by (bit_vector)
        requires
            b0 < 2 && b1 < 2 && b2 < 2 && b3 < 2 && b4 < 2 && b5 < 2 && b6 < 2 && b7 < 2,
    ;
    assert(((b0 << 7u8) | (b1 << 6u8) | (b2 << 5u8) | (b3 << 4u8) | (b4 << 3u8) | (b5 << 2u8) | (b6
        << 1u8) | b7) >> 4u8 & 1u8 == b3) by (bit_vector)
        requires
            b0 < 2 && b1 < 2 && b2 < 2 && b3 < 2 && b4 < 2 && b5 < 2 && b6 < 2 && b7 < 2,
    ;
    assert(((b0 << 7u8) | (b1 << 6u8) | (b2 << 5u8) | (b3 << 4u8) | (b4 << 3u8) | (b5 << 2u8) | (b6
        << 1u8) | b7) >> 3u8 & 1u8 == b4) by (bit_vector)
        requires
            b0 < 2 && b1 < 2 && b2 < 2 && b3 < 2 && b4 < 2 && b5 < 2 && b6 < 2 && b7 < 2,
    ;
    assert(((b0 << 7u8) | (b1 << 6u8) | (b2 << 5u8) | (b3 << 4u8) | (b4 << 3u8) | (b5 << 2u8) | (b6
        << 1u8) | b7) >> 2u8 & 1u8 == b5) by (bit_vector)
        requires
            b0 < 2 && b1 < 2 && b2 < 2 && b3 < 2 && b4 < 2 && b5 < 2 && b6 < 2 && b7 < 2,
    ;
    assert(((b0 << 7u8) | (b1 << 6u8) | (b2 << 5u8) | (b3 << 4u8) | (b4 << 3u8) | (b5 << 2u8) | (b6
        << 1u8) | b7) >> 1u8 & 1u8 == b6) by (bit_vector)
        requires
            b0 < 2 && b1 < 2 && b2 < 2 && b3 < 2 && b4 < 2 && b5 < 2 && b6 < 2 && b7 < 2,
    ;
    assert(((b0 << 7u8) | (b1 << 6u8) | (b2 << 5u8) | (b3 << 4u8) | (b4 << 3u8) | (b5 << 2u8) | (b6
        << 1u8) | b7) >> 0u8 & 1u8 == b7) by (bit_vector)
        requires
            b0 < 2 && b1 < 2 && b2 < 2 && b3 < 2 && b4 < 2 && b5 < 2 && b6 < 2 && b7 < 2,
    ;
}

/// Each bit of a packed buffer is the bit that was packed there, or a padding zero.
pub proof fn lemma_packed_bit(bits: Seq<bool>, i: int)
    requires
        0 <= i < 8 * byte_len(bits.len()),
    ensures
        bit_at(packed(bits), i) == (i < bits.len() && bits[i]),
{
    let j = i / 8;
    let k = i % 8;
    assert(8 * j + k == i);
    lemma_byte_bits(
        padded_bit(bits, 8 * j),
        padded_bit(bits, 8 * j + 1),
        padded_bit(bits, 8 * j + 2),
        padded_bit(bits, 8 * j + 3),
        padded_bit(bits, 8 * j + 4),
        padded_bit(bits, 8 * j + 5),
        padded_bit(bits, 8 * j + 6),
        padded_bit(bits, 8 * j + 7),
    );
    assert(packed(bits)[j] == packed_byte(bits, j));
}

/// Unpacking exactly the packed number of bits gives the bits back: the
/// padding of the last byte is never read as data.
pub proof fn lemma_unpack_pack(bits: Seq<bool>)
    ensures
        unpacked(packed(bits), bits.len()) == bits,
{
    assert forall|i: int| 0 <= i < bits.len() implies unpacked(packed(bits), bits.len())[i]
        == bits[i] by {
        lemma_packed_bit(bits, i);
    }
    assert(unpacked(packed(bits), bits.len()) =~= bits);
}

fn bit_or_pad(bits: &Vec<bool>, i: usize) -> (r: u8)
    ensures
        r == padded_bit(bits@, i as int),
{
    if i < bits.len() && bits[i] {
        1
    } else {
        0
    }
}

/// Packs `bits` into bytes, most significant bit first; the last byte is
/// padded with zero bits.
pub fn pack_bits(bits: &Vec<bool>) -> (r: Vec<u8>)
    ensures
        r@ == packed(bits@),
{
    let n = bits.len();
    let nbytes: usize = n / 8 + if n % 8 == 0 { 0 } else { 1 };
    assert(nbytes == byte_len(n as nat));
    let mut r: Vec<u8> = Vec::new();
    let mut j: usize = 0;
    while j < nbytes
        invariant
            j <= nbytes,
            nbytes == byte_len(bits@.len()),
            n == bits@.len(),
            r@ == packed(bits@).subrange(0, j as int),
        decreases nbytes - j,
    {
        let i = 8 * j;
        let b = (bit_or_pad(bits, i) << 7u8) | (bit_or_pad(bits, i + 1) << 6u8) | (bit_or_pad(
            bits,
            i + 2,
        ) << 5u8) | (bit_or_pad(bits, i + 3) << 4u8) | (bit_or_pad(bits, i + 4) << 3u8) | (
        bit_or_pad(bits, i + 5) << 2u8) | (bit_or_pad(bits, i + 6) << 1u8) | bit_or_pad(
            bits,
            i + 7,
        );
        assert(b == packed_byte(bits@, j as int));
        r.push(b);
        j = j + 1;
        assert(r@ =~= packed(bits@).subrange(0, j as int));
    }
    assert(r@ =~= packed(bits@));
    r
}

/// Reads the first `n` bits of `bytes`, most significant bit of each byte
/// first; bits past `n` are not read.
pub fn unpack_bits(bytes: &Vec<u8>, n: usize) -> (r: Vec<bool>)
    requires
        n <= 8 * bytes@.len(),
    ensures
        r@ == unpacked(bytes@, n as nat),
{
    let mut r: Vec<bool> = Vec::new();
    let mut i: usize = 0;
    while i < n
        invariant
            i <= n,
            n <= 8 * bytes@.len(),
            r@ == unpacked(bytes@, i as nat),
        decreases n - i,
    {
        let byte = bytes[i / 8];
        let shift = (7 - i % 8) as u8;
        let bit = (byte >> shift) & 1u8 == 1u8;
        r.push(bit);
        i = i + 1;
        assert(r@ =~= unpacked(bytes@, i as nat));
    }
    r
}

} // verus!
