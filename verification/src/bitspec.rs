//! Specification-level model of packed bit storage.
//!
//! A bit sequence is modelled as a `Seq<bool>` in push order. These
//! functions give the two views the container works with: the position of a
//! logical bit inside a sequence of 64-bit blocks, and the correspondence
//! between bit sequences and byte sequences (most significant bit first
//! within each byte).

use vstd::prelude::*;

verus! {

/// The bit at global position `p` of a block sequence, where position 0 is
/// the least significant bit of block 0, position 64 the least significant
/// bit of block 1, and so on.
pub open spec fn block_bit(blocks: Seq<u64>, p: int) -> bool {
    ((blocks[p / 64] >> ((p % 64) as u64)) & 1u64) == 1u64
}

/// The `j`-th bit of a byte counted from the most significant end:
/// `byte_bit(b, 0)` is the top bit of `b`, `byte_bit(b, 7)` the lowest.
pub open spec fn byte_bit(b: u8, j: int) -> bool {
    ((b >> ((7 - j) as u8)) & 1u8) == 1u8
}

/// The eight bits of a byte, most significant first.
pub open spec fn byte_bits(b: u8) -> Seq<bool> {
    Seq::new(8, |j: int| byte_bit(b, j))
}

/// The bit sequence encoded by a byte sequence: each byte contributes its
/// eight bits, most significant first, in byte order.
pub open spec fn bits_of_bytes(bytes: Seq<u8>) -> Seq<bool> {
    Seq::new(bytes.len() * 8, |i: int| byte_bit(bytes[i / 8], i % 8))
}

/// A bit of a sequence as the integer 0 or 1; positions outside the
/// sequence count as 0.
pub open spec fn bit01(s: Seq<bool>, i: int) -> int {
    if 0 <= i < s.len() && s[i] {
        1
    } else {
        0
    }
}

/// The `k`-th byte of the byte rendering of a bit sequence: bits
/// `8k .. 8k+7` packed most significant first, with missing trailing bits
/// read as 0, so a final partial byte is zero-padded in its low-order bits.
pub open spec fn byte_of_bits(s: Seq<bool>, k: int) -> u8 {
    (128 * bit01(s, 8 * k) + 64 * bit01(s, 8 * k + 1) + 32 * bit01(s, 8 * k + 2) + 16 * bit01(
        s,
        8 * k + 3,
    ) + 8 * bit01(s, 8 * k + 4) + 4 * bit01(s, 8 * k + 5) + 2 * bit01(s, 8 * k + 6) + bit01(
        s,
        8 * k + 7,
    )) as u8
}

/// The byte sequence encoding a bit sequence: one byte for every eight
/// bits, rounded up.
pub open spec fn bytes_of_bits(s: Seq<bool>) -> Seq<u8> {
    Seq::new((s.len() + 7) / 8, |k: int| byte_of_bits(s, k))
}

/// A run of `n` copies of the bit `value`.
pub open spec fn repeat_bit(value: bool, n: nat) -> Seq<bool> {
    Seq::new(n, |i: int| value)
}

/// The bit 0 or 1 carried by a `u8` in the container's public interface.
pub open spec fn bit_as_u8(b: bool) -> u8 {
    if b {
        1
    } else {
        0
    }
}

/// A bit index splits uniquely into a byte index and an offset.
pub(crate) proof fn lemma_byte_split(i: int, t: int)
    by (nonlinear_arith)
    requires
        0 <= i,
        0 <= t < 8,
    ensures
        (8 * i + t) / 8 == i,
        (8 * i + t) % 8 == t,
{
}

/// Recovering the byte index and offset of a bit index.
pub(crate) proof fn lemma_byte_parts(p: int)
    by (nonlinear_arith)
    requires
        0 <= p,
    ensures
        p == 8 * (p / 8) + (p % 8),
        0 <= p % 8 < 8,
        0 <= p / 8,
{
}

/// Appending one byte to a byte sequence appends its eight bits to the
/// encoded bit sequence.
pub proof fn lemma_bits_of_bytes_snoc(bytes: Seq<u8>, b: u8)
    ensures
        bits_of_bytes(bytes.push(b)) == bits_of_bytes(bytes) + byte_bits(b),
{
    let lhs = bits_of_bytes(bytes.push(b));
    let rhs = bits_of_bytes(bytes) + byte_bits(b);
    let n = bytes.len() as int;
    assert forall|i: int| 0 <= i < lhs.len() implies lhs[i] == rhs[i] by {
        lemma_byte_parts(i);
        if i < 8 * n {
            lemma_byte_parts(i);
            assert(i / 8 < n) by (nonlinear_arith)
                requires
                    0 <= i < 8 * n,
            ;
            assert(bytes.push(b)[i / 8] == bytes[i / 8]);
        } else {
            lemma_byte_split(n, i - 8 * n);
            assert(i == 8 * n + (i - 8 * n));
            assert(i / 8 == n && i % 8 == i - 8 * n);
            assert(bytes.push(b)[n] == b);
            assert(rhs[i] == byte_bits(b)[i - 8 * n]);
        }
    }
    assert(lhs =~= rhs);
}

} // verus!
