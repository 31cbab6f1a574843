//! Laws that relate the container's operations to one another.
//!
//! Each law is stated over the abstract bit sequences that the operations'
//! own contracts speak of, so that together with those contracts it
//! describes the observable behaviour of any chain of calls.

use vstd::prelude::*;

use crate::bitspec::{
    bit01, bits_of_bytes, byte_bit, byte_bits, byte_of_bits, bytes_of_bits, lemma_byte_split,
    repeat_bit,
};

verus! {

/// Push/pop inverse: pushing a bit onto any content and then removing the
/// last bit returns exactly that bit and restores the prior content.
/// Together with the contracts of `push` and `pop` this says that
/// `push(b); pop()` yields `Some(b)` and leaves the container as it was.
pub proof fn lemma_push_then_pop(s: Seq<bool>, b: bool)
    ensures
        s.push(b).len() == s.len() + 1,
        s.push(b).last() == b,
        s.push(b).drop_last() == s,
{
    assert(s.push(b).drop_last() =~= s);
}

/// Bulk append equals repeated single pushes: appending a run of `n`
/// copies of a bit gives the same content as appending a run of `n - 1`
/// copies and then pushing the bit once. By induction over `n`, together
/// with the contracts of `push_many` and `push`, a single
/// `push_many(value, n)` call leaves exactly the content that `n`
/// sequential `push(value)` calls leave.
pub proof fn lemma_push_many_is_repeated_push(s: Seq<bool>, b: bool, n: nat)
    ensures
        n == 0 ==> s + repeat_bit(b, n) == s,
        n > 0 ==> s + repeat_bit(b, n) == (s + repeat_bit(b, (n - 1) as nat)).push(b),
{
    if n == 0 {
        assert(s + repeat_bit(b, n) =~= s);
    } else {
        assert(s + repeat_bit(b, n) =~= (s + repeat_bit(b, (n - 1) as nat)).push(b));
    }
}

/// A byte appended at once equals eight single pushes: appending the eight
/// bits of a byte gives the same content as pushing the byte's bits one at
/// a time, most significant first. Together with the contracts of
/// `push_byte` and `push`, one `push_byte(v)` call leaves exactly the
/// content that eight sequential `push` calls on the bits of `v` leave.
pub proof fn lemma_push_byte_is_eight_pushes(s: Seq<bool>, v: u8)
    ensures
        s + byte_bits(v) == s.push(byte_bit(v, 0)).push(byte_bit(v, 1)).push(byte_bit(v, 2)).push(
            byte_bit(v, 3),
        ).push(byte_bit(v, 4)).push(byte_bit(v, 5)).push(byte_bit(v, 6)).push(byte_bit(v, 7)),
{
    assert(s + byte_bits(v) =~= s.push(byte_bit(v, 0)).push(byte_bit(v, 1)).push(
        byte_bit(v, 2),
    ).push(byte_bit(v, 3)).push(byte_bit(v, 4)).push(byte_bit(v, 5)).push(byte_bit(v, 6)).push(
        byte_bit(v, 7),
    ));
}

/// A byte is the weighted sum of its bits, most significant first.
proof fn lemma_byte_from_bits(b: u8)
    by (bit_vector)
    ensures
        b == 128 * ((b >> 7u8) & 1u8) + 64 * ((b >> 6u8) & 1u8) + 32 * ((b >> 5u8) & 1u8) + 16 * ((b
            >> 4u8) & 1u8) + 8 * ((b >> 3u8) & 1u8) + 4 * ((b >> 2u8) & 1u8) + 2 * ((b >> 1u8)
            & 1u8) + ((b >> 0u8) & 1u8),
{
}

/// A masked single bit of a byte is 0 or 1.
proof fn lemma_byte_bit_is_01(x: u8, t: u8)
    by (bit_vector)
    requires
        t < 8,
    ensures
        ((x >> t) & 1u8) == 0u8 || ((x >> t) & 1u8) == 1u8,
{
}

/// Round trip: turning bytes into their bit sequence and packing that bit
/// sequence back into bytes returns the original bytes. Together with the
/// contracts of `from_bytes` and `to_vecu8` this says that
/// `from_bytes(bytes).to_vecu8() == bytes` for every byte sequence.
pub proof fn lemma_bytes_round_trip(bytes: Seq<u8>)
    ensures
        bytes_of_bits(bits_of_bytes(bytes)) == bytes,
{
    let s = bits_of_bytes(bytes);
    let n = bytes.len() as int;
    assert((8 * n + 7) / 8 == n) by (nonlinear_arith)
        requires
            n >= 0,
    ;
    assert forall|k: int| 0 <= k < n implies bytes_of_bits(s)[k] == bytes[k] by {
        let b = bytes[k];
        assert forall|j: int| 0 <= j < 8 implies #[trigger] bit01(s, 8 * k + j) == ((b >> ((7
            - j) as u8)) & 1u8) as int by {
            lemma_byte_split(k, j);
            assert(0 <= 8 * k + j < 8 * n) by (nonlinear_arith)
                requires
                    0 <= k < n,
                    0 <= j < 8,
            ;
            assert(s[8 * k + j] == byte_bit(b, j));
            lemma_byte_bit_is_01(b, (7 - j) as u8);
        }
        lemma_byte_from_bits(b);
        assert(byte_of_bits(s, k) == b);
    }
    assert(bytes_of_bits(s) =~= bytes);
}

} // verus!
