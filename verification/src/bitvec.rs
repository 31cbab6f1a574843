//! The bit container itself.

use vstd::prelude::*;
use vstd::string::{StringExecFns, StringSliceAdditionalSpecFns};

use crate::bitspec::{
    bit01, bit_as_u8, bits_of_bytes, block_bit, byte_bit, byte_bits, byte_of_bits, bytes_of_bits,
    repeat_bit,
};

verus! {

// ---------------------------------------------------------------------------
// Bit-level facts about single blocks, proved by the bit-vector solver.
// ---------------------------------------------------------------------------
/// Every bit of the zero block is zero.
proof fn lemma_zero_block_bit(t: u64)
    by (bit_vector)
    requires
        t < 64,
    ensures
        ((0u64 >> t) & 1u64) == 0u64,
{
}

/// A masked single bit is 0 or 1.
proof fn lemma_bit_is_01(x: u64, t: u64)
    by (bit_vector)
    requires
        t < 64,
    ensures
        ((x >> t) & 1u64) == 0u64 || ((x >> t) & 1u64) == 1u64,
{
}

/// The bits of `(x << sh) | (y >> (64 - sh))`: positions at or above `sh`
/// come from `x` shifted up, positions below `sh` from the top of `y`.
proof fn lemma_shl_carry_bit(x: u64, y: u64, sh: u64, t: u64)
    by (bit_vector)
    requires
        1 <= sh < 64,
        t < 64,
    ensures
        t >= sh ==> ((((x << sh) | (y >> ((64 - sh) as u64))) >> t) & 1u64) == ((x >> ((t
            - sh) as u64)) & 1u64),
        t < sh ==> ((((x << sh) | (y >> ((64 - sh) as u64))) >> t) & 1u64) == ((y >> ((64 - sh
            + t) as u64)) & 1u64),
{
}

/// The bits of `(x >> 1) | (y << 63)`: positions below 63 come from `x`
/// shifted down, position 63 is the lowest bit of `y`.
proof fn lemma_shr_carry_bit(x: u64, y: u64, t: u64)
    by (bit_vector)
    requires
        t < 64,
    ensures
        t < 63 ==> ((((x >> 1u64) | (y << 63u64)) >> t) & 1u64) == ((x >> ((t + 1) as u64))
            & 1u64),
        t == 63 ==> ((((x >> 1u64) | (y << 63u64)) >> t) & 1u64) == (y & 1u64),
{
}

/// The bits of `(x >> 1) | (y << 63)` when `y` is zero: position 63
/// becomes zero.
proof fn lemma_shr_carry_top(x: u64)
    by (bit_vector)
    ensures
        ((((x >> 1u64) | (0u64 << 63u64)) >> 63u64) & 1u64) == 0u64,
{
}

/// The lowest bit read by masking equals the lowest bit read by shifting.
proof fn lemma_low_bit(x: u64)
    by (bit_vector)
    ensures
        (x & 1u64) == ((x >> 0u64) & 1u64),
        (x & 1u64) == 0u64 || (x & 1u64) == 1u64,
{
}

/// Setting the lowest bit leaves every other bit alone.
proof fn lemma_or_one_bit(x: u64, t: u64)
    by (bit_vector)
    requires
        t < 64,
    ensures
        t == 0 ==> (((x | 1u64) >> t) & 1u64) == 1u64,
        t > 0 ==> (((x | 1u64) >> t) & 1u64) == ((x >> t) & 1u64),
{
}

/// Merging a byte into the low positions of a block: positions at or above
/// 8 are untouched, and a position below 8 that was zero takes the byte's
/// bit.
proof fn lemma_or_byte_bit(x: u64, v: u8, t: u64)
    by (bit_vector)
    requires
        t < 64,
    ensures
        t >= 8 ==> (((x | (v as u64)) >> t) & 1u64) == ((x >> t) & 1u64),
        t < 8 && ((x >> t) & 1u64) == 0u64 ==> ((((x | (v as u64)) >> t) & 1u64) == 1u64) == (((v
            >> (t as u8)) & 1u8) == 1u8),
{
}

/// Every bit of the all-ones block is one.
proof fn lemma_max_bit(t: u64)
    by (bit_vector)
    requires
        t < 64,
    ensures
        ((u64::MAX >> t) & 1u64) == 1u64,
{
}

/// Merging a low mask of `rr` ones into a block: positions below `rr`
/// become one, positions at or above `rr` are untouched.
proof fn lemma_or_low_mask_bit(x: u64, rr: u64, t: u64)
    by (bit_vector)
    requires
        1 <= rr < 64,
        t < 64,
    ensures
        t < rr ==> (((x | (((1u64 << rr) - 1) as u64)) >> t) & 1u64) == 1u64,
        t >= rr ==> (((x | (((1u64 << rr) - 1) as u64)) >> t) & 1u64) == ((x >> t) & 1u64),
{
}

// ---------------------------------------------------------------------------
// Division facts used to translate between global bit positions and
// (block, offset) pairs.
// ---------------------------------------------------------------------------
/// A global position splits uniquely into a block index and an offset.
proof fn lemma_pos_split(i: int, t: int)
    by (nonlinear_arith)
    requires
        0 <= i,
        0 <= t < 64,
    ensures
        (64 * i + t) / 64 == i,
        (64 * i + t) % 64 == t,
{
}

/// Recovering the block index and offset of a global position.
proof fn lemma_pos_parts(p: int)
    by (nonlinear_arith)
    requires
        0 <= p,
    ensures
        p == 64 * (p / 64) + (p % 64),
        0 <= p % 64 < 64,
        0 <= p / 64,
{
}

/// Block indices grow with the global position.
proof fn lemma_pos_block_bounds(p: int, n: int)
    by (nonlinear_arith)
    requires
        0 <= p,
        0 <= n,
        p < 64 * n,
    ensures
        p / 64 < n,
{
}

/// The block count needed for `x` bits, in its two equivalent forms.
proof fn lemma_ceil64(x: int)
    by (nonlinear_arith)
    requires
        0 <= x,
    ensures
        (x + 63) / 64 == x / 64 + if x % 64 == 0 {
            0int
        } else {
            1int
        },
        64 * ((x + 63) / 64) >= x,
        x / 64 <= (x + 63) / 64,
{
}

/// Appending zero blocks keeps every existing bit and adds only zeros.
proof fn lemma_padded_bits(od: Seq<u64>, d: Seq<u64>, p: int)
    requires
        od.len() <= d.len(),
        forall|k: int| 0 <= k < od.len() ==> d[k] == od[k],
        forall|k: int| od.len() <= k < d.len() ==> d[k] == 0u64,
        0 <= p < 64 * d.len(),
    ensures
        block_bit(d, p) == (p < 64 * od.len() && block_bit(od, p)),
{
    lemma_pos_parts(p);
    lemma_pos_block_bounds(p, d.len() as int);
    if p / 64 < od.len() {
        assert(p < 64 * od.len());
        assert(d[p / 64] == od[p / 64]);
    } else {
        assert(p >= 64 * od.len());
        assert(d[p / 64] == 0u64);
        lemma_zero_block_bit((p % 64) as u64);
    }
}

/// Moving every block up by `q` positions moves every bit up by `64 * q`
/// positions and zero-fills the vacated low blocks.
proof fn lemma_moved_bits(od: Seq<u64>, d: Seq<u64>, q: int, p: int)
    requires
        d.len() == od.len(),
        0 <= q <= d.len(),
        forall|k: int| q <= k < d.len() ==> d[k] == od[k - q],
        forall|k: int| 0 <= k < q ==> d[k] == 0u64,
        0 <= p < 64 * d.len(),
    ensures
        block_bit(d, p) == (p >= 64 * q && block_bit(od, p - 64 * q)),
{
    lemma_pos_parts(p);
    let bi = p / 64;
    let t = p % 64;
    if bi >= q {
        assert(p >= 64 * q);
        assert(d[bi] == od[bi - q]);
        lemma_pos_split(bi - q, t);
        assert(p - 64 * q == 64 * (bi - q) + t);
    } else {
        assert(p < 64 * q);
        assert(d[bi] == 0u64);
        lemma_zero_block_bit(t as u64);
    }
}

/// Why a fallible operation was refused.
#[derive(Debug, Clone, Copy, PartialEq, Eq, Structural)]
pub enum BitVecError {
    /// A bit-setting operation received a value other than 0 or 1.
    InvalidBitValue,
    /// `get` was called with an index at or past the end.
    OutOfRange,
    /// `get` was called on a container that holds no bits at all.
    EmptyContainer,
}

/// A dynamically growable vector of bits, packed into 64-bit blocks.
///
/// The abstract value is a `Seq<bool>` in push order. The storage layout is
/// fixed: the most recently pushed bit is the least significant bit of
/// block 0; each earlier bit sits one position higher, overflowing into
/// higher-index blocks, so the first bit ever pushed lives in the
/// highest-index block. Only that last block may be partially used, and its
/// unused high bits are always zero.
#[derive(Debug, Clone)]
pub struct BitVec {
    data: Vec<u64>,
    length: usize,
}

impl View for BitVec {
    type V = Seq<bool>;

    /// The bits in push order: position 0 is the first bit ever pushed.
    open spec fn view(&self) -> Seq<bool> {
        Seq::new(
            self.spec_bit_len(),
            |i: int| block_bit(self.spec_blocks(), self.spec_bit_len() - 1 - i),
        )
    }
}

impl BitVec {
    /// The backing blocks, in storage order.
    pub closed spec fn spec_blocks(&self) -> Seq<u64> {
        self.data@
    }

    /// The number of logically valid bits.
    pub closed spec fn spec_bit_len(&self) -> nat {
        self.length as nat
    }

    /// Well-formedness: exactly enough blocks to hold the bits, and every
    /// storage bit past the logical end is zero.
    pub open spec fn wf(&self) -> bool {
        &&& self.spec_blocks().len() == (self.spec_bit_len() + 63) / 64
        &&& forall|p: int|
            self.spec_bit_len() <= p < 64 * self.spec_blocks().len() ==> !block_bit(
                self.spec_blocks(),
                p,
            )
    }

    /// An empty container: no blocks, no bits.
    pub fn new() -> (r: Self)
        ensures
            r.wf(),
            r@ == Seq::<bool>::empty(),
    {
        let r = BitVec { data: Vec::new(), length: 0 };
        proof {
            assert(r@ =~= Seq::<bool>::empty());
        }
        r
    }

    /// The number of bits held.
    pub fn len(self) -> (r: usize)
        ensures
            r == self@.len(),
    {
        self.length
    }

    /// The backing blocks, for callers that inspect the storage layout.
    pub fn blocks(&self) -> (r: &Vec<u64>)
        ensures
            r@ == self.spec_blocks(),
    {
        &self.data
    }

    /// The bit at logical position `base + j`, or 0 when that position is
    /// past the end.
    fn bit_or_zero(&self, base: usize, j: usize) -> (r: u8)
        requires
            self.wf(),
            base <= self@.len(),
            j < 8,
        ensures
            r as int == bit01(self@, base as int + j as int),
    {
        if j < self.length - base {
            self.get(base + j)
        } else {
            0
        }
    }

    /// The ordered bytes representing the bit content: the first byte holds
    /// the earliest eight bits, most significant first, and a final partial
    /// byte is zero-padded in its low-order bits.
    pub fn to_vecu8(&self) -> (r: Vec<u8>)
        requires
            self.wf(),
        ensures
            r@ == bytes_of_bits(self@),
            r@.len() == (self@.len() + 7) / 8,
    {
        let total = self.length / 8 + if self.length % 8 != 0 {
            1
        } else {
            0
        };
        proof {
            assert(total == (self.length + 7) / 8 && 8 * total
                <= self.length + 7 && (total > 0 ==> 8 * (total - 1) < self.length))
                by (nonlinear_arith)
                requires
                    total == self.length as int / 8 + if self.length as int % 8 != 0 {
                        1int
                    } else {
                        0int
                    },
                    self.length >= 0,
            ;
        }
        let mut out: Vec<u8> = Vec::new();
        let mut k: usize = 0;
        while k < total
            invariant
                k <= total,
                self.wf(),
                total == (self@.len() + 7) / 8,
                8 * total <= self@.len() + 7,
                total > 0 ==> 8 * (total - 1) < self@.len(),
                out@.len() == k,
                forall|m: int| 0 <= m < k ==> out@[m] == byte_of_bits(self@, m),
            decreases total - k,
        {
            let base = 8 * k;
            let byte: u8 = 128 * self.bit_or_zero(base, 0) + 64 * self.bit_or_zero(base, 1) + 32
                * self.bit_or_zero(base, 2) + 16 * self.bit_or_zero(base, 3) + 8 * self.bit_or_zero(
                base,
                4,
            ) + 4 * self.bit_or_zero(base, 5) + 2 * self.bit_or_zero(base, 6) + self.bit_or_zero(
                base,
                7,
            );
            proof {
                assert(byte == byte_of_bits(self@, k as int));
            }
            out.push(byte);
            k = k + 1;
        }
        proof {
            assert(out@ =~= bytes_of_bits(self@));
        }
        out
    }

    /// Renders the bits as a text of '0' and '1' characters, one per bit,
    /// in push order, with no separators; empty text for an empty
    /// container.
    pub fn to_string(&self) -> (r: String)
        requires
            self.wf(),
        ensures
            r@.len() == self@.len(),
            forall|i: int|
                0 <= i < self@.len() ==> r@[i] == (if self@[i] {
                    '1'
                } else {
                    '0'
                }),
    {
        let mut s = String::new();
        let mut i: usize = 0;
        while i < self.length
            invariant
                i <= self@.len(),
                self.wf(),
                s@.len() == i,
                forall|m: int|
                    0 <= m < i ==> s@[m] == (if self@[m] {
                        '1'
                    } else {
                        '0'
                    }),
            decreases self@.len() - i,
        {
            let b = self.get(i);
            if b == 1 {
                s.append("1");
            } else {
                s.append("0");
            }
            proof {
                reveal_strlit("1");
                reveal_strlit("0");
                assert("1"@.len() == 1 && "0"@.len() == 1);
                assert("1"@[0] == '1' && "0"@[0] == '0');
            }
            i = i + 1;
        }
        s
    }

    /// Shift the whole storage pattern `sh` positions towards the more
    /// significant end, carrying across block boundaries. Bits shifted past
    /// the top of the last block are dropped; the vacated low positions
    /// become zero. The logical length is not touched.
    fn shift_left_by(&mut self, sh: usize)
        requires
            1 <= sh < 64,
        ensures
            final(self).length == old(self).length,
            final(self).data@.len() == old(self).data@.len(),
            forall|p: int|
                0 <= p < 64 * final(self).data@.len() ==> #[trigger] block_bit(final(self).data@, p)
                    == (p >= sh && block_bit(old(self).data@, p - sh)),
    {
        let n = self.data.len();
        let s64: u64 = sh as u64;
        let mut j: usize = 0;
        while j < n
            invariant
                j <= n,
                n == self.data@.len(),
                n == old(self).data@.len(),
                self.length == old(self).length,
                1 <= s64 < 64,
                s64 == sh,
                forall|k: int| 0 <= k < n - j ==> self.data@[k] == old(self).data@[k],
                forall|p: int|
                    64 * (n - j) <= p < 64 * n ==> #[trigger] block_bit(self.data@, p) == (p >= s64
                        && block_bit(old(self).data@, p - s64)),
            decreases n - j,
        {
            let i = n - 1 - j;
            let prev: u64 = if i > 0 {
                self.data[i - 1]
            } else {
                0
            };
            let cur: u64 = self.data[i];
            let ghost before = self.data@;
            let v: u64 = (cur << s64) | (prev >> (64 - s64));
            self.data.set(i, v);
            proof {
                let d = self.data@;
                let od = old(self).data@;
                assert(cur == od[i as int]);
                assert(d == before.update(i as int, v));
                assert forall|p: int| 64 * (n - j - 1) <= p < 64 * n implies #[trigger] block_bit(
                    d,
                    p,
                ) == (p >= s64 && block_bit(od, p - s64)) by {
                    lemma_pos_parts(p);
                    let bi = p / 64;
                    let t = p % 64;
                    assert(p == 64 * bi + t);
                    if bi == i {
                        lemma_shl_carry_bit(cur, prev, s64, t as u64);
                        assert(d[bi] == v);
                        if t >= s64 {
                            // the bit comes from the same block of the old data
                            lemma_pos_split(i as int, t - s64);
                            assert(p - s64 == 64 * (i as int) + (t - s64));
                            assert(block_bit(od, p - s64) == (((od[i as int] >> ((t
                                - s64) as u64)) & 1u64) == 1u64));
                        } else {
                            // the bit comes from the top of the block below
                            if i > 0 {
                                lemma_pos_split(i as int - 1, 64 - s64 + t);
                                assert(p - s64 == 64 * (i as int - 1) + (64 - s64 + t));
                                assert(prev == od[i as int - 1]);
                                assert(block_bit(od, p - s64) == (((od[i as int - 1] >> ((64 - s64
                                    + t) as u64)) & 1u64) == 1u64));
                            } else {
                                // p < s64: the vacated positions are zero
                                lemma_zero_block_bit((64 - s64 + t) as u64);
                                assert(p < s64);
                            }
                        }
                    } else {
                        // a block above i: rewritten in an earlier iteration
                        // and untouched by the update at i
                        assert(64 * (n - j) <= p);
                        assert(d[bi] == before[bi]);
                        assert(block_bit(d, p) == block_bit(before, p));
                    }
                }
            }
            j = j + 1;
        }
    }

    /// Shift the whole storage pattern one position towards the less
    /// significant end, carrying across block boundaries. The top position
    /// of the last block becomes zero. The logical length is not touched.
    fn shift_right_one(&mut self)
        ensures
            final(self).length == old(self).length,
            final(self).data@.len() == old(self).data@.len(),
            forall|p: int|
                0 <= p < 64 * final(self).data@.len() ==> #[trigger] block_bit(final(self).data@, p)
                    == (p + 1 < 64 * final(self).data@.len() && block_bit(old(self).data@, p + 1)),
    {
        let n = self.data.len();
        let mut i: usize = 0;
        while i < n
            invariant
                i <= n,
                n == self.data@.len(),
                n == old(self).data@.len(),
                self.length == old(self).length,
                forall|k: int| i <= k < n ==> self.data@[k] == old(self).data@[k],
                forall|p: int|
                    0 <= p < 64 * i ==> #[trigger] block_bit(self.data@, p) == (p + 1 < 64 * n
                        && block_bit(old(self).data@, p + 1)),
            decreases n - i,
        {
            let nxt: u64 = if i + 1 < n {
                self.data[i + 1]
            } else {
                0
            };
            let cur: u64 = self.data[i];
            let ghost before = self.data@;
            let v: u64 = (cur >> 1u64) | (nxt << 63u64);
            self.data.set(i, v);
            proof {
                let d = self.data@;
                let od = old(self).data@;
                assert(cur == od[i as int]);
                assert forall|p: int| 0 <= p < 64 * (i + 1) implies #[trigger] block_bit(d, p) == (p
                    + 1 < 64 * n && block_bit(od, p + 1)) by {
                    lemma_pos_parts(p);
                    let bi = p / 64;
                    let t = p % 64;
                    assert(p == 64 * bi + t);
                    if bi == i {
                        lemma_shr_carry_bit(cur, nxt, t as u64);
                        assert(d[bi] == v);
                        if t < 63 {
                            lemma_pos_split(i as int, t + 1);
                            assert(p + 1 == 64 * (i as int) + (t + 1));
                            assert(block_bit(od, p + 1) == (((od[i as int] >> ((t
                                + 1) as u64)) & 1u64) == 1u64));
                        } else {
                            if i + 1 < n {
                                assert(nxt == od[i as int + 1]);
                                lemma_pos_split(i as int + 1, 0);
                                assert(p + 1 == 64 * (i as int + 1) + 0);
                                lemma_low_bit(nxt);
                                assert(block_bit(od, p + 1) == (((od[i as int + 1]
                                    >> 0u64) & 1u64) == 1u64));
                            } else {
                                lemma_shr_carry_top(cur);
                                assert(p + 1 == 64 * n);
                            }
                        }
                    } else {
                        // a block below i: rewritten in an earlier iteration
                        // and untouched by the update at i
                        assert(bi < i);
                        assert(p < 64 * i);
                        assert(d[bi] == before[bi]);
                        assert(block_bit(d, p) == block_bit(before, p));
                    }
                }
            }
            i = i + 1;
        }
    }

    /// Appends zero blocks at the high end until `nb` blocks are stored.
    fn grow_to(&mut self, nb: usize)
        requires
            old(self).data@.len() <= nb,
        ensures
            final(self).length == old(self).length,
            final(self).data@.len() == nb,
            forall|k: int|
                0 <= k < old(self).data@.len() ==> final(self).data@[k] == old(self).data@[k],
            forall|k: int| old(self).data@.len() <= k < nb ==> final(self).data@[k] == 0u64,
    {
        while self.data.len() < nb
            invariant
                old(self).data@.len() <= self.data@.len() <= nb,
                self.length == old(self).length,
                forall|k: int|
                    0 <= k < old(self).data@.len() ==> self.data@[k] == old(self).data@[k],
                forall|k: int| old(self).data@.len() <= k < self.data@.len() ==> self.data@[k]
                    == 0u64,
            decreases nb - self.data@.len(),
        {
            self.data.push(0u64);
        }
    }

    /// Moves every block `q` positions towards the high end, dropping the
    /// topmost `q` blocks and zero-filling the vacated low ones.
    fn shift_blocks(&mut self, q: usize)
        requires
            1 <= q <= old(self).data@.len(),
        ensures
            final(self).length == old(self).length,
            final(self).data@.len() == old(self).data@.len(),
            forall|k: int|
                q <= k < final(self).data@.len() ==> final(self).data@[k] == old(self).data@[k - q],
            forall|k: int| 0 <= k < q ==> final(self).data@[k] == 0u64,
    {
        let n = self.data.len();
        let mut j: usize = 0;
        while j < n - q
            invariant
                j <= n - q,
                1 <= q <= n,
                n == self.data@.len(),
                n == old(self).data@.len(),
                self.length == old(self).length,
                forall|k: int| 0 <= k < n - j ==> self.data@[k] == old(self).data@[k],
                forall|k: int| n - j <= k < n ==> self.data@[k] == old(self).data@[k - q],
            decreases n - q - j,
        {
            let i = n - 1 - j;
            let v = self.data[i - q];
            self.data.set(i, v);
            j = j + 1;
        }
        let mut k: usize = 0;
        while k < q
            invariant
                k <= q <= n,
                n == self.data@.len(),
                n == old(self).data@.len(),
                self.length == old(self).length,
                forall|m: int| 0 <= m < k ==> self.data@[m] == 0u64,
                forall|m: int| k <= m < q ==> self.data@[m] == old(self).data@[m],
                forall|m: int| q <= m < n ==> self.data@[m] == old(self).data@[m - q],
            decreases q - k,
        {
            self.data.set(k, 0u64);
            k = k + 1;
        }
    }

    /// Appends `n` copies of a bit in one pass: the stored pattern moves
    /// `n` positions up (whole blocks first, then a sub-block carry shift)
    /// and the vacated low region is filled with the bit.
    #[verifier::rlimit(100)]
    pub fn push_many(&mut self, value: u8, n: usize)
        requires
            old(self).wf(),
            value <= 1,
            old(self)@.len() + n <= usize::MAX,
        ensures
            final(self).wf(),
            final(self)@ == old(self)@ + repeat_bit(value == 1, n as nat),
            final(self)@.len() == old(self)@.len() + n,
    {
        if n == 0 {
            proof {
                assert(self@ =~= old(self)@ + repeat_bit(value == 1, 0));
            }
            return ;
        }
        let ghost len0 = self.length as int;
        let q = n / 64;
        let rem = n % 64;
        let total = self.length + n;
        let needed = total / 64 + if total % 64 != 0 {
            1
        } else {
            0
        };
        proof {
            lemma_ceil64(len0);
            lemma_ceil64(len0 + n);
            lemma_pos_parts(n as int);
            assert(needed == (len0 + n + 63) / 64);
            assert((len0 + 63) / 64 <= (len0 + n + 63) / 64) by (nonlinear_arith)
                requires
                    0 <= len0,
                    0 <= n,
            ;
            assert(q <= needed) by (nonlinear_arith)
                requires
                    q == n as int / 64,
                    needed == (len0 + n + 63) / 64,
                    0 <= len0,
                    0 < n,
            ;
        }
        self.grow_to(needed);
        let ghost grown = self.data@;
        proof {
            assert forall|p: int| 0 <= p < 64 * grown.len() implies #[trigger] block_bit(grown, p)
                == (p < len0 && block_bit(old(self).data@, p)) by {
                lemma_padded_bits(old(self).data@, grown, p);
                if 64 * old(self).data@.len() <= p {
                    assert(!block_bit(grown, p));
                } else if len0 <= p {
                    assert(!block_bit(old(self).data@, p));
                }
            }
            assert(64 * grown.len() >= len0 + n);
        }
        if rem > 0 {
            self.shift_left_by(rem);
        }
        let ghost subbed = self.data@;
        proof {
            assert forall|p: int| 0 <= p < 64 * subbed.len() implies #[trigger] block_bit(subbed, p)
                == (rem <= p && block_bit(grown, p - rem)) by {
                if rem == 0 {
                    assert(subbed == grown);
                }
            }
        }
        if q > 0 {
            self.shift_blocks(q);
        }
        let ghost moved = self.data@;
        proof {
            assert forall|p: int| 0 <= p < 64 * moved.len() implies #[trigger] block_bit(moved, p)
                == (n <= p && block_bit(grown, p - n)) by {
                if q > 0 {
                    lemma_moved_bits(subbed, moved, q as int, p);
                } else {
                    assert(moved == subbed);
                }
                assert(n == 64 * q + rem);
                if n <= p {
                    assert(block_bit(moved, p) == block_bit(grown, p - n));
                }
            }
        }
        if value == 1 {
            let mut k: usize = 0;
            while k < q
                invariant
                    k <= q,
                    q <= self.data@.len(),
                    self.data@.len() == moved.len(),
                    self.length == old(self).length,
                    forall|m: int| 0 <= m < k ==> self.data@[m] == u64::MAX,
                    forall|m: int| k <= m < self.data@.len() ==> self.data@[m] == moved[m],
                decreases q - k,
            {
                self.data.set(k, u64::MAX);
                k = k + 1;
            }
            if rem > 0 {
                proof {
                    assert(q < self.data@.len()) by (nonlinear_arith)
                        requires
                            0 < rem < 64,
                            n == 64 * q + rem,
                            len0 >= 0,
                            64 * self.data@.len() >= len0 + n,
                            self.data@.len() == moved.len(),
                    ;
                }
                proof {
                    assert(1u64 <= (1u64 << (rem as u64))) by (bit_vector)
                        requires
                            0 < (rem as u64) < 64,
                    ;
                }
                let dq = self.data[q];
                let mask = (1u64 << (rem as u64)) - 1;
                self.data.set(q, dq | mask);
            }
        }
        let ghost filled = self.data@;
        proof {
            assert forall|p: int| 0 <= p < 64 * filled.len() implies #[trigger] block_bit(filled, p)
                == (if p < n {
                value == 1
            } else {
                block_bit(grown, p - n)
            }) by {
                lemma_pos_parts(p);
                let bi = p / 64;
                let t = (p % 64) as u64;
                if value == 1 {
                    if bi < q {
                        assert(filled[bi] == u64::MAX);
                        lemma_max_bit(t);
                        assert(p < 64 * q);
                        assert(p < n);
                    } else if rem > 0 && bi == q {
                        assert(filled[bi] == (moved[bi] | (((1u64 << (rem as u64)) - 1) as u64)));
                        lemma_or_low_mask_bit(moved[bi], rem as u64, t);
                        assert(t < rem ==> block_bit(filled, p));
                        assert(p < n <==> t < rem);
                        if t >= rem {
                            assert(block_bit(filled, p) == block_bit(moved, p));
                        }
                    } else {
                        assert(filled[bi] == moved[bi]);
                        assert(block_bit(filled, p) == block_bit(moved, p));
                        assert(p >= n);
                    }
                } else {
                    assert(filled == moved);
                    if p < n {
                        assert(!block_bit(moved, p));
                    }
                }
            }
        }
        self.length = total;
        proof {
            let d = self.data@;
            let nb = d.len() as int;
            // block count matches the new length
            assert(nb == (len0 + n + 63) / 64);
            // bits above the new length are zero
            assert forall|p: int|
                self.spec_bit_len() <= p < 64 * nb implies !block_bit(d, p) by {
                assert(p >= n);
                assert(!block_bit(grown, p - n));
            }
            assert(self.wf());
            // the new content is the old content with the run after it
            assert forall|i: int| 0 <= i < len0 + n implies self@[i] == (old(self)@ + repeat_bit(
                value == 1,
                n as nat,
            ))[i] by {
                let p = len0 + n - 1 - i;
                assert(self@[i] == block_bit(d, p));
                if i < len0 {
                    assert(p >= n);
                    assert(block_bit(d, p) == block_bit(old(self).data@, p - n));
                    assert(old(self)@[i] == block_bit(old(self).data@, len0 - 1 - i));
                } else {
                    assert(p < n);
                }
            }
            assert(self@ =~= old(self)@ + repeat_bit(value == 1, n as nat));
        }
    }

    /// Removes and returns the most recently pushed bit, the lowest bit of
    /// block 0. The remaining pattern moves one position down, and a block
    /// that has become entirely empty is dropped.
    pub fn pop(&mut self) -> (r: Option<u8>)
        requires
            old(self).wf(),
        ensures
            final(self).wf(),
            old(self)@.len() == 0 ==> r is None && *final(self) == *old(self),
            old(self)@.len() > 0 ==> r == Some(bit_as_u8(old(self)@.last())) && final(self)@ == old(
                self,
            )@.drop_last() && final(self)@.len() == old(self)@.len() - 1,
    {
        if self.length == 0 {
            return None;
        }
        let ghost len0 = self.length as int;
        proof {
            assert((len0 + 63) / 64 >= 1) by (nonlinear_arith)
                requires
                    len0 >= 1,
            ;
            assert(old(self)@.last() == block_bit(self.data@, 0));
            lemma_pos_split(0, 0);
        }
        let d0 = self.data[0];
        let val: u8 = (d0 & 1u64) as u8;
        proof {
            lemma_low_bit(d0);
        }
        self.shift_right_one();
        let ghost shifted = self.data@;
        self.length = self.length - 1;
        if self.length % 64 == 0 {
            self.data.pop();
            proof {
                assert(shifted.len() >= 1);
                assert(self.data@ == shifted.subrange(0, shifted.len() - 1));
                assert((len0 - 1) % 64 == 0);
                assert(shifted.len() == (len0 + 63) / 64);
                assert((len0 - 1 + 63) / 64 == (len0 + 63) / 64 - 1 && 64 * ((len0 + 63) / 64 - 1)
                    == len0 - 1) by (nonlinear_arith)
                    requires
                        len0 >= 1,
                        (len0 - 1) % 64 == 0,
                        shifted.len() == (len0 + 63) / 64,
                ;
            }
        } else {
            proof {
                assert((len0 - 1 + 63) / 64 == (len0 + 63) / 64) by (nonlinear_arith)
                    requires
                        len0 >= 1,
                        (len0 - 1) % 64 != 0,
                ;
            }
        }
        proof {
            let d = self.data@;
            let nb = d.len() as int;
            let old_nb = old(self).data@.len() as int;
            assert(nb == (len0 - 1 + 63) / 64);
            assert(64 * nb <= 64 * old_nb);
            // blocks kept are unchanged, so their bits still come from the shift
            assert forall|p: int| 0 <= p < 64 * nb implies #[trigger] block_bit(d, p) == (p + 1 < 64
                * old_nb && block_bit(old(self).data@, p + 1)) by {
                lemma_pos_parts(p);
                lemma_pos_block_bounds(p, nb);
                assert(d[p / 64] == shifted[p / 64]);
                assert(block_bit(d, p) == block_bit(shifted, p));
            }
            // bits above the new length are zero
            assert forall|p: int|
                self.spec_bit_len() <= p < 64 * nb implies !block_bit(d, p) by {
                if p + 1 < 64 * old_nb {
                    assert(!block_bit(old(self).data@, p + 1));
                }
            }
            assert(self.wf());
            // the new content is the old content without its last bit
            assert forall|i: int| 0 <= i < len0 - 1 implies self@[i] == old(self)@[i] by {
                let p = len0 - 2 - i;
                assert(self@[i] == block_bit(d, p));
                assert(old(self)@[i] == block_bit(old(self).data@, p + 1));
                assert(p < 64 * nb);
            }
            assert(self@ =~= old(self)@.drop_last());
        }
        Some(val)
    }

    /// Appends the eight bits of a byte at the end, most significant bit
    /// first, in one pass: the stored pattern moves eight positions up and
    /// the byte fills the vacated low positions of block 0.
    pub fn push_byte(&mut self, value: u8)
        requires
            old(self).wf(),
            old(self)@.len() + 8 <= usize::MAX,
        ensures
            final(self).wf(),
            final(self)@ == old(self)@ + byte_bits(value),
            final(self)@.len() == old(self)@.len() + 8,
    {
        let ghost len0 = self.length as int;
        let rem = self.length % 64;
        if rem == 0 || rem > 56 {
            self.data.push(0u64);
            proof {
                assert forall|p: int|
                    len0 <= p < 64 * self.data@.len() implies !block_bit(self.data@, p) by {
                    lemma_pos_parts(p);
                    lemma_pos_block_bounds(p, self.data@.len() as int);
                    if p / 64 < self.data@.len() - 1 {
                        assert(block_bit(self.data@, p) == block_bit(old(self).data@, p));
                    } else {
                        assert(self.data@[p / 64] == 0u64);
                        lemma_zero_block_bit((p % 64) as u64);
                    }
                }
                assert(self.data@.len() == (len0 + 63) / 64 + 1);
                assert(64 * self.data@.len() >= len0 + 8 && self.data@.len() == (len0 + 8 + 63)
                    / 64) by (nonlinear_arith)
                    requires
                        len0 >= 0,
                        len0 % 64 == 0 || len0 % 64 > 56,
                        self.data@.len() == (len0 + 63) / 64 + 1,
                ;
            }
        } else {
            proof {
                assert(self.data@.len() == (len0 + 63) / 64);
                assert(64 * self.data@.len() >= len0 + 8 && self.data@.len() == (len0 + 8 + 63)
                    / 64) by (nonlinear_arith)
                    requires
                        len0 >= 1,
                        1 <= len0 % 64 <= 56,
                        self.data@.len() == (len0 + 63) / 64,
                ;
            }
        }
        let ghost grown = self.data@;
        self.shift_left_by(8);
        let ghost shifted = self.data@;
        let d0 = self.data[0];
        self.data.set(0, d0 | (value as u64));
        self.length = self.length + 8;
        proof {
            let d = self.data@;
            let nb = d.len() as int;
            let old_nb = old(self).data@.len() as int;
            // every storage bit, in terms of the state after the growth
            assert forall|p: int| 0 <= p < 64 * nb implies #[trigger] block_bit(d, p) == (if p < 8 {
                byte_bit(value, 7 - p)
            } else {
                block_bit(grown, p - 8)
            }) by {
                lemma_pos_parts(p);
                let t = (p % 64) as u64;
                if p / 64 > 0 {
                    assert(d[p / 64] == shifted[p / 64]);
                    assert(block_bit(d, p) == block_bit(shifted, p));
                    assert(p >= 64);
                } else {
                    assert(p == t);
                    assert(d[0] == (d0 | (value as u64)));
                    assert(d0 == shifted[0]);
                    lemma_or_byte_bit(d0, value, t);
                    if p < 8 {
                        assert(!block_bit(shifted, p));
                        assert(((d0 >> t) & 1u64) != 1u64);
                        lemma_bit_is_01(d0, t);
                        assert(((d0 >> t) & 1u64) == 0u64);
                        assert(block_bit(d, p) == ((((d0 | (value as u64)) >> t) & 1u64) == 1u64));
                        assert(block_bit(d, p) == (((value >> (t as u8)) & 1u8) == 1u8));
                        assert(byte_bit(value, 7 - p) == (((value >> ((7 - (7
                            - p)) as u8)) & 1u8) == 1u8));
                        assert((7 - (7 - p)) as u8 == t as u8);
                    } else {
                        assert(block_bit(d, p) == (((d0 >> t) & 1u64) == 1u64));
                        assert(block_bit(shifted, p) == (((d0 >> t) & 1u64) == 1u64));
                        assert(block_bit(d, p) == block_bit(shifted, p));
                    }
                }
            }
            // bits above the new length are zero
            assert forall|p: int|
                self.spec_bit_len() <= p < 64 * nb implies !block_bit(d, p) by {
                assert(p >= 8);
                assert(!block_bit(grown, p - 8));
            }
            assert(self.wf());
            // the new content is the old content with the byte's bits after it
            assert forall|i: int| 0 <= i < len0 + 8 implies self@[i] == (old(self)@ + byte_bits(
                value,
            ))[i] by {
                let p = len0 + 7 - i;
                assert(self@[i] == block_bit(d, p));
                if i < len0 {
                    assert(block_bit(d, p) == block_bit(grown, p - 8));
                    lemma_pos_parts(p - 8);
                    lemma_pos_block_bounds(p - 8, old_nb);
                    assert(grown[(p - 8) / 64] == old(self).data@[(p - 8) / 64]);
                    assert(block_bit(grown, p - 8) == block_bit(old(self).data@, p - 8));
                    assert(old(self)@[i] == block_bit(old(self).data@, len0 - 1 - i));
                } else {
                    assert(p < 8);
                    assert(block_bit(d, p) == byte_bit(value, 7 - p));
                    assert((old(self)@ + byte_bits(value))[i] == byte_bit(value, i - len0));
                }
            }
            assert(self@ =~= old(self)@ + byte_bits(value));
        }
    }

    /// The bit at logical position `index`, where position 0 is the first
    /// bit ever pushed.
    pub fn get(&self, index: usize) -> (r: u8)
        requires
            self.wf(),
            index < self@.len(),
        ensures
            r == bit_as_u8(self@[index as int]),
            r <= 1,
    {
        let p = self.length - 1 - index;
        let bi = p / 64;
        let sh: u64 = (p % 64) as u64;
        proof {
            lemma_pos_parts(p as int);
            assert((p as int + 64) / 64 == p as int / 64 + 1) by (nonlinear_arith);
            assert(self.data@.len() == (self.length + 63) / 64);
            assert(p as int + 64 <= self.length + 63);
            assert((p as int + 64) / 64 <= (self.length + 63) as int / 64) by (nonlinear_arith)
                requires
                    p as int + 64 <= self.length + 63,
            ;
        }
        let b = self.data[bi];
        let r = ((b >> sh) & 1u64) as u8;
        proof {
            lemma_bit_is_01(b, sh);
            assert(self@[index as int] == block_bit(self.data@, p as int));
        }
        r
    }

    /// The bit at logical position `index`, or the reason it cannot be
    /// read: `EmptyContainer` when no bit is stored at all, `OutOfRange`
    /// when the index is at or past the end.
    pub fn try_get(&self, index: usize) -> (r: Result<u8, BitVecError>)
        requires
            self.wf(),
        ensures
            self@.len() == 0 ==> r == Err::<u8, BitVecError>(BitVecError::EmptyContainer),
            self@.len() > 0 && index >= self@.len() ==> r == Err::<u8, BitVecError>(
                BitVecError::OutOfRange,
            ),
            index < self@.len() ==> r == Ok::<u8, BitVecError>(bit_as_u8(self@[index as int])),
    {
        if self.length == 0 {
            Err(BitVecError::EmptyContainer)
        } else if index >= self.length {
            Err(BitVecError::OutOfRange)
        } else {
            Ok(self.get(index))
        }
    }

    /// Puts a bit at the end, or refuses a value other than 0 or 1 with
    /// `InvalidBitValue` and leaves the container exactly as it was.
    pub fn try_push(&mut self, value: u8) -> (r: Result<(), BitVecError>)
        requires
            old(self).wf(),
            old(self)@.len() < usize::MAX,
        ensures
            final(self).wf(),
            value <= 1 ==> r == Ok::<(), BitVecError>(()) && final(self)@ == old(self)@.push(
                value == 1,
            ),
            value > 1 ==> r == Err::<(), BitVecError>(BitVecError::InvalidBitValue) && *final(self)
                == *old(self),
    {
        if value > 1 {
            return Err(BitVecError::InvalidBitValue);
        }
        self.push(value);
        Ok(())
    }

    /// Appends `n` copies of a bit, or refuses a value other than 0 or 1
    /// with `InvalidBitValue` and leaves the container exactly as it was.
    pub fn try_push_many(&mut self, value: u8, n: usize) -> (r: Result<(), BitVecError>)
        requires
            old(self).wf(),
            old(self)@.len() + n <= usize::MAX,
        ensures
            final(self).wf(),
            value <= 1 ==> r == Ok::<(), BitVecError>(()) && final(self)@ == old(self)@
                + repeat_bit(value == 1, n as nat),
            value > 1 ==> r == Err::<(), BitVecError>(BitVecError::InvalidBitValue) && *final(self)
                == *old(self),
    {
        if value > 1 {
            return Err(BitVecError::InvalidBitValue);
        }
        self.push_many(value, n);
        Ok(())
    }

    /// Builds a container from a byte sequence: every byte contributes its
    /// eight bits, most significant first, in byte order.
    pub fn from_bytes(bytes: &[u8]) -> (r: Self)
        requires
            bytes@.len() * 8 <= usize::MAX,
        ensures
            r.wf(),
            r@ == bits_of_bytes(bytes@),
            r@.len() == bytes@.len() * 8,
    {
        let mut bv = BitVec::new();
        let n = bytes.len();
        proof {
            assert(bits_of_bytes(bytes@.take(0)) =~= Seq::<bool>::empty());
        }
        let mut i: usize = 0;
        while i < n
            invariant
                i <= n,
                n == bytes@.len(),
                bytes@.len() * 8 <= usize::MAX,
                bv.wf(),
                bv@ == bits_of_bytes(bytes@.take(i as int)),
                bv@.len() == i * 8,
            decreases n - i,
        {
            let byte = bytes[i];
            bv.push_byte(byte);
            proof {
                assert(bytes@.take(i as int).push(bytes@[i as int]) =~= bytes@.take(i as int + 1));
                crate::bitspec::lemma_bits_of_bytes_snoc(bytes@.take(i as int), bytes@[i as int]);
            }
            i = i + 1;
        }
        proof {
            assert(bytes@.take(n as int) =~= bytes@);
        }
        bv
    }

    /// Builds a container from the raw bytes of a string, passed through
    /// unchanged: each byte of the text's encoding contributes its eight
    /// bits, most significant first.
    pub fn from_str(strval: &str) -> (r: Self)
        requires
            strval.spec_bytes().len() * 8 <= usize::MAX,
        ensures
            r.wf(),
            r@ == bits_of_bytes(strval.spec_bytes()),
    {
        BitVec::from_bytes(strval.as_bytes())
    }

    /// Puts a bit at the end of the container. The whole stored pattern
    /// moves one position up and the new bit takes the lowest position of
    /// block 0; a fresh block is first added when the storage is full.
    pub fn push(&mut self, value: u8)
        requires
            old(self).wf(),
            value <= 1,
            old(self)@.len() < usize::MAX,
        ensures
            final(self).wf(),
            final(self)@ == old(self)@.push(value == 1),
            final(self)@.len() == old(self)@.len() + 1,
    {
        let ghost len0 = self.length as int;
        if self.length % 64 == 0 {
            self.data.push(0u64);
            proof {
                assert forall|p: int|
                    len0 <= p < 64 * self.data@.len() implies !block_bit(self.data@, p) by {
                    lemma_pos_parts(p);
                    lemma_pos_block_bounds(p, self.data@.len() as int);
                    if p / 64 < self.data@.len() - 1 {
                        assert(block_bit(self.data@, p) == block_bit(old(self).data@, p));
                    } else {
                        assert(self.data@[p / 64] == 0u64);
                        lemma_zero_block_bit((p % 64) as u64);
                    }
                }
                assert(64 * self.data@.len() >= len0 + 1) by (nonlinear_arith)
                    requires
                        self.data@.len() == len0 / 64 + 1,
                        len0 % 64 == 0,
                        len0 >= 0,
                ;
            }
        } else {
            proof {
                lemma_pos_parts(len0);
                assert(self.data@.len() == (len0 + 63) / 64);
                assert((len0 + 63) / 64 == len0 / 64 + 1) by (nonlinear_arith)
                    requires
                        len0 >= 0,
                        len0 % 64 != 0,
                ;
                assert(64 * (len0 / 64 + 1) >= len0 + 1) by (nonlinear_arith)
                    requires
                        len0 >= 0,
                ;
            }
        }
        let ghost grown = self.data@;
        proof {
            // what holds after the optional growth, on either path
            assert(grown.len() == len0 / 64 + 1);
            assert(64 * grown.len() >= len0 + 1);
            assert(forall|p: int| len0 <= p < 64 * grown.len() ==> !block_bit(grown, p));
        }
        self.shift_left_by(1);
        let ghost shifted = self.data@;
        if value == 1 {
            let d0 = self.data[0];
            self.data.set(0, d0 | 1u64);
        }
        self.length = self.length + 1;
        proof {
            let d = self.data@;
            let nb = d.len() as int;
            let old_nb = old(self).data@.len() as int;
            // every storage bit, in terms of the state after the growth
            assert forall|p: int| 0 <= p < 64 * nb implies #[trigger] block_bit(d, p) == (if p == 0 {
                value == 1
            } else {
                block_bit(shifted, p)
            }) by {
                lemma_pos_parts(p);
                if value == 1 {
                    lemma_or_one_bit(shifted[0], (p % 64) as u64);
                    if p / 64 > 0 {
                        assert(d[p / 64] == shifted[p / 64]);
                    } else {
                        assert(d[0] == (shifted[0] | 1u64));
                    }
                }
            }
            // block count matches the new length
            assert((len0 + 1 + 63) / 64 == len0 / 64 + 1) by (nonlinear_arith)
                requires
                    len0 >= 0,
            ;
            // bits above the new length are zero
            assert forall|p: int|
                self.spec_bit_len() <= p < 64 * nb implies !block_bit(d, p) by {
                assert(p >= 1);
                assert(block_bit(shifted, p) == (p >= 1 && block_bit(grown, p - 1)));
            }
            assert(self.wf());
            // the new content is the old content with one bit appended
            assert forall|i: int| 0 <= i < len0 + 1 implies self@[i] == old(self)@.push(
                value == 1,
            )[i] by {
                let p = len0 - i;
                assert(self@[i] == block_bit(d, p));
                if i < len0 {
                    assert(block_bit(d, p) == block_bit(grown, p - 1));
                    lemma_pos_parts(p - 1);
                    lemma_pos_block_bounds(p - 1, old_nb);
                    assert(grown[(p - 1) / 64] == old(self).data@[(p - 1) / 64]);
                    assert(block_bit(grown, p - 1) == block_bit(old(self).data@, p - 1));
                    assert(old(self)@[i] == block_bit(old(self).data@, len0 - 1 - i));
                } else {
                    assert(p == 0);
                }
            }
            assert(self@ =~= old(self)@.push(value == 1));
        }
    }
}

} // verus!
