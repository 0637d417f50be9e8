//! Bit-packed completion storage: one bit per chunk with a maintained
//! population count.

use vstd::prelude::*;
use vstd::pervasive::VecAdditionalExecFns;

verus! {

/// True when bit `pos` of `byte` is set, counting positions from the most
/// significant bit: position 0 is the highest-order bit of the byte.
pub open spec fn is_bit_set(byte: u8, pos: u8) -> bool
    recommends
        pos < 8,
{
    byte & (1u8 << ((7 - pos) as u8)) != 0
}

/// Bit `i` of the logical bitstream stored in `bytes`: bit `i` lives in byte
/// `i / 8`, at position `i % 8` from the most significant bit.
pub open spec fn bit_at(bytes: Seq<u8>, i: int) -> bool
    recommends
        0 <= i,
        i / 8 < bytes.len(),
{
    is_bit_set(bytes[i / 8], (i % 8) as u8)
}

/// The number of set bits among bit positions `0 .. n` of `bytes`.
pub open spec fn count_bits(bytes: Seq<u8>, n: int) -> int
    decreases n,
{
    if n <= 0 {
        0
    } else {
        count_bits(bytes, n - 1) + if bit_at(bytes, n - 1) {
            1int
        } else {
            0int
        }
    }
}

/// The count of set bits among `n` positions lies between 0 and `n`.
pub proof fn lemma_count_bits_bounds(bytes: Seq<u8>, n: int)
    ensures
        0 <= count_bits(bytes, n),
        n >= 0 ==> count_bits(bytes, n) <= n,
    decreases n,
{
    if n > 0 {
        lemma_count_bits_bounds(bytes, n - 1);
    }
}

/// If two buffers agree on every bit position below `8 * len` except `k`,
/// where the first is clear and the second is set, then the second buffer's
/// count exceeds the first's by exactly one once `n` passes `k`.
pub proof fn lemma_count_bits_one_changed(b1: Seq<u8>, b2: Seq<u8>, k: int, n: int)
    requires
        b1.len() == b2.len(),
        0 <= k < 8 * b1.len(),
        n <= 8 * b1.len(),
        forall|j: int| 0 <= j < 8 * b1.len() && j != k ==> bit_at(b1, j) == bit_at(b2, j),
        !bit_at(b1, k),
        bit_at(b2, k),
    ensures
        count_bits(b2, n) == count_bits(b1, n) + if k < n {
            1int
        } else {
            0int
        },
    decreases n,
{
    if n > 0 {
        lemma_count_bits_one_changed(b1, b2, k, n - 1);
    }
}

/// Clear bits contribute nothing: if every position in `t .. n` is clear,
/// counting up to `n` equals counting up to `t`.
pub proof fn lemma_count_bits_clear_range(bytes: Seq<u8>, t: int, n: int)
    requires
        0 <= t <= n,
        forall|j: int| t <= j < n ==> !bit_at(bytes, j),
    ensures
        count_bits(bytes, n) == count_bits(bytes, t),
    decreases n,
{
    if n > t {
        lemma_count_bits_clear_range(bytes, t, n - 1);
    }
}

/// If every position in `0 .. n` is set, the count up to `n` is exactly `n`.
pub proof fn lemma_count_bits_all_set(bytes: Seq<u8>, n: int)
    requires
        0 <= n,
        forall|j: int| 0 <= j < n ==> bit_at(bytes, j),
    ensures
        count_bits(bytes, n) == n,
    decreases n,
{
    if n > 0 {
        lemma_count_bits_all_set(bytes, n - 1);
    }
}

/// Setting bit `p` of a byte by or-ing its mask sets exactly that bit and
/// leaves every other position unchanged.
proof fn lemma_set_bit_effect(b: u8, p: u8, q: u8)
    requires
        p < 8,
        q < 8,
    ensures
        is_bit_set(b | (1u8 << ((7 - p) as u8)), p),
        p != q ==> is_bit_set(b | (1u8 << ((7 - p) as u8)), q) == is_bit_set(b, q),
{
    assert((b | (1u8 << ((7 - p) as u8))) & (1u8 << ((7 - p) as u8)) != 0) by (bit_vector)
        requires
            p < 8,
    ;
    assert(p != q ==> ((b | (1u8 << ((7 - p) as u8))) & (1u8 << ((7 - q) as u8))) == (b & (1u8 << ((
    7 - q) as u8)))) by (bit_vector)
        requires
            p < 8 && q < 8,
    ;
}

/// A zero byte has no bit set.
proof fn lemma_zero_byte_clear(p: u8)
    requires
        p < 8,
    ensures
        !is_bit_set(0u8, p),
{
    assert(0u8 & (1u8 << ((7 - p) as u8)) == 0) by (bit_vector)
        requires
            p < 8,
    ;
}

/// Two bytes that agree on all eight bit positions are equal.
proof fn lemma_byte_eq_from_bits(a: u8, b: u8)
    requires
        forall|p: u8| p < 8 ==> is_bit_set(a, p) == is_bit_set(b, p),
    ensures
        a == b,
{
    assert(is_bit_set(a, 0) == is_bit_set(b, 0));
    assert(is_bit_set(a, 1) == is_bit_set(b, 1));
    assert(is_bit_set(a, 2) == is_bit_set(b, 2));
    assert(is_bit_set(a, 3) == is_bit_set(b, 3));
    assert(is_bit_set(a, 4) == is_bit_set(b, 4));
    assert(is_bit_set(a, 5) == is_bit_set(b, 5));
    assert(is_bit_set(a, 6) == is_bit_set(b, 6));
    assert(is_bit_set(a, 7) == is_bit_set(b, 7));
    assert(a == b) by (bit_vector)
        requires
            is_bit_set(a, 0) == is_bit_set(b, 0),
            is_bit_set(a, 1) == is_bit_set(b, 1),
            is_bit_set(a, 2) == is_bit_set(b, 2),
            is_bit_set(a, 3) == is_bit_set(b, 3),
            is_bit_set(a, 4) == is_bit_set(b, 4),
            is_bit_set(a, 5) == is_bit_set(b, 5),
            is_bit_set(a, 6) == is_bit_set(b, 6),
            is_bit_set(a, 7) == is_bit_set(b, 7),
    ;
}

/// Two buffers of equal length that agree on every bit position are equal.
pub proof fn lemma_buffer_eq_from_bits(b1: Seq<u8>, b2: Seq<u8>)
    requires
        b1.len() == b2.len(),
        forall|j: int| 0 <= j < 8 * b1.len() ==> bit_at(b1, j) == bit_at(b2, j),
    ensures
        b1 == b2,
{
    assert forall|k: int| 0 <= k < b1.len() implies b1[k] == b2[k] by {
        assert forall|p: u8| p < 8 implies is_bit_set(b1[k], p) == is_bit_set(b2[k], p) by {
            let j = 8 * k + p as int;
            vstd::arithmetic::div_mod::lemma_fundamental_div_mod_converse(j, 8, k, p as int);
            assert(bit_at(b1, j) == bit_at(b2, j));
        }
        lemma_byte_eq_from_bits(b1[k], b2[k]);
    }
    assert(b1 =~= b2);
}

/// Bit-packed chunk-completion storage. Bit `i` of the logical bitstream is
/// stored most-significant-bit-first in byte `i / 8`; `num_available` always
/// equals the number of set bits.
pub struct BitfieldCompletion {
    /// Raw bits of completion (1 if the chunk at that index is available).
    bytes: Vec<u8>,
    /// Number of chunks available.
    num_available: usize,
}

impl BitfieldCompletion {
    /// The byte buffer holding the packed bits.
    pub closed spec fn buffer(&self) -> Seq<u8> {
        self.bytes@
    }

    /// The maintained count of set bits.
    pub closed spec fn count(&self) -> int {
        self.num_available as int
    }

    /// The store is well formed when the maintained count equals the number
    /// of set bits and every bit position fits in a `usize`.
    pub open spec fn wf(&self) -> bool {
        &&& self.count() == count_bits(self.buffer(), 8 * self.buffer().len() as int)
        &&& 8 * self.buffer().len() as int <= usize::MAX
    }

    /// A store of `length` zero bytes with a zero count.
    pub fn new(length: usize) -> (r: BitfieldCompletion)
        requires
            8 * length <= usize::MAX,
        ensures
            r.wf(),
            r.buffer().len() == length as int,
            forall|j: int| 0 <= j < 8 * (length as int) ==> !bit_at(r.buffer(), j),
            r.count() == 0,
    {
        let mut bytes: Vec<u8> = Vec::new();
        let mut i: usize = 0;
        while i < length
            invariant
                i <= length,
                bytes@.len() == i as int,
                forall|j: int| 0 <= j < i as int ==> bytes@[j] == 0u8,
            decreases length - i,
        {
            bytes.push(0u8);
            i = i + 1;
        }
        proof {
            assert forall|j: int| 0 <= j < 8 * (length as int) implies !bit_at(bytes@, j) by {
                assert(bytes@[j / 8] == 0u8);
                lemma_zero_byte_clear((j % 8) as u8);
            }
            lemma_count_bits_clear_range(bytes@, 0, 8 * bytes@.len() as int);
        }
        BitfieldCompletion { bytes, num_available: 0 }
    }

    /// Whether bit `index` is set in the given buffer. A pure read usable on
    /// the live buffer or on a freshly decoded one.
    pub fn is_available(index: usize, bytes: &Vec<u8>) -> (r: bool)
        requires
            index / 8 < bytes@.len(),
        ensures
            r == bit_at(bytes@, index as int),
    {
        let byte_index: usize = index / 8;
        let bit_index: usize = index % 8;
        let shift: u8 = (7 - bit_index) as u8;
        let mask: u8 = 1u8 << shift;
        bytes[byte_index] & mask != 0
    }

    /// Set the bit at `index`; the count grows by one exactly when the bit
    /// was clear, so marking is idempotent.
    pub fn mark(&mut self, index: usize)
        requires
            old(self).wf(),
            (index as int) < 8 * old(self).buffer().len(),
        ensures
            final(self).wf(),
            final(self).buffer().len() == old(self).buffer().len(),
            forall|j: int|
                0 <= j < 8 * old(self).buffer().len() ==> bit_at(final(self).buffer(), j) == (
                bit_at(old(self).buffer(), j) || j == index as int),
            final(self).count() == old(self).count() + if bit_at(
                old(self).buffer(),
                index as int,
            ) {
                0int
            } else {
                1int
            },
    {
        let byte_index: usize = index / 8;
        let bit_index: usize = index % 8;
        let shift: u8 = (7 - bit_index) as u8;
        let mask: u8 = 1u8 << shift;
        assert(byte_index < self.bytes.len());
        let b: u8 = self.bytes[byte_index];
        if b & mask == 0 {
            self.bytes.set(byte_index, b | mask);
            proof {
                let k = index as int;
                let old_buf = old(self).buffer();
                let new_buf = self.buffer();
                let len = old_buf.len() as int;
                assert forall|j: int| 0 <= j < 8 * len && j != k implies bit_at(new_buf, j)
                    == bit_at(old_buf, j) by {
                    if j / 8 == k / 8 {
                        assert(j % 8 != k % 8);
                        lemma_set_bit_effect(b, (k % 8) as u8, (j % 8) as u8);
                    }
                }
                lemma_set_bit_effect(b, (k % 8) as u8, (k % 8) as u8);
                assert(bit_at(new_buf, k));
                lemma_count_bits_one_changed(old_buf, new_buf, k, 8 * len);
                lemma_count_bits_bounds(new_buf, 8 * len);
            }
            self.num_available = self.num_available + 1;
        }
    }

    /// An immutable copy of the byte buffer, suitable for framing into a
    /// wire message.
    pub fn bytes(&self) -> (r: Vec<u8>)
        ensures
            r@ == self.buffer(),
    {
        let mut out: Vec<u8> = Vec::new();
        let mut i: usize = 0;
        while i < self.bytes.len()
            invariant
                i <= self.bytes@.len(),
                out@.len() == i as int,
                forall|j: int| 0 <= j < i as int ==> out@[j] == self.bytes@[j],
            decreases self.bytes@.len() - i,
        {
            out.push(self.bytes[i]);
            i = i + 1;
        }
        proof {
            assert(out@ =~= self.buffer());
        }
        out
    }

    /// A borrow of the byte buffer, for bit queries on the live store.
    pub fn buffer_ref(&self) -> (r: &Vec<u8>)
        ensures
            r@ == self.buffer(),
    {
        &self.bytes
    }

    /// A copy of this store: same buffer, same count.
    pub fn duplicate(&self) -> (r: BitfieldCompletion)
        ensures
            r.buffer() == self.buffer(),
            r.count() == self.count(),
    {
        BitfieldCompletion { bytes: self.bytes(), num_available: self.num_available }
    }

    /// The maintained count of available chunks.
    pub fn num_available(&self) -> (r: usize)
        ensures
            r as int == self.count(),
    {
        self.num_available
    }
}

} // verus!
