//! Hash-addressed completion bitmap over a manifest's chunk ordering, with
//! the RLP wire codec used to exchange completion state between peers.

use vstd::prelude::*;
use crate::completion::BitfieldCompletion;
use crate::completion::bit_at;
use crate::completion::count_bits;
use crate::completion::lemma_buffer_eq_from_bits;
use crate::completion::lemma_count_bits_all_set;
use crate::completion::lemma_count_bits_clear_range;
use crate::wire::rlp_decode_payload;
use crate::wire::rlp_decoded;
use crate::wire::rlp_encode_payload;
use crate::wire::rlp_encoded;

verus! {

/// A content-addressed chunk identifier: a fixed-size 32-byte hash.
#[derive(Debug)]
pub struct ChunkHash {
    bytes: Vec<u8>,
}

impl View for ChunkHash {
    type V = Seq<u8>;

    closed spec fn view(&self) -> Seq<u8> {
        self.bytes@
    }
}

impl PartialEq for ChunkHash {
    fn eq(&self, other: &ChunkHash) -> (r: bool) {
        if self.bytes.len() != other.bytes.len() {
            return false;
        }
        let mut i: usize = 0;
        while i < self.bytes.len()
            invariant
                i <= self.bytes@.len(),
                self.bytes@.len() == other.bytes@.len(),
                forall|j: int| 0 <= j < i as int ==> self.bytes@[j] == other.bytes@[j],
            decreases self.bytes@.len() - i,
        {
            if self.bytes[i] != other.bytes[i] {
                return false;
            }
            i = i + 1;
        }
        proof {
            assert(self@ =~= other@);
        }
        true
    }
}

impl vstd::std_specs::cmp::PartialEqSpecImpl for ChunkHash {
    open spec fn obeys_eq_spec() -> bool {
        true
    }

    open spec fn eq_spec(&self, other: &ChunkHash) -> bool {
        self@ == other@
    }
}

/// Copy a byte buffer element by element.
fn copy_bytes(src: &Vec<u8>) -> (r: Vec<u8>)
    ensures
        r@ == src@,
{
    let mut out: Vec<u8> = Vec::new();
    let mut i: usize = 0;
    while i < src.len()
        invariant
            i <= src@.len(),
            out@.len() == i as int,
            forall|j: int| 0 <= j < i as int ==> out@[j] == src@[j],
        decreases src@.len() - i,
    {
        out.push(src[i]);
        i = i + 1;
    }
    proof {
        assert(out@ =~= src@);
    }
    out
}

impl ChunkHash {
    /// A hash from its 32 bytes.
    pub fn new(bytes: Vec<u8>) -> (r: ChunkHash)
        requires
            bytes@.len() == 32,
        ensures
            r@ == bytes@,
    {
        ChunkHash { bytes }
    }

    /// A copy of this hash.
    pub fn duplicate(&self) -> (r: ChunkHash)
        ensures
            r@ == self@,
    {
        ChunkHash { bytes: copy_bytes(&self.bytes) }
    }
}

/// A snapshot manifest's chunk ordering: the block chunk hashes followed by
/// the state chunk hashes. Their concatenation fixes the index of every
/// chunk, so two peers holding the same manifest agree on the bit layout.
pub struct Manifest {
    pub block_hashes: Vec<ChunkHash>,
    pub state_hashes: Vec<ChunkHash>,
}

/// The views of a sequence of hashes, in order.
pub open spec fn hash_views(hs: Seq<ChunkHash>) -> Seq<Seq<u8>> {
    hs.map_values(|h: ChunkHash| h@)
}

/// The manifest's chunk hashes in index order: block hashes, then state
/// hashes.
pub open spec fn manifest_hashes(m: &Manifest) -> Seq<Seq<u8>> {
    hash_views(m.block_hashes@) + hash_views(m.state_hashes@)
}

/// No two of the hashes are equal.
pub open spec fn distinct_hashes(hs: Seq<Seq<u8>>) -> bool {
    forall|i: int, j: int| 0 <= i < j < hs.len() ==> hs[i] != hs[j]
}

/// The number of buffer bytes needed to hold one bit for each of `n` chunks.
pub open spec fn byte_len_of(n: int) -> int {
    n / 8 + if n % 8 == 0 {
        0int
    } else {
        1int
    }
}

/// The hashes among `hs` whose bit (at the hash's index) in `bytes` equals
/// `want`, in index order.
pub open spec fn selected(hs: Seq<Seq<u8>>, bytes: Seq<u8>, want: bool) -> Seq<Seq<u8>>
    decreases hs.len(),
{
    if hs.len() == 0 {
        Seq::empty()
    } else {
        let prefix = selected(hs.drop_last(), bytes, want);
        if bit_at(bytes, hs.len() - 1) == want {
            prefix.push(hs.last())
        } else {
            prefix
        }
    }
}

/// The hashes among `hs` whose membership in `s` equals `inside`, in order.
pub open spec fn restricted(hs: Seq<Seq<u8>>, s: Seq<Seq<u8>>, inside: bool) -> Seq<Seq<u8>>
    decreases hs.len(),
{
    if hs.len() == 0 {
        Seq::empty()
    } else {
        let prefix = restricted(hs.drop_last(), s, inside);
        if s.contains(hs.last()) == inside {
            prefix.push(hs.last())
        } else {
            prefix
        }
    }
}

/// What decoding a completion payload against manifest `m` yields: the
/// manifest hashes whose bit is set in the payload, in index order.
pub open spec fn read_result(m: &Manifest, payload: Seq<u8>) -> Seq<Seq<u8>> {
    selected(manifest_hashes(m), payload, true)
}

/// A buffer of `byte_len_of(n)` bytes holds at least `n` and at most `n + 7`
/// bit positions.
proof fn lemma_byte_len_bound(n: int)
    requires
        0 <= n,
    ensures
        n <= 8 * byte_len_of(n),
        8 * byte_len_of(n) <= n + 7,
{
    vstd::arithmetic::div_mod::lemma_fundamental_div_mod(n, 8);
}

/// A chunk index below `n` addresses a byte below `byte_len_of(n)` and a bit
/// position below `8 * byte_len_of(n)`.
proof fn lemma_index_fits(i: int, n: int)
    requires
        0 <= i < n,
    ensures
        i < 8 * byte_len_of(n),
        0 <= i / 8 < byte_len_of(n),
{
    lemma_byte_len_bound(n);
    vstd::arithmetic::div_mod::lemma_fundamental_div_mod(i, 8);
    assert(8 * (i / 8) <= i);
}

/// Extending the scanned prefix by one hash appends that hash to the
/// selection exactly when its bit matches.
proof fn lemma_selected_extend(hs: Seq<Seq<u8>>, bytes: Seq<u8>, want: bool, i: int)
    requires
        0 <= i < hs.len(),
    ensures
        selected(hs.take(i + 1), bytes, want) == if bit_at(bytes, i) == want {
            selected(hs.take(i), bytes, want).push(hs[i])
        } else {
            selected(hs.take(i), bytes, want)
        },
{
    assert(hs.take(i + 1).drop_last() =~= hs.take(i));
    assert(hs.take(i + 1).last() == hs[i]);
}

/// The number of selected hashes equals the number of set bits among the
/// first `hs.len()` positions.
proof fn lemma_selected_len(hs: Seq<Seq<u8>>, bytes: Seq<u8>)
    ensures
        selected(hs, bytes, true).len() == count_bits(bytes, hs.len() as int),
    decreases hs.len(),
{
    if hs.len() > 0 {
        lemma_selected_len(hs.drop_last(), bytes);
    }
}

/// When each bit records membership in `s`, selecting by bit and restricting
/// by membership agree.
proof fn lemma_selected_restricted(hs: Seq<Seq<u8>>, bytes: Seq<u8>, s: Seq<Seq<u8>>, want: bool)
    requires
        forall|j: int| 0 <= j < hs.len() ==> (bit_at(bytes, j) <==> s.contains(hs[j])),
    ensures
        selected(hs, bytes, want) == restricted(hs, s, want),
    decreases hs.len(),
{
    if hs.len() > 0 {
        lemma_selected_restricted(hs.drop_last(), bytes, s, want);
        assert(bit_at(bytes, hs.len() - 1) <==> s.contains(hs[hs.len() - 1]));
    }
}

/// A hash lies in `restricted(hs, s, inside)` exactly when it lies in `hs`
/// and its membership in `s` matches `inside`: for `inside`, the
/// intersection with `s`; otherwise, the complement of `s` within `hs`.
pub proof fn lemma_restricted_membership(
    hs: Seq<Seq<u8>>,
    s: Seq<Seq<u8>>,
    inside: bool,
    h: Seq<u8>,
)
    ensures
        restricted(hs, s, inside).contains(h) <==> (hs.contains(h) && (s.contains(h) <==> inside)),
    decreases hs.len(),
{
    if hs.len() > 0 {
        lemma_restricted_membership(hs.drop_last(), s, inside, h);
        let prefix = restricted(hs.drop_last(), s, inside);
        if s.contains(hs.last()) == inside {
            assert(restricted(hs, s, inside) == prefix.push(hs.last()));
            assert(prefix.push(hs.last()).contains(h) <==> (prefix.contains(h) || hs.last() == h))
                by {
                if prefix.contains(h) {
                    let k = choose|k: int| 0 <= k < prefix.len() && prefix[k] == h;
                    assert(prefix.push(hs.last())[k] == h);
                }
                if hs.last() == h {
                    assert(prefix.push(hs.last())[prefix.len() as int] == h);
                }
            }
        }
        assert(hs.contains(h) <==> (hs.drop_last().contains(h) || hs.last() == h)) by {
            if hs.drop_last().contains(h) {
                let k = choose|k: int| 0 <= k < hs.drop_last().len() && hs.drop_last()[k] == h;
                assert(hs[k] == h);
            }
            if hs.contains(h) {
                let k = choose|k: int| 0 <= k < hs.len() && hs[k] == h;
                if k < hs.len() - 1 {
                    assert(hs.drop_last()[k] == h);
                }
            }
        }
    }
}

/// Why decoding a peer's completion message failed.
#[derive(Clone, Copy, PartialEq, Eq, Structural, Debug)]
pub enum DecodeError {
    /// The message is not a well-formed one-element RLP list of bytes.
    Malformed,
    /// The decoded payload's length does not match the manifest's chunk
    /// count.
    LengthMismatch,
}

/// A hash-addressed completion bitmap: the manifest's chunk hashes in index
/// order, paired with a completion store holding one bit per chunk.
pub struct Bitfield {
    /// The current completion of this bitfield.
    completion: BitfieldCompletion,
    /// The chunk hashes in index order; the hash at position `i` owns bit
    /// `i`.
    hashes: Vec<ChunkHash>,
}

impl Bitfield {
    /// The chunk hashes in index order.
    pub closed spec fn hash_seq(&self) -> Seq<Seq<u8>> {
        hash_views(self.hashes@)
    }

    /// The packed completion bits.
    pub closed spec fn bits(&self) -> Seq<u8> {
        self.completion.buffer()
    }

    /// The maintained count of available chunks.
    pub closed spec fn num(&self) -> int {
        self.completion.count()
    }

    /// The total number of chunks in the manifest ordering.
    pub open spec fn total(&self) -> int {
        self.hash_seq().len() as int
    }

    /// Whether the chunk at index `j` is recorded available.
    pub open spec fn marked(&self, j: int) -> bool {
        bit_at(self.bits(), j)
    }

    /// The hashes of the available chunks, in index order.
    pub open spec fn available_seq(&self) -> Seq<Seq<u8>> {
        selected(self.hash_seq(), self.bits(), true)
    }

    /// The hashes of the chunks still needed, in index order.
    pub open spec fn needed_seq(&self) -> Seq<Seq<u8>> {
        selected(self.hash_seq(), self.bits(), false)
    }

    /// Well-formedness: the buffer is sized to one bit per chunk, the count
    /// equals the number of set bits, every bit beyond the chunk count is
    /// clear, and the manifest hashes are distinct.
    pub open spec fn wf(&self) -> bool {
        &&& self.num() == count_bits(self.bits(), 8 * self.bits().len() as int)
        &&& 8 * self.bits().len() as int <= usize::MAX
        &&& self.bits().len() == byte_len_of(self.total())
        &&& distinct_hashes(self.hash_seq())
        &&& forall|j: int| self.total() <= j < 8 * self.bits().len() ==> !self.marked(j)
    }

    /// Collect the manifest's hashes in index order, together with the byte
    /// length of a completion buffer sized for them.
    pub fn read_manifest(manifest: &Manifest) -> (r: (Vec<ChunkHash>, usize))
        requires
            manifest.block_hashes@.len() + manifest.state_hashes@.len() <= usize::MAX,
        ensures
            hash_views(r.0@) == manifest_hashes(manifest),
            r.1 as int == byte_len_of(manifest_hashes(manifest).len() as int),
    {
        let mut hashes: Vec<ChunkHash> = Vec::new();
        let nb: usize = manifest.block_hashes.len();
        let ns: usize = manifest.state_hashes.len();
        let mut i: usize = 0;
        while i < nb
            invariant
                i <= nb,
                nb == manifest.block_hashes@.len(),
                hashes@.len() == i as int,
                forall|j: int| 0 <= j < i as int ==> hashes@[j]@ == manifest.block_hashes@[j]@,
            decreases nb - i,
        {
            hashes.push(manifest.block_hashes[i].duplicate());
            i = i + 1;
        }
        let mut k: usize = 0;
        while k < ns
            invariant
                k <= ns,
                nb == manifest.block_hashes@.len(),
                ns == manifest.state_hashes@.len(),
                hashes@.len() == nb as int + k as int,
                forall|j: int| 0 <= j < nb as int ==> hashes@[j]@ == manifest.block_hashes@[j]@,
                forall|j: int|
                    0 <= j < k as int ==> hashes@[nb as int + j]@ == manifest.state_hashes@[j]@,
            decreases ns - k,
        {
            hashes.push(manifest.state_hashes[k].duplicate());
            k = k + 1;
        }
        proof {
            assert(hash_views(hashes@) =~= manifest_hashes(manifest));
        }
        let total: usize = hashes.len();
        let length: usize = total / 8 + if total % 8 == 0 {
            0
        } else {
            1
        };
        (hashes, length)
    }

    /// A fresh bitfield for the manifest's chunk ordering, with every chunk
    /// recorded unavailable.
    pub fn new(manifest: &Manifest) -> (r: Bitfield)
        requires
            manifest.block_hashes@.len() + manifest.state_hashes@.len() <= usize::MAX - 7,
            distinct_hashes(manifest_hashes(manifest)),
        ensures
            r.wf(),
            r.hash_seq() == manifest_hashes(manifest),
            r.num() == 0,
            forall|j: int| 0 <= j < r.total() ==> !r.marked(j),
    {
        let (hashes, length) = Bitfield::read_manifest(manifest);
        proof {
            lemma_byte_len_bound(manifest_hashes(manifest).len() as int);
        }
        let completion = BitfieldCompletion::new(length);
        Bitfield { completion, hashes }
    }

    /// Find the index assigned to a hash, if the manifest contains it.
    fn find_index(hashes: &Vec<ChunkHash>, hash: &ChunkHash) -> (r: Option<usize>)
        ensures
            match r {
                Some(i) => i < hashes@.len() && hashes@[i as int]@ == hash@,
                None => forall|j: int| 0 <= j < hashes@.len() ==> hashes@[j]@ != hash@,
            },
    {
        let mut i: usize = 0;
        while i < hashes.len()
            invariant
                i <= hashes@.len(),
                forall|j: int| 0 <= j < i as int ==> hashes@[j]@ != hash@,
            decreases hashes@.len() - i,
        {
            if hashes[i].eq(hash) {
                return Some(i);
            }
            i = i + 1;
        }
        None
    }

    /// Whether the chunk with the given hash is recorded available. A hash
    /// outside the manifest is never available.
    pub fn is_available(&self, hash: &ChunkHash) -> (r: bool)
        requires
            self.wf(),
        ensures
            r == exists|j: int|
                0 <= j < self.total() && self.hash_seq()[j] == hash@ && self.marked(j),
    {
        match Bitfield::find_index(&self.hashes, hash) {
            Some(index) => {
                proof {
                    lemma_index_fits(index as int, self.total());
                }
                let r = BitfieldCompletion::is_available(index, self.completion.buffer_ref());
                proof {
                    if r {
                        assert((index as int) < self.total() && self.hash_seq()[index as int]
                            == hash@ && self.marked(index as int));
                    } else {
                        assert forall|j: int|
                            0 <= j < self.total() && self.hash_seq()[j] == hash@ implies !self
                            .marked(j) by {
                            if j != index as int {
                                assert(self.hash_seq()[j] != self.hash_seq()[index as int]);
                            }
                        }
                    }
                }
                r
            },
            None => false,
        }
    }

    /// The hashes whose bit equals `want`, in index order.
    fn chunks_with(&self, want: bool) -> (r: Vec<ChunkHash>)
        requires
            self.wf(),
        ensures
            hash_views(r@) == selected(self.hash_seq(), self.bits(), want),
    {
        let mut out: Vec<ChunkHash> = Vec::new();
        let mut i: usize = 0;
        let n: usize = self.hashes.len();
        while i < n
            invariant
                self.wf(),
                i <= n,
                n == self.hashes@.len(),
                hash_views(out@) == selected(self.hash_seq().take(i as int), self.bits(), want),
            decreases n - i,
        {
            proof {
                lemma_index_fits(i as int, self.total());
                lemma_selected_extend(self.hash_seq(), self.bits(), want, i as int);
            }
            let ghost prev = out@;
            if BitfieldCompletion::is_available(i, self.completion.buffer_ref()) == want {
                out.push(self.hashes[i].duplicate());
                proof {
                    assert(hash_views(out@) =~= hash_views(prev).push(self.hash_seq()[i as int]));
                }
            }
            i = i + 1;
        }
        proof {
            assert(self.hash_seq().take(n as int) =~= self.hash_seq());
        }
        out
    }

    /// The hashes of all available chunks, in index order.
    pub fn available_chunks(&self) -> (r: Vec<ChunkHash>)
        requires
            self.wf(),
        ensures
            hash_views(r@) == self.available_seq(),
    {
        self.chunks_with(true)
    }

    /// The hashes of all chunks still needed, in index order.
    pub fn needed_chunks(&self) -> (r: Vec<ChunkHash>)
        requires
            self.wf(),
        ensures
            hash_views(r@) == self.needed_seq(),
    {
        self.chunks_with(false)
    }

    /// The number of available chunks, read in constant time from the
    /// maintained count.
    pub fn num_available(&self) -> (r: usize)
        ensures
            r as int == self.num(),
    {
        self.completion.num_available()
    }

    /// Mark the chunk with the given hash as available. A hash outside the
    /// manifest is ignored; marking is idempotent.
    pub fn mark_one(&mut self, hash: &ChunkHash)
        requires
            old(self).wf(),
        ensures
            final(self).wf(),
            final(self).hash_seq() == old(self).hash_seq(),
            final(self).bits().len() == old(self).bits().len(),
            forall|j: int|
                0 <= j < old(self).total() ==> final(self).marked(j) == (old(self).marked(j) || old(
                self).hash_seq()[j] == hash@),
            final(self).num() == old(self).num() + if exists|j: int|
                0 <= j < old(self).total() && old(self).hash_seq()[j] == hash@ && !old(self).marked(
                j,
            ) {
                1int
            } else {
                0int
            },
    {
        match Bitfield::find_index(&self.hashes, hash) {
            Some(index) => {
                proof {
                    lemma_index_fits(index as int, self.total());
                }
                self.completion.mark(index);
                proof {
                    let k = index as int;
                    assert forall|j: int|
                        self.total() <= j < 8 * self.bits().len() implies !self.marked(j) by {
                        assert(!old(self).marked(j));
                    }
                    assert forall|j: int|
                        0 <= j < old(self).total() implies self.marked(j) == (old(self).marked(j)
                        || old(self).hash_seq()[j] == hash@) by {
                        if j != k && old(self).hash_seq()[j] == hash@ {
                            assert(old(self).hash_seq()[j] != old(self).hash_seq()[k]);
                        }
                    }
                    if old(self).marked(k) {
                        assert forall|j: int|
                            0 <= j < old(self).total() && old(self).hash_seq()[j]
                                == hash@ implies old(self).marked(j) by {
                            if j != k {
                                assert(old(self).hash_seq()[j] != old(self).hash_seq()[k]);
                            }
                        }
                    }
                }
            },
            None => {},
        }
    }

    /// Mark every chunk whose hash appears in the given list as available.
    pub fn mark_some(&mut self, completed_hashes: &Vec<ChunkHash>)
        requires
            old(self).wf(),
        ensures
            final(self).wf(),
            final(self).hash_seq() == old(self).hash_seq(),
            final(self).bits().len() == old(self).bits().len(),
            forall|j: int|
                0 <= j < old(self).total() ==> final(self).marked(j) == (old(self).marked(j)
                    || hash_views(completed_hashes@).contains(old(self).hash_seq()[j])),
    {
        let n: usize = completed_hashes.len();
        let mut i: usize = 0;
        while i < n
            invariant
                self.wf(),
                i <= n,
                n == completed_hashes@.len(),
                self.hash_seq() == old(self).hash_seq(),
                self.bits().len() == old(self).bits().len(),
                forall|j: int|
                    0 <= j < old(self).total() ==> self.marked(j) == (old(self).marked(j)
                        || exists|k: int|
                        0 <= k < i as int && completed_hashes@[k]@ == old(self).hash_seq()[j]),
            decreases n - i,
        {
            self.mark_one(&completed_hashes[i]);
            i = i + 1;
        }
        proof {
            assert forall|j: int| 0 <= j < old(self).total() implies self.marked(j) == (old(
                self,
            ).marked(j) || hash_views(completed_hashes@).contains(old(self).hash_seq()[j])) by {
                let h = old(self).hash_seq()[j];
                if hash_views(completed_hashes@).contains(h) {
                    let k = choose|k: int|
                        0 <= k < hash_views(completed_hashes@).len() && hash_views(
                            completed_hashes@,
                        )[k] == h;
                    assert(completed_hashes@[k]@ == h);
                }
                if exists|k: int| 0 <= k < n as int && completed_hashes@[k]@ == h {
                    let k = choose|k: int| 0 <= k < n as int && completed_hashes@[k]@ == h;
                    assert(hash_views(completed_hashes@)[k] == h);
                }
            }
        }
    }

    /// Mark every chunk in the manifest as available; afterwards the count
    /// equals the total number of chunks.
    pub fn mark_all(&mut self)
        requires
            old(self).wf(),
        ensures
            final(self).wf(),
            final(self).hash_seq() == old(self).hash_seq(),
            forall|j: int| 0 <= j < old(self).total() ==> final(self).marked(j),
            final(self).num() == old(self).total(),
    {
        let n: usize = self.hashes.len();
        let mut i: usize = 0;
        while i < n
            invariant
                self.wf(),
                i <= n,
                n == self.hashes@.len(),
                self.hash_seq() == old(self).hash_seq(),
                self.bits().len() == old(self).bits().len(),
                forall|j: int| 0 <= j < i as int ==> self.marked(j),
            decreases n - i,
        {
            proof {
                lemma_index_fits(i as int, self.total());
            }
            let ghost prev = *self;
            self.completion.mark(i);
            proof {
                assert forall|j: int|
                    self.total() <= j < 8 * self.bits().len() implies !self.marked(j) by {
                    assert(!prev.marked(j));
                }
                assert forall|j: int| 0 <= j < i as int + 1 implies self.marked(j) by {
                    if j < i as int {
                        assert(prev.marked(j));
                    }
                }
                assert(self.wf());
            }
            i = i + 1;
        }
        proof {
            lemma_byte_len_bound(self.total());
            assert forall|j: int|
                self.total() <= j < 8 * self.bits().len() as int implies !bit_at(
                self.bits(),
                j,
            ) by {
                assert(!self.marked(j));
            }
            assert forall|j: int| 0 <= j < self.total() implies bit_at(self.bits(), j) by {
                assert(self.marked(j));
            }
            lemma_count_bits_clear_range(self.bits(), self.total(), 8 * self.bits().len() as int);
            lemma_count_bits_all_set(self.bits(), self.total());
        }
    }

    /// A copy of this bitfield: same chunk ordering, same completion state.
    pub fn duplicate(&self) -> (r: Bitfield)
        ensures
            r.hash_seq() == self.hash_seq(),
            r.bits() == self.bits(),
            r.num() == self.num(),
            self.wf() ==> r.wf(),
    {
        let mut hashes: Vec<ChunkHash> = Vec::new();
        let mut i: usize = 0;
        let n: usize = self.hashes.len();
        while i < n
            invariant
                i <= n,
                n == self.hashes@.len(),
                hashes@.len() == i as int,
                forall|j: int| 0 <= j < i as int ==> hashes@[j]@ == self.hashes@[j]@,
            decreases n - i,
        {
            hashes.push(self.hashes[i].duplicate());
            i = i + 1;
        }
        let r = Bitfield { completion: self.completion.duplicate(), hashes };
        proof {
            assert(r.hash_seq() =~= self.hash_seq());
            if self.wf() {
                assert forall|j: int|
                    r.total() <= j < 8 * r.bits().len() implies !r.marked(j) by {
                    assert(!self.marked(j));
                }
                assert(r.wf());
            }
        }
        r
    }

    /// Encode the completion bitmap as the wire payload: a one-element RLP
    /// list frame holding the buffer bytes. Consumes the bitfield; callers
    /// needing the state afterwards duplicate it first. The buffer must stay
    /// below the reach of the wire format's 32-bit length headers.
    pub fn into_rlp(self) -> (r: Vec<u8>)
        requires
            self.bits().len() < 0x4000_0000,
        ensures
            r@ == rlp_encoded(self.bits()),
            rlp_decoded(r@) == Some(self.bits()),
    {
        let payload = self.completion.bytes();
        rlp_encode_payload(&payload)
    }

    /// Decode a peer's completion message against the local manifest: derive
    /// the same index ordering as `new`, decode the framed payload, check
    /// its length exactly, and return the hashes whose bit is set. A
    /// malformed frame or a payload of the wrong length is rejected.
    pub fn read_rlp(manifest: &Manifest, raw: &[u8]) -> (r: Result<Vec<ChunkHash>, DecodeError>)
        requires
            manifest.block_hashes@.len() + manifest.state_hashes@.len() <= usize::MAX,
        ensures
            match r {
                Ok(v) => rlp_decoded(raw@) matches Some(p) && p.len() == byte_len_of(
                    manifest_hashes(manifest).len() as int,
                ) && hash_views(v@) == read_result(manifest, p),
                Err(DecodeError::Malformed) => rlp_decoded(raw@) is None,
                Err(DecodeError::LengthMismatch) => rlp_decoded(raw@) matches Some(p) && p.len()
                    != byte_len_of(manifest_hashes(manifest).len() as int),
            },
    {
        let raw_bytes: Vec<u8> = match rlp_decode_payload(raw) {
            Some(p) => p,
            None => {
                return Err(DecodeError::Malformed);
            },
        };
        let (hashes, length) = Bitfield::read_manifest(manifest);
        if raw_bytes.len() != length {
            return Err(DecodeError::LengthMismatch);
        }
        let ghost mhs = manifest_hashes(manifest);
        let mut out: Vec<ChunkHash> = Vec::new();
        let mut i: usize = 0;
        let n: usize = hashes.len();
        while i < n
            invariant
                i <= n,
                n == hashes@.len(),
                hash_views(hashes@) == mhs,
                mhs == manifest_hashes(manifest),
                raw_bytes@.len() == byte_len_of(mhs.len() as int),
                rlp_decoded(raw@) == Some(raw_bytes@),
                hash_views(out@) == selected(mhs.take(i as int), raw_bytes@, true),
            decreases n - i,
        {
            proof {
                lemma_index_fits(i as int, mhs.len() as int);
                lemma_selected_extend(mhs, raw_bytes@, true, i as int);
            }
            let ghost prev = out@;
            if BitfieldCompletion::is_available(i, &raw_bytes) {
                out.push(hashes[i].duplicate());
                proof {
                    assert(hash_views(out@) =~= hash_views(prev).push(mhs[i as int]));
                }
            }
            i = i + 1;
        }
        proof {
            assert(mhs.take(n as int) =~= mhs);
        }
        Ok(out)
    }
}

/// The maintained count always equals the cardinality of the available set:
/// `num_available()` is the length of `available_chunks()`, whatever
/// sequence of mark operations, with whatever repetitions, produced the
/// state.
pub proof fn lemma_num_matches_available(b: &Bitfield)
    requires
        b.wf(),
    ensures
        b.num() == b.available_seq().len(),
{
    lemma_byte_len_bound(b.total());
    assert forall|j: int|
        b.total() <= j < 8 * b.bits().len() as int implies !bit_at(b.bits(), j) by {
        assert(!b.marked(j));
    }
    lemma_count_bits_clear_range(b.bits(), b.total(), 8 * b.bits().len() as int);
    lemma_selected_len(b.hash_seq(), b.bits());
}

/// When the bits record exactly membership in `s` — the state reached by
/// `mark_some` with `s` on a fresh bitfield — the available chunks are
/// exactly the manifest hashes lying in `s` and the needed chunks are
/// exactly the rest, each in index order.
pub proof fn lemma_mark_some_selects(b: &Bitfield, s: Seq<Seq<u8>>)
    requires
        b.wf(),
        forall|j: int| 0 <= j < b.total() ==> (b.marked(j) <==> s.contains(b.hash_seq()[j])),
    ensures
        b.available_seq() == restricted(b.hash_seq(), s, true),
        b.needed_seq() == restricted(b.hash_seq(), s, false),
{
    assert forall|j: int|
        0 <= j < b.hash_seq().len() implies (bit_at(b.bits(), j) <==> s.contains(
        b.hash_seq()[j],
    )) by {
        assert(b.marked(j) <==> s.contains(b.hash_seq()[j]));
    }
    lemma_selected_restricted(b.hash_seq(), b.bits(), s, true);
    lemma_selected_restricted(b.hash_seq(), b.bits(), s, false);
}

/// A fresh bitfield (state `b0`, every bit clear) taken through `mark_some`
/// with the hash set `s` (state `b1`) has as available chunks exactly the
/// manifest hashes lying in `s`, and as needed chunks exactly the rest: the
/// intersection with `s` and its complement within the manifest.
pub proof fn lemma_fresh_then_mark_some(b0: &Bitfield, b1: &Bitfield, s: Seq<Seq<u8>>)
    requires
        b1.wf(),
        b1.hash_seq() == b0.hash_seq(),
        forall|j: int| 0 <= j < b0.total() ==> !b0.marked(j),
        forall|j: int|
            0 <= j < b0.total() ==> b1.marked(j) == (b0.marked(j) || s.contains(b0.hash_seq()[j])),
    ensures
        b1.available_seq() == restricted(b1.hash_seq(), s, true),
        b1.needed_seq() == restricted(b1.hash_seq(), s, false),
{
    assert forall|j: int| 0 <= j < b1.total() implies (b1.marked(j) <==> s.contains(
        b1.hash_seq()[j],
    )) by {
        assert(!b0.marked(j));
    }
    lemma_mark_some_selects(b1, s);
}

/// Marking is idempotent: when the hash is already available in state `b0`
/// and `b1` is the state `mark_one` leaves (its marked-bit clause), nothing
/// has changed — the byte buffer, the count, and the available and needed
/// chunk sequences are exactly those of `b0`.
pub proof fn lemma_mark_one_idempotent(b0: &Bitfield, b1: &Bitfield, h: Seq<u8>)
    requires
        b0.wf(),
        b1.wf(),
        b1.hash_seq() == b0.hash_seq(),
        b1.bits().len() == b0.bits().len(),
        exists|j: int| 0 <= j < b0.total() && b0.hash_seq()[j] == h && b0.marked(j),
        forall|j: int|
            0 <= j < b0.total() ==> b1.marked(j) == (b0.marked(j) || b0.hash_seq()[j] == h),
    ensures
        b1.bits() == b0.bits(),
        b1.num() == b0.num(),
        b1.available_seq() == b0.available_seq(),
        b1.needed_seq() == b0.needed_seq(),
{
    let j0 = choose|j: int| 0 <= j < b0.total() && b0.hash_seq()[j] == h && b0.marked(j);
    assert forall|j: int|
        0 <= j < 8 * b0.bits().len() as int implies bit_at(b1.bits(), j) == bit_at(
        b0.bits(),
        j,
    ) by {
        if j < b0.total() {
            if b0.hash_seq()[j] == h && j != j0 {
                assert(b0.hash_seq()[j] != b0.hash_seq()[j0]);
            }
            assert(b1.marked(j) == b0.marked(j));
        } else {
            assert(!b1.marked(j));
            assert(!b0.marked(j));
        }
    }
    lemma_buffer_eq_from_bits(b1.bits(), b0.bits());
}

/// Round trip: decoding a bitfield's own wire payload against the manifest
/// it was built from yields exactly its available hashes. Together with the
/// contracts of `into_rlp` and `read_rlp`, the encoding of a bitfield
/// decodes to the hash set that `available_chunks` returned at the moment of
/// encoding.
pub proof fn lemma_round_trip(m: &Manifest, b: &Bitfield)
    requires
        b.wf(),
        b.hash_seq() == manifest_hashes(m),
    ensures
        read_result(m, b.bits()) == b.available_seq(),
{
}

} // verus!
