//! The Bloom filter itself: a fixed-length bit array, a hash-function
//! count, and a lifetime counter of stored keys, with the add / check /
//! clear / fill-count operations.

use crate::bits::{bits_of, bv_all_false, bv_fill_false, bv_get, bv_set_true};
use crate::codec::{push_u64_le, read_u64_le, spec_decode, spec_encode, FORMAT_TAG, HEADER_LEN};
use crate::hash::{murmur64, slot_index, slot_of};
use vstd::arithmetic::div_mod::lemma_mod_bound;
use vstd::prelude::*;

verus! {

/// The abstract state of a filter: the bit array, the number of hash
/// functions applied per key, and the count of keys ever added.
#[verifier::ext_equal]
pub struct FilterModel {
    pub bits: Seq<bool>,
    pub n_hashes: u32,
    pub n_stored: u64,
}

/// The errors a filter operation can report: a zero-sized bit array at
/// construction, or a byte buffer that is not a valid encoding of a
/// filter state.
#[derive(Clone, Copy, Debug, PartialEq, Eq, Structural)]
pub enum BloomError {
    ZeroCapacity,
    MalformedBuffer,
}

/// A key occupies `k` slots of the bit array, one per hash seed; it
/// counts as present exactly when every one of those slots is set.
pub open spec fn key_in_filter(bits: Seq<bool>, key: Seq<char>, k: u32) -> bool {
    forall|i: u32| i < k ==> bits[(#[trigger] slot_of(key, i, bits.len())) as int]
}

/// Some key among the first `upto` of `keys` occupies slot `j` of a table
/// of `m` bits under one of the `k` hash seeds.
pub open spec fn some_key_hits(keys: Seq<String>, upto: int, k: u32, m: nat, j: int) -> bool {
    exists|ki: int, i: u32| 0 <= ki < upto && i < k && slot_of(keys[ki]@, i, m) == j
}

/// The key occupies slot `j` under one of the hash seeds below `upto_seed`.
pub open spec fn key_hits_under(key: Seq<char>, upto_seed: int, m: nat, j: int) -> bool {
    exists|i: u32| i < upto_seed && slot_of(key, i, m) == j
}

/// The number of set bits in a bit sequence.
pub open spec fn count_trues(s: Seq<bool>) -> nat
    decreases s.len(),
{
    if s.len() == 0 {
        0
    } else {
        count_trues(s.drop_last()) + (if s.last() {
            1nat
        } else {
            0nat
        })
    }
}

/// No false negatives: after `add`, every key of the added batch occupies
/// only set bits, so a `check` on it (with no `clear` in between) reports
/// it present. `pre` and `post` are the bit array around an `add` of
/// `keys`, related exactly as `add`'s contract states; `ki` picks any key
/// of the batch.
pub proof fn lemma_no_false_negatives(
    pre: Seq<bool>,
    post: Seq<bool>,
    keys: Seq<String>,
    ki: int,
    k: u32,
)
    requires
        pre.len() == post.len(),
        post.len() > 0,
        0 <= ki < keys.len(),
        forall|j: int|
            0 <= j < post.len() ==> post[j] == (pre[j] || some_key_hits(
                keys,
                keys.len() as int,
                k,
                post.len(),
                j,
            )),
    ensures
        key_in_filter(post, keys[ki]@, k),
{
    let m = post.len();
    assert forall|i: u32| i < k implies post[(#[trigger] slot_of(keys[ki]@, i, m)) as int] by {
        lemma_mod_bound(murmur64(keys[ki]@, i) as int, m as int);
        let j = slot_of(keys[ki]@, i, m) as int;
        assert(0 <= j < m);
        assert(0 <= ki < keys.len() && i < k && slot_of(keys[ki]@, i, m) == j);
        assert(some_key_hits(keys, keys.len() as int, k, m, j));
        assert(post[j] == (pre[j] || some_key_hits(keys, keys.len() as int, k, m, j)));
    }
}

/// A key that counts as present stays present across any later `add`,
/// since bits only ever turn from clear to set; with
/// `lemma_no_false_negatives` this covers every key added at least once
/// and never followed by a `clear`.
pub proof fn lemma_present_preserved(pre: Seq<bool>, post: Seq<bool>, key: Seq<char>, k: u32)
    requires
        pre.len() == post.len(),
        pre.len() > 0,
        forall|j: int| 0 <= j < pre.len() ==> (pre[j] ==> post[j]),
        key_in_filter(pre, key, k),
    ensures
        key_in_filter(post, key, k),
{
    let m = pre.len();
    assert forall|i: u32| i < k implies post[(#[trigger] slot_of(key, i, m)) as int] by {
        lemma_mod_bound(murmur64(key, i) as int, m as int);
        let j = slot_of(key, i, m) as int;
        assert(0 <= j < m);
        assert(pre[j]);
    }
}

/// Monotonic fill: across an `add`, bits only ever turn from clear to
/// set, so the count of set bits — and with it the fill ratio — never
/// decreases.
pub proof fn lemma_fill_monotonic(pre: Seq<bool>, post: Seq<bool>)
    requires
        pre.len() == post.len(),
        forall|j: int| 0 <= j < pre.len() ==> (pre[j] ==> post[j]),
    ensures
        count_trues(pre) <= count_trues(post),
    decreases pre.len(),
{
    if pre.len() > 0 {
        assert forall|j: int|
            0 <= j < pre.drop_last().len() && pre.drop_last()[j] implies post.drop_last()[j] by {
            assert(pre.drop_last()[j] == pre[j]);
            assert(post.drop_last()[j] == post[j]);
        }
        lemma_fill_monotonic(pre.drop_last(), post.drop_last());
        assert(pre.last() ==> post.last());
    }
}

/// A fully cleared bit array has a set-bit count of zero, so right after
/// `clear` the fill ratio is exactly zero.
pub proof fn lemma_count_all_clear(s: Seq<bool>)
    requires
        forall|j: int| 0 <= j < s.len() ==> !s[j],
    ensures
        count_trues(s) == 0,
    decreases s.len(),
{
    if s.len() > 0 {
        assert forall|j: int| 0 <= j < s.drop_last().len() implies !s.drop_last()[j] by {
            assert(s.drop_last()[j] == s[j]);
        }
        lemma_count_all_clear(s.drop_last());
    }
}

/// Adding an empty batch leaves the bit array exactly as it was: no key
/// hits any slot (and `add`'s contract already gives `n_stored` a growth
/// of zero).
pub proof fn lemma_add_empty(pre: Seq<bool>, post: Seq<bool>, keys: Seq<String>, k: u32)
    requires
        keys.len() == 0,
        pre.len() == post.len(),
        forall|j: int|
            0 <= j < post.len() ==> post[j] == (pre[j] || some_key_hits(
                keys,
                keys.len() as int,
                k,
                post.len(),
                j,
            )),
    ensures
        post == pre,
{
    assert forall|j: int| 0 <= j < post.len() implies post[j] == pre[j] by {
        assert(!some_key_hits(keys, keys.len() as int, k, post.len(), j));
        assert(post[j] == (pre[j] || some_key_hits(keys, keys.len() as int, k, post.len(), j)));
    }
    assert(post =~= pre);
}

/// Deterministic queries: any two result sequences that satisfy `check`'s
/// contract against the same filter state and the same keys are equal, so
/// two `check` calls in a row answer identically.
pub proof fn lemma_check_deterministic(
    bits: Seq<bool>,
    k: u32,
    keys: Seq<String>,
    r1: Seq<bool>,
    r2: Seq<bool>,
)
    requires
        r1.len() == keys.len(),
        r2.len() == keys.len(),
        forall|q: int| 0 <= q < keys.len() ==> r1[q] == key_in_filter(bits, keys[q]@, k),
        forall|q: int| 0 <= q < keys.len() ==> r2[q] == key_in_filter(bits, keys[q]@, k),
    ensures
        r1 == r2,
{
    assert(r1 =~= r2);
}

pub struct BloomFilter {
    bits: bit_vec::BitVec<u32>,
    n_hashes: u32,
    n_bits: usize,
    n_stored: u64,
}

impl View for BloomFilter {
    type V = FilterModel;

    closed spec fn view(&self) -> FilterModel {
        FilterModel {
            bits: bits_of(self.bits),
            n_hashes: self.n_hashes,
            n_stored: self.n_stored,
        }
    }
}

impl BloomFilter {
    /// The bit array always has the recorded positive length.
    pub closed spec fn inv(&self) -> bool {
        &&& bits_of(self.bits).len() == self.n_bits
        &&& self.n_bits > 0
    }

    /// A well-formed filter has a positive bit count that fits the
    /// machine's addressing, which is what `lemma_decode_encode` asks of a
    /// state before the persistence round trip.
    pub proof fn lemma_inv_bits_len(&self)
        requires
            self.inv(),
        ensures
            0 < self@.bits.len() <= usize::MAX,
    {
    }

    /// Builds a filter of `filter_size` bits, all clear, probing `n_hashes`
    /// slots per key, with nothing stored yet. A zero-sized bit array would
    /// make every index computation degenerate, so it is rejected here.
    pub fn new(filter_size: usize, n_hashes: u32) -> (r: Result<BloomFilter, BloomError>)
        ensures
            r is Ok <==> filter_size > 0,
            r is Ok ==> r->Ok_0.inv(),
            r is Ok ==> r->Ok_0@.bits.len() == filter_size,
            r is Ok ==> forall|j: int| 0 <= j < filter_size ==> !r->Ok_0@.bits[j],
            r is Ok ==> r->Ok_0@.n_hashes == n_hashes,
            r is Ok ==> r->Ok_0@.n_stored == 0,
            r is Err ==> r->Err_0 == BloomError::ZeroCapacity,
    {
        if filter_size == 0 {
            Err(BloomError::ZeroCapacity)
        } else {
            Ok(BloomFilter {
                bits: bv_all_false(filter_size),
                n_hashes,
                n_bits: filter_size,
                n_stored: 0,
            })
        }
    }

    /// How many bit positions the filter addresses.
    pub fn n_bits(&self) -> (r: usize)
        requires
            self.inv(),
        ensures
            r == self@.bits.len(),
    {
        self.n_bits
    }

    /// How many hash functions are applied per key.
    pub fn n_hashes(&self) -> (r: u32)
        ensures
            r == self@.n_hashes,
    {
        self.n_hashes
    }

    /// How many keys have ever been passed to `add`, duplicates counted,
    /// never reset.
    pub fn n_stored(&self) -> (r: u64)
        ensures
            r == self@.n_stored,
    {
        self.n_stored
    }

    /// Inserts every key: for each key and each hash seed `i` in `[0, k)`
    /// the addressed slot is set, and `n_stored` grows by the number of
    /// keys handed in, duplicates counted. A bit ends set exactly when it
    /// was set before or some key of this batch addresses it: bits only
    /// ever turn from clear to set.
    #[verifier::loop_isolation(false)]
    pub fn add(&mut self, keys: &Vec<String>)
        requires
            old(self).inv(),
            old(self)@.n_stored + keys@.len() <= u64::MAX,
        ensures
            final(self).inv(),
            final(self)@.bits.len() == old(self)@.bits.len(),
            final(self)@.n_hashes == old(self)@.n_hashes,
            final(self)@.n_stored == old(self)@.n_stored + keys@.len(),
            forall|j: int|
                0 <= j < old(self)@.bits.len() ==> final(self)@.bits[j] == (old(self)@.bits[j]
                    || some_key_hits(
                    keys@,
                    keys@.len() as int,
                    old(self)@.n_hashes,
                    old(self)@.bits.len(),
                    j,
                )),
    {
        let ghost m = self@.bits.len();
        let ghost bits0 = self@.bits;
        let ghost k = self.n_hashes;
        self.n_stored = self.n_stored + keys.len() as u64;
        let mut ki: usize = 0;
        while ki < keys.len()
            invariant
                self.inv(),
                ki <= keys@.len(),
                self@.n_hashes == k,
                self@.bits.len() == m,
                self@.n_stored == old(self)@.n_stored + keys@.len(),
                forall|j: int|
                    0 <= j < m ==> self@.bits[j] == (bits0[j] || some_key_hits(
                        keys@,
                        ki as int,
                        k,
                        m,
                        j,
                    )),
            decreases keys@.len() - ki,
        {
            let key = &keys[ki];
            let mut i: u32 = 0;
            while i < self.n_hashes
                invariant
                    self.inv(),
                    ki < keys@.len(),
                    i <= k,
                    self@.n_hashes == k,
                    self@.bits.len() == m,
                    self@.n_stored == old(self)@.n_stored + keys@.len(),
                    key@ == keys@[ki as int]@,
                    forall|j: int|
                        0 <= j < m ==> self@.bits[j] == (bits0[j] || some_key_hits(
                            keys@,
                            ki as int,
                            k,
                            m,
                            j,
                        ) || key_hits_under(keys@[ki as int]@, i as int, m, j)),
                decreases k - i,
            {
                let ghost prev = self@.bits;
                let idx = slot_index(key.as_str(), i, self.n_bits);
                bv_set_true(&mut self.bits, idx);
                proof {
                    let kq = keys@[ki as int]@;
                    assert forall|j: int| 0 <= j < m implies self@.bits[j] == (bits0[j]
                        || some_key_hits(keys@, ki as int, k, m, j) || key_hits_under(
                        kq,
                        i + 1,
                        m,
                        j,
                    )) by {
                        assert(prev[j] == (bits0[j] || some_key_hits(keys@, ki as int, k, m, j)
                            || key_hits_under(kq, i as int, m, j)));
                        if j == idx {
                            assert(i < i + 1 && slot_of(kq, i, m) == j);
                            assert(key_hits_under(kq, i + 1, m, j));
                            assert(self@.bits[j]);
                        } else {
                            assert(self@.bits[j] == prev[j]);
                            if key_hits_under(kq, i + 1, m, j) {
                                let wi = choose|wi: u32| wi < i + 1 && slot_of(kq, wi, m) == j;
                                if wi == i {
                                    assert(false);
                                } else {
                                    assert(wi < i && slot_of(kq, wi, m) == j);
                                    assert(key_hits_under(kq, i as int, m, j));
                                }
                            }
                            if key_hits_under(kq, i as int, m, j) {
                                let wi = choose|wi: u32| wi < i && slot_of(kq, wi, m) == j;
                                assert(wi < i + 1 && slot_of(kq, wi, m) == j);
                                assert(key_hits_under(kq, i + 1, m, j));
                            }
                        }
                    }
                }
                i = i + 1;
            }
            let ghost ki_prev = ki as int;
            ki = ki + 1;
            proof {
                let kq = keys@[ki_prev]@;
                assert forall|j: int| 0 <= j < m implies self@.bits[j] == (bits0[j]
                    || some_key_hits(keys@, ki as int, k, m, j)) by {
                    assert(i == k);
                    assert(ki as int == ki_prev + 1);
                    assert(self@.bits[j] == (bits0[j] || some_key_hits(keys@, ki_prev, k, m, j)
                        || key_hits_under(kq, i as int, m, j)));
                    if some_key_hits(keys@, ki as int, k, m, j) {
                        let (wki, wi) = choose|wki: int, wi: u32|
                            0 <= wki < ki as int && wi < k && slot_of(keys@[wki]@, wi, m) == j;
                        if wki == ki_prev {
                            assert(wi < i && slot_of(kq, wi, m) == j);
                            assert(key_hits_under(kq, i as int, m, j));
                        } else {
                            assert(0 <= wki < ki_prev && wi < k && slot_of(keys@[wki]@, wi, m)
                                == j);
                            assert(some_key_hits(keys@, ki_prev, k, m, j));
                        }
                    }
                    if some_key_hits(keys@, ki_prev, k, m, j) {
                        let (wki, wi) = choose|wki: int, wi: u32|
                            0 <= wki < ki_prev && wi < k && slot_of(keys@[wki]@, wi, m) == j;
                        assert(0 <= wki < ki as int && wi < k && slot_of(keys@[wki]@, wi, m) == j);
                        assert(some_key_hits(keys@, ki as int, k, m, j));
                    }
                    if key_hits_under(kq, i as int, m, j) {
                        let wi = choose|wi: u32| wi < i && slot_of(kq, wi, m) == j;
                        assert(0 <= ki_prev < ki as int && wi < k && slot_of(keys@[ki_prev]@, wi, m)
                            == j);
                        assert(some_key_hits(keys@, ki as int, k, m, j));
                    }
                }
            }
        }
        proof {
            assert forall|j: int| 0 <= j < old(self)@.bits.len() implies self@.bits[j] == (old(
                self,
            )@.bits[j] || some_key_hits(
                keys@,
                keys@.len() as int,
                old(self)@.n_hashes,
                old(self)@.bits.len(),
                j,
            )) by {
                assert(self@.bits[j] == (bits0[j] || some_key_hits(keys@, ki as int, k, m, j)));
                assert(ki as int == keys@.len() as int);
                assert(k == old(self)@.n_hashes && m == old(self)@.bits.len() && bits0 == old(
                    self,
                )@.bits);
            }
        }
    }

    /// Queries every key: the result holds one boolean per key, in input
    /// order, and it is `true` exactly when all `k` slots of that key are
    /// set. A `false` is a certain negative; a `true` only means "possibly
    /// present". The result is a function of the filter state and the keys
    /// alone, so identical calls answer identically. No state changes.
    #[verifier::loop_isolation(false)]
    pub fn check(&self, keys: &Vec<String>) -> (r: Vec<bool>)
        requires
            self.inv(),
        ensures
            r@.len() == keys@.len(),
            forall|q: int|
                0 <= q < keys@.len() ==> r@[q] == key_in_filter(
                    self@.bits,
                    keys@[q]@,
                    self@.n_hashes,
                ),
    {
        let ghost m = self@.bits.len();
        let ghost k = self.n_hashes;
        let mut out: Vec<bool> = Vec::new();
        let mut q: usize = 0;
        while q < keys.len()
            invariant
                q <= keys@.len(),
                out@.len() == q,
                forall|t: int|
                    0 <= t < q ==> out@[t] == key_in_filter(self@.bits, keys@[t]@, k),
            decreases keys@.len() - q,
        {
            let key = &keys[q];
            let mut present = true;
            let mut i: u32 = 0;
            while present && i < self.n_hashes
                invariant
                    i <= k,
                    present ==> forall|i2: u32|
                        i2 < i ==> self@.bits[(#[trigger] slot_of(keys@[q as int]@, i2, m)) as int],
                    !present ==> !key_in_filter(self@.bits, keys@[q as int]@, k),
                decreases k - i + (if present { 1int } else { 0int }),
            {
                let idx = slot_index(key.as_str(), i, self.n_bits);
                if !bv_get(&self.bits, idx) {
                    present = false;
                    proof {
                        assert(i < k && !self@.bits[slot_of(keys@[q as int]@, i, m) as int]);
                        assert(!key_in_filter(self@.bits, keys@[q as int]@, k));
                    }
                } else {
                    i = i + 1;
                }
            }
            proof {
                if present {
                    assert(i == k);
                    assert(key_in_filter(self@.bits, keys@[q as int]@, k));
                }
            }
            out.push(present);
            q = q + 1;
        }
        out
    }

    /// Resets every bit to clear; the hash count, the bit count and the
    /// stored-key count keep their values.
    pub fn clear(&mut self)
        requires
            old(self).inv(),
        ensures
            final(self).inv(),
            final(self)@.bits.len() == old(self)@.bits.len(),
            forall|j: int| 0 <= j < old(self)@.bits.len() ==> !final(self)@.bits[j],
            final(self)@.n_hashes == old(self)@.n_hashes,
            final(self)@.n_stored == old(self)@.n_stored,
    {
        bv_fill_false(&mut self.bits);
    }

    /// Serializes the full state — tag, bit count, hash count, stored-key
    /// count and every bit — into one self-describing byte buffer, the
    /// exact encoding that `spec_encode` lays out.
    #[verifier::loop_isolation(false)]
    pub fn to_bytes(&self) -> (out: Vec<u8>)
        requires
            self.inv(),
        ensures
            out@ == spec_encode(self@),
    {
        let mut out: Vec<u8> = Vec::new();
        out.push(FORMAT_TAG);
        push_u64_le(&mut out, self.n_bits as u64);
        push_u64_le(&mut out, self.n_hashes as u64);
        push_u64_le(&mut out, self.n_stored);
        let ghost header = out@;
        let mut i: usize = 0;
        while i < self.n_bits
            invariant
                i <= self.n_bits,
                out@ == header + Seq::new(
                    i as nat,
                    |b: int|
                        if self@.bits[b] {
                            1u8
                        } else {
                            0u8
                        },
                ),
            decreases self.n_bits - i,
        {
            if bv_get(&self.bits, i) {
                out.push(1u8);
            } else {
                out.push(0u8);
            }
            i = i + 1;
            proof {
                assert(out@ =~= header + Seq::new(
                    i as nat,
                    |b: int|
                        if self@.bits[b] {
                            1u8
                        } else {
                            0u8
                        },
                ));
            }
        }
        proof {
            assert(out@ =~= spec_encode(self@));
        }
        out
    }

    /// Rebuilds a filter from a byte buffer written by `to_bytes`,
    /// restoring every bit and all three counters exactly; any buffer
    /// that is not a valid encoding is rejected whole, with no partial
    /// filter returned.
    #[verifier::loop_isolation(false)]
    pub fn from_bytes(bytes: &[u8]) -> (r: Result<BloomFilter, BloomError>)
        ensures
            r is Ok <==> spec_decode(bytes@) is Some,
            r is Ok ==> r->Ok_0.inv() && spec_decode(bytes@) == Some(r->Ok_0@),
            r is Err ==> r->Err_0 == BloomError::MalformedBuffer,
    {
        if bytes.len() < HEADER_LEN {
            return Err(BloomError::MalformedBuffer);
        }
        if bytes[0] != FORMAT_TAG {
            return Err(BloomError::MalformedBuffer);
        }
        let nbits_wide = read_u64_le(bytes, 1);
        let k_wide = read_u64_le(bytes, 9);
        let stored = read_u64_le(bytes, 17);
        if nbits_wide == 0 || nbits_wide > usize::MAX as u64 || k_wide > u32::MAX as u64 {
            return Err(BloomError::MalformedBuffer);
        }
        let nbits = nbits_wide as usize;
        if bytes.len() - HEADER_LEN != nbits {
            return Err(BloomError::MalformedBuffer);
        }
        let mut bv = bv_all_false(nbits);
        let mut i: usize = 0;
        while i < nbits
            invariant
                i <= nbits,
                bits_of(bv).len() == nbits,
                forall|b: int|
                    0 <= b < i ==> ((#[trigger] bytes@[HEADER_LEN + b]) == 0 || bytes@[HEADER_LEN
                        + b] == 1),
                forall|b: int| 0 <= b < i ==> bits_of(bv)[b] == (bytes@[HEADER_LEN + b] == 1),
                forall|b: int| i <= b < nbits ==> !bits_of(bv)[b],
            decreases nbits - i,
        {
            let byte = bytes[HEADER_LEN + i];
            if byte == 1 {
                bv_set_true(&mut bv, i);
            } else if byte != 0 {
                proof {
                    assert(HEADER_LEN + i < bytes@.len() && bytes@[HEADER_LEN + i as int] != 0
                        && bytes@[HEADER_LEN + i as int] != 1);
                }
                return Err(BloomError::MalformedBuffer);
            }
            i = i + 1;
        }
        let f = BloomFilter { bits: bv, n_hashes: k_wide as u32, n_bits: nbits, n_stored: stored };
        proof {
            assert(!(exists|b: int|
                HEADER_LEN <= b < bytes@.len() && bytes@[b] != 0 && bytes@[b] != 1)) by {
                assert forall|b: int|
                    HEADER_LEN <= b < bytes@.len() implies (bytes@[b] == 0 || bytes@[b]
                    == 1) by {
                    assert(bytes@[HEADER_LEN + (b - HEADER_LEN)] == 0 || bytes@[HEADER_LEN + (b
                        - HEADER_LEN)] == 1);
                }
            }
            assert(spec_decode(bytes@) is Some);
            let dm = spec_decode(bytes@)->Some_0;
            assert forall|b: int| 0 <= b < nbits implies dm.bits[b] == f@.bits[b] by {
                assert(bits_of(bv)[b] == (bytes@[HEADER_LEN + b] == 1));
            }
            assert(dm.bits =~= f@.bits);
            assert(dm =~= f@);
        }
        Ok(f)
    }

    /// Counts the set bits. The fill ratio the caller divides out of this
    /// is `count_filled() / n_bits()`.
    pub fn count_filled(&self) -> (c: usize)
        requires
            self.inv(),
        ensures
            c as nat == count_trues(self@.bits),
            c <= self@.bits.len(),
    {
        let mut c: usize = 0;
        let mut i: usize = 0;
        while i < self.n_bits
            invariant
                self.inv(),
                i <= self.n_bits,
                c <= i,
                c as nat == count_trues(self@.bits.take(i as int)),
            decreases self.n_bits - i,
        {
            proof {
                assert(self@.bits.take(i + 1).drop_last() =~= self@.bits.take(i as int));
            }
            if bv_get(&self.bits, i) {
                c = c + 1;
            }
            i = i + 1;
        }
        proof {
            assert(self@.bits.take(self.n_bits as int) =~= self@.bits);
        }
        c
    }
}

} // verus!
