//! The persistence layout: a filter state is one self-describing byte
//! record — a tag byte, the three counters as 64-bit little-endian
//! integers, then one byte per bit — and decoding is its exact inverse.

use crate::filter::FilterModel;
use vstd::bytes::{
    lemma_auto_spec_u64_to_from_le_bytes, spec_u64_from_le_bytes, spec_u64_to_le_bytes,
    u64_from_le_bytes, u64_to_le_bytes,
};
use vstd::prelude::*;
use vstd::slice::slice_subrange;

verus! {

/// The byte that opens every encoded filter and names this layout.
pub const FORMAT_TAG: u8 = 1;

/// Bytes before the bit section: the tag and three 64-bit fields.
pub const HEADER_LEN: usize = 25;

/// The encoded form of a filter state: the tag byte; `n_bits`, `n_hashes`
/// and `n_stored`, each as eight little-endian bytes; then one byte per
/// bit, `1` for set and `0` for clear.
pub open spec fn spec_encode(m: FilterModel) -> Seq<u8> {
    seq![FORMAT_TAG] + spec_u64_to_le_bytes(m.bits.len() as u64) + spec_u64_to_le_bytes(
        m.n_hashes as u64,
    ) + spec_u64_to_le_bytes(m.n_stored) + Seq::new(
        m.bits.len(),
        |b: int|
            if m.bits[b] {
                1u8
            } else {
                0u8
            },
    )
}

/// The filter state a byte buffer describes, or nothing when the buffer
/// is not a valid encoding: too short, a foreign tag, a zero or oversized
/// bit count, an oversized hash count, a length that does not match the
/// announced bit count, or a bit byte other than `0` and `1`.
pub open spec fn spec_decode(s: Seq<u8>) -> Option<FilterModel> {
    if s.len() < HEADER_LEN {
        None
    } else if s[0] != FORMAT_TAG {
        None
    } else {
        let nbits = spec_u64_from_le_bytes(s.subrange(1, 9));
        let k = spec_u64_from_le_bytes(s.subrange(9, 17));
        let stored = spec_u64_from_le_bytes(s.subrange(17, 25));
        if nbits == 0 || nbits > usize::MAX as u64 || k > u32::MAX as u64 {
            None
        } else if s.len() != HEADER_LEN + nbits {
            None
        } else if exists|b: int| HEADER_LEN <= b < s.len() && s[b] != 0 && s[b] != 1 {
            None
        } else {
            Some(
                FilterModel {
                    bits: Seq::new(nbits as nat, |b: int| s[HEADER_LEN + b] == 1),
                    n_hashes: k as u32,
                    n_stored: stored,
                },
            )
        }
    }
}

/// Lossless persistence: decoding an encoded filter state gives back that
/// state exactly — every bit, the bit count, the hash count and the
/// stored-key count.
pub proof fn lemma_decode_encode(m: FilterModel)
    requires
        0 < m.bits.len() <= usize::MAX,
    ensures
        spec_decode(spec_encode(m)) == Some(m),
{
    lemma_auto_spec_u64_to_from_le_bytes();
    let s = spec_encode(m);
    let n = m.bits.len();
    assert(s.len() == HEADER_LEN + n);
    assert(s.subrange(1, 9) =~= spec_u64_to_le_bytes(n as u64));
    assert(s.subrange(9, 17) =~= spec_u64_to_le_bytes(m.n_hashes as u64));
    assert(s.subrange(17, 25) =~= spec_u64_to_le_bytes(m.n_stored));
    assert(s[0] == FORMAT_TAG);
    assert forall|b: int| HEADER_LEN <= b < s.len() implies (s[b] == 0 || s[b] == 1) by {
        assert(s[b] == (if m.bits[b - HEADER_LEN] {
            1u8
        } else {
            0u8
        }));
    }
    assert(spec_decode(s) is Some);
    let dm = spec_decode(s)->Some_0;
    assert forall|b: int| 0 <= b < n implies dm.bits[b] == m.bits[b] by {
        assert(s[HEADER_LEN + b] == (if m.bits[b] {
            1u8
        } else {
            0u8
        }));
    }
    assert(dm.bits =~= m.bits);
    assert(dm =~= m);
}

/// Appends the eight little-endian bytes of `x`.
pub(crate) fn push_u64_le(out: &mut Vec<u8>, x: u64)
    ensures
        final(out)@ == old(out)@ + spec_u64_to_le_bytes(x),
        final(out)@.len() == old(out)@.len() + 8,
{
    let mut bytes = u64_to_le_bytes(x);
    out.append(&mut bytes);
}

/// Reads the 64-bit little-endian integer stored at offset `off`.
pub(crate) fn read_u64_le(bytes: &[u8], off: usize) -> (x: u64)
    requires
        off + 8 <= bytes@.len(),
        bytes@.len() <= usize::MAX,
    ensures
        x == spec_u64_from_le_bytes(bytes@.subrange(off as int, off as int + 8)),
{
    let sub = slice_subrange(bytes, off, off + 8);
    u64_from_le_bytes(sub)
}

} // verus!
