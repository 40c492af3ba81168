//! The FNV-1a 64-bit hash.

use vstd::prelude::*;

verus! {

/// Starting state of the FNV-1a 64-bit hash (the hash of no bytes).
pub const FNV_OFFSET_BASIS: u64 = 0xcbf2_9ce4_8422_2325;

/// Multiplier of the FNV-1a 64-bit hash.
pub const FNV_PRIME: u64 = 0x0000_0100_0000_01b3;

/// One FNV-1a round: mix one byte into the state.
pub open spec fn fnv_step(state: u64, byte: u8) -> u64 {
    vstd::wrapping::u64_specs::wrapping_mul(state ^ (byte as u64), FNV_PRIME)
}

/// The state reached from `state` after mixing in every byte of `data`, in order.
pub open spec fn fnv_fold(state: u64, data: Seq<u8>) -> u64
    decreases data.len(),
{
    if data.len() == 0 {
        state
    } else {
        fnv_step(fnv_fold(state, data.drop_last()), data.last())
    }
}

/// The FNV-1a 64-bit hash of `data`.
pub open spec fn fnv1a(data: Seq<u8>) -> u64 {
    fnv_fold(FNV_OFFSET_BASIS, data)
}

/// Mixes the bytes of `chunk` into a running hash state, so that a large
/// input can be hashed a piece at a time.
pub fn fnv1a_64_update(state: u64, chunk: &[u8]) -> (next: u64)
    ensures
        next == fnv_fold(state, chunk@),
{
    let mut hash = state;
    let mut i: usize = 0;
    while i < chunk.len()
        invariant
            i <= chunk@.len(),
            hash == fnv_fold(state, chunk@.take(i as int)),
        decreases chunk@.len() - i,
    {
        assert(chunk@.take(i + 1).drop_last() =~= chunk@.take(i as int));
        hash = (hash ^ (chunk[i] as u64)).wrapping_mul(FNV_PRIME);
        i = i + 1;
    }
    assert(chunk@.take(i as int) =~= chunk@);
    hash
}

/// Computes the FNV-1a 64-bit hash of a byte slice.
pub fn fnv1a_64(data: &[u8]) -> (hash: u64)
    ensures
        hash == fnv1a(data@),
{
    fnv1a_64_update(FNV_OFFSET_BASIS, data)
}

/// Hashing in pieces: mixing `a` and then `b` into a state gives the same
/// state as mixing in `a + b` at once.
pub proof fn lemma_fnv_fold_concat(state: u64, a: Seq<u8>, b: Seq<u8>)
    ensures
        fnv_fold(fnv_fold(state, a), b) == fnv_fold(state, a + b),
    decreases b.len(),
{
    if b.len() == 0 {
        assert(a + b =~= a);
    } else {
        lemma_fnv_fold_concat(state, a, b.drop_last());
        assert((a + b).drop_last() =~= a + b.drop_last());
    }
}

/// One FNV-1a round takes the byte as its unsigned value 0..=255: it is
/// XORed into the low eight bits of the state, leaving the other bits as
/// they were, and the result is multiplied by the FNV prime 0x100000001b3
/// modulo 2^64.
pub proof fn lemma_fnv_step_unsigned(state: u64, byte: u8)
    ensures
        fnv_step(state, byte) as int == ((state ^ (byte as u64)) as int * 0x100000001b3int)
            % 0x10000000000000000int,
        (state ^ (byte as u64)) >> 8u64 == state >> 8u64,
        (state ^ (byte as u64)) & 0xffu64 == (state & 0xffu64) ^ (byte as u64),
{
    assert((state ^ (byte as u64)) >> 8u64 == state >> 8u64) by (bit_vector);
    assert((state ^ (byte as u64)) & 0xffu64 == (state & 0xffu64) ^ (byte as u64)) by (bit_vector);
}

/// The hash of no bytes is the offset basis 0xcbf29ce484222325, and the
/// hash of bytes followed by one more byte `b` (taken as 0..=255) is the
/// hash of the bytes, XORed with `b`, times 0x100000001b3 modulo 2^64.
pub proof fn lemma_fnv1a_push(data: Seq<u8>, b: u8)
    ensures
        fnv1a(Seq::<u8>::empty()) == 0xcbf29ce484222325u64,
        fnv1a(data.push(b)) as int == ((fnv1a(data) ^ (b as u64)) as int * 0x100000001b3int)
            % 0x10000000000000000int,
{
    assert(data.push(b).drop_last() =~= data);
    lemma_fnv_step_unsigned(fnv1a(data), b);
}

/// The hash of a file read in chunks, each chunk mixed into the state left
/// by the previous one starting from `FNV_OFFSET_BASIS`, is the hash of the
/// whole contents.
pub proof fn lemma_chunked_hash(first: Seq<u8>, rest: Seq<u8>)
    ensures
        fnv_fold(fnv1a(first), rest) == fnv1a(first + rest),
{
    lemma_fnv_fold_concat(FNV_OFFSET_BASIS, first, rest);
}

} // verus!
