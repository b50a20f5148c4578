//! Content digests.
//!
//! A digest is a 128-bit key the pipeline groups candidate files under.
//! In fast mode it is built from the file's first 16 KiB only; in strict
//! mode every byte of the file takes part: the file is cut into 4 KiB
//! chunks, the hash of each chunk is XOR-folded into an accumulator, and
//! the hash of the byte length is folded in as well, so that an empty
//! file (digest 0) cannot collide with a file whose chunk fold happens to
//! be 0.  A per-run numeric seed is folded into every digest, so digests
//! are not comparable across runs with different seeds, while the grouping
//! they induce is.

use vstd::prelude::*;

use crate::fileinfo::FileInfo;

verus! {

/// Bytes of the whole-file digest's chunks.
pub const CHUNK_SIZE: usize = 4096;

/// Bytes of the prefix the fast digest reads.
pub const FAST_PREFIX: usize = 16384;

/// The 64-bit content hash every digest is built from.  Its value is a
/// pure function of the input bytes.
pub uninterp spec fn fx_of(data: Seq<u8>) -> u64;

/// Relies on fxhash::hash64: a hash whose result depends on the input
/// bytes alone.
#[verifier::external_body]
fn fx_bytes(data: &[u8]) -> (r: u64)
    ensures
        r == fx_of(data@),
{
    fxhash::hash64(data)
}

/// The eight little-endian bytes of a 64-bit value.
pub open spec fn le_bytes_of(x: u64) -> Seq<u8> {
    seq![
        (x & 0xff) as u8,
        ((x >> 8) & 0xff) as u8,
        ((x >> 16) & 0xff) as u8,
        ((x >> 24) & 0xff) as u8,
        ((x >> 32) & 0xff) as u8,
        ((x >> 40) & 0xff) as u8,
        ((x >> 48) & 0xff) as u8,
        ((x >> 56) & 0xff) as u8,
    ]
}

fn le_bytes(x: u64) -> (r: Vec<u8>)
    ensures
        r@ == le_bytes_of(x),
{
    let mut r: Vec<u8> = Vec::new();
    r.push((x & 0xff) as u8);
    r.push(((x >> 8) & 0xff) as u8);
    r.push(((x >> 16) & 0xff) as u8);
    r.push(((x >> 24) & 0xff) as u8);
    r.push(((x >> 32) & 0xff) as u8);
    r.push(((x >> 40) & 0xff) as u8);
    r.push(((x >> 48) & 0xff) as u8);
    r.push(((x >> 56) & 0xff) as u8);
    proof {
        assert(r@ =~= le_bytes_of(x));
    }
    r
}

/// The per-run seed's contribution to every digest.
pub open spec fn seed_mask(seed: i64) -> u64 {
    fx_of(le_bytes_of(seed as u64))
}

/// XOR fold of the hashes of the 4 KiB chunks of `data`, front to back.
pub open spec fn fold_chunks(data: Seq<u8>) -> u64
    decreases data.len(),
{
    if data.len() == 0 {
        0u64
    } else if data.len() <= CHUNK_SIZE {
        fx_of(data)
    } else {
        fx_of(data.take(CHUNK_SIZE as int)) ^ fold_chunks(data.skip(CHUNK_SIZE as int))
    }
}

/// The strict (whole-content) digest: 0 for empty content, else the chunk
/// fold combined with the hash of the byte length and the seed mask.
pub open spec fn strict_digest_of(data: Seq<u8>, seed: i64) -> u128 {
    if data.len() == 0 {
        0u128
    } else {
        (fold_chunks(data) ^ fx_of(le_bytes_of(data.len() as u64)) ^ seed_mask(seed)) as u128
    }
}

/// The prefix the fast digest is computed over: the whole content when it
/// is shorter than `FAST_PREFIX`, else the first `FAST_PREFIX` bytes.
pub open spec fn fast_prefix(data: Seq<u8>) -> Seq<u8> {
    if data.len() <= FAST_PREFIX {
        data
    } else {
        data.take(FAST_PREFIX as int)
    }
}

/// The fast digest: hash of the initial pages only, with the seed mask.
pub open spec fn fast_digest_of(data: Seq<u8>, seed: i64) -> u128 {
    (fx_of(fast_prefix(data)) ^ seed_mask(seed)) as u128
}

/// The digest the configured mode assigns to `data`.
pub open spec fn digest_of(data: Seq<u8>, strict: bool, seed: i64) -> u128 {
    if strict {
        strict_digest_of(data, seed)
    } else {
        fast_digest_of(data, seed)
    }
}

proof fn lemma_xor_zero(a: u64)
    ensures
        a ^ 0u64 == a,
        0u64 ^ a == a,
{
    assert(a ^ 0u64 == a) by (bit_vector);
    assert(0u64 ^ a == a) by (bit_vector);
}

proof fn lemma_xor_assoc(a: u64, b: u64, c: u64)
    ensures
        (a ^ b) ^ c == a ^ (b ^ c),
{
    assert((a ^ b) ^ c == a ^ (b ^ c)) by (bit_vector);
}

/// Computes the strict digest of `data`.
pub fn strict_digest(data: &[u8], seed: i64) -> (r: u128)
    ensures
        r == strict_digest_of(data@, seed),
{
    if data.len() == 0 {
        return 0u128;
    }
    let mut acc: u64 = 0;
    let mut off: usize = 0;
    proof {
        lemma_xor_zero(fold_chunks(data@));
        assert(data@.skip(0) =~= data@);
    }
    while off < data.len()
        invariant
            off <= data@.len(),
            fold_chunks(data@) == acc ^ fold_chunks(data@.skip(off as int)),
        decreases data@.len() - off,
    {
        let end = if data.len() - off < CHUNK_SIZE {
            data.len()
        } else {
            off + CHUNK_SIZE
        };
        let chunk = vstd::slice::slice_subrange(data, off, end);
        let h = fx_bytes(chunk);
        proof {
            let rest = data@.skip(off as int);
            if end < data@.len() {
                assert(rest.take(CHUNK_SIZE as int) =~= data@.subrange(
                    off as int,
                    end as int,
                ));
                assert(rest.skip(CHUNK_SIZE as int) =~= data@.skip(end as int));
            } else {
                assert(rest =~= data@.subrange(off as int, end as int));
                assert(data@.skip(end as int) =~= Seq::<u8>::empty());
            }
            lemma_xor_assoc(acc, h, fold_chunks(data@.skip(end as int)));
            lemma_xor_zero(h);
        }
        acc = acc ^ h;
        off = end;
    }
    proof {
        assert(data@.skip(data@.len() as int) =~= Seq::<u8>::empty());
        lemma_xor_zero(acc);
    }
    let lenh = fx_bytes(le_bytes(data.len() as u64).as_slice());
    let mask = fx_bytes(le_bytes(seed as u64).as_slice());
    ((acc ^ lenh) ^ mask) as u128
}

/// Computes the fast digest of `data`.
pub fn fast_digest(data: &[u8], seed: i64) -> (r: u128)
    ensures
        r == fast_digest_of(data@, seed),
{
    let n = if data.len() <= FAST_PREFIX {
        data.len()
    } else {
        FAST_PREFIX
    };
    let prefix = vstd::slice::slice_subrange(data, 0, n);
    proof {
        assert(data@.subrange(0, n as int) =~= fast_prefix(data@));
    }
    let h = fx_bytes(prefix);
    let mask = fx_bytes(le_bytes(seed as u64).as_slice());
    (h ^ mask) as u128
}

/// Computes the digest of `data` in the configured mode.
pub fn compute_digest(data: &[u8], strict: bool, seed: i64) -> (r: u128)
    ensures
        r == digest_of(data@, strict, seed),
{
    if strict {
        strict_digest(data, seed)
    } else {
        fast_digest(data, seed)
    }
}

/// The strict digest of empty content is the distinguished value 0: an
/// empty file never takes the chunk-fold path.
pub proof fn lemma_empty_strict_digest(seed: i64)
    ensures
        strict_digest_of(Seq::<u8>::empty(), seed) == 0,
{
}

/// The fast digest reads nothing past the first `FAST_PREFIX` bytes: two
/// contents that agree on that prefix get the same fast digest, whatever
/// follows it.
pub proof fn lemma_fast_digest_prefix_only(c1: Seq<u8>, c2: Seq<u8>, seed: i64)
    requires
        fast_prefix(c1) == fast_prefix(c2),
    ensures
        fast_digest_of(c1, seed) == fast_digest_of(c2, seed),
{
}

proof fn lemma_xor_cancel(a: u64, b: u64, m: u64)
    ensures
        (a ^ m == b ^ m) <==> (a == b),
{
    assert((a ^ m == b ^ m) <==> (a == b)) by (bit_vector);
}

proof fn lemma_cast_eq(a: u64, b: u64)
    ensures
        ((a as u128) == (b as u128)) <==> (a == b),
{
    assert(((a as u128) == (b as u128)) <==> (a == b)) by (bit_vector);
}

/// The seed shifts every strict digest by the same mask, so which pairs of
/// non-empty contents share a digest does not depend on the seed: the
/// grouping the pipeline produces is seed-independent even though the
/// digest keys are not.  (An empty file is left out: its digest is pinned
/// to 0 under every seed and never equals a non-empty file's digest except
/// by hash collision.)
pub proof fn lemma_strict_partition_seed_independent(
    c1: Seq<u8>,
    c2: Seq<u8>,
    s1: i64,
    s2: i64,
)
    requires
        c1.len() > 0,
        c2.len() > 0,
    ensures
        (strict_digest_of(c1, s1) == strict_digest_of(c2, s1)) <==> (strict_digest_of(c1, s2)
            == strict_digest_of(c2, s2)),
{
    let b1 = fold_chunks(c1) ^ fx_of(le_bytes_of(c1.len() as u64));
    let b2 = fold_chunks(c2) ^ fx_of(le_bytes_of(c2.len() as u64));
    lemma_xor_assoc(fold_chunks(c1), fx_of(le_bytes_of(c1.len() as u64)), seed_mask(s1));
    lemma_xor_assoc(fold_chunks(c2), fx_of(le_bytes_of(c2.len() as u64)), seed_mask(s1));
    lemma_xor_assoc(fold_chunks(c1), fx_of(le_bytes_of(c1.len() as u64)), seed_mask(s2));
    lemma_xor_assoc(fold_chunks(c2), fx_of(le_bytes_of(c2.len() as u64)), seed_mask(s2));
    lemma_cast_eq(b1 ^ seed_mask(s1), b2 ^ seed_mask(s1));
    lemma_cast_eq(b1 ^ seed_mask(s2), b2 ^ seed_mask(s2));
    lemma_xor_cancel(b1, b2, seed_mask(s1));
    lemma_xor_cancel(b1, b2, seed_mask(s2));
}

/// The same seed-independence for the fast digest, with no exception: the
/// fast digest of any content is the prefix hash shifted by the mask.
pub proof fn lemma_fast_partition_seed_independent(c1: Seq<u8>, c2: Seq<u8>, s1: i64, s2: i64)
    ensures
        (fast_digest_of(c1, s1) == fast_digest_of(c2, s1)) <==> (fast_digest_of(c1, s2)
            == fast_digest_of(c2, s2)),
{
    lemma_cast_eq(fx_of(fast_prefix(c1)) ^ seed_mask(s1), fx_of(fast_prefix(c2)) ^ seed_mask(s1));
    lemma_cast_eq(fx_of(fast_prefix(c1)) ^ seed_mask(s2), fx_of(fast_prefix(c2)) ^ seed_mask(s2));
    lemma_xor_cancel(fx_of(fast_prefix(c1)), fx_of(fast_prefix(c2)), seed_mask(s1));
    lemma_xor_cancel(fx_of(fast_prefix(c1)), fx_of(fast_prefix(c2)), seed_mask(s2));
}


impl FileInfo {
    /// The strict digest of this file, over the bytes the caller read
    /// from its path.
    pub fn hash(&self, content: &[u8], seed: i64) -> (r: u128)
        ensures
            r == strict_digest_of(content@, seed),
    {
        strict_digest(content, seed)
    }

    /// The fast digest of this file, over the bytes the caller read from
    /// its path: only the initial pages take part.
    pub fn initpages_hash(&self, content: &[u8], seed: i64) -> (r: u128)
        ensures
            r == fast_digest_of(content@, seed),
    {
        fast_digest(content, seed)
    }
}

} // verus!
