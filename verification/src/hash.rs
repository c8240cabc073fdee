//! Content fingerprints: size-tiered hashing and byte comparison.
//!
//! Digests are 256-bit BLAKE3 hashes.  The tier thresholds follow an ordered
//! policy: files at or above `SAMPLE_MIN` are fingerprinted from their first
//! and last `SAMPLE_SIZE` bytes only (a documented heuristic that trades a
//! false-negative risk for bounded cost), files under `SMALL_MAX` are
//! compared byte for byte, and everything between is hashed in full.

use vstd::prelude::*;
use vstd::slice::slice_subrange;
use crate::DIGEST_LEN;

verus! {

/// Files under this many bytes are read whole and compared directly.
pub const SMALL_MAX: u64 = 1024;

/// Files above this many bytes are hashed from one contiguous buffer
/// (the application maps them into memory); files between `SMALL_MAX`
/// and this bound are hashed in buffered chunks.
pub const MEDIUM_MAX: u64 = 1048576;

/// Files at or above this many bytes are fingerprinted by sampling.
pub const SAMPLE_MIN: u64 = 104857600;

/// How many bytes each of the two samples of a large file holds.
pub const SAMPLE_SIZE: usize = 65536;

/// Chunk size for buffered incremental hashing.
pub const CHUNK_SIZE: usize = 32768;

/// The 256-bit BLAKE3 digest of a byte sequence, named but not written out:
/// trusted wrappers below state that the library's digests equal it.
pub uninterp spec fn blake3_of(data: Seq<u8>) -> Seq<u8>;

#[verifier::external_type_specification]
#[verifier::external_body]
pub struct ExHasher(blake3::Hasher);

/// The bytes an incremental hasher has absorbed so far.
pub uninterp spec fn absorbed(h: blake3::Hasher) -> Seq<u8>;

/// Relies on blake3::Hasher::new: a fresh hasher has absorbed nothing.
#[verifier::external_body]
fn hasher_new() -> (h: blake3::Hasher)
    ensures
        absorbed(h) == Seq::<u8>::empty(),
{
    blake3::Hasher::new()
}

/// Relies on blake3::Hasher::update: appends the input to the absorbed
/// stream.
#[verifier::external_body]
fn hasher_update(h: &mut blake3::Hasher, data: &[u8])
    ensures
        absorbed(*final(h)) == absorbed(*old(h)) + data@,
{
    h.update(data);
}

/// Relies on blake3::Hasher::finalize: returns the 32-byte BLAKE3 digest of
/// the absorbed bytes (documented equal to blake3::hash of the same bytes).
#[verifier::external_body]
fn hasher_finalize(h: &blake3::Hasher) -> (digest: Vec<u8>)
    ensures
        digest@ == blake3_of(absorbed(*h)),
        digest@.len() == DIGEST_LEN,
{
    h.finalize().as_bytes().to_vec()
}

/// Relies on blake3::hash: the 32-byte BLAKE3 digest of the input.
#[verifier::external_body]
fn blake3_digest(data: &[u8]) -> (digest: Vec<u8>)
    ensures
        digest@ == blake3_of(data@),
        digest@.len() == DIGEST_LEN,
{
    blake3::hash(data).as_bytes().to_vec()
}

/// How a file of a given size is fingerprinted or compared.
#[derive(Clone, Copy, Debug)]
pub enum HashStrategy {
    /// Hash only the first and last `SAMPLE_SIZE` bytes (heuristic).
    Sampled,
    /// Read whole and compare or hash the bytes directly.
    DirectBytes,
    /// Hash the whole content from one contiguous buffer.
    MappedFull,
    /// Hash the whole content in buffered chunks.
    BufferedFull,
}

/// The ordered size-to-strategy policy table.  Sampling wins where allowed;
/// then the small, large and medium tiers in the order the thresholds nest.
pub open spec fn strategy_for(size: u64, allow_sampled: bool) -> HashStrategy {
    if allow_sampled && size >= SAMPLE_MIN {
        HashStrategy::Sampled
    } else if size < SMALL_MAX {
        HashStrategy::DirectBytes
    } else if size > MEDIUM_MAX {
        HashStrategy::MappedFull
    } else {
        HashStrategy::BufferedFull
    }
}

/// Select the comparison strategy for a file size.  `allow_sampled` exposes
/// the sampling heuristic as a configuration toggle.
pub fn choose_strategy(size: u64, allow_sampled: bool) -> (s: HashStrategy)
    ensures
        s == strategy_for(size, allow_sampled),
{
    if allow_sampled && size >= SAMPLE_MIN {
        HashStrategy::Sampled
    } else if size < SMALL_MAX {
        HashStrategy::DirectBytes
    } else if size > MEDIUM_MAX {
        HashStrategy::MappedFull
    } else {
        HashStrategy::BufferedFull
    }
}

/// The sampled view of a content: the first and last `SAMPLE_SIZE` bytes,
/// concatenated (the whole content where it is no longer than one sample).
pub open spec fn sample_of(data: Seq<u8>) -> Seq<u8> {
    if data.len() <= SAMPLE_SIZE {
        data
    } else {
        data.subrange(0, SAMPLE_SIZE as int) + data.subrange(
            data.len() - SAMPLE_SIZE,
            data.len() as int,
        )
    }
}

/// Digest of the sampled view of a content.  Callers gate on `SAMPLE_MIN`:
/// this fingerprint is a documented heuristic that cannot see changes
/// confined to the middle of the file.
pub fn hash_sampled_file(content: &Vec<u8>) -> (digest: Vec<u8>)
    ensures
        digest@ == blake3_of(sample_of(content@)),
        digest@.len() == DIGEST_LEN,
{
    if content.len() <= SAMPLE_SIZE {
        blake3_digest(content.as_slice())
    } else {
        let mut h = hasher_new();
        let first = slice_subrange(content.as_slice(), 0, SAMPLE_SIZE);
        hasher_update(&mut h, first);
        let last = slice_subrange(content.as_slice(), content.len() - SAMPLE_SIZE, content.len());
        hasher_update(&mut h, last);
        let digest = hasher_finalize(&h);
        proof {
            assert(absorbed(h) =~= sample_of(content@));
        }
        digest
    }
}

/// Digest of a small file's whole content (under `SMALL_MAX` bytes).
pub fn hash_small_file(content: &Vec<u8>) -> (digest: Vec<u8>)
    ensures
        digest@ == blake3_of(content@),
        digest@.len() == DIGEST_LEN,
{
    blake3_digest(content.as_slice())
}

/// Digest of a medium file's whole content, absorbed in `CHUNK_SIZE` chunks
/// as a buffered reader hands them over.
pub fn hash_medium_file_blake3(content: &Vec<u8>) -> (digest: Vec<u8>)
    ensures
        digest@ == blake3_of(content@),
        digest@.len() == DIGEST_LEN,
{
    let mut h = hasher_new();
    let n = content.len();
    let mut i: usize = 0;
    proof {
        assert(content@.subrange(0, 0) =~= Seq::<u8>::empty());
    }
    while i < n
        invariant
            n == content@.len(),
            i <= n,
            absorbed(h) == content@.subrange(0, i as int),
        decreases n - i,
    {
        let end = if n - i < CHUNK_SIZE {
            n
        } else {
            i + CHUNK_SIZE
        };
        let chunk = slice_subrange(content.as_slice(), i, end);
        hasher_update(&mut h, chunk);
        proof {
            assert(absorbed(h) =~= content@.subrange(0, end as int));
        }
        i = end;
    }
    proof {
        assert(content@.subrange(0, n as int) =~= content@);
    }
    hasher_finalize(&h)
}

/// Digest of a large file's whole content, hashed from one contiguous
/// buffer (the application memory-maps the file to produce it).
pub fn hash_large_file_blake3(content: &Vec<u8>) -> (digest: Vec<u8>)
    ensures
        digest@ == blake3_of(content@),
        digest@.len() == DIGEST_LEN,
{
    blake3_digest(content.as_slice())
}

/// The digest a file of this content gets under the tier policy: the sampled
/// fingerprint at or above `SAMPLE_MIN` (where sampling is allowed), the
/// digest of the whole content otherwise.
pub open spec fn file_digest(data: Seq<u8>, allow_sampled: bool) -> Seq<u8> {
    if allow_sampled && data.len() >= SAMPLE_MIN {
        blake3_of(sample_of(data))
    } else {
        blake3_of(data)
    }
}

/// Fingerprint one content under the size-tier policy.
pub fn hash_file(content: &Vec<u8>, allow_sampled: bool) -> (digest: Vec<u8>)
    ensures
        digest@ == file_digest(content@, allow_sampled),
        digest@.len() == DIGEST_LEN,
{
    match choose_strategy(content.len() as u64, allow_sampled) {
        HashStrategy::Sampled => hash_sampled_file(content),
        HashStrategy::DirectBytes => hash_small_file(content),
        HashStrategy::MappedFull => hash_large_file_blake3(content),
        HashStrategy::BufferedFull => hash_medium_file_blake3(content),
    }
}

/// Exact byte equality of two slices.
fn bytes_equal(a: &[u8], b: &[u8]) -> (eq: bool)
    ensures
        eq == (a@ == b@),
{
    let n = a.len();
    if n != b.len() {
        return false;
    }
    for i in 0..n
        invariant
            n == a@.len(),
            n == b@.len(),
            forall|j: int| 0 <= j < i ==> a@[j] == b@[j],
    {
        if a[i] != b[i] {
            return false;
        }
    }
    proof {
        assert(a@ =~= b@);
    }
    true
}

/// Exact byte equality of two small files' contents.
pub fn compare_small_files(left: &Vec<u8>, right: &Vec<u8>) -> (eq: bool)
    ensures
        eq == (left@ == right@),
{
    bytes_equal(left.as_slice(), right.as_slice())
}

/// The equality verdict the comparator reaches for two same-size contents.
/// Under sampling it is digest equality of the two sampled views; in the
/// small tier it is exact byte equality; in the full-hash tiers it is digest
/// equality of the whole contents (the system's documented notion of
/// content equality).
pub open spec fn contents_match(l: Seq<u8>, r: Seq<u8>, force_full: bool) -> bool {
    if !force_full && l.len() >= SAMPLE_MIN {
        blake3_of(sample_of(l)) == blake3_of(sample_of(r))
    } else if l.len() < SMALL_MAX {
        l == r
    } else {
        blake3_of(l) == blake3_of(r)
    }
}

/// Compare two contents known to have equal size.  `force_full` disables the
/// sampling heuristic, hashing large files in full.
pub fn compare_content(left: &Vec<u8>, right: &Vec<u8>, force_full: bool) -> (eq: bool)
    requires
        left@.len() == right@.len(),
    ensures
        eq == contents_match(left@, right@, force_full),
{
    let size = left.len() as u64;
    if !force_full && size >= SAMPLE_MIN {
        let dl = hash_sampled_file(left);
        let dr = hash_sampled_file(right);
        bytes_equal(dl.as_slice(), dr.as_slice())
    } else if size < SMALL_MAX {
        compare_small_files(left, right)
    } else {
        let dl = if size > MEDIUM_MAX {
            hash_large_file_blake3(left)
        } else {
            hash_medium_file_blake3(left)
        };
        let dr = if size > MEDIUM_MAX {
            hash_large_file_blake3(right)
        } else {
            hash_medium_file_blake3(right)
        };
        bytes_equal(dl.as_slice(), dr.as_slice())
    }
}

/// Two contents whose sampled views coincide get the same sampled
/// fingerprint: the sampling tier cannot distinguish them, however their
/// middles differ.  This is the documented false-negative window.
pub proof fn lemma_sampling_is_blind_to_middles(l: Seq<u8>, r: Seq<u8>)
    requires
        sample_of(l) == sample_of(r),
    ensures
        contents_match(l, r, false) || l.len() < SAMPLE_MIN,
{
}

} // verus!
