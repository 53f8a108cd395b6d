//! Content hashing: a streaming 64-bit digest of a file's bytes.
//!
//! The digest itself comes from the xxhash_rust crate; this module models the
//! incremental hasher by the sequence of bytes it has consumed so far, and
//! proves that feeding a buffer chunk by chunk digests exactly the whole
//! buffer.

use vstd::prelude::*;

verus! {

/// The 64-bit xxh3 digest of a byte sequence, with the default seed and
/// secret. It is a pure function of the bytes alone; its definition is left
/// to the xxhash_rust crate.
pub uninterp spec fn xxh3_of(bytes: Seq<u8>) -> u64;

#[verifier::external_type_specification]
#[verifier::external_body]
pub struct ExXxh3(xxhash_rust::xxh3::Xxh3);

/// The stream of bytes an incremental hasher has consumed since it was
/// created.
pub uninterp spec fn consumed(h: xxhash_rust::xxh3::Xxh3) -> Seq<u8>;

/// Relies on Xxh3::new: a fresh hasher (default seed and secret) has
/// consumed nothing.
#[verifier::external_body]
pub(crate) fn hasher_new() -> (h: xxhash_rust::xxh3::Xxh3)
    ensures
        consumed(h) == Seq::<u8>::empty(),
{
    xxhash_rust::xxh3::Xxh3::new()
}

/// Relies on Xxh3::update: appends the chunk to the consumed stream.
#[verifier::external_body]
pub(crate) fn hasher_update(h: &mut xxhash_rust::xxh3::Xxh3, chunk: &[u8])
    ensures
        consumed(*final(h)) == consumed(*old(h)) + chunk@,
{
    h.update(chunk)
}

/// Relies on Xxh3::digest: the digest of everything consumed so far, a
/// function of those bytes alone.
#[verifier::external_body]
pub(crate) fn hasher_digest(h: &xxhash_rust::xxh3::Xxh3) -> (r: u64)
    ensures
        r == xxh3_of(consumed(*h)),
{
    h.digest()
}

/// Size of the read buffer the streaming digest works in.
pub const BUFFER_SIZE: usize = 4 * 1024;

/// Digest of a whole byte sequence, fed to the incremental hasher in
/// fixed-size chunks.
pub fn hash_file(data: &[u8]) -> (r: u64)
    ensures
        r == xxh3_of(data@),
{
    let mut hasher = hasher_new();
    let mut pos: usize = 0;
    while pos < data.len()
        invariant
            pos <= data@.len(),
            consumed(hasher) == data@.take(pos as int),
        decreases data@.len() - pos,
    {
        let end: usize = if data.len() - pos < BUFFER_SIZE {
            data.len()
        } else {
            pos + BUFFER_SIZE
        };
        let chunk = vstd::slice::slice_subrange(data, pos, end);
        hasher_update(&mut hasher, chunk);
        proof {
            assert(data@.take(pos as int) + data@.subrange(pos as int, end as int)
                =~= data@.take(end as int));
        }
        pos = end;
    }
    proof {
        assert(data@.take(data@.len() as int) =~= data@);
    }
    hasher_digest(&hasher)
}

} // verus!
