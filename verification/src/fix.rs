//! The single-bit recovery engine: given a file's current content and its
//! stored baseline, search every (byte offset, bit index) candidate in
//! ascending order for the one bit flip whose digest reproduces the
//! baseline digest.
//!
//! Candidates are probed virtually: the content is streamed through the
//! hasher with the one bit patched inside the read buffer, so the probing
//! never materializes a modified copy. Physically applying the winning flip
//! (one read-modify-write of one byte) is left to the caller, which
//! `flip_byte` serves.

use vstd::prelude::*;

use crate::hash::{hash_file, xxh3_of, BUFFER_SIZE};
use crate::record::{decodable, decode_record, spec_decode};
use crate::store::{db_flush, db_get, db_view};

verus! {

/// A byte with one bit flipped.
pub open spec fn spec_flip_byte(b: u8, bit: u8) -> u8
    recommends
        bit < 8,
{
    b ^ (1u8 << bit)
}

/// A byte sequence with exactly one bit flipped, at bit `bit` of the byte
/// at `offset`.
pub open spec fn flip_bit_seq(s: Seq<u8>, offset: int, bit: u8) -> Seq<u8>
    recommends
        0 <= offset < s.len(),
        bit < 8,
{
    s.update(offset, spec_flip_byte(s[offset], bit))
}

/// Does flipping bit `bit` of byte `offset` make the content reproduce the
/// expected digest?
pub open spec fn candidate_matches(content: Seq<u8>, expected: u64, offset: int, bit: u8) -> bool {
    xxh3_of(flip_bit_seq(content, offset, bit)) == expected
}

/// Flip one bit of one byte: what the physical repair writes back.
pub fn flip_byte(b: u8, bit: u8) -> (r: u8)
    requires
        bit < 8,
    ensures
        r == spec_flip_byte(b, bit),
{
    b ^ (1u8 << bit)
}

/// Digest of the content as it would read with bit `bit` of byte `offset`
/// flipped. The content itself is streamed unmodified; the flip is applied
/// only inside the buffer under construction.
fn hash_flipped(data: &[u8], offset: usize, bit: u8) -> (r: u64)
    requires
        offset < data@.len(),
        bit < 8,
    ensures
        r == xxh3_of(flip_bit_seq(data@, offset as int, bit)),
{
    let ghost target = flip_bit_seq(data@, offset as int, bit);
    let mut hasher = crate::hash::hasher_new();
    let mut pos: usize = 0;
    while pos < data.len()
        invariant
            pos <= data@.len(),
            offset < data@.len(),
            bit < 8,
            target == flip_bit_seq(data@, offset as int, bit),
            target.len() == data@.len(),
            crate::hash::consumed(hasher) == target.take(pos as int),
        decreases data@.len() - pos,
    {
        let end: usize = if data.len() - pos < BUFFER_SIZE {
            data.len()
        } else {
            pos + BUFFER_SIZE
        };
        let mut chunk: Vec<u8> = Vec::new();
        let mut j: usize = pos;
        while j < end
            invariant
                pos <= j <= end <= data@.len(),
                offset < data@.len(),
                bit < 8,
                target == flip_bit_seq(data@, offset as int, bit),
                chunk@ == target.subrange(pos as int, j as int),
            decreases end - j,
        {
            let byte = data[j];
            let patched = if j == offset {
                flip_byte(byte, bit)
            } else {
                byte
            };
            chunk.push(patched);
            proof {
                assert(target.subrange(pos as int, j as int).push(patched) =~= target.subrange(
                    pos as int,
                    j as int + 1,
                ));
            }
            j = j + 1;
        }
        crate::hash::hasher_update(&mut hasher, chunk.as_slice());
        proof {
            assert(target.take(pos as int) + target.subrange(pos as int, end as int)
                =~= target.take(end as int));
        }
        pos = end;
    }
    proof {
        assert(target.take(target.len() as int) =~= target);
    }
    crate::hash::hasher_digest(&hasher)
}

/// The lowest-ordered single-bit candidate whose digest reproduces
/// `expected`, or `None` when no candidate does. Candidates are probed in
/// ascending (offset, bit) order and the search stops at the first match.
pub fn find_flip(content: &[u8], expected: u64) -> (r: Option<(usize, u8)>)
    ensures
        r matches Some(c) ==> {
            &&& (c.0 as int) < content@.len()
            &&& c.1 < 8
            &&& candidate_matches(content@, expected, c.0 as int, c.1)
            &&& forall|o: int, b: u8|
                0 <= o < content@.len() && b < 8 && 8 * o + b < 8 * (c.0 as int) + c.1
                    ==> !candidate_matches(content@, expected, o, b)
        },
        r is None ==> forall|o: int, b: u8|
            0 <= o < content@.len() && b < 8 ==> !candidate_matches(content@, expected, o, b),
{
    let mut offset: usize = 0;
    while offset < content.len()
        invariant
            offset <= content@.len(),
            forall|o: int, b: u8|
                0 <= o < offset && b < 8 ==> !candidate_matches(content@, expected, o, b),
        decreases content@.len() - offset,
    {
        let mut bit: u8 = 0;
        while bit < 8
            invariant
                offset < content@.len(),
                bit <= 8,
                forall|o: int, b: u8|
                    0 <= o < offset && b < 8 ==> !candidate_matches(content@, expected, o, b),
                forall|b: u8| b < bit ==> !candidate_matches(content@, expected, offset as int, b),
            decreases 8 - bit,
        {
            let h = hash_flipped(content, offset, bit);
            if h == expected {
                proof {
                    assert forall|o: int, b: u8|
                        0 <= o < content@.len() && b < 8 && 8 * o + b < 8 * (offset as int)
                            + bit implies !candidate_matches(content@, expected, o, b) by {
                        if o < offset {
                        } else {
                            assert(o == offset && b < bit);
                        }
                    }
                }
                return Some((offset, bit));
            }
            bit = bit + 1;
        }
        offset = offset + 1;
    }
    None
}

/// Outcome of a recovery attempt. `Repaired` carries the (offset, bit)
/// whose flip reproduces the baseline digest; applying it physically is the
/// caller's read-modify-write.
#[derive(Clone, Copy, Debug, PartialEq, Eq, Structural)]
pub enum FixOutcome {
    NotCorrupted,
    Repaired(usize, u8),
    Exhausted,
}

/// Why a recovery attempt could not run at all.
#[derive(Clone, Copy, Debug, PartialEq, Eq, Structural)]
pub enum FixError {
    /// No baseline record exists for the path.
    NoBaseline,
    /// A store operation (lookup or the final flush) failed.
    Store,
    /// The stored value for the path is not a readable record.
    Serialization,
}

/// Recovery for one path whose current content is `content`: compare its
/// digest against the stored baseline and, on a mismatch, search for the
/// single bit flip that explains it. The store is only read and is durably
/// flushed before returning; its contents are never changed here. Exactly
/// one of the three outcomes describes the content against the stored
/// digest; `Exhausted` means the corruption is not a single bit flip and
/// nothing is to be modified.
pub fn fix(db: &sled::Db, key: &[u8], content: &[u8]) -> (r: Result<FixOutcome, FixError>)
    ensures
        r matches Ok(outcome) ==> {
            let stored = spec_decode(db_view(*db)[key@]);
            &&& db_view(*db).contains_key(key@)
            &&& decodable(db_view(*db)[key@])
            &&& (outcome == FixOutcome::NotCorrupted <==> xxh3_of(content@) == stored.hash)
            &&& (outcome matches FixOutcome::Repaired(offset, bit) ==> {
                &&& (offset as int) < content@.len()
                &&& bit < 8
                &&& candidate_matches(content@, stored.hash, offset as int, bit)
                &&& forall|o: int, b: u8|
                    0 <= o < content@.len() && b < 8 && 8 * o + b < 8 * (offset as int) + bit
                        ==> !candidate_matches(content@, stored.hash, o, b)
            })
            &&& (outcome == FixOutcome::Exhausted ==> forall|o: int, b: u8|
                0 <= o < content@.len() && b < 8 ==> !candidate_matches(content@, stored.hash, o, b))
        },
        r == Err::<FixOutcome, FixError>(FixError::NoBaseline) ==> !db_view(*db).contains_key(key@),
        r == Err::<FixOutcome, FixError>(FixError::Serialization) ==> db_view(*db).contains_key(
            key@,
        ) && !decodable(db_view(*db)[key@]),
{
    let stored_bytes = match db_get(db, key) {
        Ok(Some(bytes)) => bytes,
        Ok(None) => {
            return match db_flush(db) {
                Ok(_) => Err(FixError::NoBaseline),
                Err(_) => Err(FixError::Store),
            };
        },
        Err(_) => {
            let _ = db_flush(db);
            return Err(FixError::Store);
        },
    };
    let stored = match decode_record(stored_bytes.as_slice()) {
        Some(f) => f,
        None => {
            return match db_flush(db) {
                Ok(_) => Err(FixError::Serialization),
                Err(_) => Err(FixError::Store),
            };
        },
    };
    let current = hash_file(content);
    let outcome = if current == stored.hash {
        FixOutcome::NotCorrupted
    } else {
        match find_flip(content, stored.hash) {
            Some((offset, bit)) => FixOutcome::Repaired(offset, bit),
            None => FixOutcome::Exhausted,
        }
    };
    match db_flush(db) {
        Ok(_) => Ok(outcome),
        Err(_) => Err(FixError::Store),
    }
}

/// Recovery correctness: the candidate the search reports does restore the
/// baseline digest — the repaired content hashes to the expected digest, so
/// a following recovery attempt on it finds it not corrupted.
pub proof fn lemma_repair_restores_digest(content: Seq<u8>, expected: u64, offset: int, bit: u8)
    requires
        0 <= offset < content.len(),
        bit < 8,
        candidate_matches(content, expected, offset, bit),
    ensures
        xxh3_of(flip_bit_seq(content, offset, bit)) == expected,
{
}

/// Boundary: a zero-length file admits no single-bit candidate at all, so
/// recovery on it can only find it not corrupted or exhausted.
pub proof fn lemma_zero_length_no_candidates(content: Seq<u8>, expected: u64)
    requires
        content.len() == 0,
    ensures
        !exists|o: int, b: u8|
            0 <= o < content.len() && b < 8 && candidate_matches(content, expected, o, b),
{
}

} // verus!
