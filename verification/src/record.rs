//! The baseline record kept for each tracked path, and its on-disk byte
//! encoding: the 64-bit digest followed by the 64-bit modification time,
//! both little-endian.

use vstd::prelude::*;
use vstd::bytes::{
    lemma_auto_spec_u64_to_from_le_bytes, spec_u64_from_le_bytes, spec_u64_to_le_bytes,
    u64_from_le_bytes, u64_to_le_bytes,
};

verus! {

/// Last known-good state of one path: content digest and modification time
/// (nanoseconds since the epoch).
#[derive(Clone, Copy, Debug, PartialEq, Eq, Structural)]
pub struct File {
    pub modified: u64,
    pub hash: u64,
}

/// Number of bytes a stored record occupies.
pub const RECORD_LEN: usize = 16;

pub open spec fn spec_encode(f: File) -> Seq<u8> {
    spec_u64_to_le_bytes(f.hash) + spec_u64_to_le_bytes(f.modified)
}

/// A stored value is readable as a record exactly when it has the record
/// length.
pub open spec fn decodable(bytes: Seq<u8>) -> bool {
    bytes.len() == RECORD_LEN
}

pub open spec fn spec_decode(bytes: Seq<u8>) -> File
    recommends
        decodable(bytes),
{
    File {
        hash: spec_u64_from_le_bytes(bytes.take(8)),
        modified: spec_u64_from_le_bytes(bytes.skip(8)),
    }
}

/// Serialize a record for the store.
pub fn encode_record(f: &File) -> (r: Vec<u8>)
    ensures
        r@ == spec_encode(*f),
        decodable(r@),
{
    proof {
        lemma_auto_spec_u64_to_from_le_bytes();
    }
    let mut out = u64_to_le_bytes(f.hash);
    let mut rest = u64_to_le_bytes(f.modified);
    out.append(&mut rest);
    out
}

/// Read a record back from stored bytes; `None` when the value does not
/// have the record length.
pub fn decode_record(bytes: &[u8]) -> (r: Option<File>)
    ensures
        decodable(bytes@) ==> r == Some(spec_decode(bytes@)),
        !decodable(bytes@) ==> r is None,
{
    if bytes.len() != RECORD_LEN {
        return None;
    }
    let hash = u64_from_le_bytes(vstd::slice::slice_subrange(bytes, 0, 8));
    let modified = u64_from_le_bytes(vstd::slice::slice_subrange(bytes, 8, 16));
    proof {
        assert(bytes@.subrange(0, 8) =~= bytes@.take(8));
        assert(bytes@.subrange(8, 16) =~= bytes@.skip(8));
    }
    Some(File { hash, modified })
}

/// Encoding then decoding a record gives the record back: the store never
/// distorts a baseline.
pub proof fn lemma_record_round_trip(f: File)
    ensures
        decodable(spec_encode(f)),
        spec_decode(spec_encode(f)) == f,
{
    lemma_auto_spec_u64_to_from_le_bytes();
    assert(spec_encode(f).take(8) =~= spec_u64_to_le_bytes(f.hash));
    assert(spec_encode(f).skip(8) =~= spec_u64_to_le_bytes(f.modified));
}

} // verus!
