//! The corruption injector's decision core: which single bit a manufactured
//! corruption flips, and the size ceiling above which a file is refused.
//!
//! Drawing the random offset, the confirmation prompt and the physical
//! write stay with the caller; this module only validates the target and
//! fixes the bit.

use vstd::prelude::*;

verus! {

/// Largest file the injector will touch.
pub const SIZE_CEILING: u64 = 4 * 1024 * 1024;

/// The bit index a manufactured corruption always flips.
pub const INJECTED_BIT: u8 = 3;

#[derive(Clone, Copy, Debug, PartialEq, Eq, Structural)]
pub enum CorruptError {
    /// The file is larger than the injector's size ceiling.
    TooLarge,
}

/// Validate a corruption target: a file of `len` bytes with the drawn byte
/// offset `offset`. Within the ceiling, the plan is to flip `INJECTED_BIT`
/// of the byte at that offset; above it the target is refused.
pub fn plan_corruption(len: u64, offset: u64) -> (r: Result<(u64, u8), CorruptError>)
    requires
        offset < len,
    ensures
        r is Ok <==> len <= SIZE_CEILING,
        r matches Ok(p) ==> p == (offset, INJECTED_BIT),
{
    if len > SIZE_CEILING {
        Err(CorruptError::TooLarge)
    } else {
        Ok((offset, INJECTED_BIT))
    }
}

} // verus!
