//! Reading little-endian integers out of byte sequences.

use byteorder::{ByteOrder, LittleEndian};
use vstd::prelude::*;
use vstd::slice::slice_subrange;

verus! {

/// The unsigned 32-bit integer whose little-endian encoding is the four
/// bytes of `bytes` that start at `at`.
pub open spec fn le_u32(bytes: Seq<u8>, at: int) -> int {
    bytes[at] + 0x100 * bytes[at + 1] + 0x1_0000 * bytes[at + 2] + 0x100_0000 * bytes[at + 3]
}

/// Calls `byteorder::LittleEndian::read_u32`, which decodes the first four
/// bytes of its argument as a little-endian integer and panics on a shorter
/// argument. The contract states that value and excludes the shorter
/// arguments.
#[verifier::external_body]
fn read_u32_le(bytes: &[u8]) -> (value: u32)
    requires
        bytes@.len() >= 4,
    ensures
        value == le_u32(bytes@, 0),
{
    LittleEndian::read_u32(bytes)
}

/// Reads the little-endian 32-bit integer at byte offset `at` of `bytes`.
pub fn u32_at(bytes: &[u8], at: usize) -> (value: u32)
    requires
        at + 4 <= bytes@.len(),
    ensures
        value == le_u32(bytes@, at as int),
{
    let len = bytes.len();
    assert(at + 4 <= len);
    read_u32_le(slice_subrange(bytes, at, at + 4))
}

} // verus!
