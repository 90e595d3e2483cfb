//! The LZ4 block format.
//!
//! A block is a series of sequences. A sequence is a token byte, whose upper
//! half is the literal length and whose lower half the match length, then
//! further literal length bytes where the upper half is 15, then the literals,
//! then a two-byte offset backwards into what has been output, then further
//! match length bytes where the lower half is 15. The last sequence ends after
//! its literals.

pub mod decompress;
pub mod sequences;

use crate::bytes::{law_le_u32, le_bytes, le_value, read_u32};
use crate::text::{append_decimal, decimal};
use vstd::prelude::*;
use vstd::string::StringExecFns;

verus! {

/// The minimum length of a duplicate.
pub const MINMATCH: usize = 4;

/// The value of a token half that says that further length bytes follow.
pub const MATCH_LENGTH_MASK: u8 = 15;

/// The furthest that an offset can reach back.
pub const MAX_DISTANCE: usize = 65535;

/// The number of bytes of output that must stay within reach of a match.
pub const WINDOW_SIZE: usize = 65536;

/// An error representing invalid compressed data.
#[derive(Debug, Clone, Copy, PartialEq, Eq, Structural)]
pub enum DecompressError {
    /// The output buffer ends at `actual_size`, the data at `expected_size`.
    OutputTooSmall { expected_size: usize, actual_size: usize },
    /// Literal is out of bounds of the input.
    LiteralOutOfBounds,
    /// Expected another byte, but none found.
    ExpectedAnotherByte,
    /// Deduplication offset out of bounds (not in buffer).
    OffsetOutOfBounds,
}

impl DecompressError {
    /// What the error says.
    pub open spec fn text(self) -> Seq<char> {
        match self {
            DecompressError::OutputTooSmall { expected_size, actual_size } => "Output ("@ + decimal(
                actual_size as nat,
            ) + ") is too small for the decompressed data, "@ + decimal(expected_size as nat),
            DecompressError::LiteralOutOfBounds => "Literal is out of bounds of the input."@,
            DecompressError::ExpectedAnotherByte => "Expected another byte, found none."@,
            DecompressError::OffsetOutOfBounds =>
                "The offset to copy is not contained in the decompressed buffer."@,
        }
    }

    /// What the error says.
    pub fn message(&self) -> (message: String)
        ensures
            message@ == self.text(),
    {
        match self {
            DecompressError::OutputTooSmall { expected_size, actual_size } => {
                let mut message = "Output (".to_owned();
                append_decimal(&mut message, *actual_size);
                message.append(") is too small for the decompressed data, ");
                append_decimal(&mut message, *expected_size);
                message
            },
            DecompressError::LiteralOutOfBounds => {
                "Literal is out of bounds of the input.".to_owned()
            },
            DecompressError::ExpectedAnotherByte => {
                "Expected another byte, found none.".to_owned()
            },
            DecompressError::OffsetOutOfBounds => {
                "The offset to copy is not contained in the decompressed buffer.".to_owned()
            },
        }
    }
}

/// Splits the size that precedes a block off the block: the first four bytes are
/// the size, the rest is the block.
pub fn uncompressed_size(input: &[u8]) -> (result: Result<(usize, &[u8]), DecompressError>)
    ensures
        input@.len() < 4 ==> result == Err::<(usize, &[u8]), _>(
            DecompressError::ExpectedAnotherByte,
        ),
        input@.len() >= 4 ==> {
            &&& result is Ok
            &&& result->Ok_0.0 == le_value(input@.take(4))
            &&& result->Ok_0.0 == input@[0] + 256 * input@[1] + 65536 * input@[2] + 16777216
                * input@[3]
            &&& result->Ok_0.1@ == input@.skip(4)
        },
{
    if input.len() < 4 {
        return Err(DecompressError::ExpectedAnotherByte);
    }
    let size: usize = read_u32(input, 0) as usize;
    let rest = vstd::slice::slice_subrange(input, 4, input.len());
    Ok((size, rest))
}

/// A size and a block that are put together come apart again as they were.
pub proof fn law_size_prefix(size: nat, block: Seq<u8>)
    requires
        size <= u32::MAX,
    ensures
        ({
            let input = le_bytes(size, 4) + block;
            &&& input.len() == 4 + block.len()
            &&& le_value(input.take(4)) == size
            &&& input.skip(4) == block
        }),
{
    law_le_u32(size);
    let input = le_bytes(size, 4) + block;
    assert(input.take(4) =~= le_bytes(size, 4));
    assert(input.skip(4) =~= block);
}

/// The least multiple of 8 that is not below `n`.
pub open spec fn round_up_8(n: int) -> int {
    (n + 7) / 8 * 8
}

/// Copies `num_items` bytes from the front of `source` to the front of `dst`, in
/// steps of 8, so that up to 7 more bytes are copied than were asked for.
pub fn wild_copy_from_src_8(source: &[u8], dst: &mut [u8], num_items: usize)
    requires
        round_up_8(num_items as int) <= source@.len(),
        round_up_8(num_items as int) <= old(dst)@.len(),
    ensures
        final(dst)@ == source@.take(round_up_8(num_items as int)) + old(dst)@.skip(
            round_up_8(num_items as int),
        ),
{
    let mut done: usize = 0;
    let ghost total = round_up_8(num_items as int);
    assert(source.len() >= total);
    while done < num_items
        invariant
            done % 8 == 0,
            done <= total,
            total == round_up_8(num_items as int),
            total <= source@.len(),
            total <= usize::MAX,
            dst@.len() == old(dst)@.len(),
            total <= dst@.len(),
            dst@ == source@.take(done as int) + old(dst)@.skip(done as int),
        decreases num_items + 8 - done,
    {
        assert(done + 8 <= total);
        let mut i: usize = 0;
        while i < 8
            invariant
                i <= 8,
                done + 8 <= total,
                total <= source@.len(),
                total <= usize::MAX,
                dst@.len() == old(dst)@.len(),
                total <= dst@.len(),
                dst@ == source@.take(done + i) + old(dst)@.skip(done + i),
            decreases 8 - i,
        {
            dst[done + i] = source[done + i];
            i = i + 1;
            assert(dst@ =~= source@.take(done + i) + old(dst)@.skip(done + i));
        }
        done = done + 8;
    }
    assert(done == total);
}

/// Rounding up goes to a multiple of 8, and no further than to the next.
pub proof fn law_round_up(n: int)
    ensures
        round_up_8(n) % 8 == 0,
        n <= round_up_8(n) < n + 8,
{
}

/// An offset is two bytes, so that none reaches back beyond the window.
pub proof fn law_window()
    ensures
        MAX_DISTANCE == 256 * 255 + 255,
        WINDOW_SIZE == MAX_DISTANCE + 1,
{
}

/// The messages of the errors. That of output for which there is no room says
/// where the output has to end, and then where it would have ended.
pub proof fn law_messages(expected_size: usize, actual_size: usize)
    ensures
        (DecompressError::OutputTooSmall { expected_size, actual_size }).text() == "Output ("@
            + decimal(actual_size as nat) + ") is too small for the decompressed data, "@ + decimal(
            expected_size as nat,
        ),
        DecompressError::LiteralOutOfBounds.text() == "Literal is out of bounds of the input."@,
        DecompressError::ExpectedAnotherByte.text() == "Expected another byte, found none."@,
        DecompressError::OffsetOutOfBounds.text()
            == "The offset to copy is not contained in the decompressed buffer."@,
{
}

} // verus!
