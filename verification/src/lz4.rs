//! The compression of payload arenas, by the `lz4_flex` crate.
use lz4_flex::block::DecompressError;
use vstd::prelude::*;

verus! {

/// The error that `lz4_flex` reports for a block that it cannot decode.
#[verifier::external_type_specification]
#[verifier::external_body]
pub struct ExDecompressError(lz4_flex::block::DecompressError);

/// What the LZ4 block `block` decodes to in a buffer of `room` bytes; `None` where it is no valid
/// block, or where the buffer is too small.
pub uninterp spec fn lz4_decoded(block: Seq<u8>, room: nat) -> Option<Seq<u8>>;

/// Whether `lz4_flex` can lay out its output buffer for an input of `len` bytes: 20 bytes more
/// than eleven tenths of it, reckoned in 64 bits.
pub open spec fn compressible(len: nat) -> bool {
    &&& len * 110 <= u64::MAX
    &&& 20 + len * 110 / 100 <= isize::MAX
}

/// Calls `lz4_flex::block::compress`. Claimed of it: the block that it returns decodes, in a
/// buffer of the input's length, to the input. Which block that is may differ from machine to
/// machine, so nothing more is claimed.
#[verifier::external_body]
pub(crate) fn compress(input: &[u8]) -> (r: Vec<u8>)
    requires
        compressible(input@.len()),
    ensures
        lz4_decoded(r@, input@.len()) == Some(input@),
{
    lz4_flex::block::compress(input)
}

/// Calls `lz4_flex::block::decompress`, which decodes into a buffer of `room` bytes and cuts it
/// down to what was written. Claimed of it: the outcome, but for which error it is, depends on
/// the arguments alone, and what is decoded fits into the buffer.
#[verifier::external_body]
pub(crate) fn decompress(block: &[u8], room: usize) -> (r: Result<Vec<u8>, DecompressError>)
    requires
        room <= isize::MAX,
    ensures
        r matches Ok(data) ==> lz4_decoded(block@, room as nat) == Some(data@) && data@.len()
            <= room,
        r is Err ==> lz4_decoded(block@, room as nat) is None,
{
    lz4_flex::block::decompress(block, room)
}

} // verus!
