//! The Reed-Solomon codec of the `reed_solomon` crate, as far as the block
//! layers use it.  Nothing in this file is proved: each function states
//! what the crate's code does, and the rest of the library builds on that.

use vstd::prelude::*;
use reed_solomon::{Decoder, DecoderError, Encoder};

verus! {

/// The longest block, data and parity together, that the codec handles.
pub const RS_BLOCK_MAX: usize = 255;

/// The longest parity that the decoder handles.  To repair a block it
/// multiplies the syndromes, one byte more than the parity, by a locator
/// of up to half the parity and one byte, in a buffer of 256 bytes.
pub const RS_PARITY_MAX: usize = 170;

/// The codec's error, `reed_solomon::DecoderError`: the decoder gave up.
#[verifier::external_type_specification]
#[verifier::external_body]
pub struct ExDecoderError(DecoderError);

/// The parity bytes that `Encoder::new(ecc_len).encode(data)` appends to
/// `data`.
pub uninterp spec fn rs_parity(ecc_len: nat, data: Seq<u8>) -> Seq<u8>;

/// What `Decoder::new(ecc_len).is_corrupted(block)` answers.
pub uninterp spec fn rs_corrupted(ecc_len: nat, block: Seq<u8>) -> bool;

/// What `Decoder::new(ecc_len).correct_err_count(block, None)` gives for a
/// block that fails the corruption check: the repaired block with the
/// number of bytes it changed, or `None` where it gives up.
pub uninterp spec fn rs_repair(ecc_len: nat, block: Seq<u8>) -> Option<(Seq<u8>, nat)>;

/// What decoding a block gives.  A block that passes the corruption check
/// comes back as it is, with no error counted.  Any other block gets what
/// the repair gives: a block of the same length that passes the check,
/// with a count of at least one byte and at most half the parity, or
/// nothing.
pub open spec fn rs_decoded(ecc_len: nat, block: Seq<u8>) -> Option<(Seq<u8>, nat)> {
    if rs_corrupted(ecc_len, block) {
        match rs_repair(ecc_len, block) {
            Some((fixed, count)) => if rs_repaired(ecc_len, block, fixed, count) {
                Some((fixed, count))
            } else {
                None
            },
            None => None,
        }
    } else {
        Some((block, 0nat))
    }
}

/// What holds of every block that the repair hands back for `block`.
pub open spec fn rs_repaired(ecc_len: nat, block: Seq<u8>, fixed: Seq<u8>, count: nat) -> bool {
    &&& fixed.len() == block.len()
    &&& 1 <= count <= ecc_len / 2
    &&& !rs_corrupted(ecc_len, fixed)
}

/// Calls `Encoder::new(ecc_len).encode(data)` and hands back the parity
/// part of the result.  Claimed of the crate: the parity has `ecc_len`
/// bytes, and the data followed by it passes the decoder's corruption
/// check (the encoder appends the remainder of the division by the
/// generator polynomial, whose roots are the points where the decoder
/// evaluates a block).  The crate's buffers hold 256 bytes and its decoder
/// takes blocks below that, hence the bound on the lengths.
#[verifier::external_body]
pub(crate) fn rs_encode(ecc_len: usize, data: &[u8]) -> (ecc: Vec<u8>)
    requires
        data@.len() + ecc_len <= RS_BLOCK_MAX,
    ensures
        ecc@ == rs_parity(ecc_len as nat, data@),
        ecc@.len() == ecc_len,
        !rs_corrupted(ecc_len as nat, data@ + ecc@),
{
    Encoder::new(ecc_len).encode(data).ecc().to_vec()
}

/// Calls `Decoder::new(ecc_len).is_corrupted(block)`.  The crate reads the
/// first byte of the block, so the block is not empty.
#[verifier::external_body]
pub(crate) fn rs_is_corrupted(ecc_len: usize, block: &[u8]) -> (bad: bool)
    requires
        block@.len() >= 1,
    ensures
        bad == rs_corrupted(ecc_len as nat, block@),
{
    Decoder::new(ecc_len).is_corrupted(block)
}

/// Calls `Decoder::new(ecc_len).correct_err_count(block, None)`.  Claimed
/// of the crate: it computes the same syndromes as the corruption check
/// and, where all are zero, returns the block unchanged with a count of
/// zero; for any other block the outcome is a function of the block.  A
/// block that it returns has the length of the one it was given (the
/// correction is added to it byte by byte) and passes the corruption
/// check (the crate tests that before it returns).  The count is the
/// number of positions it corrected: at most half the parity, as the
/// locator is refused otherwise, and at least one for a block that failed
/// the check, as the block would fail it again unchanged.  The crate
/// asserts that the block is shorter than 256 bytes, subtracts `ecc_len`
/// from its length, and multiplies polynomials of `ecc_len + 1` and of up
/// to `ecc_len / 2 + 1` bytes into a buffer of 256.
#[verifier::external_body]
pub(crate) fn rs_correct(ecc_len: usize, block: &[u8]) -> (res: Result<(Vec<u8>, usize), DecoderError>)
    requires
        ecc_len < block@.len() <= RS_BLOCK_MAX,
        ecc_len <= RS_PARITY_MAX,
    ensures
        match res {
            Ok((fixed, count)) => if rs_corrupted(ecc_len as nat, block@) {
                &&& rs_repair(ecc_len as nat, block@) == Some((fixed@, count as nat))
                &&& rs_repaired(ecc_len as nat, block@, fixed@, count as nat)
            } else {
                fixed@ == block@ && count == 0
            },
            Err(_) => rs_corrupted(ecc_len as nat, block@) && rs_repair(ecc_len as nat, block@) is None,
        },
{
    match Decoder::new(ecc_len).correct_err_count(block, None) {
        Ok((buffer, count)) => Ok((buffer.to_vec(), count)),
        Err(e) => Err(e),
    }
}

} // verus!
