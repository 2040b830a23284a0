//! AES-128 in counter mode, from the `aes_ctr` crate, as a keystream that
//! is combined with the data by exclusive or.

use vstd::prelude::*;
use aes_ctr::cipher::generic_array::GenericArray;
use aes_ctr::cipher::stream::{NewStreamCipher, SyncStreamCipher};
use aes_ctr::Aes128Ctr;
use crate::bits::lemma_xor_twice;

verus! {

/// Length of the cipher's key, in bytes.
pub const KEY_LEN: usize = 16;

/// Length of the cipher's nonce, in bytes.
pub const NONCE_LEN: usize = 16;

/// The key of every block: the ASCII text `very secret key.`.  A fixed key
/// hides nothing from whoever knows it; it stands in for key management.
pub const KEY: [u8; 16] = [
    118,
    101,
    114,
    121,
    32,
    115,
    101,
    99,
    114,
    101,
    116,
    32,
    107,
    101,
    121,
    46,
];

/// The nonce that encryption writes beside the data: the ASCII text
/// `and secret nonce`.
pub const NONCE: [u8; 16] = [
    97,
    110,
    100,
    32,
    115,
    101,
    99,
    114,
    101,
    116,
    32,
    110,
    111,
    110,
    99,
    101,
];

/// The first `len` bytes of the keystream that `Aes128Ctr::new(key, nonce)`
/// produces from its start.
pub uninterp spec fn aes128_ctr_keystream(key: Seq<u8>, nonce: Seq<u8>, len: nat) -> Seq<u8>;

/// `a` with each byte combined by exclusive or with the byte of `b` at the
/// same place.
pub open spec fn xor_bytes(a: Seq<u8>, b: Seq<u8>) -> Seq<u8> {
    Seq::new(a.len(), |i: int| a[i] ^ b[i])
}

/// Combining twice with the same bytes gives the first bytes back.
pub proof fn lemma_xor_bytes_twice(a: Seq<u8>, b: Seq<u8>)
    ensures
        xor_bytes(xor_bytes(a, b), b) == a,
{
    assert forall|i: int| 0 <= i < a.len() implies xor_bytes(xor_bytes(a, b), b)[i] == a[i] by {
        lemma_xor_twice(a[i], b[i]);
    }
    assert(xor_bytes(xor_bytes(a, b), b) =~= a);
}

/// Makes a fresh `Aes128Ctr` from `key` and `nonce` and calls its
/// `apply_keystream` on `data`.  Claimed of the crate: a fresh cipher
/// combines each byte of the data by exclusive or with the keystream byte
/// at the same place, and that keystream depends on the key and the nonce
/// alone.  `GenericArray::from_slice` panics on a slice of another length
/// than sixteen.
#[verifier::external_body]
pub(crate) fn apply_keystream(key: &[u8], nonce: &[u8], data: &mut [u8])
    requires
        key@.len() == KEY_LEN,
        nonce@.len() == NONCE_LEN,
    ensures
        final(data)@ == xor_bytes(
            old(data)@,
            aes128_ctr_keystream(key@, nonce@, old(data)@.len()),
        ),
{
    let mut cipher = Aes128Ctr::new(GenericArray::from_slice(key), GenericArray::from_slice(nonce));
    cipher.apply_keystream(data);
}

} // verus!
