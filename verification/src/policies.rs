//! The protection layers.
//!
//! A layer sees the buffer it is handed as data followed by metadata: the
//! further copies, the parity bytes or the nonce.

use vstd::prelude::*;
use vstd::arithmetic::div_mod::{
    lemma_fundamental_div_mod, lemma_fundamental_div_mod_converse, lemma_small_mod,
};
use crate::cipher::{aes128_ctr_keystream, apply_keystream, xor_bytes, KEY, NONCE, NONCE_LEN};
use crate::codec::{
    rs_correct, rs_corrupted, rs_decoded, rs_encode, rs_is_corrupted, rs_parity, RS_BLOCK_MAX,
    RS_PARITY_MAX,
};
use crate::vote::{
    column, correct_bits_redundant, lemma_cell, lemma_copies_len, lemma_errors_bound,
    lemma_position, vote_errors, vote_errors_below, voted, voted_at,
};
use crate::walk::same_kind;

pub use crate::block::AllocBlock;

verus! {

/// The number of slots in a block's stack of layers.
pub const MAX_POLICIES: usize = 3;

/// One protection layer.
#[derive(Copy, Clone, Debug, PartialEq, Eq, Structural)]
pub enum Policy {
    /// No layer.
    Nil,
    /// Copies of the data side by side; the number counts the first copy
    /// too.
    Redundancy(u32),
    /// Reed-Solomon parity behind the data; the number is the parity's
    /// length in bytes.
    ReedSolomon(u32),
    /// AES-128-CTR over the data, with the nonce behind it.
    Encrypted,
}

/// `n` copies of `data`, one behind the other.
pub open spec fn copies(data: Seq<u8>, n: nat) -> Seq<u8> {
    Seq::new(n * data.len(), |p: int| data[p % (data.len() as int)])
}

/// The buffer that `n` copies of `data` make starts with `data`, and is
/// consistent in the eyes of the redundancy layer.
pub proof fn lemma_copies_clean(data: Seq<u8>, n: u32)
    requires
        n >= 1,
    ensures
        copies(data, n as nat).len() == n * data.len(),
        Policy::Redundancy(n).data_len(copies(data, n as nat).len()) == data.len(),
        copies(data, n as nat).subrange(0, data.len() as int) == data,
        !Policy::Redundancy(n).corrupted(copies(data, n as nat)),
        Policy::Redundancy(n).applied(copies(data, n as nat)) == copies(data, n as nat),
{
    let all = copies(data, n as nat);
    let d = data.len();
    assert((n * d) as nat / (n as nat) == d && n * d >= d) by (nonlinear_arith)
        requires
            n >= 1,
    ;
    assert forall|p: int| 0 <= p < d implies all[p] == data[p] by {
        lemma_small_mod(p as nat, d);
    }
    assert(all.subrange(0, d as int) =~= data);
}

/// Stepping a position by one steps its remainder by one, around the
/// divisor.
pub proof fn lemma_mod_step(p: int, d: int)
    requires
        0 <= p,
        0 < d,
    ensures
        (p + 1) % d == if p % d + 1 == d {
            0
        } else {
            p % d + 1
        },
{
    lemma_fundamental_div_mod(p, d);
    if p % d + 1 == d {
        assert(p + 1 == (p / d + 1) * d + 0) by (nonlinear_arith)
            requires
                p == d * (p / d) + p % d,
                p % d + 1 == d,
        ;
        lemma_fundamental_div_mod_converse(p + 1, d, p / d + 1, 0);
    } else {
        assert(p + 1 == (p / d) * d + (p % d + 1)) by (nonlinear_arith)
            requires
                p == d * (p / d) + p % d,
        ;
        lemma_fundamental_div_mod_converse(p + 1, d, p / d, p % d + 1);
    }
}

/// Copies `src` over `dst`.
pub fn copy_into(dst: &mut [u8], src: &[u8])
    requires
        old(dst)@.len() == src@.len(),
    ensures
        final(dst)@ == src@,
{
    let len = dst.len();
    let mut i: usize = 0;
    while i < len
        invariant
            i <= len,
            len == dst@.len(),
            dst@.len() == src@.len(),
            forall|j: int| 0 <= j < i ==> dst@[j] == src@[j],
        decreases len - i,
    {
        dst[i] = src[i];
        i += 1;
    }
    assert(dst@ =~= src@);
}

impl Policy {
    /// The length of the data part of a buffer of `len` bytes.
    pub open spec fn data_len(self, len: nat) -> nat {
        match self {
            Policy::Redundancy(n) => len / (n as nat),
            Policy::ReedSolomon(k) => (len - k) as nat,
            Policy::Encrypted => (len - NONCE_LEN) as nat,
            Policy::Nil => (len - 1) as nat,
        }
    }

    /// Whether the layer's number makes sense: a redundancy layer keeps at
    /// least one copy.
    pub open spec fn well_formed(self) -> bool {
        match self {
            Policy::Redundancy(n) => n >= 1,
            _ => true,
        }
    }

    /// Whether a buffer of `len` bytes can be split into data and
    /// metadata: the copies divide it evenly, or it is longer than the
    /// parity or the nonce.
    pub open spec fn splits(self, len: nat) -> bool {
        match self {
            Policy::Redundancy(n) => n >= 1 && len % (n as nat) == 0,
            Policy::ReedSolomon(k) => len > k,
            Policy::Encrypted => len > NONCE_LEN,
            Policy::Nil => len >= 1,
        }
    }

    /// Whether the layer can repair a buffer of `len` bytes: a vote must
    /// be able to split the buffer and to count four errors for each of
    /// its bytes, and the codec must be able to take the block and the
    /// parity.  The other layers repair nothing.
    pub open spec fn checks(self, len: nat) -> bool {
        match self {
            Policy::Redundancy(_) => self.splits(len) && 4 * len <= u32::MAX,
            Policy::ReedSolomon(k) => self.splits(len) && len <= RS_BLOCK_MAX && k
                <= RS_PARITY_MAX,
            _ => true,
        }
    }

    /// The largest number of errors that the layer can report for a
    /// buffer of `len` bytes: half of the copies for each bit of a copy,
    /// or half of the parity.
    pub open spec fn most_errors(self, len: nat) -> nat {
        match self {
            Policy::Redundancy(_) => 4 * len,
            Policy::ReedSolomon(k) => (k / 2) as nat,
            _ => 0,
        }
    }

    /// Whether the layer can encode a buffer of `len` bytes: it must be
    /// able to split the buffer, and the codec must be able to take the
    /// block.  No layer encodes nothing.
    pub open spec fn encodes(self, len: nat) -> bool {
        match self {
            Policy::ReedSolomon(_) => self.splits(len) && len <= RS_BLOCK_MAX,
            Policy::Nil => true,
            _ => self.splits(len),
        }
    }

    /// The buffer after the layer has made its metadata fit its data: the
    /// copies rewritten, the parity computed, or the data encrypted under
    /// the fixed key and nonce and the nonce stored.
    pub open spec fn applied(self, b: Seq<u8>) -> Seq<u8> {
        let data = b.subrange(0, self.data_len(b.len()) as int);
        match self {
            Policy::Redundancy(n) => copies(data, n as nat),
            Policy::ReedSolomon(k) => data + rs_parity(k as nat, data),
            Policy::Encrypted => xor_bytes(data, aes128_ctr_keystream(KEY@, NONCE@, data.len()))
                + NONCE@,
            Policy::Nil => b,
        }
    }

    /// Whether the layer finds the buffer inconsistent: some copy differs
    /// from the first, or the codec's check fails.  Encryption has nothing
    /// to check.
    pub open spec fn corrupted(self, b: Seq<u8>) -> bool {
        match self {
            Policy::Redundancy(n) => b != copies(b.subrange(0, self.data_len(b.len()) as int), n as nat),
            Policy::ReedSolomon(k) => rs_corrupted(k as nat, b),
            _ => false,
        }
    }

    /// The buffer after the layer's repair, and the number of errors it
    /// reports: bits on the losing sides of the votes, or bytes that the
    /// codec changed.  Where the codec gives up, the buffer stays as it is
    /// and nothing is reported.
    pub open spec fn corrected(self, b: Seq<u8>) -> (Seq<u8>, nat) {
        match self {
            Policy::Redundancy(n) => (voted(b, n as nat), vote_errors(b, n as nat)),
            Policy::ReedSolomon(k) => match rs_decoded(k as nat, b) {
                Some(repaired) => repaired,
                None => (b, 0nat),
            },
            _ => (b, 0nat),
        }
    }

    /// Whether this is a redundancy layer.
    pub fn is_red(&self) -> (b: bool)
        ensures
            b == (*self is Redundancy),
    {
        match self {
            Policy::Redundancy(..) => true,
            _ => false,
        }
    }

    /// Whether this is a parity layer.
    pub fn is_rs(&self) -> (b: bool)
        ensures
            b == (*self is ReedSolomon),
    {
        match self {
            Policy::ReedSolomon(..) => true,
            _ => false,
        }
    }

    /// Whether this is an encryption layer.
    pub fn is_crypt(&self) -> (b: bool)
        ensures
            b == (*self is Encrypted),
    {
        match self {
            Policy::Encrypted => true,
            _ => false,
        }
    }

    /// The length of the data part, computed.
    pub fn split_point(&self, len: usize) -> (data_len: usize)
        requires
            self.splits(len as nat),
        ensures
            data_len == self.data_len(len as nat),
            data_len <= len,
    {
        match self {
            Policy::Redundancy(n_copies) => {
                let n = *n_copies as usize;
                proof {
                    lemma_copies_len(len as int, n as int);
                    assert(len / n <= len) by (nonlinear_arith)
                        requires
                            n >= 1,
                            len == n * (len / n),
                            len / n >= 0,
                    ;
                }
                len / n
            },
            Policy::ReedSolomon(n_ecc) => len - (*n_ecc as usize),
            Policy::Encrypted => len - NONCE_LEN,
            Policy::Nil => len - 1,
        }
    }

    /// Splits a buffer into its data and its metadata, both writable.
    pub fn split_buffer_mut<'a>(&self, buffer: &'a mut [u8]) -> (parts: (&'a mut [u8], &'a mut [u8]))
        requires
            self.splits(old(buffer)@.len()),
        ensures
            parts.0@ == old(buffer)@.subrange(0, self.data_len(old(buffer)@.len()) as int),
            parts.1@ == old(buffer)@.subrange(
                self.data_len(old(buffer)@.len()) as int,
                old(buffer)@.len() as int,
            ),
            final(buffer)@ == final(parts.0)@ + final(parts.1)@,
    {
        let data_len = self.split_point(buffer.len());
        buffer.split_at_mut(data_len)
    }

    /// Splits a buffer into its data and its metadata.
    pub fn split_buffer<'a>(&self, buffer: &'a [u8]) -> (parts: (&'a [u8], &'a [u8]))
        requires
            self.splits(buffer@.len()),
        ensures
            parts.0@ == buffer@.subrange(0, self.data_len(buffer@.len()) as int),
            parts.1@ == buffer@.subrange(self.data_len(buffer@.len()) as int, buffer@.len() as int),
    {
        let data_len = self.split_point(buffer.len());
        buffer.split_at(data_len)
    }

    /// The data part of a buffer, writable; the metadata stays as it is.
    pub fn get_data_mut<'a>(&self, buffer: &'a mut [u8]) -> (data: &'a mut [u8])
        requires
            self.splits(old(buffer)@.len()),
        ensures
            data@ == old(buffer)@.subrange(0, self.data_len(old(buffer)@.len()) as int),
            final(buffer)@ == final(data)@ + old(buffer)@.subrange(
                self.data_len(old(buffer)@.len()) as int,
                old(buffer)@.len() as int,
            ),
    {
        let (data, _) = self.split_buffer_mut(buffer);
        data
    }

    /// The data part of a buffer.
    pub fn get_data<'a>(&self, buffer: &'a [u8]) -> (data: &'a [u8])
        requires
            self.splits(buffer@.len()),
        ensures
            data@ == buffer@.subrange(0, self.data_len(buffer@.len()) as int),
    {
        let (data, _) = self.split_buffer(buffer);
        data
    }
}

/// The votes on the indices below `m` report at most four errors for each
/// byte they cover.
pub proof fn lemma_vote_errors_bound(b: Seq<u8>, n: nat, m: nat)
    ensures
        vote_errors_below(b, n, m) <= 4 * n * m,
    decreases m,
{
    if m > 0 {
        lemma_vote_errors_bound(b, n, (m - 1) as nat);
        lemma_errors_bound(column(b, n, (m - 1) as nat), 8);
        assert(4 * n * m == 4 * n * (m - 1) + 4 * n) by (nonlinear_arith);
    }
}

impl Policy {
    /// Whether the buffer is inconsistent in this layer's eyes.
    pub fn is_corrupted(&self, buffer: &[u8]) -> (bad: bool)
        requires
            self.splits(buffer@.len()),
        ensures
            bad == self.corrupted(buffer@),
    {
        match self {
            Policy::Redundancy(n_copies) => {
                let len = buffer.len();
                let data_len = self.split_point(len);
                let ghost want = copies(buffer@.subrange(0, data_len as int), *n_copies as nat);
                proof {
                    lemma_copies_len(len as int, *n_copies as int);
                    assert forall|p: int| 0 <= p < data_len implies buffer@[p] == want[p] by {
                        lemma_small_mod(p as nat, data_len as nat);
                    }
                    if data_len > 0 {
                        lemma_mod_step(data_len - 1, data_len as int);
                        lemma_small_mod((data_len - 1) as nat, data_len as nat);
                    }
                }
                let mut at: usize = data_len;
                let mut from: usize = 0;
                while at < len
                    invariant
                        data_len <= at <= len,
                        len == buffer@.len(),
                        len == *n_copies * data_len,
                        *self == Policy::Redundancy(*n_copies),
                        data_len == self.data_len(len as nat),
                        data_len > 0 ==> from == at % data_len,
                        from < data_len || data_len == 0,
                        want == copies(buffer@.subrange(0, data_len as int), *n_copies as nat),
                        forall|p: int| 0 <= p < at ==> buffer@[p] == want[p],
                    decreases len - at,
                {
                    proof {
                        lemma_mod_step(at as int, data_len as int);
                    }
                    if buffer[at] != buffer[from] {
                        assert(buffer@[at as int] != want[at as int]);
                        return true;
                    }
                    from += 1;
                    if from == data_len {
                        from = 0;
                    }
                    at += 1;
                }
                assert(buffer@ =~= want);
                false
            },
            Policy::ReedSolomon(n_ecc) => rs_is_corrupted(*n_ecc as usize, buffer),
            _ => false,
        }
    }

    /// Repairs the buffer as far as this layer can and reports the number
    /// of errors it found.
    pub fn correct_buffer(&self, buffer: &mut [u8]) -> (errors: u32)
        requires
            self.checks(old(buffer)@.len()),
        ensures
            final(buffer)@ == self.corrected(old(buffer)@).0,
            errors == self.corrected(old(buffer)@).1,
            errors <= self.most_errors(old(buffer)@.len()),
    {
        match self {
            Policy::Redundancy(n_copies) => {
                let len = buffer.len();
                let n = *n_copies as usize;
                let data_len = self.split_point(len);
                proof {
                    lemma_copies_len(len as int, n as int);
                }
                let mut errors: u32 = 0;
                let mut index: usize = 0;
                while index < data_len
                    invariant
                        index <= data_len,
                        n >= 1,
                        len == old(buffer)@.len(),
                        len == buffer@.len(),
                        len == n * data_len,
                        len as nat % n as nat == 0,
                        4 * len <= u32::MAX,
                        data_len == len as nat / n as nat,
                        errors == vote_errors_below(old(buffer)@, n as nat, index as nat),
                        forall|p: int|
                            0 <= p < len ==> buffer@[p] == if p % (data_len as int) < index {
                                voted(old(buffer)@, n as nat)[p]
                            } else {
                                old(buffer)@[p]
                            },
                    decreases data_len - index,
                {
                    let ghost prev = buffer@;
                    proof {
                        lemma_vote_errors_bound(old(buffer)@, n as nat, (index + 1) as nat);
                        assert(4 * n * (index + 1) <= 4 * (n * data_len)) by (nonlinear_arith)
                            requires
                                index + 1 <= data_len,
                                n >= 1,
                        ;
                        assert(n <= n * data_len) by (nonlinear_arith)
                            requires
                                data_len >= 1,
                                n >= 1,
                        ;
                        let mine = column(prev, n as nat, index as nat);
                        let first = column(old(buffer)@, n as nat, index as nat);
                        assert forall|c: int| 0 <= c < n implies mine[c] == first[c] by {
                            lemma_cell(n as int, data_len as int, c, index as int);
                        }
                        assert(mine =~= first);
                    }
                    let found = correct_bits_redundant(buffer, n, index);
                    errors += found;
                    proof {
                        assert forall|p: int| 0 <= p < len implies buffer@[p] == if p % (data_len as int)
                            < index + 1 {
                            voted(old(buffer)@, n as nat)[p]
                        } else {
                            old(buffer)@[p]
                        } by {
                            lemma_position(n as int, data_len as int, p);
                            assert(buffer@[p] == voted_at(prev, n as nat, index as nat)[p]);
                        }
                    }
                    index += 1;
                }
                proof {
                    lemma_vote_errors_bound(old(buffer)@, n as nat, data_len as nat);
                    assert(4 * n * data_len == 4 * (n * data_len)) by (nonlinear_arith);
                    assert forall|p: int| 0 <= p < len implies buffer@[p] == voted(
                        old(buffer)@,
                        n as nat,
                    )[p] by {
                        lemma_position(n as int, data_len as int, p);
                    }
                    assert(buffer@ =~= voted(old(buffer)@, n as nat));
                }
                errors
            },
            Policy::ReedSolomon(n_ecc) => {
                let len = buffer.len();
                match rs_correct(*n_ecc as usize, buffer) {
                    Ok((fixed, count)) => {
                        copy_into(buffer, fixed.as_slice());
                        count as u32
                    },
                    Err(_) => 0,
                }
            },
            _ => 0,
        }
    }

    /// Makes the layer's metadata fit the data that the buffer holds.
    pub fn apply_policy(&self, buffer: &mut [u8])
        requires
            self.encodes(old(buffer)@.len()),
        ensures
            final(buffer)@ == self.applied(old(buffer)@),
            final(buffer)@.len() == old(buffer)@.len(),
            !self.corrupted(final(buffer)@),
    {
        match self {
            Policy::Redundancy(n_copies) => {
                let len = buffer.len();
                let data_len = self.split_point(len);
                let ghost want = copies(buffer@.subrange(0, data_len as int), *n_copies as nat);
                proof {
                    lemma_copies_len(len as int, *n_copies as int);
                    assert forall|p: int| 0 <= p < data_len implies buffer@[p] == want[p] by {
                        lemma_small_mod(p as nat, data_len as nat);
                    }
                    if data_len > 0 {
                        lemma_mod_step(data_len - 1, data_len as int);
                        lemma_small_mod((data_len - 1) as nat, data_len as nat);
                    }
                }
                let mut at: usize = data_len;
                let mut from: usize = 0;
                while at < len
                    invariant
                        data_len <= at <= len,
                        len == buffer@.len(),
                        len == old(buffer)@.len(),
                        len == *n_copies * data_len,
                        data_len > 0 ==> from == at % data_len,
                        from < data_len || data_len == 0,
                        want == copies(old(buffer)@.subrange(0, data_len as int), *n_copies as nat),
                        forall|p: int| 0 <= p < data_len ==> buffer@[p] == old(buffer)@[p],
                        forall|p: int| 0 <= p < at ==> buffer@[p] == want[p],
                    decreases len - at,
                {
                    proof {
                        lemma_mod_step(at as int, data_len as int);
                    }
                    let byte = buffer[from];
                    buffer[at] = byte;
                    from += 1;
                    if from == data_len {
                        from = 0;
                    }
                    at += 1;
                }
                assert(buffer@ =~= want);
                proof {
                    lemma_copies_clean(old(buffer)@.subrange(0, data_len as int), *n_copies);
                }
            },
            Policy::ReedSolomon(n_ecc) => {
                let (data, meta) = self.split_buffer_mut(buffer);
                let ecc = rs_encode(*n_ecc as usize, data);
                copy_into(meta, ecc.as_slice());
            },
            Policy::Encrypted => {
                let (data, meta) = self.split_buffer_mut(buffer);
                let key = KEY;
                let nonce = NONCE;
                apply_keystream(key.as_slice(), nonce.as_slice(), data);
                copy_into(meta, nonce.as_slice());
            },
            _ => {},
        }
    }
}

impl Policy {
    /// Whether a buffer of `len` bytes can be split, computed.
    pub fn can_split(&self, len: usize) -> (ok: bool)
        ensures
            ok == self.splits(len as nat),
    {
        match self {
            Policy::Redundancy(n_copies) => *n_copies >= 1 && len % (*n_copies as usize) == 0,
            Policy::ReedSolomon(n_ecc) => len > *n_ecc as usize,
            Policy::Encrypted => len > NONCE_LEN,
            Policy::Nil => len >= 1,
        }
    }

    /// Whether the layer can encode a buffer of `len` bytes, computed.
    pub fn can_encode(&self, len: usize) -> (ok: bool)
        ensures
            ok == self.encodes(len as nat),
    {
        match self {
            Policy::ReedSolomon(_) => self.can_split(len) && len <= RS_BLOCK_MAX,
            Policy::Nil => true,
            _ => self.can_split(len),
        }
    }

    /// Whether the layer can repair a buffer of `len` bytes, computed.
    pub fn can_check(&self, len: usize) -> (ok: bool)
        ensures
            ok == self.checks(len as nat),
    {
        match self {
            Policy::Redundancy(_) => self.can_split(len) && len <= (u32::MAX / 4) as usize,
            Policy::ReedSolomon(n_ecc) => self.can_split(len) && len <= RS_BLOCK_MAX
                && *n_ecc as usize <= RS_PARITY_MAX,
            _ => true,
        }
    }

    /// Whether the layer's number makes sense, computed.
    pub fn is_well_formed(&self) -> (ok: bool)
        ensures
            ok == self.well_formed(),
    {
        match self {
            Policy::Redundancy(n_copies) => *n_copies >= 1,
            _ => true,
        }
    }

    /// Whether two layers are of the same kind, computed.
    pub fn is_kind(&self, kind: &Policy) -> (same: bool)
        ensures
            same == same_kind(*self, *kind),
    {
        match self {
            Policy::Nil => match kind {
                Policy::Nil => true,
                _ => false,
            },
            Policy::Redundancy(_) => kind.is_red(),
            Policy::ReedSolomon(_) => kind.is_rs(),
            Policy::Encrypted => kind.is_crypt(),
        }
    }
}

} // verus!
