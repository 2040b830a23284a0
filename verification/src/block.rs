//! The protected block: a header and the backing buffer that its stack of
//! layers guards.

use vstd::prelude::*;
use crate::cipher::{
    aes128_ctr_keystream, apply_keystream, lemma_xor_bytes_twice, xor_bytes, KEY, NONCE,
    NONCE_LEN,
};
use crate::policies::{copy_into, lemma_copies_clean, Policy, MAX_POLICIES};
use crate::laws::{
    lemma_consistent_needs_no_repair, lemma_decrypt_then_encrypt, lemma_decrypted_len,
};
use crate::vote::lemma_copies_len;
use crate::walk::{
    applied_walk, check_ok, cipher_sealed, cipher_span, core_len, corrected_chunks,
    corrected_walk, corrupted_walk, decrypted, encrypted, first_of, layout, layout_fits,
    lemma_core_holds_user, lemma_core_len, lemma_data_len, lemma_decrypted_is_opened,
    lemma_encodes_splits, lemma_layout_fits, lemma_layout_grows, lemma_no_cipher,
    lemma_opened_len, lemma_sealed, lemma_splits_checks, most_errors,
    nonce_behind, opened_walk, plain_kept, reaches_cipher, repair_ok, repairs, same_kind,
    span_ok, valid_layout, walk_ok, walk_splits,
};

verus! {

/// A block of protected memory: the stack of layers, the number of bytes
/// that the user asked for, and the backing buffer that holds those bytes
/// under every layer's metadata.
pub struct AllocBlock {
    /// The layers, outermost first.
    policies: [Policy; MAX_POLICIES],
    /// The length of the backing buffer.
    buffer_size: usize,
    /// The number of bytes that the user asked for.
    length: usize,
    /// Whether a reference that does not own the block is held somewhere.
    weak_exists: bool,
    /// The backing buffer.
    buffer: Vec<u8>,
}

/// A block as the contracts speak of it.
pub struct BlockView {
    pub policies: Seq<Policy>,
    pub buffer_size: nat,
    pub length: nat,
    pub weak_exists: bool,
    pub bytes: Seq<u8>,
}

impl View for AllocBlock {
    type V = BlockView;

    closed spec fn view(&self) -> BlockView {
        BlockView {
            policies: self.policies@,
            buffer_size: self.buffer_size as nat,
            length: self.length as nat,
            weak_exists: self.weak_exists,
            bytes: self.buffer@,
        }
    }
}

impl AllocBlock {
    /// The invariant of a block: the backing buffer has the length that
    /// the header records, which is the length that the layout gives for
    /// the user's bytes, and the stack can work on it.
    pub open spec fn wf(&self) -> bool {
        &&& self@.policies.len() == MAX_POLICIES
        &&& self@.bytes.len() == self@.buffer_size
        &&& self@.buffer_size == layout(self@.policies, 0, self@.length)
        &&& valid_layout(self@.policies, self@.length)
    }

    /// Encodes the buffer that slot `index` sees: the inner slots first,
    /// on the data part, then the layer of the slot itself.  What comes
    /// out is consistent to the checking walk, and holds the innermost
    /// data as it was once the encryption is taken off again.  Where no
    /// encryption layer takes part, the innermost data stays as it is and
    /// a second walk changes nothing.
    pub fn apply_policy_helper(
        policies: &[Policy; MAX_POLICIES],
        index: usize,
        full_buffer: &mut [u8],
    )
        requires
            index <= MAX_POLICIES,
            walk_ok(policies@, index as nat, old(full_buffer)@.len()),
        ensures
            final(full_buffer)@ == applied_walk(policies@, index as nat, old(full_buffer)@),
            final(full_buffer)@.len() == old(full_buffer)@.len(),
            !corrupted_walk(policies@, index as nat, final(full_buffer)@),
            !reaches_cipher(policies@, index as nat) ==> applied_walk(
                policies@,
                index as nat,
                final(full_buffer)@,
            ) == final(full_buffer)@,
            !reaches_cipher(policies@, index as nat) ==> final(full_buffer)@.subrange(
                0,
                core_len(policies@, index as nat, old(full_buffer)@.len()) as int,
            ) == old(full_buffer)@.subrange(
                0,
                core_len(policies@, index as nat, old(full_buffer)@.len()) as int,
            ),
            opened_walk(policies@, index as nat, final(full_buffer)@).subrange(
                0,
                core_len(policies@, index as nat, old(full_buffer)@.len()) as int,
            ) == old(full_buffer)@.subrange(
                0,
                core_len(policies@, index as nat, old(full_buffer)@.len()) as int,
            ),
            nonce_behind(policies@, index as nat, final(full_buffer)@),
        decreases MAX_POLICIES - index,
    {
        if index == MAX_POLICIES {
            return ;
        }
        let layer = policies[index];
        match layer {
            Policy::Nil => {
                return ;
            },
            _ => {},
        }
        let ghost ps = policies@;
        let ghost len = full_buffer@.len();
        let ghost d = layer.data_len(len) as int;
        let ghost core = core_len(ps, index as nat, len) as int;
        let ghost meta = full_buffer@.subrange(d, len as int);
        proof {
            lemma_encodes_splits(ps, index as nat, len);
            lemma_data_len(layer, len);
            lemma_core_len(ps, (index + 1) as nat, d as nat);
        }
        let data = layer.get_data_mut(full_buffer);
        Self::apply_policy_helper(policies, index + 1, data);
        let ghost inner = full_buffer@;
        assert(inner.subrange(0, d) =~= applied_walk(
            ps,
            (index + 1) as nat,
            old(full_buffer)@.subrange(0, d),
        ));
        assert(inner.subrange(d, len as int) =~= meta);
        layer.apply_policy(full_buffer);
        proof {
            let done = full_buffer@;
            let kept = inner.subrange(0, d);
            let before = old(full_buffer)@;
            assert(inner =~= kept + meta);
            lemma_opened_len(ps, (index + 1) as nat, kept);
            assert(before.subrange(0, core) =~= before.subrange(0, d).subrange(0, core));
            match layer {
                Policy::Encrypted => {
                    let stream = aes128_ctr_keystream(KEY@, NONCE@, d as nat);
                    lemma_xor_bytes_twice(kept, stream);
                    assert(done.subrange(d, len as int) =~= NONCE@);
                    assert(done.subrange(0, d) =~= xor_bytes(kept, stream));
                },
                _ => {
                    if let Policy::Redundancy(n) = layer {
                        lemma_copies_clean(kept, n);
                    }
                    assert(done.subrange(0, d) =~= kept);
                    assert(done =~= kept + done.subrange(d, len as int));
                    if !reaches_cipher(ps, index as nat) {
                        assert(layer.applied(kept + done.subrange(d, len as int)) == done);
                        assert(done.subrange(0, core) =~= kept.subrange(0, core));
                    }
                },
            }
            assert(opened_walk(ps, index as nat, done).subrange(0, core) =~= opened_walk(
                ps,
                (index + 1) as nat,
                kept,
            ).subrange(0, core));
        }
    }

    /// Whether the buffer that slot `index` sees is inconsistent: in the
    /// data part, to the inner slots, or as a whole, to the layer of the
    /// slot itself.
    pub fn is_corrupted_helper(
        policies: &[Policy; MAX_POLICIES],
        index: usize,
        full_buffer: &[u8],
    ) -> (bad: bool)
        requires
            index <= MAX_POLICIES,
            check_ok(policies@, index as nat, full_buffer@.len()),
        ensures
            bad == corrupted_walk(policies@, index as nat, full_buffer@),
        decreases MAX_POLICIES - index,
    {
        if index == MAX_POLICIES {
            return false;
        }
        let layer = policies[index];
        match layer {
            Policy::Nil | Policy::Encrypted => {
                return false;
            },
            _ => {},
        }
        let inner = Self::is_corrupted_helper(policies, index + 1, layer.get_data(full_buffer));
        inner || layer.is_corrupted(full_buffer)
    }

    /// Repairs the buffer that slot `index` sees and reports the number
    /// of errors found: the inner slots work first, on each copy of a
    /// redundancy layer or on the data of a parity layer, then the layer
    /// of the slot itself.
    pub fn correct_bits_helper(
        policies: &[Policy; MAX_POLICIES],
        index: usize,
        full_buffer: &mut [u8],
    ) -> (count: u32)
        requires
            index <= MAX_POLICIES,
            repair_ok(policies@, index as nat, old(full_buffer)@.len()),
            most_errors(policies@, index as nat, old(full_buffer)@.len()) <= u32::MAX,
        ensures
            final(full_buffer)@ == corrected_walk(policies@, index as nat, old(full_buffer)@).0,
            count == corrected_walk(policies@, index as nat, old(full_buffer)@).1,
            final(full_buffer)@.len() == old(full_buffer)@.len(),
            count <= most_errors(policies@, index as nat, old(full_buffer)@.len()),
        decreases MAX_POLICIES - index,
    {
        if index == MAX_POLICIES {
            return 0;
        }
        let layer = policies[index];
        let len = full_buffer.len();
        let ghost ps = policies@;
        let inner: u32 = match layer {
            Policy::Nil | Policy::Encrypted => {
                return 0;
            },
            Policy::Redundancy(n_copies) => {
                let n = n_copies as usize;
                let data_len = len / n;
                let ghost each = most_errors(ps, (index + 1) as nat, data_len as nat);
                proof {
                    lemma_copies_len(len as int, n as int);
                    assert(each <= n * each) by (nonlinear_arith)
                        requires
                            n >= 1,
                            each >= 0,
                    ;
                }
                let mut total: u32 = 0;
                let mut copy: usize = 0;
                while copy < n
                    invariant
                        copy <= n,
                        index < MAX_POLICIES,
                        ps == policies@,
                        len == n * data_len,
                        len == full_buffer@.len(),
                        repair_ok(ps, (index + 1) as nat, data_len as nat),
                        each == most_errors(ps, (index + 1) as nat, data_len as nat),
                        n * each <= u32::MAX,
                        each <= u32::MAX,
                        full_buffer@ == corrected_chunks(
                            ps,
                            (index + 1) as nat,
                            old(full_buffer)@,
                            data_len as nat,
                            copy as nat,
                        ).0,
                        total == corrected_chunks(
                            ps,
                            (index + 1) as nat,
                            old(full_buffer)@,
                            data_len as nat,
                            copy as nat,
                        ).1,
                        total <= copy * each,
                    decreases n - copy,
                {
                    proof {
                        assert(copy * data_len + data_len <= n * data_len && 0 <= copy * data_len)
                            by (nonlinear_arith)
                            requires
                                copy < n,
                        ;
                        assert(copy * each + each == (copy + 1) * each && (copy + 1) * each <= n
                            * each) by (nonlinear_arith)
                            requires
                                copy < n,
                                each >= 0,
                        ;
                    }
                    let start = copy * data_len;
                    let ghost before = full_buffer@;
                    let (_, rest) = full_buffer.split_at_mut(start);
                    let (chunk, _) = rest.split_at_mut(data_len);
                    assert(chunk@ =~= before.subrange(start as int, start + data_len));
                    let found = Self::correct_bits_helper(policies, index + 1, chunk);
                    total += found;
                    proof {
                        let one = corrected_walk(
                            ps,
                            (index + 1) as nat,
                            before.subrange(start as int, start + data_len),
                        );
                        assert(full_buffer@ =~= before.subrange(0, start as int) + one.0
                            + before.subrange(start + data_len, before.len() as int));
                    }
                    copy += 1;
                }
                total
            },
            _ => {
                proof {
                    lemma_data_len(layer, len as nat);
                }
                let data = layer.get_data_mut(full_buffer);
                Self::correct_bits_helper(policies, index + 1, data)
            },
        };
        let outer = layer.correct_buffer(full_buffer);
        inner + outer
    }
}

/// `len` zero bytes.
pub open spec fn zeros(len: nat) -> Seq<u8> {
    Seq::new(len, |i: int| 0u8)
}

/// `b` cut or filled with zero bytes to `len` bytes.
pub open spec fn refit(b: Seq<u8>, len: nat) -> Seq<u8> {
    if len <= b.len() {
        b.subrange(0, len as int)
    } else {
        b + zeros((len - b.len()) as nat)
    }
}

impl AllocBlock {
    /// The length of the backing buffer for `desired_size` bytes under the
    /// given stack, or `None` where a length on the way does not fit the
    /// machine's word.
    pub fn checked_size_of(
        desired_size: usize,
        policies: &[Policy; MAX_POLICIES],
    ) -> (size: Option<usize>)
        ensures
            size == if layout_fits(policies@, 0, desired_size as nat) {
                Some(layout(policies@, 0, desired_size as nat) as usize)
            } else {
                None
            },
    {
        let ghost ps = policies@;
        let mut buffer_size = desired_size;
        let mut i: usize = MAX_POLICIES;
        while i > 0
            invariant
                i <= MAX_POLICIES,
                ps == policies@,
                ps.len() == MAX_POLICIES,
                layout_fits(ps, i as nat, desired_size as nat),
                buffer_size == layout(ps, i as nat, desired_size as nat),
            decreases i,
        {
            i -= 1;
            let next = match policies[i] {
                Policy::Redundancy(num_copies) => buffer_size.checked_mul(num_copies as usize),
                Policy::ReedSolomon(n_ecc) => buffer_size.checked_add(n_ecc as usize),
                Policy::Encrypted => buffer_size.checked_add(NONCE_LEN),
                Policy::Nil => Some(buffer_size),
            };
            match next {
                Some(grown) => {
                    buffer_size = grown;
                },
                None => {
                    proof {
                        if layout_fits(ps, 0, desired_size as nat) {
                            lemma_layout_fits(ps, 0, i as nat, desired_size as nat);
                        }
                    }
                    return None;
                },
            }
        }
        Some(buffer_size)
    }

    /// The length of the backing buffer for `desired_size` bytes under the
    /// given stack: the last slot grows the length first, slot 0 last.
    pub fn size_of(desired_size: usize, policies: &[Policy; MAX_POLICIES]) -> (size: usize)
        requires
            layout_fits(policies@, 0, desired_size as nat),
        ensures
            size == layout(policies@, 0, desired_size as nat),
    {
        match Self::checked_size_of(desired_size, policies) {
            Some(size) => size,
            None => 0,
        }
    }

    /// The first layer of the stack that is of the same kind as `kind`.
    pub fn find_first(policies: &[Policy; MAX_POLICIES], kind: Policy) -> (found: Option<Policy>)
        ensures
            found == first_of(policies@, kind, 0),
            found matches Some(layer) ==> same_kind(layer, kind),
    {
        let mut i: usize = 0;
        while i < MAX_POLICIES
            invariant
                i <= MAX_POLICIES,
                policies@.len() == MAX_POLICIES,
                first_of(policies@, kind, 0) == first_of(policies@, kind, i as nat),
            decreases MAX_POLICIES - i,
        {
            if policies[i].is_kind(&kind) {
                return Some(policies[i]);
            }
            i += 1;
        }
        None
    }

    /// Whether the walk from slot `index` can encode a buffer of `len`
    /// bytes at every layer it meets.
    pub fn walk_fits(policies: &[Policy; MAX_POLICIES], index: usize, len: usize) -> (ok: bool)
        requires
            index <= MAX_POLICIES,
        ensures
            ok == walk_ok(policies@, index as nat, len as nat),
        decreases MAX_POLICIES - index,
    {
        if index == MAX_POLICIES {
            return true;
        }
        let layer = policies[index];
        match layer {
            Policy::Nil => true,
            _ => {
                if layer.can_encode(len) {
                    Self::walk_fits(policies, index + 1, layer.split_point(len))
                } else {
                    false
                }
            },
        }
    }

    /// Whether the walk from slot `index` can split a buffer of `len`
    /// bytes at every layer it meets.
    pub fn splits_fit(policies: &[Policy; MAX_POLICIES], index: usize, len: usize) -> (ok: bool)
        requires
            index <= MAX_POLICIES,
        ensures
            ok == walk_splits(policies@, index as nat, len as nat),
        decreases MAX_POLICIES - index,
    {
        if index == MAX_POLICIES {
            return true;
        }
        let layer = policies[index];
        match layer {
            Policy::Nil => true,
            _ => {
                if layer.can_split(len) {
                    Self::splits_fit(policies, index + 1, layer.split_point(len))
                } else {
                    false
                }
            },
        }
    }

    /// The largest number of errors that the repairing walk from slot
    /// `index` can report for a buffer of `len` bytes, or `None` where the
    /// walk cannot repair such a buffer at every layer it meets or the
    /// number does not fit 32 bits.
    pub fn repair_fits(policies: &[Policy; MAX_POLICIES], index: usize, len: usize) -> (most:
        Option<u32>)
        requires
            index <= MAX_POLICIES,
        ensures
            most is Some == (repair_ok(policies@, index as nat, len as nat) && most_errors(
                policies@,
                index as nat,
                len as nat,
            ) <= u32::MAX),
            most matches Some(count) ==> count == most_errors(
                policies@,
                index as nat,
                len as nat,
            ),
        decreases MAX_POLICIES - index,
    {
        if index == MAX_POLICIES {
            return Some(0);
        }
        let layer = policies[index];
        match layer {
            Policy::Nil | Policy::Encrypted => Some(0),
            Policy::Redundancy(n_copies) => {
                if !layer.can_check(len) {
                    return None;
                }
                let ghost each = most_errors(
                    policies@,
                    (index + 1) as nat,
                    layer.data_len(len as nat),
                );
                proof {
                    assert(each <= n_copies * each) by (nonlinear_arith)
                        requires
                            n_copies >= 1,
                            each >= 0,
                    ;
                }
                let inner = match Self::repair_fits(policies, index + 1, layer.split_point(len)) {
                    Some(count) => count,
                    None => {
                        return None;
                    },
                };
                let own = (4 * len) as u32;
                match n_copies.checked_mul(inner) {
                    Some(all) => all.checked_add(own),
                    None => None,
                }
            },
            Policy::ReedSolomon(n_ecc) => {
                if !layer.can_check(len) {
                    return None;
                }
                match Self::repair_fits(policies, index + 1, layer.split_point(len)) {
                    Some(count) => count.checked_add(n_ecc / 2),
                    None => None,
                }
            },
        }
    }

    /// Whether the cipher's span can be found in a backing buffer of `len`
    /// bytes.
    pub fn span_fits(policies: &[Policy; MAX_POLICIES], len: usize) -> (ok: bool)
        ensures
            ok == span_ok(policies@, len as nat),
    {
        let mut rest = len;
        match Self::find_first(policies, Policy::Redundancy(0)) {
            Some(layer) => {
                if !layer.can_split(rest) {
                    return false;
                }
                rest = layer.split_point(rest);
            },
            None => {},
        }
        match Self::find_first(policies, Policy::ReedSolomon(0)) {
            Some(layer) => {
                if !layer.can_split(rest) {
                    return false;
                }
                rest = layer.split_point(rest);
            },
            None => {},
        }
        match Self::find_first(policies, Policy::Encrypted) {
            Some(layer) => layer.can_split(rest),
            None => true,
        }
    }

    /// The length of the prefix of a backing buffer of `len` bytes that
    /// the cipher works on.
    pub fn span_of(policies: &[Policy; MAX_POLICIES], len: usize) -> (span: usize)
        requires
            span_ok(policies@, len as nat),
        ensures
            span == cipher_span(policies@, len as nat),
            span <= len,
    {
        let mut rest = len;
        match Self::find_first(policies, Policy::Redundancy(0)) {
            Some(layer) => {
                rest = layer.split_point(rest);
            },
            None => {},
        }
        match Self::find_first(policies, Policy::ReedSolomon(0)) {
            Some(layer) => {
                rest = layer.split_point(rest);
            },
            None => {},
        }
        rest
    }

    /// Whether a block of `size` user bytes under the given stack can be
    /// made.
    pub fn can_hold(size: usize, policies: &[Policy; MAX_POLICIES]) -> (ok: bool)
        ensures
            ok == valid_layout(policies@, size as nat),
    {
        let mut i: usize = 0;
        while i < MAX_POLICIES
            invariant
                i <= MAX_POLICIES,
                policies@.len() == MAX_POLICIES,
                forall|j: int| 0 <= j < i ==> (#[trigger] policies@[j]).well_formed(),
            decreases MAX_POLICIES - i,
        {
            if !policies[i].is_well_formed() {
                return false;
            }
            i += 1;
        }
        match Self::checked_size_of(size, policies) {
            Some(total) => Self::splits_fit(policies, 0, total) && Self::span_fits(
                policies,
                total,
            ),
            None => false,
        }
    }

    /// Encrypts the cipher's span of a backing buffer under the fixed key
    /// and nonce and stores the nonce at the span's end.  A stack without
    /// an encryption layer leaves the buffer as it is.
    pub fn encrypt_span(policies: &[Policy; MAX_POLICIES], buffer: &mut [u8])
        requires
            span_ok(policies@, old(buffer)@.len()),
        ensures
            final(buffer)@ == encrypted(policies@, old(buffer)@),
            final(buffer)@.len() == old(buffer)@.len(),
    {
        match Self::find_first(policies, Policy::Encrypted) {
            Some(layer) => {
                let span = Self::span_of(policies, buffer.len());
                let (inner, _) = buffer.split_at_mut(span);
                layer.apply_policy(inner);
            },
            None => {},
        }
    }

    /// Decrypts the data of the cipher's span of a backing buffer under
    /// the fixed key and the nonce stored at the span's end.  A stack
    /// without an encryption layer leaves the buffer as it is.
    pub fn decrypt_span(policies: &[Policy; MAX_POLICIES], buffer: &mut [u8])
        requires
            span_ok(policies@, old(buffer)@.len()),
        ensures
            final(buffer)@ == decrypted(policies@, old(buffer)@),
            final(buffer)@.len() == old(buffer)@.len(),
    {
        match Self::find_first(policies, Policy::Encrypted) {
            Some(layer) => {
                let span = Self::span_of(policies, buffer.len());
                let (inner, _) = buffer.split_at_mut(span);
                let (ciphertext, nonce) = layer.split_buffer_mut(inner);
                let key = KEY;
                apply_keystream(key.as_slice(), nonce, ciphertext);
                proof {
                    let d = span - NONCE_LEN;
                    let b = old(buffer)@;
                    assert(b.subrange(0, span as int).subrange(0, d) =~= b.subrange(0, d));
                    assert(b.subrange(0, span as int).subrange(d, span as int) =~= b.subrange(
                        d,
                        span as int,
                    ));
                    assert(b.subrange(d, span as int) + b.subrange(span as int, b.len() as int)
                        =~= b.subrange(d, b.len() as int));
                }
            },
            None => {},
        }
    }
}

impl AllocBlock {
    /// Whether two blocks agree in everything but the bytes they hold.
    pub open spec fn same_header(a: BlockView, b: BlockView) -> bool {
        &&& a.policies == b.policies
        &&& a.buffer_size == b.buffer_size
        &&& a.length == b.length
        &&& a.weak_exists == b.weak_exists
    }

    /// Whether the block is consistent: the check finds nothing, and a
    /// repair changes nothing and reports nothing.
    pub open spec fn clean(v: BlockView) -> bool {
        &&& !corrupted_walk(v.policies, 0, v.bytes)
        &&& corrected_walk(v.policies, 0, v.bytes) == (v.bytes, 0nat)
    }

    /// Whether `after` is `before` encoded: the bytes are those of the
    /// encoding walk and the block is consistent.  Where the stack keeps
    /// what is written, the user's bytes are found again once the block
    /// is decrypted, and the cipher's span ends with the fixed nonce.
    /// Where no encryption layer takes part, the user's bytes stay as
    /// they are and a second encoding changes nothing.
    pub open spec fn encoded(before: BlockView, after: BlockView) -> bool {
        let ps = before.policies;
        let length = before.length as int;
        &&& Self::same_header(after, before)
        &&& after.bytes == applied_walk(ps, 0, before.bytes)
        &&& Self::clean(after)
        &&& !reaches_cipher(ps, 0) ==> applied_walk(ps, 0, after.bytes) == after.bytes
        &&& !reaches_cipher(ps, 0) ==> after.bytes.subrange(0, length) == before.bytes.subrange(
            0,
            length,
        )
        &&& plain_kept(ps) ==> decrypted(ps, after.bytes).subrange(0, length)
            == before.bytes.subrange(0, length)
        &&& plain_kept(ps) ==> cipher_sealed(ps, after.bytes)
    }

    /// Whether `after` is `before` with `src` written at `offset`: the
    /// bytes are those of the encoding walk over the decrypted block with
    /// `src` put in, and the block is consistent.  Where the stack keeps
    /// what is written, the user's bytes, once the block is decrypted, are
    /// the decrypted bytes of before with `src` put in, and the cipher's
    /// span ends with the fixed nonce.
    pub open spec fn wrote(before: BlockView, after: BlockView, offset: int, src: Seq<u8>) -> bool {
        let ps = before.policies;
        let length = before.length as int;
        let given = written(decrypted(ps, before.bytes), offset, src);
        &&& Self::same_header(after, before)
        &&& after.bytes == applied_walk(ps, 0, given)
        &&& Self::clean(after)
        &&& plain_kept(ps) ==> decrypted(ps, after.bytes).subrange(0, length) == given.subrange(
            0,
            length,
        )
        &&& plain_kept(ps) ==> cipher_sealed(ps, after.bytes)
    }

    /// Whether the block's stack can encode its backing buffer.
    pub open spec fn encodable(&self) -> bool {
        walk_ok(self@.policies, 0, self@.buffer_size)
    }

    /// Whether the block's stack can repair its backing buffer and count
    /// the errors in 32 bits.
    pub open spec fn repairable(&self) -> bool {
        repairs(self@.policies, self@.buffer_size)
    }

    /// Makes a block for `size` bytes under the given stack.  The backing
    /// buffer starts as zero bytes; with `zeroed` it is encoded at once,
    /// so that the block is consistent before the first write.
    pub fn new(size: usize, policies: &[Policy; MAX_POLICIES], zeroed: bool) -> (block: AllocBlock)
        requires
            valid_layout(policies@, size as nat),
            zeroed ==> walk_ok(policies@, 0, layout(policies@, 0, size as nat)),
        ensures
            block.wf(),
            block@.policies == policies@,
            block@.length == size,
            block@.buffer_size == layout(policies@, 0, size as nat),
            !block@.weak_exists,
            block@.bytes == if zeroed {
                applied_walk(policies@, 0, zeros(block@.buffer_size))
            } else {
                zeros(block@.buffer_size)
            },
            zeroed ==> Self::clean(block@),
    {
        let buffer_size: usize = Self::size_of(size, policies);
        let mut block = AllocBlock {
            policies: *policies,
            buffer_size,
            length: size,
            weak_exists: false,
            buffer: vec![0u8; buffer_size],
        };
        assert(block.buffer@ =~= zeros(buffer_size as nat));
        if zeroed {
            block.apply_policy();
        }
        block
    }

    /// Makes a block as `new` does where the stack can guard `size` bytes
    /// and, for a block that is to be encoded, can encode its backing
    /// buffer; `None` where it cannot.
    pub fn try_new(
        size: usize,
        policies: &[Policy; MAX_POLICIES],
        zeroed: bool,
    ) -> (made: Option<AllocBlock>)
        ensures
            made is Some == (valid_layout(policies@, size as nat) && (zeroed ==> walk_ok(
                policies@,
                0,
                layout(policies@, 0, size as nat),
            ))),
            made matches Some(block) ==> {
                &&& block.wf()
                &&& block@.policies == policies@
                &&& block@.length == size
                &&& block@.buffer_size == layout(policies@, 0, size as nat)
                &&& !block@.weak_exists
                &&& block@.bytes == if zeroed {
                    applied_walk(policies@, 0, zeros(block@.buffer_size))
                } else {
                    zeros(block@.buffer_size)
                }
                &&& zeroed ==> Self::clean(block@)
            },
    {
        if Self::can_hold(size, policies) && (!zeroed || Self::walk_fits(
            policies,
            0,
            Self::size_of(size, policies),
        )) {
            Some(Self::new(size, policies, zeroed))
        } else {
            None
        }
    }

    /// Makes a block of the given parts: `None` where the stack cannot
    /// guard `length` bytes or the buffer has not the length that the
    /// layout gives.
    pub fn from_parts(
        policies: &[Policy; MAX_POLICIES],
        length: usize,
        buffer: Vec<u8>,
    ) -> (made: Option<AllocBlock>)
        ensures
            made is Some == (valid_layout(policies@, length as nat) && buffer@.len() == layout(
                policies@,
                0,
                length as nat,
            )),
            made matches Some(block) ==> {
                &&& block.wf()
                &&& block@.policies == policies@
                &&& block@.length == length
                &&& !block@.weak_exists
                &&& block@.bytes == buffer@
            },
    {
        if Self::can_hold(length, policies) && Self::size_of(length, policies) == buffer.len() {
            let buffer_size = buffer.len();
            Some(AllocBlock { policies: *policies, buffer_size, length, weak_exists: false, buffer })
        } else {
            None
        }
    }

    /// Gives the block a new size and a new stack.  The backing buffer is
    /// cut or filled with zero bytes to its new length and then encoded
    /// under the new stack; what the old stack had written is not decoded
    /// first.
    pub fn renew(
        w: AllocBlock,
        new_size: usize,
        new_policies: &[Policy; MAX_POLICIES],
    ) -> (block: AllocBlock)
        requires
            valid_layout(new_policies@, new_size as nat),
            walk_ok(new_policies@, 0, layout(new_policies@, 0, new_size as nat)),
        ensures
            block.wf(),
            block@.policies == new_policies@,
            block@.length == new_size,
            block@.buffer_size == layout(new_policies@, 0, new_size as nat),
            !block@.weak_exists,
            block@.bytes == applied_walk(new_policies@, 0, refit(w@.bytes, block@.buffer_size)),
            Self::clean(block@),
    {
        let new_buffer_size = Self::size_of(new_size, new_policies);
        let mut block = w;
        block.buffer.resize(new_buffer_size, 0u8);
        assert(block.buffer@ =~= refit(w@.bytes, new_buffer_size as nat));
        block.buffer_size = new_buffer_size;
        block.length = new_size;
        block.policies = *new_policies;
        block.weak_exists = false;
        block.apply_policy();
        block
    }

    /// Gives the block up and tells how many bytes its backing buffer
    /// held.
    pub fn drop(w: AllocBlock) -> (released: usize)
        requires
            w.wf(),
        ensures
            released == w@.buffer_size,
            released == layout(w@.policies, 0, w@.length),
    {
        w.drop_ref()
    }

    /// The length of the backing buffer, computed again from the user's
    /// length and the stack.
    pub fn drop_ref(&self) -> (released: usize)
        requires
            self.wf(),
        ensures
            released == self@.buffer_size,
            released == layout(self@.policies, 0, self@.length),
    {
        Self::size_of(self.length, &self.policies)
    }

    /// The backing buffer.
    pub fn buffer(&self) -> (bytes: &[u8])
        ensures
            bytes@ == self@.bytes,
    {
        self.buffer.as_slice()
    }

    /// The backing buffer, writable.
    pub fn buffer_mut(&mut self) -> (bytes: &mut [u8])
        ensures
            bytes@ == old(self)@.bytes,
            final(self)@ == (BlockView { bytes: final(bytes)@, ..old(self)@ }),
    {
        self.buffer.as_mut_slice()
    }

    /// The backing buffer of a block, writable.
    pub fn data_slice_ffi(w: &mut AllocBlock) -> (bytes: &mut [u8])
        ensures
            bytes@ == old(w)@.bytes,
            final(w)@ == (BlockView { bytes: final(bytes)@, ..old(w)@ }),
    {
        w.buffer_mut()
    }

    /// The bytes that the user asked for, writable: the start of the
    /// backing buffer.
    pub fn data_slice(&mut self) -> (bytes: &mut [u8])
        requires
            old(self).wf(),
        ensures
            bytes@ == old(self)@.bytes.subrange(0, old(self)@.length as int),
            final(self)@ == (BlockView {
                bytes: final(bytes)@ + old(self)@.bytes.subrange(
                    old(self)@.length as int,
                    old(self)@.buffer_size as int,
                ),
                ..old(self)@
            }),
    {
        proof {
            lemma_layout_grows(self@.policies, 0, self@.length);
        }
        let length = self.length;
        let (data, _) = self.buffer.as_mut_slice().split_at_mut(length);
        data
    }

    /// Encodes the backing buffer: every layer's metadata is made to fit
    /// the data below it.
    pub fn apply_policy(&mut self)
        requires
            old(self).wf(),
            old(self).encodable(),
        ensures
            final(self).wf(),
            Self::encoded(old(self)@, final(self)@),
    {
        proof {
            lemma_core_holds_user(self@.policies, 0, self@.length);
            lemma_core_len(self@.policies, 0, self@.buffer_size);
        }
        let ghost core = core_len(self@.policies, 0, self@.buffer_size) as int;
        let ghost before = self@.bytes;
        Self::apply_policy_helper(&self.policies, 0, self.buffer.as_mut_slice());
        proof {
            let ps = self@.policies;
            let after = self@.bytes;
            let length = self@.length as int;
            lemma_splits_checks(ps, 0, after.len());
            lemma_consistent_needs_no_repair(ps, 0, after);
            assert(before.subrange(0, length) =~= before.subrange(0, core).subrange(0, length));
            if !reaches_cipher(ps, 0) {
                assert(after.subrange(0, length) =~= after.subrange(0, core).subrange(0, length));
            }
            if plain_kept(ps) {
                lemma_plain_kept(ps, after);
                lemma_sealed(ps, after);
                lemma_opened_len(ps, 0, after);
                assert(decrypted(ps, after).subrange(0, length) =~= opened_walk(
                    ps,
                    0,
                    after,
                ).subrange(0, core).subrange(0, length));
            }
        }
    }

    /// Encodes the backing buffer of a block, as `apply_policy` does.
    pub fn apply_policy_ffi(w: &mut AllocBlock)
        requires
            old(w).wf(),
            old(w).encodable(),
        ensures
            final(w).wf(),
            Self::encoded(old(w)@, final(w)@),
    {
        w.apply_policy();
    }

    /// Whether the block's stack can encode its backing buffer, computed.
    pub fn can_encode(&self) -> (ok: bool)
        ensures
            ok == self.encodable(),
    {
        Self::walk_fits(&self.policies, 0, self.buffer_size)
    }

    /// Whether the block's stack can repair its backing buffer and count
    /// the errors in 32 bits, computed.
    pub fn can_repair(&self) -> (ok: bool)
        ensures
            ok == self.repairable(),
    {
        Self::repair_fits(&self.policies, 0, self.buffer_size).is_some()
    }

    /// Whether the checking walk finds the backing buffer inconsistent.
    pub fn is_corrupted(&self) -> (bad: bool)
        requires
            self.wf(),
        ensures
            bad == corrupted_walk(self@.policies, 0, self@.bytes),
    {
        proof {
            lemma_splits_checks(self@.policies, 0, self@.buffer_size);
        }
        Self::is_corrupted_helper(&self.policies, 0, self.buffer.as_slice())
    }

    /// Repairs the backing buffer, every layer in its turn, and reports
    /// the number of errors found.
    pub fn correct_buffer(&mut self) -> (errors: u32)
        requires
            old(self).wf(),
            old(self).repairable(),
        ensures
            final(self).wf(),
            Self::same_header(final(self)@, old(self)@),
            final(self)@.bytes == corrected_walk(old(self)@.policies, 0, old(self)@.bytes).0,
            errors == corrected_walk(old(self)@.policies, 0, old(self)@.bytes).1,
            errors <= most_errors(old(self)@.policies, 0, old(self)@.buffer_size),
    {
        Self::correct_bits_helper(&self.policies, 0, self.buffer.as_mut_slice())
    }

    /// Repairs the backing buffer of a block, as `correct_buffer` does.
    pub fn correct_buffer_ffi(w: &mut AllocBlock) -> (errors: u32)
        requires
            old(w).wf(),
            old(w).repairable(),
        ensures
            final(w).wf(),
            Self::same_header(final(w)@, old(w)@),
            final(w)@.bytes == corrected_walk(old(w)@.policies, 0, old(w)@.bytes).0,
            errors == corrected_walk(old(w)@.policies, 0, old(w)@.bytes).1,
            errors <= most_errors(old(w)@.policies, 0, old(w)@.buffer_size),
    {
        w.correct_buffer()
    }

    /// Encrypts the user's bytes in place, below the redundancy and the
    /// parity layer, which it leaves as they are.
    pub fn encrypt_buffer(&mut self)
        requires
            old(self).wf(),
        ensures
            final(self).wf(),
            Self::same_header(final(self)@, old(self)@),
            final(self)@.bytes == encrypted(old(self)@.policies, old(self)@.bytes),
    {
        Self::encrypt_span(&self.policies, self.buffer.as_mut_slice());
    }

    /// Encrypts the user's bytes of a block, as `encrypt_buffer` does.
    pub fn encrypt_buffer_ffi(w: &mut AllocBlock)
        requires
            old(w).wf(),
        ensures
            final(w).wf(),
            Self::same_header(final(w)@, old(w)@),
            final(w)@.bytes == encrypted(old(w)@.policies, old(w)@.bytes),
    {
        w.encrypt_buffer();
    }

    /// Decrypts the user's bytes in place, below the redundancy and the
    /// parity layer, which it leaves as they are.
    pub fn decrypt_buffer(&mut self)
        requires
            old(self).wf(),
        ensures
            final(self).wf(),
            Self::same_header(final(self)@, old(self)@),
            final(self)@.bytes == decrypted(old(self)@.policies, old(self)@.bytes),
    {
        Self::decrypt_span(&self.policies, self.buffer.as_mut_slice());
    }

    /// Decrypts the user's bytes of a block, as `decrypt_buffer` does.
    pub fn decrypt_buffer_ffi(w: &mut AllocBlock)
        requires
            old(w).wf(),
        ensures
            final(w).wf(),
            Self::same_header(final(w)@, old(w)@),
            final(w)@.bytes == decrypted(old(w)@.policies, old(w)@.bytes),
    {
        w.decrypt_buffer();
    }

    /// Whether a reference that does not own the block is held.
    pub fn weak_exists(&self) -> (held: bool)
        ensures
            held == self@.weak_exists,
    {
        self.weak_exists
    }

    /// Records that a reference that does not own the block is held.
    pub fn set_weak_exists(&mut self)
        ensures
            final(self)@ == (BlockView { weak_exists: true, ..old(self)@ }),
    {
        self.weak_exists = true;
    }

    /// Records that no reference that does not own the block is held.
    pub fn reset_weak_exists(&mut self)
        ensures
            final(self)@ == (BlockView { weak_exists: false, ..old(self)@ }),
    {
        self.weak_exists = false;
    }

    /// The stack of layers.
    pub fn policies(&self) -> (policies: [Policy; MAX_POLICIES])
        ensures
            policies@ == self@.policies,
    {
        self.policies
    }

    /// The number of bytes that the user asked for.
    pub fn length(&self) -> (length: usize)
        ensures
            length == self@.length,
    {
        self.length
    }

    /// The length of the backing buffer.
    pub fn buffer_size(&self) -> (size: usize)
        ensures
            size == self@.buffer_size,
    {
        self.buffer_size
    }
}

/// `b` with the bytes from `offset` on replaced by `src`.
pub open spec fn written(b: Seq<u8>, offset: int, src: Seq<u8>) -> Seq<u8> {
    b.subrange(0, offset) + src + b.subrange(offset + src.len(), b.len() as int)
}

/// Decrypting and encrypting again leaves a buffer as it is where the
/// cipher's span ends with the fixed nonce.
pub proof fn lemma_decrypt_then_encrypt_if_sealed(ps: Seq<Policy>, b: Seq<u8>)
    requires
        span_ok(ps, b.len()),
    ensures
        cipher_sealed(ps, b) ==> encrypted(ps, decrypted(ps, b)) == b,
{
    if cipher_sealed(ps, b) {
        lemma_decrypt_then_encrypt(ps, b);
    }
}

/// Under a stack of three slots that keeps what is written, decrypting a
/// buffer is taking off what the encoding walk has put on.
pub proof fn lemma_plain_kept(ps: Seq<Policy>, b: Seq<u8>)
    requires
        ps.len() == MAX_POLICIES,
        plain_kept(ps),
        walk_splits(ps, 0, b.len()),
    ensures
        decrypted(ps, b) == opened_walk(ps, 0, b),
{
    if first_of(ps, Policy::Encrypted, 0) is None {
        lemma_no_cipher(ps, 0, b);
    } else {
        lemma_decrypted_is_opened(ps, b);
    }
}

impl AllocBlock {
    /// Reads `len` bytes at `offset` of a backing buffer into `dest`: the
    /// buffer is repaired and decrypted, the bytes are copied, and the
    /// buffer is encrypted again, which leaves the outer layers as the
    /// repair left them, and the whole buffer where the cipher's span
    /// ended with the fixed nonce.  Reports the number of errors that the
    /// repair found.
    pub fn read_span(
        policies: &[Policy; MAX_POLICIES],
        buffer: &mut [u8],
        dest: &mut [u8],
        offset: usize,
        len: usize,
    ) -> (errors: u32)
        requires
            span_ok(policies@, old(buffer)@.len()),
            repairs(policies@, old(buffer)@.len()),
            offset + len <= old(buffer)@.len(),
            old(dest)@.len() == len,
        ensures
            errors == corrected_walk(policies@, 0, old(buffer)@).1,
            errors <= most_errors(policies@, 0, old(buffer)@.len()),
            final(dest)@ == decrypted(
                policies@,
                corrected_walk(policies@, 0, old(buffer)@).0,
            ).subrange(offset as int, offset + len),
            final(buffer)@ == encrypted(
                policies@,
                decrypted(policies@, corrected_walk(policies@, 0, old(buffer)@).0),
            ),
            final(buffer)@.len() == old(buffer)@.len(),
            cipher_sealed(policies@, corrected_walk(policies@, 0, old(buffer)@).0)
                ==> final(buffer)@ == corrected_walk(policies@, 0, old(buffer)@).0,
    {
        let errors = Self::correct_bits_helper(policies, 0, buffer);
        proof {
            lemma_decrypt_then_encrypt_if_sealed(policies@, buffer@);
        }
        Self::decrypt_span(policies, buffer);
        let ghost plain = buffer@;
        let (_, tail) = buffer.split_at_mut(offset);
        let (src_buf, _) = tail.split_at_mut(len);
        copy_into(dest, src_buf);
        assert(src_buf@ =~= plain.subrange(offset as int, offset + len));
        assert(buffer@ =~= plain);
        Self::encrypt_span(policies, buffer);
        errors
    }

    /// Writes the bytes of `src` at `offset` of a backing buffer: the
    /// buffer is decrypted, the bytes are copied in, and the buffer is
    /// encoded again under every layer.  The buffer is consistent
    /// afterwards.  Where the stack keeps what is written, the innermost
    /// data, once the buffer is decrypted, is the decrypted data of before
    /// with `src` put in, and the cipher's span ends with the fixed nonce.
    pub fn write_span(
        policies: &[Policy; MAX_POLICIES],
        buffer: &mut [u8],
        src: &[u8],
        offset: usize,
    )
        requires
            span_ok(policies@, old(buffer)@.len()),
            walk_ok(policies@, 0, old(buffer)@.len()),
            offset + src@.len() <= old(buffer)@.len(),
        ensures
            final(buffer)@ == applied_walk(
                policies@,
                0,
                written(decrypted(policies@, old(buffer)@), offset as int, src@),
            ),
            final(buffer)@.len() == old(buffer)@.len(),
            !corrupted_walk(policies@, 0, final(buffer)@),
            corrected_walk(policies@, 0, final(buffer)@) == (final(buffer)@, 0nat),
            plain_kept(policies@) ==> decrypted(policies@, final(buffer)@).subrange(
                0,
                core_len(policies@, 0, old(buffer)@.len()) as int,
            ) == written(decrypted(policies@, old(buffer)@), offset as int, src@).subrange(
                0,
                core_len(policies@, 0, old(buffer)@.len()) as int,
            ),
            plain_kept(policies@) ==> cipher_sealed(policies@, final(buffer)@),
    {
        Self::decrypt_span(policies, buffer);
        let ghost plain = buffer@;
        let len = src.len();
        let (_, tail) = buffer.split_at_mut(offset);
        let (dst_buf, _) = tail.split_at_mut(len);
        copy_into(dst_buf, src);
        let ghost given = buffer@;
        assert(given =~= written(plain, offset as int, src@));
        Self::apply_policy_helper(policies, 0, buffer);
        proof {
            let ps = policies@;
            let after = buffer@;
            lemma_encodes_splits(ps, 0, after.len());
            lemma_splits_checks(ps, 0, after.len());
            lemma_consistent_needs_no_repair(ps, 0, after);
            if plain_kept(ps) {
                lemma_sealed(ps, after);
                lemma_plain_kept(ps, after);
            }
        }
    }

    /// Reads `len` bytes at `offset` of the block into `dest`, as
    /// `read_span` does on the backing buffer.
    pub fn read_buf(&mut self, dest: &mut [u8], offset: usize, len: usize) -> (errors: u32)
        requires
            old(self).wf(),
            old(self).repairable(),
            offset + len <= old(self)@.buffer_size,
            old(dest)@.len() == len,
        ensures
            final(self).wf(),
            Self::same_header(final(self)@, old(self)@),
            errors == corrected_walk(old(self)@.policies, 0, old(self)@.bytes).1,
            errors <= most_errors(old(self)@.policies, 0, old(self)@.buffer_size),
            final(dest)@ == decrypted(
                old(self)@.policies,
                corrected_walk(old(self)@.policies, 0, old(self)@.bytes).0,
            ).subrange(offset as int, offset + len),
            final(self)@.bytes == encrypted(
                old(self)@.policies,
                decrypted(
                    old(self)@.policies,
                    corrected_walk(old(self)@.policies, 0, old(self)@.bytes).0,
                ),
            ),
            cipher_sealed(
                old(self)@.policies,
                corrected_walk(old(self)@.policies, 0, old(self)@.bytes).0,
            ) ==> final(self)@.bytes == corrected_walk(old(self)@.policies, 0, old(self)@.bytes).0,
    {
        Self::read_span(&self.policies, self.buffer.as_mut_slice(), dest, offset, len)
    }

    /// Writes the bytes of `src` at `offset` of the block, as `write_span`
    /// does on the backing buffer.
    pub fn write_buf(&mut self, src: &[u8], offset: usize)
        requires
            old(self).wf(),
            old(self).encodable(),
            offset + src@.len() <= old(self)@.buffer_size,
        ensures
            final(self).wf(),
            Self::wrote(old(self)@, final(self)@, offset as int, src@),
    {
        proof {
            lemma_core_holds_user(self@.policies, 0, self@.length);
            lemma_core_len(self@.policies, 0, self@.buffer_size);
            lemma_decrypted_len(self@.policies, self@.bytes);
        }
        let ghost ps = self@.policies;
        let ghost length = self@.length as int;
        let ghost core = core_len(ps, 0, self@.buffer_size) as int;
        let ghost given = written(decrypted(ps, self@.bytes), offset as int, src@);
        Self::write_span(&self.policies, self.buffer.as_mut_slice(), src, offset);
        proof {
            if plain_kept(ps) {
                let after = self@.bytes;
                lemma_decrypted_len(ps, after);
                assert(decrypted(ps, after).subrange(0, length) =~= decrypted(ps, after).subrange(
                    0,
                    core,
                ).subrange(0, length));
                assert(given.subrange(0, length) =~= given.subrange(0, core).subrange(0, length));
            }
        }
    }
}

} // verus!
