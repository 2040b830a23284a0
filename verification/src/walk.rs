//! What a stack of layers does to a buffer, as functions on byte
//! sequences.
//!
//! The slots of a stack nest from the outside in: slot 0 sees the whole
//! backing buffer, and each further slot sees the data part of the slot
//! before it.  A walk over the stack ends at the first empty slot.

use vstd::prelude::*;
use crate::cipher::{aes128_ctr_keystream, xor_bytes, KEY, NONCE, NONCE_LEN};
use crate::policies::Policy;
use crate::vote::lemma_copies_len;

verus! {

impl Policy {
    /// The length of the buffer that the layer needs around `inner` bytes
    /// of data.
    pub open spec fn grown(self, inner: nat) -> nat {
        match self {
            Policy::Redundancy(n) => inner * (n as nat),
            Policy::ReedSolomon(k) => inner + (k as nat),
            Policy::Encrypted => inner + (NONCE_LEN as nat),
            Policy::Nil => inner,
        }
    }
}

/// The length of the buffer that slot `i` sees when the innermost data has
/// `len` bytes: every slot from the last down to `i` has grown it.
pub open spec fn layout(ps: Seq<Policy>, i: nat, len: nat) -> nat
    decreases ps.len() - i,
{
    if i >= ps.len() {
        len
    } else {
        ps[i as int].grown(layout(ps, i + 1, len))
    }
}

/// Whether the buffer lengths of the slots from `i` inwards, and the
/// length of the innermost data, fit the machine's word.
pub open spec fn layout_fits(ps: Seq<Policy>, i: nat, len: nat) -> bool
    decreases ps.len() - i,
{
    if i >= ps.len() {
        len <= usize::MAX
    } else {
        layout_fits(ps, i + 1, len) && layout(ps, i, len) <= usize::MAX
    }
}

/// Whether the encoding walk that starts at slot `i` with a buffer of
/// `len` bytes hands every layer it meets a buffer that the layer can
/// split.
pub open spec fn walk_splits(ps: Seq<Policy>, i: nat, len: nat) -> bool
    decreases ps.len() - i,
{
    if i >= ps.len() || ps[i as int] is Nil {
        true
    } else {
        ps[i as int].splits(len) && walk_splits(ps, i + 1, ps[i as int].data_len(len))
    }
}

/// Whether the encoding walk that starts at slot `i` with a buffer of
/// `len` bytes hands every layer it meets a buffer that the layer can
/// encode.
pub open spec fn walk_ok(ps: Seq<Policy>, i: nat, len: nat) -> bool
    decreases ps.len() - i,
{
    if i >= ps.len() || ps[i as int] is Nil {
        true
    } else {
        ps[i as int].encodes(len) && walk_ok(ps, i + 1, ps[i as int].data_len(len))
    }
}

/// Whether the checking walk that starts at slot `i` with a buffer of
/// `len` bytes hands every layer it meets a buffer that the layer can
/// split.  The walk ends at an encryption layer.
pub open spec fn check_ok(ps: Seq<Policy>, i: nat, len: nat) -> bool
    decreases ps.len() - i,
{
    if i >= ps.len() || ps[i as int] is Nil || ps[i as int] is Encrypted {
        true
    } else {
        ps[i as int].splits(len) && check_ok(ps, i + 1, ps[i as int].data_len(len))
    }
}

/// Whether the repairing walk that starts at slot `i` with a buffer of
/// `len` bytes hands every layer it meets a buffer that the layer can
/// repair.  The walk ends at an encryption layer.
pub open spec fn repair_ok(ps: Seq<Policy>, i: nat, len: nat) -> bool
    decreases ps.len() - i,
{
    if i >= ps.len() || ps[i as int] is Nil || ps[i as int] is Encrypted {
        true
    } else {
        ps[i as int].checks(len) && repair_ok(ps, i + 1, ps[i as int].data_len(len))
    }
}

/// The largest number of errors that the repairing walk from slot `i`
/// can report for a buffer of `len` bytes: what the layer of the slot can
/// report, and what the inner slots can report for its data, or for each
/// of its copies.
pub open spec fn most_errors(ps: Seq<Policy>, i: nat, len: nat) -> nat
    decreases ps.len() - i,
{
    if i >= ps.len() || ps[i as int] is Nil || ps[i as int] is Encrypted {
        0
    } else {
        let inner = most_errors(ps, i + 1, ps[i as int].data_len(len));
        ps[i as int].most_errors(len) + match ps[i as int] {
            Policy::Redundancy(n) => (n as nat) * inner,
            _ => inner,
        }
    }
}

/// Whether the repairing walk can work on a backing buffer of `len` bytes
/// and count its errors in 32 bits.
pub open spec fn repairs(ps: Seq<Policy>, len: nat) -> bool {
    repair_ok(ps, 0, len) && most_errors(ps, 0, len) <= u32::MAX
}

/// Whether the encoding walk from slot `i` meets an encryption layer.
pub open spec fn reaches_cipher(ps: Seq<Policy>, i: nat) -> bool
    decreases ps.len() - i,
{
    if i >= ps.len() || ps[i as int] is Nil {
        false
    } else {
        ps[i as int] is Encrypted || reaches_cipher(ps, i + 1)
    }
}

/// The length of the innermost data that a walk from slot `i` over a
/// buffer of `len` bytes arrives at.
pub open spec fn core_len(ps: Seq<Policy>, i: nat, len: nat) -> nat
    decreases ps.len() - i,
{
    if i >= ps.len() || ps[i as int] is Nil {
        len
    } else {
        core_len(ps, i + 1, ps[i as int].data_len(len))
    }
}

/// The buffer `b`, seen by slot `i`, after the encoding walk: the inner
/// slots encode the data part first, then the layer of slot `i` encodes
/// the whole.
pub open spec fn applied_walk(ps: Seq<Policy>, i: nat, b: Seq<u8>) -> Seq<u8>
    decreases ps.len() - i,
{
    if i >= ps.len() || ps[i as int] is Nil {
        b
    } else {
        let d = ps[i as int].data_len(b.len()) as int;
        ps[i as int].applied(applied_walk(ps, i + 1, b.subrange(0, d)) + b.subrange(d, b.len() as int))
    }
}

/// The buffer `b`, seen by slot `i`, with every encryption that the
/// encoding walk puts on taken off again: the data of each encryption
/// layer that the walk meets is decrypted under the fixed key and the
/// nonce that stands behind it, from the outermost such layer inwards.
pub open spec fn opened_walk(ps: Seq<Policy>, i: nat, b: Seq<u8>) -> Seq<u8>
    decreases ps.len() - i,
{
    if i >= ps.len() || ps[i as int] is Nil {
        b
    } else {
        let d = ps[i as int].data_len(b.len()) as int;
        let data = b.subrange(0, d);
        let meta = b.subrange(d, b.len() as int);
        let plain = if ps[i as int] is Encrypted {
            xor_bytes(data, aes128_ctr_keystream(KEY@, meta, d as nat))
        } else {
            data
        };
        opened_walk(ps, i + 1, plain) + meta
    }
}

/// Whether the first encryption layer that the walk from slot `i` meets
/// in `b` has the fixed nonce behind its data.
pub open spec fn nonce_behind(ps: Seq<Policy>, i: nat, b: Seq<u8>) -> bool
    decreases ps.len() - i,
{
    if i >= ps.len() || ps[i as int] is Nil {
        true
    } else {
        let d = ps[i as int].data_len(b.len()) as int;
        if ps[i as int] is Encrypted {
            b.subrange(d, b.len() as int) == NONCE@
        } else {
            nonce_behind(ps, i + 1, b.subrange(0, d))
        }
    }
}

/// Whether the cipher's span of the backing buffer `b` ends with the
/// fixed nonce, as encryption leaves it.  A stack without an encryption
/// layer has nothing to end with.
pub open spec fn cipher_sealed(ps: Seq<Policy>, b: Seq<u8>) -> bool {
    first_of(ps, Policy::Encrypted, 0) is Some ==> b.subrange(
        cipher_span(ps, b.len()) - NONCE_LEN,
        cipher_span(ps, b.len()) as int,
    ) == NONCE@
}

/// Whether the stack has its encryption layer where both the walks and
/// the cipher's span look for it: innermost, behind at most one
/// redundancy layer and then at most one parity layer, with nothing but
/// empty slots after it.
pub open spec fn cipher_innermost(ps: Seq<Policy>) -> bool {
    exists|e: int|
        {
            &&& 0 <= e < ps.len()
            &&& #[trigger] ps[e] is Encrypted
            &&& forall|j: int| e < j < ps.len() ==> ps[j] is Nil
            &&& forall|j: int| 0 <= j < e ==> ps[j] is Redundancy || ps[j] is ReedSolomon
            &&& forall|j: int, k: int|
                0 <= j < k < e ==> ps[j] is Redundancy && ps[k] is ReedSolomon
        }
}

/// Whether the bytes that are written into a block are the bytes that are
/// read from it: the stack has no encryption layer, or has it innermost.
pub open spec fn plain_kept(ps: Seq<Policy>) -> bool {
    first_of(ps, Policy::Encrypted, 0) is None || cipher_innermost(ps)
}

/// Whether the checking walk finds `b`, seen by slot `i`, inconsistent.
/// The walk looks into the data part first and ends at an encryption
/// layer, below which nothing can be checked.
pub open spec fn corrupted_walk(ps: Seq<Policy>, i: nat, b: Seq<u8>) -> bool
    decreases ps.len() - i,
{
    if i >= ps.len() || ps[i as int] is Nil || ps[i as int] is Encrypted {
        false
    } else {
        let d = ps[i as int].data_len(b.len()) as int;
        corrupted_walk(ps, i + 1, b.subrange(0, d)) || ps[i as int].corrupted(b)
    }
}

/// The buffer `b`, seen by slot `i`, after the repairing walk, and the
/// number of errors it reports.  A redundancy layer lets the inner slots
/// repair each copy by itself and then votes; a parity layer lets them
/// repair its data and then decodes.  The walk ends at an encryption
/// layer.
pub open spec fn corrected_walk(ps: Seq<Policy>, i: nat, b: Seq<u8>) -> (Seq<u8>, nat)
    decreases ps.len() - i, 0nat,
{
    if i >= ps.len() || ps[i as int] is Nil || ps[i as int] is Encrypted {
        (b, 0nat)
    } else {
        let d = ps[i as int].data_len(b.len());
        let inner = match ps[i as int] {
            Policy::Redundancy(n) => corrected_chunks(ps, i + 1, b, d, n as nat),
            _ => {
                let data = corrected_walk(ps, i + 1, b.subrange(0, d as int));
                (data.0 + b.subrange(d as int, b.len() as int), data.1)
            },
        };
        let outer = ps[i as int].corrected(inner.0);
        (outer.0, inner.1 + outer.1)
    }
}

/// The buffer `b` after the repairing walk from slot `i` has gone over
/// each of its first `m` chunks of `d` bytes, and the errors reported.
pub open spec fn corrected_chunks(
    ps: Seq<Policy>,
    i: nat,
    b: Seq<u8>,
    d: nat,
    m: nat,
) -> (Seq<u8>, nat)
    decreases ps.len() - i, m,
{
    if m == 0 || i > ps.len() {
        (b, 0nat)
    } else {
        let before = corrected_chunks(ps, i, b, d, (m - 1) as nat);
        let start = (m - 1) * d;
        let one = corrected_walk(ps, i, before.0.subrange(start, start + d));
        (
            before.0.subrange(0, start) + one.0 + before.0.subrange(
                start + d,
                before.0.len() as int,
            ),
            before.1 + one.1,
        )
    }
}

/// The first layer from slot `i` on that is of the same kind as `kind`.
pub open spec fn first_of(ps: Seq<Policy>, kind: Policy, i: nat) -> Option<Policy>
    decreases ps.len() - i,
{
    if i >= ps.len() {
        None
    } else if same_kind(ps[i as int], kind) {
        Some(ps[i as int])
    } else {
        first_of(ps, kind, i + 1)
    }
}

/// Whether two layers are of the same kind, whatever their numbers.
pub open spec fn same_kind(a: Policy, b: Policy) -> bool {
    match a {
        Policy::Nil => b is Nil,
        Policy::Redundancy(_) => b is Redundancy,
        Policy::ReedSolomon(_) => b is ReedSolomon,
        Policy::Encrypted => b is Encrypted,
    }
}

/// The length left of `len` bytes once the layer, if there is one, has
/// been peeled off.
pub open spec fn peeled(layer: Option<Policy>, len: nat) -> nat {
    match layer {
        Some(p) => p.data_len(len),
        None => len,
    }
}

/// Whether the layer, if there is one, can be peeled off `len` bytes.
pub open spec fn peels(layer: Option<Policy>, len: nat) -> bool {
    match layer {
        Some(p) => p.splits(len),
        None => true,
    }
}

/// The length of the prefix of a backing buffer of `len` bytes that the
/// cipher works on: what is left once the redundancy layer and then the
/// parity layer have been peeled off.
pub open spec fn cipher_span(ps: Seq<Policy>, len: nat) -> nat {
    peeled(
        first_of(ps, Policy::ReedSolomon(0), 0),
        peeled(first_of(ps, Policy::Redundancy(0), 0), len),
    )
}

/// Whether the cipher's span can be found in a backing buffer of `len`
/// bytes and is long enough for the nonce.
pub open spec fn span_ok(ps: Seq<Policy>, len: nat) -> bool {
    let red = first_of(ps, Policy::Redundancy(0), 0);
    let rs = first_of(ps, Policy::ReedSolomon(0), 0);
    &&& peels(red, len)
    &&& peels(rs, peeled(red, len))
    &&& peels(first_of(ps, Policy::Encrypted, 0), cipher_span(ps, len))
}

/// The backing buffer after encryption: where the stack holds an
/// encryption layer, the cipher's span is encrypted under the fixed key
/// and nonce and gets the nonce at its end; the rest stays.
pub open spec fn encrypted(ps: Seq<Policy>, b: Seq<u8>) -> Seq<u8> {
    match first_of(ps, Policy::Encrypted, 0) {
        Some(layer) => {
            let span = cipher_span(ps, b.len()) as int;
            layer.applied(b.subrange(0, span)) + b.subrange(span, b.len() as int)
        },
        None => b,
    }
}

/// The backing buffer after decryption: where the stack holds an
/// encryption layer, the data of the cipher's span is decrypted under the
/// fixed key and the nonce stored at the span's end; the rest stays.
pub open spec fn decrypted(ps: Seq<Policy>, b: Seq<u8>) -> Seq<u8> {
    match first_of(ps, Policy::Encrypted, 0) {
        Some(layer) => {
            let span = cipher_span(ps, b.len()) as int;
            let d = span - NONCE_LEN;
            xor_bytes(
                b.subrange(0, d),
                aes128_ctr_keystream(KEY@, b.subrange(d, span), d as nat),
            ) + b.subrange(d, b.len() as int)
        },
        None => b,
    }
}

/// Whether a stack can guard `len` bytes: every layer's number makes
/// sense, the layout can be computed, the walk can split the backing
/// buffer at every layer, and the cipher's span can be found.
pub open spec fn valid_layout(ps: Seq<Policy>, len: nat) -> bool {
    let size = layout(ps, 0, len);
    &&& forall|i: int| 0 <= i < ps.len() ==> (#[trigger] ps[i]).well_formed()
    &&& layout_fits(ps, 0, len)
    &&& walk_splits(ps, 0, size)
    &&& span_ok(ps, size)
}

/// The data part of a buffer that a layer can split is no longer than the
/// buffer.
pub proof fn lemma_data_len(p: Policy, len: nat)
    requires
        p.splits(len),
    ensures
        p.data_len(len) <= len,
        p.grown(p.data_len(len)) == len || p is Nil,
{
    if let Policy::Redundancy(n) = p {
        lemma_copies_len(len as int, n as int);
        assert(len / (n as nat) <= len && (len / (n as nat)) * (n as nat) == len) by (nonlinear_arith)
            requires
                n >= 1,
                len == n * (len / (n as nat)),
                len / (n as nat) >= 0,
        ;
    }
}

/// The innermost data that a walk arrives at is no longer than the buffer
/// it starts with.
pub proof fn lemma_core_len(ps: Seq<Policy>, i: nat, len: nat)
    requires
        walk_splits(ps, i, len),
    ensures
        core_len(ps, i, len) <= len,
    decreases ps.len() - i,
{
    if i >= ps.len() || ps[i as int] is Nil {
    } else {
        lemma_core_len(ps, i + 1, ps[i as int].data_len(len));
        lemma_data_len(ps[i as int], len);
    }
}

/// Where the lengths fit from slot `i` inwards, they fit from every
/// later slot inwards.
pub proof fn lemma_layout_fits(ps: Seq<Policy>, i: nat, j: nat, len: nat)
    requires
        layout_fits(ps, i, len),
        i <= j,
    ensures
        layout_fits(ps, j, len),
    decreases j - i,
{
    if i < j {
        if i < ps.len() {
            lemma_layout_fits(ps, i + 1, j, len);
        }
    }
}

/// Splitting undoes growing.
pub proof fn lemma_grown_splits(p: Policy, inner: nat)
    requires
        p.well_formed(),
    ensures
        inner <= p.grown(inner),
        !(p is Nil) ==> p.data_len(p.grown(inner)) == inner,
{
    if let Policy::Redundancy(n) = p {
        assert((inner * (n as nat)) / (n as nat) == inner && inner <= inner * (n as nat))
            by (nonlinear_arith)
            requires
                n >= 1,
        ;
    }
}

/// The buffer of every slot is at least as long as the user's bytes.
pub proof fn lemma_layout_grows(ps: Seq<Policy>, i: nat, len: nat)
    requires
        forall|j: int| 0 <= j < ps.len() ==> (#[trigger] ps[j]).well_formed(),
    ensures
        len <= layout(ps, i, len),
    decreases ps.len() - i,
{
    if i < ps.len() {
        lemma_layout_grows(ps, i + 1, len);
        lemma_grown_splits(ps[i as int], layout(ps, i + 1, len));
    }
}

/// The innermost data that a walk over a laid out buffer arrives at holds
/// the user's bytes.
pub proof fn lemma_core_holds_user(ps: Seq<Policy>, i: nat, len: nat)
    requires
        forall|j: int| 0 <= j < ps.len() ==> (#[trigger] ps[j]).well_formed(),
    ensures
        len <= core_len(ps, i, layout(ps, i, len)),
    decreases ps.len() - i,
{
    lemma_layout_grows(ps, i, len);
    if i < ps.len() && !(ps[i as int] is Nil) {
        lemma_core_holds_user(ps, i + 1, len);
        lemma_grown_splits(ps[i as int], layout(ps, i + 1, len));
    }
}

/// Taking the encryption off keeps the length of the buffer.
pub proof fn lemma_opened_len(ps: Seq<Policy>, i: nat, b: Seq<u8>)
    requires
        walk_splits(ps, i, b.len()),
    ensures
        opened_walk(ps, i, b).len() == b.len(),
    decreases ps.len() - i,
{
    if i >= ps.len() || ps[i as int] is Nil {
    } else {
        let d = ps[i as int].data_len(b.len()) as int;
        lemma_data_len(ps[i as int], b.len());
        let data = b.subrange(0, d);
        let meta = b.subrange(d, b.len() as int);
        let plain = if ps[i as int] is Encrypted {
            xor_bytes(data, aes128_ctr_keystream(KEY@, meta, d as nat))
        } else {
            data
        };
        lemma_opened_len(ps, i + 1, plain);
    }
}

/// A stack without an encryption layer from slot `i` on has none for a
/// walk to meet, and nothing to take off.
pub proof fn lemma_no_cipher(ps: Seq<Policy>, i: nat, b: Seq<u8>)
    requires
        first_of(ps, Policy::Encrypted, i) is None,
        walk_splits(ps, i, b.len()),
    ensures
        !reaches_cipher(ps, i),
        opened_walk(ps, i, b) == b,
    decreases ps.len() - i,
{
    if i >= ps.len() || ps[i as int] is Nil {
    } else {
        let d = ps[i as int].data_len(b.len()) as int;
        lemma_data_len(ps[i as int], b.len());
        lemma_no_cipher(ps, i + 1, b.subrange(0, d));
        assert(b.subrange(0, d) + b.subrange(d, b.len() as int) =~= b);
    }
}

/// Under a stack of three slots with the encryption layer innermost,
/// decrypting the cipher's span is taking off what the walk has put on.
pub proof fn lemma_decrypted_is_opened(ps: Seq<Policy>, b: Seq<u8>)
    requires
        ps.len() == 3,
        cipher_innermost(ps),
        walk_splits(ps, 0, b.len()),
    ensures
        span_ok(ps, b.len()),
        decrypted(ps, b) == opened_walk(ps, 0, b),
        core_len(ps, 0, b.len()) + NONCE_LEN == cipher_span(ps, b.len()),
{
    reveal_with_fuel(first_of, 4);
    reveal_with_fuel(opened_walk, 4);
    reveal_with_fuel(walk_splits, 4);
    reveal_with_fuel(core_len, 4);
    let e = choose|e: int|
        {
            &&& 0 <= e < ps.len()
            &&& #[trigger] ps[e] is Encrypted
            &&& forall|j: int| e < j < ps.len() ==> ps[j] is Nil
            &&& forall|j: int| 0 <= j < e ==> ps[j] is Redundancy || ps[j] is ReedSolomon
            &&& forall|j: int, k: int|
                0 <= j < k < e ==> ps[j] is Redundancy && ps[k] is ReedSolomon
        };
    let len = b.len();
    if e == 0 {
        let d = len - NONCE_LEN;
        assert(ps[1] is Nil && ps[2] is Nil);
        assert(decrypted(ps, b) =~= opened_walk(ps, 0, b));
    } else if e == 1 {
        assert(ps[2] is Nil);
        lemma_data_len(ps[0], len);
        let d0 = ps[0].data_len(len) as int;
        let d = d0 - NONCE_LEN;
        assert(b.subrange(0, d0).subrange(0, d) =~= b.subrange(0, d));
        assert(b.subrange(0, d0).subrange(d, d0) =~= b.subrange(d, d0));
        assert(b.subrange(d, d0) + b.subrange(d0, len as int) =~= b.subrange(d, len as int));
        assert(decrypted(ps, b) =~= opened_walk(ps, 0, b));
    } else {
        assert(e == 2);
        assert(ps[0] is Redundancy && ps[1] is ReedSolomon);
        lemma_data_len(ps[0], len);
        let d0 = ps[0].data_len(len) as int;
        lemma_data_len(ps[1], d0 as nat);
        let d1 = ps[1].data_len(d0 as nat) as int;
        let d = d1 - NONCE_LEN;
        assert(b.subrange(0, d0).subrange(0, d1) =~= b.subrange(0, d1));
        assert(b.subrange(0, d1).subrange(0, d) =~= b.subrange(0, d));
        assert(b.subrange(0, d1).subrange(d, d1) =~= b.subrange(d, d1));
        assert(b.subrange(0, d0).subrange(d1, d0) =~= b.subrange(d1, d0));
        assert(b.subrange(d, d1) + b.subrange(d1, d0) + b.subrange(d0, len as int) =~= b.subrange(
            d,
            len as int,
        ));
        assert(decrypted(ps, b) =~= opened_walk(ps, 0, b));
    }
}

/// Under a stack of three slots that keeps what is written, a buffer in
/// which the walk finds the fixed nonce behind the encrypted data has it
/// at the end of the cipher's span.
pub proof fn lemma_sealed(ps: Seq<Policy>, b: Seq<u8>)
    requires
        ps.len() == 3,
        plain_kept(ps),
        walk_splits(ps, 0, b.len()),
        nonce_behind(ps, 0, b),
    ensures
        cipher_sealed(ps, b),
{
    if first_of(ps, Policy::Encrypted, 0) is Some {
        reveal_with_fuel(first_of, 4);
        reveal_with_fuel(nonce_behind, 4);
        reveal_with_fuel(walk_splits, 4);
        let e = choose|e: int|
            {
                &&& 0 <= e < ps.len()
                &&& #[trigger] ps[e] is Encrypted
                &&& forall|j: int| e < j < ps.len() ==> ps[j] is Nil
                &&& forall|j: int| 0 <= j < e ==> ps[j] is Redundancy || ps[j] is ReedSolomon
                &&& forall|j: int, k: int|
                    0 <= j < k < e ==> ps[j] is Redundancy && ps[k] is ReedSolomon
            };
        let len = b.len();
        if e == 0 {
        } else if e == 1 {
            lemma_data_len(ps[0], len);
            let d0 = ps[0].data_len(len) as int;
            assert(b.subrange(0, d0).subrange(d0 - NONCE_LEN, d0) =~= b.subrange(d0 - NONCE_LEN, d0));
        } else {
            assert(ps[0] is Redundancy && ps[1] is ReedSolomon);
            lemma_data_len(ps[0], len);
            let d0 = ps[0].data_len(len) as int;
            lemma_data_len(ps[1], d0 as nat);
            let d1 = ps[1].data_len(d0 as nat) as int;
            assert(b.subrange(0, d0).subrange(0, d1) =~= b.subrange(0, d1));
            assert(b.subrange(0, d1).subrange(d1 - NONCE_LEN, d1) =~= b.subrange(d1 - NONCE_LEN, d1));
        }
    }
}

/// A buffer that the walk can encode, it can split.
pub proof fn lemma_encodes_splits(ps: Seq<Policy>, i: nat, len: nat)
    requires
        walk_ok(ps, i, len),
    ensures
        walk_splits(ps, i, len),
    decreases ps.len() - i,
{
    if i < ps.len() && !(ps[i as int] is Nil) {
        lemma_encodes_splits(ps, i + 1, ps[i as int].data_len(len));
    }
}

/// A buffer that the encoding walk can split, the checking walk can
/// split.
pub proof fn lemma_splits_checks(ps: Seq<Policy>, i: nat, len: nat)
    requires
        walk_splits(ps, i, len),
    ensures
        check_ok(ps, i, len),
    decreases ps.len() - i,
{
    if i < ps.len() && !(ps[i as int] is Nil) {
        lemma_splits_checks(ps, i + 1, ps[i as int].data_len(len));
    }
}

} // verus!
