//! The allocator's entry points, on plain values: a caller's list of layer
//! descriptors is turned into a stack, and blocks are made, renewed,
//! read and written.
//!
//! A descriptor carries what a foreign caller hands over with pointers
//! replaced by what they point to: `None` stands for a null pointer.

use vstd::prelude::*;
use crate::block::{refit, zeros, AllocBlock};
use crate::policies::{Policy, MAX_POLICIES};
use crate::walk::{
    applied_walk, cipher_sealed, corrected_walk, decrypted, encrypted, layout, most_errors,
    valid_layout, walk_ok,
};

verus! {

/// The kind of layer that a descriptor asks for.
#[derive(Debug, Copy, Clone, PartialEq, Eq, Structural)]
pub enum ErPolicyRaw {
    Nil,
    Redundancy,
    ReedSolomon,
    Encrypted,
}

/// What can be wrong with a list of descriptors.
#[derive(Debug, Copy, Clone, PartialEq, Eq, Structural)]
pub enum FfiError {
    /// A descriptor's tag names no kind of layer.
    PolicyValueUnknown,
    /// A descriptor that needs a number came without one.  The library
    /// gives such a descriptor the default number and never reports this.
    PolicyDataWasNull,
    /// The list is longer than a stack has slots.  The library takes no
    /// such list; the name is for whoever turns one away.
    MoreThanMaxPolicies,
}

impl FfiError {
    /// The error's name.
    pub fn to_string(&self) -> (name: String)
        ensures
            name@ == match *self {
                FfiError::PolicyValueUnknown => "PolicyValueUnknown"@,
                FfiError::PolicyDataWasNull => "PolicyDataWasNull"@,
                FfiError::MoreThanMaxPolicies => "MoreThanMaxPolicies"@,
            },
    {
        match self {
            FfiError::PolicyValueUnknown => "PolicyValueUnknown".to_owned(),
            FfiError::PolicyDataWasNull => "PolicyDataWasNull".to_owned(),
            FfiError::MoreThanMaxPolicies => "MoreThanMaxPolicies".to_owned(),
        }
    }
}

impl ErPolicyRaw {
    /// The kind that a tag stands for: 0 for none, 1 for redundancy, 2
    /// for parity, 3 for encryption.
    pub open spec fn of_tag(tag: u32) -> Option<ErPolicyRaw> {
        if tag == 0 {
            Some(ErPolicyRaw::Nil)
        } else if tag == 1 {
            Some(ErPolicyRaw::Redundancy)
        } else if tag == 2 {
            Some(ErPolicyRaw::ReedSolomon)
        } else if tag == 3 {
            Some(ErPolicyRaw::Encrypted)
        } else {
            None
        }
    }

    /// Reads a tag.  A tag above 3 names no kind.
    pub fn from_tag(tag: u32) -> (kind: Result<ErPolicyRaw, FfiError>)
        ensures
            kind == match Self::of_tag(tag) {
                Some(k) => Ok::<ErPolicyRaw, FfiError>(k),
                None => Err::<ErPolicyRaw, FfiError>(FfiError::PolicyValueUnknown),
            },
    {
        if tag == 0 {
            Ok(ErPolicyRaw::Nil)
        } else if tag == 1 {
            Ok(ErPolicyRaw::Redundancy)
        } else if tag == 2 {
            Ok(ErPolicyRaw::ReedSolomon)
        } else if tag == 3 {
            Ok(ErPolicyRaw::Encrypted)
        } else {
            Err(FfiError::PolicyValueUnknown)
        }
    }
}

/// A descriptor as the caller hands it over, with the rest of the list
/// behind it.
#[derive(Debug)]
pub struct ErPolicyListRaw {
    pub policy: ErPolicyRaw,
    pub policy_data: Option<u32>,
    pub er_list_policy_raw: Option<Box<ErPolicyListRaw>>,
}

/// A descriptor that has been looked at: it keeps a number only where its
/// kind takes one.
#[derive(Debug)]
pub struct ErPolicyListNonNull {
    pub policy: ErPolicyRaw,
    pub policy_data: Option<u32>,
    pub er_list_policy: Option<Box<ErPolicyListRaw>>,
}

/// The number of copies of a redundancy layer that names none.
pub fn default_redundancy() -> (n: u32)
    ensures
        n == 3,
{
    3
}

/// The number of parity bytes of a parity layer that names none.
pub fn default_rs() -> (k: u32)
    ensures
        k == 3,
{
    3
}

/// The layer that a descriptor of the given kind and number asks for.  A
/// redundancy or parity layer without a number gets three.
pub open spec fn policy_of(kind: ErPolicyRaw, data: Option<u32>) -> Policy {
    match kind {
        ErPolicyRaw::Nil => Policy::Nil,
        ErPolicyRaw::Redundancy => Policy::Redundancy(
            match data {
                Some(n) => n,
                None => 3,
            },
        ),
        ErPolicyRaw::ReedSolomon => Policy::ReedSolomon(
            match data {
                Some(k) => k,
                None => 3,
            },
        ),
        ErPolicyRaw::Encrypted => Policy::Encrypted,
    }
}

impl ErPolicyListRaw {
    pub fn new(
        policy: ErPolicyRaw,
        policy_data: Option<u32>,
        er_list_policy_raw: Option<Box<ErPolicyListRaw>>,
    ) -> (raw: Self)
        ensures
            raw == (ErPolicyListRaw { policy, policy_data, er_list_policy_raw }),
    {
        ErPolicyListRaw { policy, policy_data, er_list_policy_raw }
    }

    /// The layers that the list asks for, in the list's order.
    pub open spec fn layers(self) -> Seq<Policy>
        decreases self,
    {
        seq![policy_of(self.policy, self.policy_data)] + match self.er_list_policy_raw {
            Some(next) => next.layers(),
            None => Seq::<Policy>::empty(),
        }
    }

    /// Whether the list has at most `room` descriptors.
    pub fn fits(&self, room: usize) -> (ok: bool)
        ensures
            ok == (self.layers().len() <= room),
        decreases self,
    {
        if room == 0 {
            return false;
        }
        match &self.er_list_policy_raw {
            Some(next) => next.fits(room - 1),
            None => true,
        }
    }
}

impl Default for ErPolicyListRaw {
    fn default() -> (raw: Self)
        ensures
            raw == (ErPolicyListRaw {
                policy: ErPolicyRaw::Nil,
                policy_data: None,
                er_list_policy_raw: None,
            }),
    {
        ErPolicyListRaw::new(ErPolicyRaw::Nil, None, None)
    }
}

impl ErPolicyListNonNull {
    pub fn new(
        policy: ErPolicyRaw,
        policy_data: Option<u32>,
        er_list_policy: Option<Box<ErPolicyListRaw>>,
    ) -> (node: Self)
        ensures
            node == (ErPolicyListNonNull { policy, policy_data, er_list_policy }),
    {
        ErPolicyListNonNull { policy, policy_data, er_list_policy }
    }

    /// A raw descriptor, looked at: the number is dropped where the kind
    /// takes none.
    pub open spec fn of_raw(raw: ErPolicyListRaw) -> ErPolicyListNonNull {
        ErPolicyListNonNull {
            policy: raw.policy,
            policy_data: match raw.policy {
                ErPolicyRaw::Nil | ErPolicyRaw::Encrypted => None,
                _ => raw.policy_data,
            },
            er_list_policy: raw.er_list_policy_raw,
        }
    }

    /// The layers that the list starting here asks for.
    pub open spec fn layers(self) -> Seq<Policy> {
        seq![policy_of(self.policy, self.policy_data)] + match self.er_list_policy {
            Some(next) => next.layers(),
            None => Seq::<Policy>::empty(),
        }
    }

    /// Looks at a raw descriptor.  Every descriptor of a known kind passes.
    pub fn try_from(raw: ErPolicyListRaw) -> (node: Result<ErPolicyListNonNull, FfiError>)
        ensures
            node == Ok::<ErPolicyListNonNull, FfiError>(Self::of_raw(raw)),
            node->Ok_0.layers() == raw.layers(),
    {
        let next = raw.er_list_policy_raw;
        match raw.policy {
            ErPolicyRaw::Nil | ErPolicyRaw::Encrypted => {
                Ok(ErPolicyListNonNull::new(raw.policy, None, next))
            },
            ErPolicyRaw::Redundancy => {
                match raw.policy_data {
                    None => {
                        let policy_data = None;
                        Ok(ErPolicyListNonNull::new(raw.policy, policy_data, next))
                    },
                    Some(data) => {
                        let policy_data = Some(data);
                        Ok(ErPolicyListNonNull::new(raw.policy, policy_data, next))
                    },
                }
            },
            ErPolicyRaw::ReedSolomon => {
                match raw.policy_data {
                    None => {
                        let policy_data = None;
                        Ok(ErPolicyListNonNull::new(raw.policy, policy_data, next))
                    },
                    Some(data) => {
                        let policy_data = Some(data);
                        Ok(ErPolicyListNonNull::new(raw.policy, policy_data, next))
                    },
                }
            },
        }
    }

    /// Takes the rest of the list off this descriptor and hands back its
    /// first descriptor, looked at; `None` at the list's end.
    pub fn next(&mut self) -> (node: Option<ErPolicyListNonNull>)
        ensures
            node == match old(self).er_list_policy {
                Some(raw) => Some(Self::of_raw(*raw)),
                None => None,
            },
            final(self).policy == old(self).policy,
            final(self).policy_data == old(self).policy_data,
            final(self).er_list_policy is None,
            node matches Some(n) ==> old(self).layers() == seq![
                policy_of(old(self).policy, old(self).policy_data),
            ] + n.layers(),
            node is None ==> old(self).layers() == seq![
                policy_of(old(self).policy, old(self).policy_data),
            ],
    {
        match self.er_list_policy.take() {
            None => None,
            Some(ptr) => {
                match ErPolicyListNonNull::try_from(*ptr) {
                    Ok(node) => Some(node),
                    Err(_) => None,
                }
            },
        }
    }

    /// How many descriptors follow at least: one where the list goes on.
    pub fn size_hint(&self) -> (hint: (usize, Option<usize>))
        ensures
            hint.0 == if self.er_list_policy is Some {
                1usize
            } else {
                0usize
            },
            hint.1 is None,
    {
        match self.er_list_policy {
            None => (0, None),
            Some(_) => (1, None),
        }
    }
}

impl Default for ErPolicyListNonNull {
    fn default() -> (node: Self)
        ensures
            node == (ErPolicyListNonNull {
                policy: ErPolicyRaw::Nil,
                policy_data: None,
                er_list_policy: None,
            }),
    {
        ErPolicyListNonNull::new(ErPolicyRaw::Nil, None, None)
    }
}

impl From<ErPolicyListNonNull> for Policy {
    /// The layer that a descriptor asks for.
    fn from(raw: ErPolicyListNonNull) -> (policy: Policy) {
        match raw.policy {
            ErPolicyRaw::Nil => Policy::Nil,
            ErPolicyRaw::Redundancy => {
                let num;
                match raw.policy_data {
                    Some(data) => {
                        num = data;
                    },
                    None => {
                        num = default_redundancy();
                    },
                }
                Policy::Redundancy(num)
            },
            ErPolicyRaw::ReedSolomon => {
                let num;
                match raw.policy_data {
                    Some(data) => {
                        num = data;
                    },
                    None => {
                        num = default_rs();
                    },
                }
                Policy::ReedSolomon(num)
            },
            ErPolicyRaw::Encrypted => Policy::Encrypted,
        }
    }
}

impl vstd::std_specs::convert::FromSpecImpl<ErPolicyListNonNull> for Policy {
    open spec fn obeys_from_spec() -> bool {
        true
    }

    open spec fn from_spec(raw: ErPolicyListNonNull) -> Policy {
        policy_of(raw.policy, raw.policy_data)
    }
}

/// The stack with the layer put into the slot of its kind: redundancy
/// into slot 0, parity into slot 1, encryption into slot 2.  A layer
/// already there gives way; no layer changes nothing.
pub open spec fn placed(slots: Seq<Policy>, layer: Policy) -> Seq<Policy> {
    match layer {
        Policy::Redundancy(_) => slots.update(0, layer),
        Policy::ReedSolomon(_) => slots.update(1, layer),
        Policy::Encrypted => slots.update(2, layer),
        Policy::Nil => slots,
    }
}

/// The stack that the first `upto` layers of a list make, placed one
/// after the other into an empty stack.
pub open spec fn slotted(layers: Seq<Policy>, upto: nat) -> Seq<Policy>
    decreases upto,
{
    if upto == 0 {
        seq![Policy::Nil, Policy::Nil, Policy::Nil]
    } else {
        placed(slotted(layers, (upto - 1) as nat), layers[upto - 1])
    }
}

/// Whether a request for `size` bytes comes with a list that a stack can
/// take: no more descriptors than a stack has slots.  A request for no
/// bytes is answered before its list is looked at.
pub open spec fn list_ok(size: usize, policies: Option<ErPolicyListRaw>) -> bool {
    size != 0 ==> (policies matches Some(list) ==> list.layers().len() <= MAX_POLICIES)
}

/// The stack for a request for `size` bytes under a list of descriptors:
/// none for no bytes, and otherwise the stack that the list makes.
pub open spec fn stack_for(size: usize, policies: Option<ErPolicyListRaw>) -> Option<Seq<Policy>> {
    if size == 0 {
        None
    } else {
        match policies {
            None => Some(slotted(Seq::<Policy>::empty(), 0)),
            Some(list) => Some(slotted(list.layers(), list.layers().len())),
        }
    }
}

/// Whether a request comes with a list that a stack can take, computed.
pub fn list_fits(size: usize, policies: &Option<ErPolicyListRaw>) -> (ok: bool)
    ensures
        ok == list_ok(size, *policies),
{
    if size == 0 {
        return true;
    }
    match policies {
        Some(list) => list.fits(MAX_POLICIES),
        None => true,
    }
}

/// Turns a request for `size` bytes under a list of descriptors into a
/// stack.  A list of more descriptors than a stack has slots is not to be
/// handed in.
pub fn setup_policy_helper(
    size: usize,
    policies: Option<ErPolicyListRaw>,
) -> (stack: Option<[Policy; MAX_POLICIES]>)
    requires
        list_ok(size, policies),
    ensures
        match stack {
            Some(arr) => stack_for(size, policies) == Some(arr@),
            None => stack_for(size, policies) is None,
        },
{
    if size == 0 {
        return None;
    }
    let mut policy_arr = [Policy::Nil;MAX_POLICIES];
    assert(policy_arr@ =~= slotted(Seq::<Policy>::empty(), 0));
    match policies {
        None => {},
        Some(list) => {
            let ghost all = list.layers();
            let mut head = match ErPolicyListNonNull::try_from(list) {
                Ok(node) => node,
                Err(_) => {
                    return None;
                },
            };
            let mut i: usize = 0;
            loop
                invariant_except_break
                    i < MAX_POLICIES,
                    size != 0,
                    policies == Some(list),
                    all == list.layers(),
                    all.len() <= MAX_POLICIES,
                    policy_arr@ == slotted(all, i as nat),
                    i + head.layers().len() == all.len(),
                    head.layers() == all.skip(i as int),
                ensures
                    policy_arr@ == slotted(all, all.len()),
                decreases MAX_POLICIES - i,
            {
                let ghost here = head.layers();
                let next = head.next();
                let pol = Policy::from(head);
                assert(pol == all[i as int]) by {
                    assert(all.skip(i as int)[0] == all[i as int]);
                }
                match pol {
                    Policy::Redundancy(_) => {
                        policy_arr[0] = pol;
                    },
                    Policy::ReedSolomon(_) => {
                        policy_arr[1] = pol;
                    },
                    Policy::Encrypted => {
                        policy_arr[2] = pol;
                    },
                    _ => (),
                }
                i += 1;
                head = match next {
                    None => {
                        break ;
                    },
                    Some(erplnn) => {
                        assert(erplnn.layers() =~= here.skip(1));
                        assert(here.skip(1) =~= all.skip(i as int));
                        erplnn
                    },
                };
            }
        },
    }
    Some(policy_arr)
}

/// Whether `block` is a block as `AllocBlock::new` makes it for `size`
/// bytes under the stack `ps`, holding `bytes`.
pub open spec fn fresh(block: AllocBlock, ps: Seq<Policy>, size: nat, bytes: Seq<u8>) -> bool {
    &&& block.wf()
    &&& block@.policies == ps
    &&& block@.length == size
    &&& block@.buffer_size == layout(ps, 0, size)
    &&& !block@.weak_exists
    &&& block@.bytes == bytes
}

/// Whether a request for `bytes` bytes under a list of descriptors, where
/// the stack can guard the bytes, asks for a block that the stack can
/// encode.
pub open spec fn request_ok(bytes: int, size: usize, policies: Option<ErPolicyListRaw>) -> bool {
    0 <= bytes <= usize::MAX ==> (stack_for(size, policies) matches Some(ps) ==> (valid_layout(
        ps,
        bytes as nat,
    ) ==> walk_ok(ps, 0, layout(ps, 0, bytes as nat))))
}

/// Whether a request asks for a block that its stack can encode,
/// computed.
pub fn request_fits(bytes: usize, size: usize, policies: Option<ErPolicyListRaw>) -> (ok: bool)
    requires
        list_ok(size, policies),
    ensures
        ok == request_ok(bytes as int, size, policies),
{
    match setup_policy_helper(size, policies) {
        Some(policy_arr) => {
            if AllocBlock::can_hold(bytes, &policy_arr) {
                AllocBlock::walk_fits(&policy_arr, 0, AllocBlock::size_of(bytes, &policy_arr))
            } else {
                true
            }
        },
        None => true,
    }
}

/// What a renewal came to.
pub enum Reallocated {
    /// The block with its new size and stack.
    Renewed(AllocBlock),
    /// Nothing: the block was given up.
    Freed,
    /// The block as it was: the request could not be met.
    Refused(AllocBlock),
}

/// Makes a block for `size` bytes under the stack that the list asks
/// for, without encoding it.  There is no block for no bytes, nor where
/// the layout does not fit the machine's word or a layer cannot split its
/// buffer.
pub fn er_malloc(size: usize, policies: Option<ErPolicyListRaw>) -> (made: Option<AllocBlock>)
    requires
        list_ok(size, policies),
    ensures
        match stack_for(size, policies) {
            None => made is None,
            Some(ps) => match made {
                Some(block) => valid_layout(ps, size as nat) && fresh(
                    block,
                    ps,
                    size as nat,
                    zeros(layout(ps, 0, size as nat)),
                ),
                None => !valid_layout(ps, size as nat),
            },
        },
{
    match setup_policy_helper(size, policies) {
        Some(policy_arr) => AllocBlock::try_new(size, &policy_arr, false),
        None => None,
    }
}

/// Gives a block up and tells how many bytes its backing buffer held;
/// nothing is done, and zero is told, for no block.
pub fn er_free(block: Option<AllocBlock>) -> (released: usize)
    requires
        block matches Some(b) ==> b.wf(),
    ensures
        released == match block {
            Some(b) => b@.buffer_size,
            None => 0nat,
        },
{
    match block {
        Some(b) => AllocBlock::drop(b),
        None => 0,
    }
}

/// Makes a block for `nmemb` items of `size` bytes under the stack that
/// the list asks for, all zero and encoded.  There is no block where the
/// product does not fit the machine's word, for items of no bytes, nor
/// where the layout does not fit or a layer cannot split its buffer.
pub fn er_calloc(
    nmemb: usize,
    size: usize,
    policies: Option<ErPolicyListRaw>,
) -> (made: Option<AllocBlock>)
    requires
        list_ok(size, policies),
        request_ok(nmemb * size, size, policies),
    ensures
        nmemb * size > usize::MAX ==> made is None,
        nmemb * size <= usize::MAX ==> match stack_for(size, policies) {
            None => made is None,
            Some(ps) => match made {
                Some(block) => {
                    &&& valid_layout(ps, (nmemb * size) as nat)
                    &&& fresh(
                        block,
                        ps,
                        (nmemb * size) as nat,
                        applied_walk(ps, 0, zeros(layout(ps, 0, (nmemb * size) as nat))),
                    )
                    &&& AllocBlock::clean(block@)
                },
                None => !valid_layout(ps, (nmemb * size) as nat),
            },
        },
{
    let bytes: usize = match nmemb.checked_mul(size) {
        Some(u) => u,
        None => {
            return None;
        },
    };
    match setup_policy_helper(size, policies) {
        Some(policy_arr) => AllocBlock::try_new(bytes, &policy_arr, true),
        None => None,
    }
}

/// Gives a block a new size and the stack that the list asks for, and
/// encodes it.  A size of zero gives the block up.  Where the new layout
/// does not fit or a layer cannot split its buffer, the block comes back
/// as it was.
pub fn er_realloc(
    block: AllocBlock,
    size: usize,
    policies: Option<ErPolicyListRaw>,
) -> (made: Reallocated)
    requires
        block.wf(),
        list_ok(size, policies),
        request_ok(size as int, size, policies),
    ensures
        match stack_for(size, policies) {
            None => made is Freed,
            Some(ps) => match made {
                Reallocated::Renewed(renewed) => {
                    &&& valid_layout(ps, size as nat)
                    &&& fresh(
                        renewed,
                        ps,
                        size as nat,
                        applied_walk(ps, 0, refit(block@.bytes, layout(ps, 0, size as nat))),
                    )
                    &&& AllocBlock::clean(renewed@)
                },
                Reallocated::Refused(kept) => !valid_layout(ps, size as nat) && kept == block,
                Reallocated::Freed => false,
            },
        },
{
    if size == 0 {
        er_free(Some(block));
        return Reallocated::Freed;
    }
    match setup_policy_helper(size, policies) {
        Some(policy_arr) => {
            if AllocBlock::can_hold(size, &policy_arr) {
                Reallocated::Renewed(AllocBlock::renew(block, size, &policy_arr))
            } else {
                Reallocated::Refused(block)
            }
        },
        None => Reallocated::Refused(block),
    }
}

/// Gives a block room for `nmemb` items of `size` bytes, as `er_realloc`
/// does for their product.  Where the product does not fit the machine's
/// word, the block comes back as it was.
pub fn er_reallocarray(
    block: AllocBlock,
    nmemb: usize,
    size: usize,
    policies: Option<ErPolicyListRaw>,
) -> (made: Reallocated)
    requires
        block.wf(),
        nmemb * size <= usize::MAX ==> list_ok((nmemb * size) as usize, policies),
        nmemb * size <= usize::MAX ==> request_ok(nmemb * size, (nmemb * size) as usize, policies),
    ensures
        nmemb * size > usize::MAX ==> (made matches Reallocated::Refused(kept) && kept == block),
        nmemb * size <= usize::MAX ==> match stack_for((nmemb * size) as usize, policies) {
            None => made is Freed,
            Some(ps) => match made {
                Reallocated::Renewed(renewed) => {
                    &&& valid_layout(ps, (nmemb * size) as nat)
                    &&& fresh(
                        renewed,
                        ps,
                        (nmemb * size) as nat,
                        applied_walk(
                            ps,
                            0,
                            refit(block@.bytes, layout(ps, 0, (nmemb * size) as nat)),
                        ),
                    )
                    &&& AllocBlock::clean(renewed@)
                },
                Reallocated::Refused(kept) => !valid_layout(ps, (nmemb * size) as nat) && kept
                    == block,
                Reallocated::Freed => false,
            },
        },
{
    match nmemb.checked_mul(size) {
        Some(b) => er_realloc(block, b, policies),
        None => Reallocated::Refused(block),
    }
}

/// Encodes a block after its bytes have been written.
pub fn er_setup_policies(block: &mut AllocBlock)
    requires
        old(block).wf(),
        old(block).encodable(),
    ensures
        final(block).wf(),
        AllocBlock::encoded(old(block)@, final(block)@),
{
    AllocBlock::apply_policy_ffi(block);
}

/// Whether the errors of a repair of the block can be counted without
/// reaching the negative numbers.
pub open spec fn countable(block: AllocBlock) -> bool {
    block.repairable() && most_errors(block@.policies, 0, block@.buffer_size) <= i32::MAX
}

/// Whether the errors of a repair of the block can be counted without
/// reaching the negative numbers, computed.
pub fn can_count(block: &AllocBlock) -> (ok: bool)
    ensures
        ok == countable(*block),
{
    match AllocBlock::repair_fits(&block.policies(), 0, block.buffer_size()) {
        Some(most) => most <= 0x7fff_ffff,
        None => false,
    }
}

/// Repairs a block and reports the number of errors found, which is never
/// negative.
pub fn er_correct_buffer(block: &mut AllocBlock) -> (errors: i32)
    requires
        old(block).wf(),
        countable(*old(block)),
    ensures
        final(block).wf(),
        AllocBlock::same_header(final(block)@, old(block)@),
        final(block)@.bytes == corrected_walk(old(block)@.policies, 0, old(block)@.bytes).0,
        errors == corrected_walk(old(block)@.policies, 0, old(block)@.bytes).1,
        errors >= 0,
{
    AllocBlock::correct_buffer_ffi(block) as i32
}

/// Reads `len` bytes at `offset` of a block into `dest`: the block is
/// repaired and decrypted, the bytes are copied, and the block is
/// encrypted again.  Reports the number of errors that the repair found.
pub fn er_read_buf(
    base: &mut AllocBlock,
    dest: &mut [u8],
    offset: usize,
    len: usize,
) -> (errors: i32)
    requires
        old(base).wf(),
        countable(*old(base)),
        offset + len <= old(base)@.buffer_size,
        old(dest)@.len() == len,
    ensures
        final(base).wf(),
        AllocBlock::same_header(final(base)@, old(base)@),
        errors == corrected_walk(old(base)@.policies, 0, old(base)@.bytes).1,
        errors >= 0,
        final(dest)@ == decrypted(
            old(base)@.policies,
            corrected_walk(old(base)@.policies, 0, old(base)@.bytes).0,
        ).subrange(offset as int, offset + len),
        final(base)@.bytes == encrypted(
            old(base)@.policies,
            decrypted(
                old(base)@.policies,
                corrected_walk(old(base)@.policies, 0, old(base)@.bytes).0,
            ),
        ),
        cipher_sealed(
            old(base)@.policies,
            corrected_walk(old(base)@.policies, 0, old(base)@.bytes).0,
        ) ==> final(base)@.bytes == corrected_walk(old(base)@.policies, 0, old(base)@.bytes).0,
{
    base.read_buf(dest, offset, len) as i32
}

/// Writes the `len` bytes of `src` at `offset` of a block: the block is
/// decrypted, the bytes are copied in, and the block is encoded again
/// under every layer.  Returns zero.
pub fn er_write_buf(base: &mut AllocBlock, src: &[u8], offset: usize, len: usize) -> (status: i32)
    requires
        old(base).wf(),
        old(base).encodable(),
        offset + len <= old(base)@.buffer_size,
        src@.len() == len,
    ensures
        final(base).wf(),
        AllocBlock::wrote(old(base)@, final(base)@, offset as int, src@),
        status == 0,
{
    base.write_buf(src, offset);
    0
}

} // verus!
