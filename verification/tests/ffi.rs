use er_alloc::block::AllocBlock;
use er_alloc::ffi::{
    can_count, default_redundancy, default_rs, er_calloc, er_correct_buffer, er_free, er_malloc,
    er_read_buf, er_realloc, er_reallocarray, er_setup_policies, er_write_buf, list_fits,
    request_fits, setup_policy_helper, ErPolicyListNonNull, ErPolicyListRaw, ErPolicyRaw, FfiError,
    Reallocated,
};
use er_alloc::policies::Policy;

fn list(nodes: &[(ErPolicyRaw, Option<u32>)]) -> Option<ErPolicyListRaw> {
    let mut rest: Option<Box<ErPolicyListRaw>> = None;
    for (kind, data) in nodes.iter().rev() {
        rest = Some(Box::new(ErPolicyListRaw::new(*kind, *data, rest)));
    }
    rest.map(|head| *head)
}

#[test]
fn tags() {
    assert_eq!(ErPolicyRaw::from_tag(0), Ok(ErPolicyRaw::Nil));
    assert_eq!(ErPolicyRaw::from_tag(1), Ok(ErPolicyRaw::Redundancy));
    assert_eq!(ErPolicyRaw::from_tag(2), Ok(ErPolicyRaw::ReedSolomon));
    assert_eq!(ErPolicyRaw::from_tag(3), Ok(ErPolicyRaw::Encrypted));
    assert_eq!(ErPolicyRaw::from_tag(4), Err(FfiError::PolicyValueUnknown));
    assert_eq!(ErPolicyRaw::from_tag(u32::MAX), Err(FfiError::PolicyValueUnknown));
}

#[test]
fn error_names() {
    assert_eq!(FfiError::PolicyValueUnknown.to_string(), "PolicyValueUnknown");
    assert_eq!(FfiError::PolicyDataWasNull.to_string(), "PolicyDataWasNull");
    assert_eq!(FfiError::MoreThanMaxPolicies.to_string(), "MoreThanMaxPolicies");
}

#[test]
fn defaults() {
    assert_eq!(default_redundancy(), 3);
    assert_eq!(default_rs(), 3);
    let raw = ErPolicyListRaw::default();
    assert_eq!(raw.policy, ErPolicyRaw::Nil);
    assert_eq!(raw.policy_data, None);
    assert!(raw.er_list_policy_raw.is_none());
    let node = ErPolicyListNonNull::default();
    assert_eq!(node.policy, ErPolicyRaw::Nil);
    assert_eq!(node.policy_data, None);
    assert!(node.er_list_policy.is_none());
}

#[test]
fn descriptors_keep_a_number_only_where_their_kind_takes_one() {
    let raw = ErPolicyListRaw::new(ErPolicyRaw::Encrypted, Some(9), None);
    let node = ErPolicyListNonNull::try_from(raw).unwrap();
    assert_eq!(node.policy, ErPolicyRaw::Encrypted);
    assert_eq!(node.policy_data, None);
    let raw = ErPolicyListRaw::new(ErPolicyRaw::Nil, Some(9), None);
    assert_eq!(ErPolicyListNonNull::try_from(raw).unwrap().policy_data, None);
    let raw = ErPolicyListRaw::new(ErPolicyRaw::Redundancy, Some(9), None);
    assert_eq!(ErPolicyListNonNull::try_from(raw).unwrap().policy_data, Some(9));
    let raw = ErPolicyListRaw::new(ErPolicyRaw::ReedSolomon, None, None);
    assert_eq!(ErPolicyListNonNull::try_from(raw).unwrap().policy_data, None);
}

#[test]
fn descriptors_become_layers() {
    let node = |kind, data| ErPolicyListNonNull::new(kind, data, None);
    assert_eq!(Policy::from(node(ErPolicyRaw::Nil, None)), Policy::Nil);
    assert_eq!(Policy::from(node(ErPolicyRaw::Encrypted, None)), Policy::Encrypted);
    assert_eq!(Policy::from(node(ErPolicyRaw::Redundancy, Some(5))), Policy::Redundancy(5));
    assert_eq!(Policy::from(node(ErPolicyRaw::Redundancy, None)), Policy::Redundancy(3));
    assert_eq!(Policy::from(node(ErPolicyRaw::ReedSolomon, Some(8))), Policy::ReedSolomon(8));
    assert_eq!(Policy::from(node(ErPolicyRaw::ReedSolomon, None)), Policy::ReedSolomon(3));
}

#[test]
fn next_walks_the_list() {
    let raw = list(&[(ErPolicyRaw::Redundancy, Some(2)), (ErPolicyRaw::Encrypted, Some(1))]).unwrap();
    let mut head = ErPolicyListNonNull::try_from(raw).unwrap();
    assert_eq!(head.size_hint(), (1, None));
    let mut second = head.next().unwrap();
    assert_eq!(second.policy, ErPolicyRaw::Encrypted);
    assert_eq!(second.policy_data, None);
    assert_eq!(second.size_hint(), (0, None));
    assert!(second.next().is_none());
    assert_eq!(head.policy, ErPolicyRaw::Redundancy);
    assert!(head.next().is_none());
}

#[test]
fn stacks_from_lists() {
    assert_eq!(setup_policy_helper(0, list(&[(ErPolicyRaw::Encrypted, None)])), None);
    assert_eq!(setup_policy_helper(8, None), Some([Policy::Nil, Policy::Nil, Policy::Nil]));
    // each kind goes to its slot, whatever the order
    let given = list(&[
        (ErPolicyRaw::Encrypted, None),
        (ErPolicyRaw::Redundancy, Some(5)),
        (ErPolicyRaw::ReedSolomon, None),
    ]);
    assert_eq!(
        setup_policy_helper(8, given),
        Some([Policy::Redundancy(5), Policy::ReedSolomon(3), Policy::Encrypted])
    );
    // a later descriptor of a kind wins, and empty descriptors count for nothing
    let given = list(&[
        (ErPolicyRaw::ReedSolomon, Some(2)),
        (ErPolicyRaw::Nil, Some(7)),
        (ErPolicyRaw::ReedSolomon, Some(6)),
    ]);
    assert_eq!(
        setup_policy_helper(8, given),
        Some([Policy::Nil, Policy::ReedSolomon(6), Policy::Nil])
    );
    // no bytes, no stack, whatever the list
    let four = [(ErPolicyRaw::Nil, None); 4];
    assert_eq!(setup_policy_helper(0, list(&four)), None);
}

#[test]
fn lists_that_fit() {
    let three = [(ErPolicyRaw::Nil, None); 3];
    let four = [(ErPolicyRaw::Nil, None); 4];
    assert!(list_fits(8, &None));
    assert!(list_fits(8, &list(&three)));
    assert!(!list_fits(8, &list(&four)));
    assert!(list_fits(0, &list(&four)));
    let one = list(&three[..1]).unwrap();
    assert!(one.fits(1));
    assert!(!one.fits(0));
    assert!(list(&three).unwrap().fits(3));
    assert!(!list(&three).unwrap().fits(2));
}

#[test]
fn requests_that_can_be_encoded() {
    let parity = [(ErPolicyRaw::ReedSolomon, Some(3)), (ErPolicyRaw::Redundancy, Some(2))];
    assert!(request_fits(252, 1, list(&parity)));
    // the parity layer would get 256 bytes
    assert!(!request_fits(253, 1, list(&parity)));
    // no stack is asked for no bytes
    assert!(request_fits(253, 0, list(&parity)));
    // no block can be made anyway
    let none = [(ErPolicyRaw::Redundancy, Some(0))];
    assert!(request_fits(8, 1, list(&none)));
    assert!(request_fits(1 << 40, 1, None));
}

#[test]
fn malloc() {
    assert!(er_malloc(0, None).is_none());
    let block = er_malloc(8, list(&[(ErPolicyRaw::Redundancy, None)])).unwrap();
    assert_eq!(block.length(), 8);
    assert_eq!(block.buffer_size(), 24);
    assert_eq!(block.policies(), [Policy::Redundancy(3), Policy::Nil, Policy::Nil]);
    assert_eq!(block.buffer(), &[0u8; 24]);
    assert_eq!(er_free(Some(block)), 24);
    assert_eq!(er_free(None), 0);
    // no block where a layer cannot split its buffer
    assert!(er_malloc(8, list(&[(ErPolicyRaw::Redundancy, Some(0))])).is_none());
    // nor where the layout does not fit the machine's word
    assert!(er_malloc(usize::MAX, list(&[(ErPolicyRaw::Encrypted, None)])).is_none());
    // a block beyond what the codec takes is made all the same
    let block = er_malloc(1000, list(&[(ErPolicyRaw::ReedSolomon, None)])).unwrap();
    assert_eq!(block.buffer_size(), 1003);
}

#[test]
fn malloc_has_no_bound_of_its_own() {
    let block = er_malloc((1 << 27) + 1, None).unwrap();
    assert_eq!(block.length(), (1 << 27) + 1);
    assert_eq!(block.buffer_size(), (1 << 27) + 1);
}

#[test]
fn calloc_gives_zero_bytes_and_realloc_to_nothing_frees() {
    let block = er_calloc(4, 8, None).unwrap();
    assert_eq!(block.buffer(), &[0u8; 32]);
    assert_eq!(block.length(), 32);
    assert!(matches!(er_realloc(block, 0, None), Reallocated::Freed));
}

#[test]
fn calloc_refuses() {
    assert!(er_calloc(usize::MAX, 2, None).is_none());
    assert!(er_calloc(4, 0, None).is_none());
    let block = er_calloc(0, 8, None).unwrap();
    assert_eq!(block.buffer_size(), 0);
    let given = list(&[(ErPolicyRaw::ReedSolomon, Some(4))]);
    let block = er_calloc(2, 3, given).unwrap();
    // slot 0 is empty: the walk ends there and the block stays zero
    assert_eq!(block.buffer(), &[0u8; 10]);
    assert!(!block.is_corrupted());
}

#[test]
fn calloc_encodes() {
    let given = list(&[(ErPolicyRaw::Redundancy, Some(2)), (ErPolicyRaw::Encrypted, None)]);
    let mut block = er_calloc(1, 4, given).unwrap();
    assert_eq!(block.buffer_size(), 40);
    assert!(!block.is_corrupted());
    assert_eq!(er_correct_buffer(&mut block), 0);
}

#[test]
fn reallocarray_overflow_leaves_the_block() {
    let mut block = er_malloc(4, None).unwrap();
    block.buffer_mut().copy_from_slice(&[1, 2, 3, 4]);
    match er_reallocarray(block, usize::MAX, 2, None) {
        Reallocated::Refused(kept) => {
            assert_eq!(kept.buffer(), &[1, 2, 3, 4]);
            assert_eq!(kept.length(), 4);
        }
        _ => panic!("the block should have come back"),
    }
}

#[test]
fn realloc_renews() {
    let mut block = er_malloc(4, None).unwrap();
    block.buffer_mut().copy_from_slice(&[1, 2, 3, 4]);
    let given = list(&[(ErPolicyRaw::Redundancy, Some(2))]);
    let block = match er_realloc(block, 3, given) {
        Reallocated::Renewed(block) => block,
        _ => panic!("the block should have been renewed"),
    };
    assert_eq!(block.length(), 3);
    assert_eq!(block.buffer(), &[1, 2, 3, 1, 2, 3]);
    assert!(!block.is_corrupted());
    let block = match er_reallocarray(block, 2, 2, None) {
        Reallocated::Renewed(block) => block,
        _ => panic!("the block should have been renewed"),
    };
    assert_eq!(block.buffer(), &[1, 2, 3, 1]);
    // a layer of the new stack cannot split its buffer: the block stays
    let given = list(&[(ErPolicyRaw::Redundancy, Some(0))]);
    match er_realloc(block, 9, given) {
        Reallocated::Refused(kept) => assert_eq!(kept.buffer(), &[1, 2, 3, 1]),
        _ => panic!("the block should have come back"),
    }
}

#[test]
fn counts_that_stay_positive() {
    let block = er_malloc(8, list(&[(ErPolicyRaw::Redundancy, None)])).unwrap();
    assert!(can_count(&block));
    // the decoder does not take so long a parity
    let block = AllocBlock::new(1, &[Policy::ReedSolomon(171), Policy::Nil, Policy::Nil], false);
    assert!(!can_count(&block));
    // four errors for each of 3 * 2^28 bytes fit 32 bits, but not 31
    let vote = [Policy::Redundancy(3), Policy::Nil, Policy::Nil];
    assert_eq!(AllocBlock::repair_fits(&vote, 0, 3 << 28), Some(3 << 30));
    assert_eq!(AllocBlock::repair_fits(&vote, 0, 3 << 29), None);
}

#[test]
fn read_decrypts_and_leaves_the_block_as_it_was() {
    let mut block = AllocBlock::new(16, &[Policy::Encrypted, Policy::Nil, Policy::Nil], false);
    let plain = *b"sixteen byte msg";
    block.data_slice().copy_from_slice(&plain);
    er_setup_policies(&mut block);
    assert_ne!(&block.buffer()[..16], &plain);
    let before = block.buffer().to_vec();
    let mut out = [0u8; 16];
    assert_eq!(er_read_buf(&mut block, &mut out, 0, 16), 0);
    assert_eq!(out, plain);
    assert_eq!(block.buffer(), &before[..]);
}

#[test]
fn write_then_read() {
    let stack = [Policy::Redundancy(3), Policy::ReedSolomon(4), Policy::Encrypted];
    let mut block = AllocBlock::new(8, &stack, true);
    assert_eq!(er_write_buf(&mut block, b"abcd", 2, 4), 0);
    assert!(!block.is_corrupted());
    let mut out = [0u8; 8];
    assert_eq!(er_read_buf(&mut block, &mut out, 0, 8), 0);
    assert_eq!(&out, &[0, 0, b'a', b'b', b'c', b'd', 0, 0]);

    // one byte of one copy is hit: the parity layer repairs it on the way
    let before = block.buffer().to_vec();
    block.buffer_mut()[30] ^= 0x40;
    let mut out = [0u8; 4];
    assert_eq!(er_read_buf(&mut block, &mut out, 2, 4), 1);
    assert_eq!(&out, b"abcd");
    assert_eq!(block.buffer(), &before[..]);
    assert_eq!(er_correct_buffer(&mut block), 0);
}

#[test]
fn read_and_write_methods() {
    let mut block = AllocBlock::new(4, &[Policy::Redundancy(2), Policy::Nil, Policy::Nil], true);
    block.write_buf(&[7, 8], 1);
    assert_eq!(block.buffer(), &[0, 7, 8, 0, 0, 7, 8, 0]);
    block.buffer_mut()[5] = 6;
    let mut out = [0u8; 2];
    // the copies differ in one bit, which is tied and stays
    assert_eq!(block.read_buf(&mut out, 1, 2), 1);
    assert_eq!(out, [7, 8]);
    assert_eq!(block.buffer(), &[0, 7, 8, 0, 0, 6, 8, 0]);
}
