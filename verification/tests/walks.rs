use er_alloc::block::AllocBlock;
use er_alloc::policies::Policy;

const NONE: [Policy; 3] = [Policy::Nil, Policy::Nil, Policy::Nil];

#[test]
fn layout_grows_from_the_last_slot_outwards() {
    assert_eq!(AllocBlock::size_of(10, &NONE), 10);
    assert_eq!(AllocBlock::size_of(10, &[Policy::Redundancy(3), Policy::Nil, Policy::Nil]), 30);
    assert_eq!(AllocBlock::size_of(10, &[Policy::Nil, Policy::ReedSolomon(4), Policy::Nil]), 14);
    assert_eq!(AllocBlock::size_of(10, &[Policy::Nil, Policy::Nil, Policy::Encrypted]), 26);
    let all = [Policy::Redundancy(3), Policy::ReedSolomon(4), Policy::Encrypted];
    assert_eq!(AllocBlock::size_of(10, &all), (10 + 16 + 4) * 3);
    let other = [Policy::ReedSolomon(4), Policy::Redundancy(3), Policy::Nil];
    assert_eq!(AllocBlock::size_of(10, &other), 10 * 3 + 4);
    assert_eq!(AllocBlock::checked_size_of(10, &all), Some(90));
    let huge = [Policy::Redundancy(u32::MAX), Policy::Redundancy(u32::MAX), Policy::Redundancy(4)];
    assert_eq!(AllocBlock::checked_size_of(usize::MAX / 2, &huge), None);
}

#[test]
fn buffer_size_is_the_layout() {
    let all = [Policy::Redundancy(3), Policy::ReedSolomon(4), Policy::Encrypted];
    let block = AllocBlock::new(10, &all, false);
    assert_eq!(block.buffer_size(), 90);
    assert_eq!(block.buffer().len(), 90);
    assert_eq!(block.length(), 10);
    assert_eq!(block.policies(), all);
    assert!(!block.weak_exists());
    let block = AllocBlock::renew(block, 5, &[Policy::Redundancy(2), Policy::Nil, Policy::Nil]);
    assert_eq!(block.buffer_size(), 10);
    assert_eq!(block.buffer().len(), 10);
    assert_eq!(block.length(), 5);
    assert_eq!(block.drop_ref(), 10);
    assert_eq!(AllocBlock::drop(block), 10);
}

#[test]
fn what_a_stack_can_hold() {
    let all = [Policy::Redundancy(3), Policy::ReedSolomon(4), Policy::Encrypted];
    assert!(AllocBlock::can_hold(10, &all));
    assert!(AllocBlock::can_hold(0, &NONE));
    // nothing to wrap
    assert!(!AllocBlock::can_hold(0, &all));
    // no copy at all
    assert!(!AllocBlock::can_hold(4, &[Policy::Redundancy(0), Policy::Nil, Policy::Nil]));
    // beyond the codec's block: the block can be made, not encoded
    let parity = [Policy::ReedSolomon(3), Policy::Nil, Policy::Nil];
    assert!(AllocBlock::can_hold(253, &parity));
    assert!(AllocBlock::new(252, &parity, false).can_encode());
    assert!(AllocBlock::new(252, &parity, false).can_repair());
    assert!(!AllocBlock::new(253, &parity, false).can_encode());
    assert!(!AllocBlock::new(253, &parity, false).can_repair());
    assert!(AllocBlock::try_new(253, &parity, false).is_some());
    assert!(AllocBlock::try_new(253, &parity, true).is_none());
    // beyond the decoder's parity: the block can be encoded, not repaired
    let long = [Policy::ReedSolomon(171), Policy::Nil, Policy::Nil];
    assert!(AllocBlock::new(1, &long, false).can_encode());
    assert!(!AllocBlock::new(1, &long, false).can_repair());
    // no bound on a block without layers
    assert!(AllocBlock::can_hold(1 << 40, &NONE));
    // a layout that does not fit the machine's word
    assert!(!AllocBlock::can_hold(usize::MAX, &[Policy::Nil, Policy::Nil, Policy::Encrypted]));
    // the copies would not divide the buffer once the parity is in front
    assert!(!AllocBlock::can_hold(3, &[Policy::ReedSolomon(3), Policy::Redundancy(2), Policy::Nil]));
    assert!(AllocBlock::try_new(10, &all, true).is_some());
    assert!(AllocBlock::try_new(0, &all, true).is_none());
}

#[test]
fn blocks_from_parts() {
    let stack = [Policy::Redundancy(2), Policy::Nil, Policy::Nil];
    let block = AllocBlock::from_parts(&stack, 2, vec![1, 2, 3, 4]).unwrap();
    assert_eq!(block.buffer(), &[1, 2, 3, 4]);
    assert_eq!(block.length(), 2);
    assert_eq!(block.buffer_size(), 4);
    assert_eq!(block.policies(), stack);
    assert!(!block.weak_exists());
    assert!(block.is_corrupted());
    // the buffer has not the length of the layout
    assert!(AllocBlock::from_parts(&stack, 2, vec![1, 2, 3]).is_none());
    // the stack cannot guard the bytes
    let none = [Policy::Redundancy(0), Policy::Nil, Policy::Nil];
    assert!(AllocBlock::from_parts(&none, 2, vec![]).is_none());
}

#[test]
fn long_parity_is_encoded_and_checked_but_not_repaired() {
    let stack = [Policy::ReedSolomon(254), Policy::Nil, Policy::Nil];
    let mut block = AllocBlock::new(1, &stack, false);
    assert_eq!(block.buffer_size(), 255);
    assert!(block.can_encode());
    block.apply_policy();
    assert!(!block.is_corrupted());
    block.buffer_mut()[0] ^= 1;
    assert!(block.is_corrupted());
    assert!(!block.can_repair());
}

#[test]
fn longest_parity_that_is_repaired() {
    let stack = [Policy::ReedSolomon(170), Policy::Nil, Policy::Nil];
    let mut block = AllocBlock::new(85, &stack, false);
    assert_eq!(block.buffer_size(), 255);
    for (i, byte) in block.data_slice().iter_mut().enumerate() {
        *byte = i as u8;
    }
    block.apply_policy();
    assert!(block.can_repair());
    let clean = block.buffer().to_vec();
    // half of the parity in errors: the most that the codec repairs
    for i in 0..85 {
        block.buffer_mut()[3 * i] ^= 0xA5;
    }
    assert!(block.is_corrupted());
    assert_eq!(block.correct_buffer(), 85);
    assert_eq!(block.buffer(), &clean[..]);
    assert!(!block.is_corrupted());
}

#[test]
fn new_block_is_zero_and_zeroed_block_is_encoded() {
    let stack = [Policy::Redundancy(2), Policy::ReedSolomon(2), Policy::Nil];
    let block = AllocBlock::new(3, &stack, false);
    assert_eq!(block.buffer(), &[0u8; 10]);
    let block = AllocBlock::new(3, &stack, true);
    assert!(!block.is_corrupted());
    let stack = [Policy::Encrypted, Policy::Nil, Policy::Nil];
    let block = AllocBlock::new(2, &stack, true);
    assert_eq!(&block.buffer()[2..], b"and secret nonce");
    assert_ne!(&block.buffer()[..2], &[0, 0]);
}

#[test]
fn renew_keeps_the_bytes_that_fit_and_encodes_them() {
    let mut block = AllocBlock::new(4, &NONE, false);
    block.buffer_mut().copy_from_slice(&[1, 2, 3, 4]);
    let block = AllocBlock::renew(block, 2, &[Policy::Redundancy(3), Policy::Nil, Policy::Nil]);
    // four bytes kept, two zero bytes added, then the first two copied
    assert_eq!(block.buffer(), &[1, 2, 1, 2, 1, 2]);
    let block = AllocBlock::renew(block, 3, &NONE);
    assert_eq!(block.buffer(), &[1, 2, 1]);
}

#[test]
fn vote_repairs_three_copies_of_one_byte() {
    let mut block = AllocBlock::new(1, &[Policy::Redundancy(3), Policy::Nil, Policy::Nil], false);
    block.buffer_mut().copy_from_slice(&[0x0F, 0x0A, 0x00]);
    assert_eq!(block.is_corrupted(), true);
    assert_eq!(block.correct_buffer(), 4);
    assert_eq!(block.buffer(), &[0x0A, 0x0A, 0x0A]);
}

#[test]
fn parity_repairs_one_byte() {
    let mut block = AllocBlock::new(1, &[Policy::ReedSolomon(3), Policy::Nil, Policy::Nil], false);
    block.buffer_mut()[0] = 0x0F;
    block.apply_policy();
    block.buffer_mut()[0] = 0x0B;
    assert_eq!(block.is_corrupted(), true);
    assert_eq!(block.correct_buffer(), 1);
    assert_eq!(block.buffer()[0], 0x0F);
}

#[test]
fn walk_ends_at_an_empty_slot() {
    // the parity layer stands behind an empty slot: the walks never reach it
    let mut block = AllocBlock::new(1, &[Policy::Nil, Policy::ReedSolomon(3), Policy::Nil], false);
    assert_eq!(block.buffer_size(), 4);
    block.buffer_mut()[0] = 0x0F;
    block.apply_policy();
    assert_eq!(block.buffer(), &[0x0F, 0, 0, 0]);
    block.buffer_mut()[0] = 0x0B;
    assert_eq!(block.is_corrupted(), false);
    assert_eq!(block.correct_buffer(), 0);
    assert_eq!(block.buffer()[0], 0x0B);

    // and so for an encryption layer behind empty slots
    let mut block = AllocBlock::new(16, &[Policy::Nil, Policy::Nil, Policy::Encrypted], false);
    assert_eq!(block.buffer_size(), 32);
    block.buffer_mut()[..16].copy_from_slice(b"sixteen bytes...");
    block.apply_policy();
    assert_eq!(&block.buffer()[..16], b"sixteen bytes...");
    assert_eq!(&block.buffer()[16..], &[0u8; 16]);
}

#[test]
fn vote_masks_a_copy_that_parity_cannot_repair() {
    let stack = [Policy::Redundancy(3), Policy::ReedSolomon(3), Policy::Nil];
    let mut block = AllocBlock::new(1, &stack, false);
    assert_eq!(block.buffer_size(), 12);
    block.buffer_mut()[0] = 0x5A;
    block.apply_policy();
    let clean = block.buffer().to_vec();
    assert_eq!(&clean[0..4], &clean[4..8]);
    assert_eq!(&clean[0..4], &clean[8..12]);
    for i in 0..4 {
        block.buffer_mut()[i] ^= 0xFF;
    }
    assert!(block.is_corrupted());
    assert!(block.correct_buffer() > 0);
    assert_eq!(block.buffer()[0], 0x5A);
    assert_eq!(block.buffer(), &clean[..]);
    assert!(!block.is_corrupted());
}

#[test]
fn round_trip_without_encryption() {
    let stacks = [
        NONE,
        [Policy::Redundancy(3), Policy::Nil, Policy::Nil],
        [Policy::ReedSolomon(5), Policy::Nil, Policy::Nil],
        [Policy::Redundancy(2), Policy::ReedSolomon(4), Policy::Nil],
        [Policy::ReedSolomon(4), Policy::Redundancy(5), Policy::Nil],
        [Policy::Redundancy(3), Policy::Redundancy(3), Policy::ReedSolomon(2)],
    ];
    let text = b"some user bytes";
    for stack in stacks.iter() {
        let mut block = AllocBlock::new(text.len(), stack, false);
        block.data_slice().copy_from_slice(text);
        block.apply_policy();
        assert!(!block.is_corrupted());
        assert_eq!(block.correct_buffer(), 0);
        assert_eq!(&block.buffer()[..text.len()], text);
        // a second encoding changes nothing
        let once = block.buffer().to_vec();
        block.apply_policy();
        assert_eq!(block.buffer(), &once[..]);
    }
}

#[test]
fn encoded_block_with_encryption_is_consistent() {
    let stack = [Policy::Redundancy(3), Policy::ReedSolomon(4), Policy::Encrypted];
    let mut block = AllocBlock::new(5, &stack, false);
    block.data_slice().copy_from_slice(b"hello");
    block.apply_policy();
    assert_ne!(&block.buffer()[..5], b"hello");
    assert!(!block.is_corrupted());
    let before = block.buffer().to_vec();
    assert_eq!(block.correct_buffer(), 0);
    assert_eq!(block.buffer(), &before[..]);
}

#[test]
fn inconsistent_copies_are_reported() {
    let mut block = AllocBlock::new(4, &[Policy::Redundancy(4), Policy::Nil, Policy::Nil], true);
    block.buffer_mut()[9] = 0x01;
    assert!(block.is_corrupted());
    assert_eq!(block.correct_buffer(), 1);
    assert_eq!(block.buffer(), &[0u8; 16]);
}

#[test]
fn encrypt_and_decrypt_work_below_the_outer_layers() {
    let stack = [Policy::Redundancy(2), Policy::ReedSolomon(3), Policy::Encrypted];
    let mut block = AllocBlock::new(7, &stack, false);
    assert_eq!(block.buffer_size(), (7 + 16 + 3) * 2);
    block.data_slice().copy_from_slice(&[1, 2, 3, 4, 5, 6, 7]);
    block.encrypt_buffer();
    assert_eq!(&block.buffer()[..7], &[6, 245, 126, 124, 180, 146, 37]);
    assert_eq!(&block.buffer()[7..23], b"and secret nonce");
    assert_eq!(&block.buffer()[23..], &[0u8; 29]);
    block.decrypt_buffer();
    assert_eq!(&block.buffer()[..7], &[1, 2, 3, 4, 5, 6, 7]);
    assert_eq!(&block.buffer()[7..23], b"and secret nonce");
    assert_eq!(&block.buffer()[23..], &[0u8; 29]);

    // nothing to do without an encryption layer
    let mut block = AllocBlock::new(3, &[Policy::Redundancy(2), Policy::Nil, Policy::Nil], false);
    block.buffer_mut().copy_from_slice(&[1, 2, 3, 4, 5, 6]);
    block.encrypt_buffer();
    block.decrypt_buffer();
    assert_eq!(block.buffer(), &[1, 2, 3, 4, 5, 6]);
}

#[test]
fn decrypt_reads_the_nonce_from_the_buffer() {
    let mut block = AllocBlock::new(7, &[Policy::Encrypted, Policy::Nil, Policy::Nil], false);
    block.data_slice().copy_from_slice(&[6, 245, 126, 124, 180, 146, 37]);
    // under a nonce of zero bytes the keystream is another one
    block.decrypt_buffer();
    assert_ne!(&block.buffer()[..7], &[1, 2, 3, 4, 5, 6, 7]);
    block.decrypt_buffer();
    block.buffer_mut()[7..].copy_from_slice(b"and secret nonce");
    block.decrypt_buffer();
    assert_eq!(&block.buffer()[..7], &[1, 2, 3, 4, 5, 6, 7]);
}

#[test]
fn ffi_forms_do_what_the_methods_do() {
    let stack = [Policy::Redundancy(3), Policy::Encrypted, Policy::Nil];
    let mut block = AllocBlock::new(2, &stack, false);
    AllocBlock::data_slice_ffi(&mut block)[..2].copy_from_slice(&[0xAB, 0xCD]);
    AllocBlock::apply_policy_ffi(&mut block);
    let clean = block.buffer().to_vec();
    assert_eq!(clean.len(), 54);
    assert_eq!(&clean[..18], &clean[18..36]);
    AllocBlock::data_slice_ffi(&mut block)[20] ^= 0x81;
    assert_eq!(AllocBlock::correct_buffer_ffi(&mut block), 2);
    assert_eq!(block.buffer(), &clean[..]);
    AllocBlock::decrypt_buffer_ffi(&mut block);
    assert_eq!(&block.buffer()[..2], &[0xAB, 0xCD]);
    AllocBlock::encrypt_buffer_ffi(&mut block);
    assert_eq!(&block.buffer()[..18], &clean[..18]);
}

#[test]
fn weak_flag() {
    let mut block = AllocBlock::new(1, &NONE, false);
    assert!(!block.weak_exists());
    block.set_weak_exists();
    assert!(block.weak_exists());
    block.reset_weak_exists();
    assert!(!block.weak_exists());
}

#[test]
fn helpers_on_a_bare_buffer() {
    let stack = [Policy::Redundancy(2), Policy::ReedSolomon(2), Policy::Nil];
    let mut buffer = [5u8, 6, 0, 0, 0, 0, 0, 0];
    assert!(AllocBlock::walk_fits(&stack, 0, buffer.len()));
    assert!(!AllocBlock::walk_fits(&stack, 0, 7));
    assert!(AllocBlock::splits_fit(&stack, 0, buffer.len()));
    assert!(!AllocBlock::splits_fit(&stack, 0, 7));
    // two copies of four bytes: a vote on eight bytes and two parities of two
    assert_eq!(AllocBlock::repair_fits(&stack, 0, buffer.len()), Some(4 * 8 + 2 * 1));
    assert_eq!(AllocBlock::repair_fits(&stack, 0, 7), None);
    let many = [Policy::Redundancy(1 << 31), Policy::ReedSolomon(2), Policy::Nil];
    assert_eq!(AllocBlock::repair_fits(&many, 0, 3 << 31), None);
    assert!(AllocBlock::span_fits(&stack, buffer.len()));
    assert_eq!(AllocBlock::span_of(&stack, buffer.len()), 2);
    assert_eq!(AllocBlock::find_first(&stack, Policy::ReedSolomon(0)), Some(Policy::ReedSolomon(2)));
    assert_eq!(AllocBlock::find_first(&stack, Policy::Encrypted), None);
    AllocBlock::apply_policy_helper(&stack, 0, &mut buffer);
    assert_eq!(&buffer[..4], &buffer[4..]);
    assert!(!AllocBlock::is_corrupted_helper(&stack, 0, &buffer));
    buffer[5] ^= 0x10;
    assert!(AllocBlock::is_corrupted_helper(&stack, 0, &buffer));
    // the parity layer repairs the byte in its copy before the vote
    assert_eq!(AllocBlock::correct_bits_helper(&stack, 0, &mut buffer), 1);
    assert_eq!(&buffer[..2], &[5, 6]);
    assert!(!AllocBlock::is_corrupted_helper(&stack, 0, &buffer));
    // from slot 1 on, the walk sees one copy
    assert!(!AllocBlock::is_corrupted_helper(&stack, 1, &buffer[..4]));
}
