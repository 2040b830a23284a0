use er_alloc::block::AllocBlock;
use er_alloc::policies::Policy;

#[test]
fn redundancy_check() {
    let mut block = AllocBlock::new(1, &[Policy::Redundancy(3), Policy::Nil, Policy::Nil], false);

    let slice = block.buffer_mut();
    slice[0] = 0b1111;
    slice[1] = 0b1010;
    slice[2] = 0b0000;
    assert_eq!(block.is_corrupted(), true);
    assert_eq!(block.correct_buffer(), 4);
    assert_eq!(block.is_corrupted(), false);
    let slice = block.buffer();
    for idx in 0..3 {
        assert_eq!(slice[idx], 0b1010 as u8);
    }
}

#[test]
fn fec_check() {
    let mut block = AllocBlock::new(1, &[Policy::ReedSolomon(3), Policy::Nil, Policy::Nil], false);

    let slice = block.buffer_mut();
    slice[0] = 0b1111;
    block.apply_policy();
    let slice = block.buffer_mut();
    slice[0] = 0b1011;
    assert_eq!(block.is_corrupted(), true);
    assert_eq!(block.correct_buffer(), 1);
    assert_eq!(block.is_corrupted(), false);
    let slice = block.buffer();
    assert_eq!(slice[0], 0b1111 as u8);
}
