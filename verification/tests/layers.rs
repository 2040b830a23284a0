use er_alloc::cipher::{KEY, KEY_LEN, NONCE, NONCE_LEN};
use er_alloc::codec::{RS_BLOCK_MAX, RS_PARITY_MAX};
use er_alloc::policies::{Policy, MAX_POLICIES};

#[test]
fn constants() {
    assert_eq!(MAX_POLICIES, 3);
    assert_eq!(KEY_LEN, 16);
    assert_eq!(NONCE_LEN, 16);
    assert_eq!(&KEY, b"very secret key.");
    assert_eq!(&NONCE, b"and secret nonce");
    assert_eq!(RS_BLOCK_MAX, 255);
    assert_eq!(RS_PARITY_MAX, 170);
}

#[test]
fn kinds() {
    assert!(Policy::Redundancy(3).is_red());
    assert!(!Policy::Redundancy(3).is_rs());
    assert!(!Policy::Redundancy(3).is_crypt());
    assert!(Policy::ReedSolomon(2).is_rs());
    assert!(!Policy::ReedSolomon(2).is_red());
    assert!(Policy::Encrypted.is_crypt());
    assert!(!Policy::Nil.is_red() && !Policy::Nil.is_rs() && !Policy::Nil.is_crypt());
    assert!(Policy::Redundancy(1).is_kind(&Policy::Redundancy(9)));
    assert!(Policy::Nil.is_kind(&Policy::Nil));
    assert!(!Policy::Encrypted.is_kind(&Policy::Nil));
    assert!(!Policy::ReedSolomon(1).is_kind(&Policy::Redundancy(1)));
}

#[test]
fn split_lengths() {
    let buffer = [0u8, 1, 2, 3, 4, 5, 6, 7, 8, 9, 10, 11, 12, 13, 14, 15, 16, 17];
    let (data, meta) = Policy::Redundancy(3).split_buffer(&buffer);
    assert_eq!(data, &[0, 1, 2, 3, 4, 5]);
    assert_eq!(meta, &[6, 7, 8, 9, 10, 11, 12, 13, 14, 15, 16, 17]);
    let (data, meta) = Policy::ReedSolomon(4).split_buffer(&buffer);
    assert_eq!(data.len(), 14);
    assert_eq!(meta, &[14, 15, 16, 17]);
    let (data, meta) = Policy::Encrypted.split_buffer(&buffer);
    assert_eq!(data, &[0, 1]);
    assert_eq!(meta.len(), 16);
    let (data, meta) = Policy::Nil.split_buffer(&buffer);
    assert_eq!(data.len(), 17);
    assert_eq!(meta, &[17]);
    assert_eq!(Policy::ReedSolomon(4).get_data(&buffer), &buffer[..14]);
    assert_eq!(Policy::Redundancy(2).split_point(18), 9);
}

#[test]
fn split_mut_writes_through() {
    let mut buffer = [0u8; 6];
    {
        let (data, meta) = Policy::Redundancy(3).split_buffer_mut(&mut buffer);
        data[0] = 1;
        meta[3] = 9;
    }
    assert_eq!(buffer, [1, 0, 0, 0, 0, 9]);
    Policy::ReedSolomon(2).get_data_mut(&mut buffer)[3] = 7;
    assert_eq!(buffer, [1, 0, 0, 7, 0, 9]);
}

#[test]
fn what_can_be_split_and_encoded() {
    assert!(Policy::Redundancy(3).can_split(9));
    assert!(!Policy::Redundancy(3).can_split(10));
    assert!(!Policy::Redundancy(0).can_split(0));
    assert!(Policy::Redundancy(3).can_split(0));
    assert!(Policy::ReedSolomon(3).can_split(4));
    assert!(!Policy::ReedSolomon(3).can_split(3));
    assert!(Policy::Encrypted.can_split(17));
    assert!(!Policy::Encrypted.can_split(16));
    assert!(Policy::Nil.can_split(1));
    assert!(!Policy::Nil.can_split(0));

    assert!(Policy::ReedSolomon(3).can_encode(255));
    assert!(!Policy::ReedSolomon(3).can_encode(256));
    assert!(Policy::Redundancy(2).can_encode(1 << 31));
    assert!(!Policy::Redundancy(2).can_encode((1 << 31) + 1));
    // a vote counts up to four errors for a byte, in 32 bits
    assert!(Policy::Redundancy(2).can_check((1 << 30) - 2));
    assert!(!Policy::Redundancy(2).can_check(1 << 30));
    assert!(Policy::ReedSolomon(3).can_check(255));
    assert!(Policy::ReedSolomon(170).can_check(255));
    assert!(!Policy::ReedSolomon(171).can_check(255));
    assert!(Policy::ReedSolomon(171).can_encode(255));
    assert!(!Policy::ReedSolomon(3).can_check(256));
    assert!(!Policy::ReedSolomon(3).can_check(3));
    assert!(Policy::Encrypted.can_check(0));
    assert!(Policy::Nil.can_check(0));
    assert!(Policy::Nil.can_encode(0));
    assert!(!Policy::Encrypted.can_encode(16));
    assert!(Policy::Redundancy(1).is_well_formed());
    assert!(!Policy::Redundancy(0).is_well_formed());
    assert!(Policy::ReedSolomon(0).is_well_formed());
}

#[test]
fn redundancy_layer() {
    let layer = Policy::Redundancy(3);
    let mut buffer = [7u8, 8, 0, 0, 1, 1];
    assert!(layer.is_corrupted(&buffer));
    layer.apply_policy(&mut buffer);
    assert_eq!(buffer, [7, 8, 7, 8, 7, 8]);
    assert!(!layer.is_corrupted(&buffer));
    assert_eq!(layer.correct_buffer(&mut buffer), 0);

    buffer[2] = 0xFF;
    assert!(layer.is_corrupted(&buffer));
    // 0xFF against 7 = 0b111 twice: five bits lose
    assert_eq!(layer.correct_buffer(&mut buffer), 5);
    assert_eq!(buffer, [7, 8, 7, 8, 7, 8]);
}

#[test]
fn redundancy_restores_up_to_two_of_five_copies() {
    let layer = Policy::Redundancy(5);
    let mut buffer = [0u8; 10];
    buffer[0] = 0x3C;
    buffer[1] = 0xC3;
    layer.apply_policy(&mut buffer);
    let clean = buffer;
    // two copies of byte 0 and two other copies of byte 1 are lost
    buffer[0] = 0x00;
    buffer[2] = 0xFF;
    buffer[5] = 0x55;
    buffer[9] = 0xAA;
    assert!(layer.is_corrupted(&buffer));
    assert!(layer.correct_buffer(&mut buffer) > 0);
    assert_eq!(buffer, clean);
}

#[test]
fn parity_layer_encodes_as_the_codec_does() {
    let layer = Policy::ReedSolomon(8);
    let mut buffer = [0u8; 38];
    for i in 0..30 {
        buffer[i] = i as u8;
    }
    layer.apply_policy(&mut buffer);
    for i in 0..30 {
        assert_eq!(buffer[i], i as u8);
    }
    assert_eq!(&buffer[30..], &[99, 26, 219, 193, 9, 94, 186, 143]);
    assert!(!layer.is_corrupted(&buffer));
    assert_eq!(layer.correct_buffer(&mut buffer), 0);
}

#[test]
fn parity_layer_repairs_half_its_length() {
    let layer = Policy::ReedSolomon(4);
    let mut buffer = [10u8, 20, 30, 40, 50, 60, 0, 0, 0, 0];
    layer.apply_policy(&mut buffer);
    let clean = buffer;
    buffer[1] ^= 0x5A;
    buffer[8] ^= 0x01;
    assert!(layer.is_corrupted(&buffer));
    assert_eq!(layer.correct_buffer(&mut buffer), 2);
    assert_eq!(buffer, clean);
    assert!(!layer.is_corrupted(&buffer));
}

#[test]
fn parity_layer_gives_up_silently() {
    let layer = Policy::ReedSolomon(2);
    let mut buffer = [1u8, 2, 3, 4, 5, 6, 7, 8, 0, 0];
    layer.apply_policy(&mut buffer);
    buffer[0] ^= 0xFF;
    buffer[3] ^= 0x0F;
    buffer[5] ^= 0x33;
    let broken = buffer;
    assert!(layer.is_corrupted(&buffer));
    let errors = layer.correct_buffer(&mut buffer);
    // too much for two parity bytes: either nothing is done, or what is
    // done passes the codec's check
    if errors == 0 {
        assert_eq!(buffer, broken);
    } else {
        assert!(!layer.is_corrupted(&buffer));
    }
}

#[test]
fn encryption_layer_matches_the_cipher() {
    let layer = Policy::Encrypted;
    let mut buffer = [0u8; 23];
    buffer[..7].copy_from_slice(&[1, 2, 3, 4, 5, 6, 7]);
    layer.apply_policy(&mut buffer);
    assert_eq!(&buffer[..7], &[6, 245, 126, 124, 180, 146, 37]);
    assert_eq!(&buffer[7..], b"and secret nonce");
    assert!(!layer.is_corrupted(&buffer));
    let before = buffer;
    assert_eq!(layer.correct_buffer(&mut buffer), 0);
    assert_eq!(buffer, before);
    // encoding again decrypts: the cipher is its own inverse
    layer.apply_policy(&mut buffer);
    assert_eq!(&buffer[..7], &[1, 2, 3, 4, 5, 6, 7]);
}

#[test]
fn nil_layer_does_nothing() {
    let layer = Policy::Nil;
    let mut buffer = [9u8, 8, 7];
    layer.apply_policy(&mut buffer);
    assert_eq!(buffer, [9, 8, 7]);
    assert!(!layer.is_corrupted(&buffer));
    assert_eq!(layer.correct_buffer(&mut buffer), 0);
    assert_eq!(buffer, [9, 8, 7]);
}
