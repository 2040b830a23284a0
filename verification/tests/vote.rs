use er_alloc::vote::correct_bits_redundant;

#[test]
fn vote_repairs_one_index_only() {
    // three copies of two bytes; index 0 is voted on, index 1 is not
    let mut buffer = [0b1111u8, 0x11, 0b1010, 0x22, 0b0000, 0x33];
    let errors = correct_bits_redundant(&mut buffer, 3, 0);
    assert_eq!(errors, 4);
    assert_eq!(buffer, [0b1010, 0x11, 0b1010, 0x22, 0b1010, 0x33]);
}

#[test]
fn vote_on_equal_copies_reports_nothing() {
    let mut buffer = [0xA5u8, 0xA5, 0xA5, 0xA5, 0xA5];
    assert_eq!(correct_bits_redundant(&mut buffer, 5, 0), 0);
    assert_eq!(buffer, [0xA5; 5]);
}

#[test]
fn vote_counts_the_smaller_side_of_every_bit() {
    // five copies: bit 0 is set in two, bit 7 in four, bit 3 in one
    let mut buffer = [0b1000_0001u8, 0b1000_0001, 0b1000_1000, 0b1000_0000, 0b0000_0000];
    assert_eq!(correct_bits_redundant(&mut buffer, 5, 0), 2 + 1 + 1);
    assert_eq!(buffer, [0b1000_0000; 5]);
}

#[test]
fn tied_bits_stay_as_they_are_and_are_counted() {
    // two copies: the bits in which they differ are tied
    let mut buffer = [0b1100u8, 0b1010];
    assert_eq!(correct_bits_redundant(&mut buffer, 2, 0), 2);
    assert_eq!(buffer, [0b1100, 0b1010]);

    // four copies: bit 0 is tied two to two, bit 1 has a majority of three
    let mut buffer = [0b11u8, 0b11, 0b10, 0b00];
    assert_eq!(correct_bits_redundant(&mut buffer, 4, 0), 2 + 1);
    assert_eq!(buffer, [0b11, 0b11, 0b10, 0b10]);
}

#[test]
fn single_copy_is_its_own_majority() {
    let mut buffer = [0x5Au8, 0x3C];
    assert_eq!(correct_bits_redundant(&mut buffer, 1, 1), 0);
    assert_eq!(buffer, [0x5A, 0x3C]);
}
