use buddy_memory::data_structures::bits;
use buddy_memory::utils;

#[test]
fn bits_foo_set_bit() {
    let mut bits = vec![0_usize; 4];
    bits::set_bit(&mut bits, 4, true);

    assert!(bits::get_bit(&bits, 4));
}

#[test]
fn utils_foo_set_bit() {
    let mut bits = vec![0_usize; 4];
    utils::set_bit(&mut bits, 4, true);

    assert!(utils::get_bit(&bits, 4));
}

#[test]
fn bit_index_beyond_one_word() {
    let mut bits = vec![0_usize; 4];
    let index = usize::BITS as usize + 4;
    bits::set_bit_true(&mut bits, 4);
    assert!(bits::get_bit(&bits, 4));
    assert!(!bits::get_bit(&bits, 3));
    bits::set_bit_true(&mut bits, index);
    assert!(bits::get_bit(&bits, index));
    assert!(!bits::get_bit(&bits, index - 1));
    assert_eq!(bits, vec![16, 16, 0, 0]);
}

#[test]
fn set_true_then_false_reads_false() {
    let mut bits = vec![0_usize; 2];
    bits::set_bit_true(&mut bits, 9);
    assert_eq!(bits[0], 1 << 9);
    bits::set_bit_false(&mut bits, 9);
    assert!(!bits::get_bit(&bits, 9));
    assert_eq!(bits, vec![0, 0]);
}

#[test]
fn set_bit_writes_the_given_value() {
    let mut bits = vec![!0_usize; 2];
    bits::set_bit(&mut bits, 3, false);
    assert!(!bits::get_bit(&bits, 3));
    assert!(bits::get_bit(&bits, 2));
    assert!(bits::get_bit(&bits, 4));
    assert_eq!(bits[0], !0_usize & !(1 << 3));
    bits::set_bit(&mut bits, 3, true);
    assert!(bits::get_bit(&bits, 3));
    assert_eq!(bits, vec![!0_usize; 2]);
}

#[test]
fn new_bitmask_vec_rounds_up_to_whole_words() {
    let word = usize::BITS as usize;
    assert_eq!(utils::new_bitmask_vec(0, true).len(), 0);
    assert_eq!(utils::new_bitmask_vec(1, true), vec![!0_usize]);
    assert_eq!(utils::new_bitmask_vec(word, false), vec![0_usize]);
    assert_eq!(utils::new_bitmask_vec(word + 1, false), vec![0_usize, 0]);
    let all = utils::new_bitmask_vec(2 * word, true);
    assert!(utils::get_bit(&all, 2 * word - 1));
}

#[test]
fn utils_set_bit_true_and_false() {
    let mut bits = vec![0_usize; 1];
    utils::set_bit_true(&mut bits, 0);
    assert_eq!(bits[0], 1);
    utils::set_bit_false(&mut bits, 0);
    assert_eq!(bits[0], 0);
}

#[test]
fn utils_align_up_and_down() {
    assert_eq!(utils::align_up(0, 8), 0);
    assert_eq!(utils::align_up(1, 8), 8);
    assert_eq!(utils::align_up(8, 8), 8);
    assert_eq!(utils::align_up(9, 8), 16);
    assert_eq!(utils::align_down(15, 8), 8);
    assert_eq!(utils::align_down(16, 8), 16);
    assert_eq!(utils::align_down(7, 1), 7);
}
