use ecs_store::flags::{find_flag, fits, flag_mask, flags_apart, holds_flag, Flag};

fn flag(id: u8, start: u8, end: u8) -> Flag<u8> {
    Flag { id, start, end }
}

#[test]
fn find_flag_gives_the_index_of_the_name() {
    let flags = vec![flag(10, 0, 2), flag(20, 2, 3), flag(30, 3, 6)];
    assert_eq!(find_flag(&flags, 10), Some(0));
    assert_eq!(find_flag(&flags, 20), Some(1));
    assert_eq!(find_flag(&flags, 30), Some(2));
    assert_eq!(find_flag(&flags, 40), None);
    assert_eq!(find_flag(&Vec::<Flag<u8>>::new(), 10), None);
}

#[test]
fn flags_apart_compares_the_reserved_bits() {
    assert!(flags_apart(&flag(1, 0, 2), &flag(2, 2, 4)));
    assert!(flags_apart(&flag(1, 2, 4), &flag(2, 0, 2)));
    assert!(!flags_apart(&flag(1, 0, 3), &flag(2, 2, 4)));
    assert!(!flags_apart(&flag(1, 0, 8), &flag(2, 3, 4)));
    assert!(flags_apart(&flag(1, 3, 3), &flag(2, 0, 8)));
    assert!(flags_apart(&flag(1, 5, 2), &flag(2, 0, 8)));
}

#[test]
fn a_schema_that_fills_the_mask_exactly_fits() {
    assert!(fits(2, &vec![flag(1, 0, 2), flag(2, 2, 6)], 8));
    assert!(fits(8, &Vec::<Flag<u8>>::new(), 8));
    assert!(fits(0, &vec![flag(1, 0, 8)], 8));
    assert!(fits(0, &Vec::<Flag<u8>>::new(), 8));
}

#[test]
fn a_schema_wider_than_the_mask_does_not_fit() {
    assert!(!fits(9, &Vec::<Flag<u8>>::new(), 8));
    assert!(!fits(7, &vec![flag(1, 0, 2)], 8));
    assert!(!fits(2, &vec![flag(1, 0, 2), flag(2, 2, 7)], 8));
    assert!(!fits(0, &vec![flag(1, 0, 9)], 8));
    assert!(fits(7, &vec![flag(1, 0, 2)], 16));
}

#[test]
fn a_flag_that_reaches_past_the_mask_does_not_fit() {
    assert!(!fits(2, &vec![flag(1, 5, 7)], 8));
    assert!(fits(2, &vec![flag(1, 4, 6)], 8));
}

#[test]
fn overlapping_flags_do_not_fit() {
    assert!(!fits(1, &vec![flag(1, 0, 3), flag(2, 2, 4)], 8));
    assert!(!fits(1, &vec![flag(1, 0, 2), flag(2, 2, 4), flag(3, 3, 5)], 16));
    assert!(fits(1, &vec![flag(1, 0, 2), flag(2, 2, 4), flag(3, 4, 5)], 16));
}

#[test]
fn a_flag_without_bits_takes_no_room() {
    assert!(fits(8, &vec![flag(1, 3, 3)], 8));
    assert!(fits(8, &vec![flag(1, 200, 100)], 8));
    assert!(fits(2, &vec![flag(1, 0, 6), flag(2, 4, 4)], 8));
}

#[test]
fn flag_mask_without_variant_is_the_range_above_the_components() {
    assert_eq!(flag_mask::<u8, u8>(&flag(1, 0, 2), 2, None), 0b0000_1100);
    assert_eq!(flag_mask::<u8, u8>(&flag(1, 0, 2), 0, None), 0b0000_0011);
    assert_eq!(flag_mask::<u8, u8>(&flag(1, 2, 5), 1, None), 0b0011_1000);
    assert_eq!(flag_mask::<u8, u8>(&flag(1, 0, 8), 0, None), 0xFF);
    assert_eq!(flag_mask::<u16, u8>(&flag(1, 4, 8), 8, None), 0xF000);
}

#[test]
fn flag_mask_with_variant_places_the_variant_at_the_start_of_the_range() {
    assert_eq!(flag_mask::<u8, u8>(&flag(1, 0, 2), 2, Some(0)), 0);
    assert_eq!(flag_mask::<u8, u8>(&flag(1, 0, 2), 2, Some(1)), 0b0000_0100);
    assert_eq!(flag_mask::<u8, u8>(&flag(1, 0, 2), 2, Some(2)), 0b0000_1000);
    assert_eq!(flag_mask::<u8, u8>(&flag(1, 0, 2), 2, Some(3)), 0b0000_1100);
    assert_eq!(flag_mask::<u8, u8>(&flag(1, 2, 5), 1, Some(0b101)), 0b0010_1000);
    assert_eq!(flag_mask::<u32, u8>(&flag(1, 3, 7), 10, Some(0b1001)), 0b1001 << 13);
}

#[test]
fn flag_mask_drops_the_variant_bits_that_do_not_fit_the_range() {
    assert_eq!(flag_mask::<u8, u8>(&flag(1, 0, 2), 2, Some(5)), 0b0000_0100);
    assert_eq!(flag_mask::<u8, u8>(&flag(1, 0, 2), 2, Some(0xFF)), 0b0000_1100);
    assert_eq!(flag_mask::<u8, u8>(&flag(1, 1, 2), 0, Some(2)), 0);
}

#[test]
fn flag_mask_of_a_flag_without_bits_is_zero() {
    assert_eq!(flag_mask::<u8, u8>(&flag(1, 3, 3), 2, None), 0);
    assert_eq!(flag_mask::<u8, u8>(&flag(1, 3, 3), 2, Some(0xFF)), 0);
    assert_eq!(flag_mask::<u8, u8>(&flag(1, 8, 8), 0, None), 0);
    assert_eq!(flag_mask::<u8, u8>(&flag(1, 6, 2), 8, Some(1)), 0);
}

#[test]
fn a_flag_is_present_when_the_mask_has_a_bit_of_its_range() {
    assert!(holds_flag(0b0000_0100u8, 0b0000_1100u8, None));
    assert!(holds_flag(0b0000_1000u8, 0b0000_1100u8, None));
    assert!(holds_flag(0b1111_1111u8, 0b0000_1100u8, None));
    assert!(!holds_flag(0b1111_0011u8, 0b0000_1100u8, None));
    assert!(!holds_flag(0u8, 0b0000_1100u8, None));
    assert!(!holds_flag(0xFFu8, 0u8, None));
}

#[test]
fn a_flag_equals_a_variant_when_the_bits_in_its_range_are_those_of_the_variant() {
    assert!(holds_flag(0b0000_0100u8, 0b0000_1100u8, Some(0b0000_0100u8)));
    assert!(holds_flag(0b1111_0111u8, 0b0000_1100u8, Some(0b0000_0100u8)));
    assert!(!holds_flag(0b0000_1100u8, 0b0000_1100u8, Some(0b0000_0100u8)));
    assert!(!holds_flag(0b0000_1000u8, 0b0000_1100u8, Some(0b0000_0100u8)));
    assert!(!holds_flag(0b0000_0000u8, 0b0000_1100u8, Some(0b0000_0100u8)));
    assert!(holds_flag(0b1111_0011u8, 0b0000_1100u8, Some(0u8)));
    assert!(!holds_flag(0b0000_0100u8, 0b0000_1100u8, Some(0u8)));
    assert!(holds_flag(1u64 << 63, 3u64 << 62, Some(1u64 << 63)));
    assert!(!holds_flag(3u64 << 62, 3u64 << 62, Some(1u64 << 63)));
}
