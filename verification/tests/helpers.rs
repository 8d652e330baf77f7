use stack_queue::helpers::{
    counter_index, current_region, frontal_count, next_counter, one_shifted, region_mask, region_shift,
    region_size, regional_count, slot_counter, slot_index, INDEX_SHIFT, REGION_COUNT,
};

#[test]
fn a_buffer_has_eight_regions() {
    assert_eq!(REGION_COUNT, 8);
    assert_eq!(region_size::<64>(), 8);
    assert_eq!(region_size::<512>(), 64);
    assert_eq!(region_shift::<64>(), 3);
    assert_eq!(region_shift::<512>(), 6);
    assert_eq!(current_region::<64>(0), 0);
    assert_eq!(current_region::<64>(7), 0);
    assert_eq!(current_region::<64>(8), 1);
    assert_eq!(current_region::<64>(63), 7);
    assert_eq!(current_region::<512>(448), 7);
}

#[test]
fn a_region_has_eight_bits() {
    assert_eq!(region_mask::<64>(0), 0xff);
    assert_eq!(region_mask::<64>(8), 0xff00);
    assert_eq!(region_mask::<64>(63), 0xff << 56);
    assert_eq!(one_shifted::<64>(0), 1);
    assert_eq!(one_shifted::<64>(9), 0x100);
    assert_eq!(one_shifted::<64>(63), 1 << 56);
    assert_eq!(regional_count(0x0302_01ff, 0), 255);
    assert_eq!(regional_count(0x0302_01ff, 1), 1);
    assert_eq!(regional_count(0x0302_01ff, 3), 3);
    assert_eq!(regional_count(0x0302_01ff, 7), 0);
    assert_eq!(frontal_count(0x0302_01ff, 0), 0x01ff);
    assert_eq!(frontal_count(0x0302_01ff, 2), 0x0302);
    assert_eq!(frontal_count(0xfe << 56, 7), 0xfe);
}

#[test]
fn masks_cover_the_word_once() {
    let mut word = 0usize;
    for region in 0..8 {
        let mask = region_mask::<64>(region * 8);
        assert_eq!(word & mask, 0);
        word |= mask;
        assert_eq!(mask & one_shifted::<64>(region * 8), one_shifted::<64>(region * 8));
    }
    assert_eq!(word, usize::MAX);
}

#[test]
fn a_slot_gives_an_index() {
    assert_eq!(INDEX_SHIFT, 32);
    assert_eq!(slot_index::<64>(0), 0);
    assert_eq!(slot_index::<64>(1), 0);
    assert_eq!(slot_index::<64>((5 << 32) | 1), 5);
    assert_eq!(slot_index::<64>(64 << 32), 0);
    assert_eq!(slot_index::<64>(usize::MAX), 63);
    assert_eq!(slot_counter((70 << 32) | 1), 70);
    assert_eq!(counter_index::<64>(70), 6);
}

#[test]
fn the_counter_wraps_around() {
    let last = usize::MAX << 32;
    assert_eq!(slot_index::<512>(last), 511);
    assert_eq!(slot_index::<512>(last.wrapping_add(1 << 32)), 0);
    assert_eq!(next_counter(41), 42);
    assert_eq!(next_counter(u32::MAX as usize), 0);
}

#[test]
fn overflow_of_a_counter_shows_in_the_next_region() {
    let one = one_shifted::<4096>(0);
    let occupancy = (0..256).fold(0usize, |word, _| word.wrapping_add(one));
    assert_ne!(occupancy & region_mask::<4096>(512), 0);
    let occupancy = occupancy.wrapping_sub(one);
    assert_eq!(occupancy & region_mask::<4096>(512), 0);
}
