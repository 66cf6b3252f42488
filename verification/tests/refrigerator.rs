use arena_alloc::refrigerator::{Fridge, BITSET_LENGTH, FRIDGE_LENGTH};

fn set_bits(fridge: &Fridge) -> u32 {
    fridge.bitset.iter().map(|byte| byte.count_ones()).sum()
}

#[test]
fn pool_has_one_bit_per_slot() {
    assert_eq!(BITSET_LENGTH, 32);
    assert_eq!(FRIDGE_LENGTH, 256);
    let fridge = Fridge::new(0x8000, 16);
    assert_eq!(fridge.bitset, [0u8; 32]);
    assert_eq!(fridge.heap_begin, 0x8000);
    assert_eq!(fridge.block_size, 16);
}

#[test]
fn first_trailing_zero_is_the_lowest_clear_bit() {
    assert_eq!(Fridge::first_trailing_zero(0b0000_0000), 0);
    assert_eq!(Fridge::first_trailing_zero(0b0000_0001), 1);
    assert_eq!(Fridge::first_trailing_zero(0b0000_0011), 2);
    assert_eq!(Fridge::first_trailing_zero(0b1111_1011), 2);
    assert_eq!(Fridge::first_trailing_zero(0b1000_0000), 0);
    assert_eq!(Fridge::first_trailing_zero(0b0111_1111), 7);
    assert_eq!(Fridge::first_trailing_zero(0b1011_1111), 6);
    assert_eq!(Fridge::first_trailing_zero(0b1111_1111), -1);
}

#[test]
fn pool_of_256_slots_fills_up_and_reuses_slot_0() {
    let mut fridge = Fridge::new(0x8000, 16);
    for slot in 0..256 {
        assert_eq!(fridge.allocate(16, 16), Some(0x8000 + 16 * slot));
        assert_eq!(set_bits(&fridge), slot as u32 + 1);
    }
    assert_eq!(fridge.bitset, [0xffu8; 32]);
    assert_eq!(fridge.allocate(16, 16), None);
    assert_eq!(fridge.allocate(1, 1), None);
    assert_eq!(fridge.bitset, [0xffu8; 32]);
    fridge.dealloc(0x8000);
    assert_eq!(set_bits(&fridge), 255);
    assert_eq!(fridge.allocate(8, 8), Some(0x8000));
    assert_eq!(fridge.allocate(8, 8), None);
}

#[test]
fn request_that_a_slot_cannot_hold_fails_and_leaves_the_bits() {
    let mut fridge = Fridge::new(0x8000, 16);
    fridge.allocate(4, 4);
    fridge.allocate(4, 4);
    let before = fridge.bitset;
    assert_eq!(fridge.allocate(17, 1), None);
    assert_eq!(fridge.allocate(1, 32), None);
    assert_eq!(fridge.allocate(usize::MAX, 1), None);
    assert_eq!(fridge.bitset, before);
    assert_eq!(fridge.allocate(16, 16), Some(0x8020));
    assert_eq!(fridge.allocate(0, 1), Some(0x8030));
}

#[test]
fn lowest_free_slot_is_reused_first() {
    let mut fridge = Fridge::new(0x1000, 8);
    for _ in 0..20 {
        fridge.allocate(8, 8);
    }
    fridge.dealloc(0x1000 + 8 * 13);
    fridge.dealloc(0x1000 + 8 * 5);
    fridge.dealloc(0x1000 + 8 * 17);
    assert_eq!(fridge.bitset[0], 0b1101_1111);
    assert_eq!(fridge.bitset[1], 0b1101_1111);
    assert_eq!(fridge.bitset[2], 0b0000_1101);
    assert_eq!(fridge.allocate(8, 8), Some(0x1000 + 8 * 5));
    assert_eq!(fridge.allocate(8, 8), Some(0x1000 + 8 * 13));
    assert_eq!(fridge.allocate(8, 8), Some(0x1000 + 8 * 17));
    assert_eq!(fridge.allocate(8, 8), Some(0x1000 + 8 * 20));
}

#[test]
fn freeing_gives_the_live_count_back() {
    let mut fridge = Fridge::new(0x1000, 32);
    for _ in 0..7 {
        fridge.allocate(32, 1);
    }
    let before = fridge.bitset;
    assert_eq!(set_bits(&fridge), 7);
    let ptr = fridge.allocate(24, 8).unwrap();
    assert_eq!(ptr, 0x1000 + 7 * 32);
    assert_eq!(set_bits(&fridge), 8);
    fridge.dealloc(ptr);
    assert_eq!(set_bits(&fridge), 7);
    assert_eq!(fridge.bitset, before);
    assert_eq!(fridge.allocate(24, 8), Some(ptr));
}

#[test]
fn address_outside_the_slots_is_ignored() {
    let mut fridge = Fridge::new(0x8000, 16);
    for _ in 0..256 {
        fridge.allocate(16, 1);
    }
    fridge.dealloc(0x7fff);
    fridge.dealloc(0);
    fridge.dealloc(0x8000 + 256 * 16);
    fridge.dealloc(usize::MAX);
    assert_eq!(fridge.bitset, [0xffu8; 32]);
}

#[test]
fn address_inside_a_slot_frees_that_slot() {
    let mut fridge = Fridge::new(0x8000, 16);
    for _ in 0..256 {
        fridge.allocate(16, 1);
    }
    fridge.dealloc(0x8000 + 16 * 9 + 15);
    assert_eq!(fridge.bitset[1], 0b1111_1101);
    // the last slot belongs to the slot array
    fridge.dealloc(0x8000 + 16 * 255);
    assert_eq!(fridge.bitset[31], 0b0111_1111);
    assert_eq!(set_bits(&fridge), 254);
    // freeing a free slot changes nothing
    fridge.dealloc(0x8000 + 16 * 9);
    assert_eq!(set_bits(&fridge), 254);
}

#[test]
fn slot_addresses_keep_the_alignment_of_base_and_size() {
    let mut fridge = Fridge::new(0x4000, 64);
    for _ in 0..256 {
        let ptr = fridge.allocate(64, 64).unwrap();
        assert_eq!(ptr % 64, 0);
    }
}

#[test]
fn pool_of_empty_slots_serves_nothing() {
    let mut fridge = Fridge::new(0x4000, 0);
    assert_eq!(fridge.allocate(0, 1), None);
    fridge.dealloc(0x4000);
    assert_eq!(fridge.bitset, [0u8; 32]);
}

#[test]
fn init_takes_every_slot_back() {
    let mut fridge = Fridge::new(0x8000, 16);
    for _ in 0..100 {
        fridge.allocate(16, 1);
    }
    fridge.init();
    assert_eq!(fridge.bitset, [0u8; 32]);
    assert_eq!(fridge.heap_begin, 0x8000);
    assert_eq!(fridge.block_size, 16);
    assert_eq!(fridge.allocate(16, 1), Some(0x8000));
}
