use cache_proj::cache::bucket::Utility;
use cache_proj::cache::cl::{CacheLine, TCacheLine};

#[test]
fn test_utility() {
    let u = Utility::new();
    assert_eq!(u.first_set_bit[1 << 3], 3);
    assert_eq!(u.first_set_bit[1 << 7], 7);
    assert_eq!(u.last_set_bit[1 << 7], 7);
    assert_eq!(u.num_set_bits[0xff], 8);
    assert_eq!(u.num_set_bits[1 << 7], 1);
}

#[test]
fn test_bucket() {}

#[test]
fn test_cl() {
    let value = (0..CacheLine::NUM_BYTES_INLINE_VAL * CacheLine::NUM_SLOTS)
        .into_iter()
        .map(|i| ((i * 11 % 255 + 7) % 255) as u8)
        .collect::<Vec<u8>>();
    //insert entries to cl
    let mut cl_test = CacheLine::new();
    assert_eq!(cl_test.get_next_cl(), CacheLine::INVALID_CL);
    cl_test.set_entry(0, 12, &value[0..CacheLine::NUM_BYTES_INLINE_VAL]);
    assert_eq!(cl_test.find_entry_for_read(12).condid, 0x1);
    cl_test.set_entry(1, 11, &value[0..CacheLine::NUM_BYTES_INLINE_VAL]);
    assert_eq!(cl_test.find_entry_for_read(11).condid, 0x1 << 1);
    //remove entry at slot 0
    assert_eq!(cl_test.clear_entry(0), true);
    //expect to not find any cond
    assert_eq!(cl_test.find_entry_for_read(12).condid, 0);
    cl_test.set_entry(0, 12, &value[0..CacheLine::NUM_BYTES_INLINE_VAL]);
    cl_test.set_entry(2, 12, &value[0..CacheLine::NUM_BYTES_INLINE_VAL]);
    cl_test.set_entry(3, 11, &value[0..CacheLine::NUM_BYTES_INLINE_VAL]);

    cl_test.set_entry(4, 12, &value[0..CacheLine::NUM_BYTES_INLINE_VAL]);
    assert_eq!(cl_test.find_entry_for_read(12).condid, 1 | 1 << 2 | 1 << 4);
    assert_eq!(cl_test.find_entry_for_read(11).condid, 1 << 1 | 1 << 3);
}

#[test]
fn utility_tables_for_every_byte() {
    let u = Utility::new();
    for i in 0..256usize {
        let x = i as u8;
        if x == 0 {
            assert_eq!(u.first_set_bit[i], -1);
            assert_eq!(u.last_set_bit[i], -1);
        } else {
            assert_eq!(u.first_set_bit[i], x.trailing_zeros() as i32);
            assert_eq!(u.last_set_bit[i], 7 - x.leading_zeros() as i32);
        }
        assert_eq!(u.num_set_bits[i] as u32, x.count_ones());
    }
    assert_eq!(u.first_set_bit[0b0110_0000], 5);
    assert_eq!(u.last_set_bit[0b0110_0000], 6);
    assert_eq!(u.num_set_bits[0b0110_0000], 2);
}

#[test]
fn cl_set_entry_copies_inline_prefix() {
    let mut cl = CacheLine::new();
    assert_eq!(cl.get_entry(3).value, [0, 0, 0, 0]);
    assert_eq!(cl.set_entry(3, 9, &[1, 2]), 2);
    assert_eq!(cl.get_entry(3).value, [1, 2, 0, 0]);
    assert_eq!(cl.set_entry(3, 9, &[5, 6, 7, 8, 9, 10]), 4);
    assert_eq!(cl.get_entry(3).value, [5, 6, 7, 8]);
    // writing a used slot again flips it back to unused
    assert_eq!(cl.find_entry_for_read(9).condid, 0);
    assert_eq!(cl.clear_entry(3), false);
}

#[test]
fn cl_write_candidates_and_free_mask() {
    let mut cl = CacheLine::new();
    // all seven slots free; the key 0 matches every unused slot's key
    let w = cl.find_entry_for_write(0);
    assert_eq!(w.free, 0x7f);
    assert_eq!(w.condid, 0x7f);
    cl.set_entry(0, 5, &[1, 1, 1, 1]);
    cl.set_entry(2, 6, &[2, 2, 2, 2]);
    let w = cl.find_entry_for_write(5);
    // slot 0: used and matching -> not a candidate; slot 2: used, other key -> candidate
    assert_eq!(w.condid, 1 << 2);
    assert_eq!(w.free, 0x7f ^ 0b101);
}

#[test]
fn cl_next_link() {
    let mut cl = CacheLine::new_with_entry(3, &[9, 8, 7, 6]);
    assert_eq!(cl.find_entry_for_read(3).condid, 1);
    assert_eq!(cl.get_entry(0).value, [9, 8, 7, 6]);
    assert_eq!(cl.set_next_cl(4), None);
    assert_eq!(cl.get_next_cl(), 4);
    assert_eq!(cl.set_next_cl(CacheLine::INVALID_CL), Some(4));
    assert_eq!(cl.get_next_cl(), CacheLine::INVALID_CL);
}
