use dag_consensus::keys::{batch_key, certificate_key, payload_storage_key};
use dag_consensus::messages::{
    bitmap_popcount, byte_ones, extend_union, merge_author_bitmaps, set_author_bit, zero_bitmap,
};

#[test]
fn union_keeps_order_and_skips_repeats() {
    let mut union = vec![3u64, 1];
    extend_union(&mut union, &vec![1, 4, 4, 2, 3]);
    assert_eq!(union, vec![3, 1, 4, 2]);
}

#[test]
fn author_bit_sets_one_bit_of_its_byte() {
    let mut bitmap = zero_bitmap(2);
    set_author_bit(&mut bitmap, 9);
    assert_eq!(bitmap, vec![0, 0b10]);
    set_author_bit(&mut bitmap, 0);
    assert_eq!(bitmap, vec![1, 0b10]);
    // An index beyond the bitmap changes nothing.
    set_author_bit(&mut bitmap, 16);
    assert_eq!(bitmap, vec![1, 0b10]);
}

#[test]
fn bitmaps_merge_bytewise() {
    let mut bitmap = vec![0b0001u8, 0b1000];
    merge_author_bitmaps(&mut bitmap, &vec![0b0110, 0b0001, 0xff]);
    assert_eq!(bitmap, vec![0b0111, 0b1001]);
    let mut short = vec![0b1u8, 0b10];
    merge_author_bitmaps(&mut short, &vec![0b100]);
    assert_eq!(short, vec![0b101, 0b10]);
}

#[test]
fn popcount_counts_set_bits() {
    assert_eq!(byte_ones(0), 0);
    assert_eq!(byte_ones(0xff), 8);
    assert_eq!(byte_ones(0b1010_0001), 3);
    assert_eq!(bitmap_popcount(&vec![0xff, 0x01, 0x80]), 10);
    assert_eq!(bitmap_popcount(&Vec::new()), 0);
}

#[test]
fn store_keys_are_little_endian_concatenations() {
    assert_eq!(certificate_key(0x0102_0304_0506_0708), vec![8, 7, 6, 5, 4, 3, 2, 1]);
    assert_eq!(
        batch_key(0x0102_0304_0506_0708, 0x0a0b_0c0d),
        vec![8, 7, 6, 5, 4, 3, 2, 1, 0x0d, 0x0c, 0x0b, 0x0a]
    );
    assert_eq!(
        payload_storage_key(0x11, 0x0100),
        vec![0x11, 0, 0, 0, 0, 0, 0, 0, 0, 1, 0, 0, 0, 0, 0, 0]
    );
}

#[test]
fn store_keys_of_different_batches_differ() {
    assert_ne!(batch_key(1, 2), batch_key(2, 1));
    assert_ne!(batch_key(1, 2), batch_key(1, 3));
    assert_ne!(payload_storage_key(1, 2), payload_storage_key(2, 1));
    assert_ne!(certificate_key(256), certificate_key(1));
    assert_eq!(certificate_key(5).len(), 8);
    assert_eq!(batch_key(5, 5).len(), 12);
    assert_eq!(payload_storage_key(5, 5).len(), 16);
}
