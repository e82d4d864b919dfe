use flat_record::scalar::{append_scalar, fits, read_scalar, ByteOrder, MAX_SCALAR_WIDTH};

#[test]
fn widest_scalar_is_eight_bytes() {
    assert_eq!(MAX_SCALAR_WIDTH, 8);
}

#[test]
fn fits_one_byte() {
    assert!(fits(0, 1));
    assert!(fits(255, 1));
    assert!(!fits(256, 1));
}

#[test]
fn fits_each_width_at_its_limit() {
    assert!(fits(0xffff, 2));
    assert!(!fits(0x1_0000, 2));
    assert!(fits(0xff_ffff, 3));
    assert!(!fits(0x100_0000, 3));
    assert!(fits(0xffff_ffff, 4));
    assert!(!fits(0x1_0000_0000, 4));
    assert!(fits(0xff_ffff_ffff_ffff, 7));
    assert!(!fits(0x100_0000_0000_0000, 7));
}

#[test]
fn fits_eight_bytes_and_more_holds_everything() {
    assert!(fits(u64::MAX, 8));
    assert!(fits(u64::MAX, 9));
    assert!(fits(u64::MAX, usize::MAX));
}

#[test]
fn fits_zero_width_holds_only_zero() {
    assert!(fits(0, 0));
    assert!(!fits(1, 0));
}

#[test]
fn read_little_endian() {
    let bytes = [0xaa, 0x01, 0x02, 0x03, 0x04, 0xbb];
    assert_eq!(read_scalar(ByteOrder::Little, &bytes, 1, 4), 0x0403_0201);
    assert_eq!(read_scalar(ByteOrder::Little, &bytes, 1, 2), 0x0201);
    assert_eq!(read_scalar(ByteOrder::Little, &bytes, 5, 1), 0xbb);
}

#[test]
fn read_big_endian() {
    let bytes = [0xaa, 0x01, 0x02, 0x03, 0x04, 0xbb];
    assert_eq!(read_scalar(ByteOrder::Big, &bytes, 1, 4), 0x0102_0304);
    assert_eq!(read_scalar(ByteOrder::Big, &bytes, 1, 2), 0x0102);
    assert_eq!(read_scalar(ByteOrder::Big, &bytes, 0, 1), 0xaa);
}

#[test]
fn read_zero_width_is_zero() {
    let bytes = [7u8, 8];
    assert_eq!(read_scalar(ByteOrder::Little, &bytes, 1, 0), 0);
    assert_eq!(read_scalar(ByteOrder::Big, &bytes, 2, 0), 0);
}

#[test]
fn read_eight_bytes_matches_std() {
    let value: u64 = 0x0123_4567_89ab_cdef;
    assert_eq!(read_scalar(ByteOrder::Little, &value.to_le_bytes(), 0, 8), value);
    assert_eq!(read_scalar(ByteOrder::Big, &value.to_be_bytes(), 0, 8), value);
    assert_eq!(read_scalar(ByteOrder::Little, &[0xff; 8], 0, 8), u64::MAX);
}

#[test]
fn append_little_endian() {
    let mut out = vec![9u8];
    append_scalar(ByteOrder::Little, 0x0102_0304, 4, &mut out);
    assert_eq!(out, vec![9, 4, 3, 2, 1]);
}

#[test]
fn append_big_endian() {
    let mut out = vec![9u8];
    append_scalar(ByteOrder::Big, 0x0102_0304, 4, &mut out);
    assert_eq!(out, vec![9, 1, 2, 3, 4]);
}

#[test]
fn append_keeps_the_low_order_bytes_only() {
    let mut out = Vec::new();
    append_scalar(ByteOrder::Little, 0x0102_0304, 2, &mut out);
    append_scalar(ByteOrder::Big, 0x0102_0304, 2, &mut out);
    assert_eq!(out, vec![4, 3, 3, 4]);
}

#[test]
fn append_zero_width_appends_nothing() {
    let mut out = vec![1u8, 2];
    append_scalar(ByteOrder::Big, 77, 0, &mut out);
    assert_eq!(out, vec![1, 2]);
}

#[test]
fn append_pads_wide_fields_with_zeros() {
    let mut out = Vec::new();
    append_scalar(ByteOrder::Little, 5, 10, &mut out);
    assert_eq!(out, vec![5, 0, 0, 0, 0, 0, 0, 0, 0, 0]);
}

#[test]
fn append_eight_bytes_matches_std() {
    let value: u64 = 0x0123_4567_89ab_cdef;
    let mut little = Vec::new();
    append_scalar(ByteOrder::Little, value, 8, &mut little);
    assert_eq!(little, value.to_le_bytes().to_vec());
    let mut big = Vec::new();
    append_scalar(ByteOrder::Big, value, 8, &mut big);
    assert_eq!(big, value.to_be_bytes().to_vec());
}

#[test]
fn scalar_round_trip_in_both_orders() {
    let values: [(u64, usize); 6] =
        [(0, 1), (200, 1), (0xbeef, 2), (0xdead_beef, 4), (0x01_0203_0405, 5), (u64::MAX, 8)];
    for (value, width) in values {
        for order in [ByteOrder::Little, ByteOrder::Big] {
            let mut out = Vec::new();
            append_scalar(order, value, width, &mut out);
            assert_eq!(out.len(), width);
            assert_eq!(read_scalar(order, &out, 0, width), value);
        }
    }
}

#[test]
fn probe_decides_the_order() {
    assert_eq!(ByteOrder::from_probe([1, 0]), ByteOrder::Little);
    assert_eq!(ByteOrder::from_probe([0, 1]), ByteOrder::Big);
}

#[test]
fn native_order_is_that_of_the_machine() {
    let expected =
        if 1u16.to_ne_bytes() == 1u16.to_le_bytes() { ByteOrder::Little } else { ByteOrder::Big };
    assert_eq!(ByteOrder::native(), expected);
}

#[test]
fn native_order_writes_the_memory_representation() {
    let value: u32 = 0x0102_0304;
    let mut out = Vec::new();
    append_scalar(ByteOrder::native(), value as u64, 4, &mut out);
    assert_eq!(out, value.to_ne_bytes().to_vec());
    assert_eq!(read_scalar(ByteOrder::native(), &value.to_ne_bytes(), 0, 4), value as u64);
}
