use flat_record::error::LayoutError;
use flat_record::layout::{FieldKind, FieldSpec, RecordLayout};
use flat_record::scalar::ByteOrder;

fn fixed(name: &str, width: usize) -> FieldSpec {
    FieldSpec { name: name.to_string(), kind: FieldKind::Fixed { width } }
}

fn sequence(name: &str, element_width: usize, length_field: usize) -> FieldSpec {
    FieldSpec { name: name.to_string(), kind: FieldKind::VarSequence { element_width, length_field } }
}

fn array_layout(order: ByteOrder) -> RecordLayout {
    RecordLayout::with_order(vec![fixed("header", 4), fixed("len", 4), sequence("data", 8, 1)], order)
        .unwrap()
}

#[test]
fn little_endian_bytes() {
    let layout = array_layout(ByteOrder::Little);
    let bytes = layout.write(&[Some(0x0102_0304), None], &[1, 0x1122_3344_5566_7788]).unwrap();
    assert_eq!(
        bytes,
        vec![
            0x04, 0x03, 0x02, 0x01, 2, 0, 0, 0, 1, 0, 0, 0, 0, 0, 0, 0, 0x88, 0x77, 0x66, 0x55,
            0x44, 0x33, 0x22, 0x11
        ]
    );
}

#[test]
fn big_endian_bytes() {
    let layout = array_layout(ByteOrder::Big);
    let bytes = layout.write(&[Some(0x0102_0304), None], &[1, 0x1122_3344_5566_7788]).unwrap();
    assert_eq!(
        bytes,
        vec![
            0x01, 0x02, 0x03, 0x04, 0, 0, 0, 2, 0, 0, 0, 0, 0, 0, 0, 1, 0x11, 0x22, 0x33, 0x44,
            0x55, 0x66, 0x77, 0x88
        ]
    );
}

#[test]
fn buffer_has_exactly_the_record_size() {
    let layout = array_layout(ByteOrder::native());
    for n in [0usize, 1, 2, 17, 100] {
        let data: Vec<u64> = (0..n as u64).collect();
        let bytes = layout.write(&[Some(0), None], &data).unwrap();
        assert_eq!(bytes.len(), layout.size_of(n).unwrap());
        assert_eq!(bytes.len(), layout.minimum_size() + n * 8);
    }
}

#[test]
fn length_is_derived_from_the_data() {
    let layout = array_layout(ByteOrder::Little);
    let bytes = layout.write(&[Some(0), None], &[5, 6, 7]).unwrap();
    assert_eq!(&bytes[4..8], &[3, 0, 0, 0]);
}

#[test]
fn explicit_length_must_agree_with_the_data() {
    let layout = array_layout(ByteOrder::Little);
    let derived = layout.write(&[Some(0), None], &[5, 6, 7]).unwrap();
    assert_eq!(layout.write(&[Some(0), Some(3)], &[5, 6, 7]), Ok(derived));
    assert_eq!(layout.write(&[Some(0), Some(2)], &[5, 6, 7]), Err(LayoutError::ValueMismatch));
    assert_eq!(layout.write(&[Some(0), Some(4)], &[5, 6, 7]), Err(LayoutError::ValueMismatch));
}

#[test]
fn every_scalar_field_needs_an_entry() {
    let layout = array_layout(ByteOrder::Little);
    assert_eq!(layout.write(&[], &[1]), Err(LayoutError::ValueMismatch));
    assert_eq!(layout.write(&[Some(0)], &[1]), Err(LayoutError::ValueMismatch));
    assert_eq!(layout.write(&[Some(0), None, None], &[1]), Err(LayoutError::ValueMismatch));
}

#[test]
fn only_the_length_may_be_left_out() {
    let layout = array_layout(ByteOrder::Little);
    assert_eq!(layout.write(&[None, None], &[1]), Err(LayoutError::ValueMismatch));
    assert_eq!(layout.write(&[None, Some(1)], &[1]), Err(LayoutError::ValueMismatch));
}

#[test]
fn values_must_fit_their_fields() {
    let layout = array_layout(ByteOrder::Little);
    assert!(layout.write(&[Some(0xffff_ffff), None], &[]).is_ok());
    assert_eq!(layout.write(&[Some(0x1_0000_0000), None], &[]), Err(LayoutError::ValueMismatch));
    let narrow = RecordLayout::with_order(
        vec![fixed("n", 1), sequence("d", 2, 0)],
        ByteOrder::Little,
    )
    .unwrap();
    assert_eq!(narrow.write(&[None], &[1, 0xffff]), Ok(vec![2, 1, 0, 0xff, 0xff]));
    assert_eq!(narrow.write(&[None], &[1, 0x1_0000]), Err(LayoutError::ValueMismatch));
}

#[test]
fn elements_need_a_sequence() {
    let layout =
        RecordLayout::with_order(vec![fixed("a", 2), fixed("b", 1)], ByteOrder::Big).unwrap();
    assert_eq!(layout.write(&[Some(0x1234), Some(7)], &[]), Ok(vec![0x12, 0x34, 7]));
    assert_eq!(layout.write(&[Some(0x1234), Some(7)], &[1]), Err(LayoutError::ValueMismatch));
    assert_eq!(layout.write(&[Some(0x1234), None], &[]), Err(LayoutError::ValueMismatch));
}

#[test]
fn count_that_the_length_field_cannot_hold_overflows() {
    let narrow = RecordLayout::with_order(
        vec![fixed("n", 1), sequence("d", 1, 0)],
        ByteOrder::Little,
    )
    .unwrap();
    let fits: Vec<u64> = vec![7; 255];
    let bytes = narrow.write(&[None], &fits).unwrap();
    assert_eq!(bytes.len(), 256);
    assert_eq!(bytes[0], 255);
    let too_many: Vec<u64> = vec![7; 256];
    assert_eq!(narrow.write(&[None], &too_many), Err(LayoutError::LengthOverflow));
}

#[test]
fn mismatch_is_reported_before_overflow() {
    let narrow = RecordLayout::with_order(
        vec![fixed("n", 1), sequence("d", 1, 0)],
        ByteOrder::Little,
    )
    .unwrap();
    let mut too_many: Vec<u64> = vec![7; 256];
    too_many[200] = 256;
    assert_eq!(narrow.write(&[None], &too_many), Err(LayoutError::ValueMismatch));
}

#[test]
fn empty_descriptor_writes_nothing() {
    let layout = RecordLayout::new(Vec::new()).unwrap();
    assert_eq!(layout.write(&[], &[]), Ok(Vec::new()));
    assert_eq!(layout.write(&[], &[1]), Err(LayoutError::ValueMismatch));
}

#[test]
fn round_trip_in_both_orders() {
    for order in [ByteOrder::Little, ByteOrder::Big] {
        let layout = RecordLayout::with_order(
            vec![fixed("tag", 1), fixed("n", 2), fixed("stamp", 8), fixed("x", 3), sequence("d", 5, 1)],
            order,
        )
        .unwrap();
        let fixed_values = [Some(0xab), None, Some(u64::MAX), Some(0x01_0203)];
        let data: Vec<u64> = vec![0, 1, 0xff_ffff_ffff, 0x12_3456_789a, 42];
        let bytes = layout.write(&fixed_values, &data).unwrap();
        assert_eq!(bytes.len(), 14 + 5 * 5);
        let (view, rest) = layout.try_view(&bytes).unwrap();
        assert_eq!(rest.len(), 0);
        assert_eq!(view.len(), data.len());
        assert_eq!(view.fixed_value(0), Some(0xab));
        assert_eq!(view.fixed_value(1), Some(5));
        assert_eq!(view.fixed_value(2), Some(u64::MAX));
        assert_eq!(view.fixed_value(3), Some(0x01_0203));
        for (k, value) in data.iter().enumerate() {
            assert_eq!(view.element(k), Some(*value));
        }
        assert_eq!(view.element(data.len()), None);
    }
}

#[test]
fn round_trip_with_trailing_bytes() {
    let layout = array_layout(ByteOrder::native());
    let data: Vec<u64> = vec![3, 1, 4, 1, 5, 9, 2, 6];
    let mut bytes = layout.write(&[Some(77), None], &data).unwrap();
    let written = bytes.len();
    bytes.extend_from_slice(&[1, 2, 3, 4, 5]);
    let (view, rest) = layout.try_view(&bytes).unwrap();
    assert_eq!(view.as_bytes().len(), written);
    assert_eq!(rest, &[1, 2, 3, 4, 5]);
    assert_eq!(view.fixed_value(0), Some(77));
    assert_eq!(view.len(), 8);
    assert_eq!(view.element(5), Some(9));
}

#[test]
fn packed_records_are_read_one_after_another() {
    let layout = array_layout(ByteOrder::native());
    let mut bytes = layout.write(&[Some(1), None], &[10, 11]).unwrap();
    bytes.extend(layout.write(&[Some(2), None], &[]).unwrap());
    bytes.extend(layout.write(&[Some(3), None], &[30]).unwrap());
    let (first, rest) = layout.try_view(&bytes).unwrap();
    let (second, rest) = layout.try_view(rest).unwrap();
    let (third, rest) = layout.try_view(rest).unwrap();
    assert_eq!(rest.len(), 0);
    assert_eq!((first.fixed_value(0), first.len()), (Some(1), 2));
    assert_eq!((second.fixed_value(0), second.len()), (Some(2), 0));
    assert_eq!((third.fixed_value(0), third.len()), (Some(3), 1));
    assert_eq!(third.element(0), Some(30));
}

#[test]
fn native_layout_matches_the_memory_representation() {
    let layout = array_layout(ByteOrder::native());
    let bytes = layout.write(&[Some(0x0a0b_0c0d), None], &[(2.5f64).to_bits()]).unwrap();
    let mut expected = Vec::new();
    expected.extend_from_slice(&0x0a0b_0c0du32.to_ne_bytes());
    expected.extend_from_slice(&1u32.to_ne_bytes());
    expected.extend_from_slice(&(2.5f64).to_ne_bytes());
    assert_eq!(bytes, expected);
}
