use bitfield::{
    new_zeroed, validate_documented_bits, validate_total_multiple_of_8, Layout, LayoutError, SymbolTable,
    Unrecognized,
};

#[test]
fn four_fields_in_four_bytes() {
    let layout = Layout::new(vec![1, 3, 4, 24]).unwrap();
    assert_eq!(layout.field_count(), 4);
    assert_eq!(layout.total_bits(), 32);
    assert_eq!(layout.offset(0), 0);
    assert_eq!(layout.offset(1), 1);
    assert_eq!(layout.offset(2), 4);
    assert_eq!(layout.offset(3), 8);
    assert_eq!(layout.width(3), 24);
    let mut buf = layout.new_buffer();
    assert_eq!(buf, vec![0; 4]);
    layout.set(&mut buf, 3, 0xABCDEF);
    assert_eq!(buf, vec![0x00, 0xEF, 0xCD, 0xAB]);
    assert_eq!(layout.get(&buf, 3), 0xABCDEF);
    assert_eq!(layout.get(&buf, 0), 0);
    assert_eq!(layout.get(&buf, 1), 0);
    assert_eq!(layout.get(&buf, 2), 0);
}

#[test]
fn setting_one_field_keeps_the_others() {
    let layout = Layout::new(vec![1, 3, 4, 24]).unwrap();
    let mut buf = layout.new_buffer();
    layout.set(&mut buf, 0, 1);
    layout.set(&mut buf, 1, 0b110);
    layout.set(&mut buf, 2, 0b1010);
    layout.set(&mut buf, 3, 0x123456);
    layout.set(&mut buf, 1, 0b011);
    assert_eq!(layout.get(&buf, 0), 1);
    assert_eq!(layout.get(&buf, 1), 0b011);
    assert_eq!(layout.get(&buf, 2), 0b1010);
    assert_eq!(layout.get(&buf, 3), 0x123456);
}

#[test]
fn total_of_33_bits_is_rejected() {
    assert_eq!(new_zeroed(33), Err(LayoutError::TotalNotMultipleOf8));
    assert_eq!(Layout::new(vec![1, 32]).err(), Some(LayoutError::TotalNotMultipleOf8));
    assert_eq!(validate_total_multiple_of_8(33), Err(LayoutError::TotalNotMultipleOf8));
    assert_eq!(validate_total_multiple_of_8(32), Ok(()));
}

#[test]
fn zeroed_buffer_size() {
    assert_eq!(new_zeroed(0), Ok(vec![]));
    assert_eq!(new_zeroed(24), Ok(vec![0, 0, 0]));
}

#[test]
fn field_width_out_of_range_is_rejected() {
    assert_eq!(Layout::new(vec![8, 0]).err(), Some(LayoutError::InvalidWidth));
    assert_eq!(Layout::new(vec![129, 7]).err(), Some(LayoutError::InvalidWidth));
}

#[test]
fn documented_width_must_match() {
    assert_eq!(validate_documented_bits(32, None), Ok(()));
    assert_eq!(validate_documented_bits(32, Some(32)), Ok(()));
    assert_eq!(validate_documented_bits(32, Some(8)), Err(LayoutError::WidthMismatch));
}

#[test]
fn unrecognized_keeps_its_value() {
    let u = Unrecognized::new(0b1111u8);
    assert_eq!(u.raw_value(), 0b1111);
    assert_eq!(Unrecognized::new(7u128), Unrecognized::new(7u128));
}

#[test]
fn two_small_prime_fields_in_one_byte() {
    let primes = SymbolTable::open(4, vec![0b0010, 0b0011, 0b0101, 0b0111, 0b1011, 0b1101]).unwrap();
    let layout = Layout::new(vec![primes.width(), primes.width()]).unwrap();
    let mut buf = layout.new_buffer();
    assert_eq!(buf.len(), 1);
    assert_eq!(primes.decode_open(&buf, layout.offset(0)).unwrap_err().raw_value(), 0);
    primes.encode(&mut buf, layout.offset(0), 3);
    primes.encode(&mut buf, layout.offset(1), 1);
    assert_eq!(buf, vec![0b0011_0111]);
    assert_eq!(primes.decode_open(&buf, layout.offset(0)), Ok(3));
    assert_eq!(primes.decode_open(&buf, layout.offset(1)), Ok(1));
}
