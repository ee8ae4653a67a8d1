use bitfield::{new_zeroed, storage_bits, Specifier, U128Bits, U16Bits, U32Bits, U64Bits, U8Bits};

#[test]
fn widths_of_the_specifiers() {
    assert_eq!(<bool as Specifier>::bits(), 1);
    assert_eq!(U8Bits::<1>::bits(), 1);
    assert_eq!(U8Bits::<3>::bits(), 3);
    assert_eq!(U16Bits::<16>::bits(), 16);
    assert_eq!(U32Bits::<24>::bits(), 24);
    assert_eq!(U64Bits::<33>::bits(), 33);
    assert_eq!(U128Bits::<128>::bits(), 128);
}

#[test]
fn storage_type_ladder() {
    assert_eq!(storage_bits(1), 8);
    assert_eq!(storage_bits(8), 8);
    assert_eq!(storage_bits(9), 16);
    assert_eq!(storage_bits(16), 16);
    assert_eq!(storage_bits(17), 32);
    assert_eq!(storage_bits(32), 32);
    assert_eq!(storage_bits(33), 64);
    assert_eq!(storage_bits(64), 64);
    assert_eq!(storage_bits(65), 128);
    assert_eq!(storage_bits(128), 128);
}

#[test]
fn bool_field_sets_and_clears_one_bit() {
    let mut buf = vec![0b1010_1010u8, 0];
    assert!(<bool as Specifier>::get(&buf, 1));
    assert!(!<bool as Specifier>::get(&buf, 0));
    <bool as Specifier>::set(&mut buf, 0, true);
    assert_eq!(buf[0], 0b1010_1011);
    <bool as Specifier>::set(&mut buf, 7, false);
    assert_eq!(buf[0], 0b0010_1011);
    <bool as Specifier>::set(&mut buf, 12, true);
    assert_eq!(buf, vec![0b0010_1011, 0b0001_0000]);
    assert!(<bool as Specifier>::get(&buf, 12));
}

#[test]
fn four_bytes_of_mixed_fields() {
    let mut buf = new_zeroed(32).unwrap();
    U8Bits::<1>::set(&mut buf, 0, 1);
    U8Bits::<3>::set(&mut buf, 1, 0b101);
    U8Bits::<4>::set(&mut buf, 4, 0b1001);
    U32Bits::<24>::set(&mut buf, 8, 0xABCDEF);
    assert_eq!(U8Bits::<1>::get(&buf, 0), 1);
    assert_eq!(U8Bits::<3>::get(&buf, 1), 0b101);
    assert_eq!(U8Bits::<4>::get(&buf, 4), 0b1001);
    assert_eq!(U32Bits::<24>::get(&buf, 8), 0xABCDEF);
    assert_eq!(buf, vec![0b1001_1011, 0xEF, 0xCD, 0xAB]);
}

#[test]
fn unnamed_fields_of_sixteen_and_eight_bits() {
    let mut buf = new_zeroed(32).unwrap();
    U16Bits::<16>::set(&mut buf, 0, 10);
    U8Bits::<8>::set(&mut buf, 16, 20);
    U8Bits::<8>::set(&mut buf, 24, 30);
    assert_eq!(U16Bits::<16>::get(&buf, 0), 10);
    assert_eq!(U8Bits::<8>::get(&buf, 16), 20);
    assert_eq!(U8Bits::<8>::get(&buf, 24), 30);
}

#[test]
fn narrow_setter_masks_wide_values() {
    let mut buf = new_zeroed(8).unwrap();
    U8Bits::<3>::set(&mut buf, 2, 0xFF);
    assert_eq!(U8Bits::<3>::get(&buf, 2), 0b111);
    assert_eq!(buf, vec![0b0001_1100]);
}

#[test]
fn wide_fields_round_trip() {
    let mut buf = new_zeroed(256).unwrap();
    U64Bits::<40>::set(&mut buf, 3, 0xFF_1234_5678);
    U128Bits::<100>::set(&mut buf, 43, 0xF_0123_4567_89AB_CDEF_0123_4567);
    assert_eq!(U64Bits::<40>::get(&buf, 3), 0xFF_1234_5678);
    assert_eq!(U128Bits::<100>::get(&buf, 43), 0xF_0123_4567_89AB_CDEF_0123_4567);
}
