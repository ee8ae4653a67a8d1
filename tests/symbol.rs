use bitfield::{get_field, new_zeroed, set_field, validate_discriminant_range, LayoutError, SymbolTable, Unrecognized};

fn small_primes() -> SymbolTable {
    SymbolTable::open(4, vec![0b0010, 0b0011, 0b0101, 0b0111, 0b1011, 0b1101]).unwrap()
}

#[test]
fn exhaustive_table_decodes_every_pattern() {
    let table = SymbolTable::exhaustive(vec![0b000, 0b001, 0b010, 0b011, 0b100, 0b101, 0b110, 0b111]).unwrap();
    assert_eq!(table.width(), 3);
    assert!(table.is_exhaustive());
    for raw in 0u128..8 {
        let mut buf = vec![0u8; 1];
        set_field(&mut buf, 2, 3, raw);
        let symbol = table.decode_exhaustive(&buf, 2);
        assert_eq!(table.discriminant(symbol), raw);
    }
}

#[test]
fn exhaustive_table_in_any_order() {
    let table = SymbolTable::exhaustive(vec![3, 0, 2, 1]).unwrap();
    assert_eq!(table.width(), 2);
    let mut buf = vec![0u8; 1];
    for symbol in 0..4 {
        table.encode(&mut buf, 5, symbol);
        assert_eq!(table.decode_exhaustive(&buf, 5), symbol);
        assert_eq!(table.decode_open(&buf, 5), Ok(symbol));
    }
    table.encode(&mut buf, 5, 0);
    assert_eq!(get_field(&buf, 5, 2), 3);
}

#[test]
fn open_table_unrecognized_zero() {
    let table = small_primes();
    let buf = new_zeroed(8).unwrap();
    let got = table.decode_open(&buf, 0);
    assert_eq!(got, Err(Unrecognized::new(0)));
    assert_eq!(got.unwrap_err().raw_value(), 0);
}

#[test]
fn open_table_encode_then_decode() {
    let table = small_primes();
    let mut buf = new_zeroed(8).unwrap();
    table.encode(&mut buf, 0, 3);
    assert_eq!(table.decode_open(&buf, 0), Ok(3));
    assert_eq!(table.discriminant(3), 0b0111);
    assert_eq!(buf, vec![0b0000_0111]);
    table.encode(&mut buf, 4, 5);
    assert_eq!(table.decode_open(&buf, 4), Ok(5));
    assert_eq!(table.decode_open(&buf, 0), Ok(3));
    assert_eq!(buf, vec![0b1101_0111]);
}

#[test]
fn open_table_keeps_the_raw_pattern() {
    let table = small_primes();
    let mut buf = vec![0u8; 1];
    set_field(&mut buf, 0, 4, 0b1111);
    assert_eq!(table.decode_open(&buf, 0).unwrap_err().raw_value(), 0b1111);
}

#[test]
fn five_variant_exhaustive_table_is_rejected() {
    assert_eq!(
        SymbolTable::exhaustive(vec![0, 1, 2, 3, 4]).err(),
        Some(LayoutError::VariantCountNotPowerOfTwo)
    );
    assert_eq!(SymbolTable::exhaustive(vec![]).err(), Some(LayoutError::VariantCountNotPowerOfTwo));
}

#[test]
fn single_variant_exhaustive_table_is_rejected() {
    assert_eq!(SymbolTable::exhaustive(vec![0]).err(), Some(LayoutError::InvalidWidth));
}

#[test]
fn discriminant_out_of_range_names_the_symbol() {
    assert_eq!(
        SymbolTable::exhaustive(vec![0, 1, 4, 2]).err(),
        Some(LayoutError::DiscriminantOutOfRange { symbol: 2 })
    );
    assert_eq!(
        SymbolTable::open(3, vec![1, 8, 9]).err(),
        Some(LayoutError::DiscriminantOutOfRange { symbol: 1 })
    );
}

#[test]
fn duplicate_discriminant_names_the_later_symbol() {
    assert_eq!(
        SymbolTable::exhaustive(vec![0, 1, 1, 3]).err(),
        Some(LayoutError::DuplicateDiscriminant { symbol: 2 })
    );
    assert_eq!(
        SymbolTable::open(4, vec![2, 3, 2]).err(),
        Some(LayoutError::DuplicateDiscriminant { symbol: 2 })
    );
}

#[test]
fn open_table_width_must_be_in_range() {
    assert_eq!(SymbolTable::open(0, vec![0]).err(), Some(LayoutError::InvalidWidth));
    assert_eq!(SymbolTable::open(129, vec![0]).err(), Some(LayoutError::InvalidWidth));
    let wide = SymbolTable::open(128, vec![u128::MAX, 0]).unwrap();
    assert_eq!(wide.symbol_count(), 2);
    assert!(!wide.is_exhaustive());
}

#[test]
fn discriminant_range_check() {
    assert_eq!(validate_discriminant_range(0, 7, 3), Ok(()));
    assert_eq!(validate_discriminant_range(4, 8, 3), Err(LayoutError::DiscriminantOutOfRange { symbol: 4 }));
    assert_eq!(validate_discriminant_range(1, u128::MAX, 128), Ok(()));
    assert_eq!(validate_discriminant_range(1, u128::MAX, 127), Err(LayoutError::DiscriminantOutOfRange { symbol: 1 }));
}

#[test]
fn redirection_table_entry() {
    let trigger_mode = SymbolTable::exhaustive(vec![0, 1]).unwrap();
    let delivery_mode = SymbolTable::exhaustive(vec![0, 1, 2, 3, 4, 5, 6, 7]).unwrap();
    let mut buf = new_zeroed(8).unwrap();
    set_field(&mut buf, 0, 1, 1);
    trigger_mode.encode(&mut buf, 1, 1);
    delivery_mode.encode(&mut buf, 2, 5);
    set_field(&mut buf, 5, 3, 0b010);
    assert_eq!(buf, vec![0b0101_0111]);
    assert_eq!(trigger_mode.decode_exhaustive(&buf, 1), 1);
    assert_eq!(delivery_mode.decode_exhaustive(&buf, 2), 5);
    assert_eq!(get_field(&buf, 5, 3), 0b010);
}
