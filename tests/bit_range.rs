use bitfield::{get_field, set_field};

fn low_mask(width: u8) -> u128 {
    if width == 128 {
        u128::MAX
    } else {
        (1u128 << width) - 1
    }
}

fn bit(data: &[u8], i: usize) -> u8 {
    (data[i / 8] >> (i % 8)) & 1
}

#[test]
fn round_trip_every_width_and_offset() {
    for width in 1u8..=128 {
        for offset in 0usize..=16 {
            let patterns = [
                0u128,
                1,
                low_mask(width),
                0x5555_5555_5555_5555_5555_5555_5555_5555 & low_mask(width),
                0xDEAD_BEEF_0123_4567_89AB_CDEF_F00D_CAFE & low_mask(width),
            ];
            for &value in patterns.iter() {
                let mut buf = vec![0xA5u8; 18];
                set_field(&mut buf, offset, width, value);
                assert_eq!(get_field(&buf, offset, width), value, "width {width} offset {offset}");
            }
        }
    }
}

#[test]
fn write_keeps_every_bit_outside_the_field() {
    for width in [1u8, 3, 7, 8, 9, 13, 24, 64, 100, 128] {
        for offset in [0usize, 1, 5, 7, 8, 11] {
            let before: Vec<u8> = (0..20u8).map(|i| i.wrapping_mul(37) ^ 0x5A).collect();
            let mut after = before.clone();
            set_field(&mut after, offset, width, 0x0F0F_1234_5678_9ABC_DEF0_1111_2222_3333);
            for i in 0..before.len() * 8 {
                if i < offset || i >= offset + width as usize {
                    assert_eq!(bit(&after, i), bit(&before, i), "bit {i}");
                }
            }
        }
    }
}

#[test]
fn field_across_a_byte_boundary() {
    for value in 0u128..8 {
        let mut buf = vec![0u8; 2];
        set_field(&mut buf, 6, 3, value);
        assert_eq!(get_field(&buf, 6, 3), value);
        assert_eq!(buf[0], ((value & 0b11) as u8) << 6);
        assert_eq!(buf[1], (value >> 2) as u8);
    }
}

#[test]
fn oversized_value_is_truncated_to_the_width() {
    let mut buf = vec![0u8; 2];
    set_field(&mut buf, 2, 3, 0xFF);
    assert_eq!(get_field(&buf, 2, 3), 0b111);
    assert_eq!(buf, vec![0b0001_1100, 0]);
}

#[test]
fn first_byte_holds_the_low_bits() {
    let buf = vec![0x34u8, 0x12];
    assert_eq!(get_field(&buf, 0, 16), 0x1234);
    assert_eq!(get_field(&buf, 4, 8), 0x23);
    assert_eq!(get_field(&buf, 12, 4), 0x1);
}

#[test]
fn full_width_field() {
    let mut buf = vec![0u8; 16];
    set_field(&mut buf, 0, 128, u128::MAX);
    assert_eq!(buf, vec![0xFF; 16]);
    assert_eq!(get_field(&buf, 0, 128), u128::MAX);
}
