//! The field capability: a type that says how wide its field is and how a
//! value of it is read from and written to a buffer.
use crate::bit_range::{
    bit_value, field_value, field_written, get_field, in_bounds, lemma_chunk_written,
    lemma_field_below, set_field, value_bit,
};
use vstd::arithmetic::power2::{lemma2_to64, pow2};
use vstd::prelude::*;

verus! {

/// A type that can stand as a field of a bit-packed buffer.
pub trait Specifier {
    /// What reading the field gives.
    type GetType;

    /// What writing the field takes.
    type SetType;

    /// The type describes a field that can be stored: its width lies in
    /// `[1, 128]` and its values fit `GetType`.
    spec fn valid() -> bool;

    /// The field's width in bits.
    spec fn width() -> nat;

    /// The value read from the field that starts at `bit_index`.
    spec fn decoded(data: Seq<u8>, bit_index: int) -> Self::GetType;

    /// The number that writing `value` stores in the field.
    spec fn encoded(value: Self::SetType) -> u128;

    /// The field's width in bits.
    fn bits() -> (r: u8)
        requires
            Self::valid(),
        ensures
            r == Self::width(),
            1 <= r <= 128,
    ;

    /// Reads the field that starts at `bit_index`.
    fn get(data: &[u8], bit_index: usize) -> (r: Self::GetType)
        requires
            Self::valid(),
            in_bounds(data@.len(), bit_index as int, Self::width()),
        ensures
            r == Self::decoded(data@, bit_index as int),
    ;

    /// Writes `value` into the field that starts at `bit_index`, leaving every
    /// other bit of `data` as it was.
    fn set(data: &mut [u8], bit_index: usize, value: Self::SetType)
        requires
            Self::valid(),
            in_bounds(old(data)@.len(), bit_index as int, Self::width()),
        ensures
            field_written(old(data)@, final(data)@, bit_index as int, Self::width(), Self::encoded(value)),
    ;
}

/// `bits` is the size of the narrowest of `u8`, `u16`, `u32`, `u64` and
/// `u128` that holds `width` bits.
pub open spec fn is_storage_bits(width: nat, bits: nat) -> bool {
    &&& (bits == 8 || bits == 16 || bits == 32 || bits == 64 || bits == 128)
    &&& width <= bits
    &&& (bits == 8 || bits / 2 < width)
}

/// The size in bits of the unsigned type that a field of `width` bits is
/// read and written as.
pub fn storage_bits(width: u8) -> (r: u8)
    requires
        1 <= width <= 128,
    ensures
        is_storage_bits(width as nat, r as nat),
{
    if width <= 8 {
        8
    } else if width <= 16 {
        16
    } else if width <= 32 {
        32
    } else if width <= 64 {
        64
    } else {
        128
    }
}

/// A field of `W` bits, `1 <= W <= 8`, read and written as a `u8`.
pub struct U8Bits<const W: u8>;

impl<const W: u8> Specifier for U8Bits<W> {
    type GetType = u8;

    type SetType = u8;

    open spec fn valid() -> bool {
        1 <= W <= 8
    }

    open spec fn width() -> nat {
        W as nat
    }

    open spec fn decoded(data: Seq<u8>, bit_index: int) -> u8 {
        field_value(data, bit_index, W as nat) as u8
    }

    open spec fn encoded(value: u8) -> u128 {
        value as u128
    }

    fn bits() -> (r: u8) {
        W
    }

    fn get(data: &[u8], bit_index: usize) -> (r: u8) {
        proof {
            lemma_field_below(data@, bit_index as int, W as nat, 8);
            lemma_pow2_values();
        }
        get_field(data, bit_index, W) as u8
    }

    fn set(data: &mut [u8], bit_index: usize, value: u8) {
        set_field(data, bit_index, W, value as u128);
    }
}

/// A field of `W` bits, `9 <= W <= 16`, read and written as a `u16`.
pub struct U16Bits<const W: u8>;

impl<const W: u8> Specifier for U16Bits<W> {
    type GetType = u16;

    type SetType = u16;

    open spec fn valid() -> bool {
        9 <= W <= 16
    }

    open spec fn width() -> nat {
        W as nat
    }

    open spec fn decoded(data: Seq<u8>, bit_index: int) -> u16 {
        field_value(data, bit_index, W as nat) as u16
    }

    open spec fn encoded(value: u16) -> u128 {
        value as u128
    }

    fn bits() -> (r: u8) {
        W
    }

    fn get(data: &[u8], bit_index: usize) -> (r: u16) {
        proof {
            lemma_field_below(data@, bit_index as int, W as nat, 16);
            lemma_pow2_values();
        }
        get_field(data, bit_index, W) as u16
    }

    fn set(data: &mut [u8], bit_index: usize, value: u16) {
        set_field(data, bit_index, W, value as u128);
    }
}

/// A field of `W` bits, `17 <= W <= 32`, read and written as a `u32`.
pub struct U32Bits<const W: u8>;

impl<const W: u8> Specifier for U32Bits<W> {
    type GetType = u32;

    type SetType = u32;

    open spec fn valid() -> bool {
        17 <= W <= 32
    }

    open spec fn width() -> nat {
        W as nat
    }

    open spec fn decoded(data: Seq<u8>, bit_index: int) -> u32 {
        field_value(data, bit_index, W as nat) as u32
    }

    open spec fn encoded(value: u32) -> u128 {
        value as u128
    }

    fn bits() -> (r: u8) {
        W
    }

    fn get(data: &[u8], bit_index: usize) -> (r: u32) {
        proof {
            lemma_field_below(data@, bit_index as int, W as nat, 32);
            lemma_pow2_values();
        }
        get_field(data, bit_index, W) as u32
    }

    fn set(data: &mut [u8], bit_index: usize, value: u32) {
        set_field(data, bit_index, W, value as u128);
    }
}

/// A field of `W` bits, `33 <= W <= 64`, read and written as a `u64`.
pub struct U64Bits<const W: u8>;

impl<const W: u8> Specifier for U64Bits<W> {
    type GetType = u64;

    type SetType = u64;

    open spec fn valid() -> bool {
        33 <= W <= 64
    }

    open spec fn width() -> nat {
        W as nat
    }

    open spec fn decoded(data: Seq<u8>, bit_index: int) -> u64 {
        field_value(data, bit_index, W as nat) as u64
    }

    open spec fn encoded(value: u64) -> u128 {
        value as u128
    }

    fn bits() -> (r: u8) {
        W
    }

    fn get(data: &[u8], bit_index: usize) -> (r: u64) {
        proof {
            lemma_field_below(data@, bit_index as int, W as nat, 64);
            lemma_pow2_values();
        }
        get_field(data, bit_index, W) as u64
    }

    fn set(data: &mut [u8], bit_index: usize, value: u64) {
        set_field(data, bit_index, W, value as u128);
    }
}

/// A field of `W` bits, `65 <= W <= 128`, read and written as a `u128`.
pub struct U128Bits<const W: u8>;

impl<const W: u8> Specifier for U128Bits<W> {
    type GetType = u128;

    type SetType = u128;

    open spec fn valid() -> bool {
        65 <= W <= 128
    }

    open spec fn width() -> nat {
        W as nat
    }

    open spec fn decoded(data: Seq<u8>, bit_index: int) -> u128 {
        field_value(data, bit_index, W as nat) as u128
    }

    open spec fn encoded(value: u128) -> u128 {
        value
    }

    fn bits() -> (r: u8) {
        W
    }

    fn get(data: &[u8], bit_index: usize) -> (r: u128) {
        get_field(data, bit_index, W)
    }

    fn set(data: &mut [u8], bit_index: usize, value: u128) {
        set_field(data, bit_index, W, value);
    }
}

/// A single bit, read and written as a `bool`.
impl Specifier for bool {
    type GetType = bool;

    type SetType = bool;

    open spec fn valid() -> bool {
        true
    }

    open spec fn width() -> nat {
        1
    }

    open spec fn decoded(data: Seq<u8>, bit_index: int) -> bool {
        bit_value(data, bit_index) == 1
    }

    open spec fn encoded(value: bool) -> u128 {
        if value {
            1
        } else {
            0
        }
    }

    fn bits() -> (r: u8) {
        1
    }

    fn get(data: &[u8], bit_index: usize) -> (r: bool) {
        let byte_index = bit_index / 8;
        let offset = (bit_index % 8) as u8;
        let byte = data[byte_index];
        let bit = (byte >> offset) & 1;
        assert(bit <= 1) by (bit_vector)
            requires
                bit == (byte >> offset) & 1,
        ;
        bit != 0
    }

    fn set(data: &mut [u8], bit_index: usize, value: bool) {
        let ghost pre = data@;
        let byte_index = bit_index / 8;
        let offset = (bit_index % 8) as u8;
        let bit: u8 = if value {
            1
        } else {
            0
        };
        let old_byte = data[byte_index];
        data[byte_index] = (old_byte & !(1u8 << offset)) | (bit << offset);
        proof {
            let v = Self::encoded(value);
            assert(bit == (v & (1u8 as u128)) as u8) by (bit_vector)
                requires
                    v == 0 || v == 1,
                    v == 1 <==> bit == 1,
                    bit == 0 || bit == 1,
            ;
            assert(0xffu8 >> 7u8 == 1u8) by (bit_vector);
            assert forall|i: int| 0 <= i < pre.len() * 8 implies #[trigger] bit_value(data@, i) == if bit_index <= i < bit_index + 1 {
                value_bit(v, i - bit_index)
            } else {
                bit_value(pre, i)
            } by {
                assert(i == 8 * (i / 8) + i % 8);
                if i / 8 == byte_index {
                    let q = (i % 8) as u8;
                    assert(q as int == i % 8);
                    lemma_chunk_written(old_byte, v, offset, 1, 7, 1, bit, data@[byte_index as int], q, 0);
                    if q == offset {
                        assert(i == bit_index);
                    } else {
                        assert(i != bit_index);
                    }
                } else {
                    assert(data@[i / 8] == pre[i / 8]);
                }
            }
        }
    }
}

/// The powers of two that bound the storage types.
proof fn lemma_pow2_values()
    ensures
        pow2(8) == 0x100,
        pow2(16) == 0x1_0000,
        pow2(32) == 0x1_0000_0000,
        pow2(64) == 0x1_0000_0000_0000_0000,
{
    lemma2_to64();
}

} // verus!
