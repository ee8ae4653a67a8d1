//! Packs fields of 1 to 128 bits into a dense byte buffer, and maps symbol
//! sets onto fixed-width bit patterns inside such a buffer.
pub mod bit_range;
pub mod layout;
pub mod specifier;
pub mod symbol;
pub mod unrecognized;

pub use bit_range::{get_field, set_field};
pub use layout::{new_zeroed, validate_documented_bits, validate_total_multiple_of_8, Layout, LayoutError};
pub use specifier::{storage_bits, Specifier, U128Bits, U16Bits, U32Bits, U64Bits, U8Bits};
pub use symbol::{validate_discriminant_range, SymbolTable};
pub use unrecognized::Unrecognized;
