//! Where the fields of a bit-packed buffer lie, and the checks that a layout
//! passes before any buffer exists.
use crate::bit_range::{
    field_value, field_written, get_field, in_bounds, lemma_disjoint_field_unchanged, set_field,
};
use vstd::prelude::*;

verus! {

/// Why a layout or a symbol table is refused.
#[derive(Clone, Copy, Debug, PartialEq, Eq, Structural)]
pub enum LayoutError {
    /// The widths of all fields add up to a number that is not a multiple of 8.
    TotalNotMultipleOf8,
    /// A width lies outside `[1, 128]`.
    InvalidWidth,
    /// A declared width differs from the width that was computed.
    WidthMismatch,
    /// An exhaustive symbol table has a number of symbols that is not a power of two.
    VariantCountNotPowerOfTwo,
    /// The discriminant of this symbol does not fit the table's width.
    DiscriminantOutOfRange { symbol: usize },
    /// This symbol has the discriminant of an earlier symbol.
    DuplicateDiscriminant { symbol: usize },
}

/// Accepts a total width that is a multiple of 8 bits.
pub fn validate_total_multiple_of_8(total_bits: usize) -> (r: Result<(), LayoutError>)
    ensures
        r is Ok <==> total_bits % 8 == 0,
        r is Err ==> r == Err::<(), LayoutError>(LayoutError::TotalNotMultipleOf8),
{
    if total_bits % 8 == 0 {
        Ok(())
    } else {
        Err(LayoutError::TotalNotMultipleOf8)
    }
}

/// Accepts a computed width when no width was declared, or when the declared
/// one equals it.
pub fn validate_documented_bits(actual: usize, documented: Option<usize>) -> (r: Result<(), LayoutError>)
    ensures
        r is Ok <==> (documented is None || documented == Some(actual)),
        r is Err ==> r == Err::<(), LayoutError>(LayoutError::WidthMismatch),
{
    match documented {
        None => Ok(()),
        Some(bits) => {
            if bits == actual {
                Ok(())
            } else {
                Err(LayoutError::WidthMismatch)
            }
        },
    }
}

/// A zeroed buffer of `total_bits / 8` bytes; a total that is not a multiple
/// of 8 is refused before any buffer is made.
pub fn new_zeroed(total_bits: usize) -> (r: Result<Vec<u8>, LayoutError>)
    ensures
        r is Ok <==> total_bits % 8 == 0,
        r matches Ok(buf) ==> buf@.len() == total_bits / 8 && forall|i: int|
            0 <= i < buf@.len() ==> buf@[i] == 0,
        r is Err ==> r == Err::<Vec<u8>, LayoutError>(LayoutError::TotalNotMultipleOf8),
{
    validate_total_multiple_of_8(total_bits)?;
    Ok(zeroed(total_bits / 8))
}

/// `len` zero bytes.
fn zeroed(len: usize) -> (r: Vec<u8>)
    ensures
        r@.len() == len,
        forall|i: int| 0 <= i < len ==> r@[i] == 0,
{
    let mut buf: Vec<u8> = Vec::new();
    let mut i: usize = 0;
    while i < len
        invariant
            i <= len,
            buf@.len() == i,
            forall|j: int| 0 <= j < i ==> buf@[j] == 0,
        decreases len - i,
    {
        buf.push(0);
        i = i + 1;
    }
    buf
}

/// The number of bits taken by the first `k` fields.
pub open spec fn bits_before(widths: Seq<u8>, k: int) -> nat
    decreases k,
{
    if k <= 0 {
        0
    } else {
        bits_before(widths, k - 1) + widths[k - 1] as nat
    }
}

/// Each width lies in `[1, 128]`.
pub open spec fn widths_valid(widths: Seq<u8>) -> bool {
    forall|k: int| 0 <= k < widths.len() ==> 1 <= #[trigger] widths[k] <= 128
}

/// Fields laid out in declaration order with no padding: field `k` starts
/// at the sum of the widths of the fields before it.
pub struct Layout {
    widths: Vec<u8>,
    offsets: Vec<usize>,
    total_bits: usize,
}

impl Layout {
    /// The width of each field, in declaration order.
    pub closed spec fn spec_widths(&self) -> Seq<u8> {
        self.widths@
    }

    /// The first bit of each field.
    pub closed spec fn spec_offsets(&self) -> Seq<usize> {
        self.offsets@
    }

    /// The width of all fields together.
    pub closed spec fn spec_total_bits(&self) -> nat {
        self.total_bits as nat
    }

    /// Widths in `[1, 128]`, offsets that are running sums of the widths, and
    /// a total that is their sum and a multiple of 8.
    pub open spec fn wf(&self) -> bool {
        &&& widths_valid(self.spec_widths())
        &&& self.spec_offsets().len() == self.spec_widths().len()
        &&& forall|k: int|
            0 <= k < self.spec_widths().len() ==> #[trigger] self.spec_offsets()[k] == bits_before(
                self.spec_widths(),
                k,
            )
        &&& self.spec_total_bits() == bits_before(self.spec_widths(), self.spec_widths().len() as int)
        &&& self.spec_total_bits() % 8 == 0
    }

    /// Lays out fields of the given widths; refuses a width outside
    /// `[1, 128]`, then a total that is not a multiple of 8.
    pub fn new(widths: Vec<u8>) -> (r: Result<Layout, LayoutError>)
        requires
            widths@.len() * 128 <= usize::MAX,
        ensures
            !widths_valid(widths@) ==> r == Err::<Layout, LayoutError>(LayoutError::InvalidWidth),
            widths_valid(widths@) ==> (r is Ok <==> bits_before(widths@, widths@.len() as int) % 8 == 0),
            widths_valid(widths@) && r is Err ==> r == Err::<Layout, LayoutError>(
                LayoutError::TotalNotMultipleOf8,
            ),
            r matches Ok(l) ==> l.wf() && l.spec_widths() == widths@,
    {
        let n = widths.len();
        let mut offsets: Vec<usize> = Vec::new();
        let mut total: usize = 0;
        let mut k: usize = 0;
        while k < n
            invariant
                n == widths@.len(),
                n * 128 <= usize::MAX,
                k <= n,
                widths_valid(widths@.subrange(0, k as int)),
                offsets@.len() == k,
                forall|j: int| 0 <= j < k ==> #[trigger] offsets@[j] == bits_before(widths@, j),
                total == bits_before(widths@, k as int),
                total <= k * 128,
            decreases n - k,
        {
            let w = widths[k];
            if w < 1 || w > 128 {
                return Err(LayoutError::InvalidWidth);
            }
            proof {
                assert(widths@.subrange(0, k as int + 1)[k as int] == w);
                assert forall|j: int| 0 <= j < k + 1 implies 1 <= #[trigger] widths@.subrange(0, k as int + 1)[j] <= 128 by {
                    if j < k {
                        assert(widths@.subrange(0, k as int + 1)[j] == widths@.subrange(0, k as int)[j]);
                    }
                }
            }
            offsets.push(total);
            total = total + w as usize;
            k = k + 1;
        }
        assert(widths@.subrange(0, n as int) == widths@);
        validate_total_multiple_of_8(total)?;
        Ok(Layout { widths, offsets, total_bits: total })
    }

    /// Reads field `k` of `data`.
    pub fn get(&self, data: &[u8], k: usize) -> (r: u128)
        requires
            self.wf(),
            k < self.spec_widths().len(),
            data@.len() * 8 == self.spec_total_bits(),
        ensures
            r == field_value(data@, self.spec_offsets()[k as int] as int, self.spec_widths()[k as int] as nat),
    {
        proof {
            self.lemma_field_inside(k as int);
        }
        get_field(data, self.offsets[k], self.widths[k])
    }

    /// Writes the low bits of `value` into field `k` of `data`, leaving every
    /// other bit as it was.
    pub fn set(&self, data: &mut [u8], k: usize, value: u128)
        requires
            self.wf(),
            k < self.spec_widths().len(),
            old(data)@.len() * 8 == self.spec_total_bits(),
        ensures
            field_written(
                old(data)@,
                final(data)@,
                self.spec_offsets()[k as int] as int,
                self.spec_widths()[k as int] as nat,
                value,
            ),
    {
        proof {
            self.lemma_field_inside(k as int);
        }
        set_field(data, self.offsets[k], self.widths[k], value);
    }

    /// A zeroed buffer of `total_bits / 8` bytes for this layout.
    pub fn new_buffer(&self) -> (r: Vec<u8>)
        requires
            self.wf(),
        ensures
            r@.len() * 8 == self.spec_total_bits(),
            forall|i: int| 0 <= i < r@.len() ==> r@[i] == 0,
    {
        zeroed(self.total_bits / 8)
    }

    /// The number of fields.
    pub fn field_count(&self) -> (r: usize)
        ensures
            r == self.spec_widths().len(),
    {
        self.widths.len()
    }

    /// The width of field `k`.
    pub fn width(&self, k: usize) -> (r: u8)
        requires
            k < self.spec_widths().len(),
        ensures
            r == self.spec_widths()[k as int],
    {
        self.widths[k]
    }

    /// The first bit of field `k`.
    pub fn offset(&self, k: usize) -> (r: usize)
        requires
            self.wf(),
            k < self.spec_widths().len(),
        ensures
            r == self.spec_offsets()[k as int],
            r == bits_before(self.spec_widths(), k as int),
    {
        self.offsets[k]
    }

    /// The width of all fields together.
    pub fn total_bits(&self) -> (r: usize)
        ensures
            r == self.spec_total_bits(),
    {
        self.total_bits
    }

    /// Field `k` ends where field `k + 1` starts, and no later than the total.
    proof fn lemma_field_inside(&self, k: int)
        requires
            self.wf(),
            0 <= k < self.spec_widths().len(),
        ensures
            self.spec_offsets()[k] + self.spec_widths()[k] <= self.spec_total_bits(),
    {
        lemma_bits_before_monotonic(self.spec_widths(), k + 1, self.spec_widths().len() as int);
    }
}

/// The running sum of widths does not decrease.
proof fn lemma_bits_before_monotonic(widths: Seq<u8>, j: int, k: int)
    requires
        j <= k,
    ensures
        bits_before(widths, j) <= bits_before(widths, k),
    decreases k - j,
{
    if j < k {
        lemma_bits_before_monotonic(widths, j, k - 1);
    }
}

/// Two distinct fields of a layout share no bit, so writing one leaves the
/// value of the other as it was.
pub proof fn lemma_other_field_unchanged(layout: Layout, pre: Seq<u8>, post: Seq<u8>, k: int, value: u128, j: int)
    requires
        layout.wf(),
        0 <= k < layout.spec_widths().len(),
        0 <= j < layout.spec_widths().len(),
        j != k,
        pre.len() * 8 == layout.spec_total_bits(),
        field_written(
            pre,
            post,
            layout.spec_offsets()[k] as int,
            layout.spec_widths()[k] as nat,
            value,
        ),
    ensures
        field_value(post, layout.spec_offsets()[j] as int, layout.spec_widths()[j] as nat) == field_value(
            pre,
            layout.spec_offsets()[j] as int,
            layout.spec_widths()[j] as nat,
        ),
{
    let ws = layout.spec_widths();
    layout.lemma_field_inside(j);
    if j < k {
        lemma_bits_before_monotonic(ws, j + 1, k);
    } else {
        lemma_bits_before_monotonic(ws, k + 1, j);
    }
    lemma_disjoint_field_unchanged(
        pre,
        post,
        layout.spec_offsets()[k] as int,
        ws[k] as nat,
        value,
        layout.spec_offsets()[j] as int,
        ws[j] as nat,
    );
}

} // verus!
