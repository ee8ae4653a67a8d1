//! The symbol codec: binds symbols to fixed-width bit patterns and reads and
//! writes them through the bit-range codec.
//!
//! A symbol is named by its position in the table, in declaration order. An
//! exhaustive table binds every pattern of its width to one symbol; an open
//! table may leave patterns unbound, and those decode to [`Unrecognized`].
use crate::bit_range::{
    field_value, field_written, get_field, in_bounds, lemma_field_bound, lemma_u128_max_is_pow2_minus_1,
    lemma_u128_shl_is_mul, set_field,
};
use crate::layout::LayoutError;
use crate::unrecognized::Unrecognized;
use vstd::arithmetic::power2::*;
use vstd::prelude::*;
use vstd::set_lib::{lemma_int_range, lemma_subset_equality, set_int_range};

verus! {

/// The fault of symbol `i`, if any: its discriminant does not fit `width`
/// bits, or an earlier symbol has the same discriminant.
pub open spec fn symbol_fault(discriminants: Seq<u128>, width: nat, i: int) -> Option<LayoutError> {
    if discriminants[i] >= pow2(width) {
        Some(LayoutError::DiscriminantOutOfRange { symbol: i as usize })
    } else if exists|j: int| 0 <= j < i && discriminants[j] == discriminants[i] {
        Some(LayoutError::DuplicateDiscriminant { symbol: i as usize })
    } else {
        None
    }
}

/// No symbol has a fault.
pub open spec fn all_symbols_valid(discriminants: Seq<u128>, width: nat) -> bool {
    forall|i: int| 0 <= i < discriminants.len() ==> symbol_fault(discriminants, width, i) is None
}

/// `e` is the fault of the first symbol that has one.
pub open spec fn first_fault(discriminants: Seq<u128>, width: nat, e: LayoutError) -> bool {
    exists|i: int|
        0 <= i < discriminants.len() && symbol_fault(discriminants, width, i) == Some(e) && forall|j: int|
            0 <= j < i ==> symbol_fault(discriminants, width, j) is None
}

/// `n` is a power of two.
pub open spec fn is_power_of_two(n: nat) -> bool {
    exists|w: nat| pow2(w) == n
}

/// Accepts a discriminant that fits `width` bits; else names the symbol.
pub fn validate_discriminant_range(symbol: usize, discriminant: u128, width: u8) -> (r: Result<(), LayoutError>)
    requires
        1 <= width <= 128,
    ensures
        r is Ok <==> discriminant < pow2(width as nat),
        r is Err ==> r == Err::<(), LayoutError>(LayoutError::DiscriminantOutOfRange { symbol }),
{
    let fits = if width == 128 {
        proof {
            lemma_u128_max_is_pow2_minus_1();
        }
        true
    } else {
        proof {
            lemma_pow2_strictly_increases(width as nat, 128);
            lemma_u128_max_is_pow2_minus_1();
            lemma_u128_shl_is_mul(1, width as u128);
        }
        discriminant < (1u128 << width)
    };
    if fits {
        Ok(())
    } else {
        Err(LayoutError::DiscriminantOutOfRange { symbol })
    }
}

/// The exponent `w` with `2^w == n`, if there is one.
fn exact_log2(n: usize) -> (r: Option<u8>)
    ensures
        r matches Some(w) ==> pow2(w as nat) == n,
        r is None ==> !is_power_of_two(n as nat),
{
    let mut p: usize = 1;
    let mut k: u8 = 0;
    proof {
        lemma2_to64();
    }
    while p < n
        invariant
            p == pow2(k as nat),
            k <= 64,
            1 <= p,
            forall|j: nat| j < k ==> pow2(j) < n,
        decreases 64 - k,
    {
        if p > usize::MAX / 2 {
            proof {
                lemma_pow2_unfold(k as nat + 1);
                lemma_no_power_between(n as nat, k as nat);
            }
            return None;
        }
        proof {
            lemma_pow2_unfold(k as nat + 1);
            assert forall|j: nat| j < k + 1 implies pow2(j) < n by {
                if j == k {
                } else {
                    assert(j < k);
                }
            }
            assert(k < 63) by {
                if k >= 63 {
                    if k > 63 {
                        lemma_pow2_strictly_increases(63, k as nat);
                    }
                    lemma2_to64_rest();
                }
            }
        }
        p = p * 2;
        k = k + 1;
    }
    if p == n {
        Some(k)
    } else {
        proof {
            if k == 0 {
                assert(n < 1);
                assert forall|w: nat| pow2(w) != n by {
                    lemma_pow2_pos(w);
                }
            } else {
                lemma_pow2_unfold(k as nat);
                lemma_no_power_between(n as nat, (k - 1) as nat);
            }
        }
        None
    }
}

/// A number strictly between `2^k` and `2^(k+1)` is no power of two.
proof fn lemma_no_power_between(n: nat, k: nat)
    requires
        pow2(k) < n < pow2(k + 1),
    ensures
        !is_power_of_two(n),
{
    assert forall|w: nat| pow2(w) != n by {
        if w < k {
            lemma_pow2_strictly_increases(w, k);
        } else if w > k + 1 {
            lemma_pow2_strictly_increases(k + 1, w);
        }
    }
}

/// Symbols bound to distinct bit patterns of one width.
pub struct SymbolTable {
    width: u8,
    discriminants: Vec<u128>,
    exhaustive: bool,
}

impl SymbolTable {
    /// The width of a pattern, in bits.
    pub closed spec fn spec_width(&self) -> nat {
        self.width as nat
    }

    /// The pattern of each symbol, in declaration order.
    pub closed spec fn spec_discriminants(&self) -> Seq<u128> {
        self.discriminants@
    }

    /// Every pattern of the width is bound to a symbol.
    pub closed spec fn spec_exhaustive(&self) -> bool {
        self.exhaustive
    }

    /// The width lies in `[1, 128]`, every discriminant fits it, no two
    /// symbols share one, and an exhaustive table has `2^width` symbols.
    pub open spec fn wf(&self) -> bool {
        &&& 1 <= self.spec_width() <= 128
        &&& all_symbols_valid(self.spec_discriminants(), self.spec_width())
        &&& self.spec_exhaustive() ==> self.spec_discriminants().len() == pow2(self.spec_width())
    }

    /// Finds the first symbol that has a fault.
    fn find_fault(discriminants: &Vec<u128>, width: u8) -> (r: Result<(), LayoutError>)
        requires
            1 <= width <= 128,
        ensures
            r is Ok <==> all_symbols_valid(discriminants@, width as nat),
            r matches Err(e) ==> first_fault(discriminants@, width as nat, e),
    {
        let n = discriminants.len();
        let mut i: usize = 0;
        while i < n
            invariant
                1 <= width <= 128,
                n == discriminants@.len(),
                i <= n,
                forall|k: int| 0 <= k < i ==> symbol_fault(discriminants@, width as nat, k) is None,
            decreases n - i,
        {
            let d = discriminants[i];
            if validate_discriminant_range(i, d, width).is_err() {
                assert(symbol_fault(discriminants@, width as nat, i as int) == Some(
                    LayoutError::DiscriminantOutOfRange { symbol: i },
                ));
                return Err(LayoutError::DiscriminantOutOfRange { symbol: i });
            }
            let mut j: usize = 0;
            while j < i
                invariant
                    i < n,
                    n == discriminants@.len(),
                    j <= i,
                    d == discriminants@[i as int],
                    d < pow2(width as nat),
                    forall|k: int| 0 <= k < j ==> discriminants@[k] != d,
                    forall|k: int| 0 <= k < i ==> symbol_fault(discriminants@, width as nat, k) is None,
                decreases i - j,
            {
                if discriminants[j] == d {
                    assert(discriminants@[j as int] == discriminants@[i as int]);
                    assert(symbol_fault(discriminants@, width as nat, i as int) == Some(
                        LayoutError::DuplicateDiscriminant { symbol: i },
                    ));
                    return Err(LayoutError::DuplicateDiscriminant { symbol: i });
                }
                j = j + 1;
            }
            assert(symbol_fault(discriminants@, width as nat, i as int) is None);
            i = i + 1;
        }
        Ok(())
    }

    /// An exhaustive table: the number of symbols is `2^w` for a width `w` of
    /// at least 1, and the table binds each of the `2^w` patterns of that width
    /// to one symbol.
    pub fn exhaustive(discriminants: Vec<u128>) -> (r: Result<SymbolTable, LayoutError>)
        ensures
            !is_power_of_two(discriminants@.len()) ==> r == Err::<SymbolTable, LayoutError>(
                LayoutError::VariantCountNotPowerOfTwo,
            ),
            discriminants@.len() == 1 ==> r == Err::<SymbolTable, LayoutError>(LayoutError::InvalidWidth),
            forall|w: nat|
                1 <= w && #[trigger] pow2(w) == discriminants@.len() ==> match r {
                    Ok(t) => all_symbols_valid(discriminants@, w) && t.spec_width() == w,
                    Err(e) => !all_symbols_valid(discriminants@, w) && first_fault(discriminants@, w, e),
                },
            r matches Ok(t) ==> t.wf() && t.spec_exhaustive() && t.spec_discriminants() == discriminants@,
    {
        let width = match exact_log2(discriminants.len()) {
            None => {
                proof {
                    lemma2_to64();
                    if discriminants@.len() == 1 {
                        assert(pow2(0) == discriminants@.len());
                    }
                }
                return Err(LayoutError::VariantCountNotPowerOfTwo);
            },
            Some(w) => w,
        };
        proof {
            lemma_pow2_unique(width as nat);
            lemma2_to64();
        }
        if width == 0 {
            return Err(LayoutError::InvalidWidth);
        }
        proof {
            assert(width < 64) by {
                if width >= 64 {
                    if width > 64 {
                        lemma_pow2_strictly_increases(64, width as nat);
                    }
                }
            }
        }
        match Self::find_fault(&discriminants, width) {
            Err(e) => Err(e),
            Ok(()) => Ok(SymbolTable { width, discriminants, exhaustive: true }),
        }
    }

    /// An open table of the given width: patterns that no symbol is bound to
    /// decode as [`Unrecognized`].
    pub fn open(width: u8, discriminants: Vec<u128>) -> (r: Result<SymbolTable, LayoutError>)
        ensures
            !(1 <= width <= 128) ==> r == Err::<SymbolTable, LayoutError>(LayoutError::InvalidWidth),
            1 <= width <= 128 ==> match r {
                Ok(t) => all_symbols_valid(discriminants@, width as nat),
                Err(e) => !all_symbols_valid(discriminants@, width as nat) && first_fault(
                    discriminants@,
                    width as nat,
                    e,
                ),
            },
            r matches Ok(t) ==> t.wf() && !t.spec_exhaustive() && t.spec_width() == width
                && t.spec_discriminants() == discriminants@,
    {
        if width < 1 || width > 128 {
            return Err(LayoutError::InvalidWidth);
        }
        match Self::find_fault(&discriminants, width) {
            Err(e) => Err(e),
            Ok(()) => Ok(SymbolTable { width, discriminants, exhaustive: false }),
        }
    }

    /// The width of a pattern, in bits.
    pub fn width(&self) -> (r: u8)
        ensures
            r == self.spec_width(),
    {
        self.width
    }

    /// The number of symbols.
    pub fn symbol_count(&self) -> (r: usize)
        ensures
            r == self.spec_discriminants().len(),
    {
        self.discriminants.len()
    }

    /// The pattern bound to `symbol`.
    pub fn discriminant(&self, symbol: usize) -> (r: u128)
        requires
            symbol < self.spec_discriminants().len(),
        ensures
            r == self.spec_discriminants()[symbol as int],
    {
        self.discriminants[symbol]
    }

    /// Whether every pattern of the width is bound to a symbol.
    pub fn is_exhaustive(&self) -> (r: bool)
        ensures
            r == self.spec_exhaustive(),
    {
        self.exhaustive
    }

    /// Reads the field at `bit_index` of an exhaustive table and returns the
    /// symbol bound to its pattern; every pattern has one.
    pub fn decode_exhaustive(&self, data: &[u8], bit_index: usize) -> (r: usize)
        requires
            self.wf(),
            self.spec_exhaustive(),
            in_bounds(data@.len(), bit_index as int, self.spec_width()),
        ensures
            r < self.spec_discriminants().len(),
            self.spec_discriminants()[r as int] == field_value(data@, bit_index as int, self.spec_width()),
    {
        let v = get_field(data, bit_index, self.width);
        proof {
            lemma_field_bound(data@, bit_index as int, self.spec_width());
            lemma_patterns_covered(self.discriminants@, self.spec_width(), v);
        }
        let n = self.discriminants.len();
        let mut i: usize = 0;
        loop
            invariant
                n == self.discriminants@.len(),
                i < n,
                v == field_value(data@, bit_index as int, self.spec_width()),
                exists|j: int| i <= j < n && self.discriminants@[j] == v,
            decreases n - i,
        {
            if self.discriminants[i] == v {
                return i;
            }
            i = i + 1;
        }
    }

    /// Reads the field at `bit_index` and returns the symbol bound to its
    /// pattern, or the raw pattern when no symbol is bound to it.
    pub fn decode_open(&self, data: &[u8], bit_index: usize) -> (r: Result<usize, Unrecognized<u128>>)
        requires
            self.wf(),
            in_bounds(data@.len(), bit_index as int, self.spec_width()),
        ensures
            match r {
                Ok(i) => i < self.spec_discriminants().len() && self.spec_discriminants()[i as int]
                    == field_value(data@, bit_index as int, self.spec_width()),
                Err(u) => u@ == field_value(data@, bit_index as int, self.spec_width()) && forall|i: int|
                    0 <= i < self.spec_discriminants().len() ==> self.spec_discriminants()[i]
                        != field_value(data@, bit_index as int, self.spec_width()),
            },
    {
        let v = get_field(data, bit_index, self.width);
        let n = self.discriminants.len();
        let mut i: usize = 0;
        while i < n
            invariant
                n == self.discriminants@.len(),
                i <= n,
                v == field_value(data@, bit_index as int, self.spec_width()),
                forall|j: int| 0 <= j < i ==> self.discriminants@[j] != v,
            decreases n - i,
        {
            if self.discriminants[i] == v {
                return Ok(i);
            }
            i = i + 1;
        }
        Err(Unrecognized::new(v))
    }

    /// Writes the pattern of `symbol` into the field at `bit_index`, leaving
    /// every other bit as it was.
    pub fn encode(&self, data: &mut [u8], bit_index: usize, symbol: usize)
        requires
            self.wf(),
            symbol < self.spec_discriminants().len(),
            in_bounds(old(data)@.len(), bit_index as int, self.spec_width()),
        ensures
            field_written(
                old(data)@,
                final(data)@,
                bit_index as int,
                self.spec_width(),
                self.spec_discriminants()[symbol as int],
            ),
    {
        set_field(data, bit_index, self.width, self.discriminants[symbol]);
    }
}

/// Only `w` itself has `2^w` as its power of two.
proof fn lemma_pow2_unique(w: nat)
    ensures
        forall|v: nat| #[trigger] pow2(v) == pow2(w) ==> v == w,
{
    assert forall|v: nat| #[trigger] pow2(v) == pow2(w) implies v == w by {
        if v < w {
            lemma_pow2_strictly_increases(v, w);
        } else if v > w {
            lemma_pow2_strictly_increases(w, v);
        }
    }
}

/// Distinct discriminants below `2^w`, `2^w` of them: each pattern below
/// `2^w` is one of them.
proof fn lemma_patterns_covered(discriminants: Seq<u128>, w: nat, v: u128)
    requires
        all_symbols_valid(discriminants, w),
        discriminants.len() == pow2(w),
        v < pow2(w),
    ensures
        exists|i: int| 0 <= i < discriminants.len() && discriminants[i] == v,
{
    let n = discriminants.len() as int;
    let ints = discriminants.map_values(|x: u128| x as int);
    assert(ints.no_duplicates()) by {
        assert forall|a: int, b: int| 0 <= a < ints.len() && 0 <= b < ints.len() && a != b implies ints[a] != ints[b] by {
            if a < b {
                if discriminants[a] == discriminants[b] {
                    assert(symbol_fault(discriminants, w, b) is Some);
                }
            } else {
                if discriminants[a] == discriminants[b] {
                    assert(symbol_fault(discriminants, w, a) is Some);
                }
            }
        }
    }
    ints.unique_seq_to_set();
    let found = ints.to_set();
    let range = set_int_range(0, n);
    lemma_int_range(0, n);
    assert(found.subset_of(range)) by {
        assert forall|x: int| found.contains(x) implies range.contains(x) by {
            let i = choose|i: int| 0 <= i < ints.len() && ints[i] == x;
            assert(symbol_fault(discriminants, w, i) is None);
        }
    }
    vstd::seq_lib::seq_to_set_is_finite(ints);
    lemma_subset_equality(found, range);
    assert(range.contains(v as int));
    let i = choose|i: int| 0 <= i < ints.len() && ints[i] == v as int;
    assert(discriminants[i] == v);
}

/// Every pattern of an exhaustive table's width is bound to exactly one
/// symbol, so decoding such a table never fails.
pub proof fn lemma_exhaustive_total(table: SymbolTable, v: u128)
    requires
        table.wf(),
        table.spec_exhaustive(),
        v < pow2(table.spec_width()),
    ensures
        exists|i: int| 0 <= i < table.spec_discriminants().len() && table.spec_discriminants()[i] == v,
        forall|i: int, j: int|
            0 <= i < table.spec_discriminants().len() && 0 <= j < table.spec_discriminants().len()
                && table.spec_discriminants()[i] == v && table.spec_discriminants()[j] == v ==> i == j,
{
    lemma_patterns_covered(table.spec_discriminants(), table.spec_width(), v);
    lemma_distinct(table);
}

/// No two symbols of a table share a discriminant.
proof fn lemma_distinct(table: SymbolTable)
    requires
        table.wf(),
    ensures
        forall|i: int, j: int|
            0 <= i < table.spec_discriminants().len() && 0 <= j < table.spec_discriminants().len()
                && #[trigger] table.spec_discriminants()[i] == #[trigger] table.spec_discriminants()[j] ==> i == j,
{
    let ds = table.spec_discriminants();
    let w = table.spec_width();
    assert forall|i: int, j: int|
        0 <= i < ds.len() && 0 <= j < ds.len() && #[trigger] ds[i] == #[trigger] ds[j] implies i == j by {
        if i < j {
            assert(symbol_fault(ds, w, j) is Some);
        } else if j < i {
            assert(symbol_fault(ds, w, i) is Some);
        }
    }
}

/// Writing a symbol into a field and reading the field back finds that
/// symbol's pattern, and no other symbol is bound to it.
pub proof fn lemma_symbol_round_trip(table: SymbolTable, pre: Seq<u8>, post: Seq<u8>, bit_index: int, symbol: int)
    requires
        table.wf(),
        0 <= symbol < table.spec_discriminants().len(),
        in_bounds(pre.len(), bit_index, table.spec_width()),
        field_written(pre, post, bit_index, table.spec_width(), table.spec_discriminants()[symbol]),
    ensures
        field_value(post, bit_index, table.spec_width()) == table.spec_discriminants()[symbol],
        forall|i: int|
            0 <= i < table.spec_discriminants().len() && table.spec_discriminants()[i] == field_value(
                post,
                bit_index,
                table.spec_width(),
            ) ==> i == symbol,
{
    let ds = table.spec_discriminants();
    assert(symbol_fault(ds, table.spec_width(), symbol) is None);
    crate::bit_range::lemma_round_trip(pre, post, bit_index, table.spec_width(), ds[symbol]);
    lemma_distinct(table);
}

} // verus!
