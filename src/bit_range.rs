//! The bit-range codec: reads and writes an unsigned value of 1 to 128 bits
//! at any bit offset of a byte buffer.
//!
//! Bit `i` of a buffer lives in byte `i / 8`, at position `i % 8` counted from
//! the least significant bit of that byte. Bit 0 of a field is its least
//! significant bit and sits at the field's first (lowest) bit index.
use vstd::arithmetic::div_mod::{lemma_div_denominator, lemma_mod_breakdown};
use vstd::arithmetic::power2::*;
use vstd::bits::lemma_u128_shr_is_div;
use vstd::prelude::*;

verus! {

/// Bit `i` of the buffer, as 0 or 1.
pub open spec fn bit_value(data: Seq<u8>, i: int) -> nat {
    ((data[i / 8] >> ((i % 8) as u8)) & 1) as nat
}

/// Bit `j` of a value, as 0 or 1.
pub open spec fn value_bit(value: u128, j: int) -> nat {
    ((value >> (j as u128)) & 1) as nat
}

/// The unsigned number held by the `width` bits that start at bit `start`:
/// the bit at `start` is its least significant digit.
pub open spec fn field_value(data: Seq<u8>, start: int, width: nat) -> nat
    decreases width,
{
    if width == 0 {
        0
    } else {
        bit_value(data, start) + 2 * field_value(data, start + 1, (width - 1) as nat)
    }
}

/// The bits `[start, start + width)` of `post` hold the low `width` bits of
/// `value`, and every other bit of `post` is the bit of `pre` at that index.
pub open spec fn field_written(
    pre: Seq<u8>,
    post: Seq<u8>,
    start: int,
    width: nat,
    value: u128,
) -> bool {
    &&& post.len() == pre.len()
    &&& forall|i: int|
        0 <= i < pre.len() * 8 ==> #[trigger] bit_value(post, i) == if start <= i < start + width {
            value_bit(value, i - start)
        } else {
            bit_value(pre, i)
        }
}

/// The field `[start, start + width)` lies inside a buffer of `len` bytes.
pub open spec fn in_bounds(len: nat, start: int, width: nat) -> bool {
    0 <= start && start + width <= len * 8
}

/// The `c` bits at position `off` of a byte are its bit `off` plus twice the
/// `c - 1` bits above it.
proof fn lemma_byte_chunk_step(b: u8, off: u8, off1: u8, c: u8, sh: u8, sh1: u8)
    by (bit_vector)
    requires
        off < 8,
        1 <= c,
        off + c <= 8,
        off1 == off + 1,
        sh == 8 - c,
        sh1 == 9 - c,
    ensures
        ((b >> off) & (0xffu8 >> sh)) == ((b >> off) & 1) + 2 * ((b >> off1) & (0xffu8 >> sh1)),
{
}

/// The field of `c` bits at position `off` of byte `k` is the byte shifted
/// right by `off` and masked to `c` bits.
proof fn lemma_field_in_byte(data: Seq<u8>, k: int, off: u8, c: u8)
    requires
        0 <= k < data.len(),
        off as int + c as int <= 8,
    ensures
        field_value(data, 8 * k + off, c as nat) == ((data[k] >> off) & (0xffu8 >> ((8 - c) as u8))) as nat,
    decreases c,
{
    let b = data[k];
    if c == 0 {
        assert((b >> off) & (0xffu8 >> 8u8) == 0) by (bit_vector);
    } else {
        let off1 = (off + 1) as u8;
        let c1 = (c - 1) as u8;
        lemma_field_in_byte(data, k, off1, c1);
        assert((8 * k + off) / 8 == k && (8 * k + off) % 8 == off as int);
        lemma_byte_chunk_step(b, off, off1, c, (8 - c) as u8, (8 - c1) as u8);
        assert(8 * k + off + 1 == 8 * k + off1);
    }
}

/// A field of `a + b` bits is its first `a` bits plus `2^a` times the `b`
/// bits that follow.
proof fn lemma_field_split(data: Seq<u8>, start: int, a: nat, b: nat)
    ensures
        field_value(data, start, a + b) == field_value(data, start, a) + pow2(a)
            * field_value(data, start + a, b),
    decreases a,
{
    if a == 0 {
        lemma_pow2_zero();
    } else {
        lemma_field_split(data, start + 1, (a - 1) as nat, b);
        lemma_pow2_unfold(a);
        assert((a + b - 1) as nat == ((a - 1) as nat + b) as nat);
        let x = field_value(data, start + 1, (a - 1) as nat);
        let y = field_value(data, start + a, b);
        let p = pow2((a - 1) as nat);
        assert(2 * (x + p * y) == 2 * x + (2 * p) * y) by (nonlinear_arith);
    }
}

/// A field of `width` bits holds a number below `2^width`.
pub proof fn lemma_field_bound(data: Seq<u8>, start: int, width: nat)
    ensures
        field_value(data, start, width) < pow2(width),
    decreases width,
{
    if width == 0 {
        lemma_pow2_zero();
    } else {
        lemma_field_bound(data, start + 1, (width - 1) as nat);
        lemma_pow2_unfold(width);
        let b = data[start / 8];
        let s = ((start % 8) as u8);
        assert((b >> s) & 1 <= 1) by (bit_vector);
    }
}

/// A field of at most `n` bits holds a number below `2^n`.
pub proof fn lemma_field_below(data: Seq<u8>, start: int, width: nat, n: nat)
    requires
        width <= n,
    ensures
        field_value(data, start, width) < pow2(n),
{
    lemma_field_bound(data, start, width);
    if width < n {
        lemma_pow2_strictly_increases(width, n);
    }
}

/// Shifting left by `s` multiplies by `2^s` while nothing is shifted out.
pub proof fn lemma_u128_shl_is_mul(x: u128, s: u128)
    requires
        s < 128,
        x * pow2(s as nat) <= u128::MAX,
    ensures
        x << s == x * pow2(s as nat),
    decreases s,
{
    if s == 0 {
        lemma_pow2_zero();
        assert(x << 0u128 == x) by (bit_vector);
    } else {
        let s1 = (s - 1) as u128;
        lemma_pow2_unfold(s as nat);
        lemma_pow2_pos(s1 as nat);
        assert(x * pow2(s1 as nat) <= x * pow2(s as nat)) by (nonlinear_arith)
            requires pow2(s as nat) == 2 * pow2(s1 as nat), pow2(s1 as nat) > 0;
        lemma_u128_shl_is_mul(x, s1);
        let y = x << s1;
        assert(y * 2 <= u128::MAX) by (nonlinear_arith)
            requires y == x * pow2(s1 as nat), x * pow2(s as nat) <= u128::MAX,
                pow2(s as nat) == 2 * pow2(s1 as nat);
        assert(x << s == (y * 2) as u128) by (bit_vector)
            requires y == x << s1, s1 + 1 == s, s < 128, y * 2 <= u128::MAX;
        assert(x * pow2(s as nat) == y * 2) by (nonlinear_arith)
            requires y == x * pow2(s1 as nat), pow2(s as nat) == 2 * pow2(s1 as nat);
    }
}

/// Putting `chunk` above the low `done` bits that `value` occupies adds
/// `chunk * 2^done`.
proof fn lemma_or_above(value: u128, chunk: u128, done: u128, c: nat)
    requires
        done < 128,
        done + c <= 128,
        value < pow2(done as nat),
        chunk < pow2(c),
    ensures
        value | (chunk << done) == value + chunk * pow2(done as nat),
        value + chunk * pow2(done as nat) < pow2(done as nat + c),
{
    lemma_pow2_adds(done as nat, c);
    lemma_pow2_pos(done as nat);
    assert(chunk * pow2(done as nat) + value < pow2(c) * pow2(done as nat)) by (nonlinear_arith)
        requires chunk < pow2(c), value < pow2(done as nat), chunk >= 0;
    if done as nat + c < 128 {
        lemma_pow2_strictly_increases(done as nat + c, 128);
    }
    lemma_u128_max_is_pow2_minus_1();
    lemma_pow2_strictly_increases(done as nat, 128);
    lemma_u128_shl_is_mul(chunk, done);
    lemma_u128_shl_is_mul(1, done);
    let t = chunk << done;
    assert(value | t == value + t) by (bit_vector)
        requires value < (1u128 << done), t == chunk << done, done < 128;
}

proof fn lemma_pow2_zero()
    ensures
        pow2(0) == 1,
{
    lemma2_to64();
}

pub proof fn lemma_u128_max_is_pow2_minus_1()
    ensures
        u128::MAX + 1 == pow2(128),
{
    lemma2_to64();
    lemma2_to64_rest();
    lemma_pow2_adds(64, 64);
}

/// Writing `c` low bits of `rem` at position `off` of byte `b` sets bit `q`
/// of the byte to bit `j = q - off` of `rem` inside that range and keeps it
/// outside.
pub proof fn lemma_chunk_written(b: u8, rem: u128, off: u8, c: u8, sh: u8, mask: u8, bits: u8, nb: u8, q: u8, j: u128)
    by (bit_vector)
    requires
        off < 8,
        1 <= c,
        off + c <= 8,
        sh == 8 - c,
        mask == 0xffu8 >> sh,
        bits == (rem & (mask as u128)) as u8,
        nb == (b & !(mask << off)) | (bits << off),
        q < 8,
        off <= q && q < off + c ==> j + off == q,
    ensures
        off <= q && q < off + c ==> ((nb >> q) & 1) as u128 == (rem >> j) & 1,
        !(off <= q && q < off + c) ==> (nb >> q) & 1 == (b >> q) & 1,
{
}

/// Bit `j` of `value / 2^d` is bit `d + j` of `value`.
proof fn lemma_value_bit_of_quotient(value: u128, rem: u128, d: nat, j: nat)
    requires
        rem == value as nat / pow2(d),
        d + j < 128,
    ensures
        value_bit(rem, j as int) == value_bit(value, (d + j) as int),
{
    lemma_pow2_pos(d);
    lemma_pow2_pos(j);
    lemma_pow2_adds(d, j);
    lemma_u128_shr_is_div(rem, j as u128);
    lemma_u128_shr_is_div(value, (d + j) as u128);
    lemma_div_denominator(value as int, pow2(d) as int, pow2(j) as int);
    let x = rem >> (j as u128);
    let y = value >> ((d + j) as u128);
    assert(x == y);
}

/// Reads the `width` bits that start at bit `bit_index` as an unsigned
/// number; the first byte visited gives the least significant bits.
pub fn get_field(data: &[u8], bit_index: usize, width: u8) -> (r: u128)
    requires
        1 <= width <= 128,
        in_bounds(data@.len(), bit_index as int, width as nat),
    ensures
        r == field_value(data@, bit_index as int, width as nat),
{
    let mut value: u128 = 0;
    let mut done: u8 = 0;
    let mut byte_index: usize = bit_index / 8;
    let mut offset: u8 = (bit_index % 8) as u8;
    proof {
        lemma_pow2_zero();
    }
    while done < width
        invariant
            1 <= width <= 128,
            in_bounds(data@.len(), bit_index as int, width as nat),
            done <= width,
            offset < 8,
            8 * byte_index + offset == bit_index + done,
            value == field_value(data@, bit_index as int, done as nat),
            value < pow2(done as nat),
        decreases width - done,
    {
        let room = 8 - offset;
        let left = width - done;
        let chunk_len = if room < left { room } else { left };
        let chunk = (data[byte_index] >> offset) & (0xffu8 >> (8 - chunk_len));
        proof {
            lemma_field_in_byte(data@, byte_index as int, offset, chunk_len);
            lemma_field_bound(data@, bit_index + done, chunk_len as nat);
            lemma_field_split(data@, bit_index as int, done as nat, chunk_len as nat);
            lemma_or_above(value, chunk as u128, done as u128, chunk_len as nat);
            assert(field_value(data@, bit_index + done, chunk_len as nat) == chunk as nat);
            assert(chunk as nat * pow2(done as nat) == pow2(done as nat) * chunk as nat) by (nonlinear_arith);
        }
        value = value | ((chunk as u128) << (done as u128));
        done = done + chunk_len;
        if offset + chunk_len == 8 {
            byte_index = byte_index + 1;
            offset = 0;
        } else {
            offset = offset + chunk_len;
        }
    }
    value
}

/// Writes the low `width` bits of `value` into the bits `[bit_index,
/// bit_index + width)`; bits of `value` above `width` are ignored. No other bit
/// of the buffer changes, not even in the bytes that the field shares with its
/// neighbours.
pub fn set_field(data: &mut [u8], bit_index: usize, width: u8, value: u128)
    requires
        1 <= width <= 128,
        in_bounds(old(data)@.len(), bit_index as int, width as nat),
    ensures
        field_written(old(data)@, final(data)@, bit_index as int, width as nat, value),
{
    let ghost pre = data@;
    let mut rem: u128 = value;
    proof {
        lemma_pow2_zero();
    }
    let mut done: u8 = 0;
    let mut byte_index: usize = bit_index / 8;
    let mut offset: u8 = (bit_index % 8) as u8;
    while done < width
        invariant
            1 <= width <= 128,
            data@.len() == pre.len(),
            in_bounds(pre.len(), bit_index as int, width as nat),
            done <= width,
            offset < 8,
            8 * byte_index + offset == bit_index + done,
            rem == value as nat / pow2(done as nat),
            forall|i: int|
                0 <= i < pre.len() * 8 ==> #[trigger] bit_value(data@, i) == if bit_index <= i
                    < bit_index + done {
                    value_bit(value, i - bit_index)
                } else {
                    bit_value(pre, i)
                },
        decreases width - done,
    {
        let room = 8 - offset;
        let left = width - done;
        let chunk_len = if room < left { room } else { left };
        let mask = 0xffu8 >> (8 - chunk_len);
        let bits = #[verifier::truncate] ((rem & (mask as u128)) as u8);
        let ghost cur = data@;
        let old_byte = data[byte_index];
        data[byte_index] = (old_byte & !(mask << offset)) | (bits << offset);
        proof {
            let start = bit_index + done;
            assert forall|i: int| 0 <= i < pre.len() * 8 implies #[trigger] bit_value(data@, i) == if bit_index <= i < bit_index + done + chunk_len {
                value_bit(value, i - bit_index)
            } else {
                bit_value(pre, i)
            } by {
                assert(i == 8 * (i / 8) + i % 8);
                if i / 8 == byte_index {
                    let q = (i % 8) as u8;
                    assert(q as int == i % 8);
                    let j: u128 = if offset <= q { (q - offset) as u128 } else { 0 };
                    lemma_chunk_written(old_byte, rem, offset, chunk_len, (8 - chunk_len) as u8, mask, bits, data@[byte_index as int], q, j);
                    if offset <= q && q < offset + chunk_len {
                        lemma_value_bit_of_quotient(value, rem, done as nat, j as nat);
                        assert(i - bit_index == done + j);
                        assert(bit_value(data@, i) == value_bit(rem, j as int));
                        assert(bit_index <= i < bit_index + done + chunk_len);
                        assert(!(bit_index <= i < bit_index + done));
                    } else {
                        assert(bit_value(data@, i) == bit_value(cur, i));
                        assert(!(start <= i < start + chunk_len));
                    }
                } else {
                    assert(data@[i / 8] == cur[i / 8]);
                    assert(bit_value(data@, i) == bit_value(cur, i));
                    assert(!(start <= i < start + chunk_len));
                }
            }
            lemma_u128_shr_is_div(rem, chunk_len as u128);
            lemma_pow2_pos(done as nat);
            lemma_pow2_pos(chunk_len as nat);
            lemma_pow2_adds(done as nat, chunk_len as nat);
            lemma_div_denominator(value as int, pow2(done as nat) as int, pow2(chunk_len as nat) as int);
        }
        rem = rem >> chunk_len;
        done = done + chunk_len;
        if offset + chunk_len == 8 {
            byte_index = byte_index + 1;
            offset = 0;
        } else {
            offset = offset + chunk_len;
        }
    }
}

/// The field `[start + k, start + k + w)` inside a field that holds the bits
/// of `value` holds `value / 2^k mod 2^w`.
proof fn lemma_field_of_written_bits(post: Seq<u8>, start: int, width: nat, value: u128, k: nat, w: nat)
    requires
        width <= 128,
        k + w <= width,
        forall|i: int|
            start <= i < start + width ==> #[trigger] bit_value(post, i) == value_bit(value, i - start),
    ensures
        field_value(post, start + k, w) == (value as nat / pow2(k)) % pow2(w),
    decreases w,
{
    let x = value as nat / pow2(k);
    lemma_pow2_pos(k);
    if w == 0 {
        lemma_pow2_zero();
    } else {
        lemma_field_of_written_bits(post, start, width, value, k + 1, (w - 1) as nat);
        assert(start + k + 1 == start + (k + 1));
        assert(bit_value(post, start + k) == value_bit(value, k as int));
        lemma_u128_shr_is_div(value, k as u128);
        let sh = value >> (k as u128);
        assert(sh & 1 == sh % 2) by (bit_vector);
        lemma_pow2_unfold(k + 1);
        lemma_pow2_unfold(w);
        lemma_pow2_pos((w - 1) as nat);
        lemma_div_denominator(value as int, pow2(k) as int, 2);
        lemma_mod_breakdown(x as int, 2, pow2((w - 1) as nat) as int);
    }
}

/// Round trip: right after `value` is written into a field, the field reads
/// back as `value mod 2^width`, and so as `value` itself whenever `value`
/// fits the width.
pub proof fn lemma_round_trip(pre: Seq<u8>, post: Seq<u8>, start: int, width: nat, value: u128)
    requires
        1 <= width <= 128,
        in_bounds(pre.len(), start, width),
        field_written(pre, post, start, width, value),
    ensures
        field_value(post, start, width) == value as nat % pow2(width),
        value < pow2(width) ==> field_value(post, start, width) == value,
{
    assert forall|i: int| start <= i < start + width implies #[trigger] bit_value(post, i) == value_bit(value, i - start) by {
        assert(0 <= i < pre.len() * 8);
    }
    lemma_pow2_zero();
    lemma_field_of_written_bits(post, start, width, value, 0, width);
    assert(start + 0 == start);
    if value < pow2(width) {
        vstd::arithmetic::div_mod::lemma_small_mod(value as nat, pow2(width));
    }
}

/// Two fields that share no bit: writing one leaves the value of the other as
/// it was.
pub proof fn lemma_disjoint_field_unchanged(
    pre: Seq<u8>,
    post: Seq<u8>,
    start: int,
    width: nat,
    value: u128,
    other_start: int,
    other_width: nat,
)
    requires
        field_written(pre, post, start, width, value),
        in_bounds(pre.len(), other_start, other_width),
        other_start + other_width <= start || start + width <= other_start,
    ensures
        field_value(post, other_start, other_width) == field_value(pre, other_start, other_width),
    decreases other_width,
{
    if other_width > 0 {
        assert(bit_value(post, other_start) == bit_value(pre, other_start));
        lemma_disjoint_field_unchanged(pre, post, start, width, value, other_start + 1, (other_width - 1) as nat);
    }
}

} // verus!
