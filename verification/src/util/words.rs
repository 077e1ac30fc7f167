//! Arithmetic on machine words.
use crate::bits;
use vstd::arithmetic::power2::*;
use vstd::prelude::*;

verus! {

/// Bit `i` of `v`.
pub open spec fn bit(v: u64, i: u64) -> bool {
    (v >> i) & 1 == 1
}

/// Testing a bit with a mask.
pub proof fn lemma_bit_test(v: u64, i: u64)
    by (bit_vector)
    requires
        i < 64,
    ensures
        (v & (1u64 << i) != 0) == ((v >> i) & 1 == 1),
{
}

/// The operators on words work bit by bit.
pub proof fn lemma_bitwise(a: u64, b: u64, i: u64, j: u64)
    by (bit_vector)
    requires
        i < 64,
        j < 64,
    ensures
        ((a | b) >> i) & 1 == 1 <==> (a >> i) & 1 == 1 || (b >> i) & 1 == 1,
        ((a & b) >> i) & 1 == 1 <==> (a >> i) & 1 == 1 && (b >> i) & 1 == 1,
        ((!a) >> i) & 1 == 1 <==> (a >> i) & 1 != 1,
        ((1u64 << j) >> i) & 1 == 1 <==> i == j,
        (1u64 >> i) & 1 == 1 <==> i == 0,
        (0u64 >> i) & 1 != 1,
        (0x8_0200u64 >> i) & 1 == 1 <==> i == 9 || i == 19,
        a & 1 == a % 2,
        a & 3 == a % 4,
        a & 0xf == a % 16,
{
}

/// How many of the `n` lowest bits of `v` are set.
pub open spec fn ones(v: u64, n: nat) -> nat
    decreases n,
{
    if n == 0 {
        0
    } else {
        ones(v, (n - 1) as nat) + if bit(v, (n - 1) as u64) {
            1nat
        } else {
            0nat
        }
    }
}

/// The bits of `b` where `mask` is set, those of `a` elsewhere.
pub fn bitwise_merge(a: u64, b: u64, mask: u64) -> (r: u64)
    ensures
        forall|i: u64|
            i < 64 ==> #[trigger] bit(r, i) == if bit(mask, i) {
                bit(b, i)
            } else {
                bit(a, i)
            },
{
    let r = (a & !mask) | (b & mask);
    assert forall|i: u64| i < 64 implies #[trigger] bit(r, i) == if bit(mask, i) {
        bit(b, i)
    } else {
        bit(a, i)
    } by {
        assert(i < 64 ==> ((((a & !mask) | (b & mask)) >> i) & 1 == 1) == if (mask >> i) & 1 == 1 {
            (b >> i) & 1 == 1
        } else {
            (a >> i) & 1 == 1
        }) by (bit_vector);
    }
    r
}

/// The `width` lowest bits of `value`, rotated left by `shift` places.
pub open spec fn rotated(value: u64, shift: u64, width: u64, r: u64) -> bool {
    &&& width < 64 ==> r >> width == 0
    &&& forall|i: u64|
        i < width ==> bit(
            r,
            if i + shift < width {
                (i + shift) as u64
            } else {
                (i + shift - width) as u64
            },
        ) == #[trigger] bit(value, i)
}

proof fn lemma_bit_moves(x: u64, y: u64, a: u64, c: u64, i: u64, j: u64, w: u64)
    by (bit_vector)
    requires
        0 < a < 64,
        0 < c < 64,
        i < 64,
        j < 64,
        w <= 64,
    ensures
        ((x | y) >> j) & 1 == ((x >> j) & 1) | ((y >> j) & 1),
        j == i + a ==> ((x << a) >> j) & 1 == (x >> i) & 1,
        j < a ==> ((x << a) >> j) & 1 == 0,
        i == j + c ==> ((x >> c) >> j) & 1 == (x >> i) & 1,
        j + c >= 64 ==> ((x >> c) >> j) & 1 == 0,
        j + c >= w && (w == 64 || x >> w == 0) ==> ((x >> c) >> j) & 1 == 0,
        0u64 | y == y,
        y | 0u64 == y,
{
}

proof fn lemma_low_mask(x: u64, w: u64, i: u64, low: u64)
    by (bit_vector)
    requires
        0 < w <= 64,
        low == if w == 64 {
            0xFFFF_FFFF_FFFF_FFFFu64
        } else {
            ((1u64 << w) - 1) as u64
        },
    ensures
        w < 64 ==> (1u64 << w) > 0,
        w < 64 ==> (x & low) >> w == 0,
        i < w ==> ((x & low) >> i) & 1 == (x >> i) & 1,
        !0u64 == 0xFFFF_FFFF_FFFF_FFFFu64,
{
}

proof fn lemma_rotate_bit(v: u64, a: u64, w: u64, i: u64, j: u64)
    requires
        0 < a < w <= 64,
        i < w,
        j == if i + a < w {
            i + a
        } else {
            i + a - w
        },
        w == 64 || v >> w == 0,
    ensures
        (((v << a) | (v >> ((w - a) as u64))) >> j) & 1 == (v >> i) & 1,
{
    let c = (w - a) as u64;
    lemma_bit_moves(v << a, v >> c, a, c, i, j, w);
    lemma_bit_moves(v, (v >> i) & 1, a, c, i, j, w);
}

/// Rotates the `width` lowest bits to the left. A width outside `1..=64`, or a
/// rotation by a multiple of it, leaves the value as it is.
pub fn rotate_bits(value: u64, amount: u32, width: u32) -> (r: u64)
    ensures
        width == 0 || width > 64 || amount % width == 0 ==> r == value,
        0 < width <= 64 && amount % width != 0 ==> rotated(
            value,
            (amount % width) as u64,
            width as u64,
            r,
        ),
{
    if width == 0 || width > 64 {
        return value;
    }
    let actual: u32 = amount % width;
    if actual == 0 {
        return value;
    }
    let ghost w = width as u64;
    let ghost a = actual as u64;
    let ghost low: u64 = if w == 64 {
        0xFFFF_FFFF_FFFF_FFFFu64
    } else {
        ((1u64 << w) - 1) as u64
    };
    proof {
        lemma_low_mask(value, w, 0, low);
    }
    let mask: u64 = if width == 64 {
        !0u64
    } else {
        (1u64 << width) - 1
    };
    let v: u64 = value & mask;
    let r: u64 = ((v << actual) | (v >> (width - actual))) & mask;
    proof {
        let x = (v << a) | (v >> ((w - a) as u64));
        lemma_low_mask(x, w, 0, low);
        assert forall|i: u64| i < w implies bit(
            r,
            if i + a < w {
                (i + a) as u64
            } else {
                (i + a - w) as u64
            },
        ) == #[trigger] bit(value, i) by {
            let j = if i + a < w {
                (i + a) as u64
            } else {
                (i + a - w) as u64
            };
            lemma_rotate_bit(v, a, w, i, j);
            lemma_low_mask(x, w, j, low);
            lemma_low_mask(value, w, i, low);
        }
    }
    r
}

/// Rotating further by what is missing to a full turn gives the bits back.
pub proof fn lemma_full_turn(value: u64, shift: u64, width: u64, once: u64, twice: u64, i: u64)
    requires
        0 < shift < width <= 64,
        rotated(value, shift, width, once),
        rotated(once, (width - shift) as u64, width, twice),
        i < width,
    ensures
        bit(twice, i) == bit(value, i),
{
    let j = if i + shift < width {
        (i + shift) as u64
    } else {
        (i + shift - width) as u64
    };
    assert(bit(once, j) == bit(value, i));
}

/// The three folds of the parallel bit count, before the sum over the bytes.
spec fn byte_counts(v: u64) -> u64 {
    let a = ((v - ((v >> 1) & 0x5555555555555555)) as u64);
    let b = (((a & 0x3333333333333333) + ((a >> 2) & 0x3333333333333333)) as u64);
    ((b + (b >> 4)) as u64) & 0x0F0F0F0F0F0F0F0F
}

proof fn lemma_byte_count(v: u64, s: u64)
    by (bit_vector)
    requires
        s == 0 || s == 8 || s == 16 || s == 24 || s == 32 || s == 40 || s == 48 || s == 56,
    ensures
        (byte_counts(v) >> s) & 0xff == ((v >> s) & 1) + ((v >> ((s + 1) as u64)) & 1) + ((v >> ((s + 2) as u64))
            & 1) + ((v >> ((s + 3) as u64)) & 1) + ((v >> ((s + 4) as u64)) & 1) + ((v >> ((s + 5) as u64)) & 1) + ((v
            >> ((s + 6) as u64)) & 1) + ((v >> ((s + 7) as u64)) & 1),
{
}

proof fn lemma_low_bit(v: u64, i: u64)
    ensures
        ones(v, (i + 1) as nat) == ones(v, i as nat) + ((v >> i) & 1),
{
    let x = v >> i;
    assert(x & 1 == 0 || x & 1 == 1) by (bit_vector);
}

proof fn lemma_ones_of_byte(v: u64, s: u64)
    requires
        s == 0 || s == 8 || s == 16 || s == 24 || s == 32 || s == 40 || s == 48 || s == 56,
    ensures
        ones(v, (s + 8) as nat) == ones(v, s as nat) + ((byte_counts(v) >> s) & 0xff),
{
    lemma_byte_count(v, s);
    lemma_low_bit(v, s);
    lemma_low_bit(v, (s + 1) as u64);
    lemma_low_bit(v, (s + 2) as u64);
    lemma_low_bit(v, (s + 3) as u64);
    lemma_low_bit(v, (s + 4) as u64);
    lemma_low_bit(v, (s + 5) as u64);
    lemma_low_bit(v, (s + 6) as u64);
    lemma_low_bit(v, (s + 7) as u64);
}

proof fn lemma_fold_ranges(x: u64)
    by (bit_vector)
    ensures
        (x >> 1) & 0x5555555555555555 <= x,
        (x & 0x3333333333333333) + ((x >> 2) & 0x3333333333333333) <= 0x6666666666666666,
        x <= 0x6666666666666666 ==> x + (x >> 4) <= u64::MAX,
{
}

/// The number of set bits.
pub fn popcount64(v: u64) -> (r: u32)
    ensures
        r == ones(v, 64),
{
    proof {
        lemma_fold_ranges(v);
    }
    let a: u64 = v - ((v >> 1) & 0x5555555555555555);
    proof {
        lemma_fold_ranges(a);
    }
    let b: u64 = (a & 0x3333333333333333) + ((a >> 2) & 0x3333333333333333);
    proof {
        lemma_fold_ranges(b);
    }
    let c: u64 = (b + (b >> 4)) & 0x0F0F0F0F0F0F0F0F;
    let r: u32 = (c.wrapping_mul(0x0101010101010101) >> 56) as u32;
    proof {
        assert(c == byte_counts(v));
        lemma_ones_of_byte(v, 0);
        lemma_ones_of_byte(v, 8);
        lemma_ones_of_byte(v, 16);
        lemma_ones_of_byte(v, 24);
        lemma_ones_of_byte(v, 32);
        lemma_ones_of_byte(v, 40);
        lemma_ones_of_byte(v, 48);
        lemma_ones_of_byte(v, 56);
        lemma_product_word(c);
        lemma_byte_sum(v, c);
    }
    r
}

proof fn lemma_product_word(c: u64)
    ensures
        c.wrapping_mul(0x0101010101010101) == (c * 0x0101010101010101) as u64,
{
    assert((c * 0x0101010101010101) as u64 == (c * 0x0101010101010101)
        % 0x1_0000_0000_0000_0000) by (bit_vector);
}

proof fn lemma_byte_sum(v: u64, c: u64)
    by (bit_vector)
    requires
        c == byte_counts(v),
    ensures
        ((c * 0x0101010101010101) as u64) >> 56 == (c & 0xff) + ((c >> 8) & 0xff) + ((c >> 16) & 0xff)
            + ((c >> 24) & 0xff) + ((c >> 32) & 0xff) + ((c >> 40) & 0xff) + ((c >> 48) & 0xff) + ((
        c >> 56) & 0xff),
        ((c * 0x0101010101010101) as u64) >> 56 <= 64,
        c >> 0 == c,
{
}

proof fn lemma_shift_out(v: u64, x: u64, n: u64, k: u64)
    by (bit_vector)
    requires
        n < 64,
        0 < k < 64,
        n + k < 64,
        x == v << n,
        x >> n == v,
        x >> ((64 - k) as u64) == 0,
    ensures
        x << k == v << ((n + k) as u64),
        (x << k) >> ((n + k) as u64) == v,
{
}

proof fn lemma_top_masks(x: u64)
    by (bit_vector)
    ensures
        x << 0 == x,
        x >> 0 == x,
        x & 0xFFFFFFFF00000000 == 0 <==> x >> 32 == 0,
        x & 0xFFFF000000000000 == 0 <==> x >> 48 == 0,
        x & 0xFF00000000000000 == 0 <==> x >> 56 == 0,
        x & 0xF000000000000000 == 0 <==> x >> 60 == 0,
        x & 0xC000000000000000 == 0 <==> x >> 62 == 0,
        x & 0x8000000000000000 == 0 <==> x >> 63 == 0,
        x != 0 && x >> 32 == 0 ==> (x << 32) >> 32 != 0,
        x >> 32 != 0 && x >> 48 == 0 ==> (x << 16) >> 48 != 0,
        x >> 48 != 0 && x >> 56 == 0 ==> (x << 8) >> 56 != 0,
        x >> 56 != 0 && x >> 60 == 0 ==> (x << 4) >> 60 != 0,
        x >> 60 != 0 && x >> 62 == 0 ==> (x << 2) >> 62 != 0,
        x >> 62 != 0 && x >> 63 == 0 ==> (x << 1) >> 63 != 0,
{
}

proof fn lemma_top_bit(v: u64, n: u64)
    requires
        n < 64,
        (v << n) >> n == v,
        (v << n) >> 63 != 0,
    ensures
        pow2((63 - n) as nat) <= v < pow2((64 - n) as nat),
{
    let s = (63 - n) as u64;
    assert(n < 64 && (v << n) >> n == v && (v << n) >> 63 != 0 ==> v >> ((63 - n) as u64) == 1)
        by (bit_vector);
    vstd::bits::lemma_u64_shr_is_div(v, s);
    lemma_pow2_pos(s as nat);
    lemma_pow2_unfold((64 - n) as nat);
    vstd::arithmetic::div_mod::lemma_fundamental_div_mod(v as int, pow2(s as nat) as int);
    vstd::arithmetic::div_mod::lemma_mod_bound(v as int, pow2(s as nat) as int);
}

/// The number of zero bits above the highest set one; 64 for zero.
pub fn clz64(v: u64) -> (r: u32)
    ensures
        v == 0 ==> r == 64,
        v != 0 ==> r < 64 && pow2((63 - r) as nat) <= v < pow2((64 - r) as nat),
{
    if v == 0 {
        return 64;
    }
    let mut n: u32 = 0;
    let mut x: u64 = v;
    proof {
        lemma_top_masks(x);
    }
    if x & 0xFFFFFFFF00000000 == 0 {
        proof {
            lemma_shift_out(v, x, n as u64, 32);
        }
        n = n + 32;
        x = x << 32;
    }
    proof {
        lemma_top_masks(x);
    }
    if x & 0xFFFF000000000000 == 0 {
        proof {
            lemma_shift_out(v, x, n as u64, 16);
        }
        n = n + 16;
        x = x << 16;
    }
    proof {
        lemma_top_masks(x);
    }
    if x & 0xFF00000000000000 == 0 {
        proof {
            lemma_shift_out(v, x, n as u64, 8);
        }
        n = n + 8;
        x = x << 8;
    }
    proof {
        lemma_top_masks(x);
    }
    if x & 0xF000000000000000 == 0 {
        proof {
            lemma_shift_out(v, x, n as u64, 4);
        }
        n = n + 4;
        x = x << 4;
    }
    proof {
        lemma_top_masks(x);
    }
    if x & 0xC000000000000000 == 0 {
        proof {
            lemma_shift_out(v, x, n as u64, 2);
        }
        n = n + 2;
        x = x << 2;
    }
    proof {
        lemma_top_masks(x);
    }
    if x & 0x8000000000000000 == 0 {
        proof {
            lemma_shift_out(v, x, n as u64, 1);
        }
        n = n + 1;
    }
    proof {
        lemma_top_bit(v, n as u64);
    }
    n
}

proof fn lemma_lowest_bit(v: u64, i: u64)
    by (bit_vector)
    requires
        v != 0,
        i < 64,
        (v & (((!v) + 1) as u64)) >> i == 1,
    ensures
        (v >> i) & 1 == 1,
        v & (((1u64 << i) - 1) as u64) == 0,
{
}

proof fn lemma_isolated_bit(v: u64)
    by (bit_vector)
    ensures
        v != 0 ==> !v < u64::MAX,
        v != 0 ==> v & (((!v) + 1) as u64) != 0,
{
}

/// The place of the lowest set bit.
pub fn ffs64(v: u64) -> (r: Option<u32>)
    ensures
        match r {
            None => v == 0,
            Some(i) => i < 64 && bit(v, i as u64) && v % (pow2(i as nat) as u64) == 0,
        },
{
    if v == 0 {
        return None;
    }
    let low: u64 = v & (!v).wrapping_add(1);
    proof {
        lemma_isolated_bit(v);
        assert((!v).wrapping_add(1) == (((!v) + 1) as u64));
    }
    let n = clz64(low);
    let i: u32 = 63 - n;
    proof {
        vstd::bits::lemma_u64_shr_is_div(low, i as u64);
        lemma_pow2_pos(i as nat);
        lemma_pow2_unfold((i + 1) as nat);
        let p = pow2(i as nat) as int;
        assert(low as int / p == 1) by (nonlinear_arith)
            requires
                0 < p <= low < 2 * p,
        ;
        lemma_lowest_bit(v, i as u64);
        vstd::bits::lemma_u64_pow2_no_overflow(i as nat);
        vstd::bits::lemma_u64_shl_is_mul(1, i as u64);
        vstd::bits::lemma_u64_low_bits_mask_is_mod(v, i as nat);
    }
    Some(i)
}

/// The least multiple of `align` at or above `addr`. An alignment that is no power
/// of two leaves the address as it is.
pub fn align_up(addr: u64, align: u64) -> (r: u64)
    requires
        bits::is_pow2(align as int) ==> addr + align - 1 <= u64::MAX,
    ensures
        r == if bits::is_pow2(align as int) {
            bits::round_up(addr as int, align as int)
        } else {
            addr as int
        },
{
    proof {
        bits::lemma_pow2_test(align);
    }
    if align == 0 || (align & (align - 1)) != 0 {
        return addr;
    }
    proof {
        bits::lemma_mask_up(addr, align);
    }
    (addr + (align - 1)) & !(align - 1)
}

/// The greatest multiple of `align` at or below `addr`. An alignment that is no
/// power of two leaves the address as it is.
pub fn align_down(addr: u64, align: u64) -> (r: u64)
    ensures
        r == if bits::is_pow2(align as int) {
            bits::round_down(addr as int, align as int)
        } else {
            addr as int
        },
{
    proof {
        bits::lemma_pow2_test(align);
    }
    if align == 0 || (align & (align - 1)) != 0 {
        return addr;
    }
    proof {
        bits::lemma_mask(addr, align);
    }
    addr & !(align - 1)
}

/// Aligning up gives the least multiple at or above, and aligning an aligned
/// address changes nothing.
pub proof fn lemma_align_up_is_least(addr: int, align: int, y: int)
    requires
        align > 0,
        addr <= y,
        y % align == 0,
    ensures
        addr <= bits::round_up(addr, align) <= y,
        bits::round_up(addr, align) % align == 0,
        bits::round_up(y, align) == y,
{
    bits::lemma_round_up(addr, align);
    bits::lemma_round_up(y, align);
    assert(y % align == 0);
}

pub fn is_power_of_two(v: u64) -> (r: bool)
    ensures
        r == bits::is_pow2(v as int),
{
    proof {
        bits::lemma_pow2_test(v);
    }
    v != 0 && (v & (v - 1)) == 0
}

/// The exponent of the greatest power of two that is not above `v`; 0 for zero.
pub fn log2_floor(v: u64) -> (r: u64)
    ensures
        v == 0 ==> r == 0,
        v != 0 ==> r < 64 && pow2(r as nat) <= v < pow2((r + 1) as nat),
{
    if v == 0 {
        return 0;
    }
    let n = v.leading_zeros();
    proof {
        broadcast use vstd::std_specs::bits::axiom_u64_leading_zeros;

        let s = (63 - n) as u64;
        let z = n as u64;
        assert(z < 64 && v >> ((64 - z) as u64) == 0 && (v >> ((63 - z) as u64)) & 1 != 0 ==> v >> ((63 - z) as u64)
            == 1) by (bit_vector);
        vstd::bits::lemma_u64_shr_is_div(v, s);
        lemma_pow2_pos(s as nat);
        lemma_pow2_unfold((s + 1) as nat);
        vstd::arithmetic::div_mod::lemma_fundamental_div_mod(v as int, pow2(s as nat) as int);
        vstd::arithmetic::div_mod::lemma_mod_bound(v as int, pow2(s as nat) as int);
    }
    63 - n as u64
}

/// The combination of a hash with one more value.
pub open spec fn combined(seed: u64, value: u64) -> u64 {
    seed ^ value.wrapping_mul(0x9e3779b97f4a7c15).wrapping_add(seed << 6).wrapping_add(seed >> 2)
}

pub fn hash_combine(seed: u64, value: u64) -> (r: u64)
    ensures
        r == combined(seed, value),
{
    seed ^ (value.wrapping_mul(0x9e3779b97f4a7c15).wrapping_add(seed << 6).wrapping_add(seed >> 2))
}

/// A word with its upper half folded into the lower.
pub open spec fn folded_33(h: u64) -> u64 {
    h ^ (h >> 33)
}

/// The finaliser of the Murmur3 hash: two rounds of fold and multiply, and a fold.
pub open spec fn finalized(h: u64) -> u64 {
    folded_33(
        folded_33(folded_33(h).wrapping_mul(0xff51afd7ed558ccd)).wrapping_mul(0xc4ceb9fe1a85ec53),
    )
}

pub fn murmurhash3_finalize(h: u64) -> (r: u64)
    ensures
        r == finalized(h),
{
    let a: u64 = (h ^ (h >> 33)).wrapping_mul(0xff51afd7ed558ccd);
    let b: u64 = (a ^ (a >> 33)).wrapping_mul(0xc4ceb9fe1a85ec53);
    b ^ (b >> 33)
}

/// The bits that are set and those that are not are all the bits.
pub proof fn lemma_ones_and_zeros(v: u64, n: nat)
    requires
        n <= 64,
    ensures
        ones(v, n) + ones(!v, n) == n,
        ones(0, n) == 0,
    decreases n,
{
    if n > 0 {
        lemma_ones_and_zeros(v, (n - 1) as nat);
        lemma_bitwise(v, 0, (n - 1) as u64, 0);
    }
}

/// One bit more that is set counts one more.
pub proof fn lemma_ones_of_one_bit(v: u64, i: u64, n: nat)
    requires
        i < 64,
        n <= 64,
        !bit(v, i),
    ensures
        ones(v | (1u64 << i), n) == ones(v, n) + if i < n {
            1nat
        } else {
            0nat
        },
    decreases n,
{
    if n > 0 {
        lemma_ones_of_one_bit(v, i, (n - 1) as nat);
        lemma_bitwise(v, 1u64 << i, (n - 1) as u64, i);
    }
}

} // verus!
