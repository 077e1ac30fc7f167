//! Masks and powers of two.
use vstd::arithmetic::power2::*;
use vstd::bits::*;
use vstd::prelude::*;

verus! {

/// `v` is a power of two.
pub open spec fn is_pow2(v: int) -> bool {
    exists|n: nat| v == #[trigger] pow2(n)
}

/// The least multiple of `align` that is not below `x`.
pub open spec fn round_up(x: int, align: int) -> int {
    (x + align - 1) / align * align
}

/// The greatest multiple of `align` that is not above `x`.
pub open spec fn round_down(x: int, align: int) -> int {
    x / align * align
}

/// What an unsigned 64-bit word keeps of a number.
pub open spec fn low_word(x: int) -> u64 {
    (x % 0x1_0000_0000_0000_0000) as u64
}

/// A word without low set bits under its top bit is a power of two.
pub proof fn lemma_pow2_of_word(v: u64) -> (n: nat)
    requires
        v != 0,
        v & ((v - 1) as u64) == 0,
    ensures
        n < 64,
        v == pow2(n),
    decreases v,
{
    if v == 1 {
        lemma_pow2_is_one();
        0
    } else {
        assert(v > 1 && v & ((v - 1) as u64) == 0 ==> v % 2 == 0 && (v / 2) & ((v / 2 - 1) as u64)
            == 0) by (bit_vector);
        let m = lemma_pow2_of_word(v / 2);
        lemma_pow2_unfold(m + 1);
        if m + 1 >= 64 {
            lemma_pow2_at_64();
            if m + 1 > 64 {
                lemma_pow2_strictly_increases(64, m + 1);
            }
        }
        m + 1
    }
}

proof fn lemma_pow2_is_one()
    ensures
        pow2(0) == 1,
{
    vstd::arithmetic::power2::lemma2_to64();
}

proof fn lemma_pow2_at_64()
    ensures
        pow2(64) == 0x1_0000_0000_0000_0000,
{
    vstd::arithmetic::power2::lemma2_to64();
}

/// Exponents of powers of two that fit in a word are below 64.
pub proof fn lemma_word_exponent(n: nat)
    requires
        pow2(n) <= u64::MAX,
    ensures
        n < 64,
{
    lemma_pow2_at_64();
    if n > 64 {
        lemma_pow2_strictly_increases(64, n);
    }
}

/// The usual test for a power of two is right.
pub proof fn lemma_pow2_test(v: u64)
    ensures
        (v != 0 && v & ((v - 1) as u64) == 0) <==> is_pow2(v as int),
{
    if v != 0 && v & ((v - 1) as u64) == 0 {
        let n = lemma_pow2_of_word(v);
    }
    if is_pow2(v as int) {
        let n = choose|n: nat| v as int == #[trigger] pow2(n);
        lemma_pow2_pos(n);
        lemma_word_exponent(n);
        lemma_u64_low_bits_mask_is_mod(v, n);
        assert(v % v == 0) by (nonlinear_arith)
            requires
                v > 0,
        ;
    }
}

/// Masking with a power of two less one is taking the remainder; masking with its
/// complement is rounding down.
pub proof fn lemma_mask(x: u64, align: u64)
    requires
        is_pow2(align as int),
    ensures
        align > 0,
        x & ((align - 1) as u64) == x % align,
        x & !((align - 1) as u64) == x - x % align,
        x & !((align - 1) as u64) == round_down(x as int, align as int),
{
    let n = choose|n: nat| align as int == #[trigger] pow2(n);
    lemma_pow2_pos(n);
    lemma_word_exponent(n);
    lemma_u64_pow2_no_overflow(n);
    lemma_u64_low_bits_mask_is_mod(x, n);
    let m = (align - 1) as u64;
    assert(x & !m == x - (x & m)) by (bit_vector);
    vstd::arithmetic::div_mod::lemma_fundamental_div_mod(x as int, align as int);
    vstd::arithmetic::mul::lemma_mul_is_commutative(align as int, x as int / align as int);
}

/// Adding the mask first rounds up.
pub proof fn lemma_mask_up(x: u64, align: u64)
    requires
        is_pow2(align as int),
        x + align - 1 <= u64::MAX,
    ensures
        align > 0,
        ((x + (align - 1)) as u64) & !((align - 1) as u64) == round_up(x as int, align as int),
        x <= round_up(x as int, align as int) <= x + align - 1,
        round_up(x as int, align as int) % (align as int) == 0,
{
    let y = (x + (align - 1)) as u64;
    lemma_mask(y, align);
    lemma_round_up(x as int, align as int);
}

/// Rounding up gives the least multiple at or above.
pub proof fn lemma_round_up(x: int, align: int)
    requires
        align > 0,
    ensures
        x <= round_up(x, align) <= x + align - 1,
        round_up(x, align) % align == 0,
        forall|y: int| x <= y && #[trigger] (y % align) == 0 ==> round_up(x, align) <= y,
{
    let q = (x + align - 1) / align;
    vstd::arithmetic::div_mod::lemma_fundamental_div_mod(x + align - 1, align);
    vstd::arithmetic::mul::lemma_mul_is_commutative(align, q);
    vstd::arithmetic::div_mod::lemma_mod_multiples_basic(q, align);
    assert forall|y: int| x <= y && #[trigger] (y % align) == 0 implies round_up(x, align) <= y by {
        vstd::arithmetic::div_mod::lemma_fundamental_div_mod(y, align);
        let p = y / align;
        if p < q {
            assert(align * p <= align * (q - 1)) by (nonlinear_arith)
                requires
                    p <= q - 1,
                    align > 0,
            ;
            assert(align * (q - 1) == align * q - align) by (nonlinear_arith);
        } else {
            assert(align * q <= align * p) by (nonlinear_arith)
                requires
                    q <= p,
                    align > 0,
            ;
        }
    }
}

/// The page size is a power of two.
pub proof fn lemma_page_is_pow2()
    ensures
        is_pow2(4096),
{
    vstd::arithmetic::power2::lemma2_to64();
    assert(4096 == pow2(12));
}

/// The low and the high part of a byte address within its page.
pub proof fn lemma_page_mask(x: u64)
    ensures
        x & 4095u64 == x % 4096,
        x & !4095u64 == x - x % 4096,
        x & !4095u64 == round_down(x as int, 4096),
{
    lemma_page_is_pow2();
    lemma_mask(x, 4096);
}

/// A word read as a signed 64-bit number.
pub open spec fn signed_word(w: u64) -> int {
    if w < 0x8000_0000_0000_0000 {
        w as int
    } else {
        w - 0x1_0000_0000_0000_0000
    }
}

/// The low half of a word read as a signed 32-bit number.
pub open spec fn signed_half(w: u64) -> int {
    let low = w as int % 0x1_0000_0000;
    if low < 0x8000_0000 {
        low
    } else {
        low - 0x1_0000_0000
    }
}

/// A signed 32-bit number as a word.
pub open spec fn extended(x: i32) -> u64 {
    low_word(x as int)
}

pub fn to_signed(w: u64) -> (r: i64)
    ensures
        r == signed_word(w),
{
    if w < 0x8000_0000_0000_0000 {
        w as i64
    } else {
        let below: u64 = u64::MAX - w;
        -(below as i64) - 1
    }
}

pub fn to_signed_half(w: u64) -> (r: i32)
    ensures
        r == signed_half(w),
{
    let low: u64 = w % 0x1_0000_0000;
    if low < 0x8000_0000 {
        low as i32
    } else {
        let below: u64 = 0xFFFF_FFFF - low;
        -(below as i32) - 1
    }
}

pub fn extend(x: i32) -> (r: u64)
    ensures
        r == extended(x),
{
    if x >= 0 {
        x as u64
    } else {
        let below: u64 = (-(x as i64)) as u64;
        u64::MAX - (below - 1)
    }
}

/// Widening a number and taking the low half gives the number back.
pub proof fn lemma_extended_reads_back(x: i32)
    ensures
        signed_half(extended(x)) == x,
{
}

} // verus!
