//! The CRC-32 checksum and variable-length integers.
use vstd::arithmetic::power2::*;
use vstd::prelude::*;

verus! {

/// One bit of the reflected CRC-32 division.
pub open spec fn crc_bit(crc: u32) -> u32 {
    if crc & 1 != 0 {
        (crc >> 1) ^ 0xEDB8_8320
    } else {
        crc >> 1
    }
}

pub open spec fn crc_bits(crc: u32, n: nat) -> u32
    decreases n,
{
    if n == 0 {
        crc
    } else {
        crc_bit(crc_bits(crc, (n - 1) as nat))
    }
}

/// The CRC register after the bytes of `data`.
pub open spec fn crc_bytes(crc: u32, data: Seq<u8>) -> u32
    decreases data.len(),
{
    if data.len() == 0 {
        crc
    } else {
        crc_bits(crc_bytes(crc, data.drop_last()) ^ (data.last() as u32), 8)
    }
}

/// The CRC-32 of the bytes: the register starts with all bits set and is inverted
/// at the end.
pub fn compute_crc32(data: &[u8]) -> (r: u32)
    ensures
        r == !crc_bytes(0xFFFF_FFFF, data@),
{
    let mut crc: u32 = 0xFFFF_FFFF;
    let mut i: usize = 0;
    while i < data.len()
        invariant
            i <= data@.len(),
            crc == crc_bytes(0xFFFF_FFFF, data@.take(i as int)),
        decreases data@.len() - i,
    {
        assert(data@.take(i + 1).drop_last() =~= data@.take(i as int));
        crc = crc ^ (data[i] as u32);
        let ghost start = crc;
        let mut k: u32 = 0;
        while k < 8
            invariant
                k <= 8,
                crc == crc_bits(start, k as nat),
            decreases 8 - k,
        {
            if crc & 1 != 0 {
                crc = (crc >> 1) ^ 0xEDB8_8320;
            } else {
                crc = crc >> 1;
            }
            k = k + 1;
        }
        i = i + 1;
    }
    assert(data@.take(i as int) =~= data@);
    !crc
}

/// The CRC register runs over two pieces one after the other.
pub proof fn lemma_crc_of_concatenation(crc: u32, a: Seq<u8>, b: Seq<u8>)
    ensures
        crc_bytes(crc, a + b) == crc_bytes(crc_bytes(crc, a), b),
    decreases b.len(),
{
    if b.len() == 0 {
        assert(a + b =~= a);
    } else {
        lemma_crc_of_concatenation(crc, a, b.drop_last());
        assert((a + b).drop_last() =~= a + b.drop_last());
    }
}

/// The encoding of `value`: seven bits a byte, the lowest first, with the top bit
/// set on every byte but the last.
pub open spec fn varint(value: nat) -> Seq<u8>
    decreases value,
{
    if value < 128 {
        seq![value as u8]
    } else {
        seq![(value % 128 + 128) as u8] + varint(value / 128)
    }
}

/// The number that groups of seven bits stand for, the lowest group first.
pub open spec fn varint_value(s: Seq<u8>) -> nat
    decreases s.len(),
{
    if s.len() == 0 {
        0
    } else {
        varint_value(s.drop_last()) + (s.last() as nat % 128) * pow2((7 * (s.len() - 1)) as nat)
    }
}

/// The encoding at the start of `s` ends with byte `n`, and its value fits in a
/// word.
pub open spec fn varint_ends(s: Seq<u8>, n: int) -> bool {
    &&& 0 <= n < s.len()
    &&& n <= 9
    &&& forall|j: int| 0 <= j < n ==> #[trigger] s[j] >= 128
    &&& s[n] < 128
    &&& n == 9 ==> s[9] <= 1
}

proof fn lemma_varint_byte(value: u64)
    by (bit_vector)
    ensures
        (value & 0x7F) as u8 == value % 128,
        value >> 7 == value / 128,
        ((value & 0x7F) as u8) | 0x80 == value % 128 + 128,
{
}

/// Appends the encoding of `value` and returns its length.
pub fn encode_varint(value: u64, out: &mut Vec<u8>) -> (r: usize)
    ensures
        final(out)@ == old(out)@ + varint(value as nat),
        r == varint(value as nat).len(),
{
    let ghost start = out@;
    let mut rest: u64 = value;
    let mut count: usize = 0;
    let ghost mut done: Seq<u8> = Seq::empty();
    assert(done + varint(value as nat) =~= varint(value as nat));
    proof {
        lemma2_to64();
        lemma_pow2_strictly_increases(64, 70);
        lemma_varint_len(value as nat, 10);
    }
    loop
        invariant_except_break
            done + varint(rest as nat) == varint(value as nat),
            out@ == start + done,
            count == done.len(),
        invariant
            varint(value as nat).len() <= 10,
        ensures
            out@ == start + varint(value as nat),
            count == varint(value as nat).len(),
        decreases rest,
    {
        let ghost before = rest;
        proof {
            lemma_varint_byte(rest);
            assert(varint(rest as nat).len() >= 1);
        }
        let mut byte: u8 = (rest & 0x7F) as u8;
        rest = rest >> 7;
        if rest != 0 {
            byte = byte | 0x80;
        }
        out.push(byte);
        count = count + 1;
        proof {
            let tail = if rest == 0 {
                Seq::<u8>::empty()
            } else {
                varint(rest as nat)
            };
            assert(varint(before as nat) =~= seq![byte] + tail);
            assert(done + (seq![byte] + tail) =~= done.push(byte) + tail);
            done = done.push(byte);
            assert(out@ =~= start + done);
            if rest == 0 {
                assert(done + tail =~= done);
            }
        }
        if rest == 0 {
            break;
        }
    }
    count
}

/// An encoding has at most as many bytes as its value has groups of seven bits.
proof fn lemma_varint_len(value: nat, n: nat)
    requires
        n >= 1,
        value < pow2(7 * n),
    ensures
        1 <= varint(value).len() <= n,
    decreases n,
{
    lemma2_to64();
    if n == 1 {
        assert(7 * n == 7);
    } else if value >= 128 {
        lemma_pow2_adds((7 * (n - 1)) as nat, 7);
        let p = pow2((7 * (n - 1)) as nat);
        assert(value / 128 < p) by (nonlinear_arith)
            requires
                value < p * 128,
        ;
        lemma_varint_len(value / 128, (n - 1) as nat);
    }
}

proof fn lemma_or_is_plus(a: u64, b: u64, shift: u64)
    by (bit_vector)
    requires
        shift < 64,
        b < 128,
        shift > 57 ==> b <= 1 && shift == 63,
        a >> shift == 0,
    ensures
        a | (b << shift) == a + (b << shift),
        shift < 57 ==> (a | (b << shift)) >> ((shift + 7) as u64) == 0,
        (b << shift) >> shift == b,
{
}

proof fn lemma_small_byte(byte: u8)
    by (bit_vector)
    ensures
        (byte & 0x7F) == byte % 128,
        byte & 0x80 == 0 <==> byte < 128,
{
}

/// Reads the encoding at the start of `data`: its value and its length. Nothing is
/// read if the encoding does not end, or if its value does not fit in a word.
pub fn decode_varint(data: &[u8]) -> (r: Option<(u64, usize)>)
    ensures
        r is Some <==> exists|n: int| varint_ends(data@, n),
        forall|n: int| #[trigger]
            varint_ends(data@, n) ==> r == Some(
                (varint_value(data@.take(n + 1)) as u64, (n + 1) as usize),
            ) && varint_value(data@.take(n + 1)) <= u64::MAX,
{
    let mut result: u64 = 0;
    let mut shift: u32 = 0;
    let mut i: usize = 0;
    proof {
        lemma2_to64();
        assert(0u64 >> 0 == 0) by (bit_vector);
    }
    while i < data.len()
        invariant
            i <= data@.len(),
            i <= 9,
            shift == 7 * i,
            forall|j: int| 0 <= j < i ==> #[trigger] data@[j] >= 128,
            result == varint_value(data@.take(i as int)),
            result >> (shift as u64) == 0,
        decreases data@.len() - i,
    {
        let byte: u8 = data[i];
        proof {
            assert(forall|n: int| #[trigger] varint_ends(data@, n) ==> n >= i);
        }
        if shift >= 63 && byte > 1 {
            assert(forall|n: int| #[trigger] varint_ends(data@, n) ==> n == 9);
            return None;
        }
        let ghost before = result;
        let ghost b = (byte % 128) as u64;
        proof {
            lemma_small_byte(byte);
            let sh = shift as u64;
            lemma_or_is_plus(before, b, sh);
            assert(data@.take(i + 1).drop_last() =~= data@.take(i as int));
            assert(varint_value(data@.take(i + 1)) == before + b * pow2(sh as nat));
            lemma_group_fits(b, sh);
        }
        result = result | (((byte & 0x7F) as u64) << shift);
        if byte & 0x80 == 0 {
            assert(varint_ends(data@, i as int));
            assert(forall|n: int| #[trigger] varint_ends(data@, n) ==> n == i);
            return Some((result, i + 1));
        }
        if i >= 9 {
            return None;
        }
        shift = shift + 7;
        i = i + 1;
    }
    None
}

proof fn lemma_group_fits(b: u64, sh: u64)
    requires
        sh < 64,
        b < 128,
        sh > 57 ==> b <= 1 && sh == 63,
    ensures
        b << sh == b * pow2(sh as nat),
{
    vstd::bits::lemma_u64_pow2_no_overflow(sh as nat);
    if sh <= 57 {
        lemma2_to64();
        lemma_pow2_adds(sh as nat, 7);
        vstd::bits::lemma_u64_pow2_no_overflow((sh + 6) as nat);
        lemma_pow2_adds(sh as nat, 6);
        if sh < 57 {
            vstd::bits::lemma_u64_pow2_no_overflow((sh + 7) as nat);
        }
        let p = pow2(sh as nat);
        assert(p * 128 == pow2((sh + 7) as nat));
        lemma2_to64();
        if sh == 57 {
            assert(pow2(64) == 0x1_0000_0000_0000_0000);
        }
        assert(b * p <= 127 * p) by (nonlinear_arith)
            requires
                b <= 127,
        ;
    } else {
        assert(b * pow2(63) <= pow2(63)) by (nonlinear_arith)
            requires
                b <= 1,
        ;
    }
    vstd::bits::lemma_u64_shl_is_mul(b, sh);
}

/// A first group in front multiplies what follows by 128.
proof fn lemma_value_of_cons(b: u8, t: Seq<u8>)
    ensures
        varint_value(seq![b] + t) == b as nat % 128 + 128 * varint_value(t),
    decreases t.len(),
{
    let s = seq![b] + t;
    lemma2_to64();
    if t.len() == 0 {
        assert(s.drop_last() =~= Seq::<u8>::empty());
        assert(s.last() == b);
        assert(varint_value(s.drop_last()) == 0);
        assert(varint_value(t) == 0);
        assert((b as nat % 128) * pow2(0) == b as nat % 128) by (nonlinear_arith)
            requires
                pow2(0) == 1,
        ;
    } else {
        lemma_value_of_cons(b, t.drop_last());
        assert(s.drop_last() =~= seq![b] + t.drop_last());
        let k = (7 * (t.len() - 1)) as nat;
        lemma_pow2_adds(7, k);
        let x = t.last() as nat % 128;
        assert(x * (128 * pow2(k)) == 128 * (x * pow2(k))) by (nonlinear_arith);
        assert((7 * (s.len() - 1)) as nat == 7 + k);
    }
}

/// The encoding of a number has its value, and ends at its own last byte whatever
/// follows.
pub proof fn lemma_varint_round_trip(value: nat, rest: Seq<u8>)
    requires
        value <= u64::MAX,
    ensures
        varint_value(varint(value)) == value,
        varint_ends(varint(value) + rest, varint(value).len() - 1),
        (varint(value) + rest).take(varint(value).len() as int) == varint(value),
{
    lemma_value_of_varint(value);
    lemma2_to64();
    lemma_pow2_strictly_increases(64, 70);
    lemma_varint_len(value, 10);
    lemma_shape_of_varint(value);
    let v = varint(value);
    if v.len() == 10 {
        lemma_last_group(value, 10);
        lemma_pow2_adds(63, 1);
        let p = pow2(63);
        assert(value / p < 2) by (nonlinear_arith)
            requires
                value < p * 2,
        ;
    }
    assert((v + rest).take(v.len() as int) =~= v);
}

proof fn lemma_value_of_varint(value: nat)
    ensures
        varint_value(varint(value)) == value,
    decreases value,
{
    let none = Seq::<u8>::empty();
    if value < 128 {
        lemma_value_of_cons(value as u8, none);
        assert(seq![value as u8] + none =~= seq![value as u8]);
        assert(varint_value(none) == 0);
    } else {
        lemma_value_of_varint(value / 128);
        lemma_value_of_cons((value % 128 + 128) as u8, varint(value / 128));
    }
}

proof fn lemma_shape_of_varint(value: nat)
    ensures
        varint(value).len() >= 1,
        varint(value).last() < 128,
        forall|j: int| 0 <= j < varint(value).len() - 1 ==> #[trigger] varint(value)[j] >= 128,
    decreases value,
{
    if value >= 128 {
        lemma_shape_of_varint(value / 128);
        let t = varint(value / 128);
        let s = varint(value);
        assert forall|j: int| 0 <= j < s.len() - 1 implies #[trigger] s[j] >= 128 by {
            if j > 0 {
                assert(s[j] == t[j - 1]);
            }
        }
    }
}

/// The last byte of an encoding of `n` bytes is the group above the others.
proof fn lemma_last_group(value: nat, n: nat)
    requires
        n >= 1,
        varint(value).len() == n,
    ensures
        varint(value).last() == value / pow2((7 * (n - 1)) as nat),
    decreases n,
{
    lemma2_to64();
    if value < 128 {
        assert(value / pow2(0) == value) by (nonlinear_arith)
            requires
                pow2(0) == 1,
        ;
    } else {
        lemma_shape_of_varint(value / 128);
        lemma_last_group(value / 128, (n - 1) as nat);
        lemma_pow2_adds(7, (7 * (n - 2)) as nat);
        lemma_pow2_pos((7 * (n - 2)) as nat);
        vstd::arithmetic::div_mod::lemma_div_denominator(
            value as int,
            128,
            pow2((7 * (n - 2)) as nat) as int,
        );
    }
}

} // verus!
