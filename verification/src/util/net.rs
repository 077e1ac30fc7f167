//! IPv4 headers and the Internet checksum.
use vstd::prelude::*;

verus! {

/// Two bytes as a number, the higher first.
pub open spec fn be16(hi: u8, lo: u8) -> int {
    hi * 256 + lo
}

/// Four bytes as a number, the highest first.
pub open spec fn be32(a: u8, b: u8, c: u8, d: u8) -> int {
    a * 0x100_0000 + b * 0x1_0000 + c * 0x100 + d
}

/// The bytes of a 32-bit number, the highest first.
pub open spec fn be32_bytes(x: u32) -> Seq<u8> {
    seq![
        (x as int / 0x100_0000) as u8,
        (x as int / 0x1_0000 % 256) as u8,
        (x as int / 0x100 % 256) as u8,
        (x as int % 256) as u8,
    ]
}

/// The sum of the 16-bit numbers that the bytes hold, the last one filled with a
/// zero byte where needed.
pub open spec fn word_sum(data: Seq<u8>) -> nat
    decreases data.len(),
{
    if data.len() == 0 {
        0
    } else if data.len() % 2 == 1 {
        word_sum(data.drop_last()) + data.last() as nat * 256
    } else {
        word_sum(data.take(data.len() - 2)) + be16(
            data[data.len() - 2],
            data[data.len() - 1],
        ) as nat
    }
}

/// A sum brought into 16 bits by adding its carries back in: its remainder by
/// 65535, but 65535 in place of 0 unless the sum is 0.
pub open spec fn ones_complement(sum: nat) -> nat {
    if sum == 0 {
        0
    } else {
        ((sum - 1) % 65535 + 1) as nat
    }
}

/// The Internet checksum of the bytes.
pub open spec fn inet_checksum(data: Seq<u8>) -> u16 {
    (65535 - ones_complement(word_sum(data))) as u16
}

/// The pseudo-header that TCP and UDP put before the segment.
pub open spec fn pseudo_header(src: u32, dst: u32, proto: u8, length: u16) -> Seq<u8> {
    be32_bytes(src) + be32_bytes(dst) + seq![
        0,
        proto,
        (length as int / 256) as u8,
        (length as int % 256) as u8,
    ]
}

proof fn lemma_sum_prefix(data: Seq<u8>, i: int)
    requires
        0 <= i <= data.len(),
        i % 2 == 0,
    ensures
        word_sum(data.take(i)) <= word_sum(data),
    decreases data.len() - i,
{
    if i == data.len() {
        assert(data.take(i) =~= data);
    } else if i + 1 == data.len() {
        assert(data.take(i) =~= data.drop_last());
    } else {
        let t = data.take(i + 2);
        assert(t.take(i) =~= data.take(i));
        lemma_sum_prefix(data, i + 2);
    }
}

proof fn lemma_words(hi: u32, lo: u32, sum: u32)
    by (bit_vector)
    requires
        hi < 256,
        lo < 256,
    ensures
        (hi << 8) | lo == hi * 256 + lo,
        hi << 8 == hi * 256,
        (sum & 0xFFFF) == sum % 65536,
        sum >> 16 == sum / 65536,
        sum <= 65535 ==> ((!sum) as u16) as u32 == 65535 - sum,
{
}

/// The 16-bit one's complement of the one's complement sum of the bytes.
pub fn compute_inet_checksum(data: &[u8]) -> (r: u16)
    requires
        word_sum(data@) <= u32::MAX,
    ensures
        r == inet_checksum(data@),
{
    let mut sum: u32 = 0;
    let mut i: usize = 0;
    assert(data@.take(0) =~= Seq::empty());
    while i < data.len() && data.len() - i > 1
        invariant
            i <= data@.len(),
            i % 2 == 0,
            sum == word_sum(data@.take(i as int)),
            word_sum(data@) <= u32::MAX,
        decreases data@.len() - i,
    {
        proof {
            lemma_words(data@[i as int] as u32, data@[i + 1] as u32, sum);
            let t = data@.take(i + 2);
            assert(t.take(i as int) =~= data@.take(i as int));
            lemma_sum_prefix(data@, i + 2);
        }
        sum = sum + (((data[i] as u32) << 8) | data[i + 1] as u32);
        i = i + 2;
    }
    if i < data.len() {
        proof {
            lemma_words(data@[i as int] as u32, 0, sum);
            assert(data@.drop_last() =~= data@.take(i as int));
        }
        sum = sum + ((data[i] as u32) << 8);
    } else {
        assert(data@.take(i as int) =~= data@);
    }
    let ghost total = sum;
    while sum > 0xFFFF
        invariant
            ones_complement(sum as nat) == ones_complement(total as nat),
        decreases sum,
    {
        proof {
            lemma_words(0, 0, sum);
            lemma_carry(sum as int);
        }
        sum = (sum & 0xFFFF) + (sum >> 16);
    }
    proof {
        lemma_words(0, 0, sum);
    }
    (!sum) as u16
}

proof fn lemma_carry(sum: int)
    requires
        sum > 65535,
    ensures
        0 < sum % 65536 + sum / 65536 < sum,
        (sum % 65536 + sum / 65536 - 1) % 65535 == (sum - 1) % 65535,
{
    let next = sum % 65536 + sum / 65536;
    assert(sum == next + (sum / 65536) * 65535);
    vstd::arithmetic::div_mod::lemma_mod_multiples_vanish(sum / 65536, next - 1, 65535);
    assert((sum / 65536) * 65535 + (next - 1) == sum - 1);
}

proof fn lemma_bytes(x: u32)
    by (bit_vector)
    ensures
        ((x >> 24) as u8) as u32 == x / 0x100_0000,
        ((x >> 16) as u8) as u32 == (x / 0x1_0000) % 256,
        ((x >> 8) as u8) as u32 == (x / 0x100) % 256,
        (x as u8) as u32 == x % 256,
{
}

proof fn lemma_length_bytes(y: u16)
    by (bit_vector)
    ensures
        ((y >> 8) as u8) as u16 == y / 256,
        (y as u8) as u16 == y % 256,
{
}

/// Builds the IPv4 pseudo-header.
pub fn build_pseudo_header(src: u32, dst: u32, proto: u8, length: u16) -> (r: Vec<u8>)
    ensures
        r@ == pseudo_header(src, dst, proto, length),
{
    proof {
        lemma_bytes(src);
        lemma_bytes(dst);
        lemma_length_bytes(length);
    }
    let mut hdr: Vec<u8> = Vec::new();
    hdr.push((src >> 24) as u8);
    hdr.push((src >> 16) as u8);
    hdr.push((src >> 8) as u8);
    hdr.push(src as u8);
    hdr.push((dst >> 24) as u8);
    hdr.push((dst >> 16) as u8);
    hdr.push((dst >> 8) as u8);
    hdr.push(dst as u8);
    hdr.push(0);
    hdr.push(proto);
    hdr.push((length >> 8) as u8);
    hdr.push(length as u8);
    assert(hdr@ =~= pseudo_header(src, dst, proto, length));
    hdr
}

/// The checksum of a TCP segment: protocol 6, and the length of the segment as far
/// as 16 bits hold it.
pub fn tcp_checksum(src_ip: u32, dst_ip: u32, payload: &[u8]) -> (r: u16)
    requires
        word_sum(
            pseudo_header(src_ip, dst_ip, 6, (payload@.len() % 65536) as u16) + payload@,
        ) <= u32::MAX,
    ensures
        r == inet_checksum(
            pseudo_header(src_ip, dst_ip, 6, (payload@.len() % 65536) as u16) + payload@,
        ),
{
    let length: u16 = (payload.len() % 65536) as u16;
    let mut data = build_pseudo_header(src_ip, dst_ip, 6, length);
    let ghost header = data@;
    data.extend_from_slice(payload);
    assert(data@ =~= header + payload@);
    compute_inet_checksum(data.as_slice())
}

/// Bytes of even length followed by their own checksum sum up to 65535: a receiver
/// that sums over both gets the checksum 0, unless there was nothing to sum.
pub proof fn lemma_checksum_verifies(data: Seq<u8>)
    requires
        data.len() % 2 == 0,
    ensures
        ({
            let c = inet_checksum(data);
            let sent = data + seq![(c as int / 256) as u8, (c as int % 256) as u8];
            &&& ones_complement(word_sum(sent)) == 65535
            &&& inet_checksum(sent) == 0
        }),
{
    let c = inet_checksum(data);
    let s = word_sum(data);
    let sent = data + seq![(c as int / 256) as u8, (c as int % 256) as u8];
    assert(sent.take(sent.len() - 2) =~= data);
    let o = ones_complement(s);
    assert(word_sum(sent) == s + c);
    if s > 0 {
        assert(s + c - 1 == ((s - 1) / 65535) * 65535 + 65534) by {
            vstd::arithmetic::div_mod::lemma_fundamental_div_mod(s - 1, 65535);
        }
        vstd::arithmetic::div_mod::lemma_mod_multiples_vanish((s - 1) / 65535, 65534, 65535);
    }
}

/// What a well-formed IPv4 header says: source, destination, protocol and length.
pub open spec fn ipv4_fields(pkt: Seq<u8>) -> Option<(u32, u32, u8, u16)> {
    let words = pkt[0] as int % 16;
    if pkt.len() < 20 || pkt[0] as int / 16 != 4 || words < 5 || pkt.len() < words * 4 {
        None
    } else {
        Some(
            (
                be32(pkt[12], pkt[13], pkt[14], pkt[15]) as u32,
                be32(pkt[16], pkt[17], pkt[18], pkt[19]) as u32,
                pkt[9],
                be16(pkt[2], pkt[3]) as u16,
            ),
        )
    }
}

proof fn lemma_header_bytes(a: u32, b: u32, c: u32, d: u32)
    by (bit_vector)
    requires
        a < 256,
        b < 256,
        c < 256,
        d < 256,
    ensures
        (a << 24) | (b << 16) | (c << 8) | d == a * 0x100_0000 + b * 0x1_0000 + c * 0x100 + d,
{
}

proof fn lemma_half_bytes(a: u8, hi: u16, lo: u16)
    by (bit_vector)
    requires
        hi < 256,
        lo < 256,
    ensures
        (hi << 8) | lo == hi * 256 + lo,
        a >> 4 == a / 16,
        a & 0x0F == a % 16,
{
}

fn read_be32(a: u8, b: u8, c: u8, d: u8) -> (r: u32)
    ensures
        r == be32(a, b, c, d),
{
    proof {
        lemma_header_bytes(a as u32, b as u32, c as u32, d as u32);
    }
    ((a as u32) << 24) | ((b as u32) << 16) | ((c as u32) << 8) | d as u32
}

/// Reads the fields of an IPv4 header. The header checksum is not verified.
pub fn parse_ipv4_header(pkt: &[u8]) -> (r: Option<(u32, u32, u8, u16)>)
    ensures
        r == ipv4_fields(pkt@),
{
    if pkt.len() < 20 {
        return None;
    }
    proof {
        lemma_half_bytes(pkt@[0], pkt@[2] as u16, pkt@[3] as u16);
    }
    let version: u8 = pkt[0] >> 4;
    if version != 4 {
        return None;
    }
    let ihl: usize = (pkt[0] & 0x0F) as usize;
    if ihl < 5 || pkt.len() < ihl * 4 {
        return None;
    }
    let total_len: u16 = ((pkt[2] as u16) << 8) | pkt[3] as u16;
    let protocol: u8 = pkt[9];
    let src_ip: u32 = read_be32(pkt[12], pkt[13], pkt[14], pkt[15]);
    let dst_ip: u32 = read_be32(pkt[16], pkt[17], pkt[18], pkt[19]);
    Some((src_ip, dst_ip, protocol, total_len))
}

/// The bytes of a number stand for that number.
pub proof fn lemma_be32_round_trip(x: u32)
    ensures
        be32(be32_bytes(x)[0], be32_bytes(x)[1], be32_bytes(x)[2], be32_bytes(x)[3]) == x,
{
    let n = x as int;
    assert(n / 0x100 / 0x100 == n / 0x1_0000);
    assert(n / 0x1_0000 / 0x100 == n / 0x100_0000);
    assert(n / 0x100_0000 < 256);
    assert(be32_bytes(x)[0] == n / 0x100_0000);
    assert(be32_bytes(x)[1] == n / 0x1_0000 % 256);
    assert(be32_bytes(x)[2] == n / 0x100 % 256);
    assert(be32_bytes(x)[3] == n % 256);
}

/// A header of five words that carries the bytes of two addresses is read back.
pub proof fn lemma_addresses_read_back(pkt: Seq<u8>, src: u32, dst: u32)
    requires
        pkt.len() >= 20,
        pkt[0] == 0x45,
        pkt.subrange(12, 16) == be32_bytes(src),
        pkt.subrange(16, 20) == be32_bytes(dst),
    ensures
        ipv4_fields(pkt) == Some((src, dst, pkt[9], be16(pkt[2], pkt[3]) as u16)),
{
    let s = pkt.subrange(12, 16);
    let d = pkt.subrange(16, 20);
    assert(be32(pkt[12], pkt[13], pkt[14], pkt[15]) == be32(s[0], s[1], s[2], s[3]));
    assert(be32(pkt[16], pkt[17], pkt[18], pkt[19]) == be32(d[0], d[1], d[2], d[3]));
    lemma_be32_round_trip(src);
    lemma_be32_round_trip(dst);
}

/// The pseudo header holds the two addresses, the protocol behind a zero and the
/// length, each with its high byte first.
pub proof fn lemma_pseudo_header_fields(src: u32, dst: u32, proto: u8, length: u16)
    ensures
        ({
            let h = pseudo_header(src, dst, proto, length);
            &&& h.len() == 12
            &&& be32(h[0], h[1], h[2], h[3]) == src
            &&& be32(h[4], h[5], h[6], h[7]) == dst
            &&& h[8] == 0
            &&& h[9] == proto
            &&& be16(h[10], h[11]) == length
        }),
{
    lemma_be32_round_trip(src);
    lemma_be32_round_trip(dst);
    let h = pseudo_header(src, dst, proto, length);
    assert(h[0] == be32_bytes(src)[0] && h[1] == be32_bytes(src)[1] && h[2] == be32_bytes(src)[2]
        && h[3] == be32_bytes(src)[3]);
    assert(h[4] == be32_bytes(dst)[0] && h[5] == be32_bytes(dst)[1] && h[6] == be32_bytes(dst)[2]
        && h[7] == be32_bytes(dst)[3]);
}

/// Two bytes more at an even place add their word, and one byte at the end counts as
/// the high one of a word.
pub proof fn lemma_words_add(data: Seq<u8>, hi: u8, lo: u8)
    requires
        data.len() % 2 == 0,
    ensures
        word_sum(data.push(hi).push(lo)) == word_sum(data) + hi * 256 + lo,
        word_sum(data.push(hi)) == word_sum(data) + hi * 256,
        word_sum(Seq::<u8>::empty()) == 0,
{
    assert(data.push(hi).push(lo).take(data.len() as int) =~= data);
    assert(data.push(hi).drop_last() =~= data);
}

/// A packet is one of the fourth version with a full header, or it is none.
pub proof fn lemma_packet_has_header(pkt: Seq<u8>)
    requires
        ipv4_fields(pkt) is Some,
    ensures
        pkt.len() >= 20,
        pkt[0] / 16 == 4,
        pkt[0] % 16 >= 5,
        pkt.len() >= (pkt[0] % 16) * 4,
        ipv4_fields(pkt) matches Some(f) && f.2 == pkt[9] && f.3 == pkt[2] * 256 + pkt[3],
{
}

} // verus!
