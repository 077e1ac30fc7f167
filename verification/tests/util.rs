use chaos_kernel::bits::{extend, to_signed, to_signed_half};
use chaos_kernel::fs::file::{FHandle, FLike, FdOpt};
use chaos_kernel::fs::mount::MountTable;
use chaos_kernel::process::kernel::Kernel;
use chaos_kernel::util::codec::{compute_crc32, decode_varint, encode_varint};
use chaos_kernel::util::log::{log_enabled, same_ignoring_case, trim};
use chaos_kernel::util::net::{build_pseudo_header, compute_inet_checksum, parse_ipv4_header};
use chaos_kernel::util::scan::{compute_load_balance, mem_scan_pattern};
use chaos_kernel::util::tables::{audit_fd_table, bucket_mounts, rehash_mount_cache};
use chaos_kernel::util::words::{
    align_down, align_up, bitwise_merge, clz64, ffs64, hash_combine, is_power_of_two, log2_floor,
    murmurhash3_finalize, popcount64, rotate_bits,
};
use std::collections::BTreeMap;

#[test]
fn words_as_signed_numbers() {
    assert_eq!(to_signed(5), 5);
    assert_eq!(to_signed(u64::MAX), -1);
    assert_eq!(to_signed(1 << 63), i64::MIN);
    assert_eq!(to_signed_half(0x1_0000_0007), 7);
    assert_eq!(to_signed_half(0xFFFF_FFFE), -2);
    assert_eq!(extend(-2), u64::MAX - 1);
    assert_eq!(extend(9), 9);
    assert_eq!(to_signed_half(extend(i32::MIN)), i32::MIN);
}

#[test]
fn crc_of_the_check_string() {
    assert_eq!(compute_crc32(b"123456789"), 0xCBF4_3926);
    assert_eq!(compute_crc32(b""), 0);
}

#[test]
fn varints_read_back() {
    for v in [0u64, 1, 127, 128, 300, 1 << 35, u64::MAX] {
        let mut out = Vec::new();
        let n = encode_varint(v, &mut out);
        assert_eq!(n, out.len());
        out.push(0xFF);
        assert_eq!(decode_varint(&out), Some((v, n)));
    }
    let mut out = Vec::new();
    encode_varint(300, &mut out);
    assert_eq!(out, vec![0xAC, 0x02]);
    assert_eq!(decode_varint(&[0x80, 0x80]), None);
    assert_eq!(decode_varint(&[]), None);
    assert_eq!(decode_varint(&[0xFF, 0xFF, 0xFF, 0xFF, 0xFF, 0xFF, 0xFF, 0xFF, 0xFF, 0x02]), None);
}

#[test]
fn checksum_of_checksummed_data_is_zero() {
    let data = [0x45u8, 0x00, 0x00, 0x54, 0x12, 0x34];
    let sum = compute_inet_checksum(&data);
    let mut with = data.to_vec();
    with.push((sum >> 8) as u8);
    with.push((sum & 0xFF) as u8);
    assert_eq!(compute_inet_checksum(&with), 0);
    assert_eq!(compute_inet_checksum(&[]), 0xFFFF);
    assert_eq!(compute_inet_checksum(&[0x01]), 0xFEFF);
}

#[test]
fn pseudo_header_bytes() {
    assert_eq!(
        build_pseudo_header(0x0102_0304, 0x0506_0708, 6, 0x090A),
        vec![1, 2, 3, 4, 5, 6, 7, 8, 0, 6, 9, 10]
    );
}

#[test]
fn ipv4_headers() {
    let mut pkt = vec![0u8; 20];
    pkt[0] = 0x45;
    pkt[3] = 20;
    pkt[9] = 6;
    pkt[12] = 10;
    pkt[15] = 1;
    pkt[16] = 10;
    pkt[19] = 2;
    let parsed = parse_ipv4_header(&pkt);
    assert!(parsed.is_some());
    let (src, dst, proto, _) = parsed.unwrap();
    assert_eq!((src, dst, proto), (0x0A00_0001, 0x0A00_0002, 6));
    assert_eq!(parse_ipv4_header(&pkt[..19]), None);
    pkt[0] = 0x65;
    assert_eq!(parse_ipv4_header(&pkt), None);
}

#[test]
fn patterns_are_found_in_order() {
    assert_eq!(mem_scan_pattern(b"abababa", b"aba", 10), vec![0, 2, 4]);
    assert_eq!(mem_scan_pattern(b"abababa", b"aba", 2), vec![0, 2]);
    assert_eq!(mem_scan_pattern(b"abc", b"", 2), Vec::<usize>::new());
    assert_eq!(mem_scan_pattern(b"ab", b"abc", 2), Vec::<usize>::new());
}

#[test]
fn load_goes_to_the_best_processor() {
    assert_eq!(compute_load_balance(&[], &[], &[]), 0);
    assert_eq!(compute_load_balance(&[3, 1, 2], &[0, 0, 0], &[false, false, false]), 1);
    assert_eq!(compute_load_balance(&[1, 1], &[0, 100], &[false, false]), 1);
    assert_eq!(compute_load_balance(&[1, 1], &[0, 0], &[true, false]), 1);
    assert_eq!(compute_load_balance(&[1, 1], &[], &[]), 0);
}

#[test]
fn descriptor_gaps_and_nameless_files_are_leaks() {
    let opt = FdOpt { rd: true, wr: false, ap: false, nb: false };
    let mut files: BTreeMap<u64, FLike> = BTreeMap::new();
    files.insert(2, FLike::File(FHandle::new("x", opt, false, false)));
    files.insert(5, FLike::File(FHandle::new("", opt, false, false)));
    assert_eq!(audit_fd_table(&files), vec![3, 4, 5]);
}

#[test]
fn mounts_are_hashed() {
    let mut mnt = MountTable::new();
    mnt.bind("/a", "x");
    mnt.bind("/bb", "y");
    assert_eq!(mnt.entries[0].prefix, "/bb");
    let by_hash = rehash_mount_cache(&mnt.entries);
    assert_eq!(by_hash.len(), 2);
    assert_eq!(by_hash[&0xe8ba_3cd9_9756_be3f], 0);
    assert_eq!(by_hash[&0x4483_90e8_cb9e_1e9c], 1);
    let by_bucket = bucket_mounts(&mnt.entries);
    assert_eq!(by_bucket[&63], 0);
    assert_eq!(by_bucket[&28], 1);
    assert_eq!(Kernel::rehash_mount_cache(&mnt.entries), by_bucket);
}

#[test]
fn words_bit_by_bit() {
    assert_eq!(popcount64(0), 0);
    assert_eq!(popcount64(u64::MAX), 64);
    assert_eq!(popcount64(0xF0F0), 8);
    assert_eq!(clz64(0), 64);
    assert_eq!(clz64(1), 63);
    assert_eq!(clz64(1 << 63), 0);
    assert_eq!(ffs64(0), None);
    assert_eq!(ffs64(0b1000), Some(3));
    assert_eq!(bitwise_merge(0xFFFF, 0x1234, 0x0FF0), 0xF23F);
}

#[test]
fn words_turn_within_their_width() {
    assert_eq!(rotate_bits(0b0001, 1, 4), 0b0010);
    assert_eq!(rotate_bits(0b1000, 1, 4), 0b0001);
    assert_eq!(rotate_bits(0b1001, 4, 4), 0b1001);
}

#[test]
fn alignment_and_logarithms() {
    assert_eq!(align_up(5, 4), 8);
    assert_eq!(align_up(8, 4), 8);
    assert_eq!(align_down(7, 4), 4);
    assert!(is_power_of_two(64));
    assert!(!is_power_of_two(0));
    assert!(!is_power_of_two(6));
    assert_eq!(log2_floor(1), 0);
    assert_eq!(log2_floor(1023), 9);
    assert_eq!(log2_floor(1024), 10);
}

#[test]
fn hashes_mix() {
    assert_eq!(hash_combine(1, 2), 0x3c6e_f372_fe94_f86b);
    assert_eq!(hash_combine(0x1_2345_6789, 5), 0x1715_60e9_b5da_cf02);
    assert_eq!(murmurhash3_finalize(0), 0);
    assert_eq!(murmurhash3_finalize(1), 0xb456_bcfc_34c2_cb2c);
    assert_eq!(murmurhash3_finalize(0xdead_beef), 0xd24b_d59f_862a_1dac);
}

#[test]
fn texts_are_trimmed_and_compared() {
    assert_eq!(trim("  a b\t\n"), "a b");
    assert_eq!(trim("\u{3000}\u{85}x\u{a0}\u{2009}"), "x");
    assert_eq!(trim("\u{200b}x"), "\u{200b}x");
    assert_eq!(trim(" \r\n"), "");
    assert!(same_ignoring_case("FaLse", "fAlSE"));
    assert!(!same_ignoring_case("\u{c4}", "\u{e4}"));
    assert!(!same_ignoring_case("@", "`"));
    assert!(!same_ignoring_case("all", "al"));
}

#[test]
fn log_list_chooses_modules() {
    assert!(log_enabled(None, "gkl"));
    assert!(!log_enabled(None, "fs"));
    for off in ["", "  ", "0", " false ", "FALSE"] {
        assert!(!log_enabled(Some(off), "gkl"));
        assert!(!log_enabled(Some(off), "fs"));
    }
    for on in ["1", " true", "True", "ALL\n"] {
        assert!(log_enabled(Some(on), "gkl"));
        assert!(log_enabled(Some(on), "anything"));
    }
    assert!(log_enabled(Some("gkl, Cache ,fs"), "cache"));
    assert!(log_enabled(Some("gkl,cache,fs"), "fs"));
    assert!(log_enabled(Some("gkl,cache,fs"), "gkl"));
    assert!(!log_enabled(Some("gkl,cache,fs"), "mm"));
    assert!(!log_enabled(Some("gkl,cache,fs"), "ca"));
    assert!(log_enabled(Some("Locks"), "gkl"));
    assert!(!log_enabled(Some("locks"), "GKL"));
    assert!(!log_enabled(Some("all,mm"), "fs"));
    assert!(log_enabled(Some("mm,"), ""));
    assert!(!log_enabled(Some("mm"), ""));
}
