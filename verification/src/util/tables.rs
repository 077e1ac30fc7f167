//! Checks and hashes of kernel tables.
use crate::fs::file::FLike;
use crate::fs::mount::MountEntry;
use crate::keys;
use crate::keys::sorted_keys;
use std::collections::BTreeMap;
use vstd::prelude::*;
use vstd::string::*;

verus! {

broadcast use vstd::std_specs::btree::group_btree_axioms;

/// The numbers between two descriptors.
pub open spec fn between(a: u64, b: u64) -> Seq<u64> {
    Seq::new((b - a - 1) as nat, |i: int| (a + 1 + i) as u64)
}

/// The descriptor names a file without a name.
pub open spec fn nameless(f: FLike) -> bool {
    f matches FLike::File(h) && h.path@.len() == 0
}

/// What the audit reports of the listed descriptors.
pub open spec fn audited(list: Seq<u64>, files: Map<u64, FLike>) -> Seq<u64>
    decreases list.len(),
{
    if list.len() == 0 {
        Seq::empty()
    } else {
        let front = audited(list.drop_last(), files);
        let fd = list.last();
        let gaps = if list.len() > 1 {
            between(list[list.len() - 2], fd)
        } else {
            Seq::empty()
        };
        if nameless(files[fd]) {
            (front + gaps).push(fd)
        } else {
            front + gaps
        }
    }
}

/// The gaps in a descriptor table and the descriptors of files without a name, in
/// rising order.
pub fn audit_fd_table(files: &BTreeMap<u64, FLike>) -> (r: Vec<u64>)
    ensures
        r@ == audited(keys::listing(files@), files@),
{
    let list = sorted_keys(files);
    let ghost ks = list@;
    proof {
        keys::lemma_listing(ks, files@);
        assert(ks.take(0) =~= Seq::empty());
    }
    let mut leaks: Vec<u64> = Vec::new();
    let mut i: usize = 0;
    while i < list.len()
        invariant
            i <= list@.len(),
            ks == list@,
            keys::lists_keys(ks, files@),
            leaks@ == audited(ks.take(i as int), files@),
        decreases list@.len() - i,
    {
        let fd: u64 = list[i];
        let ghost before = leaks@;
        let ghost t = ks.take(i + 1);
        proof {
            assert(t.drop_last() =~= ks.take(i as int));
            assert(ks.contains(fd));
        }
        if i > 0 {
            let p: u64 = list[i - 1];
            assert(ks[i - 1] < ks[i as int]);
            let mut gap: u64 = p + 1;
            assert(leaks@ =~= before + between(p, fd).take(0));
            while gap < fd
                invariant
                    p < gap <= fd,
                    leaks@ == before + between(p, fd).take(gap - p - 1),
                decreases fd - gap,
            {
                leaks.push(gap);
                gap = gap + 1;
                assert(leaks@ =~= before + between(p, fd).take(gap - p - 1));
            }
            assert(between(p, fd).take(gap - p - 1) =~= between(p, fd));
            assert(t[t.len() - 2] == p);
        } else {
            assert(before =~= before + Seq::<u64>::empty());
        }
        let leak = match files.get(&fd) {
            Some(FLike::File(fh)) => {
                let empty = fh.path.as_str().unicode_len() == 0;
                empty
            },
            _ => false,
        };
        if leak {
            leaks.push(fd);
        }
        i = i + 1;
    }
    assert(ks.take(i as int) =~= ks);
    leaks
}

/// The FNV-1a hash of bytes.
pub open spec fn fnv_bytes(h: u64, s: Seq<u8>) -> u64
    decreases s.len(),
{
    if s.len() == 0 {
        h
    } else {
        (fnv_bytes(h, s.drop_last()) ^ (s.last() as u64)).wrapping_mul(0x100000001b3)
    }
}

/// The hash of a mount: its prefix, and the length of its target in bytes.
pub open spec fn mount_hash(e: MountEntry) -> u64 {
    (fnv_bytes(0xcbf29ce484222325, vstd::utf8::encode_utf8(e.prefix@)) ^ (
    vstd::utf8::encode_utf8(e.target@).len() as usize as u64)).wrapping_mul(0x517cc1b727220a95)
}

/// The places of the first `n` mounts by hash, the later one where hashes collide.
pub open spec fn mounts_by_hash(s: Seq<MountEntry>, n: nat) -> Map<u64, usize>
    decreases n,
{
    if n == 0 {
        Map::empty()
    } else {
        mounts_by_hash(s, (n - 1) as nat).insert(mount_hash(s[n - 1]), (n - 1) as usize)
    }
}

/// The same by the remainder of the hash by 64.
pub open spec fn mounts_by_bucket(s: Seq<MountEntry>, n: nat) -> Map<u64, usize>
    decreases n,
{
    if n == 0 {
        Map::empty()
    } else {
        mounts_by_bucket(s, (n - 1) as nat).insert(mount_hash(s[n - 1]) % 64, (n - 1) as usize)
    }
}

fn hash_mount(e: &MountEntry) -> (h: u64)
    ensures
        h == mount_hash(*e),
{
    let bytes = e.prefix.as_str().as_bytes();
    let ghost b = bytes@;
    let mut h: u64 = 0xcbf29ce484222325;
    let mut i: usize = 0;
    while i < bytes.len()
        invariant
            i <= bytes@.len(),
            b == bytes@,
            h == fnv_bytes(0xcbf29ce484222325, b.take(i as int)),
        decreases bytes@.len() - i,
    {
        assert(b.take(i + 1).drop_last() =~= b.take(i as int));
        h = h ^ (bytes[i] as u64);
        h = h.wrapping_mul(0x100000001b3);
        i = i + 1;
    }
    assert(b.take(i as int) =~= b);
    h = h ^ (e.target.as_str().len() as u64);
    h.wrapping_mul(0x517cc1b727220a95)
}

/// The places of the mounts by their hashes.
pub fn rehash_mount_cache(entries: &Vec<MountEntry>) -> (r: BTreeMap<u64, usize>)
    ensures
        r@ == mounts_by_hash(entries@, entries@.len()),
{
    let mut map: BTreeMap<u64, usize> = BTreeMap::new();
    let mut i: usize = 0;
    while i < entries.len()
        invariant
            i <= entries@.len(),
            map@ == mounts_by_hash(entries@, i as nat),
        decreases entries@.len() - i,
    {
        let h = hash_mount(&entries[i]);
        map.insert(h, i);
        i = i + 1;
    }
    map
}

/// The places of the mounts by the buckets of their hashes.
pub fn bucket_mounts(entries: &Vec<MountEntry>) -> (r: BTreeMap<u64, usize>)
    ensures
        r@ == mounts_by_bucket(entries@, entries@.len()),
{
    let mut map: BTreeMap<u64, usize> = BTreeMap::new();
    let mut i: usize = 0;
    while i < entries.len()
        invariant
            i <= entries@.len(),
            map@ == mounts_by_bucket(entries@, i as nat),
        decreases entries@.len() - i,
    {
        let h = hash_mount(&entries[i]);
        map.insert(h % 64, i);
        i = i + 1;
    }
    map
}

/// Of the mounts of a bucket the last one counts.
pub proof fn lemma_last_mount_counts(s: Seq<MountEntry>, n: nat, h: u64)
    requires
        n <= s.len(),
        n <= usize::MAX,
    ensures
        mounts_by_bucket(s, n).contains_key(h) <==> exists|i: int|
            0 <= i < n && mount_hash(#[trigger] s[i]) % 64 == h,
        mounts_by_bucket(s, n).contains_key(h) ==> {
            let at = mounts_by_bucket(s, n)[h] as int;
            &&& 0 <= at < n
            &&& mount_hash(s[at]) % 64 == h
            &&& forall|i: int| at < i < n ==> mount_hash(#[trigger] s[i]) % 64 != h
        },
        mounts_by_hash(s, n).contains_key(h) ==> {
            let at = mounts_by_hash(s, n)[h] as int;
            &&& 0 <= at < n
            &&& mount_hash(s[at]) == h
            &&& forall|i: int| at < i < n ==> mount_hash(#[trigger] s[i]) != h
        },
    decreases n,
{
    if n > 0 {
        lemma_last_mount_counts(s, (n - 1) as nat, h);
        if exists|i: int| 0 <= i < n && mount_hash(#[trigger] s[i]) % 64 == h {
            let i = choose|i: int| 0 <= i < n && mount_hash(#[trigger] s[i]) % 64 == h;
            if i < n - 1 {
                assert(mount_hash(s[i]) % 64 == h);
            }
        }
        if mount_hash(s[n - 1]) % 64 == h {
            assert(mount_hash(s[n - 1]) % 64 == h);
        }
    }
}

/// An audit names the descriptors without a path, and the numbers between two
/// descriptors; nothing else.
pub proof fn lemma_audit_names(list: Seq<u64>, files: Map<u64, FLike>, x: u64)
    requires
        keys::increasing(list),
    ensures
        audited(list, files).contains(x) ==> (list.contains(x) && (files[x] matches FLike::File(h)
            && h.path@.len() == 0)) || (list.len() > 1 && list[0] < x < list.last()),
        list.contains(x) && (files[x] matches FLike::File(h) && h.path@.len() == 0) ==> audited(
            list,
            files,
        ).contains(x),
    decreases list.len(),
{
    if list.len() > 0 {
        let rest = list.drop_last();
        let fd = list.last();
        let front = audited(rest, files);
        let gaps = if list.len() > 1 {
            between(list[list.len() - 2], fd)
        } else {
            Seq::empty()
        };
        let all = audited(list, files);
        assert(keys::increasing(rest)) by {
            assert forall|i: int, j: int| 0 <= i < j < rest.len() implies rest[i] < rest[j] by {
                assert(list[i] < list[j]);
            }
        }
        lemma_audit_names(rest, files, x);
        if all.contains(x) {
            let k = choose|k: int| 0 <= k < all.len() && all[k] == x;
            if k < front.len() {
                assert(front[k] == x);
                if rest.contains(x) {
                    let j = choose|j: int| 0 <= j < rest.len() && rest[j] == x;
                    assert(list[j] == x);
                }
                if rest.len() > 1 {
                    assert(rest[0] == list[0]);
                    assert(list[list.len() - 2] < list[list.len() - 1]);
                    assert(rest.last() == list[list.len() - 2]);
                }
            } else if k < front.len() + gaps.len() {
                assert(gaps[k - front.len()] == x);
                let p = list[list.len() - 2];
                assert(p < list[list.len() - 1]);
                assert(list.len() > 2 ==> list[0] < p);
            } else {
                assert(list[list.len() - 1] == x);
            }
        }
        if list.contains(x) && nameless(files[x]) {
            let j = choose|j: int| 0 <= j < list.len() && list[j] == x;
            if j < rest.len() {
                assert(rest[j] == x);
                let k = choose|k: int| 0 <= k < front.len() && front[k] == x;
                assert(all[k] == x);
            } else {
                assert(all[(front.len() + gaps.len()) as int] == x);
            }
        }
    }
}

/// Every number between two descriptors that follow each other is named.
pub proof fn lemma_audit_names_gaps(list: Seq<u64>, files: Map<u64, FLike>, i: int, x: u64)
    requires
        keys::increasing(list),
        0 <= i < list.len() - 1,
        list[i] < x < list[i + 1],
    ensures
        audited(list, files).contains(x),
    decreases list.len(),
{
    let rest = list.drop_last();
    let front = audited(rest, files);
    let fd = list.last();
    let gaps = between(list[list.len() - 2], fd);
    let all = audited(list, files);
    if i + 1 < rest.len() {
        assert(keys::increasing(rest)) by {
            assert forall|a: int, b: int| 0 <= a < b < rest.len() implies rest[a] < rest[b] by {
                assert(list[a] < list[b]);
            }
        }
        lemma_audit_names_gaps(rest, files, i, x);
        let k = choose|k: int| 0 <= k < front.len() && front[k] == x;
        assert(all[k] == x);
    } else {
        let k = x - list[i] - 1;
        assert(gaps[k] == x);
        assert(all[front.len() + k] == x);
    }
}

} // verus!
